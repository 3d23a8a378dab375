//! Scheduler ordering and permit behaviour, and the output streaming
//! cursor.

use seph::job::{Job, JobId};
use seph::output::TailSession;
use seph::sched::Scheduler;

fn job(id: &str, command: &str) -> Job {
    Job {
        id: JobId::from(String::from(id)),
        command: String::from(command),
        dir: None,
        uid: 1000,
        envs: None,
    }
}

#[test]
fn fifo_order_two_jobs() {
    let mut s = Scheduler::new();
    s.enqueue(job("j1", "echo one"));
    s.enqueue(job("j2", "echo two"));
    assert!(s.try_start_pass());

    let first = s.take_next().expect("a job is queued");
    assert_eq!(first.id.text, "j1");
    s.job_finished();

    let second = s.take_next().expect("a job is queued");
    assert_eq!(second.id.text, "j2");
    s.job_finished();

    assert!(s.take_next().is_none());
}

#[test]
fn permit_is_single_owner() {
    let mut s = Scheduler::new();
    assert!(s.try_start_pass());
    assert!(!s.try_start_pass());
    assert!(!s.try_start_pass());
}

#[test]
fn empty_pass_releases_permit() {
    let mut s = Scheduler::new();
    assert!(s.try_start_pass());
    assert!(s.take_next().is_none());
    assert!(s.try_start_pass());
}

#[test]
fn job_enqueued_mid_pass_is_absorbed() {
    let mut s = Scheduler::new();
    s.enqueue(job("j1", "a"));
    assert!(s.try_start_pass());
    let first = s.take_next().expect("queued");
    assert_eq!(first.id.text, "j1");
    s.enqueue(job("j3", "c"));
    s.job_finished();
    let next = s.take_next().expect("absorbed into running pass");
    assert_eq!(next.id.text, "j3");
    s.job_finished();
    assert!(s.take_next().is_none());
}

#[test]
fn last_job_is_the_most_recently_started() {
    let mut s = Scheduler::new();
    s.enqueue(job("j1", "a"));
    s.enqueue(job("j2", "b"));
    assert!(s.last_job_id().is_none());
    assert!(s.try_start_pass());
    s.take_next().expect("queued");
    assert_eq!(s.last_job_id().expect("set").text, "j1");
    s.job_finished();
    s.take_next().expect("queued");
    assert_eq!(s.last_job_id().expect("set").text, "j2");
}

#[test]
fn bulk_read_is_whole_file() {
    let mut session = TailSession::new();
    let contents: Vec<u8> = b"all of the output\n".to_vec();
    let chunk = session.next_chunk(&contents);
    assert_eq!(chunk, contents);
    assert_eq!(session.cursor, contents.len());
}

#[test]
fn tail_delivers_every_byte_exactly_once() {
    let mut session = TailSession::new();
    let mut delivered: Vec<u8> = Vec::new();

    let snap1: Vec<u8> = b"hel".to_vec();
    let snap2: Vec<u8> = b"hello wo".to_vec();
    let snap3: Vec<u8> = b"hello world\n".to_vec();

    delivered.extend(session.next_chunk(&snap1));
    assert_eq!(delivered, b"hel");
    delivered.extend(session.next_chunk(&snap2));
    assert_eq!(delivered, b"hello wo");
    // a poll without growth forwards nothing
    delivered.extend(session.next_chunk(&snap2));
    assert_eq!(delivered, b"hello wo");
    delivered.extend(session.next_chunk(&snap3));
    assert_eq!(delivered, snap3);
}

#[test]
fn watch_sees_late_output_without_reconnecting() {
    let mut session = TailSession::new();
    let empty: Vec<u8> = Vec::new();
    assert!(session.next_chunk(&empty).is_empty());
    let after_sleep: Vec<u8> = b"done\n".to_vec();
    assert_eq!(session.next_chunk(&after_sleep), b"done\n");
}

#[test]
fn shrunk_file_forwards_nothing() {
    let mut session = TailSession::new();
    let big: Vec<u8> = b"0123456789".to_vec();
    session.next_chunk(&big);
    let small: Vec<u8> = b"0123".to_vec();
    assert!(session.next_chunk(&small).is_empty());
    assert_eq!(session.cursor, 10);
}
