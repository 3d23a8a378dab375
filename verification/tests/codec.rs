//! Wire codec behaviour: exact encodings, round trips, and rejection of
//! malformed input.

use seph::job::{Job, JobId};
use seph::message::Message;

fn schedule_job(id: &str, command: &str) -> Job {
    Job {
        id: JobId::from(String::from(id)),
        command: String::from(command),
        dir: None,
        uid: 1000,
        envs: None,
    }
}

#[test]
fn encode_output_exact() {
    let m = Message::Output(JobId::from(String::from("deadbeef")));
    assert_eq!(m.encode(), "Output:deadbeef\n");
}

#[test]
fn encode_watch_exact() {
    let m = Message::Watch(JobId::from(String::from("ab12")));
    assert_eq!(m.encode(), "Watch:ab12\n");
}

#[test]
fn encode_get_last_job_exact() {
    let m = Message::GetLastJob();
    assert_eq!(m.encode(), "GetLastJob\n");
}

#[test]
fn encode_schedule_minimal_exact() {
    let m = Message::Schedule(schedule_job("abc", "echo hi"));
    assert_eq!(m.encode(), "Schedule:abc:echo hi::1000:\n");
}

#[test]
fn encode_schedule_full_exact() {
    let mut job = schedule_job("abc", "echo hi");
    job = job.with_dir(String::from("/tmp"));
    job = job.with_envs(vec![
        (String::from("K"), String::from("V")),
        (String::from("PATH"), String::from("/bin")),
    ]);
    let m = Message::Schedule(job);
    assert_eq!(m.encode(), "Schedule:abc:echo hi:/tmp:1000:K=V;PATH=/bin\n");
}

#[test]
fn round_trip_schedule_spaces_no_dir_no_envs() {
    let m = Message::Schedule(schedule_job("a1b2", "sleep 1 && echo done"));
    let wire = m.encode();
    let back = Message::decode(wire.as_str()).expect("decodes");
    match back {
        Message::Schedule(job) => {
            assert_eq!(job.id.text, "a1b2");
            assert_eq!(job.command, "sleep 1 && echo done");
            assert!(job.dir.is_none());
            assert_eq!(job.uid, 1000);
            assert!(job.envs.is_none());
        }
        _ => panic!("wrong variant"),
    }
}

#[test]
fn round_trip_schedule_full() {
    let mut job = schedule_job("ff00", "make all");
    job = job.with_dir(String::from("/home/u/src"));
    job = job.with_envs(vec![(String::from("TERM"), String::from("xterm"))]);
    let wire = Message::Schedule(job).encode();
    let back = Message::decode(wire.as_str()).expect("decodes");
    match back {
        Message::Schedule(job) => {
            assert_eq!(job.id.text, "ff00");
            assert_eq!(job.command, "make all");
            assert_eq!(job.dir, Some(String::from("/home/u/src")));
            assert_eq!(job.uid, 1000);
            assert_eq!(
                job.envs,
                Some(vec![(String::from("TERM"), String::from("xterm"))])
            );
        }
        _ => panic!("wrong variant"),
    }
}

#[test]
fn round_trip_output_and_watch() {
    let wire = Message::Output(JobId::from(String::from("77"))).encode();
    match Message::decode(wire.as_str()).expect("decodes") {
        Message::Output(id) => assert_eq!(id.text, "77"),
        _ => panic!("wrong variant"),
    }
    let wire = Message::Watch(JobId::from(String::from("77"))).encode();
    match Message::decode(wire.as_str()).expect("decodes") {
        Message::Watch(id) => assert_eq!(id.text, "77"),
        _ => panic!("wrong variant"),
    }
}

#[test]
fn round_trip_get_last_job() {
    let wire = Message::GetLastJob().encode();
    assert!(matches!(
        Message::decode(wire.as_str()),
        Some(Message::GetLastJob())
    ));
}

#[test]
fn decode_canonical_bytes_re_encode_identically() {
    let wire = "Schedule:abc:echo hi:/tmp:42:A=1;B=2\n";
    let m = Message::decode(wire).expect("decodes");
    assert_eq!(m.encode(), wire);
}

#[test]
fn decode_without_trailing_newline() {
    match Message::decode("Output:xy").expect("decodes") {
        Message::Output(id) => assert_eq!(id.text, "xy"),
        _ => panic!("wrong variant"),
    }
}

#[test]
fn decode_unknown_variant_is_rejected_not_fatal() {
    assert!(Message::decode("Cancel:abc\n").is_none());
    assert!(Message::decode("\n").is_none());
    assert!(Message::decode("").is_none());
}

#[test]
fn decode_wrong_field_count_is_rejected() {
    assert!(Message::decode("Schedule:a:b\n").is_none());
    assert!(Message::decode("Output\n").is_none());
    assert!(Message::decode("Output:a:b\n").is_none());
    assert!(Message::decode("GetLastJob:\n").is_none());
}

#[test]
fn decode_bad_uid_is_rejected() {
    assert!(Message::decode("Schedule:a:b::nope:\n").is_none());
    assert!(Message::decode("Schedule:a:b::007:\n").is_none());
    assert!(Message::decode("Schedule:a:b:::\n").is_none());
    assert!(Message::decode("Schedule:a:b::99999999999:\n").is_none());
}

#[test]
fn decode_bad_env_field_is_rejected() {
    assert!(Message::decode("Schedule:a:b::1:KV\n").is_none());
    assert!(Message::decode("Schedule:a:b::1:K=V;\n").is_none());
}

#[test]
fn uid_boundary_round_trips() {
    let mut job = schedule_job("id", "c");
    job.uid = u32::MAX;
    let wire = Message::Schedule(job).encode();
    match Message::decode(wire.as_str()).expect("decodes") {
        Message::Schedule(job) => assert_eq!(job.uid, u32::MAX),
        _ => panic!("wrong variant"),
    }
}

#[test]
fn uid_zero_round_trips() {
    let m = Message::decode("Schedule:a:b::0:\n").expect("decodes");
    match m {
        Message::Schedule(job) => assert_eq!(job.uid, 0),
        _ => panic!("wrong variant"),
    }
    assert_eq!(Message::decode("Schedule:a:b::4294967295:\n")
        .map(|m| match m {
            Message::Schedule(job) => job.uid,
            _ => panic!("wrong variant"),
        }),
        Some(u32::MAX));
    assert!(Message::decode("Schedule:a:b::4294967296:\n").is_none());
}

#[test]
fn trim_newline_variants() {
    let mut s = String::from("abc\n");
    seph::message::trim_newline(&mut s);
    assert_eq!(s, "abc");

    let mut s = String::from("abc\r\n");
    seph::message::trim_newline(&mut s);
    assert_eq!(s, "abc");

    let mut s = String::from("abc");
    seph::message::trim_newline(&mut s);
    assert_eq!(s, "abc");

    let mut s = String::from("abc\r");
    seph::message::trim_newline(&mut s);
    assert_eq!(s, "abc\r");

    let mut s = String::from("\n");
    seph::message::trim_newline(&mut s);
    assert_eq!(s, "");
}

#[test]
fn expects_reply_per_variant() {
    assert!(!Message::Schedule(schedule_job("a", "b")).expects_reply());
    assert!(Message::Output(JobId::from(String::from("a"))).expects_reply());
    assert!(Message::Watch(JobId::from(String::from("a"))).expects_reply());
    assert!(Message::GetLastJob().expects_reply());
}
