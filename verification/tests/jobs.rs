//! The job model: generated ids, builders, and the execution plan.

use seph::exec::exec_plan;
use seph::job::{Job, JobId};

#[test]
fn new_job_has_short_hex_id_and_defaults() {
    let job = Job::new(String::from("echo hi"));
    assert_eq!(job.command, "echo hi");
    assert!(job.dir.is_none());
    assert!(job.envs.is_none());
    let id = &job.id.text;
    assert!(1 <= id.len() && id.len() <= 8);
    assert!(id.chars().all(|c| c.is_ascii_hexdigit() && !c.is_ascii_uppercase()));
}

#[test]
fn builders_set_dir_and_envs() {
    let job = Job::new(String::from("make"))
        .with_dir(String::from("/srv/build"))
        .with_envs(vec![(String::from("CC"), String::from("cc"))]);
    assert_eq!(job.dir, Some(String::from("/srv/build")));
    assert_eq!(job.envs, Some(vec![(String::from("CC"), String::from("cc"))]));
    assert_eq!(job.command, "make");
}

#[test]
fn clone_preserves_every_field() {
    let job = Job::new(String::from("true"))
        .with_dir(String::from("/"))
        .with_envs(vec![(String::from("A"), String::from("b"))]);
    let copy = job.clone();
    assert_eq!(copy.id.text, job.id.text);
    assert_eq!(copy.command, job.command);
    assert_eq!(copy.dir, job.dir);
    assert_eq!(copy.uid, job.uid);
    assert_eq!(copy.envs, job.envs);
}

#[test]
fn id_as_text_matches_field() {
    let id = JobId::from(String::from("1a2b"));
    assert_eq!(id.as_text(), "1a2b");
    assert_eq!(id.clone().text, "1a2b");
}

#[test]
fn exec_plan_runs_command_through_shell() {
    let job = Job {
        id: JobId::from(String::from("j1")),
        command: String::from("echo hi"),
        dir: None,
        uid: 1000,
        envs: None,
    };
    let plan = exec_plan(&job);
    assert_eq!(plan.program, "sh");
    assert_eq!(plan.command_flag, "-c");
    assert_eq!(plan.command, "echo hi");
    assert!(plan.envs.is_empty());
    assert!(plan.dir.is_none());
    assert_eq!(plan.uid, 1000);
    assert_eq!(plan.output_name, "j1");
}

#[test]
fn exec_plan_applies_dir_envs_and_identity() {
    let job = Job {
        id: JobId::from(String::from("beef")),
        command: String::from("env"),
        dir: Some(String::from("/var/tmp")),
        uid: 4242,
        envs: Some(vec![(String::from("HOME"), String::from("/root"))]),
    };
    let plan = exec_plan(&job);
    assert_eq!(plan.program, "sh");
    assert_eq!(plan.dir, Some(String::from("/var/tmp")));
    assert_eq!(plan.uid, 4242);
    assert_eq!(plan.envs, vec![(String::from("HOME"), String::from("/root"))]);
    assert_eq!(plan.output_name, "beef");
}
