//! The process executor's policy: what exactly is run for a job.
//!
//! The daemon never parses a job's command line itself; it hands the
//! string to a shell. This module fixes, as a verified function of the
//! job alone, every parameter of that child process: program, arguments,
//! environment, working directory, identity, and the name of the output
//! file both streams are redirected to. The surrounding process takes
//! the plan and performs the actual spawn and wait.

use vstd::prelude::*;

use crate::job::{envs_view, Job};

verus! {

/// Everything the spawn of one job is determined by.
pub struct ExecPlan {
    /// The program to spawn: always the shell.
    pub program: String,
    /// The shell's first argument: always the "run this string" flag.
    pub command_flag: String,
    /// The shell's second argument: the job's command line, verbatim.
    pub command: String,
    /// Exactly the variables the child sees, set on a cleared
    /// environment. Empty when the job carries none.
    pub envs: Vec<(String, String)>,
    /// Directory to change into; `None` inherits the daemon's own.
    pub dir: Option<String>,
    /// The user (and group) id the child runs as.
    pub uid: u32,
    /// Name of the file both stdout and stderr are redirected to: the
    /// job's id.
    pub output_name: String,
}

/// Build the invocation for one job.
///
/// The command runs through `sh -c`, on a cleared environment extended by
/// exactly the job's variables, in the job's directory if it names one,
/// as the submitting user, with both output streams going to the file
/// named by the job's id.
pub fn exec_plan(job: &Job) -> (plan: ExecPlan)
    ensures
        plan.program@ == "sh"@,
        plan.command_flag@ == "-c"@,
        plan.command@ == job@.command,
        envs_view(plan.envs@) == match job@.envs {
            Some(es) => es,
            None => Seq::<(Seq<char>, Seq<char>)>::empty(),
        },
        match (plan.dir, job@.dir) {
            (Some(p), Some(j)) => p@ == j,
            (None, None) => true,
            _ => false,
        },
        plan.uid == job@.uid,
        plan.output_name@ == job@.id,
{
    let cloned = job.clone();
    let envs = match cloned.envs {
        Some(es) => es,
        None => Vec::new(),
    };
    proof {
        if job@.envs is None {
            assert(envs_view(envs@) =~= Seq::<(Seq<char>, Seq<char>)>::empty());
        }
    }
    ExecPlan {
        program: String::from_str("sh"),
        command_flag: String::from_str("-c"),
        command: cloned.command,
        envs,
        dir: cloned.dir,
        uid: cloned.uid,
        output_name: cloned.id.text,
    }
}

} // verus!
