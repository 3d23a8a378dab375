//! The job model: identity and execution parameters for one unit of work.
//!
//! A [`JobId`] is an opaque token naming one job; it doubles as the name of
//! the job's output file and as the handle a client passes to retrieve or
//! watch output. A [`Job`] is immutable once queued: its id is assigned
//! exactly once at creation, and only the builder-style methods applied
//! before queueing set the working directory and the environment.

use vstd::prelude::*;

verus! {

/// A lowercase hexadecimal digit, as produced when an integer is rendered
/// in base 16.
pub open spec fn is_lower_hex_digit(c: char) -> bool {
    ('0' <= c && c <= '9') || ('a' <= c && c <= 'f')
}

/// Text that can stand as one field of a wire message: it contains none of
/// the characters the codec gives a meaning to.
pub open spec fn plain_field(s: Seq<char>) -> bool {
    forall|i: int| 0 <= i < s.len() ==> #[trigger] s[i] != ':' && s[i] != '\n' && s[i] != '\r'
}

/// Opaque identifier of one job, also used as its output-file name.
pub struct JobId {
    /// The id's text, which is also the job's output-file name.
    pub text: String,
}

impl View for JobId {
    type V = Seq<char>;

    open spec fn view(&self) -> Seq<char> {
        self.text@
    }
}

/// Id text as the daemon generates it: a short, nonempty run of lowercase
/// hexadecimal digits. Ids received over the wire are not constrained to
/// this shape.
pub open spec fn generated_id_text(s: Seq<char>) -> bool {
    1 <= s.len() <= 8 && forall|i: int| 0 <= i < s.len() ==> is_lower_hex_digit(#[trigger] s[i])
}

/// A generated id is always safe to put on the wire: hexadecimal digits
/// are neither the field delimiter nor a line terminator.
pub proof fn lemma_generated_id_is_plain(s: Seq<char>)
    requires
        generated_id_text(s),
    ensures
        plain_field(s),
        s.len() > 0,
{
}

/// Relies on `uuid::Uuid::new_v4` and the `LowerHex` rendering of its
/// first 32-bit field: the result is 1 to 8 lowercase hexadecimal digits.
/// Nothing is assumed about which digits come back: the value is random.
#[verifier::external_body]
fn fresh_id_text() -> (r: String)
    ensures
        generated_id_text(r@),
{
    format!("{:x}", uuid::Uuid::new_v4().as_fields().0)
}

/// Relies on `nix::unistd::Uid::current` (`getuid`): the real uid of the
/// calling process. The value depends on who runs the process, so nothing
/// is promised of it.
#[verifier::external_body]
fn current_uid_raw() -> u32 {
    nix::unistd::Uid::current().as_raw()
}

impl JobId {
    /// A fresh, randomly drawn id.
    pub fn generate() -> (id: JobId)
        ensures
            generated_id_text(id@),
    {
        JobId { text: fresh_id_text() }
    }

    /// The id's text, e.g. for naming the output file or replying to a
    /// `GetLastJob` request.
    pub fn as_text(&self) -> (r: &str)
        ensures
            r@ == self@,
    {
        self.text.as_str()
    }
}

impl Clone for JobId {
    fn clone(&self) -> (r: Self)
        ensures
            r@ == self@,
    {
        JobId { text: self.text.clone() }
    }
}

impl From<String> for JobId {
    /// Wrap existing text — a client-supplied handle or the persisted
    /// last-job marker — as an id.
    fn from(s: String) -> (r: JobId) {
        JobId { text: s }
    }
}

impl vstd::std_specs::convert::FromSpecImpl<String> for JobId {
    open spec fn obeys_from_spec() -> bool {
        true
    }

    open spec fn from_spec(s: String) -> JobId {
        JobId { text: s }
    }
}

/// One schedulable unit: a shell command line with its execution
/// parameters. Immutable once queued.
pub struct Job {
    /// Assigned at creation, never reused.
    pub id: JobId,
    /// The shell command line; opaque to the scheduler.
    pub command: String,
    /// Working directory; `None` means the daemon's own.
    pub dir: Option<String>,
    /// The identity the child runs as, captured from the submitting
    /// client at creation time.
    pub uid: u32,
    /// Exactly the variables the child sees; `None` means a cleared
    /// environment.
    pub envs: Option<Vec<(String, String)>>,
}

/// The value of one environment entry: key and value as plain sequences.
pub open spec fn env_pair_view(p: (String, String)) -> (Seq<char>, Seq<char>) {
    (p.0@, p.1@)
}

/// The value of an environment list: each entry's key and value, in order.
pub open spec fn envs_view(es: Seq<(String, String)>) -> Seq<(Seq<char>, Seq<char>)> {
    Seq::new(es.len(), |i: int| env_pair_view(es[i]))
}

/// The mathematical value of a [`Job`]: every field as plain sequences.
pub ghost struct JobView {
    pub id: Seq<char>,
    pub command: Seq<char>,
    pub dir: Option<Seq<char>>,
    pub uid: u32,
    pub envs: Option<Seq<(Seq<char>, Seq<char>)>>,
}

impl View for Job {
    type V = JobView;

    open spec fn view(&self) -> JobView {
        JobView {
            id: self.id@,
            command: self.command@,
            dir: match self.dir {
                Some(d) => Some(d@),
                None => None,
            },
            uid: self.uid,
            envs: match self.envs {
                Some(es) => Some(envs_view(es@)),
                None => None,
            },
        }
    }
}

impl Job {
    /// A new job for `command`: fresh id, no working directory, cleared
    /// environment, the identity of the submitting process.
    pub fn new(command: String) -> (job: Job)
        ensures
            job@.command == command@,
            job@.dir is None,
            job@.envs is None,
            generated_id_text(job@.id),
    {
        Job {
            id: JobId::generate(),
            dir: None,
            uid: current_uid_raw(),
            envs: None,
            command,
        }
    }

    /// Set the working directory the child will run in.
    pub fn with_dir(self, dir: String) -> (job: Job)
        ensures
            job@ == (JobView { dir: Some(dir@), ..self@ }),
    {
        Job { dir: Some(dir), ..self }
    }

    /// Set exactly the environment variables the child will see. The
    /// caller captures them; absent a call, the child's environment stays
    /// cleared.
    pub fn with_envs(self, envs: Vec<(String, String)>) -> (job: Job)
        ensures
            job@ == (JobView { envs: Some(envs_view(envs@)), ..self@ }),
    {
        Job { envs: Some(envs), ..self }
    }
}

impl Clone for Job {
    fn clone(&self) -> (r: Self)
        ensures
            r@ == self@,
    {
        let envs: Option<Vec<(String, String)>> = match &self.envs {
            Some(es) => {
                let mut copy: Vec<(String, String)> = Vec::new();
                let mut i: usize = 0;
                while i < es.len()
                    invariant
                        i <= es@.len(),
                        copy@.len() == i,
                        forall|j: int|
                            0 <= j < i ==> env_pair_view(#[trigger] copy@[j])
                                == env_pair_view(es@[j]),
                    decreases es@.len() - i,
                {
                    let pair = (es[i].0.clone(), es[i].1.clone());
                    copy.push(pair);
                    i = i + 1;
                }
                proof {
                    assert(envs_view(copy@) =~= envs_view(es@));
                }
                Some(copy)
            },
            None => None,
        };
        let r = Job {
            id: self.id.clone(),
            command: self.command.clone(),
            dir: match &self.dir {
                Some(d) => Some(d.clone()),
                None => None,
            },
            uid: self.uid,
            envs,
        };
        r
    }
}

} // verus!
