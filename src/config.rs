use vstd::prelude::*;
use crate::bumper::{CmdlinePattern, Error, ProcessDetection, regex_compiles};

verus! {

/// The program's settings.
pub struct Opts {
    /// The directory that receives the files of the configuration objects.
    pub dir: String,
    /// The namespace in which the objects are watched.
    pub namespace: String,
    /// Whether the cluster's certificate chain must be valid.
    pub tls_verify: Option<bool>,
    /// The label selector of the watched objects.
    pub labels: String,
    /// A pattern over the command line of the process to signal.
    pub process_command: Option<String>,
    /// The id of the process to signal; takes precedence over the pattern.
    pub process_pid: Option<i32>,
    /// A pattern over the command line of the required parent process.
    pub process_parent_command: Option<String>,
    /// The id of the required parent process; takes precedence over the pattern.
    pub process_parent_pid: Option<i32>,
    /// The name of the signal to send when a file changed.
    pub signal: Option<String>,
}

/// Whether an id or a pattern is given.
pub open spec fn described(cmd: Option<String>, pid: Option<i32>) -> bool {
    pid is Some || cmd is Some
}

/// Whether `d` is the criterion that an id (preferred) or a pattern gives.
pub open spec fn detection_from(d: ProcessDetection, cmd: Option<String>, pid: Option<i32>) -> bool {
    match pid {
        Some(p) => d == ProcessDetection::Pid(p),
        None => match cmd {
            Some(c) => d matches ProcessDetection::Cmdline(pat) && pat@ == c@,
            None => false,
        },
    }
}

/// Whether the settings can be turned into a criterion: an id is given, or
/// no pattern, or a pattern that compiles.
pub open spec fn detection_ok(cmd: Option<String>, pid: Option<i32>) -> bool {
    pid is Some || cmd is None || regex_compiles(cmd->0@)
}

/// The criterion that an id or, failing that, a pattern gives; `None` when
/// neither is given. Fails with `InitError` on a pattern that does not compile.
pub fn process_detection_config(cmd: &Option<String>, pid: &Option<i32>) -> (r: Result<
    Option<ProcessDetection>,
    Error,
>)
    ensures
        r.is_ok() == detection_ok(*cmd, *pid),
        r matches Err(e) ==> e is InitError,
        r matches Ok(d) ==> (d is Some == described(*cmd, *pid)),
        r matches Ok(Some(d)) ==> detection_from(d, *cmd, *pid),
{
    match pid {
        Some(p) => Ok(Some(ProcessDetection::Pid(*p))),
        None => match cmd {
            Some(c) => match CmdlinePattern::new(c.as_str()) {
                Ok(pat) => Ok(Some(ProcessDetection::Cmdline(pat))),
                Err(e) => Err(e),
            },
            None => Ok(None),
        },
    }
}

/// The process chain (target first, then its required parent) and the signal
/// name of a bumper, or `None` when no signal is configured. Fails with
/// `InitError` when a pattern does not compile.
pub fn bumper_config(opts: &Opts) -> (r: Result<Option<(Vec<ProcessDetection>, String)>, Error>)
    ensures
        opts.signal is None ==> r matches Ok(None),
        opts.signal is Some ==> (r.is_ok() == (detection_ok(opts.process_command, opts.process_pid)
            && detection_ok(opts.process_parent_command, opts.process_parent_pid))),
        r matches Err(e) ==> e is InitError,
        r matches Ok(Some((v, s))) ==> {
            let target = described(opts.process_command, opts.process_pid);
            let parent = described(opts.process_parent_command, opts.process_parent_pid);
            &&& opts.signal matches Some(sig) && s@ == sig@
            &&& v@.len() == (if target { 1int } else { 0int }) + (if parent { 1int } else { 0int })
            &&& target ==> detection_from(v@[0], opts.process_command, opts.process_pid)
            &&& parent ==> detection_from(v@[v@.len() - 1], opts.process_parent_command, opts.process_parent_pid)
        },
{
    match &opts.signal {
        Some(signal) => {
            let process = process_detection_config(&opts.process_command, &opts.process_pid);
            let parent_process = process_detection_config(
                &opts.process_parent_command,
                &opts.process_parent_pid,
            );
            let mut ret: Vec<ProcessDetection> = Vec::new();
            match process {
                Ok(Some(d)) => ret.push(d),
                Ok(None) => {},
                Err(e) => return Err(e),
            }
            match parent_process {
                Ok(Some(d)) => ret.push(d),
                Ok(None) => {},
                Err(e) => return Err(e),
            }
            Ok(Some((ret, signal.clone())))
        },
        None => Ok(None),
    }
}

} // verus!
