use vstd::prelude::*;

use crate::text::{chars_of, contains_string, parse_usize, parse_usize_spec, trim, trim_bounds};

verus! {

/// A lock file that marks a running instance of a program.
pub struct LockFile {
    pub path: String,
}

/// Why a lock could not be taken.
#[derive(PartialEq, Eq, Structural, Debug)]
pub enum LockError {
    /// Another running instance of the program holds the lock.
    AlreadyExists,
}

impl LockError {
    /// The message that goes with the error.
    pub fn message(&self) -> (out: String)
        ensures
            out@ == "Lock already acquired by other instance"@,
    {
        String::from_str("Lock already acquired by other instance")
    }
}

/// The path of the lock file named `name`: `/tmp/<name>.lock`.
pub open spec fn lock_path_spec(name: Seq<char>) -> Seq<char> {
    "/tmp/"@ + name + ".lock"@
}

/// The path of the lock file named `name`.
pub fn lock_path(name: &String) -> (out: String)
    ensures
        out@ == lock_path_spec(name@),
{
    let mut out = String::from_str("/tmp/");
    out.append(name.as_str());
    out.append(".lock");
    out
}

/// The process id that the text of a lock file gives, if it is a number
/// once trimmed.
pub fn parse_lock_pid(content: &str) -> (out: Option<usize>)
    ensures
        out == parse_usize_spec(trim(content@)),
{
    let cs = chars_of(content);
    let (a, b) = trim_bounds(&cs, 0, cs.len(), false);
    proof {
        assert(cs@.subrange(0, cs@.len() as int) =~= cs@);
    }
    parse_usize(&cs, a, b)
}

/// Whether a running process holds the lock: the process whose id the lock
/// file gives, when there is one, has the program `program` among its
/// command line arguments.
pub open spec fn held_by(process_args: Option<Seq<Seq<char>>>, program: Seq<char>) -> bool {
    match process_args {
        Some(args) => args.contains(program),
        None => false,
    }
}

/// Whether another instance holds the lock, from the command line
/// arguments of the process that the lock file names (when that process
/// runs) and the program of this instance.
pub fn lock_is_held(process_args: &Option<Vec<String>>, program: &String) -> (out: bool)
    ensures
        out == held_by(
            match process_args {
                Some(a) => Some(a.deep_view()),
                None => None,
            },
            program@,
        ),
{
    match process_args {
        Some(args) => contains_string(args, program),
        None => false,
    }
}

impl LockFile {
    /// Takes the lock named `name` unless another instance holds it; the
    /// caller writes this process's id into the file at the returned path.
    pub fn try_to_acquire(name: &String, held_elsewhere: bool) -> (out: Result<LockFile, LockError>)
        ensures
            held_elsewhere ==> out == Err::<LockFile, LockError>(LockError::AlreadyExists),
            !held_elsewhere ==> out is Ok && out->Ok_0.path@ == lock_path_spec(name@),
    {
        if held_elsewhere {
            Err(LockError::AlreadyExists)
        } else {
            Ok(LockFile { path: lock_path(name) })
        }
    }
}

} // verus!
