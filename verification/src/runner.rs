//! The runner: the process model, dependency resolution, and the pod's
//! launch, supervision and reap policies. Spawning children, reading their
//! streams and racing futures happen outside this crate; every decision those
//! activities turn on is taken here.

pub mod error;
pub mod proc;
pub mod util;

use vstd::prelude::*;

use crate::config::{spec_opts_same, Options};
use crate::runner::error::Error;
use crate::runner::proc::{spec_built, spec_dkey, spec_parse, Process};
use crate::strutil::clone_vec_string;

verus! {

/// A pod: the options and processes one supervision lifecycle runs with.
#[derive(Debug)]
pub struct Pod {
    pub opts: Options,
    pub procs: Vec<Process>,
}

impl Pod {
    pub fn new(opts: Options, procs: Vec<Process>) -> (r: Pod)
        ensures
            r.opts == opts,
            r.procs == procs,
    {
        Pod { opts, procs }
    }

    /// The same pod with more processes appended after the existing ones.
    pub fn overlay(&self, procs: Vec<Process>) -> (r: Pod)
        ensures
            spec_opts_same(r.opts, self.opts),
            r.procs@.len() == self.procs@.len() + procs@.len(),
            forall|i: int|
                0 <= i < self.procs@.len() ==> crate::runner::proc::spec_proc_same(
                    #[trigger] r.procs@[i],
                    self.procs@[i],
                ),
            forall|i: int|
                0 <= i < procs@.len() ==> r.procs@[self.procs@.len() + i] == #[trigger] procs@[i],
    {
        let mut all = clone_vec_process(&self.procs);
        let mut tail = procs;
        all.append(&mut tail);
        Pod { opts: self.opts.clone(), procs: all }
    }
}

fn clone_vec_process(v: &Vec<Process>) -> (r: Vec<Process>)
    ensures
        r@.len() == v@.len(),
        forall|i: int|
            0 <= i < v@.len() ==> crate::runner::proc::spec_proc_same(#[trigger] r@[i], v@[i]),
{
    let mut out: Vec<Process> = Vec::new();
    let mut i: usize = 0;
    while i < v.len()
        invariant
            i <= v@.len(),
            out@.len() == i,
            forall|j: int|
                0 <= j < i ==> crate::runner::proc::spec_proc_same(#[trigger] out@[j], v@[j]),
        decreases v@.len() - i,
    {
        out.push(v[i].clone());
        i = i + 1;
    }
    out
}

/// The cap on the width child output keys are padded to.
pub const KEY_WIDTH_CAP: usize = 32;

/// The widest display key among the processes.
pub open spec fn spec_max_key_len(s: Seq<&Process>) -> int
    decreases s.len(),
{
    if s.len() == 0 {
        0
    } else {
        let rest = spec_max_key_len(s.drop_last());
        let l = spec_dkey(*s.last()).len() as int;
        if l > rest {
            l
        } else {
            rest
        }
    }
}

/// The width child output keys are padded to: the widest display key in the
/// batch, but never more than the cap.
pub fn max_key_width(procs: &Vec<&Process>) -> (r: usize)
    ensures
        r == if spec_max_key_len(procs@) < KEY_WIDTH_CAP {
            spec_max_key_len(procs@)
        } else {
            KEY_WIDTH_CAP as int
        },
{
    let mut widest: usize = 0;
    let mut i: usize = 0;
    proof {
        assert(procs@.take(0) =~= Seq::<&Process>::empty());
    }
    while i < procs.len()
        invariant
            i <= procs@.len(),
            widest == spec_max_key_len(procs@.take(i as int)),
            widest <= usize::MAX,
        decreases procs@.len() - i,
    {
        let l = procs[i].key().unicode_len();
        if l > widest {
            widest = l;
        }
        proof {
            assert(procs@.take(i + 1).drop_last() =~= procs@.take(i as int));
            assert(procs@.take(i + 1).last() == procs@[i as int]);
        }
        i = i + 1;
    }
    proof {
        assert(procs@.take(procs@.len() as int) =~= procs@);
    }
    if widest < KEY_WIDTH_CAP {
        widest
    } else {
        KEY_WIDTH_CAP
    }
}

/// The prefix a child's output lines carry: the padded key in brackets.
pub open spec fn spec_log_prefix(padded: Seq<char>) -> Seq<char> {
    "[ "@ + padded + " ]"@
}

pub fn log_prefix(padded: &str) -> (r: String)
    ensures
        r@ == spec_log_prefix(padded@),
{
    let mut s: String = "[ ".to_owned();
    s.append(padded);
    s.append(" ]");
    s
}

/// The banner a pod announces its batch with: every display key, joined.
pub open spec fn spec_keys_banner(keys: Seq<Seq<char>>) -> Seq<char> {
    "====> "@ + crate::strutil::join_sep(keys, ", "@)
}

pub fn keys_banner(procs: &Vec<&Process>) -> (r: String)
    ensures
        r@ == spec_keys_banner(procs@.map_values(|p: &Process| spec_dkey(*p))),
{
    let mut keys: Vec<String> = Vec::new();
    let mut i: usize = 0;
    while i < procs.len()
        invariant
            i <= procs@.len(),
            keys.deep_view() =~= procs@.map_values(|p: &Process| spec_dkey(*p)).take(i as int),
        decreases procs@.len() - i,
    {
        let ghost pre = keys.deep_view();
        keys.push(procs[i].key().to_owned());
        proof {
            let all = procs@.map_values(|p: &Process| spec_dkey(*p));
            assert(pre.len() == i);
            assert(keys.deep_view().len() == i + 1);
            assert(keys.deep_view()[i as int] == all[i as int]);
            assert forall|k: int| 0 <= k < i implies keys.deep_view()[k] == all.take(i + 1)[k] by {
                assert(keys.deep_view()[k] == pre[k]);
                assert(pre[k] == all.take(i as int)[k]);
            }
            assert(keys.deep_view() =~= all.take(i + 1));
        }
        i = i + 1;
    }
    proof {
        let all = procs@.map_values(|p: &Process| spec_dkey(*p));
        assert(keys.deep_view() =~= all);
    }
    let joined = crate::strutil::join_keys(&keys, ", ");
    let mut s: String = "====> ".to_owned();
    s.append(joined.as_str());
    s
}

/// The line a process's availability is announced with.
pub open spec fn spec_available_line(key: Seq<char>) -> Seq<char> {
    "----> "@ + key + ": available"@
}

pub fn available_line(key: &str) -> (r: String)
    ensures
        r@ == spec_available_line(key@),
{
    let mut s: String = "----> ".to_owned();
    s.append(key);
    s.append(": available");
    s
}

/// Whether the availability line is emitted: always in verbose runs, for
/// genuinely gated processes in ordinary runs, and never for the trivial
/// no-checks case in quiet runs.
pub fn should_emit_available(by_default: bool, quiet: bool, verbose: bool) -> (r: bool)
    ensures
        r == ((!by_default && !quiet) || verbose),
{
    (!by_default && !quiet) || verbose
}

/// What the launcher observed while gating one process on readiness.
pub enum ReadyEvent {
    /// The process has no checks: it is available the moment it spawns.
    NoChecks,
    /// The cancellation signal arrived during the wait.
    Canceled,
    /// The child exited while its readiness was still being waited on.
    ChildExited,
    /// The waiter finished, with its verdict.
    WaiterDone(Result<(), crate::waiter::error::Error>),
}

/// The readiness gate's verdict for one process: available (and whether
/// trivially so), or the error that ends the launch phase.
pub fn readiness_outcome(key: &str, ev: ReadyEvent) -> (r: Result<bool, Error>)
    ensures
        match ev {
            ReadyEvent::NoChecks => r == Ok::<bool, Error>(true),
            ReadyEvent::Canceled => r matches Err(Error::CanceledError),
            ReadyEvent::ChildExited => r matches Err(Error::NeverInitializedError(k)) && k@
                == key@,
            ReadyEvent::WaiterDone(Ok(())) => r == Ok::<bool, Error>(false),
            ReadyEvent::WaiterDone(Err(we)) => r matches Err(Error::WaiterError(we2)) && we2 == we,
        },
{
    match ev {
        ReadyEvent::NoChecks => Ok(true),
        ReadyEvent::Canceled => Err(Error::CanceledError),
        ReadyEvent::ChildExited => Err(Error::NeverInitializedError(key.to_owned())),
        ReadyEvent::WaiterDone(Ok(())) => Ok(false),
        ReadyEvent::WaiterDone(Err(we)) => Err(Error::WaiterError(we)),
    }
}

/// The pod's exit code is the first-exiting child's code, and 0 for a child
/// that was ended by a signal instead.
pub fn exit_code_from(code: Option<i32>) -> (r: i32)
    ensures
        match code {
            Some(c) => r == c,
            None => r == 0,
        },
{
    match code {
        Some(c) => c,
        None => 0,
    }
}

/// What the reaper observed of one child after sending the group terminate.
pub enum ReapEvent {
    /// The terminate call itself failed: the child is already gone.
    KillFailed,
    /// The child was awaited normally.
    WaitOk,
    /// Awaiting reported invalid input: the child was already reaped.
    WaitInvalidInput,
    /// Awaiting failed some other way.
    WaitOtherError,
}

/// What the reaper does next for one child.
#[derive(Debug, PartialEq, Eq, Structural)]
pub enum ReapAction {
    /// Log the failed terminate and move to the next child.
    SkipToNext,
    /// The child is reaped; log it as killed.
    Reaped,
    /// The child had already ended; log it and continue.
    AlreadyEnded,
    /// An unrecognized error: abort the reap with it.
    Fatal,
}

/// The reap phase never raises for a child that is already dead; only an
/// unrecognized error escapes.
pub fn reap_action(ev: ReapEvent) -> (r: ReapAction)
    ensures
        match ev {
            ReapEvent::KillFailed => r == ReapAction::SkipToNext,
            ReapEvent::WaitOk => r == ReapAction::Reaped,
            ReapEvent::WaitInvalidInput => r == ReapAction::AlreadyEnded,
            ReapEvent::WaitOtherError => r == ReapAction::Fatal,
        },
{
    match ev {
        ReapEvent::KillFailed => ReapAction::SkipToNext,
        ReapEvent::WaitOk => ReapAction::Reaped,
        ReapEvent::WaitInvalidInput => ReapAction::AlreadyEnded,
        ReapEvent::WaitOtherError => ReapAction::Fatal,
    }
}

/// A pod with no processes at all has nothing to run: its exit code is 0,
/// decided before anything is spawned. Any other pod must actually run.
pub fn pod_trivial_code(n_procs: usize) -> (r: Option<i32>)
    ensures
        r == if n_procs == 0 {
            Some(0i32)
        } else {
            None::<i32>
        },
{
    if n_procs == 0 {
        Some(0)
    } else {
        None
    }
}

/// Parse every inline specifier, each homed to the terminal, in order. A
/// malformed specifier aborts the whole load: the first failure is the
/// result, and nothing partial is returned.
pub fn read_specs(specs: &Vec<String>) -> (r: Result<Vec<Process>, Error>)
    ensures
        r is Ok <==> (forall|i: int|
            0 <= i < specs@.len() ==> crate::runner::proc::spec_specifier_ok(
                #[trigger] specs@[i]@,
            )),
        r is Ok ==> r.unwrap()@.len() == specs@.len(),
        r is Ok ==> (forall|i: int|
            0 <= i < specs@.len() ==> spec_built(
                #[trigger] r.unwrap()@[i],
                Some("STDIN"@),
                spec_parse(specs@[i]@).0,
                spec_parse(specs@[i]@).2,
                spec_parse(specs@[i]@).1,
                match spec_parse(specs@[i]@).3 {
                    Some(u) => seq![u],
                    None => Seq::<Seq<char>>::empty(),
                },
            )),
        r matches Err(e) ==> exists|k: int|
            #![auto]
            {
                &&& 0 <= k < specs@.len()
                &&& !crate::runner::proc::spec_specifier_ok(specs@[k]@)
                &&& (forall|j: int|
                    0 <= j < k ==> crate::runner::proc::spec_specifier_ok(#[trigger] specs@[j]@))
                &&& e matches Error::ExecError(ex) && ex.message@
                    == crate::runner::proc::spec_invalid_format_msg(specs@[k]@)
            },
{
    let mut procs: Vec<Process> = Vec::new();
    let mut i: usize = 0;
    while i < specs.len()
        invariant
            i <= specs@.len(),
            procs@.len() == i,
            forall|j: int|
                0 <= j < i ==> crate::runner::proc::spec_specifier_ok(#[trigger] specs@[j]@),
            forall|j: int|
                0 <= j < i ==> spec_built(
                    #[trigger] procs@[j],
                    Some("STDIN"@),
                    spec_parse(specs@[j]@).0,
                    spec_parse(specs@[j]@).2,
                    spec_parse(specs@[j]@).1,
                    match spec_parse(specs@[j]@).3 {
                        Some(u) => seq![u],
                        None => Seq::<Seq<char>>::empty(),
                    },
                ),
        decreases specs@.len() - i,
    {
        match Process::parse(Some("STDIN"), specs[i].as_str()) {
            Ok(p) => {
                procs.push(p);
            },
            Err(e) => {
                proof {
                    assert(!crate::runner::proc::spec_specifier_ok(specs@[i as int]@));
                }
                return Err(e);
            },
        }
        i = i + 1;
    }
    Ok(procs)
}

/// The file name component of a path, when the path has one and it is valid
/// text; a pure function of the path alone.
pub uninterp spec fn file_name_of(path: Seq<char>) -> Option<Seq<char>>;

/// Relies on `std::path::Path::file_name` and `OsStr::to_str`: the final
/// component of the path when it names a file or directory, as text.
#[verifier::external_body]
fn path_file_name(path: &str) -> (r: Option<String>)
    ensures
        r.deep_view() == file_name_of(path@),
{
    match std::path::Path::new(path).file_name() {
        Some(name) => match name.to_str() {
            Some(s) => Some(s.to_owned()),
            None => None,
        },
        None => None,
    }
}

/// The origin a task file's tasks are homed to: the file's basename, or a
/// fixed marker when the path yields none.
pub fn origin_from_path(path: &str) -> (r: Result<String, Error>)
    ensures
        r is Ok,
        match file_name_of(path@) {
            Some(name) => r.unwrap()@ == name,
            None => r.unwrap()@ == "<invalid>"@,
        },
{
    match path_file_name(path) {
        Some(name) => Ok(name),
        None => Ok("<invalid>".to_owned()),
    }
}

} // verus!
