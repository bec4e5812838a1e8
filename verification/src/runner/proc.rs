//! The process model: the parsed task definition, its identity, and the
//! dependency resolver that orders a pod's startup.

use vstd::prelude::*;

use crate::runner::error::{DependencyError, Error, ExecError};
use crate::runner::util::LABEL_SEP;
use crate::strutil::{
    clone_env, clone_opt_string, clone_vec_string, find_char, find_char_str, split_trim,
    split_trim_str, trim, trim_end, trim_start, trim_str,
};

verus! {

/// The default per-task readiness deadline, in milliseconds.
pub const WAIT_DEFAULT_MS: u64 = 30000;

pub fn wait_default() -> (r: u64)
    ensures
        r == WAIT_DEFAULT_MS,
{
    WAIT_DEFAULT_MS
}

/// A task specification: one supervised command, its identity, and what it
/// needs before and after it starts. Immutable once parsed.
#[derive(Debug)]
pub struct Process {
    /// The shell command line to execute.
    pub command: String,
    /// The source file basename when the task came from a task file.
    pub origin: Option<String>,
    /// The user-assigned identifier used for dependency references.
    pub label: Option<String>,
    /// `origin/label` when both are present; display only.
    pub qualified_label: Option<String>,
    /// Labels of the tasks that must be available before this one starts.
    pub deps: Vec<String>,
    /// Readiness check URLs; empty means available immediately after spawn.
    pub checks: Vec<String>,
    /// Per-task readiness deadline in milliseconds.
    pub wait: u64,
    /// Extra environment for the spawned shell.
    pub env: Vec<(String, String)>,
}

/// The key a process is resolved under: its label, or its command when it has
/// none. Dependency references are resolved against this key, never against
/// the qualified label.
pub open spec fn spec_rkey(p: Process) -> Seq<char> {
    match p.label {
        Some(l) => l@,
        None => p.command@,
    }
}

/// The key a process is displayed under: the qualified label when present,
/// then the label, then the command.
pub open spec fn spec_dkey(p: Process) -> Seq<char> {
    match p.qualified_label {
        Some(q) => q@,
        None => spec_rkey(p),
    }
}

/// Split a specifier at the first `:`: the label region (trimmed) and the
/// remainder (trimmed). Without a `:` the whole text is the remainder,
/// untrimmed.
pub open spec fn spec_split_label(text: Seq<char>) -> (Option<Seq<char>>, Seq<char>) {
    match find_char(text, ':') {
        Some(i) => (Some(trim(text.take(i))), trim(text.skip(i + 1))),
        None => (None, text),
    }
}

/// Split a label region at the first `+`: the label (trimmed) and the
/// comma-separated dependency labels (each trimmed). Without a `+` there are
/// no dependencies.
pub open spec fn spec_split_deps(region: Seq<char>) -> (Seq<char>, Seq<Seq<char>>) {
    match find_char(region, '+') {
        Some(k) => (trim(region.take(k)), split_trim(trim(region.skip(k + 1)), ',')),
        None => (region, Seq::empty()),
    }
}

/// Split the remainder at the first `=`: the command and the check URL, both
/// trimmed when the `=` is present; without one, the remainder is the command
/// as it stands.
pub open spec fn spec_split_check(rest: Seq<char>) -> (Seq<char>, Option<Seq<char>>) {
    match find_char(rest, '=') {
        Some(j) => (trim(rest.take(j)), Some(trim(rest.skip(j + 1)))),
        None => (rest, None),
    }
}

/// What parsing a specifier yields: label, dependency labels, command and
/// check URL.
pub open spec fn spec_parse(text: Seq<char>) -> (
    Option<Seq<char>>,
    Seq<Seq<char>>,
    Seq<char>,
    Option<Seq<char>>,
) {
    let lr = spec_split_label(text);
    let cc = spec_split_check(lr.1);
    match lr.0 {
        Some(region) => {
            let ld = spec_split_deps(region);
            (Some(ld.0), ld.1, cc.0, cc.1)
        },
        None => (None, Seq::empty(), cc.0, cc.1),
    }
}

/// The characters a label may be made of: ASCII letters and digits.
pub open spec fn is_label_char(c: char) -> bool {
    ||| ('a' as u32) <= (c as u32) && (c as u32) <= ('z' as u32)
    ||| ('A' as u32) <= (c as u32) && (c as u32) <= ('Z' as u32)
    ||| ('0' as u32) <= (c as u32) && (c as u32) <= ('9' as u32)
}

/// A well-formed label: one or more ASCII letters or digits.
pub open spec fn spec_label_ok(l: Seq<char>) -> bool {
    l.len() > 0 && (forall|i: int| 0 <= i < l.len() ==> is_label_char(#[trigger] l[i]))
}

/// Whether a specifier is well formed: when it declares a label region, the
/// label and every dependency reference must match the label grammar. A
/// label-less specifier is a bare command and always well formed.
pub open spec fn spec_specifier_ok(text: Seq<char>) -> bool {
    let parts = spec_parse(text);
    match parts.0 {
        Some(l) => spec_label_ok(l) && (forall|d: int|
            0 <= d < parts.1.len() ==> spec_label_ok(#[trigger] parts.1[d])),
        None => true,
    }
}

fn label_ok(l: &str) -> (r: bool)
    ensures
        r == spec_label_ok(l@),
{
    let n = l.unicode_len();
    if n == 0 {
        return false;
    }
    let mut i: usize = 0;
    while i < n
        invariant
            i <= n,
            n == l@.len(),
            forall|j: int| 0 <= j < i ==> is_label_char(#[trigger] l@[j]),
        decreases n - i,
    {
        let c = l.get_char(i);
        let u = c as u32;
        let ok = (97 <= u && u <= 122) || (65 <= u && u <= 90) || (48 <= u && u <= 57);
        if !ok {
            proof {
                assert(('a' as u32) == 97 && ('z' as u32) == 122);
                assert(('A' as u32) == 65 && ('Z' as u32) == 90);
                assert(('0' as u32) == 48 && ('9' as u32) == 57);
                assert(!is_label_char(l@[i as int]));
            }
            return false;
        }
        proof {
            assert(('a' as u32) == 97 && ('z' as u32) == 122);
            assert(('A' as u32) == 65 && ('Z' as u32) == 90);
            assert(('0' as u32) == 48 && ('9' as u32) == 57);
        }
        i = i + 1;
    }
    true
}

/// The message a malformed specifier is rejected with.
pub open spec fn spec_invalid_format_msg(text: Seq<char>) -> Seq<char> {
    "Invalid process format: "@ + text
}

fn invalid_format_error(text: &str) -> (r: Error)
    ensures
        r matches Error::ExecError(e) && e.message@ == spec_invalid_format_msg(text@),
{
    let mut msg: String = "Invalid process format: ".to_owned();
    msg.append(text);
    Error::ExecError(ExecError { message: msg })
}

/// The qualified display label: `origin/label` when both are present, the
/// bare label when only it is, and absent when the task has no label.
pub open spec fn spec_qualified(origin: Option<Seq<char>>, label: Option<Seq<char>>) -> Option<
    Seq<char>,
> {
    match (origin, label) {
        (Some(o), Some(l)) => Some(o + seq![LABEL_SEP] + l),
        (None, Some(l)) => Some(l),
        _ => None,
    }
}

fn qualify(origin: Option<&str>, label: Option<&str>) -> (r: Option<String>)
    ensures
        r.deep_view() == spec_qualified(origin.deep_view(), label.deep_view()),
{
    match (origin, label) {
        (Some(o), Some(l)) => {
            let mut s = o.to_owned();
            crate::strutil::push_char(&mut s, LABEL_SEP);
            s.append(l);
            Some(s)
        },
        (None, Some(l)) => Some(l.to_owned()),
        _ => None,
    }
}

/// The field values every constructor establishes.
pub open spec fn spec_built(
    p: Process,
    origin: Option<Seq<char>>,
    label: Option<Seq<char>>,
    cmd: Seq<char>,
    deps: Seq<Seq<char>>,
    checks: Seq<Seq<char>>,
) -> bool {
    &&& p.origin.deep_view() == origin
    &&& p.label.deep_view() == label
    &&& p.command@ == cmd
    &&& p.deps.deep_view() == deps
    &&& p.checks.deep_view() == checks
    &&& p.wait == WAIT_DEFAULT_MS
    &&& p.env@.len() == 0
    &&& spec_env_wf(p)
    &&& p.qualified_label.deep_view() == spec_qualified(origin, label)
}

fn assemble(
    origin: Option<&str>,
    label: Option<String>,
    cmd: String,
    deps: Vec<String>,
    checks: Vec<String>,
) -> (r: Process)
    ensures
        spec_built(
            r,
            origin.deep_view(),
            label.deep_view(),
            cmd@,
            deps.deep_view(),
            checks.deep_view(),
        ),
{
    let label_ref: Option<&str> = match &label {
        Some(l) => Some(l.as_str()),
        None => None,
    };
    let qualified_label = qualify(origin, label_ref);
    let origin_owned: Option<String> = match origin {
        Some(o) => Some(o.to_owned()),
        None => None,
    };
    Process {
        command: cmd,
        origin: origin_owned,
        label,
        qualified_label,
        deps,
        checks,
        wait: WAIT_DEFAULT_MS,
        env: Vec::new(),
    }
}

impl Process {
    /// Build a process from its parts; the readiness deadline defaults and the
    /// environment starts empty.
    pub fn new(
        origin: Option<&str>,
        label: Option<&str>,
        cmd: &str,
        deps: Vec<&str>,
        url: Option<&str>,
    ) -> (r: Process)
        ensures
            spec_built(
                r,
                origin.deep_view(),
                label.deep_view(),
                cmd@,
                deps.deep_view(),
                match url {
                    Some(u) => seq![u@],
                    None => Seq::<Seq<char>>::empty(),
                },
            ),
    {
        let label_owned: Option<String> = match label {
            Some(l) => Some(l.to_owned()),
            None => None,
        };
        let mut deps_owned: Vec<String> = Vec::new();
        let mut i: usize = 0;
        while i < deps.len()
            invariant
                i <= deps.len(),
                deps_owned.deep_view() =~= deps.deep_view().take(i as int),
            decreases deps.len() - i,
        {
            let ghost pre = deps_owned.deep_view();
            deps_owned.push(deps[i].to_owned());
            proof {
                assert(pre.len() == i);
                assert(deps_owned@.len() == i + 1);
                assert(deps_owned.deep_view().len() == i + 1);
                assert(deps_owned.deep_view()[i as int] == deps.deep_view()[i as int]);
                assert forall|k: int| 0 <= k < i implies deps_owned.deep_view()[k]
                    == deps.deep_view().take(i + 1)[k] by {
                    assert(deps_owned.deep_view()[k] == pre[k]);
                    assert(pre[k] == deps.deep_view().take(i as int)[k]);
                }
                assert(deps_owned.deep_view() =~= deps.deep_view().take(i + 1));
            }
            i = i + 1;
        }
        proof {
            assert(deps_owned.deep_view() =~= deps.deep_view());
        }
        let mut checks: Vec<String> = Vec::new();
        match url {
            Some(u) => {
                checks.push(u.to_owned());
                proof {
                    assert(checks.deep_view() =~= seq![u@]);
                }
            },
            None => {
                proof {
                    assert(checks.deep_view() =~= Seq::<Seq<char>>::empty());
                }
            },
        }
        assemble(origin, label_owned, cmd.to_owned(), deps_owned, checks)
    }

    /// Parse a textual specifier, `label +deps: command=check` with every part
    /// but the command optional. A declared label, and every dependency
    /// reference, must match the label grammar (ASCII letters and digits);
    /// anything else is rejected as an invalid process format.
    pub fn parse(origin: Option<&str>, text: &str) -> (r: Result<Process, Error>)
        ensures
            r is Ok <==> spec_specifier_ok(text@),
            r is Ok ==> spec_built(
                r.unwrap(),
                origin.deep_view(),
                spec_parse(text@).0,
                spec_parse(text@).2,
                spec_parse(text@).1,
                match spec_parse(text@).3 {
                    Some(u) => seq![u],
                    None => Seq::<Seq<char>>::empty(),
                },
            ),
            r matches Err(e) ==> e matches Error::ExecError(ex) && ex.message@
                == spec_invalid_format_msg(text@),
    {
        let n = text.unicode_len();
        let (label_region, rest): (Option<String>, String) = match find_char_str(text, ':') {
            Some(i) => (
                Some(trim_str(text.substring_char(0, i)).to_owned()),
                trim_str(text.substring_char(i + 1, n)).to_owned(),
            ),
            None => (None, text.to_owned()),
        };
        proof {
            assert(text@.take(find_char(text@, ':').unwrap_or(0)) =~= text@.subrange(
                0,
                find_char(text@, ':').unwrap_or(0),
            ));
        }
        let rn = rest.as_str().unicode_len();
        let (cmd, check): (String, Option<String>) = match find_char_str(rest.as_str(), '=') {
            Some(j) => (
                trim_str(rest.as_str().substring_char(0, j)).to_owned(),
                Some(trim_str(rest.as_str().substring_char(j + 1, rn)).to_owned()),
            ),
            None => (rest.clone(), None),
        };
        proof {
            assert(rest@.take(find_char(rest@, '=').unwrap_or(0)) =~= rest@.subrange(
                0,
                find_char(rest@, '=').unwrap_or(0),
            ));
        }
        let (label, deps): (Option<String>, Vec<String>) = match label_region {
            Some(region) => {
                let gn = region.as_str().unicode_len();
                match find_char_str(region.as_str(), '+') {
                    Some(k) => {
                        proof {
                            assert(region@.take(find_char(region@, '+').unwrap_or(0))
                                =~= region@.subrange(0, find_char(region@, '+').unwrap_or(0)));
                        }
                        let tail = trim_str(region.as_str().substring_char(k + 1, gn));
                        (
                            Some(trim_str(region.as_str().substring_char(0, k)).to_owned()),
                            split_trim_str(tail, ','),
                        )
                    },
                    None => (Some(region), Vec::new()),
                }
            },
            None => (None, Vec::new()),
        };
        proof {
            assert(deps.deep_view().len() == 0 ==> deps.deep_view() =~= Seq::<Seq<char>>::empty());
        }
        match &label {
            None => {},
            Some(l) => {
                if !label_ok(l.as_str()) {
                    proof {
                        assert(spec_parse(text@).0 == Some(l@));
                        assert(!spec_specifier_ok(text@));
                    }
                    return Err(invalid_format_error(text));
                }
                proof {
                    assert(spec_parse(text@).0 == Some(l@));
                    assert(spec_parse(text@).1 == deps.deep_view());
                }
                let mut d: usize = 0;
                while d < deps.len()
                    invariant
                        d <= deps@.len(),
                        spec_parse(text@).0 == Some(l@),
                        spec_parse(text@).1 == deps.deep_view(),
                        spec_label_ok(l@),
                        forall|j: int| 0 <= j < d ==> spec_label_ok(#[trigger] deps.deep_view()[j]),
                    decreases deps@.len() - d,
                {
                    if !label_ok(deps[d].as_str()) {
                        proof {
                            assert(!spec_label_ok(deps.deep_view()[d as int]));
                            assert(!spec_specifier_ok(text@));
                        }
                        return Err(invalid_format_error(text));
                    }
                    proof {
                        assert(spec_label_ok(deps.deep_view()[d as int]));
                    }
                    d = d + 1;
                }
            },
        }
        proof {
            assert(spec_specifier_ok(text@));
        }
        Ok(assemble(origin, label, cmd, deps, check_vec(check)))
    }
}

/// How a re-homed task relates to the task it came from: same task, new
/// origin, qualified label recomputed.
pub open spec fn spec_rehomed(p: Process, r: Process, origin: Seq<char>) -> bool {
    &&& r.origin.deep_view() == Some(origin)
    &&& r.label == p.label
    &&& r.command == p.command
    &&& r.deps@ == p.deps@
    &&& r.checks@ == p.checks@
    &&& r.wait == p.wait
    &&& r.env@ == p.env@
    &&& r.qualified_label.deep_view() == spec_qualified(Some(origin), p.label.deep_view())
}

/// A task file: a versioned list of task specifications. Reading and decoding
/// the file happen outside this crate; the decoded record lands here.
#[derive(Debug)]
pub struct Taskfile {
    pub version: u32,
    pub tasks: Vec<Process>,
}

impl Taskfile {
    /// The file's tasks re-homed to the file they came from, in file order.
    pub fn tasks_with_origin(&self, origin: &str) -> (r: Vec<Process>)
        ensures
            r@.len() == self.tasks@.len(),
            forall|i: int|
                0 <= i < r@.len() ==> spec_rehomed(self.tasks@[i], #[trigger] r@[i], origin@),
    {
        let mut out: Vec<Process> = Vec::new();
        let mut i: usize = 0;
        while i < self.tasks.len()
            invariant
                i <= self.tasks@.len(),
                out@.len() == i,
                forall|j: int|
                    0 <= j < i ==> spec_rehomed(self.tasks@[j], #[trigger] out@[j], origin@),
            decreases self.tasks@.len() - i,
        {
            out.push(self.tasks[i].with_origin(origin));
            i = i + 1;
        }
        out
    }
}

/// How a task is displayed: its qualified label when it has one, the command,
/// and its checks (the single URL, or a count when there are several).
pub open spec fn spec_describe(p: Process) -> Seq<char> {
    (match p.qualified_label {
        Some(q) => q@ + ": "@,
        None => Seq::<char>::empty(),
    }) + p.command@ + (if p.checks@.len() == 0 {
        Seq::<char>::empty()
    } else if p.checks@.len() == 1 {
        " ("@ + p.checks@[0]@ + ")"@
    } else {
        " ("@ + crate::strutil::spec_dec(p.checks@.len() as int) + " checks)"@
    })
}

/// A display key right-padded with spaces to `n` characters, or cut to `n`
/// when it is longer.
pub open spec fn spec_pad_key(k: Seq<char>, n: int) -> Seq<char> {
    if k.len() > n {
        k.take(n)
    } else {
        k + Seq::new((n - k.len()) as nat, |i: int| ' ')
    }
}

impl Process {
    /// The display key: qualified label, then label, then command.
    pub fn key(&self) -> (r: &str)
        ensures
            r@ == spec_dkey(*self),
    {
        match &self.qualified_label {
            Some(q) => q.as_str(),
            None => match &self.label {
                Some(l) => l.as_str(),
                None => self.command.as_str(),
            },
        }
    }

    /// The key dependency references resolve against: the bare label, or the
    /// command when the process has none. The qualified label plays no part
    /// here, so labels are shared across task files.
    pub fn resolve_key(&self) -> (r: &str)
        ensures
            r@ == spec_rkey(*self),
    {
        match &self.label {
            Some(l) => l.as_str(),
            None => self.command.as_str(),
        }
    }

    /// The display key padded or cut to exactly `nchar` characters.
    pub fn key_with_padding(&self, nchar: usize) -> (r: String)
        ensures
            r@ == spec_pad_key(spec_dkey(*self), nchar as int),
    {
        let key = self.key();
        let l = key.unicode_len();
        if l > nchar {
            key.substring_char(0, nchar).to_owned()
        } else {
            let mut s = key.to_owned();
            let mut i: usize = 0;
            while i < nchar - l
                invariant
                    i <= nchar - l,
                    l <= nchar,
                    s@ == key@ + Seq::new(i as nat, |j: int| ' '),
                decreases nchar - l - i,
            {
                crate::strutil::push_char(&mut s, ' ');
                proof {
                    assert(s@ =~= key@ + Seq::new((i + 1) as nat, |j: int| ' '));
                }
                i = i + 1;
            }
            proof {
                assert(key@ + Seq::new(0nat, |j: int| ' ') =~= key@);
            }
            s
        }
    }

    pub fn label(&self) -> (r: Option<&str>)
        ensures
            r.deep_view() == self.label.deep_view(),
    {
        match &self.label {
            Some(l) => Some(l.as_str()),
            None => None,
        }
    }

    pub fn qualified_label(&self) -> (r: Option<&str>)
        ensures
            r.deep_view() == self.qualified_label.deep_view(),
    {
        match &self.qualified_label {
            Some(l) => Some(l.as_str()),
            None => None,
        }
    }

    pub fn deps(&self) -> (r: &Vec<String>)
        ensures
            r == &self.deps,
    {
        &self.deps
    }

    pub fn command(&self) -> (r: &str)
        ensures
            r@ == self.command@,
    {
        self.command.as_str()
    }

    /// The per-task readiness deadline, in milliseconds.
    pub fn wait(&self) -> (r: u64)
        ensures
            r == self.wait,
    {
        self.wait
    }

    pub fn checks(&self) -> (r: &Vec<String>)
        ensures
            r == &self.checks,
    {
        &self.checks
    }

    /// The line a task is announced with, as `spec_describe` lays it out.
    pub fn describe(&self) -> (r: String)
        ensures
            r@ == spec_describe(*self),
    {
        let mut s = String::new();
        match &self.qualified_label {
            Some(q) => {
                s.append(q.as_str());
                s.append(": ");
            },
            None => {},
        }
        s.append(self.command.as_str());
        if self.checks.len() == 1 {
            s.append(" (");
            s.append(self.checks[0].as_str());
            s.append(")");
        } else if self.checks.len() > 1 {
            s.append(" (");
            let count = crate::strutil::dec_str_u64(self.checks.len() as u64);
            s.append(count.as_str());
            s.append(" checks)");
        }
        proof {
            assert(s@ =~= spec_describe(*self));
        }
        s
    }

    /// The same task re-homed to a task file: the origin is replaced and the
    /// qualified label recomputed from it.
    pub fn with_origin(&self, origin: &str) -> (r: Process)
        ensures
            spec_rehomed(*self, r, origin@),
            spec_env_wf(*self) ==> spec_env_wf(r),
    {
        let label_ref: Option<&str> = match &self.label {
            Some(l) => Some(l.as_str()),
            None => None,
        };
        let qualified_label = qualify(Some(origin), label_ref);
        Process {
            command: self.command.clone(),
            origin: Some(origin.to_owned()),
            label: clone_opt_string(&self.label),
            qualified_label,
            deps: clone_vec_string(&self.deps),
            checks: clone_vec_string(&self.checks),
            wait: self.wait,
            env: clone_env(&self.env),
        }
    }
}

/// The well-formedness the environment mapping keeps: no key appears twice.
/// Every constructor here starts from an empty environment and re-homing
/// copies the entries, so tasks built by this crate keep it; a loader that
/// fills the environment decodes it from a map, whose keys are unique.
pub open spec fn spec_env_wf(p: Process) -> bool {
    forall|i: int, j: int| 0 <= i < j < p.env@.len() ==> (#[trigger] p.env@[i]).0@ != (
    #[trigger] p.env@[j]).0@
}

/// What a copied task keeps: every field, compared by contents for the list
/// fields.
pub open spec fn spec_proc_same(a: Process, b: Process) -> bool {
    &&& a.command == b.command
    &&& a.origin == b.origin
    &&& a.label == b.label
    &&& a.qualified_label == b.qualified_label
    &&& a.deps@ == b.deps@
    &&& a.checks@ == b.checks@
    &&& a.wait == b.wait
    &&& a.env@ == b.env@
}

impl Clone for Process {
    /// A clone is the same task, field for field.
    fn clone(&self) -> (r: Self)
        ensures
            spec_proc_same(r, *self),
            spec_env_wf(*self) ==> spec_env_wf(r),
    {
        Process {
            command: self.command.clone(),
            origin: clone_opt_string(&self.origin),
            label: clone_opt_string(&self.label),
            qualified_label: clone_opt_string(&self.qualified_label),
            deps: clone_vec_string(&self.deps),
            checks: clone_vec_string(&self.checks),
            wait: self.wait,
            env: clone_env(&self.env),
        }
    }
}

/// What process equality means in contracts: the same fields, compared by
/// their character and entry contents.
pub open spec fn spec_proc_eq(a: Process, b: Process) -> bool {
    &&& a.command@ == b.command@
    &&& a.origin.deep_view() == b.origin.deep_view()
    &&& a.label.deep_view() == b.label.deep_view()
    &&& a.qualified_label.deep_view() == b.qualified_label.deep_view()
    &&& a.deps.deep_view() == b.deps.deep_view()
    &&& a.checks.deep_view() == b.checks.deep_view()
    &&& a.wait == b.wait
    &&& a.env.deep_view() == b.env.deep_view()
}

fn eq_opt_string(a: &Option<String>, b: &Option<String>) -> (r: bool)
    ensures
        r == (a.deep_view() == b.deep_view()),
{
    match (a, b) {
        (Some(x), Some(y)) => crate::strutil::str_eq(x.as_str(), y.as_str()),
        (None, None) => true,
        _ => {
            proof {
                assert(a.deep_view() != b.deep_view());
            }
            false
        },
    }
}

fn eq_vec_string(a: &Vec<String>, b: &Vec<String>) -> (r: bool)
    ensures
        r == (a.deep_view() == b.deep_view()),
{
    if a.len() != b.len() {
        proof {
            assert(a.deep_view().len() != b.deep_view().len());
        }
        return false;
    }
    let mut i: usize = 0;
    while i < a.len()
        invariant
            i <= a.len(),
            a.len() == b.len(),
            forall|j: int| 0 <= j < i ==> a.deep_view()[j] == b.deep_view()[j],
        decreases a.len() - i,
    {
        if !crate::strutil::str_eq(a[i].as_str(), b[i].as_str()) {
            proof {
                assert(a.deep_view()[i as int] != b.deep_view()[i as int]);
            }
            return false;
        }
        proof {
            assert(a.deep_view()[i as int] == b.deep_view()[i as int]);
        }
        i = i + 1;
    }
    proof {
        assert(a.deep_view() =~= b.deep_view());
    }
    true
}

fn eq_env(a: &Vec<(String, String)>, b: &Vec<(String, String)>) -> (r: bool)
    ensures
        r == (a.deep_view() == b.deep_view()),
{
    if a.len() != b.len() {
        proof {
            assert(a.deep_view().len() != b.deep_view().len());
        }
        return false;
    }
    let mut i: usize = 0;
    while i < a.len()
        invariant
            i <= a.len(),
            a.len() == b.len(),
            forall|j: int| 0 <= j < i ==> a.deep_view()[j] == b.deep_view()[j],
        decreases a.len() - i,
    {
        if !crate::strutil::str_eq(a[i].0.as_str(), b[i].0.as_str()) || !crate::strutil::str_eq(
            a[i].1.as_str(),
            b[i].1.as_str(),
        ) {
            proof {
                assert(a.deep_view()[i as int] != b.deep_view()[i as int]);
            }
            return false;
        }
        proof {
            assert(a.deep_view()[i as int] == b.deep_view()[i as int]);
        }
        i = i + 1;
    }
    proof {
        assert(a.deep_view() =~= b.deep_view());
    }
    true
}

impl PartialEq for Process {
    fn eq(&self, other: &Process) -> (r: bool) {
        self.command == other.command && eq_opt_string(&self.origin, &other.origin)
            && eq_opt_string(&self.label, &other.label) && eq_opt_string(
            &self.qualified_label,
            &other.qualified_label,
        ) && eq_vec_string(&self.deps, &other.deps) && eq_vec_string(&self.checks, &other.checks)
            && self.wait == other.wait && eq_env(&self.env, &other.env)
    }
}

impl vstd::std_specs::cmp::PartialEqSpecImpl for Process {
    open spec fn obeys_eq_spec() -> bool {
        true
    }

    open spec fn eq_spec(&self, other: &Process) -> bool {
        spec_proc_eq(*self, *other)
    }
}

/// Parsing round-trips: a specifier written as `label: command=check`, with
/// the parts already trimmed and free of the separators that delimit them,
/// parses back to exactly that label, that command, that single check, and no
/// dependencies.
pub proof fn lemma_parse_round_trip(label: Seq<char>, cmd: Seq<char>, url: Seq<char>)
    requires
        forall|j: int| 0 <= j < label.len() ==> label[j] != ':' && label[j] != '+',
        forall|j: int| 0 <= j < cmd.len() ==> cmd[j] != '=',
        trim(label) == label,
        trim(cmd) == cmd,
        trim(url) == url,
    ensures
        ({
            let text = label + seq![':', ' '] + cmd + seq!['='] + url;
            &&& spec_parse(text) == (Some(label), Seq::<Seq<char>>::empty(), cmd, Some(url))
            &&& spec_label_ok(label) ==> spec_specifier_ok(text)
        }),
{
    let text = label + seq![':', ' '] + cmd + seq!['='] + url;
    let i0 = label.len() as int;
    assert(text[i0] == ':');
    assert forall|j: int| 0 <= j < i0 implies text[j] != ':' by {
        assert(text[j] == label[j]);
    }
    crate::strutil::lemma_find_char_at(text, ':', i0);
    assert(text.take(i0) =~= label);
    let y = cmd + seq!['='] + url;
    assert(text.skip(i0 + 1) =~= seq![' '] + y);
    assert((seq![' '] + y).skip(1) =~= y);
    if cmd.len() > 0 {
        crate::strutil::lemma_trim_stable_ends(cmd);
        assert(y[0] == cmd[0]);
    } else {
        assert(y[0] == '=');
    }
    assert(!crate::strutil::is_wspace(y[0]));
    assert(trim_start(y) == y);
    if url.len() > 0 {
        crate::strutil::lemma_trim_stable_ends(url);
        assert(y.last() == url[url.len() - 1]);
    } else {
        assert(y.last() == '=');
    }
    assert(!crate::strutil::is_wspace(y.last()));
    assert(trim_end(y) == y);
    assert(trim_start(seq![' '] + y) == trim_start(y));
    assert(trim(text.skip(i0 + 1)) == y);
    assert(spec_split_label(text) == (Some(label), y));
    crate::strutil::lemma_find_char_none(label, '+');
    assert(spec_split_deps(label) == (label, Seq::<Seq<char>>::empty()));
    let j0 = cmd.len() as int;
    assert(y[j0] == '=');
    assert forall|j: int| 0 <= j < j0 implies y[j] != '=' by {
        assert(y[j] == cmd[j]);
    }
    crate::strutil::lemma_find_char_at(y, '=', j0);
    assert(y.take(j0) =~= cmd);
    assert(y.skip(j0 + 1) =~= url);
    assert(spec_split_check(y) == (cmd, Some(url)));
}

/// Whether some process in `s` resolves under key `k`.
pub open spec fn has_rkey(s: Seq<&Process>, k: Seq<char>) -> bool {
    exists|i: int| 0 <= i < s.len() && spec_rkey(*s[i]) == k
}

/// Whether process `p` declares a dependency on key `k`.
pub open spec fn has_dep(p: Process, k: Seq<char>) -> bool {
    exists|d: int| 0 <= d < p.deps.deep_view().len() && p.deps.deep_view()[d] == k
}

/// Every dependency of every process resolves to some process in the list.
pub open spec fn deps_known(s: Seq<&Process>) -> bool {
    forall|i: int, d: int|
        0 <= i < s.len() && 0 <= d < s[i].deps.deep_view().len() ==> has_rkey(
            s,
            #[trigger] s[i].deps.deep_view()[d],
        )
}

/// No two processes resolve under the same key.
pub open spec fn rkeys_distinct(s: Seq<&Process>) -> bool {
    forall|i: int, j: int|
        0 <= i < j < s.len() ==> spec_rkey(#[trigger] *s[i]) != spec_rkey(#[trigger] *s[j])
}

/// A ranking that strictly drops along every resolvable dependency edge.
/// Such a ranking exists exactly when the declared dependencies are acyclic.
pub open spec fn rank_ok(s: Seq<&Process>, rank: spec_fn(Seq<char>) -> nat) -> bool {
    forall|i: int, d: int|
        0 <= i < s.len() && 0 <= d < s[i].deps.deep_view().len() && has_rkey(
            s,
            #[trigger] s[i].deps.deep_view()[d],
        ) ==> rank(s[i].deps.deep_view()[d]) < rank(spec_rkey(*s[i]))
}

/// The declared dependencies have no cycle among the resolvable edges.
pub open spec fn acyclic(s: Seq<&Process>) -> bool {
    exists|rank: spec_fn(Seq<char>) -> nat| rank_ok(s, rank)
}

/// Every dependency of every entry resolves to an earlier entry: the order is
/// a linearization of the dependency graph.
/// Some entry before position `j` of the order carries key `k`.
pub open spec fn emitted_before(ord: Seq<&Process>, j: int, k: Seq<char>) -> bool {
    exists|j2: int| 0 <= j2 < j && spec_rkey(*ord[j2]) == k
}

pub open spec fn topo_ordered(ord: Seq<&Process>) -> bool {
    forall|j: int, d: int|
        #![trigger ord[j].deps.deep_view()[d]]
        0 <= j < ord.len() && 0 <= d < ord[j].deps.deep_view().len() ==> emitted_before(
            ord,
            j,
            ord[j].deps.deep_view()[d],
        )
}

/// What holds of the emitted order throughout resolution: entries come from
/// the input, no key is emitted twice, and dependencies precede dependents.
pub open spec fn resolver_inv(procs: Seq<&Process>, ord: Seq<&Process>) -> bool {
    &&& forall|j: int| 0 <= j < ord.len() ==> procs.contains(#[trigger] ord[j])
    &&& forall|j1: int, j2: int|
        0 <= j1 < j2 < ord.len() ==> spec_rkey(#[trigger] *ord[j1]) != spec_rkey(
            #[trigger] *ord[j2],
        )
    &&& topo_ordered(ord)
}

/// `chain` indexes a dependency path through `s`: each entry declares a
/// dependency on the key of the next.
pub open spec fn chain_ok(s: Seq<&Process>, chain: Seq<usize>) -> bool {
    &&& forall|t: int| 0 <= t < chain.len() ==> #[trigger] chain[t] < s.len()
    &&& forall|t: int|
        0 <= t < chain.len() - 1 ==> has_dep(
            *s[#[trigger] chain[t] as int],
            spec_rkey(*s[chain[t + 1] as int]),
        )
}

/// The display keys along a chain of processes.
pub open spec fn chain_dkeys(s: Seq<&Process>, chain: Seq<usize>) -> Seq<Seq<char>> {
    chain.map_values(|u: usize| spec_dkey(*s[u as int]))
}

/// The separator a cycle path is joined with.
pub open spec fn arrow_sep() -> Seq<char> {
    seq![' ', '\u{2192}', ' ']
}

/// Keys joined with an arrow between them, as a cycle path is displayed.
pub open spec fn join_arrow(keys: Seq<Seq<char>>) -> Seq<char> {
    crate::strutil::join_sep(keys, arrow_sep())
}

/// What a cycle error reports: a dependency path through the input whose last
/// entry depends back on an earlier one (past its head), joined for display.
pub open spec fn cycle_evidence(s: Seq<&Process>, msg: Seq<char>) -> bool {
    exists|chain: Seq<usize>, t: int|
        #![auto]
        {
            &&& chain_ok(s, chain)
            &&& chain.len() >= 1
            &&& 1 <= t < chain.len()
            &&& has_dep(*s[chain.last() as int], spec_rkey(*s[chain[t] as int]))
            &&& msg == join_arrow(chain_dkeys(s, chain))
        }
}

/// What an unknown-dependency error reports: a name some process depends on
/// that no process resolves under.
pub open spec fn unknown_evidence(s: Seq<&Process>, name: Seq<char>) -> bool {
    &&& !has_rkey(s, name)
    &&& exists|i: int| 0 <= i < s.len() && has_dep(#[trigger] *s[i], name)
}

/// The heuristic primary-order key: processes with fewer checks, then fewer
/// dependencies, start first among independent siblings.
pub open spec fn key_le(a: Process, b: Process) -> bool {
    ||| a.checks@.len() < b.checks@.len()
    ||| (a.checks@.len() == b.checks@.len() && a.deps@.len() <= b.deps@.len())
}

/// `dst` is `src` stably sorted by the primary-order key: `perm` carries each
/// output position to its input position, the output is ordered, and equal
/// keys keep their input order.
pub open spec fn stable_sorted_by(src: Seq<&Process>, dst: Seq<&Process>, perm: Seq<int>) -> bool {
    &&& perm.len() == src.len()
    &&& dst.len() == src.len()
    &&& forall|k: int| 0 <= k < perm.len() ==> 0 <= #[trigger] perm[k] < src.len()
    &&& forall|k1: int, k2: int|
        0 <= k1 < k2 < perm.len() ==> #[trigger] perm[k1] != #[trigger] perm[k2]
    &&& forall|k: int| 0 <= k < perm.len() ==> #[trigger] dst[k] == src[perm[k]]
    &&& forall|k1: int, k2: int|
        0 <= k1 < k2 < dst.len() ==> key_le(#[trigger] *dst[k1], #[trigger] *dst[k2])
    &&& forall|k1: int, k2: int|
        0 <= k1 < k2 < dst.len() && dst[k1].checks@.len() == dst[k2].checks@.len()
            && dst[k1].deps@.len() == dst[k2].deps@.len() ==> #[trigger] perm[k1] < #[trigger] perm[k2]
}

/// The strict total order a stability witness enumerates input positions in:
/// by the primary-order key, ties by input position.
pub open spec fn spec_lex_lt(src: Seq<&Process>, i: int, j: int) -> bool {
    let a = *src[i];
    let b = *src[j];
    ||| a.checks@.len() < b.checks@.len()
    ||| (a.checks@.len() == b.checks@.len() && a.deps@.len() < b.deps@.len())
    ||| (a.checks@.len() == b.checks@.len() && a.deps@.len() == b.deps@.len() && i < j)
}

proof fn lemma_lex_enumeration_unique(src: Seq<&Process>, a: Seq<int>, b: Seq<int>)
    requires
        a.len() == b.len(),
        forall|k: int| 0 <= k < a.len() ==> 0 <= #[trigger] a[k] < src.len(),
        forall|k: int| 0 <= k < b.len() ==> 0 <= #[trigger] b[k] < src.len(),
        forall|k1: int, k2: int| 0 <= k1 < k2 < a.len() ==> spec_lex_lt(src, a[k1], a[k2]),
        forall|k1: int, k2: int| 0 <= k1 < k2 < b.len() ==> spec_lex_lt(src, b[k1], b[k2]),
        forall|v: int| #[trigger] a.contains(v) <==> b.contains(v),
    ensures
        a == b,
    decreases a.len(),
{
    if a.len() == 0 {
        assert(a =~= b);
    } else {
        assert(a[0] == b[0]) by {
            assert(a.contains(a[0]));
            assert(b.contains(a[0]));
            let k = choose|k: int| 0 <= k < b.len() && b[k] == a[0];
            assert(b.contains(b[0]));
            assert(a.contains(b[0]));
            let k2 = choose|k2: int| 0 <= k2 < a.len() && a[k2] == b[0];
            if k > 0 && k2 > 0 {
                assert(spec_lex_lt(src, b[0], b[k]));
                assert(spec_lex_lt(src, a[0], a[k2]));
                assert(false);
            }
        }
        let at = a.skip(1);
        let bt = b.skip(1);
        assert(forall|k: int| 0 <= k < at.len() ==> #[trigger] at[k] == a[k + 1]);
        assert(forall|k: int| 0 <= k < bt.len() ==> #[trigger] bt[k] == b[k + 1]);
        assert forall|v: int| #[trigger] at.contains(v) implies bt.contains(v) by {
            let k = choose|k: int| 0 <= k < at.len() && at[k] == v;
            assert(a.contains(v));
            assert(b.contains(v));
            let w = choose|w: int| 0 <= w < b.len() && b[w] == v;
            assert(v != a[0]) by {
                if v == a[0] {
                    assert(spec_lex_lt(src, a[0], a[k + 1]));
                }
            }
            assert(w != 0);
            assert(bt[w - 1] == v);
        }
        assert forall|v: int| #[trigger] bt.contains(v) implies at.contains(v) by {
            let k = choose|k: int| 0 <= k < bt.len() && bt[k] == v;
            assert(b.contains(v));
            assert(a.contains(v));
            let w = choose|w: int| 0 <= w < a.len() && a[w] == v;
            assert(v != b[0]) by {
                if v == b[0] {
                    assert(spec_lex_lt(src, b[0], b[k + 1]));
                }
            }
            assert(w != 0);
            assert(at[w - 1] == v);
        }
        lemma_lex_enumeration_unique(src, at, bt);
        assert forall|k: int| 0 <= k < a.len() implies a[k] == b[k] by {
            if k > 0 {
                assert(at[k - 1] == a[k]);
                assert(bt[k - 1] == b[k]);
                assert(at[k - 1] == bt[k - 1]);
            }
        }
        assert(a =~= b);
    }
}

/// A stability witness admits exactly one order: any two sequences that both
/// carry one for the same input are equal, so the witness in `order_procs`'s
/// contract pins a single resolution order.
pub proof fn lemma_stable_sort_unique<'a>(
    src: Seq<&'a Process>,
    dst1: Seq<&'a Process>,
    perm1: Seq<int>,
    dst2: Seq<&'a Process>,
    perm2: Seq<int>,
)
    requires
        stable_sorted_by(src, dst1, perm1),
        stable_sorted_by(src, dst2, perm2),
    ensures
        dst1 == dst2,
{
    assert forall|k1: int, k2: int| 0 <= k1 < k2 < perm1.len() implies spec_lex_lt(
        src,
        perm1[k1],
        perm1[k2],
    ) by {
        assert(dst1[k1] == src[perm1[k1]]);
        assert(dst1[k2] == src[perm1[k2]]);
        assert(key_le(*dst1[k1], *dst1[k2]));
    }
    assert forall|k1: int, k2: int| 0 <= k1 < k2 < perm2.len() implies spec_lex_lt(
        src,
        perm2[k1],
        perm2[k2],
    ) by {
        assert(dst2[k1] == src[perm2[k1]]);
        assert(dst2[k2] == src[perm2[k2]]);
        assert(key_le(*dst2[k1], *dst2[k2]));
    }
    lemma_distinct_full_surjective(perm1, src.len() as int);
    lemma_distinct_full_surjective(perm2, src.len() as int);
    assert forall|v: int| #[trigger] perm1.contains(v) implies perm2.contains(v) by {
        let k = choose|k: int| 0 <= k < perm1.len() && perm1[k] == v;
    }
    assert forall|v: int| #[trigger] perm2.contains(v) implies perm1.contains(v) by {
        let k = choose|k: int| 0 <= k < perm2.len() && perm2[k] == v;
    }
    lemma_lex_enumeration_unique(src, perm1, perm2);
    assert forall|k: int| 0 <= k < dst1.len() implies dst1[k] == dst2[k] by {
        assert(dst1[k] == src[perm1[k]]);
        assert(dst2[k] == src[perm2[k]]);
    }
    assert(dst1 =~= dst2);
}

fn key_le_exec(a: &Process, b: &Process) -> (r: bool)
    ensures
        r == key_le(*a, *b),
{
    a.checks.len() < b.checks.len() || (a.checks.len() == b.checks.len() && a.deps.len()
        <= b.deps.len())
}

/// Stably sort the input by `(number of checks, number of dependencies)`,
/// both ascending. This only biases the startup order among independent
/// siblings; the topological pass still respects every edge.
pub fn primary_order<'a>(procs: &Vec<&'a Process>) -> (r: Vec<&'a Process>)
    ensures
        exists|perm: Seq<int>| stable_sorted_by(procs@, r@, perm),
        r@.to_multiset() == procs@.to_multiset(),
{
    broadcast use vstd::seq_lib::group_to_multiset_ensures;

    let mut out: Vec<&'a Process> = Vec::new();
    let ghost mut perm: Seq<int> = Seq::empty();
    let mut i: usize = 0;
    proof {
        assert(procs@.take(0) =~= Seq::<&Process>::empty());
        assert(out@.to_multiset() =~= procs@.take(0).to_multiset());
    }
    while i < procs.len()
        invariant
            i <= procs@.len(),
            stable_sorted_by(procs@.take(i as int), out@, perm),
            out@.to_multiset() == procs@.take(i as int).to_multiset(),
        decreases procs@.len() - i,
    {
        broadcast use vstd::seq_lib::group_to_multiset_ensures;

        let x = procs[i];
        let mut pos: usize = 0;
        while pos < out.len() && key_le_exec(out[pos], x)
            invariant
                pos <= out@.len(),
                forall|k: int| 0 <= k < pos ==> key_le(#[trigger] *out@[k], *x),
            decreases out@.len() - pos,
        {
            pos = pos + 1;
        }
        let ghost old_out = out@;
        let ghost old_perm = perm;
        out.insert(pos, x);
        proof {
            perm = perm.insert(pos as int, i as int);
            let pre = procs@.take(i as int);
            let post = procs@.take(i + 1);
            assert(post =~= pre.push(procs@[i as int]));
            assert(post.to_multiset() =~= pre.to_multiset().insert(procs@[i as int]));
            assert(out@.to_multiset() =~= old_out.to_multiset().insert(x));
            assert forall|k: int| 0 <= k < perm.len() implies #[trigger] out@[k] == post[perm[k]] by {
                if k < pos {
                    assert(out@[k] == old_out[k]);
                } else if k == pos {
                } else {
                    assert(out@[k] == old_out[k - 1]);
                }
            }
            assert forall|k1: int, k2: int| 0 <= k1 < k2 < out@.len() implies key_le(
                #[trigger] *out@[k1],
                #[trigger] *out@[k2],
            ) by {
                if k2 < pos {
                } else if k2 == pos {
                    assert(key_le(*old_out[k1], *x));
                } else if k1 < pos {
                    assert(key_le(*old_out[k1], *old_out[k2 - 1]));
                } else if k1 == pos {
                    assert(!key_le(*old_out[pos as int], *x));
                    assert(key_le(*x, *old_out[k2 - 1]));
                } else {
                    assert(key_le(*old_out[k1 - 1], *old_out[k2 - 1]));
                }
            }
            assert(stable_sorted_by(post, out@, perm));
        }
        i = i + 1;
    }
    proof {
        assert(procs@.take(procs@.len() as int) =~= procs@);
    }
    out
}

/// A sequence of pairwise-distinct integers drawn from `[0, n)` has at most
/// `n` entries.
proof fn lemma_distinct_bounded_len(s: Seq<int>, n: int)
    requires
        n >= 0,
        forall|t: int| 0 <= t < s.len() ==> 0 <= #[trigger] s[t] < n,
        forall|t1: int, t2: int| 0 <= t1 < t2 < s.len() ==> s[t1] != s[t2],
    ensures
        s.len() <= n,
{
    broadcast use vstd::seq_lib::seq_to_set_is_finite;
    broadcast use vstd::set::group_set_axioms;

    assert(s.no_duplicates());
    s.unique_seq_to_set();
    vstd::set_lib::lemma_int_range(0, n);
    assert(s.to_set().subset_of(vstd::set_lib::set_int_range(0, n)));
    vstd::set_lib::lemma_len_subset(s.to_set(), vstd::set_lib::set_int_range(0, n));
}

/// Pairwise-distinct integers filling `[0, n)` hit every value in `[0, n)`.
proof fn lemma_distinct_full_surjective(s: Seq<int>, n: int)
    requires
        n >= 0,
        s.len() == n,
        forall|t: int| 0 <= t < s.len() ==> 0 <= #[trigger] s[t] < n,
        forall|t1: int, t2: int| 0 <= t1 < t2 < s.len() ==> s[t1] != s[t2],
    ensures
        forall|v: int| 0 <= v < n ==> #[trigger] s.contains(v),
{
    broadcast use vstd::seq_lib::seq_to_set_is_finite;
    broadcast use vstd::set::group_set_axioms;

    assert(s.no_duplicates());
    s.unique_seq_to_set();
    vstd::set_lib::lemma_int_range(0, n);
    let range = vstd::set_lib::set_int_range(0, n);
    assert(s.to_set().subset_of(range));
    vstd::set_lib::lemma_subset_equality(s.to_set(), range);
    assert forall|v: int| 0 <= v < n implies #[trigger] s.contains(v) by {
        assert(range.contains(v));
        assert(s.to_set().contains(v));
    }
}

/// Along a dependency chain the ranking strictly drops, so a ranking rules
/// every cycle out.
proof fn lemma_chain_rank(
    s: Seq<&Process>,
    chain: Seq<usize>,
    rank: spec_fn(Seq<char>) -> nat,
    t1: int,
    t2: int,
)
    requires
        chain_ok(s, chain),
        rank_ok(s, rank),
        0 <= t1 < t2 < chain.len(),
    ensures
        rank(spec_rkey(*s[chain[t2] as int])) < rank(spec_rkey(*s[chain[t1] as int])),
    decreases t2 - t1,
{
    let p = *s[chain[t1] as int];
    if t2 == t1 + 1 {
        let k2 = spec_rkey(*s[chain[t2] as int]);
        assert(has_dep(p, k2));
        let d = choose|d: int| 0 <= d < p.deps.deep_view().len() && p.deps.deep_view()[d] == k2;
        assert(has_rkey(s, k2));
        assert(rank(p.deps.deep_view()[d]) < rank(spec_rkey(p)));
    } else {
        lemma_chain_rank(s, chain, rank, t1, t1 + 1);
        lemma_chain_rank(s, chain, rank, t1 + 1, t2);
    }
}

/// The symbol-table lookup resolution uses: the last process in the list
/// under the given key, as a map filled in input order would resolve it.
pub open spec fn spec_find_last(s: Seq<&Process>, k: Seq<char>) -> Option<int>
    decreases s.len(),
{
    if s.len() == 0 {
        None
    } else if spec_rkey(*s.last()) == k {
        Some(s.len() - 1)
    } else {
        spec_find_last(s.drop_last(), k)
    }
}

proof fn lemma_find_last_at(s: Seq<&Process>, k: Seq<char>, i: int)
    requires
        0 <= i < s.len(),
        spec_rkey(*s[i]) == k,
        forall|j: int| i < j < s.len() ==> spec_rkey(#[trigger] *s[j]) != k,
    ensures
        spec_find_last(s, k) == Some(i),
    decreases s.len(),
{
    if i == s.len() - 1 {
    } else {
        assert(spec_rkey(*s.last()) != k);
        assert(forall|j: int| 0 <= j < s.drop_last().len() ==> s.drop_last()[j] == s[j]);
        lemma_find_last_at(s.drop_last(), k, i);
    }
}

proof fn lemma_find_last_none(s: Seq<&Process>, k: Seq<char>)
    requires
        forall|j: int| 0 <= j < s.len() ==> spec_rkey(#[trigger] *s[j]) != k,
    ensures
        spec_find_last(s, k) is None,
    decreases s.len(),
{
    if s.len() > 0 {
        assert(forall|j: int| 0 <= j < s.drop_last().len() ==> s.drop_last()[j] == s[j]);
        lemma_find_last_none(s.drop_last(), k);
    }
}

/// One visit of the resolver's depth-first traversal: an already-emitted key
/// is a no-op; otherwise every dependency's subtree is emitted first, in
/// declared order, and then the process itself (unless a subtree emitted its
/// key meanwhile). The fuel only bounds the recursion depth; any fuel at
/// least the list's length plus one covers every terminating run.
pub open spec fn spec_visit<'a>(
    s: Seq<&'a Process>,
    ord: Seq<&'a Process>,
    cur: int,
    fuel: nat,
) -> Seq<&'a Process>
    decreases fuel, 0int,
{
    if fuel == 0 || !(0 <= cur < s.len()) {
        ord
    } else if has_rkey(ord, spec_rkey(*s[cur])) {
        ord
    } else {
        let ord2 = spec_visit_deps(s, ord, cur, 0, (fuel - 1) as nat);
        if has_rkey(ord2, spec_rkey(*s[cur])) {
            ord2
        } else {
            ord2.push(s[cur])
        }
    }
}

/// The dependency subtrees of one process, visited left to right.
pub open spec fn spec_visit_deps<'a>(
    s: Seq<&'a Process>,
    ord: Seq<&'a Process>,
    cur: int,
    d: int,
    fuel: nat,
) -> Seq<&'a Process>
    decreases fuel, s[cur].deps.deep_view().len() - d + 1,
{
    if !(0 <= cur < s.len()) || d < 0 || d >= s[cur].deps.deep_view().len() {
        ord
    } else {
        let ord2 = match spec_find_last(s, s[cur].deps.deep_view()[d]) {
            Some(j) => spec_visit(s, ord, j, fuel),
            None => ord,
        };
        spec_visit_deps(s, ord2, cur, d + 1, fuel)
    }
}

/// The whole resolution: every process visited as a root, in list order.
pub open spec fn spec_resolve_from<'a>(
    s: Seq<&'a Process>,
    ord: Seq<&'a Process>,
    i: int,
) -> Seq<&'a Process>
    decreases s.len() - i,
{
    if i < 0 || i >= s.len() {
        ord
    } else {
        spec_resolve_from(s, spec_visit(s, ord, i, (s.len() + 1) as nat), i + 1)
    }
}

/// What resolving a list emits, in order.
pub open spec fn spec_resolve<'a>(s: Seq<&'a Process>) -> Seq<&'a Process> {
    spec_resolve_from(s, Seq::empty(), 0)
}

fn ord_has_key(ord: &Vec<&Process>, key: &str) -> (r: bool)
    ensures
        r == has_rkey(ord@, key@),
{
    let mut j: usize = 0;
    while j < ord.len()
        invariant
            j <= ord@.len(),
            forall|t: int| 0 <= t < j ==> spec_rkey(#[trigger] *ord@[t]) != key@,
        decreases ord@.len() - j,
    {
        if crate::strutil::str_eq(ord[j].resolve_key(), key) {
            return true;
        }
        j = j + 1;
    }
    false
}

/// Look a dependency key up in the symbol table the input list stands for;
/// with several processes under one key, the last one wins.
fn find_proc(procs: &Vec<&Process>, key: &str) -> (r: Option<usize>)
    ensures
        match r {
            Some(i) => i < procs@.len() && spec_rkey(*procs@[i as int]) == key@ && (forall|j: int|
                i < j < procs@.len() ==> spec_rkey(#[trigger] *procs@[j]) != key@)
                && spec_find_last(procs@, key@) == Some(i as int),
            None => !has_rkey(procs@, key@) && spec_find_last(procs@, key@) is None,
        },
{
    let mut j: usize = procs.len();
    while j > 0
        invariant
            j <= procs@.len(),
            forall|t: int| j <= t < procs@.len() ==> spec_rkey(#[trigger] *procs@[t]) != key@,
        decreases j,
    {
        j = j - 1;
        if crate::strutil::str_eq(procs[j].resolve_key(), key) {
            proof {
                lemma_find_last_at(procs@, key@, j as int);
            }
            return Some(j);
        }
    }
    proof {
        lemma_find_last_none(procs@, key@);
    }
    None
}

/// Is `key` the resolve key of a chain entry past the chain's head?
fn chain_contains_key(procs: &Vec<&Process>, chain: &Vec<usize>, key: &str) -> (r: Option<usize>)
    requires
        forall|t: int| 0 <= t < chain@.len() ==> #[trigger] chain@[t] < procs@.len(),
    ensures
        match r {
            Some(t) => 1 <= t < chain@.len() && spec_rkey(*procs@[chain@[t as int] as int])
                == key@,
            None => forall|t: int|
                1 <= t < chain@.len() ==> spec_rkey(*procs@[#[trigger] chain@[t] as int]) != key@,
        },
{
    let mut t: usize = 1;
    while t < chain.len()
        invariant
            1 <= t,
            forall|u: int|
                1 <= u < t ==> spec_rkey(*procs@[#[trigger] chain@[u] as int]) != key@,
            forall|u: int| 0 <= u < chain@.len() ==> #[trigger] chain@[u] < procs@.len(),
        decreases chain@.len() - t,
    {
        if crate::strutil::str_eq(procs[chain[t]].resolve_key(), key) {
            return Some(t);
        }
        t = t + 1;
    }
    None
}

/// The display keys along the chain, joined with an arrow, as the cycle error
/// reports them.
fn join_chain_keys(procs: &Vec<&Process>, chain: &Vec<usize>) -> (r: String)
    requires
        chain@.len() >= 1,
        forall|t: int| 0 <= t < chain@.len() ==> #[trigger] chain@[t] < procs@.len(),
    ensures
        r@ == join_arrow(chain_dkeys(procs@, chain@)),
{
    let mut keys: Vec<String> = Vec::new();
    let mut t: usize = 0;
    while t < chain.len()
        invariant
            t <= chain@.len(),
            forall|u: int| 0 <= u < chain@.len() ==> #[trigger] chain@[u] < procs@.len(),
            keys.deep_view() =~= chain_dkeys(procs@, chain@).take(t as int),
        decreases chain@.len() - t,
    {
        let ghost pre = keys.deep_view();
        keys.push(procs[chain[t]].key().to_owned());
        proof {
            let all = chain_dkeys(procs@, chain@);
            assert(pre.len() == t);
            assert(keys.deep_view().len() == t + 1);
            assert(keys.deep_view()[t as int] == all[t as int]);
            assert forall|k: int| 0 <= k < t implies keys.deep_view()[k] == all.take(t + 1)[k] by {
                assert(keys.deep_view()[k] == pre[k]);
                assert(pre[k] == all.take(t as int)[k]);
            }
            assert(keys.deep_view() =~= all.take(t + 1));
        }
        t = t + 1;
    }
    proof {
        assert(keys.deep_view() =~= chain_dkeys(procs@, chain@));
    }
    let r = crate::strutil::join_keys(&keys, " \u{2192} ");
    proof {
        reveal_strlit(" \u{2192} ");
        assert(" \u{2192} "@ =~= arrow_sep());
    }
    r
}

fn order_procs_sub<'a>(
    procs: &Vec<&'a Process>,
    cur: usize,
    chain: &mut Vec<usize>,
    ord: &mut Vec<&'a Process>,
) -> (r: Result<(), Error>)
    requires
        cur < procs@.len(),
        1 <= old(chain)@.len() <= procs@.len() + 1,
        old(chain)@.last() == cur,
        chain_ok(procs@, old(chain)@),
        forall|t1: int, t2: int|
            1 <= t1 < t2 < old(chain)@.len() ==> spec_rkey(
                *procs@[#[trigger] old(chain)@[t1] as int],
            ) != spec_rkey(*procs@[#[trigger] old(chain)@[t2] as int]),
        resolver_inv(procs@, old(ord)@),
    ensures
        final(chain)@ == old(chain)@,
        resolver_inv(procs@, final(ord)@),
        old(ord)@.is_prefix_of(final(ord)@),
        match r {
            Ok(()) => has_rkey(final(ord)@, spec_rkey(*procs@[cur as int])),
            Err(e) => match e {
                Error::DependencyError(DependencyError::Cycle(msg)) => cycle_evidence(
                    procs@,
                    msg@,
                ),
                Error::DependencyError(DependencyError::Unknown(name)) => unknown_evidence(
                    procs@,
                    name@,
                ),
                _ => false,
            },
        },
        deps_known(procs@) && acyclic(procs@) ==> r is Ok,
        r is Ok ==> final(ord)@ == spec_visit(
            procs@,
            old(ord)@,
            cur as int,
            (procs@.len() + 2 - old(chain)@.len()) as nat,
        ),
    decreases procs@.len() + 1 - old(chain)@.len(),
{
    let ghost fuel: nat = (procs@.len() + 2 - old(chain)@.len()) as nat;
    let p: &Process = procs[cur];
    if ord_has_key(ord, p.resolve_key()) {
        proof {
            assert(fuel >= 1);
            assert(spec_visit(procs@, ord@, cur as int, fuel) == ord@);
        }
        return Ok(());
    }
    let ghost chain0 = chain@;
    let ghost ord0 = ord@;
    let mut d: usize = 0;
    while d < p.deps.len()
        invariant
            cur < procs@.len(),
            p == procs@[cur as int],
            d <= p.deps@.len(),
            chain0 == old(chain)@,
            ord0 == old(ord)@,
            chain@ == chain0,
            1 <= chain0.len() <= procs@.len() + 1,
            chain0.last() == cur,
            chain_ok(procs@, chain0),
            forall|t1: int, t2: int|
                1 <= t1 < t2 < chain0.len() ==> spec_rkey(*procs@[#[trigger] chain0[t1] as int])
                    != spec_rkey(*procs@[#[trigger] chain0[t2] as int]),
            resolver_inv(procs@, ord@),
            ord0.is_prefix_of(ord@),
            forall|dd: int| 0 <= dd < d ==> has_rkey(ord@, #[trigger] p.deps.deep_view()[dd]),
            fuel == (procs@.len() + 2 - chain0.len()) as nat,
            fuel >= 1,
            spec_visit_deps(procs@, ord0, cur as int, 0, (fuel - 1) as nat) == spec_visit_deps(
                procs@,
                ord@,
                cur as int,
                d as int,
                (fuel - 1) as nat,
            ),
        decreases p.deps@.len() - d,
    {
        let dep: &String = &p.deps[d];
        match chain_contains_key(procs, chain, dep.as_str()) {
            Some(t) => {
                let msg = join_chain_keys(procs, chain);
                proof {
                    assert(has_dep(*p, dep@)) by {
                        assert(p.deps.deep_view()[d as int] == dep@);
                    }
                    assert(cycle_evidence(procs@, msg@)) by {
                        assert(chain_ok(procs@, chain0) && chain0.len() >= 1 && 1 <= t < chain0.len()
                            && has_dep(
                            *procs@[chain0.last() as int],
                            spec_rkey(*procs@[chain0[t as int] as int]),
                        ) && msg@ == join_arrow(chain_dkeys(procs@, chain0)));
                    }
                    if deps_known(procs@) && acyclic(procs@) {
                        let rank = choose|rank: spec_fn(Seq<char>) -> nat| rank_ok(procs@, rank);
                        let last = chain0.len() - 1;
                        let kt = spec_rkey(*procs@[chain0[t as int] as int]);
                        assert(has_rkey(procs@, kt)) by {
                            assert(0 <= chain0[t as int] < procs@.len() && spec_rkey(
                                *procs@[chain0[t as int] as int],
                            ) == kt);
                        }
                        assert(rank(kt) < rank(spec_rkey(*p))) by {
                            assert(p.deps.deep_view()[d as int] == kt);
                        }
                        if t < last {
                            lemma_chain_rank(procs@, chain0, rank, t as int, last);
                        }
                        assert(false);
                    }
                }
                return Err(Error::DependencyError(DependencyError::Cycle(msg)));
            },
            None => {},
        }
        match find_proc(procs, dep.as_str()) {
            None => {
                proof {
                    assert(has_dep(*p, dep@)) by {
                        assert(p.deps.deep_view()[d as int] == dep@);
                    }
                    assert(unknown_evidence(procs@, dep@)) by {
                        assert(0 <= cur < procs@.len() && has_dep(*procs@[cur as int], dep@));
                    }
                    if deps_known(procs@) {
                        assert(has_rkey(procs@, p.deps.deep_view()[d as int]));
                        assert(false);
                    }
                }
                return Err(Error::DependencyError(DependencyError::Unknown(dep.clone())));
            },
            Some(j) => {
                let ghost pre_chain = chain@;
                chain.push(j);
                proof {
                    assert(chain@.last() == j);
                    assert forall|t1: int, t2: int|
                        1 <= t1 < t2 < chain@.len() implies spec_rkey(
                        *procs@[#[trigger] chain@[t1] as int],
                    ) != spec_rkey(*procs@[#[trigger] chain@[t2] as int]) by {
                        if t2 == chain@.len() - 1 {
                            assert(chain@[t1] == pre_chain[t1]);
                            assert(spec_rkey(*procs@[chain@[t2] as int]) == dep@);
                        } else {
                            assert(chain@[t1] == pre_chain[t1]);
                            assert(chain@[t2] == pre_chain[t2]);
                        }
                    }
                    assert(chain_ok(procs@, chain@)) by {
                        assert forall|t: int| 0 <= t < chain@.len() - 1 implies has_dep(
                            *procs@[#[trigger] chain@[t] as int],
                            spec_rkey(*procs@[chain@[t + 1] as int]),
                        ) by {
                            if t == chain@.len() - 2 {
                                assert(chain@[t] == cur);
                                assert(spec_rkey(*procs@[chain@[t + 1] as int]) == dep@);
                                assert(p.deps.deep_view()[d as int] == dep@);
                                assert(has_dep(*p, dep@));
                            } else {
                                assert(chain@[t] == pre_chain[t]);
                                assert(chain@[t + 1] == pre_chain[t + 1]);
                            }
                        }
                    }
                    assert(chain@.len() <= procs@.len() + 1) by {
                        let tail = chain@.skip(1);
                        let idxs = tail.map_values(|u: usize| u as int);
                        assert forall|t1: int, t2: int|
                            0 <= t1 < t2 < idxs.len() implies idxs[t1] != idxs[t2] by {
                            assert(spec_rkey(*procs@[chain@[t1 + 1] as int]) != spec_rkey(
                                *procs@[chain@[t2 + 1] as int],
                            ));
                            assert(tail[t1] == chain@[t1 + 1]);
                            assert(tail[t2] == chain@[t2 + 1]);
                        }
                        assert(forall|t: int|
                            0 <= t < idxs.len() ==> 0 <= #[trigger] idxs[t] < procs@.len()) by {
                            assert(forall|t: int|
                                0 <= t < tail.len() ==> #[trigger] tail[t] == chain@[t + 1]);
                        }
                        lemma_distinct_bounded_len(idxs, procs@.len() as int);
                    }
                }
                let ghost pre_call = ord@;
                let res = order_procs_sub(procs, j, chain, ord);
                let _ = chain.pop();
                proof {
                    assert(chain@ =~= chain0);
                    lemma_prefix_transitive(ord0, pre_call, ord@);
                }
                match res {
                    Ok(()) => {
                        proof {
                            assert forall|dd: int| 0 <= dd < d + 1 implies has_rkey(
                                ord@,
                                #[trigger] p.deps.deep_view()[dd],
                            ) by {
                                if dd < d {
                                    lemma_has_rkey_extends(pre_call, ord@, p.deps.deep_view()[dd]);
                                } else {
                                    assert(p.deps.deep_view()[d as int] == dep@);
                                }
                            }
                            assert(spec_find_last(procs@, p.deps.deep_view()[d as int]) == Some(
                                j as int,
                            ));
                            assert(ord@ == spec_visit(
                                procs@,
                                pre_call,
                                j as int,
                                (fuel - 1) as nat,
                            ));
                            assert(spec_visit_deps(
                                procs@,
                                pre_call,
                                cur as int,
                                d as int,
                                (fuel - 1) as nat,
                            ) == spec_visit_deps(
                                procs@,
                                ord@,
                                cur as int,
                                d + 1,
                                (fuel - 1) as nat,
                            ));
                        }
                    },
                    Err(e) => {
                        return Err(e);
                    },
                }
            },
        }
        d = d + 1;
    }
    let ghost pre_ord = ord@;
    proof {
        assert(spec_visit_deps(procs@, pre_ord, cur as int, p.deps@.len() as int, (fuel - 1) as nat)
            == pre_ord);
        assert(spec_visit_deps(procs@, ord0, cur as int, 0, (fuel - 1) as nat) == pre_ord);
        assert(!has_rkey(ord0, spec_rkey(*procs@[cur as int])));
    }
    if !ord_has_key(ord, p.resolve_key()) {
        ord.push(p);
        proof {
            assert(spec_visit(procs@, ord0, cur as int, fuel) == pre_ord.push(p));
            assert(ord@ =~= pre_ord.push(p));
            assert(pre_ord.is_prefix_of(ord@));
            assert forall|j: int| 0 <= j < ord@.len() implies procs@.contains(
                #[trigger] ord@[j],
            ) by {
                if j == ord@.len() - 1 {
                    assert(procs@[cur as int] == p);
                    assert(procs@.contains(p));
                }
            }
            let newo = ord@;
            assert(newo.len() == pre_ord.len() + 1);
            assert(newo[newo.len() - 1] == p);
            assert(forall|w: int| 0 <= w < pre_ord.len() ==> newo[w] == #[trigger] pre_ord[w]);
            assert forall|j: int, dd: int|
                #![trigger newo[j].deps.deep_view()[dd]]
                0 <= j < newo.len() && 0 <= dd < newo[j].deps.deep_view().len() implies emitted_before(
                newo,
                j,
                newo[j].deps.deep_view()[dd],
            ) by {
                if j == newo.len() - 1 {
                    assert(newo[j] == p);
                    assert(has_rkey(pre_ord, p.deps.deep_view()[dd]));
                    let dk = p.deps.deep_view()[dd];
                    let w = choose|w: int|
                        0 <= w < pre_ord.len() && spec_rkey(*pre_ord[w]) == dk;
                    assert(newo[w] == pre_ord[w]);
                    assert(0 <= w < j && spec_rkey(*newo[w]) == newo[j].deps.deep_view()[dd]);
                } else {
                    assert(newo[j] == pre_ord[j]);
                    let dk = pre_ord[j].deps.deep_view()[dd];
                    assert(emitted_before(pre_ord, j, dk));
                    let w = choose|j2: int| 0 <= j2 < j && spec_rkey(*pre_ord[j2]) == dk;
                    assert(newo[w] == pre_ord[w]);
                    assert(0 <= w < j && spec_rkey(*newo[w]) == newo[j].deps.deep_view()[dd]);
                }
            }
            assert(topo_ordered(newo));
            assert forall|j1: int, j2: int|
                0 <= j1 < j2 < newo.len() implies spec_rkey(#[trigger] *newo[j1]) != spec_rkey(
                #[trigger] *newo[j2],
            ) by {
                if j2 == newo.len() - 1 {
                    assert(!has_rkey(pre_ord, spec_rkey(*p)));
                    assert(newo[j1] == pre_ord[j1]);
                } else {
                    assert(newo[j1] == pre_ord[j1]);
                    assert(newo[j2] == pre_ord[j2]);
                }
            }
            assert(has_rkey(ord@, spec_rkey(*procs@[cur as int]))) by {
                assert(spec_rkey(*newo[newo.len() - 1]) == spec_rkey(*procs@[cur as int]));
            }
        }
    }
    proof {
        lemma_prefix_transitive(ord0, pre_ord, ord@);
        if has_rkey(pre_ord, spec_rkey(*procs@[cur as int])) {
            assert(spec_visit(procs@, ord0, cur as int, fuel) == pre_ord);
        }
        assert(ord@ == spec_visit(procs@, ord0, cur as int, fuel));
    }
    Ok(())
}

/// A key found in an order is still found after the order grows.
proof fn lemma_has_rkey_extends(pre: Seq<&Process>, post: Seq<&Process>, k: Seq<char>)
    requires
        pre.is_prefix_of(post),
        has_rkey(pre, k),
    ensures
        has_rkey(post, k),
{
    let i = choose|i: int| 0 <= i < pre.len() && spec_rkey(*pre[i]) == k;
    assert(post[i] == pre[i]);
}

proof fn lemma_prefix_transitive(a: Seq<&Process>, b: Seq<&Process>, c: Seq<&Process>)
    requires
        a.is_prefix_of(b),
        b.is_prefix_of(c),
    ensures
        a.is_prefix_of(c),
{
    assert(a =~= c.subrange(0, a.len() as int));
}

/// Between a list and a permutation of it, key lookups, membership, the
/// dependency closure, key distinctness and acyclicity all carry over.
proof fn lemma_perm_transfer(src: Seq<&Process>, dst: Seq<&Process>, perm: Seq<int>)
    requires
        stable_sorted_by(src, dst, perm),
    ensures
        forall|k: Seq<char>| #[trigger] has_rkey(dst, k) <==> has_rkey(src, k),
        forall|x: &Process| #[trigger] dst.contains(x) <==> src.contains(x),
        deps_known(src) ==> deps_known(dst),
        rkeys_distinct(src) ==> rkeys_distinct(dst),
        acyclic(src) ==> acyclic(dst),
{
    lemma_distinct_full_surjective(perm, src.len() as int);
    assert forall|x: &Process| #[trigger] dst.contains(x) implies src.contains(x) by {
        let i = choose|i: int| 0 <= i < dst.len() && dst[i] == x;
        assert(src[perm[i]] == x);
    }
    assert forall|x: &Process| #[trigger] src.contains(x) implies dst.contains(x) by {
        let i = choose|i: int| 0 <= i < src.len() && src[i] == x;
        assert(perm.contains(i));
        let k = choose|k: int| 0 <= k < perm.len() && perm[k] == i;
        assert(dst[k] == x);
    }
    assert forall|k: Seq<char>| #[trigger] has_rkey(dst, k) implies has_rkey(src, k) by {
        let i = choose|i: int| 0 <= i < dst.len() && spec_rkey(*dst[i]) == k;
        assert(spec_rkey(*src[perm[i]]) == k);
    }
    assert forall|k: Seq<char>| #[trigger] has_rkey(src, k) implies has_rkey(dst, k) by {
        let i = choose|i: int| 0 <= i < src.len() && spec_rkey(*src[i]) == k;
        assert(perm.contains(i));
        let w = choose|w: int| 0 <= w < perm.len() && perm[w] == i;
        assert(spec_rkey(*dst[w]) == k);
    }
    if deps_known(src) {
        assert forall|i: int, d: int|
            0 <= i < dst.len() && 0 <= d < dst[i].deps.deep_view().len() implies has_rkey(
            dst,
            #[trigger] dst[i].deps.deep_view()[d],
        ) by {
            assert(dst[i] == src[perm[i]]);
            assert(has_rkey(src, src[perm[i]].deps.deep_view()[d]));
        }
    }
    if rkeys_distinct(src) {
        assert forall|i: int, j: int| 0 <= i < j < dst.len() implies spec_rkey(
            #[trigger] *dst[i],
        ) != spec_rkey(#[trigger] *dst[j]) by {
            assert(dst[i] == src[perm[i]]);
            assert(dst[j] == src[perm[j]]);
            assert(perm[i] != perm[j]);
        }
    }
    if acyclic(src) {
        let rank = choose|rank: spec_fn(Seq<char>) -> nat| rank_ok(src, rank);
        assert forall|i: int, d: int|
            0 <= i < dst.len() && 0 <= d < dst[i].deps.deep_view().len() && has_rkey(
                dst,
                #[trigger] dst[i].deps.deep_view()[d],
            ) implies rank(dst[i].deps.deep_view()[d]) < rank(spec_rkey(*dst[i])) by {
            assert(dst[i] == src[perm[i]]);
            assert(has_rkey(src, src[perm[i]].deps.deep_view()[d]));
        }
        assert(rank_ok(dst, rank));
    }
}

/// Cycle evidence against a permutation of the input is evidence against the
/// input itself: the same processes stand at remapped positions.
proof fn lemma_cycle_evidence_transfer(
    src: Seq<&Process>,
    dst: Seq<&Process>,
    perm: Seq<int>,
    msg: Seq<char>,
)
    requires
        stable_sorted_by(src, dst, perm),
        cycle_evidence(dst, msg),
        src.len() <= usize::MAX,
    ensures
        cycle_evidence(src, msg),
{
    let (chain, t): (Seq<usize>, int) = choose|chain: Seq<usize>, t: int|
        #![auto]
        {
            &&& chain_ok(dst, chain)
            &&& chain.len() >= 1
            &&& 1 <= t < chain.len()
            &&& has_dep(*dst[chain.last() as int], spec_rkey(*dst[chain[t] as int]))
            &&& msg == join_arrow(chain_dkeys(dst, chain))
        };
    let chain2 = chain.map_values(|u: usize| perm[u as int] as usize);
    assert forall|u: int| 0 <= u < chain2.len() implies #[trigger] chain2[u] < src.len() by {
        assert(chain[u] < dst.len());
        assert(0 <= perm[chain[u] as int] < src.len());
    }
    assert forall|u: int| 0 <= u < chain2.len() implies *src[#[trigger] chain2[u] as int]
        == *dst[chain[u] as int] by {
        assert(dst[chain[u] as int] == src[perm[chain[u] as int]]);
    }
    assert(chain_ok(src, chain2)) by {
        assert forall|u: int| 0 <= u < chain2.len() - 1 implies has_dep(
            *src[#[trigger] chain2[u] as int],
            spec_rkey(*src[chain2[u + 1] as int]),
        ) by {
            assert(has_dep(*dst[chain[u] as int], spec_rkey(*dst[chain[u + 1] as int])));
        }
    }
    assert(chain_dkeys(src, chain2) =~= chain_dkeys(dst, chain));
    assert(chain2.last() == chain2[chain2.len() - 1]);
    assert(has_dep(*src[chain2.last() as int], spec_rkey(*src[chain2[t] as int])));
    assert(cycle_evidence(src, msg)) by {
        assert(chain_ok(src, chain2) && chain2.len() >= 1 && 1 <= t < chain2.len() && has_dep(
            *src[chain2.last() as int],
            spec_rkey(*src[chain2[t] as int]),
        ) && msg == join_arrow(chain_dkeys(src, chain2)));
    }
}

/// An unknown dependency reported against a permutation of the input is
/// unknown in the input too.
proof fn lemma_unknown_evidence_transfer(
    src: Seq<&Process>,
    dst: Seq<&Process>,
    perm: Seq<int>,
    name: Seq<char>,
)
    requires
        stable_sorted_by(src, dst, perm),
        unknown_evidence(dst, name),
    ensures
        unknown_evidence(src, name),
{
    lemma_perm_transfer(src, dst, perm);
    let i = choose|i: int| 0 <= i < dst.len() && has_dep(#[trigger] *dst[i], name);
    assert(dst[i] == src[perm[i]]);
    assert(has_dep(*src[perm[i]], name));
}

/// The position a key holds in an order whose keys are distinct.
spec fn ord_pos(ord: Seq<&Process>, k: Seq<char>) -> nat {
    if has_rkey(ord, k) {
        (choose|j: int| 0 <= j < ord.len() && spec_rkey(*ord[j]) == k) as nat
    } else {
        0
    }
}

/// A complete linearization is itself the witness that the dependencies are
/// acyclic: rank every key by its position in the order.
proof fn lemma_topo_acyclic(procs: Seq<&Process>, ord: Seq<&Process>)
    requires
        rkeys_distinct(procs),
        forall|j: int| 0 <= j < ord.len() ==> procs.contains(#[trigger] ord[j]),
        forall|j1: int, j2: int|
            0 <= j1 < j2 < ord.len() ==> spec_rkey(#[trigger] *ord[j1]) != spec_rkey(
                #[trigger] *ord[j2],
            ),
        topo_ordered(ord),
        forall|i: int| 0 <= i < procs.len() ==> has_rkey(ord, spec_rkey(#[trigger] *procs[i])),
    ensures
        acyclic(procs),
{
    let rank = |k: Seq<char>| ord_pos(ord, k);
    assert forall|i: int, d: int|
        0 <= i < procs.len() && 0 <= d < procs[i].deps.deep_view().len() && has_rkey(
            procs,
            #[trigger] procs[i].deps.deep_view()[d],
        ) implies rank(procs[i].deps.deep_view()[d]) < rank(spec_rkey(*procs[i])) by {
        let p = procs[i];
        let key = spec_rkey(*p);
        let dk = p.deps.deep_view()[d];
        assert(has_rkey(ord, key));
        let jp = choose|j: int| 0 <= j < ord.len() && spec_rkey(*ord[j]) == key;
        assert(ord_pos(ord, key) == jp as nat);
        assert(ord[jp] == p) by {
            assert(procs.contains(ord[jp]));
            let i2 = choose|i2: int| 0 <= i2 < procs.len() && procs[i2] == ord[jp];
            assert(spec_rkey(*procs[i2]) == key);
            if i2 != i {
                assert(spec_rkey(*procs[i2]) != spec_rkey(*procs[i]));
            }
        }
        assert(0 <= d < ord[jp].deps.deep_view().len());
        assert(ord[jp].deps.deep_view()[d] == dk);
        assert(emitted_before(ord, jp, dk));
        let j2 = choose|j2: int| 0 <= j2 < jp && spec_rkey(*ord[j2]) == dk;
        assert(has_rkey(ord, dk));
        let jd = choose|j: int| 0 <= j < ord.len() && spec_rkey(*ord[j]) == dk;
        assert(ord_pos(ord, dk) == jd as nat);
        assert(jd == j2) by {
            if jd != j2 {
                assert(spec_rkey(*ord[jd]) != spec_rkey(*ord[j2]));
            }
        }
    }
    assert(rank_ok(procs, rank));
}

/// Two duplicate-free orders with the same members hold the same multiset.
proof fn lemma_multiset_from_same_members(a: Seq<&Process>, b: Seq<&Process>)
    requires
        a.no_duplicates(),
        b.no_duplicates(),
        forall|x: &Process| #[trigger] a.contains(x) <==> b.contains(x),
    ensures
        a.to_multiset() == b.to_multiset(),
{
    broadcast use vstd::seq_lib::group_to_multiset_ensures;

    a.lemma_multiset_has_no_duplicates();
    b.lemma_multiset_has_no_duplicates();
    assert forall|x: &Process| #[trigger] a.to_multiset().count(x) == b.to_multiset().count(x) by {
        assert(a.contains(x) <==> a.to_multiset().count(x) > 0);
        assert(b.contains(x) <==> b.to_multiset().count(x) > 0);
        if a.contains(x) {
            assert(a.to_multiset().count(x) == 1);
            assert(b.to_multiset().count(x) == 1);
        }
    }
    assert(a.to_multiset() =~= b.to_multiset());
}

/// Cycle evidence is never spurious: a reported dependency path that closes
/// on itself refutes every ranking, so the input was genuinely cyclic. With
/// acyclic dependencies, then, the only error left to resolution is an
/// unknown dependency.
pub proof fn lemma_cycle_evidence_refutes_acyclic(s: Seq<&Process>, msg: Seq<char>)
    requires
        cycle_evidence(s, msg),
    ensures
        !acyclic(s),
{
    let (chain, t): (Seq<usize>, int) = choose|chain: Seq<usize>, t: int|
        #![auto]
        {
            &&& chain_ok(s, chain)
            &&& chain.len() >= 1
            &&& 1 <= t < chain.len()
            &&& has_dep(*s[chain.last() as int], spec_rkey(*s[chain[t] as int]))
            &&& msg == join_arrow(chain_dkeys(s, chain))
        };
    if acyclic(s) {
        let rank = choose|rank: spec_fn(Seq<char>) -> nat| rank_ok(s, rank);
        let last = chain.len() - 1;
        let kt = spec_rkey(*s[chain[t] as int]);
        assert(has_rkey(s, kt)) by {
            assert(0 <= chain[t] < s.len() && spec_rkey(*s[chain[t] as int]) == kt);
        }
        let p = *s[chain.last() as int];
        let d = choose|d: int| 0 <= d < p.deps.deep_view().len() && p.deps.deep_view()[d] == kt;
        assert(chain.last() == chain[last]);
        assert(rank(kt) < rank(spec_rkey(p))) by {
            assert(0 <= chain[last] < s.len());
            assert(s[chain[last] as int].deps.deep_view()[d] == kt);
        }
        if t < last {
            lemma_chain_rank(s, chain, rank, t, last);
        }
        assert(false);
    }
}

/// Order the processes so that every declared dependency precedes its
/// dependents, after stably biasing the input toward processes with fewer
/// checks and dependencies.
///
/// On success the result is a linearization of the input's dependency graph
/// that emits each resolve key once; with distinct keys it is a permutation
/// of the input. The order itself is pinned: it is exactly the depth-first
/// emission (`spec_resolve`) over the stably sorted input, and by
/// `lemma_stable_sort_unique` only one such order exists. A dangling
/// dependency name is reported as unknown, and a dependency cycle is reported
/// with the dependency path that closed on itself. With all dependencies
/// known and no cycle, resolution always succeeds.
pub fn order_procs<'a>(procs: Vec<&'a Process>) -> (r: Result<Vec<&'a Process>, Error>)
    ensures
        match r {
            Ok(ord) => {
                &&& topo_ordered(ord@)
                &&& forall|j: int| 0 <= j < ord@.len() ==> procs@.contains(#[trigger] ord@[j])
                &&& forall|j1: int, j2: int|
                    0 <= j1 < j2 < ord@.len() ==> spec_rkey(#[trigger] *ord@[j1]) != spec_rkey(
                        #[trigger] *ord@[j2],
                    )
                &&& forall|i: int|
                    0 <= i < procs@.len() ==> has_rkey(ord@, spec_rkey(#[trigger] *procs@[i]))
                &&& (rkeys_distinct(procs@) ==> ord@.to_multiset() == procs@.to_multiset())
                &&& exists|sorted: Seq<&'a Process>, perm: Seq<int>|
                    #![auto]
                    stable_sorted_by(procs@, sorted, perm) && ord@ == spec_resolve(sorted)
            },
            Err(e) => match e {
                Error::DependencyError(DependencyError::Cycle(msg)) => cycle_evidence(
                    procs@,
                    msg@,
                ),
                Error::DependencyError(DependencyError::Unknown(name)) => unknown_evidence(
                    procs@,
                    name@,
                ),
                _ => false,
            },
        },
        deps_known(procs@) && acyclic(procs@) ==> r is Ok,
        rkeys_distinct(procs@) && deps_known(procs@) && !acyclic(procs@) ==> r matches Err(
            Error::DependencyError(DependencyError::Cycle(_)),
        ),
        rkeys_distinct(procs@) && acyclic(procs@) && !deps_known(procs@) ==> r matches Err(
            Error::DependencyError(DependencyError::Unknown(_)),
        ),
{
    let sorted = primary_order(&procs);
    let ghost perm = choose|perm: Seq<int>| stable_sorted_by(procs@, sorted@, perm);
    proof {
        lemma_perm_transfer(procs@, sorted@, perm);
    }
    let mut ord: Vec<&'a Process> = Vec::new();
    let mut i: usize = 0;
    proof {
        assert(spec_resolve(sorted@) == spec_resolve_from(sorted@, ord@, 0));
    }
    while i < sorted.len()
        invariant
            sorted@.len() == procs@.len(),
            stable_sorted_by(procs@, sorted@, perm),
            resolver_inv(sorted@, ord@),
            forall|i2: int| 0 <= i2 < i ==> has_rkey(ord@, spec_rkey(#[trigger] *sorted@[i2])),
            i <= sorted@.len(),
            spec_resolve(sorted@) == spec_resolve_from(sorted@, ord@, i as int),
        decreases sorted@.len() - i,
    {
        let mut chain: Vec<usize> = Vec::new();
        chain.push(i);
        let ghost pre = ord@;
        let res = order_procs_sub(&sorted, i, &mut chain, &mut ord);
        match res {
            Ok(()) => {
                proof {
                    assert forall|i2: int| 0 <= i2 < i + 1 implies has_rkey(
                        ord@,
                        spec_rkey(#[trigger] *sorted@[i2]),
                    ) by {
                        if i2 < i {
                            lemma_has_rkey_extends(pre, ord@, spec_rkey(*sorted@[i2]));
                        }
                    }
                    assert(ord@ == spec_visit(
                        sorted@,
                        pre,
                        i as int,
                        (sorted@.len() + 1) as nat,
                    ));
                    assert(spec_resolve_from(sorted@, pre, i as int) == spec_resolve_from(
                        sorted@,
                        ord@,
                        i + 1,
                    ));
                }
            },
            Err(e) => {
                proof {
                    lemma_perm_transfer(procs@, sorted@, perm);
                    match &e {
                        Error::DependencyError(DependencyError::Cycle(msg)) => {
                            lemma_cycle_evidence_transfer(procs@, sorted@, perm, msg@);
                            lemma_cycle_evidence_refutes_acyclic(procs@, msg@);
                        },
                        Error::DependencyError(DependencyError::Unknown(name)) => {
                            lemma_unknown_evidence_transfer(procs@, sorted@, perm, name@);
                        },
                        _ => {},
                    }
                }
                return Err(e);
            },
        }
        i = i + 1;
    }
    proof {
        assert(spec_resolve_from(sorted@, ord@, sorted@.len() as int) == ord@);
        assert(ord@ == spec_resolve(sorted@));
        lemma_perm_transfer(procs@, sorted@, perm);
        lemma_distinct_full_surjective(perm, procs@.len() as int);
        assert forall|j: int| 0 <= j < ord@.len() implies procs@.contains(#[trigger] ord@[j]) by {
            assert(sorted@.contains(ord@[j]));
        }
        assert forall|ii: int| 0 <= ii < procs@.len() implies has_rkey(
            ord@,
            spec_rkey(#[trigger] *procs@[ii]),
        ) by {
            assert(perm.contains(ii));
            let w = choose|w: int| 0 <= w < perm.len() && perm[w] == ii;
            assert(sorted@[w] == procs@[ii]);
            assert(has_rkey(ord@, spec_rkey(*sorted@[w])));
        }
        if rkeys_distinct(procs@) {
            assert(ord@.no_duplicates()) by {
                assert forall|j1: int, j2: int|
                    0 <= j1 < ord@.len() && 0 <= j2 < ord@.len() && j1 != j2 implies ord@[j1]
                    != ord@[j2] by {
                    if j1 < j2 {
                        assert(spec_rkey(*ord@[j1]) != spec_rkey(*ord@[j2]));
                    } else {
                        assert(spec_rkey(*ord@[j2]) != spec_rkey(*ord@[j1]));
                    }
                }
            }
            assert(procs@.no_duplicates()) by {
                assert forall|j1: int, j2: int|
                    0 <= j1 < procs@.len() && 0 <= j2 < procs@.len() && j1 != j2 implies procs@[j1]
                    != procs@[j2] by {
                    if j1 < j2 {
                        assert(spec_rkey(*procs@[j1]) != spec_rkey(*procs@[j2]));
                    } else {
                        assert(spec_rkey(*procs@[j2]) != spec_rkey(*procs@[j1]));
                    }
                }
            }
            assert forall|x: &Process| #[trigger] ord@.contains(x) implies procs@.contains(x) by {}
            assert forall|x: &Process| #[trigger] procs@.contains(x) implies ord@.contains(x) by {
                let ii = choose|ii: int| 0 <= ii < procs@.len() && procs@[ii] == x;
                assert(has_rkey(ord@, spec_rkey(*procs@[ii])));
                let j = choose|j: int|
                    0 <= j < ord@.len() && spec_rkey(*ord@[j]) == spec_rkey(*procs@[ii]);
                assert(procs@.contains(ord@[j]));
                let i2 = choose|i2: int| 0 <= i2 < procs@.len() && procs@[i2] == ord@[j];
                assert(ord@[j] == procs@[ii]) by {
                    if i2 != ii {
                        if i2 < ii {
                            assert(spec_rkey(*procs@[i2]) != spec_rkey(*procs@[ii]));
                        } else {
                            assert(spec_rkey(*procs@[ii]) != spec_rkey(*procs@[i2]));
                        }
                    }
                }
            }
            lemma_multiset_from_same_members(ord@, procs@);
            lemma_topo_acyclic(procs@, ord@);
            assert forall|i2: int, d: int|
                0 <= i2 < procs@.len() && 0 <= d < procs@[i2].deps.deep_view().len() implies has_rkey(
                procs@,
                #[trigger] procs@[i2].deps.deep_view()[d],
            ) by {
                assert(procs@.contains(procs@[i2]));
                assert(ord@.contains(procs@[i2]));
                let j = choose|j: int| 0 <= j < ord@.len() && ord@[j] == procs@[i2];
                assert(emitted_before(ord@, j, ord@[j].deps.deep_view()[d]));
                let dk = ord@[j].deps.deep_view()[d];
                let j2 = choose|j2: int| 0 <= j2 < j && spec_rkey(*ord@[j2]) == dk;
                assert(procs@.contains(ord@[j2]));
                let w = choose|w: int| 0 <= w < procs@.len() && procs@[w] == ord@[j2];
                assert(spec_rkey(*procs@[w]) == procs@[i2].deps.deep_view()[d]);
            }
            assert(deps_known(procs@));
        }
    }
    Ok(ord)
}

/// A check URL, when parsed, becomes the single entry of the checks list.
fn check_vec(check: Option<String>) -> (r: Vec<String>)
    ensures
        r.deep_view() == match check {
            Some(u) => seq![u@],
            None => Seq::<Seq<char>>::empty(),
        },
{
    let mut v: Vec<String> = Vec::new();
    match check {
        Some(u) => {
            v.push(u);
            proof {
                assert(v.deep_view() =~= seq![v@[0]@]);
            }
        },
        None => {},
    }
    proof {
        if check is None {
            assert(v.deep_view() =~= Seq::<Seq<char>>::empty());
        }
    }
    v
}

} // verus!


