//! The waiter: readiness probes for processes, and the policies that drive
//! their polling. Each check URL dispatches on its scheme to one probe; a
//! driver polls every probe on a fixed interval against a shared deadline.
//! Performing the probes (HTTP requests, file checks, shell commands) and
//! sleeping between attempts happen outside this crate; the dispatch, the
//! timing decisions and the error texts are decided here.

pub mod error;

use vstd::prelude::*;

use crate::config::Options;
use crate::strutil::{find_char_str, lemma_find_char_at};
use crate::waiter::error::{AwaitError, Error};

verus! {

/// The fixed polling interval of the probe driver, in milliseconds.
pub const POLL_INTERVAL_MS: u64 = 1000;

/// How a waiter run is configured: the key of the process being gated, for
/// display, and whether per-probe start lines are wanted.
pub struct Config {
    pub key: Option<String>,
    pub verbose: bool,
}

impl Config {
    pub fn from_options(key: String, opts: &Options) -> (r: Config)
        ensures
            r.key == Some(key),
            r.verbose == (opts.debug || opts.verbose),
    {
        Config { key: Some(key), verbose: opts.verbose() }
    }
}

/// Whether `url::Url::parse` accepts the text as an absolute URL.
pub uninterp spec fn url_ok(s: Seq<char>) -> bool;

/// The scheme of the parsed URL.
pub uninterp spec fn url_scheme(s: Seq<char>) -> Seq<char>;

/// The path component of the parsed URL.
pub uninterp spec fn url_path(s: Seq<char>) -> Seq<char>;

/// The normalized serialization of the parsed URL.
pub uninterp spec fn url_norm(s: Seq<char>) -> Seq<char>;

/// The pieces of a parsed check URL that the probes act on.
#[derive(Debug)]
pub struct UrlParts {
    pub scheme: String,
    pub path: String,
    pub normalized: String,
}

/// Relies on `url::Url::parse` and its accessors `scheme`, `path` and
/// `as_str`: parsing yields the URL's lower-cased nonempty scheme (which the
/// URL grammar keeps free of colons), its path component, and a serialization
/// that begins with the scheme followed by a colon. The error text is the
/// parse error's own description.
#[verifier::external_body]
fn parse_url(s: &str) -> (r: Result<UrlParts, String>)
    ensures
        r is Ok <==> url_ok(s@),
        match r {
            Ok(parts) => {
                &&& parts.scheme@ == url_scheme(s@)
                &&& parts.path@ == url_path(s@)
                &&& parts.normalized@ == url_norm(s@)
                &&& parts.scheme@.len() >= 1
                &&& forall|i: int| 0 <= i < parts.scheme@.len() ==> parts.scheme@[i] != ':'
                &&& parts.normalized@.len() > parts.scheme@.len()
                &&& parts.normalized@.take(parts.scheme@.len() as int) == parts.scheme@
                &&& parts.normalized@[parts.scheme@.len() as int] == ':'
            },
            Err(_) => true,
        },
{
    match url::Url::parse(s) {
        Ok(u) => Ok(UrlParts {
            scheme: u.scheme().to_owned(),
            path: u.path().to_owned(),
            normalized: u.as_str().to_owned(),
        }),
        Err(e) => Err(e.to_string()),
    }
}

/// The kind of readiness probe a check URL dispatches to.
#[derive(Clone, Copy, Debug, PartialEq, Eq, Structural)]
pub enum ProbeKind {
    /// An HTTP GET must return a 2xx status before the deadline.
    Http,
    /// The URL's path component must exist as a filesystem entry.
    File,
    /// `sh -c` on the content after the scheme must exit with status 0.
    Shell,
}

/// Which probe a scheme dispatches to, if any.
pub open spec fn spec_probe_kind(scheme: Seq<char>) -> Option<ProbeKind> {
    if scheme == "http"@ || scheme == "https"@ {
        Some(ProbeKind::Http)
    } else if scheme == "file"@ {
        Some(ProbeKind::File)
    } else if scheme == "shell"@ {
        Some(ProbeKind::Shell)
    } else {
        None
    }
}

/// One readiness probe: its kind, the check URL as written, and the target
/// the probe acts on.
#[derive(Debug)]
pub struct Probe {
    pub kind: ProbeKind,
    /// The check URL as the user wrote it.
    pub url: String,
    /// The URL itself for HTTP probes, the path component for file probes,
    /// and everything after `scheme:` in the normalized URL for shell probes.
    pub target: String,
}

/// What the planner guarantees of each built probe.
pub open spec fn spec_probe_built(p: Probe, u: Seq<char>) -> bool {
    &&& p.url@ == u
    &&& spec_probe_kind(url_scheme(u)) == Some(p.kind)
    &&& p.target@ == match p.kind {
        ProbeKind::Http => u,
        ProbeKind::File => url_path(u),
        ProbeKind::Shell => url_norm(u).skip(url_scheme(u).len() as int + 1),
    }
}

fn classify_scheme(scheme: &str) -> (r: Option<ProbeKind>)
    ensures
        r == spec_probe_kind(scheme@),
{
    if crate::strutil::str_eq(scheme, "http") || crate::strutil::str_eq(scheme, "https") {
        Some(ProbeKind::Http)
    } else if crate::strutil::str_eq(scheme, "file") {
        Some(ProbeKind::File)
    } else if crate::strutil::str_eq(scheme, "shell") {
        Some(ProbeKind::Shell)
    } else {
        None
    }
}

/// The message an unsupported check scheme is reported with.
pub open spec fn spec_unsupported_msg(scheme: Seq<char>, u: Seq<char>) -> Seq<char> {
    "Scheme '"@ + scheme + "' not supported: "@ + u
}

/// Build one probe per check URL, dispatched on its scheme. A URL that does
/// not parse, or whose scheme no probe answers to, fails the whole plan with
/// the first offender reported.
pub fn wait_jobs(urls: &Vec<String>) -> (r: Result<Vec<Probe>, Error>)
    ensures
        match r {
            Ok(probes) => {
                &&& probes@.len() == urls@.len()
                &&& forall|i: int|
                    0 <= i < urls@.len() ==> url_ok(#[trigger] urls@[i]@) && spec_probe_kind(
                        url_scheme(urls@[i]@),
                    ) is Some
                &&& forall|i: int|
                    0 <= i < urls@.len() ==> spec_probe_built(#[trigger] probes@[i], urls@[i]@)
            },
            Err(Error::ParseURLError(_)) => exists|i: int|
                #![auto]
                {
                    &&& 0 <= i < urls@.len()
                    &&& !url_ok(urls@[i]@)
                    &&& forall|j: int|
                        0 <= j < i ==> url_ok(#[trigger] urls@[j]@) && spec_probe_kind(
                            url_scheme(urls@[j]@),
                        ) is Some
                },
            Err(Error::AwaitError(ae)) => exists|i: int|
                #![auto]
                {
                    &&& 0 <= i < urls@.len()
                    &&& url_ok(urls@[i]@)
                    &&& spec_probe_kind(url_scheme(urls@[i]@)) is None
                    &&& ae.message@ == spec_unsupported_msg(url_scheme(urls@[i]@), urls@[i]@)
                    &&& forall|j: int|
                        0 <= j < i ==> url_ok(#[trigger] urls@[j]@) && spec_probe_kind(
                            url_scheme(urls@[j]@),
                        ) is Some
                },
            Err(_) => false,
        },
{
    let mut probes: Vec<Probe> = Vec::new();
    let mut i: usize = 0;
    while i < urls.len()
        invariant
            i <= urls@.len(),
            probes@.len() == i,
            forall|j: int|
                0 <= j < i ==> url_ok(#[trigger] urls@[j]@) && spec_probe_kind(
                    url_scheme(urls@[j]@),
                ) is Some,
            forall|j: int| 0 <= j < i ==> spec_probe_built(#[trigger] probes@[j], urls@[j]@),
        decreases urls@.len() - i,
    {
        let base: &String = &urls[i];
        let parts = match parse_url(base.as_str()) {
            Ok(parts) => parts,
            Err(msg) => {
                return Err(Error::ParseURLError(msg));
            },
        };
        match classify_scheme(parts.scheme.as_str()) {
            Some(ProbeKind::Http) => {
                probes.push(Probe { kind: ProbeKind::Http, url: base.clone(), target: base.clone() });
            },
            Some(ProbeKind::File) => {
                probes.push(Probe { kind: ProbeKind::File, url: base.clone(), target: parts.path });
            },
            Some(ProbeKind::Shell) => {
                let norm = parts.normalized.as_str();
                let nn = norm.unicode_len();
                proof {
                    assert forall|j: int| 0 <= j < parts.scheme@.len() implies norm@[j] != ':' by {
                        assert(parts.normalized@.take(parts.scheme@.len() as int)[j] == norm@[j]);
                        assert(parts.scheme@[j] != ':');
                    }
                }
                match find_char_str(norm, ':') {
                    Some(c) => {
                        proof {
                            lemma_find_char_at(norm@, ':', parts.scheme@.len() as int);
                            assert(norm@.subrange(c + 1, nn as int) =~= url_norm(base@).skip(
                                url_scheme(base@).len() as int + 1,
                            ));
                        }
                        let target = norm.substring_char(c + 1, nn).to_owned();
                        probes.push(Probe { kind: ProbeKind::Shell, url: base.clone(), target });
                    },
                    None => {
                        proof {
                            lemma_find_char_at(norm@, ':', parts.scheme@.len() as int);
                            assert(false);
                        }
                        return Err(Error::ParseURLError(String::new()));
                    },
                }
            },
            None => {
                let mut msg: String = "Scheme '".to_owned();
                msg.append(parts.scheme.as_str());
                msg.append("' not supported: ");
                msg.append(base.as_str());
                proof {
                    assert(msg@ == spec_unsupported_msg(url_scheme(base@), base@));
                }
                return Err(Error::AwaitError(AwaitError { message: msg }));
            },
        }
        i = i + 1;
    }
    Ok(probes)
}

/// An HTTP probe passes exactly on a 2xx status.
pub fn http_status_passes(status: u16) -> (r: bool)
    ensures
        r == (200 <= status < 300),
{
    200 <= status && status < 300
}

/// The time left until the deadline; a clock already past it is an error, as
/// the system clock reports it.
pub fn poll_budget(now_ms: u64, deadline_ms: u64) -> (r: Result<u64, Error>)
    ensures
        now_ms <= deadline_ms <==> r is Ok,
        match r {
            Ok(remaining) => remaining == deadline_ms - now_ms,
            Err(e) => e is SystemTimeError,
        },
{
    if now_ms <= deadline_ms {
        Ok(deadline_ms - now_ms)
    } else {
        Err(Error::SystemTimeError(String::new()))
    }
}

/// One decision of the polling driver, taken after a probe attempt.
#[derive(Debug, PartialEq, Eq, Structural)]
pub enum PollStep {
    /// The probe passed; the wait is over.
    Pass,
    /// The next attempt could not start before the deadline: give up,
    /// reporting how long the last attempt took.
    Fail { elapsed_ms: u64 },
    /// Sleep out the rest of the polling interval, then try again.
    Sleep { ms: u64 },
}

/// Decide what the polling driver does after one probe attempt bounded by
/// `before_ms` and `after_ms` on the clock: pass on success; fail when one
/// more interval would overshoot the deadline; otherwise sleep whatever the
/// attempt left of the interval.
pub fn poll_step(passed: bool, before_ms: u64, after_ms: u64, deadline_ms: u64) -> (r: PollStep)
    requires
        before_ms <= after_ms,
    ensures
        passed ==> r is Pass,
        !passed ==> match r {
            PollStep::Pass => false,
            PollStep::Fail { elapsed_ms } => after_ms + POLL_INTERVAL_MS >= deadline_ms
                && elapsed_ms == after_ms - before_ms,
            PollStep::Sleep { ms } => after_ms + POLL_INTERVAL_MS < deadline_ms && ms == if after_ms
                - before_ms < POLL_INTERVAL_MS {
                POLL_INTERVAL_MS - (after_ms - before_ms)
            } else {
                0
            },
        },
{
    if passed {
        PollStep::Pass
    } else if deadline_ms <= after_ms || deadline_ms - after_ms <= POLL_INTERVAL_MS {
        PollStep::Fail { elapsed_ms: after_ms - before_ms }
    } else {
        let elapsed = after_ms - before_ms;
        PollStep::Sleep {
            ms: if elapsed < POLL_INTERVAL_MS {
                POLL_INTERVAL_MS - elapsed
            } else {
                0
            },
        }
    }
}

/// The message a missed readiness deadline is reported with; the elapsed time
/// arrives already formatted for people.
pub open spec fn spec_deadline_msg(elapsed: Seq<char>, u: Seq<char>) -> Seq<char> {
    "Deadline exceeded ("@ + elapsed + " elapsed): "@ + u
}

pub fn deadline_error(elapsed: &str, url: &str) -> (r: AwaitError)
    ensures
        r.message@ == spec_deadline_msg(elapsed@, url@),
{
    let mut msg: String = "Deadline exceeded (".to_owned();
    msg.append(elapsed);
    msg.append(" elapsed): ");
    msg.append(url);
    AwaitError { message: msg }
}

/// The per-probe start line verbose runs announce each wait with.
pub open spec fn spec_probe_banner(key: Option<Seq<char>>, u: Seq<char>) -> Seq<char> {
    match key {
        Some(k) => "----> "@ + k + ": ... "@ + u,
        None => "----> ... "@ + u,
    }
}

pub fn probe_banner(key: Option<&str>, url: &str) -> (r: String)
    ensures
        r@ == spec_probe_banner(key.deep_view(), url@),
{
    match key {
        Some(k) => {
            let mut s: String = "----> ".to_owned();
            s.append(k);
            s.append(": ... ");
            s.append(url);
            s
        },
        None => {
            let mut s: String = "----> ... ".to_owned();
            s.append(url);
            s
        },
    }
}

/// A probe attempt that failed outright counts as "not yet ready": the
/// polling driver swallows the failure and retries instead of aborting the
/// wait.
pub fn attempt_passed(r: Result<bool, Error>) -> (b: bool)
    ensures
        b == (r matches Ok(true)),
{
    match r {
        Ok(passed) => passed,
        Err(_) => false,
    }
}

/// A shell probe's verdict from its exit status: success passes; a nonzero
/// exit is reported as a command error (which the driver then swallows as
/// "not yet ready", like any other per-attempt failure).
pub fn shell_verdict(success: bool) -> (r: Result<bool, Error>)
    ensures
        success ==> r == Ok::<bool, Error>(true),
        !success ==> (r matches Err(Error::CommandError(m)) && m@ == "Exited with error"@),
{
    if success {
        Ok(true)
    } else {
        Err(Error::CommandError("Exited with error".to_owned()))
    }
}

} // verus!
