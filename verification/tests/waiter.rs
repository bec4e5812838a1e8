use psctl::config::Options;
use psctl::waiter::error::Error;
use psctl::waiter::{
    deadline_error, http_status_passes, poll_budget, poll_step, probe_banner, wait_jobs, Config,
    PollStep, ProbeKind, POLL_INTERVAL_MS,
};

#[test]
fn config_from_options() {
    let mut opts = Options::new();
    opts.verbose = true;
    let conf = Config::from_options("web".to_owned(), &opts);
    assert_eq!(conf.key, Some("web".to_owned()));
    assert!(conf.verbose);
    let quiet = Config::from_options("web".to_owned(), &Options::new());
    assert!(!quiet.verbose);
}

#[test]
fn wait_jobs_classifies_schemes() {
    let urls = vec![
        "http://127.0.0.1:1/".to_owned(),
        "https://example.net/x".to_owned(),
        "file:///tmp/psctl-B".to_owned(),
        "shell://true".to_owned(),
    ];
    let probes = wait_jobs(&urls).unwrap();
    assert_eq!(probes.len(), 4);
    assert_eq!(probes[0].kind, ProbeKind::Http);
    assert_eq!(probes[0].target, "http://127.0.0.1:1/");
    assert_eq!(probes[1].kind, ProbeKind::Http);
    assert_eq!(probes[2].kind, ProbeKind::File);
    assert_eq!(probes[2].target, "/tmp/psctl-B");
    assert_eq!(probes[3].kind, ProbeKind::Shell);
    // the shell target is whatever follows `scheme:` in the URL as the url
    // crate writes it back out
    let norm = url::Url::parse("shell://true").unwrap();
    let s = norm.as_str();
    let expected = &s[s.find(':').unwrap() + 1..];
    assert_eq!(probes[3].target, expected);
    assert_ne!(probes[3].target, probes[3].url);
}

#[test]
fn wait_jobs_uppercase_scheme_still_dispatches() {
    // url parsing lower-cases the scheme before dispatch
    let urls = vec!["HTTP://EXAMPLE.NET/".to_owned()];
    let probes = wait_jobs(&urls).unwrap();
    assert_eq!(probes[0].kind, ProbeKind::Http);
}

#[test]
fn wait_jobs_rejects_unsupported_scheme() {
    let urls = vec!["ftp://x/".to_owned()];
    match wait_jobs(&urls) {
        Err(Error::AwaitError(ae)) => {
            assert_eq!(ae.message, "Scheme 'ftp' not supported: ftp://x/");
        },
        other => panic!("expected an unsupported scheme, got {:?}", other),
    }
}

#[test]
fn wait_jobs_rejects_bad_url() {
    let urls = vec!["not a url".to_owned()];
    match wait_jobs(&urls) {
        Err(Error::ParseURLError(_)) => {},
        other => panic!("expected a URL parse error, got {:?}", other),
    }
}

#[test]
fn http_probe_passes_on_2xx_only() {
    assert!(http_status_passes(200));
    assert!(http_status_passes(204));
    assert!(http_status_passes(299));
    assert!(!http_status_passes(199));
    assert!(!http_status_passes(300));
    assert!(!http_status_passes(404));
}

#[test]
fn poll_budget_measures_remaining_time() {
    assert_eq!(poll_budget(1_000, 3_000).unwrap(), 2_000);
    assert_eq!(poll_budget(3_000, 3_000).unwrap(), 0);
    assert!(matches!(poll_budget(3_001, 3_000), Err(Error::SystemTimeError(_))));
}

#[test]
fn poll_step_decides_pass_fail_sleep() {
    // a passing probe ends the wait
    assert_eq!(poll_step(true, 0, 10, 5_000), PollStep::Pass);
    // one more interval would overshoot the deadline: fail with the elapsed time
    assert_eq!(poll_step(false, 1_000, 1_200, 2_000), PollStep::Fail { elapsed_ms: 200 });
    assert_eq!(poll_step(false, 1_000, 2_500, 2_000), PollStep::Fail { elapsed_ms: 1_500 });
    // otherwise sleep out the rest of the interval
    assert_eq!(poll_step(false, 1_000, 1_200, 9_000), PollStep::Sleep { ms: 800 });
    // an attempt longer than the interval sleeps nothing
    assert_eq!(poll_step(false, 1_000, 2_500, 9_000), PollStep::Sleep { ms: 0 });
    assert_eq!(POLL_INTERVAL_MS, 1_000);
}

#[test]
fn readiness_timeout_scenario() {
    // a two-second deadline with attempts of about 100 ms that never pass:
    // the driver sleeps out the first interval, then gives up when one more
    // interval would overshoot
    let deadline: u64 = 2_000;
    assert_eq!(poll_step(false, 0, 100, deadline), PollStep::Sleep { ms: 900 });
    assert_eq!(poll_step(false, 1_000, 1_100, deadline), PollStep::Fail { elapsed_ms: 100 });
}

#[test]
fn deadline_error_message() {
    let e = deadline_error("2s", "http://127.0.0.1:1/");
    assert_eq!(e.message, "Deadline exceeded (2s elapsed): http://127.0.0.1:1/");
}

#[test]
fn probe_banner_lines() {
    assert_eq!(probe_banner(Some("web"), "file:///tmp/x"), "----> web: ... file:///tmp/x");
    assert_eq!(probe_banner(None, "file:///tmp/x"), "----> ... file:///tmp/x");
}

#[test]
fn wait_jobs_reports_first_offender() {
    // the unsupported scheme at the first position is reported, not the
    // later URL that does not parse at all
    let urls = vec!["ftp://x/".to_owned(), "also not a url".to_owned()];
    match wait_jobs(&urls) {
        Err(Error::AwaitError(ae)) => {
            assert_eq!(ae.message, "Scheme 'ftp' not supported: ftp://x/");
        },
        other => panic!("expected the first offender, got {:?}", other),
    }
}
