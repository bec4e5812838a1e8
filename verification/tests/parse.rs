use psctl::runner::proc::{Process, WAIT_DEFAULT_MS};

#[test]
fn parse_round_trip() {
    let p = Process::parse(None, "web: ./server=http://localhost:8080/health").unwrap();
    assert_eq!(p.label(), Some("web"));
    assert_eq!(p.command(), "./server");
    assert_eq!(p.checks().clone(), vec!["http://localhost:8080/health".to_owned()]);
    assert!(p.deps().is_empty());
}

#[test]
fn parse_label_deps_command_check() {
    let p = Process::parse(None, "c +a,b: echo C=file:///tmp/file").unwrap();
    assert_eq!(p.label(), Some("c"));
    assert_eq!(p.deps().clone(), vec!["a".to_owned(), "b".to_owned()]);
    assert_eq!(p.command(), "echo C");
    assert_eq!(p.checks().clone(), vec!["file:///tmp/file".to_owned()]);
    assert_eq!(p.wait(), WAIT_DEFAULT_MS);
}

#[test]
fn parse_command_only() {
    let p = Process::parse(None, "echo plain").unwrap();
    assert_eq!(p.label(), None);
    assert_eq!(p.qualified_label(), None);
    assert_eq!(p.command(), "echo plain");
    assert!(p.deps().is_empty());
    assert!(p.checks().is_empty());
}

#[test]
fn parse_trims_tokens() {
    let p = Process::parse(None, "  a  + b ,  c  :  run me  =  shell://true  ").unwrap();
    assert_eq!(p.label(), Some("a"));
    assert_eq!(p.deps().clone(), vec!["b".to_owned(), "c".to_owned()]);
    assert_eq!(p.command(), "run me");
    assert_eq!(p.checks().clone(), vec!["shell://true".to_owned()]);
}

#[test]
fn parse_keeps_later_separators() {
    // the first `:` and the first `=` split; later ones belong to the pieces
    let p = Process::parse(None, "a: echo x=http://h:1/p=q").unwrap();
    assert_eq!(p.label(), Some("a"));
    assert_eq!(p.command(), "echo x");
    assert_eq!(p.checks().clone(), vec!["http://h:1/p=q".to_owned()]);
}

#[test]
fn parse_rejects_malformed_label() {
    // a declared label must be ASCII letters and digits only
    match Process::parse(None, "my app: echo x") {
        Err(psctl::runner::error::Error::ExecError(e)) => {
            assert_eq!(e.message, "Invalid process format: my app: echo x");
        },
        other => panic!("expected an invalid-format error, got {:?}", other),
    }
    assert!(Process::parse(None, ": echo x").is_err());
    assert!(Process::parse(None, "+a: echo x").is_err());
    // splitting is left-biased on the first `:`, so a colon anywhere makes
    // everything before it a label region, which must then match the grammar
    assert!(Process::parse(None, "echo http://x").is_err());
}

#[test]
fn parse_rejects_malformed_dep() {
    match Process::parse(None, "a +b-c: echo x") {
        Err(psctl::runner::error::Error::ExecError(e)) => {
            assert_eq!(e.message, "Invalid process format: a +b-c: echo x");
        },
        other => panic!("expected an invalid-format error, got {:?}", other),
    }
    // an empty dependency list after `+` is malformed too
    assert!(Process::parse(None, "a +: echo x").is_err());
}

#[test]
fn read_specs_aborts_on_first_malformed_spec() {
    let specs = vec!["a: echo A".to_owned(), "b!: echo B".to_owned(), "c: echo C".to_owned()];
    match psctl::runner::read_specs(&specs) {
        Err(psctl::runner::error::Error::ExecError(e)) => {
            assert_eq!(e.message, "Invalid process format: b!: echo B");
        },
        other => panic!("expected an invalid-format error, got {:?}", other),
    }
}

#[test]
fn parse_with_origin_qualifies_label() {
    let p = Process::parse(Some("tasks.yml"), "a: echo A").unwrap();
    assert_eq!(p.label(), Some("a"));
    assert_eq!(p.qualified_label(), Some("tasks.yml/a"));
    assert_eq!(p.key(), "tasks.yml/a");
    // dependency resolution still goes by the bare label
    assert_eq!(p.resolve_key(), "a");
}

#[test]
fn key_falls_back_to_command() {
    let p = Process::new(None, None, "echo A", vec![], None);
    assert_eq!(p.key(), "echo A");
    assert_eq!(p.resolve_key(), "echo A");
}

#[test]
fn with_origin_recomputes_qualified_label() {
    let p = Process::new(None, Some("web"), "./server", vec![], None);
    assert_eq!(p.qualified_label(), Some("web"));
    let q = p.with_origin("stack.yml");
    assert_eq!(q.qualified_label(), Some("stack.yml/web"));
    assert_eq!(q.label(), Some("web"));
    assert_eq!(q.command(), "./server");
}

#[test]
fn key_with_padding_pads_and_cuts() {
    let p = Process::new(None, Some("ab"), "cmd", vec![], None);
    assert_eq!(p.key_with_padding(5), "ab   ");
    assert_eq!(p.key_with_padding(1), "a");
    assert_eq!(p.key_with_padding(2), "ab");
}

#[test]
fn describe_names_label_command_and_checks() {
    let p = Process::new(None, Some("a"), "echo A", vec![], None);
    assert_eq!(p.describe(), "a: echo A");
    let q = Process::new(None, Some("a"), "echo A", vec![], Some("file:///tmp/x"));
    assert_eq!(q.describe(), "a: echo A (file:///tmp/x)");
    let bare = Process::new(None, None, "echo A", vec![], None);
    assert_eq!(bare.describe(), "echo A");
    let mut many = Process::new(None, Some("a"), "echo A", vec![], None);
    many.checks = vec!["file:///tmp/x".to_owned(), "shell://true".to_owned()];
    assert_eq!(many.describe(), "a: echo A (2 checks)");
}
