use psctl::runner::error::{DependencyError, Error};
use psctl::runner::proc::{order_procs, primary_order, Process};

#[test]
fn mod_test_resolve_deps() {
    let p1 = Process::new(None, Some("p1"), "proc 1", vec![], None);
    let p2 = Process::new(None, Some("p2"), "proc 2", vec!["p1"], None);
    let p3 = Process::new(None, Some("p3"), "proc 3", vec!["p2", "p1"], None);
    let p4 = Process::new(None, Some("p4"), "proc 4", vec!["p1"], None);

    match order_procs(vec![&p2, &p3, &p1]) {
        Ok(res) => assert_eq!(vec![&p1, &p2, &p3], res),
        Err(err) => panic!("{:?}", err),
    };
    match order_procs(vec![&p2, &p4, &p3, &p1]) {
        Ok(res) => assert_eq!(vec![&p1, &p2, &p4, &p3], res),
        Err(err) => panic!("{:?}", err),
    };

    // circular
    let p5 = Process::new(None, Some("p5"), "proc 5", vec!["p6"], None);
    let p6 = Process::new(None, Some("p6"), "proc 6", vec!["p5"], None);

    match order_procs(vec![&p5, &p6]) {
        Ok(_) => panic!("Cannot succeed!"),
        Err(err) => match err {
            Error::DependencyError(DependencyError::Cycle(_)) => {}, // expected error
            _ => panic!("Unexpected error: {:?}", err),
        },
    };
}

#[test]
fn proc_test_resolve_deps() {
    let p1 = Process::new(None, Some("p1"), "proc 1", vec![], None);
    let p2 = Process::new(None, Some("p2"), "proc 2", vec!["p1"], None);
    let p3 = Process::new(None, Some("p3"), "proc 3", vec!["p2", "p1"], None);
    let p4 = Process::new(None, Some("p4"), "proc 4", vec!["p1"], None);

    match order_procs(vec![&p2, &p3, &p1]) {
        Ok(res) => assert_eq!(vec![&p1, &p2, &p3], res),
        Err(err) => panic!("{:?}", err),
    };
    match order_procs(vec![&p2, &p4, &p3, &p1]) {
        Ok(res) => assert_eq!(vec![&p1, &p2, &p4, &p3], res),
        Err(err) => panic!("{:?}", err),
    };

    // circular
    let p5 = Process::new(None, Some("p5"), "proc 5", vec!["p6"], None);
    let p6 = Process::new(None, Some("p6"), "proc 6", vec!["p5"], None);

    match order_procs(vec![&p5, &p6]) {
        Ok(_) => panic!("Cannot succeed!"),
        Err(err) => match err {
            Error::DependencyError(DependencyError::Cycle(_)) => {}, // expected error
            _ => panic!("Unexpected error: {:?}", err),
        },
    };
}

#[test]
fn linear_deps_start_order() {
    let a = Process::parse(None, "a: echo A").unwrap();
    let b = Process::parse(None, "b +a: echo B").unwrap();
    let c = Process::parse(None, "c +b: echo C").unwrap();
    let ord = order_procs(vec![&a, &b, &c]).unwrap();
    let keys: Vec<&str> = ord.iter().map(|p| p.resolve_key()).collect();
    assert_eq!(keys, vec!["a", "b", "c"]);
}

#[test]
fn diamond_respects_edges() {
    let a = Process::parse(None, "a: sleep 0.05").unwrap();
    let b = Process::parse(None, "b +a: echo B=file:///tmp/psctl-B").unwrap();
    let c = Process::parse(None, "c +a: echo C").unwrap();
    let d = Process::parse(None, "d +b,c: echo D").unwrap();
    let ord = order_procs(vec![&a, &b, &c, &d]).unwrap();
    let keys: Vec<&str> = ord.iter().map(|p| p.resolve_key()).collect();
    let pos = |k: &str| keys.iter().position(|x| *x == k).unwrap();
    assert_eq!(keys.len(), 4);
    assert!(pos("a") < pos("b"));
    assert!(pos("a") < pos("c"));
    assert!(pos("b") < pos("d"));
    assert!(pos("c") < pos("d"));
}

#[test]
fn cycle_path_names_both_nodes() {
    let x = Process::parse(None, "x +y: echo X").unwrap();
    let y = Process::parse(None, "y +x: echo Y").unwrap();
    match order_procs(vec![&x, &y]) {
        Err(Error::DependencyError(DependencyError::Cycle(path))) => {
            assert!(path.contains("x"));
            assert!(path.contains("y"));
            assert!(path.contains(" \u{2192} "));
        },
        other => panic!("expected a cycle, got {:?}", other),
    }
}

#[test]
fn unknown_dependency_is_named() {
    let a = Process::parse(None, "a +nope: echo A").unwrap();
    match order_procs(vec![&a]) {
        Err(Error::DependencyError(DependencyError::Unknown(name))) => {
            assert_eq!(name, "nope");
        },
        other => panic!("expected an unknown dependency, got {:?}", other),
    }
}

#[test]
fn resolve_is_permutation() {
    let a = Process::new(None, Some("a"), "cmd a", vec![], None);
    let b = Process::new(None, Some("b"), "cmd b", vec!["a"], None);
    let c = Process::new(None, Some("c"), "cmd c", vec![], Some("file:///tmp/x"));
    let input = vec![&c, &b, &a];
    let ord = order_procs(input.clone()).unwrap();
    assert_eq!(ord.len(), input.len());
    for p in &input {
        assert!(ord.contains(p));
    }
}

#[test]
fn primary_order_is_stable() {
    // equal (checks, deps) keys keep their input order
    let a = Process::new(None, Some("a"), "cmd a", vec![], None);
    let b = Process::new(None, Some("b"), "cmd b", vec![], None);
    let c = Process::new(None, Some("c"), "cmd c", vec![], None);
    let sorted = primary_order(&vec![&b, &c, &a]);
    let keys: Vec<&str> = sorted.iter().map(|p| p.resolve_key()).collect();
    assert_eq!(keys, vec!["b", "c", "a"]);

    // fewer checks first, then fewer deps; ties keep input order
    let gated = Process::new(None, Some("g"), "cmd g", vec![], Some("file:///tmp/x"));
    let depping = Process::new(None, Some("d"), "cmd d", vec!["a"], None);
    let plain = Process::new(None, Some("p"), "cmd p", vec![], None);
    let sorted = primary_order(&vec![&gated, &depping, &plain]);
    let keys: Vec<&str> = sorted.iter().map(|p| p.resolve_key()).collect();
    assert_eq!(keys, vec!["p", "d", "g"]);
}
