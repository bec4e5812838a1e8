use psctl::runner::util::join_labels;

#[test]
fn test_join_labels() {
    assert_eq!(join_labels(vec![], '/'), None);
    assert_eq!(join_labels(vec![None], '/'), None);
    assert_eq!(join_labels(vec![None, None], '/'), None);
    assert_eq!(join_labels(vec![None, Some("Hi"), None], '/'), Some("Hi".to_owned()));
    assert_eq!(
        join_labels(vec![Some("Hi"), Some("there"), Some("palzo")], '/'),
        Some("Hi/there/palzo".to_owned())
    );
}

#[test]
fn join_labels_empty_pieces() {
    assert_eq!(join_labels(vec![Some(""), Some("a")], '/'), Some("a".to_owned()));
    assert_eq!(join_labels(vec![Some("a"), Some("")], '/'), Some("a/".to_owned()));
}
