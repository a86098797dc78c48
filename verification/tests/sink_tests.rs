use logtail::Sink;

#[test]
fn a_fresh_sink_is_empty() {
    let sink = Sink::new();
    assert_eq!(sink.len(), 0);
    assert!(sink.lines_for_file(&"a.log".to_string()).is_empty());
}

#[test]
fn emitted_lines_are_recorded_in_order() {
    let mut sink = Sink::new();
    sink.emit("a.log".to_string(), "first".to_string());
    sink.emit("a.log".to_string(), "second".to_string());
    assert_eq!(sink.len(), 2);
    assert_eq!(
        sink.lines_for_file(&"a.log".to_string()),
        vec!["first".to_string(), "second".to_string()]
    );
}

#[test]
fn lines_are_filtered_by_source() {
    let mut sink = Sink::new();
    sink.emit("a.log".to_string(), "for a".to_string());
    sink.emit("b.log".to_string(), "for b".to_string());
    assert_eq!(
        sink.lines_for_file(&"a.log".to_string()),
        vec!["for a".to_string()]
    );
    assert_eq!(
        sink.lines_for_file(&"b.log".to_string()),
        vec!["for b".to_string()]
    );
    assert!(sink.lines_for_file(&"c.log".to_string()).is_empty());
}
