use trace_diagram::{ParserNode, Process, StrMap, TreeError, merge_trace_entries, processes_from_traces};

fn leaf(send: Option<&str>, recv: Option<&str>, msg: &str, dir: Option<&str>) -> ParserNode {
    ParserNode {
        send_channel: send.map(|s| s.to_string()),
        receive_channel: recv.map(|s| s.to_string()),
        message: Some(msg.to_string()),
        direction: dir.map(|s| s.to_string()),
        if_statem: None,
        else_statem: None,
    }
}

fn msg(send: &str, recv: &str, m: &str, dir: &str) -> ParserNode {
    leaf(Some(send), Some(recv), m, Some(dir))
}

fn branch(if_statem: Option<Vec<ParserNode>>, else_statem: Option<Vec<ParserNode>>) -> ParserNode {
    ParserNode {
        send_channel: None,
        receive_channel: None,
        message: None,
        direction: None,
        if_statem,
        else_statem,
    }
}

fn tree_text(records: Vec<ParserNode>) -> Result<Option<String>, TreeError> {
    let mut p = Process::new("p".to_string(), None);
    p.try_add_messages(&records)?;
    Ok(p.messages.as_ref().map(|m| m.to_string()))
}

#[test]
fn empty_trace_has_no_messages() {
    assert_eq!(tree_text(vec![]), Ok(None));
}

#[test]
fn message_records_form_a_chain() {
    let records = vec![msg("A", "B", "m1", "out"), msg("B", "A", "m2", "in")];
    assert_eq!(tree_text(records), Ok(Some("\rA->B: sent m1received m2".to_string())));
}

#[test]
fn add_messages_keeps_the_name() {
    let mut p = Process::new("worker".to_string(), None);
    p.add_messages(&vec![msg("A", "B", "m1", "in")]);
    assert_eq!(p.process_name, "worker");
    assert_eq!(p.messages.as_ref().unwrap().to_string(), "received m1");
}

#[test]
fn leading_branch_is_the_whole_tree() {
    let records = vec![
        branch(Some(vec![msg("a", "b", "p", "in")]), Some(vec![msg("a", "b", "q", "in")])),
        msg("A", "B", "ignored", "out"),
    ];
    assert_eq!(
        tree_text(records),
        Ok(Some("\n\ralt if branch:\nreceived p\n\nelse else branch:\nreceived q\n\nend".to_string()))
    );
}

#[test]
fn branch_in_chain_takes_else_from_next_record() {
    let records = vec![
        msg("A", "B", "m", "out"),
        branch(Some(vec![msg("a", "b", "p", "in")]), None),
        branch(None, Some(vec![msg("a", "b", "q", "in")])),
        msg("A", "B", "ignored", "out"),
    ];
    let expected = "\nalt if branch:\nreceived p\n\nalt else branch:\nreceived q\n\rA->B: sent m\n\ralt if branch:\nreceived p\n\nelse else branch:\nreceived q\n\nend";
    assert_eq!(tree_text(records), Ok(Some(expected.to_string())));
}

#[test]
fn missing_send_channel() {
    assert_eq!(tree_text(vec![leaf(None, Some("B"), "m", Some("out"))]), Err(TreeError::MissingSendChannel));
}

#[test]
fn missing_receive_channel() {
    assert_eq!(tree_text(vec![leaf(Some("A"), None, "m", Some("out"))]), Err(TreeError::MissingReceiveChannel));
}

#[test]
fn invalid_direction() {
    assert_eq!(tree_text(vec![msg("A", "B", "m", "sideways")]), Err(TreeError::InvalidDirection));
    assert_eq!(
        tree_text(vec![msg("A", "B", "m", "out"), leaf(Some("A"), Some("B"), "m", None)]),
        Err(TreeError::InvalidDirection)
    );
}

#[test]
fn branch_without_else_record() {
    let records = vec![msg("A", "B", "m", "out"), branch(Some(vec![]), None)];
    assert_eq!(tree_text(records), Err(TreeError::MissingElseBranch));
    let records = vec![msg("A", "B", "m", "out"), branch(None, None), msg("A", "B", "n", "out")];
    assert_eq!(tree_text(records), Err(TreeError::MissingElseBranch));
}

#[test]
fn error_inside_an_arm() {
    let records = vec![branch(Some(vec![msg("a", "b", "p", "up")]), None)];
    assert_eq!(tree_text(records), Err(TreeError::InvalidDirection));
}

#[test]
fn failed_add_leaves_process_unchanged() {
    let mut p = Process::new("p".to_string(), None);
    p.add_messages(&vec![msg("A", "B", "m1", "in")]);
    assert_eq!(p.try_add_messages(&vec![msg("A", "B", "m2", "nowhere")]), Err(TreeError::InvalidDirection));
    assert_eq!(p.messages.as_ref().unwrap().to_string(), "received m1");
}

#[test]
fn entries_with_the_same_name_are_joined() {
    let entries = vec![
        ("p".to_string(), vec![msg("A", "B", "m1", "out")]),
        ("q".to_string(), vec![msg("C", "D", "n1", "in")]),
        ("p".to_string(), vec![msg("B", "A", "m2", "in")]),
    ];
    let merged = merge_trace_entries(entries);
    assert_eq!(merged.len(), 2);
    assert_eq!(merged.get("p").unwrap().len(), 2);
    assert_eq!(merged.get("p").unwrap()[1].message.as_deref(), Some("m2"));
    assert_eq!(merged.get("q").unwrap().len(), 1);
}

#[test]
fn processes_are_named_after_their_traces() {
    let mut traces: StrMap<Vec<ParserNode>> = StrMap::new();
    traces.insert("p".to_string(), vec![msg("A", "B", "m1", "in")]);
    traces.insert("q".to_string(), vec![]);
    let processes = processes_from_traces(&traces).unwrap();
    assert_eq!(processes.len(), 2);
    assert_eq!(processes.get("p").unwrap().process_name, "p");
    assert!(processes.get("q").unwrap().messages.is_none());
    traces.insert("r".to_string(), vec![msg("A", "B", "m1", "across")]);
    assert_eq!(processes_from_traces(&traces).err(), Some(TreeError::InvalidDirection));
}
