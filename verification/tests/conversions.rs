use std::str::FromStr;

use trace_diagram::branches::insert_branches_rec;
use trace_diagram::visit::{update_status, visit_in_order_rec};
use trace_diagram::{
    BranchingNode, Direction, Message, Node, ParserNode, Process, ProtocolMap, ProtocolType, StrMap, processes_from_traces,
};

fn node(send: &str, recv: &str, stmt: &str, direction: Direction, next: Option<Box<Message>>) -> Node {
    Node::new(send.to_string(), recv.to_string(), stmt.to_string(), direction, next)
}

fn msg(send: &str, recv: &str, m: &str, dir: &str) -> ParserNode {
    ParserNode {
        send_channel: Some(send.to_string()),
        receive_channel: Some(recv.to_string()),
        message: Some(m.to_string()),
        direction: Some(dir.to_string()),
        if_statem: None,
        else_statem: None,
    }
}

fn branch(if_statem: Option<Vec<ParserNode>>, else_statem: Option<Vec<ParserNode>>) -> ParserNode {
    ParserNode { send_channel: None, receive_channel: None, message: None, direction: None, if_statem, else_statem }
}

#[test]
fn world_names_parse_back() {
    assert_eq!(ProtocolType::from_str("Real"), Ok(ProtocolType::Real));
    assert_eq!(ProtocolType::try_from("Ideal"), Ok(ProtocolType::Ideal));
    assert_eq!(ProtocolType::try_from("Real".to_string()), Ok(ProtocolType::Real));
    assert_eq!(
        ProtocolType::from_str("real"),
        Err("Failed to parse string 'real' for enum ProtocolType".to_string())
    );
    for p in [ProtocolType::Real, ProtocolType::Ideal] {
        assert_eq!(ProtocolType::from_name(&p.to_string()), Ok(p));
    }
}

#[test]
fn trees_clone_exactly() {
    let inner = node("B", "A", "x", Direction::In, None);
    let n = node("A", "B", "m", Direction::Out, Some(Box::new(Message::Node(inner))));
    let m = Message::BranchingNode(BranchingNode::new(Some(Box::new(Message::Node(n.clone()))), None));
    assert_eq!(m.clone().to_string(), m.to_string());
    let p = Process::new("p".to_string(), Some(Box::new(m)));
    let q = p.clone();
    assert_eq!(q.process_name, "p");
    assert_eq!(q.messages.unwrap().to_string(), p.messages.unwrap().to_string());
}

#[test]
fn processes_keep_the_order_of_the_traces() {
    let mut traces: StrMap<Vec<ParserNode>> = StrMap::new();
    traces.insert("z".to_string(), vec![msg("A", "B", "m", "in")]);
    traces.insert("a".to_string(), vec![]);
    let processes = processes_from_traces(&traces).unwrap();
    assert_eq!(processes.key_at(0), "z");
    assert_eq!(processes.key_at(1), "a");
    assert_eq!(processes.value_at(0).process_name, "z");
}

#[test]
fn chain_ends_at_a_branch_record() {
    let records = vec![
        branch(Some(vec![msg("a", "b", "p", "in")]), Some(vec![msg("a", "b", "own", "in")])),
        branch(None, Some(vec![msg("a", "b", "q", "in")])),
        msg("A", "B", "ignored", "out"),
    ];
    let chain = Process::add_messages_recursively(&records, 0).unwrap();
    assert_eq!(chain.to_string(), "\n\ralt if branch:\nreceived p\n\nelse else branch:\nreceived q\n\nend");
}

#[test]
fn leading_message_is_followed_by_the_rest() {
    let records = vec![msg("A", "B", "m1", "out"), msg("B", "A", "m2", "in")];
    let tree = Process::create_message_tree(&records).unwrap();
    assert_eq!(tree.to_string(), "\rA->B: sent m1received m2");
}

#[test]
fn leading_branch_uses_its_own_arms() {
    let records = vec![
        branch(Some(vec![msg("a", "b", "p", "in")]), Some(vec![msg("a", "b", "own", "in")])),
        branch(None, Some(vec![msg("a", "b", "q", "in")])),
    ];
    let tree = Process::create_message_tree(&records).unwrap();
    assert_eq!(tree.to_string(), "\n\ralt if branch:\nreceived p\n\nelse else branch:\nreceived own\n\nend");
}

#[test]
fn empty_statements_leave_a_tree_unchanged() {
    let s2 = node("a", "sim", "x1", Direction::In, None);
    let s1 = node("sim", "a", "k", Direction::Out, Some(Box::new(Message::Node(s2))));
    let tree = Box::new(Message::Node(s1));
    let before = tree.to_string();
    let after = insert_branches_rec(tree, &StrMap::new(), String::new()).unwrap();
    assert_eq!(after.to_string(), before);
}

#[test]
fn visit_step_continues_with_the_mapped_process() {
    let mut statuses: StrMap<usize> = StrMap::new();
    statuses.insert("p".to_string(), 0);
    let p2 = node("p", "e", "second", Direction::Out, None);
    let p1 = node("q", "e", "first", Direction::In, Some(Box::new(Message::Node(p2))));
    let mut cells: Vec<Option<Box<Message>>> = vec![Some(Box::new(Message::Node(p1)))];
    let mut mapping: StrMap<String> = StrMap::new();
    mapping.insert("c".to_string(), "p".to_string());
    mapping.insert("e".to_string(), "gone".to_string());
    statuses.insert("gone".to_string(), 5);
    let mut queries = ProtocolMap::new();
    queries.insert(ProtocolType::Real, mapping);
    let start = node("s", "c", "hello", Direction::Out, None);
    let (tree, cells_after) = visit_in_order_rec(
        Message::Node(start),
        &"s".to_string(),
        statuses,
        cells.clone(),
        &ProtocolType::Real,
        &queries,
    );
    assert_eq!(tree.unwrap().to_string(), "\rs->c: sent hello\r\rreceived first\n\rp->e: sent second");
    assert!(cells_after[0].is_none());

    let mut statuses: StrMap<usize> = StrMap::new();
    statuses.insert("p".to_string(), 0);
    let taken = update_status(&"p".to_string(), &mut statuses, &mut cells, false);
    assert_eq!(taken.unwrap().to_string(), "\r\rreceived first\n\rp->e: sent second");
    assert_eq!(statuses.get("p"), Some(&1));
    assert_eq!(cells[1].as_ref().unwrap().to_string(), "\rp->e: sent second");
}
