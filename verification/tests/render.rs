use trace_diagram::{BranchingNode, Direction, Message, Node, ProtocolType, output_cleaner};

fn node(send: &str, recv: &str, stmt: &str, direction: Direction, next: Option<Box<Message>>) -> Node {
    Node::new(send.to_string(), recv.to_string(), stmt.to_string(), direction, next)
}

#[test]
fn sent_message_alone() {
    let n = node("A", "B", "m", Direction::Out, None);
    assert_eq!(n.to_string(), "\rA->B: sent m");
}

#[test]
fn received_message_alone() {
    let n = node("A", "B", "m", Direction::In, None);
    assert_eq!(n.to_string(), "received m");
}

#[test]
fn sent_then_received() {
    let second = node("B", "A", "x", Direction::In, None);
    let first = node("A", "B", "x", Direction::Out, Some(Box::new(Message::Node(second))));
    assert_eq!(first.to_string(), "\rA->B: sent xreceived x");
}

#[test]
fn received_then_sent() {
    let second = node("C", "D", "y", Direction::Out, None);
    let first = node("A", "B", "x", Direction::In, Some(Box::new(Message::Node(second))));
    assert_eq!(first.to_string(), "\r\rreceived x\n\rC->D: sent y");
}

#[test]
fn branch_with_one_arm() {
    let b = BranchingNode::new(Some(Box::new(Message::Node(node("a", "b", "p", Direction::In, None)))), None);
    assert_eq!(b.to_string(), "\n\ralt if branch:\nreceived p\n\nend");
}

#[test]
fn branch_after_sent_message() {
    let b = BranchingNode::new(
        Some(Box::new(Message::Node(node("a", "b", "p", Direction::In, None)))),
        Some(Box::new(Message::Node(node("a", "b", "q", Direction::In, None)))),
    );
    let n = node("A", "B", "m", Direction::Out, Some(Box::new(Message::BranchingNode(b))));
    let expected = "\nalt if branch:\nreceived p\n\nalt else branch:\nreceived q\n\rA->B: sent m\n\ralt if branch:\nreceived p\n\nelse else branch:\nreceived q\n\nend";
    assert_eq!(Message::Node(n).to_string(), expected);
}

#[test]
fn nested_branch_arm() {
    let inner = BranchingNode::new(None, Some(Box::new(Message::Node(node("a", "b", "q", Direction::In, None)))));
    let outer = BranchingNode::new(Some(Box::new(Message::BranchingNode(inner))), None);
    assert_eq!(
        outer.to_string(),
        "\n\ralt if branch:\n\nelse else branch:\nreceived q\n\nend\nend"
    );
}

#[test]
fn cleaner_drops_one_leading_space_and_fixes_env_arrows() {
    assert_eq!(
        output_cleaner(" a e->z: b e->z: c".to_string()),
        "z->e:a e<->z: b e<->z: c"
    );
}

#[test]
fn cleaner_keeps_text_without_space() {
    assert_eq!(output_cleaner("abc".to_string()), "z->e:abc");
    assert_eq!(output_cleaner("  two".to_string()), "z->e: two");
    assert_eq!(output_cleaner(String::new()), "z->e:");
}

#[test]
fn world_names() {
    assert_eq!(ProtocolType::Real.to_string(), "Real");
    assert_eq!(ProtocolType::Ideal.to_string(), "Ideal");
}
