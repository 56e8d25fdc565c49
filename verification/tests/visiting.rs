use trace_diagram::{
    BranchingNode, Direction, Message, Node, Process, ProtocolMap, ProtocolType, StrMap, VisitError, try_visit_in_order,
    visit_in_order,
};

fn node(send: &str, recv: &str, stmt: &str, direction: Direction, next: Option<Box<Message>>) -> Node {
    Node::new(send.to_string(), recv.to_string(), stmt.to_string(), direction, next)
}

fn tree(n: Node) -> Option<Box<Message>> {
    Some(Box::new(Message::Node(n)))
}

fn mapping(pairs: &[(&str, &str)]) -> StrMap<String> {
    let mut m = StrMap::new();
    for (k, v) in pairs {
        m.insert(k.to_string(), v.to_string());
    }
    m
}

fn processes(list: Vec<(&str, Option<Box<Message>>)>) -> StrMap<Process> {
    let mut m = StrMap::new();
    for (name, messages) in list {
        m.insert(name.to_string(), Process::new(name.to_string(), messages));
    }
    m
}

fn real_world(queries: StrMap<String>) -> ProtocolMap<StrMap<String>> {
    let mut q = ProtocolMap::new();
    q.insert(ProtocolType::Real, queries);
    q
}

fn two_processes() -> StrMap<Process> {
    let env = node("e", "c", "start", Direction::Out, None);
    let m2 = node("p", "e2", "answer", Direction::Out, None);
    let m1 = node("c", "d", "got", Direction::In, tree(m2));
    processes(vec![("env", tree(env)), ("p", tree(m1))])
}

#[test]
fn visit_follows_the_channel_mapping() {
    let ps = two_processes();
    let queries = real_world(mapping(&[("c", "p"), ("d", "env")]));
    let result = visit_in_order(&"env".to_string(), &ps, &ProtocolType::Real, &queries);
    assert_eq!(result.process_name, "Real");
    assert_eq!(
        result.messages.unwrap().to_string(),
        "\re->c: sent start\r\rreceived got\n\rp->e2: sent answer"
    );
}

#[test]
fn visit_errors() {
    let ps = two_processes();
    let queries = real_world(mapping(&[("c", "p"), ("d", "env")]));
    assert!(matches!(
        try_visit_in_order(&"nobody".to_string(), &ps, &ProtocolType::Real, &queries),
        Err(VisitError::InvalidStartingProcess)
    ));
    assert!(matches!(
        try_visit_in_order(&"env".to_string(), &ps, &ProtocolType::Ideal, &queries),
        Err(VisitError::MissingProtocolQueries)
    ));
    let missing = real_world(mapping(&[("d", "env")]));
    match try_visit_in_order(&"env".to_string(), &ps, &ProtocolType::Real, &missing) {
        Err(VisitError::ChannelNotMapped(c)) => assert_eq!(c, "c"),
        _ => panic!("expected an unmapped channel"),
    }
    let unknown = real_world(mapping(&[("c", "zzz")]));
    match try_visit_in_order(&"env".to_string(), &ps, &ProtocolType::Real, &unknown) {
        Err(VisitError::UnknownProcess(p)) => assert_eq!(p, "zzz"),
        _ => panic!("expected an unknown process"),
    }
    let empty = processes(vec![("env", None)]);
    assert!(matches!(
        try_visit_in_order(&"env".to_string(), &empty, &ProtocolType::Real, &queries),
        Err(VisitError::NoStartingMessages)
    ));
}

#[test]
fn visit_of_a_branch_visits_both_arms() {
    let env = node("e", "c", "go", Direction::Out, None);
    let a1 = node("x1", "x", "a", Direction::In, None);
    let b1 = node("y1", "y", "b", Direction::In, None);
    let p = Message::BranchingNode(BranchingNode::new(tree(a1), tree(b1)));
    let ps = processes(vec![("env", tree(env)), ("p", Some(Box::new(p)))]);
    let queries = real_world(mapping(&[("c", "p"), ("x", "env"), ("y", "env")]));
    let result = visit_in_order(&"env".to_string(), &ps, &ProtocolType::Real, &queries);
    let expected = "\nalt if branch:\nreceived a\n\nalt else branch:\nreceived b\n\re->c: sent go\n\ralt if branch:\nreceived a\n\nelse else branch:\nreceived b\n\nend";
    assert_eq!(result.messages.unwrap().to_string(), expected);
}

#[test]
fn process_played_in_one_arm_is_exhausted_in_the_other() {
    let env = node("e", "c", "go", Direction::Out, None);
    let a1 = node("x1", "x", "a", Direction::In, None);
    let b1 = node("x1", "x", "b", Direction::In, None);
    let p = Message::BranchingNode(BranchingNode::new(tree(a1), tree(b1)));
    let q1 = node("q", "z", "qq", Direction::Out, None);
    let ps = processes(vec![("env", tree(env)), ("p", Some(Box::new(p))), ("q", tree(q1))]);
    let queries = real_world(mapping(&[("c", "p"), ("x", "q"), ("z", "env")]));
    let result = visit_in_order(&"env".to_string(), &ps, &ProtocolType::Real, &queries);
    let if_arm = "\r\rreceived a\n\rq->z: sent qq";
    let else_arm = "received b";
    let expected = format!(
        "\nalt if branch:\n{if_arm}\n\nalt else branch:\n{else_arm}\n\re->c: sent go\n\ralt if branch:\n{if_arm}\n\nelse else branch:\n{else_arm}\n\nend"
    );
    assert_eq!(result.messages.unwrap().to_string(), expected);
}

#[test]
fn unplayed_rest_of_a_process_is_kept() {
    let env = node("e", "c", "start", Direction::Out, None);
    let m2 = node("p", "e2", "later", Direction::Out, None);
    let m1 = node("c", "c", "again", Direction::In, tree(m2));
    let ps = processes(vec![("env", tree(env)), ("p", tree(m1))]);
    let queries = real_world(mapping(&[("c", "p"), ("e2", "env")]));
    let result = visit_in_order(&"env".to_string(), &ps, &ProtocolType::Real, &queries);
    assert_eq!(
        result.messages.unwrap().to_string(),
        "\re->c: sent start\r\rreceived again\n\rp->e2: sent later"
    );
}
