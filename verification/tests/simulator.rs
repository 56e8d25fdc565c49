use trace_diagram::{
    BranchError, Direction, Message, Node, Process, ProtocolMap, ProtocolType, StrMap, insert_branches, pair_variables,
    queries_by_protocol, rename_simulator_variables, try_insert_branches,
};

fn node(send: &str, recv: &str, stmt: &str, direction: Direction, next: Option<Box<Message>>) -> Node {
    Node::new(send.to_string(), recv.to_string(), stmt.to_string(), direction, next)
}

fn tree(n: Node) -> Option<Box<Message>> {
    Some(Box::new(Message::Node(n)))
}

fn mapping(pairs: &[(&str, &str)]) -> StrMap<String> {
    let mut m = StrMap::new();
    for (k, v) in pairs {
        m.insert(k.to_string(), v.to_string());
    }
    m
}

fn both(real_vars: StrMap<String>, ideal: StrMap<String>) -> ProtocolMap<StrMap<String>> {
    let mut m = ProtocolMap::new();
    m.insert(ProtocolType::Real, real_vars);
    m.insert(ProtocolType::Ideal, ideal);
    m
}

fn sim_process() -> Process {
    let s3 = node("sim", "a", "k2", Direction::Out, None);
    let s2 = node("a", "sim", "x1", Direction::In, tree(s3));
    let s1 = node("sim", "a", "k", Direction::Out, tree(s2));
    Process::new("sim".to_string(), tree(s1))
}

#[test]
fn branch_is_inserted_before_a_guessed_value() {
    let branches = both(mapping(&[("b1", "v")]), StrMap::new());
    let variables = both(mapping(&[("v", "val")]), mapping(&[("x1", "val")]));
    let result = insert_branches(sim_process(), &branches, &variables);
    assert_eq!(result.process_name, "sim");
    let arm = "\r\rreceived x1\n\rsim->a: sent k2";
    let expected = format!("\n\ralt if branch:\n{arm}\n\nelse else branch:\n{arm}\n\nend");
    assert_eq!(result.messages.unwrap().to_string(), expected);
}

#[test]
fn no_branch_statements_keep_the_process() {
    let branches = both(StrMap::new(), StrMap::new());
    let variables = both(StrMap::new(), mapping(&[("x1", "val")]));
    let before = sim_process().messages.unwrap().to_string();
    let result = insert_branches(sim_process(), &branches, &variables);
    assert_eq!(result.messages.unwrap().to_string(), before);
}

#[test]
fn branch_errors() {
    let mut no_ideal = ProtocolMap::new();
    no_ideal.insert(ProtocolType::Real, mapping(&[("v", "val")]));
    let branches = both(mapping(&[("b1", "v")]), StrMap::new());
    assert_eq!(
        try_insert_branches(sim_process(), &branches, &no_ideal).err(),
        Some(BranchError::MissingIdealVariables)
    );
    let variables = both(mapping(&[("v", "val")]), mapping(&[("x1", "val")]));
    assert_eq!(
        try_insert_branches(sim_process(), &ProtocolMap::new(), &variables).err(),
        Some(BranchError::MissingRealBranches)
    );
    let mut only_ideal = ProtocolMap::new();
    only_ideal.insert(ProtocolType::Ideal, mapping(&[("x1", "val")]));
    assert_eq!(
        try_insert_branches(sim_process(), &branches, &only_ideal).err(),
        Some(BranchError::MissingRealVariables)
    );
    let unmapped = both(mapping(&[("v", "other")]), mapping(&[("x1", "val")]));
    assert_eq!(
        try_insert_branches(sim_process(), &branches, &unmapped).err(),
        Some(BranchError::UnmappedVariable)
    );
    assert_eq!(
        try_insert_branches(Process::new("sim".to_string(), None), &branches, &variables).err(),
        Some(BranchError::NoMessages)
    );
}

#[test]
fn ideal_world_maps_the_adversary_to_the_simulator() {
    let mut list: StrMap<StrMap<String>> = StrMap::new();
    list.insert("realw".to_string(), mapping(&[("c", "p")]));
    list.insert("idealw".to_string(), mapping(&[("c", "q"), ("a", "adv")]));
    list.insert("other".to_string(), mapping(&[("c", "r")]));
    let queries = queries_by_protocol(list);
    let real_map = queries.get(&ProtocolType::Real).unwrap();
    assert_eq!(real_map.get("c").map(|s| s.as_str()), Some("p"));
    assert!(real_map.get("a").is_none());
    let ideal = queries.get(&ProtocolType::Ideal).unwrap();
    assert_eq!(ideal.get("a").map(|s| s.as_str()), Some("sim"));
    assert_eq!(ideal.get("c").map(|s| s.as_str()), Some("q"));
}

#[test]
fn missing_worlds_stay_missing() {
    let queries = queries_by_protocol(StrMap::new());
    assert!(queries.get(&ProtocolType::Real).is_none());
    assert!(queries.get(&ProtocolType::Ideal).is_none());
}

#[test]
fn simulator_variables_are_paired_and_renamed() {
    let real_vars = mapping(&[("v1", "val"), ("v2", "w")]);
    let ideal = mapping(&[("x1", "val"), ("x2", "w"), ("v1", "val")]);
    let pairs = pair_variables(&real_vars, &ideal);
    assert_eq!(pairs.len(), 2);
    assert_eq!(pairs.get("x1").map(|s| s.as_str()), Some("v1"));
    assert_eq!(pairs.get("x2").map(|s| s.as_str()), Some("v2"));
    assert_eq!(rename_simulator_variables("x1 sees x2 and y1".to_string(), &pairs), "v1 sees v2 and y1");
}

#[test]
fn only_variables_starting_with_x_are_renamed() {
    let renames = mapping(&[("y1", "v9"), ("x3", "v3")]);
    assert_eq!(rename_simulator_variables("y1 x3".to_string(), &renames), "y1 v3");
}
