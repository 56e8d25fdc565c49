//! Turning the points where the adversary is handed a value that the
//! simulator has to guess into explicit branches.

use vstd::prelude::*;
use vstd::string::*;
use crate::protocol::ProtocolMap;
use crate::strings::str_equal;
use crate::strmap::{StrMap, assoc_view, keys_distinct, lemma_assoc_view_domain, lemma_assoc_view_index, values_of};
use crate::tree::{BranchingNode, Direction, Message, Node, Process, copy_message, with_next};

verus! {

/// Why branches cannot be inserted.
#[derive(Clone, Copy, Debug, PartialEq, Eq, Structural)]
pub enum BranchError {
    /// No variables are given for the ideal world.
    MissingIdealVariables,
    /// No branch statements are given for the real world.
    MissingRealBranches,
    /// Branch statements are given, but no variables for the real world.
    MissingRealVariables,
    /// A real-world variable's value is no ideal-world variable's value.
    UnmappedVariable,
    /// The process has no messages.
    NoMessages,
}

/// Each value of a map, sent back to the key that maps to it; where several
/// keys share a value, the last of them in the order of the pairs.
pub open spec fn inverse_view(pairs: Seq<(String, String)>) -> Map<Seq<char>, String>
    decreases pairs.len(),
{
    if pairs.len() == 0 {
        Map::empty()
    } else {
        inverse_view(pairs.drop_last()).insert(pairs.last().1@, pairs.last().0)
    }
}

/// The branch keys whose statement is a real-world variable.
pub open spec fn matched(branches: Map<Seq<char>, String>, real_vars: Map<Seq<char>, String>, k: Seq<char>) -> bool {
    branches.contains_key(k) && real_vars.contains_key(branches[k]@)
}

/// The statements that open a branch: for each branch whose statement is a
/// real-world variable, the ideal-world variable with the same value.
pub open spec fn branch_targets(
    branches: Map<Seq<char>, String>,
    real_vars: Map<Seq<char>, String>,
    inverse: Map<Seq<char>, String>,
) -> Set<Seq<char>> {
    Set::new(
        |t: Seq<char>|
            exists|k: Seq<char>| #[trigger] matched(branches, real_vars, k) && inverse[real_vars[branches[k]@]@]@ == t,
    )
}

/// `m` is a message from the adversary's channel `a` whose statement is one
/// of `targets`.
pub open spec fn opens_branch(m: Message, targets: Set<Seq<char>>) -> bool {
    match m {
        Message::Node(k) => k.send_channel@ == "a"@ && k.direction == Direction::In && targets.contains(k.statement@),
        Message::BranchingNode(_) => false,
    }
}

/// The tree with a branch in place of each message that is followed by a
/// message opening a branch; both arms of such a branch continue with that
/// following message.
pub open spec fn with_branches(m: Message, targets: Set<Seq<char>>) -> Message
    decreases m,
{
    match m {
        Message::Node(n) => match n.next {
            None => Message::Node(n),
            Some(x) => if opens_branch(*x, targets) {
                let t = with_branches(*x, targets);
                Message::BranchingNode(BranchingNode { if_branch: Some(Box::new(t)), else_branch: Some(Box::new(t)) })
            } else {
                Message::Node(with_next(n, Some(Box::new(with_branches(*x, targets)))))
            },
        },
        Message::BranchingNode(b) => Message::BranchingNode(
            BranchingNode {
                if_branch: match b.if_branch {
                    None => None,
                    Some(x) => Some(Box::new(with_branches(*x, targets))),
                },
                else_branch: match b.else_branch {
                    None => None,
                    Some(x) => Some(Box::new(with_branches(*x, targets))),
                },
            },
        ),
    }
}

/// A branch statement whose real-world variable has no ideal-world variable
/// with the same value.
pub open spec fn has_unmapped(
    branches: Map<Seq<char>, String>,
    real_vars: Map<Seq<char>, String>,
    inverse: Map<Seq<char>, String>,
) -> bool {
    exists|k: Seq<char>| #[trigger] matched(branches, real_vars, k) && !inverse.contains_key(real_vars[branches[k]@]@)
}

/// The real-world variables, where given.
pub open spec fn real_variables(variables: ProtocolMap<StrMap<String>>) -> Map<Seq<char>, String> {
    match variables.real {
        Some(r) => r@,
        None => Map::empty(),
    }
}

/// The messages of `process` with branches inserted, or why they cannot be.
pub open spec fn branches_result(
    process: Process,
    branches: ProtocolMap<StrMap<String>>,
    variables: ProtocolMap<StrMap<String>>,
) -> Result<Message, BranchError> {
    if variables.ideal is None {
        Err(BranchError::MissingIdealVariables)
    } else if branches.real is None {
        Err(BranchError::MissingRealBranches)
    } else if branches.real->0.pairs().len() > 0 && variables.real is None {
        Err(BranchError::MissingRealVariables)
    } else {
        let inverse = inverse_view(variables.ideal->0.pairs());
        let real_vars = real_variables(variables);
        let b = branches.real->0@;
        if has_unmapped(b, real_vars, inverse) {
            Err(BranchError::UnmappedVariable)
        } else {
            match process.messages {
                None => Err(BranchError::NoMessages),
                Some(m) => Ok(with_branches(*m, branch_targets(b, real_vars, inverse))),
            }
        }
    }
}

pub fn insert_branches_rec(node: Box<Message>, branches_statements: &StrMap<String>, additional_string: String) -> (r: Option<Box<Message>>)
    ensures
        r == Some(Box::new(with_branches(*node, values_of(branches_statements@)))),
        !target_left_unbranched(*r->0, values_of(branches_statements@)),
    decreases node,
{
    proof {
        lemma_no_target_left_unbranched(*node, values_of(branches_statements@));
    }
    let ghost targets = values_of(branches_statements@);
    match *node {
        Message::Node(n) => match n.next {
            None => Some(Box::new(Message::Node(n))),
            Some(next_node) => {
                let opens = match &*next_node {
                    Message::Node(next_n) => str_equal(next_n.send_channel.as_str(), "a") && match next_n.direction {
                        Direction::In => true,
                        Direction::Out => false,
                    } && branches_statements.has_value(next_n.statement.as_str()),
                    Message::BranchingNode(_) => false,
                };
                if opens {
                    let mut additional_string_if = additional_string.clone();
                    additional_string_if.append("_if");
                    let mut additional_string_else = additional_string.clone();
                    additional_string_else.append("_else");
                    let copy_if = Box::new(copy_message(&*next_node));
                    let copy_else = Box::new(copy_message(&*next_node));
                    let new_next_node_if = insert_branches_rec(copy_if, branches_statements, additional_string_if);
                    let new_next_node_else = insert_branches_rec(copy_else, branches_statements, additional_string_else);
                    Some(Box::new(Message::BranchingNode(BranchingNode::new(new_next_node_if, new_next_node_else))))
                } else {
                    let new_next = insert_branches_rec(next_node, branches_statements, additional_string);
                    Some(Box::new(Message::Node(Node::new(n.send_channel, n.recv_channel, n.statement, n.direction, new_next))))
                }
            },
        },
        Message::BranchingNode(bn) => {
            let if_branch = match bn.if_branch {
                None => None,
                Some(if_node) => {
                    let mut additional_string_if = additional_string.clone();
                    additional_string_if.append("_if");
                    insert_branches_rec(if_node, branches_statements, additional_string_if)
                },
            };
            let else_branch = match bn.else_branch {
                None => None,
                Some(else_node) => {
                    let mut additional_string_else = additional_string.clone();
                    additional_string_else.append("_else");
                    insert_branches_rec(else_node, branches_statements, additional_string_else)
                },
            };
            Some(Box::new(Message::BranchingNode(BranchingNode::new(if_branch, else_branch))))
        },
    }
}

/// Builds the map from each value of the ideal-world variables back to its
/// variable.
fn invert(ideal: &StrMap<String>) -> (r: StrMap<String>)
    ensures
        r@ == inverse_view(ideal.pairs()),
{
    let n = ideal.len();
    let ghost pairs = ideal.pairs();
    let mut inverse: StrMap<String> = StrMap::new();
    let mut i: usize = 0;
    while i < n
        invariant
            i <= n,
            n == pairs.len(),
            pairs == ideal.pairs(),
            inverse@ == inverse_view(pairs.subrange(0, i as int)),
        decreases n - i,
    {
        let v = ideal.value_at(i).clone();
        let k = ideal.key_at(i).clone();
        proof {
            assert(pairs.subrange(0, i + 1).drop_last() =~= pairs.subrange(0, i as int));
        }
        inverse.insert(v, k);
        i = i + 1;
    }
    assert(pairs.subrange(0, n as int) =~= pairs);
    inverse
}

/// Inserts a branch into the messages of `process` wherever the adversary
/// is handed a value that stands for a real-world variable, or tells why
/// this cannot be done.
#[verifier::loop_isolation(false)]
pub fn try_insert_branches(
    process: Process,
    branches: &ProtocolMap<StrMap<String>>,
    env_variable: &ProtocolMap<StrMap<String>>,
) -> (r: Result<Process, BranchError>)
    ensures
        match branches_result(process, *branches, *env_variable) {
            Ok(m) => r matches Ok(p) && p.process_name == process.process_name && p.messages == Some(Box::new(m)),
            Err(e) => r == Err::<Process, BranchError>(e),
        },
{
    let ideal = match env_variable.get(&crate::protocol::ProtocolType::Ideal) {
        None => {
            return Err(BranchError::MissingIdealVariables);
        },
        Some(m) => m,
    };
    let temp_mapping = invert(ideal);
    let branches_real = match branches.get(&crate::protocol::ProtocolType::Real) {
        None => {
            return Err(BranchError::MissingRealBranches);
        },
        Some(b) => b,
    };
    let n = branches_real.len();
    let ghost pairs = branches_real.pairs();
    let ghost b = branches_real@;
    let ghost inverse = temp_mapping@;
    let mut branches_statements: StrMap<String> = StrMap::new();
    if n > 0 {
        let real_vars = match env_variable.get(&crate::protocol::ProtocolType::Real) {
            None => {
                return Err(BranchError::MissingRealVariables);
            },
            Some(m) => m,
        };
        let ghost rv = real_vars@;
        assert(rv == real_variables(*env_variable));
        let mut i: usize = 0;
        while i < n
            invariant
                i <= n,
                n == pairs.len(),
                pairs == branches_real.pairs(),
                keys_distinct(pairs),
                b == assoc_view(pairs),
                rv == real_vars@,
                inverse == temp_mapping@,
                forall|k: Seq<char>|
                    #[trigger] branches_statements@.contains_key(k) <==> (matched(b, rv, k) && exists|j: int|
                        0 <= j < i && (#[trigger] pairs[j]).0@ == k),
                forall|k: Seq<char>|
                    #[trigger] branches_statements@.contains_key(k) ==> branches_statements@[k] == inverse[rv[b[k]@]@],
                forall|j: int| 0 <= j < i && matched(b, rv, (#[trigger] pairs[j]).0@) ==> inverse.contains_key(rv[b[pairs[j].0@]@]@),
            decreases n - i,
        {
            proof {
                lemma_assoc_view_index(pairs, i as int);
            }
            let statement = branches_real.value_at(i);
            match real_vars.get(statement.as_str()) {
                None => {},
                Some(env_statem) => match temp_mapping.get(env_statem.as_str()) {
                    None => {
                        proof {
                            assert(rv == real_variables(*env_variable));
                            assert(matched(b, rv, pairs[i as int].0@));
                            assert(has_unmapped(b, rv, inverse));
                        }
                        return Err(BranchError::UnmappedVariable);
                    },
                    Some(v) => {
                        let key = branches_real.key_at(i).clone();
                        let value = v.clone();
                        proof {
                            assert forall|k: Seq<char>| k == key@ implies !branches_statements@.contains_key(k) by {
                                if branches_statements@.contains_key(k) {
                                    let j = choose|j: int| 0 <= j < i && (#[trigger] pairs[j]).0@ == k;
                                    assert(pairs[j].0@ != pairs[i as int].0@);
                                }
                            }
                        }
                        branches_statements.insert(key, value);
                    },
                },
            }
            proof {
                assert forall|k: Seq<char>|
                    #[trigger] branches_statements@.contains_key(k) <==> (matched(b, rv, k) && exists|j: int|
                        0 <= j < i + 1 && (#[trigger] pairs[j]).0@ == k) by {
                    if matched(b, rv, k) && exists|j: int| 0 <= j < i + 1 && (#[trigger] pairs[j]).0@ == k {
                        let j = choose|j: int| 0 <= j < i + 1 && (#[trigger] pairs[j]).0@ == k;
                        if j < i {
                            assert(exists|j2: int| 0 <= j2 < i && (#[trigger] pairs[j2]).0@ == k);
                        }
                    }
                    if branches_statements@.contains_key(k) && k != pairs[i as int].0@ {
                        let j = choose|j: int| 0 <= j < i && (#[trigger] pairs[j]).0@ == k;
                        assert(0 <= j < i + 1 && pairs[j].0@ == k);
                    }
                }
            }
            i = i + 1;
        }
        proof {
            assert(!has_unmapped(b, rv, inverse)) by {
                if has_unmapped(b, rv, inverse) {
                    let k = choose|k: Seq<char>| #[trigger] matched(b, rv, k) && !inverse.contains_key(rv[b[k]@]@);
                    lemma_assoc_view_domain(pairs, k);
                    let j = choose|j: int| 0 <= j < pairs.len() && (#[trigger] pairs[j]).0@ == k;
                }
            }
            assert(values_of(branches_statements@) =~= branch_targets(b, rv, inverse)) by {
                assert forall|t: Seq<char>| #[trigger] branch_targets(b, rv, inverse).contains(t) implies values_of(branches_statements@).contains(t) by {
                    let k = choose|k: Seq<char>| #[trigger] matched(b, rv, k) && inverse[rv[b[k]@]@]@ == t;
                    lemma_assoc_view_domain(pairs, k);
                    let j = choose|j: int| 0 <= j < pairs.len() && (#[trigger] pairs[j]).0@ == k;
                    assert(branches_statements@.contains_key(k));
                }
                assert forall|t: Seq<char>| #[trigger] values_of(branches_statements@).contains(t) implies branch_targets(b, rv, inverse).contains(t) by {
                    let k = choose|k: Seq<char>| #[trigger] branches_statements@.contains_key(k) && branches_statements@[k]@ == t;
                    assert(matched(b, rv, k));
                }
            }
        }
    } else {
        proof {
            let rv = real_variables(*env_variable);
            assert(b =~= Map::<Seq<char>, String>::empty());
            assert(!has_unmapped(b, rv, inverse));
            assert(values_of(branches_statements@) =~= branch_targets(b, rv, inverse));
        }
    }
    let head = match process.messages {
        None => {
            return Err(BranchError::NoMessages);
        },
        Some(h) => h,
    };
    let new_head = insert_branches_rec(head, &branches_statements, String::new());
    Ok(Process { process_name: process.process_name, messages: new_head })
}

/// Inserts a branch into the messages of `process` wherever the adversary
/// is handed a value that stands for a real-world variable.
pub fn insert_branches(
    process: Process,
    branches: &ProtocolMap<StrMap<String>>,
    env_variable: &ProtocolMap<StrMap<String>>,
) -> (r: Process)
    requires
        branches_result(process, *branches, *env_variable) is Ok,
    ensures
        r.process_name == process.process_name,
        r.messages == Some(Box::new(branches_result(process, *branches, *env_variable)->Ok_0)),
{
    let ghost name = process.process_name;
    match try_insert_branches(process, branches, env_variable) {
        Ok(p) => p,
        // Excluded by the precondition.
        Err(_) => Process { process_name: String::new(), messages: None },
    }
}

/// Where no statement opens a branch, the tree is left as it is.
pub proof fn lemma_no_targets_keep_tree(m: Message)
    ensures
        with_branches(m, Set::empty()) == m,
    decreases m,
{
    match m {
        Message::Node(n) => {
            if let Some(x) = n.next {
                lemma_no_targets_keep_tree(*x);
            }
        },
        Message::BranchingNode(b) => {
            if let Some(x) = b.if_branch {
                lemma_no_targets_keep_tree(*x);
            }
            if let Some(x) = b.else_branch {
                lemma_no_targets_keep_tree(*x);
            }
        },
    }
}

/// A process for which no branch statement is given keeps its messages.
pub proof fn lemma_no_branch_statements_keep_process(
    process: Process,
    branches: ProtocolMap<StrMap<String>>,
    variables: ProtocolMap<StrMap<String>>,
)
    requires
        variables.ideal is Some,
        branches.real is Some,
        branches.real->0.pairs().len() == 0,
        process.messages is Some,
    ensures
        branches_result(process, branches, variables) == Ok::<Message, BranchError>(*process.messages->0),
{
    let inverse = inverse_view(variables.ideal->0.pairs());
    let rv = real_variables(variables);
    let b = branches.real->0@;
    assert(b == Map::<Seq<char>, String>::empty());
    assert(branch_targets(b, rv, inverse) =~= Set::<Seq<char>>::empty());
    lemma_no_targets_keep_tree(*process.messages->0);
}

/// Somewhere in the tree a message is directly followed by a message that
/// opens a branch.
pub open spec fn target_left_unbranched(m: Message, targets: Set<Seq<char>>) -> bool
    decreases m,
{
    match m {
        Message::Node(n) => match n.next {
            None => false,
            Some(x) => opens_branch(*x, targets) || target_left_unbranched(*x, targets),
        },
        Message::BranchingNode(b) => (match b.if_branch {
            None => false,
            Some(x) => target_left_unbranched(*x, targets),
        }) || (match b.else_branch {
            None => false,
            Some(x) => target_left_unbranched(*x, targets),
        }),
    }
}

proof fn lemma_opening_kept(m: Message, targets: Set<Seq<char>>)
    ensures
        opens_branch(with_branches(m, targets), targets) ==> opens_branch(m, targets),
{
}

/// After insertion no target is left unbranched: no message of the result is
/// directly followed by a message from the adversary's channel `a` whose
/// statement is a target; the arms of an inserted branch are processed too.
pub proof fn lemma_no_target_left_unbranched(m: Message, targets: Set<Seq<char>>)
    ensures
        !target_left_unbranched(with_branches(m, targets), targets),
    decreases m,
{
    match m {
        Message::Node(n) => {
            if let Some(x) = n.next {
                lemma_no_target_left_unbranched(*x, targets);
                lemma_opening_kept(*x, targets);
            }
        },
        Message::BranchingNode(b) => {
            if let Some(x) = b.if_branch {
                lemma_no_target_left_unbranched(*x, targets);
            }
            if let Some(x) = b.else_branch {
                lemma_no_target_left_unbranched(*x, targets);
            }
        },
    }
}

} // verus!
