//! Merging the message trees of all processes into the order in which the
//! messages are exchanged, starting from one process.
//!
//! Each process has a status: the part of its tree that it has not played
//! yet.  Statuses live in cells that nested visits share; a visit of a
//! branch arm works on its own copy of the name-to-cell table, so that a
//! cell advanced in one arm reads as exhausted afterwards in the other.

use vstd::prelude::*;
use vstd::string::*;
use crate::protocol::{ProtocolMap, ProtocolType, protocol_name};
use crate::strmap::{StrMap, assoc_view, keys_distinct, lemma_assoc_view_index, lemma_assoc_view_push};
use crate::tree::{BranchingNode, Message, Node, Process, copy_message, copy_tree, with_next};

verus! {

/// Why a visit cannot be carried out.
#[derive(Debug)]
pub enum VisitError {
    /// No process has the starting name.
    InvalidStartingProcess,
    /// The starting process has no messages.
    NoStartingMessages,
    /// No channel mapping is given for the protocol.
    MissingProtocolQueries,
    /// The channel that a message goes to is not in the mapping.
    ChannelNotMapped(String),
    /// The channel maps to a name that has no status.
    UnknownProcess(String),
}

/// The statuses of the processes: a table from names to cells.
pub type Statuses = Map<Seq<char>, usize>;

/// The cells that hold the statuses.
pub type Cells = Seq<Option<Box<Message>>>;

/// Work that a branch still holds beyond its own cell: the cells and the
/// visits of both arms.
pub open spec fn pending(m: Message) -> nat
    decreases m, 0int,
{
    match m {
        Message::Node(_) => 0,
        Message::BranchingNode(b) => 1 + match b.if_branch {
            None => 0nat,
            Some(x) => weight(*x) + pending(*x),
        } + match b.else_branch {
            None => 0nat,
            Some(x) => weight(*x) + pending(*x),
        },
    }
}

/// A bound on the work that a status can still cause.
pub open spec fn weight(m: Message) -> nat
    decreases m, 1int,
{
    match m {
        Message::Node(n) => 1 + match n.next {
            None => 0nat,
            Some(x) => weight(*x),
        },
        Message::BranchingNode(b) => 1 + match b.else_branch {
            None => 0nat,
            Some(x) => weight(*x),
        } + pending(m),
    }
}

/// The weight of one cell.
pub open spec fn slot_weight(c: Option<Box<Message>>) -> nat {
    match c {
        None => 0,
        Some(x) => weight(*x),
    }
}

/// The weight of an arm: its cell and its visit.
pub open spec fn arm_load(c: Option<Box<Message>>) -> nat {
    match c {
        None => 0,
        Some(x) => weight(*x) + pending(*x),
    }
}

/// The weight of all cells.
pub open spec fn cells_weight(cells: Cells) -> nat
    decreases cells.len(),
{
    if cells.len() == 0 {
        0
    } else {
        cells_weight(cells.drop_last()) + slot_weight(cells.last())
    }
}

/// The content of cell `i`; a cell that does not exist is empty.
pub open spec fn slot(cells: Cells, i: int) -> Option<Box<Message>> {
    if 0 <= i < cells.len() {
        cells[i]
    } else {
        None
    }
}

/// What a status becomes once its first element has been played: the rest
/// of a message chain, or one arm of a branch.
pub open spec fn following(c: Option<Box<Message>>, if_branch: bool) -> Option<Box<Message>> {
    match c {
        None => None,
        Some(x) => match *x {
            Message::Node(n) => n.next,
            Message::BranchingNode(b) => if if_branch {
                b.if_branch
            } else {
                b.else_branch
            },
        },
    }
}

/// Advances the status of `name`: its cell is emptied and the name gets a
/// new cell with what follows.
pub open spec fn advance(st: Statuses, cells: Cells, name: Seq<char>, if_branch: bool) -> (Statuses, Cells) {
    let i = st[name] as int;
    let emptied = if 0 <= i < cells.len() {
        cells.update(i, None)
    } else {
        cells
    };
    (st.insert(name, emptied.len() as usize), emptied.push(following(slot(cells, i), if_branch)))
}

pub proof fn lemma_cells_weight_push(cells: Cells, c: Option<Box<Message>>)
    ensures
        cells_weight(cells.push(c)) == cells_weight(cells) + slot_weight(c),
{
    assert(cells.push(c).drop_last() =~= cells);
}

pub proof fn lemma_cells_weight_empty(cells: Cells, i: int)
    requires
        0 <= i < cells.len(),
    ensures
        cells_weight(cells.update(i, None)) + slot_weight(cells[i]) == cells_weight(cells),
    decreases cells.len(),
{
    let u = cells.update(i, None);
    if i < cells.len() - 1 {
        lemma_cells_weight_empty(cells.drop_last(), i);
        assert(u.drop_last() =~= cells.drop_last().update(i, None));
    } else {
        assert(u.drop_last() =~= cells.drop_last());
    }
}

/// A status never weighs less than what follows it plus the work of its
/// first element.
pub proof fn lemma_weight_following(c: Option<Box<Message>>)
    requires
        c is Some,
    ensures
        slot_weight(c) > slot_weight(following(c, false)) + pending(*c->0),
{
}

pub proof fn lemma_advance_weight(st: Statuses, cells: Cells, name: Seq<char>)
    requires
        slot(cells, st[name] as int) is Some,
    ensures
        cells_weight(advance(st, cells, name, false).1) + pending(*slot(cells, st[name] as int)->0) < cells_weight(cells),
{
    let i = st[name] as int;
    lemma_cells_weight_empty(cells, i);
    lemma_cells_weight_push(cells.update(i, None), following(cells[i], false));
    lemma_weight_following(cells[i]);
}

/// The visit of `cur`, an element of the status of `cur_name`.  A message
/// is followed by the visit of the status of the process that its receiving
/// channel maps to; a branch is visited arm by arm, each arm under the name
/// of the current process with `_if` or `_else` added.  The result is the
/// merged tree and the cells afterwards.
pub open spec fn visit_rec(
    cur: Message,
    cur_name: Seq<char>,
    st: Statuses,
    cells: Cells,
    queries: Option<Map<Seq<char>, String>>,
) -> Result<(Option<Box<Message>>, Cells), VisitError>
    decreases cells_weight(cells) + pending(cur),
{
    match cur {
        Message::Node(node) => match queries {
            None => Err(VisitError::MissingProtocolQueries),
            Some(q) => if !q.contains_key(node.recv_channel@) {
                Err(VisitError::ChannelNotMapped(node.recv_channel))
            } else {
                let next_name = q[node.recv_channel@];
                if !st.contains_key(next_name@) {
                    Err(VisitError::UnknownProcess(next_name))
                } else {
                    match slot(cells, st[next_name@] as int) {
                        None => Ok((Some(Box::new(Message::Node(node))), cells)),
                        Some(next_node) => {
                            let (st1, cells1) = advance(st, cells, next_name@, false);
                            proof {
                                lemma_advance_weight(st, cells, next_name@);
                            }
                            match visit_rec(*next_node, next_name@, st1, cells1, queries) {
                                Err(e) => Err(e),
                                Ok((t, cells2)) => Ok((Some(Box::new(Message::Node(with_next(node, t)))), cells2)),
                            }
                        },
                    }
                }
            },
        },
        Message::BranchingNode(b) => {
            let if_name = cur_name + "_if"@;
            let if_part: Result<(Option<Box<Message>>, Statuses, Cells), VisitError> = match b.if_branch {
                None => Ok((None, st, cells)),
                Some(x) => {
                    let st1 = st.insert(if_name, cells.len() as usize);
                    proof {
                        lemma_cells_weight_push(cells, Some(x));
                    }
                    match visit_rec(*x, if_name, st1, cells.push(Some(x)), queries) {
                        Err(e) => Err(e),
                        Ok((t, cells2)) => Ok((t, st1.remove(if_name), cells2)),
                    }
                },
            };
            match if_part {
                Err(e) => Err(e),
                Ok((if_result, st2, cells2)) => match b.else_branch {
                    None => Ok((Some(Box::new(Message::BranchingNode(BranchingNode { if_branch: if_result, else_branch: None }))), cells2)),
                    Some(x) => {
                        let else_name = cur_name + "_else"@;
                        // Never false: see `lemma_visit_weight`.
                        if cells_weight(cells2) <= cells_weight(cells) + arm_load(b.if_branch) {
                            proof {
                                lemma_cells_weight_push(cells2, Some(x));
                            }
                            match visit_rec(
                                *x,
                                else_name,
                                st2.insert(else_name, cells2.len() as usize),
                                cells2.push(Some(x)),
                                queries,
                            ) {
                                Err(e) => Err(e),
                                Ok((t, cells3)) => Ok((Some(Box::new(Message::BranchingNode(BranchingNode { if_branch: if_result, else_branch: t }))), cells3)),
                            }
                        } else {
                            Err(VisitError::MissingProtocolQueries)
                        }
                    },
                },
            }
        },
    }
}

/// A visit leaves the cells no heavier than they were plus the work of the
/// element it started from.
pub proof fn lemma_visit_weight(
    cur: Message,
    cur_name: Seq<char>,
    st: Statuses,
    cells: Cells,
    queries: Option<Map<Seq<char>, String>>,
)
    ensures
        visit_rec(cur, cur_name, st, cells, queries) matches Ok((_, c)) ==> cells_weight(c) <= cells_weight(cells) + pending(cur),
    decreases cells_weight(cells) + pending(cur),
{
    match cur {
        Message::Node(node) => {
            if let Some(q) = queries {
                if q.contains_key(node.recv_channel@) {
                    let next_name = q[node.recv_channel@];
                    if st.contains_key(next_name@) {
                        if let Some(next_node) = slot(cells, st[next_name@] as int) {
                            let (st1, cells1) = advance(st, cells, next_name@, false);
                            lemma_advance_weight(st, cells, next_name@);
                            lemma_visit_weight(*next_node, next_name@, st1, cells1, queries);
                        }
                    }
                }
            }
        },
        Message::BranchingNode(b) => {
            let if_name = cur_name + "_if"@;
            let else_name = cur_name + "_else"@;
            if let Some(x) = b.if_branch {
                lemma_cells_weight_push(cells, Some(x));
                lemma_visit_weight(*x, if_name, st.insert(if_name, cells.len() as usize), cells.push(Some(x)), queries);
            }
            let if_part: Result<(Option<Box<Message>>, Statuses, Cells), VisitError> = match b.if_branch {
                None => Ok((None, st, cells)),
                Some(x) => {
                    let st1 = st.insert(if_name, cells.len() as usize);
                    match visit_rec(*x, if_name, st1, cells.push(Some(x)), queries) {
                        Err(e) => Err(e),
                        Ok((t, cells2)) => Ok((t, st1.remove(if_name), cells2)),
                    }
                },
            };
            if let Ok((_, st2, cells2)) = if_part {
                if let Some(x) = b.else_branch {
                    if cells_weight(cells2) <= cells_weight(cells) + arm_load(b.if_branch) {
                        lemma_cells_weight_push(cells2, Some(x));
                        lemma_visit_weight(*x, else_name, st2.insert(else_name, cells2.len() as usize), cells2.push(Some(x)), queries);
                    }
                }
            }
        },
    }
}

/// The channel mapping of world `p`, as a map.
pub open spec fn query_view(queries: ProtocolMap<StrMap<String>>, p: ProtocolType) -> Option<Map<Seq<char>, String>> {
    match queries.lookup(p) {
        Some(m) => Some(m@),
        None => None,
    }
}

/// The cells of the processes before the visit: one per process, in the
/// order of the pairs, holding its messages.
pub open spec fn initial_cells(pairs: Seq<(String, Process)>) -> Cells {
    Seq::new(pairs.len(), |i: int| pairs[i].1.messages)
}

/// The statuses before the visit: each process name refers to its cell.
pub open spec fn initial_statuses(pairs: Seq<(String, Process)>) -> Statuses {
    assoc_view(Seq::new(pairs.len(), |i: int| (pairs[i].0, i as usize)))
}

/// The merged tree of a visit that starts with the messages of process
/// `start`, whose status is advanced before the visit begins.
pub open spec fn visit_result(
    start: Seq<char>,
    pairs: Seq<(String, Process)>,
    queries: Option<Map<Seq<char>, String>>,
) -> Result<Option<Box<Message>>, VisitError> {
    let processes = assoc_view(pairs);
    if !processes.contains_key(start) {
        Err(VisitError::InvalidStartingProcess)
    } else {
        match processes[start].messages {
            None => Err(VisitError::NoStartingMessages),
            Some(first) => {
                let (st, cells) = advance(initial_statuses(pairs), initial_cells(pairs), start, false);
                match visit_rec(*first, start, st, cells, queries) {
                    Err(e) => Err(e),
                    Ok((t, _)) => Ok(t),
                }
            },
        }
    }
}

/// Plays the first element of the status of `process_name`: empties its
/// cell, gives the name a new cell with what follows (the `if` or `else`
/// arm for a branch, as `if_branch` says) and returns what the cell held.
pub fn update_status(
    process_name: &String,
    statuses: &mut StrMap<usize>,
    cells: &mut Vec<Option<Box<Message>>>,
    if_branch: bool,
) -> (taken: Option<Box<Message>>)
    requires
        old(statuses)@.contains_key(process_name@),
    ensures
        taken == slot(old(cells)@, old(statuses)@[process_name@] as int),
        (final(statuses)@, final(cells)@) == advance(old(statuses)@, old(cells)@, process_name@, if_branch),
{
    let idx = match statuses.get(process_name.as_str()) {
        Some(i) => *i,
        None => 0,
    };
    let mut taken: Option<Box<Message>> = None;
    if idx < cells.len() {
        std::mem::swap(&mut taken, &mut cells[idx]);
    }
    let next = match &taken {
        None => None,
        Some(m) => match copy_message(&**m) {
            Message::Node(n) => n.go_next(),
            Message::BranchingNode(bn) => if if_branch {
                bn.go_if()
            } else {
                bn.go_else()
            },
        },
    };
    let new_idx = cells.len();
    cells.push(next);
    statuses.insert(process_name.clone(), new_idx);
    taken
}

/// The visit of `current_node`, an element of the status of
/// `current_process`: the merged tree and the cells afterwards.
pub fn visit_in_order_rec(
    current_node: Message,
    current_process: &String,
    statuses: StrMap<usize>,
    cells: Vec<Option<Box<Message>>>,
    protocol: &ProtocolType,
    queries: &ProtocolMap<StrMap<String>>,
) -> (r: (Option<Box<Message>>, Vec<Option<Box<Message>>>))
    requires
        visit_rec(current_node, current_process@, statuses@, cells@, query_view(*queries, *protocol)) is Ok,
    ensures
        visit_rec(current_node, current_process@, statuses@, cells@, query_view(*queries, *protocol)) matches Ok(
            (t, c),
        ) && r.0 == t && r.1@ == c,
{
    match visit_from(current_node, current_process, statuses, cells, protocol, queries) {
        Ok(r) => r,
        // Excluded by the precondition.
        Err(_) => (None, Vec::new()),
    }
}

/// The visit of `current_node`, or why it cannot be carried out.
fn visit_from(
    current_node: Message,
    current_process: &String,
    statuses: StrMap<usize>,
    cells: Vec<Option<Box<Message>>>,
    protocol: &ProtocolType,
    queries: &ProtocolMap<StrMap<String>>,
) -> (r: Result<(Option<Box<Message>>, Vec<Option<Box<Message>>>), VisitError>)
    ensures
        match visit_rec(current_node, current_process@, statuses@, cells@, query_view(*queries, *protocol)) {
            Ok((t, c)) => r matches Ok((t2, c2)) && t2 == t && c2@ == c,
            Err(e) => r matches Err(e2) && e2 == e,
        },
    decreases cells_weight(cells@) + pending(current_node),
{
    let ghost q = query_view(*queries, *protocol);
    let ghost st0 = statuses@;
    let ghost cells0 = cells@;
    match current_node {
        Message::Node(node) => {
            let mapping = match queries.get(protocol) {
                None => {
                    return Err(VisitError::MissingProtocolQueries);
                },
                Some(m) => m,
            };
            let next_process = match mapping.get(node.recv_channel.as_str()) {
                None => {
                    return Err(VisitError::ChannelNotMapped(node.recv_channel.clone()));
                },
                Some(n) => n,
            };
            if !statuses.contains_key(next_process.as_str()) {
                return Err(VisitError::UnknownProcess(next_process.clone()));
            }
            let mut statuses = statuses;
            let mut cells = cells;
            let peek = match statuses.get(next_process.as_str()) {
                Some(i) => *i < cells.len() && cells[*i].is_some(),
                None => false,
            };
            if !peek {
                return Ok((Some(Box::new(Message::Node(node))), cells));
            }
            proof {
                lemma_advance_weight(st0, cells0, next_process@);
            }
            let next_node = update_status(next_process, &mut statuses, &mut cells, false).unwrap();
            match visit_from(*next_node, next_process, statuses, cells, protocol, queries) {
                Err(e) => Err(e),
                Ok((t, c)) => Ok(
                    (
                        Some(
                            Box::new(
                                Message::Node(
                                    Node::new(node.send_channel, node.recv_channel, node.statement, node.direction, t),
                                ),
                            ),
                        ),
                        c,
                    ),
                ),
            }
        },
        Message::BranchingNode(b) => {
            let ghost bb = b;
            let mut statuses = statuses;
            let mut cells = cells;
            let BranchingNode { if_branch, else_branch } = b;
            let mut if_name = current_process.clone();
            if_name.append("_if");
            let if_result = match if_branch {
                None => None,
                Some(x) => {
                    let idx = cells.len();
                    statuses.insert(if_name.clone(), idx);
                    let copy = copy_message(&*x);
                    cells.push(Some(Box::new(copy)));
                    let child = statuses.duplicate();
                    proof {
                        lemma_cells_weight_push(cells0, Some(x));
                        lemma_visit_weight(*x, if_name@, child@, cells@, q);
                    }
                    match visit_from(*x, &if_name, child, cells, protocol, queries) {
                        Err(e) => {
                            return Err(e);
                        },
                        Ok((t, c)) => {
                            cells = c;
                            statuses.remove(if_name.as_str());
                            t
                        },
                    }
                },
            };
            match else_branch {
                None => Ok((Some(Box::new(Message::BranchingNode(BranchingNode::new(if_result, None)))), cells)),
                Some(x) => {
                    let mut else_name = current_process.clone();
                    else_name.append("_else");
                    let idx = cells.len();
                    statuses.insert(else_name.clone(), idx);
                    let copy = copy_message(&*x);
                    let ghost cells2 = cells@;
                    cells.push(Some(Box::new(copy)));
                    proof {
                        lemma_cells_weight_push(cells2, Some(x));
                    }
                    match visit_from(*x, &else_name, statuses, cells, protocol, queries) {
                        Err(e) => Err(e),
                        Ok((t, c)) => Ok((Some(Box::new(Message::BranchingNode(BranchingNode::new(if_result, t)))), c)),
                    }
                },
            }
        },
    }
}

/// Merges the message trees of `processes` into the order of the exchange,
/// starting with process `starting_process`, for world `protocol`, or tells
/// why the visit cannot be carried out.  The result is a process named
/// after the world.
pub fn try_visit_in_order(
    starting_process: &String,
    processes: &StrMap<Process>,
    protocol: &ProtocolType,
    queries: &ProtocolMap<StrMap<String>>,
) -> (r: Result<Process, VisitError>)
    ensures
        match visit_result(starting_process@, processes.pairs(), query_view(*queries, *protocol)) {
            Ok(t) => r matches Ok(p) && p.process_name@ == protocol_name(*protocol) && p.messages == t,
            Err(e) => r matches Err(e2) && e2 == e,
        },
{
    let n = processes.len();
    let ghost pairs = processes.pairs();
    let start = match processes.get(starting_process.as_str()) {
        None => {
            return Err(VisitError::InvalidStartingProcess);
        },
        Some(p) => p,
    };
    let mut statuses: StrMap<usize> = StrMap::new();
    let mut cells: Vec<Option<Box<Message>>> = Vec::new();
    let ghost index_pairs = Seq::new(pairs.len(), |i: int| (pairs[i].0, i as usize));
    let mut i: usize = 0;
    while i < n
        invariant
            i <= n,
            n == pairs.len(),
            pairs == processes.pairs(),
            keys_distinct(pairs),
            index_pairs == Seq::new(pairs.len(), |j: int| (pairs[j].0, j as usize)),
            statuses@ == assoc_view(index_pairs.subrange(0, i as int)),
            cells@ == initial_cells(pairs).subrange(0, i as int),
        decreases n - i,
    {
        let key = processes.key_at(i).clone();
        let messages = copy_tree(&processes.value_at(i).messages);
        proof {
            assert(index_pairs.subrange(0, i + 1) =~= index_pairs.subrange(0, i as int).push((key, i)));
            lemma_assoc_view_push(index_pairs.subrange(0, i as int), key, i);
        }
        statuses.insert(key, i);
        cells.push(messages);
        assert(cells@ =~= initial_cells(pairs).subrange(0, i + 1));
        i = i + 1;
    }
    assert(index_pairs.subrange(0, n as int) =~= index_pairs);
    assert(cells@ =~= initial_cells(pairs));
    let first = match &start.messages {
        None => {
            return Err(VisitError::NoStartingMessages);
        },
        Some(m) => copy_message(&**m),
    };
    proof {
        lemma_statuses_of_key(pairs, starting_process@);
    }
    let _ = update_status(starting_process, &mut statuses, &mut cells, false);
    match visit_from(first, starting_process, statuses, cells, protocol, queries) {
        Err(e) => Err(e),
        Ok((t, _)) => Ok(Process::new(protocol.to_string(), t)),
    }
}

/// The starting name has a status exactly when it names a process, and that
/// status is the cell of the process.
proof fn lemma_statuses_of_key(pairs: Seq<(String, Process)>, k: Seq<char>)
    requires
        keys_distinct(pairs),
        assoc_view(pairs).contains_key(k),
        pairs.len() <= usize::MAX,
    ensures
        initial_statuses(pairs).contains_key(k),
        initial_cells(pairs)[initial_statuses(pairs)[k] as int] == assoc_view(pairs)[k].messages,
        0 <= initial_statuses(pairs)[k] < pairs.len(),
{
    let ip = Seq::new(pairs.len(), |i: int| (pairs[i].0, i as usize));
    crate::strmap::lemma_assoc_view_domain(pairs, k);
    let i = choose|i: int| 0 <= i < pairs.len() && (#[trigger] pairs[i]).0@ == k;
    lemma_assoc_view_index(pairs, i);
    assert forall|a: int, b: int| 0 <= a < ip.len() && 0 <= b < ip.len() && a != b implies (#[trigger] ip[a]).0@ != (#[trigger] ip[b]).0@ by {
        assert(pairs[a].0 == ip[a].0 && pairs[b].0 == ip[b].0);
    }
    assert(ip[i].0@ == k);
    lemma_assoc_view_index(ip, i);
}

/// Merges the message trees of `processes` into the order of the exchange,
/// starting with process `starting_process`, for world `protocol`.  The
/// result is a process named after the world.
pub fn visit_in_order(
    starting_process: &String,
    processes: &StrMap<Process>,
    protocol: &ProtocolType,
    queries: &ProtocolMap<StrMap<String>>,
) -> (r: Process)
    requires
        visit_result(starting_process@, processes.pairs(), query_view(*queries, *protocol)) is Ok,
    ensures
        r.process_name@ == protocol_name(*protocol),
        Ok::<Option<Box<Message>>, VisitError>(r.messages)
            == visit_result(starting_process@, processes.pairs(), query_view(*queries, *protocol)),
{
    match try_visit_in_order(starting_process, processes, protocol, queries) {
        Ok(p) => p,
        // Excluded by the precondition.
        Err(_) => Process::new(protocol.to_string(), None),
    }
}

/// A visit starts with the first message of the starting process: the
/// merged tree opens with that message, only what follows it may differ.
pub proof fn lemma_visit_starts_with_first_message(
    start: Seq<char>,
    pairs: Seq<(String, Process)>,
    queries: Option<Map<Seq<char>, String>>,
    first: Node,
)
    requires
        assoc_view(pairs).contains_key(start),
        assoc_view(pairs)[start].messages == Some(Box::new(Message::Node(first))),
        visit_result(start, pairs, queries) is Ok,
    ensures
        visit_result(start, pairs, queries) matches Ok(Some(t)) && *t matches Message::Node(n) && n.send_channel
            == first.send_channel && n.recv_channel == first.recv_channel && n.statement == first.statement
            && n.direction == first.direction,
{
}

/// A visit for world `p` follows only the channel mapping given for `p`:
/// two sets of mappings that agree on `p` give the same visit, whatever they
/// hold for the other world.
pub proof fn lemma_visit_uses_own_world(
    start: Seq<char>,
    pairs: Seq<(String, Process)>,
    q1: ProtocolMap<StrMap<String>>,
    q2: ProtocolMap<StrMap<String>>,
    p: ProtocolType,
)
    requires
        q1.lookup(p) == q2.lookup(p),
    ensures
        visit_result(start, pairs, query_view(q1, p)) == visit_result(start, pairs, query_view(q2, p)),
        query_view(q1, p) == (match q1.lookup(p) {
            Some(m) => Some(m@),
            None => None::<Map<Seq<char>, String>>,
        }),
{
}

} // verus!
