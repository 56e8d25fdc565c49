//! Message trees of a process and their rendering in the text format of
//! sequencediagram.org.

use vstd::prelude::*;
use vstd::string::*;

verus! {

/// Whether a message is received or sent by the process that records it.
#[derive(Clone, Copy, Debug, PartialEq, Eq, Structural)]
pub enum Direction {
    In,
    Out,
}

/// One message exchanged on a pair of channels, followed by what the
/// process does next.
#[derive(Debug)]
pub struct Node {
    pub send_channel: String,
    pub recv_channel: String,
    pub statement: String,
    pub direction: Direction,
    pub next: Option<Box<Message>>,
}

/// A two-way branch of a process.
#[derive(Debug)]
pub struct BranchingNode {
    pub if_branch: Option<Box<Message>>,
    pub else_branch: Option<Box<Message>>,
}

/// An element of a message tree.
#[derive(Debug)]
pub enum Message {
    Node(Node),
    BranchingNode(BranchingNode),
}

/// A named process and the tree of its messages.
#[derive(Debug)]
pub struct Process {
    pub process_name: String,
    pub messages: Option<Box<Message>>,
}

/// The line that shows a sent message.
pub open spec fn sent_line(n: Node) -> Seq<char> {
    "\r"@ + n.send_channel@ + "->"@ + n.recv_channel@ + ": sent "@ + n.statement@
}

/// One arm of a branch, introduced by `label`; an arm that starts with a
/// message is closed by a line break.
pub open spec fn arm_text(label: Seq<char>, arm: Option<Box<Message>>) -> Seq<char>
    decreases arm,
{
    match arm {
        None => Seq::empty(),
        Some(m) => match *m {
            Message::Node(n) => label + node_text(n) + "\n"@,
            Message::BranchingNode(b) => label + branching_text(b),
        },
    }
}

/// The text of a branch: its two arms and the closing `end`.
pub open spec fn branching_text(b: BranchingNode) -> Seq<char>
    decreases b,
{
    arm_text("\n\ralt if branch:\n"@, b.if_branch) + arm_text("\nelse else branch:\n"@, b.else_branch)
        + "\nend"@
}

/// The text that announces the arms of a branch that follows a sent message.
pub open spec fn announced_arms_text(b: BranchingNode) -> Seq<char>
    decreases b,
{
    arm_text("\nalt if branch:\n"@, b.if_branch) + arm_text("\nalt else branch:\n"@, b.else_branch)
}

/// The text of a message and of everything that follows it.
pub open spec fn node_text(n: Node) -> Seq<char>
    decreases n,
{
    match n.direction {
        Direction::Out => match n.next {
            None => sent_line(n),
            Some(m) => match *m {
                Message::Node(k) => sent_line(n) + node_text(k),
                Message::BranchingNode(b) => announced_arms_text(b) + sent_line(n) + branching_text(b),
            },
        },
        Direction::In => match n.next {
            None => "received "@ + n.statement@,
            Some(m) => match *m {
                Message::Node(k) => "\r\rreceived "@ + n.statement@ + "\n"@ + node_text(k),
                Message::BranchingNode(b) => "\r\rreceived "@ + n.statement@ + "\n"@ + branching_text(b),
            },
        },
    }
}

/// The text of any element of a message tree.
pub open spec fn message_text(m: Message) -> Seq<char> {
    match m {
        Message::Node(n) => node_text(n),
        Message::BranchingNode(b) => branching_text(b),
    }
}

fn write_sent_line(n: &Node, out: &mut String)
    ensures
        final(out)@ == old(out)@ + sent_line(*n),
{
    let ghost start = out@;
    out.append("\r");
    out.append(n.send_channel.as_str());
    out.append("->");
    out.append(n.recv_channel.as_str());
    out.append(": sent ");
    out.append(n.statement.as_str());
    assert(out@ =~= start + sent_line(*n));
}

fn write_arm(label: &str, arm: &Option<Box<Message>>, out: &mut String)
    ensures
        final(out)@ == old(out)@ + arm_text(label@, *arm),
    decreases arm,
{
    let ghost start = out@;
    match arm {
        None => {
            assert(out@ =~= start + arm_text(label@, *arm));
        },
        Some(m) => match &**m {
            Message::Node(n) => {
                out.append(label);
                write_node(n, out);
                out.append("\n");
                assert(out@ =~= start + arm_text(label@, *arm));
            },
            Message::BranchingNode(b) => {
                out.append(label);
                write_branching(b, out);
                assert(out@ =~= start + arm_text(label@, *arm));
            },
        },
    }
}

fn write_branching(b: &BranchingNode, out: &mut String)
    ensures
        final(out)@ == old(out)@ + branching_text(*b),
    decreases b,
{
    let ghost start = out@;
    write_arm("\n\ralt if branch:\n", &b.if_branch, out);
    write_arm("\nelse else branch:\n", &b.else_branch, out);
    out.append("\nend");
    assert(out@ =~= start + branching_text(*b));
}

fn write_node(n: &Node, out: &mut String)
    ensures
        final(out)@ == old(out)@ + node_text(*n),
    decreases n,
{
    let ghost start = out@;
    match n.direction {
        Direction::Out => match &n.next {
            None => {
                write_sent_line(n, out);
            },
            Some(m) => match &**m {
                Message::Node(k) => {
                    write_sent_line(n, out);
                    write_node(k, out);
                    assert(out@ =~= start + node_text(*n));
                },
                Message::BranchingNode(b) => {
                    write_arm("\nalt if branch:\n", &b.if_branch, out);
                    write_arm("\nalt else branch:\n", &b.else_branch, out);
                    write_sent_line(n, out);
                    write_branching(b, out);
                    assert(announced_arms_text(*b) == arm_text("\nalt if branch:\n"@, b.if_branch)
                        + arm_text("\nalt else branch:\n"@, b.else_branch));
                    assert(out@ =~= start + node_text(*n));
                },
            },
        },
        Direction::In => match &n.next {
            None => {
                out.append("received ");
                out.append(n.statement.as_str());
                assert(out@ =~= start + node_text(*n));
            },
            Some(m) => {
                out.append("\r\rreceived ");
                out.append(n.statement.as_str());
                out.append("\n");
                match &**m {
                    Message::Node(k) => {
                        write_node(k, out);
                    },
                    Message::BranchingNode(b) => {
                        write_branching(b, out);
                    },
                }
                assert(out@ =~= start + node_text(*n));
            },
        },
    }
}

impl Node {
    /// The message and everything that follows it, as diagram text.
    pub fn to_string(&self) -> (r: String)
        ensures
            r@ == node_text(*self),
            self.direction == Direction::In ==> (self.next matches Some(m) ==> r@ == "\r\rreceived "@
                + self.statement@ + "\n"@ + message_text(*m)),
    {
        let mut out = String::new();
        write_node(self, &mut out);
        proof {
            if self.direction == Direction::In {
                lemma_received_message_text(*self);
            }
        }
        out
    }
}

impl BranchingNode {
    /// The branch as diagram text.
    pub fn to_string(&self) -> (r: String)
        ensures
            r@ == branching_text(*self),
    {
        let mut out = String::new();
        write_branching(self, &mut out);
        out
    }
}

impl Message {
    /// The element and everything that follows it, as diagram text.
    pub fn to_string(&self) -> (r: String)
        ensures
            r@ == message_text(*self),
    {
        match self {
            Message::Node(n) => n.to_string(),
            Message::BranchingNode(b) => b.to_string(),
        }
    }
}

} // verus!

verus! {

use crate::parser::ParserNode;
use crate::strings::str_equal;

/// Why a list of trace records cannot be turned into a message tree.
#[derive(Clone, Copy, Debug, PartialEq, Eq, Structural)]
pub enum TreeError {
    /// A message record has no sending channel.
    MissingSendChannel,
    /// A message record has no receiving channel.
    MissingReceiveChannel,
    /// A message record's direction is missing or neither `in` nor `out`.
    InvalidDirection,
    /// A branch record inside a list is not followed by the record of its
    /// `else` arm.
    MissingElseBranch,
}

/// The direction that a record names: `in` or `out`.
pub open spec fn parsed_direction(d: Option<String>) -> Option<Direction> {
    match d {
        Some(s) => if s@ == "in"@ {
            Some(Direction::In)
        } else if s@ == "out"@ {
            Some(Direction::Out)
        } else {
            None
        },
        None => None,
    }
}

/// The message node that a record with a message stands for.
pub open spec fn leaf_result(m: ParserNode) -> Result<Message, TreeError> {
    if m.send_channel is None {
        Err(TreeError::MissingSendChannel)
    } else if m.receive_channel is None {
        Err(TreeError::MissingReceiveChannel)
    } else if parsed_direction(m.direction) is None {
        Err(TreeError::InvalidDirection)
    } else {
        Ok(
            Message::Node(
                Node {
                    send_channel: m.send_channel->0,
                    recv_channel: m.receive_channel->0,
                    statement: m.message->0,
                    direction: parsed_direction(m.direction)->0,
                    next: None,
                },
            ),
        )
    }
}

/// The node `n` followed by `next`.
pub open spec fn with_next(n: Node, next: Option<Box<Message>>) -> Node {
    Node { next, ..n }
}

/// The chain that a list of records inside a tree stands for.  A message
/// record is followed by the chain of the records after it; a branch record
/// takes its `else` arm from the record after it and ends the chain.
pub open spec fn chain_result(ms: Seq<ParserNode>) -> Result<Option<Box<Message>>, TreeError>
    decreases ms, 1int,
{
    if ms.len() == 0 {
        Ok(None)
    } else {
        match step_result(ms) {
            Err(e) => Err(e),
            Ok(Message::Node(n)) => match chain_result(ms.subrange(1, ms.len() as int)) {
                Err(e) => Err(e),
                Ok(t) => Ok(Some(Box::new(Message::Node(with_next(n, t))))),
            },
            Ok(b) => Ok(Some(Box::new(b))),
        }
    }
}

/// The element that the first record of a non-empty list stands for.
pub open spec fn step_result(ms: Seq<ParserNode>) -> Result<Message, TreeError>
    decreases ms, 0int,
{
    if ms.len() == 0 {
        Err(TreeError::MissingElseBranch)
    } else if ms[0].message is Some {
        leaf_result(ms[0])
    } else {
        let if_part = match ms[0].if_statem {
            Some(v) => chain_result(v@),
            None => Ok(None),
        };
        match if_part {
            Err(e) => Err(e),
            Ok(if_branch) => if ms.len() < 2 || ms[1].else_statem is None {
                Err(TreeError::MissingElseBranch)
            } else {
                match chain_result(ms[1].else_statem->0@) {
                    Err(e) => Err(e),
                    Ok(else_branch) => Ok(Message::BranchingNode(BranchingNode { if_branch, else_branch })),
                }
            },
        }
    }
}

/// The chain of an optional list of records.
pub open spec fn optional_chain_result(v: Option<Vec<ParserNode>>) -> Result<Option<Box<Message>>, TreeError> {
    match v {
        Some(v) => chain_result(v@),
        None => Ok(None),
    }
}

/// The element that the first record of a trace stands for; a branch record
/// there carries both of its arms.
pub open spec fn first_result(m: ParserNode) -> Result<Message, TreeError> {
    if m.message is Some {
        leaf_result(m)
    } else {
        match optional_chain_result(m.if_statem) {
            Err(e) => Err(e),
            Ok(if_branch) => match optional_chain_result(m.else_statem) {
                Err(e) => Err(e),
                Ok(else_branch) => Ok(Message::BranchingNode(BranchingNode { if_branch, else_branch })),
            },
        }
    }
}

/// The message tree of a whole trace.  A trace that opens with a branch
/// consists of that branch alone.
pub open spec fn tree_result(ms: Seq<ParserNode>) -> Result<Option<Box<Message>>, TreeError> {
    if ms.len() == 0 {
        Ok(None)
    } else {
        match first_result(ms[0]) {
            Err(e) => Err(e),
            Ok(Message::Node(n)) => match chain_result(ms.subrange(1, ms.len() as int)) {
                Err(e) => Err(e),
                Ok(t) => Ok(Some(Box::new(Message::Node(with_next(n, t))))),
            },
            Ok(b) => Ok(Some(Box::new(b))),
        }
    }
}

fn parse_direction(d: &Option<String>) -> (r: Option<Direction>)
    ensures
        r == parsed_direction(*d),
{
    match d {
        Some(s) => if str_equal(s.as_str(), "in") {
            Some(Direction::In)
        } else if str_equal(s.as_str(), "out") {
            Some(Direction::Out)
        } else {
            None
        },
        None => None,
    }
}

impl Node {
    pub fn new(
        send_channel: String,
        recv_channel: String,
        statement: String,
        direction: Direction,
        next: Option<Box<Message>>,
    ) -> (r: Self)
        ensures
            r == (Node { send_channel, recv_channel, statement, direction, next }),
    {
        Node { send_channel, recv_channel, statement, direction, next }
    }

    /// What follows this message.
    pub fn go_next(self) -> (r: Option<Box<Message>>)
        ensures
            r == self.next,
    {
        self.next
    }
}

impl BranchingNode {
    pub fn new(if_branch: Option<Box<Message>>, else_branch: Option<Box<Message>>) -> (r: Self)
        ensures
            r == (BranchingNode { if_branch, else_branch }),
    {
        BranchingNode { if_branch, else_branch }
    }

    /// The `if` arm.
    pub fn go_if(self) -> (r: Option<Box<Message>>)
        ensures
            r == self.if_branch,
    {
        self.if_branch
    }

    /// The `else` arm.
    pub fn go_else(self) -> (r: Option<Box<Message>>)
        ensures
            r == self.else_branch,
    {
        self.else_branch
    }
}

fn leaf_message(m: &ParserNode, statement: &String) -> (r: Result<Message, TreeError>)
    requires
        m.message == Some(*statement),
    ensures
        r == leaf_result(*m),
{
    let send_channel = match &m.send_channel {
        Some(c) => c.clone(),
        None => {
            return Err(TreeError::MissingSendChannel);
        },
    };
    let recv_channel = match &m.receive_channel {
        Some(c) => c.clone(),
        None => {
            return Err(TreeError::MissingReceiveChannel);
        },
    };
    let direction = match parse_direction(&m.direction) {
        Some(d) => d,
        None => {
            return Err(TreeError::InvalidDirection);
        },
    };
    Ok(Message::Node(Node::new(send_channel, recv_channel, statement.clone(), direction, None)))
}

impl Process {
    pub fn new(process_name: String, messages: Option<Box<Message>>) -> (r: Self)
        ensures
            r == (Process { process_name, messages }),
    {
        Process { process_name, messages }
    }

    /// Replaces the process's messages by the tree of `messages`.
    pub fn add_messages(&mut self, messages: &Vec<ParserNode>)
        requires
            tree_result(messages@) is Ok,
        ensures
            final(self).process_name == old(self).process_name,
            Ok::<Option<Box<Message>>, TreeError>(final(self).messages) == tree_result(messages@),
    {
        match Process::build_tree(messages) {
            Ok(t) => {
                self.messages = t;
            },
            Err(_) => {},
        }
    }

    /// Replaces the process's messages by the tree of `messages`, or tells
    /// why the records do not form one and leaves the process unchanged.
    pub fn try_add_messages(&mut self, messages: &Vec<ParserNode>) -> (r: Result<(), TreeError>)
        ensures
            final(self).process_name == old(self).process_name,
            match tree_result(messages@) {
                Ok(t) => r is Ok && final(self).messages == t,
                Err(e) => r == Err::<(), TreeError>(e) && final(self).messages == old(self).messages,
            },
    {
        match Process::build_tree(messages) {
            Ok(t) => {
                self.messages = t;
                Ok(())
            },
            Err(e) => Err(e),
        }
    }

    /// The message tree of a whole trace: a trace that opens with a message
    /// continues with the chain of the records after it; one that opens with
    /// a branch is that branch alone.
    pub fn create_message_tree(messages: &Vec<ParserNode>) -> (r: Option<Box<Message>>)
        requires
            tree_result(messages@) is Ok,
        ensures
            Ok::<Option<Box<Message>>, TreeError>(r) == tree_result(messages@),
    {
        match Process::build_tree(messages) {
            Ok(t) => t,
            // Excluded by the precondition.
            Err(_) => None,
        }
    }

    /// The chain of `messages[start..]` inside a tree: each message record is
    /// followed by the records after it; a branch record takes its `else`
    /// arm from the next record and ends the chain.
    pub fn add_messages_recursively(messages: &Vec<ParserNode>, start: usize) -> (r: Option<Box<Message>>)
        requires
            start <= messages@.len(),
            chain_result(messages@.subrange(start as int, messages@.len() as int)) is Ok,
        ensures
            Ok::<Option<Box<Message>>, TreeError>(r) == chain_result(
                messages@.subrange(start as int, messages@.len() as int),
            ),
    {
        match Process::build_chain(messages, start) {
            Ok(t) => t,
            // Excluded by the precondition.
            Err(_) => None,
        }
    }

    /// The message tree of a whole trace, or why the records do not form one.
    fn build_tree(messages: &Vec<ParserNode>) -> (r: Result<Option<Box<Message>>, TreeError>)
        ensures
            r == tree_result(messages@),
    {
        if messages.len() == 0 {
            return Ok(None);
        }
        let m = &messages[0];
        let head = match &m.message {
            Some(statement) => leaf_message(m, statement),
            None => {
                let if_branch = match &m.if_statem {
                    Some(v) => {
                        proof {
                            assert(v@.subrange(0, v@.len() as int) =~= v@);
                        }
                        match Process::build_chain(v, 0) {
                            Ok(t) => t,
                            Err(e) => {
                                return Err(e);
                            },
                        }
                    },
                    None => None,
                };
                let else_branch = match &m.else_statem {
                    Some(v) => {
                        proof {
                            assert(v@.subrange(0, v@.len() as int) =~= v@);
                        }
                        match Process::build_chain(v, 0) {
                            Ok(t) => t,
                            Err(e) => {
                                return Err(e);
                            },
                        }
                    },
                    None => None,
                };
                Ok(Message::BranchingNode(BranchingNode::new(if_branch, else_branch)))
            },
        };
        proof {
            assert(messages@.subrange(0, messages@.len() as int) =~= messages@);
        }
        match head {
            Err(e) => Err(e),
            Ok(Message::Node(n)) => match Process::build_chain(messages, 1) {
                Err(e) => Err(e),
                Ok(t) => Ok(
                    Some(
                        Box::new(
                            Message::Node(
                                Node::new(n.send_channel, n.recv_channel, n.statement, n.direction, t),
                            ),
                        ),
                    ),
                ),
            },
            Ok(b) => Ok(Some(Box::new(b))),
        }
    }

    /// The chain of `messages[start..]`, or why the records do not form one.
    fn build_chain(messages: &Vec<ParserNode>, start: usize) -> (r: Result<Option<Box<Message>>, TreeError>)
        requires
            start <= messages@.len(),
        ensures
            r == chain_result(messages@.subrange(start as int, messages@.len() as int)),
        decreases messages@.subrange(start as int, messages@.len() as int), 1int,
    {
        let ghost rest = messages@.subrange(start as int, messages@.len() as int);
        if start == messages.len() {
            return Ok(None);
        }
        let step = Process::build_element(messages, start);
        proof {
            assert(rest.subrange(1, rest.len() as int) =~= messages@.subrange(start + 1, messages@.len() as int));
        }
        match step {
            Err(e) => Err(e),
            Ok(Message::Node(n)) => match Process::build_chain(messages, start + 1) {
                Err(e) => Err(e),
                Ok(t) => Ok(
                    Some(
                        Box::new(
                            Message::Node(
                                Node::new(n.send_channel, n.recv_channel, n.statement, n.direction, t),
                            ),
                        ),
                    ),
                ),
            },
            Ok(b) => Ok(Some(Box::new(b))),
        }
    }

    /// The element that `messages[i]` stands for inside a chain, or why the
    /// records do not form one.
    fn build_element(messages: &Vec<ParserNode>, i: usize) -> (r: Result<Message, TreeError>)
        requires
            i < messages@.len(),
        ensures
            r == step_result(messages@.subrange(i as int, messages@.len() as int)),
        decreases messages@.subrange(i as int, messages@.len() as int), 0int,
    {
        let ghost rest = messages@.subrange(i as int, messages@.len() as int);
        assert(rest[0] == messages@[i as int]);
        let m = &messages[i];
        match &m.message {
            Some(statement) => leaf_message(m, statement),
            None => {
                let if_branch = match &m.if_statem {
                    Some(v) => {
                        proof {
                            assert(v@.subrange(0, v@.len() as int) =~= v@);
                        }
                        match Process::build_chain(v, 0) {
                            Ok(t) => t,
                            Err(e) => {
                                return Err(e);
                            },
                        }
                    },
                    None => None,
                };
                if i >= messages.len() - 1 {
                    return Err(TreeError::MissingElseBranch);
                }
                assert(rest[1] == messages@[i + 1]);
                match &messages[i + 1].else_statem {
                    None => Err(TreeError::MissingElseBranch),
                    Some(v) => {
                        proof {
                            assert(v@.subrange(0, v@.len() as int) =~= v@);
                        }
                        match Process::build_chain(v, 0) {
                            Ok(else_branch) => Ok(Message::BranchingNode(BranchingNode::new(if_branch, else_branch))),
                            Err(e) => Err(e),
                        }
                    },
                }
            },
        }
    }
}

} // verus!

verus! {

/// A copy of an optional tree.
pub fn copy_tree(t: &Option<Box<Message>>) -> (r: Option<Box<Message>>)
    ensures
        r == *t,
    decreases t,
{
    match t {
        None => None,
        Some(m) => Some(Box::new(copy_message(&**m))),
    }
}

/// A copy of a tree element and of everything below it.
pub fn copy_message(m: &Message) -> (r: Message)
    ensures
        r == *m,
    decreases m,
{
    match m {
        Message::Node(n) => Message::Node(
            Node {
                send_channel: n.send_channel.clone(),
                recv_channel: n.recv_channel.clone(),
                statement: n.statement.clone(),
                direction: n.direction,
                next: copy_tree(&n.next),
            },
        ),
        Message::BranchingNode(b) => Message::BranchingNode(
            BranchingNode { if_branch: copy_tree(&b.if_branch), else_branch: copy_tree(&b.else_branch) },
        ),
    }
}

} // verus!

verus! {

use crate::strmap::{StrMap, keys_distinct, lemma_assoc_view_domain, lemma_assoc_view_index};

/// Builds one process per trace, named after its key, with the message tree
/// of its records; or tells why one of the traces does not form a tree.
pub fn processes_from_traces(traces: &StrMap<Vec<ParserNode>>) -> (r: Result<StrMap<Process>, TreeError>)
    ensures
        r is Ok <==> forall|k: Seq<char>| #[trigger] traces@.contains_key(k) ==> tree_result(traces@[k]@) is Ok,
        r matches Ok(m) ==> (forall|k: Seq<char>| #[trigger] m@.contains_key(k) <==> traces@.contains_key(k)) && (
        forall|k: Seq<char>|
            #[trigger] traces@.contains_key(k) ==> m@[k].process_name@ == k && Ok::<Option<Box<Message>>, TreeError>(
                m@[k].messages,
            ) == tree_result(traces@[k]@)),
        r matches Err(e) ==> exists|k: Seq<char>|
            #[trigger] traces@.contains_key(k) && tree_result(traces@[k]@) == Err::<Option<Box<Message>>, TreeError>(e),
        r matches Ok(m) ==> m.pairs().len() == traces.pairs().len() && forall|i: int|
            0 <= i < traces.pairs().len() ==> (#[trigger] m.pairs()[i]).0 == traces.pairs()[i].0
                && m.pairs()[i].1.process_name == traces.pairs()[i].0 && Ok::<Option<Box<Message>>, TreeError>(
                m.pairs()[i].1.messages,
            ) == tree_result(traces.pairs()[i].1@),
        r matches Err(e) ==> exists|i: int|
            0 <= i < traces.pairs().len() && tree_result((#[trigger] traces.pairs()[i]).1@) == Err::<
                Option<Box<Message>>,
                TreeError,
            >(e) && forall|j: int| 0 <= j < i ==> tree_result((#[trigger] traces.pairs()[j]).1@) is Ok,
{
    let n = traces.len();
    let ghost pairs = traces.pairs();
    let mut processes: StrMap<Process> = StrMap::new();
    let mut i: usize = 0;
    while i < n
        invariant
            i <= n,
            n == pairs.len(),
            pairs == traces.pairs(),
            keys_distinct(pairs),
            forall|k: Seq<char>|
                #[trigger] processes@.contains_key(k) <==> exists|j: int| 0 <= j < i && (#[trigger] pairs[j]).0@ == k,
            forall|j: int|
                0 <= j < i ==> processes@[(#[trigger] pairs[j]).0@].process_name@ == pairs[j].0@
                    && Ok::<Option<Box<Message>>, TreeError>(processes@[pairs[j].0@].messages) == tree_result(pairs[j].1@),
            forall|j: int| 0 <= j < i ==> tree_result((#[trigger] pairs[j]).1@) is Ok,
            processes.pairs().len() == i,
            forall|j: int|
                0 <= j < i ==> (#[trigger] processes.pairs()[j]).0 == pairs[j].0 && processes.pairs()[j].1.process_name
                    == pairs[j].0 && Ok::<Option<Box<Message>>, TreeError>(processes.pairs()[j].1.messages)
                    == tree_result(pairs[j].1@),
        decreases n - i,
    {
        let name = traces.key_at(i);
        let mut process = Process::new(name.clone(), None);
        match process.try_add_messages(traces.value_at(i)) {
            Ok(()) => {},
            Err(e) => {
                proof {
                    lemma_assoc_view_index(pairs, i as int);
                }
                return Err(e);
            },
        }
        let ghost before = processes@;
        let ghost before_pairs = processes.pairs();
        proof {
            if processes@.contains_key(pairs[i as int].0@) {
                let j = choose|j: int| 0 <= j < i && (#[trigger] pairs[j]).0@ == pairs[i as int].0@;
                assert(false);
            }
        }
        processes.insert(name.clone(), process);
        assert(processes.pairs() == before_pairs.push((pairs[i as int].0, process)));
        proof {
            assert forall|k: Seq<char>|
                #[trigger] processes@.contains_key(k) <==> exists|j: int| 0 <= j < i + 1 && (#[trigger] pairs[j]).0@ == k by {
                if processes@.contains_key(k) && k != pairs[i as int].0@ {
                    let j = choose|j: int| 0 <= j < i && (#[trigger] pairs[j]).0@ == k;
                    assert(0 <= j < i + 1 && pairs[j].0@ == k);
                }
                if exists|j: int| 0 <= j < i + 1 && (#[trigger] pairs[j]).0@ == k {
                    let j = choose|j: int| 0 <= j < i + 1 && (#[trigger] pairs[j]).0@ == k;
                    if j < i {
                        assert(before.contains_key(k));
                    }
                }
            }
            assert forall|j: int|
                0 <= j < i + 1 implies processes@[(#[trigger] pairs[j]).0@].process_name@ == pairs[j].0@
                    && Ok::<Option<Box<Message>>, TreeError>(processes@[pairs[j].0@].messages) == tree_result(pairs[j].1@) by {
                if j < i {
                    assert(pairs[j].0@ != pairs[i as int].0@);
                }
            }
        }
        i = i + 1;
    }
    proof {
        assert forall|k: Seq<char>| #[trigger] traces@.contains_key(k) implies processes@.contains_key(k)
            && processes@[k].process_name@ == k && Ok::<Option<Box<Message>>, TreeError>(processes@[k].messages)
            == tree_result(traces@[k]@) by {
            lemma_assoc_view_domain(pairs, k);
            let j = choose|j: int| 0 <= j < pairs.len() && (#[trigger] pairs[j]).0@ == k;
            lemma_assoc_view_index(pairs, j);
        }
        assert forall|k: Seq<char>| #[trigger] processes@.contains_key(k) implies traces@.contains_key(k) by {
            lemma_assoc_view_domain(pairs, k);
        }
    }
    Ok(processes)
}

} // verus!

verus! {

/// The statements along the chain of messages at the top of a tree, up to
/// the first branch.
pub open spec fn chain_statements(t: Option<Box<Message>>) -> Seq<Seq<char>>
    decreases t,
{
    match t {
        None => Seq::empty(),
        Some(m) => match *m {
            Message::Node(n) => seq![n.statement@] + chain_statements(n.next),
            Message::BranchingNode(_) => Seq::empty(),
        },
    }
}

/// Every record of the list carries a message.
pub open spec fn all_messages(ms: Seq<ParserNode>) -> bool {
    forall|i: int| 0 <= i < ms.len() ==> (#[trigger] ms[i]).message is Some
}

/// Every record of the list names both channels and a direction.
pub open spec fn all_well_formed(ms: Seq<ParserNode>) -> bool {
    forall|i: int|
        0 <= i < ms.len() ==> (#[trigger] ms[i]).send_channel is Some && ms[i].receive_channel is Some
            && parsed_direction(ms[i].direction) is Some
}

proof fn lemma_message_chain(ms: Seq<ParserNode>)
    requires
        all_messages(ms),
    ensures
        chain_result(ms) is Ok <==> all_well_formed(ms),
        chain_result(ms) matches Ok(t) ==> chain_statements(t) == Seq::new(ms.len(), |i: int| ms[i].message->0@),
    decreases ms.len(),
{
    if ms.len() > 0 {
        let rest = ms.subrange(1, ms.len() as int);
        assert forall|i: int| 0 <= i < rest.len() implies (#[trigger] rest[i]).message is Some by {
            assert(rest[i] == ms[i + 1]);
        }
        lemma_message_chain(rest);
        assert(step_result(ms) == leaf_result(ms[0]));
        assert(all_well_formed(ms) <==> (all_well_formed(rest) && ms[0].send_channel is Some
            && ms[0].receive_channel is Some && parsed_direction(ms[0].direction) is Some)) by {
            if all_well_formed(rest) && ms[0].send_channel is Some && ms[0].receive_channel is Some
                && parsed_direction(ms[0].direction) is Some {
                assert forall|i: int| 0 <= i < ms.len() implies (#[trigger] ms[i]).send_channel is Some
                    && ms[i].receive_channel is Some && parsed_direction(ms[i].direction) is Some by {
                    if i > 0 {
                        assert(ms[i] == rest[i - 1]);
                    }
                }
            }
            if all_well_formed(ms) {
                assert forall|i: int| 0 <= i < rest.len() implies (#[trigger] rest[i]).send_channel is Some
                    && rest[i].receive_channel is Some && parsed_direction(rest[i].direction) is Some by {
                    assert(rest[i] == ms[i + 1]);
                }
            }
        }
        if let Ok(t) = chain_result(ms) {
            let t2 = chain_result(rest)->Ok_0;
            let n = leaf_result(ms[0])->Ok_0->Node_0;
            assert(t == Some(Box::new(Message::Node(with_next(n, t2)))));
            assert(chain_statements(t) =~= seq![ms[0].message->0@] + chain_statements(t2));
            assert(chain_statements(t) =~= Seq::new(ms.len(), |i: int| ms[i].message->0@));
        }
    } else {
        assert(chain_statements(None) =~= Seq::new(ms.len(), |i: int| ms[i].message->0@));
    }
}

/// A trace made only of message records becomes a chain of its messages in
/// the order of the records, and it is accepted exactly when every record
/// names both channels and a direction.
pub proof fn lemma_message_trace_is_chain(ms: Seq<ParserNode>)
    requires
        all_messages(ms),
    ensures
        tree_result(ms) is Ok <==> all_well_formed(ms),
        tree_result(ms) matches Ok(t) ==> chain_statements(t) == Seq::new(ms.len(), |i: int| ms[i].message->0@),
{
    if ms.len() > 0 {
        let rest = ms.subrange(1, ms.len() as int);
        assert forall|i: int| 0 <= i < rest.len() implies (#[trigger] rest[i]).message is Some by {
            assert(rest[i] == ms[i + 1]);
        }
        lemma_message_chain(ms);
        lemma_message_chain(rest);
        assert(step_result(ms) == leaf_result(ms[0]));
        assert(first_result(ms[0]) == leaf_result(ms[0]));
        assert(tree_result(ms) == chain_result(ms));
    } else {
        assert(chain_statements(None) =~= Seq::new(ms.len(), |i: int| ms[i].message->0@));
    }
}

} // verus!

verus! {

impl Clone for Message {
    fn clone(&self) -> (r: Self)
        ensures
            r == *self,
    {
        copy_message(self)
    }
}

impl Clone for Node {
    fn clone(&self) -> (r: Self)
        ensures
            r == *self,
    {
        Node {
            send_channel: self.send_channel.clone(),
            recv_channel: self.recv_channel.clone(),
            statement: self.statement.clone(),
            direction: self.direction,
            next: copy_tree(&self.next),
        }
    }
}

impl Clone for BranchingNode {
    fn clone(&self) -> (r: Self)
        ensures
            r == *self,
    {
        BranchingNode { if_branch: copy_tree(&self.if_branch), else_branch: copy_tree(&self.else_branch) }
    }
}

impl Clone for Process {
    fn clone(&self) -> (r: Self)
        ensures
            r == *self,
    {
        Process { process_name: self.process_name.clone(), messages: copy_tree(&self.messages) }
    }
}

/// A received message always shows in the text: it reads `received` and
/// its statement, and, when something follows, a line break and the text of
/// what follows, be it a message or a branch.
pub proof fn lemma_received_message_text(n: Node)
    requires
        n.direction == Direction::In,
    ensures
        n.next is None ==> node_text(n) == "received "@ + n.statement@,
        n.next matches Some(m) ==> node_text(n) == "\r\rreceived "@ + n.statement@ + "\n"@ + message_text(*m),
{
}

/// The arms of a branch record inside a chain are the chains of all the
/// records of its `if` list and of the next record's `else` list: for lists
/// of well-formed message records, the statements along each arm are the
/// messages of the list, in order.
pub proof fn lemma_branch_arms_keep_all_records(ms: Seq<ParserNode>)
    requires
        ms.len() >= 2,
        ms[0].message is None,
        ms[0].if_statem is Some,
        all_messages(ms[0].if_statem->0@),
        all_well_formed(ms[0].if_statem->0@),
        ms[1].else_statem is Some,
        all_messages(ms[1].else_statem->0@),
        all_well_formed(ms[1].else_statem->0@),
    ensures
        step_result(ms) matches Ok(Message::BranchingNode(b)) && chain_statements(b.if_branch) == Seq::new(
            ms[0].if_statem->0@.len(),
            |i: int| ms[0].if_statem->0@[i].message->0@,
        ) && chain_statements(b.else_branch) == Seq::new(
            ms[1].else_statem->0@.len(),
            |i: int| ms[1].else_statem->0@[i].message->0@,
        ),
{
    lemma_message_chain(ms[0].if_statem->0@);
    lemma_message_chain(ms[1].else_statem->0@);
}

/// The arms of a branch record that opens a trace are the chains of all the
/// records of its own `if` and `else` lists.
pub proof fn lemma_leading_branch_arms_keep_all_records(m: ParserNode)
    requires
        m.message is None,
        m.if_statem is Some,
        all_messages(m.if_statem->0@),
        all_well_formed(m.if_statem->0@),
        m.else_statem is Some,
        all_messages(m.else_statem->0@),
        all_well_formed(m.else_statem->0@),
    ensures
        first_result(m) matches Ok(Message::BranchingNode(b)) && chain_statements(b.if_branch) == Seq::new(
            m.if_statem->0@.len(),
            |i: int| m.if_statem->0@[i].message->0@,
        ) && chain_statements(b.else_branch) == Seq::new(
            m.else_statem->0@.len(),
            |i: int| m.else_statem->0@[i].message->0@,
        ),
{
    lemma_message_chain(m.if_statem->0@);
    lemma_message_chain(m.else_statem->0@);
}

/// A trace that opens with a message record and goes on with a branch
/// record and the record of its `else` list becomes that message followed by
/// the branch, each arm the chain of all the records of its list, in order.
pub proof fn lemma_message_then_branch_keeps_all_records(ms: Seq<ParserNode>)
    requires
        ms.len() >= 3,
        ms[0].message is Some,
        ms[0].send_channel is Some,
        ms[0].receive_channel is Some,
        parsed_direction(ms[0].direction) is Some,
        ms[1].message is None,
        ms[1].if_statem is Some,
        all_messages(ms[1].if_statem->0@),
        all_well_formed(ms[1].if_statem->0@),
        ms[2].else_statem is Some,
        all_messages(ms[2].else_statem->0@),
        all_well_formed(ms[2].else_statem->0@),
    ensures
        match tree_result(ms) {
            Ok(Some(t)) => match *t {
                Message::Node(n) => n.statement == ms[0].message->0 && match n.next {
                    Some(x) => match *x {
                        Message::BranchingNode(b) => chain_statements(b.if_branch) == Seq::new(
                            ms[1].if_statem->0@.len(),
                            |i: int| ms[1].if_statem->0@[i].message->0@,
                        ) && chain_statements(b.else_branch) == Seq::new(
                            ms[2].else_statem->0@.len(),
                            |i: int| ms[2].else_statem->0@[i].message->0@,
                        ),
                        Message::Node(_) => false,
                    },
                    None => false,
                },
                Message::BranchingNode(_) => false,
            },
            _ => false,
        },
{
    let rest = ms.subrange(1, ms.len() as int);
    assert(rest[0] == ms[1] && rest[1] == ms[2]);
    lemma_branch_arms_keep_all_records(rest);
    assert(first_result(ms[0]) == leaf_result(ms[0]));
}

} // verus!
