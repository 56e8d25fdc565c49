//! Builds message trees from recorded protocol traces, merges the trees of
//! all processes into the order in which their messages are exchanged, and
//! renders the result as a sequence diagram for sequencediagram.org.

pub mod strings;
pub mod utils;
pub mod strmap;
pub mod parser;
pub mod protocol;
pub mod tree;
pub mod visit;
pub mod branches;
pub mod report;

pub use branches::{BranchError, insert_branches, try_insert_branches};
pub use parser::{ParserNode, merge_trace_entries};
pub use protocol::{ProtocolMap, ProtocolType};
pub use report::{pair_variables, queries_by_protocol, rename_simulator_variables};
pub use strmap::StrMap;
pub use tree::{BranchingNode, Direction, Message, Node, Process, TreeError, processes_from_traces};
pub use utils::output_cleaner;
pub use visit::{VisitError, try_visit_in_order, visit_in_order};
