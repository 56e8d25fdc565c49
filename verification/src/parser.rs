//! The records of a trace, as read from its JSON file.

use vstd::prelude::*;

verus! {

/// One record of a process trace.  A record with a `message` is a message
/// sent or received on a pair of channels; a record without one belongs to
/// a branch and carries the records of its `if` arm, its `else` arm, or both.
#[derive(Debug)]
pub struct ParserNode {
    pub send_channel: Option<String>,
    pub receive_channel: Option<String>,
    pub message: Option<String>,
    pub direction: Option<String>,
    pub if_statem: Option<Vec<ParserNode>>,
    pub else_statem: Option<Vec<ParserNode>>,
}

} // verus!

verus! {

use crate::strmap::StrMap;

/// The traces that a list of entries amounts to: entries with the same
/// process name are joined in the order in which they come.
pub open spec fn merged_traces(entries: Seq<(String, Vec<ParserNode>)>) -> Map<Seq<char>, Seq<ParserNode>>
    decreases entries.len(),
{
    if entries.len() == 0 {
        Map::empty()
    } else {
        let m = merged_traces(entries.drop_last());
        let k = entries.last().0@;
        let v = entries.last().1@;
        if m.contains_key(k) {
            m.insert(k, m[k] + v)
        } else {
            m.insert(k, v)
        }
    }
}

/// Joins the entries of a trace file into one list of records per process.
pub fn merge_trace_entries(entries: Vec<(String, Vec<ParserNode>)>) -> (r: StrMap<Vec<ParserNode>>)
    ensures
        forall|k: Seq<char>| #[trigger] r@.contains_key(k) <==> merged_traces(entries@).contains_key(k),
        forall|k: Seq<char>| #[trigger] r@.contains_key(k) ==> r@[k]@ == merged_traces(entries@)[k],
{
    let ghost given = entries@;
    let mut entries = entries;
    let n = entries.len();
    let mut result: StrMap<Vec<ParserNode>> = StrMap::new();
    let mut i: usize = 0;
    while i < n
        invariant
            i <= n,
            n == entries@.len(),
            n == given.len(),
            forall|j: int| i <= j < n ==> #[trigger] entries@[j] == given[j],
            forall|k: Seq<char>|
                #[trigger] result@.contains_key(k) <==> merged_traces(given.subrange(0, i as int)).contains_key(k),
            forall|k: Seq<char>|
                #[trigger] result@.contains_key(k) ==> result@[k]@ == merged_traces(given.subrange(0, i as int))[k],
        decreases n - i,
    {
        let mut entry: (String, Vec<ParserNode>) = (String::new(), Vec::new());
        std::mem::swap(&mut entry, &mut entries[i]);
        let (key, mut value) = entry;
        proof {
            assert(given.subrange(0, i + 1).drop_last() =~= given.subrange(0, i as int));
        }
        let ghost before = result@;
        match result.remove(key.as_str()) {
            Some(mut existing) => {
                existing.append(&mut value);
                result.insert(key, existing);
            },
            None => {
                result.insert(key, value);
            },
        }
        proof {
            let m = merged_traces(given.subrange(0, i + 1));
            assert forall|k: Seq<char>| #[trigger] result@.contains_key(k) <==> m.contains_key(k) by {}
            assert forall|k: Seq<char>| #[trigger] result@.contains_key(k) implies result@[k]@ == m[k] by {}
        }
        i = i + 1;
    }
    assert(given.subrange(0, n as int) =~= given);
    result
}

/// A process has a trace exactly when some entry carries its name.
pub proof fn lemma_merged_names(entries: Seq<(String, Vec<ParserNode>)>, k: Seq<char>)
    ensures
        merged_traces(entries).contains_key(k) <==> exists|i: int| 0 <= i < entries.len() && (#[trigger] entries[i]).0@ == k,
    decreases entries.len(),
{
    if entries.len() > 0 {
        let prefix = entries.drop_last();
        lemma_merged_names(prefix, k);
        if exists|i: int| 0 <= i < entries.len() && (#[trigger] entries[i]).0@ == k {
            let i = choose|i: int| 0 <= i < entries.len() && (#[trigger] entries[i]).0@ == k;
            if i < entries.len() - 1 {
                assert(prefix[i].0@ == k);
            }
        }
        if merged_traces(entries).contains_key(k) && k != entries.last().0@ {
            let i = choose|i: int| 0 <= i < prefix.len() && (#[trigger] prefix[i]).0@ == k;
            assert(entries[i].0@ == k);
        }
        if merged_traces(entries).contains_key(k) && k == entries.last().0@ {
            assert(entries[entries.len() - 1].0@ == k);
        }
    }
}

/// The records of a name are those of all its entries, joined in order:
/// merging entries with distinct names keeps each entry's records as they
/// are.
pub proof fn lemma_merge_distinct_names(entries: Seq<(String, Vec<ParserNode>)>, i: int)
    requires
        crate::strmap::keys_distinct(entries),
        0 <= i < entries.len(),
    ensures
        merged_traces(entries).contains_key(entries[i].0@),
        merged_traces(entries)[entries[i].0@] == entries[i].1@,
    decreases entries.len(),
{
    let prefix = entries.drop_last();
    if i < entries.len() - 1 {
        assert forall|a: int, b: int| 0 <= a < prefix.len() && 0 <= b < prefix.len() && a != b
            implies (#[trigger] prefix[a]).0@ != (#[trigger] prefix[b]).0@ by {
            assert(prefix[a] == entries[a] && prefix[b] == entries[b]);
        }
        lemma_merge_distinct_names(prefix, i);
        assert(entries[i].0@ != entries[entries.len() - 1].0@);
    } else {
        lemma_merged_names(prefix, entries[i].0@);
        if merged_traces(prefix).contains_key(entries[i].0@) {
            let j = choose|j: int| 0 <= j < prefix.len() && (#[trigger] prefix[j]).0@ == entries[i].0@;
            assert(entries[j].0@ == entries[i].0@);
        }
    }
}

} // verus!
