//! The decisions of the program around the library's core: which channel
//! mapping belongs to which world, and how the simulator's variables are
//! renamed in the final diagram.

use vstd::prelude::*;
use vstd::string::*;
use crate::protocol::{ProtocolMap, ProtocolType};
use crate::strings::{replace_all, replace_all_spec};
use crate::strmap::StrMap;

verus! {

/// Picks the channel mapping of each world from the query file: `realw` is
/// the real world, `idealw` the ideal world, where the adversary's channel
/// `a` is always mapped to the simulator `sim`.  Other entries are ignored.
pub fn queries_by_protocol(queries_list: StrMap<StrMap<String>>) -> (r: ProtocolMap<StrMap<String>>)
    ensures
        r.lookup(ProtocolType::Real) == (if queries_list@.contains_key("realw"@) {
            Some(queries_list@["realw"@])
        } else {
            None::<StrMap<String>>
        }),
        r.lookup(ProtocolType::Ideal) is Some <==> queries_list@.contains_key("idealw"@),
        r.lookup(ProtocolType::Ideal) matches Some(m) ==> m@.contains_key("a"@) && m@["a"@]@ == "sim"@
            && m@.remove("a"@) == queries_list@["idealw"@]@.remove("a"@),
{
    let mut list = queries_list;
    let mut result: ProtocolMap<StrMap<String>> = ProtocolMap::new();
    let ghost given = list@;
    let real_entry = list.remove("realw");
    match real_entry {
        Some(values) => {
            result.insert(ProtocolType::Real, values);
        },
        None => {},
    }
    proof {
        reveal_strlit("idealw");
        reveal_strlit("realw");
        assert("realw"@.len() != "idealw"@.len());
    }
    let ideal = list.remove("idealw");
    match ideal {
        Some(values) => {
            let mut values = values;
            let ghost before = values@;
            values.insert(String::from_str("a"), String::from_str("sim"));
            assert(values@.remove("a"@) =~= before.remove("a"@));
            result.insert(ProtocolType::Ideal, values);
        },
        None => {},
    }
    result
}

/// One step of pairing simulator variables with real-world variables: the
/// ideal-world variable `ideal_var` is renamed to the real-world variable
/// `real_var` when both hold the same value, they differ, and `real_var`
/// has not been renamed to yet.
pub open spec fn pair_step(m: Map<Seq<char>, String>, real_var: String, real_value: String, ideal_var: String, ideal_value: String) -> Map<Seq<char>, String> {
    if real_value@ == ideal_value@ && ideal_var@ != real_var@ && !m.contains_key(real_var@) {
        m.insert(ideal_var@, real_var)
    } else {
        m
    }
}

/// All steps for one real-world variable, over the ideal-world variables in
/// order.
pub open spec fn pair_with_ideal(m: Map<Seq<char>, String>, real_var: String, real_value: String, ideal: Seq<(String, String)>) -> Map<Seq<char>, String>
    decreases ideal.len(),
{
    if ideal.len() == 0 {
        m
    } else {
        pair_step(pair_with_ideal(m, real_var, real_value, ideal.drop_last()), real_var, real_value, ideal.last().0, ideal.last().1)
    }
}

/// All steps, over the real-world variables in order.
pub open spec fn variable_pairing(real_vars: Seq<(String, String)>, ideal: Seq<(String, String)>) -> Map<Seq<char>, String>
    decreases real_vars.len(),
{
    if real_vars.len() == 0 {
        Map::empty()
    } else {
        pair_with_ideal(variable_pairing(real_vars.drop_last(), ideal), real_vars.last().0, real_vars.last().1, ideal)
    }
}

/// Pairs the ideal-world variables with the real-world variables that hold
/// the same values.
pub fn pair_variables(real_vars: &StrMap<String>, ideal: &StrMap<String>) -> (r: StrMap<String>)
    ensures
        r@ == variable_pairing(real_vars.pairs(), ideal.pairs()),
{
    let n = real_vars.len();
    let m = ideal.len();
    let ghost rp = real_vars.pairs();
    let ghost ip = ideal.pairs();
    let mut result: StrMap<String> = StrMap::new();
    let mut i: usize = 0;
    while i < n
        invariant
            i <= n,
            n == rp.len(),
            m == ip.len(),
            rp == real_vars.pairs(),
            ip == ideal.pairs(),
            result@ == variable_pairing(rp.subrange(0, i as int), ip),
        decreases n - i,
    {
        let real_var = real_vars.key_at(i);
        let real_value = real_vars.value_at(i);
        let ghost start = result@;
        let mut j: usize = 0;
        while j < m
            invariant
                j <= m,
                m == ip.len(),
                ip == ideal.pairs(),
                i < n,
                n == rp.len(),
                rp == real_vars.pairs(),
                *real_var == rp[i as int].0,
                *real_value == rp[i as int].1,
                result@ == pair_with_ideal(start, rp[i as int].0, rp[i as int].1, ip.subrange(0, j as int)),
            decreases m - j,
        {
            let ideal_var = ideal.key_at(j);
            let ideal_value = ideal.value_at(j);
            proof {
                assert(ip.subrange(0, j + 1).drop_last() =~= ip.subrange(0, j as int));
            }
            if *real_value == *ideal_value && !(*ideal_var == *real_var) && !result.contains_key(real_var.as_str()) {
                result.insert(ideal_var.clone(), real_var.clone());
            }
            j = j + 1;
        }
        proof {
            assert(ip.subrange(0, m as int) =~= ip);
            assert(rp.subrange(0, i + 1).drop_last() =~= rp.subrange(0, i as int));
        }
        i = i + 1;
    }
    assert(rp.subrange(0, n as int) =~= rp);
    result
}

/// The text after each renaming, in the order of the pairs, of an ideal
/// variable whose name starts with `x` to its real-world variable.
pub open spec fn renamed_text(text: Seq<char>, renames: Seq<(String, String)>) -> Seq<char>
    decreases renames.len(),
{
    if renames.len() == 0 {
        text
    } else {
        let before = renamed_text(text, renames.drop_last());
        let from = renames.last().0@;
        if from.len() > 0 && from[0] == 'x' {
            replace_all_spec(before, from, renames.last().1@)
        } else {
            before
        }
    }
}

/// Renames, in the diagram text, each simulator variable whose name starts
/// with `x` to the real-world variable it is paired with.
pub fn rename_simulator_variables(text: String, renames: &StrMap<String>) -> (r: String)
    ensures
        r@ == renamed_text(text@, renames.pairs()),
{
    let n = renames.len();
    let ghost rp = renames.pairs();
    let mut result = text;
    let ghost given = result@;
    let mut i: usize = 0;
    while i < n
        invariant
            i <= n,
            n == rp.len(),
            rp == renames.pairs(),
            result@ == renamed_text(given, rp.subrange(0, i as int)),
        decreases n - i,
    {
        let from = renames.key_at(i);
        let to = renames.value_at(i);
        proof {
            assert(rp.subrange(0, i + 1).drop_last() =~= rp.subrange(0, i as int));
        }
        let len = from.as_str().unicode_len();
        if len > 0 && from.as_str().get_char(0) == 'x' {
            result = replace_all(result.as_str(), from.as_str(), to.as_str());
        }
        i = i + 1;
    }
    assert(rp.subrange(0, n as int) =~= rp);
    result
}

/// Renamings of variables whose names do not start with `x` leave the text
/// as it is.
pub proof fn lemma_rename_only_x(text: Seq<char>, renames: Seq<(String, String)>)
    requires
        forall|i: int| 0 <= i < renames.len() ==> !((#[trigger] renames[i]).0@.len() > 0 && renames[i].0@[0] == 'x'),
    ensures
        renamed_text(text, renames) == text,
    decreases renames.len(),
{
    if renames.len() > 0 {
        let prefix = renames.drop_last();
        assert forall|i: int| 0 <= i < prefix.len() implies !((#[trigger] prefix[i]).0@.len() > 0 && prefix[i].0@[0] == 'x') by {
            assert(prefix[i] == renames[i]);
        }
        lemma_rename_only_x(text, prefix);
        assert(!(renames[renames.len() - 1].0@.len() > 0 && renames[renames.len() - 1].0@[0] == 'x'));
    }
}

} // verus!
