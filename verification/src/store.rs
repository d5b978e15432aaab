//! The replica state store: the command log, the dictionary, the pre-accept
//! reply buffers, the accept counters and the executed set, held as
//! association lists with unique keys and viewed as mathematical maps.

use vstd::prelude::*;
use crate::types::{Instance, ins_keys_unique, ins_map_of};

verus! {

/// Entries of an instance-keyed association list, as the map its seq stands
/// for. A later entry for the same key wins.
pub proof fn lemma_ins_map_index<V>(s: Seq<(Instance, V)>, i: int)
    requires
        ins_keys_unique(s),
        0 <= i < s.len(),
    ensures
        ins_map_of(s).contains_key(s[i].0),
        ins_map_of(s)[s[i].0] == s[i].1,
    decreases s.len(),
{
    if i == s.len() - 1 {
    } else {
        assert(s.drop_last()[i] == s[i]);
        lemma_ins_map_index(s.drop_last(), i);
        assert(s[i].0 != s[s.len() - 1].0);
    }
}

/// Every key of the map stands somewhere in the list.
pub proof fn lemma_ins_map_key_has_index<V>(s: Seq<(Instance, V)>, k: Instance)
    requires
        ins_map_of(s).contains_key(k),
    ensures
        exists|i: int| 0 <= i < s.len() && (#[trigger] s[i]).0 == k,
    decreases s.len(),
{
    if s.len() > 0 {
        if s.last().0 == k {
            assert(s[s.len() - 1].0 == k);
        } else {
            lemma_ins_map_key_has_index(s.drop_last(), k);
            let j = choose|i: int| 0 <= i < s.drop_last().len() && (#[trigger] s.drop_last()[i]).0 == k;
            assert(s[j].0 == k);
        }
    }
}

/// Updating the entry that holds a key is insertion into the map.
pub proof fn lemma_ins_map_update<V>(s: Seq<(Instance, V)>, i: int, v: V)
    requires
        ins_keys_unique(s),
        0 <= i < s.len(),
    ensures
        ins_map_of(s.update(i, (s[i].0, v))) == ins_map_of(s).insert(s[i].0, v),
    decreases s.len(),
{
    let k = s[i].0;
    let t = s.update(i, (k, v));
    if i == s.len() - 1 {
        assert(t.drop_last() =~= s.drop_last());
        assert(ins_map_of(t) =~= ins_map_of(s).insert(k, v));
    } else {
        assert(t.drop_last() =~= s.drop_last().update(i, (k, v)));
        assert(s.drop_last()[i] == s[i]);
        lemma_ins_map_update(s.drop_last(), i, v);
        assert(s[i].0 != s[s.len() - 1].0);
        assert(t.last() == s.last());
        assert(ins_map_of(t) =~= ins_map_of(s).insert(k, v));
    }
}

/// Pushing a fresh entry is insertion into the map.
pub proof fn lemma_ins_map_push<V>(s: Seq<(Instance, V)>, k: Instance, v: V)
    ensures
        ins_map_of(s.push((k, v))) == ins_map_of(s).insert(k, v),
{
    assert(s.push((k, v)).drop_last() =~= s);
    assert(ins_map_of(s.push((k, v))) =~= ins_map_of(s).insert(k, v));
}

/// Look a key up in an instance-keyed association list.
pub fn ins_get<'a, V>(s: &'a Vec<(Instance, V)>, k: Instance) -> (r: Option<&'a V>)
    requires
        ins_keys_unique(s@),
    ensures
        match r {
            Some(v) => ins_map_of(s@).contains_key(k) && *v == ins_map_of(s@)[k],
            None => !ins_map_of(s@).contains_key(k),
        },
{
    let n = s.len();
    for i in 0..n
        invariant
            n == s@.len(),
            ins_keys_unique(s@),
            forall|j: int| 0 <= j < i ==> (#[trigger] s@[j]).0 != k,
    {
        if s[i].0 == k {
            proof {
                lemma_ins_map_index(s@, i as int);
            }
            return Some(&s[i].1);
        }
    }
    proof {
        if ins_map_of(s@).contains_key(k) {
            lemma_ins_map_key_has_index(s@, k);
        }
    }
    None
}

/// Bind a key to a value in an instance-keyed association list, replacing any
/// earlier binding.
pub fn ins_set<V>(s: &mut Vec<(Instance, V)>, k: Instance, v: V)
    requires
        ins_keys_unique(old(s)@),
    ensures
        ins_keys_unique(final(s)@),
        ins_map_of(final(s)@) == ins_map_of(old(s)@).insert(k, v),
        !ins_map_of(old(s)@).contains_key(k) ==> final(s)@ == old(s)@.push((k, v)),
{
    let n = s.len();
    for i in 0..n
        invariant
            n == s@.len(),
            s@ == old(s)@,
            ins_keys_unique(s@),
            forall|j: int| 0 <= j < i ==> (#[trigger] s@[j]).0 != k,
    {
        if s[i].0 == k {
            proof {
                lemma_ins_map_update(s@, i as int, v);
                lemma_ins_map_index(s@, i as int);
            }
            s.set(i, (k, v));
            proof {
                assert(forall|a: int, b: int|
                    0 <= a < b < s@.len() ==> (#[trigger] s@[a]).0 != (#[trigger] s@[b]).0);
            }
            return ;
        }
    }
    proof {
        lemma_ins_map_push(s@, k, v);
    }
    s.push((k, v));
}

/// Removing the entry that holds a key removes the key from the map.
pub proof fn lemma_ins_map_remove<V>(s: Seq<(Instance, V)>, i: int)
    requires
        ins_keys_unique(s),
        0 <= i < s.len(),
    ensures
        ins_keys_unique(s.remove(i)),
        ins_map_of(s.remove(i)) == ins_map_of(s).remove(s[i].0),
    decreases s.len(),
{
    let k = s[i].0;
    let t = s.remove(i);
    assert(forall|x: int| 0 <= x < i ==> t[x] == s[x]);
    assert(forall|x: int| i <= x < t.len() ==> t[x] == s[x + 1]);
    assert forall|a: int, b: int| 0 <= a < b < t.len() implies (#[trigger] t[a]).0
        != (#[trigger] t[b]).0 by {
        let sa: int = if a < i {
            a
        } else {
            a + 1
        };
        let sb: int = if b < i {
            b
        } else {
            b + 1
        };
        assert(t[a] == s[sa] && t[b] == s[sb]);
    }
    if i == s.len() - 1 {
        assert(t =~= s.drop_last());
        if ins_map_of(t).contains_key(k) {
            lemma_ins_map_key_has_index(t, k);
        }
        assert(ins_map_of(t) =~= ins_map_of(s).remove(k));
    } else {
        assert(t.drop_last() =~= s.drop_last().remove(i));
        assert(s.drop_last()[i] == s[i]);
        lemma_ins_map_remove(s.drop_last(), i);
        assert(t.last() == s.last());
        assert(s[i].0 != s[s.len() - 1].0);
        assert(ins_map_of(t) =~= ins_map_of(s).remove(k));
    }
}

/// Remove a key's binding from an instance-keyed association list and hand
/// the value out.
pub fn ins_take<V>(s: &mut Vec<(Instance, V)>, k: Instance) -> (r: Option<V>)
    requires
        ins_keys_unique(old(s)@),
    ensures
        ins_keys_unique(final(s)@),
        match r {
            Some(v) => ins_map_of(old(s)@).contains_key(k) && v == ins_map_of(old(s)@)[k]
                && ins_map_of(final(s)@) == ins_map_of(old(s)@).remove(k),
            None => !ins_map_of(old(s)@).contains_key(k) && final(s)@ == old(s)@,
        },
{
    let n = s.len();
    for i in 0..n
        invariant
            n == s@.len(),
            s@ == old(s)@,
            ins_keys_unique(s@),
            forall|j: int| 0 <= j < i ==> (#[trigger] s@[j]).0 != k,
    {
        if s[i].0 == k {
            proof {
                lemma_ins_map_index(s@, i as int);
                lemma_ins_map_remove(s@, i as int);
            }
            let p = s.remove(i);
            return Some(p.1);
        }
    }
    proof {
        if ins_map_of(s@).contains_key(k) {
            lemma_ins_map_key_has_index(s@, k);
        }
    }
    None
}

/// With unique keys, the map has exactly one entry per list element.
pub proof fn lemma_ins_map_dom_len<V>(s: Seq<(Instance, V)>)
    requires
        ins_keys_unique(s),
    ensures
        ins_map_of(s).dom().finite(),
        ins_map_of(s).dom().len() == s.len(),
    decreases s.len(),
{
    if s.len() > 0 {
        lemma_ins_map_dom_len(s.drop_last());
        if ins_map_of(s.drop_last()).contains_key(s.last().0) {
            lemma_ins_map_key_has_index(s.drop_last(), s.last().0);
        }
        assert(ins_map_of(s).dom() =~= ins_map_of(s.drop_last()).dom().insert(s.last().0));
    }
}

/// A plain copy of a list of instances.
pub fn copy_ins_vec(v: &Vec<Instance>) -> (r: Vec<Instance>)
    ensures
        r@ == v@,
{
    let mut r: Vec<Instance> = Vec::new();
    let n = v.len();
    for i in 0..n
        invariant
            n == v@.len(),
            r@ == v@.take(i as int),
    {
        r.push(v[i]);
        proof {
            assert(r@ =~= v@.take(i + 1));
        }
    }
    proof {
        assert(v@.take(n as int) =~= v@);
    }
    r
}

/// Map view of the dictionary's association list; keys and values are
/// character sequences.
pub open spec fn str_map_of(s: Seq<(String, String)>) -> Map<Seq<char>, Seq<char>>
    decreases s.len(),
{
    if s.len() == 0 {
        Map::empty()
    } else {
        str_map_of(s.drop_last()).insert(s.last().0@, s.last().1@)
    }
}

/// Whether the dictionary's association list has pairwise distinct keys.
pub open spec fn str_keys_unique(s: Seq<(String, String)>) -> bool {
    forall|i: int, j: int| 0 <= i < j < s.len() ==> (#[trigger] s[i]).0@ != (#[trigger] s[j]).0@
}

pub proof fn lemma_str_map_index(s: Seq<(String, String)>, i: int)
    requires
        str_keys_unique(s),
        0 <= i < s.len(),
    ensures
        str_map_of(s).contains_key(s[i].0@),
        str_map_of(s)[s[i].0@] == s[i].1@,
    decreases s.len(),
{
    if i == s.len() - 1 {
    } else {
        assert(s.drop_last()[i] == s[i]);
        lemma_str_map_index(s.drop_last(), i);
        assert(s[i].0@ != s[s.len() - 1].0@);
    }
}

pub proof fn lemma_str_map_key_has_index(s: Seq<(String, String)>, k: Seq<char>)
    requires
        str_map_of(s).contains_key(k),
    ensures
        exists|i: int| 0 <= i < s.len() && (#[trigger] s[i]).0@ == k,
    decreases s.len(),
{
    if s.len() > 0 {
        if s.last().0@ == k {
            assert(s[s.len() - 1].0@ == k);
        } else {
            lemma_str_map_key_has_index(s.drop_last(), k);
            let j = choose|i: int|
                0 <= i < s.drop_last().len() && (#[trigger] s.drop_last()[i]).0@ == k;
            assert(s[j].0@ == k);
        }
    }
}

pub proof fn lemma_str_map_update(s: Seq<(String, String)>, i: int, k: String, v: String)
    requires
        str_keys_unique(s),
        0 <= i < s.len(),
        k@ == s[i].0@,
    ensures
        str_map_of(s.update(i, (k, v))) == str_map_of(s).insert(k@, v@),
    decreases s.len(),
{
    let t = s.update(i, (k, v));
    if i == s.len() - 1 {
        assert(t.drop_last() =~= s.drop_last());
        assert(str_map_of(t) =~= str_map_of(s).insert(k@, v@));
    } else {
        assert(t.drop_last() =~= s.drop_last().update(i, (k, v)));
        assert(s.drop_last()[i] == s[i]);
        lemma_str_map_update(s.drop_last(), i, k, v);
        assert(s[i].0@ != s[s.len() - 1].0@);
        assert(t.last() == s.last());
        assert(str_map_of(t) =~= str_map_of(s).insert(k@, v@));
    }
}

pub proof fn lemma_str_map_push(s: Seq<(String, String)>, k: String, v: String)
    ensures
        str_map_of(s.push((k, v))) == str_map_of(s).insert(k@, v@),
{
    assert(s.push((k, v)).drop_last() =~= s);
    assert(str_map_of(s.push((k, v))) =~= str_map_of(s).insert(k@, v@));
}

/// Look a key up in the dictionary's association list.
pub fn str_get<'a>(s: &'a Vec<(String, String)>, k: &String) -> (r: Option<&'a String>)
    requires
        str_keys_unique(s@),
    ensures
        match r {
            Some(v) => str_map_of(s@).contains_key(k@) && v@ == str_map_of(s@)[k@],
            None => !str_map_of(s@).contains_key(k@),
        },
{
    let n = s.len();
    for i in 0..n
        invariant
            n == s@.len(),
            str_keys_unique(s@),
            forall|j: int| 0 <= j < i ==> (#[trigger] s@[j]).0@ != k@,
    {
        if s[i].0 == *k {
            proof {
                lemma_str_map_index(s@, i as int);
            }
            return Some(&s[i].1);
        }
    }
    proof {
        if str_map_of(s@).contains_key(k@) {
            lemma_str_map_key_has_index(s@, k@);
        }
    }
    None
}

/// Bind a key to a value in the dictionary's association list, replacing any
/// earlier binding.
pub fn str_set(s: &mut Vec<(String, String)>, k: String, v: String)
    requires
        str_keys_unique(old(s)@),
    ensures
        str_keys_unique(final(s)@),
        str_map_of(final(s)@) == str_map_of(old(s)@).insert(k@, v@),
{
    let n = s.len();
    for i in 0..n
        invariant
            n == s@.len(),
            s@ == old(s)@,
            str_keys_unique(s@),
            forall|j: int| 0 <= j < i ==> (#[trigger] s@[j]).0@ != k@,
    {
        if s[i].0 == k {
            proof {
                lemma_str_map_update(s@, i as int, k, v);
            }
            s.set(i, (k, v));
            return ;
        }
    }
    proof {
        lemma_str_map_push(s@, k, v);
    }
    s.push((k, v));
}

/// Whether a list of instances holds a given one.
pub fn ins_vec_contains(s: &Vec<Instance>, k: Instance) -> (r: bool)
    ensures
        r == s@.to_set().contains(k),
{
    let n = s.len();
    for i in 0..n
        invariant
            n == s@.len(),
            forall|j: int| 0 <= j < i ==> s@[j] != k,
    {
        if s[i] == k {
            assert(s@.contains(k));
            return true;
        }
    }
    proof {
        if s@.to_set().contains(k) {
            let j = choose|j: int| 0 <= j < s@.len() && s@[j] == k;
        }
    }
    false
}

/// Add an instance to a set held as a list, if it is not already there.
pub fn ins_vec_add(s: &mut Vec<Instance>, k: Instance)
    ensures
        final(s)@.to_set() == old(s)@.to_set().insert(k),
        old(s)@.no_duplicates() ==> final(s)@.no_duplicates(),
{
    broadcast use vstd::seq_lib::group_seq_lib_default;

    if !ins_vec_contains(s, k) {
        s.push(k);
        proof {
            assert(s@ == old(s)@.push(k));
            old(s)@.lemma_push_to_set_commute(k);
        }
    } else {
        proof {
            assert(s@.to_set() =~= old(s)@.to_set().insert(k));
        }
    }
}

} // verus!
