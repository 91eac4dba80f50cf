//! Counters keyed by a code.
use std::collections::BTreeMap;
use vstd::prelude::*;
use vstd::std_specs::cmp::OrdSpec;
use vstd::std_specs::iter::IteratorSpec;

verus! {

/// The number that a counter holds for a code, 0 where it holds none.
pub open spec fn count_of(m: Map<u32, u32>, code: u32) -> u32 {
    if m.contains_key(code) {
        m[code]
    } else {
        0
    }
}

/// The counter with one added to the count of `code`.
pub open spec fn bumped(m: Map<u32, u32>, code: u32) -> Map<u32, u32> {
    m.insert(code, (count_of(m, code) + 1) as u32)
}

/// Adds one to the count of `code`.
pub fn bump(counts: &mut BTreeMap<u32, u32>, code: u32)
    requires
        count_of(old(counts)@, code) < u32::MAX,
    ensures
        final(counts)@ == bumped(old(counts)@, code),
{
    broadcast use vstd::std_specs::btree::group_btree_axioms;
    broadcast use vstd::laws_cmp::group_laws_cmp;

    let n: u32 = match counts.get(&code) {
        Some(v) => *v,
        None => 0,
    };
    counts.insert(code, n + 1);
}

/// The number that a counter holds for a code.
pub fn lookup(counts: &BTreeMap<u32, u32>, code: u32) -> (r: u32)
    ensures
        r == count_of(counts@, code),
{
    broadcast use vstd::std_specs::btree::group_btree_axioms;
    broadcast use vstd::laws_cmp::group_laws_cmp;

    match counts.get(&code) {
        Some(v) => *v,
        None => 0,
    }
}

/// Sets the number that a counter holds for a code.
pub fn put_count(counts: &mut BTreeMap<u32, u32>, code: u32, n: u32)
    ensures
        final(counts)@ == old(counts)@.insert(code, n),
{
    broadcast use vstd::std_specs::btree::group_btree_axioms;
    broadcast use vstd::laws_cmp::group_laws_cmp;

    counts.insert(code, n);
}

/// The counter with one added to the count of `key`, which stops at the largest number.
pub open spec fn byte_bumped(m: Map<u8, u32>, key: u8) -> Map<u8, u32> {
    let n = if m.contains_key(key) {
        m[key]
    } else {
        0
    };
    m.insert(
        key,
        if n < u32::MAX {
            (n + 1) as u32
        } else {
            n
        },
    )
}

/// Adds one to the count of `key`.
pub fn bump_byte(counts: &mut BTreeMap<u8, u32>, key: u8)
    ensures
        final(counts)@ == byte_bumped(old(counts)@, key),
{
    broadcast use vstd::std_specs::btree::group_btree_axioms;
    broadcast use vstd::laws_cmp::group_laws_cmp;

    let n: u32 = match counts.get(&key) {
        Some(v) => *v,
        None => 0,
    };
    counts.insert(
        key,
        if n < u32::MAX {
            n + 1
        } else {
            n
        },
    );
}

/// The keys of a map, in ascending order.
pub fn sorted_keys(m: &BTreeMap<u32, u32>) -> (r: Vec<u32>)
    ensures
        forall|i: int, j: int| 0 <= i < j < r.len() ==> r[i] < r[j],
        forall|k: u32| r@.contains(k) <==> m@.contains_key(k),
{
    broadcast use vstd::std_specs::btree::group_btree_axioms;
    broadcast use vstd::laws_cmp::group_laws_cmp;

    let mut out: Vec<u32> = Vec::new();
    let entries = m.iter();
    let ghost all = entries.remaining();
    let ghost keys = all.map_values(|kv: (&u32, &u32)| *kv.0);
    for kv in it: entries
        invariant
            it.seq() == all,
            keys == all.map_values(|kv: (&u32, &u32)| *kv.0),
            out@ == keys.take(it.index()),
    {
        out.push(*kv.0);
    }
    proof {
        assert(out@ =~= keys);
        assert forall|k: u32| out@.contains(k) <==> m@.contains_key(k) by {
            if m@.contains_key(k) {
                assert(all.contains((&k, &m@[k])));
                let i = choose|i: int| 0 <= i < all.len() && all[i] == (&k, &m@[k]);
                assert(keys[i] == k);
            }
            if out@.contains(k) {
                let i = choose|i: int| 0 <= i < out.len() && out[i] == k;
                assert(m@.contains_key(*all[i].0));
            }
        }
        assert(vstd::std_specs::btree::increasing_seq(keys));
        assert forall|i: int, j: int| 0 <= i < j < out.len() implies out[i] < out[j] by {
            assert(keys[i].cmp_spec(&keys[j]) is Less);
        }
    }
    out
}

/// The number that a counter holds for a byte, if it holds one.
pub fn lookup_byte(counts: &BTreeMap<u8, u32>, key: u8) -> (r: Option<u32>)
    ensures
        match r {
            Some(n) => counts@.contains_key(key) && counts@[key] == n,
            None => !counts@.contains_key(key),
        },
{
    broadcast use vstd::std_specs::btree::group_btree_axioms;
    broadcast use vstd::laws_cmp::group_laws_cmp;

    match counts.get(&key) {
        Some(v) => Some(*v),
        None => None,
    }
}

} // verus!
