//! The distinct code points of a text, collected in a `BTreeSet`, which
//! hands them back in increasing order.
use std::collections::BTreeSet;
use vstd::prelude::*;
use vstd::std_specs::cmp::OrdSpec;
use vstd::std_specs::iter::IteratorSpec;

verus! {

broadcast use {vstd::laws_cmp::group_laws_cmp, vstd::std_specs::btree::group_btree_axioms};

/// The keys that a `BTreeSet<u32>` iterator yields are in increasing order.
proof fn lemma_keys_increase(keys: Seq<&u32>)
    requires
        vstd::std_specs::btree::increasing_seq(keys),
    ensures
        forall|i: int, j: int| 0 <= i < j < keys.len() ==> *keys[i] < *keys[j],
{
    assert(vstd::laws_cmp::obeys_cmp::<u32>());
    assert(vstd::laws_cmp::obeys_cmp::<&u32>());
    vstd::std_specs::btree::axiom_increasing_seq_meaning(keys);
    assert forall|i: int, j: int| 0 <= i < j < keys.len() implies *keys[i] < *keys[j] by {
        assert(OrdSpec::cmp_spec(&keys[i], &keys[j]) is Less);
    }
}

/// `x` is the code point of some character of `text`.
pub open spec fn is_code_point_of(x: u32, text: Seq<char>) -> bool {
    exists|k: int| 0 <= k < text.len() && #[trigger] text[k] as u32 == x
}

/// The code points of the characters of `text`, each once, in increasing
/// order.
pub fn distinct_code_points(text: &str) -> (v: Vec<u32>)
    ensures
        forall|i: int, j: int| 0 <= i < j < v@.len() ==> v@[i] < v@[j],
        forall|x: u32| v@.contains(x) <==> is_code_point_of(x, text@),
{
    let mut set: BTreeSet<u32> = BTreeSet::new();
    for c in it: text.chars()
        invariant
            it.seq() == text@,
            forall|x: u32|
                set@.contains(x) <==> is_code_point_of(x, text@.take(it.index() as int)),
    {
        let ghost k = it.index() as int;
        let ghost seen = text@.take(k);
        let ghost now = text@.take(k + 1);
        set.insert(c as u32);
        assert forall|x: u32| set@.contains(x) <==> is_code_point_of(x, now) by {
            if is_code_point_of(x, seen) {
                let m = choose|m: int| 0 <= m < seen.len() && #[trigger] seen[m] as u32 == x;
                assert(now[m] as u32 == x);
            }
            if x == c as u32 {
                assert(now[k] == c);
                assert(now[k] as u32 == x);
            }
            if is_code_point_of(x, now) && x != c as u32 {
                let m = choose|m: int| 0 <= m < now.len() && #[trigger] now[m] as u32 == x;
                assert(m != k);
                assert(seen[m] as u32 == x);
            }
        }
    }
    assert(text@.take(text@.len() as int) =~= text@);
    let mut v: Vec<u32> = Vec::new();
    let ghost keys = vstd::std_specs::btree::spec_btree_keys_iter(&set).remaining();
    for x in it: set.iter()
        invariant
            it.seq() == keys,
            keys == vstd::std_specs::btree::spec_btree_keys_iter(&set).remaining(),
            v@ == it.seq().take(it.index() as int).unref(),
    {
        v.push(*x);
        assert(v@ =~= it.seq().take(it.index() + 1).unref());
    }
    assert(keys.take(keys.len() as int) =~= keys);
    assert(v@ =~= keys.unref());
    assert(v@.to_set() == set@);
    assert(forall|x: u32| v@.contains(x) <==> v@.to_set().contains(x));
    proof {
        lemma_keys_increase(keys);
    }
    v
}

} // verus!
