//! The keys of a hash map, collected once each.
use vstd::prelude::*;
use std::collections::HashMap;
use vstd::std_specs::hash::spec_keys_iter;
use vstd::std_specs::iter::IteratorSpec;

verus! {

proof fn lemma_keys_complete<K>(sq: Seq<&K>, dom: Set<K>, r: Seq<K>, idx: int)
    requires
        sq.unref().to_set() == dom,
        sq.no_duplicates(),
        0 <= idx <= sq.len(),
        r == sq.take(idx).unref(),
    ensures
        idx == sq.len() ==> r.no_duplicates() && (forall|k: K| dom.contains(k) <==> #[trigger] r.contains(k)),
{
    if idx == sq.len() {
        assert(sq.take(idx) =~= sq);
        assert forall|k: K| dom.contains(k) <==> #[trigger] r.contains(k) by {
            assert(sq.unref().to_set().contains(k) <==> sq.unref().contains(k));
        }
        assert forall|a: int, b: int| 0 <= a < b < r.len() implies r[a] != r[b] by {
            assert(sq[a] != sq[b]);
        }
    }
}

/// The keys of a map, each once.
pub fn keys_of<K: Copy, V>(m: &HashMap<K, V>) -> (r: Vec<K>)
    requires
        vstd::std_specs::hash::obeys_key_model::<K>(),
    ensures
        r@.no_duplicates(),
        forall|k: K| m@.contains_key(k) <==> #[trigger] r@.contains(k),
{
    let mut r: Vec<K> = Vec::new();
    proof {
        vstd::std_specs::hash::axiom_spec_keys_iter(m);
    }
    for k in it: m.keys()
        invariant
            it.seq() == spec_keys_iter(m).remaining(),
            spec_keys_iter(m).remaining().unref().to_set() == m@.dom(),
            spec_keys_iter(m).remaining().no_duplicates(),
            r@ == it.seq().take(it.index()).unref(),
            it.index() == it.seq().len() ==> r@.no_duplicates() && (forall|k: K| m@.contains_key(k) <==> #[trigger] r@.contains(k)),
    {
        r.push(*k);
        proof {
            assert(r@ =~= it.seq().take(it.index() + 1).unref());
            lemma_keys_complete(it.seq(), m@.dom(), r@, it.index() + 1);
        }
    }
    r
}

} // verus!
