//! Traces of words: each distinct word is numbered by its first
//! appearance, and the numbered trace goes through the histogram pass.
use vstd::prelude::*;
use std::collections::HashMap;
use crate::histogram::Histogram;
use crate::scan::{run_pass, hist_matches, histograms_of, valid_trace};
use crate::pass_laws::{renamed, injective_on, renamed_key, law_renaming_renames_histograms};
use crate::trace::word_texts;
use crate::frequency::{
    get_single_frequencies, get_joint_frequencies, single_frequency, joint_frequency, table_excess,
    joint_computable,
};
use crate::affinity::{Node, get_affinities, affinity_list, pairs_have_singles, lemma_nodes_of_members, forward_node, backward_node};
use crate::pair::{code_first, code_second};

verus! {

/// The distinct words of a trace of words, in order of first appearance.
pub open spec fn dictionary(trace: Seq<(usize, Seq<char>)>) -> Seq<Seq<char>>
    decreases trace.len(),
{
    if trace.len() == 0 {
        Seq::empty()
    } else {
        let d = dictionary(trace.drop_last());
        if d.contains(trace.last().1) {
            d
        } else {
            d.push(trace.last().1)
        }
    }
}

/// Position of `w` in a sequence without duplicates that holds it.
pub open spec fn position(d: Seq<Seq<char>>, w: Seq<char>) -> int {
    choose|i: int| 0 <= i < d.len() && d[i] == w
}

/// The trace with each word replaced by its position in the dictionary.
pub open spec fn numbered(trace: Seq<(usize, Seq<char>)>) -> Seq<(usize, usize)> {
    Seq::new(trace.len(), |i: int| (trace[i].0, position(dictionary(trace), trace[i].1) as usize))
}

/// The words of a dictionary, as character sequences.
pub open spec fn word_views(d: Seq<String>) -> Seq<Seq<char>> {
    d.map_values(|s: String| s@)
}

proof fn lemma_dictionary(trace: Seq<(usize, Seq<char>)>, n: int)
    requires
        0 <= n <= trace.len(),
    ensures
        dictionary(trace).no_duplicates(),
        dictionary(trace.take(n)).len() <= dictionary(trace).len(),
        dictionary(trace.take(n)) == dictionary(trace).take(dictionary(trace.take(n)).len() as int),
        forall|i: int| 0 <= i < trace.len() ==> dictionary(trace).contains(#[trigger] trace[i].1),
        dictionary(trace).len() <= trace.len(),
    decreases trace.len(),
{
    if trace.len() == 0 {
        assert(trace.take(n) =~= trace);
    } else {
        let p = trace.drop_last();
        if n == trace.len() {
            assert(trace.take(n) =~= trace);
            lemma_dictionary(p, 0);
        } else {
            lemma_dictionary(p, n);
            assert(p.take(n) =~= trace.take(n));
        }
        let d = dictionary(p);
        assert forall|i: int| 0 <= i < trace.len() implies dictionary(trace).contains(#[trigger] trace[i].1) by {
            if i < p.len() {
                assert(p[i] == trace[i]);
                assert(d.contains(p[i].1));
                if !d.contains(trace.last().1) {
                    let k = choose|k: int| 0 <= k < d.len() && d[k] == p[i].1;
                    assert(dictionary(trace)[k] == p[i].1);
                }
            } else {
                if !d.contains(trace.last().1) {
                    assert(dictionary(trace)[d.len() as int] == trace.last().1);
                }
            }
        }
        if n < trace.len() {
            let dn = dictionary(trace.take(n));
            assert(dn == d.take(dn.len() as int));
            assert(dictionary(trace).take(dn.len() as int) =~= d.take(dn.len() as int));
        }
    }
}

/// Numbers the words of a trace of words by first appearance and builds
/// the histograms of the numbered trace; also returns the dictionary that
/// the numbers index.
pub fn get_histograms_words(trace: &Vec<(usize, String)>) -> (r: (
    Vec<String>,
    HashMap<usize, Histogram>,
    HashMap<u128, Histogram>,
    HashMap<u128, Histogram>,
    HashMap<u128, Histogram>,
))
    requires
        valid_trace(numbered(word_texts(trace@))),
        4 * (trace.len() + 1) < usize::MAX,
    ensures
        word_views(r.0@) == dictionary(word_texts(trace@)),
        forall|i: int| 0 <= i < trace.len() ==> {
            &&& 0 <= #[trigger] numbered(word_texts(trace@))[i].1 < r.0@.len()
            &&& r.0@[numbered(word_texts(trace@))[i].1 as int]@ == trace@[i].1@
        },
        hist_matches(r.1@, histograms_of(numbered(word_texts(trace@))).reuse, trace.len() as nat),
        hist_matches(r.2@, histograms_of(numbered(word_texts(trace@))).switch, trace.len() as nat),
        hist_matches(r.3@, histograms_of(numbered(word_texts(trace@))).inter, trace.len() as nat),
        hist_matches(r.4@, histograms_of(numbered(word_texts(trace@))).joint, trace.len() as nat),
{
    let ghost wt = word_texts(trace@);
    let ghost full = dictionary(wt);
    let mut dict: Vec<String> = Vec::new();
    let mut ids: Vec<(usize, usize)> = Vec::new();
    let mut i: usize = 0;
    proof {
        lemma_dictionary(wt, 0);
        assert(wt.take(0) =~= Seq::<(usize, Seq<char>)>::empty());
        assert(word_views(dict@) =~= Seq::<Seq<char>>::empty());
    }
    while i < trace.len()
        invariant
            i <= trace.len(),
            wt == word_texts(trace@),
            full == dictionary(wt),
            full.no_duplicates(),
            word_views(dict@) == dictionary(wt.take(i as int)),
            ids@ == numbered(wt).take(i as int),
        decreases trace.len() - i,
    {
        let entry = &trace[i];
        let ghost w = entry.1@;
        proof {
            assert(wt[i as int] == (entry.0, w));
        }
        let mut k: usize = 0;
        while k < dict.len() && !(dict[k] == entry.1)
            invariant
                k <= dict.len(),
                forall|y: int| 0 <= y < k ==> dict@[y]@ != w,
                w == entry.1@,
            decreases dict.len() - k,
        {
            k = k + 1;
        }
        let ghost old_dict = dict@;
        if k == dict.len() {
            dict.push(entry.1.clone());
        }
        proof {
            let pre = wt.take(i as int);
            assert(wt.take(i + 1).drop_last() =~= pre);
            assert(wt.take(i + 1).last() == wt[i as int]);
            let d0 = dictionary(pre);
            assert(d0 == word_views(old_dict));
            if k == old_dict.len() {
                assert(!d0.contains(w)) by {
                    if d0.contains(w) {
                        let y = choose|y: int| 0 <= y < d0.len() && d0[y] == w;
                        assert(word_views(old_dict)[y] == old_dict[y]@);
                    }
                }
                assert(word_views(dict@) =~= d0.push(w));
            } else {
                assert(d0[k as int] == w);
                assert(d0.contains(w));
                assert(word_views(dict@) =~= d0);
            }
            lemma_dictionary(wt, i + 1);
            let d1 = dictionary(wt.take(i + 1));
            assert(d1[k as int] == w);
            assert(full[k as int] == w);
            assert(position(full, w) == k);
        }
        ids.push((entry.0, k));
        i = i + 1;
        proof {
            assert(ids@ =~= numbered(wt).take(i as int));
        }
    }
    proof {
        assert(wt.take(i as int) =~= wt);
        assert(ids@ =~= numbered(wt));
        lemma_dictionary(wt, 0);
        assert forall|j: int| 0 <= j < trace.len() implies {
            &&& 0 <= #[trigger] numbered(wt)[j].1 < dict@.len()
            &&& dict@[numbered(wt)[j].1 as int]@ == trace@[j].1@
        } by {
            assert(wt[j] == (trace@[j].0, trace@[j].1@));
            assert(full.contains(wt[j].1));
            let p = position(full, wt[j].1);
            assert(word_views(dict@)[p] == dict@[p]@);
        }
    }
    let (reuse, switch, inter, joint, _) = run_pass(&ids, false);
    (dict, reuse, switch, inter, joint)
}

/// Single frequencies of the words of a trace, keyed by word number (the
/// position of the word in the dictionary of `get_histograms_words`).  On
/// word numbers this is the computation of `get_single_frequencies`.
pub fn get_single_frequencies_words(
    reuse_times: &HashMap<usize, Histogram>,
    window_size: usize,
    total_windows: usize,
) -> (r: Option<HashMap<usize, usize>>)
    requires
        forall|e: usize| #[trigger] reuse_times@.contains_key(e) ==> reuse_times@[e].wf(),
    ensures
        r is Some <==> forall|e: usize| #[trigger] reuse_times@.contains_key(e) ==> table_excess(
            reuse_times@[e].table(),
            window_size as nat,
        ) <= total_windows,
        r matches Some(m) ==> {
            &&& m@.dom() == reuse_times@.dom()
            &&& forall|e: usize| #[trigger] m@.contains_key(e) ==> m@[e] == single_frequency(
                reuse_times@[e],
                window_size as nat,
                total_windows as nat,
            )
        },
{
    get_single_frequencies(reuse_times, window_size, total_windows)
}

/// Joint frequencies of the pairs of words of a trace, keyed by the
/// `pair_code` of their word numbers.  On word numbers this is the
/// computation of `get_joint_frequencies`.
pub fn get_joint_frequencies_words(
    switch_times: &HashMap<u128, Histogram>,
    joint_times: &HashMap<u128, Histogram>,
    window_size: usize,
    total_windows: usize,
) -> (r: Option<HashMap<u128, usize>>)
    requires
        forall|p: u128| #[trigger] switch_times@.contains_key(p) ==> {
            &&& switch_times@[p].wf()
            &&& joint_times@.contains_key(p)
            &&& joint_times@[p].wf()
        },
    ensures
        r is Some <==> forall|p: u128| #[trigger] switch_times@.contains_key(p) ==> joint_computable(
            switch_times@[p],
            joint_times@[p],
            window_size as nat,
            total_windows as nat,
        ),
        r matches Some(m) ==> {
            &&& m@.dom() == switch_times@.dom()
            &&& forall|p: u128| #[trigger] m@.contains_key(p) ==> m@[p] == joint_frequency(
                switch_times@[p],
                joint_times@[p],
                window_size as nat,
                total_windows as nat,
            )
        },
{
    get_joint_frequencies(switch_times, joint_times, window_size, total_windows)
}

/// An affinity node with the words its two elements number.
#[derive(Debug, Clone)]
pub struct WordNode {
    pub first: String,
    pub second: String,
    pub node: Node,
}

/// The nodes of a list of word nodes.
pub open spec fn word_nodes(v: Seq<WordNode>) -> Seq<Node> {
    v.map_values(|x: WordNode| x.node)
}

/// Every pair of `joint` numbers two words of a dictionary of `len` words.
pub open spec fn words_cover(len: nat, joint: Map<u128, usize>) -> bool {
    forall|k: u128| #[trigger] joint.contains_key(k) ==> code_first(k) < len && code_second(k) < len
}

/// The affinities of all pairs of words, highest first, each node with its
/// two words; `None` when some pair has an element without single
/// frequency (as for `get_affinities`) or numbers a word the dictionary
/// lacks.
pub fn get_affinities_words(
    dictionary: &Vec<String>,
    single_frequencies: HashMap<usize, usize>,
    joint_frequencies: HashMap<u128, usize>,
) -> (r: Option<Vec<WordNode>>)
    ensures
        r is Some <==> pairs_have_singles(single_frequencies@, joint_frequencies@) && words_cover(
            dictionary.len() as nat,
            joint_frequencies@,
        ),
        r matches Some(v) ==> {
            &&& affinity_list(word_nodes(v@), single_frequencies@, joint_frequencies@)
            &&& forall|i: int|
                0 <= i < v.len() ==> {
                    &&& (#[trigger] v@[i]).first@ == dictionary@[v@[i].node.pair.0 as int]@
                    &&& v@[i].second@ == dictionary@[v@[i].node.pair.1 as int]@
                }
        },
{
    let ghost sm = single_frequencies@;
    let ghost jm = joint_frequencies@;
    let nodes = match get_affinities(single_frequencies, joint_frequencies) {
        None => {
            return None;
        },
        Some(v) => v,
    };
    assert(affinity_list(nodes@, sm, jm));
    let ghost ks = choose|ks: Seq<u128>|
        {
            &&& ks.no_duplicates()
            &&& forall|k: u128| jm.contains_key(k) <==> #[trigger] ks.contains(k)
            &&& nodes@.to_multiset() == crate::affinity::nodes_of(ks, sm, jm).to_multiset()
        };
    proof {
        lemma_nodes_of_members(ks, sm, jm);
        nodes@.to_multiset_ensures();
        crate::affinity::nodes_of(ks, sm, jm).to_multiset_ensures();
    }
    let mut out: Vec<WordNode> = Vec::new();
    let mut i: usize = 0;
    while i < nodes.len()
        invariant
            i <= nodes.len(),
            out.len() == i,
            pairs_have_singles(sm, jm),
            sm == single_frequencies@,
            jm == joint_frequencies@,
            forall|k: u128| jm.contains_key(k) <==> #[trigger] ks.contains(k),
            nodes@.to_multiset() == crate::affinity::nodes_of(ks, sm, jm).to_multiset(),
            forall|x: int| 0 <= x < i ==> (#[trigger] out@[x]).node == nodes@[x],
            forall|x: int|
                0 <= x < i ==> {
                    &&& (#[trigger] out@[x]).first@ == dictionary@[out@[x].node.pair.0 as int]@
                    &&& out@[x].second@ == dictionary@[out@[x].node.pair.1 as int]@
                },
            forall|x: int| 0 <= x < i ==> (#[trigger] nodes@[x]).pair.0 < dictionary.len() && nodes@[x].pair.1 < dictionary.len(),
        decreases nodes.len() - i,
    {
        let n = nodes[i];
        if n.pair.0 >= dictionary.len() || n.pair.1 >= dictionary.len() {
            proof {
                lemma_nodes_of_members(ks, sm, jm);
                nodes@.to_multiset_ensures();
                crate::affinity::nodes_of(ks, sm, jm).to_multiset_ensures();
                assert(nodes@[i as int] == n);
                assert(nodes@.contains(n));
                let c = crate::affinity::nodes_of(ks, sm, jm);
                assert(nodes@.to_multiset().count(n) > 0);
                assert(c.to_multiset().count(n) > 0);
                assert(c.contains(n));
                let y = choose|y: int|
                    0 <= y < ks.len() && (n == forward_node(#[trigger] ks[y], sm, jm) || n == backward_node(
                        ks[y],
                        sm,
                        jm,
                    ));
                assert(ks.contains(ks[y]));
                assert(jm.contains_key(ks[y]));
                assert(!words_cover(dictionary.len() as nat, jm));
            }
            return None;
        }
        let first = dictionary[n.pair.0].clone();
        let second = dictionary[n.pair.1].clone();
        out.push(WordNode { first, second, node: n });
        i = i + 1;
    }
    proof {
        assert(word_nodes(out@) =~= nodes@);
        assert forall|k: u128| #[trigger] jm.contains_key(k) implies code_first(k) < dictionary.len() && code_second(k)
            < dictionary.len() by {
            assert(ks.contains(k));
            let y = choose|y: int| 0 <= y < ks.len() && ks[y] == k;
            let f = forward_node(ks[y], sm, jm);
            let b = backward_node(ks[y], sm, jm);
            let c = crate::affinity::nodes_of(ks, sm, jm);
            assert(c.contains(f));
            assert(c.to_multiset().count(f) > 0);
            assert(c.to_multiset().count(b) > 0);
            assert(nodes@.to_multiset().count(f) > 0);
            assert(nodes@.to_multiset().count(b) > 0);
            assert(nodes@.contains(f));
            assert(nodes@.contains(b));
            let xf = choose|x: int| 0 <= x < nodes@.len() && nodes@[x] == f;
            let xb = choose|x: int| 0 <= x < nodes@.len() && nodes@[x] == b;
            assert(nodes@[xf].pair.0 < dictionary.len());
            assert(nodes@[xb].pair.0 < dictionary.len());
        }
    }
    Some(out)
}

/// The trace of words with each word `w` numbered `f(w)`.
pub open spec fn words_numbered_by(trace: Seq<(usize, Seq<char>)>, f: spec_fn(Seq<char>) -> usize) -> Seq<(usize, usize)> {
    trace.map_values(|x: (usize, Seq<char>)| (x.0, f(x.1)))
}

/// Numbering the words of a trace by any one-to-one `f`, instead of by first
/// appearance, renames the histograms: word number `i` of the dictionary
/// becomes `f` of that word, for reuse times and for pair keys alike.
pub proof fn law_word_numbering_renames_histograms(trace: Seq<(usize, Seq<char>)>, f: spec_fn(Seq<char>) -> usize)
    requires
        valid_trace(numbered(trace)),
        4 * (trace.len() + 1) < usize::MAX,
        forall|i: int, j: int|
            0 <= i < trace.len() && 0 <= j < trace.len() && f(#[trigger] trace[i].1) == f(#[trigger] trace[j].1)
                ==> trace[i].1 == trace[j].1,
    ensures
        ({
            let g = |i: usize| f(dictionary(trace)[i as int]);
            let h = histograms_of(numbered(trace));
            let m = histograms_of(words_numbered_by(trace, f));
            &&& words_numbered_by(trace, f) == renamed(numbered(trace), g)
            &&& forall|e: usize| #[trigger] h.reuse.contains_key(e) ==> m.reuse.contains_key(g(e)) && m.reuse[g(e)] == h.reuse[e]
            &&& forall|x: usize| #[trigger] m.reuse.contains_key(x) ==> exists|e: usize| #[trigger] h.reuse.contains_key(e) && g(e) == x
            &&& forall|k: u128|
                #[trigger] h.switch.contains_key(k) ==> {
                    let k2 = renamed_key(g, k);
                    &&& m.switch.contains_key(k2) && m.switch[k2] == h.switch[k]
                    &&& m.inter.contains_key(k2) && m.inter[k2] == h.inter[k]
                    &&& m.joint.contains_key(k2) && m.joint[k2] == h.joint[k]
                }
            &&& forall|k2: u128| #[trigger] m.switch.contains_key(k2) ==> exists|k: u128| #[trigger] h.switch.contains_key(k) && k2 == renamed_key(g, k)
        }),
{
    let g = |i: usize| f(dictionary(trace)[i as int]);
    let nt = numbered(trace);
    let d = dictionary(trace);
    lemma_dictionary(trace, 0);
    assert forall|i: int| 0 <= i < trace.len() implies #[trigger] d[position(d, trace[i].1)] == trace[i].1
        && 0 <= position(d, trace[i].1) < d.len() by {
        assert(d.contains(trace[i].1));
    }
    assert(d.len() <= trace.len());
    assert(words_numbered_by(trace, f) =~= renamed(nt, g)) by {
        assert forall|i: int| 0 <= i < trace.len() implies words_numbered_by(trace, f)[i] == renamed(nt, g)[i] by {
            let p = position(d, trace[i].1);
            assert(d[p] == trace[i].1);
            assert(nt[i] == (trace[i].0, p as usize));
        }
    }
    assert(injective_on(nt, g)) by {
        assert forall|i: int, j: int|
            0 <= i < nt.len() && 0 <= j < nt.len() && g(#[trigger] nt[i].1) == g(#[trigger] nt[j].1) implies nt[i].1 == nt[j].1 by {
            let pi = position(d, trace[i].1);
            let pj = position(d, trace[j].1);
            assert(d[pi] == trace[i].1);
            assert(d[pj] == trace[j].1);
            assert(nt[i].1 == pi as usize);
            assert(nt[j].1 == pj as usize);
            assert(f(trace[i].1) == f(trace[j].1));
        }
    }
    law_renaming_renames_histograms(nt, g);
}

/// Numbering the words of a trace keeps every access and its time, gives
/// equal words equal numbers and different words different numbers, and
/// each number indexes its word in the dictionary, which holds the words
/// of the trace once each and nothing else.
pub proof fn law_numbering_keeps_words_apart(trace: Seq<(usize, Seq<char>)>)
    requires
        trace.len() <= usize::MAX,
    ensures
        numbered(trace).len() == trace.len(),
        forall|i: int| 0 <= i < trace.len() ==> (#[trigger] numbered(trace)[i]).0 == trace[i].0,
        forall|i: int, j: int|
            0 <= i < trace.len() && 0 <= j < trace.len() ==> ((#[trigger] numbered(trace)[i]).1 == (
            #[trigger] numbered(trace)[j]).1 <==> trace[i].1 == trace[j].1),
        forall|i: int|
            0 <= i < trace.len() ==> (#[trigger] numbered(trace)[i]).1 < dictionary(trace).len() && dictionary(
                trace,
            )[numbered(trace)[i].1 as int] == trace[i].1,
        dictionary(trace).no_duplicates(),
        dictionary(trace).len() <= trace.len(),
        forall|w: Seq<char>| #[trigger] dictionary(trace).contains(w) ==> exists|i: int| 0 <= i < trace.len() && trace[i].1 == w,
{
    let d = dictionary(trace);
    lemma_dictionary(trace, 0);
    lemma_dictionary_words(trace);
    assert forall|i: int| 0 <= i < trace.len() implies (#[trigger] numbered(trace)[i]).1 < d.len() && d[numbered(
        trace,
    )[i].1 as int] == trace[i].1 by {
        assert(d.contains(trace[i].1));
        let p = position(d, trace[i].1);
        assert(0 <= p < d.len() && d[p] == trace[i].1);
        assert(numbered(trace)[i].1 == p as usize);
    }
    assert forall|i: int, j: int|
        0 <= i < trace.len() && 0 <= j < trace.len() implies ((#[trigger] numbered(trace)[i]).1 == (
        #[trigger] numbered(trace)[j]).1 <==> trace[i].1 == trace[j].1) by {
        assert(d.contains(trace[i].1));
        assert(d.contains(trace[j].1));
        let pi = position(d, trace[i].1);
        let pj = position(d, trace[j].1);
        assert(0 <= pi < d.len() && d[pi] == trace[i].1);
        assert(0 <= pj < d.len() && d[pj] == trace[j].1);
        assert(numbered(trace)[i].1 == pi as usize);
        assert(numbered(trace)[j].1 == pj as usize);
    }
}

proof fn lemma_dictionary_words(trace: Seq<(usize, Seq<char>)>)
    ensures
        forall|w: Seq<char>| #[trigger] dictionary(trace).contains(w) ==> exists|i: int| 0 <= i < trace.len() && trace[i].1 == w,
    decreases trace.len(),
{
    if trace.len() > 0 {
        let p = trace.drop_last();
        lemma_dictionary_words(p);
        assert forall|w: Seq<char>| #[trigger] dictionary(trace).contains(w) implies exists|i: int|
            0 <= i < trace.len() && trace[i].1 == w by {
            let d = dictionary(p);
            if d.contains(w) {
                let i = choose|i: int| 0 <= i < p.len() && p[i].1 == w;
                assert(trace[i] == p[i]);
            } else {
                let k = choose|k: int| 0 <= k < dictionary(trace).len() && dictionary(trace)[k] == w;
                if !d.contains(trace.last().1) {
                    if k < d.len() {
                        assert(d[k] == w);
                    }
                }
                assert(trace[trace.len() - 1] == trace.last());
            }
        }
    }
}

} // verus!
