//! What holds of the samples the histogram pass hands out, for every
//! accepted trace.
use vstd::prelude::*;
use crate::histogram::{seq_sum, lemma_seq_sum_push};
use crate::pair::{pair_code, code_first, code_second, is_pair_code, lemma_pair_code, lemma_pair_code_injective, lemma_code_roundtrip};
use crate::scan::{
    times_nondecreasing, histograms_of, scan, scan_inv, pair_inv, valid_trace, last_time, lemma_scan_inv, step, reuse_update, ScanState,
    touched, switches, stored_key, partner, switch_time, inter_time, lemma_touched_key, lemma_partner,
};

verus! {

proof fn lemma_valid_scan_inv(trace: Seq<(usize, usize)>)
    requires
        valid_trace(trace),
        4 * (trace.len() + 1) < usize::MAX,
    ensures
        scan_inv(scan(trace), last_time(trace), trace.len()),
        last_time(trace) <= trace.len() + 1,
{
    assert forall|i: int| 0 <= i < trace.len() implies 2 * trace[i].0 <= u64::MAX by {
        assert(trace[i].0 <= trace.len() + 1);
    }
    lemma_scan_inv(trace);
    if trace.len() > 0 {
        assert(trace[trace.len() - 1] == trace.last());
    }
}

/// The elements the pass has a latest access time for are the elements of
/// the trace.
proof fn lemma_seen_elements(trace: Seq<(usize, usize)>)
    ensures
        forall|e: usize|
            scan(trace).last.contains_key(e) <==> exists|i: int| 0 <= i < trace.len() && (#[trigger] trace[i]).1 == e,
    decreases trace.len(),
{
    if trace.len() > 0 {
        let p = trace.drop_last();
        lemma_seen_elements(p);
        assert forall|e: usize|
            scan(trace).last.contains_key(e) <==> exists|i: int| 0 <= i < trace.len() && (#[trigger] trace[i]).1 == e by {
            if scan(p).last.contains_key(e) {
                let i = choose|i: int| 0 <= i < p.len() && (#[trigger] p[i]).1 == e;
                assert(trace[i] == p[i]);
            }
            if exists|i: int| 0 <= i < trace.len() && (#[trigger] trace[i]).1 == e {
                let i = choose|i: int| 0 <= i < trace.len() && (#[trigger] trace[i]).1 == e;
                if i < p.len() {
                    assert(p[i] == trace[i]);
                } else {
                    assert(trace[i] == trace.last());
                }
            }
        }
    }
}

/// Every element of the trace, and nothing else, gets reuse times; every
/// pair is filed under one key only, which packs two distinct elements
/// (never also under the reverse orientation); and the switch,
/// inter-switch and joint-switch collections have the same keys.
pub proof fn law_pairs_filed_once(trace: Seq<(usize, usize)>)
    requires
        valid_trace(trace),
        4 * (trace.len() + 1) < usize::MAX,
    ensures
        forall|e: usize|
            histograms_of(trace).reuse.contains_key(e) <==> exists|i: int|
                0 <= i < trace.len() && (#[trigger] trace[i]).1 == e,
        forall|k: u128|
            #[trigger] histograms_of(trace).switch.contains_key(k) ==> {
                &&& is_pair_code(k)
                &&& code_first(k) != code_second(k)
                &&& !histograms_of(trace).switch.contains_key(
                    pair_code(code_second(k) as usize, code_first(k) as usize),
                )
            },
        histograms_of(trace).inter.dom() == histograms_of(trace).switch.dom(),
        histograms_of(trace).joint.dom() == histograms_of(trace).switch.dom(),
{
    lemma_valid_scan_inv(trace);
    lemma_seen_elements(trace);
    let s = scan(trace);
    let h = histograms_of(trace);
    assert(h.reuse.dom() =~= s.reuse.dom());
    assert(h.inter.dom() =~= s.inter.dom());
    assert(h.joint.dom() =~= s.joint.dom());
    assert forall|k: u128| #[trigger] h.switch.contains_key(k) implies {
        &&& is_pair_code(k)
        &&& code_first(k) != code_second(k)
        &&& !h.switch.contains_key(pair_code(code_second(k) as usize, code_first(k) as usize))
    } by {
        assert(pair_inv(s, k, trace.len()));
    }
}

/// The samples of the pass add up to the length of the trace plus one: the
/// reuse times of each element, and the inter-switch times of each pair,
/// run from time 0 to time `n + 1`; a pair's joint-switch times add up to
/// its inter-switch times plus its switch times.
pub proof fn law_times_telescope(trace: Seq<(usize, usize)>)
    requires
        valid_trace(trace),
        4 * (trace.len() + 1) < usize::MAX,
    ensures
        forall|e: usize|
            #[trigger] histograms_of(trace).reuse.contains_key(e) ==> seq_sum(histograms_of(trace).reuse[e])
                == trace.len() + 1,
        forall|k: u128|
            #[trigger] histograms_of(trace).switch.contains_key(k) ==> {
                &&& seq_sum(histograms_of(trace).inter[k]) == trace.len() + 1
                &&& seq_sum(histograms_of(trace).joint[k]) == trace.len() + 1 + seq_sum(
                    histograms_of(trace).switch[k],
                )
            },
{
    lemma_valid_scan_inv(trace);
    let s = scan(trace);
    let h = histograms_of(trace);
    let n = trace.len();
    assert forall|e: usize| #[trigger] h.reuse.contains_key(e) implies seq_sum(h.reuse[e]) == n + 1 by {
        assert(s.last.contains_key(e));
        assert(s.last[e] <= n + 1);
        lemma_seq_sum_push(s.reuse[e], (n + 1 - s.last[e]) as u64);
    }
    assert forall|k: u128| #[trigger] h.switch.contains_key(k) implies {
        &&& seq_sum(h.inter[k]) == n + 1
        &&& seq_sum(h.joint[k]) == n + 1 + seq_sum(h.switch[k])
    } by {
        assert(pair_inv(s, k, n));
        let a = code_first(k) as usize;
        assert(s.last.contains_key(a));
        assert(s.last_joint[k] <= s.last[a] <= n + 1);
        lemma_seq_sum_push(s.inter[k], (n + 1 - s.last_joint[k]) as u64);
        lemma_seq_sum_push(s.joint[k], (n + 1 - s.last_joint[k]) as u64);
    }
}

/// The trace with each element `e` renamed `f(e)`.
pub open spec fn renamed(trace: Seq<(usize, usize)>, f: spec_fn(usize) -> usize) -> Seq<(usize, usize)> {
    trace.map_values(|x: (usize, usize)| (x.0, f(x.1)))
}

/// `f` gives distinct elements of the trace distinct names.
pub open spec fn injective_on(trace: Seq<(usize, usize)>, f: spec_fn(usize) -> usize) -> bool {
    forall|i: int, j: int|
        0 <= i < trace.len() && 0 <= j < trace.len() && f(#[trigger] trace[i].1) == f(#[trigger] trace[j].1)
            ==> trace[i].1 == trace[j].1
}

proof fn lemma_renamed_reuse(trace: Seq<(usize, usize)>, f: spec_fn(usize) -> usize, k: int)
    requires
        0 <= k <= trace.len(),
        injective_on(trace, f),
    ensures
        forall|e: usize|
            #[trigger] scan(trace.take(k)).last.contains_key(e) ==> {
                let s = scan(trace.take(k));
                let r = scan(renamed(trace, f).take(k));
                &&& r.last.contains_key(f(e))
                &&& r.last[f(e)] == s.last[e]
                &&& s.reuse.contains_key(e) == s.last.contains_key(e)
                &&& r.reuse.contains_key(f(e))
                &&& r.reuse[f(e)] == s.reuse[e]
            },
    decreases k,
{
    let rt = renamed(trace, f);
    if k > 0 {
        lemma_renamed_reuse(trace, f, k - 1);
        let pre = trace.take(k - 1);
        let rpre = rt.take(k - 1);
        assert(trace.take(k).drop_last() =~= pre);
        assert(rt.take(k).drop_last() =~= rpre);
        assert(trace.take(k).last() == trace[k - 1]);
        assert(rt.take(k).last() == rt[k - 1]);
        assert(rt[k - 1] == (trace[k - 1].0, f(trace[k - 1].1)));
        let t = trace[k - 1].0;
        let c = trace[k - 1].1;
        let s = scan(pre);
        let r = scan(rpre);
        lemma_seen_elements(pre);
        lemma_seen_elements(trace.take(k));
        lemma_reuse_dom(pre);
        lemma_reuse_dom(rpre);
        lemma_reuse_dom(trace.take(k));
        lemma_reuse_dom(rt.take(k));
        assert(scan(trace.take(k)) == step(s, t, c));
        assert(scan(rt.take(k)) == step(r, t, f(c)));
        let s2 = step(s, t, c);
        let r2 = step(r, t, f(c));
        assert(s2.reuse == reuse_update(s, t, c).reuse);
        assert(r2.reuse == reuse_update(r, t, f(c)).reuse);
        assert(s2.last == s.last.insert(c, t));
        assert(r2.last == r.last.insert(f(c), t));
        assert forall|e: usize| #[trigger] s2.last.contains_key(e) implies {
            &&& r2.last.contains_key(f(e))
            &&& r2.last[f(e)] == s2.last[e]
            &&& s2.reuse.contains_key(e) == s2.last.contains_key(e)
            &&& r2.reuse.contains_key(f(e))
            &&& r2.reuse[f(e)] == s2.reuse[e]
        } by {
            if e != c {
                assert(s.last.contains_key(e));
                let i = choose|i: int| 0 <= i < pre.len() && (#[trigger] pre[i]).1 == e;
                assert(pre[i] == trace[i]);
                assert(f(e) != f(c)) by {
                    if f(e) == f(c) {
                        assert(f(trace[i].1) == f(trace[k - 1].1));
                    }
                }
            } else {
                if !s.last.contains_key(c) {
                    assert(!s.reuse.contains_key(c));
                    if r.last.contains_key(f(c)) || r.reuse.contains_key(f(c)) {
                        lemma_renamed_seen(trace, f, k - 1, f(c));
                        let i = choose|i: int| 0 <= i < pre.len() && f((#[trigger] pre[i]).1) == f(c);
                        assert(pre[i] == trace[i]);
                        assert(f(trace[i].1) == f(trace[k - 1].1));
                        assert(s.last.contains_key(pre[i].1));
                    }
                }
            }
        }
    } else {
        assert(trace.take(0) =~= Seq::<(usize, usize)>::empty());
    }
}

/// The pass has reuse times for exactly the elements it has seen.
proof fn lemma_reuse_dom(trace: Seq<(usize, usize)>)
    ensures
        scan(trace).reuse.dom() == scan(trace).last.dom(),
    decreases trace.len(),
{
    if trace.len() > 0 {
        lemma_reuse_dom(trace.drop_last());
        let s = scan(trace.drop_last());
        let s2 = scan(trace);
        assert(s2.reuse.dom() =~= s2.last.dom());
    }
}

/// In the renamed trace, the pass has seen exactly the new names of the
/// elements it has seen, and has reuse times for the same names.
proof fn lemma_renamed_seen(trace: Seq<(usize, usize)>, f: spec_fn(usize) -> usize, k: int, x: usize)
    requires
        0 <= k <= trace.len(),
    ensures
        (scan(renamed(trace, f).take(k)).last.contains_key(x) || scan(renamed(trace, f).take(k)).reuse.contains_key(x))
            ==> exists|i: int| 0 <= i < k && f((#[trigger] trace.take(k)[i]).1) == x,
    decreases k,
{
    let rt = renamed(trace, f);
    if k > 0 {
        lemma_renamed_seen(trace, f, k - 1, x);
        assert(rt.take(k).drop_last() =~= rt.take(k - 1));
        assert(rt.take(k).last() == rt[k - 1]);
        let r = scan(rt.take(k - 1));
        let r2 = scan(rt.take(k));
        assert(r2 == step(r, rt[k - 1].0, rt[k - 1].1));
        if r2.last.contains_key(x) || r2.reuse.contains_key(x) {
            if x == rt[k - 1].1 {
                assert(trace.take(k)[k - 1] == trace[k - 1]);
            } else {
                assert(r.last.contains_key(x) || r.reuse.contains_key(x));
                let i = choose|i: int| 0 <= i < k - 1 && f((#[trigger] trace.take(k - 1)[i]).1) == x;
                assert(trace.take(k)[i] == trace.take(k - 1)[i]);
            }
        }
    }
}

/// The key of the pair filed under `k` once its elements are renamed by `f`.
pub open spec fn renamed_key(f: spec_fn(usize) -> usize, k: u128) -> u128 {
    pair_code(f(code_first(k) as usize), f(code_second(k) as usize))
}

/// The pair maps of `r` are those of `s` under renamed keys.
spec fn pairs_renamed(s: ScanState, r: ScanState, f: spec_fn(usize) -> usize) -> bool {
    &&& forall|k: u128|
        #[trigger] s.switch.contains_key(k) ==> {
            let k2 = renamed_key(f, k);
            &&& r.switch.contains_key(k2) && r.switch[k2] == s.switch[k]
            &&& r.inter.contains_key(k2) && r.inter[k2] == s.inter[k]
            &&& r.joint.contains_key(k2) && r.joint[k2] == s.joint[k]
            &&& r.last_joint.contains_key(k2) && r.last_joint[k2] == s.last_joint[k]
        }
    &&& forall|k2: u128| #[trigger] r.switch.contains_key(k2) ==> exists|k: u128| #[trigger] s.switch.contains_key(k) && k2 == renamed_key(f, k)
}

/// The last-access maps of `r` are those of `s` under renamed elements, `f`
/// being one to one on the elements seen and `c`.
spec fn last_renamed(s: ScanState, r: ScanState, f: spec_fn(usize) -> usize, c: usize) -> bool {
    &&& forall|e: usize| #[trigger] s.last.contains_key(e) ==> r.last.contains_key(f(e)) && r.last[f(e)] == s.last[e]
    &&& forall|x: usize| #[trigger] r.last.contains_key(x) ==> exists|e: usize| #[trigger] s.last.contains_key(e) && f(e) == x
    &&& forall|e1: usize, e2: usize|
        (s.last.contains_key(e1) || e1 == c) && (s.last.contains_key(e2) || e2 == c) && #[trigger] f(e1) == #[trigger] f(e2)
            ==> e1 == e2
}

proof fn lemma_renamed_key(f: spec_fn(usize) -> usize, a: usize, b: usize)
    ensures
        renamed_key(f, pair_code(a, b)) == pair_code(f(a), f(b)),
{
    lemma_pair_code(a, b);
}

/// Touching a key and touching its renamed key go together.
proof fn lemma_touched_renamed(s: ScanState, r: ScanState, t: usize, c: usize, f: spec_fn(usize) -> usize, k: u128)
    requires
        last_renamed(s, r, f, c),
        pairs_renamed(s, r, f),
        forall|x: u128| #[trigger] s.switch.contains_key(x) ==> is_pair_code(x) && s.last.contains_key(code_first(x) as usize)
            && s.last.contains_key(code_second(x) as usize),
    ensures
        touched(s, t, c, s.last.dom(), k) ==> touched(r, t, f(c), r.last.dom(), renamed_key(f, k)),
        forall|k2: u128|
            #[trigger] touched(r, t, f(c), r.last.dom(), k2) ==> exists|x: u128|
                #[trigger] touched(s, t, c, s.last.dom(), x) && k2 == renamed_key(f, x),
{
    if touched(s, t, c, s.last.dom(), k) {
        let j = partner(k, c);
        lemma_touched_key(s, t, c, s.last.dom(), k);
        assert(s.last.contains_key(j));
        assert(f(j) != f(c));
        lemma_partner(c, j);
        lemma_partner(f(c), f(j));
        lemma_renamed_key(f, c, j);
        lemma_renamed_key(f, j, c);
        lemma_switch_renamed(s, r, f, c, j);
        if k == pair_code(c, j) {
            assert(partner(renamed_key(f, k), f(c)) == f(j));
        } else {
            assert(partner(renamed_key(f, k), f(c)) == f(j));
        }
    }
    assert forall|k2: u128| #[trigger] touched(r, t, f(c), r.last.dom(), k2) implies exists|x: u128|
        #[trigger] touched(s, t, c, s.last.dom(), x) && k2 == renamed_key(f, x) by {
        let j2 = partner(k2, f(c));
        lemma_touched_key(r, t, f(c), r.last.dom(), k2);
        assert(r.last.contains_key(j2));
        let j = choose|e: usize| #[trigger] s.last.contains_key(e) && f(e) == j2;
        assert(j != c);
        lemma_partner(c, j);
        lemma_partner(f(c), f(j));
        lemma_renamed_key(f, c, j);
        lemma_renamed_key(f, j, c);
        lemma_switch_renamed(s, r, f, c, j);
        let x = stored_key(s, c, j);
        assert(renamed_key(f, x) == stored_key(r, f(c), f(j)));
        assert(partner(x, c) == j);
        assert(touched(s, t, c, s.last.dom(), x));
    }
}

/// Filing of the pair of `c` and a seen `j`, in either orientation, goes
/// together under renaming; so do their switch conditions.
proof fn lemma_switch_renamed(s: ScanState, r: ScanState, f: spec_fn(usize) -> usize, c: usize, j: usize)
    requires
        last_renamed(s, r, f, c),
        pairs_renamed(s, r, f),
        s.last.contains_key(j),
        j != c,
        forall|x: u128| #[trigger] s.switch.contains_key(x) ==> is_pair_code(x) && s.last.contains_key(code_first(x) as usize)
            && s.last.contains_key(code_second(x) as usize),
    ensures
        r.switch.contains_key(pair_code(f(j), f(c))) == s.switch.contains_key(pair_code(j, c)),
        r.switch.contains_key(pair_code(f(c), f(j))) == s.switch.contains_key(pair_code(c, j)),
        f(j) != f(c),
        s.last.contains_key(c) == r.last.contains_key(f(c)),
        s.last.contains_key(c) ==> r.last[f(c)] == s.last[c],
        r.last[f(j)] == s.last[j],
        forall|t: usize| switches(s, t, c, j) == switches(r, t, f(c), f(j)),
{
    lemma_renamed_key(f, c, j);
    lemma_renamed_key(f, j, c);
    lemma_pair_code(f(j), f(c));
    lemma_pair_code(f(c), f(j));
    assert(f(j) != f(c));
    if r.last.contains_key(f(c)) {
        let e = choose|e: usize| #[trigger] s.last.contains_key(e) && f(e) == f(c);
        assert(e == c);
    }
    lemma_filed_renamed(s, r, f, c, j, pair_code(f(j), f(c)), pair_code(j, c));
    lemma_filed_renamed(s, r, f, c, j, pair_code(f(c), f(j)), pair_code(c, j));
}

proof fn lemma_filed_renamed(s: ScanState, r: ScanState, f: spec_fn(usize) -> usize, c: usize, j: usize, k2: u128, k: u128)
    requires
        last_renamed(s, r, f, c),
        pairs_renamed(s, r, f),
        s.last.contains_key(j),
        j != c,
        forall|x: u128| #[trigger] s.switch.contains_key(x) ==> is_pair_code(x) && s.last.contains_key(code_first(x) as usize)
            && s.last.contains_key(code_second(x) as usize),
        k == pair_code(j, c) || k == pair_code(c, j),
        k2 == renamed_key(f, k),
    ensures
        r.switch.contains_key(k2) == s.switch.contains_key(k),
{
    lemma_pair_code(j, c);
    lemma_pair_code(c, j);
    if r.switch.contains_key(k2) {
        let x = choose|x: u128| #[trigger] s.switch.contains_key(x) && k2 == renamed_key(f, x);
        let xa = code_first(x) as usize;
        let xb = code_second(x) as usize;
        lemma_code_roundtrip(x);
        lemma_pair_code_injective(f(xa), f(xb), f(code_first(k) as usize), f(code_second(k) as usize));
        assert(f(xa) == f(code_first(k) as usize));
        assert(f(xb) == f(code_second(k) as usize));
        assert(xa == code_first(k) as usize);
        assert(xb == code_second(k) as usize);
        assert(x == k);
    }
}

/// Renaming keeps apart keys whose elements `f` keeps apart.
proof fn lemma_renamed_key_injective(s: ScanState, r: ScanState, f: spec_fn(usize) -> usize, c: usize, x: u128, k: u128)
    requires
        last_renamed(s, r, f, c),
        is_pair_code(x),
        is_pair_code(k),
        s.last.contains_key(code_first(x) as usize) || code_first(x) as usize == c,
        s.last.contains_key(code_second(x) as usize) || code_second(x) as usize == c,
        s.last.contains_key(code_first(k) as usize) || code_first(k) as usize == c,
        s.last.contains_key(code_second(k) as usize) || code_second(k) as usize == c,
        renamed_key(f, x) == renamed_key(f, k),
    ensures
        x == k,
{
    let xa = code_first(x) as usize;
    let xb = code_second(x) as usize;
    let ka = code_first(k) as usize;
    let kb = code_second(k) as usize;
    lemma_code_roundtrip(x);
    lemma_code_roundtrip(k);
    lemma_pair_code_injective(f(xa), f(xb), f(ka), f(kb));
    assert(f(xa) == f(ka));
    assert(f(xb) == f(kb));
}

/// One access, of `c` in the trace and of `f(c)` in the renamed one, keeps
/// the pair maps renamed.
proof fn lemma_step_pairs_renamed(s: ScanState, r: ScanState, t: usize, c: usize, f: spec_fn(usize) -> usize)
    requires
        last_renamed(s, r, f, c),
        pairs_renamed(s, r, f),
        forall|x: u128| #[trigger] s.switch.contains_key(x) ==> is_pair_code(x) && s.last.contains_key(code_first(x) as usize)
            && s.last.contains_key(code_second(x) as usize),
        s.inter.dom() == s.switch.dom(),
        s.joint.dom() == s.switch.dom(),
        s.last_joint.dom() == s.switch.dom(),
        r.inter.dom() == r.switch.dom(),
        r.joint.dom() == r.switch.dom(),
        r.last_joint.dom() == r.switch.dom(),
    ensures
        pairs_renamed(step(s, t, c), step(r, t, f(c)), f),
{
    let s1 = reuse_update(s, t, c);
    let r1 = reuse_update(r, t, f(c));
    let s2 = step(s, t, c);
    let r2 = step(r, t, f(c));
    let ds = s.last.dom();
    let dr = r.last.dom();
    assert(s1.last == s.last && s1.switch == s.switch && s1.inter == s.inter && s1.joint == s.joint);
    assert(s1.last_joint == s.last_joint);
    assert(r1.last == r.last && r1.switch == r.switch && r1.inter == r.inter && r1.joint == r.joint);
    assert(r1.last_joint == r.last_joint);
    assert forall|k: u128| #[trigger] s2.switch.contains_key(k) implies {
        let k2 = renamed_key(f, k);
        &&& r2.switch.contains_key(k2) && r2.switch[k2] == s2.switch[k]
        &&& r2.inter.contains_key(k2) && r2.inter[k2] == s2.inter[k]
        &&& r2.joint.contains_key(k2) && r2.joint[k2] == s2.joint[k]
        &&& r2.last_joint.contains_key(k2) && r2.last_joint[k2] == s2.last_joint[k]
    } by {
        let k2 = renamed_key(f, k);
        lemma_touched_renamed(s, r, t, c, f, k);
        let ts = touched(s, t, c, ds, k);
        let tr = touched(r, t, f(c), dr, k2);
        if ts {
            lemma_touched_key(s, t, c, ds, k);
        }
        if tr {
            let x = choose|x: u128| #[trigger] touched(s, t, c, ds, x) && k2 == renamed_key(f, x);
            lemma_touched_key(s, t, c, ds, x);
            lemma_pair_code(c, partner(x, c));
            lemma_pair_code(partner(x, c), c);
            if ts {
                lemma_pair_code(c, partner(k, c));
                lemma_pair_code(partner(k, c), c);
            }
            lemma_renamed_key_injective(s, r, f, c, x, k);
        }
        assert(ts == tr);
        if ts {
            let j = partner(k, c);
            lemma_switch_renamed(s, r, f, c, j);
            lemma_partner(c, j);
            lemma_partner(f(c), f(j));
            lemma_renamed_key(f, c, j);
            lemma_renamed_key(f, j, c);
            assert(partner(k2, f(c)) == f(j));
            lemma_filed_renamed(s, r, f, c, j, k2, k);
            assert(r.switch.contains_key(k2) == s.switch.contains_key(k));
            assert(switch_time(r1, t, f(j)) == switch_time(s1, t, j));
            assert(inter_time(r1, k2, f(j)) == inter_time(s1, k, j));
        }
    }
    assert forall|k2: u128| #[trigger] r2.switch.contains_key(k2) implies exists|k: u128|
        #[trigger] s2.switch.contains_key(k) && k2 == renamed_key(f, k) by {
        if r.switch.contains_key(k2) {
            let k = choose|k: u128| #[trigger] s.switch.contains_key(k) && k2 == renamed_key(f, k);
            assert(s2.switch.contains_key(k));
        } else {
            lemma_touched_renamed(s, r, t, c, f, 0);
            assert(touched(r, t, f(c), dr, k2));
            let x = choose|x: u128| #[trigger] touched(s, t, c, ds, x) && k2 == renamed_key(f, x);
            assert(s2.switch.contains_key(x));
        }
    }
}

/// What the pass knows after `k` accesses of a valid trace: facts of
/// `scan_inv` both for the trace and its renaming.
proof fn lemma_prefix_inv(trace: Seq<(usize, usize)>, k: int)
    requires
        valid_trace(trace),
        4 * (trace.len() + 1) < usize::MAX,
        0 <= k <= trace.len(),
    ensures
        scan_inv(scan(trace.take(k)), last_time(trace.take(k)), k as nat),
{
    let p = trace.take(k);
    assert(times_nondecreasing(p)) by {
        assert forall|i: int, j: int| 0 <= i < j < p.len() implies p[i].0 <= p[j].0 by {
            assert(p[i] == trace[i] && p[j] == trace[j]);
        }
    }
    assert forall|i: int| 0 <= i < p.len() implies 2 * p[i].0 <= u64::MAX by {
        assert(p[i] == trace[i]);
        assert(trace[i].0 <= trace.len() + 1);
    }
    lemma_scan_inv(p);
}

proof fn lemma_renamed_valid(trace: Seq<(usize, usize)>, f: spec_fn(usize) -> usize)
    requires
        valid_trace(trace),
    ensures
        valid_trace(renamed(trace, f)),
        renamed(trace, f).len() == trace.len(),
{
    let rt = renamed(trace, f);
    assert forall|i: int, j: int| 0 <= i < j < rt.len() implies rt[i].0 <= rt[j].0 by {
        assert(rt[i].0 == trace[i].0 && rt[j].0 == trace[j].0);
    }
    assert forall|i: int| 0 <= i < rt.len() implies rt[i].0 <= rt.len() + 1 by {
        assert(rt[i].0 == trace[i].0);
    }
}

proof fn lemma_renamed_pairs(trace: Seq<(usize, usize)>, f: spec_fn(usize) -> usize, k: int)
    requires
        valid_trace(trace),
        4 * (trace.len() + 1) < usize::MAX,
        injective_on(trace, f),
        0 <= k <= trace.len(),
    ensures
        pairs_renamed(scan(trace.take(k)), scan(renamed(trace, f).take(k)), f),
    decreases k,
{
    let rt = renamed(trace, f);
    lemma_renamed_valid(trace, f);
    if k == 0 {
        assert(trace.take(0) =~= Seq::<(usize, usize)>::empty());
        assert(rt.take(0) =~= Seq::<(usize, usize)>::empty());
    } else {
        lemma_renamed_pairs(trace, f, k - 1);
        let pre = trace.take(k - 1);
        let rpre = rt.take(k - 1);
        assert(trace.take(k).drop_last() =~= pre);
        assert(rt.take(k).drop_last() =~= rpre);
        assert(trace.take(k).last() == trace[k - 1]);
        assert(rt.take(k).last() == rt[k - 1]);
        let t = trace[k - 1].0;
        let c = trace[k - 1].1;
        assert(rt[k - 1] == (t, f(c)));
        let s = scan(pre);
        let r = scan(rpre);
        assert(scan(trace.take(k)) == step(s, t, c));
        assert(scan(rt.take(k)) == step(r, t, f(c)));
        lemma_prefix_inv(trace, k - 1);
        lemma_prefix_inv(rt, k - 1);
        lemma_renamed_reuse(trace, f, k - 1);
        lemma_seen_elements(pre);
        assert forall|x: usize| #[trigger] r.last.contains_key(x) implies exists|e: usize| #[trigger] s.last.contains_key(e) && f(e) == x by {
            lemma_renamed_seen(trace, f, k - 1, x);
            let i = choose|i: int| 0 <= i < k - 1 && f((#[trigger] trace.take(k - 1)[i]).1) == x;
            assert(pre[i] == trace.take(k - 1)[i]);
            assert(s.last.contains_key(pre[i].1));
        }
        assert forall|e1: usize, e2: usize|
            (s.last.contains_key(e1) || e1 == c) && (s.last.contains_key(e2) || e2 == c) && #[trigger] f(e1) == #[trigger] f(e2)
                implies e1 == e2 by {
            let i1 = if e1 == c { k - 1 } else { choose|i: int| 0 <= i < pre.len() && (#[trigger] pre[i]).1 == e1 };
            let i2 = if e2 == c { k - 1 } else { choose|i: int| 0 <= i < pre.len() && (#[trigger] pre[i]).1 == e2 };
            if e1 != c {
                assert(pre[i1] == trace[i1]);
            }
            if e2 != c {
                assert(pre[i2] == trace[i2]);
            }
            assert(f(trace[i1].1) == f(trace[i2].1));
        }
        assert(last_renamed(s, r, f, c));
        assert forall|x: u128| #[trigger] s.switch.contains_key(x) implies is_pair_code(x) && s.last.contains_key(
            code_first(x) as usize,
        ) && s.last.contains_key(code_second(x) as usize) by {
            assert(pair_inv(s, x, (k - 1) as nat));
        }
        lemma_step_pairs_renamed(s, r, t, c, f);
    }
}

/// Renaming the elements of a trace one to one renames its histograms:
/// the reuse times of `f(e)` in the renamed trace are those of `e`, and
/// the pair of `f(a)` and `f(b)` has the switch, inter-switch and
/// joint-switch times of the pair of `a` and `b`, with no other keys.
pub proof fn law_renaming_renames_histograms(trace: Seq<(usize, usize)>, f: spec_fn(usize) -> usize)
    requires
        valid_trace(trace),
        4 * (trace.len() + 1) < usize::MAX,
        injective_on(trace, f),
    ensures
        forall|e: usize|
            #[trigger] histograms_of(trace).reuse.contains_key(e) ==> histograms_of(renamed(trace, f)).reuse.contains_key(f(e))
                && histograms_of(renamed(trace, f)).reuse[f(e)] == histograms_of(trace).reuse[e],
        forall|x: usize|
            #[trigger] histograms_of(renamed(trace, f)).reuse.contains_key(x) ==> exists|e: usize|
                #[trigger] histograms_of(trace).reuse.contains_key(e) && f(e) == x,
        forall|k: u128|
            #[trigger] histograms_of(trace).switch.contains_key(k) ==> {
                let g = histograms_of(renamed(trace, f));
                let h = histograms_of(trace);
                let k2 = renamed_key(f, k);
                &&& g.switch.contains_key(k2) && g.switch[k2] == h.switch[k]
                &&& g.inter.contains_key(k2) && g.inter[k2] == h.inter[k]
                &&& g.joint.contains_key(k2) && g.joint[k2] == h.joint[k]
            },
        forall|k2: u128|
            #[trigger] histograms_of(renamed(trace, f)).switch.contains_key(k2) ==> exists|k: u128|
                #[trigger] histograms_of(trace).switch.contains_key(k) && k2 == renamed_key(f, k),
{
    let n = trace.len();
    let rt = renamed(trace, f);
    lemma_renamed_valid(trace, f);
    assert(trace.take(n as int) =~= trace);
    assert(rt.take(n as int) =~= rt);
    lemma_renamed_reuse(trace, f, n as int);
    lemma_renamed_pairs(trace, f, n as int);
    lemma_prefix_inv(trace, n as int);
    lemma_prefix_inv(rt, n as int);
    lemma_seen_elements(trace);
    lemma_reuse_dom(trace);
    lemma_reuse_dom(rt);
    let s = scan(trace);
    let r = scan(rt);
    let h = histograms_of(trace);
    let g = histograms_of(rt);
    assert forall|x: usize| #[trigger] g.reuse.contains_key(x) implies exists|e: usize|
        #[trigger] h.reuse.contains_key(e) && f(e) == x by {
        lemma_renamed_seen(trace, f, n as int, x);
        let i = choose|i: int| 0 <= i < n && f((#[trigger] trace.take(n as int)[i]).1) == x;
        assert(s.last.contains_key(trace[i].1));
        assert(h.reuse.contains_key(trace[i].1));
    }
    assert forall|k2: u128| #[trigger] g.switch.contains_key(k2) implies exists|k: u128|
        #[trigger] h.switch.contains_key(k) && k2 == renamed_key(f, k) by {
        assert(r.switch.contains_key(k2));
        let k = choose|k: u128| #[trigger] s.switch.contains_key(k) && k2 == renamed_key(f, k);
        assert(h.switch.contains_key(k));
    }
}

} // verus!
