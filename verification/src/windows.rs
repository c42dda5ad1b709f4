//! What the single frequency counts: the windows of a trace that hold an
//! element.
use vstd::prelude::*;
use crate::histogram::{Histogram, seq_sum};
use vstd::arithmetic::power2::pow2;
use crate::scan::{
    typed_trace, scan, histograms_of, valid_trace, pair_inv, lemma_scan_inv, ScanState, step, reuse_update, switches, touched, stored_key, partner,
    pushed, switch_time, inter_time, last_time, hist_matches, SUBLOG_BITS,
};
use crate::pair::{pair_code, code_first, code_second, is_pair_code, lemma_pair_code, lemma_code_roundtrip};
use crate::frequency::{
    sample_excess, single_frequency, table_excess, joint_frequency, unsplit, lemma_table_unsplit_exact, lemma_unsplit_small,
    sample_shortfall, table_shortfall, lemma_excess_shortfall, lemma_table_excess_le, joint_computable,
    joint_absence, lemma_shortfall_fits,
};
use crate::pass_laws::{law_pairs_filed_once, law_times_telescope};

verus! {

/// Traces whose `i`-th access (from 0) happens at time `i + 1`.
pub open spec fn sequential(trace: Seq<(usize, usize)>) -> bool {
    forall|i: int| 0 <= i < trace.len() ==> #[trigger] trace[i].0 == i + 1
}

/// The window of `w` consecutive accesses that ends with access number
/// `end` (counted from 1) holds `e`.
pub open spec fn window_holds(trace: Seq<(usize, usize)>, e: usize, end: int, w: nat) -> bool {
    exists|i: int| end - w <= i < end && 0 <= i && #[trigger] trace[i].1 == e
}

/// Number of windows of `w` consecutive accesses among the first `k`
/// accesses that hold `e`.
pub open spec fn windows_holding(trace: Seq<(usize, usize)>, e: usize, w: nat, k: nat) -> nat
    decreases k,
{
    if k == 0 || k < w {
        0
    } else {
        windows_holding(trace, e, w, (k - 1) as nat) + (if window_holds(trace, e, k as int, w) {
            1nat
        } else {
            0nat
        })
    }
}

/// How far a gap of `g` exceeds the window size.
pub open spec fn gap_excess(g: int, w: nat) -> int {
    if g > w {
        g - w
    } else {
        0
    }
}

/// Number of windows among the first `k` accesses that miss `e`.
pub open spec fn windows_missing(trace: Seq<(usize, usize)>, e: usize, w: nat, k: nat) -> int {
    (if k >= w {
        k - w + 1
    } else {
        0int
    }) - windows_holding(trace, e, w, k)
}

/// Time of the latest access of `e` among the first `k`, 0 if none.
pub open spec fn latest(trace: Seq<(usize, usize)>, e: usize, k: nat) -> int {
    let st = scan(trace.take(k as int));
    if st.last.contains_key(e) {
        st.last[e] as int
    } else {
        0
    }
}

/// Reuse times of `e` recorded over the first `k` accesses.
pub open spec fn reuse_so_far(trace: Seq<(usize, usize)>, e: usize, k: nat) -> Seq<u64> {
    let st = scan(trace.take(k as int));
    if st.reuse.contains_key(e) {
        st.reuse[e]
    } else {
        Seq::empty()
    }
}

proof fn lemma_sample_excess_push(vals: Seq<u64>, v: u64, w: nat)
    ensures
        sample_excess(vals.push(v), w) == sample_excess(vals, w) + gap_excess(v as int, w),
{
    assert(vals.push(v).drop_last() =~= vals);
}

proof fn lemma_prefix(trace: Seq<(usize, usize)>, e: usize, w: nat, k: nat)
    requires
        sequential(trace),
        k <= trace.len(),
        trace.len() < u64::MAX,
        w >= 1,
    ensures
        ({
            let st = scan(trace.take(k as int));
            let l = latest(trace, e, k);
            &&& st.reuse.contains_key(e) <==> st.last.contains_key(e)
            &&& st.last.contains_key(e) ==> 1 <= l <= k && trace[l - 1].1 == e
            &&& forall|i: int| l <= i < k ==> #[trigger] trace[i].1 != e
            &&& sample_excess(reuse_so_far(trace, e, k), w) + gap_excess(k + 1 - l, w) == windows_missing(
                trace,
                e,
                w,
                k,
            )
        }),
    decreases k,
{
    if k == 0 {
        assert(trace.take(0) =~= Seq::<(usize, usize)>::empty());
        assert(reuse_so_far(trace, e, 0) =~= Seq::<u64>::empty());
    } else {
        let k0 = (k - 1) as nat;
        lemma_prefix(trace, e, w, k0);
        let pre = trace.take(k0 as int);
        assert(trace.take(k as int).drop_last() =~= pre);
        assert(trace.take(k as int).last() == trace[k0 as int]);
        let x = trace[k0 as int].1;
        assert(trace[k0 as int].0 == k);
        let l0 = latest(trace, e, k0);
        let r0 = reuse_so_far(trace, e, k0);
        if x == e {
            assert(latest(trace, e, k) == k);
            if scan(pre).reuse.contains_key(e) {
                assert(reuse_so_far(trace, e, k) == r0.push((k - l0) as u64));
            } else {
                assert(r0 =~= Seq::<u64>::empty());
                assert(reuse_so_far(trace, e, k) =~= r0.push(k as u64));
            }
            lemma_sample_excess_push(r0, (k - l0) as u64, w);
            if k >= w {
                assert(window_holds(trace, e, k as int, w)) by {
                    assert(trace[k0 as int].1 == e);
                }
            }
        } else {
            assert(latest(trace, e, k) == l0);
            assert(reuse_so_far(trace, e, k) == r0);
            if k >= w {
                if window_holds(trace, e, k as int, w) {
                    let i = choose|i: int| k - w <= i < k && 0 <= i && #[trigger] trace[i].1 == e;
                    assert(i < k0);
                    assert(l0 > i);
                } else {
                    if l0 >= 1 && l0 - 1 >= k - w {
                        assert(trace[l0 - 1].1 == e);
                    }
                }
            }
        }
    }
}

/// The single frequency of an element is the number of windows of
/// `window_size` consecutive accesses that hold it, wherever no bucket of
/// its histogram holds reuse times on both sides of the window size: for
/// every window size below twice the histogram's base (`2^(SUBLOG_BITS +
/// 1)` for the histograms of the pass), and for larger ones on traces whose
/// buckets are not split.
pub proof fn law_single_frequency_counts_windows(trace: Seq<(usize, usize)>, e: usize, window_size: nat, h: Histogram)
    requires
        sequential(trace),
        trace.len() < u64::MAX,
        1 <= window_size <= trace.len(),
        histograms_of(trace).reuse.contains_key(e),
        h.wf(),
        h.values() == histograms_of(trace).reuse[e],
        window_size < 2 * h.base() || unsplit(h.values(), h.base(), window_size),
    ensures
        single_frequency(h, window_size, (trace.len() - window_size + 1) as nat) == windows_holding(
            trace,
            e,
            window_size,
            trace.len(),
        ),
{
    let n = trace.len();
    lemma_prefix(trace, e, window_size, n);
    assert(trace.take(n as int) =~= trace);
    h.lemma_wf_table();
    if window_size < 2 * h.base() {
        lemma_unsplit_small(h.values(), h.base(), window_size);
    }
    lemma_table_unsplit_exact(h.values(), h.base(), h.limit(), window_size);
    let st = scan(trace);
    lemma_sample_excess_push(st.reuse[e], (n + 1 - st.last[e]) as u64, window_size);
}

/// What one access does to the pair filed under `kk` (elements `a`, `b`):
/// it records a switch exactly when the access of `a` switches from `b`
/// with the reverse orientation not filed, or the access of `b` switches
/// from `a` with the pair already filed; an access of `b` that switches
/// from `a` before that files the reverse orientation.
proof fn lemma_step_key(s: ScanState, t: usize, c: usize, kk: u128)
    requires
        is_pair_code(kk),
        code_first(kk) != code_second(kk),
    ensures
        ({
            let a = code_first(kk) as usize;
            let b = code_second(kk) as usize;
            let r = pair_code(b, a);
            let j = if c == a { b } else { a };
            let s2 = step(s, t, c);
            let hit = (c == a && switches(s, t, a, b) && !s.switch.contains_key(r)) || (c == b && switches(
                s,
                t,
                b,
                a,
            ) && s.switch.contains_key(kk));
            &&& s2.last == s.last.insert(c, t)
            &&& (s2.switch.contains_key(kk) <==> s.switch.contains_key(kk) || hit)
            &&& (s2.joint.contains_key(kk) <==> s.joint.contains_key(kk) || hit)
            &&& (s2.last_joint.contains_key(kk) <==> s.last_joint.contains_key(kk) || hit)
            &&& hit ==> {
                &&& s2.switch[kk] == pushed(s.switch, kk, switch_time(s, t, j))
                &&& s2.joint[kk] == pushed(s.joint, kk, (inter_time(s, kk, j) + switch_time(s, t, j)) as u64)
                &&& s2.last_joint[kk] == s.last[j]
            }
            &&& (!hit && s.switch.contains_key(kk)) ==> s2.switch[kk] == s.switch[kk]
            &&& (!hit && s.joint.contains_key(kk)) ==> s2.joint[kk] == s.joint[kk]
            &&& (!hit && s.last_joint.contains_key(kk)) ==> s2.last_joint[kk] == s.last_joint[kk]
            &&& (c == b && switches(s, t, b, a) && !s.switch.contains_key(kk)) ==> s2.switch.contains_key(r)
        }),
{
    let a = code_first(kk) as usize;
    let b = code_second(kk) as usize;
    let r = pair_code(b, a);
    let s1 = reuse_update(s, t, c);
    let d = s1.last.dom();
    let s2 = step(s, t, c);
    let j = if c == a { b } else { a };
    let hit = (c == a && switches(s, t, a, b) && !s.switch.contains_key(r)) || (c == b && switches(s, t, b, a)
        && s.switch.contains_key(kk));
    lemma_code_roundtrip(kk);
    lemma_pair_code(a, b);
    lemma_pair_code(b, a);
    assert(s1.switch == s.switch);
    assert(s1.last == s.last);
    assert(s1.joint == s.joint);
    assert(s1.last_joint == s.last_joint);
    if c == a {
        assert(partner(kk, c) == b);
        assert(stored_key(s1, a, b) == (if s.switch.contains_key(r) { r } else { kk }));
        assert(touched(s1, t, c, d, kk) == hit);
    } else if c == b {
        assert(partner(kk, c) == a);
        assert(stored_key(s1, b, a) == (if s.switch.contains_key(kk) { kk } else { r }));
        assert(touched(s1, t, c, d, kk) == hit);
        assert(partner(r, c) == a);
        if switches(s, t, b, a) && !s.switch.contains_key(kk) {
            assert(touched(s1, t, c, d, r));
        }
    } else {
        assert(partner(kk, c) == a);
        if stored_key(s1, c, a) == kk {
            lemma_pair_code(a, c);
            lemma_pair_code(c, a);
        }
        assert(!touched(s1, t, c, d, kk));
        assert(touched(s1, t, c, d, kk) == hit);
    }
    assert(partner(kk, c) == j || !hit);
    if hit {
        assert(partner(kk, c) == j);
        assert(s2.switch[kk] == pushed(s.switch, kk, switch_time(s, t, j)));
        assert(s2.joint[kk] == pushed(s.joint, kk, (inter_time(s, kk, j) + switch_time(s, t, j)) as u64));
        assert(s2.last_joint[kk] == s.last[j]);
    }
    assert(s2.last =~= s.last.insert(c, t));
}

/// A pair filed after some accesses stays filed.
proof fn lemma_keys_persist(trace: Seq<(usize, usize)>, i: int, j: int)
    requires
        0 <= i <= j <= trace.len(),
    ensures
        forall|k: u128| #[trigger] scan(trace.take(i)).switch.contains_key(k) ==> scan(trace.take(j)).switch.contains_key(k),
    decreases j - i,
{
    if i < j {
        lemma_keys_persist(trace, i, j - 1);
        assert(trace.take(j).drop_last() =~= trace.take(j - 1));
        let s = scan(trace.take(j - 1));
        assert(scan(trace.take(j)) == step(s, trace[j - 1].0, trace[j - 1].1));
        assert forall|k: u128| #[trigger] s.switch.contains_key(k) implies scan(trace.take(j)).switch.contains_key(k) by {
        }
    }
}

/// The latest access of `e` among the first `k`: an access of `e`, with
/// none after it; 0 when `e` was not accessed.
proof fn lemma_latest(trace: Seq<(usize, usize)>, e: usize, k: nat)
    requires
        sequential(trace),
        k <= trace.len(),
    ensures
        ({
            let st = scan(trace.take(k as int));
            let l = latest(trace, e, k);
            &&& st.last.contains_key(e) ==> 1 <= l <= k && trace[l - 1].1 == e
            &&& !st.last.contains_key(e) ==> l == 0
            &&& forall|i: int| l <= i < k ==> #[trigger] trace[i].1 != e
        }),
    decreases k,
{
    if k > 0 {
        let k0 = (k - 1) as nat;
        lemma_latest(trace, e, k0);
        assert(trace.take(k as int).drop_last() =~= trace.take(k0 as int));
        assert(trace.take(k as int).last() == trace[k0 as int]);
        assert(trace[k0 as int].0 == k);
    }
}

/// A window holds `e` exactly when the latest access of `e` up to the
/// window's end falls inside it.
proof fn lemma_window_latest(trace: Seq<(usize, usize)>, e: usize, end: nat, w: nat)
    requires
        sequential(trace),
        1 <= w <= end <= trace.len(),
    ensures
        window_holds(trace, e, end as int, w) <==> latest(trace, e, end) >= end - w + 1,
{
    lemma_latest(trace, e, end);
    let l = latest(trace, e, end);
    if window_holds(trace, e, end as int, w) {
        let i = choose|i: int| end - w <= i < end && 0 <= i && #[trigger] trace[i].1 == e;
        assert(i < l);
    }
    if l >= end - w + 1 {
        assert(trace[l - 1].1 == e);
    }
}

/// The window of `w` accesses ending with access `end` holds both `a` and
/// `b`.
pub open spec fn window_holds_both(trace: Seq<(usize, usize)>, a: usize, b: usize, end: int, w: nat) -> bool {
    window_holds(trace, a, end, w) && window_holds(trace, b, end, w)
}

/// Number of windows of `w` consecutive accesses among the first `k`
/// accesses that hold both `a` and `b`.
pub open spec fn windows_holding_both(trace: Seq<(usize, usize)>, a: usize, b: usize, w: nat, k: nat) -> nat
    decreases k,
{
    if k == 0 || k < w {
        0
    } else {
        windows_holding_both(trace, a, b, w, (k - 1) as nat) + (if window_holds_both(trace, a, b, k as int, w) {
            1nat
        } else {
            0nat
        })
    }
}

/// Number of windows among the first `k` accesses that miss `a` or `b`.
pub open spec fn windows_missing_both(trace: Seq<(usize, usize)>, a: usize, b: usize, w: nat, k: nat) -> int {
    (if k >= w {
        k - w + 1
    } else {
        0int
    }) - windows_holding_both(trace, a, b, w, k)
}

/// The samples filed under `kk`, none if it is not filed.
spec fn filed(m: Map<u128, Seq<u64>>, kk: u128) -> Seq<u64> {
    if m.contains_key(kk) {
        m[kk]
    } else {
        Seq::empty()
    }
}

/// The time the pair's windows are counted from: the earlier element's
/// access at the latest switch, 0 before the first.
spec fn anchor(s: ScanState, kk: u128) -> int {
    if s.last_joint.contains_key(kk) {
        s.last_joint[kk] as int
    } else {
        0
    }
}

spec fn min_int(x: int, y: int) -> int {
    if x <= y {
        x
    } else {
        y
    }
}

/// After the first `k` accesses the pair filed under `kk` is filed once
/// both its elements were seen, its anchor is the earlier of their latest
/// accesses, and the excess of its joint-switch times, less that of its
/// switch times, plus the excess of the open stretch up to `k + 1`, counts
/// the windows so far that miss one of its elements.
proof fn lemma_pair_prefix(trace: Seq<(usize, usize)>, kk: u128, w: nat, k: nat)
    requires
        sequential(trace),
        k <= trace.len(),
        trace.len() < u64::MAX,
        w >= 1,
        is_pair_code(kk),
        code_first(kk) != code_second(kk),
        !scan(trace.take(k as int)).switch.contains_key(
            pair_code(code_second(kk) as usize, code_first(kk) as usize),
        ),
    ensures
        ({
            let a = code_first(kk) as usize;
            let b = code_second(kk) as usize;
            let s = scan(trace.take(k as int));
            let la = latest(trace, a, k);
            let lb = latest(trace, b, k);
            &&& s.switch.contains_key(kk) <==> (la > 0 && lb > 0)
            &&& s.joint.contains_key(kk) <==> s.switch.contains_key(kk)
            &&& s.last_joint.contains_key(kk) <==> s.switch.contains_key(kk)
            &&& anchor(s, kk) == min_int(la, lb)
            &&& sample_excess(filed(s.joint, kk), w) - sample_excess(filed(s.switch, kk), w) + gap_excess(
                k + 1 - anchor(s, kk),
                w,
            ) == windows_missing_both(trace, a, b, w, k)
        }),
    decreases k,
{
    let a = code_first(kk) as usize;
    let b = code_second(kk) as usize;
    let r = pair_code(b, a);
    lemma_code_roundtrip(kk);
    if k == 0 {
        assert(trace.take(0) =~= Seq::<(usize, usize)>::empty());
        assert(filed(scan(trace.take(0)).joint, kk) =~= Seq::<u64>::empty());
        assert(filed(scan(trace.take(0)).switch, kk) =~= Seq::<u64>::empty());
    } else {
        let k0 = (k - 1) as nat;
        lemma_keys_persist(trace, k0 as int, k as int);
        lemma_pair_prefix(trace, kk, w, k0);
        let pre = trace.take(k0 as int);
        assert(trace.take(k as int).drop_last() =~= pre);
        assert(trace.take(k as int).last() == trace[k0 as int]);
        let x = trace[k0 as int].1;
        let t = trace[k0 as int].0;
        assert(t == k);
        let s = scan(pre);
        let s2 = scan(trace.take(k as int));
        assert(s2 == step(s, t, x));
        lemma_step_key(s, t, x, kk);
        lemma_latest(trace, a, k0);
        lemma_latest(trace, b, k0);
        lemma_latest(trace, a, k);
        lemma_latest(trace, b, k);
        let la = latest(trace, a, k0);
        let lb = latest(trace, b, k0);
        let la2 = latest(trace, a, k);
        let lb2 = latest(trace, b, k);
        let u = anchor(s, kk);
        let je = sample_excess(filed(s.joint, kk), w);
        let se = sample_excess(filed(s.switch, kk), w);
        if la > 0 && lb > 0 {
            assert(trace[la - 1].1 == a);
            assert(trace[lb - 1].1 == b);
            assert(la != lb);
        }
        if k >= w {
            lemma_window_latest(trace, a, k, w);
            lemma_window_latest(trace, b, k, w);
        }
        let hit = (x == a && switches(s, t, a, b) && !s.switch.contains_key(r)) || (x == b && switches(s, t, b, a)
            && s.switch.contains_key(kk));
        if x == b && switches(s, t, b, a) && !s.switch.contains_key(kk) {
            assert(s2.switch.contains_key(r));
        }
        if hit {
            let j = if x == a { b } else { a };
            let lj = if x == a { lb } else { la };
            assert(s.last[j] == lj);
            assert(lj >= 1);
            assert(u <= lj);
            let st = (k - lj) as u64;
            let jt = (k - u) as u64;
            assert(switch_time(s, t, j) == st);
            assert((inter_time(s, kk, j) + switch_time(s, t, j)) as u64 == jt);
            assert(filed(s2.switch, kk) == filed(s.switch, kk).push(st));
            assert(filed(s2.joint, kk) == filed(s.joint, kk).push(jt));
            lemma_sample_excess_push(filed(s.switch, kk), st, w);
            lemma_sample_excess_push(filed(s.joint, kk), jt, w);
            assert(anchor(s2, kk) == lj);
        } else {
            assert(filed(s2.switch, kk) == filed(s.switch, kk));
            assert(filed(s2.joint, kk) == filed(s.joint, kk));
            assert(anchor(s2, kk) == u);
        }
    }
}

/// The joint frequency of a pair is the number of windows of
/// `window_size` consecutive accesses that hold both its elements, wherever
/// no bucket of its switch-time or joint-switch-time histogram holds
/// samples on both sides of the window size: for every window size below
/// twice the histograms' base (`2^(SUBLOG_BITS + 1)` for the histograms of
/// the pass), and for larger ones on traces whose buckets are not split.
pub proof fn law_joint_frequency_counts_windows(
    trace: Seq<(usize, usize)>,
    kk: u128,
    window_size: nat,
    sw: Histogram,
    jt: Histogram,
)
    requires
        sequential(trace),
        4 * (trace.len() + 1) < usize::MAX,
        1 <= window_size <= trace.len(),
        histograms_of(trace).switch.contains_key(kk),
        sw.wf(),
        jt.wf(),
        sw.values() == histograms_of(trace).switch[kk],
        jt.values() == histograms_of(trace).joint[kk],
        window_size < 2 * sw.base() || unsplit(sw.values(), sw.base(), window_size),
        window_size < 2 * jt.base() || unsplit(jt.values(), jt.base(), window_size),
    ensures
        joint_frequency(sw, jt, window_size, (trace.len() - window_size + 1) as nat) == windows_holding_both(
            trace,
            code_first(kk) as usize,
            code_second(kk) as usize,
            window_size,
            trace.len(),
        ),
{
    let n = trace.len();
    let w = window_size;
    let a = code_first(kk) as usize;
    let b = code_second(kk) as usize;
    assert(valid_trace(trace)) by {
        assert forall|i: int, j: int| 0 <= i < j < trace.len() implies trace[i].0 <= trace[j].0 by {
            assert(trace[i].0 == i + 1);
            assert(trace[j].0 == j + 1);
        }
        assert forall|i: int| 0 <= i < trace.len() implies trace[i].0 <= trace.len() + 1 by {
            assert(trace[i].0 == i + 1);
        }
    }
    assert forall|i: int| 0 <= i < trace.len() implies 2 * trace[i].0 <= u64::MAX by {
        assert(trace[i].0 == i + 1);
    }
    law_pairs_filed_once(trace);
    law_times_telescope(trace);
    lemma_scan_inv(trace);
    let s = scan(trace);
    let h = histograms_of(trace);
    assert(trace.take(n as int) =~= trace);
    assert(h.switch == s.switch);
    assert(pair_inv(s, kk, n));
    lemma_pair_prefix(trace, kk, w, n);
    let u = anchor(s, kk);
    assert(u == s.last_joint[kk]);
    let sv = s.switch[kk];
    let close = (n + 1 - u) as u64;
    let jv = s.joint[kk].push(close);
    assert(filed(s.switch, kk) == sv);
    assert(filed(s.joint, kk) == s.joint[kk]);
    assert(h.joint[kk] == jv);
    assert(h.switch[kk] == sv);
    lemma_sample_excess_push(s.joint[kk], close, w);
    lemma_excess_shortfall(jv, w);
    assert(jv.len() == sv.len() + 1);
    sw.lemma_wf_table();
    jt.lemma_wf_table();
    if w < 2 * sw.base() {
        lemma_unsplit_small(sv, sw.base(), w);
    }
    if w < 2 * jt.base() {
        lemma_unsplit_small(jv, jt.base(), w);
    }
    lemma_table_unsplit_exact(sv, sw.base(), sw.limit(), w);
    lemma_table_unsplit_exact(jv, jt.base(), jt.limit(), w);
    assert(table_excess(sw.table(), w) == sample_excess(sv, w));
    assert(table_shortfall(jt.table(), w) == sample_shortfall(jv, w));
    assert(seq_sum(jv) == n + 1 + seq_sum(sv));
}

/// Counting windows up to `k`: at most the number of windows so far, and
/// never fewer than counted up to an earlier access.
proof fn lemma_holding_bounds(trace: Seq<(usize, usize)>, e: usize, w: nat, k: nat)
    requires
        w >= 1,
    ensures
        windows_holding(trace, e, w, k) <= (if k >= w { k - w + 1 } else { 0int }),
        forall|j: nat| j <= k ==> #[trigger] windows_holding(trace, e, w, j) <= windows_holding(trace, e, w, k),
    decreases k,
{
    if k > 0 {
        lemma_holding_bounds(trace, e, w, (k - 1) as nat);
    }
}

/// Each element of a trace lies in some window, so its single frequency is
/// at least 1, and at most the number of windows: for every window size,
/// the count never runs out of windows.  (Where buckets are split by the
/// window size, the count may exceed the windows that hold the element.)
pub proof fn law_single_frequency_in_range(trace: Seq<(usize, usize)>, e: usize, window_size: nat, h: Histogram)
    requires
        sequential(trace),
        trace.len() < u64::MAX,
        1 <= window_size <= trace.len(),
        histograms_of(trace).reuse.contains_key(e),
        h.wf(),
        h.values() == histograms_of(trace).reuse[e],
    ensures
        0 <= table_excess(h.table(), window_size) <= trace.len() - window_size,
        1 <= windows_holding(trace, e, window_size, trace.len()) <= single_frequency(
            h,
            window_size,
            (trace.len() - window_size + 1) as nat,
        ) <= trace.len() - window_size + 1,
{
    let n = trace.len();
    let w = window_size;
    lemma_prefix(trace, e, w, n);
    assert(trace.take(n as int) =~= trace);
    h.lemma_wf_table();
    lemma_table_excess_le(h.values(), h.base(), h.limit(), w);
    let st = scan(trace);
    lemma_sample_excess_push(st.reuse[e], (n + 1 - st.last[e]) as u64, w);
    lemma_latest(trace, e, n);
    let l = latest(trace, e, n);
    assert(st.last.contains_key(e));
    assert(trace[l - 1].1 == e);
    let end: nat = if l >= w { l as nat } else { w };
    assert(window_holds(trace, e, end as int, w));
    lemma_holding_bounds(trace, e, w, n);
    assert(windows_holding(trace, e, w, end) >= 1);
}

proof fn lemma_holding_both_le(trace: Seq<(usize, usize)>, a: usize, b: usize, w: nat, k: nat)
    ensures
        windows_holding_both(trace, a, b, w, k) <= windows_holding(trace, a, w, k),
        windows_holding_both(trace, a, b, w, k) <= windows_holding(trace, b, w, k),
    decreases k,
{
    if k > 0 {
        lemma_holding_both_le(trace, a, b, w, (k - 1) as nat);
    }
}

proof fn lemma_holding_both_one(trace: Seq<(usize, usize)>, a: usize, b: usize, k: nat)
    requires
        a != b,
    ensures
        windows_holding_both(trace, a, b, 1, k) == 0,
    decreases k,
{
    if k > 0 {
        lemma_holding_both_one(trace, a, b, (k - 1) as nat);
        if window_holds_both(trace, a, b, k as int, 1) {
            let i = choose|i: int| k - 1 <= i < k && 0 <= i && #[trigger] trace[i].1 == a;
            let j = choose|j: int| k - 1 <= j < k && 0 <= j && #[trigger] trace[j].1 == b;
            assert(i == j);
        }
    }
}

/// A pair's joint frequency is at most the single frequency of each of its
/// elements, so both its affinities lie between 0 and 1 (where no bucket is
/// split by the window size).
pub proof fn law_joint_at_most_single(
    trace: Seq<(usize, usize)>,
    kk: u128,
    window_size: nat,
    sw: Histogram,
    jt: Histogram,
    ha: Histogram,
    hb: Histogram,
)
    requires
        sequential(trace),
        4 * (trace.len() + 1) < usize::MAX,
        1 <= window_size <= trace.len(),
        histograms_of(trace).switch.contains_key(kk),
        sw.wf(),
        jt.wf(),
        ha.wf(),
        hb.wf(),
        sw.values() == histograms_of(trace).switch[kk],
        jt.values() == histograms_of(trace).joint[kk],
        ha.values() == histograms_of(trace).reuse[code_first(kk) as usize],
        hb.values() == histograms_of(trace).reuse[code_second(kk) as usize],
        window_size < 2 * sw.base() || unsplit(sw.values(), sw.base(), window_size),
        window_size < 2 * jt.base() || unsplit(jt.values(), jt.base(), window_size),
        window_size < 2 * ha.base() || unsplit(ha.values(), ha.base(), window_size),
        window_size < 2 * hb.base() || unsplit(hb.values(), hb.base(), window_size),
    ensures
        0 <= joint_frequency(sw, jt, window_size, (trace.len() - window_size + 1) as nat),
        joint_frequency(sw, jt, window_size, (trace.len() - window_size + 1) as nat) <= single_frequency(
            ha,
            window_size,
            (trace.len() - window_size + 1) as nat,
        ),
        joint_frequency(sw, jt, window_size, (trace.len() - window_size + 1) as nat) <= single_frequency(
            hb,
            window_size,
            (trace.len() - window_size + 1) as nat,
        ),
{
    let a = code_first(kk) as usize;
    let b = code_second(kk) as usize;
    law_pairs_filed_once(trace);
    law_joint_frequency_counts_windows(trace, kk, window_size, sw, jt);
    lemma_code_roundtrip(kk);
    assert forall|i: int| 0 <= i < trace.len() implies 2 * trace[i].0 <= u64::MAX by {
        assert(trace[i].0 == i + 1);
    }
    assert(valid_trace(trace)) by {
        assert forall|i: int, j: int| 0 <= i < j < trace.len() implies trace[i].0 <= trace[j].0 by {
            assert(trace[i].0 == i + 1);
            assert(trace[j].0 == j + 1);
        }
        assert forall|i: int| 0 <= i < trace.len() implies trace[i].0 <= trace.len() + 1 by {
            assert(trace[i].0 == i + 1);
        }
    }
    lemma_scan_inv(trace);
    let s = scan(trace);
    assert(histograms_of(trace).switch == s.switch);
    assert(pair_inv(s, kk, trace.len()));
    assert(s.reuse.contains_key(a));
    assert(s.reuse.contains_key(b));
    assert(histograms_of(trace).reuse.contains_key(a));
    assert(histograms_of(trace).reuse.contains_key(b));
    law_single_frequency_counts_windows(trace, a, window_size, ha);
    law_single_frequency_counts_windows(trace, b, window_size, hb);
    lemma_holding_both_le(trace, a, b, window_size, trace.len());
}

/// With windows of one access no window holds two distinct elements: every
/// joint frequency is 0.
pub proof fn law_joint_window_one(trace: Seq<(usize, usize)>, kk: u128, sw: Histogram, jt: Histogram)
    requires
        sequential(trace),
        4 * (trace.len() + 1) < usize::MAX,
        1 <= trace.len(),
        histograms_of(trace).switch.contains_key(kk),
        sw.wf(),
        jt.wf(),
        sw.values() == histograms_of(trace).switch[kk],
        jt.values() == histograms_of(trace).joint[kk],
    ensures
        joint_frequency(sw, jt, 1, trace.len() as nat) == 0,
{
    law_pairs_filed_once(trace);
    law_joint_frequency_counts_windows(trace, kk, 1, sw, jt);
    lemma_holding_both_one(trace, code_first(kk) as usize, code_second(kk) as usize, trace.len());
}

/// A typed trace is the trace of accesses at times 1, 2, 3, ... of its
/// characters' code points: the window laws hold of it, and its histograms
/// are those of the trace of numbers with the same accesses.
pub proof fn law_typed_trace_sequential(chars: Seq<char>, trace: Seq<(usize, usize)>)
    requires
        chars.len() < usize::MAX,
        trace.len() == chars.len(),
        forall|i: int| 0 <= i < trace.len() ==> #[trigger] trace[i] == ((i + 1) as usize, (chars[i] as u32) as usize),
    ensures
        sequential(typed_trace(chars)),
        valid_trace(typed_trace(chars)),
        histograms_of(trace) == histograms_of(typed_trace(chars)),
{
    assert(trace =~= typed_trace(chars));
    let t = typed_trace(chars);
    assert forall|i: int| 0 <= i < t.len() implies #[trigger] t[i].0 == i + 1 by {
    }
    assert forall|i: int, j: int| 0 <= i < j < t.len() implies t[i].0 <= t[j].0 by {
        assert(t[i].0 == i + 1);
        assert(t[j].0 == j + 1);
    }
}

/// A sequential trace is one the pass accepts, and its latest access is at
/// time `n`.
proof fn lemma_sequential_valid(trace: Seq<(usize, usize)>)
    requires
        sequential(trace),
        4 * (trace.len() + 1) < usize::MAX,
    ensures
        valid_trace(trace),
        forall|i: int| 0 <= i < trace.len() ==> 2 * trace[i].0 <= u64::MAX,
        last_time(trace) == trace.len(),
{
    assert forall|i: int, j: int| 0 <= i < j < trace.len() implies trace[i].0 <= trace[j].0 by {
        assert(trace[i].0 == i + 1);
        assert(trace[j].0 == j + 1);
    }
    assert forall|i: int| 0 <= i < trace.len() implies trace[i].0 <= trace.len() + 1 && 2 * trace[i].0 <= u64::MAX by {
        assert(trace[i].0 == i + 1);
    }
    if trace.len() > 0 {
        assert(trace[trace.len() - 1] == trace.last());
    }
}

/// On the histograms the pass builds for a sequential trace, the joint
/// count of every pair succeeds: no step overflows or underflows and the
/// result lies between 0 and the number of windows.  This holds wherever
/// the count counts windows (no bucket split by the window size), on traces
/// short enough that `(n + 2)^2` fits in `u64`.
pub proof fn law_joint_computable(
    trace: Seq<(usize, usize)>,
    kk: u128,
    window_size: nat,
    sw: Histogram,
    jt: Histogram,
)
    requires
        sequential(trace),
        4 * (trace.len() + 1) < usize::MAX,
        (trace.len() + 2) * (trace.len() + 2) <= u64::MAX,
        1 <= window_size <= trace.len(),
        histograms_of(trace).switch.contains_key(kk),
        sw.wf(),
        jt.wf(),
        sw.values() == histograms_of(trace).switch[kk],
        jt.values() == histograms_of(trace).joint[kk],
        window_size < 2 * sw.base() || unsplit(sw.values(), sw.base(), window_size),
        window_size < 2 * jt.base() || unsplit(jt.values(), jt.base(), window_size),
    ensures
        joint_computable(sw, jt, window_size, (trace.len() - window_size + 1) as nat),
{
    let n = trace.len();
    let w = window_size;
    let total = (n - w + 1) as nat;
    let a = code_first(kk) as usize;
    let b = code_second(kk) as usize;
    lemma_sequential_valid(trace);
    law_pairs_filed_once(trace);
    law_joint_frequency_counts_windows(trace, kk, w, sw, jt);
    lemma_scan_inv(trace);
    let s = scan(trace);
    let h = histograms_of(trace);
    assert(h.switch == s.switch);
    assert(pair_inv(s, kk, n));
    assert(s.last.contains_key(a) && s.last.contains_key(b));
    assert(s.last[a] <= n && s.last[b] <= n);
    let sv = s.switch[kk];
    assert(sw.values() == sv);
    assert(seq_sum(sv) <= n);
    assert(sv.len() <= n);
    assert(jt.values() == s.joint[kk].push((n + 1 - s.last_joint[kk]) as u64));
    assert(jt.values().len() == sv.len() + 1);
    sw.lemma_wf_table();
    jt.lemma_wf_table();
    assert(w * jt.values().len() <= n * (n + 1)) by (nonlinear_arith)
        requires
            w <= n,
            jt.values().len() <= n + 1,
    ;
    assert(n * (n + 1) <= (n + 2) * (n + 2)) by (nonlinear_arith);
    if w < 2 * jt.base() {
        lemma_unsplit_small(jt.values(), jt.base(), w);
    }
    lemma_shortfall_fits(jt.values(), jt.base(), jt.limit(), w);
    assert((sv.len() + 1) * w <= (n + 1) * n) by (nonlinear_arith)
        requires
            w <= n,
            sv.len() <= n,
    ;
    assert((n + 1) * n <= (n + 2) * (n + 2)) by (nonlinear_arith);
    assert(total + w + seq_sum(sv) + table_shortfall(jt.table(), w) <= u64::MAX) by (nonlinear_arith)
        requires
            total + w == n + 1,
            seq_sum(sv) <= n,
            table_shortfall(jt.table(), w) <= w * jt.values().len(),
            w * jt.values().len() <= n * (n + 1),
            (n + 2) * (n + 2) <= u64::MAX,
    ;
    lemma_holding_both_le(trace, a, b, w, n);
    lemma_holding_bounds(trace, a, w, n);
    assert(joint_absence(sw, jt, w, total) == total - windows_holding_both(trace, a, b, w, n));
}

/// All histograms of a map are unsplit by `w`.
pub open spec fn maps_unsplit<K>(m: Map<K, Histogram>, w: nat) -> bool {
    forall|k: K| #[trigger] m.contains_key(k) ==> unsplit(m[k].values(), m[k].base(), w)
}

/// The frequencies the pass's histograms give for a sequential trace and a
/// window size below `2^(SUBLOG_BITS + 1)` (or one that splits no bucket):
/// every single count and every joint count succeeds; each single frequency
/// is the number of windows holding the element, between 1 and the number
/// of windows; each joint frequency is the number of windows holding both
/// elements, at most either single frequency, and 0 for windows of one
/// access.
pub proof fn law_frequencies_of_the_pass(
    trace: Seq<(usize, usize)>,
    reuse: Map<usize, Histogram>,
    switch: Map<u128, Histogram>,
    joint: Map<u128, Histogram>,
    window_size: nat,
)
    requires
        sequential(trace),
        4 * (trace.len() + 1) < usize::MAX,
        (trace.len() + 2) * (trace.len() + 2) <= u64::MAX,
        1 <= window_size <= trace.len(),
        hist_matches(reuse, histograms_of(trace).reuse, trace.len() as nat),
        hist_matches(switch, histograms_of(trace).switch, trace.len() as nat),
        hist_matches(joint, histograms_of(trace).joint, trace.len() as nat),
        window_size < 2 * pow2(SUBLOG_BITS as nat) || (maps_unsplit(reuse, window_size) && maps_unsplit(
            switch,
            window_size,
        ) && maps_unsplit(joint, window_size)),
    ensures
        forall|e: usize|
            #[trigger] reuse.contains_key(e) ==> {
                let f = single_frequency(reuse[e], window_size, (trace.len() - window_size + 1) as nat);
                &&& table_excess(reuse[e].table(), window_size) <= trace.len() - window_size + 1
                &&& f == windows_holding(trace, e, window_size, trace.len())
                &&& 1 <= f <= trace.len() - window_size + 1
            },
        forall|k: u128|
            #[trigger] switch.contains_key(k) ==> {
                let f = joint_frequency(switch[k], joint[k], window_size, (trace.len() - window_size + 1) as nat);
                let a = code_first(k) as usize;
                let b = code_second(k) as usize;
                &&& joint.contains_key(k)
                &&& joint_computable(switch[k], joint[k], window_size, (trace.len() - window_size + 1) as nat)
                &&& f == windows_holding_both(trace, a, b, window_size, trace.len())
                &&& reuse.contains_key(a) && reuse.contains_key(b)
                &&& 0 <= f <= single_frequency(reuse[a], window_size, (trace.len() - window_size + 1) as nat)
                &&& f <= single_frequency(reuse[b], window_size, (trace.len() - window_size + 1) as nat)
                &&& window_size == 1 ==> f == 0
            },
{
    let n = trace.len();
    let w = window_size;
    let h = histograms_of(trace);
    lemma_sequential_valid(trace);
    law_pairs_filed_once(trace);
    assert forall|e: usize| #[trigger] reuse.contains_key(e) implies {
        let f = single_frequency(reuse[e], w, (n - w + 1) as nat);
        &&& table_excess(reuse[e].table(), w) <= n - w + 1
        &&& f == windows_holding(trace, e, w, n)
        &&& 1 <= f <= n - w + 1
    } by {
        law_single_frequency_in_range(trace, e, w, reuse[e]);
        law_single_frequency_counts_windows(trace, e, w, reuse[e]);
    }
    assert forall|k: u128| #[trigger] switch.contains_key(k) implies {
        let f = joint_frequency(switch[k], joint[k], w, (n - w + 1) as nat);
        let a = code_first(k) as usize;
        let b = code_second(k) as usize;
        &&& joint.contains_key(k)
        &&& joint_computable(switch[k], joint[k], w, (n - w + 1) as nat)
        &&& f == windows_holding_both(trace, a, b, w, n)
        &&& reuse.contains_key(a) && reuse.contains_key(b)
        &&& 0 <= f <= single_frequency(reuse[a], w, (n - w + 1) as nat)
        &&& f <= single_frequency(reuse[b], w, (n - w + 1) as nat)
        &&& w == 1 ==> f == 0
    } by {
        let a = code_first(k) as usize;
        let b = code_second(k) as usize;
        assert(h.switch.contains_key(k));
        assert(h.joint.contains_key(k));
        lemma_scan_inv(trace);
        let s = scan(trace);
        assert(h.switch == s.switch);
        assert(pair_inv(s, k, n));
        assert(s.reuse.contains_key(a) && s.reuse.contains_key(b));
        assert(h.reuse.contains_key(a) && h.reuse.contains_key(b));
        law_joint_computable(trace, k, w, switch[k], joint[k]);
        law_joint_frequency_counts_windows(trace, k, w, switch[k], joint[k]);
        assert(reuse.contains_key(a) && reuse.contains_key(b));
        law_joint_at_most_single(trace, k, w, switch[k], joint[k], reuse[a], reuse[b]);
        if w == 1 {
            law_joint_window_one(trace, k, switch[k], joint[k]);
        }
    }
}

} // verus!
