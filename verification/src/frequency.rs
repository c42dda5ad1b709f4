//! Window counts from the histograms of a trace.
//!
//! For a window size `w` and `total` windows, the single frequency of an
//! element is the number of windows that hold it, the joint frequency of a
//! pair the number of windows that hold both.  Both are computed from the
//! bucket records of the histograms, never from single samples.
use vstd::prelude::*;
use std::collections::HashMap;
use crate::histogram::{
    Histogram, table_total, seq_sum, seq_min, seq_max, entry_sum, entry_count, bucket_index, bucket_values,
    bucket_summary, bucket_table, lemma_table_total_push, lemma_table_total_zeros, lemma_bucket_values_members,
    lemma_bucket_values_bounded, lemma_bucket_index_low, lemma_table_entries, lemma_table_sum_count, lemma_seq_sum_push, lemma_seq_min_max,
};
use crate::keys::keys_of;

verus! {

/// Windows missed inside the reuse gaps of one bucket: when the bucket's
/// smallest sample exceeds `w`, each of its samples `r` leaves `r - w`
/// windows without the element.
pub open spec fn excess(b: (u64, u64, u64, u64), w: nat) -> int {
    if b.0 != 0 && b.0 > w {
        b.2 - w * b.3
    } else {
        0
    }
}

/// `excess` summed over a bucket table.
pub open spec fn table_excess(t: Seq<(u64, u64, u64, u64)>, w: nat) -> int {
    table_total(t, |b: (u64, u64, u64, u64)| excess(b, w))
}

/// Single frequency of an element with reuse-time histogram `h`.
pub open spec fn single_frequency(h: Histogram, w: nat, total: nat) -> int {
    total - table_excess(h.table(), w)
}

proof fn lemma_total_prefix(t: Seq<(u64, u64, u64, u64)>, i: int, f: spec_fn((u64, u64, u64, u64)) -> int)
    requires
        0 <= i < t.len(),
    ensures
        table_total(t.take(i + 1), f) == table_total(t.take(i), f) + f(t[i]),
{
    assert(t.take(i + 1).drop_last() =~= t.take(i));
}

proof fn lemma_total_prefix_le(t: Seq<(u64, u64, u64, u64)>, i: int, f: spec_fn((u64, u64, u64, u64)) -> int)
    requires
        0 <= i <= t.len(),
        forall|b: int| 0 <= b < t.len() ==> f(#[trigger] t[b]) >= 0,
    ensures
        0 <= table_total(t.take(i), f) <= table_total(t, f),
    decreases t.len() - i,
{
    if i == t.len() {
        assert(t.take(i) =~= t);
        lemma_total_nonneg(t, f);
    } else {
        lemma_total_prefix(t, i, f);
        lemma_total_prefix_le(t, i + 1, f);
        assert forall|b: int| 0 <= b < t.take(i).len() implies f(#[trigger] t.take(i)[b]) >= 0 by {
            assert(t.take(i)[b] == t[b]);
        }
        lemma_total_nonneg(t.take(i), f);
    }
}

proof fn lemma_total_nonneg(t: Seq<(u64, u64, u64, u64)>, f: spec_fn((u64, u64, u64, u64)) -> int)
    requires
        forall|b: int| 0 <= b < t.len() ==> f(#[trigger] t[b]) >= 0,
    ensures
        table_total(t, f) >= 0,
    decreases t.len(),
{
    if t.len() > 0 {
        assert forall|b: int| 0 <= b < t.drop_last().len() implies f(#[trigger] t.drop_last()[b]) >= 0 by {
            assert(t.drop_last()[b] == t[b]);
        }
        lemma_total_nonneg(t.drop_last(), f);
    }
}

/// Single frequency of the element whose reuse times `h` holds; `None`
/// when the count of missed windows exceeds `total_windows`.
fn single_frequency_of(h: &Histogram, window_size: usize, total_windows: usize) -> (r: Option<usize>)
    requires
        h.wf(),
    ensures
        r is Some <==> table_excess(h.table(), window_size as nat) <= total_windows,
        r matches Some(v) ==> v == single_frequency(*h, window_size as nat, total_windows as nat),
{
    let values = h.get_values();
    let ghost f = |b: (u64, u64, u64, u64)| excess(b, window_size as nat);
    let w = window_size as u64;
    proof {
        h.lemma_wf_table();
        assert forall|b: int| 0 <= b < values@.len() implies f(#[trigger] values@[b]) >= 0 by {
            let e = values@[b];
            assert(e == h.table()[b]);
            if e.0 != 0 && e.0 > window_size {
                assert(window_size as int * e.3 as int <= e.0 as int * e.3 as int) by (nonlinear_arith)
                    requires
                        window_size < e.0,
                ;
            }
        }
        assert(values@.take(0) =~= Seq::<(u64, u64, u64, u64)>::empty());
    }
    let mut temp = total_windows;
    let mut i: usize = 0;
    while i < values.len()
        invariant
            i <= values.len(),
            values@ == h.table(),
            w == window_size,
            forall|b: int| 0 <= b < values@.len() ==> f(#[trigger] values@[b]) >= 0,
            forall|b: int| 0 <= b < values@.len() ==> {
                let e = #[trigger] values@[b];
                &&& e.0 as int * e.3 as int <= e.2 as int
            },
            temp == total_windows - table_total(values@.take(i as int), f),
            f == (|b: (u64, u64, u64, u64)| excess(b, window_size as nat)),
        decreases values.len() - i,
    {
        let b = values[i];
        proof {
            lemma_total_prefix(values@, i as int, f);
            lemma_total_prefix_le(values@, i + 1, f);
        }
        if b.0 != 0 && b.0 > w {
            assert(w as int * b.3 as int <= b.0 as int * b.3 as int) by (nonlinear_arith)
                requires
                    w < b.0,
            ;
            let lost = b.2 - w * b.3;
            if lost as u128 > temp as u128 {
                return None;
            }
            temp = temp - lost as usize;
        }
        i = i + 1;
    }
    proof {
        assert(values@.take(i as int) =~= values@);
    }
    Some(temp)
}

/// Single frequencies of all elements, from their reuse-time histograms;
/// `None` when for some element more windows would miss it than there are
/// windows.
pub fn get_single_frequencies(
    reuse_times: &HashMap<usize, Histogram>,
    window_size: usize,
    total_windows: usize,
) -> (r: Option<HashMap<usize, usize>>)
    requires
        forall|e: usize| #[trigger] reuse_times@.contains_key(e) ==> reuse_times@[e].wf(),
    ensures
        r is Some <==> forall|e: usize| #[trigger] reuse_times@.contains_key(e) ==> table_excess(
            reuse_times@[e].table(),
            window_size as nat,
        ) <= total_windows,
        r matches Some(m) ==> {
            &&& m@.dom() == reuse_times@.dom()
            &&& forall|e: usize| #[trigger] m@.contains_key(e) ==> m@[e] == single_frequency(
                reuse_times@[e],
                window_size as nat,
                total_windows as nat,
            )
        },
{
    let keys = keys_of(reuse_times);
    let mut r: HashMap<usize, usize> = HashMap::new();
    let mut i: usize = 0;
    while i < keys.len()
        invariant
            i <= keys.len(),
            keys@.no_duplicates(),
            forall|k: usize| reuse_times@.contains_key(k) <==> #[trigger] keys@.contains(k),
            forall|e: usize| #[trigger] reuse_times@.contains_key(e) ==> reuse_times@[e].wf(),
            forall|e: usize| #[trigger] r@.contains_key(e) <==> keys@.take(i as int).contains(e),
            forall|e: usize| #[trigger] r@.contains_key(e) ==> r@[e] == single_frequency(
                reuse_times@[e],
                window_size as nat,
                total_windows as nat,
            ) && table_excess(reuse_times@[e].table(), window_size as nat) <= total_windows,
        decreases keys.len() - i,
    {
        let e = keys[i];
        proof {
            assert(keys@.contains(e));
        }
        let h = reuse_times.get(&e).unwrap();
        match single_frequency_of(h, window_size, total_windows) {
            None => {
                return None;
            },
            Some(v) => {
                r.insert(e, v);
            },
        }
        proof {
            assert(keys@.take(i + 1) =~= keys@.take(i as int).push(e));
            assert forall|x: usize| #[trigger] r@.contains_key(x) <==> keys@.take(i + 1).contains(x) by {
                if keys@.take(i as int).contains(x) {
                    let j = choose|j: int| 0 <= j < i && #[trigger] keys@.take(i as int)[j] == x;
                    assert(keys@.take(i + 1)[j] == x);
                }
                if keys@.take(i + 1).contains(x) && x != e {
                    let j = choose|j: int| 0 <= j < i + 1 && #[trigger] keys@.take(i + 1)[j] == x;
                    assert(keys@.take(i as int)[j] == x);
                }
                if x == e {
                    assert(keys@.take(i + 1)[i as int] == x);
                }
            }
        }
        i = i + 1;
    }
    proof {
        assert(keys@.take(keys.len() as int) =~= keys@);
        assert(r@.dom() =~= reuse_times@.dom());
    }
    Some(r)
}

/// Windows short of `w` in one joint-switch bucket whose smallest sample
/// is below `w`: `w` per sample, less the samples themselves.
pub open spec fn shortfall(b: (u64, u64, u64, u64), w: nat) -> int {
    if b.0 < w {
        w * b.3 - b.2
    } else {
        0
    }
}

/// `shortfall` summed over a bucket table.
pub open spec fn table_shortfall(t: Seq<(u64, u64, u64, u64)>, w: nat) -> int {
    table_total(t, |b: (u64, u64, u64, u64)| shortfall(b, w))
}

/// Number of windows that miss at least one element of a pair, from its
/// switch-time histogram `sw` and its joint-switch-time histogram `jt`.
pub open spec fn joint_absence(sw: Histogram, jt: Histogram, w: nat, total: nat) -> int {
    total + w + seq_sum(sw.values()) + table_shortfall(jt.table(), w) - (sw.values().len() + 1) * w
        - table_excess(sw.table(), w)
}

/// Joint frequency of a pair.
pub open spec fn joint_frequency(sw: Histogram, jt: Histogram, w: nat, total: nat) -> int {
    total - joint_absence(sw, jt, w, total)
}

/// The running sum of `shortfall` over the first `i` buckets of `t`.
pub open spec fn running_shortfall(t: Seq<(u64, u64, u64, u64)>, w: nat, i: int) -> int {
    table_total(t.take(i), |b: (u64, u64, u64, u64)| shortfall(b, w))
}

/// Each step of the running shortfall, taken bucket by bucket as `w` times
/// the count, added, then the sum subtracted, stays within `u64`: neither
/// product nor addition overflows and no subtraction goes below zero.
pub open spec fn shortfall_steps_fit(t: Seq<(u64, u64, u64, u64)>, w: nat) -> bool {
    forall|i: int|
        0 <= i < t.len() && (#[trigger] t[i]).0 < w ==> {
            &&& w * t[i].3 <= u64::MAX
            &&& running_shortfall(t, w, i) + w * t[i].3 <= u64::MAX
            &&& t[i].2 <= running_shortfall(t, w, i) + w * t[i].3
        }
}

/// The histograms of a pair on which the joint count stays within the
/// machine integers at every step and comes out between 0 and `total`.
pub open spec fn joint_computable(sw: Histogram, jt: Histogram, w: nat, total: nat) -> bool {
    &&& total + w <= usize::MAX
    &&& sw.values().len() + 1 <= u64::MAX
    &&& (sw.values().len() + 1) * w <= u64::MAX
    &&& shortfall_steps_fit(jt.table(), w)
    &&& total + w + seq_sum(sw.values()) + table_shortfall(jt.table(), w) <= u64::MAX
    &&& 0 <= joint_absence(sw, jt, w, total) <= total
}

/// Joint frequency of the pair with switch times `sw` and joint-switch
/// times `jt`; `None` where the count would leave the machine integers or
/// come out negative.
fn joint_frequency_of(sw: &Histogram, jt: &Histogram, window_size: usize, total_windows: usize) -> (r: Option<usize>)
    requires
        sw.wf(),
        jt.wf(),
    ensures
        r is Some <==> joint_computable(*sw, *jt, window_size as nat, total_windows as nat),
        r matches Some(v) ==> v == joint_frequency(*sw, *jt, window_size as nat, total_windows as nat),
{
    let ghost wn = window_size as nat;
    let ghost fe = |b: (u64, u64, u64, u64)| excess(b, wn);
    let ghost fs = |b: (u64, u64, u64, u64)| entry_sum(b);
    let ghost fc = |b: (u64, u64, u64, u64)| entry_count(b);
    let ghost fj = |b: (u64, u64, u64, u64)| shortfall(b, wn);
    let w = window_size as u64;
    let total = match total_windows.checked_add(window_size) {
        Some(x) => x,
        None => {
            return None;
        },
    };
    let sv = sw.get_values();
    proof {
        sw.lemma_wf_table();
        jt.lemma_wf_table();
        assert forall|b: int| 0 <= b < sv@.len() implies fe(#[trigger] sv@[b]) >= 0 && fs(sv@[b]) >= 0 && fc(sv@[b]) >= 0 by {
            let e = sv@[b];
            assert(e == sw.table()[b]);
            if e.0 != 0 && e.0 > window_size {
                assert(window_size as int * e.3 as int <= e.0 as int * e.3 as int) by (nonlinear_arith)
                    requires
                        window_size < e.0,
                ;
            }
        }
        assert(sv@.take(0) =~= Seq::<(u64, u64, u64, u64)>::empty());
        lemma_excess_le_sum(sv@, wn);
    }
    let mut switch_sum: u64 = 0;
    let mut switch_count: u64 = 0;
    let mut switch_adjust: u64 = 0;
    let mut i: usize = 0;
    while i < sv.len()
        invariant
            i <= sv.len(),
            sv@ == sw.table(),
            w == window_size,
            wn == window_size,
            fe == (|b: (u64, u64, u64, u64)| excess(b, wn)),
            fs == (|b: (u64, u64, u64, u64)| entry_sum(b)),
            fc == (|b: (u64, u64, u64, u64)| entry_count(b)),
            forall|b: int| 0 <= b < sv@.len() ==> fe(#[trigger] sv@[b]) >= 0 && fs(sv@[b]) >= 0 && fc(sv@[b]) >= 0,
            forall|b: int| 0 <= b < sv@.len() ==> {
                let e = #[trigger] sv@[b];
                &&& e.0 as int * e.3 as int <= e.2 as int
            },
            table_total(sv@, fs) == seq_sum(sw.values()) <= u64::MAX,
            table_total(sv@, fc) == sw.values().len() <= u64::MAX,
            table_total(sv@, fe) <= table_total(sv@, fs),
            switch_sum == table_total(sv@.take(i as int), fs),
            switch_count == table_total(sv@.take(i as int), fc),
            switch_adjust == table_total(sv@.take(i as int), fe),
        decreases sv.len() - i,
    {
        let b = sv[i];
        proof {
            lemma_total_prefix(sv@, i as int, fs);
            lemma_total_prefix(sv@, i as int, fc);
            lemma_total_prefix(sv@, i as int, fe);
            lemma_total_prefix_le(sv@, i + 1, fs);
            lemma_total_prefix_le(sv@, i + 1, fc);
            lemma_total_prefix_le(sv@, i + 1, fe);
        }
        switch_sum = switch_sum + b.2;
        switch_count = switch_count + b.3;
        if b.0 > w {
            assert(w as int * b.3 as int <= b.0 as int * b.3 as int) by (nonlinear_arith)
                requires
                    w < b.0,
            ;
            switch_adjust = switch_adjust + (b.2 - b.3 * w);
        }
        i = i + 1;
    }
    proof {
        assert(sv@.take(i as int) =~= sv@);
    }
    let sc1 = match switch_count.checked_add(1) {
        Some(x) => x,
        None => {
            return None;
        },
    };
    let switch_windows = match sc1.checked_mul(w) {
        Some(x) => x,
        None => {
            return None;
        },
    };
    let jv = jt.get_values();
    proof {
        assert(jv@.take(0) =~= Seq::<(u64, u64, u64, u64)>::empty());
    }
    let mut joint_adjust: u64 = 0;
    let mut i: usize = 0;
    while i < jv.len()
        invariant
            i <= jv.len(),
            jv@ == jt.table(),
            w == window_size,
            wn == window_size,
            fj == (|b: (u64, u64, u64, u64)| shortfall(b, wn)),
            forall|b: int|
                0 <= b < i && (#[trigger] jv@[b]).0 < wn ==> {
                    &&& wn * jv@[b].3 <= u64::MAX
                    &&& running_shortfall(jv@, wn, b) + wn * jv@[b].3 <= u64::MAX
                    &&& jv@[b].2 <= running_shortfall(jv@, wn, b) + wn * jv@[b].3
                },
            joint_adjust == running_shortfall(jv@, wn, i as int),
        decreases jv.len() - i,
    {
        let b = jv[i];
        proof {
            lemma_total_prefix(jv@, i as int, fj);
        }
        if b.0 < w {
            let m = match w.checked_mul(b.3) {
                Some(x) => x,
                None => {
                    return None;
                },
            };
            let added = match joint_adjust.checked_add(m) {
                Some(x) => x,
                None => {
                    return None;
                },
            };
            if b.2 > added {
                return None;
            }
            joint_adjust = added - b.2;
        }
        i = i + 1;
    }
    proof {
        assert(jv@.take(i as int) =~= jv@);
    }
    let a0 = match (total as u64).checked_add(switch_sum) {
        Some(x) => x,
        None => {
            return None;
        },
    };
    let a1 = match a0.checked_add(joint_adjust) {
        Some(x) => x,
        None => {
            return None;
        },
    };
    let a2 = match a1.checked_sub(switch_windows) {
        Some(x) => x,
        None => {
            return None;
        },
    };
    let absence_windows = match a2.checked_sub(switch_adjust) {
        Some(x) => x,
        None => {
            return None;
        },
    };
    if absence_windows > total_windows as u64 {
        return None;
    }
    Some(total_windows - absence_windows as usize)
}

/// `excess` never exceeds the sum of the samples.
proof fn lemma_excess_le_sum(t: Seq<(u64, u64, u64, u64)>, w: nat)
    requires
        forall|b: int| 0 <= b < t.len() ==> {
            let e = #[trigger] t[b];
            &&& e.0 as int * e.3 as int <= e.2 as int
        },
    ensures
        table_total(t, |b: (u64, u64, u64, u64)| excess(b, w)) <= table_total(t, |b: (u64, u64, u64, u64)| entry_sum(b)),
    decreases t.len(),
{
    if t.len() > 0 {
        assert forall|b: int| 0 <= b < t.drop_last().len() implies {
            let e = #[trigger] t.drop_last()[b];
            &&& e.0 as int * e.3 as int <= e.2 as int
        } by {
            assert(t.drop_last()[b] == t[b]);
        }
        lemma_excess_le_sum(t.drop_last(), w);
        let e = t.last();
        assert(e == t[t.len() - 1]);
        assert(0 <= w * e.3) by (nonlinear_arith);
    }
}

/// Joint frequencies of all pairs, from their switch-time and
/// joint-switch-time histograms; `None` when the count fails for some pair.
pub fn get_joint_frequencies(
    switch_times: &HashMap<u128, Histogram>,
    joint_times: &HashMap<u128, Histogram>,
    window_size: usize,
    total_windows: usize,
) -> (r: Option<HashMap<u128, usize>>)
    requires
        forall|p: u128| #[trigger] switch_times@.contains_key(p) ==> {
            &&& switch_times@[p].wf()
            &&& joint_times@.contains_key(p)
            &&& joint_times@[p].wf()
        },
    ensures
        r is Some <==> forall|p: u128| #[trigger] switch_times@.contains_key(p) ==> joint_computable(
            switch_times@[p],
            joint_times@[p],
            window_size as nat,
            total_windows as nat,
        ),
        r matches Some(m) ==> {
            &&& m@.dom() == switch_times@.dom()
            &&& forall|p: u128| #[trigger] m@.contains_key(p) ==> m@[p] == joint_frequency(
                switch_times@[p],
                joint_times@[p],
                window_size as nat,
                total_windows as nat,
            )
        },
{
    let keys = keys_of(switch_times);
    let mut r: HashMap<u128, usize> = HashMap::new();
    let mut i: usize = 0;
    while i < keys.len()
        invariant
            i <= keys.len(),
            keys@.no_duplicates(),
            forall|k: u128| switch_times@.contains_key(k) <==> #[trigger] keys@.contains(k),
            forall|p: u128| #[trigger] switch_times@.contains_key(p) ==> {
                &&& switch_times@[p].wf()
                &&& joint_times@.contains_key(p)
                &&& joint_times@[p].wf()
            },
            forall|p: u128| #[trigger] r@.contains_key(p) <==> keys@.take(i as int).contains(p),
            forall|p: u128| #[trigger] r@.contains_key(p) ==> r@[p] == joint_frequency(
                switch_times@[p],
                joint_times@[p],
                window_size as nat,
                total_windows as nat,
            ) && joint_computable(switch_times@[p], joint_times@[p], window_size as nat, total_windows as nat),
        decreases keys.len() - i,
    {
        let p = keys[i];
        proof {
            assert(keys@.contains(p));
        }
        let hs = switch_times.get(&p).unwrap();
        let hj = joint_times.get(&p).unwrap();
        match joint_frequency_of(hs, hj, window_size, total_windows) {
            None => {
                return None;
            },
            Some(v) => {
                r.insert(p, v);
            },
        }
        proof {
            assert(keys@.take(i + 1) =~= keys@.take(i as int).push(p));
            assert forall|x: u128| #[trigger] r@.contains_key(x) <==> keys@.take(i + 1).contains(x) by {
                if keys@.take(i as int).contains(x) {
                    let j = choose|j: int| 0 <= j < i && #[trigger] keys@.take(i as int)[j] == x;
                    assert(keys@.take(i + 1)[j] == x);
                }
                if keys@.take(i + 1).contains(x) && x != p {
                    let j = choose|j: int| 0 <= j < i + 1 && #[trigger] keys@.take(i + 1)[j] == x;
                    assert(keys@.take(i as int)[j] == x);
                }
                if x == p {
                    assert(keys@.take(i + 1)[i as int] == x);
                }
            }
        }
        i = i + 1;
    }
    proof {
        assert(keys@.take(keys.len() as int) =~= keys@);
        assert(r@.dom() =~= switch_times@.dom());
    }
    Some(r)
}

/// How far each sample exceeds `w`, summed (samples up to `w` count 0).
pub open spec fn sample_excess(vals: Seq<u64>, w: nat) -> int
    decreases vals.len(),
{
    if vals.len() == 0 {
        0
    } else {
        sample_excess(vals.drop_last(), w) + (if vals.last() > w {
            vals.last() - w
        } else {
            0
        })
    }
}

/// How far each sample falls short of `w`, summed (samples from `w` up
/// count 0).
pub open spec fn sample_shortfall(vals: Seq<u64>, w: nat) -> int
    decreases vals.len(),
{
    if vals.len() == 0 {
        0
    } else {
        sample_shortfall(vals.drop_last(), w) + (if vals.last() < w {
            w - vals.last()
        } else {
            0
        })
    }
}

/// Excess over `w` and shortfall below it together give the samples' sum
/// less `w` per sample.
pub proof fn lemma_excess_shortfall(vals: Seq<u64>, w: nat)
    ensures
        sample_excess(vals, w) == seq_sum(vals) - vals.len() * w + sample_shortfall(vals, w),
    decreases vals.len(),
{
    if vals.len() > 0 {
        lemma_excess_shortfall(vals.drop_last(), w);
        assert(vals.len() * w == (vals.len() - 1) * w + w) by (nonlinear_arith)
            requires
                vals.len() >= 1,
        ;
    }
}

/// No bucket holds samples on both sides of `w`: any two samples that share
/// a bucket are both below `w`, both equal to it, or both above it.
pub open spec fn unsplit(vals: Seq<u64>, base: nat, w: nat) -> bool {
    forall|x: u64, y: u64|
        #![trigger vals.contains(x), vals.contains(y)]
        vals.contains(x) && vals.contains(y) && bucket_index(x as nat, base) == bucket_index(y as nat, base) ==> {
            &&& (x > w) == (y > w)
            &&& (x < w) == (y < w)
        }
}

proof fn lemma_bucket_values_in(vals: Seq<u64>, base: nat, b: nat)
    ensures
        forall|i: int| 0 <= i < bucket_values(vals, base, b).len() ==> vals.contains(#[trigger] bucket_values(vals, base, b)[i]),
    decreases vals.len(),
{
    if vals.len() > 0 {
        let p = vals.drop_last();
        lemma_bucket_values_in(p, base, b);
        let prev = bucket_values(p, base, b);
        let cur = bucket_values(vals, base, b);
        assert forall|i: int| 0 <= i < cur.len() implies vals.contains(#[trigger] cur[i]) by {
            if i < prev.len() {
                assert(cur[i] == prev[i]);
                let x = choose|x: int| 0 <= x < p.len() && p[x] == prev[i];
                assert(vals[x] == p[x]);
            } else {
                assert(cur[i] == vals.last());
                assert(vals[vals.len() - 1] == vals.last());
            }
        }
    }
}

/// Where no bucket holds samples on both sides of `w`, the bucket records
/// give the exact excess and the exact shortfall of the samples.
pub proof fn lemma_table_unsplit_exact(vals: Seq<u64>, base: nat, limit: nat, w: nat)
    requires
        base >= 1,
        unsplit(vals, base, w),
        seq_sum(vals) <= u64::MAX,
        vals.len() <= u64::MAX,
    ensures
        table_excess(bucket_table(vals, base, limit), w) == sample_excess(vals, w),
        table_shortfall(bucket_table(vals, base, limit), w) == sample_shortfall(vals, w),
    decreases vals.len(),
{
    let fe = |b: (u64, u64, u64, u64)| excess(b, w);
    let fs = |b: (u64, u64, u64, u64)| shortfall(b, w);
    assert(fs((0u64, 0u64, 0u64, 0u64)) == 0) by {
        assert(w * 0 == 0);
    }
    if vals.len() == 0 {
        let t = bucket_table(vals, base, limit);
        assert forall|b: int| 0 <= b < t.len() implies #[trigger] t[b] == (0u64, 0u64, 0u64, 0u64) by {
            lemma_bucket_values_bounded(vals, base, b as nat);
        }
        lemma_table_total_zeros(Seq::empty(), t.len(), fe);
        lemma_table_total_zeros(Seq::empty(), t.len(), fs);
        assert(t =~= Seq::<(u64, u64, u64, u64)>::empty() + Seq::new(t.len(), |b: int| (0u64, 0u64, 0u64, 0u64)));
    } else {
        let p = vals.drop_last();
        let v = vals.last();
        assert(p.push(v) =~= vals);
        assert(vals.contains(v)) by {
            assert(vals[vals.len() - 1] == v);
        }
        assert(unsplit(p, base, w)) by {
            assert forall|x: u64, y: u64|
                #![trigger p.contains(x), p.contains(y)]
                p.contains(x) && p.contains(y) && bucket_index(x as nat, base) == bucket_index(y as nat, base) implies {
                    &&& (x > w) == (y > w)
                    &&& (x < w) == (y < w)
                } by {
                let i = choose|i: int| 0 <= i < p.len() && p[i] == x;
                let j = choose|j: int| 0 <= j < p.len() && p[j] == y;
                assert(vals[i] == x);
                assert(vals[j] == y);
                assert(vals.contains(x) && vals.contains(y));
            }
        }
        lemma_seq_sum_push(p, v);
        lemma_table_unsplit_exact(p, base, limit, w);
        lemma_table_total_push(p, v, base, limit, fe);
        lemma_table_total_push(p, v, base, limit, fs);
        let idx = bucket_index(v as nat, base);
        let bv = bucket_values(p, base, idx);
        let nv = bv.push(v);
        lemma_bucket_values_members(p, base, idx);
        lemma_bucket_values_in(p, base, idx);
        lemma_bucket_values_bounded(p, base, idx);
        lemma_seq_sum_push(bv, v);
        let k = bv.len();
        assert forall|i: int| 0 <= i < bv.len() implies (#[trigger] bv[i] > w) == (v > w) && (bv[i] < w) == (v < w) by {
            assert(p.contains(bv[i]));
            let x = choose|x: int| 0 <= x < p.len() && p[x] == bv[i];
            assert(vals[x] == bv[i]);
            assert(vals.contains(bv[i]));
            assert(bucket_index(bv[i] as nat, base) == idx);
        }
        lemma_seq_min_max(nv);
        assert(nv.contains(seq_min(nv)));
        let mi = choose|i: int| 0 <= i < nv.len() && nv[i] == seq_min(nv);
        if mi < k {
            assert(nv[mi] == bv[mi]);
        }
        assert((seq_min(nv) > w) == (v > w) && (seq_min(nv) < w) == (v < w));
        if k > 0 {
            lemma_seq_min_max(bv);
            let j = choose|j: int| 0 <= j < bv.len() && bv[j] == seq_min(bv);
            assert((seq_min(bv) > w) == (v > w) && (seq_min(bv) < w) == (v < w));
        }
        assert(bucket_summary(nv) == (seq_min(nv), seq_max(nv), (seq_sum(bv) + v) as u64, (k + 1) as u64));
        assert(w * (k + 1) == w * k + w) by (nonlinear_arith);
        if v > w {
            assert(fe(bucket_summary(nv)) == seq_sum(bv) + v - w * (k + 1));
            if k > 0 {
                assert(fe(bucket_summary(bv)) == seq_sum(bv) - w * k);
            } else {
                assert(seq_sum(bv) == 0);
            }
            assert(fs(bucket_summary(nv)) == 0);
            assert(fs(bucket_summary(bv)) == 0);
        } else if v < w {
            assert(fe(bucket_summary(nv)) == 0);
            assert(fe(bucket_summary(bv)) == 0);
            assert(fs(bucket_summary(nv)) == w * (k + 1) - (seq_sum(bv) + v));
            if k > 0 {
                assert(fs(bucket_summary(bv)) == w * k - seq_sum(bv));
            } else {
                assert(seq_sum(bv) == 0);
                assert(w * k == 0);
            }
        } else {
            assert(fe(bucket_summary(nv)) == 0);
            assert(fe(bucket_summary(bv)) == 0);
            assert(fs(bucket_summary(nv)) == 0);
            assert(fs(bucket_summary(bv)) == 0);
        }
    }
}

/// The bucket records never overstate the excess of the samples: a bucket
/// is counted only when its smallest sample exceeds `w`, and then exactly;
/// and no bucket's excess is negative.
pub proof fn lemma_table_excess_le(vals: Seq<u64>, base: nat, limit: nat, w: nat)
    requires
        base >= 1,
        seq_sum(vals) <= u64::MAX,
        vals.len() <= u64::MAX,
    ensures
        0 <= table_excess(bucket_table(vals, base, limit), w) <= sample_excess(vals, w),
{
    lemma_table_excess_le_samples(vals, base, limit, w);
    let t = bucket_table(vals, base, limit);
    let fe = |b: (u64, u64, u64, u64)| excess(b, w);
    lemma_table_entries(vals, base, limit);
    assert forall|b: int| 0 <= b < t.len() implies fe(#[trigger] t[b]) >= 0 by {
        let e = t[b];
        if e.0 != 0 && e.0 > w {
            assert(w * e.3 <= e.0 as int * e.3 as int) by (nonlinear_arith)
                requires
                    w < e.0,
            ;
        }
    }
    lemma_total_nonneg(t, fe);
}

proof fn lemma_table_excess_le_samples(vals: Seq<u64>, base: nat, limit: nat, w: nat)
    requires
        base >= 1,
        seq_sum(vals) <= u64::MAX,
        vals.len() <= u64::MAX,
    ensures
        table_excess(bucket_table(vals, base, limit), w) <= sample_excess(vals, w),
    decreases vals.len(),
{
    let fe = |b: (u64, u64, u64, u64)| excess(b, w);
    if vals.len() == 0 {
        let t = bucket_table(vals, base, limit);
        assert forall|b: int| 0 <= b < t.len() implies #[trigger] t[b] == (0u64, 0u64, 0u64, 0u64) by {
            lemma_bucket_values_bounded(vals, base, b as nat);
        }
        lemma_table_total_zeros(Seq::empty(), t.len(), fe);
        assert(t =~= Seq::<(u64, u64, u64, u64)>::empty() + Seq::new(t.len(), |b: int| (0u64, 0u64, 0u64, 0u64)));
    } else {
        let p = vals.drop_last();
        let v = vals.last();
        assert(p.push(v) =~= vals);
        lemma_seq_sum_push(p, v);
        lemma_table_excess_le_samples(p, base, limit, w);
        lemma_table_total_push(p, v, base, limit, fe);
        let idx = bucket_index(v as nat, base);
        let bv = bucket_values(p, base, idx);
        let nv = bv.push(v);
        lemma_bucket_values_bounded(p, base, idx);
        lemma_seq_sum_push(bv, v);
        let k = bv.len();
        lemma_seq_min_max(nv);
        assert(bucket_summary(nv) == (seq_min(nv), seq_max(nv), (seq_sum(bv) + v) as u64, (k + 1) as u64));
        assert(nv[k as int] == v);
        if k > 0 {
            lemma_seq_min_max(bv);
            assert forall|i: int| 0 <= i < bv.len() implies seq_min(nv) <= #[trigger] bv[i] by {
                assert(nv[i] == bv[i]);
            }
            let j = choose|j: int| 0 <= j < bv.len() && bv[j] == seq_min(bv);
            assert(seq_min(nv) <= seq_min(bv));
            if seq_min(bv) > w {
                assert(seq_sum(bv) >= k * seq_min(bv));
                assert(k * seq_min(bv) >= k * w) by (nonlinear_arith)
                    requires
                        seq_min(bv) > w,
                ;
                assert(fe(bucket_summary(bv)) == seq_sum(bv) - w * k);
            } else {
                assert(fe(bucket_summary(bv)) == 0);
            }
        } else {
            assert(seq_sum(bv) == 0);
            assert(fe(bucket_summary(bv)) == 0);
        }
        if seq_min(nv) > w {
            assert(v > w);
            assert(w * (k + 1) == w * k + w) by (nonlinear_arith);
            assert(fe(bucket_summary(nv)) == seq_sum(bv) + v - w * (k + 1));
        } else {
            assert(fe(bucket_summary(nv)) == 0);
        }
    }
}

proof fn lemma_total_le(t: Seq<(u64, u64, u64, u64)>, f: spec_fn((u64, u64, u64, u64)) -> int, g: spec_fn((u64, u64, u64, u64)) -> int)
    requires
        forall|b: int| 0 <= b < t.len() ==> f(#[trigger] t[b]) <= g(t[b]),
    ensures
        table_total(t, f) <= table_total(t, g),
    decreases t.len(),
{
    if t.len() > 0 {
        assert forall|b: int| 0 <= b < t.drop_last().len() implies f(#[trigger] t.drop_last()[b]) <= g(t.drop_last()[b]) by {
            assert(t.drop_last()[b] == t[b]);
        }
        lemma_total_le(t.drop_last(), f, g);
        assert(f(t.last()) <= g(t.last())) by {
            assert(t.last() == t[t.len() - 1]);
        }
    }
}

proof fn lemma_total_scaled_count(t: Seq<(u64, u64, u64, u64)>, w: nat)
    ensures
        table_total(t, |b: (u64, u64, u64, u64)| w * b.3) == w * table_total(t, |b: (u64, u64, u64, u64)| entry_count(b)),
    decreases t.len(),
{
    if t.len() > 0 {
        lemma_total_scaled_count(t.drop_last(), w);
        let a = table_total(t.drop_last(), |b: (u64, u64, u64, u64)| entry_count(b));
        let c = t.last().3 as int;
        assert(w * (a + c) == w * a + w * c) by (nonlinear_arith);
    }
}

/// Where no bucket is split by `w`, each bucket whose smallest sample is
/// below `w` has all its samples below `w`, so the running shortfall never
/// goes down; it stays within `u64` while `w` times the number of samples
/// does.
pub proof fn lemma_shortfall_fits(vals: Seq<u64>, base: nat, limit: nat, w: nat)
    requires
        base >= 1,
        unsplit(vals, base, w),
        seq_sum(vals) <= u64::MAX,
        vals.len() <= u64::MAX,
        w * vals.len() <= u64::MAX,
    ensures
        shortfall_steps_fit(bucket_table(vals, base, limit), w),
        0 <= table_shortfall(bucket_table(vals, base, limit), w) <= w * vals.len(),
{
    let t = bucket_table(vals, base, limit);
    let fs = |b: (u64, u64, u64, u64)| shortfall(b, w);
    let g = |b: (u64, u64, u64, u64)| if b.0 < w { w * b.3 } else { 0 };
    let gw = |b: (u64, u64, u64, u64)| w * b.3;
    lemma_table_entries(vals, base, limit);
    lemma_table_sum_count(vals, base, limit);
    lemma_total_scaled_count(t, w);
    assert forall|b: int| 0 <= b < t.len() implies 0 <= fs(#[trigger] t[b]) <= g(t[b]) && g(t[b]) <= gw(t[b]) && t[b].2 <= g(t[b]) + (if t[b].0 < w { 0int } else { t[b].2 as int }) by {
        let e = t[b];
        assert(0 <= w * e.3) by (nonlinear_arith);
        if e.0 < w && e.3 > 0 {
            let bv = bucket_values(vals, base, b as nat);
            assert(e == bucket_summary(bv));
            assert(bv.len() > 0);
            lemma_seq_min_max(bv);
            lemma_bucket_values_in(vals, base, b as nat);
            lemma_bucket_values_members(vals, base, b as nat);
            let i = choose|i: int| 0 <= i < bv.len() && bv[i] == seq_min(bv);
            let j = choose|j: int| 0 <= j < bv.len() && bv[j] == seq_max(bv);
            assert(vals.contains(bv[i]) && vals.contains(bv[j]));
            assert(bucket_index(bv[i] as nat, base) == bucket_index(bv[j] as nat, base));
            assert(e.1 < w);
            assert(e.1 as int * e.3 as int <= w * e.3) by (nonlinear_arith)
                requires
                    e.1 < w,
            ;
        }
    }
    lemma_total_le(t, fs, g);
    lemma_total_le(t, g, gw);
    assert forall|b: int| 0 <= b < t.len() implies fs(#[trigger] t[b]) >= 0 && g(t[b]) >= 0 by {
    }
    lemma_total_nonneg(t, fs);
    assert forall|i: int|
        0 <= i < t.len() && (#[trigger] t[i]).0 < w implies {
            &&& w * t[i].3 <= u64::MAX
            &&& running_shortfall(t, w, i) + w * t[i].3 <= u64::MAX
            &&& t[i].2 <= running_shortfall(t, w, i) + w * t[i].3
        } by {
        lemma_total_prefix(t, i, g);
        lemma_total_prefix_le(t, i + 1, g);
        lemma_total_prefix_le(t, i, fs);
        assert forall|b: int| 0 <= b < t.take(i).len() implies fs(#[trigger] t.take(i)[b]) <= g(t.take(i)[b]) by {
            assert(t.take(i)[b] == t[b]);
        }
        lemma_total_le(t.take(i), fs, g);
    }
}

/// Below `2 * base` every bucket holds a single value and above it every
/// bucket lies wholly above `w`: no bucket is split by such a `w`.
pub proof fn lemma_unsplit_small(vals: Seq<u64>, base: nat, w: nat)
    requires
        base >= 1,
        w < 2 * base,
    ensures
        unsplit(vals, base, w),
{
    assert forall|x: u64, y: u64|
        #![trigger vals.contains(x), vals.contains(y)]
        vals.contains(x) && vals.contains(y) && bucket_index(x as nat, base) == bucket_index(y as nat, base) implies {
            &&& (x > w) == (y > w)
            &&& (x < w) == (y < w)
        } by {
        lemma_bucket_index_low(x as nat, base);
        lemma_bucket_index_low(y as nat, base);
    }
}

/// Number of windows of `window_size` consecutive accesses in a trace of
/// `trace_length` accesses, `trace_length - window_size + 1`; `None` when
/// the window is longer than the trace or the count does not fit.
pub fn total_windows(trace_length: usize, window_size: usize) -> (r: Option<usize>)
    ensures
        r is Some <==> window_size <= trace_length && trace_length - window_size + 1 <= usize::MAX,
        r matches Some(t) ==> t == trace_length - window_size + 1,
{
    if window_size > trace_length {
        None
    } else {
        (trace_length - window_size).checked_add(1)
    }
}

} // verus!
