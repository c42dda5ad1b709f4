//! The histogram pass over a trace.
//!
//! A trace is a sequence of `(time, element)` accesses.  The pass records,
//! for every element, its reuse times (time since its previous access, the
//! first access counted from time 0, and a last one up to the end of the
//! trace), and for every unordered pair of elements its switch times, its
//! inter-switch times and its joint-switch times.
use vstd::prelude::*;
use std::collections::HashMap;
use vstd::arithmetic::power2::pow2;
use crate::histogram::{Histogram, seq_sum, lemma_seq_sum_push};
use crate::pair::{pair_code, code_first, code_second, is_pair_code, lemma_pair_code, lemma_pair_code_injective, lemma_code_roundtrip, pair_code_of};

verus! {

/// What the pass knows after a prefix of the trace.  Pair maps are keyed by
/// `pair_code` of the orientation in which the pair was first met.
pub struct ScanState {
    /// Time of the latest access of each element seen so far.
    pub last: Map<usize, usize>,
    /// For each pair, the access time of its earlier element at its latest switch.
    pub last_joint: Map<u128, usize>,
    pub reuse: Map<usize, Seq<u64>>,
    pub switch: Map<u128, Seq<u64>>,
    pub inter: Map<u128, Seq<u64>>,
    pub joint: Map<u128, Seq<u64>>,
}

pub open spec fn empty_state() -> ScanState {
    ScanState {
        last: Map::empty(),
        last_joint: Map::empty(),
        reuse: Map::empty(),
        switch: Map::empty(),
        inter: Map::empty(),
        joint: Map::empty(),
    }
}

/// An access of `c` at time `t` is a switch from the earlier element `j`:
/// `j` was seen, and more recently than `c` (or `c` was never seen).
pub open spec fn switches(s: ScanState, t: usize, c: usize, j: usize) -> bool {
    &&& s.last.contains_key(j)
    &&& j != c
    &&& (!s.last.contains_key(c) || t - s.last[j] < t - s.last[c])
}

/// Key under which the pair of `c` and `j` is filed: the orientation stored
/// already, or `(c, j)` for a pair met for the first time.
pub open spec fn stored_key(s: ScanState, c: usize, j: usize) -> u128 {
    if s.switch.contains_key(pair_code(j, c)) {
        pair_code(j, c)
    } else {
        pair_code(c, j)
    }
}

/// The element of the pair keyed `k` that is not `c`.
pub open spec fn partner(k: u128, c: usize) -> usize {
    if code_first(k) == c {
        code_second(k) as usize
    } else {
        code_first(k) as usize
    }
}

/// The access of `c` at `t` records a switch under key `k`, counting only
/// partners in `done`.
pub open spec fn touched(s: ScanState, t: usize, c: usize, done: Set<usize>, k: u128) -> bool {
    let j = partner(k, c);
    &&& done.contains(j)
    &&& switches(s, t, c, j)
    &&& stored_key(s, c, j) == k
}

/// `m[k]` with `v` appended; a one-sample sequence for a new key.
pub open spec fn pushed(m: Map<u128, Seq<u64>>, k: u128, v: u64) -> Seq<u64> {
    if m.contains_key(k) {
        m[k].push(v)
    } else {
        seq![v]
    }
}

/// Switch time: from the latest access of `j` to `t`.
pub open spec fn switch_time(s: ScanState, t: usize, j: usize) -> u64 {
    (t - s.last[j]) as u64
}

/// Inter-switch time: from the previous switch of the pair keyed `k` (or
/// from time 0) to the latest access of `j`.
pub open spec fn inter_time(s: ScanState, k: u128, j: usize) -> u64 {
    (if s.last_joint.contains_key(k) {
        s.last[j] - s.last_joint[k]
    } else {
        s.last[j] as int
    }) as u64
}

/// The pair maps after the access of `c` at `t` has recorded its switches
/// with the partners in `done`.
pub open spec fn pair_update(s: ScanState, t: usize, c: usize, done: Set<usize>) -> ScanState {
    ScanState {
        last: s.last,
        reuse: s.reuse,
        switch: Map::new(
            |k: u128| s.switch.contains_key(k) || touched(s, t, c, done, k),
            |k: u128|
                if touched(s, t, c, done, k) {
                    pushed(s.switch, k, switch_time(s, t, partner(k, c)))
                } else {
                    s.switch[k]
                },
        ),
        inter: Map::new(
            |k: u128| s.inter.contains_key(k) || touched(s, t, c, done, k),
            |k: u128|
                if touched(s, t, c, done, k) {
                    pushed(s.inter, k, inter_time(s, k, partner(k, c)))
                } else {
                    s.inter[k]
                },
        ),
        joint: Map::new(
            |k: u128| s.joint.contains_key(k) || touched(s, t, c, done, k),
            |k: u128|
                if touched(s, t, c, done, k) {
                    pushed(
                        s.joint,
                        k,
                        (inter_time(s, k, partner(k, c)) + switch_time(s, t, partner(k, c))) as u64,
                    )
                } else {
                    s.joint[k]
                },
        ),
        last_joint: Map::new(
            |k: u128| s.last_joint.contains_key(k) || touched(s, t, c, done, k),
            |k: u128|
                if touched(s, t, c, done, k) {
                    s.last[partner(k, c)]
                } else {
                    s.last_joint[k]
                },
        ),
    }
}

/// The reuse time of the access of `c` at `t` (its time itself when `c`
/// is new) appended to the reuse times of `c`.
pub open spec fn reuse_update(s: ScanState, t: usize, c: usize) -> ScanState {
    ScanState {
        reuse: s.reuse.insert(
            c,
            if s.reuse.contains_key(c) {
                s.reuse[c].push((t - s.last[c]) as u64)
            } else {
                seq![t as u64]
            },
        ),
        ..s
    }
}

/// One access of `c` at time `t`.
pub open spec fn step(s: ScanState, t: usize, c: usize) -> ScanState {
    let s1 = reuse_update(s, t, c);
    let s2 = pair_update(s1, t, c, s1.last.dom());
    ScanState { last: s2.last.insert(c, t), ..s2 }
}

/// The state after the whole of `trace`.
pub open spec fn scan(trace: Seq<(usize, usize)>) -> ScanState
    decreases trace.len(),
{
    if trace.len() == 0 {
        empty_state()
    } else {
        step(scan(trace.drop_last()), trace.last().0, trace.last().1)
    }
}

/// Closing times at the end of a trace of length `n`: each element gets a
/// last reuse time up to `n + 1`, each pair a last inter-switch (and
/// joint-switch) time from its latest switch to `n + 1`.
pub open spec fn finalize(s: ScanState, n: nat) -> ScanState {
    ScanState {
        reuse: Map::new(
            |e: usize| s.reuse.contains_key(e),
            |e: usize| s.reuse[e].push((n + 1 - s.last[e]) as u64),
        ),
        inter: Map::new(
            |k: u128| s.inter.contains_key(k),
            |k: u128| s.inter[k].push((n + 1 - s.last_joint[k]) as u64),
        ),
        joint: Map::new(
            |k: u128| s.joint.contains_key(k),
            |k: u128| s.joint[k].push((n + 1 - s.last_joint[k]) as u64),
        ),
        ..s
    }
}

/// The four sample collections the pass hands out for `trace`.
pub open spec fn histograms_of(trace: Seq<(usize, usize)>) -> ScanState {
    finalize(scan(trace), trace.len())
}

/// Access times never go back.
pub open spec fn times_nondecreasing(trace: Seq<(usize, usize)>) -> bool {
    forall|i: int, j: int| 0 <= i < j < trace.len() ==> trace[i].0 <= trace[j].0
}

/// The traces the pass accepts: times never go back and none is past
/// `n + 1`.
pub open spec fn valid_trace(trace: Seq<(usize, usize)>) -> bool {
    &&& times_nondecreasing(trace)
    &&& forall|i: int| 0 <= i < trace.len() ==> trace[i].0 <= trace.len() + 1
}

/// What holds of a pair after some steps: it packs two distinct elements
/// that were both seen, its reverse is not filed, and its sample sums add
/// up (inter-switch times telescope to the latest switch, switch times are
/// bounded by the latest access of the pair).
pub open spec fn pair_inv(s: ScanState, k: u128, steps: nat) -> bool {
    let a = code_first(k) as usize;
    let b = code_second(k) as usize;
    &&& is_pair_code(k)
    &&& a != b
    &&& s.last.contains_key(a)
    &&& s.last.contains_key(b)
    &&& !s.switch.contains_key(pair_code(b, a))
    &&& s.last_joint[k] <= s.last[a]
    &&& s.last_joint[k] <= s.last[b]
    &&& seq_sum(s.inter[k]) == s.last_joint[k]
    &&& (seq_sum(s.switch[k]) <= s.last[a] || seq_sum(s.switch[k]) <= s.last[b])
    &&& seq_sum(s.joint[k]) == seq_sum(s.inter[k]) + seq_sum(s.switch[k])
    &&& 1 <= s.switch[k].len() <= steps
    &&& s.inter[k].len() == s.switch[k].len()
    &&& s.joint[k].len() == s.switch[k].len()
}

/// What holds of the pass after `steps` accesses, the latest at time `bound`.
pub open spec fn scan_inv(s: ScanState, bound: nat, steps: nat) -> bool {
    &&& s.reuse.dom() == s.last.dom()
    &&& s.inter.dom() == s.switch.dom()
    &&& s.joint.dom() == s.switch.dom()
    &&& s.last_joint.dom() == s.switch.dom()
    &&& forall|x: usize| #[trigger] s.last.contains_key(x) ==> s.last[x] <= bound
    &&& forall|x: usize| #[trigger] s.reuse.contains_key(x) ==> seq_sum(s.reuse[x]) == s.last[x]
        && 1 <= s.reuse[x].len() <= steps
    &&& forall|k: u128| #[trigger] s.switch.contains_key(k) ==> pair_inv(s, k, steps)
}

pub proof fn lemma_partner(c: usize, j: usize)
    requires
        c != j,
    ensures
        partner(pair_code(c, j), c) == j,
        partner(pair_code(j, c), c) == j,
{
    lemma_pair_code(c, j);
    lemma_pair_code(j, c);
}

pub proof fn lemma_touched_key(s: ScanState, t: usize, c: usize, done: Set<usize>, k: u128)
    requires
        touched(s, t, c, done, k),
    ensures
        is_pair_code(k),
        k == pair_code(c, partner(k, c)) || k == pair_code(partner(k, c), c),
        partner(k, c) != c,
{
    let j = partner(k, c);
    lemma_pair_code(c, j);
    lemma_pair_code(j, c);
}

proof fn lemma_step_pair(s: ScanState, t: usize, c: usize, bound: nat, steps: nat, k: u128)
    requires
        scan_inv(s, bound, steps),
        bound <= t,
        2 * t <= u64::MAX,
        step(s, t, c).switch.contains_key(k),
    ensures
        pair_inv(step(s, t, c), k, steps + 1),
{
    let s1 = reuse_update(s, t, c);
    let d = s1.last.dom();
    let s2 = step(s, t, c);
    let a = code_first(k) as usize;
    let b = code_second(k) as usize;
    if touched(s1, t, c, d, k) {
        let j = partner(k, c);
        lemma_touched_key(s1, t, c, d, k);
        lemma_partner(c, j);
        lemma_pair_code(c, j);
        lemma_pair_code(j, c);
        assert(s.last[j] <= bound);
        if s.switch.contains_key(k) {
            assert(pair_inv(s, k, steps));
            lemma_seq_sum_push(s.inter[k], inter_time(s1, k, j));
            lemma_seq_sum_push(s.switch[k], switch_time(s1, t, j));
            lemma_seq_sum_push(s.joint[k], (inter_time(s1, k, j) + switch_time(s1, t, j)) as u64);
        } else {
            lemma_seq_sum_push(Seq::empty(), inter_time(s1, k, j));
            lemma_seq_sum_push(Seq::empty(), switch_time(s1, t, j));
            lemma_seq_sum_push(Seq::empty(), (inter_time(s1, k, j) + switch_time(s1, t, j)) as u64);
        }
        let r = pair_code(b, a);
        lemma_code_roundtrip(k);
        if touched(s1, t, c, d, r) {
            lemma_touched_key(s1, t, c, d, r);
            lemma_pair_code_injective(b, a, c, partner(r, c));
            lemma_pair_code_injective(b, a, partner(r, c), c);
        }
        if s.switch.contains_key(r) {
            assert(pair_inv(s, r, steps));
            lemma_pair_code(b, a);
            lemma_pair_code(a, b);
        }
        assert(!s2.switch.contains_key(r));
        assert(is_pair_code(k));
        assert(a != b);
        assert(s2.last.contains_key(a));
        assert(s2.last.contains_key(b));
        assert(s2.last_joint[k] <= s2.last[a]);
        assert(s2.last_joint[k] <= s2.last[b]);
        assert(seq_sum(s2.inter[k]) == s2.last_joint[k]);
        assert(seq_sum(s2.switch[k]) <= s2.last[a] || seq_sum(s2.switch[k]) <= s2.last[b]);
        assert(seq_sum(s2.joint[k]) == seq_sum(s2.inter[k]) + seq_sum(s2.switch[k]));
        assert(1 <= s2.switch[k].len() <= steps + 1);
    } else {
        assert(pair_inv(s, k, steps));
        let r = pair_code(b, a);
        lemma_code_roundtrip(k);
        lemma_pair_code(b, a);
        lemma_pair_code(a, b);
        if touched(s1, t, c, d, r) {
            let j = partner(r, c);
            lemma_touched_key(s1, t, c, d, r);
            lemma_pair_code_injective(b, a, c, j);
            lemma_pair_code_injective(b, a, j, c);
            lemma_pair_code_injective(a, b, c, j);
            lemma_pair_code_injective(a, b, j, c);
        }
        assert(!s2.switch.contains_key(r));
        assert(s2.last_joint[k] <= s2.last[a]);
        assert(seq_sum(s2.switch[k]) <= s2.last[a] || seq_sum(s2.switch[k]) <= s2.last[b]);
        assert(1 <= s2.switch[k].len() <= steps + 1);
    }
}

pub proof fn lemma_step_inv(s: ScanState, t: usize, c: usize, bound: nat, steps: nat)
    requires
        scan_inv(s, bound, steps),
        bound <= t,
        2 * t <= u64::MAX,
    ensures
        scan_inv(step(s, t, c), t as nat, steps + 1),
{
    let s2 = step(s, t, c);
    assert(s2.reuse.dom() =~= s2.last.dom());
    assert(s2.inter.dom() =~= s2.switch.dom());
    assert(s2.joint.dom() =~= s2.switch.dom());
    assert(s2.last_joint.dom() =~= s2.switch.dom());
    if s.reuse.contains_key(c) {
        lemma_seq_sum_push(s.reuse[c], (t - s.last[c]) as u64);
    } else {
        lemma_seq_sum_push(Seq::empty(), t as u64);
    }
    assert forall|k: u128| #[trigger] s2.switch.contains_key(k) implies pair_inv(s2, k, steps + 1) by {
        lemma_step_pair(s, t, c, bound, steps, k);
    }
}

/// Time of the latest access of a trace, 0 for the empty one.
pub open spec fn last_time(trace: Seq<(usize, usize)>) -> nat {
    if trace.len() == 0 {
        0
    } else {
        trace.last().0 as nat
    }
}

pub proof fn lemma_scan_inv(trace: Seq<(usize, usize)>)
    requires
        times_nondecreasing(trace),
        forall|i: int| 0 <= i < trace.len() ==> 2 * trace[i].0 <= u64::MAX,
    ensures
        scan_inv(scan(trace), last_time(trace), trace.len()),
    decreases trace.len(),
{
    if trace.len() > 0 {
        let pre = trace.drop_last();
        assert forall|i: int, j: int| 0 <= i < j < pre.len() implies pre[i].0 <= pre[j].0 by {
            assert(pre[i] == trace[i] && pre[j] == trace[j]);
        }
        assert forall|i: int| 0 <= i < pre.len() implies 2 * pre[i].0 <= u64::MAX by {
            assert(pre[i] == trace[i]);
        }
        lemma_scan_inv(pre);
        if pre.len() > 0 {
            assert(pre.last() == trace[trace.len() - 2]);
        }
        lemma_step_inv(scan(pre), trace.last().0, trace.last().1, last_time(pre), pre.len());
    }
}

proof fn lemma_pair_update_none(s: ScanState, t: usize, c: usize)
    ensures
        pair_update(s, t, c, Set::empty()).switch == s.switch,
        pair_update(s, t, c, Set::empty()).inter == s.inter,
        pair_update(s, t, c, Set::empty()).joint == s.joint,
        pair_update(s, t, c, Set::empty()).last_joint == s.last_joint,
{
    let p = pair_update(s, t, c, Set::empty());
    assert(p.switch =~= s.switch);
    assert(p.inter =~= s.inter);
    assert(p.joint =~= s.joint);
    assert(p.last_joint =~= s.last_joint);
}

/// Counting one more partner `j` files at most one more switch, under the
/// key `stored_key(s, c, j)`.
proof fn lemma_pair_update_add(s: ScanState, t: usize, c: usize, done: Set<usize>, j: usize)
    requires
        !done.contains(j),
    ensures
        ({
            let before = pair_update(s, t, c, done);
            let after = pair_update(s, t, c, done.insert(j));
            let k = stored_key(s, c, j);
            if switches(s, t, c, j) {
                &&& !touched(s, t, c, done, k)
                &&& touched(s, t, c, done.insert(j), k)
                &&& (before.switch.contains_key(k) <==> s.switch.contains_key(k))
                &&& (before.switch.contains_key(k) ==> before.switch[k] == s.switch[k])
                &&& (before.inter.contains_key(k) <==> s.inter.contains_key(k))
                &&& (before.inter.contains_key(k) ==> before.inter[k] == s.inter[k])
                &&& (before.joint.contains_key(k) <==> s.joint.contains_key(k))
                &&& (before.joint.contains_key(k) ==> before.joint[k] == s.joint[k])
                &&& (before.last_joint.contains_key(k) <==> s.last_joint.contains_key(k))
                &&& (before.last_joint.contains_key(k) ==> before.last_joint[k] == s.last_joint[k])
                &&& (before.switch.contains_key(pair_code(j, c)) <==> s.switch.contains_key(pair_code(j, c)))
                &&& after.switch == before.switch.insert(k, pushed(s.switch, k, switch_time(s, t, j)))
                &&& after.inter == before.inter.insert(k, pushed(s.inter, k, inter_time(s, k, j)))
                &&& after.joint == before.joint.insert(
                    k,
                    pushed(s.joint, k, (inter_time(s, k, j) + switch_time(s, t, j)) as u64),
                )
                &&& after.last_joint == before.last_joint.insert(k, s.last[j])
            } else {
                &&& after.switch == before.switch
                &&& after.inter == before.inter
                &&& after.joint == before.joint
                &&& after.last_joint == before.last_joint
            }
        }),
{
    let before = pair_update(s, t, c, done);
    let after = pair_update(s, t, c, done.insert(j));
    let k = stored_key(s, c, j);
    if switches(s, t, c, j) {
        lemma_partner(c, j);
        let r = pair_code(j, c);
        assert(partner(r, c) == j);
        assert(!touched(s, t, c, done, r));
        assert forall|x: u128| #[trigger] touched(s, t, c, done.insert(j), x) implies touched(s, t, c, done, x) || x == k by {
            if partner(x, c) == j {
                assert(stored_key(s, c, j) == x);
            }
        }
        assert forall|x: u128| x != k && touched(s, t, c, done, x) implies #[trigger] touched(s, t, c, done.insert(j), x) by {
        }
        assert(after.switch =~= before.switch.insert(k, pushed(s.switch, k, switch_time(s, t, j))));
        assert(after.inter =~= before.inter.insert(k, pushed(s.inter, k, inter_time(s, k, j))));
        assert(after.joint =~= before.joint.insert(
            k,
            pushed(s.joint, k, (inter_time(s, k, j) + switch_time(s, t, j)) as u64),
        ));
        assert(after.last_joint =~= before.last_joint.insert(k, s.last[j]));
    } else {
        assert forall|x: u128| #[trigger] touched(s, t, c, done.insert(j), x) implies touched(s, t, c, done, x) by {
        }
        assert(after.switch =~= before.switch);
        assert(after.inter =~= before.inter);
        assert(after.joint =~= before.joint);
        assert(after.last_joint =~= before.last_joint);
    }
}

/// Grouping of every histogram the pass builds (`2^8` buckets per doubling).
pub const SUBLOG_BITS: u64 = 8;

/// `m` holds, under the same keys, well-formed histograms of the pass whose
/// samples are `vals`.
pub open spec fn hist_matches<K>(m: Map<K, Histogram>, vals: Map<K, Seq<u64>>, limit: nat) -> bool {
    &&& m.dom() == vals.dom()
    &&& forall|k: K| #[trigger] m.contains_key(k) ==> {
        &&& m[k].wf()
        &&& m[k].values() == vals[k]
        &&& m[k].base() == pow2(SUBLOG_BITS as nat)
        &&& m[k].limit() == limit
    }
}

/// The sample bounds that `scan_inv` gives for the pair maps.
pub open spec fn pair_inv_bounds(s: ScanState, bound: nat, steps: nat) -> bool {
    forall|k: u128| #[trigger] s.switch.contains_key(k) ==> {
        &&& seq_sum(s.switch[k]) <= bound
        &&& seq_sum(s.inter[k]) <= bound
        &&& seq_sum(s.joint[k]) <= 2 * bound
        &&& s.switch[k].len() <= steps
        &&& s.inter[k].len() <= steps
        &&& s.joint[k].len() <= steps
        &&& s.inter.contains_key(k)
        &&& s.joint.contains_key(k)
    }
}

pub proof fn lemma_inv_bounds(s: ScanState, bound: nat, steps: nat)
    requires
        scan_inv(s, bound, steps),
    ensures
        pair_inv_bounds(s, bound, steps),
{
    assert forall|k: u128| #[trigger] s.switch.contains_key(k) implies {
        &&& seq_sum(s.switch[k]) <= bound
        &&& seq_sum(s.inter[k]) <= bound
        &&& seq_sum(s.joint[k]) <= 2 * bound
        &&& s.switch[k].len() <= steps
        &&& s.inter[k].len() <= steps
        &&& s.joint[k].len() <= steps
        &&& s.inter.contains_key(k)
        &&& s.joint.contains_key(k)
    } by {
        assert(pair_inv(s, k, steps));
        assert(s.last.contains_key(code_first(k) as usize));
        assert(s.last.contains_key(code_second(k) as usize));
    }
}

struct Pass {
    last_seen: HashMap<usize, usize>,
    last_joint: HashMap<u128, usize>,
    reuse: HashMap<usize, Histogram>,
    switch: HashMap<u128, Histogram>,
    inter: HashMap<u128, Histogram>,
    joint: HashMap<u128, Histogram>,
    /// The elements seen so far, each once.
    elements: Vec<usize>,
    /// The pair keys filed so far, each once.
    pairs: Vec<u128>,
}

impl Pass {
    spec fn matches(&self, s: ScanState, limit: nat) -> bool {
        &&& self.last_seen@ == s.last
        &&& self.last_joint@ == s.last_joint
        &&& hist_matches(self.reuse@, s.reuse, limit)
        &&& hist_matches(self.switch@, s.switch, limit)
        &&& hist_matches(self.inter@, s.inter, limit)
        &&& hist_matches(self.joint@, s.joint, limit)
        &&& self.elements@.no_duplicates()
        &&& forall|x: usize| s.last.contains_key(x) <==> #[trigger] self.elements@.contains(x)
        &&& self.pairs@.no_duplicates()
        &&& forall|k: u128| s.switch.contains_key(k) <==> #[trigger] self.pairs@.contains(k)
    }

    fn new() -> (p: Pass)
        ensures
            forall|limit: nat| p.matches(empty_state(), limit),
    {
        let p = Pass {
            last_seen: HashMap::new(),
            last_joint: HashMap::new(),
            reuse: HashMap::new(),
            switch: HashMap::new(),
            inter: HashMap::new(),
            joint: HashMap::new(),
            elements: Vec::new(),
            pairs: Vec::new(),
        };
        assert forall|limit: nat| p.matches(empty_state(), limit) by {
            assert(p.reuse@.dom() =~= empty_state().reuse.dom());
            assert(p.switch@.dom() =~= empty_state().switch.dom());
            assert(p.inter@.dom() =~= empty_state().inter.dom());
            assert(p.joint@.dom() =~= empty_state().joint.dom());
        }
        p
    }

    /// Records the access of `c` at time `t`.
    fn record_access(
        &mut self,
        t: usize,
        c: usize,
        limit: usize,
        Ghost(s): Ghost<ScanState>,
        Ghost(bound): Ghost<nat>,
        Ghost(steps): Ghost<nat>,
    )
        requires
            old(self).matches(s, limit as nat),
            scan_inv(s, bound, steps),
            bound <= t,
            4 * (t as int) < usize::MAX,
            steps + 1 < u64::MAX,
            limit < usize::MAX,
        ensures
            final(self).matches(step(s, t, c), limit as nat),
    {
        let ghost s1 = reuse_update(s, t, c);
        let ghost full = step(s, t, c);
        proof {
            assert(usize::MAX <= u64::MAX);
            lemma_step_inv(s, t, c, bound, steps);
            lemma_inv_bounds(full, t as nat, steps + 1);
            assert(pair_inv_bounds(pair_update(s1, t, c, s1.last.dom()), t as nat, steps + 1));
        }
        let last_c: Option<usize> = match self.last_seen.get(&c) {
            Some(x) => Some(*x),
            None => None,
        };
        let mut h = match self.reuse.remove(&c) {
            Some(h) => h,
            None => Histogram::new_tuple(SUBLOG_BITS, limit as u64),
        };
        let v: u64 = match last_c {
            Some(lc) => (t - lc) as u64,
            None => t as u64,
        };
        proof {
            lemma_seq_sum_push(h.values(), v);
            assert(full.reuse[c] == h.values().push(v));
        }
        h.add(v);
        self.reuse.insert(c, h);
        assert(self.reuse@.dom() =~= s1.reuse.dom());
        let n = self.elements.len();
        let mut idx: usize = 0;
        proof {
            lemma_pair_update_none(s1, t, c);
            assert(self.elements@.take(0).to_set() =~= Set::<usize>::empty());
        }
        while idx < n
            invariant
                idx <= n == self.elements.len(),
                self.elements@.no_duplicates(),
                forall|x: usize| s.last.contains_key(x) <==> #[trigger] self.elements@.contains(x),
                self.last_seen@ == s1.last,
                hist_matches(self.reuse@, s1.reuse, limit as nat),
                s1 == reuse_update(s, t, c),
                scan_inv(s, bound, steps),
                bound <= t,
                4 * (t as int) < usize::MAX,
                steps + 1 < u64::MAX,
                limit < usize::MAX,
                last_c == (if s1.last.contains_key(c) { Some(s1.last[c]) } else { None::<usize> }),
                pair_inv_bounds(pair_update(s1, t, c, s1.last.dom()), t as nat, steps + 1),
                self.last_joint@ == pair_update(s1, t, c, self.elements@.take(idx as int).to_set()).last_joint,
                hist_matches(self.switch@, pair_update(s1, t, c, self.elements@.take(idx as int).to_set()).switch, limit as nat),
                hist_matches(self.inter@, pair_update(s1, t, c, self.elements@.take(idx as int).to_set()).inter, limit as nat),
                hist_matches(self.joint@, pair_update(s1, t, c, self.elements@.take(idx as int).to_set()).joint, limit as nat),
                self.pairs@.no_duplicates(),
                forall|k: u128| pair_update(s1, t, c, self.elements@.take(idx as int).to_set()).switch.contains_key(k) <==> #[trigger] self.pairs@.contains(k),
            decreases n - idx,
        {
            let j = self.elements[idx];
            let ghost done = self.elements@.take(idx as int).to_set();
            proof {
                assert(self.elements@.contains(j));
                if done.contains(j) {
                    let pre = self.elements@.take(idx as int);
                    let i = choose|i: int| 0 <= i < pre.len() && #[trigger] pre[i] == j;
                    assert(self.elements@[i] == self.elements@[idx as int]);
                }
                let pre0 = self.elements@.take(idx as int);
                let pre1 = self.elements@.take(idx + 1);
                assert(pre1 =~= pre0.push(j));
                assert(pre1.to_set() =~= done.insert(j)) by {
                    assert forall|x: usize| pre1.to_set().contains(x) implies done.insert(j).contains(x) by {
                        let i = choose|i: int| 0 <= i < pre1.len() && #[trigger] pre1[i] == x;
                        if i < idx {
                            assert(pre0[i] == x);
                        }
                    }
                    assert forall|x: usize| done.insert(j).contains(x) implies pre1.to_set().contains(x) by {
                        if x == j {
                            assert(pre1[idx as int] == x);
                        } else {
                            let i = choose|i: int| 0 <= i < pre0.len() && #[trigger] pre0[i] == x;
                            assert(pre1[i] == x);
                        }
                    }
                }
            }
            self.record_switch(t, c, j, last_c, limit, Ghost(s1), Ghost(done), Ghost(bound), Ghost(steps));
            idx = idx + 1;
        }
        proof {
            assert(self.elements@.take(n as int) =~= self.elements@);
            assert(self.elements@.to_set() =~= s1.last.dom());
        }
        self.last_seen.insert(c, t);
        let ghost old_elements = self.elements@;
        if last_c.is_none() {
            self.elements.push(c);
            proof {
                assert(self.elements@ == old_elements.push(c));
                assert(!old_elements.contains(c));
                assert forall|a: int, b: int| 0 <= a < b < self.elements@.len() implies self.elements@[a] != self.elements@[b] by {
                    if b == old_elements.len() {
                        assert(old_elements.contains(self.elements@[a]));
                    }
                }
                assert forall|x: usize| full.last.contains_key(x) <==> #[trigger] self.elements@.contains(x) by {
                    if x == c {
                        assert(self.elements@[old_elements.len() as int] == c);
                    } else if self.elements@.contains(x) {
                        let i = choose|i: int| 0 <= i < self.elements@.len() && self.elements@[i] == x;
                        assert(old_elements[i] == x);
                    } else if old_elements.contains(x) {
                        let i = choose|i: int| 0 <= i < old_elements.len() && old_elements[i] == x;
                        assert(self.elements@[i] == x);
                    }
                }
            }
        }
        proof {
            assert(self.last_seen@ =~= full.last);
        }
    }

    /// Adds the closing times at the end of a trace of length `n`.
    fn finish(&mut self, n: usize, limit: usize, Ghost(s): Ghost<ScanState>, Ghost(steps): Ghost<nat>)
        requires
            old(self).matches(s, limit as nat),
            scan_inv(s, (n + 1) as nat, steps),
            4 * (n as int + 1) < usize::MAX,
            steps + 1 < u64::MAX,
        ensures
            hist_matches(final(self).reuse@, finalize(s, n as nat).reuse, limit as nat),
            hist_matches(final(self).switch@, finalize(s, n as nat).switch, limit as nat),
            hist_matches(final(self).inter@, finalize(s, n as nat).inter, limit as nat),
            hist_matches(final(self).joint@, finalize(s, n as nat).joint, limit as nat),
    {
        let ghost fin = finalize(s, n as nat);
        proof {
            assert(usize::MAX <= u64::MAX);
            lemma_inv_bounds(s, (n + 1) as nat, steps);
        }
        let ne = self.elements.len();
        let mut idx: usize = 0;
        proof {
            let m0 = Map::new(
                |e: usize| s.reuse.contains_key(e),
                |e: usize| if self.elements@.take(0).contains(e) { fin.reuse[e] } else { s.reuse[e] },
            );
            assert(m0 =~= s.reuse);
        }
        while idx < ne
            invariant
                idx <= ne == self.elements.len(),
                self.elements@.no_duplicates(),
                forall|x: usize| s.last.contains_key(x) <==> #[trigger] self.elements@.contains(x),
                self.last_seen@ == s.last,
                self.pairs@.no_duplicates(),
                forall|k: u128| s.switch.contains_key(k) <==> #[trigger] self.pairs@.contains(k),
                self.last_joint@ == s.last_joint,
                hist_matches(self.switch@, s.switch, limit as nat),
                hist_matches(self.inter@, s.inter, limit as nat),
                hist_matches(self.joint@, s.joint, limit as nat),
                pair_inv_bounds(s, (n + 1) as nat, steps),
                scan_inv(s, (n + 1) as nat, steps),
                4 * (n as int + 1) < usize::MAX,
                steps + 1 < u64::MAX,
                fin == finalize(s, n as nat),
                hist_matches(
                    self.reuse@,
                    Map::new(
                        |e: usize| s.reuse.contains_key(e),
                        |e: usize| if self.elements@.take(idx as int).contains(e) { fin.reuse[e] } else { s.reuse[e] },
                    ),
                    limit as nat,
                ),
            decreases ne - idx,
        {
            let e = self.elements[idx];
            let ghost pre0 = self.elements@.take(idx as int);
            let ghost pre1 = self.elements@.take(idx + 1);
            proof {
                assert(pre1 =~= pre0.push(e));
                if pre0.contains(e) {
                    let i = choose|i: int| 0 <= i < pre0.len() && #[trigger] pre0[i] == e;
                    assert(self.elements@[i] == self.elements@[idx as int]);
                }
            }
            proof {
                assert(self.elements@.contains(e));
            }
            let le = *self.last_seen.get(&e).unwrap();
            let mut h = self.reuse.remove(&e).unwrap();
            let v: u64 = (n + 1 - le) as u64;
            proof {
                lemma_seq_sum_push(h.values(), v);
            }
            h.add(v);
            self.reuse.insert(e, h);
            idx = idx + 1;
            proof {
                let m_old = Map::new(
                    |x: usize| s.reuse.contains_key(x),
                    |x: usize| if pre0.contains(x) { fin.reuse[x] } else { s.reuse[x] },
                );
                let m_new = Map::new(
                    |x: usize| s.reuse.contains_key(x),
                    |x: usize| if pre1.contains(x) { fin.reuse[x] } else { s.reuse[x] },
                );
                assert forall|x: usize| #[trigger] pre1.contains(x) <==> (pre0.contains(x) || x == e) by {
                    if pre1.contains(x) && x != e {
                        let i = choose|i: int| 0 <= i < pre1.len() && #[trigger] pre1[i] == x;
                        assert(pre0[i] == x);
                    }
                    if pre0.contains(x) {
                        let i = choose|i: int| 0 <= i < pre0.len() && #[trigger] pre0[i] == x;
                        assert(pre1[i] == x);
                    }
                    if x == e {
                        assert(pre1[pre0.len() as int] == x);
                    }
                }
                assert(m_new =~= m_old.insert(e, fin.reuse[e]));
                assert(self.reuse@.dom() =~= m_new.dom());
            }
        }
        proof {
            assert(self.elements@.take(ne as int) =~= self.elements@);
            assert(self.reuse@.dom() =~= fin.reuse.dom());
        }
        let np = self.pairs.len();
        let mut idx: usize = 0;
        proof {
            let mi = Map::new(
                |k: u128| s.inter.contains_key(k),
                |k: u128| if self.pairs@.take(0).contains(k) { fin.inter[k] } else { s.inter[k] },
            );
            assert(mi =~= s.inter);
            let mj = Map::new(
                |k: u128| s.joint.contains_key(k),
                |k: u128| if self.pairs@.take(0).contains(k) { fin.joint[k] } else { s.joint[k] },
            );
            assert(mj =~= s.joint);
            assert(fin.switch == s.switch);
        }
        while idx < np
            invariant
                idx <= np == self.pairs.len(),
                self.pairs@.no_duplicates(),
                forall|k: u128| s.switch.contains_key(k) <==> #[trigger] self.pairs@.contains(k),
                self.last_joint@ == s.last_joint,
                scan_inv(s, (n + 1) as nat, steps),
                pair_inv_bounds(s, (n + 1) as nat, steps),
                4 * (n as int + 1) < usize::MAX,
                steps + 1 < u64::MAX,
                fin == finalize(s, n as nat),
                hist_matches(self.reuse@, fin.reuse, limit as nat),
                hist_matches(self.switch@, fin.switch, limit as nat),
                hist_matches(
                    self.inter@,
                    Map::new(
                        |k: u128| s.inter.contains_key(k),
                        |k: u128| if self.pairs@.take(idx as int).contains(k) { fin.inter[k] } else { s.inter[k] },
                    ),
                    limit as nat,
                ),
                hist_matches(
                    self.joint@,
                    Map::new(
                        |k: u128| s.joint.contains_key(k),
                        |k: u128| if self.pairs@.take(idx as int).contains(k) { fin.joint[k] } else { s.joint[k] },
                    ),
                    limit as nat,
                ),
            decreases np - idx,
        {
            let k = self.pairs[idx];
            let ghost pre0 = self.pairs@.take(idx as int);
            let ghost pre1 = self.pairs@.take(idx + 1);
            proof {
                assert(pre1 =~= pre0.push(k));
                if pre0.contains(k) {
                    let i = choose|i: int| 0 <= i < pre0.len() && #[trigger] pre0[i] == k;
                    assert(self.pairs@[i] == self.pairs@[idx as int]);
                }
                assert(self.pairs@.contains(k));
                assert(pair_inv(s, k, steps));
            }
            let lk = *self.last_joint.get(&k).unwrap();
            let v: u64 = (n + 1 - lk) as u64;
            let mut hi = self.inter.remove(&k).unwrap();
            proof {
                lemma_seq_sum_push(hi.values(), v);
            }
            hi.add(v);
            self.inter.insert(k, hi);
            let mut hj = self.joint.remove(&k).unwrap();
            proof {
                lemma_seq_sum_push(hj.values(), v);
            }
            hj.add(v);
            self.joint.insert(k, hj);
            idx = idx + 1;
            proof {
                assert forall|x: u128| #[trigger] pre1.contains(x) <==> (pre0.contains(x) || x == k) by {
                    if pre1.contains(x) && x != k {
                        let i = choose|i: int| 0 <= i < pre1.len() && #[trigger] pre1[i] == x;
                        assert(pre0[i] == x);
                    }
                    if pre0.contains(x) {
                        let i = choose|i: int| 0 <= i < pre0.len() && #[trigger] pre0[i] == x;
                        assert(pre1[i] == x);
                    }
                    if x == k {
                        assert(pre1[pre0.len() as int] == x);
                    }
                }
                let mi_old = Map::new(
                    |x: u128| s.inter.contains_key(x),
                    |x: u128| if pre0.contains(x) { fin.inter[x] } else { s.inter[x] },
                );
                let mi_new = Map::new(
                    |x: u128| s.inter.contains_key(x),
                    |x: u128| if pre1.contains(x) { fin.inter[x] } else { s.inter[x] },
                );
                assert(mi_new =~= mi_old.insert(k, fin.inter[k]));
                assert(self.inter@.dom() =~= mi_new.dom());
                let mj_old = Map::new(
                    |x: u128| s.joint.contains_key(x),
                    |x: u128| if pre0.contains(x) { fin.joint[x] } else { s.joint[x] },
                );
                let mj_new = Map::new(
                    |x: u128| s.joint.contains_key(x),
                    |x: u128| if pre1.contains(x) { fin.joint[x] } else { s.joint[x] },
                );
                assert(mj_new =~= mj_old.insert(k, fin.joint[k]));
                assert(self.joint@.dom() =~= mj_new.dom());
            }
        }
        proof {
            assert(self.pairs@.take(np as int) =~= self.pairs@);
            assert(self.inter@.dom() =~= fin.inter.dom());
            assert(self.joint@.dom() =~= fin.joint.dom());
        }
    }

    /// Appends the switches that the access of `c` at `t`, access number
    /// `i`, is about to make.
    fn log_switches(
        &self,
        i: usize,
        t: usize,
        c: usize,
        events: &mut Vec<(usize, usize, usize, usize)>,
        Ghost(s): Ghost<ScanState>,
        Ghost(bound): Ghost<nat>,
        Ghost(trace): Ghost<Seq<(usize, usize)>>,
    )
        requires
            self.matches(s, trace.len() as nat),
            s == scan(trace.take(i as int)),
            0 <= i < trace.len(),
            trace[i as int] == (t, c),
            scan_inv(s, bound, i as nat),
            bound <= t,
            old(events)@.no_duplicates(),
            old(events)@.to_set() == switch_events(trace, i as int),
            forall|a: int| 0 <= a < old(events)@.len() ==> (#[trigger] old(events)@[a]).0 < i,
            forall|a: int, b: int| 0 <= a < b < old(events)@.len() ==> (#[trigger] old(events)@[a]).0 <= (#[trigger] old(events)@[b]).0,
        ensures
            final(events)@.no_duplicates(),
            final(events)@.to_set() == switch_events(trace, i + 1),
            forall|a: int| 0 <= a < final(events)@.len() ==> (#[trigger] final(events)@[a]).0 < i + 1,
            forall|a: int, b: int| 0 <= a < b < final(events)@.len() ==> (#[trigger] final(events)@[a]).0 <= (#[trigger] final(events)@[b]).0,
    {
        let ghost base = events@;
        let ghost step = step_events(trace, i as int);
        let last_c: Option<usize> = match self.last_seen.get(&c) {
            Some(x) => Some(*x),
            None => None,
        };
        let mut x: usize = 0;
        while x < self.elements.len()
            invariant
                x <= self.elements.len(),
                self.matches(s, trace.len() as nat),
                scan_inv(s, bound, i as nat),
                bound <= t,
                s == scan(trace.take(i as int)),
                trace[i as int] == (t, c),
                0 <= i < trace.len(),
                step == step_events(trace, i as int),
                last_c == (if s.last.contains_key(c) { Some(s.last[c]) } else { None::<usize> }),
                events@.len() >= base.len(),
                events@.subrange(0, base.len() as int) == base,
                base.no_duplicates(),
                forall|a: int| 0 <= a < base.len() ==> (#[trigger] base[a]).0 < i,
                forall|a: int, b: int| 0 <= a < b < base.len() ==> (#[trigger] base[a]).0 <= (#[trigger] base[b]).0,
                forall|a: int| base.len() <= a < events@.len() ==> step.contains(#[trigger] events@[a]),
                forall|a: int| base.len() <= a < events@.len() ==> self.elements@.take(x as int).contains((#[trigger] events@[a]).2),
                forall|a: int, b: int| base.len() <= a < b < events@.len() ==> (#[trigger] events@[a]).2 != (#[trigger] events@[b]).2,
                forall|ev: (usize, usize, usize, usize)| #[trigger] step.contains(ev) && self.elements@.take(x as int).contains(ev.2) ==> events@.contains(ev),
            decreases self.elements.len() - x,
        {
            let j = self.elements[x];
            let ghost old_events = events@;
            proof {
                assert(self.elements@.contains(j));
                assert(self.elements@.take(x + 1) =~= self.elements@.take(x as int).push(j));
                if self.elements@.take(x as int).contains(j) {
                    let y = choose|y: int| 0 <= y < x && #[trigger] self.elements@.take(x as int)[y] == j;
                    assert(self.elements@[y] == self.elements@[x as int]);
                }
            }
            if j != c {
                let lj = *self.last_seen.get(&j).unwrap();
                proof {
                    assert(s.last[j] <= bound);
                }
                let st: usize = t - lj;
                let sw = match last_c {
                    Some(lc) => st < t - lc,
                    None => true,
                };
                if sw {
                    events.push((i, c, j, lj));
                    proof {
                        assert(step.contains((i, c, j, lj)));
                    }
                }
            }
            proof {
                assert(events@.subrange(0, base.len() as int) =~= base);
                assert forall|a: int| base.len() <= a < events@.len() implies self.elements@.take(x + 1).contains((#[trigger] events@[a]).2) by {
                    if a < old_events.len() {
                        assert(events@[a] == old_events[a]);
                        let y = choose|y: int| 0 <= y < x && #[trigger] self.elements@.take(x as int)[y] == old_events[a].2;
                        assert(self.elements@.take(x + 1)[y] == old_events[a].2);
                    } else {
                        assert(self.elements@.take(x + 1)[x as int] == j);
                    }
                }
                assert forall|a: int, b: int| base.len() <= a < b < events@.len() implies (#[trigger] events@[a]).2 != (#[trigger] events@[b]).2 by {
                    if b >= old_events.len() {
                        assert(events@[a] == old_events[a]);
                        assert(self.elements@.take(x as int).contains(old_events[a].2));
                    } else {
                        assert(events@[a] == old_events[a] && events@[b] == old_events[b]);
                    }
                }
                assert forall|ev: (usize, usize, usize, usize)| #[trigger] step.contains(ev) && self.elements@.take(x + 1).contains(ev.2) implies events@.contains(ev) by {
                    let y = choose|y: int| 0 <= y < x + 1 && #[trigger] self.elements@.take(x + 1)[y] == ev.2;
                    if y < x {
                        assert(self.elements@.take(x as int)[y] == ev.2);
                        assert(old_events.contains(ev));
                        let z = choose|z: int| 0 <= z < old_events.len() && old_events[z] == ev;
                        assert(events@[z] == ev);
                    } else {
                        assert(ev.2 == j);
                        assert(events@.last() == ev);
                        assert(events@[events@.len() - 1] == ev);
                    }
                }
            }
            x = x + 1;
        }
        proof {
            assert(self.elements@.take(x as int) =~= self.elements@);
            let fin = events@;
            assert forall|a: int, b: int| 0 <= a < b < fin.len() implies fin[a] != fin[b] by {
                if b >= base.len() && a < base.len() {
                    assert(fin[a] == base[a]);
                    assert(fin[a].0 < i);
                } else if a >= base.len() {
                } else {
                    assert(fin[a] == base[a] && fin[b] == base[b]);
                }
            }
            assert forall|a: int, b: int| 0 <= a < b < fin.len() implies (#[trigger] fin[a]).0 <= (#[trigger] fin[b]).0 by {
                if a < base.len() && b < base.len() {
                    assert(fin[a] == base[a] && fin[b] == base[b]);
                } else if a < base.len() {
                    assert(fin[a] == base[a]);
                }
            }
            assert forall|a: int| 0 <= a < fin.len() implies (#[trigger] fin[a]).0 < i + 1 by {
                if a < base.len() {
                    assert(fin[a] == base[a]);
                }
            }
            assert forall|ev: (usize, usize, usize, usize)| fin.to_set().contains(ev) <==> #[trigger] switch_events(trace, i + 1).contains(ev) by {
                if fin.contains(ev) {
                    let a = choose|a: int| 0 <= a < fin.len() && fin[a] == ev;
                    if a < base.len() {
                        assert(fin[a] == base[a]);
                        assert(base.contains(ev));
                        assert(base.to_set().contains(ev));
                    } else {
                        assert(step.contains(ev));
                    }
                }
                if switch_events(trace, i + 1).contains(ev) {
                    if ev.0 < i {
                        assert(switch_events(trace, i as int).contains(ev));
                        assert(base.to_set().contains(ev));
                        let a = choose|a: int| 0 <= a < base.len() && base[a] == ev;
                        assert(fin[a] == ev);
                    } else {
                        assert(step.contains(ev));
                        assert(s.last.contains_key(ev.2));
                        assert(self.elements@.contains(ev.2));
                    }
                }
            }
            assert(fin.to_set() =~= switch_events(trace, i + 1));
        }
    }

    /// Files the switch from `j` that the access of `c` at `t` makes, if any.
    fn record_switch(
        &mut self,
        t: usize,
        c: usize,
        j: usize,
        last_c: Option<usize>,
        limit: usize,
        Ghost(s1): Ghost<ScanState>,
        Ghost(done): Ghost<Set<usize>>,
        Ghost(bound): Ghost<nat>,
        Ghost(steps): Ghost<nat>,
    )
        requires
            forall|k: u128| #[trigger] s1.switch.contains_key(k) ==> pair_inv(s1, k, steps),
            s1.inter.dom() == s1.switch.dom(),
            s1.joint.dom() == s1.switch.dom(),
            s1.last_joint.dom() == s1.switch.dom(),
            forall|x: usize| #[trigger] s1.last.contains_key(x) ==> s1.last[x] <= bound,
            bound <= t,
            4 * (t as int) < usize::MAX,
            steps + 1 < u64::MAX,
            limit < usize::MAX,
            !done.contains(j),
            s1.last.dom().contains(j),
            last_c == (if s1.last.contains_key(c) { Some(s1.last[c]) } else { None::<usize> }),
            old(self).last_seen@ == s1.last,
            old(self).last_joint@ == pair_update(s1, t, c, done).last_joint,
            hist_matches(old(self).switch@, pair_update(s1, t, c, done).switch, limit as nat),
            hist_matches(old(self).inter@, pair_update(s1, t, c, done).inter, limit as nat),
            hist_matches(old(self).joint@, pair_update(s1, t, c, done).joint, limit as nat),
            old(self).pairs@.no_duplicates(),
            forall|k: u128| pair_update(s1, t, c, done).switch.contains_key(k) <==> #[trigger] old(self).pairs@.contains(k),
            pair_inv_bounds(pair_update(s1, t, c, s1.last.dom()), t as nat, steps + 1),
        ensures
            final(self).last_seen == old(self).last_seen,
            final(self).reuse == old(self).reuse,
            final(self).elements == old(self).elements,
            final(self).last_joint@ == pair_update(s1, t, c, done.insert(j)).last_joint,
            hist_matches(final(self).switch@, pair_update(s1, t, c, done.insert(j)).switch, limit as nat),
            hist_matches(final(self).inter@, pair_update(s1, t, c, done.insert(j)).inter, limit as nat),
            hist_matches(final(self).joint@, pair_update(s1, t, c, done.insert(j)).joint, limit as nat),
            final(self).pairs@.no_duplicates(),
            forall|k: u128| pair_update(s1, t, c, done.insert(j)).switch.contains_key(k) <==> #[trigger] final(self).pairs@.contains(k),
    {
        proof {
            lemma_pair_update_add(s1, t, c, done, j);
        }
        if j == c {
            return;
        }
        let lj = *self.last_seen.get(&j).unwrap();
        let st: usize = t - lj;
        let sw = match last_c {
            Some(lc) => st < t - lc,
            None => true,
        };
        if !sw {
            return;
        }
        let ghost before = pair_update(s1, t, c, done);
        let ghost after = pair_update(s1, t, c, done.insert(j));
        let ghost full = pair_update(s1, t, c, s1.last.dom());
        let rev = pair_code_of(j, c);
        let k = if self.switch.contains_key(&rev) {
            rev
        } else {
            pair_code_of(c, j)
        };
        assert(k == stored_key(s1, c, j));
        assert(touched(s1, t, c, s1.last.dom(), k)) by {
            lemma_partner(c, j);
        }
        let fresh = !self.switch.contains_key(&k);
        proof {
            lemma_pair_code(c, j);
            lemma_pair_code(j, c);
            if s1.switch.contains_key(k) {
                assert(pair_inv(s1, k, steps));
            }
        }
        // switch time
        let mut hs = match self.switch.remove(&k) {
            Some(h) => h,
            None => Histogram::new_tuple(SUBLOG_BITS, limit as u64),
        };
        proof {
            lemma_seq_sum_push(hs.values(), st as u64);
            assert(full.switch[k] == pushed(s1.switch, k, switch_time(s1, t, j)));
        }
        hs.add(st as u64);
        self.switch.insert(k, hs);
        // inter-switch time
        let ist: usize = match self.last_joint.get(&k) {
            Some(x) => lj - *x,
            None => lj,
        };
        let mut hi = match self.inter.remove(&k) {
            Some(h) => h,
            None => Histogram::new_tuple(SUBLOG_BITS, limit as u64),
        };
        proof {
            lemma_seq_sum_push(hi.values(), ist as u64);
            assert(full.inter[k] == pushed(s1.inter, k, inter_time(s1, k, j)));
        }
        hi.add(ist as u64);
        self.inter.insert(k, hi);
        // joint-switch time
        let mut hj = match self.joint.remove(&k) {
            Some(h) => h,
            None => Histogram::new_tuple(SUBLOG_BITS, limit as u64),
        };
        proof {
            lemma_seq_sum_push(hj.values(), (ist + st) as u64);
            assert(full.joint[k] == pushed(s1.joint, k, (inter_time(s1, k, j) + switch_time(s1, t, j)) as u64));
        }
        hj.add((ist + st) as u64);
        self.joint.insert(k, hj);
        self.last_joint.insert(k, lj);
        let ghost old_pairs = self.pairs@;
        assert(fresh <==> !old_pairs.contains(k));
        if fresh {
            self.pairs.push(k);
            assert(self.pairs@ == old_pairs.push(k));
            assert(self.pairs@.no_duplicates()) by {
                assert forall|a: int, b: int| 0 <= a < b < self.pairs@.len() implies self.pairs@[a] != self.pairs@[b] by {
                    if b == self.pairs@.len() - 1 {
                        assert(old_pairs.contains(self.pairs@[a]) || self.pairs@[a] != k);
                    }
                }
            }
        }
        proof {
            assert(self.last_joint@ =~= after.last_joint);
            assert(self.switch@.dom() =~= after.switch.dom());
            assert(self.inter@.dom() =~= after.inter.dom());
            assert(self.joint@.dom() =~= after.joint.dom());
            assert(after.switch == before.switch.insert(k, pushed(s1.switch, k, switch_time(s1, t, j))));
            assert forall|x: u128| after.switch.contains_key(x) <==> #[trigger] self.pairs@.contains(x) by {
                assert(after.switch.contains_key(x) <==> (x == k || before.switch.contains_key(x)));
                assert(before.switch.contains_key(x) <==> old_pairs.contains(x));
                if fresh {
                    assert(self.pairs@ == old_pairs.push(k));
                    if x == k {
                        assert(self.pairs@[old_pairs.len() as int] == k);
                    } else if self.pairs@.contains(x) {
                        let i = choose|i: int| 0 <= i < self.pairs@.len() && self.pairs@[i] == x;
                        assert(old_pairs[i] == x);
                    } else if old_pairs.contains(x) {
                        let i = choose|i: int| 0 <= i < old_pairs.len() && old_pairs[i] == x;
                        assert(self.pairs@[i] == x);
                    }
                }
            }
        }
    }
}

proof fn lemma_inv_weaken(s: ScanState, b1: nat, b2: nat, steps: nat)
    requires
        scan_inv(s, b1, steps),
        b1 <= b2,
    ensures
        scan_inv(s, b2, steps),
{
}

/// The switches made by access number `i` (from 0): `(i, c, j, t_j)` for
/// each earlier element `j` the access of `c` switches from, `t_j` being
/// the time of the latest access of `j`.
pub open spec fn step_events(trace: Seq<(usize, usize)>, i: int) -> Set<(usize, usize, usize, usize)> {
    let s = scan(trace.take(i));
    let t = trace[i].0;
    let c = trace[i].1;
    Set::new(
        |ev: (usize, usize, usize, usize)|
            ev.0 == i && ev.1 == c && switches(s, t, c, ev.2) && ev.3 == s.last[ev.2],
    )
}

/// The switches made by the first `n` accesses.
pub open spec fn switch_events(trace: Seq<(usize, usize)>, n: int) -> Set<(usize, usize, usize, usize)> {
    Set::new(|ev: (usize, usize, usize, usize)| ev.0 < n && step_events(trace, ev.0 as int).contains(ev))
}

/// The histograms of `histograms_of(trace)`, and, when `log` is set, every
/// switch the pass makes, in order of the accesses.
pub(crate) fn run_pass(trace: &Vec<(usize, usize)>, log: bool) -> (r: (
    HashMap<usize, Histogram>,
    HashMap<u128, Histogram>,
    HashMap<u128, Histogram>,
    HashMap<u128, Histogram>,
    Vec<(usize, usize, usize, usize)>,
))
    requires
        valid_trace(trace@),
        4 * (trace.len() + 1) < usize::MAX,
    ensures
        hist_matches(r.0@, histograms_of(trace@).reuse, trace.len() as nat),
        hist_matches(r.1@, histograms_of(trace@).switch, trace.len() as nat),
        hist_matches(r.2@, histograms_of(trace@).inter, trace.len() as nat),
        hist_matches(r.3@, histograms_of(trace@).joint, trace.len() as nat),
        log ==> r.4@.no_duplicates(),
        log ==> r.4@.to_set() == switch_events(trace@, trace.len() as int),
        log ==> forall|a: int, b: int| 0 <= a < b < r.4@.len() ==> (#[trigger] r.4@[a]).0 <= (#[trigger] r.4@[b]).0,
        !log ==> r.4@.len() == 0,
{
    let n = trace.len();
    let mut pass = Pass::new();
    let mut events: Vec<(usize, usize, usize, usize)> = Vec::new();
    let mut i: usize = 0;
    proof {
        assert(trace@.take(0) =~= Seq::<(usize, usize)>::empty());
        assert(scan_inv(empty_state(), 0, 0));
        assert(events@.to_set() =~= switch_events(trace@, 0));
    }
    while i < n
        invariant
            i <= n == trace.len(),
            valid_trace(trace@),
            4 * (n + 1) < usize::MAX,
            pass.matches(scan(trace@.take(i as int)), n as nat),
            scan_inv(scan(trace@.take(i as int)), last_time(trace@.take(i as int)), i as nat),
            i > 0 ==> last_time(trace@.take(i as int)) == trace@[i - 1].0,
            log ==> events@.no_duplicates(),
            log ==> events@.to_set() == switch_events(trace@, i as int),
            log ==> forall|a: int| 0 <= a < events@.len() ==> (#[trigger] events@[a]).0 < i,
            log ==> forall|a: int, b: int| 0 <= a < b < events@.len() ==> (#[trigger] events@[a]).0 <= (#[trigger] events@[b]).0,
            !log ==> events@.len() == 0,
        decreases n - i,
    {
        let (t, c) = trace[i];
        let ghost pre = trace@.take(i as int);
        proof {
            assert(trace@.take(i + 1).drop_last() =~= pre);
            assert(trace@.take(i + 1).last() == trace@[i as int]);
            if i > 0 {
                assert(trace@[i - 1].0 <= trace@[i as int].0);
            }
            assert(t <= n + 1);
            lemma_step_inv(scan(pre), t, c, last_time(pre), i as nat);
        }
        if log {
            pass.log_switches(i, t, c, &mut events, Ghost(scan(pre)), Ghost(last_time(pre)), Ghost(trace@));
        }
        pass.record_access(t, c, n, Ghost(scan(pre)), Ghost(last_time(pre)), Ghost(i as nat));
        i = i + 1;
    }
    proof {
        assert(trace@.take(n as int) =~= trace@);
        if n > 0 {
            assert(trace@[n - 1].0 <= n + 1);
        }
        lemma_inv_weaken(scan(trace@), last_time(trace@), (n + 1) as nat, n as nat);
    }
    pass.finish(n, n, Ghost(scan(trace@)), Ghost(n as nat));
    (pass.reuse, pass.switch, pass.inter, pass.joint, events)
}

/// Builds the reuse, switch, inter-switch and joint-switch histograms of a
/// trace of `(time, element)` accesses.  Pair histograms are keyed by
/// `pair_code` of the orientation in which the pair first switched.
pub fn get_histograms_file(trace: &Vec<(usize, usize)>) -> (r: (
    HashMap<usize, Histogram>,
    HashMap<u128, Histogram>,
    HashMap<u128, Histogram>,
    HashMap<u128, Histogram>,
))
    requires
        valid_trace(trace@),
        4 * (trace.len() + 1) < usize::MAX,
    ensures
        hist_matches(r.0@, histograms_of(trace@).reuse, trace.len() as nat),
        hist_matches(r.1@, histograms_of(trace@).switch, trace.len() as nat),
        hist_matches(r.2@, histograms_of(trace@).inter, trace.len() as nat),
        hist_matches(r.3@, histograms_of(trace@).joint, trace.len() as nat),
{
    let (reuse, switch, inter, joint, _) = run_pass(trace, false);
    (reuse, switch, inter, joint)
}

/// A typed trace of characters as a trace of accesses: character `i` (from
/// 0) is accessed at time `i + 1`, the element being its code point.
pub open spec fn typed_trace(chars: Seq<char>) -> Seq<(usize, usize)> {
    Seq::new(chars.len(), |i: int| ((i + 1) as usize, (chars[i] as u32) as usize))
}

/// The histograms of a typed trace, with the switches the pass makes, in
/// order: `(i, c, j, t_j)` says that access `i` (from 0), of `c`, switched
/// from `j`, last accessed at time `t_j`.
pub fn get_histograms_user(trace: &Vec<char>) -> (r: (
    HashMap<usize, Histogram>,
    HashMap<u128, Histogram>,
    HashMap<u128, Histogram>,
    HashMap<u128, Histogram>,
    Vec<(usize, usize, usize, usize)>,
))
    requires
        4 * (trace.len() + 1) < usize::MAX,
    ensures
        hist_matches(r.0@, histograms_of(typed_trace(trace@)).reuse, trace.len() as nat),
        hist_matches(r.1@, histograms_of(typed_trace(trace@)).switch, trace.len() as nat),
        hist_matches(r.2@, histograms_of(typed_trace(trace@)).inter, trace.len() as nat),
        hist_matches(r.3@, histograms_of(typed_trace(trace@)).joint, trace.len() as nat),
        r.4@.no_duplicates(),
        r.4@.to_set() == switch_events(typed_trace(trace@), trace.len() as int),
        forall|a: int, b: int| 0 <= a < b < r.4@.len() ==> (#[trigger] r.4@[a]).0 <= (#[trigger] r.4@[b]).0,
{
    let mut accesses: Vec<(usize, usize)> = Vec::new();
    let mut i: usize = 0;
    while i < trace.len()
        invariant
            i <= trace.len(),
            4 * (trace.len() + 1) < usize::MAX,
            accesses@ == typed_trace(trace@).take(i as int),
        decreases trace.len() - i,
    {
        accesses.push((i + 1, trace[i] as u32 as usize));
        i = i + 1;
        assert(accesses@ =~= typed_trace(trace@).take(i as int));
    }
    proof {
        assert(accesses@ =~= typed_trace(trace@));
    }
    run_pass(&accesses, true)
}

} // verus!
