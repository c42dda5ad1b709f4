//! A log-linear histogram of `u64` samples.
//!
//! Every bucket records the smallest and the largest sample that fell into
//! it, the sum of those samples and how many there were.  Samples below
//! `2 * base` (where `base == 2^sublog_bits`) each get a bucket of their own;
//! above that, every doubling of the value range is split into `base`
//! buckets of equal width.
use vstd::prelude::*;
use vstd::arithmetic::power2::{pow2, lemma_pow2_pos, lemma_pow2_unfold, lemma_pow2_strictly_increases, lemma2_to64_rest};

verus! {

/// Bucket that holds the sample `v`.
pub open spec fn bucket_index(v: nat, base: nat) -> nat
    decreases v,
{
    if base == 0 || v < 2 * base {
        v
    } else {
        base + bucket_index(v / 2, base)
    }
}

/// Sum of a sequence of samples.
pub open spec fn seq_sum(s: Seq<u64>) -> nat
    decreases s.len(),
{
    if s.len() == 0 {
        0
    } else {
        seq_sum(s.drop_last()) + s.last() as nat
    }
}

/// Smallest sample of a non-empty sequence.
pub open spec fn seq_min(s: Seq<u64>) -> u64
    decreases s.len(),
{
    if s.len() <= 1 {
        s[0]
    } else if s.last() < seq_min(s.drop_last()) {
        s.last()
    } else {
        seq_min(s.drop_last())
    }
}

/// Largest sample of a non-empty sequence.
pub open spec fn seq_max(s: Seq<u64>) -> u64
    decreases s.len(),
{
    if s.len() <= 1 {
        s[0]
    } else if s.last() > seq_max(s.drop_last()) {
        s.last()
    } else {
        seq_max(s.drop_last())
    }
}

/// The samples of `vals` that fall into bucket `b`, in the order they came.
pub open spec fn bucket_values(vals: Seq<u64>, base: nat, b: nat) -> Seq<u64>
    decreases vals.len(),
{
    if vals.len() == 0 {
        Seq::empty()
    } else {
        let prev = bucket_values(vals.drop_last(), base, b);
        if bucket_index(vals.last() as nat, base) == b {
            prev.push(vals.last())
        } else {
            prev
        }
    }
}

/// The record of one bucket: `(min, max, sum, count)`, all zero when empty.
pub open spec fn bucket_summary(s: Seq<u64>) -> (u64, u64, u64, u64) {
    if s.len() == 0 {
        (0, 0, 0, 0)
    } else {
        (seq_min(s), seq_max(s), seq_sum(s) as u64, s.len() as u64)
    }
}

/// Number of buckets: enough for `limit` and for every sample seen.
pub open spec fn bucket_count(vals: Seq<u64>, base: nat, limit: nat) -> nat
    decreases vals.len(),
{
    if vals.len() == 0 {
        bucket_index(limit, base) + 1
    } else {
        let prev = bucket_count(vals.drop_last(), base, limit);
        let here = bucket_index(vals.last() as nat, base) + 1;
        if here > prev {
            here
        } else {
            prev
        }
    }
}

/// The whole bucket table of a histogram with these samples.
pub open spec fn bucket_table(vals: Seq<u64>, base: nat, limit: nat) -> Seq<(u64, u64, u64, u64)> {
    Seq::new(bucket_count(vals, base, limit), |b: int| bucket_summary(bucket_values(vals, base, b as nat)))
}

pub struct Histogram {
    base: u64,
    limit: u64,
    buckets: Vec<(u64, u64, u64, u64)>,
    samples: Ghost<Seq<u64>>,
}

impl Histogram {
    /// The samples added so far, in order.
    pub closed spec fn values(&self) -> Seq<u64> {
        self.samples@
    }

    /// `2^sublog_bits`.
    pub closed spec fn base(&self) -> nat {
        self.base as nat
    }

    /// The value the histogram was sized for when it was made.
    pub closed spec fn limit(&self) -> nat {
        self.limit as nat
    }

    /// The bucket records, as `get_values` hands them out.
    pub open spec fn table(&self) -> Seq<(u64, u64, u64, u64)> {
        bucket_table(self.values(), self.base(), self.limit())
    }

    pub closed spec fn wf(&self) -> bool {
        &&& 1 <= self.base
        &&& 2 * self.base <= u64::MAX
        &&& seq_sum(self.samples@) <= u64::MAX
        &&& self.samples@.len() <= u64::MAX
        &&& self.buckets@ == bucket_table(self.samples@, self.base as nat, self.limit as nat)
    }
}


/// A sample never lands in a bucket past its own value.
pub proof fn lemma_bucket_index_le(v: nat, base: nat)
    ensures
        bucket_index(v, base) <= v,
    decreases v,
{
    if base != 0 && v >= 2 * base {
        lemma_bucket_index_le(v / 2, base);
    }
}

/// Buckets below `2 * base` hold exactly one value; buckets from `base`
/// upward only hold values of at least `base`.
pub proof fn lemma_bucket_index_low(v: nat, base: nat)
    requires
        base >= 1,
    ensures
        v < 2 * base ==> bucket_index(v, base) == v,
        v >= base ==> bucket_index(v, base) >= base,
        v >= 2 * base ==> bucket_index(v, base) >= 2 * base,
    decreases v,
{
    if v >= 2 * base {
        lemma_bucket_index_low(v / 2, base);
    }
}

proof fn lemma_bucket_values_push(vals: Seq<u64>, v: u64, base: nat, b: nat)
    ensures
        bucket_values(vals.push(v), base, b) == (if bucket_index(v as nat, base) == b {
            bucket_values(vals, base, b).push(v)
        } else {
            bucket_values(vals, base, b)
        }),
{
    assert(vals.push(v).drop_last() =~= vals);
}

/// Appending a sample adds it to the sum.
pub proof fn lemma_seq_sum_push(s: Seq<u64>, v: u64)
    ensures
        seq_sum(s.push(v)) == seq_sum(s) + v,
        seq_sum(seq![v]) == v,
{
    assert(s.push(v).drop_last() =~= s);
    assert(seq![v].drop_last() =~= Seq::<u64>::empty());
    assert(seq_sum(Seq::<u64>::empty()) == 0);
    assert(seq![v].last() == v);
}

proof fn lemma_push_stats(s: Seq<u64>, v: u64)
    ensures
        seq_sum(s.push(v)) == seq_sum(s) + v,
        s.len() > 0 ==> seq_min(s.push(v)) == (if v < seq_min(s) { v } else { seq_min(s) }),
        s.len() > 0 ==> seq_max(s.push(v)) == (if v > seq_max(s) { v } else { seq_max(s) }),
        s.len() == 0 ==> seq_min(s.push(v)) == v && seq_max(s.push(v)) == v,
{
    assert(s.push(v).drop_last() =~= s);
}

pub proof fn lemma_bucket_values_bounded(vals: Seq<u64>, base: nat, b: nat)
    ensures
        seq_sum(bucket_values(vals, base, b)) <= seq_sum(vals),
        bucket_values(vals, base, b).len() <= vals.len(),
    decreases vals.len(),
{
    if vals.len() > 0 {
        lemma_bucket_values_bounded(vals.drop_last(), base, b);
        lemma_push_stats(bucket_values(vals.drop_last(), base, b), vals.last());
    }
}

proof fn lemma_bucket_values_past_count(vals: Seq<u64>, base: nat, limit: nat, b: nat)
    requires
        b >= bucket_count(vals, base, limit),
    ensures
        bucket_values(vals, base, b).len() == 0,
    decreases vals.len(),
{
    if vals.len() > 0 {
        lemma_bucket_values_past_count(vals.drop_last(), base, limit, b);
    }
}

proof fn lemma_bucket_count_push(vals: Seq<u64>, v: u64, base: nat, limit: nat)
    ensures
        bucket_count(vals.push(v), base, limit) == (if bucket_index(v as nat, base) + 1 > bucket_count(vals, base, limit) {
            bucket_index(v as nat, base) + 1
        } else {
            bucket_count(vals, base, limit)
        }),
{
    assert(vals.push(v).drop_last() =~= vals);
}

proof fn lemma_pow2_bound(n: nat)
    requires
        n <= 62,
    ensures
        1 <= pow2(n) <= 0x4000_0000_0000_0000,
        n < 62 ==> pow2(n) <= 0x2000_0000_0000_0000,
{
    lemma2_to64_rest();
    lemma_pow2_pos(n);
    if n < 61 {
        lemma_pow2_strictly_increases(n, 61);
    }
}

/// Bucket of a sample, computed.
fn bucket_of(value: u64, base: u64) -> (idx: usize)
    requires
        1 <= base,
        2 * base <= u64::MAX,
        value < usize::MAX,
    ensures
        idx == bucket_index(value as nat, base as nat),
{
    let mut x: u64 = value;
    let mut off: u64 = 0;
    proof {
        lemma_bucket_index_le(value as nat, base as nat);
    }
    while x >= 2 * base
        invariant
            1 <= base,
            2 * base <= u64::MAX,
            off + bucket_index(x as nat, base as nat) == bucket_index(value as nat, base as nat),
            bucket_index(value as nat, base as nat) <= value,
            value < usize::MAX,
        decreases x,
    {
        proof {
            lemma_bucket_index_low((x / 2) as nat, base as nat);
        }
        off = off + base;
        x = x / 2;
    }
    (off + x) as usize
}

impl Histogram {
    /// An empty histogram with `2^sublog_bits` buckets per doubling, sized
    /// for samples up to `limit`.
    pub fn new_tuple(sublog_bits: u64, limit: u64) -> (h: Histogram)
        requires
            sublog_bits <= 62,
            limit < usize::MAX,
        ensures
            h.wf(),
            h.values() == Seq::<u64>::empty(),
            h.base() == pow2(sublog_bits as nat),
            h.limit() == limit,
    {
        let mut base: u64 = 1;
        let mut i: u64 = 0;
        proof {
            lemma2_to64_rest();
            vstd::arithmetic::power2::lemma2_to64();
        }
        while i < sublog_bits
            invariant
                i <= sublog_bits <= 62,
                base == pow2(i as nat),
            decreases sublog_bits - i,
        {
            proof {
                lemma_pow2_bound(i as nat);
                lemma_pow2_unfold((i + 1) as nat);
            }
            base = base * 2;
            i = i + 1;
        }
        proof {
            lemma_pow2_bound(sublog_bits as nat);
            lemma_bucket_index_le(limit as nat, base as nat);
        }
        let n = bucket_of(limit, base) + 1;
        let mut buckets: Vec<(u64, u64, u64, u64)> = Vec::new();
        let ghost empty = Seq::<u64>::empty();
        while buckets.len() < n
            invariant
                n == bucket_count(empty, base as nat, limit as nat),
                buckets.len() <= n,
                forall|b: int| 0 <= b < buckets.len() ==> #[trigger] buckets@[b] == (0u64, 0u64, 0u64, 0u64),
            decreases n - buckets.len(),
        {
            buckets.push((0, 0, 0, 0));
        }
        let h = Histogram { base, limit, buckets, samples: Ghost(empty) };
        assert(h.buckets@ =~= bucket_table(empty, base as nat, limit as nat));
        h
    }

    /// Records one more sample.
    pub fn add(&mut self, value: u64)
        requires
            old(self).wf(),
            seq_sum(old(self).values()) + value <= u64::MAX,
            old(self).values().len() < u64::MAX,
            value < usize::MAX,
        ensures
            final(self).wf(),
            final(self).values() == old(self).values().push(value),
            final(self).base() == old(self).base(),
            final(self).limit() == old(self).limit(),
    {
        let ghost base = self.base as nat;
        let ghost limit = self.limit as nat;
        let ghost old_vals = self.samples@;
        let ghost new_vals = old_vals.push(value);
        let ghost old_count = bucket_count(old_vals, base, limit);
        let idx = bucket_of(value, self.base);
        proof {
            lemma_bucket_count_push(old_vals, value, base, limit);
        }
        while self.buckets.len() <= idx
            invariant
                self.base == base,
                self.limit == limit,
                self.samples@ == old_vals,
                old_count == bucket_count(old_vals, base, limit),
                old_count <= self.buckets.len(),
                self.buckets.len() <= (if idx + 1 > old_count { idx + 1 } else { old_count as int }),
                forall|b: int|
                    0 <= b < self.buckets.len() ==> #[trigger] self.buckets@[b] == bucket_summary(
                        bucket_values(old_vals, base, b as nat),
                    ),
            decreases idx + 1 - self.buckets.len(),
        {
            proof {
                lemma_bucket_values_past_count(old_vals, base, limit, self.buckets.len() as nat);
            }
            self.buckets.push((0, 0, 0, 0));
        }
        let cur = self.buckets[idx];
        let ghost in_bucket = bucket_values(old_vals, base, idx as nat);
        proof {
            lemma_bucket_values_bounded(old_vals, base, idx as nat);
            lemma_push_stats(in_bucket, value);
        }
        let entry = if cur.3 == 0 {
            (value, value, value, 1u64)
        } else {
            let lo = if value < cur.0 { value } else { cur.0 };
            let hi = if value > cur.1 { value } else { cur.1 };
            (lo, hi, cur.2 + value, cur.3 + 1)
        };
        self.buckets.set(idx, entry);
        self.samples = Ghost(new_vals);
        proof {
            lemma_push_stats(old_vals, value);
            assert forall|b: int| 0 <= b < self.buckets.len() implies #[trigger] self.buckets@[b]
                == bucket_summary(bucket_values(new_vals, base, b as nat)) by {
                lemma_bucket_values_push(old_vals, value, base, b as nat);
            }
            assert(self.buckets@ =~= bucket_table(new_vals, base, limit));
        }
    }

    /// The bucket records `(min, max, sum, count)`, one per bucket, in
    /// bucket order.
    pub fn get_values(&self) -> (r: Vec<(u64, u64, u64, u64)>)
        requires
            self.wf(),
        ensures
            r@ == self.table(),
    {
        let mut r: Vec<(u64, u64, u64, u64)> = Vec::new();
        let mut i: usize = 0;
        while i < self.buckets.len()
            invariant
                i <= self.buckets.len(),
                r@ == self.buckets@.subrange(0, i as int),
            decreases self.buckets.len() - i,
        {
            r.push(self.buckets[i]);
            i = i + 1;
            assert(r@ =~= self.buckets@.subrange(0, i as int));
        }
        assert(self.buckets@.subrange(0, i as int) =~= self.buckets@);
        r
    }
}

/// Sum of `f` over the entries of a bucket table.
pub open spec fn table_total(t: Seq<(u64, u64, u64, u64)>, f: spec_fn((u64, u64, u64, u64)) -> int) -> int
    decreases t.len(),
{
    if t.len() == 0 {
        0
    } else {
        table_total(t.drop_last(), f) + f(t.last())
    }
}

pub proof fn lemma_table_total_update(
    t: Seq<(u64, u64, u64, u64)>,
    i: int,
    x: (u64, u64, u64, u64),
    f: spec_fn((u64, u64, u64, u64)) -> int,
)
    requires
        0 <= i < t.len(),
    ensures
        table_total(t.update(i, x), f) == table_total(t, f) - f(t[i]) + f(x),
    decreases t.len(),
{
    let u = t.update(i, x);
    if i == t.len() - 1 {
        assert(u.drop_last() =~= t.drop_last());
    } else {
        assert(u.drop_last() =~= t.drop_last().update(i, x));
        lemma_table_total_update(t.drop_last(), i, x, f);
    }
}

pub proof fn lemma_table_total_zeros(
    t: Seq<(u64, u64, u64, u64)>,
    n: nat,
    f: spec_fn((u64, u64, u64, u64)) -> int,
)
    requires
        f((0, 0, 0, 0)) == 0,
    ensures
        table_total(t + Seq::new(n, |b: int| (0u64, 0u64, 0u64, 0u64)), f) == table_total(t, f),
    decreases n,
{
    let z = Seq::new(n, |b: int| (0u64, 0u64, 0u64, 0u64));
    if n > 0 {
        let z1 = Seq::new((n - 1) as nat, |b: int| (0u64, 0u64, 0u64, 0u64));
        assert((t + z).drop_last() =~= t + z1);
        lemma_table_total_zeros(t, (n - 1) as nat, f);
    } else {
        assert(t + z =~= t);
    }
}

/// The members of a bucket are the samples that map to it.
pub proof fn lemma_bucket_values_members(vals: Seq<u64>, base: nat, b: nat)
    ensures
        forall|i: int| 0 <= i < bucket_values(vals, base, b).len() ==> bucket_index(
            #[trigger] bucket_values(vals, base, b)[i] as nat,
            base,
        ) == b,
    decreases vals.len(),
{
    if vals.len() > 0 {
        lemma_bucket_values_members(vals.drop_last(), base, b);
        let prev = bucket_values(vals.drop_last(), base, b);
        let cur = bucket_values(vals, base, b);
        assert forall|i: int| 0 <= i < cur.len() implies bucket_index(#[trigger] cur[i] as nat, base) == b by {
            if i < prev.len() {
                assert(cur[i] == prev[i]);
            }
        }
    }
}

/// How one more sample changes the bucket table: the bucket of the sample
/// gets it, the table grows with empty buckets as far as that bucket.
pub proof fn lemma_table_push(vals: Seq<u64>, v: u64, base: nat, limit: nat)
    ensures
        ({
            let idx = bucket_index(v as nat, base);
            let old_t = bucket_table(vals, base, limit);
            let n = bucket_count(vals.push(v), base, limit);
            let ext = old_t + Seq::new((n - old_t.len()) as nat, |b: int| (0u64, 0u64, 0u64, 0u64));
            &&& old_t.len() <= n
            &&& idx < n
            &&& bucket_table(vals.push(v), base, limit) == ext.update(
                idx as int,
                bucket_summary(bucket_values(vals, base, idx).push(v)),
            )
            &&& ext[idx as int] == bucket_summary(bucket_values(vals, base, idx))
        }),
{
    let idx = bucket_index(v as nat, base);
    let old_t = bucket_table(vals, base, limit);
    let n = bucket_count(vals.push(v), base, limit);
    lemma_bucket_count_push(vals, v, base, limit);
    let ext = old_t + Seq::new((n - old_t.len()) as nat, |b: int| (0u64, 0u64, 0u64, 0u64));
    assert forall|b: int| 0 <= b < n implies #[trigger] ext[b] == bucket_summary(bucket_values(vals, base, b as nat)) by {
        if b >= old_t.len() {
            lemma_bucket_values_past_count(vals, base, limit, b as nat);
        }
    }
    assert forall|b: int| 0 <= b < n implies #[trigger] bucket_table(vals.push(v), base, limit)[b]
        == ext.update(idx as int, bucket_summary(bucket_values(vals, base, idx).push(v)))[b] by {
        lemma_bucket_values_push(vals, v, base, b as nat);
    }
    assert(bucket_table(vals.push(v), base, limit) =~= ext.update(
        idx as int,
        bucket_summary(bucket_values(vals, base, idx).push(v)),
    ));
}

/// Any `f` that is zero on empty buckets changes, when a sample is added,
/// only by its change on the sample's bucket.
pub proof fn lemma_table_total_push(
    vals: Seq<u64>,
    v: u64,
    base: nat,
    limit: nat,
    f: spec_fn((u64, u64, u64, u64)) -> int,
)
    requires
        f((0, 0, 0, 0)) == 0,
    ensures
        table_total(bucket_table(vals.push(v), base, limit), f) == table_total(bucket_table(vals, base, limit), f)
            - f(bucket_summary(bucket_values(vals, base, bucket_index(v as nat, base)))) + f(
            bucket_summary(bucket_values(vals, base, bucket_index(v as nat, base)).push(v)),
        ),
{
    let idx = bucket_index(v as nat, base);
    let old_t = bucket_table(vals, base, limit);
    let n = bucket_count(vals.push(v), base, limit);
    lemma_table_push(vals, v, base, limit);
    let ext = old_t + Seq::new((n - old_t.len()) as nat, |b: int| (0u64, 0u64, 0u64, 0u64));
    lemma_table_total_zeros(old_t, (n - old_t.len()) as nat, f);
    lemma_table_total_update(ext, idx as int, bucket_summary(bucket_values(vals, base, idx).push(v)), f);
}

/// Table entry fields as integers.
pub open spec fn entry_sum(b: (u64, u64, u64, u64)) -> int {
    b.2 as int
}

pub open spec fn entry_count(b: (u64, u64, u64, u64)) -> int {
    b.3 as int
}

/// The smallest sample is one of the samples and bounds all of them from
/// below; likewise the largest from above; the sum is at least `len * min`.
pub proof fn lemma_seq_min_max(s: Seq<u64>)
    requires
        s.len() > 0,
    ensures
        forall|i: int| 0 <= i < s.len() ==> seq_min(s) <= #[trigger] s[i] <= seq_max(s),
        s.contains(seq_min(s)),
        s.contains(seq_max(s)),
        seq_sum(s) >= s.len() * seq_min(s),
        seq_sum(s) <= s.len() * seq_max(s),
    decreases s.len(),
{
    if s.len() == 1 {
        assert(s[0] == s.last());
        assert(s.drop_last() =~= Seq::<u64>::empty());
        assert(seq_sum(Seq::<u64>::empty()) == 0);
        assert(seq_sum(s) == s[0]);
        assert(s.contains(s[0]));
    } else {
        let p = s.drop_last();
        lemma_seq_min_max(p);
        assert forall|i: int| 0 <= i < s.len() implies seq_min(s) <= #[trigger] s[i] <= seq_max(s) by {
            if i < p.len() {
                assert(s[i] == p[i]);
            }
        }
        if seq_min(s) == seq_min(p) {
            let i = choose|i: int| 0 <= i < p.len() && p[i] == seq_min(p);
            assert(s[i] == seq_min(s));
        } else {
            assert(s[s.len() - 1] == seq_min(s));
        }
        if seq_max(s) == seq_max(p) {
            let i = choose|i: int| 0 <= i < p.len() && p[i] == seq_max(p);
            assert(s[i] == seq_max(s));
        } else {
            assert(s[s.len() - 1] == seq_max(s));
        }
        let m = seq_min(s) as int;
        let mx = seq_max(s) as int;
        assert(p.len() * seq_min(p) >= p.len() * m) by (nonlinear_arith)
            requires
                seq_min(p) >= m,
        ;
        assert(p.len() * seq_max(p) <= p.len() * mx) by (nonlinear_arith)
            requires
                seq_max(p) <= mx,
        ;
        assert(s.len() * m == p.len() * m + m) by (nonlinear_arith)
            requires
                s.len() == p.len() + 1,
        ;
        assert(s.len() * mx == p.len() * mx + mx) by (nonlinear_arith)
            requires
                s.len() == p.len() + 1,
        ;
    }
}

/// Bucket sums add up to the sum of all samples, bucket counts to their number.
pub proof fn lemma_table_sum_count(vals: Seq<u64>, base: nat, limit: nat)
    requires
        seq_sum(vals) <= u64::MAX,
        vals.len() <= u64::MAX,
    ensures
        table_total(bucket_table(vals, base, limit), |b: (u64, u64, u64, u64)| entry_sum(b)) == seq_sum(vals),
        table_total(bucket_table(vals, base, limit), |b: (u64, u64, u64, u64)| entry_count(b)) == vals.len(),
    decreases vals.len(),
{
    let fs = |b: (u64, u64, u64, u64)| entry_sum(b);
    let fc = |b: (u64, u64, u64, u64)| entry_count(b);
    if vals.len() == 0 {
        let t = bucket_table(vals, base, limit);
        assert forall|b: int| 0 <= b < t.len() implies #[trigger] t[b] == (0u64, 0u64, 0u64, 0u64) by {
            lemma_bucket_values_bounded(vals, base, b as nat);
        }
        lemma_table_total_zeros(Seq::empty(), t.len(), fs);
        lemma_table_total_zeros(Seq::empty(), t.len(), fc);
        assert(t =~= Seq::<(u64, u64, u64, u64)>::empty() + Seq::new(t.len(), |b: int| (0u64, 0u64, 0u64, 0u64)));
    } else {
        let p = vals.drop_last();
        let v = vals.last();
        assert(p.push(v) =~= vals);
        lemma_seq_sum_push(p, v);
        lemma_table_sum_count(p, base, limit);
        lemma_table_total_push(p, v, base, limit, fs);
        lemma_table_total_push(p, v, base, limit, fc);
        let bv = bucket_values(p, base, bucket_index(v as nat, base));
        lemma_bucket_values_bounded(p, base, bucket_index(v as nat, base));
        lemma_seq_sum_push(bv, v);
    }
}

/// Every entry of a table respects `min * count <= sum`, and an entry with
/// count 0 is all zeros.
pub proof fn lemma_table_entries(vals: Seq<u64>, base: nat, limit: nat)
    requires
        seq_sum(vals) <= u64::MAX,
        vals.len() <= u64::MAX,
    ensures
        forall|b: int| 0 <= b < bucket_table(vals, base, limit).len() ==> {
            let e = #[trigger] bucket_table(vals, base, limit)[b];
            &&& e.0 as int * e.3 as int <= e.2 as int
            &&& e.2 as int <= e.1 as int * e.3 as int
            &&& e.0 <= e.1
            &&& (e.3 == 0 <==> e == (0u64, 0u64, 0u64, 0u64))
        },
{
    assert forall|b: int| 0 <= b < bucket_table(vals, base, limit).len() implies {
        let e = #[trigger] bucket_table(vals, base, limit)[b];
        &&& e.0 as int * e.3 as int <= e.2 as int
        &&& e.2 as int <= e.1 as int * e.3 as int
        &&& e.0 <= e.1
        &&& (e.3 == 0 <==> e == (0u64, 0u64, 0u64, 0u64))
    } by {
        let s = bucket_values(vals, base, b as nat);
        let e = bucket_table(vals, base, limit)[b];
        lemma_bucket_values_bounded(vals, base, b as nat);
        assert(e == bucket_summary(s));
        if s.len() > 0 {
            lemma_seq_min_max(s);
            assert(seq_min(s) <= s[0] <= seq_max(s));
            assert(e.2 == seq_sum(s));
            assert(e.3 == s.len());
            assert(e.3 != 0);
            assert(e.0 as int * e.3 as int == s.len() * seq_min(s)) by (nonlinear_arith)
                requires
                    e.0 == seq_min(s),
                    e.3 == s.len(),
            ;
            assert(e.1 as int * e.3 as int == s.len() * seq_max(s)) by (nonlinear_arith)
                requires
                    e.1 == seq_max(s),
                    e.3 == s.len(),
            ;
            assert(e.0 as int * e.3 as int <= e.2 as int);
            assert(e.2 as int <= e.1 as int * e.3 as int);
            assert(e.0 <= e.1);
            assert(e != (0u64, 0u64, 0u64, 0u64));
        } else {
            assert(e == (0u64, 0u64, 0u64, 0u64));
            assert(e.0 == 0 && e.1 == 0 && e.2 == 0 && e.3 == 0);
            assert(e.0 as int * e.3 as int == 0) by (nonlinear_arith)
                requires
                    e.3 == 0,
            ;
            assert(e.1 as int * e.3 as int == 0) by (nonlinear_arith)
                requires
                    e.3 == 0,
            ;
        }
    }
}

impl Histogram {
    /// The facts of `lemma_table_entries` and `lemma_table_sum_count` for
    /// this histogram.
    pub proof fn lemma_wf_table(&self)
        requires
            self.wf(),
        ensures
            seq_sum(self.values()) <= u64::MAX,
            self.values().len() <= u64::MAX,
            self.base() >= 1,
            2 * self.base() <= u64::MAX,
            table_total(self.table(), |b: (u64, u64, u64, u64)| entry_sum(b)) == seq_sum(self.values()),
            table_total(self.table(), |b: (u64, u64, u64, u64)| entry_count(b)) == self.values().len(),
            forall|b: int| 0 <= b < self.table().len() ==> {
                let e = #[trigger] self.table()[b];
                &&& e.0 as int * e.3 as int <= e.2 as int
                &&& e.2 as int <= e.1 as int * e.3 as int
                &&& e.0 <= e.1
                &&& (e.3 == 0 <==> e == (0u64, 0u64, 0u64, 0u64))
            },
    {
        lemma_table_sum_count(self.values(), self.base(), self.limit());
        lemma_table_entries(self.values(), self.base(), self.limit());
    }
}

} // verus!
