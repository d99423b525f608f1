use vstd::prelude::*;

use crate::decimal::{lemma_pow10_limits, lemma_pow10_mono, lemma_pow10_pos, pow10, pow10_exec, Decimal};
use crate::rounding::{div_floor, floor_div};

verus! {

/// A split of the ranks `1..=n1+n2` into two groups, each in increasing order.
#[derive(Clone, Debug)]
pub struct SimRank {
    pub n1: Vec<usize>,
    pub n2: Vec<usize>,
}

/// Sum of a sequence of ranks.
pub open spec fn rank_sum(s: Seq<usize>) -> int
    decreases s.len(),
{
    if s.len() == 0 {
        0
    } else {
        rank_sum(s.drop_last()) + s.last()
    }
}

/// `s` rises strictly.
pub open spec fn increasing(s: Seq<usize>) -> bool {
    forall|a: int, b: int| 0 <= a < b < s.len() ==> s[a] < s[b]
}

/// `g1` and `g2` split the ranks `1..=total` between them, each in increasing order.
pub open spec fn splits(g1: Seq<usize>, g2: Seq<usize>, total: int) -> bool {
    &&& increasing(g1)
    &&& increasing(g2)
    &&& g1.len() + g2.len() == total
    &&& forall|i: int| 0 <= i < g1.len() ==> 1 <= #[trigger] g1[i] <= total
    &&& forall|i: int| 0 <= i < g2.len() ==> 1 <= #[trigger] g2[i] <= total
    &&& forall|r: int|
        1 <= r <= total ==> (#[trigger] g1.contains(r as usize) <==> !g2.contains(r as usize))
}

/// A partition that the sampler may hand out: group sizes `n1` and `n2`, and a first group
/// whose ranks sum to `r1_target`.
pub open spec fn partition_ok(p: SimRank, n1: int, n2: int, r1_target: int) -> bool {
    &&& p.n1@.len() == n1
    &&& p.n2@.len() == n2
    &&& splits(p.n1@, p.n2@, n1 + n2)
    &&& rank_sum(p.n1@) == r1_target
}

/// Rank sum of the first group that a U statistic of `u` asks for: `u + n1 (n1 + 1) / 2`,
/// rounded half up to a whole number.
pub open spec fn r1_target_spec(u: Decimal, n1: int) -> int {
    floor_div(
        2 * (u.mantissa + (n1 * (n1 + 1) / 2) * pow10(u.scale as nat)) + pow10(u.scale as nat),
        2 * pow10(u.scale as nat),
    )
}

/// Largest count of ranks the sampler takes.
pub const RANK_LIMIT: usize = 0xffff_ffff;

impl SimRank {
    pub fn new(n1: Vec<usize>, n2: Vec<usize>) -> (r: SimRank)
        ensures
            r.n1@ == n1@,
            r.n2@ == n2@,
    {
        SimRank { n1, n2 }
    }

    /// The U statistics of the two groups: `|n1| |n2| + |n1| (|n1| + 1) / 2 - R1` and the same
    /// for the second group, where `R1` and `R2` are the rank sums. This counts, for each
    /// group, the pairs in which the other group's member ranks higher; the target of
    /// `simrank` is the first group's count the other way round, `R1 - |n1| (|n1| + 1) / 2`,
    /// which is the second value here.
    pub fn u_values(&self) -> (r: (i128, i128))
        requires
            self.n1@.len() <= RANK_LIMIT,
            self.n2@.len() <= RANK_LIMIT,
        ensures
            r.0 == self.n1@.len() * self.n2@.len() + self.n1@.len() * (self.n1@.len() + 1) / 2
                - rank_sum(self.n1@),
            r.1 == self.n1@.len() * self.n2@.len() + self.n2@.len() * (self.n2@.len() + 1) / 2
                - rank_sum(self.n2@),
    {
        let a = self.n1.len() as i128;
        let b = self.n2.len() as i128;
        let r1 = sum_ranks(&self.n1);
        let r2 = sum_ranks(&self.n2);
        proof {
            lemma_rank_sum_bound(self.n1@);
            lemma_rank_sum_bound(self.n2@);
            assert(self.n1@.len() * 0xffff_ffff_ffff_ffff <= 0xffff_ffff * 0xffff_ffff_ffff_ffff) by (nonlinear_arith)
                requires
                    self.n1@.len() <= 0xffff_ffff,
            ;
            assert(self.n2@.len() * 0xffff_ffff_ffff_ffff <= 0xffff_ffff * 0xffff_ffff_ffff_ffff) by (nonlinear_arith)
                requires
                    self.n2@.len() <= 0xffff_ffff,
            ;
            assert(0 <= a * b <= 0xffff_ffff * 0xffff_ffff) by (nonlinear_arith)
                requires
                    0 <= a <= 0xffff_ffff,
                    0 <= b <= 0xffff_ffff,
            ;
            assert(0 <= a * (a + 1) <= 0xffff_ffff * 0x1_0000_0000) by (nonlinear_arith)
                requires
                    0 <= a <= 0xffff_ffff,
            ;
            assert(0 <= b * (b + 1) <= 0xffff_ffff * 0x1_0000_0000) by (nonlinear_arith)
                requires
                    0 <= b <= 0xffff_ffff,
            ;
        }
        (a * b + a * (a + 1) / 2 - r1, a * b + b * (b + 1) / 2 - r2)
    }
}

proof fn lemma_rank_sum_bound(s: Seq<usize>)
    ensures
        0 <= rank_sum(s) <= s.len() * 0xffff_ffff_ffff_ffff,
    decreases s.len(),
{
    if s.len() > 0 {
        lemma_rank_sum_bound(s.drop_last());
    }
}

/// Sum of the ranks, computed.
fn sum_ranks(v: &Vec<usize>) -> (r: i128)
    requires
        v@.len() <= RANK_LIMIT,
    ensures
        r == rank_sum(v@),
{
    let mut total: i128 = 0;
    let mut i: usize = 0;
    while i < v.len()
        invariant
            i <= v@.len() <= RANK_LIMIT,
            total == rank_sum(v@.subrange(0, i as int)),
        decreases v@.len() - i,
    {
        proof {
            lemma_rank_sum_bound(v@.subrange(0, i as int));
            assert(v@.subrange(0, i as int + 1).drop_last() =~= v@.subrange(0, i as int));
        }
        total = total + v[i] as i128;
        i = i + 1;
    }
    assert(v@.subrange(0, v@.len() as int) =~= v@);
    total
}

/// Relies on rand::seq::index::sample, with the thread-local generator of rand::rng:
/// `amount` distinct indices drawn from `0..length`.
#[verifier::external_body]
fn sample_indices(length: usize, amount: usize) -> (r: Vec<usize>)
    requires
        amount <= length,
    ensures
        r@.len() == amount,
        forall|i: int| 0 <= i < r@.len() ==> #[trigger] r@[i] < length,
        forall|a: int, b: int| 0 <= a < b < r@.len() ==> r@[a] != r@[b],
{
    rand::seq::index::sample(&mut rand::rng(), length, amount).into_vec()
}

/// The ranks `1..=k` whose index `rank - 1` stands in `s`, in increasing order.
pub open spec fn marked_ranks(s: Seq<usize>, k: int) -> Seq<usize>
    decreases k,
{
    if k <= 0 {
        Seq::empty()
    } else if s.contains((k - 1) as usize) {
        marked_ranks(s, k - 1).push(k as usize)
    } else {
        marked_ranks(s, k - 1)
    }
}

/// The ranks `1..=k` whose index `rank - 1` does not stand in `s`, in increasing order.
pub open spec fn unmarked_ranks(s: Seq<usize>, k: int) -> Seq<usize>
    decreases k,
{
    if k <= 0 {
        Seq::empty()
    } else if s.contains((k - 1) as usize) {
        unmarked_ranks(s, k - 1)
    } else {
        unmarked_ranks(s, k - 1).push(k as usize)
    }
}

/// `s` holds `n1` distinct indices below `total`.
pub open spec fn sample_ok(s: Seq<usize>, n1: int, total: int) -> bool {
    &&& s.len() == n1
    &&& forall|i: int| 0 <= i < s.len() ==> #[trigger] s[i] < total
    &&& forall|a: int, b: int| 0 <= a < b < s.len() ==> s[a] != s[b]
}

/// The sample succeeds: its ranks sum to the target.
pub open spec fn sample_hits(s: Seq<usize>, n1: int, n2: int, r1_target: int) -> bool {
    &&& sample_ok(s, n1, n1 + n2)
    &&& marked_ranks(s, n1 + n2).len() == n1
    &&& rank_sum(marked_ranks(s, n1 + n2)) == r1_target
}

/// Two lists of ranks are equal.
fn ranks_eq(a: &Vec<usize>, b: &Vec<usize>) -> (r: bool)
    ensures
        r == (a@ == b@),
{
    if a.len() != b.len() {
        return false;
    }
    let mut i: usize = 0;
    while i < a.len()
        invariant
            a@.len() == b@.len(),
            i <= a@.len(),
            forall|k: int| 0 <= k < i ==> a@[k] == b@[k],
        decreases a@.len() - i,
    {
        if a[i] != b[i] {
            assert(a@[i as int] != b@[i as int]);
            return false;
        }
        i = i + 1;
    }
    assert(a@ =~= b@);
    true
}

proof fn lemma_push_facts(m: Seq<usize>, k: int)
    requires
        0 < k <= RANK_LIMIT,
        increasing(m),
        forall|i: int| 0 <= i < m.len() ==> 1 <= #[trigger] m[i] <= k - 1,
    ensures
        increasing(m.push(k as usize)),
        forall|i: int| 0 <= i < m.len() + 1 ==> 1 <= #[trigger] m.push(k as usize)[i] <= k,
        forall|r: int|
            1 <= r <= k ==> (#[trigger] m.push(k as usize).contains(r as usize) <==> (r == k
                || m.contains(r as usize))),
        forall|r: int| 1 <= r <= k ==> (#[trigger] m.contains(r as usize) ==> r < k),
{
    let p = m.push(k as usize);
    assert forall|a: int, b: int| 0 <= a < b < p.len() implies p[a] < p[b] by {
        if b < m.len() {
            assert(p[a] == m[a] && p[b] == m[b]);
        } else {
            assert(p[a] == m[a]);
        }
    }
    assert forall|i: int| 0 <= i < m.len() + 1 implies 1 <= #[trigger] p[i] <= k by {
        if i < m.len() {
            assert(p[i] == m[i]);
        }
    }
    assert forall|r: int| 1 <= r <= k implies (#[trigger] p.contains(r as usize) <==> (r == k
        || m.contains(r as usize))) by {
        if p.contains(r as usize) && r != k {
            let w = choose|w: int| 0 <= w < p.len() && p[w] == r as usize;
            assert(w < m.len());
            assert(m[w] == r as usize);
        }
        if r == k {
            assert(p[m.len() as int] == k as usize);
        } else if m.contains(r as usize) {
            let w = choose|w: int| 0 <= w < m.len() && m[w] == r as usize;
            assert(p[w] == r as usize);
        }
    }
    assert forall|r: int| 1 <= r <= k implies (#[trigger] m.contains(r as usize) ==> r < k) by {
        if m.contains(r as usize) {
            let w = choose|w: int| 0 <= w < m.len() && m[w] == r as usize;
        }
    }
}

proof fn lemma_marked_facts(s: Seq<usize>, k: int)
    requires
        0 <= k <= RANK_LIMIT,
    ensures
        increasing(marked_ranks(s, k)),
        increasing(unmarked_ranks(s, k)),
        marked_ranks(s, k).len() + unmarked_ranks(s, k).len() == k,
        forall|i: int|
            0 <= i < marked_ranks(s, k).len() ==> 1 <= #[trigger] marked_ranks(s, k)[i] <= k,
        forall|i: int|
            0 <= i < unmarked_ranks(s, k).len() ==> 1 <= #[trigger] unmarked_ranks(s, k)[i] <= k,
        forall|r: int|
            1 <= r <= k ==> (#[trigger] marked_ranks(s, k).contains(r as usize) <==> s.contains(
                (r - 1) as usize,
            )),
        forall|r: int|
            1 <= r <= k ==> (#[trigger] unmarked_ranks(s, k).contains(r as usize) <==> !s.contains(
                (r - 1) as usize,
            )),
    decreases k,
{
    if k > 0 {
        lemma_marked_facts(s, k - 1);
        let m = marked_ranks(s, k - 1);
        let u = unmarked_ranks(s, k - 1);
        lemma_push_facts(m, k);
        lemma_push_facts(u, k);
        if s.contains((k - 1) as usize) {
            assert(marked_ranks(s, k) == m.push(k as usize));
            assert(unmarked_ranks(s, k) == u);
            assert forall|r: int| 1 <= r <= k implies (#[trigger] u.contains(r as usize) <==> !s.contains(
                (r - 1) as usize)) by {
                if r == k {
                    assert(!u.contains(r as usize) || r < k);
                }
            }
        } else {
            assert(marked_ranks(s, k) == m);
            assert(unmarked_ranks(s, k) == u.push(k as usize));
            assert forall|r: int| 1 <= r <= k implies (#[trigger] m.contains(r as usize) <==> s.contains(
                (r - 1) as usize)) by {
                if r == k {
                    assert(!m.contains(r as usize) || r < k);
                }
            }
        }
    }
}

/// Builds the partition that an index sample stands for: the first group holds the ranks
/// `index + 1` of the sample, the second the other ranks of `1..=n1+n2`, both in increasing
/// order. Gives it where the sample is a valid one and its ranks sum to `r1_target`, and
/// nothing otherwise.
pub fn partition_from_sample(sample: &Vec<usize>, n1: usize, n2: usize, r1_target: i128) -> (r:
    Option<SimRank>)
    requires
        n1 + n2 <= RANK_LIMIT,
    ensures
        r is Some <==> sample_hits(sample@, n1 as int, n2 as int, r1_target as int),
        r is Some ==> {
            let p = r->0;
            &&& partition_ok(p, n1 as int, n2 as int, r1_target as int)
            &&& p.n1@ == marked_ranks(sample@, n1 + n2)
            &&& p.n2@ == unmarked_ranks(sample@, n1 + n2)
        },
{
    let total = n1 + n2;
    if sample.len() != n1 {
        return None;
    }
    let mut marks: Vec<bool> = vec![false; total];
    let mut i: usize = 0;
    while i < sample.len()
        invariant
            i <= sample@.len(),
            marks@.len() == total,
            total == n1 + n2,
            forall|t: int| 0 <= t < i ==> #[trigger] sample@[t] < total,
            forall|a: int, b: int| 0 <= a < b < i ==> sample@[a] != sample@[b],
            forall|k: int|
                0 <= k < total ==> (#[trigger] marks@[k] <==> exists|t: int|
                    0 <= t < i && sample@[t] == k as usize),
        decreases sample@.len() - i,
    {
        let v = sample[i];
        if v >= total {
            return None;
        }
        if marks[v] {
            proof {
                let t = choose|t: int| 0 <= t < i && sample@[t] == v;
                assert(sample@[t] == sample@[i as int]);
            }
            return None;
        }
        marks.set(v, true);
        proof {
            assert forall|k: int| 0 <= k < total implies (#[trigger] marks@[k] <==> exists|t: int|
                0 <= t < i + 1 && sample@[t] == k as usize) by {
                if k == v {
                    assert(sample@[i as int] == k as usize);
                } else if marks@[k] {
                    let t = choose|t: int| 0 <= t < i && sample@[t] == k as usize;
                    assert(0 <= t < i + 1 && sample@[t] == k as usize);
                }
            }
        }
        i = i + 1;
    }
    proof {
        assert forall|k: int| 0 <= k < total implies (#[trigger] marks@[k] <==> sample@.contains(k as usize)) by {
            if marks@[k] {
                let t = choose|t: int| 0 <= t < sample@.len() && sample@[t] == k as usize;
            }
            if sample@.contains(k as usize) {
                let t = choose|t: int| 0 <= t < sample@.len() && sample@[t] == k as usize;
                assert(marks@[k]);
            }
        }
    }
    let mut g1: Vec<usize> = Vec::new();
    let mut g2: Vec<usize> = Vec::new();
    let mut k: usize = 0;
    while k < total
        invariant
            k <= total,
            total == n1 + n2,
            total <= RANK_LIMIT,
            marks@.len() == total,
            forall|j: int| 0 <= j < total ==> (#[trigger] marks@[j] <==> sample@.contains(j as usize)),
            g1@ == marked_ranks(sample@, k as int),
            g2@ == unmarked_ranks(sample@, k as int),
        decreases total - k,
    {
        if marks[k] {
            g1.push(k + 1);
        } else {
            g2.push(k + 1);
        }
        k = k + 1;
    }
    proof {
        lemma_marked_facts(sample@, total as int);
    }
    if g1.len() != n1 {
        return None;
    }
    let s1 = sum_ranks(&g1);
    if s1 != r1_target {
        return None;
    }
    Some(SimRank { n1: g1, n2: g2 })
}

/// The rank sum that the first group must reach for a U statistic of `u_target`.
pub fn r1_target(n1: usize, u_target: Decimal) -> (r: i128)
    requires
        n1 <= RANK_LIMIT,
        u_target.wf(),
    ensures
        r == r1_target_spec(u_target, n1 as int),
{
    proof {
        lemma_pow10_mono(u_target.scale as nat, 18);
        lemma_pow10_limits();
        lemma_pow10_pos(u_target.scale as nat);
    }
    let p = pow10_exec(u_target.scale) as i128;
    let a = n1 as i128;
    proof {
        assert(0 <= a * (a + 1) <= 0xffff_ffff * 0x1_0000_0000) by (nonlinear_arith)
            requires
                0 <= a <= 0xffff_ffff,
        ;
    }
    let tri: i128 = a * (a + 1) / 2;
    proof {
        assert(0 <= tri * p <= 0x8000_0000_0000_0000 * 1_000_000_000_000_000_000) by (nonlinear_arith)
            requires
                0 <= tri <= 0x8000_0000_0000_0000,
                1 <= p <= 1_000_000_000_000_000_000,
        ;
    }
    let num: i128 = 2 * (u_target.mantissa as i128 + tri * p) + p;
    div_floor(num, 2 * p).0
}

/// The first groups of a list of partitions.
pub open spec fn firsts(v: Seq<SimRank>) -> Seq<Seq<usize>> {
    v.map_values(|p: SimRank| p.n1@)
}

/// What one draw adds to the first groups found so far: its first group, where fewer than
/// `length` have been found, the draw hits the target and its group is a new one.
pub open spec fn hit_step(
    prev: Seq<Seq<usize>>,
    s: Seq<usize>,
    n1: int,
    n2: int,
    r1_target: int,
    length: int,
) -> Seq<Seq<usize>> {
    let g = marked_ranks(s, n1 + n2);
    if prev.len() < length && sample_hits(s, n1, n2, r1_target) && !prev.contains(g) {
        prev.push(g)
    } else {
        prev
    }
}

/// The first groups that a run of draws yields, in draw order: each hitting draw whose
/// group was not seen before, until `length` are found.
pub open spec fn distinct_hits(
    samples: Seq<Seq<usize>>,
    n1: int,
    n2: int,
    r1_target: int,
    length: int,
) -> Seq<Seq<usize>>
    decreases samples.len(),
{
    if samples.len() == 0 {
        Seq::empty()
    } else {
        hit_step(
            distinct_hits(samples.drop_last(), n1, n2, r1_target, length),
            samples.last(),
            n1,
            n2,
            r1_target,
            length,
        )
    }
}

/// The partitions are valid for the target and their first groups differ.
pub open spec fn found_ok(v: Seq<SimRank>, n1: int, n2: int, r1_target: int) -> bool {
    &&& forall|i: int| 0 <= i < v.len() ==> partition_ok(#[trigger] v[i], n1, n2, r1_target)
    &&& forall|a: int, b: int| 0 <= a < b < v.len() ==> v[a].n1@ != v[b].n1@
}

/// Takes one draw into the partitions found so far.
fn absorb(
    found: &mut Vec<SimRank>,
    sample: &Vec<usize>,
    n1: usize,
    n2: usize,
    r1_target: i128,
    length: usize,
)
    requires
        n1 + n2 <= RANK_LIMIT,
        found_ok(old(found)@, n1 as int, n2 as int, r1_target as int),
    ensures
        firsts(final(found)@) == hit_step(
            firsts(old(found)@),
            sample@,
            n1 as int,
            n2 as int,
            r1_target as int,
            length as int,
        ),
        found_ok(final(found)@, n1 as int, n2 as int, r1_target as int),
{
    if found.len() >= length {
        return;
    }
    match partition_from_sample(sample, n1, n2, r1_target) {
        None => {},
        Some(p) => {
            let mut seen = false;
            let mut j: usize = 0;
            while j < found.len()
                invariant
                    j <= found@.len(),
                    seen ==> firsts(found@).contains(p.n1@),
                    !seen ==> forall|t: int| 0 <= t < j ==> found@[t].n1@ != p.n1@,
                decreases found@.len() - j,
            {
                if ranks_eq(&found[j].n1, &p.n1) {
                    assert(firsts(found@)[j as int] == p.n1@);
                    seen = true;
                }
                j = j + 1;
            }
            if !seen {
                proof {
                    if firsts(found@).contains(p.n1@) {
                        let w = choose|w: int| 0 <= w < firsts(found@).len() && firsts(found@)[w] == p.n1@;
                        assert(found@[w].n1@ == p.n1@);
                    }
                }
                let ghost before = found@;
                found.push(p);
                assert(firsts(found@) =~= firsts(before).push(p.n1@));
            }
        },
    }
}

/// The partitions that a given run of draws yields: each draw of `n1` indices out of
/// `0..n1+n2` that hits the rank sum for `u_target` and gives a first group not seen
/// before, in draw order, until `length` are found.
pub fn simrank_from_samples(
    samples: &Vec<Vec<usize>>,
    n1: usize,
    n2: usize,
    u_target: Decimal,
    length: usize,
) -> (r: Vec<SimRank>)
    requires
        n1 + n2 <= RANK_LIMIT,
        u_target.wf(),
    ensures
        firsts(r@) == distinct_hits(
            samples@.map_values(|s: Vec<usize>| s@),
            n1 as int,
            n2 as int,
            r1_target_spec(u_target, n1 as int),
            length as int,
        ),
        found_ok(r@, n1 as int, n2 as int, r1_target_spec(u_target, n1 as int)),
{
    let target = r1_target(n1, u_target);
    let ghost views = samples@.map_values(|s: Vec<usize>| s@);
    let mut found: Vec<SimRank> = Vec::new();
    let mut i: usize = 0;
    assert(views.subrange(0, 0) =~= Seq::<Seq<usize>>::empty());
    assert(firsts(found@) =~= Seq::<Seq<usize>>::empty());
    while i < samples.len()
        invariant
            n1 + n2 <= RANK_LIMIT,
            target == r1_target_spec(u_target, n1 as int),
            views == samples@.map_values(|s: Vec<usize>| s@),
            i <= samples@.len(),
            found_ok(found@, n1 as int, n2 as int, target as int),
            firsts(found@) == distinct_hits(views.subrange(0, i as int), n1 as int, n2 as int, target as int, length as int),
        decreases samples@.len() - i,
    {
        absorb(&mut found, &samples[i], n1, n2, target, length);
        proof {
            let sub = views.subrange(0, i as int + 1);
            assert(sub.drop_last() =~= views.subrange(0, i as int));
            assert(sub.last() == samples@[i as int]@);
        }
        i = i + 1;
    }
    assert(views.subrange(0, samples@.len() as int) =~= views);
    found
}

proof fn lemma_distinct_hits_len(samples: Seq<Seq<usize>>, n1: int, n2: int, r1_target: int, length: int)
    ensures
        distinct_hits(samples, n1, n2, r1_target, length).len() <= samples.len(),
        length >= 0 ==> distinct_hits(samples, n1, n2, r1_target, length).len() <= length,
    decreases samples.len(),
{
    if samples.len() > 0 {
        lemma_distinct_hits_len(samples.drop_last(), n1, n2, r1_target, length);
    }
}

proof fn lemma_increasing_floor(s: Seq<usize>, i: int)
    requires
        increasing(s),
        forall|j: int| 0 <= j < s.len() ==> 1 <= #[trigger] s[j],
        0 <= i < s.len(),
    ensures
        s[i] >= i + 1,
    decreases i,
{
    if i > 0 {
        lemma_increasing_floor(s, i - 1);
    }
}

proof fn lemma_increasing_ceiling(s: Seq<usize>, i: int, total: int)
    requires
        increasing(s),
        forall|j: int| 0 <= j < s.len() ==> #[trigger] s[j] <= total,
        0 <= i < s.len(),
    ensures
        s[i] <= total - (s.len() - 1 - i),
    decreases s.len() - i,
{
    if i < s.len() - 1 {
        lemma_increasing_ceiling(s, i + 1, total);
    }
}

proof fn lemma_sum_between(s: Seq<usize>, lo: int, hi: int)
    requires
        forall|i: int| 0 <= i < s.len() ==> lo + i <= #[trigger] s[i] <= hi + i,
    ensures
        2 * s.len() * lo + s.len() * (s.len() - 1) <= 2 * rank_sum(s),
        2 * rank_sum(s) <= 2 * s.len() * hi + s.len() * (s.len() - 1),
    decreases s.len(),
{
    if s.len() > 0 {
        let t = s.drop_last();
        assert forall|i: int| 0 <= i < t.len() implies lo + i <= #[trigger] t[i] <= hi + i by {
            assert(t[i] == s[i]);
        }
        lemma_sum_between(t, lo, hi);
        let k = t.len();
        assert(lo + k <= s.last() <= hi + k);
        assert(2 * (k + 1) * lo + (k + 1) * k == 2 * k * lo + k * (k - 1) + 2 * (lo + k)) by (nonlinear_arith);
        assert(2 * (k + 1) * hi + (k + 1) * k == 2 * k * hi + k * (k - 1) + 2 * (hi + k)) by (nonlinear_arith);
        assert(s.len() == k + 1);
        assert(rank_sum(s) == rank_sum(t) + s.last());
        let n = s.len() as int;
        assert(2 * n * lo + n * (n - 1) == 2 * (k + 1) * lo + (k + 1) * k) by (nonlinear_arith)
            requires
                n == k + 1,
        ;
        assert(2 * n * hi + n * (n - 1) == 2 * (k + 1) * hi + (k + 1) * k) by (nonlinear_arith)
            requires
                n == k + 1,
        ;
        let rt = rank_sum(t);
        let rs = rank_sum(s);
        let l = s.last() as int;
        assert(2 * n * lo + n * (n - 1) <= 2 * rs && 2 * rs <= 2 * n * hi + n * (n - 1)) by (nonlinear_arith)
            requires
                rs == rt + l,
                lo + k <= l <= hi + k,
                2 * k * lo + k * (k - 1) <= 2 * rt,
                2 * rt <= 2 * k * hi + k * (k - 1),
                2 * n * lo + n * (n - 1) == 2 * k * lo + k * (k - 1) + 2 * (lo + k),
                2 * n * hi + n * (n - 1) == 2 * k * hi + k * (k - 1) + 2 * (hi + k),
        ;
        assert(2 * s.len() * lo + s.len() * (s.len() - 1) == 2 * n * lo + n * (n - 1));
        assert(2 * s.len() * hi + s.len() * (s.len() - 1) == 2 * n * hi + n * (n - 1));
    } else {
        assert(2 * s.len() * lo + s.len() * (s.len() - 1) == 0) by (nonlinear_arith)
            requires
                s.len() == 0,
        ;
        assert(2 * s.len() * hi + s.len() * (s.len() - 1) == 0) by (nonlinear_arith)
            requires
                s.len() == 0,
        ;
    }
}

/// The ranks of a valid first group of `n1` out of `n1 + n2` sum to between
/// `n1 (n1 + 1) / 2` and `n1 (n1 + 1) / 2 + n1 n2`.
pub proof fn lemma_rank_sum_range(p: SimRank, n1: int, n2: int, r1_target: int)
    requires
        0 <= n1,
        0 <= n2,
        partition_ok(p, n1, n2, r1_target),
    ensures
        n1 * (n1 + 1) <= 2 * r1_target <= n1 * (n1 + 1) + 2 * n1 * n2,
{
    let g = p.n1@;
    let total = n1 + n2;
    assert forall|i: int| 0 <= i < g.len() implies 1 + i <= #[trigger] g[i] <= (total - n1 + 1) + i by {
        lemma_increasing_floor(g, i);
        lemma_increasing_ceiling(g, i, total);
    }
    lemma_sum_between(g, 1, total - n1 + 1);
    assert(2 * n1 * (total - n1 + 1) + n1 * (n1 - 1) == n1 * (n1 + 1) + 2 * n1 * n2) by (nonlinear_arith)
        requires
            total == n1 + n2,
    ;
    assert(2 * n1 * 1 + n1 * (n1 - 1) == n1 * (n1 + 1)) by (nonlinear_arith);
}

/// Draws up to `max_iter` random samples of `n1` ranks out of `1..=n1+n2` and keeps those
/// whose ranks sum to what the U statistic `u_target` asks for, until `length` distinct
/// partitions are found. Which partitions come back depends on chance: they are what
/// `simrank_from_samples` gives for the draws that were made.
pub fn simrank(n1: usize, n2: usize, u_target: Decimal, length: usize, max_iter: usize) -> (r: Vec<
    SimRank,
>)
    requires
        n1 + n2 <= RANK_LIMIT,
        u_target.wf(),
    ensures
        r@.len() <= length,
        r@.len() <= max_iter,
        found_ok(r@, n1 as int, n2 as int, r1_target_spec(u_target, n1 as int)),
        !(n1 * (n1 + 1) <= 2 * r1_target_spec(u_target, n1 as int) <= n1 * (n1 + 1) + 2 * n1 * n2)
            ==> r@.len() == 0,
        exists|drawn: Seq<Seq<usize>>|
            {
                &&& drawn.len() <= max_iter
                &&& forall|i: int|
                    0 <= i < drawn.len() ==> sample_ok(#[trigger] drawn[i], n1 as int, (n1 + n2) as int)
                &&& (drawn.len() == max_iter || r@.len() == length)
                &&& firsts(r@) == #[trigger] distinct_hits(
                    drawn,
                    n1 as int,
                    n2 as int,
                    r1_target_spec(u_target, n1 as int),
                    length as int,
                )
            },
{
    let target = r1_target(n1, u_target);
    let mut found: Vec<SimRank> = Vec::new();
    let ghost mut drawn: Seq<Seq<usize>> = Seq::empty();
    assert(firsts(found@) =~= Seq::<Seq<usize>>::empty());
    let mut iter: usize = 0;
    while iter < max_iter && found.len() < length
        invariant
            n1 + n2 <= RANK_LIMIT,
            target == r1_target_spec(u_target, n1 as int),
            iter <= max_iter,
            drawn.len() == iter,
            forall|i: int| 0 <= i < drawn.len() ==> sample_ok(#[trigger] drawn[i], n1 as int, (n1 + n2) as int),
            found_ok(found@, n1 as int, n2 as int, target as int),
            firsts(found@) == distinct_hits(drawn, n1 as int, n2 as int, target as int, length as int),
        decreases max_iter - iter,
    {
        let sample = sample_indices(n1 + n2, n1);
        absorb(&mut found, &sample, n1, n2, target, length);
        proof {
            let next = drawn.push(sample@);
            assert(next.drop_last() =~= drawn);
            assert(sample_ok(sample@, n1 as int, (n1 + n2) as int));
            assert forall|i: int| 0 <= i < next.len() implies sample_ok(#[trigger] next[i], n1 as int, (n1 + n2) as int) by {
                if i < drawn.len() {
                    assert(next[i] == drawn[i]);
                }
            }
            drawn = next;
        }
        iter = iter + 1;
    }
    proof {
        lemma_distinct_hits_len(drawn, n1 as int, n2 as int, target as int, length as int);
        assert(firsts(found@).len() == found@.len());
        if found@.len() > 0 {
            lemma_rank_sum_range(found@[0], n1 as int, n2 as int, target as int);
        }
    }
    found
}

/// One partition for the U statistic `u_target`, where one is found within `max_iter`
/// draws.
pub fn simrank_single(n1: usize, n2: usize, u_target: Decimal, max_iter: usize) -> (r: Option<
    SimRank,
>)
    requires
        n1 + n2 <= RANK_LIMIT,
        u_target.wf(),
    ensures
        r is Some ==> partition_ok(r->0, n1 as int, n2 as int, r1_target_spec(u_target, n1 as int)),
        exists|drawn: Seq<Seq<usize>>|
            drawn.len() <= max_iter && (forall|i: int|
                0 <= i < drawn.len() ==> sample_ok(#[trigger] drawn[i], n1 as int, (n1 + n2) as int))
                && (drawn.len() == max_iter || r is Some) && {
                let hits = #[trigger] distinct_hits(
                    drawn,
                    n1 as int,
                    n2 as int,
                    r1_target_spec(u_target, n1 as int),
                    1,
                );
                &&& (r is Some <==> hits.len() > 0)
                &&& (r is Some ==> r->0.n1@ == hits[0])
            },
{
    let mut s = simrank(n1, n2, u_target, 1, max_iter);
    let ghost rs = s@;
    if s.len() == 0 {
        None
    } else {
        let p = s.remove(0);
        assert(firsts(rs)[0] == p.n1@);
        Some(p)
    }
}

} // verus!
