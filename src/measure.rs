use vstd::prelude::*;

use crate::program::Address;

verus! {

/// How often one basis state was observed.
#[derive(Clone, Copy, Debug, PartialEq, Eq, Structural)]
pub struct Measurement {
    pub state: u64,
    pub count: usize,
}

/// The results of one run: how long it took, the register size, the number of samples,
/// and the observed states ranked by count (most frequent first, ties by state).
pub struct Measurements {
    pub duration: core::time::Duration,
    pub size: Address,
    pub samples: usize,
    pub measures: Vec<Measurement>,
}

/// How many times `x` occurs in `s`.
pub open spec fn occurrences(s: Seq<u64>, x: u64) -> nat
    decreases s.len(),
{
    if s.len() == 0 {
        0
    } else {
        occurrences(s.drop_last(), x) + if s.last() == x {
            1nat
        } else {
            0nat
        }
    }
}

/// `a` comes before `b` in the ranking: a higher count, or the same count and a lower state.
pub open spec fn ranks_before(a: Measurement, b: Measurement) -> bool {
    a.count > b.count || (a.count == b.count && a.state < b.state)
}

/// Every entry comes before every later one.
pub open spec fn is_ranked(v: Seq<Measurement>) -> bool {
    forall|i: int, j: int| 0 <= i < j < v.len() ==> ranks_before(#[trigger] v[i], #[trigger] v[j])
}

/// No state has two entries.
pub open spec fn distinct_states(v: Seq<Measurement>) -> bool {
    forall|i: int, j: int| 0 <= i < j < v.len() ==> (#[trigger] v[i]).state != (#[trigger] v[j]).state
}

/// `v` holds one entry for each state observed in `s`, with its number of occurrences.
pub open spec fn tallies(v: Seq<Measurement>, s: Seq<u64>) -> bool {
    &&& distinct_states(v)
    &&& forall|j: int|
        0 <= j < v.len() ==> (#[trigger] v[j]).count == occurrences(s, v[j].state) && v[j].count > 0
    &&& forall|x: u64|
        #[trigger] occurrences(s, x) > 0 ==> exists|j: int| 0 <= j < v.len() && (#[trigger] v[j]).state == x
}

proof fn lemma_occurrences_bound(s: Seq<u64>, x: u64)
    ensures
        occurrences(s, x) <= s.len(),
    decreases s.len(),
{
    if s.len() > 0 {
        lemma_occurrences_bound(s.drop_last(), x);
    }
}

/// One entry per distinct state of `states`, in order of first appearance.
fn count_states(states: &[u64]) -> (r: Vec<Measurement>)
    ensures
        tallies(r@, states@),
{
    let mut counts: Vec<Measurement> = Vec::new();
    let mut k: usize = 0;
    assert(states@.subrange(0, 0) =~= Seq::<u64>::empty());
    while k < states.len()
        invariant
            k <= states@.len(),
            tallies(counts@, states@.subrange(0, k as int)),
        decreases states@.len() - k,
    {
        let x = states[k];
        let ghost prefix = states@.subrange(0, k as int);
        let ghost next = states@.subrange(0, k as int + 1);
        assert(next.drop_last() =~= prefix);
        assert(next.last() == x);
        let mut j: usize = 0;
        while j < counts.len() && counts[j].state != x
            invariant
                j <= counts@.len(),
                forall|q: int| 0 <= q < j ==> (#[trigger] counts@[q]).state != x,
            decreases counts@.len() - j,
        {
            j = j + 1;
        }
        let ghost old_counts = counts@;
        if j < counts.len() {
            let c = counts[j].count;
            proof {
                lemma_occurrences_bound(prefix, x);
            }
            counts.set(j, Measurement { state: x, count: c + 1 });
            proof {
                assert forall|q: int| 0 <= q < counts@.len() implies (#[trigger] counts@[q]).count
                    == occurrences(next, counts@[q].state) && counts@[q].count > 0 by {
                    if q != j {
                        assert(counts@[q] == old_counts[q]);
                        assert(old_counts[q].state != x);
                    }
                }
                assert forall|y: u64| #[trigger] occurrences(next, y) > 0 implies exists|q: int|
                    0 <= q < counts@.len() && (#[trigger] counts@[q]).state == y by {
                    if y == x {
                        assert(counts@[j as int].state == y);
                    } else {
                        assert(occurrences(prefix, y) > 0);
                        let q = choose|q: int| 0 <= q < old_counts.len() && (#[trigger] old_counts[q]).state == y;
                        assert(counts@[q].state == y);
                    }
                }
                assert forall|p: int, q: int| 0 <= p < q < counts@.len() implies (#[trigger] counts@[p]).state
                    != (#[trigger] counts@[q]).state by {
                    assert(old_counts[p].state != old_counts[q].state);
                }
            }
        } else {
            proof {
                if occurrences(prefix, x) > 0 {
                    let q = choose|q: int| 0 <= q < old_counts.len() && (#[trigger] old_counts[q]).state == x;
                    assert(false);
                }
            }
            counts.push(Measurement { state: x, count: 1 });
            proof {
                assert forall|q: int| 0 <= q < counts@.len() implies (#[trigger] counts@[q]).count
                    == occurrences(next, counts@[q].state) && counts@[q].count > 0 by {
                    if q < old_counts.len() {
                        assert(counts@[q] == old_counts[q]);
                    }
                }
                assert forall|y: u64| #[trigger] occurrences(next, y) > 0 implies exists|q: int|
                    0 <= q < counts@.len() && (#[trigger] counts@[q]).state == y by {
                    if y == x {
                        assert(counts@[old_counts.len() as int].state == y);
                    } else {
                        assert(occurrences(prefix, y) > 0);
                        let q = choose|q: int| 0 <= q < old_counts.len() && (#[trigger] old_counts[q]).state == y;
                        assert(counts@[q].state == y);
                    }
                }
                assert forall|p: int, q: int| 0 <= p < q < counts@.len() implies (#[trigger] counts@[p]).state
                    != (#[trigger] counts@[q]).state by {
                    if q < old_counts.len() {
                        assert(old_counts[p].state != old_counts[q].state);
                    } else {
                        assert(counts@[p] == old_counts[p]);
                    }
                }
            }
        }
        k = k + 1;
    }
    assert(states@.subrange(0, k as int) =~= states@);
    counts
}

proof fn lemma_ranks_before_transitive(a: Measurement, b: Measurement, c: Measurement)
    requires
        ranks_before(a, b),
        ranks_before(b, c),
    ensures
        ranks_before(a, c),
{
}

/// The entries of `v` in ranked order.
fn rank(v: Vec<Measurement>) -> (r: Vec<Measurement>)
    requires
        distinct_states(v@),
    ensures
        is_ranked(r@),
        distinct_states(r@),
        r@.len() == v@.len(),
        forall|m: Measurement| r@.contains(m) <==> v@.contains(m),
{
    let mut out: Vec<Measurement> = Vec::new();
    let mut k: usize = 0;
    while k < v.len()
        invariant
            k <= v@.len(),
            distinct_states(v@),
            is_ranked(out@),
            out@.len() == k,
            forall|m: Measurement| out@.contains(m) <==> v@.subrange(0, k as int).contains(m),
        decreases v@.len() - k,
    {
        let e = v[k];
        let mut p: usize = 0;
        while p < out.len() && (out[p].count > e.count || (out[p].count == e.count && out[p].state < e.state))
            invariant
                p <= out@.len(),
                k < v@.len(),
                e == v@[k as int],
                distinct_states(v@),
                is_ranked(out@),
                out@.len() == k,
                forall|m: Measurement| out@.contains(m) <==> v@.subrange(0, k as int).contains(m),
                forall|q: int| 0 <= q < p ==> ranks_before(#[trigger] out@[q], e),
            decreases out@.len() - p,
        {
            p = p + 1;
        }
        let ghost before = out@;
        proof {
            // `e` differs in state from every entry so far, so it ranks before the rest.
            assert forall|q: int| p <= q < before.len() implies ranks_before(e, #[trigger] before[q]) by {
                assert(before.contains(before[q]));
                assert(v@.subrange(0, k as int).contains(before[q]));
                let i = choose|i: int| 0 <= i < k && v@.subrange(0, k as int)[i] == before[q];
                assert(v@[i] == before[q]);
                assert(v@[i].state != v@[k as int].state);
                if q > p {
                    assert(ranks_before(before[p as int], before[q]));
                }
            }
        }
        out.insert(p, e);
        proof {
            assert(out@ == before.insert(p as int, e));
            assert forall|i: int, j: int| 0 <= i < j < out@.len() implies ranks_before(
                #[trigger] out@[i],
                #[trigger] out@[j],
            ) by {
                if j < p {
                    assert(out@[i] == before[i] && out@[j] == before[j]);
                } else if j == p {
                    assert(out@[i] == before[i]);
                } else if i < p {
                    assert(out@[i] == before[i] && out@[j] == before[j - 1]);
                    lemma_ranks_before_transitive(before[i], e, before[j - 1]);
                } else if i == p {
                    assert(out@[j] == before[j - 1]);
                } else {
                    assert(out@[i] == before[i - 1] && out@[j] == before[j - 1]);
                }
            }
            assert(v@.subrange(0, k + 1) =~= v@.subrange(0, k as int).push(e));
            let ghost upto = v@.subrange(0, k as int);
            let ghost upto_next = v@.subrange(0, k + 1);
            assert forall|m: Measurement| out@.contains(m) implies upto_next.contains(m) by {
                let i = choose|i: int| 0 <= i < out@.len() && out@[i] == m;
                if i == p {
                    assert(upto_next[k as int] == m);
                } else {
                    let bi = if i < p { i } else { i - 1 };
                    assert(before[bi] == m);
                    assert(before.contains(m));
                    assert(upto.contains(m));
                    let u = choose|u: int| 0 <= u < upto.len() && upto[u] == m;
                    assert(upto_next[u] == m);
                }
            }
            assert forall|m: Measurement| upto_next.contains(m) implies out@.contains(m) by {
                let u = choose|u: int| 0 <= u < upto_next.len() && upto_next[u] == m;
                if u == k {
                    assert(out@[p as int] == m);
                } else {
                    assert(upto[u] == m);
                    assert(upto.contains(m));
                    assert(before.contains(m));
                    let i = choose|i: int| 0 <= i < before.len() && before[i] == m;
                    if i < p {
                        assert(out@[i] == m);
                    } else {
                        assert(out@[i + 1] == m);
                    }
                }
            }
        }
        k = k + 1;
    }
    assert(v@.subrange(0, k as int) =~= v@);
    proof {
        assert forall|i: int, j: int| 0 <= i < j < out@.len() implies (#[trigger] out@[i]).state
            != (#[trigger] out@[j]).state by {
            assert(ranks_before(out@[i], out@[j]));
            assert(out@.contains(out@[i]));
            assert(out@.contains(out@[j]));
            let a = choose|a: int| 0 <= a < v@.len() && v@[a] == out@[i];
            let b = choose|b: int| 0 <= b < v@.len() && v@[b] == out@[j];
            if out@[i].state == out@[j].state {
                if a < b {
                    assert(v@[a].state != v@[b].state);
                } else if b < a {
                    assert(v@[b].state != v@[a].state);
                }
            }
        }
    }
    out
}

proof fn lemma_ranked_same_members_equal(a: Seq<Measurement>, b: Seq<Measurement>)
    requires
        is_ranked(a),
        is_ranked(b),
        forall|m: Measurement| a.contains(m) <==> b.contains(m),
    ensures
        a == b,
    decreases a.len(),
{
    if a.len() == 0 {
        if b.len() > 0 {
            assert(b.contains(b[0]));
        }
        assert(a =~= b);
    } else {
        assert(a.contains(a[0]));
        let j = choose|j: int| 0 <= j < b.len() && b[j] == a[0];
        assert(b.contains(b[0]));
        let i = choose|i: int| 0 <= i < a.len() && a[i] == b[0];
        if j > 0 {
            assert(ranks_before(b[0], b[j]));
            if i > 0 {
                assert(ranks_before(a[0], a[i]));
            }
        }
        assert(a[0] == b[0]);
        let ra = a.drop_first();
        let rb = b.drop_first();
        assert forall|m: Measurement| ra.contains(m) implies rb.contains(m) by {
            let p = choose|p: int| 0 <= p < ra.len() && ra[p] == m;
            assert(ranks_before(a[0], a[p + 1]));
            assert(a.contains(m));
            let q = choose|q: int| 0 <= q < b.len() && b[q] == m;
            assert(q != 0);
            assert(rb[q - 1] == m);
        }
        assert forall|m: Measurement| rb.contains(m) implies ra.contains(m) by {
            let p = choose|p: int| 0 <= p < rb.len() && rb[p] == m;
            assert(ranks_before(b[0], b[p + 1]));
            assert(b.contains(m));
            let q = choose|q: int| 0 <= q < a.len() && a[q] == m;
            assert(q != 0);
            assert(ra[q - 1] == m);
        }
        assert forall|x: int, y: int| 0 <= x < y < ra.len() implies ranks_before(#[trigger] ra[x], #[trigger] ra[y]) by {
            assert(ranks_before(a[x + 1], a[y + 1]));
        }
        assert forall|x: int, y: int| 0 <= x < y < rb.len() implies ranks_before(#[trigger] rb[x], #[trigger] rb[y]) by {
            assert(ranks_before(b[x + 1], b[y + 1]));
        }
        lemma_ranked_same_members_equal(ra, rb);
        assert forall|k: int| 0 <= k < a.len() implies a[k] == b[k] by {
            if k > 0 {
                assert(a[k] == ra[k - 1]);
                assert(b[k] == rb[k - 1]);
            }
        }
        assert(a =~= b);
    }
}

/// The ranked tally of a sequence of drawn states is unique: two results that tally the
/// same draws hold exactly the same measures in the same order. Runs of one program with
/// one seed draw the same states (the batch states of `sampling_schedule` depend on the
/// seed and the sample count alone), so they yield identical counts.
pub proof fn lemma_ranked_tally_unique(v1: Seq<Measurement>, v2: Seq<Measurement>, s: Seq<u64>)
    requires
        tallies(v1, s),
        is_ranked(v1),
        tallies(v2, s),
        is_ranked(v2),
    ensures
        v1 == v2,
{
    assert forall|m: Measurement| v1.contains(m) implies v2.contains(m) by {
        let i = choose|i: int| 0 <= i < v1.len() && v1[i] == m;
        assert(v1[i].count == occurrences(s, m.state));
        assert(occurrences(s, m.state) > 0);
        let j = choose|j: int| 0 <= j < v2.len() && (#[trigger] v2[j]).state == m.state;
        assert(v2[j] == m);
    }
    assert forall|m: Measurement| v2.contains(m) implies v1.contains(m) by {
        let i = choose|i: int| 0 <= i < v2.len() && v2[i] == m;
        assert(v2[i].count == occurrences(s, m.state));
        assert(occurrences(s, m.state) > 0);
        let j = choose|j: int| 0 <= j < v1.len() && (#[trigger] v1[j]).state == m.state;
        assert(v1[j] == m);
    }
    lemma_ranked_same_members_equal(v1, v2);
}

impl Measurements {
    /// The entries are ranked and hold each state once.
    pub open spec fn wf(&self) -> bool {
        &&& is_ranked(self.measures@)
        &&& distinct_states(self.measures@)
    }

    /// The results of drawing the basis states `states`, ranked.
    pub fn new(duration: core::time::Duration, size: Address, samples: usize, states: &[u64]) -> (r:
        Measurements)
        ensures
            r.duration == duration,
            r.size == size,
            r.samples == samples,
            tallies(r.measures@, states@),
            is_ranked(r.measures@),
            r.wf(),
    {
        let counts = count_states(states);
        let measures = rank(counts);
        proof {
            assert forall|j: int| 0 <= j < measures@.len() implies (#[trigger] measures@[j]).count
                == occurrences(states@, measures@[j].state) && measures@[j].count > 0 by {
                assert(measures@.contains(measures@[j]));
            }
            assert forall|x: u64| #[trigger] occurrences(states@, x) > 0 implies exists|j: int|
                0 <= j < measures@.len() && (#[trigger] measures@[j]).state == x by {
                let q = choose|q: int| 0 <= q < counts@.len() && (#[trigger] counts@[q]).state == x;
                assert(counts@.contains(counts@[q]));
                assert(measures@.contains(counts@[q]));
            }
        }
        Measurements { duration, size, samples, measures }
    }

    /// The total duration of the run.
    pub fn duration(&self) -> (r: core::time::Duration)
        ensures
            r == self.duration,
    {
        self.duration
    }

    /// The `n` most frequent states, most frequent first; all of them if fewer were seen.
    pub fn n_most(&self, n: usize) -> (r: Vec<u64>)
        requires
            self.wf(),
        ensures
            r@.len() == if n < self.measures@.len() {
                n as int
            } else {
                self.measures@.len() as int
            },
            forall|j: int| 0 <= j < r@.len() ==> #[trigger] r@[j] == self.measures@[j].state,
    {
        let mut r: Vec<u64> = Vec::new();
        let mut k: usize = 0;
        while k < n && k < self.measures.len()
            invariant
                k <= n,
                k <= self.measures@.len(),
                r@.len() == k,
                forall|j: int| 0 <= j < k ==> #[trigger] r@[j] == self.measures@[j].state,
            decreases self.measures@.len() - k,
        {
            r.push(self.measures[k].state);
            k = k + 1;
        }
        r
    }
}

} // verus!
