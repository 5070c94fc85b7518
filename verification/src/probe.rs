use vstd::prelude::*;

verus! {

/// Milliseconds a probe waits for a connection before giving its candidate
/// up, when the caller names no other bound.
pub const DEFAULT_TIMEOUT_MS: u64 = 3000;

/// One successful probe: a candidate address paired with the measured
/// connection-establishment time in milliseconds.
pub struct Outcome {
    pub ip: String,
    pub latency_ms: u64,
}

/// The ranked output is ordered by ascending measured latency.
pub open spec fn sorted_by_latency(s: Seq<Outcome>) -> bool {
    forall|i: int| 0 <= i < s.len() - 1 ==> #[trigger] s[i].latency_ms <= s[i + 1].latency_ms
}

impl Clone for Outcome {
    fn clone(&self) -> (res: Self)
        ensures
            res == *self,
    {
        Outcome { ip: self.ip.clone(), latency_ms: self.latency_ms }
    }
}

/// The ranking step of the probing engine: order the collected outcomes by
/// ascending measured latency. The result holds exactly the outcomes that
/// were handed in (as a multiset: nothing added, nothing dropped), so the
/// output set is always a subset of the input set.
pub fn rank_outcomes(input: &Vec<Outcome>) -> (r: Vec<Outcome>)
    ensures
        r@.to_multiset() == input@.to_multiset(),
        sorted_by_latency(r@),
        r@.len() == input@.len(),
{
    let mut r: Vec<Outcome> = Vec::new();
    let mut i: usize = 0;
    proof {
        assert(input@.take(0) =~= Seq::<Outcome>::empty());
        Seq::<Outcome>::empty().to_multiset_ensures();
    }
    while i < input.len()
        invariant
            i <= input.len(),
            r@.len() == i,
            r@.to_multiset() == input@.take(i as int).to_multiset(),
            sorted_by_latency(r@),
        decreases input.len() - i,
    {
        let x = input[i].clone();
        let mut j: usize = 0;
        while j < r.len() && r[j].latency_ms <= x.latency_ms
            invariant
                j <= r.len(),
                forall|t: int| 0 <= t < j ==> #[trigger] r@[t].latency_ms <= x.latency_ms,
            decreases r.len() - j,
        {
            j += 1;
        }
        let ghost old_r = r@;
        r.insert(j, x);
        proof {
            broadcast use vstd::seq_lib::to_multiset_insert;
            old_r.to_multiset_ensures();
            input@.take(i as int).to_multiset_ensures();
            assert(input@.take(i + 1 as int) =~= input@.take(i as int).push(input@[i as int]));
            assert(r@.to_multiset() == input@.take(i + 1 as int).to_multiset());
            assert forall|t: int| 0 <= t < r@.len() - 1 implies #[trigger] r@[t].latency_ms
                <= r@[t + 1].latency_ms by {
                assert(sorted_by_latency(old_r));
            }
        }
        i += 1;
    }
    proof {
        assert(input@.take(input@.len() as int) =~= input@);
    }
    r
}

/// Spec-level view of a sequence of outcomes: address text paired with latency.
pub open spec fn outcomes_view(s: Seq<Outcome>) -> Seq<(Seq<char>, u64)> {
    s.map_values(|o: Outcome| (o.ip@, o.latency_ms))
}

/// The pairs that survive aggregation: for each candidate in order, its
/// (address, latency) pair when its probe succeeded, nothing when it failed.
pub open spec fn collected(ips: Seq<Seq<char>>, measured: Seq<Option<u64>>) -> Seq<(Seq<char>, u64)>
    decreases ips.len(),
{
    if ips.len() == 0 || measured.len() == 0 {
        Seq::<(Seq<char>, u64)>::empty()
    } else {
        collected(ips.drop_last(), measured.drop_last()) + match measured.last() {
            Some(l) => seq![(ips.last(), l)],
            None => Seq::<(Seq<char>, u64)>::empty(),
        }
    }
}

/// Aggregation step of the probing engine: pair every candidate whose probe
/// succeeded with its measured latency; a failed probe (no measurement) is
/// absorbed silently and leaves no trace in the result.
pub fn collect_outcomes(ips: &Vec<String>, measured: &Vec<Option<u64>>) -> (r: Vec<Outcome>)
    requires
        ips@.len() == measured@.len(),
    ensures
        outcomes_view(r@) == collected(ips.deep_view(), measured@),
{
    let mut r: Vec<Outcome> = Vec::new();
    let mut i: usize = 0;
    proof {
        assert(ips.deep_view().take(0) =~= Seq::<Seq<char>>::empty());
        assert(outcomes_view(r@) =~= collected(ips.deep_view().take(0), measured@.take(0)));
    }
    while i < ips.len()
        invariant
            i <= ips@.len(),
            ips@.len() == measured@.len(),
            ips.deep_view().len() == ips@.len(),
            outcomes_view(r@) == collected(ips.deep_view().take(i as int), measured@.take(i as int)),
        decreases ips@.len() - i,
    {
        let ghost old_r = r@;
        if let Some(l) = measured[i] {
            let o = Outcome { ip: ips[i].clone(), latency_ms: l };
            r.push(o);
            proof {
                assert(outcomes_view(r@) =~= outcomes_view(old_r).push((ips.deep_view()[i as int], l)));
            }
        }
        proof {
            let p = ips.deep_view().take(i + 1 as int);
            let q = measured@.take(i + 1 as int);
            assert(p.drop_last() =~= ips.deep_view().take(i as int));
            assert(q.drop_last() =~= measured@.take(i as int));
            assert(p.last() == ips.deep_view()[i as int]);
            assert(q.last() == measured@[i as int]);
            if measured@[i as int] is Some {
                assert(collected(p, q) =~= collected(p.drop_last(), q.drop_last()).push(
                    (ips.deep_view()[i as int], measured@[i as int]->0),
                ));
            } else {
                assert(collected(p, q) =~= collected(p.drop_last(), q.drop_last()));
            }
            assert(outcomes_view(r@) =~= collected(p, q));
        }
        i += 1;
    }
    proof {
        assert(ips.deep_view().take(ips@.len() as int) =~= ips.deep_view());
        assert(measured@.take(measured@.len() as int) =~= measured@);
    }
    r
}

/// Keep only the `limit` lowest-latency outcomes of an already ranked
/// sequence (all of them when fewer survived). Truncation policy of the
/// caller, offered here so its effect is pinned down exactly.
pub fn take_top(ranked: Vec<Outcome>, limit: usize) -> (r: Vec<Outcome>)
    ensures
        limit <= ranked@.len() ==> r@ == ranked@.take(limit as int),
        limit > ranked@.len() ==> r@ == ranked@,
{
    let mut ranked = ranked;
    if limit <= ranked.len() {
        ranked.truncate(limit);
    }
    ranked
}

/// A multiset-preserving reordering maps to a multiset-preserving reordering
/// of the element images.
proof fn lemma_map_values_to_multiset<A, B>(a: Seq<A>, b: Seq<A>, f: spec_fn(A) -> B)
    requires
        a.to_multiset() == b.to_multiset(),
    ensures
        a.map_values(f).to_multiset() == b.map_values(f).to_multiset(),
    decreases a.len(),
{
    broadcast use vstd::seq_lib::group_to_multiset_ensures;

    a.to_multiset_ensures();
    b.to_multiset_ensures();
    if a.len() == 0 {
        assert(b.to_multiset().len() == 0);
        assert(a.map_values(f) =~= Seq::<B>::empty());
        assert(b =~= Seq::<A>::empty());
        assert(b.map_values(f) =~= Seq::<B>::empty());
    } else {
        let x = a.last();
        assert(a.contains(x));
        assert(b.to_multiset().count(x) > 0);
        assert(b.contains(x));
        let i = choose|i: int| 0 <= i < b.len() && b[i] == x;
        assert(a =~= a.drop_last().push(x));
        assert(a.drop_last().to_multiset() =~= a.to_multiset().remove(x));
        assert(b.remove(i).to_multiset() =~= b.to_multiset().remove(x));
        lemma_map_values_to_multiset(a.drop_last(), b.remove(i), f);
        assert(a.map_values(f) =~= a.drop_last().map_values(f).push(f(x)));
        assert(b.remove(i).map_values(f) =~= b.map_values(f).remove(i));
        b.map_values(f).to_multiset_ensures();
        assert(b.map_values(f).remove(i).to_multiset() =~= b.map_values(f).to_multiset().remove(
            f(x),
        ));
        assert(a.map_values(f).to_multiset() =~= a.drop_last().map_values(f).to_multiset().insert(
            f(x),
        ));
        assert(b.map_values(f).to_multiset() =~= b.map_values(f).remove(i).to_multiset().insert(
            f(x),
        )) by {
            assert(b.map_values(f).to_multiset().count(f(x)) > 0) by {
                assert(0 <= i < b.map_values(f).len() && b.map_values(f)[i] == f(x));
                assert(b.map_values(f).contains(f(x)));
            }
            assert(b.map_values(f).remove(i).to_multiset().insert(f(x)) =~= b.map_values(
                f,
            ).to_multiset().remove(f(x)).insert(f(x)));
        }
    }
}

/// The whole deterministic part of the probing engine in one step: absorb the
/// failed probes, then rank the survivors by ascending latency. The ranked
/// outcomes are exactly the collected pairs, reordered.
pub fn select_fastest(ips: &Vec<String>, measured: &Vec<Option<u64>>) -> (r: Vec<Outcome>)
    requires
        ips@.len() == measured@.len(),
    ensures
        sorted_by_latency(r@),
        outcomes_view(r@).to_multiset() == collected(ips.deep_view(), measured@).to_multiset(),
        r@.len() == collected(ips.deep_view(), measured@).len(),
        ips@.len() == 0 ==> r@.len() == 0,
        (forall|i: int| 0 <= i < measured@.len() ==> #[trigger] measured@[i] is None) ==> r@.len()
            == 0,
{
    let gathered = collect_outcomes(ips, measured);
    let r = rank_outcomes(&gathered);
    proof {
        lemma_map_values_to_multiset(r@, gathered@, |o: Outcome| (o.ip@, o.latency_ms));
        outcomes_view(gathered@).to_multiset_ensures();
        outcomes_view(r@).to_multiset_ensures();
        if forall|i: int| 0 <= i < measured@.len() ==> #[trigger] measured@[i] is None {
            lemma_all_failed_collects_nothing(ips.deep_view(), measured@);
        }
    }
    r
}

/// Every collected pair originates at some candidate index: its address text
/// is that candidate and its latency is that candidate's own measurement.
pub proof fn lemma_collected_from_candidate(
    ips: Seq<Seq<char>>,
    measured: Seq<Option<u64>>,
    k: int,
)
    requires
        ips.len() == measured.len(),
        0 <= k < collected(ips, measured).len(),
    ensures
        exists|i: int|
            0 <= i < ips.len() && ips[i] == collected(ips, measured)[k].0 && measured[i] == Some(
                collected(ips, measured)[k].1,
            ),
    decreases ips.len(),
{
    let c = collected(ips, measured);
    let cp = collected(ips.drop_last(), measured.drop_last());
    match measured.last() {
        Some(l) => {
            if k < cp.len() {
                lemma_collected_from_candidate(ips.drop_last(), measured.drop_last(), k);
                let i = choose|i: int|
                    0 <= i < ips.drop_last().len() && ips.drop_last()[i] == cp[k].0
                        && measured.drop_last()[i] == Some(cp[k].1);
                assert(ips[i] == c[k].0 && measured[i] == Some(c[k].1));
            } else {
                let i = ips.len() - 1;
                assert(c[k] == (ips.last(), l));
                assert(ips[i] == c[k].0 && measured[i] == Some(c[k].1));
            }
        },
        None => {
            assert(c =~= cp);
            lemma_collected_from_candidate(ips.drop_last(), measured.drop_last(), k);
            let i = choose|i: int|
                0 <= i < ips.drop_last().len() && ips.drop_last()[i] == cp[k].0
                    && measured.drop_last()[i] == Some(cp[k].1);
            assert(ips[i] == c[k].0 && measured[i] == Some(c[k].1));
        },
    }
}

/// No fabricated address: every outcome of a ranking of the collected pairs
/// carries the address text of one of the candidates that were handed in.
pub proof fn lemma_output_addresses_from_input(
    ips: Seq<Seq<char>>,
    measured: Seq<Option<u64>>,
    r: Seq<Outcome>,
)
    requires
        ips.len() == measured.len(),
        outcomes_view(r).to_multiset() == collected(ips, measured).to_multiset(),
    ensures
        forall|k: int| 0 <= k < r.len() ==> ips.contains(#[trigger] r[k].ip@),
{
    broadcast use vstd::seq_lib::group_to_multiset_ensures;

    let c = collected(ips, measured);
    assert forall|k: int| 0 <= k < r.len() implies ips.contains(#[trigger] r[k].ip@) by {
        let pair = (r[k].ip@, r[k].latency_ms);
        assert(outcomes_view(r)[k] == pair);
        assert(outcomes_view(r).contains(pair));
        outcomes_view(r).to_multiset_ensures();
        c.to_multiset_ensures();
        assert(outcomes_view(r).to_multiset().count(pair) > 0);
        assert(c.to_multiset().count(pair) > 0);
        assert(c.contains(pair));
        let j = choose|j: int| 0 <= j < c.len() && c[j] == pair;
        lemma_collected_from_candidate(ips, measured, j);
        let i = choose|i: int|
            0 <= i < ips.len() && ips[i] == c[j].0 && measured[i] == Some(c[j].1);
        assert(ips[i] == r[k].ip@);
    }
}

/// Every latency in a ranking of the collected pairs is one of the
/// measurements, so a bound that holds of every successful measurement holds
/// of every reported outcome.
pub proof fn lemma_latencies_within_bound(
    ips: Seq<Seq<char>>,
    measured: Seq<Option<u64>>,
    r: Seq<Outcome>,
    bound: u64,
)
    requires
        ips.len() == measured.len(),
        outcomes_view(r).to_multiset() == collected(ips, measured).to_multiset(),
        forall|i: int|
            0 <= i < measured.len() ==> (#[trigger] measured[i] matches Some(l) ==> l <= bound),
    ensures
        forall|k: int| 0 <= k < r.len() ==> #[trigger] r[k].latency_ms <= bound,
{
    broadcast use vstd::seq_lib::group_to_multiset_ensures;

    let c = collected(ips, measured);
    assert forall|k: int| 0 <= k < r.len() implies #[trigger] r[k].latency_ms <= bound by {
        let pair = (r[k].ip@, r[k].latency_ms);
        assert(outcomes_view(r)[k] == pair);
        assert(outcomes_view(r).contains(pair));
        outcomes_view(r).to_multiset_ensures();
        c.to_multiset_ensures();
        assert(outcomes_view(r).to_multiset().count(pair) > 0);
        assert(c.to_multiset().count(pair) > 0);
        assert(c.contains(pair));
        let j = choose|j: int| 0 <= j < c.len() && c[j] == pair;
        lemma_collected_from_candidate(ips, measured, j);
    }
}

/// When no probe succeeded, nothing is collected: an all-failures run yields
/// an empty ranking rather than an error.
pub proof fn lemma_all_failed_collects_nothing(ips: Seq<Seq<char>>, measured: Seq<Option<u64>>)
    requires
        ips.len() == measured.len(),
        forall|i: int| 0 <= i < measured.len() ==> #[trigger] measured[i] is None,
    ensures
        collected(ips, measured).len() == 0,
    decreases ips.len(),
{
    if ips.len() > 0 {
        lemma_all_failed_collects_nothing(ips.drop_last(), measured.drop_last());
    }
}

} // verus!
