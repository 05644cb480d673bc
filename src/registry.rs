//! The link registry: stable identity for the edges of a graph that is rebuilt
//! from scratch on every frame.
//!
//! A link is identified by its unordered pair of particle indices alone. On each
//! frame the registry is reconciled with that frame's candidate edges: a link
//! whose pair is still present keeps the time at which it first appeared, a new
//! pair starts at the current time, and a pair that is absent is dropped.
use vstd::prelude::*;
use crate::edge::{Pair, canonical, canonical_spec, is_canonical};
use crate::graph::{extract, proximity_edges};

verus! {

/// A tracked connection between particles `a` and `b` (with `a <= b`), first
/// observed at time `since`.
#[derive(Clone, Copy, Debug, PartialEq, Eq, Structural)]
pub struct Link {
    pub a: usize,
    pub b: usize,
    pub since: u64,
}

impl Link {
    /// The pair of particle indices that identifies this link.
    pub open spec fn pair(self) -> Pair {
        (self.a, self.b)
    }
}

/// A sequence of links in which every pair is canonical and occurs once.
pub open spec fn links_wf(s: Seq<Link>) -> bool {
    &&& forall|i: int| 0 <= i < s.len() ==> is_canonical(#[trigger] s[i].pair())
    &&& forall|i: int, j: int|
        0 <= i < s.len() && 0 <= j < s.len() && i != j ==> #[trigger] s[i].pair()
            != #[trigger] s[j].pair()
}

/// Whether some link of `s` has the pair `k`.
pub open spec fn tracks(s: Seq<Link>, k: Pair) -> bool {
    exists|i: int| 0 <= i < s.len() && s[i].pair() == k
}

/// The links of `s` as a map from pair to the time of first observation.
pub open spec fn links_view(s: Seq<Link>) -> Map<Pair, u64> {
    Map::new(
        |k: Pair| tracks(s, k),
        |k: Pair| s[choose|i: int| 0 <= i < s.len() && s[i].pair() == k].since,
    )
}

/// The canonical form of a candidate pair.
pub open spec fn key_of(p: Pair) -> Pair {
    canonical_spec(p.0, p.1)
}

/// The canonical pairs named by a list of candidate edges, in either order.
pub open spec fn candidate_set(c: Seq<Pair>) -> Set<Pair> {
    Set::new(|k: Pair| exists|j: int| 0 <= j < c.len() && key_of(#[trigger] c[j]) == k)
}

/// The state after reconciling `prior` with the candidate pairs at time `now`:
/// exactly the candidates, each keeping its earlier time if it was tracked and
/// starting at `now` otherwise.
pub open spec fn reconciled(prior: Map<Pair, u64>, candidates: Set<Pair>, now: u64) -> Map<
    Pair,
    u64,
> {
    Map::new(
        |k: Pair| candidates.contains(k),
        |k: Pair|
            if prior.contains_key(k) {
                prior[k]
            } else {
                now
            },
    )
}

/// In a well-formed sequence the link at `j` is the one the view finds for its
/// pair.
proof fn lemma_view_at(s: Seq<Link>, j: int)
    requires
        links_wf(s),
        0 <= j < s.len(),
    ensures
        links_view(s).contains_key(s[j].pair()),
        links_view(s)[s[j].pair()] == s[j].since,
{
    let k = s[j].pair();
    assert(tracks(s, k));
    let i = choose|i: int| 0 <= i < s.len() && s[i].pair() == k;
    assert(i == j);
}

/// Appending a link with a new canonical pair adds exactly that entry.
proof fn lemma_view_push(s: Seq<Link>, l: Link)
    requires
        links_wf(s),
        is_canonical(l.pair()),
        !tracks(s, l.pair()),
    ensures
        links_wf(s.push(l)),
        links_view(s.push(l)) == links_view(s).insert(l.pair(), l.since),
{
    let t = s.push(l);
    assert forall|i: int, j: int|
        0 <= i < t.len() && 0 <= j < t.len() && i != j implies #[trigger] t[i].pair()
        != #[trigger] t[j].pair() by {
        if i < s.len() && j < s.len() {
            assert(t[i] == s[i] && t[j] == s[j]);
        } else if i < s.len() {
            assert(t[i] == s[i]);
        } else {
            assert(t[j] == s[j]);
        }
    }
    assert forall|i: int| 0 <= i < t.len() implies is_canonical(#[trigger] t[i].pair()) by {
        if i < s.len() {
            assert(t[i] == s[i]);
        }
    }
    let m = links_view(s).insert(l.pair(), l.since);
    assert forall|k: Pair| #[trigger] links_view(t).contains_key(k) <==> m.contains_key(k) by {
        if tracks(s, k) {
            let i = choose|i: int| 0 <= i < s.len() && s[i].pair() == k;
            assert(t[i] == s[i]);
        }
        if k == l.pair() {
            assert(t[s.len() as int] == l);
        }
        if tracks(t, k) && k != l.pair() {
            let i = choose|i: int| 0 <= i < t.len() && t[i].pair() == k;
            assert(t[i] == s[i]);
        }
    }
    assert forall|k: Pair| #[trigger] links_view(t).contains_key(k) implies links_view(t)[k]
        == m[k] by {
        if k == l.pair() {
            lemma_view_at(t, s.len() as int);
        } else {
            let i = choose|i: int| 0 <= i < t.len() && t[i].pair() == k;
            assert(t[i] == s[i]);
            lemma_view_at(t, i);
            lemma_view_at(s, i);
        }
    }
    assert(links_view(t) =~= m);
}

/// A well-formed sequence has as many links as its view has pairs.
proof fn lemma_links_count(s: Seq<Link>)
    requires
        links_wf(s),
    ensures
        links_view(s).dom().finite(),
        links_view(s).dom().len() == s.len(),
    decreases s.len(),
{
    if s.len() == 0 {
        assert(links_view(s).dom() =~= Set::<Pair>::empty());
    } else {
        let init = s.drop_last();
        let l = s.last();
        assert(init.push(l) =~= s);
        assert(links_wf(init)) by {
            assert forall|i: int| 0 <= i < init.len() implies is_canonical(#[trigger] init[i].pair()) by {
                assert(init[i] == s[i]);
            }
            assert forall|i: int, j: int|
                0 <= i < init.len() && 0 <= j < init.len() && i != j implies #[trigger] init[i].pair()
                != #[trigger] init[j].pair() by {
                assert(init[i] == s[i] && init[j] == s[j]);
            }
        }
        assert(!tracks(init, l.pair())) by {
            if tracks(init, l.pair()) {
                let i = choose|i: int| 0 <= i < init.len() && init[i].pair() == l.pair();
                assert(init[i] == s[i]);
                assert(s[i].pair() != s[s.len() - 1].pair());
            }
        }
        assert(is_canonical(s[s.len() - 1].pair()));
        lemma_links_count(init);
        lemma_view_push(init, l);
        assert(!links_view(init).dom().contains(l.pair()));
        assert(links_view(s).dom() =~= links_view(init).dom().insert(l.pair()));
    }
}

/// The index of the link with pair `key`, if there is one.
fn position_of(links: &Vec<Link>, key: Pair) -> (r: Option<usize>)
    ensures
        match r {
            Some(j) => j < links.len() && links@[j as int].pair() == key,
            None => !tracks(links@, key),
        },
{
    let mut j: usize = 0;
    while j < links.len()
        invariant
            j <= links.len(),
            forall|i: int| 0 <= i < j ==> links@[i].pair() != key,
        decreases links.len() - j,
    {
        if links[j].a == key.0 && links[j].b == key.1 {
            return Some(j);
        }
        j += 1;
    }
    None
}

/// The links of the current frame, keyed by their unordered pair of particle
/// indices.
pub struct LinkRegistry {
    links: Vec<Link>,
}

impl View for LinkRegistry {
    type V = Map<Pair, u64>;

    /// Each tracked pair with the time at which it was first observed.
    closed spec fn view(&self) -> Map<Pair, u64> {
        links_view(self.links@)
    }
}

impl LinkRegistry {
    /// One link per tracked pair, each pair canonical.
    pub closed spec fn wf(&self) -> bool {
        links_wf(self.links@)
    }

    /// The tracked links, one per pair; a link's `since` is the time its pair
    /// was first observed.
    pub fn links(&self) -> (r: &Vec<Link>)
        requires
            self.wf(),
        ensures
            links_wf(r@),
            links_view(r@) == self@,
            r@.len() == self@.dom().len(),
    {
        proof {
            lemma_links_count(self.links@);
        }
        &self.links
    }

    /// The time at which the link between particles `a` and `b` (in either
    /// order) was first observed, or `None` if the pair is not tracked.
    pub fn since(&self, a: usize, b: usize) -> (r: Option<u64>)
        requires
            self.wf(),
        ensures
            r == (if self@.contains_key(canonical_spec(a, b)) {
                Some(self@[canonical_spec(a, b)])
            } else {
                None
            }),
    {
        let key = canonical(a, b);
        match position_of(&self.links, key) {
            Some(j) => {
                proof {
                    lemma_view_at(self.links@, j as int);
                }
                Some(self.links[j].since)
            },
            None => None,
        }
    }

    /// A registry that tracks no link.
    pub fn new() -> (r: Self)
        ensures
            r.wf(),
            r@ == Map::<Pair, u64>::empty(),
    {
        let r = LinkRegistry { links: Vec::new() };
        assert(links_view(r.links@) =~= Map::<Pair, u64>::empty());
        r
    }

    /// Replaces the tracked links by the candidate edges of this frame. Each
    /// candidate is an unordered pair; listing a pair twice, in either order,
    /// tracks it once. A pair that was tracked keeps its time, a new one gets
    /// `now`, and a tracked pair that is not among the candidates is dropped.
    pub fn reconcile(&mut self, candidates: &Vec<Pair>, now: u64)
        requires
            old(self).wf(),
        ensures
            final(self).wf(),
            final(self)@ == reconciled(old(self)@, candidate_set(candidates@), now),
    {
        let ghost prior = links_view(self.links@);
        let mut next: Vec<Link> = Vec::new();
        let mut i: usize = 0;
        assert(links_view(next@) =~= reconciled(prior, candidate_set(candidates@.take(0)), now));
        while i < candidates.len()
            invariant
                i <= candidates.len(),
                links_wf(self.links@),
                prior == links_view(self.links@),
                links_wf(next@),
                links_view(next@) == reconciled(prior, candidate_set(candidates@.take(i as int)), now),
            decreases candidates.len() - i,
        {
            let (a, b) = candidates[i];
            let key = canonical(a, b);
            let ghost before = candidate_set(candidates@.take(i as int));
            let ghost after = candidate_set(candidates@.take(i + 1));
            assert(after =~= before.insert(key)) by {
                assert(candidates@.take(i + 1)[i as int] == candidates@[i as int]);
                assert forall|k: Pair| after.contains(k) implies #[trigger] before.insert(key).contains(k) by {
                    let j = choose|j: int|
                        0 <= j < i + 1 && key_of(#[trigger] candidates@.take(i + 1)[j]) == k;
                    if j < i {
                        assert(candidates@.take(i + 1)[j] == candidates@.take(i as int)[j]);
                    }
                }
                assert forall|k: Pair| before.contains(k) implies #[trigger] after.contains(k) by {
                    let j = choose|j: int|
                        0 <= j < i && key_of(#[trigger] candidates@.take(i as int)[j]) == k;
                    assert(candidates@.take(i + 1)[j] == candidates@.take(i as int)[j]);
                }
            }
            match position_of(&next, key) {
                Some(p) => {
                    proof {
                        lemma_view_at(next@, p as int);
                        assert(links_view(next@) =~= reconciled(prior, after, now));
                    }
                },
                None => {
                    let since = match position_of(&self.links, key) {
                        Some(j) => {
                            proof {
                                lemma_view_at(self.links@, j as int);
                            }
                            self.links[j].since
                        },
                        None => now,
                    };
                    let link = Link { a: key.0, b: key.1, since };
                    proof {
                        lemma_view_push(next@, link);
                        assert(!links_view(next@).contains_key(key));
                    }
                    next.push(link);
                    proof {
                        assert(links_view(next@) =~= reconciled(prior, after, now));
                    }
                },
            }
            i += 1;
        }
        assert(candidates@.take(candidates.len() as int) =~= candidates@);
        self.links = next;
    }

    /// One frame of link tracking: builds the proximity graph of the
    /// triangulation (see [`extract`]) and reconciles the registry with its
    /// edges at time `now`.
    pub fn reconcile_triangulation(
        &mut self,
        triangles: &Vec<usize>,
        halfedges: &Vec<usize>,
        now: u64,
    )
        requires
            old(self).wf(),
            triangles.len() == halfedges.len(),
            triangles.len() % 3 == 0,
        ensures
            final(self).wf(),
            final(self)@ == reconciled(
                old(self)@,
                candidate_set(proximity_edges(triangles@, halfedges@)),
                now,
            ),
    {
        let edges = extract(triangles, halfedges);
        self.reconcile(&edges, now);
    }
}

/// After reconciliation the tracked pairs are exactly the candidate pairs: none
/// is missing and none is left over.
pub proof fn lemma_tracks_exactly_candidates(
    prior: Map<Pair, u64>,
    candidates: Set<Pair>,
    now: u64,
)
    ensures
        reconciled(prior, candidates, now).dom() == candidates,
{
    assert(reconciled(prior, candidates, now).dom() =~= candidates);
}

/// Reconciling again with the same candidates at a later time changes no
/// link's time.
pub proof fn lemma_reconcile_again_keeps_times(
    prior: Map<Pair, u64>,
    candidates: Set<Pair>,
    first: u64,
    second: u64,
)
    requires
        first < second,
    ensures
        reconciled(reconciled(prior, candidates, first), candidates, second) == reconciled(
            prior,
            candidates,
            first,
        ),
{
    assert(reconciled(reconciled(prior, candidates, first), candidates, second) =~= reconciled(
        prior,
        candidates,
        first,
    ));
}

/// A pair that is absent on one frame and present on the next starts afresh:
/// its time is that of the later frame, whatever it was before.
pub proof fn lemma_absent_pair_restarts(
    prior: Map<Pair, u64>,
    earlier: Set<Pair>,
    earlier_now: u64,
    later: Set<Pair>,
    later_now: u64,
    k: Pair,
)
    requires
        !earlier.contains(k),
        later.contains(k),
    ensures
        reconciled(reconciled(prior, earlier, earlier_now), later, later_now).contains_key(k),
        reconciled(reconciled(prior, earlier, earlier_now), later, later_now)[k] == later_now,
{
}

} // verus!
