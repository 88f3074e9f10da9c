use vstd::prelude::*;
use vstd::relations::{antisymmetric, reflexive, sorted_by, strongly_connected, total_ordering, transitive};

use crate::dialogue::copy_ids;
use crate::ghost::GhostInteractionEvent;
use crate::world::{Entity, World};

verus! {

/// A clue or idea of the story. Each entry of `parents` is one set of
/// concepts whose joint activation derives this one.
pub struct Concept {
    pub description: String,
    pub parents: Vec<Vec<usize>>,
}

/// Marks an entity as active since the given time (nanoseconds since startup).
#[derive(Clone, Copy, Debug, PartialEq, Eq, Structural)]
pub struct Evoked(pub u64);

/// An interactive object that, when reached, evokes the given concept.
#[derive(Clone, Copy, Debug, PartialEq, Eq, Structural)]
pub struct EvokesConcept(pub usize);

/// An interactive object that, when reached, clears every active concept.
#[derive(Clone, Copy, Debug, PartialEq, Eq, Structural)]
pub struct ClearsConcepts;

/// `a` comes before `b` in the order of `Vec<u64>`, comparing from index
/// `i` on: the first differing element decides, and a proper prefix comes
/// first.
pub open spec fn lex_lt_from(a: Seq<u64>, b: Seq<u64>, i: int) -> bool
    decreases a.len() - i,
{
    if i >= a.len() {
        i < b.len()
    } else if i >= b.len() {
        false
    } else if a[i] != b[i] {
        a[i] < b[i]
    } else {
        lex_lt_from(a, b, i + 1)
    }
}

/// The lexicographic order of sequences of times, as `Vec<u64>` orders them.
pub open spec fn lex_lt(a: Seq<u64>, b: Seq<u64>) -> bool {
    lex_lt_from(a, b, 0)
}

proof fn lemma_lex_irreflexive(a: Seq<u64>, i: int)
    requires
        0 <= i,
    ensures
        !lex_lt_from(a, a, i),
    decreases a.len() - i,
{
    if i < a.len() {
        lemma_lex_irreflexive(a, i + 1);
    }
}

proof fn lemma_lex_transitive(a: Seq<u64>, b: Seq<u64>, c: Seq<u64>, i: int)
    requires
        0 <= i,
        lex_lt_from(a, b, i),
        lex_lt_from(b, c, i),
    ensures
        lex_lt_from(a, c, i),
    decreases a.len() - i,
{
    if i < a.len() && i < b.len() && i < c.len() && a[i] == b[i] && b[i] == c[i] {
        lemma_lex_transitive(a, b, c, i + 1);
    }
}

proof fn lemma_lex_total(a: Seq<u64>, b: Seq<u64>, i: int)
    requires
        0 <= i <= a.len(),
        i <= b.len(),
        a.take(i) == b.take(i),
        !lex_lt_from(a, b, i),
        !lex_lt_from(b, a, i),
    ensures
        a == b,
    decreases a.len() - i,
{
    if i < a.len() && i < b.len() {
        assert(a[i] == b[i]);
        assert(a.take(i + 1) =~= a.take(i).push(a[i]));
        assert(b.take(i + 1) =~= b.take(i).push(b[i]));
        lemma_lex_total(a, b, i + 1);
    } else {
        assert(a.len() == b.len());
        assert(a =~= a.take(i));
        assert(b =~= b.take(i));
    }
}

/// `a` and `b` are ordered one way or the other, or equal; never both ways.
proof fn lemma_lex_order(a: Seq<u64>, b: Seq<u64>)
    ensures
        lex_lt(a, b) || lex_lt(b, a) || a == b,
        !(lex_lt(a, b) && lex_lt(b, a)),
{
    if lex_lt(a, b) && lex_lt(b, a) {
        lemma_lex_transitive(a, b, a, 0);
        lemma_lex_irreflexive(a, 0);
    }
    if !lex_lt(a, b) && !lex_lt(b, a) {
        assert(a.take(0) =~= b.take(0));
        lemma_lex_total(a, b, 0);
    }
}

/// Whether `a` comes before `b` in the order of `Vec<u64>`.
fn lex_less(a: &Vec<u64>, b: &Vec<u64>) -> (r: bool)
    ensures
        r == lex_lt(a@, b@),
{
    let mut i: usize = 0;
    while i < a.len() && i < b.len()
        invariant
            i <= a@.len(),
            i <= b@.len(),
            lex_lt(a@, b@) == lex_lt_from(a@, b@, i as int),
        decreases a@.len() - i,
    {
        if a[i] != b[i] {
            return a[i] < b[i];
        }
        i = i + 1;
    }
    i >= a.len() && i < b.len()
}

/// The order of times: earlier first.
pub open spec fn time_order() -> spec_fn(u64, u64) -> bool {
    |a: u64, b: u64| a <= b
}

proof fn lemma_time_order_total()
    ensures
        total_ordering(time_order()),
{
    let le = time_order();
    assert(reflexive(le));
    assert(antisymmetric(le));
    assert(transitive(le));
    assert(strongly_connected(le));
}

/// The times of `v`, earliest first.
fn sort_times(v: &Vec<u64>) -> (r: Vec<u64>)
    ensures
        r@ == v@.sort_by(time_order()),
{
    broadcast use vstd::multiset::group_multiset_axioms;
    broadcast use vstd::seq_lib::group_to_multiset_ensures;

    let mut r: Vec<u64> = Vec::new();
    let mut k: usize = 0;
    proof {
        assert(v@.take(0) =~= Seq::<u64>::empty());
    }
    while k < v.len()
        invariant
            k <= v@.len(),
            sorted_by(r@, time_order()),
            r@.to_multiset() == v@.take(k as int).to_multiset(),
        decreases v@.len() - k,
    {
        let x = v[k];
        let mut i: usize = 0;
        while i < r.len() && r[i] < x
            invariant
                i <= r@.len(),
                forall|a: int| 0 <= a < i ==> r@[a] < x,
            decreases r@.len() - i,
        {
            i = i + 1;
        }
        let ghost before = r@;
        r.insert(i, x);
        proof {
            let t = r@;
            assert forall|a: int, b: int| 0 <= a < b < t.len() implies #[trigger] (time_order())(
                t[a],
                t[b],
            ) by {
                if b < i {
                    assert((time_order())(before[a], before[b]));
                } else if b == i {
                } else if a < i {
                    assert(before[b - 1] >= x) by {
                        if i < before.len() {
                            assert((time_order())(before[i as int], before[b - 1]) || i == b - 1);
                        }
                    }
                } else if a == i {
                    if i < before.len() {
                        assert((time_order())(before[i as int], before[b - 1]) || i == b - 1);
                    }
                } else {
                    assert((time_order())(before[a - 1], before[b - 1]));
                }
            }
            assert(t.remove(i as int) =~= before);
            assert(t[i as int] == x);
            t.to_multiset_ensures();
            assert(t.remove(i as int).to_multiset() =~= t.to_multiset().remove(x));
            assert(t.contains(x));
            assert(t.to_multiset().count(x) > 0);
            assert forall|y: u64| t.to_multiset().count(y) == before.to_multiset().insert(x).count(y) by {
                if y == x {
                    assert(before.to_multiset().count(x) == t.to_multiset().count(x) - 1);
                } else {
                    assert(before.to_multiset().count(y) == t.to_multiset().count(y));
                }
            }
            assert(t.to_multiset() =~= before.to_multiset().insert(x));
            assert(v@.take(k + 1) =~= v@.take(k as int).push(x));
            v@.take(k as int).to_multiset_ensures();
            assert(v@.take(k + 1).to_multiset() =~= v@.take(k as int).to_multiset().insert(x));
        }
        k = k + 1;
    }
    proof {
        assert(v@.take(k as int) =~= v@);
        lemma_time_order_total();
        v@.lemma_sort_by_ensures(time_order());
        vstd::seq_lib::lemma_sorted_unique(r@, v@.sort_by(time_order()), time_order());
    }
    r
}

/// The join candidate (c1, p1) comes before (c2, p2) in the order in which
/// candidates are looked at: by concept id, then by parent-set index.
pub open spec fn earlier(c1: int, p1: int, c2: int, p2: int) -> bool {
    c1 < c2 || (c1 == c2 && p1 < p2)
}

impl World {
    /// `c` is a concept that is evoked.
    pub open spec fn evoked_concept(&self, c: int) -> bool {
        0 <= c < self.size() && self.entities@[c].concept is Some && self.entities@[c].evoked is Some
    }

    /// Reaching `t` has an effect: it evokes a concept or clears them.
    pub open spec fn reacts(&self, t: int) -> bool {
        0 <= t < self.size() && (self.entities@[t].evokes is Some || self.entities@[t].clears is Some)
    }

    /// Reaching `t` at `now` took `self` to `new`. An object that evokes a
    /// concept makes it active since `now`; otherwise one that clears makes
    /// every concept inactive; anything else changes nothing.
    pub open spec fn interacted(&self, new: World, t: int, now: u64) -> bool {
        &&& new.clock == self.clock
        &&& if 0 <= t < self.size() && self.entities@[t].evokes is Some {
            let c = self.entities@[t].evokes.unwrap().0 as int;
            new.entities@ == if c < self.size() {
                self.entities@.update(c, (Entity { evoked: Some(Evoked(now)), ..self.entities@[c] }))
            } else {
                self.entities@
            }
        } else if 0 <= t < self.size() && self.entities@[t].clears is Some {
            self.cleared(new)
        } else {
            new.entities@ == self.entities@
        }
    }

    /// Every concept of `self` is inactive in `new`, and nothing else changed.
    pub open spec fn cleared(&self, new: World) -> bool {
        &&& new.clock == self.clock
        &&& new.size() == self.size()
        &&& forall|j: int|
            0 <= j < self.size() ==> #[trigger] new.entities@[j] == if self.entities@[j].concept is Some {
                (Entity { evoked: None, ..self.entities@[j] })
            } else {
                self.entities@[j]
            }
    }

    /// The members of parent-set `p` of concept `c`.
    pub open spec fn parent_set(&self, c: int, p: int) -> Seq<usize> {
        self.entities@[c].concept.unwrap().parents@[p]@
    }

    /// Inactive concept `c` may be derived through its parent-set `p`: every
    /// member of it is an evoked concept.
    pub open spec fn join_candidate(&self, c: int, p: int) -> bool {
        &&& 0 <= c < self.size()
        &&& self.entities@[c].concept is Some
        &&& self.entities@[c].evoked is None
        &&& 0 <= p < self.entities@[c].concept.unwrap().parents@.len()
        &&& forall|k: int|
            0 <= k < self.parent_set(c, p).len() ==> self.evoked_concept(
                #[trigger] self.parent_set(c, p)[k] as int,
            )
    }

    /// The activation times of the members of parent-set `p` of `c`,
    /// earliest first.
    pub open spec fn join_key(&self, c: int, p: int) -> Seq<u64> {
        self.activation_times(self.parent_set(c, p)).sort_by(time_order())
    }

    /// The activation times of the entities `ps`, in order.
    pub open spec fn activation_times(&self, ps: Seq<usize>) -> Seq<u64> {
        ps.map_values(|e: usize| self.entities@[e as int].evoked.unwrap().0)
    }

    /// (c, p) is the join to make: a candidate whose key is the greatest,
    /// and the last such candidate in the order they are looked at.
    pub open spec fn join_winner(&self, c: int, p: int) -> bool {
        &&& self.join_candidate(c, p)
        &&& forall|c2: int, p2: int| #[trigger]
            self.join_candidate(c2, p2) ==> !lex_lt(self.join_key(c, p), self.join_key(c2, p2))
        &&& forall|c2: int, p2: int|
            earlier(c, p, c2, p2) && #[trigger] self.join_candidate(c2, p2) ==> lex_lt(
                self.join_key(c2, p2),
                self.join_key(c, p),
            )
    }

    /// Concept `c` was derived at `now` through parent-set `p`: it became
    /// active and each member of the set became inactive.
    pub open spec fn joined(&self, new: World, c: int, p: int, now: u64) -> bool {
        &&& new.clock == self.clock
        &&& new.size() == self.size()
        &&& forall|j: int|
            0 <= j < self.size() ==> #[trigger] new.entities@[j] == if j == c {
                (Entity { evoked: Some(Evoked(now)), ..self.entities@[j] })
            } else if self.parent_set(c, p).contains(j as usize) {
                (Entity { evoked: None, ..self.entities@[j] })
            } else {
                self.entities@[j]
            }
    }
}

/// A change to activation alone keeps a world well formed.
pub(crate) proof fn lemma_wf_activation_only(a: World, b: World)
    requires
        a.wf(),
        b.clock == a.clock,
        b.size() == a.size(),
        forall|j: int|
            0 <= j < a.size() ==> (#[trigger] b.entities@[j]).spoken == a.entities@[j].spoken
                && b.entities@[j].speaking == a.entities@[j].speaking && b.entities@[j].line
                == a.entities@[j].line,
    ensures
        b.wf(),
{
    assert forall|i: int| 0 <= i < b.size() implies crate::world::history_ok(
        #[trigger] b.history(i),
        b.clock,
    ) by {
        assert(b.entities@[i].spoken == a.entities@[i].spoken);
        assert(a.history(i) == b.history(i));
    }
    assert forall|i: int, j: int| b.is_speaking(i) && b.is_speaking(j) implies i == j by {
        assert(b.entities@[i].speaking == a.entities@[i].speaking);
        assert(b.entities@[j].speaking == a.entities@[j].speaking);
        assert(a.is_speaking(i) && a.is_speaking(j));
    }
    assert forall|i: int| #[trigger] b.is_speaking(i) implies b.entities@[i].line is Some
        && b.has_spoken(i) by {
        assert(b.entities@[i].speaking == a.entities@[i].speaking);
        assert(a.is_speaking(i));
        assert(b.entities@[i].spoken == a.entities@[i].spoken);
        assert(a.history(i) == b.history(i));
    }
}


impl World {
    /// Deactivates every concept.
    pub fn clear_concepts(&mut self)
        requires
            old(self).wf(),
        ensures
            final(self).wf(),
            final(self).clock == old(self).clock,
            final(self).size() == old(self).size(),
            old(self).cleared(*final(self)),
    {
        let ghost o = *self;
        let mut q: usize = 0;
        while q < self.entities.len()
            invariant
                q <= self.size(),
                self.size() == o.size(),
                self.clock == o.clock,
                forall|j: int|
                    0 <= j < o.size() ==> #[trigger] self.entities@[j] == if j < q
                        && o.entities@[j].concept is Some {
                        (Entity { evoked: None, ..o.entities@[j] })
                    } else {
                        o.entities@[j]
                    },
            decreases self.size() - q,
        {
            if self.entities[q].concept.is_some() {
                self.entities[q].evoked = None;
            }
            q = q + 1;
        }
        proof {
            lemma_wf_activation_only(o, *self);
        }
    }

    /// The ghost reached `event.target` at `now`. Returns whether that
    /// target reacted (it evokes a concept, or clears them).
    pub fn handle_interaction(&mut self, event: GhostInteractionEvent, now: u64) -> (matched: bool)
        requires
            old(self).wf(),
        ensures
            final(self).wf(),
            matched == old(self).reacts(event.target as int),
            old(self).interacted(*final(self), event.target as int, now),
    {
        let t = event.target;
        if t >= self.entities.len() {
            return false;
        }
        if let Some(EvokesConcept(c)) = self.entities[t].evokes {
            if c < self.entities.len() {
                let ghost o = *self;
                self.entities[c].evoked = Some(Evoked(now));
                proof {
                    lemma_wf_activation_only(o, *self);
                }
            }
            return true;
        }
        if self.entities[t].clears.is_some() {
            self.clear_concepts();
            return true;
        }
        false
    }

    /// Handles the interactions of one tick in order, up to the first whose
    /// target reacts; the ones after it are dropped. Returns the index of
    /// that event.
    pub fn handle_interactions(&mut self, events: &Vec<GhostInteractionEvent>, now: u64) -> (r:
        Option<usize>)
        requires
            old(self).wf(),
        ensures
            final(self).wf(),
            match r {
                Some(k) => {
                    &&& k < events@.len()
                    &&& old(self).reacts(events@[k as int].target as int)
                    &&& forall|m: int|
                        0 <= m < k ==> !old(self).reacts(#[trigger] events@[m].target as int)
                    &&& old(self).interacted(*final(self), events@[k as int].target as int, now)
                },
                None => {
                    &&& forall|m: int|
                        0 <= m < events@.len() ==> !old(self).reacts(
                            #[trigger] events@[m].target as int,
                        )
                    &&& final(self).entities@ == old(self).entities@
                    &&& final(self).clock == old(self).clock
                },
            },
    {
        let mut k: usize = 0;
        while k < events.len()
            invariant
                k <= events@.len(),
                self.wf(),
                self.entities@ == old(self).entities@,
                self.clock == old(self).clock,
                forall|m: int| 0 <= m < k ==> !old(self).reacts(#[trigger] events@[m].target as int),
            decreases events@.len() - k,
        {
            if self.handle_interaction(events[k], now) {
                return Some(k);
            }
            k = k + 1;
        }
        None
    }
}


/// x >= y >= z implies x >= z in the order of `Vec<u64>`.
proof fn lemma_lex_not_lt_trans(x: Seq<u64>, y: Seq<u64>, z: Seq<u64>)
    requires
        !lex_lt(x, y),
        !lex_lt(y, z),
    ensures
        !lex_lt(x, z),
{
    lemma_lex_order(x, y);
    lemma_lex_order(y, z);
    if lex_lt(x, z) && lex_lt(y, x) {
        lemma_lex_transitive(y, x, z, 0);
    }
}

impl World {
    /// What the search for a join has established after looking at every
    /// candidate before (c, p).
    spec fn join_search(&self, best: Option<(usize, usize)>, bk: Seq<u64>, c: int, p: int) -> bool {
        match best {
            Some((bc, bp)) => {
                &&& self.join_candidate(bc as int, bp as int)
                &&& bk == self.join_key(bc as int, bp as int)
                &&& earlier(bc as int, bp as int, c, p)
                &&& forall|c2: int, p2: int|
                    earlier(c2, p2, c, p) && #[trigger] self.join_candidate(c2, p2) ==> !lex_lt(
                        bk,
                        self.join_key(c2, p2),
                    )
                &&& forall|c2: int, p2: int|
                    earlier(bc as int, bp as int, c2, p2) && earlier(c2, p2, c, p)
                        && #[trigger] self.join_candidate(c2, p2) ==> lex_lt(
                        self.join_key(c2, p2),
                        bk,
                    )
            },
            None => forall|c2: int, p2: int|
                earlier(c2, p2, c, p) ==> !#[trigger] self.join_candidate(c2, p2),
        }
    }

    fn covered(&self, ps: &Vec<usize>) -> (r: bool)
        ensures
            r == forall|k: int| 0 <= k < ps@.len() ==> self.evoked_concept(#[trigger] ps@[k] as int),
    {
        let mut k: usize = 0;
        while k < ps.len()
            invariant
                k <= ps@.len(),
                forall|m: int| 0 <= m < k ==> self.evoked_concept(#[trigger] ps@[m] as int),
            decreases ps@.len() - k,
        {
            let e = ps[k];
            if !(e < self.entities.len() && self.entities[e].concept.is_some()
                && self.entities[e].evoked.is_some()) {
                assert(!self.evoked_concept(ps@[k as int] as int));
                return false;
            }
            k = k + 1;
        }
        true
    }

    fn key_of(&self, ps: &Vec<usize>) -> (r: Vec<u64>)
        requires
            forall|k: int| 0 <= k < ps@.len() ==> self.evoked_concept(#[trigger] ps@[k] as int),
        ensures
            r@ == self.activation_times(ps@),
    {
        let mut r: Vec<u64> = Vec::new();
        let mut k: usize = 0;
        while k < ps.len()
            invariant
                k <= ps@.len(),
                forall|m: int| 0 <= m < ps@.len() ==> self.evoked_concept(#[trigger] ps@[m] as int),
                r@ == ps@.take(k as int).map_values(
                    |e: usize| self.entities@[e as int].evoked.unwrap().0,
                ),
            decreases ps@.len() - k,
        {
            let e = ps[k];
            assert(self.evoked_concept(ps@[k as int] as int));
            let t = match self.entities[e].evoked {
                Some(ev) => ev.0,
                None => 0,
            };
            r.push(t);
            k = k + 1;
            proof {
                assert(r@ =~= ps@.take(k as int).map_values(
                    |e: usize| self.entities@[e as int].evoked.unwrap().0,
                ));
            }
        }
        proof {
            assert(ps@.take(k as int) =~= ps@);
        }
        r
    }

    /// The key of (c, p) if it is a join candidate.
    fn candidate_key(&self, c: usize, p: usize) -> (r: Option<Vec<u64>>)
        requires
            c < self.size(),
            self.entities@[c as int].concept is Some,
            p < self.entities@[c as int].concept.unwrap().parents@.len(),
        ensures
            match r {
                Some(k) => self.join_candidate(c as int, p as int) && k@ == self.join_key(
                    c as int,
                    p as int,
                ),
                None => !self.join_candidate(c as int, p as int),
            },
    {
        if self.entities[c].evoked.is_some() {
            return None;
        }
        match &self.entities[c].concept {
            Some(con) => {
                let ps = &con.parents[p];
                assert(ps@ == self.parent_set(c as int, p as int));
                if self.covered(ps) {
                    Some(sort_times(&self.key_of(ps)))
                } else {
                    None
                }
            },
            None => None,
        }
    }

    /// Derives at most one concept at `now`: among the inactive concepts
    /// with a parent-set whose members are all active, the one whose
    /// activation times, earliest first, are greatest in the order of
    /// `Vec<u64>` becomes active (so the set whose earliest member came
    /// latest wins), the last one looked at among equals, and
    /// the members of that set become inactive. Returns the derived concept
    /// and the index of the parent-set it was derived through.
    pub fn join_concepts(&mut self, now: u64) -> (r: Option<(usize, usize)>)
        requires
            old(self).wf(),
        ensures
            final(self).wf(),
            match r {
                Some((c, p)) => old(self).join_winner(c as int, p as int) && old(self).joined(
                    *final(self),
                    c as int,
                    p as int,
                    now,
                ),
                None => {
                    &&& forall|c: int, p: int| !old(self).join_candidate(c, p)
                    &&& final(self).entities@ == old(self).entities@
                    &&& final(self).clock == old(self).clock
                },
            },
    {
        let mut best: Option<(usize, usize)> = None;
        let mut best_key: Vec<u64> = Vec::new();
        let mut c: usize = 0;
        while c < self.entities.len()
            invariant
                c <= self.size(),
                self.join_search(best, best_key@, c as int, 0),
            decreases self.size() - c,
        {
            let n = match &self.entities[c].concept {
                Some(con) => con.parents.len(),
                None => 0,
            };
            let mut p: usize = 0;
            while p < n
                invariant
                    c < self.size(),
                    p <= n,
                    n == 0 || self.entities@[c as int].concept is Some,
                    self.entities@[c as int].concept is Some ==> n
                        == self.entities@[c as int].concept.unwrap().parents@.len(),
                    self.join_search(best, best_key@, c as int, p as int),
                decreases n - p,
            {
                if let Some(key) = self.candidate_key(c, p) {
                    let take = match best {
                        None => true,
                        Some(_) => !lex_less(&key, &best_key),
                    };
                    if take {
                        proof {
                            match best {
                                Some((bc, bp)) => {
                                    assert forall|c2: int, p2: int|
                                        earlier(c2, p2, c as int, p + 1) && #[trigger] self.join_candidate(
                                            c2,
                                            p2,
                                        ) implies !lex_lt(key@, self.join_key(c2, p2)) by {
                                        if c2 == c && p2 == p {
                                            lemma_lex_order(key@, key@);
                                        } else {
                                            lemma_lex_not_lt_trans(
                                                key@,
                                                best_key@,
                                                self.join_key(c2, p2),
                                            );
                                        }
                                    }
                                },
                                None => {
                                    assert forall|c2: int, p2: int|
                                        earlier(c2, p2, c as int, p + 1) && #[trigger] self.join_candidate(
                                            c2,
                                            p2,
                                        ) implies !lex_lt(key@, self.join_key(c2, p2)) by {
                                        lemma_lex_order(key@, key@);
                                    }
                                },
                            }
                        }
                        best = Some((c, p));
                        best_key = key;
                    } else {
                        proof {
                            lemma_lex_order(key@, best_key@);
                        }
                    }
                }
                p = p + 1;
            }
            c = c + 1;
        }
        match best {
            None => None,
            Some((bc, bp)) => {
                let ghost o = *self;
                let members = match &self.entities[bc].concept {
                    Some(con) => copy_ids(&con.parents[bp]),
                    None => Vec::new(),
                };
                self.entities[bc].evoked = Some(Evoked(now));
                let mut k: usize = 0;
                while k < members.len()
                    invariant
                        k <= members@.len(),
                        members@ == o.parent_set(bc as int, bp as int),
                        o.join_candidate(bc as int, bp as int),
                        self.size() == o.size(),
                        self.clock == o.clock,
                        forall|j: int|
                            0 <= j < o.size() ==> #[trigger] self.entities@[j] == if j == bc {
                                (Entity { evoked: Some(Evoked(now)), ..o.entities@[j] })
                            } else if members@.take(k as int).contains(j as usize) {
                                (Entity { evoked: None, ..o.entities@[j] })
                            } else {
                                o.entities@[j]
                            },
                    decreases members@.len() - k,
                {
                    let m = members[k];
                    assert(o.evoked_concept(o.parent_set(bc as int, bp as int)[k as int] as int));
                    if m < self.entities.len() {
                        self.entities[m].evoked = None;
                    }
                    k = k + 1;
                    proof {
                        assert(members@.take(k as int) =~= members@.take(k - 1).push(m));
                        assert(m as int != bc as int);
                        assert forall|j: int| 0 <= j < o.size() implies #[trigger] members@.take(k as int).contains(
                            j as usize,
                        ) == (members@.take(k - 1).contains(j as usize) || j == m as int) by {
                            if j == m as int {
                                assert(members@.take(k as int)[k - 1] == m);
                            }
                            if members@.take(k as int).contains(j as usize) && j != m as int {
                                let x = choose|x: int|
                                    0 <= x < k && members@.take(k as int)[x] == j as usize;
                                assert(members@.take(k - 1)[x] == j as usize);
                            }
                        }
                    }
                }
                proof {
                    assert(members@.take(k as int) =~= members@);
                    assert(o.join_winner(bc as int, bp as int));
                    assert(o.joined(*self, bc as int, bp as int, now));
                    lemma_wf_activation_only(o, *self);
                }
                Some((bc, bp))
            },
        }
    }
}


/// Clearing when no concept is active changes nothing, and clearing twice
/// is the same as clearing once.
pub proof fn lemma_clear_idempotent(w: World, once: World, twice: World)
    requires
        w.cleared(once),
        once.cleared(twice),
    ensures
        twice.entities@ == once.entities@,
        (forall|c: int| 0 <= c < w.size() && w.entities@[c].concept is Some ==> !w.active(c))
            ==> once.entities@ == w.entities@,
{
    assert(twice.entities@ =~= once.entities@);
    if forall|c: int| 0 <= c < w.size() && w.entities@[c].concept is Some ==> !w.active(c) {
        assert forall|j: int| 0 <= j < w.size() implies once.entities@[j] == w.entities@[j] by {
            if w.entities@[j].concept is Some {
                assert(!w.active(j));
            }
        }
        assert(once.entities@ =~= w.entities@);
    }
}

/// When concept `p`, through its first parent-set `[a, b]`, is the only way
/// to derive anything, a derivation pass makes `p` active and `a`, `b`
/// inactive.
pub proof fn lemma_join_pair(w: World, new: World, a: usize, b: usize, p: usize, now: u64)
    requires
        w.evoked_concept(a as int),
        w.evoked_concept(b as int),
        p < w.size(),
        w.entities@[p as int].concept is Some,
        !w.active(p as int),
        w.entities@[p as int].concept.unwrap().parents@.len() > 0,
        w.parent_set(p as int, 0) == seq![a, b],
        forall|c: int, q: int| #[trigger] w.join_candidate(c, q) ==> c == p && q == 0,
        w.derived(new, now),
    ensures
        new.active(p as int),
        new.entities@[p as int].evoked == Some(Evoked(now)),
        !new.active(a as int),
        !new.active(b as int),
{
    let ps = w.parent_set(p as int, 0);
    assert(ps[0] == a && ps[1] == b);
    assert forall|k: int| 0 <= k < w.parent_set(p as int, 0).len() implies w.evoked_concept(
        #[trigger] w.parent_set(p as int, 0)[k] as int,
    ) by {
        if k == 0 {
            assert(w.parent_set(p as int, 0)[k] == a);
        } else {
            assert(w.parent_set(p as int, 0)[k] == b);
        }
    }
    assert(w.join_candidate(p as int, 0));
    let (c, q) = choose|c: int, q: int| w.join_winner(c, q) && w.joined(new, c, q, now);
    assert(w.join_candidate(c, q));
    assert(ps.contains(a));
    assert(ps.contains(b));
    assert(new.entities@[a as int] == (Entity { evoked: None, ..w.entities@[a as int] }));
    assert(new.entities@[b as int] == (Entity { evoked: None, ..w.entities@[b as int] }));
    assert(new.entities@[p as int] == (Entity { evoked: Some(Evoked(now)), ..w.entities@[p as int] }));
}

} // verus!
