use vstd::prelude::*;

use crate::concepts::{ClearsConcepts, Concept, EvokesConcept, Evoked};
use crate::dialogue::{Line, Speaking, Spoken};
use crate::nodes::NodeLink;

verus! {

/// One thing of the story world; each part is present or absent, as
/// components on an entity are. Entities are referred to by their index in
/// `World::entities`.
pub struct Entity {
    pub concept: Option<Concept>,
    pub evoked: Option<Evoked>,
    pub evokes: Option<EvokesConcept>,
    pub clears: Option<ClearsConcepts>,
    pub line: Option<Line>,
    pub spoken: Spoken,
    pub speaking: Option<Speaking>,
    pub link: Option<NodeLink>,
}

impl Entity {
    /// An entity with no parts and an empty history.
    pub fn empty() -> (e: Entity)
        ensures
            e.concept is None,
            e.evoked is None,
            e.evokes is None,
            e.clears is None,
            e.line is None,
            e.spoken.0@.len() == 0,
            e.speaking is None,
            e.link is None,
    {
        Entity {
            concept: None,
            evoked: None,
            evokes: None,
            clears: None,
            line: None,
            spoken: Spoken(Vec::new()),
            speaking: None,
            link: None,
        }
    }
}

/// A history is ordered by time and holds nothing later than `clock`.
pub open spec fn history_ok(h: Seq<u64>, clock: u64) -> bool {
    &&& forall|a: int, b: int| 0 <= a <= b < h.len() ==> h[a] <= h[b]
    &&& forall|a: int| 0 <= a < h.len() ==> h[a] <= clock
}

/// The whole story state: every entity, and the latest time the story was
/// advanced to (nanoseconds since startup).
pub struct World {
    pub entities: Vec<Entity>,
    pub clock: u64,
}

impl World {
    pub open spec fn size(&self) -> int {
        self.entities@.len() as int
    }

    /// `c` names an entity that is currently evoked.
    pub open spec fn active(&self, c: int) -> bool {
        0 <= c < self.size() && self.entities@[c].evoked is Some
    }

    /// Some entity is evoked.
    pub open spec fn any_active(&self) -> bool {
        exists|c: int| self.active(c)
    }

    /// The times at which `id` (a line or a group) was spoken; empty for an
    /// unknown id.
    pub open spec fn history(&self, id: int) -> Seq<u64> {
        if 0 <= id < self.size() {
            self.entities@[id].spoken.0@
        } else {
            Seq::empty()
        }
    }

    pub open spec fn has_spoken(&self, id: int) -> bool {
        self.history(id).len() > 0
    }

    /// The most recent time at which `id` was spoken.
    pub open spec fn latest(&self, id: int) -> u64 {
        self.history(id).last()
    }

    pub open spec fn is_speaking(&self, id: int) -> bool {
        0 <= id < self.size() && self.entities@[id].speaking is Some
    }

    /// Well-formed: histories are ordered and not later than the clock, at
    /// most one entity holds the speaking slot, and that one is a line that
    /// has been spoken.
    pub open spec fn wf(&self) -> bool {
        &&& forall|i: int| 0 <= i < self.size() ==> history_ok(#[trigger] self.history(i), self.clock)
        &&& forall|i: int, j: int| self.is_speaking(i) && self.is_speaking(j) ==> i == j
        &&& forall|i: int|
            #[trigger] self.is_speaking(i) ==> self.entities@[i].line is Some && self.has_spoken(i)
    }

    /// An empty world at time zero.
    pub fn new() -> (w: World)
        ensures
            w.wf(),
            w.size() == 0,
            w.clock == 0,
    {
        World { entities: Vec::new(), clock: 0 }
    }

    /// Adds `e` with a fresh history; returns its id.
    fn spawn(&mut self, e: Entity) -> (id: usize)
        requires
            old(self).wf(),
            old(self).size() < usize::MAX,
            e.spoken.0@.len() == 0,
            e.speaking is None,
        ensures
            final(self).wf(),
            id == old(self).size(),
            final(self).entities@ == old(self).entities@.push(e),
            final(self).clock == old(self).clock,
    {
        let id = self.entities.len();
        self.entities.push(e);
        proof {
            assert forall|i: int| 0 <= i < final(self).size() implies history_ok(
                #[trigger] self.history(i),
                self.clock,
            ) by {
                if i < old(self).size() {
                    assert(self.history(i) == old(self).history(i));
                } else {
                    assert(self.history(i).len() == 0);
                }
            }
            assert forall|i: int, j: int| self.is_speaking(i) && self.is_speaking(j) implies i == j by {
                assert(old(self).is_speaking(i) && old(self).is_speaking(j));
            }
            assert forall|i: int| #[trigger] self.is_speaking(i) implies self.entities@[i].line is Some
                && self.has_spoken(i) by {
                assert(old(self).is_speaking(i));
                assert(self.history(i) == old(self).history(i));
            }
        }
        id
    }

    /// Adds a concept, inactive; returns its id. Each of its parent-sets
    /// names a concept at most once.
    pub fn spawn_concept(&mut self, concept: Concept) -> (id: usize)
        requires
            old(self).wf(),
            old(self).size() < usize::MAX,
            forall|p: int|
                0 <= p < concept.parents@.len() ==> (#[trigger] concept.parents@[p])@.no_duplicates(),
        ensures
            final(self).wf(),
            id == old(self).size(),
            final(self).size() == old(self).size() + 1,
            final(self).entities@.take(id as int) == old(self).entities@,
            final(self).entities@[id as int].concept == Some(concept),
            final(self).entities@[id as int].evoked is None,
            final(self).entities@[id as int].evokes is None,
            final(self).entities@[id as int].clears is None,
            final(self).entities@[id as int].line is None,
            final(self).entities@[id as int].spoken.0@.len() == 0,
            final(self).entities@[id as int].speaking is None,
            final(self).entities@[id as int].link is None,
            final(self).clock == old(self).clock,
    {
        let mut e = Entity::empty();
        e.concept = Some(concept);
        let id = self.spawn(e);
        proof {
            assert(self.entities@.take(id as int) =~= old(self).entities@);
        }
        id
    }

    /// Adds a line, never spoken; returns its id.
    pub fn spawn_line(&mut self, line: Line) -> (id: usize)
        requires
            old(self).wf(),
            old(self).size() < usize::MAX,
        ensures
            final(self).wf(),
            id == old(self).size(),
            final(self).size() == old(self).size() + 1,
            final(self).entities@.take(id as int) == old(self).entities@,
            final(self).entities@[id as int].line == Some(line),
            final(self).entities@[id as int].concept is None,
            final(self).entities@[id as int].evoked is None,
            final(self).entities@[id as int].evokes is None,
            final(self).entities@[id as int].clears is None,
            final(self).entities@[id as int].spoken.0@.len() == 0,
            final(self).entities@[id as int].speaking is None,
            final(self).entities@[id as int].link is None,
            final(self).clock == old(self).clock,
    {
        let mut e = Entity::empty();
        e.line = Some(line);
        let id = self.spawn(e);
        proof {
            assert(self.entities@.take(id as int) =~= old(self).entities@);
        }
        id
    }

    /// Adds an entity with no parts (a group of lines sharing a history);
    /// returns its id.
    pub fn spawn_group(&mut self) -> (id: usize)
        requires
            old(self).wf(),
            old(self).size() < usize::MAX,
        ensures
            final(self).wf(),
            id == old(self).size(),
            final(self).size() == old(self).size() + 1,
            final(self).entities@.take(id as int) == old(self).entities@,
            final(self).entities@[id as int].concept is None,
            final(self).entities@[id as int].evoked is None,
            final(self).entities@[id as int].evokes is None,
            final(self).entities@[id as int].clears is None,
            final(self).entities@[id as int].line is None,
            final(self).entities@[id as int].spoken.0@.len() == 0,
            final(self).entities@[id as int].speaking is None,
            final(self).entities@[id as int].link is None,
            final(self).clock == old(self).clock,
    {
        let id = self.spawn(Entity::empty());
        proof {
            assert(self.entities@.take(id as int) =~= old(self).entities@);
        }
        id
    }

    /// Adds an interactive object that evokes `concept`; returns its id.
    pub fn spawn_evoker(&mut self, concept: usize) -> (id: usize)
        requires
            old(self).wf(),
            old(self).size() < usize::MAX,
        ensures
            final(self).wf(),
            id == old(self).size(),
            final(self).size() == old(self).size() + 1,
            final(self).entities@.take(id as int) == old(self).entities@,
            final(self).entities@[id as int].evokes == Some(EvokesConcept(concept)),
            final(self).entities@[id as int].concept is None,
            final(self).entities@[id as int].evoked is None,
            final(self).entities@[id as int].clears is None,
            final(self).entities@[id as int].line is None,
            final(self).entities@[id as int].spoken.0@.len() == 0,
            final(self).entities@[id as int].speaking is None,
            final(self).entities@[id as int].link is None,
            final(self).clock == old(self).clock,
    {
        let mut e = Entity::empty();
        e.evokes = Some(EvokesConcept(concept));
        let id = self.spawn(e);
        proof {
            assert(self.entities@.take(id as int) =~= old(self).entities@);
        }
        id
    }

    /// Adds an interactive object that clears every active concept; returns
    /// its id.
    pub fn spawn_clearer(&mut self) -> (id: usize)
        requires
            old(self).wf(),
            old(self).size() < usize::MAX,
        ensures
            final(self).wf(),
            id == old(self).size(),
            final(self).size() == old(self).size() + 1,
            final(self).entities@.take(id as int) == old(self).entities@,
            final(self).entities@[id as int].clears is Some,
            final(self).entities@[id as int].concept is None,
            final(self).entities@[id as int].evoked is None,
            final(self).entities@[id as int].evokes is None,
            final(self).entities@[id as int].line is None,
            final(self).entities@[id as int].spoken.0@.len() == 0,
            final(self).entities@[id as int].speaking is None,
            final(self).entities@[id as int].link is None,
            final(self).clock == old(self).clock,
    {
        let mut e = Entity::empty();
        e.clears = Some(ClearsConcepts);
        let id = self.spawn(e);
        proof {
            assert(self.entities@.take(id as int) =~= old(self).entities@);
        }
        id
    }

    /// Whether `id` is currently evoked.
    pub fn is_evoked(&self, id: usize) -> (r: bool)
        ensures
            r == self.active(id as int),
    {
        id < self.entities.len() && self.entities[id].evoked.is_some()
    }

    /// When `id` was last evoked, if it is active.
    pub fn evoked_at(&self, id: usize) -> (r: Option<u64>)
        ensures
            r == (if self.active(id as int) {
                Some(self.entities@[id as int].evoked.unwrap().0)
            } else {
                None
            }),
    {
        if id < self.entities.len() {
            match &self.entities[id].evoked {
                Some(ev) => Some(ev.0),
                None => None,
            }
        } else {
            None
        }
    }

    /// The times at which `id` was spoken, oldest first.
    pub fn spoken_times(&self, id: usize) -> (r: Vec<u64>)
        ensures
            r@ == self.history(id as int),
    {
        let mut r: Vec<u64> = Vec::new();
        if id < self.entities.len() {
            let h = &self.entities[id].spoken.0;
            let mut k: usize = 0;
            while k < h.len()
                invariant
                    k <= h@.len(),
                    h@ == self.history(id as int),
                    r@ == h@.take(k as int),
                decreases h@.len() - k,
            {
                r.push(h[k]);
                k = k + 1;
                proof {
                    assert(r@ =~= h@.take(k as int));
                }
            }
            proof {
                assert(h@.take(k as int) =~= h@);
            }
        }
        r
    }

    /// The line that holds the speaking slot, if any.
    pub fn speaking_line(&self) -> (r: Option<usize>)
        requires
            self.wf(),
        ensures
            match r {
                Some(i) => self.is_speaking(i as int),
                None => forall|i: int| !self.is_speaking(i),
            },
    {
        let mut i: usize = 0;
        while i < self.entities.len()
            invariant
                i <= self.size(),
                forall|j: int| 0 <= j < i ==> !self.is_speaking(j),
            decreases self.size() - i,
        {
            if self.entities[i].speaking.is_some() {
                return Some(i);
            }
            i = i + 1;
        }
        None
    }
}

} // verus!
