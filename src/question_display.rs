use vstd::prelude::*;

use crate::ghost::GhostInteractionEvent;
use crate::world::World;

verus! {

/// Shows `0` as the current question.
#[derive(Clone, Debug)]
pub struct SetQuestionEvent(pub String);

/// Hides the current question.
#[derive(Clone, Copy, Debug, PartialEq, Eq, Structural)]
pub struct ClearQuestionEvent;

/// What the question panel shows: the question first, then the
/// descriptions of the concepts the player has offered as answers. Empty
/// when no question is asked.
pub struct QuestionDisplay {
    pub sections: Vec<String>,
}

/// The panel after the question events of a tick: each new question
/// replaces everything, and any clear empties it.
pub open spec fn after_questions(shown: Seq<String>, sets: Seq<SetQuestionEvent>, clears: nat) -> Seq<
    String,
> {
    if clears > 0 {
        Seq::empty()
    } else if sets.len() > 0 {
        seq![sets.last().0]
    } else {
        shown
    }
}

/// The description of the concept that reaching `t` evokes, if `t`
/// evokes a concept.
pub open spec fn offered(w: World, t: int) -> Option<String> {
    if 0 <= t < w.size() && w.entities@[t].evokes is Some {
        let c = w.entities@[t].evokes.unwrap().0 as int;
        if c < w.size() && w.entities@[c].concept is Some {
            Some(w.entities@[c].concept.unwrap().description)
        } else {
            None
        }
    } else {
        None
    }
}

/// Reaching `t` clears concepts.
pub open spec fn clears_at(w: World, t: int) -> bool {
    0 <= t < w.size() && w.entities@[t].clears is Some
}

/// The panel after the interactions `evs` from index `i` on: each evoked
/// concept is added as an answer, and the first clearing target drops the
/// answers and ends the tick's handling.
pub open spec fn after_answers(shown: Seq<String>, w: World, evs: Seq<GhostInteractionEvent>, i: int) -> Seq<
    String,
>
    decreases evs.len() - i,
{
    if i < 0 || i >= evs.len() {
        shown
    } else {
        let t = evs[i].target as int;
        let s1 = match offered(w, t) {
            Some(d) => shown.push(d),
            None => shown,
        };
        if clears_at(w, t) {
            s1.take(1)
        } else {
            after_answers(s1, w, evs, i + 1)
        }
    }
}

impl QuestionDisplay {
    /// An empty panel.
    pub fn new() -> (q: QuestionDisplay)
        ensures
            q.sections@.len() == 0,
    {
        QuestionDisplay { sections: Vec::new() }
    }

    /// Applies one tick: the new questions, the clears, and then, while a
    /// question is shown, the interactions of the tick as answers.
    pub fn update(
        &mut self,
        sets: &Vec<SetQuestionEvent>,
        clears: &Vec<ClearQuestionEvent>,
        interactions: &Vec<GhostInteractionEvent>,
        world: &World,
    )
        ensures
            ({
                let s = after_questions(old(self).sections@, sets@, clears@.len());
                final(self).sections@ == if s.len() > 0 {
                    after_answers(s, *world, interactions@, 0)
                } else {
                    s
                }
            }),
    {
        let mut k: usize = 0;
        while k < sets.len()
            invariant
                k <= sets@.len(),
                self.sections@ == if k == 0 {
                    old(self).sections@
                } else {
                    seq![sets@[k - 1].0]
                },
            decreases sets@.len() - k,
        {
            self.sections = vec![sets[k].0.clone()];
            k = k + 1;
        }
        if clears.len() > 0 {
            self.sections = Vec::new();
        }
        proof {
            assert(self.sections@ =~= after_questions(old(self).sections@, sets@, clears@.len()));
        }
        if self.sections.len() == 0 {
            return;
        }
        let ghost start = self.sections@;
        let mut i: usize = 0;
        while i < interactions.len()
            invariant
                i <= interactions@.len(),
                self.sections@.len() > 0,
                start.len() > 0,
                start == after_questions(old(self).sections@, sets@, clears@.len()),
                after_answers(start, *world, interactions@, 0) == after_answers(
                    self.sections@,
                    *world,
                    interactions@,
                    i as int,
                ),
            decreases interactions@.len() - i,
        {
            let t = interactions[i].target;
            let ghost before = self.sections@;
            if t < world.entities.len() {
                if let Some(ev) = &world.entities[t].evokes {
                    let c = ev.0;
                    if c < world.entities.len() {
                        if let Some(con) = &world.entities[c].concept {
                            self.sections.push(con.description.clone());
                        }
                    }
                }
                if world.entities[t].clears.is_some() {
                    let first = self.sections[0].clone();
                    let ghost s1 = self.sections@;
                    self.sections = vec![first];
                    proof {
                        assert(s1 == match offered(*world, t as int) {
                            Some(d) => before.push(d),
                            None => before,
                        });
                        assert(after_answers(before, *world, interactions@, i as int) == s1.take(1));
                        assert(self.sections@ =~= s1.take(1));
                    }
                    return;
                }
            }
            i = i + 1;
        }
    }
}

} // verus!
