use vstd::prelude::*;

use rand::Rng;

verus! {

/// How an animation moves from frame to frame, and from state to state.
#[derive(Clone, Debug, PartialEq, Eq)]
pub enum AnimationDefinition {
    /// Each frame in turn, wrapping around.
    Simple,
    /// Frame and next state are both `table[state]`.
    Progression(Vec<usize>),
    /// Frame and next state are `table[state]`.
    WithState(Vec<(usize, usize)>),
    /// Eyes open for a random while, then closing, closed, and open again.
    Blink,
    /// Mouth opening, open for a random while, closing, closed.
    Talk,
}

pub const BLINK_ANIMATION: AnimationDefinition = AnimationDefinition::Blink;

pub const TALK_ANIMATION: AnimationDefinition = AnimationDefinition::Talk;

/// An animation of kind `def` can be at `state` with `count` frames: every
/// frame it can reach exists and every state it can reach is in its table.
pub open spec fn fits(def: AnimationDefinition, count: nat, state: usize) -> bool {
    match def {
        AnimationDefinition::Simple => state < count,
        AnimationDefinition::Progression(t) => {
            &&& state < t@.len()
            &&& forall|k: int| 0 <= k < t@.len() ==> (#[trigger] t@[k]) < count && t@[k] < t@.len()
        },
        AnimationDefinition::WithState(t) => {
            &&& state < t@.len()
            &&& forall|k: int|
                0 <= k < t@.len() ==> (#[trigger] t@[k]).0 < count && t@[k].1 < t@.len()
        },
        _ => count >= 3,
    }
}

/// The kind draws at random in this state: state 0 of `Blink` and `Talk`.
pub open spec fn draws(def: AnimationDefinition, state: usize) -> bool {
    state == 0 && (def is Blink || def is Talk)
}

/// The random draw that state 0 of `def` needs is taken from
/// `roll_low(def)..roll_high(def)`.
pub open spec fn roll_low(def: AnimationDefinition) -> usize {
    match def {
        AnimationDefinition::Blink => 16,
        AnimationDefinition::Talk => 3,
        _ => 0,
    }
}

pub open spec fn roll_high(def: AnimationDefinition) -> usize {
    match def {
        AnimationDefinition::Blink => 32,
        AnimationDefinition::Talk => 10,
        _ => 1,
    }
}

/// The frame to show and the next state, from `state`, with `count`
/// frames, where `roll` is the random draw (used by state 0 of `Blink` and
/// `Talk` only).
pub open spec fn step_spec(def: AnimationDefinition, state: usize, count: usize, roll: usize) -> (
    usize,
    usize,
) {
    match def {
        AnimationDefinition::Simple => {
            let f = ((state + 1) % (count as int)) as usize;
            (f, f)
        },
        AnimationDefinition::Progression(t) => (t@[state as int], t@[state as int]),
        AnimationDefinition::WithState(t) => t@[state as int],
        AnimationDefinition::Blink => if state == 0 {
            (2, roll)
        } else if state == 1 {
            (1, 0)
        } else {
            (0, (state - 1) as usize)
        },
        AnimationDefinition::Talk => if state == 0 {
            (1, roll)
        } else if state == 1 {
            (0, 0)
        } else if state == 2 {
            (1, 1)
        } else {
            (2, (state - 3) as usize)
        },
    }
}

/// One step of an animation: the frame to show and the next state.
pub fn step_frame(def: &AnimationDefinition, state: usize, count: usize, roll: usize) -> (r: (
    usize,
    usize,
))
    requires
        fits(*def, count as nat, state),
    ensures
        r == step_spec(*def, state, count, roll),
{
    match def {
        AnimationDefinition::Simple => {
            let f = (state + 1) % count;
            (f, f)
        },
        AnimationDefinition::Progression(t) => (t[state], t[state]),
        AnimationDefinition::WithState(t) => t[state],
        AnimationDefinition::Blink => {
            if state == 0 {
                (2, roll)
            } else if state == 1 {
                (1, 0)
            } else {
                (0, state - 1)
            }
        },
        AnimationDefinition::Talk => {
            if state == 0 {
                (1, roll)
            } else if state == 1 {
                (0, 0)
            } else if state == 2 {
                (1, 1)
            } else {
                (2, state - 3)
            }
        },
    }
}

/// `a` and `b` are the same kind with the same table.
pub open spec fn same_definition(a: AnimationDefinition, b: AnimationDefinition) -> bool {
    match (a, b) {
        (AnimationDefinition::Simple, AnimationDefinition::Simple) => true,
        (AnimationDefinition::Blink, AnimationDefinition::Blink) => true,
        (AnimationDefinition::Talk, AnimationDefinition::Talk) => true,
        (AnimationDefinition::Progression(x), AnimationDefinition::Progression(y)) => x@ == y@,
        (AnimationDefinition::WithState(x), AnimationDefinition::WithState(y)) => x@ == y@,
        _ => false,
    }
}

/// A copy of an animation kind.
fn copy_definition(d: &AnimationDefinition) -> (r: AnimationDefinition)
    ensures
        same_definition(r, *d),
        forall|n: nat, st: usize| #[trigger] fits(r, n, st) == fits(*d, n, st),
        forall|st: usize, c: usize, roll: usize| #[trigger]
            step_spec(r, st, c, roll) == step_spec(*d, st, c, roll),
        draws(r, 0) == draws(*d, 0),
{
    match d {
        AnimationDefinition::Simple => AnimationDefinition::Simple,
        AnimationDefinition::Blink => AnimationDefinition::Blink,
        AnimationDefinition::Talk => AnimationDefinition::Talk,
        AnimationDefinition::Progression(t) => {
            let mut r: Vec<usize> = Vec::new();
            let mut k: usize = 0;
            while k < t.len()
                invariant
                    k <= t@.len(),
                    r@ == t@.take(k as int),
                decreases t@.len() - k,
            {
                r.push(t[k]);
                k = k + 1;
                proof {
                    assert(r@ =~= t@.take(k as int));
                }
            }
            proof {
                assert(t@.take(k as int) =~= t@);
            }
            AnimationDefinition::Progression(r)
        },
        AnimationDefinition::WithState(t) => {
            let mut r: Vec<(usize, usize)> = Vec::new();
            let mut k: usize = 0;
            while k < t.len()
                invariant
                    k <= t@.len(),
                    r@ == t@.take(k as int),
                decreases t@.len() - k,
            {
                r.push(t[k]);
                k = k + 1;
                proof {
                    assert(r@ =~= t@.take(k as int));
                }
            }
            proof {
                assert(t@.take(k as int) =~= t@);
            }
            AnimationDefinition::WithState(r)
        },
    }
}

/// Relies on `rand::thread_rng` and `rand::Rng::gen_range`: a number drawn
/// from `low..high`. `gen_range` panics on an empty range, which `requires`
/// leaves out.
#[verifier::external_body]
fn random_in(low: usize, high: usize) -> (r: usize)
    requires
        low < high,
    ensures
        low <= r < high,
{
    rand::thread_rng().gen_range(low..high)
}

/// A copy of a list of frames.
fn copy_frames(v: &Vec<u32>) -> (r: Vec<u32>)
    ensures
        r@ == v@,
{
    let mut r: Vec<u32> = Vec::new();
    let mut k: usize = 0;
    while k < v.len()
        invariant
            k <= v@.len(),
            r@ == v@.take(k as int),
        decreases v@.len() - k,
    {
        r.push(v[k]);
        k = k + 1;
        proof {
            assert(r@ =~= v@.take(k as int));
        }
    }
    proof {
        assert(v@.take(k as int) =~= v@);
    }
    r
}

/// An animation being played: its kind, the sprite indices of its frames,
/// and its state.
pub struct Animation {
    pub definition: AnimationDefinition,
    pub frames: Vec<u32>,
    pub state: usize,
}

impl Animation {
    /// Its state is one its kind can be at, with its frames.
    pub open spec fn wf(&self) -> bool {
        fits(self.definition, self.frames@.len(), self.state)
    }

    /// The animation at its first state.
    pub fn new(definition: AnimationDefinition, frames: Vec<u32>) -> (a: Animation)
        requires
            fits(definition, frames@.len(), 0),
        ensures
            a.wf(),
            a.definition == definition,
            a.frames@ == frames@,
            a.state == 0,
    {
        Animation { definition, frames, state: 0 }
    }

    /// Advances one step with `roll` as the random draw; returns the sprite
    /// index of the frame to show.
    pub fn advance_with(&mut self, roll: usize) -> (index: u32)
        requires
            old(self).wf(),
            draws(old(self).definition, old(self).state) ==> roll_low(old(self).definition) <= roll
                < roll_high(old(self).definition),
        ensures
            final(self).wf(),
            final(self).definition == old(self).definition,
            final(self).frames@ == old(self).frames@,
            ({
                let (f, s) = step_spec(
                    old(self).definition,
                    old(self).state,
                    old(self).frames@.len() as usize,
                    roll,
                );
                final(self).state == s && index == old(self).frames@[f as int]
            }),
    {
        let (f, s) = step_frame(&self.definition, self.state, self.frames.len(), roll);
        proof {
            if self.definition is Progression {
                let t = self.definition->Progression_0;
                assert(t@[self.state as int] < self.frames@.len());
            } else if self.definition is WithState {
                let t = self.definition->WithState_0;
                assert(t@[self.state as int].0 < self.frames@.len());
            }
        }
        self.state = s;
        self.frames[f]
    }

    /// Advances one step, drawing at random where the kind asks for it;
    /// returns the sprite index of the frame to show.
    pub fn advance(&mut self) -> (index: u32)
        requires
            old(self).wf(),
        ensures
            final(self).wf(),
            final(self).definition == old(self).definition,
            final(self).frames@ == old(self).frames@,
            exists|roll: usize|
                roll_low(old(self).definition) <= roll < roll_high(old(self).definition) && ({
                    let (f, s) = #[trigger] step_spec(
                        old(self).definition,
                        old(self).state,
                        old(self).frames@.len() as usize,
                        roll,
                    );
                    final(self).state == s && index == old(self).frames@[f as int]
                }),
    {
        let roll = if self.state == 0 {
            match self.definition {
                AnimationDefinition::Blink => random_in(16, 32),
                AnimationDefinition::Talk => random_in(3, 10),
                _ => 0,
            }
        } else {
            match self.definition {
                AnimationDefinition::Blink => 16,
                AnimationDefinition::Talk => 3,
                _ => 0,
            }
        };
        self.advance_with(roll)
    }
}

/// The animations of one sprite: the one it falls back to, the ones that
/// start by name, and the name of the one playing, if any. Where two
/// entries share a name, the first one counts.
pub struct Transitions {
    pub default: (AnimationDefinition, Vec<u32>),
    pub animations: Vec<(String, AnimationDefinition, Vec<u32>)>,
    pub current: Option<String>,
}

/// Entry `k` is the first of `entries` named `label`.
pub open spec fn first_named(
    entries: Seq<(String, AnimationDefinition, Vec<u32>)>,
    label: Seq<char>,
    k: int,
) -> bool {
    &&& 0 <= k < entries.len()
    &&& entries[k].0@ == label
    &&& forall|m: int| 0 <= m < k ==> (#[trigger] entries[m]).0@ != label
}

impl Transitions {
    /// The animation playing is named `label`.
    pub open spec fn playing(&self, label: Seq<char>) -> bool {
        self.current is Some && self.current.unwrap()@ == label
    }

    /// Every animation it can switch to can start with its frames.
    pub open spec fn wf(&self) -> bool {
        &&& fits(self.default.0, self.default.1@.len(), 0)
        &&& forall|k: int|
            0 <= k < self.animations@.len() ==> fits(
                (#[trigger] self.animations@[k]).1,
                self.animations@[k].2@.len(),
                0,
            )
    }

    /// The animation named `label` starts, unless it is already playing or
    /// no entry has that name. Returns the animation to play from now on.
    pub fn start(&mut self, label: &String) -> (r: Option<Animation>)
        requires
            old(self).wf(),
        ensures
            final(self).wf(),
            final(self).default == old(self).default,
            final(self).animations@ == old(self).animations@,
            if !old(self).playing(label@) && exists|k: int|
                first_named(old(self).animations@, label@, k) {
                forall|k: int|
                    #[trigger] first_named(old(self).animations@, label@, k) ==> {
                        &&& r is Some
                        &&& r.unwrap().wf()
                        &&& same_definition(r.unwrap().definition, old(self).animations@[k].1)
                        &&& r.unwrap().frames@ == old(self).animations@[k].2@
                        &&& r.unwrap().state == 0
                        &&& final(self).playing(label@)
                    }
            } else {
                r is None && final(self).current == old(self).current
            },
    {
        if let Some(cur) = &self.current {
            if cur.eq(label) {
                return None;
            }
        }
        let mut k: usize = 0;
        while k < self.animations.len()
            invariant
                k <= self.animations@.len(),
                self.wf(),
                self.animations@ == old(self).animations@,
                self.default == old(self).default,
                self.current == old(self).current,
                !old(self).playing(label@),
                forall|m: int| 0 <= m < k ==> (#[trigger] self.animations@[m]).0@ != label@,
            decreases self.animations@.len() - k,
        {
            if self.animations[k].0.eq(label) {
                let anim = Animation::new(
                    copy_definition(&self.animations[k].1),
                    copy_frames(&self.animations[k].2),
                );
                self.current = Some(label.clone());
                proof {
                    assert(first_named(old(self).animations@, label@, k as int));
                    assert forall|j: int| #[trigger]
                        first_named(old(self).animations@, label@, j) implies j == k by {
                        if j < k {
                            assert(self.animations@[j].0@ != label@);
                        } else if j > k {
                            assert(old(self).animations@[k as int].0@ != label@);
                        }
                    }
                }
                return Some(anim);
            }
            k = k + 1;
        }
        None
    }

    /// If the animation playing is named `label`, the sprite falls back to
    /// its default animation. Returns the animation to play from now on.
    pub fn end(&mut self, label: &String) -> (r: Option<Animation>)
        requires
            old(self).wf(),
        ensures
            final(self).wf(),
            final(self).default == old(self).default,
            final(self).animations@ == old(self).animations@,
            if old(self).playing(label@) {
                &&& r is Some
                &&& r.unwrap().wf()
                &&& same_definition(r.unwrap().definition, old(self).default.0)
                &&& r.unwrap().frames@ == old(self).default.1@
                &&& r.unwrap().state == 0
                &&& final(self).current is None
            } else {
                r is None && final(self).current == old(self).current
            },
    {
        let playing = match &self.current {
            Some(cur) => cur.eq(label),
            None => false,
        };
        if playing {
            self.current = None;
            Some(Animation::new(copy_definition(&self.default.0), copy_frames(&self.default.1)))
        } else {
            None
        }
    }
}

/// The parts of an animated sprite: its transitions, none playing, and its
/// default animation at its first state.
pub fn animation_bundle(
    default: (AnimationDefinition, Vec<u32>),
    animations: Vec<(String, AnimationDefinition, Vec<u32>)>,
) -> (r: (Transitions, Animation))
    requires
        fits(default.0, default.1@.len(), 0),
        forall|k: int|
            0 <= k < animations@.len() ==> fits(
                (#[trigger] animations@[k]).1,
                animations@[k].2@.len(),
                0,
            ),
    ensures
        r.0.wf(),
        r.0.default.0 == default.0,
        r.0.default.1@ == default.1@,
        r.0.animations@ == animations@,
        r.0.current is None,
        r.1.wf(),
        same_definition(r.1.definition, default.0),
        r.1.frames@ == default.1@,
        r.1.state == 0,
{
    let frames = copy_frames(&default.1);
    let anim = Animation::new(copy_definition(&default.0), frames);
    (Transitions { default, animations, current: None }, anim)
}

} // verus!
