use vstd::prelude::*;

use crate::audio::{Channel, PlayAudioEvent, StopAudioEvent};
use crate::ghost::GhostInteractionEvent;
use crate::question_display::{ClearQuestionEvent, SetQuestionEvent};
use crate::concepts::lemma_wf_activation_only;
use crate::world::{history_ok, Entity, World};

verus! {

/// One beat of narration, with the conditions under which it may be said
/// and what saying it does. Ids refer to entities of the `World`; times are
/// nanoseconds.
pub struct Line {
    pub text: String,
    pub priority: i32,
    pub duration: u64,
    pub audio: Option<String>,
    pub music: Option<String>,
    pub stop_audio: bool,
    pub stop_music: bool,
    pub repeatable: bool,
    pub responds_to_concepts: Vec<usize>,
    pub groups: Vec<usize>,
    pub animations: Vec<String>,
    pub question: Option<String>,
    pub clear_question: bool,
    pub starts_animations: Vec<String>,
    pub ends_animations: Vec<String>,
    pub requires_concepts: Vec<usize>,
    pub consumes_concepts: Vec<usize>,
    pub requires_any_concept: bool,
    pub consumes_all_concepts: bool,
    pub requires_spoken: Vec<usize>,
    pub conflicts_spoken: Vec<usize>,
}

/// Three seconds, in nanoseconds.
pub const DEFAULT_LINE_DURATION: u64 = 3_000_000_000;

impl Default for Line {
    /// An empty, non-repeatable line of priority 0 lasting three seconds,
    /// with no conditions and no effects.
    fn default() -> (l: Line)
        ensures
            l.text@.len() == 0,
            l.priority == 0,
            l.duration == DEFAULT_LINE_DURATION,
            l.audio is None,
            l.music is None,
            !l.stop_audio,
            !l.stop_music,
            !l.repeatable,
            l.responds_to_concepts@.len() == 0,
            l.groups@.len() == 0,
            l.animations@.len() == 0,
            l.question is None,
            !l.clear_question,
            l.starts_animations@.len() == 0,
            l.ends_animations@.len() == 0,
            l.requires_concepts@.len() == 0,
            l.consumes_concepts@.len() == 0,
            !l.requires_any_concept,
            !l.consumes_all_concepts,
            l.requires_spoken@.len() == 0,
            l.conflicts_spoken@.len() == 0,
    {
        Line {
            text: String::new(),
            priority: 0,
            duration: DEFAULT_LINE_DURATION,
            audio: None,
            music: None,
            stop_audio: false,
            stop_music: false,
            repeatable: false,
            responds_to_concepts: Vec::new(),
            groups: Vec::new(),
            animations: Vec::new(),
            question: None,
            clear_question: false,
            starts_animations: Vec::new(),
            ends_animations: Vec::new(),
            requires_concepts: Vec::new(),
            consumes_concepts: Vec::new(),
            requires_any_concept: false,
            consumes_all_concepts: false,
            requires_spoken: Vec::new(),
            conflicts_spoken: Vec::new(),
        }
    }
}

/// The times at which a line or a group was spoken, oldest first. Empty
/// means never spoken.
pub struct Spoken(pub Vec<u64>);

/// Marks the line that holds the single speaking slot.
#[derive(Clone, Copy, Debug, PartialEq, Eq, Structural)]
pub struct Speaking;

/// Asks the animation collaborator to start the animation of this name.
#[derive(Clone, Debug)]
pub struct AnimationStartEvent(pub String);

/// Asks the animation collaborator to end the animation of this name.
#[derive(Clone, Debug)]
pub struct AnimationEndEvent(pub String);

/// What a tick of the story asks of the collaborators, in order.
#[derive(Clone, Debug)]
pub enum Effect {
    PlayAudio(PlayAudioEvent),
    StopAudio(StopAudioEvent),
    AnimationStart(AnimationStartEvent),
    AnimationEnd(AnimationEndEvent),
    SetQuestion(SetQuestionEvent),
    ClearQuestion(ClearQuestionEvent),
}


/// How many times the history of `j` is stamped when line `i`, with
/// groups `groups`, is said: once if it is the line or one of its groups,
/// else not at all.
pub open spec fn stamp_count(groups: Seq<usize>, i: int, j: int) -> nat {
    if j == i || groups.contains(j as usize) {
        1
    } else {
        0
    }
}

/// Requests to start each named animation, in order.
pub open spec fn start_names(names: Seq<String>) -> Seq<Effect> {
    names.map_values(|a: String| Effect::AnimationStart(AnimationStartEvent(a)))
}

/// Requests to end each named animation, in order.
pub open spec fn end_names(names: Seq<String>) -> Seq<Effect> {
    names.map_values(|a: String| Effect::AnimationEnd(AnimationEndEvent(a)))
}

pub open spec fn effect_if(b: bool, e: Effect) -> Seq<Effect> {
    if b {
        seq![e]
    } else {
        Seq::empty()
    }
}

pub open spec fn play_on(channel: Channel, clip: Option<String>) -> Seq<Effect> {
    match clip {
        Some(c) => seq![Effect::PlayAudio(PlayAudioEvent { channel: channel, clip: c })],
        None => Seq::empty(),
    }
}

/// What saying `l` asks of the collaborators: dialogue audio, music, the
/// two stops, the animations to start, then the question to show.
pub open spec fn start_effects(l: Line) -> Seq<Effect> {
    play_on(Channel::Dialogue, l.audio) + play_on(Channel::Music, l.music) + effect_if(
        l.stop_audio,
        Effect::StopAudio(StopAudioEvent { channel: Channel::Dialogue }),
    ) + effect_if(l.stop_music, Effect::StopAudio(StopAudioEvent { channel: Channel::Music }))
        + start_names(l.animations@) + start_names(l.starts_animations@) + match l.question {
        Some(q) => seq![Effect::SetQuestion(SetQuestionEvent(q))],
        None => Seq::empty(),
    }
}

/// What the end of `l` asks of the collaborators: the animations to end,
/// then hiding the question.
pub open spec fn end_effects(l: Line) -> Seq<Effect> {
    end_names(l.animations@) + end_names(l.ends_animations@) + effect_if(
        l.clear_question,
        Effect::ClearQuestion(ClearQuestionEvent),
    )
}

/// The times appended to a history when `now` is stamped `n` times.
pub open spec fn stamps(n: nat, now: u64) -> Seq<u64> {
    Seq::new(n, |_k: int| now)
}

impl World {
    pub open spec fn line_of(&self, i: int) -> Line {
        self.entities@[i].line.unwrap()
    }

    pub open spec fn all_active(&self, ids: Seq<usize>) -> bool {
        forall|k: int| 0 <= k < ids.len() ==> self.active(#[trigger] ids[k] as int)
    }

    pub open spec fn all_spoken(&self, ids: Seq<usize>) -> bool {
        forall|k: int| 0 <= k < ids.len() ==> self.has_spoken(#[trigger] ids[k] as int)
    }

    pub open spec fn none_spoken(&self, ids: Seq<usize>) -> bool {
        forall|k: int| 0 <= k < ids.len() ==> !self.has_spoken(#[trigger] ids[k] as int)
    }

    /// `c` was spoken recently enough for a line lasting `duration` to
    /// answer it at `now`: within half of that duration.
    pub open spec fn fresh(&self, c: int, duration: u64, now: u64) -> bool {
        self.has_spoken(c) && now < self.latest(c) + duration / 2
    }

    pub open spec fn all_fresh(&self, ids: Seq<usize>, duration: u64, now: u64) -> bool {
        forall|k: int| 0 <= k < ids.len() ==> self.fresh(#[trigger] ids[k] as int, duration, now)
    }

    /// Line `i` may be said at `now`.
    pub open spec fn eligible(&self, i: int, now: u64) -> bool {
        &&& 0 <= i < self.size()
        &&& self.entities@[i].line is Some
        &&& self.all_active(self.line_of(i).requires_concepts@)
        &&& self.all_active(self.line_of(i).responds_to_concepts@)
        &&& (self.line_of(i).requires_any_concept ==> self.any_active())
        &&& self.all_fresh(self.line_of(i).responds_to_concepts@, self.line_of(i).duration, now)
        &&& (!self.line_of(i).repeatable ==> !self.has_spoken(i))
        &&& self.all_spoken(self.line_of(i).requires_spoken@)
        &&& self.none_spoken(self.line_of(i).conflicts_spoken@)
    }

    pub open spec fn priority_of(&self, i: int) -> i32 {
        self.line_of(i).priority
    }

    /// Line `i` is the one to say at `now`: eligible, of the highest
    /// priority, and the last such line in id order.
    pub open spec fn is_choice(&self, i: int, now: u64) -> bool {
        &&& self.eligible(i, now)
        &&& forall|j: int| #[trigger]
            self.eligible(j, now) ==> self.priority_of(j) <= self.priority_of(i)
        &&& forall|j: int| i < j && #[trigger] self.eligible(j, now) ==> self.priority_of(j) < self.priority_of(i)
    }

    /// The line `s` has run its course at `now`.
    pub open spec fn finished(&self, s: int, now: u64) -> bool {
        now > self.latest(s) + self.line_of(s).duration
    }

    /// Nothing changed but the clock.
    pub open spec fn stayed(&self, new: World, now: u64) -> bool {
        new.entities@ == self.entities@ && new.clock == now
    }

    /// `s` gave up the speaking slot and nothing else changed.
    pub open spec fn ended(&self, new: World, s: int, now: u64) -> bool {
        &&& new.clock == now
        &&& new.entities@ == self.entities@.update(
            s,
            (Entity { speaking: None, ..self.entities@[s] }),
        )
    }

    /// Line `i` was said at `now`: it and each of its groups got `now` in
    /// their history (once per mention), it took the speaking slot, and the
    /// concepts it consumes were deactivated.
    pub open spec fn started(&self, new: World, i: int, now: u64) -> bool {
        &&& new.clock == now
        &&& new.size() == self.size()
        &&& forall|j: int|
            0 <= j < self.size() ==> {
                let o = #[trigger] self.entities@[j];
                let n = new.entities@[j];
                let l = self.line_of(i);
                &&& n.concept == o.concept
                &&& n.evokes == o.evokes
                &&& n.clears == o.clears
                &&& n.line == o.line
                &&& n.link == o.link
                &&& n.spoken.0@ == o.spoken.0@ + stamps(stamp_count(l.groups@, i, j), now)
                &&& n.speaking == (if j == i {
                    Some(Speaking)
                } else {
                    o.speaking
                })
                &&& n.evoked == (if l.consumes_all_concepts || l.consumes_concepts@.contains(
                    j as usize,
                ) {
                    None
                } else {
                    o.evoked
                })
            }
    }

    /// One step of narration at `now`, from `self` to `new`, asking
    /// `effects` of the collaborators. A speaking line ends once its
    /// duration has passed, and nothing else happens in that step; with no
    /// speaking line, the chosen line (if any) is said.
    pub open spec fn progressed(&self, new: World, now: u64, effects: Seq<Effect>) -> bool {
        if exists|s: int| self.is_speaking(s) {
            forall|s: int| #[trigger]
                self.is_speaking(s) ==> if self.finished(s, now) {
                    self.ended(new, s, now) && effects == end_effects(self.line_of(s))
                } else {
                    self.stayed(new, now) && effects.len() == 0
                }
        } else if exists|i: int| self.is_choice(i, now) {
            forall|i: int| #[trigger]
                self.is_choice(i, now) ==> self.started(new, i, now) && effects == start_effects(
                    self.line_of(i),
                )
        } else {
            self.stayed(new, now) && effects.len() == 0
        }
    }
}


/// A copy of a list of ids.
/// Whether `x` is among the first `k` ids of `ids`.
fn listed_before(ids: &Vec<usize>, k: usize, x: usize) -> (r: bool)
    requires
        k <= ids@.len(),
    ensures
        r == ids@.take(k as int).contains(x),
{
    let mut m: usize = 0;
    while m < k
        invariant
            m <= k,
            k <= ids@.len(),
            forall|a: int| 0 <= a < m ==> ids@[a] != x,
        decreases k - m,
    {
        if ids[m] == x {
            assert(ids@.take(k as int)[m as int] == x);
            return true;
        }
        m = m + 1;
    }
    proof {
        if ids@.take(k as int).contains(x) {
            let a = choose|a: int| 0 <= a < k && ids@.take(k as int)[a] == x;
            assert(ids@[a] == x);
        }
    }
    false
}

pub(crate) fn copy_ids(v: &Vec<usize>) -> (r: Vec<usize>)
    ensures
        r@ == v@,
{
    let mut r: Vec<usize> = Vec::new();
    let mut k: usize = 0;
    while k < v.len()
        invariant
            k <= v@.len(),
            r@ == v@.take(k as int),
        decreases v@.len() - k,
    {
        r.push(v[k]);
        k = k + 1;
        proof {
            assert(r@ =~= v@.take(k as int));
        }
    }
    proof {
        assert(v@.take(k as int) =~= v@);
    }
    r
}

fn push_starts(out: &mut Vec<Effect>, names: &Vec<String>)
    ensures
        final(out)@ == old(out)@ + start_names(names@),
{
    let ghost base = out@;
    let mut k: usize = 0;
    while k < names.len()
        invariant
            k <= names@.len(),
            out@ == base + start_names(names@.take(k as int)),
        decreases names@.len() - k,
    {
        out.push(Effect::AnimationStart(AnimationStartEvent(names[k].clone())));
        k = k + 1;
        proof {
            assert(start_names(names@.take(k as int)) =~= start_names(names@.take(k - 1)).push(
                Effect::AnimationStart(AnimationStartEvent(names@[k - 1])),
            ));
            assert(out@ =~= base + start_names(names@.take(k as int)));
        }
    }
    proof {
        assert(names@.take(k as int) =~= names@);
    }
}

fn push_ends(out: &mut Vec<Effect>, names: &Vec<String>)
    ensures
        final(out)@ == old(out)@ + end_names(names@),
{
    let ghost base = out@;
    let mut k: usize = 0;
    while k < names.len()
        invariant
            k <= names@.len(),
            out@ == base + end_names(names@.take(k as int)),
        decreases names@.len() - k,
    {
        out.push(Effect::AnimationEnd(AnimationEndEvent(names[k].clone())));
        k = k + 1;
        proof {
            assert(end_names(names@.take(k as int)) =~= end_names(names@.take(k - 1)).push(
                Effect::AnimationEnd(AnimationEndEvent(names@[k - 1])),
            ));
            assert(out@ =~= base + end_names(names@.take(k as int)));
        }
    }
    proof {
        assert(names@.take(k as int) =~= names@);
    }
}

/// What saying `l` asks of the collaborators.
fn effects_at_start(l: &Line) -> (r: Vec<Effect>)
    ensures
        r@ == start_effects(*l),
{
    let mut r: Vec<Effect> = Vec::new();
    if let Some(clip) = &l.audio {
        r.push(Effect::PlayAudio(PlayAudioEvent { channel: Channel::Dialogue, clip: clip.clone() }));
    }
    if let Some(clip) = &l.music {
        r.push(Effect::PlayAudio(PlayAudioEvent { channel: Channel::Music, clip: clip.clone() }));
    }
    if l.stop_audio {
        r.push(Effect::StopAudio(StopAudioEvent { channel: Channel::Dialogue }));
    }
    if l.stop_music {
        r.push(Effect::StopAudio(StopAudioEvent { channel: Channel::Music }));
    }
    let ghost before = r@;
    proof {
        assert(before =~= play_on(Channel::Dialogue, l.audio) + play_on(Channel::Music, l.music)
            + effect_if(l.stop_audio, Effect::StopAudio(StopAudioEvent { channel: Channel::Dialogue }))
            + effect_if(l.stop_music, Effect::StopAudio(StopAudioEvent { channel: Channel::Music })));
    }
    push_starts(&mut r, &l.animations);
    push_starts(&mut r, &l.starts_animations);
    if let Some(q) = &l.question {
        r.push(Effect::SetQuestion(SetQuestionEvent(q.clone())));
    }
    proof {
        assert(r@ =~= start_effects(*l));
    }
    r
}

/// What the end of `l` asks of the collaborators.
fn effects_at_end(l: &Line) -> (r: Vec<Effect>)
    ensures
        r@ == end_effects(*l),
{
    let mut r: Vec<Effect> = Vec::new();
    push_ends(&mut r, &l.animations);
    push_ends(&mut r, &l.ends_animations);
    if l.clear_question {
        r.push(Effect::ClearQuestion(ClearQuestionEvent));
    }
    proof {
        assert(r@ =~= end_effects(*l));
    }
    r
}


impl World {
    /// Whether some entity is evoked.
    pub fn any_evoked(&self) -> (r: bool)
        ensures
            r == self.any_active(),
    {
        let mut i: usize = 0;
        while i < self.entities.len()
            invariant
                i <= self.size(),
                forall|j: int| 0 <= j < i ==> !self.active(j),
            decreases self.size() - i,
        {
            if self.entities[i].evoked.is_some() {
                assert(self.active(i as int));
                return true;
            }
            i = i + 1;
        }
        false
    }

    fn ids_active(&self, ids: &Vec<usize>) -> (r: bool)
        ensures
            r == self.all_active(ids@),
    {
        let mut k: usize = 0;
        while k < ids.len()
            invariant
                k <= ids@.len(),
                forall|m: int| 0 <= m < k ==> self.active(#[trigger] ids@[m] as int),
            decreases ids@.len() - k,
        {
            let c = ids[k];
            if !(c < self.entities.len() && self.entities[c].evoked.is_some()) {
                assert(!self.active(ids@[k as int] as int));
                return false;
            }
            k = k + 1;
        }
        true
    }

    fn ids_spoken(&self, ids: &Vec<usize>) -> (r: bool)
        ensures
            r == self.all_spoken(ids@),
    {
        let mut k: usize = 0;
        while k < ids.len()
            invariant
                k <= ids@.len(),
                forall|m: int| 0 <= m < k ==> self.has_spoken(#[trigger] ids@[m] as int),
            decreases ids@.len() - k,
        {
            let c = ids[k];
            if !(c < self.entities.len() && self.entities[c].spoken.0.len() > 0) {
                assert(!self.has_spoken(ids@[k as int] as int));
                return false;
            }
            k = k + 1;
        }
        true
    }

    fn ids_unspoken(&self, ids: &Vec<usize>) -> (r: bool)
        ensures
            r == self.none_spoken(ids@),
    {
        let mut k: usize = 0;
        while k < ids.len()
            invariant
                k <= ids@.len(),
                forall|m: int| 0 <= m < k ==> !self.has_spoken(#[trigger] ids@[m] as int),
            decreases ids@.len() - k,
        {
            let c = ids[k];
            if c < self.entities.len() && self.entities[c].spoken.0.len() > 0 {
                assert(self.has_spoken(ids@[k as int] as int));
                return false;
            }
            k = k + 1;
        }
        true
    }

    /// The most recent time `id` was spoken, if ever.
    fn latest_spoken(&self, id: usize) -> (r: Option<u64>)
        ensures
            r == (if self.has_spoken(id as int) {
                Some(self.latest(id as int))
            } else {
                None
            }),
    {
        if id < self.entities.len() {
            let h = &self.entities[id].spoken.0;
            if h.len() > 0 {
                Some(h[h.len() - 1])
            } else {
                None
            }
        } else {
            None
        }
    }

    fn ids_fresh(&self, ids: &Vec<usize>, duration: u64, now: u64) -> (r: bool)
        ensures
            r == self.all_fresh(ids@, duration, now),
    {
        let mut k: usize = 0;
        while k < ids.len()
            invariant
                k <= ids@.len(),
                forall|m: int| 0 <= m < k ==> self.fresh(#[trigger] ids@[m] as int, duration, now),
            decreases ids@.len() - k,
        {
            let ok = match self.latest_spoken(ids[k]) {
                Some(t) => (now as u128) < (t as u128) + ((duration / 2) as u128),
                None => false,
            };
            if !ok {
                assert(!self.fresh(ids@[k as int] as int, duration, now));
                return false;
            }
            k = k + 1;
        }
        true
    }

    /// Whether line `i` may be said at `now`; `any` tells whether some
    /// entity is evoked.
    fn line_eligible(&self, i: usize, now: u64, any: bool) -> (r: bool)
        requires
            i < self.size(),
            any == self.any_active(),
        ensures
            r == self.eligible(i as int, now),
    {
        match &self.entities[i].line {
            None => false,
            Some(l) => {
                self.ids_active(&l.requires_concepts) && self.ids_active(&l.responds_to_concepts) && (
                !l.requires_any_concept || any) && self.ids_fresh(
                    &l.responds_to_concepts,
                    l.duration,
                    now,
                ) && (l.repeatable || self.entities[i].spoken.0.len() == 0) && self.ids_spoken(
                    &l.requires_spoken,
                ) && self.ids_unspoken(&l.conflicts_spoken)
            },
        }
    }

    /// The line to say at `now`, if any is eligible.
    pub fn choose_line(&self, now: u64) -> (r: Option<usize>)
        ensures
            match r {
                Some(i) => self.is_choice(i as int, now),
                None => forall|j: int| !self.eligible(j, now),
            },
    {
        let any = self.any_evoked();
        let mut best: Option<usize> = None;
        let mut best_priority: i32 = 0;
        let mut i: usize = 0;
        while i < self.entities.len()
            invariant
                i <= self.size(),
                any == self.any_active(),
                match best {
                    Some(b) => {
                        &&& b < i
                        &&& self.eligible(b as int, now)
                        &&& best_priority == self.priority_of(b as int)
                        &&& forall|j: int|
                            0 <= j < i && #[trigger] self.eligible(j, now) ==> self.priority_of(j)
                                <= best_priority
                        &&& forall|j: int|
                            b < j < i && #[trigger] self.eligible(j, now) ==> self.priority_of(j)
                                < best_priority
                    },
                    None => forall|j: int| 0 <= j < i ==> !#[trigger] self.eligible(j, now),
                },
            decreases self.size() - i,
        {
            if self.line_eligible(i, now, any) {
                let p = match &self.entities[i].line {
                    Some(l) => l.priority,
                    None => 0,
                };
                let take = match best {
                    None => true,
                    Some(_) => p >= best_priority,
                };
                if take {
                    best = Some(i);
                    best_priority = p;
                }
            }
            i = i + 1;
        }
        best
    }
}


proof fn lemma_stamps_push(n: nat, now: u64)
    ensures
        stamps(n + 1, now) == stamps(n, now).push(now),
{
    assert(stamps(n + 1, now) =~= stamps(n, now).push(now));
}

proof fn lemma_history_stamps(h: Seq<u64>, n: nat, clock: u64, now: u64)
    requires
        history_ok(h, clock),
        clock <= now,
    ensures
        history_ok(h + stamps(n, now), now),
{
    let g = h + stamps(n, now);
    assert forall|a: int, b: int| 0 <= a <= b < g.len() implies g[a] <= g[b] by {
        if b >= h.len() {
            assert(g[b] == now);
            if a < h.len() {
                assert(g[a] == h[a]);
            }
        } else {
            assert(g[a] == h[a] && g[b] == h[b]);
        }
    }
    assert forall|a: int| 0 <= a < g.len() implies g[a] <= now by {
        if a < h.len() {
            assert(g[a] == h[a]);
        }
    }
}

proof fn lemma_history_later(h: Seq<u64>, clock: u64, now: u64)
    requires
        history_ok(h, clock),
        clock <= now,
    ensures
        history_ok(h, now),
{
}

impl World {
    /// Says line `i` at `now`: stamps it and its groups, gives it the
    /// speaking slot, and deactivates what it consumes.
    fn start_line(&mut self, i: usize, now: u64)
        requires
            old(self).wf(),
            old(self).clock <= now,
            i < old(self).size(),
            old(self).entities@[i as int].line is Some,
            forall|j: int| !old(self).is_speaking(j),
        ensures
            final(self).wf(),
            old(self).started(*final(self), i as int, now),
    {
        let ghost o = self.entities@;
        let ghost l = old(self).line_of(i as int);
        let (groups, consumes, consume_all) = match &self.entities[i].line {
            Some(line) => (
                copy_ids(&line.groups),
                copy_ids(&line.consumes_concepts),
                line.consumes_all_concepts,
            ),
            None => (Vec::new(), Vec::new(), false),
        };
        self.entities[i].spoken.0.push(now);
        self.entities[i].speaking = Some(Speaking);
        proof {
            assert(groups@.take(0) =~= Seq::<usize>::empty());
            assert forall|j: int| 0 <= j < o.len() implies #[trigger] self.entities@[j].spoken.0@
                == o[j].spoken.0@ + stamps(stamp_count(groups@.take(0), i as int, j), now) by {
                lemma_stamps_push(0, now);
                assert(stamps(0, now) =~= Seq::<u64>::empty());
                assert(o[j].spoken.0@ + stamps(0, now) =~= o[j].spoken.0@);
            }
        }
        let n_entities = self.entities.len();
        let mut k: usize = 0;
        while k < groups.len()
            invariant
                k <= groups@.len(),
                o.len() == n_entities,
                groups@ == l.groups@,
                self.entities@.len() == o.len(),
                i < o.len(),
                forall|j: int|
                    0 <= j < o.len() ==> {
                        let n = #[trigger] self.entities@[j];
                        &&& n.concept == o[j].concept
                        &&& n.evokes == o[j].evokes
                        &&& n.clears == o[j].clears
                        &&& n.line == o[j].line
                        &&& n.link == o[j].link
                        &&& n.evoked == o[j].evoked
                        &&& n.speaking == (if j == i {
                            Some(Speaking)
                        } else {
                            o[j].speaking
                        })
                        &&& n.spoken.0@ == o[j].spoken.0@ + stamps(
                            stamp_count(groups@.take(k as int), i as int, j),
                            now,
                        )
                    },
            decreases groups@.len() - k,
        {
            let g = groups[k];
            let ghost before = self.entities@;
            let repeated = g == i || listed_before(&groups, k, g);
            if !repeated && g < self.entities.len() {
                self.entities[g].spoken.0.push(now);
            }
            k = k + 1;
            proof {
                assert forall|j: int| 0 <= j < o.len() implies #[trigger] self.entities@[j].spoken.0@
                    == o[j].spoken.0@ + stamps(
                    stamp_count(groups@.take(k as int), i as int, j),
                    now,
                ) by {
                    assert(groups@.take(k as int) =~= groups@.take(k - 1).push(g));
                    assert(groups@.take(k as int).contains(j as usize) == (groups@.take(
                        k - 1,
                    ).contains(j as usize) || j == g as int)) by {
                        if groups@.take(k as int).contains(j as usize) && j != g as int {
                            let x = choose|x: int|
                                0 <= x < k && groups@.take(k as int)[x] == j as usize;
                            assert(groups@.take(k - 1)[x] == j as usize);
                        }
                        if j == g as int {
                            assert(groups@.take(k as int)[k - 1] == g);
                        }
                    }
                    if j == g as int && !repeated {
                        lemma_stamps_push(0, now);
                        assert(stamps(0, now) =~= Seq::<u64>::empty());
                        assert(o[j].spoken.0@ + stamps(1, now) =~= (o[j].spoken.0@ + stamps(
                            0,
                            now,
                        )).push(now));
                    } else {
                        assert(before[j] == self.entities@[j]);
                    }
                }
            }
        }
        proof {
            assert(groups@.take(k as int) =~= groups@);
        }
        let ghost after_groups = self.entities@;
        let mut m: usize = 0;
        while m < consumes.len()
            invariant
                m <= consumes@.len(),
                consumes@ == l.consumes_concepts@,
                self.entities@.len() == o.len(),
                forall|j: int|
                    0 <= j < o.len() ==> {
                        let n = #[trigger] self.entities@[j];
                        let a = after_groups[j];
                        &&& n.concept == a.concept
                        &&& n.evokes == a.evokes
                        &&& n.clears == a.clears
                        &&& n.line == a.line
                        &&& n.link == a.link
                        &&& n.speaking == a.speaking
                        &&& n.spoken == a.spoken
                        &&& n.evoked == (if consumes@.take(m as int).contains(j as usize) {
                            None
                        } else {
                            a.evoked
                        })
                    },
            decreases consumes@.len() - m,
        {
            let c = consumes[m];
            let ghost before = self.entities@;
            if c < self.entities.len() {
                self.entities[c].evoked = None;
            }
            m = m + 1;
            proof {
                assert(consumes@.take(m as int) =~= consumes@.take(m - 1).push(c));
                assert forall|j: int| 0 <= j < o.len() implies #[trigger] self.entities@[j].evoked == (
                if consumes@.take(m as int).contains(j as usize) {
                    None
                } else {
                    after_groups[j].evoked
                }) by {
                    if j != c as int {
                        assert(before[j] == self.entities@[j]);
                        assert(consumes@.take(m as int).contains(j as usize)
                            == consumes@.take(m - 1).contains(j as usize));
                    } else {
                        assert(consumes@.take(m as int)[m - 1] == c);
                    }
                }
            }
        }
        proof {
            assert(consumes@.take(m as int) =~= consumes@);
        }
        if consume_all {
            let ghost after_consumes = self.entities@;
            let mut q: usize = 0;
            while q < self.entities.len()
                invariant
                    q <= self.entities@.len(),
                    self.entities@.len() == o.len(),
                    forall|j: int|
                        0 <= j < o.len() ==> {
                            let n = #[trigger] self.entities@[j];
                            let a = after_consumes[j];
                            &&& n.concept == a.concept
                            &&& n.evokes == a.evokes
                            &&& n.clears == a.clears
                            &&& n.line == a.line
                            &&& n.link == a.link
                            &&& n.speaking == a.speaking
                            &&& n.spoken == a.spoken
                            &&& (j < q ==> n.evoked is None)
                            &&& (j >= q ==> n.evoked == a.evoked)
                        },
                decreases self.entities@.len() - q,
            {
                self.entities[q].evoked = None;
                q = q + 1;
            }
        }
        self.clock = now;
        proof {
            assert forall|j: int| 0 <= j < self.size() implies history_ok(
                #[trigger] self.history(j),
                self.clock,
            ) by {
                assert(old(self).history(j) == o[j].spoken.0@);
                lemma_history_stamps(
                    o[j].spoken.0@,
                    stamp_count(l.groups@, i as int, j),
                    old(self).clock,
                    now,
                );
            }
            assert forall|a: int, b: int| self.is_speaking(a) && self.is_speaking(b) implies a == b by {
                if a != i as int {
                    assert(old(self).is_speaking(a));
                }
                if b != i as int {
                    assert(old(self).is_speaking(b));
                }
            }
            assert forall|a: int| #[trigger] self.is_speaking(a) implies self.entities@[a].line is Some
                && self.has_spoken(a) by {
                if a != i as int {
                    assert(old(self).is_speaking(a));
                } else {
                    assert(self.history(a).len() >= 1);
                }
            }
        }
    }
}


/// Two lines that are both the choice at the same time are the same line.
pub proof fn lemma_choice_unique(w: World, now: u64, a: int, b: int)
    requires
        w.is_choice(a, now),
        w.is_choice(b, now),
    ensures
        a == b,
{
    if a < b {
        assert(w.eligible(b, now));
    } else if b < a {
        assert(w.eligible(a, now));
    }
}

impl World {
    /// Advances the narration to `now`. If a line is speaking, it ends once
    /// `now` is past its last start plus its duration, and no other line
    /// starts in that call. Otherwise the eligible line of highest priority
    /// (the last one in id order among equals) is said.
    pub fn progress_dialogue(&mut self, now: u64) -> (effects: Vec<Effect>)
        requires
            old(self).wf(),
            old(self).clock <= now,
        ensures
            final(self).wf(),
            final(self).clock == now,
            old(self).progressed(*final(self), now, effects@),
    {
        match self.speaking_line() {
            Some(s) => {
                let done = match self.latest_spoken(s) {
                    Some(t) => match &self.entities[s].line {
                        Some(l) => (now as u128) > (t as u128) + (l.duration as u128),
                        None => false,
                    },
                    None => false,
                };
                let ghost o = *self;
                self.clock = now;
                if done {
                    let effects = match &self.entities[s].line {
                        Some(l) => effects_at_end(l),
                        None => Vec::new(),
                    };
                    self.entities[s].speaking = None;
                    proof {
                        assert(self.entities@ =~= o.entities@.update(
                            s as int,
                            (Entity { speaking: None, ..o.entities@[s as int] }),
                        ));
                        assert forall|j: int| 0 <= j < self.size() implies history_ok(
                            #[trigger] self.history(j),
                            self.clock,
                        ) by {
                            assert(self.history(j) == o.history(j));
                            lemma_history_later(o.history(j), o.clock, now);
                        }
                        assert forall|a: int, b: int|
                            self.is_speaking(a) && self.is_speaking(b) implies a == b by {
                            assert(o.is_speaking(a) && o.is_speaking(b));
                        }
                        assert forall|a: int| #[trigger]
                            self.is_speaking(a) implies self.entities@[a].line is Some
                            && self.has_spoken(a) by {
                            assert(o.is_speaking(a));
                            assert(self.history(a) == o.history(a));
                        }
                    }
                    effects
                } else {
                    proof {
                        assert forall|j: int| 0 <= j < self.size() implies history_ok(
                            #[trigger] self.history(j),
                            self.clock,
                        ) by {
                            assert(self.history(j) == o.history(j));
                            lemma_history_later(o.history(j), o.clock, now);
                        }
                        assert forall|a: int| #[trigger]
                            self.is_speaking(a) implies self.entities@[a].line is Some
                            && self.has_spoken(a) by {
                            assert(o.is_speaking(a));
                        }
                        assert forall|a: int, b: int|
                            self.is_speaking(a) && self.is_speaking(b) implies a == b by {
                            assert(o.is_speaking(a) && o.is_speaking(b));
                        }
                    }
                    Vec::new()
                }
            },
            None => {
                match self.choose_line(now) {
                    Some(i) => {
                        let effects = match &self.entities[i].line {
                            Some(l) => effects_at_start(l),
                            None => Vec::new(),
                        };
                        self.start_line(i, now);
                        proof {
                            assert forall|j: int| #[trigger]
                                old(self).is_choice(j, now) implies old(self).started(
                                *self,
                                j,
                                now,
                            ) && effects@ == start_effects(old(self).line_of(j)) by {
                                lemma_choice_unique(*old(self), now, i as int, j);
                            }
                        }
                        effects
                    },
                    None => {
                        let ghost o = *self;
                        self.clock = now;
                        proof {
                            assert forall|j: int| 0 <= j < self.size() implies history_ok(
                                #[trigger] self.history(j),
                                self.clock,
                            ) by {
                                assert(self.history(j) == o.history(j));
                                lemma_history_later(o.history(j), o.clock, now);
                            }
                            assert forall|a: int| #[trigger]
                                self.is_speaking(a) implies self.entities@[a].line is Some
                                && self.has_spoken(a) by {
                                assert(o.is_speaking(a));
                            }
                            assert forall|a: int, b: int|
                                self.is_speaking(a) && self.is_speaking(b) implies a == b by {
                                assert(o.is_speaking(a) && o.is_speaking(b));
                            }
                        }
                        Vec::new()
                    },
                }
            },
        }
    }
}


impl World {
    /// Handling `events` at `now` took `self` to `new`: the first event
    /// whose target reacts is applied, and the others change nothing.
    pub open spec fn handled(&self, new: World, events: Seq<GhostInteractionEvent>, now: u64) -> bool {
        if exists|k: int| 0 <= k < events.len() && self.reacts(events[k].target as int) {
            forall|k: int|
                0 <= k < events.len() && self.reacts(#[trigger] events[k].target as int) && (forall|
                    m: int,
                | 0 <= m < k ==> !self.reacts(#[trigger] events[m].target as int)) ==> self.interacted(
                    new,
                    events[k].target as int,
                    now,
                )
        } else {
            new.entities@ == self.entities@ && new.clock == self.clock
        }
    }

    /// A derivation pass at `now` took `self` to `new`.
    pub open spec fn derived(&self, new: World, now: u64) -> bool {
        if exists|c: int, p: int| self.join_candidate(c, p) {
            exists|c: int, p: int| self.join_winner(c, p) && self.joined(new, c, p, now)
        } else {
            new.entities@ == self.entities@ && new.clock == self.clock
        }
    }

    /// One tick of the story at `now`: the interactions of the tick, then a
    /// derivation pass, then a step of narration, each seeing the result of
    /// the one before.
    pub fn tick(&mut self, events: &Vec<GhostInteractionEvent>, now: u64) -> (effects: Vec<Effect>)
        requires
            old(self).wf(),
            old(self).clock <= now,
        ensures
            final(self).wf(),
            final(self).clock == now,
            exists|a: World, b: World|
                old(self).handled(a, events@, now) && a.derived(b, now) && b.progressed(
                    *final(self),
                    now,
                    effects@,
                ),
    {
        let ghost w0 = *self;
        let handled = self.handle_interactions(events, now);
        let ghost w1 = *self;
        proof {
            match handled {
                Some(k) => {
                    assert forall|k2: int|
                        0 <= k2 < events@.len() && w0.reacts(#[trigger] events@[k2].target as int) && (
                        forall|m: int| 0 <= m < k2 ==> !w0.reacts(#[trigger] events@[m].target as int))
                        implies w0.interacted(w1, events@[k2].target as int, now) by {
                        if k2 < k {
                        } else if k2 > k {
                            assert(!w0.reacts(events@[k as int].target as int));
                        }
                    }
                },
                None => {},
            }
            assert(w0.handled(w1, events@, now));
        }
        let joined = self.join_concepts(now);
        let ghost w2 = *self;
        proof {
            match joined {
                Some((c, p)) => {
                    assert(w1.join_candidate(c as int, p as int));
                },
                None => {},
            }
            assert(w1.derived(w2, now));
        }
        let effects = self.progress_dialogue(now);
        proof {
            assert(w0.handled(w1, events@, now) && w1.derived(w2, now) && w2.progressed(
                *self,
                now,
                effects@,
            ));
        }
        effects
    }
}


/// In a well-formed world at most one line holds the speaking slot.
pub proof fn lemma_single_speaker(w: World, a: int, b: int)
    requires
        w.wf(),
        w.is_speaking(a),
        w.is_speaking(b),
    ensures
        a == b,
{
}

/// A step of narration from a well-formed world leaves at most one line in
/// the speaking slot.
pub proof fn lemma_progress_single_speaker(w: World, new: World, now: u64, effects: Seq<Effect>)
    requires
        w.wf(),
        w.progressed(new, now, effects),
    ensures
        forall|a: int, b: int| new.is_speaking(a) && new.is_speaking(b) ==> a == b,
{
    if exists|s: int| w.is_speaking(s) {
        let s = choose|s: int| w.is_speaking(s);
        assert(w.is_speaking(s));
        assert forall|a: int, b: int| new.is_speaking(a) && new.is_speaking(b) implies a == b by {
            if w.finished(s, now) {
                if a != s {
                    assert(new.entities@[a] == w.entities@[a]);
                    assert(w.is_speaking(a));
                }
                if b != s {
                    assert(new.entities@[b] == w.entities@[b]);
                    assert(w.is_speaking(b));
                }
            } else {
                assert(new.entities@ == w.entities@);
                assert(w.is_speaking(a) && w.is_speaking(b));
            }
        }
    } else if exists|i: int| w.is_choice(i, now) {
        let i = choose|i: int| w.is_choice(i, now);
        assert forall|a: int, b: int| new.is_speaking(a) && new.is_speaking(b) implies a == b by {
            assert(w.entities@[a] == w.entities@[a]);
            assert(w.entities@[b] == w.entities@[b]);
            if a != i {
                assert(!w.is_speaking(a));
            }
            if b != i {
                assert(!w.is_speaking(b));
            }
        }
    } else {
        assert(new.entities@ == w.entities@);
        assert forall|a: int, b: int| new.is_speaking(a) && new.is_speaking(b) implies a == b by {
            assert(w.is_speaking(a) && w.is_speaking(b));
        }
    }
}

/// A step of narration only appends to histories, at most one time each,
/// and only times that are not earlier than anything already there: every
/// history stays ordered.
pub proof fn lemma_progress_appends(w: World, new: World, now: u64, effects: Seq<Effect>)
    requires
        w.wf(),
        w.clock <= now,
        w.progressed(new, now, effects),
    ensures
        new.size() == w.size(),
        forall|id: int| #[trigger] w.history(id).is_prefix_of(new.history(id)),
        forall|id: int|
            #[trigger] new.history(id) == w.history(id) || new.history(id) == w.history(id).push(now),
        forall|id: int| 0 <= id < new.size() ==> history_ok(#[trigger] new.history(id), now),
        forall|id: int| 0 <= id < w.size() ==> (#[trigger] new.entities@[id]).line == w.entities@[id].line,
{
    if exists|s: int| w.is_speaking(s) {
        let s = choose|s: int| w.is_speaking(s);
        assert(w.is_speaking(s));
        assert forall|id: int| 0 <= id < new.size() implies history_ok(#[trigger] new.history(id), now)
            && w.history(id).is_prefix_of(new.history(id)) by {
            assert(new.history(id) == w.history(id));
            lemma_history_later(w.history(id), w.clock, now);
        }
        assert forall|id: int| #[trigger] w.history(id).is_prefix_of(new.history(id)) by {
            if 0 <= id < new.size() {
                assert(new.history(id) == w.history(id));
            }
        }
    } else if exists|i: int| w.is_choice(i, now) {
        let i = choose|i: int| w.is_choice(i, now);
        let l = w.line_of(i);
        assert forall|id: int| 0 <= id < new.size() implies history_ok(#[trigger] new.history(id), now)
            && w.history(id).is_prefix_of(new.history(id)) by {
            assert(w.entities@[id] == w.entities@[id]);
            let n = stamp_count(l.groups@, i, id);
            lemma_history_stamps(w.history(id), n, w.clock, now);
            assert(new.history(id) == w.history(id) + stamps(n, now));
            assert(new.history(id).take(w.history(id).len() as int) =~= w.history(id));
        }
        assert forall|id: int| #[trigger] new.history(id) == w.history(id) || new.history(id)
            == w.history(id).push(now) by {
            if 0 <= id < new.size() {
                assert(w.entities@[id] == w.entities@[id]);
                let n = stamp_count(l.groups@, i, id);
                assert(new.history(id) == w.history(id) + stamps(n, now));
                if n == 0 {
                    assert(w.history(id) + stamps(0, now) =~= w.history(id));
                } else {
                    assert(w.history(id) + stamps(1, now) =~= w.history(id).push(now));
                }
            }
        }
        assert forall|id: int| #[trigger] w.history(id).is_prefix_of(new.history(id)) by {
            if 0 <= id < new.size() {
                assert(history_ok(new.history(id), now));
            }
        }
        assert forall|id: int| 0 <= id < w.size() implies (#[trigger] new.entities@[id]).line
            == w.entities@[id].line by {
            assert(w.entities@[id] == w.entities@[id]);
        }
    } else {
        assert forall|id: int| 0 <= id < new.size() implies history_ok(#[trigger] new.history(id), now)
            by {
            assert(new.history(id) == w.history(id));
            lemma_history_later(w.history(id), w.clock, now);
        }
        assert forall|id: int| #[trigger] w.history(id).is_prefix_of(new.history(id)) by {
            if 0 <= id < new.size() {
                assert(new.history(id) == w.history(id));
            }
        }
    }
}

/// A line that is not repeatable and has been spoken is not eligible, so it
/// is never the choice.
pub proof fn lemma_spoken_line_excluded(w: World, i: int, now: u64)
    requires
        0 <= i < w.size(),
        w.entities@[i].line is Some,
        !w.line_of(i).repeatable,
        w.has_spoken(i),
    ensures
        !w.eligible(i, now),
        !w.is_choice(i, now),
{
}

/// Of two eligible lines of equal priority, the one with the smaller id is
/// never the choice: the choice does not depend on anything but the state.
pub proof fn lemma_tie_goes_to_later(w: World, a: int, b: int, now: u64)
    requires
        w.eligible(a, now),
        w.eligible(b, now),
        a < b,
        w.priority_of(a) == w.priority_of(b),
    ensures
        !w.is_choice(a, now),
{
}


/// Everything but activation stays as it was from `w` to `new`.
pub open spec fn activation_only(w: World, new: World) -> bool {
    &&& new.clock == w.clock
    &&& new.size() == w.size()
    &&& forall|j: int|
        0 <= j < w.size() ==> (#[trigger] new.entities@[j]).spoken == w.entities@[j].spoken
            && new.entities@[j].speaking == w.entities@[j].speaking && new.entities@[j].line
            == w.entities@[j].line
}

/// The first event of `events` whose target reacts.
proof fn lemma_first_reacting(w: World, events: Seq<GhostInteractionEvent>, k0: int) -> (k: int)
    requires
        0 <= k0 < events.len(),
        w.reacts(events[k0].target as int),
    ensures
        0 <= k <= k0,
        w.reacts(events[k].target as int),
        forall|m: int| 0 <= m < k ==> !w.reacts(#[trigger] events[m].target as int),
    decreases k0,
{
    if exists|m: int| 0 <= m < k0 && w.reacts(#[trigger] events[m].target as int) {
        let m = choose|m: int| 0 <= m < k0 && w.reacts(#[trigger] events[m].target as int);
        lemma_first_reacting(w, events, m)
    } else {
        k0
    }
}

proof fn lemma_handled_activation_only(w: World, new: World, events: Seq<GhostInteractionEvent>, now: u64)
    requires
        w.handled(new, events, now),
    ensures
        activation_only(w, new),
{
    if exists|k: int| 0 <= k < events.len() && w.reacts(events[k].target as int) {
        let k0 = choose|k: int| 0 <= k < events.len() && w.reacts(events[k].target as int);
        let k = lemma_first_reacting(w, events, k0);
        assert(w.interacted(new, events[k].target as int, now));
        let t = events[k].target as int;
        if w.entities@[t].evokes is Some {
            let c = w.entities@[t].evokes.unwrap().0 as int;
            assert forall|j: int| 0 <= j < w.size() implies (#[trigger] new.entities@[j]).spoken
                == w.entities@[j].spoken && new.entities@[j].speaking == w.entities@[j].speaking
                && new.entities@[j].line == w.entities@[j].line by {
                if c < w.size() && j == c {
                } else {
                    assert(new.entities@[j] == w.entities@[j]);
                }
            }
        }
    } else {
        assert(new.entities@ == w.entities@);
    }
}

proof fn lemma_derived_activation_only(w: World, new: World, now: u64)
    requires
        w.derived(new, now),
    ensures
        activation_only(w, new),
{
    if exists|c: int, p: int| w.join_candidate(c, p) {
        let (c, p) = choose|c: int, p: int| w.join_winner(c, p) && w.joined(new, c, p, now);
        assert forall|j: int| 0 <= j < w.size() implies (#[trigger] new.entities@[j]).spoken
            == w.entities@[j].spoken && new.entities@[j].speaking == w.entities@[j].speaking
            && new.entities@[j].line == w.entities@[j].line by {
            assert(w.joined(new, c, p, now));
        }
    }
}

/// Over a whole tick, histories only grow and lines stay as they were; so
/// a line that is not repeatable and has been spoken stays ineligible at
/// every later time.
pub proof fn lemma_spoken_stays_excluded(
    w: World,
    a: World,
    b: World,
    new: World,
    events: Seq<GhostInteractionEvent>,
    now: u64,
    effects: Seq<Effect>,
    i: int,
    later: u64,
)
    requires
        w.wf(),
        w.clock <= now,
        w.handled(a, events, now),
        a.derived(b, now),
        b.progressed(new, now, effects),
        0 <= i < w.size(),
        w.entities@[i].line is Some,
        !w.line_of(i).repeatable,
        w.has_spoken(i),
    ensures
        new.has_spoken(i),
        new.entities@[i].line == w.entities@[i].line,
        !new.eligible(i, later),
{
    lemma_handled_activation_only(w, a, events, now);
    lemma_wf_activation_only(w, a);
    lemma_derived_activation_only(a, b, now);
    lemma_wf_activation_only(a, b);
    assert(a.entities@[i].spoken == w.entities@[i].spoken);
    assert(b.entities@[i].spoken == a.entities@[i].spoken);
    assert(a.entities@[i].line == w.entities@[i].line);
    assert(b.entities@[i].line == a.entities@[i].line);
    lemma_progress_appends(b, new, now, effects);
    assert(b.history(i).is_prefix_of(new.history(i)));
    assert(new.entities@[i].line == b.entities@[i].line);
    lemma_spoken_line_excluded(new, i, later);
}


proof fn lemma_choice_upto(w: World, now: u64, n: int)
    requires
        0 <= n,
        exists|j: int| 0 <= j < n && w.eligible(j, now),
    ensures
        exists|i: int|
            0 <= i < n && w.eligible(i, now) && (forall|j: int|
                0 <= j < n && #[trigger] w.eligible(j, now) ==> w.priority_of(j) <= w.priority_of(i))
                && (forall|j: int|
                i < j < n && #[trigger] w.eligible(j, now) ==> w.priority_of(j) < w.priority_of(i)),
    decreases n,
{
    let m = n - 1;
    if exists|j: int| 0 <= j < m && w.eligible(j, now) {
        lemma_choice_upto(w, now, m);
        let i = choose|i: int|
            0 <= i < m && w.eligible(i, now) && (forall|j: int|
                0 <= j < m && #[trigger] w.eligible(j, now) ==> w.priority_of(j) <= w.priority_of(i))
                && (forall|j: int|
                i < j < m && #[trigger] w.eligible(j, now) ==> w.priority_of(j) < w.priority_of(i));
        if w.eligible(m, now) && w.priority_of(m) >= w.priority_of(i) {
            assert(forall|j: int|
                0 <= j < n && #[trigger] w.eligible(j, now) ==> w.priority_of(j) <= w.priority_of(m));
        } else {
            assert(forall|j: int|
                i < j < n && #[trigger] w.eligible(j, now) ==> w.priority_of(j) < w.priority_of(i));
        }
    } else {
        assert(w.eligible(m, now));
        assert(forall|j: int|
            0 <= j < n && #[trigger] w.eligible(j, now) ==> j == m);
    }
}

/// Whenever some line is eligible, there is a line to say: the choice is
/// never empty while anything can be said.
pub proof fn lemma_choice_exists(w: World, now: u64, j: int)
    requires
        w.eligible(j, now),
    ensures
        exists|i: int| w.is_choice(i, now),
{
    lemma_choice_upto(w, now, w.size());
    let i = choose|i: int|
        0 <= i < w.size() && w.eligible(i, now) && (forall|j: int|
            0 <= j < w.size() && #[trigger] w.eligible(j, now) ==> w.priority_of(j) <= w.priority_of(i))
            && (forall|j: int|
            i < j < w.size() && #[trigger] w.eligible(j, now) ==> w.priority_of(j) < w.priority_of(i));
    assert(w.is_choice(i, now));
}

} // verus!
