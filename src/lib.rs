//! Story logic of a point-and-click ghost story: concepts (clues) that the
//! player evokes and joins, and dialogue lines chosen every tick from what is
//! active and what has already been said.

mod animation;
mod audio;
mod concept_display;
mod concepts;
mod dialogue;
mod ghost;
mod nodes;
mod question_display;
mod world;

pub use audio::{Channel, PlayAudioEvent, StopAudioEvent};
pub use concept_display::Question;
pub use concepts::{ClearsConcepts, Concept, EvokesConcept, Evoked};
pub use dialogue::{AnimationEndEvent, AnimationStartEvent, Effect, Line, Speaking, Spoken};
pub use ghost::{Clickable, GhostInteractionEvent};
pub use question_display::{ClearQuestionEvent, QuestionDisplay, SetQuestionEvent};
pub use world::{Entity, World};
pub use animation::{
    animation_bundle, step_frame, Animation, AnimationDefinition, Transitions, BLINK_ANIMATION,
    TALK_ANIMATION,
};
pub use nodes::{
    JumpChoice, LineBundle, NodeBuilder, NodeHandle, NodeLink, NodePart, NodeStub, TreeNode,
    TunnelChoice, TunnelNode,
};
