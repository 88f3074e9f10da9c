use vstd::prelude::*;

verus! {

/// The two audio channels that lines can drive.
#[derive(Clone, Copy, Debug, PartialEq, Eq, Structural)]
pub enum Channel {
    Music,
    Dialogue,
}

/// Asks the audio collaborator to play the clip at `clip` (an asset path) on `channel`.
#[derive(Clone, Debug)]
pub struct PlayAudioEvent {
    pub channel: Channel,
    pub clip: String,
}

/// Asks the audio collaborator to stop whatever plays on `channel`.
#[derive(Clone, Copy, Debug, PartialEq, Eq, Structural)]
pub struct StopAudioEvent {
    pub channel: Channel,
}

} // verus!
