//! Audio bus identifiers, sound handles and audio errors.
//!
//! The bus hierarchy routes `Sfx`, `Music` and `Ambient` through `Master`.

use vstd::prelude::*;

verus! {

/// Audio bus identifiers for organizing and mixing sounds
#[derive(Debug, Clone, Copy, PartialEq, Eq, Hash, Structural)]
pub enum AudioBus {
    /// Master bus - all other buses route through this
    Master,
    /// Sound effects bus - short, one-shot sounds
    Sfx,
    /// Music bus - background music tracks
    Music,
    /// Ambient bus - environmental audio
    Ambient,
}

/// The display name of each bus.
pub open spec fn spec_bus_name(bus: AudioBus) -> Seq<char> {
    match bus {
        AudioBus::Master => "Master"@,
        AudioBus::Sfx => "SFX"@,
        AudioBus::Music => "Music"@,
        AudioBus::Ambient => "Ambient"@,
    }
}

/// Every bus, in declaration order.
pub open spec fn spec_all_buses() -> Seq<AudioBus> {
    seq![AudioBus::Master, AudioBus::Sfx, AudioBus::Music, AudioBus::Ambient]
}

impl Default for AudioBus {
    /// Sounds go to the effects bus unless told otherwise.
    fn default() -> (r: Self)
        ensures
            r == AudioBus::Sfx,
    {
        AudioBus::Sfx
    }
}

impl AudioBus {
    /// Get the display name for this bus
    pub fn name(&self) -> (r: &'static str)
        ensures
            r@ == spec_bus_name(*self),
    {
        match self {
            AudioBus::Master => "Master",
            AudioBus::Sfx => "SFX",
            AudioBus::Music => "Music",
            AudioBus::Ambient => "Ambient",
        }
    }

    /// Get all available buses
    pub fn all() -> (r: &'static [AudioBus])
        ensures
            r@ == spec_all_buses(),
    {
        &[AudioBus::Master, AudioBus::Sfx, AudioBus::Music, AudioBus::Ambient]
    }

    /// The bus this bus routes into; `Master` routes to the output.
    pub fn parent(&self) -> (r: Option<AudioBus>)
        ensures
            *self == AudioBus::Master <==> r is None,
            r is Some ==> r->0 == AudioBus::Master,
    {
        match self {
            AudioBus::Master => None,
            _ => Some(AudioBus::Master),
        }
    }
}

/// Handle to a loaded sound asset
///
/// This is a lightweight reference that can be cheaply cloned.
/// The actual sound data is stored by the audio engine.
#[derive(Debug, Clone, Copy, PartialEq, Eq, Hash, Structural)]
pub struct SoundHandle {
    id: u64,
}

impl SoundHandle {
    /// The id this handle refers to.
    pub closed spec fn spec_id(&self) -> u64 {
        self.id
    }

    /// Create a new sound handle
    pub fn new(id: u64) -> (r: Self)
        ensures
            r.spec_id() == id,
    {
        SoundHandle { id }
    }

    /// Get the internal ID of this sound
    pub fn id(&self) -> (r: u64)
        ensures
            r == self.spec_id(),
    {
        self.id
    }
}

/// Errors that can occur in the audio system
#[derive(Debug, Clone, PartialEq, Eq)]
pub enum AudioError {
    /// The audio manager could not be initialized
    ManagerInit(String),
    /// A sound file could not be loaded
    LoadSound { path: String, message: String },
    /// A sound could not be played
    PlaySound(String),
    /// A bus track could not be created
    TrackCreation(String),
    /// The handle does not refer to a loaded sound
    SoundNotFound,
    /// Every sound id has been handed out
    SoundIdOverflow,
}

/// Hands out sound ids sequentially from zero.
///
/// Returns the id for the sound being loaded and the id the next sound will
/// get, or `SoundIdOverflow` once `u64::MAX` would have to be exceeded.
pub fn allocate_sound_id(next_sound_id: u64) -> (r: Result<(SoundHandle, u64), AudioError>)
    ensures
        next_sound_id < u64::MAX <==> r is Ok,
        r is Ok ==> r->Ok_0.0.spec_id() == next_sound_id && r->Ok_0.1 == next_sound_id + 1,
        r is Err ==> r->Err_0 == AudioError::SoundIdOverflow,
{
    match next_sound_id.checked_add(1) {
        Some(next) => Ok((SoundHandle::new(next_sound_id), next)),
        None => Err(AudioError::SoundIdOverflow),
    }
}

} // verus!
