//! Scene transition effects and their durations.
//!
//! A transition's progress is measured against the wall clock by the
//! renderer; here are the effects and how long each takes.

use vstd::prelude::*;

verus! {

/// A span of time with nanosecond precision, as seconds plus nanoseconds.
#[derive(Clone, Copy, Debug, PartialEq, Eq, Hash, Structural)]
pub struct Duration {
    secs: u64,
    nanos: u32,
}

impl Duration {
    /// The span in nanoseconds.
    pub closed spec fn spec_nanos(&self) -> int {
        self.secs * 1_000_000_000 + self.nanos
    }

    /// The sub-second part is below one second.
    pub closed spec fn wf(&self) -> bool {
        self.nanos < 1_000_000_000
    }

    /// The empty span.
    pub closed spec fn spec_zero() -> Self {
        Duration { secs: 0, nanos: 0 }
    }

    /// The empty span.
    pub fn zero() -> (r: Self)
        ensures
            r.wf(),
            r.spec_nanos() == 0,
            r == Self::spec_zero(),
    {
        Duration { secs: 0, nanos: 0 }
    }

    /// A span of whole seconds.
    pub fn from_secs(secs: u64) -> (r: Self)
        ensures
            r.wf(),
            r.spec_nanos() == secs * 1_000_000_000,
            r.as_secs() == secs,
            r.subsec_nanos() == 0,
    {
        Duration { secs, nanos: 0 }
    }

    /// A span of milliseconds.
    pub fn from_millis(millis: u64) -> (r: Self)
        ensures
            r.wf(),
            r.spec_nanos() == millis * 1_000_000,
    {
        let secs = millis / 1000;
        let rem = millis % 1000;
        let nanos = (rem as u32) * 1_000_000;
        assert(secs * 1_000_000_000 + nanos == millis * 1_000_000) by (nonlinear_arith)
            requires
                secs == millis / 1000,
                rem == millis % 1000,
                nanos == rem * 1_000_000,
        ;
        Duration { secs, nanos }
    }

    /// A span of whole seconds plus nanoseconds; nanoseconds beyond one
    /// second carry over into the seconds (which must not overflow).
    pub fn new(secs: u64, nanos: u32) -> (r: Self)
        requires
            secs + nanos / 1_000_000_000 <= u64::MAX,
        ensures
            r.wf(),
            r.spec_nanos() == secs * 1_000_000_000 + nanos,
            r.as_secs() == secs + nanos / 1_000_000_000,
            r.subsec_nanos() == nanos % 1_000_000_000,
    {
        let extra: u64 = (nanos / 1_000_000_000) as u64;
        let rest: u32 = nanos % 1_000_000_000;
        proof {
            assert(nanos == (nanos / 1_000_000_000) * 1_000_000_000 + nanos % 1_000_000_000);
        }
        Duration { secs: secs + extra, nanos: rest }
    }

    /// Whole seconds.
    #[verifier::when_used_as_spec(spec_as_secs)]
    pub fn as_secs(&self) -> (r: u64)
        ensures
            r == self.spec_as_secs(),
    {
        self.secs
    }

    /// Whole seconds of the span.
    pub closed spec fn spec_as_secs(&self) -> u64 {
        self.secs
    }

    /// Nanoseconds beyond the whole seconds.
    #[verifier::when_used_as_spec(spec_subsec_nanos)]
    pub fn subsec_nanos(&self) -> (r: u32)
        ensures
            r == self.spec_subsec_nanos(),
    {
        self.nanos
    }

    /// Nanoseconds of the span beyond its whole seconds.
    pub closed spec fn spec_subsec_nanos(&self) -> u32 {
        self.nanos
    }

    /// True for the empty span.
    pub fn is_zero(&self) -> (r: bool)
        ensures
            r == (self.spec_nanos() == 0),
    {
        self.secs == 0 && self.nanos == 0
    }
}

/// A span's length in nanoseconds is its whole seconds times a billion plus
/// its sub-second nanoseconds, which are below a billion exactly for a
/// well-formed span; the empty span is well formed and has length 0.
pub proof fn lemma_duration_parts(d: Duration)
    ensures
        d.spec_nanos() == d.spec_as_secs() * 1_000_000_000 + d.spec_subsec_nanos(),
        d.wf() <==> d.spec_subsec_nanos() < 1_000_000_000,
        Duration::spec_zero().wf(),
        Duration::spec_zero().spec_nanos() == 0,
{
}

/// Direction for slide transitions
#[derive(Clone, Debug, PartialEq, Eq, Structural)]
pub enum SlideDirection {
    /// Slide to the left
    Left,
    /// Slide to the right
    Right,
    /// Slide upward
    Up,
    /// Slide downward
    Down,
}

/// Transition effect between scenes
#[derive(Clone, Debug)]
pub enum TransitionEffect {
    /// Instant cut (no transition)
    Instant,
    /// Fade to black, then fade in new scene
    Fade {
        /// Total duration of the fade (out + in)
        duration: Duration,
    },
    /// Crossfade between scenes (blend alpha)
    Crossfade {
        /// Duration of the crossfade blend
        duration: Duration,
    },
    /// Slide old scene out, slide new scene in
    Slide {
        /// Duration of the slide transition
        duration: Duration,
        /// Direction of the slide
        direction: SlideDirection,
    },
}

impl TransitionEffect {
    /// Get duration of this effect (Instant returns a zero duration)
    pub fn duration(&self) -> (r: Duration)
        ensures
            *self is Instant ==> r.spec_nanos() == 0 && r.wf() && r == Duration::spec_zero(),
            self matches TransitionEffect::Fade { duration } ==> r == duration,
            self matches TransitionEffect::Crossfade { duration } ==> r == duration,
            self matches TransitionEffect::Slide { duration, .. } ==> r == duration,
    {
        match self {
            TransitionEffect::Instant => Duration::zero(),
            TransitionEffect::Fade { duration } => *duration,
            TransitionEffect::Crossfade { duration } => *duration,
            TransitionEffect::Slide { duration, .. } => *duration,
        }
    }
}

} // verus!
