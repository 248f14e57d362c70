//! Scene management with a scene stack.
//!
//! The manager keeps track of scenes by name: which templates are loaded,
//! which runtime scenes exist, the stack of active scenes (top = current),
//! the overlays shown on top of it, and a pending transition between two
//! scenes. The scene data itself is stored by the caller under the same
//! names.

use crate::asset_cache::names_equal;
use crate::asset_error::io_error_text;
use crate::transition::{lemma_duration_parts, Duration, TransitionEffect};
use vstd::prelude::*;

verus! {

/// `ron::error::SpannedError` is carried inside [`SceneError::Parse`] as an
/// opaque value.
#[verifier::external_type_specification]
#[verifier::external_body]
pub struct ExSpannedError(ron::error::SpannedError);

/// `ron::Error` is carried inside [`SceneError::Serialize`] as an opaque
/// value.
#[verifier::external_type_specification]
#[verifier::external_body]
pub struct ExRonError(ron::Error);

/// The text `Display` writes for a RON parse error (its position and
/// cause); it depends on the error value alone.
pub uninterp spec fn spanned_error_display(e: ron::error::SpannedError) -> Seq<char>;

/// The text `Display` writes for a RON error; it depends on the error value
/// alone.
pub uninterp spec fn ron_error_display(e: ron::Error) -> Seq<char>;

/// Renders a RON parse error (position and cause) with its `Display`
/// implementation.
///
/// Trusted: the text is named [`spanned_error_display`].
#[verifier::external_body]
fn spanned_error_text(err: &ron::error::SpannedError) -> (r: String)
    ensures
        r@ == spanned_error_display(*err),
{
    format!("{}", err)
}

/// Renders a RON error with its `Display` implementation.
///
/// Trusted: the text is named [`ron_error_display`].
#[verifier::external_body]
fn ron_error_text(err: &ron::Error) -> (r: String)
    ensures
        r@ == ron_error_display(*err),
{
    format!("{}", err)
}

/// Error type for scene operations
#[derive(Debug)]
pub enum SceneError {
    /// IO error (file not found, permission denied, etc.)
    Io(std::io::Error),
    /// Parse error (invalid RON syntax)
    Parse(ron::error::SpannedError),
    /// Serialization error
    Serialize(ron::Error),
    /// Scene not loaded (requested template doesn't exist)
    NotLoaded(String),
    /// No active scene on the stack
    NoActiveScene,
}

impl SceneError {
    /// The human-readable description of this error (what `Display`
    /// prints).
    pub fn message(&self) -> (r: String)
        ensures
            self matches SceneError::NotLoaded(name) ==> r@ == "Scene not loaded: "@ + name@,
            self is NoActiveScene ==> r@ == "No active scene"@,
            self is Io ==> exists|detail: Seq<char>| r@ == "IO error: "@ + detail,
            *self matches SceneError::Parse(e) ==> r@ == "Parse error: "@ + spanned_error_display(e),
            *self matches SceneError::Serialize(e) ==> r@ == "Serialize error: "@ + ron_error_display(e),
    {
        match self {
            SceneError::Io(err) => {
                let detail = io_error_text(err);
                let r = String::from_str("IO error: ").concat(detail.as_str());
                assert(r@ == "IO error: "@ + detail@);
                r
            },
            SceneError::Parse(err) => {
                let detail = spanned_error_text(err);
                let r = String::from_str("Parse error: ").concat(detail.as_str());
                assert(r@ == "Parse error: "@ + detail@);
                r
            },
            SceneError::Serialize(err) => {
                let detail = ron_error_text(err);
                let r = String::from_str("Serialize error: ").concat(detail.as_str());
                assert(r@ == "Serialize error: "@ + detail@);
                r
            },
            SceneError::NotLoaded(name) => String::from_str("Scene not loaded: ").concat(name.as_str()),
            SceneError::NoActiveScene => String::from_str("No active scene"),
        }
    }
}

impl From<std::io::Error> for SceneError {
    fn from(e: std::io::Error) -> (r: Self) {
        SceneError::Io(e)
    }
}

impl vstd::std_specs::convert::FromSpecImpl<std::io::Error> for SceneError {
    open spec fn obeys_from_spec() -> bool {
        true
    }

    open spec fn from_spec(v: std::io::Error) -> Self {
        SceneError::Io(v)
    }
}

impl From<ron::error::SpannedError> for SceneError {
    fn from(e: ron::error::SpannedError) -> (r: Self) {
        SceneError::Parse(e)
    }
}

impl vstd::std_specs::convert::FromSpecImpl<ron::error::SpannedError> for SceneError {
    open spec fn obeys_from_spec() -> bool {
        true
    }

    open spec fn from_spec(v: ron::error::SpannedError) -> Self {
        SceneError::Parse(v)
    }
}

impl From<ron::Error> for SceneError {
    fn from(e: ron::Error) -> (r: Self) {
        SceneError::Serialize(e)
    }
}

impl vstd::std_specs::convert::FromSpecImpl<ron::Error> for SceneError {
    open spec fn obeys_from_spec() -> bool {
        true
    }

    open spec fn from_spec(v: ron::Error) -> Self {
        SceneError::Serialize(v)
    }
}

/// The names held by a list of strings.
pub open spec fn name_seq(v: Seq<String>) -> Seq<Seq<char>> {
    v.map_values(|s: String| s@)
}

/// `name` occurs in `v`.
fn holds_name(v: &Vec<String>, name: &str) -> (r: bool)
    ensures
        r == name_seq(v@).contains(name@),
{
    let mut k: usize = 0;
    while k < v.len()
        invariant
            k <= v@.len(),
            forall|j: int| 0 <= j < k ==> v@[j]@ != name@,
        decreases v@.len() - k,
    {
        if names_equal(&v[k], name) {
            assert(name_seq(v@)[k as int] == name@);
            return true;
        }
        k = k + 1;
    }
    proof {
        if name_seq(v@).contains(name@) {
            let j = choose|j: int| 0 <= j < name_seq(v@).len() && name_seq(v@)[j] == name@;
            assert(v@[j]@ == name@);
        }
    }
    false
}

/// A transition that has been started and not yet completed.
pub struct PendingTransition {
    /// The scene that was active when the transition began ("" if none)
    pub from_scene: String,
    /// The scene to switch to when the transition completes
    pub to_scene: String,
    /// The visual effect
    pub effect: TransitionEffect,
}

/// `seq` with `name` appended unless it is already there.
pub open spec fn with_name(seq: Seq<Seq<char>>, name: Seq<char>) -> Seq<Seq<char>> {
    if seq.contains(name) {
        seq
    } else {
        seq.push(name)
    }
}

/// The stack after switching its top to `name` (pushing onto an empty
/// stack).
pub open spec fn switched(stack: Seq<Seq<char>>, name: Seq<char>) -> Seq<Seq<char>> {
    if stack.len() == 0 {
        stack.push(name)
    } else {
        stack.drop_last().push(name)
    }
}

/// The duration of a transition effect (zero for an instant cut).
pub open spec fn effect_span(e: TransitionEffect) -> Duration {
    match e {
        TransitionEffect::Instant => Duration::spec_zero(),
        TransitionEffect::Fade { duration } => duration,
        TransitionEffect::Crossfade { duration } => duration,
        TransitionEffect::Slide { duration, .. } => duration,
    }
}

/// `a` has reached `b`: `b` is empty, or `a` is at least as long as `b`
/// (whole seconds first, then nanoseconds).
pub open spec fn span_at_least(a: Duration, b: Duration) -> bool {
    ||| b.spec_nanos() == 0
    ||| a.spec_as_secs() > b.spec_as_secs()
    ||| (a.spec_as_secs() == b.spec_as_secs() && a.spec_subsec_nanos() >= b.spec_subsec_nanos())
}

/// Manages scenes by name, with a stack for overlays
pub struct SceneManager {
    templates: Vec<String>,
    scenes: Vec<String>,
    active_stack: Vec<String>,
    overlay_stack: Vec<String>,
    transition: Option<PendingTransition>,
}

impl Default for SceneManager {
    fn default() -> (r: Self)
        ensures
            r.template_names() == Seq::<Seq<char>>::empty(),
            r.scene_names() == Seq::<Seq<char>>::empty(),
            r.stack() == Seq::<Seq<char>>::empty(),
            r.overlay_names() == Seq::<Seq<char>>::empty(),
            r.pending() is None,
    {
        SceneManager::new()
    }
}

impl SceneManager {
    /// Names of the loaded scene templates, in the order they were first
    /// registered.
    pub closed spec fn template_names(&self) -> Seq<Seq<char>> {
        name_seq(self.templates@)
    }

    /// Names of the runtime scenes, in the order they were first
    /// registered.
    pub closed spec fn scene_names(&self) -> Seq<Seq<char>> {
        name_seq(self.scenes@)
    }

    /// The scene stack, bottom first (the last entry is the active scene).
    pub closed spec fn stack(&self) -> Seq<Seq<char>> {
        name_seq(self.active_stack@)
    }

    /// The overlay stack, bottom first.
    pub closed spec fn overlay_names(&self) -> Seq<Seq<char>> {
        name_seq(self.overlay_stack@)
    }

    /// The pending transition: source name, target name and effect.
    pub closed spec fn pending(&self) -> Option<(Seq<char>, Seq<char>, TransitionEffect)> {
        match self.transition {
            Some(t) => Some((t.from_scene@, t.to_scene@, t.effect)),
            None => None,
        }
    }

    /// Create a new empty scene manager
    pub fn new() -> (r: Self)
        ensures
            r.template_names() == Seq::<Seq<char>>::empty(),
            r.scene_names() == Seq::<Seq<char>>::empty(),
            r.stack() == Seq::<Seq<char>>::empty(),
            r.overlay_names() == Seq::<Seq<char>>::empty(),
            r.pending() is None,
    {
        let r = SceneManager {
            templates: Vec::new(),
            scenes: Vec::new(),
            active_stack: Vec::new(),
            overlay_stack: Vec::new(),
            transition: None,
        };
        assert(r.template_names() =~= Seq::<Seq<char>>::empty());
        assert(r.scene_names() =~= Seq::<Seq<char>>::empty());
        assert(r.stack() =~= Seq::<Seq<char>>::empty());
        assert(r.overlay_names() =~= Seq::<Seq<char>>::empty());
        r
    }

    /// Record that a template named `name` is loaded (a second one of the
    /// same name replaces the first, so the name is kept once).
    pub fn register_template(&mut self, name: &str)
        ensures
            final(self).template_names() == with_name(old(self).template_names(), name@),
            final(self).scene_names() == old(self).scene_names(),
            final(self).stack() == old(self).stack(),
            final(self).overlay_names() == old(self).overlay_names(),
            final(self).pending() == old(self).pending(),
    {
        if !holds_name(&self.templates, name) {
            self.templates.push(String::from_str(name));
            assert(self.template_names() =~= old(self).template_names().push(name@));
        }
    }

    /// Check if a template with this name is loaded.
    pub fn has_template(&self, name: &str) -> (r: bool)
        ensures
            r == self.template_names().contains(name@),
    {
        holds_name(&self.templates, name)
    }

    /// Record a runtime scene named `name` (bypassing templates); a second
    /// one of the same name replaces the first.
    pub fn register_active_scene(&mut self, name: &str)
        ensures
            final(self).scene_names() == with_name(old(self).scene_names(), name@),
            final(self).template_names() == old(self).template_names(),
            final(self).stack() == old(self).stack(),
            final(self).overlay_names() == old(self).overlay_names(),
            final(self).pending() == old(self).pending(),
    {
        if !holds_name(&self.scenes, name) {
            self.scenes.push(String::from_str(name));
            assert(self.scene_names() =~= old(self).scene_names().push(name@));
        }
    }

    /// Check if a runtime scene with this name exists.
    pub fn has_scene(&self, name: &str) -> (r: bool)
        ensures
            r == self.scene_names().contains(name@),
    {
        holds_name(&self.scenes, name)
    }

    /// Instantiate a runtime scene from a loaded template
    ///
    /// The instantiated scene is stored but not automatically made active.
    /// Use `push_scene` to make it the current scene.
    pub fn instantiate(&mut self, template_name: &str) -> (r: Result<(), SceneError>)
        ensures
            r is Ok <==> old(self).template_names().contains(template_name@),
            r matches Err(SceneError::NotLoaded(n)) ==> n@ == template_name@,
            r is Err ==> r matches Err(SceneError::NotLoaded(_)),
            r is Ok ==> final(self).scene_names() == with_name(old(self).scene_names(), template_name@),
            r is Err ==> final(self).scene_names() == old(self).scene_names(),
            final(self).template_names() == old(self).template_names(),
            final(self).stack() == old(self).stack(),
            final(self).overlay_names() == old(self).overlay_names(),
            final(self).pending() == old(self).pending(),
    {
        if !self.has_template(template_name) {
            return Err(SceneError::NotLoaded(String::from_str(template_name)));
        }
        self.register_active_scene(template_name);
        Ok(())
    }

    /// Push a scene onto the stack, making it the active scene
    ///
    /// The scene must already be instantiated or registered.
    pub fn push_scene(&mut self, name: &str) -> (r: Result<(), SceneError>)
        ensures
            r is Ok <==> old(self).scene_names().contains(name@),
            r matches Err(SceneError::NotLoaded(n)) ==> n@ == name@,
            r is Err ==> r matches Err(SceneError::NotLoaded(_)),
            r is Ok ==> final(self).stack() == old(self).stack().push(name@),
            r is Err ==> final(self).stack() == old(self).stack(),
            final(self).template_names() == old(self).template_names(),
            final(self).scene_names() == old(self).scene_names(),
            final(self).overlay_names() == old(self).overlay_names(),
            final(self).pending() == old(self).pending(),
    {
        if !self.has_scene(name) {
            return Err(SceneError::NotLoaded(String::from_str(name)));
        }
        self.active_stack.push(String::from_str(name));
        assert(self.stack() =~= old(self).stack().push(name@));
        Ok(())
    }

    /// Pop the top scene from the stack
    ///
    /// Returns the name of the popped scene, or None if the stack is empty.
    /// Note: This does not remove the scene from storage, just from the active stack.
    pub fn pop_scene(&mut self) -> (r: Option<String>)
        ensures
            old(self).stack().len() == 0 ==> r is None && final(self).stack() == old(self).stack(),
            old(self).stack().len() > 0 ==> r is Some && r->0@ == old(self).stack().last()
                && final(self).stack() == old(self).stack().drop_last(),
            final(self).template_names() == old(self).template_names(),
            final(self).scene_names() == old(self).scene_names(),
            final(self).overlay_names() == old(self).overlay_names(),
            final(self).pending() == old(self).pending(),
    {
        let r = self.active_stack.pop();
        assert(self.stack() =~= if old(self).stack().len() == 0 {
            old(self).stack()
        } else {
            old(self).stack().drop_last()
        });
        r
    }

    /// Switch to a specific scene, replacing the current top of the stack
    ///
    /// If the stack is empty, this is equivalent to `push_scene`.
    pub fn switch_to(&mut self, name: &str) -> (r: Result<(), SceneError>)
        ensures
            r is Ok <==> old(self).scene_names().contains(name@),
            r matches Err(SceneError::NotLoaded(n)) ==> n@ == name@,
            r is Err ==> r matches Err(SceneError::NotLoaded(_)),
            r is Ok ==> final(self).stack() == switched(old(self).stack(), name@),
            r is Err ==> final(self).stack() == old(self).stack(),
            final(self).template_names() == old(self).template_names(),
            final(self).scene_names() == old(self).scene_names(),
            final(self).overlay_names() == old(self).overlay_names(),
            final(self).pending() == old(self).pending(),
    {
        if !self.has_scene(name) {
            return Err(SceneError::NotLoaded(String::from_str(name)));
        }
        if self.active_stack.len() > 0 {
            self.active_stack.pop();
        }
        self.active_stack.push(String::from_str(name));
        assert(self.stack() =~= switched(old(self).stack(), name@));
        Ok(())
    }

    /// Get the name of the currently active scene
    pub fn active_scene_name(&self) -> (r: Option<&str>)
        ensures
            self.stack().len() == 0 ==> r is None,
            self.stack().len() > 0 ==> r is Some && r->0@ == self.stack().last(),
    {
        let n = self.active_stack.len();
        if n == 0 {
            None
        } else {
            assert(self.stack()[n - 1] == self.active_stack@[n - 1]@);
            Some(self.active_stack[n - 1].as_str())
        }
    }

    /// Get the number of scenes in the stack
    pub fn stack_depth(&self) -> (r: usize)
        ensures
            r == self.stack().len(),
    {
        self.active_stack.len()
    }

    /// Check if a scene is currently active (on the stack)
    pub fn is_scene_active(&self, name: &str) -> (r: bool)
        ensures
            r == self.stack().contains(name@),
    {
        holds_name(&self.active_stack, name)
    }

    /// Switch to a scene with a transition effect
    ///
    /// Begins a transition from the current active scene to the named scene.
    /// The target scene must already be instantiated or registered.
    /// During the transition, both scenes may need to be rendered (e.g. crossfade).
    pub fn switch_to_with_transition(&mut self, name: &str, effect: TransitionEffect) -> (r: Result<
        (),
        SceneError,
    >)
        ensures
            r is Ok <==> old(self).scene_names().contains(name@),
            r matches Err(SceneError::NotLoaded(n)) ==> n@ == name@,
            r is Err ==> r matches Err(SceneError::NotLoaded(_)),
            r is Ok ==> final(self).pending() == Some(
                (
                    if old(self).stack().len() == 0 {
                        Seq::<char>::empty()
                    } else {
                        old(self).stack().last()
                    },
                    name@,
                    effect,
                ),
            ),
            r is Err ==> final(self).pending() == old(self).pending(),
            final(self).template_names() == old(self).template_names(),
            final(self).scene_names() == old(self).scene_names(),
            final(self).stack() == old(self).stack(),
            final(self).overlay_names() == old(self).overlay_names(),
    {
        if !self.has_scene(name) {
            return Err(SceneError::NotLoaded(String::from_str(name)));
        }
        let from = match self.active_scene_name() {
            Some(s) => String::from_str(s),
            None => String::from_str(""),
        };
        proof {
            reveal_strlit("");
        }
        self.transition = Some(PendingTransition { from_scene: from, to_scene: String::from_str(name), effect });
        Ok(())
    }

    /// Complete the pending transition: the scene is switched to its target
    /// (call this once the transition's effect has run its course).
    ///
    /// Returns true if a transition was pending.
    pub fn complete_transition(&mut self) -> (r: bool)
        ensures
            r == (old(self).pending() is Some),
            final(self).pending() is None,
            r && old(self).scene_names().contains((old(self).pending()->0).1) ==> final(self).stack() == switched(
                old(self).stack(),
                (old(self).pending()->0).1,
            ),
            !(r && old(self).scene_names().contains((old(self).pending()->0).1)) ==> final(self).stack() == old(
                self,
            ).stack(),
            final(self).template_names() == old(self).template_names(),
            final(self).scene_names() == old(self).scene_names(),
            final(self).overlay_names() == old(self).overlay_names(),
    {
        let t = self.transition.take();
        match t {
            Some(t) => {
                let _ = self.switch_to(t.to_scene.as_str());
                true
            },
            None => false,
        }
    }

    /// Update the pending transition, given the time elapsed since it
    /// began; returns true if it completed now.
    ///
    /// A transition completes once its effect's duration has elapsed (at
    /// once for a zero duration); the scene is then switched to its target.
    pub fn update_transition(&mut self, elapsed: Duration) -> (r: bool)
        ensures
            old(self).pending() is None ==> !r,
            old(self).pending() is Some ==> r == span_at_least(elapsed, effect_span((old(self).pending()->0).2)),
            old(self).pending() is Some && elapsed.wf() && effect_span((old(self).pending()->0).2).wf() ==> r == (
            elapsed.spec_nanos() >= effect_span((old(self).pending()->0).2).spec_nanos()),
            final(self).pending() == if r {
                None
            } else {
                old(self).pending()
            },
            r && old(self).scene_names().contains((old(self).pending()->0).1) ==> final(self).stack() == switched(
                old(self).stack(),
                (old(self).pending()->0).1,
            ),
            !(r && old(self).scene_names().contains((old(self).pending()->0).1)) ==> final(self).stack() == old(
                self,
            ).stack(),
            final(self).template_names() == old(self).template_names(),
            final(self).scene_names() == old(self).scene_names(),
            final(self).overlay_names() == old(self).overlay_names(),
    {
        let done = match &self.transition {
            None => false,
            Some(t) => {
                let d = t.effect.duration();
                d.is_zero() || elapsed.as_secs() > d.as_secs() || (elapsed.as_secs() == d.as_secs()
                    && elapsed.subsec_nanos() >= d.subsec_nanos())
            },
        };
        proof {
            if old(self).pending() is Some && elapsed.wf() && effect_span((old(self).pending()->0).2).wf() {
                law_transition_completes_once_duration_elapsed(elapsed, effect_span((old(self).pending()->0).2));
            }
        }
        if done {
            self.complete_transition()
        } else {
            false
        }
    }

    /// Get the pending transition (for rendering)
    pub fn current_transition(&self) -> (r: Option<&PendingTransition>)
        ensures
            r is Some <==> self.pending() is Some,
            r is Some ==> self.pending() == Some((r->0.from_scene@, r->0.to_scene@, r->0.effect)),
    {
        self.transition.as_ref()
    }

    /// Check if a transition is in progress
    pub fn is_transitioning(&self) -> (r: bool)
        ensures
            r == (self.pending() is Some),
    {
        self.transition.is_some()
    }

    /// Push an overlay scene (renders on top of active scene)
    ///
    /// Overlay scenes are independent from the main scene stack and are
    /// rendered on top of the active scene. The scene must already be
    /// instantiated or registered.
    pub fn push_overlay(&mut self, name: &str) -> (r: Result<(), SceneError>)
        ensures
            r is Ok <==> old(self).scene_names().contains(name@),
            r matches Err(SceneError::NotLoaded(n)) ==> n@ == name@,
            r is Err ==> r matches Err(SceneError::NotLoaded(_)),
            r is Ok ==> final(self).overlay_names() == old(self).overlay_names().push(name@),
            r is Err ==> final(self).overlay_names() == old(self).overlay_names(),
            final(self).template_names() == old(self).template_names(),
            final(self).scene_names() == old(self).scene_names(),
            final(self).stack() == old(self).stack(),
            final(self).pending() == old(self).pending(),
    {
        if !self.has_scene(name) {
            return Err(SceneError::NotLoaded(String::from_str(name)));
        }
        self.overlay_stack.push(String::from_str(name));
        assert(self.overlay_names() =~= old(self).overlay_names().push(name@));
        Ok(())
    }

    /// Pop the top overlay
    ///
    /// Returns the name of the popped overlay, or None if the overlay stack is empty.
    pub fn pop_overlay(&mut self) -> (r: Option<String>)
        ensures
            old(self).overlay_names().len() == 0 ==> r is None && final(self).overlay_names() == old(
                self,
            ).overlay_names(),
            old(self).overlay_names().len() > 0 ==> r is Some && r->0@ == old(self).overlay_names().last()
                && final(self).overlay_names() == old(self).overlay_names().drop_last(),
            final(self).template_names() == old(self).template_names(),
            final(self).scene_names() == old(self).scene_names(),
            final(self).stack() == old(self).stack(),
            final(self).pending() == old(self).pending(),
    {
        let r = self.overlay_stack.pop();
        assert(self.overlay_names() =~= if old(self).overlay_names().len() == 0 {
            old(self).overlay_names()
        } else {
            old(self).overlay_names().drop_last()
        });
        r
    }

    /// Get the overlay stack
    pub fn overlays(&self) -> (r: &[String])
        ensures
            name_seq(r@) == self.overlay_names(),
    {
        self.overlay_stack.as_slice()
    }

    /// Check if a scene is an overlay
    pub fn is_overlay(&self, name: &str) -> (r: bool)
        ensures
            r == self.overlay_names().contains(name@),
    {
        holds_name(&self.overlay_stack, name)
    }
}

/// Pushing a scene and popping it again gives the pushed name back and
/// leaves the stack as it was.
pub proof fn law_push_then_pop_restores_stack(stack: Seq<Seq<char>>, name: Seq<char>)
    ensures
        stack.push(name).len() > 0,
        stack.push(name).last() == name,
        stack.push(name).drop_last() == stack,
{
    assert(stack.push(name).drop_last() =~= stack);
}

/// Switching makes the named scene active and keeps the stack depth (one
/// scene on an empty stack); everything below the top stays.
pub proof fn law_switch_replaces_top(stack: Seq<Seq<char>>, name: Seq<char>)
    ensures
        switched(stack, name).last() == name,
        switched(stack, name).len() == if stack.len() == 0 {
            1
        } else {
            stack.len()
        },
        forall|i: int| 0 <= i < stack.len() - 1 ==> #[trigger] switched(stack, name)[i] == stack[i],
{
}

/// A transition completes exactly when the elapsed time, in nanoseconds,
/// has reached the effect's duration, in nanoseconds.
pub proof fn law_transition_completes_once_duration_elapsed(elapsed: Duration, duration: Duration)
    requires
        elapsed.wf(),
        duration.wf(),
    ensures
        span_at_least(elapsed, duration) == (elapsed.spec_nanos() >= duration.spec_nanos()),
{
    lemma_duration_parts(elapsed);
    lemma_duration_parts(duration);
    let a = elapsed.spec_as_secs() as int;
    let x = elapsed.spec_subsec_nanos() as int;
    let b = duration.spec_as_secs() as int;
    let y = duration.spec_subsec_nanos() as int;
    assert(a > b ==> a * 1_000_000_000 + x >= b * 1_000_000_000 + y) by (nonlinear_arith)
        requires
            0 <= x < 1_000_000_000,
            0 <= y < 1_000_000_000,
    ;
    assert(a < b ==> a * 1_000_000_000 + x < b * 1_000_000_000 + y) by (nonlinear_arith)
        requires
            0 <= x < 1_000_000_000,
            0 <= y < 1_000_000_000,
    ;
    assert(duration.spec_nanos() == 0 ==> elapsed.spec_nanos() >= duration.spec_nanos()) by (nonlinear_arith)
        requires
            elapsed.spec_nanos() == a * 1_000_000_000 + x,
            a >= 0,
            x >= 0,
    ;
}

/// A transition that has completed after some elapsed time also completes
/// after any longer time: completion is monotone in the elapsed time.
pub proof fn law_transition_completion_is_monotone(shorter: Duration, longer: Duration, duration: Duration)
    requires
        shorter.wf(),
        longer.wf(),
        duration.wf(),
        shorter.spec_nanos() <= longer.spec_nanos(),
        span_at_least(shorter, duration),
    ensures
        span_at_least(longer, duration),
{
    law_transition_completes_once_duration_elapsed(shorter, duration);
    law_transition_completes_once_duration_elapsed(longer, duration);
}

} // verus!
