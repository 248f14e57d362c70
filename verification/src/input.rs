//! Semantic input actions, key bindings and movement key state.
//!
//! `CameraController` should not know that "forward" means the W key or that
//! "ana" means Q. Those are bindings, not behavior. [`ActionMap`] keeps the
//! default Rust4D controls while allowing examples, config files, and future
//! UI editors to rebind movement without touching camera math.

use vstd::prelude::*;
use winit::event::MouseButton;
use winit::keyboard::KeyCode;

verus! {

/// `winit`'s physical key code, carried as an opaque value.
#[verifier::external_type_specification]
#[verifier::external_body]
pub struct ExKeyCode(KeyCode);

/// Compares two key codes with `KeyCode`'s `==`.
///
/// Trusted: `KeyCode` is a field-less enum with a derived `PartialEq`, so
/// `==` holds exactly when both are the same key; the contract states that.
#[verifier::external_body]
fn same_key(a: &KeyCode, b: &KeyCode) -> (r: bool)
    ensures
        r == (*a == *b),
{
    *a == *b
}

/// The keys the default controls give a meaning to.
#[derive(Clone, Copy, Debug, PartialEq, Eq, Hash, Structural)]
pub enum NamedKey {
    /// W
    KeyW,
    /// S
    KeyS,
    /// A
    KeyA,
    /// D
    KeyD,
    /// Q
    KeyQ,
    /// E
    KeyE,
    /// Space bar
    Space,
    /// Left shift
    ShiftLeft,
    /// Right shift
    ShiftRight,
}

/// Which of the named keys a key code is, if any: `KeyCode::KeyW` is
/// `NamedKey::KeyW` and so on, every other code none.
pub uninterp spec fn key_meaning(k: KeyCode) -> Option<NamedKey>;

/// Which of the named keys a key code is, if any (one arm per key).
///
/// Trusted: the result is named [`key_meaning`].
#[verifier::external_body]
pub(crate) fn named_key(key: &KeyCode) -> (r: Option<NamedKey>)
    ensures
        r == key_meaning(*key),
{
    match key {
        KeyCode::KeyW => Some(NamedKey::KeyW),
        KeyCode::KeyS => Some(NamedKey::KeyS),
        KeyCode::KeyA => Some(NamedKey::KeyA),
        KeyCode::KeyD => Some(NamedKey::KeyD),
        KeyCode::KeyQ => Some(NamedKey::KeyQ),
        KeyCode::KeyE => Some(NamedKey::KeyE),
        KeyCode::Space => Some(NamedKey::Space),
        KeyCode::ShiftLeft => Some(NamedKey::ShiftLeft),
        KeyCode::ShiftRight => Some(NamedKey::ShiftRight),
        _ => None,
    }
}

/// The key code of a named key (one arm per key).
///
/// Trusted: the code it gives is the one that [`named_key`] maps back to
/// `key` (both functions pair the same variants).
#[verifier::external_body]
pub(crate) fn key_code(key: NamedKey) -> (r: KeyCode)
    ensures
        key_meaning(r) == Some(key),
{
    match key {
        NamedKey::KeyW => KeyCode::KeyW,
        NamedKey::KeyS => KeyCode::KeyS,
        NamedKey::KeyA => KeyCode::KeyA,
        NamedKey::KeyD => KeyCode::KeyD,
        NamedKey::KeyQ => KeyCode::KeyQ,
        NamedKey::KeyE => KeyCode::KeyE,
        NamedKey::Space => KeyCode::Space,
        NamedKey::ShiftLeft => KeyCode::ShiftLeft,
        NamedKey::ShiftRight => KeyCode::ShiftRight,
    }
}

/// High-level camera/controller actions.
#[derive(Clone, Copy, Debug, PartialEq, Eq, Hash, Structural)]
pub enum CameraAction {
    /// Move forward in the current slice plane
    MoveForward,
    /// Move backward in the current slice plane
    MoveBackward,
    /// Strafe left in the current slice plane
    MoveLeft,
    /// Strafe right in the current slice plane
    MoveRight,
    /// Move upward along world/camera Y
    MoveUp,
    /// Move downward along world/camera Y
    MoveDown,
    /// Move ana (+W in camera-local 4D space)
    MoveAna,
    /// Move kata (-W in camera-local 4D space)
    MoveKata,
}

/// The default bindings' keys, in table order.
pub open spec fn default_binding_keys() -> Seq<NamedKey> {
    seq![
        NamedKey::KeyW,
        NamedKey::KeyS,
        NamedKey::KeyA,
        NamedKey::KeyD,
        NamedKey::Space,
        NamedKey::ShiftLeft,
        NamedKey::ShiftRight,
        NamedKey::KeyQ,
        NamedKey::KeyE,
    ]
}

/// The default bindings' actions, in table order.
pub open spec fn default_binding_actions() -> Seq<CameraAction> {
    seq![
        CameraAction::MoveForward,
        CameraAction::MoveBackward,
        CameraAction::MoveLeft,
        CameraAction::MoveRight,
        CameraAction::MoveUp,
        CameraAction::MoveDown,
        CameraAction::MoveDown,
        CameraAction::MoveAna,
        CameraAction::MoveKata,
    ]
}

/// The actions bound to `key`, in binding order.
pub open spec fn actions_bound_to(bindings: Seq<(KeyCode, CameraAction)>, key: KeyCode) -> Seq<CameraAction>
    decreases bindings.len(),
{
    if bindings.len() == 0 {
        Seq::empty()
    } else {
        let rest = actions_bound_to(bindings.drop_last(), key);
        if bindings.last().0 == key {
            rest.push(bindings.last().1)
        } else {
            rest
        }
    }
}

/// Whether a binding is for `key` and, if `action` is given, for that action.
pub open spec fn binding_matches(b: (KeyCode, CameraAction), key: KeyCode, action: Option<CameraAction>) -> bool {
    b.0 == key && (action is None || b.1 == action->0)
}

/// The bindings, in order, without those matching `key` (and `action`, if given).
pub open spec fn bindings_without(
    bindings: Seq<(KeyCode, CameraAction)>,
    key: KeyCode,
    action: Option<CameraAction>,
) -> Seq<(KeyCode, CameraAction)>
    decreases bindings.len(),
{
    if bindings.len() == 0 {
        Seq::empty()
    } else {
        let rest = bindings_without(bindings.drop_last(), key, action);
        if binding_matches(bindings.last(), key, action) {
            rest
        } else {
            rest.push(bindings.last())
        }
    }
}

/// Key binding table for camera actions.
///
/// Multiple keys may trigger the same action, and one key may intentionally
/// trigger multiple actions (e.g. Space currently means both upward movement
/// and a one-shot jump in physics mode). No key/action pair is listed twice.
#[derive(Clone, Debug)]
pub struct ActionMap {
    bindings: Vec<(KeyCode, CameraAction)>,
}

impl ActionMap {
    /// The bindings, in insertion order.
    pub closed spec fn spec_bindings(&self) -> Seq<(KeyCode, CameraAction)> {
        self.bindings@
    }

    /// Create the default Rust4D camera bindings.
    pub fn new() -> (r: Self)
        ensures
            r.spec_bindings().len() == 9,
            forall|i: int| 0 <= i < 9 ==> #[trigger] r.spec_bindings()[i].1 == default_binding_actions()[i],
            forall|i: int| 0 <= i < 9 ==> key_meaning(#[trigger] r.spec_bindings()[i].0) == Some(default_binding_keys()[i]),
    {
        let keys = [
            NamedKey::KeyW,
            NamedKey::KeyS,
            NamedKey::KeyA,
            NamedKey::KeyD,
            NamedKey::Space,
            NamedKey::ShiftLeft,
            NamedKey::ShiftRight,
            NamedKey::KeyQ,
            NamedKey::KeyE,
        ];
        let actions = [
            CameraAction::MoveForward,
            CameraAction::MoveBackward,
            CameraAction::MoveLeft,
            CameraAction::MoveRight,
            CameraAction::MoveUp,
            CameraAction::MoveDown,
            CameraAction::MoveDown,
            CameraAction::MoveAna,
            CameraAction::MoveKata,
        ];
        assert(actions@ == default_binding_actions());
        assert(keys@ == default_binding_keys());
        let mut bindings: Vec<(KeyCode, CameraAction)> = Vec::new();
        let mut i: usize = 0;
        while i < 9
            invariant
                i <= 9,
                actions@ == default_binding_actions(),
                keys@ == default_binding_keys(),
                bindings@.len() == i,
                forall|k: int| 0 <= k < i ==> #[trigger] bindings@[k].1 == default_binding_actions()[k],
                forall|k: int| 0 <= k < i ==> key_meaning(#[trigger] bindings@[k].0) == Some(default_binding_keys()[k]),
            decreases 9 - i,
        {
            bindings.push((key_code(keys[i]), actions[i]));
            i = i + 1;
        }
        ActionMap { bindings }
    }

    /// Create an empty action map.
    pub fn empty() -> (r: Self)
        ensures
            r.spec_bindings().len() == 0,
    {
        ActionMap { bindings: Vec::new() }
    }

    /// Bind `key` to `action`, keeping any existing bindings; an existing
    /// identical binding is not duplicated.
    pub fn bind(&mut self, key: KeyCode, action: CameraAction)
        ensures
            old(self).spec_bindings().contains((key, action)) ==> final(self).spec_bindings()
                == old(self).spec_bindings(),
            !old(self).spec_bindings().contains((key, action)) ==> final(self).spec_bindings()
                == old(self).spec_bindings().push((key, action)),
    {
        let mut i: usize = 0;
        while i < self.bindings.len()
            invariant
                i <= self.bindings@.len(),
                self.bindings@ == old(self).spec_bindings(),
                forall|k: int| 0 <= k < i ==> #[trigger] self.bindings@[k] != (key, action),
            decreases self.bindings@.len() - i,
        {
            if same_key(&self.bindings[i].0, &key) && self.bindings[i].1 == action {
                assert(self.bindings@[i as int] == (key, action));
                return;
            }
            i = i + 1;
        }
        self.bindings.push((key, action));
    }

    /// Drop the bindings matching `key` (and `action`, if given), keeping order.
    fn retain_bindings(&mut self, key: KeyCode, action: Option<CameraAction>)
        ensures
            final(self).spec_bindings() == bindings_without(old(self).spec_bindings(), key, action),
    {
        let ghost all = self.bindings@;
        let mut kept: Vec<(KeyCode, CameraAction)> = Vec::new();
        let mut i: usize = 0;
        while i < self.bindings.len()
            invariant
                i <= all.len(),
                self.bindings@ == all,
                all == old(self).spec_bindings(),
                kept@ == bindings_without(all.take(i as int), key, action),
            decreases all.len() - i,
        {
            let b = self.bindings[i];
            proof {
                assert(all.take(i + 1).drop_last() == all.take(i as int));
                assert(all.take(i + 1).last() == b);
            }
            let matches_key = same_key(&b.0, &key);
            let matches_action = match action {
                None => true,
                Some(a) => b.1 == a,
            };
            assert(binding_matches(b, key, action) == (matches_key && matches_action));
            if !(matches_key && matches_action) {
                kept.push(b);
            }
            i = i + 1;
        }
        assert(all.take(all.len() as int) == all);
        self.bindings = kept;
    }

    /// Remove every action bound to `key`.
    pub fn unbind_key(&mut self, key: KeyCode)
        ensures
            final(self).spec_bindings() == bindings_without(old(self).spec_bindings(), key, None),
    {
        self.retain_bindings(key, None);
    }

    /// Remove this exact key/action binding.
    pub fn unbind(&mut self, key: KeyCode, action: CameraAction)
        ensures
            final(self).spec_bindings() == bindings_without(old(self).spec_bindings(), key, Some(action)),
    {
        self.retain_bindings(key, Some(action));
    }

    /// Return the actions bound to `key` in insertion order.
    pub fn actions_for_key(&self, key: KeyCode) -> (r: Vec<CameraAction>)
        ensures
            r@ == actions_bound_to(self.spec_bindings(), key),
    {
        let ghost all = self.bindings@;
        let mut out: Vec<CameraAction> = Vec::new();
        let mut i: usize = 0;
        while i < self.bindings.len()
            invariant
                i <= all.len(),
                self.bindings@ == all,
                out@ == actions_bound_to(all.take(i as int), key),
            decreases all.len() - i,
        {
            proof {
                assert(all.take(i + 1).drop_last() == all.take(i as int));
            }
            if same_key(&self.bindings[i].0, &key) {
                out.push(self.bindings[i].1);
            }
            i = i + 1;
        }
        assert(all.take(all.len() as int) == all);
        out
    }

    /// True if `key` is bound to any action.
    pub fn handles_key(&self, key: KeyCode) -> (r: bool)
        ensures
            r == exists|k: int| 0 <= k < self.spec_bindings().len() && #[trigger] self.spec_bindings()[k].0 == key,
    {
        let mut i: usize = 0;
        while i < self.bindings.len()
            invariant
                i <= self.bindings@.len(),
                forall|k: int| 0 <= k < i ==> #[trigger] self.bindings@[k].0 != key,
            decreases self.bindings@.len() - i,
        {
            if same_key(&self.bindings[i].0, &key) {
                assert(self.spec_bindings()[i as int].0 == key);
                return true;
            }
            i = i + 1;
        }
        false
    }

    /// Read-only binding list, useful for UI/debug display.
    pub fn bindings(&self) -> (r: &[(KeyCode, CameraAction)])
        ensures
            r@ == self.spec_bindings(),
    {
        self.bindings.as_slice()
    }
}

impl Default for ActionMap {
    fn default() -> (r: Self)
        ensures
            r.spec_bindings().len() == 9,
            forall|i: int| 0 <= i < 9 ==> #[trigger] r.spec_bindings()[i].1 == default_binding_actions()[i],
            forall|i: int| 0 <= i < 9 ==> key_meaning(#[trigger] r.spec_bindings()[i].0) == Some(default_binding_keys()[i]),
    {
        ActionMap::new()
    }
}

/// Which movement keys are held, and whether a jump press is pending.
#[derive(Clone, Copy, Debug, PartialEq, Eq, Default, Structural)]
pub struct MovementKeys {
    /// W held
    pub forward: bool,
    /// S held
    pub backward: bool,
    /// A held
    pub left: bool,
    /// D held
    pub right: bool,
    /// Space held
    pub up: bool,
    /// Shift held
    pub down: bool,
    /// Q held: move toward +W (ana)
    pub ana: bool,
    /// E held: move toward -W (kata)
    pub kata: bool,
    /// Space was pressed since the last `consume_jump`
    pub jump_pressed: bool,
}

impl MovementKeys {
    /// Nothing held, no jump pending.
    pub fn new() -> (r: Self)
        ensures
            !r.forward && !r.backward && !r.left && !r.right && !r.up && !r.down && !r.ana && !r.kata
                && !r.jump_pressed,
    {
        MovementKeys {
            forward: false,
            backward: false,
            left: false,
            right: false,
            up: false,
            down: false,
            ana: false,
            kata: false,
            jump_pressed: false,
        }
    }

    /// Process a keyboard event for the key `key` (pressed or released).
    ///
    /// Returns true if the key is one of the movement keys.
    pub fn process_keyboard(&mut self, key: KeyCode, pressed: bool) -> (handled: bool)
        ensures
            *final(self) == old(self).after_key(key_meaning(key), pressed),
            handled == (key_meaning(key) is Some),
    {
        let k = named_key(&key);
        self.apply_key(k, pressed)
    }

    /// The key state after `key` (already identified) was pressed or
    /// released; `None` stands for any other key.
    pub open spec fn after_key(self, key: Option<NamedKey>, pressed: bool) -> MovementKeys {
        match key {
            None => self,
            Some(NamedKey::KeyW) => MovementKeys { forward: pressed, ..self },
            Some(NamedKey::KeyS) => MovementKeys { backward: pressed, ..self },
            Some(NamedKey::KeyA) => MovementKeys { left: pressed, ..self },
            Some(NamedKey::KeyD) => MovementKeys { right: pressed, ..self },
            Some(NamedKey::KeyQ) => MovementKeys { ana: pressed, ..self },
            Some(NamedKey::KeyE) => MovementKeys { kata: pressed, ..self },
            Some(NamedKey::Space) => MovementKeys { up: pressed, jump_pressed: self.jump_pressed || pressed, ..self },
            Some(NamedKey::ShiftLeft) => MovementKeys { down: pressed, ..self },
            Some(NamedKey::ShiftRight) => MovementKeys { down: pressed, ..self },
        }
    }

    /// Update the key state for an identified key; returns true if the key
    /// is a movement key.
    pub fn apply_key(&mut self, key: Option<NamedKey>, pressed: bool) -> (handled: bool)
        ensures
            *final(self) == old(self).after_key(key, pressed),
            handled == (key is Some),
    {
        match key {
            None => false,
            Some(NamedKey::KeyW) => {
                self.forward = pressed;
                true
            },
            Some(NamedKey::KeyS) => {
                self.backward = pressed;
                true
            },
            Some(NamedKey::KeyA) => {
                self.left = pressed;
                true
            },
            Some(NamedKey::KeyD) => {
                self.right = pressed;
                true
            },
            Some(NamedKey::KeyQ) => {
                self.ana = pressed;
                true
            },
            Some(NamedKey::KeyE) => {
                self.kata = pressed;
                true
            },
            Some(NamedKey::Space) => {
                self.up = pressed;
                if pressed {
                    self.jump_pressed = true;
                }
                true
            },
            Some(NamedKey::ShiftLeft) | Some(NamedKey::ShiftRight) => {
                self.down = pressed;
                true
            },
        }
    }

    /// Check if any movement keys are pressed
    pub fn is_moving(&self) -> (r: bool)
        ensures
            r == (self.forward || self.backward || self.left || self.right || self.up || self.down
                || self.ana || self.kata),
    {
        self.forward || self.backward || self.left || self.right || self.up || self.down || self.ana
            || self.kata
    }

    /// Returns true if jump was pressed since the last call, then clears the flag.
    pub fn consume_jump(&mut self) -> (was_pressed: bool)
        ensures
            was_pressed == old(self).jump_pressed,
            *final(self) == (MovementKeys { jump_pressed: false, ..*old(self) }),
    {
        let was_pressed = self.jump_pressed;
        self.jump_pressed = false;
        was_pressed
    }

    /// Movement input as integers: (forward, right), each -1, 0 or 1.
    pub fn movement_axes(&self) -> (r: (i32, i32))
        ensures
            r.0 == (if self.forward { 1int } else { 0int }) - (if self.backward { 1int } else { 0int }),
            r.1 == (if self.right { 1int } else { 0int }) - (if self.left { 1int } else { 0int }),
    {
        let f: i32 = if self.forward { 1 } else { 0 };
        let b: i32 = if self.backward { 1 } else { 0 };
        let r: i32 = if self.right { 1 } else { 0 };
        let l: i32 = if self.left { 1 } else { 0 };
        (f - b, r - l)
    }

    /// Vertical input (up minus down), -1, 0 or 1.
    pub fn vertical_axis(&self) -> (r: i32)
        ensures
            r == (if self.up { 1int } else { 0int }) - (if self.down { 1int } else { 0int }),
    {
        let u: i32 = if self.up { 1 } else { 0 };
        let d: i32 = if self.down { 1 } else { 0 };
        u - d
    }

    /// W-axis input (ana minus kata), -1, 0 or 1.
    pub fn w_axis(&self) -> (r: i32)
        ensures
            r == (if self.ana { 1int } else { 0int }) - (if self.kata { 1int } else { 0int }),
    {
        let a: i32 = if self.ana { 1 } else { 0 };
        let k: i32 = if self.kata { 1 } else { 0 };
        a - k
    }
}

/// The held-flag that a named key drives (both shift keys drive `down`).
pub open spec fn key_flag(k: MovementKeys, n: NamedKey) -> bool {
    match n {
        NamedKey::KeyW => k.forward,
        NamedKey::KeyS => k.backward,
        NamedKey::KeyA => k.left,
        NamedKey::KeyD => k.right,
        NamedKey::KeyQ => k.ana,
        NamedKey::KeyE => k.kata,
        NamedKey::Space => k.up,
        NamedKey::ShiftLeft => k.down,
        NamedKey::ShiftRight => k.down,
    }
}

/// The two keys drive the same flag.
pub open spec fn same_flag(a: NamedKey, b: NamedKey) -> bool {
    a == b || ((a == NamedKey::ShiftLeft || a == NamedKey::ShiftRight) && (b == NamedKey::ShiftLeft || b
        == NamedKey::ShiftRight))
}

/// A key event sets its key's flag to whether the key is now pressed (a
/// release clears it), leaves every flag of another key as it was, and only
/// a Space press raises the jump request; an event for any other key
/// changes nothing.
pub proof fn law_key_event_sets_only_its_flag(k: MovementKeys, n: NamedKey, pressed: bool)
    ensures
        key_flag(k.after_key(Some(n), pressed), n) == pressed,
        forall|other: NamedKey|
            !same_flag(n, other) ==> #[trigger] key_flag(k.after_key(Some(n), pressed), other) == key_flag(k, other),
        k.after_key(Some(n), pressed).jump_pressed == (k.jump_pressed || (n == NamedKey::Space && pressed)),
        k.after_key(None, pressed) == k,
{
}

/// Releasing a movement key stops it: after the release its flag is clear,
/// whatever the state before.
pub proof fn law_released_key_is_not_held(k: MovementKeys, n: NamedKey)
    ensures
        !key_flag(k.after_key(Some(n), false), n),
{
    law_key_event_sets_only_its_flag(k, n, false);
}

/// `winit`'s mouse button, carried as an opaque value.
#[verifier::external_type_specification]
#[verifier::external_body]
pub struct ExMouseButton(MouseButton);

/// The mouse buttons the camera controls give a meaning to.
#[derive(Clone, Copy, Debug, PartialEq, Eq, Structural)]
pub enum PointerButton {
    /// Left button: look around while held
    Left,
    /// Right button: rotate through W while held
    Right,
}

/// Which of the meaningful buttons a mouse button is, if any:
/// `MouseButton::Left` is `PointerButton::Left`, `MouseButton::Right` is
/// `PointerButton::Right`, every other button none.
pub uninterp spec fn button_meaning(b: MouseButton) -> Option<PointerButton>;

/// Which of the meaningful buttons a mouse button is, if any (one arm per
/// button).
///
/// Trusted: the result is named [`button_meaning`].
#[verifier::external_body]
pub(crate) fn pointer_button(button: &MouseButton) -> (r: Option<PointerButton>)
    ensures
        r == button_meaning(*button),
{
    match button {
        MouseButton::Left => Some(PointerButton::Left),
        MouseButton::Right => Some(PointerButton::Right),
        _ => None,
    }
}

/// Which mouse buttons are held.
#[derive(Clone, Copy, Debug, PartialEq, Eq, Default, Structural)]
pub struct PointerState {
    /// Left button held (free look while the cursor is not captured)
    pub mouse_pressed: bool,
    /// Right button held (W-rotation mode)
    pub w_rotation_mode: bool,
}

impl PointerState {
    /// No button held.
    pub fn new() -> (r: Self)
        ensures
            !r.mouse_pressed && !r.w_rotation_mode,
    {
        PointerState { mouse_pressed: false, w_rotation_mode: false }
    }

    /// Process a mouse button event (pressed or released).
    pub fn process_mouse_button(&mut self, button: MouseButton, pressed: bool)
        ensures
            *final(self) == old(self).after_button(button_meaning(button), pressed),
    {
        let b = pointer_button(&button);
        self.apply_button(b, pressed);
    }

    /// The state after `button` (already identified) was pressed or
    /// released; `None` stands for any other button.
    pub open spec fn after_button(self, button: Option<PointerButton>, pressed: bool) -> PointerState {
        match button {
            None => self,
            Some(PointerButton::Left) => PointerState { mouse_pressed: pressed, ..self },
            Some(PointerButton::Right) => PointerState { w_rotation_mode: pressed, ..self },
        }
    }

    /// Update the state for an identified button.
    pub fn apply_button(&mut self, button: Option<PointerButton>, pressed: bool)
        ensures
            *final(self) == old(self).after_button(button, pressed),
    {
        match button {
            Some(PointerButton::Left) => {
                self.mouse_pressed = pressed;
            },
            Some(PointerButton::Right) => {
                self.w_rotation_mode = pressed;
            },
            None => {},
        }
    }
}

} // verus!
