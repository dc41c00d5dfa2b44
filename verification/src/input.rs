//! Which keys and mouse buttons are held, and which were pressed since the last update.
use vstd::prelude::*;

use std::collections::HashSet;

verus! {

broadcast use vstd::std_specs::hash::group_hash_axioms;

/// A window event that changes which keys or buttons are held. Keys and buttons are named by
/// numeric codes.
#[derive(Debug, Clone, Copy, PartialEq, Eq, Structural)]
pub enum WindowEvent {
    /// A mouse button went down (`pressed`) or up.
    MouseInput { button: u32, pressed: bool },
    /// A key went down or up. `code` is `None` for a key without a known code; a synthetic
    /// event is one the platform made up, such as for keys held when the window gains focus.
    KeyboardInput { code: Option<u32>, pressed: bool, is_synthetic: bool },
    /// Any other event.
    Other,
}

/// The keys and mouse buttons held, and the ones pressed since the last update.
pub struct Input {
    keys_pressed: HashSet<u32>,
    keys_held: HashSet<u32>,
    mouse_buttons_pressed: HashSet<u32>,
    mouse_buttons_held: HashSet<u32>,
    enabled: bool,
}

/// `<HashSet<u32> as Clone>::clone`: a copy of the set, holding the same codes.
#[verifier::external_body]
fn clone_codes(set: &HashSet<u32>) -> (r: HashSet<u32>)
    ensures
        r@ == set@,
{
    set.clone()
}

/// What a press or a release does to the sets of held and just pressed codes.
pub open spec fn after_button(pressed_set: Set<u32>, held: Set<u32>, code: u32, pressed: bool) -> (Set<u32>, Set<u32>) {
    if pressed {
        (if held.contains(code) { pressed_set } else { pressed_set.insert(code) }, held.insert(code))
    } else {
        (pressed_set, held.remove(code))
    }
}

impl Input {
    pub closed spec fn keys_pressed(&self) -> Set<u32> {
        self.keys_pressed@
    }

    pub closed spec fn keys_held(&self) -> Set<u32> {
        self.keys_held@
    }

    pub closed spec fn mouse_buttons_pressed(&self) -> Set<u32> {
        self.mouse_buttons_pressed@
    }

    pub closed spec fn mouse_buttons_held(&self) -> Set<u32> {
        self.mouse_buttons_held@
    }

    pub closed spec fn enabled(&self) -> bool {
        self.enabled
    }

    /// Events stop changing the state.
    pub fn disable_input(&mut self)
        ensures
            !final(self).enabled(),
            final(self).keys_pressed() == old(self).keys_pressed(),
            final(self).keys_held() == old(self).keys_held(),
            final(self).mouse_buttons_pressed() == old(self).mouse_buttons_pressed(),
            final(self).mouse_buttons_held() == old(self).mouse_buttons_held(),
    {
        self.enabled = false;
    }

    /// Events change the state again.
    pub fn enable_input(&mut self)
        ensures
            final(self).enabled(),
            final(self).keys_pressed() == old(self).keys_pressed(),
            final(self).keys_held() == old(self).keys_held(),
            final(self).mouse_buttons_pressed() == old(self).mouse_buttons_pressed(),
            final(self).mouse_buttons_held() == old(self).mouse_buttons_held(),
    {
        self.enabled = true;
    }

    pub fn is_input_enabled(&self) -> (r: bool)
        ensures
            r == self.enabled(),
    {
        self.enabled
    }

    /// Whether the key went down since the last update.
    pub fn key_just_pressed(&self, key: u32) -> (r: bool)
        ensures
            r == self.keys_pressed().contains(key),
    {
        self.keys_pressed.contains(&key)
    }

    /// Whether the key is held.
    pub fn key_pressed(&self, key: u32) -> (r: bool)
        ensures
            r == self.keys_held().contains(key),
    {
        self.keys_held.contains(&key)
    }

    /// Whether the button went down since the last update.
    pub fn mouse_button_just_pressed(&self, button: u32) -> (r: bool)
        ensures
            r == self.mouse_buttons_pressed().contains(button),
    {
        self.mouse_buttons_pressed.contains(&button)
    }

    /// Whether the button is held.
    pub fn mouse_button_pressed(&self, button: u32) -> (r: bool)
        ensures
            r == self.mouse_buttons_held().contains(button),
    {
        self.mouse_buttons_held.contains(&button)
    }

    /// Starts a new update: nothing counts as just pressed any more; what is held stays held.
    pub fn prepare_for_update(&mut self)
        ensures
            final(self).keys_pressed() == Set::<u32>::empty(),
            final(self).mouse_buttons_pressed() == Set::<u32>::empty(),
            final(self).keys_held() == old(self).keys_held(),
            final(self).mouse_buttons_held() == old(self).mouse_buttons_held(),
            final(self).enabled() == old(self).enabled(),
    {
        self.keys_pressed.clear();
        self.mouse_buttons_pressed.clear();
    }

    /// Takes a window event into account: a press holds the key or button, and counts as
    /// just pressed when it was not held already; a release stops holding it. Nothing changes
    /// while input is disabled, nor for a synthetic keyboard event or a key without a code.
    pub fn update_window(&mut self, event: WindowEvent)
        ensures
            final(self).enabled() == old(self).enabled(),
            old(self).keys_pressed().subset_of(final(self).keys_pressed()),
            old(self).mouse_buttons_pressed().subset_of(final(self).mouse_buttons_pressed()),
            forall|c: u32| #[trigger] final(self).keys_pressed().contains(c) && !old(self).keys_pressed().contains(c) ==> {
                &&& event == WindowEvent::KeyboardInput { code: Some(c), pressed: true, is_synthetic: false }
                &&& old(self).enabled()
                &&& !old(self).keys_held().contains(c)
            },
            forall|c: u32| #[trigger] final(self).mouse_buttons_pressed().contains(c) && !old(self).mouse_buttons_pressed().contains(c) ==> {
                &&& event == WindowEvent::MouseInput { button: c, pressed: true }
                &&& old(self).enabled()
                &&& !old(self).mouse_buttons_held().contains(c)
            },
            match event {
                WindowEvent::MouseInput { button, pressed } if old(self).enabled() => {
                    let r = after_button(old(self).mouse_buttons_pressed(), old(self).mouse_buttons_held(), button, pressed);
                    &&& final(self).mouse_buttons_pressed() == r.0
                    &&& final(self).mouse_buttons_held() == r.1
                    &&& final(self).keys_pressed() == old(self).keys_pressed()
                    &&& final(self).keys_held() == old(self).keys_held()
                },
                WindowEvent::KeyboardInput { code: Some(code), pressed, is_synthetic: false } if old(self).enabled() => {
                    let r = after_button(old(self).keys_pressed(), old(self).keys_held(), code, pressed);
                    &&& final(self).keys_pressed() == r.0
                    &&& final(self).keys_held() == r.1
                    &&& final(self).mouse_buttons_pressed() == old(self).mouse_buttons_pressed()
                    &&& final(self).mouse_buttons_held() == old(self).mouse_buttons_held()
                },
                _ => {
                    &&& final(self).keys_pressed() == old(self).keys_pressed()
                    &&& final(self).keys_held() == old(self).keys_held()
                    &&& final(self).mouse_buttons_pressed() == old(self).mouse_buttons_pressed()
                    &&& final(self).mouse_buttons_held() == old(self).mouse_buttons_held()
                },
            },
    {
        if !self.is_input_enabled() {
            return;
        }
        match event {
            WindowEvent::MouseInput { button, pressed } => {
                if pressed {
                    if !self.mouse_buttons_held.contains(&button) {
                        self.mouse_buttons_pressed.insert(button);
                    }
                    self.mouse_buttons_held.insert(button);
                } else {
                    self.mouse_buttons_held.remove(&button);
                }
            },
            WindowEvent::KeyboardInput { code, pressed, is_synthetic } => {
                if is_synthetic {
                    return;
                }
                if let Some(code) = code {
                    if pressed {
                        if !self.keys_held.contains(&code) {
                            self.keys_pressed.insert(code);
                        }
                        self.keys_held.insert(code);
                    } else {
                        self.keys_held.remove(&code);
                    }
                }
            },
            WindowEvent::Other => {},
        }
    }
}

impl Default for Input {
    /// Nothing held or pressed; input enabled.
    fn default() -> (r: Self)
        ensures
            r.keys_pressed() == Set::<u32>::empty(),
            r.keys_held() == Set::<u32>::empty(),
            r.mouse_buttons_pressed() == Set::<u32>::empty(),
            r.mouse_buttons_held() == Set::<u32>::empty(),
            r.enabled(),
    {
        Input {
            keys_pressed: HashSet::new(),
            keys_held: HashSet::new(),
            mouse_buttons_pressed: HashSet::new(),
            mouse_buttons_held: HashSet::new(),
            enabled: true,
        }
    }
}

/// A press followed by a release leaves the code not held, and counts as just pressed exactly
/// when it was not held before.
pub proof fn law_press_release(pressed_set: Set<u32>, held: Set<u32>, code: u32)
    ensures
        ({
            let down = after_button(pressed_set, held, code, true);
            let up = after_button(down.0, down.1, code, false);
            &&& !up.1.contains(code)
            &&& up.0.contains(code) == (pressed_set.contains(code) || !held.contains(code))
            &&& forall|other: u32| other != code ==> (up.1.contains(other) == held.contains(other))
        }),
{
}

/// A press or a release of `code` changes nothing about any other code: whether it is just
/// pressed and whether it is held stay as they were. Codes just pressed stay just pressed, and
/// `code` becomes just pressed only by a press while it was not held.
pub proof fn law_button_touches_only_its_code(pressed_set: Set<u32>, held: Set<u32>, code: u32, pressed: bool)
    ensures
        forall|other: u32|
            other != code ==> {
                &&& after_button(pressed_set, held, code, pressed).0.contains(other) == pressed_set.contains(other)
                &&& after_button(pressed_set, held, code, pressed).1.contains(other) == held.contains(other)
            },
        pressed_set.subset_of(after_button(pressed_set, held, code, pressed).0),
        after_button(pressed_set, held, code, pressed).0.contains(code) == (pressed_set.contains(code)
            || (pressed && !held.contains(code))),
        after_button(pressed_set, held, code, pressed).1.contains(code) == pressed,
{
}

/// Pressing a held code again does not make it just pressed.
pub proof fn law_repeat_press_is_not_new(pressed_set: Set<u32>, held: Set<u32>, code: u32)
    requires
        held.contains(code),
        !pressed_set.contains(code),
    ensures
        !after_button(pressed_set, held, code, true).0.contains(code),
        after_button(pressed_set, held, code, true).1 == held,
{
    assert(held.insert(code) =~= held);
}

impl Clone for Input {
    /// A copy of the state: the same codes held and just pressed, and the same switch. The copy
    /// has a switch of its own: disabling one of the two leaves the other as it was.
    fn clone(&self) -> (r: Self)
        ensures
            r.keys_pressed() == self.keys_pressed(),
            r.keys_held() == self.keys_held(),
            r.mouse_buttons_pressed() == self.mouse_buttons_pressed(),
            r.mouse_buttons_held() == self.mouse_buttons_held(),
            r.enabled() == self.enabled(),
    {
        Input {
            keys_pressed: clone_codes(&self.keys_pressed),
            keys_held: clone_codes(&self.keys_held),
            mouse_buttons_pressed: clone_codes(&self.mouse_buttons_pressed),
            mouse_buttons_held: clone_codes(&self.mouse_buttons_held),
            enabled: self.enabled,
        }
    }
}

} // verus!
