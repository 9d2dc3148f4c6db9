//! Input tracking for keyboard keys and mouse buttons, with
//! pressed / just pressed / just released states.

use vstd::prelude::*;
use vstd::std_specs::iter::IteratorSpec;

verus! {

/// A key or button that input tracking can tell apart from the others.
pub trait InputCode: Copy {
    /// Whether `self` and `other` are the same input.
    fn is_same(&self, other: &Self) -> (r: bool)
        ensures
            r == (*self == *other),
    ;
}

/// Whether `x` occurs in `v`.
fn holds<T: InputCode>(v: &Vec<T>, x: &T) -> (r: Option<usize>)
    ensures
        match r {
            Some(i) => i < v@.len() && v@[i as int] == *x,
            None => !v@.contains(*x),
        },
{
    let mut i: usize = 0;
    while i < v.len()
        invariant
            i <= v@.len(),
            forall|k: int| 0 <= k < i ==> v@[k] != *x,
        decreases v@.len() - i,
    {
        if v[i].is_same(x) {
            return Some(i);
        }
        i = i + 1;
    }
    None
}

/// Add `x` to a duplicate-free list unless it is there already.
fn insert_once<T: InputCode>(v: &mut Vec<T>, x: T)
    requires
        old(v)@.no_duplicates(),
    ensures
        final(v)@.no_duplicates(),
        final(v)@.to_set() == old(v)@.to_set().insert(x),
{
    broadcast use vstd::seq_lib::group_seq_properties;

    if holds(v, &x).is_none() {
        let ghost before = v@;
        v.push(x);
        proof {
            assert(v@.to_set() =~= before.to_set().insert(x));
        }
    } else {
        proof {
            assert(v@.to_set() =~= v@.to_set().insert(x));
        }
    }
}

/// Remove `x` from a duplicate-free list.
fn remove_once<T: InputCode>(v: &mut Vec<T>, x: T)
    requires
        old(v)@.no_duplicates(),
    ensures
        final(v)@.no_duplicates(),
        final(v)@.to_set() == old(v)@.to_set().remove(x),
{
    broadcast use vstd::seq_lib::group_seq_properties;

    match holds(v, &x) {
        Some(i) => {
            let ghost before = v@;
            v.remove(i);
            proof {
                let after = v@;
                assert(after =~= before.remove(i as int));
                assert forall|y: T| after.to_set().contains(y) <==> before.to_set().remove(x).contains(y) by {
                    if after.contains(y) {
                        let k = choose|k: int| 0 <= k < after.len() && after[k] == y;
                        let sk = if k < i { k } else { k + 1 };
                        assert(before[sk] == y);
                        assert(sk != i as int);
                    }
                    if before.contains(y) && y != x {
                        let k = choose|k: int| 0 <= k < before.len() && before[k] == y;
                        assert(k != i as int);
                        let ak = if k < i { k } else { k - 1 };
                        assert(after[ak] == y);
                    }
                }
                assert(after.to_set() =~= before.to_set().remove(x));
            }
        },
        None => {
            proof {
                assert(v@.to_set() =~= v@.to_set().remove(x));
            }
        },
    }
}

/// Generic input tracker
#[derive(Clone, Debug)]
pub struct Input<T: InputCode> {
    pressed: Vec<T>,
    just_pressed: Vec<T>,
    just_released: Vec<T>,
}

impl<T: InputCode> Input<T> {
    /// Inputs held down.
    pub closed spec fn pressed_set(&self) -> Set<T> {
        self.pressed@.to_set()
    }

    /// Inputs pressed since the last `clear_just_changed`.
    pub closed spec fn just_pressed_set(&self) -> Set<T> {
        self.just_pressed@.to_set()
    }

    /// Inputs released since the last `clear_just_changed`.
    pub closed spec fn just_released_set(&self) -> Set<T> {
        self.just_released@.to_set()
    }

    /// No input is stored twice.
    pub closed spec fn wf(&self) -> bool {
        &&& self.pressed@.no_duplicates()
        &&& self.just_pressed@.no_duplicates()
        &&& self.just_released@.no_duplicates()
    }

    /// Create new input tracker
    pub fn new() -> (s: Self)
        ensures
            s.wf(),
            s.pressed_set() == Set::<T>::empty(),
            s.just_pressed_set() == Set::<T>::empty(),
            s.just_released_set() == Set::<T>::empty(),
    {
        let s = Input { pressed: Vec::new(), just_pressed: Vec::new(), just_released: Vec::new() };
        proof {
            assert(s.pressed@.to_set() =~= Set::<T>::empty());
            assert(s.just_pressed@.to_set() =~= Set::<T>::empty());
            assert(s.just_released@.to_set() =~= Set::<T>::empty());
        }
        s
    }

    /// Press a key/button
    pub fn press(&mut self, input: T)
        requires
            old(self).wf(),
        ensures
            final(self).wf(),
            final(self).pressed_set() == old(self).pressed_set().insert(input),
            final(self).just_pressed_set() == if old(self).pressed_set().contains(input) {
                old(self).just_pressed_set()
            } else {
                old(self).just_pressed_set().insert(input)
            },
            final(self).just_released_set() == old(self).just_released_set(),
    {
        if holds(&self.pressed, &input).is_none() {
            proof {
                broadcast use vstd::seq_lib::group_seq_properties;
            }
            insert_once(&mut self.just_pressed, input);
        }
        insert_once(&mut self.pressed, input);
        proof {
            broadcast use vstd::seq_lib::group_seq_properties;
        }
    }

    /// Release a key/button
    pub fn release(&mut self, input: T)
        requires
            old(self).wf(),
        ensures
            final(self).wf(),
            final(self).pressed_set() == old(self).pressed_set().remove(input),
            final(self).just_released_set() == if old(self).pressed_set().contains(input) {
                old(self).just_released_set().insert(input)
            } else {
                old(self).just_released_set()
            },
            final(self).just_pressed_set() == old(self).just_pressed_set(),
    {
        if holds(&self.pressed, &input).is_some() {
            insert_once(&mut self.just_released, input);
        }
        remove_once(&mut self.pressed, input);
        proof {
            broadcast use vstd::seq_lib::group_seq_properties;
        }
    }

    /// Check if input is currently pressed
    pub fn pressed(&self, input: T) -> (r: bool)
        ensures
            r == self.pressed_set().contains(input),
    {
        proof {
            broadcast use vstd::seq_lib::group_seq_properties;
        }
        holds(&self.pressed, &input).is_some()
    }

    /// Check if input was just pressed this frame
    pub fn just_pressed(&self, input: T) -> (r: bool)
        ensures
            r == self.just_pressed_set().contains(input),
    {
        proof {
            broadcast use vstd::seq_lib::group_seq_properties;
        }
        holds(&self.just_pressed, &input).is_some()
    }

    /// Check if input was just released this frame
    pub fn just_released(&self, input: T) -> (r: bool)
        ensures
            r == self.just_released_set().contains(input),
    {
        proof {
            broadcast use vstd::seq_lib::group_seq_properties;
        }
        holds(&self.just_released, &input).is_some()
    }

    /// Get all currently pressed inputs
    pub fn get_pressed(&self) -> (it: std::slice::Iter<'_, T>)
        requires
            self.wf(),
        ensures
            it.remaining().len() == self.pressed_set().len(),
            forall|x: T| self.pressed_set().contains(x) <==> it.remaining().contains(&x),
    {
        let sl = self.pressed.as_slice();
        let it = sl.iter();
        proof {
            broadcast use vstd::seq_lib::group_seq_properties;
            vstd::std_specs::slice::axiom_spec_slice_iter(sl);
            self.pressed@.unique_seq_to_set();
            assert forall|x: T| self.pressed_set().contains(x) <==> it.remaining().contains(&x) by {
                if self.pressed@.contains(x) {
                    let k = choose|k: int| 0 <= k < self.pressed@.len() && self.pressed@[k] == x;
                    assert(it.remaining()[k] == &x);
                }
                if it.remaining().contains(&x) {
                    let k = choose|k: int| 0 <= k < it.remaining().len() && it.remaining()[k] == &x;
                    assert(self.pressed@[k] == x);
                }
            }
        }
        it
    }

    /// Clear just_pressed and just_released (call at end of frame)
    pub fn clear_just_changed(&mut self)
        requires
            old(self).wf(),
        ensures
            final(self).wf(),
            final(self).pressed_set() == old(self).pressed_set(),
            final(self).just_pressed_set() == Set::<T>::empty(),
            final(self).just_released_set() == Set::<T>::empty(),
    {
        self.just_pressed.clear();
        self.just_released.clear();
        proof {
            assert(self.just_pressed@.to_set() =~= Set::<T>::empty());
            assert(self.just_released@.to_set() =~= Set::<T>::empty());
        }
    }

    /// Reset all input state
    pub fn reset(&mut self)
        ensures
            final(self).wf(),
            final(self).pressed_set() == Set::<T>::empty(),
            final(self).just_pressed_set() == Set::<T>::empty(),
            final(self).just_released_set() == Set::<T>::empty(),
    {
        self.pressed.clear();
        self.just_pressed.clear();
        self.just_released.clear();
        proof {
            assert(self.pressed@.to_set() =~= Set::<T>::empty());
            assert(self.just_pressed@.to_set() =~= Set::<T>::empty());
            assert(self.just_released@.to_set() =~= Set::<T>::empty());
        }
    }
}

impl<T: InputCode> Default for Input<T> {
    fn default() -> (s: Self)
        ensures
            s.wf(),
            s.pressed_set() == Set::<T>::empty(),
            s.just_pressed_set() == Set::<T>::empty(),
            s.just_released_set() == Set::<T>::empty(),
    {
        Self::new()
    }
}

/// Keyboard key codes
#[derive(Clone, Copy, Debug, PartialEq, Eq, Hash, Structural)]
pub enum KeyCode {
    // Letters
    A,
    B,
    C,
    D,
    E,
    F,
    G,
    H,
    I,
    J,
    K,
    L,
    M,
    N,
    O,
    P,
    Q,
    R,
    S,
    T,
    U,
    V,
    W,
    X,
    Y,
    Z,
    // Numbers
    Key0,
    Key1,
    Key2,
    Key3,
    Key4,
    Key5,
    Key6,
    Key7,
    Key8,
    Key9,
    // Function keys
    F1,
    F2,
    F3,
    F4,
    F5,
    F6,
    F7,
    F8,
    F9,
    F10,
    F11,
    F12,
    // Special keys
    Space,
    Enter,
    Escape,
    Tab,
    Backspace,
    Delete,
    // Arrow keys
    Left,
    Right,
    Up,
    Down,
    // Modifiers
    LShift,
    RShift,
    LControl,
    RControl,
    LAlt,
    RAlt,
}

impl InputCode for KeyCode {
    fn is_same(&self, other: &Self) -> (r: bool) {
        *self == *other
    }
}

/// Mouse button codes
#[derive(Clone, Copy, Debug, PartialEq, Eq, Hash, Structural)]
pub enum MouseButton {
    Left,
    Right,
    Middle,
}

impl InputCode for MouseButton {
    fn is_same(&self, other: &Self) -> (r: bool) {
        *self == *other
    }
}

/// Type alias for keyboard input
pub type KeyboardInput = Input<KeyCode>;

/// Type alias for mouse button input
pub type MouseInput = Input<MouseButton>;

} // verus!
