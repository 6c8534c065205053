//! Keyboard decisions of the viewer: which movement keys are held, and when
//! the window is to close.

use vstd::prelude::*;

verus! {

/// The keys the viewer reacts to; every other key is `Other`.
#[derive(Clone, Copy, Debug, PartialEq, Eq, Structural)]
pub enum Key {
    W,
    A,
    S,
    D,
    Escape,
    Other,
}

/// Which movement keys are currently held down.
#[derive(Clone, Copy, Debug, PartialEq, Eq, Structural)]
pub struct Movement {
    pub forward: bool,
    pub backward: bool,
    pub left: bool,
    pub right: bool,
}

/// What the event loop does next.
#[derive(Clone, Copy, Debug, PartialEq, Eq, Structural)]
pub enum Flow {
    Continue,
    Exit,
}

/// The held keys after `key` was pressed (`pressed`) or released: W, S, A and
/// D set forward, backward, left and right to `pressed`; other keys change
/// nothing.
pub open spec fn movement_after(m: Movement, key: Key, pressed: bool) -> Movement {
    match key {
        Key::W => Movement { forward: pressed, ..m },
        Key::S => Movement { backward: pressed, ..m },
        Key::A => Movement { left: pressed, ..m },
        Key::D => Movement { right: pressed, ..m },
        _ => m,
    }
}

/// Handles a key press or release: pressing Escape closes the window, the
/// movement keys update which directions are held.
pub fn on_key(movement: &mut Movement, key: Key, pressed: bool) -> (flow: Flow)
    ensures
        flow == (if key == Key::Escape && pressed { Flow::Exit } else { Flow::Continue }),
        *final(movement) == movement_after(*old(movement), key, pressed),
        final(movement).forward == (if key == Key::W { pressed } else { old(movement).forward }),
        final(movement).backward == (if key == Key::S { pressed } else { old(movement).backward }),
        final(movement).left == (if key == Key::A { pressed } else { old(movement).left }),
        final(movement).right == (if key == Key::D { pressed } else { old(movement).right }),
{
    match key {
        Key::Escape => {
            if pressed {
                return Flow::Exit;
            }
        },
        Key::W => {
            movement.forward = pressed;
        },
        Key::S => {
            movement.backward = pressed;
        },
        Key::A => {
            movement.left = pressed;
        },
        Key::D => {
            movement.right = pressed;
        },
        Key::Other => {},
    }
    Flow::Continue
}

/// The latest press or release of a key decides its direction: an earlier
/// event on the same key is overridden.
pub proof fn lemma_last_event_wins(m: Movement, key: Key, first: bool, second: bool)
    ensures
        movement_after(movement_after(m, key, first), key, second) == movement_after(m, key, second),
{
}

/// After a press or release of a movement key its direction is held exactly
/// when the key was pressed; the other directions are unchanged.
pub proof fn lemma_key_sets_its_direction(m: Movement, key: Key, pressed: bool)
    ensures
        movement_after(m, key, pressed).forward == (if key == Key::W { pressed } else { m.forward }),
        movement_after(m, key, pressed).backward == (if key == Key::S { pressed } else { m.backward }),
        movement_after(m, key, pressed).left == (if key == Key::A { pressed } else { m.left }),
        movement_after(m, key, pressed).right == (if key == Key::D { pressed } else { m.right }),
{
}

/// Events on two different keys may be handled in either order.
pub proof fn lemma_keys_independent(m: Movement, k1: Key, p1: bool, k2: Key, p2: bool)
    requires
        k1 != k2,
    ensures
        movement_after(movement_after(m, k1, p1), k2, p2) == movement_after(movement_after(m, k2, p2), k1, p1),
{
}

} // verus!
