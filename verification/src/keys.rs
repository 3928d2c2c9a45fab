//! The keys of the computer keyboard.

use vstd::prelude::*;

verus! {

/// A key.
#[derive(Clone, Copy, PartialEq, Eq, Structural, Debug)]
pub enum Keycode {
    Key0,
    Key1,
    Key2,
    Key3,
    Key4,
    Key5,
    Key6,
    Key7,
    Key8,
    Key9,
    A,
    B,
    C,
    D,
    E,
    F,
    G,
    H,
    I,
    J,
    K,
    L,
    M,
    N,
    O,
    P,
    Q,
    R,
    S,
    T,
    U,
    V,
    W,
    X,
    Y,
    Z,
    F1,
    F2,
    F3,
    F4,
    F5,
    F6,
    F7,
    F8,
    F9,
    F10,
    F11,
    F12,
    F13,
    F14,
    F15,
    F16,
    F17,
    F18,
    F19,
    F20,
    Escape,
    Space,
    LControl,
    RControl,
    LShift,
    RShift,
    LAlt,
    RAlt,
    Command,
    RCommand,
    LOption,
    ROption,
    LMeta,
    RMeta,
    Enter,
    Up,
    Down,
    Left,
    Right,
    Backspace,
    CapsLock,
    Tab,
    Home,
    End,
    PageUp,
    PageDown,
    Insert,
    Delete,
    Numpad0,
    Numpad1,
    Numpad2,
    Numpad3,
    Numpad4,
    Numpad5,
    Numpad6,
    Numpad7,
    Numpad8,
    Numpad9,
    NumpadSubtract,
    NumpadAdd,
    NumpadDivide,
    NumpadMultiply,
    NumpadEquals,
    NumpadEnter,
    NumpadDecimal,
    Grave,
    Minus,
    Equal,
    LeftBracket,
    RightBracket,
    BackSlash,
    Semicolon,
    Apostrophe,
    Comma,
    Dot,
    Slash,
}

/// Whether `key` is among `keys`.
pub fn contains_key(keys: &Vec<Keycode>, key: Keycode) -> (r: bool)
    ensures
        r == keys@.contains(key),
{
    for i in 0..keys.len()
        invariant
            forall|j: int| 0 <= j < i ==> keys@[j] != key,
    {
        if keys[i] == key {
            return true;
        }
    }
    false
}

/// The keys of `keys` that are not among `others`, in their order.
pub open spec fn keys_without(keys: Seq<Keycode>, others: Seq<Keycode>) -> Seq<Keycode> {
    keys.filter(|k: Keycode| !others.contains(k))
}

/// The keys of `keys` that are not among `others`, in their order.
pub fn without_keys(keys: &Vec<Keycode>, others: &Vec<Keycode>) -> (r: Vec<Keycode>)
    ensures
        r@ == keys_without(keys@, others@),
{
    let mut r: Vec<Keycode> = Vec::new();
    assert(keys@.take(0).filter(|k: Keycode| !others@.contains(k)) == Seq::<Keycode>::empty()) by {
        reveal(Seq::filter);
    }
    for i in 0..keys.len()
        invariant
            r@ == keys_without(keys@.take(i as int), others@),
    {
        proof {
            reveal(Seq::filter);
            assert(keys@.take(i + 1).drop_last() == keys@.take(i as int));
        }
        if !contains_key(others, keys[i]) {
            r.push(keys[i]);
        }
    }
    assert(keys@.take(keys.len() as int) == keys@);
    r
}

} // verus!
