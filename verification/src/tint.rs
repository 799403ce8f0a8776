//! Hint tinting of sprites.
//!
//! Every frame each sprite of the world is held against the tint its kind
//! calls for: actors are tinted crimson, other interactive items cyan, and
//! the rest are left alone. Within one kind the sweep stops at the first
//! sprite that already carries its tint, since everything behind it was
//! tinted by an earlier frame.

use vstd::prelude::*;

verus! {

/// The hint tints a sprite can receive.
#[derive(Clone, Copy, PartialEq, Eq, Structural, Debug)]
pub enum HintTint {
    /// The tint of actors.
    Crimson,
    /// The tint of interactive items that are not actors.
    Cyan,
}

/// The tint a sprite's kind calls for: crimson for an actor, cyan for an
/// interactive item that is not an actor, none otherwise.
pub fn hint_tint(is_actor: bool, is_interactive: bool) -> (t: Option<HintTint>)
    ensures
        t == (if is_actor {
            Some(HintTint::Crimson)
        } else if is_interactive {
            Some(HintTint::Cyan)
        } else {
            None::<HintTint>
        }),
{
    if is_actor {
        Some(HintTint::Crimson)
    } else if is_interactive {
        Some(HintTint::Cyan)
    } else {
        None
    }
}

/// How many sprites of one kind to retint this frame. `already_tinted`
/// records, in sweep order, whether each sprite already carries its tint;
/// the sweep retints every sprite up to the first tinted one and stops
/// there, so the result counts the leading untinted sprites.
pub fn retint_count(already_tinted: &Vec<bool>) -> (n: usize)
    ensures
        n <= already_tinted@.len(),
        forall|j: int| 0 <= j < n ==> !already_tinted@[j],
        n < already_tinted@.len() ==> already_tinted@[n as int],
{
    let mut i: usize = 0;
    while i < already_tinted.len()
        invariant
            i <= already_tinted@.len(),
            forall|j: int| 0 <= j < i ==> !already_tinted@[j],
        decreases already_tinted@.len() - i,
    {
        if already_tinted[i] {
            return i;
        }
        i = i + 1;
    }
    i
}

} // verus!
