//! Random flavour words for the chat responses.
//!
//! Each call draws one word from a fixed list; only the draw itself is
//! outside code, the selection is verified to stay within the list.

use vstd::prelude::*;
use vstd::string::StringExecFns;

verus! {

/// Relies on rand::random_range: a value drawn from `0..n`, which always
/// lies below `n`.  Nothing is promised about which one.
#[verifier::external_body]
fn pick_below(n: usize) -> (r: usize)
    requires
        n >= 1,
    ensures
        r < n,
{
    rand::random_range(0..n)
}

/// The adjective list.
pub open spec fn adjective_at(i: int) -> Seq<char> {
    if i == 0 {
        "awesome"@
    } else if i == 1 {
        "edible"@
    } else if i == 2 {
        "delicious"@
    } else if i == 3 {
        "sick"@
    } else if i == 4 {
        "tasty"@
    } else if i == 5 {
        "yummy"@
    } else if i == 6 {
        "savory"@
    } else if i == 7 {
        "nourishing"@
    } else if i == 8 {
        "nutritious"@
    } else if i == 9 {
        "calorific"@
    } else {
        "soylent"@
    }
}

/// The noun list.
pub open spec fn noun_at(i: int) -> Seq<char> {
    if i == 0 {
        "edible"@
    } else if i == 1 {
        "fishstick"@
    } else if i == 2 {
        "food"@
    } else if i == 3 {
        "treat"@
    } else if i == 4 {
        "digestible"@
    } else if i == 5 {
        "grub"@
    } else if i == 6 {
        "chow"@
    } else if i == 7 {
        "subsistence"@
    } else if i == 8 {
        "provision"@
    } else if i == 9 {
        "mouthful"@
    } else {
        "fodder"@
    }
}

/// The affirmation list.
pub open spec fn affirm_at(i: int) -> Seq<char> {
    if i == 0 {
        "I'll get you"@
    } else if i == 1 {
        "I'm taking that down as"@
    } else if i == 2 {
        "I'mma get you"@
    } else {
        "You're getting"@
    }
}

/// A random adjective from the list.
pub fn adjective() -> (r: String)
    ensures
        exists|i: int| 0 <= i < 11 && r@ == adjective_at(i),
{
    let k = pick_below(11);
    let w: &str = if k == 0 {
        "awesome"
    } else if k == 1 {
        "edible"
    } else if k == 2 {
        "delicious"
    } else if k == 3 {
        "sick"
    } else if k == 4 {
        "tasty"
    } else if k == 5 {
        "yummy"
    } else if k == 6 {
        "savory"
    } else if k == 7 {
        "nourishing"
    } else if k == 8 {
        "nutritious"
    } else if k == 9 {
        "calorific"
    } else {
        "soylent"
    };
    proof {
        assert(w@ == adjective_at(k as int));
    }
    w.to_owned()
}

/// A random noun from the list.
pub fn noun() -> (r: String)
    ensures
        exists|i: int| 0 <= i < 11 && r@ == noun_at(i),
{
    let k = pick_below(11);
    let w: &str = if k == 0 {
        "edible"
    } else if k == 1 {
        "fishstick"
    } else if k == 2 {
        "food"
    } else if k == 3 {
        "treat"
    } else if k == 4 {
        "digestible"
    } else if k == 5 {
        "grub"
    } else if k == 6 {
        "chow"
    } else if k == 7 {
        "subsistence"
    } else if k == 8 {
        "provision"
    } else if k == 9 {
        "mouthful"
    } else {
        "fodder"
    };
    proof {
        assert(w@ == noun_at(k as int));
    }
    w.to_owned()
}

/// A random affirmation from the list.
pub fn affirm() -> (r: String)
    ensures
        exists|i: int| 0 <= i < 4 && r@ == affirm_at(i),
{
    let k = pick_below(4);
    let w: &str = if k == 0 {
        "I'll get you"
    } else if k == 1 {
        "I'm taking that down as"
    } else if k == 2 {
        "I'mma get you"
    } else {
        "You're getting"
    };
    proof {
        assert(w@ == affirm_at(k as int));
    }
    w.to_owned()
}

} // verus!
