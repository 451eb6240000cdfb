//! The separator used when several clipboard entries are merged into one.
use vstd::prelude::*;

verus! {

/// The separator for a selector index: 1 a space, 2 a comma and a space,
/// anything else a newline.
pub open spec fn separator_spec(idx: int) -> Seq<char> {
    if idx == 1 {
        " "@
    } else if idx == 2 {
        ", "@
    } else {
        "\n"@
    }
}

/// Map a separator selector index to the actual separator string.
/// 0 = newline, 1 = space, 2 = comma-space; anything else = newline.
pub fn separator_str(idx: i32) -> (r: &'static str)
    ensures
        r@ == separator_spec(idx as int),
{
    match idx {
        1 => " ",
        2 => ", ",
        _ => "\n",
    }
}

} // verus!
