//! The colours that events are shown in.

use vstd::prelude::*;

verus! {

/// The number of colours.
pub const PALETTE_LEN: usize = 7;

/// The colour at place `index` of the palette, for `0 <= index < PALETTE_LEN`.
pub open spec fn palette(index: int) -> Seq<char> {
    if index == 0 {
        "#AAE9E5"@
    } else if index == 1 {
        "#87C7F1"@
    } else if index == 2 {
        "#FEB7D3"@
    } else if index == 3 {
        "#FFEDA9"@
    } else if index == 4 {
        "#EACFFF"@
    } else if index == 5 {
        "#DEE6C8"@
    } else {
        "#A8D0C6"@
    }
}

/// The colour of the event that is placed as the `position`-th, counted from
/// zero: the palette is gone through in turn and begun again at its end.
pub open spec fn color_of(position: int) -> Seq<char> {
    palette(position % 7)
}

/// The colour of the event that is placed as the `position`-th.
pub fn color_at(position: usize) -> (color: String)
    ensures
        color@ == color_of(position as int),
{
    let index: usize = position % PALETTE_LEN;
    let name: &str = if index == 0 {
        "#AAE9E5"
    } else if index == 1 {
        "#87C7F1"
    } else if index == 2 {
        "#FEB7D3"
    } else if index == 3 {
        "#FFEDA9"
    } else if index == 4 {
        "#EACFFF"
    } else if index == 5 {
        "#DEE6C8"
    } else {
        "#A8D0C6"
    };
    name.to_owned()
}

} // verus!
