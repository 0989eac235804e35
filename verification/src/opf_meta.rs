//! Values of the package document's metadata that follow from facts about the
//! book.
use vstd::prelude::*;

use crate::text;
use crate::text::{chars_of, str_is, string_of};

verus! {

/// The `primary-writing-mode` of a book with the writing mode and the page
/// progression direction, where it is not the default.
pub open spec fn spec_primary_writing_mode(
    writing_mode: Option<Seq<char>>,
    ppd: Option<Seq<char>>,
) -> Option<Seq<char>> {
    let wm = match writing_mode {
        Some(w) => w,
        None => "horizontal-tb"@,
    };
    if wm == "horizontal-tb"@ || wm.len() == 0 {
        if ppd == Some("rtl"@) {
            Some("horizontal-rl"@)
        } else {
            None
        }
    } else if wm == "horizontal-lr"@ {
        None
    } else {
        Some(wm)
    }
}

/// The `primary-writing-mode` of a book with the writing mode and the page
/// progression direction, where it is not the default.
pub fn primary_writing_mode(writing_mode: Option<&str>, ppd: Option<&str>) -> (r: Option<String>)
    ensures
        text::opt_str(r) == spec_primary_writing_mode(text::opt_slice(writing_mode), text::opt_slice(ppd)),
{
    let wm = match writing_mode {
        Some(w) => w,
        None => "horizontal-tb",
    };
    let rtl = match ppd {
        Some(p) => str_is(p, "rtl"),
        None => false,
    };
    proof {
        reveal_strlit("horizontal-lr");
        reveal_strlit("horizontal-rl");
        reveal_strlit("horizontal-tb");
    }
    if str_is(wm, "horizontal-tb") || chars_of(wm).len() == 0 {
        if rtl {
            Some(string_of(&chars_of("horizontal-rl")))
        } else {
            None
        }
    } else if str_is(wm, "horizontal-lr") {
        None
    } else {
        Some(string_of(&chars_of(wm)))
    }
}

} // verus!
