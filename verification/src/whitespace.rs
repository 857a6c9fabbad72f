//! The Unicode white-space property, as the standard library's
//! `char::is_whitespace` decides it.

use vstd::prelude::*;

verus! {

/// `c` has the Unicode `White_Space` property: tab through carriage
/// return, the space, next line, no-break space, ogham space mark, the
/// fixed-width spaces U+2000..U+200A, the line and paragraph separators,
/// narrow no-break space, medium mathematical space, and the ideographic
/// space.
pub open spec fn is_space(c: char) -> bool {
    ||| 9 <= c as u32 && c as u32 <= 13
    ||| c as u32 == 32
    ||| c as u32 == 0x85
    ||| c as u32 == 0xA0
    ||| c as u32 == 0x1680
    ||| 0x2000 <= c as u32 && c as u32 <= 0x200A
    ||| c as u32 == 0x2028
    ||| c as u32 == 0x2029
    ||| c as u32 == 0x202F
    ||| c as u32 == 0x205F
    ||| c as u32 == 0x3000
}

/// Decide the `White_Space` property of one character.
pub fn is_space_char(c: char) -> (b: bool)
    ensures
        b == is_space(c),
{
    let u = c as u32;
    (9 <= u && u <= 13) || u == 32 || u == 0x85 || u == 0xA0 || u == 0x1680 || (0x2000 <= u && u
        <= 0x200A) || u == 0x2028 || u == 0x2029 || u == 0x202F || u == 0x205F || u == 0x3000
}

} // verus!
