//! Character classes and the blank-text test used by the text formatter.

use vstd::prelude::*;

verus! {

/// The code points that carry the Unicode `White_Space` property.
pub open spec fn is_whitespace_code(code: int) -> bool {
    ||| 0x09 <= code <= 0x0D
    ||| code == 0x20
    ||| code == 0x85
    ||| code == 0xA0
    ||| code == 0x1680
    ||| 0x2000 <= code <= 0x200A
    ||| code == 0x2028
    ||| code == 0x2029
    ||| code == 0x202F
    ||| code == 0x205F
    ||| code == 0x3000
}

/// Whether `c` is a whitespace character.
pub open spec fn spec_is_whitespace(c: char) -> bool {
    is_whitespace_code(c as u32 as int)
}

/// Whether every character of `s` is whitespace. The empty text is blank.
pub open spec fn is_blank(s: Seq<char>) -> bool {
    forall|i: int| 0 <= i < s.len() ==> spec_is_whitespace(#[trigger] s[i])
}

/// Tests one character for the `White_Space` property.
pub fn is_whitespace(c: char) -> (r: bool)
    ensures
        r == spec_is_whitespace(c),
{
    let code: u32 = c as u32;
    (0x09 <= code && code <= 0x0D) || code == 0x20 || code == 0x85 || code == 0xA0 || code
        == 0x1680 || (0x2000 <= code && code <= 0x200A) || code == 0x2028 || code == 0x2029
        || code == 0x202F || code == 0x205F || code == 0x3000
}

/// Tests whether a text consists of whitespace only.
pub fn is_blank_text(s: &str) -> (r: bool)
    ensures
        r == is_blank(s@),
{
    let mut blank: bool = true;
    for c in it: s.chars()
        invariant
            it.seq() == s@,
            blank == is_blank(s@.take(it.index())),
    {
        let ghost i = it.index();
        proof {
            let shorter = s@.take(i);
            let longer = s@.take(i + 1);
            assert(longer[i] == c);
            if is_blank(longer) {
                assert forall|j: int| 0 <= j < shorter.len() implies spec_is_whitespace(
                    #[trigger] shorter[j],
                ) by {
                    assert(shorter[j] == longer[j]);
                }
            }
            if is_blank(shorter) && spec_is_whitespace(c) {
                assert forall|j: int| 0 <= j < longer.len() implies spec_is_whitespace(
                    #[trigger] longer[j],
                ) by {
                    if j < i {
                        assert(longer[j] == shorter[j]);
                    }
                }
            }
        }
        if !is_whitespace(c) {
            blank = false;
        }
    }
    assert(s@.take(s@.len() as int) == s@);
    blank
}

} // verus!
