//! Labels: blankness and membership in a list of labels.

use vstd::prelude::*;

verus! {

/// Whether `c` has the Unicode `White_Space` property, the property that
/// `char::is_whitespace` and `str::trim` go by: the controls U+0009 to
/// U+000D, space, U+0085, no-break space, U+1680, the spaces U+2000 to
/// U+200A, the line and paragraph separators, U+202F, U+205F and the
/// ideographic space U+3000.
pub open spec fn is_white_space(c: char) -> bool {
    let v = c as u32;
    ||| 0x9 <= v <= 0xd
    ||| v == 0x20
    ||| v == 0x85
    ||| v == 0xa0
    ||| v == 0x1680
    ||| 0x2000 <= v <= 0x200a
    ||| v == 0x2028
    ||| v == 0x2029
    ||| v == 0x202f
    ||| v == 0x205f
    ||| v == 0x3000
}

/// Whether `c` is white space (`c.is_whitespace()`).
pub fn char_is_white_space(c: char) -> (r: bool)
    ensures
        r == is_white_space(c),
{
    let v: u32 = c as u32;
    (0x9 <= v && v <= 0xd) || v == 0x20 || v == 0x85 || v == 0xa0 || v == 0x1680 || (0x2000 <= v
        && v <= 0x200a) || v == 0x2028 || v == 0x2029 || v == 0x202f || v == 0x205f || v == 0x3000
}

/// A text is blank when it is empty or every one of its characters is white
/// space; this is exactly when trimming it (`str::trim`, which strips
/// `White_Space` characters from both ends) leaves the empty string.
pub open spec fn is_blank_text(s: Seq<char>) -> bool {
    forall|i: int| 0 <= i < s.len() ==> is_white_space(#[trigger] s[i])
}

/// Whether `s` is blank (`s.trim().is_empty()`).
pub fn is_blank(s: &str) -> (r: bool)
    ensures
        r == is_blank_text(s@),
{
    let n: usize = s.unicode_len();
    let mut i: usize = 0;
    while i < n
        invariant
            n == s@.len(),
            i <= n,
            forall|j: int| 0 <= j < i ==> is_white_space(#[trigger] s@[j]),
        decreases n - i,
    {
        let c = s.get_char(i);
        if !char_is_white_space(c) {
            return false;
        }
        i = i + 1;
    }
    true
}

/// The texts of a list of strings.
pub open spec fn texts(v: Seq<String>) -> Seq<Seq<char>> {
    v.map_values(|s: String| s@)
}

/// Whether `list` holds a string equal to `s` (`list.contains(s)`).
pub fn contains_text(list: &Vec<String>, s: &String) -> (r: bool)
    ensures
        r == texts(list@).contains(s@),
{
    let mut i: usize = 0;
    while i < list.len()
        invariant
            i <= list.len(),
            forall|j: int| 0 <= j < i ==> list@[j]@ != s@,
        decreases list.len() - i,
    {
        if list[i] == *s {
            assert(texts(list@)[i as int] == s@);
            return true;
        }
        i = i + 1;
    }
    assert forall|j: int| 0 <= j < texts(list@).len() implies texts(list@)[j] != s@ by {
        assert(texts(list@)[j] == list@[j]@);
    }
    false
}

} // verus!
