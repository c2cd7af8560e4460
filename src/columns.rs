use vstd::prelude::*;

verus! {

/// Addition that stops at `usize::MAX` instead of overflowing.
pub open spec fn sat_add(a: int, b: int) -> int {
    if a + b > usize::MAX { usize::MAX as int } else { a + b }
}

pub open spec fn is_continuation_byte(b: u8) -> bool {
    0x80 <= b < 0xC0
}

/// The columns that one byte of UTF-8 text occupies: a tab takes `tab_column_count`
/// columns, any other character one column, carried by its first byte.
pub open spec fn byte_column_count(b: u8, tab_column_count: usize) -> int {
    if b == 9 {
        tab_column_count as int
    } else if is_continuation_byte(b) {
        0
    } else {
        1
    }
}

/// The number of columns that the UTF-8 text `s` occupies.
pub open spec fn column_count_of(s: Seq<u8>, tab_column_count: usize) -> int
    decreases s.len(),
{
    if s.len() == 0 {
        0
    } else {
        sat_add(
            column_count_of(s.drop_last(), tab_column_count),
            byte_column_count(s.last(), tab_column_count),
        )
    }
}

/// `s[i..]` starts with the UTF-8 encoding of a white-space character.
pub open spec fn starts_with_whitespace(s: Seq<u8>, i: int) -> bool {
    ||| (i < s.len() && (s[i] == 0x20 || (0x09 <= s[i] <= 0x0D)))
    ||| (i + 1 < s.len() && s[i] == 0xC2 && (s[i + 1] == 0x85 || s[i + 1] == 0xA0))
    ||| (i + 2 < s.len() && s[i] == 0xE1 && s[i + 1] == 0x9A && s[i + 2] == 0x80)
    ||| (i + 2 < s.len() && s[i] == 0xE2 && s[i + 1] == 0x80 && ((0x80 <= s[i + 2] <= 0x8A) || s[i + 2]
        == 0xA8 || s[i + 2] == 0xA9 || s[i + 2] == 0xAF))
    ||| (i + 2 < s.len() && s[i] == 0xE2 && s[i + 1] == 0x81 && s[i + 2] == 0x9F)
    ||| (i + 2 < s.len() && s[i] == 0xE3 && s[i + 1] == 0x80 && s[i + 2] == 0x80)
}

/// `s[..j]` ends with the UTF-8 encoding of a white-space character.
pub open spec fn ends_with_whitespace(s: Seq<u8>, j: int) -> bool {
    ||| (j >= 1 && starts_with_whitespace(s, j - 1) && s[j - 1] < 0x80)
    ||| (j >= 2 && starts_with_whitespace(s, j - 2) && s[j - 2] == 0xC2)
    ||| (j >= 3 && starts_with_whitespace(s, j - 3) && s[j - 3] >= 0xE1)
}

/// Text is cut before a character that is not white space and follows one that is:
/// each piece is a word with the white space after it.
pub open spec fn is_whitespace_boundary(s: Seq<u8>, j: int) -> bool {
    &&& 0 < j < s.len()
    &&& !is_continuation_byte(s[j])
    &&& !starts_with_whitespace(s, j)
    &&& ends_with_whitespace(s, j)
}

pub fn column_count(s: &[u8], tab_column_count: usize) -> (r: usize)
    ensures
        r == column_count_of(s@, tab_column_count),
{
    let mut count: usize = 0;
    let mut i: usize = 0;
    while i < s.len()
        invariant
            i <= s.len(),
            count == column_count_of(s@.subrange(0, i as int), tab_column_count),
        decreases s.len() - i,
    {
        let b = s[i];
        let w: usize = if b == 9 {
            tab_column_count
        } else if 0x80 <= b && b < 0xC0 {
            0
        } else {
            1
        };
        proof {
            let p = s@.subrange(0, i + 1);
            assert(p.drop_last() =~= s@.subrange(0, i as int));
        }
        count = count.saturating_add(w);
        i += 1;
    }
    proof {
        assert(s@.subrange(0, s@.len() as int) =~= s@);
    }
    count
}

pub fn starts_with_whitespace_at(s: &[u8], i: usize) -> (r: bool)
    ensures
        r == starts_with_whitespace(s@, i as int),
{
    let n = s.len();
    if i < n && (s[i] == 0x20 || (0x09 <= s[i] && s[i] <= 0x0D)) {
        return true;
    }
    if i >= n || n - i < 2 {
        return false;
    }
    if s[i] == 0xC2 && (s[i + 1] == 0x85 || s[i + 1] == 0xA0) {
        return true;
    }
    if n - i < 3 {
        return false;
    }
    let (b0, b1, b2) = (s[i], s[i + 1], s[i + 2]);
    (b0 == 0xE1 && b1 == 0x9A && b2 == 0x80) || (b0 == 0xE2 && b1 == 0x80 && ((0x80 <= b2 && b2 <= 0x8A) || b2
        == 0xA8 || b2 == 0xA9 || b2 == 0xAF)) || (b0 == 0xE2 && b1 == 0x81 && b2 == 0x9F) || (b0
        == 0xE3 && b1 == 0x80 && b2 == 0x80)
}

pub fn ends_with_whitespace_at(s: &[u8], j: usize) -> (r: bool)
    requires
        j <= s.len(),
    ensures
        r == ends_with_whitespace(s@, j as int),
{
    (j >= 1 && s[j - 1] < 0x80 && starts_with_whitespace_at(s, j - 1)) || (j >= 2 && s[j - 2]
        == 0xC2 && starts_with_whitespace_at(s, j - 2)) || (j >= 3 && s[j - 3] >= 0xE1
        && starts_with_whitespace_at(s, j - 3))
}

pub fn is_whitespace_boundary_at(s: &[u8], j: usize) -> (r: bool)
    ensures
        r == is_whitespace_boundary(s@, j as int),
{
    0 < j && j < s.len() && !(0x80 <= s[j] && s[j] < 0xC0) && !starts_with_whitespace_at(s, j)
        && ends_with_whitespace_at(s, j)
}

} // verus!
