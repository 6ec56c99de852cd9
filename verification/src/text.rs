//! Small text utilities: white space, trimming, and joining lines.

use vstd::prelude::*;

verus! {

/// `String::push` of the standard library appends one character to the string and leaves the
/// characters before it as they were.
pub assume_specification[ String::push ](s: &mut String, c: char)
    ensures
        final(s)@ == old(s)@.push(c),
;

/// Whether `c` is white space in the sense of Unicode (the property `White_Space`).
pub open spec fn is_white_space(c: char) -> bool {
    let p = c as u32;
    ||| 0x09 <= p <= 0x0D
    ||| p == 0x20
    ||| p == 0x85
    ||| p == 0xA0
    ||| p == 0x1680
    ||| 0x2000 <= p <= 0x200A
    ||| p == 0x2028
    ||| p == 0x2029
    ||| p == 0x202F
    ||| p == 0x205F
    ||| p == 0x3000
}

/// Index of the first character at or after `from` that is not white space; the length of the
/// text when there is none.
pub open spec fn trim_start(s: Seq<char>, from: int) -> int
    decreases s.len() - from,
{
    if 0 <= from < s.len() && is_white_space(s[from]) {
        trim_start(s, from + 1)
    } else {
        from
    }
}

/// Index after the last character before `upto` that is not white space, never going below
/// `floor`.
pub open spec fn trim_end(s: Seq<char>, upto: int, floor: int) -> int
    decreases upto,
{
    if 0 <= floor < upto <= s.len() && is_white_space(s[upto - 1]) {
        trim_end(s, upto - 1, floor)
    } else {
        upto
    }
}

/// The text without the white space at its start and at its end.
pub open spec fn trimmed(s: Seq<char>) -> Seq<char> {
    let lo = trim_start(s, 0);
    let hi = trim_end(s, s.len() as int, lo);
    s.subrange(lo, hi)
}

/// The texts joined into one, with a line feed between each two neighbours.
pub open spec fn joined_lines(texts: Seq<Seq<char>>) -> Seq<char>
    decreases texts.len(),
{
    if texts.len() == 0 {
        Seq::empty()
    } else if texts.len() == 1 {
        texts[0]
    } else {
        joined_lines(texts.drop_last()) + seq!['\n'] + texts.last()
    }
}

/// Where trimming starts lies within the text, with white space only before it and none at it.
pub proof fn lemma_trim_start(s: Seq<char>, from: int)
    requires
        0 <= from <= s.len(),
    ensures
        from <= trim_start(s, from) <= s.len(),
        forall|k: int| from <= k < trim_start(s, from) ==> is_white_space(#[trigger] s[k]),
        trim_start(s, from) < s.len() ==> !is_white_space(s[trim_start(s, from)]),
    decreases s.len() - from,
{
    if from < s.len() && is_white_space(s[from]) {
        lemma_trim_start(s, from + 1);
    }
}

/// Where trimming ends lies between the floor and the end of the text, with white space only
/// after it and none just before it unless the floor was reached.
pub proof fn lemma_trim_end(s: Seq<char>, upto: int, floor: int)
    requires
        0 <= floor <= upto <= s.len(),
    ensures
        floor <= trim_end(s, upto, floor) <= upto,
        forall|k: int| trim_end(s, upto, floor) <= k < upto ==> is_white_space(#[trigger] s[k]),
        trim_end(s, upto, floor) > floor ==> !is_white_space(s[trim_end(s, upto, floor) - 1]),
    decreases upto,
{
    if floor < upto && is_white_space(s[upto - 1]) {
        lemma_trim_end(s, upto - 1, floor);
    }
}

/// A trimmed text neither starts nor ends with white space.
pub proof fn lemma_trimmed_has_no_margin(s: Seq<char>)
    ensures
        trimmed(s).len() > 0 ==> !is_white_space(trimmed(s).first()) && !is_white_space(
            trimmed(s).last(),
        ),
{
    lemma_trim_start(s, 0);
    lemma_trim_end(s, s.len() as int, trim_start(s, 0));
}

/// Whether `c` is white space.
pub fn is_space(c: char) -> (b: bool)
    ensures
        b == is_white_space(c),
{
    let p: u32 = c as u32;
    (0x09 <= p && p <= 0x0D) || p == 0x20 || p == 0x85 || p == 0xA0 || p == 0x1680 || (0x2000 <= p
        && p <= 0x200A) || p == 0x2028 || p == 0x2029 || p == 0x202F || p == 0x205F || p == 0x3000
}

/// The characters of `text` without the white space at its start and at its end.
pub fn trim_chars(text: &Vec<char>) -> (out: Vec<char>)
    ensures
        out@ == trimmed(text@),
{
    let n: usize = text.len();
    let mut lo: usize = 0;
    while lo < n && is_space(text[lo])
        invariant
            n == text@.len(),
            lo <= n,
            trim_start(text@, 0) == trim_start(text@, lo as int),
        decreases n - lo,
    {
        lo = lo + 1;
    }
    let mut hi: usize = n;
    while hi > lo && is_space(text[hi - 1])
        invariant
            n == text@.len(),
            lo <= hi <= n,
            trim_end(text@, n as int, lo as int) == trim_end(text@, hi as int, lo as int),
        decreases hi,
    {
        hi = hi - 1;
    }
    let mut out: Vec<char> = Vec::new();
    let mut i: usize = lo;
    while i < hi
        invariant
            lo <= i <= hi <= n,
            n == text@.len(),
            out@ == text@.subrange(lo as int, i as int),
        decreases hi - i,
    {
        out.push(text[i]);
        assert(text@.subrange(lo as int, i + 1) =~= text@.subrange(lo as int, i as int).push(
            text@[i as int],
        ));
        i = i + 1;
    }
    out
}

/// The characters as a string.
pub fn string_of(chars: &Vec<char>) -> (s: String)
    ensures
        s@ == chars@,
{
    let mut s = String::new();
    let mut i: usize = 0;
    while i < chars.len()
        invariant
            i <= chars@.len(),
            s@ == chars@.take(i as int),
        decreases chars@.len() - i,
    {
        s.push(chars[i]);
        assert(chars@.take(i + 1) =~= chars@.take(i as int).push(chars@[i as int]));
        i = i + 1;
    }
    assert(chars@.take(chars@.len() as int) =~= chars@);
    s
}

} // verus!
