//! File names: how the short and the long names of directory entries are
//! decoded, and how names are compared.

use vstd::prelude::*;

verus! {

/// `String::push` appends the character to the string.
pub assume_specification[ String::push ](s: &mut String, c: char)
    ensures
        final(s)@ == old(s)@.push(c),
;

/// The characters that a sequence of UTF-16 code units decodes to, with
/// U+FFFD in place of every unit that is not part of a valid encoding.
pub uninterp spec fn utf16_lossy(units: Seq<u16>) -> Seq<char>;

/// `String::from_utf16_lossy` decodes UTF-16, replacing invalid data with
/// U+FFFD: its result is what [`utf16_lossy`] names.
pub assume_specification[ String::from_utf16_lossy ](v: &[u16]) -> (s: String)
    ensures
        s@ == utf16_lossy(v@),
;

/// Whether `c` is white space: whether it has the Unicode property
/// `White_Space`. These are the 25 characters U+0009 to U+000D, U+0020,
/// U+0085, U+00A0, U+1680, U+2000 to U+200A, U+2028, U+2029, U+202F,
/// U+205F and U+3000.
pub open spec fn is_white_space(c: char) -> bool {
    let u = c as u32;
    ||| 0x0009 <= u <= 0x000D
    ||| u == 0x0020
    ||| u == 0x0085
    ||| u == 0x00A0
    ||| u == 0x1680
    ||| 0x2000 <= u <= 0x200A
    ||| u == 0x2028
    ||| u == 0x2029
    ||| u == 0x202F
    ||| u == 0x205F
    ||| u == 0x3000
}

/// The index of the first character of `s`, from `from` on, that is not
/// white space; the length of `s` if there is none.
pub open spec fn trim_start(s: Seq<char>, from: int) -> int
    decreases s.len() - from,
{
    if from < 0 || from >= s.len() {
        s.len() as int
    } else if !is_white_space(s[from]) {
        from
    } else {
        trim_start(s, from + 1)
    }
}

/// The index behind the last character of `s`, before `to`, that is not
/// white space; 0 if there is none.
pub open spec fn trim_end(s: Seq<char>, to: int) -> int
    decreases to,
{
    if to <= 0 || to > s.len() {
        0
    } else if !is_white_space(s[to - 1]) {
        to
    } else {
        trim_end(s, to - 1)
    }
}

/// The string `s` without the white space at its start and at its end.
pub open spec fn trimmed(s: Seq<char>) -> Seq<char> {
    if trim_start(s, 0) <= trim_end(s, s.len() as int) {
        s.subrange(trim_start(s, 0), trim_end(s, s.len() as int))
    } else {
        Seq::empty()
    }
}

/// A name that neither starts nor ends with white space is not changed by
/// trimming.
pub proof fn lemma_trimmed_unchanged(s: Seq<char>)
    requires
        s.len() > 0,
        !is_white_space(s[0]),
        !is_white_space(s[s.len() - 1]),
    ensures
        trimmed(s) == s,
{
    assert(s.subrange(0, s.len() as int) =~= s);
}

/// `str::trim` returns the string without leading and trailing white
/// space, where white space is what the Unicode property `White_Space`
/// says.
pub assume_specification[ str::trim ](s: &str) -> (r: &str)
    ensures
        r@ == trimmed(s@),
;

/// The character `c`, in lower case if it is one of the ASCII letters `A`
/// to `Z`.
pub open spec fn ascii_lower(c: char) -> char {
    if 0x41 <= c as u32 <= 0x5A {
        ((c as u32) + 32) as char
    } else {
        c
    }
}

/// Whether `a` and `b` are the same but for the case of ASCII letters.
pub open spec fn same_ignoring_case(a: Seq<char>, b: Seq<char>) -> bool {
    &&& a.len() == b.len()
    &&& forall|i: int| 0 <= i < a.len() ==> ascii_lower(#[trigger] a[i]) == ascii_lower(b[i])
}

/// `str::eq_ignore_ascii_case` tells whether two strings match when the
/// ASCII letters of both are taken in lower case.
pub assume_specification[ str::eq_ignore_ascii_case ](a: &str, b: &str) -> (r: bool)
    ensures
        r == same_ignoring_case(a@, b@),
;

/// The index of the first byte of `s`, from `from` on, that is `0x00` or
/// `0x20`; the length of `s` if there is none.
pub open spec fn name_end(s: Seq<u8>, from: int) -> int
    decreases s.len() - from,
{
    if from < 0 || from >= s.len() {
        s.len() as int
    } else if s[from] == 0x00 || s[from] == 0x20 {
        from
    } else {
        name_end(s, from + 1)
    }
}

/// The characters whose code points are the bytes of `s`.
pub open spec fn latin(s: Seq<u8>) -> Seq<char> {
    Seq::new(s.len(), |i: int| s[i] as char)
}

/// The part of a short name that the bytes `s` hold: the bytes before the
/// first `0x00` or `0x20`, each taken as the character of that code point.
pub open spec fn short_name_part(s: Seq<u8>) -> Seq<char> {
    latin(s.subrange(0, name_end(s, 0)))
}

/// The index of the first unit of `s`, from `from` on, that is `0x0000` or
/// `0xFFFF`; the length of `s` if there is none.
pub open spec fn units_end(s: Seq<u16>, from: int) -> int
    decreases s.len() - from,
{
    if from < 0 || from >= s.len() {
        s.len() as int
    } else if s[from] == 0x0000 || s[from] == 0xFFFF {
        from
    } else {
        units_end(s, from + 1)
    }
}

/// The units of a long name before its terminator: those before the first
/// `0x0000` or `0xFFFF`.
pub open spec fn name_units(s: Seq<u16>) -> Seq<u16> {
    s.subrange(0, units_end(s, 0))
}

/// Decodes a part of a short name: the bytes of `name` up to the first
/// `0x00` or `0x20`, each taken as the character of that code point.
pub fn decode_file_name_utf8_ascii(name: &[u8]) -> (s: String)
    ensures
        s@ == short_name_part(name@),
{
    let mut s = String::new();
    let mut i: usize = 0;
    while i < name.len() && name[i] != 0x00 && name[i] != 0x20
        invariant
            i <= name@.len(),
            name_end(name@, 0) == name_end(name@, i as int),
            s@ == latin(name@.subrange(0, i as int)),
        decreases name@.len() - i,
    {
        s.push(name[i] as char);
        i += 1;
        assert(s@ =~= latin(name@.subrange(0, i as int)));
    }
    s
}

/// Decodes a long name: the UTF-16 code units of `name` up to the first
/// `0x0000` or `0xFFFF`, with U+FFFD in place of what does not decode.
pub fn decode_file_name_utf16(name: &[u16]) -> (s: String)
    ensures
        s@ == utf16_lossy(name_units(name@)),
{
    let mut units: Vec<u16> = Vec::new();
    let mut i: usize = 0;
    while i < name.len() && name[i] != 0x0000 && name[i] != 0xFFFF
        invariant
            i <= name@.len(),
            units_end(name@, 0) == units_end(name@, i as int),
            units@ == name@.subrange(0, i as int),
        decreases name@.len() - i,
    {
        units.push(name[i]);
        i += 1;
        assert(units@ =~= name@.subrange(0, i as int));
    }
    String::from_utf16_lossy(units.as_slice())
}

} // verus!
