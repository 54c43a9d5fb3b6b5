//! Text as a sequence of characters, with offsets counted in UTF-8 bytes.

use vstd::prelude::*;
use vstd::utf8::{char_is_scalar, encode_scalar, encode_utf8};
use crate::occurrence::{
    first_occurrence, lemma_first_occurrence, lemma_first_occurrence_is, occurs_at,
};

verus! {

/// `c` is white space: a character with the Unicode property `White_Space`.
pub open spec fn is_space(c: char) -> bool {
    let v = c as u32;
    ||| 0x09 <= v <= 0x0D
    ||| v == 0x20
    ||| v == 0x85
    ||| v == 0xA0
    ||| v == 0x1680
    ||| 0x2000 <= v <= 0x200A
    ||| v == 0x2028
    ||| v == 0x2029
    ||| v == 0x202F
    ||| v == 0x205F
    ||| v == 0x3000
}

/// Number of bytes that `c` takes in UTF-8.
pub open spec fn char_width(c: char) -> nat {
    encode_scalar(c as u32).len()
}

/// Number of bytes that `s` takes in UTF-8.
pub open spec fn byte_len(s: Seq<char>) -> nat {
    encode_utf8(s).len()
}

/// Byte offset at which the leftmost occurrence of `needle` in `hay` starts.
pub open spec fn first_byte_offset(hay: Seq<char>, needle: Seq<char>) -> Option<int> {
    match first_occurrence(hay, needle) {
        Some(at) => Some(byte_len(hay.take(at)) as int),
        None => None,
    }
}

/// The texts that a list of character vectors holds.
pub open spec fn text_views(list: Seq<Vec<char>>) -> Seq<Seq<char>> {
    Seq::new(list.len(), |k: int| list[k]@)
}

/// One more character adds its width to the byte length.
pub proof fn lemma_byte_len_push(s: Seq<char>, c: char)
    ensures
        byte_len(s.push(c)) == byte_len(s) + char_width(c),
    decreases s.len(),
{
    let t = s.push(c);
    if s.len() == 0 {
        assert(t.drop_first() =~= Seq::<char>::empty());
        assert(encode_utf8(t.drop_first()).len() == 0);
        assert(t[0] == c);
    } else {
        assert(t.drop_first() =~= s.drop_first().push(c));
        assert(t[0] == s[0]);
        lemma_byte_len_push(s.drop_first(), c);
    }
}

/// Number of bytes that `c` takes in UTF-8.
pub fn utf8_width(c: char) -> (w: u8)
    ensures
        w == char_width(c),
        1 <= w <= 4,
{
    let v: u32 = c as u32;
    proof {
        char_is_scalar(c);
    }
    if v < 0x80 {
        1
    } else if v < 0x800 {
        2
    } else if v < 0x10000 {
        3
    } else {
        4
    }
}

/// Whether `c` is white space.
pub fn is_whitespace(c: char) -> (r: bool)
    ensures
        r == is_space(c),
{
    let v: u32 = c as u32;
    (0x09 <= v && v <= 0x0D) || v == 0x20 || v == 0x85 || v == 0xA0 || v == 0x1680 || (0x2000 <= v
        && v <= 0x200A) || v == 0x2028 || v == 0x2029 || v == 0x202F || v == 0x205F || v == 0x3000
}

/// The characters of `s`, in order.
pub fn chars_of(s: &str) -> (v: Vec<char>)
    ensures
        v@ == s@,
{
    let mut v: Vec<char> = Vec::new();
    for c in it: s.chars()
        invariant
            v@ == it.seq().take(it.index() as int),
            it.seq() == s@,
    {
        v.push(c);
    }
    v
}

/// How many bytes `text` takes.
pub fn byte_length(text: &String) -> (n: usize)
    ensures
        n == byte_len(text@),
{
    text.as_str().as_bytes().len()
}

/// Whether `needle` stands in `hay` at offset `at`.
fn matches_at(hay: &Vec<char>, needle: &Vec<char>, at: usize) -> (r: bool)
    requires
        at + needle.len() <= hay.len(),
    ensures
        r == occurs_at(hay@, needle@, at as int),
{
    let mut k: usize = 0;
    while k < needle.len()
        invariant
            0 <= k <= needle.len(),
            at + needle.len() <= hay.len(),
            forall|p: int| 0 <= p < k ==> hay[at + p] == needle[p],
        decreases needle.len() - k,
    {
        if hay[at + k] != needle[k] {
            proof {
                let part = hay@.subrange(at as int, at + needle.len());
                assert(part[k as int] == hay[at + k]);
            }
            return false;
        }
        k = k + 1;
    }
    proof {
        assert(hay@.subrange(at as int, at + needle.len()) =~= needle@);
    }
    true
}

/// The leftmost occurrence of `needle` in `hay`: the offset at which it
/// starts, counted in characters and in bytes.
pub fn find(hay: &Vec<char>, needle: &Vec<char>) -> (r: Option<(usize, i128)>)
    ensures
        match r {
            Some((at, bytes)) => first_occurrence(hay@, needle@) == Some(at as int)
                && first_byte_offset(hay@, needle@) == Some(bytes as int),
            None => first_occurrence(hay@, needle@) is None,
        },
{
    if needle.len() > hay.len() {
        proof {
            lemma_first_occurrence(hay@, needle@);
        }
        return None;
    }
    let last = hay.len() - needle.len();
    let mut at: usize = 0;
    let mut bytes: i128 = 0;
    proof {
        assert(hay@.take(0) =~= Seq::<char>::empty());
    }
    loop
        invariant
            0 <= at <= last,
            last == hay.len() - needle.len(),
            bytes == byte_len(hay@.take(at as int)),
            bytes <= 4 * at,
            forall|b: int| 0 <= b < at ==> !occurs_at(hay@, needle@, b),
        decreases last - at,
    {
        if matches_at(hay, needle, at) {
            proof {
                lemma_first_occurrence_is(hay@, needle@, at as int);
            }
            return Some((at, bytes));
        }
        if at == last {
            proof {
                lemma_first_occurrence(hay@, needle@);
            }
            return None;
        }
        proof {
            lemma_byte_len_push(hay@.take(at as int), hay[at as int]);
            assert(hay@.take(at + 1) =~= hay@.take(at as int).push(hay[at as int]));
        }
        bytes = bytes + utf8_width(hay[at]) as i128;
        at = at + 1;
    }
}

} // verus!
