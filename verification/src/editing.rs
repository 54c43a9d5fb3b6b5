//! Editing a line of text at a cursor that counts bytes.

use vstd::prelude::*;
use crate::text::{byte_len, char_width, chars_of, utf8_width};

verus! {

/// Of `String::push` it is taken on trust that it puts the character at the
/// end of the string and leaves the rest as it is.
pub assume_specification[ String::push ](s: &mut String, c: char)
    ensures
        final(s)@ == old(s)@.push(c),
;

/// How many characters stand before the byte offset `offset`, if the offset
/// lies at the start of a character or at the end of the text.
pub open spec fn boundary_index(text: Seq<char>, offset: int) -> Option<int>
    decreases text.len(),
{
    if offset == 0 {
        Some(0)
    } else if text.len() == 0 || offset < char_width(text[0]) {
        None
    } else {
        match boundary_index(text.drop_first(), offset - char_width(text[0])) {
            Some(k) => Some(k + 1),
            None => None,
        }
    }
}

/// The text without the character that starts at byte offset `offset`, and
/// that character. There is none where the offset is the end of the text,
/// lies behind it or inside a character.
pub open spec fn removed_at(text: Seq<char>, offset: int) -> Option<(Seq<char>, char)> {
    match boundary_index(text, offset) {
        Some(k) => if k < text.len() {
            Some((text.remove(k), text[k]))
        } else {
            None
        },
        None => None,
    }
}

/// The text with `c` put in at byte offset `offset`. There is none where the
/// offset lies behind the end of the text or inside a character.
pub open spec fn inserted_at(text: Seq<char>, offset: int, c: char) -> Option<Seq<char>> {
    match boundary_index(text, offset) {
        Some(k) => Some(text.insert(k, c)),
        None => None,
    }
}

/// An index that `boundary_index` gives lies inside the text or at its end.
pub proof fn lemma_boundary_index(text: Seq<char>, offset: int)
    ensures
        match boundary_index(text, offset) {
            Some(k) => 0 <= k <= text.len() && byte_len(text.take(k)) == offset,
            None => true,
        },
    decreases text.len(),
{
    if offset == 0 {
        assert(text.take(0) =~= Seq::<char>::empty());
    } else if text.len() > 0 && offset >= char_width(text[0]) {
        let rest = text.drop_first();
        lemma_boundary_index(rest, offset - char_width(text[0]));
        match boundary_index(rest, offset - char_width(text[0])) {
            Some(k) => {
                assert(text.take(k + 1).drop_first() =~= rest.take(k));
                assert(text.take(k + 1)[0] == text[0]);
            },
            None => {},
        }
    }
}

/// How many characters stand before the byte offset `offset`.
pub fn index_at(text: &Vec<char>, offset: usize) -> (r: Option<usize>)
    ensures
        match r {
            Some(k) => boundary_index(text@, offset as int) == Some(k as int) && k <= text.len(),
            None => boundary_index(text@, offset as int) is None,
        },
{
    let mut k: usize = 0;
    let mut left: usize = offset;
    proof {
        assert(text@.skip(0) =~= text@);
    }
    loop
        invariant
            0 <= k <= text.len(),
            left <= offset,
            boundary_index(text@, offset as int) == match boundary_index(
                text@.skip(k as int),
                left as int,
            ) {
                Some(more) => Some(k + more),
                None => None,
            },
        decreases text.len() - k,
    {
        if left == 0 {
            return Some(k);
        }
        if k == text.len() {
            return None;
        }
        let width = utf8_width(text[k]) as usize;
        proof {
            assert(text@.skip(k as int)[0] == text[k as int]);
            assert(text@.skip(k as int).drop_first() =~= text@.skip(k + 1));
        }
        if left < width {
            return None;
        }
        left = left - width;
        k = k + 1;
    }
}

/// The string that holds the characters of `text`.
pub fn string_of(text: &Vec<char>) -> (s: String)
    ensures
        s@ == text@,
{
    let mut s = String::new();
    let mut k: usize = 0;
    while k < text.len()
        invariant
            0 <= k <= text.len(),
            s@ == text@.take(k as int),
        decreases text.len() - k,
    {
        s.push(text[k]);
        proof {
            assert(text@.take(k + 1) =~= text@.take(k as int).push(text[k as int]));
        }
        k = k + 1;
    }
    proof {
        assert(text@.take(text.len() as int) =~= text@);
    }
    s
}

/// Takes out the character that starts at byte offset `offset`.
pub fn remove_at(text: &String, offset: usize) -> (r: Option<(String, char)>)
    ensures
        match r {
            Some((rest, c)) => removed_at(text@, offset as int) == Some((rest@, c)),
            None => removed_at(text@, offset as int) is None,
        },
{
    let mut chars = chars_of(text.as_str());
    match index_at(&chars, offset) {
        Some(k) => {
            if k < chars.len() {
                let c = chars.remove(k);
                Some((string_of(&chars), c))
            } else {
                None
            }
        },
        None => None,
    }
}

/// Puts `c` in at byte offset `offset`.
pub fn insert_at(text: &String, offset: usize, c: char) -> (r: Option<String>)
    ensures
        match r {
            Some(longer) => inserted_at(text@, offset as int, c) == Some(longer@),
            None => inserted_at(text@, offset as int, c) is None,
        },
{
    let mut chars = chars_of(text.as_str());
    match index_at(&chars, offset) {
        Some(k) => {
            chars.insert(k, c);
            Some(string_of(&chars))
        },
        None => None,
    }
}

} // verus!
