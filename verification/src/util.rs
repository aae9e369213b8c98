use vstd::prelude::*;
use vstd::string::StringSliceAdditionalSpecFns;
use vstd::utf8::*;

verus! {

/// The number of bytes that encode `c` in UTF-8.
pub fn utf8_width(c: char) -> (n: usize)
    ensures
        n == encode_scalar(c as u32).len(),
        1 <= n <= 4,
{
    let v = c as u32;
    if v < 0x80 {
        1
    } else if v < 0x800 {
        2
    } else if v < 0x1_0000 {
        3
    } else {
        4
    }
}

/// In valid UTF-8, the byte after a character that starts on a boundary is on a boundary.
proof fn lemma_boundary_after_scalar(bytes: Seq<u8>, index: int)
    requires
        valid_utf8(bytes),
        is_char_boundary(bytes, index),
        index < bytes.len(),
    ensures
        is_char_boundary(
            bytes,
            index + length_of_first_scalar(bytes.subrange(index, bytes.len() as int)),
        ),
    decreases bytes.len(),
{
    let width = length_of_first_scalar(bytes);
    let rest = pop_first_scalar(bytes);
    if index == 0 {
        assert(is_char_boundary(rest, 0));
    } else {
        assert(is_char_boundary(rest, index - width));
        lemma_boundary_after_scalar(rest, index - width);
    }
}

/// An owning source of characters: hands out the text one character at a time, keeping
/// its place as a byte offset that advances by each character's encoded width.
pub struct IntoChars {
    s: String,
    offset: usize,
}

impl IntoChars {
    /// Holds of every source: the offset stands at the start of a character or at the end.
    #[verifier::type_invariant]
    pub closed spec fn well_formed(self) -> bool {
        is_char_boundary(encode_utf8(self.s@), self.offset as int)
    }

    /// The characters that have not been handed out yet.
    pub closed spec fn remaining(&self) -> Seq<char> {
        let bytes = encode_utf8(self.s@);
        decode_utf8(bytes.subrange(self.offset as int, bytes.len() as int))
    }

    /// A source that hands out the characters of `s`, the first one first.
    pub fn new(s: String) -> (r: Self)
        ensures
            r.remaining() == s@,
    {
        proof {
            let bytes = encode_utf8(s@);
            encode_utf8_valid_utf8(s@);
            is_char_boundary_start_end_of_seq(bytes);
            assert(bytes.subrange(0, bytes.len() as int) =~= bytes);
            encode_utf8_decode_utf8(s@);
        }
        IntoChars { s, offset: 0 }
    }

    /// Hands out the next character, or `None` once the text is used up.
    pub fn next(&mut self) -> (c: Option<char>)
        ensures
            old(self).remaining().len() == 0 ==> c is None && final(self).remaining()
                == old(self).remaining(),
            old(self).remaining().len() > 0 ==> c == Some(old(self).remaining()[0])
                && final(self).remaining() == old(self).remaining().drop_first(),
    {
        broadcast use vstd::string::group_string_axioms;

        let ghost bytes = encode_utf8(self.s@);
        proof {
            use_type_invariant(&*self);
            encode_utf8_valid_utf8(self.s@);
            valid_utf8_split(bytes, self.offset as int);
        }
        let text = self.s.as_str();
        if self.offset >= text.as_bytes().len() {
            return None;
        }
        let (_, rest) = text.split_at(self.offset);
        let ghost tail = bytes.subrange(self.offset as int, bytes.len() as int);
        proof {
            encode_utf8_decode_utf8(rest@);
        }
        let mut it = rest.chars();
        match it.next() {
            Some(c) => {
                let width = utf8_width(c);
                proof {
                    encode_utf8_first_scalar(rest@);
                    lemma_boundary_after_scalar(bytes, self.offset as int);
                    let after = rest@.drop_first();
                    assert(bytes.subrange(self.offset + width, bytes.len() as int)
                        =~= tail.subrange(width as int, tail.len() as int));
                    encode_utf8_decode_utf8(after);
                }
                self.offset = self.offset + width;
                Some(c)
            },
            None => None,
        }
    }
}

} // verus!
