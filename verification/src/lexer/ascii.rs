//! Runs of ASCII bytes inside UTF-8 text, and the text they spell.

use vstd::prelude::*;
use vstd::string::StringSliceAdditionalSpecFns;
use vstd::utf8::{
    decode_utf8, encode_utf8_decode_utf8, encode_utf8_valid_utf8, is_char_boundary,
    is_char_boundary_iff_not_is_continuation_byte, pop_first_scalar, valid_utf8,
};
use crate::lexer::scan::{all_ascii, text_of};

verus! {

/// ASCII bytes are valid UTF-8, and they decode to one character for each
/// byte, the character whose code is the byte.
pub proof fn lemma_ascii_decodes(bytes: Seq<u8>)
    requires
        all_ascii(bytes),
    ensures
        valid_utf8(bytes),
        decode_utf8(bytes) == text_of(bytes),
    decreases bytes.len(),
{
    if bytes.len() > 0 {
        let b = bytes[0];
        let rest = bytes.subrange(1, bytes.len() as int);
        assert(b & 0x7F == b) by (bit_vector)
            requires
                b < 0x80,
        ;
        assert(pop_first_scalar(bytes) == rest);
        assert forall|k: int| 0 <= k < rest.len() implies #[trigger] rest[k] < 0x80 by {
            assert(rest[k] == bytes[k + 1]);
        }
        lemma_ascii_decodes(rest);
        assert(text_of(bytes) =~= seq![b as char] + text_of(rest));
    } else {
        assert(text_of(bytes) =~= Seq::<char>::empty());
    }
}

/// In valid UTF-8 that starts with `n` ASCII bytes, a character ends at
/// `n`.
pub proof fn lemma_boundary_after_ascii(bytes: Seq<u8>, n: int)
    requires
        valid_utf8(bytes),
        0 <= n <= bytes.len(),
        forall|k: int| 0 <= k < n ==> #[trigger] bytes[k] < 0x80,
    ensures
        is_char_boundary(bytes, n),
    decreases n,
{
    if n > 0 {
        let rest = bytes.subrange(1, bytes.len() as int);
        assert(bytes[0] < 0x80);
        assert(pop_first_scalar(bytes) == rest);
        assert forall|k: int| 0 <= k < n - 1 implies #[trigger] rest[k] < 0x80 by {
            assert(rest[k] == bytes[k + 1]);
        }
        lemma_boundary_after_ascii(rest, n - 1);
    }
}

/// The text of the bytes of `source` from `start` up to `end`, which are
/// ASCII and at least one.
pub(crate) fn ascii_text(source: &str, start: usize, end: usize) -> (text: String)
    requires
        start < end <= source.spec_bytes().len(),
        all_ascii(source.spec_bytes().subrange(start as int, end as int)),
    ensures
        text@ == text_of(source.spec_bytes().subrange(start as int, end as int)),
{
    let ghost bytes = source.spec_bytes();
    proof {
        encode_utf8_valid_utf8(source@);
        assert(bytes.subrange(start as int, end as int)[0] == bytes[start as int]);
        is_char_boundary_iff_not_is_continuation_byte(bytes, start as int);
    }
    let (_, tail) = source.split_at(start);
    let ghost tail_bytes = tail.spec_bytes();
    proof {
        encode_utf8_valid_utf8(tail@);
        assert forall|k: int| 0 <= k < end - start implies #[trigger] tail_bytes[k] < 0x80 by {
            assert(bytes.subrange(start as int, end as int)[k] == bytes[start + k]);
        }
        lemma_boundary_after_ascii(tail_bytes, end - start);
    }
    let (word, _) = tail.split_at(end - start);
    proof {
        assert(word.spec_bytes() =~= bytes.subrange(start as int, end as int));
        lemma_ascii_decodes(word.spec_bytes());
        encode_utf8_decode_utf8(word@);
    }
    word.to_owned()
}

} // verus!
