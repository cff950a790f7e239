//! Facts about the UTF-8 encoding of character sequences that the label
//! edits rely on.

use vstd::prelude::*;
use vstd::utf8::*;

verus! {

/// Encoding distributes over concatenation.
pub proof fn lemma_encode_concat(a: Seq<char>, b: Seq<char>)
    ensures
        encode_utf8(a + b) == encode_utf8(a) + encode_utf8(b),
    decreases a.len(),
{
    if a.len() == 0 {
        assert(a + b =~= b);
        assert(encode_utf8(a) + encode_utf8(b) =~= encode_utf8(b));
    } else {
        assert((a + b).drop_first() =~= a.drop_first() + b);
        assert((a + b)[0] == a[0]);
        lemma_encode_concat(a.drop_first(), b);
        assert(encode_scalar(a[0] as u32) + (encode_utf8(a.drop_first()) + encode_utf8(b))
            =~= (encode_scalar(a[0] as u32) + encode_utf8(a.drop_first())) + encode_utf8(b));
    }
}

/// The end of an encoded prefix is a character boundary of the whole encoding.
pub proof fn lemma_prefix_end_is_boundary(a: Seq<char>, b: Seq<char>)
    ensures
        valid_utf8(encode_utf8(a + b)),
        is_char_boundary(encode_utf8(a + b), encode_utf8(a).len() as int),
    decreases a.len(),
{
    encode_utf8_valid_utf8(a + b);
    if a.len() > 0 {
        let ab = a + b;
        let bytes = encode_utf8(ab);
        encode_utf8_first_scalar(ab);
        assert(ab[0] == a[0]);
        assert(ab.drop_first() =~= a.drop_first() + b);
        assert(pop_first_scalar(bytes) =~= encode_utf8(a.drop_first() + b));
        lemma_encode_concat(a, b);
        lemma_prefix_end_is_boundary(a.drop_first(), b);
    }
}

/// Dropping the encoding of a prefix leaves the encoding of the rest.
pub proof fn lemma_drop_encoded_prefix(a: Seq<char>, b: Seq<char>)
    ensures
        decode_utf8(
            encode_utf8(a + b).subrange(encode_utf8(a).len() as int, encode_utf8(a + b).len() as int),
        ) == b,
{
    lemma_encode_concat(a, b);
    assert(encode_utf8(a + b).subrange(encode_utf8(a).len() as int, encode_utf8(a + b).len() as int)
        =~= encode_utf8(b));
    encode_utf8_decode_utf8(b);
}

} // verus!
