use vstd::prelude::*;
use vstd::utf8::encode_scalar;
use vstd::utf8::encode_utf8;
use vstd::utf8::decode_utf8;
use vstd::utf8::valid_utf8;

verus! {

/// The characters a byte sequence spells when every byte is read as one
/// character, the reading short strings use for their text.
pub open spec fn byte_chars(b: Seq<u8>) -> Seq<char> {
    b.map_values(|x: u8| x as char)
}

/// Relies on String::from_utf8: it returns the decoded string exactly when
/// the bytes are valid UTF-8, and reports the encoding error otherwise.
#[verifier::external_body]
pub fn utf8_to_string(bytes: Vec<u8>) -> (r: Option<String>)
    ensures
        r is Some <==> valid_utf8(bytes@),
        r matches Some(s) ==> s@ == decode_utf8(bytes@),
{
    match String::from_utf8(bytes) {
        Ok(s) => Some(s),
        Err(_) => None,
    }
}

/// Appends the UTF-8 encoding of the one character the byte stands for.
pub fn push_byte_char(out: &mut Vec<u8>, b: u8)
    ensures
        final(out)@ == old(out)@ + encode_utf8(seq![b as char]),
{
    proof {
        let c = b as char;
        let s = c as u32;
        assert(s == b as u32);
        assert(encode_utf8(seq![c]) == encode_scalar(s) + encode_utf8(seq![c].drop_first()));
        assert(seq![c].drop_first() =~= Seq::<char>::empty());
        assert(encode_utf8(Seq::<char>::empty()) =~= Seq::<u8>::empty());
        if b < 0x80 {
            assert((s & 0x7F) as u8 == b) by (bit_vector)
                requires
                    s == b as u32,
                    b < 0x80,
            ;
            assert(encode_scalar(s) =~= seq![b]);
            assert(old(out)@ + (seq![b] + Seq::<u8>::empty()) =~= old(out)@.push(b));
        } else {
            assert(0x80 <= s < 0x800) by (bit_vector)
                requires
                    s == b as u32,
                    b >= 0x80,
            ;
            assert((0xC0 | (((s >> 6) & 0x1F) as u8)) == (0xC0 | (b >> 6)) && (0x80 | ((s
                & 0x3F) as u8)) == (0x80 | (b & 0x3F))) by (bit_vector)
                requires
                    s == b as u32,
                    b >= 0x80,
            ;
            assert(encode_scalar(s) =~= seq![0xC0 | (b >> 6), 0x80 | (b & 0x3F)]);
            assert(old(out)@ + (seq![0xC0 | (b >> 6), 0x80 | (b & 0x3F)]
                + Seq::<u8>::empty()) =~= old(out)@.push(0xC0 | (b >> 6)).push(
                0x80 | (b & 0x3F),
            ));
        }
    }
    if b < 0x80 {
        out.push(b);
    } else {
        out.push(0xC0 | (b >> 6));
        out.push(0x80 | (b & 0x3F));
    }
}

/// UTF-8 encoding distributes over concatenation of character sequences.
pub proof fn lemma_encode_utf8_concat(s1: Seq<char>, s2: Seq<char>)
    ensures
        encode_utf8(s1 + s2) == encode_utf8(s1) + encode_utf8(s2),
    decreases s1.len(),
{
    if s1.len() == 0 {
        assert(s1 + s2 =~= s2);
        assert(encode_utf8(s1) + encode_utf8(s2) =~= encode_utf8(s2));
    } else {
        assert((s1 + s2).drop_first() =~= s1.drop_first() + s2);
        assert((s1 + s2)[0] == s1[0]);
        lemma_encode_utf8_concat(s1.drop_first(), s2);
        assert(encode_scalar(s1[0] as u32) + (encode_utf8(s1.drop_first()) + encode_utf8(s2))
            =~= (encode_scalar(s1[0] as u32) + encode_utf8(s1.drop_first())) + encode_utf8(s2));
    }
}

/// A single character appended to a character sequence.
pub proof fn lemma_encode_utf8_push(s: Seq<char>, c: char)
    ensures
        encode_utf8(s.push(c)) == encode_utf8(s) + encode_utf8(seq![c]),
{
    assert(s.push(c) =~= s + seq![c]);
    lemma_encode_utf8_concat(s, seq![c]);
}

} // verus!
