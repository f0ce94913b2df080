//! Packing of arbitrary text into felt words.
//!
//! A string is represented as an array of felts, each full word packing
//! exactly 31 bytes, together with one pending word that holds the final,
//! always shorter, chunk and its byte count.

use vstd::prelude::*;
use vstd::utf8::encode_utf8;
use vstd::utf8::decode_utf8;
use vstd::utf8::valid_utf8;
use vstd::string::StrSliceExecFns;
use crate::felt::Felt;
use crate::felt::be_val;
use crate::felt::pad32;
use crate::text::utf8_to_string;

verus! {

/// Decoding failure: the packed bytes are not valid UTF-8.
#[derive(Debug, Clone, PartialEq, Eq, Structural)]
pub enum DecodeError {
    InvalidUtf8,
}

/// A string packed as felt words: full 31-byte words in `data`, and the
/// final chunk of `pending_word_len` bytes (0 to 30) in `pending_word`.
#[derive(Debug, Clone, PartialEq, Eq)]
pub struct ByteArray {
    pub data: Vec<Felt>,
    pub pending_word: Felt,
    pub pending_word_len: usize,
}

/// The 31 meaningful bytes of a full word: its 32-byte representation with
/// the leading always-zero byte dropped.
pub open spec fn word_tail(w: Seq<u8>) -> Seq<u8>
    recommends
        w.len() == 32,
{
    w.subrange(1, 32)
}

/// The `len` meaningful bytes of a pending word: the low-order end of its
/// 32-byte representation.
pub open spec fn pending_tail(w: Seq<u8>, len: nat) -> Seq<u8>
    recommends
        w.len() == 32,
        len <= 32,
{
    w.subrange(32 - len, 32)
}

/// The bytes spread over a sequence of full words, in order.
pub open spec fn words_bytes(ws: Seq<Seq<u8>>) -> Seq<u8>
    decreases ws.len(),
{
    if ws.len() == 0 {
        Seq::empty()
    } else {
        words_bytes(ws.drop_last()) + word_tail(ws.last())
    }
}

impl ByteArray {
    /// Validity: every word is a felt, and the pending chunk is 0 to 30
    /// bytes long.
    pub open spec fn wf(self) -> bool {
        &&& self.pending_word_len <= 30
        &&& self.pending_word.wf()
        &&& forall|i: int| 0 <= i < self.data@.len() ==> (#[trigger] self.data@[i]).wf()
    }

    /// The 32-byte representations of the full words.
    pub open spec fn word_views(self) -> Seq<Seq<u8>> {
        self.data@.map_values(|f: Felt| f@)
    }

    /// The byte sequence this array carries: 31 bytes from each full word,
    /// then the pending bytes.
    pub open spec fn byte_contents(self) -> Seq<u8> {
        words_bytes(self.word_views()) + pending_tail(
            self.pending_word@,
            self.pending_word_len as nat,
        )
    }

    /// This array is exactly the chunked encoding of the byte sequence `b`:
    /// consecutive 31-byte chunks as full words, the remainder (if any) as
    /// the pending word.
    pub open spec fn encodes(self, b: Seq<u8>) -> bool {
        &&& self.data@.len() == b.len() / 31
        &&& (forall|i: int|
            0 <= i < self.data@.len() ==> (#[trigger] self.data@[i])@ == pad32(
                b.subrange(31 * i, 31 * i + 31),
            ))
        &&& self.pending_word_len as nat == b.len() % 31
        &&& self.pending_word@ == pad32(b.subrange(b.len() - (b.len() % 31), b.len() as int))
    }

    /// Packs a byte sequence: consecutive chunks of at most 31 bytes, the
    /// last, shorter chunk (if any) as the pending word.
    pub fn from_bytes(bytes: &Vec<u8>) -> (r: ByteArray)
        ensures
            r.wf(),
            r.encodes(bytes@),
            r.byte_contents() == bytes@,
            r.pending_word_len == 0 ==> r.pending_word.value() == 0,
    {
        let n = bytes.len();
        let full = n / 31;
        let rem = n % 31;
        let mut data: Vec<Felt> = Vec::new();
        for i in 0..full
            invariant
                n == bytes@.len(),
                full == n / 31,
                rem == n % 31,
                data@.len() == i,
                forall|k: int|
                    0 <= k < i ==> (#[trigger] data@[k]).wf() && data@[k]@ == pad32(
                        bytes@.subrange(31 * k, 31 * k + 31),
                    ),
        {
            data.push(Felt::from_chunk(bytes, 31 * i, 31));
        }
        let pending_word = Felt::from_chunk(bytes, n - rem, rem);
        let r = ByteArray { data, pending_word, pending_word_len: rem };
        proof {
            assert(r.encodes(bytes@));
            lemma_encoding_contents(r, bytes@);
            if rem == 0 {
                crate::felt::lemma_pad32_value(bytes@.subrange(n as int, n as int));
            }
        }
        r
    }

    /// Packs the UTF-8 bytes of a string.
    pub fn from_string(string: &str) -> (r: ByteArray)
        ensures
            r.wf(),
            r.encodes(encode_utf8(string@)),
            r.byte_contents() == encode_utf8(string@),
    {
        let bytes = string.as_bytes_vec();
        ByteArray::from_bytes(&bytes)
    }

    /// Unpacks the carried bytes: 31 from each full word, then the pending
    /// bytes, in order.
    pub fn to_bytes(&self) -> (r: Vec<u8>)
        requires
            self.wf(),
        ensures
            r@ == self.byte_contents(),
    {
        let mut out: Vec<u8> = Vec::new();
        let n = self.data.len();
        for i in 0..n
            invariant
                self.wf(),
                n == self.data@.len(),
                out@ == words_bytes(self.word_views().subrange(0, i as int)),
        {
            for j in 1..32usize
                invariant
                    self.wf(),
                    i < n,
                    n == self.data@.len(),
                    out@ == words_bytes(self.word_views().subrange(0, i as int))
                        + self.data@[i as int]@.subrange(1, j as int),
            {
                proof {
                    assert(self.data@[i as int]@.subrange(1, j + 1) =~= self.data@[
                        i as int
                    ]@.subrange(1, j as int).push(self.data@[i as int]@[j as int]));
                }
                out.push(self.data[i].bytes[j]);
            }
            proof {
                let ws = self.word_views();
                assert(ws.subrange(0, i + 1).drop_last() =~= ws.subrange(0, i as int));
                assert(ws.subrange(0, i + 1).last() == self.data@[i as int]@);
                assert(self.data@[i as int]@.subrange(1, 32) == word_tail(self.data@[i as int]@));
            }
        }
        proof {
            assert(self.word_views().subrange(0, n as int) =~= self.word_views());
        }
        let len = self.pending_word_len;
        for j in 0..len
            invariant
                self.wf(),
                len == self.pending_word_len,
                out@ == words_bytes(self.word_views()) + self.pending_word@.subrange(
                    32 - len,
                    32 - len + j,
                ),
        {
            proof {
                assert(self.pending_word@.subrange(32 - len, 32 - len + j + 1)
                    =~= self.pending_word@.subrange(32 - len, 32 - len + j).push(
                    self.pending_word@[32 - len + j],
                ));
            }
            out.push(self.pending_word.bytes[32 - len + j]);
        }
        proof {
            assert(self.pending_word@.subrange(32 - len, 32 as int) == pending_tail(
                self.pending_word@,
                len as nat,
            ));
        }
        out
    }

    /// Unpacks the carried bytes and validates them, once, as one UTF-8
    /// buffer, so that characters straddling a word boundary survive.
    pub fn to_string(&self) -> (r: Result<String, DecodeError>)
        requires
            self.wf(),
        ensures
            r is Ok <==> valid_utf8(self.byte_contents()),
            r matches Ok(s) ==> s@ == decode_utf8(self.byte_contents()),
            r matches Err(e) ==> e == DecodeError::InvalidUtf8,
    {
        let bytes = self.to_bytes();
        match utf8_to_string(bytes) {
            Some(s) => Ok(s),
            None => Err(DecodeError::InvalidUtf8),
        }
    }
}

impl Default for ByteArray {
    /// The packing of the empty string.
    fn default() -> (r: ByteArray)
        ensures
            r.wf(),
            r.encodes(Seq::<u8>::empty()),
    {
        let r = ByteArray { data: Vec::new(), pending_word: Felt::zero(), pending_word_len: 0 };
        proof {
            assert(r.pending_word@ =~= pad32(Seq::<u8>::empty().subrange(0, 0)));
            assert(r.encodes(Seq::<u8>::empty()));
        }
        r
    }
}

/// Dropping the pad of a full 31-byte chunk gives the chunk back.
proof fn lemma_word_tail_pad(chunk: Seq<u8>)
    requires
        chunk.len() == 31,
    ensures
        word_tail(pad32(chunk)) == chunk,
{
    assert(word_tail(pad32(chunk)) =~= chunk);
}

/// Taking the low `len` bytes of a padded chunk of `len` bytes gives the
/// chunk back.
proof fn lemma_pending_tail_pad(chunk: Seq<u8>)
    requires
        chunk.len() <= 32,
    ensures
        pending_tail(pad32(chunk), chunk.len()) == chunk,
{
    assert(pending_tail(pad32(chunk), chunk.len()) =~= chunk);
}

proof fn lemma_words_prefix(ba: ByteArray, b: Seq<u8>, k: int)
    requires
        ba.encodes(b),
        0 <= k <= b.len() / 31,
    ensures
        words_bytes(ba.word_views().subrange(0, k)) == b.subrange(0, 31 * k),
    decreases k,
{
    if k == 0 {
        assert(words_bytes(ba.word_views().subrange(0, 0)) =~= b.subrange(0, 0));
    } else {
        lemma_words_prefix(ba, b, k - 1);
        let ws = ba.word_views().subrange(0, k);
        assert(ws.drop_last() =~= ba.word_views().subrange(0, k - 1));
        assert(ws.last() == ba.data@[k - 1]@);
        let chunk = b.subrange(31 * (k - 1), 31 * (k - 1) + 31);
        lemma_word_tail_pad(chunk);
        assert(b.subrange(0, 31 * (k - 1)) + chunk =~= b.subrange(0, 31 * k));
    }
}

/// The chunked encoding of a byte sequence carries exactly that sequence:
/// the round trip through packing and unpacking is the identity.
pub proof fn lemma_encoding_contents(ba: ByteArray, b: Seq<u8>)
    requires
        ba.encodes(b),
    ensures
        ba.byte_contents() == b,
{
    let full = b.len() / 31;
    lemma_words_prefix(ba, b, full as int);
    assert(ba.word_views().subrange(0, full as int) =~= ba.word_views());
    let chunk = b.subrange(b.len() - (b.len() % 31), b.len() as int);
    lemma_pending_tail_pad(chunk);
    assert(b.subrange(0, 31 * (full as int)) + chunk =~= b);
}

/// Round trip: an array that encodes the UTF-8 bytes of a string carries
/// valid UTF-8 that decodes to the same string.
pub proof fn lemma_string_round_trip(ba: ByteArray, s: Seq<char>)
    requires
        ba.encodes(encode_utf8(s)),
    ensures
        valid_utf8(ba.byte_contents()),
        decode_utf8(ba.byte_contents()) == s,
{
    lemma_encoding_contents(ba, encode_utf8(s));
    broadcast use vstd::utf8::encode_utf8_valid_utf8;
    broadcast use vstd::utf8::encode_utf8_decode_utf8;

}

} // verus!
