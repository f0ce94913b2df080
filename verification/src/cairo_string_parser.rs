//! The dual-format long-string parser: a sequence of felts is either the
//! legacy array of short strings (a count felt followed by that many short
//! strings) or the packed byte-array form, told apart by whether the first
//! element plus one equals the element count.

use vstd::prelude::*;
use vstd::utf8::encode_utf8;
use vstd::utf8::decode_utf8;
use vstd::utf8::valid_utf8;
use crate::felt::Felt;
use crate::felt::be_val;
use crate::byte_array::ByteArray;
use crate::byte_array::words_bytes;
use crate::byte_array::pending_tail;
use crate::text::byte_chars;
use crate::text::utf8_to_string;
use crate::text::push_byte_char;
use crate::text::lemma_encode_utf8_push;
use crate::text::lemma_encode_utf8_concat;

verus! {

/// Why a felt sequence failed to parse as a string.
#[derive(Debug, Clone, PartialEq, Eq, Structural)]
pub enum ParseError {
    /// The sequence was empty where at least one element was required.
    NoValueFound,
    /// An element does not decode as a short string.
    ShortStringError,
    /// The packed byte-array form does not decode.
    ByteArrayError,
}

/// The meaningful bytes of a short string: what follows the leading zero
/// bytes of the felt's representation.
pub open spec fn short_tail(w: Seq<u8>) -> Seq<u8>
    decreases w.len(),
{
    if w.len() == 0 {
        Seq::empty()
    } else if w[0] == 0 {
        short_tail(w.drop_first())
    } else {
        w
    }
}

/// A felt decodes as a short string when its top byte is zero and no zero
/// byte stands after the first nonzero byte.
pub open spec fn short_valid(w: Seq<u8>) -> bool {
    &&& w.len() > 0 ==> w[0] == 0
    &&& forall|i: int| 0 <= i < short_tail(w).len() ==> short_tail(w)[i] != 0
}

/// The text of a short string: each meaningful byte read as one character.
pub open spec fn short_chars(w: Seq<u8>) -> Seq<char> {
    byte_chars(short_tail(w))
}

/// Every element decodes as a short string.
pub open spec fn shorts_ok(ws: Seq<Seq<u8>>) -> bool {
    forall|i: int| 0 <= i < ws.len() ==> short_valid(#[trigger] ws[i])
}

/// The concatenated text of a sequence of short strings, in order.
pub open spec fn shorts_chars(ws: Seq<Seq<u8>>) -> Seq<char>
    decreases ws.len(),
{
    if ws.len() == 0 {
        Seq::empty()
    } else {
        shorts_chars(ws.drop_last()) + short_chars(ws.last())
    }
}

/// The byte representations of a sequence of felts.
pub open spec fn felt_views(elems: Seq<Felt>) -> Seq<Seq<u8>> {
    elems.map_values(|f: Felt| f@)
}

/// The bytes carried by the packed byte-array form of the elements: full
/// words from the second element up to the last two, then the low bytes of
/// the next-to-last element, counted by the last element.
pub open spec fn struct_bytes(vs: Seq<Seq<u8>>) -> Seq<u8>
    recommends
        vs.len() >= 3,
{
    words_bytes(vs.subrange(1, vs.len() - 2)) + pending_tail(
        vs[vs.len() - 2],
        be_val(vs[vs.len() - 1]),
    )
}

proof fn lemma_short_tail_skip(w: Seq<u8>, k: int)
    requires
        0 <= k <= w.len(),
        forall|i: int| 0 <= i < k ==> w[i] == 0,
        k < w.len() ==> w[k] != 0,
    ensures
        short_tail(w) == w.subrange(k, w.len() as int),
    decreases k,
{
    if k == 0 {
        if w.len() == 0 {
            assert(short_tail(w) =~= w.subrange(0, 0));
        } else {
            assert(short_tail(w) =~= w.subrange(0, w.len() as int));
        }
    } else {
        let w1 = w.drop_first();
        lemma_short_tail_skip(w1, k - 1);
        assert(w1.subrange(k - 1, w1.len() as int) =~= w.subrange(k, w.len() as int));
    }
}

/// Decodes one short string and appends its UTF-8 text to `out`; reports
/// whether the felt was a valid short string, leaving `out` alone when not.
fn append_short(out: &mut Vec<u8>, f: &Felt) -> (ok: bool)
    requires
        f.wf(),
    ensures
        ok <==> short_valid(f@),
        ok ==> final(out)@ == old(out)@ + encode_utf8(short_chars(f@)),
        !ok ==> final(out)@ == old(out)@,
{
    if f.bytes[0] != 0 {
        proof {
            assert(!short_valid(f@));
        }
        return false;
    }
    let mut k: usize = 32;
    for i in 0..32usize
        invariant
            f.wf(),
            k <= 32,
            k == 32 ==> forall|j: int| 0 <= j < i ==> f@[j] == 0,
            k < 32 ==> k <= i && f@[k as int] != 0 && (forall|j: int| 0 <= j < k ==> f@[j] == 0),
    {
        if k == 32 && f.bytes[i] != 0 {
            k = i;
        }
    }
    proof {
        lemma_short_tail_skip(f@, k as int);
    }
    let ghost tail = f@.subrange(k as int, 32);
    let mut all_nonzero = true;
    for i in k..32usize
        invariant
            f.wf(),
            k <= 32,
            tail == f@.subrange(k as int, 32),
            all_nonzero <==> (forall|j: int| k <= j < i ==> f@[j] != 0),
    {
        if f.bytes[i] == 0 {
            all_nonzero = false;
        }
    }
    if !all_nonzero {
        proof {
            assert(!short_valid(f@)) by {
                let j = choose|j: int| k <= j < 32 && f@[j] == 0;
                assert(tail[j - (k as int)] == 0);
            }
        }
        return false;
    }
    proof {
        assert forall|i: int| 0 <= i < tail.len() implies tail[i] != 0 by {
            assert(f@[k + i] != 0);
        }
        assert(short_valid(f@));
        assert(f@.subrange(k as int, k as int) =~= Seq::<u8>::empty());
        assert(encode_utf8(byte_chars(Seq::<u8>::empty())) =~= Seq::<u8>::empty());
        assert(out@ + Seq::<u8>::empty() =~= out@);
    }
    for i in k..32usize
        invariant
            f.wf(),
            k <= 32,
            tail == f@.subrange(k as int, 32),
            out@ == old(out)@ + encode_utf8(byte_chars(f@.subrange(k as int, i as int))),
    {
        proof {
            let pre = f@.subrange(k as int, i as int);
            assert(byte_chars(f@.subrange(k as int, i + 1)) =~= byte_chars(pre).push(
                f@[i as int] as char,
            ));
            lemma_encode_utf8_push(byte_chars(pre), f@[i as int] as char);
        }
        push_byte_char(out, f.bytes[i]);
    }
    proof {
        assert(short_chars(f@) == byte_chars(f@.subrange(k as int, 32)));
    }
    true
}

/// Parses a sequence of felts as one string: one element decodes as a
/// short string; several decode either as the legacy short-string array,
/// when the first element plus one equals the element count, or as the
/// packed byte-array form.
pub fn parse_cairo_string(field_elements: Vec<Felt>) -> (r: Result<String, ParseError>)
    requires
        forall|i: int|
            0 <= i < field_elements@.len() ==> (#[trigger] field_elements@[i]).wf(),
    ensures
        ({
            let vs = felt_views(field_elements@);
            let n = vs.len() as int;
            &&& (n == 0 ==> (r matches Err(e) && e == ParseError::NoValueFound))
            &&& ((n == 1 && short_valid(vs[0])) ==> (r matches Ok(s) && s@ == short_chars(vs[0])))
            &&& ((n == 1 && !short_valid(vs[0])) ==> (r matches Err(e) && e
                == ParseError::ShortStringError))
            &&& ((n >= 2 && be_val(vs[0]) == n - 1 && shorts_ok(vs.drop_first())) ==> (r matches Ok(
                s,
            ) && s@ == shorts_chars(vs.drop_first())))
            &&& ((n >= 2 && be_val(vs[0]) == n - 1 && !shorts_ok(vs.drop_first())) ==> (r matches Err(
                e,
            ) && e == ParseError::ShortStringError))
            &&& ((n == 2 && be_val(vs[0]) != n - 1) ==> (r matches Err(e) && e
                == ParseError::ByteArrayError))
            &&& ((n >= 3 && be_val(vs[0]) != n - 1 && be_val(vs[n - 1]) > 30) ==> (r matches Err(
                e,
            ) && e == ParseError::ByteArrayError))
            &&& ((n >= 3 && be_val(vs[0]) != n - 1 && be_val(vs[n - 1]) <= 30 && valid_utf8(
                struct_bytes(vs),
            )) ==> (r matches Ok(s) && s@ == decode_utf8(struct_bytes(vs))))
            &&& ((n >= 3 && be_val(vs[0]) != n - 1 && be_val(vs[n - 1]) <= 30 && !valid_utf8(
                struct_bytes(vs),
            )) ==> (r matches Err(e) && e == ParseError::ByteArrayError))
        }),
{
    let ghost vs = felt_views(field_elements@);
    let n = field_elements.len();
    if n == 0 {
        return Err(ParseError::NoValueFound);
    }
    if n == 1 {
        let mut out: Vec<u8> = Vec::new();
        let ok = append_short(&mut out, &field_elements[0]);
        if !ok {
            return Err(ParseError::ShortStringError);
        }
        proof {
            broadcast use vstd::utf8::encode_utf8_valid_utf8;
            broadcast use vstd::utf8::encode_utf8_decode_utf8;

        }
        let s = utf8_to_string(out).unwrap();
        return Ok(s);
    }
    let looks_legacy = match field_elements[0].as_u64() {
        Some(v) => v == (n - 1) as u64,
        None => false,
    };
    proof {
        assert(vs[0] == field_elements@[0]@);
        assert(looks_legacy <==> be_val(vs[0]) == n - 1);
    }
    if looks_legacy {
        let mut out: Vec<u8> = Vec::new();
        for i in 1..n
            invariant
                n == field_elements@.len(),
                2 <= n,
                vs == felt_views(field_elements@),
                be_val(vs[0]) == n - 1,
                forall|j: int|
                    0 <= j < field_elements@.len() ==> (#[trigger] field_elements@[j]).wf(),
                out@ == encode_utf8(shorts_chars(vs.subrange(1, i as int))),
                forall|j: int| 1 <= j < i ==> short_valid(#[trigger] vs[j]),
        {
            let ok = append_short(&mut out, &field_elements[i]);
            if !ok {
                proof {
                    assert(!short_valid(vs[i as int]));
                    assert(vs.drop_first()[i - 1] == vs[i as int]);
                    assert(!shorts_ok(vs.drop_first()));
                }
                return Err(ParseError::ShortStringError);
            }
            proof {
                let pre = vs.subrange(1, i as int);
                let cur = vs.subrange(1, i + 1);
                assert(cur.drop_last() =~= pre);
                assert(cur.last() == vs[i as int]);
                lemma_encode_utf8_concat(shorts_chars(pre), short_chars(vs[i as int]));
            }
        }
        proof {
            assert(vs.subrange(1, n as int) =~= vs.drop_first());
            assert(shorts_ok(vs.drop_first()));
            broadcast use vstd::utf8::encode_utf8_valid_utf8;
            broadcast use vstd::utf8::encode_utf8_decode_utf8;

        }
        let s = utf8_to_string(out).unwrap();
        return Ok(s);
    }
    if n == 2 {
        return Err(ParseError::ByteArrayError);
    }
    let pending_word_len: usize = match field_elements[n - 1].as_u64() {
        Some(v) => {
            if v <= 30 {
                v as usize
            } else {
                return Err(ParseError::ByteArrayError);
            }
        },
        None => {
            return Err(ParseError::ByteArrayError);
        },
    };
    let mut data: Vec<Felt> = Vec::new();
    for i in 1..(n - 2)
        invariant
            n == field_elements@.len(),
            n >= 3,
            vs == felt_views(field_elements@),
            be_val(vs[0]) != n - 1,
            pending_word_len <= 30,
            pending_word_len as nat == be_val(vs[n - 1]),
            forall|j: int| 0 <= j < field_elements@.len() ==> (#[trigger] field_elements@[j]).wf(),
            data@.len() == i - 1,
            forall|k: int|
                0 <= k < i - 1 ==> (#[trigger] data@[k]).wf() && data@[k]@ == vs[k + 1],
    {
        data.push(field_elements[i].duplicate());
    }
    let pending_word = field_elements[n - 2].duplicate();
    let ba = ByteArray { data, pending_word, pending_word_len };
    proof {
        assert(ba.wf());
        assert(ba.word_views() =~= vs.subrange(1, n - 2));
        assert(ba.byte_contents() == struct_bytes(vs));
    }
    match ba.to_string() {
        Ok(s) => Ok(s),
        Err(_) => Err(ParseError::ByteArrayError),
    }
}

} // verus!
