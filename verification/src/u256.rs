//! A 256-bit unsigned integer as two 128-bit limbs, with conversions to and
//! from hexadecimal and decimal text.

use vstd::prelude::*;
use vstd::utf8::encode_utf8;
use vstd::string::StrSliceExecFns;
use crate::text::utf8_to_string;
use crate::text::push_byte_char;
use crate::text::lemma_encode_utf8_push;
use crate::text::lemma_encode_utf8_concat;

verus! {

/// Why a textual conversion failed.
#[derive(Debug, Clone, PartialEq, Eq, Structural)]
pub enum ConversionError {
    /// A character of the input is not a hexadecimal digit.
    InvalidHex,
    /// The value needs more than 256 bits.
    Overflow,
    /// A limb was cut to something other than 16 bytes; unreachable after
    /// validation, kept as a typed error rather than a panic.
    ByteLengthMismatch,
}

/// A 256-bit unsigned integer: value `high * 2^128 + low`. Every pair of
/// limbs is valid.
#[derive(Debug, Clone, PartialEq, Eq, Structural)]
pub struct CairoU256 {
    pub low: u128,
    pub high: u128,
}

/// The value a limb pair stands for.
pub open spec fn u256_val(u: CairoU256) -> nat {
    (u.high as nat) * 0x100000000000000000000000000000000nat + (u.low as nat)
}

/// 2^256, the first value a limb pair cannot hold.
pub open spec fn pow2_256() -> nat {
    0x10000000000000000000000000000000000000000000000000000000000000000nat
}

/// 16 raised to the given power.
pub open spec fn pow16(n: nat) -> nat
    decreases n,
{
    if n == 0 {
        1
    } else {
        16 * pow16((n - 1) as nat)
    }
}

/// 10 raised to the given power.
pub open spec fn pow10(n: nat) -> nat
    decreases n,
{
    if n == 0 {
        1
    } else {
        10 * pow10((n - 1) as nat)
    }
}

/// The digit character for a value below 16: `'0'` to `'9'`, then
/// lowercase `'a'` to `'f'`.
pub open spec fn digit_char(d: nat) -> char
    recommends
        d < 16,
{
    if d < 10 {
        ((0x30 + d) as u8) as char
    } else {
        ((0x57 + d) as u8) as char
    }
}

/// The low `w` hexadecimal digits of `v`, zero-padded on the left.
pub open spec fn hex_str(v: nat, w: nat) -> Seq<char>
    decreases w,
{
    if w == 0 {
        Seq::empty()
    } else {
        hex_str(v / 16, (w - 1) as nat) + seq![digit_char(v % 16)]
    }
}

/// The decimal digits of `v`, at least one, without leading zeros.
pub open spec fn dec_str(v: nat) -> Seq<char>
    decreases v,
{
    if v < 10 {
        seq![digit_char(v)]
    } else {
        dec_str(v / 10) + seq![digit_char(v % 10)]
    }
}

/// A run of `n` `'0'` characters.
pub open spec fn zero_chars(n: nat) -> Seq<char> {
    Seq::new(n, |i: int| '0')
}

/// The value of an ASCII hexadecimal digit byte, or 16 for any other byte.
pub open spec fn hex_byte_val(b: u8) -> nat {
    if 0x30 <= b <= 0x39 {
        (b - 0x30) as nat
    } else if 0x61 <= b <= 0x66 {
        (b - 0x57) as nat
    } else if 0x41 <= b <= 0x46 {
        (b - 0x37) as nat
    } else {
        16
    }
}

/// The byte is a hexadecimal digit, in either case.
pub open spec fn is_hex_digit(b: u8) -> bool {
    hex_byte_val(b) < 16
}

/// Every byte is a hexadecimal digit.
pub open spec fn all_hex(s: Seq<u8>) -> bool {
    forall|i: int| 0 <= i < s.len() ==> is_hex_digit(#[trigger] s[i])
}

/// The value of a big-endian string of hexadecimal digit bytes.
pub open spec fn hex_val(s: Seq<u8>) -> nat
    decreases s.len(),
{
    if s.len() == 0 {
        0
    } else {
        hex_val(s.drop_last()) * 16 + hex_byte_val(s.last())
    }
}

/// The input bytes with one leading `"0x"` removed, when present.
pub open spec fn strip_0x(s: Seq<u8>) -> Seq<u8> {
    if s.len() >= 2 && s[0] == 0x30 && s[1] == 0x78 {
        s.subrange(2, s.len() as int)
    } else {
        s
    }
}

/// The bytes of a character sequence read one byte per character.
pub open spec fn char_bytes(cs: Seq<char>) -> Seq<u8> {
    cs.map_values(|c: char| c as u8)
}

fn hex_digit_of(b: u8) -> (d: u8)
    ensures
        d as nat == hex_byte_val(b),
{
    if 0x30 <= b && b <= 0x39 {
        b - 0x30
    } else if 0x61 <= b && b <= 0x66 {
        b - 0x57
    } else if 0x41 <= b && b <= 0x46 {
        b - 0x37
    } else {
        16
    }
}

/// Growing a digit string never shrinks its value.
proof fn lemma_hex_val_prefix(s: Seq<u8>, j: int)
    requires
        0 <= j <= s.len(),
    ensures
        hex_val(s.subrange(0, j)) <= hex_val(s),
    decreases s.len() - j,
{
    if j == s.len() {
        assert(s.subrange(0, j) =~= s);
    } else {
        lemma_hex_val_prefix(s, j + 1);
        let p = s.subrange(0, j + 1);
        assert(p.drop_last() =~= s.subrange(0, j));
        assert(hex_val(p) == hex_val(s.subrange(0, j)) * 16 + hex_byte_val(s[j]));
        assert(hex_val(s.subrange(0, j)) * 16 >= hex_val(s.subrange(0, j))) by (nonlinear_arith);
    }
}

/// A hexadecimal rendering has exactly its asked-for width.
pub proof fn lemma_hex_str_len(v: nat, w: nat)
    ensures
        hex_str(v, w).len() == w,
    decreases w,
{
    if w > 0 {
        lemma_hex_str_len(v / 16, (w - 1) as nat);
    }
}

/// 16^32 is 2^128.
proof fn lemma_pow16_32()
    ensures
        pow16(32) == 0x100000000000000000000000000000000nat,
{
    reveal_with_fuel(pow16, 33);
}

/// Splitting a number at a digit boundary splits its rendering.
proof fn lemma_hex_split(hi: nat, lo: nat, n: nat, k: nat)
    requires
        lo < pow16(k),
    ensures
        hex_str(hi * pow16(k) + lo, n + k) == hex_str(hi, n) + hex_str(lo, k),
    decreases k,
{
    if k == 0 {
        assert(hi * pow16(0) + lo == hi) by (nonlinear_arith)
            requires
                pow16(0) == 1,
                lo == 0,
        ;
        assert(hex_str(hi, n) + hex_str(lo, 0) =~= hex_str(hi, n));
    } else {
        let p = pow16((k - 1) as nat);
        let x = hi * pow16(k) + lo;
        let q = hi * p + lo / 16;
        let r = lo % 16;
        assert(pow16(k) == 16 * p);
        assert(x == q * 16 + r) by (nonlinear_arith)
            requires
                x == hi * (16 * p) + lo,
                q == hi * p + lo / 16,
                r == lo % 16,
                lo == 16 * (lo / 16) + lo % 16,
        ;
        vstd::arithmetic::div_mod::lemma_fundamental_div_mod_converse(
            x as int,
            16,
            q as int,
            r as int,
        );
        assert(lo / 16 < p) by (nonlinear_arith)
            requires
                lo < 16 * p,
                lo == 16 * (lo / 16) + lo % 16,
                lo % 16 >= 0,
        ;
        lemma_hex_split(hi, lo / 16, n, (k - 1) as nat);
        assert(hex_str(x, n + k) == hex_str(q, (n + k - 1) as nat) + seq![digit_char(r)]);
        assert(hex_str(lo, k) == hex_str(lo / 16, (k - 1) as nat) + seq![digit_char(r)]);
        assert((hex_str(hi, n) + hex_str(lo / 16, (k - 1) as nat)) + seq![digit_char(r)]
            =~= hex_str(hi, n) + (hex_str(lo / 16, (k - 1) as nat) + seq![digit_char(r)]));
    }
}

/// Appends `digits` hexadecimal digits of `v`, zero-padded, most
/// significant first.
fn push_hex_u128(v: u128, digits: usize, out: &mut Vec<u8>)
    ensures
        final(out)@ == old(out)@ + encode_utf8(hex_str(v as nat, digits as nat)),
    decreases digits,
{
    if digits == 0 {
        proof {
            assert(encode_utf8(hex_str(v as nat, 0)) =~= Seq::<u8>::empty());
            assert(out@ + Seq::<u8>::empty() =~= out@);
        }
        return ;
    }
    push_hex_u128(v / 16, digits - 1, out);
    let d = (v % 16) as u8;
    let b = if d < 10 {
        0x30 + d
    } else {
        0x57 + d
    };
    proof {
        assert(b as char == digit_char((v as nat) % 16));
        assert(hex_str(v as nat, digits as nat) == hex_str((v as nat) / 16, (digits - 1) as nat)
            + seq![digit_char((v as nat) % 16)]);
        lemma_encode_utf8_concat(
            hex_str((v as nat) / 16, (digits - 1) as nat),
            seq![digit_char((v as nat) % 16)],
        );
        assert((old(out)@ + encode_utf8(hex_str((v as nat) / 16, (digits - 1) as nat)))
            + encode_utf8(seq![b as char]) =~= old(out)@ + (encode_utf8(
            hex_str((v as nat) / 16, (digits - 1) as nat),
        ) + encode_utf8(seq![digit_char((v as nat) % 16)])));
    }
    push_byte_char(out, b);
}

/// Renders a 256-bit value as `"0x"` followed by exactly 64 lowercase
/// hexadecimal digits, zero-padded: the fixed-width canonical form.
pub fn to_hex_str(value: &CairoU256) -> (r: String)
    ensures
        r@ == seq!['0', 'x'] + hex_str(u256_val(*value), 64),
        r@.len() == 66,
{
    let mut out: Vec<u8> = Vec::new();
    push_byte_char(&mut out, 0x30);
    push_byte_char(&mut out, 0x78);
    proof {
        assert((0x30u8) as char == '0' && (0x78u8) as char == 'x');
        lemma_encode_utf8_concat(seq!['0'], seq!['x']);
        assert(seq!['0'] + seq!['x'] =~= seq!['0', 'x']);
        assert(Seq::<u8>::empty() + encode_utf8(seq![(0x30u8) as char]) + encode_utf8(
            seq![(0x78u8) as char],
        ) =~= encode_utf8(seq!['0']) + encode_utf8(seq!['x']));
    }
    push_hex_u128(value.high, 32, &mut out);
    push_hex_u128(value.low, 32, &mut out);
    proof {
        lemma_pow16_32();
        lemma_hex_split(value.high as nat, value.low as nat, 32, 32);
        assert(u256_val(*value) == (value.high as nat) * pow16(32) + (value.low as nat));
        lemma_encode_utf8_concat(
            hex_str(value.high as nat, 32),
            hex_str(value.low as nat, 32),
        );
        assert((encode_utf8(seq!['0', 'x']) + encode_utf8(hex_str(value.high as nat, 32)))
            + encode_utf8(hex_str(value.low as nat, 32)) =~= encode_utf8(seq!['0', 'x'])
            + (encode_utf8(hex_str(value.high as nat, 32)) + encode_utf8(
            hex_str(value.low as nat, 32),
        )));
        lemma_encode_utf8_concat(seq!['0', 'x'], hex_str(u256_val(*value), 64));
        broadcast use vstd::utf8::encode_utf8_valid_utf8;
        broadcast use vstd::utf8::encode_utf8_decode_utf8;

        lemma_hex_str_len(u256_val(*value), 64);
    }
    utf8_to_string(out).unwrap()
}

/// Every character of a decimal rendering is a digit, hence ASCII.
proof fn lemma_dec_str_ascii(v: nat)
    ensures
        vstd::utf8::is_ascii_chars(dec_str(v)),
    decreases v,
{
    if v < 10 {
        assert('\0' <= digit_char(v % 10) <= '\u{7f}');
    } else {
        lemma_dec_str_ascii(v / 10);
        assert('\0' <= digit_char(v % 10) <= '\u{7f}');
        assert forall|i: int| 0 <= i < dec_str(v).len() implies '\0' <= #[trigger] dec_str(
            v,
        )[i] <= '\u{7f}' by {
            if i < dec_str(v / 10).len() {
                assert(dec_str(v)[i] == dec_str(v / 10)[i]);
            } else {
                assert(dec_str(v)[i] == digit_char(v % 10));
            }
        }
    }
}

/// A value below 10^k has at most k decimal digits.
proof fn lemma_dec_str_len(v: nat, k: nat)
    requires
        v < pow10(k),
        k >= 1,
    ensures
        dec_str(v).len() <= k,
    decreases k,
{
    if v < 10 {
    } else {
        reveal_with_fuel(pow10, 2);
        assert(k >= 2);
        assert(pow10(k) == 10 * pow10((k - 1) as nat));
        assert(v / 10 < pow10((k - 1) as nat)) by (nonlinear_arith)
            requires
                v < 10 * pow10((k - 1) as nat),
                v == 10 * (v / 10) + v % 10,
                v % 10 >= 0,
        ;
        lemma_dec_str_len(v / 10, (k - 1) as nat);
    }
}

/// 2^256 stays below 10^78: 78 digits always suffice.
proof fn lemma_pow10_78()
    ensures
        pow2_256() < pow10(78),
{
    reveal_with_fuel(pow10, 79);
    assert(pow10(78)
        == 1000000000000000000000000000000000000000000000000000000000000000000000000000000nat);
}

/// One division step of the long division by ten, over both limbs.
fn divmod10(high: u128, low: u128) -> (r: (u128, u128, u8))
    ensures
        ({
            let v = (high as nat) * 0x100000000000000000000000000000000nat + (low as nat);
            let q = (r.0 as nat) * 0x100000000000000000000000000000000nat + (r.1 as nat);
            &&& q * 10 + (r.2 as nat) == v
            &&& (r.2 as nat) < 10
        }),
{
    let p64: u128 = 0x10000000000000000;
    let l3 = high / p64;
    let l2 = high % p64;
    let l1 = low / p64;
    let l0 = low % p64;
    let q3 = l3 / 10;
    let r3 = l3 % 10;
    let c2 = r3 * p64 + l2;
    let q2 = c2 / 10;
    let r2 = c2 % 10;
    let c1 = r2 * p64 + l1;
    let q1 = c1 / 10;
    let r1 = c1 % 10;
    let c0 = r1 * p64 + l0;
    let q0 = c0 / 10;
    let r0 = c0 % 10;
    let qh = q3 * p64 + q2;
    let ql = q1 * p64 + q0;
    proof {
        let pn: nat = 0x10000000000000000nat;
        let pn2: nat = 0x100000000000000000000000000000000nat;
        assert((((q3 as nat) * pn + (q2 as nat)) * pn2 + ((q1 as nat) * pn + (q0 as nat))) * 10 + (
        r0 as nat) == ((l3 as nat) * pn + (l2 as nat)) * pn2 + ((l1 as nat) * pn + (l0 as nat)))
            by (nonlinear_arith)
            requires
                pn == 0x10000000000000000nat,
                pn2 == 0x100000000000000000000000000000000nat,
                (l3 as nat) == 10 * (q3 as nat) + (r3 as nat),
                (c2 as nat) == (r3 as nat) * pn + (l2 as nat),
                (c2 as nat) == 10 * (q2 as nat) + (r2 as nat),
                (c1 as nat) == (r2 as nat) * pn + (l1 as nat),
                (c1 as nat) == 10 * (q1 as nat) + (r1 as nat),
                (c0 as nat) == (r1 as nat) * pn + (l0 as nat),
                (c0 as nat) == 10 * (q0 as nat) + (r0 as nat),
        ;
        assert((high as nat) == (l3 as nat) * pn + (l2 as nat));
        assert((low as nat) == (l1 as nat) * pn + (l0 as nat));
        assert((qh as nat) == (q3 as nat) * pn + (q2 as nat));
        assert((ql as nat) == (q1 as nat) * pn + (q0 as nat));
        assert(((qh as nat) * pn2 + (ql as nat)) * 10 + (r0 as nat) == (high as nat) * pn2 + (
        low as nat)) by (nonlinear_arith)
            requires
                (qh as nat) == (q3 as nat) * pn + (q2 as nat),
                (ql as nat) == (q1 as nat) * pn + (q0 as nat),
                (high as nat) == (l3 as nat) * pn + (l2 as nat),
                (low as nat) == (l1 as nat) * pn + (l0 as nat),
                (((q3 as nat) * pn + (q2 as nat)) * pn2 + ((q1 as nat) * pn + (q0 as nat))) * 10
                    + (r0 as nat) == ((l3 as nat) * pn + (l2 as nat)) * pn2 + ((l1 as nat) * pn + (
                l0 as nat)),
        ;
    }
    (qh, ql, r0 as u8)
}

/// Appends the decimal digits of the value held in the two limbs, most
/// significant first, with no leading zeros.
fn push_dec(high: u128, low: u128, out: &mut Vec<u8>)
    ensures
        final(out)@ == old(out)@ + encode_utf8(
            dec_str((high as nat) * 0x100000000000000000000000000000000nat + (low as nat)),
        ),
    decreases (high as nat) * 0x100000000000000000000000000000000nat + (low as nat),
{
    let ghost v = (high as nat) * 0x100000000000000000000000000000000nat + (low as nat);
    if high == 0 && low < 10 {
        let b = 0x30 + (low as u8);
        proof {
            assert(v == low as nat);
            assert(b as char == digit_char(v));
            assert(encode_utf8(dec_str(v)) =~= encode_utf8(seq![digit_char(v)]));
        }
        push_byte_char(out, b);
    } else {
        proof {
            if high > 0 {
                assert((high as nat) * 0x100000000000000000000000000000000nat
                    >= 0x100000000000000000000000000000000nat) by (nonlinear_arith)
                    requires
                        high >= 1,
                ;
            }
            assert(v >= 10);
        }
        let (qh, ql, rem) = divmod10(high, low);
        let ghost q = (qh as nat) * 0x100000000000000000000000000000000nat + (ql as nat);
        proof {
            assert(q < v) by (nonlinear_arith)
                requires
                    q * 10 + (rem as nat) == v,
                    (rem as nat) < 10,
                    v >= 10,
            ;
            vstd::arithmetic::div_mod::lemma_fundamental_div_mod_converse(
                v as int,
                10,
                q as int,
                rem as int,
            );
            assert(dec_str(v) == dec_str(q) + seq![digit_char(v % 10)]);
        }
        push_dec(qh, ql, out);
        proof {
            assert((0x30 + rem) as char == digit_char(v % 10));
            lemma_encode_utf8_concat(dec_str(q), seq![digit_char(v % 10)]);
            assert((old(out)@ + encode_utf8(dec_str(q))) + encode_utf8(
                seq![digit_char(v % 10)],
            ) =~= old(out)@ + (encode_utf8(dec_str(q)) + encode_utf8(seq![digit_char(v % 10)])));
        }
        push_byte_char(out, 0x30 + rem);
    }
}

/// 16^64 is 2^256.
proof fn lemma_pow16_64()
    ensures
        pow16(64) == pow2_256(),
{
    reveal_with_fuel(pow16, 65);
}

/// A digit character reads back as its value.
proof fn lemma_digit_char_val(d: nat)
    requires
        d < 16,
    ensures
        hex_byte_val(digit_char(d) as u8) == d,
{
}

/// Every character of a hexadecimal rendering is a digit, hence ASCII.
proof fn lemma_hex_str_ascii(v: nat, w: nat)
    ensures
        vstd::utf8::is_ascii_chars(hex_str(v, w)),
    decreases w,
{
    if w > 0 {
        lemma_hex_str_ascii(v / 16, (w - 1) as nat);
        assert('\0' <= digit_char(v % 16) <= '\u{7f}');
        assert forall|i: int| 0 <= i < hex_str(v, w).len() implies '\0' <= #[trigger] hex_str(
            v,
            w,
        )[i] <= '\u{7f}' by {
            if i < hex_str(v / 16, (w - 1) as nat).len() {
                assert(hex_str(v, w)[i] == hex_str(v / 16, (w - 1) as nat)[i]);
            } else {
                assert(hex_str(v, w)[i] == digit_char(v % 16));
            }
        }
    }
}

/// Reading a fixed-width rendering back gives the value rendered.
proof fn lemma_hex_val_str(v: nat, w: nat)
    requires
        v < pow16(w),
    ensures
        all_hex(char_bytes(hex_str(v, w))),
        hex_val(char_bytes(hex_str(v, w))) == v,
    decreases w,
{
    if w == 0 {
        assert(char_bytes(hex_str(v, 0)) =~= Seq::<u8>::empty());
    } else {
        let p = pow16((w - 1) as nat);
        assert(pow16(w) == 16 * p);
        assert(v / 16 < p) by (nonlinear_arith)
            requires
                v < 16 * p,
                v == 16 * (v / 16) + v % 16,
                v % 16 >= 0,
        ;
        lemma_hex_val_str(v / 16, (w - 1) as nat);
        let front = char_bytes(hex_str(v / 16, (w - 1) as nat));
        let d = digit_char(v % 16);
        let whole = char_bytes(hex_str(v, w));
        assert(whole =~= front.push(d as u8));
        assert(whole.drop_last() =~= front);
        lemma_digit_char_val(v % 16);
        assert(hex_val(whole) == hex_val(front) * 16 + hex_byte_val(d as u8));
        assert(hex_val(front) * 16 + v % 16 == v) by (nonlinear_arith)
            requires
                hex_val(front) == v / 16,
                v == 16 * (v / 16) + v % 16,
        ;
        assert forall|i: int| 0 <= i < whole.len() implies is_hex_digit(#[trigger] whole[i]) by {
            if i < front.len() {
                assert(whole[i] == front[i]);
            } else {
                assert(whole[i] == d as u8);
            }
        }
    }
}

/// The canonical hexadecimal round trip: rendering a 256-bit value with
/// `to_hex_str` and reading the text back as `from_hex_be` does (strip the
/// `"0x"`, then take the hexadecimal value) returns the value unchanged.
pub proof fn lemma_hex_round_trip(v: nat)
    requires
        v < pow2_256(),
    ensures
        ({
            let t = strip_0x(encode_utf8(seq!['0', 'x'] + hex_str(v, 64)));
            &&& t.len() == 64
            &&& all_hex(t)
            &&& hex_val(t) == v
        }),
{
    let cs = seq!['0', 'x'] + hex_str(v, 64);
    lemma_hex_str_len(v, 64);
    lemma_hex_str_ascii(v, 64);
    assert(vstd::utf8::is_ascii_chars(cs)) by {
        assert forall|i: int| 0 <= i < cs.len() implies '\0' <= #[trigger] cs[i] <= '\u{7f}' by {
            if i >= 2 {
                assert(cs[i] == hex_str(v, 64)[i - 2]);
            }
        }
    }
    vstd::utf8::is_ascii_chars_encode_utf8(cs);
    let b = encode_utf8(cs);
    lemma_pow16_64();
    lemma_hex_val_str(v, 64);
    assert(b[0] == 0x30 && b[1] == 0x78);
    assert(strip_0x(b) =~= char_bytes(hex_str(v, 64)));
}

/// A 256-bit value determines its two limbs: equal values are equal pairs.
pub proof fn lemma_u256_val_injective(a: CairoU256, b: CairoU256)
    requires
        u256_val(a) == u256_val(b),
    ensures
        a == b,
{
    vstd::arithmetic::div_mod::lemma_fundamental_div_mod_converse(
        u256_val(a) as int,
        0x100000000000000000000000000000000int,
        a.high as int,
        a.low as int,
    );
    vstd::arithmetic::div_mod::lemma_fundamental_div_mod_converse(
        u256_val(b) as int,
        0x100000000000000000000000000000000int,
        b.high as int,
        b.low as int,
    );
}

impl CairoU256 {
    /// Reads a 0x-prefixed (or bare) hexadecimal string: rejects any
    /// non-digit character, and any value of 256 bits or more.
    pub fn from_hex_be(value: &str) -> (r: Result<CairoU256, ConversionError>)
        ensures
            ({
                let t = strip_0x(encode_utf8(value@));
                (t.len() > 0 && all_hex(t) && hex_val(t) < pow2_256()) ==> (r matches Ok(u)
                    && u256_val(u) == hex_val(t))
            }),
            ({
                let t = strip_0x(encode_utf8(value@));
                (t.len() == 0 || !all_hex(t)) ==> (r matches Err(e) && e
                    == ConversionError::InvalidHex)
            }),
            ({
                let t = strip_0x(encode_utf8(value@));
                (t.len() > 0 && all_hex(t) && hex_val(t) >= pow2_256()) ==> (r matches Err(e) && e
                    == ConversionError::Overflow)
            }),
    {
        let bytes = value.as_bytes_vec();
        let m = bytes.len();
        let mut start: usize = 0;
        if m >= 2 && bytes[0] == 0x30 && bytes[1] == 0x78 {
            start = 2;
        }
        let ghost t = strip_0x(encode_utf8(value@));
        proof {
            assert(t =~= bytes@.subrange(start as int, m as int));
        }
        if start == m {
            return Err(ConversionError::InvalidHex);
        }
        for i in start..m
            invariant
                m == bytes@.len(),
                start <= i <= m,
                t == bytes@.subrange(start as int, m as int),
                t == strip_0x(encode_utf8(value@)),
                forall|j: int| start <= j < i ==> is_hex_digit(#[trigger] bytes@[j]),
        {
            let d = hex_digit_of(bytes[i]);
            if d >= 16 {
                proof {
                    assert(t[i - start] == bytes@[i as int]);
                    assert(hex_byte_val(bytes@[i as int]) >= 16);
                    assert(!is_hex_digit(t[i - start]));
                    assert(!all_hex(t));
                }
                return Err(ConversionError::InvalidHex);
            }
        }
        proof {
            assert forall|j: int| 0 <= j < t.len() implies is_hex_digit(#[trigger] t[j]) by {
                assert(t[j] == bytes@[j + start]);
            }
            assert(all_hex(t));
            assert(t.subrange(0, 0) =~= Seq::<u8>::empty());
        }
        let mut low: u128 = 0;
        let mut high: u128 = 0;
        for i in start..m
            invariant
                m == bytes@.len(),
                start <= i <= m,
                start < m,
                t == bytes@.subrange(start as int, m as int),
                t == strip_0x(encode_utf8(value@)),
                all_hex(t),
                (high as nat) * 0x100000000000000000000000000000000nat + (low as nat) == hex_val(
                    t.subrange(0, i - start),
                ),
        {
            let d = hex_digit_of(bytes[i]);
            proof {
                assert(t[i - start] == bytes@[i as int]);
                assert(is_hex_digit(t[i - start]));
                let p = t.subrange(0, i - start + 1);
                assert(p.drop_last() =~= t.subrange(0, i - start));
                assert(hex_val(p) == hex_val(t.subrange(0, i - start)) * 16 + hex_byte_val(
                    t[i - start],
                ));
            }
            if high >= 0x10000000000000000000000000000000 {
                proof {
                    let v = (high as nat) * 0x100000000000000000000000000000000nat + (low as nat);
                    assert(v >= 0x1000000000000000000000000000000000000000000000000000000000000000nat);
                    assert(hex_val(t.subrange(0, i - start + 1)) >= pow2_256());
                    lemma_hex_val_prefix(t, i - start + 1);
                    assert(hex_val(t) >= pow2_256());
                    assert(t.len() > 0);
                }
                return Err(ConversionError::Overflow);
            }
            let lo_hi = low / 0x10000000000000000000000000000000u128;
            let lo_lo = low % 0x10000000000000000000000000000000u128;
            proof {
                let v = (high as nat) * 0x100000000000000000000000000000000nat + (low as nat);
                assert((high * 16 + lo_hi) as nat * 0x100000000000000000000000000000000nat + (lo_lo
                    * 16 + d) as nat == v * 16 + d);
            }
            high = high * 16 + lo_hi;
            low = lo_lo * 16 + (d as u128);
        }
        proof {
            assert(t.subrange(0, m - start) =~= t);
        }
        Ok(CairoU256 { low, high })
    }

    /// The fixed-width hexadecimal form of this value.
    pub fn to_hex(&self) -> (r: String)
        ensures
            r@ == seq!['0', 'x'] + hex_str(u256_val(*self), 64),
            r@.len() == 66,
    {
        to_hex_str(self)
    }

    /// The decimal form of this value: bare digits, or left-padded with
    /// `'0'` to the fixed width of 78, the most a 256-bit value needs.
    pub fn to_decimal(&self, padded: bool) -> (r: String)
        ensures
            !padded ==> r@ == dec_str(u256_val(*self)),
            padded ==> r@ == zero_chars((78 - dec_str(u256_val(*self)).len()) as nat) + dec_str(
                u256_val(*self),
            ),
            padded ==> r@.len() == 78,
    {
        let mut digits: Vec<u8> = Vec::new();
        push_dec(self.high, self.low, &mut digits);
        let ghost v = u256_val(*self);
        let ghost dchars = dec_str(v);
        proof {
            assert(Seq::<u8>::empty() + encode_utf8(dchars) =~= encode_utf8(dchars));
            broadcast use vstd::utf8::encode_utf8_valid_utf8;
            broadcast use vstd::utf8::encode_utf8_decode_utf8;

        }
        if !padded {
            return utf8_to_string(digits).unwrap();
        }
        proof {
            lemma_dec_str_ascii(v);
            broadcast use vstd::utf8::is_ascii_chars_encode_utf8;

            assert(digits@.len() == dchars.len());
            lemma_pow10_78();
            lemma_dec_str_len(v, 78);
        }
        let count = digits.len();
        let pad = 78 - count;
        let mut out: Vec<u8> = Vec::new();
        for i in 0..pad
            invariant
                out@ == encode_utf8(zero_chars(i as nat)),
            decreases pad - i,
        {
            proof {
                assert(zero_chars((i + 1) as nat) =~= zero_chars(i as nat).push('0'));
                lemma_encode_utf8_push(zero_chars(i as nat), '0');
                assert((0x30u8) as char == '0');
            }
            push_byte_char(&mut out, 0x30);
        }
        out.append(&mut digits);
        proof {
            lemma_encode_utf8_concat(zero_chars(pad as nat), dchars);
            broadcast use vstd::utf8::encode_utf8_valid_utf8;
            broadcast use vstd::utf8::encode_utf8_decode_utf8;

            assert(zero_chars(pad as nat).len() + dchars.len() == 78);
        }
        utf8_to_string(out).unwrap()
    }
}

} // verus!

