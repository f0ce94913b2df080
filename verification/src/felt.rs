use vstd::prelude::*;

verus! {

/// The big-endian value of a byte sequence.
pub open spec fn be_val(s: Seq<u8>) -> nat
    decreases s.len(),
{
    if s.len() == 0 {
        0
    } else {
        be_val(s.drop_last()) * 256 + (s.last() as nat)
    }
}

/// 256 raised to the given power.
pub open spec fn pow256(n: nat) -> nat
    decreases n,
{
    if n == 0 {
        1
    } else {
        256 * pow256((n - 1) as nat)
    }
}

/// A sequence of `n` zero bytes.
pub open spec fn zero_bytes(n: nat) -> Seq<u8> {
    Seq::new(n, |i: int| 0u8)
}

/// The canonical 32-byte big-endian buffer holding the given chunk of at
/// most 32 bytes in its low-order end, left-padded with zero bytes.
pub open spec fn pad32(chunk: Seq<u8>) -> Seq<u8>
    recommends
        chunk.len() <= 32,
{
    zero_bytes((32 - chunk.len()) as nat) + chunk
}

/// A field element of the target virtual machine: an unsigned integer of at
/// most 252 bits, held as its canonical 32-byte big-endian representation.
#[derive(Debug, Clone, PartialEq, Eq)]
pub struct Felt {
    pub bytes: Vec<u8>,
}

impl View for Felt {
    type V = Seq<u8>;

    open spec fn view(&self) -> Seq<u8> {
        self.bytes@
    }
}

impl Felt {
    /// Validity: exactly 32 bytes, value below 2^252.
    pub open spec fn wf(self) -> bool {
        self@.len() == 32 && self@[0] < 16
    }

    /// The unsigned integer this felt stands for.
    pub open spec fn value(self) -> nat {
        be_val(self@)
    }

    /// The zero felt.
    pub fn zero() -> (r: Felt)
        ensures
            r.wf(),
            r@ == zero_bytes(32),
            r.value() == 0,
    {
        let mut bytes: Vec<u8> = Vec::new();
        for i in 0..32usize
            invariant
                bytes@.len() == i,
                forall|k: int| 0 <= k < i ==> bytes@[k] == 0u8,
        {
            bytes.push(0u8);
        }
        let r = Felt { bytes };
        proof {
            assert(r@ =~= zero_bytes(32));
            lemma_be_val_all_zero(r@);
        }
        r
    }

    /// Builds a felt from its full 32-byte big-endian representation;
    /// rejects buffers of the wrong length and values of 252 bits or more.
    pub fn from_bytes_be(bytes: Vec<u8>) -> (r: Option<Felt>)
        ensures
            r is Some <==> bytes@.len() == 32 && bytes@[0] < 16,
            r matches Some(f) ==> f@ == bytes@ && f.wf(),
    {
        if bytes.len() == 32 && bytes[0] < 16 {
            Some(Felt { bytes })
        } else {
            None
        }
    }

    /// Builds the felt whose low-order bytes are `source[start .. start + len]`:
    /// the big-endian interpretation of a chunk of at most 31 bytes.
    pub fn from_chunk(source: &Vec<u8>, start: usize, len: usize) -> (r: Felt)
        requires
            len <= 31,
            start + len <= source@.len(),
        ensures
            r.wf(),
            r@ == pad32(source@.subrange(start as int, start as int + len as int)),
            r.value() == be_val(source@.subrange(start as int, start as int + len as int)),
    {
        let total: usize = source.len();
        let mut bytes: Vec<u8> = Vec::new();
        let pad: usize = 32 - len;
        for i in 0..pad
            invariant
                bytes@.len() == i,
                forall|k: int| 0 <= k < i ==> bytes@[k] == 0u8,
                pad == 32 - len,
        {
            bytes.push(0u8);
        }
        for i in 0..len
            invariant
                len <= 31,
                start + len <= total,
                total == source@.len(),
                pad == 32 - len,
                bytes@.len() == pad + i,
                forall|k: int| 0 <= k < pad ==> bytes@[k] == 0u8,
                forall|k: int| 0 <= k < i ==> #[trigger] bytes@[pad + k] == source@[start + k],
        {
            bytes.push(source[start + i]);
        }
        let r = Felt { bytes };
        proof {
            let chunk = source@.subrange(start as int, start as int + len as int);
            assert forall|j: int| 0 <= j < 32 implies r@[j] == pad32(chunk)[j] by {
                if j >= pad {
                    assert(bytes@[pad + (j - pad)] == source@[start + (j - pad)]);
                }
            }
            assert(r@ =~= pad32(chunk));
            lemma_pad32_value(chunk);
        }
        r
    }

    /// An identical felt, byte for byte.
    pub fn duplicate(&self) -> (r: Felt)
        requires
            self.wf(),
        ensures
            r@ == self@,
            r.wf(),
    {
        let mut bytes: Vec<u8> = Vec::new();
        for i in 0..32usize
            invariant
                self.wf(),
                bytes@.len() == i,
                forall|k: int| 0 <= k < i ==> bytes@[k] == self@[k],
        {
            bytes.push(self.bytes[i]);
        }
        let r = Felt { bytes };
        proof {
            assert(r@ =~= self@);
        }
        r
    }

    /// Returns the felt's value when it fits in 64 bits, and nothing otherwise.
    pub fn as_u64(&self) -> (r: Option<u64>)
        requires
            self.wf(),
        ensures
            r is Some <==> self.value() < 0x10000000000000000,
            r matches Some(v) ==> v == self.value(),
    {
        let mut all_zero = true;
        for i in 0..24usize
            invariant
                self.wf(),
                all_zero <==> (forall|k: int| 0 <= k < i ==> self@[k] == 0u8),
        {
            if self.bytes[i] != 0 {
                all_zero = false;
            }
        }
        proof {
            let head = self@.subrange(0, 24);
            let tail = self@.subrange(24, 32);
            assert(head + tail =~= self@);
            lemma_be_val_split(head, tail);
            lemma_pow256_64();
            lemma_be_val_bound(tail);
            if all_zero {
                assert(head =~= zero_bytes(24));
                lemma_be_val_all_zero(head);
                assert(be_val(self@) == be_val(tail));
            } else {
                lemma_be_val_all_zero(head);
                assert(!(head =~= zero_bytes(24)));
                assert(be_val(head) >= 1);
                assert(be_val(head) * pow256(8) >= pow256(8)) by (nonlinear_arith)
                    requires
                        be_val(head) >= 1,
                        pow256(8) >= 0,
                ;
            }
        }
        if !all_zero {
            return None;
        }
        let mut acc: u64 = 0;
        for i in 24..32usize
            invariant
                self.wf(),
                acc == be_val(self@.subrange(24, i as int)),
                acc < pow256((i - 24) as nat),
        {
            proof {
                assert(self@.subrange(24, i + 1).drop_last() =~= self@.subrange(24, i as int));
                lemma_pow256_monotone((i - 23) as nat, 8);
                lemma_pow256_64();
                assert(acc * 256 + self@[i as int] < pow256((i - 24) as nat) * 256)
                    by (nonlinear_arith)
                    requires
                        acc < pow256((i - 24) as nat),
                        self@[i as int] < 256,
                ;
                assert(pow256((i - 24) as nat) * 256 == pow256((i - 23) as nat)) by {
                    lemma_pow256_unfold((i - 23) as nat);
                }
            }
            acc = acc * 256 + (self.bytes[i] as u64);
        }
        Some(acc)
    }
}

/// The value of a concatenation: the left part shifted by the length of the
/// right part, plus the right part.
pub proof fn lemma_be_val_split(a: Seq<u8>, b: Seq<u8>)
    ensures
        be_val(a + b) == be_val(a) * pow256(b.len()) + be_val(b),
    decreases b.len(),
{
    if b.len() == 0 {
        assert(a + b =~= a);
        assert(pow256(0) == 1);
        assert(be_val(a) * 1 == be_val(a)) by (nonlinear_arith);
    } else {
        let b0 = b.drop_last();
        assert((a + b).drop_last() =~= a + b0);
        assert((a + b).last() == b.last());
        lemma_be_val_split(a, b0);
        let x = be_val(a);
        let p = pow256(b0.len());
        let y = be_val(b0);
        let c = b.last() as nat;
        assert(be_val(a + b) == (x * p + y) * 256 + c);
        assert((x * p + y) * 256 + c == x * (p * 256) + (y * 256 + c)) by (nonlinear_arith);
        assert(p * 256 == pow256(b.len())) by {
            lemma_pow256_unfold(b.len());
        }
        assert(y * 256 + c == be_val(b));
        assert(x * (p * 256) == x * pow256(b.len()));
        assert(be_val(a + b) == x * pow256(b.len()) + be_val(b));
    }
}

proof fn lemma_pow256_unfold(n: nat)
    requires
        n >= 1,
    ensures
        pow256(n) == pow256((n - 1) as nat) * 256,
{
    assert(pow256(n) == 256 * pow256((n - 1) as nat));
}

/// A byte sequence is all zero exactly when its value is zero.
pub proof fn lemma_be_val_all_zero(s: Seq<u8>)
    ensures
        (s =~= zero_bytes(s.len())) <==> be_val(s) == 0,
    decreases s.len(),
{
    if s.len() == 0 {
    } else {
        lemma_be_val_all_zero(s.drop_last());
        if s =~= zero_bytes(s.len()) {
            assert(s.drop_last() =~= zero_bytes((s.len() - 1) as nat));
            assert(be_val(s) == 0);
        }
        if be_val(s) == 0 {
            assert(be_val(s.drop_last()) * 256 + s.last() == 0);
            assert(be_val(s.drop_last()) == 0 && s.last() == 0);
            assert(s.drop_last() =~= zero_bytes((s.len() - 1) as nat));
            assert forall|i: int| 0 <= i < s.len() implies s[i] == 0u8 by {
                if i < s.len() - 1 {
                    assert(s.drop_last()[i] == 0u8);
                }
            }
            assert(s =~= zero_bytes(s.len()));
        }
    }
}

/// The value of a byte sequence is below 256 to the power of its length.
pub proof fn lemma_be_val_bound(s: Seq<u8>)
    ensures
        be_val(s) < pow256(s.len()),
    decreases s.len(),
{
    if s.len() == 0 {
    } else {
        lemma_be_val_bound(s.drop_last());
        lemma_pow256_unfold(s.len());
        assert(be_val(s.drop_last()) * 256 + s.last() < pow256((s.len() - 1) as nat) * 256)
            by (nonlinear_arith)
            requires
                be_val(s.drop_last()) < pow256((s.len() - 1) as nat),
                s.last() < 256,
        ;
    }
}

/// Left-padding with zero bytes keeps the value.
pub proof fn lemma_pad32_value(chunk: Seq<u8>)
    requires
        chunk.len() <= 32,
    ensures
        be_val(pad32(chunk)) == be_val(chunk),
{
    lemma_be_val_all_zero(zero_bytes((32 - chunk.len()) as nat));
    lemma_be_val_split(zero_bytes((32 - chunk.len()) as nat), chunk);
}

proof fn lemma_pow256_monotone(a: nat, b: nat)
    requires
        a <= b,
    ensures
        pow256(a) <= pow256(b),
    decreases b,
{
    if a < b {
        lemma_pow256_monotone(a, (b - 1) as nat);
        lemma_pow256_unfold(b);
        assert(pow256((b - 1) as nat) * 256 >= pow256((b - 1) as nat)) by (nonlinear_arith);
    }
}

/// 256^8 is 2^64.
pub proof fn lemma_pow256_64()
    ensures
        pow256(8) == 0x10000000000000000,
{
    reveal_with_fuel(pow256, 9);
}

} // verus!
