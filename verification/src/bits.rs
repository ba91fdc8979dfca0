//! Bit sequences: the mathematical model (`Seq<bool>`, most-significant bit
//! first) and the executable bit sink / bit source built on `bitvec`.

use vstd::prelude::*;
use vstd::arithmetic::power2::{lemma_pow2_adds, lemma_pow2_pos, lemma_pow2_unfold, lemma2_to64, pow2};

verus! {

/// `bitvec` refuses to grow a `BitVec` past `BitSlice::MAX_BITS`, which is
/// `usize::MAX / 8` for the default `usize` store.
pub const BIT_CAPACITY: usize = usize::MAX / 8;

// ---------------------------------------------------------------------------
// The mathematical model of bit streams.
// ---------------------------------------------------------------------------

/// A sequence of `n` zero bits.
pub open spec fn zeros(n: nat) -> Seq<bool> {
    Seq::new(n, |i: int| false)
}

/// The low `n` bits of `x`, most-significant first.
pub open spec fn to_bits(x: nat, n: nat) -> Seq<bool>
    decreases n,
{
    if n == 0 {
        Seq::empty()
    } else {
        to_bits(x / 2, (n - 1) as nat).push(x % 2 == 1)
    }
}

/// The number whose most-significant-first binary digits are `s`.
pub open spec fn from_bits(s: Seq<bool>) -> nat
    decreases s.len(),
{
    if s.len() == 0 {
        0
    } else {
        2 * from_bits(s.drop_last()) + (if s.last() { 1nat } else { 0nat })
    }
}

/// The eight bits of one byte, most-significant first.
pub open spec fn byte_bits(x: u8) -> Seq<bool> {
    to_bits(x as nat, 8)
}

/// A byte sequence unpacked into bits, eight per byte, most-significant first.
pub open spec fn bytes_bits(s: Seq<u8>) -> Seq<bool>
    decreases s.len(),
{
    if s.len() == 0 {
        Seq::empty()
    } else {
        bytes_bits(s.drop_last()) + byte_bits(s.last())
    }
}

/// `count` bytes read from `bits` starting at position `i`.
pub open spec fn bytes_from_bits(bits: Seq<bool>, i: nat, count: nat) -> Seq<u8> {
    Seq::new(count, |k: int| from_bits(bits.subrange(i + 8 * k, i + 8 * k + 8)) as u8)
}

/// A bit sequence packed into bytes, most-significant bit first; the last
/// byte's low bits are zero-padded when the length is not a multiple of 8.
pub open spec fn pack(bits: Seq<bool>) -> Seq<u8>
    decreases bits.len(),
{
    if bits.len() == 0 {
        Seq::empty()
    } else if bits.len() < 8 {
        seq![(from_bits(bits) * pow2((8 - bits.len()) as nat)) as u8]
    } else {
        seq![from_bits(bits.take(8)) as u8] + pack(bits.skip(8))
    }
}

// ---------------------------------------------------------------------------
// Facts about the model.
// ---------------------------------------------------------------------------

pub proof fn lemma_to_bits_len(x: nat, n: nat)
    ensures
        to_bits(x, n).len() == n,
    decreases n,
{
    if n > 0 {
        lemma_to_bits_len(x / 2, (n - 1) as nat);
    }
}

pub proof fn lemma_from_bits_bound(s: Seq<bool>)
    ensures
        from_bits(s) < pow2(s.len()),
    decreases s.len(),
{
    if s.len() == 0 {
        lemma_pow2_pos(0);
        assert(pow2(0) == 1) by {
            lemma2_to64();
        }
    } else {
        lemma_from_bits_bound(s.drop_last());
        lemma_pow2_unfold(s.len());
    }
}

pub proof fn lemma_from_to_bits(x: nat, n: nat)
    requires
        x < pow2(n),
    ensures
        from_bits(to_bits(x, n)) == x,
    decreases n,
{
    if n == 0 {
        assert(pow2(0) == 1) by {
            lemma2_to64();
        }
    } else {
        lemma_pow2_unfold(n);
        lemma_from_to_bits(x / 2, (n - 1) as nat);
        let t = to_bits(x, n);
        assert(t.drop_last() =~= to_bits(x / 2, (n - 1) as nat));
    }
}

pub proof fn lemma_to_from_bits(s: Seq<bool>)
    ensures
        to_bits(from_bits(s), s.len()) == s,
    decreases s.len(),
{
    if s.len() == 0 {
        assert(to_bits(from_bits(s), 0) =~= s);
    } else {
        lemma_to_from_bits(s.drop_last());
        let x = from_bits(s);
        let h = from_bits(s.drop_last());
        assert(x == 2 * h + (if s.last() { 1nat } else { 0nat }));
        assert(x / 2 == h);
        assert((x % 2 == 1) == s.last());
        assert(to_bits(x, s.len()) =~= s);
    }
}

pub proof fn lemma_bytes_bits_len(s: Seq<u8>)
    ensures
        bytes_bits(s).len() == 8 * s.len(),
    decreases s.len(),
{
    if s.len() > 0 {
        lemma_bytes_bits_len(s.drop_last());
        lemma_to_bits_len(s.last() as nat, 8);
    }
}

pub proof fn lemma_bytes_bits_append(a: Seq<u8>, b: Seq<u8>)
    ensures
        bytes_bits(a + b) == bytes_bits(a) + bytes_bits(b),
    decreases b.len(),
{
    if b.len() == 0 {
        assert(a + b =~= a);
        assert(bytes_bits(a) + bytes_bits(b) =~= bytes_bits(a));
    } else {
        lemma_bytes_bits_append(a, b.drop_last());
        assert((a + b).drop_last() =~= a + b.drop_last());
        assert((a + b).last() == b.last());
        assert(bytes_bits(a) + bytes_bits(b)
            =~= (bytes_bits(a) + bytes_bits(b.drop_last())) + byte_bits(b.last()));
    }
}

pub proof fn lemma_bytes_bits_one(x: u8)
    ensures
        bytes_bits(seq![x]) == byte_bits(x),
{
    assert(seq![x].drop_last() =~= Seq::<u8>::empty());
    assert(seq![x].last() == x);
    assert(bytes_bits(seq![x].drop_last()) == Seq::<bool>::empty());
    assert(Seq::<bool>::empty() + byte_bits(x) =~= byte_bits(x));
}

/// Multiplying by a power of two shifts bits in from the right.
pub proof fn lemma_to_bits_shift(x: nat, n: nat, k: nat)
    requires
        k <= n,
    ensures
        to_bits(x * pow2(k), n) == to_bits(x, (n - k) as nat) + zeros(k),
    decreases k,
{
    lemma_to_bits_len(x * pow2(k), n);
    lemma_to_bits_len(x, (n - k) as nat);
    if k == 0 {
        assert(pow2(0) == 1) by {
            lemma2_to64();
        }
        assert(x * pow2(0) == x);
        assert(to_bits(x, n) + zeros(0) =~= to_bits(x, n));
    } else {
        lemma_pow2_unfold(k);
        assert(x * pow2(k) == (x * pow2((k - 1) as nat)) * 2) by {
            assert(pow2(k) == 2 * pow2((k - 1) as nat));
            vstd::arithmetic::mul::lemma_mul_is_associative(x as int, pow2((k - 1) as nat) as int, 2);
        }
        let y = x * pow2((k - 1) as nat);
        assert(n >= 1);
        assert((y * 2) / 2 == y);
        assert((y * 2) % 2 == 0);
        assert(to_bits(y * 2, n) == to_bits(y, (n - 1) as nat).push(false));
        lemma_to_bits_shift(x, (n - 1) as nat, (k - 1) as nat);
        assert(to_bits(x, (n - k) as nat) + zeros(k)
            =~= (to_bits(x, (n - k) as nat) + zeros((k - 1) as nat)).push(false));
    }
}

/// How many zero bits packing appends after `n` payload bits.
pub open spec fn pad_bits(n: nat) -> nat {
    if n % 8 == 0 {
        0
    } else {
        (8 - n % 8) as nat
    }
}

/// Unpacking a packed bit sequence returns it, zero-padded to a byte boundary.
pub proof fn lemma_unpack_pack(bits: Seq<bool>)
    ensures
        bytes_bits(pack(bits)) == bits + zeros(pad_bits(bits.len())),
    decreases bits.len(),
{
    if bits.len() == 0 {
        assert(bytes_bits(pack(bits)) =~= bits + zeros(0));
    } else if bits.len() < 8 {
        let k = (8 - bits.len()) as nat;
        lemma_from_bits_bound(bits);
        assert(from_bits(bits) * pow2(k) < pow2(bits.len()) * pow2(k)) by {
            lemma_pow2_pos(k);
            vstd::arithmetic::mul::lemma_mul_strict_inequality(
                from_bits(bits) as int,
                pow2(bits.len()) as int,
                pow2(k) as int,
            );
        }
        lemma_pow2_adds(bits.len(), k);
        assert(pow2(bits.len()) * pow2(k) == pow2(8));
        assert(pow2(8) == 256) by {
            lemma2_to64();
        }
        let v = from_bits(bits) * pow2(k);
        assert(v < 256);
        assert((v as u8) as nat == v);
        let packed = pack(bits);
        assert(packed == seq![v as u8]);
        lemma_bytes_bits_one(v as u8);
        lemma_to_bits_shift(from_bits(bits), 8, k);
        lemma_to_from_bits(bits);
        assert(byte_bits(v as u8) =~= bits + zeros(k));
    } else {
        let hd = bits.take(8);
        let tl = bits.skip(8);
        assert(hd + tl =~= bits);
        lemma_unpack_pack(tl);
        lemma_from_bits_bound(hd);
        assert(pow2(8) == 256) by {
            lemma2_to64();
        }
        let v = from_bits(hd);
        assert((v as u8) as nat == v);
        lemma_to_from_bits(hd);
        assert(byte_bits(v as u8) =~= hd);
        assert(pack(bits) == seq![v as u8] + pack(tl));
        lemma_bytes_bits_append(seq![v as u8], pack(tl));
        lemma_bytes_bits_one(v as u8);
        assert(tl.len() % 8 == bits.len() % 8) by {
            assert(tl.len() + 8 == bits.len());
        }
        assert(bytes_bits(pack(bits)) =~= bits + zeros(pad_bits(bits.len())));
    }
}

/// Packing `n` bits yields exactly the bytes needed to hold them.
pub proof fn lemma_pack_len(bits: Seq<bool>)
    ensures
        8 * pack(bits).len() == bits.len() + pad_bits(bits.len()),
    decreases bits.len(),
{
    if bits.len() == 0 {
    } else if bits.len() < 8 {
    } else {
        lemma_pack_len(bits.skip(8));
        assert(bits.skip(8).len() % 8 == bits.len() % 8) by {
            assert(bits.skip(8).len() + 8 == bits.len());
        }
    }
}

// ---------------------------------------------------------------------------
// Trusted view of `bitvec`'s bit-vector.
// ---------------------------------------------------------------------------

/// The growable bit buffer used by both the encoder and the decoder: a
/// `bitvec` bit-vector held behind a field Verus does not look into, read
/// and written only through the trusted operations below.
#[verifier::external_body]
pub struct BitBuf {
    inner: bitvec::vec::BitVec<usize, bitvec::order::Lsb0>,
}

/// The bits held by the buffer's `bitvec` bit-vector, in index order.
pub uninterp spec fn bv_bits(v: BitBuf) -> Seq<bool>;

/// Relies on bitvec's `BitVec::new`: a freshly constructed bit-vector is empty.
#[verifier::external_body]
pub(crate) fn bv_new() -> (r: BitBuf)
    ensures
        bv_bits(r) == Seq::<bool>::empty(),
{
    BitBuf { inner: bitvec::vec::BitVec::new() }
}

/// Relies on bitvec's `BitVec::push`: appends one bit at the end; it panics
/// only when the new length would pass `BitSlice::MAX_BITS`.
#[verifier::external_body]
pub(crate) fn bv_push(v: &mut BitBuf, bit: bool)
    requires
        bv_bits(*old(v)).len() < BIT_CAPACITY,
    ensures
        bv_bits(*final(v)) == bv_bits(*old(v)).push(bit),
{
    v.inner.push(bit);
}

/// Relies on bitvec's `BitVec::pop`: removes and returns the last bit, or
/// `None` when the bit-vector is empty.
#[verifier::external_body]
pub(crate) fn bv_pop(v: &mut BitBuf) -> (r: Option<bool>)
    ensures
        bv_bits(*old(v)).len() == 0 ==> r is None && bv_bits(*final(v)) == bv_bits(*old(v)),
        bv_bits(*old(v)).len() > 0 ==> r == Some(bv_bits(*old(v)).last())
            && bv_bits(*final(v)) == bv_bits(*old(v)).drop_last(),
{
    v.inner.pop()
}

/// Relies on bitvec's `BitVec::len`: the number of bits held.
#[verifier::external_body]
pub(crate) fn bv_len(v: &BitBuf) -> (r: usize)
    ensures
        r == bv_bits(*v).len(),
{
    v.inner.len()
}

/// Relies on bitvec's `Index<usize>` on `BitSlice`: the bit at the position;
/// it panics only when the index is out of range.
#[verifier::external_body]
pub(crate) fn bv_get(v: &BitBuf, i: usize) -> (r: bool)
    requires
        i < bv_bits(*v).len(),
    ensures
        r == bv_bits(*v)[i as int],
{
    v.inner[i]
}

/// Relies on bitvec's `BitVec::extend_from_bitslice`: appends the other
/// bit-vector's bits in order; it panics only when the result would pass
/// `BitSlice::MAX_BITS`.
#[verifier::external_body]
pub(crate) fn bv_extend(v: &mut BitBuf, other: &BitBuf)
    requires
        bv_bits(*old(v)).len() + bv_bits(*other).len() <= BIT_CAPACITY,
    ensures
        bv_bits(*final(v)) == bv_bits(*old(v)) + bv_bits(*other),
{
    v.inner.extend_from_bitslice(other.inner.as_bitslice());
}

/// Relies on bitvec's `Clone` for `BitVec`: the copy holds the same bits.
#[verifier::external_body]
pub(crate) fn bv_clone(v: &BitBuf) -> (r: BitBuf)
    ensures
        bv_bits(r) == bv_bits(*v),
{
    BitBuf { inner: v.inner.clone() }
}

// ---------------------------------------------------------------------------
// Executable bit plumbing.
// ---------------------------------------------------------------------------

/// Appends the low `tamanho` bits of `valor`, most-significant first.
pub(crate) fn push_num_into_bitvec(valor: u32, tamanho: u8, bitvec: &mut BitBuf)
    requires
        bv_bits(*old(bitvec)).len() + tamanho <= BIT_CAPACITY,
    ensures
        bv_bits(*final(bitvec)) == bv_bits(*old(bitvec)) + to_bits(valor as nat, tamanho as nat),
    decreases tamanho,
{
    proof {
        lemma_to_bits_len(valor as nat, tamanho as nat);
    }
    if tamanho == 0 {
        proof {
            assert(bv_bits(*bitvec) =~= bv_bits(*bitvec) + to_bits(valor as nat, 0));
        }
    } else {
        push_num_into_bitvec(valor / 2, tamanho - 1, bitvec);
        bv_push(bitvec, valor % 2 == 1);
        proof {
            assert(bv_bits(*bitvec) =~= bv_bits(*old(bitvec)) + to_bits(
                valor as nat,
                tamanho as nat,
            ));
        }
    }
}

/// Appends every byte of `valor`, eight bits each, most-significant first.
pub(crate) fn push_byte_array_into_bitvec(valor: &[u8], bitvec: &mut BitBuf)
    requires
        bv_bits(*old(bitvec)).len() + 8 * valor@.len() <= BIT_CAPACITY,
    ensures
        bv_bits(*final(bitvec)) == bv_bits(*old(bitvec)) + bytes_bits(valor@),
{
    let ghost orig = bv_bits(*bitvec);
    let mut i: usize = 0;
    while i < valor.len()
        invariant
            i <= valor@.len(),
            orig.len() + 8 * valor@.len() <= BIT_CAPACITY,
            bv_bits(*bitvec) == orig + bytes_bits(valor@.take(i as int)),
        decreases valor@.len() - i,
    {
        proof {
            lemma_bytes_bits_len(valor@.take(i as int));
        }
        let byte: u8 = valor[i];
        push_num_into_bitvec(byte as u32, 8, bitvec);
        proof {
            assert(valor@.take(i + 1).drop_last() =~= valor@.take(i as int));
            assert(valor@.take(i + 1).last() == byte);
            assert(bytes_bits(valor@.take(i + 1))
                == bytes_bits(valor@.take(i as int)) + byte_bits(byte));
            assert(bv_bits(*bitvec) =~= orig + bytes_bits(valor@.take(i + 1)));
        }
        i = i + 1;
    }
    proof {
        assert(valor@.take(valor@.len() as int) =~= valor@);
    }
}

/// Packs the bit buffer into bytes, most-significant bit first, zero-padding
/// the low bits of a final partial byte.
pub(crate) fn bitvec_to_bytevec(bitvec: &BitBuf) -> (r: Vec<u8>)
    ensures
        r@ == pack(bv_bits(*bitvec)),
{
    let ghost bits = bv_bits(*bitvec);
    let mut bytevec: Vec<u8> = Vec::new();
    let len: usize = bv_len(bitvec);
    let mut i: usize = 0;
    let mut byte_construido: u8 = 0;
    let mut bits_ocupados: u8 = 0;
    proof {
        assert(bits.subrange(0, 0) =~= Seq::<bool>::empty());
        assert(bits.skip(0) =~= bits);
        assert(bytevec@ + pack(bits.skip(0)) =~= pack(bits));
    }
    while i < len
        invariant
            bits == bv_bits(*bitvec),
            len == bits.len(),
            i <= len,
            bits_ocupados < 8,
            bits_ocupados == i % 8,
            byte_construido == from_bits(bits.subrange(i - bits_ocupados, i as int)),
            bytevec@ + pack(bits.skip(i - bits_ocupados)) == pack(bits),
        decreases len - i,
    {
        let ghost start = i - bits_ocupados;
        let ghost part = bits.subrange(start, i as int);
        proof {
            lemma_from_bits_bound(part);
            assert(pow2(7) == 128) by {
                lemma2_to64();
            }
            if bits_ocupados < 7 {
                vstd::arithmetic::power2::lemma_pow2_strictly_increases(bits_ocupados as nat, 7);
            }
            assert(from_bits(part) < 128);
        }
        let b = bv_get(bitvec, i);
        byte_construido = byte_construido * 2 + (if b { 1 } else { 0 });
        bits_ocupados = bits_ocupados + 1;
        i = i + 1;
        proof {
            let part2 = bits.subrange(start, i as int);
            assert(part2.drop_last() =~= part);
            assert(part2.last() == b);
            assert(byte_construido == from_bits(part2));
        }
        if bits_ocupados == 8 {
            let ghost prev = bytevec@;
            bytevec.push(byte_construido);
            proof {
                let rest = bits.skip(start);
                assert(rest.len() >= 8);
                assert(rest.take(8) =~= bits.subrange(start, start + 8));
                assert(i == start + 8);
                assert(from_bits(bits.subrange(start, start + 8)) < 256);
                assert((from_bits(rest.take(8)) as u8) == byte_construido);
                assert(rest.skip(8) =~= bits.skip(start + 8));
                assert(pack(rest) == seq![byte_construido] + pack(bits.skip(start + 8)));
                assert(bytevec@ =~= prev + seq![byte_construido]);
                assert(bytevec@ + pack(bits.skip(i as int)) =~= pack(bits));
            }
            bits_ocupados = 0;
            byte_construido = 0;
            proof {
                assert(bits.subrange(i as int, i as int) =~= Seq::<bool>::empty());
            }
        }
    }
    if bits_ocupados > 0 {
        let ghost start = i - bits_ocupados;
        let ghost part = bits.subrange(start, i as int);
        proof {
            lemma_from_bits_bound(part);
            assert(pow2(0) == 1) by {
                lemma2_to64();
            }
            assert(from_bits(part) * pow2(0) == from_bits(part));
        }
        let mut filled: u8 = bits_ocupados;
        while filled < 8
            invariant
                0 < bits_ocupados <= filled <= 8,
                bits_ocupados <= i <= bits.len(),
                part == bits.subrange(i - bits_ocupados, i as int),
                part.len() == bits_ocupados,
                byte_construido == from_bits(part) * pow2((filled - bits_ocupados) as nat),
                byte_construido < pow2(filled as nat),
            decreases 8 - filled,
        {
            proof {
                assert(pow2(7) == 128) by {
                    lemma2_to64();
                }
                if filled < 7 {
                    vstd::arithmetic::power2::lemma_pow2_strictly_increases(filled as nat, 7);
                }
                assert(byte_construido < 128);
                lemma_pow2_unfold((filled + 1) as nat);
                lemma_pow2_unfold((filled - bits_ocupados + 1) as nat);
            }
            byte_construido = byte_construido * 2;
            filled = filled + 1;
            proof {
                vstd::arithmetic::mul::lemma_mul_is_associative(
                    from_bits(part) as int,
                    pow2((filled - 1 - bits_ocupados) as nat) as int,
                    2,
                );
            }
        }
        let ghost prev = bytevec@;
        bytevec.push(byte_construido);
        proof {
            let rest = bits.skip(start);
            assert(rest =~= part);
            assert(0 < rest.len() < 8);
            assert(byte_construido == from_bits(rest) * pow2((8 - rest.len()) as nat));
            assert(pack(rest) == seq![(from_bits(rest) * pow2((8 - rest.len()) as nat)) as u8]);
            assert(pack(rest) =~= seq![byte_construido]);
            assert(bytevec@ =~= prev + seq![byte_construido]);
            assert(bytevec@ =~= pack(bits));
        }
    } else {
        proof {
            assert(bits.skip(i as int) =~= Seq::<bool>::empty());
            assert(bytevec@ + pack(bits.skip(i as int)) =~= bytevec@);
        }
    }
    bytevec
}

/// Reads `tamanho` bits at the cursor as an unsigned number, most-significant
/// bit first, and advances the cursor past them.
pub(crate) fn get_u32_from_bitvec(bitvec: &BitBuf, inicio: &mut usize, tamanho: u8) -> (r: u32)
    requires
        tamanho <= 32,
        *old(inicio) + tamanho <= bv_bits(*bitvec).len(),
    ensures
        *final(inicio) == *old(inicio) + tamanho,
        r == from_bits(bv_bits(*bitvec).subrange(*old(inicio) as int, *old(inicio) + tamanho)),
{
    let ghost bits = bv_bits(*bitvec);
    let ghost start = *inicio as int;
    let total: usize = bv_len(bitvec);
    let mut num: u32 = 0;
    let top: usize = *inicio + tamanho as usize;
    proof {
        assert(bits.subrange(start, start) =~= Seq::<bool>::empty());
    }
    while *inicio < top
        invariant
            0 <= start <= *inicio <= top,
            top == start + tamanho,
            tamanho <= 32,
            top <= bits.len(),
            bits == bv_bits(*bitvec),
            num == from_bits(bits.subrange(start, *inicio as int)),
        decreases top - *inicio,
    {
        let ghost part = bits.subrange(start, *inicio as int);
        proof {
            lemma_from_bits_bound(part);
            assert(pow2(31) == 0x8000_0000) by {
                lemma2_to64();
            }
            if part.len() < 31 {
                vstd::arithmetic::power2::lemma_pow2_strictly_increases(part.len(), 31);
            }
            assert(from_bits(part) < 0x8000_0000);
        }
        let b = bv_get(bitvec, *inicio);
        num = num * 2 + (if b { 1 } else { 0 });
        *inicio = *inicio + 1;
        proof {
            let part2 = bits.subrange(start, *inicio as int);
            assert(part2.drop_last() =~= part);
            assert(part2.last() == b);
        }
    }
    num
}

/// Reads `count` bytes at the cursor, eight bits each, and advances the
/// cursor past them.
pub(crate) fn get_bytes_from_bitvec(bitvec: &BitBuf, inicio: &mut usize, count: usize) -> (r: Vec<
    u8,
>)
    requires
        *old(inicio) + 8 * count <= bv_bits(*bitvec).len(),
    ensures
        *final(inicio) == *old(inicio) + 8 * count,
        r@ == bytes_from_bits(bv_bits(*bitvec), *old(inicio) as nat, count as nat),
{
    let ghost bits = bv_bits(*bitvec);
    let ghost start = *inicio as int;
    let mut saida: Vec<u8> = Vec::new();
    let mut k: usize = 0;
    while k < count
        invariant
            0 <= start,
            k <= count,
            *inicio == start + 8 * k,
            start + 8 * count <= bits.len(),
            bits == bv_bits(*bitvec),
            saida@ == bytes_from_bits(bits, start as nat, k as nat),
        decreases count - k,
    {
        let v = get_u32_from_bitvec(bitvec, inicio, 8);
        proof {
            lemma_from_bits_bound(bits.subrange(start + 8 * k, start + 8 * k + 8));
            assert(pow2(8) == 256) by {
                lemma2_to64();
            }
        }
        saida.push(v as u8);
        k = k + 1;
        proof {
            assert(saida@ =~= bytes_from_bits(bits, start as nat, k as nat));
        }
    }
    saida
}

} // verus!
