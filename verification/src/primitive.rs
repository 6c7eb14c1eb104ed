//! Fixed-width little-endian integer codec: the only layer that touches raw
//! bytes. `le_bytes` and `from_le` are the wire model; `push_le` and `take_le`
//! are the executable encoder and decoder, proved against that model.
use vstd::prelude::*;

verus! {

/// `256^n`, the number of values a little-endian field of `n` bytes can hold.
pub open spec fn pow256(n: nat) -> nat
    decreases n,
{
    if n == 0 {
        1
    } else {
        256 * pow256((n - 1) as nat)
    }
}

/// The `n`-byte little-endian encoding of `x % 256^n`.
pub open spec fn le_bytes(x: nat, n: nat) -> Seq<u8>
    decreases n,
{
    if n == 0 {
        Seq::empty()
    } else {
        seq![(x % 256) as u8] + le_bytes(x / 256, (n - 1) as nat)
    }
}

/// The value of a little-endian byte string.
pub open spec fn from_le(s: Seq<u8>) -> nat
    decreases s.len(),
{
    if s.len() == 0 {
        0nat
    } else {
        s[0] as nat + 256 * from_le(s.subrange(1, s.len() as int))
    }
}

pub proof fn lemma_le_bytes_len(x: nat, n: nat)
    ensures
        le_bytes(x, n).len() == n,
    decreases n,
{
    if n > 0 {
        lemma_le_bytes_len(x / 256, (n - 1) as nat);
    }
}

pub proof fn lemma_pow256_positive(n: nat)
    ensures
        pow256(n) >= 1,
    decreases n,
{
    if n > 0 {
        lemma_pow256_positive((n - 1) as nat);
    }
}

pub proof fn lemma_pow256_increases(m: nat, n: nat)
    requires
        m <= n,
    ensures
        pow256(m) <= pow256(n),
    decreases n,
{
    if m < n {
        lemma_pow256_increases(m, (n - 1) as nat);
        lemma_pow256_positive((n - 1) as nat);
    }
}

/// Sixteen bytes are exactly enough for every `u128` value.
pub proof fn lemma_pow256_16()
    ensures
        pow256(16) == 0x100000000000000000000000000000000,
{
    reveal_with_fuel(pow256, 17);
}

/// Decoding inverts encoding for every value that fits in the field.
pub proof fn lemma_le_roundtrip(x: nat, n: nat)
    requires
        x < pow256(n),
    ensures
        from_le(le_bytes(x, n)) == x,
    decreases n,
{
    if n == 0 {
        assert(x == 0);
    } else {
        let b = (x % 256) as u8;
        let rest = le_bytes(x / 256, (n - 1) as nat);
        lemma_le_bytes_len(x / 256, (n - 1) as nat);
        assert((seq![b] + rest).subrange(1, (1 + rest.len()) as int) =~= rest);
        assert(256 * (x / 256) <= x) by {
            vstd::arithmetic::div_mod::lemma_fundamental_div_mod(x as int, 256);
        }
        assert(x / 256 < pow256((n - 1) as nat));
        lemma_le_roundtrip(x / 256, (n - 1) as nat);
        assert(x == 256 * (x / 256) + x % 256) by {
            vstd::arithmetic::div_mod::lemma_fundamental_div_mod(x as int, 256);
        }
    }
}

/// A field of `n` bytes never decodes to a value of `256^n` or more.
pub proof fn lemma_from_le_bound(s: Seq<u8>)
    ensures
        from_le(s) < pow256(s.len()),
    decreases s.len(),
{
    if s.len() > 0 {
        lemma_from_le_bound(s.subrange(1, s.len() as int));
    }
}

/// Raw little-endian output: what a byte sink must support.
pub trait PrimitiveWrite {
    spec fn raw(&self) -> Seq<u8>;

    fn write8(&mut self, x: u8) -> (r: Result<(), crate::Error>)
        ensures
            r is Ok,
            final(self).raw() == old(self).raw() + le_bytes(x as nat, 1),
    ;

    fn write16(&mut self, x: u16) -> (r: Result<(), crate::Error>)
        ensures
            r is Ok,
            final(self).raw() == old(self).raw() + le_bytes(x as nat, 2),
    ;

    fn write32(&mut self, x: u32) -> (r: Result<(), crate::Error>)
        ensures
            r is Ok,
            final(self).raw() == old(self).raw() + le_bytes(x as nat, 4),
    ;

    fn write128(&mut self, x: u128) -> (r: Result<(), crate::Error>)
        ensures
            r is Ok,
            final(self).raw() == old(self).raw() + le_bytes(x as nat, 16),
    ;
}

/// Raw little-endian input: what a byte source must support. A short read is
/// an error, never a silent truncation.
pub trait PrimitiveRead {
    spec fn raw(&self) -> Seq<u8>;

    spec fn cursor(&self) -> int;

    fn read8(&mut self) -> (r: Result<u8, crate::Error>)
        requires
            0 <= old(self).cursor() <= old(self).raw().len(),
        ensures
            final(self).raw() == old(self).raw(),
            r is Ok <==> old(self).cursor() + 1 <= old(self).raw().len(),
            r matches Ok(x) ==> final(self).cursor() == old(self).cursor() + 1 && x as nat == from_le(
                old(self).raw().subrange(old(self).cursor(), old(self).cursor() + 1),
            ),
            r is Err ==> r == Err::<u8, crate::Error>(crate::Error::IoError) && final(self).cursor()
                == old(self).cursor(),
    ;

    fn read16(&mut self) -> (r: Result<u16, crate::Error>)
        requires
            0 <= old(self).cursor() <= old(self).raw().len(),
        ensures
            final(self).raw() == old(self).raw(),
            r is Ok <==> old(self).cursor() + 2 <= old(self).raw().len(),
            r matches Ok(x) ==> final(self).cursor() == old(self).cursor() + 2 && x as nat == from_le(
                old(self).raw().subrange(old(self).cursor(), old(self).cursor() + 2),
            ),
            r is Err ==> r == Err::<u16, crate::Error>(crate::Error::IoError) && final(self).cursor()
                == old(self).cursor(),
    ;

    fn read32(&mut self) -> (r: Result<u32, crate::Error>)
        requires
            0 <= old(self).cursor() <= old(self).raw().len(),
        ensures
            final(self).raw() == old(self).raw(),
            r is Ok <==> old(self).cursor() + 4 <= old(self).raw().len(),
            r matches Ok(x) ==> final(self).cursor() == old(self).cursor() + 4 && x as nat == from_le(
                old(self).raw().subrange(old(self).cursor(), old(self).cursor() + 4),
            ),
            r is Err ==> r == Err::<u32, crate::Error>(crate::Error::IoError) && final(self).cursor()
                == old(self).cursor(),
    ;

    fn read128(&mut self) -> (r: Result<u128, crate::Error>)
        requires
            0 <= old(self).cursor() <= old(self).raw().len(),
        ensures
            final(self).raw() == old(self).raw(),
            r is Ok <==> old(self).cursor() + 16 <= old(self).raw().len(),
            r matches Ok(x) ==> final(self).cursor() == old(self).cursor() + 16 && x as nat == from_le(
                old(self).raw().subrange(old(self).cursor(), old(self).cursor() + 16),
            ),
            r is Err ==> r == Err::<u128, crate::Error>(crate::Error::IoError) && final(self).cursor()
                == old(self).cursor(),
    ;
}

/// Appends the `n`-byte little-endian encoding of `x` to `out`.
pub fn push_le(out: &mut Vec<u8>, x: u128, n: usize)
    ensures
        final(out)@ == old(out)@ + le_bytes(x as nat, n as nat),
    decreases n,
{
    if n == 0 {
        proof {
            assert(out@ =~= old(out)@ + le_bytes(x as nat, 0));
        }
    } else {
        let b: u8 = (x % 256) as u8;
        out.push(b);
        push_le(out, x / 256, n - 1);
        proof {
            assert(out@ =~= old(out)@ + le_bytes(x as nat, n as nat));
        }
    }
}

/// Reads the `n`-byte little-endian field at `*pos`, advancing `*pos`.
pub fn take_le(data: &Vec<u8>, pos: &mut usize, n: usize) -> (r: u128)
    requires
        *old(pos) + n <= data@.len(),
        n <= 16,
    ensures
        *final(pos) == *old(pos) + n,
        r as nat == from_le(data@.subrange(*old(pos) as int, *old(pos) + n)),
    decreases n,
{
    if n == 0 {
        proof {
            assert(data@.subrange(*old(pos) as int, *old(pos) as int) =~= Seq::<u8>::empty());
        }
        0
    } else {
        let len = data.len();
        let b = data[*pos];
        *pos = *pos + 1;
        let rest = take_le(data, pos, n - 1);
        proof {
            let whole = data@.subrange(*old(pos) as int, *old(pos) + n);
            let tail = data@.subrange(*old(pos) + 1, *old(pos) + n);
            assert(whole.subrange(1, whole.len() as int) =~= tail);
            assert(whole[0] == b);
            lemma_from_le_bound(tail);
            lemma_pow256_increases((n - 1) as nat, 15);
            lemma_pow256_16();
            assert(pow256(15) * 256 == pow256(16)) by {
                reveal_with_fuel(pow256, 17);
            }
        }
        b as u128 + 256 * rest
    }
}

} // verus!
