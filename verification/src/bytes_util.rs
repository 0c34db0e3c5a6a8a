//! Small executable helpers over byte vectors, and the spec functions that
//! describe zero padding and zero-terminated windows.

use vstd::prelude::*;
use vstd::bytes::{spec_u64_to_le_bytes, u64_from_le_bytes, u64_to_le_bytes};
use vstd::slice::{slice_index_get, slice_subrange};

verus! {

/// A sequence of `n` zero bytes.
pub open spec fn zeros(n: nat) -> Seq<u8> {
    Seq::new(n, |i: int| 0u8)
}

/// `s` padded with zero bytes up to `width`.
pub open spec fn zero_pad(s: Seq<u8>, width: nat) -> Seq<u8>
    recommends
        s.len() <= width,
{
    s + zeros((width - s.len()) as nat)
}

/// The index of the first zero byte of `s`, or `s.len()` if there is none.
pub open spec fn first_zero(s: Seq<u8>) -> int
    decreases s.len(),
{
    if s.len() == 0 {
        0
    } else if s[0] == 0 {
        0
    } else {
        1 + first_zero(s.drop_first())
    }
}

pub proof fn lemma_first_zero(s: Seq<u8>)
    ensures
        0 <= first_zero(s) <= s.len(),
        forall|i: int| 0 <= i < first_zero(s) ==> s[i] != 0,
        first_zero(s) < s.len() ==> s[first_zero(s)] == 0,
    decreases s.len(),
{
    if s.len() > 0 && s[0] != 0 {
        lemma_first_zero(s.drop_first());
        assert forall|i: int| 0 <= i < first_zero(s) implies s[i] != 0 by {
            if i > 0 {
                assert(s.drop_first()[i - 1] != 0);
            }
        }
    }
}

/// `first_zero` is pinned down by its characteristic properties.
pub proof fn lemma_first_zero_is(s: Seq<u8>, j: int)
    requires
        0 <= j <= s.len(),
        forall|i: int| 0 <= i < j ==> s[i] != 0,
        j < s.len() ==> s[j] == 0,
    ensures
        first_zero(s) == j,
    decreases s.len(),
{
    if s.len() > 0 && s[0] != 0 {
        lemma_first_zero_is(s.drop_first(), j - 1);
    }
}

/// The first zero of a zero-free sequence padded with zeros sits right
/// after the sequence.
pub proof fn lemma_first_zero_of_padded(s: Seq<u8>, width: nat)
    requires
        s.len() <= width,
        !s.contains(0),
    ensures
        first_zero(zero_pad(s, width)) == s.len(),
        zero_pad(s, width).take(s.len() as int) == s,
{
    let p = zero_pad(s, width);
    assert(forall|i: int| 0 <= i < s.len() ==> p[i] != 0);
    lemma_first_zero_is(p, s.len() as int);
    assert(p.take(s.len() as int) =~= s);
}

/// Appends every byte of `src` to `out`.
pub fn push_bytes(out: &mut Vec<u8>, src: &[u8])
    ensures
        final(out)@ == old(out)@ + src@,
{
    let ghost base = out@;
    let mut i: usize = 0;
    while i < src.len()
        invariant
            i <= src@.len(),
            out@ == base + src@.take(i as int),
        decreases src@.len() - i,
    {
        out.push(*slice_index_get(src, i));
        i = i + 1;
        proof {
            assert(base + src@.take(i as int) =~= (base + src@.take(i - 1)).push(src@[i - 1]));
        }
    }
    proof {
        assert(base + src@.take(src@.len() as int) =~= base + src@);
    }
}

/// Appends zero bytes to `out` until it is `target` bytes long.
pub fn pad_zeros(out: &mut Vec<u8>, target: usize)
    requires
        old(out)@.len() <= target,
    ensures
        final(out)@ == old(out)@ + zeros((target - old(out)@.len()) as nat),
        final(out)@.len() == target,
{
    let ghost base = out@;
    while out.len() < target
        invariant
            base.len() <= out@.len() <= target,
            out@ == base + zeros((out@.len() - base.len()) as nat),
        decreases target - out@.len(),
    {
        out.push(0);
        proof {
            let k = (out@.len() - base.len()) as nat;
            assert(base + zeros(k) =~= (base + zeros((k - 1) as nat)).push(0u8));
        }
    }
}

/// Appends the little-endian encoding of `v` to `out`.
pub fn push_u64_le(out: &mut Vec<u8>, v: u64)
    ensures
        final(out)@ == old(out)@ + spec_u64_to_le_bytes(v),
{
    let bytes = u64_to_le_bytes(v);
    push_bytes(out, bytes.as_slice());
}

/// Reads the little-endian word stored at `off`.
pub fn read_u64_at(bytes: &[u8], off: usize) -> (r: u64)
    requires
        off + 8 <= bytes@.len(),
    ensures
        r == vstd::bytes::spec_u64_from_le_bytes(bytes@.subrange(off as int, off + 8)),
{
    let _n: usize = bytes.len();
    u64_from_le_bytes(slice_subrange(bytes, off, off + 8))
}

/// The index of the first zero byte of `w`, or its length if there is none.
pub fn find_first_zero(w: &[u8]) -> (r: usize)
    ensures
        r == first_zero(w@),
{
    let mut j: usize = 0;
    while j < w.len() && *slice_index_get(w, j) != 0
        invariant
            j <= w@.len(),
            forall|i: int| 0 <= i < j ==> w@[i] != 0,
        decreases w@.len() - j,
    {
        j = j + 1;
    }
    proof {
        lemma_first_zero_is(w@, j as int);
    }
    j
}

} // verus!
