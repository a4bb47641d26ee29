//! Reading archived plain values and contiguous runs of them in place.
use vstd::prelude::*;
use crate::bytes::{le_bytes, le_value, read_le, lemma_le_value_bound, lemma_le_round_trip, lemma_le_bytes_len};
use crate::plain::Plain;

verus! {

/// The plain value of type `T` whose archived form starts at `pos`.
pub open spec fn plain_at<T: Plain>(bytes: Seq<u8>, pos: int) -> T {
    T::from_bits(le_value(bytes.subrange(pos, pos + T::size())))
}

/// `prefix` is what `bytes` starts with.
pub open spec fn starts_with(bytes: Seq<u8>, prefix: Seq<u8>) -> bool {
    prefix.len() <= bytes.len() && bytes.take(prefix.len() as int) == prefix
}

/// The archived forms of the items of `s`, back to back with no padding.
pub open spec fn seq_bytes<T: Plain>(s: Seq<T>) -> Seq<u8>
    decreases s.len(),
{
    if s.len() == 0 {
        Seq::empty()
    } else {
        seq_bytes(s.drop_last()) + le_bytes(s.last().bits(), T::size())
    }
}

/// Reads the plain value of type `T` stored at `pos`.
pub fn read_plain<T: Plain>(bytes: &[u8], pos: usize) -> (r: T)
    requires
        pos + T::size() <= bytes@.len(),
    ensures
        r == plain_at::<T>(bytes@, pos as int),
{
    let n = T::byte_size();
    let b = read_le(bytes, pos, n);
    proof {
        lemma_le_value_bound(bytes@.subrange(pos as int, pos + n));
    }
    T::from_le_bits(b)
}

/// Reads `len` plain values of type `T` stored back to back from `pos`.
pub fn read_array<T: Plain>(bytes: &[u8], pos: usize, len: usize) -> (r: Vec<T>)
    requires
        pos + len * T::size() <= bytes@.len(),
    ensures
        r@.len() == len,
        forall|i: int| 0 <= i < len ==> r@[i] == plain_at::<T>(bytes@, pos + i * T::size()),
{
    let n = T::byte_size();
    let mut out: Vec<T> = Vec::new();
    let mut i: usize = 0;
    let mut at: usize = pos;
    let blen: usize = bytes.len();
    while i < len
        invariant
            n == T::size(),
            blen == bytes@.len(),
            i <= len,
            pos + len * n <= bytes@.len(),
            at == pos + i * n,
            out@.len() == i,
            forall|j: int| 0 <= j < i ==> out@[j] == plain_at::<T>(bytes@, pos + j * n),
        decreases len - i,
    {
        proof {
            assert(at + n <= pos + len * n) by (nonlinear_arith)
                requires
                    at == pos + i * n,
                    i < len,
            ;
        }
        let v = read_plain::<T>(bytes, at);
        out.push(v);
        proof {
            assert((i + 1) * n == i * n + n) by (nonlinear_arith);
        }
        at = at + n;
        i = i + 1;
    }
    out
}

pub proof fn lemma_seq_bytes_len<T: Plain>(s: Seq<T>)
    ensures
        seq_bytes(s).len() == s.len() * T::size(),
    decreases s.len(),
{
    if s.len() > 0 {
        lemma_seq_bytes_len(s.drop_last());
        lemma_le_bytes_len(s.last().bits(), T::size());
        assert((s.len() - 1) * T::size() + T::size() == s.len() * T::size()) by (nonlinear_arith);
    }
}

/// Item `i` of `s` takes the bytes `[i * size, (i + 1) * size)` of
/// `seq_bytes(s)`.
pub proof fn lemma_seq_bytes_item<T: Plain>(s: Seq<T>, i: int)
    requires
        0 <= i < s.len(),
    ensures
        seq_bytes(s).subrange(i * T::size(), i * T::size() + T::size()) == le_bytes(
            s[i].bits(),
            T::size(),
        ),
    decreases s.len(),
{
    let n = T::size();
    let m = s.len() - 1;
    let init = s.drop_last();
    lemma_seq_bytes_len(init);
    lemma_le_bytes_len(s.last().bits(), n);
    assert(0 <= i * n) by (nonlinear_arith)
        requires
            0 <= i,
    ;
    if i == m {
        assert(seq_bytes(s).subrange(i * n, i * n + n) =~= le_bytes(s[i].bits(), n));
    } else {
        lemma_seq_bytes_item(init, i);
        assert(i * n + n <= m * n) by (nonlinear_arith)
            requires
                i < m,
                0 <= n,
        ;
        assert(seq_bytes(s).subrange(i * n, i * n + n) =~= seq_bytes(init).subrange(i * n, i * n + n));
    }
}

/// Archived and read back, a plain value is the value itself: wherever the
/// bytes `layout` of `v` stand in a region, reading a `T` at their start
/// gives `v`.
pub proof fn lemma_plain_round_trip<T: Plain>(bytes: Seq<u8>, at: int, v: T)
    requires
        0 <= at,
        at + T::size() <= bytes.len(),
        bytes.subrange(at, at + T::size()) == le_bytes(v.bits(), T::size()),
    ensures
        plain_at::<T>(bytes, at) == v,
{
    T::lemma_bits(v);
    lemma_le_round_trip(v.bits(), T::size());
}

/// Archived back to back and read back, a run of plain values is the run
/// itself.
pub proof fn lemma_array_round_trip<T: Plain>(bytes: Seq<u8>, at: int, s: Seq<T>)
    requires
        0 <= at,
        at + seq_bytes(s).len() <= bytes.len(),
        bytes.subrange(at, at + seq_bytes(s).len()) == seq_bytes(s),
    ensures
        forall|i: int| 0 <= i < s.len() ==> #[trigger] plain_at::<T>(bytes, at + i * T::size()) == s[i],
{
    let n = T::size();
    lemma_seq_bytes_len(s);
    assert forall|i: int| 0 <= i < s.len() implies #[trigger] plain_at::<T>(bytes, at + i * n) == s[i] by {
        lemma_seq_bytes_item(s, i);
        assert(i * n + n <= s.len() * n) by (nonlinear_arith)
            requires
                i < s.len(),
        ;
        assert(0 <= i * n) by (nonlinear_arith)
            requires
                0 <= i,
        ;
        assert(bytes.subrange(at + i * n, at + i * n + n) =~= seq_bytes(s).subrange(i * n, i * n + n));
        lemma_plain_round_trip(bytes, at + i * n, s[i]);
    }
}

} // verus!
