//! Small tuples of plain values: each field archived in order at its own
//! alignment, the first field's start standing for the tuple.
use vstd::prelude::*;
use crate::bytes::lemma_le_bytes_len;
use crate::plain::{Plain, align_of, align_for};
use crate::buffer::{ArchiveBuffer, ArchiveError, extends, pad_len, plain_layout, plain_start, lemma_pad_aligns};
use crate::read::{plain_at, read_plain, starts_with};
use crate::containers::lemma_archived_plain_round_trip;

verus! {

/// Where a field of type `T` that follows bytes ending at `end` starts.
pub fn field_start<T: Plain>(end: usize) -> (r: Option<usize>)
    ensures
        match r {
            Some(p) => p == plain_start::<T>(end as nat),
            None => plain_start::<T>(end as nat) > usize::MAX,
        },
{
    let a = align_for::<T>();
    let rem = end % a;
    if rem == 0 {
        Some(end)
    } else if end > usize::MAX - (a - rem) {
        None
    } else {
        Some(end + (a - rem))
    }
}

/// Where the second field of a pair of types `A`, `B` starts, the first
/// starting at `p`.
pub open spec fn second_start<A: Plain, B: Plain>(p: nat) -> nat {
    plain_start::<B>(p + A::size())
}

/// Where the third field of a triple of types `A`, `B`, `C` starts, the first
/// starting at `p`.
pub open spec fn third_start<A: Plain, B: Plain, C: Plain>(p: nat) -> nat {
    plain_start::<C>(second_start::<A, B>(p) + B::size())
}

impl ArchiveBuffer {
    /// Archives a pair of plain values, fields in order; returns where the
    /// first field starts.
    pub fn archive_pair<A: Plain, B: Plain>(&mut self, v: &(A, B)) -> (r: Result<usize, ArchiveError>)
        requires
            old(self).wf(),
        ensures
            final(self).wf(),
            final(self).capacity() == old(self).capacity(),
            extends(old(self).written(), final(self).written()),
            match r {
                Ok(p) => {
                    let pos = old(self).written().len();
                    &&& p == plain_start::<A>(pos)
                    &&& final(self).written() == old(self).written() + plain_layout(pos, v.0)
                        + plain_layout((p + A::size()) as nat, v.1)
                },
                Err(e) => {
                    &&& e == ArchiveError::Overflow
                    &&& second_start::<A, B>(plain_start::<A>(old(self).written().len())) + B::size()
                        > old(self).capacity()
                },
            },
    {
        let ghost w0 = self.written();
        let p = match self.archive(&v.0) {
            Ok(p) => p,
            Err(e) => {
                proof {
                    lemma_pad_aligns((plain_start::<A>(w0.len()) + A::size()) as nat, align_of::<B>());
                }
                return Err(e);
            },
        };
        proof {
            lemma_le_bytes_len(v.0.bits(), A::size());
        }
        match self.archive(&v.1) {
            Ok(_) => Ok(p),
            Err(e) => Err(e),
        }
    }

    /// Archives a triple of plain values, fields in order; returns where the
    /// first field starts.
    pub fn archive_triple<A: Plain, B: Plain, C: Plain>(&mut self, v: &(A, B, C)) -> (r: Result<usize, ArchiveError>)
        requires
            old(self).wf(),
        ensures
            final(self).wf(),
            final(self).capacity() == old(self).capacity(),
            extends(old(self).written(), final(self).written()),
            match r {
                Ok(p) => {
                    let pos = old(self).written().len();
                    &&& p == plain_start::<A>(pos)
                    &&& final(self).written() == old(self).written() + plain_layout(pos, v.0)
                        + plain_layout((p + A::size()) as nat, v.1) + plain_layout(
                        second_start::<A, B>(p as nat) + B::size(),
                        v.2,
                    )
                },
                Err(e) => {
                    &&& e == ArchiveError::Overflow
                    &&& third_start::<A, B, C>(plain_start::<A>(old(self).written().len())) + C::size()
                        > old(self).capacity()
                },
            },
    {
        let ghost w0 = self.written();
        let ghost p0 = plain_start::<A>(w0.len());
        let ghost q0 = second_start::<A, B>(p0);
        proof {
            lemma_pad_aligns((p0 + A::size()) as nat, align_of::<B>());
            lemma_pad_aligns((q0 + B::size()) as nat, align_of::<C>());
        }
        let p = match self.archive(&v.0) {
            Ok(p) => p,
            Err(e) => return Err(e),
        };
        proof {
            lemma_le_bytes_len(v.0.bits(), A::size());
        }
        match self.archive(&v.1) {
            Ok(_) => {},
            Err(e) => return Err(e),
        }
        proof {
            lemma_le_bytes_len(v.1.bits(), B::size());
        }
        match self.archive(&v.2) {
            Ok(_) => Ok(p),
            Err(e) => Err(e),
        }
    }
}

/// Reads the pair of plain values whose first field starts at `p`.
pub fn read_pair<A: Plain, B: Plain>(bytes: &[u8], p: usize) -> (r: Option<(A, B)>)
    requires
        p + A::size() <= bytes@.len(),
    ensures
        match r {
            Some(x) => {
                &&& second_start::<A, B>(p as nat) + B::size() <= bytes@.len()
                &&& x == (plain_at::<A>(bytes@, p as int), plain_at::<B>(bytes@, second_start::<A, B>(p as nat) as int))
            },
            None => second_start::<A, B>(p as nat) + B::size() > bytes@.len(),
        },
{
    let blen = bytes.len();
    let a = read_plain::<A>(bytes, p);
    let q = match field_start::<B>(p + A::byte_size()) {
        Some(q) => q,
        None => return None,
    };
    if B::byte_size() > bytes.len() || q > bytes.len() - B::byte_size() {
        return None;
    }
    let b = read_plain::<B>(bytes, q);
    Some((a, b))
}

/// Reads the triple of plain values whose first field starts at `p`.
pub fn read_triple<A: Plain, B: Plain, C: Plain>(bytes: &[u8], p: usize) -> (r: Option<(A, B, C)>)
    requires
        p + A::size() <= bytes@.len(),
    ensures
        match r {
            Some(x) => {
                &&& third_start::<A, B, C>(p as nat) + C::size() <= bytes@.len()
                &&& x == (
                    plain_at::<A>(bytes@, p as int),
                    plain_at::<B>(bytes@, second_start::<A, B>(p as nat) as int),
                    plain_at::<C>(bytes@, third_start::<A, B, C>(p as nat) as int),
                )
            },
            None => second_start::<A, B>(p as nat) + B::size() > bytes@.len()
                || third_start::<A, B, C>(p as nat) + C::size() > bytes@.len(),
        },
{
    let blen = bytes.len();
    let (a, b) = match read_pair::<A, B>(bytes, p) {
        Some(x) => x,
        None => return None,
    };
    let q = match field_start::<B>(p + A::byte_size()) {
        Some(q) => q,
        None => return None,
    };
    let s = match field_start::<C>(q + B::byte_size()) {
        Some(s) => s,
        None => return None,
    };
    if C::byte_size() > bytes.len() || s > bytes.len() - C::byte_size() {
        return None;
    }
    let c = read_plain::<C>(bytes, s);
    Some((a, b, c))
}

/// A pair archived at the end of `before` reads back as the pair itself.
pub proof fn lemma_pair_round_trip<A: Plain, B: Plain>(bytes: Seq<u8>, before: Seq<u8>, v: (A, B))
    requires
        starts_with(
            bytes,
            before + plain_layout(before.len(), v.0) + plain_layout(
                plain_start::<A>(before.len()) + A::size(),
                v.1,
            ),
        ),
    ensures
        plain_at::<A>(bytes, plain_start::<A>(before.len()) as int) == v.0,
        plain_at::<B>(bytes, second_start::<A, B>(plain_start::<A>(before.len())) as int) == v.1,
{
    let p = plain_start::<A>(before.len());
    let l1 = plain_layout(before.len(), v.0);
    let full = before + l1 + plain_layout(p + A::size(), v.1);
    lemma_le_bytes_len(v.0.bits(), A::size());
    assert(bytes.take((before + l1).len() as int) =~= before + l1);
    lemma_archived_plain_round_trip(bytes, before, v.0);
    assert((before + l1).len() == p + A::size());
    assert(full =~= (before + l1) + plain_layout((before + l1).len(), v.1));
    lemma_archived_plain_round_trip(bytes, before + l1, v.1);
}

/// A triple archived at the end of `before` reads back as the triple itself.
pub proof fn lemma_triple_round_trip<A: Plain, B: Plain, C: Plain>(bytes: Seq<u8>, before: Seq<u8>, v: (A, B, C))
    requires
        starts_with(
            bytes,
            before + plain_layout(before.len(), v.0) + plain_layout(
                plain_start::<A>(before.len()) + A::size(),
                v.1,
            ) + plain_layout(second_start::<A, B>(plain_start::<A>(before.len())) + B::size(), v.2),
        ),
    ensures
        plain_at::<A>(bytes, plain_start::<A>(before.len()) as int) == v.0,
        plain_at::<B>(bytes, second_start::<A, B>(plain_start::<A>(before.len())) as int) == v.1,
        plain_at::<C>(bytes, third_start::<A, B, C>(plain_start::<A>(before.len())) as int) == v.2,
{
    let p = plain_start::<A>(before.len());
    let q = second_start::<A, B>(p);
    let pre2 = before + plain_layout(before.len(), v.0) + plain_layout(p + A::size(), v.1);
    lemma_le_bytes_len(v.0.bits(), A::size());
    lemma_le_bytes_len(v.1.bits(), B::size());
    assert(bytes.take(pre2.len() as int) =~= pre2);
    lemma_pair_round_trip(bytes, before, (v.0, v.1));
    assert(pre2.len() == q + B::size());
    lemma_archived_plain_round_trip(bytes, pre2, v.2);
}

} // verus!
