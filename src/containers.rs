//! Unsized values and containers: runs of plain values, text, owning
//! indirections and optional values, each stored as its payload followed by
//! a reference to it.
//!
//! Wire form. A relative pointer is an `i32` at a position `q` (aligned to
//! four) whose target is `q + offset`. A slice reference is a relative
//! pointer followed by the item count as a `u32`. An optional value is a tag
//! byte (zero for none, one for some) followed, at the value's alignment, by
//! the value or by zero bytes of its size.
use vstd::prelude::*;
use vstd::string::StringSliceAdditionalSpecFns;
use crate::bytes::{le_bytes, write_le, zeros, lemma_le_bytes_len};
use crate::plain::{Plain, align_of, align_for};
use crate::buffer::{ArchiveBuffer, ArchiveError, extends, pad_len, plain_layout, plain_start, lemma_pad_aligns};
use crate::read::{plain_at, read_plain, read_array, seq_bytes, starts_with, lemma_seq_bytes_len, lemma_plain_round_trip, lemma_array_round_trip};

verus! {

/// Smallest offset a relative pointer can hold.
pub const OFFSET_MIN: i64 = -0x8000_0000;

/// Largest offset a relative pointer can hold.
pub const OFFSET_MAX: i64 = 0x7fff_ffff;

/// Largest item count a slice reference can hold.
pub const COUNT_MAX: usize = 0xffff_ffff;

/// The bytes that archiving the run `s` appends at `pos`: padding to the
/// items' alignment, then the items back to back.
pub open spec fn array_layout<T: Plain>(pos: nat, s: Seq<T>) -> Seq<u8> {
    zeros(pad_len(pos, align_of::<T>())) + seq_bytes(s)
}

/// Position just past a run of `len` items of type `T` appended at `pos`.
pub open spec fn array_end<T: Plain>(pos: nat, len: nat) -> nat {
    plain_start::<T>(pos) + len * T::size()
}

/// The target that the relative pointer stored at `q` resolves to.
pub open spec fn rel_at(bytes: Seq<u8>, q: int) -> int {
    q + plain_at::<i32>(bytes, q) as int
}

/// Offset from `q` to `target`, if an `i32` can hold it.
pub open spec fn offset_fits(q: int, target: int) -> bool {
    OFFSET_MIN <= target - q <= OFFSET_MAX
}

/// The bytes of a relative pointer appended at `pos` and aimed at `target`.
pub open spec fn rel_layout(pos: nat, target: int) -> Seq<u8> {
    plain_layout::<i32>(pos, (target - plain_start::<i32>(pos)) as i32)
}

/// The bytes of a slice reference to `len` items at `target`, appended at
/// `pos`.
pub open spec fn ref_layout(pos: nat, target: int, len: nat) -> Seq<u8> {
    rel_layout(pos, target) + le_bytes(len, 4)
}

/// Where the slice reference of a run of `len` items of type `T` appended at
/// `pos` stands.
pub open spec fn slice_ref_pos<T: Plain>(pos: nat, len: nat) -> nat {
    plain_start::<i32>(array_end::<T>(pos, len))
}

/// The bytes that archiving the run `s` by reference appends at `pos`.
pub open spec fn slice_layout<T: Plain>(pos: nat, s: Seq<T>) -> Seq<u8> {
    array_layout(pos, s) + ref_layout(
        array_end::<T>(pos, s.len()),
        plain_start::<T>(pos) as int,
        s.len(),
    )
}

/// Archiving the run `s` by reference at `pos` can succeed within
/// `capacity`.
pub open spec fn slice_fits<T: Plain>(pos: nat, s: Seq<T>, capacity: nat) -> bool {
    &&& slice_ref_pos::<T>(pos, s.len()) + 8 <= capacity
    &&& offset_fits(slice_ref_pos::<T>(pos, s.len()) as int, plain_start::<T>(pos) as int)
    &&& s.len() <= COUNT_MAX
}

/// The run that the slice reference at `q` stands for, if its target and
/// items lie inside `bytes`.
pub open spec fn slice_at<T: Plain>(bytes: Seq<u8>, q: int) -> Option<Seq<T>> {
    let t = rel_at(bytes, q);
    let n = plain_at::<u32>(bytes, q + 4) as nat;
    if 0 <= t && t + n * T::size() <= bytes.len() {
        Some(Seq::new(n, |i: int| plain_at::<T>(bytes, t + i * T::size())))
    } else {
        None
    }
}

/// The value that the relative pointer at `q` points to, if it lies inside
/// `bytes`.
pub open spec fn boxed_at<T: Plain>(bytes: Seq<u8>, q: int) -> Option<T> {
    let t = rel_at(bytes, q);
    if 0 <= t && t + T::size() <= bytes.len() {
        Some(plain_at::<T>(bytes, t))
    } else {
        None
    }
}

/// The bytes that archiving the optional plain value `v` appends at `pos`.
pub open spec fn option_layout<T: Plain>(pos: nat, v: Option<T>) -> Seq<u8> {
    zeros(pad_len(pos, align_of::<T>())) + seq![
        if v is Some {
            1u8
        } else {
            0u8
        },
    ] + zeros((align_of::<T>() - 1) as nat) + match v {
        Some(x) => le_bytes(x.bits(), T::size()),
        None => zeros(T::size()),
    }
}

/// The optional value whose archived form starts at `q`.
pub open spec fn option_at<T: Plain>(bytes: Seq<u8>, q: int) -> Option<T> {
    if bytes[q] == 0 {
        None
    } else {
        Some(plain_at::<T>(bytes, q + align_of::<T>()))
    }
}

/// Where the tag of an optional run stands when archived at `pos`: after the
/// run's items, if any, at a multiple of four.
pub open spec fn option_slice_pos<T: Plain>(pos: nat, v: Option<Seq<T>>) -> nat {
    match v {
        Some(s) => array_end::<T>(pos, s.len()) + pad_len(array_end::<T>(pos, s.len()), 4),
        None => pos + pad_len(pos, 4),
    }
}

/// The bytes that archiving the optional run `v` appends at `pos`: the run's
/// items, then the tag (with padding to four), then a slice reference to the
/// items, or zero bytes in its place for none.
pub open spec fn option_slice_layout<T: Plain>(pos: nat, v: Option<Seq<T>>) -> Seq<u8> {
    match v {
        Some(s) => array_layout(pos, s) + option_slice_tag(array_end::<T>(pos, s.len()), true)
            + ref_layout(
            option_slice_pos(pos, v) + 4,
            plain_start::<T>(pos) as int,
            s.len(),
        ),
        None => option_slice_tag(pos, false) + zeros(8),
    }
}

/// A tag at the next multiple of four after `pos`, then three bytes of
/// padding.
pub open spec fn option_slice_tag(pos: nat, present: bool) -> Seq<u8> {
    zeros(pad_len(pos, 4)) + seq![if present { 1u8 } else { 0u8 }] + zeros(3)
}

/// The optional run whose tag stands at `t`: `Some(None)` for none,
/// `Some(Some(s))` for a run `s`, `None` where the reference falls outside
/// `bytes`.
pub open spec fn option_slice_at<T: Plain>(bytes: Seq<u8>, t: int) -> Option<Option<Seq<T>>> {
    if bytes[t] == 0 {
        Some(None)
    } else {
        match slice_at::<T>(bytes, t + 4) {
            Some(s) => Some(Some(s)),
            None => None,
        }
    }
}

impl ArchiveBuffer {
    /// Archives an optional run (an optional sequence, text or boxed slice):
    /// the items first, then the tag and a slice reference to them. Returns
    /// where the tag stands.
    pub fn archive_option_slice<T: Plain>(&mut self, v: Option<&[T]>) -> (r: Result<usize, ArchiveError>)
        requires
            old(self).wf(),
        ensures
            final(self).wf(),
            final(self).capacity() == old(self).capacity(),
            extends(old(self).written(), final(self).written()),
            match r {
                Ok(t) => {
                    let pos = old(self).written().len();
                    let m = match v { Some(s) => Some(s@), None => None };
                    &&& t == option_slice_pos::<T>(pos, m)
                    &&& final(self).written() == old(self).written() + option_slice_layout(pos, m)
                    &&& v is Some ==> offset_fits(t as int + 4, plain_start::<T>(pos) as int)
                },
                Err(e) => {
                    let pos = old(self).written().len();
                    let m = match v { Some(s) => Some(s@), None => None };
                    let t = option_slice_pos::<T>(pos, m);
                    &&& e == ArchiveError::Overflow || e == ArchiveError::OffsetOverflow
                    &&& !(t + 12 <= old(self).capacity() && (v is Some ==> offset_fits(
                        t as int + 4,
                        plain_start::<T>(pos) as int,
                    ) && v.unwrap()@.len() <= COUNT_MAX))
                },
            },
    {
        let ghost w0 = self.written();
        match v {
            Some(items) => {
                let ghost e0 = array_end::<T>(w0.len(), items@.len());
                let p = match self.archive_array(items) {
                    Ok(p) => p,
                    Err(e) => {
                        proof {
                            lemma_pad_aligns(e0, 4);
                        }
                        return Err(e);
                    },
                };
                let ghost w1 = self.written();
                proof {
                    lemma_seq_bytes_len(items@);
                    assert(w1.len() == e0);
                    lemma_pad_aligns(e0, 4);
                }
                let t = match self.archive_tag(true, 4) {
                    Ok(t) => t,
                    Err(e) => return Err(e),
                };
                proof {
                    lemma_pad_aligns((t + 4) as nat, 4);
                    assert(((t + 4) as int) % 4 == 0);
                    assert(pad_len((t + 4) as nat, 4) == 0);
                    assert(plain_start::<i32>((t + 4) as nat) == t + 4);
                }
                let ghost w2 = self.written();
                match self.archive_ref_to(p, items.len()) {
                    Ok(_) => {
                        assert(self.written() =~= w0 + option_slice_layout(w0.len(), Some(items@)));
                        Ok(t)
                    },
                    Err(e) => Err(e),
                }
            },
            None => {
                proof {
                    lemma_pad_aligns(w0.len(), 4);
                }
                let t = match self.archive_tag(false, 4) {
                    Ok(t) => t,
                    Err(e) => return Err(e),
                };
                let z: [u8; 8] = [0u8; 8];
                match self.write(&z) {
                    Ok(_) => {
                        assert(self.written() =~= w0 + option_slice_layout::<T>(w0.len(), None));
                        Ok(t)
                    },
                    Err(e) => Err(e),
                }
            },
        }
    }

    /// Archives the items of `items` back to back, after padding to their
    /// alignment, and returns where the first one starts.
    pub fn archive_array<T: Plain>(&mut self, items: &[T]) -> (r: Result<usize, ArchiveError>)
        requires
            old(self).wf(),
        ensures
            final(self).wf(),
            final(self).capacity() == old(self).capacity(),
            extends(old(self).written(), final(self).written()),
            match r {
                Ok(p) => {
                    &&& p == plain_start::<T>(old(self).written().len())
                    &&& (p as int) % (align_of::<T>() as int) == 0
                    &&& array_end::<T>(old(self).written().len(), items@.len()) <= old(self).capacity()
                    &&& final(self).written() == old(self).written() + array_layout(
                        old(self).written().len(),
                        items@,
                    )
                },
                Err(e) => {
                    &&& e == ArchiveError::Overflow
                    &&& array_end::<T>(old(self).written().len(), items@.len()) > old(self).capacity()
                },
            },
    {
        let ghost w0 = self.written();
        let a = align_for::<T>();
        let n = T::byte_size();
        proof {
            lemma_pad_aligns(w0.len(), a as nat);
        }
        let p = match self.align(a) {
            Ok(p) => p,
            Err(e) => {
                assert(0 <= items@.len() * T::size()) by (nonlinear_arith);
                return Err(e);
            },
        };
        let mut i: usize = 0;
        let ghost cap = self.capacity();
        assert(seq_bytes(items@.take(0)) =~= Seq::<u8>::empty());
        while i < items.len()
            invariant
                self.wf(),
                self.capacity() == cap,
                cap == old(self).capacity(),
                w0 == old(self).written(),
                n == T::size(),
                i <= items@.len(),
                p == plain_start::<T>(w0.len()),
                self.written().len() == p + i * n,
                self.written() == w0 + zeros(pad_len(w0.len(), align_of::<T>())) + seq_bytes(
                    items@.take(i as int),
                ),
            decreases items@.len() - i,
        {
            let data = write_le(items[i].to_bits(), n);
            proof {
                lemma_le_bytes_len(items@[i as int].bits(), n as nat);
            }
            match self.write(data.as_slice()) {
                Ok(_) => {},
                Err(e) => {
                    assert(p + i * n + n <= p + items@.len() * n) by (nonlinear_arith)
                        requires
                            i < items@.len(),
                    ;
                    return Err(e);
                },
            }
            proof {
                let t = items@.take(i + 1);
                assert(t.drop_last() =~= items@.take(i as int));
                assert((i + 1) * n == i * n + n) by (nonlinear_arith);
            }
            i = i + 1;
        }
        assert(items@.take(items@.len() as int) =~= items@);
        proof {
            self.lemma_written_fits();
        }
        Ok(p)
    }

    /// Pads to four and stores a relative pointer to `target`; returns where
    /// the pointer stands.
    pub fn archive_rel_ptr(&mut self, target: usize) -> (r: Result<usize, ArchiveError>)
        requires
            old(self).wf(),
        ensures
            final(self).wf(),
            final(self).capacity() == old(self).capacity(),
            extends(old(self).written(), final(self).written()),
            match r {
                Ok(q) => {
                    &&& q == plain_start::<i32>(old(self).written().len())
                    &&& (q as int) % 4 == 0
                    &&& q + 4 <= old(self).capacity()
                    &&& offset_fits(q as int, target as int)
                    &&& final(self).written() == old(self).written() + rel_layout(
                        old(self).written().len(),
                        target as int,
                    )
                },
                Err(e) => {
                    let q = plain_start::<i32>(old(self).written().len());
                    &&& e == ArchiveError::Overflow ==> q + 4 > old(self).capacity()
                    &&& e == ArchiveError::OffsetOverflow ==> !offset_fits(q as int, target as int)
                    &&& (e == ArchiveError::Overflow || e == ArchiveError::OffsetOverflow)
                    &&& !(q + 4 <= old(self).capacity() && offset_fits(q as int, target as int))
                },
            },
    {
        let ghost w0 = self.written();
        let q = match self.align(4) {
            Ok(q) => q,
            Err(e) => return Err(e),
        };
        proof {
            lemma_pad_aligns(w0.len(), 4);
            lemma_pad_aligns(q as nat, 4);
            assert(pad_len(q as nat, 4) == 0);
        }
        let fits: bool = if target >= q {
            target - q <= OFFSET_MAX as usize
        } else {
            q - target <= 0x8000_0000
        };
        if !fits {
            if self.region_len() < 4 || q > self.region_len() - 4 {
                return Err(ArchiveError::Overflow);
            }
            return Err(ArchiveError::OffsetOverflow);
        }
        let off: i32 = if target >= q {
            (target - q) as i32
        } else {
            (0 - ((q - target) as i64)) as i32
        };
        assert(off as int == target - q);
        match self.archive(&off) {
            Ok(_) => {
                proof {
                    assert(zeros(pad_len(w0.len(), 4)) + zeros(0) =~= zeros(pad_len(w0.len(), 4)));
                    assert(self.written() =~= w0 + rel_layout(w0.len(), target as int));
                }
                Ok(q)
            },
            Err(e) => Err(e),
        }
    }

    /// Archives the run `items` and then a slice reference to it; returns
    /// where the reference stands. The reference's pointer aims back at the
    /// first item, which is written before it.
    pub fn archive_ref<T: Plain>(&mut self, items: &[T]) -> (r: Result<usize, ArchiveError>)
        requires
            old(self).wf(),
        ensures
            final(self).wf(),
            final(self).capacity() == old(self).capacity(),
            extends(old(self).written(), final(self).written()),
            match r {
                Ok(q) => {
                    &&& q == slice_ref_pos::<T>(old(self).written().len(), items@.len())
                    &&& plain_start::<T>(old(self).written().len()) <= q
                    &&& slice_fits(old(self).written().len(), items@, old(self).capacity())
                    &&& final(self).written() == old(self).written() + slice_layout(
                        old(self).written().len(),
                        items@,
                    )
                },
                Err(e) => {
                    &&& !slice_fits(old(self).written().len(), items@, old(self).capacity())
                    &&& e == ArchiveError::Overflow ==> slice_ref_pos::<T>(
                        old(self).written().len(),
                        items@.len(),
                    ) + 8 > old(self).capacity()
                    &&& e == ArchiveError::OffsetOverflow ==> (items@.len() > COUNT_MAX || !offset_fits(
                        slice_ref_pos::<T>(old(self).written().len(), items@.len()) as int,
                        plain_start::<T>(old(self).written().len()) as int,
                    ))
                    &&& (e == ArchiveError::Overflow || e == ArchiveError::OffsetOverflow)
                },
            },
    {
        let ghost w0 = self.written();
        let ghost e0 = array_end::<T>(w0.len(), items@.len());
        proof {
            lemma_pad_aligns(e0, 4);
        }
        if items.len() > COUNT_MAX {
            return Err(ArchiveError::OffsetOverflow);
        }
        let p = match self.archive_array(items) {
            Ok(p) => p,
            Err(e) => return Err(e),
        };
        let ghost w1 = self.written();
        proof {
            lemma_seq_bytes_len(items@);
            assert(w1.len() == e0);
        }
        let q = match self.archive_rel_ptr(p) {
            Ok(q) => q,
            Err(e) => return Err(e),
        };
        let ghost w2 = self.written();
        proof {
            lemma_le_bytes_len(((p - q) as i32).bits(), 4);
            assert(w2.len() == q + 4);
        }
        let count: u32 = items.len() as u32;
        proof {
            lemma_pad_aligns(q as nat, 4);
            assert(pad_len((q + 4) as nat, 4) == 0) by {
                lemma_pad_aligns((q + 4) as nat, 4);
            }
            self.lemma_written_fits();
        }
        match self.archive(&count) {
            Ok(_) => {
                proof {
                    assert(zeros(0) + le_bytes(items@.len(), 4) =~= le_bytes(items@.len(), 4));
                    assert(self.written() =~= w0 + slice_layout(w0.len(), items@));
                }
                Ok(q)
            },
            Err(e) => Err(e),
        }
    }

    /// Stores a slice reference to `len` items at `target`: a relative
    /// pointer (after padding to four) followed by the count. Returns where
    /// the reference stands.
    pub fn archive_ref_to(&mut self, target: usize, len: usize) -> (r: Result<usize, ArchiveError>)
        requires
            old(self).wf(),
        ensures
            final(self).wf(),
            final(self).capacity() == old(self).capacity(),
            extends(old(self).written(), final(self).written()),
            match r {
                Ok(q) => {
                    &&& q == plain_start::<i32>(old(self).written().len())
                    &&& q + 8 <= old(self).capacity()
                    &&& offset_fits(q as int, target as int)
                    &&& len <= COUNT_MAX
                    &&& final(self).written() == old(self).written() + ref_layout(
                        old(self).written().len(),
                        target as int,
                        len as nat,
                    )
                },
                Err(e) => {
                    let q = plain_start::<i32>(old(self).written().len());
                    &&& !(q + 8 <= old(self).capacity() && offset_fits(q as int, target as int) && len
                        <= COUNT_MAX)
                    &&& (e == ArchiveError::Overflow || e == ArchiveError::OffsetOverflow)
                },
            },
    {
        let ghost w0 = self.written();
        if len > COUNT_MAX {
            return Err(ArchiveError::OffsetOverflow);
        }
        let q = match self.archive_rel_ptr(target) {
            Ok(q) => q,
            Err(e) => return Err(e),
        };
        let ghost w2 = self.written();
        proof {
            lemma_le_bytes_len(((target - q) as i32).bits(), 4);
            lemma_pad_aligns(w0.len(), 4);
            assert(w2.len() == q + 4);
            lemma_pad_aligns(q as nat, 4);
            assert(pad_len((q + 4) as nat, 4) == 0) by {
                lemma_pad_aligns((q + 4) as nat, 4);
            }
        }
        let count: u32 = len as u32;
        match self.archive(&count) {
            Ok(_) => {
                proof {
                    assert(zeros(0) + le_bytes(len as nat, 4) =~= le_bytes(len as nat, 4));
                    assert(self.written() =~= w0 + ref_layout(w0.len(), target as int, len as nat));
                }
                Ok(q)
            },
            Err(e) => Err(e),
        }
    }

    /// Archives the text `s` as a run of bytes followed by a slice reference
    /// to it; returns where the reference stands.
    pub fn archive_str(&mut self, s: &str) -> (r: Result<usize, ArchiveError>)
        requires
            old(self).wf(),
        ensures
            final(self).wf(),
            final(self).capacity() == old(self).capacity(),
            extends(old(self).written(), final(self).written()),
            match r {
                Ok(q) => {
                    &&& q == slice_ref_pos::<u8>(old(self).written().len(), s.spec_bytes().len())
                    &&& slice_fits(old(self).written().len(), s.spec_bytes(), old(self).capacity())
                    &&& final(self).written() == old(self).written() + slice_layout(
                        old(self).written().len(),
                        s.spec_bytes(),
                    )
                },
                Err(e) => {
                    &&& !slice_fits(old(self).written().len(), s.spec_bytes(), old(self).capacity())
                    &&& (e == ArchiveError::Overflow || e == ArchiveError::OffsetOverflow)
                },
            },
    {
        self.archive_ref::<u8>(s.as_bytes())
    }

    /// Archives the plain value `v` and then a relative pointer to it (an
    /// owning indirection); returns where the pointer stands.
    pub fn archive_box<T: Plain>(&mut self, v: &T) -> (r: Result<usize, ArchiveError>)
        requires
            old(self).wf(),
        ensures
            final(self).wf(),
            final(self).capacity() == old(self).capacity(),
            extends(old(self).written(), final(self).written()),
            match r {
                Ok(q) => {
                    let pos = old(self).written().len();
                    let p = plain_start::<T>(pos);
                    &&& q == plain_start::<i32>(p + T::size())
                    &&& q + 4 <= old(self).capacity()
                    &&& offset_fits(q as int, p as int)
                    &&& final(self).written() == old(self).written() + plain_layout(pos, *v)
                        + rel_layout((p + T::size()) as nat, p as int)
                },
                Err(e) => {
                    let pos = old(self).written().len();
                    let p = plain_start::<T>(pos);
                    let q = plain_start::<i32>(p + T::size());
                    &&& !(q + 4 <= old(self).capacity() && offset_fits(q as int, p as int))
                    &&& (e == ArchiveError::Overflow || e == ArchiveError::OffsetOverflow)
                },
            },
    {
        let ghost w0 = self.written();
        let p = match self.archive(v) {
            Ok(p) => p,
            Err(e) => {
                proof {
                    lemma_pad_aligns((plain_start::<T>(w0.len()) + T::size()) as nat, 4);
                }
                return Err(e);
            },
        };
        proof {
            lemma_le_bytes_len(v.bits(), T::size());
        }
        match self.archive_rel_ptr(p) {
            Ok(q) => {
                assert(self.written() =~= w0 + plain_layout(w0.len(), *v) + rel_layout(
                    (p + T::size()) as nat,
                    p as int,
                ));
                Ok(q)
            },
            Err(e) => Err(e),
        }
    }

    /// Pads to `a`, writes the tag of an optional value (one when
    /// `present`), and pads to `a` again so that the payload, which the
    /// caller writes next, follows at its alignment. Returns where the tag
    /// stands.
    pub fn archive_tag(&mut self, present: bool, a: usize) -> (r: Result<usize, ArchiveError>)
        requires
            old(self).wf(),
            1 <= a <= 16,
        ensures
            final(self).wf(),
            final(self).capacity() == old(self).capacity(),
            extends(old(self).written(), final(self).written()),
            match r {
                Ok(t) => {
                    let pos = old(self).written().len();
                    &&& t == pos + pad_len(pos, a as nat)
                    &&& (t as int) % (a as int) == 0
                    &&& t + a <= old(self).capacity()
                    &&& final(self).written() == old(self).written() + zeros(pad_len(pos, a as nat))
                        + seq![if present { 1u8 } else { 0u8 }] + zeros((a - 1) as nat)
                },
                Err(e) => {
                    let pos = old(self).written().len();
                    &&& e == ArchiveError::Overflow
                    &&& pos + pad_len(pos, a as nat) + a > old(self).capacity()
                },
            },
    {
        let ghost w0 = self.written();
        let t = match self.align(a) {
            Ok(t) => t,
            Err(e) => return Err(e),
        };
        let ghost w1 = self.written();
        let tag: u8 = if present {
            1
        } else {
            0
        };
        let one = [tag];
        match self.write(&one) {
            Ok(_) => {},
            Err(e) => return Err(e),
        }
        proof {
            lemma_pad_aligns(t as nat, a as nat);
            lemma_pad_aligns((t + 1) as nat, a as nat);
            if a > 1 {
                assert(((t + 1) as nat) % (a as nat) == 1) by (nonlinear_arith)
                    requires
                        (t as int) % (a as int) == 0,
                        a > 1,
                ;
            }
        }
        match self.align(a) {
            Ok(_) => {
                assert(self.written() =~= w0 + zeros(pad_len(w0.len(), a as nat)) + seq![tag]
                    + zeros((a - 1) as nat));
                Ok(t)
            },
            Err(e) => Err(e),
        }
    }

    /// Archives an optional plain value: its tag, then (at the value's
    /// alignment) the value, or zero bytes of its size for none. Returns
    /// where the tag stands.
    pub fn archive_option<T: Plain>(&mut self, v: &Option<T>) -> (r: Result<usize, ArchiveError>)
        requires
            old(self).wf(),
        ensures
            final(self).wf(),
            final(self).capacity() == old(self).capacity(),
            extends(old(self).written(), final(self).written()),
            match r {
                Ok(t) => {
                    let pos = old(self).written().len();
                    &&& t == plain_start::<T>(pos)
                    &&& (t as int) % (align_of::<T>() as int) == 0
                    &&& t + align_of::<T>() + T::size() <= old(self).capacity()
                    &&& final(self).written() == old(self).written() + option_layout(pos, *v)
                },
                Err(e) => {
                    let pos = old(self).written().len();
                    &&& e == ArchiveError::Overflow
                    &&& plain_start::<T>(pos) + align_of::<T>() + T::size() > old(self).capacity()
                },
            },
    {
        let ghost w0 = self.written();
        let a = align_for::<T>();
        let present = v.is_some();
        let t = match self.archive_tag(present, a) {
            Ok(t) => t,
            Err(e) => return Err(e),
        };
        let ghost w1 = self.written();
        proof {
            lemma_pad_aligns((t + a) as nat, a as nat);
            assert(((t + a) as int) % (a as int) == 0) by (nonlinear_arith)
                requires
                    (t as int) % (a as int) == 0,
                    a >= 1,
            ;
            assert(pad_len((t + a) as nat, a as nat) == 0);
        }
        match v {
            Some(x) => {
                match self.archive(x) {
                    Ok(_) => {
                        assert(self.written() =~= w0 + option_layout(w0.len(), *v));
                        Ok(t)
                    },
                    Err(e) => Err(e),
                }
            },
            None => {
                let z = write_le(0, T::byte_size());
                proof {
                    assert(le_bytes(0, T::size()) =~= zeros(T::size())) by {
                        lemma_zero_le_bytes(T::size());
                    }
                }
                match self.write(z.as_slice()) {
                    Ok(_) => {
                        assert(self.written() =~= w0 + option_layout(w0.len(), *v));
                        Ok(t)
                    },
                    Err(e) => Err(e),
                }
            },
        }
    }
}

/// The target of the relative pointer stored at `q`, if it lies inside
/// `bytes` (one past the end included).
pub fn read_rel(bytes: &[u8], q: usize) -> (r: Option<usize>)
    requires
        q + 4 <= bytes@.len(),
    ensures
        match r {
            Some(t) => t == rel_at(bytes@, q as int) && t <= bytes@.len(),
            None => rel_at(bytes@, q as int) < 0 || rel_at(bytes@, q as int) > bytes@.len(),
        },
{
    let off = read_plain::<i32>(bytes, q);
    let len = bytes.len();
    if off >= 0 {
        let d = off as usize;
        if d > len - q {
            None
        } else {
            Some(q + d)
        }
    } else {
        let d = (0 - (off as i64)) as usize;
        if d > q {
            None
        } else {
            Some(q - d)
        }
    }
}

/// Reads the run that the slice reference at `q` stands for; `None` where
/// its target or its items fall outside `bytes`.
pub fn read_slice<T: Plain>(bytes: &[u8], q: usize) -> (r: Option<Vec<T>>)
    requires
        q + 8 <= bytes@.len(),
    ensures
        match r {
            Some(v) => slice_at::<T>(bytes@, q as int) == Some(v@),
            None => slice_at::<T>(bytes@, q as int) is None,
        },
{
    let t = match read_rel(bytes, q) {
        Some(t) => t,
        None => return None,
    };
    let blen = bytes.len();
    let n = read_plain::<u32>(bytes, q + 4);
    let size = T::byte_size();
    assert((n as u64) * (size as u64) <= 0x10_0000_0000) by (nonlinear_arith)
        requires
            n <= 0xffff_ffffu32,
            size <= 16,
    ;
    let total: u64 = (n as u64) * (size as u64);
    if total > (blen - t) as u64 {
        return None;
    }
    let v = read_array::<T>(bytes, t, n as usize);
    proof {
        let ghost want = Seq::new(n as nat, |i: int| plain_at::<T>(bytes@, t + i * T::size()));
        assert(v@ =~= want);
    }
    Some(v)
}

/// Reads the plain value that the relative pointer at `q` points to; `None`
/// where it falls outside `bytes`.
pub fn read_box<T: Plain>(bytes: &[u8], q: usize) -> (r: Option<T>)
    requires
        q + 4 <= bytes@.len(),
    ensures
        r == boxed_at::<T>(bytes@, q as int),
{
    let t = match read_rel(bytes, q) {
        Some(t) => t,
        None => return None,
    };
    if T::byte_size() > bytes.len() - t {
        return None;
    }
    Some(read_plain::<T>(bytes, t))
}

/// Reads the optional plain value whose archived form starts at `q`.
pub fn read_option<T: Plain>(bytes: &[u8], q: usize) -> (r: Option<T>)
    requires
        q + align_of::<T>() + T::size() <= bytes@.len(),
    ensures
        r == option_at::<T>(bytes@, q as int),
{
    if bytes[q] == 0 {
        None
    } else {
        Some(read_plain::<T>(bytes, q + align_for::<T>()))
    }
}

/// Containers compose: a run archived after `before`, followed by any bytes
/// `mid` (an optional value's tag, other fields of an aggregate) and then a
/// slice reference to the run, reads back through that reference as the run.
pub proof fn lemma_ref_after_run<T: Plain>(bytes: Seq<u8>, before: Seq<u8>, s: Seq<T>, mid: Seq<u8>)
    requires
        starts_with(
            bytes,
            before + array_layout(before.len(), s) + mid + ref_layout(
                array_end::<T>(before.len(), s.len()) + mid.len(),
                plain_start::<T>(before.len()) as int,
                s.len(),
            ),
        ),
        offset_fits(
            plain_start::<i32>(array_end::<T>(before.len(), s.len()) + mid.len()) as int,
            plain_start::<T>(before.len()) as int,
        ),
        s.len() <= COUNT_MAX,
    ensures
        slice_at::<T>(
            bytes,
            plain_start::<i32>(array_end::<T>(before.len(), s.len()) + mid.len()) as int,
        ) == Some(s),
{
    let pos = before.len();
    let p = plain_start::<T>(pos);
    let e = array_end::<T>(pos, s.len());
    let m = e + mid.len();
    let q = plain_start::<i32>(m);
    let pre = before + array_layout(pos, s) + mid + ref_layout(m, p as int, s.len());
    lemma_seq_bytes_len(s);
    let off = (p - q) as i32;
    lemma_le_bytes_len(off.bits(), 4);
    lemma_le_bytes_len(s.len(), 4);
    lemma_prefix_range(bytes, pre, p as int, e as int);
    assert(pre.subrange(p as int, e as int) =~= seq_bytes(s));
    lemma_array_round_trip(bytes, p as int, s);
    let before2 = pre.take(m as int);
    assert(before2 =~= before + array_layout(pos, s) + mid);
    assert(pre.take((q + 4) as int) =~= before2 + rel_layout(m, p as int));
    assert(bytes.take((q + 4) as int) =~= pre.take((q + 4) as int));
    lemma_rel_ptr_resolves(bytes, before2, p as int);
    let count = s.len() as u32;
    lemma_prefix_range(bytes, pre, (q + 4) as int, (q + 8) as int);
    assert(pre.subrange((q + 4) as int, (q + 8) as int) =~= le_bytes(count.bits(), 4));
    lemma_plain_round_trip(bytes, (q + 4) as int, count);
    let got = Seq::new(s.len(), |i: int| plain_at::<T>(bytes, p + i * T::size()));
    assert(got =~= s);
}

/// Reads the optional run whose tag stands at `t`.
pub fn read_option_slice<T: Plain>(bytes: &[u8], t: usize) -> (r: Option<Option<Vec<T>>>)
    requires
        t + 12 <= bytes@.len(),
    ensures
        match r {
            Some(Some(v)) => option_slice_at::<T>(bytes@, t as int) == Some(Some(v@)),
            Some(None) => option_slice_at::<T>(bytes@, t as int) == Some(None::<Seq<T>>),
            None => option_slice_at::<T>(bytes@, t as int) is None,
        },
{
    if bytes[t] == 0 {
        return Some(None);
    }
    match read_slice::<T>(bytes, t + 4) {
        Some(v) => Some(Some(v)),
        None => None,
    }
}

/// An optional run (an optional sequence or text) archived and read back is
/// the optional run itself.
pub proof fn lemma_option_slice_round_trip<T: Plain>(bytes: Seq<u8>, before: Seq<u8>, v: Option<Seq<T>>)
    requires
        starts_with(bytes, before + option_slice_layout(before.len(), v)),
        v is Some ==> offset_fits(
            option_slice_pos(before.len(), v) as int + 4,
            plain_start::<T>(before.len()) as int,
        ) && v.unwrap().len() <= COUNT_MAX,
    ensures
        option_slice_at::<T>(bytes, option_slice_pos(before.len(), v) as int) == Some(v),
{
    let pos = before.len();
    let t = option_slice_pos(pos, v) as int;
    let pre = before + option_slice_layout(pos, v);
    match v {
        Some(s) => {
            let e = array_end::<T>(pos, s.len());
            let mid = option_slice_tag(e, true);
            lemma_seq_bytes_len(s);
            lemma_pad_aligns(e, 4);
            lemma_pad_aligns((t + 4) as nat, 4);
            assert(((t + 4) as int) % 4 == 0);
            assert(plain_start::<i32>((e + mid.len()) as nat) == t + 4);
            assert(pre =~= before + array_layout(pos, s) + mid + ref_layout(
                (e + mid.len()) as nat,
                plain_start::<T>(pos) as int,
                s.len(),
            ));
            lemma_ref_after_run(bytes, before, s, mid);
            lemma_prefix_range(bytes, pre, t, t + 1);
            assert(pre.subrange(t, t + 1) =~= seq![1u8]);
            assert(bytes[t] == bytes.subrange(t, t + 1)[0]);
        },
        None => {
            lemma_pad_aligns(pos, 4);
            lemma_prefix_range(bytes, pre, t, t + 1);
            assert(pre.subrange(t, t + 1) =~= seq![0u8]);
            assert(bytes[t] == bytes.subrange(t, t + 1)[0]);
        },
    }
}

/// Indirections nest: a run archived by reference, followed by a relative
/// pointer to that reference (an indirection to a sequence), reads back
/// through the pointer and then the reference as the run.
pub proof fn lemma_ptr_to_slice_round_trip<T: Plain>(bytes: Seq<u8>, before: Seq<u8>, s: Seq<T>)
    requires
        starts_with(
            bytes,
            before + slice_layout(before.len(), s) + rel_layout(
                slice_ref_pos::<T>(before.len(), s.len()) + 8,
                slice_ref_pos::<T>(before.len(), s.len()) as int,
            ),
        ),
        slice_fits(before.len(), s, bytes.len()),
        offset_fits(
            plain_start::<i32>(slice_ref_pos::<T>(before.len(), s.len()) + 8) as int,
            slice_ref_pos::<T>(before.len(), s.len()) as int,
        ),
    ensures
        rel_at(bytes, plain_start::<i32>(slice_ref_pos::<T>(before.len(), s.len()) + 8) as int)
            == slice_ref_pos::<T>(before.len(), s.len()),
        slice_at::<T>(bytes, slice_ref_pos::<T>(before.len(), s.len()) as int) == Some(s),
{
    let pos = before.len();
    let q = slice_ref_pos::<T>(pos, s.len());
    let l = slice_layout(pos, s);
    let before2 = before + l;
    lemma_seq_bytes_len(s);
    lemma_le_bytes_len(((plain_start::<T>(pos) - q) as i32).bits(), 4);
    lemma_le_bytes_len(s.len(), 4);
    assert(before2.len() == q + 8);
    assert(bytes.take(before2.len() as int) =~= before2);
    lemma_slice_round_trip(bytes, before, s);
    lemma_rel_ptr_resolves(bytes, before2, q as int);
}

/// Only a value's own bytes are read: two regions of one length that agree
/// on `[pos, pos + size)` read the same plain value at `pos`, whatever the
/// padding and other bytes around it hold.
pub proof fn lemma_plain_at_local<T: Plain>(b1: Seq<u8>, b2: Seq<u8>, pos: int)
    requires
        0 <= pos,
        pos + T::size() <= b1.len(),
        b1.len() == b2.len(),
        forall|i: int| pos <= i < pos + T::size() ==> b1[i] == b2[i],
    ensures
        plain_at::<T>(b1, pos) == plain_at::<T>(b2, pos),
{
    assert(b1.subrange(pos, pos + T::size()) =~= b2.subrange(pos, pos + T::size()));
}

/// Only a run's reference and items are read: two regions of one length that
/// agree on the reference at `q` and on the items it points to read the same
/// run there, whatever the padding and other bytes hold.
pub proof fn lemma_slice_at_local<T: Plain>(b1: Seq<u8>, b2: Seq<u8>, q: int)
    requires
        0 <= q,
        q + 8 <= b1.len(),
        b1.len() == b2.len(),
        forall|i: int| q <= i < q + 8 ==> b1[i] == b2[i],
        slice_at::<T>(b1, q) is Some ==> forall|i: int|
            rel_at(b1, q) <= i < rel_at(b1, q) + plain_at::<u32>(b1, q + 4) * T::size() ==> #[trigger] b1[i] == b2[i],
    ensures
        slice_at::<T>(b1, q) == slice_at::<T>(b2, q),
{
    lemma_plain_at_local::<i32>(b1, b2, q);
    lemma_plain_at_local::<u32>(b1, b2, q + 4);
    if slice_at::<T>(b1, q) is Some {
        let t = rel_at(b1, q);
        let n = plain_at::<u32>(b1, q + 4) as nat;
        assert forall|i: int| 0 <= i < n implies #[trigger] plain_at::<T>(b1, t + i * T::size()) == plain_at::<T>(
            b2,
            t + i * T::size(),
        ) by {
            assert(t + i * T::size() + T::size() <= t + n * T::size()) by (nonlinear_arith)
                requires
                    0 <= i < n,
            ;
            assert(0 <= i * T::size()) by (nonlinear_arith)
                requires
                    0 <= i,
            ;
            lemma_plain_at_local::<T>(b1, b2, t + i * T::size());
        }
        assert(Seq::new(n, |i: int| plain_at::<T>(b1, t + i * T::size())) =~= Seq::new(
            n,
            |i: int| plain_at::<T>(b2, t + i * T::size()),
        ));
    }
}

/// A plain value archived at the end of `before` reads back, at the start
/// its archiving returned, as the value itself.
pub proof fn lemma_archived_plain_round_trip<T: Plain>(bytes: Seq<u8>, before: Seq<u8>, v: T)
    requires
        starts_with(bytes, before + plain_layout(before.len(), v)),
    ensures
        plain_at::<T>(bytes, plain_start::<T>(before.len()) as int) == v,
{
    let pos = before.len();
    let p = plain_start::<T>(pos) as int;
    let pre = before + plain_layout(pos, v);
    lemma_le_bytes_len(v.bits(), T::size());
    lemma_prefix_range(bytes, pre, p, p + T::size());
    assert(pre.subrange(p, p + T::size()) =~= le_bytes(v.bits(), T::size()));
    lemma_plain_round_trip(bytes, p, v);
}

/// An owning indirection archived and read back through its pointer is the
/// value itself.
pub proof fn lemma_box_round_trip<T: Plain>(bytes: Seq<u8>, before: Seq<u8>, v: T)
    requires
        starts_with(
            bytes,
            before + plain_layout(before.len(), v) + rel_layout(
                (plain_start::<T>(before.len()) + T::size()) as nat,
                plain_start::<T>(before.len()) as int,
            ),
        ),
        offset_fits(
            plain_start::<i32>((plain_start::<T>(before.len()) + T::size()) as nat) as int,
            plain_start::<T>(before.len()) as int,
        ),
    ensures
        boxed_at::<T>(
            bytes,
            plain_start::<i32>((plain_start::<T>(before.len()) + T::size()) as nat) as int,
        ) == Some(v),
{
    let pos = before.len();
    let p = plain_start::<T>(pos);
    let e = (p + T::size()) as nat;
    let pre = before + plain_layout(pos, v) + rel_layout(e, p as int);
    lemma_le_bytes_len(v.bits(), T::size());
    let before2 = before + plain_layout(pos, v);
    assert(pre.take(e as int) =~= before2);
    lemma_prefix_range(bytes, pre, p as int, e as int);
    assert(pre.subrange(p as int, e as int) =~= le_bytes(v.bits(), T::size()));
    lemma_plain_round_trip(bytes, p as int, v);
    let q = plain_start::<i32>(e);
    let off = (p - q) as i32;
    lemma_le_bytes_len(off.bits(), 4);
    assert(bytes.take(pre.len() as int) =~= pre);
    assert(starts_with(bytes, before2 + rel_layout(e, p as int)));
    lemma_rel_ptr_resolves(bytes, before2, p as int);
}

/// An optional plain value archived and read back is the value itself.
pub proof fn lemma_option_round_trip<T: Plain>(bytes: Seq<u8>, before: Seq<u8>, v: Option<T>)
    requires
        starts_with(bytes, before + option_layout(before.len(), v)),
    ensures
        option_at::<T>(bytes, plain_start::<T>(before.len()) as int) == v,
{
    let pos = before.len();
    let t = plain_start::<T>(pos) as int;
    let a = align_of::<T>() as int;
    let n = T::size() as int;
    let pre = before + option_layout(pos, v);
    lemma_le_bytes_len(0, T::size());
    lemma_prefix_range(bytes, pre, t, t + 1);
    assert(pre.subrange(t, t + 1) =~= seq![if v is Some { 1u8 } else { 0u8 }]);
    assert(bytes[t] == bytes.subrange(t, t + 1)[0]);
    if let Some(x) = v {
        lemma_le_bytes_len(x.bits(), T::size());
        lemma_prefix_range(bytes, pre, t + a, t + a + n);
        assert(pre.subrange(t + a, t + a + n) =~= le_bytes(x.bits(), T::size()));
        lemma_plain_round_trip(bytes, t + a, x);
    }
}

/// The bytes of zero are zero bytes.
pub proof fn lemma_zero_le_bytes(n: nat)
    ensures
        le_bytes(0, n) == zeros(n),
    decreases n,
{
    if n > 0 {
        lemma_zero_le_bytes((n - 1) as nat);
        assert(le_bytes(0, n) =~= zeros(n));
    }
}

/// A region that starts with `prefix` agrees with it on every range inside
/// it.
pub proof fn lemma_prefix_range(bytes: Seq<u8>, prefix: Seq<u8>, a: int, b: int)
    requires
        starts_with(bytes, prefix),
        0 <= a <= b <= prefix.len(),
    ensures
        bytes.subrange(a, b) == prefix.subrange(a, b),
{
    assert(bytes.subrange(a, b) =~= bytes.take(prefix.len() as int).subrange(a, b));
}

/// A relative pointer resolves to exactly the position it was aimed at:
/// where the bytes of a pointer to `target` were appended after `before`,
/// the pointer read in place resolves to `target`.
pub proof fn lemma_rel_ptr_resolves(bytes: Seq<u8>, before: Seq<u8>, target: int)
    requires
        starts_with(bytes, before + rel_layout(before.len(), target)),
        offset_fits(plain_start::<i32>(before.len()) as int, target),
    ensures
        rel_at(bytes, plain_start::<i32>(before.len()) as int) == target,
{
    let pos = before.len();
    let q = plain_start::<i32>(pos);
    let off = (target - q) as i32;
    let pre = before + rel_layout(pos, target);
    lemma_le_bytes_len(off.bits(), 4);
    lemma_prefix_range(bytes, pre, q as int, (q + 4) as int);
    assert(pre.subrange(q as int, (q + 4) as int) =~= le_bytes(off.bits(), 4));
    lemma_plain_round_trip(bytes, q as int, off);
}

/// A run archived by reference and read back through the reference is the
/// run itself, the empty run included.
pub proof fn lemma_slice_round_trip<T: Plain>(bytes: Seq<u8>, before: Seq<u8>, s: Seq<T>)
    requires
        starts_with(bytes, before + slice_layout(before.len(), s)),
        slice_fits(before.len(), s, bytes.len()),
    ensures
        slice_at::<T>(bytes, slice_ref_pos::<T>(before.len(), s.len()) as int) == Some(s),
{
    let pos = before.len();
    let p = plain_start::<T>(pos);
    let e = array_end::<T>(pos, s.len());
    let q = slice_ref_pos::<T>(pos, s.len());
    let pre = before + slice_layout(pos, s);
    lemma_seq_bytes_len(s);
    let off = (p - q) as i32;
    lemma_le_bytes_len(off.bits(), 4);
    lemma_le_bytes_len(s.len(), 4);
    // the items
    lemma_prefix_range(bytes, pre, p as int, e as int);
    assert(pre.subrange(p as int, e as int) =~= seq_bytes(s));
    lemma_array_round_trip(bytes, p as int, s);
    // the pointer
    let before2 = pre.take(e as int);
    assert(before2 =~= before + array_layout(pos, s));
    assert(pre.take((q + 4) as int) =~= before2 + rel_layout(e, p as int));
    assert(bytes.take((q + 4) as int) =~= pre.take((q + 4) as int));
    assert(starts_with(bytes, before2 + rel_layout(e, p as int)));
    lemma_rel_ptr_resolves(bytes, before2, p as int);
    // the count
    let count = s.len() as u32;
    lemma_prefix_range(bytes, pre, (q + 4) as int, (q + 8) as int);
    assert(pre.subrange((q + 4) as int, (q + 8) as int) =~= le_bytes(count.bits(), 4));
    lemma_plain_round_trip(bytes, (q + 4) as int, count);
    let got = Seq::new(s.len(), |i: int| plain_at::<T>(bytes, p + i * T::size()));
    assert(got =~= s);
}

} // verus!
