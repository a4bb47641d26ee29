//! The buffer sink: an append-only writer over a caller-supplied region of
//! fixed length.
use vstd::prelude::*;
use vstd::arithmetic::div_mod::{lemma_fundamental_div_mod, lemma_mod_multiples_basic};
use crate::bytes::{le_bytes, write_le, zeros, lemma_le_bytes_len};
use crate::plain::{Plain, align_of, align_for};

verus! {

/// Why archiving failed. After any of these the session is to be discarded.
#[derive(Clone, Copy, Debug, PartialEq, Eq, Structural)]
pub enum ArchiveError {
    /// A write or its padding would pass the end of the region.
    Overflow,
    /// A relative pointer's target is out of the range of its offset.
    OffsetOverflow,
    /// A required alignment cannot be met (an alignment of zero).
    Alignment,
    /// No table layout was found for a map.
    MapBuild,
}

/// Padding that brings `pos` to the next multiple of `a`.
pub open spec fn pad_len(pos: nat, a: nat) -> nat {
    if pos % a == 0 {
        0
    } else {
        (a - pos % a) as nat
    }
}

pub proof fn lemma_pad_aligns(pos: nat, a: nat)
    requires
        a > 0,
    ensures
        ((pos + pad_len(pos, a)) as int) % (a as int) == 0,
        pad_len(pos, a) < a,
{
    lemma_fundamental_div_mod(pos as int, a as int);
    if pos % a != 0 {
        let q = pos as int / a as int;
        assert(pos + pad_len(pos, a) == (q + 1) * a) by (nonlinear_arith)
            requires
                pos == a * q + pos % a,
                pad_len(pos, a) == a - pos % a,
        ;
        lemma_mod_multiples_basic(q + 1, a as int);
    }
}

/// The bytes that archiving the plain value `v` appends at position `pos`:
/// padding to its alignment, then its own bytes.
pub open spec fn plain_layout<T: Plain>(pos: nat, v: T) -> Seq<u8> {
    zeros(pad_len(pos, align_of::<T>())) + le_bytes(v.bits(), T::size())
}

/// `b` starts with `a`: what was written stays as it was.
pub open spec fn extends(a: Seq<u8>, b: Seq<u8>) -> bool {
    &&& a.len() <= b.len()
    &&& forall|i: int| 0 <= i < a.len() ==> b[i] == a[i]
}

/// Where the archived form of a plain value appended at `pos` starts.
pub open spec fn plain_start<T: Plain>(pos: nat) -> nat {
    pos + pad_len(pos, align_of::<T>())
}

/// A sink over a region of fixed length. Everything before the position has
/// been written by this sink; what lies after it is not part of the archive.
pub struct ArchiveBuffer {
    inner: Vec<u8>,
    pos: usize,
}

impl ArchiveBuffer {
    /// The bytes written so far, padding included.
    pub closed spec fn written(&self) -> Seq<u8> {
        self.inner@.take(self.pos as int)
    }

    /// Length of the region.
    pub closed spec fn capacity(&self) -> nat {
        self.inner@.len()
    }

    pub closed spec fn wf(&self) -> bool {
        self.pos <= self.inner@.len()
    }

    /// What has been written fits in the region.
    pub proof fn lemma_written_fits(&self)
        requires
            self.wf(),
        ensures
            self.written().len() <= self.capacity(),
    {
    }

    /// A sink that writes into `inner` from its start.
    pub fn new(inner: Vec<u8>) -> (r: Self)
        ensures
            r.wf(),
            r.written() == Seq::<u8>::empty(),
            r.capacity() == inner@.len(),
    {
        let r = ArchiveBuffer { inner, pos: 0 };
        assert(r.written() =~= Seq::<u8>::empty());
        r
    }

    /// The current position: the number of bytes written so far.
    pub fn pos(&self) -> (r: usize)
        requires
            self.wf(),
        ensures
            r == self.written().len(),
    {
        self.pos
    }

    /// Length of the region.
    pub fn region_len(&self) -> (r: usize)
        ensures
            r == self.capacity(),
    {
        self.inner.len()
    }

    /// Ends the session and hands back the region, which starts with the
    /// written bytes.
    pub fn into_inner(self) -> (r: Vec<u8>)
        requires
            self.wf(),
        ensures
            r@.len() == self.capacity(),
            r@.take(self.written().len() as int) == self.written(),
    {
        self.inner
    }

    /// Appends `data` verbatim and returns the position where it starts.
    pub fn write(&mut self, data: &[u8]) -> (r: Result<usize, ArchiveError>)
        requires
            old(self).wf(),
        ensures
            final(self).wf(),
            final(self).capacity() == old(self).capacity(),
            extends(old(self).written(), final(self).written()),
            match r {
                Ok(p) => {
                    &&& p == old(self).written().len()
                    &&& old(self).written().len() + data@.len() <= old(self).capacity()
                    &&& final(self).written() == old(self).written() + data@
                },
                Err(e) => {
                    &&& e == ArchiveError::Overflow
                    &&& old(self).written().len() + data@.len() > old(self).capacity()
                    &&& final(self).written() == old(self).written()
                },
            },
    {
        let start = self.pos;
        let cap = self.inner.len();
        if data.len() > cap - start {
            return Err(ArchiveError::Overflow);
        }
        let ghost before = self.inner@;
        let mut i: usize = 0;
        while i < data.len()
            invariant
                start + data@.len() <= self.inner@.len(),
                self.pos == start,
                cap == self.inner@.len(),
                self.inner@.len() == before.len(),
                i <= data@.len(),
                forall|j: int| 0 <= j < start ==> self.inner@[j] == before[j],
                forall|j: int| 0 <= j < i ==> self.inner@[start + j] == data@[j],
            decreases data@.len() - i,
        {
            self.inner[start + i] = data[i];
            i = i + 1;
        }
        self.pos = start + data.len();
        assert(self.written() =~= before.take(start as int) + data@);
        Ok(start)
    }

    /// Appends the least padding (zero bytes) that makes the position a
    /// multiple of `a`, and returns the new position.
    pub fn align(&mut self, a: usize) -> (r: Result<usize, ArchiveError>)
        requires
            old(self).wf(),
        ensures
            final(self).wf(),
            final(self).capacity() == old(self).capacity(),
            extends(old(self).written(), final(self).written()),
            match r {
                Ok(p) => {
                    let pad = pad_len(old(self).written().len(), a as nat);
                    &&& a > 0
                    &&& p == old(self).written().len() + pad
                    &&& (p as int) % (a as int) == 0
                    &&& p <= old(self).capacity()
                    &&& final(self).written() == old(self).written() + zeros(pad)
                },
                Err(e) => {
                    &&& a == 0 ==> e == ArchiveError::Alignment
                    &&& a > 0 ==> e == ArchiveError::Overflow
                        && old(self).written().len() + pad_len(old(self).written().len(), a as nat)
                        > old(self).capacity()
                },
            },
    {
        if a == 0 {
            return Err(ArchiveError::Alignment);
        }
        let rem = self.pos % a;
        let pad: usize = if rem == 0 {
            0
        } else {
            a - rem
        };
        let z = zero_bytes(pad);
        proof {
            lemma_pad_aligns(self.pos as nat, a as nat);
        }
        assert(pad == pad_len(self.pos as nat, a as nat));
        match self.write(z.as_slice()) {
            Ok(_) => {
                assert(self.written().len() == self.pos);
                Ok(self.pos)
            },
            Err(e) => Err(e),
        }
    }

    /// Archives a plain value: pads to its alignment, writes its bytes, and
    /// returns the position where they start.
    pub fn archive<T: Plain>(&mut self, v: &T) -> (r: Result<usize, ArchiveError>)
        requires
            old(self).wf(),
        ensures
            final(self).wf(),
            final(self).capacity() == old(self).capacity(),
            extends(old(self).written(), final(self).written()),
            match r {
                Ok(p) => {
                    &&& p == plain_start::<T>(old(self).written().len())
                    &&& (p as int) % (align_of::<T>() as int) == 0
                    &&& p + T::size() <= old(self).capacity()
                    &&& final(self).written() == old(self).written() + plain_layout(
                        old(self).written().len(),
                        *v,
                    )
                },
                Err(e) => {
                    &&& e == ArchiveError::Overflow
                    &&& plain_start::<T>(old(self).written().len()) + T::size() > old(self).capacity()
                },
            },
    {
        let ghost w0 = self.written();
        let a = align_for::<T>();
        let n = T::byte_size();
        let bits = v.to_bits();
        let data = write_le(bits, n);
        proof {
            lemma_le_bytes_len(bits as nat, n as nat);
            lemma_pad_aligns(w0.len(), a as nat);
        }
        let p = match self.align(a) {
            Ok(p) => p,
            Err(e) => return Err(e),
        };
        match self.write(data.as_slice()) {
            Ok(_) => {
                assert(self.written() =~= w0 + plain_layout(w0.len(), *v));
                Ok(p)
            },
            Err(e) => Err(e),
        }
    }
}

/// `n` zero bytes.
fn zero_bytes(n: usize) -> (r: Vec<u8>)
    ensures
        r@ == zeros(n as nat),
{
    let mut out: Vec<u8> = Vec::new();
    let mut i: usize = 0;
    while i < n
        invariant
            i <= n,
            out@ =~= zeros(i as nat),
        decreases n - i,
    {
        out.push(0u8);
        i = i + 1;
    }
    out
}

} // verus!
