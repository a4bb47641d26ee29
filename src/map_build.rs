//! Building an archived hash map: keys and values, the table filled by
//! linear probing, then the header, with the proof that the bytes read back
//! as the mapping they were built from.
use vstd::prelude::*;
use crate::hash::fnv;
use crate::plain::Plain;
use crate::read::{plain_at, lemma_plain_round_trip, seq_bytes, starts_with};
use crate::containers::{slice_at, offset_fits, COUNT_MAX, OFFSET_MAX};
use crate::buffer::{ArchiveBuffer, ArchiveError, extends, pad_len, lemma_pad_aligns};
use crate::bytes::{le_bytes, le_value, zeros, lemma_le_bytes_len};
use crate::table::{table_ok, place_keys, probe_dist, probe_slot, lemma_probe_dist};
use crate::map::{
    SLOT_SIZE, MAP_MAX_LEN, map_count, map_cap, map_table, map_probe_ok, map_holds, map_slot_entry,
    map_keys_unique, map_archived, slot_entry,
};

verus! {

impl ArchiveBuffer {
    /// Writes one slot of a map's table at the current position, which must
    /// be a multiple of four: for `Some((kp, kl, vp, vl))` a taken slot whose
    /// references aim at a key of `kl` bytes at `kp` and a value of `vl`
    /// bytes at `vp`; for `None` an empty slot.
    pub fn archive_slot(&mut self, entry: Option<(usize, usize, usize, usize)>) -> (r: Result<(), ArchiveError>)
        requires
            old(self).wf(),
            (old(self).written().len() as int) % 4 == 0,
        ensures
            final(self).wf(),
            final(self).capacity() == old(self).capacity(),
            extends(old(self).written(), final(self).written()),
            r is Ok ==> {
                let sp = old(self).written().len() as int;
                &&& final(self).written() == old(self).written() + slot_bytes(
                    sp,
                    match entry {
                        Some((kp, kl, vp, vl)) => Some((kp as int, kl as nat, vp as int, vl as nat)),
                        None => None,
                    },
                )
                &&& entry is Some ==> {
                    let (kp, kl, vp, vl) = entry.unwrap();
                    &&& offset_fits(sp + 4, kp as int)
                    &&& offset_fits(sp + 12, vp as int)
                    &&& kl <= COUNT_MAX
                    &&& vl <= COUNT_MAX
                }
            },
            match r {
                Ok(_) => true,
                Err(e) => {
                    let sp = old(self).written().len() as int;
                    &&& e == ArchiveError::Overflow || e == ArchiveError::OffsetOverflow
                    &&& !(sp + SLOT_SIZE <= old(self).capacity() && (entry is Some ==> {
                        let (kp, kl, vp, vl) = entry.unwrap();
                        &&& offset_fits(sp + 4, kp as int)
                        &&& offset_fits(sp + 12, vp as int)
                        &&& kl <= COUNT_MAX
                        &&& vl <= COUNT_MAX
                    }))
                },
            },
    {
        let ghost wa = self.written();
        let ghost sp = wa.len();
        proof {
            lemma_pad_aligns(sp, 4);
            lemma_pad_aligns((sp + 4) as nat, 4);
            lemma_pad_aligns((sp + 12) as nat, 4);
            assert(pad_len(sp, 4) == 0);
            assert(((sp + 4) as int) % 4 == 0);
            assert(pad_len((sp + 4) as nat, 4) == 0);
            assert(((sp + 12) as int) % 4 == 0);
            assert(pad_len((sp + 12) as nat, 4) == 0);
        }
        match self.archive_tag(entry.is_some(), 4) {
            Ok(_) => {},
            Err(e) => return Err(e),
        }
        match entry {
            Some((kp, kl, vp, vl)) => {
                match self.archive_ref_to(kp, kl) {
                    Ok(_) => {},
                    Err(e) => return Err(e),
                }
                proof {
                    lemma_le_bytes_len(((kp - (sp + 4)) as i32).bits(), 4);
                    lemma_le_bytes_len(kl as nat, 4);
                }
                match self.archive_ref_to(vp, vl) {
                    Ok(_) => {},
                    Err(e) => return Err(e),
                }
                proof {
                    assert(zeros(0) + le_bytes(((kp - (sp + 4)) as i32).bits(), 4) =~= le_bytes(
                        ((kp - (sp + 4)) as i32).bits(),
                        4,
                    ));
                    assert(zeros(0) + le_bytes(((vp - (sp + 12)) as i32).bits(), 4) =~= le_bytes(
                        ((vp - (sp + 12)) as i32).bits(),
                        4,
                    ));
                    assert(self.written() =~= wa + slot_bytes(
                        sp as int,
                        Some((kp as int, kl as nat, vp as int, vl as nat)),
                    ));
                }
                Ok(())
            },
            None => {
                let z: [u8; 16] = [0u8; 16];
                match self.write(&z) {
                    Ok(_) => {},
                    Err(e) => return Err(e),
                }
                assert(self.written() =~= wa + slot_bytes(sp as int, None));
                Ok(())
            },
        }
    }

    /// Writes a map's header at the current position, a multiple of four:
    /// the entry count, the slot count and a relative pointer to the table.
    /// Returns where the header stands.
    pub fn archive_map_header(&mut self, count: u32, slots: u32, table: usize) -> (r: Result<usize, ArchiveError>)
        requires
            old(self).wf(),
            (old(self).written().len() as int) % 4 == 0,
        ensures
            final(self).wf(),
            final(self).capacity() == old(self).capacity(),
            extends(old(self).written(), final(self).written()),
            r is Ok ==> {
                let hp = old(self).written().len() as int;
                &&& r.unwrap() == hp
                &&& offset_fits(hp + 8, table as int)
                &&& final(self).written() == old(self).written() + le_bytes(count as nat, 4) + le_bytes(
                    slots as nat,
                    4,
                ) + le_bytes(((table - (hp + 8)) as i32).bits(), 4)
            },
            match r {
                Ok(_) => true,
                Err(e) => {
                    let hp = old(self).written().len() as int;
                    &&& e == ArchiveError::Overflow || e == ArchiveError::OffsetOverflow
                    &&& !(hp + 12 <= old(self).capacity() && offset_fits(hp + 8, table as int))
                },
            },
    {
        let ghost w1 = self.written();
        proof {
            lemma_pad_aligns(w1.len(), 4);
            assert(pad_len(w1.len(), 4) == 0);
        }
        let hp = match self.archive(&count) {
            Ok(p) => p,
            Err(e) => return Err(e),
        };
        proof {
            lemma_le_bytes_len(count as nat, 4);
            lemma_pad_aligns((hp + 4) as nat, 4);
            lemma_pad_aligns((hp + 8) as nat, 4);
            assert(pad_len((hp + 4) as nat, 4) == 0);
            assert(pad_len((hp + 8) as nat, 4) == 0);
            lemma_le_bytes_len(slots as nat, 4);
        }
        match self.archive(&slots) {
            Ok(_) => {},
            Err(e) => return Err(e),
        }
        match self.archive_rel_ptr(table) {
            Ok(_) => {},
            Err(e) => return Err(e),
        }
        proof {
            assert(zeros(0) + le_bytes(slots as nat, 4) =~= le_bytes(slots as nat, 4));
            assert(zeros(0) + le_bytes(((table - (hp + 8)) as i32).bits(), 4) =~= le_bytes(((table - (hp + 8)) as i32).bits(), 4));
            assert(self.written() =~= w1 + le_bytes(count as nat, 4) + le_bytes(slots as nat, 4)
                + le_bytes(((table - (hp + 8)) as i32).bits(), 4));
        }
        Ok(hp)
    }

    /// Archives each byte string of `items` in turn and returns where each
    /// one starts.
    pub fn archive_payloads(&mut self, items: &Vec<Vec<u8>>) -> (r: Result<Vec<usize>, ArchiveError>)
        requires
            old(self).wf(),
        ensures
            final(self).wf(),
            final(self).capacity() == old(self).capacity(),
            extends(old(self).written(), final(self).written()),
            r is Ok ==> {
                let ps = r.unwrap()@;
                let w = final(self).written();
                &&& ps.len() == items@.len()
                &&& w.len() >= old(self).written().len()
                &&& w.take(old(self).written().len() as int) == old(self).written()
                &&& w.len() == old(self).written().len() + runs_len(items@.map_values(|v: Vec<u8>| v@))
                &&& forall|i: int| 0 <= i < ps.len() ==> holds_at(w, #[trigger] ps[i] as int, items@[i]@)
                &&& forall|i: int| 0 <= i < ps.len() ==> #[trigger] ps[i] >= old(self).written().len()
            },
            match r {
                Ok(_) => true,
                Err(e) => {
                    &&& e == ArchiveError::Overflow
                    &&& old(self).written().len() + runs_len(items@.map_values(|v: Vec<u8>| v@))
                        > old(self).capacity()
                },
            },
    {
        let ghost w0 = self.written();
        let ghost its = items@.map_values(|v: Vec<u8>| v@);
        assert(its.take(0) =~= Seq::<Seq<u8>>::empty());
        let mut ps: Vec<usize> = Vec::new();
        let mut i: usize = 0;
        while i < items.len()
            invariant
                self.wf(),
                self.capacity() == old(self).capacity(),
                w0 == old(self).written(),
                self.written().len() >= w0.len(),
                self.written().take(w0.len() as int) == w0,
                i <= items@.len(),
                ps@.len() == i,
                its == items@.map_values(|v: Vec<u8>| v@),
                self.written().len() == w0.len() + runs_len(its.take(i as int)),
                forall|ii: int| 0 <= ii < i ==> holds_at(self.written(), #[trigger] ps@[ii] as int, items@[ii]@),
                forall|ii: int| 0 <= ii < i ==> #[trigger] ps@[ii] >= w0.len(),
            decreases items@.len() - i,
        {
            let ghost wa = self.written();
            proof {
                lemma_runs_len_take(its, i as int);
                lemma_runs_len_mono(its, i as int + 1);
                assert(its[i as int] == items@[i as int]@);
                assert(pad_len(wa.len(), 1) == 0);
            }
            let p = match self.archive_array::<u8>(items[i].as_slice()) {
                Ok(p) => p,
                Err(e) => return Err(e),
            };
            proof {
                let wb = self.written();
                lemma_seq_bytes_u8(items@[i as int]@);
                assert(wb.subrange(p as int, p + items@[i as int]@.len()) =~= items@[i as int]@);
                assert(wb.take(wa.len() as int) =~= wa);
                assert(wb.take(w0.len() as int) =~= w0);
                assert forall|ii: int| 0 <= ii < i implies holds_at(wb, #[trigger] ps@[ii] as int, items@[ii]@) by {
                    lemma_holds_at_extend(wa, wb, ps@[ii] as int, items@[ii]@);
                }
            }
            ps.push(p);
            i = i + 1;
        }
        assert(its.take(items@.len() as int) =~= its);
        Ok(ps)
    }

    /// Archives the mapping whose distinct keys are `keys` and whose values
    /// are `values` (entry `i` maps `keys[i]` to `values[i]`): the keys and
    /// values, then a table of `2 * len + 1` slots filled by linear probing,
    /// then the header. Returns where the header stands. Read in place, the
    /// archived map holds exactly these entries and keeps the probing rule.
    #[verifier::rlimit(40)]
    pub fn archive_map(&mut self, keys: &Vec<Vec<u8>>, values: &Vec<Vec<u8>>) -> (r: Result<
        usize,
        ArchiveError,
    >)
        requires
            old(self).wf(),
            keys@.len() == values@.len(),
            forall|i: int, j: int|
                0 <= i < j < keys@.len() ==> (#[trigger] keys@[i])@ != (#[trigger] keys@[j])@,
        ensures
            final(self).wf(),
            final(self).capacity() == old(self).capacity(),
            extends(old(self).written(), final(self).written()),
            match r {
                Ok(hp) => {
                    let w = final(self).written();
                    &&& w.len() >= hp + 12
                    &&& hp >= old(self).written().len()
                    &&& w.take(old(self).written().len() as int) == old(self).written()
                    &&& forall|b: Seq<u8>| #[trigger] starts_with(b, w) ==> map_archived(
                        b,
                        hp as int,
                        keys@.map_values(|v: Vec<u8>| v@),
                        values@.map_values(|v: Vec<u8>| v@),
                    )
                },
                Err(e) => {
                    &&& e == ArchiveError::Overflow || e == ArchiveError::OffsetOverflow
                    &&& keys@.len() > MAP_MAX_LEN ==> e == ArchiveError::Overflow
                    &&& !map_fits(
                        old(self).written().len(),
                        keys@.map_values(|v: Vec<u8>| v@),
                        values@.map_values(|v: Vec<u8>| v@),
                        old(self).capacity(),
                    )
                },
            },
    {
        let ghost w0 = self.written();
        let ghost ks = keys@.map_values(|k: Vec<u8>| k@);
        let ghost vs = values@.map_values(|v: Vec<u8>| v@);
        let ghost cap0 = self.capacity();
        assert(ks =~= keys@.map_values(|v: Vec<u8>| v@));
        let n = keys.len();
        if n > MAP_MAX_LEN {
            return Err(ArchiveError::Overflow);
        }
        let cap = 2 * n + 1;
        let kpos = match self.archive_payloads(keys) {
            Ok(ps) => ps,
            Err(e) => return Err(e),
        };
        let ghost wk = self.written();
        let vpos = match self.archive_payloads(values) {
            Ok(ps) => ps,
            Err(e) => return Err(e),
        };
        let (slots, at) = match place_keys(keys, cap) {
            Some(x) => x,
            None => return Err(ArchiveError::MapBuild),
        };
        let ghost wt = self.written();
        proof {
            assert(wt.len() == w0.len() + runs_len(ks) + runs_len(vs));
        }
        let table = match self.align(4) {
            Ok(t) => t,
            Err(e) => return Err(e),
        };
        assert(table == map_table_pos(w0.len(), ks, vs));
        proof {
            let w = self.written();
            assert(w.take(w0.len() as int) =~= w0);
            assert(w.take(wt.len() as int) =~= wt);
            assert(w.take(wk.len() as int) =~= wt.take(wk.len() as int));
            assert(w.take(wk.len() as int) =~= wk);
            assert forall|ii: int| 0 <= ii < n implies holds_at(w, #[trigger] kpos@[ii] as int, ks[ii])
                && holds_at(w, vpos@[ii] as int, vs[ii]) by {
                lemma_holds_at_extend(wk, w, kpos@[ii] as int, keys@[ii]@);
                lemma_holds_at_extend(wt, w, vpos@[ii] as int, values@[ii]@);
            }
        }
        let mut j: usize = 0;
        while j < cap
            invariant
                self.wf(),
                n <= MAP_MAX_LEN,
                n == keys@.len(),
                n == values@.len(),
                cap == 2 * n + 1,
                ks == keys@.map_values(|k: Vec<u8>| k@),
                vs == values@.map_values(|v: Vec<u8>| v@),
                kpos@.len() == n,
                vpos@.len() == n,
                slots@.len() == cap,
                self.capacity() == old(self).capacity(),
                w0 == old(self).written(),
                self.written().len() >= w0.len(),
                self.written().take(w0.len() as int) == w0,
                (table as int) % 4 == 0,
                table >= w0.len(),
                table == map_table_pos(w0.len(), ks, vs),
                cap0 == old(self).capacity(),
                forall|ii: int| 0 <= ii < n ==> #[trigger] kpos@[ii] >= w0.len() && vpos@[ii] >= w0.len(),
                j <= cap,
                self.written().len() == table + SLOT_SIZE * j,
                forall|ii: int| 0 <= ii < n ==> holds_at(self.written(), #[trigger] kpos@[ii] as int, ks[ii])
                    && holds_at(self.written(), vpos@[ii] as int, vs[ii]),
                forall|jj: int| 0 <= jj < cap && (#[trigger] slots@[jj]) is Some ==> (slots@[jj].unwrap() as int) < n,
                forall|jj: int| 0 <= jj < j ==> slot_written(self.written(), table as int, jj, #[trigger] slots@[jj], kpos@, vpos@, ks, vs),
            decreases cap - j,
        {
            let ghost wa = self.written();
            let ghost sp = wa.len() as int;
            proof {
                assert(sp % 4 == 0) by (nonlinear_arith)
                    requires
                        sp == table + 20 * j,
                        (table as int) % 4 == 0,
                ;
            }
            let entry = match slots[j] {
                Some(e) => {
                    proof {
                        assert(slots@[j as int] is Some);
                    }
                    Some((kpos[e], keys[e].len(), vpos[e], values[e].len()))
                },
                None => None,
            };
            match self.archive_slot(entry) {
                Ok(_) => {},
                Err(e) => {
                    proof {
                        if map_fits(w0.len(), ks, vs, cap0) {
                            assert(sp + SLOT_SIZE <= table + SLOT_SIZE * cap) by (nonlinear_arith)
                                requires
                                    sp == table + 20 * j,
                                    j < cap,
                            ;
                            if slots@[j as int] is Some {
                                let e = slots@[j as int].unwrap() as int;
                                lemma_runs_len_item(ks, e);
                                lemma_runs_len_item(vs, e);
                                assert(kpos@[e] + ks[e].len() <= sp);
                                assert(vpos@[e] + vs[e].len() <= sp);
                                assert(ks[e] == keys@[e]@);
                                assert(vs[e] == values@[e]@);
                            }
                        }
                    }
                    return Err(e);
                },
            }
            proof {
                let wb = self.written();
                assert(wb.take(wa.len() as int) =~= wa);
                assert(wb.take(w0.len() as int) =~= w0);
                lemma_slot_step(wa, wb, table as int, j as int, slots@[j as int], kpos@, vpos@, ks, vs);
                assert forall|ii: int| 0 <= ii < n implies holds_at(wb, #[trigger] kpos@[ii] as int, ks[ii])
                    && holds_at(wb, vpos@[ii] as int, vs[ii]) by {
                    lemma_holds_at_extend(wa, wb, kpos@[ii] as int, ks[ii]);
                    lemma_holds_at_extend(wa, wb, vpos@[ii] as int, vs[ii]);
                }
                assert forall|jj: int| 0 <= jj < j + 1 implies slot_written(wb, table as int, jj, #[trigger] slots@[jj], kpos@, vpos@, ks, vs) by {
                    if jj < j {
                        lemma_slot_written_extend(wa, wb, table as int, jj, slots@[jj], kpos@, vpos@, ks, vs);
                    }
                }
            }
            j = j + 1;
        }
        let count: u32 = n as u32;
        let slots_count: u32 = cap as u32;
        let ghost w1 = self.written();
        proof {
            assert(((table + SLOT_SIZE * cap) as int) % 4 == 0) by (nonlinear_arith)
                requires
                    (table as int) % 4 == 0,
            ;
        }
        let hp = match self.archive_map_header(count, slots_count, table) {
            Ok(p) => p,
            Err(e) => {
                assert(w1.len() == table + SLOT_SIZE * cap);
                return Err(e);
            },
        };
        proof {
            let w = self.written();
            assert(w.take(w1.len() as int) =~= w1);
            assert(w.take(w0.len() as int) =~= w0);
            let hb = le_bytes(n as nat, 4) + le_bytes(cap as nat, 4) + le_bytes(((table - (hp + 8)) as i32).bits(), 4);
            lemma_le_bytes_len(n as nat, 4);
            lemma_le_bytes_len(cap as nat, 4);
            lemma_le_bytes_len(((table - (hp + 8)) as i32).bits(), 4);
            assert(w.subrange(hp as int, hp + 12) =~= hb);
            assert forall|a: int, b: int| 0 <= a < b < n implies #[trigger] ks[a] != #[trigger] ks[b] by {
                assert(keys@[a]@ != keys@[b]@);
            }
            assert(ks =~= keys@.map_values(|v: Vec<u8>| v@));
            assert(vs =~= values@.map_values(|v: Vec<u8>| v@));
            assert forall|bb: Seq<u8>| #[trigger] starts_with(bb, w) implies map_archived(bb, hp as int, ks, vs) by {
                assert(bb.take(w1.len() as int) =~= w1);
                lemma_holds_at_extend(w, bb, hp as int, hb);
                lemma_map_decodes(bb, w1, hp as int, table as int, cap as nat, n as nat, slots@, at@, kpos@, vpos@, ks, vs);
            }
        }
        Ok(hp)
    }
}

/// Where the table of a map with keys `ks` and values `vs`, archived at
/// `pos`, starts: after the keys and values, at a multiple of four.
pub open spec fn map_table_pos(pos: nat, ks: Seq<Seq<u8>>, vs: Seq<Seq<u8>>) -> nat {
    let p = pos + runs_len(ks) + runs_len(vs);
    p + pad_len(p, 4)
}

/// Position just past a map with keys `ks` and values `vs` archived at
/// `pos`: its table of `2 * len + 1` slots and its header end there.
pub open spec fn map_end(pos: nat, ks: Seq<Seq<u8>>, vs: Seq<Seq<u8>>) -> nat {
    (map_table_pos(pos, ks, vs) + SLOT_SIZE * (2 * ks.len() + 1) + 12) as nat
}

/// A map with keys `ks` and values `vs` archived at `pos` fits: it ends
/// within `capacity`, and it spans no more than a relative pointer reaches.
pub open spec fn map_fits(pos: nat, ks: Seq<Seq<u8>>, vs: Seq<Seq<u8>>, capacity: nat) -> bool {
    &&& ks.len() <= MAP_MAX_LEN
    &&& map_end(pos, ks, vs) <= capacity
    &&& map_end(pos, ks, vs) - pos <= OFFSET_MAX as int
}

/// Total length of the byte strings of `s`.
pub open spec fn runs_len(s: Seq<Seq<u8>>) -> nat
    decreases s.len(),
{
    if s.len() == 0 {
        0
    } else {
        runs_len(s.drop_last()) + s.last().len()
    }
}

pub proof fn lemma_runs_len_take(s: Seq<Seq<u8>>, i: int)
    requires
        0 <= i < s.len(),
    ensures
        runs_len(s.take(i + 1)) == runs_len(s.take(i)) + s[i].len(),
{
    assert(s.take(i + 1).drop_last() =~= s.take(i));
}

pub proof fn lemma_runs_len_mono(s: Seq<Seq<u8>>, i: int)
    requires
        0 <= i <= s.len(),
    ensures
        runs_len(s.take(i)) <= runs_len(s),
    decreases s.len() - i,
{
    if i == s.len() {
        assert(s.take(i) =~= s);
    } else {
        lemma_runs_len_take(s, i);
        lemma_runs_len_mono(s, i + 1);
    }
}

pub proof fn lemma_runs_len_item(s: Seq<Seq<u8>>, i: int)
    requires
        0 <= i < s.len(),
    ensures
        s[i].len() <= runs_len(s),
{
    lemma_runs_len_take(s, i);
    lemma_runs_len_mono(s, i + 1);
}

/// Writing slot `j` right after the slots before it records it.
pub proof fn lemma_slot_step(
    wa: Seq<u8>,
    wb: Seq<u8>,
    table: int,
    j: int,
    slot: Option<usize>,
    kpos: Seq<usize>,
    vpos: Seq<usize>,
    ks: Seq<Seq<u8>>,
    vs: Seq<Seq<u8>>,
)
    requires
        0 <= table,
        0 <= j,
        wa.len() == table + SLOT_SIZE * j,
        wb == wa + slot_bytes(wa.len() as int, slot_model(slot, kpos, vpos, ks, vs)),
        slot is Some ==> {
            let e = slot.unwrap() as int;
            &&& offset_fits(wa.len() as int + 4, kpos[e] as int)
            &&& offset_fits(wa.len() as int + 12, vpos[e] as int)
            &&& ks[e].len() <= COUNT_MAX
            &&& vs[e].len() <= COUNT_MAX
        },
    ensures
        slot_written(wb, table, j, slot, kpos, vpos, ks, vs),
        wb.len() == table + SLOT_SIZE * (j + 1),
{
    let sb = slot_bytes(wa.len() as int, slot_model(slot, kpos, vpos, ks, vs));
    match slot {
        Some(e) => {
            lemma_le_bytes_len(((kpos[e as int] - (wa.len() + 4)) as i32).bits(), 4);
            lemma_le_bytes_len(((vpos[e as int] - (wa.len() + 12)) as i32).bits(), 4);
            lemma_le_bytes_len(ks[e as int].len(), 4);
            lemma_le_bytes_len(vs[e as int].len(), 4);
        },
        None => {},
    }
    assert(sb.len() == 20);
    assert(wb.subrange(wa.len() as int, wa.len() as int + 20) =~= sb);
}

/// A recorded slot stays recorded as the region is extended.
pub proof fn lemma_slot_written_extend(
    wa: Seq<u8>,
    wb: Seq<u8>,
    table: int,
    j: int,
    slot: Option<usize>,
    kpos: Seq<usize>,
    vpos: Seq<usize>,
    ks: Seq<Seq<u8>>,
    vs: Seq<Seq<u8>>,
)
    requires
        slot_written(wa, table, j, slot, kpos, vpos, ks, vs),
        wa.len() <= wb.len(),
        wb.take(wa.len() as int) == wa,
    ensures
        slot_written(wb, table, j, slot, kpos, vpos, ks, vs),
{
    lemma_holds_at_extend(
        wa,
        wb,
        table + SLOT_SIZE * j,
        slot_bytes(table + SLOT_SIZE * j, slot_model(slot, kpos, vpos, ks, vs)),
    );
}

/// A map whose payloads, slots and header stand in `w` reads back as the
/// mapping it was built from.
pub proof fn lemma_map_decodes(
    w: Seq<u8>,
    w1: Seq<u8>,
    hp: int,
    table: int,
    cap: nat,
    n: nat,
    slots: Seq<Option<usize>>,
    at: Seq<usize>,
    kpos: Seq<usize>,
    vpos: Seq<usize>,
    ks: Seq<Seq<u8>>,
    vs: Seq<Seq<u8>>,
)
    requires
        table_ok(ks, slots, at),
        slots.len() == cap,
        cap == 2 * n + 1,
        n <= MAP_MAX_LEN,
        ks.len() == n,
        vs.len() == n,
        kpos.len() == n,
        vpos.len() == n,
        0 <= table,
        w1.len() == table + SLOT_SIZE * cap,
        hp == w1.len(),
        w1.len() <= w.len(),
        w.take(w1.len() as int) == w1,
        holds_at(
            w,
            hp,
            le_bytes(n, 4) + le_bytes(cap, 4) + le_bytes(((table - (hp + 8)) as i32).bits(), 4),
        ),
        offset_fits(hp + 8, table),
        forall|ii: int| 0 <= ii < n ==> holds_at(w1, #[trigger] kpos[ii] as int, ks[ii])
            && holds_at(w1, vpos[ii] as int, vs[ii]),
        forall|jj: int| 0 <= jj < cap ==> slot_written(w1, table, jj, #[trigger] slots[jj], kpos, vpos, ks, vs),
        forall|i: int, j: int| 0 <= i < j < n ==> #[trigger] ks[i] != #[trigger] ks[j],
    ensures
        map_count(w, hp) == n,
        map_cap(w, hp) == cap,
        map_probe_ok(w, hp),
        map_keys_unique(w, hp),
        forall|i: int| 0 <= i < n ==> map_holds(w, hp, #[trigger] ks[i], vs[i]),
        forall|j: int|
            0 <= j < cap && (#[trigger] map_slot_entry(w, hp, j)) is Some ==> exists|i: int|
                0 <= i < n && map_slot_entry(w, hp, j) == Some((ks[i], vs[i])),
{
    let count = n as u32;
    let slots_count = cap as u32;
    let off = (table - (hp + 8)) as i32;
    lemma_le_bytes_len(n, 4);
    lemma_le_bytes_len(cap, 4);
    lemma_le_bytes_len(off.bits(), 4);
    let hb = w.subrange(hp, hp + 12);
    assert(w.subrange(hp, hp + 4) =~= hb.subrange(0, 4));
    assert(w.subrange(hp + 4, hp + 8) =~= hb.subrange(4, 8));
    assert(w.subrange(hp + 8, hp + 12) =~= hb.subrange(8, 12));
    assert(w.subrange(hp, hp + 4) =~= le_bytes(count.bits(), 4));
    assert(w.subrange(hp + 4, hp + 8) =~= le_bytes(slots_count.bits(), 4));
    assert(w.subrange(hp + 8, hp + 12) =~= le_bytes(off.bits(), 4));
    lemma_plain_round_trip(w, hp, count);
    lemma_plain_round_trip(w, hp + 4, slots_count);
    lemma_plain_round_trip(w, hp + 8, off);
    assert(map_table(w, hp) == table);
    assert(map_cap(w, hp) == cap);
    assert forall|jj: int| 0 <= jj < cap implies #[trigger] map_slot_entry(w, hp, jj) == match slots[jj] {
        Some(e) => Some((ks[e as int], vs[e as int])),
        None => None,
    } by {
        lemma_slot_written_extend(w1, w, table, jj, slots[jj], kpos, vpos, ks, vs);
        match slots[jj] {
            Some(e) => {
                assert(slots[jj] is Some);
                lemma_holds_at_extend(w1, w, kpos[e as int] as int, ks[e as int]);
                lemma_holds_at_extend(w1, w, vpos[e as int] as int, vs[e as int]);
                lemma_slot_decodes(w, table, jj, kpos[e as int] as int, ks[e as int], vpos[e as int] as int, vs[e as int]);
            },
            None => {
                lemma_slot_empty(w, table, jj);
            },
        }
    }
    assert forall|jj: int, d: nat|
        0 <= jj < cap && (#[trigger] map_slot_entry(w, hp, jj)) is Some && d < probe_dist(
            fnv(map_slot_entry(w, hp, jj).unwrap().0),
            cap,
            jj as nat,
        ) implies (#[trigger] map_slot_entry(
            w,
            hp,
            probe_slot(fnv(map_slot_entry(w, hp, jj).unwrap().0), cap, d) as int,
        )) is Some by {
        assert(slots[jj] is Some);
        let e = slots[jj].unwrap() as int;
        lemma_probe_dist(fnv(ks[e]), cap, d);
        assert(slots[probe_slot(fnv(ks[e]), cap, d) as int] is Some);
    }
    assert forall|j1: int, j2: int|
        0 <= j1 < map_cap(w, hp) && 0 <= j2 < map_cap(w, hp) && (#[trigger] map_slot_entry(w, hp, j1)) is Some
            && (#[trigger] map_slot_entry(w, hp, j2)) is Some && map_slot_entry(w, hp, j1).unwrap().0
            == map_slot_entry(w, hp, j2).unwrap().0 implies j1 == j2 by {
        assert(slots[j1] is Some);
        assert(slots[j2] is Some);
        let e1 = slots[j1].unwrap() as int;
        let e2 = slots[j2].unwrap() as int;
        if e1 < e2 {
            assert(ks[e1] != ks[e2]);
        } else if e2 < e1 {
            assert(ks[e2] != ks[e1]);
        }
    }
    assert forall|i: int| 0 <= i < n implies map_holds(w, hp, #[trigger] ks[i], vs[i]) by {
        let js = at[i] as int;
        assert(slots[js] == Some(i as usize));
        assert(map_slot_entry(w, hp, js) == Some((ks[i], vs[i])));
    }
    assert forall|j: int|
        0 <= j < cap && (#[trigger] map_slot_entry(w, hp, j)) is Some implies exists|i: int|
            0 <= i < n && map_slot_entry(w, hp, j) == Some((ks[i], vs[i])) by {
        assert(slots[j] is Some);
        let e = slots[j].unwrap() as int;
        assert(map_slot_entry(w, hp, j) == Some((ks[e], vs[e])));
    }
}

/// The slot model of a table entry: where its key and value stand and how
/// long they are.
pub open spec fn slot_model(
    slot: Option<usize>,
    kpos: Seq<usize>,
    vpos: Seq<usize>,
    ks: Seq<Seq<u8>>,
    vs: Seq<Seq<u8>>,
) -> Option<(int, nat, int, nat)> {
    match slot {
        Some(e) => Some((kpos[e as int] as int, ks[e as int].len(), vpos[e as int] as int, vs[e as int].len())),
        None => None,
    }
}

/// Slot `j` of the table at `table` has been written for `slot`, with
/// references that fit their fields.
pub open spec fn slot_written(
    w: Seq<u8>,
    table: int,
    j: int,
    slot: Option<usize>,
    kpos: Seq<usize>,
    vpos: Seq<usize>,
    ks: Seq<Seq<u8>>,
    vs: Seq<Seq<u8>>,
) -> bool {
    &&& holds_at(w, table + SLOT_SIZE * j, slot_bytes(table + SLOT_SIZE * j, slot_model(slot, kpos, vpos, ks, vs)))
    &&& slot is Some ==> {
        let e = slot.unwrap() as int;
        &&& offset_fits(table + SLOT_SIZE * j + 4, kpos[e] as int)
        &&& offset_fits(table + SLOT_SIZE * j + 12, vpos[e] as int)
        &&& ks[e].len() <= COUNT_MAX
        &&& vs[e].len() <= COUNT_MAX
    }
}

/// The bytes of a run of `u8` are the run itself.
pub proof fn lemma_seq_bytes_u8(s: Seq<u8>)
    ensures
        seq_bytes(s) == s,
    decreases s.len(),
{
    if s.len() > 0 {
        lemma_seq_bytes_u8(s.drop_last());
        reveal_with_fuel(le_bytes, 2);
        assert(((s.last() as nat) % 256) as u8 == s.last());
        assert(le_bytes(s.last() as nat, 1) =~= seq![s.last()]);
        assert(seq_bytes(s) =~= s);
    }
}

/// `s` stands in `w` from position `at` on.
pub open spec fn holds_at(w: Seq<u8>, at: int, s: Seq<u8>) -> bool {
    0 <= at && at + s.len() <= w.len() && w.subrange(at, at + s.len()) == s
}

/// What stands in a region stays there as the region is extended.
pub proof fn lemma_holds_at_extend(w: Seq<u8>, w2: Seq<u8>, at: int, s: Seq<u8>)
    requires
        holds_at(w, at, s),
        w.len() <= w2.len(),
        w2.take(w.len() as int) == w,
    ensures
        holds_at(w2, at, s),
{
    assert(w2.subrange(at, at + s.len()) =~= w.subrange(at, at + s.len()));
}

/// The bytes of a slice reference at `q` to `len` items at `target`.
pub open spec fn ref_bytes(q: int, target: int, len: nat) -> Seq<u8> {
    le_bytes(((target - q) as i32).bits(), 4) + le_bytes(len, 4)
}

/// The bytes of the slot at `sp`: for a taken slot, references to a key of
/// `kl` bytes at `kp` and a value of `vl` bytes at `vp`.
pub open spec fn slot_bytes(sp: int, e: Option<(int, nat, int, nat)>) -> Seq<u8> {
    match e {
        Some((kp, kl, vp, vl)) => seq![1u8] + zeros(3) + ref_bytes(sp + 4, kp, kl) + ref_bytes(
            sp + 12,
            vp,
            vl,
        ),
        None => seq![0u8] + zeros(19),
    }
}

pub proof fn lemma_u8_at(w: Seq<u8>, x: int)
    requires
        0 <= x < w.len(),
    ensures
        plain_at::<u8>(w, x) == w[x],
{
    let s = w.subrange(x, x + 1);
    assert(s.drop_first() =~= Seq::<u8>::empty());
    assert(le_value(s) == s[0] as nat + 256 * le_value(s.drop_first()));
}

/// A slice reference whose bytes and items stand in `w` reads back as the
/// items.
pub proof fn lemma_ref_decodes(w: Seq<u8>, q: int, target: int, s: Seq<u8>)
    requires
        holds_at(w, q, ref_bytes(q, target, s.len())),
        holds_at(w, target, s),
        offset_fits(q, target),
        s.len() <= COUNT_MAX,
    ensures
        slice_at::<u8>(w, q) == Some(s),
{
    let off = (target - q) as i32;
    lemma_le_bytes_len(off.bits(), 4);
    lemma_le_bytes_len(s.len(), 4);
    assert(w.subrange(q, q + 4) =~= w.subrange(q, q + 8).subrange(0, 4));
    assert(w.subrange(q, q + 4) =~= le_bytes(off.bits(), 4));
    lemma_plain_round_trip(w, q, off);
    let count = s.len() as u32;
    assert(w.subrange(q + 4, q + 8) =~= w.subrange(q, q + 8).subrange(4, 8));
    assert(w.subrange(q + 4, q + 8) =~= le_bytes(count.bits(), 4));
    lemma_plain_round_trip(w, q + 4, count);
    assert forall|i: int| 0 <= i < s.len() implies plain_at::<u8>(w, target + i * 1) == s[i] by {
        lemma_u8_at(w, target + i);
        assert(w.subrange(target, target + s.len())[i] == w[target + i]);
    }
    let got = Seq::new(s.len(), |i: int| plain_at::<u8>(w, target + i * 1));
    assert(got =~= s);
}

/// A taken slot whose bytes, key and value stand in `w` reads back as that
/// key and value.
pub proof fn lemma_slot_decodes(
    w: Seq<u8>,
    table: int,
    j: int,
    kp: int,
    key: Seq<u8>,
    vp: int,
    val: Seq<u8>,
)
    requires
        holds_at(
            w,
            table + SLOT_SIZE * j,
            slot_bytes(table + SLOT_SIZE * j, Some((kp, key.len(), vp, val.len()))),
        ),
        holds_at(w, kp, key),
        holds_at(w, vp, val),
        offset_fits(table + SLOT_SIZE * j + 4, kp),
        offset_fits(table + SLOT_SIZE * j + 12, vp),
        key.len() <= COUNT_MAX,
        val.len() <= COUNT_MAX,
    ensures
        slot_entry(w, table, j) == Some((key, val)),
{
    let sp = table + SLOT_SIZE * j;
    let sb = slot_bytes(sp, Some((kp, key.len(), vp, val.len())));
    lemma_le_bytes_len(((kp - (sp + 4)) as i32).bits(), 4);
    lemma_le_bytes_len(((vp - (sp + 12)) as i32).bits(), 4);
    lemma_le_bytes_len(key.len(), 4);
    lemma_le_bytes_len(val.len(), 4);
    assert(w[sp] == w.subrange(sp, sp + 20)[0]);
    assert(w.subrange(sp + 4, sp + 12) =~= w.subrange(sp, sp + 20).subrange(4, 12));
    assert(w.subrange(sp + 4, sp + 12) =~= ref_bytes(sp + 4, kp, key.len()));
    assert(w.subrange(sp + 12, sp + 20) =~= w.subrange(sp, sp + 20).subrange(12, 20));
    assert(w.subrange(sp + 12, sp + 20) =~= ref_bytes(sp + 12, vp, val.len()));
    lemma_ref_decodes(w, sp + 4, kp, key);
    lemma_ref_decodes(w, sp + 12, vp, val);
}

/// An empty slot whose bytes stand in `w` reads back as empty.
pub proof fn lemma_slot_empty(w: Seq<u8>, table: int, j: int)
    requires
        holds_at(w, table + SLOT_SIZE * j, slot_bytes(table + SLOT_SIZE * j, None)),
    ensures
        slot_entry(w, table, j) is None,
{
    let sp = table + SLOT_SIZE * j;
    assert(w[sp] == w.subrange(sp, sp + 20)[0]);
}

} // verus!
