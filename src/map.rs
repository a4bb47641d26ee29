//! The archived hash map, read in place.
//!
//! Wire form. The keys and values come first, each as a run of bytes. Then
//! the table: `capacity` slots of `SLOT_SIZE` bytes at alignment four; a slot
//! is a tag byte (zero: empty), three bytes of padding, a slice reference to
//! its key and one to its value. Last comes the header: the entry count and
//! the capacity as `u32`, then a relative pointer to the table. Lookups
//! replay the probe sequence of the build (see `table`).
use vstd::prelude::*;
use crate::hash::{fnv, hash_bytes};
use crate::read::{plain_at, read_plain};
use crate::containers::{rel_at, slice_at, read_rel, read_slice};
use crate::table::{home_exec, probe_dist, probe_slot, lemma_probe_dist, lemma_probe_slot_of_dist};

verus! {

/// Bytes of one slot of the table.
pub const SLOT_SIZE: usize = 20;

/// Largest number of entries a map can hold: its table has twice as many
/// slots and one more, and the slot count is stored as a `u32`.
pub const MAP_MAX_LEN: usize = 0x7fff_ffff;

/// Number of entries of the archived map whose header is at `hp`.
pub open spec fn map_count(bytes: Seq<u8>, hp: int) -> nat {
    plain_at::<u32>(bytes, hp) as nat
}

/// Number of slots of the archived map whose header is at `hp`.
pub open spec fn map_cap(bytes: Seq<u8>, hp: int) -> nat {
    plain_at::<u32>(bytes, hp + 4) as nat
}

/// Where the table of the archived map whose header is at `hp` starts.
pub open spec fn map_table(bytes: Seq<u8>, hp: int) -> int {
    rel_at(bytes, hp + 8)
}

/// The header at `hp` and the whole table it points to lie inside `bytes`,
/// and the table has at least one slot.
pub open spec fn map_shape_ok(bytes: Seq<u8>, hp: int) -> bool {
    &&& 0 <= hp
    &&& hp + 12 <= bytes.len()
    &&& map_cap(bytes, hp) > 0
    &&& 0 <= map_table(bytes, hp)
    &&& map_table(bytes, hp) + SLOT_SIZE * map_cap(bytes, hp) <= bytes.len()
}

/// The key and value held by slot `j` of the table at `table`; `None` for an
/// empty slot (or one whose references fall outside `bytes`).
pub open spec fn slot_entry(bytes: Seq<u8>, table: int, j: int) -> Option<(Seq<u8>, Seq<u8>)> {
    let sp = table + SLOT_SIZE * j;
    if bytes[sp] == 0 {
        None
    } else {
        match (slice_at::<u8>(bytes, sp + 4), slice_at::<u8>(bytes, sp + 12)) {
            (Some(k), Some(v)) => Some((k, v)),
            _ => None,
        }
    }
}

/// The entry in slot `j` of the archived map at `hp`.
pub open spec fn map_slot_entry(bytes: Seq<u8>, hp: int, j: int) -> Option<(Seq<u8>, Seq<u8>)> {
    slot_entry(bytes, map_table(bytes, hp), j)
}

/// The archived map at `hp` keeps the probing rule: every slot between a
/// key's home slot and its own is taken.
pub open spec fn map_probe_ok(bytes: Seq<u8>, hp: int) -> bool {
    let cap = map_cap(bytes, hp);
    &&& map_shape_ok(bytes, hp)
    &&& forall|j: int, d: nat|
        0 <= j < cap && (#[trigger] map_slot_entry(bytes, hp, j)) is Some && d < probe_dist(
            fnv(map_slot_entry(bytes, hp, j).unwrap().0),
            cap,
            j as nat,
        ) ==> (#[trigger] map_slot_entry(
            bytes,
            hp,
            probe_slot(fnv(map_slot_entry(bytes, hp, j).unwrap().0), cap, d) as int,
        )) is Some
}

/// The archived map at `hp` holds `key` with value `v`.
pub open spec fn map_holds(bytes: Seq<u8>, hp: int, key: Seq<u8>, v: Seq<u8>) -> bool {
    exists|j: int| 0 <= j < map_cap(bytes, hp) && map_slot_entry(bytes, hp, j) == Some((key, v))
}

/// No two taken slots of the archived map at `hp` hold the same key.
pub open spec fn map_keys_unique(bytes: Seq<u8>, hp: int) -> bool {
    forall|j1: int, j2: int|
        0 <= j1 < map_cap(bytes, hp) && 0 <= j2 < map_cap(bytes, hp) && (#[trigger] map_slot_entry(
            bytes,
            hp,
            j1,
        )) is Some && (#[trigger] map_slot_entry(bytes, hp, j2)) is Some && map_slot_entry(
            bytes,
            hp,
            j1,
        ).unwrap().0 == map_slot_entry(bytes, hp, j2).unwrap().0 ==> j1 == j2
}

/// The map at `hp` in `bytes` is the mapping from `ks[i]` to `vs[i]`: it
/// counts them, has `2 * len + 1` slots, keeps the probing rule, holds each
/// key once, holds every entry and nothing else.
pub open spec fn map_archived(bytes: Seq<u8>, hp: int, ks: Seq<Seq<u8>>, vs: Seq<Seq<u8>>) -> bool {
    &&& map_count(bytes, hp) == ks.len()
    &&& map_cap(bytes, hp) == 2 * ks.len() + 1
    &&& map_probe_ok(bytes, hp)
    &&& map_keys_unique(bytes, hp)
    &&& forall|i: int| 0 <= i < ks.len() ==> map_holds(bytes, hp, #[trigger] ks[i], vs[i])
    &&& forall|j: int|
        0 <= j < map_cap(bytes, hp) && (#[trigger] map_slot_entry(bytes, hp, j)) is Some ==> exists|i: int|
            0 <= i < ks.len() && map_slot_entry(bytes, hp, j) == Some((ks[i], vs[i]))
}

/// In an archived map whose keys are distinct, a key has one value: the
/// value that a lookup finds for a key of the mapping is that key's value.
pub proof fn lemma_map_value_unique(bytes: Seq<u8>, hp: int, key: Seq<u8>, v: Seq<u8>, found: Seq<u8>)
    requires
        map_keys_unique(bytes, hp),
        map_holds(bytes, hp, key, v),
        map_holds(bytes, hp, key, found),
    ensures
        found == v,
{
    let j1 = choose|j: int| 0 <= j < map_cap(bytes, hp) && map_slot_entry(bytes, hp, j) == Some((key, v));
    let j2 = choose|j: int| 0 <= j < map_cap(bytes, hp) && map_slot_entry(bytes, hp, j) == Some((key, found));
    assert(map_slot_entry(bytes, hp, j1) is Some);
    assert(map_slot_entry(bytes, hp, j2) is Some);
}

/// Number of entries of the archived map whose header is at `hp`.
pub fn map_len(bytes: &[u8], hp: usize) -> (r: usize)
    requires
        hp + 12 <= bytes@.len(),
    ensures
        r == map_count(bytes@, hp as int),
{
    read_plain::<u32>(bytes, hp) as usize
}

/// Checks that the header at `hp` and its table lie inside `bytes`; returns
/// the table's position and its number of slots.
pub fn map_shape(bytes: &[u8], hp: usize) -> (r: Option<(usize, usize)>)
    requires
        hp + 12 <= bytes@.len(),
    ensures
        match r {
            Some((t, c)) => map_shape_ok(bytes@, hp as int) && t == map_table(bytes@, hp as int) && c
                == map_cap(bytes@, hp as int),
            None => !map_shape_ok(bytes@, hp as int),
        },
{
    let blen = bytes.len();
    let cap = read_plain::<u32>(bytes, hp + 4) as usize;
    let t = match read_rel(bytes, hp + 8) {
        Some(t) => t,
        None => return None,
    };
    if cap == 0 {
        return None;
    }
    assert((cap as u64) * 20 <= 0x14_0000_0000) by (nonlinear_arith)
        requires
            cap <= 0xffff_ffffusize,
    ;
    if (cap as u64) * 20 > (blen - t) as u64 {
        return None;
    }
    Some((t, cap))
}

/// The key and value in slot `j` of the table at `t`.
fn read_slot(bytes: &[u8], t: usize, j: usize) -> (r: Option<(Vec<u8>, Vec<u8>)>)
    requires
        t + SLOT_SIZE * j + SLOT_SIZE <= bytes@.len(),
    ensures
        match r {
            Some((k, v)) => slot_entry(bytes@, t as int, j as int) == Some((k@, v@)),
            None => slot_entry(bytes@, t as int, j as int) is None,
        },
{
    let blen = bytes.len();
    let sp = t + SLOT_SIZE * j;
    if bytes[sp] == 0 {
        return None;
    }
    let k = match read_slice::<u8>(bytes, sp + 4) {
        Some(k) => k,
        None => return None,
    };
    let v = match read_slice::<u8>(bytes, sp + 12) {
        Some(v) => v,
        None => return None,
    };
    Some((k, v))
}

/// The key and value in slot `j` of the archived map at `hp`, if that slot
/// is taken. Going through every slot lists the map's entries.
pub fn map_slot(bytes: &[u8], hp: usize, j: usize) -> (r: Option<(Vec<u8>, Vec<u8>)>)
    requires
        map_shape_ok(bytes@, hp as int),
        j < map_cap(bytes@, hp as int),
    ensures
        match r {
            Some((k, v)) => map_slot_entry(bytes@, hp as int, j as int) == Some((k@, v@)),
            None => map_slot_entry(bytes@, hp as int, j as int) is None,
        },
{
    let blen = bytes.len();
    let t = match read_rel(bytes, hp + 8) {
        Some(t) => t,
        None => return None,
    };
    assert(t + SLOT_SIZE * j + SLOT_SIZE <= bytes@.len()) by (nonlinear_arith)
        requires
            t + SLOT_SIZE * map_cap(bytes@, hp as int) <= bytes@.len(),
            j < map_cap(bytes@, hp as int),
    ;
    read_slot(bytes, t, j)
}

/// Whether the byte strings `a` and `b` are equal.
pub fn bytes_eq(a: &[u8], b: &[u8]) -> (r: bool)
    ensures
        r == (a@ == b@),
{
    if a.len() != b.len() {
        return false;
    }
    let mut i: usize = 0;
    while i < a.len()
        invariant
            a@.len() == b@.len(),
            i <= a@.len(),
            forall|j: int| 0 <= j < i ==> a@[j] == b@[j],
        decreases a@.len() - i,
    {
        if a[i] != b[i] {
            return false;
        }
        i = i + 1;
    }
    assert(a@ =~= b@);
    true
}

/// Looks `key` up in the archived map at `hp` by replaying the probe
/// sequence of the build, and returns its value. A value returned is always
/// the key's; where the map keeps the probing rule, a key it holds is always
/// found.
pub fn map_get(bytes: &[u8], hp: usize, key: &[u8]) -> (r: Option<Vec<u8>>)
    requires
        hp + 12 <= bytes@.len(),
    ensures
        match r {
            Some(v) => map_holds(bytes@, hp as int, key@, v@),
            None => map_probe_ok(bytes@, hp as int) ==> forall|v: Seq<u8>| !map_holds(bytes@, hp as int, key@, v),
        },
{
    let (t, cap) = match map_shape(bytes, hp) {
        Some(s) => s,
        None => return None,
    };
    let h = hash_bytes(key);
    let mut j: usize = home_exec(h, cap);
    let mut d: usize = 0;
    while d < cap
        invariant
            map_shape_ok(bytes@, hp as int),
            t == map_table(bytes@, hp as int),
            cap == map_cap(bytes@, hp as int),
            h == fnv(key@),
            d <= cap,
            d < cap ==> j == probe_slot(h, cap as nat, d as nat),
            forall|d2: nat| d2 < d ==> {
                let e = #[trigger] map_slot_entry(bytes@, hp as int, probe_slot(h, cap as nat, d2) as int);
                e is Some && e.unwrap().0 != key@
            },
        decreases cap - d,
    {
        proof {
            lemma_probe_dist(h, cap as nat, d as nat);
        }
        let slot = map_slot(bytes, hp, j);
        match slot {
            None => {
                proof {
                    assert forall|v: Seq<u8>| map_probe_ok(bytes@, hp as int) implies !map_holds(bytes@, hp as int, key@, v) by {
                        if map_holds(bytes@, hp as int, key@, v) {
                            let js = choose|js: int| 0 <= js < cap && map_slot_entry(bytes@, hp as int, js) == Some((key@, v));
                            lemma_probe_slot_of_dist(h, cap as nat, js as nat);
                            let dd = probe_dist(h, cap as nat, js as nat);
                            if dd < d {
                                assert(map_slot_entry(bytes@, hp as int, probe_slot(h, cap as nat, dd) as int) is Some);
                            } else if dd == d {
                            } else {
                                assert(map_slot_entry(bytes@, hp as int, probe_slot(fnv(map_slot_entry(bytes@, hp as int, js).unwrap().0), cap as nat, d as nat) as int) is Some);
                            }
                        }
                    }
                }
                return None;
            },
            Some((k, v)) => {
                if bytes_eq(k.as_slice(), key) {
                    return Some(v);
                }
            },
        }
        d = d + 1;
        j = if j + 1 == cap {
            0
        } else {
            j + 1
        };
    }
    proof {
        assert forall|v: Seq<u8>| map_probe_ok(bytes@, hp as int) implies !map_holds(bytes@, hp as int, key@, v) by {
            if map_holds(bytes@, hp as int, key@, v) {
                let js = choose|js: int| 0 <= js < cap && map_slot_entry(bytes@, hp as int, js) == Some((key@, v));
                lemma_probe_slot_of_dist(h, cap as nat, js as nat);
                let dd = probe_dist(h, cap as nat, js as nat);
                assert(map_slot_entry(bytes@, hp as int, probe_slot(h, cap as nat, dd) as int) is Some);
            }
        }
    }
    None
}

/// Whether the archived map at `hp` holds `key`.
pub fn map_contains_key(bytes: &[u8], hp: usize, key: &[u8]) -> (r: bool)
    requires
        hp + 12 <= bytes@.len(),
    ensures
        r ==> exists|v: Seq<u8>| map_holds(bytes@, hp as int, key@, v),
        map_probe_ok(bytes@, hp as int) ==> (r <==> exists|v: Seq<u8>| map_holds(bytes@, hp as int, key@, v)),
{
    match map_get(bytes, hp, key) {
        Some(v) => true,
        None => false,
    }
}

} // verus!
