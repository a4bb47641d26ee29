//! Placement of keys in an open-addressing table with linear probing: a key
//! with hash `h` is looked for from slot `h % capacity` onward, one slot at a
//! time, wrapping around, until its slot or an empty one.
use vstd::prelude::*;
use vstd::set_lib::{set_int_range, lemma_int_range, lemma_len_subset};
use crate::hash::{fnv, hash_bytes};

verus! {

/// Slot where probing for a key with hash `h` starts.
pub open spec fn home(h: u64, cap: nat) -> nat
    recommends
        cap > 0,
{
    (h as nat) % cap
}

/// The slot `d` steps after the home slot of hash `h`.
pub open spec fn probe_slot(h: u64, cap: nat, d: nat) -> nat {
    if home(h, cap) + d < cap {
        home(h, cap) + d
    } else {
        (home(h, cap) + d - cap) as nat
    }
}

/// Steps from the home slot of hash `h` to slot `j`.
pub open spec fn probe_dist(h: u64, cap: nat, j: nat) -> nat {
    if j >= home(h, cap) {
        (j - home(h, cap)) as nat
    } else {
        (j + cap - home(h, cap)) as nat
    }
}

/// `slots` places the keys `keys` for linear probing: each slot holds at
/// most one entry index, each entry stands in the slot `at[e]` and nowhere
/// else, and every slot between an entry's home slot and its own is taken.
pub open spec fn table_ok(keys: Seq<Seq<u8>>, slots: Seq<Option<usize>>, at: Seq<usize>) -> bool {
    let cap = slots.len();
    &&& cap > 0
    &&& at.len() == keys.len()
    &&& forall|e: int| 0 <= e < keys.len() ==> #[trigger] at[e] < cap && slots[at[e] as int] == Some(e as usize)
    &&& forall|j: int| 0 <= j < cap && (#[trigger] slots[j]) is Some ==> {
        let e = slots[j].unwrap() as int;
        &&& 0 <= e < keys.len()
        &&& at[e] == j
        &&& forall|d: nat| d < probe_dist(fnv(keys[e]), cap, j as nat) ==> (#[trigger] slots[probe_slot(
            fnv(keys[e]),
            cap,
            d,
        ) as int]) is Some
    }
}

pub proof fn lemma_probe_dist(h: u64, cap: nat, d: nat)
    requires
        cap > 0,
        d < cap,
    ensures
        probe_slot(h, cap, d) < cap,
        probe_dist(h, cap, probe_slot(h, cap, d)) == d,
{
}

/// The home slot of `h`, computed.
pub fn home_exec(h: u64, cap: usize) -> (r: usize)
    requires
        cap > 0,
    ensures
        r == home(h, cap as nat),
        r < cap,
{
    (h % (cap as u64)) as usize
}

/// Places the keys `keys` in a table of `cap` slots by linear
/// probing, in the order given. Returns the table and each entry's slot;
/// `None` only when there are at least as many keys as slots.
pub fn place_keys(keys: &Vec<Vec<u8>>, cap: usize) -> (r: Option<(Vec<Option<usize>>, Vec<usize>)>)
    requires
        cap > 0,
    ensures
        match r {
            Some((slots, at)) => slots@.len() == cap && table_ok(keys@.map_values(|k: Vec<u8>| k@), slots@, at@),
            None => keys@.len() >= cap,
        },
{
    let ghost ks = keys@.map_values(|k: Vec<u8>| k@);
    let mut slots: Vec<Option<usize>> = Vec::new();
    let mut k: usize = 0;
    while k < cap
        invariant
            k <= cap,
            slots@.len() == k,
            forall|j: int| 0 <= j < k ==> slots@[j] is None,
        decreases cap - k,
    {
        slots.push(None);
        k = k + 1;
    }
    let mut at: Vec<usize> = Vec::new();
    let mut e: usize = 0;
    while e < keys.len()
        invariant
            cap > 0,
            e <= keys@.len(),
            ks == keys@.map_values(|k: Vec<u8>| k@),
            slots@.len() == cap,
            at@.len() == e,
            forall|i: int| 0 <= i < e ==> #[trigger] at@[i] < cap && slots@[at@[i] as int] == Some(i as usize),
            forall|j: int| 0 <= j < cap && (#[trigger] slots@[j]) is Some ==> {
                let i = slots@[j].unwrap() as int;
                &&& 0 <= i < e
                &&& at@[i] == j
                &&& forall|d: nat| d < probe_dist(fnv(ks[i]), cap as nat, j as nat) ==> (#[trigger] slots@[probe_slot(
                    fnv(ks[i]),
                    cap as nat,
                    d,
                ) as int]) is Some
            },
        decreases keys@.len() - e,
    {
        let h = hash_bytes(keys[e].as_slice());
        assert(h == fnv(ks[e as int]));
        let mut j: usize = home_exec(h, cap);
        let mut d: usize = 0;
        while slots[j].is_some()
            invariant
                cap > 0,
                d < cap,
                e < keys@.len(),
                slots@.len() == cap,
                at@.len() == e,
                forall|i: int| 0 <= i < e ==> #[trigger] at@[i] < cap && slots@[at@[i] as int] == Some(i as usize),
                forall|j2: int| 0 <= j2 < cap && (#[trigger] slots@[j2]) is Some ==> {
                    let i = slots@[j2].unwrap() as int;
                    &&& 0 <= i < e
                    &&& at@[i] == j2
                },
                j == probe_slot(h, cap as nat, d as nat),
                forall|d2: nat| d2 < d ==> (#[trigger] slots@[probe_slot(h, cap as nat, d2) as int]) is Some,
            decreases cap - d,
        {
            if d + 1 >= cap {
                proof {
                    let ai = at@.map_values(|x: usize| x as int);
                    assert forall|x: int| set_int_range(0, cap as int).contains(x) implies ai.to_set().contains(x) by {
                        lemma_probe_slot_of_dist(h, cap as nat, x as nat);
                        let dd = probe_dist(h, cap as nat, x as nat);
                        if dd < d {
                            assert(slots@[probe_slot(h, cap as nat, dd) as int] is Some);
                        }
                        assert(slots@[x] is Some);
                        let i = slots@[x].unwrap() as int;
                        assert(ai[i] == x);
                    }
                    lemma_int_range(0, cap as int);
                    ai.lemma_cardinality_of_set();
                    lemma_len_subset(set_int_range(0, cap as int), ai.to_set());
                }
                return None;
            }
            d = d + 1;
            j = if j + 1 == cap {
                0
            } else {
                j + 1
            };
        }
        proof {
            lemma_probe_dist(h, cap as nat, d as nat);
        }
        let ghost old_slots = slots@;
        slots.set(j, Some(e));
        at.push(j);
        proof {
            assert forall|j2: int| 0 <= j2 < cap && (#[trigger] slots@[j2]) is Some implies {
                let i = slots@[j2].unwrap() as int;
                &&& 0 <= i < e + 1
                &&& at@[i] == j2
                &&& forall|d: nat| d < probe_dist(fnv(ks[i]), cap as nat, j2 as nat) ==> (#[trigger] slots@[probe_slot(
                    fnv(ks[i]),
                    cap as nat,
                    d,
                ) as int]) is Some
            } by {
                let i = slots@[j2].unwrap() as int;
                if j2 != j {
                    assert(old_slots[j2] is Some);
                    assert forall|d: nat| d < probe_dist(fnv(ks[i]), cap as nat, j2 as nat) implies (#[trigger] slots@[probe_slot(
                        fnv(ks[i]),
                        cap as nat,
                        d,
                    ) as int]) is Some by {
                        assert(old_slots[probe_slot(fnv(ks[i]), cap as nat, d) as int] is Some);
                    }
                }
            }
        }
        e = e + 1;
    }
    Some((slots, at))
}

pub proof fn lemma_probe_slot_of_dist(h: u64, cap: nat, j: nat)
    requires
        cap > 0,
        j < cap,
    ensures
        probe_dist(h, cap, j) < cap,
        probe_slot(h, cap, probe_dist(h, cap, j)) == j,
{
}

} // verus!
