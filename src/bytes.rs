//! Little-endian byte layout of unsigned integers: the wire form of every
//! plain scalar.
use vstd::prelude::*;

verus! {

/// 256 to the power `n`.
pub open spec fn pow256(n: nat) -> nat
    decreases n,
{
    if n == 0 {
        1
    } else {
        256 * pow256((n - 1) as nat)
    }
}

/// The `n` low bytes of `v`, least significant first.
pub open spec fn le_bytes(v: nat, n: nat) -> Seq<u8>
    decreases n,
{
    if n == 0 {
        Seq::empty()
    } else {
        seq![(v % 256) as u8] + le_bytes(v / 256, (n - 1) as nat)
    }
}

/// The unsigned integer whose little-endian bytes are `s`.
pub open spec fn le_value(s: Seq<u8>) -> nat
    decreases s.len(),
{
    if s.len() == 0 {
        0
    } else {
        s[0] as nat + 256 * le_value(s.drop_first())
    }
}

/// `n` zero bytes.
pub open spec fn zeros(n: nat) -> Seq<u8> {
    Seq::new(n, |i: int| 0u8)
}

pub proof fn lemma_pow256_pos(n: nat)
    ensures
        pow256(n) >= 1,
    decreases n,
{
    if n > 0 {
        lemma_pow256_pos((n - 1) as nat);
    }
}

pub proof fn lemma_pow256_mono(a: nat, b: nat)
    requires
        a <= b,
    ensures
        pow256(a) <= pow256(b),
    decreases b,
{
    if a < b {
        lemma_pow256_mono(a, (b - 1) as nat);
        lemma_pow256_pos((b - 1) as nat);
    }
}

pub proof fn lemma_pow256_16()
    ensures
        pow256(16) == 0x1_0000_0000_0000_0000_0000_0000_0000_0000,
{
    reveal_with_fuel(pow256, 17);
}

pub proof fn lemma_le_bytes_len(v: nat, n: nat)
    ensures
        le_bytes(v, n).len() == n,
    decreases n,
{
    if n > 0 {
        lemma_le_bytes_len(v / 256, (n - 1) as nat);
    }
}

pub proof fn lemma_le_value_bound(s: Seq<u8>)
    ensures
        le_value(s) < pow256(s.len()),
    decreases s.len(),
{
    if s.len() > 0 {
        lemma_le_value_bound(s.drop_first());
        let r = le_value(s.drop_first());
        let p = pow256(s.drop_first().len());
        assert(s[0] as nat + 256 * r < 256 * p) by (nonlinear_arith)
            requires
                r < p,
                s[0] < 256,
        ;
    }
}

/// Reading back the `n` bytes written for `v` gives `v` again.
pub proof fn lemma_le_round_trip(v: nat, n: nat)
    requires
        v < pow256(n),
    ensures
        le_value(le_bytes(v, n)) == v,
    decreases n,
{
    if n > 0 {
        let q = v / 256;
        assert(q < pow256((n - 1) as nat)) by (nonlinear_arith)
            requires
                v < 256 * pow256((n - 1) as nat),
                q == v / 256,
        ;
        lemma_le_round_trip(q, (n - 1) as nat);
        let s = le_bytes(v, n);
        assert(s.drop_first() =~= le_bytes(q, (n - 1) as nat));
    }
}

/// The `n` low bytes of `v`, least significant first.
pub fn write_le(v: u128, n: usize) -> (r: Vec<u8>)
    ensures
        r@ == le_bytes(v as nat, n as nat),
{
    let mut out: Vec<u8> = Vec::new();
    let mut x: u128 = v;
    let mut i: usize = 0;
    while i < n
        invariant
            i <= n,
            out@ + le_bytes(x as nat, (n - i) as nat) == le_bytes(v as nat, n as nat),
        decreases n - i,
    {
        let ghost old_out = out@;
        let ghost old_x = x;
        out.push((x % 256) as u8);
        x = x / 256;
        i = i + 1;
        assert(le_bytes(old_x as nat, (n - i + 1) as nat) == seq![(old_x % 256) as u8] + le_bytes(
            x as nat,
            (n - i) as nat,
        ));
        assert(out@ + le_bytes(x as nat, (n - i) as nat) =~= old_out + le_bytes(
            old_x as nat,
            (n - i + 1) as nat,
        ));
    }
    assert(out@ =~= out@ + le_bytes(x as nat, 0));
    out
}

/// The unsigned integer stored little-endian in `bytes[pos..pos + n]`.
pub fn read_le(bytes: &[u8], pos: usize, n: usize) -> (r: u128)
    requires
        n <= 16,
        pos + n <= bytes@.len(),
    ensures
        r as nat == le_value(bytes@.subrange(pos as int, pos + n)),
{
    let len: usize = bytes.len();
    let mut acc: u128 = 0;
    let mut k: usize = n;
    proof {
        assert(bytes@.subrange((pos + n) as int, pos + n).len() == 0);
    }
    while k > 0
        invariant
            k <= n <= 16,
            pos + n <= bytes@.len(),
            len == bytes@.len(),
            acc as nat == le_value(bytes@.subrange(pos + k, pos + n)),
        decreases k,
    {
        let ghost tail = bytes@.subrange(pos + k, pos + n);
        let b = bytes[pos + (k - 1)];
        proof {
            lemma_le_value_bound(tail);
            lemma_pow256_mono((n - k) as nat, 15);
            lemma_pow256_16();
            reveal_with_fuel(pow256, 16);
            assert(acc * 256 + b < pow256(16)) by (nonlinear_arith)
                requires
                    acc < pow256((n - k) as nat),
                    pow256((n - k) as nat) <= pow256(15),
                    pow256(16) == 256 * pow256(15),
                    b < 256,
            ;
            let s = bytes@.subrange(pos + k - 1, pos + n);
            assert(s.drop_first() =~= tail);
        }
        acc = b as u128 + acc * 256;
        k = k - 1;
    }
    acc
}

} // verus!
