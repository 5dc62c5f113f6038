//! Numbers as bytes, most significant byte first: how every number is
//! stored.

use vstd::prelude::*;

verus! {

/// The number that a sequence of bytes spells, most significant byte first.
pub open spec fn be_value(b: Seq<u8>) -> nat
    decreases b.len(),
{
    if b.len() == 0 {
        0
    } else {
        be_value(b.drop_last()) * 256 + b.last() as nat
    }
}

/// The `n` bytes that spell `v`, most significant byte first. Where `v` does
/// not fit in `n` bytes its high part is dropped.
pub open spec fn be_bytes(v: nat, n: nat) -> Seq<u8>
    decreases n,
{
    if n == 0 {
        Seq::empty()
    } else {
        be_bytes(v / 256, (n - 1) as nat).push((v % 256) as u8)
    }
}

/// 256 to the power `n`.
pub open spec fn pow256(n: nat) -> nat
    decreases n,
{
    if n == 0 {
        1
    } else {
        256 * pow256((n - 1) as nat)
    }
}

/// A number spelled at the width `n` takes `n` bytes.
pub proof fn lemma_be_bytes_len(v: nat, n: nat)
    ensures
        be_bytes(v, n).len() == n,
    decreases n,
{
    if n > 0 {
        lemma_be_bytes_len(v / 256, (n - 1) as nat);
    }
}

/// The number that bytes spell is less than 256 to the power of their
/// number.
pub proof fn lemma_be_value_bound(b: Seq<u8>)
    ensures
        be_value(b) < pow256(b.len()),
    decreases b.len(),
{
    if b.len() > 0 {
        lemma_be_value_bound(b.drop_last());
    }
}

/// Spelling a number and reading the bytes back gives the number, where it
/// fits.
pub proof fn lemma_be_value_of_bytes(v: nat, n: nat)
    requires
        v < pow256(n),
    ensures
        be_value(be_bytes(v, n)) == v,
    decreases n,
{
    if n > 0 {
        let rest = be_bytes(v / 256, (n - 1) as nat);
        lemma_be_value_of_bytes(v / 256, (n - 1) as nat);
        assert(be_bytes(v, n).drop_last() =~= rest);
    }
}

/// 256 to the power of eight is two to the power of 64.
pub proof fn lemma_pow256_8()
    ensures
        pow256(8) == 0x1_0000_0000_0000_0000,
{
    reveal_with_fuel(pow256, 9);
}

/// Reads the eight bytes of `bytes` that start at `at` as one number, most
/// significant byte first.
pub fn read_be_u64(bytes: &[u8], at: usize) -> (v: u64)
    requires
        at + 8 <= bytes.len(),
    ensures
        v == be_value(bytes@.subrange(at as int, at + 8)),
{
    let ghost word = bytes@.subrange(at as int, at + 8);
    let mut v: u64 = 0;
    let mut i: usize = 0;
    while i < 8
        invariant
            i <= 8,
            at + 8 <= bytes.len(),
            word == bytes@.subrange(at as int, at + 8),
            v == be_value(word.subrange(0, i as int)),
        decreases 8 - i,
    {
        proof {
            let prefix = word.subrange(0, i as int);
            let longer = word.subrange(0, i + 1);
            assert(longer.drop_last() =~= prefix);
            lemma_be_value_bound(prefix);
            lemma_pow256_mono(i as nat, 7);
            lemma_pow256_7();
        }
        v = v * 256 + bytes[at + i] as u64;
        i = i + 1;
    }
    assert(word.subrange(0, 8) =~= word);
    v
}

/// 256 to the power of seven is two to the power of 56.
pub proof fn lemma_pow256_7()
    ensures
        pow256(7) == 0x1_00_0000_0000_0000,
{
    reveal_with_fuel(pow256, 8);
}

/// The powers of 256 grow with the exponent.
pub proof fn lemma_pow256_mono(a: nat, b: nat)
    requires
        a <= b,
    ensures
        pow256(a) <= pow256(b),
    decreases b,
{
    if a < b {
        lemma_pow256_mono(a, (b - 1) as nat);
    }
}

/// Writes `v` into the eight bytes of `bytes` that start at `at`, most
/// significant byte first, and leaves every other byte as it was.
pub fn write_be_u64(bytes: &mut [u8; 8192], at: usize, v: u64)
    requires
        at + 8 <= 8192,
    ensures
        final(bytes)@ == old(bytes)@.subrange(0, at as int) + be_bytes(v as nat, 8) + old(bytes)@.subrange(at + 8, 8192),
{
    let ghost before = bytes@;
    let ghost whole = be_bytes(v as nat, 8);
    let mut rest: u64 = v;
    let mut i: usize = 8;
    proof {
        lemma_be_bytes_len(v as nat, 8);
        assert(whole.subrange(0, 8) =~= whole);
        assert(bytes@.subrange(at + 8, at + 8) =~= whole.subrange(8, 8));
    }
    while i > 0
        invariant
            i <= 8,
            at + 8 <= 8192,
            before.len() == 8192,
            bytes@.len() == 8192,
            whole == be_bytes(v as nat, 8),
            whole.len() == 8,
            forall|j: int| 0 <= j < at + i || at + 8 <= j < 8192 ==> bytes@[j] == before[j],
            be_bytes(rest as nat, i as nat) == whole.subrange(0, i as int),
            bytes@.subrange(at + i, at + 8) == whole.subrange(i as int, 8),
        decreases i,
    {
        i = i - 1;
        bytes[at + i] = (rest % 256) as u8;
        proof {
            lemma_be_bytes_len(rest as nat, (i + 1) as nat);
            lemma_be_bytes_len((rest / 256) as nat, i as nat);
            let head = be_bytes(rest as nat, (i + 1) as nat);
            assert(head == be_bytes((rest / 256) as nat, i as nat).push((rest % 256) as u8));
            assert(head.drop_last() =~= be_bytes((rest / 256) as nat, i as nat));
            assert(whole.subrange(0, i as int) =~= whole.subrange(0, i + 1).drop_last());
            assert(whole[i as int] == head.last());
            assert(whole.subrange(i as int, 8) =~= seq![whole[i as int]] + whole.subrange(
                i + 1,
                8,
            ));
            assert(bytes@.subrange(at + i, at + 8) =~= whole.subrange(i as int, 8));
            assert(be_bytes((rest / 256) as nat, i as nat) =~= whole.subrange(0, i as int));
        }
        rest = rest / 256;
    }
    proof {
        assert(whole.subrange(0, 8) =~= whole);
        assert(bytes@ =~= before.subrange(0, at as int) + be_bytes(v as nat, 8) + before.subrange(
            at + 8,
            8192,
        ));
    }
}

} // verus!
