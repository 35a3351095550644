//! Hashes that choose among equal paths.

use vstd::prelude::*;

verus! {

/// The 64-bit xxHash of bytes with a seed.
pub uninterp spec fn xx_hash(seed: u64, bytes: Seq<u8>) -> u64;

/// Calls `twox_hash::XxHash64::oneshot`, whose result is a function of the seed and the bytes.
#[verifier::external_body]
fn hash_bytes(seed: u64, bytes: &Vec<u8>) -> (r: u64)
    ensures
        r == xx_hash(seed, bytes@),
{
    twox_hash::XxHash64::oneshot(seed, bytes)
}

/// The lowest `n` bytes of a number, the lowest first.
pub open spec fn le_bytes(x: nat, n: nat) -> Seq<u8>
    decreases n,
{
    if n == 0 {
        Seq::empty()
    } else {
        seq![(x % 256) as u8] + le_bytes(x / 256, (n - 1) as nat)
    }
}

/// Appends the lowest `n` bytes of a number.
fn push_bytes(out: &mut Vec<u8>, x: u64, n: usize)
    ensures
        final(out)@ == old(out)@ + le_bytes(x as nat, n as nat),
{
    let mut rest: u64 = x;
    let mut i: usize = 0;
    proof {
        assert(out@ + le_bytes(rest as nat, n as nat) =~= old(out)@ + le_bytes(x as nat, n as nat));
    }
    while i < n
        invariant
            i <= n,
            out@ + le_bytes(rest as nat, (n - i) as nat) == old(out)@ + le_bytes(x as nat, n as nat),
        decreases n - i,
    {
        let b: u8 = (rest % 256) as u8;
        proof {
            let more = le_bytes((rest / 256) as nat, (n - i - 1) as nat);
            assert(le_bytes(rest as nat, (n - i) as nat) == seq![b] + more);
            assert(out@ + (seq![b] + more) =~= out@.push(b) + more);
        }
        out.push(b);
        rest = rest / 256;
        i += 1;
    }
    proof {
        assert(out@ + le_bytes(rest as nat, 0) =~= out@);
    }
}

/// What identifies the traffic between two nodes: the nodes in four bytes each, and further numbers
/// in eight.
pub open spec fn pair_key(src: nat, dst: nat) -> Seq<u8> {
    le_bytes(src, 4) + le_bytes(dst, 4)
}

/// The hash of two nodes and a number.
pub fn hash_pair(seed: u64, src: usize, dst: usize, key: usize) -> (r: u64)
    ensures
        r == xx_hash(seed, pair_key(src as nat, dst as nat) + le_bytes(key as nat, 8)),
{
    let mut bytes: Vec<u8> = Vec::new();
    push_bytes(&mut bytes, src as u64, 4);
    push_bytes(&mut bytes, dst as u64, 4);
    push_bytes(&mut bytes, key as u64, 8);
    proof {
        assert(bytes@ =~= pair_key(src as nat, dst as nat) + le_bytes(key as nat, 8));
    }
    hash_bytes(seed, &bytes)
}

/// The hash of two nodes and two numbers.
pub fn hash_level(seed: u64, src: usize, dst: usize, key: usize, level: usize) -> (r: u64)
    ensures
        r == xx_hash(seed, pair_key(src as nat, dst as nat) + le_bytes(key as nat, 8) + le_bytes(level as nat, 8)),
{
    let mut bytes: Vec<u8> = Vec::new();
    push_bytes(&mut bytes, src as u64, 4);
    push_bytes(&mut bytes, dst as u64, 4);
    push_bytes(&mut bytes, key as u64, 8);
    push_bytes(&mut bytes, level as u64, 8);
    proof {
        assert(bytes@ =~= pair_key(src as nat, dst as nat) + le_bytes(key as nat, 8) + le_bytes(level as nat, 8));
    }
    hash_bytes(seed, &bytes)
}

/// The hash of three numbers.
pub fn hash_three(seed: u64, a: usize, b: usize, c: usize) -> (r: u64)
    ensures
        r == xx_hash(seed, le_bytes(a as nat, 8) + le_bytes(b as nat, 8) + le_bytes(c as nat, 8)),
{
    let mut bytes: Vec<u8> = Vec::new();
    push_bytes(&mut bytes, a as u64, 8);
    push_bytes(&mut bytes, b as u64, 8);
    push_bytes(&mut bytes, c as u64, 8);
    proof {
        assert(bytes@ =~= le_bytes(a as nat, 8) + le_bytes(b as nat, 8) + le_bytes(c as nat, 8));
    }
    hash_bytes(seed, &bytes)
}

/// The choice that a hash makes among `n`.
pub open spec fn pick(hash: u64, n: nat) -> nat {
    hash as nat % n
}

/// The choice that a hash makes.
pub fn pick_by_hash(hash: u64, n: usize) -> (r: usize)
    requires
        n > 0,
    ensures
        r == pick(hash, n as nat),
        r < n,
{
    (hash % (n as u64)) as usize
}

} // verus!
