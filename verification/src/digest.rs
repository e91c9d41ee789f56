//! The FNV-1a digest that fixtures and resume cursors are checked with.

use vstd::prelude::*;

verus! {

/// The digest of no bytes.
pub const OFFSET_BASIS: u64 = 0xcbf2_9ce4_8422_2325;

/// The prime that every step multiplies by.
pub const PRIME: u64 = 0x0000_0100_0000_01b3;

/// One step of FNV-1a: the digest `hash` with `byte` added.
pub open spec fn fnv_step(hash: u64, byte: u8) -> u64 {
    (((hash ^ (byte as u64)) * PRIME) % 0x1_0000_0000_0000_0000) as u64
}

/// FNV-1a over 64 bits.
pub open spec fn fnv1a64(bytes: Seq<u8>) -> u64
    decreases bytes.len(),
{
    if bytes.len() == 0 {
        OFFSET_BASIS
    } else {
        fnv_step(fnv1a64(bytes.drop_last()), bytes.last())
    }
}

/// The lower-case hexadecimal digit of a number below sixteen.
pub open spec fn hex_char(d: nat) -> char {
    if d < 10 {
        (48 + d) as char
    } else {
        (87 + d) as char
    }
}

/// The last `n` hexadecimal digits of `x`.
pub open spec fn hex(x: nat, n: nat) -> Seq<char>
    decreases n,
{
    if n == 0 {
        Seq::empty()
    } else {
        hex(x / 16, (n - 1) as nat).push(hex_char(x % 16))
    }
}

/// Writes the last `n` hexadecimal digits of `x` at the end of `out`.
fn push_hex(out: &mut String, x: u64, n: u8)
    ensures
        final(out)@ == old(out)@ + hex(x as nat, n as nat),
    decreases n,
{
    if n > 0 {
        push_hex(out, x / 16, n - 1);
        let d: u8 = (x % 16) as u8;
        let c: char = if d < 10 {
            (48u8 + d) as char
        } else {
            (87u8 + d) as char
        };
        out.push(c);
    }
    assert(out@ == old(out)@ + hex(x as nat, n as nat));
}

/// FNV-1a 64 of `bytes`, as sixteen lower-case hexadecimal digits.
pub fn fnv1a64_hex(bytes: &[u8]) -> (digest: String)
    ensures
        digest@ == hex(fnv1a64(bytes@) as nat, 16),
{
    let mut hash: u64 = OFFSET_BASIS;
    let mut i: usize = 0;
    while i < bytes.len()
        invariant
            i <= bytes@.len(),
            hash == fnv1a64(bytes@.take(i as int)),
        decreases bytes@.len() - i,
    {
        assert(bytes@.take(i + 1).drop_last() == bytes@.take(i as int));
        hash = (hash ^ (bytes[i] as u64)).wrapping_mul(PRIME);
        i += 1;
    }
    assert(bytes@.take(i as int) == bytes@);
    let mut digest = String::new();
    push_hex(&mut digest, hash, 16);
    digest
}

} // verus!
