//! SCALE encodings of the tuples that unsigned transactions provide as tags.

use parity_scale_codec::Encode;
use vstd::prelude::*;

verus! {

/// The `n` lowest little-endian bytes of `x`.
pub open spec fn le_bytes(x: nat, n: nat) -> Seq<u8>
    decreases n,
{
    if n == 0 {
        Seq::empty()
    } else {
        seq![(x % 256) as u8] + le_bytes(x / 256, (n - 1) as nat)
    }
}

/// SCALE compact encoding of a collection length `n` (at most `u32::MAX`).
pub open spec fn compact_len(n: nat) -> Seq<u8> {
    if n < 0x40 {
        seq![(n * 4) as u8]
    } else if n < 0x4000 {
        le_bytes(n * 4 + 1, 2)
    } else if n < 0x4000_0000 {
        le_bytes(n * 4 + 2, 4)
    } else {
        seq![3u8] + le_bytes(n, 4)
    }
}

/// SCALE encoding of a `u64`: eight little-endian bytes.
pub open spec fn scale_u64(x: u64) -> Seq<u8> {
    le_bytes(x as nat, 8)
}

/// SCALE encoding of a byte vector: its compact length, then its bytes.
pub open spec fn scale_bytes(b: Seq<u8>) -> Seq<u8> {
    compact_len(b.len()) + b
}

/// `256^n`.
pub open spec fn pow256(n: nat) -> nat
    decreases n,
{
    if n == 0 {
        1
    } else {
        256 * pow256((n - 1) as nat)
    }
}

/// Two numbers below `256^n` with the same `n` little-endian bytes are equal.
pub proof fn lemma_le_bytes_injective(x: nat, y: nat, n: nat)
    requires
        x < pow256(n),
        y < pow256(n),
        le_bytes(x, n) == le_bytes(y, n),
    ensures
        x == y,
    decreases n,
{
    if n > 0 {
        let p = pow256((n - 1) as nat);
        assert(le_bytes(x, n)[0] == le_bytes(y, n)[0]);
        assert(le_bytes(x, n)[0] == (x % 256) as u8);
        assert(le_bytes(y, n)[0] == (y % 256) as u8);
        assert(0 <= x % 256 < 256 && 0 <= y % 256 < 256);
        assert(((x % 256) as u8) as nat == x % 256);
        assert(((y % 256) as u8) as nat == y % 256);
        assert(x % 256 == y % 256);
        assert(le_bytes(x, n).drop_first() =~= le_bytes(x / 256, (n - 1) as nat));
        assert(le_bytes(y, n).drop_first() =~= le_bytes(y / 256, (n - 1) as nat));
        assert(x / 256 < p) by (nonlinear_arith)
            requires
                x < 256 * p,
        ;
        assert(y / 256 < p) by (nonlinear_arith)
            requires
                y < 256 * p,
        ;
        lemma_le_bytes_injective(x / 256, y / 256, (n - 1) as nat);
        assert(x == 256 * (x / 256) + x % 256) by (nonlinear_arith);
        assert(y == 256 * (y / 256) + y % 256) by (nonlinear_arith);
    }
}

/// `le_bytes(x, n)` has `n` bytes, the first of which is `x`'s lowest.
pub proof fn lemma_le_bytes_len(x: nat, n: nat)
    ensures
        le_bytes(x, n).len() == n,
        n > 0 ==> le_bytes(x, n)[0] == (x % 256) as u8,
    decreases n,
{
    if n > 0 {
        lemma_le_bytes_len(x / 256, (n - 1) as nat);
    }
}

/// Two concatenations with prefixes of equal length are equal only when
/// their prefixes and their rests are.
pub proof fn lemma_prefix_cancel<A>(x: Seq<A>, a: Seq<A>, y: Seq<A>, b: Seq<A>)
    requires
        x.len() == y.len(),
        x + a == y + b,
    ensures
        x == y,
        a == b,
{
    assert(x =~= (x + a).subrange(0, x.len() as int));
    assert(y =~= (y + b).subrange(0, y.len() as int));
    assert(a =~= (x + a).subrange(x.len() as int, (x + a).len() as int));
    assert(b =~= (y + b).subrange(y.len() as int, (y + b).len() as int));
}

/// The two low bits of a compact length's first byte: which of its four
/// forms it takes.
pub open spec fn compact_mode(n: nat) -> nat {
    if n < 0x40 {
        0
    } else if n < 0x4000 {
        1
    } else if n < 0x4000_0000 {
        2
    } else {
        3
    }
}

/// The number of bytes of a compact length in each form.
pub open spec fn compact_size(mode: nat) -> nat {
    if mode == 0 {
        1
    } else if mode == 1 {
        2
    } else if mode == 2 {
        4
    } else {
        5
    }
}

/// A compact length's size, and its first byte, whose low bits tell its form.
proof fn lemma_compact_shape(n: nat)
    requires
        n <= u32::MAX,
    ensures
        compact_len(n).len() == compact_size(compact_mode(n)),
        compact_len(n)[0] % 4 == compact_mode(n),
{
    if n < 0x40 {
        assert(((n * 4) as u8) as nat == n * 4);
    } else if n < 0x4000 {
        lemma_le_bytes_len(n * 4 + 1, 2);
        assert((n * 4 + 1) % 256 % 4 == 1);
        assert((((n * 4 + 1) % 256) as u8) as nat == (n * 4 + 1) % 256);
    } else if n < 0x4000_0000 {
        lemma_le_bytes_len(n * 4 + 2, 4);
        assert((n * 4 + 2) % 256 % 4 == 2);
        assert((((n * 4 + 2) % 256) as u8) as nat == (n * 4 + 2) % 256);
    } else {
        lemma_le_bytes_len(n, 4);
    }
}

/// Law: a compact length is read back unambiguously from the front of any
/// byte string that it starts.
pub proof fn lemma_compact_injective(n1: nat, n2: nat, a: Seq<u8>, b: Seq<u8>)
    requires
        n1 <= u32::MAX,
        n2 <= u32::MAX,
        compact_len(n1) + a == compact_len(n2) + b,
    ensures
        n1 == n2,
        a == b,
{
    lemma_compact_shape(n1);
    lemma_compact_shape(n2);
    assert((compact_len(n1) + a)[0] == compact_len(n1)[0]);
    assert((compact_len(n2) + b)[0] == compact_len(n2)[0]);
    lemma_prefix_cancel(compact_len(n1), a, compact_len(n2), b);
    let m = compact_mode(n1);
    assert(pow256(2) == 0x1_0000 && pow256(4) == 0x1_0000_0000) by {
        reveal_with_fuel(pow256, 5);
    }
    if m == 0 {
        assert(compact_len(n1)[0] == compact_len(n2)[0]);
        assert(((n1 * 4) as u8) as nat == n1 * 4);
        assert(((n2 * 4) as u8) as nat == n2 * 4);
    } else if m == 1 {
        lemma_le_bytes_injective(n1 * 4 + 1, n2 * 4 + 1, 2);
    } else if m == 2 {
        lemma_le_bytes_injective(n1 * 4 + 2, n2 * 4 + 2, 4);
    } else {
        assert(compact_len(n1).drop_first() =~= le_bytes(n1, 4));
        assert(compact_len(n2).drop_first() =~= le_bytes(n2, 4));
        lemma_le_bytes_injective(n1, n2, 4);
    }
}

/// Law: the SCALE encoding of a `u64` is read back unambiguously from the
/// front of any byte string that it starts.
pub proof fn lemma_u64_injective(x1: u64, x2: u64, a: Seq<u8>, b: Seq<u8>)
    requires
        scale_u64(x1) + a == scale_u64(x2) + b,
    ensures
        x1 == x2,
        a == b,
{
    lemma_le_bytes_len(x1 as nat, 8);
    lemma_le_bytes_len(x2 as nat, 8);
    lemma_prefix_cancel(scale_u64(x1), a, scale_u64(x2), b);
    assert(pow256(8) == 0x1_0000_0000_0000_0000) by {
        reveal_with_fuel(pow256, 9);
    }
    lemma_le_bytes_injective(x1 as nat, x2 as nat, 8);
}

/// Law: the SCALE encoding of a byte vector is read back unambiguously from
/// the front of any byte string that it starts.
pub proof fn lemma_bytes_injective(s1: Seq<u8>, s2: Seq<u8>, a: Seq<u8>, b: Seq<u8>)
    requires
        s1.len() <= u32::MAX,
        s2.len() <= u32::MAX,
        scale_bytes(s1) + a == scale_bytes(s2) + b,
    ensures
        s1 == s2,
        a == b,
{
    assert(scale_bytes(s1) + a =~= compact_len(s1.len()) + (s1 + a));
    assert(scale_bytes(s2) + b =~= compact_len(s2.len()) + (s2 + b));
    lemma_compact_injective(s1.len(), s2.len(), s1 + a, s2 + b);
    lemma_prefix_cancel(s1, a, s2, b);
}

/// `(nonce, now).encode()` of `parity_scale_codec::Encode` for a `(u8, u64)`
/// tuple: the crate encodes a tuple as its fields one after another, a `u8`
/// as that byte and a `u64` as eight little-endian bytes.
#[verifier::external_body]
pub(crate) fn encode_nonce_moment(nonce: u8, now: u64) -> (r: Vec<u8>)
    ensures
        r@ == seq![nonce] + scale_u64(now),
{
    (&nonce, now).encode()
}

/// `(block, sym, remote_src, price).encode()` of `parity_scale_codec::Encode`
/// for a `(u64, Vec<u8>, Vec<u8>, u64)` tuple: the fields one after another,
/// each byte vector as its compact length followed by its bytes. The crate
/// panics on a vector of more than `u32::MAX` bytes.
#[verifier::external_body]
pub(crate) fn encode_price_tag(block: u64, sym: &Vec<u8>, remote_src: &Vec<u8>, price: u64) -> (r:
    Vec<u8>)
    requires
        sym@.len() <= u32::MAX,
        remote_src@.len() <= u32::MAX,
    ensures
        r@ == scale_u64(block) + scale_bytes(sym@) + scale_bytes(remote_src@) + scale_u64(price),
{
    (&block, sym, remote_src, &price).encode()
}

/// `(block, sym, price).encode()` of `parity_scale_codec::Encode` for a
/// `(u64, Vec<u8>, u64)` tuple, laid out as for [`encode_price_tag`]. The
/// crate panics on a vector of more than `u32::MAX` bytes.
#[verifier::external_body]
pub(crate) fn encode_agg_tag(block: u64, sym: &Vec<u8>, price: u64) -> (r: Vec<u8>)
    requires
        sym@.len() <= u32::MAX,
    ensures
        r@ == scale_u64(block) + scale_bytes(sym@) + scale_u64(price),
{
    (&block, sym, &price).encode()
}

} // verus!
