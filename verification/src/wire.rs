//! The little-endian integer encoding the wire format is built on:
//! spec-level encode and decode directions and the facts relating them.

use vstd::prelude::*;

verus! {

/// 256 to the power `n`: the number of values an `n`-byte field can hold.
pub open spec fn pow256(n: nat) -> int
    decreases n,
{
    if n == 0 {
        1
    } else {
        256 * pow256((n - 1) as nat)
    }
}

/// Little-endian encoding of `x` in exactly `n` bytes (low byte first).
pub open spec fn le_enc(x: int, n: nat) -> Seq<u8>
    decreases n,
{
    if n == 0 {
        Seq::empty()
    } else {
        seq![(x % 256) as u8] + le_enc(x / 256, (n - 1) as nat)
    }
}

/// The integer a little-endian byte sequence stands for.
pub open spec fn le_dec(s: Seq<u8>) -> int
    decreases s.len(),
{
    if s.len() == 0 {
        0
    } else {
        s[0] + 256 * le_dec(s.drop_first())
    }
}

pub proof fn lemma_pow256_pos(n: nat)
    ensures
        pow256(n) >= 1,
    decreases n,
{
    if n > 0 {
        lemma_pow256_pos((n - 1) as nat);
    }
}

pub proof fn lemma_le_enc_len(x: int, n: nat)
    ensures
        le_enc(x, n).len() == n,
    decreases n,
{
    if n > 0 {
        lemma_le_enc_len(x / 256, (n - 1) as nat);
    }
}

/// Decoding an encoding gives the value back, for values that fit in `n` bytes.
pub proof fn lemma_le_dec_enc(x: int, n: nat)
    requires
        0 <= x < pow256(n),
    ensures
        le_dec(le_enc(x, n)) == x,
    decreases n,
{
    if n > 0 {
        lemma_le_enc_len(x / 256, (n - 1) as nat);
        assert(le_enc(x, n).drop_first() =~= le_enc(x / 256, (n - 1) as nat));
        assert(0 <= x / 256 < pow256((n - 1) as nat)) by {
            assert(pow256(n) == 256 * pow256((n - 1) as nat));
        };
        lemma_le_dec_enc(x / 256, (n - 1) as nat);
        assert(x == 256 * (x / 256) + x % 256) by {
            vstd::arithmetic::div_mod::lemma_fundamental_div_mod(x, 256);
        };
    }
}

/// A decoded value fits in as many bytes as were decoded.
pub proof fn lemma_le_dec_bound(s: Seq<u8>)
    ensures
        0 <= le_dec(s) < pow256(s.len()),
    decreases s.len(),
{
    if s.len() > 0 {
        lemma_le_dec_bound(s.drop_first());
    }
}

/// Encoding a decoded sequence gives the sequence back.
pub proof fn lemma_le_enc_dec(s: Seq<u8>)
    ensures
        le_enc(le_dec(s), s.len()) == s,
    decreases s.len(),
{
    if s.len() == 0 {
        assert(le_enc(le_dec(s), s.len()) =~= s);
    } else {
        let x = le_dec(s);
        let r = le_dec(s.drop_first());
        lemma_le_dec_bound(s.drop_first());
        assert(x == 256 * r + s[0]);
        assert(x / 256 == r && x % 256 == s[0]) by {
            vstd::arithmetic::div_mod::lemma_fundamental_div_mod_converse(x, 256, r, s[0] as int);
        };
        lemma_le_enc_dec(s.drop_first());
        lemma_le_enc_len(x / 256, (s.len() - 1) as nat);
        assert(le_enc(x, s.len()) =~= s);
    }
}

/// Encoding is injective on values that fit in `n` bytes.
pub proof fn lemma_le_enc_injective(x: int, y: int, n: nat)
    requires
        0 <= x < pow256(n),
        0 <= y < pow256(n),
        le_enc(x, n) == le_enc(y, n),
    ensures
        x == y,
{
    lemma_le_dec_enc(x, n);
    lemma_le_dec_enc(y, n);
}

} // verus!
