use crate::data::{keys_of, ModelData};
use vstd::arithmetic::div_mod::{lemma_div_denominator, lemma_multiply_divide_lt};
use vstd::arithmetic::power2::{
    lemma2_to64, lemma2_to64_rest, lemma_pow2_adds, lemma_pow2_pos, lemma_pow2_strictly_increases,
    lemma_pow2_unfold, pow2,
};
use vstd::bits::lemma_u64_shr_is_div;
use vstd::prelude::*;

verus! {

/// The number of binary digits of `value`: the least `n` with
/// `value < 2^n`.
pub open spec fn bit_length(value: u64) -> nat
    decreases value,
{
    if value == 0 {
        0
    } else {
        1 + bit_length(value / 2)
    }
}

/// `bit_length(value)` digits are enough for `value`, and one fewer are
/// not.
pub proof fn lemma_bit_length(value: u64)
    ensures
        bit_length(value) <= 64,
        value < pow2(bit_length(value)),
        value > 0 ==> pow2((bit_length(value) - 1) as nat) <= value,
    decreases value,
{
    lemma2_to64();
    lemma2_to64_rest();
    if value > 0 {
        let half = (value / 2) as u64;
        lemma_bit_length(half);
        let n = bit_length(value);
        lemma_pow2_unfold(n);
        if half > 0 {
            lemma_pow2_unfold((n - 1) as nat);
        }
        if n > 64 {
            lemma_pow2_strictly_increases(64, (n - 1) as nat);
        }
    }
}

/// The number of binary digits of `value`.
pub fn num_bits(value: u64) -> (bits: u8)
    ensures
        bits == bit_length(value),
        bits <= 64,
        value < pow2(bits as nat),
        value > 0 ==> pow2((bits - 1) as nat) <= value,
{
    proof {
        lemma_bit_length(value);
    }
    let mut rest = value;
    let mut bits: u8 = 0;
    while rest > 0
        invariant
            bits + bit_length(rest) == bit_length(value),
            bit_length(value) <= 64,
        decreases rest,
    {
        rest = rest / 2;
        bits += 1;
    }
    bits
}

/// Whether `a` and `b` have the same `p` most significant bits.
pub open spec fn agree_on_top(a: u64, b: u64, p: nat) -> bool {
    p <= 64 && a >> ((64 - p) as u64) == b >> ((64 - p) as u64)
}

/// Whether all of `keys` have the same `p` most significant bits.
pub open spec fn all_agree_on_top(keys: Seq<u64>, p: nat) -> bool {
    forall|i: int| 0 <= i < keys.len() ==> agree_on_top(keys[0], #[trigger] keys[i], p)
}

/// The largest `q <= p` such that all of `keys` have the same `q` most
/// significant bits.
pub open spec fn longest_agreement(keys: Seq<u64>, p: nat) -> nat
    decreases p,
{
    if p == 0 || all_agree_on_top(keys, p) {
        p
    } else {
        longest_agreement(keys, (p - 1) as nat)
    }
}

/// The number of most significant bits that all of `keys` share; 0 where
/// there is no key.
pub open spec fn common_prefix_len(keys: Seq<u64>) -> nat {
    if keys.len() == 0 {
        0
    } else {
        longest_agreement(keys, 64)
    }
}

/// Numbers that share their `q` most significant bits share the first `p`
/// of them, for `p <= q`.
pub proof fn lemma_agreement_shrinks(a: u64, b: u64, p: nat, q: nat)
    requires
        p <= q,
        agree_on_top(a, b, q),
    ensures
        agree_on_top(a, b, p),
    decreases q - p,
{
    if p < q {
        let s: u64 = (64 - q) as u64;
        assert(a >> ((s + 1) as u64) == (a >> s) >> 1u64) by (bit_vector)
            requires
                s < 64,
        ;
        assert(b >> ((s + 1) as u64) == (b >> s) >> 1u64) by (bit_vector)
            requires
                s < 64,
        ;
        lemma_agreement_shrinks(a, b, p, (q - 1) as nat);
    }
}

/// Any two numbers share their first 0 bits.
pub proof fn lemma_agreement_on_nothing(a: u64, b: u64)
    ensures
        agree_on_top(a, b, 0),
{
    assert(a >> 64u64 == b >> 64u64) by (bit_vector);
}

/// What `common_prefix_len` is for a training set with a key: all keys
/// share that many leading bits, any two of them, and they do not all
/// share more.
pub proof fn lemma_common_prefix_len(keys: Seq<u64>)
    requires
        keys.len() > 0,
    ensures
        common_prefix_len(keys) <= 64,
        forall|i: int, j: int|
            0 <= i < keys.len() && 0 <= j < keys.len() ==> agree_on_top(
                #[trigger] keys[i],
                #[trigger] keys[j],
                common_prefix_len(keys),
            ),
        forall|q: nat| common_prefix_len(keys) < q <= 64 ==> !all_agree_on_top(keys, q),
{
    lemma_longest_agreement(keys, 64);
    let p = common_prefix_len(keys);
    assert forall|i: int, j: int| 0 <= i < keys.len() && 0 <= j < keys.len() implies agree_on_top(
        #[trigger] keys[i],
        #[trigger] keys[j],
        p,
    ) by {
        assert(agree_on_top(keys[0], keys[i], p));
        assert(agree_on_top(keys[0], keys[j], p));
    }
}

/// `longest_agreement(keys, p)` is at most `p`, all keys agree on that many
/// bits, and on no number of bits between it and `p`.
proof fn lemma_longest_agreement(keys: Seq<u64>, p: nat)
    requires
        p <= 64,
    ensures
        longest_agreement(keys, p) <= p,
        all_agree_on_top(keys, longest_agreement(keys, p)),
        forall|q: nat| longest_agreement(keys, p) < q <= p ==> !all_agree_on_top(keys, q),
    decreases p,
{
    if p == 0 {
        assert forall|i: int| 0 <= i < keys.len() implies agree_on_top(
            keys[0],
            #[trigger] keys[i],
            0,
        ) by {
            lemma_agreement_on_nothing(keys[0], keys[i]);
        }
    } else if !all_agree_on_top(keys, p) {
        lemma_longest_agreement(keys, (p - 1) as nat);
    }
}

/// The length that satisfies the two properties of the common prefix is
/// the common prefix.
proof fn lemma_longest_agreement_is(keys: Seq<u64>, p: nat, top: nat)
    requires
        p <= top <= 64,
        all_agree_on_top(keys, p),
        forall|q: nat| p < q <= top ==> !all_agree_on_top(keys, q),
    ensures
        longest_agreement(keys, top) == p,
    decreases top,
{
    if top > p {
        lemma_longest_agreement_is(keys, p, (top - 1) as nat);
    }
}

/// The number of most significant bits that all keys of `data` share; 0
/// for a training set without entries.
pub fn common_prefix_size(data: &ModelData) -> (prefix: u8)
    ensures
        prefix == common_prefix_len(keys_of(data@)),
        prefix <= 64,
{
    let n = data.len();
    if n == 0 {
        return 0;
    }
    let ghost keys = keys_of(data@);
    let first = data.get_key(0);
    let mut p: u64 = 64;
    let mut i: usize = 0;
    while i < n
        invariant
            i <= n,
            n == data@.len(),
            keys == keys_of(data@),
            first == keys[0],
            p <= 64,
            forall|k: int| 0 <= k < i ==> agree_on_top(first, #[trigger] keys[k], p as nat),
            p < 64 ==> exists|k: int| 0 <= k < i && !agree_on_top(first, keys[k], (p + 1) as nat),
        decreases n - i,
    {
        let key = data.get_key(i);
        let ghost before = p;
        while p > 0 && (first >> (64 - p)) != (key >> (64 - p))
            invariant
                p <= before <= 64,
                0 <= i < n,
                key == keys[i as int],
                p < before ==> !agree_on_top(first, key, (p + 1) as nat),
            decreases p,
        {
            p -= 1;
        }
        proof {
            if p == 0 {
                lemma_agreement_on_nothing(first, key);
            }
            assert forall|k: int| 0 <= k < i + 1 implies agree_on_top(
                first,
                #[trigger] keys[k],
                p as nat,
            ) by {
                if k < i {
                    lemma_agreement_shrinks(first, keys[k], p as nat, before as nat);
                }
            }
            if p < 64 {
                if p < before {
                    assert(!agree_on_top(first, keys[i as int], (p + 1) as nat));
                } else {
                    let k = choose|k: int|
                        0 <= k < i && !agree_on_top(first, keys[k], (p + 1) as nat);
                    assert(0 <= k < i + 1 && !agree_on_top(first, keys[k], (p + 1) as nat));
                }
            }
        }
        i += 1;
    }
    proof {
        assert(all_agree_on_top(keys, p as nat));
        assert forall|q: nat| p < q <= 64 implies !all_agree_on_top(keys, q) by {
            let k = choose|k: int| 0 <= k < n && !agree_on_top(first, keys[k], (p + 1) as nat);
            if agree_on_top(first, keys[k], q) {
                lemma_agreement_shrinks(first, keys[k], (p + 1) as nat, q);
            }
        }
        lemma_longest_agreement_is(keys, p as nat, 64);
    }
    p as u8
}

/// The field of `bits` bits that follows the `prefix` most significant bits
/// of `key`, as a number. Where the field reaches past the least
/// significant bit, the missing bits count as zero. A field of no bits, and
/// one that begins after the last bit, is 0.
pub open spec fn bit_field(key: u64, prefix: nat, bits: nat) -> u64 {
    if bits == 0 || bits > 64 || prefix >= 64 {
        0
    } else {
        (key << (prefix as u64)) >> ((64 - bits) as u64)
    }
}

/// A field of `bits` bits is a number below `2^bits`.
pub proof fn lemma_bit_field_range(key: u64, prefix: nat, bits: nat)
    requires
        bits <= 64,
    ensures
        bit_field(key, prefix, bits) < pow2(bits),
{
    lemma_pow2_pos(bits);
    if !(bits == 0 || prefix >= 64) {
        let shifted: u64 = key << (prefix as u64);
        let shift: u64 = (64 - bits) as u64;
        if shift == 0 {
            assert(shifted >> 0u64 == shifted) by (bit_vector);
            lemma2_to64_rest();
        } else {
            lemma_u64_shr_is_div(shifted, shift);
            lemma_pow2_adds(shift as nat, bits);
            lemma_pow2_pos(shift as nat);
            lemma2_to64_rest();
            lemma_multiply_divide_lt(shifted as int, pow2(shift as nat) as int, pow2(bits) as int);
        }
    }
}

/// Clearing the prefix and shifting the field down gives the same number
/// as shifting the prefix out and the field down, where prefix and field
/// fit in the key.
pub proof fn lemma_bit_field_by_clearing(key: u64, prefix: u64, bits: u64)
    requires
        prefix + bits <= 64,
        bits >= 1,
    ensures
        ((key << prefix) >> prefix) >> ((64 - (prefix + bits)) as u64) == bit_field(
            key,
            prefix as nat,
            bits as nat,
        ),
{
    let shifted: u64 = key << prefix;
    let rest: u64 = (64 - (prefix + bits)) as u64;
    let both: u64 = (64 - bits) as u64;
    lemma_u64_shr_is_div(shifted, prefix);
    lemma_u64_shr_is_div(shifted >> prefix, rest);
    lemma_u64_shr_is_div(shifted, both);
    lemma_pow2_adds(prefix as nat, rest as nat);
    lemma_pow2_pos(prefix as nat);
    lemma_pow2_pos(rest as nat);
    lemma_div_denominator(shifted as int, pow2(prefix as nat) as int, pow2(rest as nat) as int);
}

/// Among keys that share their `prefix` most significant bits, a larger key
/// has no smaller field behind the prefix.
pub proof fn lemma_bit_field_monotonic(a: u64, b: u64, prefix: nat, bits: nat)
    requires
        a <= b,
        agree_on_top(a, b, prefix),
        bits <= 64,
    ensures
        bit_field(a, prefix, bits) <= bit_field(b, prefix, bits),
{
    if !(bits == 0 || prefix >= 64) {
        let p: u64 = prefix as u64;
        let s: u64 = (64 - bits) as u64;
        let t: u64 = (64 - prefix) as u64;
        let high: u64 = b << p;
        let low: u64 = a << p;
        assert(a << p <= b << p) by (bit_vector)
            requires
                a <= b,
                a >> t == b >> t,
                t == 64 - p,
                p < 64,
        ;
        assert(low >> s <= high >> s) by (bit_vector)
            requires
                low <= high,
                s <= 64,
        ;
    }
}

/// The field of `bits` bits that follows the `prefix` most significant bits
/// of `key`.
pub fn extract_bits(key: u64, prefix: u8, bits: u8) -> (field: u64)
    requires
        bits <= 64,
    ensures
        field == bit_field(key, prefix as nat, bits as nat),
        field < pow2(bits as nat),
{
    proof {
        lemma_bit_field_range(key, prefix as nat, bits as nat);
    }
    if bits == 0 || prefix >= 64 {
        0
    } else {
        (key << (prefix as u64)) >> ((64 - bits) as u64)
    }
}

} // verus!
