//! Base-128 variable length integers, least significant group first.
use vstd::prelude::*;
use vstd::arithmetic::power2::pow2;
use vstd::arithmetic::power2::{
    lemma2_to64, lemma2_to64_rest, lemma_pow2_adds, lemma_pow2_strictly_increases,
};
use vstd::bits::lemma_u64_shl_is_mul;

verus! {

/// The longest encoding that is read.
pub const MAX_VARINT_BYTES: usize = 10;

/// The number of bytes at the front of `data` that have their top bit set.
pub open spec fn continuation_len(data: Seq<u8>) -> nat
    decreases data.len(),
{
    if data.len() == 0 || data[0] < 0x80 {
        0
    } else {
        1 + continuation_len(data.skip(1))
    }
}

/// The number whose base-128 digits are the low seven bits of `bytes`, least significant first.
pub open spec fn base128(bytes: Seq<u8>) -> nat
    decreases bytes.len(),
{
    if bytes.len() == 0 {
        0
    } else {
        bytes[0] as nat % 128 + 128 * base128(bytes.skip(1))
    }
}

/// Whether `data` starts with a terminated integer of at most ten bytes.
pub open spec fn has_varint(data: Seq<u8>) -> bool {
    continuation_len(data) < data.len() && continuation_len(data) < MAX_VARINT_BYTES
}

/// How many bytes the integer at the front of `data` takes.
pub open spec fn varint_len(data: Seq<u8>) -> nat {
    continuation_len(data) + 1
}

/// The integer at the front of `data`, not reduced to any width.
pub open spec fn varint_value(data: Seq<u8>) -> nat {
    base128(data.take(varint_len(data) as int))
}

/// The integer at the front of `data` modulo 2^64, and how many bytes it takes.
pub open spec fn varint(data: Seq<u8>) -> Option<(nat, nat)> {
    if has_varint(data) {
        Some((varint_value(data) % 0x1_0000_0000_0000_0000, varint_len(data)))
    } else {
        None
    }
}

/// Appending a byte puts its seven bits above all others.
proof fn lemma_base128_push(bytes: Seq<u8>, b: u8)
    ensures
        base128(bytes.push(b)) == base128(bytes) + pow2(7 * bytes.len()) * (b as nat % 128),
    decreases bytes.len(),
{
    lemma2_to64();
    let d = b as nat % 128;
    if bytes.len() == 0 {
        assert(bytes.push(b).skip(1) =~= bytes);
        assert(pow2(7 * bytes.len()) == 1);
    } else {
        let t = bytes.skip(1);
        let p = pow2(7 * t.len());
        assert(bytes.push(b).skip(1) =~= t.push(b));
        lemma_base128_push(t, b);
        lemma_pow2_adds(7, 7 * t.len());
        assert(pow2(7 * bytes.len()) == 128 * p);
        assert(128 * (base128(t) + p * d) == 128 * base128(t) + (128 * p) * d) by (nonlinear_arith);
    }
}

/// `n` groups of seven bits hold less than 2^(7n).
proof fn lemma_base128_bound(bytes: Seq<u8>)
    ensures
        base128(bytes) < pow2(7 * bytes.len()),
    decreases bytes.len(),
{
    lemma2_to64();
    if bytes.len() > 0 {
        lemma_base128_bound(bytes.skip(1));
        lemma_pow2_adds(7, 7 * bytes.skip(1).len());
    }
}

proof fn lemma_continuation_len(data: Seq<u8>, i: int)
    requires
        0 <= i <= data.len(),
        forall|j: int| 0 <= j < i ==> #[trigger] data[j] >= 0x80,
    ensures
        continuation_len(data) >= i,
        i < data.len() && data[i] < 0x80 ==> continuation_len(data) == i,
        i == data.len() ==> continuation_len(data) == i,
    decreases data.len(),
{
    if data.len() > 0 && i > 0 {
        assert(data[0] >= 0x80);
        assert forall|j: int| 0 <= j < i - 1 implies #[trigger] data.skip(1)[j] >= 0x80 by {
            assert(data[j + 1] >= 0x80);
        }
        lemma_continuation_len(data.skip(1), i - 1);
    }
}

/// Reads the integer at the front of `data`, and tells how many bytes it takes. Bits past the
/// 64th are dropped; `None` where no byte among the first ten ends the integer.
pub fn decode_varint(data: &[u8]) -> (r: Option<(u64, usize)>)
    ensures
        r is Some <==> varint(data@) is Some,
        r matches Some((value, len)) ==> varint(data@) == Some((value as nat, len as nat)),
{
    let mut result: u64 = 0;
    let mut shift: u32 = 0;
    let mut i: usize = 0;
    proof {
        lemma2_to64();
        lemma2_to64_rest();
        assert(data@.take(0).len() == 0);
    }
    while i < data.len()
        invariant
            i <= data@.len(),
            i <= MAX_VARINT_BYTES,
            shift == 7 * i,
            i < MAX_VARINT_BYTES ==> result == base128(data@.take(i as int)),
            forall|j: int| 0 <= j < i ==> #[trigger] data@[j] >= 0x80,
        decreases data.len() - i,
    {
        if i >= MAX_VARINT_BYTES {
            proof {
                lemma_continuation_len(data@, i as int);
            }
            return None;
        }
        let byte = data[i];
        let group: u64 = (byte & 0x7F) as u64;
        proof {
            assert(data@.take(i + 1) =~= data@.take(i as int).push(byte));
            lemma_base128_push(data@.take(i as int), byte);
            lemma_base128_bound(data@.take(i as int));
            lemma_or_group(result, byte, i as nat);
        }
        result = result | (group << shift);
        if byte & 0x80 == 0 {
            proof {
                assert(byte & 0x80 == 0 ==> byte < 0x80) by (bit_vector);
                lemma_continuation_len(data@, i as int);
            }
            return Some((result, i + 1));
        }
        proof {
            assert(byte & 0x80 != 0 ==> byte >= 0x80) by (bit_vector);
        }
        shift = shift + 7;
        i = i + 1;
    }
    proof {
        lemma_continuation_len(data@, i as int);
    }
    None
}

/// Setting the seven bits of `byte` above the `7 * i` bits of `low` adds them.
proof fn lemma_or_group(low: u64, byte: u8, i: nat)
    requires
        i < MAX_VARINT_BYTES,
        low < pow2(7 * i),
    ensures
        ({
            let shift = (7 * i) as u32;
            let group = (byte & 0x7F) as u64;
            let sum = low + pow2(7 * i) * (byte as nat % 128);
            &&& (low | (group << shift)) == sum % 0x1_0000_0000_0000_0000
            &&& i + 1 < MAX_VARINT_BYTES ==> sum < 0x1_0000_0000_0000_0000
        }),
{
    lemma2_to64();
    lemma2_to64_rest();
    let shift = (7 * i) as u32;
    let group = (byte & 0x7F) as u64;
    assert((byte & 0x7F) == byte % 128) by (bit_vector);
    let g = byte as nat % 128;
    let p = pow2(7 * i);
    assert(group == g);
    if i < 9 {
        assert(p <= pow2(56)) by {
            if 7 * i < 56 {
                lemma_pow2_strictly_increases(7 * i, 56);
            }
        }
        assert(pow2(56) == 0x100_0000_0000_0000);
        assert(p * g <= 0x100_0000_0000_0000 * 127) by (nonlinear_arith)
            requires
                p <= 0x100_0000_0000_0000,
                g <= 127,
        ;
        assert(g * p == p * g) by (nonlinear_arith);
        lemma_u64_shl_is_mul(group, shift as u64);
        lemma_u64_shl_is_mul(1, shift as u64);
        assert(group << shift == p * g);
        assert((low | (group << shift)) == low + (group << shift)) by (bit_vector)
            requires
                low < (1u64 << shift),
                group <= 127,
                shift <= 56,
        ;
        let sum = low + p * g;
        assert(sum < 0x1_0000_0000_0000_0000);
        assert(sum % 0x1_0000_0000_0000_0000 == sum);
    } else {
        assert(p == 0x8000_0000_0000_0000);
        assert((low | (group << 63u32)) == low + (group % 2) * 0x8000_0000_0000_0000) by (bit_vector)
            requires
                low < 0x8000_0000_0000_0000,
                group <= 127,
        ;
        assert(p * g == 0x8000_0000_0000_0000 * g);
        assert((low + 0x8000_0000_0000_0000 * g) % 0x1_0000_0000_0000_0000 == low + (g % 2)
            * 0x8000_0000_0000_0000);
    }
}

/// The shortest encoding of `n`.
pub open spec fn varint_bytes(n: nat) -> Seq<u8>
    decreases n,
{
    if n < 128 {
        seq![n as u8]
    } else {
        seq![(n % 128 + 128) as u8] + varint_bytes(n / 128)
    }
}

/// What `varint` finds lies inside `data`, takes one to ten bytes and fits in 64 bits.
pub proof fn lemma_varint_bounds(data: Seq<u8>)
    ensures
        varint(data) matches Some((value, len)) ==> {
            &&& 1 <= len <= MAX_VARINT_BYTES
            &&& len <= data.len()
            &&& value <= u64::MAX
        },
{
}

proof fn lemma_varint_bytes(n: nat, rest: Seq<u8>)
    ensures
        varint_bytes(n).len() > 0,
        continuation_len(varint_bytes(n) + rest) == varint_bytes(n).len() - 1,
        base128(varint_bytes(n)) == n,
    decreases n,
{
    let bytes = varint_bytes(n);
    if n < 128 {
        assert(bytes.skip(1).len() == 0);
        assert(base128(bytes.skip(1)) == 0);
    } else {
        let tail = varint_bytes(n / 128);
        lemma_varint_bytes(n / 128, rest);
        assert((bytes + rest).skip(1) =~= tail + rest);
        assert(bytes.skip(1) =~= tail);
        assert(bytes[0] as nat % 128 == n % 128);
    }
}

proof fn lemma_varint_bytes_len(n: nat, k: nat)
    requires
        n < pow2(7 * k),
        k > 0,
    ensures
        varint_bytes(n).len() <= k,
    decreases k,
{
    lemma2_to64();
    if n >= 128 {
        lemma_pow2_adds(7, (7 * (k - 1)) as nat);
        if k == 1 {
            assert(pow2(7 * k) == 128);
        } else {
            assert(n / 128 < pow2((7 * (k - 1)) as nat));
            lemma_varint_bytes_len(n / 128, (k - 1) as nat);
        }
    }
}

/// Law: the encoding of any 64-bit number reads back as that number, whatever follows it.
pub proof fn law_varint_round_trip(n: u64, rest: Seq<u8>)
    ensures
        varint(varint_bytes(n as nat) + rest) == Some((n as nat, varint_bytes(n as nat).len())),
        varint_value(varint_bytes(n as nat) + rest) == n,
{
    let bytes = varint_bytes(n as nat);
    lemma_varint_bytes(n as nat, rest);
    lemma2_to64();
    lemma2_to64_rest();
    lemma_pow2_adds(64, 6);
    lemma_varint_bytes_len(n as nat, 10);
    assert((bytes + rest).take(bytes.len() as int) =~= bytes);
}

/// Law: reading an integer looks at no byte past its end.
pub proof fn law_varint_reads_only_its_bytes(data: Seq<u8>, tail: Seq<u8>)
    requires
        varint(data) is Some,
    ensures
        varint(data.take(varint_len(data) as int) + tail) == varint(data),
{
    let n = varint_len(data) as int;
    let other = data.take(n) + tail;
    lemma_continuation_bytes(data);
    assert forall|j: int| 0 <= j < n - 1 implies #[trigger] other[j] >= 0x80 by {
        assert(other[j] == data[j]);
    }
    lemma_continuation_len(other, n - 1);
    assert(other.take(n) =~= data.take(n));
}

proof fn lemma_continuation_bytes(data: Seq<u8>)
    ensures
        continuation_len(data) <= data.len(),
        forall|j: int| 0 <= j < continuation_len(data) ==> #[trigger] data[j] >= 0x80,
        continuation_len(data) < data.len() ==> data[continuation_len(data) as int] < 0x80,
    decreases data.len(),
{
    if data.len() > 0 && data[0] >= 0x80 {
        let t = data.skip(1);
        lemma_continuation_bytes(t);
        assert forall|j: int| 0 <= j < continuation_len(data) implies #[trigger] data[j] >= 0x80 by {
            if j > 0 {
                assert(t[j - 1] >= 0x80);
            }
        }
    }
}

/// Law: what bytes read as follows from the first of them and from what the others read as. A byte
/// under 128 is a number of its own. Any other byte puts its low seven bits below the number behind
/// it, of which 64 bits count, as long as ten bytes are enough. No bytes are no number.
pub proof fn law_varint_by_first_byte(first: u8, rest: Seq<u8>)
    ensures
        varint(Seq::empty()) is None,
        first < 128 ==> varint(seq![first] + rest) == Some((first as nat, 1nat)),
        first >= 128 ==> varint(seq![first] + rest) == match varint(rest) {
            Some((value, len)) if len < 10 => Some(
                (((first - 128) + 128 * value) as nat % 0x1_0000_0000_0000_0000, len + 1),
            ),
            _ => None,
        },
{
    let data = seq![first] + rest;
    assert(data.skip(1) =~= rest);
    if first < 128 {
        assert(data.take(1).skip(1) =~= Seq::<u8>::empty());
        assert(base128(Seq::<u8>::empty()) == 0);
        assert(base128(data.take(1)) == first as nat % 128);
    } else if has_varint(rest) {
        let len = varint_len(rest);
        let full = varint_value(rest);
        assert(data.take(len as int + 1).skip(1) =~= rest.take(len as int));
        assert(varint_value(data) == first as nat % 128 + 128 * full) by {
            assert(data.take(len as int + 1)[0] == first);
        }
        lemma_low_bits(first as nat % 128, full);
        assert(first as nat % 128 == first - 128);
    }
}

proof fn lemma_low_bits(low: nat, high: nat)
    ensures
        (low + 128 * high) % 0x1_0000_0000_0000_0000 == (low + 128 * (high
            % 0x1_0000_0000_0000_0000)) % 0x1_0000_0000_0000_0000,
{
    let m: int = 0x1_0000_0000_0000_0000;
    let q = high as int / m;
    let r = high as int % m;
    assert(high == m * q + r);
    assert(low + 128 * high == m * (128 * q) + (low + 128 * r));
    vstd::arithmetic::div_mod::lemma_mod_multiples_vanish(128 * q, low + 128 * r, m);
}

/// Law: a number fits in 64 bits if and only if it takes fewer than ten bytes or its tenth byte is 0
/// or 1.
pub proof fn law_varint_fits(data: Seq<u8>)
    requires
        has_varint(data),
    ensures
        varint_value(data) <= u64::MAX <==> varint_len(data) < 10 || data[9] <= 1,
{
    let n = varint_len(data);
    let bytes = data.take(n as int);
    lemma2_to64();
    lemma2_to64_rest();
    lemma_continuation_bytes(data);
    assert(pow2(63) == 0x8000_0000_0000_0000);
    if n < 10 {
        lemma_base128_bound(bytes);
        assert(bytes.len() == n);
        if 7 * n < 63 {
            lemma_pow2_strictly_increases(7 * n, 63);
        }
        assert(pow2(7 * n) <= pow2(63));
        assert(varint_value(data) <= u64::MAX);
    } else {
        let low = data.take(9);
        let d = data[9] as nat;
        assert(n == 10);
        assert(bytes =~= low.push(data[9]));
        lemma_base128_push(low, data[9]);
        lemma_base128_bound(low);
        assert(7 * low.len() == 63);
        assert(d % 128 == d);
        assert(varint_value(data) == base128(low) + 0x8000_0000_0000_0000 * d);
    }
}

} // verus!
