//! How numbered objects spread over buckets: among as few as a thousand of them, with
//! any name in front of the number, every one of 128 buckets has some.

use vstd::prelude::*;

use crate::bytes;
use crate::cluster;
use crate::metadata;
use crate::text;
use crate::types;
use crate::types::{BucketId, TenantId};

verus! {

/// What a step of the hash does to its last seven bits.
spec fn low_step(x: u64, b: u64) -> u64 {
    (((x ^ b) * 51) % 128) as u64
}

spec fn two_steps(x: u64, a: u64, b: u64) -> u64 {
    low_step(low_step(x, a), b)
}

/// The last seven bits of a product of 64 bits come from those of its factors.
proof fn lemma_low_product(z: int)
    ensures
        (z * 0x100_0000_01b3) % 0x1_0000_0000_0000_0000 % 128 == ((z % 128) * 51) % 128,
{
    vstd::arithmetic::div_mod::lemma_mod_mod(z * 0x100_0000_01b3, 128, 0x200_0000_0000_0000);
    vstd::arithmetic::div_mod::lemma_mul_mod_noop(z, 0x100_0000_01b3, 128);
}

/// The last seven bits of a hash depend on the last seven bits before, and on the
/// byte.
proof fn lemma_low_bits(h: u64, b: u8)
    requires
        b < 128,
    ensures
        types::fnv_step(h, b) % 128 == low_step(h % 128, b as u64),
{
    let c = b as u64;
    let z = h ^ c;
    let y = (h % 128) ^ c;
    assert(z % 128 == y) by (bit_vector)
        requires
            c < 128,
            z == h ^ c,
            y == (h % 128) ^ c,
    ;
    lemma_low_product(z as int);
    assert(types::fnv_step(h, b) == (z * 0x100_0000_01b3) % 0x1_0000_0000_0000_0000);
}

/// Whatever the last seven bits are, two digits lead to any four bits above the last
/// three.
proof fn lemma_two_digits(x: u64, h: u64) -> (r: (u64, u64))
    requires
        x < 128,
        h < 16,
    ensures
        49 <= r.0 <= 57,
        48 <= r.1 <= 57,
        two_steps(x, r.0, r.1) >> 3 == h,
{
    assert(
        x < 128 && h < 16 ==> two_steps(x, 49, 48) >> 3 == h
            || two_steps(x, 49, 49) >> 3 == h
            || two_steps(x, 49, 50) >> 3 == h
            || two_steps(x, 49, 51) >> 3 == h
            || two_steps(x, 49, 55) >> 3 == h
            || two_steps(x, 50, 49) >> 3 == h
            || two_steps(x, 50, 53) >> 3 == h
            || two_steps(x, 50, 54) >> 3 == h
            || two_steps(x, 50, 55) >> 3 == h
            || two_steps(x, 51, 48) >> 3 == h
            || two_steps(x, 51, 49) >> 3 == h
            || two_steps(x, 51, 51) >> 3 == h
            || two_steps(x, 51, 52) >> 3 == h
            || two_steps(x, 51, 53) >> 3 == h
            || two_steps(x, 51, 56) >> 3 == h
            || two_steps(x, 52, 49) >> 3 == h
            || two_steps(x, 52, 53) >> 3 == h
            || two_steps(x, 53, 48) >> 3 == h
            || two_steps(x, 53, 49) >> 3 == h
            || two_steps(x, 53, 50) >> 3 == h
            || two_steps(x, 53, 51) >> 3 == h
            || two_steps(x, 53, 52) >> 3 == h
            || two_steps(x, 54, 54) >> 3 == h
            || two_steps(x, 54, 55) >> 3 == h
            || two_steps(x, 55, 48) >> 3 == h
            || two_steps(x, 55, 50) >> 3 == h
            || two_steps(x, 55, 51) >> 3 == h
            || two_steps(x, 55, 52) >> 3 == h
            || two_steps(x, 55, 54) >> 3 == h
    ) by (bit_vector);
    if two_steps(x, 49, 48) >> 3 == h {
        (49, 48)
    } else if two_steps(x, 49, 49) >> 3 == h {
        (49, 49)
    } else if two_steps(x, 49, 50) >> 3 == h {
        (49, 50)
    } else if two_steps(x, 49, 51) >> 3 == h {
        (49, 51)
    } else if two_steps(x, 49, 55) >> 3 == h {
        (49, 55)
    } else if two_steps(x, 50, 49) >> 3 == h {
        (50, 49)
    } else if two_steps(x, 50, 53) >> 3 == h {
        (50, 53)
    } else if two_steps(x, 50, 54) >> 3 == h {
        (50, 54)
    } else if two_steps(x, 50, 55) >> 3 == h {
        (50, 55)
    } else if two_steps(x, 51, 48) >> 3 == h {
        (51, 48)
    } else if two_steps(x, 51, 49) >> 3 == h {
        (51, 49)
    } else if two_steps(x, 51, 51) >> 3 == h {
        (51, 51)
    } else if two_steps(x, 51, 52) >> 3 == h {
        (51, 52)
    } else if two_steps(x, 51, 53) >> 3 == h {
        (51, 53)
    } else if two_steps(x, 51, 56) >> 3 == h {
        (51, 56)
    } else if two_steps(x, 52, 49) >> 3 == h {
        (52, 49)
    } else if two_steps(x, 52, 53) >> 3 == h {
        (52, 53)
    } else if two_steps(x, 53, 48) >> 3 == h {
        (53, 48)
    } else if two_steps(x, 53, 49) >> 3 == h {
        (53, 49)
    } else if two_steps(x, 53, 50) >> 3 == h {
        (53, 50)
    } else if two_steps(x, 53, 51) >> 3 == h {
        (53, 51)
    } else if two_steps(x, 53, 52) >> 3 == h {
        (53, 52)
    } else if two_steps(x, 54, 54) >> 3 == h {
        (54, 54)
    } else if two_steps(x, 54, 55) >> 3 == h {
        (54, 55)
    } else if two_steps(x, 55, 48) >> 3 == h {
        (55, 48)
    } else if two_steps(x, 55, 50) >> 3 == h {
        (55, 50)
    } else if two_steps(x, 55, 51) >> 3 == h {
        (55, 51)
    } else if two_steps(x, 55, 52) >> 3 == h {
        (55, 52)
    } else {
        (55, 54)
    }
}

/// A third digit leads to the three bits that are left.
proof fn lemma_third_digit(y: u64, t: u64) -> (c: u64)
    requires
        y < 128,
        t < 128,
        y >> 3 == ((((t * 123) % 128) as u64) ^ 48) >> 3,
    ensures
        48 <= c <= 57,
        low_step(y, c) == t,
{
    let u = ((t * 123) % 128) as u64;
    let d = (y ^ u) ^ 48;
    let c = (48 + d) as u64;
    assert(d < 8 && (y ^ c) == u) by (bit_vector)
        requires
            y < 128,
            u < 128,
            y >> 3 == (u ^ 48) >> 3,
            d == (y ^ u) ^ 48,
            c == (48 + d) as u64,
    ;
    assert(low_step(y, c) == t) by (bit_vector)
        requires
            t < 128,
            (y ^ c) == u,
            u == ((t * 123) % 128) as u64,
    ;
    c
}

/// Texts one after the other are encoded one after the other.
proof fn lemma_encoded_concat(a: Seq<char>, b: Seq<char>)
    ensures
        vstd::utf8::encode_utf8(a + b) == vstd::utf8::encode_utf8(a) + vstd::utf8::encode_utf8(b),
    decreases a.len(),
{
    if a.len() == 0 {
        assert(a + b =~= b);
        assert(vstd::utf8::encode_utf8(a) + vstd::utf8::encode_utf8(b) =~= vstd::utf8::encode_utf8(b));
    } else {
        assert((a + b).drop_first() =~= a.drop_first() + b);
        assert((a + b)[0] == a[0]);
        lemma_encoded_concat(a.drop_first(), b);
        assert(vstd::utf8::encode_utf8(a + b) =~= vstd::utf8::encode_utf8(a) + vstd::utf8::encode_utf8(b));
    }
}

/// A number of three digits is written as these digits.
proof fn lemma_three_digits(a: nat, b: nat, c: nat)
    requires
        1 <= a <= 9,
        b <= 9,
        c <= 9,
    ensures
        vstd::utf8::encode_utf8(text::decimal(100 * a + 10 * b + c)) == seq![
            (48 + a) as u8,
            (48 + b) as u8,
            (48 + c) as u8,
        ],
{
    let n = 100 * a + 10 * b + c;
    reveal_with_fuel(text::decimal, 3);
    let s = text::decimal(n);
    assert(n / 10 == 10 * a + b && n % 10 == c);
    assert((n / 10) / 10 == a && (n / 10) % 10 == b);
    assert(s =~= seq![text::digit(a), text::digit(b), text::digit(c)]);
    assert(vstd::utf8::is_ascii_chars(s));
    vstd::utf8::is_ascii_chars_encode_utf8(s);
    let e = vstd::utf8::encode_utf8(s);
    assert(e[0] == s[0] as u8 && e[1] == s[1] as u8 && e[2] == s[2] as u8);
    assert(e =~= seq![(48 + a) as u8, (48 + b) as u8, (48 + c) as u8]);
}

/// The bucket, among 128, of an object whose name ends in a number.
pub open spec fn numbered_bucket(tenant: TenantId, name: Seq<char>, n: nat) -> BucketId {
    metadata::bucket_of(cluster::object_key(tenant, name + text::decimal(n)), 128)
}

/// Among the objects of a tenant whose names differ in a number of three digits at
/// their end only, there is one for each of 128 buckets.
pub proof fn law_every_bucket_gets_a_numbered_object(tenant: TenantId, name: Seq<char>, bucket: BucketId) -> (n: nat)
    requires
        bucket.0 < 128,
    ensures
        100 <= n < 1000,
        numbered_bucket(tenant, name, n) == bucket,
{
    let start = bytes::be32(tenant.0) + vstd::utf8::encode_utf8(name);
    let t = bucket.0 as u64;
    let x = (types::fnv1a(start) % 128) as u64;
    let u = ((t * 123) % 128) as u64;
    let h = (u ^ 48) >> 3;
    assert(h < 16) by (bit_vector)
        requires
            u < 128,
            h == (u ^ 48) >> 3,
    ;
    let (a, b) = lemma_two_digits(x, h);
    let y = two_steps(x, a, b);
    let c = lemma_third_digit(y, t);
    let (i, j, k) = ((a - 48) as nat, (b - 48) as nat, (c - 48) as nat);
    let n = 100 * i + 10 * j + k;
    lemma_three_digits(i, j, k);
    lemma_encoded_concat(name, text::decimal(n));
    let one = start.push(a as u8);
    let two = one.push(b as u8);
    let three = two.push(c as u8);
    assert(one.drop_last() =~= start && two.drop_last() =~= one && three.drop_last() =~= two);
    lemma_low_bits(types::fnv1a(start), a as u8);
    lemma_low_bits(types::fnv1a(one), b as u8);
    lemma_low_bits(types::fnv1a(two), c as u8);
    assert(types::fnv1a(three) % 128 == t);
    assert(bytes::be32(tenant.0) + vstd::utf8::encode_utf8(name + text::decimal(n)) =~= three);
    n
}

/// The buckets, among 128, of the objects numbered from 0 on.
pub open spec fn buckets_hit(tenant: TenantId, name: Seq<char>, count: nat) -> Set<BucketId> {
    Set::new(|b: BucketId| exists|n: nat| n < count && #[trigger] numbered_bucket(tenant, name, n) == b)
}

/// The first so many buckets.
spec fn buckets_below(n: nat) -> Set<BucketId> {
    Set::new(|b: BucketId| b.0 < n)
}

proof fn lemma_buckets_below(n: nat)
    requires
        n <= u32::MAX,
    ensures
        buckets_below(n).finite(),
        buckets_below(n).len() == n,
    decreases n,
{
    if n == 0 {
        assert(buckets_below(n) =~= Set::empty());
    } else {
        lemma_buckets_below((n - 1) as nat);
        assert(buckets_below(n) =~= buckets_below((n - 1) as nat).insert(BucketId((n - 1) as u32)));
    }
}

/// A thousand or more numbered objects of a tenant, with whatever name in front, are
/// spread over all of 128 buckets.
pub proof fn law_numbered_objects_spread(tenant: TenantId, name: Seq<char>, count: nat)
    requires
        count >= 1000,
    ensures
        buckets_hit(tenant, name, count).finite(),
        buckets_hit(tenant, name, count).len() == 128,
        forall|b: BucketId| #[trigger] buckets_hit(tenant, name, count).contains(b) <==> b.0 < 128,
{
    let hit = buckets_hit(tenant, name, count);
    assert forall|b: BucketId| #[trigger] hit.contains(b) <==> b.0 < 128 by {
        if b.0 < 128 {
            let n = law_every_bucket_gets_a_numbered_object(tenant, name, b);
            assert(n < count && numbered_bucket(tenant, name, n) == b);
        }
    }
    lemma_buckets_below(128);
    assert(hit =~= buckets_below(128));
}

} // verus!
