//! Byte strings: lexicographic order, conversion, big-endian integers.

use vstd::prelude::*;

use crate::order;
use crate::sorted_map::{Key, Precedence};
use crate::text;

verus! {

/// Whether `a` and `b` agree before `i`, and `a` then ends or has the lesser byte.
pub open spec fn parts_at(a: Seq<u8>, b: Seq<u8>, i: int) -> bool {
    &&& 0 <= i <= a.len()
    &&& i < b.len()
    &&& forall|j: int| 0 <= j < i ==> a[j] == b[j]
    &&& i == a.len() || a[i] < b[i]
}

/// Lexicographic order of byte strings.
pub open spec fn bytes_less(a: Seq<u8>, b: Seq<u8>) -> bool {
    exists|i: int| parts_at(a, b, i)
}

/// Whether `s` starts with `prefix`.
pub open spec fn starts_with(s: Seq<u8>, prefix: Seq<u8>) -> bool {
    &&& prefix.len() <= s.len()
    &&& s.take(prefix.len() as int) == prefix
}

proof fn lemma_bytes_less_total(a: Seq<u8>, b: Seq<u8>, i: int)
    requires
        0 <= i <= a.len(),
        i <= b.len(),
        forall|j: int| 0 <= j < i ==> a[j] == b[j],
        a != b,
    ensures
        bytes_less(a, b) || bytes_less(b, a),
    decreases a.len() - i,
{
    if i == a.len() {
        if i == b.len() {
            assert(a =~= b);
        }
        assert(parts_at(a, b, i));
    } else if i == b.len() {
        assert(parts_at(b, a, i));
    } else if a[i] < b[i] {
        assert(parts_at(a, b, i));
    } else if b[i] < a[i] {
        assert(parts_at(b, a, i));
    } else {
        lemma_bytes_less_total(a, b, i + 1);
    }
}

proof fn lemma_bytes_less_transitive(a: Seq<u8>, b: Seq<u8>, c: Seq<u8>)
    requires
        bytes_less(a, b),
        bytes_less(b, c),
    ensures
        bytes_less(a, c),
{
    let i = choose|i: int| parts_at(a, b, i);
    let j = choose|j: int| parts_at(b, c, j);
    if i <= j {
        assert(parts_at(a, c, i));
    } else {
        assert(parts_at(a, c, j));
    }
}

/// Lexicographic order is a strict total order.
pub proof fn lemma_bytes_order()
    ensures
        order::strict_order(|a: Seq<u8>, b: Seq<u8>| bytes_less(a, b)),
{
    let lt = |a: Seq<u8>, b: Seq<u8>| bytes_less(a, b);
    assert forall|a: Seq<u8>, b: Seq<u8>, c: Seq<u8>| #[trigger] lt(a, b) && #[trigger] lt(b, c) implies lt(a, c) by {
        lemma_bytes_less_transitive(a, b, c);
    }
    assert forall|a: Seq<u8>, b: Seq<u8>| a != b implies #[trigger] lt(a, b) || lt(b, a) by {
        lemma_bytes_less_total(a, b, 0);
    }
    assert forall|a: Seq<u8>| !(#[trigger] lt(a, a)) by {
        if bytes_less(a, a) {
            let i = choose|i: int| parts_at(a, a, i);
            assert(a[i] < a[i]);
        }
    }
}

/// Compares two byte strings lexicographically.
pub fn bytes_precede(a: &[u8], b: &[u8]) -> (p: Precedence)
    ensures
        p is Before <==> bytes_less(a@, b@),
        p is Same <==> a@ == b@,
        p is After <==> bytes_less(b@, a@),
{
    let mut i: usize = 0;
    proof {
        lemma_bytes_order();
    }
    let ghost lt = |x: Seq<u8>, y: Seq<u8>| bytes_less(x, y);
    while i < a.len() && i < b.len()
        invariant
            i <= a.len(),
            i <= b.len(),
            forall|j: int| 0 <= j < i ==> a@[j] == b@[j],
            lt == (|x: Seq<u8>, y: Seq<u8>| bytes_less(x, y)),
            order::strict_order(lt),
        decreases a.len() - i,
    {
        if a[i] < b[i] {
            assert(parts_at(a@, b@, i as int));
            assert(lt(a@, b@));
            assert(lt(b@, a@) ==> lt(a@, a@));
            assert(!lt(a@, a@));
            return Precedence::Before;
        }
        if b[i] < a[i] {
            assert(parts_at(b@, a@, i as int));
            assert(lt(b@, a@));
            assert(lt(a@, b@) ==> lt(a@, a@));
            assert(!lt(a@, a@));
            return Precedence::After;
        }
        i += 1;
    }
    assert(!lt(a@, a@));
    if i < b.len() {
        assert(parts_at(a@, b@, i as int));
        assert(lt(a@, b@));
        assert(lt(b@, a@) ==> lt(a@, a@));
        Precedence::Before
    } else if i < a.len() {
        assert(parts_at(b@, a@, i as int));
        assert(lt(b@, a@));
        assert(lt(a@, b@) ==> lt(a@, a@));
        Precedence::After
    } else {
        assert(a@ =~= b@);
        Precedence::Same
    }
}

/// Tests for a prefix.
pub fn has_prefix(s: &[u8], prefix: &[u8]) -> (r: bool)
    ensures
        r == starts_with(s@, prefix@),
{
    if s.len() < prefix.len() {
        return false;
    }
    let mut i: usize = 0;
    while i < prefix.len()
        invariant
            i <= prefix.len() <= s.len(),
            forall|j: int| 0 <= j < i ==> s@[j] == prefix@[j],
        decreases prefix.len() - i,
    {
        if s[i] != prefix[i] {
            assert(s@.take(prefix@.len() as int)[i as int] != prefix@[i as int]);
            return false;
        }
        i += 1;
    }
    assert(s@.take(prefix@.len() as int) =~= prefix@);
    true
}

/// The strings with a given prefix stand together: whatever comes at or after
/// the prefix and before some string that has it, has it too.
pub proof fn lemma_prefix_contiguous(prefix: Seq<u8>, s: Seq<u8>, t: Seq<u8>)
    requires
        starts_with(t, prefix),
        !bytes_less(s, prefix),
        bytes_less(s, t),
    ensures
        starts_with(s, prefix),
{
    let i = choose|i: int| parts_at(s, t, i);
    assert forall|j: int| 0 <= j < prefix.len() implies t[j] == prefix[j] by {
        assert(t.take(prefix.len() as int)[j] == t[j]);
    }
    if i < prefix.len() {
        assert(parts_at(s, prefix, i));
    }
    assert(s.take(prefix.len() as int) =~= prefix);
}

/// A string that starts with a prefix does not come before it.
pub proof fn lemma_prefix_first(prefix: Seq<u8>, s: Seq<u8>)
    requires
        starts_with(s, prefix),
    ensures
        !bytes_less(s, prefix),
{
    if bytes_less(s, prefix) {
        let i = choose|i: int| parts_at(s, prefix, i);
        assert(s.take(prefix.len() as int)[i] == s[i]);
    }
}

impl Key for Vec<u8> {
    open spec fn less(a: Seq<u8>, b: Seq<u8>) -> bool {
        bytes_less(a, b)
    }

    proof fn lemma_order() {
        lemma_bytes_order();
        let bl = |a: Seq<u8>, b: Seq<u8>| bytes_less(a, b);
        let lt = |a: Seq<u8>, b: Seq<u8>| <Vec<u8> as Key>::less(a, b);
        assert(bl =~= lt);
    }

    fn precedes(&self, other: &Vec<u8>) -> (p: Precedence) {
        bytes_precede(self.as_slice(), other.as_slice())
    }
}

impl Key for String {
    open spec fn less(a: Seq<char>, b: Seq<char>) -> bool {
        bytes_less(vstd::utf8::encode_utf8(a), vstd::utf8::encode_utf8(b))
    }

    proof fn lemma_order() {
        lemma_bytes_order();
        let bl = |a: Seq<u8>, b: Seq<u8>| bytes_less(a, b);
        let lt = |a: Seq<char>, b: Seq<char>| <String as Key>::less(a, b);
        assert forall|a: Seq<char>| !(#[trigger] lt(a, a)) by {
            assert(!bl(vstd::utf8::encode_utf8(a), vstd::utf8::encode_utf8(a)));
        }
        assert forall|a: Seq<char>, b: Seq<char>, c: Seq<char>| #[trigger] lt(a, b) && #[trigger] lt(b, c) implies lt(a, c) by {
            assert(bl(vstd::utf8::encode_utf8(a), vstd::utf8::encode_utf8(b)));
            assert(bl(vstd::utf8::encode_utf8(b), vstd::utf8::encode_utf8(c)));
        }
        assert forall|a: Seq<char>, b: Seq<char>| a != b implies #[trigger] lt(a, b) || lt(b, a) by {
            lemma_encoding_injective(a, b);
            assert(bl(vstd::utf8::encode_utf8(a), vstd::utf8::encode_utf8(b)) || bl(
                vstd::utf8::encode_utf8(b),
                vstd::utf8::encode_utf8(a),
            ));
        }
    }

    fn precedes(&self, other: &String) -> (p: Precedence) {
        proof {
            lemma_encoding_injective(self@, other@);
        }
        bytes_precede(self.as_str().as_bytes(), other.as_str().as_bytes())
    }
}

/// Different texts have different encodings.
pub proof fn lemma_encoding_injective(a: Seq<char>, b: Seq<char>)
    ensures
        vstd::utf8::encode_utf8(a) == vstd::utf8::encode_utf8(b) <==> a == b,
{
    vstd::utf8::encode_utf8_decode_utf8(a);
    vstd::utf8::encode_utf8_decode_utf8(b);
}

/// A copy of a byte string.
pub fn copy_bytes(s: &[u8]) -> (v: Vec<u8>)
    ensures
        v@ == s@,
{
    let mut v: Vec<u8> = Vec::with_capacity(s.len());
    let mut i: usize = 0;
    while i < s.len()
        invariant
            i <= s.len(),
            v@ == s@.take(i as int),
        decreases s.len() - i,
    {
        v.push(s[i]);
        assert(s@.take(i + 1) =~= s@.take(i as int).push(s@[i as int]));
        i += 1;
    }
    assert(s@.take(s@.len() as int) =~= s@);
    v
}

/// What a key can be made from.
pub trait IntoBytes: Sized {
    /// The bytes that the value stands for.
    spec fn bytes(&self) -> Seq<u8>;

    /// Hands the bytes over.
    fn into_bytes(self) -> (v: Vec<u8>)
        ensures
            v@ == self.bytes(),
    ;
}

impl IntoBytes for Vec<u8> {
    open spec fn bytes(&self) -> Seq<u8> {
        self@
    }

    fn into_bytes(self) -> (v: Vec<u8>) {
        self
    }
}

impl IntoBytes for &[u8] {
    open spec fn bytes(&self) -> Seq<u8> {
        (*self)@
    }

    fn into_bytes(self) -> (v: Vec<u8>) {
        copy_bytes(self)
    }
}

impl IntoBytes for &str {
    open spec fn bytes(&self) -> Seq<u8> {
        vstd::utf8::encode_utf8((*self)@)
    }

    fn into_bytes(self) -> (v: Vec<u8>) {
        text::bytes_of(self)
    }
}

impl IntoBytes for String {
    open spec fn bytes(&self) -> Seq<u8> {
        vstd::utf8::encode_utf8(self@)
    }

    fn into_bytes(self) -> (v: Vec<u8>) {
        text::bytes_of(self.as_str())
    }
}

/// The big-endian bytes of a 32-bit number.
pub open spec fn be32(n: u32) -> Seq<u8> {
    seq![
        (n / 0x100_0000) as u8,
        (n / 0x1_0000 % 256) as u8,
        (n / 0x100 % 256) as u8,
        (n % 256) as u8,
    ]
}

/// The big-endian bytes of a 64-bit number.
pub open spec fn be64(n: u64) -> Seq<u8> {
    be32((n / 0x1_0000_0000) as u32) + be32((n % 0x1_0000_0000) as u32)
}

/// The 32-bit number whose big-endian bytes are at `at`.
pub open spec fn from_be32(s: Seq<u8>, at: int) -> int {
    s[at] * 0x100_0000 + s[at + 1] * 0x1_0000 + s[at + 2] * 0x100 + s[at + 3]
}

/// The 64-bit number in the first eight bytes.
pub open spec fn from_be64(s: Seq<u8>) -> int {
    from_be32(s, 0) * 0x1_0000_0000 + from_be32(s, 4)
}

/// Reading back what was written gives the number.
pub proof fn lemma_be64_round_trip(n: u64)
    ensures
        be64(n).len() == 8,
        from_be64(be64(n)) == n,
{
    let hi = (n / 0x1_0000_0000) as u32;
    let lo = (n % 0x1_0000_0000) as u32;
    lemma_be32_round_trip(hi);
    lemma_be32_round_trip(lo);
    let s = be64(n);
    assert(from_be32(s, 0) == from_be32(be32(hi), 0));
    assert(from_be32(s, 4) == from_be32(be32(lo), 0));
}

proof fn lemma_be32_round_trip(n: u32)
    ensures
        from_be32(be32(n), 0) == n,
{
}

/// Writes a 32-bit number in big-endian order.
pub fn be32_bytes(n: u32) -> (v: Vec<u8>)
    ensures
        v@ == be32(n),
{
    let mut v: Vec<u8> = Vec::with_capacity(4);
    v.push((n / 0x100_0000) as u8);
    v.push((n / 0x1_0000 % 256) as u8);
    v.push((n / 0x100 % 256) as u8);
    v.push((n % 256) as u8);
    assert(v@ =~= be32(n));
    v
}

/// Writes a 64-bit number in big-endian order.
pub fn be64_bytes(n: u64) -> (v: Vec<u8>)
    ensures
        v@ == be64(n),
{
    let mut v = be32_bytes((n / 0x1_0000_0000) as u32);
    let mut w = be32_bytes((n % 0x1_0000_0000) as u32);
    v.append(&mut w);
    v
}

/// Reads the 64-bit number in the first eight bytes.
pub fn read_be64(s: &[u8]) -> (n: u64)
    requires
        s@.len() >= 8,
    ensures
        n == from_be64(s@),
{
    let hi: u64 = s[0] as u64 * 0x100_0000 + s[1] as u64 * 0x1_0000 + s[2] as u64 * 0x100 + s[3] as u64;
    let lo: u64 = s[4] as u64 * 0x100_0000 + s[5] as u64 * 0x1_0000 + s[6] as u64 * 0x100 + s[7] as u64;
    hi * 0x1_0000_0000 + lo
}

/// Big-endian bytes: each is worth 256 times the next, and eight of them, so counted, make
/// up the number that they were written for.
pub proof fn law_big_endian(n: u64, s: Seq<u8>)
    requires
        s.len() == 8,
    ensures
        from_be64(s) == s[0] * 72057594037927936 + s[1] * 281474976710656 + s[2] * 1099511627776 + s[3] * 4294967296
            + s[4] * 16777216 + s[5] * 65536 + s[6] * 256 + s[7],
        be64(n).len() == 8,
        from_be64(be64(n)) == n,
{
    lemma_be64_round_trip(n);
}

} // verus!
