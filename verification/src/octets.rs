//! Byte strings: lexicographic comparison, ASCII case folding and
//! big-endian integers.

use vstd::prelude::*;

verus! {

/// Lexicographic comparison of two byte strings: `-1`, `0` or `1`.
///
/// A string that is a proper prefix of another sorts before it.
pub open spec fn compare_bytes(a: Seq<u8>, b: Seq<u8>) -> i8
    decreases a.len(),
{
    if a.len() == 0 {
        if b.len() == 0 { 0i8 } else { -1i8 }
    } else if b.len() == 0 {
        1i8
    } else if a[0] < b[0] {
        -1i8
    } else if a[0] > b[0] {
        1i8
    } else {
        compare_bytes(a.drop_first(), b.drop_first())
    }
}

/// The ASCII lowercase form of a byte.
pub open spec fn lower_byte(b: u8) -> u8 {
    if 65 <= b && b <= 90 { (b + 32) as u8 } else { b }
}

/// Two octets that are the same letter in either case, or the same octet.
pub open spec fn same_ignoring_case(x: u8, y: u8) -> bool {
    ||| x == y
    ||| 65 <= x <= 90 && y == x + 32
    ||| 65 <= y <= 90 && x == y + 32
}

/// ASCII case folding maps 'A' to 'Z' onto 'a' to 'z' and keeps every other
/// octet; octets that are the same letter in either case fold to the same
/// octet.
pub proof fn lemma_case_folding(x: u8, y: u8)
    ensures
        65 <= x <= 90 ==> lower_byte(x) == x + 32,
        !(65 <= x <= 90) ==> lower_byte(x) == x,
        lower_byte(x) == lower_byte(y) <==> same_ignoring_case(x, y),
{
}

/// A byte string with every ASCII uppercase letter replaced by its lowercase form.
pub open spec fn lower_bytes(s: Seq<u8>) -> Seq<u8> {
    s.map_values(|b: u8| lower_byte(b))
}

/// The two octets of `v` in network (big-endian) order.
pub open spec fn be_u16(v: u16) -> Seq<u8> {
    seq![(v / 256) as u8, (v % 256) as u8]
}

/// The value of two octets read in network (big-endian) order.
pub open spec fn u16_from_be(hi: u8, lo: u8) -> u16 {
    (hi * 256 + lo) as u16
}

/// Comparison of two integers as `-1`, `0` or `1`.
pub open spec fn compare_u16(a: u16, b: u16) -> i8 {
    if a < b { -1i8 } else if a == b { 0i8 } else { 1i8 }
}

/// Swapping two byte strings reverses their ordering.
pub proof fn lemma_compare_bytes_antisymmetric(a: Seq<u8>, b: Seq<u8>)
    ensures
        compare_bytes(a, b) == -compare_bytes(b, a),
    decreases a.len(),
{
    if a.len() > 0 && b.len() > 0 && a[0] == b[0] {
        lemma_compare_bytes_antisymmetric(a.drop_first(), b.drop_first());
    }
}

/// Byte strings compare equal exactly when they are equal.
pub proof fn lemma_compare_bytes_zero(a: Seq<u8>, b: Seq<u8>)
    ensures
        (compare_bytes(a, b) == 0) == (a == b),
    decreases a.len(),
{
    if a.len() == 0 && b.len() == 0 {
        assert(a =~= b);
    }
    if a.len() > 0 && b.len() > 0 && a[0] == b[0] {
        lemma_compare_bytes_zero(a.drop_first(), b.drop_first());
        if a.drop_first() == b.drop_first() {
            assert(a =~= seq![a[0]] + a.drop_first());
            assert(b =~= seq![b[0]] + b.drop_first());
        }
    }
}

/// The ordering of byte strings is transitive.
pub proof fn lemma_compare_bytes_transitive(a: Seq<u8>, b: Seq<u8>, c: Seq<u8>)
    requires
        compare_bytes(a, b) <= 0,
        compare_bytes(b, c) <= 0,
    ensures
        compare_bytes(a, c) <= 0,
        compare_bytes(a, b) < 0 || compare_bytes(b, c) < 0 ==> compare_bytes(a, c) < 0,
    decreases a.len(),
{
    if a.len() > 0 && b.len() > 0 && c.len() > 0 && a[0] == b[0] && b[0] == c[0] {
        lemma_compare_bytes_transitive(a.drop_first(), b.drop_first(), c.drop_first());
    }
}

/// Byte strings are ordered by their first differing octet, and a proper
/// prefix sorts first.
pub proof fn lemma_compare_bytes_first_difference(a: Seq<u8>, b: Seq<u8>, i: int)
    requires
        0 <= i <= a.len(),
        i <= b.len(),
        a.take(i) == b.take(i),
    ensures
        i < a.len() && i < b.len() && a[i] < b[i] ==> compare_bytes(a, b) == -1,
        i < a.len() && i < b.len() && a[i] > b[i] ==> compare_bytes(a, b) == 1,
        i == a.len() && i < b.len() ==> compare_bytes(a, b) == -1,
        i < a.len() && i == b.len() ==> compare_bytes(a, b) == 1,
    decreases i,
{
    if i > 0 {
        assert(a[0] == a.take(i)[0]);
        assert(b[0] == b.take(i)[0]);
        assert(a.drop_first().take(i - 1) =~= a.take(i).drop_first());
        assert(b.drop_first().take(i - 1) =~= b.take(i).drop_first());
        lemma_compare_bytes_first_difference(a.drop_first(), b.drop_first(), i - 1);
    }
}

/// Comparing two concatenations whose first parts have the same length:
/// the first parts decide unless they are equal.
pub proof fn lemma_compare_bytes_concat(x: Seq<u8>, y: Seq<u8>, u: Seq<u8>, v: Seq<u8>)
    requires
        x.len() == u.len(),
    ensures
        compare_bytes(x + y, u + v) == if x == u { compare_bytes(y, v) } else { compare_bytes(x, u) },
    decreases x.len(),
{
    if x.len() == 0 {
        assert(x =~= u);
        assert(x + y =~= y);
        assert(u + v =~= v);
    } else {
        assert((x + y).drop_first() =~= x.drop_first() + y);
        assert((u + v).drop_first() =~= u.drop_first() + v);
        lemma_compare_bytes_concat(x.drop_first(), y, u.drop_first(), v);
        if x[0] == u[0] && x.drop_first() == u.drop_first() {
            assert(x =~= seq![x[0]] + x.drop_first());
            assert(u =~= seq![u[0]] + u.drop_first());
        }
        if x == u {
            assert(x.drop_first() == u.drop_first());
        }
    }
}

/// The ordering of byte strings is `-1`, `0` or `1`.
pub proof fn lemma_compare_bytes_range(a: Seq<u8>, b: Seq<u8>)
    ensures
        -1 <= compare_bytes(a, b) <= 1,
    decreases a.len(),
{
    if a.len() > 0 && b.len() > 0 && a[0] == b[0] {
        lemma_compare_bytes_range(a.drop_first(), b.drop_first());
    }
}

/// Big-endian octets of two integers compare as the integers do.
pub proof fn lemma_compare_be_u16(a: u16, b: u16)
    ensures
        compare_bytes(be_u16(a), be_u16(b)) == compare_u16(a, b),
{
    reveal_with_fuel(compare_bytes, 3);
    let sa = be_u16(a);
    let sb = be_u16(b);
    assert(sa.drop_first().drop_first().len() == 0);
    assert(sb.drop_first().drop_first().len() == 0);
    assert(sa.drop_first()[0] == sa[1]);
    assert(sb.drop_first()[0] == sb[1]);
    assert(a == (a / 256) * 256 + a % 256);
    assert(b == (b / 256) * 256 + b % 256);
}

/// Reading the big-endian octets of a number gives it back.
pub proof fn lemma_be_u16_roundtrip(v: u16)
    ensures
        u16_from_be(be_u16(v)[0], be_u16(v)[1]) == v,
        be_u16(v).len() == 2,
{
}

/// Writing a number read from two octets gives the octets back.
pub proof fn lemma_u16_from_be_roundtrip(hi: u8, lo: u8)
    ensures
        be_u16(u16_from_be(hi, lo)) == seq![hi, lo],
{
    let v = u16_from_be(hi, lo);
    assert(v / 256 == hi);
    assert(v % 256 == lo);
    assert(be_u16(v) =~= seq![hi, lo]);
}

/// Compares two byte strings lexicographically.
pub fn compare_slices(a: &[u8], b: &[u8]) -> (r: i8)
    ensures
        r == compare_bytes(a@, b@),
{
    let mut i: usize = 0;
    assert(a@.skip(0) =~= a@);
    assert(b@.skip(0) =~= b@);
    while i < a.len() && i < b.len()
        invariant
            i <= a.len(),
            i <= b.len(),
            compare_bytes(a@, b@) == compare_bytes(a@.skip(i as int), b@.skip(i as int)),
        decreases a.len() - i,
    {
        if a[i] < b[i] {
            return -1;
        }
        if a[i] > b[i] {
            return 1;
        }
        assert(a@.skip(i as int).drop_first() =~= a@.skip(i + 1));
        assert(b@.skip(i as int).drop_first() =~= b@.skip(i + 1));
        i = i + 1;
    }
    if i < a.len() {
        1
    } else if i < b.len() {
        -1
    } else {
        0
    }
}

/// The ASCII lowercase form of a byte.
pub fn to_lower(b: u8) -> (r: u8)
    ensures
        r == lower_byte(b),
{
    if 65 <= b && b <= 90 {
        b + 32
    } else {
        b
    }
}

/// A copy of `s` with ASCII letters in lowercase.
pub fn lowercase(s: &[u8]) -> (r: Vec<u8>)
    ensures
        r@ == lower_bytes(s@),
{
    let mut r: Vec<u8> = Vec::with_capacity(s.len());
    let mut i: usize = 0;
    while i < s.len()
        invariant
            i <= s.len(),
            r@ =~= lower_bytes(s@.take(i as int)),
        decreases s.len() - i,
    {
        r.push(to_lower(s[i]));
        assert(lower_bytes(s@.take(i + 1)) =~= lower_bytes(s@.take(i as int)).push(lower_byte(s@[i as int])));
        i = i + 1;
    }
    assert(s@.take(s.len() as int) =~= s@);
    r
}

/// A copy of `s` as a vector.
pub fn copy_bytes(s: &[u8]) -> (r: Vec<u8>)
    ensures
        r@ == s@,
{
    let mut r: Vec<u8> = Vec::with_capacity(s.len());
    let mut i: usize = 0;
    while i < s.len()
        invariant
            i <= s.len(),
            r@ =~= s@.take(i as int),
        decreases s.len() - i,
    {
        r.push(s[i]);
        i = i + 1;
    }
    assert(s@.take(s.len() as int) =~= s@);
    r
}

/// A copy of the octets of `s` from `start` up to `end`.
pub fn copy_range(s: &[u8], start: usize, end: usize) -> (r: Vec<u8>)
    requires
        start <= end <= s.len(),
    ensures
        r@ == s@.subrange(start as int, end as int),
{
    let mut r: Vec<u8> = Vec::with_capacity(end - start);
    let mut i: usize = start;
    while i < end
        invariant
            start <= i <= end,
            end <= s.len(),
            r@ =~= s@.subrange(start as int, i as int),
        decreases end - i,
    {
        r.push(s[i]);
        i = i + 1;
    }
    r
}

/// Compares two byte strings lexicographically after ASCII case folding.
pub fn compare_slices_lower(a: &[u8], b: &[u8]) -> (r: i8)
    ensures
        r == compare_bytes(lower_bytes(a@), lower_bytes(b@)),
{
    let la = lowercase(a);
    let lb = lowercase(b);
    compare_slices(la.as_slice(), lb.as_slice())
}

} // verus!
