//! Domain names as sequences of labels: their wire format, their
//! case-insensitive equality and their orderings.

use vstd::prelude::*;
use core::cmp::Ordering;

use crate::builder::{Builder, ShortBuf};
use crate::octets::{
    compare_bytes, compare_slices, copy_bytes, compare_slices_lower, lemma_compare_bytes_antisymmetric,
    lemma_compare_bytes_concat, lemma_compare_bytes_range, lemma_compare_bytes_transitive,
    lemma_case_folding, lemma_compare_bytes_zero, lower_bytes, lowercase, same_ignoring_case,
};

verus! {

/// A label in wire format: its length octet followed by its octets.
pub open spec fn label_wire(l: Seq<u8>) -> Seq<u8> {
    seq![l.len() as u8] + l
}

/// A sequence of labels in wire format, without compression.
pub open spec fn name_wire(ls: Seq<Seq<u8>>) -> Seq<u8>
    decreases ls.len(),
{
    if ls.len() == 0 {
        Seq::empty()
    } else {
        name_wire(ls.drop_last()) + label_wire(ls.last())
    }
}

/// The labels held in a vector of label vectors.
pub open spec fn vec_labels(v: Seq<Vec<u8>>) -> Seq<Seq<u8>> {
    v.map_values(|l: Vec<u8>| l@)
}

/// Every label in ASCII lowercase.
pub open spec fn lower_labels(ls: Seq<Seq<u8>>) -> Seq<Seq<u8>> {
    ls.map_values(|l: Seq<u8>| lower_bytes(l))
}

/// The labels of an absolute domain name: normal labels of one to 63
/// octets followed by the empty root label, at most 255 octets in wire format.
pub open spec fn is_name(ls: Seq<Seq<u8>>) -> bool {
    &&& ls.len() >= 1
    &&& ls.last().len() == 0
    &&& forall|i: int| 0 <= i < ls.len() - 1 ==> 1 <= #[trigger] ls[i].len() <= 63
    &&& name_wire(ls).len() <= 255
}

/// Two names are equal when their labels are, ignoring ASCII case.
pub open spec fn names_equal(a: Seq<Seq<u8>>, b: Seq<Seq<u8>>) -> bool {
    lower_labels(a) == lower_labels(b)
}

/// The canonical ordering of names: labels are compared from the root
/// towards the leftmost label, each as a lowercase octet string; a name
/// that runs out of labels first sorts first.
pub open spec fn name_compare(a: Seq<Seq<u8>>, b: Seq<Seq<u8>>) -> i8
    decreases a.len(),
{
    if a.len() == 0 {
        if b.len() == 0 { 0i8 } else { -1i8 }
    } else if b.len() == 0 {
        1i8
    } else {
        let c = compare_bytes(lower_bytes(a.last()), lower_bytes(b.last()));
        if c != 0 { c } else { name_compare(a.drop_last(), b.drop_last()) }
    }
}

/// The canonical wire format of a name: lowercase and uncompressed.
pub open spec fn canonical_wire(ls: Seq<Seq<u8>>) -> Seq<u8> {
    name_wire(lower_labels(ls))
}

/// The wire format a name is composed in, lowercase or as it is.
pub open spec fn composed_wire(ls: Seq<Seq<u8>>, lower: bool) -> Seq<u8> {
    if lower { canonical_wire(ls) } else { name_wire(ls) }
}

/// The `Ordering` that a comparison result of `-1`, `0` or `1` stands for.
pub open spec fn ordering_of(c: i8) -> Ordering {
    if c < 0 {
        Ordering::Less
    } else if c == 0 {
        Ordering::Equal
    } else {
        Ordering::Greater
    }
}

/// The wire format of concatenated label sequences is the concatenation of
/// their wire formats.
pub proof fn lemma_name_wire_concat(a: Seq<Seq<u8>>, b: Seq<Seq<u8>>)
    ensures
        name_wire(a + b) == name_wire(a) + name_wire(b),
    decreases b.len(),
{
    if b.len() == 0 {
        assert(a + b =~= a);
        assert(name_wire(a) + name_wire(b) =~= name_wire(a));
    } else {
        assert((a + b).drop_last() =~= a + b.drop_last());
        assert((a + b).last() == b.last());
        lemma_name_wire_concat(a, b.drop_last());
        assert(name_wire(a + b) =~= name_wire(a) + name_wire(b));
    }
}

/// The wire format of a label followed by more labels.
pub proof fn lemma_name_wire_cons(l: Seq<u8>, rest: Seq<Seq<u8>>)
    ensures
        name_wire(seq![l] + rest) == label_wire(l) + name_wire(rest),
{
    lemma_name_wire_concat(seq![l], rest);
    assert(seq![l].drop_last() =~= Seq::<Seq<u8>>::empty());
    assert(name_wire(Seq::<Seq<u8>>::empty()) =~= Seq::<u8>::empty());
    assert(name_wire(seq![l]) =~= label_wire(l));
}

/// The root name, whose only label is the empty root label.
pub proof fn lemma_root_is_name()
    ensures
        is_name(seq![Seq::<u8>::empty()]),
        name_wire(seq![Seq::<u8>::empty()]) == seq![0u8],
{
    lemma_name_wire_cons(Seq::<u8>::empty(), Seq::<Seq<u8>>::empty());
    assert(seq![Seq::<u8>::empty()] + Seq::<Seq<u8>>::empty() =~= seq![Seq::<u8>::empty()]);
    assert(name_wire(Seq::<Seq<u8>>::empty()) =~= Seq::<u8>::empty());
    assert(name_wire(seq![Seq::<u8>::empty()]) =~= seq![0u8]);
}

/// The wire format of the first `i + 1` labels extends that of the first `i`.
pub proof fn lemma_name_wire_take(ls: Seq<Seq<u8>>, i: int)
    requires
        0 <= i < ls.len(),
    ensures
        name_wire(ls.take(i + 1)) == name_wire(ls.take(i)) + label_wire(ls[i]),
        name_wire(ls) == name_wire(ls.take(i)) + label_wire(ls[i]) + name_wire(ls.skip(i + 1)),
{
    assert(ls.take(i + 1).drop_last() =~= ls.take(i));
    assert(ls.take(i + 1) + ls.skip(i + 1) =~= ls);
    lemma_name_wire_concat(ls.take(i + 1), ls.skip(i + 1));
}

/// The wire format of the labels from `i` on.
pub proof fn lemma_name_wire_skip(ls: Seq<Seq<u8>>, i: int)
    requires
        0 <= i < ls.len(),
    ensures
        name_wire(ls.skip(i)) == label_wire(ls[i]) + name_wire(ls.skip(i + 1)),
{
    assert(ls.skip(i) =~= seq![ls[i]] + ls.skip(i + 1));
    lemma_name_wire_cons(ls[i], ls.skip(i + 1));
}

/// Lowercasing keeps the length of the wire format.
pub proof fn lemma_lower_labels_wire_len(ls: Seq<Seq<u8>>)
    ensures
        name_wire(lower_labels(ls)).len() == name_wire(ls).len(),
    decreases ls.len(),
{
    if ls.len() > 0 {
        assert(lower_labels(ls).drop_last() =~= lower_labels(ls.drop_last()));
        lemma_lower_labels_wire_len(ls.drop_last());
    }
}

/// The canonical wire format of labels of at most 63 octets is their wire
/// format with ASCII letters in lowercase.
pub proof fn lemma_canonical_wire_lowercase(ls: Seq<Seq<u8>>)
    requires
        forall|i: int| 0 <= i < ls.len() ==> #[trigger] ls[i].len() <= 63,
    ensures
        canonical_wire(ls) == lower_bytes(name_wire(ls)),
    decreases ls.len(),
{
    if ls.len() == 0 {
        assert(lower_bytes(name_wire(ls)) =~= Seq::<u8>::empty());
        assert(canonical_wire(ls) =~= Seq::<u8>::empty());
    } else {
        let init = ls.drop_last();
        let l = ls.last();
        assert forall|i: int| 0 <= i < init.len() implies #[trigger] init[i].len() <= 63 by {
            assert(init[i] == ls[i]);
        }
        lemma_canonical_wire_lowercase(init);
        assert(lower_labels(ls).drop_last() =~= lower_labels(init));
        assert(lower_labels(ls).last() == lower_bytes(l));
        assert(l.len() <= 63);
        assert(lower_bytes(name_wire(init) + label_wire(l)) =~= lower_bytes(name_wire(init))
            + lower_bytes(label_wire(l)));
        assert(lower_bytes(label_wire(l)) =~= label_wire(lower_bytes(l)));
    }
}

/// The canonical wire format of a name is its wire format with ASCII
/// letters in lowercase.
pub proof fn lemma_name_canonical_wire_lowercase(ls: Seq<Seq<u8>>)
    requires
        is_name(ls),
    ensures
        canonical_wire(ls) == lower_bytes(name_wire(ls)),
{
    assert forall|i: int| 0 <= i < ls.len() implies #[trigger] ls[i].len() <= 63 by {
        if i == ls.len() - 1 {
            assert(ls[i] == ls.last());
        }
    }
    lemma_canonical_wire_lowercase(ls);
}

/// Lowercasing a name gives a name.
pub proof fn lemma_lower_is_name(ls: Seq<Seq<u8>>)
    requires
        is_name(ls),
    ensures
        is_name(lower_labels(ls)),
{
    lemma_lower_labels_wire_len(ls);
    let ll = lower_labels(ls);
    assert forall|i: int| 0 <= i < ll.len() - 1 implies 1 <= #[trigger] ll[i].len() <= 63 by {
        assert(ll[i].len() == ls[i].len());
    }
}

/// Comparing label wire formats followed by more octets: differing length
/// octets or differing labels decide, equal labels defer to what follows.
pub proof fn lemma_compare_label_wire_concat(p: Seq<u8>, q: Seq<u8>, y: Seq<u8>, v: Seq<u8>)
    requires
        p.len() < 256,
        q.len() < 256,
    ensures
        compare_bytes(label_wire(p) + y, label_wire(q) + v) == if p == q {
            compare_bytes(y, v)
        } else {
            compare_bytes(label_wire(p), label_wire(q))
        },
{
    let x = label_wire(p);
    let u = label_wire(q);
    if p.len() == q.len() {
        lemma_compare_bytes_concat(x, y, u, v);
        if x == u {
            assert(p =~= x.drop_first());
            assert(q =~= u.drop_first());
        }
    } else {
        assert((x + y)[0] == x[0]);
        assert((u + v)[0] == u[0]);
        assert(x[0] != u[0]);
    }
}

/// Swapping two names reverses their canonical ordering.
pub proof fn lemma_name_compare_antisymmetric(a: Seq<Seq<u8>>, b: Seq<Seq<u8>>)
    ensures
        name_compare(a, b) == -name_compare(b, a),
    decreases a.len(),
{
    if a.len() > 0 && b.len() > 0 {
        lemma_compare_bytes_antisymmetric(lower_bytes(a.last()), lower_bytes(b.last()));
        lemma_name_compare_antisymmetric(a.drop_last(), b.drop_last());
    }
}

/// The canonical ordering of names is `-1`, `0` or `1`.
pub proof fn lemma_name_compare_range(a: Seq<Seq<u8>>, b: Seq<Seq<u8>>)
    ensures
        -1 <= name_compare(a, b) <= 1,
    decreases a.len(),
{
    if a.len() > 0 && b.len() > 0 {
        lemma_compare_bytes_range(lower_bytes(a.last()), lower_bytes(b.last()));
        lemma_name_compare_range(a.drop_last(), b.drop_last());
    }
}

/// The canonical ordering finds two names equal exactly when they are,
/// ignoring ASCII case.
pub proof fn lemma_name_compare_zero(a: Seq<Seq<u8>>, b: Seq<Seq<u8>>)
    ensures
        (name_compare(a, b) == 0) == names_equal(a, b),
    decreases a.len(),
{
    let la = lower_labels(a);
    let lb = lower_labels(b);
    if a.len() == 0 || b.len() == 0 {
        if a.len() == 0 && b.len() == 0 {
            assert(la =~= lb);
        } else {
            assert(la.len() != lb.len());
        }
    } else {
        lemma_compare_bytes_zero(lower_bytes(a.last()), lower_bytes(b.last()));
        lemma_name_compare_zero(a.drop_last(), b.drop_last());
        assert(la.drop_last() =~= lower_labels(a.drop_last()));
        assert(lb.drop_last() =~= lower_labels(b.drop_last()));
        assert(la.last() == lower_bytes(a.last()));
        assert(lb.last() == lower_bytes(b.last()));
        if la == lb {
            assert(la.drop_last() == lb.drop_last());
        }
        if la.drop_last() == lb.drop_last() && la.last() == lb.last() {
            assert(la =~= la.drop_last().push(la.last()));
            assert(lb =~= lb.drop_last().push(lb.last()));
        }
    }
}

/// The canonical ordering of names is transitive.
pub proof fn lemma_name_compare_transitive(a: Seq<Seq<u8>>, b: Seq<Seq<u8>>, c: Seq<Seq<u8>>)
    requires
        name_compare(a, b) <= 0,
        name_compare(b, c) <= 0,
    ensures
        name_compare(a, c) <= 0,
        name_compare(a, b) < 0 || name_compare(b, c) < 0 ==> name_compare(a, c) < 0,
    decreases a.len(),
{
    if a.len() > 0 && b.len() > 0 && c.len() > 0 {
        let x = lower_bytes(a.last());
        let y = lower_bytes(b.last());
        let z = lower_bytes(c.last());
        lemma_compare_bytes_range(x, y);
        lemma_compare_bytes_range(y, z);
        lemma_compare_bytes_zero(x, y);
        lemma_compare_bytes_zero(y, z);
        if compare_bytes(x, y) == 0 && compare_bytes(y, z) == 0 {
            lemma_name_compare_transitive(a.drop_last(), b.drop_last(), c.drop_last());
        } else {
            lemma_compare_bytes_transitive(x, y, z);
        }
    }
}

/// Two label sequences that differ at most in the ASCII case of letters.
pub open spec fn differ_only_in_case(a: Seq<Seq<u8>>, b: Seq<Seq<u8>>) -> bool {
    &&& a.len() == b.len()
    &&& forall|i: int| 0 <= i < a.len() ==> #[trigger] a[i].len() == b[i].len()
    &&& forall|i: int, j: int|
        0 <= i < a.len() && 0 <= j < a[i].len() ==> same_ignoring_case(#[trigger] a[i][j], b[i][j])
}

/// Names that differ only in the ASCII case of letters are equal, and
/// their canonical wire formats are the same.
pub proof fn lemma_case_insensitive_names(a: Seq<Seq<u8>>, b: Seq<Seq<u8>>)
    requires
        differ_only_in_case(a, b),
    ensures
        names_equal(a, b),
        canonical_wire(a) == canonical_wire(b),
        name_compare(a, b) == 0,
{
    assert forall|i: int| 0 <= i < a.len() implies lower_bytes(#[trigger] a[i]) =~= lower_bytes(b[i]) by {
        assert forall|j: int| 0 <= j < a[i].len() implies lower_bytes(a[i])[j] == lower_bytes(b[i])[j] by {
            lemma_case_folding(a[i][j], b[i][j]);
        }
    }
    assert(lower_labels(a) =~= lower_labels(b)) by {
        assert forall|i: int| 0 <= i < a.len() implies lower_labels(a)[i] == lower_labels(b)[i] by {
            assert(lower_bytes(a[i]) =~= lower_bytes(b[i]));
        }
    }
    lemma_name_compare_zero(a, b);
}

/// A name sorts before every name below it: adding labels in front of a
/// name makes it sort after it.
pub proof fn lemma_name_compare_ancestor(a: Seq<Seq<u8>>, x: Seq<Seq<u8>>)
    requires
        x.len() > 0,
    ensures
        name_compare(a, x + a) == -1,
        name_compare(x + a, a) == 1,
    decreases a.len(),
{
    if a.len() == 0 {
        assert(x + a =~= x);
    } else {
        let l = a.last();
        assert((x + a).last() == l);
        assert((x + a).drop_last() =~= x + a.drop_last());
        lemma_compare_bytes_zero(lower_bytes(l), lower_bytes(l));
        lemma_name_compare_ancestor(a.drop_last(), x);
    }
}

/// Names that agree in their labels nearest the root, `s`, and differ
/// (ignoring case) in the next label compare as those labels do, whatever
/// labels stand before them and however many.
pub proof fn lemma_name_compare_first_difference(
    xa: Seq<Seq<u8>>,
    la: Seq<u8>,
    xb: Seq<Seq<u8>>,
    lb: Seq<u8>,
    s: Seq<Seq<u8>>,
)
    requires
        lower_bytes(la) != lower_bytes(lb),
    ensures
        name_compare(xa + seq![la] + s, xb + seq![lb] + s) == compare_bytes(
            lower_bytes(la),
            lower_bytes(lb),
        ),
        name_compare(xa + seq![la] + s, xb + seq![lb] + s) != 0,
    decreases s.len(),
{
    let a = xa + seq![la] + s;
    let b = xb + seq![lb] + s;
    lemma_compare_bytes_zero(lower_bytes(la), lower_bytes(lb));
    if s.len() == 0 {
        assert(a.last() == la);
        assert(b.last() == lb);
    } else {
        let l = s.last();
        assert(a.last() == l);
        assert(b.last() == l);
        assert(a.drop_last() =~= xa + seq![la] + s.drop_last());
        assert(b.drop_last() =~= xb + seq![lb] + s.drop_last());
        lemma_compare_bytes_zero(lower_bytes(l), lower_bytes(l));
        lemma_name_compare_first_difference(xa, la, xb, lb, s.drop_last());
    }
}

/// A domain name that the library can compare and compose.
pub trait ToDname: Sized {
    /// The labels of the name, from the leftmost one to the root label.
    spec fn label_seq(&self) -> Seq<Seq<u8>>;

    /// The labels always form an absolute domain name.
    proof fn lemma_label_seq_is_name(&self)
        ensures
            is_name(self.label_seq()),
    ;

    /// The number of labels, the root label included.
    fn label_count(&self) -> (n: usize)
        ensures
            n == self.label_seq().len(),
    ;

    /// The octets of the label at index `i`.
    fn label_at(&self, i: usize) -> (l: &[u8])
        requires
            i < self.label_seq().len(),
        ensures
            l@ == self.label_seq()[i as int],
    ;

}

/// Whether two names are equal, ignoring ASCII case.
pub fn name_eq<A: ToDname, B: ToDname>(a: &A, b: &B) -> (r: bool)
    ensures
        r == names_equal(a.label_seq(), b.label_seq()),
{
    let ghost sa = a.label_seq();
    let ghost sb = b.label_seq();
    let n = a.label_count();
    if n != b.label_count() {
        assert(lower_labels(sa).len() != lower_labels(sb).len());
        return false;
    }
    let mut i: usize = 0;
    while i < n
        invariant
            n == sa.len(),
            n == sb.len(),
            i <= n,
            sa == a.label_seq(),
            sb == b.label_seq(),
            forall|j: int| 0 <= j < i ==> lower_bytes(#[trigger] sa[j]) == lower_bytes(sb[j]),
        decreases n - i,
    {
        let c = compare_slices_lower(a.label_at(i), b.label_at(i));
        proof {
            lemma_compare_bytes_zero(lower_bytes(sa[i as int]), lower_bytes(sb[i as int]));
        }
        if c != 0 {
            assert(lower_labels(sa)[i as int] != lower_labels(sb)[i as int]);
            return false;
        }
        i = i + 1;
    }
    assert(lower_labels(sa) =~= lower_labels(sb));
    true
}

/// The canonical ordering of two names.
pub fn name_cmp<A: ToDname, B: ToDname>(a: &A, b: &B) -> (r: Ordering)
    ensures
        r == ordering_of(name_compare(a.label_seq(), b.label_seq())),
{
    ordering_from(compare_names(a, b))
}

/// The ordering of the lowercase wire formats of two names.
pub fn lowercase_composed_cmp<A: ToDname, B: ToDname>(a: &A, b: &B) -> (r: Ordering)
    ensures
        r == ordering_of(compare_bytes(canonical_wire(a.label_seq()), canonical_wire(b.label_seq()))),
{
    ordering_from(compare_canonical_names(a, b))
}

/// Appends the wire format of a name, or nothing if it does not fit.
pub fn compose_name<A: ToDname>(name: &A, target: &mut Builder) -> (r: Result<(), ShortBuf>)
    ensures
        final(target)@.limit == old(target)@.limit,
        r is Ok <==> old(target)@.bytes.len() + name_wire(name.label_seq()).len()
            <= old(target)@.limit,
        r is Ok ==> final(target)@.bytes == old(target)@.bytes + name_wire(name.label_seq()),
        r is Err ==> final(target)@.bytes == old(target)@.bytes,
{
    compose_labels(name, target, false)
}

/// Appends the canonical (lowercase) wire format of a name, or nothing if it
/// does not fit.
pub fn compose_name_canonical<A: ToDname>(name: &A, target: &mut Builder) -> (r: Result<
    (),
    ShortBuf,
>)
    ensures
        final(target)@.limit == old(target)@.limit,
        r is Ok <==> old(target)@.bytes.len() + canonical_wire(name.label_seq()).len()
            <= old(target)@.limit,
        r is Ok ==> final(target)@.bytes == old(target)@.bytes + canonical_wire(name.label_seq()),
        r is Err ==> final(target)@.bytes == old(target)@.bytes,
{
    compose_labels(name, target, true)
}

/// The `Ordering` for a comparison result of `-1`, `0` or `1`.
pub fn ordering_from(c: i8) -> (r: Ordering)
    ensures
        r == ordering_of(c),
{
    if c < 0 {
        Ordering::Less
    } else if c == 0 {
        Ordering::Equal
    } else {
        Ordering::Greater
    }
}

/// The canonical ordering of two names as `-1`, `0` or `1`.
fn compare_names<A: ToDname, B: ToDname>(a: &A, b: &B) -> (r: i8)
    ensures
        r == name_compare(a.label_seq(), b.label_seq()),
{
    let ghost sa = a.label_seq();
    let ghost sb = b.label_seq();
    let na = a.label_count();
    let nb = b.label_count();
    let mut i: usize = 0;
    assert(sa.take(na as int) =~= sa);
    assert(sb.take(nb as int) =~= sb);
    while i < na && i < nb
        invariant
            na == sa.len(),
            nb == sb.len(),
            i <= na,
            i <= nb,
            sa == a.label_seq(),
            sb == b.label_seq(),
            name_compare(sa, sb) == name_compare(sa.take(na - i), sb.take(nb - i)),
        decreases na - i,
    {
        let ia = na - 1 - i;
        let ib = nb - 1 - i;
        let c = compare_slices_lower(a.label_at(ia), b.label_at(ib));
        assert(sa.take(na - i).last() == sa[ia as int]);
        assert(sb.take(nb - i).last() == sb[ib as int]);
        assert(sa.take(na - i).drop_last() =~= sa.take(na - i - 1));
        assert(sb.take(nb - i).drop_last() =~= sb.take(nb - i - 1));
        if c != 0 {
            return c;
        }
        i = i + 1;
    }
    if i < na {
        1
    } else if i < nb {
        -1
    } else {
        0
    }
}

/// The ordering of the lowercase wire formats of two names as `-1`, `0` or `1`.
fn compare_canonical_names<A: ToDname, B: ToDname>(a: &A, b: &B) -> (r: i8)
    ensures
        r == compare_bytes(canonical_wire(a.label_seq()), canonical_wire(b.label_seq())),
{
    let ghost sa = lower_labels(a.label_seq());
    let ghost sb = lower_labels(b.label_seq());
    proof {
        a.lemma_label_seq_is_name();
        b.lemma_label_seq_is_name();
        lemma_lower_is_name(a.label_seq());
        lemma_lower_is_name(b.label_seq());
    }
    let na = a.label_count();
    let nb = b.label_count();
    let mut i: usize = 0;
    assert(sa.skip(0) =~= sa);
    assert(sb.skip(0) =~= sb);
    while i < na && i < nb
        invariant
            na == sa.len(),
            nb == sb.len(),
            i <= na,
            i <= nb,
            sa == lower_labels(a.label_seq()),
            sb == lower_labels(b.label_seq()),
            is_name(sa),
            is_name(sb),
            compare_bytes(name_wire(sa), name_wire(sb)) == compare_bytes(
                name_wire(sa.skip(i as int)),
                name_wire(sb.skip(i as int)),
            ),
        decreases na - i,
    {
        let la = lowercase(a.label_at(i));
        let lb = lowercase(b.label_at(i));
        let ghost p = sa[i as int];
        let ghost q = sb[i as int];
        assert(la@ == p);
        assert(lb@ == q);
        proof {
            lemma_name_wire_skip(sa, i as int);
            lemma_name_wire_skip(sb, i as int);
            if i + 1 < na {
                assert(p.len() <= 63);
            }
            if i + 1 < nb {
                assert(q.len() <= 63);
            }
            lemma_compare_label_wire_concat(
                p,
                q,
                name_wire(sa.skip(i + 1)),
                name_wire(sb.skip(i + 1)),
            );
        }
        if la.len() < lb.len() {
            assert(label_wire(p)[0] < label_wire(q)[0]);
            return -1;
        }
        if la.len() > lb.len() {
            assert(label_wire(p)[0] > label_wire(q)[0]);
            return 1;
        }
        let c = compare_slices(la.as_slice(), lb.as_slice());
        proof {
            lemma_compare_bytes_concat(seq![p.len() as u8], p, seq![q.len() as u8], q);
            lemma_compare_bytes_zero(p, q);
        }
        if c != 0 {
            return c;
        }
        i = i + 1;
    }
    assert(sa.skip(i as int).len() == 0 ==> name_wire(sa.skip(i as int)) =~= Seq::<u8>::empty());
    assert(sb.skip(i as int).len() == 0 ==> name_wire(sb.skip(i as int)) =~= Seq::<u8>::empty());
    if i < na {
        proof {
            lemma_name_wire_skip(sa, i as int);
        }
        1
    } else if i < nb {
        proof {
            lemma_name_wire_skip(sb, i as int);
        }
        -1
    } else {
        0
    }
}

/// Appends the wire format of a name, in lowercase when `lower` is set, or
/// nothing if it does not fit.
fn compose_labels<A: ToDname>(name: &A, target: &mut Builder, lower: bool) -> (r: Result<
    (),
    ShortBuf,
>)
    ensures
        final(target)@.limit == old(target)@.limit,
        r is Ok <==> old(target)@.bytes.len() + composed_wire(name.label_seq(), lower).len()
            <= old(target)@.limit,
        r is Ok ==> final(target)@.bytes == old(target)@.bytes + composed_wire(
            name.label_seq(),
            lower,
        ),
        r is Err ==> final(target)@.bytes == old(target)@.bytes,
{
    let ghost ls = if lower { lower_labels(name.label_seq()) } else { name.label_seq() };
    proof {
        name.lemma_label_seq_is_name();
        lemma_lower_is_name(name.label_seq());
    }
    let start = target.len();
    let n = name.label_count();
    let mut i: usize = 0;
    while i < n
        invariant
            n == ls.len(),
            i <= n,
            is_name(ls),
            ls == if lower { lower_labels(name.label_seq()) } else { name.label_seq() },
            start == old(target)@.bytes.len(),
            target@.limit == old(target)@.limit,
            target@.bytes == old(target)@.bytes + name_wire(ls.take(i as int)),
            i > 0 ==> old(target)@.bytes.len() + name_wire(ls.take(i as int)).len()
                <= old(target)@.limit,
        decreases n - i,
    {
        proof {
            lemma_name_wire_take(ls, i as int);
            lemma_name_wire_concat(ls.take(i + 1), ls.skip(i + 1));
            assert(ls.take(i + 1) + ls.skip(i + 1) =~= ls);
        }
        let raw = name.label_at(i);
        let label = if lower {
            lowercase(raw)
        } else {
            copy_bytes(raw)
        };
        assert(label@ == ls[i as int]);
        assert(label.len() <= 63) by {
            if i + 1 < n {
                assert(1 <= ls[i as int].len() <= 63);
            }
        }
        let len_octet: [u8; 1] = [label.len() as u8];
        let ghost before = target@.bytes;
        match target.append_slice(&len_octet) {
            Ok(()) => {},
            Err(e) => {
                target.truncate(start);
                assert(target@.bytes =~= old(target)@.bytes);
                return Err(e);
            },
        }
        match target.append_slice(label.as_slice()) {
            Ok(()) => {},
            Err(e) => {
                target.truncate(start);
                assert(target@.bytes =~= old(target)@.bytes);
                return Err(e);
            },
        }
        assert(target@.bytes =~= old(target)@.bytes + name_wire(ls.take(i + 1)));
        i = i + 1;
    }
    assert(ls.take(n as int) =~= ls);
    Ok(())
}

/// Why labels do not form a domain name.
#[derive(Clone, Copy, Debug, PartialEq, Eq, Structural)]
pub enum NameError {
    /// A label other than the root label was empty.
    EmptyLabel,
    /// A label was longer than 63 octets.
    LongLabel,
    /// The name was longer than 255 octets in wire format.
    LongName,
}

/// The first label, from the left, that cannot stand before the root
/// label, and why.
pub open spec fn check_labels(ls: Seq<Seq<u8>>) -> Result<(), NameError>
    decreases ls.len(),
{
    if ls.len() == 0 {
        Ok(())
    } else if ls[0].len() == 0 {
        Err(NameError::EmptyLabel)
    } else if ls[0].len() > 63 {
        Err(NameError::LongLabel)
    } else {
        check_labels(ls.drop_first())
    }
}

/// The labels of the name made of `ls` and the root label, or why there is
/// no such name.
pub open spec fn name_from_labels(ls: Seq<Seq<u8>>) -> Result<Seq<Seq<u8>>, NameError> {
    match check_labels(ls) {
        Err(e) => Err(e),
        Ok(()) => if name_wire(ls.push(Seq::<u8>::empty())).len() > 255 {
            Err(NameError::LongName)
        } else {
            Ok(ls.push(Seq::<u8>::empty()))
        },
    }
}

/// Labels of one to 63 octets pass the check.
pub proof fn lemma_check_labels_ok(ls: Seq<Seq<u8>>)
    requires
        forall|i: int| 0 <= i < ls.len() ==> 1 <= #[trigger] ls[i].len() <= 63,
    ensures
        check_labels(ls) == Ok::<(), NameError>(()),
    decreases ls.len(),
{
    if ls.len() > 0 {
        assert(1 <= ls[0].len() <= 63);
        assert forall|i: int| 0 <= i < ls.drop_first().len() implies 1 <= #[trigger] ls.drop_first()[i].len() <= 63 by {
            assert(ls.drop_first()[i] == ls[i + 1]);
        }
        lemma_check_labels_ok(ls.drop_first());
    }
}

/// An absolute domain name held as its labels.
#[derive(Debug)]
pub struct Dname {
    labels: Vec<Vec<u8>>,
}

impl Dname {
    /// The labels as they are stored.
    pub closed spec fn stored(&self) -> Seq<Seq<u8>> {
        vec_labels(self.labels@)
    }

    #[verifier::type_invariant]
    closed spec fn inv(&self) -> bool {
        is_name(self.stored())
    }

    /// The root name, which has only the root label.
    pub fn root() -> (n: Dname)
        ensures
            n.label_seq() == seq![Seq::<u8>::empty()],
    {
        let mut labels: Vec<Vec<u8>> = Vec::new();
        labels.push(Vec::new());
        proof {
            lemma_root_is_name();
        }
        assert(vec_labels(labels@) =~= seq![Seq::<u8>::empty()]);
        Dname { labels }
    }

    /// The name made of the given labels followed by the root label.
    pub fn from_labels(labels: Vec<Vec<u8>>) -> (r: Result<Dname, NameError>)
        ensures
            match name_from_labels(vec_labels(labels@)) {
                Ok(ls) => r matches Ok(n) && n.label_seq() == ls,
                Err(e) => r == Err::<Dname, NameError>(e),
            },
    {
        let ghost ls = vec_labels(labels@);
        let mut i: usize = 0;
        let mut total: usize = 0;
        assert(ls.skip(0) =~= ls);
        assert(name_wire(ls.take(0)) =~= Seq::<u8>::empty());
        while i < labels.len()
            invariant
                ls == vec_labels(labels@),
                i <= labels.len(),
                check_labels(ls) == check_labels(ls.skip(i as int)),
                forall|j: int| 0 <= j < i ==> 1 <= #[trigger] ls[j].len() <= 63,
                total == if name_wire(ls.take(i as int)).len() > 256 {
                    256
                } else {
                    name_wire(ls.take(i as int)).len()
                },
            decreases labels.len() - i,
        {
            let n = labels[i].len();
            assert(ls.skip(i as int)[0] == ls[i as int]);
            assert(ls.skip(i as int).drop_first() =~= ls.skip(i + 1));
            if n == 0 {
                return Err(NameError::EmptyLabel);
            }
            if n > 63 {
                return Err(NameError::LongLabel);
            }
            proof {
                lemma_name_wire_take(ls, i as int);
            }
            total = if total + 1 + n > 256 {
                256
            } else {
                total + 1 + n
            };
            i = i + 1;
        }
        assert(ls.take(i as int) =~= ls);
        let mut labels = labels;
        labels.push(Vec::new());
        let ghost full = vec_labels(labels@);
        assert(full =~= ls.push(Seq::<u8>::empty()));
        assert(full.drop_last() =~= ls);
        if total + 1 > 255 {
            return Err(NameError::LongName);
        }
        assert(is_name(full)) by {
            assert forall|j: int| 0 <= j < full.len() - 1 implies 1 <= #[trigger] full[j].len() <= 63 by {
                assert(full[j] == ls[j]);
            }
        }
        Ok(Dname { labels })
    }

    /// A name made of labels that are known to form one.
    pub(crate) fn from_valid_labels(labels: Vec<Vec<u8>>) -> (n: Dname)
        requires
            is_name(vec_labels(labels@)),
        ensures
            n.label_seq() == vec_labels(labels@),
    {
        Dname { labels }
    }
}

impl Clone for Dname {
    /// A copy of the name with the same labels.
    fn clone(&self) -> (r: Self)
        ensures
            r.label_seq() == self.label_seq(),
    {
        proof {
            use_type_invariant(self);
        }
        let mut labels: Vec<Vec<u8>> = Vec::with_capacity(self.labels.len());
        let mut i: usize = 0;
        while i < self.labels.len()
            invariant
                i <= self.labels.len(),
                vec_labels(labels@) =~= vec_labels(self.labels@).take(i as int),
            decreases self.labels.len() - i,
        {
            let ghost before = vec_labels(labels@);
            let copy = copy_bytes(self.labels[i].as_slice());
            labels.push(copy);
            assert(vec_labels(labels@) =~= before.push(self.labels@[i as int]@));
            assert(vec_labels(self.labels@).take(i + 1) =~= vec_labels(self.labels@).take(i as int).push(
                self.labels@[i as int]@,
            ));
            i = i + 1;
        }
        assert(vec_labels(self.labels@).take(i as int) =~= vec_labels(self.labels@));
        Dname { labels }
    }
}

impl ToDname for Dname {
    closed spec fn label_seq(&self) -> Seq<Seq<u8>> {
        if is_name(self.stored()) {
            self.stored()
        } else {
            seq![Seq::<u8>::empty()]
        }
    }

    proof fn lemma_label_seq_is_name(&self) {
        lemma_root_is_name();
    }

    fn label_count(&self) -> (n: usize) {
        proof {
            use_type_invariant(self);
        }
        self.labels.len()
    }

    fn label_at(&self, i: usize) -> (l: &[u8]) {
        proof {
            use_type_invariant(self);
        }
        self.labels[i].as_slice()
    }
}

} // verus!
