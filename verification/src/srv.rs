//! Record data of the SRV type (RFC 2782): priority, weight, port and
//! target host of a service.

use vstd::prelude::*;
use core::cmp::Ordering;

use crate::builder::{Builder, ShortBuf};
use crate::name::{
    canonical_wire, compose_name, differ_only_in_case, lemma_case_insensitive_names, compose_name_canonical, composed_wire,
    lemma_lower_is_name, lemma_name_canonical_wire_lowercase, lemma_name_compare_antisymmetric, lemma_name_compare_range,
    lemma_name_compare_transitive, lemma_name_compare_zero, lower_labels, lowercase_composed_cmp,
    name_cmp, name_compare, name_eq, name_wire, names_equal, ordering_of, Dname, ToDname,
};
use crate::octets::{
    be_u16, compare_bytes, compare_u16, lower_bytes, lemma_be_u16_roundtrip, lemma_compare_be_u16,
    lemma_compare_bytes_antisymmetric, lemma_compare_bytes_concat, lemma_compare_bytes_transitive,
    lemma_compare_bytes_zero, lemma_u16_from_be_roundtrip,
};
use crate::parse::{
    lemma_read_labels_plain, lemma_read_labels_wire, read_name, read_name_all, read_u16,
    skip_name, ParseError, Parser,
};

verus! {

/// The data of an SRV record.
#[derive(Debug, Hash)]
pub struct Srv<N> {
    priority: u16,
    weight: u16,
    port: u16,
    target: N,
}

impl<N> Srv<N> {
    /// The record type value of SRV records.
    pub const RTYPE: u16 = 33;

    /// The priority of the target host; lower values are tried first.
    pub closed spec fn spec_priority(&self) -> u16 {
        self.priority
    }

    /// The relative weight among targets of the same priority.
    pub closed spec fn spec_weight(&self) -> u16 {
        self.weight
    }

    /// The port of the service on the target host.
    pub closed spec fn spec_port(&self) -> u16 {
        self.port
    }

    /// The domain name of the target host.
    pub closed spec fn spec_target(&self) -> N {
        self.target
    }

    /// Creates record data from its four fields.
    pub fn new(priority: u16, weight: u16, port: u16, target: N) -> (s: Self)
        ensures
            s.spec_priority() == priority,
            s.spec_weight() == weight,
            s.spec_port() == port,
            s.spec_target() == target,
    {
        Srv { priority, weight, port, target }
    }

    /// Gives up the record data for its target name.
    pub fn into_target(self) -> (t: N)
        ensures
            t == self.spec_target(),
    {
        self.target
    }

    /// The priority of the target host.
    pub fn priority(&self) -> (r: u16)
        ensures
            r == self.spec_priority(),
    {
        self.priority
    }

    /// The relative weight of the target host.
    pub fn weight(&self) -> (r: u16)
        ensures
            r == self.spec_weight(),
    {
        self.weight
    }

    /// The port of the service.
    pub fn port(&self) -> (r: u16)
        ensures
            r == self.spec_port(),
    {
        self.port
    }

    /// The target host.
    pub fn target(&self) -> (r: &N)
        ensures
            *r == self.spec_target(),
    {
        &self.target
    }
}

impl<N: ToDname> Srv<N> {
    /// The labels of the target name.
    pub open spec fn target_labels(&self) -> Seq<Seq<u8>> {
        self.spec_target().label_seq()
    }

    /// Equality of record data: equal numbers and equal target names,
    /// ignoring ASCII case in the names.
    pub open spec fn srv_equal<M: ToDname>(&self, other: &Srv<M>) -> bool {
        &&& self.spec_priority() == other.spec_priority()
        &&& self.spec_weight() == other.spec_weight()
        &&& self.spec_port() == other.spec_port()
        &&& names_equal(self.target_labels(), other.target_labels())
    }

    /// The ordering of record data as `-1`, `0` or `1`: by priority, then
    /// weight, then port, then the canonical ordering of the target names.
    pub open spec fn srv_compare<M: ToDname>(&self, other: &Srv<M>) -> i8 {
        if self.spec_priority() != other.spec_priority() {
            compare_u16(self.spec_priority(), other.spec_priority())
        } else if self.spec_weight() != other.spec_weight() {
            compare_u16(self.spec_weight(), other.spec_weight())
        } else if self.spec_port() != other.spec_port() {
            compare_u16(self.spec_port(), other.spec_port())
        } else {
            name_compare(self.target_labels(), other.target_labels())
        }
    }

    /// The canonical ordering of record data as `-1`, `0` or `1`: as
    /// `srv_compare`, but the target names are compared by their lowercase
    /// wire formats.
    pub open spec fn canonical_compare<M: ToDname>(&self, other: &Srv<M>) -> i8 {
        if self.spec_priority() != other.spec_priority() {
            compare_u16(self.spec_priority(), other.spec_priority())
        } else if self.spec_weight() != other.spec_weight() {
            compare_u16(self.spec_weight(), other.spec_weight())
        } else if self.spec_port() != other.spec_port() {
            compare_u16(self.spec_port(), other.spec_port())
        } else {
            compare_bytes(canonical_wire(self.target_labels()), canonical_wire(other.target_labels()))
        }
    }

    /// The wire format: the three numbers in network order, then the
    /// uncompressed target name, in lowercase when `lower` is set.
    pub open spec fn composed(&self, lower: bool) -> Seq<u8> {
        be_u16(self.spec_priority()) + be_u16(self.spec_weight()) + be_u16(self.spec_port())
            + composed_wire(self.target_labels(), lower)
    }

    /// The wire format with the target name as it is.
    pub open spec fn wire(&self) -> Seq<u8> {
        self.composed(false)
    }

    /// The canonical wire format, with the target name in lowercase.
    pub open spec fn canonical_record_wire(&self) -> Seq<u8> {
        self.composed(true)
    }

    /// The ordering of record data with any target name type.
    fn order<M: ToDname>(&self, other: &Srv<M>) -> (r: Ordering)
        ensures
            r == ordering_of(self.srv_compare(other)),
    {
        if self.priority != other.priority {
            return if self.priority < other.priority {
                Ordering::Less
            } else {
                Ordering::Greater
            };
        }
        if self.weight != other.weight {
            return if self.weight < other.weight {
                Ordering::Less
            } else {
                Ordering::Greater
            };
        }
        if self.port != other.port {
            return if self.port < other.port {
                Ordering::Less
            } else {
                Ordering::Greater
            };
        }
        name_cmp(&self.target, &other.target)
    }

    /// The ordering of record data: by priority, weight, port and the
    /// canonical ordering of the target names.
    pub fn cmp(&self, other: &Self) -> (r: Ordering)
        ensures
            r == ordering_of(self.srv_compare(other)),
    {
        self.order(other)
    }

    /// The canonical ordering of record data (RFC 4034, section 6.3): by the
    /// numbers, then the lowercase wire formats of the target names.
    pub fn canonical_cmp<M: ToDname>(&self, other: &Srv<M>) -> (r: Ordering)
        ensures
            r == ordering_of(self.canonical_compare(other)),
    {
        if self.priority != other.priority {
            return if self.priority < other.priority {
                Ordering::Less
            } else {
                Ordering::Greater
            };
        }
        if self.weight != other.weight {
            return if self.weight < other.weight {
                Ordering::Less
            } else {
                Ordering::Greater
            };
        }
        if self.port != other.port {
            return if self.port < other.port {
                Ordering::Less
            } else {
                Ordering::Greater
            };
        }
        lowercase_composed_cmp(&self.target, &other.target)
    }

    /// Appends the wire format, or nothing if it does not fit.
    pub fn compose(&self, target: &mut Builder) -> (r: Result<(), ShortBuf>)
        ensures
            final(target)@.limit == old(target)@.limit,
            r is Ok <==> old(target)@.bytes.len() + self.wire().len() <= old(target)@.limit,
            r is Ok ==> final(target)@.bytes == old(target)@.bytes + self.wire(),
            r is Err ==> final(target)@.bytes == old(target)@.bytes,
    {
        self.compose_fields(target, false)
    }

    /// Appends the canonical wire format, with the target name in lowercase,
    /// or nothing if it does not fit.
    pub fn compose_canonical(&self, target: &mut Builder) -> (r: Result<(), ShortBuf>)
        ensures
            final(target)@.limit == old(target)@.limit,
            r is Ok <==> old(target)@.bytes.len() + self.canonical_record_wire().len()
                <= old(target)@.limit,
            r is Ok ==> final(target)@.bytes == old(target)@.bytes + self.canonical_record_wire(),
            r is Err ==> final(target)@.bytes == old(target)@.bytes,
    {
        self.compose_fields(target, true)
    }

    fn compose_fields(&self, target: &mut Builder, lower: bool) -> (r: Result<(), ShortBuf>)
        ensures
            final(target)@.limit == old(target)@.limit,
            r is Ok <==> old(target)@.bytes.len() + self.composed(lower).len() <= old(target)@.limit,
            r is Ok ==> final(target)@.bytes == old(target)@.bytes + self.composed(lower),
            r is Err ==> final(target)@.bytes == old(target)@.bytes,
    {
        let start = target.len();
        let numbers: [u8; 6] = [
            (self.priority / 256) as u8,
            (self.priority % 256) as u8,
            (self.weight / 256) as u8,
            (self.weight % 256) as u8,
            (self.port / 256) as u8,
            (self.port % 256) as u8,
        ];
        let ghost head = be_u16(self.priority) + be_u16(self.weight) + be_u16(self.port);
        assert(numbers@ =~= head);
        target.append_slice(&numbers)?;
        let res = if lower {
            compose_name_canonical(&self.target, target)
        } else {
            compose_name(&self.target, target)
        };
        match res {
            Ok(()) => {
                assert(target@.bytes =~= old(target)@.bytes + self.composed(lower));
                Ok(())
            },
            Err(e) => {
                target.truncate(start);
                assert(target@.bytes =~= old(target)@.bytes);
                Err(e)
            },
        }
    }
}

/// The fields of record data read from wire data at `pos`: priority,
/// weight, port, the labels of the target, and the position after it.
pub open spec fn read_srv(data: Seq<u8>, pos: int, limit: int) -> Result<
    (u16, u16, u16, Seq<Seq<u8>>, int),
    ParseError,
> {
    match read_u16(data, pos, limit) {
        Err(e) => Err(e),
        Ok((priority, p1)) => match read_u16(data, p1, limit) {
            Err(e) => Err(e),
            Ok((weight, p2)) => match read_u16(data, p2, limit) {
                Err(e) => Err(e),
                Ok((port, p3)) => match read_name(data, p3, limit) {
                    Err(e) => Err(e),
                    Ok((labels, end)) => Ok((priority, weight, port, labels, end)),
                },
            },
        },
    }
}

/// Where reading record data at `pos` leaves the parser when it fails:
/// after the numbers read before the field that failed.
pub open spec fn srv_failure_pos(data: Seq<u8>, pos: int, limit: int) -> int {
    match read_u16(data, pos, limit) {
        Err(_) => pos,
        Ok((_v1, p1)) => match read_u16(data, p1, limit) {
            Err(_) => p1,
            Ok((_v2, p2)) => match read_u16(data, p2, limit) {
                Err(_) => p2,
                Ok((_v3, p3)) => p3,
            },
        },
    }
}

/// The fields of record data filling exactly the `len` octets at `pos`.
pub open spec fn read_srv_all(data: Seq<u8>, pos: int, limit: int, len: int) -> Result<
    (u16, u16, u16, Seq<Seq<u8>>, int),
    ParseError,
> {
    if len < 7 {
        Err(ParseError::ShortField)
    } else {
        match read_u16(data, pos, limit) {
            Err(e) => Err(e),
            Ok((priority, p1)) => match read_u16(data, p1, limit) {
                Err(e) => Err(e),
                Ok((weight, p2)) => match read_u16(data, p2, limit) {
                    Err(e) => Err(e),
                    Ok((port, p3)) => match read_name_all(data, p3, limit, len - 6) {
                        Err(e) => Err(e),
                        Ok((labels, end)) => Ok((priority, weight, port, labels, end)),
                    },
                },
            },
        }
    }
}

/// The position after the record data at `pos`.
pub open spec fn skip_srv(data: Seq<u8>, pos: int, limit: int) -> Result<int, ParseError> {
    match read_u16(data, pos, limit) {
        Err(e) => Err(e),
        Ok((_v1, p1)) => match read_u16(data, p1, limit) {
            Err(e) => Err(e),
            Ok((_v2, p2)) => match read_u16(data, p2, limit) {
                Err(e) => Err(e),
                Ok((_v3, p3)) => skip_name(data, p3, limit),
            },
        },
    }
}

/// Whether record data has the given fields.
pub open spec fn srv_has_fields(
    s: Srv<Dname>,
    fields: (u16, u16, u16, Seq<Seq<u8>>, int),
) -> bool {
    &&& s.spec_priority() == fields.0
    &&& s.spec_weight() == fields.1
    &&& s.spec_port() == fields.2
    &&& s.target_labels() == fields.3
}

impl Srv<Dname> {
    /// Reads record data in wire format. On error the parser stays after
    /// the numbers read before the field that failed.
    pub fn parse(parser: &mut Parser) -> (r: Result<Srv<Dname>, ParseError>)
        ensures
            final(parser)@.data == old(parser)@.data,
            final(parser)@.limit == old(parser)@.limit,
            match read_srv(old(parser)@.data, old(parser)@.pos, old(parser)@.limit) {
                Ok(f) => r matches Ok(s) && srv_has_fields(s, f) && final(parser)@.pos == f.4,
                Err(e) => r == Err::<Srv<Dname>, ParseError>(e) && final(parser)@.pos
                    == srv_failure_pos(old(parser)@.data, old(parser)@.pos, old(parser)@.limit),
            },
    {
        let priority = parser.parse_u16()?;
        let weight = parser.parse_u16()?;
        let port = parser.parse_u16()?;
        let target = Dname::parse(parser)?;
        Ok(Srv::new(priority, weight, port, target))
    }

    /// Steps over record data in wire format. On error the parser stays
    /// after the numbers stepped over before the field that failed.
    pub fn skip(parser: &mut Parser) -> (r: Result<(), ParseError>)
        ensures
            final(parser)@.data == old(parser)@.data,
            final(parser)@.limit == old(parser)@.limit,
            match skip_srv(old(parser)@.data, old(parser)@.pos, old(parser)@.limit) {
                Ok(end) => r is Ok && final(parser)@.pos == end,
                Err(e) => r == Err::<(), ParseError>(e) && final(parser)@.pos == srv_failure_pos(
                    old(parser)@.data,
                    old(parser)@.pos,
                    old(parser)@.limit,
                ),
            },
    {
        parser.parse_u16()?;
        parser.parse_u16()?;
        parser.parse_u16()?;
        Dname::skip(parser)
    }

    /// Reads record data in wire format that fills exactly the next `len`
    /// octets. On error the parser stays after the numbers read before the
    /// field that failed; a `len` below 7 fails before anything is read.
    pub fn parse_all(parser: &mut Parser, len: usize) -> (r: Result<Srv<Dname>, ParseError>)
        ensures
            final(parser)@.data == old(parser)@.data,
            final(parser)@.limit == old(parser)@.limit,
            match read_srv_all(old(parser)@.data, old(parser)@.pos, old(parser)@.limit, len as int) {
                Ok(f) => r matches Ok(s) && srv_has_fields(s, f) && final(parser)@.pos == f.4,
                Err(e) => r == Err::<Srv<Dname>, ParseError>(e) && final(parser)@.pos == if len < 7 {
                    old(parser)@.pos
                } else {
                    srv_failure_pos(old(parser)@.data, old(parser)@.pos, old(parser)@.limit)
                },
            },
    {
        if len < 7 {
            return Err(ParseError::ShortField);
        }
        let priority = parser.parse_u16()?;
        let weight = parser.parse_u16()?;
        let port = parser.parse_u16()?;
        let target = Dname::parse_all(parser, len - 6)?;
        Ok(Srv::new(priority, weight, port, target))
    }
}

/// Equality of record data is an equivalence relation.
pub proof fn lemma_srv_equal_equivalence<N: ToDname, M: ToDname, K: ToDname>(
    a: Srv<N>,
    b: Srv<M>,
    c: Srv<K>,
)
    ensures
        a.srv_equal(&a),
        a.srv_equal(&b) == b.srv_equal(&a),
        a.srv_equal(&b) && b.srv_equal(&c) ==> a.srv_equal(&c),
{
}

/// Record data is ordered as the tuple of priority, weight, port and target
/// name: the first of these that differs decides, in that order, in the
/// ordering and in the canonical ordering alike.
pub proof fn lemma_srv_order_is_lexicographic<N: ToDname, M: ToDname>(a: Srv<N>, b: Srv<M>)
    ensures
        a.spec_priority() < b.spec_priority() ==> a.srv_compare(&b) < 0 && a.canonical_compare(&b) < 0,
        a.spec_priority() > b.spec_priority() ==> a.srv_compare(&b) > 0 && a.canonical_compare(&b) > 0,
        a.spec_priority() == b.spec_priority() && a.spec_weight() < b.spec_weight() ==> a.srv_compare(&b) < 0
            && a.canonical_compare(&b) < 0,
        a.spec_priority() == b.spec_priority() && a.spec_weight() > b.spec_weight() ==> a.srv_compare(&b) > 0
            && a.canonical_compare(&b) > 0,
        a.spec_priority() == b.spec_priority() && a.spec_weight() == b.spec_weight() && a.spec_port()
            < b.spec_port() ==> a.srv_compare(&b) < 0 && a.canonical_compare(&b) < 0,
        a.spec_priority() == b.spec_priority() && a.spec_weight() == b.spec_weight() && a.spec_port()
            > b.spec_port() ==> a.srv_compare(&b) > 0 && a.canonical_compare(&b) > 0,
        a.spec_priority() == b.spec_priority() && a.spec_weight() == b.spec_weight() && a.spec_port()
            == b.spec_port() ==> a.srv_compare(&b) == name_compare(a.target_labels(), b.target_labels()),
{
}

/// Records with equal numbers whose targets differ only in the ASCII case of
/// letters are equal, compare equal in both orderings, and have the same
/// canonical wire format.
pub proof fn lemma_srv_case_insensitive<N: ToDname, M: ToDname>(a: Srv<N>, b: Srv<M>)
    requires
        a.spec_priority() == b.spec_priority(),
        a.spec_weight() == b.spec_weight(),
        a.spec_port() == b.spec_port(),
        differ_only_in_case(a.target_labels(), b.target_labels()),
    ensures
        a.srv_equal(&b),
        a.srv_compare(&b) == 0,
        a.canonical_compare(&b) == 0,
        a.canonical_record_wire() == b.canonical_record_wire(),
{
    lemma_case_insensitive_names(a.target_labels(), b.target_labels());
    lemma_compare_bytes_zero(canonical_wire(a.target_labels()), canonical_wire(b.target_labels()));
}

/// The ordering of record data finds two records equal exactly when they are.
pub proof fn lemma_srv_compare_zero<N: ToDname, M: ToDname>(a: Srv<N>, b: Srv<M>)
    ensures
        (a.srv_compare(&b) == 0) == a.srv_equal(&b),
{
    lemma_name_compare_zero(a.target_labels(), b.target_labels());
}

/// Swapping two records reverses their ordering.
pub proof fn lemma_srv_compare_antisymmetric<N: ToDname, M: ToDname>(a: Srv<N>, b: Srv<M>)
    ensures
        a.srv_compare(&b) == -b.srv_compare(&a),
        -1 <= a.srv_compare(&b) <= 1,
{
    lemma_name_compare_antisymmetric(a.target_labels(), b.target_labels());
    lemma_name_compare_range(a.target_labels(), b.target_labels());
}

/// The ordering of record data is transitive.
pub proof fn lemma_srv_compare_transitive<N: ToDname, M: ToDname, K: ToDname>(
    a: Srv<N>,
    b: Srv<M>,
    c: Srv<K>,
)
    requires
        a.srv_compare(&b) <= 0,
        b.srv_compare(&c) <= 0,
    ensures
        a.srv_compare(&c) <= 0,
        a.srv_compare(&b) < 0 || b.srv_compare(&c) < 0 ==> a.srv_compare(&c) < 0,
{
    let (la, lb, lc) = (a.target_labels(), b.target_labels(), c.target_labels());
    lemma_name_compare_range(la, lb);
    lemma_name_compare_range(lb, lc);
    if name_compare(la, lb) <= 0 && name_compare(lb, lc) <= 0 {
        lemma_name_compare_transitive(la, lb, lc);
    }
}

/// The canonical ordering of record data is the lexicographic ordering of
/// their canonical wire formats.
pub proof fn lemma_canonical_compare_is_wire_order<N: ToDname, M: ToDname>(a: Srv<N>, b: Srv<M>)
    ensures
        a.canonical_compare(&b) == compare_bytes(a.canonical_record_wire(), b.canonical_record_wire()),
{
    let na = canonical_wire(a.target_labels());
    let nb = canonical_wire(b.target_labels());
    let (pa, wa, oa) = (be_u16(a.spec_priority()), be_u16(a.spec_weight()), be_u16(a.spec_port()));
    let (pb, wb, ob) = (be_u16(b.spec_priority()), be_u16(b.spec_weight()), be_u16(b.spec_port()));
    assert(a.canonical_record_wire() =~= pa + (wa + (oa + na)));
    assert(b.canonical_record_wire() =~= pb + (wb + (ob + nb)));
    lemma_compare_bytes_concat(pa, wa + (oa + na), pb, wb + (ob + nb));
    lemma_compare_bytes_concat(wa, oa + na, wb, ob + nb);
    lemma_compare_bytes_concat(oa, na, ob, nb);
    lemma_compare_be_u16(a.spec_priority(), b.spec_priority());
    lemma_compare_be_u16(a.spec_weight(), b.spec_weight());
    lemma_compare_be_u16(a.spec_port(), b.spec_port());
    lemma_compare_bytes_zero(pa, pb);
    lemma_compare_bytes_zero(wa, wb);
    lemma_compare_bytes_zero(oa, ob);
}

/// Two names have the same canonical wire format exactly when they are
/// equal ignoring ASCII case.
pub proof fn lemma_canonical_wire_eq<N: ToDname, M: ToDname>(a: N, b: M)
    ensures
        (canonical_wire(a.label_seq()) == canonical_wire(b.label_seq())) == names_equal(
            a.label_seq(),
            b.label_seq(),
        ),
{
    a.lemma_label_seq_is_name();
    b.lemma_label_seq_is_name();
    let la = lower_labels(a.label_seq());
    let lb = lower_labels(b.label_seq());
    lemma_lower_is_name(a.label_seq());
    lemma_lower_is_name(b.label_seq());
    let w = name_wire(la);
    if w == name_wire(lb) {
        assert(w.subrange(0, w.len() as int) =~= w);
        lemma_read_labels_wire(w, 0, w.len() as int, 0, la);
        lemma_read_labels_wire(w, 0, w.len() as int, 0, lb);
    }
}

/// The canonical ordering finds two records equal exactly when they are.
pub proof fn lemma_canonical_compare_zero<N: ToDname, M: ToDname>(a: Srv<N>, b: Srv<M>)
    ensures
        (a.canonical_compare(&b) == 0) == a.srv_equal(&b),
{
    lemma_compare_bytes_zero(
        canonical_wire(a.target_labels()),
        canonical_wire(b.target_labels()),
    );
    lemma_canonical_wire_eq(a.spec_target(), b.spec_target());
}

/// Two records are equal exactly when their canonical wire formats are.
pub proof fn lemma_equal_iff_canonical_wire_equal<N: ToDname, M: ToDname>(a: Srv<N>, b: Srv<M>)
    ensures
        a.srv_equal(&b) == (a.canonical_record_wire() == b.canonical_record_wire()),
{
    lemma_canonical_compare_zero(a, b);
    lemma_canonical_compare_is_wire_order(a, b);
    lemma_compare_bytes_zero(a.canonical_record_wire(), b.canonical_record_wire());
}

/// The canonical wire format of record data is its wire format with the
/// ASCII letters of the target name in lowercase.
pub proof fn lemma_canonical_record_wire_lowercase<N: ToDname>(s: Srv<N>)
    ensures
        s.canonical_record_wire() == s.wire().take(6) + lower_bytes(s.wire().skip(6)),
{
    s.spec_target().lemma_label_seq_is_name();
    lemma_name_canonical_wire_lowercase(s.target_labels());
    let head = be_u16(s.spec_priority()) + be_u16(s.spec_weight()) + be_u16(s.spec_port());
    let nw = name_wire(s.target_labels());
    assert(s.wire() == head + nw);
    assert(s.wire().take(6) =~= head);
    assert(s.wire().skip(6) =~= nw);
    assert(s.canonical_record_wire() =~= head + canonical_wire(s.target_labels()));
}

/// The canonical ordering is antisymmetric and transitive.
pub proof fn lemma_canonical_compare_order<N: ToDname, M: ToDname, K: ToDname>(
    a: Srv<N>,
    b: Srv<M>,
    c: Srv<K>,
)
    ensures
        a.canonical_compare(&b) == -b.canonical_compare(&a),
        a.canonical_compare(&b) <= 0 && b.canonical_compare(&c) <= 0 ==> a.canonical_compare(&c) <= 0,
        a.canonical_compare(&b) < 0 && b.canonical_compare(&c) <= 0 ==> a.canonical_compare(&c) < 0,
        a.canonical_compare(&b) <= 0 && b.canonical_compare(&c) < 0 ==> a.canonical_compare(&c) < 0,
{
    lemma_canonical_compare_is_wire_order(a, b);
    lemma_canonical_compare_is_wire_order(b, a);
    lemma_canonical_compare_is_wire_order(b, c);
    lemma_canonical_compare_is_wire_order(a, c);
    let (wa, wb, wc) = (a.canonical_record_wire(), b.canonical_record_wire(), c.canonical_record_wire());
    lemma_compare_bytes_antisymmetric(wa, wb);
    if compare_bytes(wa, wb) <= 0 && compare_bytes(wb, wc) <= 0 {
        lemma_compare_bytes_transitive(wa, wb, wc);
    }
}

/// The wire format of record data is between 7 and 261 octets long.
pub proof fn lemma_wire_len<N: ToDname>(s: Srv<N>)
    ensures
        7 <= s.wire().len() <= 261,
        s.canonical_record_wire().len() == s.wire().len(),
{
    s.spec_target().lemma_label_seq_is_name();
    crate::name::lemma_lower_labels_wire_len(s.target_labels());
    let ls = s.target_labels();
    assert(ls =~= ls.drop_last().push(ls.last()));
}

/// Reading the wire format of record data gives back its fields and ends
/// right after it; it can be read as a field of exactly its length and
/// stepped over.
pub proof fn lemma_compose_parse_roundtrip<N: ToDname>(s: Srv<N>, data: Seq<u8>, pos: int, limit: int)
    requires
        0 <= pos,
        pos + s.wire().len() <= limit <= data.len(),
        data.subrange(pos, pos + s.wire().len()) == s.wire(),
    ensures
        read_srv(data, pos, limit) == Ok::<(u16, u16, u16, Seq<Seq<u8>>, int), ParseError>(
            (s.spec_priority(), s.spec_weight(), s.spec_port(), s.target_labels(), pos + s.wire().len()),
        ),
        read_srv_all(data, pos, limit, s.wire().len() as int) == read_srv(data, pos, limit),
        skip_srv(data, pos, limit) == Ok::<int, ParseError>(pos + s.wire().len()),
{
    let w = s.wire();
    let ls = s.target_labels();
    let nw = name_wire(ls);
    s.spec_target().lemma_label_seq_is_name();
    lemma_wire_len(s);
    lemma_be_u16_roundtrip(s.spec_priority());
    lemma_be_u16_roundtrip(s.spec_weight());
    lemma_be_u16_roundtrip(s.spec_port());
    assert(w =~= be_u16(s.spec_priority()) + be_u16(s.spec_weight()) + be_u16(s.spec_port()) + nw);
    assert forall|k: int| 0 <= k < w.len() implies data[pos + k] == w[k] by {
        assert(data.subrange(pos, pos + w.len())[k] == w[k]);
    }
    let (bp, bw, bo) = (be_u16(s.spec_priority()), be_u16(s.spec_weight()), be_u16(s.spec_port()));
    assert(w[0] == bp[0] && w[1] == bp[1] && w[2] == bw[0] && w[3] == bw[1] && w[4] == bo[0] && w[5] == bo[1]);
    assert(data[pos] == w[0]);
    assert(data[pos + 1] == w[1]);
    assert(data[pos + 2] == w[2]);
    assert(data[pos + 3] == w[3]);
    assert(data[pos + 4] == w[4]);
    assert(data[pos + 5] == w[5]);
    assert(data.subrange(pos + 6, pos + 6 + nw.len()) =~= nw) by {
        assert forall|k: int| 0 <= k < nw.len() implies data[pos + 6 + k] == nw[k] by {
            assert(w[6 + k] == nw[k]);
        }
    }
    lemma_read_labels_wire(data, pos + 6, limit, 0, ls);
}

/// Record data read without name compression composes back to the octets
/// it was read from.
pub proof fn lemma_parse_compose_roundtrip(data: Seq<u8>, pos: int, limit: int, s: Srv<Dname>)
    requires
        read_srv(data, pos, limit) matches Ok(f) && srv_has_fields(s, f) && f.4 - pos == s.wire().len(),
    ensures
        pos + s.wire().len() <= data.len(),
        data.subrange(pos, pos + s.wire().len()) == s.wire(),
{
    let f = read_srv(data, pos, limit)->Ok_0;
    let ls = f.3;
    lemma_read_labels_plain(data, pos + 6, limit, 0);
    lemma_u16_from_be_roundtrip(data[pos], data[pos + 1]);
    lemma_u16_from_be_roundtrip(data[pos + 2], data[pos + 3]);
    lemma_u16_from_be_roundtrip(data[pos + 4], data[pos + 5]);
    let w = s.wire();
    assert(w =~= be_u16(f.0) + be_u16(f.1) + be_u16(f.2) + name_wire(ls));
    assert(data.subrange(pos, pos + w.len()) =~= w) by {
        assert forall|k: int| 6 <= k < w.len() implies data[pos + k] == w[k] by {
            assert(data.subrange(pos + 6, f.4)[k - 6] == name_wire(ls)[k - 6]);
        }
    }
}

impl<N: Clone> Clone for Srv<N> {
    /// A copy with the same numbers and a clone of the target.
    fn clone(&self) -> (r: Self)
        ensures
            r.spec_priority() == self.spec_priority(),
            r.spec_weight() == self.spec_weight(),
            r.spec_port() == self.spec_port(),
            cloned::<N>(self.spec_target(), r.spec_target()),
    {
        Srv {
            priority: self.priority,
            weight: self.weight,
            port: self.port,
            target: self.target.clone(),
        }
    }
}

/// A record compares equal to its clone, in either ordering, when the
/// target is a `Dname`.
pub proof fn lemma_clone_compares_equal(s: Srv<Dname>, c: Srv<Dname>)
    requires
        c.spec_priority() == s.spec_priority(),
        c.spec_weight() == s.spec_weight(),
        c.spec_port() == s.spec_port(),
        cloned::<Dname>(s.spec_target(), c.spec_target()),
    ensures
        s.srv_equal(&c),
        s.srv_compare(&c) == 0,
        s.canonical_compare(&c) == 0,
{
    assert(c.target_labels() == s.target_labels());
    lemma_srv_compare_zero(s, c);
    lemma_canonical_compare_zero(s, c);
}

impl<N: ToDname, M: ToDname> PartialEq<Srv<M>> for Srv<N> {
    fn eq(&self, other: &Srv<M>) -> (r: bool) {
        self.priority == other.priority && self.weight == other.weight && self.port == other.port
            && name_eq(&self.target, &other.target)
    }
}

impl<N: ToDname, M: ToDname> vstd::std_specs::cmp::PartialEqSpecImpl<Srv<M>> for Srv<N> {
    open spec fn obeys_eq_spec() -> bool {
        true
    }

    open spec fn eq_spec(&self, other: &Srv<M>) -> bool {
        self.srv_equal(other)
    }
}

impl<N: ToDname> Eq for Srv<N> {

}

impl<N: ToDname, M: ToDname> PartialOrd<Srv<M>> for Srv<N> {
    fn partial_cmp(&self, other: &Srv<M>) -> (r: Option<Ordering>) {
        Some(self.order(other))
    }
}

impl<N: ToDname, M: ToDname> vstd::std_specs::cmp::PartialOrdSpecImpl<Srv<M>> for Srv<N> {
    open spec fn obeys_partial_cmp_spec() -> bool {
        true
    }

    open spec fn partial_cmp_spec(&self, other: &Srv<M>) -> Option<Ordering> {
        Some(ordering_of(self.srv_compare(other)))
    }
}

} // verus!
