//! Reading wire data: a parser over a message, and the wire format of
//! domain names, with compression pointers.

use vstd::prelude::*;

use crate::name::{is_name, label_wire, lemma_name_wire_cons, name_wire, vec_labels, Dname, ToDname};
use crate::octets::{copy_range, u16_from_be};

verus! {

/// Why wire data could not be parsed.
#[derive(Clone, Copy, Debug, PartialEq, Eq, Structural)]
pub enum ParseError {
    /// The data ended before the value did.
    ShortBuf,
    /// A value was longer than the field it stands in.
    ShortField,
    /// A value ended before the field it stands in.
    TrailingData,
    /// A label had a type other than normal or compressed.
    BadLabel,
    /// A domain name was longer than 255 octets.
    LongName,
    /// A compression pointer did not point to an earlier position.
    BadPointer,
}

/// A parser's data, its position and the end of the part it reads.
pub struct ParserView {
    pub data: Seq<u8>,
    pub pos: int,
    pub limit: int,
}

/// Whether a position and a limit fall in the data, in that order.
pub open spec fn in_bounds(data: Seq<u8>, pos: int, limit: int) -> bool {
    0 <= pos <= limit <= data.len()
}

/// The number in the two octets at `pos`, and the position after them.
pub open spec fn read_u16(data: Seq<u8>, pos: int, limit: int) -> Result<(u16, int), ParseError> {
    if in_bounds(data, pos, limit) && pos + 2 <= limit {
        Ok((u16_from_be(data[pos], data[pos + 1]), pos + 2))
    } else {
        Err(ParseError::ShortBuf)
    }
}

/// The labels of the domain name at `pos` and the position after it, when
/// `len` octets of the name have been read already.
///
/// A label whose first octet is below 64 is a normal label of that length;
/// an empty one is the root label and ends the name. One whose two top
/// bits are set is a compression pointer: the rest of the name is read at
/// the earlier position given by the lower 14 bits, and the name ends after
/// the pointer.
pub open spec fn read_labels(data: Seq<u8>, pos: int, limit: int, len: int) -> Result<
    (Seq<Seq<u8>>, int),
    ParseError,
>
    decreases 256 - len, pos,
{
    if !(0 <= pos && pos < limit && limit <= data.len()) {
        Err(ParseError::ShortBuf)
    } else {
        let b = data[pos];
        if b < 64 {
            let end = pos + 1 + b;
            if end > limit {
                Err(ParseError::ShortBuf)
            } else if len + 1 + b > 255 {
                Err(ParseError::LongName)
            } else if b == 0 {
                Ok((seq![Seq::<u8>::empty()], end))
            } else {
                match read_labels(data, end, limit, len + 1 + b) {
                    Ok((ls, e)) => Ok((seq![data.subrange(pos + 1, end)] + ls, e)),
                    Err(x) => Err(x),
                }
            }
        } else if b >= 192 {
            if pos + 2 > limit {
                Err(ParseError::ShortBuf)
            } else {
                let target = (b - 192) * 256 + data[pos + 1];
                if target >= pos {
                    Err(ParseError::BadPointer)
                } else {
                    match read_labels(data, target, data.len() as int, len) {
                        Ok((ls, _e)) => Ok((ls, pos + 2)),
                        Err(x) => Err(x),
                    }
                }
            }
        } else {
            Err(ParseError::BadLabel)
        }
    }
}

/// The domain name at `pos` and the position after it.
pub open spec fn read_name(data: Seq<u8>, pos: int, limit: int) -> Result<
    (Seq<Seq<u8>>, int),
    ParseError,
> {
    if in_bounds(data, pos, limit) {
        read_labels(data, pos, limit, 0)
    } else {
        Err(ParseError::ShortBuf)
    }
}

/// The domain name filling the `len` octets at `pos`, and the position after it.
pub open spec fn read_name_all(data: Seq<u8>, pos: int, limit: int, len: int) -> Result<
    (Seq<Seq<u8>>, int),
    ParseError,
> {
    match read_name(data, pos, limit) {
        Ok((ls, end)) => if end < pos + len {
            Err(ParseError::TrailingData)
        } else if end > pos + len {
            Err(ParseError::ShortField)
        } else {
            Ok((ls, end))
        },
        Err(x) => Err(x),
    }
}

/// The position after the labels at `pos`, without following compression
/// pointers, when `len` octets of the name have been read already.
pub open spec fn skip_labels(data: Seq<u8>, pos: int, limit: int, len: int) -> Result<int, ParseError>
    decreases limit - pos,
{
    if !(0 <= pos && pos < limit && limit <= data.len()) {
        Err(ParseError::ShortBuf)
    } else {
        let b = data[pos];
        if b < 64 {
            let end = pos + 1 + b;
            if end > limit {
                Err(ParseError::ShortBuf)
            } else if len + 1 + b > 255 {
                Err(ParseError::LongName)
            } else if b == 0 {
                Ok(end)
            } else {
                skip_labels(data, end, limit, len + 1 + b)
            }
        } else if b >= 192 {
            if pos + 2 > limit {
                Err(ParseError::ShortBuf)
            } else {
                Ok(pos + 2)
            }
        } else {
            Err(ParseError::BadLabel)
        }
    }
}

/// The position after the domain name at `pos`.
pub open spec fn skip_name(data: Seq<u8>, pos: int, limit: int) -> Result<int, ParseError> {
    if in_bounds(data, pos, limit) {
        skip_labels(data, pos, limit, 0)
    } else {
        Err(ParseError::ShortBuf)
    }
}

/// What reading labels gives once `acc` has been read already and, if a
/// compression pointer was followed, the name ended at `end`.
pub open spec fn resume(
    acc: Seq<Seq<u8>>,
    end: Option<usize>,
    r: Result<(Seq<Seq<u8>>, int), ParseError>,
) -> Result<(Seq<Seq<u8>>, int), ParseError> {
    match r {
        Ok((ls, e)) => Ok(
            (
                acc + ls,
                match end {
                    Some(x) => x as int,
                    None => e,
                },
            ),
        ),
        Err(x) => Err(x),
    }
}

/// Reading the uncompressed wire format of a name gives back its labels and
/// ends right after it.
pub proof fn lemma_read_labels_wire(data: Seq<u8>, pos: int, limit: int, len: int, ls: Seq<Seq<u8>>)
    requires
        is_name(ls),
        0 <= pos,
        0 <= len,
        len + name_wire(ls).len() <= 255,
        pos + name_wire(ls).len() <= limit <= data.len(),
        data.subrange(pos, pos + name_wire(ls).len()) == name_wire(ls),
    ensures
        read_labels(data, pos, limit, len) == Ok::<(Seq<Seq<u8>>, int), ParseError>(
            (ls, pos + name_wire(ls).len()),
        ),
        skip_labels(data, pos, limit, len) == Ok::<int, ParseError>(pos + name_wire(ls).len()),
    decreases ls.len(),
{
    let w = name_wire(ls);
    let first = ls[0];
    let rest = ls.drop_first();
    assert(ls =~= seq![first] + rest);
    lemma_name_wire_cons(first, rest);
    let b = data[pos];
    assert(b == w[0]);
    assert(first.len() <= 63) by {
        if ls.len() > 1 {
            assert(1 <= ls[0].len() <= 63);
        }
    }
    assert(b == first.len());
    let end = pos + 1 + b;
    if ls.len() == 1 {
        assert(ls.last() == ls[0]);
        assert(first.len() == 0);
        assert(first =~= Seq::<u8>::empty());
        assert(ls =~= seq![Seq::<u8>::empty()]);
        assert(w.len() == 1) by {
            assert(rest.len() == 0);
            assert(name_wire(rest) =~= Seq::<u8>::empty());
        }
    } else {
        assert(b >= 1);
        let wr = name_wire(rest);
        assert(wr.len() >= 1) by {
            lemma_name_wire_cons(rest[0], rest.drop_first());
            assert(rest =~= seq![rest[0]] + rest.drop_first());
        }
        assert(data.subrange(pos + 1, end) =~= first) by {
            assert forall|k: int| 0 <= k < b implies data[pos + 1 + k] == first[k] by {
                assert(data.subrange(pos, pos + w.len())[1 + k] == w[1 + k]);
            }
        }
        assert(data.subrange(end, end + wr.len()) =~= wr) by {
            assert forall|k: int| 0 <= k < wr.len() implies data[end + k] == wr[k] by {
                assert(data.subrange(pos, pos + w.len())[1 + b + k] == w[1 + b + k]);
            }
        }
        assert(is_name(rest)) by {
            assert forall|i: int| 0 <= i < rest.len() - 1 implies 1 <= #[trigger] rest[i].len() <= 63 by {
                assert(rest[i] == ls[i + 1]);
            }
        }
        lemma_read_labels_wire(data, end, limit, len + 1 + b, rest);
    }
}

/// Labels `pre` followed by a compression pointer to an earlier
/// uncompressed name `ls` read as `pre` followed by the labels of `ls`,
/// ending right after the two octets of the pointer, whose lower 14 bits
/// give the offset of `ls` in network order.
pub proof fn lemma_read_labels_pointer(
    data: Seq<u8>,
    q: int,
    p: int,
    t: int,
    limit: int,
    len: int,
    pre: Seq<Seq<u8>>,
    ls: Seq<Seq<u8>>,
)
    requires
        0 <= t < p,
        t < 16384,
        p + 2 <= limit <= data.len(),
        data[p] == 192 + t / 256,
        data[p + 1] == t % 256,
        is_name(ls),
        t + name_wire(ls).len() <= data.len(),
        data.subrange(t, t + name_wire(ls).len()) == name_wire(ls),
        forall|i: int| 0 <= i < pre.len() ==> 1 <= #[trigger] pre[i].len() <= 63,
        0 <= q,
        0 <= len,
        q + name_wire(pre).len() == p,
        data.subrange(q, p) == name_wire(pre),
        len + name_wire(pre).len() + name_wire(ls).len() <= 255,
    ensures
        read_labels(data, q, limit, len) == Ok::<(Seq<Seq<u8>>, int), ParseError>((pre + ls, p + 2)),
        len == 0 ==> read_name(data, q, limit) == Ok::<(Seq<Seq<u8>>, int), ParseError>(
            (pre + ls, p + 2),
        ),
    decreases pre.len(),
{
    if pre.len() == 0 {
        assert(name_wire(pre) =~= Seq::<u8>::empty());
        assert(q == p);
        let b = data[p];
        assert(b >= 192);
        assert((b - 192) * 256 + data[p + 1] == t);
        lemma_read_labels_wire(data, t, data.len() as int, len, ls);
        assert(pre + ls =~= ls);
    } else {
        let l = pre[0];
        let rest = pre.drop_first();
        assert(pre =~= seq![l] + rest);
        lemma_name_wire_cons(l, rest);
        let w = name_wire(pre);
        let end = q + 1 + l.len();
        assert(data[q] == w[0]) by {
            assert(data.subrange(q, p)[0] == w[0]);
        }
        assert(data.subrange(q + 1, end) =~= l) by {
            assert forall|k: int| 0 <= k < l.len() implies data[q + 1 + k] == l[k] by {
                assert(data.subrange(q, p)[1 + k] == w[1 + k]);
            }
        }
        assert(data.subrange(end, p) =~= name_wire(rest)) by {
            assert forall|k: int| 0 <= k < name_wire(rest).len() implies data[end + k] == name_wire(rest)[k] by {
                assert(data.subrange(q, p)[1 + l.len() + k] == w[1 + l.len() + k]);
            }
        }
        assert forall|i: int| 0 <= i < rest.len() implies 1 <= #[trigger] rest[i].len() <= 63 by {
            assert(rest[i] == pre[i + 1]);
        }
        lemma_read_labels_pointer(data, end, p, t, limit, len + 1 + l.len(), rest, ls);
        assert(seq![data.subrange(q + 1, end)] + (rest + ls) =~= pre + ls);
    }
}

/// A name that was read in as many octets as its uncompressed wire format
/// has was read from exactly that wire format; the wire format of a name
/// read is never two octets long.
pub proof fn lemma_read_labels_plain(data: Seq<u8>, pos: int, limit: int, len: int)
    ensures
        read_labels(data, pos, limit, len) matches Ok((ls, e)) ==> {
            &&& e <= limit
            &&& name_wire(ls).len() >= 1
            &&& name_wire(ls).len() != 2
            &&& e - pos == name_wire(ls).len() ==> pos + name_wire(ls).len() <= data.len() && data.subrange(pos, e) == name_wire(ls)
        },
    decreases 256 - len, pos,
{
    if 0 <= pos && pos < limit && limit <= data.len() {
        let b = data[pos];
        if b < 64 {
            let end = pos + 1 + b;
            if end <= limit && len + 1 + b <= 255 {
                let lab = data.subrange(pos + 1, end);
                if b == 0 {
                    lemma_name_wire_cons(Seq::<u8>::empty(), Seq::<Seq<u8>>::empty());
                    assert(seq![Seq::<u8>::empty()] + Seq::<Seq<u8>>::empty() =~= seq![Seq::<u8>::empty()]);
                    assert(name_wire(Seq::<Seq<u8>>::empty()) =~= Seq::<u8>::empty());
                    assert(data.subrange(pos, end) =~= name_wire(seq![Seq::<u8>::empty()]));
                } else {
                    lemma_read_labels_plain(data, end, limit, len + 1 + b);
                    match read_labels(data, end, limit, len + 1 + b) {
                        Ok((ls, e)) => {
                            lemma_name_wire_cons(lab, ls);
                            assert(lab.len() == b);
                            assert(label_wire(lab).len() == 1 + b);
                            assert(label_wire(lab)[0] == b);
                            let w = name_wire(seq![lab] + ls);
                            assert(w.len() == 1 + b + name_wire(ls).len());
                            if e - pos == w.len() {
                                assert(data.subrange(end, e) == name_wire(ls));
                                assert(data.subrange(pos, e) =~= label_wire(lab) + name_wire(ls));
                            }
                        },
                        Err(_) => {},
                    }
                }
            }
        } else if b >= 192 {
            if pos + 2 <= limit {
                let target = (b - 192) * 256 + data[pos + 1];
                if target < pos {
                    lemma_read_labels_plain(data, target, data.len() as int, len);
                }
            }
        }
    }
}

/// A parser reading a message from a position up to a limit.
pub struct Parser {
    octets: Vec<u8>,
    pos: usize,
    limit: usize,
}

impl View for Parser {
    type V = ParserView;

    closed spec fn view(&self) -> ParserView {
        ParserView { data: self.octets@, pos: self.pos as int, limit: self.limit as int }
    }
}

impl Parser {
    #[verifier::type_invariant]
    closed spec fn inv(&self) -> bool {
        self.pos <= self.limit <= self.octets.len()
    }

    /// A parser at the start of `octets` that may read all of them.
    pub fn from_vec(octets: Vec<u8>) -> (p: Parser)
        ensures
            p@.data == octets@,
            p@.pos == 0,
            p@.limit == octets@.len(),
    {
        let limit = octets.len();
        Parser { octets, pos: 0, limit }
    }

    /// The current position.
    pub fn pos(&self) -> (r: usize)
        ensures
            r == self@.pos,
            in_bounds(self@.data, self@.pos, self@.limit),
    {
        proof {
            use_type_invariant(self);
        }
        self.pos
    }

    /// The number of octets left before the limit.
    pub fn remaining(&self) -> (r: usize)
        ensures
            r == self@.limit - self@.pos,
            in_bounds(self@.data, self@.pos, self@.limit),
    {
        proof {
            use_type_invariant(self);
        }
        self.limit - self.pos
    }

    /// Moves to position `pos`, which must not lie beyond the limit.
    pub fn seek(&mut self, pos: usize) -> (r: Result<(), ParseError>)
        ensures
            final(self)@.data == old(self)@.data,
            final(self)@.limit == old(self)@.limit,
            r is Ok <==> pos <= old(self)@.limit,
            r is Ok ==> final(self)@.pos == pos,
            r is Err ==> r == Err::<(), ParseError>(ParseError::ShortBuf) && final(self)@.pos == old(
                self,
            )@.pos,
    {
        proof {
            use_type_invariant(&*self);
        }
        if pos <= self.limit {
            self.pos = pos;
            Ok(())
        } else {
            Err(ParseError::ShortBuf)
        }
    }

    /// Reads a number of two octets in network order.
    pub fn parse_u16(&mut self) -> (r: Result<u16, ParseError>)
        ensures
            final(self)@.data == old(self)@.data,
            final(self)@.limit == old(self)@.limit,
            match read_u16(old(self)@.data, old(self)@.pos, old(self)@.limit) {
                Ok((v, end)) => r == Ok::<u16, ParseError>(v) && final(self)@.pos == end,
                Err(e) => r == Err::<u16, ParseError>(e) && final(self)@.pos == old(self)@.pos,
            },
    {
        proof {
            use_type_invariant(&*self);
        }
        if self.limit - self.pos < 2 {
            return Err(ParseError::ShortBuf);
        }
        let hi = self.octets[self.pos];
        let lo = self.octets[self.pos + 1];
        self.pos = self.pos + 2;
        Ok(hi as u16 * 256 + lo as u16)
    }
}

/// Reads the labels of the domain name at `start`.
fn read_name_labels(data: &Vec<u8>, start: usize, limit: usize) -> (r: Result<
    (Vec<Vec<u8>>, usize),
    ParseError,
>)
    requires
        start <= limit <= data.len(),
    ensures
        match read_labels(data@, start as int, limit as int, 0) {
            Ok((ls, e)) => r matches Ok((v, end)) && vec_labels(v@) == ls && end == e && start < end
                <= limit && is_name(ls),
            Err(x) => r == Err::<(Vec<Vec<u8>>, usize), ParseError>(x),
        },
{
    let ghost whole = read_labels(data@, start as int, limit as int, 0);
    let mut acc: Vec<Vec<u8>> = Vec::new();
    let mut pos: usize = start;
    let mut lim: usize = limit;
    let mut len: usize = 0;
    let mut end_after: Option<usize> = None;
    assert(vec_labels(acc@) + Seq::<Seq<u8>>::empty() =~= Seq::<Seq<u8>>::empty());
    assert(resume(vec_labels(acc@), end_after, whole) =~= whole) by {
        match whole {
            Ok((ls, e)) => {
                assert(vec_labels(acc@) + ls =~= ls);
            },
            Err(x) => {},
        }
    }
    loop
        invariant
            lim <= data.len(),
            limit <= data.len(),
            len <= 255,
            whole == read_labels(data@, start as int, limit as int, 0),
            resume(vec_labels(acc@), end_after, read_labels(data@, pos as int, lim as int, len as int))
                == whole,
            forall|i: int| 0 <= i < acc@.len() ==> 1 <= #[trigger] acc@[i]@.len() <= 63,
            name_wire(vec_labels(acc@)).len() == len,
            end_after is None ==> lim == limit && start <= pos,
            end_after matches Some(x) ==> start < x <= limit,
        decreases 256 - len, pos,
    {
        let ghost acc0 = vec_labels(acc@);
        if pos >= lim {
            return Err(ParseError::ShortBuf);
        }
        let b = data[pos];
        if b < 64 {
            let blen = b as usize;
            if blen >= lim - pos {
                return Err(ParseError::ShortBuf);
            }
            let end = pos + 1 + blen;
            if len + 1 + blen > 255 {
                return Err(ParseError::LongName);
            }
            if b == 0 {
                acc.push(Vec::new());
                let e = match end_after {
                    Some(x) => x,
                    None => end,
                };
                proof {
                    let fin = vec_labels(acc@);
                    assert(fin =~= acc0 + seq![Seq::<u8>::empty()]);
                    assert(fin.drop_last() =~= acc0);
                    assert(name_wire(fin).len() == len + 1);
                    assert forall|i: int| 0 <= i < fin.len() - 1 implies 1 <= #[trigger] fin[i].len()
                        <= 63 by {
                        assert(fin[i] == acc@[i]@);
                    }
                }
                return Ok((acc, e));
            }
            let label = copy_range(data.as_slice(), pos + 1, end);
            let ghost lab = label@;
            acc.push(label);
            proof {
                let acc1 = vec_labels(acc@);
                assert(acc1 =~= acc0.push(lab));
                assert(acc1.drop_last() =~= acc0);
                assert(label_wire(lab).len() == 1 + blen);
                match read_labels(data@, end as int, lim as int, (len + 1 + blen) as int) {
                    Ok((ls, e)) => {
                        assert(acc0 + (seq![lab] + ls) =~= acc1 + ls);
                    },
                    Err(x) => {},
                }
            }
            len = len + 1 + blen;
            pos = end;
        } else if b >= 192 {
            if lim - pos < 2 {
                return Err(ParseError::ShortBuf);
            }
            let target = (b - 192) as usize * 256 + data[pos + 1] as usize;
            if target >= pos {
                return Err(ParseError::BadPointer);
            }
            if end_after.is_none() {
                end_after = Some(pos + 2);
            }
            pos = target;
            lim = data.len();
        } else {
            return Err(ParseError::BadLabel);
        }
    }
}

/// Steps over the labels of the domain name at `start`.
fn skip_name_labels(data: &Vec<u8>, start: usize, limit: usize) -> (r: Result<usize, ParseError>)
    requires
        start <= limit <= data.len(),
    ensures
        match skip_labels(data@, start as int, limit as int, 0) {
            Ok(e) => r == Ok::<usize, ParseError>(e as usize) && start < e <= limit,
            Err(x) => r == Err::<usize, ParseError>(x),
        },
{
    let mut pos: usize = start;
    let mut len: usize = 0;
    loop
        invariant
            limit <= data.len(),
            start <= pos,
            len <= 255,
            skip_labels(data@, pos as int, limit as int, len as int) == skip_labels(
                data@,
                start as int,
                limit as int,
                0,
            ),
        decreases limit - pos,
    {
        if pos >= limit {
            return Err(ParseError::ShortBuf);
        }
        let b = data[pos];
        if b < 64 {
            let blen = b as usize;
            if blen >= limit - pos {
                return Err(ParseError::ShortBuf);
            }
            if len + 1 + blen > 255 {
                return Err(ParseError::LongName);
            }
            if b == 0 {
                return Ok(pos + 1);
            }
            len = len + 1 + blen;
            pos = pos + 1 + blen;
        } else if b >= 192 {
            if limit - pos < 2 {
                return Err(ParseError::ShortBuf);
            }
            return Ok(pos + 2);
        } else {
            return Err(ParseError::BadLabel);
        }
    }
}

impl Dname {
    /// Reads a domain name in wire format, following compression pointers.
    pub fn parse(parser: &mut Parser) -> (r: Result<Dname, ParseError>)
        ensures
            final(parser)@.data == old(parser)@.data,
            final(parser)@.limit == old(parser)@.limit,
            match read_name(old(parser)@.data, old(parser)@.pos, old(parser)@.limit) {
                Ok((ls, end)) => r matches Ok(n) && n.label_seq() == ls && final(parser)@.pos == end,
                Err(e) => r == Err::<Dname, ParseError>(e) && final(parser)@.pos == old(parser)@.pos,
            },
    {
        proof {
            use_type_invariant(&*parser);
        }
        match read_name_labels(&parser.octets, parser.pos, parser.limit) {
            Ok((labels, end)) => {
                parser.pos = end;
                Ok(Dname::from_valid_labels(labels))
            },
            Err(e) => Err(e),
        }
    }

    /// The domain name whose wire format is exactly `octets`.
    pub fn from_octets(octets: Vec<u8>) -> (r: Result<Dname, ParseError>)
        ensures
            match read_name_all(octets@, 0, octets@.len() as int, octets@.len() as int) {
                Ok((ls, _end)) => r matches Ok(n) && n.label_seq() == ls,
                Err(e) => r == Err::<Dname, ParseError>(e),
            },
    {
        let len = octets.len();
        let mut parser = Parser::from_vec(octets);
        Dname::parse_all(&mut parser, len)
    }

    /// Steps over a domain name in wire format without following
    /// compression pointers.
    pub fn skip(parser: &mut Parser) -> (r: Result<(), ParseError>)
        ensures
            final(parser)@.data == old(parser)@.data,
            final(parser)@.limit == old(parser)@.limit,
            match skip_name(old(parser)@.data, old(parser)@.pos, old(parser)@.limit) {
                Ok(end) => r is Ok && final(parser)@.pos == end,
                Err(e) => r == Err::<(), ParseError>(e) && final(parser)@.pos == old(parser)@.pos,
            },
    {
        proof {
            use_type_invariant(&*parser);
        }
        match skip_name_labels(&parser.octets, parser.pos, parser.limit) {
            Ok(end) => {
                parser.pos = end;
                Ok(())
            },
            Err(e) => Err(e),
        }
    }

    /// Reads a domain name in wire format that fills exactly the next `len`
    /// octets.
    pub fn parse_all(parser: &mut Parser, len: usize) -> (r: Result<Dname, ParseError>)
        ensures
            final(parser)@.data == old(parser)@.data,
            final(parser)@.limit == old(parser)@.limit,
            match read_name_all(old(parser)@.data, old(parser)@.pos, old(parser)@.limit, len as int) {
                Ok((ls, end)) => r matches Ok(n) && n.label_seq() == ls && final(parser)@.pos == end,
                Err(e) => r == Err::<Dname, ParseError>(e) && final(parser)@.pos == old(parser)@.pos,
            },
    {
        proof {
            use_type_invariant(&*parser);
        }
        let start = parser.pos;
        match read_name_labels(&parser.octets, start, parser.limit) {
            Ok((labels, end)) => {
                if end - start < len {
                    Err(ParseError::TrailingData)
                } else if end - start > len {
                    Err(ParseError::ShortField)
                } else {
                    parser.pos = end;
                    Ok(Dname::from_valid_labels(labels))
                }
            },
            Err(e) => Err(e),
        }
    }
}

} // verus!
