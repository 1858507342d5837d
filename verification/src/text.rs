//! The presentation format of record data, as in zone files: numbers in
//! decimal and absolute domain names with escapes, separated by white space.

use vstd::prelude::*;

use crate::name::{
    is_name, lemma_check_labels_ok, name_from_labels, vec_labels, Dname, NameError, ToDname,
};
use crate::octets::{copy_bytes, copy_range};
use crate::srv::Srv;
use vstd::string::StringSliceAdditionalSpecFns;

verus! {

/// Why text could not be read as presentation format.
#[derive(Clone, Copy, Debug, PartialEq, Eq, Structural)]
pub enum ScanError {
    /// The text ended before the value started.
    EndOfInput,
    /// A number held something other than decimal digits.
    BadNumber,
    /// A number was larger than 65535.
    NumberTooLarge,
    /// A backslash was not followed by a character or by three digits
    /// giving a value up to 255.
    BadEscape,
    /// A label other than the root label was empty.
    EmptyLabel,
    /// A label was longer than 63 octets.
    LongLabel,
    /// A name was longer than 255 octets in wire format.
    LongName,
    /// A name did not end in a dot.
    RelativeName,
}

/// Space, tab, line feed and carriage return separate tokens.
pub open spec fn is_space(b: u8) -> bool {
    b == 32 || b == 9 || b == 10 || b == 13
}

pub open spec fn is_digit(b: u8) -> bool {
    48 <= b <= 57
}

/// The first position from `pos` on that does not hold white space.
pub open spec fn skip_space(data: Seq<u8>, pos: int) -> int
    decreases data.len() - pos,
{
    if pos < 0 || pos >= data.len() || !is_space(data[pos]) {
        pos
    } else {
        skip_space(data, pos + 1)
    }
}

/// The first position from `pos` on that holds white space, or the end.
pub open spec fn token_end(data: Seq<u8>, pos: int) -> int
    decreases data.len() - pos,
{
    if pos < 0 || pos >= data.len() || is_space(data[pos]) {
        pos
    } else {
        token_end(data, pos + 1)
    }
}

/// Where the next token starts and ends, if there is one.
pub open spec fn next_token(data: Seq<u8>, pos: int) -> Option<(int, int)> {
    let start = skip_space(data, pos);
    if 0 <= pos && start < data.len() {
        Some((start, token_end(data, start)))
    } else {
        None
    }
}

/// The value of decimal digits from `i` on, after a value `acc` read before.
pub open spec fn scan_decimal(tok: Seq<u8>, i: int, acc: int) -> Result<u16, ScanError>
    decreases tok.len() - i,
{
    if i < 0 || i >= tok.len() {
        Ok(acc as u16)
    } else if !is_digit(tok[i]) {
        Err(ScanError::BadNumber)
    } else if acc * 10 + (tok[i] - 48) > 65535 {
        Err(ScanError::NumberTooLarge)
    } else {
        scan_decimal(tok, i + 1, acc * 10 + (tok[i] - 48))
    }
}

/// The number in the next token, and the position after it.
pub open spec fn read_u16_text(data: Seq<u8>, pos: int) -> Result<(u16, int), ScanError> {
    match next_token(data, pos) {
        None => Err(ScanError::EndOfInput),
        Some((s, e)) => match scan_decimal(data.subrange(s, e), 0, 0) {
            Ok(v) => Ok((v, e)),
            Err(x) => Err(x),
        },
    }
}

/// The octet a token gives at `i`, and how many characters it takes: a
/// backslash escapes the next character, or gives the octet of the three
/// decimal digits after it.
pub open spec fn decode_char(tok: Seq<u8>, i: int) -> Result<(u8, int), ScanError> {
    if tok[i] != 92 {
        Ok((tok[i], 1))
    } else if i + 1 >= tok.len() {
        Err(ScanError::BadEscape)
    } else if !is_digit(tok[i + 1]) {
        Ok((tok[i + 1], 2))
    } else if i + 3 < tok.len() && is_digit(tok[i + 2]) && is_digit(tok[i + 3]) {
        let v = (tok[i + 1] - 48) * 100 + (tok[i + 2] - 48) * 10 + (tok[i + 3] - 48);
        if v > 255 {
            Err(ScanError::BadEscape)
        } else {
            Ok((v as u8, 4))
        }
    } else {
        Err(ScanError::BadEscape)
    }
}

/// The labels before the root label in a token from `i` on, when the label
/// `cur` is under way and the labels `acc` are complete. Unescaped dots end
/// labels; the token must end with one.
pub open spec fn scan_labels(tok: Seq<u8>, i: int, cur: Seq<u8>, acc: Seq<Seq<u8>>) -> Result<
    Seq<Seq<u8>>,
    ScanError,
>
    decreases tok.len() - i,
{
    if i < 0 || i >= tok.len() {
        if cur.len() == 0 {
            Ok(acc)
        } else {
            Err(ScanError::RelativeName)
        }
    } else if tok[i] == 46 {
        if cur.len() == 0 {
            Err(ScanError::EmptyLabel)
        } else {
            scan_labels(tok, i + 1, Seq::empty(), acc.push(cur))
        }
    } else {
        match decode_char(tok, i) {
            Err(e) => Err(e),
            Ok((b, n)) => if cur.len() >= 63 {
                Err(ScanError::LongLabel)
            } else {
                scan_labels(tok, i + n, cur.push(b), acc)
            },
        }
    }
}

/// The error scanning reports for labels that form no name.
pub open spec fn scan_error_of(e: NameError) -> ScanError {
    match e {
        NameError::EmptyLabel => ScanError::EmptyLabel,
        NameError::LongLabel => ScanError::LongLabel,
        NameError::LongName => ScanError::LongName,
    }
}

/// The labels of the absolute domain name a token spells; a single dot is
/// the root name.
pub open spec fn scan_name_token(tok: Seq<u8>) -> Result<Seq<Seq<u8>>, ScanError> {
    if tok == seq![46u8] {
        Ok(seq![Seq::<u8>::empty()])
    } else {
        match scan_labels(tok, 0, Seq::empty(), Seq::empty()) {
            Err(e) => Err(e),
            Ok(acc) => match name_from_labels(acc) {
                Ok(ls) => Ok(ls),
                Err(e) => Err(scan_error_of(e)),
            },
        }
    }
}

/// The domain name in the next token, and the position after it.
pub open spec fn read_name_text(data: Seq<u8>, pos: int) -> Result<(Seq<Seq<u8>>, int), ScanError> {
    match next_token(data, pos) {
        None => Err(ScanError::EndOfInput),
        Some((s, e)) => match scan_name_token(data.subrange(s, e)) {
            Ok(ls) => Ok((ls, e)),
            Err(x) => Err(x),
        },
    }
}

/// Priority, weight, port and target read from text at `pos`, and the
/// position after them.
pub open spec fn read_srv_text(data: Seq<u8>, pos: int) -> Result<
    (u16, u16, u16, Seq<Seq<u8>>, int),
    ScanError,
> {
    match read_u16_text(data, pos) {
        Err(e) => Err(e),
        Ok((priority, p1)) => match read_u16_text(data, p1) {
            Err(e) => Err(e),
            Ok((weight, p2)) => match read_u16_text(data, p2) {
                Err(e) => Err(e),
                Ok((port, p3)) => match read_name_text(data, p3) {
                    Err(e) => Err(e),
                    Ok((labels, end)) => Ok((priority, weight, port, labels, end)),
                },
            },
        },
    }
}

/// The decimal digits of a number, without leading zeros.
pub open spec fn decimal(v: nat) -> Seq<u8>
    decreases v,
{
    if v < 10 {
        seq![(48 + v) as u8]
    } else {
        decimal(v / 10).push((48 + v % 10) as u8)
    }
}

/// The presentation of one octet of a label: dots and backslashes are
/// escaped by a backslash, white space, control characters and octets
/// beyond ASCII by a backslash and three decimal digits.
pub open spec fn escape_byte(b: u8) -> Seq<u8> {
    if b == 46 || b == 92 {
        seq![92u8, b]
    } else if b <= 32 || b >= 127 {
        seq![92u8, (48 + b / 100) as u8, (48 + b / 10 % 10) as u8, (48 + b % 10) as u8]
    } else {
        seq![b]
    }
}

/// The presentation of a label.
pub open spec fn label_text(l: Seq<u8>) -> Seq<u8>
    decreases l.len(),
{
    if l.len() == 0 {
        Seq::empty()
    } else {
        label_text(l.drop_last()) + escape_byte(l.last())
    }
}

/// The presentation of labels, each followed by a dot.
pub open spec fn labels_text(ls: Seq<Seq<u8>>) -> Seq<u8>
    decreases ls.len(),
{
    if ls.len() == 0 {
        Seq::empty()
    } else {
        labels_text(ls.drop_last()) + label_text(ls.last()) + seq![46u8]
    }
}

/// The presentation of an absolute domain name: its labels each followed
/// by a dot, or a single dot for the root.
pub open spec fn name_text(ls: Seq<Seq<u8>>) -> Seq<u8> {
    if ls.len() <= 1 {
        seq![46u8]
    } else {
        labels_text(ls.drop_last())
    }
}

/// The presentation of record data: the three numbers and the target,
/// separated by single spaces.
pub open spec fn srv_text(priority: u16, weight: u16, port: u16, ls: Seq<Seq<u8>>) -> Seq<u8> {
    decimal(priority as nat) + seq![32u8] + decimal(weight as nat) + seq![32u8] + decimal(
        port as nat,
    ) + seq![32u8] + name_text(ls)
}

/// The characters of ASCII text.
pub open spec fn ascii_chars(s: Seq<u8>) -> Seq<char> {
    s.map_values(|b: u8| b as char)
}

/// A scanner reading presentation format from a position on.
pub struct ScannerView {
    pub data: Seq<u8>,
    pub pos: int,
}

/// A scanner over the octets of presentation-format text.
pub struct Scanner {
    chars: Vec<u8>,
    pos: usize,
}

impl View for Scanner {
    type V = ScannerView;

    closed spec fn view(&self) -> ScannerView {
        ScannerView { data: self.chars@, pos: self.pos as int }
    }
}

impl Scanner {
    #[verifier::type_invariant]
    closed spec fn inv(&self) -> bool {
        self.pos <= self.chars.len()
    }

    /// A scanner at the start of `text`.
    pub fn new(text: &str) -> (s: Scanner)
        ensures
            s@.data == text.spec_bytes(),
            s@.pos == 0,
    {
        Scanner { chars: copy_bytes(text.as_bytes()), pos: 0 }
    }

    /// A scanner at the start of the octets `chars`.
    pub fn from_vec(chars: Vec<u8>) -> (s: Scanner)
        ensures
            s@.data == chars@,
            s@.pos == 0,
    {
        Scanner { chars, pos: 0 }
    }

    /// The current position.
    pub fn pos(&self) -> (r: usize)
        ensures
            r == self@.pos,
            r <= self@.data.len(),
    {
        proof {
            use_type_invariant(self);
        }
        self.pos
    }

    /// Finds the next token.
    fn token(&self) -> (r: Option<(usize, usize)>)
        ensures
            r is None <==> next_token(self@.data, self@.pos) is None,
            r matches Some((s, e)) ==> next_token(self@.data, self@.pos) == Some::<(int, int)>(
                (s as int, e as int),
            ) && s < e <= self@.data.len(),
    {
        proof {
            use_type_invariant(self);
        }
        let data = &self.chars;
        let mut s = self.pos;
        while s < data.len() && (data[s] == 32 || data[s] == 9 || data[s] == 10 || data[s] == 13)
            invariant
                self.pos <= s <= data.len(),
                data@ == self@.data,
                skip_space(data@, s as int) == skip_space(data@, self.pos as int),
            decreases data.len() - s,
        {
            s = s + 1;
        }
        if s >= data.len() {
            return None;
        }
        let mut e = s;
        while e < data.len() && !(data[e] == 32 || data[e] == 9 || data[e] == 10 || data[e] == 13)
            invariant
                s <= e <= data.len(),
                data@ == self@.data,
                token_end(data@, e as int) == token_end(data@, s as int),
            decreases data.len() - e,
        {
            e = e + 1;
        }
        assert(s < e) by {
            assert(!is_space(data@[s as int]));
        }
        Some((s, e))
    }

    /// Reads a decimal number of at most 65535 from the next token. On error
    /// the scanner is left where it was.
    pub fn scan_u16(&mut self) -> (r: Result<u16, ScanError>)
        ensures
            final(self)@.data == old(self)@.data,
            match read_u16_text(old(self)@.data, old(self)@.pos) {
                Ok((v, end)) => r == Ok::<u16, ScanError>(v) && final(self)@.pos == end,
                Err(e) => r == Err::<u16, ScanError>(e) && final(self)@.pos == old(self)@.pos,
            },
    {
        let (s, e) = match self.token() {
            None => return Err(ScanError::EndOfInput),
            Some(t) => t,
        };
        let ghost tok = self.chars@.subrange(s as int, e as int);
        let mut i = s;
        let mut acc: u32 = 0;
        while i < e
            invariant
                s <= i <= e,
                e <= self.chars.len(),
                tok == self.chars@.subrange(s as int, e as int),
                next_token(old(self)@.data, old(self)@.pos) == Some::<(int, int)>((s as int, e as int)),
                old(self)@ == self@,
                acc <= 65535,
                scan_decimal(tok, (i - s) as int, acc as int) == scan_decimal(tok, 0, 0),
            decreases e - i,
        {
            let c = self.chars[i];
            assert(tok[(i - s) as int] == c);
            if c < 48 || c > 57 {
                return Err(ScanError::BadNumber);
            }
            let next = acc * 10 + (c - 48) as u32;
            if next > 65535 {
                return Err(ScanError::NumberTooLarge);
            }
            acc = next;
            i = i + 1;
        }
        self.pos = e;
        Ok(acc as u16)
    }
}

/// The octet and length of the character at `i` of a token.
fn decode_at(tok: &Vec<u8>, i: usize) -> (r: Result<(u8, usize), ScanError>)
    requires
        i < tok.len(),
    ensures
        match decode_char(tok@, i as int) {
            Ok((b, n)) => r matches Ok((b2, n2)) && b2 == b && n2 == n,
            Err(e) => r == Err::<(u8, usize), ScanError>(e),
        },
{
    let c = tok[i];
    if c != 92 {
        return Ok((c, 1));
    }
    if i + 1 >= tok.len() {
        return Err(ScanError::BadEscape);
    }
    let d1 = tok[i + 1];
    if d1 < 48 || d1 > 57 {
        return Ok((d1, 2));
    }
    if tok.len() - i > 3 {
        let d2 = tok[i + 2];
        let d3 = tok[i + 3];
        if 48 <= d2 && d2 <= 57 && 48 <= d3 && d3 <= 57 {
            let v: u32 = (d1 - 48) as u32 * 100 + (d2 - 48) as u32 * 10 + (d3 - 48) as u32;
            if v > 255 {
                return Err(ScanError::BadEscape);
            }
            return Ok((v as u8, 4));
        }
    }
    Err(ScanError::BadEscape)
}

/// The labels before the root label that a token spells.
fn scan_token_labels(tok: &Vec<u8>) -> (r: Result<Vec<Vec<u8>>, ScanError>)
    ensures
        match scan_labels(tok@, 0, Seq::empty(), Seq::empty()) {
            Ok(ls) => r matches Ok(v) && vec_labels(v@) == ls,
            Err(e) => r == Err::<Vec<Vec<u8>>, ScanError>(e),
        },
{
    let mut i: usize = 0;
    let mut cur: Vec<u8> = Vec::new();
    let mut acc: Vec<Vec<u8>> = Vec::new();
    assert(vec_labels(acc@) =~= Seq::<Seq<u8>>::empty());
    assert(cur@ =~= Seq::<u8>::empty());
    while i < tok.len()
        invariant
            i <= tok.len(),
            scan_labels(tok@, i as int, cur@, vec_labels(acc@)) == scan_labels(
                tok@,
                0,
                Seq::empty(),
                Seq::empty(),
            ),
        decreases tok.len() - i,
    {
        if tok[i] == 46 {
            if cur.len() == 0 {
                return Err(ScanError::EmptyLabel);
            }
            let ghost old_acc = vec_labels(acc@);
            let ghost old_cur = cur@;
            let label = cur;
            acc.push(label);
            cur = Vec::new();
            assert(vec_labels(acc@) =~= old_acc.push(old_cur));
            assert(cur@ =~= Seq::<u8>::empty());
            i = i + 1;
        } else {
            let (b, n) = decode_at(tok, i)?;
            if cur.len() >= 63 {
                return Err(ScanError::LongLabel);
            }
            cur.push(b);
            i = i + n;
        }
    }
    if cur.len() != 0 {
        return Err(ScanError::RelativeName);
    }
    Ok(acc)
}

/// The domain name a token spells.
fn scan_name(tok: &Vec<u8>) -> (r: Result<Dname, ScanError>)
    ensures
        match scan_name_token(tok@) {
            Ok(ls) => r matches Ok(n) && n.label_seq() == ls,
            Err(e) => r == Err::<Dname, ScanError>(e),
        },
{
    if tok.len() == 1 && tok[0] == 46 {
        assert(tok@ =~= seq![46u8]);
        return Ok(Dname::root());
    }
    assert(tok@ != seq![46u8]) by {
        if tok@ == seq![46u8] {
            assert(tok@[0] == 46);
        }
    }
    let labels = scan_token_labels(tok)?;
    match Dname::from_labels(labels) {
        Ok(n) => Ok(n),
        Err(NameError::EmptyLabel) => Err(ScanError::EmptyLabel),
        Err(NameError::LongLabel) => Err(ScanError::LongLabel),
        Err(NameError::LongName) => Err(ScanError::LongName),
    }
}

impl Dname {
    /// Reads an absolute domain name from the next token. On error the
    /// scanner is left where it was.
    pub fn scan(scanner: &mut Scanner) -> (r: Result<Dname, ScanError>)
        ensures
            final(scanner)@.data == old(scanner)@.data,
            match read_name_text(old(scanner)@.data, old(scanner)@.pos) {
                Ok((ls, end)) => r matches Ok(n) && n.label_seq() == ls && final(scanner)@.pos == end,
                Err(e) => r == Err::<Dname, ScanError>(e) && final(scanner)@.pos == old(scanner)@.pos,
            },
    {
        let (s, e) = match scanner.token() {
            None => return Err(ScanError::EndOfInput),
            Some(t) => t,
        };
        let tok = copy_range(scanner.chars.as_slice(), s, e);
        let n = scan_name(&tok)?;
        scanner.pos = e;
        Ok(n)
    }
}

/// Where reading record data from text at `pos` leaves the scanner when it
/// fails: after the numbers read before the field that failed.
pub open spec fn srv_text_failure_pos(data: Seq<u8>, pos: int) -> int {
    match read_u16_text(data, pos) {
        Err(_) => pos,
        Ok((_v1, p1)) => match read_u16_text(data, p1) {
            Err(_) => p1,
            Ok((_v2, p2)) => match read_u16_text(data, p2) {
                Err(_) => p2,
                Ok((_v3, p3)) => p3,
            },
        },
    }
}

impl Srv<Dname> {
    /// Reads record data in presentation format: priority, weight and port
    /// in decimal, then the target name. On error the scanner stays after
    /// the numbers read before the field that failed.
    pub fn scan(scanner: &mut Scanner) -> (r: Result<Srv<Dname>, ScanError>)
        ensures
            final(scanner)@.data == old(scanner)@.data,
            match read_srv_text(old(scanner)@.data, old(scanner)@.pos) {
                Ok(f) => r matches Ok(s) && s.spec_priority() == f.0 && s.spec_weight() == f.1
                    && s.spec_port() == f.2 && s.target_labels() == f.3 && final(scanner)@.pos
                    == f.4,
                Err(e) => r == Err::<Srv<Dname>, ScanError>(e) && final(scanner)@.pos
                    == srv_text_failure_pos(old(scanner)@.data, old(scanner)@.pos),
            },
    {
        let priority = scanner.scan_u16()?;
        let weight = scanner.scan_u16()?;
        let port = scanner.scan_u16()?;
        let target = Dname::scan(scanner)?;
        Ok(Srv::new(priority, weight, port, target))
    }
}

/// Appends the decimal digits of `v`.
fn push_decimal(out: &mut Vec<u8>, v: u16)
    ensures
        final(out)@ == old(out)@ + decimal(v as nat),
    decreases v,
{
    if v >= 10 {
        push_decimal(out, v / 10);
    }
    out.push(48 + (v % 10) as u8);
    assert(out@ =~= old(out)@ + decimal(v as nat));
}

/// Appends the presentation of a label.
fn push_label_text(out: &mut Vec<u8>, l: &[u8])
    ensures
        final(out)@ == old(out)@ + label_text(l@),
{
    let mut i: usize = 0;
    assert(l@.take(0) =~= Seq::<u8>::empty());
    assert(old(out)@ + label_text(Seq::<u8>::empty()) =~= old(out)@);
    while i < l.len()
        invariant
            i <= l.len(),
            out@ == old(out)@ + label_text(l@.take(i as int)),
        decreases l.len() - i,
    {
        let b = l[i];
        if b == 46 || b == 92 {
            out.push(92);
            out.push(b);
        } else if b <= 32 || b >= 127 {
            out.push(92);
            out.push(48 + b / 100);
            out.push(48 + b / 10 % 10);
            out.push(48 + b % 10);
        } else {
            out.push(b);
        }
        assert(l@.take(i + 1).drop_last() =~= l@.take(i as int));
        assert(out@ =~= old(out)@ + label_text(l@.take(i + 1)));
        i = i + 1;
    }
    assert(l@.take(l.len() as int) =~= l@);
}

/// Appends the presentation of a domain name.
fn push_name_text<N: ToDname>(out: &mut Vec<u8>, name: &N)
    ensures
        final(out)@ == old(out)@ + name_text(name.label_seq()),
{
    let ghost ls = name.label_seq();
    let n = name.label_count();
    if n <= 1 {
        out.push(46);
        return;
    }
    let ghost init = ls.drop_last();
    let mut i: usize = 0;
    assert(init.take(0) =~= Seq::<Seq<u8>>::empty());
    assert(old(out)@ + labels_text(Seq::<Seq<u8>>::empty()) =~= old(out)@);
    while i < n - 1
        invariant
            n == ls.len(),
            n >= 2,
            ls == name.label_seq(),
            init == ls.drop_last(),
            i <= n - 1,
            out@ == old(out)@ + labels_text(init.take(i as int)),
        decreases n - 1 - i,
    {
        push_label_text(out, name.label_at(i));
        out.push(46);
        assert(init.take(i + 1).drop_last() =~= init.take(i as int));
        assert(init.take(i + 1).last() == ls[i as int]);
        assert(out@ =~= old(out)@ + labels_text(init.take(i + 1)));
        i = i + 1;
    }
    assert(init.take(i as int) =~= init);
}

/// Text of ASCII octets as a string.
#[verifier::external_body]
fn ascii_string(bytes: Vec<u8>) -> (s: String)
    requires
        forall|i: int| 0 <= i < bytes@.len() ==> bytes@[i] < 128,
    ensures
        s@ == ascii_chars(bytes@),
{
    String::from_utf8(bytes).unwrap()
}

impl Dname {
    /// The presentation format of the name.
    pub fn to_string(&self) -> (r: String)
        ensures
            r@ == ascii_chars(name_text(self.label_seq())),
    {
        let mut out: Vec<u8> = Vec::new();
        push_name_text(&mut out, self);
        proof {
            lemma_name_text_ascii(self.label_seq());
        }
        assert(out@ =~= name_text(self.label_seq()));
        ascii_string(out)
    }
}

impl<N: ToDname> Srv<N> {
    /// The presentation format of the record data: priority, weight and
    /// port in decimal and the target name, separated by single spaces.
    pub fn to_string(&self) -> (r: String)
        ensures
            r@ == ascii_chars(
                srv_text(self.spec_priority(), self.spec_weight(), self.spec_port(), self.target_labels()),
            ),
    {
        let mut out: Vec<u8> = Vec::new();
        push_decimal(&mut out, self.priority());
        out.push(32);
        push_decimal(&mut out, self.weight());
        out.push(32);
        push_decimal(&mut out, self.port());
        out.push(32);
        push_name_text(&mut out, self.target());
        let ghost text = srv_text(self.spec_priority(), self.spec_weight(), self.spec_port(), self.target_labels());
        assert(out@ =~= text);
        proof {
            lemma_srv_text_ascii(self.spec_priority(), self.spec_weight(), self.spec_port(), self.target_labels());
        }
        ascii_string(out)
    }
}

/// Decimal digits are ASCII digits.
pub proof fn lemma_decimal_digits(v: nat)
    ensures
        decimal(v).len() >= 1,
        forall|k: int| 0 <= k < decimal(v).len() ==> is_digit(#[trigger] decimal(v)[k]),
    decreases v,
{
    if v >= 10 {
        lemma_decimal_digits(v / 10);
    }
}

/// The presentation of a label holds neither white space, nor dots that
/// are not escaped, nor octets beyond ASCII.
pub proof fn lemma_label_text_ascii(l: Seq<u8>)
    ensures
        forall|k: int| 0 <= k < label_text(l).len() ==> {
            &&& #[trigger] label_text(l)[k] < 128
            &&& !is_space(label_text(l)[k])
        },
    decreases l.len(),
{
    if l.len() > 0 {
        lemma_label_text_ascii(l.drop_last());
        let b = l.last();
        let t = label_text(l);
        let p = label_text(l.drop_last());
        let e = escape_byte(b);
        assert forall|k: int| 0 <= k < t.len() implies #[trigger] t[k] < 128 && !is_space(t[k]) by {
            if k < p.len() {
                assert(t[k] == p[k]);
            } else {
                assert(t[k] == e[k - p.len()]);
            }
        }
    }
}

/// The presentation of labels holds neither white space nor octets beyond
/// ASCII.
pub proof fn lemma_labels_text_ascii(ls: Seq<Seq<u8>>)
    ensures
        forall|k: int| 0 <= k < labels_text(ls).len() ==> {
            &&& #[trigger] labels_text(ls)[k] < 128
            &&& !is_space(labels_text(ls)[k])
        },
    decreases ls.len(),
{
    if ls.len() > 0 {
        lemma_labels_text_ascii(ls.drop_last());
        lemma_label_text_ascii(ls.last());
        let t = labels_text(ls);
        let p = labels_text(ls.drop_last());
        let m = label_text(ls.last());
        assert forall|k: int| 0 <= k < t.len() implies #[trigger] t[k] < 128 && !is_space(t[k]) by {
            if k < p.len() {
                assert(t[k] == p[k]);
            } else if k < p.len() + m.len() {
                assert(t[k] == m[k - p.len()]);
            } else {
                assert(t[k] == 46);
            }
        }
    }
}

/// The presentation of a name is nonempty ASCII without white space.
pub proof fn lemma_name_text_ascii(ls: Seq<Seq<u8>>)
    ensures
        name_text(ls).len() >= 1,
        forall|k: int| 0 <= k < name_text(ls).len() ==> {
            &&& #[trigger] name_text(ls)[k] < 128
            &&& !is_space(name_text(ls)[k])
        },
{
    if ls.len() > 1 {
        lemma_labels_text_ascii(ls.drop_last());
        let i = ls.drop_last();
        assert(i.len() > 0);
        assert(labels_text(i).len() >= 1);
    }
}

/// The presentation of record data is ASCII.
pub proof fn lemma_srv_text_ascii(priority: u16, weight: u16, port: u16, ls: Seq<Seq<u8>>)
    ensures
        forall|k: int| 0 <= k < srv_text(priority, weight, port, ls).len() ==> #[trigger] srv_text(
            priority,
            weight,
            port,
            ls,
        )[k] < 128,
{
    lemma_decimal_digits(priority as nat);
    lemma_decimal_digits(weight as nat);
    lemma_decimal_digits(port as nat);
    lemma_name_text_ascii(ls);
    let d1 = decimal(priority as nat);
    let d2 = decimal(weight as nat);
    let d3 = decimal(port as nat);
    let nt = name_text(ls);
    let t = srv_text(priority, weight, port, ls);
    assert forall|k: int| 0 <= k < t.len() implies #[trigger] t[k] < 128 by {
        let a = d1.len();
        let b = a + 1 + d2.len();
        let c = b + 1 + d3.len();
        if k < a {
            assert(t[k] == d1[k]);
        } else if k == a {
            assert(t[k] == 32);
        } else if k < b {
            assert(t[k] == d2[k - a - 1]);
        } else if k == b {
            assert(t[k] == 32);
        } else if k < c {
            assert(t[k] == d3[k - b - 1]);
        } else if k == c {
            assert(t[k] == 32);
        } else {
            assert(t[k] == nt[k - c - 1]);
        }
    }
}

/// The value of a string of decimal digits.
pub open spec fn digits_value(s: Seq<u8>) -> int
    decreases s.len(),
{
    if s.len() == 0 {
        0
    } else {
        digits_value(s.drop_last()) * 10 + (s.last() - 48)
    }
}

/// The decimal digits of a number have its value.
pub proof fn lemma_decimal_value(v: nat)
    ensures
        digits_value(decimal(v)) == v,
    decreases v,
{
    if v >= 10 {
        lemma_decimal_value(v / 10);
        assert(decimal(v).drop_last() =~= decimal(v / 10));
        assert(decimal(v).last() == 48 + v % 10);
        assert((v / 10) * 10 + v % 10 == v);
    } else {
        assert(decimal(v).drop_last() =~= Seq::<u8>::empty());
        assert(decimal(v).last() == 48 + v);
        assert(digits_value(Seq::<u8>::empty()) == 0);
    }
}

/// The value of a prefix of digits is at most that of a longer prefix.
pub proof fn lemma_digits_value_prefix(s: Seq<u8>, j: int, k: int)
    requires
        0 <= j <= k <= s.len(),
        forall|i: int| 0 <= i < s.len() ==> is_digit(#[trigger] s[i]),
    ensures
        0 <= digits_value(s.take(j)) <= digits_value(s.take(k)),
    decreases k,
{
    if k > 0 {
        assert(s.take(k).drop_last() =~= s.take(k - 1));
        assert(is_digit(s[k - 1]));
        if j < k {
            lemma_digits_value_prefix(s, j, k - 1);
        } else {
            lemma_digits_value_prefix(s, k - 1, k - 1);
        }
    } else {
        assert(s.take(0) =~= Seq::<u8>::empty());
    }
}

/// Scanning the digits of a number up to 65535 gives the number back.
pub proof fn lemma_scan_decimal(s: Seq<u8>, i: int)
    requires
        0 <= i <= s.len(),
        forall|k: int| 0 <= k < s.len() ==> is_digit(#[trigger] s[k]),
        digits_value(s) <= 65535,
    ensures
        scan_decimal(s, i, digits_value(s.take(i))) == Ok::<u16, ScanError>(digits_value(s) as u16),
    decreases s.len() - i,
{
    assert(s.take(s.len() as int) =~= s);
    if i < s.len() {
        assert(s.take(i + 1).drop_last() =~= s.take(i));
        lemma_digits_value_prefix(s, i + 1, s.len() as int);
        lemma_scan_decimal(s, i + 1);
    }
}

/// Skipping white space stops at the first other octet.
pub proof fn lemma_skip_space_to(data: Seq<u8>, p: int, s: int)
    requires
        0 <= p <= s <= data.len(),
        forall|k: int| p <= k < s ==> is_space(#[trigger] data[k]),
        s < data.len() ==> !is_space(data[s]),
    ensures
        skip_space(data, p) == s,
    decreases s - p,
{
    if p < s {
        lemma_skip_space_to(data, p + 1, s);
    }
}

/// A token ends at the first white space.
pub proof fn lemma_token_end_to(data: Seq<u8>, q: int, e: int)
    requires
        0 <= q <= e <= data.len(),
        forall|k: int| q <= k < e ==> !is_space(#[trigger] data[k]),
        e < data.len() ==> is_space(data[e]),
    ensures
        token_end(data, q) == e,
    decreases e - q,
{
    if q < e {
        lemma_token_end_to(data, q + 1, e);
    }
}

/// The escape of an octet, wherever it stands in a token, decodes to it.
pub proof fn lemma_decode_escape(tok: Seq<u8>, k: int, b: u8)
    requires
        0 <= k,
        k + escape_byte(b).len() <= tok.len(),
        tok.subrange(k, k + escape_byte(b).len()) == escape_byte(b),
    ensures
        decode_char(tok, k) == Ok::<(u8, int), ScanError>((b, escape_byte(b).len() as int)),
        tok[k] != 46,
{
    let e = escape_byte(b);
    assert forall|j: int| 0 <= j < e.len() implies tok[k + j] == e[j] by {
        assert(tok.subrange(k, k + e.len())[j] == e[j]);
    }
    let sub = tok.subrange(k, k + e.len());
    assert(sub[0] == tok[k]);
    if b == 46 || b == 92 {
        assert(sub[1] == tok[k + 1]);
        assert(tok[k] == 92);
        assert(tok[k + 1] == b);
    } else if b <= 32 || b >= 127 {
        assert(sub[1] == tok[k + 1]);
        assert(sub[2] == tok[k + 2]);
        assert(sub[3] == tok[k + 3]);
        assert(tok[k] == 92);
        let v = (tok[k + 1] - 48) * 100 + (tok[k + 2] - 48) * 10 + (tok[k + 3] - 48);
        assert(v == b / 100 * 100 + b / 10 % 10 * 10 + b % 10);
        assert(b / 100 * 100 + b / 10 % 10 * 10 + b % 10 == b) by (nonlinear_arith)
            requires
                b < 256,
        ;
    } else {
        assert(tok[k] == b);
    }
}

/// Scanning the presentation of a label adds it to the label under way.
pub proof fn lemma_scan_label_text(
    tok: Seq<u8>,
    j: int,
    l: Seq<u8>,
    cur: Seq<u8>,
    acc: Seq<Seq<u8>>,
)
    requires
        0 <= j,
        j + label_text(l).len() <= tok.len(),
        tok.subrange(j, j + label_text(l).len()) == label_text(l),
        cur.len() + l.len() <= 63,
    ensures
        scan_labels(tok, j, cur, acc) == scan_labels(tok, j + label_text(l).len(), cur + l, acc),
    decreases l.len(),
{
    if l.len() == 0 {
        assert(cur + l =~= cur);
    } else {
        let l0 = l.drop_last();
        let b = l.last();
        let t0 = label_text(l0);
        let e = escape_byte(b);
        assert(label_text(l) == t0 + e);
        assert(tok.subrange(j, j + t0.len()) =~= t0) by {
            assert forall|i: int| 0 <= i < t0.len() implies tok[j + i] == t0[i] by {
                assert(tok.subrange(j, j + label_text(l).len())[i] == label_text(l)[i]);
            }
        }
        lemma_scan_label_text(tok, j, l0, cur, acc);
        let k = j + t0.len();
        assert(tok.subrange(k, k + e.len()) =~= e) by {
            assert forall|i: int| 0 <= i < e.len() implies tok[k + i] == e[i] by {
                assert(tok.subrange(j, j + label_text(l).len())[t0.len() + i] == label_text(l)[t0.len() + i]);
            }
        }
        lemma_decode_escape(tok, k, b);
        assert((cur + l0).push(b) =~= cur + l);
    }
}

/// Scanning the presentation of labels, each followed by a dot, completes
/// them.
pub proof fn lemma_scan_labels_text(tok: Seq<u8>, i: int, ls: Seq<Seq<u8>>, acc: Seq<Seq<u8>>)
    requires
        0 <= i,
        i + labels_text(ls).len() <= tok.len(),
        tok.subrange(i, i + labels_text(ls).len()) == labels_text(ls),
        forall|k: int| 0 <= k < ls.len() ==> 1 <= #[trigger] ls[k].len() <= 63,
    ensures
        scan_labels(tok, i, Seq::empty(), acc) == scan_labels(
            tok,
            i + labels_text(ls).len(),
            Seq::empty(),
            acc + ls,
        ),
    decreases ls.len(),
{
    if ls.len() == 0 {
        assert(acc + ls =~= acc);
    } else {
        let init = ls.drop_last();
        let last = ls.last();
        let ti = labels_text(init);
        let tl = label_text(last);
        let whole = labels_text(ls);
        assert(whole == ti + tl + seq![46u8]);
        assert forall|k: int| 0 <= k < init.len() implies 1 <= #[trigger] init[k].len() <= 63 by {
            assert(init[k] == ls[k]);
        }
        assert(tok.subrange(i, i + ti.len()) =~= ti) by {
            assert forall|k: int| 0 <= k < ti.len() implies tok[i + k] == ti[k] by {
                assert(tok.subrange(i, i + whole.len())[k] == whole[k]);
            }
        }
        lemma_scan_labels_text(tok, i, init, acc);
        let k0 = i + ti.len();
        assert(tok.subrange(k0, k0 + tl.len()) =~= tl) by {
            assert forall|k: int| 0 <= k < tl.len() implies tok[k0 + k] == tl[k] by {
                assert(tok.subrange(i, i + whole.len())[ti.len() + k] == whole[ti.len() + k]);
            }
        }
        assert(1 <= ls[ls.len() - 1].len() <= 63);
        lemma_scan_label_text(tok, k0, last, Seq::empty(), acc + init);
        assert(Seq::<u8>::empty() + last =~= last);
        let m = k0 + tl.len();
        assert(tok[m] == 46) by {
            assert(tok.subrange(i, i + whole.len())[(ti.len() + tl.len()) as int] == whole[(ti.len() + tl.len()) as int]);
        }
        assert((acc + init).push(last) =~= acc + ls);
    }
}

/// Scanning the presentation of a domain name gives the name back.
pub proof fn lemma_scan_name_text(ls: Seq<Seq<u8>>)
    requires
        is_name(ls),
    ensures
        scan_name_token(name_text(ls)) == Ok::<Seq<Seq<u8>>, ScanError>(ls),
{
    if ls.len() == 1 {
        assert(ls.last() == ls[0]);
        assert(ls[0] =~= Seq::<u8>::empty());
        assert(ls =~= seq![Seq::<u8>::empty()]);
    } else {
        let init = ls.drop_last();
        let tok = labels_text(init);
        assert forall|k: int| 0 <= k < init.len() implies 1 <= #[trigger] init[k].len() <= 63 by {
            assert(init[k] == ls[k]);
        }
        assert(tok.subrange(0, tok.len() as int) =~= tok);
        lemma_scan_labels_text(tok, 0, init, Seq::empty());
        assert(Seq::<Seq<u8>>::empty() + init =~= init);
        assert(tok != seq![46u8]) by {
            let t0 = labels_text(init.drop_last());
            let tl = label_text(init.last());
            assert(tok == t0 + tl + seq![46u8]);
            assert(init.last().len() >= 1);
            lemma_label_text_len(init.last());
            assert(tok.len() >= 2);
        }
        lemma_check_labels_ok(init);
        assert(ls.last() =~= Seq::<u8>::empty());
        assert(init.push(Seq::<u8>::empty()) =~= ls);
    }
}

/// Scanning the presentation format of record data gives back its fields.
pub proof fn lemma_display_scan_roundtrip<N: ToDname>(s: Srv<N>)
    ensures
        read_srv_text(
            srv_text(s.spec_priority(), s.spec_weight(), s.spec_port(), s.target_labels()),
            0,
        ) == Ok::<(u16, u16, u16, Seq<Seq<u8>>, int), ScanError>(
            (
                s.spec_priority(),
                s.spec_weight(),
                s.spec_port(),
                s.target_labels(),
                srv_text(s.spec_priority(), s.spec_weight(), s.spec_port(), s.target_labels()).len() as int,
            ),
        ),
{
    s.spec_target().lemma_label_seq_is_name();
    lemma_scan_srv_text(s.spec_priority(), s.spec_weight(), s.spec_port(), s.target_labels());
}

/// A label's presentation is at least as long as the label.
pub proof fn lemma_label_text_len(l: Seq<u8>)
    ensures
        label_text(l).len() >= l.len(),
    decreases l.len(),
{
    if l.len() > 0 {
        lemma_label_text_len(l.drop_last());
    }
}

/// Scanning the presentation of record data gives back its fields and
/// ends at the end of the text.
pub proof fn lemma_scan_srv_text(priority: u16, weight: u16, port: u16, ls: Seq<Seq<u8>>)
    requires
        is_name(ls),
    ensures
        read_srv_text(srv_text(priority, weight, port, ls), 0) == Ok::<
            (u16, u16, u16, Seq<Seq<u8>>, int),
            ScanError,
        >((priority, weight, port, ls, srv_text(priority, weight, port, ls).len() as int)),
{
    let d1 = decimal(priority as nat);
    let d2 = decimal(weight as nat);
    let d3 = decimal(port as nat);
    let nt = name_text(ls);
    let t = srv_text(priority, weight, port, ls);
    lemma_decimal_digits(priority as nat);
    lemma_decimal_digits(weight as nat);
    lemma_decimal_digits(port as nat);
    lemma_decimal_value(priority as nat);
    lemma_decimal_value(weight as nat);
    lemma_decimal_value(port as nat);
    lemma_name_text_ascii(ls);
    let a = d1.len() as int;
    let b = a + 1 + d2.len();
    let c = b + 1 + d3.len();
    assert(t.len() == c + 1 + nt.len());
    assert forall|k: int| 0 <= k < a implies t[k] == d1[k] by {}
    assert(t[a] == 32);
    assert forall|k: int| a < k < b implies t[k] == d2[k - a - 1] by {}
    assert(t[b] == 32);
    assert forall|k: int| b < k < c implies t[k] == d3[k - b - 1] by {}
    assert(t[c] == 32);
    assert forall|k: int| c < k < t.len() implies t[k] == nt[k - c - 1] by {}
    // First number.
    lemma_skip_space_to(t, 0, 0);
    assert forall|k: int| 0 <= k < a implies !is_space(#[trigger] t[k]) by {
        assert(is_digit(d1[k]));
    }
    lemma_token_end_to(t, 0, a);
    assert(t.subrange(0, a) =~= d1);
    assert(d1.take(0) =~= Seq::<u8>::empty());
    lemma_scan_decimal(d1, 0);
    // Second number.
    lemma_skip_space_to(t, a, a + 1);
    assert forall|k: int| a + 1 <= k < b implies !is_space(#[trigger] t[k]) by {
        assert(is_digit(d2[k - a - 1]));
    }
    lemma_token_end_to(t, a + 1, b);
    assert(t.subrange(a + 1, b) =~= d2);
    assert(d2.take(0) =~= Seq::<u8>::empty());
    lemma_scan_decimal(d2, 0);
    // Third number.
    lemma_skip_space_to(t, b, b + 1);
    assert forall|k: int| b + 1 <= k < c implies !is_space(#[trigger] t[k]) by {
        assert(is_digit(d3[k - b - 1]));
    }
    lemma_token_end_to(t, b + 1, c);
    assert(t.subrange(b + 1, c) =~= d3);
    assert(d3.take(0) =~= Seq::<u8>::empty());
    lemma_scan_decimal(d3, 0);
    // The target.
    lemma_skip_space_to(t, c, c + 1);
    assert forall|k: int| c + 1 <= k < t.len() implies !is_space(#[trigger] t[k]) by {
        assert(!is_space(nt[k - c - 1]));
    }
    lemma_token_end_to(t, c + 1, t.len() as int);
    assert(t.subrange(c + 1, t.len() as int) =~= nt);
    lemma_scan_name_text(ls);
}

/// The octets the presentation format takes as white space: space, tab,
/// line feed and carriage return.
pub open spec fn separator_octet(b: u8) -> bool {
    b == 32 || b == 9 || b == 10 || b == 13
}

/// The presentation of record data with the given separator octets.
pub open spec fn spaced_srv_text(
    priority: u16,
    weight: u16,
    port: u16,
    ls: Seq<Seq<u8>>,
    x1: u8,
    x2: u8,
    x3: u8,
) -> Seq<u8> {
    decimal(priority as nat) + seq![x1] + decimal(weight as nat) + seq![x2] + decimal(port as nat)
        + seq![x3] + name_text(ls)
}

/// Scanning record data whose fields are separated by any of space, tab,
/// line feed or carriage return, and followed by any run of these, gives
/// back its fields and ends right after the target.
pub proof fn lemma_scan_srv_text_spaced(
    priority: u16,
    weight: u16,
    port: u16,
    ls: Seq<Seq<u8>>,
    x1: u8,
    x2: u8,
    x3: u8,
    tail: Seq<u8>,
)
    requires
        is_name(ls),
        separator_octet(x1),
        separator_octet(x2),
        separator_octet(x3),
        forall|k: int| 0 <= k < tail.len() ==> separator_octet(#[trigger] tail[k]),
    ensures
        read_srv_text(spaced_srv_text(priority, weight, port, ls, x1, x2, x3) + tail, 0) == Ok::<
            (u16, u16, u16, Seq<Seq<u8>>, int),
            ScanError,
        >((priority, weight, port, ls, spaced_srv_text(priority, weight, port, ls, x1, x2, x3).len() as int)),
{
    let d1 = decimal(priority as nat);
    let d2 = decimal(weight as nat);
    let d3 = decimal(port as nat);
    let nt = name_text(ls);
    let t0 = spaced_srv_text(priority, weight, port, ls, x1, x2, x3);
    let t = t0 + tail;
    lemma_decimal_digits(priority as nat);
    lemma_decimal_digits(weight as nat);
    lemma_decimal_digits(port as nat);
    lemma_decimal_value(priority as nat);
    lemma_decimal_value(weight as nat);
    lemma_decimal_value(port as nat);
    lemma_name_text_ascii(ls);
    let a = d1.len() as int;
    let b = a + 1 + d2.len();
    let c = b + 1 + d3.len();
    assert(t0.len() == c + 1 + nt.len());
    assert forall|k: int| t0.len() <= k < t.len() implies separator_octet(t[k]) by {
        assert(t[k] == tail[k - t0.len()]);
    }
    assert forall|k: int| 0 <= k < a implies t[k] == d1[k] by {}
    assert(t[a] == x1);
    assert forall|k: int| a < k < b implies t[k] == d2[k - a - 1] by {}
    assert(t[b] == x2);
    assert forall|k: int| b < k < c implies t[k] == d3[k - b - 1] by {}
    assert(t[c] == x3);
    assert forall|k: int| c < k < t0.len() implies t[k] == nt[k - c - 1] by {}
    // First number.
    lemma_skip_space_to(t, 0, 0);
    assert forall|k: int| 0 <= k < a implies !is_space(#[trigger] t[k]) by {
        assert(is_digit(d1[k]));
    }
    lemma_token_end_to(t, 0, a);
    assert(t.subrange(0, a) =~= d1);
    assert(d1.take(0) =~= Seq::<u8>::empty());
    lemma_scan_decimal(d1, 0);
    // Second number.
    lemma_skip_space_to(t, a, a + 1);
    assert forall|k: int| a + 1 <= k < b implies !is_space(#[trigger] t[k]) by {
        assert(is_digit(d2[k - a - 1]));
    }
    lemma_token_end_to(t, a + 1, b);
    assert(t.subrange(a + 1, b) =~= d2);
    assert(d2.take(0) =~= Seq::<u8>::empty());
    lemma_scan_decimal(d2, 0);
    // Third number.
    lemma_skip_space_to(t, b, b + 1);
    assert forall|k: int| b + 1 <= k < c implies !is_space(#[trigger] t[k]) by {
        assert(is_digit(d3[k - b - 1]));
    }
    lemma_token_end_to(t, b + 1, c);
    assert(t.subrange(b + 1, c) =~= d3);
    assert(d3.take(0) =~= Seq::<u8>::empty());
    lemma_scan_decimal(d3, 0);
    // The target.
    lemma_skip_space_to(t, c, c + 1);
    assert forall|k: int| c + 1 <= k < t0.len() implies !is_space(#[trigger] t[k]) by {
        assert(!is_space(nt[k - c - 1]));
    }
    lemma_token_end_to(t, c + 1, t0.len() as int);
    assert(t.subrange(c + 1, t0.len() as int) =~= nt);
    lemma_scan_name_text(ls);
}

/// Scanning the presentation of record data followed by a line ending of
/// carriage return and line feed gives back its fields.
pub proof fn lemma_scan_srv_text_crlf(priority: u16, weight: u16, port: u16, ls: Seq<Seq<u8>>)
    requires
        is_name(ls),
    ensures
        read_srv_text(srv_text(priority, weight, port, ls) + seq![13u8, 10u8], 0) == Ok::<
            (u16, u16, u16, Seq<Seq<u8>>, int),
            ScanError,
        >((priority, weight, port, ls, srv_text(priority, weight, port, ls).len() as int)),
        read_srv_text(spaced_srv_text(priority, weight, port, ls, 13, 13, 13), 0) == Ok::<
            (u16, u16, u16, Seq<Seq<u8>>, int),
            ScanError,
        >((priority, weight, port, ls, srv_text(priority, weight, port, ls).len() as int)),
{
    assert(srv_text(priority, weight, port, ls) =~= spaced_srv_text(priority, weight, port, ls, 32, 32, 32));
    lemma_scan_srv_text_spaced(priority, weight, port, ls, 32, 32, 32, seq![13u8, 10u8]);
    lemma_scan_srv_text_spaced(priority, weight, port, ls, 13, 13, 13, Seq::empty());
    assert(spaced_srv_text(priority, weight, port, ls, 13, 13, 13) + Seq::<u8>::empty()
        =~= spaced_srv_text(priority, weight, port, ls, 13, 13, 13));
}

} // verus!
