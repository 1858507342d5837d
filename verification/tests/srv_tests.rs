use domain::builder::{Builder, ShortBuf};
use domain::name::{Dname, ToDname};
use domain::parse::{ParseError, Parser};
use domain::server::ServerCommand;
use domain::srv::Srv;
use std::cmp::Ordering;

fn dname(labels: &[&str]) -> Dname {
    Dname::from_labels(labels.iter().map(|l| l.as_bytes().to_vec()).collect()).unwrap()
}

fn srv(priority: u16, weight: u16, port: u16, labels: &[&str]) -> Srv<Dname> {
    Srv::new(priority, weight, port, dname(labels))
}

const SIP_WIRE: [u8; 19] = [
    0, 10, 0, 20, 0x13, 0xC4, 3, b's', b'i', b'p', 7, b'e', b'x', b'a', b'm', b'p', b'l', b'e', 0,
];

#[test]
fn new_and_getters() {
    let s = srv(10, 20, 5060, &["sip", "example"]);
    assert_eq!(s.priority(), 10);
    assert_eq!(s.weight(), 20);
    assert_eq!(s.port(), 5060);
    assert_eq!(s.target().label_at(0), b"sip");
    let t = s.into_target();
    assert_eq!(t.label_count(), 3);
}

#[test]
fn eq_ignores_case_of_target() {
    assert!(srv(1, 2, 3, &["A", "B"]) == srv(1, 2, 3, &["a", "b"]));
    assert!(srv(1, 2, 3, &["a"]) != srv(1, 2, 4, &["a"]));
    assert!(srv(1, 2, 3, &["a"]) != srv(1, 3, 3, &["a"]));
    assert!(srv(1, 2, 3, &["a"]) != srv(2, 2, 3, &["a"]));
    assert!(srv(1, 2, 3, &["a"]) != srv(1, 2, 3, &["b"]));
}

#[test]
fn cmp_orders_fields_in_turn() {
    assert_eq!(srv(1, 9, 9, &["z"]).cmp(&srv(2, 0, 0, &["a"])), Ordering::Less);
    assert_eq!(srv(1, 2, 9, &["z"]).cmp(&srv(1, 1, 0, &["a"])), Ordering::Greater);
    assert_eq!(srv(1, 2, 3, &["z"]).cmp(&srv(1, 2, 4, &["a"])), Ordering::Less);
    assert_eq!(srv(1, 2, 3, &["z", "a"]).cmp(&srv(1, 2, 3, &["a", "b"])), Ordering::Less);
    assert_eq!(srv(1, 2, 3, &["X"]).cmp(&srv(1, 2, 3, &["x"])), Ordering::Equal);
    assert_eq!(
        srv(1, 2, 3, &["z", "a"]).partial_cmp(&srv(1, 2, 3, &["a", "b"])),
        Some(Ordering::Less)
    );
    assert!(srv(0, 0, 0, &["a"]) < srv(0, 0, 1, &["a"]));
}

#[test]
fn canonical_cmp_uses_lowercase_wire_format() {
    assert_eq!(
        srv(1, 2, 3, &["b", "a"]).canonical_cmp(&srv(1, 2, 3, &["aa", "a"])),
        Ordering::Less
    );
    assert_eq!(srv(1, 2, 3, &["b", "a"]).cmp(&srv(1, 2, 3, &["aa", "a"])), Ordering::Greater);
    assert_eq!(
        srv(1, 2, 3, &["B"]).canonical_cmp(&srv(1, 2, 3, &["b"])),
        Ordering::Equal
    );
    assert_eq!(srv(256, 0, 0, &["a"]).canonical_cmp(&srv(255, 9, 9, &["a"])), Ordering::Greater);
}

#[test]
fn compose_writes_wire_format() {
    let mut b = Builder::new();
    srv(10, 20, 5060, &["sip", "example"]).compose(&mut b).unwrap();
    assert_eq!(b.as_slice(), &SIP_WIRE[..]);
}

#[test]
fn compose_canonical_lowercases_target() {
    let mut b = Builder::new();
    srv(10, 20, 5060, &["SIP", "Example"]).compose_canonical(&mut b).unwrap();
    assert_eq!(b.as_slice(), &SIP_WIRE[..]);
    let mut c = Builder::new();
    srv(10, 20, 5060, &["SIP", "Example"]).compose(&mut c).unwrap();
    assert_eq!(&c.as_slice()[6..10], &[3, b'S', b'I', b'P'][..]);
}

#[test]
fn compose_short_buf_appends_nothing() {
    let mut b = Builder::with_limit(18);
    assert_eq!(srv(10, 20, 5060, &["sip", "example"]).compose(&mut b), Err(ShortBuf));
    assert_eq!(b.len(), 0);
    let mut c = Builder::with_limit(5);
    assert_eq!(srv(10, 20, 5060, &["sip", "example"]).compose(&mut c), Err(ShortBuf));
    assert_eq!(c.len(), 0);
    let mut d = Builder::with_limit(19);
    assert_eq!(srv(10, 20, 5060, &["sip", "example"]).compose(&mut d), Ok(()));
}

#[test]
fn parse_reads_wire_format() {
    let mut p = Parser::from_vec(SIP_WIRE.to_vec());
    let s = Srv::parse(&mut p).unwrap();
    assert_eq!(p.pos(), 19);
    assert!(s == srv(10, 20, 5060, &["sip", "example"]));
    assert_eq!(s.port(), 5060);
}

#[test]
fn compose_then_parse_roundtrip() {
    let original = srv(65535, 0, 443, &["Host", "Example", "org"]);
    let mut b = Builder::new();
    original.compose(&mut b).unwrap();
    let mut p = Parser::from_vec(b.into_vec());
    let back = Srv::parse(&mut p).unwrap();
    assert!(back == original);
    assert_eq!(back.target().label_at(0), b"Host");
    assert_eq!(p.remaining(), 0);
}

#[test]
fn parse_follows_compression_pointer() {
    // A name "example." at offset 0, then the record data pointing to it.
    let mut data = vec![7, b'e', b'x', b'a', b'm', b'p', b'l', b'e', 0];
    data.extend_from_slice(&[0, 1, 0, 2, 0, 3, 3, b'w', b'w', b'w', 0xC0, 0]);
    let mut p = Parser::from_vec(data);
    Dname::skip(&mut p).unwrap();
    let s = Srv::parse(&mut p).unwrap();
    assert_eq!(p.pos(), 21);
    assert!(s == srv(1, 2, 3, &["www", "example"]));
}

#[test]
fn parse_errors_stop_after_read_fields() {
    let mut p = Parser::from_vec(vec![0, 1, 0, 2, 0]);
    assert_eq!(Srv::parse(&mut p).err(), Some(ParseError::ShortBuf));
    assert_eq!(p.pos(), 4);
    let mut q = Parser::from_vec(vec![0, 1, 0, 2, 0, 3, 0x80]);
    assert_eq!(Srv::parse(&mut q).err(), Some(ParseError::BadLabel));
    assert_eq!(q.pos(), 6);
    let mut r = Parser::from_vec(vec![7]);
    assert_eq!(Srv::parse(&mut r).err(), Some(ParseError::ShortBuf));
    assert_eq!(r.pos(), 0);
}

#[test]
fn parse_all_checks_length() {
    let mut p = Parser::from_vec(SIP_WIRE.to_vec());
    assert_eq!(Srv::parse_all(&mut p, 6).err(), Some(ParseError::ShortField));
    let mut p = Parser::from_vec(SIP_WIRE.to_vec());
    assert_eq!(p.pos(), 0);
    let mut p = Parser::from_vec(SIP_WIRE.to_vec());
    assert_eq!(Srv::parse_all(&mut p, 18).err(), Some(ParseError::ShortField));
    assert_eq!(p.pos(), 6);
    let mut p = Parser::from_vec(SIP_WIRE.to_vec());
    assert_eq!(Srv::parse_all(&mut p, 20).err(), Some(ParseError::TrailingData));
    let mut p = Parser::from_vec(SIP_WIRE.to_vec());
    let s = Srv::parse_all(&mut p, 19).unwrap();
    assert!(s == srv(10, 20, 5060, &["sip", "example"]));
    assert_eq!(p.pos(), 19);
}

#[test]
fn skip_steps_over_record() {
    let mut data = SIP_WIRE.to_vec();
    data.push(42);
    let mut p = Parser::from_vec(data);
    Srv::skip(&mut p).unwrap();
    assert_eq!(p.pos(), 19);
    let mut q = Parser::from_vec(vec![0, 1, 0]);
    assert_eq!(Srv::skip(&mut q).err(), Some(ParseError::ShortBuf));
    assert_eq!(q.pos(), 2);
}

#[test]
fn server_command_carries_configuration() {
    let cmd: ServerCommand<u32> = ServerCommand::Reconfigure(7);
    let copy = cmd;
    assert!(matches!(copy, ServerCommand::Reconfigure(7)));
    assert!(matches!(ServerCommand::<u32>::Shutdown, ServerCommand::Shutdown));
    assert!(matches!(cmd, ServerCommand::Reconfigure(_)));
    let _ = ServerCommand::<u32>::Init;
    let _ = ServerCommand::<u32>::CloseConnection;
}

fn canonical_bytes(s: &Srv<Dname>) -> Vec<u8> {
    let mut b = Builder::new();
    s.compose_canonical(&mut b).unwrap();
    b.into_vec()
}

#[test]
fn rtype_is_srv() {
    assert_eq!(Srv::<Dname>::RTYPE, 33);
}

#[test]
fn ordering_laws_on_examples() {
    let records = [
        srv(1, 2, 3, &["a", "b"]),
        srv(1, 2, 3, &["B"]),
        srv(1, 2, 3, &["z", "A"]),
        srv(0, 9, 9, &["x"]),
        srv(1, 2, 4, &["a"]),
        srv(1, 2, 3, &["aa", "a"]),
        srv(1, 2, 3, &["b", "a"]),
    ];
    for a in records.iter() {
        assert!(a == a);
        assert_eq!(a.cmp(a), Ordering::Equal);
        for b in records.iter() {
            assert_eq!(a.cmp(b), b.cmp(a).reverse());
            assert_eq!(a.canonical_cmp(b), b.canonical_cmp(a).reverse());
            assert_eq!(a.cmp(b) == Ordering::Equal, a == b);
            assert_eq!(a.canonical_cmp(b) == Ordering::Equal, a == b);
            assert_eq!(a.partial_cmp(b), Some(a.cmp(b)));
            // The canonical ordering is that of the canonical wire formats.
            assert_eq!(a.canonical_cmp(b), canonical_bytes(a).cmp(&canonical_bytes(b)));
            assert_eq!(a == b, canonical_bytes(a) == canonical_bytes(b));
            for c in records.iter() {
                if a.cmp(b) != Ordering::Greater && b.cmp(c) != Ordering::Greater {
                    assert_ne!(a.cmp(c), Ordering::Greater);
                }
                if a.canonical_cmp(b) == Ordering::Less && b.canonical_cmp(c) == Ordering::Less {
                    assert_eq!(a.canonical_cmp(c), Ordering::Less);
                }
            }
        }
    }
}

#[test]
fn parse_then_compose_roundtrip() {
    let mut p = Parser::from_vec(SIP_WIRE.to_vec());
    let s = Srv::parse(&mut p).unwrap();
    let mut b = Builder::new();
    s.compose(&mut b).unwrap();
    assert_eq!(b.as_slice(), &SIP_WIRE[..]);
}

#[test]
fn longest_record_fits_limits() {
    let mut labels = vec![vec![b'x'; 63]; 3];
    labels.push(vec![b'y'; 61]);
    let s = Srv::new(1, 1, 1, Dname::from_labels(labels).unwrap());
    let mut b = Builder::with_limit(261);
    s.compose(&mut b).unwrap();
    assert_eq!(b.len(), 261);
    let mut p = Parser::from_vec(b.into_vec());
    assert!(Srv::parse_all(&mut p, 261).unwrap() == s);
}

#[test]
fn clone_keeps_record() {
    let s = srv(5, 6, 7, &["Mail", "example"]);
    let c = s.clone();
    assert!(c == s);
    assert_eq!(c.target().label_at(0), b"Mail");
}

#[test]
fn seek_moves_within_limit() {
    let mut p = Parser::from_vec(SIP_WIRE.to_vec());
    assert_eq!(p.seek(6), Ok(()));
    assert!(Dname::parse(&mut p).is_ok());
    assert_eq!(p.seek(20), Err(ParseError::ShortBuf));
    assert_eq!(p.pos(), 19);
}

#[test]
fn canonical_is_plain_with_lowercase_target() {
    // Priority 0x4142 has octets 'A' 'B'; only the target is lowercased.
    let s = srv(0x4142, 0x5A00, 1, &["MiXeD", "Case"]);
    let mut plain = Builder::new();
    s.compose(&mut plain).unwrap();
    let mut lowered = plain.as_slice().to_vec();
    for b in lowered[6..].iter_mut() {
        b.make_ascii_lowercase();
    }
    assert_eq!(canonical_bytes(&s), lowered);
    assert_eq!(&canonical_bytes(&s)[..4], &[0x41, 0x42, 0x5A, 0x00][..]);
}

#[test]
fn partial_cmp_with_clones() {
    let r = Dname::from_octets(vec![0u8]).unwrap();
    let a = Srv::new(1, 100, 100, r.clone());
    let b = Srv::new(2, 0, 0, r.clone());
    let c = Srv::new(3, 3, 80, r.clone());
    let d = Srv::new(3, 3, 443, r.clone());
    assert_eq!(a.partial_cmp(&b), Some(Ordering::Less));
    assert_eq!(b.partial_cmp(&a), Some(Ordering::Greater));
    assert_eq!(c.partial_cmp(&d), Some(Ordering::Less));
    assert_eq!(c.partial_cmp(&c.clone()), Some(Ordering::Equal));
    assert_eq!(c.clone().port(), 80);
}

#[test]
fn from_octets_needs_exact_name() {
    let n = Dname::from_octets(vec![3, b'w', b'w', b'w', 0]).unwrap();
    assert_eq!(n.label_count(), 2);
    assert_eq!(Dname::from_octets(vec![0, 0]).err(), Some(ParseError::TrailingData));
    assert_eq!(Dname::from_octets(vec![2, b'a']).err(), Some(ParseError::ShortBuf));
}

#[test]
fn builder_truncate_beyond_length_keeps_octets() {
    let mut b = Builder::new();
    b.append_slice(&[1, 2, 3]).unwrap();
    b.truncate(10);
    assert_eq!(b.as_slice(), &[1, 2, 3][..]);
    b.truncate(1);
    assert_eq!(b.as_slice(), &[1][..]);
}
