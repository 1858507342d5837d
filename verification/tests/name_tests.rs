use domain::builder::{Builder, ShortBuf};
use domain::name::{
    compose_name, compose_name_canonical, lowercase_composed_cmp, name_cmp, name_eq, Dname,
    NameError, ToDname,
};
use domain::parse::{ParseError, Parser};
use std::cmp::Ordering;

fn dname(labels: &[&str]) -> Dname {
    Dname::from_labels(labels.iter().map(|l| l.as_bytes().to_vec()).collect()).unwrap()
}

#[test]
fn root_has_one_empty_label() {
    let root = Dname::root();
    assert_eq!(root.label_count(), 1);
    assert_eq!(root.label_at(0), b"");
}

#[test]
fn from_labels_appends_root() {
    let n = dname(&["www", "example", "com"]);
    assert_eq!(n.label_count(), 4);
    assert_eq!(n.label_at(0), b"www");
    assert_eq!(n.label_at(2), b"com");
    assert_eq!(n.label_at(3), b"");
}

#[test]
fn from_labels_errors() {
    assert_eq!(
        Dname::from_labels(vec![b"a".to_vec(), Vec::new()]).err(),
        Some(NameError::EmptyLabel)
    );
    assert_eq!(Dname::from_labels(vec![vec![b'x'; 64]]).err(), Some(NameError::LongLabel));
    // Four labels of 63 octets: 4 * 64 + 1 = 257 octets in wire format.
    let long = vec![vec![b'x'; 63]; 4];
    assert_eq!(Dname::from_labels(long).err(), Some(NameError::LongName));
    // Three of 63 and one of 61: 3 * 64 + 62 + 1 = 255 octets.
    let mut max = vec![vec![b'x'; 63]; 3];
    max.push(vec![b'y'; 61]);
    assert!(Dname::from_labels(max).is_ok());
}

#[test]
fn names_compare_equal_ignoring_case() {
    assert!(name_eq(&dname(&["WWW", "Example"]), &dname(&["www", "example"])));
    assert!(!name_eq(&dname(&["www", "example"]), &dname(&["www", "example", "com"])));
    assert!(!name_eq(&dname(&["a"]), &dname(&["b"])));
}

#[test]
fn name_cmp_reads_from_the_root() {
    // "z.a." sorts before "a.b." because "a" < "b" at the top level.
    assert_eq!(name_cmp(&dname(&["z", "a"]), &dname(&["a", "b"])), Ordering::Less);
    // A name sorts after its parent.
    assert_eq!(name_cmp(&dname(&["a", "example"]), &dname(&["example"])), Ordering::Greater);
    assert_eq!(name_cmp(&dname(&["EXAMPLE"]), &dname(&["example"])), Ordering::Equal);
    assert_eq!(name_cmp(&Dname::root(), &dname(&["a"])), Ordering::Less);
}

#[test]
fn lowercase_composed_cmp_compares_wire_format() {
    // Wire formats: 01 'b' 01 'a' 00 and 02 'a' 'a' 01 'a' 00: the length
    // octet decides.
    assert_eq!(
        lowercase_composed_cmp(&dname(&["b", "a"]), &dname(&["aa", "a"])),
        Ordering::Less
    );
    assert_eq!(name_cmp(&dname(&["b", "a"]), &dname(&["aa", "a"])), Ordering::Greater);
    assert_eq!(
        lowercase_composed_cmp(&dname(&["B", "A"]), &dname(&["b", "a"])),
        Ordering::Equal
    );
}

#[test]
fn compose_name_writes_wire_format() {
    let mut b = Builder::new();
    compose_name(&dname(&["Sip", "ex"]), &mut b).unwrap();
    assert_eq!(b.as_slice(), &[3, b'S', b'i', b'p', 2, b'e', b'x', 0][..]);
    let mut c = Builder::new();
    compose_name_canonical(&dname(&["Sip", "ex"]), &mut c).unwrap();
    assert_eq!(c.as_slice(), &[3, b's', b'i', b'p', 2, b'e', b'x', 0][..]);
}

#[test]
fn compose_name_short_buf_leaves_builder() {
    let mut b = Builder::with_limit(5);
    b.append_slice(&[9]).unwrap();
    assert_eq!(compose_name(&dname(&["abc"]), &mut b), Err(ShortBuf));
    assert_eq!(b.as_slice(), &[9][..]);
    let mut c = Builder::with_limit(6);
    assert_eq!(compose_name(&dname(&["abc"]), &mut c), Ok(()));
    assert_eq!(c.len(), 5);
}

#[test]
fn parse_name_plain_and_compressed() {
    // "ab." at 0, then "x" + pointer to 0 at 4.
    let data = vec![2, b'a', b'b', 0, 1, b'x', 0xC0, 0x00, 0xFF];
    let mut p = Parser::from_vec(data);
    let first = Dname::parse(&mut p).unwrap();
    assert_eq!(p.pos(), 4);
    assert!(name_eq(&first, &dname(&["ab"])));
    let second = Dname::parse(&mut p).unwrap();
    assert_eq!(p.pos(), 8);
    assert!(name_eq(&second, &dname(&["x", "ab"])));
    assert_eq!(second.label_count(), 3);
}

#[test]
fn parse_name_errors() {
    let mut p = Parser::from_vec(vec![3, b'a', b'b']);
    assert_eq!(Dname::parse(&mut p).err(), Some(ParseError::ShortBuf));
    assert_eq!(p.pos(), 0);
    let mut p = Parser::from_vec(vec![0x40, 0]);
    assert_eq!(Dname::parse(&mut p).err(), Some(ParseError::BadLabel));
    let mut p = Parser::from_vec(vec![0xC0, 0x00]);
    assert_eq!(Dname::parse(&mut p).err(), Some(ParseError::BadPointer));
    let mut long = Vec::new();
    for _ in 0..4 {
        long.push(63);
        long.extend_from_slice(&[b'x'; 63]);
    }
    long.push(0);
    let mut p = Parser::from_vec(long);
    assert_eq!(Dname::parse(&mut p).err(), Some(ParseError::LongName));
}

#[test]
fn skip_name_stops_at_pointer() {
    let mut p = Parser::from_vec(vec![1, b'a', 0xC0, 0x05, 7]);
    Dname::skip(&mut p).unwrap();
    assert_eq!(p.pos(), 4);
    let mut q = Parser::from_vec(vec![1, b'a', 0]);
    Dname::skip(&mut q).unwrap();
    assert_eq!(q.pos(), 3);
}

#[test]
fn parse_all_name_checks_length() {
    let data = vec![1, b'a', 0, 9];
    let mut p = Parser::from_vec(data.clone());
    assert!(Dname::parse_all(&mut p, 3).is_ok());
    assert_eq!(p.pos(), 3);
    let mut p = Parser::from_vec(data.clone());
    assert_eq!(Dname::parse_all(&mut p, 4).err(), Some(ParseError::TrailingData));
    let mut p = Parser::from_vec(data);
    assert_eq!(Dname::parse_all(&mut p, 2).err(), Some(ParseError::ShortField));
    assert_eq!(p.pos(), 0);
}
