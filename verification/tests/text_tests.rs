use domain::name::{name_eq, Dname, ToDname};
use domain::srv::Srv;
use domain::text::{ScanError, Scanner};

fn dname(labels: &[&[u8]]) -> Dname {
    Dname::from_labels(labels.iter().map(|l| l.to_vec()).collect()).unwrap()
}

#[test]
fn srv_to_string_presentation() {
    let s = Srv::new(10, 20, 5060, dname(&[b"sip", b"example"]));
    assert_eq!(s.to_string(), "10 20 5060 sip.example.");
    let root = Srv::new(0, 0, 65535, Dname::root());
    assert_eq!(root.to_string(), "0 0 65535 .");
}

#[test]
fn name_to_string_escapes() {
    assert_eq!(dname(&[b"a.b", b"c"]).to_string(), "a\\.b.c.");
    assert_eq!(dname(&[b"a b"]).to_string(), "a\\032b.");
    assert_eq!(dname(&[b"x\\y"]).to_string(), "x\\\\y.");
    assert_eq!(dname(&[&[0xFF, 0x07]]).to_string(), "\\255\\007.");
    assert_eq!(Dname::root().to_string(), ".");
}

#[test]
fn scan_srv_reads_presentation() {
    let mut sc = Scanner::new("10 20 5060 sip.example.");
    let s = Srv::scan(&mut sc).unwrap();
    assert_eq!(s.priority(), 10);
    assert_eq!(s.weight(), 20);
    assert_eq!(s.port(), 5060);
    assert!(name_eq(s.target(), &dname(&[b"sip", b"example"])));
    assert_eq!(sc.pos(), 23);
}

#[test]
fn scan_srv_white_space_and_escapes() {
    let mut sc = Scanner::new("  1\t2\n3  a\\.b.\\067. rest");
    let s = Srv::scan(&mut sc).unwrap();
    assert_eq!((s.priority(), s.weight(), s.port()), (1, 2, 3));
    assert_eq!(s.target().label_at(0), b"a.b");
    assert_eq!(s.target().label_at(1), b"C");
    assert_eq!(s.target().label_count(), 3);
    assert_eq!(sc.pos(), 19);
}

#[test]
fn scan_root_target() {
    let mut sc = Scanner::new("0 0 0 .");
    let s = Srv::scan(&mut sc).unwrap();
    assert_eq!(s.target().label_count(), 1);
}

#[test]
fn scan_errors_stop_after_read_fields() {
    let cases: [(&str, ScanError, usize); 10] = [
        ("", ScanError::EndOfInput, 0),
        ("1 2 3", ScanError::EndOfInput, 5),
        ("1x 2 3 a.", ScanError::BadNumber, 0),
        ("1 70000 3 a.", ScanError::NumberTooLarge, 1),
        ("1 2 3 a", ScanError::RelativeName, 5),
        ("1 2 3 a..b.", ScanError::EmptyLabel, 5),
        ("1 2 3 .a.", ScanError::EmptyLabel, 5),
        ("1 2 3 a\\", ScanError::BadEscape, 5),
        ("1 2 3 \\256.", ScanError::BadEscape, 5),
        ("1 2 3 \\12.", ScanError::BadEscape, 5),
    ];
    for (text, err, pos) in cases.iter() {
        let mut sc = Scanner::new(text);
        assert_eq!(Srv::scan(&mut sc).err(), Some(*err), "{}", text);
        assert_eq!(sc.pos(), *pos, "{}", text);
    }
}

#[test]
fn scan_long_label_and_name() {
    let long_label = format!("1 2 3 {}.", "x".repeat(64));
    let mut sc = Scanner::new(&long_label);
    assert_eq!(Srv::scan(&mut sc).err(), Some(ScanError::LongLabel));
    let l = "x".repeat(63);
    let long_name = format!("1 2 3 {}.{}.{}.{}.", l, l, l, l);
    let mut sc = Scanner::new(&long_name);
    assert_eq!(Srv::scan(&mut sc).err(), Some(ScanError::LongName));
}

#[test]
fn scan_u16_reads_numbers() {
    let mut sc = Scanner::new(" 65535 0 65536");
    assert_eq!(sc.scan_u16(), Ok(65535));
    assert_eq!(sc.scan_u16(), Ok(0));
    assert_eq!(sc.scan_u16(), Err(ScanError::NumberTooLarge));
    assert_eq!(sc.pos(), 8);
}

#[test]
fn display_then_scan_roundtrip() {
    let labels: [&[u8]; 3] = [b"we.ird\\", &[0, 32, 127, 200], b"Zone"];
    let original = Srv::new(65535, 1, 80, dname(&labels));
    let text = original.to_string();
    let mut sc = Scanner::new(&text);
    let back = Srv::scan(&mut sc).unwrap();
    assert!(back == original);
    assert_eq!(back.target().label_at(0), b"we.ird\\");
    assert_eq!(back.target().label_at(1), &[0, 32, 127, 200][..]);
    assert_eq!(back.target().label_at(2), b"Zone");
    assert_eq!(sc.pos(), text.len());
}

#[test]
fn scan_dname_alone() {
    let mut sc = Scanner::from_vec(b"example.com. x".to_vec());
    let n = Dname::scan(&mut sc).unwrap();
    assert_eq!(n.label_count(), 3);
    assert_eq!(sc.pos(), 12);
}
