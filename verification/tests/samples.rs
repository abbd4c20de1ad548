use mordant::samples::bool_beside_option::Public as Handle;
use mordant::samples::bypassed_validator::{
    well_known, Alias, Buf, Checked, Config, Even, Header, Level, Lexer, Narrow, Node, NonZero,
    Parser, Port, Sealed, Small,
};
use mordant::samples::dependent_field::{public, public_data};
use mordant::samples::parallel_vecs::{open, Open};
use mordant::samples::reimplemented_helper::{
    bounded_sum, clamp_add, clamp_add_inclusive, clamp_add_wide, doubled_evens, twice_the_evens,
    Column, Resize, Row,
};

#[test]
fn a_port_takes_what_fits() {
    assert_eq!(Port::new(80).map(|p| p.n), Ok(80));
    assert_eq!(Port::new(65535).map(|p| p.n), Ok(65535));
    assert!(Port::new(65536).is_err());
    assert_eq!(Port::default().n, 80);
    assert_eq!(well_known().n, 443);
}

#[test]
fn a_node_knows_its_parent() {
    let root = Node { depth: 0, up: None };
    assert!(root.parent().is_none());
    assert_eq!(root.try_clone().map(|n| n.depth), Ok(0));
    let leaf = Node { depth: 1, up: Some(Box::new(root)) };
    assert_eq!(leaf.parent().map(|n| n.depth), Some(0));
    assert!(leaf.try_clone().is_err());
}

#[test]
fn an_alias_is_looked_up() {
    assert_eq!(Alias::get("fs").map(|a| a.to), Some("node:fs"));
    assert_eq!(Alias::get("path").map(|a| a.to), Some("node:path"));
    assert!(Alias::get("net").is_none());
}

#[test]
fn conversions_and_reservations_fail_without_checking() {
    assert_eq!(Narrow::new(7).unwrap().n, 7);
    assert!(Narrow::new(65536).is_err());
    let b = Buf::with_capacity(4).unwrap();
    assert_eq!((b.cap, b.bytes.len()), (4, 0));
    assert!(b.bytes.capacity() >= 4);
    assert_eq!(Buf::with_capacity(0).unwrap().cap, 0);
    assert!(Buf::with_capacity(isize::MAX as usize + 1).is_err());
    assert!(Buf::with_capacity(usize::MAX).is_err());
}

#[test]
fn pairs_are_read_by_key() {
    assert!(Config::from_pairs(&[]).is_err());
    let c = Config::from_pairs(&[("host", "h"), ("port", "70000"), ("port", "1")]).unwrap();
    assert_eq!((c.port, c.host.as_str()), (70000, "h"));
    assert!(Config::from_pairs(&[("host", "h"), ("port", "x")]).is_err());
    assert!(Config::from_pairs(&[("host", "h"), ("port", "")]).is_err());
    assert!(Config::from_pairs(&[("host", "h"), ("port", "+")]).is_err());
    assert!(Config::from_pairs(&[("port", "1")]).is_err());
    assert!(Config::from_pairs(&[("host", "h"), ("port", "4294967296")]).is_err());
    let k = Config::from_pairs(&[("host", "h"), ("port", "4294967295")]).unwrap();
    assert_eq!(k.port, 4294967295);
    let p = Checked::from_pairs(&[("port", "+65535"), ("host", "h")]).unwrap();
    assert_eq!((p.port, p.host.as_str()), (65535, "h"));
    assert!(Checked::from_pairs(&[("port", "65536"), ("host", "h")]).is_err());
}

#[test]
fn a_header_needs_two_bytes_and_a_port() {
    let h = Header::decode(0, &[1, 2], 1).unwrap();
    assert_eq!((h.kq, h.tag, h.port), (0, 2, 1));
    assert!(Header::decode(0, &[1], 1).is_err());
    assert!(Header::decode(0, &[1, 2], 0).is_err());
}

#[test]
fn a_parser_starts_where_the_lexer_can_go_on() {
    let p = Parser::init(Lexer { log: 3, pos: 9 }).unwrap();
    assert_eq!((p.log, p.pos), (3, 0));
    assert!(Parser::init(Lexer { log: 3, pos: 10 }).is_err());
}

#[test]
fn validators_reject_what_they_check() {
    assert_eq!(Even::new(4).map(|e| e.n), Some(4));
    assert!(Even::new(5).is_none());
    assert_eq!(Small::new(Some(9)).map(|s| s.n), Some(9));
    assert!(Small::new(Some(10)).is_none());
    assert!(Small::new(None).is_none());
    assert_eq!(NonZero::new(-1).map(|z| z.n), Ok(-1));
    assert!(NonZero::new(0).is_err());
    assert_eq!(Level::new(10).map(|l| l.value), Ok(10));
    assert!(Level::new(11).is_err());
    assert_eq!(Sealed::new(3).map(|s| s.value()), Ok(3));
    assert!(Sealed::new(11).is_err());
}

#[test]
fn a_handle_is_attached_with_its_flag() {
    let mut h = Handle::new();
    assert!(h.handle.is_none() && !h.attached);
    h.attach(7);
    assert_eq!((h.handle, h.attached), (Some(7), true));
}

#[test]
fn data_counts_only_when_on() {
    let [off, on] = public(5);
    assert_eq!((public_data(&off), public_data(&on)), (0, 5));
}

#[test]
fn both_vectors_grow() {
    let mut o = Open { firsts: vec![10], seconds: vec![20] };
    assert_eq!(open(&mut o, 0), 30);
    assert_eq!((o.firsts, o.seconds), (vec![10, 1], vec![20, 2]));
}

#[test]
fn one_helper_written_three_times() {
    assert_eq!(clamp_add(1, 2, 10), 3);
    assert_eq!(clamp_add(u32::MAX, 2, 10), 10);
    assert_eq!(bounded_sum(4, 9, 10), 10);
    assert_eq!(clamp_add_wide(1, 2, 3), 3);
    assert_eq!(clamp_add_inclusive(1, 2, 3), 3);
}

#[test]
fn rows_and_columns_measure_alike() {
    let r = Row { cells: vec![1, 2, 3], pad: 4 };
    assert_eq!((r.extent(), r.footprint(), r.pad(), r.margin()), (15, 15, 4, 4));
    assert_eq!(Column { cells: vec![1], pad: 0 }.extent(), 2);
    assert_eq!(r.grow(2, 5), 10);
    assert_eq!(r.shrink(5, 2), 10);
}

#[test]
fn evens_are_doubled() {
    assert_eq!(doubled_evens(&[1, 2, 3, 4]), vec![4, 8]);
    assert_eq!(twice_the_evens(&[1, 2, 3, 4]), vec![4, 8]);
}
