use subc2pv::lut::split_lines;
use subc2pv::{LookupTable, MalformedConfiguration};

fn strings(v: &[&str]) -> Vec<String> {
    v.iter().map(|s| s.to_string()).collect()
}

#[test]
fn lines_are_split_at_line_breaks() {
    assert_eq!(split_lines(""), strings(&[]));
    assert_eq!(split_lines("a"), strings(&["a"]));
    assert_eq!(split_lines("a\n"), strings(&["a"]));
    assert_eq!(split_lines("a\nb"), strings(&["a", "b"]));
    assert_eq!(split_lines("a\n\nb\n"), strings(&["a", "", "b"]));
    assert_eq!(split_lines("\n"), strings(&[""]));
    assert_eq!(split_lines("\u{e9}t\u{e9}\nx"), strings(&["\u{e9}t\u{e9}", "x"]));
}

#[test]
fn preamble_and_empty_mapping_block() {
    let table = LookupTable::parse("%P\n(* proto preamble *)\n%%\n%L\n%%\n").unwrap();
    assert_eq!(table.preamble(), Some(&"(* proto preamble *)\n".to_string()));
    assert_eq!(table.len(), 0);
    assert!(table.lookup(&"x".to_string()).is_none());
}

#[test]
fn missing_terminator_names_the_opening_line() {
    let r = LookupTable::parse("%P\n(* proto preamble *)\n%%\n%L\n");
    assert_eq!(r.err(), Some(MalformedConfiguration { line: 4 }));
    let p = LookupTable::parse("%P\nnever closed\nmore\n");
    assert_eq!(p.err(), Some(MalformedConfiguration { line: 1 }));
    assert!(LookupTable::new("%P\nnever closed\n").is_none());
}

#[test]
fn unrecognized_top_level_line_is_named() {
    let r = LookupTable::parse("%P\ntext\n%%\nstray\n%L\n%%\n");
    assert_eq!(r.err(), Some(MalformedConfiguration { line: 4 }));
    assert_eq!(LookupTable::parse("%%\n").err(), Some(MalformedConfiguration { line: 1 }));
    assert_eq!(LookupTable::parse("%L\n%%\n\n%P\n%%\n").err(), Some(MalformedConfiguration { line: 3 }));
    assert_eq!(LookupTable::parse(" %P\n%%\n").err(), Some(MalformedConfiguration { line: 1 }));
}

#[test]
fn empty_text_is_an_empty_table() {
    let table = LookupTable::parse("").unwrap();
    assert!(table.preamble().is_none());
    assert_eq!(table.len(), 0);
    let made = LookupTable::empty();
    assert!(made.preamble().is_none());
    assert_eq!(made.len(), 0);
}

#[test]
fn preamble_lines_are_kept_verbatim() {
    let table = LookupTable::parse("%P\nfirst\n  second \n\n%%\n%P\nthird\n%%").unwrap();
    assert_eq!(table.preamble(), Some(&"first\n  second \n\nthird\n".to_string()));
    let none = LookupTable::parse("%P\n%%\n").unwrap();
    assert!(none.preamble().is_none());
    let directive = LookupTable::parse("%P\n%L\n%P\n%%\n").unwrap();
    assert_eq!(directive.preamble(), Some(&"%L\n%P\n".to_string()));
}

#[test]
fn mapping_records_are_read() {
    let table = LookupTable::parse("%L\nkey=k_term\n\nnonce=fresh(n)=1\nempty=\n%%\n").unwrap();
    assert_eq!(table.len(), 3);
    assert_eq!(table.lookup(&"key".to_string()), Some(&"k_term".to_string()));
    assert_eq!(table.lookup(&"nonce".to_string()), Some(&"fresh(n)=1".to_string()));
    assert_eq!(table.lookup(&"empty".to_string()), Some(&String::new()));
    assert!(table.lookup(&"other".to_string()).is_none());
    assert!(table.preamble().is_none());
}

#[test]
fn later_record_replaces_earlier() {
    let table = LookupTable::parse("%L\na=1\nb=2\n%%\n%L\na=3\n%%\n").unwrap();
    assert_eq!(table.len(), 3);
    assert_eq!(table.lookup(&"a".to_string()), Some(&"3".to_string()));
    assert_eq!(table.lookup(&"b".to_string()), Some(&"2".to_string()));
}

#[test]
fn record_without_separator_is_named() {
    let r = LookupTable::parse("%L\na=1\nnot a record\n%%\n");
    assert_eq!(r.err(), Some(MalformedConfiguration { line: 3 }));
    assert!(LookupTable::new("%L\nnot a record\n%%\n").is_none());
}

#[test]
fn new_reads_a_table() {
    let table = LookupTable::new("%L\nx=y\n%%\n%P\nhello\n%%\n").unwrap();
    assert_eq!(table.lookup(&"x".to_string()), Some(&"y".to_string()));
    assert_eq!(table.preamble(), Some(&"hello\n".to_string()));
}

#[test]
fn from_lines_reads_lines_without_breaks() {
    let lines = strings(&["%P", "(* proto preamble *)", "%%", "%L", "%%"]);
    let table = LookupTable::from_lines(&lines).unwrap();
    assert_eq!(table.preamble(), Some(&"(* proto preamble *)\n".to_string()));
    assert_eq!(table.len(), 0);
    let bad = strings(&["%L", "a=b", "%%", "%X"]);
    assert_eq!(LookupTable::from_lines(&bad).err(), Some(MalformedConfiguration { line: 4 }));
}

#[test]
fn preamble_goes_before_the_script() {
    let table = LookupTable::parse("%P\n(* p *)\n%%\n").unwrap();
    assert_eq!(table.prepend_preamble("type e."), "(* p *)\ntype e.");
    assert_eq!(LookupTable::empty().prepend_preamble("type e."), "type e.");
}
