use goat::keymapping::{parse_mappings, KeyMapping, MappingErrorKind, MappingTable};

fn parse(entries: &[&str]) -> Result<MappingTable, goat::keymapping::MappingError> {
    parse_mappings(entries.iter().map(|e| e.to_string()).collect())
}

#[test]
fn test_parse_valid_mapping() {
    let mapping = parse_mappings(vec!["65:a:fkbr".to_string()]).unwrap();
    assert!(mapping.contains_key('a'));
    let key_mapping = mapping.get('a').unwrap();
    assert_eq!(key_mapping.label, "fkbr");
    assert_eq!(key_mapping.ret_code, 65);
}

#[test]
fn test_parse_invalid_mapping() {
    assert!(parse_mappings(vec!["65a:fkbr".to_string()]).is_err());
    assert!(parse_mappings(vec!["63:a:fkbr".to_string()]).is_err());
    assert!(parse_mappings(vec!["b:a:fkbr".to_string()]).is_err());
}

#[test]
fn range_bounds_are_inclusive() {
    let t = parse(&["64:x:low", "113:y:high"]).unwrap();
    assert_eq!(t.get('x').unwrap().ret_code, 64);
    assert_eq!(t.get('y').unwrap().ret_code, 113);
    assert_eq!(t.get('y').unwrap().label, "high");
}

#[test]
fn code_out_of_range_is_a_range_error() {
    let e = parse(&["60:x:bad"]).err().unwrap();
    assert_eq!(e.kind, MappingErrorKind::CodeOutOfRange);
    assert_eq!(e.entry, "60:x:bad");
    assert_eq!(parse(&["114:x:bad"]).err().unwrap().kind, MappingErrorKind::CodeOutOfRange);
    assert_eq!(parse(&["-70:x:bad"]).err().unwrap().kind, MappingErrorKind::CodeOutOfRange);
}

#[test]
fn wrong_field_count_is_a_format_error() {
    assert_eq!(parse(&["65a:fkbr"]).err().unwrap().kind, MappingErrorKind::Format);
    assert_eq!(parse(&["65:a:b:c"]).err().unwrap().kind, MappingErrorKind::Format);
    assert_eq!(parse(&[""]).err().unwrap().kind, MappingErrorKind::Format);
    assert_eq!(parse(&["65"]).err().unwrap().kind, MappingErrorKind::Format);
}

#[test]
fn empty_key_is_a_key_error() {
    assert_eq!(parse(&["65::label"]).err().unwrap().kind, MappingErrorKind::Key);
}

#[test]
fn non_numeric_code_is_reported() {
    let e = parse(&["b:a:fkbr"]).err().unwrap();
    assert_eq!(e.kind, MappingErrorKind::CodeNotNumeric);
    assert_eq!(e.entry, "b:a:fkbr");
    assert_eq!(parse(&[":a:x"]).err().unwrap().kind, MappingErrorKind::CodeNotNumeric);
    assert_eq!(parse(&["99999999999:a:x"]).err().unwrap().kind, MappingErrorKind::CodeNotNumeric);
}

#[test]
fn signed_code_in_range_is_accepted() {
    let t = parse(&["+70:z:plus"]).unwrap();
    assert_eq!(t.get('z').unwrap().ret_code, 70);
}

#[test]
fn key_is_first_char_of_key_field() {
    let t = parse(&["66:xy:two"]).unwrap();
    assert!(t.contains_key('x'));
    assert!(!t.contains_key('y'));
}

#[test]
fn first_refused_entry_is_reported() {
    let e = parse(&["65:a:ok", "1:b:low", "nope"]).err().unwrap();
    assert_eq!(e.kind, MappingErrorKind::CodeOutOfRange);
    assert_eq!(e.entry, "1:b:low");
}

#[test]
fn builtins_present_without_user_entries() {
    let t = parse(&[]).unwrap();
    let q = t.get('q').unwrap();
    assert_eq!((q.ret_code, q.label.as_str()), (1, "abort"));
    let c = t.get('c').unwrap();
    assert_eq!((c.ret_code, c.label.as_str()), (0, "continue"));
    assert!(t.get('a').is_none());
}

#[test]
fn builtins_override_user_entries() {
    let t = parse(&["70:q:quit", "71:c:cont", "72:d:done"]).unwrap();
    assert_eq!(t.get('q').unwrap().ret_code, 1);
    assert_eq!(t.get('q').unwrap().label, "abort");
    assert_eq!(t.get('c').unwrap().ret_code, 0);
    assert_eq!(t.get('c').unwrap().label, "continue");
    assert_eq!(t.get('d').unwrap().ret_code, 72);
}

#[test]
fn later_entry_wins_on_same_key() {
    let t = parse(&["70:a:first", "80:a:second"]).unwrap();
    assert_eq!(t.get('a').unwrap().ret_code, 80);
    assert_eq!(t.get('a').unwrap().label, "second");
}

#[test]
fn label_may_be_empty_or_unicode() {
    let t = parse(&["65:ä:", "66:b:größe"]).unwrap();
    assert_eq!(t.get('ä').unwrap().label, "");
    assert_eq!(t.get('b').unwrap().label, "größe");
}

#[test]
fn table_insert_replaces() {
    let mut t = MappingTable::new();
    t.insert('k', KeyMapping { ret_code: 90, label: "one".to_string() });
    t.insert('k', KeyMapping { ret_code: 91, label: "two".to_string() });
    assert_eq!(t.get('k').unwrap().ret_code, 91);
}

#[test]
fn legend_lists_bindings_in_key_order() {
    let t = parse(&["90:z:zed", "65:a:custom"]).unwrap();
    let legend = t.legend();
    let keys: Vec<char> = legend.iter().map(|(k, _)| *k).collect();
    assert_eq!(keys, vec!['a', 'c', 'q', 'z']);
    assert_eq!(legend[0].1, "custom");
    assert_eq!(legend[1].1, "continue");
    assert_eq!(legend[2].1, "abort");
    assert_eq!(legend[3].1, "zed");
}
