use hail_front::error::Error;
use hail_front::source_map::SourceMap;

fn map_with(contents: &str) -> (SourceMap, u32) {
    let mut sm = SourceMap::new();
    let id = sm.register(String::from("main.hl"), contents.as_bytes().to_vec());
    (sm, id)
}

#[test]
fn register_assigns_dense_identities() {
    let mut sm = SourceMap::new();
    let a = sm.register(String::from("a"), b"one".to_vec());
    let b = sm.register(String::from("b"), b"two".to_vec());
    assert_eq!(a, 0);
    assert_eq!(b, 1);
}

#[test]
fn identical_contents_distinct_identities() {
    let mut sm = SourceMap::new();
    let a = sm.register(String::from("left.hl"), b"fn f() { }\n".to_vec());
    let b = sm.register(String::from("right.hl"), b"fn f() { }\n".to_vec());
    assert_ne!(a, b);
    assert_eq!(sm.lookup(a).unwrap(), b"fn f() { }\n");
    assert_eq!(sm.lookup(b).unwrap(), b"fn f() { }\n");
    // Spans resolve independently via each file's own identity.
    assert_eq!(sm.resolve_position(a, 3).unwrap(), (1, 4));
    assert_eq!(sm.resolve_position(b, 3).unwrap(), (1, 4));
}

#[test]
fn lookup_unknown_file_fails() {
    let (sm, id) = map_with("text");
    assert!(sm.lookup(id).is_ok());
    assert_eq!(sm.lookup(7), Err(Error::UnknownFile { file: 7 }));
}

#[test]
fn resolve_position_lines_and_columns() {
    let (sm, id) = map_with("ab\ncd\ne");
    assert_eq!(sm.resolve_position(id, 0).unwrap(), (1, 1));
    assert_eq!(sm.resolve_position(id, 1).unwrap(), (1, 2));
    // Offset of the newline itself belongs to the line it ends.
    assert_eq!(sm.resolve_position(id, 2).unwrap(), (1, 3));
    assert_eq!(sm.resolve_position(id, 3).unwrap(), (2, 1));
    assert_eq!(sm.resolve_position(id, 6).unwrap(), (3, 1));
    // The offset just past the end of the text is still resolvable.
    assert_eq!(sm.resolve_position(id, 7).unwrap(), (3, 2));
}

#[test]
fn resolve_position_rejects_bad_offset_and_file() {
    let (sm, id) = map_with("ab");
    assert_eq!(
        sm.resolve_position(id, 3),
        Err(Error::OffsetOutOfRange { file: id, offset: 3 })
    );
    assert_eq!(sm.resolve_position(9, 0), Err(Error::UnknownFile { file: 9 }));
}

#[test]
fn position_round_trips_through_offset() {
    let (sm, id) = map_with("ab\ncd\ne");
    // A known line/column, converted to a byte offset and back, is unchanged.
    let off = sm.position_to_offset(id, 2, 2).unwrap();
    assert_eq!(off, 4);
    assert_eq!(sm.resolve_position(id, off).unwrap(), (2, 2));
    // And so for every position the text actually has.
    for line in 1..4usize {
        for col in 1..4usize {
            if let Some(o) = sm.position_to_offset(id, line, col) {
                assert_eq!(sm.resolve_position(id, o).unwrap(), (line, col));
            }
        }
    }
}

#[test]
fn position_to_offset_rejects_absent_positions() {
    let (sm, id) = map_with("ab\ncd");
    assert_eq!(sm.position_to_offset(id, 0, 1), None);
    assert_eq!(sm.position_to_offset(id, 1, 0), None);
    // Line 1 holds columns 1..=3 (the column after `ab` names the newline).
    assert_eq!(sm.position_to_offset(id, 1, 3), Some(2));
    assert_eq!(sm.position_to_offset(id, 1, 4), None);
    assert_eq!(sm.position_to_offset(id, 3, 1), None);
    assert_eq!(sm.position_to_offset(7, 1, 1), None);
}
