use parables_testing::source_map::{Mapping, Operation, SourceMap, SourceMapError};

#[test]
fn test_parse() {
    let source_map = SourceMap::parse("25:111:1:-;;132:2:-1;166:7;155:9;146:7;137:37;252:7;246:14;243:1;238:23;232:4;229:33;270:1;265:20;;;;222:63;;265:20;274:9;222:63;;298:9;295:1;288:20;328:4;319:7;311:22;352:7;343;336:24").unwrap();

    println!("{:?}", source_map);
}

#[test]
fn empty_records_inherit_everything() {
    let map = SourceMap::parse("25:111:1:i;;").unwrap();
    let first = Mapping { start: 25, length: 111, file_index: Some(1), operation: Operation::Input };
    assert_eq!(Some(&first), map.find_mapping(0));
    assert_eq!(Some(&first), map.find_mapping(1));
    assert_eq!(Some(&first), map.find_mapping(2));
    assert_eq!(None, map.find_mapping(3));
}

#[test]
fn fields_inherit_and_clear() {
    let map = SourceMap::parse("1:2:3:o;4::-1;:7").unwrap();
    assert_eq!(
        Some(&Mapping { start: 4, length: 2, file_index: None, operation: Operation::Output }),
        map.find_mapping(1)
    );
    assert_eq!(
        Some(&Mapping { start: 4, length: 7, file_index: None, operation: Operation::Output }),
        map.find_mapping(2)
    );
}

#[test]
fn first_record_needs_start_and_length() {
    assert_eq!(Err(SourceMapError::MissingStart { record: 0 }), SourceMap::parse(";1:2"));
    assert_eq!(Err(SourceMapError::MissingStart { record: 0 }), SourceMap::parse(""));
    assert_eq!(Err(SourceMapError::MissingLength { record: 0 }), SourceMap::parse("1"));
    assert_eq!(Err(SourceMapError::MissingStart { record: 1 }), SourceMap::parse("1:2;-1"));
}

#[test]
fn bad_fields_are_refused() {
    assert_eq!(Err(SourceMapError::BadNumber { record: 1 }), SourceMap::parse("1:2;x"));
    assert_eq!(Err(SourceMapError::BadNumber { record: 0 }), SourceMap::parse("1:4294967296"));
    assert_eq!(Err(SourceMapError::BadOperation { record: 0 }), SourceMap::parse("1:2:3:q"));
    assert!(SourceMap::parse("+1:4294967295").is_ok());
}
