use ironscribe::metadata::{extract_metadata_from_map, MetadataError, RequestMetadata, StatusCode};

fn key(s: &str) -> Vec<u8> {
    s.as_bytes().to_vec()
}

#[test]
fn test_metadata_extraction() {
    let mut dummy_map = RequestMetadata::new();
    dummy_map.insert(key("path"), key("/foo/bar"));
    dummy_map.insert(key("block_size"), key("9"));

    let extracted_metadata = extract_metadata_from_map(&dummy_map).unwrap();
    assert_eq!(extracted_metadata.path, key("/foo/bar"));
    assert_eq!(extracted_metadata.block_size, 9);
}

#[test]
fn test_metadata_missing_key_block_size() {
    let mut dummy_map = RequestMetadata::new();
    dummy_map.insert(key("path"), key("/foo/bar"));

    // Leave out block size key-value pair
    let extracted_metadata = extract_metadata_from_map(&dummy_map);
    assert!(extracted_metadata.is_err());
    let err = extracted_metadata.unwrap_err();
    assert_eq!(err, MetadataError::KeyNotFoundError(key("block_size")));
}

#[test]
fn test_metadata_missing_key_path() {
    let mut dummy_map = RequestMetadata::new();
    dummy_map.insert(key("block_size"), key("7"));

    // Leave out path key-value pair
    let extracted_metadata = extract_metadata_from_map(&dummy_map);
    assert!(extracted_metadata.is_err());
    let err = extracted_metadata.unwrap_err();
    assert_eq!(err, MetadataError::KeyNotFoundError(key("path")));
}

#[test]
fn test_metadata_missing_value_path() {
    let mut dummy_map = RequestMetadata::new();
    dummy_map.insert(key("path"), key(""));
    dummy_map.insert(key("block_size"), key("7"));

    let extracted_metadata = extract_metadata_from_map(&dummy_map);
    assert!(extracted_metadata.is_err());
    let err = extracted_metadata.unwrap_err();
    assert_eq!(err, MetadataError::EmptyValueError(key("path")));
}

#[test]
fn test_metadata_missing_value_block_size() {
    let mut dummy_map = RequestMetadata::new();
    dummy_map.insert(key("path"), key("/foo/bar"));
    dummy_map.insert(key("block_size"), key(""));

    let extracted_metadata = extract_metadata_from_map(&dummy_map);
    assert!(extracted_metadata.is_err());
    let err = extracted_metadata.unwrap_err();
    assert_eq!(err, MetadataError::EmptyValueError(key("block_size")));
}

#[test]
fn test_metadata_more_than_one_path() {
    let mut dummy_map = RequestMetadata::new();
    dummy_map.insert(key("path"), key("/foo/bar"));
    dummy_map.append(key("path"), key("/foo/bar/baz"));
    dummy_map.insert(key("block_size"), key("8"));

    let extracted_metadata = extract_metadata_from_map(&dummy_map);
    assert!(extracted_metadata.is_err());
    let err = extracted_metadata.unwrap_err();
    assert_eq!(err, MetadataError::InvalidLengthError(key("path")));
}

#[test]
fn test_metadata_more_than_one_block_size() {
    let mut dummy_map = RequestMetadata::new();
    dummy_map.insert(key("path"), key("/foo/bar"));
    dummy_map.insert(key("block_size"), key("8"));
    dummy_map.append(key("block_size"), key("9"));

    let extracted_metadata = extract_metadata_from_map(&dummy_map);
    assert!(extracted_metadata.is_err());
    let err = extracted_metadata.unwrap_err();
    assert_eq!(err, MetadataError::InvalidLengthError(key("block_size")));
}

#[test]
fn test_metadata_block_size_parse_error() {
    let mut dummy_map = RequestMetadata::new();
    dummy_map.insert(key("path"), key("/foo/bar"));
    dummy_map.insert(key("block_size"), key("asdf"));

    let extracted_metadata = extract_metadata_from_map(&dummy_map);
    assert!(extracted_metadata.is_err());
    let err = extracted_metadata.unwrap_err();
    assert_eq!(
        err,
        MetadataError::InvalidFormatError(key("block_size"), key("asdf"))
    );
    assert_ne!(
        err,
        MetadataError::InvalidFormatError(key("block_size"), key("ghjk"))
    );
}

#[test]
fn metadata_insert_replaces_append_adds() {
    let mut map = RequestMetadata::new();
    map.append(key("block_size"), key("8"));
    map.append(key("block_size"), key("9"));
    // insert replaces both appended values with a single one
    map.insert(key("block_size"), key("12"));
    map.insert(key("path"), key("/foo"));
    let md = extract_metadata_from_map(&map).unwrap();
    assert_eq!(md.block_size, 12);
    assert_eq!(md.path, key("/foo"));
}

#[test]
fn metadata_block_size_overflow_is_a_parse_error() {
    let mut map = RequestMetadata::new();
    map.insert(key("path"), key("/foo"));
    // far beyond any usize
    map.insert(key("block_size"), key("99999999999999999999999999999999"));
    let err = extract_metadata_from_map(&map).unwrap_err();
    assert_eq!(
        err,
        MetadataError::InvalidFormatError(
            key("block_size"),
            key("99999999999999999999999999999999")
        )
    );
}

#[test]
fn metadata_error_status_codes() {
    assert_eq!(
        MetadataError::KeyNotFoundError(key("path")).status_code(),
        StatusCode::NotFound
    );
    assert_eq!(
        MetadataError::EmptyValueError(key("path")).status_code(),
        StatusCode::NotFound
    );
    assert_eq!(
        MetadataError::InvalidLengthError(key("block_size")).status_code(),
        StatusCode::InvalidArgument
    );
    assert_eq!(
        MetadataError::InvalidFormatError(key("block_size"), key("x")).status_code(),
        StatusCode::InvalidArgument
    );
}
