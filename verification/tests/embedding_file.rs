use hskclustering::embedding_file::{parse_header, EmbeddingRows, HeaderError, RowError};

fn fields(line: &str) -> Vec<String> {
    line.split_whitespace().map(str::to_string).collect()
}

#[test]
fn headers_give_count_and_dimension() {
    assert_eq!(parse_header(&fields("3 50\n")), Ok((3, 50)));
    assert_eq!(parse_header(&fields("0 +7")), Ok((0, 7)));
}

#[test]
fn each_header_error_has_its_input() {
    assert_eq!(parse_header(&fields("")), Err(HeaderError::MissingCount));
    assert_eq!(parse_header(&fields("x 5")), Err(HeaderError::BadCount));
    assert_eq!(parse_header(&fields("-1 5")), Err(HeaderError::BadCount));
    assert_eq!(parse_header(&fields("4")), Err(HeaderError::MissingDimension));
    assert_eq!(parse_header(&fields("4 d")), Err(HeaderError::BadDimension));
    assert_eq!(parse_header(&fields("4 5 6")), Err(HeaderError::ExtraField));
    assert_eq!(parse_header(&fields("4 0")), Err(HeaderError::ZeroDimension));
    assert_eq!(parse_header(&fields("4 x 6")), Err(HeaderError::BadDimension));
}

#[test]
fn rows_are_counted_and_kept_distinct() {
    let mut rows = EmbeddingRows::new(2);
    assert!(!rows.complete());
    assert_eq!(rows.accept(&"学".to_string()), Ok(()));
    assert_eq!(rows.accept(&"学".to_string()), Err(RowError::DuplicateToken));
    assert_eq!(rows.accept(&"生".to_string()), Ok(()));
    assert!(rows.complete());
    assert_eq!(rows.accept(&"人".to_string()), Err(RowError::TooManyRows));
    assert_eq!(rows.accept(&"学".to_string()), Err(RowError::TooManyRows));
    assert!(rows.complete());
    assert!(EmbeddingRows::new(0).complete());
}
