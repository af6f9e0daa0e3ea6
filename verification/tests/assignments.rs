use hskclustering::assignments::{
    align_assignments, assignment_order, column_position, format_count, parse_count, read_assignment_bytes,
    write_partition, AlignError, AssignmentFileError,
};
use hskclustering::partition::AssignmentError;

fn strings(items: &[&str]) -> Vec<String> {
    items.iter().map(|s| s.to_string()).collect()
}

fn rows(items: &[(&str, &str)]) -> Vec<(String, String)> {
    items.iter().map(|(t, c)| (t.to_string(), c.to_string())).collect()
}

#[test]
fn community_ids_parse_like_usize() {
    assert_eq!(parse_count("0"), Some(0));
    assert_eq!(parse_count("42"), Some(42));
    assert_eq!(parse_count("+7"), Some(7));
    assert_eq!(parse_count("007"), Some(7));
    assert_eq!(parse_count("18446744073709551615"), Some(usize::MAX));
    assert_eq!(parse_count("18446744073709551616"), None);
    assert_eq!(parse_count(""), None);
    assert_eq!(parse_count("+"), None);
    assert_eq!(parse_count("-1"), None);
    assert_eq!(parse_count(" 1"), None);
    assert_eq!(parse_count("1x"), None);
    for text in ["0", "1", "+3", "123456", "99999999999999999999", "x"] {
        assert_eq!(parse_count(text), text.parse::<usize>().ok());
    }
}

#[test]
fn columns_are_found_by_any_accepted_name() {
    let headers = strings(&["Level", "Simplified", "token", "pos"]);
    assert_eq!(column_position(&headers, &strings(&["Simplified", "token"])), Some(1));
    assert_eq!(column_position(&headers, &strings(&["token"])), Some(2));
    assert_eq!(column_position(&headers, &strings(&["community"])), None);
}

/// The bytes of an assignment file for these tokens and labels, rows in token
/// order, as the program writes it.
fn assignment_file(tokens: &[String], labels: &[usize]) -> Vec<u8> {
    let order = assignment_order(tokens, labels).unwrap();
    let mut writer = csv::Writer::from_writer(Vec::new());
    writer.write_record(["token", "community"]).unwrap();
    for i in order {
        writer.write_record([&tokens[i], &format_count(labels[i])]).unwrap();
    }
    writer.into_inner().unwrap()
}

#[test]
fn csv_round_trip_aligns_tokens_and_rejects_partial_partitions() {
    let tokens = strings(&["中,文", "带\"引号", "a"]);
    let file = assignment_file(&tokens, &[2, 0, 1]);
    assert_eq!(read_assignment_bytes(&file, &tokens), Ok(vec![2, 0, 1]));
    assert!(read_assignment_bytes(&file, &tokens[..2]).is_err());
    assert!(read_assignment_bytes(&file, &strings(&["missing"])).is_err());
    assert!(read_assignment_bytes(b"token,community\na,0\na,1\n", &strings(&["a"])).is_err());
}

#[test]
fn alignment_reports_the_first_problem() {
    let tokens = strings(&["x", "y"]);
    assert_eq!(
        align_assignments(&rows(&[("x", "0"), ("x", "oops")]), &tokens),
        Err(AlignError::InvalidCommunity)
    );
    assert_eq!(
        align_assignments(&rows(&[("x", "0"), ("x", "1"), ("y", "?")]), &tokens),
        Err(AlignError::Duplicate("x".to_string()))
    );
    assert_eq!(
        align_assignments(&rows(&[("x", "0")]), &tokens),
        Err(AlignError::Missing("y".to_string()))
    );
    assert_eq!(
        align_assignments(&rows(&[("x", "0"), ("y", "1"), ("z", "2"), ("w", "3")]), &tokens),
        Err(AlignError::Unknown(2))
    );
    assert_eq!(
        align_assignments(&rows(&[("y", "5"), ("x", "+3")]), &tokens),
        Ok(vec![3, 5])
    );
    // A repeated vocabulary token finds its row already taken.
    assert_eq!(
        align_assignments(&rows(&[("x", "0"), ("y", "1")]), &strings(&["x", "x"])),
        Err(AlignError::Missing("x".to_string()))
    );
}

#[test]
fn assignment_order_sorts_by_token_and_checks_lengths() {
    let tokens = strings(&["b", "a", "c", "B"]);
    assert_eq!(assignment_order(&tokens, &[0, 1, 2, 3]), Ok(vec![3, 1, 0, 2]));
    assert_eq!(
        assignment_order(&tokens, &[0, 1]),
        Err(AssignmentError::IncompleteAssignments)
    );
}

#[test]
fn partition_rows_are_members_with_community_index_in_token_order() {
    let communities = vec![strings(&["中,文", "带\"引号"]), strings(&["a"]), vec![]];
    assert_eq!(
        write_partition(&communities),
        vec![
            ("a".to_string(), 1),
            ("中,文".to_string(), 0),
            ("带\"引号".to_string(), 0)
        ]
    );
    assert!(write_partition(&[]).is_empty());
}

#[test]
fn csv_round_trips_commas_quotes_and_unicode() {
    let communities = vec![strings(&["中,文", "带\"引号", "a"])];
    let written = write_partition(&communities);
    assert_eq!(written.len(), 3);
    let mut writer = csv::Writer::from_writer(Vec::new());
    writer.write_record(["token", "community"]).unwrap();
    for (token, community) in &written {
        writer.serialize((token, community)).unwrap();
    }
    let bytes = writer.into_inner().unwrap();
    let records = csv::Reader::from_reader(bytes.as_slice())
        .records()
        .collect::<Result<Vec<_>, _>>()
        .unwrap();
    assert_eq!(&records[0][0], "a");
    assert_eq!(&records[1][0], "中,文");
    assert_eq!(&records[2][0], "带\"引号");
}

#[test]
fn community_ids_are_written_as_plain_decimals() {
    assert_eq!(format_count(0), "0");
    assert_eq!(format_count(7), "7");
    assert_eq!(format_count(1203), "1203");
    assert_eq!(format_count(usize::MAX), usize::MAX.to_string());
    assert_eq!(parse_count(&format_count(90210)), Some(90210));
}

#[test]
fn written_partitions_read_back() {
    let communities = vec![vec!["猫".to_string(), "狗".to_string()], vec!["鱼".to_string()], vec!["马".to_string()]];
    let rows: Vec<(String, String)> =
        write_partition(&communities).into_iter().map(|(t, c)| (t, format_count(c))).collect();
    let tokens = vec!["马".to_string(), "猫".to_string(), "鱼".to_string(), "狗".to_string()];
    assert_eq!(align_assignments(&rows, &tokens), Ok(vec![2, 0, 1, 0]));
}

#[test]
fn assignment_files_report_each_problem() {
    let vocabulary = strings(&["x", "y"]);
    assert_eq!(read_assignment_bytes(b"token,community\ny,1\nx,0\n", &vocabulary), Ok(vec![0, 1]));
    assert_eq!(read_assignment_bytes(b"", &vocabulary), Err(AssignmentFileError::MissingTokenColumn));
    assert_eq!(read_assignment_bytes(b"word,community\nx,0\n", &vocabulary), Err(AssignmentFileError::MissingTokenColumn));
    assert_eq!(read_assignment_bytes(b"token,label\nx,0\n", &vocabulary), Err(AssignmentFileError::MissingCommunityColumn));
    assert_eq!(
        read_assignment_bytes(b"community,token\n0,x\n1,y\n2,z\n", &vocabulary),
        Err(AssignmentFileError::Align(AlignError::Unknown(1)))
    );
    // A bad row before the reader's error is reported first; otherwise the reader's error.
    assert_eq!(
        read_assignment_bytes(b"token,community\nx,oops\ny,1,extra\n", &vocabulary),
        Err(AssignmentFileError::Align(AlignError::InvalidCommunity))
    );
    assert!(matches!(
        read_assignment_bytes(b"token,community\nx,0\ny,1,extra\n", &vocabulary),
        Err(AssignmentFileError::Csv(_))
    ));
    assert!(matches!(read_assignment_bytes(b"\xff,community\n", &vocabulary), Err(AssignmentFileError::Csv(_))));
}
