use hskclustering::config::TokenMetadata;
use hskclustering::metadata::{metadata_from_bytes, split_names, token_strata, MetadataError};

#[test]
fn names_are_split_at_bars_and_trimmed() {
    assert_eq!(split_names(" 爱 | 爱好 ||"), vec!["爱".to_string(), "爱好".to_string()]);
    assert_eq!(split_names("a|b"), vec!["a".to_string(), "b".to_string()]);
    assert_eq!(split_names("noun"), vec!["noun".to_string()]);
}

#[test]
fn empty_and_blank_names_are_skipped() {
    assert!(split_names("").is_empty());
    assert!(split_names("|").is_empty());
    assert!(split_names(" \t | ").is_empty());
}

#[test]
fn unicode_white_space_is_trimmed_but_inner_spaces_stay() {
    assert_eq!(split_names("\u{3000}名 字\t"), vec!["名 字".to_string()]);
}

#[test]
fn metadata_rows_are_grouped_by_spelling() {
    let file = "Simplified,Level,pos\n学|學,HSK1,v | n\n学,HSK2,v\n生,,\n  |  ,HSK3,n\n".as_bytes();
    let entries = metadata_from_bytes(file).unwrap();
    let get = |s: &str| entries.iter().find(|(k, _)| k == s).map(|(_, m)| m).unwrap();
    assert_eq!(entries.len(), 3);
    let xue = get("学");
    assert_eq!(xue.mapped_rows, 2);
    let mut bands = xue.bands.clone();
    bands.sort();
    assert_eq!(bands, vec!["HSK1", "HSK2"]);
    let mut parts = xue.parts_of_speech.clone();
    parts.sort();
    assert_eq!(parts, vec!["n", "v"]);
    assert_eq!(get("學").mapped_rows, 1);
    assert_eq!(get("生").mapped_rows, 1);
    assert!(get("生").bands.is_empty() && get("生").parts_of_speech.is_empty());
    assert!(get("生").ambiguous() == false && xue.ambiguous());
}

#[test]
fn metadata_files_report_each_problem() {
    assert_eq!(metadata_from_bytes(b"").unwrap_err(), MetadataError::MissingTokenColumn);
    assert_eq!(metadata_from_bytes(b"word,pos\na,n\n").unwrap_err(), MetadataError::MissingTokenColumn);
    assert!(matches!(metadata_from_bytes(b"token\na\nb,c\n").unwrap_err(), MetadataError::Csv(_)));
    let repeated = metadata_from_bytes(b"hsk_level,token\n1,a|a\n").unwrap();
    assert_eq!(repeated.len(), 1);
    assert_eq!(repeated[0].1.mapped_rows, 2);
    assert_eq!(repeated[0].1.bands, vec!["1"]);
}

#[test]
fn tokens_fall_in_their_bands_and_parts_or_in_missing() {
    let none = token_strata(None);
    assert_eq!((none.hsk, none.pos), (vec!["missing".to_string()], vec!["missing".to_string()]));
    assert!(none.missing_hsk && none.missing_pos && !none.ambiguous);
    let item = TokenMetadata { bands: vec!["HSK1".into(), "HSK2".into()], parts_of_speech: vec![], mapped_rows: 1 };
    let found = token_strata(Some(&item));
    assert_eq!(found.hsk, vec!["HSK1".to_string(), "HSK2".to_string()]);
    assert_eq!(found.pos, vec!["missing".to_string()]);
    assert!(!found.missing_hsk && found.missing_pos && found.ambiguous);
}
