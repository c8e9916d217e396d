use kpr::records::Record;
use kpr::store::{append_record, load_all, load_recent, next_seq};

#[test]
fn append_assigns_dense_sequence_numbers() {
    let mut lines: Vec<String> = Vec::new();
    let mut seqs: Vec<u16> = Vec::new();
    for (ms, msg) in [(1000u64, "first"), (2000, "second"), (3000, "third")] {
        let rec = Record::new(ms, msg.to_string());
        seqs.push(append_record(&mut lines, &rec).unwrap());
    }
    assert_eq!(seqs, vec![0, 1, 2]);
    assert_eq!(lines.len(), 3);
    assert_eq!(lines[0], "1000: first");
}

#[test]
fn blank_lines_do_not_count_toward_sequence_numbers() {
    let mut lines: Vec<String> = vec![
        "1000: kept".to_string(),
        "   ".to_string(),
        "".to_string(),
        "2000: also kept".to_string(),
    ];
    assert_eq!(next_seq(&lines), Some(2));
    let rec = Record::new(3000, "third".to_string());
    assert_eq!(append_record(&mut lines, &rec), Some(2));
    assert_eq!(next_seq(&lines), Some(3));
}

#[test]
fn round_trip_preserves_a_record() {
    let rec = Record::new(1680917693908, "hello world".to_string());
    let line = rec.to_store();
    assert_eq!(line, "1680917693908: hello world");

    let back = Record::from_store(&line).unwrap();
    assert_eq!(back.timestamp_ms, rec.timestamp_ms);
    assert_eq!(back.message, rec.message);
}

#[test]
fn from_store_trims_and_accepts_a_plus_sign() {
    let rec = Record::from_store("  +42:  padded message  ").unwrap();
    assert_eq!(rec.timestamp_ms, 42);
    assert_eq!(rec.message, "padded message");
}

#[test]
fn from_store_splits_at_the_first_delimiter_only() {
    let rec = Record::from_store("100: note: with a colon").unwrap();
    assert_eq!(rec.timestamp_ms, 100);
    assert_eq!(rec.message, "note: with a colon");
}

#[test]
fn from_store_accepts_the_largest_timestamp() {
    let rec = Record::from_store("18446744073709551615: edge").unwrap();
    assert_eq!(rec.timestamp_ms, u64::MAX);
}

#[test]
fn from_store_rejects_what_is_not_a_record() {
    assert!(Record::from_store("").is_none());
    assert!(Record::from_store("   ").is_none());
    assert!(Record::from_store("no delimiter here").is_none());
    assert!(Record::from_store("notanumber: text").is_none());
    assert!(Record::from_store(": empty prefix").is_none());
    // a value just past the largest 64-bit timestamp
    assert!(Record::from_store("18446744073709551616: too big").is_none());
}

#[test]
fn load_all_skips_blank_and_malformed_lines() {
    let lines = vec![
        "1000: one".to_string(),
        "".to_string(),
        "garbage".to_string(),
        "2000: two".to_string(),
    ];
    let records = load_all(&lines);
    assert_eq!(records.len(), 2);
    assert_eq!(records[0].message, "one");
    assert_eq!(records[1].message, "two");
}

#[test]
fn load_recent_matches_the_tail_of_load_all() {
    let lines = vec![
        "1000: one".to_string(),
        "junk line".to_string(),
        "2000: two".to_string(),
        "3000: three".to_string(),
        "4000: four".to_string(),
    ];
    let all = load_all(&lines);

    let rev: Vec<String> = lines.iter().rev().cloned().collect();
    for k in 0..6usize {
        let recent = load_recent(&rev, Some(k));
        let start = if all.len() <= k { 0 } else { all.len() - k };
        assert_eq!(recent.len(), all.len() - start);
        for (i, rec) in recent.iter().enumerate() {
            assert_eq!(rec.timestamp_ms, all[start + i].timestamp_ms);
            assert_eq!(rec.message, all[start + i].message);
        }
    }

    let everything = load_recent(&rev, None);
    assert_eq!(everything.len(), all.len());
    assert_eq!(everything[0].message, "one");
}

#[test]
fn load_recent_does_not_count_malformed_lines_toward_the_limit() {
    let lines = vec![
        "1000: oldest".to_string(),
        "2000: middle".to_string(),
        "broken".to_string(),
        "3000: newest".to_string(),
    ];
    let rev: Vec<String> = lines.iter().rev().cloned().collect();
    let recent = load_recent(&rev, Some(2));
    assert_eq!(recent.len(), 2);
    assert_eq!(recent[0].message, "middle");
    assert_eq!(recent[1].message, "newest");
}

#[test]
fn kpr_error_carries_its_message() {
    let e = kpr::errors::KprError::new("something failed");
    assert_eq!(e.message(), "something failed");
    let d = kpr::errors::KprError::default();
    assert_eq!(d.message(), "Unknown error");
}

#[test]
fn list_args_defaults() {
    let args = kpr::cli::ListArgs::default();
    assert_eq!(args.n, 10);
    assert!(matches!(args.date_format, kpr::cli::DateFormat::Ago));
    let args = kpr::cli::SearchArgs::default();
    assert_eq!(args.n, 10);
    assert!(args.query.is_empty());
}
