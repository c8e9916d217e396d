use kpr::search::Index;

const INDEX_FILE: &'static str = "
    1680917693908: message two
    1680917698382: message 3
    1680917701962: message three
    1680917704320: message
    1680917706282: three
    1680917709913: whatever
    1680917717166: Nothing... I think
    1680917722186: Another message
    1680917729297: one more message
    1680917733553: one more time
";

fn file_lines() -> Vec<String> {
    INDEX_FILE.lines().map(|l| l.to_string()).collect()
}

fn stop_lines() -> Vec<String> {
    vec!["the".to_string(), "i".to_string(), "more".to_string()]
}

#[test]
fn build_index_works() {
    let lines = file_lines();

    let index = Index::from_lines(&lines, &stop_lines());
    assert_ne!(index.lookup_word("message").len(), 0);
    assert_ne!(index.lookup_word("three").len(), 0);
    assert_ne!(index.lookup_word("whatever").len(), 0);
    assert_ne!(index.lookup_word("nothing").len(), 0);
    assert_eq!(index.lookup_word("message").len(), 6);
    assert_eq!(index.len(), 10)
}

#[test]
fn search_indexes_works() {
    let lines: Vec<String> = file_lines();

    let index = Index::from_lines(&lines, &stop_lines());
    let query = vec!["message".to_string(), "three".to_string()];

    let results = index.search(&query);
    assert!(results.len() > 0);
    assert!(results.len() <= lines.len());
    println!("{:?}", &results);

    let query = vec!["nothing".to_string()];
    let results = index.search(&query);
    println!("{:?}", &results);

    assert!(results.len() == 1);

    let query = vec!["three".to_string()];
    let results = index.search(&query);
    assert!(results.len() == 2);
}

#[test]
fn test_clean() {
    let cleaned_word = Index::clean("   Test!  ");
    assert_eq!(cleaned_word, "test");
}

#[test]
fn test_stem() {
    let index = Index::new(&stop_lines());
    let stemmed_word = index.stem("running");
    assert_eq!(stemmed_word, "run");
}

#[test]
fn test_clean_and_stem() {
    let index = Index::new(&stop_lines());
    let cleaned_and_stemmed_word = index.clean_and_stem("   Running!  ");
    assert_eq!(cleaned_and_stemmed_word, "run");
}

#[test]
fn test_stop_word_detection() {
    let index = Index::new(&stop_lines());
    assert!(index.is_stop("the"));
    assert!(!index.is_stop("test"));
}

#[test]
fn test_add_word() {
    let mut index = Index::from_lines(&Vec::new(), &Vec::new());
    index.add_word("test", 0);

    assert_eq!(index.lookup_word("test"), vec![0]);
}

#[test]
fn test_add_line() {
    let mut index = Index::from_lines(&Vec::new(), &Vec::new());
    index.add_line(0, "1680917693908: Test message");

    assert_eq!(index.lookup_word("test"), vec![0]);
    assert_eq!(index.lookup_word("message"), vec![0]);
}

#[test]
fn search_ranks_double_match_first() {
    // one record matches both query terms, another only one of them
    let lines = vec![
        "1000: alpha".to_string(),
        "2000: alpha beta".to_string(),
        "3000: gamma".to_string(),
    ];
    let index = Index::from_lines(&lines, &Vec::new());
    let query = vec!["alpha".to_string(), "beta".to_string()];
    let results = index.search(&query);
    assert_eq!(results, vec![1, 0]);
}

#[test]
fn search_breaks_ties_by_sequence_number() {
    let lines = vec![
        "1000: echo one".to_string(),
        "2000: echo two".to_string(),
        "3000: echo three".to_string(),
    ];
    let index = Index::from_lines(&lines, &Vec::new());
    let query = vec!["echo".to_string()];
    let results = index.search(&query);
    assert_eq!(results, vec![0, 1, 2]);
}

#[test]
fn search_repeated_word_counts_per_occurrence() {
    // "ping" twice in one record outweighs a single mention in an older one
    let lines = vec!["1000: ping".to_string(), "2000: ping ping".to_string()];
    let index = Index::from_lines(&lines, &Vec::new());
    let results = index.search(&vec!["ping".to_string()]);
    assert_eq!(results, vec![1, 0]);
}

#[test]
fn stopword_never_becomes_a_key() {
    let lines = vec!["1000: the thing".to_string()];
    let index = Index::from_lines(&lines, &vec!["the".to_string()]);
    assert_eq!(index.lookup_word("the"), Vec::<u16>::new());
    assert_eq!(index.len(), 1);
    assert_eq!(index.lookup_word("thing"), vec![0]);
}

#[test]
fn index_replay_matches_full_build() {
    let lines = file_lines();
    let built = Index::from_lines(&lines, &stop_lines());

    let mut replayed = Index::new(&stop_lines());
    let mut seq: u16 = 0;
    for line in &lines {
        if line.trim().is_empty() {
            continue;
        }
        replayed.add_line(seq, line);
        seq += 1;
    }

    assert_eq!(built.len(), replayed.len());
    for word in ["message", "three", "whatever", "nothing", "one", "time"] {
        assert_eq!(built.lookup_word(word), replayed.lookup_word(word));
    }
    assert_eq!(built.save(), replayed.save());
}

#[test]
fn save_and_load_round_trip() {
    let lines = file_lines();
    let index = Index::from_lines(&lines, &stop_lines());
    let bytes = index.save();
    assert!(bytes.len() > 0);

    let loaded = Index::load(&bytes, &stop_lines()).unwrap();
    assert_eq!(loaded.len(), index.len());
    assert_eq!(loaded.lookup_word("message"), index.lookup_word("message"));
    assert_eq!(loaded.lookup_word("nothing"), index.lookup_word("nothing"));
}

#[test]
fn saved_empty_index_is_not_the_empty_file() {
    // even with no postings, the serialized map carries its length word,
    // so a saved index never collides with the zero-byte "no data" file
    let index = Index::new(&stop_lines());
    let bytes = index.save();
    assert!(bytes.len() > 0);
    let loaded = Index::load(&bytes, &stop_lines()).unwrap();
    assert_eq!(loaded.len(), 0);
}

#[test]
fn load_of_empty_bytes_is_empty_index() {
    let index = Index::load(&Vec::new(), &stop_lines()).unwrap();
    assert_eq!(index.len(), 0);
}

#[test]
fn load_of_garbage_bytes_fails() {
    let bytes = vec![0xffu8, 0x13, 0x37];
    let r = Index::load(&bytes, &stop_lines());
    assert!(r.is_err());
    assert_eq!(
        r.err().unwrap().message(),
        "Could not deserialize index file"
    );
}

#[test]
fn reindex_serializes_full_build() {
    let lines = file_lines();
    let bytes = kpr::search::reindex(&lines, &stop_lines());
    let built = Index::from_lines(&lines, &stop_lines());
    assert_eq!(bytes, built.save());
}

#[test]
fn full_search_resolves_records() {
    let lines = vec![
        "1000: message two".to_string(),
        "2000: message three".to_string(),
        "3000: whatever".to_string(),
    ];
    let index = Index::from_lines(&lines, &Vec::new());
    let query = vec!["message".to_string()];
    let records = kpr::search::search(&index, &lines, &query, 10);
    assert_eq!(records.len(), 2);
    assert_eq!(records[0].message, "message two");
    assert_eq!(records[1].message, "message three");

    let records = kpr::search::search(&index, &lines, &query, 1);
    assert_eq!(records.len(), 1);
}

#[test]
fn scenario_message_and_nothing_queries() {
    // the three-line store: both "message" records come back, ranked at
    // least as high as anything else
    let lines = vec![
        "1000: message two".to_string(),
        "2000: message three".to_string(),
        "3000: whatever".to_string(),
    ];
    let index = Index::from_lines(&lines, &Vec::new());
    let results = index.search(&vec!["message".to_string()]);
    assert!(results.contains(&0));
    assert!(results.contains(&1));
    assert!(!results.contains(&2));

    // a store with exactly one record holding the word "Nothing", in some
    // case and with punctuation: one sequence number comes back
    let lines = vec!["4000: NOTHING, at all?".to_string(), "5000: plain words".to_string()];
    let index = Index::from_lines(&lines, &Vec::new());
    let results = index.search(&vec!["nothing".to_string()]);
    assert_eq!(results, vec![0]);
}
