use sealing::batcher::{build_batches, PlannedBatch};
use sealing::candidates::{HashCandidate, UtcTimestamp};

fn cand(hash: &str, source_type: &str, source_ref: Option<&str>) -> HashCandidate {
    HashCandidate {
        hash_hex: hash.to_string(),
        lookup_info: None,
        source_type: source_type.to_string(),
        source_ref: source_ref.map(|s| s.to_string()),
        created_at_ms: 0,
    }
}

fn hashes(batch: &PlannedBatch) -> Vec<String> {
    batch.members.iter().map(|m| m.hash_hex.clone()).collect()
}

#[test]
fn empty_candidates_give_no_batches() {
    let batches = build_batches(&vec!["aa".to_string()], vec![], 3);
    assert!(batches.is_empty());
}

#[test]
fn zero_batch_size_gives_no_batches() {
    let batches = build_batches(&vec![], vec![cand("aa", "RUN_ROOT", None)], 0);
    assert!(batches.is_empty());
}

#[test]
fn sealed_hashes_are_dropped() {
    let existing = vec!["bb".to_string(), "dd".to_string()];
    let cands = vec![
        cand("aa", "RUN_ROOT", None),
        cand("bb", "RUN_ROOT", None),
        cand("cc", "RUN_ROOT", None),
        cand("dd", "RUN_ROOT", None),
    ];
    let batches = build_batches(&existing, cands, 10);
    assert_eq!(batches.len(), 1);
    assert_eq!(batches[0].batch_index, 0);
    assert_eq!(hashes(&batches[0]), vec!["aa".to_string(), "cc".to_string()]);
}

#[test]
fn all_sealed_gives_no_batches() {
    let existing = vec!["aa".to_string()];
    let batches = build_batches(&existing, vec![cand("aa", "ARTIFACT", None)], 2);
    assert!(batches.is_empty());
}

#[test]
fn members_are_ordered_by_type_then_ref_then_hash() {
    let cands = vec![
        cand("03", "RUN_ROOT", Some("r2")),
        cand("02", "LEDGER_ROOT", Some("x")),
        cand("01", "RUN_ROOT", Some("r1")),
        cand("05", "RUN_ROOT", None),
        cand("04", "ARTIFACT", Some("a")),
        cand("00", "RUN_ROOT", Some("r1")),
    ];
    let batches = build_batches(&vec![], cands, 100);
    assert_eq!(batches.len(), 1);
    assert_eq!(
        hashes(&batches[0]),
        vec!["04", "02", "05", "00", "01", "03"]
            .into_iter()
            .map(|s| s.to_string())
            .collect::<Vec<_>>()
    );
}

#[test]
fn equal_keys_keep_their_input_order() {
    let mut first = cand("aa", "RUN_ROOT", None);
    first.lookup_info = Some("first".to_string());
    let mut second = cand("aa", "RUN_ROOT", None);
    second.lookup_info = Some("second".to_string());
    let batches = build_batches(&vec![], vec![first, second, cand("00", "RUN_ROOT", None)], 5);
    let infos: Vec<Option<String>> =
        batches[0].members.iter().map(|m| m.lookup_info.clone()).collect();
    assert_eq!(infos, vec![None, Some("first".to_string()), Some("second".to_string())]);
}

#[test]
fn duplicate_unsealed_hashes_are_both_kept() {
    let batches = build_batches(
        &vec![],
        vec![cand("aa", "RUN_ROOT", None), cand("aa", "RUN_ROOT", None)],
        5,
    );
    assert_eq!(hashes(&batches[0]), vec!["aa".to_string(), "aa".to_string()]);
}

#[test]
fn batches_are_cut_at_max_size_and_numbered() {
    let cands: Vec<HashCandidate> = (0..7)
        .map(|i| cand(&format!("{:02}", i), "RUN_ROOT", None))
        .collect();
    let batches = build_batches(&vec![], cands, 3);
    assert_eq!(batches.len(), 3);
    for (i, b) in batches.iter().enumerate() {
        assert_eq!(b.batch_index, i);
    }
    assert_eq!(hashes(&batches[0]), vec!["00", "01", "02"]);
    assert_eq!(hashes(&batches[1]), vec!["03", "04", "05"]);
    assert_eq!(hashes(&batches[2]), vec!["06"]);
}

#[test]
fn exact_multiple_fills_every_batch() {
    let cands: Vec<HashCandidate> = (0..4)
        .map(|i| cand(&format!("h{}", 3 - i), "T", None))
        .collect();
    let batches = build_batches(&vec![], cands, 2);
    assert_eq!(batches.len(), 2);
    assert_eq!(hashes(&batches[0]), vec!["h0", "h1"]);
    assert_eq!(hashes(&batches[1]), vec!["h2", "h3"]);
}

#[test]
fn string_order_is_by_code_point() {
    // 'Z' (U+005A) sorts before 'a' (U+0061); 'é' (U+00E9) after 'z'; a prefix first.
    let cands = vec![
        cand("1", "é", None),
        cand("2", "a", None),
        cand("3", "Z", None),
        cand("4", "ab", None),
        cand("5", "z", None),
    ];
    let batches = build_batches(&vec![], cands, 10);
    assert_eq!(hashes(&batches[0]), vec!["3", "2", "4", "5", "1"]);
}

#[test]
fn candidate_new_records_milliseconds() {
    let c = HashCandidate::new(
        "aa".to_string(),
        Some("info".to_string()),
        "RUN_ROOT".to_string(),
        Some("run-1".to_string()),
        UtcTimestamp { secs: 1_700_000_000, subsec_nanos: 123_456_789 },
    );
    assert_eq!(c.created_at_ms, 1_700_000_000_123);
    assert_eq!(c.hash_hex, "aa");
    assert_eq!(c.lookup_info.as_deref(), Some("info"));
    assert_eq!(c.source_type, "RUN_ROOT");
    assert_eq!(c.source_ref.as_deref(), Some("run-1"));
}

#[test]
fn timestamp_millis_before_epoch_and_in_leap_second() {
    assert_eq!(UtcTimestamp { secs: -1, subsec_nanos: 500_000_000 }.timestamp_millis(), -500);
    assert_eq!(UtcTimestamp { secs: 59, subsec_nanos: 1_999_999_999 }.timestamp_millis(), 60_999);
    assert_eq!(UtcTimestamp { secs: 0, subsec_nanos: 999_999 }.timestamp_millis(), 0);
}

#[test]
fn input_order_does_not_change_batches_with_distinct_keys() {
    let make = || {
        vec![
            cand("03", "RUN_ROOT", Some("r2")),
            cand("02", "LEDGER_ROOT", Some("x")),
            cand("01", "RUN_ROOT", Some("r1")),
            cand("05", "RUN_ROOT", None),
            cand("04", "ARTIFACT", Some("a")),
        ]
    };
    let mut reversed = make();
    reversed.reverse();
    let a = build_batches(&vec!["02".to_string()], make(), 2);
    let b = build_batches(&vec!["02".to_string()], reversed, 2);
    assert_eq!(a.len(), b.len());
    for (x, y) in a.iter().zip(b.iter()) {
        assert_eq!(x.batch_index, y.batch_index);
        assert_eq!(hashes(x), hashes(y));
    }
    assert_eq!(hashes(&a[0]), vec!["04", "05"]);
    assert_eq!(hashes(&a[1]), vec!["01", "03"]);
}
