use meshcore::channels::{normalize, SyncFilter};

#[test]
fn normalize_forms() {
    assert_eq!(normalize("General"), "#general");
    assert_eq!(normalize("#Medic"), "#medic");
    assert_eq!(normalize("  north-gate "), "#north-gate");
}

#[test]
fn missing_computes_difference() {
    let mine = SyncFilter::new("#c".to_string(), vec![[1; 8], [2; 8], [3; 8]]);
    let theirs = SyncFilter::new("#c".to_string(), vec![[2; 8]]);
    let mut missing = mine.missing_from(&theirs);
    missing.sort();
    assert_eq!(missing, vec![[1; 8], [3; 8]]);
}

#[test]
fn nothing_missing_when_in_sync() {
    let a = SyncFilter::new("#c".to_string(), vec![[1; 8], [2; 8]]);
    let b = SyncFilter::new("#c".to_string(), vec![[2; 8], [1; 8]]);
    assert!(a.missing_from(&b).is_empty());
}

#[test]
fn filter_is_sorted_and_deduplicated() {
    let f = SyncFilter::new("#c".to_string(), vec![[3; 8], [1; 8], [3; 8], [2; 8], [1; 8]]);
    assert_eq!(f.digests, vec![[1; 8], [2; 8], [3; 8]]);
    assert_eq!(f.channel, "#c");
}

#[test]
fn normalize_keeps_one_hash_and_strips_extras() {
    assert_eq!(normalize("##Ops"), "#ops");
    assert_eq!(normalize(""), "#");
}

#[test]
fn reconciliation_sends_only_what_is_missing() {
    // Law: every local digest is either held remotely or sent; nothing sent is held remotely.
    let mine = SyncFilter::new("#c".to_string(), vec![[4; 8], [5; 8], [6; 8], [7; 8]]);
    let theirs = SyncFilter::new("#c".to_string(), vec![[5; 8], [7; 8], [9; 8]]);
    let missing = mine.missing_from(&theirs);
    for d in &mine.digests {
        assert!(theirs.digests.contains(d) || missing.contains(d));
    }
    for d in &missing {
        assert!(!theirs.digests.contains(d));
    }
    assert_eq!(missing, vec![[4; 8], [6; 8]]);
}

#[test]
fn normalize_trims_unicode_white_space_only() {
    assert_eq!(normalize("\u{3000}\t#Ops\u{2028} "), "#ops");
    // A zero-width space is not White_Space: it stays.
    assert_eq!(normalize("\u{200B}ops"), "#\u{200B}ops");
}
