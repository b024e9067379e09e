use rag_core::retrieve;
use rag_core::RagError;
use rag_core::StoreCell;
use rag_core::VectorEntry;
use rag_core::VectorStore;

fn entry(text: &str, section: &str) -> VectorEntry {
    VectorEntry {
        embedding: vec![1, 2, 3],
        text: text.to_string(),
        section: section.to_string(),
    }
}

#[test]
fn store_add_and_snapshot() {
    let mut store = VectorStore::new();
    assert_eq!(store.len(), 0);
    store.add(entry("first", "s1"));
    store.add(entry("second", "s2"));
    assert_eq!(store.len(), 2);
    let all = store.all();
    assert_eq!(all.len(), 2);
    assert_eq!(all[0].text, "first");
    assert_eq!(all[1].text, "second");
    assert_eq!(all[1].section, "s2");
    assert_eq!(all[0].embedding, vec![1, 2, 3]);
}

#[test]
fn cell_requires_initialization() {
    let mut cell = StoreCell::empty();
    let r = cell.insert(entry("x", "s"));
    assert_eq!(r, Err(RagError::UninitializedStore));
    assert!(matches!(cell.snapshot(), Err(RagError::UninitializedStore)));
}

#[test]
fn idempotent_initialization() {
    // Initializing twice leaves the first store in place: an insert after the
    // second initialize is visible in the snapshot, and nothing was lost.
    let mut cell = StoreCell::empty();
    cell.initialize();
    cell.insert(entry("kept", "s")).unwrap();
    cell.initialize();
    cell.insert(entry("added", "s")).unwrap();
    let snap = cell.snapshot().unwrap();
    assert_eq!(snap.len(), 2);
    assert_eq!(snap[0].text, "kept");
    assert_eq!(snap[1].text, "added");
}

#[test]
fn distinct_inserts_all_present_once() {
    // N inserts with distinct texts: the snapshot holds exactly N entries,
    // each text present exactly once.
    let n = 5;
    let mut cell = StoreCell::empty();
    cell.initialize();
    for k in 0..n {
        cell.insert(entry(&format!("text-{}", k), "s")).unwrap();
    }
    let snap = cell.snapshot().unwrap();
    assert_eq!(snap.len(), n);
    for k in 0..n {
        let want = format!("text-{}", k);
        let count = snap.iter().filter(|e| e.text == want).count();
        assert_eq!(count, 1);
    }
}

#[test]
fn snapshot_is_a_copy() {
    let mut cell = StoreCell::empty();
    cell.initialize();
    cell.insert(entry("before", "s")).unwrap();
    let snap = cell.snapshot().unwrap();
    cell.insert(entry("after", "s")).unwrap();
    assert_eq!(snap.len(), 1);
    assert_eq!(cell.snapshot().unwrap().len(), 2);
}

fn texts(n: usize) -> Vec<VectorEntry> {
    (0..n).map(|k| entry(&format!("t{}", k), "s")).collect()
}

fn zero_sims(n: usize) -> Vec<Vec<u64>> {
    vec![vec![0; n]; n]
}

#[test]
fn empty_store_retrieves_nothing() {
    let entries: Vec<VectorEntry> = Vec::new();
    let scores: Vec<u64> = Vec::new();
    let sims: Vec<Vec<u64>> = Vec::new();
    let r = retrieve(&entries, &scores, &sims, 85);
    assert!(r.is_empty());
}

#[test]
fn retrieval_capped_at_six() {
    let entries = texts(8);
    let scores: Vec<u64> = vec![80, 70, 60, 50, 40, 30, 20, 10];
    let sims = zero_sims(8);
    let r = retrieve(&entries, &scores, &sims, 85);
    assert_eq!(r.len(), 6);
    assert_eq!(r, vec!["t0", "t1", "t2", "t3", "t4", "t5"]);
}

#[test]
fn retrieval_ranks_by_score() {
    let entries = texts(4);
    let scores: Vec<u64> = vec![10, 40, 20, 30];
    let sims = zero_sims(4);
    let r = retrieve(&entries, &scores, &sims, 85);
    assert_eq!(r, vec!["t1", "t3", "t2", "t0"]);
}

#[test]
fn near_duplicates_filtered() {
    // Entries 0 and 1 are near-identical (similarity 99 > threshold 85):
    // only the better-scored one is returned.
    let entries = texts(3);
    let scores: Vec<u64> = vec![100, 90, 50];
    let mut sims = zero_sims(3);
    sims[0][1] = 99;
    sims[1][0] = 99;
    let r = retrieve(&entries, &scores, &sims, 85);
    assert_eq!(r, vec!["t0", "t2"]);
}

#[test]
fn rejected_candidate_not_reconsidered() {
    // Entry 1 conflicts with entry 0; entry 2 conflicts with nothing. The
    // skipped entry 1 stays out even though a slot remains free.
    let entries = texts(2);
    let scores: Vec<u64> = vec![100, 90];
    let mut sims = zero_sims(2);
    sims[0][1] = 90;
    sims[1][0] = 90;
    let r = retrieve(&entries, &scores, &sims, 85);
    assert_eq!(r, vec!["t0"]);
}

#[test]
fn threshold_is_strict() {
    // Similarity exactly at the threshold is allowed.
    let entries = texts(2);
    let scores: Vec<u64> = vec![100, 90];
    let mut sims = zero_sims(2);
    sims[0][1] = 85;
    sims[1][0] = 85;
    let r = retrieve(&entries, &scores, &sims, 85);
    assert_eq!(r, vec!["t0", "t1"]);
}
