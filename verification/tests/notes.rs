use nnotes::analyzer::tokenize;
use nnotes::index::InvertedIndex;
use nnotes::repo::generate_id;
use nnotes::repo::RepoError;
use nnotes::repo::Repository;
use nnotes::score::idf;
use nnotes::score::sat_add64;
use nnotes::score::sat_mul64;
use nnotes::store::Note;

#[test]
fn tokenize_lowercases_and_splits() {
    let toks = tokenize("Hello, World-42!");
    assert_eq!(toks.len(), 3);
    assert_eq!(toks[0], vec!['h', 'e', 'l', 'l', 'o']);
    assert_eq!(toks[1], vec!['w', 'o', 'r', 'l', 'd']);
    assert_eq!(toks[2], vec!['4', '2']);
}

#[test]
fn tokenize_empty_and_separators() {
    assert!(tokenize("").is_empty());
    assert!(tokenize("  ,;!\t").is_empty());
}

#[test]
fn create_then_list_round_trip() {
    let mut repo = Repository::new();
    let note = repo
        .create("A".to_string(), "hello world".to_string(), true, true)
        .unwrap();
    let listed = repo.list();
    assert_eq!(listed.len(), 1);
    assert_eq!(listed[0].title, "A");
    assert_eq!(listed[0].content, "hello world");
    assert_eq!(listed[0].id, note.id);
    assert_eq!(note.id.len(), 36);
    let second = repo
        .create("B".to_string(), "more text".to_string(), true, true)
        .unwrap();
    assert_ne!(second.id, note.id);
    assert_eq!(repo.list().len(), 2);
}

#[test]
fn search_recall_and_miss() {
    let mut repo = Repository::new();
    let note = repo
        .create("Groceries".to_string(), "buy milk and eggs".to_string(), true, true)
        .unwrap();
    let hits = repo.search("milk");
    assert_eq!(hits.len(), 1);
    assert_eq!(hits[0].id, note.id);
    assert_eq!(hits[0].title, "Groceries");
    assert_eq!(hits[0].content, "buy milk and eggs");
    assert!(repo.search("nonexistent-term").is_empty());
}

#[test]
fn ranking_prefers_higher_frequency() {
    let mut repo = Repository::new();
    let once = repo
        .create("one".to_string(), "pepper".to_string(), true, true)
        .unwrap();
    let five = repo
        .create(
            "two".to_string(),
            "pepper pepper pepper pepper pepper".to_string(),
            true,
            true,
        )
        .unwrap();
    let hits = repo.search("pepper");
    assert_eq!(hits.len(), 2);
    assert_eq!(hits[0].id, five.id);
    assert_eq!(hits[1].id, once.id);
    assert!(hits[0].score > hits[1].score);
}

#[test]
fn equal_scores_keep_insertion_order() {
    let mut repo = Repository::new();
    let first = repo
        .create("a".to_string(), "apple".to_string(), true, true)
        .unwrap();
    let second = repo
        .create("b".to_string(), "apple".to_string(), true, true)
        .unwrap();
    let hits = repo.search("apple");
    assert_eq!(hits.len(), 2);
    assert_eq!(hits[0].score, hits[1].score);
    assert_eq!(hits[0].id, first.id);
    assert_eq!(hits[1].id, second.id);
}

#[test]
fn delete_consistency() {
    let mut repo = Repository::new();
    let note = repo
        .create("T".to_string(), "unicorn grazing".to_string(), true, true)
        .unwrap();
    assert_eq!(repo.search("unicorn").len(), 1);
    let r = repo.delete(&note.id, true, true);
    assert!(matches!(r, Ok(())));
    assert!(repo.list().is_empty());
    assert!(repo.search("unicorn").is_empty());
    assert!(repo.search("grazing").is_empty());
}

#[test]
fn delete_absent_id_is_not_found_and_changes_nothing() {
    let mut repo = Repository::new();
    repo.create("T".to_string(), "content".to_string(), true, true)
        .unwrap();
    let store_before = repo.store_snapshot();
    let index_before = repo.index_snapshot();
    let r = repo.delete("no-such-id", true, true);
    assert!(matches!(r, Err(RepoError::NotFound)));
    assert_eq!(repo.store_snapshot(), store_before);
    assert_eq!(repo.index_snapshot(), index_before);
    assert_eq!(repo.list().len(), 1);
}

#[test]
fn partial_failure_is_visible_until_rebuild() {
    let mut repo = Repository::new();
    let r = repo.create("T".to_string(), "zebra stripes".to_string(), true, false);
    let id = match r {
        Err(RepoError::PartialFailure(id)) => id,
        _ => panic!("expected a partial failure"),
    };
    let listed = repo.list();
    assert_eq!(listed.len(), 1);
    assert_eq!(listed[0].id, id);
    assert!(repo.search("zebra").is_empty());
    repo.rebuild();
    let hits = repo.search("zebra");
    assert_eq!(hits.len(), 1);
    assert_eq!(hits[0].id, id);
}

#[test]
fn create_store_failure_changes_nothing() {
    let mut repo = Repository::new();
    let r = repo.create("T".to_string(), "c".to_string(), false, true);
    assert!(matches!(r, Err(RepoError::StoreIOError)));
    assert!(repo.list().is_empty());
    assert!(repo.search("c").is_empty());
}

#[test]
fn delete_index_failure_keeps_store_removal() {
    let mut repo = Repository::new();
    let note = repo
        .create("T".to_string(), "walrus".to_string(), true, true)
        .unwrap();
    let r = repo.delete(&note.id, true, false);
    assert!(matches!(r, Err(RepoError::CommitFailed)));
    assert!(repo.list().is_empty());
    assert_eq!(repo.search("walrus").len(), 1);
    repo.rebuild();
    assert!(repo.search("walrus").is_empty());
}

#[test]
fn result_cap_at_ten() {
    let mut repo = Repository::new();
    for i in 0..15 {
        repo.create(format!("note {}", i), "common term".to_string(), true, true)
            .unwrap();
    }
    assert_eq!(repo.list().len(), 15);
    let hits = repo.search("common");
    assert_eq!(hits.len(), 10);
}

#[test]
fn snapshots_round_trip() {
    let mut repo = Repository::new();
    repo.create("First".to_string(), "alpha beta".to_string(), true, true)
        .unwrap();
    repo.create("Second".to_string(), "gamma".to_string(), true, true)
        .unwrap();
    let store_bytes = repo.store_snapshot();
    let index_bytes = repo.index_snapshot();
    let store = Repository::load_store(Some(&store_bytes)).unwrap();
    let index = Repository::open_or_create_index(Some(&index_bytes)).unwrap();
    let reopened = Repository { store, index };
    let listed = reopened.list();
    assert_eq!(listed.len(), 2);
    assert_eq!(listed[0].title, "First");
    assert_eq!(listed[1].title, "Second");
    assert_eq!(reopened.search("gamma").len(), 1);
}

#[test]
fn load_rejects_foreign_or_mangled_bytes() {
    let empty_store = Repository::load_store(None).unwrap();
    assert!(empty_store.list().is_empty());
    let r = Repository::load_store(Some(&vec![1u8, 2, 3]));
    assert!(matches!(r, Err(RepoError::StoreIOError)));
    let mut repo = Repository::new();
    repo.create("T".to_string(), "c".to_string(), true, true).unwrap();
    let store_bytes = repo.store_snapshot();
    let r2 = Repository::open_or_create_index(Some(&store_bytes));
    assert!(matches!(r2, Err(RepoError::IndexCorrupt)));
    let mut mangled = repo.index_snapshot();
    let last = mangled.len() - 1;
    mangled[last] = mangled[last].wrapping_add(1);
    let r3 = Repository::open_or_create_index(Some(&mangled));
    assert!(matches!(r3, Err(RepoError::IndexCorrupt)));
}

#[test]
fn generated_ids_look_like_uuids_and_differ() {
    let a = generate_id();
    let b = generate_id();
    assert_eq!(a.len(), 36);
    assert_eq!(b.len(), 36);
    assert_ne!(a, b);
    assert_eq!(a.chars().nth(8), Some('-'));
    assert_eq!(a.chars().nth(13), Some('-'));
    assert_eq!(a.chars().nth(18), Some('-'));
    assert_eq!(a.chars().nth(23), Some('-'));
}

#[test]
fn score_arithmetic_exact_values() {
    assert_eq!(idf(3, 1), 2000);
    assert_eq!(idf(3, 3), 1000);
    assert_eq!(idf(0, 0), 1000);
    assert_eq!(sat_add64(u64::MAX, 5), u64::MAX);
    assert_eq!(sat_add64(2, 3), 5);
    assert_eq!(sat_mul64(u64::MAX, 2), u64::MAX);
    assert_eq!(sat_mul64(7, 6), 42);
}

#[test]
fn search_score_is_exact_tf_times_idf() {
    let mut repo = Repository::new();
    repo.create("x".to_string(), "pepper pepper".to_string(), true, true)
        .unwrap();
    let hits = repo.search("pepper");
    assert_eq!(hits.len(), 1);
    assert_eq!(hits[0].score, 2000);
}

#[test]
fn duplicate_index_add_keeps_both_entries() {
    let mut ix = InvertedIndex::new();
    let n = Note {
        id: "same-id".to_string(),
        title: "t".to_string(),
        content: "alpha".to_string(),
    };
    ix.add(&n);
    ix.add(&n);
    let hits = ix.search("alpha");
    assert_eq!(hits.len(), 2);
    ix.delete("same-id");
    assert!(ix.search("alpha").is_empty());
}

#[test]
fn title_terms_are_searchable_too() {
    let mut repo = Repository::new();
    let note = repo
        .create("Quarterly Budget".to_string(), "numbers".to_string(), true, true)
        .unwrap();
    let hits = repo.search("budget");
    assert_eq!(hits.len(), 1);
    assert_eq!(hits[0].id, note.id);
}
