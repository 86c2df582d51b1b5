use lifespeed::dialog::DialogFilter;
use lifespeed::entry::{list_entries, mtime_millis, sort_newest_first, DirEntry, EntryMetadata, IndexDocument};

fn entry(dirname: &str, mtime_ms: u64) -> EntryMetadata {
    EntryMetadata {
        dirname: dirname.to_string(),
        path: format!("{}/index.md", dirname),
        mtime_ms,
        title: String::new(),
        date: String::new(),
        tags: Vec::new(),
        excerpt: String::new(),
    }
}

fn names(entries: &[EntryMetadata]) -> Vec<String> {
    entries.iter().map(|e| e.dirname.clone()).collect()
}

#[test]
fn modification_time_in_milliseconds() {
    assert_eq!(mtime_millis(None), 0);
    assert_eq!(mtime_millis(Some(0)), 0);
    assert_eq!(mtime_millis(Some(1_700_000_000_123)), 1_700_000_000_123);
    assert_eq!(mtime_millis(Some(u64::MAX as u128)), u64::MAX);
    assert_eq!(mtime_millis(Some(u64::MAX as u128 + 8)), 7);
    assert_eq!(mtime_millis(Some(u128::MAX)), u64::MAX);
}

#[test]
fn directory_entry_record() {
    let e = DirEntry::new("notes".to_string(), true, Some(42));
    assert_eq!(e.name, "notes");
    assert!(e.is_dir);
    assert_eq!(e.mtime_ms, 42);
    let e = DirEntry::new("a.txt".to_string(), false, None);
    assert_eq!(e.name, "a.txt");
    assert!(!e.is_dir);
    assert_eq!(e.mtime_ms, 0);
}

#[test]
fn entry_from_document() {
    let e = EntryMetadata::from_document(
        "2024-01-02".to_string(),
        "/j/2024-01-02/index.md".to_string(),
        77,
        "---\ntitle: T\ndate: D\ntags: [x, y]\n---\n# T\nText",
    );
    assert_eq!(e.dirname, "2024-01-02");
    assert_eq!(e.path, "/j/2024-01-02/index.md");
    assert_eq!(e.mtime_ms, 77);
    assert_eq!(e.title, "T");
    assert_eq!(e.date, "D");
    assert_eq!(e.tags, vec!["x".to_string(), "y".to_string()]);
    assert_eq!(e.excerpt, "Text");
}

#[test]
fn sorts_newest_first() {
    let sorted = sort_newest_first(vec![entry("a", 5), entry("b", 9), entry("c", 1), entry("d", 7)]);
    assert_eq!(names(&sorted), vec!["b", "d", "a", "c"]);
    assert!(sort_newest_first(Vec::new()).is_empty());
    let sorted = sort_newest_first(vec![entry("only", 3)]);
    assert_eq!(names(&sorted), vec!["only"]);
}

#[test]
fn entries_of_the_same_age_keep_their_order() {
    let sorted = sort_newest_first(vec![
        entry("a", 5),
        entry("b", 9),
        entry("c", 5),
        entry("d", 9),
        entry("e", 5),
        entry("f", 0),
        entry("g", u64::MAX),
    ]);
    assert_eq!(names(&sorted), vec!["g", "b", "d", "a", "c", "e", "f"]);
}

#[test]
fn sorting_keeps_every_entry() {
    let input: Vec<EntryMetadata> = (0..50u64).map(|i| entry(&format!("e{}", i), (i * 37) % 11)).collect();
    let sorted = sort_newest_first(input);
    assert_eq!(sorted.len(), 50);
    for w in sorted.windows(2) {
        assert!(w[0].mtime_ms >= w[1].mtime_ms);
    }
    let mut seen = names(&sorted);
    seen.sort();
    let mut all: Vec<String> = (0..50u64).map(|i| format!("e{}", i)).collect();
    all.sort();
    assert_eq!(seen, all);
}

#[test]
fn lists_entries_newest_first() {
    let docs = vec![
        IndexDocument {
            dirname: "old".to_string(),
            path: "/j/old/index.md".to_string(),
            mtime_ms: 10,
            content: "---\ntitle: Old\n---\nwas".to_string(),
        },
        IndexDocument {
            dirname: "new".to_string(),
            path: "/j/new/index.md".to_string(),
            mtime_ms: 20,
            content: "plain".to_string(),
        },
    ];
    let entries = list_entries(docs);
    assert_eq!(entries.len(), 2);
    assert_eq!(entries[0].dirname, "new");
    assert_eq!(entries[0].path, "/j/new/index.md");
    assert_eq!(entries[0].mtime_ms, 20);
    assert_eq!(entries[0].title, "");
    assert_eq!(entries[0].excerpt, "plain");
    assert_eq!(entries[1].dirname, "old");
    assert_eq!(entries[1].title, "Old");
    assert_eq!(entries[1].excerpt, "was");
    assert!(list_entries(Vec::new()).is_empty());
}

#[test]
fn dialog_filter_record() {
    let f = DialogFilter { name: "Images".to_string(), extensions: vec!["png".to_string(), "jpg".to_string()] };
    assert_eq!(f.name, "Images");
    assert_eq!(f.extensions, vec!["png", "jpg"]);
}
