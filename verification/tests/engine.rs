//! End-to-end tests of the bookmark engine: round trips, deduplication,
//! privacy filtering, the tag rules and the three search modes.

use bookmarks::import::parse_bookmark;
use bookmarks::store::Db;
use bookmarks::types::{Bookmark, StoreError};

fn tags(names: &[&str]) -> Vec<String> {
    names.iter().map(|s| s.to_string()).collect()
}

fn insert(db: &mut Db, name: &str, url: &str, desc: &str, ts: &[&str], now: i64) -> Bookmark {
    db.insert_one(name, url, desc, &tags(ts), now).expect("insert should succeed")
}

#[test]
fn insert_then_get_round_trips() {
    let mut db = Db::new(0);
    let b = insert(&mut db, "Rust Book", "https://doc.rust-lang.org/book", "the book", &["Rust", "read"], 1000);
    assert_eq!(b.id, 1);
    let got = db.get_bookmark_by_id(b.id).expect("stored bookmark");
    assert_eq!(got.url, "https://doc.rust-lang.org/book");
    assert_eq!(got.name, "Rust Book");
    assert_eq!(got.description, "the book");
    assert_eq!(got.creation_time, 1000);
    assert_eq!(got.tags, vec!["rust".to_string(), "read".to_string()]);
}

#[test]
fn empty_name_defaults_to_url() {
    let mut db = Db::new(0);
    let b = insert(&mut db, "", "https://example.com", "", &[], 1);
    assert_eq!(b.name, "https://example.com");
}

#[test]
fn duplicate_url_reports_dup_and_attaches_tags() {
    let mut db = Db::new(0);
    let first = insert(&mut db, "One", "https://example.com", "", &["old"], 10);
    let second = insert(&mut db, "Other", "https://example.com", "", &["extra"], 20);
    assert_eq!(second.id, first.id);
    assert!(second.tags.contains(&"dup".to_string()));
    let stored = db.get_bookmark_by_id(first.id).unwrap();
    assert!(stored.tags.contains(&"old".to_string()));
    assert!(stored.tags.contains(&"extra".to_string()));
    assert!(!stored.tags.contains(&"dup".to_string()), "the dup marker is never stored");
    assert_eq!(db.len(), 1);
}

#[test]
fn get_unknown_id_is_not_found() {
    let db = Db::new(0);
    assert!(matches!(db.get_bookmark_by_id(7), Err(StoreError::NotFound)));
    assert!(matches!(db.get_bookmark_by_url("https://nowhere"), Err(StoreError::NotFound)));
}

#[test]
fn empty_url_is_rejected() {
    let mut db = Db::new(0);
    let r = db.insert_one("name", "", "", &tags(&[]), 1);
    assert!(matches!(r, Err(StoreError::Validation)));
    assert_eq!(db.len(), 0);
}

#[test]
fn private_bookmarks_stay_out_of_pages_and_counts() {
    let mut db = Db::new(0);
    insert(&mut db, "a", "https://a", "", &[], 1);
    insert(&mut db, "b", "https://b", "", &["private"], 2);
    insert(&mut db, "c", "https://c", "", &["private-notes"], 3);
    insert(&mut db, "d", "https://d", "", &["work"], 4);
    assert_eq!(db.count_all(), 2);
    let page = db.get_page(&bookmarks::types::Page { p: None, limit: None, sort: None });
    let urls: Vec<&str> = page.iter().map(|b| b.url.as_str()).collect();
    assert_eq!(urls, vec!["https://d", "https://a"]);
    let small = db.get_page(&bookmarks::types::Page { p: Some(1), limit: Some(1), sort: None });
    assert_eq!(small.len(), 1);
    assert_eq!(small[0].url, "https://a");
}

#[test]
fn page_sort_ascending() {
    let mut db = Db::new(0);
    insert(&mut db, "a", "https://a", "", &[], 5);
    insert(&mut db, "b", "https://b", "", &[], 3);
    let page = db.get_page(&bookmarks::types::Page {
        p: None,
        limit: None,
        sort: Some("creation_time ASC".to_string()),
    });
    let urls: Vec<&str> = page.iter().map(|b| b.url.as_str()).collect();
    assert_eq!(urls, vec!["https://b", "https://a"]);
}

#[test]
fn tag_intersection_returns_exactly_bookmarks_with_all_tags() {
    let mut db = Db::new(0);
    insert(&mut db, "both", "https://both", "", &["work", "urgent"], 1);
    insert(&mut db, "only-work", "https://w", "", &["work"], 2);
    insert(&mut db, "only-urgent", "https://u", "", &["urgent"], 3);
    insert(&mut db, "neither", "https://n", "", &[], 4);
    let r = db.search("# work urgent");
    assert_eq!(r.len(), 1);
    assert_eq!(r[0].url, "https://both");
}

#[test]
fn tag_intersection_private_opt_in() {
    let mut db = Db::new(0);
    insert(&mut db, "hidden", "https://h", "", &["private", "work"], 1);
    assert_eq!(db.search("# work").len(), 0, "private bookmarks stay hidden");
    let r = db.search("# private work");
    assert_eq!(r.len(), 1, "asking for a private tag opts in");
}

#[test]
fn done_tag_removes_todo() {
    let mut db = Db::new(0);
    let b = insert(&mut db, "t", "https://t", "", &["todo"], 1);
    let after = db.set_tag("done", b.id).unwrap();
    assert!(after.tags.contains(&"done".to_string()));
    assert!(!after.tags.contains(&"todo".to_string()));
    let got = db.get_bookmark_by_id(b.id).unwrap();
    assert!(got.tags.contains(&"done".to_string()));
    assert!(!got.tags.contains(&"todo".to_string()));
}

#[test]
fn set_tag_removal_and_validation() {
    let mut db = Db::new(0);
    let b = insert(&mut db, "t", "https://t", "", &["keep", "drop"], 1);
    let after = db.set_tag("-drop", b.id).unwrap();
    assert_eq!(after.tags, vec!["keep".to_string()]);
    assert!(matches!(db.set_tag("", b.id), Err(StoreError::Validation)));
    assert!(matches!(db.set_tag("x", 99), Err(StoreError::NotFound)));
}

#[test]
fn ranked_search_highlights_matches() {
    let mut db = Db::new(0);
    insert(&mut db, "Needle in code", "https://code", "about needles", &[], 1);
    insert(&mut db, "nothing", "https://other", "", &[], 2);
    let r = db.search("needle");
    assert_eq!(r.len(), 1);
    assert_eq!(r[0].name, "<mark>Needle</mark> in code");
    assert_eq!(r[0].description, "about <mark>needle</mark>s");
    assert_eq!(r[0].url, "https://code");
}

#[test]
fn short_query_falls_back_to_substring_search() {
    let mut db = Db::new(0);
    insert(&mut db, "AB testing", "https://ab", "", &[], 1);
    let r = db.search("ab");
    assert_eq!(r.len(), 1);
    assert_eq!(r[0].name, "AB testing", "the fallback adds no markers");
}

#[test]
fn punctuated_query_falls_back_to_substring_search() {
    let mut db = Db::new(0);
    insert(&mut db, "site", "https://example.com/page", "", &[], 1);
    let r = db.search("example.com");
    assert_eq!(r.len(), 1);
    assert_eq!(r[0].url, "https://example.com/page");
}

#[test]
fn ranked_search_orders_by_relevance() {
    let mut db = Db::new(0);
    insert(&mut db, "cat", "https://one", "a cat", &[], 10);
    insert(&mut db, "cat cat cat", "https://many", "cat cat", &[], 1);
    let r = db.search("cat");
    assert_eq!(r[0].url, "https://many", "more occurrences rank first");
    assert_eq!(r[1].url, "https://one");
}

#[test]
fn search_excludes_private_bookmarks() {
    let mut db = Db::new(0);
    insert(&mut db, "secret needle", "https://s", "", &["private"], 1);
    assert_eq!(db.search("needle").len(), 0);
    assert_eq!(db.search("ne").len(), 0);
}

#[test]
fn deleting_removes_from_everything() {
    let mut db = Db::new(0);
    let b = insert(&mut db, "gone", "https://gone", "", &["solo"], 1);
    let reports = db.delete_bookmark(&vec![b.id]);
    assert_eq!(reports.len(), 1);
    assert_eq!(reports[0].as_ref().unwrap().url, "https://gone");
    assert!(matches!(db.get_bookmark_by_id(b.id), Err(StoreError::NotFound)));
    assert!(db.list_tags().iter().all(|t| t.tag_name != "solo"));
    assert_eq!(db.search("gone").len(), 0);
    assert_eq!(db.search("# solo").len(), 0);
    let again = db.delete_bookmark(&vec![b.id]);
    assert!(matches!(again[0], Err(StoreError::NotFound)));
}

#[test]
fn delete_proceeds_past_unknown_ids() {
    let mut db = Db::new(0);
    let a = insert(&mut db, "a", "https://a", "", &[], 1);
    let b = insert(&mut db, "b", "https://b", "", &[], 2);
    let reports = db.delete_bookmark(&vec![a.id, 99, b.id]);
    assert!(reports[0].is_ok());
    assert!(matches!(reports[1], Err(StoreError::NotFound)));
    assert!(reports[2].is_ok());
    assert_eq!(db.len(), 0);
}

#[test]
fn renaming_todo_to_backlog_relabels_every_bookmark() {
    let mut db = Db::new(0);
    let a = insert(&mut db, "a", "https://a", "", &["todo"], 1);
    let b = insert(&mut db, "b", "https://b", "", &["todo", "other"], 2);
    let c = insert(&mut db, "c", "https://c", "", &["other"], 3);
    let n = db.rename_tag("todo", "backlog").unwrap();
    assert_eq!(n, 2);
    for id in [a.id, b.id] {
        let got = db.get_bookmark_by_id(id).unwrap();
        assert!(got.tags.contains(&"backlog".to_string()));
        assert!(!got.tags.contains(&"todo".to_string()));
    }
    let got_c = db.get_bookmark_by_id(c.id).unwrap();
    assert!(!got_c.tags.contains(&"backlog".to_string()));
    assert!(matches!(db.rename_tag("x", ""), Err(StoreError::Validation)));
}

#[test]
fn renaming_onto_an_existing_tag_merges() {
    let mut db = Db::new(0);
    let a = insert(&mut db, "a", "https://a", "", &["todo", "backlog"], 1);
    db.rename_tag("todo", "backlog").unwrap();
    let got = db.get_bookmark_by_id(a.id).unwrap();
    assert_eq!(got.tags, vec!["backlog".to_string()]);
}

#[test]
fn delete_tag_everywhere_counts_bookmarks() {
    let mut db = Db::new(0);
    insert(&mut db, "a", "https://a", "", &["junk"], 1);
    insert(&mut db, "b", "https://b", "", &["junk", "keep"], 2);
    insert(&mut db, "c", "https://c", "", &["keep"], 3);
    assert_eq!(db.delete_tag("junk"), 2);
    assert!(db.list_tags().iter().all(|t| t.tag_name != "junk"));
    assert_eq!(db.delete_tag("junk"), 0);
}

#[test]
fn list_tags_counts_visible_bookmarks_only() {
    let mut db = Db::new(0);
    insert(&mut db, "a", "https://a", "", &["work"], 1);
    insert(&mut db, "b", "https://b", "", &["work", "private"], 2);
    insert(&mut db, "c", "https://c", "", &["private", "secretonly"], 3);
    let listing = db.list_tags();
    let work = listing.iter().find(|t| t.tag_name == "work").expect("work is listed");
    assert_eq!(work.bookmarks_count, 1);
    assert!(listing.iter().all(|t| t.tag_name != "secretonly"));
    assert!(listing.iter().all(|t| t.tag_name != "private"));
}

#[test]
fn bookmarks_by_tag_sorted_newest_first() {
    let mut db = Db::new(0);
    insert(&mut db, "old", "https://old", "", &["work"], 1);
    insert(&mut db, "new", "https://new", "", &["work"], 9);
    insert(&mut db, "hidden", "https://h", "", &["work", "private"], 5);
    let r = db.get_bookmarks_by_tag("work");
    let urls: Vec<&str> = r.iter().map(|b| b.url.as_str()).collect();
    assert_eq!(urls, vec!["https://new", "https://old"]);
}

#[test]
fn bulk_import_parses_line_pairs() {
    let mut db = Db::new(0);
    let input = "\nhttp://example.com tag1 tag2";
    let r = db.insert(input, "", 100).unwrap();
    assert_eq!(r.len(), 1);
    assert_eq!(r[0].name, "http://example.com");
    assert_eq!(r[0].url, "http://example.com");
    assert_eq!(r[0].tags, vec!["tag1".to_string(), "tag2".to_string()]);
}

#[test]
fn bulk_import_applies_shared_tags_and_drops_odd_line() {
    let mut db = Db::new(0);
    let input = "First\nhttps://one inline\nSecond\nhttps://two\ndangling";
    let r = db.insert(input, "shared", 100).unwrap();
    assert_eq!(r.len(), 2);
    assert_eq!(r[0].name, "First");
    assert_eq!(r[0].tags, vec!["inline".to_string(), "shared".to_string()]);
    assert_eq!(r[1].tags, vec!["shared".to_string()]);
    assert_eq!(db.len(), 2);
}

#[test]
fn bulk_import_deduplicates_within_a_batch() {
    let mut db = Db::new(0);
    let input = "A\nhttps://same x\nB\nhttps://same y";
    let r = db.insert(input, "", 100).unwrap();
    assert_eq!(r.len(), 2);
    assert!(!r[0].tags.contains(&"dup".to_string()));
    assert!(r[1].tags.contains(&"dup".to_string()));
    let stored = db.get_bookmark_by_url("https://same").unwrap();
    assert!(stored.tags.contains(&"x".to_string()));
    assert!(stored.tags.contains(&"y".to_string()));
    assert_eq!(db.len(), 1);
}

#[test]
fn bulk_import_escapes_angle_brackets_in_names() {
    let mut db = Db::new(0);
    let r = db.insert("<b>x</b>\nhttps://esc", "", 1).unwrap();
    assert_eq!(r[0].name, "&ltb&gtx&lt/b&gt");
}

#[test]
fn bulk_import_rejects_empty_url_lines() {
    let mut db = Db::new(0);
    let r = db.insert("name\n\nother\nhttps://ok", "", 1);
    assert!(matches!(r, Err(StoreError::Validation)));
    assert_eq!(db.len(), 0, "a rejected batch changes nothing");
}

#[test]
fn parse_bookmark_splits_url_and_inline_tags() {
    let d = parse_bookmark("Title", "https://u one two", "three");
    assert_eq!(d.name, "Title");
    assert_eq!(d.url, "https://u");
    assert_eq!(d.tags, vec!["one".to_string(), "two".to_string(), "three".to_string()]);
    let d2 = parse_bookmark("", "https://plain", "");
    assert_eq!(d2.name, "https://plain");
    assert_eq!(d2.tags, Vec::<String>::new());
}

#[test]
fn update_replaces_fields_and_reconciles_tags() {
    let mut db = Db::new(0);
    let b = insert(&mut db, "old", "https://u", "d", &["keep", "drop"], 5);
    let updated = db
        .update_bookmark(&Bookmark {
            id: b.id,
            name: "new".to_string(),
            url: "https://u2".to_string(),
            creation_time: 0,
            description: "d2".to_string(),
            tags: vec!["keep".to_string(), "added".to_string()],
        })
        .unwrap();
    assert_eq!(updated.name, "new");
    assert_eq!(updated.url, "https://u2");
    assert_eq!(updated.description, "d2");
    assert_eq!(updated.creation_time, 5, "creation time never changes");
    assert_eq!(updated.tags, vec!["keep".to_string(), "added".to_string()]);
}

#[test]
fn update_rejects_bad_inputs() {
    let mut db = Db::new(0);
    let a = insert(&mut db, "a", "https://a", "", &[], 1);
    insert(&mut db, "b", "https://b", "", &[], 2);
    let mk = |id: i64, url: &str| Bookmark {
        id,
        name: "n".to_string(),
        url: url.to_string(),
        creation_time: 0,
        description: String::new(),
        tags: Vec::new(),
    };
    assert!(matches!(db.update_bookmark(&mk(99, "https://x")), Err(StoreError::NotFound)));
    assert!(matches!(db.update_bookmark(&mk(a.id, "")), Err(StoreError::Validation)));
    assert!(matches!(db.update_bookmark(&mk(a.id, "https://b")), Err(StoreError::Constraint)));
}

#[test]
fn favorites_are_a_unique_list() {
    let mut db = Db::new(0);
    assert_eq!(db.set_favorite("/tags/work").unwrap(), 1);
    assert_eq!(db.set_favorite("/tags/home").unwrap(), 2);
    assert!(matches!(db.set_favorite("/tags/work"), Err(StoreError::Constraint)));
    assert_eq!(db.get_favorites(), vec!["/tags/work".to_string(), "/tags/home".to_string()]);
}

#[test]
fn bookmarks_by_date_uses_the_local_day() {
    let mut db = Db::new(3600);
    insert(&mut db, "in", "https://in", "", &[], 86400 - 1800);
    insert(&mut db, "out", "https://out", "", &[], 86400 + 1800);
    let r = db.get_bookmarks_by_date("1970-01-02");
    let urls: Vec<&str> = r.iter().map(|b| b.url.as_str()).collect();
    assert_eq!(urls, vec!["https://out", "https://in"]);
    assert_eq!(db.get_bookmarks_by_date("1970-01-03").len(), 0);
    assert_eq!(db.get_bookmarks_by_date("not-a-date").len(), 0);
    assert_eq!(db.get_bookmarks_by_date("2024-02-30").len(), 0);
}

#[test]
fn csv_export_uses_the_fixed_column_order() {
    let mut db = Db::new(0);
    insert(&mut db, "Title", "https://u", "note text", &["b", "a"], 42);
    let csv = db.export_csv();
    let expected = "title,note,excerpt,url,tags,created,cover,highlights\n\
                    Title,\"note text\",,https://u,b,a,42,,";
    assert_eq!(csv, expected);
}

#[test]
fn csv_export_includes_private_bookmarks() {
    let mut db = Db::new(0);
    insert(&mut db, "p", "https://p", "", &["private"], 1);
    let csv = db.export_csv();
    assert!(csv.contains("https://p"));
}

#[test]
fn restore_keeps_ids_and_times() {
    let mut db = Db::new(0);
    db.restore(&Bookmark {
        id: 7,
        name: "kept".to_string(),
        url: "https://kept".to_string(),
        creation_time: 123,
        description: String::new(),
        tags: vec!["Work".to_string()],
    })
    .unwrap();
    let got = db.get_bookmark_by_id(7).unwrap();
    assert_eq!(got.creation_time, 123);
    assert_eq!(got.tags, vec!["work".to_string()]);
    let fresh = insert(&mut db, "n", "https://n", "", &[], 5);
    assert_eq!(fresh.id, 8, "the id counter moves past restored ids");
    assert!(matches!(
        db.restore(&Bookmark {
            id: 7,
            name: String::new(),
            url: "https://other".to_string(),
            creation_time: 1,
            description: String::new(),
            tags: Vec::new(),
        }),
        Err(StoreError::Constraint)
    ));
}

#[test]
fn empty_query_falls_back_and_matches_everything_visible() {
    let mut db = Db::new(0);
    insert(&mut db, "a", "https://a", "", &[], 1);
    insert(&mut db, "p", "https://p", "", &["private"], 2);
    assert_eq!(db.search("").len(), 1);
}

#[test]
fn tag_query_without_tags_is_empty() {
    let mut db = Db::new(0);
    insert(&mut db, "a", "https://a", "", &["work"], 1);
    assert_eq!(db.search("# ").len(), 0);
    assert_eq!(db.search("#  ").len(), 0);
}

#[test]
fn page_past_the_end_is_empty() {
    let mut db = Db::new(0);
    insert(&mut db, "a", "https://a", "", &[], 1);
    let far = db.get_page(&bookmarks::types::Page {
        p: Some(usize::MAX),
        limit: Some(2),
        sort: None,
    });
    assert_eq!(far.len(), 0);
}
