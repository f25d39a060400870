use pdfwatch::client::Hit;
use pdfwatch::scrape::collect_items;
use pdfwatch::store::{Item, ItemKind, Store, StoreError};

fn sample(id: &str, ts: u64, title: &str) -> Item {
    Item {
        id: id.to_string(),
        kind: ItemKind::Story,
        timestamp: ts,
        pdf_link: "https://x.org/a.pdf".to_string(),
        story_title: title.to_string(),
        comment_text: String::new(),
        parent_id: "0".to_string(),
        author: "a".to_string(),
    }
}

#[test]
fn test() {
    let h = Hit {
        created_at: "2022-12-13T13:05:57.000Z".to_string(),
        title: Some("SEC Complaint Against Sam Bankman-Fried [pdf]".to_string()),
        url: Some(
            "https://www.sec.gov/litigation/complaints/2022/comp-pr2022-219.pdf".to_string(),
        ),
        ..Default::default()
    };

    assert!(Item::from_hit(&h).is_ok());
}

#[test]
fn insert_is_idempotent() {
    let mut store = Store::new();
    let batch = vec![sample("a", 10, "one"), sample("b", 20, "two")];
    Item::store_entries(&mut store, &batch).unwrap();
    let first = Item::get_list(&store, u64::MAX, 20).unwrap();
    Item::store_entries(&mut store, &batch).unwrap();
    let second = Item::get_list(&store, u64::MAX, 20).unwrap();
    assert_eq!(first.len(), 2);
    assert_eq!(second.len(), 2);
    for (x, y) in first.iter().zip(second.iter()) {
        assert_eq!(x.id, y.id);
        assert_eq!(x.timestamp, y.timestamp);
        assert_eq!(x.story_title, y.story_title);
    }
}

#[test]
fn insert_first_write_wins() {
    let mut store = Store::new();
    Item::store_entries(&mut store, &vec![sample("a", 10, "first")]).unwrap();
    Item::store_entries(&mut store, &vec![sample("a", 99, "second")]).unwrap();
    let it = Item::get_one(&store, "a").unwrap();
    assert_eq!(it.story_title, "first");
    assert_eq!(it.timestamp, 10);
}

#[test]
fn list_is_paginated() {
    let mut store = Store::new();
    let batch: Vec<Item> = (0..12u64)
        .map(|n| sample(&format!("id{}", n), n * 10, "t"))
        .collect();
    Item::store_entries(&mut store, &batch).unwrap();
    let listed = Item::get_list(&store, 100, 5).unwrap();
    assert!(listed.len() <= 5);
    for it in &listed {
        assert!(it.timestamp < 100);
    }
    for w in listed.windows(2) {
        assert!(w[0].timestamp >= w[1].timestamp);
    }
    assert_eq!(listed.len(), 5);
    assert_eq!(listed[0].timestamp, 90);
}

#[test]
fn list_excludes_boundary_timestamp() {
    let mut store = Store::new();
    Item::store_entries(&mut store, &vec![sample("a", 100, "t"), sample("b", 99, "t")]).unwrap();
    let listed = Item::get_list(&store, 100, 20).unwrap();
    assert_eq!(listed.len(), 1);
    assert_eq!(listed[0].id, "b");
}

#[test]
fn list_hard_cap_is_twenty() {
    let mut store = Store::new();
    let batch: Vec<Item> = (0..25u64)
        .map(|n| sample(&format!("id{}", n), n, "t"))
        .collect();
    Item::store_entries(&mut store, &batch).unwrap();
    let listed = Item::get_list(&store, u64::MAX, 50).unwrap();
    assert_eq!(listed.len(), 20);
}

#[test]
fn get_one_exact_fields() {
    let mut store = Store::new();
    let mut it = sample("key", 77, "the title");
    it.kind = ItemKind::Comment;
    it.comment_text = "body text".to_string();
    it.pdf_link = "https://y.org/b.pdf".to_string();
    it.parent_id = "9".to_string();
    it.author = "bob".to_string();
    Item::store_entries(&mut store, &vec![it]).unwrap();
    let got = Item::get_one(&store, "key").unwrap();
    assert_eq!(got.id, "key");
    assert_eq!(got.kind, ItemKind::Comment);
    assert_eq!(got.timestamp, 77);
    assert_eq!(got.pdf_link, "https://y.org/b.pdf");
    assert_eq!(got.story_title, "the title");
    assert_eq!(got.comment_text, "body text");
    assert_eq!(got.parent_id, "9");
    assert_eq!(got.author, "bob");
}

#[test]
fn get_one_unknown_is_not_found() {
    let store = Store::new();
    assert_eq!(
        Item::get_one(&store, "missing").unwrap_err(),
        StoreError::NotFound
    );
}

#[test]
fn search_finds_title_match() {
    let mut store = Store::new();
    Item::store_entries(
        &mut store,
        &vec![
            sample("a", 10, "A big pdf report"),
            sample("b", 20, "unrelated"),
        ],
    )
    .unwrap();
    let found = Item::search(&store, "pdf").unwrap();
    assert!(found.len() <= 50);
    assert!(found.iter().any(|it| it.id == "a"));
    assert!(!found.iter().any(|it| it.id == "b"));
}

#[test]
fn search_matches_body_and_caps_at_fifty() {
    let mut store = Store::new();
    let mut batch: Vec<Item> = Vec::new();
    for n in 0..60u64 {
        let mut it = sample(&format!("id{}", n), n, "no match here");
        it.comment_text = "pattern inside body".to_string();
        batch.push(it);
    }
    Item::store_entries(&mut store, &batch).unwrap();
    let found = Item::search(&store, "pattern").unwrap();
    assert_eq!(found.len(), 50);
    let none = Item::search(&store, "absent-needle").unwrap();
    assert_eq!(none.len(), 0);
}

#[test]
fn scrape_cycle_end_to_end() {
    let h = Hit {
        url: Some("https://x.org/report.pdf".to_string()),
        author: "a".to_string(),
        story_title: Some("Report".to_string()),
        created_at_i: 1000,
        object_id: "123".to_string(),
        ..Default::default()
    };
    let noise = Hit {
        comment_text: Some("nothing to see".to_string()),
        object_id: "456".to_string(),
        ..Default::default()
    };
    let items = collect_items(&vec![noise, h]);
    assert_eq!(items.len(), 1);
    let mut store = Store::new();
    Item::store_entries(&mut store, &items).unwrap();
    let got = Item::get_one(&store, "123").unwrap();
    assert_eq!(got.id, "123");
    assert_eq!(got.kind, ItemKind::Story);
    assert_eq!(got.pdf_link, "https://x.org/report.pdf");
    assert_eq!(got.story_title, "Report");
    assert_eq!(got.timestamp, 1000);
    assert_eq!(got.author, "a");
    assert_eq!(
        Item::get_one(&store, "456").unwrap_err(),
        StoreError::NotFound
    );
}
