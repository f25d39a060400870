use pdfwatch::client::{decode_comments, Hit, Root};
use pdfwatch::decimal::{i64_to_dec, u64_to_dec};
use pdfwatch::extract::{extract_url, ClassifyError};
use pdfwatch::store::{Item, ItemKind};

#[test]
fn extract_plain_url() {
    let r = extract_url("https://x.org/report.pdf").unwrap();
    assert_eq!(r, "https://x.org/report.pdf");
}

#[test]
fn extract_embedded_link() {
    let r = extract_url("see https://a.example/paper.pdf thanks").unwrap();
    assert_eq!(r, "https://a.example/paper.pdf");
}

#[test]
fn extract_trailing_match() {
    let r = extract_url("x http://a.example/a.pdf then https://b.example/b.pdf y").unwrap();
    assert_eq!(r, "http://a.example/a.pdf then https://b.example/b.pdf");
}

#[test]
fn extract_no_scheme() {
    let r = extract_url("report.pdf");
    assert_eq!(r, Err(ClassifyError::NoMatch));
}

#[test]
fn extract_no_suffix() {
    let r = extract_url("https://x.org/report.html");
    assert_eq!(r, Err(ClassifyError::NoMatch));
}

#[test]
fn classify_story_from_url() {
    let h = Hit {
        url: Some("https://x.org/report.pdf".to_string()),
        story_title: Some("Report".to_string()),
        author: "a".to_string(),
        created_at_i: 1000,
        object_id: "123".to_string(),
        ..Default::default()
    };
    let it = Item::from_hit(&h).unwrap();
    assert_eq!(it.kind, ItemKind::Story);
    assert_eq!(it.pdf_link, "https://x.org/report.pdf");
    assert_eq!(it.story_title, "Report");
    assert_eq!(it.id, "123");
    assert_eq!(it.timestamp, 1000);
    assert_eq!(it.author, "a");
    assert_eq!(it.parent_id, "0");
    assert_eq!(it.comment_text, "");
}

#[test]
fn classify_not_qualifying() {
    let h = Hit {
        url: Some("https://x.org/page.html".to_string()),
        comment_text: Some("no link here".to_string()),
        ..Default::default()
    };
    assert_eq!(Item::from_hit(&h).unwrap_err(), ClassifyError::NotQualifying);
    let empty = Hit::default();
    assert_eq!(
        Item::from_hit(&empty).unwrap_err(),
        ClassifyError::NotQualifying
    );
}

#[test]
fn classify_comment_link() {
    let h = Hit {
        url: Some("https://x.org/page.html".to_string()),
        comment_text: Some("read https://a.example/paper.pdf now".to_string()),
        parent_id: Some(42),
        ..Default::default()
    };
    let it = Item::from_hit(&h).unwrap();
    assert_eq!(it.kind, ItemKind::Comment);
    assert_eq!(it.pdf_link, "https://a.example/paper.pdf");
    assert_eq!(it.comment_text, "read https://a.example/paper.pdf now");
    assert_eq!(it.parent_id, "42");
}

#[test]
fn classify_comment_overrides_story() {
    let h = Hit {
        url: Some("https://x.org/first.pdf".to_string()),
        comment_text: Some("also https://y.org/second.pdf".to_string()),
        ..Default::default()
    };
    let it = Item::from_hit(&h).unwrap();
    assert_eq!(it.kind, ItemKind::Comment);
    assert_eq!(it.pdf_link, "https://y.org/second.pdf");
}

#[test]
fn classify_title_precedence() {
    let h = Hit {
        url: Some("https://x.org/report.pdf".to_string()),
        story_title: Some("Parent".to_string()),
        title: Some("Plain".to_string()),
        ..Default::default()
    };
    let it = Item::from_hit(&h).unwrap();
    assert_eq!(it.story_title, "Plain");
    let h2 = Hit {
        url: Some("https://x.org/report.pdf".to_string()),
        story_title: Some("Parent".to_string()),
        ..Default::default()
    };
    assert_eq!(Item::from_hit(&h2).unwrap().story_title, "Parent");
}

#[test]
fn kind_strings() {
    assert_eq!(ItemKind::Story.to_string(), "story");
    assert_eq!(ItemKind::Comment.to_string(), "comment");
    assert_eq!(ItemKind::Unknown.to_string(), "unknown");
    assert_eq!(ItemKind::from_str("story"), Ok(ItemKind::Story));
    assert_eq!(ItemKind::from_str("comment"), Ok(ItemKind::Comment));
    assert_eq!(ItemKind::from_str("whatever"), Ok(ItemKind::Unknown));
    assert_eq!(ItemKind::default(), ItemKind::Unknown);
}

#[test]
fn decimal_rendering() {
    assert_eq!(u64_to_dec(0), "0");
    assert_eq!(u64_to_dec(105), "105");
    assert_eq!(i64_to_dec(-42), "-42");
    assert_eq!(i64_to_dec(7), "7");
}

#[test]
fn decode_entities_in_comments() {
    let root = Root {
        hits: vec![
            Hit {
                comment_text: Some("a &amp; b".to_string()),
                author: "c".to_string(),
                ..Default::default()
            },
            Hit {
                comment_text: None,
                ..Default::default()
            },
        ],
        nb_hits: 2,
        page: 0,
        nb_pages: 1,
        hits_per_page: 20,
    };
    let out = decode_comments(root);
    assert_eq!(out.hits.len(), 2);
    assert_eq!(out.hits[0].comment_text.as_deref(), Some("a & b"));
    assert_eq!(out.hits[0].author, "c");
    assert_eq!(out.hits[1].comment_text, None);
    assert_eq!(out.nb_hits, 2);
}
