//! The ingestion pipeline end to end: fingerprints, deduplication, storage,
//! commit, rebuild, search and snippets.

use pms::datetime::DateTime;
use pms::fingerprint::get_dhash;
use pms::rebuild::rebuild_docs;
use pms::search::{rank_hits, search_screens, SearchError, SearchHit};
use pms::service::{IngestGate, Service};
use pms::snippet::make_snippet;

fn dt(year: u32, month: u32, day: u32, hour: u32, minute: u32, second: u32) -> DateTime {
    DateTime { year, month, day, hour, minute, second }
}

/// A small JPEG whose pixel columns fade from dark to bright.
fn gradient_jpeg() -> Vec<u8> {
    let img = image::ImageBuffer::from_fn(64, 36, |x, _y| image::Rgb([(x * 4) as u8; 3]));
    let mut bytes: Vec<u8> = Vec::new();
    image::DynamicImage::ImageRgb8(img)
        .write_to(&mut std::io::Cursor::new(&mut bytes), image::ImageFormat::Jpeg)
        .unwrap();
    bytes
}

/// A small JPEG whose pixel columns fade from bright to dark.
fn reverse_gradient_jpeg() -> Vec<u8> {
    let img = image::ImageBuffer::from_fn(64, 36, |x, _y| image::Rgb([(255 - x * 4) as u8; 3]));
    let mut bytes: Vec<u8> = Vec::new();
    image::DynamicImage::ImageRgb8(img)
        .write_to(&mut std::io::Cursor::new(&mut bytes), image::ImageFormat::Jpeg)
        .unwrap();
    bytes
}

#[test]
fn fingerprints_are_deterministic_and_fixed_length() {
    let a = gradient_jpeg();
    let first = get_dhash(&a).unwrap();
    let second = get_dhash(&a).unwrap();
    assert!(first.equals(&second));
    assert_eq!(first.num_bits(), 144);
    // A much larger image of the same scene still yields 144 bits.
    let img = image::ImageBuffer::from_fn(640, 360, |x, _y| {
        image::Rgb([((x / 10) * 4) as u8; 3])
    });
    let mut big: Vec<u8> = Vec::new();
    image::DynamicImage::ImageRgb8(img)
        .write_to(&mut std::io::Cursor::new(&mut big), image::ImageFormat::Jpeg)
        .unwrap();
    assert_eq!(get_dhash(&big).unwrap().num_bits(), 144);
}

#[test]
fn different_images_have_different_fingerprints() {
    let a = get_dhash(&gradient_jpeg()).unwrap();
    let b = get_dhash(&reverse_gradient_jpeg()).unwrap();
    assert!(!a.equals(&b));
}

#[test]
fn undecodable_bytes_are_rejected() {
    assert!(get_dhash(&vec![1u8, 2, 3, 4]).is_none());
    let mut svc = Service::new();
    match svc.ingest_check(&vec![0u8; 16]) {
        IngestGate::Rejected => {},
        _ => panic!("garbage bytes must be rejected"),
    }
    assert!(!svc.ingest_accept(dt(2024, 1, 2, 3, 4, 5), 1, vec![0u8; 16], String::new()));
}

#[test]
fn ingest_is_idempotent_and_skips_ocr_on_duplicates() {
    let image = gradient_jpeg();
    let time = dt(2024, 1, 2, 3, 4, 5);
    let mut svc = Service::new();

    let fp = match svc.ingest_check(&image) {
        IngestGate::Fresh(fp) => fp,
        _ => panic!("first sighting must be fresh"),
    };
    svc.ingest_record(time, 1, image.clone(), fp, "hello world".to_string());
    assert_eq!(svc.ocr_calls, 1);
    assert_eq!(svc.files.len(), 1);
    assert_eq!(svc.pending.len(), 1);

    // The second upload of identical bytes is a successful no-op: no text
    // extraction, no second file, no second document.
    match svc.ingest_check(&image) {
        IngestGate::Duplicate => {},
        _ => panic!("second sighting must be a duplicate"),
    }
    assert!(svc.ingest_accept(time, 1, image.clone(), "ignored".to_string()));
    assert_eq!(svc.ocr_calls, 1);
    assert_eq!(svc.files.len(), 1);
    assert_eq!(svc.pending.len(), 1);

    // The stored file sits at the deterministic path and holds the bytes.
    let path = "screenshots/2024/1/2/030405-1.jpg".to_string();
    assert_eq!(svc.read_file(&path), Some(image));
    assert_eq!(svc.read_file(&"screenshots/2024/1/2/030405-2.jpg".to_string()), None);
}

#[test]
fn accept_ingests_a_fresh_capture_in_one_step() {
    let image = gradient_jpeg();
    let time = dt(2024, 1, 2, 3, 4, 5);
    let mut svc = Service::new();
    assert!(svc.ingest_accept(time, 1, image.clone(), "hello".to_string()));
    assert_eq!(svc.ocr_calls, 1);
    assert_eq!(svc.files.len(), 1);
    assert_eq!(svc.pending.len(), 1);
    assert_eq!(svc.pending[0].text, "hello");
}

#[test]
fn same_path_is_overwritten_not_duplicated() {
    let time = dt(2024, 1, 2, 3, 4, 5);
    let mut svc = Service::new();
    let first = gradient_jpeg();
    let second = reverse_gradient_jpeg();
    let fp1 = match svc.ingest_check(&first) {
        IngestGate::Fresh(fp) => fp,
        _ => panic!("fresh"),
    };
    svc.ingest_record(time, 1, first, fp1, "one".to_string());
    let fp2 = match svc.ingest_check(&second) {
        IngestGate::Fresh(fp) => fp,
        _ => panic!("fresh"),
    };
    svc.ingest_record(time, 1, second.clone(), fp2, "two".to_string());
    // Same second, same screen: the path collides and the file is replaced.
    assert_eq!(svc.files.len(), 1);
    let path = "screenshots/2024/1/2/030405-1.jpg".to_string();
    assert_eq!(svc.read_file(&path), Some(second));
    assert_eq!(svc.pending.len(), 2);
}

#[test]
fn commit_makes_pending_documents_visible_in_order() {
    let mut svc = Service::new();
    let image = gradient_jpeg();
    let fp = match svc.ingest_check(&image) {
        IngestGate::Fresh(fp) => fp,
        _ => panic!("fresh"),
    };
    svc.ingest_record(dt(2024, 1, 2, 3, 4, 5), 1, image, fp, "hello".to_string());
    assert_eq!(svc.committed.len(), 0);
    svc.commit();
    assert_eq!(svc.pending.len(), 0);
    assert_eq!(svc.committed.len(), 1);
    assert_eq!(svc.committed[0].text, "hello");
    assert_eq!(svc.committed[0].screen_id, 1);
    svc.commit();
    assert_eq!(svc.committed.len(), 1);
}

#[test]
fn rebuild_yields_one_document_per_file_and_one_commit() {
    let paths = vec![
        "screenshots/2024/1/2/030405-1.jpg".to_string(),
        "screenshots/2025/12/31/235959-2.jpg".to_string(),
        "screenshots/7/6/5/040302-0.jpg".to_string(),
    ];
    let texts = vec!["alpha".to_string(), "beta".to_string(), "gamma".to_string()];
    let docs = rebuild_docs(&paths, &texts).unwrap();
    assert_eq!(docs.len(), 3);
    assert_eq!(docs[0].time, dt(2024, 1, 2, 3, 4, 5));
    assert_eq!(docs[0].screen_id, 1);
    assert_eq!(docs[0].text, "alpha");
    assert_eq!(docs[1].time, dt(2025, 12, 31, 23, 59, 59));
    assert_eq!(docs[1].screen_id, 2);
    assert_eq!(docs[2].time, dt(7, 6, 5, 4, 3, 2));
    assert_eq!(docs[2].screen_id, 0);

    let mut svc = Service::new();
    svc.pending = docs;
    svc.commit();
    assert_eq!(svc.committed.len(), 3);
    assert_eq!(svc.committed[2].text, "gamma");
}

#[test]
fn rebuild_fails_loudly_on_a_malformed_path() {
    let paths = vec![
        "screenshots/2024/1/2/030405-1.jpg".to_string(),
        "screenshots/2024/1/2/thumbs.db".to_string(),
    ];
    let texts = vec!["a".to_string(), "b".to_string()];
    assert!(matches!(rebuild_docs(&paths, &texts), Err(1)));
}

fn hit(score: u64, text: &str, time: DateTime, screen_id: u32) -> SearchHit {
    SearchHit { score, text: text.to_string(), time, screen_id }
}

#[test]
fn ranking_is_non_increasing_stable_and_capped() {
    let t = dt(2024, 1, 2, 3, 4, 5);
    let ordered = rank_hits(vec![
        hit(3, "low", t, 1),
        hit(9, "first-nine", t, 2),
        hit(9, "second-nine", t, 3),
        hit(12, "top", t, 4),
    ]);
    let scores: Vec<u64> = ordered.iter().map(|h| h.score).collect();
    assert_eq!(scores, vec![12, 9, 9, 3]);
    // Ties keep the order the oracle returned them in.
    assert_eq!(ordered[1].text, "first-nine");
    assert_eq!(ordered[2].text, "second-nine");

    let mut many = Vec::new();
    for i in 0..450u64 {
        many.push(hit(i, "x", t, 1));
    }
    let capped = rank_hits(many);
    assert_eq!(capped.len(), 200);
    for w in capped.windows(2) {
        assert!(w[0].score >= w[1].score);
    }
    assert_eq!(capped[0].score, 449);
    assert_eq!(capped[199].score, 250);
}

#[test]
fn search_serves_images_read_at_response_time() {
    let time = dt(2024, 1, 2, 3, 4, 5);
    let earlier = dt(2024, 1, 2, 3, 4, 4);
    let img_low = gradient_jpeg();
    let img_high = reverse_gradient_jpeg();
    // The caller reads one file per ranked hit, fresh from disk, and hands
    // the bytes in; ranked order here is the high score first.
    let hits = vec![hit(5, "low text", earlier, 1), hit(9, "high text", time, 2)];
    let images = vec![Some(img_high.clone()), Some(img_low.clone())];
    let results = search_screens(hits, images).unwrap();
    assert_eq!(results.len(), 2);
    assert_eq!(results[0].screen_id, 2);
    assert_eq!(results[0].text, "high text");
    assert_eq!(results[0].time, time);
    assert_eq!(results[0].image, img_high);
    assert_eq!(results[1].screen_id, 1);
    assert_eq!(results[1].image, img_low);
}

#[test]
fn search_fails_the_whole_query_on_a_missing_file() {
    let time = dt(2024, 1, 2, 3, 4, 5);
    let gone = dt(2024, 1, 2, 3, 4, 6);
    // The second ranked hit's file could not be read: the whole query fails.
    let hits = vec![hit(5, "hello", time, 1), hit(4, "hello", gone, 1)];
    let images = vec![Some(gradient_jpeg()), None];
    let r = search_screens(hits, images);
    assert!(matches!(r, Err(SearchError::MissingFile)));

    // A hit whose recorded time encodes no storage path fails the query too.
    let bad_time = dt(2024, 13, 2, 3, 4, 5);
    let r = search_screens(vec![hit(5, "hello", bad_time, 1)], vec![Some(gradient_jpeg())]);
    assert!(matches!(r, Err(SearchError::InvalidTime)));
}

#[test]
fn snippet_highlights_the_reference_scenario() {
    let text = "the quick brown fox".to_string();
    let (before, mid, after) = make_snippet(&text, &"brown".to_string(), 20);
    assert_eq!(before, "the quick");
    assert_eq!(mid, "brown");
    assert_eq!(after, "brown fox");

    let (before, mid, after) = make_snippet(&text, &"zebra".to_string(), 20);
    assert_eq!(before, "");
    assert_eq!(mid, "");
    assert_eq!(after, "");
}

#[test]
fn snippet_matching_is_case_insensitive_both_ways() {
    let text = "The Quick BROWN Fox".to_string();
    let (before, mid, after) = make_snippet(&text, &"brown".to_string(), 20);
    assert_eq!(before, "the quick");
    assert_eq!(mid, "brown");
    assert_eq!(after, "brown fox");

    // An upper-case query matches the same token.
    let (before, mid, after) = make_snippet(&text, &"BROWN".to_string(), 20);
    assert_eq!(before, "the quick");
    assert_eq!(mid, "brown");
    assert_eq!(after, "brown fox");
}

#[test]
fn snippet_splits_unicode_words_and_windows_the_match() {
    let text = "one, two; three four five six seven eight nine ten \
                eleven twelve thirteen fourteen fifteen sixteen"
        .to_string();
    let (before, mid, after) = make_snippet(&text, &"twelve".to_string(), 4);
    // Half the window on each side: two words before, two from the match on.
    assert_eq!(before, "ten eleven");
    assert_eq!(mid, "twelve");
    assert_eq!(after, "twelve thirteen");

    // Punctuation is no part of a word token.
    let (b2, m2, a2) = make_snippet(&"stop. match! done?".to_string(), &"match".to_string(), 20);
    assert_eq!(b2, "stop");
    assert_eq!(m2, "match");
    assert_eq!(a2, "match done");
}
