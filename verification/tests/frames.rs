//! Tests of image-frame reassembly: reordered parts, partial-frame
//! discard, frame restarts, and the split-and-rebuild round trip.

use matthias_core::chunks::split_chunks;
use matthias_core::reassembly::{InsertOutcome, Reassembly};

fn ident(c: u8) -> Vec<u8> {
    vec![c; 64]
}

fn hash(c: u8) -> Vec<u8> {
    vec![c; 64]
}

fn uuid_a() -> Vec<u8> {
    b"550e8400-e29b-41d4-a716-446655440000".to_vec()
}

#[test]
fn reassembly_with_reordering() {
    // Header lists [h1, h2, h3]; parts arrive as [h3, h1, h2]; the
    // frame completes to the concatenation in header order.
    let mut buf = Reassembly::new();
    buf.insert_header(uuid_a(), ident(b'H'), vec![hash(b'1'), hash(b'2'), hash(b'3')]);

    let p1 = vec![11u8; 5];
    let p2 = vec![22u8; 4];
    let p3 = vec![33u8; 3];

    assert!(matches!(
        buf.insert_part(&uuid_a(), &ident(b'H'), &hash(b'3'), p3.clone()),
        InsertOutcome::Stored
    ));
    assert!(matches!(
        buf.insert_part(&uuid_a(), &ident(b'H'), &hash(b'1'), p1.clone()),
        InsertOutcome::Stored
    ));
    match buf.insert_part(&uuid_a(), &ident(b'H'), &hash(b'2'), p2.clone()) {
        InsertOutcome::Completed(img) => {
            let mut expected = p1;
            expected.extend_from_slice(&p2);
            expected.extend_from_slice(&p3);
            assert_eq!(img, expected);
        }
        _ => panic!("expected the frame to complete"),
    }
}

#[test]
fn partial_frame_discard() {
    // Header H1 announces three parts but only two arrive; H2 then
    // arrives whole.  Only H2 is published, and H1 is drained.
    let mut buf = Reassembly::new();
    buf.insert_header(uuid_a(), ident(b'1'), vec![hash(b'a'), hash(b'b'), hash(b'c')]);
    assert!(matches!(
        buf.insert_part(&uuid_a(), &ident(b'1'), &hash(b'a'), vec![1]),
        InsertOutcome::Stored
    ));
    assert!(matches!(
        buf.insert_part(&uuid_a(), &ident(b'1'), &hash(b'b'), vec![2]),
        InsertOutcome::Stored
    ));

    buf.insert_header(uuid_a(), ident(b'2'), vec![hash(b'x'), hash(b'y'), hash(b'z')]);
    assert!(matches!(
        buf.insert_part(&uuid_a(), &ident(b'2'), &hash(b'x'), vec![7]),
        InsertOutcome::Stored
    ));
    assert!(matches!(
        buf.insert_part(&uuid_a(), &ident(b'2'), &hash(b'y'), vec![8]),
        InsertOutcome::Stored
    ));
    match buf.insert_part(&uuid_a(), &ident(b'2'), &hash(b'z'), vec![9]) {
        InsertOutcome::Completed(img) => assert_eq!(img, vec![7, 8, 9]),
        _ => panic!("expected the second frame to complete"),
    }

    // H1 was drained with it: its late part finds no frame.
    assert!(matches!(
        buf.insert_part(&uuid_a(), &ident(b'1'), &hash(b'c'), vec![3]),
        InsertOutcome::UnknownFrame
    ));
}

#[test]
fn unknown_sender_frame_and_hash_are_dropped() {
    let mut buf = Reassembly::new();
    assert!(matches!(
        buf.insert_part(&uuid_a(), &ident(b'H'), &hash(b'1'), vec![1]),
        InsertOutcome::UnknownSender
    ));
    buf.insert_header(uuid_a(), ident(b'H'), vec![hash(b'1')]);
    assert!(matches!(
        buf.insert_part(&uuid_a(), &ident(b'X'), &hash(b'1'), vec![1]),
        InsertOutcome::UnknownFrame
    ));
    assert!(matches!(
        buf.insert_part(&uuid_a(), &ident(b'H'), &hash(b'9'), vec![1]),
        InsertOutcome::UnknownHash
    ));
    let other = b"not-the-sender-anyone-knows-of-00000".to_vec();
    assert!(matches!(
        buf.insert_part(&other, &ident(b'H'), &hash(b'1'), vec![1]),
        InsertOutcome::UnknownSender
    ));
}

#[test]
fn repeated_header_restarts_the_frame() {
    // A fresh header for a known identificator empties the slots:
    // the frame starts over.
    let mut buf = Reassembly::new();
    buf.insert_header(uuid_a(), ident(b'H'), vec![hash(b'1'), hash(b'2')]);
    assert!(matches!(
        buf.insert_part(&uuid_a(), &ident(b'H'), &hash(b'1'), vec![1]),
        InsertOutcome::Stored
    ));
    buf.insert_header(uuid_a(), ident(b'H'), vec![hash(b'1'), hash(b'2')]);
    // The earlier part is gone; this one alone does not complete.
    assert!(matches!(
        buf.insert_part(&uuid_a(), &ident(b'H'), &hash(b'2'), vec![2]),
        InsertOutcome::Stored
    ));
    match buf.insert_part(&uuid_a(), &ident(b'H'), &hash(b'1'), vec![1]) {
        InsertOutcome::Completed(img) => assert_eq!(img, vec![1, 2]),
        _ => panic!("expected completion after refilling"),
    }
}

#[test]
fn split_and_rebuild_roundtrip() {
    // The sender splits a frame into parts; delivering every part
    // rebuilds the original bytes exactly.
    let jpeg: Vec<u8> = (0u8..=255).cycle().take(1000).collect();
    let parts = split_chunks(&jpeg, 300);
    assert_eq!(parts.len(), 4);

    let hashes: Vec<Vec<u8>> = (0..parts.len()).map(|i| hash(b'0' + i as u8)).collect();
    let mut buf = Reassembly::new();
    buf.insert_header(uuid_a(), ident(b'J'), hashes.clone());

    let mut completed: Option<Vec<u8>> = None;
    for (i, part) in parts.iter().enumerate() {
        match buf.insert_part(&uuid_a(), &ident(b'J'), &hashes[i], part.clone()) {
            InsertOutcome::Completed(img) => completed = Some(img),
            InsertOutcome::Stored => assert!(i + 1 < parts.len()),
            _ => panic!("part should have been accepted"),
        }
    }
    assert_eq!(completed, Some(jpeg));
}

#[test]
fn two_senders_are_independent() {
    let mut buf = Reassembly::new();
    let a = uuid_a();
    let b = b"6ba7b810-9dad-11d1-80b4-00c04fd430c8".to_vec();
    buf.insert_header(a.clone(), ident(b'H'), vec![hash(b'1')]);
    buf.insert_header(b.clone(), ident(b'H'), vec![hash(b'1')]);
    match buf.insert_part(&a, &ident(b'H'), &hash(b'1'), vec![5]) {
        InsertOutcome::Completed(img) => assert_eq!(img, vec![5]),
        _ => panic!("expected completion for the first sender"),
    }
    // The other sender's identical frame is untouched.
    match buf.insert_part(&b, &ident(b'H'), &hash(b'1'), vec![6]) {
        InsertOutcome::Completed(img) => assert_eq!(img, vec![6]),
        _ => panic!("expected completion for the second sender"),
    }
}
