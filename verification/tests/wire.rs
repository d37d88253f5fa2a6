//! Tests of the wire layers: length-prefixed framing, datagram
//! kind tags, voice and image-part payloads, and chunking.

use matthias_core::chunks::split_chunks;
use matthias_core::datagram::{
    build_image_part_payload, build_voice_payload, dispatch_datagram, kind_code,
    parse_image_part_payload, parse_voice_payload, tag_payload, untag_payload, DatagramAction,
    DatagramKind,
};
use matthias_core::endian::{u32_from_be, u32_to_be_vec};
use matthias_core::frame::{frame_bytes, frame_length, parse_frame};
use matthias_core::wav::build_wav_file;

const UUID: &str = "550e8400-e29b-41d4-a716-446655440000";

#[test]
fn u32_big_endian_encoding() {
    assert_eq!(u32_to_be_vec(0x01020304), vec![1u8, 2, 3, 4]);
    assert_eq!(u32_to_be_vec(0), vec![0u8, 0, 0, 0]);
    assert_eq!(u32_from_be(1, 2, 3, 4), 0x01020304);
    assert_eq!(u32_from_be(0xff, 0xff, 0xff, 0xff), u32::MAX);
}

#[test]
fn frame_roundtrip() {
    let body = vec![10u8, 20, 30];
    let framed = frame_bytes(&body).expect("within limit");
    assert_eq!(framed, vec![0u8, 0, 0, 3, 10, 20, 30]);
    let parsed = parse_frame(&framed).expect("parses");
    assert_eq!(parsed, body);
}

#[test]
fn frame_roundtrip_empty() {
    let body: Vec<u8> = Vec::new();
    let framed = frame_bytes(&body).expect("within limit");
    assert_eq!(framed, vec![0u8, 0, 0, 0]);
    assert_eq!(parse_frame(&framed), Some(Vec::new()));
}

#[test]
fn frame_length_prefix() {
    assert_eq!(frame_length(&vec![0, 0, 1, 0]), Some(256));
    // A short prefix is a framing error.
    assert_eq!(frame_length(&vec![0, 0, 1]), None);
    // A length above the 64 MiB limit is a fatal framing error.
    assert_eq!(frame_length(&vec![255, 0, 0, 0]), None);
}

#[test]
fn frame_rejects_bad_length() {
    // Length says five, but only two bytes follow.
    assert_eq!(parse_frame(&vec![0, 0, 0, 5, 1, 2]), None);
    // Length says one, but three bytes follow.
    assert_eq!(parse_frame(&vec![0, 0, 0, 1, 1, 2, 3]), None);
    // Too short to even hold the prefix.
    assert_eq!(parse_frame(&vec![0, 0]), None);
}

#[test]
fn kind_tag_codes_are_stable() {
    assert_eq!(kind_code(DatagramKind::Voice), 0);
    assert_eq!(kind_code(DatagramKind::ImageHeader), 1);
    assert_eq!(kind_code(DatagramKind::ImagePart), 2);
}

#[test]
fn kind_tag_roundtrip() {
    for kind in [DatagramKind::Voice, DatagramKind::ImageHeader, DatagramKind::ImagePart] {
        let payload = vec![9u8, 8, 7];
        let tagged = tag_payload(&payload, kind);
        assert_eq!(tagged.len(), payload.len() + 4);
        let (body, parsed_kind) = untag_payload(&tagged).expect("known code");
        assert_eq!(body, payload);
        assert_eq!(parsed_kind, kind);
    }
}

#[test]
fn kind_tag_rejects_unknown_code() {
    let mut data = vec![9u8, 8, 7];
    data.extend_from_slice(&[0, 0, 0, 9]);
    assert!(untag_payload(&data).is_none());
    assert!(untag_payload(&vec![0, 0, 3]).is_none());
}

#[test]
fn voice_payload_roundtrip() {
    let samples = vec![1u8, 2, 3, 4, 5];
    let uuid: Vec<u8> = UUID.as_bytes().to_vec();
    let payload = build_voice_payload(&samples, &uuid);
    let (out_samples, out_uuid) = parse_voice_payload(&payload).expect("valid uuid");
    assert_eq!(out_samples, samples);
    assert_eq!(out_uuid, uuid);
}

#[test]
fn voice_payload_rejects_bad_uuid() {
    // The trailing 36 bytes must spell a UUID; 36 letters do not.
    let samples = vec![1u8, 2, 3];
    let not_uuid: Vec<u8> = vec![b'x'; 36];
    let payload = build_voice_payload(&samples, &not_uuid);
    assert!(parse_voice_payload(&payload).is_none());
    // Shorter than a UUID: dropped too.
    assert!(parse_voice_payload(&vec![1u8, 2, 3]).is_none());
}

#[test]
fn image_part_payload_roundtrip() {
    let bytes = vec![5u8; 100];
    let hash: Vec<u8> = vec![b'a'; 64];
    let uuid: Vec<u8> = UUID.as_bytes().to_vec();
    let ident: Vec<u8> = vec![b'f'; 64];
    let payload = build_image_part_payload(&bytes, &hash, &uuid, &ident);
    assert_eq!(payload.len(), 100 + 64 + 36 + 64);
    let msg = parse_image_part_payload(&payload).expect("valid layout");
    assert_eq!(msg.bytes, bytes);
    assert_eq!(msg.hash, hash);
    assert_eq!(msg.uuid, uuid);
    assert_eq!(msg.ident, ident);
}

#[test]
fn image_part_payload_rejects_short_or_bad() {
    assert!(parse_image_part_payload(&vec![0u8; 100]).is_none());
    let bytes = vec![5u8; 10];
    let hash: Vec<u8> = vec![b'a'; 64];
    let not_uuid: Vec<u8> = vec![b'y'; 36];
    let ident: Vec<u8> = vec![b'f'; 64];
    let payload = build_image_part_payload(&bytes, &hash, &not_uuid, &ident);
    assert!(parse_image_part_payload(&payload).is_none());
}

#[test]
fn chunking_splits_and_preserves() {
    let data = vec![1u8, 2, 3, 4, 5, 6, 7];
    let chunks = split_chunks(&data, 3);
    assert_eq!(chunks, vec![vec![1u8, 2, 3], vec![4u8, 5, 6], vec![7u8]]);
    let rebuilt: Vec<u8> = chunks.concat();
    assert_eq!(rebuilt, data);
}

#[test]
fn chunking_edge_cases() {
    assert_eq!(split_chunks(&Vec::new(), 4), Vec::<Vec<u8>>::new());
    // An exact multiple leaves no short chunk.
    let data = vec![9u8; 8];
    let chunks = split_chunks(&data, 4);
    assert_eq!(chunks.len(), 2);
    assert!(chunks.iter().all(|c| c.len() == 4));
    // The voice path cuts 35 ms buffers into chunks of at most
    // 30000 bytes.
    let buffer = vec![7u8; 65_000];
    let voice_chunks = split_chunks(&buffer, 30_000);
    assert_eq!(voice_chunks.len(), 3);
    assert_eq!(voice_chunks[0].len(), 30_000);
    assert_eq!(voice_chunks[2].len(), 5_000);
    assert_eq!(voice_chunks.concat(), buffer);
}

#[test]
fn dispatch_voice_datagram() {
    let samples = vec![1u8, 2, 3];
    let uuid: Vec<u8> = UUID.as_bytes().to_vec();
    let datagram = tag_payload(&build_voice_payload(&samples, &uuid), DatagramKind::Voice);
    match dispatch_datagram(&datagram) {
        DatagramAction::PlayVoice { samples: s, uuid: u } => {
            assert_eq!(s, samples);
            assert_eq!(u, uuid);
        }
        _ => panic!("expected a voice action"),
    }
}

#[test]
fn dispatch_image_part_datagram() {
    let bytes = vec![9u8; 20];
    let hash: Vec<u8> = vec![b'h'; 64];
    let uuid: Vec<u8> = UUID.as_bytes().to_vec();
    let ident: Vec<u8> = vec![b'i'; 64];
    let payload = build_image_part_payload(&bytes, &hash, &uuid, &ident);
    let datagram = tag_payload(&payload, DatagramKind::ImagePart);
    match dispatch_datagram(&datagram) {
        DatagramAction::Part(m) => {
            assert_eq!(m.bytes, bytes);
            assert_eq!(m.hash, hash);
            assert_eq!(m.uuid, uuid);
            assert_eq!(m.ident, ident);
        }
        _ => panic!("expected an image-part action"),
    }
}

#[test]
fn dispatch_header_and_drops() {
    let header_json = b"{}".to_vec();
    let datagram = tag_payload(&header_json, DatagramKind::ImageHeader);
    match dispatch_datagram(&datagram) {
        DatagramAction::Header { payload } => assert_eq!(payload, header_json),
        _ => panic!("expected a header action"),
    }
    // Unknown tag, malformed voice, malformed part: all dropped.
    assert!(matches!(
        dispatch_datagram(&vec![1, 2, 3, 0, 0, 0, 9]),
        DatagramAction::Drop
    ));
    let bad_voice = tag_payload(&vec![b'x'; 40], DatagramKind::Voice);
    assert!(matches!(dispatch_datagram(&bad_voice), DatagramAction::Drop));
    let bad_part = tag_payload(&vec![b'x'; 10], DatagramKind::ImagePart);
    assert!(matches!(dispatch_datagram(&bad_part), DatagramAction::Drop));
}

#[test]
fn wav_container_layout() {
    // Mono 16-bit PCM at 48 kHz over four sample bytes.
    let samples = vec![0xAAu8, 0xBB, 0xCC, 0xDD];
    let wav = build_wav_file(&samples, 1, 1, 48_000, 16);
    assert_eq!(wav.len(), 48);
    assert_eq!(&wav[0..4], b"RIFF");
    assert_eq!(&wav[4..8], &(40u32).to_le_bytes()); // 36 + data
    assert_eq!(&wav[8..12], b"WAVE");
    assert_eq!(&wav[12..16], b"fmt ");
    assert_eq!(&wav[16..20], &(16u32).to_le_bytes());
    assert_eq!(&wav[20..22], &(1u16).to_le_bytes()); // PCM
    assert_eq!(&wav[22..24], &(1u16).to_le_bytes()); // mono
    assert_eq!(&wav[24..28], &(48_000u32).to_le_bytes());
    assert_eq!(&wav[28..32], &(96_000u32).to_le_bytes()); // byte rate
    assert_eq!(&wav[32..34], &(2u16).to_le_bytes()); // block align
    assert_eq!(&wav[34..36], &(16u16).to_le_bytes());
    assert_eq!(&wav[36..40], b"data");
    assert_eq!(&wav[40..44], &(4u32).to_le_bytes());
    assert_eq!(&wav[44..], &samples[..]);
}

#[test]
fn wav_then_chunks_preserves_samples() {
    // The voice path: wrap the 35 ms buffer, then cut it into
    // datagram-sized chunks; the concatenation is the container.
    let samples: Vec<u8> = (0u8..=255).cycle().take(4000).collect();
    let wav = build_wav_file(&samples, 3, 2, 48_000, 32);
    assert_eq!(wav.len(), samples.len() + 44);
    let chunks = split_chunks(&wav, 3000);
    assert_eq!(chunks.concat(), wav);
    assert_eq!(&wav[44..], &samples[..]);
}
