//! Byte layouts of the datagram channel.  A decrypted datagram ends
//! in a four-byte big-endian message-kind tag; before the tag, a
//! voice payload carries the samples followed by the sender's 36-byte
//! UUID, and an image-part payload carries the part bytes followed by
//! a 64-byte part hash, the 36-byte sender UUID and a 64-byte frame
//! identificator.

use vstd::prelude::*;

use crate::endian::{lemma_u32_be_roundtrip, spec_u32_from_be_bytes, spec_u32_to_be_bytes,
    u32_from_be, u32_to_be_vec};

verus! {

/// The three message kinds the datagram channel carries.
#[derive(Clone, Copy, PartialEq, Eq, Debug, Structural)]
pub enum DatagramKind {
    Voice,
    ImageHeader,
    ImagePart,
}

/// The wire code of each kind; the numbering is part of the wire
/// contract and must stay stable.
pub open spec fn spec_kind_code(k: DatagramKind) -> u32 {
    match k {
        DatagramKind::Voice => 0,
        DatagramKind::ImageHeader => 1,
        DatagramKind::ImagePart => 2,
    }
}

pub fn kind_code(k: DatagramKind) -> (r: u32)
    ensures
        r == spec_kind_code(k),
{
    match k {
        DatagramKind::Voice => 0,
        DatagramKind::ImageHeader => 1,
        DatagramKind::ImagePart => 2,
    }
}

/// A payload with its kind tag appended.
pub open spec fn spec_tagged(payload: Seq<u8>, k: DatagramKind) -> Seq<u8> {
    payload + spec_u32_to_be_bytes(spec_kind_code(k))
}

/// Appends the kind tag to a payload, ready for encryption.
pub fn tag_payload(payload: &Vec<u8>, k: DatagramKind) -> (r: Vec<u8>)
    ensures
        r@ == spec_tagged(payload@, k),
{
    let mut r = copy_range(payload, 0, payload.len());
    let mut tag = u32_to_be_vec(kind_code(k));
    r.append(&mut tag);
    proof {
        assert(payload@.subrange(0, payload@.len() as int) =~= payload@);
    }
    r
}

/// What stripping the trailing tag yields: the untagged payload and
/// its kind, or nothing when the data is short or the code unknown.
pub open spec fn spec_untag(data: Seq<u8>) -> Option<(Seq<u8>, DatagramKind)> {
    if data.len() < 4 {
        None
    } else {
        let code = spec_u32_from_be_bytes(data.skip(data.len() - 4));
        if code == 0 {
            Some((data.take(data.len() - 4), DatagramKind::Voice))
        } else if code == 1 {
            Some((data.take(data.len() - 4), DatagramKind::ImageHeader))
        } else if code == 2 {
            Some((data.take(data.len() - 4), DatagramKind::ImagePart))
        } else {
            None
        }
    }
}

/// Splits a decrypted datagram into payload and kind; an unknown
/// code or a short datagram is a droppable per-frame error.
pub fn untag_payload(data: &Vec<u8>) -> (r: Option<(Vec<u8>, DatagramKind)>)
    ensures
        match r {
            Some(p) => spec_untag(data@) == Some((p.0@, p.1)),
            None => spec_untag(data@) is None,
        },
{
    if data.len() < 4 {
        return None;
    }
    let n = data.len();
    let code = u32_from_be(data[n - 4], data[n - 3], data[n - 2], data[n - 1]);
    proof {
        assert(seq![data@[n - 4], data@[n - 3], data@[n - 2], data@[n - 1]] =~= data@.skip(
            n - 4,
        ));
    }
    let kind = if code == 0 {
        DatagramKind::Voice
    } else if code == 1 {
        DatagramKind::ImageHeader
    } else if code == 2 {
        DatagramKind::ImagePart
    } else {
        return None;
    };
    let body = copy_range(data, 0, n - 4);
    Some((body, kind))
}

/// Tagging then untagging hands the payload and kind back.
pub proof fn lemma_tag_roundtrip(payload: Seq<u8>, k: DatagramKind)
    ensures
        spec_untag(spec_tagged(payload, k)) == Some((payload, k)),
{
    let data = spec_tagged(payload, k);
    assert(data.skip(data.len() - 4) =~= spec_u32_to_be_bytes(spec_kind_code(k)));
    lemma_u32_be_roundtrip(spec_kind_code(k));
    assert(data.take(data.len() - 4) =~= payload);
}

/// Whether a byte string spells a textual UUID.
pub uninterp spec fn uuid_bytes_valid(b: Seq<u8>) -> bool;

/// Relies on uuid::Uuid::try_parse_ascii: whether the bytes parse as
/// a UUID depends on the bytes alone.
#[verifier::external_body]
pub(crate) fn is_uuid_bytes(b: &Vec<u8>) -> (r: bool)
    ensures
        r == uuid_bytes_valid(b@),
{
    uuid::Uuid::try_parse_ascii(b.as_slice()).is_ok()
}

/// A voice payload: the recorded samples followed by the sender's
/// 36-byte UUID.
pub open spec fn spec_voice_payload(samples: Seq<u8>, uuid: Seq<u8>) -> Seq<u8>
    recommends
        uuid.len() == 36,
{
    samples + uuid
}

/// What a voice payload parses to: the samples and the sender UUID,
/// provided the trailing 36 bytes really spell a UUID.
pub open spec fn spec_parse_voice(p: Seq<u8>) -> Option<(Seq<u8>, Seq<u8>)> {
    if p.len() >= 36 && uuid_bytes_valid(p.skip(p.len() - 36)) {
        Some((p.take(p.len() - 36), p.skip(p.len() - 36)))
    } else {
        None
    }
}

pub fn build_voice_payload(samples: &Vec<u8>, uuid: &Vec<u8>) -> (r: Vec<u8>)
    requires
        uuid@.len() == 36,
    ensures
        r@ == spec_voice_payload(samples@, uuid@),
{
    let mut r = copy_range(samples, 0, samples.len());
    let mut tail = copy_range(uuid, 0, uuid.len());
    r.append(&mut tail);
    proof {
        assert(samples@.subrange(0, samples@.len() as int) =~= samples@);
        assert(uuid@.subrange(0, uuid@.len() as int) =~= uuid@);
    }
    r
}

/// Splits a voice payload into samples and sender UUID; payloads
/// whose tail is no UUID are dropped.
pub fn parse_voice_payload(p: &Vec<u8>) -> (r: Option<(Vec<u8>, Vec<u8>)>)
    ensures
        match r {
            Some(sv) => spec_parse_voice(p@) == Some((sv.0@, sv.1@)),
            None => spec_parse_voice(p@) is None,
        },
{
    if p.len() < 36 {
        return None;
    }
    let uuid = copy_range(p, p.len() - 36, p.len());
    proof {
        assert(p@.subrange(p@.len() - 36, p@.len() as int) =~= p@.skip(p@.len() - 36));
    }
    if !is_uuid_bytes(&uuid) {
        return None;
    }
    let samples = copy_range(p, 0, p.len() - 36);
    Some((samples, uuid))
}

/// One part of a fragmented image frame, as carried by an image-part
/// datagram.
pub struct ImagePartMsg {
    pub bytes: Vec<u8>,
    pub hash: Vec<u8>,
    pub uuid: Vec<u8>,
    pub ident: Vec<u8>,
}

/// An image-part payload: part bytes, then the 64-byte part hash,
/// the 36-byte sender UUID and the 64-byte frame identificator.
pub open spec fn spec_image_part_payload(
    bytes: Seq<u8>,
    hash: Seq<u8>,
    uuid: Seq<u8>,
    ident: Seq<u8>,
) -> Seq<u8>
    recommends
        hash.len() == 64,
        uuid.len() == 36,
        ident.len() == 64,
{
    bytes + hash + uuid + ident
}

/// What an image-part payload parses to, provided it is long enough
/// and its UUID field really spells a UUID.
pub open spec fn spec_parse_image_part(p: Seq<u8>) -> Option<(Seq<u8>, Seq<u8>, Seq<u8>, Seq<
    u8,
>)> {
    if p.len() >= 164 && uuid_bytes_valid(p.subrange(p.len() - 100, p.len() - 64)) {
        Some(
            (
                p.take(p.len() - 164),
                p.subrange(p.len() - 164, p.len() - 100),
                p.subrange(p.len() - 100, p.len() - 64),
                p.skip(p.len() - 64),
            ),
        )
    } else {
        None
    }
}

pub fn build_image_part_payload(
    bytes: &Vec<u8>,
    hash: &Vec<u8>,
    uuid: &Vec<u8>,
    ident: &Vec<u8>,
) -> (r: Vec<u8>)
    requires
        hash@.len() == 64,
        uuid@.len() == 36,
        ident@.len() == 64,
    ensures
        r@ == spec_image_part_payload(bytes@, hash@, uuid@, ident@),
{
    let mut r = copy_range(bytes, 0, bytes.len());
    let mut h = copy_range(hash, 0, hash.len());
    let mut u = copy_range(uuid, 0, uuid.len());
    let mut d = copy_range(ident, 0, ident.len());
    r.append(&mut h);
    r.append(&mut u);
    r.append(&mut d);
    proof {
        assert(bytes@.subrange(0, bytes@.len() as int) =~= bytes@);
        assert(hash@.subrange(0, hash@.len() as int) =~= hash@);
        assert(uuid@.subrange(0, uuid@.len() as int) =~= uuid@);
        assert(ident@.subrange(0, ident@.len() as int) =~= ident@);
    }
    r
}

/// Splits an image-part payload into its four fields; short payloads
/// and payloads whose UUID field is no UUID are dropped.
pub fn parse_image_part_payload(p: &Vec<u8>) -> (r: Option<ImagePartMsg>)
    ensures
        match r {
            Some(m) => spec_parse_image_part(p@) == Some((m.bytes@, m.hash@, m.uuid@, m.ident@)),
            None => spec_parse_image_part(p@) is None,
        },
{
    if p.len() < 164 {
        return None;
    }
    let n = p.len();
    let uuid = copy_range(p, n - 100, n - 64);
    if !is_uuid_bytes(&uuid) {
        return None;
    }
    let bytes = copy_range(p, 0, n - 164);
    let hash = copy_range(p, n - 164, n - 100);
    let ident = copy_range(p, n - 64, n);
    proof {
        assert(p@.subrange(0, p@.len() - 164) =~= p@.take(p@.len() - 164));
        assert(p@.subrange(p@.len() - 64, p@.len() as int) =~= p@.skip(p@.len() - 64));
    }
    Some(ImagePartMsg { bytes, hash, uuid, ident })
}

/// Building a voice payload and parsing it back restores samples and
/// sender, whenever the UUID field really spells a UUID.
pub proof fn lemma_voice_roundtrip(samples: Seq<u8>, uuid: Seq<u8>)
    requires
        uuid.len() == 36,
        uuid_bytes_valid(uuid),
    ensures
        spec_parse_voice(spec_voice_payload(samples, uuid)) == Some((samples, uuid)),
{
    let p = spec_voice_payload(samples, uuid);
    assert(p.skip(p.len() - 36) =~= uuid);
    assert(p.take(p.len() - 36) =~= samples);
}

/// Building an image-part payload and parsing it back restores all
/// four fields, whenever the UUID field really spells a UUID.
pub proof fn lemma_image_part_roundtrip(
    bytes: Seq<u8>,
    hash: Seq<u8>,
    uuid: Seq<u8>,
    ident: Seq<u8>,
)
    requires
        hash.len() == 64,
        uuid.len() == 36,
        ident.len() == 64,
        uuid_bytes_valid(uuid),
    ensures
        spec_parse_image_part(spec_image_part_payload(bytes, hash, uuid, ident)) == Some(
            (bytes, hash, uuid, ident),
        ),
{
    let p = spec_image_part_payload(bytes, hash, uuid, ident);
    assert(p.subrange(p.len() - 100, p.len() - 64) =~= uuid);
    assert(p.take(p.len() - 164) =~= bytes);
    assert(p.subrange(p.len() - 164, p.len() - 100) =~= hash);
    assert(p.skip(p.len() - 64) =~= ident);
}

/// What the datagram receiver should do with one decrypted
/// datagram.
pub enum DatagramAction {
    /// Append the samples to this sender's playback sink.
    PlayVoice { samples: Vec<u8>, uuid: Vec<u8> },
    /// Hand the header bytes to the header parser.
    Header { payload: Vec<u8> },
    /// Write the part into its frame's slot.
    Part(ImagePartMsg),
    /// A transient per-frame error: count it and go on.
    Drop,
}

/// The model of a receiver action.
#[verifier::ext_equal]
pub enum ActionModel {
    PlayVoice { samples: Seq<u8>, uuid: Seq<u8> },
    Header { payload: Seq<u8> },
    Part { bytes: Seq<u8>, hash: Seq<u8>, uuid: Seq<u8>, ident: Seq<u8> },
    Drop,
}

impl DeepView for DatagramAction {
    type V = ActionModel;

    open spec fn deep_view(&self) -> ActionModel {
        match self {
            DatagramAction::PlayVoice { samples, uuid } => ActionModel::PlayVoice {
                samples: samples@,
                uuid: uuid@,
            },
            DatagramAction::Header { payload } => ActionModel::Header { payload: payload@ },
            DatagramAction::Part(m) => ActionModel::Part {
                bytes: m.bytes@,
                hash: m.hash@,
                uuid: m.uuid@,
                ident: m.ident@,
            },
            DatagramAction::Drop => ActionModel::Drop,
        }
    }
}

/// How one decrypted datagram is dispatched: by its trailing kind
/// tag, then by the kind's own layout.  Anything malformed is
/// dropped, never fatal.
pub open spec fn spec_dispatch(data: Seq<u8>) -> ActionModel {
    match spec_untag(data) {
        None => ActionModel::Drop,
        Some((payload, kind)) => match kind {
            DatagramKind::Voice => match spec_parse_voice(payload) {
                Some((samples, uuid)) => ActionModel::PlayVoice { samples, uuid },
                None => ActionModel::Drop,
            },
            DatagramKind::ImageHeader => ActionModel::Header { payload },
            DatagramKind::ImagePart => match spec_parse_image_part(payload) {
                Some((bytes, hash, uuid, ident)) => ActionModel::Part {
                    bytes,
                    hash,
                    uuid,
                    ident,
                },
                None => ActionModel::Drop,
            },
        },
    }
}

/// Dispatches one decrypted datagram to its receiver action.
pub fn dispatch_datagram(data: &Vec<u8>) -> (r: DatagramAction)
    ensures
        r.deep_view() == spec_dispatch(data@),
{
    let (payload, kind) = match untag_payload(data) {
        Some(p) => p,
        None => {
            return DatagramAction::Drop;
        },
    };
    match kind {
        DatagramKind::Voice => match parse_voice_payload(&payload) {
            Some((samples, uuid)) => DatagramAction::PlayVoice { samples, uuid },
            None => DatagramAction::Drop,
        },
        DatagramKind::ImageHeader => DatagramAction::Header { payload },
        DatagramKind::ImagePart => match parse_image_part_payload(&payload) {
            Some(m) => DatagramAction::Part(m),
            None => DatagramAction::Drop,
        },
    }
}

/// A voice datagram built by a sender is dispatched back to its
/// samples and sender, whenever the UUID really spells a UUID.
pub proof fn lemma_voice_datagram_roundtrip(samples: Seq<u8>, uuid: Seq<u8>)
    requires
        uuid.len() == 36,
        uuid_bytes_valid(uuid),
    ensures
        spec_dispatch(spec_tagged(spec_voice_payload(samples, uuid), DatagramKind::Voice))
            == (ActionModel::PlayVoice { samples, uuid }),
{
    lemma_tag_roundtrip(spec_voice_payload(samples, uuid), DatagramKind::Voice);
    lemma_voice_roundtrip(samples, uuid);
}

/// An image-part datagram built by a sender is dispatched back to
/// its four fields, whenever the UUID really spells a UUID.
pub proof fn lemma_image_part_datagram_roundtrip(
    bytes: Seq<u8>,
    hash: Seq<u8>,
    uuid: Seq<u8>,
    ident: Seq<u8>,
)
    requires
        hash.len() == 64,
        uuid.len() == 36,
        ident.len() == 64,
        uuid_bytes_valid(uuid),
    ensures
        spec_dispatch(
            spec_tagged(
                spec_image_part_payload(bytes, hash, uuid, ident),
                DatagramKind::ImagePart,
            ),
        ) == (ActionModel::Part { bytes, hash, uuid, ident }),
{
    lemma_tag_roundtrip(
        spec_image_part_payload(bytes, hash, uuid, ident),
        DatagramKind::ImagePart,
    );
    lemma_image_part_roundtrip(bytes, hash, uuid, ident);
}

/// Copies the byte range `start..end` out of a vector.
fn copy_range(v: &Vec<u8>, start: usize, end: usize) -> (r: Vec<u8>)
    requires
        start <= end <= v@.len(),
    ensures
        r@ == v@.subrange(start as int, end as int),
{
    let mut r: Vec<u8> = Vec::new();
    let mut i: usize = start;
    while i < end
        invariant
            start <= i <= end <= v@.len(),
            r@ == v@.subrange(start as int, i as int),
        decreases end - i,
    {
        r.push(v[i]);
        i += 1;
        proof {
            assert(r@ =~= v@.subrange(start as int, i as int));
        }
    }
    r
}

} // verus!
