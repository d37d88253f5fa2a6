//! Reassembly of fragmented image frames.  Each sender's frames are
//! held in an insertion-ordered table keyed by frame identificator;
//! a header names the expected part hashes in order, parts fill the
//! matching slots as they arrive in any order, and a completed frame
//! is the concatenation of its parts in header order.  Completing a
//! frame drains it and every older frame of the same sender.

use vstd::prelude::*;

use crate::chunks::spec_concat;
use crate::message::{lemma_spec_find, spec_find};
use crate::server::lemma_spec_find_agrees;

verus! {

/// One expected frame: the hashes its header listed, and the slots
/// the parts fill.
pub struct HeaderRec {
    pub ident: Vec<u8>,
    pub hashes: Vec<Vec<u8>>,
    pub slots: Vec<Option<Vec<u8>>>,
}

/// The model of one expected frame.
#[verifier::ext_equal]
pub struct HeaderModel {
    pub ident: Seq<u8>,
    pub hashes: Seq<Seq<u8>>,
    pub slots: Seq<Option<Seq<u8>>>,
}

/// One sender's insertion-ordered frame table.
pub struct SenderBuf {
    pub uuid: Vec<u8>,
    pub headers: Vec<HeaderRec>,
}

/// The model of one sender's frame table.
#[verifier::ext_equal]
pub struct SenderModel {
    pub uuid: Seq<u8>,
    pub headers: Seq<HeaderModel>,
}

/// The reassembly buffer: one frame table per sender.
pub struct Reassembly {
    pub senders: Vec<SenderBuf>,
}

/// The model of the reassembly buffer.
#[verifier::ext_equal]
pub struct ReassemblyModel {
    pub senders: Seq<SenderModel>,
}

impl DeepView for HeaderRec {
    type V = HeaderModel;

    open spec fn deep_view(&self) -> HeaderModel {
        HeaderModel {
            ident: self.ident@,
            hashes: self.hashes.deep_view(),
            slots: self.slots.deep_view(),
        }
    }
}

impl DeepView for SenderBuf {
    type V = SenderModel;

    open spec fn deep_view(&self) -> SenderModel {
        SenderModel { uuid: self.uuid@, headers: self.headers.deep_view() }
    }
}

impl DeepView for Reassembly {
    type V = ReassemblyModel;

    open spec fn deep_view(&self) -> ReassemblyModel {
        ReassemblyModel { senders: self.senders.deep_view() }
    }
}

/// The predicate "this sender's table".
pub open spec fn sender_uuid_is(u: Seq<u8>) -> spec_fn(SenderModel) -> bool {
    |s: SenderModel| s.uuid == u
}

/// The predicate "this frame's header".
pub open spec fn header_ident_is(d: Seq<u8>) -> spec_fn(HeaderModel) -> bool {
    |h: HeaderModel| h.ident == d
}

/// The predicate "this part's hash".
pub open spec fn hash_is(x: Seq<u8>) -> spec_fn(Seq<u8>) -> bool {
    |h: Seq<u8>| h == x
}

/// A header holds one slot per expected hash.
pub open spec fn header_wf(h: HeaderModel) -> bool {
    h.slots.len() == h.hashes.len()
}

/// A sender's table is well formed: parallel slots, and distinct
/// frame identificators.
pub open spec fn sender_wf(s: SenderModel) -> bool {
    &&& forall|i: int| 0 <= i < s.headers.len() ==> header_wf(#[trigger] s.headers[i])
    &&& forall|i: int, j: int|
        0 <= i < j < s.headers.len() ==> (#[trigger] s.headers[i]).ident != (
        #[trigger] s.headers[j]).ident
}

/// The whole buffer is well formed: well-formed tables under
/// distinct sender UUIDs.
pub open spec fn reass_wf(m: ReassemblyModel) -> bool {
    &&& forall|i: int| 0 <= i < m.senders.len() ==> sender_wf(#[trigger] m.senders[i])
    &&& forall|i: int, j: int|
        0 <= i < j < m.senders.len() ==> (#[trigger] m.senders[i]).uuid != (
        #[trigger] m.senders[j]).uuid
}

/// A fresh, empty header for an announced frame.
pub open spec fn spec_fresh_header(ident: Seq<u8>, hashes: Seq<Seq<u8>>) -> HeaderModel {
    HeaderModel { ident, hashes, slots: Seq::new(hashes.len(), |i: int| None) }
}

/// What announcing a frame does: a new sender's table opens with
/// the one header; a known sender gains the header, or restarts the
/// frame when the identificator is already present.
pub open spec fn spec_insert_header(
    m: ReassemblyModel,
    uuid: Seq<u8>,
    ident: Seq<u8>,
    hashes: Seq<Seq<u8>>,
) -> ReassemblyModel {
    let h = spec_fresh_header(ident, hashes);
    match spec_find(m.senders, sender_uuid_is(uuid)) {
        None => ReassemblyModel {
            senders: m.senders.push(SenderModel { uuid, headers: seq![h] }),
        },
        Some(si) => {
            let s = m.senders[si];
            let headers2 = match spec_find(s.headers, header_ident_is(ident)) {
                Some(hi) => s.headers.update(hi, h),
                None => s.headers.push(h),
            };
            ReassemblyModel {
                senders: m.senders.update(si, SenderModel { headers: headers2, ..s }),
            }
        },
    }
}

/// What arrived of one part insertion.
pub enum InsertOutcome {
    /// No table for this sender; the part is dropped.
    UnknownSender,
    /// The sender has no header for this frame; dropped.
    UnknownFrame,
    /// The header lists no such hash; dropped.
    UnknownHash,
    /// The part filled its slot; the frame is still incomplete.
    Stored,
    /// The part filled the last slot: the frame's bytes, parts
    /// concatenated in header order.
    Completed(Vec<u8>),
}

/// The model of an insertion outcome.
#[verifier::ext_equal]
pub enum OutcomeModel {
    UnknownSender,
    UnknownFrame,
    UnknownHash,
    Stored,
    Completed(Seq<u8>),
}

impl DeepView for InsertOutcome {
    type V = OutcomeModel;

    open spec fn deep_view(&self) -> OutcomeModel {
        match self {
            InsertOutcome::UnknownSender => OutcomeModel::UnknownSender,
            InsertOutcome::UnknownFrame => OutcomeModel::UnknownFrame,
            InsertOutcome::UnknownHash => OutcomeModel::UnknownHash,
            InsertOutcome::Stored => OutcomeModel::Stored,
            InsertOutcome::Completed(b) => OutcomeModel::Completed(b@),
        }
    }
}

/// Whether every slot of a frame is filled.
pub open spec fn all_filled(slots: Seq<Option<Seq<u8>>>) -> bool {
    forall|i: int| 0 <= i < slots.len() ==> (#[trigger] slots[i]) is Some
}

/// The filled slots' bytes, in header order.
pub open spec fn filled_of(slots: Seq<Option<Seq<u8>>>) -> Seq<Seq<u8>> {
    Seq::new(
        slots.len(),
        |i: int|
            match slots[i] {
                Some(b) => b,
                None => Seq::empty(),
            },
    )
}

/// What one part does to the buffer: it fills the slot whose hash
/// matches; filling the last slot completes the frame, hands back
/// the concatenation of the parts in header order, and drains the
/// completed frame together with every older frame of that sender.
pub open spec fn spec_insert_part(
    m: ReassemblyModel,
    uuid: Seq<u8>,
    ident: Seq<u8>,
    hash: Seq<u8>,
    bytes: Seq<u8>,
) -> (ReassemblyModel, OutcomeModel) {
    match spec_find(m.senders, sender_uuid_is(uuid)) {
        None => (m, OutcomeModel::UnknownSender),
        Some(si) => {
            let s = m.senders[si];
            match spec_find(s.headers, header_ident_is(ident)) {
                None => (m, OutcomeModel::UnknownFrame),
                Some(hi) => {
                    let h = s.headers[hi];
                    match spec_find(h.hashes, hash_is(hash)) {
                        None => (m, OutcomeModel::UnknownHash),
                        Some(k) => {
                            let h2 = HeaderModel { slots: h.slots.update(k, Some(bytes)), ..h };
                            if all_filled(h2.slots) {
                                let img = spec_concat(filled_of(h2.slots));
                                let s2 = SenderModel {
                                    headers: s.headers.skip(hi + 1),
                                    ..s
                                };
                                (
                                    ReassemblyModel { senders: m.senders.update(si, s2) },
                                    OutcomeModel::Completed(img),
                                )
                            } else {
                                let s2 = SenderModel { headers: s.headers.update(hi, h2), ..s };
                                (
                                    ReassemblyModel { senders: m.senders.update(si, s2) },
                                    OutcomeModel::Stored,
                                )
                            }
                        },
                    }
                },
            }
        },
    }
}

// ---------------------------------------------------------------
// Laws
// ---------------------------------------------------------------
/// A frame whose slots hold exactly the parts `parts` completes to
/// their concatenation in header order: what the sender split is
/// what the receiver rebuilds.
pub proof fn lemma_filled_concat(slots: Seq<Option<Seq<u8>>>, parts: Seq<Seq<u8>>)
    requires
        slots.len() == parts.len(),
        forall|i: int| 0 <= i < slots.len() ==> #[trigger] slots[i] == Some(parts[i]),
    ensures
        spec_concat(filled_of(slots)) == spec_concat(parts),
{
    assert(filled_of(slots) =~= parts);
}

/// What the sender split is what the receiver rebuilds: when the
/// slots hold exactly the parts some payload was split into, the
/// completed frame is that payload, byte for byte.
pub proof fn lemma_frame_rebuild(
    slots: Seq<Option<Seq<u8>>>,
    parts: Seq<Seq<u8>>,
    payload: Seq<u8>,
)
    requires
        slots.len() == parts.len(),
        forall|i: int| 0 <= i < slots.len() ==> #[trigger] slots[i] == Some(parts[i]),
        spec_concat(parts) == payload,
    ensures
        spec_concat(filled_of(slots)) == payload,
{
    lemma_filled_concat(slots, parts);
}

/// Slots filled in any order end the same: filling two different
/// slots commutes.
pub proof fn lemma_fill_commutes(
    slots: Seq<Option<Seq<u8>>>,
    i: int,
    j: int,
    bi: Seq<u8>,
    bj: Seq<u8>,
)
    requires
        0 <= i < slots.len(),
        0 <= j < slots.len(),
        i != j,
    ensures
        slots.update(i, Some(bi)).update(j, Some(bj)) == slots.update(j, Some(bj)).update(
            i,
            Some(bi),
        ),
{
    assert(slots.update(i, Some(bi)).update(j, Some(bj)) =~= slots.update(j, Some(bj)).update(
        i,
        Some(bi),
    ));
}

/// A sequence of slot fills, applied in order: each fill names the
/// slot it writes and the bytes it brings.
pub open spec fn fill_all(slots: Seq<Option<Seq<u8>>>, fills: Seq<(int, Seq<u8>)>) -> Seq<
    Option<Seq<u8>>,
>
    decreases fills.len(),
{
    if fills.len() == 0 {
        slots
    } else {
        fill_all(slots.update(fills[0].0, Some(fills[0].1)), fills.skip(1))
    }
}

/// Delivery order does not matter.  If every fill writes its slot's
/// own part, and every slot is either filled already or written by
/// some fill — in whatever order the network delivered them — then
/// the slots end holding exactly the parts.
pub proof fn lemma_fill_all(
    slots: Seq<Option<Seq<u8>>>,
    fills: Seq<(int, Seq<u8>)>,
    parts: Seq<Seq<u8>>,
)
    requires
        slots.len() == parts.len(),
        forall|j: int|
            0 <= j < fills.len() ==> 0 <= (#[trigger] fills[j]).0 < parts.len() && fills[j].1
                == parts[fills[j].0],
        forall|i: int|
            0 <= i < parts.len() ==> (#[trigger] slots[i]) == Some(parts[i]) || exists|j: int|
                0 <= j < fills.len() && (#[trigger] fills[j]).0 == i,
    ensures
        forall|i: int|
            0 <= i < parts.len() ==> #[trigger] fill_all(slots, fills)[i] == Some(parts[i]),
    decreases fills.len(),
{
    if fills.len() == 0 {
        assert forall|i: int| 0 <= i < parts.len() implies #[trigger] fill_all(slots, fills)[i]
            == Some(parts[i]) by {
            assert(slots[i] == Some(parts[i]));
        }
    } else {
        let f0 = fills[0];
        let slots2 = slots.update(f0.0, Some(f0.1));
        let rest = fills.skip(1);
        assert forall|i: int|
            0 <= i < parts.len() implies (#[trigger] slots2[i]) == Some(parts[i]) || exists|j: int|
            0 <= j < rest.len() && (#[trigger] rest[j]).0 == i by {
            if i != f0.0 && slots[i] != Some(parts[i]) {
                let j = choose|j: int| 0 <= j < fills.len() && (#[trigger] fills[j]).0 == i;
                assert(j >= 1);
                assert(rest[j - 1].0 == i);
            }
        }
        lemma_fill_all(slots2, rest, parts);
    }
}

/// Under distinct hashes, a part's hash names exactly its own slot.
pub proof fn lemma_find_hash_distinct(hashes: Seq<Seq<u8>>, k: int)
    requires
        0 <= k < hashes.len(),
        forall|i: int, j: int| 0 <= i < j < hashes.len() ==> hashes[i] != hashes[j],
    ensures
        spec_find(hashes, hash_is(hashes[k])) == Some(k),
{
    crate::server::lemma_spec_find_agrees(hashes, hash_is(hashes[k]), k);
}

/// The drain discards for good: after a completion at position
/// `hi`, no frame that stood at or before `hi` is still present —
/// its identificator is gone from the sender's table.
pub proof fn lemma_drain_removes(headers: Seq<HeaderModel>, hi: int)
    requires
        0 <= hi < headers.len(),
        forall|i: int, j: int|
            0 <= i < j < headers.len() ==> (#[trigger] headers[i]).ident != (
            #[trigger] headers[j]).ident,
    ensures
        forall|p: int, q: int|
            #![trigger headers.skip(hi + 1)[q], headers[p]]
            0 <= p <= hi && 0 <= q < headers.skip(hi + 1).len() ==> headers.skip(hi + 1)[q].ident
                != headers[p].ident,
{
    assert forall|p: int, q: int|
        #![trigger headers.skip(hi + 1)[q], headers[p]]
        0 <= p <= hi && 0 <= q < headers.skip(hi + 1).len() implies headers.skip(hi + 1)[q].ident
        != headers[p].ident by {
        assert(headers.skip(hi + 1)[q] == headers[hi + 1 + q]);
    }
}

// ---------------------------------------------------------------
// Executable buffer
// ---------------------------------------------------------------
/// Compares two byte strings.
fn bytes_eq(a: &Vec<u8>, b: &Vec<u8>) -> (r: bool)
    ensures
        r == (a@ == b@),
{
    if a.len() != b.len() {
        return false;
    }
    let mut i: usize = 0;
    while i < a.len()
        invariant
            i <= a@.len(),
            a@.len() == b@.len(),
            forall|j: int| 0 <= j < i ==> a@[j] == b@[j],
        decreases a@.len() - i,
    {
        if a[i] != b[i] {
            return false;
        }
        i += 1;
    }
    proof {
        assert(a@ =~= b@);
    }
    true
}

/// Copies a byte string.
fn clone_bytes(v: &Vec<u8>) -> (r: Vec<u8>)
    ensures
        r@ == v@,
{
    let r = v.clone();
    proof {
        assert(r@ =~= v@);
    }
    r
}

impl Reassembly {
    /// An empty buffer: no senders yet.
    pub fn new() -> (r: Reassembly)
        ensures
            r.deep_view() == (ReassemblyModel { senders: Seq::empty() }),
            reass_wf(r.deep_view()),
    {
        let r = Reassembly { senders: Vec::new() };
        proof {
            assert(r.senders.deep_view() =~= Seq::<SenderModel>::empty());
        }
        r
    }

    /// Announces a frame: records its header under the sender,
    /// restarting the frame if the identificator is already known.
    #[verifier::loop_isolation(false)]
    pub fn insert_header(&mut self, uuid: Vec<u8>, ident: Vec<u8>, hashes: Vec<Vec<u8>>)
        requires
            reass_wf(old(self).deep_view()),
        ensures
            final(self).deep_view() == spec_insert_header(
                old(self).deep_view(),
                uuid@,
                ident@,
                hashes.deep_view(),
            ),
            reass_wf(final(self).deep_view()),
    {
        let ghost m = old(self).deep_view();
        let ghost idv = ident@;
        let ghost hv = hashes.deep_view();
        let ghost ps = sender_uuid_is(uuid@);
        let mut slots: Vec<Option<Vec<u8>>> = Vec::new();
        let mut i: usize = 0;
        while i < hashes.len()
            invariant
                i <= hashes@.len(),
                slots.deep_view().len() == i,
                forall|j: int| 0 <= j < i ==> (#[trigger] slots.deep_view()[j]) is None,
            decreases hashes@.len() - i,
        {
            let ghost sd = slots.deep_view();
            slots.push(None);
            i += 1;
            proof {
                assert forall|j: int| 0 <= j < i implies (#[trigger] slots.deep_view()[j])
                    is None by {
                    if j < i - 1 {
                        assert(slots.deep_view()[j] == sd[j]);
                    } else {
                        assert(slots@[j] == None::<Vec<u8>>);
                    }
                }
            }
        }
        let rec = HeaderRec { ident, hashes, slots };
        let ghost hm = rec.deep_view();
        proof {
            assert(hm =~~= spec_fresh_header(idv, hv));
        }
        let mut k: usize = 0;
        let mut found = false;
        while k < self.senders.len()
            invariant
                *self == *old(self),
                k <= self.senders@.len(),
                !found,
                forall|j: int| 0 <= j < k ==> !ps(#[trigger] m.senders[j]),
            decreases self.senders@.len() - k,
        {
            if bytes_eq(&self.senders[k].uuid, &uuid) {
                proof {
                    assert(ps(m.senders[k as int]));
                }
                found = true;
                break ;
            }
            k += 1;
        }
        if !found {
            proof {
                lemma_spec_find(m.senders, ps);
                assert(spec_find(m.senders, ps) is None);
            }
            let mut headers: Vec<HeaderRec> = Vec::new();
            headers.push(rec);
            let ghost hd = headers.deep_view();
            self.senders.push(SenderBuf { uuid, headers });
            proof {
                assert(hd =~= seq![hm]);
                assert(self.deep_view() =~~= spec_insert_header(m, uuid@, idv, hv));
                let s2 = self.deep_view().senders;
                assert forall|i2: int, j2: int|
                    0 <= i2 < j2 < s2.len() implies (#[trigger] s2[i2]).uuid != (
                #[trigger] s2[j2]).uuid by {
                    if j2 == m.senders.len() {
                        assert(!ps(m.senders[i2]));
                    }
                }
                assert forall|i2: int| 0 <= i2 < s2.len() implies sender_wf(
                    #[trigger] s2[i2],
                ) by {
                    if i2 < m.senders.len() {
                        assert(s2[i2] == m.senders[i2]);
                    } else {
                        assert(s2[i2].headers =~= seq![hm]);
                    }
                }
            }
            return ;
        }
        proof {
            lemma_spec_find_agrees(m.senders, ps, k as int);
        }
        let ghost s = m.senders[k as int];
        let ghost ph = header_ident_is(idv);
        let mut sb = self.senders.remove(k);
        proof {
            assert(sb.deep_view() == s);
        }
        let mut h: usize = 0;
        let mut hfound = false;
        while h < sb.headers.len()
            invariant
                sb.deep_view() == s,
                h <= sb.headers@.len(),
                !hfound,
                forall|j: int| 0 <= j < h ==> !ph(#[trigger] s.headers[j]),
            decreases sb.headers@.len() - h,
        {
            if bytes_eq(&sb.headers[h].ident, &rec.ident) {
                proof {
                    assert(ph(s.headers[h as int]));
                }
                hfound = true;
                break ;
            }
            h += 1;
        }
        if hfound {
            proof {
                lemma_spec_find_agrees(s.headers, ph, h as int);
            }
            sb.headers[h] = rec;
            proof {
                assert(sb.headers.deep_view() =~~= s.headers.update(h as int, hm));
            }
        } else {
            proof {
                lemma_spec_find(s.headers, ph);
                assert(spec_find(s.headers, ph) is None);
            }
            sb.headers.push(rec);
            proof {
                assert(sb.headers.deep_view() =~~= s.headers.push(hm));
            }
        }
        let ghost headers2 = sb.headers.deep_view();
        self.senders.insert(k, sb);
        proof {
            assert(self.senders.deep_view() =~~= m.senders.update(
                k as int,
                SenderModel { headers: headers2, ..s },
            ));
            assert(self.deep_view() =~~= spec_insert_header(m, uuid@, idv, hv));
            let s2 = self.deep_view().senders;
            assert forall|i2: int, j2: int|
                0 <= i2 < j2 < s2.len() implies (#[trigger] s2[i2]).uuid != (
            #[trigger] s2[j2]).uuid by {
                assert(s2[i2].uuid == m.senders[i2].uuid);
                assert(s2[j2].uuid == m.senders[j2].uuid);
            }
            assert forall|i2: int| 0 <= i2 < s2.len() implies sender_wf(#[trigger] s2[i2]) by {
                if i2 != k as int {
                    assert(s2[i2] == m.senders[i2]);
                } else {
                    let h2s = s2[i2].headers;
                    if hfound {
                        assert forall|x: int, y: int|
                            0 <= x < y < h2s.len() implies (#[trigger] h2s[x]).ident != (
                        #[trigger] h2s[y]).ident by {
                            if x != h as int && y != h as int {
                                assert(h2s[x] == s.headers[x] && h2s[y] == s.headers[y]);
                            } else if x == h as int {
                                assert(h2s[y] == s.headers[y]);
                                assert(!ph(s.headers[y]) || y == h as int);
                            } else {
                                assert(h2s[x] == s.headers[x]);
                                assert(!ph(s.headers[x]));
                            }
                        }
                        assert forall|x: int| 0 <= x < h2s.len() implies header_wf(
                            #[trigger] h2s[x],
                        ) by {
                            if x != h as int {
                                assert(h2s[x] == s.headers[x]);
                            }
                        }
                    } else {
                        assert forall|x: int, y: int|
                            0 <= x < y < h2s.len() implies (#[trigger] h2s[x]).ident != (
                        #[trigger] h2s[y]).ident by {
                            if y == s.headers.len() {
                                assert(!ph(s.headers[x]));
                            } else {
                                assert(h2s[x] == s.headers[x] && h2s[y] == s.headers[y]);
                            }
                        }
                        assert forall|x: int| 0 <= x < h2s.len() implies header_wf(
                            #[trigger] h2s[x],
                        ) by {
                            if x < s.headers.len() {
                                assert(h2s[x] == s.headers[x]);
                            }
                        }
                    }
                }
            }
        }
    }

    /// Takes one arriving part.  It fills the slot of its hash in
    /// the frame it names; the part that fills the last slot
    /// completes the frame and drains it and all older frames of
    /// that sender.  Parts for unknown senders, frames or hashes
    /// are dropped.
    #[verifier::loop_isolation(false)]
    pub fn insert_part(
        &mut self,
        uuid: &Vec<u8>,
        ident: &Vec<u8>,
        hash: &Vec<u8>,
        bytes: Vec<u8>,
    ) -> (r: InsertOutcome)
        requires
            reass_wf(old(self).deep_view()),
        ensures
            final(self).deep_view() == spec_insert_part(
                old(self).deep_view(),
                uuid@,
                ident@,
                hash@,
                bytes@,
            ).0,
            r.deep_view() == spec_insert_part(old(self).deep_view(), uuid@, ident@, hash@, bytes@).1,
            reass_wf(final(self).deep_view()),
    {
        let ghost m = old(self).deep_view();
        let ghost ps = sender_uuid_is(uuid@);
        let mut si: usize = 0;
        let mut sfound = false;
        while si < self.senders.len()
            invariant
                *self == *old(self),
                si <= self.senders@.len(),
                !sfound,
                forall|j: int| 0 <= j < si ==> !ps(#[trigger] m.senders[j]),
            decreases self.senders@.len() - si,
        {
            if bytes_eq(&self.senders[si].uuid, uuid) {
                proof {
                    assert(ps(m.senders[si as int]));
                }
                sfound = true;
                break ;
            }
            si += 1;
        }
        if !sfound {
            proof {
                lemma_spec_find(m.senders, ps);
                assert(spec_find(m.senders, ps) is None);
            }
            return InsertOutcome::UnknownSender;
        }
        proof {
            lemma_spec_find_agrees(m.senders, ps, si as int);
        }
        let ghost s = m.senders[si as int];
        let ghost ph = header_ident_is(ident@);
        let mut sb = self.senders.remove(si);
        proof {
            assert(sb.deep_view() == s);
        }
        let mut hi: usize = 0;
        let mut hfound = false;
        while hi < sb.headers.len()
            invariant
                sb.deep_view() == s,
                hi <= sb.headers@.len(),
                !hfound,
                forall|j: int| 0 <= j < hi ==> !ph(#[trigger] s.headers[j]),
            decreases sb.headers@.len() - hi,
        {
            if bytes_eq(&sb.headers[hi].ident, ident) {
                proof {
                    assert(ph(s.headers[hi as int]));
                }
                hfound = true;
                break ;
            }
            hi += 1;
        }
        if !hfound {
            proof {
                lemma_spec_find(s.headers, ph);
                assert(spec_find(s.headers, ph) is None);
            }
            self.senders.insert(si, sb);
            proof {
                assert(self.senders@ =~= old(self).senders@);
                assert(self.deep_view() =~~= m);
            }
            return InsertOutcome::UnknownFrame;
        }
        proof {
            lemma_spec_find_agrees(s.headers, ph, hi as int);
        }
        let ghost h = s.headers[hi as int];
        let ghost pk = hash_is(hash@);
        let mut hr = sb.headers.remove(hi);
        proof {
            assert(hr.deep_view() == h);
        }
        let mut k: usize = 0;
        let mut kfound = false;
        while k < hr.hashes.len()
            invariant
                hr.deep_view() == h,
                k <= hr.hashes@.len(),
                !kfound,
                forall|j: int| 0 <= j < k ==> !pk(#[trigger] h.hashes[j]),
            decreases hr.hashes@.len() - k,
        {
            let hk = bytes_eq(&hr.hashes[k], hash);
            proof {
                assert(h.hashes[k as int] =~= hr.hashes@[k as int]@);
            }
            if hk {
                proof {
                    assert(pk(h.hashes[k as int]));
                }
                kfound = true;
                break ;
            }
            k += 1;
        }
        if !kfound {
            proof {
                lemma_spec_find(h.hashes, pk);
                assert(spec_find(h.hashes, pk) is None);
            }
            sb.headers.insert(hi, hr);
            self.senders.insert(si, sb);
            proof {
                assert(self.senders.deep_view() =~~= m.senders.update(si as int, s));
                assert(m.senders.update(si as int, s) =~= m.senders);
                assert(self.deep_view() =~~= m);
            }
            return InsertOutcome::UnknownHash;
        }
        proof {
            lemma_spec_find_agrees(h.hashes, pk, k as int);
        }
        hr.slots[k] = Some(bytes);
        let ghost h2 = HeaderModel { slots: h.slots.update(k as int, Some(bytes@)), ..h };
        proof {
            assert(hr.deep_view() =~~= h2);
        }
        let mut allf = true;
        let mut j: usize = 0;
        while j < hr.slots.len()
            invariant
                hr.deep_view() == h2,
                j <= hr.slots@.len(),
                allf,
                forall|x: int| 0 <= x < j ==> (#[trigger] h2.slots[x]) is Some,
            decreases hr.slots@.len() - j,
        {
            if hr.slots[j].is_none() {
                proof {
                    assert(!((h2.slots[j as int]) is Some));
                }
                allf = false;
                break ;
            }
            j += 1;
        }
        if allf {
            proof {
                assert(all_filled(h2.slots));
            }
            let mut img: Vec<u8> = Vec::new();
            let mut t: usize = 0;
            proof {
                assert(filled_of(h2.slots).take(0) =~= Seq::<Seq<u8>>::empty());
                assert(img@ =~= spec_concat(filled_of(h2.slots).take(0)));
            }
            while t < hr.slots.len()
                invariant
                    hr.deep_view() == h2,
                    all_filled(h2.slots),
                    t <= hr.slots@.len(),
                    img@ == spec_concat(filled_of(h2.slots).take(t as int)),
                decreases hr.slots@.len() - t,
            {
                let ghost prefix = filled_of(h2.slots).take(t as int);
                match &hr.slots[t] {
                    Some(b) => {
                        let mut x: usize = 0;
                        while x < b.len()
                            invariant
                                x <= b@.len(),
                                img@ == spec_concat(prefix) + b@.take(x as int),
                            decreases b@.len() - x,
                        {
                            img.push(b[x]);
                            x += 1;
                            proof {
                                assert(img@ =~= spec_concat(prefix) + b@.take(x as int));
                            }
                        }
                        proof {
                            assert(b@.take(b@.len() as int) =~= b@);
                            assert(b@ == filled_of(h2.slots)[t as int]);
                        }
                    },
                    None => {
                        proof {
                            assert(false);
                        }
                    },
                }
                t += 1;
                proof {
                    let f = filled_of(h2.slots);
                    assert(f.take(t as int) =~= f.take(t - 1).push(f[t - 1]));
                    crate::chunks::lemma_concat_push(f.take(t - 1), f[t - 1]);
                }
            }
            proof {
                assert(filled_of(h2.slots).take(hr.slots@.len() as int) =~= filled_of(h2.slots));
            }
            let tail = sb.headers.split_off(hi);
            sb.headers = tail;
            proof {
                assert(sb.headers.deep_view() =~~= s.headers.skip(hi + 1));
            }
            let ghost headers2 = sb.headers.deep_view();
            self.senders.insert(si, sb);
            proof {
                assert(self.senders.deep_view() =~~= m.senders.update(
                    si as int,
                    SenderModel { headers: s.headers.skip(hi + 1), ..s },
                ));
                assert(self.deep_view() =~~= spec_insert_part(m, uuid@, ident@, hash@, bytes@).0);
                lemma_insert_part_wf_drain(m, si as int, hi as int);
            }
            return InsertOutcome::Completed(img);
        }
        let ghost nf = j;
        sb.headers.insert(hi, hr);
        self.senders.insert(si, sb);
        proof {
            assert(!(h2.slots[nf as int] is Some));
            assert(!all_filled(h2.slots));
            assert(sb.headers.deep_view() =~~= s.headers.update(hi as int, h2));
            assert(self.senders.deep_view() =~~= m.senders.update(
                si as int,
                SenderModel { headers: s.headers.update(hi as int, h2), ..s },
            ));
            assert(self.deep_view() =~~= spec_insert_part(m, uuid@, ident@, hash@, bytes@).0);
            lemma_insert_part_wf_update(m, si as int, hi as int, h2);
        }
        InsertOutcome::Stored
    }
}

/// Updating one header of one sender, with unchanged identificator
/// and slot count, keeps the buffer well formed.
proof fn lemma_insert_part_wf_update(m: ReassemblyModel, si: int, hi: int, h2: HeaderModel)
    requires
        reass_wf(m),
        0 <= si < m.senders.len(),
        0 <= hi < m.senders[si].headers.len(),
        h2.ident == m.senders[si].headers[hi].ident,
        h2.slots.len() == m.senders[si].headers[hi].slots.len(),
        h2.hashes == m.senders[si].headers[hi].hashes,
    ensures
        reass_wf(
            ReassemblyModel {
                senders: m.senders.update(
                    si,
                    SenderModel {
                        headers: m.senders[si].headers.update(hi, h2),
                        ..m.senders[si]
                    },
                ),
            },
        ),
{
    let s = m.senders[si];
    let m2 = ReassemblyModel {
        senders: m.senders.update(si, SenderModel { headers: s.headers.update(hi, h2), ..s }),
    };
    assert forall|i2: int, j2: int|
        0 <= i2 < j2 < m2.senders.len() implies (#[trigger] m2.senders[i2]).uuid != (
    #[trigger] m2.senders[j2]).uuid by {
        assert(m2.senders[i2].uuid == m.senders[i2].uuid);
        assert(m2.senders[j2].uuid == m.senders[j2].uuid);
    }
    assert forall|i2: int| 0 <= i2 < m2.senders.len() implies sender_wf(
        #[trigger] m2.senders[i2],
    ) by {
        if i2 != si {
            assert(m2.senders[i2] == m.senders[i2]);
        } else {
            let hs = m2.senders[i2].headers;
            assert forall|x: int, y: int|
                0 <= x < y < hs.len() implies (#[trigger] hs[x]).ident != (
            #[trigger] hs[y]).ident by {
                assert(hs[x].ident == s.headers[x].ident);
                assert(hs[y].ident == s.headers[y].ident);
            }
            assert forall|x: int| 0 <= x < hs.len() implies header_wf(#[trigger] hs[x]) by {
                if x != hi {
                    assert(hs[x] == s.headers[x]);
                }
            }
        }
    }
}

/// Draining a prefix of one sender's headers keeps the buffer well
/// formed.
proof fn lemma_insert_part_wf_drain(m: ReassemblyModel, si: int, hi: int)
    requires
        reass_wf(m),
        0 <= si < m.senders.len(),
        0 <= hi < m.senders[si].headers.len(),
    ensures
        reass_wf(
            ReassemblyModel {
                senders: m.senders.update(
                    si,
                    SenderModel {
                        headers: m.senders[si].headers.skip(hi + 1),
                        ..m.senders[si]
                    },
                ),
            },
        ),
{
    let s = m.senders[si];
    let m2 = ReassemblyModel {
        senders: m.senders.update(si, SenderModel { headers: s.headers.skip(hi + 1), ..s }),
    };
    assert forall|i2: int, j2: int|
        0 <= i2 < j2 < m2.senders.len() implies (#[trigger] m2.senders[i2]).uuid != (
    #[trigger] m2.senders[j2]).uuid by {
        assert(m2.senders[i2].uuid == m.senders[i2].uuid);
        assert(m2.senders[j2].uuid == m.senders[j2].uuid);
    }
    assert forall|i2: int| 0 <= i2 < m2.senders.len() implies sender_wf(
        #[trigger] m2.senders[i2],
    ) by {
        if i2 != si {
            assert(m2.senders[i2] == m.senders[i2]);
        } else {
            let hs = m2.senders[i2].headers;
            assert forall|x: int, y: int|
                0 <= x < y < hs.len() implies (#[trigger] hs[x]).ident != (
            #[trigger] hs[y]).ident by {
                assert(hs[x] == s.headers[hi + 1 + x]);
                assert(hs[y] == s.headers[hi + 1 + y]);
            }
            assert forall|x: int| 0 <= x < hs.len() implies header_wf(#[trigger] hs[x]) by {
                assert(hs[x] == s.headers[hi + 1 + x]);
            }
        }
    }
}

} // verus!
