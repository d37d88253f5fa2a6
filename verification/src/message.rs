//! The data model of the chat core: log entries and their payloads,
//! reaction rows, the seen table and the call roster, together with
//! the mathematical models the contracts speak of.

use vstd::prelude::*;

verus! {

// ---------------------------------------------------------------
// Executable types
// ---------------------------------------------------------------
/// The payload of one log entry.
#[derive(Clone, Debug)]
pub enum Payload {
    /// An ordinary chat message; `edited` records whether an edit
    /// has replaced its text.
    Normal { text: String, edited: bool },
    /// Metadata of an uploaded file, addressed by content signature.
    Upload { filename: String, signature: String },
    /// Metadata of an uploaded image.
    Image { signature: String },
    /// Metadata of an uploaded audio clip.
    Audio { filename: String, signature: String },
    /// The terminal marker a deleted message leaves behind.
    Deleted,
    /// A snapshot of the call roster, broadcast on every change.
    VoipState { connected: Option<Vec<String>> },
    /// A synchronization marker; never shown to the user.
    SyncMarker,
}

/// One entry of the server's append-only log.
#[derive(Clone, Debug)]
pub struct MessageEntry {
    /// The stable UUID of the author.
    pub author: String,
    /// The author's display name at acceptance time.
    pub author_name: String,
    /// The acceptance timestamp, as supplied by the caller.
    pub date: String,
    /// The index of the entry this one replies to, if any.
    pub replying_to: Option<usize>,
    pub payload: Payload,
}

/// One emoji of a message's reaction row: the emoji name and the
/// authors who reacted with it, without duplicates.
#[derive(Clone, Debug)]
pub struct ReactionEntry {
    pub emoji: String,
    pub authors: Vec<String>,
}

/// One row of the seen table: the highest log index a client has
/// reported having observed.
#[derive(Clone, Debug)]
pub struct SeenEntry {
    pub uuid: String,
    pub index: usize,
}

/// The profile a connected client exposes to the others.
#[derive(Clone, Debug)]
pub struct ProfileEntry {
    pub uuid: String,
    pub username: String,
    pub picture: Vec<u8>,
}

/// Uploaded bytes, addressed by their content signature.
#[derive(Clone, Debug)]
pub struct StoredBlob {
    pub signature: String,
    pub bytes: Vec<u8>,
}

/// Why the server refused a request.
#[derive(Clone, Copy, PartialEq, Eq, Structural, Debug)]
pub enum RequestError {
    /// The request names a log index that does not exist.
    IndexOutOfBounds,
    /// Only the original author may edit or delete a message.
    Unauthorized,
    /// Edits apply to normal messages only; a deleted message stays
    /// deleted.
    InvalidTarget,
}

// ---------------------------------------------------------------
// Models
// ---------------------------------------------------------------
/// The model of a payload, over character sequences.
#[verifier::ext_equal]
pub enum PayloadModel {
    Normal { text: Seq<char>, edited: bool },
    Upload { filename: Seq<char>, signature: Seq<char> },
    Image { signature: Seq<char> },
    Audio { filename: Seq<char>, signature: Seq<char> },
    Deleted,
    VoipState { connected: Option<Seq<Seq<char>>> },
    SyncMarker,
}

/// The model of a log entry.
#[verifier::ext_equal]
pub struct EntryModel {
    pub author: Seq<char>,
    pub author_name: Seq<char>,
    pub date: Seq<char>,
    pub replying_to: Option<usize>,
    pub payload: PayloadModel,
}

/// The model of one emoji of a reaction row.
#[verifier::ext_equal]
pub struct ReactionModel {
    pub emoji: Seq<char>,
    pub authors: Seq<Seq<char>>,
}

/// The model of one seen-table row.
#[verifier::ext_equal]
pub struct SeenModel {
    pub uuid: Seq<char>,
    pub index: usize,
}

/// The model of a connected client's profile.
#[verifier::ext_equal]
pub struct ProfileModel {
    pub uuid: Seq<char>,
    pub username: Seq<char>,
    pub picture: Seq<u8>,
}

/// The model of one stored upload.
#[verifier::ext_equal]
pub struct BlobModel {
    pub signature: Seq<char>,
    pub bytes: Seq<u8>,
}

impl DeepView for Payload {
    type V = PayloadModel;

    open spec fn deep_view(&self) -> PayloadModel {
        match self {
            Payload::Normal { text, edited } => PayloadModel::Normal {
                text: text@,
                edited: *edited,
            },
            Payload::Upload { filename, signature } => PayloadModel::Upload {
                filename: filename@,
                signature: signature@,
            },
            Payload::Image { signature } => PayloadModel::Image { signature: signature@ },
            Payload::Audio { filename, signature } => PayloadModel::Audio {
                filename: filename@,
                signature: signature@,
            },
            Payload::Deleted => PayloadModel::Deleted,
            Payload::VoipState { connected } => PayloadModel::VoipState {
                connected: match connected {
                    Some(v) => Some(v.deep_view()),
                    None => None,
                },
            },
            Payload::SyncMarker => PayloadModel::SyncMarker,
        }
    }
}

impl DeepView for MessageEntry {
    type V = EntryModel;

    open spec fn deep_view(&self) -> EntryModel {
        EntryModel {
            author: self.author@,
            author_name: self.author_name@,
            date: self.date@,
            replying_to: self.replying_to,
            payload: self.payload.deep_view(),
        }
    }
}

impl DeepView for ReactionEntry {
    type V = ReactionModel;

    open spec fn deep_view(&self) -> ReactionModel {
        ReactionModel { emoji: self.emoji@, authors: self.authors.deep_view() }
    }
}

impl DeepView for SeenEntry {
    type V = SeenModel;

    open spec fn deep_view(&self) -> SeenModel {
        SeenModel { uuid: self.uuid@, index: self.index }
    }
}

impl DeepView for ProfileEntry {
    type V = ProfileModel;

    open spec fn deep_view(&self) -> ProfileModel {
        ProfileModel { uuid: self.uuid@, username: self.username@, picture: self.picture@ }
    }
}

impl DeepView for StoredBlob {
    type V = BlobModel;

    open spec fn deep_view(&self) -> BlobModel {
        BlobModel { signature: self.signature@, bytes: self.bytes@ }
    }
}

// ---------------------------------------------------------------
// Searching and well-formedness
// ---------------------------------------------------------------
/// The index of the first element satisfying `p`, scanning from the
/// front.
pub open spec fn spec_find<T>(s: Seq<T>, p: spec_fn(T) -> bool) -> Option<int>
    decreases s.len(),
{
    if s.len() == 0 {
        None
    } else if p(s[0]) {
        Some(0)
    } else {
        match spec_find(s.skip(1), p) {
            Some(i) => Some(i + 1),
            None => None,
        }
    }
}

/// What `spec_find` returns: the first match, or nothing when no
/// element matches.
pub proof fn lemma_spec_find<T>(s: Seq<T>, p: spec_fn(T) -> bool)
    ensures
        match spec_find(s, p) {
            Some(i) => 0 <= i < s.len() && p(s[i]) && (forall|j: int|
                0 <= j < i ==> !p(#[trigger] s[j])),
            None => forall|j: int| 0 <= j < s.len() ==> !p(#[trigger] s[j]),
        },
    decreases s.len(),
{
    if s.len() != 0 && !p(s[0]) {
        lemma_spec_find(s.skip(1), p);
        assert forall|j: int| 1 <= j < s.len() implies s.skip(1)[j - 1] == s[j] by {}
    }
}

// ---------------------------------------------------------------
// Executable helpers over string vectors
// ---------------------------------------------------------------
/// Copies a vector of strings; the copy models the same sequence.
#[verifier::loop_isolation(false)]
pub fn clone_string_vec(v: &Vec<String>) -> (r: Vec<String>)
    ensures
        r.deep_view() == v.deep_view(),
{
    let mut r: Vec<String> = Vec::new();
    let mut i: usize = 0;
    while i < v.len()
        invariant
            i <= v@.len(),
            r.deep_view() == v.deep_view().take(i as int),
        decreases v@.len() - i,
    {
        r.push(v[i].clone());
        i += 1;
        proof {
            assert(r.deep_view() =~~= v.deep_view().take(i as int));
        }
    }
    proof {
        assert(v.deep_view().take(v@.len() as int) =~= v.deep_view());
    }
    r
}

/// Whether the vector holds the string, by content.
#[verifier::loop_isolation(false)]
pub fn contains_string(v: &Vec<String>, s: &String) -> (r: bool)
    ensures
        r == v.deep_view().contains(s@),
{
    let mut i: usize = 0;
    while i < v.len()
        invariant
            i <= v@.len(),
            forall|j: int| 0 <= j < i ==> v.deep_view()[j] != s@,
        decreases v@.len() - i,
    {
        if v[i] == *s {
            proof {
                assert(v.deep_view()[i as int] == s@);
            }
            return true;
        }
        i += 1;
    }
    false
}

/// Copies a vector of strings, leaving the element at `skip` out.
#[verifier::loop_isolation(false)]
pub fn clone_string_vec_except(v: &Vec<String>, skip: usize) -> (r: Vec<String>)
    requires
        skip < v@.len(),
    ensures
        r.deep_view() == v.deep_view().remove(skip as int),
{
    let mut r: Vec<String> = Vec::new();
    let mut i: usize = 0;
    while i < v.len()
        invariant
            i <= v@.len(),
            i <= skip ==> r.deep_view() == v.deep_view().take(i as int),
            i > skip ==> r.deep_view() == v.deep_view().take(i as int).remove(skip as int),
        decreases v@.len() - i,
    {
        if i != skip {
            r.push(v[i].clone());
        }
        i += 1;
        proof {
            let dv = v.deep_view();
            if i <= skip {
                assert(r.deep_view() =~~= dv.take(i as int));
            } else if i == skip + 1 {
                assert(dv.take(i as int).remove(skip as int) =~= dv.take(skip as int));
            } else {
                let i0 = i - 1;
                assert(r.deep_view() =~~= dv.take(i0).remove(skip as int).push(dv[i0]));
                assert(dv.take(i as int).remove(skip as int) =~= dv.take(i0).remove(
                    skip as int,
                ).push(dv[i0]));
            }
        }
    }
    proof {
        assert(v.deep_view().take(v@.len() as int) =~= v.deep_view());
    }
    r
}

/// Copies one reaction row, leaving the entry at `skip` out.
#[verifier::loop_isolation(false)]
pub fn clone_reaction_row_except(row: &Vec<ReactionEntry>, skip: usize) -> (r: Vec<ReactionEntry>)
    requires
        skip < row@.len(),
    ensures
        r.deep_view() == row.deep_view().remove(skip as int),
{
    let mut r: Vec<ReactionEntry> = Vec::new();
    let mut i: usize = 0;
    while i < row.len()
        invariant
            i <= row@.len(),
            i <= skip ==> r.deep_view() == row.deep_view().take(i as int),
            i > skip ==> r.deep_view() == row.deep_view().take(i as int).remove(skip as int),
        decreases row@.len() - i,
    {
        if i != skip {
            let e = ReactionEntry {
                emoji: row[i].emoji.clone(),
                authors: clone_string_vec(&row[i].authors),
            };
            r.push(e);
        }
        i += 1;
        proof {
            let dv = row.deep_view();
            if i <= skip {
                assert(r.deep_view() =~~= dv.take(i as int));
            } else if i == skip + 1 {
                assert(dv.take(i as int).remove(skip as int) =~= dv.take(skip as int));
            } else {
                let i0 = i - 1;
                assert(r.deep_view() =~~= dv.take(i0).remove(skip as int).push(dv[i0]));
                assert(dv.take(i as int).remove(skip as int) =~= dv.take(i0).remove(
                    skip as int,
                ).push(dv[i0]));
            }
        }
    }
    proof {
        assert(row.deep_view().take(row@.len() as int) =~= row.deep_view());
    }
    r
}

/// Copies one reaction row; the copy models the same sequence.
#[verifier::loop_isolation(false)]
pub fn clone_reaction_row(row: &Vec<ReactionEntry>) -> (r: Vec<ReactionEntry>)
    ensures
        r.deep_view() == row.deep_view(),
{
    let mut r: Vec<ReactionEntry> = Vec::new();
    let mut i: usize = 0;
    while i < row.len()
        invariant
            i <= row@.len(),
            r.deep_view() == row.deep_view().take(i as int),
        decreases row@.len() - i,
    {
        let e = ReactionEntry {
            emoji: row[i].emoji.clone(),
            authors: clone_string_vec(&row[i].authors),
        };
        r.push(e);
        i += 1;
        proof {
            assert(r.deep_view() =~~= row.deep_view().take(i as int));
        }
    }
    proof {
        assert(row.deep_view().take(row@.len() as int) =~= row.deep_view());
    }
    r
}

/// Copies a payload; the copy models the same value.
pub fn clone_payload(p: &Payload) -> (r: Payload)
    ensures
        r.deep_view() == p.deep_view(),
{
    match p {
        Payload::Normal { text, edited } => Payload::Normal {
            text: text.clone(),
            edited: *edited,
        },
        Payload::Upload { filename, signature } => Payload::Upload {
            filename: filename.clone(),
            signature: signature.clone(),
        },
        Payload::Image { signature } => Payload::Image { signature: signature.clone() },
        Payload::Audio { filename, signature } => Payload::Audio {
            filename: filename.clone(),
            signature: signature.clone(),
        },
        Payload::Deleted => Payload::Deleted,
        Payload::VoipState { connected } => Payload::VoipState {
            connected: match connected {
                Some(v) => Some(clone_string_vec(v)),
                None => None,
            },
        },
        Payload::SyncMarker => Payload::SyncMarker,
    }
}

/// Copies a log entry; the copy models the same value.
pub fn clone_entry(e: &MessageEntry) -> (r: MessageEntry)
    ensures
        r.deep_view() == e.deep_view(),
{
    MessageEntry {
        author: e.author.clone(),
        author_name: e.author_name.clone(),
        date: e.date.clone(),
        replying_to: e.replying_to,
        payload: clone_payload(&e.payload),
    }
}

/// The predicate "is this string", for searching author lists.
pub open spec fn str_is(s: Seq<char>) -> spec_fn(Seq<char>) -> bool {
    |a: Seq<char>| a == s
}

/// The predicate "carries this emoji", for searching reaction rows.
pub open spec fn emoji_is(e: Seq<char>) -> spec_fn(ReactionModel) -> bool {
    |r: ReactionModel| r.emoji == e
}

/// The predicate "stored under this signature".
pub open spec fn blob_sig_is(s: Seq<char>) -> spec_fn(BlobModel) -> bool {
    |b: BlobModel| b.signature == s
}

/// The predicate "this client's seen-table row".
pub open spec fn seen_uuid_is(u: Seq<char>) -> spec_fn(SeenModel) -> bool {
    |s: SeenModel| s.uuid == u
}

/// The predicate "this client's profile".
pub open spec fn profile_uuid_is(u: Seq<char>) -> spec_fn(ProfileModel) -> bool {
    |p: ProfileModel| p.uuid == u
}

/// No two elements of the sequence are the same string.
pub open spec fn distinct_strs(s: Seq<Seq<char>>) -> bool {
    forall|i: int, j: int| 0 <= i < j < s.len() ==> s[i] != s[j]
}

/// A reaction row is well formed when its emoji names are distinct
/// and no author appears twice under one emoji.
pub open spec fn row_wf(row: Seq<ReactionModel>) -> bool {
    &&& forall|i: int, j: int|
        0 <= i < j < row.len() ==> (#[trigger] row[i]).emoji != (#[trigger] row[j]).emoji
    &&& forall|i: int| 0 <= i < row.len() ==> distinct_strs((#[trigger] row[i]).authors)
}

} // verus!
