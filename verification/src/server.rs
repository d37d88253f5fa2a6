//! The server's authoritative state: the append-only message log,
//! the reaction table parallel to it, the seen table, the call
//! roster, connected-client profiles and signature-addressed upload
//! storage, with one handler per accepted request kind.

use vstd::prelude::*;

use crate::message::{BlobModel, EntryModel, MessageEntry, Payload, PayloadModel, ProfileEntry,
    ProfileModel, ReactionEntry, ReactionModel, RequestError, SeenEntry, SeenModel, StoredBlob,
    blob_sig_is, clone_entry, clone_reaction_row, clone_reaction_row_except, clone_string_vec,
    clone_string_vec_except, contains_string, distinct_strs, emoji_is,
    lemma_spec_find, profile_uuid_is, row_wf, seen_uuid_is, spec_find, str_is};

verus! {

/// The server-owned state; the server is its single writer.
pub struct ServerState {
    pub log: Vec<MessageEntry>,
    pub reactions: Vec<Vec<ReactionEntry>>,
    pub seen: Vec<SeenEntry>,
    pub call: Option<Vec<String>>,
    pub profiles: Vec<ProfileEntry>,
    pub storage: Vec<StoredBlob>,
}

/// The model of the server state.
#[verifier::ext_equal]
pub struct ServerModel {
    pub log: Seq<EntryModel>,
    pub reactions: Seq<Seq<ReactionModel>>,
    pub seen: Seq<SeenModel>,
    pub call: Option<Seq<Seq<char>>>,
    pub profiles: Seq<ProfileModel>,
    pub storage: Seq<BlobModel>,
}

impl DeepView for ServerState {
    type V = ServerModel;

    open spec fn deep_view(&self) -> ServerModel {
        ServerModel {
            log: self.log.deep_view(),
            reactions: self.reactions.deep_view(),
            seen: self.seen.deep_view(),
            call: match &self.call {
                Some(r) => Some(r.deep_view()),
                None => None,
            },
            profiles: self.profiles.deep_view(),
            storage: self.storage.deep_view(),
        }
    }
}

/// Well-formedness of the server state: the reaction table runs
/// parallel to the log, every reaction row is well formed, the call
/// roster (when a call is ongoing) is a non-empty set of distinct
/// clients, and the seen table, the profiles and the storage are
/// keyed uniquely.
pub open spec fn server_wf(m: ServerModel) -> bool {
    &&& m.log.len() == m.reactions.len()
    &&& forall|i: int| 0 <= i < m.reactions.len() ==> row_wf(#[trigger] m.reactions[i])
    &&& match m.call {
        Some(r) => distinct_strs(r) && r.len() > 0,
        None => true,
    }
    &&& forall|i: int, j: int|
        0 <= i < j < m.seen.len() ==> (#[trigger] m.seen[i]).uuid != (#[trigger] m.seen[j]).uuid
    &&& forall|i: int, j: int|
        0 <= i < j < m.profiles.len() ==> (#[trigger] m.profiles[i]).uuid != (
        #[trigger] m.profiles[j]).uuid
    &&& forall|i: int, j: int|
        0 <= i < j < m.storage.len() ==> (#[trigger] m.storage[i]).signature != (
        #[trigger] m.storage[j]).signature
}

/// Appending an accepted entry: the log grows by the entry and the
/// reaction table by an empty row; nothing else moves.
pub open spec fn spec_append(m: ServerModel, e: EntryModel) -> ServerModel {
    ServerModel { log: m.log.push(e), reactions: m.reactions.push(Seq::empty()), ..m }
}

/// Appending preserves well-formedness.
pub proof fn lemma_append_wf(m: ServerModel, e: EntryModel)
    requires
        server_wf(m),
    ensures
        server_wf(spec_append(m, e)),
{
    let m2 = spec_append(m, e);
    assert forall|i: int| 0 <= i < m2.reactions.len() implies row_wf(#[trigger] m2.reactions[i]) by {
        if i < m.reactions.len() {
            assert(m2.reactions[i] == m.reactions[i]);
        } else {
            assert(m2.reactions[i] =~= Seq::<ReactionModel>::empty());
        }
    }
}

impl ServerState {
    /// A fresh server: empty log, no call, nothing stored.
    pub fn new() -> (r: ServerState)
        ensures
            r.deep_view() == (ServerModel {
                log: Seq::empty(),
                reactions: Seq::empty(),
                seen: Seq::empty(),
                call: None,
                profiles: Seq::empty(),
                storage: Seq::empty(),
            }),
            server_wf(r.deep_view()),
    {
        let r = ServerState {
            log: Vec::new(),
            reactions: Vec::new(),
            seen: Vec::new(),
            call: None,
            profiles: Vec::new(),
            storage: Vec::new(),
        };
        proof {
            assert(r.log.deep_view() =~= Seq::<EntryModel>::empty());
            assert(r.reactions.deep_view() =~= Seq::<Seq<ReactionModel>>::empty());
            assert(r.seen.deep_view() =~= Seq::<SeenModel>::empty());
            assert(r.profiles.deep_view() =~= Seq::<ProfileModel>::empty());
            assert(r.storage.deep_view() =~= Seq::<BlobModel>::empty());
        }
        r
    }

    /// Accepts a normal chat message and appends it to the log.
    /// Returns the new entry's index, its stable identity.
    pub fn accept_send(
        &mut self,
        author: String,
        author_name: String,
        date: String,
        replying_to: Option<usize>,
        text: String,
    ) -> (idx: usize)
        requires
            server_wf(old(self).deep_view()),
        ensures
            final(self).deep_view() == spec_append(
                old(self).deep_view(),
                EntryModel {
                    author: author@,
                    author_name: author_name@,
                    date: date@,
                    replying_to,
                    payload: PayloadModel::Normal { text: text@, edited: false },
                },
            ),
            server_wf(final(self).deep_view()),
            idx == old(self).deep_view().log.len(),
    {
        let entry = MessageEntry {
            author,
            author_name,
            date,
            replying_to,
            payload: Payload::Normal { text, edited: false },
        };
        let idx = self.log.len();
        let ghost e = entry.deep_view();
        self.log.push(entry);
        self.reactions.push(Vec::new());
        proof {
            let m = old(self).deep_view();
            assert(self.log.deep_view() =~~= m.log.push(e));
            assert(self.reactions.deep_view() =~~= m.reactions.push(Seq::empty()));
            assert(self.deep_view() =~~= spec_append(m, e));
            lemma_append_wf(m, e);
        }
        idx
    }

    /// Accepts an upload (file, image or audio metadata) and appends
    /// it to the log.  Returns the new entry's index.
    pub fn accept_upload(
        &mut self,
        author: String,
        author_name: String,
        date: String,
        replying_to: Option<usize>,
        payload: Payload,
    ) -> (idx: usize)
        requires
            server_wf(old(self).deep_view()),
            payload is Upload || payload is Image || payload is Audio,
        ensures
            final(self).deep_view() == spec_append(
                old(self).deep_view(),
                EntryModel {
                    author: author@,
                    author_name: author_name@,
                    date: date@,
                    replying_to,
                    payload: payload.deep_view(),
                },
            ),
            server_wf(final(self).deep_view()),
            idx == old(self).deep_view().log.len(),
    {
        let entry = MessageEntry { author, author_name, date, replying_to, payload };
        let idx = self.log.len();
        let ghost e = entry.deep_view();
        self.log.push(entry);
        self.reactions.push(Vec::new());
        proof {
            let m = old(self).deep_view();
            assert(self.log.deep_view() =~~= m.log.push(e));
            assert(self.reactions.deep_view() =~~= m.reactions.push(Seq::empty()));
            assert(self.deep_view() =~~= spec_append(m, e));
            lemma_append_wf(m, e);
        }
        idx
    }

    /// Stores uploaded bytes under their content signature.  Bytes
    /// are content-addressed, so a signature already present keeps
    /// its bytes.
    #[verifier::loop_isolation(false)]
    pub fn store_blob(&mut self, signature: String, bytes: Vec<u8>)
        requires
            server_wf(old(self).deep_view()),
        ensures
            final(self).deep_view() == spec_store(old(self).deep_view(), signature@, bytes@),
            server_wf(final(self).deep_view()),
    {
        let ghost m = old(self).deep_view();
        let ghost p = blob_sig_is(signature@);
        let mut i: usize = 0;
        while i < self.storage.len()
            invariant
                *self == *old(self),
                i <= self.storage.len(),
                forall|j: int| 0 <= j < i ==> !p(#[trigger] m.storage[j]),
            decreases self.storage.len() - i,
        {
            if self.storage[i].signature == signature {
                proof {
                    assert(m.storage[i as int].signature == signature@);
                    lemma_spec_find_agrees(m.storage, p, i as int);
                    assert(spec_store(m, signature@, bytes@) == m);
                }
                return ;
            }
            i += 1;
        }
        proof {
            lemma_spec_find(m.storage, p);
        }
        let ghost nb = BlobModel { signature: signature@, bytes: bytes@ };
        self.storage.push(StoredBlob { signature, bytes });
        proof {
            assert(self.storage.deep_view() =~~= m.storage.push(nb));
            assert(self.deep_view() =~~= spec_store(m, signature@, bytes@));
            assert forall|i2: int, j2: int|
                0 <= i2 < j2 < self.deep_view().storage.len() implies (
            #[trigger] self.deep_view().storage[i2]).signature != (
            #[trigger] self.deep_view().storage[j2]).signature by {
                if j2 == m.storage.len() {
                    assert(!p(m.storage[i2]));
                }
            }
        }
    }

    /// Returns the stored bytes for a signature, if any upload
    /// carried it.
    #[verifier::loop_isolation(false)]
    pub fn fetch_blob(&self, signature: &String) -> (r: Option<&Vec<u8>>)
        ensures
            match spec_find(self.deep_view().storage, blob_sig_is(signature@)) {
                Some(i) => r matches Some(bytes) && bytes@ == self.deep_view().storage[i].bytes,
                None => r is None,
            },
    {
        let ghost m = self.deep_view();
        let ghost p = blob_sig_is(signature@);
        proof {
            lemma_spec_find(m.storage, p);
        }
        let mut i: usize = 0;
        while i < self.storage.len()
            invariant
                i <= self.storage.len(),
                forall|j: int| 0 <= j < i ==> !p(#[trigger] m.storage[j]),
            decreases self.storage.len() - i,
        {
            if self.storage[i].signature == *signature {
                proof {
                    lemma_spec_find_agrees(m.storage, p, i as int);
                }
                return Some(&self.storage[i].bytes);
            }
            i += 1;
        }
        None
    }
}

/// Storing bytes under a fresh signature appends them; a signature
/// already present keeps what it has.
pub open spec fn spec_store(m: ServerModel, signature: Seq<char>, bytes: Seq<u8>) -> ServerModel {
    match spec_find(m.storage, blob_sig_is(signature)) {
        Some(_) => m,
        None => ServerModel {
            storage: m.storage.push(BlobModel { signature, bytes }),
            ..m
        },
    }
}

// ---------------------------------------------------------------
// Edit and delete
// ---------------------------------------------------------------
/// The edit transition.  An edit is refused outside the log, or by
/// anyone but the author, or on anything but a normal message — so a
/// deleted message can never be revived.  With a new text the entry
/// keeps its place and identity and is marked edited; without one it
/// becomes the terminal `Deleted` marker.
pub open spec fn spec_edit(
    m: ServerModel,
    requester: Seq<char>,
    index: int,
    new_text: Option<Seq<char>>,
) -> (ServerModel, Result<(), RequestError>) {
    if !(0 <= index < m.log.len()) {
        (m, Err(RequestError::IndexOutOfBounds))
    } else if m.log[index].author != requester {
        (m, Err(RequestError::Unauthorized))
    } else if !(m.log[index].payload is Normal) {
        (m, Err(RequestError::InvalidTarget))
    } else {
        let e = m.log[index];
        let p2 = match new_text {
            Some(t) => PayloadModel::Normal { text: t, edited: true },
            None => PayloadModel::Deleted,
        };
        (
            ServerModel {
                log: m.log.update(index, EntryModel { payload: p2, ..e }),
                ..m
            },
            Ok(()),
        )
    }
}

// ---------------------------------------------------------------
// Reactions
// ---------------------------------------------------------------
/// Adding a reaction to one row.  Re-adding by the same author is a
/// no-op, so no author ever appears twice under one emoji.
pub open spec fn spec_row_add(row: Seq<ReactionModel>, emoji: Seq<char>, author: Seq<
    char,
>) -> Seq<ReactionModel> {
    match spec_find(row, emoji_is(emoji)) {
        Some(i) => if row[i].authors.contains(author) {
            row
        } else {
            row.update(
                i,
                ReactionModel { emoji: row[i].emoji, authors: row[i].authors.push(author) },
            )
        },
        None => row.push(ReactionModel { emoji, authors: seq![author] }),
    }
}

/// Removing an author from a sequence of authors: the first (under
/// well-formedness, the only) occurrence goes.
pub open spec fn spec_remove_author(authors: Seq<Seq<char>>, author: Seq<char>) -> Seq<Seq<
    char,
>> {
    match spec_find(authors, str_is(author)) {
        Some(i) => authors.remove(i),
        None => authors,
    }
}

/// Removing a reaction from one row.  A missing emoji or a missing
/// author is tolerated; an emoji nobody backs any more leaves the
/// row.
pub open spec fn spec_row_remove(row: Seq<ReactionModel>, emoji: Seq<char>, author: Seq<
    char,
>) -> Seq<ReactionModel> {
    match spec_find(row, emoji_is(emoji)) {
        None => row,
        Some(i) => {
            let na = spec_remove_author(row[i].authors, author);
            if na == row[i].authors {
                row
            } else if na.len() == 0 {
                row.remove(i)
            } else {
                row.update(i, ReactionModel { emoji: row[i].emoji, authors: na })
            }
        },
    }
}

/// The reaction-add transition, bounds-checked against the log.
pub open spec fn spec_react_add(m: ServerModel, author: Seq<char>, index: int, emoji: Seq<
    char,
>) -> (ServerModel, Result<(), RequestError>) {
    if !(0 <= index < m.log.len()) {
        (m, Err(RequestError::IndexOutOfBounds))
    } else {
        (
            ServerModel {
                reactions: m.reactions.update(
                    index,
                    spec_row_add(m.reactions[index], emoji, author),
                ),
                ..m
            },
            Ok(()),
        )
    }
}

/// The reaction-remove transition, bounds-checked against the log.
pub open spec fn spec_react_remove(m: ServerModel, author: Seq<char>, index: int, emoji: Seq<
    char,
>) -> (ServerModel, Result<(), RequestError>) {
    if !(0 <= index < m.log.len()) {
        (m, Err(RequestError::IndexOutOfBounds))
    } else {
        (
            ServerModel {
                reactions: m.reactions.update(
                    index,
                    spec_row_remove(m.reactions[index], emoji, author),
                ),
                ..m
            },
            Ok(()),
        )
    }
}

/// Adding a reaction keeps the row well formed: emoji names stay
/// distinct and no author is duplicated.
pub proof fn lemma_row_add_wf(row: Seq<ReactionModel>, emoji: Seq<char>, author: Seq<char>)
    requires
        row_wf(row),
    ensures
        row_wf(spec_row_add(row, emoji, author)),
{
    let p = emoji_is(emoji);
    lemma_spec_find(row, p);
    match spec_find(row, p) {
        Some(i) => {
            if !row[i].authors.contains(author) {
                let row2 = row.update(
                    i,
                    ReactionModel { emoji: row[i].emoji, authors: row[i].authors.push(author) },
                );
                assert forall|k: int| 0 <= k < row2.len() implies distinct_strs(
                    (#[trigger] row2[k]).authors,
                ) by {
                    if k == i {
                        let na = row[i].authors.push(author);
                        assert forall|x: int, y: int| 0 <= x < y < na.len() implies na[x]
                            != na[y] by {
                            if y == na.len() - 1 {
                                assert(!row[i].authors.contains(author));
                                assert(row[i].authors[x] == na[x]);
                            }
                        }
                    } else {
                        assert(row2[k] == row[k]);
                    }
                }
            }
        },
        None => {
            let row2 = row.push(ReactionModel { emoji, authors: seq![author] });
            assert forall|x: int, y: int| 0 <= x < y < row2.len() implies (
            #[trigger] row2[x]).emoji != (#[trigger] row2[y]).emoji by {
                if y == row2.len() - 1 {
                    assert(!p(row[x]));
                }
            }
            assert forall|k: int| 0 <= k < row2.len() implies distinct_strs(
                (#[trigger] row2[k]).authors,
            ) by {
                if k < row.len() {
                    assert(row2[k] == row[k]);
                } else {
                    assert(row2[k].authors =~= seq![author]);
                }
            }
        },
    }
}

/// Removing a reaction keeps the row well formed.
pub proof fn lemma_row_remove_wf(row: Seq<ReactionModel>, emoji: Seq<char>, author: Seq<char>)
    requires
        row_wf(row),
    ensures
        row_wf(spec_row_remove(row, emoji, author)),
{
    let p = emoji_is(emoji);
    lemma_spec_find(row, p);
    match spec_find(row, p) {
        None => {},
        Some(i) => {
            let na = spec_remove_author(row[i].authors, author);
            lemma_spec_find(row[i].authors, str_is(author));
            if na == row[i].authors {
            } else if na.len() == 0 {
                let row2 = row.remove(i);
                row.remove_ensures(i);
                assert forall|x: int, y: int| 0 <= x < y < row2.len() implies (
                #[trigger] row2[x]).emoji != (#[trigger] row2[y]).emoji by {
                    if y < i {
                        assert(row2[x] == row[x] && row2[y] == row[y]);
                    } else if x < i {
                        assert(row2[x] == row[x] && row2[y] == row[y + 1]);
                    } else {
                        assert(row2[x] == row[x + 1] && row2[y] == row[y + 1]);
                    }
                }
                assert forall|k: int| 0 <= k < row2.len() implies distinct_strs(
                    (#[trigger] row2[k]).authors,
                ) by {
                    if k < i {
                        assert(row2[k] == row[k]);
                    } else {
                        assert(row2[k] == row[k + 1]);
                    }
                }
            } else {
                let aidx = spec_find(row[i].authors, str_is(author)).unwrap();
                let oa = row[i].authors;
                oa.remove_ensures(aidx);
                let row2 = row.update(i, ReactionModel { emoji: row[i].emoji, authors: na });
                assert forall|k: int| 0 <= k < row2.len() implies distinct_strs(
                    (#[trigger] row2[k]).authors,
                ) by {
                    if k == i {
                        assert forall|x: int, y: int| 0 <= x < y < na.len() implies na[x]
                            != na[y] by {
                            if y < aidx {
                                assert(na[x] == oa[x] && na[y] == oa[y]);
                            } else if x < aidx {
                                assert(na[x] == oa[x] && na[y] == oa[y + 1]);
                            } else {
                                assert(na[x] == oa[x + 1] && na[y] == oa[y + 1]);
                            }
                        }
                    } else {
                        assert(row2[k] == row[k]);
                    }
                }
            }
        },
    }
}

impl ServerState {
    /// Accepts an edit or delete.  Only the author may touch a
    /// message; with `Some(text)` the message's text is replaced and
    /// it is marked edited, with `None` it is deleted for good.
    pub fn accept_edit(
        &mut self,
        requester: &String,
        index: usize,
        new_text: Option<String>,
    ) -> (r: Result<(), RequestError>)
        requires
            server_wf(old(self).deep_view()),
        ensures
            final(self).deep_view() == spec_edit(
                old(self).deep_view(),
                requester@,
                index as int,
                new_text.deep_view(),
            ).0,
            r == spec_edit(
                old(self).deep_view(),
                requester@,
                index as int,
                new_text.deep_view(),
            ).1,
            server_wf(final(self).deep_view()),
    {
        let ghost m = old(self).deep_view();
        if index >= self.log.len() {
            return Err(RequestError::IndexOutOfBounds);
        }
        if self.log[index].author != *requester {
            return Err(RequestError::Unauthorized);
        }
        let is_normal = matches!(self.log[index].payload, Payload::Normal { .. });
        if !is_normal {
            return Err(RequestError::InvalidTarget);
        }
        let author = self.log[index].author.clone();
        let author_name = self.log[index].author_name.clone();
        let date = self.log[index].date.clone();
        let replying_to = self.log[index].replying_to;
        let payload = match new_text {
            Some(t) => Payload::Normal { text: t, edited: true },
            None => Payload::Deleted,
        };
        let entry = MessageEntry { author, author_name, date, replying_to, payload };
        let ghost e2 = entry.deep_view();
        self.log[index] = entry;
        proof {
            assert(self.log.deep_view() =~~= m.log.update(index as int, e2));
            assert(self.deep_view() =~~= spec_edit(
                m,
                requester@,
                index as int,
                new_text.deep_view(),
            ).0);
        }
        Ok(())
    }

    /// Accepts a reaction-add: the author joins the emoji's author
    /// list, once, however many times the request is repeated.
    #[verifier::loop_isolation(false)]
    pub fn accept_reaction_add(&mut self, author: &String, index: usize, emoji: &String) -> (r:
        Result<(), RequestError>)
        requires
            server_wf(old(self).deep_view()),
        ensures
            final(self).deep_view() == spec_react_add(
                old(self).deep_view(),
                author@,
                index as int,
                emoji@,
            ).0,
            r == spec_react_add(old(self).deep_view(), author@, index as int, emoji@).1,
            server_wf(final(self).deep_view()),
    {
        let ghost m = old(self).deep_view();
        if index >= self.log.len() {
            return Err(RequestError::IndexOutOfBounds);
        }
        let ghost row = m.reactions[index as int];
        let ghost pe = emoji_is(emoji@);
        let row_len = self.reactions[index].len();
        let mut k: usize = 0;
        let mut found = false;
        while k < row_len
            invariant
                k <= row_len,
                !found,
                forall|j: int| 0 <= j < k ==> !pe(#[trigger] row[j]),
            decreases row_len - k,
        {
            if self.reactions[index][k].emoji == *emoji {
                proof {
                    assert(pe(row[k as int]));
                }
                found = true;
                break ;
            }
            k += 1;
        }
        let new_row: Vec<ReactionEntry> = if found {
            proof {
                lemma_spec_find_agrees(row, pe, k as int);
            }
            if contains_string(&self.reactions[index][k].authors, author) {
                proof {
                    assert(spec_row_add(row, emoji@, author@) == row);
                    assert(m.reactions.update(index as int, row) =~= m.reactions);
                    assert(self.deep_view() =~~= spec_react_add(
                        m,
                        author@,
                        index as int,
                        emoji@,
                    ).0);
                }
                return Ok(());
            }
            let mut nr = clone_reaction_row(&self.reactions[index]);
            let mut authors = clone_string_vec(&nr[k].authors);
            authors.push(author.clone());
            let entry = ReactionEntry { emoji: nr[k].emoji.clone(), authors };
            nr[k] = entry;
            proof {
                assert(nr.deep_view() =~~= spec_row_add(row, emoji@, author@));
            }
            nr
        } else {
            proof {
                lemma_spec_find(row, pe);
                assert(spec_find(row, pe) is None);
            }
            let mut nr = clone_reaction_row(&self.reactions[index]);
            let mut authors: Vec<String> = Vec::new();
            authors.push(author.clone());
            let ghost av = authors.deep_view();
            nr.push(ReactionEntry { emoji: emoji.clone(), authors });
            proof {
                assert(av =~= seq![author@]);
                assert(nr.deep_view() =~~= spec_row_add(row, emoji@, author@));
            }
            nr
        };
        self.reactions[index] = new_row;
        proof {
            assert(self.reactions.deep_view() =~~= m.reactions.update(
                index as int,
                spec_row_add(row, emoji@, author@),
            ));
            assert(self.deep_view() =~~= spec_react_add(m, author@, index as int, emoji@).0);
            lemma_row_add_wf(row, emoji@, author@);
            assert forall|i2: int| 0 <= i2 < self.deep_view().reactions.len() implies row_wf(
                #[trigger] self.deep_view().reactions[i2],
            ) by {
                if i2 != index as int {
                    assert(self.deep_view().reactions[i2] == m.reactions[i2]);
                }
            }
        }
        Ok(())
    }
}

impl ServerState {
    /// Accepts a reaction-remove: the author leaves the emoji's
    /// author list; a missing emoji or author is tolerated, and an
    /// emoji nobody backs any more leaves the row.
    #[verifier::loop_isolation(false)]
    pub fn accept_reaction_remove(&mut self, author: &String, index: usize, emoji: &String) -> (r:
        Result<(), RequestError>)
        requires
            server_wf(old(self).deep_view()),
        ensures
            final(self).deep_view() == spec_react_remove(
                old(self).deep_view(),
                author@,
                index as int,
                emoji@,
            ).0,
            r == spec_react_remove(old(self).deep_view(), author@, index as int, emoji@).1,
            server_wf(final(self).deep_view()),
    {
        let ghost m = old(self).deep_view();
        if index >= self.log.len() {
            return Err(RequestError::IndexOutOfBounds);
        }
        let ghost row = m.reactions[index as int];
        let ghost pe = emoji_is(emoji@);
        let row_len = self.reactions[index].len();
        let mut k: usize = 0;
        let mut found = false;
        while k < row_len
            invariant
                k <= row_len,
                !found,
                forall|j: int| 0 <= j < k ==> !pe(#[trigger] row[j]),
            decreases row_len - k,
        {
            if self.reactions[index][k].emoji == *emoji {
                proof {
                    assert(pe(row[k as int]));
                }
                found = true;
                break ;
            }
            k += 1;
        }
        if !found {
            proof {
                lemma_spec_find(row, pe);
                assert(spec_find(row, pe) is None);
                assert(m.reactions.update(index as int, row) =~= m.reactions);
                assert(self.deep_view() =~~= spec_react_remove(
                    m,
                    author@,
                    index as int,
                    emoji@,
                ).0);
            }
            return Ok(());
        }
        proof {
            lemma_spec_find_agrees(row, pe, k as int);
        }
        let ghost oa = row[k as int].authors;
        let ghost pa = str_is(author@);
        let authors_len = self.reactions[index][k].authors.len();
        let mut a: usize = 0;
        let mut afound = false;
        while a < authors_len
            invariant
                a <= authors_len,
                !afound,
                forall|j: int| 0 <= j < a ==> !pa(#[trigger] oa[j]),
            decreases authors_len - a,
        {
            if self.reactions[index][k].authors[a] == *author {
                proof {
                    assert(pa(oa[a as int]));
                }
                afound = true;
                break ;
            }
            a += 1;
        }
        if !afound {
            proof {
                lemma_spec_find(oa, pa);
                assert(spec_find(oa, pa) is None);
                assert(spec_remove_author(oa, author@) == oa);
                assert(spec_row_remove(row, emoji@, author@) == row);
                assert(m.reactions.update(index as int, row) =~= m.reactions);
                assert(self.deep_view() =~~= spec_react_remove(
                    m,
                    author@,
                    index as int,
                    emoji@,
                ).0);
            }
            return Ok(());
        }
        proof {
            lemma_spec_find_agrees(oa, pa, a as int);
            oa.remove_ensures(a as int);
        }
        let ghost na = spec_remove_author(oa, author@);
        proof {
            assert(na == oa.remove(a as int));
            assert(na.len() == oa.len() - 1);
            assert(na != oa);
        }
        let new_row: Vec<ReactionEntry> = if authors_len == 1 {
            proof {
                assert(na.len() == 0);
            }
            clone_reaction_row_except(&self.reactions[index], k)
        } else {
            let authors = clone_string_vec_except(&self.reactions[index][k].authors, a);
            let entry = ReactionEntry { emoji: self.reactions[index][k].emoji.clone(), authors };
            let mut nr = clone_reaction_row(&self.reactions[index]);
            nr[k] = entry;
            proof {
                assert(nr.deep_view() =~~= row.update(
                    k as int,
                    ReactionModel { emoji: row[k as int].emoji, authors: na },
                ));
            }
            nr
        };
        proof {
            assert(new_row.deep_view() == spec_row_remove(row, emoji@, author@));
        }
        self.reactions[index] = new_row;
        proof {
            assert(self.reactions.deep_view() =~~= m.reactions.update(
                index as int,
                spec_row_remove(row, emoji@, author@),
            ));
            assert(self.deep_view() =~~= spec_react_remove(m, author@, index as int, emoji@).0);
            lemma_row_remove_wf(row, emoji@, author@);
            assert forall|i2: int| 0 <= i2 < self.deep_view().reactions.len() implies row_wf(
                #[trigger] self.deep_view().reactions[i2],
            ) by {
                if i2 != index as int {
                    assert(self.deep_view().reactions[i2] == m.reactions[i2]);
                }
            }
        }
        Ok(())
    }
}

/// A scan that stopped at the first match agrees with `spec_find`.
pub proof fn lemma_spec_find_agrees<T>(s: Seq<T>, p: spec_fn(T) -> bool, i: int)
    requires
        0 <= i < s.len(),
        p(s[i]),
        forall|j: int| 0 <= j < i ==> !p(#[trigger] s[j]),
    ensures
        spec_find(s, p) == Some(i),
{
    lemma_spec_find(s, p);
    match spec_find(s, p) {
        Some(k) => {
            if k < i {
                assert(!p(s[k]));
            } else if k > i {
                assert(!p(s[i]));
            }
        },
        None => {
            assert(!p(s[i]));
        },
    }
}

// ---------------------------------------------------------------
// Sync
// ---------------------------------------------------------------
/// The seen-table update a sync carries: the client's row advances
/// to the reported index, monotonically — older reports are ignored.
pub open spec fn spec_seen_update(seen: Seq<SeenModel>, uuid: Seq<char>, last: Option<
    usize,
>) -> Seq<SeenModel> {
    match last {
        None => seen,
        Some(idx) => match spec_find(seen, seen_uuid_is(uuid)) {
            Some(i) => if seen[i].index < idx {
                seen.update(i, SeenModel { uuid: seen[i].uuid, index: idx })
            } else {
                seen
            },
            None => seen.push(SeenModel { uuid, index: idx }),
        },
    }
}

/// The log tail a sync returns: every entry from `have_count` on.
pub open spec fn spec_sync_tail(log: Seq<EntryModel>, have_count: int) -> Seq<EntryModel> {
    if have_count <= log.len() {
        log.skip(have_count)
    } else {
        Seq::empty()
    }
}

/// The sync transition: the log and every other table stand still,
/// the seen table advances, and the missing tail is returned.
pub open spec fn spec_sync(m: ServerModel, uuid: Seq<char>, have_count: int, last: Option<
    usize,
>) -> (ServerModel, Seq<EntryModel>) {
    (
        ServerModel { seen: spec_seen_update(m.seen, uuid, last), ..m },
        spec_sync_tail(m.log, have_count),
    )
}

// ---------------------------------------------------------------
// Voice call roster
// ---------------------------------------------------------------
/// Joining the call: the first client opens the roster; joining
/// twice changes nothing.
pub open spec fn spec_voip_connect(m: ServerModel, uuid: Seq<char>) -> ServerModel {
    match m.call {
        None => ServerModel { call: Some(seq![uuid]), ..m },
        Some(r) => if r.contains(uuid) {
            m
        } else {
            ServerModel { call: Some(r.push(uuid)), ..m }
        },
    }
}

/// Leaving the call: the client's entry goes; when the last client
/// leaves, the roster closes.
pub open spec fn spec_voip_disconnect(m: ServerModel, uuid: Seq<char>) -> ServerModel {
    match m.call {
        None => m,
        Some(r) => {
            let r2 = spec_remove_author(r, uuid);
            if r2.len() == 0 {
                ServerModel { call: None, ..m }
            } else {
                ServerModel { call: Some(r2), ..m }
            }
        },
    }
}

// ---------------------------------------------------------------
// Profiles and handshake
// ---------------------------------------------------------------
/// Registering a profile: a client already known keeps its place
/// with the new profile; a new client is appended.
pub open spec fn spec_set_profile(m: ServerModel, p: ProfileModel) -> ServerModel {
    match spec_find(m.profiles, profile_uuid_is(p.uuid)) {
        Some(i) => ServerModel { profiles: m.profiles.update(i, p), ..m },
        None => ServerModel { profiles: m.profiles.push(p), ..m },
    }
}

/// How a connect request is decided.
#[derive(Clone, Copy, PartialEq, Eq, Structural, Debug)]
pub enum ConnectDecision {
    Accepted,
    BadPassword,
    DuplicateUuid,
    ServerFull,
}

/// Whether the supplied password satisfies the server's requirement.
pub open spec fn spec_password_ok(supplied: Option<Seq<char>>, required: Option<Seq<
    char,
>>) -> bool {
    match required {
        None => true,
        Some(r) => match supplied {
            Some(s) => s == r,
            None => false,
        },
    }
}

/// The handshake decision: a wrong password, a UUID already
/// connected, and a full server are refused, in that order of
/// priority; everything else is accepted.
pub open spec fn spec_connect_decision(
    connected: Seq<Seq<char>>,
    uuid: Seq<char>,
    password_ok: bool,
    capacity: usize,
) -> ConnectDecision {
    if !password_ok {
        ConnectDecision::BadPassword
    } else if connected.contains(uuid) {
        ConnectDecision::DuplicateUuid
    } else if connected.len() >= capacity {
        ConnectDecision::ServerFull
    } else {
        ConnectDecision::Accepted
    }
}

/// Decides a connect request from the currently connected UUIDs, the
/// passwords and the server's capacity.
pub fn evaluate_connect(
    connected: &Vec<String>,
    uuid: &String,
    supplied: &Option<String>,
    required: &Option<String>,
    capacity: usize,
) -> (d: ConnectDecision)
    ensures
        d == spec_connect_decision(
            connected.deep_view(),
            uuid@,
            spec_password_ok(supplied.deep_view(), required.deep_view()),
            capacity,
        ),
{
    let password_ok = match required {
        None => true,
        Some(r) => match supplied {
            Some(s) => *s == *r,
            None => false,
        },
    };
    if !password_ok {
        return ConnectDecision::BadPassword;
    }
    if contains_string(connected, uuid) {
        return ConnectDecision::DuplicateUuid;
    }
    if connected.len() >= capacity {
        return ConnectDecision::ServerFull;
    }
    ConnectDecision::Accepted
}

// ---------------------------------------------------------------
// Voice fan-out
// ---------------------------------------------------------------
/// Who a voice or video datagram is relayed to: everyone on the
/// roster but the sender, in roster order.
pub open spec fn spec_targets(roster: Seq<Seq<char>>, sender: Seq<char>) -> Seq<Seq<char>>
    decreases roster.len(),
{
    if roster.len() == 0 {
        Seq::empty()
    } else {
        let rest = spec_targets(roster.drop_last(), sender);
        if roster.last() == sender {
            rest
        } else {
            rest.push(roster.last())
        }
    }
}

/// The relay reaches exactly the other roster members: whoever is on
/// the roster and is not the sender, and nobody else.
pub proof fn lemma_targets_members(roster: Seq<Seq<char>>, sender: Seq<char>)
    ensures
        forall|u: Seq<char>|
            #[trigger] spec_targets(roster, sender).contains(u) <==> roster.contains(u) && u
                != sender,
    decreases roster.len(),
{
    if roster.len() > 0 {
        let pre = roster.drop_last();
        let rest = spec_targets(pre, sender);
        let t = spec_targets(roster, sender);
        lemma_targets_members(pre, sender);
        assert forall|u: Seq<char>| #[trigger] t.contains(u) implies roster.contains(u) && u
            != sender by {
            let i = choose|i: int| 0 <= i < t.len() && t[i] == u;
            if roster.last() != sender && i == t.len() - 1 {
                assert(roster[roster.len() - 1] == u);
                assert(roster.contains(u));
            } else {
                assert(t[i] == rest[i]);
                assert(rest.contains(u));
                let k = choose|k: int| 0 <= k < pre.len() && pre[k] == u;
                assert(roster[k] == u);
                assert(roster.contains(u));
            }
        }
        assert forall|u: Seq<char>| roster.contains(u) && u != sender implies #[trigger] t.contains(
            u,
        ) by {
            let i = choose|i: int| 0 <= i < roster.len() && roster[i] == u;
            if i == roster.len() - 1 {
                assert(t.last() == u);
                assert(t.contains(u));
            } else {
                assert(pre[i] == u);
                assert(pre.contains(u));
                assert(rest.contains(u));
                let j = choose|j: int| 0 <= j < rest.len() && rest[j] == u;
                if roster.last() == sender {
                    assert(t.contains(u));
                } else {
                    assert(t[j] == u);
                    assert(t.contains(u));
                }
            }
        }
    }
}

/// Computes the relay targets for one datagram.
#[verifier::loop_isolation(false)]
pub fn relay_targets(roster: &Vec<String>, sender: &String) -> (r: Vec<String>)
    ensures
        r.deep_view() == spec_targets(roster.deep_view(), sender@),
{
    let mut r: Vec<String> = Vec::new();
    let mut i: usize = 0;
    while i < roster.len()
        invariant
            i <= roster@.len(),
            r.deep_view() == spec_targets(roster.deep_view().take(i as int), sender@),
        decreases roster@.len() - i,
    {
        let ghost prefix = roster.deep_view().take(i as int);
        if roster[i] != *sender {
            r.push(roster[i].clone());
        }
        i += 1;
        proof {
            let cur = roster.deep_view().take(i as int);
            assert(cur.drop_last() =~= prefix);
            assert(cur.last() == roster.deep_view()[i - 1]);
            if roster.deep_view()[i - 1] != sender@ {
                assert(r.deep_view() =~~= spec_targets(prefix, sender@).push(cur.last()));
            }
        }
    }
    proof {
        assert(roster.deep_view().take(roster@.len() as int) =~= roster.deep_view());
    }
    r
}

impl ServerState {
    /// Accepts a sync request: returns the log tail the client is
    /// missing and advances its seen-table row monotonically.
    #[verifier::loop_isolation(false)]
    pub fn accept_sync(&mut self, uuid: &String, have_count: usize, last_seen: Option<usize>) -> (
        tail: Vec<MessageEntry>)
        requires
            server_wf(old(self).deep_view()),
        ensures
            final(self).deep_view() == spec_sync(
                old(self).deep_view(),
                uuid@,
                have_count as int,
                last_seen,
            ).0,
            tail.deep_view() == spec_sync(
                old(self).deep_view(),
                uuid@,
                have_count as int,
                last_seen,
            ).1,
            server_wf(final(self).deep_view()),
    {
        let ghost m = old(self).deep_view();
        let mut tail: Vec<MessageEntry> = Vec::new();
        if have_count <= self.log.len() {
            let mut i: usize = have_count;
            proof {
                assert(tail.deep_view() =~~= m.log.subrange(have_count as int, i as int));
            }
            while i < self.log.len()
                invariant
                    *self == *old(self),
                    have_count <= i <= m.log.len(),
                    tail.deep_view() == m.log.subrange(have_count as int, i as int),
                decreases m.log.len() - i,
            {
                let e = clone_entry(&self.log[i]);
                tail.push(e);
                i += 1;
                proof {
                    assert(tail.deep_view() =~~= m.log.subrange(have_count as int, i as int));
                }
            }
            proof {
                assert(m.log.subrange(have_count as int, m.log.len() as int) =~= m.log.skip(
                    have_count as int,
                ));
            }
        } else {
            proof {
                assert(tail.deep_view() =~~= Seq::<EntryModel>::empty());
            }
        }
        match last_seen {
            None => {
                proof {
                    assert(self.deep_view() =~~= spec_sync(
                        m,
                        uuid@,
                        have_count as int,
                        last_seen,
                    ).0);
                }
            },
            Some(idx) => {
                let ghost pu = seen_uuid_is(uuid@);
                let n = self.seen.len();
                let mut k: usize = 0;
                let mut found = false;
                while k < n
                    invariant
                        *self == *old(self),
                        k <= n,
                        !found,
                        forall|j: int| 0 <= j < k ==> !pu(#[trigger] m.seen[j]),
                    decreases n - k,
                {
                    if self.seen[k].uuid == *uuid {
                        proof {
                            assert(pu(m.seen[k as int]));
                        }
                        found = true;
                        break ;
                    }
                    k += 1;
                }
                if found {
                    proof {
                        lemma_spec_find_agrees(m.seen, pu, k as int);
                    }
                    if self.seen[k].index < idx {
                        let entry = SeenEntry { uuid: self.seen[k].uuid.clone(), index: idx };
                        self.seen[k] = entry;
                        proof {
                            assert(self.seen.deep_view() =~~= m.seen.update(
                                k as int,
                                SeenModel { uuid: m.seen[k as int].uuid, index: idx },
                            ));
                            assert(self.deep_view() =~~= spec_sync(
                                m,
                                uuid@,
                                have_count as int,
                                last_seen,
                            ).0);
                            let s2 = self.deep_view().seen;
                            assert forall|i2: int, j2: int|
                                0 <= i2 < j2 < s2.len() implies (#[trigger] s2[i2]).uuid != (
                            #[trigger] s2[j2]).uuid by {
                                assert(s2[i2].uuid == m.seen[i2].uuid);
                                assert(s2[j2].uuid == m.seen[j2].uuid);
                            }
                        }
                    } else {
                        proof {
                            assert(self.deep_view() =~~= spec_sync(
                                m,
                                uuid@,
                                have_count as int,
                                last_seen,
                            ).0);
                        }
                    }
                } else {
                    proof {
                        lemma_spec_find(m.seen, pu);
                        assert(spec_find(m.seen, pu) is None);
                    }
                    self.seen.push(SeenEntry { uuid: uuid.clone(), index: idx });
                    proof {
                        assert(self.seen.deep_view() =~~= m.seen.push(
                            SeenModel { uuid: uuid@, index: idx },
                        ));
                        assert(self.deep_view() =~~= spec_sync(
                            m,
                            uuid@,
                            have_count as int,
                            last_seen,
                        ).0);
                        let s2 = self.deep_view().seen;
                        assert forall|i2: int, j2: int|
                            0 <= i2 < j2 < s2.len() implies (#[trigger] s2[i2]).uuid != (
                        #[trigger] s2[j2]).uuid by {
                            if j2 == m.seen.len() {
                                assert(!pu(m.seen[i2]));
                            }
                        }
                    }
                }
            },
        }
        tail
    }

    /// A client joins the voice call; joining twice is a no-op.  The
    /// resulting roster is broadcast as a `VoipState` message.
    pub fn voip_connect(&mut self, uuid: &String)
        requires
            server_wf(old(self).deep_view()),
        ensures
            final(self).deep_view() == spec_voip_connect(old(self).deep_view(), uuid@),
            server_wf(final(self).deep_view()),
    {
        let ghost m = old(self).deep_view();
        if self.call.is_none() {
            let mut v: Vec<String> = Vec::new();
            v.push(uuid.clone());
            let ghost vd = v.deep_view();
            self.call = Some(v);
            proof {
                assert(vd =~= seq![uuid@]);
                assert(self.deep_view() =~~= spec_voip_connect(m, uuid@));
            }
        } else {
            let present = match &self.call {
                Some(r) => contains_string(r, uuid),
                None => false,
            };
            if present {
                proof {
                    assert(self.deep_view() =~~= spec_voip_connect(m, uuid@));
                }
            } else {
                let nr = match &self.call {
                    Some(r) => {
                        let mut c = clone_string_vec(r);
                        c.push(uuid.clone());
                        c
                    },
                    None => Vec::new(),
                };
                let ghost r0 = match m.call {
                    Some(r) => r,
                    None => Seq::empty(),
                };
                let ghost nrd = nr.deep_view();
                self.call = Some(nr);
                proof {
                    assert(nrd =~~= r0.push(uuid@));
                    assert(self.deep_view() =~~= spec_voip_connect(m, uuid@));
                    assert forall|i2: int, j2: int|
                        0 <= i2 < j2 < nrd.len() implies nrd[i2] != nrd[j2] by {
                        if j2 == r0.len() {
                            assert(!r0.contains(uuid@));
                            assert(r0[i2] == nrd[i2]);
                        }
                    }
                }
            }
        }
    }

    /// A client leaves the voice call; when the last one leaves, the
    /// roster closes.  A client not on the roster is tolerated.
    #[verifier::loop_isolation(false)]
    pub fn voip_disconnect(&mut self, uuid: &String)
        requires
            server_wf(old(self).deep_view()),
        ensures
            final(self).deep_view() == spec_voip_disconnect(old(self).deep_view(), uuid@),
            server_wf(final(self).deep_view()),
    {
        let ghost m = old(self).deep_view();
        if self.call.is_none() {
            proof {
                assert(self.deep_view() =~~= spec_voip_disconnect(m, uuid@));
            }
            return ;
        }
        let ghost r0 = match m.call {
            Some(r) => r,
            None => Seq::empty(),
        };
        let ghost pa = str_is(uuid@);
        let n = match &self.call {
            Some(ro) => ro.len(),
            None => 0,
        };
        let mut a: usize = 0;
        let mut found = false;
        while a < n
            invariant
                *self == *old(self),
                self.call is Some,
                a <= n,
                !found,
                forall|j: int| 0 <= j < a ==> !pa(#[trigger] r0[j]),
            decreases n - a,
        {
            let hit = match &self.call {
                Some(ro) => ro[a] == *uuid,
                None => false,
            };
            if hit {
                proof {
                    assert(pa(r0[a as int]));
                }
                found = true;
                break ;
            }
            a += 1;
        }
        if !found {
            proof {
                lemma_spec_find(r0, pa);
                assert(spec_find(r0, pa) is None);
                assert(spec_remove_author(r0, uuid@) == r0);
                assert(self.deep_view() =~~= spec_voip_disconnect(m, uuid@));
            }
            return ;
        }
        proof {
            lemma_spec_find_agrees(r0, pa, a as int);
            r0.remove_ensures(a as int);
        }
        if n == 1 {
            self.call = None;
            proof {
                assert(spec_remove_author(r0, uuid@).len() == 0);
                assert(self.deep_view() =~~= spec_voip_disconnect(m, uuid@));
            }
        } else {
            let nr = match &self.call {
                Some(ro) => clone_string_vec_except(ro, a),
                None => Vec::new(),
            };
            let ghost nrd = nr.deep_view();
            self.call = Some(nr);
            proof {
                assert(nrd == r0.remove(a as int));
                assert(spec_remove_author(r0, uuid@) == r0.remove(a as int));
                assert(nrd.len() == n - 1);
                assert(self.deep_view() =~~= spec_voip_disconnect(m, uuid@));
                assert forall|i2: int, j2: int|
                    0 <= i2 < j2 < nrd.len() implies nrd[i2] != nrd[j2] by {
                    if j2 < a as int {
                        assert(nrd[i2] == r0[i2] && nrd[j2] == r0[j2]);
                    } else if i2 < a as int {
                        assert(nrd[i2] == r0[i2] && nrd[j2] == r0[j2 + 1]);
                    } else {
                        assert(nrd[i2] == r0[i2 + 1] && nrd[j2] == r0[j2 + 1]);
                    }
                }
            }
        }
    }

    /// Registers or refreshes a connected client's profile.
    #[verifier::loop_isolation(false)]
    pub fn set_profile(&mut self, uuid: String, username: String, picture: Vec<u8>)
        requires
            server_wf(old(self).deep_view()),
        ensures
            final(self).deep_view() == spec_set_profile(
                old(self).deep_view(),
                ProfileModel { uuid: uuid@, username: username@, picture: picture@ },
            ),
            server_wf(final(self).deep_view()),
    {
        let ghost m = old(self).deep_view();
        let ghost pp = profile_uuid_is(uuid@);
        let ghost np = ProfileModel { uuid: uuid@, username: username@, picture: picture@ };
        let n = self.profiles.len();
        let mut k: usize = 0;
        let mut found = false;
        while k < n
            invariant
                *self == *old(self),
                k <= n,
                !found,
                forall|j: int| 0 <= j < k ==> !pp(#[trigger] m.profiles[j]),
            decreases n - k,
        {
            if self.profiles[k].uuid == uuid {
                proof {
                    assert(pp(m.profiles[k as int]));
                }
                found = true;
                break ;
            }
            k += 1;
        }
        let entry = ProfileEntry { uuid, username, picture };
        if found {
            proof {
                lemma_spec_find_agrees(m.profiles, pp, k as int);
            }
            self.profiles[k] = entry;
            proof {
                assert(self.profiles.deep_view() =~~= m.profiles.update(k as int, np));
                assert(self.deep_view() =~~= spec_set_profile(m, np));
                let s2 = self.deep_view().profiles;
                assert forall|i2: int, j2: int|
                    0 <= i2 < j2 < s2.len() implies (#[trigger] s2[i2]).uuid != (
                #[trigger] s2[j2]).uuid by {
                    assert(s2[i2].uuid == m.profiles[i2].uuid);
                    assert(s2[j2].uuid == m.profiles[j2].uuid);
                }
            }
        } else {
            proof {
                lemma_spec_find(m.profiles, pp);
                assert(spec_find(m.profiles, pp) is None);
            }
            self.profiles.push(entry);
            proof {
                assert(self.profiles.deep_view() =~~= m.profiles.push(np));
                assert(self.deep_view() =~~= spec_set_profile(m, np));
                let s2 = self.deep_view().profiles;
                assert forall|i2: int, j2: int|
                    0 <= i2 < j2 < s2.len() implies (#[trigger] s2[i2]).uuid != (
                #[trigger] s2[j2]).uuid by {
                    if j2 == m.profiles.len() {
                        assert(!pp(m.profiles[i2]));
                    }
                }
            }
        }
    }

    /// Returns the profile a client has registered, if any.
    #[verifier::loop_isolation(false)]
    pub fn fetch_profile(&self, uuid: &String) -> (r: Option<&ProfileEntry>)
        ensures
            match spec_find(self.deep_view().profiles, profile_uuid_is(uuid@)) {
                Some(i) => r matches Some(p) && p.deep_view() == self.deep_view().profiles[i],
                None => r is None,
            },
    {
        let ghost m = self.deep_view();
        let ghost pp = profile_uuid_is(uuid@);
        let mut k: usize = 0;
        while k < self.profiles.len()
            invariant
                k <= self.profiles@.len(),
                forall|j: int| 0 <= j < k ==> !pp(#[trigger] m.profiles[j]),
            decreases self.profiles@.len() - k,
        {
            if self.profiles[k].uuid == *uuid {
                proof {
                    assert(pp(m.profiles[k as int]));
                    lemma_spec_find_agrees(m.profiles, pp, k as int);
                }
                return Some(&self.profiles[k]);
            }
            k += 1;
        }
        proof {
            lemma_spec_find(m.profiles, pp);
        }
        None
    }
}

// ---------------------------------------------------------------
// Laws
// ---------------------------------------------------------------
/// A delete is terminal.  Once an edit has deleted an entry, the
/// entry is the `Deleted` marker, and every later edit of that
/// index — by anyone, with or without text — is refused and changes
/// nothing: the message cannot be revived.
pub proof fn lemma_delete_terminal(
    m: ServerModel,
    author: Seq<char>,
    index: int,
    requester2: Seq<char>,
    new_text2: Option<Seq<char>>,
)
    requires
        spec_edit(m, author, index, None).1 is Ok,
    ensures
        spec_edit(m, author, index, None).0.log[index].payload is Deleted,
        spec_edit(spec_edit(m, author, index, None).0, requester2, index, new_text2).0
            == spec_edit(m, author, index, None).0,
        spec_edit(spec_edit(m, author, index, None).0, requester2, index, new_text2).1 is Err,
{
    let m1 = spec_edit(m, author, index, None).0;
    assert(m1.log[index].payload is Deleted);
}

/// Sync is idempotent.  Two syncs with the same `have_count` and the
/// same reported index return the same tail, and the second leaves
/// the server exactly as the first left it.
pub proof fn lemma_sync_idempotent(
    m: ServerModel,
    uuid: Seq<char>,
    have_count: int,
    last: Option<usize>,
)
    ensures
        spec_sync(spec_sync(m, uuid, have_count, last).0, uuid, have_count, last).1 == spec_sync(
            m,
            uuid,
            have_count,
            last,
        ).1,
        spec_sync(spec_sync(m, uuid, have_count, last).0, uuid, have_count, last).0 == spec_sync(
            m,
            uuid,
            have_count,
            last,
        ).0,
{
    let m1 = spec_sync(m, uuid, have_count, last).0;
    let p = seen_uuid_is(uuid);
    match last {
        None => {
            assert(m1 =~= m);
        },
        Some(idx) => {
            lemma_spec_find(m.seen, p);
            match spec_find(m.seen, p) {
                Some(i) => {
                    if m.seen[i].index < idx {
                        let s1 = m.seen.update(i, SeenModel { uuid: m.seen[i].uuid, index: idx });
                        assert(p(s1[i]));
                        assert forall|j: int| 0 <= j < i implies !p(#[trigger] s1[j]) by {
                            assert(s1[j] == m.seen[j]);
                        }
                        lemma_spec_find_agrees(s1, p, i);
                        assert(spec_seen_update(s1, uuid, last) == s1);
                        assert(spec_sync(m1, uuid, have_count, last).0 =~= m1);
                    } else {
                        assert(m1 =~= m);
                    }
                },
                None => {
                    let s1 = m.seen.push(SeenModel { uuid, index: idx });
                    assert(p(s1[m.seen.len() as int]));
                    assert forall|j: int| 0 <= j < m.seen.len() implies !p(#[trigger] s1[j]) by {
                        assert(s1[j] == m.seen[j]);
                    }
                    lemma_spec_find_agrees(s1, p, m.seen.len() as int);
                    assert(spec_seen_update(s1, uuid, last) == s1);
                    assert(spec_sync(m1, uuid, have_count, last).0 =~= m1);
                },
            }
        },
    }
}

/// Adding the same reaction twice is the same as adding it once: the
/// author joins the emoji's list on the first add, and the second
/// finds it there and changes nothing.
pub proof fn lemma_reaction_add_idempotent(
    row: Seq<ReactionModel>,
    emoji: Seq<char>,
    author: Seq<char>,
)
    ensures
        spec_row_add(spec_row_add(row, emoji, author), emoji, author) == spec_row_add(
            row,
            emoji,
            author,
        ),
{
    let p = emoji_is(emoji);
    let r1 = spec_row_add(row, emoji, author);
    lemma_spec_find(row, p);
    match spec_find(row, p) {
        Some(i) => {
            if row[i].authors.contains(author) {
            } else {
                assert(p(r1[i]));
                assert forall|j: int| 0 <= j < i implies !p(#[trigger] r1[j]) by {
                    assert(r1[j] == row[j]);
                }
                lemma_spec_find_agrees(r1, p, i);
                assert(r1[i].authors[row[i].authors.len() as int] == author);
                assert(r1[i].authors.contains(author));
            }
        },
        None => {
            assert(p(r1[row.len() as int]));
            assert forall|j: int| 0 <= j < row.len() implies !p(#[trigger] r1[j]) by {
                assert(r1[j] == row[j]);
            }
            lemma_spec_find_agrees(r1, p, row.len() as int);
            assert(r1[row.len() as int].authors[0] == author);
            assert(r1[row.len() as int].authors.contains(author));
        },
    }
}

} // verus!
