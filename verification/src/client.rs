//! The client's mirror of the server state, and the application of
//! broadcast events to it.  The receive task is the mirror's only
//! writer: every frame the server broadcasts is applied here, and
//! the laws below say that a client that was in step with the
//! server stays in step, and that a lagging client catches up with
//! one sync.

use vstd::prelude::*;

use crate::message::{EntryModel, MessageEntry, Payload, PayloadModel, ReactionEntry,
    ReactionModel, SeenEntry, SeenModel, clone_reaction_row, clone_reaction_row_except,
    clone_string_vec, clone_string_vec_except, contains_string, emoji_is, lemma_spec_find,
    row_wf, spec_find, str_is};
use crate::server::{ServerModel, lemma_spec_find_agrees, server_wf, spec_append, spec_edit,
    spec_react_add, spec_react_remove, spec_remove_author, spec_row_add, spec_row_remove,
    spec_sync_tail, spec_voip_connect, spec_voip_disconnect};

verus! {

/// The client-owned mirror: a view of the server's log, reaction
/// table, seen table and call roster.
pub struct ClientState {
    pub log: Vec<MessageEntry>,
    pub reactions: Vec<Vec<ReactionEntry>>,
    pub seen: Vec<SeenEntry>,
    pub call: Option<Vec<String>>,
}

/// The model of the client state.
#[verifier::ext_equal]
pub struct ClientModel {
    pub log: Seq<EntryModel>,
    pub reactions: Seq<Seq<ReactionModel>>,
    pub seen: Seq<SeenModel>,
    pub call: Option<Seq<Seq<char>>>,
}

impl DeepView for ClientState {
    type V = ClientModel;

    open spec fn deep_view(&self) -> ClientModel {
        ClientModel {
            log: self.log.deep_view(),
            reactions: self.reactions.deep_view(),
            seen: self.seen.deep_view(),
            call: match &self.call {
                Some(r) => Some(r.deep_view()),
                None => None,
            },
        }
    }
}

/// Well-formedness of the mirror: the reaction table runs parallel
/// to the log and every row is well formed.
pub open spec fn client_wf(c: ClientModel) -> bool {
    &&& c.log.len() == c.reactions.len()
    &&& forall|i: int| 0 <= i < c.reactions.len() ==> row_wf(#[trigger] c.reactions[i])
}

/// One broadcast event, as the receive task hands it to the mirror.
pub enum ServerEvent {
    /// A new log entry (a normal message, an upload, or a resupplied
    /// entry during sync).
    Append { entry: MessageEntry },
    /// An accepted edit or delete of an existing entry.
    Edit { index: usize, new_text: Option<String> },
    /// An accepted reaction delta.
    ReactionAdd { index: usize, emoji: String, author: String },
    ReactionRemove { index: usize, emoji: String, author: String },
    /// A fresh call-roster snapshot.
    Voip { connected: Option<Vec<String>> },
}

/// The model of a broadcast event.
#[verifier::ext_equal]
pub enum EventModel {
    Append { entry: EntryModel },
    Edit { index: usize, new_text: Option<Seq<char>> },
    ReactionAdd { index: usize, emoji: Seq<char>, author: Seq<char> },
    ReactionRemove { index: usize, emoji: Seq<char>, author: Seq<char> },
    Voip { connected: Option<Seq<Seq<char>>> },
}

impl DeepView for ServerEvent {
    type V = EventModel;

    open spec fn deep_view(&self) -> EventModel {
        match self {
            ServerEvent::Append { entry } => EventModel::Append { entry: entry.deep_view() },
            ServerEvent::Edit { index, new_text } => EventModel::Edit {
                index: *index,
                new_text: new_text.deep_view(),
            },
            ServerEvent::ReactionAdd { index, emoji, author } => EventModel::ReactionAdd {
                index: *index,
                emoji: emoji@,
                author: author@,
            },
            ServerEvent::ReactionRemove { index, emoji, author } => EventModel::ReactionRemove {
                index: *index,
                emoji: emoji@,
                author: author@,
            },
            ServerEvent::Voip { connected } => EventModel::Voip {
                connected: match connected {
                    Some(v) => Some(v.deep_view()),
                    None => None,
                },
            },
        }
    }
}

/// What one broadcast event does to the mirror.  An index that the
/// mirror does not hold yet, or an edit of anything but a normal
/// message, is discarded: a later sync resupplies the entry.
pub open spec fn spec_client_apply(c: ClientModel, ev: EventModel) -> ClientModel {
    match ev {
        EventModel::Append { entry } => ClientModel {
            log: c.log.push(entry),
            reactions: c.reactions.push(Seq::empty()),
            ..c
        },
        EventModel::Edit { index, new_text } => {
            if index < c.log.len() && c.log[index as int].payload is Normal {
                let e = c.log[index as int];
                let p2 = match new_text {
                    Some(t) => PayloadModel::Normal { text: t, edited: true },
                    None => PayloadModel::Deleted,
                };
                ClientModel {
                    log: c.log.update(index as int, EntryModel { payload: p2, ..e }),
                    ..c
                }
            } else {
                c
            }
        },
        EventModel::ReactionAdd { index, emoji, author } => {
            if index < c.reactions.len() {
                ClientModel {
                    reactions: c.reactions.update(
                        index as int,
                        spec_row_add(c.reactions[index as int], emoji, author),
                    ),
                    ..c
                }
            } else {
                c
            }
        },
        EventModel::ReactionRemove { index, emoji, author } => {
            if index < c.reactions.len() {
                ClientModel {
                    reactions: c.reactions.update(
                        index as int,
                        spec_row_remove(c.reactions[index as int], emoji, author),
                    ),
                    ..c
                }
            } else {
                c
            }
        },
        EventModel::Voip { connected } => ClientModel { call: connected, ..c },
    }
}

impl ClientState {
    /// A fresh mirror, before anything has been received.
    pub fn new() -> (r: ClientState)
        ensures
            r.deep_view() == (ClientModel {
                log: Seq::empty(),
                reactions: Seq::empty(),
                seen: Seq::empty(),
                call: None,
            }),
            client_wf(r.deep_view()),
    {
        let r = ClientState { log: Vec::new(), reactions: Vec::new(), seen: Vec::new(), call: None };
        proof {
            assert(r.log.deep_view() =~= Seq::<EntryModel>::empty());
            assert(r.reactions.deep_view() =~= Seq::<Seq<ReactionModel>>::empty());
            assert(r.seen.deep_view() =~= Seq::<SeenModel>::empty());
        }
        r
    }

    /// Replaces the seen table with the list the server sent along
    /// with the latest frame.
    pub fn set_seen_list(&mut self, seen: Vec<SeenEntry>)
        ensures
            final(self).deep_view() == (ClientModel {
                seen: seen.deep_view(),
                ..old(self).deep_view()
            }),
    {
        self.seen = seen;
        proof {
            assert(self.deep_view() =~~= (ClientModel {
                seen: self.seen.deep_view(),
                ..old(self).deep_view()
            }));
        }
    }

    /// Applies one broadcast event to the mirror.
    #[verifier::loop_isolation(false)]
    pub fn apply_event(&mut self, ev: ServerEvent)
        requires
            client_wf(old(self).deep_view()),
        ensures
            final(self).deep_view() == spec_client_apply(old(self).deep_view(), ev.deep_view()),
            client_wf(final(self).deep_view()),
    {
        let ghost c = old(self).deep_view();
        let ghost evm = ev.deep_view();
        match ev {
            ServerEvent::Append { entry } => {
                let ghost e = entry.deep_view();
                self.log.push(entry);
                self.reactions.push(Vec::new());
                proof {
                    assert(self.log.deep_view() =~~= c.log.push(e));
                    assert(self.reactions.deep_view() =~~= c.reactions.push(Seq::empty()));
                    assert(self.deep_view() =~~= spec_client_apply(c, evm));
                    assert forall|i: int|
                        0 <= i < self.deep_view().reactions.len() implies row_wf(
                        #[trigger] self.deep_view().reactions[i],
                    ) by {
                        if i < c.reactions.len() {
                            assert(self.deep_view().reactions[i] == c.reactions[i]);
                        } else {
                            assert(self.deep_view().reactions[i] =~= Seq::<
                                ReactionModel,
                            >::empty());
                        }
                    }
                }
            },
            ServerEvent::Edit { index, new_text } => {
                if index >= self.log.len() {
                    proof {
                        assert(self.deep_view() =~~= spec_client_apply(c, evm));
                    }
                    return ;
                }
                let is_normal = matches!(self.log[index].payload, Payload::Normal { .. });
                if !is_normal {
                    proof {
                        assert(self.deep_view() =~~= spec_client_apply(c, evm));
                    }
                    return ;
                }
                let author = self.log[index].author.clone();
                let author_name = self.log[index].author_name.clone();
                let date = self.log[index].date.clone();
                let replying_to = self.log[index].replying_to;
                let payload = match new_text {
                    Some(t) => Payload::Normal { text: t, edited: true },
                    None => Payload::Deleted,
                };
                let entry = MessageEntry { author, author_name, date, replying_to, payload };
                let ghost e2 = entry.deep_view();
                self.log[index] = entry;
                proof {
                    assert(self.log.deep_view() =~~= c.log.update(index as int, e2));
                    assert(self.deep_view() =~~= spec_client_apply(c, evm));
                }
            },
            ServerEvent::ReactionAdd { index, emoji, author } => {
                if index >= self.reactions.len() {
                    proof {
                        assert(self.deep_view() =~~= spec_client_apply(c, evm));
                    }
                    return ;
                }
                let new_row = row_add(&self.reactions[index], &emoji, &author);
                self.reactions[index] = new_row;
                proof {
                    let row = c.reactions[index as int];
                    assert(self.reactions.deep_view() =~~= c.reactions.update(
                        index as int,
                        spec_row_add(row, emoji@, author@),
                    ));
                    assert(self.deep_view() =~~= spec_client_apply(c, evm));
                    crate::server::lemma_row_add_wf(row, emoji@, author@);
                    assert forall|i2: int|
                        0 <= i2 < self.deep_view().reactions.len() implies row_wf(
                        #[trigger] self.deep_view().reactions[i2],
                    ) by {
                        if i2 != index as int {
                            assert(self.deep_view().reactions[i2] == c.reactions[i2]);
                        }
                    }
                }
            },
            ServerEvent::ReactionRemove { index, emoji, author } => {
                if index >= self.reactions.len() {
                    proof {
                        assert(self.deep_view() =~~= spec_client_apply(c, evm));
                    }
                    return ;
                }
                let new_row = row_remove(&self.reactions[index], &emoji, &author);
                self.reactions[index] = new_row;
                proof {
                    let row = c.reactions[index as int];
                    assert(self.reactions.deep_view() =~~= c.reactions.update(
                        index as int,
                        spec_row_remove(row, emoji@, author@),
                    ));
                    assert(self.deep_view() =~~= spec_client_apply(c, evm));
                    crate::server::lemma_row_remove_wf(row, emoji@, author@);
                    assert forall|i2: int|
                        0 <= i2 < self.deep_view().reactions.len() implies row_wf(
                        #[trigger] self.deep_view().reactions[i2],
                    ) by {
                        if i2 != index as int {
                            assert(self.deep_view().reactions[i2] == c.reactions[i2]);
                        }
                    }
                }
            },
            ServerEvent::Voip { connected } => {
                self.call = connected;
                proof {
                    assert(self.deep_view() =~~= spec_client_apply(c, evm));
                }
            },
        }
    }
}

/// Adds a reaction to a copy of one row, as the row-add transition
/// describes.
#[verifier::loop_isolation(false)]
fn row_add(row: &Vec<ReactionEntry>, emoji: &String, author: &String) -> (r: Vec<ReactionEntry>)
    ensures
        r.deep_view() == spec_row_add(row.deep_view(), emoji@, author@),
{
    let ghost rowm = row.deep_view();
    let ghost pe = emoji_is(emoji@);
    let mut k: usize = 0;
    let mut found = false;
    while k < row.len()
        invariant
            k <= row@.len(),
            !found,
            forall|j: int| 0 <= j < k ==> !pe(#[trigger] rowm[j]),
        decreases row@.len() - k,
    {
        if row[k].emoji == *emoji {
            proof {
                assert(pe(rowm[k as int]));
            }
            found = true;
            break ;
        }
        k += 1;
    }
    if found {
        proof {
            lemma_spec_find_agrees(rowm, pe, k as int);
        }
        if contains_string(&row[k].authors, author) {
            let r = clone_reaction_row(row);
            proof {
                assert(r.deep_view() == spec_row_add(rowm, emoji@, author@));
            }
            return r;
        }
        let mut nr = clone_reaction_row(row);
        let mut authors = clone_string_vec(&nr[k].authors);
        authors.push(author.clone());
        let entry = ReactionEntry { emoji: nr[k].emoji.clone(), authors };
        nr[k] = entry;
        proof {
            assert(nr.deep_view() =~~= spec_row_add(rowm, emoji@, author@));
        }
        nr
    } else {
        proof {
            lemma_spec_find(rowm, pe);
            assert(spec_find(rowm, pe) is None);
        }
        let mut nr = clone_reaction_row(row);
        let mut authors: Vec<String> = Vec::new();
        authors.push(author.clone());
        let ghost av = authors.deep_view();
        nr.push(ReactionEntry { emoji: emoji.clone(), authors });
        proof {
            assert(av =~= seq![author@]);
            assert(nr.deep_view() =~~= spec_row_add(rowm, emoji@, author@));
        }
        nr
    }
}

/// Removes a reaction from a copy of one row, as the row-remove
/// transition describes.
#[verifier::loop_isolation(false)]
fn row_remove(row: &Vec<ReactionEntry>, emoji: &String, author: &String) -> (r: Vec<ReactionEntry>)
    ensures
        r.deep_view() == spec_row_remove(row.deep_view(), emoji@, author@),
{
    let ghost rowm = row.deep_view();
    let ghost pe = emoji_is(emoji@);
    let mut k: usize = 0;
    let mut found = false;
    while k < row.len()
        invariant
            k <= row@.len(),
            !found,
            forall|j: int| 0 <= j < k ==> !pe(#[trigger] rowm[j]),
        decreases row@.len() - k,
    {
        if row[k].emoji == *emoji {
            proof {
                assert(pe(rowm[k as int]));
            }
            found = true;
            break ;
        }
        k += 1;
    }
    if !found {
        proof {
            lemma_spec_find(rowm, pe);
            assert(spec_find(rowm, pe) is None);
        }
        let r = clone_reaction_row(row);
        proof {
            assert(r.deep_view() == spec_row_remove(rowm, emoji@, author@));
        }
        return r;
    }
    proof {
        lemma_spec_find_agrees(rowm, pe, k as int);
    }
    let ghost oa = rowm[k as int].authors;
    let ghost pa = str_is(author@);
    let authors_len = row[k].authors.len();
    let mut a: usize = 0;
    let mut afound = false;
    while a < authors_len
        invariant
            a <= authors_len,
            !afound,
            forall|j: int| 0 <= j < a ==> !pa(#[trigger] oa[j]),
        decreases authors_len - a,
    {
        if row[k].authors[a] == *author {
            proof {
                assert(pa(oa[a as int]));
            }
            afound = true;
            break ;
        }
        a += 1;
    }
    if !afound {
        proof {
            lemma_spec_find(oa, pa);
            assert(spec_find(oa, pa) is None);
            assert(spec_remove_author(oa, author@) == oa);
        }
        let r = clone_reaction_row(row);
        proof {
            assert(r.deep_view() == spec_row_remove(rowm, emoji@, author@));
        }
        return r;
    }
    proof {
        lemma_spec_find_agrees(oa, pa, a as int);
        oa.remove_ensures(a as int);
        assert(spec_remove_author(oa, author@) == oa.remove(a as int));
        assert(spec_remove_author(oa, author@).len() == oa.len() - 1);
        assert(spec_remove_author(oa, author@) != oa);
    }
    if authors_len == 1 {
        let r = clone_reaction_row_except(row, k);
        proof {
            assert(spec_remove_author(oa, author@).len() == 0);
            assert(r.deep_view() == spec_row_remove(rowm, emoji@, author@));
        }
        r
    } else {
        let authors = clone_string_vec_except(&row[k].authors, a);
        let entry = ReactionEntry { emoji: row[k].emoji.clone(), authors };
        let mut nr = clone_reaction_row(row);
        nr[k] = entry;
        proof {
            assert(nr.deep_view() =~~= rowm.update(
                k as int,
                ReactionModel {
                    emoji: rowm[k as int].emoji,
                    authors: spec_remove_author(oa, author@),
                },
            ));
            assert(nr.deep_view() == spec_row_remove(rowm, emoji@, author@));
        }
        nr
    }
}

/// Whether the periodic sync task owes the server a request this
/// tick: only when the highest seen index has advanced past what
/// was last reported.
pub open spec fn spec_sync_due(reported: Option<usize>, last_seen: usize) -> bool {
    match reported {
        None => true,
        Some(v) => v < last_seen,
    }
}

/// Decides one tick of the sync loop.
pub fn sync_due(reported: Option<usize>, last_seen: usize) -> (r: bool)
    ensures
        r == spec_sync_due(reported, last_seen),
{
    match reported {
        None => true,
        Some(v) => v < last_seen,
    }
}

// ---------------------------------------------------------------
// Laws: the mirror follows the server
// ---------------------------------------------------------------
/// The part of the server state a synced client sees.
pub open spec fn client_view_of(s: ServerModel) -> ClientModel {
    ClientModel { log: s.log, reactions: s.reactions, seen: s.seen, call: s.call }
}

/// A client in step stays in step through an accepted append: the
/// server appends the entry, the client applies the broadcast, and
/// the two agree again.
pub proof fn lemma_replicate_append(s: ServerModel, e: EntryModel)
    ensures
        spec_client_apply(client_view_of(s), EventModel::Append { entry: e }) == client_view_of(
            spec_append(s, e),
        ),
{
    assert(spec_client_apply(client_view_of(s), EventModel::Append { entry: e }) =~= client_view_of(
        spec_append(s, e),
    ));
}

/// A client in step stays in step through an accepted edit.
pub proof fn lemma_replicate_edit(
    s: ServerModel,
    requester: Seq<char>,
    index: usize,
    new_text: Option<Seq<char>>,
)
    requires
        spec_edit(s, requester, index as int, new_text).1 is Ok,
    ensures
        spec_client_apply(client_view_of(s), EventModel::Edit { index, new_text })
            == client_view_of(spec_edit(s, requester, index as int, new_text).0),
{
    assert(spec_client_apply(client_view_of(s), EventModel::Edit { index, new_text })
        =~= client_view_of(spec_edit(s, requester, index as int, new_text).0));
}

/// A client in step stays in step through an accepted reaction-add.
pub proof fn lemma_replicate_reaction_add(
    s: ServerModel,
    author: Seq<char>,
    index: usize,
    emoji: Seq<char>,
)
    requires
        server_wf(s),
        spec_react_add(s, author, index as int, emoji).1 is Ok,
    ensures
        spec_client_apply(
            client_view_of(s),
            EventModel::ReactionAdd { index, emoji, author },
        ) == client_view_of(spec_react_add(s, author, index as int, emoji).0),
{
    assert(spec_client_apply(client_view_of(s), EventModel::ReactionAdd { index, emoji, author })
        =~= client_view_of(spec_react_add(s, author, index as int, emoji).0));
}

/// A client in step stays in step through an accepted
/// reaction-remove.
pub proof fn lemma_replicate_reaction_remove(
    s: ServerModel,
    author: Seq<char>,
    index: usize,
    emoji: Seq<char>,
)
    requires
        server_wf(s),
        spec_react_remove(s, author, index as int, emoji).1 is Ok,
    ensures
        spec_client_apply(
            client_view_of(s),
            EventModel::ReactionRemove { index, emoji, author },
        ) == client_view_of(spec_react_remove(s, author, index as int, emoji).0),
{
    assert(spec_client_apply(
        client_view_of(s),
        EventModel::ReactionRemove { index, emoji, author },
    ) =~= client_view_of(spec_react_remove(s, author, index as int, emoji).0));
}

/// A client in step stays in step through a call join or leave,
/// provided the seen table rides along as it does on every frame.
pub proof fn lemma_replicate_voip(s: ServerModel, uuid: Seq<char>)
    ensures
        spec_client_apply(
            client_view_of(s),
            EventModel::Voip { connected: spec_voip_connect(s, uuid).call },
        ) == client_view_of(spec_voip_connect(s, uuid)),
        spec_client_apply(
            client_view_of(s),
            EventModel::Voip { connected: spec_voip_disconnect(s, uuid).call },
        ) == client_view_of(spec_voip_disconnect(s, uuid)),
{
    assert(spec_client_apply(
        client_view_of(s),
        EventModel::Voip { connected: spec_voip_connect(s, uuid).call },
    ) =~= client_view_of(spec_voip_connect(s, uuid)));
    assert(spec_client_apply(
        client_view_of(s),
        EventModel::Voip { connected: spec_voip_disconnect(s, uuid).call },
    ) =~= client_view_of(spec_voip_disconnect(s, uuid)));
}

/// The events a sync's resupply tail turns into: one append each.
pub open spec fn appends_of(tail: Seq<EntryModel>) -> Seq<EventModel> {
    tail.map_values(|e: EntryModel| EventModel::Append { entry: e })
}

/// Applying a sequence of events in order.
pub open spec fn spec_apply_all(c: ClientModel, evs: Seq<EventModel>) -> ClientModel
    decreases evs.len(),
{
    if evs.len() == 0 {
        c
    } else {
        spec_apply_all(spec_client_apply(c, evs[0]), evs.skip(1))
    }
}

/// One sync makes a lagging log whole.  If the client's log is a
/// prefix of the server's and it asks for everything from its own
/// length on, applying the returned tail leaves its log equal to
/// the server's — and nothing but appends happen to it.
pub proof fn lemma_sync_catchup(s: ServerModel, c: ClientModel)
    requires
        c.log.len() <= s.log.len(),
        c.log == s.log.take(c.log.len() as int),
    ensures
        spec_apply_all(c, appends_of(spec_sync_tail(s.log, c.log.len() as int))).log == s.log,
    decreases s.log.len() - c.log.len(),
{
    let k = c.log.len() as int;
    let tail = spec_sync_tail(s.log, k);
    let evs = appends_of(tail);
    if c.log.len() == s.log.len() {
        assert(tail =~= Seq::<EntryModel>::empty());
        assert(evs =~= Seq::<EventModel>::empty());
        assert(c.log =~= s.log);
    } else {
        assert(tail == s.log.skip(k));
        assert(evs[0] == (EventModel::Append { entry: s.log[k] }));
        let c2 = spec_client_apply(c, evs[0]);
        assert(c2.log =~= s.log.take(k + 1));
        assert(evs.skip(1) =~= appends_of(spec_sync_tail(s.log, k + 1)));
        lemma_sync_catchup(s, c2);
    }
}

/// Authors never move.  The mirror's log agrees with the server's
/// log on every author it holds; an accepted edit — the only
/// operation that touches an existing entry — changes text, never
/// authorship, on either side.
pub open spec fn authors_match(clog: Seq<EntryModel>, slog: Seq<EntryModel>) -> bool {
    &&& clog.len() <= slog.len()
    &&& forall|i: int| 0 <= i < clog.len() ==> (#[trigger] clog[i]).author == slog[i].author
}

/// An edit, applied on the server and mirrored on the client,
/// preserves the author agreement — whatever the texts do.
pub proof fn lemma_authors_match_edit(
    c: ClientModel,
    s: ServerModel,
    requester: Seq<char>,
    index: usize,
    new_text: Option<Seq<char>>,
)
    requires
        authors_match(c.log, s.log),
    ensures
        authors_match(
            spec_client_apply(c, EventModel::Edit { index, new_text }).log,
            spec_edit(s, requester, index as int, new_text).0.log,
        ),
{
    let clog2 = spec_client_apply(c, EventModel::Edit { index, new_text }).log;
    let slog2 = spec_edit(s, requester, index as int, new_text).0.log;
    assert(clog2.len() == c.log.len());
    assert(slog2.len() == s.log.len());
    assert forall|i: int| 0 <= i < clog2.len() implies (#[trigger] clog2[i]).author
        == slog2[i].author by {
        assert(clog2[i].author == c.log[i].author);
        assert(slog2[i].author == s.log[i].author);
    }
}

} // verus!
