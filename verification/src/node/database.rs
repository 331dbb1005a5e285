//! Database nodes: a store of JSON documents keyed by integer id, and
//! the five calls a database answers.  Every call in the inbound queue
//! produces exactly one answer carrying the call's trace id.

use vstd::prelude::*;
use vstd::string::StringExecFns;
use crate::json::{jval, obj_lookup, JVal, JsonValue};
use crate::message::{
    DatabaseCallType, DatabaseCallTypeV, Message, MessageComponent, MessageComponentV,
    SendMessageEvent, SendMessageEventV,
};

verus! {

broadcast use vstd::std_specs::vec::group_vec_axioms, vstd::seq::group_seq_axioms;

/// The database state machine's states.
#[derive(Clone, Copy, Debug, PartialEq, Eq, Structural)]
pub enum DatabaseState {
    SimulationNotStarted,
    Active,
}

/// The position of the document with identifier `id`.
pub open spec fn store_index(docs: Seq<(i64, JVal)>, id: i64) -> Option<int>
    decreases docs.len(),
{
    if docs.len() == 0 {
        None
    } else if docs[0].0 == id {
        Some(0int)
    } else {
        match store_index(docs.subrange(1, docs.len() as int), id) {
            Some(i) => Some(i + 1),
            None => None,
        }
    }
}

/// The document stored under `id`, if any.
pub open spec fn store_lookup(docs: Seq<(i64, JVal)>, id: i64) -> Option<JVal> {
    match store_index(docs, id) {
        Some(i) => Some(docs[i].1),
        None => None,
    }
}

/// What `store_index` says, member by member.
pub proof fn lemma_store_index(docs: Seq<(i64, JVal)>, id: i64)
    ensures
        match store_index(docs, id) {
            Some(i) => 0 <= i < docs.len() && docs[i].0 == id && forall|j: int|
                0 <= j < i ==> docs[j].0 != id,
            None => forall|j: int| 0 <= j < docs.len() ==> docs[j].0 != id,
        },
    decreases docs.len(),
{
    if docs.len() > 0 && docs[0].0 != id {
        let sub = docs.subrange(1, docs.len() as int);
        lemma_store_index(sub, id);
        assert forall|j: int| 1 <= j < docs.len() implies sub[j - 1] == docs[j] by {}
    }
}

/// `store_index` from its characterization.
pub proof fn lemma_store_index_value(docs: Seq<(i64, JVal)>, id: i64, k: int)
    requires
        0 <= k < docs.len(),
        docs[k].0 == id,
        forall|j: int| 0 <= j < k ==> docs[j].0 != id,
    ensures
        store_index(docs, id) == Some(k),
    decreases docs.len(),
{
    if k > 0 {
        let sub = docs.subrange(1, docs.len() as int);
        assert(sub[k - 1] == docs[k]);
        assert forall|j: int| 0 <= j < k - 1 implies sub[j].0 != id by {
            assert(sub[j] == docs[j + 1]);
        }
        lemma_store_index_value(sub, id, k - 1);
    }
}

/// `store_index` is `None` when no entry has the key.
pub proof fn lemma_store_index_none(docs: Seq<(i64, JVal)>, id: i64)
    requires
        forall|j: int| 0 <= j < docs.len() ==> docs[j].0 != id,
    ensures
        store_index(docs, id) is None,
    decreases docs.len(),
{
    if docs.len() > 0 {
        let sub = docs.subrange(1, docs.len() as int);
        assert forall|j: int| 0 <= j < sub.len() implies sub[j].0 != id by {
            assert(sub[j] == docs[j + 1]);
        }
        lemma_store_index_none(sub, id);
    }
}

/// Inserting or replacing the document under `id`.
pub open spec fn store_upsert(docs: Seq<(i64, JVal)>, id: i64, v: JVal) -> Seq<(i64, JVal)> {
    match store_index(docs, id) {
        Some(i) => docs.update(i, (id, v)),
        None => docs.push((id, v)),
    }
}

/// Removing the document under `id`, keeping the others in order.
pub open spec fn store_delete(docs: Seq<(i64, JVal)>, id: i64) -> Seq<(i64, JVal)> {
    match store_index(docs, id) {
        Some(i) => docs.subrange(0, i) + docs.subrange(i + 1, docs.len() as int),
        None => docs,
    }
}

/// The stored documents, in insertion order.
pub open spec fn store_values(docs: Seq<(i64, JVal)>) -> Seq<JVal> {
    Seq::new(docs.len(), |i: int| docs[i].1)
}

/// What `Save` does: a non-object cannot be saved; an object with an
/// `id` member is stored under that id if it is a 64-bit non-negative
/// integer; one without gets `id` = current document count appended and
/// is stored under it.  The saved document is echoed back.  The count is
/// taken as it stands, so after a `Delete` an auto-assigned id can
/// collide with a still-present document, which is then replaced: the
/// store makes no attempt to guard against that.
pub open spec fn save_spec(docs: Seq<(i64, JVal)>, doc: JVal) -> Option<(Seq<(i64, JVal)>, JVal)> {
    match doc {
        JVal::Obj(members) => match obj_lookup(members, "id"@) {
            Some(idv) => match idv {
                JVal::Int(n) => if 0 <= n < 0x8000000000000000 {
                    Some((store_upsert(docs, n as i64, doc), doc))
                } else {
                    None
                },
                _ => None,
            },
            None => if docs.len() < 0x8000000000000000 {
                let id = docs.len() as i64;
                let saved = JVal::Obj(members.push(("id"@, JVal::Int(id as int))));
                Some((store_upsert(docs, id, saved), saved))
            } else {
                None
            },
        },
        _ => None,
    }
}

/// The model of a database.
#[verifier::ext_equal]
pub struct DatabaseV {
    pub documents: Seq<(i64, JVal)>,
    pub state: DatabaseState,
    pub message_queue: Seq<MessageComponentV>,
    pub can_be_edited: bool,
}

/// A database node.
#[derive(Debug)]
pub struct Database {
    documents: Vec<(i64, JsonValue)>,
    state: DatabaseState,
    message_queue: Vec<MessageComponent>,
    can_be_edited: bool,
}

impl View for Database {
    type V = DatabaseV;

    closed spec fn view(&self) -> DatabaseV {
        DatabaseV {
            documents: Seq::new(
                self.documents@.len(),
                |i: int| (self.documents@[i].0, self.documents@[i].1@),
            ),
            state: self.state,
            message_queue: Seq::new(
                self.message_queue@.len(),
                |i: int| self.message_queue@[i]@,
            ),
            can_be_edited: self.can_be_edited,
        }
    }
}

impl Database {
    /// An empty, editable database.
    pub fn new() -> (r: Database)
        ensures
            r@.documents == Seq::<(i64, JVal)>::empty(),
            r@.state == DatabaseState::SimulationNotStarted,
            r@.message_queue == Seq::<MessageComponentV>::empty(),
            r@.can_be_edited == true,
            store_wf(r@.documents),
    {
        let r = Database {
            documents: Vec::new(),
            state: DatabaseState::SimulationNotStarted,
            message_queue: Vec::new(),
            can_be_edited: true,
        };
        proof {
            assert(r@.documents =~= Seq::<(i64, JVal)>::empty());
            assert(r@.message_queue =~= Seq::<MessageComponentV>::empty());
        }
        r
    }

    /// The current state.
    pub fn state(&self) -> (r: DatabaseState)
        ensures
            r == self@.state,
    {
        self.state
    }

    /// Whether the database may be edited.
    pub fn can_be_edited(&self) -> (r: bool)
        ensures
            r == self@.can_be_edited,
    {
        self.can_be_edited
    }

    /// Saves a document, per `save_spec`; `None` when the document
    /// cannot be saved.
    #[verifier::loop_isolation(false)]
    pub fn save(&mut self, doc: JsonValue) -> (r: Option<JsonValue>)
        ensures
            final(self)@.state == old(self)@.state,
            final(self)@.message_queue == old(self)@.message_queue,
            final(self)@.can_be_edited == old(self)@.can_be_edited,
            match save_spec(old(self)@.documents, doc@) {
                Some((newdocs, echoed)) => final(self)@.documents == newdocs && (
                r matches Some(e) && e@ == echoed),
                None => final(self)@.documents == old(self)@.documents && r is None,
            },
            store_wf(old(self)@.documents) ==> store_wf(final(self)@.documents),
    {
        proof {
            if store_wf(self@.documents) {
                match save_spec(self@.documents, doc@) {
                    Some(saved) => {
                        match jval(doc) {
                            JVal::Obj(members) => {
                                match obj_lookup(members, "id"@) {
                                    Some(idv) => {
                                        match idv {
                                            JVal::Int(n) => {
                                                if 0 <= n < 0x8000000000000000 {
                                                    lemma_upsert_wf(
                                                        self@.documents,
                                                        n as i64,
                                                        jval(doc),
                                                    );
                                                }
                                            },
                                            _ => {},
                                        }
                                    },
                                    None => {
                                        if self@.documents.len() < 0x8000000000000000 {
                                            let id = self@.documents.len() as i64;
                                            lemma_upsert_wf(
                                                self@.documents,
                                                id,
                                                JVal::Obj(
                                                    members.push(("id"@, JVal::Int(id as int))),
                                                ),
                                            );
                                        }
                                    },
                                }
                            },
                            _ => {},
                        }
                    },
                    None => {},
                }
            }
        }
        let members = match &doc {
            JsonValue::Obj(members) => members,
            _ => {
                return None;
            },
        };
        let idkey = String::from_str("id");
        proof {
            assert(idkey@ == "id"@);
        }
        match crate::json::obj_get(members, &idkey) {
            Some(idval) => {
                let id: i64 = match idval {
                    JsonValue::Int(n) => {
                        if *n >= 0 {
                            *n
                        } else {
                            return None;
                        }
                    },
                    _ => {
                        return None;
                    },
                };
                let stored = crate::json::deep_copy(&doc);
                self.put(id, stored);
                Some(doc)
            },
            None => {
                if self.documents.len() as u64 >= 0x8000000000000000u64 {
                    return None;
                }
                let id: i64 = self.documents.len() as i64;
                let mut new_members: Vec<(String, JsonValue)> = Vec::new();
                proof {
                    crate::json::lemma_jval_obj(members@);
                    assert(crate::json::jval_obj(new_members@) =~= crate::json::jval_obj(
                        members@,
                    ).subrange(0, 0));
                }
                let mut i: usize = 0;
                while i < members.len()
                    invariant
                        i <= members@.len(),
                        crate::json::jval_obj(new_members@) == crate::json::jval_obj(
                            members@,
                        ).subrange(0, i as int),
                    decreases members@.len() - i,
                {
                    let k = members[i].0.clone();
                    let v = crate::json::deep_copy(&members[i].1);
                    proof {
                        crate::json::lemma_jval_obj(members@);
                        crate::json::lemma_jval_obj_push(new_members@, (k, v));
                        assert(crate::json::jval_obj(new_members@).push((k@, jval(v)))
                            =~= crate::json::jval_obj(members@).subrange(0, i as int + 1));
                    }
                    new_members.push((k, v));
                    i = i + 1;
                }
                proof {
                    crate::json::lemma_jval_obj(members@);
                    assert(crate::json::jval_obj(members@).subrange(
                        0,
                        members@.len() as int,
                    ) =~= crate::json::jval_obj(members@));
                }
                let mut saved_members = new_members;
                proof {
                    crate::json::lemma_jval_obj_push(saved_members@, (idkey, JsonValue::Int(id)));
                }
                saved_members.push((idkey, JsonValue::Int(id)));
                let saved = JsonValue::Obj(saved_members);
                let echoed = crate::json::deep_copy(&saved);
                self.put(id, saved);
                Some(echoed)
            },
        }
    }

    /// Inserts or replaces the entry under `id`.
    #[verifier::loop_isolation(false)]
    fn put(&mut self, id: i64, v: JsonValue)
        ensures
            final(self)@.state == old(self)@.state,
            final(self)@.message_queue == old(self)@.message_queue,
            final(self)@.can_be_edited == old(self)@.can_be_edited,
            final(self)@.documents == store_upsert(old(self)@.documents, id, v@),
    {
        proof {
            lemma_store_index(old(self)@.documents, id);
        }
        let mut i: usize = 0;
        let n = self.documents.len();
        while i < n
            invariant
                n == self.documents@.len(),
                self@ == old(self)@,
                i <= n,
                forall|k: int| 0 <= k < i ==> self@.documents[k].0 != id,
            decreases n - i,
        {
            if self.documents[i].0 == id {
                proof {
                    lemma_store_index_value(old(self)@.documents, id, i as int);
                }
                self.documents[i] = (id, v);
                proof {
                    assert(final(self)@.documents =~~= store_upsert(
                        old(self)@.documents,
                        id,
                        v@,
                    ));
                }
                return ;
            }
            i = i + 1;
        }
        proof {
            lemma_store_index_none(old(self)@.documents, id);
        }
        self.documents.push((id, v));
        proof {
            assert(final(self)@.documents =~~= store_upsert(old(self)@.documents, id, v@));
        }
    }

    /// The document stored under `id`, if any.
    #[verifier::loop_isolation(false)]
    pub fn find_one(&self, id: i64) -> (r: Option<JsonValue>)
        ensures
            match store_lookup(self@.documents, id) {
                Some(v) => r matches Some(d) && d@ == v,
                None => r is None,
            },
    {
        proof {
            lemma_store_index(self@.documents, id);
        }
        let mut i: usize = 0;
        let n = self.documents.len();
        while i < n
            invariant
                n == self.documents@.len(),
                i <= n,
                forall|k: int| 0 <= k < i ==> self@.documents[k].0 != id,
            decreases n - i,
        {
            if self.documents[i].0 == id {
                proof {
                    lemma_store_index_value(self@.documents, id, i as int);
                }
                return Some(crate::json::deep_copy(&self.documents[i].1));
            }
            i = i + 1;
        }
        proof {
            lemma_store_index_none(self@.documents, id);
        }
        None
    }

    /// Every stored document, in insertion order.
    #[verifier::loop_isolation(false)]
    pub fn find_all(&self) -> (r: Vec<JsonValue>)
        ensures
            crate::json::jval_arr(r@) == store_values(self@.documents),
    {
        let mut out: Vec<JsonValue> = Vec::new();
        proof {
            crate::json::lemma_jval_arr(out@);
            assert(crate::json::jval_arr(out@) =~= store_values(self@.documents).subrange(0, 0));
        }
        let mut i: usize = 0;
        let n = self.documents.len();
        while i < n
            invariant
                n == self.documents@.len(),
                i <= n,
                crate::json::jval_arr(out@) == store_values(self@.documents).subrange(0, i as int),
            decreases n - i,
        {
            let d = crate::json::deep_copy(&self.documents[i].1);
            proof {
                crate::json::lemma_jval_arr_push(out@, d);
                assert(crate::json::jval_arr(out@).push(jval(d)) =~= store_values(
                    self@.documents,
                ).subrange(0, i as int + 1));
            }
            out.push(d);
            i = i + 1;
        }
        proof {
            assert(store_values(self@.documents).subrange(0, n as int) =~= store_values(
                self@.documents,
            ));
        }
        out
    }

    /// Whether a document is stored under `id`.
    #[verifier::loop_isolation(false)]
    pub fn contains(&self, id: i64) -> (r: bool)
        ensures
            r == (store_lookup(self@.documents, id) is Some),
    {
        proof {
            lemma_store_index(self@.documents, id);
        }
        let mut i: usize = 0;
        let n = self.documents.len();
        while i < n
            invariant
                n == self.documents@.len(),
                i <= n,
                forall|k: int| 0 <= k < i ==> self@.documents[k].0 != id,
            decreases n - i,
        {
            if self.documents[i].0 == id {
                proof {
                    lemma_store_index_value(self@.documents, id, i as int);
                }
                return true;
            }
            i = i + 1;
        }
        proof {
            lemma_store_index_none(self@.documents, id);
        }
        false
    }

    /// Removes the document under `id`; removing an absent id is a no-op.
    #[verifier::loop_isolation(false)]
    pub fn delete(&mut self, id: i64)
        ensures
            final(self)@.state == old(self)@.state,
            final(self)@.message_queue == old(self)@.message_queue,
            final(self)@.can_be_edited == old(self)@.can_be_edited,
            final(self)@.documents == store_delete(old(self)@.documents, id),
            store_wf(old(self)@.documents) ==> store_wf(final(self)@.documents),
    {
        proof {
            lemma_store_index(old(self)@.documents, id);
            if store_wf(self@.documents) {
                lemma_delete_wf(self@.documents, id);
            }
        }
        let mut i: usize = 0;
        let n = self.documents.len();
        while i < n
            invariant
                n == self.documents@.len(),
                self@ == old(self)@,
                i <= n,
                forall|k: int| 0 <= k < i ==> self@.documents[k].0 != id,
            decreases n - i,
        {
            if self.documents[i].0 == id {
                proof {
                    lemma_store_index_value(old(self)@.documents, id, i as int);
                }
                self.documents.remove(i);
                proof {
                    let docs = old(self)@.documents;
                    assert(final(self)@.documents =~~= docs.subrange(0, i as int) + docs.subrange(
                        i as int + 1,
                        docs.len() as int,
                    ));
                }
                return ;
            }
            i = i + 1;
        }
        proof {
            lemma_store_index_none(old(self)@.documents, id);
        }
    }

    /// Enters the simulation.
    pub fn start_simulation(&mut self)
        ensures
            final(self)@ == (DatabaseV { state: DatabaseState::Active, ..old(self)@ }),
    {
        self.state = DatabaseState::Active;
    }

    /// Queues an inbound message; the queue is drained once per tick
    /// while the database is active.
    pub fn handle_message(&mut self, message: MessageComponent)
        ensures
            final(self)@ == (DatabaseV {
                message_queue: old(self)@.message_queue.push(message@),
                ..old(self)@
            }),
    {
        self.message_queue.push(message);
        proof {
            assert(final(self)@.message_queue =~= old(self)@.message_queue.push(message@));
            assert(final(self)@ =~~= (DatabaseV {
                message_queue: old(self)@.message_queue.push(message@),
                ..old(self)@
            }));
        }
    }

    /// Leaves the simulation: the queue and the active flag are cleared;
    /// the documents survive across runs.
    pub fn reset(&mut self)
        ensures
            final(self)@ == (DatabaseV {
                state: DatabaseState::SimulationNotStarted,
                message_queue: Seq::<MessageComponentV>::empty(),
                ..old(self)@
            }),
    {
        self.state = DatabaseState::SimulationNotStarted;
        self.message_queue = Vec::new();
        proof {
            assert(final(self)@.message_queue =~= Seq::<MessageComponentV>::empty());
            assert(final(self)@ =~~= (DatabaseV {
                state: DatabaseState::SimulationNotStarted,
                message_queue: Seq::<MessageComponentV>::empty(),
                ..old(self)@
            }));
        }
    }
}

/// Every document identifier appears at most once in the store.
pub open spec fn store_wf(docs: Seq<(i64, JVal)>) -> bool {
    forall|j: int, k: int| 0 <= j < k < docs.len() ==> docs[j].0 != docs[k].0
}

/// After an upsert, the id maps to exactly the stored document.
pub proof fn lemma_upsert_lookup(docs: Seq<(i64, JVal)>, id: i64, v: JVal)
    ensures
        store_lookup(store_upsert(docs, id, v), id) == Some(v),
{
    lemma_store_index(docs, id);
    match store_index(docs, id) {
        Some(i) => {
            let nd = docs.update(i, (id, v));
            assert forall|j: int| 0 <= j < i implies nd[j].0 != id by {
                assert(nd[j] == docs[j]);
            }
            lemma_store_index_value(nd, id, i);
        },
        None => {
            let nd = docs.push((id, v));
            assert(nd[docs.len() as int].0 == id);
            assert forall|j: int| 0 <= j < docs.len() implies nd[j].0 != id by {
                assert(nd[j] == docs[j]);
            }
            lemma_store_index_value(nd, id, docs.len() as int);
        },
    }
}

/// `Save` of a document without an `id` member assigns the current
/// document count as its id, appends the member, and a `FindOne` with
/// that id afterwards returns exactly the saved document.
pub proof fn lemma_save_assigns_count(docs: Seq<(i64, JVal)>, members: Seq<(Seq<char>, JVal)>)
    requires
        obj_lookup(members, "id"@) is None,
        docs.len() < 0x8000000000000000,
    ensures
        ({
            let id = docs.len() as i64;
            let saved = JVal::Obj(members.push(("id"@, JVal::Int(id as int))));
            &&& save_spec(docs, JVal::Obj(members)) == Some(
                (store_upsert(docs, id, saved), saved),
            )
            &&& store_lookup(store_upsert(docs, id, saved), id) == Some(saved)
        }),
{
    let id = docs.len() as i64;
    let saved = JVal::Obj(members.push(("id"@, JVal::Int(id as int))));
    lemma_upsert_lookup(docs, id, saved);
}

/// After a `Delete`, `Contains` with the same id answers false, provided
/// the store keys are unique, which the database's own operations keep.
pub proof fn lemma_delete_contains(docs: Seq<(i64, JVal)>, id: i64)
    requires
        store_wf(docs),
    ensures
        store_lookup(store_delete(docs, id), id) is None,
{
    lemma_store_index(docs, id);
    match store_index(docs, id) {
        Some(i) => {
            let nd = docs.subrange(0, i) + docs.subrange(i + 1, docs.len() as int);
            assert forall|j: int| 0 <= j < nd.len() implies nd[j].0 != id by {
                if j < i {
                    assert(nd[j] == docs[j]);
                } else {
                    assert(nd[j] == docs[j + 1]);
                }
            }
            lemma_store_index_none(nd, id);
        },
        None => {},
    }
}

/// An upsert keeps the store keys unique.
pub proof fn lemma_upsert_wf(docs: Seq<(i64, JVal)>, id: i64, v: JVal)
    requires
        store_wf(docs),
    ensures
        store_wf(store_upsert(docs, id, v)),
{
    lemma_store_index(docs, id);
    match store_index(docs, id) {
        Some(i) => {
            let nd = docs.update(i, (id, v));
            assert forall|j: int, k: int| 0 <= j < k < nd.len() implies nd[j].0 != nd[k].0 by {
                assert(nd[j].0 == docs[j].0 && nd[k].0 == docs[k].0);
            }
        },
        None => {
            let nd = docs.push((id, v));
            assert forall|j: int, k: int| 0 <= j < k < nd.len() implies nd[j].0 != nd[k].0 by {
                if k == nd.len() - 1 {
                    assert(nd[j].0 == docs[j].0);
                } else {
                    assert(nd[j].0 == docs[j].0 && nd[k].0 == docs[k].0);
                }
            }
        },
    }
}

/// A deletion keeps the store keys unique.
pub proof fn lemma_delete_wf(docs: Seq<(i64, JVal)>, id: i64)
    requires
        store_wf(docs),
    ensures
        store_wf(store_delete(docs, id)),
{
    lemma_store_index(docs, id);
    match store_index(docs, id) {
        Some(i) => {
            let nd = docs.subrange(0, i) + docs.subrange(i + 1, docs.len() as int);
            assert forall|j: int, k: int| 0 <= j < k < nd.len() implies nd[j].0 != nd[k].0 by {
                let a: int = if j < i {
                    j
                } else {
                    j + 1
                };
                let b: int = if k < i {
                    k
                } else {
                    k + 1
                };
                assert(nd[j].0 == docs[a].0 && nd[k].0 == docs[b].0);
            }
        },
        None => {},
    }
}

/// What one call does to the store, and the answer it yields.
pub open spec fn db_apply(docs: Seq<(i64, JVal)>, call: DatabaseCallTypeV) -> (
    Seq<(i64, JVal)>,
    JVal,
) {
    match call {
        DatabaseCallTypeV::Save(v) => match save_spec(docs, v) {
            Some(saved) => saved,
            None => (docs, JVal::Null),
        },
        DatabaseCallTypeV::FindOne(id) => (
            docs,
            match store_lookup(docs, id) {
                Some(v) => v,
                None => JVal::Null,
            },
        ),
        DatabaseCallTypeV::FindAll => (docs, JVal::Arr(store_values(docs))),
        DatabaseCallTypeV::Contains(id) => (docs, JVal::Bool(store_lookup(docs, id) is Some)),
        DatabaseCallTypeV::Delete(id) => (store_delete(docs, id), JVal::Null),
    }
}

/// Running a queue of messages in order: each database call answers its
/// sender with the call's own trace id; every other message is ignored.
pub open spec fn db_run(docs: Seq<(i64, JVal)>, q: Seq<MessageComponentV>, db_entity: u64) -> (
    Seq<SendMessageEventV>,
    Seq<(i64, JVal)>,
)
    decreases q.len(),
{
    if q.len() == 0 {
        (Seq::empty(), docs)
    } else {
        match q[0].message {
            crate::message::MessageV::DatabaseCall(call) => {
                let step = db_apply(docs, call.call_type);
                let ev = SendMessageEventV {
                    sender: db_entity,
                    recipients: seq![q[0].sender],
                    message: crate::message::MessageV::DatabaseAnswer(step.1),
                    trace_id: q[0].trace_id,
                };
                let rest = db_run(step.0, q.subrange(1, q.len() as int), db_entity);
                (seq![ev] + rest.0, rest.1)
            },
            _ => db_run(docs, q.subrange(1, q.len() as int), db_entity),
        }
    }
}

/// The models of a list of sent messages.
pub open spec fn events_view(s: Seq<SendMessageEvent>) -> Seq<SendMessageEventV> {
    Seq::new(s.len(), |i: int| s[i]@)
}

impl Database {
    /// One tick of the database while active: drains the queue in FIFO
    /// order and answers every database call, per `db_run`.  While not
    /// active nothing happens.
    #[verifier::loop_isolation(false)]
    pub fn process_queue(&mut self, db_entity: u64) -> (events: Vec<SendMessageEvent>)
        ensures
            final(self)@.state == old(self)@.state,
            final(self)@.can_be_edited == old(self)@.can_be_edited,
            old(self)@.state == DatabaseState::Active ==> {
                let run = db_run(old(self)@.documents, old(self)@.message_queue, db_entity);
                &&& final(self)@.message_queue == Seq::<MessageComponentV>::empty()
                &&& events_view(events@) == run.0
                &&& final(self)@.documents == run.1
            },
            old(self)@.state != DatabaseState::Active ==> final(self)@ == old(self)@ && events@
                == Seq::<SendMessageEvent>::empty(),
    {
        match self.state {
            DatabaseState::Active => {},
            _ => {
                return Vec::new();
            },
        }
        let mut q: Vec<MessageComponent> = Vec::new();
        core::mem::swap(&mut q, &mut self.message_queue);
        proof {
            assert(self@.message_queue =~= Seq::<MessageComponentV>::empty());
        }
        let ghost full = db_run(old(self)@.documents, old(self)@.message_queue, db_entity);
        let mut events: Vec<SendMessageEvent> = Vec::new();
        proof {
            assert(Seq::new(q@.len(), |i: int| q@[i]@) =~= old(self)@.message_queue);
            assert(events_view(events@) =~= Seq::<SendMessageEventV>::empty());
            assert(full.0 =~= events_view(events@) + db_run(
                self@.documents,
                Seq::new(q@.len(), |i: int| q@[i]@),
                db_entity,
            ).0);
        }
        while q.len() > 0
            invariant
                self@.state == DatabaseState::Active,
                self@.can_be_edited == old(self)@.can_be_edited,
                self@.message_queue == Seq::<MessageComponentV>::empty(),
                full.0 == events_view(events@) + db_run(
                    self@.documents,
                    Seq::new(q@.len(), |i: int| q@[i]@),
                    db_entity,
                ).0,
                full.1 == db_run(
                    self@.documents,
                    Seq::new(q@.len(), |i: int| q@[i]@),
                    db_entity,
                ).1,
            decreases q@.len(),
        {
            let ghost qv = Seq::new(q@.len(), |i: int| q@[i]@);
            let message = q.remove(0);
            proof {
                assert(Seq::new(q@.len(), |i: int| q@[i]@) =~= qv.subrange(1, qv.len() as int));
                assert(qv[0] == message@);
            }
            match message.message {
                Message::DatabaseCall(db_call) => {
                    let ghost docs0 = self@.documents;
                    let ghost call = db_call@;
                    let answer: JsonValue = match db_call.call_type {
                        DatabaseCallType::Save(value) => {
                            match self.save(value) {
                                Some(saved) => saved,
                                None => JsonValue::Null,
                            }
                        },
                        DatabaseCallType::FindOne(id) => {
                            match self.find_one(id) {
                                Some(document) => document,
                                None => JsonValue::Null,
                            }
                        },
                        DatabaseCallType::FindAll => {
                            JsonValue::Arr(self.find_all())
                        },
                        DatabaseCallType::Contains(id) => {
                            JsonValue::Bool(self.contains(id))
                        },
                        DatabaseCallType::Delete(id) => {
                            self.delete(id);
                            JsonValue::Null
                        },
                    };
                    proof {
                        assert(self@.documents == db_apply(docs0, call.call_type).0);
                        assert(jval(answer) == db_apply(docs0, call.call_type).1);
                    }
                    let mut recipients: Vec<u64> = Vec::new();
                    recipients.push(message.sender);
                    let ev = SendMessageEvent {
                        sender: db_entity,
                        recipients,
                        message: Message::DatabaseAnswer(answer),
                        trace_id: message.trace_id,
                    };
                    proof {
                        assert(ev@.recipients =~= seq![message@.sender]);
                    }
                    events.push(ev);
                    proof {
                        assert(events_view(events@) =~= events_view(events@.drop_last()).push(
                            ev@,
                        ));
                        assert(full.0 =~= events_view(events@) + db_run(
                            self@.documents,
                            Seq::new(q@.len(), |i: int| q@[i]@),
                            db_entity,
                        ).0);
                    }
                },
                _ => {},
            }
        }
        proof {
            assert(Seq::new(q@.len(), |i: int| q@[i]@) =~= Seq::<MessageComponentV>::empty());
            assert(full.0 =~= events_view(events@));
        }
        events
    }
}

} // verus!
