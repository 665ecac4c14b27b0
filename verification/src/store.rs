//! The document store: named collections of documents keyed by id, and
//! the exact effect of each command on them.
//!
//! The store's value is a sequence of collections, each a name and its
//! documents sorted by ascending id — the order a COLLECTION response
//! lists them in. `step` is the transition function: what one command
//! does to the store and what is sent back; `DataStore::apply` is its
//! executable form, proved equal to it.

use vstd::prelude::*;

use crate::doc_id::id_parse;
use crate::doc_id::id_text;
use crate::json::merge_obj;
use crate::json::ser;
use crate::json::Json;
use crate::json::JsonV;
use crate::message::find;
use crate::message::Command;
use crate::message::CommandV;
use crate::message::Response;
use crate::message::ResponseV;

verus! {

/// One collection: its name and its documents, ascending by id.
pub struct Collection {
    pub name: Vec<u8>,
    pub docs: Vec<(u128, Json)>,
}

/// The store: all collections, in creation order.
pub struct DataStore {
    pub collections: Vec<Collection>,
}

/// What the store handler asks of its caller: send a response, or write
/// a dump file (the path and the text) and report how that went.
#[derive(Debug, PartialEq, Eq)]
pub enum Action {
    Reply(Response),
    WriteDump(Vec<u8>, Vec<u8>),
}

/// The mathematical value of one collection.
pub type CollV = (Seq<u8>, Seq<(u128, JsonV)>);

/// The mathematical value of the store.
pub type StoreV = Seq<CollV>;

/// The mathematical value of an action.
pub enum ActionV {
    Reply(ResponseV),
    WriteDump(Seq<u8>, Seq<u8>),
}

impl View for Action {
    type V = ActionV;

    open spec fn view(&self) -> ActionV {
        match self {
            Action::Reply(r) => ActionV::Reply(r@),
            Action::WriteDump(f, t) => ActionV::WriteDump(f@, t@),
        }
    }
}

/// The values of a document list.
pub open spec fn docs_view(ds: Seq<(u128, Json)>) -> Seq<(u128, JsonV)>
    decreases ds,
{
    if ds.len() == 0 {
        Seq::empty()
    } else {
        seq![(ds[0].0, crate::json::view_of(ds[0].1))] + docs_view(ds.drop_first())
    }
}

/// The values of a collection list.
pub open spec fn colls_view(cs: Seq<Collection>) -> StoreV
    decreases cs,
{
    if cs.len() == 0 {
        Seq::empty()
    } else {
        seq![(cs[0].name@, docs_view(cs[0].docs@))] + colls_view(cs.drop_first())
    }
}

impl View for DataStore {
    type V = StoreV;

    open spec fn view(&self) -> StoreV {
        colls_view(self.collections@)
    }
}

/// `docs_view` read element-wise.
pub proof fn lemma_docs_view(ds: Seq<(u128, Json)>)
    ensures
        docs_view(ds).len() == ds.len(),
        forall|k: int|
            0 <= k < ds.len() ==> docs_view(ds)[k] == ((#[trigger] ds[k]).0, crate::json::view_of(
                ds[k].1,
            )),
    decreases ds.len(),
{
    if ds.len() > 0 {
        lemma_docs_view(ds.drop_first());
        assert forall|k: int|
            0 <= k < ds.len() implies docs_view(ds)[k] == ((#[trigger] ds[k]).0,
        crate::json::view_of(ds[k].1)) by {
            if k > 0 {
                assert(ds.drop_first()[k - 1] == ds[k]);
            }
        }
    }
}

/// `colls_view` read element-wise.
pub proof fn lemma_colls_view(cs: Seq<Collection>)
    ensures
        colls_view(cs).len() == cs.len(),
        forall|k: int|
            0 <= k < cs.len() ==> colls_view(cs)[k] == ((#[trigger] cs[k]).name@, docs_view(
                cs[k].docs@,
            )),
    decreases cs.len(),
{
    if cs.len() > 0 {
        lemma_colls_view(cs.drop_first());
        assert forall|k: int|
            0 <= k < cs.len() implies colls_view(cs)[k] == ((#[trigger] cs[k]).name@, docs_view(
            cs[k].docs@,
        )) by {
            if k > 0 {
                assert(cs.drop_first()[k - 1] == cs[k]);
            }
        }
    }
}

/// `colls_view` distributes over `push`.
pub proof fn lemma_colls_view_push(cs: Seq<Collection>, c: Collection)
    ensures
        colls_view(cs.push(c)) == colls_view(cs).push((c.name@, docs_view(c.docs@))),
{
    lemma_colls_view(cs);
    lemma_colls_view(cs.push(c));
    assert forall|j: int|
        0 <= j < cs.len() + 1 implies colls_view(cs.push(c))[j] == colls_view(cs).push(
        (c.name@, docs_view(c.docs@)),
    )[j] by {
        assert(colls_view(cs.push(c))[j] == (cs.push(c)[j].name@, docs_view(cs.push(c)[j].docs@)));
        if j < cs.len() {
            assert(cs.push(c)[j] == cs[j]);
        } else {
            assert(cs.push(c)[j] == c);
        }
    }
    assert(colls_view(cs.push(c)) =~= colls_view(cs).push((c.name@, docs_view(c.docs@))));
}

/// Documents strictly ascending by id.
pub open spec fn docs_sorted(ds: Seq<(u128, JsonV)>) -> bool {
    forall|i: int, j: int| 0 <= i < j < ds.len() ==> (#[trigger] ds[i]).0 < (#[trigger] ds[j]).0
}

/// The store's internal shape: distinct non-empty collection names, and
/// each collection's documents sorted by ascending id.
pub open spec fn store_inv(s: StoreV) -> bool {
    &&& forall|i: int, j: int|
        0 <= i < j < s.len() ==> (#[trigger] s[i]).0 != (#[trigger] s[j]).0
    &&& forall|i: int| 0 <= i < s.len() ==> (#[trigger] s[i]).0.len() > 0
    &&& forall|i: int| 0 <= i < s.len() ==> docs_sorted((#[trigger] s[i]).1)
}

/// The index of the collection named `name`, or `-1`.
pub open spec fn find_coll(s: StoreV, name: Seq<u8>) -> int
    decreases s.len(),
{
    if s.len() == 0 {
        -1
    } else if s[0].0 == name {
        0
    } else {
        let r = find_coll(s.drop_first(), name);
        if r < 0 {
            -1
        } else {
            r + 1
        }
    }
}

/// The index of the document with `id`, or `-1`.
pub open spec fn find_doc(ds: Seq<(u128, JsonV)>, id: u128) -> int
    decreases ds.len(),
{
    if ds.len() == 0 {
        -1
    } else if ds[0].0 == id {
        0
    } else {
        let r = find_doc(ds.drop_first(), id);
        if r < 0 {
            -1
        } else {
            r + 1
        }
    }
}

/// `ds` with `id` bound to `body`: inserted in id order, or replacing the
/// document that already carries `id`.
pub open spec fn docs_insert(ds: Seq<(u128, JsonV)>, id: u128, body: JsonV) -> Seq<
    (u128, JsonV),
>
    decreases ds.len(),
{
    if ds.len() == 0 {
        seq![(id, body)]
    } else if id < ds[0].0 {
        seq![(id, body)] + ds
    } else if id == ds[0].0 {
        seq![(id, body)] + ds.drop_first()
    } else {
        seq![ds[0]] + docs_insert(ds.drop_first(), id, body)
    }
}

/// `ds` without the document carrying `id`.
pub open spec fn docs_remove(ds: Seq<(u128, JsonV)>, id: u128) -> Seq<(u128, JsonV)>
    decreases ds.len(),
{
    if ds.len() == 0 {
        Seq::empty()
    } else if ds[0].0 == id {
        ds.drop_first()
    } else {
        seq![ds[0]] + docs_remove(ds.drop_first(), id)
    }
}

/// The uri split at its first `/`: the collection name and the id text
/// (empty when there is no `/` or nothing follows it).
pub open spec fn split_uri(uri: Seq<u8>) -> (Seq<u8>, Seq<u8>) {
    let p = find(uri, 0, 0x2f);
    if p == uri.len() {
        (uri, Seq::empty())
    } else {
        (uri.take(p), uri.skip(p + 1))
    }
}

/// The key `ID`.
pub open spec fn key_id() -> Seq<u8> {
    seq![0x49u8, 0x44u8]
}

/// The key `value`.
pub open spec fn key_value() -> Seq<u8> {
    seq![0x76u8, 0x61u8, 0x6cu8, 0x75u8, 0x65u8]
}

/// The envelope a document is returned in: `{"ID": "<id>", "value": doc}`.
pub open spec fn env(id: u128, doc: JsonV) -> JsonV {
    JsonV::Obj(seq![(key_id(), JsonV::Str(id_text(id))), (key_value(), doc)])
}

/// The envelopes of all documents, in store order.
pub open spec fn envs(ds: Seq<(u128, JsonV)>) -> Seq<JsonV>
    decreases ds.len(),
{
    if ds.len() == 0 {
        Seq::empty()
    } else {
        seq![env(ds[0].0, ds[0].1)] + envs(ds.drop_first())
    }
}

/// The error text `invalid path`.
pub open spec fn err_invalid_path() -> Seq<u8> {
    seq![0x69u8, 0x6eu8, 0x76u8, 0x61u8, 0x6cu8, 0x69u8, 0x64u8, 0x20u8, 0x70u8, 0x61u8, 0x74u8,
        0x68u8]
}

/// The error text `collection not found`.
pub open spec fn err_no_collection() -> Seq<u8> {
    seq![0x63u8, 0x6fu8, 0x6cu8, 0x6cu8, 0x65u8, 0x63u8, 0x74u8, 0x69u8, 0x6fu8, 0x6eu8, 0x20u8,
        0x6eu8, 0x6fu8, 0x74u8, 0x20u8, 0x66u8, 0x6fu8, 0x75u8, 0x6eu8, 0x64u8]
}

/// The error text `object not found`.
pub open spec fn err_no_object() -> Seq<u8> {
    seq![0x6fu8, 0x62u8, 0x6au8, 0x65u8, 0x63u8, 0x74u8, 0x20u8, 0x6eu8, 0x6fu8, 0x74u8, 0x20u8,
        0x66u8, 0x6fu8, 0x75u8, 0x6eu8, 0x64u8]
}

/// The error text `invalid ID`.
pub open spec fn err_invalid_id() -> Seq<u8> {
    seq![0x69u8, 0x6eu8, 0x76u8, 0x61u8, 0x6cu8, 0x69u8, 0x64u8, 0x20u8, 0x49u8, 0x44u8]
}

/// The error text `patch requires object`.
pub open spec fn err_patch_object() -> Seq<u8> {
    seq![0x70u8, 0x61u8, 0x74u8, 0x63u8, 0x68u8, 0x20u8, 0x72u8, 0x65u8, 0x71u8, 0x75u8, 0x69u8,
        0x72u8, 0x65u8, 0x73u8, 0x20u8, 0x6fu8, 0x62u8, 0x6au8, 0x65u8, 0x63u8, 0x74u8]
}

/// An unchanged store and an error reply.
pub open spec fn halt(s: StoreV, text: Seq<u8>) -> (StoreV, ActionV) {
    (s, ActionV::Reply(ResponseV::ERROR(text)))
}

/// The dump text of one collection's documents: ids as keys.
pub open spec fn dump_docs(ds: Seq<(u128, JsonV)>) -> Seq<(Seq<u8>, JsonV)>
    decreases ds.len(),
{
    if ds.len() == 0 {
        Seq::empty()
    } else {
        seq![(id_text(ds[0].0), ds[0].1)] + dump_docs(ds.drop_first())
    }
}

/// The dump value of the whole store: collection names as keys.
pub open spec fn dump_colls(s: StoreV) -> Seq<(Seq<u8>, JsonV)>
    decreases s.len(),
{
    if s.len() == 0 {
        Seq::empty()
    } else {
        seq![(s[0].0, JsonV::Obj(dump_docs(s[0].1)))] + dump_colls(s.drop_first())
    }
}

/// What one command does to the store, and what is sent back. `fresh` is
/// the id a POST binds its document to.
pub open spec fn step(s: StoreV, c: CommandV, fresh: u128) -> (StoreV, ActionV) {
    match c {
        CommandV::PING => (s, ActionV::Reply(ResponseV::PONG)),
        CommandV::POST { uri, body } => {
            let (name, _idt) = split_uri(uri);
            if name.len() == 0 {
                halt(s, err_invalid_path())
            } else {
                let i = find_coll(s, name);
                let s2 = if i < 0 {
                    s.push((name, seq![(fresh, body)]))
                } else {
                    s.update(i, (name, docs_insert(s[i].1, fresh, body)))
                };
                (s2, ActionV::Reply(ResponseV::ID(id_text(fresh))))
            }
        },
        CommandV::GET { uri } => {
            let (name, idt) = split_uri(uri);
            if idt.len() == 0 {
                let i = find_coll(s, name);
                if i < 0 {
                    halt(s, err_no_collection())
                } else {
                    (s, ActionV::Reply(ResponseV::COLLECTION(envs(s[i].1))))
                }
            } else {
                match id_parse(idt) {
                    None => halt(s, err_invalid_id()),
                    Some(id) => {
                        let i = find_coll(s, name);
                        if i < 0 {
                            halt(s, err_no_collection())
                        } else {
                            let j = find_doc(s[i].1, id);
                            if j < 0 {
                                halt(s, err_no_object())
                            } else {
                                (s, ActionV::Reply(ResponseV::OBJECT(env(id, s[i].1[j].1))))
                            }
                        }
                    },
                }
            }
        },
        CommandV::PUT { uri, body } => {
            let (name, idt) = split_uri(uri);
            if name.len() == 0 || idt.len() == 0 {
                halt(s, err_invalid_path())
            } else {
                let i = find_coll(s, name);
                if i < 0 {
                    halt(s, err_no_collection())
                } else {
                    match id_parse(idt) {
                        None => halt(s, err_invalid_id()),
                        Some(id) => {
                            let j = find_doc(s[i].1, id);
                            if j < 0 {
                                halt(s, err_no_object())
                            } else {
                                (
                                    s.update(i, (name, s[i].1.update(j, (id, body)))),
                                    ActionV::Reply(ResponseV::OK),
                                )
                            }
                        },
                    }
                }
            }
        },
        CommandV::PATCH { uri, body } => {
            let (name, idt) = split_uri(uri);
            if name.len() == 0 || idt.len() == 0 {
                halt(s, err_invalid_path())
            } else {
                let i = find_coll(s, name);
                if i < 0 {
                    halt(s, err_no_collection())
                } else {
                    match id_parse(idt) {
                        None => halt(s, err_invalid_id()),
                        Some(id) => {
                            let j = find_doc(s[i].1, id);
                            if j < 0 {
                                halt(s, err_no_object())
                            } else {
                                match (s[i].1[j].1, body) {
                                    (JsonV::Obj(dm), JsonV::Obj(pm)) => (
                                        s.update(
                                            i,
                                            (
                                                name,
                                                s[i].1.update(
                                                    j,
                                                    (id, JsonV::Obj(merge_obj(dm, pm))),
                                                ),
                                            ),
                                        ),
                                        ActionV::Reply(ResponseV::OK),
                                    ),
                                    _ => halt(s, err_patch_object()),
                                }
                            }
                        },
                    }
                }
            }
        },
        CommandV::DELETE { uri } => {
            let (name, idt) = split_uri(uri);
            if idt.len() == 0 {
                let i = find_coll(s, name);
                if i < 0 {
                    halt(s, err_no_collection())
                } else {
                    (s.remove(i), ActionV::Reply(ResponseV::OK))
                }
            } else {
                let i = find_coll(s, name);
                if i < 0 {
                    halt(s, err_no_collection())
                } else {
                    match id_parse(idt) {
                        None => halt(s, err_invalid_id()),
                        Some(id) => {
                            let j = find_doc(s[i].1, id);
                            if j < 0 {
                                halt(s, err_no_object())
                            } else {
                                (
                                    s.update(i, (name, docs_remove(s[i].1, id))),
                                    ActionV::Reply(ResponseV::OK),
                                )
                            }
                        },
                    }
                }
            }
        },
        CommandV::DUMP { file } => (
            s,
            ActionV::WriteDump(file, ser(JsonV::Obj(dump_colls(s)))),
        ),
    }
}


/// `docs_view` carries `Seq::update` through.
pub proof fn lemma_docs_view_update(ds: Seq<(u128, Json)>, p: int, e: (u128, Json))
    requires
        0 <= p < ds.len(),
    ensures
        docs_view(ds.update(p, e)) == docs_view(ds).update(p, (e.0, crate::json::view_of(e.1))),
{
    lemma_docs_view(ds);
    lemma_docs_view(ds.update(p, e));
    assert forall|j: int|
        0 <= j < ds.len() implies docs_view(ds.update(p, e))[j] == docs_view(ds).update(
        p,
        (e.0, crate::json::view_of(e.1)),
    )[j] by {
        if j == p {
            assert(ds.update(p, e)[j] == e);
        } else {
            assert(ds.update(p, e)[j] == ds[j]);
        }
    }
    assert(docs_view(ds.update(p, e)) =~= docs_view(ds).update(
        p,
        (e.0, crate::json::view_of(e.1)),
    ));
}

/// `docs_view` carries `Seq::insert` through.
pub proof fn lemma_docs_view_insert(ds: Seq<(u128, Json)>, p: int, e: (u128, Json))
    requires
        0 <= p <= ds.len(),
    ensures
        docs_view(ds.insert(p, e)) == docs_view(ds).insert(p, (e.0, crate::json::view_of(e.1))),
{
    lemma_docs_view(ds);
    lemma_docs_view(ds.insert(p, e));
    assert forall|j: int|
        0 <= j < ds.len() + 1 implies docs_view(ds.insert(p, e))[j] == docs_view(ds).insert(
        p,
        (e.0, crate::json::view_of(e.1)),
    )[j] by {
        if j < p {
            assert(ds.insert(p, e)[j] == ds[j]);
        } else if j == p {
            assert(ds.insert(p, e)[j] == e);
        } else {
            assert(ds.insert(p, e)[j] == ds[j - 1]);
        }
    }
    assert(docs_view(ds.insert(p, e)) =~= docs_view(ds).insert(
        p,
        (e.0, crate::json::view_of(e.1)),
    ));
}

/// `docs_view` carries `Seq::remove` through.
pub proof fn lemma_docs_view_remove(ds: Seq<(u128, Json)>, p: int)
    requires
        0 <= p < ds.len(),
    ensures
        docs_view(ds.remove(p)) == docs_view(ds).remove(p),
{
    lemma_docs_view(ds);
    lemma_docs_view(ds.remove(p));
    assert forall|j: int|
        0 <= j < ds.len() - 1 implies docs_view(ds.remove(p))[j] == docs_view(ds).remove(
        p,
    )[j] by {
        if j < p {
            assert(ds.remove(p)[j] == ds[j]);
        } else {
            assert(ds.remove(p)[j] == ds[j + 1]);
        }
    }
    assert(docs_view(ds.remove(p)) =~= docs_view(ds).remove(p));
}

/// `colls_view` carries `Seq::update` through.
pub proof fn lemma_colls_view_update(cs: Seq<Collection>, p: int, c: Collection)
    requires
        0 <= p < cs.len(),
    ensures
        colls_view(cs.update(p, c)) == colls_view(cs).update(p, (c.name@, docs_view(c.docs@))),
{
    lemma_colls_view(cs);
    lemma_colls_view(cs.update(p, c));
    assert forall|j: int|
        0 <= j < cs.len() implies colls_view(cs.update(p, c))[j] == colls_view(cs).update(
        p,
        (c.name@, docs_view(c.docs@)),
    )[j] by {
        if j == p {
            assert(cs.update(p, c)[j] == c);
        } else {
            assert(cs.update(p, c)[j] == cs[j]);
        }
    }
    assert(colls_view(cs.update(p, c)) =~= colls_view(cs).update(
        p,
        (c.name@, docs_view(c.docs@)),
    ));
}

/// `colls_view` carries `Seq::remove` through.
pub proof fn lemma_colls_view_remove(cs: Seq<Collection>, p: int)
    requires
        0 <= p < cs.len(),
    ensures
        colls_view(cs.remove(p)) == colls_view(cs).remove(p),
{
    lemma_colls_view(cs);
    lemma_colls_view(cs.remove(p));
    assert forall|j: int|
        0 <= j < cs.len() - 1 implies colls_view(cs.remove(p))[j] == colls_view(cs).remove(
        p,
    )[j] by {
        if j < p {
            assert(cs.remove(p)[j] == cs[j]);
        } else {
            assert(cs.remove(p)[j] == cs[j + 1]);
        }
    }
    assert(colls_view(cs.remove(p)) =~= colls_view(cs).remove(p));
}

/// Where `find_coll` points, and what its failure means.
pub proof fn lemma_find_coll_char(s: StoreV, name: Seq<u8>)
    ensures
        find_coll(s, name) >= 0 ==> find_coll(s, name) < s.len() && s[find_coll(s, name)].0
            == name && (forall|q: int| 0 <= q < find_coll(s, name) ==> (#[trigger] s[q]).0 != name),
        find_coll(s, name) < 0 ==> forall|q: int| 0 <= q < s.len() ==> (#[trigger] s[q]).0 != name,
    decreases s.len(),
{
    if s.len() > 0 && s[0].0 != name {
        lemma_find_coll_char(s.drop_first(), name);
        let r = find_coll(s.drop_first(), name);
        if r >= 0 {
            assert(s.drop_first()[r] == s[r + 1]);
            assert forall|q: int| 0 <= q < find_coll(s, name) implies (#[trigger] s[q]).0
                != name by {
                if q > 0 {
                    assert(s.drop_first()[q - 1] == s[q]);
                }
            }
        } else {
            assert forall|q: int| 0 <= q < s.len() implies (#[trigger] s[q]).0 != name by {
                if q > 0 {
                    assert(s.drop_first()[q - 1] == s[q]);
                }
            }
        }
    }
}

/// Where `find_doc` points, and what its failure means.
pub proof fn lemma_find_doc_char(ds: Seq<(u128, JsonV)>, id: u128)
    ensures
        find_doc(ds, id) >= 0 ==> find_doc(ds, id) < ds.len() && ds[find_doc(ds, id)].0 == id && (
        forall|q: int| 0 <= q < find_doc(ds, id) ==> (#[trigger] ds[q]).0 != id),
        find_doc(ds, id) < 0 ==> forall|q: int| 0 <= q < ds.len() ==> (#[trigger] ds[q]).0 != id,
    decreases ds.len(),
{
    if ds.len() > 0 && ds[0].0 != id {
        lemma_find_doc_char(ds.drop_first(), id);
        let r = find_doc(ds.drop_first(), id);
        if r >= 0 {
            assert(ds.drop_first()[r] == ds[r + 1]);
            assert forall|q: int| 0 <= q < find_doc(ds, id) implies (#[trigger] ds[q]).0
                != id by {
                if q > 0 {
                    assert(ds.drop_first()[q - 1] == ds[q]);
                }
            }
        } else {
            assert forall|q: int| 0 <= q < ds.len() implies (#[trigger] ds[q]).0 != id by {
                if q > 0 {
                    assert(ds.drop_first()[q - 1] == ds[q]);
                }
            }
        }
    }
}

/// What the ordered insert does, position by position.
pub proof fn lemma_docs_insert_char(ds: Seq<(u128, JsonV)>, id: u128, body: JsonV, pos: int)
    requires
        0 <= pos <= ds.len(),
        forall|q: int| 0 <= q < pos ==> (#[trigger] ds[q]).0 < id,
        pos < ds.len() ==> ds[pos].0 >= id,
    ensures
        docs_insert(ds, id, body) == if pos < ds.len() && ds[pos].0 == id {
            ds.update(pos, (id, body))
        } else {
            ds.insert(pos, (id, body))
        },
    decreases pos,
{
    if pos == 0 {
        if ds.len() == 0 {
            assert(docs_insert(ds, id, body) =~~= ds.insert(0, (id, body)));
        } else if id < ds[0].0 {
            assert(docs_insert(ds, id, body) =~~= ds.insert(0, (id, body)));
        } else {
            assert(ds[0].0 == id);
            assert(docs_insert(ds, id, body) =~~= ds.update(0, (id, body)));
        }
    } else {
        assert(ds[0].0 < id);
        assert(forall|q: int|
            0 <= q < ds.drop_first().len() ==> #[trigger] ds.drop_first()[q] == ds[q + 1]);
        lemma_docs_insert_char(ds.drop_first(), id, body, pos - 1);
        if pos < ds.len() && ds[pos].0 == id {
            assert(docs_insert(ds, id, body) =~~= ds.update(pos, (id, body)));
        } else {
            assert(docs_insert(ds, id, body) =~~= ds.insert(pos, (id, body)));
        }
    }
}

/// Removing the document `find_doc` points at is `docs_remove`.
pub proof fn lemma_docs_remove_char(ds: Seq<(u128, JsonV)>, id: u128)
    requires
        find_doc(ds, id) >= 0,
    ensures
        docs_remove(ds, id) == ds.remove(find_doc(ds, id)),
    decreases ds.len(),
{
    lemma_find_doc_char(ds, id);
    if ds[0].0 == id {
        assert(docs_remove(ds, id) =~~= ds.remove(0));
    } else {
        lemma_docs_remove_char(ds.drop_first(), id);
        let r = find_doc(ds.drop_first(), id);
        let p = find_doc(ds, id);
        assert(p == r + 1);
        let lhs = docs_remove(ds, id);
        let rhs = ds.remove(p);
        assert(lhs == seq![ds[0]] + ds.drop_first().remove(r));
        assert forall|j: int| 0 <= j < ds.len() - 1 implies lhs[j] == rhs[j] by {
            if j == 0 {
                assert(lhs[0] == ds[0]);
                assert(rhs[0] == ds[0]);
            } else if j - 1 < r {
                assert(lhs[j] == ds.drop_first().remove(r)[j - 1]);
                assert(ds.drop_first().remove(r)[j - 1] == ds.drop_first()[j - 1]);
                assert(ds.drop_first()[j - 1] == ds[j]);
                assert(rhs[j] == ds[j]);
            } else {
                assert(lhs[j] == ds.drop_first().remove(r)[j - 1]);
                assert(ds.drop_first().remove(r)[j - 1] == ds.drop_first()[j]);
                assert(ds.drop_first()[j] == ds[j + 1]);
                assert(rhs[j] == ds[j + 1]);
            }
        }
        assert(lhs =~~= rhs);
    }
}

/// The ordered insert keeps documents sorted.
pub proof fn lemma_docs_insert_sorted(ds: Seq<(u128, JsonV)>, id: u128, body: JsonV, pos: int)
    requires
        docs_sorted(ds),
        0 <= pos <= ds.len(),
        forall|q: int| 0 <= q < pos ==> (#[trigger] ds[q]).0 < id,
        pos < ds.len() ==> ds[pos].0 >= id,
    ensures
        docs_sorted(
            if pos < ds.len() && ds[pos].0 == id {
                ds.update(pos, (id, body))
            } else {
                ds.insert(pos, (id, body))
            },
        ),
{
    if pos < ds.len() && ds[pos].0 == id {
        let r = ds.update(pos, (id, body));
        assert forall|i: int, j: int| 0 <= i < j < r.len() implies (#[trigger] r[i]).0 < (
        #[trigger] r[j]).0 by {
            assert(i == pos || r[i] == ds[i]);
            assert(j == pos || r[j] == ds[j]);
        }
    } else {
        let r = ds.insert(pos, (id, body));
        assert forall|i: int, j: int| 0 <= i < j < r.len() implies (#[trigger] r[i]).0 < (
        #[trigger] r[j]).0 by {
            if i < pos {
                assert(r[i] == ds[i]);
            } else if i == pos {
            } else {
                assert(r[i] == ds[i - 1]);
            }
            if j < pos {
                assert(r[j] == ds[j]);
            } else if j == pos {
            } else {
                assert(r[j] == ds[j - 1]);
            }
        }
    }
}

/// Removing a document keeps the rest sorted.
pub proof fn lemma_remove_sorted(ds: Seq<(u128, JsonV)>, p: int)
    requires
        docs_sorted(ds),
        0 <= p < ds.len(),
    ensures
        docs_sorted(ds.remove(p)),
{
    let r = ds.remove(p);
    assert forall|i: int, j: int| 0 <= i < j < r.len() implies (#[trigger] r[i]).0 < (
    #[trigger] r[j]).0 by {
        if i < p {
            assert(r[i] == ds[i]);
        } else {
            assert(r[i] == ds[i + 1]);
        }
        if j < p {
            assert(r[j] == ds[j]);
        } else {
            assert(r[j] == ds[j + 1]);
        }
    }
}


/// Find a collection by name.
pub fn find_coll_x(cs: &Vec<Collection>, name: &[u8]) -> (r: Option<usize>)
    ensures
        r matches Some(i) ==> find_coll(colls_view(cs@), name@) == i && i < cs@.len(),
        r is None ==> find_coll(colls_view(cs@), name@) == -1,
{
    let ghost s = colls_view(cs@);
    proof {
        lemma_colls_view(cs@);
        assert(s.skip(0) =~= s);
    }
    let mut k: usize = 0;
    while k < cs.len()
        invariant
            0 <= k <= cs@.len(),
            s == colls_view(cs@),
            s.len() == cs@.len(),
            find_coll(s, name@) == (if find_coll(s.skip(k as int), name@) < 0 {
                -1
            } else {
                k + find_coll(s.skip(k as int), name@)
            }),
        decreases cs@.len() - k,
    {
        proof {
            lemma_colls_view(cs@);
            assert(s.skip(k as int)[0] == s[k as int]);
        }
        if crate::json::bytes_eq(cs[k].name.as_slice(), name) {
            proof {
                assert(s[k as int].0 == name@);
                assert(find_coll(s.skip(k as int), name@) == 0);
            }
            return Some(k);
        }
        proof {
            assert(s[k as int].0 != name@);
            assert(s.skip(k as int).drop_first() =~= s.skip(k as int + 1));
        }
        k = k + 1;
    }
    proof {
        assert(s.skip(k as int).len() == 0);
    }
    None
}

/// Find a document by id.
pub fn find_doc_x(ds: &Vec<(u128, Json)>, id: u128) -> (r: Option<usize>)
    ensures
        r matches Some(j) ==> find_doc(docs_view(ds@), id) == j && j < ds@.len(),
        r is None ==> find_doc(docs_view(ds@), id) == -1,
{
    let ghost s = docs_view(ds@);
    proof {
        lemma_docs_view(ds@);
        assert(s.skip(0) =~= s);
    }
    let mut k: usize = 0;
    while k < ds.len()
        invariant
            0 <= k <= ds@.len(),
            s == docs_view(ds@),
            s.len() == ds@.len(),
            find_doc(s, id) == (if find_doc(s.skip(k as int), id) < 0 {
                -1
            } else {
                k + find_doc(s.skip(k as int), id)
            }),
        decreases ds@.len() - k,
    {
        proof {
            lemma_docs_view(ds@);
            assert(s.skip(k as int)[0] == s[k as int]);
        }
        if ds[k].0 == id {
            proof {
                assert(s[k as int].0 == id);
                assert(find_doc(s.skip(k as int), id) == 0);
            }
            return Some(k);
        }
        proof {
            assert(s[k as int].0 != id);
            assert(s.skip(k as int).drop_first() =~= s.skip(k as int + 1));
        }
        k = k + 1;
    }
    proof {
        assert(s.skip(k as int).len() == 0);
    }
    None
}

/// The first position whose id is not below `id`.
pub fn insert_pos_x(ds: &Vec<(u128, Json)>, id: u128) -> (pos: usize)
    ensures
        pos <= ds@.len(),
        forall|q: int| 0 <= q < pos ==> (#[trigger] docs_view(ds@)[q]).0 < id,
        pos < ds@.len() ==> docs_view(ds@)[pos as int].0 >= id,
{
    proof {
        lemma_docs_view(ds@);
    }
    let mut k: usize = 0;
    while k < ds.len() && ds[k].0 < id
        invariant
            0 <= k <= ds@.len(),
            docs_view(ds@).len() == ds@.len(),
            forall|q: int|
                0 <= q < ds@.len() ==> (#[trigger] docs_view(ds@)[q]).0 == ds@[q].0,
            forall|q: int| 0 <= q < k ==> (#[trigger] docs_view(ds@)[q]).0 < id,
        decreases ds@.len() - k,
    {
        k = k + 1;
    }
    k
}

/// The key bytes `ID`.
pub fn key_id_x() -> (r: Vec<u8>)
    ensures
        r@ == key_id(),
{
    let mut v: Vec<u8> = Vec::new();
    v.push(0x49);
    v.push(0x44);
    proof {
        assert(v@ =~= key_id());
    }
    v
}

/// The key bytes `value`.
pub fn key_value_x() -> (r: Vec<u8>)
    ensures
        r@ == key_value(),
{
    let mut v: Vec<u8> = Vec::new();
    v.push(0x76);
    v.push(0x61);
    v.push(0x6c);
    v.push(0x75);
    v.push(0x65);
    proof {
        assert(v@ =~= key_value());
    }
    v
}

/// Build the envelope `{"ID": "<id>", "value": doc}`.
pub fn make_env(id: u128, doc: Json) -> (r: Json)
    ensures
        r@ == env(id, doc@),
{
    let mut ms: Vec<(Vec<u8>, Json)> = Vec::new();
    let kid = key_id_x();
    let txt = crate::doc_id::id_to_text(id);
    let kval = key_value_x();
    let ghost e0 = (kid@, JsonV::Str(txt@));
    let ghost e1 = (kval@, doc@);
    ms.push((kid, Json::Str(txt)));
    ms.push((kval, doc));
    proof {
        crate::json::lemma_mviews_of(ms@);
        assert(ms@.len() == 2);
        assert(crate::json::mviews_of(ms@)[0] == (ms@[0].0@, crate::json::view_of(ms@[0].1)));
        assert(crate::json::mviews_of(ms@)[1] == (ms@[1].0@, crate::json::view_of(ms@[1].1)));
        assert(ms@[0].0@ == e0.0 && crate::json::view_of(ms@[0].1) == e0.1);
        assert(ms@[1].0@ == e1.0 && crate::json::view_of(ms@[1].1) == e1.1);
        assert(crate::json::mviews_of(ms@) =~~= seq![
            (key_id(), JsonV::Str(id_text(id))),
            (key_value(), doc@),
        ]);
    }
    Json::Obj(ms)
}

/// `envs` read element-wise.
pub proof fn lemma_envs(ds: Seq<(u128, JsonV)>)
    ensures
        envs(ds).len() == ds.len(),
        forall|k: int|
            0 <= k < ds.len() ==> envs(ds)[k] == env((#[trigger] ds[k]).0, ds[k].1),
    decreases ds.len(),
{
    if ds.len() > 0 {
        lemma_envs(ds.drop_first());
        assert forall|k: int| 0 <= k < ds.len() implies envs(ds)[k] == env(
            (#[trigger] ds[k]).0,
            ds[k].1,
        ) by {
            if k > 0 {
                assert(ds.drop_first()[k - 1] == ds[k]);
            }
        }
    }
}

/// Build the envelopes of every document, in order.
pub fn envs_x(ds: &Vec<(u128, Json)>) -> (r: Vec<Json>)
    ensures
        crate::json::views_of(r@) == envs(docs_view(ds@)),
{
    let ghost dv = docs_view(ds@);
    proof {
        lemma_docs_view(ds@);
        lemma_envs(dv);
    }
    let mut out: Vec<Json> = Vec::new();
    let mut k: usize = 0;
    while k < ds.len()
        invariant
            0 <= k <= ds@.len(),
            dv == docs_view(ds@),
            dv.len() == ds@.len(),
            forall|q: int|
                0 <= q < ds@.len() ==> dv[q] == ((#[trigger] ds@[q]).0, crate::json::view_of(
                    ds@[q].1,
                )),
            out@.len() == k,
            crate::json::views_of(out@) == envs(dv).take(k as int),
        decreases ds@.len() - k,
    {
        let ghost out0 = out@;
        let e = make_env(ds[k].0, ds[k].1.clone());
        out.push(e);
        proof {
            crate::json::lemma_views_of_push(out0, out@[k as int]);
            lemma_envs(dv);
            assert(envs(dv).take(k as int + 1) =~~= envs(dv).take(k as int).push(
                env(dv[k as int].0, dv[k as int].1),
            ));
            assert(crate::json::views_of(out@) =~~= envs(dv).take(k as int + 1));
        }
        k = k + 1;
    }
    proof {
        assert(envs(dv).take(dv.len() as int) =~= envs(dv));
    }
    out
}

/// `dump_docs` read element-wise.
pub proof fn lemma_dump_docs(ds: Seq<(u128, JsonV)>)
    ensures
        dump_docs(ds).len() == ds.len(),
        forall|k: int|
            0 <= k < ds.len() ==> dump_docs(ds)[k] == (id_text((#[trigger] ds[k]).0), ds[k].1),
    decreases ds.len(),
{
    if ds.len() > 0 {
        lemma_dump_docs(ds.drop_first());
        assert forall|k: int| 0 <= k < ds.len() implies dump_docs(ds)[k] == (id_text(
            (#[trigger] ds[k]).0,
        ), ds[k].1) by {
            if k > 0 {
                assert(ds.drop_first()[k - 1] == ds[k]);
            }
        }
    }
}

/// `dump_colls` read element-wise.
pub proof fn lemma_dump_colls(s: StoreV)
    ensures
        dump_colls(s).len() == s.len(),
        forall|k: int|
            0 <= k < s.len() ==> dump_colls(s)[k] == ((#[trigger] s[k]).0, JsonV::Obj(
                dump_docs(s[k].1),
            )),
    decreases s.len(),
{
    if s.len() > 0 {
        lemma_dump_colls(s.drop_first());
        assert forall|k: int| 0 <= k < s.len() implies dump_colls(s)[k] == ((#[trigger] s[k]).0,
        JsonV::Obj(dump_docs(s[k].1))) by {
            if k > 0 {
                assert(s.drop_first()[k - 1] == s[k]);
            }
        }
    }
}

/// Build the dump document of the whole store.
pub fn dump_json_x(cs: &Vec<Collection>) -> (r: Json)
    ensures
        r@ == JsonV::Obj(dump_colls(colls_view(cs@))),
{
    let ghost sv = colls_view(cs@);
    proof {
        lemma_colls_view(cs@);
        lemma_dump_colls(sv);
    }
    let mut out: Vec<(Vec<u8>, Json)> = Vec::new();
    let mut k: usize = 0;
    while k < cs.len()
        invariant
            0 <= k <= cs@.len(),
            sv == colls_view(cs@),
            sv.len() == cs@.len(),
            forall|q: int|
                0 <= q < cs@.len() ==> sv[q] == ((#[trigger] cs@[q]).name@, docs_view(
                    cs@[q].docs@,
                )),
            out@.len() == k,
            crate::json::mviews_of(out@) == dump_colls(sv).take(k as int),
        decreases cs@.len() - k,
    {
        let ghost out0 = out@;
        let ghost dv = docs_view(cs@[k as int].docs@);
        proof {
            lemma_docs_view(cs@[k as int].docs@);
            lemma_dump_docs(dv);
        }
        let mut inner: Vec<(Vec<u8>, Json)> = Vec::new();
        let mut q: usize = 0;
        while q < cs[k].docs.len()
            invariant
                0 <= k < cs@.len(),
                0 <= q <= cs@[k as int].docs@.len(),
                dv == docs_view(cs@[k as int].docs@),
                dv.len() == cs@[k as int].docs@.len(),
                forall|w: int|
                    0 <= w < dv.len() ==> dv[w] == ((#[trigger] cs@[k as int].docs@[w]).0,
                    crate::json::view_of(cs@[k as int].docs@[w].1)),
                inner@.len() == q,
                crate::json::mviews_of(inner@) == dump_docs(dv).take(q as int),
            decreases cs@[k as int].docs@.len() - q,
        {
            let ghost inner0 = inner@;
            inner.push(
                (
                    crate::doc_id::id_to_text(cs[k].docs[q].0),
                    cs[k].docs[q].1.clone(),
                ),
            );
            proof {
                crate::json::lemma_mviews_of_push(inner0, inner@[q as int]);
                lemma_dump_docs(dv);
                assert(dump_docs(dv).take(q as int + 1) =~~= dump_docs(dv).take(q as int).push(
                    (id_text(dv[q as int].0), dv[q as int].1),
                ));
                assert(crate::json::mviews_of(inner@) =~~= dump_docs(dv).take(q as int + 1));
            }
            q = q + 1;
        }
        proof {
            assert(dump_docs(dv).take(dv.len() as int) =~= dump_docs(dv));
        }
        let name = crate::json::clone_bytes(&cs[k].name);
        out.push((name, Json::Obj(inner)));
        proof {
            crate::json::lemma_mviews_of_push(out0, out@[k as int]);
            lemma_dump_colls(sv);
            assert(dump_colls(sv).take(k as int + 1) =~~= dump_colls(sv).take(k as int).push(
                (sv[k as int].0, JsonV::Obj(dump_docs(sv[k as int].1))),
            ));
            assert(crate::json::mviews_of(out@) =~~= dump_colls(sv).take(k as int + 1));
        }
        k = k + 1;
    }
    proof {
        assert(dump_colls(sv).take(sv.len() as int) =~= dump_colls(sv));
    }
    Json::Obj(out)
}

/// Split a uri at its first `/`.
pub fn split_uri_x(uri: &[u8]) -> (r: (Vec<u8>, Vec<u8>))
    ensures
        r.0@ == split_uri(uri@).0,
        r.1@ == split_uri(uri@).1,
{
    let p = crate::message::find_x(uri, 0, 0x2f);
    if p == uri.len() {
        let name = crate::json::copy_range(uri, 0, uri.len());
        proof {
            assert(name@ =~= uri@);
        }
        (name, Vec::new())
    } else {
        let name = crate::json::copy_range(uri, 0, p);
        let idt = crate::json::copy_range(uri, p + 1, uri.len());
        proof {
            assert(name@ =~= uri@.take(p as int));
            assert(idt@ =~= uri@.skip(p as int + 1));
        }
        (name, idt)
    }
}


/// A reply action around an error text.
fn err_reply(text: Vec<u8>) -> (r: Action)
    ensures
        r@ == ActionV::Reply(ResponseV::ERROR(text@)),
{
    Action::Reply(Response::ERROR(text))
}

/// The bytes `invalid path`.
fn err_invalid_path_x() -> (r: Vec<u8>)
    ensures
        r@ == err_invalid_path(),
{
    let mut v: Vec<u8> = Vec::new();
    v.push(0x69);
    v.push(0x6e);
    v.push(0x76);
    v.push(0x61);
    v.push(0x6c);
    v.push(0x69);
    v.push(0x64);
    v.push(0x20);
    v.push(0x70);
    v.push(0x61);
    v.push(0x74);
    v.push(0x68);
    proof {
        assert(v@ =~= err_invalid_path());
    }
    v
}

/// The bytes `collection not found`.
fn err_no_collection_x() -> (r: Vec<u8>)
    ensures
        r@ == err_no_collection(),
{
    let mut v: Vec<u8> = Vec::new();
    v.push(0x63);
    v.push(0x6f);
    v.push(0x6c);
    v.push(0x6c);
    v.push(0x65);
    v.push(0x63);
    v.push(0x74);
    v.push(0x69);
    v.push(0x6f);
    v.push(0x6e);
    v.push(0x20);
    v.push(0x6e);
    v.push(0x6f);
    v.push(0x74);
    v.push(0x20);
    v.push(0x66);
    v.push(0x6f);
    v.push(0x75);
    v.push(0x6e);
    v.push(0x64);
    proof {
        assert(v@ =~= err_no_collection());
    }
    v
}

/// The bytes `object not found`.
fn err_no_object_x() -> (r: Vec<u8>)
    ensures
        r@ == err_no_object(),
{
    let mut v: Vec<u8> = Vec::new();
    v.push(0x6f);
    v.push(0x62);
    v.push(0x6a);
    v.push(0x65);
    v.push(0x63);
    v.push(0x74);
    v.push(0x20);
    v.push(0x6e);
    v.push(0x6f);
    v.push(0x74);
    v.push(0x20);
    v.push(0x66);
    v.push(0x6f);
    v.push(0x75);
    v.push(0x6e);
    v.push(0x64);
    proof {
        assert(v@ =~= err_no_object());
    }
    v
}

/// The bytes `invalid ID`.
fn err_invalid_id_x() -> (r: Vec<u8>)
    ensures
        r@ == err_invalid_id(),
{
    let mut v: Vec<u8> = Vec::new();
    v.push(0x69);
    v.push(0x6e);
    v.push(0x76);
    v.push(0x61);
    v.push(0x6c);
    v.push(0x69);
    v.push(0x64);
    v.push(0x20);
    v.push(0x49);
    v.push(0x44);
    proof {
        assert(v@ =~= err_invalid_id());
    }
    v
}

/// The bytes `patch requires object`.
fn err_patch_object_x() -> (r: Vec<u8>)
    ensures
        r@ == err_patch_object(),
{
    let mut v: Vec<u8> = Vec::new();
    v.push(0x70);
    v.push(0x61);
    v.push(0x74);
    v.push(0x63);
    v.push(0x68);
    v.push(0x20);
    v.push(0x72);
    v.push(0x65);
    v.push(0x71);
    v.push(0x75);
    v.push(0x69);
    v.push(0x72);
    v.push(0x65);
    v.push(0x73);
    v.push(0x20);
    v.push(0x6f);
    v.push(0x62);
    v.push(0x6a);
    v.push(0x65);
    v.push(0x63);
    v.push(0x74);
    proof {
        assert(v@ =~= err_patch_object());
    }
    v
}

/// Removing a collection and putting `c` back in its place is an update.
pub proof fn lemma_update_via_remove_insert(cs0: Seq<Collection>, i: int, c: Collection)
    requires
        0 <= i < cs0.len(),
    ensures
        colls_view(cs0.remove(i).insert(i, c)) == colls_view(cs0).update(
            i,
            (c.name@, docs_view(c.docs@)),
        ),
{
    let r = cs0.remove(i).insert(i, c);
    lemma_colls_view(r);
    lemma_colls_view(cs0);
    assert forall|q: int|
        0 <= q < cs0.len() implies colls_view(r)[q] == colls_view(cs0).update(
        i,
        (c.name@, docs_view(c.docs@)),
    )[q] by {
        if q < i {
            assert(r[q] == cs0.remove(i)[q]);
            assert(cs0.remove(i)[q] == cs0[q]);
        } else if q == i {
            assert(r[q] == c);
        } else {
            assert(r[q] == cs0.remove(i)[q - 1]);
            assert(cs0.remove(i)[q - 1] == cs0[q]);
        }
    }
    assert(colls_view(r) =~~= colls_view(cs0).update(i, (c.name@, docs_view(c.docs@))));
}

impl DataStore {
    /// An empty store.
    pub fn new() -> (r: DataStore)
        ensures
            r@ == Seq::<CollV>::empty(),
            store_inv(r@),
    {
        let r = DataStore { collections: Vec::new() };
        proof {
            assert(colls_view(r.collections@) =~= Seq::<CollV>::empty());
        }
        r
    }

    /// Apply one command, binding a POST's document to `fresh`. The new
    /// store and the action are exactly what `step` says; the store's
    /// shape is preserved.
    pub fn apply(&mut self, cmd: &Command, fresh: u128) -> (r: Action)
        requires
            store_inv(old(self)@),
        ensures
            final(self)@ == step(old(self)@, cmd@, fresh).0,
            r@ == step(old(self)@, cmd@, fresh).1,
            store_inv(final(self)@),
    {
        match cmd {
            Command::PING => Action::Reply(Response::PONG),
            Command::POST { uri, body } => self.do_post(uri, body, fresh),
            Command::GET { uri } => self.do_get(uri),
            Command::PUT { uri, body } => self.do_put(uri, body),
            Command::PATCH { uri, body } => self.do_patch(uri, body),
            Command::DELETE { uri } => self.do_delete(uri),
            Command::DUMP { file } => {
                let d = dump_json_x(&self.collections);
                let text = crate::json::to_bytes(&d);
                Action::WriteDump(crate::json::clone_bytes(file), text)
            },
        }
    }

    /// POST: bind `fresh` to the body in the named collection, creating
    /// the collection if it is new.
    fn do_post(&mut self, uri: &Vec<u8>, body: &Json, fresh: u128) -> (r: Action)
        requires
            store_inv(old(self)@),
        ensures
            final(self)@ == step(old(self)@, CommandV::POST { uri: uri@, body: body@ },
                fresh).0,
            r@ == step(old(self)@, CommandV::POST { uri: uri@, body: body@ }, fresh).1,
            store_inv(final(self)@),
    {
        let ghost s0 = self@;
        let (name, _idt) = split_uri_x(uri.as_slice());
        if name.len() == 0 {
            return err_reply(err_invalid_path_x());
        }
        match find_coll_x(&self.collections, name.as_slice()) {
            None => {
                proof {
                    lemma_find_coll_char(s0, name@);
                    lemma_colls_view(self.collections@);
                }
                let mut docs: Vec<(u128, Json)> = Vec::new();
                docs.push((fresh, body.clone()));
                proof {
                    lemma_docs_view(docs@);
                    assert(docs_view(docs@) =~~= seq![(fresh, body@)]);
                }
                let ghost namev = name@;
                let coll = Collection { name, docs };
                let ghost cs0 = self.collections@;
                self.collections.push(coll);
                proof {
                    lemma_colls_view_push(cs0, coll);
                    assert(self@ =~~= s0.push((namev, seq![(fresh, body@)])));
                    let s2 = s0.push((namev, seq![(fresh, body@)]));
                    assert forall|a: int, b: int|
                        0 <= a < b < s2.len() implies (#[trigger] s2[a]).0 != (
                    #[trigger] s2[b]).0 by {
                        if b < s0.len() {
                            assert(s2[a] == s0[a] && s2[b] == s0[b]);
                        } else {
                            assert(s2[a] == s0[a] && s2[b].0 == namev);
                        }
                    }
                    assert forall|a: int| 0 <= a < s2.len() implies docs_sorted(
                        (#[trigger] s2[a]).1,
                    ) && s2[a].0.len() > 0 by {
                        if a < s0.len() {
                            assert(s2[a] == s0[a]);
                        }
                    }
                }
                Action::Reply(Response::ID(crate::doc_id::id_to_text(fresh)))
            },
            Some(i) => {
                proof {
                    lemma_find_coll_char(s0, name@);
                    lemma_colls_view(self.collections@);
                }
                let pos = insert_pos_x(&self.collections[i].docs, fresh);
                let mut coll = self.collections.remove(i);
                let ghost dv0 = docs_view(coll.docs@);
                proof {
                    assert(dv0 == s0[i as int].1);
                    assert(coll.name@ == s0[i as int].0);
                    lemma_docs_view(coll.docs@);
                    lemma_docs_insert_char(dv0, fresh, body@, pos as int);
                    lemma_docs_insert_sorted(dv0, fresh, body@, pos as int);
                }
                let eq_here = pos < coll.docs.len() && coll.docs[pos].0 == fresh;
                if eq_here {
                    let ghost cd0 = coll.docs@;
                    coll.docs.set(pos, (fresh, body.clone()));
                    proof {
                        lemma_docs_view_update(cd0, pos as int, coll.docs@[pos as int]);
                    }
                } else {
                    let ghost cd0 = coll.docs@;
                    coll.docs.insert(pos, (fresh, body.clone()));
                    proof {
                        lemma_docs_view_insert(cd0, pos as int, coll.docs@[pos as int]);
                    }
                }
                proof {
                    assert(docs_view(coll.docs@) == docs_insert(dv0, fresh, body@));
                }
                let ghost cfinal = coll;
                self.collections.insert(i, coll);
                proof {
                    lemma_update_via_remove_insert(old(self).collections@, i as int, cfinal);
                    assert(old(self).collections@.remove(i as int).insert(i as int, cfinal)
                        =~= self.collections@);
                    assert(self@ == s0.update(
                        i as int,
                        (name@, docs_insert(s0[i as int].1, fresh, body@)),
                    ));
                    let s2 = self@;
                    assert forall|a: int|
                        0 <= a < s2.len() implies docs_sorted((#[trigger] s2[a]).1)
                        && s2[a].0.len() > 0 && (forall|b: int|
                        a < b < s2.len() ==> s2[a].0 != (#[trigger] s2[b]).0) by {
                        assert(s2[a].0 == s0[a].0);
                        assert(forall|b: int|
                            a < b < s2.len() ==> (#[trigger] s2[b]).0 == s0[b].0);
                        if a != i {
                            assert(s2[a] == s0[a]);
                        }
                    }
                }
                Action::Reply(Response::ID(crate::doc_id::id_to_text(fresh)))
            },
        }
    }

    /// GET: a collection listing, or one enveloped document.
    fn do_get(&mut self, uri: &Vec<u8>) -> (r: Action)
        requires
            store_inv(old(self)@),
        ensures
            final(self)@ == step(old(self)@, CommandV::GET { uri: uri@ }, 0).0,
            final(self)@ == old(self)@,
            r@ == step(old(self)@, CommandV::GET { uri: uri@ }, 0).1,
            store_inv(final(self)@),
    {
        let ghost s0 = self@;
        let (name, idt) = split_uri_x(uri.as_slice());
        if idt.len() == 0 {
            match find_coll_x(&self.collections, name.as_slice()) {
                None => err_reply(err_no_collection_x()),
                Some(i) => {
                    proof {
                        lemma_colls_view(self.collections@);
                    }
                    let vs = envs_x(&self.collections[i].docs);
                    Action::Reply(Response::COLLECTION(vs))
                },
            }
        } else {
            match crate::doc_id::id_from_text(idt.as_slice()) {
                None => err_reply(err_invalid_id_x()),
                Some(id) => {
                    match find_coll_x(&self.collections, name.as_slice()) {
                        None => err_reply(err_no_collection_x()),
                        Some(i) => {
                            proof {
                                lemma_colls_view(self.collections@);
                            }
                            match find_doc_x(&self.collections[i].docs, id) {
                                None => err_reply(err_no_object_x()),
                                Some(j) => {
                                    proof {
                                        lemma_docs_view(self.collections@[i as int].docs@);
                                        lemma_find_doc_char(s0[i as int].1, id);
                                    }
                                    let doc = self.collections[i].docs[j].1.clone();
                                    Action::Reply(Response::OBJECT(make_env(id, doc)))
                                },
                            }
                        },
                    }
                },
            }
        }
    }

    /// PUT: replace the addressed document.
    fn do_put(&mut self, uri: &Vec<u8>, body: &Json) -> (r: Action)
        requires
            store_inv(old(self)@),
        ensures
            final(self)@ == step(old(self)@, CommandV::PUT { uri: uri@, body: body@ }, 0).0,
            r@ == step(old(self)@, CommandV::PUT { uri: uri@, body: body@ }, 0).1,
            store_inv(final(self)@),
    {
        let ghost s0 = self@;
        let (name, idt) = split_uri_x(uri.as_slice());
        if name.len() == 0 || idt.len() == 0 {
            return err_reply(err_invalid_path_x());
        }
        match find_coll_x(&self.collections, name.as_slice()) {
            None => err_reply(err_no_collection_x()),
            Some(i) => {
                match crate::doc_id::id_from_text(idt.as_slice()) {
                    None => err_reply(err_invalid_id_x()),
                    Some(id) => {
                        proof {
                            lemma_find_coll_char(s0, name@);
                            lemma_colls_view(self.collections@);
                        }
                        match find_doc_x(&self.collections[i].docs, id) {
                            None => err_reply(err_no_object_x()),
                            Some(j) => {
                                let mut coll = self.collections.remove(i);
                                let ghost dv0 = docs_view(coll.docs@);
                                let ghost cd0 = coll.docs@;
                                proof {
                                    assert(dv0 == s0[i as int].1);
                                    assert(coll.name@ == s0[i as int].0);
                                    lemma_find_doc_char(dv0, id);
                                }
                                coll.docs.set(j, (id, body.clone()));
                                proof {
                                    lemma_docs_view_update(cd0, j as int, coll.docs@[j as int]);
                                }
                                let ghost cfinal = coll;
                                self.collections.insert(i, coll);
                                proof {
                                    lemma_update_via_remove_insert(
                                        old(self).collections@,
                                        i as int,
                                        cfinal,
                                    );
                                    assert(old(self).collections@.remove(i as int).insert(
                                        i as int,
                                        cfinal,
                                    ) =~= self.collections@);
                                    assert(self@ == s0.update(
                                        i as int,
                                        (name@, dv0.update(j as int, (id, body@))),
                                    ));
                                    let nd = dv0.update(j as int, (id, body@));
                                    assert forall|a: int, b: int|
                                        0 <= a < b < nd.len() implies (#[trigger] nd[a]).0 < (
                                    #[trigger] nd[b]).0 by {
                                        assert(nd[a].0 == dv0[a].0);
                                        assert(nd[b].0 == dv0[b].0);
                                    }
                                    let s2 = self@;
                                    assert forall|a: int|
                                        0 <= a < s2.len() implies docs_sorted(
                                        (#[trigger] s2[a]).1,
                                    ) && s2[a].0.len() > 0 && (forall|b: int|
                                        a < b < s2.len() ==> s2[a].0 != (
                                        #[trigger] s2[b]).0) by {
                                        assert(s2[a].0 == s0[a].0);
                                        assert(forall|b: int|
                                            a < b < s2.len() ==> (#[trigger] s2[b]).0
                                                == s0[b].0);
                                        if a != i {
                                            assert(s2[a] == s0[a]);
                                        }
                                    }
                                }
                                Action::Reply(Response::OK)
                            },
                        }
                    },
                }
            },
        }
    }

    /// PATCH: shallow-merge the body into the addressed document; both
    /// must be objects.
    fn do_patch(&mut self, uri: &Vec<u8>, body: &Json) -> (r: Action)
        requires
            store_inv(old(self)@),
        ensures
            final(self)@ == step(old(self)@, CommandV::PATCH { uri: uri@, body: body@ },
                0).0,
            r@ == step(old(self)@, CommandV::PATCH { uri: uri@, body: body@ }, 0).1,
            store_inv(final(self)@),
    {
        let ghost s0 = self@;
        let (name, idt) = split_uri_x(uri.as_slice());
        if name.len() == 0 || idt.len() == 0 {
            return err_reply(err_invalid_path_x());
        }
        match find_coll_x(&self.collections, name.as_slice()) {
            None => err_reply(err_no_collection_x()),
            Some(i) => {
                match crate::doc_id::id_from_text(idt.as_slice()) {
                    None => err_reply(err_invalid_id_x()),
                    Some(id) => {
                        proof {
                            lemma_find_coll_char(s0, name@);
                            lemma_colls_view(self.collections@);
                        }
                        match find_doc_x(&self.collections[i].docs, id) {
                            None => err_reply(err_no_object_x()),
                            Some(j) => {
                                proof {
                                    lemma_docs_view(self.collections@[i as int].docs@);
                                    lemma_find_doc_char(s0[i as int].1, id);
                                }
                                let ok_shape = matches!(
                                    &self.collections[i].docs[j].1,
                                    Json::Obj(_),
                                ) && matches!(body, Json::Obj(_));
                                if !ok_shape {
                                    return err_reply(err_patch_object_x());
                                }
                                let mut coll = self.collections.remove(i);
                                let ghost dv0 = docs_view(coll.docs@);
                                let ghost cd0 = coll.docs@;
                                proof {
                                    assert(dv0 == s0[i as int].1);
                                    assert(coll.name@ == s0[i as int].0);
                                    lemma_find_doc_char(dv0, id);
                                }
                                let merged = match (&coll.docs[j].1, body) {
                                    (Json::Obj(dm), Json::Obj(pm)) => Json::Obj(
                                        crate::json::merge_objects(dm, pm),
                                    ),
                                    _ => {
                                        proof {
                                            assert(false);
                                        }
                                        Json::Null
                                    },
                                };
                                coll.docs.set(j, (id, merged));
                                proof {
                                    lemma_docs_view_update(cd0, j as int, coll.docs@[j as int]);
                                }
                                let ghost cfinal = coll;
                                self.collections.insert(i, coll);
                                proof {
                                    lemma_update_via_remove_insert(
                                        old(self).collections@,
                                        i as int,
                                        cfinal,
                                    );
                                    assert(old(self).collections@.remove(i as int).insert(
                                        i as int,
                                        cfinal,
                                    ) =~= self.collections@);
                                    let nd = docs_view(cfinal.docs@);
                                    assert forall|a: int, b: int|
                                        0 <= a < b < nd.len() implies (#[trigger] nd[a]).0 < (
                                    #[trigger] nd[b]).0 by {
                                        assert(nd[a].0 == dv0[a].0);
                                        assert(nd[b].0 == dv0[b].0);
                                    }
                                    let s2 = self@;
                                    assert forall|a: int|
                                        0 <= a < s2.len() implies docs_sorted(
                                        (#[trigger] s2[a]).1,
                                    ) && s2[a].0.len() > 0 && (forall|b: int|
                                        a < b < s2.len() ==> s2[a].0 != (
                                        #[trigger] s2[b]).0) by {
                                        assert(s2[a].0 == s0[a].0);
                                        assert(forall|b: int|
                                            a < b < s2.len() ==> (#[trigger] s2[b]).0
                                                == s0[b].0);
                                        if a != i {
                                            assert(s2[a] == s0[a]);
                                        }
                                    }
                                }
                                Action::Reply(Response::OK)
                            },
                        }
                    },
                }
            },
        }
    }

    /// DELETE: drop the whole collection, or one document from it.
    fn do_delete(&mut self, uri: &Vec<u8>) -> (r: Action)
        requires
            store_inv(old(self)@),
        ensures
            final(self)@ == step(old(self)@, CommandV::DELETE { uri: uri@ }, 0).0,
            r@ == step(old(self)@, CommandV::DELETE { uri: uri@ }, 0).1,
            store_inv(final(self)@),
    {
        let ghost s0 = self@;
        let (name, idt) = split_uri_x(uri.as_slice());
        if idt.len() == 0 {
            match find_coll_x(&self.collections, name.as_slice()) {
                None => err_reply(err_no_collection_x()),
                Some(i) => {
                    proof {
                        lemma_colls_view(self.collections@);
                    }
                    let ghost cs0 = self.collections@;
                    self.collections.remove(i);
                    proof {
                        lemma_colls_view_remove(cs0, i as int);
                        let s2 = self@;
                        assert(s2 == s0.remove(i as int));
                        assert forall|a: int|
                            0 <= a < s2.len() implies docs_sorted((#[trigger] s2[a]).1)
                            && s2[a].0.len() > 0 && (forall|b: int|
                            a < b < s2.len() ==> s2[a].0 != (#[trigger] s2[b]).0) by {
                            if a < i {
                                assert(s2[a] == s0[a]);
                            } else {
                                assert(s2[a] == s0[a + 1]);
                            }
                            assert forall|b: int| a < b < s2.len() implies s2[a].0 != (
                            #[trigger] s2[b]).0 by {
                                if b < i {
                                    assert(s2[b] == s0[b]);
                                } else {
                                    assert(s2[b] == s0[b + 1]);
                                }
                            }
                        }
                    }
                    Action::Reply(Response::OK)
                },
            }
        } else {
            match find_coll_x(&self.collections, name.as_slice()) {
                None => err_reply(err_no_collection_x()),
                Some(i) => {
                    match crate::doc_id::id_from_text(idt.as_slice()) {
                        None => err_reply(err_invalid_id_x()),
                        Some(id) => {
                            proof {
                                lemma_find_coll_char(s0, name@);
                                lemma_colls_view(self.collections@);
                            }
                            match find_doc_x(&self.collections[i].docs, id) {
                                None => err_reply(err_no_object_x()),
                                Some(j) => {
                                    let mut coll = self.collections.remove(i);
                                    let ghost dv0 = docs_view(coll.docs@);
                                    let ghost cd0 = coll.docs@;
                                    proof {
                                        assert(dv0 == s0[i as int].1);
                                        assert(coll.name@ == s0[i as int].0);
                                        lemma_find_doc_char(dv0, id);
                                    }
                                    coll.docs.remove(j);
                                    proof {
                                        lemma_docs_view_remove(cd0, j as int);
                                        lemma_docs_remove_char(dv0, id);
                                        lemma_remove_sorted(dv0, j as int);
                                    }
                                    let ghost cfinal = coll;
                                    self.collections.insert(i, coll);
                                    proof {
                                        lemma_update_via_remove_insert(
                                            old(self).collections@,
                                            i as int,
                                            cfinal,
                                        );
                                        assert(old(self).collections@.remove(i as int).insert(
                                            i as int,
                                            cfinal,
                                        ) =~= self.collections@);
                                        assert(self@ == s0.update(
                                            i as int,
                                            (name@, docs_remove(dv0, id)),
                                        ));
                                        let s2 = self@;
                                        assert forall|a: int|
                                            0 <= a < s2.len() implies docs_sorted(
                                            (#[trigger] s2[a]).1,
                                        ) && s2[a].0.len() > 0 && (forall|b: int|
                                            a < b < s2.len() ==> s2[a].0 != (
                                            #[trigger] s2[b]).0) by {
                                            assert(s2[a].0 == s0[a].0);
                                            assert(forall|b: int|
                                                a < b < s2.len() ==> (#[trigger] s2[b]).0
                                                    == s0[b].0);
                                            if a != i {
                                                assert(s2[a] == s0[a]);
                                            }
                                        }
                                    }
                                    Action::Reply(Response::OK)
                                },
                            }
                        },
                    }
                },
            }
        }
    }
}


/// Everything before `find`'s answer differs from the byte; the answer
/// holds it.
pub proof fn lemma_find_char(b: Seq<u8>, i: int, c: u8)
    requires
        0 <= i <= b.len(),
    ensures
        i <= find(b, i, c) <= b.len(),
        forall|k: int| i <= k < find(b, i, c) ==> b[k] != c,
        find(b, i, c) < b.len() ==> b[find(b, i, c)] == c,
    decreases b.len() - i,
{
    if i < b.len() && b[i] != c {
        lemma_find_char(b, i + 1, c);
    }
}

/// Splitting `name/idt` gives the parts back when the name is slash-free.
pub proof fn lemma_split_uri_join(name: Seq<u8>, idt: Seq<u8>)
    requires
        forall|k: int| 0 <= k < name.len() ==> name[k] != 0x2f,
    ensures
        split_uri(name + seq![0x2fu8] + idt) == (name, idt),
{
    let u = name + seq![0x2fu8] + idt;
    assert(u[name.len() as int] == 0x2f);
    lemma_find_char(u, 0, 0x2f);
    let p = find(u, 0, 0x2f);
    assert(p <= name.len()) by {
        if p > name.len() {
            assert(u[name.len() as int] != 0x2f);
        }
    }
    assert(p >= name.len()) by {
        if p < name.len() {
            assert(u[p] == name[p]);
        }
    }
    assert(u.take(p) =~= name);
    assert(u.skip(p + 1) =~= idt);
}

/// A collection's name never holds a slash when it came from `split_uri`.
pub proof fn lemma_split_name_no_slash(uri: Seq<u8>)
    ensures
        forall|k: int|
            0 <= k < split_uri(uri).0.len() ==> #[trigger] split_uri(uri).0[k] != 0x2f,
{
    lemma_find_char(uri, 0, 0x2f);
    let p = find(uri, 0, 0x2f);
    if p == uri.len() {
        assert(forall|k: int|
            0 <= k < split_uri(uri).0.len() ==> #[trigger] split_uri(uri).0[k] == uri[k]);
    } else {
        assert(forall|k: int|
            0 <= k < split_uri(uri).0.len() ==> #[trigger] split_uri(uri).0[k] == uri[k]);
    }
}

/// After the ordered insert, the inserted id is found, bound to the body.
pub proof fn lemma_insert_then_find(ds: Seq<(u128, JsonV)>, id: u128, body: JsonV)
    ensures
        find_doc(docs_insert(ds, id, body), id) >= 0,
        docs_insert(ds, id, body)[find_doc(docs_insert(ds, id, body), id)] == (id, body),
    decreases ds.len(),
{
    let r = docs_insert(ds, id, body);
    if ds.len() == 0 {
        assert(r[0] == (id, body));
        assert(r[0].0 == id);
        assert(find_doc(r, id) == 0);
    } else if id < ds[0].0 {
        assert(r[0] == (id, body));
        assert(r[0].0 == id);
        assert(find_doc(r, id) == 0);
    } else if id == ds[0].0 {
        assert(r[0] == (id, body));
        assert(r[0].0 == id);
        assert(find_doc(r, id) == 0);
    } else {
        lemma_insert_then_find(ds.drop_first(), id, body);
        let rr = docs_insert(ds.drop_first(), id, body);
        assert(r == seq![ds[0]] + rr);
        assert(r[0] == ds[0]);
        assert(ds[0].0 != id);
        let q = find_doc(rr, id);
        lemma_find_doc_char(rr, id);
        assert(0 <= q < rr.len());
        assert(forall|k: int| 0 <= k < rr.len() ==> #[trigger] r[k + 1] == rr[k]);
        assert(r.drop_first() =~= rr);
        assert(find_doc(r, id) == q + 1);
        assert(r[q + 1] == rr[q]);
        assert(r[find_doc(r, id)] == (id, body));
    }
}

/// After removing an id from a sorted list, it is no longer found.
pub proof fn lemma_remove_then_find(ds: Seq<(u128, JsonV)>, id: u128)
    requires
        docs_sorted(ds),
    ensures
        find_doc(docs_remove(ds, id), id) == -1,
    decreases ds.len(),
{
    lemma_find_doc_char(docs_remove(ds, id), id);
    if ds.len() > 0 {
        if ds[0].0 == id {
            // the tail is sorted above `id`, so `id` is not in it
            assert(forall|k: int|
                0 <= k < ds.drop_first().len() ==> (#[trigger] ds.drop_first()[k]).0 == ds[k
                    + 1].0);
            if find_doc(ds.drop_first(), id) >= 0 {
                lemma_find_doc_char(ds.drop_first(), id);
                let w = find_doc(ds.drop_first(), id);
                assert(ds[w + 1].0 == id);
                assert(ds[0].0 < ds[w + 1].0);
                assert(false);
            }
        } else {
            assert(docs_sorted(ds.drop_first())) by {
                assert(forall|k: int|
                    0 <= k < ds.drop_first().len() ==> #[trigger] ds.drop_first()[k] == ds[k
                        + 1]);
            }
            lemma_remove_then_find(ds.drop_first(), id);
            let rr = docs_remove(ds.drop_first(), id);
            assert(docs_remove(ds, id) == seq![ds[0]] + rr);
            assert(docs_remove(ds, id)[0] == ds[0]);
            assert(docs_remove(ds, id).drop_first() =~= rr);
        }
    }
}

/// Two successful POSTs with distinct fresh ids answer with distinct ids:
/// the id texts of distinct ids differ.
pub proof fn lemma_post_ids_distinct(
    s1: StoreV,
    s2: StoreV,
    c1: CommandV,
    c2: CommandV,
    f1: u128,
    f2: u128,
)
    requires
        f1 != f2,
        c1 is POST,
        c2 is POST,
        step(s1, c1, f1).1 is Reply && step(s1, c1, f1).1->Reply_0 is ID,
        step(s2, c2, f2).1 is Reply && step(s2, c2, f2).1->Reply_0 is ID,
    ensures
        step(s1, c1, f1).1 != step(s2, c2, f2).1,
{
    if id_text(f1) == id_text(f2) {
        crate::doc_id::lemma_id_text_injective(f1, f2);
    }
    match c1 {
        CommandV::POST { uri, body } => {
            assert(step(s1, c1, f1).1->Reply_0 == ResponseV::ID(id_text(f1)));
        },
        _ => {},
    }
    match c2 {
        CommandV::POST { uri, body } => {
            assert(step(s2, c2, f2).1->Reply_0 == ResponseV::ID(id_text(f2)));
        },
        _ => {},
    }
}

/// GET after POST: a successful POST of `body` to a collection, followed
/// by a GET of the returned id, answers with that document's envelope.
pub proof fn lemma_get_after_post(s: StoreV, uri: Seq<u8>, body: JsonV, fresh: u128, g: u128)
    requires
        store_inv(s),
        split_uri(uri).0.len() > 0,
    ensures
        step(s, CommandV::POST { uri, body }, fresh).1 == ActionV::Reply(
            ResponseV::ID(id_text(fresh)),
        ),
        step(
            step(s, CommandV::POST { uri, body }, fresh).0,
            CommandV::GET { uri: split_uri(uri).0 + seq![0x2fu8] + id_text(fresh) },
            g,
        ).1 == ActionV::Reply(ResponseV::OBJECT(env(fresh, body))),
{
    let name = split_uri(uri).0;
    let s1 = step(s, CommandV::POST { uri, body }, fresh).0;
    lemma_split_name_no_slash(uri);
    lemma_split_uri_join(name, id_text(fresh));
    crate::doc_id::lemma_id_round_trip(fresh);
    assert(id_text(fresh).len() == 26) by {
        crate::doc_id::lemma_text_rec_shape(fresh as nat, 26);
    }
    lemma_find_coll_char(s, name);
    let i = find_coll(s, name);
    if i < 0 {
        // a fresh collection holding exactly the new document
        let s1v = s.push((name, seq![(fresh, body)]));
        assert(s1 == s1v);
        assert(find_coll(s1v, name) == s.len()) by {
            lemma_find_coll_push(s, name, seq![(fresh, body)]);
        }
        assert(s1v[s.len() as int].1 == seq![(fresh, body)]);
        assert(find_doc(seq![(fresh, body)], fresh) == 0);
    } else {
        let nd = docs_insert(s[i].1, fresh, body);
        let s1v = s.update(i, (name, nd));
        assert(s1 == s1v);
        assert(find_coll(s1v, name) == i) by {
            lemma_find_coll_update(s, i, (name, nd));
        }
        assert(s1v[i].1 == nd);
        lemma_insert_then_find(s[i].1, fresh, body);
    }
}

/// `find_coll` finds a pushed new name at the end.
pub proof fn lemma_find_coll_push(s: StoreV, name: Seq<u8>, docs: Seq<(u128, JsonV)>)
    requires
        find_coll(s, name) == -1,
    ensures
        find_coll(s.push((name, docs)), name) == s.len(),
    decreases s.len(),
{
    lemma_find_coll_char(s, name);
    if s.len() == 0 {
        assert(s.push((name, docs))[0] == (name, docs));
    } else {
        assert(s.push((name, docs))[0] == s[0]);
        assert(s[0].0 != name);
        assert(s.push((name, docs)).drop_first() =~= s.drop_first().push((name, docs)));
        assert(find_coll(s.drop_first(), name) == -1) by {
            lemma_find_coll_char(s.drop_first(), name);
            if find_coll(s.drop_first(), name) >= 0 {
                assert(false);
            }
        }
        lemma_find_coll_push(s.drop_first(), name, docs);
    }
}

/// `find_coll` finds an updated collection where it found the old one.
pub proof fn lemma_find_coll_update(s: StoreV, i: int, c: CollV)
    requires
        store_inv(s),
        0 <= i < s.len(),
        find_coll(s, s[i].0) == i,
        c.0 == s[i].0,
    ensures
        find_coll(s.update(i, c), c.0) == i,
    decreases s.len(),
{
    if i == 0 {
        assert(s.update(0, c)[0] == c);
    } else {
        assert(s.update(i, c)[0] == s[0]);
        assert(s[0].0 != c.0);
        assert(s.update(i, c).drop_first() =~= s.drop_first().update(i - 1, c));
        assert(store_inv(s.drop_first())) by {
            assert(forall|k: int|
                0 <= k < s.drop_first().len() ==> #[trigger] s.drop_first()[k] == s[k + 1]);
        }
        assert(find_coll(s.drop_first(), s[i].0) == i - 1) by {
            lemma_find_coll_char(s, s[i].0);
            lemma_find_coll_char(s.drop_first(), s[i].0);
            assert(forall|k: int|
                0 <= k < s.drop_first().len() ==> #[trigger] s.drop_first()[k] == s[k + 1]);
            assert(s.drop_first()[i - 1].0 == s[i].0);
            let w = find_coll(s.drop_first(), s[i].0);
            if w < 0 {
                assert(false);
            }
            if w < i - 1 {
                assert(s[w + 1].0 == s[i].0);
                assert(false);
            }
            if w > i - 1 {
                assert(s.drop_first()[i - 1].0 != s[i].0);
                assert(false);
            }
        }
        assert(s.drop_first()[i - 1] == s[i]);
        lemma_find_coll_update(s.drop_first(), i - 1, c);
    }
}

/// DELETE then GET: after a successful DELETE of `coll/X`, a GET of the
/// same path answers `object not found`.
pub proof fn lemma_delete_then_get(s: StoreV, uri: Seq<u8>, g1: u128, g2: u128)
    requires
        store_inv(s),
        step(s, CommandV::DELETE { uri }, g1).1 == ActionV::Reply(ResponseV::OK),
        split_uri(uri).1.len() > 0,
    ensures
        step(
            step(s, CommandV::DELETE { uri }, g1).0,
            CommandV::GET { uri },
            g2,
        ).1 == ActionV::Reply(ResponseV::ERROR(err_no_object())),
{
    let (name, idt) = split_uri(uri);
    let i = find_coll(s, name);
    lemma_find_coll_char(s, name);
    assert(i >= 0);
    let id = id_parse(idt).unwrap();
    let j = find_doc(s[i].1, id);
    assert(j >= 0);
    let nd = docs_remove(s[i].1, id);
    let s1 = s.update(i, (name, nd));
    assert(step(s, CommandV::DELETE { uri }, g1).0 == s1);
    assert(find_coll(s1, name) == i) by {
        lemma_find_coll_update(s, i, (name, nd));
    }
    assert(s1[i].1 == nd);
    lemma_remove_then_find(s[i].1, id);
}


/// Inserting an absent id grows a document list by exactly one; inserting
/// a present id keeps its length. With distinct fresh ids, each of many
/// concurrent POSTs to one collection therefore adds exactly one entry.
pub proof fn lemma_docs_insert_len(ds: Seq<(u128, JsonV)>, id: u128, body: JsonV)
    requires
        docs_sorted(ds),
    ensures
        find_doc(ds, id) == -1 ==> docs_insert(ds, id, body).len() == ds.len() + 1,
        find_doc(ds, id) >= 0 ==> docs_insert(ds, id, body).len() == ds.len(),
    decreases ds.len(),
{
    lemma_find_doc_char(ds, id);
    if ds.len() == 0 {
        assert(docs_insert(ds, id, body).len() == 1);
    } else if id < ds[0].0 {
        assert(find_doc(ds, id) == -1) by {
            if find_doc(ds, id) >= 0 {
                let w = find_doc(ds, id);
                assert(ds[w].0 == id);
                if w > 0 {
                    assert(ds[0].0 < ds[w].0);
                }
                assert(false);
            }
        }
        assert(docs_insert(ds, id, body).len() == ds.len() + 1);
    } else if id == ds[0].0 {
        assert(find_doc(ds, id) == 0);
        assert(docs_insert(ds, id, body).len() == ds.len());
    } else {
        assert(docs_sorted(ds.drop_first())) by {
            assert(forall|k: int|
                0 <= k < ds.drop_first().len() ==> #[trigger] ds.drop_first()[k] == ds[k + 1]);
        }
        lemma_docs_insert_len(ds.drop_first(), id, body);
        lemma_find_doc_char(ds.drop_first(), id);
        assert(forall|k: int|
            0 <= k < ds.drop_first().len() ==> #[trigger] ds.drop_first()[k] == ds[k + 1]);
        if find_doc(ds, id) >= 0 {
            assert(ds.drop_first()[find_doc(ds, id) - 1].0 == id);
            if find_doc(ds.drop_first(), id) < 0 {
                assert(false);
            }
        } else {
            if find_doc(ds.drop_first(), id) >= 0 {
                let w = find_doc(ds.drop_first(), id);
                assert(ds[w + 1].0 == id);
                assert(false);
            }
        }
    }
}


/// The values of a command list.
pub open spec fn cmds_view(cs: Seq<Command>) -> Seq<CommandV>
    decreases cs,
{
    if cs.len() == 0 {
        Seq::empty()
    } else {
        seq![cs[0]@] + cmds_view(cs.drop_first())
    }
}

/// The values of an action list.
pub open spec fn actions_view(a: Seq<Action>) -> Seq<ActionV>
    decreases a,
{
    if a.len() == 0 {
        Seq::empty()
    } else {
        seq![a[0]@] + actions_view(a.drop_first())
    }
}

/// `cmds_view` read element-wise.
pub proof fn lemma_cmds_view(cs: Seq<Command>)
    ensures
        cmds_view(cs).len() == cs.len(),
        forall|k: int| 0 <= k < cs.len() ==> cmds_view(cs)[k] == (#[trigger] cs[k])@,
    decreases cs.len(),
{
    if cs.len() > 0 {
        lemma_cmds_view(cs.drop_first());
        assert forall|k: int| 0 <= k < cs.len() implies cmds_view(cs)[k] == (
        #[trigger] cs[k])@ by {
            if k > 0 {
                assert(cs.drop_first()[k - 1] == cs[k]);
            }
        }
    }
}

/// `actions_view` read element-wise.
pub proof fn lemma_actions_view(a: Seq<Action>)
    ensures
        actions_view(a).len() == a.len(),
        forall|k: int| 0 <= k < a.len() ==> actions_view(a)[k] == (#[trigger] a[k])@,
    decreases a.len(),
{
    if a.len() > 0 {
        lemma_actions_view(a.drop_first());
        assert forall|k: int| 0 <= k < a.len() implies actions_view(a)[k] == (
        #[trigger] a[k])@ by {
            if k > 0 {
                assert(a.drop_first()[k - 1] == a[k]);
            }
        }
    }
}

/// Run a command sequence from a state: the final state, and one action
/// per command, in command order.
pub open spec fn run_steps(s: StoreV, cmds: Seq<CommandV>, fresh: Seq<u128>) -> (
    StoreV,
    Seq<ActionV>,
)
    decreases cmds.len(),
{
    if cmds.len() == 0 {
        (s, Seq::empty())
    } else {
        let first = step(s, cmds[0], fresh[0]);
        let rest = run_steps(first.0, cmds.drop_first(), fresh.drop_first());
        (rest.0, seq![first.1] + rest.1)
    }
}

/// `run_steps` appends one step per appended command.
pub proof fn lemma_run_steps_push(s: StoreV, cmds: Seq<CommandV>, fresh: Seq<u128>, c: CommandV, f: u128)
    requires
        cmds.len() == fresh.len(),
    ensures
        run_steps(s, cmds.push(c), fresh.push(f)).0 == step(
            run_steps(s, cmds, fresh).0,
            c,
            f,
        ).0,
        run_steps(s, cmds.push(c), fresh.push(f)).1 == run_steps(s, cmds, fresh).1.push(
            step(run_steps(s, cmds, fresh).0, c, f).1,
        ),
    decreases cmds.len(),
{
    if cmds.len() == 0 {
        assert(cmds.push(c)[0] == c && fresh.push(f)[0] == f);
        assert(cmds.push(c).drop_first() =~= cmds);
        assert(fresh.push(f).drop_first() =~= fresh);
        assert(run_steps(s, cmds, fresh).0 == s);
        assert(run_steps(s, cmds, fresh).1 == Seq::<ActionV>::empty());
        let lhs = run_steps(s, cmds.push(c), fresh.push(f));
        assert(lhs.0 == run_steps(step(s, c, f).0, cmds, fresh).0);
        assert(lhs.0 == step(s, c, f).0);
        assert(lhs.1 == seq![step(s, c, f).1] + run_steps(step(s, c, f).0, cmds, fresh).1);
        assert(lhs.1 =~= Seq::<ActionV>::empty().push(step(s, c, f).1));
    } else {
        assert(cmds.push(c)[0] == cmds[0] && fresh.push(f)[0] == fresh[0]);
        assert(cmds.push(c).drop_first() =~= cmds.drop_first().push(c));
        assert(fresh.push(f).drop_first() =~= fresh.drop_first().push(f));
        let first = step(s, cmds[0], fresh[0]);
        lemma_run_steps_push(first.0, cmds.drop_first(), fresh.drop_first(), c, f);
        let lhs = run_steps(s, cmds.push(c), fresh.push(f));
        let mid = run_steps(first.0, cmds.drop_first(), fresh.drop_first());
        assert(lhs.0 == run_steps(first.0, cmds.drop_first().push(c), fresh.drop_first().push(
            f,
        )).0);
        assert(lhs.0 == step(mid.0, c, f).0);
        assert(run_steps(s, cmds, fresh).0 == mid.0);
        assert(run_steps(s, cmds, fresh).1 == seq![first.1] + mid.1);
        assert(lhs.1 == seq![first.1] + mid.1.push(step(mid.0, c, f).1));
        assert(lhs.1 =~= (seq![first.1] + mid.1).push(step(mid.0, c, f).1));
    }
}

impl DataStore {
    /// Apply a sequence of commands, the `k`-th POST binding `fresh[k]`.
    /// One action comes back per command, in exactly the commands' order:
    /// the per-connection ordering of the store's replies.
    pub fn apply_all(&mut self, cmds: &Vec<Command>, fresh: &Vec<u128>) -> (r: Vec<Action>)
        requires
            store_inv(old(self)@),
            cmds@.len() == fresh@.len(),
        ensures
            r@.len() == cmds@.len(),
            final(self)@ == run_steps(old(self)@, cmds_view(cmds@), fresh@).0,
            actions_view(r@) == run_steps(old(self)@, cmds_view(cmds@), fresh@).1,
            store_inv(final(self)@),
    {
        let ghost s0 = self@;
        proof {
            lemma_cmds_view(cmds@);
        }
        let mut out: Vec<Action> = Vec::new();
        let mut k: usize = 0;
        while k < cmds.len()
            invariant
                0 <= k <= cmds@.len(),
                cmds@.len() == fresh@.len(),
                cmds_view(cmds@).len() == cmds@.len(),
                forall|q: int| 0 <= q < cmds@.len() ==> cmds_view(cmds@)[q] == (
                #[trigger] cmds@[q])@,
                out@.len() == k,
                store_inv(self@),
                self@ == run_steps(s0, cmds_view(cmds@).take(k as int), fresh@.take(k as int)).0,
                actions_view(out@) == run_steps(
                    s0,
                    cmds_view(cmds@).take(k as int),
                    fresh@.take(k as int),
                ).1,
            decreases cmds@.len() - k,
        {
            let ghost out0 = out@;
            let a = self.apply(&cmds[k], fresh[k]);
            out.push(a);
            proof {
                lemma_actions_view(out0);
                lemma_actions_view(out@);
                assert forall|q: int| 0 <= q < out@.len() implies actions_view(out@)[q]
                    == actions_view(out0).push(a@)[q] by {
                    if q < out0.len() {
                        assert(out@[q] == out0[q]);
                    } else {
                        assert(out@[q] == a);
                    }
                }
                assert(actions_view(out@) =~~= actions_view(out0).push(a@));
                assert(cmds_view(cmds@).take(k as int + 1) =~~= cmds_view(cmds@).take(
                    k as int,
                ).push(cmds@[k as int]@));
                assert(fresh@.take(k as int + 1) =~= fresh@.take(k as int).push(
                    fresh@[k as int],
                ));
                lemma_run_steps_push(
                    s0,
                    cmds_view(cmds@).take(k as int),
                    fresh@.take(k as int),
                    cmds@[k as int]@,
                    fresh@[k as int],
                );
            }
            k = k + 1;
        }
        proof {
            assert(cmds_view(cmds@).take(cmds@.len() as int) =~~= cmds_view(cmds@));
            assert(fresh@.take(fresh@.len() as int) =~= fresh@);
        }
        out
    }
}

} // verus!
