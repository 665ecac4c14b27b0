//! The store's command semantics, driven end to end: text command in,
//! rendered response out.

use docstore::doc_id::{fresh_id, id_from_text, id_to_text};
use docstore::json::Json;
use docstore::message::{Command, Response};
use docstore::store::{Action, DataStore};

fn bytes(s: &str) -> Vec<u8> {
    s.as_bytes().to_vec()
}

/// Run one textual command against the store and render the reply.
fn run(store: &mut DataStore, line: &str) -> String {
    match run_action(store, line) {
        Action::Reply(r) => String::from_utf8(r.render()).unwrap(),
        Action::WriteDump(_, _) => panic!("unexpected dump"),
    }
}

fn run_action(store: &mut DataStore, line: &str) -> Action {
    let cmd = Command::try_new(line).unwrap();
    store.apply(&cmd, fresh_id())
}

/// Run a POST and give back the id text the store answered with.
fn post(store: &mut DataStore, line: &str) -> String {
    let id = run(store, line);
    assert_eq!(id.len(), 26, "an id renders as 26 characters: {id}");
    id
}

#[test]
fn ping_pongs() {
    let mut store = DataStore::new();
    assert_eq!(run(&mut store, "ping"), "pong");
}

#[test]
fn post_then_get_object() {
    let mut store = DataStore::new();
    let id = post(&mut store, "post users\nbody {\"name\":\"ada\"}");
    let got = run(&mut store, &format!("get users/{id}"));
    assert_eq!(
        got,
        format!("{{\"ID\": \"{id}\", \"value\": {{\"name\": \"ada\"}}}}")
    );
}

#[test]
fn get_missing_collection() {
    let mut store = DataStore::new();
    assert_eq!(run(&mut store, "get nope"), "error: collection not found");
}

#[test]
fn put_replaces() {
    let mut store = DataStore::new();
    let id = post(&mut store, "post c\nbody {\"x\":1}");
    assert_eq!(run(&mut store, &format!("put c/{id}\nbody {{\"x\":2}}")), "ok");
    let got = run(&mut store, &format!("get c/{id}"));
    assert_eq!(got, format!("{{\"ID\": \"{id}\", \"value\": {{\"x\": 2}}}}"));
}

#[test]
fn patch_merges_shallow() {
    let mut store = DataStore::new();
    let id = post(&mut store, "post c\nbody {\"x\":1,\"y\":9}");
    assert_eq!(
        run(&mut store, &format!("patch c/{id}\nbody {{\"x\":42}}")),
        "ok"
    );
    let got = run(&mut store, &format!("get c/{id}"));
    assert_eq!(
        got,
        format!("{{\"ID\": \"{id}\", \"value\": {{\"x\": 42, \"y\": 9}}}}")
    );
}

#[test]
fn patch_requires_objects() {
    let mut store = DataStore::new();
    let id = post(&mut store, "post c\nbody 5");
    assert_eq!(
        run(&mut store, &format!("patch c/{id}\nbody {{\"x\":1}}")),
        "error: patch requires object"
    );
    let id2 = post(&mut store, "post c\nbody {}");
    assert_eq!(
        run(&mut store, &format!("patch c/{id2}\nbody 7")),
        "error: patch requires object"
    );
}

#[test]
fn delete_then_get_is_not_found() {
    let mut store = DataStore::new();
    let id = post(&mut store, "post c\nbody {\"x\":1}");
    assert_eq!(run(&mut store, &format!("delete c/{id}")), "ok");
    assert_eq!(
        run(&mut store, &format!("get c/{id}")),
        "error: object not found"
    );
}

#[test]
fn delete_whole_collection() {
    let mut store = DataStore::new();
    post(&mut store, "post c\nbody 1");
    assert_eq!(run(&mut store, "delete c"), "ok");
    assert_eq!(run(&mut store, "get c"), "error: collection not found");
    assert_eq!(run(&mut store, "delete c"), "error: collection not found");
}

#[test]
fn post_rejects_empty_name() {
    let mut store = DataStore::new();
    assert_eq!(
        run(&mut store, "post /x\nbody 1"),
        "error: invalid path"
    );
}

#[test]
fn get_rejects_bad_id() {
    let mut store = DataStore::new();
    post(&mut store, "post c\nbody 1");
    assert_eq!(run(&mut store, "get c/notanid"), "error: invalid ID");
}

#[test]
fn many_posts_all_distinct_and_listed() {
    let mut store = DataStore::new();
    let mut ids: Vec<String> = Vec::new();
    // two writers' worth of documents, one hundred each
    for k in 0..200u32 {
        let id = post(&mut store, &format!("post k\nbody {{\"n\":{k}}}"));
        ids.push(id);
    }
    let mut sorted = ids.clone();
    sorted.sort();
    sorted.dedup();
    assert_eq!(sorted.len(), 200, "every id is distinct");
    let listing = run(&mut store, "get k");
    for id in &ids {
        assert!(listing.contains(id.as_str()), "{id} is in the listing");
    }
    let cmd = Command::try_new("get k").unwrap();
    match store.apply(&cmd, fresh_id()) {
        Action::Reply(Response::COLLECTION(vs)) => assert_eq!(vs.len(), 200),
        other => panic!("not a collection: {other:?}"),
    }
}

#[test]
fn responses_arrive_in_command_order() {
    let mut store = DataStore::new();
    let lines = ["ping", "post o\nbody 1", "get nope", "ping"];
    let mut outs: Vec<String> = Vec::new();
    for line in lines {
        outs.push(run(&mut store, line));
    }
    assert_eq!(outs[0], "pong");
    assert_eq!(outs[1].len(), 26);
    assert_eq!(outs[2], "error: collection not found");
    assert_eq!(outs[3], "pong");
}

#[test]
fn dump_emits_whole_store() {
    let mut store = DataStore::new();
    let id = post(&mut store, "post c\nbody {\"x\":1}");
    match run_action(&mut store, "dump out.json") {
        Action::WriteDump(file, text) => {
            assert_eq!(file, bytes("out.json"));
            assert_eq!(
                String::from_utf8(text).unwrap(),
                format!("{{\"c\":{{\"{id}\":{{\"x\":1}}}}}}")
            );
        }
        Action::Reply(r) => panic!("expected a dump, got {r:?}"),
    }
}

#[test]
fn id_text_round_trips_and_sorts() {
    let zero = id_to_text(0);
    assert_eq!(zero, bytes("00000000000000000000000000"));
    for v in [0u128, 1, 31, 32, u128::MAX, 0x0123456789abcdef0123456789abcdefu128] {
        let t = id_to_text(v);
        assert_eq!(t.len(), 26);
        assert_eq!(id_from_text(&t), Some(v));
        // lower case is accepted too
        let lower: Vec<u8> = t.iter().map(|b| b.to_ascii_lowercase()).collect();
        assert_eq!(id_from_text(&lower), Some(v));
    }
    // numeric order matches the text's byte order
    let pairs = [(0u128, 1u128), (31, 32), (5, u128::MAX), (1 << 80, (1 << 80) + 1)];
    for (a, b) in pairs {
        assert!(id_to_text(a) < id_to_text(b));
    }
    assert_eq!(id_from_text(b"tooshort"), None);
    assert_eq!(id_from_text(b"!!!!!!!!!!!!!!!!!!!!!!!!!!"), None);
    // a leading character of 8 or above would overflow 128 bits
    assert_eq!(id_from_text(b"80000000000000000000000000"), None);
}

#[test]
fn fresh_ids_are_time_prefixed_and_distinct() {
    let a = fresh_id();
    let b = fresh_id();
    assert_ne!(a, b);
    assert_eq!(id_to_text(a).len(), 26);
}

#[test]
fn render_covers_every_shape() {
    assert_eq!(Response::PONG.render(), bytes("pong"));
    assert_eq!(Response::OK.render(), bytes("ok"));
    assert_eq!(Response::NULL.render(), bytes("null"));
    assert_eq!(Response::ID(bytes("abc")).render(), bytes("abc"));
    assert_eq!(
        Response::ERROR(bytes("parse error")).render(),
        bytes("error: parse error")
    );
    assert_eq!(
        Response::OBJECT(Json::Arr(vec![Json::Num(bytes("1")), Json::Str(bytes("s"))])).render(),
        bytes("[1, \"s\"]")
    );
    assert_eq!(
        Response::COLLECTION(vec![Json::Null, Json::Bool(false)]).render(),
        bytes("[null, false]")
    );
}

#[test]
fn collection_lists_ids_in_ascending_order() {
    let mut store = DataStore::new();
    // drive `apply` with chosen ids, out of order
    for (id, n) in [(5u128, "1"), (3, "2"), (9, "3")] {
        let cmd = Command::try_new(&format!("post c\nbody {n}")).unwrap();
        match store.apply(&cmd, id) {
            Action::Reply(Response::ID(t)) => assert_eq!(t, id_to_text(id)),
            other => panic!("not an id: {other:?}"),
        }
    }
    let cmd = Command::try_new("get c").unwrap();
    match store.apply(&cmd, fresh_id()) {
        Action::Reply(Response::COLLECTION(vs)) => {
            let texts: Vec<String> = vs
                .iter()
                .map(|v| String::from_utf8(docstore::json::to_bytes(v)).unwrap())
                .collect();
            assert!(texts[0].contains(&String::from_utf8(id_to_text(3)).unwrap()));
            assert!(texts[1].contains(&String::from_utf8(id_to_text(5)).unwrap()));
            assert!(texts[2].contains(&String::from_utf8(id_to_text(9)).unwrap()));
        }
        other => panic!("not a collection: {other:?}"),
    }
}

#[test]
fn apply_all_answers_in_order() {
    let mut store = DataStore::new();
    let cmds = vec![
        Command::try_new("ping").unwrap(),
        Command::try_new("post c\nbody 1").unwrap(),
        Command::try_new("get nope").unwrap(),
    ];
    let fresh = vec![0u128, 7, 0];
    let actions = store.apply_all(&cmds, &fresh);
    assert_eq!(actions.len(), 3);
    assert!(matches!(&actions[0], Action::Reply(Response::PONG)));
    match &actions[1] {
        Action::Reply(Response::ID(t)) => assert_eq!(*t, id_to_text(7)),
        other => panic!("not an id: {other:?}"),
    }
    match &actions[2] {
        Action::Reply(Response::ERROR(m)) => assert_eq!(m, &bytes("collection not found")),
        other => panic!("not an error: {other:?}"),
    }
}
