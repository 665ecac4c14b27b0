//! The wire codec, through real compression: every message survives the
//! round trip, and bytes that are not a zstd frame are rejected.

use docstore::codec::{deframe, encode_command, frame, DeserializeError};
use docstore::json::Json;
use docstore::message::{Command, Response};

fn bytes(s: &str) -> Vec<u8> {
    s.as_bytes().to_vec()
}

fn doc() -> Json {
    Json::Obj(vec![
        (bytes("name"), Json::Str(bytes("ada"))),
        (bytes("n"), Json::Num(bytes("42"))),
        (bytes("tags"), Json::Arr(vec![Json::Bool(true), Json::Null])),
    ])
}

#[test]
fn command_round_trip_on_wire() {
    let cases = vec![
        Command::PING,
        Command::GET { uri: bytes("users") },
        Command::GET {
            uri: bytes("users/01ARZ3NDEKTSV4RRFFQ69G5FAV"),
        },
        Command::DELETE { uri: bytes("c/1") },
        Command::DUMP {
            file: bytes("out.json"),
        },
        Command::POST {
            uri: bytes("users"),
            body: doc(),
        },
        Command::PUT {
            uri: bytes("c/x"),
            body: Json::Num(bytes("-1.5e-2")),
        },
        Command::PATCH {
            uri: bytes("c/x"),
            body: Json::Obj(vec![]),
        },
    ];
    for c in cases {
        let wire = c.to_vec().unwrap();
        let back = Command::from_slice(&wire).unwrap();
        assert_eq!(back, c);
    }
}

#[test]
fn response_round_trip_on_wire() {
    let cases = vec![
        Response::PONG,
        Response::OK,
        Response::NULL,
        Response::ID(bytes("01ARZ3NDEKTSV4RRFFQ69G5FAV")),
        Response::ERROR(bytes("collection not found")),
        Response::OBJECT(doc()),
        Response::COLLECTION(vec![doc(), Json::Null]),
        Response::COLLECTION(vec![]),
    ];
    for r in cases {
        let wire = r.to_vec().unwrap();
        let back = Response::from_slice(&wire).unwrap();
        assert_eq!(back, r);
    }
}

#[test]
fn uncompressed_bytes_are_rejected() {
    // a valid encoding, but not compressed: the compression layer must
    // reject it, so the compressor cannot be the identity
    let raw = encode_command(&Command::PING).unwrap();
    assert_eq!(
        Command::from_slice(&raw),
        Err(DeserializeError {
            bad_compression: true
        })
    );
}

#[test]
fn garbage_inside_valid_compression_is_rejected() {
    let garbage = zstd::stream::encode_all(&b"not a message"[..], 3).unwrap();
    assert_eq!(
        Command::from_slice(&garbage),
        Err(DeserializeError {
            bad_compression: false
        })
    );
}

#[test]
fn frames_round_trip() {
    let payload = bytes("hello frame");
    let framed = frame(&payload).unwrap();
    assert_eq!(framed.len(), payload.len() + 4);
    let (got, used) = deframe(&framed).unwrap();
    assert_eq!(got, payload);
    assert_eq!(used, framed.len());
    // an incomplete frame is not taken
    assert_eq!(deframe(&framed[..framed.len() - 1]), None);
    assert_eq!(deframe(b"ab"), None);
}

#[test]
fn decode_accepts_lower_case_names() {
    // the wire name is matched case-insensitively: rewrite PING's name in
    // lower case by hand and decode it
    let mut raw = encode_command(&Command::PING).unwrap();
    // envelope: 0x81, fixstr tag, then the name bytes
    for b in raw[2..6].iter_mut() {
        *b = b.to_ascii_lowercase();
    }
    let wire = zstd::stream::encode_all(&raw[..], 3).unwrap();
    assert_eq!(Command::from_slice(&wire).unwrap(), Command::PING);
}

#[test]
fn full_pipeline_over_the_wire() {
    // client side: text to command to wire bytes
    let mut store = docstore::store::DataStore::new();
    let send = |store: &mut docstore::store::DataStore, line: &str| -> String {
        let wire = Command::try_new(line).unwrap().to_vec().unwrap();
        // server side: wire bytes to command, applied to the store
        let cmd = Command::from_slice(&wire).unwrap();
        let resp = match store.apply(&cmd, docstore::doc_id::fresh_id()) {
            docstore::store::Action::Reply(r) => r,
            other => panic!("unexpected action: {other:?}"),
        };
        // and back: response to wire bytes to rendered text
        let back = Response::from_slice(&resp.to_vec().unwrap()).unwrap();
        String::from_utf8(back.render()).unwrap()
    };
    assert_eq!(send(&mut store, "ping"), "pong");
    let id = send(&mut store, "post users\nbody {\"name\":\"ada\"}");
    assert_eq!(id.len(), 26);
    assert_eq!(
        send(&mut store, &format!("get users/{id}")),
        format!("{{\"ID\": \"{id}\", \"value\": {{\"name\": \"ada\"}}}}")
    );
    assert_eq!(send(&mut store, "get nope"), "error: collection not found");
}
