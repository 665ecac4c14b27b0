//! The textual command grammar, exercised on concrete inputs.

use docstore::json::Json;
use docstore::message::Command;
use docstore::message::CommandParseError;

fn bytes(s: &str) -> Vec<u8> {
    s.as_bytes().to_vec()
}

#[test]
fn ping_parses() {
    assert_eq!(Command::try_new("ping"), Ok(Command::PING));
    assert_eq!(Command::try_new("  PING  "), Ok(Command::PING));
}

#[test]
fn ping_rejects_extras() {
    assert_eq!(
        Command::try_new("ping now"),
        Err(CommandParseError::InvalidFormat)
    );
    assert_eq!(
        Command::try_new("ping\nbody {}"),
        Err(CommandParseError::InvalidFormat)
    );
}

#[test]
fn get_parses_uri() {
    assert_eq!(
        Command::try_new("get users/abc"),
        Ok(Command::GET {
            uri: bytes("users/abc")
        })
    );
    assert_eq!(
        Command::try_new("GeT users"),
        Ok(Command::GET {
            uri: bytes("users")
        })
    );
}

#[test]
fn get_needs_uri() {
    assert_eq!(Command::try_new("get"), Err(CommandParseError::MissingUri));
    assert_eq!(Command::try_new("get   "), Err(CommandParseError::MissingUri));
}

#[test]
fn unknown_verb() {
    assert_eq!(
        Command::try_new("fetch users"),
        Err(CommandParseError::NoCommandFound)
    );
    assert_eq!(Command::try_new(""), Err(CommandParseError::NoCommandFound));
}

#[test]
fn delete_and_dump_parse() {
    assert_eq!(
        Command::try_new("delete c/1"),
        Ok(Command::DELETE { uri: bytes("c/1") })
    );
    assert_eq!(
        Command::try_new("dump out.json"),
        Ok(Command::DUMP {
            file: bytes("out.json")
        })
    );
}

#[test]
fn post_parses_body() {
    let cmd = Command::try_new("post users\nbody {\"name\":\"ada\"}").unwrap();
    match cmd {
        Command::POST { uri, body } => {
            assert_eq!(uri, bytes("users"));
            assert_eq!(
                body,
                Json::Obj(vec![(bytes("name"), Json::Str(bytes("ada")))])
            );
        }
        other => panic!("not a POST: {:?}", other),
    }
}

#[test]
fn post_needs_uri_and_body() {
    assert_eq!(Command::try_new("post"), Err(CommandParseError::MissingUri));
    assert_eq!(
        Command::try_new("post c"),
        Err(CommandParseError::MissingBody)
    );
    assert_eq!(
        Command::try_new("post c\nnada {\"x\":1}"),
        Err(CommandParseError::MissingBody)
    );
    assert_eq!(
        Command::try_new("post c\nbody {broken"),
        Err(CommandParseError::BodyParseFailed)
    );
    assert_eq!(
        Command::try_new("post c\nbody {\"x\":1}\nmore"),
        Err(CommandParseError::InvalidFormat)
    );
}

#[test]
fn put_and_patch_parse() {
    let put = Command::try_new("put c/1\nbody 5").unwrap();
    assert_eq!(
        put,
        Command::PUT {
            uri: bytes("c/1"),
            body: Json::Num(bytes("5"))
        }
    );
    let patch = Command::try_new("patch c/1\nbody [true, null]").unwrap();
    assert_eq!(
        patch,
        Command::PATCH {
            uri: bytes("c/1"),
            body: Json::Arr(vec![Json::Bool(true), Json::Null])
        }
    );
}

#[test]
fn json_parse_round_trips() {
    let text = b"{\"a\":[1,2.5e3,\"x\\n\"],\"b\":{}}";
    let v = docstore::json::parse_json(text).unwrap();
    assert_eq!(docstore::json::to_bytes(&v), text.to_vec());
}

#[test]
fn json_parse_accepts_blank_space() {
    let v = docstore::json::parse_json(b" { \"a\" : [ 1 , 2 ] } ").unwrap();
    assert_eq!(docstore::json::to_bytes(&v), b"{\"a\":[1,2]}".to_vec());
}

#[test]
fn json_parse_rejects_trailing_and_broken() {
    assert_eq!(docstore::json::parse_json(b"1 2"), None);
    assert_eq!(docstore::json::parse_json(b"{\"a\":}"), None);
    assert_eq!(docstore::json::parse_json(b"01"), None);
    assert_eq!(docstore::json::parse_json(b""), None);
    assert_eq!(docstore::json::parse_json(b"\"unterminated"), None);
}
