//! Protocol messages: the command and response sum types, and the textual
//! command grammar the interactive client uses.
//!
//! The grammar is one verb per input, `\n`-separated lines:
//! `<verb> [SP <uri>] [NL "body" SP <json-value>]`. The verb is the first
//! blank-trimmed token of the first line, case-insensitive. `ping` takes
//! no uri and no body; `get`, `delete` and `dump` take a uri and no body;
//! `post`, `put` and `patch` take a uri and a body line beginning with the
//! word `body`. Anything after what a verb accepts is rejected.

use vstd::prelude::*;
use vstd::string::StringSliceAdditionalSpecFns;

use crate::is_ws;
use crate::json::views_of;
use crate::json::Json;
use crate::json::JsonV;
use crate::json::p_json;

verus! {

/// A protocol command.
#[derive(Debug, PartialEq, Eq)]
pub enum Command {
    PING,
    DUMP { file: Vec<u8> },
    GET { uri: Vec<u8> },
    DELETE { uri: Vec<u8> },
    POST { uri: Vec<u8>, body: Json },
    PUT { uri: Vec<u8>, body: Json },
    PATCH { uri: Vec<u8>, body: Json },
}

/// The mathematical value of a command.
pub enum CommandV {
    PING,
    DUMP { file: Seq<u8> },
    GET { uri: Seq<u8> },
    DELETE { uri: Seq<u8> },
    POST { uri: Seq<u8>, body: JsonV },
    PUT { uri: Seq<u8>, body: JsonV },
    PATCH { uri: Seq<u8>, body: JsonV },
}

impl View for Command {
    type V = CommandV;

    open spec fn view(&self) -> CommandV {
        match self {
            Command::PING => CommandV::PING,
            Command::DUMP { file } => CommandV::DUMP { file: file@ },
            Command::GET { uri } => CommandV::GET { uri: uri@ },
            Command::DELETE { uri } => CommandV::DELETE { uri: uri@ },
            Command::POST { uri, body } => CommandV::POST { uri: uri@, body: body@ },
            Command::PUT { uri, body } => CommandV::PUT { uri: uri@, body: body@ },
            Command::PATCH { uri, body } => CommandV::PATCH { uri: uri@, body: body@ },
        }
    }
}

/// A protocol response.
#[derive(Debug, PartialEq, Eq)]
pub enum Response {
    PONG,
    ID(Vec<u8>),
    OBJECT(Json),
    COLLECTION(Vec<Json>),
    NULL,
    OK,
    ERROR(Vec<u8>),
}

/// The mathematical value of a response.
pub enum ResponseV {
    PONG,
    ID(Seq<u8>),
    OBJECT(JsonV),
    COLLECTION(Seq<JsonV>),
    NULL,
    OK,
    ERROR(Seq<u8>),
}

impl View for Response {
    type V = ResponseV;

    open spec fn view(&self) -> ResponseV {
        match self {
            Response::PONG => ResponseV::PONG,
            Response::ID(t) => ResponseV::ID(t@),
            Response::OBJECT(v) => ResponseV::OBJECT(v@),
            Response::COLLECTION(vs) => ResponseV::COLLECTION(views_of(vs@)),
            Response::NULL => ResponseV::NULL,
            Response::OK => ResponseV::OK,
            Response::ERROR(m) => ResponseV::ERROR(m@),
        }
    }
}

/// Why a textual command was rejected.
#[derive(Debug, PartialEq, Eq, Clone, Copy)]
pub enum CommandParseError {
    /// The first token is not a known verb.
    NoCommandFound,
    /// The verb needs a uri and none was given.
    MissingUri,
    /// The verb needs a body line starting with the word `body`.
    MissingBody,
    /// The body is not a single valid JSON value.
    BodyParseFailed,
    /// Input after what the verb accepts.
    InvalidFormat,
}

/// The first position at or after `i` that holds byte `c`, or the length.
pub open spec fn find(s: Seq<u8>, i: int, c: u8) -> int
    decreases s.len() - i,
{
    if 0 <= i < s.len() {
        if s[i] == c {
            i
        } else {
            find(s, i + 1, c)
        }
    } else {
        s.len() as int
    }
}

/// The position after the last byte that is not blank space.
pub open spec fn trim_end(s: Seq<u8>) -> int
    decreases s.len(),
{
    if s.len() == 0 {
        0
    } else if is_ws(s.last()) {
        trim_end(s.drop_last())
    } else {
        s.len() as int
    }
}

/// `s` with blank space removed from both ends.
pub open spec fn trimmed(s: Seq<u8>) -> Seq<u8> {
    let a = crate::json::ws_count(s, 0) as int;
    let e = trim_end(s);
    if a >= e {
        Seq::empty()
    } else {
        s.subrange(a, e)
    }
}

/// Upper-case ASCII folded to lower case.
pub open spec fn lower(b: u8) -> u8 {
    if 0x41 <= b <= 0x5a {
        (b + 0x20) as u8
    } else {
        b
    }
}

/// The whole sequence folded to lower case.
pub open spec fn to_lower(s: Seq<u8>) -> Seq<u8> {
    Seq::new(s.len(), |k: int| lower(s[k]))
}

/// The verb `ping`.
pub open spec fn kw_ping() -> Seq<u8> {
    seq![0x70u8, 0x69u8, 0x6eu8, 0x67u8]
}

/// The verb `get`.
pub open spec fn kw_get() -> Seq<u8> {
    seq![0x67u8, 0x65u8, 0x74u8]
}

/// The verb `dump`.
pub open spec fn kw_dump() -> Seq<u8> {
    seq![0x64u8, 0x75u8, 0x6du8, 0x70u8]
}

/// The verb `delete`.
pub open spec fn kw_delete() -> Seq<u8> {
    seq![0x64u8, 0x65u8, 0x6cu8, 0x65u8, 0x74u8, 0x65u8]
}

/// The verb `post`.
pub open spec fn kw_post() -> Seq<u8> {
    seq![0x70u8, 0x6fu8, 0x73u8, 0x74u8]
}

/// The verb `put`.
pub open spec fn kw_put() -> Seq<u8> {
    seq![0x70u8, 0x75u8, 0x74u8]
}

/// The verb `patch`.
pub open spec fn kw_patch() -> Seq<u8> {
    seq![0x70u8, 0x61u8, 0x74u8, 0x63u8, 0x68u8]
}

/// The word `body`.
pub open spec fn kw_body() -> Seq<u8> {
    seq![0x62u8, 0x6fu8, 0x64u8, 0x79u8]
}

/// Parse the body line of a `post`, `put` or `patch`: the word `body`, a
/// space, and one JSON value.
pub open spec fn parse_body(line: Seq<u8>) -> Result<JsonV, CommandParseError> {
    let t = trimmed(line);
    let sp = find(t, 0, 0x20);
    let tok = to_lower(t.take(sp));
    let val = if sp == t.len() {
        Seq::<u8>::empty()
    } else {
        t.skip(sp + 1)
    };
    if tok != kw_body() {
        Err(CommandParseError::MissingBody)
    } else {
        match p_json(val) {
            Some(j) => Ok(j),
            None => Err(CommandParseError::BodyParseFailed),
        }
    }
}

/// Parse a textual command: the grammar this module documents, stated as
/// a function of the input bytes.
pub open spec fn parse_command(s: Seq<u8>) -> Result<CommandV, CommandParseError> {
    let nl = find(s, 0, 0x0a);
    let line1 = s.take(nl);
    let rest = if nl == s.len() {
        Seq::<u8>::empty()
    } else {
        s.skip(nl + 1)
    };
    let head = trimmed(line1);
    let sp = find(head, 0, 0x20);
    let verb = to_lower(head.take(sp));
    let uri = if sp == head.len() {
        Seq::<u8>::empty()
    } else {
        head.skip(sp + 1)
    };
    if verb == kw_ping() {
        if uri.len() == 0 && rest.len() == 0 {
            Ok(CommandV::PING)
        } else {
            Err(CommandParseError::InvalidFormat)
        }
    } else if verb == kw_get() {
        if uri.len() == 0 {
            Err(CommandParseError::MissingUri)
        } else if rest.len() != 0 {
            Err(CommandParseError::InvalidFormat)
        } else {
            Ok(CommandV::GET { uri })
        }
    } else if verb == kw_delete() {
        if uri.len() == 0 {
            Err(CommandParseError::MissingUri)
        } else if rest.len() != 0 {
            Err(CommandParseError::InvalidFormat)
        } else {
            Ok(CommandV::DELETE { uri })
        }
    } else if verb == kw_dump() {
        if uri.len() == 0 {
            Err(CommandParseError::MissingUri)
        } else if rest.len() != 0 {
            Err(CommandParseError::InvalidFormat)
        } else {
            Ok(CommandV::DUMP { file: uri })
        }
    } else if verb == kw_post() || verb == kw_put() || verb == kw_patch() {
        if uri.len() == 0 {
            Err(CommandParseError::MissingUri)
        } else {
            let nl2 = find(rest, 0, 0x0a);
            if nl2 != rest.len() {
                Err(CommandParseError::InvalidFormat)
            } else {
                match parse_body(rest) {
                    Ok(body) => Ok(
                        if verb == kw_post() {
                            CommandV::POST { uri, body }
                        } else if verb == kw_put() {
                            CommandV::PUT { uri, body }
                        } else {
                            CommandV::PATCH { uri, body }
                        },
                    ),
                    Err(e) => Err(e),
                }
            }
        }
    } else {
        Err(CommandParseError::NoCommandFound)
    }
}


/// Find byte `c` at or after `i`.
pub fn find_x(b: &[u8], i: usize, c: u8) -> (j: usize)
    requires
        i <= b@.len(),
    ensures
        j == find(b@, i as int, c),
        i <= j <= b@.len(),
        j < b@.len() ==> b@[j as int] == c,
{
    let mut j = i;
    while j < b.len() && b[j] != c
        invariant
            i <= j <= b@.len(),
            find(b@, i as int, c) == find(b@, j as int, c),
        decreases b@.len() - j,
    {
        j = j + 1;
    }
    j
}

/// A blank-space-only sequence trims to nothing.
proof fn lemma_trim_end_all_ws(s: Seq<u8>)
    requires
        forall|k: int| 0 <= k < s.len() ==> is_ws(#[trigger] s[k]),
    ensures
        trim_end(s) == 0,
    decreases s.len(),
{
    if s.len() > 0 {
        assert(forall|k: int| 0 <= k < s.drop_last().len() ==> #[trigger] s.drop_last()[k]
            == s[k]);
        lemma_trim_end_all_ws(s.drop_last());
    }
}

/// Trim the bytes of `b` between `lo` and `hi` of blank space on both
/// ends, as a fresh vector.
pub fn trimmed_x(b: &[u8], lo: usize, hi: usize) -> (r: Vec<u8>)
    requires
        lo <= hi <= b@.len(),
    ensures
        r@ == trimmed(b@.subrange(lo as int, hi as int)),
{
    let ghost seg = b@.subrange(lo as int, hi as int);
    proof {
        assert(forall|k: int| 0 <= k < seg.len() ==> #[trigger] seg[k] == b@[lo + k]);
    }
    let mut a = lo;
    while a < hi && crate::byte_is_ws(b[a])
        invariant
            lo <= a <= hi <= b@.len(),
            seg == b@.subrange(lo as int, hi as int),
            forall|k: int| 0 <= k < a - lo ==> is_ws(#[trigger] seg[k]),
            crate::json::ws_count(seg, 0) == (a - lo) + crate::json::ws_count(seg, a - lo),
        decreases hi - a,
    {
        proof {
            assert(seg[a - lo] == b@[a as int]);
        }
        a = a + 1;
    }
    proof {
        if a < hi {
            assert(seg[a - lo] == b@[a as int]);
            assert(crate::json::ws_count(seg, a - lo) == 0);
        } else {
            assert(crate::json::ws_count(seg, a - lo) == 0);
        }
    }
    proof {
        assert(seg.take(hi - lo) =~= seg);
    }
    let mut e = hi;
    while e > a && crate::byte_is_ws(b[e - 1])
        invariant
            lo <= a <= e <= hi <= b@.len(),
            seg == b@.subrange(lo as int, hi as int),
            forall|k: int| 0 <= k < a - lo ==> is_ws(#[trigger] seg[k]),
            forall|k: int| e - lo <= k < hi - lo ==> is_ws(#[trigger] seg[k]),
            trim_end(seg) == trim_end(seg.take(e - lo)),
        decreases e,
    {
        proof {
            assert(seg[e - 1 - lo] == b@[e - 1]);
            assert(seg.take(e - lo).last() == seg[e - 1 - lo]);
            assert(seg.take(e - lo).drop_last() =~= seg.take(e - 1 - lo));
        }
        e = e - 1;
    }
    proof {
        if e > a {
            assert(seg[e - 1 - lo] == b@[e - 1]);
            assert(seg.take(e - lo).last() == seg[e - 1 - lo]);
            assert(!is_ws(seg.take(e - lo).last()));
            assert(trim_end(seg) == e - lo);
            assert(crate::json::ws_count(seg, 0) == a - lo);
            assert(trimmed(seg) =~= seg.subrange(a - lo, e - lo));
            assert(forall|k: int|
                0 <= k < e - a ==> #[trigger] seg.subrange(a - lo, e - lo)[k] == b@[a + k]);
        } else {
            assert(forall|k: int|
                0 <= k < seg.take(e - lo).len() ==> is_ws(#[trigger] seg.take(e - lo)[k]));
            lemma_trim_end_all_ws(seg.take(e - lo));
            assert(trim_end(seg) == 0);
            assert(crate::json::ws_count(seg, 0) >= 0);
            assert(trimmed(seg) =~= Seq::<u8>::empty());
        }
    }
    let out = crate::json::copy_range(b, a, e);
    proof {
        if e > a {
            assert(out@ =~= trimmed(seg));
        } else {
            assert(out@ =~= trimmed(seg));
        }
    }
    out
}

/// Fold one byte to lower case.
pub fn lower_x(b: u8) -> (r: u8)
    ensures
        r == lower(b),
{
    if 0x41 <= b && b <= 0x5a {
        b + 0x20
    } else {
        b
    }
}

/// Whether `seg`, folded to lower case, is exactly `lit`.
pub fn eq_lower(seg: &[u8], lit: &[u8]) -> (r: bool)
    ensures
        r == (to_lower(seg@) == lit@),
{
    if seg.len() != lit.len() {
        proof {
            assert(to_lower(seg@).len() != lit@.len());
        }
        return false;
    }
    let mut k: usize = 0;
    while k < seg.len()
        invariant
            0 <= k <= seg@.len(),
            seg@.len() == lit@.len(),
            forall|q: int| 0 <= q < k ==> lower(seg@[q]) == lit@[q],
        decreases seg@.len() - k,
    {
        if lower_x(seg[k]) != lit[k] {
            proof {
                assert(to_lower(seg@)[k as int] != lit@[k as int]);
            }
            return false;
        }
        k = k + 1;
    }
    proof {
        assert(to_lower(seg@) =~= lit@);
    }
    true
}

/// The bytes of the verb `ping`.
pub fn kw_ping_x() -> (r: Vec<u8>)
    ensures
        r@ == kw_ping(),
{
    let mut v: Vec<u8> = Vec::new();
    v.push(0x70);
    v.push(0x69);
    v.push(0x6e);
    v.push(0x67);
    proof {
        assert(v@ =~= kw_ping());
    }
    v
}

/// The bytes of the verb `get`.
pub fn kw_get_x() -> (r: Vec<u8>)
    ensures
        r@ == kw_get(),
{
    let mut v: Vec<u8> = Vec::new();
    v.push(0x67);
    v.push(0x65);
    v.push(0x74);
    proof {
        assert(v@ =~= kw_get());
    }
    v
}

/// The bytes of the verb `dump`.
pub fn kw_dump_x() -> (r: Vec<u8>)
    ensures
        r@ == kw_dump(),
{
    let mut v: Vec<u8> = Vec::new();
    v.push(0x64);
    v.push(0x75);
    v.push(0x6d);
    v.push(0x70);
    proof {
        assert(v@ =~= kw_dump());
    }
    v
}

/// The bytes of the verb `delete`.
pub fn kw_delete_x() -> (r: Vec<u8>)
    ensures
        r@ == kw_delete(),
{
    let mut v: Vec<u8> = Vec::new();
    v.push(0x64);
    v.push(0x65);
    v.push(0x6c);
    v.push(0x65);
    v.push(0x74);
    v.push(0x65);
    proof {
        assert(v@ =~= kw_delete());
    }
    v
}

/// The bytes of the verb `post`.
pub fn kw_post_x() -> (r: Vec<u8>)
    ensures
        r@ == kw_post(),
{
    let mut v: Vec<u8> = Vec::new();
    v.push(0x70);
    v.push(0x6f);
    v.push(0x73);
    v.push(0x74);
    proof {
        assert(v@ =~= kw_post());
    }
    v
}

/// The bytes of the verb `put`.
pub fn kw_put_x() -> (r: Vec<u8>)
    ensures
        r@ == kw_put(),
{
    let mut v: Vec<u8> = Vec::new();
    v.push(0x70);
    v.push(0x75);
    v.push(0x74);
    proof {
        assert(v@ =~= kw_put());
    }
    v
}

/// The bytes of the verb `patch`.
pub fn kw_patch_x() -> (r: Vec<u8>)
    ensures
        r@ == kw_patch(),
{
    let mut v: Vec<u8> = Vec::new();
    v.push(0x70);
    v.push(0x61);
    v.push(0x74);
    v.push(0x63);
    v.push(0x68);
    proof {
        assert(v@ =~= kw_patch());
    }
    v
}

/// The bytes of the word `body`.
pub fn kw_body_x() -> (r: Vec<u8>)
    ensures
        r@ == kw_body(),
{
    let mut v: Vec<u8> = Vec::new();
    v.push(0x62);
    v.push(0x6f);
    v.push(0x64);
    v.push(0x79);
    proof {
        assert(v@ =~= kw_body());
    }
    v
}

/// Parse the body line of a `post`, `put` or `patch`.
fn parse_body_x(line: &[u8]) -> (r: Result<Json, CommandParseError>)
    ensures
        match r {
            Ok(j) => parse_body(line@) == Ok::<JsonV, CommandParseError>(j@),
            Err(e) => parse_body(line@) == Err::<JsonV, CommandParseError>(e),
        },
{
    let t = trimmed_x(line, 0, line.len());
    proof {
        assert(line@.subrange(0, line@.len() as int) =~= line@);
    }
    let sp = find_x(t.as_slice(), 0, 0x20);
    let tok = crate::json::copy_range(t.as_slice(), 0, sp);
    proof {
        assert(tok@ =~= t@.take(sp as int));
    }
    let kb = kw_body_x();
    if !eq_lower(tok.as_slice(), kb.as_slice()) {
        return Err(CommandParseError::MissingBody);
    }
    let val = if sp == t.len() {
        Vec::new()
    } else {
        crate::json::copy_range(t.as_slice(), sp + 1, t.len())
    };
    proof {
        if sp == t@.len() {
            assert(val@ =~= Seq::<u8>::empty());
        } else {
            assert(val@ =~= t@.skip(sp as int + 1));
        }
    }
    match crate::json::parse_json(val.as_slice()) {
        Some(j) => Ok(j),
        None => Err(CommandParseError::BodyParseFailed),
    }
}

impl Command {
    /// Parse a textual command. Returns exactly what `parse_command` says
    /// of the input's bytes.
    pub fn try_new(text: &str) -> (r: Result<Command, CommandParseError>)
        ensures
            match r {
                Ok(c) => parse_command(text.spec_bytes()) == Ok::<CommandV, CommandParseError>(
                    c@,
                ),
                Err(e) => parse_command(text.spec_bytes()) == Err::<CommandV, CommandParseError>(
                    e,
                ),
            },
    {
        let b = text.as_bytes();
        let nl = find_x(b, 0, 0x0a);
        let ghost line1 = b@.take(nl as int);
        let head = trimmed_x(b, 0, nl);
        proof {
            assert(b@.subrange(0, nl as int) =~= line1);
        }
        let sp = find_x(head.as_slice(), 0, 0x20);
        let verb = crate::json::copy_range(head.as_slice(), 0, sp);
        proof {
            assert(verb@ =~= head@.take(sp as int));
        }
        let uri = if sp == head.len() {
            Vec::new()
        } else {
            crate::json::copy_range(head.as_slice(), sp + 1, head.len())
        };
        proof {
            if sp == head@.len() {
                assert(uri@ =~= Seq::<u8>::empty());
            } else {
                assert(uri@ =~= head@.skip(sp as int + 1));
            }
        }
        let rest = if nl == b.len() {
            Vec::new()
        } else {
            crate::json::copy_range(b, nl + 1, b.len())
        };
        proof {
            if nl == b@.len() {
                assert(rest@ =~= Seq::<u8>::empty());
            } else {
                assert(rest@ =~= b@.skip(nl as int + 1));
            }
        }
        let kp = kw_ping_x();
        if eq_lower(verb.as_slice(), kp.as_slice()) {
            return if uri.len() == 0 && rest.len() == 0 {
                Ok(Command::PING)
            } else {
                Err(CommandParseError::InvalidFormat)
            };
        }
        let kg = kw_get_x();
        if eq_lower(verb.as_slice(), kg.as_slice()) {
            return if uri.len() == 0 {
                Err(CommandParseError::MissingUri)
            } else if rest.len() != 0 {
                Err(CommandParseError::InvalidFormat)
            } else {
                Ok(Command::GET { uri })
            };
        }
        let kd = kw_delete_x();
        if eq_lower(verb.as_slice(), kd.as_slice()) {
            return if uri.len() == 0 {
                Err(CommandParseError::MissingUri)
            } else if rest.len() != 0 {
                Err(CommandParseError::InvalidFormat)
            } else {
                Ok(Command::DELETE { uri })
            };
        }
        let ku = kw_dump_x();
        if eq_lower(verb.as_slice(), ku.as_slice()) {
            return if uri.len() == 0 {
                Err(CommandParseError::MissingUri)
            } else if rest.len() != 0 {
                Err(CommandParseError::InvalidFormat)
            } else {
                Ok(Command::DUMP { file: uri })
            };
        }
        let kpo = kw_post_x();
        let kpu = kw_put_x();
        let kpa = kw_patch_x();
        let is_post = eq_lower(verb.as_slice(), kpo.as_slice());
        let is_put = eq_lower(verb.as_slice(), kpu.as_slice());
        let is_patch = eq_lower(verb.as_slice(), kpa.as_slice());
        if is_post || is_put || is_patch {
            if uri.len() == 0 {
                return Err(CommandParseError::MissingUri);
            }
            let nl2 = find_x(rest.as_slice(), 0, 0x0a);
            if nl2 != rest.len() {
                return Err(CommandParseError::InvalidFormat);
            }
            match parse_body_x(rest.as_slice()) {
                Ok(body) => {
                    if is_post {
                        Ok(Command::POST { uri, body })
                    } else if is_put {
                        Ok(Command::PUT { uri, body })
                    } else {
                        Ok(Command::PATCH { uri, body })
                    }
                },
                Err(e) => Err(e),
            }
        } else {
            Err(CommandParseError::NoCommandFound)
        }
    }
}


/// The human-readable text of a document: like its JSON text, but with a
/// space after each comma and colon.
pub open spec fn pretty(v: JsonV) -> Seq<u8>
    decreases v, 1int,
{
    match v {
        JsonV::Null => seq![0x6eu8, 0x75u8, 0x6cu8, 0x6cu8],
        JsonV::Bool(t) => if t {
            seq![0x74u8, 0x72u8, 0x75u8, 0x65u8]
        } else {
            seq![0x66u8, 0x61u8, 0x6cu8, 0x73u8, 0x65u8]
        },
        JsonV::Num(s) => s,
        JsonV::Str(s) => seq![0x22u8] + s + seq![0x22u8],
        JsonV::Arr(vs) => seq![0x5bu8] + pretty_elems(vs) + seq![0x5du8],
        JsonV::Obj(ms) => seq![0x7bu8] + pretty_members(ms) + seq![0x7du8],
    }
}

/// The pretty elements of an array, `, `-separated.
pub open spec fn pretty_elems(vs: Seq<JsonV>) -> Seq<u8>
    decreases vs, 0int,
{
    if vs.len() == 0 {
        Seq::empty()
    } else if vs.len() == 1 {
        pretty(vs[0])
    } else {
        pretty(vs[0]) + seq![0x2cu8, 0x20u8] + pretty_elems(vs.drop_first())
    }
}

/// The pretty members of an object, `, `-separated, `: ` after each key.
pub open spec fn pretty_members(ms: Seq<(Seq<u8>, JsonV)>) -> Seq<u8>
    decreases ms, 0int,
{
    if ms.len() == 0 {
        Seq::empty()
    } else {
        let head = seq![0x22u8] + ms[0].0 + seq![0x22u8, 0x3au8, 0x20u8] + pretty(ms[0].1);
        if ms.len() == 1 {
            head
        } else {
            head + seq![0x2cu8, 0x20u8] + pretty_members(ms.drop_first())
        }
    }
}

/// The rendered text of a response: `pong`, `ok`, `null`, the bare id, the
/// pretty document, a `[ .. ]` list, or `error: <msg>`.
pub open spec fn render_spec(r: ResponseV) -> Seq<u8> {
    match r {
        ResponseV::PONG => seq![0x70u8, 0x6fu8, 0x6eu8, 0x67u8],
        ResponseV::OK => seq![0x6fu8, 0x6bu8],
        ResponseV::NULL => seq![0x6eu8, 0x75u8, 0x6cu8, 0x6cu8],
        ResponseV::ID(t) => t,
        ResponseV::ERROR(m) => seq![0x65u8, 0x72u8, 0x72u8, 0x6fu8, 0x72u8, 0x3au8, 0x20u8] + m,
        ResponseV::OBJECT(v) => pretty(v),
        ResponseV::COLLECTION(vs) => seq![0x5bu8] + pretty_elems(vs) + seq![0x5du8],
    }
}

/// `pretty_elems` grows by a separator and one element.
pub proof fn lemma_pretty_elems_push(vs: Seq<JsonV>, x: JsonV)
    ensures
        pretty_elems(vs.push(x)) == if vs.len() == 0 {
            pretty(x)
        } else {
            pretty_elems(vs) + seq![0x2cu8, 0x20u8] + pretty(x)
        },
    decreases vs.len(),
{
    if vs.len() == 0 {
        assert(vs.push(x)[0] == x);
        assert(vs.push(x).len() == 1);
    } else {
        assert(vs.push(x).drop_first() =~= vs.drop_first().push(x));
        lemma_pretty_elems_push(vs.drop_first(), x);
        if vs.len() == 1 {
            assert(pretty_elems(vs) == pretty(vs[0]));
        }
    }
}

/// `pretty_members` grows by a separator and one member.
pub proof fn lemma_pretty_members_push(ms: Seq<(Seq<u8>, JsonV)>, k: Seq<u8>, x: JsonV)
    ensures
        pretty_members(ms.push((k, x))) == if ms.len() == 0 {
            seq![0x22u8] + k + seq![0x22u8, 0x3au8, 0x20u8] + pretty(x)
        } else {
            pretty_members(ms) + seq![0x2cu8, 0x20u8] + (seq![0x22u8] + k + seq![
                0x22u8,
                0x3au8,
                0x20u8,
            ] + pretty(x))
        },
    decreases ms.len(),
{
    if ms.len() == 0 {
        assert(ms.push((k, x))[0] == (k, x));
        assert(ms.push((k, x)).len() == 1);
    } else {
        assert(ms.push((k, x)).drop_first() =~= ms.drop_first().push((k, x)));
        lemma_pretty_members_push(ms.drop_first(), k, x);
    }
}

/// Append the pretty text of `v` to `out`.
pub fn write_pretty(v: &Json, out: &mut Vec<u8>)
    ensures
        final(out)@ == old(out)@ + pretty(v@),
    decreases *v,
{
    match v {
        Json::Null => {
            out.push(0x6e);
            out.push(0x75);
            out.push(0x6c);
            out.push(0x6c);
            assert(out@ =~= old(out)@ + pretty(v@));
        },
        Json::Bool(t) => {
            if *t {
                out.push(0x74);
                out.push(0x72);
                out.push(0x75);
                out.push(0x65);
            } else {
                out.push(0x66);
                out.push(0x61);
                out.push(0x6c);
                out.push(0x73);
                out.push(0x65);
            }
            assert(out@ =~= old(out)@ + pretty(v@));
        },
        Json::Num(s) => {
            out.extend_from_slice(s.as_slice());
            assert(out@ =~= old(out)@ + pretty(v@));
        },
        Json::Str(s) => {
            out.push(0x22);
            out.extend_from_slice(s.as_slice());
            out.push(0x22);
            assert(out@ =~= old(out)@ + pretty(v@));
        },
        Json::Arr(vs) => {
            out.push(0x5b);
            let ghost base = out@;
            let mut k: usize = 0;
            while k < vs.len()
                invariant
                    0 <= k <= vs.len(),
                    *v == Json::Arr(*vs),
                    out@ == base + pretty_elems(crate::json::views_of(vs@.take(k as int))),
                decreases vs.len() - k,
            {
                if k > 0 {
                    out.push(0x2c);
                    out.push(0x20);
                }
                proof {
                    assert(decreases_to!(*v => v->Arr_0));
                    assert(v->Arr_0 == *vs);
                    assert(decreases_to!(*vs => vs@));
                    assert(decreases_to!(vs@ => vs@[k as int]));
                }
                write_pretty(&vs[k], out);
                proof {
                    assert(vs@.take(k as int + 1) =~= vs@.take(k as int).push(vs@[k as int]));
                    crate::json::lemma_views_of_push(vs@.take(k as int), vs@[k as int]);
                    lemma_pretty_elems_push(
                        crate::json::views_of(vs@.take(k as int)),
                        crate::json::view_of(vs@[k as int]),
                    );
                    assert(out@ =~= base + pretty_elems(
                        crate::json::views_of(vs@.take(k as int + 1)),
                    ));
                }
                k = k + 1;
            }
            out.push(0x5d);
            proof {
                assert(vs@.take(vs@.len() as int) =~= vs@);
                assert(out@ =~= old(out)@ + pretty(v@));
            }
        },
        Json::Obj(ms) => {
            out.push(0x7b);
            let ghost base = out@;
            let mut k: usize = 0;
            while k < ms.len()
                invariant
                    0 <= k <= ms.len(),
                    *v == Json::Obj(*ms),
                    out@ == base + pretty_members(crate::json::mviews_of(ms@.take(k as int))),
                decreases ms.len() - k,
            {
                if k > 0 {
                    out.push(0x2c);
                    out.push(0x20);
                }
                out.push(0x22);
                out.extend_from_slice(ms[k].0.as_slice());
                out.push(0x22);
                out.push(0x3a);
                out.push(0x20);
                proof {
                    assert(decreases_to!(*v => v->Obj_0));
                    assert(v->Obj_0 == *ms);
                    assert(decreases_to!(*ms => ms@));
                    assert(decreases_to!(ms@ => ms@[k as int]));
                }
                write_pretty(&ms[k].1, out);
                proof {
                    assert(ms@.take(k as int + 1) =~= ms@.take(k as int).push(ms@[k as int]));
                    crate::json::lemma_mviews_of_push(ms@.take(k as int), ms@[k as int]);
                    lemma_pretty_members_push(
                        crate::json::mviews_of(ms@.take(k as int)),
                        ms@[k as int].0@,
                        crate::json::view_of(ms@[k as int].1),
                    );
                    assert(out@ =~= base + pretty_members(
                        crate::json::mviews_of(ms@.take(k as int + 1)),
                    ));
                }
                k = k + 1;
            }
            out.push(0x7d);
            proof {
                assert(ms@.take(ms@.len() as int) =~= ms@);
                assert(out@ =~= old(out)@ + pretty(v@));
            }
        },
    }
}

impl Response {
    /// The rendered text of this response, exactly `render_spec` of its
    /// value.
    pub fn render(&self) -> (r: Vec<u8>)
        ensures
            r@ == render_spec(self@),
    {
        let mut out: Vec<u8> = Vec::new();
        match self {
            Response::PONG => {
                out.push(0x70);
                out.push(0x6f);
                out.push(0x6e);
                out.push(0x67);
                proof {
                    assert(out@ =~= render_spec(self@));
                }
            },
            Response::OK => {
                out.push(0x6f);
                out.push(0x6b);
                proof {
                    assert(out@ =~= render_spec(self@));
                }
            },
            Response::NULL => {
                out.push(0x6e);
                out.push(0x75);
                out.push(0x6c);
                out.push(0x6c);
                proof {
                    assert(out@ =~= render_spec(self@));
                }
            },
            Response::ID(t) => {
                out.extend_from_slice(t.as_slice());
                proof {
                    assert(out@ =~= render_spec(self@));
                }
            },
            Response::ERROR(m) => {
                out.push(0x65);
                out.push(0x72);
                out.push(0x72);
                out.push(0x6f);
                out.push(0x72);
                out.push(0x3a);
                out.push(0x20);
                out.extend_from_slice(m.as_slice());
                proof {
                    assert(out@ =~= render_spec(self@));
                }
            },
            Response::OBJECT(v) => {
                write_pretty(v, &mut out);
                proof {
                    assert(out@ =~= render_spec(self@));
                }
            },
            Response::COLLECTION(vs) => {
                out.push(0x5b);
                let ghost base = out@;
                let mut k: usize = 0;
                while k < vs.len()
                    invariant
                        0 <= k <= vs.len(),
                        out@ == base + pretty_elems(crate::json::views_of(vs@.take(k as int))),
                    decreases vs.len() - k,
                {
                    if k > 0 {
                        out.push(0x2c);
                        out.push(0x20);
                    }
                    write_pretty(&vs[k], &mut out);
                    proof {
                        assert(vs@.take(k as int + 1) =~= vs@.take(k as int).push(
                            vs@[k as int],
                        ));
                        crate::json::lemma_views_of_push(vs@.take(k as int), vs@[k as int]);
                        lemma_pretty_elems_push(
                            crate::json::views_of(vs@.take(k as int)),
                            crate::json::view_of(vs@[k as int]),
                        );
                        assert(out@ =~= base + pretty_elems(
                            crate::json::views_of(vs@.take(k as int + 1)),
                        ));
                    }
                    k = k + 1;
                }
                out.push(0x5d);
                proof {
                    assert(vs@.take(vs@.len() as int) =~= vs@);
                    assert(out@ =~= render_spec(self@));
                }
            },
        }
        out
    }
}

} // verus!
