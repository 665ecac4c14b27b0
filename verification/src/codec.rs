//! The wire codec: one message per frame, the frame payload being the
//! zstd-compressed bytes of a variant-tagged binary encoding.
//!
//! A message is a one-entry map from the variant's name (a short string,
//! matched case-insensitively on decode) to its payload: nothing for the
//! bare variants, the uri or the text for the single-field ones, and the
//! uri plus the document's JSON text for the commands that carry a body.
//! A frame on the socket is a 4-byte big-endian length followed by that
//! many payload bytes.

use vstd::prelude::*;

use vstd::arithmetic::div_mod::lemma_div_denominator;
use vstd::arithmetic::div_mod::lemma_fundamental_div_mod;
use vstd::arithmetic::div_mod::lemma_multiply_divide_lt;
use vstd::arithmetic::div_mod::lemma_small_mod;

use crate::json::p_json;
use crate::json::ser;
use crate::json::wf;
use crate::json::Json;
use crate::json::JsonV;
use crate::message::to_lower;
use crate::message::Command;
use crate::message::CommandV;
use crate::message::Response;
use crate::message::ResponseV;

verus! {

/// What `zstd` decompression returns on given bytes: `None` where they are
/// not a valid frame. Decompression is a function of the bytes alone.
pub uninterp spec fn unzstd_of(b: Seq<u8>) -> Option<Seq<u8>>;

/// Relies on `zstd::stream::encode_all` at level 3: its output is a zstd
/// frame that `decode_all` restores losslessly to the input.
#[verifier::external_body]
fn zstd_compress(data: &[u8]) -> (r: Option<Vec<u8>>)
    ensures
        r matches Some(c) ==> unzstd_of(c@) == Some(data@),
{
    match zstd::stream::encode_all(data, 3) {
        Ok(v) => Some(v),
        Err(_) => None,
    }
}

/// Relies on `zstd::stream::decode_all`: decompression depends on the
/// input bytes alone; `unzstd_of` names its result.
#[verifier::external_body]
fn zstd_decompress(data: &[u8]) -> (r: Option<Vec<u8>>)
    ensures
        r matches Some(v) ==> unzstd_of(data@) == Some(v@),
        r is None ==> unzstd_of(data@) is None,
{
    match zstd::stream::decode_all(data) {
        Ok(v) => Some(v),
        Err(_) => None,
    }
}

/// Why bytes could not be read back as a message.
#[derive(Debug, PartialEq, Eq)]
pub struct DeserializeError {
    /// `true` when the compressed layer was unreadable, `false` when the
    /// decompressed bytes were not a message.
    pub bad_compression: bool,
}

/// Why a message could not be turned into bytes: some part of it is too
/// long for the wire, or the compressor failed.
#[derive(Debug, PartialEq, Eq)]
pub struct SerializeError {
    /// `true` when a length exceeded the wire's 32-bit limit, `false`
    /// when the compressor failed.
    pub too_long: bool,
}

/// A length as four big-endian bytes.
pub open spec fn be32(n: nat) -> Seq<u8> {
    seq![
        ((n / 0x1000000) % 0x100) as u8,
        ((n / 0x10000) % 0x100) as u8,
        ((n / 0x100) % 0x100) as u8,
        (n % 0x100) as u8,
    ]
}

/// Four big-endian bytes as a length.
pub open spec fn dec_be32(b: Seq<u8>) -> nat
    recommends
        b.len() == 4,
{
    (b[0] as nat) * 0x1000000 + (b[1] as nat) * 0x10000 + (b[2] as nat) * 0x100 + (b[3] as nat)
}

/// A short string: its length tag and its bytes.
pub open spec fn fixstr(s: Seq<u8>) -> Seq<u8>
    recommends
        s.len() < 32,
{
    seq![(0xa0 + s.len()) as u8] + s
}

/// A string with a 32-bit length.
pub open spec fn str32(s: Seq<u8>) -> Seq<u8> {
    seq![0xdbu8] + be32(s.len()) + s
}

/// Bytes with a 32-bit length.
pub open spec fn bin32(s: Seq<u8>) -> Seq<u8> {
    seq![0xc6u8] + be32(s.len()) + s
}

/// The name `PING`.
pub open spec fn nm_ping() -> Seq<u8> {
    seq![0x50u8, 0x49u8, 0x4eu8, 0x47u8]
}

/// The name `GET`.
pub open spec fn nm_get() -> Seq<u8> {
    seq![0x47u8, 0x45u8, 0x54u8]
}

/// The name `DELETE`.
pub open spec fn nm_delete() -> Seq<u8> {
    seq![0x44u8, 0x45u8, 0x4cu8, 0x45u8, 0x54u8, 0x45u8]
}

/// The name `DUMP`.
pub open spec fn nm_dump() -> Seq<u8> {
    seq![0x44u8, 0x55u8, 0x4du8, 0x50u8]
}

/// The name `POST`.
pub open spec fn nm_post() -> Seq<u8> {
    seq![0x50u8, 0x4fu8, 0x53u8, 0x54u8]
}

/// The name `PUT`.
pub open spec fn nm_put() -> Seq<u8> {
    seq![0x50u8, 0x55u8, 0x54u8]
}

/// The name `PATCH`.
pub open spec fn nm_patch() -> Seq<u8> {
    seq![0x50u8, 0x41u8, 0x54u8, 0x43u8, 0x48u8]
}

/// The name `PONG`.
pub open spec fn nm_pong() -> Seq<u8> {
    seq![0x50u8, 0x4fu8, 0x4eu8, 0x47u8]
}

/// The name `ID`.
pub open spec fn nm_id() -> Seq<u8> {
    seq![0x49u8, 0x44u8]
}

/// The name `OBJECT`.
pub open spec fn nm_object() -> Seq<u8> {
    seq![0x4fu8, 0x42u8, 0x4au8, 0x45u8, 0x43u8, 0x54u8]
}

/// The name `COLLECTION`.
pub open spec fn nm_collection() -> Seq<u8> {
    seq![0x43u8, 0x4fu8, 0x4cu8, 0x4cu8, 0x45u8, 0x43u8, 0x54u8, 0x49u8, 0x4fu8, 0x4eu8]
}

/// The name `NULL`.
pub open spec fn nm_null() -> Seq<u8> {
    seq![0x4eu8, 0x55u8, 0x4cu8, 0x4cu8]
}

/// The name `OK`.
pub open spec fn nm_ok() -> Seq<u8> {
    seq![0x4fu8, 0x4bu8]
}

/// The name `ERROR`.
pub open spec fn nm_error() -> Seq<u8> {
    seq![0x45u8, 0x52u8, 0x52u8, 0x4fu8, 0x52u8]
}

/// The key `uri` with its tag.
pub open spec fn key_uri() -> Seq<u8> {
    seq![0xa3u8, 0x75u8, 0x72u8, 0x69u8]
}

/// The key `file` with its tag.
pub open spec fn key_file() -> Seq<u8> {
    seq![0xa4u8, 0x66u8, 0x69u8, 0x6cu8, 0x65u8]
}

/// The key `body` with its tag.
pub open spec fn key_body() -> Seq<u8> {
    seq![0xa4u8, 0x62u8, 0x6fu8, 0x64u8, 0x79u8]
}

/// The one-entry map around a variant name and its payload.
pub open spec fn envelope(name: Seq<u8>, payload: Seq<u8>) -> Seq<u8> {
    seq![0x81u8] + fixstr(name) + payload
}

/// The 32-bit wire limit.
pub open spec fn fits32(n: nat) -> bool {
    n < 0x100000000
}

/// Whether a command's parts fit the wire.
pub open spec fn cmd_fits(c: CommandV) -> bool {
    match c {
        CommandV::PING => true,
        CommandV::GET { uri } => fits32(uri.len()),
        CommandV::DELETE { uri } => fits32(uri.len()),
        CommandV::DUMP { file } => fits32(file.len()),
        CommandV::POST { uri, body } => fits32(uri.len()) && fits32(ser(body).len()),
        CommandV::PUT { uri, body } => fits32(uri.len()) && fits32(ser(body).len()),
        CommandV::PATCH { uri, body } => fits32(uri.len()) && fits32(ser(body).len()),
    }
}

/// A command's body, where it has one, is well-formed.
pub open spec fn cmd_wf(c: CommandV) -> bool {
    match c {
        CommandV::POST { uri, body } => wf(body),
        CommandV::PUT { uri, body } => wf(body),
        CommandV::PATCH { uri, body } => wf(body),
        _ => true,
    }
}

/// Whether a response's parts fit the wire.
pub open spec fn resp_fits(r: ResponseV) -> bool {
    match r {
        ResponseV::PONG => true,
        ResponseV::NULL => true,
        ResponseV::OK => true,
        ResponseV::ID(t) => fits32(t.len()),
        ResponseV::ERROR(m) => fits32(m.len()),
        ResponseV::OBJECT(v) => fits32(ser(v).len()),
        ResponseV::COLLECTION(vs) => fits32(ser(JsonV::Arr(vs)).len()),
    }
}

/// A response's documents are well-formed.
pub open spec fn resp_wf(r: ResponseV) -> bool {
    match r {
        ResponseV::OBJECT(v) => wf(v),
        ResponseV::COLLECTION(vs) => forall|k: int| 0 <= k < vs.len() ==> wf(#[trigger] vs[k]),
        _ => true,
    }
}

/// The payload that carries a uri alone.
pub open spec fn payload_uri(uri: Seq<u8>) -> Seq<u8> {
    seq![0x81u8] + key_uri() + str32(uri)
}

/// The payload that carries a file path alone.
pub open spec fn payload_file(file: Seq<u8>) -> Seq<u8> {
    seq![0x81u8] + key_file() + str32(file)
}

/// The payload that carries a uri and a document.
pub open spec fn payload_uri_body(uri: Seq<u8>, body: JsonV) -> Seq<u8> {
    seq![0x82u8] + key_uri() + str32(uri) + key_body() + bin32(ser(body))
}

/// The encoded bytes of a command, before compression.
pub open spec fn enc_cmd(c: CommandV) -> Seq<u8> {
    match c {
        CommandV::PING => envelope(nm_ping(), seq![0xc0u8]),
        CommandV::GET { uri } => envelope(nm_get(), payload_uri(uri)),
        CommandV::DELETE { uri } => envelope(nm_delete(), payload_uri(uri)),
        CommandV::DUMP { file } => envelope(nm_dump(), payload_file(file)),
        CommandV::POST { uri, body } => envelope(nm_post(), payload_uri_body(uri, body)),
        CommandV::PUT { uri, body } => envelope(nm_put(), payload_uri_body(uri, body)),
        CommandV::PATCH { uri, body } => envelope(nm_patch(), payload_uri_body(uri, body)),
    }
}

/// The encoded bytes of a response, before compression.
pub open spec fn enc_resp(r: ResponseV) -> Seq<u8> {
    match r {
        ResponseV::PONG => envelope(nm_pong(), seq![0xc0u8]),
        ResponseV::NULL => envelope(nm_null(), seq![0xc0u8]),
        ResponseV::OK => envelope(nm_ok(), seq![0xc0u8]),
        ResponseV::ID(t) => envelope(nm_id(), str32(t)),
        ResponseV::ERROR(m) => envelope(nm_error(), str32(m)),
        ResponseV::OBJECT(v) => envelope(nm_object(), bin32(ser(v))),
        ResponseV::COLLECTION(vs) => envelope(nm_collection(), bin32(ser(JsonV::Arr(vs)))),
    }
}


/// The name `pong`, lower case.
pub open spec fn kw_pong() -> Seq<u8> {
    seq![0x70u8, 0x6fu8, 0x6eu8, 0x67u8]
}

/// The name `id`, lower case.
pub open spec fn kw_id() -> Seq<u8> {
    seq![0x69u8, 0x64u8]
}

/// The name `object`, lower case.
pub open spec fn kw_object() -> Seq<u8> {
    seq![0x6fu8, 0x62u8, 0x6au8, 0x65u8, 0x63u8, 0x74u8]
}

/// The name `collection`, lower case.
pub open spec fn kw_collection() -> Seq<u8> {
    seq![0x63u8, 0x6fu8, 0x6cu8, 0x6cu8, 0x65u8, 0x63u8, 0x74u8, 0x69u8, 0x6fu8, 0x6eu8]
}

/// The name `null`, lower case.
pub open spec fn kw_null() -> Seq<u8> {
    seq![0x6eu8, 0x75u8, 0x6cu8, 0x6cu8]
}

/// The name `ok`, lower case.
pub open spec fn kw_ok() -> Seq<u8> {
    seq![0x6fu8, 0x6bu8]
}

/// The name `error`, lower case.
pub open spec fn kw_error() -> Seq<u8> {
    seq![0x65u8, 0x72u8, 0x72u8, 0x6fu8, 0x72u8]
}

/// Read a `str32` at `i`: its bytes and how much was covered.
pub open spec fn p_str32(b: Seq<u8>, i: int) -> Option<(Seq<u8>, nat)> {
    if 0 <= i && i + 5 <= b.len() && b[i] == 0xdb {
        let n = dec_be32(b.subrange(i + 1, i + 5));
        if i + 5 + n <= b.len() {
            Some((b.subrange(i + 5, i + 5 + n), (5 + n) as nat))
        } else {
            None
        }
    } else {
        None
    }
}

/// Read a `bin32` at `i`: its bytes and how much was covered.
pub open spec fn p_bin32(b: Seq<u8>, i: int) -> Option<(Seq<u8>, nat)> {
    if 0 <= i && i + 5 <= b.len() && b[i] == 0xc6 {
        let n = dec_be32(b.subrange(i + 1, i + 5));
        if i + 5 + n <= b.len() {
            Some((b.subrange(i + 5, i + 5 + n), (5 + n) as nat))
        } else {
            None
        }
    } else {
        None
    }
}

/// Read the envelope head: the lowercased variant name, and how much was
/// covered.
pub open spec fn p_name(b: Seq<u8>) -> Option<(Seq<u8>, nat)> {
    if b.len() >= 2 && b[0] == 0x81 && 0xa1 <= b[1] <= 0xbf {
        let l = (b[1] - 0xa0) as nat;
        if 2 + l <= b.len() {
            Some((to_lower(b.subrange(2, 2 + l as int)), 2 + l))
        } else {
            None
        }
    } else {
        None
    }
}

/// Read a uri-only payload at `i`.
pub open spec fn p_payload_uri(b: Seq<u8>, i: int) -> Option<(Seq<u8>, nat)> {
    if 0 <= i && i + 5 <= b.len() && b[i] == 0x81 && b[i + 1] == 0xa3 && b[i + 2] == 0x75 && b[i
        + 3] == 0x72 && b[i + 4] == 0x69 {
        match p_str32(b, i + 5) {
            Some((s, n)) => Some((s, 5 + n)),
            None => None,
        }
    } else {
        None
    }
}

/// Read a file-only payload at `i`.
pub open spec fn p_payload_file(b: Seq<u8>, i: int) -> Option<(Seq<u8>, nat)> {
    if 0 <= i && i + 6 <= b.len() && b[i] == 0x81 && b[i + 1] == 0xa4 && b[i + 2] == 0x66 && b[i
        + 3] == 0x69 && b[i + 4] == 0x6c && b[i + 5] == 0x65 {
        match p_str32(b, i + 6) {
            Some((s, n)) => Some((s, 6 + n)),
            None => None,
        }
    } else {
        None
    }
}

/// Read a uri-and-body payload at `i`: the uri, the body text, and how
/// much was covered.
pub open spec fn p_payload_uri_body(b: Seq<u8>, i: int) -> Option<(Seq<u8>, Seq<u8>, nat)> {
    if 0 <= i && i + 5 <= b.len() && b[i] == 0x82 && b[i + 1] == 0xa3 && b[i + 2] == 0x75 && b[i
        + 3] == 0x72 && b[i + 4] == 0x69 {
        match p_str32(b, i + 5) {
            Some((uri, n1)) => {
                let j = i + 5 + n1;
                if j + 5 <= b.len() && b[j] == 0xa4 && b[j + 1] == 0x62 && b[j + 2] == 0x6f && b[j
                    + 3] == 0x64 && b[j + 4] == 0x79 {
                    match p_bin32(b, j + 5) {
                        Some((text, n2)) => Some((uri, text, 5 + n1 + 5 + n2)),
                        None => None,
                    }
                } else {
                    None
                }
            },
            None => None,
        }
    } else {
        None
    }
}

/// Decode a command from uncompressed bytes: the inverse of `enc_cmd` on
/// every encoding, tolerant of any case in the variant name.
pub open spec fn dec_cmd(b: Seq<u8>) -> Option<CommandV> {
    match p_name(b) {
        None => None,
        Some((name, i0)) => {
            let i = i0 as int;
            if name == crate::message::kw_ping() {
                if i < b.len() && b[i] == 0xc0 && i + 1 == b.len() {
                    Some(CommandV::PING)
                } else {
                    None
                }
            } else if name == crate::message::kw_get() {
                match p_payload_uri(b, i) {
                    Some((uri, m)) => if i + m == b.len() {
                        Some(CommandV::GET { uri })
                    } else {
                        None
                    },
                    None => None,
                }
            } else if name == crate::message::kw_delete() {
                match p_payload_uri(b, i) {
                    Some((uri, m)) => if i + m == b.len() {
                        Some(CommandV::DELETE { uri })
                    } else {
                        None
                    },
                    None => None,
                }
            } else if name == crate::message::kw_dump() {
                match p_payload_file(b, i) {
                    Some((file, m)) => if i + m == b.len() {
                        Some(CommandV::DUMP { file })
                    } else {
                        None
                    },
                    None => None,
                }
            } else if name == crate::message::kw_post() || name == crate::message::kw_put()
                || name == crate::message::kw_patch() {
                match p_payload_uri_body(b, i) {
                    Some((uri, text, m)) => if i + m == b.len() {
                        match p_json(text) {
                            Some(body) => Some(
                                if name == crate::message::kw_post() {
                                    CommandV::POST { uri, body }
                                } else if name == crate::message::kw_put() {
                                    CommandV::PUT { uri, body }
                                } else {
                                    CommandV::PATCH { uri, body }
                                },
                            ),
                            None => None,
                        }
                    } else {
                        None
                    },
                    None => None,
                }
            } else {
                None
            }
        },
    }
}

/// Decode a response from uncompressed bytes: the inverse of `enc_resp` on
/// every encoding, tolerant of any case in the variant name.
pub open spec fn dec_resp(b: Seq<u8>) -> Option<ResponseV> {
    match p_name(b) {
        None => None,
        Some((name, i0)) => {
            let i = i0 as int;
            if name == kw_pong() {
                if i < b.len() && b[i] == 0xc0 && i + 1 == b.len() {
                    Some(ResponseV::PONG)
                } else {
                    None
                }
            } else if name == kw_null() {
                if i < b.len() && b[i] == 0xc0 && i + 1 == b.len() {
                    Some(ResponseV::NULL)
                } else {
                    None
                }
            } else if name == kw_ok() {
                if i < b.len() && b[i] == 0xc0 && i + 1 == b.len() {
                    Some(ResponseV::OK)
                } else {
                    None
                }
            } else if name == kw_id() {
                match p_str32(b, i) {
                    Some((t, m)) => if i + m == b.len() {
                        Some(ResponseV::ID(t))
                    } else {
                        None
                    },
                    None => None,
                }
            } else if name == kw_error() {
                match p_str32(b, i) {
                    Some((t, m)) => if i + m == b.len() {
                        Some(ResponseV::ERROR(t))
                    } else {
                        None
                    },
                    None => None,
                }
            } else if name == kw_object() {
                match p_bin32(b, i) {
                    Some((text, m)) => if i + m == b.len() {
                        match p_json(text) {
                            Some(v) => Some(ResponseV::OBJECT(v)),
                            None => None,
                        }
                    } else {
                        None
                    },
                    None => None,
                }
            } else if name == kw_collection() {
                match p_bin32(b, i) {
                    Some((text, m)) => if i + m == b.len() {
                        match p_json(text) {
                            Some(JsonV::Arr(vs)) => Some(ResponseV::COLLECTION(vs)),
                            _ => None,
                        }
                    } else {
                        None
                    },
                    None => None,
                }
            } else {
                None
            }
        },
    }
}


/// Append four big-endian length bytes.
fn push_be32(out: &mut Vec<u8>, n: usize)
    requires
        n < 0x100000000,
    ensures
        final(out)@ == old(out)@ + be32(n as nat),
{
    out.push((n / 0x1000000 % 0x100) as u8);
    out.push((n / 0x10000 % 0x100) as u8);
    out.push((n / 0x100 % 0x100) as u8);
    out.push((n % 0x100) as u8);
    proof {
        assert(out@ =~= old(out)@ + be32(n as nat));
    }
}

/// Append a `str32`.
fn push_str32(out: &mut Vec<u8>, s: &[u8])
    requires
        s@.len() < 0x100000000,
    ensures
        final(out)@ == old(out)@ + str32(s@),
{
    out.push(0xdb);
    push_be32(out, s.len());
    out.extend_from_slice(s);
    proof {
        assert(out@ =~= old(out)@ + str32(s@));
    }
}

/// Append a `bin32`.
fn push_bin32(out: &mut Vec<u8>, s: &[u8])
    requires
        s@.len() < 0x100000000,
    ensures
        final(out)@ == old(out)@ + bin32(s@),
{
    out.push(0xc6);
    push_be32(out, s.len());
    out.extend_from_slice(s);
    proof {
        assert(out@ =~= old(out)@ + bin32(s@));
    }
}

/// Whether a length fits the wire.
fn fits32_x(n: usize) -> (r: bool)
    ensures
        r == fits32(n as nat),
{
    (n as u64) < 0x100000000u64
}

/// Encode a command to uncompressed bytes; `None` when a part does not
/// fit the wire.
#[verifier::rlimit(60)]
pub fn encode_command(c: &Command) -> (r: Option<Vec<u8>>)
    ensures
        r matches Some(v) ==> cmd_fits(c@) && v@ == enc_cmd(c@),
        r is None ==> !cmd_fits(c@),
{
    let mut out: Vec<u8> = Vec::new();
    out.push(0x81);
    match c {
        Command::PING => {
            out.push(0xa4);
            out.push(0x50);
            out.push(0x49);
            out.push(0x4e);
            out.push(0x47);
            out.push(0xc0);
            proof {
                assert(out@ =~= enc_cmd(c@));
            }
            Some(out)
        },
        Command::GET { uri } => {
            if !fits32_x(uri.len()) {
                return None;
            }
            out.push(0xa3);
            out.push(0x47);
            out.push(0x45);
            out.push(0x54);
            out.push(0x81);
            out.push(0xa3);
            out.push(0x75);
            out.push(0x72);
            out.push(0x69);
            push_str32(&mut out, uri.as_slice());
            proof {
                assert(out@ =~= enc_cmd(c@));
            }
            Some(out)
        },
        Command::DELETE { uri } => {
            if !fits32_x(uri.len()) {
                return None;
            }
            out.push(0xa6);
            out.push(0x44);
            out.push(0x45);
            out.push(0x4c);
            out.push(0x45);
            out.push(0x54);
            out.push(0x45);
            out.push(0x81);
            out.push(0xa3);
            out.push(0x75);
            out.push(0x72);
            out.push(0x69);
            push_str32(&mut out, uri.as_slice());
            proof {
                assert(out@ =~= enc_cmd(c@));
            }
            Some(out)
        },
        Command::DUMP { file } => {
            if !fits32_x(file.len()) {
                return None;
            }
            out.push(0xa4);
            out.push(0x44);
            out.push(0x55);
            out.push(0x4d);
            out.push(0x50);
            out.push(0x81);
            out.push(0xa4);
            out.push(0x66);
            out.push(0x69);
            out.push(0x6c);
            out.push(0x65);
            push_str32(&mut out, file.as_slice());
            proof {
                assert(out@ =~= enc_cmd(c@));
            }
            Some(out)
        },
        Command::POST { uri, body } => {
            if !fits32_x(uri.len()) {
                return None;
            }
            let text = crate::json::to_bytes(body);
            if !fits32_x(text.len()) {
                return None;
            }
            out.push(0xa4);
            out.push(0x50);
            out.push(0x4f);
            out.push(0x53);
            out.push(0x54);
            push_uri_body(&mut out, uri.as_slice(), text.as_slice());
            proof {
                assert(out@ =~= enc_cmd(c@));
            }
            Some(out)
        },
        Command::PUT { uri, body } => {
            if !fits32_x(uri.len()) {
                return None;
            }
            let text = crate::json::to_bytes(body);
            if !fits32_x(text.len()) {
                return None;
            }
            out.push(0xa3);
            out.push(0x50);
            out.push(0x55);
            out.push(0x54);
            push_uri_body(&mut out, uri.as_slice(), text.as_slice());
            proof {
                assert(out@ =~= enc_cmd(c@));
            }
            Some(out)
        },
        Command::PATCH { uri, body } => {
            if !fits32_x(uri.len()) {
                return None;
            }
            let text = crate::json::to_bytes(body);
            if !fits32_x(text.len()) {
                return None;
            }
            out.push(0xa5);
            out.push(0x50);
            out.push(0x41);
            out.push(0x54);
            out.push(0x43);
            out.push(0x48);
            push_uri_body(&mut out, uri.as_slice(), text.as_slice());
            proof {
                assert(out@ =~= enc_cmd(c@));
            }
            Some(out)
        },
    }
}

/// Append a uri-and-body payload.
fn push_uri_body(out: &mut Vec<u8>, uri: &[u8], text: &[u8])
    requires
        uri@.len() < 0x100000000,
        text@.len() < 0x100000000,
    ensures
        final(out)@ == old(out)@ + seq![0x82u8] + key_uri() + str32(uri@) + key_body() + bin32(
            text@,
        ),
{
    out.push(0x82);
    out.push(0xa3);
    out.push(0x75);
    out.push(0x72);
    out.push(0x69);
    push_str32(out, uri);
    out.push(0xa4);
    out.push(0x62);
    out.push(0x6f);
    out.push(0x64);
    out.push(0x79);
    push_bin32(out, text);
    proof {
        assert(out@ =~= old(out)@ + seq![0x82u8] + key_uri() + str32(uri@) + key_body() + bin32(
            text@,
        ));
    }
}

/// Encode a response to uncompressed bytes; `None` when a part does not
/// fit the wire.
pub fn encode_response(r: &Response) -> (res: Option<Vec<u8>>)
    ensures
        res matches Some(v) ==> resp_fits(r@) && v@ == enc_resp(r@),
        res is None ==> !resp_fits(r@),
{
    let mut out: Vec<u8> = Vec::new();
    out.push(0x81);
    match r {
        Response::PONG => {
            out.push(0xa4);
            out.push(0x50);
            out.push(0x4f);
            out.push(0x4e);
            out.push(0x47);
            out.push(0xc0);
            proof {
                assert(out@ =~= enc_resp(r@));
            }
            Some(out)
        },
        Response::NULL => {
            out.push(0xa4);
            out.push(0x4e);
            out.push(0x55);
            out.push(0x4c);
            out.push(0x4c);
            out.push(0xc0);
            proof {
                assert(out@ =~= enc_resp(r@));
            }
            Some(out)
        },
        Response::OK => {
            out.push(0xa2);
            out.push(0x4f);
            out.push(0x4b);
            out.push(0xc0);
            proof {
                assert(out@ =~= enc_resp(r@));
            }
            Some(out)
        },
        Response::ID(t) => {
            if !fits32_x(t.len()) {
                return None;
            }
            out.push(0xa2);
            out.push(0x49);
            out.push(0x44);
            push_str32(&mut out, t.as_slice());
            proof {
                assert(out@ =~= enc_resp(r@));
            }
            Some(out)
        },
        Response::ERROR(m) => {
            if !fits32_x(m.len()) {
                return None;
            }
            out.push(0xa5);
            out.push(0x45);
            out.push(0x52);
            out.push(0x52);
            out.push(0x4f);
            out.push(0x52);
            push_str32(&mut out, m.as_slice());
            proof {
                assert(out@ =~= enc_resp(r@));
            }
            Some(out)
        },
        Response::OBJECT(v) => {
            let text = crate::json::to_bytes(v);
            if !fits32_x(text.len()) {
                return None;
            }
            out.push(0xa6);
            out.push(0x4f);
            out.push(0x42);
            out.push(0x4a);
            out.push(0x45);
            out.push(0x43);
            out.push(0x54);
            push_bin32(&mut out, text.as_slice());
            proof {
                assert(out@ =~= enc_resp(r@));
            }
            Some(out)
        },
        Response::COLLECTION(vs) => {
            let mut arr_text: Vec<u8> = Vec::new();
            arr_text.push(0x5b);
            let ghost base = arr_text@;
            let mut k: usize = 0;
            while k < vs.len()
                invariant
                    0 <= k <= vs.len(),
                    arr_text@ == base + crate::json::ser_elems(
                        crate::json::views_of(vs@.take(k as int)),
                    ),
                decreases vs.len() - k,
            {
                if k > 0 {
                    arr_text.push(0x2c);
                }
                crate::json::write_json(&vs[k], &mut arr_text);
                proof {
                    assert(vs@.take(k as int + 1) =~= vs@.take(k as int).push(vs@[k as int]));
                    crate::json::lemma_views_of_push(vs@.take(k as int), vs@[k as int]);
                    crate::json::lemma_ser_elems_push(
                        crate::json::views_of(vs@.take(k as int)),
                        crate::json::view_of(vs@[k as int]),
                    );
                    assert(arr_text@ =~= base + crate::json::ser_elems(
                        crate::json::views_of(vs@.take(k as int + 1)),
                    ));
                }
                k = k + 1;
            }
            arr_text.push(0x5d);
            proof {
                assert(vs@.take(vs@.len() as int) =~= vs@);
                assert(arr_text@ =~= ser(JsonV::Arr(crate::json::views_of(vs@))));
            }
            if !fits32_x(arr_text.len()) {
                return None;
            }
            out.push(0xaa);
            out.push(0x43);
            out.push(0x4f);
            out.push(0x4c);
            out.push(0x4c);
            out.push(0x45);
            out.push(0x43);
            out.push(0x54);
            out.push(0x49);
            out.push(0x4f);
            out.push(0x4e);
            push_bin32(&mut out, arr_text.as_slice());
            proof {
                assert(out@ =~= enc_resp(r@));
            }
            Some(out)
        },
    }
}


/// Read four big-endian bytes at `j`.
fn dec_be32_x(b: &[u8], j: usize) -> (r: u32)
    requires
        j + 4 <= b@.len(),
    ensures
        r as nat == dec_be32(b@.subrange(j as int, j as int + 4)),
{
    let r = (b[j] as u32) * 0x1000000 + (b[j + 1] as u32) * 0x10000 + (b[j + 2] as u32) * 0x100 + (
    b[j + 3] as u32);
    proof {
        let s = b@.subrange(j as int, j as int + 4);
        assert(s[0] == b@[j as int] && s[1] == b@[j as int + 1] && s[2] == b@[j as int + 2]
            && s[3] == b@[j as int + 3]);
    }
    r
}

/// Read a `str32` at `i`.
fn read_str32(b: &[u8], i: usize) -> (r: Option<(Vec<u8>, usize)>)
    requires
        i <= b@.len(),
    ensures
        r matches Some(p) ==> p_str32(b@, i as int) == Some((p.0@, p.1 as nat)) && i + p.1
            <= b@.len(),
        r is None ==> p_str32(b@, i as int) is None,
{
    if b.len() - i < 5 || b[i] != 0xdb {
        return None;
    }
    let n32 = dec_be32_x(b, i + 1);
    let n = n32 as usize;
    if n > b.len() - (i + 5) {
        return None;
    }
    let s = crate::json::copy_range(b, i + 5, i + 5 + n);
    Some((s, 5 + n))
}

/// Read a `bin32` at `i`.
fn read_bin32(b: &[u8], i: usize) -> (r: Option<(Vec<u8>, usize)>)
    requires
        i <= b@.len(),
    ensures
        r matches Some(p) ==> p_bin32(b@, i as int) == Some((p.0@, p.1 as nat)) && i + p.1
            <= b@.len(),
        r is None ==> p_bin32(b@, i as int) is None,
{
    if b.len() - i < 5 || b[i] != 0xc6 {
        return None;
    }
    let n32 = dec_be32_x(b, i + 1);
    let n = n32 as usize;
    if n > b.len() - (i + 5) {
        return None;
    }
    let s = crate::json::copy_range(b, i + 5, i + 5 + n);
    Some((s, 5 + n))
}

/// Read the envelope head: the raw variant name and how much was covered.
fn read_name(b: &[u8]) -> (r: Option<(Vec<u8>, usize)>)
    ensures
        r matches Some(p) ==> p_name(b@) == Some((to_lower(p.0@), p.1 as nat)) && p.1 <= b@.len(),
        r is None ==> p_name(b@) is None,
{
    if b.len() < 2 || b[0] != 0x81 {
        return None;
    }
    let t = b[1];
    if !(0xa1 <= t && t <= 0xbf) {
        return None;
    }
    let l = (t - 0xa0) as usize;
    if 2 + l > b.len() {
        return None;
    }
    let name = crate::json::copy_range(b, 2, 2 + l);
    Some((name, 2 + l))
}

/// Whether the single nil byte closes the input at `i`.
fn nil_end(b: &[u8], i: usize) -> (r: bool)
    requires
        i <= b@.len(),
    ensures
        r == (i < b@.len() && b@[i as int] == 0xc0 && i + 1 == b@.len()),
{
    i < b.len() && b[i] == 0xc0 && i + 1 == b.len()
}

/// Read a uri-only payload at `i`.
fn read_payload_uri(b: &[u8], i: usize) -> (r: Option<(Vec<u8>, usize)>)
    requires
        i <= b@.len(),
    ensures
        r matches Some(p) ==> p_payload_uri(b@, i as int) == Some((p.0@, p.1 as nat)) && i + p.1
            <= b@.len(),
        r is None ==> p_payload_uri(b@, i as int) is None,
{
    if b.len() - i < 5 || b[i] != 0x81 || b[i + 1] != 0xa3 || b[i + 2] != 0x75 || b[i + 3] != 0x72
        || b[i + 4] != 0x69 {
        return None;
    }
    match read_str32(b, i + 5) {
        Some((s, n)) => Some((s, 5 + n)),
        None => None,
    }
}

/// Read a file-only payload at `i`.
fn read_payload_file(b: &[u8], i: usize) -> (r: Option<(Vec<u8>, usize)>)
    requires
        i <= b@.len(),
    ensures
        r matches Some(p) ==> p_payload_file(b@, i as int) == Some((p.0@, p.1 as nat)) && i + p.1
            <= b@.len(),
        r is None ==> p_payload_file(b@, i as int) is None,
{
    if b.len() - i < 6 || b[i] != 0x81 || b[i + 1] != 0xa4 || b[i + 2] != 0x66 || b[i + 3] != 0x69
        || b[i + 4] != 0x6c || b[i + 5] != 0x65 {
        return None;
    }
    match read_str32(b, i + 6) {
        Some((s, n)) => Some((s, 6 + n)),
        None => None,
    }
}

/// Read a uri-and-body payload at `i`.
fn read_payload_uri_body(b: &[u8], i: usize) -> (r: Option<(Vec<u8>, Vec<u8>, usize)>)
    requires
        i <= b@.len(),
    ensures
        r matches Some(p) ==> p_payload_uri_body(b@, i as int) == Some(
            (p.0@, p.1@, p.2 as nat),
        ) && i + p.2 <= b@.len(),
        r is None ==> p_payload_uri_body(b@, i as int) is None,
{
    if b.len() - i < 5 || b[i] != 0x82 || b[i + 1] != 0xa3 || b[i + 2] != 0x75 || b[i + 3] != 0x72
        || b[i + 4] != 0x69 {
        return None;
    }
    match read_str32(b, i + 5) {
        None => None,
        Some((uri, n1)) => {
            let j = i + 5 + n1;
            if b.len() - j < 5 || b[j] != 0xa4 || b[j + 1] != 0x62 || b[j + 2] != 0x6f || b[j + 3]
                != 0x64 || b[j + 4] != 0x79 {
                return None;
            }
            match read_bin32(b, j + 5) {
                None => None,
                Some((text, n2)) => Some((uri, text, 5 + n1 + 5 + n2)),
            }
        },
    }
}

/// Decode a command from uncompressed bytes. Returns exactly what
/// `dec_cmd` says.
pub fn decode_command(b: &[u8]) -> (r: Option<Command>)
    ensures
        r matches Some(c) ==> dec_cmd(b@) == Some(c@) && cmd_wf(c@),
        r is None ==> dec_cmd(b@) is None,
{
    let total = b.len();
    let (name, i) = match read_name(b) {
        Some(p) => p,
        None => {
            return None;
        },
    };
    let kp = crate::message::kw_ping_x();
    if crate::message::eq_lower(name.as_slice(), kp.as_slice()) {
        return if nil_end(b, i) {
            Some(Command::PING)
        } else {
            None
        };
    }
    let kg = crate::message::kw_get_x();
    if crate::message::eq_lower(name.as_slice(), kg.as_slice()) {
        return match read_payload_uri(b, i) {
            Some((uri, m)) => if i + m == total {
                Some(Command::GET { uri })
            } else {
                None
            },
            None => None,
        };
    }
    let kd = crate::message::kw_delete_x();
    if crate::message::eq_lower(name.as_slice(), kd.as_slice()) {
        return match read_payload_uri(b, i) {
            Some((uri, m)) => if i + m == total {
                Some(Command::DELETE { uri })
            } else {
                None
            },
            None => None,
        };
    }
    let ku = crate::message::kw_dump_x();
    if crate::message::eq_lower(name.as_slice(), ku.as_slice()) {
        return match read_payload_file(b, i) {
            Some((file, m)) => if i + m == total {
                Some(Command::DUMP { file })
            } else {
                None
            },
            None => None,
        };
    }
    let kpo = crate::message::kw_post_x();
    let kpu = crate::message::kw_put_x();
    let kpa = crate::message::kw_patch_x();
    let is_post = crate::message::eq_lower(name.as_slice(), kpo.as_slice());
    let is_put = crate::message::eq_lower(name.as_slice(), kpu.as_slice());
    let is_patch = crate::message::eq_lower(name.as_slice(), kpa.as_slice());
    if is_post || is_put || is_patch {
        return match read_payload_uri_body(b, i) {
            Some((uri, text, m)) => if i + m == total {
                match crate::json::parse_json(text.as_slice()) {
                    Some(body) => Some(
                        if is_post {
                            Command::POST { uri, body }
                        } else if is_put {
                            Command::PUT { uri, body }
                        } else {
                            Command::PATCH { uri, body }
                        },
                    ),
                    None => None,
                }
            } else {
                None
            },
            None => None,
        };
    }
    None
}

/// The bytes of `pong`, lower case.
fn kw_pong_x() -> (r: Vec<u8>)
    ensures
        r@ == kw_pong(),
{
    let mut v: Vec<u8> = Vec::new();
    v.push(0x70);
    v.push(0x6f);
    v.push(0x6e);
    v.push(0x67);
    proof {
        assert(v@ =~= kw_pong());
    }
    v
}

/// The bytes of `id`, lower case.
fn kw_id_x() -> (r: Vec<u8>)
    ensures
        r@ == kw_id(),
{
    let mut v: Vec<u8> = Vec::new();
    v.push(0x69);
    v.push(0x64);
    proof {
        assert(v@ =~= kw_id());
    }
    v
}

/// The bytes of `object`, lower case.
fn kw_object_x() -> (r: Vec<u8>)
    ensures
        r@ == kw_object(),
{
    let mut v: Vec<u8> = Vec::new();
    v.push(0x6f);
    v.push(0x62);
    v.push(0x6a);
    v.push(0x65);
    v.push(0x63);
    v.push(0x74);
    proof {
        assert(v@ =~= kw_object());
    }
    v
}

/// The bytes of `collection`, lower case.
fn kw_collection_x() -> (r: Vec<u8>)
    ensures
        r@ == kw_collection(),
{
    let mut v: Vec<u8> = Vec::new();
    v.push(0x63);
    v.push(0x6f);
    v.push(0x6c);
    v.push(0x6c);
    v.push(0x65);
    v.push(0x63);
    v.push(0x74);
    v.push(0x69);
    v.push(0x6f);
    v.push(0x6e);
    proof {
        assert(v@ =~= kw_collection());
    }
    v
}

/// The bytes of `null`, lower case.
fn kw_null_x() -> (r: Vec<u8>)
    ensures
        r@ == kw_null(),
{
    let mut v: Vec<u8> = Vec::new();
    v.push(0x6e);
    v.push(0x75);
    v.push(0x6c);
    v.push(0x6c);
    proof {
        assert(v@ =~= kw_null());
    }
    v
}

/// The bytes of `ok`, lower case.
fn kw_ok_x() -> (r: Vec<u8>)
    ensures
        r@ == kw_ok(),
{
    let mut v: Vec<u8> = Vec::new();
    v.push(0x6f);
    v.push(0x6b);
    proof {
        assert(v@ =~= kw_ok());
    }
    v
}

/// The bytes of `error`, lower case.
fn kw_error_x() -> (r: Vec<u8>)
    ensures
        r@ == kw_error(),
{
    let mut v: Vec<u8> = Vec::new();
    v.push(0x65);
    v.push(0x72);
    v.push(0x72);
    v.push(0x6f);
    v.push(0x72);
    proof {
        assert(v@ =~= kw_error());
    }
    v
}

/// Decode a response from uncompressed bytes. Returns exactly what
/// `dec_resp` says.
pub fn decode_response(b: &[u8]) -> (r: Option<Response>)
    ensures
        r matches Some(c) ==> dec_resp(b@) == Some(c@) && resp_wf(c@),
        r is None ==> dec_resp(b@) is None,
{
    let total = b.len();
    let (name, i) = match read_name(b) {
        Some(p) => p,
        None => {
            return None;
        },
    };
    let kp = kw_pong_x();
    if crate::message::eq_lower(name.as_slice(), kp.as_slice()) {
        return if nil_end(b, i) {
            Some(Response::PONG)
        } else {
            None
        };
    }
    let kn = kw_null_x();
    if crate::message::eq_lower(name.as_slice(), kn.as_slice()) {
        return if nil_end(b, i) {
            Some(Response::NULL)
        } else {
            None
        };
    }
    let ko = kw_ok_x();
    if crate::message::eq_lower(name.as_slice(), ko.as_slice()) {
        return if nil_end(b, i) {
            Some(Response::OK)
        } else {
            None
        };
    }
    let ki = kw_id_x();
    if crate::message::eq_lower(name.as_slice(), ki.as_slice()) {
        return match read_str32(b, i) {
            Some((t, m)) => if i + m == total {
                Some(Response::ID(t))
            } else {
                None
            },
            None => None,
        };
    }
    let ke = kw_error_x();
    if crate::message::eq_lower(name.as_slice(), ke.as_slice()) {
        return match read_str32(b, i) {
            Some((t, m)) => if i + m == total {
                Some(Response::ERROR(t))
            } else {
                None
            },
            None => None,
        };
    }
    let kob = kw_object_x();
    if crate::message::eq_lower(name.as_slice(), kob.as_slice()) {
        return match read_bin32(b, i) {
            Some((text, m)) => if i + m == total {
                match crate::json::parse_json(text.as_slice()) {
                    Some(v) => Some(Response::OBJECT(v)),
                    None => None,
                }
            } else {
                None
            },
            None => None,
        };
    }
    let kc = kw_collection_x();
    if crate::message::eq_lower(name.as_slice(), kc.as_slice()) {
        return match read_bin32(b, i) {
            Some((text, m)) => if i + m == total {
                match crate::json::parse_json(text.as_slice()) {
                    Some(v) => match v {
                        Json::Arr(vs) => Some(Response::COLLECTION(vs)),
                        _ => None,
                    },
                    None => None,
                }
            } else {
                None
            },
            None => None,
        };
    }
    None
}


/// Reading back four big-endian bytes gives the length.
pub proof fn lemma_be32_round(n: nat)
    requires
        fits32(n),
    ensures
        dec_be32(be32(n)) == n,
{
    lemma_fundamental_div_mod(n as int, 0x100);
    lemma_div_denominator(n as int, 0x100, 0x100);
    assert((n as int / 0x100) / 0x100 == n as int / 0x10000);
    lemma_fundamental_div_mod(n as int / 0x100, 0x100);
    lemma_div_denominator(n as int, 0x10000, 0x100);
    assert((n as int / 0x10000) / 0x100 == n as int / 0x1000000);
    lemma_fundamental_div_mod(n as int / 0x10000, 0x100);
    lemma_multiply_divide_lt(n as int, 0x1000000, 0x100);
    assert(n as int / 0x1000000 < 0x100);
    lemma_small_mod((n / 0x1000000) as nat, 0x100);
    assert(be32(n)[0] == ((n / 0x1000000) % 0x100) as u8);
    assert(be32(n)[1] == ((n / 0x10000) % 0x100) as u8);
    assert(be32(n)[2] == ((n / 0x100) % 0x100) as u8);
    assert(be32(n)[3] == (n % 0x100) as u8);
}

/// A `str32` placed at `i` reads back as its bytes.
pub proof fn lemma_p_str32_of(s: Seq<u8>, b: Seq<u8>, i: int)
    requires
        fits32(s.len()),
        0 <= i,
        i + 5 + s.len() <= b.len(),
        b.subrange(i, i + 5 + s.len() as int) == str32(s),
    ensures
        p_str32(b, i) == Some((s, (5 + s.len()) as nat)),
{
    crate::json::lemma_subrange_index(b, i, str32(s));
    lemma_be32_round(s.len());
    assert(b[i + 0] == str32(s)[0]);
    assert(str32(s)[0] == 0xdb);
    assert(b.subrange(i + 1, i + 5) =~= be32(s.len())) by {
        assert forall|k: int| 0 <= k < 4 implies b.subrange(i + 1, i + 5)[k] == be32(
            s.len(),
        )[k] by {
            assert(b.subrange(i + 1, i + 5)[k] == b[i + (1 + k)]);
            assert(str32(s)[1 + k] == be32(s.len())[k]);
        }
    }
    assert(dec_be32(b.subrange(i + 1, i + 5)) == s.len());
    assert(b.subrange(i + 5, i + 5 + s.len() as int) =~= s) by {
        assert forall|k: int| 0 <= k < s.len() implies b.subrange(
            i + 5,
            i + 5 + s.len() as int,
        )[k] == s[k] by {
            assert(b.subrange(i + 5, i + 5 + s.len() as int)[k] == b[i + (5 + k)]);
            assert(str32(s)[5 + k] == s[k]);
        }
    }
}

/// A `bin32` placed at `i` reads back as its bytes.
pub proof fn lemma_p_bin32_of(s: Seq<u8>, b: Seq<u8>, i: int)
    requires
        fits32(s.len()),
        0 <= i,
        i + 5 + s.len() <= b.len(),
        b.subrange(i, i + 5 + s.len() as int) == bin32(s),
    ensures
        p_bin32(b, i) == Some((s, (5 + s.len()) as nat)),
{
    crate::json::lemma_subrange_index(b, i, bin32(s));
    lemma_be32_round(s.len());
    assert(b[i + 0] == bin32(s)[0]);
    assert(bin32(s)[0] == 0xc6);
    assert(b.subrange(i + 1, i + 5) =~= be32(s.len())) by {
        assert forall|k: int| 0 <= k < 4 implies b.subrange(i + 1, i + 5)[k] == be32(
            s.len(),
        )[k] by {
            assert(b.subrange(i + 1, i + 5)[k] == b[i + (1 + k)]);
            assert(bin32(s)[1 + k] == be32(s.len())[k]);
        }
    }
    assert(dec_be32(b.subrange(i + 1, i + 5)) == s.len());
    assert(b.subrange(i + 5, i + 5 + s.len() as int) =~= s) by {
        assert forall|k: int| 0 <= k < s.len() implies b.subrange(
            i + 5,
            i + 5 + s.len() as int,
        )[k] == s[k] by {
            assert(b.subrange(i + 5, i + 5 + s.len() as int)[k] == b[i + (5 + k)]);
            assert(bin32(s)[5 + k] == s[k]);
        }
    }
}

/// The envelope head of an encoded message reads back as the lowercased
/// variant name.
pub proof fn lemma_p_name_of(name: Seq<u8>, payload: Seq<u8>)
    requires
        1 <= name.len() < 32,
    ensures
        p_name(envelope(name, payload)) == Some((to_lower(name), (2 + name.len()) as nat)),
{
    let b = envelope(name, payload);
    assert(b[0] == 0x81);
    assert(b[1] == (0xa0 + name.len()) as u8);
    assert(b.len() == 2 + name.len() + payload.len());
    assert(b.subrange(2, 2 + name.len() as int) =~= name) by {
        assert forall|k: int| 0 <= k < name.len() implies b.subrange(
            2,
            2 + name.len() as int,
        )[k] == name[k] by {
            assert(b.subrange(2, 2 + name.len() as int)[k] == b[2 + k]);
            assert(b[2 + k] == fixstr(name)[1 + k]);
        }
    }
}


/// A uri payload placed at `i` reads back as the uri.
pub proof fn lemma_payload_uri_of(uri: Seq<u8>, b: Seq<u8>, i: int)
    requires
        fits32(uri.len()),
        0 <= i,
        i + 10 + uri.len() <= b.len(),
        b.subrange(i, i + 10 + uri.len() as int) == payload_uri(uri),
    ensures
        p_payload_uri(b, i) == Some((uri, (10 + uri.len()) as nat)),
{
    crate::json::lemma_subrange_index(b, i, payload_uri(uri));
    assert(b[i + 0] == payload_uri(uri)[0]);
    assert(b[i + 1] == payload_uri(uri)[1]);
    assert(b[i + 2] == payload_uri(uri)[2]);
    assert(b[i + 3] == payload_uri(uri)[3]);
    assert(b[i + 4] == payload_uri(uri)[4]);
    assert(payload_uri(uri)[0] == 0x81 && payload_uri(uri)[1] == 0xa3 && payload_uri(uri)[2]
        == 0x75 && payload_uri(uri)[3] == 0x72 && payload_uri(uri)[4] == 0x69);
    assert(b.subrange(i + 5, i + 5 + 5 + uri.len() as int) =~= str32(uri)) by {
        assert forall|k: int| 0 <= k < 5 + uri.len() implies b.subrange(
            i + 5,
            i + 5 + 5 + uri.len() as int,
        )[k] == str32(uri)[k] by {
            assert(b.subrange(i + 5, i + 5 + 5 + uri.len() as int)[k] == b[i + (5 + k)]);
            assert(payload_uri(uri)[5 + k] == str32(uri)[k]);
        }
    }
    lemma_p_str32_of(uri, b, i + 5);
}

/// A file payload placed at `i` reads back as the path.
pub proof fn lemma_payload_file_of(file: Seq<u8>, b: Seq<u8>, i: int)
    requires
        fits32(file.len()),
        0 <= i,
        i + 11 + file.len() <= b.len(),
        b.subrange(i, i + 11 + file.len() as int) == payload_file(file),
    ensures
        p_payload_file(b, i) == Some((file, (11 + file.len()) as nat)),
{
    crate::json::lemma_subrange_index(b, i, payload_file(file));
    assert(b[i + 0] == payload_file(file)[0]);
    assert(b[i + 1] == payload_file(file)[1]);
    assert(b[i + 2] == payload_file(file)[2]);
    assert(b[i + 3] == payload_file(file)[3]);
    assert(b[i + 4] == payload_file(file)[4]);
    assert(b[i + 5] == payload_file(file)[5]);
    assert(payload_file(file)[0] == 0x81 && payload_file(file)[1] == 0xa4 && payload_file(
        file,
    )[2] == 0x66 && payload_file(file)[3] == 0x69 && payload_file(file)[4] == 0x6c
        && payload_file(file)[5] == 0x65);
    assert(b.subrange(i + 6, i + 6 + 5 + file.len() as int) =~= str32(file)) by {
        assert forall|k: int| 0 <= k < 5 + file.len() implies b.subrange(
            i + 6,
            i + 6 + 5 + file.len() as int,
        )[k] == str32(file)[k] by {
            assert(b.subrange(i + 6, i + 6 + 5 + file.len() as int)[k] == b[i + (6 + k)]);
            assert(payload_file(file)[6 + k] == str32(file)[k]);
        }
    }
    lemma_p_str32_of(file, b, i + 6);
}

/// A uri-and-body payload placed at `i` reads back as its parts.
pub proof fn lemma_payload_uri_body_of(uri: Seq<u8>, body: JsonV, b: Seq<u8>, i: int)
    requires
        fits32(uri.len()),
        fits32(ser(body).len()),
        0 <= i,
        i + 20 + uri.len() + ser(body).len() <= b.len(),
        b.subrange(i, i + 20 + uri.len() + ser(body).len() as int) == payload_uri_body(
            uri,
            body,
        ),
    ensures
        p_payload_uri_body(b, i) == Some(
            (uri, ser(body), (20 + uri.len() + ser(body).len()) as nat),
        ),
{
    let p = payload_uri_body(uri, body);
    let sb = ser(body);
    crate::json::lemma_subrange_index(b, i, p);
    assert(p.len() == 20 + uri.len() + sb.len());
    assert(b[i + 0] == p[0]);
    assert(b[i + 1] == p[1]);
    assert(b[i + 2] == p[2]);
    assert(b[i + 3] == p[3]);
    assert(b[i + 4] == p[4]);
    assert(p[0] == 0x82 && p[1] == 0xa3 && p[2] == 0x75 && p[3] == 0x72 && p[4] == 0x69);
    assert(b.subrange(i + 5, i + 5 + 5 + uri.len() as int) =~= str32(uri)) by {
        assert forall|k: int| 0 <= k < 5 + uri.len() implies b.subrange(
            i + 5,
            i + 5 + 5 + uri.len() as int,
        )[k] == str32(uri)[k] by {
            assert(b.subrange(i + 5, i + 5 + 5 + uri.len() as int)[k] == b[i + (5 + k)]);
            assert(p[5 + k] == str32(uri)[k]);
        }
    }
    lemma_p_str32_of(uri, b, i + 5);
    let j = i + 10 + uri.len() as int;
    assert(b[j + 0] == p[10 + uri.len() as int]);
    assert(b[j + 1] == p[11 + uri.len() as int]);
    assert(b[j + 2] == p[12 + uri.len() as int]);
    assert(b[j + 3] == p[13 + uri.len() as int]);
    assert(b[j + 4] == p[14 + uri.len() as int]);
    assert(p[10 + uri.len() as int] == 0xa4 && p[11 + uri.len() as int] == 0x62 && p[12 + uri.len() as int] == 0x6f
        && p[13 + uri.len() as int] == 0x64 && p[14 + uri.len() as int] == 0x79);
    assert(b.subrange(j + 5, j + 5 + 5 + sb.len() as int) =~= bin32(sb)) by {
        assert forall|k: int| 0 <= k < 5 + sb.len() implies b.subrange(
            j + 5,
            j + 5 + 5 + sb.len() as int,
        )[k] == bin32(sb)[k] by {
            assert(b.subrange(j + 5, j + 5 + 5 + sb.len() as int)[k] == b[j + (5 + k)]);
            assert(p[15 + uri.len() as int + k] == bin32(sb)[k]);
            assert(b[j + (5 + k)] == b[i + (15 + uri.len() as int + k)]);
        }
    }
    lemma_p_bin32_of(sb, b, j + 5);
}

/// The whole payload of an encoded envelope, read pointwise.
pub proof fn lemma_envelope_payload(name: Seq<u8>, payload: Seq<u8>)
    requires
        1 <= name.len() < 32,
    ensures
        envelope(name, payload).len() == 2 + name.len() + payload.len(),
        envelope(name, payload).subrange(
            2 + name.len() as int,
            envelope(name, payload).len() as int,
        ) == payload,
        forall|k: int|
            0 <= k < payload.len() ==> #[trigger] envelope(name, payload)[2 + name.len() + k]
                == payload[k],
{
    let b = envelope(name, payload);
    assert forall|k: int| 0 <= k < payload.len() implies #[trigger] b[2 + name.len() + k]
        == payload[k] by {
        assert(b[2 + name.len() + k] == ((seq![0x81u8] + fixstr(name)) + payload)[2 + name.len()
            + k]);
    }
    assert(b.subrange(2 + name.len() as int, b.len() as int) =~= payload);
}

#[verifier::rlimit(100)]
proof fn lemma_cmd_rt_ping()
    ensures
        dec_cmd(enc_cmd(CommandV::PING)) == Some(CommandV::PING),
{
    let c = CommandV::PING;
    lemma_p_name_of(nm_ping(), seq![0xc0u8]);
    assert(to_lower(nm_ping()) =~= crate::message::kw_ping());
    lemma_envelope_payload(nm_ping(), seq![0xc0u8]);
    assert(enc_cmd(c)[6] == 0xc0);
}

#[verifier::rlimit(100)]
proof fn lemma_cmd_rt_get(uri: Seq<u8>)
    requires
        fits32(uri.len()),
    ensures
        dec_cmd(enc_cmd(CommandV::GET { uri })) == Some(CommandV::GET { uri }),
{
    let c = CommandV::GET { uri };
    let b = enc_cmd(c);
    lemma_p_name_of(nm_get(), payload_uri(uri));
    assert(to_lower(nm_get()) =~= crate::message::kw_get());
    assert(to_lower(nm_get()).len() == 3 && crate::message::kw_ping().len() == 4);
    lemma_envelope_payload(nm_get(), payload_uri(uri));
    assert(b.subrange(5, b.len() as int) == payload_uri(uri));
    lemma_payload_uri_of(uri, b, 5);
}

#[verifier::rlimit(100)]
proof fn lemma_cmd_rt_delete(uri: Seq<u8>)
    requires
        fits32(uri.len()),
    ensures
        dec_cmd(enc_cmd(CommandV::DELETE { uri })) == Some(CommandV::DELETE { uri }),
{
    let c = CommandV::DELETE { uri };
    let b = enc_cmd(c);
    lemma_p_name_of(nm_delete(), payload_uri(uri));
    assert(to_lower(nm_delete()) =~= crate::message::kw_delete());
    assert(to_lower(nm_delete()).len() == 6);
    lemma_envelope_payload(nm_delete(), payload_uri(uri));
    assert(b.subrange(8, b.len() as int) == payload_uri(uri));
    lemma_payload_uri_of(uri, b, 8);
}

#[verifier::rlimit(100)]
proof fn lemma_cmd_rt_dump(file: Seq<u8>)
    requires
        fits32(file.len()),
    ensures
        dec_cmd(enc_cmd(CommandV::DUMP { file })) == Some(CommandV::DUMP { file }),
{
    let c = CommandV::DUMP { file };
    let b = enc_cmd(c);
    lemma_p_name_of(nm_dump(), payload_file(file));
    assert(to_lower(nm_dump()) =~= crate::message::kw_dump());
    assert(to_lower(nm_dump())[0] == 0x64 && crate::message::kw_ping()[0] == 0x70);
    lemma_envelope_payload(nm_dump(), payload_file(file));
    assert(b.subrange(6, b.len() as int) == payload_file(file));
    lemma_payload_file_of(file, b, 6);
}

#[verifier::rlimit(100)]
proof fn lemma_cmd_rt_post(uri: Seq<u8>, body: JsonV)
    requires
        wf(body),
        fits32(uri.len()),
        fits32(ser(body).len()),
    ensures
        dec_cmd(enc_cmd(CommandV::POST { uri, body })) == Some(CommandV::POST { uri, body }),
{
    let c = CommandV::POST { uri, body };
    let b = enc_cmd(c);
    let i = 6int;
    assert(p_name(b) == Some((to_lower(nm_post()), i as nat))) by {
        lemma_p_name_of(nm_post(), payload_uri_body(uri, body));
    }
    assert(to_lower(nm_post()) =~= crate::message::kw_post());
    assert(to_lower(nm_post())[1] == 0x6f && crate::message::kw_ping()[1] == 0x69);
    assert(to_lower(nm_post())[0] == 0x70 && crate::message::kw_dump()[0] == 0x64);
    assert(p_payload_uri_body(b, i) == Some(
        (uri, ser(body), (20 + uri.len() + ser(body).len()) as nat),
    )) by {
        lemma_envelope_payload(nm_post(), payload_uri_body(uri, body));
        assert(b.subrange(i, b.len() as int) == payload_uri_body(uri, body));
        lemma_payload_uri_body_of(uri, body, b, i);
    }
    assert(p_json(ser(body)) == Some(body)) by {
        crate::json::lemma_round_trip(body);
    }
    assert(b.len() == i + 20 + uri.len() + ser(body).len()) by {
        lemma_envelope_payload(nm_post(), payload_uri_body(uri, body));
    }
}
#[verifier::rlimit(100)]
proof fn lemma_cmd_rt_put(uri: Seq<u8>, body: JsonV)
    requires
        wf(body),
        fits32(uri.len()),
        fits32(ser(body).len()),
    ensures
        dec_cmd(enc_cmd(CommandV::PUT { uri, body })) == Some(CommandV::PUT { uri, body }),
{
    let c = CommandV::PUT { uri, body };
    let b = enc_cmd(c);
    let i = 5int;
    assert(p_name(b) == Some((to_lower(nm_put()), i as nat))) by {
        lemma_p_name_of(nm_put(), payload_uri_body(uri, body));
    }
    assert(to_lower(nm_put()) =~= crate::message::kw_put());
    assert(to_lower(nm_put())[0] == 0x70 && crate::message::kw_get()[0] == 0x67);
    assert(to_lower(nm_put()).len() == 3 && crate::message::kw_post().len() == 4);
    assert(p_payload_uri_body(b, i) == Some(
        (uri, ser(body), (20 + uri.len() + ser(body).len()) as nat),
    )) by {
        lemma_envelope_payload(nm_put(), payload_uri_body(uri, body));
        assert(b.subrange(i, b.len() as int) == payload_uri_body(uri, body));
        lemma_payload_uri_body_of(uri, body, b, i);
    }
    assert(p_json(ser(body)) == Some(body)) by {
        crate::json::lemma_round_trip(body);
    }
    assert(b.len() == i + 20 + uri.len() + ser(body).len()) by {
        lemma_envelope_payload(nm_put(), payload_uri_body(uri, body));
    }
}
#[verifier::rlimit(100)]
#[verifier::spinoff_prover]
proof fn lemma_cmd_rt_patch(uri: Seq<u8>, body: JsonV)
    requires
        wf(body),
        fits32(uri.len()),
        fits32(ser(body).len()),
    ensures
        dec_cmd(enc_cmd(CommandV::PATCH { uri, body })) == Some(CommandV::PATCH { uri, body }),
{
    let c = CommandV::PATCH { uri, body };
    let b = enc_cmd(c);
    let i = 7int;
    assert(p_name(b) == Some((to_lower(nm_patch()), i as nat))) by {
        lemma_p_name_of(nm_patch(), payload_uri_body(uri, body));
    }
    assert(to_lower(nm_patch()) =~= crate::message::kw_patch());
    assert(to_lower(nm_patch()).len() == 5 && crate::message::kw_post().len() == 4
        && crate::message::kw_put().len() == 3 && crate::message::kw_ping().len() == 4
        && crate::message::kw_get().len() == 3 && crate::message::kw_delete().len() == 6
        && crate::message::kw_dump().len() == 4);
    assert(p_payload_uri_body(b, i) == Some(
        (uri, ser(body), (20 + uri.len() + ser(body).len()) as nat),
    )) by {
        lemma_envelope_payload(nm_patch(), payload_uri_body(uri, body));
        assert(b.subrange(i, b.len() as int) == payload_uri_body(uri, body));
        lemma_payload_uri_body_of(uri, body, b, i);
    }
    assert(p_json(ser(body)) == Some(body)) by {
        crate::json::lemma_round_trip(body);
    }
    assert(b.len() == i + 20 + uri.len() + ser(body).len()) by {
        lemma_envelope_payload(nm_patch(), payload_uri_body(uri, body));
    }
}
#[verifier::rlimit(100)]
proof fn lemma_resp_rt_bare(r: ResponseV)
    requires
        r is PONG || r is NULL || r is OK,
    ensures
        dec_resp(enc_resp(r)) == Some(r),
{
    match r {
        ResponseV::PONG => {
            lemma_p_name_of(nm_pong(), seq![0xc0u8]);
            assert(to_lower(nm_pong()) =~= kw_pong());
            lemma_envelope_payload(nm_pong(), seq![0xc0u8]);
            assert(enc_resp(r)[6] == 0xc0);
        },
        ResponseV::NULL => {
            lemma_p_name_of(nm_null(), seq![0xc0u8]);
            assert(to_lower(nm_null()) =~= kw_null());
            assert(to_lower(nm_null())[0] == 0x6e && kw_pong()[0] == 0x70);
            lemma_envelope_payload(nm_null(), seq![0xc0u8]);
            assert(enc_resp(r)[6] == 0xc0);
        },
        ResponseV::OK => {
            lemma_p_name_of(nm_ok(), seq![0xc0u8]);
            assert(to_lower(nm_ok()) =~= kw_ok());
            assert(to_lower(nm_ok()).len() == 2 && kw_pong().len() == 4 && kw_null().len() == 4);
            lemma_envelope_payload(nm_ok(), seq![0xc0u8]);
            assert(enc_resp(r)[4] == 0xc0);
        },
        _ => {},
    }
}

#[verifier::rlimit(100)]
proof fn lemma_resp_rt_id(t: Seq<u8>)
    requires
        fits32(t.len()),
    ensures
        dec_resp(enc_resp(ResponseV::ID(t))) == Some(ResponseV::ID(t)),
{
    let r = ResponseV::ID(t);
    let b = enc_resp(r);
    lemma_p_name_of(nm_id(), str32(t));
    assert(to_lower(nm_id()) =~= kw_id());
    assert(to_lower(nm_id())[0] == 0x69 && kw_ok()[0] == 0x6f);
    lemma_envelope_payload(nm_id(), str32(t));
    assert(b.subrange(4, b.len() as int) == str32(t));
    lemma_p_str32_of(t, b, 4);
}

#[verifier::rlimit(100)]
proof fn lemma_resp_rt_error(m: Seq<u8>)
    requires
        fits32(m.len()),
    ensures
        dec_resp(enc_resp(ResponseV::ERROR(m))) == Some(ResponseV::ERROR(m)),
{
    let r = ResponseV::ERROR(m);
    let b = enc_resp(r);
    lemma_p_name_of(nm_error(), str32(m));
    assert(to_lower(nm_error()) =~= kw_error());
    lemma_envelope_payload(nm_error(), str32(m));
    assert(b.subrange(7, b.len() as int) == str32(m));
    lemma_p_str32_of(m, b, 7);
}

#[verifier::rlimit(100)]
proof fn lemma_resp_rt_object(v: JsonV)
    requires
        wf(v),
        fits32(ser(v).len()),
    ensures
        dec_resp(enc_resp(ResponseV::OBJECT(v))) == Some(ResponseV::OBJECT(v)),
{
    let r = ResponseV::OBJECT(v);
    let b = enc_resp(r);
    lemma_p_name_of(nm_object(), bin32(ser(v)));
    assert(to_lower(nm_object()) =~= kw_object());
    lemma_envelope_payload(nm_object(), bin32(ser(v)));
    assert(b.subrange(8, b.len() as int) == bin32(ser(v)));
    lemma_p_bin32_of(ser(v), b, 8);
    crate::json::lemma_round_trip(v);
}

#[verifier::rlimit(100)]
proof fn lemma_resp_rt_collection(vs: Seq<JsonV>)
    requires
        forall|k: int| 0 <= k < vs.len() ==> wf(#[trigger] vs[k]),
        fits32(ser(JsonV::Arr(vs)).len()),
    ensures
        dec_resp(enc_resp(ResponseV::COLLECTION(vs))) == Some(ResponseV::COLLECTION(vs)),
{
    let r = ResponseV::COLLECTION(vs);
    let b = enc_resp(r);
    lemma_p_name_of(nm_collection(), bin32(ser(JsonV::Arr(vs))));
    assert(to_lower(nm_collection()) =~= kw_collection());
    lemma_envelope_payload(nm_collection(), bin32(ser(JsonV::Arr(vs))));
    assert(b.subrange(12, b.len() as int) == bin32(ser(JsonV::Arr(vs))));
    lemma_p_bin32_of(ser(JsonV::Arr(vs)), b, 12);
    assert(wf(JsonV::Arr(vs))) by {
        assert((JsonV::Arr(vs))->Arr_0 == vs);
    }
    crate::json::lemma_round_trip(JsonV::Arr(vs));
}

/// Round trip: an encoded response decodes to exactly itself.
pub proof fn lemma_response_round_trip(r: ResponseV)
    requires
        resp_wf(r),
        resp_fits(r),
    ensures
        dec_resp(enc_resp(r)) == Some(r),
{
    match r {
        ResponseV::PONG => lemma_resp_rt_bare(r),
        ResponseV::NULL => lemma_resp_rt_bare(r),
        ResponseV::OK => lemma_resp_rt_bare(r),
        ResponseV::ID(t) => lemma_resp_rt_id(t),
        ResponseV::ERROR(m) => lemma_resp_rt_error(m),
        ResponseV::OBJECT(v) => lemma_resp_rt_object(v),
        ResponseV::COLLECTION(vs) => lemma_resp_rt_collection(vs),
    }
}


impl Command {
    /// Encode and compress this command for the wire. `Ok` bytes always
    /// decompress to exactly this command's encoding; `too_long` is set
    /// exactly when a part exceeds the wire's 32-bit limit.
    pub fn to_vec(&self) -> (r: Result<Vec<u8>, SerializeError>)
        ensures
            r matches Ok(v) ==> cmd_fits(self@) && unzstd_of(v@) == Some(enc_cmd(self@)),
            r matches Err(e) ==> (e.too_long <==> !cmd_fits(self@)),
    {
        match encode_command(self) {
            None => Err(SerializeError { too_long: true }),
            Some(bytes) => match zstd_compress(bytes.as_slice()) {
                Some(c) => Ok(c),
                None => Err(SerializeError { too_long: false }),
            },
        }
    }

    /// Decompress and decode a command from the wire: `Ok` exactly when
    /// the bytes decompress and decode, and then to exactly that command.
    pub fn from_slice(input: &[u8]) -> (r: Result<Command, DeserializeError>)
        ensures
            match unzstd_of(input@) {
                None => r == Err::<Command, DeserializeError>(
                    DeserializeError { bad_compression: true },
                ),
                Some(p) => match dec_cmd(p) {
                    Some(cv) => r matches Ok(c) && c@ == cv,
                    None => r == Err::<Command, DeserializeError>(
                        DeserializeError { bad_compression: false },
                    ),
                },
            },
    {
        match zstd_decompress(input) {
            None => Err(DeserializeError { bad_compression: true }),
            Some(p) => match decode_command(p.as_slice()) {
                Some(c) => Ok(c),
                None => Err(DeserializeError { bad_compression: false }),
            },
        }
    }
}

impl Response {
    /// Encode and compress this response for the wire. `Ok` bytes always
    /// decompress to exactly this response's encoding; `too_long` is set
    /// exactly when a part exceeds the wire's 32-bit limit.
    pub fn to_vec(&self) -> (r: Result<Vec<u8>, SerializeError>)
        ensures
            r matches Ok(v) ==> resp_fits(self@) && unzstd_of(v@) == Some(enc_resp(self@)),
            r matches Err(e) ==> (e.too_long <==> !resp_fits(self@)),
    {
        match encode_response(self) {
            None => Err(SerializeError { too_long: true }),
            Some(bytes) => match zstd_compress(bytes.as_slice()) {
                Some(c) => Ok(c),
                None => Err(SerializeError { too_long: false }),
            },
        }
    }

    /// Decompress and decode a response from the wire: `Ok` exactly when
    /// the bytes decompress and decode, and then to exactly that response.
    pub fn from_slice(input: &[u8]) -> (r: Result<Response, DeserializeError>)
        ensures
            match unzstd_of(input@) {
                None => r == Err::<Response, DeserializeError>(
                    DeserializeError { bad_compression: true },
                ),
                Some(p) => match dec_resp(p) {
                    Some(rv) => r matches Ok(c) && c@ == rv,
                    None => r == Err::<Response, DeserializeError>(
                        DeserializeError { bad_compression: false },
                    ),
                },
            },
    {
        match zstd_decompress(input) {
            None => Err(DeserializeError { bad_compression: true }),
            Some(p) => match decode_response(p.as_slice()) {
                Some(c) => Ok(c),
                None => Err(DeserializeError { bad_compression: false }),
            },
        }
    }
}

/// Wrap a payload in a frame: a 4-byte big-endian length, then the bytes.
/// `None` exactly when the payload is too long for the 32-bit length.
pub fn frame(payload: &[u8]) -> (r: Option<Vec<u8>>)
    ensures
        r matches Some(v) ==> fits32(payload@.len()) && v@ == be32(payload@.len()) + payload@,
        r is None ==> !fits32(payload@.len()),
{
    if !fits32_x(payload.len()) {
        return None;
    }
    let mut out: Vec<u8> = Vec::new();
    push_be32(&mut out, payload.len());
    out.extend_from_slice(payload);
    proof {
        assert(out@ =~= be32(payload@.len()) + payload@);
    }
    Some(out)
}

/// Take one frame off the front of a buffer: its payload and how many
/// bytes the frame covered. `None` exactly when the buffer does not yet
/// hold a complete frame.
pub fn deframe(buf: &[u8]) -> (r: Option<(Vec<u8>, usize)>)
    ensures
        r matches Some(p) ==> buf@.len() >= 4 && p.1 as nat == 4 + dec_be32(buf@.take(4))
            && p.1 <= buf@.len() && p.0@ == buf@.subrange(4, p.1 as int),
        r is None ==> buf@.len() < 4 || 4 + dec_be32(buf@.take(4)) > buf@.len(),
{
    if buf.len() < 4 {
        return None;
    }
    let n32 = dec_be32_x(buf, 0);
    proof {
        assert(buf@.subrange(0, 4) =~= buf@.take(4));
    }
    let n = n32 as usize;
    if n > buf.len() - 4 {
        return None;
    }
    let payload = crate::json::copy_range(buf, 4, 4 + n);
    Some((payload, 4 + n))
}

} // verus!
