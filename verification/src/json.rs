//! The JSON document model: an owned value type whose strings and numbers
//! keep their source bytes, a strict parser, a serializer, and the shallow
//! object merge used by PATCH.
//!
//! The grammar is standard JSON: a value is `null`, `true`, `false`, a
//! number, a string, an array or an object, with blank space allowed
//! between tokens. String contents and number literals are kept in their
//! source byte form (escapes unresolved), so serializing a parsed value
//! reproduces its text exactly.

use vstd::prelude::*;

use crate::is_digit;
use crate::is_ws;

verus! {

broadcast use vstd::seq::axiom_seq_index_decreases, vstd::std_specs::vec::axiom_vec_decreases_to_view;

/// A JSON value. String contents and number literals are kept in their
/// source byte form, so serializing reproduces the text the parser read.
#[derive(Debug, PartialEq, Eq)]
pub enum Json {
    Null,
    Bool(bool),
    /// The bytes of a JSON number literal, e.g. `-12.5e3`.
    Num(Vec<u8>),
    /// The bytes between the quotes of a JSON string, escapes unresolved.
    Str(Vec<u8>),
    Arr(Vec<Json>),
    Obj(Vec<(Vec<u8>, Json)>),
}

/// The mathematical value of a `Json` document: the same tree over `Seq`.
#[verifier::ext_equal]
pub enum JsonV {
    Null,
    Bool(bool),
    Num(Seq<u8>),
    Str(Seq<u8>),
    Arr(Seq<JsonV>),
    Obj(Seq<(Seq<u8>, JsonV)>),
}

/// The mathematical value of a document.
pub open spec fn view_of(j: Json) -> JsonV
    decreases j, 1int,
{
    match j {
        Json::Null => JsonV::Null,
        Json::Bool(b) => JsonV::Bool(b),
        Json::Num(s) => JsonV::Num(s@),
        Json::Str(s) => JsonV::Str(s@),
        Json::Arr(vs) => {
            proof {
                assert(decreases_to!(j => vs));
                assert(decreases_to!(vs => vs@));
            }
            JsonV::Arr(views_of(vs@))
        },
        Json::Obj(ms) => {
            proof {
                assert(decreases_to!(j => ms));
                assert(decreases_to!(ms => ms@));
            }
            JsonV::Obj(mviews_of(ms@))
        },
    }
}

/// The mathematical values of a list of documents.
pub open spec fn views_of(vs: Seq<Json>) -> Seq<JsonV>
    decreases vs, 0int,
{
    if vs.len() == 0 {
        Seq::empty()
    } else {
        seq![view_of(vs[0])] + views_of(vs.drop_first())
    }
}

/// The mathematical values of a list of object members.
pub open spec fn mviews_of(ms: Seq<(Vec<u8>, Json)>) -> Seq<(Seq<u8>, JsonV)>
    decreases ms, 0int,
{
    if ms.len() == 0 {
        Seq::empty()
    } else {
        seq![(ms[0].0@, view_of(ms[0].1))] + mviews_of(ms.drop_first())
    }
}

impl View for Json {
    type V = JsonV;

    open spec fn view(&self) -> JsonV {
        view_of(*self)
    }
}

/// `views_of` is the element-wise view.
pub proof fn lemma_views_of(vs: Seq<Json>)
    ensures
        views_of(vs).len() == vs.len(),
        forall|k: int| 0 <= k < vs.len() ==> views_of(vs)[k] == view_of(#[trigger] vs[k]),
    decreases vs.len(),
{
    if vs.len() > 0 {
        lemma_views_of(vs.drop_first());
        assert forall|k: int| 0 <= k < vs.len() implies views_of(vs)[k] == view_of(
            #[trigger] vs[k],
        ) by {
            if k > 0 {
                assert(vs.drop_first()[k - 1] == vs[k]);
            }
        }
    }
}

/// `mviews_of` is the element-wise view.
pub proof fn lemma_mviews_of(ms: Seq<(Vec<u8>, Json)>)
    ensures
        mviews_of(ms).len() == ms.len(),
        forall|k: int|
            0 <= k < ms.len() ==> mviews_of(ms)[k] == ((#[trigger] ms[k]).0@, view_of(ms[k].1)),
    decreases ms.len(),
{
    if ms.len() > 0 {
        lemma_mviews_of(ms.drop_first());
        assert forall|k: int| 0 <= k < ms.len() implies mviews_of(ms)[k] == ((
        #[trigger] ms[k]).0@, view_of(ms[k].1)) by {
            if k > 0 {
                assert(ms.drop_first()[k - 1] == ms[k]);
            }
        }
    }
}

/// Bytes that may follow a byte of a number literal inside a larger one:
/// a digit, `.`, `e`, `E`, `+` or `-`.
pub open spec fn is_num_cont(b: u8) -> bool {
    is_digit(b) || b == 0x2e || b == 0x65 || b == 0x45 || b == 0x2b || b == 0x2d
}

/// The character after `\` in the short escapes: `" \ / b f n r t`.
pub open spec fn is_simple_escape(b: u8) -> bool {
    b == 0x22 || b == 0x5c || b == 0x2f || b == 0x62 || b == 0x66 || b == 0x6e || b == 0x72
        || b == 0x74
}

/// An ASCII hexadecimal digit.
pub open spec fn is_hex(b: u8) -> bool {
    is_digit(b) || (0x41 <= b <= 0x46) || (0x61 <= b <= 0x66)
}

/// How many bytes of `b` lie at or after position `i`: the parser's
/// termination measure.
pub open spec fn rem(b: Seq<u8>, i: int) -> int {
    if i <= b.len() {
        b.len() - i
    } else {
        0
    }
}

/// How many blank-space bytes stand at `i`.
pub open spec fn ws_count(b: Seq<u8>, i: int) -> nat
    decreases b.len() - i,
{
    if 0 <= i < b.len() && is_ws(b[i]) {
        1 + ws_count(b, i + 1)
    } else {
        0
    }
}

/// The first index at or after `i` that does not hold a digit.
pub open spec fn digits_end(b: Seq<u8>, i: int) -> int
    decreases b.len() - i,
{
    if 0 <= i < b.len() && is_digit(b[i]) {
        digits_end(b, i + 1)
    } else {
        i
    }
}

/// End of the integer part of a number starting at `i`: a single `0`, or a
/// run of digits not starting with `0`. `-1` if there is none.
pub open spec fn int_end(b: Seq<u8>, i: int) -> int {
    if 0 <= i < b.len() && is_digit(b[i]) {
        if b[i] == 0x30 {
            i + 1
        } else {
            digits_end(b, i)
        }
    } else {
        -1
    }
}

/// End of an optional fraction part at `i`: `.` followed by one or more
/// digits. `i` itself if there is no `.`; `-1` if the `.` lacks digits.
pub open spec fn frac_end(b: Seq<u8>, i: int) -> int {
    if 0 <= i < b.len() && b[i] == 0x2e {
        if i + 1 < b.len() && is_digit(b[i + 1]) {
            digits_end(b, i + 1)
        } else {
            -1
        }
    } else {
        i
    }
}

/// End of an optional exponent part at `i`: `e` or `E`, an optional sign,
/// and one or more digits. `i` itself if there is no `e`; `-1` if malformed.
pub open spec fn exp_end(b: Seq<u8>, i: int) -> int {
    if 0 <= i < b.len() && (b[i] == 0x65 || b[i] == 0x45) {
        let j = if i + 1 < b.len() && (b[i + 1] == 0x2b || b[i + 1] == 0x2d) {
            i + 2
        } else {
            i + 1
        };
        if j < b.len() && is_digit(b[j]) {
            digits_end(b, j)
        } else {
            -1
        }
    } else {
        i
    }
}

/// End of a JSON number literal starting at `i`, or `-1` if none starts
/// there: an optional `-`, an integer part, an optional fraction, an
/// optional exponent.
pub open spec fn num_end(b: Seq<u8>, i: int) -> int {
    let i1 = if 0 <= i < b.len() && b[i] == 0x2d {
        i + 1
    } else {
        i
    };
    let i2 = int_end(b, i1);
    if i2 < 0 {
        -1
    } else {
        let i3 = frac_end(b, i2);
        if i3 < 0 {
            -1
        } else {
            exp_end(b, i3)
        }
    }
}

/// The length of the string body that starts at `i` (first byte after the
/// opening quote): the number of bytes before its closing quote. `None` if
/// the bytes at `i` are not a string body followed by a quote.
pub open spec fn strbody_len(b: Seq<u8>, i: int) -> Option<nat>
    decreases b.len() - i,
{
    if !(0 <= i < b.len()) {
        None
    } else if b[i] == 0x22 {
        Some(0)
    } else if b[i] == 0x5c {
        if i + 1 < b.len() && is_simple_escape(b[i + 1]) {
            match strbody_len(b, i + 2) {
                Some(n) => Some(2 + n),
                None => None,
            }
        } else if i + 5 < b.len() && b[i + 1] == 0x75 && is_hex(b[i + 2]) && is_hex(b[i + 3])
            && is_hex(b[i + 4]) && is_hex(b[i + 5]) {
            match strbody_len(b, i + 6) {
                Some(n) => Some(6 + n),
                None => None,
            }
        } else {
            None
        }
    } else if b[i] < 0x20 {
        None
    } else {
        match strbody_len(b, i + 1) {
            Some(n) => Some(1 + n),
            None => None,
        }
    }
}

/// A complete, valid string body: no unescaped quote, no lone backslash,
/// no raw control byte; escapes are the short ones or `\u` with four hex
/// digits.
pub open spec fn strbody_ok(s: Seq<u8>) -> bool
    decreases s.len(),
{
    if s.len() == 0 {
        true
    } else if s[0] == 0x22 {
        false
    } else if s[0] == 0x5c {
        if s.len() >= 2 && is_simple_escape(s[1]) {
            strbody_ok(s.skip(2))
        } else if s.len() >= 6 && s[1] == 0x75 && is_hex(s[2]) && is_hex(s[3]) && is_hex(s[4])
            && is_hex(s[5]) {
            strbody_ok(s.skip(6))
        } else {
            false
        }
    } else if s[0] < 0x20 {
        false
    } else {
        strbody_ok(s.skip(1))
    }
}

/// A complete, valid number literal.
pub open spec fn num_ok(s: Seq<u8>) -> bool {
    s.len() > 0 && num_end(s, 0) == s.len()
}

/// A well-formed document: every number is a valid literal and every
/// string content (including object keys) a valid string body.
pub open spec fn wf(v: JsonV) -> bool
    decreases v,
{
    match v {
        JsonV::Null => true,
        JsonV::Bool(_) => true,
        JsonV::Num(s) => num_ok(s),
        JsonV::Str(s) => strbody_ok(s),
        JsonV::Arr(vs) => forall|k: int| 0 <= k < vs.len() ==> wf(#[trigger] vs[k]),
        JsonV::Obj(ms) => forall|k: int|
            0 <= k < ms.len() ==> strbody_ok((#[trigger] ms[k]).0) && wf(ms[k].1),
    }
}

/// Parse one value at `i`: the value and the count of bytes it covers.
/// Blank space before the value must already be consumed; blank space
/// after it is not consumed.
pub open spec fn p_value(b: Seq<u8>, i: int) -> Option<(JsonV, nat)>
    decreases rem(b, i), 0int,
{
    if !(0 <= i < b.len()) {
        None
    } else if b[i] == 0x6e {  // 'n'
        if i + 4 <= b.len() && b[i + 1] == 0x75 && b[i + 2] == 0x6c && b[i + 3] == 0x6c {
            Some((JsonV::Null, 4))
        } else {
            None
        }
    } else if b[i] == 0x74 {  // 't'
        if i + 4 <= b.len() && b[i + 1] == 0x72 && b[i + 2] == 0x75 && b[i + 3] == 0x65 {
            Some((JsonV::Bool(true), 4))
        } else {
            None
        }
    } else if b[i] == 0x66 {  // 'f'
        if i + 5 <= b.len() && b[i + 1] == 0x61 && b[i + 2] == 0x6c && b[i + 3] == 0x73 && b[i
            + 4] == 0x65 {
            Some((JsonV::Bool(false), 5))
        } else {
            None
        }
    } else if b[i] == 0x22 {  // '"'
        match strbody_len(b, i + 1) {
            Some(n) => Some((JsonV::Str(b.subrange(i + 1, i + 1 + n)), n + 2)),
            None => None,
        }
    } else if b[i] == 0x2d || is_digit(b[i]) {
        let e = num_end(b, i);
        if e >= 0 {
            Some((JsonV::Num(b.subrange(i, e)), (e - i) as nat))
        } else {
            None
        }
    } else if b[i] == 0x5b {  // '['
        let w = ws_count(b, i + 1);
        if i + 1 + w < b.len() && b[i + 1 + w] == 0x5d {  // ']'
            Some((JsonV::Arr(Seq::empty()), 2 + w))
        } else {
            match p_elems(b, i + 1 + w) {
                Some((vs, m)) => Some((JsonV::Arr(vs), 1 + w + m)),
                None => None,
            }
        }
    } else if b[i] == 0x7b {  // '{'
        let w = ws_count(b, i + 1);
        if i + 1 + w < b.len() && b[i + 1 + w] == 0x7d {  // '}'
            Some((JsonV::Obj(Seq::empty()), 2 + w))
        } else {
            match p_members(b, i + 1 + w) {
                Some((ms, m)) => Some((JsonV::Obj(ms), 1 + w + m)),
                None => None,
            }
        }
    } else {
        None
    }
}

/// Parse the elements of a non-empty array starting at the first element's
/// first byte, up to and including the closing `]`.
pub open spec fn p_elems(b: Seq<u8>, i: int) -> Option<(Seq<JsonV>, nat)>
    decreases rem(b, i), 1int,
{
    if !(0 <= i < b.len()) {
        None
    } else { match p_value(b, i) {
        Some((v, n)) => {
            let w = ws_count(b, i + n);
            let k = i + n + w;
            if k < b.len() && b[k] == 0x5d {  // ']'
                Some((seq![v], n + w + 1))
            } else if k < b.len() && b[k] == 0x2c {  // ','
                let w2 = ws_count(b, k + 1);
                match p_elems(b, i + n + w + 1 + w2) {
                    Some((vs, m)) => Some((seq![v] + vs, n + w + 1 + w2 + m)),
                    None => None,
                }
            } else {
                None
            }
        },
        None => None,
    } }
}

/// Parse the members of a non-empty object starting at the first key's
/// opening quote, up to and including the closing `}`.
pub open spec fn p_members(b: Seq<u8>, i: int) -> Option<(Seq<(Seq<u8>, JsonV)>, nat)>
    decreases rem(b, i), 1int,
{
    if !(0 <= i < b.len() && b[i] == 0x22) {
        None
    } else {
        match strbody_len(b, i + 1) {
            Some(n) => {
                let key = b.subrange(i + 1, i + 1 + n);
                let w1 = ws_count(b, i + 2 + n);
                let j = i + 2 + n + w1;
                if j < b.len() && b[j] == 0x3a {  // ':'
                    let w2 = ws_count(b, j + 1);
                    match p_value(b, i + 2 + n + w1 + 1 + w2) {
                        Some((v, m)) => {
                            let w3 = ws_count(b, i + 2 + n + w1 + 1 + w2 + m);
                            let k = i + 2 + n + w1 + 1 + w2 + m + w3;
                            if k < b.len() && b[k] == 0x7d {  // '}'
                                Some((seq![(key, v)], 2 + n + w1 + 1 + w2 + m + w3 + 1))
                            } else if k < b.len() && b[k] == 0x2c {  // ','
                                let w4 = ws_count(b, k + 1);
                                match p_members(b, i + 2 + n + w1 + 1 + w2 + m + w3 + 1 + w4) {
                                    Some((ms, q)) => Some(
                                        (
                                            seq![(key, v)] + ms,
                                            2 + n + w1 + 1 + w2 + m + w3 + 1 + w4 + q,
                                        ),
                                    ),
                                    None => None,
                                }
                            } else {
                                None
                            }
                        },
                        None => None,
                    }
                } else {
                    None
                }
            },
            None => None,
        }
    }
}

/// Parse a complete document: one value with blank space around it, the
/// whole input consumed.
pub open spec fn p_json(b: Seq<u8>) -> Option<JsonV> {
    let w = ws_count(b, 0);
    match p_value(b, w as int) {
        Some((v, n)) => {
            let w2 = ws_count(b, w + n as int);
            if w + n + w2 == b.len() {
                Some(v)
            } else {
                None
            }
        },
        None => None,
    }
}

/// The serialized text of a document: compact, no blank space, string and
/// number bytes verbatim.
pub open spec fn ser(v: JsonV) -> Seq<u8>
    decreases v, 1int,
{
    match v {
        JsonV::Null => seq![0x6eu8, 0x75u8, 0x6cu8, 0x6cu8],
        JsonV::Bool(t) => if t {
            seq![0x74u8, 0x72u8, 0x75u8, 0x65u8]
        } else {
            seq![0x66u8, 0x61u8, 0x6cu8, 0x73u8, 0x65u8]
        },
        JsonV::Num(s) => s,
        JsonV::Str(s) => seq![0x22u8] + s + seq![0x22u8],
        JsonV::Arr(vs) => seq![0x5bu8] + ser_elems(vs) + seq![0x5du8],
        JsonV::Obj(ms) => seq![0x7bu8] + ser_members(ms) + seq![0x7du8],
    }
}

/// The serialized elements of an array, `,`-separated, without brackets.
pub open spec fn ser_elems(vs: Seq<JsonV>) -> Seq<u8>
    decreases vs, 0int,
{
    if vs.len() == 0 {
        Seq::empty()
    } else if vs.len() == 1 {
        ser(vs[0])
    } else {
        ser(vs[0]) + seq![0x2cu8] + ser_elems(vs.drop_first())
    }
}

/// The serialized members of an object, `,`-separated, without braces.
pub open spec fn ser_members(ms: Seq<(Seq<u8>, JsonV)>) -> Seq<u8>
    decreases ms, 0int,
{
    if ms.len() == 0 {
        Seq::empty()
    } else {
        let head = seq![0x22u8] + ms[0].0 + seq![0x22u8, 0x3au8] + ser(ms[0].1);
        if ms.len() == 1 {
            head
        } else {
            head + seq![0x2cu8] + ser_members(ms.drop_first())
        }
    }
}

} // verus!

use crate::byte_is_digit;
use crate::byte_is_ws;

verus! {

/// `views_of` distributes over `push`.
pub proof fn lemma_views_of_push(vs: Seq<Json>, x: Json)
    ensures
        views_of(vs.push(x)) == views_of(vs).push(view_of(x)),
{
    lemma_views_of(vs);
    lemma_views_of(vs.push(x));
    assert forall|j: int|
        0 <= j < vs.len() + 1 implies views_of(vs.push(x))[j] == views_of(vs).push(
        view_of(x),
    )[j] by {
        assert(views_of(vs.push(x))[j] == view_of(vs.push(x)[j]));
        if j < vs.len() {
            assert(vs.push(x)[j] == vs[j]);
            assert(views_of(vs)[j] == view_of(vs[j]));
        } else {
            assert(vs.push(x)[j] == x);
        }
    }
    assert(views_of(vs.push(x)) =~= views_of(vs).push(view_of(x)));
}

/// `mviews_of` distributes over `push`.
pub proof fn lemma_mviews_of_push(ms: Seq<(Vec<u8>, Json)>, e: (Vec<u8>, Json))
    ensures
        mviews_of(ms.push(e)) == mviews_of(ms).push((e.0@, view_of(e.1))),
{
    lemma_mviews_of(ms);
    lemma_mviews_of(ms.push(e));
    assert forall|j: int|
        0 <= j < ms.len() + 1 implies mviews_of(ms.push(e))[j] == mviews_of(ms).push(
        (e.0@, view_of(e.1)),
    )[j] by {
        assert(mviews_of(ms.push(e))[j] == (ms.push(e)[j].0@, view_of(ms.push(e)[j].1)));
        if j < ms.len() {
            assert(ms.push(e)[j] == ms[j]);
            assert(mviews_of(ms)[j] == (ms[j].0@, view_of(ms[j].1)));
        } else {
            assert(ms.push(e)[j] == e);
        }
    }
    assert(mviews_of(ms.push(e)) =~= mviews_of(ms).push((e.0@, view_of(e.1))));
}

/// `ser_elems` grows by a comma and one serialization per appended element.
pub proof fn lemma_ser_elems_push(vs: Seq<JsonV>, x: JsonV)
    ensures
        ser_elems(vs.push(x)) == if vs.len() == 0 {
            ser(x)
        } else {
            ser_elems(vs) + seq![0x2cu8] + ser(x)
        },
    decreases vs.len(),
{
    if vs.len() == 0 {
        assert(vs.push(x)[0] == x);
        assert(vs.push(x).len() == 1);
    } else {
        assert(vs.push(x).drop_first() =~= vs.drop_first().push(x));
        lemma_ser_elems_push(vs.drop_first(), x);
        if vs.len() == 1 {
            assert(ser_elems(vs) == ser(vs[0]));
        }
    }
}

/// `ser_members` grows by a comma and one member per appended entry.
pub proof fn lemma_ser_members_push(ms: Seq<(Seq<u8>, JsonV)>, k: Seq<u8>, x: JsonV)
    ensures
        ser_members(ms.push((k, x))) == if ms.len() == 0 {
            seq![0x22u8] + k + seq![0x22u8, 0x3au8] + ser(x)
        } else {
            ser_members(ms) + seq![0x2cu8] + (seq![0x22u8] + k + seq![0x22u8, 0x3au8] + ser(x))
        },
    decreases ms.len(),
{
    if ms.len() == 0 {
        assert(ms.push((k, x))[0] == (k, x));
        assert(ms.push((k, x)).len() == 1);
    } else {
        assert(ms.push((k, x)).drop_first() =~= ms.drop_first().push((k, x)));
        lemma_ser_members_push(ms.drop_first(), k, x);
    }
}

/// Append the serialized text of `v` to `out`.
pub fn write_json(v: &Json, out: &mut Vec<u8>)
    ensures
        final(out)@ == old(out)@ + ser(v@),
    decreases *v,
{
    match v {
        Json::Null => {
            out.push(0x6e);
            out.push(0x75);
            out.push(0x6c);
            out.push(0x6c);
            assert(out@ =~= old(out)@ + ser(v@));
        },
        Json::Bool(t) => {
            if *t {
                out.push(0x74);
                out.push(0x72);
                out.push(0x75);
                out.push(0x65);
            } else {
                out.push(0x66);
                out.push(0x61);
                out.push(0x6c);
                out.push(0x73);
                out.push(0x65);
            }
            assert(out@ =~= old(out)@ + ser(v@));
        },
        Json::Num(s) => {
            out.extend_from_slice(s.as_slice());
            assert(out@ =~= old(out)@ + ser(v@));
        },
        Json::Str(s) => {
            out.push(0x22);
            out.extend_from_slice(s.as_slice());
            out.push(0x22);
            assert(out@ =~= old(out)@ + ser(v@));
        },
        Json::Arr(vs) => {
            out.push(0x5b);
            let ghost base = out@;
            let mut k: usize = 0;
            while k < vs.len()
                invariant
                    0 <= k <= vs.len(),
                    *v == Json::Arr(*vs),
                    out@ == base + ser_elems(views_of(vs@.take(k as int))),
                decreases vs.len() - k,
            {
                if k > 0 {
                    out.push(0x2c);
                }
                proof {
                    assert(decreases_to!(*v => v->Arr_0));
                    assert(v->Arr_0 == *vs);
                    assert(decreases_to!(*vs => vs@));
                    assert(decreases_to!(vs@ => vs@[k as int]));
                }
                write_json(&vs[k], out);
                proof {
                    assert(vs@.take(k as int + 1) =~= vs@.take(k as int).push(vs@[k as int]));
                    lemma_views_of_push(vs@.take(k as int), vs@[k as int]);
                    lemma_ser_elems_push(views_of(vs@.take(k as int)), view_of(vs@[k as int]));
                    assert(out@ =~= base + ser_elems(views_of(vs@.take(k as int + 1))));
                }
                k = k + 1;
            }
            out.push(0x5d);
            proof {
                assert(vs@.take(vs@.len() as int) =~= vs@);
                assert(out@ =~= old(out)@ + ser(v@));
            }
        },
        Json::Obj(ms) => {
            out.push(0x7b);
            let ghost base = out@;
            let mut k: usize = 0;
            while k < ms.len()
                invariant
                    0 <= k <= ms.len(),
                    *v == Json::Obj(*ms),
                    out@ == base + ser_members(mviews_of(ms@.take(k as int))),
                decreases ms.len() - k,
            {
                if k > 0 {
                    out.push(0x2c);
                }
                out.push(0x22);
                out.extend_from_slice(ms[k].0.as_slice());
                out.push(0x22);
                out.push(0x3a);
                proof {
                    assert(decreases_to!(*v => v->Obj_0));
                    assert(v->Obj_0 == *ms);
                    assert(decreases_to!(*ms => ms@));
                    assert(decreases_to!(ms@ => ms@[k as int]));
                }
                write_json(&ms[k].1, out);
                proof {
                    assert(ms@.take(k as int + 1) =~= ms@.take(k as int).push(ms@[k as int]));
                    lemma_mviews_of_push(ms@.take(k as int), ms@[k as int]);
                    lemma_ser_members_push(
                        mviews_of(ms@.take(k as int)),
                        ms@[k as int].0@,
                        view_of(ms@[k as int].1),
                    );
                    assert(out@ =~= base + ser_members(mviews_of(ms@.take(k as int + 1))));
                }
                k = k + 1;
            }
            out.push(0x7d);
            proof {
                assert(ms@.take(ms@.len() as int) =~= ms@);
                assert(out@ =~= old(out)@ + ser(v@));
            }
        },
    }
}

/// The serialized text of `v` as a fresh byte vector.
pub fn to_bytes(v: &Json) -> (r: Vec<u8>)
    ensures
        r@ == ser(v@),
{
    let mut out: Vec<u8> = Vec::new();
    write_json(v, &mut out);
    out
}


/// Blank space at `i` never runs past the end of the input.
pub proof fn lemma_ws_count_bounds(b: Seq<u8>, i: int)
    requires
        0 <= i <= b.len(),
    ensures
        i + ws_count(b, i) <= b.len(),
    decreases b.len() - i,
{
    if i < b.len() && is_ws(b[i]) {
        lemma_ws_count_bounds(b, i + 1);
    }
}

/// The digit scan stays inside the input.
pub proof fn lemma_digits_end_bounds(b: Seq<u8>, i: int)
    requires
        0 <= i <= b.len(),
    ensures
        i <= digits_end(b, i) <= b.len(),
    decreases b.len() - i,
{
    if i < b.len() && is_digit(b[i]) {
        lemma_digits_end_bounds(b, i + 1);
    }
}

/// A valid number scan moves forward and stays inside the input.
pub proof fn lemma_num_end_bounds(b: Seq<u8>, i: int)
    requires
        0 <= i <= b.len(),
    ensures
        num_end(b, i) == -1 || i < num_end(b, i) <= b.len(),
{
    let i1 = if 0 <= i < b.len() && b[i] == 0x2d {
        i + 1
    } else {
        i
    };
    lemma_digits_end_bounds(b, i1);
    if i1 < b.len() && is_digit(b[i1]) && b[i1] != 0x30 {
        lemma_digits_end_bounds(b, i1 + 1);
    }
    let i2 = int_end(b, i1);
    if i2 >= 0 {
        assert(i1 < i2 <= b.len());
        if i2 < b.len() && b[i2] == 0x2e && i2 + 1 < b.len() && is_digit(b[i2 + 1]) {
            lemma_digits_end_bounds(b, i2 + 1);
        }
        let i3 = frac_end(b, i2);
        if i3 >= 0 {
            assert(i2 <= i3 <= b.len());
            if i3 < b.len() && (b[i3] == 0x65 || b[i3] == 0x45) {
                let j = if i3 + 1 < b.len() && (b[i3 + 1] == 0x2b || b[i3 + 1] == 0x2d) {
                    i3 + 2
                } else {
                    i3 + 1
                };
                if j < b.len() && is_digit(b[j]) {
                    lemma_digits_end_bounds(b, j);
                }
            }
        }
    }
}

/// A string-body scan ends at a quote strictly inside the input.
pub proof fn lemma_strbody_len_bounds(b: Seq<u8>, i: int)
    requires
        0 <= i,
    ensures
        strbody_len(b, i) matches Some(n) ==> i + n < b.len() && b[i + n] == 0x22,
    decreases b.len() - i,
{
    if 0 <= i < b.len() {
        if b[i] == 0x5c {
            if i + 1 < b.len() && is_simple_escape(b[i + 1]) {
                lemma_strbody_len_bounds(b, i + 2);
            } else if i + 5 < b.len() && b[i + 1] == 0x75 && is_hex(b[i + 2]) && is_hex(b[i + 3])
                && is_hex(b[i + 4]) && is_hex(b[i + 5]) {
                lemma_strbody_len_bounds(b, i + 6);
            }
        } else if b[i] != 0x22 && b[i] >= 0x20 {
            lemma_strbody_len_bounds(b, i + 1);
        }
    }
}

/// A parsed value covers at least one byte and stays inside the input.
pub proof fn lemma_p_value_bounds(b: Seq<u8>, i: int)
    ensures
        p_value(b, i) matches Some((v, n)) ==> 0 <= i < b.len() && n > 0 && i + n <= b.len(),
    decreases rem(b, i), 0int,
{
    if 0 <= i < b.len() {
        if b[i] == 0x22 {
            lemma_strbody_len_bounds(b, i + 1);
        } else if b[i] == 0x2d || is_digit(b[i]) {
            lemma_num_end_bounds(b, i);
        } else if b[i] == 0x5b {
            lemma_ws_count_bounds(b, i + 1);
            let w = ws_count(b, i + 1);
            if !(i + 1 + w < b.len() && b[i + 1 + w] == 0x5d) {
                lemma_p_elems_bounds(b, i + 1 + w);
            }
        } else if b[i] == 0x7b {
            lemma_ws_count_bounds(b, i + 1);
            let w = ws_count(b, i + 1);
            if !(i + 1 + w < b.len() && b[i + 1 + w] == 0x7d) {
                lemma_p_members_bounds(b, i + 1 + w);
            }
        }
    }
}

/// Parsed array elements cover at least one byte and stay inside the input.
pub proof fn lemma_p_elems_bounds(b: Seq<u8>, i: int)
    ensures
        p_elems(b, i) matches Some((vs, m)) ==> 0 <= i < b.len() && m > 0 && i + m <= b.len(),
    decreases rem(b, i), 1int,
{
    if 0 <= i < b.len() {
        lemma_p_value_bounds(b, i);
        match p_value(b, i) {
            Some((v, n)) => {
                lemma_ws_count_bounds(b, i + n);
                let w = ws_count(b, i + n);
                let k = i + n + w;
                if k < b.len() && b[k] == 0x2c {
                    lemma_ws_count_bounds(b, k + 1);
                    let w2 = ws_count(b, k + 1);
                    lemma_p_elems_bounds(b, i + n + w + 1 + w2);
                }
            },
            None => {},
        }
    }
}

/// Parsed object members cover at least one byte and stay inside the input.
pub proof fn lemma_p_members_bounds(b: Seq<u8>, i: int)
    ensures
        p_members(b, i) matches Some((ms, m)) ==> 0 <= i < b.len() && m > 0 && i + m <= b.len(),
    decreases rem(b, i), 1int,
{
    if 0 <= i < b.len() && b[i] == 0x22 {
        match strbody_len(b, i + 1) {
            Some(n) => {
                lemma_strbody_len_bounds(b, i + 1);
                let w1 = ws_count(b, i + 2 + n);
                lemma_ws_count_bounds(b, i + 2 + n);
                let j = i + 2 + n + w1;
                if j < b.len() && b[j] == 0x3a {
                    lemma_ws_count_bounds(b, j + 1);
                    let w2 = ws_count(b, j + 1);
                    lemma_p_value_bounds(b, i + 2 + n + w1 + 1 + w2);
                    match p_value(b, i + 2 + n + w1 + 1 + w2) {
                        Some((v, m)) => {
                            let base = i + 2 + n + w1 + 1 + w2 + m;
                            lemma_ws_count_bounds(b, base);
                            let w3 = ws_count(b, base);
                            let k = base + w3;
                            if k < b.len() && b[k] == 0x2c {
                                lemma_ws_count_bounds(b, k + 1);
                                let w4 = ws_count(b, k + 1);
                                lemma_p_members_bounds(b, k + 1 + w4);
                            }
                        },
                        None => {},
                    }
                }
            },
            None => {},
        }
    }
}

/// Advance past blank space: the first position at or after `i` that does
/// not hold blank space.
pub fn skip_ws_x(b: &[u8], i: usize) -> (j: usize)
    requires
        i <= b@.len(),
    ensures
        j == i + ws_count(b@, i as int),
        i <= j <= b@.len(),
{
    proof {
        lemma_ws_count_bounds(b@, i as int);
    }
    let mut j = i;
    while j < b.len() && byte_is_ws(b[j])
        invariant
            i <= j <= b@.len(),
            ws_count(b@, i as int) == (j - i) + ws_count(b@, j as int),
        decreases b@.len() - j,
    {
        j = j + 1;
    }
    j
}

/// Advance past digits.
pub fn digits_end_x(b: &[u8], i: usize) -> (j: usize)
    requires
        i <= b@.len(),
    ensures
        j == digits_end(b@, i as int),
        i <= j <= b@.len(),
{
    let mut j = i;
    while j < b.len() && byte_is_digit(b[j])
        invariant
            i <= j <= b@.len(),
            digits_end(b@, i as int) == digits_end(b@, j as int),
        decreases b@.len() - j,
    {
        j = j + 1;
    }
    j
}

/// Scan a number literal starting at `i`: its end position, or `None`.
pub fn num_end_x(b: &[u8], i: usize) -> (r: Option<usize>)
    requires
        i < b@.len(),
    ensures
        r matches Some(e) ==> num_end(b@, i as int) == e && i < e <= b@.len(),
        r is None ==> num_end(b@, i as int) == -1,
{
    let i1 = if b[i] == 0x2d {
        i + 1
    } else {
        i
    };
    if i1 >= b.len() || !byte_is_digit(b[i1]) {
        return None;
    }
    let i2 = if b[i1] == 0x30 {
        i1 + 1
    } else {
        proof {
            lemma_digits_end_bounds(b@, i1 as int + 1);
        }
        digits_end_x(b, i1)
    };
    proof {
        assert(i < i2);
    }
    let i3 = if i2 < b.len() && b[i2] == 0x2e {
        if i2 + 1 < b.len() && byte_is_digit(b[i2 + 1]) {
            digits_end_x(b, i2 + 1)
        } else {
            return None;
        }
    } else {
        i2
    };
    if i3 < b.len() && (b[i3] == 0x65 || b[i3] == 0x45) {
        let j = if i3 + 1 < b.len() && (b[i3 + 1] == 0x2b || b[i3 + 1] == 0x2d) {
            i3 + 2
        } else {
            i3 + 1
        };
        if j < b.len() && byte_is_digit(b[j]) {
            let e = digits_end_x(b, j);
            Some(e)
        } else {
            None
        }
    } else {
        Some(i3)
    }
}

/// Scan a string body starting at `i` (just after the opening quote): the
/// number of bytes before the closing quote, or `None`.
pub fn strbody_len_x(b: &[u8], i: usize) -> (r: Option<usize>)
    requires
        i <= b@.len(),
    ensures
        r matches Some(n) ==> strbody_len(b@, i as int) == Some(n as nat) && i + n < b@.len(),
        r is None ==> strbody_len(b@, i as int) is None,
{
    let mut j = i;
    loop
        invariant
            i <= j <= b@.len(),
            strbody_len(b@, i as int) == match strbody_len(b@, j as int) {
                Some(n) => Some(((j - i) + n) as nat),
                None => None::<nat>,
            },
        decreases b@.len() - j,
    {
        if j >= b.len() {
            return None;
        }
        let c = b[j];
        if c == 0x22 {
            proof {
                lemma_strbody_len_bounds(b@, i as int);
            }
            return Some(j - i);
        } else if c == 0x5c {
            if j + 1 < b.len() && byte_is_simple_escape(b[j + 1]) {
                j = j + 2;
            } else if b.len() - j > 5 && b[j + 1] == 0x75 && byte_is_hex(b[j + 2]) && byte_is_hex(
                b[j + 3],
            ) && byte_is_hex(b[j + 4]) && byte_is_hex(b[j + 5]) {
                j = j + 6;
            } else {
                return None;
            }
        } else if c < 0x20 {
            return None;
        } else {
            j = j + 1;
        }
    }
}

/// A byte is a short-escape character exactly when `is_simple_escape` says so.
pub fn byte_is_simple_escape(b: u8) -> (r: bool)
    ensures
        r == is_simple_escape(b),
{
    b == 0x22 || b == 0x5c || b == 0x2f || b == 0x62 || b == 0x66 || b == 0x6e || b == 0x72 || b
        == 0x74
}

/// A byte is a hexadecimal digit exactly when `is_hex` says so.
pub fn byte_is_hex(b: u8) -> (r: bool)
    ensures
        r == is_hex(b),
{
    (0x30 <= b && b <= 0x39) || (0x41 <= b && b <= 0x46) || (0x61 <= b && b <= 0x66)
}

/// Copy the bytes of `b` between `from` and `to` into a fresh vector.
pub fn copy_range(b: &[u8], from: usize, to: usize) -> (r: Vec<u8>)
    requires
        from <= to <= b@.len(),
    ensures
        r@ == b@.subrange(from as int, to as int),
{
    let mut out: Vec<u8> = Vec::new();
    let mut k = from;
    while k < to
        invariant
            from <= k <= to <= b@.len(),
            out@ == b@.subrange(from as int, k as int),
        decreases to - k,
    {
        out.push(b[k]);
        proof {
            assert(out@ =~= b@.subrange(from as int, k as int + 1));
        }
        k = k + 1;
    }
    out
}


/// Parse one value at `i`: the value and the count of bytes it covers.
/// Returns exactly what the specification parser `p_value` says.
pub fn parse_value(b: &[u8], i: usize) -> (r: Option<(Json, usize)>)
    requires
        i <= b@.len(),
    ensures
        r matches Some(p) ==> p_value(b@, i as int) == Some((p.0@, p.1 as nat)) && p.1 > 0 && i
            + p.1 <= b@.len(),
        r is None ==> p_value(b@, i as int) is None,
    decreases b@.len() - i,
{
    if i >= b.len() {
        return None;
    }
    let c = b[i];
    if c == 0x6e {
        if b.len() - i >= 4 && b[i + 1] == 0x75 && b[i + 2] == 0x6c && b[i + 3] == 0x6c {
            Some((Json::Null, 4))
        } else {
            None
        }
    } else if c == 0x74 {
        if b.len() - i >= 4 && b[i + 1] == 0x72 && b[i + 2] == 0x75 && b[i + 3] == 0x65 {
            Some((Json::Bool(true), 4))
        } else {
            None
        }
    } else if c == 0x66 {
        if b.len() - i >= 5 && b[i + 1] == 0x61 && b[i + 2] == 0x6c && b[i + 3] == 0x73 && b[i
            + 4] == 0x65 {
            Some((Json::Bool(false), 5))
        } else {
            None
        }
    } else if c == 0x22 {
        match strbody_len_x(b, i + 1) {
            Some(n) => {
                let content = copy_range(b, i + 1, i + 1 + n);
                Some((Json::Str(content), n + 2))
            },
            None => None,
        }
    } else if c == 0x2d || byte_is_digit(c) {
        match num_end_x(b, i) {
            Some(e) => {
                let content = copy_range(b, i, e);
                Some((Json::Num(content), e - i))
            },
            None => None,
        }
    } else if c == 0x5b {
        let j0 = skip_ws_x(b, i + 1);
        if j0 < b.len() && b[j0] == 0x5d {
            let hollow: Vec<Json> = Vec::new();
            proof {
                assert(views_of(hollow@) =~= Seq::<JsonV>::empty());
            }
            return Some((Json::Arr(hollow), j0 + 1 - i));
        }
        let mut acc: Vec<Json> = Vec::new();
        let mut cur = j0;
        proof {
            assert(elems_step(b@, j0 as int, j0 as int, views_of(acc@))) by {
                match p_elems(b@, j0 as int) {
                    Some((vs, m)) => {
                        assert(views_of(acc@) + vs =~= vs);
                    },
                    None => {},
                }
            }
        }
        loop
            invariant
                i < j0 <= cur <= b@.len(),
                i < b@.len(),
                b@.len() <= usize::MAX,
                b@[i as int] == 0x5b,
                j0 == i + 1 + ws_count(b@, i + 1),
                !(j0 < b@.len() && b@[j0 as int] == 0x5d),
                elems_step(b@, j0 as int, cur as int, views_of(acc@)),
            decreases b@.len() - cur,
        {
            let ghost acc0 = acc@;
            match parse_value(b, cur) {
                None => {
                    return None;
                },
                Some((v, n)) => {
                    let j1 = skip_ws_x(b, cur + n);
                    if j1 < b.len() && b[j1] == 0x5d {
                        acc.push(v);
                        proof {
                            lemma_views_of_push(acc0, v);
                            assert(views_of(acc0) + seq![v@] =~= views_of(acc@));
                        }
                        return Some((Json::Arr(acc), j1 + 1 - i));
                    } else if j1 < b.len() && b[j1] == 0x2c {
                        acc.push(v);
                        let cur2 = skip_ws_x(b, j1 + 1);
                        proof {
                            lemma_views_of_push(acc0, v);
                            assert(elems_step(b@, j0 as int, cur2 as int, views_of(acc@))) by {
                                match p_elems(b@, cur2 as int) {
                                    Some((vs, m)) => {
                                        assert((views_of(acc0) + (seq![v@] + vs)) =~= (views_of(
                                            acc0,
                                        ) + seq![v@]) + vs);
                                        assert(views_of(acc0) + seq![v@] =~= views_of(acc@));
                                    },
                                    None => {},
                                }
                            }
                        }
                        cur = cur2;
                    } else {
                        return None;
                    }
                },
            }
        }
    } else if c == 0x7b {
        let j0 = skip_ws_x(b, i + 1);
        if j0 < b.len() && b[j0] == 0x7d {
            let hollow: Vec<(Vec<u8>, Json)> = Vec::new();
            proof {
                assert(mviews_of(hollow@) =~= Seq::<(Seq<u8>, JsonV)>::empty());
            }
            return Some((Json::Obj(hollow), j0 + 1 - i));
        }
        let mut acc: Vec<(Vec<u8>, Json)> = Vec::new();
        let mut cur = j0;
        proof {
            assert(members_step(b@, j0 as int, j0 as int, mviews_of(acc@))) by {
                match p_members(b@, j0 as int) {
                    Some((ms, m)) => {
                        assert(mviews_of(acc@) + ms =~= ms);
                    },
                    None => {},
                }
            }
        }
        loop
            invariant
                i < j0 <= cur <= b@.len(),
                i < b@.len(),
                b@.len() <= usize::MAX,
                b@[i as int] == 0x7b,
                j0 == i + 1 + ws_count(b@, i + 1),
                !(j0 < b@.len() && b@[j0 as int] == 0x7d),
                members_step(b@, j0 as int, cur as int, mviews_of(acc@)),
            decreases b@.len() - cur,
        {
            let ghost acc0 = acc@;
            if cur >= b.len() || b[cur] != 0x22 {
                return None;
            }
            match strbody_len_x(b, cur + 1) {
                None => {
                    return None;
                },
                Some(n) => {
                    let key = copy_range(b, cur + 1, cur + 1 + n);
                    let j1 = skip_ws_x(b, cur + 2 + n);
                    if !(j1 < b.len() && b[j1] == 0x3a) {
                        return None;
                    }
                    let j2 = skip_ws_x(b, j1 + 1);
                    match parse_value(b, j2) {
                        None => {
                            return None;
                        },
                        Some((v, m)) => {
                            let j3 = skip_ws_x(b, j2 + m);
                            if j3 < b.len() && b[j3] == 0x7d {
                                acc.push((key, v));
                                proof {
                                    lemma_mviews_of_push(acc0, (key, v));
                                    assert(mviews_of(acc0) + seq![(key@, v@)] =~= mviews_of(
                                        acc@,
                                    ));
                                }
                                return Some((Json::Obj(acc), j3 + 1 - i));
                            } else if j3 < b.len() && b[j3] == 0x2c {
                                acc.push((key, v));
                                let cur2 = skip_ws_x(b, j3 + 1);
                                proof {
                                    lemma_mviews_of_push(acc0, (key, v));
                                    assert(members_step(
                                        b@,
                                        j0 as int,
                                        cur2 as int,
                                        mviews_of(acc@),
                                    )) by {
                                        match p_members(b@, cur2 as int) {
                                            Some((ms, q)) => {
                                                assert((mviews_of(acc0) + (seq![(key@, v@)]
                                                    + ms)) =~= (mviews_of(acc0) + seq![
                                                    (key@, v@),
                                                ]) + ms);
                                                assert(mviews_of(acc0) + seq![(key@, v@)]
                                                    =~= mviews_of(acc@));
                                            },
                                            None => {},
                                        }
                                    }
                                }
                                cur = cur2;
                            } else {
                                return None;
                            }
                        },
                    }
                },
            }
        }
    } else {
        None
    }
}

/// The elements parsed from `start` are those parsed from `cur`, prefixed
/// by `done`: the array loop's working invariant.
pub open spec fn elems_step(b: Seq<u8>, start: int, cur: int, done: Seq<JsonV>) -> bool {
    p_elems(b, start) == match p_elems(b, cur) {
        Some((vs, m)) => Some(((done + vs), ((cur - start) + m) as nat)),
        None => None::<(Seq<JsonV>, nat)>,
    }
}

/// The members parsed from `start` are those parsed from `cur`, prefixed
/// by `done`: the object loop's working invariant.
pub open spec fn members_step(
    b: Seq<u8>,
    start: int,
    cur: int,
    done: Seq<(Seq<u8>, JsonV)>,
) -> bool {
    p_members(b, start) == match p_members(b, cur) {
        Some((ms, q)) => Some(((done + ms), ((cur - start) + q) as nat)),
        None => None::<(Seq<(Seq<u8>, JsonV)>, nat)>,
    }
}

/// Parse a complete document: one value, blank space allowed around it,
/// the whole input consumed. Returns exactly what `p_json` says.
pub fn parse_json(b: &[u8]) -> (r: Option<Json>)
    ensures
        r matches Some(v) ==> p_json(b@) == Some(v@) && wf(v@),
        r is None ==> p_json(b@) is None,
{
    proof {
        lemma_p_json_wf(b@);
    }
    let total = b.len();
    let w = skip_ws_x(b, 0);
    match parse_value(b, w) {
        Some((v, n)) => {
            let w2 = skip_ws_x(b, w + n);
            if w2 == total {
                Some(v)
            } else {
                None
            }
        },
        None => None,
    }
}


/// Everything before the digit scan's end is a digit, and the scan stops
/// at the end of input or at a non-digit.
pub proof fn lemma_digits_end_char(b: Seq<u8>, i: int)
    requires
        0 <= i <= b.len(),
    ensures
        i <= digits_end(b, i) <= b.len(),
        forall|k: int| i <= k < digits_end(b, i) ==> is_digit(b[k]),
        digits_end(b, i) == b.len() || !is_digit(b[digits_end(b, i)]),
    decreases b.len() - i,
{
    if i < b.len() && is_digit(b[i]) {
        lemma_digits_end_char(b, i + 1);
    }
}

/// A digit run scans to the same relative end in any sequence that holds
/// the same bytes and then stops the run.
pub proof fn lemma_digits_end_transfer(b1: Seq<u8>, i1: int, b2: Seq<u8>, i2: int, n: int)
    requires
        0 <= i1,
        0 <= i2,
        0 <= n,
        i1 + n <= b1.len(),
        i2 + n <= b2.len(),
        forall|k: int| 0 <= k < n ==> #[trigger] b1[i1 + k] == b2[i2 + k],
        digits_end(b1, i1) == i1 + n,
        i2 + n == b2.len() || !is_digit(b2[i2 + n]),
    ensures
        digits_end(b2, i2) == i2 + n,
    decreases n,
{
    if n == 0 {
        if 0 <= i1 < b1.len() && is_digit(b1[i1]) {
            lemma_digits_end_char(b1, i1 + 1);
            assert(false);
        }
    } else {
        if !(0 <= i1 < b1.len() && is_digit(b1[i1])) {
            assert(digits_end(b1, i1) == i1);
            assert(false);
        }
        assert(b1[i1 + 0] == b2[i2 + 0]);
        assert(is_digit(b2[i2]));
        assert(digits_end(b1, i1 + 1) == i1 + n);
        assert forall|k: int| 0 <= k < n - 1 implies #[trigger] b1[i1 + 1 + k] == b2[i2 + 1
            + k] by {
            assert(b1[i1 + (k + 1)] == b2[i2 + (k + 1)]);
        }
        lemma_digits_end_transfer(b1, i1 + 1, b2, i2 + 1, n - 1);
    }
}

/// The fraction scan never moves backward.
pub proof fn lemma_frac_end_forward(b: Seq<u8>, i: int)
    requires
        0 <= i <= b.len(),
    ensures
        frac_end(b, i) == -1 || i <= frac_end(b, i) <= b.len(),
{
    if 0 <= i < b.len() && b[i] == 0x2e && i + 1 < b.len() && is_digit(b[i + 1]) {
        lemma_digits_end_char(b, i + 1);
    }
}

/// The exponent scan never moves backward.
pub proof fn lemma_exp_end_forward(b: Seq<u8>, i: int)
    requires
        0 <= i <= b.len(),
    ensures
        exp_end(b, i) == -1 || i <= exp_end(b, i) <= b.len(),
{
    if 0 <= i < b.len() && (b[i] == 0x65 || b[i] == 0x45) {
        let j = if i + 1 < b.len() && (b[i + 1] == 0x2b || b[i + 1] == 0x2d) {
            i + 2
        } else {
            i + 1
        };
        if j < b.len() && is_digit(b[j]) {
            lemma_digits_end_char(b, j);
        }
    }
}

/// A number literal scans to the same relative end in any sequence that
/// holds the same bytes and then stops the literal.
pub proof fn lemma_num_end_transfer(b1: Seq<u8>, i1: int, b2: Seq<u8>, i2: int, n: int)
    requires
        0 <= i1,
        0 <= i2,
        1 <= n,
        i1 + n <= b1.len(),
        i2 + n <= b2.len(),
        forall|k: int| 0 <= k < n ==> #[trigger] b1[i1 + k] == b2[i2 + k],
        num_end(b1, i1) == i1 + n,
        i2 + n == b2.len() || !is_num_cont(b2[i2 + n]),
    ensures
        num_end(b2, i2) == i2 + n,
{
    assert(b1[i1 + 0] == b2[i2 + 0]);
    let s = if 0 <= i1 < b1.len() && b1[i1] == 0x2d {
        1int
    } else {
        0int
    };
    let e1 = int_end(b1, i1 + s);
    assert(e1 >= 0);
    let f1 = frac_end(b1, e1);
    assert(f1 >= 0);
    let x1 = exp_end(b1, f1);
    assert(x1 == i1 + n);
    // bounds of the three parts
    assert(i1 + s < e1 <= b1.len()) by {
        lemma_digits_end_char(b1, i1 + s);
        if is_digit(b1[i1 + s]) && b1[i1 + s] != 0x30 {
            lemma_digits_end_char(b1, i1 + s + 1);
        }
    }
    assert(e1 <= f1 <= b1.len()) by {
        lemma_frac_end_forward(b1, e1);
    }
    assert(f1 <= x1) by {
        lemma_exp_end_forward(b1, f1);
    }
    assert(e1 <= i1 + n && f1 <= i1 + n);
    // the sign agrees
    assert(0 <= i2 < b2.len() && (b2[i2] == 0x2d) == (b1[i1] == 0x2d));
    // transfer the integer part
    let e2 = i2 + (e1 - i1);
    assert(int_end(b2, i2 + s) == e2) by {
        assert(is_digit(b1[i1 + s]));
        if s == 1 {
            assert(b1[i1 + 1] == b2[i2 + 1]);
        }
        if b1[i1 + s] == 0x30 {
        } else {
            assert(digits_end(b1, i1 + s) == e1);
            assert forall|k: int|
                0 <= k < e1 - (i1 + s) implies #[trigger] b1[i1 + s + k] == b2[i2 + s + k] by {
                assert(b1[i1 + (s + k)] == b2[i2 + (s + k)]);
            }
            if e1 - i1 < n {
                assert(b1[i1 + (e1 - i1)] == b2[i2 + (e1 - i1)]);
                assert(digits_end(b1, i1 + s) == b1.len() || !is_digit(b1[e1])) by {
                    lemma_digits_end_char(b1, i1 + s);
                }
                assert(e1 < b1.len());
            } else {
                assert(e1 == i1 + n);
            }
            lemma_digits_end_transfer(b1, i1 + s, b2, i2 + s, e1 - (i1 + s));
        }
    }
    // transfer the fraction part
    let f2 = i2 + (f1 - i1);
    assert(frac_end(b2, e2) == f2) by {
        if e1 < b1.len() && b1[e1] == 0x2e {
            // a real fraction: frac_end(b1, e1) >= 0 forces the digits
            assert(e1 + 1 < b1.len() && is_digit(b1[e1 + 1]));
            assert(f1 == digits_end(b1, e1 + 1));
            lemma_digits_end_char(b1, e1 + 1);
            assert(e1 - i1 < n);
            assert(b1[i1 + (e1 - i1)] == b2[i2 + (e1 - i1)]);
            assert(e1 + 1 - i1 <= n);
            assert(f1 > e1);
            if e1 + 1 - i1 < n {
                assert(b1[i1 + (e1 + 1 - i1)] == b2[i2 + (e1 + 1 - i1)]);
            } else {
                // the fraction's first digit would lie outside the literal
                assert(f1 <= i1 + n);
                assert(false);
            }
            assert(b2[e2] == 0x2e && is_digit(b2[e2 + 1]));
            assert forall|k: int|
                0 <= k < f1 - (e1 + 1) implies #[trigger] b1[e1 + 1 + k] == b2[e2 + 1 + k] by {
                assert(b1[i1 + (e1 + 1 - i1 + k)] == b2[i2 + (e1 + 1 - i1 + k)]);
            }
            if f1 - i1 < n {
                assert(b1[i1 + (f1 - i1)] == b2[i2 + (f1 - i1)]);
            }
            lemma_digits_end_transfer(b1, e1 + 1, b2, e2 + 1, f1 - (e1 + 1));
        } else {
            assert(f1 == e1);
            if e1 - i1 < n {
                assert(b1[i1 + (e1 - i1)] == b2[i2 + (e1 - i1)]);
                assert(!(e2 < b2.len() && b2[e2] == 0x2e));
            } else {
                assert(e1 == i1 + n);
                assert(e2 == i2 + n);
                assert(!(e2 < b2.len() && b2[e2] == 0x2e));
            }
        }
    }
    // transfer the exponent part
    assert(exp_end(b2, f2) == i2 + n) by {
        if f1 < b1.len() && (b1[f1] == 0x65 || b1[f1] == 0x45) && f1 - i1 < n {
            assert(b1[i1 + (f1 - i1)] == b2[i2 + (f1 - i1)]);
            assert(b2[f2] == b1[f1]);
            let j1 = if f1 + 1 < b1.len() && (b1[f1 + 1] == 0x2b || b1[f1 + 1] == 0x2d) {
                f1 + 2
            } else {
                f1 + 1
            };
            assert(j1 < b1.len() && is_digit(b1[j1]));
            assert(digits_end(b1, j1) == i1 + n);
            lemma_digits_end_char(b1, j1);
            assert(j1 < i1 + n);
            if f1 + 1 - i1 < n {
                assert(b1[i1 + (f1 + 1 - i1)] == b2[i2 + (f1 + 1 - i1)]);
            } else {
                assert(j1 >= i1 + n);
                assert(false);
            }
            let j2 = i2 + (j1 - i1);
            assert(j1 - i1 < n);
            assert(b1[i1 + (j1 - i1)] == b2[i2 + (j1 - i1)]);
            assert(is_digit(b2[j2]));
            assert((b2[f2 + 1] == 0x2b || b2[f2 + 1] == 0x2d) == (b1[f1 + 1] == 0x2b || b1[f1
                + 1] == 0x2d));
            assert forall|k: int|
                0 <= k < i1 + n - j1 implies #[trigger] b1[j1 + k] == b2[j2 + k] by {
                assert(b1[i1 + (j1 - i1 + k)] == b2[i2 + (j1 - i1 + k)]);
            }
            lemma_digits_end_transfer(b1, j1, b2, j2, i1 + n - j1);
        } else {
            assert(x1 == f1);
            assert(f1 == i1 + n || !(b1[f1] == 0x65 || b1[f1] == 0x45));
            if f1 - i1 < n {
                assert(b1[i1 + (f1 - i1)] == b2[i2 + (f1 - i1)]);
                assert(!(f2 < b2.len() && (b2[f2] == 0x65 || b2[f2] == 0x45)));
            } else {
                assert(f2 == i2 + n);
                assert(!(f2 < b2.len() && (b2[f2] == 0x65 || b2[f2] == 0x45)));
            }
        }
    }
    assert(num_end(b2, i2) == exp_end(b2, frac_end(b2, int_end(b2, i2 + s))));
}


/// A valid string body placed before a quote scans to exactly its length.
pub proof fn lemma_strbody_ok_scan(sv: Seq<u8>, b: Seq<u8>, i: int)
    requires
        strbody_ok(sv),
        0 <= i,
        i + sv.len() < b.len(),
        forall|k: int| 0 <= k < sv.len() ==> #[trigger] b[i + k] == sv[k],
        b[i + sv.len()] == 0x22,
    ensures
        strbody_len(b, i) == Some(sv.len() as nat),
    decreases sv.len(),
{
    if sv.len() == 0 {
        assert(b[i + 0] == 0x22);
    } else {
        assert(b[i + 0] == sv[0]);
        if sv[0] == 0x5c {
            if sv.len() >= 2 && is_simple_escape(sv[1]) {
                assert(b[i + 1] == sv[1]);
                assert forall|k: int|
                    0 <= k < sv.skip(2).len() implies #[trigger] b[i + 2 + k] == sv.skip(2)[k] by {
                    assert(b[i + (2 + k)] == sv[2 + k]);
                }
                lemma_strbody_ok_scan(sv.skip(2), b, i + 2);
            } else {
                assert(sv.len() >= 6 && sv[1] == 0x75 && is_hex(sv[2]) && is_hex(sv[3]) && is_hex(
                    sv[4],
                ) && is_hex(sv[5]));
                assert(b[i + 1] == sv[1] && b[i + 2] == sv[2] && b[i + 3] == sv[3] && b[i + 4]
                    == sv[4] && b[i + 5] == sv[5]);
                assert forall|k: int|
                    0 <= k < sv.skip(6).len() implies #[trigger] b[i + 6 + k] == sv.skip(6)[k] by {
                    assert(b[i + (6 + k)] == sv[6 + k]);
                }
                lemma_strbody_ok_scan(sv.skip(6), b, i + 6);
            }
        } else {
            assert(sv[0] != 0x22 && sv[0] >= 0x20);
            assert forall|k: int|
                0 <= k < sv.skip(1).len() implies #[trigger] b[i + 1 + k] == sv.skip(1)[k] by {
                assert(b[i + (1 + k)] == sv[1 + k]);
            }
            lemma_strbody_ok_scan(sv.skip(1), b, i + 1);
        }
    }
}

/// What the string scan accepts is a valid string body.
pub proof fn lemma_strbody_scan_ok(b: Seq<u8>, i: int, n: nat)
    requires
        0 <= i,
        strbody_len(b, i) == Some(n),
    ensures
        strbody_ok(b.subrange(i, i + n)),
    decreases n,
{
    lemma_strbody_len_bounds(b, i);
    let sv = b.subrange(i, i + n);
    if n == 0 {
    } else {
        assert(sv[0] == b[i]);
        if b[i] == 0x5c {
            if i + 1 < b.len() && is_simple_escape(b[i + 1]) {
                assert(strbody_len(b, i + 2) == Some((n - 2) as nat));
                lemma_strbody_scan_ok(b, i + 2, (n - 2) as nat);
                assert(sv[1] == b[i + 1]);
                assert(sv.skip(2) =~= b.subrange(i + 2, i + 2 + (n - 2)));
            } else {
                assert(strbody_len(b, i + 6) == Some((n - 6) as nat));
                lemma_strbody_scan_ok(b, i + 6, (n - 6) as nat);
                assert(sv[1] == b[i + 1] && sv[2] == b[i + 2] && sv[3] == b[i + 3] && sv[4] == b[i
                    + 4] && sv[5] == b[i + 5]);
                assert(sv.skip(6) =~= b.subrange(i + 6, i + 6 + (n - 6)));
            }
        } else {
            assert(strbody_len(b, i + 1) == Some((n - 1) as nat));
            lemma_strbody_scan_ok(b, i + 1, (n - 1) as nat);
            assert(sv.skip(1) =~= b.subrange(i + 1, i + 1 + (n - 1)));
        }
    }
}

/// The bytes that may start a serialized value.
pub open spec fn value_start(c: u8) -> bool {
    c == 0x6e || c == 0x74 || c == 0x66 || c == 0x22 || c == 0x2d || is_digit(c) || c == 0x5b
        || c == 0x7b
}

/// A serialized well-formed value is non-empty and starts with a value
/// byte; in particular not with blank space or a closing delimiter.
pub proof fn lemma_ser_first(v: JsonV)
    requires
        wf(v),
    ensures
        ser(v).len() > 0,
        value_start(ser(v)[0]),
{
    match v {
        JsonV::Num(sv) => {
            assert(num_end(sv, 0) == sv.len() && sv.len() > 0);
            if sv[0] != 0x2d {
                assert(int_end(sv, 0) >= 0);
                assert(is_digit(sv[0]));
            }
            assert(ser(v) == sv);
        },
        JsonV::Str(sv) => {
            assert(ser(v)[0] == 0x22);
        },
        JsonV::Arr(vs) => {
            assert(ser(v)[0] == 0x5b);
        },
        JsonV::Obj(ms) => {
            assert(ser(v)[0] == 0x7b);
        },
        JsonV::Null => {
            assert(ser(v)[0] == 0x6e);
        },
        JsonV::Bool(t) => {
            assert(ser(v)[0] == if t {
                0x74u8
            } else {
                0x66u8
            });
        },
    }
}


/// Pointwise reading of a subrange equality.
pub proof fn lemma_subrange_index(b: Seq<u8>, i: int, sv: Seq<u8>)
    requires
        0 <= i,
        i + sv.len() <= b.len(),
        b.subrange(i, i + sv.len()) == sv,
    ensures
        forall|k: int| 0 <= k < sv.len() ==> #[trigger] b[i + k] == sv[k],
{
    assert forall|k: int| 0 <= k < sv.len() implies #[trigger] b[i + k] == sv[k] by {
        assert(b.subrange(i, i + sv.len() as int)[k] == b[i + k]);
    }
}

/// The serialized text of a well-formed value, followed by anything that
/// cannot extend a number literal, parses back to exactly that value.
pub proof fn lemma_ser_value(v: JsonV, b: Seq<u8>, i: int)
    requires
        wf(v),
        0 <= i,
        i + ser(v).len() <= b.len(),
        b.subrange(i, i + ser(v).len() as int) == ser(v),
        i + ser(v).len() == b.len() || !is_num_cont(b[i + ser(v).len()]),
    ensures
        p_value(b, i) == Some((v, ser(v).len() as nat)),
    decreases v, 0int,
{
    lemma_subrange_index(b, i, ser(v));
    lemma_ser_first(v);
    assert(b[i + 0] == ser(v)[0]);
    match v {
        JsonV::Null => {
            assert(b[i + 1] == 0x75 && b[i + 2] == 0x6c && b[i + 3] == 0x6c);
        },
        JsonV::Bool(t) => {
            if t {
                assert(b[i + 1] == 0x72 && b[i + 2] == 0x75 && b[i + 3] == 0x65);
            } else {
                assert(b[i + 1] == 0x61 && b[i + 2] == 0x6c && b[i + 3] == 0x73 && b[i + 4]
                    == 0x65);
            }
        },
        JsonV::Num(sv) => {
            lemma_num_end_transfer(sv, 0, b, i, sv.len() as int);
            assert(num_end(b, i) == i + sv.len());
            assert(b.subrange(i, i + sv.len() as int) =~= sv);
        },
        JsonV::Str(sv) => {
            assert(b[i] == 0x22);
            assert forall|k: int| 0 <= k < sv.len() implies #[trigger] b[i + 1 + k] == sv[k] by {
                assert(b[i + (1 + k)] == ser(v)[1 + k]);
                assert(ser(v)[1 + k] == sv[k]);
            }
            assert(b[i + (1 + sv.len())] == ser(v)[1 + sv.len() as int]);
            assert(ser(v)[1 + sv.len() as int] == 0x22);
            lemma_strbody_ok_scan(sv, b, i + 1);
            assert(b.subrange(i + 1, i + 1 + sv.len() as int) =~= sv) by {
                assert forall|k: int|
                    0 <= k < sv.len() implies b.subrange(i + 1, i + 1 + sv.len() as int)[k]
                    == sv[k] by {
                    assert(b.subrange(i + 1, i + 1 + sv.len() as int)[k] == b[i + 1 + k]);
                }
            }
        },
        JsonV::Arr(vs) => {
            assert(b[i] == 0x5b);
            if vs.len() == 0 {
                assert(ser(v).len() == 2);
                assert(b[i + 1] == ser(v)[1]);
                assert(ser(v)[1] == 0x5d);
                assert(ws_count(b, i + 1) == 0);
                assert(vs =~= Seq::<JsonV>::empty());
            } else {
                let es = ser_elems(vs);
                assert(ser(v).len() == es.len() + 2);
                assert forall|k: int| 0 <= k < es.len() implies #[trigger] b[i + 1 + k]
                    == es[k] by {
                    assert(b[i + (1 + k)] == ser(v)[1 + k]);
                    assert(ser(v)[1 + k] == es[k]);
                }
                assert(ser(v) == seq![0x5bu8] + es + seq![0x5du8]);
                assert((seq![0x5bu8] + es + seq![0x5du8])[1 + es.len() as int] == 0x5d);
                assert(b[i + (1 + es.len())] == ser(v)[1 + es.len() as int]);
                assert(es[0] == ser(vs[0])[0]) by {
                    if vs.len() == 1 {
                    } else {
                        lemma_ser_first(vs[0]);
                        assert(es[0] == (ser(vs[0]) + seq![0x2cu8] + ser_elems(vs.drop_first()))[0]);
                    }
                }
                lemma_ser_first(vs[0]);
                assert(b[i + 1] == es[0]);
                assert(!is_ws(b[i + 1]) && b[i + 1] != 0x5d);
                assert(ws_count(b, i + 1) == 0);
                assert(b.subrange(i + 1, i + 1 + es.len() as int) =~= es) by {
                    assert forall|k: int|
                        0 <= k < es.len() implies b.subrange(i + 1, i + 1 + es.len() as int)[k]
                        == es[k] by {
                        assert(b.subrange(i + 1, i + 1 + es.len() as int)[k] == b[i + 1 + k]);
                    }
                }
                lemma_ser_elems(vs, b, i + 1);
                assert(p_elems(b, i + 1) == Some((vs, (es.len() + 1) as nat)));
            }
        },
        JsonV::Obj(ms) => {
            assert(b[i] == 0x7b);
            if ms.len() == 0 {
                assert(ser(v).len() == 2);
                assert(b[i + 1] == ser(v)[1]);
                assert(ser(v)[1] == 0x7d);
                assert(ws_count(b, i + 1) == 0);
                assert(ms =~= Seq::<(Seq<u8>, JsonV)>::empty());
            } else {
                let es = ser_members(ms);
                assert(ser(v).len() == es.len() + 2);
                assert forall|k: int| 0 <= k < es.len() implies #[trigger] b[i + 1 + k]
                    == es[k] by {
                    assert(b[i + (1 + k)] == ser(v)[1 + k]);
                    assert(ser(v)[1 + k] == es[k]);
                }
                assert(ser(v) == seq![0x7bu8] + es + seq![0x7du8]);
                assert((seq![0x7bu8] + es + seq![0x7du8])[1 + es.len() as int] == 0x7d);
                assert(b[i + (1 + es.len())] == ser(v)[1 + es.len() as int]);
                assert(es[0] == 0x22) by {
                    let head = seq![0x22u8] + ms[0].0 + seq![0x22u8, 0x3au8] + ser(ms[0].1);
                    assert(head[0] == 0x22);
                }
                assert(b[i + 1] == es[0]);
                assert(ws_count(b, i + 1) == 0);
                assert(b.subrange(i + 1, i + 1 + es.len() as int) =~= es) by {
                    assert forall|k: int|
                        0 <= k < es.len() implies b.subrange(i + 1, i + 1 + es.len() as int)[k]
                        == es[k] by {
                        assert(b.subrange(i + 1, i + 1 + es.len() as int)[k] == b[i + 1 + k]);
                    }
                }
                lemma_ser_members(ms, b, i + 1);
                assert(p_members(b, i + 1) == Some((ms, (es.len() + 1) as nat)));
            }
        },
    }
}

/// The serialized elements of a non-empty array, followed by `]`, parse
/// back to exactly those elements.
pub proof fn lemma_ser_elems(vs: Seq<JsonV>, b: Seq<u8>, i: int)
    requires
        vs.len() >= 1,
        forall|k: int| 0 <= k < vs.len() ==> wf(#[trigger] vs[k]),
        0 <= i,
        i + ser_elems(vs).len() < b.len(),
        b.subrange(i, i + ser_elems(vs).len() as int) == ser_elems(vs),
        b[i + ser_elems(vs).len()] == 0x5d,
    ensures
        p_elems(b, i) == Some((vs, (ser_elems(vs).len() + 1) as nat)),
    decreases vs, 1int,
{
    lemma_subrange_index(b, i, ser_elems(vs));
    let n0 = ser(vs[0]).len() as int;
    if vs.len() == 1 {
        assert(ser_elems(vs) == ser(vs[0]));
        assert(b.subrange(i, i + n0) =~= ser(vs[0]));
        lemma_ser_value(vs[0], b, i);
        assert(ws_count(b, i + n0) == 0);
        assert(seq![vs[0]] =~= vs);
    } else {
        let rest = vs.drop_first();
        let es = ser_elems(vs);
        let er = ser_elems(rest);
        assert(es == ser(vs[0]) + seq![0x2cu8] + er);
        assert(es.len() == n0 + 1 + er.len());
        assert forall|k: int| 0 <= k < n0 implies #[trigger] b[i + k] == ser(vs[0])[k] by {
            assert(es[k] == ser(vs[0])[k]);
        }
        assert(b.subrange(i, i + n0) =~= ser(vs[0])) by {
            assert forall|k: int| 0 <= k < n0 implies b.subrange(i, i + n0)[k] == ser(
                vs[0],
            )[k] by {
                assert(b.subrange(i, i + n0)[k] == b[i + k]);
            }
        }
        assert(b[i + n0] == es[n0]);
        assert(es[n0] == 0x2c);
        lemma_ser_value(vs[0], b, i);
        assert(ws_count(b, i + n0) == 0);
        // the tail: one past the comma
        assert forall|k: int| 0 <= k < er.len() implies #[trigger] b[i + n0 + 1 + k]
            == er[k] by {
            assert(b[i + (n0 + 1 + k)] == es[n0 + 1 + k]);
            assert(es[n0 + 1 + k] == er[k]);
        }
        assert(b.subrange(i + n0 + 1, i + n0 + 1 + er.len() as int) =~= er) by {
            assert forall|k: int|
                0 <= k < er.len() implies b.subrange(i + n0 + 1, i + n0 + 1 + er.len() as int)[k]
                == er[k] by {
                assert(b.subrange(i + n0 + 1, i + n0 + 1 + er.len() as int)[k] == b[i + n0 + 1
                    + k]);
            }
        }
        assert(forall|k: int| 0 <= k < rest.len() ==> wf(#[trigger] rest[k])) by {
            assert(forall|k: int| 0 <= k < rest.len() ==> rest[k] == vs[k + 1]);
        }
        assert(b[i + n0 + 1 + er.len()] == 0x5d);
        lemma_ser_elems(rest, b, i + n0 + 1);
        // first byte after the comma is a value byte, so no blank space
        lemma_ser_first(rest[0]);
        assert(er[0] == ser(rest[0])[0]) by {
            if rest.len() == 1 {
            } else {
                assert(er[0] == (ser(rest[0]) + seq![0x2cu8] + ser_elems(rest.drop_first()))[0]);
            }
        }
        assert(b[i + (n0 + 1 + 0)] == es[n0 + 1 + 0]);
        assert(es[n0 + 1] == er[0]);
        assert(!is_ws(b[i + n0 + 1]));
        assert(ws_count(b, i + n0 + 1) == 0);
        assert(seq![vs[0]] + rest =~= vs);
    }
}

/// The serialized members of a non-empty object, followed by `}`, parse
/// back to exactly those members.
pub proof fn lemma_ser_members(ms: Seq<(Seq<u8>, JsonV)>, b: Seq<u8>, i: int)
    requires
        ms.len() >= 1,
        forall|k: int| 0 <= k < ms.len() ==> strbody_ok((#[trigger] ms[k]).0) && wf(ms[k].1),
        0 <= i,
        i + ser_members(ms).len() < b.len(),
        b.subrange(i, i + ser_members(ms).len() as int) == ser_members(ms),
        b[i + ser_members(ms).len()] == 0x7d,
    ensures
        p_members(b, i) == Some((ms, (ser_members(ms).len() + 1) as nat)),
    decreases ms, 1int,
{
    lemma_subrange_index(b, i, ser_members(ms));
    let es = ser_members(ms);
    let kv = ms[0].0;
    let kl = kv.len() as int;
    let head = seq![0x22u8] + kv + seq![0x22u8, 0x3au8] + ser(ms[0].1);
    let n0 = head.len() as int;
    let vl = ser(ms[0].1).len() as int;
    assert(n0 == kl + 3 + vl);
    // the head's bytes inside b
    assert(es.len() >= n0);
    assert forall|k: int| 0 <= k < n0 implies #[trigger] b[i + k] == head[k] by {
        if ms.len() == 1 {
            assert(es[k] == head[k]);
        } else {
            assert(es == head + seq![0x2cu8] + ser_members(ms.drop_first()));
            assert(es[k] == head[k]);
        }
    }
    assert(b[i + 0] == head[0] && head[0] == 0x22);
    // the key scans
    assert forall|k: int| 0 <= k < kl implies #[trigger] b[i + 1 + k] == kv[k] by {
        assert(b[i + (1 + k)] == head[1 + k]);
        assert(head[1 + k] == kv[k]);
    }
    assert(b[i + (1 + kl)] == head[1 + kl] && head[1 + kl] == 0x22);
    assert(decreases_to!(ms => ms[0]));
    assert(decreases_to!(ms[0] => ms[0].0));
    lemma_strbody_ok_scan(kv, b, i + 1);
    assert(strbody_len(b, i + 1) == Some(kl as nat));
    assert(b.subrange(i + 1, i + 1 + kl) =~= kv) by {
        assert forall|k: int| 0 <= k < kl implies b.subrange(i + 1, i + 1 + kl)[k] == kv[k] by {
            assert(b.subrange(i + 1, i + 1 + kl)[k] == b[i + 1 + k]);
        }
    }
    // the colon
    assert(b[i + (2 + kl)] == head[2 + kl] && head[2 + kl] == 0x3a);
    assert(ws_count(b, i + 2 + kl) == 0);
    // the value
    assert forall|k: int| 0 <= k < vl implies #[trigger] b[i + 3 + kl + k] == ser(
        ms[0].1,
    )[k] by {
        assert(b[i + (3 + kl + k)] == head[3 + kl + k]);
        assert(head[3 + kl + k] == ser(ms[0].1)[k]);
    }
    assert(b.subrange(i + 3 + kl, i + 3 + kl + vl) =~= ser(ms[0].1)) by {
        assert forall|k: int|
            0 <= k < vl implies b.subrange(i + 3 + kl, i + 3 + kl + vl)[k] == ser(ms[0].1)[k] by {
            assert(b.subrange(i + 3 + kl, i + 3 + kl + vl)[k] == b[i + 3 + kl + k]);
        }
    }
    lemma_ser_first(ms[0].1);
    assert(b[i + (3 + kl)] == head[3 + kl]);
    assert(head[3 + kl] == ser(ms[0].1)[0]);
    assert(ws_count(b, i + 3 + kl) == 0);
    // the byte after the value: `}` or `,`
    if ms.len() == 1 {
        assert(es == head);
        assert(b[i + n0] == 0x7d);
        assert(decreases_to!(ms[0] => ms[0].1));
        lemma_ser_value(ms[0].1, b, i + 3 + kl);
        assert(ws_count(b, i + n0) == 0);
        assert(seq![(kv, ms[0].1)] =~= ms);
    } else {
        let rest = ms.drop_first();
        let er = ser_members(rest);
        assert(es == head + seq![0x2cu8] + er);
        assert(es.len() == n0 + 1 + er.len());
        assert(b[i + n0] == es[n0] && es[n0] == 0x2c);
        assert(decreases_to!(ms[0] => ms[0].1));
        lemma_ser_value(ms[0].1, b, i + 3 + kl);
        assert(ws_count(b, i + n0) == 0);
        assert forall|k: int| 0 <= k < er.len() implies #[trigger] b[i + n0 + 1 + k]
            == er[k] by {
            assert(b[i + (n0 + 1 + k)] == es[n0 + 1 + k]);
            assert(es[n0 + 1 + k] == er[k]);
        }
        assert(b.subrange(i + n0 + 1, i + n0 + 1 + er.len() as int) =~= er) by {
            assert forall|k: int|
                0 <= k < er.len() implies b.subrange(i + n0 + 1, i + n0 + 1 + er.len() as int)[k]
                == er[k] by {
                assert(b.subrange(i + n0 + 1, i + n0 + 1 + er.len() as int)[k] == b[i + n0 + 1
                    + k]);
            }
        }
        assert(forall|k: int|
            0 <= k < rest.len() ==> strbody_ok((#[trigger] rest[k]).0) && wf(rest[k].1)) by {
            assert(forall|k: int| 0 <= k < rest.len() ==> rest[k] == ms[k + 1]);
        }
        assert(b[i + n0 + 1 + er.len()] == 0x7d);
        lemma_ser_members(rest, b, i + n0 + 1);
        assert(er[0] == 0x22) by {
            let head2 = seq![0x22u8] + rest[0].0 + seq![0x22u8, 0x3au8] + ser(rest[0].1);
            assert(head2[0] == 0x22);
            if rest.len() == 1 {
            } else {
                assert(er[0] == (head2 + seq![0x2cu8] + ser_members(rest.drop_first()))[0]);
            }
        }
        assert(b[i + (n0 + 1 + 0)] == es[n0 + 1 + 0]);
        assert(!is_ws(b[i + n0 + 1]));
        assert(ws_count(b, i + n0 + 1) == 0);
        assert(seq![(kv, ms[0].1)] + rest =~= ms);
    }
}

/// Round trip: the serialized text of a well-formed value parses back to
/// exactly that value.
pub proof fn lemma_round_trip(v: JsonV)
    requires
        wf(v),
    ensures
        p_json(ser(v)) == Some(v),
{
    let b = ser(v);
    lemma_ser_first(v);
    assert(ws_count(b, 0) == 0);
    assert(b.subrange(0, b.len() as int) =~= b);
    lemma_ser_value(v, b, 0);
    assert(ws_count(b, b.len() as int) == 0);
}


/// Whatever the parser returns is well-formed.
pub proof fn lemma_p_value_wf(b: Seq<u8>, i: int)
    ensures
        p_value(b, i) matches Some((v, n)) ==> wf(v),
    decreases rem(b, i), 0int,
{
    if 0 <= i < b.len() {
        if b[i] == 0x22 {
            match strbody_len(b, i + 1) {
                Some(n) => {
                    lemma_strbody_scan_ok(b, i + 1, n);
                },
                None => {},
            }
        } else if b[i] == 0x2d || is_digit(b[i]) {
            let e = num_end(b, i);
            if e >= 0 {
                lemma_num_end_bounds(b, i);
                let sv = b.subrange(i, e);
                assert forall|k: int| 0 <= k < e - i implies #[trigger] b[i + k] == sv[k] by {
                    assert(sv[k] == b[i + k]);
                }
                lemma_num_end_transfer(b, i, sv, 0, e - i);
                assert(num_ok(sv));
            }
        } else if b[i] == 0x5b {
            let w = ws_count(b, i + 1);
            if !(i + 1 + w < b.len() && b[i + 1 + w] == 0x5d) {
                lemma_p_elems_wf(b, i + 1 + w);
            }
        } else if b[i] == 0x7b {
            let w = ws_count(b, i + 1);
            if !(i + 1 + w < b.len() && b[i + 1 + w] == 0x7d) {
                lemma_p_members_wf(b, i + 1 + w);
            }
        }
    }
}

/// Whatever the element parser returns is element-wise well-formed.
pub proof fn lemma_p_elems_wf(b: Seq<u8>, i: int)
    ensures
        p_elems(b, i) matches Some((vs, m)) ==> forall|k: int|
            0 <= k < vs.len() ==> wf(#[trigger] vs[k]),
    decreases rem(b, i), 1int,
{
    if 0 <= i < b.len() {
        lemma_p_value_wf(b, i);
        lemma_p_value_bounds(b, i);
        match p_value(b, i) {
            Some((v, n)) => {
                let w = ws_count(b, i + n);
                let k = i + n + w;
                if k < b.len() && b[k] == 0x2c {
                    let w2 = ws_count(b, k + 1);
                    lemma_p_elems_wf(b, i + n + w + 1 + w2);
                    match p_elems(b, i + n + w + 1 + w2) {
                        Some((vs2, m2)) => {
                            assert forall|q: int|
                                0 <= q < (seq![v] + vs2).len() implies wf(
                                #[trigger] (seq![v] + vs2)[q],
                            ) by {
                                if q == 0 {
                                    assert((seq![v] + vs2)[0] == v);
                                } else {
                                    assert((seq![v] + vs2)[q] == vs2[q - 1]);
                                }
                            }
                        },
                        None => {},
                    }
                } else if k < b.len() && b[k] == 0x5d {
                    assert forall|q: int| 0 <= q < seq![v].len() implies wf(
                        #[trigger] seq![v][q],
                    ) by {
                        assert(seq![v][q] == v);
                    }
                }
            },
            None => {},
        }
    }
}

/// Whatever the member parser returns has well-formed keys and values.
pub proof fn lemma_p_members_wf(b: Seq<u8>, i: int)
    ensures
        p_members(b, i) matches Some((ms, m)) ==> forall|k: int|
            0 <= k < ms.len() ==> strbody_ok((#[trigger] ms[k]).0) && wf(ms[k].1),
    decreases rem(b, i), 1int,
{
    if 0 <= i < b.len() && b[i] == 0x22 {
        match strbody_len(b, i + 1) {
            Some(n) => {
                lemma_strbody_scan_ok(b, i + 1, n);
                lemma_strbody_len_bounds(b, i + 1);
                let key = b.subrange(i + 1, i + 1 + n);
                let w1 = ws_count(b, i + 2 + n);
                let j = i + 2 + n + w1;
                if j < b.len() && b[j] == 0x3a {
                    let w2 = ws_count(b, j + 1);
                    lemma_p_value_wf(b, i + 2 + n + w1 + 1 + w2);
                    lemma_p_value_bounds(b, i + 2 + n + w1 + 1 + w2);
                    match p_value(b, i + 2 + n + w1 + 1 + w2) {
                        Some((v, m)) => {
                            let base = i + 2 + n + w1 + 1 + w2 + m;
                            let w3 = ws_count(b, base);
                            let k = base + w3;
                            if k < b.len() && b[k] == 0x7d {
                                assert forall|q: int|
                                    0 <= q < seq![(key, v)].len() implies strbody_ok(
                                    (#[trigger] seq![(key, v)][q]).0,
                                ) && wf(seq![(key, v)][q].1) by {
                                    assert(seq![(key, v)][q] == (key, v));
                                }
                            } else if k < b.len() && b[k] == 0x2c {
                                let w4 = ws_count(b, k + 1);
                                lemma_p_members_wf(b, k + 1 + w4);
                                match p_members(b, k + 1 + w4) {
                                    Some((ms2, q2)) => {
                                        assert forall|q: int|
                                            0 <= q < (seq![(key, v)] + ms2).len() implies strbody_ok(
                                            (#[trigger] (seq![(key, v)] + ms2)[q]).0,
                                        ) && wf((seq![(key, v)] + ms2)[q].1) by {
                                            if q == 0 {
                                                assert((seq![(key, v)] + ms2)[0] == (key, v));
                                            } else {
                                                assert((seq![(key, v)] + ms2)[q] == ms2[q - 1]);
                                            }
                                        }
                                    },
                                    None => {},
                                }
                            }
                        },
                        None => {},
                    }
                }
            },
            None => {},
        }
    }
}

/// Whatever `p_json` accepts is well-formed.
pub proof fn lemma_p_json_wf(b: Seq<u8>)
    ensures
        p_json(b) matches Some(v) ==> wf(v),
{
    lemma_p_value_wf(b, ws_count(b, 0) as int);
}


impl Clone for Json {
    /// A clone has the same mathematical value.
    fn clone(&self) -> (r: Json)
        ensures
            r@ == self@,
        decreases *self,
    {
        match self {
            Json::Null => Json::Null,
            Json::Bool(b) => Json::Bool(*b),
            Json::Num(s) => Json::Num(clone_bytes(s)),
            Json::Str(s) => Json::Str(clone_bytes(s)),
            Json::Arr(vs) => {
                let mut out: Vec<Json> = Vec::new();
                let mut k: usize = 0;
                while k < vs.len()
                    invariant
                        0 <= k <= vs@.len(),
                        self == &Json::Arr(*vs),
                        out@.len() == k,
                        views_of(out@) == views_of(vs@.take(k as int)),
                    decreases vs@.len() - k,
                {
                    proof {
                        assert(decreases_to!(*self => self->Arr_0));
                        assert(self->Arr_0 == *vs);
                        assert(decreases_to!(*vs => vs@));
                        assert(decreases_to!(vs@ => vs@[k as int]));
                    }
                    let ghost out0 = out@;
                    out.push(vs[k].clone());
                    proof {
                        lemma_views_of_push(out0, out@[k as int]);
                        lemma_views_of_push(vs@.take(k as int), vs@[k as int]);
                        assert(vs@.take(k as int + 1) =~= vs@.take(k as int).push(vs@[k as int]));
                        assert(views_of(out@) =~= views_of(vs@.take(k as int + 1)));
                    }
                    k = k + 1;
                }
                proof {
                    assert(vs@.take(vs@.len() as int) =~= vs@);
                }
                Json::Arr(out)
            },
            Json::Obj(ms) => {
                let mut out: Vec<(Vec<u8>, Json)> = Vec::new();
                let mut k: usize = 0;
                while k < ms.len()
                    invariant
                        0 <= k <= ms@.len(),
                        self == &Json::Obj(*ms),
                        out@.len() == k,
                        mviews_of(out@) == mviews_of(ms@.take(k as int)),
                    decreases ms@.len() - k,
                {
                    proof {
                        assert(decreases_to!(*self => self->Obj_0));
                        assert(self->Obj_0 == *ms);
                        assert(decreases_to!(*ms => ms@));
                        assert(decreases_to!(ms@ => ms@[k as int]));
                    }
                    let ghost out0 = out@;
                    let key = clone_bytes(&ms[k].0);
                    let val = ms[k].1.clone();
                    out.push((key, val));
                    proof {
                        lemma_mviews_of_push(out0, out@[k as int]);
                        lemma_mviews_of_push(ms@.take(k as int), ms@[k as int]);
                        assert(ms@.take(k as int + 1) =~= ms@.take(k as int).push(ms@[k as int]));
                        assert(mviews_of(out@) =~= mviews_of(ms@.take(k as int + 1)));
                    }
                    k = k + 1;
                }
                proof {
                    assert(ms@.take(ms@.len() as int) =~= ms@);
                }
                Json::Obj(out)
            },
        }
    }
}

/// Copy a byte vector.
pub fn clone_bytes(s: &Vec<u8>) -> (r: Vec<u8>)
    ensures
        r@ == s@,
{
    let mut out: Vec<u8> = Vec::new();
    out.extend_from_slice(s.as_slice());
    proof {
        assert(out@ =~= s@);
    }
    out
}

/// Whether an object holds `key`.
pub open spec fn has_key(ms: Seq<(Seq<u8>, JsonV)>, key: Seq<u8>) -> bool {
    exists|k: int| 0 <= k < ms.len() && (#[trigger] ms[k]).0 == key
}

/// The value of the first entry named `key`.
pub open spec fn obj_get(ms: Seq<(Seq<u8>, JsonV)>, key: Seq<u8>) -> JsonV
    decreases ms.len(),
{
    if ms.len() == 0 {
        JsonV::Null
    } else if ms[0].0 == key {
        ms[0].1
    } else {
        obj_get(ms.drop_first(), key)
    }
}

/// The document half of a shallow merge: each entry of `doc` keeps its
/// key; its value is overwritten where `patch` names the key.
pub open spec fn merge_into(doc: Seq<(Seq<u8>, JsonV)>, patch: Seq<(Seq<u8>, JsonV)>) -> Seq<
    (Seq<u8>, JsonV),
>
    decreases doc.len(),
{
    if doc.len() == 0 {
        Seq::empty()
    } else {
        let head = if has_key(patch, doc[0].0) {
            (doc[0].0, obj_get(patch, doc[0].0))
        } else {
            doc[0]
        };
        seq![head] + merge_into(doc.drop_first(), patch)
    }
}

/// The patch half of a shallow merge: the entries of `patch` whose keys
/// the document does not hold, in order.
pub open spec fn merge_extra(doc: Seq<(Seq<u8>, JsonV)>, patch: Seq<(Seq<u8>, JsonV)>) -> Seq<
    (Seq<u8>, JsonV),
>
    decreases patch.len(),
{
    if patch.len() == 0 {
        Seq::empty()
    } else {
        let rest = merge_extra(doc, patch.drop_first());
        if has_key(doc, patch[0].0) {
            rest
        } else {
            seq![patch[0]] + rest
        }
    }
}

/// The shallow merge of two objects: each key of `patch` overwrites the
/// matching key of `doc`; keys only in `doc` are preserved; keys only in
/// `patch` are appended in order.
pub open spec fn merge_obj(doc: Seq<(Seq<u8>, JsonV)>, patch: Seq<(Seq<u8>, JsonV)>) -> Seq<
    (Seq<u8>, JsonV),
> {
    merge_into(doc, patch) + merge_extra(doc, patch)
}

/// Two byte sequences compared for equality.
pub fn bytes_eq(a: &[u8], b: &[u8]) -> (r: bool)
    ensures
        r == (a@ == b@),
{
    if a.len() != b.len() {
        proof {
            assert(a@ != b@);
        }
        return false;
    }
    let mut k: usize = 0;
    while k < a.len()
        invariant
            0 <= k <= a@.len(),
            a@.len() == b@.len(),
            forall|q: int| 0 <= q < k ==> a@[q] == b@[q],
        decreases a@.len() - k,
    {
        if a[k] != b[k] {
            proof {
                assert(a@[k as int] != b@[k as int]);
            }
            return false;
        }
        k = k + 1;
    }
    proof {
        assert(a@ =~= b@);
    }
    true
}

/// Whether `ms` holds an entry named `key`, and the value of the first
/// such entry.
pub fn obj_lookup(ms: &Vec<(Vec<u8>, Json)>, key: &[u8]) -> (r: Option<Json>)
    ensures
        r matches Some(v) ==> has_key(mviews_of(ms@), key@) && v@ == obj_get(
            mviews_of(ms@),
            key@,
        ),
        r is None ==> !has_key(mviews_of(ms@), key@),
{
    proof {
        lemma_mviews_of(ms@);
        assert(mviews_of(ms@).skip(0) =~= mviews_of(ms@));
    }
    let mut k: usize = 0;
    while k < ms.len()
        invariant
            0 <= k <= ms@.len(),
            mviews_of(ms@).len() == ms@.len(),
            forall|q: int|
                0 <= q < ms@.len() ==> #[trigger] mviews_of(ms@)[q] == (ms@[q].0@, view_of(
                    ms@[q].1,
                )),
            forall|q: int| 0 <= q < k ==> (#[trigger] mviews_of(ms@)[q]).0 != key@,
            obj_get(mviews_of(ms@), key@) == obj_get(mviews_of(ms@).skip(k as int), key@),
            mviews_of(ms@).skip(k as int).len() == ms@.len() - k,
            forall|q: int|
                0 <= q < ms@.len() - k ==> #[trigger] mviews_of(ms@).skip(k as int)[q]
                    == mviews_of(ms@)[k + q],
        decreases ms@.len() - k,
    {
        if bytes_eq(ms[k].0.as_slice(), key) {
            let v = ms[k].1.clone();
            proof {
                assert(mviews_of(ms@)[k as int].0 == key@);
                assert(mviews_of(ms@).skip(k as int)[0] == mviews_of(ms@)[k as int]);
                assert(obj_get(mviews_of(ms@).skip(k as int), key@) == mviews_of(
                    ms@,
                )[k as int].1);
            }
            return Some(v);
        }
        proof {
            let tail = mviews_of(ms@).skip(k as int);
            assert(tail[0] == mviews_of(ms@)[k as int]);
            assert(tail[0].0 != key@);
            assert(tail.drop_first() =~= mviews_of(ms@).skip(k as int + 1));
        }
        k = k + 1;
    }
    proof {
        if has_key(mviews_of(ms@), key@) {
            let w = choose|q: int|
                0 <= q < mviews_of(ms@).len() && (#[trigger] mviews_of(ms@)[q]).0 == key@;
            assert(false);
        }
    }
    None
}


/// Shallow-merge `patch` into `doc`: the merged object, exactly
/// `merge_obj` of the two.
pub fn merge_objects(doc: &Vec<(Vec<u8>, Json)>, patch: &Vec<(Vec<u8>, Json)>) -> (r: Vec<
    (Vec<u8>, Json),
>)
    ensures
        mviews_of(r@) == merge_obj(mviews_of(doc@), mviews_of(patch@)),
        wf(JsonV::Obj(mviews_of(doc@))) && wf(JsonV::Obj(mviews_of(patch@))) ==> wf(
            JsonV::Obj(mviews_of(r@)),
        ),
{
    proof {
        lemma_mviews_of(doc@);
        lemma_mviews_of(patch@);
        if wf(JsonV::Obj(mviews_of(doc@))) && wf(JsonV::Obj(mviews_of(patch@))) {
            lemma_merge_wf(mviews_of(doc@), mviews_of(patch@));
        }
    }
    let mut out: Vec<(Vec<u8>, Json)> = Vec::new();
    let mut k: usize = 0;
    while k < doc.len()
        invariant
            0 <= k <= doc@.len(),
            mviews_of(doc@).len() == doc@.len(),
            forall|q: int|
                0 <= q < doc@.len() ==> #[trigger] mviews_of(doc@)[q] == (doc@[q].0@, view_of(
                    doc@[q].1,
                )),
            mviews_of(out@) == merge_into(mviews_of(doc@).take(k as int), mviews_of(patch@)),
        decreases doc@.len() - k,
    {
        let ghost out0 = out@;
        let entry = match obj_lookup(patch, doc[k].0.as_slice()) {
            Some(v) => (clone_bytes(&doc[k].0), v),
            None => (clone_bytes(&doc[k].0), doc[k].1.clone()),
        };
        out.push(entry);
        proof {
            lemma_mviews_of_push(out0, out@[out@.len() - 1]);
            lemma_merge_into_push(mviews_of(doc@).take(k as int), mviews_of(doc@)[k as int],
                mviews_of(patch@));
            assert(mviews_of(doc@).take(k as int + 1) =~~= mviews_of(doc@).take(k as int).push(
                mviews_of(doc@)[k as int],
            ));
            assert(mviews_of(out@) =~~= merge_into(
                mviews_of(doc@).take(k as int + 1),
                mviews_of(patch@),
            ));
        }
        k = k + 1;
    }
    proof {
        assert(mviews_of(doc@).take(doc@.len() as int) =~~= mviews_of(doc@));
    }
    let ghost half = mviews_of(out@);
    let mut k2: usize = 0;
    while k2 < patch.len()
        invariant
            0 <= k2 <= patch@.len(),
            mviews_of(doc@).len() == doc@.len(),
            mviews_of(patch@).len() == patch@.len(),
            forall|q: int|
                0 <= q < doc@.len() ==> #[trigger] mviews_of(doc@)[q] == (doc@[q].0@, view_of(
                    doc@[q].1,
                )),
            forall|q: int|
                0 <= q < patch@.len() ==> #[trigger] mviews_of(patch@)[q] == (patch@[q].0@,
                view_of(patch@[q].1)),
            half == merge_into(mviews_of(doc@), mviews_of(patch@)),
            mviews_of(out@) == half + merge_extra(
                mviews_of(doc@),
                mviews_of(patch@).take(k2 as int),
            ),
        decreases patch@.len() - k2,
    {
        let ghost out0 = out@;
        let keep = match obj_lookup(doc, patch[k2].0.as_slice()) {
            Some(_) => false,
            None => true,
        };
        if keep {
            out.push((clone_bytes(&patch[k2].0), patch[k2].1.clone()));
            proof {
                lemma_mviews_of_push(out0, out@[out@.len() - 1]);
            }
        }
        proof {
            lemma_merge_extra_push(
                mviews_of(doc@),
                mviews_of(patch@).take(k2 as int),
                mviews_of(patch@)[k2 as int],
            );
            assert(mviews_of(patch@).take(k2 as int + 1) =~~= mviews_of(patch@).take(
                k2 as int,
            ).push(mviews_of(patch@)[k2 as int]));
            assert(mviews_of(out@) =~~= half + merge_extra(
                mviews_of(doc@),
                mviews_of(patch@).take(k2 as int + 1),
            ));
        }
        k2 = k2 + 1;
    }
    proof {
        assert(mviews_of(patch@).take(patch@.len() as int) =~~= mviews_of(patch@));
    }
    out
}

/// `merge_into` grows entry-wise.
pub proof fn lemma_merge_into_push(
    doc: Seq<(Seq<u8>, JsonV)>,
    e: (Seq<u8>, JsonV),
    patch: Seq<(Seq<u8>, JsonV)>,
)
    ensures
        merge_into(doc.push(e), patch) == merge_into(doc, patch).push(
            if has_key(patch, e.0) {
                (e.0, obj_get(patch, e.0))
            } else {
                e
            },
        ),
    decreases doc.len(),
{
    if doc.len() == 0 {
        assert(doc.push(e)[0] == e);
        assert(doc.push(e).drop_first() =~= doc);
        assert(merge_into(doc, patch) == Seq::<(Seq<u8>, JsonV)>::empty());
        assert(merge_into(doc.push(e), patch).len() == 1);
        assert(merge_into(doc.push(e), patch)[0] == (if has_key(patch, e.0) {
            (e.0, obj_get(patch, e.0))
        } else {
            e
        }));
        assert(merge_into(doc.push(e), patch) =~~= merge_into(doc, patch).push(
            if has_key(patch, e.0) {
                (e.0, obj_get(patch, e.0))
            } else {
                e
            },
        ));
    } else {
        assert(doc.push(e)[0] == doc[0]);
        assert(doc.push(e).drop_first() =~= doc.drop_first().push(e));
        lemma_merge_into_push(doc.drop_first(), e, patch);
        assert(merge_into(doc.push(e), patch) =~~= merge_into(doc, patch).push(
            if has_key(patch, e.0) {
                (e.0, obj_get(patch, e.0))
            } else {
                e
            },
        ));
    }
}

/// `merge_extra` grows by at most one entry per appended patch entry.
pub proof fn lemma_merge_extra_push(
    doc: Seq<(Seq<u8>, JsonV)>,
    patch: Seq<(Seq<u8>, JsonV)>,
    e: (Seq<u8>, JsonV),
)
    ensures
        merge_extra(doc, patch.push(e)) == if has_key(doc, e.0) {
            merge_extra(doc, patch)
        } else {
            merge_extra(doc, patch) + seq![e]
        },
    decreases patch.len(),
{
    if patch.len() == 0 {
        assert(patch.push(e)[0] == e);
        assert(patch.push(e).drop_first() =~= patch);
        if has_key(doc, e.0) {
            assert(merge_extra(doc, patch.push(e)) =~~= merge_extra(doc, patch));
        } else {
            assert(merge_extra(doc, patch.push(e)) =~~= merge_extra(doc, patch) + seq![e]);
        }
    } else {
        assert(patch.push(e)[0] == patch[0]);
        assert(patch.push(e).drop_first() =~= patch.drop_first().push(e));
        lemma_merge_extra_push(doc, patch.drop_first(), e);
        if has_key(doc, e.0) {
            assert(merge_extra(doc, patch.push(e)) =~~= merge_extra(doc, patch));
        } else {
            assert(merge_extra(doc, patch.push(e)) =~~= merge_extra(doc, patch) + seq![e]);
        }
    }
}

/// A merge of well-formed objects is well-formed.
pub proof fn lemma_merge_wf(doc: Seq<(Seq<u8>, JsonV)>, patch: Seq<(Seq<u8>, JsonV)>)
    requires
        wf(JsonV::Obj(doc)),
        wf(JsonV::Obj(patch)),
    ensures
        wf(JsonV::Obj(merge_obj(doc, patch))),
{
    assert((JsonV::Obj(doc))->Obj_0 == doc);
    assert((JsonV::Obj(patch))->Obj_0 == patch);
    assert((JsonV::Obj(merge_obj(doc, patch)))->Obj_0 == merge_obj(doc, patch));
    lemma_merge_into_wf(doc, patch);
    lemma_merge_extra_wf(doc, patch);
    let a = merge_into(doc, patch);
    let b = merge_extra(doc, patch);
    assert forall|k: int|
        0 <= k < (a + b).len() implies strbody_ok((#[trigger] (a + b)[k]).0) && wf(
        (a + b)[k].1,
    ) by {
        if k < a.len() {
            assert((a + b)[k] == a[k]);
        } else {
            assert((a + b)[k] == b[k - a.len()]);
        }
    }
}

/// Each half of a merge keeps well-formedness.
proof fn lemma_merge_into_wf(doc: Seq<(Seq<u8>, JsonV)>, patch: Seq<(Seq<u8>, JsonV)>)
    requires
        wf(JsonV::Obj(doc)),
        wf(JsonV::Obj(patch)),
    ensures
        merge_into(doc, patch).len() == doc.len(),
        forall|k: int|
            0 <= k < doc.len() ==> strbody_ok((#[trigger] merge_into(doc, patch)[k]).0) && wf(
                merge_into(doc, patch)[k].1,
            ),
    decreases doc.len(),
{
    assert((JsonV::Obj(doc))->Obj_0 == doc);
    assert((JsonV::Obj(patch))->Obj_0 == patch);
    if doc.len() > 0 {
        assert((JsonV::Obj(doc.drop_first()))->Obj_0 == doc.drop_first());
        assert forall|k: int|
            0 <= k < doc.drop_first().len() implies strbody_ok(
            (#[trigger] doc.drop_first()[k]).0,
        ) && wf(doc.drop_first()[k].1) by {
            assert(doc.drop_first()[k] == doc[k + 1]);
            assert(strbody_ok(doc[k + 1].0) && wf(doc[k + 1].1));
        }
        assert(wf(JsonV::Obj(doc.drop_first())));
        lemma_merge_into_wf(doc.drop_first(), patch);
        if has_key(patch, doc[0].0) {
            lemma_obj_get_wf(patch, doc[0].0);
        }
        assert(forall|k: int|
            1 <= k < doc.len() ==> #[trigger] merge_into(doc, patch)[k] == merge_into(
                doc.drop_first(),
                patch,
            )[k - 1]);
        assert(doc[0] == doc.index(0));
    }
}

proof fn lemma_merge_extra_wf(doc: Seq<(Seq<u8>, JsonV)>, patch: Seq<(Seq<u8>, JsonV)>)
    requires
        wf(JsonV::Obj(patch)),
    ensures
        forall|k: int|
            0 <= k < merge_extra(doc, patch).len() ==> strbody_ok(
                (#[trigger] merge_extra(doc, patch)[k]).0,
            ) && wf(merge_extra(doc, patch)[k].1),
    decreases patch.len(),
{
    assert((JsonV::Obj(patch))->Obj_0 == patch);
    if patch.len() > 0 {
        assert((JsonV::Obj(patch.drop_first()))->Obj_0 == patch.drop_first());
        assert forall|k: int|
            0 <= k < patch.drop_first().len() implies strbody_ok(
            (#[trigger] patch.drop_first()[k]).0,
        ) && wf(patch.drop_first()[k].1) by {
            assert(patch.drop_first()[k] == patch[k + 1]);
            assert(strbody_ok(patch[k + 1].0) && wf(patch[k + 1].1));
        }
        assert(wf(JsonV::Obj(patch.drop_first())));
        lemma_merge_extra_wf(doc, patch.drop_first());
        let rest = merge_extra(doc, patch.drop_first());
        if !has_key(doc, patch[0].0) {
            assert(patch[0] == patch.index(0));
            assert(forall|k: int|
                1 <= k < merge_extra(doc, patch).len() ==> #[trigger] merge_extra(
                    doc,
                    patch,
                )[k] == rest[k - 1]);
            assert(merge_extra(doc, patch)[0] == patch[0]);
        }
    }
}

/// A value read out of a well-formed object is well-formed.
pub proof fn lemma_obj_get_wf(ms: Seq<(Seq<u8>, JsonV)>, key: Seq<u8>)
    requires
        wf(JsonV::Obj(ms)),
        has_key(ms, key),
    ensures
        wf(obj_get(ms, key)),
    decreases ms.len(),
{
    assert((JsonV::Obj(ms))->Obj_0 == ms);
    if ms.len() > 0 {
        if ms[0].0 == key {
            assert(ms[0] == ms.index(0));
        } else {
            assert((JsonV::Obj(ms.drop_first()))->Obj_0 == ms.drop_first());
            assert forall|k: int|
                0 <= k < ms.drop_first().len() implies strbody_ok(
                (#[trigger] ms.drop_first()[k]).0,
            ) && wf(ms.drop_first()[k].1) by {
                assert(ms.drop_first()[k] == ms[k + 1]);
                assert(strbody_ok(ms[k + 1].0) && wf(ms[k + 1].1));
            }
            assert(wf(JsonV::Obj(ms.drop_first())));
            assert(has_key(ms.drop_first(), key)) by {
                let w = choose|k: int| 0 <= k < ms.len() && (#[trigger] ms[k]).0 == key;
                assert(ms.drop_first()[w - 1] == ms[w]);
            }
            lemma_obj_get_wf(ms.drop_first(), key);
        }
    }
}

} // verus!
