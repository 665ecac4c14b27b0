//! Document identifiers: 128-bit time-sortable ids with a 26-character
//! Crockford base-32 text form. Rendering is total, parsing is its exact
//! inverse on all rendered texts, and the numeric order of ids matches the
//! byte order of their texts.

use vstd::arithmetic::div_mod::lemma_div_denominator;
use vstd::arithmetic::div_mod::lemma_fundamental_div_mod;
use vstd::prelude::*;

verus! {

/// The length of an id's text form.
pub const ID_TEXT_LEN: usize = 26;

/// 32 to the `k`-th power.
pub open spec fn pow32(k: nat) -> nat
    decreases k,
{
    if k == 0 {
        1
    } else {
        32 * pow32((k - 1) as nat)
    }
}

/// The Crockford base-32 character of a digit below 32:
/// `0123456789ABCDEFGHJKMNPQRSTVWXYZ`.
pub open spec fn b32_char(d: u8) -> u8 {
    if d < 10 {
        (0x30 + d) as u8
    } else if d < 18 {
        (55 + d) as u8
    } else if d < 20 {
        (56 + d) as u8
    } else if d < 22 {
        (57 + d) as u8
    } else if d < 27 {
        (58 + d) as u8
    } else {
        (59 + d) as u8
    }
}

/// The digit value of a character, upper or lower case; `-1` if the
/// character is not in the alphabet.
pub open spec fn char_val(c: u8) -> int {
    if 0x30 <= c <= 0x39 {
        c - 0x30
    } else if 0x41 <= c <= 0x48 {  // A..H
        c - 55
    } else if 0x4a <= c <= 0x4b {  // J K
        c - 56
    } else if 0x4d <= c <= 0x4e {  // M N
        c - 57
    } else if 0x50 <= c <= 0x54 {  // P..T
        c - 58
    } else if 0x56 <= c <= 0x5a {  // V..Z
        c - 59
    } else if 0x61 <= c <= 0x68 {  // a..h
        c - 87
    } else if 0x6a <= c <= 0x6b {  // j k
        c - 88
    } else if 0x6d <= c <= 0x6e {  // m n
        c - 89
    } else if 0x70 <= c <= 0x74 {  // p..t
        c - 90
    } else if 0x76 <= c <= 0x7a {  // v..z
        c - 91
    } else {
        -1
    }
}

/// The last `k` base-32 characters of `v`.
pub open spec fn text_rec(v: nat, k: nat) -> Seq<u8>
    decreases k,
{
    if k == 0 {
        Seq::empty()
    } else {
        text_rec(v / 32, (k - 1) as nat).push(b32_char((v % 32) as u8))
    }
}

/// The 26-character text form of an id.
pub open spec fn id_text(v: u128) -> Seq<u8> {
    text_rec(v as nat, 26)
}

/// The numeric value of a base-32 text.
pub open spec fn b32_val(t: Seq<u8>) -> int
    decreases t.len(),
{
    if t.len() == 0 {
        0
    } else {
        b32_val(t.drop_last()) * 32 + char_val(t.last())
    }
}

/// What a text parses to: the id whose text it is, if it is 26 characters
/// of the alphabet (either case) whose leading character is below 8.
pub open spec fn id_parse(t: Seq<u8>) -> Option<u128> {
    if t.len() == 26 && (forall|k: int| 0 <= k < 26 ==> char_val(#[trigger] t[k]) >= 0)
        && char_val(t[0]) < 8 {
        Some(b32_val(t) as u128)
    } else {
        None
    }
}

/// The base-32 character of a digit, executable form.
pub fn b32_char_x(d: u8) -> (r: u8)
    requires
        d < 32,
    ensures
        r == b32_char(d),
{
    if d < 10 {
        0x30 + d
    } else if d < 18 {
        55 + d
    } else if d < 20 {
        56 + d
    } else if d < 22 {
        57 + d
    } else if d < 27 {
        58 + d
    } else {
        59 + d
    }
}

/// The digit value of a character, executable form.
pub fn char_val_x(c: u8) -> (r: Option<u8>)
    ensures
        r matches Some(d) ==> char_val(c) == d && d < 32,
        r is None ==> char_val(c) == -1,
{
    if 0x30 <= c && c <= 0x39 {
        Some(c - 0x30)
    } else if 0x41 <= c && c <= 0x48 {
        Some(c - 55)
    } else if 0x4a <= c && c <= 0x4b {
        Some(c - 56)
    } else if 0x4d <= c && c <= 0x4e {
        Some(c - 57)
    } else if 0x50 <= c && c <= 0x54 {
        Some(c - 58)
    } else if 0x56 <= c && c <= 0x5a {
        Some(c - 59)
    } else if 0x61 <= c && c <= 0x68 {
        Some(c - 87)
    } else if 0x6a <= c && c <= 0x6b {
        Some(c - 88)
    } else if 0x6d <= c && c <= 0x6e {
        Some(c - 89)
    } else if 0x70 <= c && c <= 0x74 {
        Some(c - 90)
    } else if 0x76 <= c && c <= 0x7a {
        Some(c - 91)
    } else {
        None
    }
}

/// `text_rec` produces `k` characters, all of the alphabet.
pub proof fn lemma_text_rec_shape(v: nat, k: nat)
    ensures
        text_rec(v, k).len() == k,
        forall|q: int| 0 <= q < k ==> 0 <= char_val(#[trigger] text_rec(v, k)[q]) < 32,
        forall|q: int|
            0 <= q < k ==> char_val(#[trigger] text_rec(v, k)[q]) == char_val(
                b32_char((text_val_digit(v, k, q)) as u8),
            ),
    decreases k,
{
    if k > 0 {
        lemma_text_rec_shape(v / 32, (k - 1) as nat);
        let t = text_rec(v, k);
        let t0 = text_rec(v / 32, (k - 1) as nat);
        assert forall|q: int| 0 <= q < k implies 0 <= char_val(#[trigger] t[q]) < 32 by {
            if q < k - 1 {
                assert(t[q] == t0[q]);
            } else {
                assert(t[q] == b32_char((v % 32) as u8));
            }
        }
        assert forall|q: int|
            0 <= q < k implies char_val(#[trigger] t[q]) == char_val(
            b32_char((text_val_digit(v, k, q)) as u8),
        ) by {
            if q < k - 1 {
                assert(t[q] == t0[q]);
            } else {
                assert(t[q] == b32_char((v % 32) as u8));
            }
        }
    }
}

/// The digit rendered at position `q` of `text_rec(v, k)`.
pub open spec fn text_val_digit(v: nat, k: nat, q: int) -> nat
    decreases k,
{
    if k == 0 {
        0
    } else if q == k - 1 {
        v % 32
    } else {
        text_val_digit(v / 32, (k - 1) as nat, q)
    }
}

/// Rendering then reading a value below `32^k` gives the value back.
pub proof fn lemma_b32_val_text(v: nat, k: nat)
    requires
        v < pow32(k),
    ensures
        b32_val(text_rec(v, k)) == v,
    decreases k,
{
    if k == 0 {
    } else {
        assert(v / 32 < pow32((k - 1) as nat)) by {
            lemma_fundamental_div_mod(v as int, 32);
            assert(pow32(k) == 32 * pow32((k - 1) as nat));
        }
        lemma_b32_val_text(v / 32, (k - 1) as nat);
        let t0 = text_rec(v / 32, (k - 1) as nat);
        let c = b32_char((v % 32) as u8);
        assert(t0.push(c).drop_last() =~= t0);
        assert(t0.push(c).last() == c);
        assert(char_val(c) == v % 32);
        lemma_fundamental_div_mod(v as int, 32);
    }
}

/// The first character of a rendered text is the value's top digit.
pub proof fn lemma_text_rec_first(v: nat, k: nat)
    requires
        k >= 1,
    ensures
        text_rec(v, k)[0] == b32_char(((v / pow32((k - 1) as nat)) % 32) as u8),
    decreases k,
{
    if k == 1 {
        assert(pow32(0) == 1);
        assert(v / 1 == v) by {
            lemma_fundamental_div_mod(v as int, 1);
        }
        assert((v / pow32(0)) % 32 == v % 32);
        assert(text_rec(v, 1) == text_rec(v / 32, 0).push(b32_char((v % 32) as u8)));
        assert(text_rec(v, 1)[0] == b32_char((v % 32) as u8));
    } else {
        lemma_text_rec_first(v / 32, (k - 1) as nat);
        let t0 = text_rec(v / 32, (k - 1) as nat);
        lemma_text_rec_shape(v / 32, (k - 1) as nat);
        assert(text_rec(v, k)[0] == t0[0]);
        lemma_pow32_positive((k - 2) as nat);
        lemma_div_denominator(v as int, 32, pow32((k - 2) as nat) as int);
        assert(32 * pow32((k - 2) as nat) == pow32((k - 1) as nat));
        assert(t0[0] == b32_char(((v / 32 / pow32((k - 1 - 1) as nat)) % 32) as u8));
        assert(((k - 1) as nat - 1) as nat == (k - 2) as nat);
        assert(((v as int) / 32) / (pow32((k - 2) as nat) as int) == (v as int) / (32 * (pow32(
            (k - 2) as nat,
        ) as int)));
        assert(32 * (pow32((k - 2) as nat) as int) == pow32((k - 1) as nat) as int);
        assert(v / 32 / pow32((k - 2) as nat) == v / pow32((k - 1) as nat));
    }
}

/// `32^25` and neighbours, written out.
pub proof fn lemma_pow32_values()
    ensures
        pow32(25) == 0x20000000000000000000000000000000,
        pow32(26) == 0x400000000000000000000000000000000,
        forall|k: nat| k <= 25 ==> #[trigger] pow32(k) <= pow32(25),
{
    reveal_with_fuel(pow32, 27);
    assert forall|k: nat| k <= 25 implies #[trigger] pow32(k) <= pow32(25) by {
        lemma_pow32_increases(k, 25);
    }
}

/// `pow32` grows with its argument.
pub proof fn lemma_pow32_increases(a: nat, c: nat)
    requires
        a <= c,
    ensures
        pow32(a) <= pow32(c),
    decreases c,
{
    if a < c {
        lemma_pow32_increases(a, (c - 1) as nat);
        assert(pow32(c) == 32 * pow32((c - 1) as nat));
        assert(pow32((c - 1) as nat) >= 1) by {
            lemma_pow32_positive((c - 1) as nat);
        }
    }
}

/// `pow32` is positive.
pub proof fn lemma_pow32_positive(k: nat)
    ensures
        pow32(k) >= 1,
    decreases k,
{
    if k > 0 {
        lemma_pow32_positive((k - 1) as nat);
    }
}

/// Reading a valid text gives a value below `32^len`, and below
/// `8 * 32^(len-1)` when the leading digit is below 8.
pub proof fn lemma_b32_val_bound(t: Seq<u8>)
    requires
        forall|k: int| 0 <= k < t.len() ==> 0 <= char_val(#[trigger] t[k]) < 32,
    ensures
        0 <= b32_val(t) < pow32(t.len()),
        t.len() >= 1 && char_val(t[0]) < 8 ==> b32_val(t) < 8 * pow32((t.len() - 1) as nat),
    decreases t.len(),
{
    if t.len() == 0 {
    } else {
        let t0 = t.drop_last();
        assert(forall|k: int| 0 <= k < t0.len() ==> #[trigger] t0[k] == t[k]);
        lemma_b32_val_bound(t0);
        assert(pow32(t.len() as nat) == 32 * pow32((t.len() - 1) as nat));
        if t.len() >= 2 && char_val(t[0]) < 8 {
            assert(t0[0] == t[0]);
            assert(b32_val(t0) < 8 * pow32((t0.len() - 1) as nat));
            assert(8 * pow32((t0.len() - 1) as nat) * 32 == 8 * pow32(
                (t.len() - 1) as nat,
            )) by {
                assert(pow32((t.len() - 1) as nat) == 32 * pow32((t.len() - 2) as nat));
            }
        }
    }
}

/// Round trip: the text of an id parses back to exactly that id.
pub proof fn lemma_id_round_trip(v: u128)
    ensures
        id_parse(id_text(v)) == Some(v),
{
    let t = id_text(v);
    lemma_text_rec_shape(v as nat, 26);
    lemma_pow32_values();
    assert((v as nat) < pow32(26)) by {
        assert(u128::MAX < pow32(26));
    }
    lemma_b32_val_text(v as nat, 26);
    lemma_text_rec_first(v as nat, 26);
    assert(char_val(t[0]) < 8) by {
        assert((v as nat) / pow32(25) < 8) by {
            assert((v as nat) < 8 * pow32(25));
            vstd::arithmetic::div_mod::lemma_multiply_divide_lt(v as int, pow32(25) as int, 8);
        }
        assert(((v as nat) / pow32(25)) % 32 == (v as nat) / pow32(25));
        assert(char_val(b32_char(((v as nat) / pow32(25) % 32) as u8)) == (v as nat) / pow32(
            25,
        ) % 32);
    }
    assert(b32_val(t) == v as nat);
}

/// Two ids with the same text are the same id.
pub proof fn lemma_id_text_injective(v1: u128, v2: u128)
    requires
        id_text(v1) == id_text(v2),
    ensures
        v1 == v2,
{
    lemma_id_round_trip(v1);
    lemma_id_round_trip(v2);
}

/// Render an id as its 26-character text.
pub fn id_to_text(v: u128) -> (r: Vec<u8>)
    ensures
        r@ == id_text(v),
        r@.len() == 26,
{
    proof {
        lemma_text_rec_shape(v as nat, 26);
    }
    text_rec_x(v, 26)
}

/// Render the last `k` characters of `v`.
fn text_rec_x(v: u128, k: usize) -> (r: Vec<u8>)
    requires
        k <= 26,
    ensures
        r@ == text_rec(v as nat, k as nat),
    decreases k,
{
    if k == 0 {
        Vec::new()
    } else {
        let mut r = text_rec_x(v / 32, k - 1);
        let d = (v % 32) as u8;
        r.push(b32_char_x(d));
        proof {
            assert((v % 32) as u8 as nat == (v as nat) % 32);
        }
        r
    }
}

/// Read an id from its text. Returns exactly what `id_parse` says: `Some`
/// for 26 alphabet characters (either case) with a leading character below
/// 8, `None` otherwise.
pub fn id_from_text(t: &[u8]) -> (r: Option<u128>)
    ensures
        r == id_parse(t@),
{
    if t.len() != 26 {
        return None;
    }
    let ghost tv = t@;
    let mut acc: u128 = 0;
    let mut k: usize = 0;
    proof {
        lemma_pow32_values();
    }
    while k < 26
        invariant
            0 <= k <= 26,
            t@.len() == 26,
            forall|q: int| 0 <= q < k ==> 0 <= char_val(#[trigger] t@[q]) < 32,
            k >= 1 ==> char_val(t@[0]) < 8,
            acc as int == b32_val(t@.take(k as int)),
            k == 0 ==> acc == 0,
            k >= 1 ==> (acc as nat) < 8 * pow32((k - 1) as nat),
            pow32(25) == 0x20000000000000000000000000000000,
            forall|q: nat| q <= 25 ==> #[trigger] pow32(q) <= pow32(25),
        decreases 26 - k,
    {
        let c = t[k];
        let d = match char_val_x(c) {
            Some(d) => d,
            None => {
                proof {
                    assert(char_val(t@[k as int]) < 0);
                }
                return None;
            },
        };
        if k == 0 && d >= 8 {
            proof {
                assert(char_val(t@[0]) >= 8);
            }
            return None;
        }
        proof {
            if k >= 1 {
                assert((acc as nat) * 32 < 8 * pow32((k - 1) as nat) * 32) by (nonlinear_arith)
                    requires
                        (acc as nat) < 8 * pow32((k - 1) as nat),
                        pow32((k - 1) as nat) >= 1,
                {
                }
                assert(8 * pow32((k - 1) as nat) * 32 == 8 * pow32(k as nat));
                assert(pow32(k as nat) <= pow32(25));
            }
            lemma_pow32_positive((k - 1) as nat);
            assert(t@.take(k as int + 1).drop_last() =~= t@.take(k as int));
            assert(t@.take(k as int + 1).last() == t@[k as int]);
        }
        acc = acc * 32 + (d as u128);
        k = k + 1;
    }
    proof {
        assert(t@.take(26) =~= t@);
    }
    Some(acc)
}


/// A fresh document id. Relies on `ulid::Ulid::generate`: a new ULID from
/// the current time and fresh randomness. Nothing is assumed of its value:
/// callers state what holds of every outcome.
#[verifier::external_body]
pub fn fresh_id() -> u128 {
    ulid::Ulid::generate().0
}


/// `a` is lexicographically before `b`: they agree up to some position
/// where `a`'s byte is smaller.
pub open spec fn lex_lt(a: Seq<u8>, b: Seq<u8>) -> bool {
    exists|j: int|
        0 <= j < a.len() && j < b.len() && (forall|q: int| 0 <= q < j ==> a[q] == b[q]) && a[j]
            < b[j]
}

/// The alphabet is in byte order: a smaller digit renders as a smaller
/// character.
pub proof fn lemma_b32_char_order(d1: u8, d2: u8)
    requires
        d1 < d2 < 32,
    ensures
        b32_char(d1) < b32_char(d2),
{
}

/// A smaller value renders as a lexicographically smaller text of the
/// same length.
proof fn lemma_text_order_rec(v1: nat, v2: nat, k: nat)
    requires
        v1 < v2,
        v2 < pow32(k),
    ensures
        lex_lt(text_rec(v1, k), text_rec(v2, k)),
    decreases k,
{
    assert(k >= 1) by {
        if k == 0 {
            assert(pow32(0) == 1);
        }
    }
    lemma_text_rec_shape(v1, k);
    lemma_text_rec_shape(v2, k);
    let t1 = text_rec(v1, k);
    let t2 = text_rec(v2, k);
    let p1 = text_rec(v1 / 32, (k - 1) as nat);
    let p2 = text_rec(v2 / 32, (k - 1) as nat);
    lemma_text_rec_shape(v1 / 32, (k - 1) as nat);
    lemma_text_rec_shape(v2 / 32, (k - 1) as nat);
    if v1 / 32 == v2 / 32 {
        assert(v1 % 32 < v2 % 32) by {
            lemma_fundamental_div_mod(v1 as int, 32);
            lemma_fundamental_div_mod(v2 as int, 32);
        }
        lemma_b32_char_order((v1 % 32) as u8, (v2 % 32) as u8);
        assert(t1[k - 1] == b32_char((v1 % 32) as u8));
        assert(t2[k - 1] == b32_char((v2 % 32) as u8));
        assert(t1[k - 1] < t2[k - 1]);
        assert(forall|q: int| 0 <= q < k - 1 ==> #[trigger] t1[q] == p1[q]);
        assert(forall|q: int| 0 <= q < k - 1 ==> #[trigger] t2[q] == p2[q]);
        assert(lex_lt(t1, t2)) by {
            let j = k - 1;
            assert(0 <= j < t1.len() && j < t2.len() && (forall|q: int|
                0 <= q < j ==> t1[q] == t2[q]) && t1[j] < t2[j]);
        }
    } else {
        assert(v1 / 32 <= v2 / 32) by {
            vstd::arithmetic::div_mod::lemma_div_is_ordered(v1 as int, v2 as int, 32);
        }
        assert(v1 / 32 < v2 / 32);
        assert(v2 / 32 < pow32((k - 1) as nat)) by {
            lemma_fundamental_div_mod(v2 as int, 32);
            assert(pow32(k) == 32 * pow32((k - 1) as nat));
        }
        lemma_text_order_rec(v1 / 32, v2 / 32, (k - 1) as nat);
        let j = choose|j: int|
            0 <= j < p1.len() && j < p2.len() && (forall|q: int| 0 <= q < j ==> p1[q] == p2[q])
                && p1[j] < p2[j];
        assert(t1[j] == p1[j] && t2[j] == p2[j]);
        assert(forall|q: int| 0 <= q < j ==> #[trigger] t1[q] == p1[q]);
        assert(forall|q: int| 0 <= q < j ==> #[trigger] t2[q] == p2[q]);
        assert(lex_lt(t1, t2)) by {
            assert(0 <= j < t1.len() && j < t2.len() && (forall|q: int|
                0 <= q < j ==> t1[q] == t2[q]) && t1[j] < t2[j]);
        }
    }
}

/// The numeric order of ids is the byte order of their texts: whoever
/// finishes with a smaller id sorts first, to the resolution the ids
/// themselves carry.
pub proof fn lemma_id_text_order(v1: u128, v2: u128)
    requires
        v1 < v2,
    ensures
        lex_lt(id_text(v1), id_text(v2)),
{
    lemma_pow32_values();
    assert((v2 as nat) < pow32(26)) by {
        assert(u128::MAX < pow32(26));
    }
    lemma_text_order_rec(v1 as nat, v2 as nat, 26);
}

} // verus!
