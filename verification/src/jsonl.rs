//! The append-only logs' line format.
//!
//! Both logs are JSON Lines: one object per line, UTF-8, append-only. The
//! exact text of a line is fixed here, character for character — a metadata
//! line carries a stored review, a map line carries one
//! `(vector id, review id)` pair. String values are escaped as JSON asks:
//! quote and backslash by a backslash, control characters by a short or
//! `\u00..` escape; everything else stands for itself.

use vstd::prelude::*;
use crate::errors::StoreError;
use crate::review::{ReviewView, StoredReview};
use crate::text::{chars_to_string, str_chars};

verus! {

/// The decimal digit character for a value below ten.
pub open spec fn dec_digit(n: int) -> char
    recommends
        0 <= n < 10,
{
    if n == 0 {
        '0'
    } else if n == 1 {
        '1'
    } else if n == 2 {
        '2'
    } else if n == 3 {
        '3'
    } else if n == 4 {
        '4'
    } else if n == 5 {
        '5'
    } else if n == 6 {
        '6'
    } else if n == 7 {
        '7'
    } else if n == 8 {
        '8'
    } else {
        '9'
    }
}

/// The decimal rendering of a non-negative value, no leading zeros.
pub open spec fn dec_of(n: int) -> Seq<char>
    recommends
        n >= 0,
    decreases n,
{
    if n < 10 {
        seq![dec_digit(n)]
    } else {
        dec_of(n / 10).push(dec_digit(n % 10))
    }
}

/// The decimal rendering of any integer, a leading minus when negative.
pub open spec fn dec_of_int(n: int) -> Seq<char> {
    if n < 0 {
        seq!['-'] + dec_of(-n)
    } else {
        dec_of(n)
    }
}

/// The lower-case hex digit character for a value below sixteen.
pub open spec fn hex_digit(n: int) -> char
    recommends
        0 <= n < 16,
{
    if n < 10 {
        dec_digit(n)
    } else if n == 10 {
        'a'
    } else if n == 11 {
        'b'
    } else if n == 12 {
        'c'
    } else if n == 13 {
        'd'
    } else if n == 14 {
        'e'
    } else {
        'f'
    }
}

/// How one character appears inside a JSON string value.
pub open spec fn esc_char(c: char) -> Seq<char> {
    if c == '"' {
        seq!['\\', '"']
    } else if c == '\\' {
        seq!['\\', '\\']
    } else if c == '\n' {
        seq!['\\', 'n']
    } else if c == '\r' {
        seq!['\\', 'r']
    } else if c == '\t' {
        seq!['\\', 't']
    } else if c == '\u{8}' {
        seq!['\\', 'b']
    } else if c == '\u{c}' {
        seq!['\\', 'f']
    } else if (c as u32) < 0x20 {
        seq!['\\', 'u', '0', '0', hex_digit((c as u32) as int / 16), hex_digit((c as u32) as int % 16)]
    } else {
        seq![c]
    }
}

/// A whole string value, escaped.
pub open spec fn esc_str(s: Seq<char>) -> Seq<char>
    decreases s.len(),
{
    if s.len() == 0 {
        Seq::empty()
    } else {
        esc_str(s.drop_last()) + esc_char(s.last())
    }
}

/// A quoted, escaped JSON string.
pub open spec fn quoted(s: Seq<char>) -> Seq<char> {
    seq!['"'] + esc_str(s) + seq!['"']
}

/// An optional category value: `null` when absent.
pub open spec fn category_json(c: Option<Seq<char>>) -> Seq<char> {
    match c {
        None => "null"@,
        Some(s) => quoted(s),
    }
}

/// The exact text of one metadata-log line (without the newline).
pub open spec fn review_line(r: ReviewView) -> Seq<char> {
    "{\"id\":"@ + quoted(r.id) + ",\"review\":"@ + quoted(r.review) + ",\"rating\":"@ + dec_of_int(
        r.rating as int,
    ) + ",\"category\":"@ + category_json(r.category) + ",\"schema_version\":"@ + quoted(
        r.schema_version,
    ) + ",\"vector_id\":"@ + dec_of(r.vector_id as int) + seq!['}']
}

/// The exact text of one vector-map-log line (without the newline).
pub open spec fn map_line(vid: int, review_id: Seq<char>) -> Seq<char> {
    "{\"vector_id\":"@ + dec_of(vid) + ",\"review_id\":"@ + quoted(review_id) + seq!['}']
}

fn digit_char(d: usize) -> (c: char)
    requires
        d < 10,
    ensures
        c == dec_digit(d as int),
{
    if d == 0 {
        '0'
    } else if d == 1 {
        '1'
    } else if d == 2 {
        '2'
    } else if d == 3 {
        '3'
    } else if d == 4 {
        '4'
    } else if d == 5 {
        '5'
    } else if d == 6 {
        '6'
    } else if d == 7 {
        '7'
    } else if d == 8 {
        '8'
    } else {
        '9'
    }
}

fn hex_char(d: u32) -> (c: char)
    requires
        d < 16,
    ensures
        c == hex_digit(d as int),
{
    if d < 10 {
        digit_char(d as usize)
    } else if d == 10 {
        'a'
    } else if d == 11 {
        'b'
    } else if d == 12 {
        'c'
    } else if d == 13 {
        'd'
    } else if d == 14 {
        'e'
    } else {
        'f'
    }
}

/// Whether a character is a decimal digit.
pub open spec fn is_digit(c: char) -> bool {
    exists|d: int| 0 <= d < 10 && dec_digit(d) == c
}

/// The value of a digit character, `-1` for any other character.
pub open spec fn digit_val(c: char) -> int {
    if c == '0' {
        0
    } else if c == '1' {
        1
    } else if c == '2' {
        2
    } else if c == '3' {
        3
    } else if c == '4' {
        4
    } else if c == '5' {
        5
    } else if c == '6' {
        6
    } else if c == '7' {
        7
    } else if c == '8' {
        8
    } else if c == '9' {
        9
    } else {
        -1
    }
}

/// Whether every character is a decimal digit.
pub open spec fn all_digits(s: Seq<char>) -> bool {
    forall|i: int| 0 <= i < s.len() ==> is_digit(#[trigger] s[i])
}

/// The number a digit string denotes.
pub open spec fn digits_value(s: Seq<char>) -> int
    decreases s.len(),
{
    if s.len() == 0 {
        0
    } else {
        10 * digits_value(s.drop_last()) + digit_val(s.last())
    }
}

proof fn lemma_digit_basics(d: int)
    requires
        0 <= d < 10,
    ensures
        digit_val(dec_digit(d)) == d,
        is_digit(dec_digit(d)),
{
}

/// A rendered number is all digits, at least one, and denotes its value.
proof fn lemma_dec_of_digits(v: int)
    requires
        v >= 0,
    ensures
        dec_of(v).len() >= 1,
        all_digits(dec_of(v)),
        digits_value(dec_of(v)) == v,
    decreases v,
{
    if v < 10 {
        reveal_with_fuel(digits_value, 2);
        lemma_digit_basics(v);
        assert(dec_of(v).drop_last() =~= Seq::<char>::empty());
        assert(digits_value(dec_of(v)) == v);
        assert forall|i: int| 0 <= i < dec_of(v).len() implies is_digit(#[trigger] dec_of(v)[i])
            by {
            assert(dec_of(v)[i] == dec_digit(v));
        }
    } else {
        lemma_dec_of_digits(v / 10);
        lemma_digit_basics(v % 10);
        assert(dec_of(v).drop_last() =~= dec_of(v / 10));
        assert(dec_of(v).last() == dec_digit(v % 10));
        assert(digits_value(dec_of(v)) == 10 * (v / 10) + v % 10);
        assert forall|i: int| 0 <= i < dec_of(v).len() implies is_digit(#[trigger] dec_of(v)[i])
            by {
            if i < dec_of(v).len() - 1 {
                assert(dec_of(v)[i] == dec_of(v / 10)[i]);
                assert(is_digit(dec_of(v / 10)[i]));
            } else {
                assert(dec_of(v)[i] == dec_digit(v % 10));
            }
        }
    }
}

/// A rendered number begins with `0` only when it is zero.
proof fn lemma_dec_first_zero(v: int)
    requires
        v >= 0,
        dec_of(v)[0] == '0',
    ensures
        v == 0,
    decreases v,
{
    if v < 10 {
        assert(dec_of(v)[0] == dec_digit(v));
    } else {
        lemma_dec_of_digits(v / 10);
        assert(dec_of(v)[0] == dec_of(v / 10)[0]);
        lemma_dec_first_zero(v / 10);
    }
}

proof fn lemma_digits_value_nonneg(s: Seq<char>)
    requires
        all_digits(s),
    ensures
        digits_value(s) >= 0,
    decreases s.len(),
{
    if s.len() > 0 {
        assert(all_digits(s.drop_last())) by {
            assert(forall|i: int|
                0 <= i < s.drop_last().len() ==> #[trigger] s.drop_last()[i] == s[i]);
        }
        lemma_digits_value_nonneg(s.drop_last());
        assert(is_digit(s.last()));
        assert(digit_val(s.last()) >= 0) by {
            let d = choose|d: int| 0 <= d < 10 && dec_digit(d) == s.last();
            lemma_digit_basics(d);
        }
    }
}

/// A digit string's prefix denotes no more than the whole.
proof fn lemma_digits_value_prefix(s: Seq<char>, t: int)
    requires
        all_digits(s),
        0 <= t <= s.len(),
    ensures
        digits_value(s.take(t)) <= digits_value(s),
    decreases s.len() - t,
{
    if t < s.len() {
        assert(all_digits(s.drop_last())) by {
            assert(forall|i: int|
                0 <= i < s.drop_last().len() ==> #[trigger] s.drop_last()[i] == s[i]);
        }
        assert(s.drop_last().take(t) =~= s.take(t));
        lemma_digits_value_prefix(s.drop_last(), t);
        lemma_digits_value_nonneg(s.drop_last());
        assert(is_digit(s.last()));
        assert(digit_val(s.last()) >= 0) by {
            let d = choose|d: int| 0 <= d < 10 && dec_digit(d) == s.last();
            lemma_digit_basics(d);
        }
        assert(digits_value(s) >= digits_value(s.drop_last()));
    } else {
        assert(s.take(t) =~= s);
    }
}

/// A decimal rendering of `n` stands at `s[pos..p)` and ends there: the
/// next character, if any, is not a digit.
pub open spec fn dec_at(s: Seq<char>, pos: int, n: int, p: int) -> bool {
    &&& 0 <= pos < p <= s.len()
    &&& n >= 0
    &&& s.subrange(pos, p) == dec_of(n)
    &&& (p == s.len() || !is_digit(s[p]))
}

/// A decimal rendering of the integer `n` — sign included — stands at
/// `s[pos..p)` and ends there.
pub open spec fn int_at(s: Seq<char>, pos: int, n: int, p: int) -> bool {
    &&& 0 <= pos < p <= s.len()
    &&& s.subrange(pos, p) == dec_of_int(n)
    &&& (p == s.len() || !is_digit(s[p]))
}

fn push_decimal(out: &mut Vec<char>, n: usize)
    ensures
        final(out)@ == old(out)@ + dec_of(n as int),
    decreases n,
{
    if n < 10 {
        out.push(digit_char(n));
        proof {
            assert(final(out)@ =~= old(out)@ + dec_of(n as int));
        }
    } else {
        push_decimal(out, n / 10);
        out.push(digit_char(n % 10));
        proof {
            assert(final(out)@ =~= old(out)@ + dec_of(n as int));
        }
    }
}

fn push_literal(out: &mut Vec<char>, s: &str)
    ensures
        final(out)@ == old(out)@ + s@,
{
    let cs = str_chars(s);
    out.extend_from_slice(cs.as_slice());
}

fn push_escaped(out: &mut Vec<char>, s: &str)
    ensures
        final(out)@ == old(out)@ + esc_str(s@),
{
    let cs = str_chars(s);
    let mut i: usize = 0;
    proof {
        assert(s@.take(0) =~= Seq::<char>::empty());
        assert(out@ =~= old(out)@ + esc_str(s@.take(0)));
    }
    while i < cs.len()
        invariant
            i <= cs@.len(),
            cs@ == s@,
            out@ == old(out)@ + esc_str(s@.take(i as int)),
        decreases cs@.len() - i,
    {
        let c = cs[i];
        if c == '"' {
            out.push('\\');
            out.push('"');
        } else if c == '\\' {
            out.push('\\');
            out.push('\\');
        } else if c == '\n' {
            out.push('\\');
            out.push('n');
        } else if c == '\r' {
            out.push('\\');
            out.push('r');
        } else if c == '\t' {
            out.push('\\');
            out.push('t');
        } else if c == '\u{8}' {
            out.push('\\');
            out.push('b');
        } else if c == '\u{c}' {
            out.push('\\');
            out.push('f');
        } else if (c as u32) < 0x20 {
            let v = c as u32;
            out.push('\\');
            out.push('u');
            out.push('0');
            out.push('0');
            out.push(hex_char(v / 16));
            out.push(hex_char(v % 16));
        } else {
            out.push(c);
        }
        proof {
            assert(s@.take(i + 1).drop_last() =~= s@.take(i as int));
            assert(s@.take(i + 1).last() == s@[i as int]);
            assert(esc_str(s@.take(i + 1)) == esc_str(s@.take(i as int)) + esc_char(s@[i as int]));
            assert(out@ =~= old(out)@ + esc_str(s@.take(i + 1)));
        }
        i = i + 1;
    }
    proof {
        assert(s@.take(s@.len() as int) =~= s@);
    }
}

fn push_quoted(out: &mut Vec<char>, s: &str)
    ensures
        final(out)@ == old(out)@ + quoted(s@),
{
    out.push('"');
    push_escaped(out, s);
    out.push('"');
    proof {
        assert(final(out)@ =~= old(out)@ + quoted(s@));
    }
}

/// Renders one metadata-log line for a stored review, newline excluded.
pub fn render_review_line(r: &StoredReview) -> (line: String)
    ensures
        line@ == review_line(r@),
{
    let mut out: Vec<char> = Vec::new();
    push_literal(&mut out, "{\"id\":");
    push_quoted(&mut out, as_str(&r.id));
    push_literal(&mut out, ",\"review\":");
    push_quoted(&mut out, as_str(&r.review));
    push_literal(&mut out, ",\"rating\":");
    if r.rating < 0 {
        out.push('-');
        let m = -(r.rating as i64);
        push_decimal(&mut out, m as usize);
        proof {
            assert(seq!['-'] + dec_of(m as int) =~= dec_of_int(r.rating as int));
        }
    } else {
        push_decimal(&mut out, r.rating as usize);
    }
    push_literal(&mut out, ",\"category\":");
    match &r.category {
        Some(c) => push_quoted(&mut out, as_str(c)),
        None => push_literal(&mut out, "null"),
    }
    push_literal(&mut out, ",\"schema_version\":");
    push_quoted(&mut out, as_str(&r.schema_version));
    push_literal(&mut out, ",\"vector_id\":");
    push_decimal(&mut out, r.vector_id);
    out.push('}');
    proof {
        assert(out@ =~= review_line(r@));
    }
    chars_to_string(&out)
}

/// Renders one vector-map-log line, newline excluded.
pub fn render_map_line(vector_id: usize, review_id: &str) -> (line: String)
    ensures
        line@ == map_line(vector_id as int, review_id@),
{
    let mut out: Vec<char> = Vec::new();
    push_literal(&mut out, "{\"vector_id\":");
    push_decimal(&mut out, vector_id);
    push_literal(&mut out, ",\"review_id\":");
    push_quoted(&mut out, review_id);
    out.push('}');
    proof {
        assert(out@ =~= map_line(vector_id as int, review_id@));
    }
    chars_to_string(&out)
}

fn as_str(s: &String) -> (r: &str)
    ensures
        r@ == s@,
{
    s.as_str()
}

fn expect_lit(cs: &Vec<char>, pos: usize, lit: &str) -> (r: Option<usize>)
    requires
        pos <= cs@.len(),
    ensures
        r matches Some(p) ==> pos <= p <= cs@.len() && p == pos + lit@.len() && cs@.subrange(
            pos as int,
            p as int,
        ) == lit@,
        (pos + lit@.len() <= cs@.len() && cs@.subrange(pos as int, pos + lit@.len()) == lit@)
            ==> r is Some,
{
    let lv = str_chars(lit);
    if cs.len() - pos < lv.len() {
        return None;
    }
    let mut j: usize = 0;
    while j < lv.len()
        invariant
            j <= lv@.len(),
            lv@ == lit@,
            pos + lv@.len() <= cs@.len(),
            cs@.len() <= usize::MAX,
            forall|m: int| 0 <= m < j ==> cs@[pos + m] == lv@[m],
        decreases lv@.len() - j,
    {
        if cs[pos + j] != lv[j] {
            proof {
                if pos + lit@.len() <= cs@.len() && cs@.subrange(pos as int, pos + lit@.len())
                    == lit@ {
                    assert(cs@.subrange(pos as int, pos + lit@.len())[j as int] == cs@[pos + j]);
                }
            }
            return None;
        }
        j = j + 1;
    }
    proof {
        assert(cs@.subrange(pos as int, (pos + lv@.len()) as int) =~= lit@);
    }
    Some(pos + lv.len())
}

fn hex_value(c: char) -> (r: Option<u32>)
    ensures
        r matches Some(h) ==> h < 16 && hex_digit(h as int) == c,
        r is None ==> (forall|d: int| 0 <= d < 16 ==> hex_digit(d) != c),
{
    match c {
        '0' => Some(0),
        '1' => Some(1),
        '2' => Some(2),
        '3' => Some(3),
        '4' => Some(4),
        '5' => Some(5),
        '6' => Some(6),
        '7' => Some(7),
        '8' => Some(8),
        '9' => Some(9),
        'a' => Some(10),
        'b' => Some(11),
        'c' => Some(12),
        'd' => Some(13),
        'e' => Some(14),
        'f' => Some(15),
        _ => {
            proof {
                assert forall|d: int| 0 <= d < 16 implies hex_digit(d) != c by {
                    if d < 10 {
                        assert(hex_digit(d) == dec_digit(d));
                    }
                }
            }
            None
        },
    }
}

/// A quoted string value stands at `s[pos..p)`.
pub open spec fn quoted_at(s: Seq<char>, pos: int, v: Seq<char>, p: int) -> bool {
    &&& 0 <= pos < p <= s.len()
    &&& s.subrange(pos, p) == quoted(v)
}

/// Escaping read from the front: the first character's escape, then the
/// rest.
proof fn lemma_esc_str_unfold(s: Seq<char>)
    requires
        s.len() > 0,
    ensures
        esc_str(s) == esc_char(s[0]) + esc_str(s.drop_first()),
    decreases s.len(),
{
    if s.len() == 1 {
        reveal_with_fuel(esc_str, 2);
        assert(s.drop_last() =~= Seq::<char>::empty());
        assert(s.drop_first() =~= Seq::<char>::empty());
        assert(s.last() == s[0]);
        assert(esc_str(s) =~= esc_char(s[0]) + esc_str(s.drop_first()));
    } else {
        lemma_esc_str_unfold(s.drop_last());
        assert(s.drop_last()[0] == s[0]);
        assert(s.drop_last().drop_first() =~= s.drop_first().drop_last());
        assert(s.drop_first().last() == s.last());
        assert(esc_str(s) =~= esc_char(s[0]) + esc_str(s.drop_first()));
    }
}

/// The shapes one character's escape can take.
proof fn lemma_esc_char_cases(c: char)
    ensures
        esc_char(c).len() == 1 || esc_char(c).len() == 2 || esc_char(c).len() == 6,
        esc_char(c)[0] != '"',
        esc_char(c).len() == 1 ==> esc_char(c)[0] == c && c != '"' && c != '\\' && (c as u32)
            >= 0x20,
        esc_char(c).len() >= 2 ==> esc_char(c)[0] == '\\',
        esc_char(c).len() == 2 ==> {
            ||| (esc_char(c)[1] == '"' && c == '"')
            ||| (esc_char(c)[1] == '\\' && c == '\\')
            ||| (esc_char(c)[1] == 'n' && c == '\n')
            ||| (esc_char(c)[1] == 'r' && c == '\r')
            ||| (esc_char(c)[1] == 't' && c == '\t')
            ||| (esc_char(c)[1] == 'b' && c == '\u{8}')
            ||| (esc_char(c)[1] == 'f' && c == '\u{c}')
        },
        esc_char(c).len() == 6 ==> esc_char(c)[1] == 'u' && esc_char(c)[2] == '0' && esc_char(
            c,
        )[3] == '0' && (c as u32) < 0x20 && c != '\n' && c != '\r' && c != '\t' && c != '\u{8}'
            && c != '\u{c}' && esc_char(c)[4] == hex_digit((c as u32) as int / 16) && esc_char(
            c,
        )[5] == hex_digit((c as u32) as int % 16),
{
}

/// A quoted region's anatomy: the quotes at both ends and the escaped body
/// between them.
proof fn lemma_quoted_parts(s: Seq<char>, pos: int, v: Seq<char>, p: int)
    requires
        quoted_at(s, pos, v, p),
    ensures
        s[pos] == '"',
        s[p - 1] == '"',
        p - pos == esc_str(v).len() + 2,
        s.subrange(pos + 1, p - 1) == esc_str(v),
{
    assert(s.subrange(pos, p) == quoted(v));
    assert(s[pos] == s.subrange(pos, p)[0]);
    assert(s[p - 1] == s.subrange(pos, p)[p - pos - 1]);
    assert forall|k: int| 0 <= k < esc_str(v).len() implies #[trigger] s.subrange(
        pos + 1,
        p - 1,
    )[k] == esc_str(v)[k] by {
        assert(s.subrange(pos, p)[k + 1] == quoted(v)[k + 1]);
    }
    assert(s.subrange(pos + 1, p - 1) =~= esc_str(v));
}

/// A region equal to a concatenation splits at the boundary.
proof fn lemma_chunk_step(s: Seq<char>, i: int, pend: int, ch: Seq<char>, rest: Seq<char>)
    requires
        0 <= i <= pend <= s.len(),
        s.subrange(i, pend) == ch + rest,
    ensures
        forall|k: int| 0 <= k < ch.len() ==> s[i + k] == #[trigger] ch[k],
        s.subrange(i + ch.len(), pend) == rest,
{
    assert(s.subrange(i, pend).len() == (ch + rest).len());
    assert(s.subrange(i, pend).len() == pend - i);
    assert((ch + rest).len() == ch.len() + rest.len());
    assert(pend - i == ch.len() + rest.len());
    assert forall|k: int| 0 <= k < ch.len() implies s[i + k] == #[trigger] ch[k] by {
        assert(s.subrange(i, pend)[k] == (ch + rest)[k]);
        assert(s.subrange(i, pend)[k] == s[i + k]);
    }
    assert forall|k: int| 0 <= k < rest.len() implies #[trigger] s.subrange(
        i + ch.len() as int,
        pend,
    )[k] == rest[k] by {
        assert(s.subrange(i, pend)[ch.len() + k] == (ch + rest)[ch.len() + k]);
        assert(s.subrange(i, pend)[ch.len() + k] == s[i + ch.len() + k]);
        assert((ch + rest)[ch.len() + k] == rest[k]);
        assert(s.subrange(i + ch.len() as int, pend)[k] == s[i + ch.len() + k]);
    }
    assert(s.subrange(i + ch.len() as int, pend) =~= rest);
}

proof fn lemma_hex_digit_inj(a: int, b: int)
    requires
        0 <= a < 16,
        0 <= b < 16,
        hex_digit(a) == hex_digit(b),
    ensures
        a == b,
{
}

/// Chars with equal scalar values are equal.
proof fn lemma_char_eq(a: char, b: char)
    requires
        (a as u32) == (b as u32),
    ensures
        a == b,
{
}

/// At a position inside the escaped body: either the value is exhausted
/// and the closing quote stands here, or the next characters are exactly
/// the next value character's escape.
proof fn lemma_chunk_at(s: Seq<char>, pos: int, vv: Seq<char>, p: int, t: int, i: int)
    requires
        quoted_at(s, pos, vv, p),
        0 <= t <= vv.len(),
        0 <= i <= p - 1,
        s.subrange(i, p - 1) == esc_str(vv.skip(t)),
    ensures
        t == vv.len() ==> i == p - 1 && s[i] == '"',
        t < vv.len() ==> {
            &&& forall|k: int|
                0 <= k < esc_char(vv[t]).len() ==> s[i + k] == #[trigger] esc_char(vv[t])[k]
            &&& s.subrange(i + esc_char(vv[t]).len(), p - 1) == esc_str(vv.skip(t + 1))
            &&& i + esc_char(vv[t]).len() <= p - 1
        },
{
    lemma_quoted_parts(s, pos, vv, p);
    if t >= vv.len() {
        assert(vv.skip(t).len() == 0);
        assert(s.subrange(i, p - 1).len() == 0);
        assert(i == p - 1);
        assert(s[i] == s[p - 1]);
    } else {
        lemma_esc_str_unfold(vv.skip(t));
        assert(vv.skip(t)[0] == vv[t]);
        assert(vv.skip(t).drop_first() =~= vv.skip(t + 1));
        assert(s.subrange(i, p - 1) == esc_char(vv[t]) + esc_str(vv.skip(t + 1)));
        lemma_chunk_step(s, i, p - 1, esc_char(vv[t]), esc_str(vv.skip(t + 1)));
    }
}

fn parse_quoted(cs: &Vec<char>, pos: usize) -> (r: Option<(String, usize)>)
    requires
        pos <= cs@.len(),
    ensures
        r matches Some(x) ==> pos < x.1 <= cs@.len() && cs@.subrange(pos as int, x.1 as int)
            == quoted(x.0@),
        forall|v: Seq<char>, p: int|
            #[trigger] quoted_at(cs@, pos as int, v, p) ==> (r matches Some(x) && x.0@ == v
                && x.1 == p),
{
    if pos >= cs.len() || cs[pos] != '"' {
        proof {
            assert forall|v: Seq<char>, p: int|
                #[trigger] quoted_at(cs@, pos as int, v, p) implies false by {
                lemma_quoted_parts(cs@, pos as int, v, p);
            }
        }
        return None;
    }
    let mut value: Vec<char> = Vec::new();
    let mut i: usize = pos + 1;
    proof {
        assert(cs@.subrange(pos + 1, pos + 1) =~= esc_str(value@));
        assert forall|v: Seq<char>, p: int|
            #[trigger] quoted_at(cs@, pos as int, v, p) implies (value@.len() <= v.len()
            && value@ == v.take(value@.len() as int) && pos + 1 <= p - 1 && cs@.subrange(
            pos + 1,
            p - 1,
        ) == esc_str(v.skip(value@.len() as int))) by {
            lemma_quoted_parts(cs@, pos as int, v, p);
            assert(value@ =~= v.take(0));
            assert(v.skip(0) =~= v);
        }
    }
    loop
        invariant
            pos + 1 <= i <= cs@.len(),
            cs@[pos as int] == '"',
            cs@.subrange(pos + 1, i as int) == esc_str(value@),
            forall|v: Seq<char>, p: int|
                #[trigger] quoted_at(cs@, pos as int, v, p) ==> (value@.len() <= v.len()
                    && value@ == v.take(value@.len() as int) && i <= p - 1 && cs@.subrange(
                    i as int,
                    p - 1,
                ) == esc_str(v.skip(value@.len() as int))),
        decreases cs@.len() - i,
    {
        if i >= cs.len() {
            proof {
                assert forall|v: Seq<char>, p: int|
                    #[trigger] quoted_at(cs@, pos as int, v, p) implies false by {
                    lemma_quoted_parts(cs@, pos as int, v, p);
                }
            }
            return None;
        }
        let c = cs[i];
        let ghost pre_val = value@;
        if c == '"' {
            proof {
                assert(cs@.subrange(pos as int, i + 1) =~= seq!['"'] + esc_str(value@) + seq![
                    '"',
                ]);
                assert(cs@.subrange(pos as int, i + 1) == quoted(value@));
                assert forall|v: Seq<char>, p: int|
                    #[trigger] quoted_at(cs@, pos as int, v, p) implies (pre_val == v && p == i
                    + 1) by {
                    lemma_quoted_parts(cs@, pos as int, v, p);
                    let t = pre_val.len() as int;
                    if t < v.len() {
                        lemma_chunk_at(cs@, pos as int, v, p, t, i as int);
                        assert(t < v.len());
                        lemma_esc_char_cases(v[t]);
                        assert(cs@[i as int] == esc_char(v[t])[0]);
                        assert(false);
                    }
                    assert(v.skip(t).len() == 0);
                    assert(cs@.subrange(i as int, p - 1).len() == 0);
                    assert(p == i + 1);
                    assert(v.take(t) =~= v);
                }
            }
            let sv = chars_to_string(&value);
            return Some((sv, i + 1));
        } else if c == '\\' {
            if cs.len() - i < 2 {
                proof {
                    assert forall|v: Seq<char>, p: int|
                        #[trigger] quoted_at(cs@, pos as int, v, p) implies false by {
                        let t = pre_val.len() as int;
                        lemma_chunk_at(cs@, pos as int, v, p, t, i as int);
                        assert(t < v.len());
                        lemma_esc_char_cases(v[t]);
                        assert(cs@[i as int] == esc_char(v[t])[0]);
                        assert(esc_char(v[t]).len() >= 2);
                    }
                }
                return None;
            }
            let e = cs[i + 1];
            let d: char;
            let consumed: usize;
            if e == '"' {
                d = '"';
                consumed = 2;
            } else if e == '\\' {
                d = '\\';
                consumed = 2;
            } else if e == 'n' {
                d = '\n';
                consumed = 2;
            } else if e == 'r' {
                d = '\r';
                consumed = 2;
            } else if e == 't' {
                d = '\t';
                consumed = 2;
            } else if e == 'b' {
                d = '\u{8}';
                consumed = 2;
            } else if e == 'f' {
                d = '\u{c}';
                consumed = 2;
            } else if e == 'u' {
                if cs.len() - i < 6 {
                    proof {
                        assert forall|v: Seq<char>, p: int|
                            #[trigger] quoted_at(cs@, pos as int, v, p) implies false by {
                            let t = pre_val.len() as int;
                            lemma_chunk_at(cs@, pos as int, v, p, t, i as int);
                            lemma_esc_char_cases(v[t]);
                            assert(cs@[i as int] == esc_char(v[t])[0]);
                            assert(cs@[i + 1] == esc_char(v[t])[1]);
                            assert(esc_char(v[t]).len() == 6);
                            assert(i + 6 <= p - 1);
                        }
                    }
                    return None;
                }
                if cs[i + 2] != '0' || cs[i + 3] != '0' {
                    proof {
                        assert forall|v: Seq<char>, p: int|
                            #[trigger] quoted_at(cs@, pos as int, v, p) implies false by {
                            let t = pre_val.len() as int;
                            lemma_chunk_at(cs@, pos as int, v, p, t, i as int);
                            lemma_esc_char_cases(v[t]);
                            assert(cs@[i as int] == esc_char(v[t])[0]);
                            assert(cs@[i + 1] == esc_char(v[t])[1]);
                            assert(esc_char(v[t]).len() == 6);
                            assert(cs@[i + 2] == esc_char(v[t])[2]);
                            assert(cs@[i + 3] == esc_char(v[t])[3]);
                        }
                    }
                    return None;
                }
                proof {
                    assert forall|v: Seq<char>, p: int|
                        #[trigger] quoted_at(cs@, pos as int, v, p) implies (pre_val.len()
                        < v.len() && esc_char(v[pre_val.len() as int]).len() == 6 && cs@[i + 4]
                        == hex_digit(((v[pre_val.len() as int] as u32) as int) / 16) && cs@[i
                        + 5] == hex_digit(((v[pre_val.len() as int] as u32) as int) % 16) && ((
                        v[pre_val.len() as int] as u32) as int) < 0x20 && v[
                        pre_val.len() as int] != '\n' && v[pre_val.len() as int] != '\r' && v[
                        pre_val.len() as int] != '\t' && v[pre_val.len() as int] != '\u{8}'
                        && v[pre_val.len() as int] != '\u{c}') by {
                        let t = pre_val.len() as int;
                        lemma_chunk_at(cs@, pos as int, v, p, t, i as int);
                        assert(t < v.len());
                        lemma_esc_char_cases(v[t]);
                        assert(cs@[i as int] == esc_char(v[t])[0]);
                        assert(cs@[i + 1] == esc_char(v[t])[1]);
                        assert(esc_char(v[t]).len() == 6);
                        assert(cs@[i + 4] == esc_char(v[t])[4]);
                        assert(cs@[i + 5] == esc_char(v[t])[5]);
                    }
                }
                let h1 = match hex_value(cs[i + 4]) {
                    Some(h) => h,
                    None => {
                        proof {
                            assert forall|v: Seq<char>, p: int|
                                #[trigger] quoted_at(cs@, pos as int, v, p) implies false by {
                                let cv = (v[pre_val.len() as int] as u32) as int;
                                assert(hex_digit(cv / 16) != cs@[i + 4]);
                            }
                        }
                        return None;
                    },
                };
                let h2 = match hex_value(cs[i + 5]) {
                    Some(h) => h,
                    None => {
                        proof {
                            assert forall|v: Seq<char>, p: int|
                                #[trigger] quoted_at(cs@, pos as int, v, p) implies false by {
                                let cv = (v[pre_val.len() as int] as u32) as int;
                                assert(hex_digit(cv % 16) != cs@[i + 5]);
                            }
                        }
                        return None;
                    },
                };
                let uv = h1 * 16 + h2;
                proof {
                    assert forall|v: Seq<char>, p: int|
                        #[trigger] quoted_at(cs@, pos as int, v, p) implies ((v[
                        pre_val.len() as int] as u32) == uv) by {
                        let t = pre_val.len() as int;
                        let cv = (v[t] as u32) as int;
                        lemma_hex_digit_inj(h1 as int, cv / 16);
                        lemma_hex_digit_inj(h2 as int, cv % 16);
                        assert(cv == 16 * (cv / 16) + cv % 16);
                    }
                }
                if uv >= 0x20 || uv == 0x0a || uv == 0x0d || uv == 0x09 || uv == 0x08 || uv
                    == 0x0c {
                    proof {
                        assert forall|v: Seq<char>, p: int|
                            #[trigger] quoted_at(cs@, pos as int, v, p) implies false by {
                            let t = pre_val.len() as int;
                            assert((v[t] as u32) == uv);
                            assert(((v[t] as u32) as int) < 0x20);
                            if uv == 0x0a {
                                lemma_char_eq(v[t], '\n');
                            }
                            if uv == 0x0d {
                                lemma_char_eq(v[t], '\r');
                            }
                            if uv == 0x09 {
                                lemma_char_eq(v[t], '\t');
                            }
                            if uv == 0x08 {
                                lemma_char_eq(v[t], '\u{8}');
                            }
                            if uv == 0x0c {
                                lemma_char_eq(v[t], '\u{c}');
                            }
                        }
                    }
                    return None;
                }
                d = (uv as u8) as char;
                consumed = 6;
                proof {
                    assert((d as u32) == uv);
                    assert(d != '"' && d != '\\' && d != '\n' && d != '\r' && d != '\t' && d
                        != '\u{8}' && d != '\u{c}');
                    assert((d as u32) as int / 16 == h1 && (d as u32) as int % 16 == h2)
                        by (nonlinear_arith)
                        requires
                            (d as u32) == uv,
                            uv == h1 * 16 + h2,
                            h1 < 16,
                            h2 < 16,
                    ;
                    assert(esc_char(d) =~= cs@.subrange(i as int, i + 6));
                    assert forall|v: Seq<char>, p: int|
                        #[trigger] quoted_at(cs@, pos as int, v, p) implies v[
                        pre_val.len() as int] == d by {
                        let t = pre_val.len() as int;
                        lemma_char_eq(v[t], d);
                    }
                }
            } else {
                proof {
                    assert forall|v: Seq<char>, p: int|
                        #[trigger] quoted_at(cs@, pos as int, v, p) implies false by {
                        let t = pre_val.len() as int;
                        lemma_chunk_at(cs@, pos as int, v, p, t, i as int);
                        assert(t < v.len());
                        lemma_esc_char_cases(v[t]);
                        assert(cs@[i as int] == esc_char(v[t])[0]);
                        assert(esc_char(v[t]).len() >= 2);
                        assert(cs@[i + 1] == esc_char(v[t])[1]);
                    }
                }
                return None;
            }
            proof {
                if consumed == 2 {
                    assert(esc_char(d) =~= cs@.subrange(i as int, i + 2));
                }
            }
            value.push(d);
            proof {
                assert(value@.drop_last() =~= pre_val);
                assert(esc_str(value@) == esc_str(pre_val) + esc_char(d));
                assert(cs@.subrange(pos + 1, i + consumed) =~= esc_str(pre_val) + esc_char(d));
                assert forall|v: Seq<char>, p: int|
                    #[trigger] quoted_at(cs@, pos as int, v, p) implies (value@.len() <= v.len()
                    && value@ == v.take(value@.len() as int) && i + consumed <= p - 1
                    && cs@.subrange(i + consumed, p - 1) == esc_str(
                    v.skip(value@.len() as int),
                )) by {
                    let t = pre_val.len() as int;
                    lemma_chunk_at(cs@, pos as int, v, p, t, i as int);
                    assert(t < v.len());
                    lemma_esc_char_cases(v[t]);
                    assert(cs@[i as int] == esc_char(v[t])[0]);
                    if esc_char(v[t]).len() >= 2 {
                        assert(cs@[i + 1] == esc_char(v[t])[1]);
                    }
                    if consumed == 2 {
                        assert(esc_char(v[t]).len() == 2);
                        assert(v[t] == d);
                    } else {
                        assert(v[t] == d);
                        assert(esc_char(v[t]).len() == 6);
                    }
                    assert(v.take(t + 1) =~= v.take(t).push(v[t]));
                    assert(value@ =~= v.take(t + 1));
                    assert(cs@.subrange(i + esc_char(v[t]).len(), p - 1) == esc_str(
                        v.skip(t + 1),
                    ));
                }
            }
            i = i + consumed;
        } else {
            if (c as u32) < 0x20 {
                proof {
                    assert forall|v: Seq<char>, p: int|
                        #[trigger] quoted_at(cs@, pos as int, v, p) implies false by {
                        let t = pre_val.len() as int;
                        lemma_chunk_at(cs@, pos as int, v, p, t, i as int);
                        assert(t < v.len());
                        lemma_esc_char_cases(v[t]);
                        assert(cs@[i as int] == esc_char(v[t])[0]);
                        assert(esc_char(v[t]).len() == 1);
                        assert(v[t] == c);
                    }
                }
                return None;
            }
            value.push(c);
            proof {
                assert(esc_char(c) =~= seq![c]);
                assert(value@.drop_last() =~= pre_val);
                assert(esc_str(value@) == esc_str(pre_val) + esc_char(c));
                assert(cs@.subrange(pos + 1, i + 1) =~= esc_str(pre_val) + esc_char(c));
                assert forall|v: Seq<char>, p: int|
                    #[trigger] quoted_at(cs@, pos as int, v, p) implies (value@.len() <= v.len()
                    && value@ == v.take(value@.len() as int) && i + 1 <= p - 1 && cs@.subrange(
                    i + 1,
                    p - 1,
                ) == esc_str(v.skip(value@.len() as int))) by {
                    let t = pre_val.len() as int;
                    lemma_chunk_at(cs@, pos as int, v, p, t, i as int);
                    assert(t < v.len());
                    lemma_esc_char_cases(v[t]);
                    assert(cs@[i as int] == esc_char(v[t])[0]);
                    assert(esc_char(v[t]).len() == 1);
                    assert(v[t] == c);
                    assert(v.take(t + 1) =~= v.take(t).push(v[t]));
                    assert(value@ =~= v.take(t + 1));
                    assert(cs@.subrange(i + 1, p - 1) == esc_str(v.skip(t + 1)));
                }
            }
            i = i + 1;
        }
    }
}

fn parse_usize_dec(cs: &Vec<char>, pos: usize) -> (r: Option<(usize, usize)>)
    requires
        pos <= cs@.len(),
    ensures
        r matches Some(x) ==> pos < x.1 <= cs@.len() && cs@.subrange(pos as int, x.1 as int)
            == dec_of(x.0 as int),
        forall|n: usize, p: int|
            #[trigger] dec_at(cs@, pos as int, n as int, p) ==> (r matches Some(x) && x.0 == n
                && x.1 == p),
{
    if pos >= cs.len() {
        return None;
    }
    let d0 = match digit_value(cs[pos]) {
        Some(d) => d,
        None => {
            proof {
                assert forall|n: usize, p: int|
                    #[trigger] dec_at(cs@, pos as int, n as int, p) implies false by {
                    lemma_dec_of_digits(n as int);
                    assert(cs@[pos as int] == dec_of(n as int)[0]);
                    assert(is_digit(dec_of(n as int)[0]));
                    let dd = choose|dd: int| 0 <= dd < 10 && dec_digit(dd) == cs@[pos as int];
                }
            }
            return None;
        },
    };
    let mut acc: usize = d0;
    let mut i: usize = pos + 1;
    proof {
        assert(cs@.subrange(pos as int, pos + 1) =~= seq![cs@[pos as int]]);
        assert(cs@.subrange(pos as int, pos + 1) == dec_of(acc as int));
    }
    if d0 == 0 {
        proof {
            assert forall|n: usize, p: int|
                #[trigger] dec_at(cs@, pos as int, n as int, p) implies (n == 0 && p == pos
                + 1) by {
                assert(cs@[pos as int] == dec_of(n as int)[0]);
                assert(cs@[pos as int] == dec_digit(0));
                if n != 0 {
                    lemma_dec_first_zero(n as int);
                }
                assert(dec_of(n as int).len() == 1);
            }
        }
        return Some((0, i));
    }
    while i < cs.len()
        invariant
            pos < i <= cs@.len(),
            1 <= acc,
            cs@.subrange(pos as int, i as int) == dec_of(acc as int),
        decreases cs@.len() - i,
    {
        let d = match digit_value(cs[i]) {
            Some(d) => d,
            None => {
                proof {
                    assert forall|n: usize, p: int|
                        #[trigger] dec_at(cs@, pos as int, n as int, p) implies (n == acc && p
                        == i) by {
                        lemma_dec_of_digits(n as int);
                        lemma_dec_of_digits(acc as int);
                        if p > i {
                            assert(cs@[i as int] == dec_of(n as int)[i - pos]);
                            assert(is_digit(dec_of(n as int)[i - pos]));
                            let dd = choose|dd: int|
                                0 <= dd < 10 && dec_digit(dd) == cs@[i as int];
                            assert(false);
                        }
                        if p < i {
                            assert(cs@[p] == dec_of(acc as int)[p - pos]);
                            assert(is_digit(dec_of(acc as int)[p - pos]));
                            assert(false);
                        }
                        assert(dec_of(n as int) == cs@.subrange(pos as int, p));
                        assert(dec_of(n as int) == dec_of(acc as int));
                        assert(n == acc);
                    }
                }
                return Some((acc, i));
            },
        };
        if acc > (usize::MAX - d) / 10 {
            proof {
                assert forall|n: usize, p: int|
                    #[trigger] dec_at(cs@, pos as int, n as int, p) implies false by {
                    lemma_dec_of_digits(n as int);
                    lemma_dec_of_digits(acc as int);
                    if p < i {
                        assert(cs@[p] == dec_of(acc as int)[p - pos]);
                        assert(is_digit(dec_of(acc as int)[p - pos]));
                    }
                    if p == i {
                        assert(cs@[i as int] == dec_digit(d as int));
                        lemma_digit_basics(d as int);
                    }
                    assert(p > i);
                    let prefix = dec_of(acc as int).push(dec_digit(d as int));
                    assert(dec_of(n as int).take(i + 1 - pos) =~= cs@.subrange(
                        pos as int,
                        i + 1,
                    ));
                    assert(cs@.subrange(pos as int, i + 1) =~= prefix);
                    assert(prefix.drop_last() =~= dec_of(acc as int));
                    lemma_digit_basics(d as int);
                    assert(digits_value(prefix) == 10 * (acc as int) + d);
                    lemma_digits_value_prefix(dec_of(n as int), i + 1 - pos);
                    assert(10 * (acc as int) + d <= n as int);
                    assert(10 * (acc as int) + d > usize::MAX) by (nonlinear_arith)
                        requires
                            acc > (usize::MAX - d) / 10,
                            0 <= d < 10,
                            d <= usize::MAX,
                    ;
                    assert(false);
                }
            }
            return None;
        }
        proof {
            assert(acc * 10 + d <= usize::MAX) by (nonlinear_arith)
                requires
                    acc <= (usize::MAX - d) / 10,
                    d < 10,
            ;
        }
        let ghost pre_acc = acc as int;
        acc = acc * 10 + d;
        proof {
            assert(acc as int / 10 == pre_acc && acc as int % 10 == d) by (nonlinear_arith)
                requires
                    acc == pre_acc * 10 + d,
                    0 <= d < 10,
                    pre_acc >= 1,
            ;
            assert(dec_of(acc as int) == dec_of(pre_acc).push(dec_digit(d as int)));
            assert(cs@.subrange(pos as int, i + 1) =~= cs@.subrange(pos as int, i as int).push(
                cs@[i as int]));
        }
        i = i + 1;
    }
    proof {
        assert forall|n: usize, p: int|
            #[trigger] dec_at(cs@, pos as int, n as int, p) implies (n == acc && p == i) by {
            lemma_dec_of_digits(n as int);
            lemma_dec_of_digits(acc as int);
            if p < i {
                assert(cs@[p] == dec_of(acc as int)[p - pos]);
                assert(is_digit(dec_of(acc as int)[p - pos]));
                assert(false);
            }
            assert(dec_of(n as int) == cs@.subrange(pos as int, p));
            assert(dec_of(n as int) == dec_of(acc as int));
            assert(n == acc);
        }
    }
    Some((acc, i))
}

fn digit_value(c: char) -> (r: Option<usize>)
    ensures
        r matches Some(d) ==> d < 10 && dec_digit(d as int) == c,
        r is None ==> (forall|d: int| 0 <= d < 10 ==> dec_digit(d) != c),
{
    match c {
        '0' => Some(0),
        '1' => Some(1),
        '2' => Some(2),
        '3' => Some(3),
        '4' => Some(4),
        '5' => Some(5),
        '6' => Some(6),
        '7' => Some(7),
        '8' => Some(8),
        '9' => Some(9),
        _ => {
            proof {
                assert forall|d: int| 0 <= d < 10 implies dec_digit(d) != c by {
                    if d == 0 {
                    } else if d == 1 {
                    } else if d == 2 {
                    } else if d == 3 {
                    } else if d == 4 {
                    } else if d == 5 {
                    } else if d == 6 {
                    } else if d == 7 {
                    } else if d == 8 {
                    } else {
                    }
                }
            }
            None
        },
    }
}

fn parse_i32_dec(cs: &Vec<char>, pos: usize) -> (r: Option<(i32, usize)>)
    requires
        pos <= cs@.len(),
    ensures
        r matches Some(x) ==> pos < x.1 <= cs@.len() && cs@.subrange(pos as int, x.1 as int)
            == dec_of_int(x.0 as int),
        forall|n: i32, p: int|
            #[trigger] int_at(cs@, pos as int, n as int, p) ==> (r matches Some(x) && x.0 == n
                && x.1 == p),
{
    proof {
        assert(!is_digit('-')) by {
            if is_digit('-') {
                let dd = choose|dd: int| 0 <= dd < 10 && dec_digit(dd) == '-';
            }
        }
    }
    if pos >= cs.len() {
        return None;
    }
    if cs[pos] == '-' {
        let r0 = parse_usize_dec(cs, pos + 1);
        proof {
            assert forall|n: i32, p: int|
                #[trigger] int_at(cs@, pos as int, n as int, p) implies (n < 0 && dec_at(
                cs@,
                pos + 1,
                -(n as int),
                p,
            )) by {
                if n >= 0 {
                    lemma_dec_of_digits(n as int);
                    assert(cs@[pos as int] == dec_of(n as int)[0]);
                    assert(is_digit(dec_of(n as int)[0]));
                    assert(false);
                }
                lemma_dec_of_digits(-(n as int));
                assert(cs@.subrange(pos as int, p) == seq!['-'] + dec_of(-(n as int)));
                assert forall|k: int| 0 <= k < p - pos - 1 implies #[trigger] cs@.subrange(
                    pos + 1,
                    p,
                )[k] == dec_of(-(n as int))[k] by {
                    assert(cs@.subrange(pos as int, p)[k + 1] == (seq!['-'] + dec_of(
                        -(n as int),
                    ))[k + 1]);
                }
                assert(cs@.subrange(pos + 1, p) =~= dec_of(-(n as int)));
            }
        }
        let (m, p) = match r0 {
            Some(x) => x,
            None => {
                proof {
                    assert forall|n: i32, p: int|
                        #[trigger] int_at(cs@, pos as int, n as int, p) implies false by {
                        let mu: usize = (-(n as int)) as usize;
                        assert(dec_at(cs@, pos + 1, mu as int, p));
                    }
                }
                return None;
            },
        };
        proof {
            assert forall|n: i32, p2: int|
                #[trigger] int_at(cs@, pos as int, n as int, p2) implies (1 <= m
                <= 0x8000_0000usize && m as int == -(n as int) && p2 == p) by {
                let mu: usize = (-(n as int)) as usize;
                assert(dec_at(cs@, pos + 1, mu as int, p2));
            }
        }
        if m == 0 || m > 0x8000_0000usize {
            return None;
        }
        let v: i32 = (-(m as i64)) as i32;
        proof {
            assert(v as int == -(m as int));
            assert(cs@.subrange(pos as int, p as int) =~= seq!['-'] + cs@.subrange(
                pos + 1,
                p as int,
            ));
            assert(cs@.subrange(pos as int, p as int) == dec_of_int(v as int));
        }
        Some((v, p))
    } else {
        let r0 = parse_usize_dec(cs, pos);
        proof {
            assert forall|n: i32, p: int|
                #[trigger] int_at(cs@, pos as int, n as int, p) implies (n >= 0 && dec_at(
                cs@,
                pos as int,
                n as int,
                p,
            )) by {
                if n < 0 {
                    assert(cs@[pos as int] == dec_of_int(n as int)[0]);
                    assert(cs@[pos as int] == '-');
                    assert(false);
                }
            }
        }
        let (m, p) = match r0 {
            Some(x) => x,
            None => {
                proof {
                    assert forall|n: i32, p: int|
                        #[trigger] int_at(cs@, pos as int, n as int, p) implies false by {
                        let mu: usize = n as usize;
                        assert(dec_at(cs@, pos as int, mu as int, p));
                    }
                }
                return None;
            },
        };
        proof {
            assert forall|n: i32, p2: int|
                #[trigger] int_at(cs@, pos as int, n as int, p2) implies (m <= 0x7fff_ffffusize
                && m as int == n as int && p2 == p) by {
                let mu: usize = n as usize;
                assert(dec_at(cs@, pos as int, mu as int, p2));
            }
        }
        if m > 0x7fff_ffffusize {
            return None;
        }
        Some((m as i32, p))
    }
}

/// Whether a line spells some record in the canonical form.
pub open spec fn parses_as_record(l: Seq<char>) -> bool {
    exists|rv: ReviewView| l == review_line(rv)
}

/// Whether a line spells some map entry in the canonical form, under an id
/// this platform can hold.
pub open spec fn parses_as_map_entry(l: Seq<char>) -> bool {
    exists|vid: int, rid: Seq<char>| 0 <= vid <= usize::MAX && l == map_line(vid, rid)
}

spec fn rl_q1(rv: ReviewView) -> int {
    "{\"id\":"@.len() as int
}

spec fn rl_q2(rv: ReviewView) -> int {
    rl_q1(rv) + quoted(rv.id).len()
}

spec fn rl_q3(rv: ReviewView) -> int {
    rl_q2(rv) + ",\"review\":"@.len()
}

spec fn rl_q4(rv: ReviewView) -> int {
    rl_q3(rv) + quoted(rv.review).len()
}

spec fn rl_q5(rv: ReviewView) -> int {
    rl_q4(rv) + ",\"rating\":"@.len()
}

spec fn rl_q6(rv: ReviewView) -> int {
    rl_q5(rv) + dec_of_int(rv.rating as int).len()
}

spec fn rl_q7(rv: ReviewView) -> int {
    rl_q6(rv) + ",\"category\":"@.len()
}

spec fn rl_q8(rv: ReviewView) -> int {
    rl_q7(rv) + category_json(rv.category).len()
}

spec fn rl_q9(rv: ReviewView) -> int {
    rl_q8(rv) + ",\"schema_version\":"@.len()
}

spec fn rl_q10(rv: ReviewView) -> int {
    rl_q9(rv) + quoted(rv.schema_version).len()
}

spec fn rl_q11(rv: ReviewView) -> int {
    rl_q10(rv) + ",\"vector_id\":"@.len()
}

spec fn rl_q12(rv: ReviewView) -> int {
    rl_q11(rv) + dec_of(rv.vector_id as int).len()
}

proof fn lemma_not_digit_punct()
    ensures
        !is_digit(','),
        !is_digit('}'),
{
    if is_digit(',') {
        let dd = choose|dd: int| 0 <= dd < 10 && dec_digit(dd) == ',';
    }
    if is_digit('}') {
        let dd = choose|dd: int| 0 <= dd < 10 && dec_digit(dd) == '}';
    }
}

/// Where each part of a canonical metadata line stands.
#[verifier::rlimit(100)]
#[verifier::spinoff_prover]
proof fn lemma_review_segments(l: Seq<char>, rv: ReviewView)
    requires
        l == review_line(rv),
    ensures
        l.len() == rl_q12(rv) + 1,
        l.subrange(0, rl_q1(rv)) == "{\"id\":"@,
        quoted_at(l, rl_q1(rv), rv.id, rl_q2(rv)),
        l.subrange(rl_q2(rv), rl_q3(rv)) == ",\"review\":"@,
        quoted_at(l, rl_q3(rv), rv.review, rl_q4(rv)),
        l.subrange(rl_q4(rv), rl_q5(rv)) == ",\"rating\":"@,
        int_at(l, rl_q5(rv), rv.rating as int, rl_q6(rv)),
        l.subrange(rl_q6(rv), rl_q7(rv)) == ",\"category\":"@,
        rv.category is None ==> l.subrange(rl_q7(rv), rl_q8(rv)) == "null"@ && l[rl_q7(rv)]
            == 'n',
        rv.category matches Some(c) ==> quoted_at(l, rl_q7(rv), c, rl_q8(rv)) && l[rl_q7(rv)]
            != 'n',
        l.subrange(rl_q8(rv), rl_q9(rv)) == ",\"schema_version\":"@,
        quoted_at(l, rl_q9(rv), rv.schema_version, rl_q10(rv)),
        l.subrange(rl_q10(rv), rl_q11(rv)) == ",\"vector_id\":"@,
        dec_at(l, rl_q11(rv), rv.vector_id as int, rl_q12(rv)),
        l.subrange(rl_q12(rv), rl_q12(rv) + 1) == seq!['}'],
{
    reveal_strlit("{\"id\":");
    reveal_strlit(",\"review\":");
    reveal_strlit(",\"rating\":");
    reveal_strlit(",\"category\":");
    reveal_strlit(",\"schema_version\":");
    reveal_strlit(",\"vector_id\":");
    reveal_strlit("null");
    lemma_dec_of_digits(rv.vector_id as int);
    if rv.rating < 0 {
        lemma_dec_of_digits(-(rv.rating as int));
    } else {
        lemma_dec_of_digits(rv.rating as int);
    }
    lemma_not_digit_punct();
    assert(l.subrange(0, rl_q1(rv)) =~= "{\"id\":"@);
    assert(l.subrange(rl_q1(rv), rl_q2(rv)) =~= quoted(rv.id));
    assert(l.subrange(rl_q2(rv), rl_q3(rv)) =~= ",\"review\":"@);
    assert(l.subrange(rl_q3(rv), rl_q4(rv)) =~= quoted(rv.review));
    assert(l.subrange(rl_q4(rv), rl_q5(rv)) =~= ",\"rating\":"@);
    assert(l.subrange(rl_q5(rv), rl_q6(rv)) =~= dec_of_int(rv.rating as int));
    assert(l.subrange(rl_q6(rv), rl_q7(rv)) =~= ",\"category\":"@);
    assert(l.subrange(rl_q7(rv), rl_q8(rv)) =~= category_json(rv.category));
    assert(l.subrange(rl_q8(rv), rl_q9(rv)) =~= ",\"schema_version\":"@);
    assert(l.subrange(rl_q9(rv), rl_q10(rv)) =~= quoted(rv.schema_version));
    assert(l.subrange(rl_q10(rv), rl_q11(rv)) =~= ",\"vector_id\":"@);
    assert(l.subrange(rl_q11(rv), rl_q12(rv)) =~= dec_of(rv.vector_id as int));
    assert(l.subrange(rl_q12(rv), rl_q12(rv) + 1) =~= seq!['}']);
    assert(l[rl_q6(rv)] == l.subrange(rl_q6(rv), rl_q7(rv))[0]);
    reveal_strlit(",\"category\":");
    assert(l[rl_q6(rv)] == ',');
    assert(l[rl_q12(rv)] == l.subrange(rl_q12(rv), rl_q12(rv) + 1)[0]);
    assert(l[rl_q12(rv)] == '}');
    match rv.category {
        None => {
            reveal_strlit("null");
            assert(l[rl_q7(rv)] == l.subrange(rl_q7(rv), rl_q8(rv))[0]);
        },
        Some(c) => {
            assert(l[rl_q7(rv)] == l.subrange(rl_q7(rv), rl_q8(rv))[0]);
            assert(l[rl_q7(rv)] == quoted(c)[0]);
            reveal_strlit("null");
            assert('"' != 'n');
        },
    }
}

spec fn ml_q1() -> int {
    "{\"vector_id\":"@.len() as int
}

spec fn ml_q2(vid: int) -> int {
    ml_q1() + dec_of(vid).len()
}

spec fn ml_q3(vid: int) -> int {
    ml_q2(vid) + ",\"review_id\":"@.len()
}

spec fn ml_q4(vid: int, rid: Seq<char>) -> int {
    ml_q3(vid) + quoted(rid).len()
}

/// Where each part of a canonical map line stands.
#[verifier::rlimit(100)]
#[verifier::spinoff_prover]
proof fn lemma_map_segments(l: Seq<char>, vid: int, rid: Seq<char>)
    requires
        0 <= vid,
        l == map_line(vid, rid),
    ensures
        l.len() == ml_q4(vid, rid) + 1,
        l.subrange(0, ml_q1()) == "{\"vector_id\":"@,
        dec_at(l, ml_q1(), vid, ml_q2(vid)),
        l.subrange(ml_q2(vid), ml_q3(vid)) == ",\"review_id\":"@,
        quoted_at(l, ml_q3(vid), rid, ml_q4(vid, rid)),
        l.subrange(ml_q4(vid, rid), ml_q4(vid, rid) + 1) == seq!['}'],
{
    reveal_strlit("{\"vector_id\":");
    reveal_strlit(",\"review_id\":");
    lemma_dec_of_digits(vid);
    lemma_not_digit_punct();
    assert(l.subrange(0, ml_q1()) =~= "{\"vector_id\":"@);
    assert(l.subrange(ml_q1(), ml_q2(vid)) =~= dec_of(vid));
    assert(l.subrange(ml_q2(vid), ml_q3(vid)) =~= ",\"review_id\":"@);
    assert(l.subrange(ml_q3(vid), ml_q4(vid, rid)) =~= quoted(rid));
    assert(l.subrange(ml_q4(vid, rid), ml_q4(vid, rid) + 1) =~= seq!['}']);
    assert(l[ml_q2(vid)] == l.subrange(ml_q2(vid), ml_q3(vid))[0]);
    reveal_strlit(",\"review_id\":");
    assert(l[ml_q2(vid)] == ',');
}

/// Parses one metadata-log line: it succeeds exactly on the store's own
/// canonical form, returning the one record whose line this is; anything
/// else is a corrupt record, reported with the offending line.
pub fn parse_review_line(line: &str) -> (r: Result<StoredReview, StoreError>)
    ensures
        r matches Ok(rec) ==> line@ == review_line(rec@),
        r is Ok <==> parses_as_record(line@),
        forall|rv: ReviewView| #[trigger] review_line(rv) == line@ ==> (r matches Ok(rec)
            && rec@ == rv),
        r matches Err(e) ==> e matches StoreError::CorruptRecord(l) && l@ == line@
            && !parses_as_record(line@),
{
    match parse_review_inner(line) {
        Some(rec) => {
            proof {
                assert(parses_as_record(line@));
            }
            Ok(rec)
        },
        None => {
            proof {
                assert(!parses_as_record(line@)) by {
                    if parses_as_record(line@) {
                        let rv = choose|rv: ReviewView| line@ == review_line(rv);
                        assert(review_line(rv) == line@);
                    }
                }
            }
            Err(StoreError::CorruptRecord(line.to_owned()))
        },
    }
}

/// The leading half of a metadata line: id, review and rating.
spec fn head_text(id: Seq<char>, review: Seq<char>, rating: i32) -> Seq<char> {
    "{\"id\":"@ + quoted(id) + ",\"review\":"@ + quoted(review) + ",\"rating\":"@ + dec_of_int(
        rating as int,
    )
}

#[verifier::rlimit(100)]
#[verifier::spinoff_prover]
fn parse_review_head(cs: &Vec<char>) -> (r: Option<(String, String, i32, usize)>)
    ensures
        r matches Some(x) ==> x.3 <= cs@.len() && cs@.subrange(0, x.3 as int) == head_text(
            x.0@,
            x.1@,
            x.2,
        ),
        forall|rv: ReviewView|
            #[trigger] review_line(rv) == cs@ ==> (r matches Some(x) && x.0@ == rv.id && x.1@
                == rv.review && x.2 == rv.rating && x.3 == rl_q6(rv)),
{
    let p0: usize = 0;
    let p1 = match expect_lit(cs, p0, "{\"id\":") {
        Some(p) => p,
        None => {
            proof {
                assert forall|rv: ReviewView| #[trigger] review_line(rv) == cs@ implies false
                    by {
                    lemma_review_segments(cs@, rv);
                }
            }
            return None;
        },
    };
    let (id, p2) = match parse_quoted(cs, p1) {
        Some(x) => x,
        None => {
            proof {
                assert forall|rv: ReviewView| #[trigger] review_line(rv) == cs@ implies false
                    by {
                    lemma_review_segments(cs@, rv);
                    assert(p1 == rl_q1(rv));
                    assert(quoted_at(cs@, p1 as int, rv.id, rl_q2(rv)));
                }
            }
            return None;
        },
    };
    let p3 = match expect_lit(cs, p2, ",\"review\":") {
        Some(p) => p,
        None => {
            proof {
                assert forall|rv: ReviewView| #[trigger] review_line(rv) == cs@ implies false
                    by {
                    lemma_review_segments(cs@, rv);
                    assert(p1 == rl_q1(rv));
                    assert(quoted_at(cs@, p1 as int, rv.id, rl_q2(rv)));
                    assert(p2 == rl_q2(rv));
                }
            }
            return None;
        },
    };
    let (review, p4) = match parse_quoted(cs, p3) {
        Some(x) => x,
        None => {
            proof {
                assert forall|rv: ReviewView| #[trigger] review_line(rv) == cs@ implies false
                    by {
                    lemma_review_segments(cs@, rv);
                    assert(p1 == rl_q1(rv));
                    assert(quoted_at(cs@, p1 as int, rv.id, rl_q2(rv)));
                    assert(p2 == rl_q2(rv));
                    assert(p3 == rl_q3(rv));
                    assert(quoted_at(cs@, p3 as int, rv.review, rl_q4(rv)));
                }
            }
            return None;
        },
    };
    let p5 = match expect_lit(cs, p4, ",\"rating\":") {
        Some(p) => p,
        None => {
            proof {
                assert forall|rv: ReviewView| #[trigger] review_line(rv) == cs@ implies false
                    by {
                    lemma_review_segments(cs@, rv);
                    assert(p1 == rl_q1(rv));
                    assert(quoted_at(cs@, p1 as int, rv.id, rl_q2(rv)));
                    assert(p2 == rl_q2(rv));
                    assert(p3 == rl_q3(rv));
                    assert(quoted_at(cs@, p3 as int, rv.review, rl_q4(rv)));
                    assert(p4 == rl_q4(rv));
                }
            }
            return None;
        },
    };
    let (rating, p6) = match parse_i32_dec(cs, p5) {
        Some(x) => x,
        None => {
            proof {
                assert forall|rv: ReviewView| #[trigger] review_line(rv) == cs@ implies false
                    by {
                    lemma_review_segments(cs@, rv);
                    assert(p1 == rl_q1(rv));
                    assert(quoted_at(cs@, p1 as int, rv.id, rl_q2(rv)));
                    assert(p2 == rl_q2(rv));
                    assert(p3 == rl_q3(rv));
                    assert(quoted_at(cs@, p3 as int, rv.review, rl_q4(rv)));
                    assert(p4 == rl_q4(rv));
                    assert(p5 == rl_q5(rv));
                    assert(int_at(cs@, p5 as int, rv.rating as int, rl_q6(rv)));
                }
            }
            return None;
        },
    };
    proof {
        assert(cs@.subrange(0, p6 as int) =~= cs@.subrange(0, p1 as int) + cs@.subrange(
            p1 as int,
            p2 as int,
        ) + cs@.subrange(p2 as int, p3 as int) + cs@.subrange(p3 as int, p4 as int) + cs@.subrange(
            p4 as int,
            p5 as int,
        ) + cs@.subrange(p5 as int, p6 as int));
        assert(cs@.subrange(0, p6 as int) == head_text(id@, review@, rating));
        assert forall|rv: ReviewView| #[trigger] review_line(rv) == cs@ implies (id@ == rv.id
            && review@ == rv.review && rating == rv.rating && p6 == rl_q6(rv)) by {
            lemma_review_segments(cs@, rv);
            assert(p1 == rl_q1(rv));
            assert(quoted_at(cs@, p1 as int, rv.id, rl_q2(rv)));
            assert(p2 == rl_q2(rv));
            assert(p3 == rl_q3(rv));
            assert(quoted_at(cs@, p3 as int, rv.review, rl_q4(rv)));
            assert(p4 == rl_q4(rv));
            assert(p5 == rl_q5(rv));
            assert(int_at(cs@, p5 as int, rv.rating as int, rl_q6(rv)));
        }
    }
    Some((id, review, rating, p6))
}

/// The category segment of a metadata line.
spec fn cat_text(cat: Option<Seq<char>>) -> Seq<char> {
    ",\"category\":"@ + category_json(cat)
}

/// The closing segment of a metadata line: schema tag, vector id, brace.
spec fn end_text(sv: Seq<char>, vid: usize) -> Seq<char> {
    ",\"schema_version\":"@ + quoted(sv) + ",\"vector_id\":"@ + dec_of(vid as int) + seq!['}']
}

#[verifier::rlimit(100)]
#[verifier::spinoff_prover]
fn parse_review_cat(cs: &Vec<char>, p6: usize) -> (r: Option<(Option<String>, usize)>)
    requires
        p6 <= cs@.len(),
    ensures
        r matches Some(x) ==> p6 <= x.1 <= cs@.len() && cs@.subrange(p6 as int, x.1 as int)
            == cat_text(
            match x.0 {
                Some(c) => Some(c@),
                None => None,
            },
        ),
        forall|rv: ReviewView|
            #[trigger] review_line(rv) == cs@ && p6 == rl_q6(rv) ==> (r matches Some(x) && (
            match rv.category {
                None => x.0 is None,
                Some(cv) => x.0 matches Some(c) && c@ == cv,
            }) && x.1 == rl_q8(rv)),
{
    let p7 = match expect_lit(cs, p6, ",\"category\":") {
        Some(p) => p,
        None => {
            proof {
                assert forall|rv: ReviewView|
                    #[trigger] review_line(rv) == cs@ && p6 == rl_q6(rv) implies false by {
                    lemma_review_segments(cs@, rv);
                }
            }
            return None;
        },
    };
    let category: Option<String>;
    let p8: usize;
    if p7 < cs.len() && cs[p7] == 'n' {
        let p = match expect_lit(cs, p7, "null") {
            Some(p) => p,
            None => {
                proof {
                    assert forall|rv: ReviewView|
                        #[trigger] review_line(rv) == cs@ && p6 == rl_q6(rv) implies false by {
                        lemma_review_segments(cs@, rv);
                        assert(p7 == rl_q7(rv));
                        match rv.category {
                            None => {
                                assert(cs@.subrange(p7 as int, rl_q8(rv)) == "null"@);
                            },
                            Some(cv) => {
                                assert(quoted_at(cs@, p7 as int, cv, rl_q8(rv)));
                                lemma_quoted_parts(cs@, p7 as int, cv, rl_q8(rv));
                                assert(cs@[p7 as int] == '"');
                            },
                        }
                    }
                }
                return None;
            },
        };
        category = None;
        p8 = p;
    } else {
        let (c, p) = match parse_quoted(cs, p7) {
            Some(x) => x,
            None => {
                proof {
                    assert forall|rv: ReviewView|
                        #[trigger] review_line(rv) == cs@ && p6 == rl_q6(rv) implies false by {
                        lemma_review_segments(cs@, rv);
                        assert(p7 == rl_q7(rv));
                        match rv.category {
                            None => {
                                assert(cs@[rl_q7(rv)] == 'n');
                            },
                            Some(cv) => {
                                assert(quoted_at(cs@, p7 as int, cv, rl_q8(rv)));
                            },
                        }
                    }
                }
                return None;
            },
        };
        category = Some(c);
        p8 = p;
    }
    proof {
        assert(cs@.subrange(p6 as int, p8 as int) =~= cs@.subrange(p6 as int, p7 as int)
            + cs@.subrange(p7 as int, p8 as int));
        assert(cs@.subrange(p6 as int, p8 as int) == cat_text(
            match category {
                Some(c) => Some(c@),
                None => None,
            },
        ));
        assert forall|rv: ReviewView|
            #[trigger] review_line(rv) == cs@ && p6 == rl_q6(rv) implies (p8 == rl_q8(rv) && (
        match rv.category {
            None => category is None,
            Some(cv) => category matches Some(c) && c@ == cv,
        })) by {
            lemma_review_segments(cs@, rv);
            assert(p7 == rl_q7(rv));
            match rv.category {
                None => {
                    assert(cs@[rl_q7(rv)] == 'n');
                    assert(cs@.subrange(p7 as int, rl_q8(rv)) == "null"@);
                },
                Some(cv) => {
                    assert(quoted_at(cs@, p7 as int, cv, rl_q8(rv)));
                    lemma_quoted_parts(cs@, p7 as int, cv, rl_q8(rv));
                    assert(cs@[p7 as int] == '"');
                },
            }
        }
    }
    Some((category, p8))
}

#[verifier::rlimit(100)]
#[verifier::spinoff_prover]
fn parse_review_end(cs: &Vec<char>, p8: usize) -> (r: Option<(String, usize)>)
    requires
        p8 <= cs@.len(),
    ensures
        r matches Some(x) ==> cs@.subrange(p8 as int, cs@.len() as int) == end_text(
            x.0@,
            x.1,
        ),
        forall|rv: ReviewView|
            #[trigger] review_line(rv) == cs@ && p8 == rl_q8(rv) ==> (r matches Some(x) && x.0@
                == rv.schema_version && x.1 == rv.vector_id),
{
    let p9 = match expect_lit(cs, p8, ",\"schema_version\":") {
        Some(p) => p,
        None => {
            proof {
                assert forall|rv: ReviewView|
                    #[trigger] review_line(rv) == cs@ && p8 == rl_q8(rv) implies false by {
                    lemma_review_segments(cs@, rv);
                }
            }
            return None;
        },
    };
    let (schema_version, p10) = match parse_quoted(cs, p9) {
        Some(x) => x,
        None => {
            proof {
                assert forall|rv: ReviewView|
                    #[trigger] review_line(rv) == cs@ && p8 == rl_q8(rv) implies false by {
                    lemma_review_segments(cs@, rv);
                    assert(p9 == rl_q9(rv));
                    assert(quoted_at(cs@, p9 as int, rv.schema_version, rl_q10(rv)));
                }
            }
            return None;
        },
    };
    let p11 = match expect_lit(cs, p10, ",\"vector_id\":") {
        Some(p) => p,
        None => {
            proof {
                assert forall|rv: ReviewView|
                    #[trigger] review_line(rv) == cs@ && p8 == rl_q8(rv) implies false by {
                    lemma_review_segments(cs@, rv);
                    assert(p9 == rl_q9(rv));
                    assert(quoted_at(cs@, p9 as int, rv.schema_version, rl_q10(rv)));
                    assert(p10 == rl_q10(rv));
                }
            }
            return None;
        },
    };
    let (vector_id, p12) = match parse_usize_dec(cs, p11) {
        Some(x) => x,
        None => {
            proof {
                assert forall|rv: ReviewView|
                    #[trigger] review_line(rv) == cs@ && p8 == rl_q8(rv) implies false by {
                    lemma_review_segments(cs@, rv);
                    assert(p9 == rl_q9(rv));
                    assert(quoted_at(cs@, p9 as int, rv.schema_version, rl_q10(rv)));
                    assert(p10 == rl_q10(rv));
                    assert(p11 == rl_q11(rv));
                    assert(dec_at(cs@, p11 as int, rv.vector_id as int, rl_q12(rv)));
                }
            }
            return None;
        },
    };
    let p13 = match expect_lit(cs, p12, "}") {
        Some(p) => p,
        None => {
            proof {
                assert forall|rv: ReviewView|
                    #[trigger] review_line(rv) == cs@ && p8 == rl_q8(rv) implies false by {
                    lemma_review_segments(cs@, rv);
                    assert(p9 == rl_q9(rv));
                    assert(quoted_at(cs@, p9 as int, rv.schema_version, rl_q10(rv)));
                    assert(p10 == rl_q10(rv));
                    assert(p11 == rl_q11(rv));
                    assert(dec_at(cs@, p11 as int, rv.vector_id as int, rl_q12(rv)));
                    assert(p12 == rl_q12(rv));
                    reveal_strlit("}");
                    assert("}"@ =~= seq!['}']);
                    assert(cs@.subrange(p12 as int, rl_q12(rv) + 1) == "}"@);
                }
            }
            return None;
        },
    };
    if p13 != cs.len() {
        proof {
            assert forall|rv: ReviewView|
                #[trigger] review_line(rv) == cs@ && p8 == rl_q8(rv) implies false by {
                lemma_review_segments(cs@, rv);
                assert(p9 == rl_q9(rv));
                assert(quoted_at(cs@, p9 as int, rv.schema_version, rl_q10(rv)));
                assert(p10 == rl_q10(rv));
                assert(p11 == rl_q11(rv));
                assert(dec_at(cs@, p11 as int, rv.vector_id as int, rl_q12(rv)));
                assert(p12 == rl_q12(rv));
                reveal_strlit("}");
                assert("}"@.len() == 1);
                assert(p13 == rl_q12(rv) + 1);
                assert(cs@.len() == rl_q12(rv) + 1);
            }
        }
        return None;
    }
    proof {
        reveal_strlit("}");
        assert("}"@ =~= seq!['}']);
        assert(cs@.subrange(p8 as int, cs@.len() as int) =~= cs@.subrange(p8 as int, p9 as int)
            + cs@.subrange(p9 as int, p10 as int) + cs@.subrange(p10 as int, p11 as int)
            + cs@.subrange(p11 as int, p12 as int) + cs@.subrange(p12 as int, p13 as int));
        assert(cs@.subrange(p8 as int, cs@.len() as int) == end_text(
            schema_version@,
            vector_id,
        ));
        assert forall|rv: ReviewView|
            #[trigger] review_line(rv) == cs@ && p8 == rl_q8(rv) implies (schema_version@
            == rv.schema_version && vector_id == rv.vector_id) by {
            lemma_review_segments(cs@, rv);
            assert(p9 == rl_q9(rv));
            assert(quoted_at(cs@, p9 as int, rv.schema_version, rl_q10(rv)));
            assert(p10 == rl_q10(rv));
            assert(p11 == rl_q11(rv));
            assert(dec_at(cs@, p11 as int, rv.vector_id as int, rl_q12(rv)));
        }
    }
    Some((schema_version, vector_id))
}

#[verifier::rlimit(100)]
#[verifier::spinoff_prover]
fn parse_review_inner(line: &str) -> (r: Option<StoredReview>)
    ensures
        r matches Some(rec) ==> line@ == review_line(rec@),
        forall|rv: ReviewView| #[trigger] review_line(rv) == line@ ==> (r matches Some(rec)
            && rec@ == rv),
{
    let cs = str_chars(line);
    let (id, review, rating, p6) = match parse_review_head(&cs) {
        Some(x) => x,
        None => {
            return None;
        },
    };
    proof {
        assert(head_text(id@, review@, rating).len() == p6);
    }
    let (category, p8) = match parse_review_cat(&cs, p6) {
        Some(x) => x,
        None => {
            proof {
                assert forall|rv: ReviewView| #[trigger] review_line(rv) == line@ implies false
                    by {
                    assert(review_line(rv) == cs@ && p6 == rl_q6(rv));
                }
            }
            return None;
        },
    };
    let (schema_version, vector_id) = match parse_review_end(&cs, p8) {
        Some(x) => x,
        None => {
            proof {
                assert forall|rv: ReviewView| #[trigger] review_line(rv) == line@ implies false
                    by {
                    assert(review_line(rv) == cs@ && p6 == rl_q6(rv));
                    assert(p8 == rl_q8(rv));
                }
            }
            return None;
        },
    };
    let rec = StoredReview { id, review, rating, category, schema_version, vector_id };
    proof {
        assert(cs@ =~= cs@.subrange(0, p6 as int) + cs@.subrange(p6 as int, p8 as int)
            + cs@.subrange(p8 as int, cs@.len() as int));
        assert(review_line(rec@) =~= head_text(rec@.id, rec@.review, rec@.rating) + cat_text(
            rec@.category,
        ) + end_text(rec@.schema_version, rec@.vector_id));
        assert(line@ == review_line(rec@));
        assert forall|rv: ReviewView| #[trigger] review_line(rv) == line@ implies rec@ == rv by {
            assert(review_line(rv) == cs@ && p6 == rl_q6(rv));
            assert(p8 == rl_q8(rv));
        }
    }
    Some(rec)
}

/// Parses one vector-map-log line: it succeeds exactly on the canonical
/// form, yielding the one `(vector id, review id)` pair the line spells.
pub fn parse_map_line(line: &str) -> (r: Result<(usize, String), StoreError>)
    ensures
        r matches Ok(pair) ==> line@ == map_line(pair.0 as int, pair.1@),
        r is Ok <==> parses_as_map_entry(line@),
        forall|vid: int, rid: Seq<char>|
            (0 <= vid <= usize::MAX && #[trigger] map_line(vid, rid) == line@) ==> (r matches
                Ok(pair) && pair.0 as int == vid && pair.1@ == rid),
        r matches Err(e) ==> e matches StoreError::CorruptRecord(l) && l@ == line@
            && !parses_as_map_entry(line@),
{
    match parse_map_inner(line) {
        Some(pair) => {
            proof {
                assert(parses_as_map_entry(line@));
            }
            Ok(pair)
        },
        None => {
            proof {
                assert(!parses_as_map_entry(line@)) by {
                    if parses_as_map_entry(line@) {
                        let (vid, rid) = choose|vid: int, rid: Seq<char>|
                            0 <= vid <= usize::MAX && line@ == map_line(vid, rid);
                        assert(map_line(vid, rid) == line@);
                    }
                }
            }
            Err(StoreError::CorruptRecord(line.to_owned()))
        },
    }
}

#[verifier::rlimit(100)]
#[verifier::spinoff_prover]
fn parse_map_inner(line: &str) -> (r: Option<(usize, String)>)
    ensures
        r matches Some(pair) ==> line@ == map_line(pair.0 as int, pair.1@),
        forall|vid: int, rid: Seq<char>|
            (0 <= vid <= usize::MAX && #[trigger] map_line(vid, rid) == line@) ==> (r matches
                Some(pair) && pair.0 as int == vid && pair.1@ == rid),
{
    let cs = str_chars(line);
    let p1 = match expect_lit(&cs, 0, "{\"vector_id\":") {
        Some(p) => p,
        None => {
            proof {
                assert forall|vid: int, rid: Seq<char>|
                    0 <= vid <= usize::MAX && #[trigger] map_line(vid, rid)
                        == line@ implies false by {
                    lemma_map_segments(cs@, vid, rid);
                }
            }
            return None;
        },
    };
    let (vid, p2) = match parse_usize_dec(&cs, p1) {
        Some(x) => x,
        None => {
            proof {
                assert forall|vid: int, rid: Seq<char>|
                    0 <= vid <= usize::MAX && #[trigger] map_line(vid, rid)
                        == line@ implies false by {
                    lemma_map_segments(cs@, vid, rid);
                    assert(p1 == ml_q1());
                    let mu: usize = vid as usize;
                    assert(dec_at(cs@, p1 as int, mu as int, ml_q2(vid)));
                }
            }
            return None;
        },
    };
    let p3 = match expect_lit(&cs, p2, ",\"review_id\":") {
        Some(p) => p,
        None => {
            proof {
                assert forall|vid: int, rid: Seq<char>|
                    0 <= vid <= usize::MAX && #[trigger] map_line(vid, rid)
                        == line@ implies false by {
                    lemma_map_segments(cs@, vid, rid);
                    assert(p1 == ml_q1());
                    let mu: usize = vid as usize;
                    assert(dec_at(cs@, p1 as int, mu as int, ml_q2(vid)));
                    assert(p2 == ml_q2(vid));
                }
            }
            return None;
        },
    };
    let (rid, p4) = match parse_quoted(&cs, p3) {
        Some(x) => x,
        None => {
            proof {
                assert forall|vid: int, rid: Seq<char>|
                    0 <= vid <= usize::MAX && #[trigger] map_line(vid, rid)
                        == line@ implies false by {
                    lemma_map_segments(cs@, vid, rid);
                    assert(p1 == ml_q1());
                    let mu: usize = vid as usize;
                    assert(dec_at(cs@, p1 as int, mu as int, ml_q2(vid)));
                    assert(p2 == ml_q2(vid));
                    assert(p3 == ml_q3(vid));
                    assert(quoted_at(cs@, p3 as int, rid, ml_q4(vid, rid)));
                }
            }
            return None;
        },
    };
    let p5 = match expect_lit(&cs, p4, "}") {
        Some(p) => p,
        None => {
            proof {
                assert forall|vid: int, rid: Seq<char>|
                    0 <= vid <= usize::MAX && #[trigger] map_line(vid, rid)
                        == line@ implies false by {
                    lemma_map_segments(cs@, vid, rid);
                    assert(p1 == ml_q1());
                    let mu: usize = vid as usize;
                    assert(dec_at(cs@, p1 as int, mu as int, ml_q2(vid)));
                    assert(p2 == ml_q2(vid));
                    assert(p3 == ml_q3(vid));
                    assert(quoted_at(cs@, p3 as int, rid, ml_q4(vid, rid)));
                    assert(p4 == ml_q4(vid, rid));
                    reveal_strlit("}");
                    assert("}"@ =~= seq!['}']);
                    assert(cs@.subrange(p4 as int, ml_q4(vid, rid) + 1) == "}"@);
                }
            }
            return None;
        },
    };
    if p5 != cs.len() {
        proof {
            assert forall|vid: int, rid: Seq<char>|
                0 <= vid <= usize::MAX && #[trigger] map_line(vid, rid) == line@ implies false
                by {
                lemma_map_segments(cs@, vid, rid);
                assert(p1 == ml_q1());
                let mu: usize = vid as usize;
                assert(dec_at(cs@, p1 as int, mu as int, ml_q2(vid)));
                assert(p2 == ml_q2(vid));
                assert(p3 == ml_q3(vid));
                assert(quoted_at(cs@, p3 as int, rid, ml_q4(vid, rid)));
                assert(p4 == ml_q4(vid, rid));
                reveal_strlit("}");
                assert("}"@.len() == 1);
                assert(p5 == ml_q4(vid, rid) + 1);
                assert(cs@.len() == ml_q4(vid, rid) + 1);
            }
        }
        return None;
    }
    proof {
        let ss = cs@;
        reveal_strlit("}");
        assert("}"@ =~= seq!['}']);
        assert(ss.subrange(0, p5 as int) =~= ss.subrange(0, p1 as int) + ss.subrange(
            p1 as int,
            p2 as int,
        ) + ss.subrange(p2 as int, p3 as int) + ss.subrange(p3 as int, p4 as int) + ss.subrange(
            p4 as int,
            p5 as int,
        ));
        assert(ss.subrange(0, p5 as int) == map_line(vid as int, rid@));
        assert(ss.subrange(0, ss.len() as int) =~= ss);
        assert forall|vid2: int, rid2: Seq<char>|
            0 <= vid2 <= usize::MAX && #[trigger] map_line(vid2, rid2) == line@ implies (
        vid as int == vid2 && rid@ == rid2) by {
            lemma_map_segments(cs@, vid2, rid2);
            assert(p1 == ml_q1());
            let mu: usize = vid2 as usize;
            assert(dec_at(cs@, p1 as int, mu as int, ml_q2(vid2)));
            assert(p2 == ml_q2(vid2));
            assert(p3 == ml_q3(vid2));
            assert(quoted_at(cs@, p3 as int, rid2, ml_q4(vid2, rid2)));
        }
    }
    Some((vid, rid))
}

/// Parses every metadata-log line in order: it succeeds exactly when every
/// line is a canonical record — yielding, line for line, the records the
/// log spells — and otherwise stops at the first line that is not,
/// reporting it.
pub fn load_all_reviews(lines: &Vec<String>) -> (r: Result<Vec<StoredReview>, StoreError>)
    ensures
        r is Ok <==> (forall|i: int|
            0 <= i < lines@.len() ==> parses_as_record((#[trigger] lines@[i])@)),
        r matches Ok(rs) ==> rs@.len() == lines@.len() && (forall|i: int|
            0 <= i < lines@.len() ==> (#[trigger] lines@[i])@ == review_line(rs@[i]@)),
        r matches Ok(rs) ==> (forall|i: int, rv: ReviewView|
            0 <= i < lines@.len() && #[trigger] review_line(rv) == (#[trigger] lines@[i])@
                ==> rs@[i]@ == rv),
        r matches Err(e) ==> e matches StoreError::CorruptRecord(l) && (exists|i: int|
            0 <= i < lines@.len() && l@ == (#[trigger] lines@[i])@ && !parses_as_record(
                lines@[i]@,
            ) && (forall|m: int| 0 <= m < i ==> parses_as_record((#[trigger] lines@[m])@))),
{
    let mut out: Vec<StoredReview> = Vec::new();
    let mut i: usize = 0;
    while i < lines.len()
        invariant
            i <= lines@.len(),
            out@.len() == i,
            forall|m: int| 0 <= m < i ==> (#[trigger] lines@[m])@ == review_line(out@[m]@),
            forall|m: int, rv: ReviewView|
                0 <= m < i && #[trigger] review_line(rv) == (#[trigger] lines@[m])@
                    ==> out@[m]@ == rv,
        decreases lines@.len() - i,
    {
        match parse_review_line(lines[i].as_str()) {
            Ok(rec) => {
                out.push(rec);
            },
            Err(e) => {
                proof {
                    assert forall|m: int| 0 <= m < i implies parses_as_record(
                        (#[trigger] lines@[m])@,
                    ) by {
                        assert(lines@[m]@ == review_line(out@[m]@));
                    }
                    assert(!parses_as_record(lines@[i as int]@));
                }
                return Err(e);
            },
        }
        i = i + 1;
    }
    proof {
        assert forall|m: int| 0 <= m < lines@.len() implies parses_as_record(
            (#[trigger] lines@[m])@,
        ) by {
            assert(lines@[m]@ == review_line(out@[m]@));
        }
    }
    Ok(out)
}

/// Parses every vector-map-log line in order: it succeeds exactly when
/// every line is a canonical entry — yielding, line for line, the pairs
/// the log spells — and otherwise stops at the first line that is not,
/// reporting it.
pub fn read_vector_map(lines: &Vec<String>) -> (r: Result<Vec<(usize, String)>, StoreError>)
    ensures
        r is Ok <==> (forall|i: int|
            0 <= i < lines@.len() ==> parses_as_map_entry((#[trigger] lines@[i])@)),
        r matches Ok(es) ==> es@.len() == lines@.len() && (forall|i: int|
            0 <= i < lines@.len() ==> (#[trigger] lines@[i])@ == map_line(
                es@[i].0 as int,
                es@[i].1@,
            )),
        r matches Ok(es) ==> (forall|i: int, vid: int, rid: Seq<char>|
            (0 <= i < lines@.len() && 0 <= vid <= usize::MAX && #[trigger] map_line(vid, rid)
                == (#[trigger] lines@[i])@) ==> es@[i].0 as int == vid && es@[i].1@ == rid),
        r matches Err(e) ==> e matches StoreError::CorruptRecord(l) && (exists|i: int|
            0 <= i < lines@.len() && l@ == (#[trigger] lines@[i])@ && !parses_as_map_entry(
                lines@[i]@,
            ) && (forall|m: int| 0 <= m < i ==> parses_as_map_entry((#[trigger] lines@[m])@))),
{
    let mut out: Vec<(usize, String)> = Vec::new();
    let mut i: usize = 0;
    while i < lines.len()
        invariant
            i <= lines@.len(),
            out@.len() == i,
            forall|m: int|
                0 <= m < i ==> (#[trigger] lines@[m])@ == map_line(out@[m].0 as int, out@[m].1@),
            forall|m: int, vid: int, rid: Seq<char>|
                (0 <= m < i && 0 <= vid <= usize::MAX && #[trigger] map_line(vid, rid) == (
                #[trigger] lines@[m])@) ==> out@[m].0 as int == vid && out@[m].1@ == rid,
        decreases lines@.len() - i,
    {
        match parse_map_line(lines[i].as_str()) {
            Ok(pair) => {
                out.push(pair);
            },
            Err(e) => {
                proof {
                    assert forall|m: int| 0 <= m < i implies parses_as_map_entry(
                        (#[trigger] lines@[m])@,
                    ) by {
                        assert(lines@[m]@ == map_line(out@[m].0 as int, out@[m].1@));
                    }
                    assert(!parses_as_map_entry(lines@[i as int]@));
                }
                return Err(e);
            },
        }
        i = i + 1;
    }
    proof {
        assert forall|m: int| 0 <= m < lines@.len() implies parses_as_map_entry(
            (#[trigger] lines@[m])@,
        ) by {
            assert(lines@[m]@ == map_line(out@[m].0 as int, out@[m].1@));
        }
    }
    Ok(out)
}

} // verus!
