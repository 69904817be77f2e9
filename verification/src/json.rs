//! The persisted data format: a JSON array of periods, each with a
//! project name, an RFC 3339 start instant, and an RFC 3339 end instant
//! or `null`.
//!
//! The writer produces one canonical text for every store. The reader
//! accepts any JSON text matching that schema: whitespace between
//! tokens, every string escape of the JSON grammar (surrogate pairs
//! included), the three fields of a period in any order (each exactly
//! once), and instants with a lowercase date-time separator or zone,
//! fractional seconds, or an hour:minute offset. A blank file reads as
//! the empty store. Reading back what was written yields the original
//! store: see [`lemma_save_load_roundtrip`].

use vstd::prelude::*;

use crate::dates::{
    civil_from_days, civil_of_day, days_from_civil, days_in_month_x, civil_to_days,
    lemma_civil_of_day, valid_ymd, MAX_DAY, MAX_TS,
};
use crate::numtext::{
    append_four_dec, append_two_dec, dec_digit, digit_of, digit_val, four_dec, is_digit, two_dec,
};
use crate::period::{period_wf, store_wf, Doug, Period, PeriodView};
use crate::settings::Settings;
use crate::DougError;
use vstd::arithmetic::div_mod::{lemma_div_denominator, lemma_fundamental_div_mod};

verus! {

/// The character for one hexadecimal digit (lower case).
pub open spec fn hex_digit(d: int) -> char {
    if d < 10 {
        dec_digit(d)
    } else if d == 10 {
        'a'
    } else if d == 11 {
        'b'
    } else if d == 12 {
        'c'
    } else if d == 13 {
        'd'
    } else if d == 14 {
        'e'
    } else {
        'f'
    }
}

/// The value of a hexadecimal digit character, or -1 for any other
/// character.
pub open spec fn hex_val(c: char) -> int {
    if c == 'a' || c == 'A' {
        10
    } else if c == 'b' || c == 'B' {
        11
    } else if c == 'c' || c == 'C' {
        12
    } else if c == 'd' || c == 'D' {
        13
    } else if c == 'e' || c == 'E' {
        14
    } else if c == 'f' || c == 'F' {
        15
    } else {
        digit_val(c)
    }
}

pub open spec fn is_hex(c: char) -> bool {
    hex_val(c) >= 0
}

/// How one character of a project name is written inside a JSON string:
/// quote and backslash escaped, control characters as `\u00xx`, and
/// everything else as itself.
pub open spec fn esc_char(c: char) -> Seq<char> {
    if c == '"' {
        seq!['\\', '"']
    } else if c == '\\' {
        seq!['\\', '\\']
    } else if (c as u32) < 32 {
        seq!['\\', 'u', '0', '0', hex_digit((c as u32) as int / 16), hex_digit(
            (c as u32) as int % 16,
        )]
    } else {
        seq![c]
    }
}

/// A whole project name written inside a JSON string.
pub open spec fn esc_seq(s: Seq<char>) -> Seq<char>
    decreases s.len(),
{
    if s.len() == 0 {
        Seq::empty()
    } else {
        esc_char(s[0]) + esc_seq(s.skip(1))
    }
}

/// A timestamp written as `YYYY-MM-DDTHH:MM:SSZ`.
#[verifier::opaque]
pub open spec fn ts_text(t: int) -> Seq<char> {
    let z = t / 86400;
    let secs = t % 86400;
    let (y, m, d) = civil_of_day(z);
    four_dec(y) + seq!['-'] + two_dec(m) + seq!['-'] + two_dec(d) + seq!['T'] + two_dec(
        secs / 3600,
    ) + seq![':'] + two_dec((secs / 60) % 60) + seq![':'] + two_dec(secs % 60) + seq!['Z']
}

/// One period written as a JSON object.
#[verifier::opaque]
pub open spec fn item_text(p: PeriodView) -> Seq<char> {
    "{\"project\":\""@ + esc_seq(p.project) + "\",\"start_time\":\""@ + ts_text(p.start_time)
        + "\",\"end_time\":"@ + (match p.end_time {
        Some(e) => seq!['"'] + ts_text(e) + seq!['"'],
        None => "null"@,
    }) + "}"@
}

/// The periods written one after another, separated by commas.
pub open spec fn items_text(ps: Seq<PeriodView>) -> Seq<char>
    decreases ps.len(),
{
    if ps.len() == 0 {
        Seq::empty()
    } else if ps.len() == 1 {
        item_text(ps[0])
    } else {
        item_text(ps[0]) + seq![','] + items_text(ps.skip(1))
    }
}

/// The whole store written as a JSON array.
pub open spec fn store_text(ps: Seq<PeriodView>) -> Seq<char> {
    seq!['['] + items_text(ps) + seq![']']
}

/// Appending one period to a non-empty store appends a comma and the
/// period's text.
proof fn lemma_items_text_snoc(ps: Seq<PeriodView>, p: PeriodView)
    requires
        ps.len() > 0,
    ensures
        items_text(ps.push(p)) == items_text(ps) + seq![','] + item_text(p),
    decreases ps.len(),
{
    if ps.len() == 1 {
        assert(ps.push(p).skip(1) =~= seq![p]);
        assert(items_text(seq![p]) == item_text(p));
        assert(items_text(ps.push(p)) =~= items_text(ps) + seq![','] + item_text(p));
    } else {
        lemma_items_text_snoc(ps.skip(1), p);
        assert(ps.push(p).skip(1) =~= ps.skip(1).push(p));
        assert(items_text(ps.push(p)) =~= items_text(ps) + seq![','] + item_text(p));
    }
}

/// Whether a code point is one a `char` can hold.
pub open spec fn valid_scalar(v: int) -> bool {
    (0 <= v < 0xD800) || (0xE000 <= v <= 0x10FFFF)
}

/// Relies on `char::from_u32`: `Some` exactly for valid scalar values,
/// and the character it returns carries that value.
pub assume_specification [ char::from_u32 ](v: u32) -> (r: Option<char>)
    ensures
        match r {
            Some(c) => (c as u32) == v && valid_scalar(v as int),
            None => !valid_scalar(v as int),
        },
;

/// Consume an expected literal prefix, yielding the remainder.
pub open spec fn d_lit(s: Seq<char>, lit: Seq<char>) -> Option<Seq<char>> {
    if lit.is_prefix_of(s) {
        Some(s.skip(lit.len() as int))
    } else {
        None
    }
}

/// The character a short JSON escape stands for, if the letter is one.
pub open spec fn short_escape(c: char) -> Option<char> {
    if c == '"' || c == '\\' || c == '/' {
        Some(c)
    } else if c == 'b' {
        Some('\u{8}')
    } else if c == 'f' {
        Some('\u{c}')
    } else if c == 'n' {
        Some('\n')
    } else if c == 'r' {
        Some('\r')
    } else if c == 't' {
        Some('\t')
    } else {
        None
    }
}

/// The value of the four hexadecimal digits at `i`.
pub open spec fn hex4(s: Seq<char>, i: int) -> int {
    hex_val(s[i]) * 4096 + hex_val(s[i + 1]) * 256 + hex_val(s[i + 2]) * 16 + hex_val(s[i + 3])
}

pub open spec fn hex4_ok(s: Seq<char>, i: int) -> bool {
    is_hex(s[i]) && is_hex(s[i + 1]) && is_hex(s[i + 2]) && is_hex(s[i + 3])
}

/// Consume the body of a JSON string up to and including its closing
/// quote, yielding the unescaped text and the remainder: the escapes
/// of the JSON grammar, `\uXXXX` units with surrogate pairs combined,
/// and every other character above the control range as itself.
pub open spec fn d_string(s: Seq<char>) -> Option<(Seq<char>, Seq<char>)>
    decreases s.len(),
{
    if s.len() == 0 {
        None
    } else if s[0] == '"' {
        Some((Seq::empty(), s.skip(1)))
    } else if s[0] == '\\' {
        if s.len() < 2 {
            None
        } else if short_escape(s[1]) is Some {
            match d_string(s.skip(2)) {
                Some(tr) => Some((seq![short_escape(s[1])->0] + tr.0, tr.1)),
                None => None,
            }
        } else if s[1] == 'u' {
            if s.len() < 6 || !hex4_ok(s, 2) {
                None
            } else {
                let v = hex4(s, 2);
                if 0xD800 <= v < 0xDC00 {
                    // A high surrogate must pair with a low one.
                    if s.len() < 12 || s[6] != '\\' || s[7] != 'u' || !hex4_ok(s, 8) {
                        None
                    } else {
                        let w = hex4(s, 8);
                        if 0xDC00 <= w < 0xE000 {
                            let code = 0x10000 + (v - 0xD800) * 1024 + (w - 0xDC00);
                            match d_string(s.skip(12)) {
                                Some(tr) => Some(((seq![(code as u32) as char]) + tr.0, tr.1)),
                                None => None,
                            }
                        } else {
                            None
                        }
                    }
                } else if 0xDC00 <= v < 0xE000 {
                    None
                } else {
                    match d_string(s.skip(6)) {
                        Some(tr) => Some(((seq![(v as u32) as char]) + tr.0, tr.1)),
                        None => None,
                    }
                }
            }
        } else {
            None
        }
    } else if (s[0] as u32) >= 32 {
        match d_string(s.skip(1)) {
            Some(tr) => Some((seq![s[0]] + tr.0, tr.1)),
            None => None,
        }
    } else {
        None
    }
}

/// The value of the two decimal digits at `i` and `i + 1`.
pub open spec fn d2v(s: Seq<char>, i: int) -> int {
    digit_val(s[i]) * 10 + digit_val(s[i + 1])
}

/// Whether the first nineteen characters have the shape
/// `YYYY-MM-DDTHH:MM:SS` with digits in the numeric positions.
pub open spec fn ts_shape_ok(s: Seq<char>) -> bool {
    &&& is_digit(s[0]) && is_digit(s[1]) && is_digit(s[2]) && is_digit(s[3])
    &&& s[4] == '-' && is_digit(s[5]) && is_digit(s[6])
    &&& s[7] == '-' && is_digit(s[8]) && is_digit(s[9])
    &&& (s[10] == 'T' || s[10] == 't') && is_digit(s[11]) && is_digit(s[12])
    &&& s[13] == ':' && is_digit(s[14]) && is_digit(s[15])
    &&& s[16] == ':' && is_digit(s[17]) && is_digit(s[18])
}

/// The first position at or after `i` that does not hold a digit.
pub open spec fn frac_end(s: Seq<char>, i: int) -> int
    decreases s.len() - i,
{
    if i < 0 || i >= s.len() {
        s.len() as int
    } else if is_digit(s[i]) {
        frac_end(s, i + 1)
    } else {
        i
    }
}

/// The instant a decoded RFC 3339 text denotes: date and time,
/// optional fractional seconds (read down to whole seconds), and a
/// zone, either `Z` or a signed hour:minute offset. The date must be
/// a valid civil date from 1970 on and the instant representable.
pub open spec fn rfc3339_secs(s: Seq<char>) -> Option<int> {
    if s.len() < 20 || !ts_shape_ok(s) {
        None
    } else {
        let y = d2v(s, 0) * 100 + d2v(s, 2);
        let mo = d2v(s, 5);
        let dd = d2v(s, 8);
        let hh = d2v(s, 11);
        let mi = d2v(s, 14);
        let ss = d2v(s, 17);
        if valid_ymd(y, mo, dd) && hh < 24 && mi < 60 && ss < 60 {
            let base = days_from_civil(y, mo, dd) * 86400 + hh * 3600 + mi * 60 + ss;
            let zi = if s[19] == '.' {
                frac_end(s, 20)
            } else {
                19
            };
            if s[19] == '.' && zi == 20 {
                None
            } else if zi >= s.len() {
                None
            } else if s[zi] == 'Z' || s[zi] == 'z' {
                if zi + 1 == s.len() && 0 <= base <= MAX_TS {
                    Some(base)
                } else {
                    None
                }
            } else if s[zi] == '+' || s[zi] == '-' {
                if s.len() == zi + 6 && is_digit(s[zi + 1]) && is_digit(s[zi + 2]) && s[zi + 3]
                    == ':' && is_digit(s[zi + 4]) && is_digit(s[zi + 5]) {
                    let oh = d2v(s, zi + 1);
                    let om = d2v(s, zi + 4);
                    if oh <= 23 && om <= 59 {
                        let t = if s[zi] == '+' {
                            base - (oh * 3600 + om * 60)
                        } else {
                            base + (oh * 3600 + om * 60)
                        };
                        if 0 <= t <= MAX_TS {
                            Some(t)
                        } else {
                            None
                        }
                    } else {
                        None
                    }
                } else {
                    None
                }
            } else {
                None
            }
        } else {
            None
        }
    }
}

/// JSON whitespace.
pub open spec fn is_ws(c: char) -> bool {
    c == ' ' || c == '\t' || c == '\n' || c == '\r'
}

/// The text with its leading whitespace dropped.
pub open spec fn skip_ws(s: Seq<char>) -> Seq<char>
    decreases s.len(),
{
    if s.len() > 0 && is_ws(s[0]) {
        skip_ws(s.skip(1))
    } else {
        s
    }
}

/// Dropping whitespace never lengthens the text.
proof fn lemma_skip_ws_len(s: Seq<char>)
    ensures
        skip_ws(s).len() <= s.len(),
    decreases s.len(),
{
    if s.len() > 0 && is_ws(s[0]) {
        lemma_skip_ws_len(s.skip(1));
    }
}

/// One member of a JSON object: its key and either `null` or a
/// string's decoded text.
#[verifier::opaque]
pub open spec fn d_member(s: Seq<char>) -> Option<((Seq<char>, Option<Seq<char>>), Seq<char>)> {
    let t = skip_ws(s);
    if t.len() == 0 || t[0] != '"' {
        None
    } else {
        match d_string(t.skip(1)) {
            None => None,
            Some(kr) => {
                let r2 = skip_ws(kr.1);
                if r2.len() == 0 || r2[0] != ':' {
                    None
                } else {
                    let r3 = skip_ws(r2.skip(1));
                    if "null"@.is_prefix_of(r3) {
                        Some(((kr.0, None), r3.skip(4)))
                    } else if r3.len() > 0 && r3[0] == '"' {
                        match d_string(r3.skip(1)) {
                            None => None,
                            Some(vr) => Some(((kr.0, Some(vr.0)), vr.1)),
                        }
                    } else {
                        None
                    }
                }
            },
        }
    }
}

/// One or more comma-separated members; the remainder comes back with
/// its leading whitespace dropped.
pub open spec fn d_members(s: Seq<char>) -> Option<
    (Seq<(Seq<char>, Option<Seq<char>>)>, Seq<char>),
>
    decreases s.len(),
{
    match d_member(s) {
        None => None,
        Some(mr) => {
            let r2 = skip_ws(mr.1);
            if r2.len() > 0 && r2[0] == ',' {
                if r2.len() <= s.len() {
                    match d_members(r2.skip(1)) {
                        None => None,
                        Some(pr) => Some((seq![mr.0] + pr.0, pr.1)),
                    }
                } else {
                    None
                }
            } else {
                Some((seq![mr.0], r2))
            }
        },
    }
}

/// A JSON object, as its member list.
pub open spec fn d_object(s: Seq<char>) -> Option<
    (Seq<(Seq<char>, Option<Seq<char>>)>, Seq<char>),
> {
    let t = skip_ws(s);
    if t.len() == 0 || t[0] != '{' {
        None
    } else {
        let u = skip_ws(t.skip(1));
        if u.len() > 0 && u[0] == '}' {
            Some((Seq::empty(), u.skip(1)))
        } else {
            match d_members(t.skip(1)) {
                None => None,
                Some(mr) => {
                    if mr.1.len() > 0 && mr.1[0] == '}' {
                        Some((mr.0, mr.1.skip(1)))
                    } else {
                        None
                    }
                },
            }
        }
    }
}

/// How many members carry the given key.
pub open spec fn key_count(ms: Seq<(Seq<char>, Option<Seq<char>>)>, name: Seq<char>) -> int
    decreases ms.len(),
{
    if ms.len() == 0 {
        0
    } else {
        key_count(ms.drop_last(), name) + (if ms.last().0 == name {
            1int
        } else {
            0int
        })
    }
}

/// The value of the first member carrying the given key.
pub open spec fn find_key(ms: Seq<(Seq<char>, Option<Seq<char>>)>, name: Seq<char>) -> Option<
    Option<Seq<char>>,
>
    decreases ms.len(),
{
    if ms.len() == 0 {
        None
    } else {
        match find_key(ms.drop_last(), name) {
            Some(v) => Some(v),
            None => if ms.last().0 == name {
                Some(ms.last().1)
            } else {
                None
            },
        }
    }
}

/// The period an object's members describe: exactly the three fields,
/// each once, a non-empty project, and instants in range and in order.
pub open spec fn members_to_period(ms: Seq<(Seq<char>, Option<Seq<char>>)>) -> Option<
    PeriodView,
> {
    if ms.len() == 3 && key_count(ms, "project"@) == 1 && key_count(ms, "start_time"@) == 1
        && key_count(ms, "end_time"@) == 1 {
        match find_key(ms, "project"@) {
            Some(Some(nm)) => {
                if nm.len() == 0 {
                    None
                } else {
                    match find_key(ms, "start_time"@) {
                        Some(Some(st)) => {
                            match rfc3339_secs(st) {
                                Some(t0) => {
                                    match find_key(ms, "end_time"@) {
                                        Some(None) => Some(
                                            PeriodView {
                                                project: nm,
                                                start_time: t0,
                                                end_time: None,
                                            },
                                        ),
                                        Some(Some(et)) => {
                                            match rfc3339_secs(et) {
                                                Some(t1) => if t1 >= t0 {
                                                    Some(
                                                        PeriodView {
                                                            project: nm,
                                                            start_time: t0,
                                                            end_time: Some(t1),
                                                        },
                                                    )
                                                } else {
                                                    None
                                                },
                                                None => None,
                                            }
                                        },
                                        None => None,
                                    }
                                },
                                None => None,
                            }
                        },
                        _ => None,
                    }
                }
            },
            _ => None,
        }
    } else {
        None
    }
}

/// Consume one period object, yielding its value and the remainder.
#[verifier::opaque]
pub open spec fn d_item(s: Seq<char>) -> Option<(PeriodView, Seq<char>)> {
    match d_object(s) {
        None => None,
        Some(mr) => match members_to_period(mr.0) {
            None => None,
            Some(p) => Some((p, mr.1)),
        },
    }
}

/// Consume one or more comma-separated period objects; the remainder
/// comes back with its leading whitespace dropped.
pub open spec fn d_items(s: Seq<char>) -> Option<(Seq<PeriodView>, Seq<char>)>
    decreases s.len(),
{
    match d_item(s) {
        None => None,
        Some(pr) => {
            let r2 = skip_ws(pr.1);
            if r2.len() > 0 && r2[0] == ',' {
                if r2.len() <= s.len() {
                    match d_items(r2.skip(1)) {
                        None => None,
                        Some(qr) => Some((seq![pr.0] + qr.0, qr.1)),
                    }
                } else {
                    None
                }
            } else {
                Some((seq![pr.0], r2))
            }
        },
    }
}

/// Read a whole data file: a blank file is the empty store, and any
/// other text must be one JSON array of period objects describing a
/// well-formed store.
pub open spec fn d_store(s: Seq<char>) -> Option<Seq<PeriodView>> {
    let t = skip_ws(s);
    if t.len() == 0 {
        Some(Seq::empty())
    } else if t[0] != '[' {
        None
    } else {
        let u = skip_ws(t.skip(1));
        if u.len() > 0 && u[0] == ']' {
            if skip_ws(u.skip(1)).len() == 0 {
                Some(Seq::empty())
            } else {
                None
            }
        } else {
            match d_items(t.skip(1)) {
                None => None,
                Some(pr) => {
                    if pr.1.len() > 0 && pr.1[0] == ']' && skip_ws(pr.1.skip(1)).len() == 0
                        && store_wf(pr.0) {
                        Some(pr.0)
                    } else {
                        None
                    }
                },
            }
        }
    }
}

/// Reading a hexadecimal digit back gives the digit's value.
proof fn lemma_hex_roundtrip(d: int)
    requires
        0 <= d < 16,
    ensures
        is_hex(hex_digit(d)),
        hex_val(hex_digit(d)) == d,
{
}

/// Reading an escaped project name back gives the name.
pub proof fn lemma_d_string_round(name: Seq<char>, rest: Seq<char>)
    ensures
        d_string(esc_seq(name) + seq!['"'] + rest) == Some((name, rest)),
    decreases name.len(),
{
    let s = esc_seq(name) + seq!['"'] + rest;
    if name.len() == 0 {
        assert(esc_seq(name) =~= Seq::<char>::empty());
        assert(s =~= seq!['"'] + rest);
        assert(s[0] == '"');
        assert(s.skip(1) =~= rest);
    } else {
        let c = name[0];
        let t = name.skip(1);
        lemma_d_string_round(t, rest);
        assert(esc_seq(name) == esc_char(c) + esc_seq(t));
        let s2 = esc_seq(t) + seq!['"'] + rest;
        assert(seq![c] + t =~= name);
        if c == '"' {
            assert(s =~= seq!['\\', '"'] + s2);
            assert(short_escape(s[1]) == Some(c));
            assert(s.skip(2) =~= s2);
            assert(d_string(s) == Some((seq![c] + t, rest)));
        } else if c == '\\' {
            assert(s =~= seq!['\\', '\\'] + s2);
            assert(short_escape(s[1]) == Some(c));
            assert(s.skip(2) =~= s2);
            assert(d_string(s) == Some((seq![c] + t, rest)));
        } else if (c as u32) < 32 {
            let v = (c as u32) as int;
            assert(s =~= seq!['\\', 'u', '0', '0', hex_digit(v / 16), hex_digit(v % 16)] + s2);
            lemma_hex_roundtrip(v / 16);
            lemma_hex_roundtrip(v % 16);
            lemma_fundamental_div_mod(v, 16);
            assert(short_escape(s[1]) is None);
            assert(hex_val(s[2]) == 0 && hex_val(s[3]) == 0);
            assert(hex4_ok(s, 2));
            assert(hex4(s, 2) == v);
            vstd::utf8::char_u32_cast(c, c as u32);
            assert((v as u32) as char == c);
            assert(s.skip(6) =~= s2);
            assert(d_string(s) == Some((seq![c] + t, rest)));
        } else {
            assert(s[0] == c);
            assert(s.skip(1) =~= s2);
            assert(d_string(s) == Some((seq![c] + t, rest)));
        }
    }
}

/// Text with no quote, backslash or control character: it is written
/// into a JSON string as itself.
pub open spec fn plain_text(s: Seq<char>) -> bool {
    forall|i: int|
        0 <= i < s.len() ==> (#[trigger] s[i]) != '"' && s[i] != '\\' && (s[i] as u32) >= 32
}

/// Plain text escapes to itself.
proof fn lemma_esc_plain(s: Seq<char>)
    requires
        plain_text(s),
    ensures
        esc_seq(s) == s,
    decreases s.len(),
{
    if s.len() > 0 {
        assert forall|i: int|
            0 <= i < s.skip(1).len() implies (#[trigger] s.skip(1)[i]) != '"' && s.skip(1)[i]
            != '\\' && (s.skip(1)[i] as u32) >= 32 by {
            assert(s.skip(1)[i] == s[i + 1]);
        }
        lemma_esc_plain(s.skip(1));
        assert(esc_char(s[0]) =~= seq![s[0]]);
        assert(esc_seq(s) =~= s);
    }
}

/// Reading a plainly-written text back gives the text.
proof fn lemma_d_string_plain(name: Seq<char>, rest: Seq<char>)
    requires
        plain_text(name),
    ensures
        d_string(name + seq!['"'] + rest) == Some((name, rest)),
{
    lemma_esc_plain(name);
    lemma_d_string_round(name, rest);
}

/// The twenty characters of a written timestamp, spelled out.
spec fn ts_chars(y: int, mo: int, dd: int, hh: int, mi: int, ss: int) -> Seq<char> {
    seq![
        dec_digit(y / 100 / 10),
        dec_digit(y / 100 % 10),
        dec_digit(y % 100 / 10),
        dec_digit(y % 100 % 10),
        '-',
        dec_digit(mo / 10),
        dec_digit(mo % 10),
        '-',
        dec_digit(dd / 10),
        dec_digit(dd % 10),
        'T',
        dec_digit(hh / 10),
        dec_digit(hh % 10),
        ':',
        dec_digit(mi / 10),
        dec_digit(mi % 10),
        ':',
        dec_digit(ss / 10),
        dec_digit(ss % 10),
        'Z',
    ]
}

/// Reading a written timestamp back gives the instant; the written
/// form is twenty plain characters.
#[verifier::rlimit(100)]
proof fn lemma_rfc3339_round(t: int)
    requires
        0 <= t <= MAX_TS,
    ensures
        rfc3339_secs(ts_text(t)) == Some(t),
        ts_text(t).len() == 20,
        plain_text(ts_text(t)),
{
    reveal(ts_text);
    let z = t / 86400;
    let secs = t % 86400;
    lemma_fundamental_div_mod(t, 86400);
    assert(0 <= secs < 86400);
    assert(z < MAX_DAY);
    lemma_civil_of_day(z);
    let (y, mo, dd) = civil_of_day(z);
    let hh = secs / 3600;
    let mi = (secs / 60) % 60;
    let ss = secs % 60;
    lemma_fundamental_div_mod(secs, 60);
    lemma_fundamental_div_mod(secs / 60, 60);
    lemma_fundamental_div_mod(secs, 3600);
    lemma_div_denominator(secs, 60, 60);
    assert(hh == (secs / 60) / 60);
    assert(secs == hh * 3600 + mi * 60 + ss);
    assert(hh < 24 && 0 <= hh);
    assert(0 <= mi < 60 && 0 <= ss < 60);
    let u = ts_text(t);
    assert(u =~= ts_chars(y, mo, dd, hh, mi, ss));
    lemma_fundamental_div_mod(y, 100);
    lemma_fundamental_div_mod(y / 100, 10);
    lemma_fundamental_div_mod(y % 100, 10);
    lemma_fundamental_div_mod(mo, 10);
    lemma_fundamental_div_mod(dd, 10);
    lemma_fundamental_div_mod(hh, 10);
    lemma_fundamental_div_mod(mi, 10);
    lemma_fundamental_div_mod(ss, 10);
    assert(0 <= y / 100 / 10 < 10 && 0 <= y / 100 % 10 < 10 && 0 <= y % 100 / 10 < 10 && 0 <= y
        % 100 % 10 < 10);
    assert(ts_shape_ok(u));
    assert(d2v(u, 0) * 100 + d2v(u, 2) == y);
    assert(d2v(u, 5) == mo && d2v(u, 8) == dd);
    assert(d2v(u, 11) == hh && d2v(u, 14) == mi && d2v(u, 17) == ss);
    assert(days_from_civil(y, mo, dd) == z);
    assert(days_from_civil(y, mo, dd) * 86400 + hh * 3600 + mi * 60 + ss == t);
    assert(u[19] == 'Z');
    assert(rfc3339_secs(u) == Some(t));
    assert forall|i: int|
        0 <= i < u.len() implies (#[trigger] u[i]) != '"' && u[i] != '\\' && (u[i] as u32)
        >= 32 by {}
}

/// Concatenation brackets can be moved without changing the text.
proof fn lemma_add_assoc4<A>(a: Seq<A>, b: Seq<A>, c: Seq<A>, d: Seq<A>)
    ensures
        ((a + b) + c) + d == a + ((b + c) + d),
        (a + b) + c == a + (b + c),
{
    assert(((a + b) + c) + d =~= a + ((b + c) + d));
    assert((a + b) + c =~= a + (b + c));
}

/// A written period object is never shorter than its opening literal.
proof fn lemma_item_text_len(p: PeriodView)
    ensures
        item_text(p).len() >= 12,
        item_text(p)[0] == '{',
{
    reveal(item_text);
    reveal_strlit("{\"project\":\"");
}

/// Reading a plainly-keyed member written with a string value gives
/// that member.
#[verifier::rlimit(100)]
proof fn lemma_member_str(key: Seq<char>, val: Seq<char>, rest: Seq<char>)
    requires
        plain_text(key),
    ensures
        d_member(seq!['"'] + key + seq!['"', ':', '"'] + esc_seq(val) + seq!['"'] + rest)
            == Some(((key, Some(val)), rest)),
{
    reveal(d_member);
    let s = seq!['"'] + key + seq!['"', ':', '"'] + esc_seq(val) + seq!['"'] + rest;
    assert(s[0] == '"');
    assert(!is_ws(s[0]));
    assert(skip_ws(s) == s);
    let rest1 = seq![':', '"'] + esc_seq(val) + seq!['"'] + rest;
    assert(s.skip(1) =~= key + seq!['"'] + rest1);
    lemma_d_string_plain(key, rest1);
    assert(d_string(s.skip(1)) == Some((key, rest1)));
    assert(rest1[0] == ':');
    assert(!is_ws(rest1[0]));
    assert(skip_ws(rest1) == rest1);
    let s3 = seq!['"'] + (esc_seq(val) + seq!['"'] + rest);
    assert(rest1.skip(1) =~= s3);
    assert(s3[0] == '"');
    assert(!is_ws(s3[0]));
    assert(skip_ws(rest1.skip(1)) == rest1.skip(1));
    assert(!"null"@.is_prefix_of(rest1.skip(1))) by {
        reveal_strlit("null");
        if "null"@.is_prefix_of(rest1.skip(1)) {
            assert(rest1.skip(1).subrange(0, 4)[0] == rest1.skip(1)[0]);
        }
    }
    assert(s3.skip(1) =~= esc_seq(val) + seq!['"'] + rest);
    lemma_d_string_round(val, rest);
    assert(d_member(s) == Some(((key, Some(val)), rest)));
}

/// Reading a plainly-keyed member written with a `null` value gives
/// that member.
#[verifier::rlimit(100)]
proof fn lemma_member_null(key: Seq<char>, rest: Seq<char>)
    requires
        plain_text(key),
    ensures
        d_member(seq!['"'] + key + seq!['"', ':'] + "null"@ + rest) == Some(
            ((key, None::<Seq<char>>), rest),
        ),
{
    reveal(d_member);
    reveal_strlit("null");
    let s = seq!['"'] + key + seq!['"', ':'] + "null"@ + rest;
    assert(s[0] == '"');
    assert(!is_ws(s[0]));
    assert(skip_ws(s) == s);
    let rest1 = seq![':'] + "null"@ + rest;
    assert(s.skip(1) =~= key + seq!['"'] + rest1);
    lemma_d_string_plain(key, rest1);
    assert(d_string(s.skip(1)) == Some((key, rest1)));
    assert(rest1[0] == ':');
    assert(!is_ws(rest1[0]));
    assert(skip_ws(rest1) == rest1);
    let s3 = "null"@ + rest;
    assert(rest1.skip(1) =~= s3);
    assert(s3[0] == 'n');
    assert(!is_ws(s3[0]));
    assert(skip_ws(rest1.skip(1)) == rest1.skip(1));
    assert("null"@.is_prefix_of(s3)) by {
        assert(s3.subrange(0, 4) =~= "null"@);
    }
    assert(s3.skip(4) =~= rest);
    assert(d_member(s) == Some(((key, None::<Seq<char>>), rest)));
}

/// The three members a period is written as.
spec fn item_members(p: PeriodView) -> Seq<(Seq<char>, Option<Seq<char>>)> {
    seq![
        ("project"@, Some(p.project)),
        ("start_time"@, Some(ts_text(p.start_time))),
        (
            "end_time"@,
            match p.end_time {
                Some(e) => Some(ts_text(e)),
                None => None,
            },
        ),
    ]
}

/// Reading a written period object back gives its three members.
#[verifier::rlimit(100)]
proof fn lemma_object_round(p: PeriodView, rest: Seq<char>)
    requires
        period_wf(p),
    ensures
        d_object(item_text(p) + rest) == Some((item_members(p), rest)),
{
    reveal(item_text);
    reveal_strlit("{\"project\":\"");
    reveal_strlit("\",\"start_time\":\"");
    reveal_strlit("\",\"end_time\":");
    reveal_strlit("null");
    reveal_strlit("}");
    reveal_strlit("project");
    reveal_strlit("start_time");
    reveal_strlit("end_time");
    assert(plain_text("project"@)) by {
        assert forall|i: int|
            0 <= i < ("project"@).len() implies (#[trigger] ("project"@)[i]) != '"'
            && ("project"@)[i] != '\\' && (("project"@)[i] as u32) >= 32 by {}
    }
    assert(plain_text("start_time"@)) by {
        assert forall|i: int|
            0 <= i < ("start_time"@).len() implies (#[trigger] ("start_time"@)[i]) != '"'
            && ("start_time"@)[i] != '\\' && (("start_time"@)[i] as u32) >= 32 by {}
    }
    assert(plain_text("end_time"@)) by {
        assert forall|i: int|
            0 <= i < ("end_time"@).len() implies (#[trigger] ("end_time"@)[i]) != '"'
            && ("end_time"@)[i] != '\\' && (("end_time"@)[i] as u32) >= 32 by {}
    }
    lemma_rfc3339_round(p.start_time);
    lemma_esc_plain(ts_text(p.start_time));
    let nm = p.project;
    let t0 = p.start_time;
    let s = item_text(p) + rest;
    let r3 = seq!['}'] + rest;
    let m3text: Seq<char> = match p.end_time {
        Some(e) => seq!['"'] + "end_time"@ + seq!['"', ':', '"'] + esc_seq(ts_text(e))
            + seq!['"'] + r3,
        None => seq!['"'] + "end_time"@ + seq!['"', ':'] + "null"@ + r3,
    };
    let r2 = seq![','] + m3text;
    let m2text = seq!['"'] + "start_time"@ + seq!['"', ':', '"'] + esc_seq(ts_text(t0))
        + seq!['"'] + r2;
    let r1 = seq![','] + m2text;
    let m1text = seq!['"'] + "project"@ + seq!['"', ':', '"'] + esc_seq(nm) + seq!['"'] + r1;
    match p.end_time {
        Some(e) => {
            lemma_rfc3339_round(e);
            lemma_esc_plain(ts_text(e));
            assert(s =~= seq!['{'] + m1text);
            lemma_member_str("end_time"@, ts_text(e), r3);
        },
        None => {
            assert(s =~= seq!['{'] + m1text);
            lemma_member_null("end_time"@, r3);
        },
    }
    lemma_member_str("start_time"@, ts_text(t0), r2);
    lemma_member_str("project"@, nm, r1);
    // the member list, innermost first
    assert(d_member(m3text) == Some((item_members(p)[2], r3)));
    assert(r3[0] == '}');
    assert(!is_ws(r3[0]));
    assert(skip_ws(r3) == r3);
    assert(d_members(m3text) == Some((seq![item_members(p)[2]], r3)));
    assert(d_member(m2text) == Some((item_members(p)[1], r2)));
    assert(r2[0] == ',');
    assert(!is_ws(r2[0]));
    assert(skip_ws(r2) == r2);
    assert(r2.len() <= m2text.len()) by {
        let a2 = seq!['"'] + "start_time"@ + seq!['"', ':', '"'] + esc_seq(ts_text(t0))
            + seq!['"'];
        assert(m2text =~= a2 + r2);
    }
    assert(r2.skip(1) =~= m3text);
    assert(d_members(m2text) == Some((seq![item_members(p)[1]] + seq![item_members(p)[2]], r3)));
    assert(d_member(m1text) == Some((item_members(p)[0], r1)));
    assert(r1[0] == ',');
    assert(!is_ws(r1[0]));
    assert(skip_ws(r1) == r1);
    assert(r1.len() <= m1text.len()) by {
        let a1 = seq!['"'] + "project"@ + seq!['"', ':', '"'] + esc_seq(nm) + seq!['"'];
        assert(m1text =~= a1 + r1);
    }
    assert(r1.skip(1) =~= m2text);
    assert(d_members(m1text) == Some(
        (seq![item_members(p)[0]] + (seq![item_members(p)[1]] + seq![item_members(p)[2]]), r3),
    ));
    assert(seq![item_members(p)[0]] + (seq![item_members(p)[1]] + seq![item_members(p)[2]])
        =~= item_members(p));
    // the object around the members
    assert(s[0] == '{');
    assert(!is_ws(s[0]));
    assert(skip_ws(s) == s);
    assert(s.skip(1) =~= m1text);
    assert(m1text[0] == '"');
    assert(!is_ws(m1text[0]));
    assert(skip_ws(s.skip(1)) == s.skip(1));
    assert(r3.skip(1) =~= rest);
    assert(d_object(s) == Some((item_members(p), rest)));
}

/// A written period's members describe exactly that period.
#[verifier::rlimit(100)]
proof fn lemma_item_fields(p: PeriodView)
    requires
        period_wf(p),
    ensures
        members_to_period(item_members(p)) == Some(p),
{
    reveal_strlit("project");
    reveal_strlit("start_time");
    reveal_strlit("end_time");
    reveal_with_fuel(key_count, 5);
    reveal_with_fuel(find_key, 5);
    let ms = item_members(p);
    let ms2 = ms.drop_last();
    let ms1 = ms2.drop_last();
    assert(ms1.drop_last() =~= Seq::<(Seq<char>, Option<Seq<char>>)>::empty());
    assert(ms1 =~= seq![ms[0]]);
    assert(ms2 =~= seq![ms[0], ms[1]]);
    assert(("project"@).len() == 7);
    assert(("start_time"@).len() == 10);
    assert(("end_time"@).len() == 8);
    assert(key_count(ms, "project"@) == 1);
    assert(key_count(ms, "start_time"@) == 1);
    assert(key_count(ms, "end_time"@) == 1);
    assert(find_key(ms, "project"@) == Some(Some(p.project)));
    assert(find_key(ms, "start_time"@) == Some(Some(ts_text(p.start_time))));
    lemma_rfc3339_round(p.start_time);
    match p.end_time {
        Some(e) => {
            lemma_rfc3339_round(e);
            assert(find_key(ms, "end_time"@) == Some(Some(ts_text(e))));
        },
        None => {
            assert(find_key(ms, "end_time"@) == Some(None::<Seq<char>>));
        },
    }
    assert(members_to_period(ms) == Some(p));
}

/// Reading a written period object back gives the period.
proof fn lemma_d_item_round(p: PeriodView, rest: Seq<char>)
    requires
        period_wf(p),
    ensures
        d_item(item_text(p) + rest) == Some((p, rest)),
{
    reveal(d_item);
    lemma_object_round(p, rest);
    lemma_item_fields(p);
}

/// One period followed by a comma begins a longer period list.
proof fn lemma_d_items_step_comma(s: Seq<char>, p: PeriodView, r: Seq<char>)
    requires
        d_item(s) == Some((p, r)),
        skip_ws(r).len() > 0,
        skip_ws(r)[0] == ',',
        skip_ws(r).len() <= s.len(),
    ensures
        match d_items(skip_ws(r).skip(1)) {
            Some(pr) => d_items(s) == Some((seq![p] + pr.0, pr.1)),
            None => d_items(s) is None,
        },
{
}

/// A period not followed by a comma ends the period list.
proof fn lemma_d_items_last(s: Seq<char>, p: PeriodView, r: Seq<char>)
    requires
        d_item(s) == Some((p, r)),
        !(skip_ws(r).len() > 0 && skip_ws(r)[0] == ','),
    ensures
        d_items(s) == Some((seq![p], skip_ws(r))),
{
}

/// Where no period can be read, no period list can either.
proof fn lemma_d_items_none(s: Seq<char>)
    requires
        d_item(s) is None,
    ensures
        d_items(s) is None,
{
}

/// Reading written period objects back gives the periods, stopping at
/// the closing bracket.
#[verifier::rlimit(100)]
proof fn lemma_d_items_round(ps: Seq<PeriodView>, tail: Seq<char>)
    requires
        ps.len() > 0,
        forall|i: int| 0 <= i < ps.len() ==> period_wf(#[trigger] ps[i]),
        tail.len() > 0,
        tail[0] == ']',
    ensures
        d_items(items_text(ps) + tail) == Some((ps, tail)),
    decreases ps.len(),
{
    let s = items_text(ps) + tail;
    if ps.len() == 1 {
        lemma_d_item_round(ps[0], tail);
        assert(s == item_text(ps[0]) + tail);
        assert(!is_ws(tail[0]));
        assert(skip_ws(tail) == tail);
        lemma_d_items_last(s, ps[0], tail);
        assert(seq![ps[0]] =~= ps);
    } else {
        let r = seq![','] + items_text(ps.skip(1)) + tail;
        lemma_add_assoc4(item_text(ps[0]), seq![','], items_text(ps.skip(1)), tail);
        assert(s == item_text(ps[0]) + r);
        lemma_d_item_round(ps[0], r);
        assert(d_item(s) == Some((ps[0], r)));
        assert(r[0] == ',');
        assert(!is_ws(r[0]));
        assert(skip_ws(r) == r);
        assert(r.len() <= s.len()) by {
            lemma_item_text_len(ps[0]);
        }
        lemma_d_items_step_comma(s, ps[0], r);
        assert((seq![','] + (items_text(ps.skip(1)) + tail)).skip(1) =~= items_text(ps.skip(1))
            + tail);
        assert(r.skip(1) == items_text(ps.skip(1)) + tail) by {
            assert(r =~= seq![','] + (items_text(ps.skip(1)) + tail));
        }
        lemma_d_items_round(ps.skip(1), tail);
        assert(d_items(r.skip(1)) == Some((ps.skip(1), tail)));
        assert(seq![ps[0]] + ps.skip(1) =~= ps);
        assert(d_items(s) == Some((ps, tail)));
    }
}

/// Law: reading a written store back gives the same store — `save`
/// followed by `load` is the identity on well-formed stores.
#[verifier::rlimit(100)]
pub proof fn lemma_save_load_roundtrip(ps: Seq<PeriodView>)
    requires
        store_wf(ps),
    ensures
        d_store(store_text(ps)) == Some(ps),
{
    let s = store_text(ps);
    assert(s[0] == '[');
    assert(!is_ws(s[0]));
    assert(skip_ws(s) == s);
    assert(s.len() > 0);
    if ps.len() == 0 {
        assert(items_text(ps) =~= Seq::<char>::empty());
        assert(s =~= seq!['[', ']']);
        assert(s.skip(1) =~= seq![']']);
        assert(!is_ws(s.skip(1)[0]));
        assert(skip_ws(s.skip(1)) == s.skip(1));
        assert(s.skip(1).skip(1) =~= Seq::<char>::empty());
        assert(skip_ws(s.skip(1).skip(1)).len() == 0);
        assert(d_store(s) == Some(Seq::<PeriodView>::empty()));
        assert(ps =~= Seq::<PeriodView>::empty());
    } else {
        lemma_item_text_len(ps[0]);
        let s1 = items_text(ps) + seq![']'];
        assert(s =~= seq!['['] + s1);
        assert(s.skip(1) =~= s1);
        assert(s1[0] == item_text(ps[0])[0]);
        assert(s1[0] == '{');
        assert(!is_ws(s1[0]));
        assert(skip_ws(s.skip(1)) == s.skip(1));
        lemma_d_items_round(ps, seq![']']);
        assert(d_items(s1) == Some((ps, seq![']'])));
        assert((seq![']']).skip(1) =~= Seq::<char>::empty());
        assert(skip_ws((seq![']']).skip(1)).len() == 0);
        assert(d_store(s) == Some(ps));
    }
}

/// Append one hexadecimal digit character.
fn push_hex(s: &mut String, d: u32)
    requires
        d < 16,
    ensures
        final(s)@ == old(s)@.push(hex_digit(d as int)),
{
    let ghost start = s@;
    if d < 10 {
        crate::numtext::push_digit(s, d as u64);
    } else if d == 10 {
        proof {
            reveal_strlit("a");
        }
        s.append("a");
    } else if d == 11 {
        proof {
            reveal_strlit("b");
        }
        s.append("b");
    } else if d == 12 {
        proof {
            reveal_strlit("c");
        }
        s.append("c");
    } else if d == 13 {
        proof {
            reveal_strlit("d");
        }
        s.append("d");
    } else if d == 14 {
        proof {
            reveal_strlit("e");
        }
        s.append("e");
    } else {
        proof {
            reveal_strlit("f");
        }
        s.append("f");
    }
    assert(s@ =~= start.push(hex_digit(d as int)));
}

/// Escaping one more character appends that character's escape.
proof fn lemma_esc_seq_snoc(s: Seq<char>, c: char)
    ensures
        esc_seq(s.push(c)) == esc_seq(s) + esc_char(c),
    decreases s.len(),
{
    if s.len() == 0 {
        assert(s.push(c)[0] == c);
        assert(s.push(c).skip(1) =~= Seq::<char>::empty());
        assert(esc_seq(Seq::<char>::empty()) =~= Seq::<char>::empty());
        assert(esc_seq(s.push(c)) =~= esc_seq(s) + esc_char(c));
    } else {
        lemma_esc_seq_snoc(s.skip(1), c);
        assert(s.push(c).skip(1) =~= s.skip(1).push(c));
        assert(s.push(c)[0] == s[0]);
        assert(esc_seq(s.push(c)) == esc_char(s[0]) + esc_seq(s.skip(1).push(c)));
        assert(esc_seq(s.push(c)) == esc_char(s[0]) + (esc_seq(s.skip(1)) + esc_char(c)));
        assert(esc_seq(s) == esc_char(s[0]) + esc_seq(s.skip(1)));
        assert(esc_seq(s.push(c)) =~= esc_seq(s) + esc_char(c));
    }
}

/// Append a project name in its escaped form.
fn append_escaped(s: &mut String, name: &str)
    ensures
        final(s)@ == old(s)@ + esc_seq(name@),
{
    let n = name.unicode_len();
    let mut i: usize = 0;
    proof {
        assert(name@.subrange(0, 0) =~= Seq::<char>::empty());
        assert(esc_seq(name@.subrange(0, 0)) =~= Seq::<char>::empty());
        assert(s@ =~= s@ + esc_seq(name@.subrange(0, 0)));
    }
    while i < n
        invariant
            i <= n,
            n == name@.len(),
            s@ == old(s)@ + esc_seq(name@.subrange(0, i as int)),
        decreases n - i,
    {
        let ghost pre = s@;
        let c = name.get_char(i);
        if c == '"' {
            proof {
                reveal_strlit("\\\"");
            }
            s.append("\\\"");
            assert(s@ =~= pre + esc_char(c));
        } else if c == '\\' {
            proof {
                reveal_strlit("\\\\");
            }
            s.append("\\\\");
            assert(s@ =~= pre + esc_char(c));
        } else if (c as u32) < 32 {
            proof {
                reveal_strlit("\\u00");
            }
            s.append("\\u00");
            push_hex(s, (c as u32) / 16);
            push_hex(s, (c as u32) % 16);
            assert(s@ =~= pre + esc_char(c));
        } else {
            let piece = name.substring_char(i, i + 1);
            s.append(piece);
            assert(piece@ =~= seq![c]);
            assert(s@ =~= pre + esc_char(c));
        }
        proof {
            lemma_esc_seq_snoc(name@.subrange(0, i as int), c);
            assert(name@.subrange(0, i as int + 1) =~= name@.subrange(0, i as int).push(c));
            assert(s@ =~= old(s)@ + esc_seq(name@.subrange(0, i as int + 1)));
        }
        i = i + 1;
    }
    proof {
        assert(name@.subrange(0, n as int) =~= name@);
    }
}

/// Append a timestamp as `YYYY-MM-DDTHH:MM:SSZ`.
fn append_ts(s: &mut String, t: i64)
    requires
        0 <= t <= MAX_TS,
    ensures
        final(s)@ == old(s)@ + ts_text(t as int),
{
    proof {
        reveal(ts_text);
    }
    let tu = t as u64;
    let z = tu / 86400;
    let secs = tu % 86400;
    proof {
        lemma_fundamental_div_mod(tu as int, 86400);
    }
    let (y, m, d) = civil_from_days(z);
    append_four_dec(s, y);
    proof {
        reveal_strlit("-");
        reveal_strlit("T");
        reveal_strlit(":");
        reveal_strlit("Z");
    }
    s.append("-");
    append_two_dec(s, m);
    s.append("-");
    append_two_dec(s, d);
    s.append("T");
    append_two_dec(s, secs / 3600);
    s.append(":");
    append_two_dec(s, (secs / 60) % 60);
    s.append(":");
    append_two_dec(s, secs % 60);
    s.append("Z");
    assert(s@ =~= old(s)@ + ts_text(t as int));
}

/// Append one period as a JSON object.
fn append_item(s: &mut String, p: &Period)
    requires
        period_wf(p@),
    ensures
        final(s)@ == old(s)@ + item_text(p@),
{
    proof {
        reveal(item_text);
        reveal_strlit("{\"project\":\"");
        reveal_strlit("\",\"start_time\":\"");
        reveal_strlit("\",\"end_time\":");
        reveal_strlit("null");
        reveal_strlit("\"");
        reveal_strlit("}");
    }
    s.append("{\"project\":\"");
    append_escaped(s, p.project.as_str());
    s.append("\",\"start_time\":\"");
    append_ts(s, p.start_time);
    s.append("\",\"end_time\":");
    match p.end_time {
        Some(e) => {
            s.append("\"");
            append_ts(s, e);
            s.append("\"");
        },
        None => {
            s.append("null");
        },
    }
    s.append("}");
    assert(s@ =~= old(s)@ + item_text(p@));
}

/// The value of a hexadecimal digit character, executable form.
fn hex_of(c: char) -> (r: Option<u32>)
    ensures
        match r {
            Some(v) => is_hex(c) && v == hex_val(c) && v < 16,
            None => !is_hex(c),
        },
{
    if c == 'a' || c == 'A' {
        Some(10)
    } else if c == 'b' || c == 'B' {
        Some(11)
    } else if c == 'c' || c == 'C' {
        Some(12)
    } else if c == 'd' || c == 'D' {
        Some(13)
    } else if c == 'e' || c == 'E' {
        Some(14)
    } else if c == 'f' || c == 'F' {
        Some(15)
    } else {
        match digit_of(c) {
            Some(v) => Some(v as u32),
            None => None,
        }
    }
}

/// Check for the literal `lit` at position `i` of `s`, yielding the
/// position just past it.
fn p_lit(s: &str, n: usize, i: usize, lit: &str) -> (r: Option<usize>)
    requires
        i <= n,
        n == s@.len(),
    ensures
        match r {
            Some(j) => i <= j <= n && j - i == lit@.len() && d_lit(s@.skip(i as int), lit@)
                == Some(s@.skip(j as int)),
            None => d_lit(s@.skip(i as int), lit@) is None,
        },
{
    let m = lit.unicode_len();
    if n - i < m {
        proof {
            assert(s@.skip(i as int).len() < lit@.len());
        }
        return None;
    }
    let mut k: usize = 0;
    while k < m
        invariant
            k <= m,
            i + m <= n,
            n == s@.len(),
            m == lit@.len(),
            forall|q: int| 0 <= q < k ==> s@[i + q] == lit@[q],
        decreases m - k,
    {
        let a = s.get_char(i + k);
        let b = lit.get_char(k);
        if a != b {
            proof {
                if lit@.is_prefix_of(s@.skip(i as int)) {
                    assert(s@.skip(i as int).subrange(0, m as int)[k as int] == lit@[k as int]);
                    assert(s@.skip(i as int)[k as int] == s@[i + k]);
                }
            }
            return None;
        }
        k = k + 1;
    }
    proof {
        assert(s@.skip(i as int).subrange(0, m as int) =~= lit@);
        assert(lit@.is_prefix_of(s@.skip(i as int)));
        assert(s@.skip(i as int).skip(m as int) =~= s@.skip(i as int + m as int));
    }
    Some(i + m)
}

/// Advance past JSON whitespace.
fn p_skip_ws(s: &str, n: usize, i: usize) -> (j: usize)
    requires
        i <= n,
        n == s@.len(),
    ensures
        i <= j <= n,
        s@.skip(j as int) == skip_ws(s@.skip(i as int)),
{
    let mut j: usize = i;
    loop
        invariant
            i <= j <= n,
            n == s@.len(),
            skip_ws(s@.skip(i as int)) == skip_ws(s@.skip(j as int)),
        decreases n - j,
    {
        if j >= n {
            proof {
                assert(s@.skip(j as int).len() == 0);
                assert(skip_ws(s@.skip(j as int)) == s@.skip(j as int));
            }
            return j;
        }
        let c = s.get_char(j);
        proof {
            assert(s@.skip(j as int)[0] == s@[j as int]);
        }
        if c == ' ' || c == '\t' || c == '\n' || c == '\r' {
            proof {
                assert(s@.skip(j as int).skip(1) =~= s@.skip(j as int + 1));
            }
            j = j + 1;
        } else {
            proof {
                assert(skip_ws(s@.skip(j as int)) == s@.skip(j as int));
            }
            return j;
        }
    }
}

/// Read two decimal digits at `i`, yielding their value.
fn read2(s: &str, n: usize, i: usize) -> (r: Option<u64>)
    requires
        i + 2 <= n,
        n == s@.len(),
    ensures
        match r {
            Some(v) => is_digit(s@[i as int]) && is_digit(s@[i as int + 1]) && v == digit_val(
                s@[i as int],
            ) * 10 + digit_val(s@[i as int + 1]) && v < 100,
            None => !(is_digit(s@[i as int]) && is_digit(s@[i as int + 1])),
        },
{
    let a = digit_of(s.get_char(i));
    let b = digit_of(s.get_char(i + 1));
    match (a, b) {
        (Some(x), Some(y)) => Some(x * 10 + y),
        _ => None,
    }
}

/// Read the body of a JSON string starting at `i`, yielding the
/// unescaped text and the position just past the closing quote.
fn p_string(s: &str, n: usize, i: usize) -> (r: Option<(String, usize)>)
    requires
        i <= n,
        n == s@.len(),
    ensures
        match r {
            Some(oj) => i < oj.1 <= n && d_string(s@.skip(i as int)) == Some(
                (oj.0@, s@.skip(oj.1 as int)),
            ),
            None => d_string(s@.skip(i as int)) is None,
        },
{
    let mut out = String::new();
    let mut k: usize = i;
    loop
        invariant
            i <= k <= n,
            n == s@.len(),
            match d_string(s@.skip(k as int)) {
                Some(tr) => d_string(s@.skip(i as int)) == Some((out@ + tr.0, tr.1)),
                None => d_string(s@.skip(i as int)) is None,
            },
        decreases n - k,
    {
        if k >= n {
            proof {
                assert(s@.skip(k as int).len() == 0);
            }
            return None;
        }
        let c = s.get_char(k);
        proof {
            assert(s@.skip(k as int)[0] == s@[k as int]);
        }
        if c == '"' {
            proof {
                assert(s@.skip(k as int).skip(1) =~= s@.skip(k as int + 1));
                assert(d_string(s@.skip(k as int)) == Some(
                    (Seq::<char>::empty(), s@.skip(k as int + 1)),
                ));
                assert(out@ + Seq::<char>::empty() =~= out@);
            }
            return Some((out, k + 1));
        } else if c == '\\' {
            if n - k < 2 {
                proof {
                    assert(s@.skip(k as int).len() < 2);
                }
                return None;
            }
            let c2 = s.get_char(k + 1);
            proof {
                assert(s@.skip(k as int)[1] == s@[k as int + 1]);
            }
            let short: Option<char> = if c2 == '"' || c2 == '\\' || c2 == '/' {
                Some(c2)
            } else if c2 == 'b' {
                Some('\u{8}')
            } else if c2 == 'f' {
                Some('\u{c}')
            } else if c2 == 'n' {
                Some('\n')
            } else if c2 == 'r' {
                Some('\r')
            } else if c2 == 't' {
                Some('\t')
            } else {
                None
            };
            if let Some(sc) = short {
                let ghost pre = out@;
                out.push(sc);
                proof {
                    let a = s@.skip(k as int);
                    let b = s@.skip(k as int + 2);
                    assert(a.skip(2) =~= b);
                    assert(short_escape(a[1]) == Some(sc));
                    match d_string(b) {
                        Some(tr) => {
                            assert(d_string(a) == Some((seq![sc] + tr.0, tr.1)));
                            assert(pre + (seq![sc] + tr.0) =~= out@ + tr.0);
                        },
                        None => {
                            assert(d_string(a) is None);
                        },
                    }
                }
                k = k + 2;
            } else if c2 == 'u' {
                if n - k < 6 {
                    proof {
                        assert(s@.skip(k as int).len() < 6);
                    }
                    return None;
                }
                proof {
                    let a = s@.skip(k as int);
                    assert(a[2] == s@[k as int + 2]);
                    assert(a[3] == s@[k as int + 3]);
                    assert(a[4] == s@[k as int + 4]);
                    assert(a[5] == s@[k as int + 5]);
                }
                let h0 = match hex_of(s.get_char(k + 2)) {
                    Some(h) => h,
                    None => {
                        return None;
                    },
                };
                let h1 = match hex_of(s.get_char(k + 3)) {
                    Some(h) => h,
                    None => {
                        return None;
                    },
                };
                let h2 = match hex_of(s.get_char(k + 4)) {
                    Some(h) => h,
                    None => {
                        return None;
                    },
                };
                let h3 = match hex_of(s.get_char(k + 5)) {
                    Some(h) => h,
                    None => {
                        return None;
                    },
                };
                let v: u32 = h0 * 4096 + h1 * 256 + h2 * 16 + h3;
                proof {
                    let a = s@.skip(k as int);
                    assert(hex4_ok(a, 2));
                    assert(hex4(a, 2) == v);
                }
                if 0xD800 <= v && v < 0xDC00 {
                    if n - k < 12 {
                        proof {
                            assert(s@.skip(k as int).len() < 12);
                        }
                        return None;
                    }
                    proof {
                        let a = s@.skip(k as int);
                        assert(a[6] == s@[k as int + 6]);
                        assert(a[7] == s@[k as int + 7]);
                        assert(a[8] == s@[k as int + 8]);
                        assert(a[9] == s@[k as int + 9]);
                        assert(a[10] == s@[k as int + 10]);
                        assert(a[11] == s@[k as int + 11]);
                    }
                    if s.get_char(k + 6) != '\\' || s.get_char(k + 7) != 'u' {
                        return None;
                    }
                    let g0 = match hex_of(s.get_char(k + 8)) {
                        Some(h) => h,
                        None => {
                            return None;
                        },
                    };
                    let g1 = match hex_of(s.get_char(k + 9)) {
                        Some(h) => h,
                        None => {
                            return None;
                        },
                    };
                    let g2 = match hex_of(s.get_char(k + 10)) {
                        Some(h) => h,
                        None => {
                            return None;
                        },
                    };
                    let g3 = match hex_of(s.get_char(k + 11)) {
                        Some(h) => h,
                        None => {
                            return None;
                        },
                    };
                    let w: u32 = g0 * 4096 + g1 * 256 + g2 * 16 + g3;
                    proof {
                        let a = s@.skip(k as int);
                        assert(hex4_ok(a, 8));
                        assert(hex4(a, 8) == w);
                    }
                    if !(0xDC00 <= w && w < 0xE000) {
                        return None;
                    }
                    let code: u32 = 0x10000 + (v - 0xD800) * 1024 + (w - 0xDC00);
                    proof {
                        assert(valid_scalar(code as int));
                    }
                    let ch = char::from_u32(code).unwrap();
                    let ghost pre = out@;
                    out.push(ch);
                    proof {
                        let a = s@.skip(k as int);
                        let b = s@.skip(k as int + 12);
                        assert(a.skip(12) =~= b);
                        vstd::utf8::char_u32_cast(ch, code);
                        assert(((0x10000 + (hex4(a, 2) - 0xD800) * 1024 + (hex4(a, 8)
                            - 0xDC00)) as u32) as char == ch);
                        match d_string(b) {
                            Some(tr) => {
                                assert(d_string(a) == Some((seq![ch] + tr.0, tr.1)));
                                assert(pre + (seq![ch] + tr.0) =~= out@ + tr.0);
                            },
                            None => {
                                assert(d_string(a) is None);
                            },
                        }
                    }
                    k = k + 12;
                } else if 0xDC00 <= v && v < 0xE000 {
                    return None;
                } else {
                    proof {
                        assert(valid_scalar(v as int));
                    }
                    let ch = char::from_u32(v).unwrap();
                    let ghost pre = out@;
                    out.push(ch);
                    proof {
                        let a = s@.skip(k as int);
                        let b = s@.skip(k as int + 6);
                        assert(a.skip(6) =~= b);
                        vstd::utf8::char_u32_cast(ch, v);
                        assert((hex4(a, 2) as u32) as char == ch);
                        match d_string(b) {
                            Some(tr) => {
                                assert(d_string(a) == Some((seq![ch] + tr.0, tr.1)));
                                assert(pre + (seq![ch] + tr.0) =~= out@ + tr.0);
                            },
                            None => {
                                assert(d_string(a) is None);
                            },
                        }
                    }
                    k = k + 6;
                }
            } else {
                return None;
            }
        } else if (c as u32) >= 32 {
            let ghost pre = out@;
            let piece = s.substring_char(k, k + 1);
            out.append(piece);
            proof {
                let a = s@.skip(k as int);
                let b = s@.skip(k as int + 1);
                assert(a.skip(1) =~= b);
                assert(piece@ =~= seq![c]);
                assert(out@ =~= pre.push(c));
                match d_string(b) {
                    Some(tr) => {
                        assert(d_string(a) == Some((seq![c] + tr.0, tr.1)));
                        assert(pre + (seq![c] + tr.0) =~= out@ + tr.0);
                    },
                    None => {
                        assert(d_string(a) is None);
                    },
                }
            }
            k = k + 1;
        } else {
            return None;
        }
    }
}

/// Read a whole decoded text as an RFC 3339 instant.
#[verifier::rlimit(100)]
fn p_rfc3339(s: &str) -> (r: Option<i64>)
    ensures
        match r {
            Some(t) => 0 <= t <= MAX_TS && rfc3339_secs(s@) == Some(t as int),
            None => rfc3339_secs(s@) is None,
        },
{
    let n = s.unicode_len();
    if n < 20 {
        return None;
    }
    let p4 = s.get_char(4);
    let p7 = s.get_char(7);
    let p10 = s.get_char(10);
    let p13 = s.get_char(13);
    let p16 = s.get_char(16);
    if p4 != '-' || p7 != '-' || (p10 != 'T' && p10 != 't') || p13 != ':' || p16 != ':' {
        return None;
    }
    let v01 = match read2(s, n, 0) {
        Some(v) => v,
        None => {
            return None;
        },
    };
    let v23 = match read2(s, n, 2) {
        Some(v) => v,
        None => {
            return None;
        },
    };
    let mo = match read2(s, n, 5) {
        Some(v) => v,
        None => {
            return None;
        },
    };
    let dd = match read2(s, n, 8) {
        Some(v) => v,
        None => {
            return None;
        },
    };
    let hh = match read2(s, n, 11) {
        Some(v) => v,
        None => {
            return None;
        },
    };
    let mi = match read2(s, n, 14) {
        Some(v) => v,
        None => {
            return None;
        },
    };
    let ss = match read2(s, n, 17) {
        Some(v) => v,
        None => {
            return None;
        },
    };
    let y = v01 * 100 + v23;
    proof {
        assert(ts_shape_ok(s@));
        assert(d2v(s@, 0) * 100 + d2v(s@, 2) == y);
        assert(d2v(s@, 5) == mo && d2v(s@, 8) == dd);
        assert(d2v(s@, 11) == hh && d2v(s@, 14) == mi && d2v(s@, 17) == ss);
    }
    if y < 1970 || y > 9999 || mo < 1 || mo > 12 {
        return None;
    }
    if dd < 1 || dd > days_in_month_x(y, mo) {
        return None;
    }
    if hh > 23 || mi > 59 || ss > 59 {
        return None;
    }
    let base = civil_to_days(y, mo, dd) * 86400 + hh * 3600 + mi * 60 + ss;
    let c19 = s.get_char(19);
    let zi: usize = if c19 == '.' {
        let mut j: usize = 20;
        while j < n && digit_of(s.get_char(j)).is_some()
            invariant
                20 <= j <= n,
                n == s@.len(),
                frac_end(s@, 20) == frac_end(s@, j as int),
            decreases n - j,
        {
            j = j + 1;
        }
        proof {
            if j == n {
                assert(frac_end(s@, j as int) == n);
            } else {
                assert(frac_end(s@, j as int) == j);
            }
        }
        if j == 20 {
            return None;
        }
        j
    } else {
        19
    };
    if zi >= n {
        return None;
    }
    let cz = s.get_char(zi);
    if cz == 'Z' || cz == 'z' {
        if zi + 1 == n && base <= MAX_TS as u64 {
            return Some(base as i64);
        }
        if zi + 1 == n {
            return None;
        }
        return None;
    }
    if cz == '+' || cz == '-' {
        if n - zi != 6 {
            return None;
        }
        let pc = s.get_char(zi + 3);
        if pc != ':' {
            return None;
        }
        let oh = match read2(s, n, zi + 1) {
            Some(v) => v,
            None => {
                return None;
            },
        };
        let om = match read2(s, n, zi + 4) {
            Some(v) => v,
            None => {
                return None;
            },
        };
        if oh > 23 || om > 59 {
            return None;
        }
        let off = (oh * 3600 + om * 60) as i64;
        let t: i64 = if cz == '+' {
            (base as i64) - off
        } else {
            (base as i64) + off
        };
        if 0 <= t && t <= MAX_TS {
            return Some(t);
        }
        return None;
    }
    None
}

/// The mathematical value of one parsed member.
pub open spec fn member_view(m: (String, Option<String>)) -> (Seq<char>, Option<Seq<char>>) {
    (
        m.0@,
        match m.1 {
            Some(v) => Some(v@),
            None => None,
        },
    )
}

/// The mathematical value of a parsed member list.
pub open spec fn members_view(v: Seq<(String, Option<String>)>) -> Seq<
    (Seq<char>, Option<Seq<char>>),
> {
    v.map_values(|m: (String, Option<String>)| member_view(m))
}

/// Read one object member at `i`.
fn p_member(s: &str, n: usize, i: usize) -> (r: Option<((String, Option<String>), usize)>)
    requires
        i <= n,
        n == s@.len(),
    ensures
        match r {
            Some(mj) => i < mj.1 <= n && d_member(s@.skip(i as int)) == Some(
                (member_view(mj.0), s@.skip(mj.1 as int)),
            ),
            None => d_member(s@.skip(i as int)) is None,
        },
{
    proof {
        reveal(d_member);
    }
    let t = p_skip_ws(s, n, i);
    if t >= n {
        proof {
            assert(skip_ws(s@.skip(i as int)).len() == 0);
        }
        return None;
    }
    proof {
        assert(s@.skip(t as int)[0] == s@[t as int]);
    }
    if s.get_char(t) != '"' {
        return None;
    }
    proof {
        assert(s@.skip(t as int).skip(1) =~= s@.skip(t as int + 1));
    }
    let key_j1 = match p_string(s, n, t + 1) {
        Some(x) => x,
        None => {
            return None;
        },
    };
    let key = key_j1.0;
    let j1 = key_j1.1;
    let j2 = p_skip_ws(s, n, j1);
    if j2 >= n {
        proof {
            assert(skip_ws(s@.skip(j1 as int)).len() == 0);
        }
        return None;
    }
    proof {
        assert(s@.skip(j2 as int)[0] == s@[j2 as int]);
    }
    if s.get_char(j2) != ':' {
        return None;
    }
    proof {
        assert(s@.skip(j2 as int).skip(1) =~= s@.skip(j2 as int + 1));
    }
    let j3 = p_skip_ws(s, n, j2 + 1);
    match p_lit(s, n, j3, "null") {
        Some(j4) => {
            proof {
                reveal_strlit("null");
                assert(s@.skip(j3 as int).skip(4) =~= s@.skip(j4 as int));
            }
            Some(((key, None), j4))
        },
        None => {
            if j3 >= n {
                proof {
                    assert(skip_ws(s@.skip(j2 as int + 1)).len() == 0);
                }
                return None;
            }
            proof {
                assert(s@.skip(j3 as int)[0] == s@[j3 as int]);
            }
            if s.get_char(j3) != '"' {
                return None;
            }
            proof {
                assert(s@.skip(j3 as int).skip(1) =~= s@.skip(j3 as int + 1));
            }
            let v_j4 = match p_string(s, n, j3 + 1) {
                Some(x) => x,
                None => {
                    return None;
                },
            };
            Some(((key, Some(v_j4.0)), v_j4.1))
        },
    }
}

/// Read one JSON object at `i`, as its member list.
fn p_object(s: &str, n: usize, i: usize) -> (r: Option<(Vec<(String, Option<String>)>, usize)>)
    requires
        i <= n,
        n == s@.len(),
    ensures
        match r {
            Some(vj) => i < vj.1 <= n && d_object(s@.skip(i as int)) == Some(
                (members_view(vj.0@), s@.skip(vj.1 as int)),
            ),
            None => d_object(s@.skip(i as int)) is None,
        },
{
    let t = p_skip_ws(s, n, i);
    if t >= n {
        proof {
            assert(skip_ws(s@.skip(i as int)).len() == 0);
        }
        return None;
    }
    proof {
        assert(s@.skip(t as int)[0] == s@[t as int]);
    }
    if s.get_char(t) != '{' {
        return None;
    }
    proof {
        assert(s@.skip(t as int).skip(1) =~= s@.skip(t as int + 1));
    }
    let u = p_skip_ws(s, n, t + 1);
    if u < n && s.get_char(u) == '}' {
        proof {
            assert(s@.skip(u as int)[0] == s@[u as int]);
            assert(s@.skip(u as int).skip(1) =~= s@.skip(u as int + 1));
            assert(members_view(Seq::<(String, Option<String>)>::empty()) =~= Seq::<
                (Seq<char>, Option<Seq<char>>),
            >::empty());
        }
        let ms: Vec<(String, Option<String>)> = Vec::new();
        proof {
            assert(members_view(ms@) =~= Seq::<(Seq<char>, Option<Seq<char>>)>::empty());
        }
        return Some((ms, u + 1));
    }
    proof {
        let uu = skip_ws(s@.skip(t as int + 1));
        if u < n {
            assert(s@.skip(u as int)[0] == s@[u as int]);
        }
        assert(!(uu.len() > 0 && uu[0] == '}'));
    }
    let mut ms: Vec<(String, Option<String>)> = Vec::new();
    let mut k: usize = t + 1;
    let mut kend: usize = 0;
    loop
        invariant_except_break
            t + 1 <= k <= n,
            match d_members(s@.skip(k as int)) {
                Some(pr) => d_members(s@.skip(t as int + 1)) == Some(
                    (members_view(ms@) + pr.0, pr.1),
                ),
                None => d_members(s@.skip(t as int + 1)) is None,
            },
        invariant
            n == s@.len(),
            i <= t < n,
            skip_ws(s@.skip(i as int)) == s@.skip(t as int),
            s@[t as int] == '{',
            s@.skip(t as int).skip(1) == s@.skip(t as int + 1),
            !(skip_ws(s@.skip(t as int + 1)).len() > 0 && skip_ws(s@.skip(t as int + 1))[0]
                == '}'),
        ensures
            t < kend <= n,
            d_members(s@.skip(t as int + 1)) == Some(
                (members_view(ms@), s@.skip(kend as int)),
            ),
        decreases n - k,
    {
        let mj = match p_member(s, n, k) {
            Some(x) => x,
            None => {
                return None;
            },
        };
        let j = mj.1;
        let ghost pre = members_view(ms@);
        let ghost mv = member_view(mj.0);
        ms.push(mj.0);
        proof {
            assert(members_view(ms@) =~= pre.push(mv));
        }
        let j2 = p_skip_ws(s, n, j);
        if j2 < n && s.get_char(j2) == ',' {
            proof {
                let a = s@.skip(k as int);
                let rr = skip_ws(s@.skip(j as int));
                assert(rr == s@.skip(j2 as int));
                assert(rr[0] == s@[j2 as int]);
                lemma_skip_ws_len(s@.skip(j as int));
                assert(rr.len() <= a.len());
                assert(rr.skip(1) =~= s@.skip(j2 as int + 1));
                match d_members(s@.skip(j2 as int + 1)) {
                    Some(pr) => {
                        assert(d_members(a) == Some((seq![mv] + pr.0, pr.1)));
                        assert(pre + (seq![mv] + pr.0) =~= pre.push(mv) + pr.0);
                    },
                    None => {
                        assert(d_members(a) is None);
                    },
                }
            }
            k = j2 + 1;
        } else {
            proof {
                let a = s@.skip(k as int);
                let rr = skip_ws(s@.skip(j as int));
                assert(rr == s@.skip(j2 as int));
                if j2 < n {
                    assert(rr[0] == s@[j2 as int]);
                } else {
                    assert(rr.len() == 0);
                }
                assert(!(rr.len() > 0 && rr[0] == ','));
                assert(d_members(a) == Some((seq![mv], rr)));
                assert(pre + seq![mv] =~= pre.push(mv));
            }
            kend = j2;
            break;
        }
    }
    if kend < n && s.get_char(kend) == '}' {
        proof {
            assert(s@.skip(kend as int)[0] == s@[kend as int]);
            assert(s@.skip(kend as int).skip(1) =~= s@.skip(kend as int + 1));
        }
        Some((ms, kend + 1))
    } else {
        proof {
            if kend < n {
                assert(s@.skip(kend as int)[0] == s@[kend as int]);
            } else {
                assert(s@.skip(kend as int).len() == 0);
            }
        }
        None
    }
}

/// How many members carry the given key, executable form.
fn key_count_x(ms: &Vec<(String, Option<String>)>, name: &String) -> (c: u64)
    ensures
        c == key_count(members_view(ms@), name@),
{
    let n = ms.len();
    let mut c: u64 = 0;
    let mut k: usize = 0;
    proof {
        assert(members_view(ms@.subrange(0, 0)) =~= Seq::<(Seq<char>, Option<Seq<char>>)>::empty());
    }
    while k < n
        invariant
            k <= n,
            n == ms@.len(),
            c == key_count(members_view(ms@.subrange(0, k as int)), name@),
            c <= k,
        decreases n - k,
    {
        let ghost pre = members_view(ms@.subrange(0, k as int));
        proof {
            assert(ms@.subrange(0, k as int + 1).drop_last() =~= ms@.subrange(0, k as int));
            assert(ms@.subrange(0, k as int + 1).last() == ms@[k as int]);
            assert(members_view(ms@.subrange(0, k as int + 1)).drop_last() =~= pre);
            assert(members_view(ms@.subrange(0, k as int + 1)).last() == member_view(
                ms@[k as int],
            ));
        }
        if ms[k].0 == *name {
            c = c + 1;
        }
        k = k + 1;
    }
    proof {
        assert(ms@.subrange(0, n as int) =~= ms@);
    }
    c
}

/// The value of the first member carrying the given key, executable
/// form.
fn find_key_x(ms: &Vec<(String, Option<String>)>, name: &String) -> (r: Option<Option<String>>)
    ensures
        match r {
            Some(v) => find_key(members_view(ms@), name@) == Some(
                match v {
                    Some(x) => Some(x@),
                    None => None,
                },
            ),
            None => find_key(members_view(ms@), name@) is None,
        },
{
    let n = ms.len();
    let mut found: Option<Option<String>> = None;
    let mut k: usize = 0;
    proof {
        assert(members_view(ms@.subrange(0, 0)) =~= Seq::<(Seq<char>, Option<Seq<char>>)>::empty());
    }
    while k < n
        invariant
            k <= n,
            n == ms@.len(),
            match found {
                Some(v) => find_key(members_view(ms@.subrange(0, k as int)), name@) == Some(
                    match v {
                        Some(x) => Some(x@),
                        None => None,
                    },
                ),
                None => find_key(members_view(ms@.subrange(0, k as int)), name@) is None,
            },
        decreases n - k,
    {
        let ghost pre = members_view(ms@.subrange(0, k as int));
        proof {
            assert(ms@.subrange(0, k as int + 1).drop_last() =~= ms@.subrange(0, k as int));
            assert(ms@.subrange(0, k as int + 1).last() == ms@[k as int]);
            assert(members_view(ms@.subrange(0, k as int + 1)).drop_last() =~= pre);
            assert(members_view(ms@.subrange(0, k as int + 1)).last() == member_view(
                ms@[k as int],
            ));
        }
        if found.is_none() && ms[k].0 == *name {
            found = match &ms[k].1 {
                Some(v) => Some(Some(v.clone())),
                None => Some(None),
            };
        }
        k = k + 1;
    }
    proof {
        assert(ms@.subrange(0, n as int) =~= ms@);
    }
    found
}

/// The period an object's members describe, executable form.
fn members_to_period_x(ms: &Vec<(String, Option<String>)>) -> (r: Option<Period>)
    ensures
        match r {
            Some(p) => members_to_period(members_view(ms@)) == Some(p@) && period_wf(p@),
            None => members_to_period(members_view(ms@)) is None,
        },
{
    if ms.len() != 3 {
        return None;
    }
    let pk = String::from_str("project");
    let sk = String::from_str("start_time");
    let ek = String::from_str("end_time");
    if key_count_x(ms, &pk) != 1 || key_count_x(ms, &sk) != 1 || key_count_x(ms, &ek) != 1 {
        return None;
    }
    let nm = match find_key_x(ms, &pk) {
        Some(Some(v)) => v,
        Some(None) => {
            return None;
        },
        None => {
            return None;
        },
    };
    if nm.as_str().is_empty() {
        return None;
    }
    let st = match find_key_x(ms, &sk) {
        Some(Some(v)) => v,
        Some(None) => {
            return None;
        },
        None => {
            return None;
        },
    };
    let t0 = match p_rfc3339(st.as_str()) {
        Some(t) => t,
        None => {
            return None;
        },
    };
    match find_key_x(ms, &ek) {
        Some(None) => Some(Period { project: nm, start_time: t0, end_time: None }),
        Some(Some(et)) => {
            let t1 = match p_rfc3339(et.as_str()) {
                Some(t) => t,
                None => {
                    return None;
                },
            };
            if t1 >= t0 {
                Some(Period { project: nm, start_time: t0, end_time: Some(t1) })
            } else {
                None
            }
        },
        None => None,
    }
}

/// Read one period object at `i`, yielding the period and the position
/// just past it.
fn p_item(s: &str, n: usize, i: usize) -> (r: Option<(Period, usize)>)
    requires
        i <= n,
        n == s@.len(),
    ensures
        match r {
            Some(pj) => i < pj.1 <= n && period_wf(pj.0@) && d_item(s@.skip(i as int)) == Some(
                (pj.0@, s@.skip(pj.1 as int)),
            ),
            None => d_item(s@.skip(i as int)) is None,
        },
{
    proof {
        reveal(d_item);
    }
    let ms_j = match p_object(s, n, i) {
        Some(x) => x,
        None => {
            return None;
        },
    };
    let p = match members_to_period_x(&ms_j.0) {
        Some(p) => p,
        None => {
            return None;
        },
    };
    Some((p, ms_j.1))
}

/// How a data file reads once its opening bracket is past: by its
/// item list, the closing bracket, and nothing but whitespace after.
proof fn lemma_d_store_items(s: Seq<char>, t0: int)
    requires
        0 <= t0 < s.len(),
        skip_ws(s) == s.skip(t0),
        s[t0] == '[',
        s.skip(t0).skip(1) == s.skip(t0 + 1),
        !(skip_ws(s.skip(t0 + 1)).len() > 0 && skip_ws(s.skip(t0 + 1))[0] == ']'),
    ensures
        d_store(s) == (match d_items(s.skip(t0 + 1)) {
            None => None,
            Some(pr) => {
                if pr.1.len() > 0 && pr.1[0] == ']' && skip_ws(pr.1.skip(1)).len() == 0
                    && store_wf(pr.0) {
                    Some(pr.0)
                } else {
                    None
                }
            },
        }),
{
}

impl Doug {
    /// Load a store from the data file's text. A blank file is the
    /// empty store; any other text must be one JSON array of period
    /// objects describing a well-formed store, else the result is
    /// `Parse`.
    #[verifier::rlimit(100)]
    pub fn new(data: &str, settings: Settings) -> (r: Result<Doug, DougError>)
        ensures
            match r {
                Ok(d) => d.wf() && d_store(data@) == Some(d@) && d.settings == settings,
                Err(e) => e == DougError::Parse && d_store(data@) is None,
            },
    {
        let n = data.unicode_len();
        proof {
            assert(data@.skip(0) =~= data@);
        }
        let t0 = p_skip_ws(data, n, 0);
        if t0 == n {
            proof {
                assert(skip_ws(data@).len() == 0);
            }
            let d = Doug { periods: Vec::new(), settings };
            proof {
                assert(d@ =~= Seq::<PeriodView>::empty());
            }
            return Ok(d);
        }
        proof {
            assert(data@.skip(t0 as int)[0] == data@[t0 as int]);
        }
        if data.get_char(t0) != '[' {
            return Err(DougError::Parse);
        }
        proof {
            assert(data@.skip(t0 as int).skip(1) =~= data@.skip(t0 as int + 1));
        }
        let u = p_skip_ws(data, n, t0 + 1);
        if u < n && data.get_char(u) == ']' {
            proof {
                assert(data@.skip(u as int)[0] == data@[u as int]);
                assert(data@.skip(u as int).skip(1) =~= data@.skip(u as int + 1));
            }
            let v = p_skip_ws(data, n, u + 1);
            if v == n {
                proof {
                    assert(skip_ws(data@.skip(u as int + 1)).len() == 0);
                }
                let d = Doug { periods: Vec::new(), settings };
                proof {
                    assert(d@ =~= Seq::<PeriodView>::empty());
                }
                return Ok(d);
            } else {
                proof {
                    assert(skip_ws(data@.skip(u as int + 1)).len() > 0);
                }
                return Err(DougError::Parse);
            }
        }
        proof {
            let uu = skip_ws(data@.skip(t0 as int + 1));
            if u < n {
                assert(data@.skip(u as int)[0] == data@[u as int]);
            }
            assert(!(uu.len() > 0 && uu[0] == ']'));
        }
        let mut periods: Vec<Period> = Vec::new();
        let mut k: usize = t0 + 1;
        let mut kend: usize = 0;
        loop
            invariant_except_break
                t0 + 1 <= k <= n,
                match d_items(data@.skip(k as int)) {
                    Some(pr) => d_items(data@.skip(t0 as int + 1)) == Some(
                        (periods@.map_values(|p: Period| p@) + pr.0, pr.1),
                    ),
                    None => d_items(data@.skip(t0 as int + 1)) is None,
                },
            invariant
                n == data@.len(),
                t0 < n,
                skip_ws(data@) == data@.skip(t0 as int),
                data@[t0 as int] == '[',
                !(skip_ws(data@.skip(t0 as int + 1)).len() > 0 && skip_ws(
                    data@.skip(t0 as int + 1),
                )[0] == ']'),
                forall|q: int| 0 <= q < periods@.len() ==> period_wf((#[trigger] periods@[q])@),
            ensures
                kend <= n,
                d_items(data@.skip(t0 as int + 1)) == Some(
                    (periods@.map_values(|p: Period| p@), data@.skip(kend as int)),
                ),
                periods@.len() > 0,
            decreases n - k,
        {
            let pj = match p_item(data, n, k) {
                Some(x) => x,
                None => {
                    proof {
                        lemma_d_items_none(data@.skip(k as int));
                        assert(data@.skip(t0 as int).skip(1) =~= data@.skip(t0 as int + 1));
                        lemma_d_store_items(data@, t0 as int);
                    }
                    return Err(DougError::Parse);
                },
            };
            let j = pj.1;
            let ghost pre = periods@.map_values(|p: Period| p@);
            let ghost pv = pj.0@;
            periods.push(pj.0);
            proof {
                assert(periods@.map_values(|p: Period| p@) =~= pre.push(pv));
            }
            let j2 = p_skip_ws(data, n, j);
            if j2 < n && data.get_char(j2) == ',' {
                proof {
                    let a = data@.skip(k as int);
                    let rr = skip_ws(data@.skip(j as int));
                    assert(rr == data@.skip(j2 as int));
                    assert(rr[0] == data@[j2 as int]);
                    lemma_skip_ws_len(data@.skip(j as int));
                    assert(rr.len() <= a.len());
                    lemma_d_items_step_comma(a, pv, data@.skip(j as int));
                    assert(rr.skip(1) =~= data@.skip(j2 as int + 1));
                    match d_items(data@.skip(j2 as int + 1)) {
                        Some(pr) => {
                            assert(pre + (seq![pv] + pr.0) =~= pre.push(pv) + pr.0);
                        },
                        None => {
                        },
                    }
                }
                k = j2 + 1;
            } else {
                proof {
                    let a = data@.skip(k as int);
                    let rr = skip_ws(data@.skip(j as int));
                    assert(rr == data@.skip(j2 as int));
                    if j2 < n {
                        assert(rr[0] == data@[j2 as int]);
                    } else {
                        assert(rr.len() == 0);
                    }
                    assert(!(rr.len() > 0 && rr[0] == ','));
                    lemma_d_items_last(a, pv, data@.skip(j as int));
                    assert(pre + seq![pv] =~= pre.push(pv));
                }
                kend = j2;
                break;
            }
        }
        if !(kend < n && data.get_char(kend) == ']') {
            proof {
                assert(data@.skip(t0 as int).skip(1) =~= data@.skip(t0 as int + 1));
                lemma_d_store_items(data@, t0 as int);
                if kend < n {
                    assert(data@.skip(kend as int)[0] == data@[kend as int]);
                } else {
                    assert(data@.skip(kend as int).len() == 0);
                }
            }
            return Err(DougError::Parse);
        }
        proof {
            assert(data@.skip(t0 as int).skip(1) =~= data@.skip(t0 as int + 1));
            lemma_d_store_items(data@, t0 as int);
            assert(data@.skip(kend as int)[0] == data@[kend as int]);
            assert(data@.skip(kend as int).skip(1) =~= data@.skip(kend as int + 1));
        }
        let v2 = p_skip_ws(data, n, kend + 1);
        if v2 != n {
            proof {
                assert(skip_ws(data@.skip(kend as int + 1)).len() > 0);
            }
            return Err(DougError::Parse);
        }
        proof {
            assert(skip_ws(data@.skip(kend as int + 1)).len() == 0);
        }
        let len = periods.len();
        let mut q: usize = 0;
        while q < len - 1
            invariant
                len >= 1,
                q <= len - 1,
                len == periods@.len(),
                n == data@.len(),
                t0 < n,
                skip_ws(data@) == data@.skip(t0 as int),
                data@[t0 as int] == '[',
                !(skip_ws(data@.skip(t0 as int + 1)).len() > 0 && skip_ws(
                    data@.skip(t0 as int + 1),
                )[0] == ']'),
                kend < n,
                data@[kend as int] == ']',
                skip_ws(data@.skip(kend as int + 1)).len() == 0,
                d_items(data@.skip(t0 as int + 1)) == Some(
                    (periods@.map_values(|p: Period| p@), data@.skip(kend as int)),
                ),
                forall|w: int| 0 <= w < periods@.len() ==> period_wf((#[trigger] periods@[w])@),
                forall|w: int| 0 <= w < q ==> (#[trigger] periods@[w])@.end_time is Some,
            decreases len - q,
        {
            if periods[q].end_time.is_none() {
                proof {
                    let views = periods@.map_values(|p: Period| p@);
                    assert(views[q as int].end_time is None);
                    assert(!store_wf(views));
                    assert(data@.skip(t0 as int).skip(1) =~= data@.skip(t0 as int + 1));
                    lemma_d_store_items(data@, t0 as int);
                    assert(data@.skip(kend as int).skip(1) =~= data@.skip(kend as int + 1));
                }
                return Err(DougError::Parse);
            }
            q = q + 1;
        }
        let d = Doug { periods, settings };
        proof {
            assert(store_wf(d@));
        }
        Ok(d)
    }

    /// The serialized form of the store, ready to be written to the data
    /// file. The caller copies the previous file aside before
    /// overwriting it.
    pub fn save(&self) -> (r: String)
        requires
            self.wf(),
        ensures
            r@ == store_text(self@),
    {
        let mut s = String::new();
        proof {
            reveal_strlit("[");
            reveal_strlit("]");
            reveal_strlit(",");
        }
        s.append("[");
        let n = self.periods.len();
        let mut i: usize = 0;
        proof {
            assert(self@.subrange(0, 0) =~= Seq::<PeriodView>::empty());
            assert(s@ =~= seq!['['] + items_text(self@.subrange(0, 0)));
        }
        while i < n
            invariant
                i <= n,
                n == self@.len(),
                self.wf(),
                s@ == seq!['['] + items_text(self@.subrange(0, i as int)),
            decreases n - i,
        {
            let ghost pre = self@.subrange(0, i as int);
            proof {
                reveal_strlit(",");
            }
            if i > 0 {
                s.append(",");
            }
            append_item(&mut s, &self.periods[i]);
            proof {
                assert(self@.subrange(0, i as int + 1) =~= pre.push(self@[i as int]));
                if i > 0 {
                    lemma_items_text_snoc(pre, self@[i as int]);
                } else {
                    assert(pre.push(self@[i as int]) =~= seq![self@[i as int]]);
                }
                assert(s@ =~= seq!['['] + items_text(self@.subrange(0, i as int + 1)));
            }
            i = i + 1;
        }
        proof {
            assert(self@.subrange(0, n as int) =~= self@);
        }
        s.append("]");
        assert(s@ =~= store_text(self@));
        s
    }
}

/// The settings file's text: one JSON object holding the data
/// directory.
pub open spec fn settings_text(loc: Seq<char>) -> Seq<char> {
    "{\"data_location\":\""@ + esc_seq(loc) + "\"}"@
}

/// Read a settings file: one JSON object whose single member,
/// `data_location`, holds the data directory.
pub open spec fn d_settings(s: Seq<char>) -> Option<Seq<char>> {
    match d_object(s) {
        None => None,
        Some(mr) => {
            if skip_ws(mr.1).len() == 0 && mr.0.len() == 1 && key_count(
                mr.0,
                "data_location"@,
            ) == 1 {
                match find_key(mr.0, "data_location"@) {
                    Some(Some(loc)) => Some(loc),
                    _ => None,
                }
            } else {
                None
            }
        },
    }
}

/// Law: reading a written settings file back gives the same data
/// directory.
#[verifier::rlimit(100)]
pub proof fn lemma_settings_roundtrip(loc: Seq<char>)
    ensures
        d_settings(settings_text(loc)) == Some(loc),
{
    reveal_strlit("{\"data_location\":\"");
    reveal_strlit("\"}");
    reveal_strlit("data_location");
    assert(plain_text("data_location"@)) by {
        assert forall|i: int|
            0 <= i < ("data_location"@).len() implies (#[trigger] ("data_location"@)[i]) != '"'
            && ("data_location"@)[i] != '\\' && (("data_location"@)[i] as u32) >= 32 by {}
    }
    let s = settings_text(loc);
    let r3 = seq!['}'];
    let m1text = seq!['"'] + "data_location"@ + seq!['"', ':', '"'] + esc_seq(loc) + seq!['"']
        + r3;
    assert(s =~= seq!['{'] + m1text);
    lemma_member_str("data_location"@, loc, r3);
    let m1 = ("data_location"@, Some(loc));
    assert(d_member(m1text) == Some((m1, r3)));
    assert(r3[0] == '}');
    assert(!is_ws(r3[0]));
    assert(skip_ws(r3) == r3);
    assert(d_members(m1text) == Some((seq![m1], r3)));
    assert(s[0] == '{');
    assert(!is_ws(s[0]));
    assert(skip_ws(s) == s);
    assert(s.skip(1) =~= m1text);
    assert(m1text[0] == '"');
    assert(!is_ws(m1text[0]));
    assert(skip_ws(s.skip(1)) == s.skip(1));
    assert(r3.skip(1) =~= Seq::<char>::empty());
    assert(d_object(s) == Some((seq![m1], Seq::<char>::empty())));
    assert(skip_ws(Seq::<char>::empty()).len() == 0);
    let ms = seq![m1];
    reveal_with_fuel(key_count, 3);
    reveal_with_fuel(find_key, 3);
    assert(ms.drop_last() =~= Seq::<(Seq<char>, Option<Seq<char>>)>::empty());
    assert(key_count(ms, "data_location"@) == 1);
    assert(find_key(ms, "data_location"@) == Some(Some(loc)));
}

impl Settings {
    /// Load the settings from the settings file's text: a blank file
    /// falls back to the given folder (a fresh installation), and any
    /// other text must be the settings object.
    pub fn new(data: &str, folder: &str) -> (r: Result<Settings, DougError>)
        ensures
            match r {
                Ok(s) => (skip_ws(data@).len() == 0 && s.data_location@ == folder@) || (
                d_settings(data@) == Some(s.data_location@)),
                Err(e) => e == DougError::Parse && skip_ws(data@).len() > 0 && d_settings(data@)
                    is None,
            },
    {
        let n = data.unicode_len();
        proof {
            assert(data@.skip(0) =~= data@);
        }
        let t0 = p_skip_ws(data, n, 0);
        if t0 == n {
            proof {
                assert(skip_ws(data@).len() == 0);
            }
            return Ok(Settings { data_location: String::from_str(folder) });
        }
        proof {
            assert(skip_ws(data@).len() > 0);
        }
        let ms_j = match p_object(data, n, 0) {
            Some(x) => x,
            None => {
                return Err(DougError::Parse);
            },
        };
        let ms = ms_j.0;
        let j = ms_j.1;
        let v = p_skip_ws(data, n, j);
        if v != n {
            proof {
                assert(skip_ws(data@.skip(j as int)).len() > 0);
            }
            return Err(DougError::Parse);
        }
        proof {
            assert(skip_ws(data@.skip(j as int)).len() == 0);
        }
        if ms.len() != 1 {
            return Err(DougError::Parse);
        }
        let dk = String::from_str("data_location");
        if key_count_x(&ms, &dk) != 1 {
            return Err(DougError::Parse);
        }
        match find_key_x(&ms, &dk) {
            Some(Some(loc)) => Ok(Settings { data_location: loc }),
            Some(None) => Err(DougError::Parse),
            None => Err(DougError::Parse),
        }
    }

    /// The serialized form of the settings, ready for the settings
    /// file.
    pub fn save(&self) -> (r: String)
        ensures
            r@ == settings_text(self.data_location@),
    {
        let mut s = String::new();
        proof {
            reveal_strlit("{\"data_location\":\"");
            reveal_strlit("\"}");
        }
        s.append("{\"data_location\":\"");
        append_escaped(&mut s, self.data_location.as_str());
        s.append("\"}");
        assert(s@ =~= settings_text(self.data_location@));
        s
    }
}

} // verus!
