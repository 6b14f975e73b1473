//! Conflict diagnostics reported by the exclusion index, and their parser.
//!
//! A diagnostic holds fragments of the form
//! `(resource_id, timespan)=(<id>, ["<ts>","<ts>"))`, where `<ts>` is
//! `YYYY-MM-DD HH:MM:SS±ZZ`. The first fragment describes the window that was
//! attempted, the second the window already held.

use crate::text::{
    chars_of, decimal_value, digit_char, digit_value, is_digit, literal_at, padded_decimal, push_all, push_literal,
    push_padded, string_of,
};
use crate::time::{civil_of_unix, unix_seconds, unix_seconds_of, valid_civil, CivilTime, Timestamp};
use vstd::prelude::*;

verus! {

/// One side of a conflict: a resource and a half-open interval.
#[derive(Clone, Debug, PartialEq, Eq)]
pub struct ReservationWindow {
    pub resource_id: String,
    pub start: Timestamp,
    pub end: Timestamp,
}

/// The attempted window and the window already held.
#[derive(Clone, Debug, PartialEq, Eq)]
pub struct ReservationConflict {
    pub new: ReservationWindow,
    pub old: ReservationWindow,
}

/// A parsed conflict, or the diagnostic as it came when it does not parse.
#[derive(Clone, Debug, PartialEq, Eq)]
pub enum ReservationConflictInfo {
    Parsed(ReservationConflict),
    Raw(String),
}

/// A window as plain values: resource id, start, end.
pub type WindowModel = (Seq<char>, Timestamp, Timestamp);

impl ReservationWindow {
    pub open spec fn model(&self) -> WindowModel {
        (self.resource_id@, self.start, self.end)
    }
}

/// The text that opens a fragment.
pub open spec fn fragment_head() -> Seq<char> {
    "(resource_id, timespan)=("@
}

/// The shape of what follows the resource id: `0` stands for a digit, `+`
/// for a sign, any other character for itself.
pub open spec fn tail_template() -> Seq<char> {
    ", [\"0000-00-00 00:00:00+00\",\"0000-00-00 00:00:00+00\"))"@
}

pub open spec fn fits(c: char, p: char) -> bool {
    if p == '0' {
        is_digit(c)
    } else if p == '+' {
        c == '+' || c == '-'
    } else {
        c == p
    }
}

pub open spec fn is_word_char(c: char) -> bool {
    ('a' <= c <= 'z') || ('A' <= c <= 'Z') || ('0' <= c <= '9') || c == '_'
}

/// The first position at or after `j` that does not hold a word character.
pub open spec fn word_end(s: Seq<char>, j: int) -> int
    decreases s.len() - j,
{
    if j < 0 || j >= s.len() || !is_word_char(s[j]) {
        j
    } else {
        word_end(s, j + 1)
    }
}

/// `s` holds `lit` at position `i`.
pub open spec fn holds_at(s: Seq<char>, i: int, lit: Seq<char>) -> bool {
    0 <= i && i + lit.len() <= s.len() && s.subrange(i, i + lit.len()) == lit
}

/// `s` fits the tail template at position `i`.
pub open spec fn tail_fits(s: Seq<char>, i: int) -> bool {
    &&& 0 <= i
    &&& i + 54 <= s.len()
    &&& forall|k: int| 0 <= k < 54 ==> fits(#[trigger] s[i + k], tail_template()[k])
}

/// Where the resource id of a fragment that starts at `i` ends, when one
/// does start there.
pub open spec fn fragment_at(s: Seq<char>, i: int) -> Option<int> {
    let j = i + 25;
    let k = word_end(s, j);
    if holds_at(s, i, fragment_head()) && k > j && tail_fits(s, k) {
        Some(k)
    } else {
        None
    }
}

/// The first fragment that starts at or after `i`: its start and id end.
pub open spec fn next_fragment(s: Seq<char>, i: int) -> Option<(int, int)>
    decreases s.len() - i,
{
    if i < 0 || i >= s.len() {
        None
    } else {
        match fragment_at(s, i) {
            Some(k) => Some((i, k)),
            None => next_fragment(s, i + 1),
        }
    }
}

/// The number written with `len` digits at position `at`.
pub open spec fn number_at(s: Seq<char>, at: int, len: int) -> int {
    decimal_value(s.subrange(at, at + len))
}

/// The date and time written at position `at`.
pub open spec fn civil_at(s: Seq<char>, at: int) -> CivilTime {
    CivilTime {
        year: number_at(s, at, 4) as i32,
        month: number_at(s, at + 5, 2) as u32,
        day: number_at(s, at + 8, 2) as u32,
        hour: number_at(s, at + 11, 2) as u32,
        minute: number_at(s, at + 14, 2) as u32,
        second: number_at(s, at + 17, 2) as u32,
    }
}

/// The UTC offset in seconds written at position `at` (sign and hours).
pub open spec fn offset_at(s: Seq<char>, at: int) -> int {
    let hours = number_at(s, at + 20, 2);
    if s[at + 19] == '-' { -hours * 3600 } else { hours * 3600 }
}

/// The instant that the timestamp at position `at` denotes, when the date
/// exists and the instant fits.
pub open spec fn instant_at(s: Seq<char>, at: int) -> Option<Timestamp> {
    let c = civil_at(s, at);
    let v = unix_seconds(c) - offset_at(s, at);
    if valid_civil(c) && i64::MIN <= v <= i64::MAX {
        Some(Timestamp { seconds: v as i64, nanos: 0 })
    } else {
        None
    }
}

/// The window described by the fragment whose id spans `[j, k)`.
pub open spec fn window_at(s: Seq<char>, j: int, k: int) -> Option<WindowModel> {
    match (instant_at(s, k + 4), instant_at(s, k + 29)) {
        (Some(a), Some(b)) => Some((s.subrange(j, k), a, b)),
        _ => None,
    }
}

/// What a diagnostic says: the first fragment and the next one after it,
/// when both exist and both describe real instants.
pub open spec fn parse_diagnostic(s: Seq<char>) -> Option<(WindowModel, WindowModel)> {
    match next_fragment(s, 0) {
        Some((pa, ka)) => match next_fragment(s, ka + 54) {
            Some((pb, kb)) => match (window_at(s, pa + 25, ka), window_at(s, pb + 25, kb)) {
                (Some(w1), Some(w2)) => Some((w1, w2)),
                _ => None,
            },
            None => None,
        },
        None => None,
    }
}

/// `c` is how the instant `t` reads on a calendar with four-digit years.
pub open spec fn reads_as(c: CivilTime, t: Timestamp) -> bool {
    &&& valid_civil(c)
    &&& 0 <= c.year <= 9999
    &&& t.nanos == 0
    &&& unix_seconds(c) == t.seconds
}

/// `YYYY-MM-DD HH:MM:SS+00`.
#[verifier::opaque]
pub open spec fn instant_text(c: CivilTime) -> Seq<char> {
    padded_decimal(c.year as nat, 4) + "-"@ + padded_decimal(c.month as nat, 2) + "-"@
        + padded_decimal(c.day as nat, 2) + " "@ + padded_decimal(c.hour as nat, 2) + ":"@
        + padded_decimal(c.minute as nat, 2) + ":"@ + padded_decimal(c.second as nat, 2)
        + "+00"@
}

/// `(resource_id, timespan)=(<id>, ["<start>","<end>"))`.
#[verifier::opaque]
pub open spec fn fragment_text(id: Seq<char>, start: CivilTime, end: CivilTime) -> Seq<char> {
    fragment_head() + id + ", [\""@ + instant_text(start) + "\",\""@ + instant_text(end) + "\"))"@
}

/// The diagnostic of the exclusion index for an attempted window that meets
/// a held one.
pub open spec fn diagnostic_text(
    new_id: Seq<char>,
    new_start: CivilTime,
    new_end: CivilTime,
    old_id: Seq<char>,
    old_start: CivilTime,
    old_end: CivilTime,
) -> Seq<char> {
    "Key "@ + fragment_text(new_id, new_start, new_end) + " conflicts with existing key "@
        + fragment_text(old_id, old_start, old_end) + "."@
}

/// The description when an instant has no four-digit calendar reading.
pub open spec fn plain_conflict_text(new_id: Seq<char>, old_id: Seq<char>) -> Seq<char> {
    "Key (resource_id)=("@ + new_id + ") conflicts with existing key (resource_id)=("@ + old_id
        + ")."@
}

/// The conflict described as the exclusion index describes it.
pub open spec fn describes(text: Seq<char>, new: WindowModel, old: WindowModel) -> bool {
    (exists|c1: CivilTime, c2: CivilTime, c3: CivilTime, c4: CivilTime|
        reads_as(c1, new.1) && reads_as(c2, new.2) && reads_as(c3, old.1) && reads_as(c4, old.2)
            && text == diagnostic_text(new.0, c1, c2, old.0, c3, c4))
    || text == plain_conflict_text(new.0, old.0)
}

/// The calendar reading of `t`, if it has one with a four-digit year.
fn reading_of(t: &Timestamp) -> (r: Option<CivilTime>)
    ensures
        r matches Some(c) ==> reads_as(c, *t),
{
    if t.nanos != 0 {
        return None;
    }
    match civil_of_unix(t.seconds) {
        Some(c) => if 0 <= c.year && c.year <= 9999 {
            Some(c)
        } else {
            None
        },
        None => None,
    }
}

fn push_instant(out: &mut Vec<char>, c: &CivilTime)
    requires
        0 <= c.year <= 9999,
    ensures
        final(out)@ == old(out)@ + instant_text(*c),
{
    push_padded(out, c.year as u32, 4);
    push_literal(out, "-");
    push_padded(out, c.month, 2);
    push_literal(out, "-");
    push_padded(out, c.day, 2);
    push_literal(out, " ");
    push_padded(out, c.hour, 2);
    push_literal(out, ":");
    push_padded(out, c.minute, 2);
    push_literal(out, ":");
    push_padded(out, c.second, 2);
    push_literal(out, "+00");
    reveal(instant_text);
    assert(out@ =~= old(out)@ + instant_text(*c));
}

fn push_fragment(out: &mut Vec<char>, id: &String, start: &CivilTime, end: &CivilTime)
    requires
        0 <= start.year <= 9999,
        0 <= end.year <= 9999,
    ensures
        final(out)@ == old(out)@ + fragment_text(id@, *start, *end),
{
    push_literal(out, "(resource_id, timespan)=(");
    let idc = chars_of(id.as_str());
    push_all(out, &idc);
    push_literal(out, ", [\"");
    push_instant(out, start);
    push_literal(out, "\",\"");
    push_instant(out, end);
    push_literal(out, "\"))");
    reveal(fragment_text);
    assert(out@ =~= old(out)@ + fragment_text(id@, *start, *end));
}

/// Describes a conflict between an attempted and a held window.
pub fn describe_conflict(new: &ReservationWindow, old: &ReservationWindow) -> (r: String)
    ensures
        describes(r@, new.model(), old.model()),
{
    let mut out: Vec<char> = Vec::new();
    match (reading_of(&new.start), reading_of(&new.end), reading_of(&old.start), reading_of(&old.end)) {
        (Some(c1), Some(c2), Some(c3), Some(c4)) => {
            push_literal(&mut out, "Key ");
            push_fragment(&mut out, &new.resource_id, &c1, &c2);
            push_literal(&mut out, " conflicts with existing key ");
            push_fragment(&mut out, &old.resource_id, &c3, &c4);
            push_literal(&mut out, ".");
            assert(out@ =~= diagnostic_text(new.resource_id@, c1, c2, old.resource_id@, c3, c4));
        },
        _ => {
            push_literal(&mut out, "Key (resource_id)=(");
            let a = chars_of(new.resource_id.as_str());
            push_all(&mut out, &a);
            push_literal(&mut out, ") conflicts with existing key (resource_id)=(");
            let b = chars_of(old.resource_id.as_str());
            push_all(&mut out, &b);
            push_literal(&mut out, ").");
            assert(out@ =~= plain_conflict_text(new.resource_id@, old.resource_id@));
        },
    }
    string_of(&out)
}

impl ReservationConflictInfo {
    /// What the value records of a diagnostic: the pair of windows, or none.
    pub open spec fn windows(&self) -> Option<(WindowModel, WindowModel)> {
        match self {
            ReservationConflictInfo::Parsed(c) => Some((c.new.model(), c.old.model())),
            ReservationConflictInfo::Raw(_) => None,
        }
    }

    /// Classifies a diagnostic; one that does not parse is kept as it came.
    pub fn parse(s: &str) -> (r: ReservationConflictInfo)
        ensures
            r.windows() == parse_diagnostic(s@),
            r matches ReservationConflictInfo::Raw(t) ==> t@ == s@,
    {
        match ReservationConflict::parse(s) {
            Some(c) => ReservationConflictInfo::Parsed(c),
            None => ReservationConflictInfo::Raw(s.to_owned()),
        }
    }
}

impl ReservationConflict {
    /// The pair of windows that a diagnostic describes, if it parses.
    pub fn parse(s: &str) -> (r: Option<ReservationConflict>)
        ensures
            r matches Some(c) ==> parse_diagnostic(s@) == Some((c.new.model(), c.old.model())),
            r is None ==> parse_diagnostic(s@) is None,
    {
        let cs = chars_of(s);
        let (pa, ka) = match find_fragment(&cs, 0) {
            Some(f) => f,
            None => return None,
        };
        let (pb, kb) = match find_fragment(&cs, ka + 54) {
            Some(f) => f,
            None => return None,
        };
        let new = match read_window(&cs, pa + 25, ka) {
            Some(w) => w,
            None => return None,
        };
        let old = match read_window(&cs, pb + 25, kb) {
            Some(w) => w,
            None => return None,
        };
        Some(ReservationConflict { new, old })
    }
}

pub open spec fn ten_pow(n: nat) -> int
    decreases n,
{
    if n == 0 { 1 } else { 10 * ten_pow((n - 1) as nat) }
}

proof fn lemma_decimal_bound(s: Seq<char>)
    requires
        forall|i: int| 0 <= i < s.len() ==> is_digit(#[trigger] s[i]),
    ensures
        0 <= decimal_value(s) < ten_pow(s.len()),
    decreases s.len(),
{
    if s.len() > 0 {
        let p = s.drop_last();
        assert forall|i: int| 0 <= i < p.len() implies is_digit(#[trigger] p[i]) by {
            assert(p[i] == s[i]);
        }
        lemma_decimal_bound(p);
        let v = decimal_value(p);
        let d = digit_value(s.last());
        let t = ten_pow(p.len());
        assert(is_digit(s[s.len() - 1]));
        assert(0 <= d < 10);
        assert(0 <= v * 10 + d < 10 * t) by (nonlinear_arith)
            requires 0 <= v < t, 0 <= d < 10;
    }
}

/// Reads the `len` digits at `at` as a number.
fn read_number(cs: &Vec<char>, at: usize, len: usize) -> (r: u32)
    requires
        len <= 4,
        at + len <= cs@.len(),
        forall|i: int| at <= i < at + len ==> is_digit(#[trigger] cs@[i]),
    ensures
        r == number_at(cs@, at as int, len as int),
        r < 10000,
{
    let mut v: u32 = 0;
    let mut k: usize = 0;
    while k < len
        invariant
            len <= 4,
            at + len <= cs.len(),
            k <= len,
            forall|i: int| at <= i < at + len ==> is_digit(#[trigger] cs@[i]),
            v == decimal_value(cs@.subrange(at as int, at + k)),
            v < 10000,
        decreases len - k,
    {
        proof {
            let sub = cs@.subrange(at as int, at + k + 1);
            assert(sub.drop_last() =~= cs@.subrange(at as int, at + k));
            assert forall|i: int| 0 <= i < sub.len() implies is_digit(#[trigger] sub[i]) by {
                assert(sub[i] == cs@[at + i]);
            }
            lemma_decimal_bound(sub);
            assert(ten_pow(0) == 1);
            assert(ten_pow(1) == 10);
            assert(ten_pow(2) == 100);
            assert(ten_pow(3) == 1000);
            assert(ten_pow(4) == 10000);
            assert(is_digit(cs@[at + k]));
        }
        let c = cs[at + k];
        let d = (c as u32) - ('0' as u32);
        v = v * 10 + d;
        k = k + 1;
    }
    v
}

/// The first position at or after `j` that does not hold a word character.
fn find_word_end(cs: &Vec<char>, j: usize) -> (r: usize)
    requires
        j <= cs@.len(),
    ensures
        r == word_end(cs@, j as int),
        j <= r <= cs@.len(),
{
    let mut k = j;
    while k < cs.len() && is_word(cs[k])
        invariant
            j <= k <= cs@.len(),
            word_end(cs@, j as int) == word_end(cs@, k as int),
        decreases cs@.len() - k,
    {
        k = k + 1;
    }
    k
}

fn is_word(c: char) -> (r: bool)
    ensures
        r == is_word_char(c),
{
    ('a' <= c && c <= 'z') || ('A' <= c && c <= 'Z') || ('0' <= c && c <= '9') || c == '_'
}

fn fits_template(c: char, p: char) -> (r: bool)
    ensures
        r == fits(c, p),
{
    if p == '0' {
        '0' <= c && c <= '9'
    } else if p == '+' {
        c == '+' || c == '-'
    } else {
        c == p
    }
}

/// Whether the tail template fits at `i`.
fn tail_fits_at(cs: &Vec<char>, i: usize) -> (r: bool)
    ensures
        r == tail_fits(cs@, i as int),
{
    let template = ", [\"0000-00-00 00:00:00+00\",\"0000-00-00 00:00:00+00\"))";
    proof {
        reveal_strlit(", [\"0000-00-00 00:00:00+00\",\"0000-00-00 00:00:00+00\"))");
    }
    if i > cs.len() || cs.len() - i < 54 {
        return false;
    }
    let mut k: usize = 0;
    while k < 54
        invariant
            i + 54 <= cs.len(),
            template@ == tail_template(),
            template@.len() == 54,
            k <= 54,
            forall|m: int| 0 <= m < k ==> fits(#[trigger] cs@[i + m], tail_template()[m]),
        decreases 54 - k,
    {
        if !fits_template(cs[i + k], template.get_char(k)) {
            return false;
        }
        k = k + 1;
    }
    true
}

/// Where the resource id of a fragment starting at `i` ends, if one does.
fn fragment_starting_at(cs: &Vec<char>, i: usize) -> (r: Option<usize>)
    requires
        i < cs@.len(),
    ensures
        r matches Some(k) ==> fragment_at(cs@, i as int) == Some(k as int),
        r is None ==> fragment_at(cs@, i as int) is None,
{
    let head = "(resource_id, timespan)=(";
    proof {
        reveal_strlit("(resource_id, timespan)=(");
    }
    let n = cs.len();
    assert(head@ == fragment_head());
    assert(head@.len() == 25);
    if !literal_at(cs, i, head) {
        return None;
    }
    let j = i + 25;
    let k = find_word_end(cs, j);
    if k > j && tail_fits_at(cs, k) {
        Some(k)
    } else {
        None
    }
}

/// The first fragment at or after `from`: its start and the end of its id.
fn find_fragment(cs: &Vec<char>, from: usize) -> (r: Option<(usize, usize)>)
    ensures
        r matches Some((p, k)) ==> next_fragment(cs@, from as int) == Some((p as int, k as int))
            && p + 25 < k && k + 54 <= cs@.len() && tail_fits(cs@, k as int),
        r is None ==> next_fragment(cs@, from as int) is None,
{
    let mut i = from;
    while i < cs.len()
        invariant
            from <= i,
            next_fragment(cs@, from as int) == next_fragment(cs@, i as int),
        decreases cs@.len() - i,
    {
        match fragment_starting_at(cs, i) {
            Some(k) => {
                return Some((i, k));
            },
            None => {},
        }
        i = i + 1;
    }
    None
}

/// The instant written at `k + off`, in the tail that starts at `k`, if the
/// date exists and the instant fits.
fn read_instant(cs: &Vec<char>, k: usize, off: usize) -> (r: Option<Timestamp>)
    requires
        off == 4 || off == 29,
        tail_fits(cs@, k as int),
    ensures
        r == instant_at(cs@, k + off),
{
    let n = cs.len();
    let at = k + off;
    proof {
        reveal_strlit(", [\"0000-00-00 00:00:00+00\",\"0000-00-00 00:00:00+00\"))");
        assert forall|i: int| at <= i < at + 22 && i != at + 4 && i != at + 7 && i != at + 10
            && i != at + 13 && i != at + 16 && i != at + 19 implies is_digit(#[trigger] cs@[i]) by {
            let m = i - at;
            assert(fits(cs@[k + (off + m)], tail_template()[off + m]));
        }
    }
    let year = read_number(cs, at, 4);
    let month = read_number(cs, at + 5, 2);
    let day = read_number(cs, at + 8, 2);
    let hour = read_number(cs, at + 11, 2);
    let minute = read_number(cs, at + 14, 2);
    let second = read_number(cs, at + 17, 2);
    let zone = read_number(cs, at + 20, 2);
    let c = CivilTime { year: year as i32, month, day, hour, minute, second };
    assert(c == civil_at(cs@, at as int));
    let offset: i64 = if cs[at + 19] == '-' { -(zone as i64) * 3600 } else { zone as i64 * 3600 };
    match unix_seconds_of(c) {
        Some(v) => match v.checked_sub(offset) {
            Some(t) => Some(Timestamp { seconds: t, nanos: 0 }),
            None => None,
        },
        None => None,
    }
}

/// The window of the fragment whose id spans `[j, k)`.
fn read_window(cs: &Vec<char>, j: usize, k: usize) -> (r: Option<ReservationWindow>)
    requires
        j < k,
        k + 54 <= cs@.len(),
        tail_fits(cs@, k as int),
    ensures
        r matches Some(w) ==> window_at(cs@, j as int, k as int) == Some(w.model()),
        r is None ==> window_at(cs@, j as int, k as int) is None,
{
    let start = match read_instant(cs, k, 4) {
        Some(t) => t,
        None => return None,
    };
    let end = match read_instant(cs, k, 29) {
        Some(t) => t,
        None => return None,
    };
    let mut id: Vec<char> = Vec::new();
    let mut m = j;
    while m < k
        invariant
            j <= m <= k,
            k <= cs@.len(),
            id@ == cs@.subrange(j as int, m as int),
        decreases k - m,
    {
        id.push(cs[m]);
        m = m + 1;
        assert(id@ =~= cs@.subrange(j as int, m as int));
    }
    Some(ReservationWindow { resource_id: string_of(&id), start, end })
}

/// A resource id that the diagnostic grammar reads back: word characters only.
pub open spec fn is_word_id(id: Seq<char>) -> bool {
    id.len() > 0 && forall|i: int| 0 <= i < id.len() ==> is_word_char(#[trigger] id[i])
}

/// The instant of a date and time in UTC, at a whole second.
pub open spec fn instant_of(c: CivilTime) -> Timestamp {
    Timestamp { seconds: unix_seconds(c) as i64, nanos: 0 }
}

/// The form of a timestamp: `0` stands for a digit, `+` for a sign.
pub open spec fn stamp_template() -> Seq<char> {
    "0000-00-00 00:00:00+00"@
}

proof fn lemma_padded(v: nat, w: nat)
    ensures
        padded_decimal(v, w).len() == w,
        forall|m: int| 0 <= m < w ==> is_digit(#[trigger] padded_decimal(v, w)[m]),
        v < ten_pow(w) ==> decimal_value(padded_decimal(v, w)) == v,
    decreases w,
{
    if w > 0 {
        let w1 = (w - 1) as nat;
        lemma_padded(v / 10, w1);
        let x = padded_decimal(v / 10, w1);
        let d = (v % 10) as int;
        let y = padded_decimal(v, w);
        assert(y == x.push(digit_char(d)));
        assert(is_digit(digit_char(d)) && digit_value(digit_char(d)) == d);
        assert forall|m: int| 0 <= m < w implies is_digit(#[trigger] y[m]) by {
            if m < w1 {
                assert(y[m] == x[m]);
            }
        }
        assert(y.drop_last() =~= x);
        if v < ten_pow(w) {
            assert(v / 10 < ten_pow(w1));
        }
    }
}

proof fn lemma_unix_range(c: CivilTime)
    requires
        valid_civil(c),
        0 <= c.year <= 9999,
    ensures
        -100_000_000_000 < unix_seconds(c) < 1_000_000_000_000,
{
}

/// The text of an instant fits the form of a timestamp.
proof fn lemma_instant_text(c: CivilTime)
    requires
        valid_civil(c),
        0 <= c.year <= 9999,
    ensures
        instant_text(c).len() == 22,
        forall|m: int| 0 <= m < 22 ==> fits(#[trigger] instant_text(c)[m], stamp_template()[m]),
{
    reveal(instant_text);
    reveal_strlit("0000-00-00 00:00:00+00");
    reveal_strlit("-");
    reveal_strlit(" ");
    reveal_strlit(":");
    reveal_strlit("+00");
    lemma_padded(c.year as nat, 4);
    lemma_padded(c.month as nat, 2);
    lemma_padded(c.day as nat, 2);
    lemma_padded(c.hour as nat, 2);
    lemma_padded(c.minute as nat, 2);
    lemma_padded(c.second as nat, 2);
    let t = instant_text(c);
    let y = padded_decimal(c.year as nat, 4);
    let mo = padded_decimal(c.month as nat, 2);
    let d = padded_decimal(c.day as nat, 2);
    let h = padded_decimal(c.hour as nat, 2);
    let mi = padded_decimal(c.minute as nat, 2);
    let se = padded_decimal(c.second as nat, 2);
    assert forall|m: int| 0 <= m < 22 implies fits(#[trigger] t[m], stamp_template()[m]) by {
        if m < 4 {
            assert(t[m] == y[m]);
        } else if 5 <= m < 7 {
            assert(t[m] == mo[m - 5]);
        } else if 8 <= m < 10 {
            assert(t[m] == d[m - 8]);
        } else if 11 <= m < 13 {
            assert(t[m] == h[m - 11]);
        } else if 14 <= m < 16 {
            assert(t[m] == mi[m - 14]);
        } else if 17 <= m < 19 {
            assert(t[m] == se[m - 17]);
        }
    }
}

/// A timestamp written at `at` reads back as its instant.
proof fn lemma_instant_reads(s: Seq<char>, at: int, c: CivilTime)
    requires
        valid_civil(c),
        0 <= c.year <= 9999,
        0 <= at,
        at + 22 <= s.len(),
        s.subrange(at, at + 22) == instant_text(c),
    ensures
        instant_at(s, at) == Some(instant_of(c)),
{
    reveal(instant_text);
    reveal_strlit("-");
    reveal_strlit(" ");
    reveal_strlit(":");
    reveal_strlit("+00");
    lemma_padded(c.year as nat, 4);
    lemma_padded(c.month as nat, 2);
    lemma_padded(c.day as nat, 2);
    lemma_padded(c.hour as nat, 2);
    lemma_padded(c.minute as nat, 2);
    lemma_padded(c.second as nat, 2);
    lemma_padded(0, 2);
    assert(ten_pow(0) == 1);
    assert(ten_pow(1) == 10);
    assert(ten_pow(2) == 100);
    assert(ten_pow(3) == 1000);
    assert(ten_pow(4) == 10000);
    assert(padded_decimal(0, 0) =~= Seq::<char>::empty());
    assert(padded_decimal(0, 1) =~= seq!['0']);
    assert(padded_decimal(0, 2) =~= seq!['0', '0']);
    let t = instant_text(c);
    assert(t.subrange(0, 4) =~= padded_decimal(c.year as nat, 4));
    assert(t.subrange(5, 7) =~= padded_decimal(c.month as nat, 2));
    assert(t.subrange(8, 10) =~= padded_decimal(c.day as nat, 2));
    assert(t.subrange(11, 13) =~= padded_decimal(c.hour as nat, 2));
    assert(t.subrange(14, 16) =~= padded_decimal(c.minute as nat, 2));
    assert(t.subrange(17, 19) =~= padded_decimal(c.second as nat, 2));
    assert(t.subrange(20, 22) =~= padded_decimal(0, 2));
    lemma_unix_range(c);
    assert(s.subrange(at, at + 4) =~= t.subrange(0, 4));
    assert(s.subrange(at + 5, at + 7) =~= t.subrange(5, 7));
    assert(s.subrange(at + 8, at + 10) =~= t.subrange(8, 10));
    assert(s.subrange(at + 11, at + 13) =~= t.subrange(11, 13));
    assert(s.subrange(at + 14, at + 16) =~= t.subrange(14, 16));
    assert(s.subrange(at + 17, at + 19) =~= t.subrange(17, 19));
    assert(s.subrange(at + 20, at + 22) =~= t.subrange(20, 22));
    assert(s[at + 19] == t[19]);
    assert(civil_at(s, at) == c);
}

/// A run of word characters from `j` up to a character that is not one ends there.
proof fn lemma_word_end(s: Seq<char>, j: int, k: int)
    requires
        0 <= j <= k < s.len(),
        forall|m: int| j <= m < k ==> is_word_char(#[trigger] s[m]),
        !is_word_char(s[k]),
    ensures
        word_end(s, j) == k,
    decreases k - j,
{
    if j < k {
        lemma_word_end(s, j + 1, k);
    }
}

/// Positions that do not hold `(` start no fragment.
proof fn lemma_skip(s: Seq<char>, a: int, b: int)
    requires
        0 <= a <= b <= s.len(),
        forall|m: int| a <= m < b ==> #[trigger] s[m] != '(',
    ensures
        next_fragment(s, a) == next_fragment(s, b),
    decreases b - a,
{
    reveal_strlit("(resource_id, timespan)=(");
    if a < b {
        if holds_at(s, a, fragment_head()) {
            assert(s.subrange(a, a + 25)[0] == s[a]);
        }
        lemma_skip(s, a + 1, b);
    }
}

/// What follows the resource id in a fragment.
pub open spec fn tail_text(ta: Seq<char>, tb: Seq<char>) -> Seq<char> {
    ", [\""@ + ta + "\",\""@ + tb + "\"))"@
}

proof fn lemma_tail_fits(ta: Seq<char>, tb: Seq<char>)
    requires
        ta.len() == 22,
        tb.len() == 22,
        forall|m: int| 0 <= m < 22 ==> fits(#[trigger] ta[m], stamp_template()[m]),
        forall|m: int| 0 <= m < 22 ==> fits(#[trigger] tb[m], stamp_template()[m]),
    ensures
        tail_text(ta, tb).len() == 54,
        tail_template().len() == 54,
        forall|m: int| 0 <= m < 54 ==> fits(#[trigger] tail_text(ta, tb)[m], tail_template()[m]),
{
    reveal_strlit(", [\"");
    reveal_strlit("\",\"");
    reveal_strlit("\"))");
    reveal_strlit(", [\"0000-00-00 00:00:00+00\",\"0000-00-00 00:00:00+00\"))");
    reveal_strlit("0000-00-00 00:00:00+00");
    let tail = tail_text(ta, tb);
    assert forall|m: int| 0 <= m < 54 implies fits(#[trigger] tail[m], tail_template()[m]) by {
        if 4 <= m < 26 {
            assert(tail[m] == ta[m - 4]);
            assert(fits(ta[m - 4], stamp_template()[m - 4]));
        } else if 29 <= m < 51 {
            assert(tail[m] == tb[m - 29]);
            assert(fits(tb[m - 29], stamp_template()[m - 29]));
        }
    }
}

/// The characters of a fragment written at `p`, piece by piece.
proof fn lemma_fragment_chars(s: Seq<char>, p: int, id: Seq<char>, a: CivilTime, b: CivilTime)
    requires
        0 <= p,
        p + fragment_text(id, a, b).len() <= s.len(),
        s.subrange(p, p + fragment_text(id, a, b).len()) == fragment_text(id, a, b),
        instant_text(a).len() == 22,
        instant_text(b).len() == 22,
    ensures
        fragment_text(id, a, b).len() == 25 + id.len() + 54,
        fragment_head().len() == 25,
        forall|i: int| 0 <= i < 25 ==> #[trigger] s[p + i] == fragment_head()[i],
        forall|i: int| 0 <= i < id.len() ==> #[trigger] s[p + 25 + i] == id[i],
        forall|i: int| 0 <= i < 54 ==> #[trigger] s[p + 25 + id.len() + i] == tail_text(instant_text(a), instant_text(b))[i],
{
    reveal_strlit("(resource_id, timespan)=(");
    reveal_strlit(", [\"");
    reveal_strlit("\",\"");
    reveal_strlit("\"))");
    reveal(fragment_text);
    let f = fragment_text(id, a, b);
    let n: int = id.len() as int;
    let tail = tail_text(instant_text(a), instant_text(b));
    assert(f =~= fragment_head() + id + tail);
    let sf = s.subrange(p, p + f.len());
    assert forall|i: int| 0 <= i < f.len() implies #[trigger] s[p + i] == f[i] by {
        assert(sf[i] == s[p + i]);
    }
    assert forall|i: int| 0 <= i < 25 implies #[trigger] s[p + i] == fragment_head()[i] by {
        assert(f[i] == fragment_head()[i]);
    }
    assert forall|i: int| 0 <= i < n implies #[trigger] s[p + 25 + i] == id[i] by {
        assert(s[p + (25 + i)] == f[25 + i]);
    }
    assert forall|i: int| 0 <= i < 54 implies #[trigger] s[p + 25 + n + i] == tail[i] by {
        assert(s[p + (25 + n + i)] == f[25 + n + i]);
    }
}

/// A fragment written at `p` is found there and read back.
proof fn lemma_fragment_reads(s: Seq<char>, p: int, id: Seq<char>, a: CivilTime, b: CivilTime)
    requires
        0 <= p,
        p + fragment_text(id, a, b).len() <= s.len(),
        s.subrange(p, p + fragment_text(id, a, b).len()) == fragment_text(id, a, b),
        is_word_id(id),
        valid_civil(a) && 0 <= a.year <= 9999,
        valid_civil(b) && 0 <= b.year <= 9999,
    ensures
        fragment_text(id, a, b).len() == 25 + id.len() + 54,
        fragment_at(s, p) == Some(p + 25 + id.len()),
        window_at(s, p + 25, p + 25 + id.len()) == Some((id, instant_of(a), instant_of(b))),
{
    lemma_instant_text(a);
    lemma_instant_text(b);
    let ta = instant_text(a);
    let tb = instant_text(b);
    lemma_tail_fits(ta, tb);
    lemma_fragment_chars(s, p, id, a, b);
    let n: int = id.len() as int;
    let k = p + 25 + n;
    let tail = tail_text(ta, tb);
    assert(s.subrange(p, p + 25) =~= fragment_head()) by {
        assert forall|i: int| 0 <= i < 25 implies s.subrange(p, p + 25)[i] == fragment_head()[i] by {
            assert(s[p + i] == fragment_head()[i]);
        }
    }
    assert forall|m: int| p + 25 <= m < k implies is_word_char(#[trigger] s[m]) by {
        assert(s[p + 25 + (m - p - 25)] == id[m - p - 25]);
    }
    assert(s[p + 25 + n + 0] == tail[0]);
    assert(tail[0] == ',') by {
        reveal_strlit(", [\"");
    }
    lemma_word_end(s, p + 25, k);
    assert forall|m: int| 0 <= m < 54 implies fits(#[trigger] s[k + m], tail_template()[m]) by {
        assert(s[p + 25 + n + m] == tail[m]);
        assert(fits(tail[m], tail_template()[m]));
    }
    assert(fragment_at(s, p) == Some(k));
    assert(s.subrange(k + 4, k + 26) =~= ta) by {
        assert forall|i: int| 0 <= i < 22 implies s.subrange(k + 4, k + 26)[i] == ta[i] by {
            assert(s[p + 25 + n + (4 + i)] == tail[4 + i]);
            reveal_strlit(", [\"");
        }
    }
    assert(s.subrange(k + 29, k + 51) =~= tb) by {
        assert forall|i: int| 0 <= i < 22 implies s.subrange(k + 29, k + 51)[i] == tb[i] by {
            assert(s[p + 25 + n + (29 + i)] == tail[29 + i]);
            reveal_strlit(", [\"");
            reveal_strlit("\",\"");
        }
    }
    assert(s.subrange(p + 25, k) =~= id) by {
        assert forall|i: int| 0 <= i < n implies s.subrange(p + 25, k)[i] == id[i] by {
            assert(s[p + 25 + i] == id[i]);
        }
    }
    lemma_instant_reads(s, k + 4, a);
    lemma_instant_reads(s, k + 29, b);
}

/// The diagnostic that the exclusion index writes for two windows parses
/// back to exactly those windows, the attempted one first.
pub proof fn lemma_diagnostic_round_trip(
    new_id: Seq<char>,
    new_start: CivilTime,
    new_end: CivilTime,
    old_id: Seq<char>,
    old_start: CivilTime,
    old_end: CivilTime,
)
    requires
        is_word_id(new_id),
        is_word_id(old_id),
        valid_civil(new_start) && 0 <= new_start.year <= 9999,
        valid_civil(new_end) && 0 <= new_end.year <= 9999,
        valid_civil(old_start) && 0 <= old_start.year <= 9999,
        valid_civil(old_end) && 0 <= old_end.year <= 9999,
    ensures
        parse_diagnostic(diagnostic_text(new_id, new_start, new_end, old_id, old_start, old_end))
            == Some(((new_id, instant_of(new_start), instant_of(new_end)), (old_id, instant_of(old_start), instant_of(old_end)))),
{
    reveal_strlit("Key ");
    reveal_strlit(" conflicts with existing key ");
    let key = "Key "@;
    let mid = " conflicts with existing key "@;
    let dot = "."@;
    let f1 = fragment_text(new_id, new_start, new_end);
    let f2 = fragment_text(old_id, old_start, old_end);
    assert forall|m: int| 0 <= m < 4 implies #[trigger] key[m] != '(' by {}
    assert forall|m: int| 0 <= m < 29 implies #[trigger] mid[m] != '(' by {}
    assert(diagnostic_text(new_id, new_start, new_end, old_id, old_start, old_end) =~= key + (f1 + (mid
        + (f2 + dot))));
    lemma_layout(
        key + (f1 + (mid + (f2 + dot))),
        key,
        mid,
        dot,
        new_id,
        new_start,
        new_end,
        old_id,
        old_start,
        old_end,
    );
}

/// Two fragments, each after text that holds no `(`, parse as a pair.
#[verifier::rlimit(100)]
proof fn lemma_layout(
    s: Seq<char>,
    key: Seq<char>,
    mid: Seq<char>,
    dot: Seq<char>,
    new_id: Seq<char>,
    new_start: CivilTime,
    new_end: CivilTime,
    old_id: Seq<char>,
    old_start: CivilTime,
    old_end: CivilTime,
)
    requires
        is_word_id(new_id),
        is_word_id(old_id),
        valid_civil(new_start) && 0 <= new_start.year <= 9999,
        valid_civil(new_end) && 0 <= new_end.year <= 9999,
        valid_civil(old_start) && 0 <= old_start.year <= 9999,
        valid_civil(old_end) && 0 <= old_end.year <= 9999,
        forall|m: int| 0 <= m < key.len() ==> #[trigger] key[m] != '(',
        forall|m: int| 0 <= m < mid.len() ==> #[trigger] mid[m] != '(',
        s == key + (fragment_text(new_id, new_start, new_end) + (mid + (fragment_text(
            old_id,
            old_start,
            old_end,
        ) + dot))),
    ensures
        parse_diagnostic(s) == Some(((new_id, instant_of(new_start), instant_of(new_end)), (old_id, instant_of(old_start), instant_of(old_end)))),
{
    let f1 = fragment_text(new_id, new_start, new_end);
    let f2 = fragment_text(old_id, old_start, old_end);
    let pa: int = key.len() as int;
    let ea = pa + f1.len();
    let pb = ea + mid.len();
    let front = key + f1;
    let back = mid + (f2 + dot);
    assert(s =~= front + back);
    lemma_piece(key, f1, back);
    lemma_piece(front + mid, f2, dot);
    assert((front + mid) + (f2 + dot) =~= s);
    lemma_fragment_reads(s, pa, new_id, new_start, new_end);
    lemma_fragment_reads(s, pb, old_id, old_start, old_end);
    assert forall|m: int| 0 <= m < pa implies #[trigger] s[m] != '(' by {
        assert(s[m] == key[m]);
    }
    lemma_skip(s, 0, pa);
    assert forall|m: int| ea <= m < pb implies #[trigger] s[m] != '(' by {
        assert(s[m] == back[m - ea]);
        assert(back[m - ea] == mid[m - ea]);
    }
    lemma_skip(s, ea, pb);
    let ka = pa + 25 + new_id.len();
    let kb = pb + 25 + old_id.len();
    assert(next_fragment(s, pa) == Some((pa, ka)));
    assert(next_fragment(s, pb) == Some((pb, kb)));
    lemma_two_fragments(
        s,
        pa,
        ka,
        pb,
        kb,
        (new_id, instant_of(new_start), instant_of(new_end)),
        (old_id, instant_of(old_start), instant_of(old_end)),
    );
}

proof fn lemma_two_fragments(s: Seq<char>, pa: int, ka: int, pb: int, kb: int, w1: WindowModel, w2: WindowModel)
    requires
        next_fragment(s, 0) == Some((pa, ka)),
        next_fragment(s, ka + 54) == Some((pb, kb)),
        window_at(s, pa + 25, ka) == Some(w1),
        window_at(s, pb + 25, kb) == Some(w2),
    ensures
        parse_diagnostic(s) == Some((w1, w2)),
{
}

/// `y` stands between `x` and `z`.
proof fn lemma_piece(x: Seq<char>, y: Seq<char>, z: Seq<char>)
    ensures
        (x + (y + z)).subrange(x.len() as int, (x.len() + y.len()) as int) == y,
{
    assert((x + (y + z)).subrange(x.len() as int, (x.len() + y.len()) as int) =~= y);
}

/// Positions that start no fragment can be passed over.
proof fn lemma_no_fragment(s: Seq<char>, a: int, b: int)
    requires
        0 <= a <= b <= s.len(),
        forall|q: int| a <= q < b ==> (#[trigger] fragment_at(s, q)) is None,
    ensures
        next_fragment(s, a) == next_fragment(s, b),
    decreases b - a,
{
    if a < b {
        lemma_no_fragment(s, a + 1, b);
    }
}

/// A position whose character differs from the first of `lit` does not hold `lit`.
proof fn lemma_not_at(s: Seq<char>, q: int, lit: Seq<char>, t: int)
    requires
        0 <= t < lit.len(),
        0 <= q + t < s.len(),
        s[q + t] != lit[t],
    ensures
        !holds_at(s, q, lit),
{
    if holds_at(s, q, lit) {
        assert(s.subrange(q, q + lit.len())[t] == s[q + t]);
    }
}

/// The characters of the tail template: no `(` and no `r` fit them.
proof fn lemma_tail_template_chars()
    ensures
        tail_template().len() == 54,
        forall|m: int| 0 <= m < 54 ==> !fits('(', #[trigger] tail_template()[m]) && !fits('r', tail_template()[m]),
{
    reveal_strlit(", [\"0000-00-00 00:00:00+00\",\"0000-00-00 00:00:00+00\"))");
}

/// Inside a fragment written at `p` in `orig`, no position after `p` starts
/// a fragment of `t`, when `t` differs from `orig` at most at a timestamp
/// position `pos`.
#[verifier::rlimit(100)]
proof fn lemma_fragment_quiet(orig: Seq<char>, t: Seq<char>, p: int, id: Seq<char>, a: CivilTime, b: CivilTime, pos: int)
    requires
        0 <= p,
        p + fragment_text(id, a, b).len() <= orig.len(),
        orig.subrange(p, p + fragment_text(id, a, b).len()) == fragment_text(id, a, b),
        is_word_id(id),
        valid_civil(a) && 0 <= a.year <= 9999,
        valid_civil(b) && 0 <= b.year <= 9999,
        t.len() == orig.len(),
        forall|q: int| 0 <= q < t.len() && q != pos ==> #[trigger] t[q] == orig[q],
        ({
            let k = p + 25 + id.len();
            (k + 4 <= pos < k + 26) || (k + 29 <= pos < k + 51) || pos < p || pos >= k + 54
        }),
    ensures
        forall|q: int| p < q < p + 25 + id.len() + 54 ==> (#[trigger] fragment_at(t, q)) is None,
{
    reveal_strlit("(resource_id, timespan)=(");
    lemma_instant_text(a);
    lemma_instant_text(b);
    let ta = instant_text(a);
    let tb = instant_text(b);
    lemma_tail_fits(ta, tb);
    lemma_tail_template_chars();
    lemma_fragment_chars(orig, p, id, a, b);
    let n: int = id.len() as int;
    let k = p + 25 + n;
    let tail = tail_text(ta, tb);
    let head = fragment_head();
    assert forall|q: int| p < q < k + 54 implies (#[trigger] fragment_at(t, q)) is None by {
        if q == p + 24 {
            if n > 11 {
                assert(t[p + 25 + 11] == orig[p + 25 + 11]);
                assert(orig[p + 25 + 11] == id[11]);
                lemma_not_at(t, q, head, 12);
            } else if n == 11 {
                assert(t[p + 25 + n + 2] == orig[p + 25 + n + 2]);
                assert(orig[p + 25 + n + 2] == tail[2]);
                assert(tail[2] == '[') by {
                    reveal_strlit(", [\"");
                }
                lemma_not_at(t, q, head, 14);
            } else {
                assert(t[p + 25 + n + 0] == orig[p + 25 + n + 0]);
                assert(orig[p + 25 + n + 0] == tail[0]);
                assert(tail[0] == ',') by {
                    reveal_strlit(", [\"");
                }
                lemma_not_at(t, q, head, 1 + n);
            }
        } else if q == pos {
            let m = pos + 1 - k;
            assert(t[pos + 1] == orig[p + 25 + n + m]);
            assert(fits(tail[m], tail_template()[m]));
            lemma_not_at(t, q, head, 1);
        } else {
            assert(t[q] == orig[q]);
            if q < p + 25 {
                assert(orig[p + (q - p)] == head[q - p]);
            } else if q < k {
                assert(orig[p + 25 + (q - p - 25)] == id[q - p - 25]);
            } else {
                assert(orig[p + 25 + n + (q - k)] == tail[q - k]);
                assert(fits(tail[q - k], tail_template()[q - k]));
            }
            lemma_not_at(t, q, head, 0);
        }
    }
}

/// At a fragment whose timestamp holds a character that its form does not
/// allow, no fragment starts.
#[verifier::rlimit(100)]
proof fn lemma_fragment_broken(orig: Seq<char>, t: Seq<char>, p: int, id: Seq<char>, a: CivilTime, b: CivilTime, pos: int, m: int)
    requires
        0 <= p,
        p + fragment_text(id, a, b).len() <= orig.len(),
        orig.subrange(p, p + fragment_text(id, a, b).len()) == fragment_text(id, a, b),
        is_word_id(id),
        valid_civil(a) && 0 <= a.year <= 9999,
        valid_civil(b) && 0 <= b.year <= 9999,
        t.len() == orig.len(),
        forall|q: int| 0 <= q < t.len() && q != pos ==> #[trigger] t[q] == orig[q],
        0 <= m < 22,
        pos == p + 25 + id.len() + 4 + m || pos == p + 25 + id.len() + 29 + m,
        !fits(t[pos], stamp_template()[m]),
    ensures
        fragment_at(t, p) is None,
{
    reveal_strlit(", [\"0000-00-00 00:00:00+00\",\"0000-00-00 00:00:00+00\"))");
    reveal_strlit("0000-00-00 00:00:00+00");
    lemma_instant_text(a);
    lemma_instant_text(b);
    lemma_tail_fits(instant_text(a), instant_text(b));
    lemma_fragment_chars(orig, p, id, a, b);
    let n: int = id.len() as int;
    let k = p + 25 + n;
    let tail = tail_text(instant_text(a), instant_text(b));
    assert forall|q: int| p + 25 <= q < k implies is_word_char(#[trigger] t[q]) by {
        assert(t[q] == orig[q]);
        assert(orig[p + 25 + (q - p - 25)] == id[q - p - 25]);
    }
    assert(t[p + 25 + n + 0] == orig[p + 25 + n + 0]);
    assert(tail[0] == ',') by {
        reveal_strlit(", [\"");
    }
    lemma_word_end(t, p + 25, k);
    let j = pos - k;
    assert(tail_template()[j] == stamp_template()[m]);
    assert(!fits(t[k + j], tail_template()[j]));
}

/// Replacing a character of one of the four timestamps of a diagnostic by
/// one that the form `YYYY-MM-DD HH:MM:SS±ZZ` does not allow at that place
/// leaves the diagnostic unparsed (it is kept as raw text).
pub proof fn lemma_broken_stamp_unparsed(
    new_id: Seq<char>,
    new_start: CivilTime,
    new_end: CivilTime,
    old_id: Seq<char>,
    old_start: CivilTime,
    old_end: CivilTime,
    pos: int,
    m: int,
    ch: char,
)
    requires
        is_word_id(new_id),
        is_word_id(old_id),
        valid_civil(new_start) && 0 <= new_start.year <= 9999,
        valid_civil(new_end) && 0 <= new_end.year <= 9999,
        valid_civil(old_start) && 0 <= old_start.year <= 9999,
        valid_civil(old_end) && 0 <= old_end.year <= 9999,
        0 <= m < 22,
        stamp_positions(new_id, old_id).contains(pos - m),
        !fits(ch, stamp_template()[m]),
    ensures
        parse_diagnostic(diagnostic_text(new_id, new_start, new_end, old_id, old_start, old_end).update(pos, ch))
            is None,
{
    reveal_strlit("Key ");
    reveal_strlit(" conflicts with existing key ");
    reveal_strlit(".");
    let key = "Key "@;
    let mid = " conflicts with existing key "@;
    let dot = "."@;
    let f1 = fragment_text(new_id, new_start, new_end);
    let f2 = fragment_text(old_id, old_start, old_end);
    assert forall|i: int| 0 <= i < 4 implies #[trigger] key[i] != '(' by {}
    assert forall|i: int| 0 <= i < 29 implies #[trigger] mid[i] != '(' by {}
    assert forall|i: int| 0 <= i < 1 implies #[trigger] dot[i] != '(' by {}
    assert(diagnostic_text(new_id, new_start, new_end, old_id, old_start, old_end) =~= key + (f1 + (mid
        + (f2 + dot))));
    lemma_layout_broken(
        key + (f1 + (mid + (f2 + dot))),
        key,
        mid,
        dot,
        new_id,
        new_start,
        new_end,
        old_id,
        old_start,
        old_end,
        pos,
        m,
        ch,
    );
}

/// Where the four timestamps of a diagnostic start.
pub open spec fn stamp_positions(new_id: Seq<char>, old_id: Seq<char>) -> Seq<int> {
    let ka: int = 4 + 25 + new_id.len() as int;
    let kb: int = ka + 54 + 29 + 25 + old_id.len() as int;
    seq![ka + 4, ka + 29, kb + 4, kb + 29]
}

#[verifier::rlimit(100)]
proof fn lemma_layout_broken(
    s: Seq<char>,
    key: Seq<char>,
    mid: Seq<char>,
    dot: Seq<char>,
    new_id: Seq<char>,
    new_start: CivilTime,
    new_end: CivilTime,
    old_id: Seq<char>,
    old_start: CivilTime,
    old_end: CivilTime,
    pos: int,
    m: int,
    ch: char,
)
    requires
        is_word_id(new_id),
        is_word_id(old_id),
        valid_civil(new_start) && 0 <= new_start.year <= 9999,
        valid_civil(new_end) && 0 <= new_end.year <= 9999,
        valid_civil(old_start) && 0 <= old_start.year <= 9999,
        valid_civil(old_end) && 0 <= old_end.year <= 9999,
        key.len() == 4,
        mid.len() == 29,
        forall|i: int| 0 <= i < key.len() ==> #[trigger] key[i] != '(',
        forall|i: int| 0 <= i < mid.len() ==> #[trigger] mid[i] != '(',
        forall|i: int| 0 <= i < dot.len() ==> #[trigger] dot[i] != '(',
        s == key + (fragment_text(new_id, new_start, new_end) + (mid + (fragment_text(
            old_id,
            old_start,
            old_end,
        ) + dot))),
        0 <= m < 22,
        stamp_positions(new_id, old_id).contains(pos - m),
        !fits(ch, stamp_template()[m]),
    ensures
        parse_diagnostic(s.update(pos, ch)) is None,
{
    let f1 = fragment_text(new_id, new_start, new_end);
    let f2 = fragment_text(old_id, old_start, old_end);
    let pa: int = 4;
    let ea = pa + f1.len();
    let pb = ea + 29;
    let eb = pb + f2.len();
    let front = key + f1;
    let back = mid + (f2 + dot);
    assert(s =~= front + back);
    lemma_piece(key, f1, back);
    lemma_piece(front + mid, f2, dot);
    assert((front + mid) + (f2 + dot) =~= s);
    lemma_fragment_reads(s, pa, new_id, new_start, new_end);
    lemma_fragment_reads(s, pb, old_id, old_start, old_end);
    let t = s.update(pos, ch);
    let ka = pa + 25 + new_id.len();
    let kb = pb + 25 + old_id.len();
    let sp = stamp_positions(new_id, old_id);
    assert(sp[0] == ka + 4 && sp[1] == ka + 29 && sp[2] == kb + 4 && sp[3] == kb + 29);
    let first = pos < ea;
    assert(first ==> (pos == ka + 4 + m || pos == ka + 29 + m));
    assert(!first ==> (pos == kb + 4 + m || pos == kb + 29 + m));
    assert(t.len() == s.len());
    assert forall|q: int| 0 <= q < t.len() && q != pos implies #[trigger] t[q] == s[q] by {}
    assert(t[pos] == ch);
    assert forall|q: int| 0 <= q < pa implies #[trigger] t[q] != '(' by {
        assert(s[q] == key[q]);
    }
    lemma_skip(t, 0, pa);
    assert forall|q: int| ea <= q < pb implies #[trigger] t[q] != '(' by {
        assert(s[q] == back[q - ea]);
        assert(back[q - ea] == mid[q - ea]);
    }
    lemma_skip(t, ea, pb);
    assert forall|q: int| eb <= q < t.len() implies #[trigger] t[q] != '(' by {
        assert(s[q] == (f2 + dot)[q - pb]);
        assert((f2 + dot)[q - pb] == dot[q - eb]);
    }
    lemma_skip(t, eb, t.len() as int);
    lemma_fragment_quiet(s, t, pa, new_id, new_start, new_end, pos);
    lemma_fragment_quiet(s, t, pb, old_id, old_start, old_end, pos);
    lemma_no_fragment(t, pa + 1, ea);
    lemma_no_fragment(t, pb + 1, eb);
    if first {
        lemma_fragment_broken(s, t, pa, new_id, new_start, new_end, pos, m);
        assert(t.subrange(pb, eb) =~= s.subrange(pb, eb));
        lemma_fragment_reads(t, pb, old_id, old_start, old_end);
        assert(next_fragment(t, pa) == next_fragment(t, pa + 1));
        assert(next_fragment(t, pb) == Some((pb, kb)));
        assert(next_fragment(t, kb + 54) is None);
    } else {
        lemma_fragment_broken(s, t, pb, old_id, old_start, old_end, pos, m);
        assert(t.subrange(pa, ea) =~= s.subrange(pa, ea));
        lemma_fragment_reads(t, pa, new_id, new_start, new_end);
        assert(next_fragment(t, pa) == Some((pa, ka)));
        assert(next_fragment(t, pb) == next_fragment(t, pb + 1));
        assert(next_fragment(t, ka + 54) is None);
    }
}

} // verus!
