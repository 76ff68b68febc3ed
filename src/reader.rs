//! Sentence classification and decoding into typed outcomes.
//!
//! Position sentences are decoded by a general NMEA decoder outside this
//! module (its readings carry floating-point values); what it reports comes
//! back here as a `GgaReading`. Date sentences are decoded here.
use vstd::prelude::*;

use crate::assembler::{sentence_view, step, NmeaAssembler};
use crate::bounded::{
    date_text_bytes, new_date_text, new_time_text, push_date_char, push_time_char,
    sentence_as_bytes, sentence_bytes, time_text_bytes,
};

verus! {

/// What the receiver reported for one instant. Latitude and longitude are in
/// ten-millionths of a degree, altitude in millimetres, HDOP in hundredths,
/// the timestamp in milliseconds since midnight (UTC).
#[derive(Clone, Copy, Debug, PartialEq, Eq, Structural)]
pub struct GpsReaderResults {
    pub lat: Option<i32>,
    pub lon: Option<i32>,
    pub alt: Option<i32>,
    pub hdop: Option<u32>,
    pub timestamp: Option<u32>,
}

/// The quality of a fix, as the receiver grades it.
#[derive(Clone, Copy, Debug, PartialEq, Eq, Structural)]
pub enum FixQuality {
    Invalid,
    Gps,
    DGps,
    FloatRtk,
    Rtk,
    Other,
}

/// What the NMEA decoder made of a position sentence it accepted.
#[derive(Clone, Copy, Debug, PartialEq, Eq, Structural)]
pub struct GgaReading {
    pub fix: Option<FixQuality>,
    pub position: GpsReaderResults,
}

/// How a sentence was classified.
#[derive(Clone, Copy, Debug, PartialEq, Eq, Structural)]
pub enum SentenceKind {
    Position,
    Date,
    Uninteresting,
    Malformed,
}

/// The diagnostic label of an outcome.
#[derive(Clone, Copy, Debug, PartialEq, Eq, Structural)]
pub enum ParseLabel {
    /// A position sentence with a usable fix.
    GgaOk,
    /// A position sentence without a fix yet.
    GgaNoFix,
    /// A position sentence that the decoder refused.
    GgaRejected,
    /// A date sentence, decoded.
    Zda,
    /// A date sentence whose fields could not be decoded.
    ZdaRejected,
    /// A well-formed sentence of a kind not used here.
    Uninteresting,
    /// Not `$`-led, or without a checksum delimiter.
    Malformed,
}

impl ParseLabel {
    /// The tag put before a sentence in diagnostics.
    pub fn tag(&self) -> (r: &'static str)
        ensures
            r@ == tag_of(*self),
    {
        match self {
            ParseLabel::GgaOk => "[GGA-OK] ",
            ParseLabel::GgaNoFix => "[GGA-NOFIX] ",
            ParseLabel::GgaRejected => "[ERR] ",
            ParseLabel::Zda => "[ZDA] ",
            ParseLabel::ZdaRejected => "[ZDA-ERR] ",
            ParseLabel::Uninteresting => "[SKIP] ",
            ParseLabel::Malformed => "[BAD] ",
        }
    }
}

pub open spec fn tag_of(l: ParseLabel) -> Seq<char> {
    match l {
        ParseLabel::GgaOk => "[GGA-OK] "@,
        ParseLabel::GgaNoFix => "[GGA-NOFIX] "@,
        ParseLabel::GgaRejected => "[ERR] "@,
        ParseLabel::Zda => "[ZDA] "@,
        ParseLabel::ZdaRejected => "[ZDA-ERR] "@,
        ParseLabel::Uninteresting => "[SKIP] "@,
        ParseLabel::Malformed => "[BAD] "@,
    }
}

pub const DOLLAR: u8 = 0x24;

pub const STAR: u8 = 0x2A;

pub const COMMA: u8 = 0x2C;

pub const PLUS: u8 = 0x2B;

pub const ZERO: u8 = 0x30;

pub const SLASH: u8 = 0x2F;

pub const COLON: u8 = 0x3A;

/// `$GNGGA`, which leads a position sentence.
pub open spec fn gga_prefix() -> Seq<u8> {
    seq![0x24u8, 0x47u8, 0x4Eu8, 0x47u8, 0x47u8, 0x41u8]
}

/// `$GNZDA`, which leads a date sentence.
pub open spec fn zda_prefix() -> Seq<u8> {
    seq![0x24u8, 0x47u8, 0x4Eu8, 0x5Au8, 0x44u8, 0x41u8]
}

pub open spec fn starts_with(s: Seq<u8>, p: Seq<u8>) -> bool {
    p.len() <= s.len() && s.subrange(0, p.len() as int) == p
}

pub open spec fn kind_of(s: Seq<u8>) -> SentenceKind {
    if !(s.len() > 0 && s[0] == DOLLAR && s.contains(STAR)) {
        SentenceKind::Malformed
    } else if starts_with(s, gga_prefix()) {
        SentenceKind::Position
    } else if starts_with(s, zda_prefix()) {
        SentenceKind::Date
    } else {
        SentenceKind::Uninteresting
    }
}

fn has_prefix(b: &[u8], p: &[u8]) -> (r: bool)
    ensures
        r == starts_with(b@, p@),
{
    if p.len() > b.len() {
        return false;
    }
    let mut i: usize = 0;
    while i < p.len()
        invariant
            p.len() <= b.len(),
            i <= p.len(),
            forall|j: int| 0 <= j < i ==> b@[j] == p@[j],
        decreases p.len() - i,
    {
        if b[i] != p[i] {
            assert(b@.subrange(0, p.len() as int)[i as int] != p@[i as int]);
            return false;
        }
        i += 1;
    }
    assert(b@.subrange(0, p.len() as int) =~= p@);
    true
}

fn has_gga_prefix(b: &[u8]) -> (r: bool)
    ensures
        r == starts_with(b@, gga_prefix()),
{
    let p: [u8; 6] = [0x24, 0x47, 0x4E, 0x47, 0x47, 0x41];
    assert(p@ =~= gga_prefix());
    has_prefix(b, p.as_slice())
}

fn has_zda_prefix(b: &[u8]) -> (r: bool)
    ensures
        r == starts_with(b@, zda_prefix()),
{
    let p: [u8; 6] = [0x24, 0x47, 0x4E, 0x5A, 0x44, 0x41];
    assert(p@ =~= zda_prefix());
    has_prefix(b, p.as_slice())
}

fn contains_byte(b: &[u8], x: u8) -> (r: bool)
    ensures
        r == b@.contains(x),
{
    let mut i: usize = 0;
    while i < b.len()
        invariant
            i <= b.len(),
            forall|j: int| 0 <= j < i ==> b@[j] != x,
        decreases b.len() - i,
    {
        if b[i] == x {
            return true;
        }
        i += 1;
    }
    false
}

/// Whether `line` is a position or a date sentence, the two kinds used here.
pub fn is_sentence_of_interest(line: &heapless::String<82>) -> (r: bool)
    ensures
        r == (starts_with(sentence_bytes(*line), gga_prefix()) || starts_with(
            sentence_bytes(*line),
            zda_prefix(),
        )),
{
    let b = sentence_as_bytes(line);
    has_gga_prefix(b) || has_zda_prefix(b)
}

/// Classifies a sentence by its shape and its leading bytes.
pub fn classify(b: &[u8]) -> (r: SentenceKind)
    ensures
        r == kind_of(b@),
{
    if !(b.len() > 0 && b[0] == DOLLAR && contains_byte(b, STAR)) {
        SentenceKind::Malformed
    } else if has_gga_prefix(b) {
        SentenceKind::Position
    } else if has_zda_prefix(b) {
        SentenceKind::Date
    } else {
        SentenceKind::Uninteresting
    }
}

/// The comma-separated fields of `s`, in order; a sentence with no comma is one field.
pub open spec fn fields(s: Seq<u8>) -> Seq<Seq<u8>>
    decreases s.len(),
{
    if s.len() == 0 {
        seq![Seq::<u8>::empty()]
    } else {
        let f = fields(s.drop_last());
        if s.last() == COMMA {
            f.push(Seq::<u8>::empty())
        } else {
            f.update(f.len() - 1, f.last().push(s.last()))
        }
    }
}

proof fn lemma_fields_nonempty(s: Seq<u8>)
    ensures
        fields(s).len() >= 1,
    decreases s.len(),
{
    if s.len() > 0 {
        lemma_fields_nonempty(s.drop_last());
    }
}

/// Reading further only adds fields or grows the last one: every field that
/// a comma has closed stays as it is.
proof fn lemma_fields_extend(s: Seq<u8>, i: int, j: int)
    requires
        0 <= i <= j <= s.len(),
    ensures
        fields(s.subrange(0, i)).len() <= fields(s.subrange(0, j)).len(),
        forall|m: int|
            0 <= m < fields(s.subrange(0, i)).len() - 1 ==> fields(s.subrange(0, j))[m] == fields(
                s.subrange(0, i),
            )[m],
    decreases j - i,
{
    if i < j {
        lemma_fields_extend(s, i, j - 1);
        let t = s.subrange(0, j);
        assert(t.drop_last() =~= s.subrange(0, j - 1));
        lemma_fields_nonempty(t.drop_last());
    }
}

/// Where field `k` of `b` lies, if `b` has that many fields.
fn field_bounds(b: &[u8], k: usize) -> (r: Option<(usize, usize)>)
    ensures
        match r {
            Some((a, e)) => a <= e <= b@.len() && k < fields(b@).len() && b@.subrange(
                a as int,
                e as int,
            ) == fields(b@)[k as int],
            None => k >= fields(b@).len(),
        },
{
    let mut i: usize = 0;
    let mut count: usize = 0;
    let mut start: usize = 0;
    assert(b@.subrange(0, 0) =~= Seq::<u8>::empty());
    while i < b.len()
        invariant
            start <= i <= b.len(),
            count <= k,
            count + 1 == fields(b@.subrange(0, i as int)).len(),
            b@.subrange(start as int, i as int) == fields(b@.subrange(0, i as int)).last(),
        decreases b.len() - i,
    {
        let ghost pre = b@.subrange(0, i as int);
        let ghost next = b@.subrange(0, i + 1);
        assert(next.drop_last() =~= pre);
        if b[i] == COMMA {
            if count == k {
                proof {
                    lemma_fields_extend(b@, i + 1, b@.len() as int);
                    assert(b@.subrange(0, b@.len() as int) =~= b@);
                    assert(fields(next)[k as int] == fields(pre).last());
                }
                return Some((start, i));
            }
            count += 1;
            start = i + 1;
            assert(b@.subrange(start as int, i + 1) =~= Seq::<u8>::empty());
        } else {
            assert(b@.subrange(start as int, i + 1) =~= b@.subrange(start as int, i as int).push(
                b@[i as int],
            ));
        }
        i += 1;
    }
    assert(b@.subrange(0, b@.len() as int) =~= b@);
    if count == k {
        Some((start, i))
    } else {
        None
    }
}

pub open spec fn is_digit(b: u8) -> bool {
    ZERO <= b <= ZERO + 9
}

pub open spec fn all_digits(d: Seq<u8>) -> bool {
    forall|i: int| 0 <= i < d.len() ==> is_digit(#[trigger] d[i])
}

pub open spec fn digits_value(d: Seq<u8>) -> nat
    decreases d.len(),
{
    if d.len() == 0 {
        0
    } else {
        digits_value(d.drop_last()) * 10 + (d.last() - ZERO) as nat
    }
}

/// The number that std's unsigned `parse` reads from `t`: an optional `+`,
/// then one or more decimal digits.
pub open spec fn decimal_of(t: Seq<u8>) -> Option<nat> {
    let d = if t.len() > 0 && t[0] == PLUS {
        t.drop_first()
    } else {
        t
    };
    if d.len() > 0 && all_digits(d) {
        Some(digits_value(d))
    } else {
        None
    }
}

/// `decimal_of(t)` when it is at most `max`.
pub open spec fn bounded_decimal(t: Seq<u8>, max: nat) -> Option<nat> {
    match decimal_of(t) {
        Some(v) => if v <= max {
            Some(v)
        } else {
            None
        },
        None => None,
    }
}

proof fn lemma_digits_grow(d: Seq<u8>, k: int)
    requires
        0 <= k <= d.len(),
        forall|i: int| 0 <= i < d.len() ==> is_digit(#[trigger] d[i]),
    ensures
        digits_value(d.subrange(0, k)) <= digits_value(d),
    decreases d.len() - k,
{
    if k < d.len() {
        lemma_digits_grow(d, k + 1);
        let t = d.subrange(0, k + 1);
        assert(t.drop_last() =~= d.subrange(0, k));
    } else {
        assert(d.subrange(0, k) =~= d);
    }
}

/// Reads the decimal number in `b[start..end]`, refusing one above `max`.
fn parse_decimal(b: &[u8], start: usize, end: usize, max: u32) -> (r: Option<u32>)
    requires
        start <= end <= b@.len(),
    ensures
        match r {
            Some(v) => bounded_decimal(b@.subrange(start as int, end as int), max as nat) == Some(
                v as nat,
            ),
            None => bounded_decimal(b@.subrange(start as int, end as int), max as nat) is None,
        },
{
    let ghost t = b@.subrange(start as int, end as int);
    let mut i: usize = start;
    if start < end && b[start] == PLUS {
        i = start + 1;
    }
    let ghost d = b@.subrange(i as int, end as int);
    proof {
        if t.len() > 0 && t[0] == PLUS {
            assert(d =~= t.drop_first());
        } else {
            assert(d =~= t);
        }
    }
    if i == end {
        return None;
    }
    let first = i;
    let mut acc: u64 = 0;
    assert(d.subrange(0, 0) =~= Seq::<u8>::empty());
    while i < end
        invariant
            first <= i <= end <= b@.len(),
            d == b@.subrange(first as int, end as int),
            t == b@.subrange(start as int, end as int),
            d == (if t.len() > 0 && t[0] == PLUS {
                t.drop_first()
            } else {
                t
            }),
            d.len() > 0,
            forall|j: int| first <= j < i ==> is_digit(#[trigger] b@[j]),
            acc == digits_value(d.subrange(0, i - first)),
            acc <= max,
        decreases end - i,
    {
        let c = b[i];
        if c < ZERO || c > ZERO + 9 {
            assert(!is_digit(d[i - first]));
            assert(!all_digits(d));
            return None;
        }
        let ghost p = d.subrange(0, i + 1 - first);
        assert(p.drop_last() =~= d.subrange(0, i - first));
        let next: u64 = acc * 10 + (c - ZERO) as u64;
        if next > max as u64 {
            proof {
                if all_digits(d) {
                    lemma_digits_grow(d, i + 1 - first);
                }
            }
            return None;
        }
        acc = next;
        i += 1;
    }
    assert(d.subrange(0, d.len() as int) =~= d);
    assert forall|j: int| 0 <= j < d.len() implies is_digit(#[trigger] d[j]) by {
        assert(d[j] == b@[first + j]);
    }
    assert(all_digits(d));
    Some(acc as u32)
}

/// The calendar date and time of a date sentence, with its two renderings
/// (`DD/MM/YY` and `HH:MM`) for display.
pub struct InternalDateDTO {
    pub day: u8,
    pub month: u8,
    pub year: u32,
    pub hour: u8,
    pub minute: u8,
    pub second: u8,
    pub pretty_date: heapless::String<10>,
    pub pretty_time: heapless::String<5>,
}

pub open spec fn digit_char(v: nat) -> u8 {
    (ZERO + v) as u8
}

/// `v` in decimal, zero-padded to at least two digits, as `{:02}` writes it.
pub open spec fn padded2(v: nat) -> Seq<u8>
    decreases v,
{
    if v < 10 {
        seq![ZERO, digit_char(v)]
    } else if v < 100 {
        seq![digit_char(v / 10), digit_char(v % 10)]
    } else {
        padded2(v / 10).push(digit_char(v % 10))
    }
}

/// The two-byte piece of the time field that starts at `at`, read as a number.
pub open spec fn time_piece(f1: Seq<u8>, at: int) -> Option<nat> {
    bounded_decimal(f1.subrange(at, at + 2), 255)
}

/// Whether a date sentence decodes: it has a time field of at least six
/// bytes whose three two-byte pieces are numbers, and day, month and year
/// fields that are numbers of their sizes, the year at least four bytes long.
pub open spec fn date_decodes(s: Seq<u8>) -> bool {
    let f = fields(s);
    &&& f.len() >= 5
    &&& f[1].len() >= 6
    &&& f[4].len() >= 4
    &&& time_piece(f[1], 0) is Some
    &&& time_piece(f[1], 2) is Some
    &&& time_piece(f[1], 4) is Some
    &&& bounded_decimal(f[2], 255) is Some
    &&& bounded_decimal(f[3], 255) is Some
    &&& bounded_decimal(f[4], u32::MAX as nat) is Some
}

/// Whether `d` is what the date sentence `s` decodes to.
pub open spec fn date_matches(d: InternalDateDTO, s: Seq<u8>) -> bool {
    let f = fields(s);
    &&& d.hour as nat == time_piece(f[1], 0)->0
    &&& d.minute as nat == time_piece(f[1], 2)->0
    &&& d.second as nat == time_piece(f[1], 4)->0
    &&& d.day as nat == bounded_decimal(f[2], 255)->0
    &&& d.month as nat == bounded_decimal(f[3], 255)->0
    &&& d.year as nat == bounded_decimal(f[4], u32::MAX as nat)->0
    &&& date_text_bytes(d.pretty_date) == padded2(d.day as nat) + seq![SLASH] + padded2(
        d.month as nat,
    ) + seq![SLASH] + f[4].subrange(2, 4)
    &&& time_text_bytes(d.pretty_time) == padded2(d.hour as nat) + seq![COLON] + padded2(
        d.minute as nat,
    )
}

proof fn lemma_padded2_len(v: nat)
    requires
        v < 1000,
    ensures
        v < 100 ==> padded2(v).len() == 2,
        padded2(v).len() <= 3,
{
    if v >= 100 {
        assert(padded2(v / 10).len() == 2);
    }
}

proof fn lemma_two_digits_small(t: Seq<u8>)
    requires
        t.len() == 2,
        decimal_of(t) is Some,
    ensures
        decimal_of(t)->0 < 100,
{
    if t[0] == PLUS {
        let d = t.drop_first();
        assert(d.drop_last() =~= Seq::<u8>::empty());
        assert(is_digit(d[0]));
        assert(digits_value(d) == digits_value(d.drop_last()) * 10 + (d.last() - ZERO) as nat);
        assert(digits_value(Seq::<u8>::empty()) == 0);
    } else {
        let e = t.drop_last();
        assert(e.drop_last() =~= Seq::<u8>::empty());
        assert(is_digit(t[0]));
        assert(is_digit(t[1]));
        assert(e.last() == t[0]);
        assert(digits_value(e) == digits_value(e.drop_last()) * 10 + (e.last() - ZERO) as nat);
        assert(digits_value(Seq::<u8>::empty()) == 0);
        assert(digits_value(t) == digits_value(e) * 10 + (t.last() - ZERO) as nat);
    }
}

/// Every byte of a number that `decimal_of` reads is ASCII.
proof fn lemma_decimal_ascii(t: Seq<u8>, i: int)
    requires
        decimal_of(t) is Some,
        0 <= i < t.len(),
    ensures
        t[i] < 0x80,
{
    if t[0] == PLUS {
        if i > 0 {
            assert(t[i] == t.drop_first()[i - 1]);
            assert(is_digit(t.drop_first()[i - 1]));
        }
    } else {
        assert(is_digit(t[i]));
    }
}

fn push_padded2_date(s: &mut heapless::String<10>, v: u8)
    requires
        date_text_bytes(*old(s)).len() + padded2(v as nat).len() <= 10,
    ensures
        date_text_bytes(*final(s)) == date_text_bytes(*old(s)) + padded2(v as nat),
{
    let ghost s0 = date_text_bytes(*s);
    if v < 10 {
        push_date_char(s, ZERO);
        push_date_char(s, ZERO + v);
    } else if v < 100 {
        push_date_char(s, ZERO + v / 10);
        push_date_char(s, ZERO + v % 10);
    } else {
        let ghost w = v as nat / 10;
        assert(10 <= w < 100);
        assert(w / 10 == v as nat / 100);
        assert(padded2(w) == seq![digit_char(w / 10), digit_char(w % 10)]);
        push_date_char(s, ZERO + v / 100);
        push_date_char(s, ZERO + (v / 10) % 10);
        push_date_char(s, ZERO + v % 10);
    }
    assert(date_text_bytes(*s) =~= s0 + padded2(v as nat));
}

fn push_padded2_time(s: &mut heapless::String<5>, v: u8)
    requires
        v < 100,
        time_text_bytes(*old(s)).len() + 2 <= 5,
    ensures
        time_text_bytes(*final(s)) == time_text_bytes(*old(s)) + padded2(v as nat),
{
    let ghost s0 = time_text_bytes(*s);
    if v < 10 {
        push_time_char(s, ZERO);
        push_time_char(s, ZERO + v);
    } else {
        push_time_char(s, ZERO + v / 10);
        push_time_char(s, ZERO + v % 10);
    }
    assert(time_text_bytes(*s) =~= s0 + padded2(v as nat));
}

/// Reads the two-byte piece at `at` of the field in `b[a..e]`.
fn parse_time_piece(b: &[u8], a: usize, e: usize, at: usize) -> (r: Option<u8>)
    requires
        a <= e <= b@.len(),
        at + 2 <= e - a,
    ensures
        match r {
            Some(v) => time_piece(b@.subrange(a as int, e as int), at as int) == Some(v as nat)
                && v < 100,
            None => time_piece(b@.subrange(a as int, e as int), at as int) is None,
        },
{
    let ghost f = b@.subrange(a as int, e as int);
    assert(b@.subrange((a + at) as int, (a + at + 2) as int) =~= f.subrange(at as int, at + 2));
    match parse_decimal(b, a + at, a + at + 2, 255) {
        Some(v) => {
            proof {
                lemma_two_digits_small(f.subrange(at as int, at + 2));
            }
            Some(v as u8)
        },
        None => None,
    }
}

/// Decodes the date sentence `b`: the time from the first field, then the
/// day, month and year fields.
pub fn get_date_time(b: &[u8]) -> (r: Option<InternalDateDTO>)
    ensures
        r is Some <==> date_decodes(b@),
        r matches Some(d) ==> date_matches(d, b@),
{
    let ghost f = fields(b@);
    let (a1, e1) = match field_bounds(b, 1) {
        Some(x) => x,
        None => return None,
    };
    let (a4, e4) = match field_bounds(b, 4) {
        Some(x) => x,
        None => return None,
    };
    let (a2, e2) = match field_bounds(b, 2) {
        Some(x) => x,
        None => return None,
    };
    let (a3, e3) = match field_bounds(b, 3) {
        Some(x) => x,
        None => return None,
    };
    if e1 - a1 < 6 || e4 - a4 < 4 {
        return None;
    }
    let hour = match parse_time_piece(b, a1, e1, 0) {
        Some(v) => v,
        None => return None,
    };
    let minute = match parse_time_piece(b, a1, e1, 2) {
        Some(v) => v,
        None => return None,
    };
    let second = match parse_time_piece(b, a1, e1, 4) {
        Some(v) => v,
        None => return None,
    };
    let day = match parse_decimal(b, a2, e2, 255) {
        Some(v) => v as u8,
        None => return None,
    };
    let month = match parse_decimal(b, a3, e3, 255) {
        Some(v) => v as u8,
        None => return None,
    };
    let year = match parse_decimal(b, a4, e4, u32::MAX) {
        Some(v) => v,
        None => return None,
    };
    proof {
        lemma_padded2_len(day as nat);
        lemma_padded2_len(month as nat);
        lemma_padded2_len(hour as nat);
        lemma_padded2_len(minute as nat);
    }
    proof {
        assert(b@.subrange(a4 as int, e4 as int)[2] == b@[a4 + 2]);
        assert(b@.subrange(a4 as int, e4 as int)[3] == b@[a4 + 3]);
        lemma_decimal_ascii(b@.subrange(a4 as int, e4 as int), 2);
        lemma_decimal_ascii(b@.subrange(a4 as int, e4 as int), 3);
    }
    let mut pretty_date = new_date_text();
    push_padded2_date(&mut pretty_date, day);
    push_date_char(&mut pretty_date, SLASH);
    push_padded2_date(&mut pretty_date, month);
    push_date_char(&mut pretty_date, SLASH);
    push_date_char(&mut pretty_date, b[a4 + 2]);
    push_date_char(&mut pretty_date, b[a4 + 3]);
    let mut pretty_time = new_time_text();
    push_padded2_time(&mut pretty_time, hour);
    push_time_char(&mut pretty_time, COLON);
    push_padded2_time(&mut pretty_time, minute);
    let d = InternalDateDTO { day, month, year, hour, minute, second, pretty_date, pretty_time };
    proof {
        assert(f[4].subrange(2, 4) =~= seq![b@[a4 + 2], b@[a4 + 3]]);
        assert(date_text_bytes(d.pretty_date) =~= padded2(day as nat) + seq![SLASH] + padded2(
            month as nat,
        ) + seq![SLASH] + f[4].subrange(2, 4));
        assert(time_text_bytes(d.pretty_time) =~= padded2(hour as nat) + seq![COLON] + padded2(
            minute as nat,
        ));
    }
    Some(d)
}

/// The outcome of one sentence: its label, the sentence itself for
/// diagnostics, and what was decoded from it.
pub struct ParseOut {
    pub fix: Option<FixQuality>,
    pub label: ParseLabel,
    pub line: heapless::String<82>,
    pub reader_results: Option<GpsReaderResults>,
    pub reader_datetime: Option<InternalDateDTO>,
}

/// A fix grade that counts as a fix: present, and not `Invalid`.
pub open spec fn usable(fix: Option<FixQuality>) -> bool {
    fix matches Some(q) && q != FixQuality::Invalid
}

/// Whether `o` is the outcome of sentence `s`, given what the NMEA decoder
/// reported for it (`None`: it refused the sentence).
pub open spec fn outcome_matches(o: ParseOut, s: Seq<u8>, gga: Option<GgaReading>) -> bool {
    &&& sentence_bytes(o.line) == s
    &&& match kind_of(s) {
        SentenceKind::Malformed => o.label == ParseLabel::Malformed && o.fix is None
            && o.reader_results is None && o.reader_datetime is None,
        SentenceKind::Uninteresting => o.label == ParseLabel::Uninteresting && o.fix is None
            && o.reader_results is None && o.reader_datetime is None,
        SentenceKind::Position => o.reader_datetime is None && match gga {
            None => o.label == ParseLabel::GgaRejected && o.fix is None && o.reader_results is None,
            Some(g) => if usable(g.fix) {
                o.label == ParseLabel::GgaOk && o.fix == g.fix && o.reader_results == Some(
                    g.position,
                )
            } else {
                o.label == ParseLabel::GgaNoFix && o.fix is None && o.reader_results is None
            },
        },
        SentenceKind::Date => o.fix is None && o.reader_results is None && if date_decodes(s) {
            o.label == ParseLabel::Zda && o.reader_datetime is Some && date_matches(
                o.reader_datetime->0,
                s,
            )
        } else {
            o.label == ParseLabel::ZdaRejected && o.reader_datetime is None
        },
    }
}

/// Turns a complete sentence into its outcome. `gga` is what the NMEA decoder
/// reported for it; it is read only when the sentence is a position sentence.
pub fn parse_line(line: heapless::String<82>, gga: Option<GgaReading>) -> (r: ParseOut)
    ensures
        outcome_matches(r, sentence_bytes(line), gga),
{
    let b = sentence_as_bytes(&line);
    let kind = classify(b);
    let mut out = ParseOut {
        fix: None,
        label: ParseLabel::Malformed,
        line: crate::bounded::new_sentence(),
        reader_results: None,
        reader_datetime: None,
    };
    match kind {
        SentenceKind::Malformed => {},
        SentenceKind::Uninteresting => {
            out.label = ParseLabel::Uninteresting;
        },
        SentenceKind::Position => {
            match gga {
                None => {
                    out.label = ParseLabel::GgaRejected;
                },
                Some(g) => {
                    match g.fix {
                        Some(q) if q != FixQuality::Invalid => {
                            out.label = ParseLabel::GgaOk;
                            out.fix = Some(q);
                            out.reader_results = Some(g.position);
                        },
                        _ => {
                            out.label = ParseLabel::GgaNoFix;
                        },
                    }
                },
            }
        },
        SentenceKind::Date => {
            match get_date_time(b) {
                Some(d) => {
                    out.label = ParseLabel::Zda;
                    out.reader_datetime = Some(d);
                },
                None => {
                    out.label = ParseLabel::ZdaRejected;
                },
            }
        },
    }
    out.line = line;
    out
}

/// Whether a sentence is one of the two kinds decoded here.
pub open spec fn of_interest(s: Seq<u8>) -> bool {
    starts_with(s, gga_prefix()) || starts_with(s, zda_prefix())
}

/// The producer side of the pipeline: serial bytes in, the completed
/// sentences worth decoding out.
pub struct GpsReader {
    assembler: NmeaAssembler,
}

impl GpsReader {
    pub closed spec fn pending(&self) -> Seq<u8> {
        self.assembler@
    }

    pub fn new() -> (r: Self)
        ensures
            r.pending() == Seq::<u8>::empty(),
    {
        GpsReader { assembler: NmeaAssembler::new() }
    }

    /// Feeds one byte; returns the sentence it completes when that is a
    /// position or a date sentence.
    pub fn next_sentence(&mut self, byte: u8) -> (r: Option<heapless::String<82>>)
        ensures
            final(self).pending() == step(old(self).pending(), byte).0,
            match step(old(self).pending(), byte).1 {
                Some(s) => if of_interest(s) {
                    sentence_view(r) == Some(s)
                } else {
                    r is None
                },
                None => r is None,
            },
    {
        match self.assembler.push_byte(byte) {
            Some(sentence) => {
                if is_sentence_of_interest(&sentence) {
                    Some(sentence)
                } else {
                    None
                }
            },
            None => None,
        }
    }
}

} // verus!
