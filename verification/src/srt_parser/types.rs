//! The timed-text data model: timestamps, single subtitles and ordered
//! subtitle collections, with exact parse/format contracts.

use vstd::prelude::*;

use crate::srt_parser::errors::ParsingError;
use crate::text::{
    all_digits, chars_to_string, dec_digits, digits_val, is_digit, lemma_dec_digits_val,
    lemma_leading_zero, parse_digits_max, push_dec_u64, str_chars,
};

verus! {

/// A subtitle timestamp; canonical text form `HH:MM:SS,mmm`.  Fields are not
/// normalized: minutes or seconds of sixty and more are representable.
#[derive(Debug, Clone, Copy, PartialEq, Eq, Structural)]
pub struct Timestamp {
    pub hours: u32,
    pub minutes: u32,
    pub seconds: u32,
    pub milliseconds: u32,
}

/// One timed text entry.
#[derive(Debug, Clone, PartialEq, Eq)]
pub struct Subtitle {
    pub number: usize,
    pub start_time: Timestamp,
    pub end_time: Timestamp,
    pub text: String,
}

/// An ordered collection of subtitles, in file order.
#[derive(Debug, Clone)]
pub struct Subtitles(pub Vec<Subtitle>);

// ---------------------------------------------------------------------------
// Timestamp formatting
// ---------------------------------------------------------------------------

/// Decimal rendering padded to at least two digits.
pub open spec fn pad2(n: nat) -> Seq<char> {
    if n < 10 {
        seq!['0'] + dec_digits(n)
    } else {
        dec_digits(n)
    }
}

/// Decimal rendering padded to at least three digits.
pub open spec fn pad3(n: nat) -> Seq<char> {
    if n < 10 {
        seq!['0', '0'] + dec_digits(n)
    } else if n < 100 {
        seq!['0'] + dec_digits(n)
    } else {
        dec_digits(n)
    }
}

/// The canonical text form of a timestamp.
pub open spec fn ts_format(t: Timestamp) -> Seq<char> {
    pad2(t.hours as nat) + seq![':'] + pad2(t.minutes as nat) + seq![':'] + pad2(t.seconds as nat)
        + seq![','] + pad3(t.milliseconds as nat)
}

// ---------------------------------------------------------------------------
// Timestamp parsing: split on ':' and ',', require four numeric fields
// ---------------------------------------------------------------------------

pub open spec fn is_ts_delim(c: char) -> bool {
    c == ':' || c == ','
}

/// Index of the first delimiter, or the length when there is none.
pub open spec fn delim_idx(s: Seq<char>) -> nat
    decreases s.len(),
{
    if s.len() == 0 {
        0
    } else if is_ts_delim(s[0]) {
        0
    } else {
        1 + delim_idx(s.skip(1))
    }
}

/// The fields of `s`, split on ':' and ','.
pub open spec fn split_ts(s: Seq<char>) -> Seq<Seq<char>>
    decreases s.len(),
{
    let k = delim_idx(s);
    if k >= s.len() {
        seq![s]
    } else {
        seq![s.take(k as int)] + split_ts(s.skip(k as int + 1))
    }
}

/// A field parses as an unsigned 32-bit number: nonempty, all digits, in
/// range.
pub open spec fn u32_field_ok(p: Seq<char>) -> bool {
    p.len() >= 1 && all_digits(p) && digits_val(p) <= u32::MAX
}

/// What `Timestamp::parse` accepts, and the value it returns.
pub open spec fn ts_parse_model(s: Seq<char>) -> Option<Timestamp> {
    let parts = split_ts(s);
    if parts.len() == 4 && u32_field_ok(parts[0]) && u32_field_ok(parts[1]) && u32_field_ok(
        parts[2],
    ) && u32_field_ok(parts[3]) {
        Some(
            Timestamp {
                hours: digits_val(parts[0]) as u32,
                minutes: digits_val(parts[1]) as u32,
                seconds: digits_val(parts[2]) as u32,
                milliseconds: digits_val(parts[3]) as u32,
            },
        )
    } else {
        None
    }
}

/// `delim_idx` is the unique index with no delimiter before it that either
/// holds a delimiter or is the end.
pub proof fn lemma_delim_idx_is(s: Seq<char>, k: int)
    requires
        0 <= k <= s.len(),
        forall|m: int| 0 <= m < k ==> !is_ts_delim(#[trigger] s[m]),
        k < s.len() ==> is_ts_delim(s[k]),
    ensures
        delim_idx(s) == k,
    decreases s.len(),
{
    if k == 0 {
        if s.len() > 0 {
            assert(is_ts_delim(s[0]));
        }
    } else {
        assert(!is_ts_delim(s[0]));
        let t = s.skip(1);
        assert forall|m: int| 0 <= m < k - 1 implies !is_ts_delim(#[trigger] t[m]) by {
            assert(t[m] == s[m + 1]);
        }
        if k - 1 < t.len() {
            assert(t[k - 1] == s[k]);
        }
        lemma_delim_idx_is(t, k - 1);
    }
}

/// Finds the first delimiter at or after `from`.
fn find_delim(s: &Vec<char>, from: usize) -> (r: usize)
    requires
        from <= s.len(),
    ensures
        from <= r <= s.len(),
        r - from == delim_idx(s@.skip(from as int)),
        forall|m: int| from <= m < r ==> !is_ts_delim(#[trigger] s@[m]),
        r < s.len() ==> is_ts_delim(s@[r as int]),
{
    let mut j: usize = from;
    while j < s.len() && !(s[j] == ':' || s[j] == ',')
        invariant
            from <= j <= s.len(),
            forall|m: int| from <= m < j ==> !is_ts_delim(#[trigger] s@[m]),
        decreases s.len() - j,
    {
        j = j + 1;
    }
    proof {
        let t = s@.skip(from as int);
        assert forall|m: int| 0 <= m < j - from implies !is_ts_delim(#[trigger] t[m]) by {
            assert(t[m] == s@[from + m]);
        }
        if (j as int) < s@.len() {
            assert(t[j - from] == s@[j as int]);
        }
        lemma_delim_idx_is(t, j - from);
    }
    j
}

/// Checks that `s[from..to]` is all decimal digits.
fn check_digits(s: &Vec<char>, from: usize, to: usize) -> (b: bool)
    requires
        from <= to <= s.len(),
    ensures
        b == all_digits(s@.subrange(from as int, to as int)),
{
    let mut i: usize = from;
    while i < to
        invariant
            from <= i <= to <= s.len(),
            forall|m: int| from <= m < i ==> crate::text::is_digit_char(#[trigger] s@[m]),
        decreases to - i,
    {
        if !is_digit(s[i]) {
            proof {
                let sub = s@.subrange(from as int, to as int);
                assert(sub[i - from] == s@[i as int]);
            }
            return false;
        }
        i = i + 1;
    }
    proof {
        let sub = s@.subrange(from as int, to as int);
        assert forall|m: int| 0 <= m < sub.len() implies crate::text::is_digit_char(
            #[trigger] sub[m],
        ) by {
            assert(sub[m] == s@[from + m]);
        }
    }
    true
}

/// Reads field `s[from..to]` as a `u32`, or reports why it is not one.
fn read_u32_field(s: &Vec<char>, from: usize, to: usize) -> (r: Option<u32>)
    requires
        from <= to <= s.len(),
    ensures
        match r {
            Some(v) => u32_field_ok(s@.subrange(from as int, to as int)) && v as nat == digits_val(
                s@.subrange(from as int, to as int),
            ),
            None => !u32_field_ok(s@.subrange(from as int, to as int)),
        },
{
    if from == to {
        proof {
            assert(s@.subrange(from as int, to as int).len() == 0);
        }
        return None;
    }
    if !check_digits(s, from, to) {
        return None;
    }
    match parse_digits_max(s, from, to, 0xffff_ffff) {
        Some(v) => Some(v as u32),
        None => None,
    }
}

impl Timestamp {
    pub fn new(hours: u32, minutes: u32, seconds: u32, milliseconds: u32) -> (r: Self)
        ensures
            r == (Timestamp { hours, minutes, seconds, milliseconds }),
    {
        Timestamp { hours, minutes, seconds, milliseconds }
    }

    /// Renders the timestamp as `HH:MM:SS,mmm`, each field zero-padded to its
    /// conventional width.  Always succeeds.
    pub fn to_string(&self) -> (r: String)
        ensures
            r@ == ts_format(*self),
    {
        let mut v: Vec<char> = Vec::new();
        push_pad2(&mut v, self.hours);
        v.push(':');
        push_pad2(&mut v, self.minutes);
        v.push(':');
        push_pad2(&mut v, self.seconds);
        v.push(',');
        push_pad3(&mut v, self.milliseconds);
        proof {
            assert(v@ =~= ts_format(*self));
        }
        chars_to_string(&v)
    }

    /// Parses `HH:MM:SS,mmm`-shaped text: exactly four colon/comma-delimited
    /// numeric fields, in order hours, minutes, seconds, milliseconds.  Any
    /// other shape is an `InvalidTimestamp` error.  No range normalization is
    /// applied.
    pub fn parse(s: &str) -> (r: Result<Timestamp, ParsingError>)
        ensures
            match ts_parse_model(s@) {
                Some(t) => r == Ok::<Timestamp, ParsingError>(t),
                None => r == Err::<Timestamp, ParsingError>(ParsingError::InvalidTimestamp),
            },
    {
        let v = str_chars(s);
        proof {
            assert(v@.skip(0) =~= v@);
        }
        let j1 = find_delim(&v, 0);
        if j1 == v.len() {
            proof {
                assert(split_ts(v@).len() == 1);
            }
            return Err(ParsingError::InvalidTimestamp);
        }
        proof {
            lemma_split_step(v@, 0, j1 as int);
        }
        let j2 = find_delim(&v, j1 + 1);
        if j2 == v.len() {
            proof {
                assert(split_ts(v@.skip(j1 + 1)).len() == 1);
            }
            return Err(ParsingError::InvalidTimestamp);
        }
        proof {
            lemma_split_step(v@, j1 + 1, j2 as int);
        }
        let j3 = find_delim(&v, j2 + 1);
        if j3 == v.len() {
            proof {
                assert(split_ts(v@.skip(j2 + 1)).len() == 1);
            }
            return Err(ParsingError::InvalidTimestamp);
        }
        proof {
            lemma_split_step(v@, j2 + 1, j3 as int);
        }
        let j4 = find_delim(&v, j3 + 1);
        if j4 < v.len() {
            proof {
                lemma_split_step(v@, j3 + 1, j4 as int);
                lemma_split_len_pos(v@.skip(j4 + 1));
            }
            return Err(ParsingError::InvalidTimestamp);
        }
        proof {
            assert(split_ts(v@.skip(j3 + 1)) =~= seq![v@.skip(j3 + 1)]);
            assert(split_ts(v@) =~= seq![
                v@.subrange(0, j1 as int),
                v@.subrange(j1 + 1, j2 as int),
                v@.subrange(j2 + 1, j3 as int),
                v@.skip(j3 + 1),
            ]);
            assert(v@.skip(j3 + 1) =~= v@.subrange(j3 + 1, v@.len() as int));
        }
        let h = read_u32_field(&v, 0, j1);
        let m = read_u32_field(&v, j1 + 1, j2);
        let sec = read_u32_field(&v, j2 + 1, j3);
        let ms = read_u32_field(&v, j3 + 1, v.len());
        match (h, m, sec, ms) {
            (Some(h), Some(m), Some(sec), Some(ms)) => Ok(
                Timestamp { hours: h, minutes: m, seconds: sec, milliseconds: ms },
            ),
            _ => Err(ParsingError::InvalidTimestamp),
        }
    }
}

/// Splitting after an initial delimiter-free run: the run is the first field.
proof fn lemma_split_step(s: Seq<char>, from: int, j: int)
    requires
        0 <= from <= j < s.len(),
        delim_idx(s.skip(from)) == j - from,
    ensures
        split_ts(s.skip(from)) == seq![s.subrange(from, j)] + split_ts(s.skip(j + 1)),
{
    let t = s.skip(from);
    assert(t.take(j - from) =~= s.subrange(from, j));
    assert(t.skip(j - from + 1) =~= s.skip(j + 1));
    assert(split_ts(t) == seq![t.take(j - from)] + split_ts(t.skip(j - from + 1)));
}

/// A split always has at least one field.
proof fn lemma_split_len_pos(s: Seq<char>)
    ensures
        split_ts(s).len() >= 1,
    decreases s.len(),
{
    let k = delim_idx(s);
    if k < s.len() {
        lemma_split_len_pos(s.skip(k as int + 1));
    }
}

// ---------------------------------------------------------------------------
// Rendering of subtitles and collections
// ---------------------------------------------------------------------------

/// The text form of one subtitle entry: number line, timestamp line, body.
pub open spec fn subtitle_render(sub: Subtitle) -> Seq<char> {
    dec_digits(sub.number as nat) + seq!['\n'] + ts_format(sub.start_time) + seq![
        ' ',
        '-',
        '-',
        '>',
        ' ',
    ] + ts_format(sub.end_time) + seq!['\n'] + sub.text@
}

/// The text form of a collection: entries separated by blank lines.
pub open spec fn subtitles_render(subs: Seq<Subtitle>) -> Seq<char> {
    if subs.len() == 0 {
        Seq::empty()
    } else {
        subtitle_render(subs[0]) + render_rest(subs.skip(1))
    }
}

pub open spec fn render_rest(subs: Seq<Subtitle>) -> Seq<char>
    decreases subs.len(),
{
    if subs.len() == 0 {
        Seq::empty()
    } else {
        seq!['\n', '\n'] + subtitle_render(subs[0]) + render_rest(subs.skip(1))
    }
}

impl Subtitle {
    pub fn new(number: usize, start_time: Timestamp, end_time: Timestamp, text: String) -> (r:
        Self)
        ensures
            r == (Subtitle { number, start_time, end_time, text }),
    {
        Subtitle { number, start_time, end_time, text }
    }

    /// Renders the entry in source-file form: the sequence number, then the
    /// `start --> end` timestamp line, then the body.
    pub fn to_string(&self) -> (r: String)
        ensures
            r@ == subtitle_render(*self),
    {
        let mut v: Vec<char> = Vec::new();
        push_subtitle(&mut v, self);
        proof {
            assert(v@ =~= subtitle_render(*self));
        }
        chars_to_string(&v)
    }
}

/// Appends the rendering of one subtitle entry.
fn push_subtitle(out: &mut Vec<char>, sub: &Subtitle)
    ensures
        final(out)@ == old(out)@ + subtitle_render(*sub),
{
    push_dec_u64(out, sub.number as u64);
    out.push('\n');
    push_ts(out, &sub.start_time);
    out.push(' ');
    out.push('-');
    out.push('-');
    out.push('>');
    out.push(' ');
    push_ts(out, &sub.end_time);
    out.push('\n');
    let mut tv = str_chars(sub.text.as_str());
    out.append(&mut tv);
    proof {
        assert(out@ =~= old(out)@ + subtitle_render(*sub));
    }
}

/// Appends the canonical rendering of a timestamp.
fn push_ts(out: &mut Vec<char>, t: &Timestamp)
    ensures
        final(out)@ == old(out)@ + ts_format(*t),
{
    push_pad2(out, t.hours);
    out.push(':');
    push_pad2(out, t.minutes);
    out.push(':');
    push_pad2(out, t.seconds);
    out.push(',');
    push_pad3(out, t.milliseconds);
    proof {
        assert(out@ =~= old(out)@ + ts_format(*t));
    }
}

impl Subtitles {
    pub fn new() -> (r: Self)
        ensures
            r.0@ =~= Seq::<Subtitle>::empty(),
    {
        Subtitles(Vec::new())
    }

    /// Appends one entry; insertion order is file order.
    pub fn push(&mut self, subtitle: Subtitle)
        ensures
            final(self).0@ == old(self).0@.push(subtitle),
    {
        self.0.push(subtitle);
    }

    pub fn len(&self) -> (n: usize)
        ensures
            n == self.0@.len(),
    {
        self.0.len()
    }

    pub fn is_empty(&self) -> (b: bool)
        ensures
            b == (self.0@.len() == 0),
    {
        self.0.is_empty()
    }

    /// Iterates over the entries in order.
    pub fn iter(&self) -> (it: std::slice::Iter<'_, Subtitle>)
        ensures
            vstd::std_specs::slice::into_iter_elts(it) == self.0@,
    {
        self.0.iter()
    }

    /// Entry at position `i`.
    pub fn get(&self, i: usize) -> (r: &Subtitle)
        requires
            i < self.0@.len(),
        ensures
            *r == self.0@[i as int],
    {
        &self.0[i]
    }

    /// Re-serializes the collection: entries in order, separated by blank
    /// lines, matching the source convention.
    pub fn to_string(&self) -> (r: String)
        ensures
            r@ == subtitles_render(self.0@),
    {
        let mut v: Vec<char> = Vec::new();
        if self.0.len() == 0 {
            return chars_to_string(&v);
        }
        push_subtitle(&mut v, &self.0[0]);
        let mut i: usize = 1;
        proof {
            assert(subtitles_render(self.0@) == subtitle_render(self.0@[0]) + render_rest(
                self.0@.skip(1),
            ));
        }
        while i < self.0.len()
            invariant
                1 <= i <= self.0@.len(),
                subtitles_render(self.0@) == v@ + render_rest(self.0@.skip(i as int)),
            decreases self.0@.len() - i,
        {
            proof {
                let rest = self.0@.skip(i as int);
                assert(rest[0] == self.0@[i as int]);
                assert(rest.skip(1) =~= self.0@.skip(i + 1));
            }
            v.push('\n');
            v.push('\n');
            push_subtitle(&mut v, &self.0[i]);
            proof {
                assert(subtitles_render(self.0@) =~= v@ + render_rest(self.0@.skip(i + 1)));
            }
            i = i + 1;
        }
        proof {
            assert(self.0@.skip(i as int) =~= Seq::<Subtitle>::empty());
            assert(subtitles_render(self.0@) =~= v@);
        }
        chars_to_string(&v)
    }
}

impl Default for Subtitles {
    /// The empty collection.
    fn default() -> (r: Self)
        ensures
            r.0@ == Seq::<Subtitle>::empty(),
    {
        Subtitles(Vec::new())
    }
}

// ---------------------------------------------------------------------------
// Round trip: a formatted timestamp parses back to itself
// ---------------------------------------------------------------------------

/// Padded renderings are nonempty digit fields holding the padded value.
proof fn lemma_pad2_field(n: nat)
    requires
        n <= u32::MAX,
    ensures
        u32_field_ok(pad2(n)),
        digits_val(pad2(n)) == n,
{
    lemma_dec_digits_val(n);
    if n < 10 {
        lemma_leading_zero(dec_digits(n));
        assert forall|k: int| 0 <= k < pad2(n).len() implies crate::text::is_digit_char(
            #[trigger] pad2(n)[k],
        ) by {
            if k >= 1 {
                assert(pad2(n)[k] == dec_digits(n)[k - 1]);
            }
        }
    }
}

proof fn lemma_pad3_field(n: nat)
    requires
        n <= u32::MAX,
    ensures
        u32_field_ok(pad3(n)),
        digits_val(pad3(n)) == n,
{
    lemma_dec_digits_val(n);
    if n < 10 {
        lemma_leading_zero(dec_digits(n));
        lemma_leading_zero(seq!['0'] + dec_digits(n));
        assert(seq!['0', '0'] + dec_digits(n) =~= seq!['0'] + (seq!['0'] + dec_digits(n)));
        assert forall|k: int| 0 <= k < pad3(n).len() implies crate::text::is_digit_char(
            #[trigger] pad3(n)[k],
        ) by {
            if k >= 2 {
                assert(pad3(n)[k] == dec_digits(n)[k - 2]);
            }
        }
    } else if n < 100 {
        lemma_leading_zero(dec_digits(n));
        assert forall|k: int| 0 <= k < pad3(n).len() implies crate::text::is_digit_char(
            #[trigger] pad3(n)[k],
        ) by {
            if k >= 1 {
                assert(pad3(n)[k] == dec_digits(n)[k - 1]);
            }
        }
    }
}

/// Law: parsing a formatted timestamp yields the original value, so
/// `format(parse(format(t))) == format(t)` for every timestamp.
#[verifier::rlimit(100)]
pub proof fn lemma_timestamp_roundtrip(t: Timestamp)
    ensures
        ts_parse_model(ts_format(t)) == Some(t),
{
    let p0 = pad2(t.hours as nat);
    let p1 = pad2(t.minutes as nat);
    let p2 = pad2(t.seconds as nat);
    let p3 = pad3(t.milliseconds as nat);
    lemma_pad2_field(t.hours as nat);
    lemma_pad2_field(t.minutes as nat);
    lemma_pad2_field(t.seconds as nat);
    lemma_pad3_field(t.milliseconds as nat);
    let s = ts_format(t);
    let j1 = p0.len() as int;
    let j2 = j1 + 1 + p1.len();
    let j3 = j2 + 1 + p2.len();
    assert(s.len() == j3 + 1 + p3.len());
    assert forall|m: int| 0 <= m < s.len() implies s[m] == spec_ts_char(t, m) by {}
    assert(s.skip(0) =~= s);
    assert forall|m: int| 0 <= m < j1 implies !is_ts_delim(#[trigger] s[m]) by {
        assert(s[m] == p0[m]);
    }
    assert(s[j1] == ':');
    lemma_delim_idx_is(s, j1);
    lemma_split_step_abs(s, 0, j1);
    let t1 = s.skip(j1 + 1);
    assert forall|m: int| 0 <= m < p1.len() implies !is_ts_delim(#[trigger] t1[m]) by {
        assert(t1[m] == s[j1 + 1 + m]);
        assert(s[j1 + 1 + m] == p1[m]);
    }
    assert(t1[p1.len() as int] == s[j2]);
    assert(s[j2] == ':');
    lemma_delim_idx_is(t1, p1.len() as int);
    lemma_split_step_abs(s, j1 + 1, j2);
    let t2 = s.skip(j2 + 1);
    assert forall|m: int| 0 <= m < p2.len() implies !is_ts_delim(#[trigger] t2[m]) by {
        assert(t2[m] == s[j2 + 1 + m]);
        assert(s[j2 + 1 + m] == p2[m]);
    }
    assert(t2[p2.len() as int] == s[j3]);
    assert(s[j3] == ',');
    lemma_delim_idx_is(t2, p2.len() as int);
    lemma_split_step_abs(s, j2 + 1, j3);
    let t3 = s.skip(j3 + 1);
    assert(t3 =~= p3);
    assert forall|m: int| 0 <= m < t3.len() implies !is_ts_delim(#[trigger] t3[m]) by {}
    lemma_delim_idx_is(t3, t3.len() as int);
    assert(split_ts(t3) == seq![t3]);
    assert(s.subrange(0, j1) =~= p0);
    assert(s.subrange(j1 + 1, j2) =~= p1);
    assert(s.subrange(j2 + 1, j3) =~= p2);
    assert(split_ts(s) =~= seq![p0, p1, p2, p3]);
}

/// The character of `ts_format(t)` at position `m`, by region.
spec fn spec_ts_char(t: Timestamp, m: int) -> char {
    let p0 = pad2(t.hours as nat);
    let p1 = pad2(t.minutes as nat);
    let p2 = pad2(t.seconds as nat);
    let p3 = pad3(t.milliseconds as nat);
    let j1 = p0.len() as int;
    let j2 = j1 + 1 + p1.len();
    let j3 = j2 + 1 + p2.len();
    if m < j1 {
        p0[m]
    } else if m == j1 {
        ':'
    } else if m < j2 {
        p1[m - j1 - 1]
    } else if m == j2 {
        ':'
    } else if m < j3 {
        p2[m - j2 - 1]
    } else if m == j3 {
        ','
    } else {
        p3[m - j3 - 1]
    }
}

/// `lemma_split_step` restated over absolute positions.
proof fn lemma_split_step_abs(s: Seq<char>, from: int, j: int)
    requires
        0 <= from <= j < s.len(),
        delim_idx(s.skip(from)) == j - from,
    ensures
        split_ts(s.skip(from)) == seq![s.subrange(from, j)] + split_ts(s.skip(j + 1)),
{
    lemma_split_step(s, from, j);
}

/// Appends the two-digit-padded rendering of `n`.
fn push_pad2(out: &mut Vec<char>, n: u32)
    ensures
        final(out)@ == old(out)@ + pad2(n as nat),
{
    if n < 10 {
        out.push('0');
    }
    push_dec_u64(out, n as u64);
    proof {
        assert(out@ =~= old(out)@ + pad2(n as nat));
    }
}

/// Appends the three-digit-padded rendering of `n`.
fn push_pad3(out: &mut Vec<char>, n: u32)
    ensures
        final(out)@ == old(out)@ + pad3(n as nat),
{
    if n < 10 {
        out.push('0');
        out.push('0');
    } else if n < 100 {
        out.push('0');
    }
    push_dec_u64(out, n as u64);
    proof {
        assert(out@ =~= old(out)@ + pad3(n as nat));
    }
}

} // verus!
