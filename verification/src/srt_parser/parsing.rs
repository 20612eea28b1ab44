//! The subtitle-file parser: scans normalized text for blocks of the fixed
//! grammar (a digit line, a `start --> end` timestamp line, a free-text body
//! ended by a blank line or the end of input) and converts every match, in
//! file order, into a structured entry.

use vstd::prelude::*;

use crate::srt_parser::errors::ParsingError;
use crate::srt_parser::types::{Subtitle, Subtitles, Timestamp};
use crate::text::{
    all_digits, digit_val, digits_val, is_digit_char, is_space_char, lemma_trimmed_parts, normalize,
    normalize_text, parse_digits_max, str_chars, trim_range, trim_spec, chars_to_string,
};

verus! {

/// One parsed subtitle file together with its resolved identity.
pub struct SrtEntry {
    pub show_name: String,
    pub episode_name: String,
    pub episode_number: i32,
    pub content: Subtitles,
}

// ---------------------------------------------------------------------------
// The block grammar, as spec functions over a suffix of the input
// ---------------------------------------------------------------------------

/// Twelve characters of the shape `dd:dd:dd,ddd`.
pub open spec fn is_ts12(u: Seq<char>) -> bool {
    u.len() == 12 && is_digit_char(u[0]) && is_digit_char(u[1]) && u[2] == ':' && is_digit_char(
        u[3],
    ) && is_digit_char(u[4]) && u[5] == ':' && is_digit_char(u[6]) && is_digit_char(u[7]) && u[8]
        == ',' && is_digit_char(u[9]) && is_digit_char(u[10]) && is_digit_char(u[11])
}

/// The timestamp encoded by a `dd:dd:dd,ddd` group.
pub open spec fn ts_of12(u: Seq<char>) -> Timestamp {
    Timestamp {
        hours: (digit_val(u[0]) * 10 + digit_val(u[1])) as u32,
        minutes: (digit_val(u[3]) * 10 + digit_val(u[4])) as u32,
        seconds: (digit_val(u[6]) * 10 + digit_val(u[7])) as u32,
        milliseconds: (digit_val(u[9]) * 100 + digit_val(u[10]) * 10 + digit_val(u[11])) as u32,
    }
}

/// Length of the leading run of decimal digits.
pub open spec fn digits_run(t: Seq<char>) -> nat
    decreases t.len(),
{
    if t.len() > 0 && is_digit_char(t[0]) {
        1 + digits_run(t.skip(1))
    } else {
        0
    }
}

pub open spec fn arrow_seq() -> Seq<char> {
    seq![' ', '-', '-', '>', ' ']
}

/// A block of the grammar starts at the head of `t`: a nonempty digit run,
/// a newline, `start --> end` with both timestamps well-shaped, a newline.
pub open spec fn block_head(t: Seq<char>) -> bool {
    let d = digits_run(t) as int;
    &&& d >= 1
    &&& t.len() >= d + 31
    &&& t[d] == '\n'
    &&& is_ts12(t.subrange(d + 1, d + 13))
    &&& t.subrange(d + 13, d + 18) == arrow_seq()
    &&& is_ts12(t.subrange(d + 18, d + 30))
    &&& t[d + 30] == '\n'
}

/// Position of the first blank line (`\n\n`) in `u`, if any.
pub open spec fn dblnl_pos(u: Seq<char>) -> Option<int>
    decreases u.len(),
{
    if u.len() < 2 {
        None
    } else if u[0] == '\n' && u[1] == '\n' {
        Some(0)
    } else {
        match dblnl_pos(u.skip(1)) {
            None => None,
            Some(k) => Some(k + 1),
        }
    }
}

/// Length of the body group: up to and including the first blank line after
/// the timestamp line, or to the end of input when there is none.
pub open spec fn block_body_len(t: Seq<char>) -> int {
    let d = digits_run(t) as int;
    let u = t.skip(d + 31);
    match dblnl_pos(u) {
        Some(k) => k + 2,
        None => u.len() as int,
    }
}

/// Total length of the block match starting at the head of `t`.
pub open spec fn block_len(t: Seq<char>) -> int {
    digits_run(t) + 31 + block_body_len(t)
}

/// The raw capture groups of one block match.
pub struct RawBlock {
    pub num: Seq<char>,
    pub ts1: Seq<char>,
    pub ts2: Seq<char>,
    pub body: Seq<char>,
}

pub open spec fn block_of(t: Seq<char>) -> RawBlock {
    let d = digits_run(t) as int;
    RawBlock {
        num: t.take(d),
        ts1: t.subrange(d + 1, d + 13),
        ts2: t.subrange(d + 18, d + 30),
        body: t.subrange(d + 31, block_len(t)),
    }
}

proof fn lemma_dblnl_some_bounds(u: Seq<char>)
    requires
        dblnl_pos(u) is Some,
    ensures
        0 <= dblnl_pos(u)->Some_0,
        dblnl_pos(u)->Some_0 + 2 <= u.len(),
    decreases u.len(),
{
    if u.len() < 2 {
    } else if u[0] == '\n' && u[1] == '\n' {
    } else {
        lemma_dblnl_some_bounds(u.skip(1));
    }
}

/// A block match is at least its head and at most the whole suffix.
proof fn lemma_block_len_bounds(t: Seq<char>)
    requires
        block_head(t),
    ensures
        digits_run(t) + 31 <= block_len(t) <= t.len(),
{
    let d = digits_run(t) as int;
    let u = t.skip(d + 31);
    match dblnl_pos(u) {
        Some(k) => {
            lemma_dblnl_some_bounds(u);
        },
        None => {},
    }
}

/// The non-overlapping, leftmost-first matches of the block grammar in `t`.
pub open spec fn scan(t: Seq<char>) -> Seq<RawBlock>
    decreases t.len(),
    via scan_dec
{
    if t.len() == 0 {
        Seq::empty()
    } else if block_head(t) {
        seq![block_of(t)] + scan(t.skip(block_len(t)))
    } else {
        scan(t.skip(1))
    }
}

#[via_fn]
proof fn scan_dec(t: Seq<char>) {
    if t.len() != 0 && block_head(t) {
        lemma_block_len_bounds(t);
    }
}

// ---------------------------------------------------------------------------
// The parser's result model
// ---------------------------------------------------------------------------

/// The value a parsed entry must carry: the number line's value, both
/// timestamps, and the body trimmed of surrounding whitespace.
pub struct SubtitleModel {
    pub number: nat,
    pub start_time: Timestamp,
    pub end_time: Timestamp,
    pub text: Seq<char>,
}

pub open spec fn model_of(b: RawBlock) -> SubtitleModel {
    SubtitleModel {
        number: digits_val(b.num),
        start_time: ts_of12(b.ts1),
        end_time: ts_of12(b.ts2),
        text: trim_spec(b.body),
    }
}

pub open spec fn sub_matches_model(s: Subtitle, m: SubtitleModel) -> bool {
    &&& s.number as nat == m.number
    &&& s.start_time == m.start_time
    &&& s.end_time == m.end_time
    &&& s.text@ == m.text
}

/// What `Subtitles::parse_from_str` returns on any input: the input is
/// normalized, every block match is converted in order, a sequence number
/// beyond the machine's range is `InvalidNumber`, and an input without a
/// single match is `MalformedSubtitle`.
pub open spec fn parse_model(input: Seq<char>) -> Result<Seq<SubtitleModel>, ParsingError> {
    let blocks = scan(normalize_text(input));
    if blocks.len() == 0 {
        Err(ParsingError::MalformedSubtitle)
    } else if exists|k: int|
        0 <= k < blocks.len() && digits_val(#[trigger] blocks[k].num) > usize::MAX as nat {
        Err(ParsingError::InvalidNumber)
    } else {
        Ok(Seq::new(blocks.len(), |k: int| model_of(blocks[k])))
    }
}

// ---------------------------------------------------------------------------
// Exec scanning helpers
// ---------------------------------------------------------------------------

proof fn lemma_digits_run_is(t: Seq<char>, k: int)
    requires
        0 <= k <= t.len(),
        forall|m: int| 0 <= m < k ==> is_digit_char(#[trigger] t[m]),
        k < t.len() ==> !is_digit_char(t[k]),
    ensures
        digits_run(t) == k,
    decreases t.len(),
{
    if k == 0 {
    } else {
        let u = t.skip(1);
        assert forall|m: int| 0 <= m < k - 1 implies is_digit_char(#[trigger] u[m]) by {
            assert(u[m] == t[m + 1]);
        }
        if k - 1 < u.len() {
            assert(u[k - 1] == t[k]);
        }
        lemma_digits_run_is(u, k - 1);
    }
}

/// End of the digit run starting at `i`.
pub(crate) fn scan_digits(s: &Vec<char>, i: usize) -> (j: usize)
    requires
        i <= s.len(),
    ensures
        i <= j <= s.len(),
        j - i == digits_run(s@.skip(i as int)),
        forall|m: int| i <= m < j ==> is_digit_char(#[trigger] s@[m]),
{
    let mut j: usize = i;
    while j < s.len() && crate::text::is_digit(s[j])
        invariant
            i <= j <= s.len(),
            forall|m: int| i <= m < j ==> is_digit_char(#[trigger] s@[m]),
        decreases s.len() - j,
    {
        j = j + 1;
    }
    proof {
        let t = s@.skip(i as int);
        assert forall|m: int| 0 <= m < j - i implies is_digit_char(#[trigger] t[m]) by {
            assert(t[m] == s@[i + m]);
        }
        if (j as int) < s@.len() {
            assert(t[j - i] == s@[j as int]);
        }
        lemma_digits_run_is(t, j - i);
    }
    j
}

/// Checks the `dd:dd:dd,ddd` shape at position `pos`.
fn ts12_at(s: &Vec<char>, pos: usize) -> (b: bool)
    requires
        pos + 12 <= s.len(),
    ensures
        b == is_ts12(s@.subrange(pos as int, pos + 12)),
{
    let ghost u = s@.subrange(pos as int, pos + 12);
    proof {
        assert forall|m: int| 0 <= m < 12 implies u[m] == s@[pos + m] by {}
    }
    crate::text::is_digit(s[pos]) && crate::text::is_digit(s[pos + 1]) && s[pos + 2] == ':'
        && crate::text::is_digit(s[pos + 3]) && crate::text::is_digit(s[pos + 4]) && s[pos + 5]
        == ':' && crate::text::is_digit(s[pos + 6]) && crate::text::is_digit(s[pos + 7]) && s[pos
        + 8] == ',' && crate::text::is_digit(s[pos + 9]) && crate::text::is_digit(s[pos + 10])
        && crate::text::is_digit(s[pos + 11])
}

/// Reads the timestamp of a well-shaped `dd:dd:dd,ddd` group.
fn read_ts12(s: &Vec<char>, pos: usize) -> (t: Timestamp)
    requires
        pos + 12 <= s.len(),
        is_ts12(s@.subrange(pos as int, pos + 12)),
    ensures
        t == ts_of12(s@.subrange(pos as int, pos + 12)),
{
    let ghost u = s@.subrange(pos as int, pos + 12);
    proof {
        assert forall|m: int| 0 <= m < 12 implies u[m] == s@[pos + m] by {}
    }
    let h: u32 = (s[pos] as u32 - 48) * 10 + (s[pos + 1] as u32 - 48);
    let mi: u32 = (s[pos + 3] as u32 - 48) * 10 + (s[pos + 4] as u32 - 48);
    let se: u32 = (s[pos + 6] as u32 - 48) * 10 + (s[pos + 7] as u32 - 48);
    let ms: u32 = (s[pos + 9] as u32 - 48) * 100 + (s[pos + 10] as u32 - 48) * 10 + (s[pos + 11]
        as u32 - 48);
    Timestamp { hours: h, minutes: mi, seconds: se, milliseconds: ms }
}

proof fn lemma_dblnl_is_some(u: Seq<char>, k: int)
    requires
        0 <= k,
        k + 2 <= u.len(),
        u[k] == '\n' && u[k + 1] == '\n',
        forall|m: int| 0 <= m < k ==> !((#[trigger] u[m]) == '\n' && u[m + 1] == '\n'),
    ensures
        dblnl_pos(u) == Some(k),
    decreases u.len(),
{
    if k == 0 {
    } else {
        assert(!(u[0] == '\n' && u[1] == '\n'));
        let v = u.skip(1);
        assert forall|m: int| 0 <= m < k - 1 implies !((#[trigger] v[m]) == '\n' && v[m + 1] == '\n') by {
            assert(v[m] == u[m + 1]);
            assert(v[m + 1] == u[m + 2]);
        }
        assert(v[k - 1] == u[k]);
        assert(v[k] == u[k + 1]);
        lemma_dblnl_is_some(v, k - 1);
    }
}

proof fn lemma_dblnl_is_none(u: Seq<char>)
    requires
        forall|m: int| 0 <= m && m + 2 <= u.len() ==> !((#[trigger] u[m]) == '\n' && u[m + 1] == '\n'),
    ensures
        dblnl_pos(u) is None,
    decreases u.len(),
{
    if u.len() < 2 {
    } else {
        assert(!(u[0] == '\n' && u[1] == '\n'));
        let v = u.skip(1);
        assert forall|m: int| 0 <= m && m + 2 <= v.len() implies !((#[trigger] v[m]) == '\n' && v[m
            + 1] == '\n') by {
            assert(v[m] == u[m + 1]);
            assert(v[m + 1] == u[m + 2]);
        }
        lemma_dblnl_is_none(v);
    }
}

/// First blank line at or after `from`, as an absolute position.
fn find_dblnl(s: &Vec<char>, from: usize) -> (r: Option<usize>)
    requires
        from <= s.len(),
    ensures
        match r {
            Some(p) => from <= p && p + 2 <= s.len() && dblnl_pos(s@.skip(from as int)) == Some(
                p - from,
            ),
            None => dblnl_pos(s@.skip(from as int)) is None,
        },
{
    let mut p: usize = from;
    while s.len() - p > 1 && !(s[p] == '\n' && s[p + 1] == '\n')
        invariant
            from <= p,
            p <= s.len(),
            forall|m: int| from <= m && m + 2 <= s.len() && m < p ==> !(#[trigger] s@[m] == '\n'
                && s@[m + 1] == '\n'),
        decreases s.len() - p,
    {
        p = p + 1;
    }
    let ghost u = s@.skip(from as int);
    if s.len() - p > 1 {
        proof {
            assert forall|m: int| 0 <= m < p - from implies !(#[trigger] u[m] == '\n' && u[m + 1]
                == '\n') by {
                assert(u[m] == s@[from + m]);
                assert(u[m + 1] == s@[from + m + 1]);
            }
            assert(u[p - from] == s@[p as int]);
            assert(u[p - from + 1] == s@[p + 1]);
            lemma_dblnl_is_some(u, p - from);
        }
        Some(p)
    } else {
        proof {
            assert forall|m: int| 0 <= m && m + 2 <= u.len() implies !(#[trigger] u[m] == '\n'
                && u[m + 1] == '\n') by {
                assert(u[m] == s@[from + m]);
                assert(u[m + 1] == s@[from + m + 1]);
            }
            lemma_dblnl_is_none(u);
        }
        None
    }
}

/// The absolute layout of one block match: end of the digit run and end of
/// the whole match (the body runs from `d_end + 31` to `next`).
struct BlockInfo {
    d_end: usize,
    next: usize,
}

/// Decides whether a block match starts at position `i`, and where its parts
/// lie.
fn check_block(s: &Vec<char>, i: usize) -> (r: Option<BlockInfo>)
    requires
        i < s.len(),
    ensures
        match r {
            None => !block_head(s@.skip(i as int)),
            Some(bi) => {
                &&& block_head(s@.skip(i as int))
                &&& i < bi.d_end
                &&& bi.d_end + 31 <= bi.next <= s.len()
                &&& bi.d_end - i == digits_run(s@.skip(i as int))
                &&& bi.next - i == block_len(s@.skip(i as int))
                &&& forall|m: int| i <= m < bi.d_end ==> is_digit_char(#[trigger] s@[m])
            },
        },
{
    let ghost t = s@.skip(i as int);
    proof {
        assert(t.len() == s@.len() - i);
    }
    let d_end = scan_digits(s, i);
    let ghost d = d_end - i;
    if d_end == i {
        return None;
    }
    if s.len() - d_end < 31 {
        return None;
    }
    proof {
        assert(t[d as int] == s@[d_end as int]);
        assert(t[d + 30] == s@[d_end + 30]);
        assert(t.subrange(d + 1, d + 13) =~= s@.subrange(d_end + 1, d_end + 13));
        assert(t.subrange(d + 13, d + 18) =~= s@.subrange(d_end + 13, d_end + 18));
        assert(t.subrange(d + 18, d + 30) =~= s@.subrange(d_end + 18, d_end + 30));
    }
    if s[d_end] != '\n' {
        return None;
    }
    if !ts12_at(s, d_end + 1) {
        return None;
    }
    if !(s[d_end + 13] == ' ' && s[d_end + 14] == '-' && s[d_end + 15] == '-' && s[d_end + 16]
        == '>' && s[d_end + 17] == ' ') {
        proof {
            let a = s@.subrange(d_end + 13, d_end + 18);
            assert(a[0] == s@[d_end + 13]);
            assert(a[1] == s@[d_end + 14]);
            assert(a[2] == s@[d_end + 15]);
            assert(a[3] == s@[d_end + 16]);
            assert(a[4] == s@[d_end + 17]);
            assert(a != arrow_seq());
        }
        return None;
    }
    proof {
        let a = s@.subrange(d_end + 13, d_end + 18);
        assert(a =~= arrow_seq());
    }
    if !ts12_at(s, d_end + 18) {
        return None;
    }
    if s[d_end + 30] != '\n' {
        return None;
    }
    let body_start = d_end + 31;
    let next = match find_dblnl(s, body_start) {
        Some(p) => p + 2,
        None => s.len(),
    };
    proof {
        assert(t.skip(d + 31) =~= s@.skip(body_start as int));
        assert(block_head(t));
    }
    Some(BlockInfo { d_end, next })
}

// ---------------------------------------------------------------------------
// The parser
// ---------------------------------------------------------------------------

impl Subtitles {
    /// Parses raw subtitle-file text.  A leading byte-order mark is stripped
    /// and carriage returns removed; every non-overlapping block of the
    /// grammar is converted in file order; zero matches is an error, never an
    /// empty success.
    pub fn parse_from_str(input: &str) -> (r: Result<Self, ParsingError>)
        ensures
            match r {
                Ok(subs) => {
                    &&& parse_model(input@) is Ok
                    &&& subs.0@.len() == parse_model(input@)->Ok_0.len()
                    &&& forall|k: int|
                        0 <= k < subs.0@.len() ==> sub_matches_model(
                            #[trigger] subs.0@[k],
                            parse_model(input@)->Ok_0[k],
                        )
                },
                Err(e) => parse_model(input@) == Err::<Seq<SubtitleModel>, ParsingError>(e),
            },
    {
        let raw = str_chars(input);
        let s = normalize(&raw);
        let ghost blocks = scan(s@);
        let mut subs: Vec<Subtitle> = Vec::new();
        let ghost mut done: Seq<RawBlock> = Seq::empty();
        let mut i: usize = 0;
        proof {
            assert(s@.skip(0) =~= s@);
            assert(done + scan(s@) =~= scan(s@));
        }
        while i < s.len()
            invariant
                0 <= i <= s@.len(),
                s@ == normalize_text(input@),
                blocks == scan(s@),
                blocks == done + scan(s@.skip(i as int)),
                subs@.len() == done.len(),
                forall|k: int|
                    0 <= k < done.len() ==> digits_val(#[trigger] done[k].num)
                        <= usize::MAX as nat,
                forall|k: int|
                    0 <= k < done.len() ==> sub_matches_model(
                        #[trigger] subs@[k],
                        model_of(done[k]),
                    ),
            decreases s@.len() - i,
        {
            let ghost t = s@.skip(i as int);
            match check_block(&s, i) {
                None => {
                    proof {
                        assert(t.len() > 0);
                        assert(scan(t) == scan(t.skip(1)));
                        assert(t.skip(1) =~= s@.skip(i + 1));
                    }
                    i = i + 1;
                },
                Some(bi) => {
                    let ghost b = block_of(t);
                    proof {
                        lemma_block_len_bounds(t);
                        assert(scan(t) == seq![b] + scan(t.skip(block_len(t))));
                        assert(t.skip(block_len(t)) =~= s@.skip(bi.next as int));
                        assert(b.num =~= s@.subrange(i as int, bi.d_end as int));
                        assert(b.ts1 =~= s@.subrange(bi.d_end + 1, bi.d_end + 13));
                        assert(b.ts2 =~= s@.subrange(bi.d_end + 18, bi.d_end + 30));
                        assert(b.body =~= s@.subrange(bi.d_end + 31, bi.next as int));
                        assert(blocks == (done + seq![b]) + scan(s@.skip(bi.next as int)));
                        let nsub = s@.subrange(i as int, bi.d_end as int);
                        assert forall|m: int| 0 <= m < nsub.len() implies is_digit_char(
                            #[trigger] nsub[m],
                        ) by {
                            assert(nsub[m] == s@[i + m]);
                        }
                    }
                    let number = match parse_digits_max(&s, i, bi.d_end, usize::MAX as u64) {
                        Some(v) => v as usize,
                        None => {
                            proof {
                                assert(blocks[done.len() as int] == b);
                                assert(digits_val(b.num) > usize::MAX as nat);
                                assert(blocks.len() > 0);
                                assert(s@ == normalize_text(input@));
                                assert(parse_model(input@) == Err::<
                                    Seq<SubtitleModel>,
                                    ParsingError,
                                >(ParsingError::InvalidNumber));
                            }
                            return Err(ParsingError::InvalidNumber);
                        },
                    };
                    let start_time = read_ts12(&s, bi.d_end + 1);
                    let end_time = read_ts12(&s, bi.d_end + 18);
                    let body = trim_range(&s, bi.d_end + 31, bi.next);
                    let text = chars_to_string(&body);
                    subs.push(Subtitle { number, start_time, end_time, text });
                    proof {
                        done = done + seq![b];
                        assert(subs@.last() == (Subtitle {
                            number,
                            start_time,
                            end_time,
                            text: subs@.last().text,
                        }));
                        assert(sub_matches_model(subs@[done.len() - 1], model_of(b)));
                    }
                    i = bi.next;
                },
            }
        }
        proof {
            assert(s@.skip(i as int) =~= Seq::<char>::empty());
            assert(scan(Seq::<char>::empty()) =~= Seq::<RawBlock>::empty());
            assert(blocks =~= done);
            assert(s@ == normalize_text(input@));
        }
        if subs.len() == 0 {
            proof {
                assert(blocks.len() == 0);
            }
            Err(ParsingError::MalformedSubtitle)
        } else {
            proof {
                assert(!(exists|k: int|
                    0 <= k < blocks.len() && digits_val(#[trigger] blocks[k].num)
                        > usize::MAX as nat));
                let models = parse_model(input@)->Ok_0;
                assert forall|k: int| 0 <= k < subs@.len() implies sub_matches_model(
                    #[trigger] subs@[k],
                    models[k],
                ) by {
                    assert(models[k] == model_of(blocks[k]));
                }
            }
            Ok(Subtitles(subs))
        }
    }
}

// ---------------------------------------------------------------------------
// Laws of the parser
// ---------------------------------------------------------------------------

/// Law: the parser rejects degenerate input.  Text in which no block of the
/// grammar matches — the empty string among it — fails with
/// `MalformedSubtitle`; it is never an empty success.
pub proof fn lemma_parse_rejects_degenerate(input: Seq<char>)
    requires
        scan(normalize_text(input)).len() == 0,
    ensures
        parse_model(input) == Err::<Seq<SubtitleModel>, ParsingError>(
            ParsingError::MalformedSubtitle,
        ),
{
}

/// Law: the empty string is rejected as malformed.
pub proof fn lemma_parse_empty_rejected()
    ensures
        parse_model(Seq::empty()) == Err::<Seq<SubtitleModel>, ParsingError>(
            ParsingError::MalformedSubtitle,
        ),
{
    assert(normalize_text(Seq::empty()) =~= Seq::<char>::empty());
    assert(scan(Seq::<char>::empty()) =~= Seq::<RawBlock>::empty());
}

/// Law: a success is never empty.
pub proof fn lemma_parse_no_empty_success(input: Seq<char>)
    ensures
        parse_model(input) is Ok ==> parse_model(input)->Ok_0.len() > 0,
{
}

/// One source-form block: a sequence-number line, the two timestamp groups of
/// its timestamp line, and a free-text body.
pub struct BlockSource {
    pub num: Seq<char>,
    pub ts1: Seq<char>,
    pub ts2: Seq<char>,
    pub body: Seq<char>,
}

/// A well-formed source block: a nonempty in-range digit line, two well-shaped
/// timestamps, and a nonempty body with no surrounding whitespace, no blank
/// line and no carriage return inside.
pub open spec fn wf_block(b: BlockSource) -> bool {
    &&& b.num.len() >= 1
    &&& all_digits(b.num)
    &&& digits_val(b.num) <= usize::MAX as nat
    &&& is_ts12(b.ts1)
    &&& is_ts12(b.ts2)
    &&& b.body.len() >= 1
    &&& trim_spec(b.body) == b.body
    &&& forall|m: int|
        0 <= m && m + 2 <= b.body.len() ==> !((#[trigger] b.body[m]) == '\n' && b.body[m + 1]
            == '\n')
    &&& forall|m: int| 0 <= m < b.body.len() ==> (#[trigger] b.body[m]) != '\r'
}

/// The source text of one block.
pub open spec fn render_block(b: BlockSource) -> Seq<char> {
    b.num + seq!['\n'] + b.ts1 + arrow_seq() + b.ts2 + seq!['\n'] + b.body
}

/// The source text of a run of blocks, separated by single blank lines.
pub open spec fn render_blocks(bs: Seq<BlockSource>) -> Seq<char>
    decreases bs.len(),
{
    if bs.len() == 0 {
        Seq::empty()
    } else if bs.len() == 1 {
        render_block(bs[0])
    } else {
        render_block(bs[0]) + seq!['\n', '\n'] + render_blocks(bs.skip(1))
    }
}

proof fn lemma_crfree_concat(a: Seq<char>, b: Seq<char>)
    requires
        forall|m: int| 0 <= m < a.len() ==> (#[trigger] a[m]) != '\r',
        forall|m: int| 0 <= m < b.len() ==> (#[trigger] b[m]) != '\r',
    ensures
        forall|m: int| 0 <= m < (a + b).len() ==> (#[trigger] (a + b)[m]) != '\r',
{
    assert forall|m: int| 0 <= m < (a + b).len() implies (#[trigger] (a + b)[m]) != '\r' by {
        if m < a.len() {
            assert((a + b)[m] == a[m]);
        } else {
            assert((a + b)[m] == b[m - a.len()]);
        }
    }
}

proof fn lemma_render_block_crfree(b: BlockSource)
    requires
        wf_block(b),
    ensures
        forall|m: int| 0 <= m < render_block(b).len() ==> (#[trigger] render_block(b)[m]) != '\r',
{
    assert forall|m: int| 0 <= m < b.num.len() implies (#[trigger] b.num[m]) != '\r' by {
        assert(is_digit_char(b.num[m]));
    }
    assert forall|m: int| 0 <= m < b.ts1.len() implies (#[trigger] b.ts1[m]) != '\r' by {}
    assert forall|m: int| 0 <= m < b.ts2.len() implies (#[trigger] b.ts2[m]) != '\r' by {}
    assert forall|m: int| 0 <= m < arrow_seq().len() implies (#[trigger] arrow_seq()[m])
        != '\r' by {}
    let nl = seq!['\n'];
    assert forall|m: int| 0 <= m < nl.len() implies (#[trigger] nl[m]) != '\r' by {}
    lemma_crfree_concat(b.num, seq!['\n']);
    lemma_crfree_concat(b.num + seq!['\n'], b.ts1);
    lemma_crfree_concat(b.num + seq!['\n'] + b.ts1, arrow_seq());
    lemma_crfree_concat(b.num + seq!['\n'] + b.ts1 + arrow_seq(), b.ts2);
    lemma_crfree_concat(b.num + seq!['\n'] + b.ts1 + arrow_seq() + b.ts2, seq!['\n']);
    lemma_crfree_concat(b.num + seq!['\n'] + b.ts1 + arrow_seq() + b.ts2 + seq!['\n'], b.body);
}

proof fn lemma_render_blocks_crfree(bs: Seq<BlockSource>)
    requires
        forall|k: int| 0 <= k < bs.len() ==> wf_block(#[trigger] bs[k]),
    ensures
        forall|m: int|
            0 <= m < render_blocks(bs).len() ==> (#[trigger] render_blocks(bs)[m]) != '\r',
    decreases bs.len(),
{
    if bs.len() == 0 {
    } else if bs.len() == 1 {
        lemma_render_block_crfree(bs[0]);
    } else {
        lemma_render_block_crfree(bs[0]);
        assert forall|k: int| 0 <= k < bs.skip(1).len() implies wf_block(
            #[trigger] bs.skip(1)[k],
        ) by {
            assert(bs.skip(1)[k] == bs[k + 1]);
        }
        lemma_render_blocks_crfree(bs.skip(1));
        let sep = seq!['\n', '\n'];
        assert forall|m: int| 0 <= m < sep.len() implies (#[trigger] sep[m]) != '\r' by {}
        lemma_crfree_concat(render_block(bs[0]), sep);
        lemma_crfree_concat(render_block(bs[0]) + seq!['\n', '\n'], render_blocks(bs.skip(1)));
    }
}

/// The raw block that scanning recovers from block `k` of a rendering: the
/// body carries the blank-line separator except after the last block.
pub open spec fn expected_raw(bs: Seq<BlockSource>, k: int) -> RawBlock {
    RawBlock {
        num: bs[k].num,
        ts1: bs[k].ts1,
        ts2: bs[k].ts2,
        body: if k < bs.len() - 1 {
            bs[k].body + seq!['\n', '\n']
        } else {
            bs[k].body
        },
    }
}

/// Scanning a rendering recovers exactly the rendered blocks, in order.
proof fn lemma_scan_render(bs: Seq<BlockSource>)
    requires
        bs.len() >= 1,
        forall|k: int| 0 <= k < bs.len() ==> wf_block(#[trigger] bs[k]),
    ensures
        scan(render_blocks(bs)) =~= Seq::new(bs.len(), |k: int| expected_raw(bs, k)),
    decreases bs.len(),
{
    let b = bs[0];
    let t = render_blocks(bs);
    let d = b.num.len() as int;
    let head = b.num + seq!['\n'] + b.ts1 + arrow_seq() + b.ts2 + seq!['\n'];
    assert(head.len() == d + 31);
    let rest = if bs.len() == 1 {
        b.body
    } else {
        b.body + seq!['\n', '\n'] + render_blocks(bs.skip(1))
    };
    assert(t =~= head + rest) by {
        if bs.len() == 1 {
            assert(t == render_block(b));
            assert(render_block(b) =~= head + b.body);
        } else {
            assert(t == render_block(b) + seq!['\n', '\n'] + render_blocks(bs.skip(1)));
            assert(render_block(b) =~= head + b.body);
            assert(t =~= head + (b.body + seq!['\n', '\n'] + render_blocks(bs.skip(1))));
        }
    }
    // The digit run is exactly the number line.
    assert forall|m: int| 0 <= m < d implies is_digit_char(#[trigger] t[m]) by {
        assert(t[m] == b.num[m]);
    }
    assert(t[d] == '\n');
    assert(!is_digit_char('\n'));
    lemma_digits_run_is(t, d);
    // The head region holds the timestamp line.
    assert(t.subrange(d + 1, d + 13) =~= b.ts1);
    assert(t.subrange(d + 13, d + 18) =~= arrow_seq());
    assert(t.subrange(d + 18, d + 30) =~= b.ts2);
    assert(t[d + 30] == '\n');
    assert(t.len() >= d + 31 + 1);
    assert(block_head(t));
    // The body group ends at the separator, or at the end for the last block.
    let u = t.skip(d + 31);
    assert(u =~= rest);
    lemma_trimmed_parts(b.body);
    if bs.len() == 1 {
        assert forall|m: int| 0 <= m && m + 2 <= u.len() implies !((#[trigger] u[m]) == '\n' && u[m
            + 1] == '\n') by {
            assert(u[m] == b.body[m]);
            assert(u[m + 1] == b.body[m + 1]);
        }
        lemma_dblnl_is_none(u);
        assert(block_body_len(t) == u.len());
        assert(block_len(t) == t.len());
        assert(block_of(t).num =~= b.num);
        assert(block_of(t).body =~= b.body);
        assert(t.skip(block_len(t)).len() == 0);
        assert(scan(t.skip(block_len(t))) =~= Seq::<RawBlock>::empty());
        assert(scan(t) =~= seq![block_of(t)]);
        assert(block_of(t) == expected_raw(bs, 0)) by {
            assert(block_of(t).ts1 =~= b.ts1);
            assert(block_of(t).ts2 =~= b.ts2);
        }
        assert(scan(t) =~= Seq::new(bs.len(), |k: int| expected_raw(bs, k)));
    } else {
        let bl = b.body.len() as int;
        assert(u[bl] == '\n');
        assert(u[bl + 1] == '\n');
        assert forall|m: int| 0 <= m < bl implies !((#[trigger] u[m]) == '\n' && u[m + 1]
            == '\n') by {
            assert(u[m] == b.body[m]);
            if m + 1 < bl {
                assert(u[m + 1] == b.body[m + 1]);
            } else {
                assert(m == bl - 1);
                assert(u[m] == b.body[bl - 1]);
                assert(!is_space_char(b.body.last()));
                assert(is_space_char('\n'));
            }
        }
        lemma_dblnl_is_some(u, bl);
        assert(block_body_len(t) == bl + 2);
        assert(block_len(t) == d + 31 + bl + 2);
        assert(block_of(t).num =~= b.num);
        assert(block_of(t).ts1 =~= b.ts1);
        assert(block_of(t).ts2 =~= b.ts2);
        assert(block_of(t).body =~= b.body + seq!['\n', '\n']);
        assert(block_of(t) == expected_raw(bs, 0));
        let tail = bs.skip(1);
        assert forall|k: int| 0 <= k < tail.len() implies wf_block(#[trigger] tail[k]) by {
            assert(tail[k] == bs[k + 1]);
        }
        lemma_scan_render(tail);
        assert(t.skip(block_len(t)) =~= render_blocks(tail));
        assert(scan(t) == seq![block_of(t)] + scan(t.skip(block_len(t))));
        assert forall|k: int| 0 <= k < bs.len() implies #[trigger] scan(t)[k] == expected_raw(
            bs,
            k,
        ) by {
            if k == 0 {
            } else {
                assert(scan(t)[k] == scan(render_blocks(tail))[k - 1]);
                assert(scan(render_blocks(tail))[k - 1] == expected_raw(tail, k - 1));
                assert(tail[k - 1] == bs[k]);
                if k - 1 < tail.len() - 1 {
                    assert(expected_raw(tail, k - 1) == expected_raw(bs, k));
                } else {
                    assert(expected_raw(tail, k - 1) == expected_raw(bs, k));
                }
            }
        }
        assert(scan(t).len() == bs.len());
    }
}

/// Law: parser totality on well-formed input.  Rendering any nonempty run of
/// well-formed blocks, separated by single blank lines, and parsing the
/// result yields exactly those blocks in file order: each entry carries its
/// block's sequence-number value, both timestamps, and its body text exactly.
pub proof fn lemma_parse_well_formed(bs: Seq<BlockSource>)
    requires
        bs.len() >= 1,
        forall|k: int| 0 <= k < bs.len() ==> wf_block(#[trigger] bs[k]),
    ensures
        parse_model(render_blocks(bs)) is Ok,
        parse_model(render_blocks(bs))->Ok_0.len() == bs.len(),
        forall|k: int|
            0 <= k < bs.len() ==> parse_model(render_blocks(bs))->Ok_0[k] == (SubtitleModel {
                number: digits_val(bs[k].num),
                start_time: ts_of12(bs[k].ts1),
                end_time: ts_of12(bs[k].ts2),
                text: bs[k].body,
            }),
{
    let t = render_blocks(bs);
    lemma_render_blocks_crfree(bs);
    crate::text::lemma_strip_cr_id(t);
    assert(t[0] == bs[0].num[0]) by {
        let head = bs[0].num + seq!['\n'] + bs[0].ts1 + arrow_seq() + bs[0].ts2 + seq!['\n'];
        if bs.len() == 1 {
            assert(t == render_block(bs[0]));
            assert(t[0] == bs[0].num[0]);
        } else {
            assert(t == render_block(bs[0]) + seq!['\n', '\n'] + render_blocks(bs.skip(1)));
            assert(t[0] == render_block(bs[0])[0]);
            assert(render_block(bs[0])[0] == bs[0].num[0]);
        }
    }
    assert(is_digit_char(t[0]));
    assert(t[0] != '\u{feff}');
    crate::text::lemma_strip_bom_id(t);
    assert(normalize_text(t) == t);
    lemma_scan_render(bs);
    let blocks = scan(t);
    assert(blocks.len() == bs.len());
    assert forall|k: int| 0 <= k < blocks.len() implies digits_val(#[trigger] blocks[k].num)
        <= usize::MAX as nat by {
        assert(blocks[k] == expected_raw(bs, k));
    }
    assert(!(exists|k: int|
        0 <= k < blocks.len() && digits_val(#[trigger] blocks[k].num) > usize::MAX as nat));
    let models = parse_model(t)->Ok_0;
    assert forall|k: int| 0 <= k < bs.len() implies models[k] == (SubtitleModel {
        number: digits_val(bs[k].num),
        start_time: ts_of12(bs[k].ts1),
        end_time: ts_of12(bs[k].ts2),
        text: bs[k].body,
    }) by {
        assert(blocks[k] == expected_raw(bs, k));
        assert(models[k] == model_of(blocks[k]));
        if k < bs.len() - 1 {
            crate::text::lemma_trim_body_nn(bs[k].body);
        }
    }
}

// ---------------------------------------------------------------------------
// Per-file processing: resolve identity, then parse
// ---------------------------------------------------------------------------

/// The default show name for a path without a parent directory.
pub open spec fn unknown_show() -> Seq<char> {
    seq!['U', 'n', 'k', 'n', 'o', 'w', 'n', ' ', 'S', 'h', 'o', 'w']
}

/// The show name used for a file: its parent directory's name, with the
/// default applied.
pub open spec fn resolved_show_name(path: Seq<char>) -> Seq<char> {
    match crate::srt_parser::episode_info::show_name_model(path) {
        Some(n) => n,
        None => unknown_show(),
    }
}

/// The episode title used for a file: the strategy's result, falling back to
/// `Episode {number}`.
pub open spec fn resolved_episode_name(
    method: crate::srt_parser::episode_info::EpisodeNameMethod,
    path: Seq<char>,
    episode_number: int,
) -> Seq<char> {
    match crate::srt_parser::episode_info::episode_name_model(method, path, episode_number) {
        Some(n) => n,
        None => crate::srt_parser::episode_info::episode_title(episode_number),
    }
}

fn unknown_show_string() -> (r: String)
    ensures
        r@ == unknown_show(),
{
    let mut v: Vec<char> = Vec::new();
    v.push('U');
    v.push('n');
    v.push('k');
    v.push('n');
    v.push('o');
    v.push('w');
    v.push('n');
    v.push(' ');
    v.push('S');
    v.push('h');
    v.push('o');
    v.push('w');
    proof {
        assert(v@ =~= unknown_show());
    }
    chars_to_string(&v)
}

/// Processes one subtitle file whose text has already been read: resolves
/// the show name, episode number and title from the path, then parses the
/// content.  A parse failure is returned and identity resolution never
/// fails.  `show_files` is the show directory's subtitle listing, read only
/// by the `FromFileOrder` strategy.
pub fn process_srt_file(
    file_path: &str,
    content: &str,
    number_method: &crate::srt_parser::episode_info::EpisodeNumberMethod,
    name_method: &crate::srt_parser::episode_info::EpisodeNameMethod,
    show_files: &Vec<String>,
) -> (r: Result<SrtEntry, ParsingError>)
    requires
        *number_method is FromFileOrder ==> show_files@.len() < i32::MAX,
    ensures
        match r {
            Ok(e) => {
                &&& parse_model(content@) is Ok
                &&& e.show_name@ == resolved_show_name(file_path@)
                &&& e.episode_number as int == crate::srt_parser::episode_info::episode_number_model(
                    *number_method,
                    file_path@,
                    show_files@.map_values(|f: String| f@),
                )
                &&& e.episode_name@ == resolved_episode_name(
                    *name_method,
                    file_path@,
                    e.episode_number as int,
                )
                &&& e.content.0@.len() == parse_model(content@)->Ok_0.len()
                &&& forall|k: int|
                    0 <= k < e.content.0@.len() ==> sub_matches_model(
                        #[trigger] e.content.0@[k],
                        parse_model(content@)->Ok_0[k],
                    )
            },
            Err(err) => parse_model(content@) == Err::<Seq<SubtitleModel>, ParsingError>(err),
        },
{
    let show_name = match crate::srt_parser::episode_info::get_show_name(file_path) {
        Some(n) => n,
        None => unknown_show_string(),
    };
    let episode_number = crate::srt_parser::episode_info::get_episode_number(
        number_method,
        file_path,
        show_files,
    );
    let episode_name = match crate::srt_parser::episode_info::get_episode_name(
        name_method,
        file_path,
        episode_number,
    ) {
        Some(n) => n,
        None => crate::srt_parser::episode_info::episode_title_string(episode_number),
    };
    match Subtitles::parse_from_str(content) {
        Ok(content) => Ok(SrtEntry { show_name, episode_name, episode_number, content }),
        Err(e) => Err(e),
    }
}

} // verus!
