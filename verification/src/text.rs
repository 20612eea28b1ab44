//! Character-sequence utilities shared by the subtitle parser, the episode
//! resolvers and the persistence layer: decimal digits, whitespace trimming,
//! line-ending normalization and splitting.

use vstd::prelude::*;

verus! {

// ---------------------------------------------------------------------------
// Decimal digits
// ---------------------------------------------------------------------------

/// A decimal digit `'0'..='9'`.
pub open spec fn is_digit_char(c: char) -> bool {
    48 <= c as u32 && c as u32 <= 57
}

/// Numeric value of a decimal digit.
pub open spec fn digit_val(c: char) -> nat {
    (c as u32 - 48) as nat
}

pub open spec fn all_digits(s: Seq<char>) -> bool {
    forall|k: int| 0 <= k < s.len() ==> is_digit_char(#[trigger] s[k])
}

/// Value of a sequence of decimal digits, most significant first.
pub open spec fn digits_val(s: Seq<char>) -> nat
    decreases s.len(),
{
    if s.len() == 0 {
        0
    } else {
        digits_val(s.drop_last()) * 10 + digit_val(s.last())
    }
}

/// The digit character for a value below ten.
pub open spec fn digit_char(d: nat) -> char {
    if d == 0 {
        '0'
    } else if d == 1 {
        '1'
    } else if d == 2 {
        '2'
    } else if d == 3 {
        '3'
    } else if d == 4 {
        '4'
    } else if d == 5 {
        '5'
    } else if d == 6 {
        '6'
    } else if d == 7 {
        '7'
    } else if d == 8 {
        '8'
    } else {
        '9'
    }
}

/// Decimal rendering of `n`, without padding or sign.
pub open spec fn dec_digits(n: nat) -> Seq<char>
    decreases n,
{
    if n < 10 {
        seq![digit_char(n)]
    } else {
        dec_digits(n / 10).push(digit_char(n % 10))
    }
}

/// Decimal rendering of a possibly negative value.
pub open spec fn dec_int_digits(n: int) -> Seq<char> {
    if n < 0 {
        seq!['-'] + dec_digits((-n) as nat)
    } else {
        dec_digits(n as nat)
    }
}

pub fn is_digit(c: char) -> (b: bool)
    ensures
        b == is_digit_char(c),
{
    let u = c as u32;
    48 <= u && u <= 57
}

pub fn digit_to_char(d: u32) -> (c: char)
    requires
        d < 10,
    ensures
        c == digit_char(d as nat),
{
    if d == 0 {
        '0'
    } else if d == 1 {
        '1'
    } else if d == 2 {
        '2'
    } else if d == 3 {
        '3'
    } else if d == 4 {
        '4'
    } else if d == 5 {
        '5'
    } else if d == 6 {
        '6'
    } else if d == 7 {
        '7'
    } else if d == 8 {
        '8'
    } else {
        '9'
    }
}

pub proof fn lemma_digit_char_val(d: nat)
    requires
        d < 10,
    ensures
        is_digit_char(digit_char(d)),
        digit_val(digit_char(d)) == d,
{
}

/// All characters of a decimal rendering are digits, and reading them back
/// yields the rendered value.
pub proof fn lemma_dec_digits_val(n: nat)
    ensures
        dec_digits(n).len() >= 1,
        all_digits(dec_digits(n)),
        digits_val(dec_digits(n)) == n,
    decreases n,
{
    if n < 10 {
        lemma_digit_char_val(n);
        assert(digits_val(Seq::<char>::empty()) == 0);
        assert(dec_digits(n) =~= seq![digit_char(n)]);
        assert(dec_digits(n).drop_last() =~= Seq::<char>::empty());
        assert(dec_digits(n).last() == digit_char(n));
        assert(digits_val(dec_digits(n)) == 0 * 10 + digit_val(digit_char(n)));
    } else {
        lemma_dec_digits_val(n / 10);
        lemma_digit_char_val(n % 10);
        let s = dec_digits(n);
        assert(s =~= dec_digits(n / 10).push(digit_char(n % 10)));
        assert(s.drop_last() =~= dec_digits(n / 10));
        assert(s.last() == digit_char(n % 10));
        assert(digits_val(s) == (n / 10) * 10 + n % 10);
        assert((n / 10) * 10 + n % 10 == n) by (nonlinear_arith);
        assert forall|k: int| 0 <= k < s.len() implies is_digit_char(#[trigger] s[k]) by {
            if k < s.len() - 1 {
                assert(s[k] == dec_digits(n / 10)[k]);
            }
        }
    }
}

/// A leading zero does not change the value of a digit string.
pub proof fn lemma_leading_zero(s: Seq<char>)
    ensures
        digits_val(seq!['0'] + s) == digits_val(s),
    decreases s.len(),
{
    if s.len() == 0 {
        assert(seq!['0'] + s =~= seq!['0']);
        assert(digits_val(Seq::<char>::empty()) == 0);
        assert((seq!['0'] + s).drop_last() =~= Seq::<char>::empty());
        assert((seq!['0'] + s).last() == '0');
        assert(digits_val(seq!['0'] + s) == 0 * 10 + digit_val('0'));
        assert(digit_val('0') == 0);
    } else {
        let t = seq!['0'] + s;
        assert(t.drop_last() =~= seq!['0'] + s.drop_last());
        assert(t.last() == s.last());
        lemma_leading_zero(s.drop_last());
    }
}

/// A digit string's value only grows as more digits are appended.
pub proof fn lemma_digits_val_take_le(s: Seq<char>, k: int)
    requires
        0 <= k <= s.len(),
    ensures
        digits_val(s.take(k)) <= digits_val(s),
    decreases s.len(),
{
    if k == s.len() {
        assert(s.take(k) =~= s);
    } else {
        assert(s.len() > 0);
        lemma_digits_val_take_le(s.drop_last(), k);
        assert(s.drop_last().take(k) =~= s.take(k));
        assert(digits_val(s) == digits_val(s.drop_last()) * 10 + digit_val(s.last()));
        assert(digits_val(s.drop_last()) * 10 >= digits_val(s.drop_last())) by (nonlinear_arith)
            requires digits_val(s.drop_last()) >= 0;
    }
}

/// Reads the digits `s[from..to]` as a decimal number, refusing values above
/// `max`.
pub fn parse_digits_max(s: &Vec<char>, from: usize, to: usize, max: u64) -> (r: Option<u64>)
    requires
        from <= to <= s.len(),
        all_digits(s@.subrange(from as int, to as int)),
    ensures
        match r {
            Some(v) => v as nat == digits_val(s@.subrange(from as int, to as int)) && v <= max,
            None => digits_val(s@.subrange(from as int, to as int)) > max,
        },
{
    let whole = Ghost(s@.subrange(from as int, to as int));
    let mut acc: u64 = 0;
    let mut i: usize = from;
    while i < to
        invariant
            from <= i <= to <= s.len(),
            all_digits(whole@),
            whole@ == s@.subrange(from as int, to as int),
            acc <= max,
            acc as nat == digits_val(s@.subrange(from as int, i as int)),
        decreases to - i,
    {
        assert(s@[i as int] == whole@[i - from]);
        let d: u32 = s[i] as u32 - 48;
        let wide: u128 = (acc as u128) * 10 + (d as u128);
        proof {
            let pre = s@.subrange(from as int, i as int);
            let nxt = s@.subrange(from as int, i + 1);
            assert(nxt.drop_last() =~= pre);
            assert(nxt.last() == s@[i as int]);
            assert(digits_val(nxt) == digits_val(pre) * 10 + digit_val(s@[i as int]));
        }
        if wide > max as u128 {
            proof {
                let nxt = s@.subrange(from as int, i + 1);
                assert(digits_val(nxt) > max);
                lemma_digits_val_take_le(whole@, i + 1 - from);
                assert(whole@.take(i + 1 - from) =~= nxt);
            }
            return None;
        }
        acc = wide as u64;
        i = i + 1;
    }
    assert(s@.subrange(from as int, i as int) =~= whole@);
    Some(acc)
}

/// Appends the decimal rendering of `n`.
pub fn push_dec_u64(out: &mut Vec<char>, n: u64)
    ensures
        final(out)@ == old(out)@ + dec_digits(n as nat),
    decreases n,
{
    if n < 10 {
        out.push(digit_to_char(n as u32));
        proof {
            assert(out@ =~= old(out)@ + dec_digits(n as nat));
        }
    } else {
        push_dec_u64(out, n / 10);
        out.push(digit_to_char((n % 10) as u32));
        proof {
            assert(dec_digits(n as nat) == dec_digits(n as nat / 10).push(
                digit_char(n as nat % 10),
            ));
            assert(out@ =~= old(out)@ + dec_digits(n as nat));
        }
    }
}

/// Appends the decimal rendering of `n`, with a sign when negative.
pub fn push_dec_i64(out: &mut Vec<char>, n: i64)
    ensures
        final(out)@ == old(out)@ + dec_int_digits(n as int),
{
    if n < 0 {
        out.push('-');
        let mag: u64 = (-(n as i128)) as u64;
        push_dec_u64(out, mag);
        proof {
            assert(out@ =~= old(out)@ + dec_int_digits(n as int));
        }
    } else {
        push_dec_u64(out, n as u64);
    }
}

// ---------------------------------------------------------------------------
// Whitespace and trimming
// ---------------------------------------------------------------------------

/// The Unicode `White_Space` characters.
pub open spec fn is_space_char(c: char) -> bool {
    let u = c as u32;
    (9 <= u && u <= 13) || u == 32 || u == 0x85 || u == 0xa0 || u == 0x1680 || (0x2000 <= u
        && u <= 0x200a) || u == 0x2028 || u == 0x2029 || u == 0x202f || u == 0x205f || u == 0x3000
}

pub fn is_space(c: char) -> (b: bool)
    ensures
        b == is_space_char(c),
{
    let u = c as u32;
    (9 <= u && u <= 13) || u == 32 || u == 0x85 || u == 0xa0 || u == 0x1680 || (0x2000 <= u
        && u <= 0x200a) || u == 0x2028 || u == 0x2029 || u == 0x202f || u == 0x205f || u == 0x3000
}

pub open spec fn trim_start_spec(s: Seq<char>) -> Seq<char>
    decreases s.len(),
{
    if s.len() > 0 && is_space_char(s[0]) {
        trim_start_spec(s.skip(1))
    } else {
        s
    }
}

pub open spec fn trim_end_spec(s: Seq<char>) -> Seq<char>
    decreases s.len(),
{
    if s.len() > 0 && is_space_char(s.last()) {
        trim_end_spec(s.drop_last())
    } else {
        s
    }
}

/// `s` without leading and trailing whitespace.
pub open spec fn trim_spec(s: Seq<char>) -> Seq<char> {
    trim_end_spec(trim_start_spec(s))
}

/// Trimming never lengthens, and an unchanged length means nothing was
/// trimmed.
pub proof fn lemma_trim_start_le(s: Seq<char>)
    ensures
        trim_start_spec(s).len() <= s.len(),
        trim_start_spec(s).len() == s.len() ==> trim_start_spec(s) == s,
    decreases s.len(),
{
    if s.len() > 0 && is_space_char(s[0]) {
        lemma_trim_start_le(s.skip(1));
    }
}

pub proof fn lemma_trim_end_le(s: Seq<char>)
    ensures
        trim_end_spec(s).len() <= s.len(),
        trim_end_spec(s).len() == s.len() ==> trim_end_spec(s) == s,
    decreases s.len(),
{
    if s.len() > 0 && is_space_char(s.last()) {
        lemma_trim_end_le(s.drop_last());
    }
}

/// A nonempty string equal to its own trim starts and ends with non-space.
pub proof fn lemma_trimmed_parts(s: Seq<char>)
    requires
        trim_spec(s) == s,
        s.len() >= 1,
    ensures
        !is_space_char(s[0]),
        !is_space_char(s.last()),
        trim_start_spec(s) == s,
        trim_end_spec(s) == s,
{
    let a = trim_start_spec(s);
    lemma_trim_start_le(s);
    lemma_trim_end_le(a);
    assert(trim_end_spec(a).len() <= a.len() <= s.len());
    assert(a.len() == s.len());
    if is_space_char(s[0]) {
        lemma_trim_start_le(s.skip(1));
        assert(trim_start_spec(s) == trim_start_spec(s.skip(1)));
        assert(trim_start_spec(s).len() < s.len());
    }
    if is_space_char(s.last()) {
        lemma_trim_end_le(s.drop_last());
        assert(trim_end_spec(s) == trim_end_spec(s.drop_last()));
        assert(trim_end_spec(s).len() < s.len());
    }
}

/// Appending a blank line to a trimmed, nonempty body trims back to the body.
pub proof fn lemma_trim_body_nn(b: Seq<char>)
    requires
        trim_spec(b) == b,
        b.len() >= 1,
    ensures
        trim_spec(b + seq!['\n', '\n']) == b,
{
    lemma_trimmed_parts(b);
    let w = b + seq!['\n', '\n'];
    assert(w[0] == b[0]);
    assert(trim_start_spec(w) == w);
    assert(w.last() == '\n');
    assert(is_space_char('\n'));
    assert(w.len() > 0 && is_space_char(w.last()));
    assert(trim_end_spec(w) == trim_end_spec(w.drop_last()));
    assert(w.drop_last() =~= b + seq!['\n']);
    let w1 = b + seq!['\n'];
    assert(w1.last() == '\n');
    assert(w1.len() > 0 && is_space_char(w1.last()));
    assert(trim_end_spec(w1) == trim_end_spec(w1.drop_last()));
    assert(w1.drop_last() =~= b);
    assert(trim_end_spec(w) == trim_end_spec(b));
}

/// Stripping carriage returns leaves a text without them unchanged.
pub proof fn lemma_strip_cr_id(s: Seq<char>)
    requires
        forall|m: int| 0 <= m < s.len() ==> (#[trigger] s[m]) != '\r',
    ensures
        strip_cr(s) == s,
    decreases s.len(),
{
    if s.len() > 0 {
        let t = s.skip(1);
        assert forall|m: int| 0 <= m < t.len() implies (#[trigger] t[m]) != '\r' by {
            assert(t[m] == s[m + 1]);
        }
        lemma_strip_cr_id(t);
        assert(seq![s[0]] + s.skip(1) =~= s);
    }
}

/// Stripping byte-order marks leaves a text that does not start with one
/// unchanged.
pub proof fn lemma_strip_bom_id(s: Seq<char>)
    requires
        s.len() == 0 || s[0] != '\u{feff}',
    ensures
        strip_bom(s) == s,
{
}

/// Copies `s[from..to]` into a fresh vector.
pub fn copy_range(s: &Vec<char>, from: usize, to: usize) -> (r: Vec<char>)
    requires
        from <= to <= s.len(),
    ensures
        r@ == s@.subrange(from as int, to as int),
{
    let mut r: Vec<char> = Vec::new();
    let mut i: usize = from;
    while i < to
        invariant
            from <= i <= to <= s.len(),
            r@ == s@.subrange(from as int, i as int),
        decreases to - i,
    {
        r.push(s[i]);
        proof {
            assert(s@.subrange(from as int, i + 1) =~= s@.subrange(from as int, i as int).push(
                s@[i as int],
            ));
        }
        i = i + 1;
    }
    r
}

/// Trims whitespace from both ends of `s[from..to]`.
pub fn trim_range(s: &Vec<char>, from: usize, to: usize) -> (r: Vec<char>)
    requires
        from <= to <= s.len(),
    ensures
        r@ == trim_spec(s@.subrange(from as int, to as int)),
{
    let whole = Ghost(s@.subrange(from as int, to as int));
    let mut lo: usize = from;
    while lo < to && is_space(s[lo])
        invariant
            from <= lo <= to <= s.len(),
            trim_start_spec(whole@) == trim_start_spec(s@.subrange(lo as int, to as int)),
            whole@ == s@.subrange(from as int, to as int),
        decreases to - lo,
    {
        proof {
            let cur = s@.subrange(lo as int, to as int);
            assert(cur[0] == s@[lo as int]);
            assert(cur.skip(1) =~= s@.subrange(lo + 1, to as int));
        }
        lo = lo + 1;
    }
    proof {
        let cur = s@.subrange(lo as int, to as int);
        if lo < to {
            assert(cur[0] == s@[lo as int]);
        }
        assert(trim_start_spec(cur) == cur);
    }
    let mut hi: usize = to;
    while hi > lo && is_space(s[hi - 1])
        invariant
            from <= lo <= hi <= to <= s.len(),
            trim_end_spec(s@.subrange(lo as int, to as int)) == trim_end_spec(
                s@.subrange(lo as int, hi as int),
            ),
        decreases hi,
    {
        proof {
            let cur = s@.subrange(lo as int, hi as int);
            assert(cur.last() == s@[hi - 1]);
            assert(cur.drop_last() =~= s@.subrange(lo as int, hi - 1));
        }
        hi = hi - 1;
    }
    proof {
        let cur = s@.subrange(lo as int, hi as int);
        if hi > lo {
            assert(cur.last() == s@[hi - 1]);
        }
        assert(trim_end_spec(cur) == cur);
    }
    copy_range(s, lo, hi)
}

// ---------------------------------------------------------------------------
// Normalization: byte-order marks and carriage returns
// ---------------------------------------------------------------------------

/// Drops every leading byte-order mark.
pub open spec fn strip_bom(s: Seq<char>) -> Seq<char>
    decreases s.len(),
{
    if s.len() > 0 && s[0] == '\u{feff}' {
        strip_bom(s.skip(1))
    } else {
        s
    }
}

/// Removes every carriage return.
pub open spec fn strip_cr(s: Seq<char>) -> Seq<char>
    decreases s.len(),
{
    if s.len() == 0 {
        Seq::empty()
    } else if s[0] == '\r' {
        strip_cr(s.skip(1))
    } else {
        seq![s[0]] + strip_cr(s.skip(1))
    }
}

/// Input normalization before subtitle parsing: leading byte-order marks are
/// stripped and line endings reduced to bare newlines.
pub open spec fn normalize_text(s: Seq<char>) -> Seq<char> {
    strip_cr(strip_bom(s))
}

pub fn normalize(s: &Vec<char>) -> (r: Vec<char>)
    ensures
        r@ == normalize_text(s@),
{
    let mut i: usize = 0;
    proof {
        assert(s@.skip(0) =~= s@);
    }
    while i < s.len() && s[i] == '\u{feff}'
        invariant
            0 <= i <= s.len(),
            strip_bom(s@) == strip_bom(s@.skip(i as int)),
        decreases s.len() - i,
    {
        proof {
            let cur = s@.skip(i as int);
            assert(cur[0] == s@[i as int]);
            assert(cur.skip(1) =~= s@.skip(i + 1));
        }
        i = i + 1;
    }
    proof {
        let cur = s@.skip(i as int);
        if i < s.len() {
            assert(cur[0] == s@[i as int]);
        }
        assert(strip_bom(cur) == cur);
    }
    let mut out: Vec<char> = Vec::new();
    let mut j: usize = i;
    while j < s.len()
        invariant
            i <= j <= s.len(),
            strip_cr(s@.skip(i as int)) == out@ + strip_cr(s@.skip(j as int)),
        decreases s.len() - j,
    {
        proof {
            let cur = s@.skip(j as int);
            assert(cur[0] == s@[j as int]);
            assert(cur.skip(1) =~= s@.skip(j + 1));
        }
        if s[j] != '\r' {
            out.push(s[j]);
        }
        proof {
            assert(strip_cr(s@.skip(i as int)) == out@ + strip_cr(s@.skip(j + 1)));
        }
        j = j + 1;
    }
    proof {
        assert(s@.skip(j as int) =~= Seq::<char>::empty());
        assert(out@ + strip_cr(Seq::<char>::empty()) =~= out@);
        assert(strip_bom(s@) == s@.skip(i as int));
    }
    out
}

// ---------------------------------------------------------------------------
// Bridges between `String` and `Vec<char>`
// ---------------------------------------------------------------------------

/// Collects the characters of a string slice.
pub fn str_chars(s: &str) -> (r: Vec<char>)
    ensures
        r@ == s@,
{
    let n = s.unicode_len();
    let mut r: Vec<char> = Vec::new();
    let mut i: usize = 0;
    while i < n
        invariant
            0 <= i <= n,
            n == s@.len(),
            r@ == s@.take(i as int),
        decreases n - i,
    {
        r.push(s.get_char(i));
        proof {
            assert(s@.take(i + 1) =~= s@.take(i as int).push(s@[i as int]));
        }
        i = i + 1;
    }
    proof {
        assert(s@.take(i as int) =~= s@);
    }
    r
}

/// Relies on `String: FromIterator<char>` (via `Iterator::collect`): the
/// collected string holds exactly the iterated characters, in order.
#[verifier::external_body]
pub fn chars_to_string(v: &Vec<char>) -> (r: String)
    ensures
        r@ == v@,
{
    v.iter().collect()
}

} // verus!
