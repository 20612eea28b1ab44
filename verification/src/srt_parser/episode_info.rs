//! Episode-identity resolution: derives the show name, episode number and
//! episode title from a file path (with `/` as the separator) and, for
//! order-based numbering, from the show directory's file listing.

use vstd::prelude::*;

use crate::text::{digits_val, is_digit_char, push_dec_i64, dec_int_digits, chars_to_string, copy_range, str_chars};
use crate::srt_parser::parsing::digits_run;

verus! {

/// How the episode number is derived from a file's path.  The strategies are
/// mutually exclusive: a caller selects one per run.
pub enum EpisodeNumberMethod {
    /// First run of digits after a literal `E` in the file stem; 0 on no
    /// match.
    FromFilename,
    /// 1-based position of the file in the show directory's lexicographically
    /// sorted listing; 0 when the file is not in the listing.
    FromFileOrder,
    /// Trailing run of digits in the file stem; 0 on no match.
    FromLastNumbers,
}

/// How the episode title is derived.
pub enum EpisodeNameMethod {
    /// Second dot-separated part of the file name, when at least three parts
    /// exist.
    FromSecondPart,
    /// The literal composition `Episode {number}`; never fails.
    FromEpisodeNumber,
}

// ---------------------------------------------------------------------------
// Path components
// ---------------------------------------------------------------------------

/// Index right after the last `/`, or 0 when there is none: where the file
/// name starts.
pub open spec fn file_name_start(s: Seq<char>) -> int
    decreases s.len(),
{
    if s.len() == 0 {
        0
    } else if s.last() == '/' {
        s.len() as int
    } else {
        file_name_start(s.drop_last())
    }
}

/// The name of the file's immediate parent directory: the path component
/// before the file name, absent for a separator-free or otherwise degenerate
/// path.
pub open spec fn show_name_model(s: Seq<char>) -> Option<Seq<char>> {
    let ns = file_name_start(s);
    if ns == 0 {
        None
    } else {
        let parent = s.take(ns - 1);
        let seg = parent.skip(file_name_start(parent));
        if seg.len() == 0 || seg == seq!['.'] || seg == seq!['.', '.'] {
            None
        } else {
            Some(seg)
        }
    }
}

proof fn lemma_file_name_start_is(s: Seq<char>, k: int)
    requires
        0 <= k <= s.len(),
        k > 0 ==> s[k - 1] == '/',
        forall|m: int| k <= m < s.len() ==> s[m] != '/',
    ensures
        file_name_start(s) == k,
    decreases s.len(),
{
    if s.len() == 0 {
    } else if s.last() == '/' {
        assert(k == s.len());
    } else {
        assert(k < s.len() || k == s.len());
        if k == s.len() {
            assert(s[k - 1] == '/');
            assert(s.last() != '/');
            assert(false);
        }
        let t = s.drop_last();
        assert forall|m: int| k <= m < t.len() implies t[m] != '/' by {
            assert(t[m] == s[m]);
        }
        if k > 0 {
            assert(t[k - 1] == s[k - 1]);
        }
        lemma_file_name_start_is(t, k);
    }
}

/// Where the file name starts in `s`.
fn find_name_start(s: &Vec<char>) -> (k: usize)
    ensures
        0 <= k <= s.len(),
        k as int == file_name_start(s@),
        k > 0 ==> s@[k - 1] == '/',
        forall|m: int| k <= m < s@.len() ==> s@[m] != '/',
{
    let mut k: usize = s.len();
    while k > 0 && s[k - 1] != '/'
        invariant
            0 <= k <= s.len(),
            forall|m: int| k <= m < s@.len() ==> s@[m] != '/',
        decreases k,
    {
        k = k - 1;
    }
    proof {
        lemma_file_name_start_is(s@, k as int);
    }
    k
}

/// Derives the show name: the name of the subtitle file's immediate parent
/// directory, or nothing for a degenerate path.
pub fn get_show_name(file_path: &str) -> (r: Option<String>)
    ensures
        match show_name_model(file_path@) {
            Some(n) => r is Some && r->0@ == n,
            None => r is None,
        },
{
    let v = str_chars(file_path);
    let ns = find_name_start(&v);
    if ns == 0 {
        return None;
    }
    let parent = copy_range(&v, 0, ns - 1);
    let ps = find_name_start(&parent);
    let seg = copy_range(&parent, ps, parent.len());
    proof {
        assert(seg@ == parent@.skip(file_name_start(parent@)));
    }
    if seg.len() == 0 {
        return None;
    }
    if seg.len() == 1 && seg[0] == '.' {
        proof {
            assert(seg@ =~= seq!['.']);
        }
        return None;
    }
    if seg.len() == 2 && seg[0] == '.' && seg[1] == '.' {
        proof {
            assert(seg@ =~= seq!['.', '.']);
        }
        return None;
    }
    proof {
        assert(seg@ != seq!['.'] && seg@ != seq!['.', '.']) by {
            if seg@ == seq!['.'] {
                assert(seg@.len() == 1 && seg@[0] == '.');
            }
            if seg@ == seq!['.', '.'] {
                assert(seg@.len() == 2 && seg@[0] == '.' && seg@[1] == '.');
            }
        }
    }
    Some(chars_to_string(&seg))
}

// ---------------------------------------------------------------------------
// File stems and digit runs in them
// ---------------------------------------------------------------------------

/// Index of the last `.`, or -1 when there is none.
pub open spec fn last_dot(s: Seq<char>) -> int
    decreases s.len(),
{
    if s.len() == 0 {
        -1
    } else if s.last() == '.' {
        s.len() - 1
    } else {
        last_dot(s.drop_last())
    }
}

/// The file name without its extension: everything before the final `.`,
/// except that a name whose only `.` leads it is kept whole.
pub open spec fn stem_of(name: Seq<char>) -> Seq<char> {
    let ld = last_dot(name);
    if ld <= 0 {
        name
    } else {
        name.take(ld)
    }
}

/// The file stem of a path.
pub open spec fn stem_of_path(path: Seq<char>) -> Seq<char> {
    stem_of(path.skip(file_name_start(path)))
}

proof fn lemma_last_dot_is(s: Seq<char>, k: int)
    requires
        -1 <= k < s.len(),
        k >= 0 ==> s[k] == '.',
        forall|m: int| k < m < s.len() ==> s[m] != '.',
    ensures
        last_dot(s) == k,
    decreases s.len(),
{
    if s.len() == 0 {
    } else if s.last() == '.' {
        assert(k == s.len() - 1);
    } else {
        assert(k < s.len() - 1);
        let t = s.drop_last();
        assert forall|m: int| k < m < t.len() implies t[m] != '.' by {
            assert(t[m] == s[m]);
        }
        if k >= 0 {
            assert(t[k] == s[k]);
        }
        lemma_last_dot_is(t, k);
    }
}

/// The stem of the file name held in `v`, as a fresh vector.
fn stem_vec(v: &Vec<char>) -> (r: Vec<char>)
    ensures
        r@ == stem_of_path(v@),
{
    let ns = find_name_start(v);
    let name = copy_range(v, ns, v.len());
    proof {
        assert(name@ == v@.skip(file_name_start(v@)));
    }
    let mut k: usize = name.len();
    while k > 0 && name[k - 1] != '.'
        invariant
            0 <= k <= name.len(),
            forall|m: int| k <= m < name@.len() ==> name@[m] != '.',
        decreases k,
    {
        k = k - 1;
    }
    if k == 0 {
        proof {
            lemma_last_dot_is(name@, -1);
        }
        return name;
    }
    proof {
        assert(name@[k - 1] == '.');
        lemma_last_dot_is(name@, k - 1);
    }
    if k == 1 {
        return name;
    }
    let r = copy_range(&name, 0, k - 1);
    proof {
        assert(r@ =~= name@.take(k - 1));
    }
    r
}

/// First position of a literal `E` directly followed by a digit.
pub open spec fn e_match_start(s: Seq<char>) -> Option<int>
    decreases s.len(),
{
    if s.len() < 2 {
        None
    } else if s[0] == 'E' && is_digit_char(s[1]) {
        Some(0)
    } else {
        match e_match_start(s.skip(1)) {
            None => None,
            Some(k) => Some(k + 1),
        }
    }
}

/// Episode number by the `FromFilename` strategy: the first digit run after
/// a literal `E` in the stem, when it fits a 32-bit signed number.
pub open spec fn filename_number_model(path: Seq<char>) -> Option<int> {
    let stem = stem_of_path(path);
    match e_match_start(stem) {
        None => None,
        Some(i) => {
            let run = digits_run(stem.skip(i + 1)) as int;
            let v = digits_val(stem.subrange(i + 1, i + 1 + run));
            if v <= i32::MAX as nat {
                Some(v as int)
            } else {
                None
            }
        },
    }
}

proof fn lemma_e_match_is_some(s: Seq<char>, k: int)
    requires
        0 <= k,
        k + 2 <= s.len(),
        s[k] == 'E' && is_digit_char(s[k + 1]),
        forall|m: int| 0 <= m < k ==> !((#[trigger] s[m]) == 'E' && is_digit_char(s[m + 1])),
    ensures
        e_match_start(s) == Some(k),
    decreases s.len(),
{
    if k == 0 {
    } else {
        assert(!(s[0] == 'E' && is_digit_char(s[1])));
        let t = s.skip(1);
        assert forall|m: int| 0 <= m < k - 1 implies !((#[trigger] t[m]) == 'E' && is_digit_char(
            t[m + 1],
        )) by {
            assert(t[m] == s[m + 1]);
            assert(t[m + 1] == s[m + 2]);
        }
        assert(t[k - 1] == s[k]);
        assert(t[k] == s[k + 1]);
        lemma_e_match_is_some(t, k - 1);
    }
}

proof fn lemma_e_match_is_none(s: Seq<char>)
    requires
        forall|m: int| 0 <= m && m + 2 <= s.len() ==> !((#[trigger] s[m]) == 'E' && is_digit_char(
            s[m + 1],
        )),
    ensures
        e_match_start(s) is None,
    decreases s.len(),
{
    if s.len() < 2 {
    } else {
        let t = s.skip(1);
        assert forall|m: int| 0 <= m && m + 2 <= t.len() implies !((#[trigger] t[m]) == 'E'
            && is_digit_char(t[m + 1])) by {
            assert(t[m] == s[m + 1]);
            assert(t[m + 1] == s[m + 2]);
        }
        lemma_e_match_is_none(t);
    }
}

/// Extracts the episode number from the file name: first digits after `E`.
pub fn get_episode_number_from_filename(file_path: &str) -> (r: Option<i32>)
    ensures
        match filename_number_model(file_path@) {
            Some(v) => r is Some && r->0 == v,
            None => r is None,
        },
{
    let v = str_chars(file_path);
    let stem = stem_vec(&v);
    let n = stem.len();
    let mut p: usize = 0;
    while n - p > 1 && !(stem[p] == 'E' && crate::text::is_digit(stem[p + 1]))
        invariant
            0 <= p <= n,
            n == stem@.len(),
            forall|m: int| 0 <= m < p ==> !((#[trigger] stem@[m]) == 'E' && is_digit_char(
                stem@[m + 1],
            )),
        decreases n - p,
    {
        p = p + 1;
    }
    if !(n - p > 1) {
        proof {
            lemma_e_match_is_none(stem@);
        }
        return None;
    }
    proof {
        lemma_e_match_is_some(stem@, p as int);
    }
    let d_end = crate::srt_parser::parsing::scan_digits(&stem, p + 1);
    proof {
        let sub = stem@.subrange(p + 1, d_end as int);
        assert forall|m: int| 0 <= m < sub.len() implies is_digit_char(#[trigger] sub[m]) by {
            assert(sub[m] == stem@[p + 1 + m]);
        }
    }
    match crate::text::parse_digits_max(&stem, p + 1, d_end, 0x7fff_ffff) {
        Some(val) => Some(val as i32),
        None => None,
    }
}

/// Start of the digit run that ends just before position `e`.
pub open spec fn run_start(s: Seq<char>, e: int) -> int
    decreases (if e >= 0 { e } else { 0 }),
{
    if e <= 0 {
        0
    } else if is_digit_char(s[e - 1]) {
        run_start(s, e - 1)
    } else {
        e
    }
}

/// Index of the last digit, or -1 when there is none.
pub open spec fn last_digit(s: Seq<char>) -> int
    decreases s.len(),
{
    if s.len() == 0 {
        -1
    } else if is_digit_char(s.last()) {
        s.len() - 1
    } else {
        last_digit(s.drop_last())
    }
}

/// Episode number by the `FromLastNumbers` strategy: the trailing digit run
/// of the stem (the last digit run, whose digits are followed only by
/// non-digits), when it fits a 32-bit signed number.
pub open spec fn last_numbers_model(path: Seq<char>) -> Option<int> {
    let stem = stem_of_path(path);
    let ld = last_digit(stem);
    if ld < 0 {
        None
    } else {
        let st = run_start(stem, ld + 1);
        let v = digits_val(stem.subrange(st, ld + 1));
        if v <= i32::MAX as nat {
            Some(v as int)
        } else {
            None
        }
    }
}

proof fn lemma_last_digit_is(s: Seq<char>, k: int)
    requires
        -1 <= k < s.len(),
        k >= 0 ==> is_digit_char(s[k]),
        forall|m: int| k < m < s.len() ==> !is_digit_char(#[trigger] s[m]),
    ensures
        last_digit(s) == k,
    decreases s.len(),
{
    if s.len() == 0 {
    } else if is_digit_char(s.last()) {
        assert(k == s.len() - 1);
    } else {
        assert(k < s.len() - 1);
        let t = s.drop_last();
        assert forall|m: int| k < m < t.len() implies !is_digit_char(#[trigger] t[m]) by {
            assert(t[m] == s[m]);
        }
        if k >= 0 {
            assert(t[k] == s[k]);
        }
        lemma_last_digit_is(t, k);
    }
}

proof fn lemma_run_start_is(s: Seq<char>, e: int, j: int)
    requires
        0 <= j <= e,
        forall|m: int| j <= m < e ==> is_digit_char(#[trigger] s[m]),
        j > 0 ==> !is_digit_char(s[j - 1]),
    ensures
        run_start(s, e) == j,
    decreases e,
{
    if j == e {
        if e > 0 {
            assert(!is_digit_char(s[e - 1]));
        }
    } else {
        assert(is_digit_char(s[e - 1]));
        lemma_run_start_is(s, e - 1, j);
    }
}

/// Extracts the episode number from the file name: its trailing digit run.
pub fn get_episode_number_from_last_numbers(file_path: &str) -> (r: Option<i32>)
    ensures
        match last_numbers_model(file_path@) {
            Some(v) => r is Some && r->0 == v,
            None => r is None,
        },
{
    let v = str_chars(file_path);
    let stem = stem_vec(&v);
    let mut e: usize = stem.len();
    while e > 0 && !crate::text::is_digit(stem[e - 1])
        invariant
            0 <= e <= stem@.len(),
            forall|m: int| e <= m < stem@.len() ==> !is_digit_char(#[trigger] stem@[m]),
        decreases e,
    {
        e = e - 1;
    }
    if e == 0 {
        proof {
            lemma_last_digit_is(stem@, -1);
        }
        return None;
    }
    proof {
        lemma_last_digit_is(stem@, e - 1);
    }
    let mut j: usize = e;
    while j > 0 && crate::text::is_digit(stem[j - 1])
        invariant
            0 <= j <= e <= stem@.len(),
            forall|m: int| j <= m < e ==> is_digit_char(#[trigger] stem@[m]),
        decreases j,
    {
        j = j - 1;
    }
    proof {
        lemma_run_start_is(stem@, e as int, j as int);
        let sub = stem@.subrange(j as int, e as int);
        assert forall|m: int| 0 <= m < sub.len() implies is_digit_char(#[trigger] sub[m]) by {
            assert(sub[m] == stem@[j + m]);
        }
    }
    match crate::text::parse_digits_max(&stem, j, e, 0x7fff_ffff) {
        Some(val) => Some(val as i32),
        None => None,
    }
}

// ---------------------------------------------------------------------------
// File-order numbering
// ---------------------------------------------------------------------------

/// Lexicographic order on character sequences, by code point.
pub open spec fn lex_le(a: Seq<char>, b: Seq<char>) -> bool
    decreases a.len(),
{
    if a.len() == 0 {
        true
    } else if b.len() == 0 {
        false
    } else if (a[0] as u32) < (b[0] as u32) {
        true
    } else if (a[0] as u32) > (b[0] as u32) {
        false
    } else {
        lex_le(a.skip(1), b.skip(1))
    }
}

/// Inserts `v` before the first strictly greater element.
pub open spec fn insert_sorted(v: Seq<char>, l: Seq<Seq<char>>) -> Seq<Seq<char>>
    decreases l.len(),
{
    if l.len() == 0 {
        seq![v]
    } else if !lex_le(l[0], v) {
        seq![v] + l
    } else {
        seq![l[0]] + insert_sorted(v, l.skip(1))
    }
}

/// Insertion sort of a path listing, lexicographically ascending.
pub open spec fn sort_paths(l: Seq<Seq<char>>) -> Seq<Seq<char>>
    decreases l.len(),
{
    if l.len() == 0 {
        Seq::empty()
    } else {
        insert_sorted(l.last(), sort_paths(l.drop_last()))
    }
}

/// First index holding `v`, or the length when `v` is absent.
pub open spec fn first_eq_idx(l: Seq<Seq<char>>, v: Seq<char>) -> int
    decreases l.len(),
{
    if l.len() == 0 {
        0
    } else if l[0] == v {
        0
    } else {
        1 + first_eq_idx(l.skip(1), v)
    }
}

/// Episode number by the `FromFileOrder` strategy: the 1-based position of
/// the path in the lexicographically sorted listing, 0 when absent.
pub open spec fn file_order_model(files: Seq<Seq<char>>, path: Seq<char>) -> int {
    let sorted = sort_paths(files);
    let fi = first_eq_idx(sorted, path);
    if fi == sorted.len() {
        0
    } else {
        fi + 1
    }
}

/// The lexicographic order is total.
pub proof fn lemma_lex_le_total(a: Seq<char>, b: Seq<char>)
    ensures
        lex_le(a, b) || lex_le(b, a),
    decreases a.len(),
{
    if a.len() > 0 && b.len() > 0 && (a[0] as u32) == (b[0] as u32) {
        lemma_lex_le_total(a.skip(1), b.skip(1));
    }
}

/// The lexicographic order is transitive.
pub proof fn lemma_lex_le_trans(a: Seq<char>, b: Seq<char>, c: Seq<char>)
    requires
        lex_le(a, b),
        lex_le(b, c),
    ensures
        lex_le(a, c),
    decreases a.len(),
{
    if a.len() == 0 {
    } else {
        assert(b.len() > 0);
        assert(c.len() > 0);
        if (a[0] as u32) == (b[0] as u32) && (b[0] as u32) == (c[0] as u32) {
            lemma_lex_le_trans(a.skip(1), b.skip(1), c.skip(1));
        }
    }
}

/// A listing in ascending lexicographic order.
pub open spec fn lex_sorted(l: Seq<Seq<char>>) -> bool {
    forall|i: int, j: int| 0 <= i < j < l.len() ==> lex_le(#[trigger] l[i], #[trigger] l[j])
}

proof fn lemma_insert_sorted_sorted(v: Seq<char>, l: Seq<Seq<char>>)
    requires
        lex_sorted(l),
    ensures
        lex_sorted(insert_sorted(v, l)),
        forall|k: int|
            0 <= k < insert_sorted(v, l).len() ==> (#[trigger] insert_sorted(v, l)[k]) == v
                || l.contains(insert_sorted(v, l)[k]),
    decreases l.len(),
{
    let r = insert_sorted(v, l);
    if l.len() == 0 {
        assert(r =~= seq![v]);
    } else if !lex_le(l[0], v) {
        assert(r == seq![v] + l);
        lemma_lex_le_total(l[0], v);
        assert forall|i: int, j: int| 0 <= i < j < r.len() implies lex_le(
            #[trigger] r[i],
            #[trigger] r[j],
        ) by {
            if i > 0 {
                assert(r[i] == l[i - 1]);
                assert(r[j] == l[j - 1]);
            } else {
                assert(r[j] == l[j - 1]);
                if j > 1 {
                    lemma_lex_le_trans(v, l[0], l[j - 1]);
                }
            }
        }
        assert forall|k: int| 0 <= k < r.len() implies (#[trigger] r[k]) == v || l.contains(
            r[k],
        ) by {
            if k > 0 {
                assert(r[k] == l[k - 1]);
            }
        }
    } else {
        let t = l.skip(1);
        assert forall|i: int, j: int| 0 <= i < j < t.len() implies lex_le(
            #[trigger] t[i],
            #[trigger] t[j],
        ) by {
            assert(t[i] == l[i + 1]);
            assert(t[j] == l[j + 1]);
        }
        lemma_insert_sorted_sorted(v, t);
        let rt = insert_sorted(v, t);
        assert(r == seq![l[0]] + rt);
        assert forall|k: int| 0 <= k < r.len() implies (#[trigger] r[k]) == v || l.contains(
            r[k],
        ) by {
            if k > 0 {
                assert(r[k] == rt[k - 1]);
                if rt[k - 1] != v {
                    let m = choose|m: int| 0 <= m < t.len() && t[m] == rt[k - 1];
                    assert(l[m + 1] == rt[k - 1]);
                }
            } else {
                assert(l.contains(l[0]));
            }
        }
        assert forall|i: int, j: int| 0 <= i < j < r.len() implies lex_le(
            #[trigger] r[i],
            #[trigger] r[j],
        ) by {
            if i > 0 {
                assert(r[i] == rt[i - 1]);
                assert(r[j] == rt[j - 1]);
            } else {
                assert(r[j] == rt[j - 1]);
                if rt[j - 1] == v {
                    assert(lex_le(l[0], v));
                } else {
                    let m = choose|m: int| 0 <= m < t.len() && t[m] == rt[j - 1];
                    assert(t[m] == l[m + 1]);
                    assert(lex_le(l[0], l[m + 1]));
                }
            }
        }
    }
}

proof fn lemma_insert_sorted_multiset(v: Seq<char>, l: Seq<Seq<char>>)
    ensures
        insert_sorted(v, l).to_multiset() =~= l.to_multiset().insert(v),
    decreases l.len(),
{
    broadcast use vstd::seq_lib::group_to_multiset_ensures;

    if l.len() == 0 {
        assert(insert_sorted(v, l) =~= Seq::<Seq<char>>::empty().push(v));
    } else if !lex_le(l[0], v) {
        vstd::seq_lib::lemma_multiset_commutative(seq![v], l);
        assert(seq![v] =~= Seq::<Seq<char>>::empty().push(v));
    } else {
        let t = l.skip(1);
        lemma_insert_sorted_multiset(v, t);
        vstd::seq_lib::lemma_multiset_commutative(seq![l[0]], insert_sorted(v, t));
        vstd::seq_lib::lemma_multiset_commutative(seq![l[0]], t);
        assert(seq![l[0]] + t =~= l);
        assert(seq![l[0]] =~= Seq::<Seq<char>>::empty().push(l[0]));
    }
}

/// Law: the listing that file-order numbering positions against is the
/// given listing, lexicographically sorted: same paths, ascending order.
pub proof fn lemma_sort_paths_is_sorted_permutation(l: Seq<Seq<char>>)
    ensures
        lex_sorted(sort_paths(l)),
        sort_paths(l).to_multiset() =~= l.to_multiset(),
    decreases l.len(),
{
    broadcast use vstd::seq_lib::group_to_multiset_ensures;

    if l.len() > 0 {
        lemma_sort_paths_is_sorted_permutation(l.drop_last());
        lemma_insert_sorted_sorted(l.last(), sort_paths(l.drop_last()));
        lemma_insert_sorted_multiset(l.last(), sort_paths(l.drop_last()));
        assert(l.drop_last().push(l.last()) =~= l);
    }
}

/// Compares two strings lexicographically.
fn str_le(a: &String, b: &String) -> (r: bool)
    ensures
        r == lex_le(a@, b@),
{
    let la = a.as_str().unicode_len();
    let lb = b.as_str().unicode_len();
    let mut i: usize = 0;
    proof {
        assert(a@.skip(0) =~= a@);
        assert(b@.skip(0) =~= b@);
    }
    while i < la && i < lb
        invariant
            0 <= i,
            i <= la,
            i <= lb,
            la == a@.len(),
            lb == b@.len(),
            lex_le(a@, b@) == lex_le(a@.skip(i as int), b@.skip(i as int)),
        decreases la - i,
    {
        let ca = a.as_str().get_char(i);
        let cb = b.as_str().get_char(i);
        proof {
            let ta = a@.skip(i as int);
            let tb = b@.skip(i as int);
            assert(ta[0] == a@[i as int]);
            assert(tb[0] == b@[i as int]);
            assert(ta.skip(1) =~= a@.skip(i + 1));
            assert(tb.skip(1) =~= b@.skip(i + 1));
        }
        if (ca as u32) < (cb as u32) {
            return true;
        }
        if (ca as u32) > (cb as u32) {
            return false;
        }
        i = i + 1;
    }
    proof {
        let ta = a@.skip(i as int);
        let tb = b@.skip(i as int);
        if i == la {
            assert(ta.len() == 0);
        } else {
            assert(tb.len() == 0 && ta.len() > 0);
        }
    }
    i == la
}

proof fn lemma_insert_sorted_at(v: Seq<char>, l: Seq<Seq<char>>, p: int)
    requires
        0 <= p <= l.len(),
        forall|m: int| 0 <= m < p ==> lex_le(#[trigger] l[m], v),
        p < l.len() ==> !lex_le(l[p], v),
    ensures
        insert_sorted(v, l) == l.take(p) + seq![v] + l.skip(p),
    decreases l.len(),
{
    if l.len() == 0 {
        assert(insert_sorted(v, l) =~= l.take(p) + seq![v] + l.skip(p));
    } else if p == 0 {
        assert(!lex_le(l[0], v));
        assert(insert_sorted(v, l) =~= l.take(0) + seq![v] + l.skip(0));
    } else {
        assert(lex_le(l[0], v));
        let t = l.skip(1);
        assert forall|m: int| 0 <= m < p - 1 implies lex_le(#[trigger] t[m], v) by {
            assert(t[m] == l[m + 1]);
        }
        if p - 1 < t.len() {
            assert(t[p - 1] == l[p]);
        }
        lemma_insert_sorted_at(v, t, p - 1);
        assert(insert_sorted(v, l) == seq![l[0]] + (t.take(p - 1) + seq![v] + t.skip(p - 1)));
        assert(t.take(p - 1) =~= l.subrange(1, p));
        assert(t.skip(p - 1) =~= l.skip(p));
        assert(seq![l[0]] + (l.subrange(1, p) + seq![v] + l.skip(p)) =~= l.take(p) + seq![v]
            + l.skip(p));
    }
}

/// Inserts a path into an already sorted listing.
fn insert_path(v: String, out: &mut Vec<String>)
    ensures
        final(out)@.map_values(|f: String| f@) == insert_sorted(
            v@,
            old(out)@.map_values(|f: String| f@),
        ),
{
    let ghost l = out@.map_values(|f: String| f@);
    let mut p: usize = 0;
    while p < out.len() && str_le(&out[p], &v)
        invariant
            0 <= p <= out@.len(),
            l == out@.map_values(|f: String| f@),
            forall|m: int| 0 <= m < p ==> lex_le(#[trigger] l[m], v@),
        decreases out@.len() - p,
    {
        proof {
            assert(l[p as int] == out@[p as int]@);
        }
        p = p + 1;
    }
    proof {
        if (p as int) < l.len() {
            assert(l[p as int] == out@[p as int]@);
        }
        lemma_insert_sorted_at(v@, l, p as int);
    }
    out.insert(p, v);
    proof {
        let after = out@.map_values(|f: String| f@);
        let expect = l.take(p as int) + seq![v@] + l.skip(p as int);
        assert(after =~= expect) by {
            assert forall|m: int| 0 <= m < after.len() implies after[m] == expect[m] by {
                assert(after[m] == out@[m]@);
                if m < p {
                    assert(out@[m] == old(out)@[m]);
                    assert(l[m] == old(out)@[m]@);
                } else if m > p {
                    assert(out@[m] == old(out)@[m - 1]);
                    assert(l[m - 1] == old(out)@[m - 1]@);
                }
            }
        }
    }
}

/// Sorts a listing lexicographically.
fn sorted_paths_vec(files: &Vec<String>) -> (r: Vec<String>)
    ensures
        r@.map_values(|f: String| f@) == sort_paths(files@.map_values(|f: String| f@)),
{
    let ghost fl = files@.map_values(|f: String| f@);
    let mut out: Vec<String> = Vec::new();
    let mut i: usize = 0;
    proof {
        assert(out@.map_values(|f: String| f@) =~= sort_paths(fl.take(0)));
    }
    while i < files.len()
        invariant
            0 <= i <= files@.len(),
            fl == files@.map_values(|f: String| f@),
            out@.map_values(|f: String| f@) == sort_paths(fl.take(i as int)),
        decreases files@.len() - i,
    {
        let f = files[i].clone();
        proof {
            assert(f@ == fl[i as int]);
        }
        insert_path(f, &mut out);
        proof {
            let pre = fl.take(i as int);
            let nxt = fl.take(i + 1);
            assert(nxt.drop_last() =~= pre);
            assert(nxt.last() == fl[i as int]);
            assert(sort_paths(nxt) == insert_sorted(fl[i as int], sort_paths(pre)));
        }
        i = i + 1;
    }
    proof {
        assert(fl.take(i as int) =~= fl);
    }
    out
}

/// Derives the episode number as the file's 1-based position in the sorted
/// listing of the show directory's subtitle files; a file missing from the
/// listing gets 0.
pub fn get_episode_number_from_file_order(file_path: &str, show_files: &Vec<String>) -> (r: i32)
    requires
        show_files@.len() < i32::MAX,
    ensures
        r as int == file_order_model(show_files@.map_values(|f: String| f@), file_path@),
{
    let sorted = sorted_paths_vec(show_files);
    let ghost sl = sorted@.map_values(|f: String| f@);
    let p = String::from_str(file_path);
    let mut k: usize = 0;
    while k < sorted.len() && !sorted[k].eq(&p)
        invariant
            0 <= k <= sorted@.len(),
            sl == sorted@.map_values(|f: String| f@),
            p@ == file_path@,
            forall|m: int| 0 <= m < k ==> #[trigger] sl[m] != file_path@,
        decreases sorted@.len() - k,
    {
        proof {
            assert(sl[k as int] == sorted@[k as int]@);
        }
        k = k + 1;
    }
    proof {
        if (k as int) < sl.len() {
            assert(sl[k as int] == sorted@[k as int]@);
        }
        lemma_first_eq_is(sl, file_path@, k as int);
        assert(sl.len() == show_files@.len()) by {
            lemma_sort_paths_len(show_files@.map_values(|f: String| f@));
        }
    }
    if k == sorted.len() {
        0
    } else {
        (k as i32) + 1
    }
}

proof fn lemma_first_eq_is(l: Seq<Seq<char>>, v: Seq<char>, k: int)
    requires
        0 <= k <= l.len(),
        forall|m: int| 0 <= m < k ==> #[trigger] l[m] != v,
        k < l.len() ==> l[k] == v,
    ensures
        first_eq_idx(l, v) == k,
    decreases l.len(),
{
    if k == 0 {
    } else {
        assert(l[0] != v);
        let t = l.skip(1);
        assert forall|m: int| 0 <= m < k - 1 implies #[trigger] t[m] != v by {
            assert(t[m] == l[m + 1]);
        }
        if k - 1 < t.len() {
            assert(t[k - 1] == l[k]);
        }
        lemma_first_eq_is(t, v, k - 1);
    }
}

/// Sorting keeps the number of paths.
proof fn lemma_sort_paths_len(l: Seq<Seq<char>>)
    ensures
        sort_paths(l).len() == l.len(),
    decreases l.len(),
{
    if l.len() > 0 {
        lemma_sort_paths_len(l.drop_last());
        lemma_insert_sorted_len(l.last(), sort_paths(l.drop_last()));
    }
}

proof fn lemma_insert_sorted_len(v: Seq<char>, l: Seq<Seq<char>>)
    ensures
        insert_sorted(v, l).len() == l.len() + 1,
    decreases l.len(),
{
    if l.len() > 0 && lex_le(l[0], v) {
        lemma_insert_sorted_len(v, l.skip(1));
    }
}

// ---------------------------------------------------------------------------
// Titles
// ---------------------------------------------------------------------------

/// Index of the first `.`, or the length when there is none.
pub open spec fn dot_idx(s: Seq<char>) -> nat
    decreases s.len(),
{
    if s.len() == 0 {
        0
    } else if s[0] == '.' {
        0
    } else {
        1 + dot_idx(s.skip(1))
    }
}

/// Episode title by the `FromSecondPart` strategy: the part between the first
/// and second `.` of the file name, when a third part follows.
pub open spec fn second_part_model(path: Seq<char>) -> Option<Seq<char>> {
    let name = path.skip(file_name_start(path));
    let d1 = dot_idx(name) as int;
    if d1 >= name.len() {
        None
    } else {
        let d2 = d1 + 1 + dot_idx(name.skip(d1 + 1));
        if d2 >= name.len() {
            None
        } else {
            Some(name.subrange(d1 + 1, d2))
        }
    }
}

proof fn lemma_dot_idx_is(s: Seq<char>, k: int)
    requires
        0 <= k <= s.len(),
        forall|m: int| 0 <= m < k ==> (#[trigger] s[m]) != '.',
        k < s.len() ==> s[k] == '.',
    ensures
        dot_idx(s) == k,
    decreases s.len(),
{
    if k == 0 {
    } else {
        let t = s.skip(1);
        assert forall|m: int| 0 <= m < k - 1 implies (#[trigger] t[m]) != '.' by {
            assert(t[m] == s[m + 1]);
        }
        if k - 1 < t.len() {
            assert(t[k - 1] == s[k]);
        }
        lemma_dot_idx_is(t, k - 1);
    }
}

/// First `.` at or after `from`.
fn find_dot(s: &Vec<char>, from: usize) -> (r: usize)
    requires
        from <= s.len(),
    ensures
        from <= r <= s.len(),
        r - from == dot_idx(s@.skip(from as int)),
        r < s.len() ==> s@[r as int] == '.',
{
    let mut j: usize = from;
    while j < s.len() && s[j] != '.'
        invariant
            from <= j <= s.len(),
            forall|m: int| from <= m < j ==> (#[trigger] s@[m]) != '.',
        decreases s.len() - j,
    {
        j = j + 1;
    }
    proof {
        let t = s@.skip(from as int);
        assert forall|m: int| 0 <= m < j - from implies (#[trigger] t[m]) != '.' by {
            assert(t[m] == s@[from + m]);
        }
        if (j as int) < s@.len() {
            assert(t[j - from] == s@[j as int]);
        }
        lemma_dot_idx_is(t, j - from);
    }
    j
}

/// Derives the episode title as the second dot-separated part of the file
/// name; absent when the name has fewer than three parts.
pub fn get_episode_name_from_second_part(file_path: &str) -> (r: Option<String>)
    ensures
        match second_part_model(file_path@) {
            Some(n) => r is Some && r->0@ == n,
            None => r is None,
        },
{
    let v = str_chars(file_path);
    let ns = find_name_start(&v);
    let name = copy_range(&v, ns, v.len());
    proof {
        assert(name@ == v@.skip(file_name_start(v@)));
    }
    let d1 = find_dot(&name, 0);
    proof {
        assert(name@.skip(0) =~= name@);
    }
    if d1 == name.len() {
        return None;
    }
    let d2 = find_dot(&name, d1 + 1);
    if d2 == name.len() {
        return None;
    }
    let part = copy_range(&name, d1 + 1, d2);
    Some(chars_to_string(&part))
}

/// The literal composition `Episode {number}`.
pub open spec fn episode_title(n: int) -> Seq<char> {
    seq!['E', 'p', 'i', 's', 'o', 'd', 'e', ' '] + dec_int_digits(n)
}

/// Builds the fallback title `Episode {number}`.
pub fn episode_title_string(episode_number: i32) -> (r: String)
    ensures
        r@ == episode_title(episode_number as int),
{
    let mut v: Vec<char> = Vec::new();
    v.push('E');
    v.push('p');
    v.push('i');
    v.push('s');
    v.push('o');
    v.push('d');
    v.push('e');
    v.push(' ');
    proof {
        assert(v@ =~= seq!['E', 'p', 'i', 's', 'o', 'd', 'e', ' ']);
    }
    push_dec_i64(&mut v, episode_number as i64);
    proof {
        assert(v@ =~= episode_title(episode_number as int));
    }
    chars_to_string(&v)
}

// ---------------------------------------------------------------------------
// Strategy dispatch
// ---------------------------------------------------------------------------

/// What `get_episode_number` returns for each strategy, defaults applied.
pub open spec fn episode_number_model(
    method: EpisodeNumberMethod,
    path: Seq<char>,
    files: Seq<Seq<char>>,
) -> int {
    match method {
        EpisodeNumberMethod::FromFilename => match filename_number_model(path) {
            Some(v) => v,
            None => 0,
        },
        EpisodeNumberMethod::FromFileOrder => file_order_model(files, path),
        EpisodeNumberMethod::FromLastNumbers => match last_numbers_model(path) {
            Some(v) => v,
            None => 0,
        },
    }
}

/// Derives the episode number by the selected strategy.  A strategy that
/// finds no number in the file name falls back to 0; `show_files` is the
/// show directory's subtitle listing, read only by `FromFileOrder`.
pub fn get_episode_number(
    method: &EpisodeNumberMethod,
    file_path: &str,
    show_files: &Vec<String>,
) -> (r: i32)
    requires
        *method is FromFileOrder ==> show_files@.len() < i32::MAX,
    ensures
        r as int == episode_number_model(
            *method,
            file_path@,
            show_files@.map_values(|f: String| f@),
        ),
{
    match method {
        EpisodeNumberMethod::FromFilename => match get_episode_number_from_filename(file_path) {
            Some(v) => v,
            None => 0,
        },
        EpisodeNumberMethod::FromFileOrder => get_episode_number_from_file_order(
            file_path,
            show_files,
        ),
        EpisodeNumberMethod::FromLastNumbers => match get_episode_number_from_last_numbers(
            file_path,
        ) {
            Some(v) => v,
            None => 0,
        },
    }
}

/// What `get_episode_name` returns for each strategy.
pub open spec fn episode_name_model(
    method: EpisodeNameMethod,
    path: Seq<char>,
    episode_number: int,
) -> Option<Seq<char>> {
    match method {
        EpisodeNameMethod::FromSecondPart => second_part_model(path),
        EpisodeNameMethod::FromEpisodeNumber => Some(episode_title(episode_number)),
    }
}

/// Derives the episode title by the selected strategy.  `FromEpisodeNumber`
/// always succeeds with the literal `Episode {number}`; `FromSecondPart`
/// yields nothing when the file name has fewer than three dot-separated
/// parts, and the caller supplies the fallback.
pub fn get_episode_name(
    method: &EpisodeNameMethod,
    file_path: &str,
    episode_number: i32,
) -> (r: Option<String>)
    ensures
        match episode_name_model(*method, file_path@, episode_number as int) {
            Some(n) => r is Some && r->0@ == n,
            None => r is None,
        },
        *method is FromEpisodeNumber ==> r is Some,
{
    match method {
        EpisodeNameMethod::FromSecondPart => get_episode_name_from_second_part(file_path),
        EpisodeNameMethod::FromEpisodeNumber => Some(episode_title_string(episode_number)),
    }
}

} // verus!
