//! Aggregation of parsed entries: grouping by show in first-encounter order,
//! ordering a show's episodes by number (stable), and flattening the groups
//! into the three ordered persistence batches.

use vstd::prelude::*;

use crate::srt_parser::parsing::SrtEntry;
use crate::srt_parser::types::ts_format;

verus! {

/// One show's entries, in episode order.
pub struct ShowGroup {
    pub show_name: String,
    pub entries: Vec<SrtEntry>,
}

// ---------------------------------------------------------------------------
// Grouping by show name, first-encounter order
// ---------------------------------------------------------------------------

pub open spec fn contains_name(names: Seq<Seq<char>>, n: Seq<char>) -> bool {
    exists|k: int| 0 <= k < names.len() && names[k] == n
}

/// The distinct show names of `es`, in first-encounter order.
pub open spec fn group_names(es: Seq<SrtEntry>) -> Seq<Seq<char>>
    decreases es.len(),
{
    if es.len() == 0 {
        Seq::empty()
    } else {
        let pre = group_names(es.drop_last());
        if contains_name(pre, es.last().show_name@) {
            pre
        } else {
            pre.push(es.last().show_name@)
        }
    }
}

/// The entries of `es` whose show name is `n`, in encounter order.
pub open spec fn entries_for(es: Seq<SrtEntry>, n: Seq<char>) -> Seq<SrtEntry>
    decreases es.len(),
{
    if es.len() == 0 {
        Seq::empty()
    } else {
        let pre = entries_for(es.drop_last(), n);
        if es.last().show_name@ == n {
            pre.push(es.last())
        } else {
            pre
        }
    }
}

/// Inserts `e` after every entry with an episode number at most its own:
/// a stable insertion.
pub open spec fn insert_entry(e: SrtEntry, l: Seq<SrtEntry>) -> Seq<SrtEntry>
    decreases l.len(),
{
    if l.len() == 0 {
        seq![e]
    } else if l[0].episode_number > e.episode_number {
        seq![e] + l
    } else {
        seq![l[0]] + insert_entry(e, l.skip(1))
    }
}

/// Stable insertion sort by episode number, ascending.
pub open spec fn sort_entries(l: Seq<SrtEntry>) -> Seq<SrtEntry>
    decreases l.len(),
{
    if l.len() == 0 {
        Seq::empty()
    } else {
        insert_entry(l.last(), sort_entries(l.drop_last()))
    }
}

/// A name that never occurs in `es` selects no entries.
proof fn lemma_absent_name_no_entries(es: Seq<SrtEntry>, n: Seq<char>)
    requires
        !contains_name(group_names(es), n),
    ensures
        entries_for(es, n) == Seq::<SrtEntry>::empty(),
    decreases es.len(),
{
    if es.len() > 0 {
        let pre = group_names(es.drop_last());
        if es.last().show_name@ == n {
            if contains_name(pre, n) {
                assert(contains_name(group_names(es), n));
            } else {
                assert(group_names(es)[group_names(es).len() - 1] == n);
                assert(contains_name(group_names(es), n));
            }
            assert(false);
        }
        assert forall|k: int| 0 <= k < pre.len() implies #[trigger] pre[k] != n by {
            if contains_name(pre, n) {
                if group_names(es) == pre {
                    assert(contains_name(group_names(es), n));
                } else {
                    assert(group_names(es) == pre.push(es.last().show_name@));
                    let w = choose|w: int| 0 <= w < pre.len() && pre[w] == n;
                    assert(group_names(es)[w] == n);
                    assert(contains_name(group_names(es), n));
                }
            }
        }
        assert(!contains_name(pre, n));
        lemma_absent_name_no_entries(es.drop_last(), n);
    }
}

/// The collected names are pairwise distinct.
proof fn lemma_group_names_distinct(es: Seq<SrtEntry>)
    ensures
        forall|k1: int, k2: int|
            0 <= k1 < k2 < group_names(es).len() ==> #[trigger] group_names(es)[k1]
                != #[trigger] group_names(es)[k2],
    decreases es.len(),
{
    if es.len() > 0 {
        lemma_group_names_distinct(es.drop_last());
        let pre = group_names(es.drop_last());
        if !contains_name(pre, es.last().show_name@) {
            assert forall|k1: int, k2: int|
                0 <= k1 < k2 < group_names(es).len() implies #[trigger] group_names(es)[k1]
                != #[trigger] group_names(es)[k2] by {
                if k2 == group_names(es).len() - 1 {
                    if group_names(es)[k1] == es.last().show_name@ {
                        assert(pre[k1] == es.last().show_name@);
                        assert(contains_name(pre, es.last().show_name@));
                    }
                }
            }
        }
    }
}

proof fn lemma_insert_entry_at(e: SrtEntry, l: Seq<SrtEntry>, p: int)
    requires
        0 <= p <= l.len(),
        forall|m: int| 0 <= m < p ==> (#[trigger] l[m]).episode_number <= e.episode_number,
        p < l.len() ==> l[p].episode_number > e.episode_number,
    ensures
        insert_entry(e, l) == l.take(p) + seq![e] + l.skip(p),
    decreases l.len(),
{
    if l.len() == 0 {
        assert(insert_entry(e, l) =~= l.take(p) + seq![e] + l.skip(p));
    } else if p == 0 {
        assert(insert_entry(e, l) =~= l.take(0) + seq![e] + l.skip(0));
    } else {
        let t = l.skip(1);
        assert forall|m: int| 0 <= m < p - 1 implies (#[trigger] t[m]).episode_number
            <= e.episode_number by {
            assert(t[m] == l[m + 1]);
        }
        if p - 1 < t.len() {
            assert(t[p - 1] == l[p]);
        }
        lemma_insert_entry_at(e, t, p - 1);
        assert(insert_entry(e, l) == seq![l[0]] + (t.take(p - 1) + seq![e] + t.skip(p - 1)));
        assert(t.take(p - 1) =~= l.subrange(1, p));
        assert(t.skip(p - 1) =~= l.skip(p));
        assert(seq![l[0]] + (l.subrange(1, p) + seq![e] + l.skip(p)) =~= l.take(p) + seq![e]
            + l.skip(p));
    }
}

/// Entries in ascending episode order.
pub open spec fn sorted_by_episode(l: Seq<SrtEntry>) -> bool {
    forall|i: int, j: int|
        0 <= i < j < l.len() ==> (#[trigger] l[i]).episode_number <= (#[trigger] l[j]).episode_number
}

proof fn lemma_insert_entry_sorted(e: SrtEntry, l: Seq<SrtEntry>)
    requires
        sorted_by_episode(l),
    ensures
        sorted_by_episode(insert_entry(e, l)),
        forall|k: int|
            0 <= k < insert_entry(e, l).len() ==> (#[trigger] insert_entry(e, l)[k]) == e
                || l.contains(insert_entry(e, l)[k]),
    decreases l.len(),
{
    let r = insert_entry(e, l);
    if l.len() == 0 {
        assert(r =~= seq![e]);
    } else if l[0].episode_number > e.episode_number {
        assert(r == seq![e] + l);
        assert forall|i: int, j: int|
            0 <= i < j < r.len() implies (#[trigger] r[i]).episode_number
            <= (#[trigger] r[j]).episode_number by {
            if i > 0 {
                assert(r[i] == l[i - 1]);
                assert(r[j] == l[j - 1]);
            } else {
                assert(r[j] == l[j - 1]);
                assert(l[0].episode_number <= l[j - 1].episode_number);
            }
        }
        assert forall|k: int| 0 <= k < r.len() implies (#[trigger] r[k]) == e || l.contains(
            r[k],
        ) by {
            if k > 0 {
                assert(r[k] == l[k - 1]);
            }
        }
    } else {
        let t = l.skip(1);
        assert forall|i: int, j: int|
            0 <= i < j < t.len() implies (#[trigger] t[i]).episode_number
            <= (#[trigger] t[j]).episode_number by {
            assert(t[i] == l[i + 1]);
            assert(t[j] == l[j + 1]);
        }
        lemma_insert_entry_sorted(e, t);
        let rt = insert_entry(e, t);
        assert(r == seq![l[0]] + rt);
        assert forall|k: int| 0 <= k < r.len() implies (#[trigger] r[k]) == e || l.contains(
            r[k],
        ) by {
            if k > 0 {
                assert(r[k] == rt[k - 1]);
                if rt[k - 1] == e {
                } else {
                    let m = choose|m: int| 0 <= m < t.len() && t[m] == rt[k - 1];
                    assert(l[m + 1] == rt[k - 1]);
                }
            } else {
                assert(l[0] == r[0]);
                assert(l.contains(l[0]));
            }
        }
        assert forall|i: int, j: int|
            0 <= i < j < r.len() implies (#[trigger] r[i]).episode_number
            <= (#[trigger] r[j]).episode_number by {
            if i > 0 {
                assert(r[i] == rt[i - 1]);
                assert(r[j] == rt[j - 1]);
            } else {
                assert(r[j] == rt[j - 1]);
                if rt[j - 1] == e {
                    assert(l[0].episode_number <= e.episode_number);
                } else {
                    let m = choose|m: int| 0 <= m < t.len() && t[m] == rt[j - 1];
                    assert(t[m] == l[m + 1]);
                    assert(l[0].episode_number <= l[m + 1].episode_number);
                }
            }
        }
    }
}

/// Law: a sorted run of entries is in ascending episode order, so each
/// group that `group_entries` returns lists its show's episodes by number.
pub proof fn lemma_sort_entries_sorted(l: Seq<SrtEntry>)
    ensures
        sorted_by_episode(sort_entries(l)),
    decreases l.len(),
{
    if l.len() > 0 {
        lemma_sort_entries_sorted(l.drop_last());
        lemma_insert_entry_sorted(l.last(), sort_entries(l.drop_last()));
    }
}

proof fn lemma_insert_entry_multiset(e: SrtEntry, l: Seq<SrtEntry>)
    ensures
        insert_entry(e, l).to_multiset() =~= l.to_multiset().insert(e),
    decreases l.len(),
{
    broadcast use vstd::seq_lib::group_to_multiset_ensures;

    if l.len() == 0 {
        assert(insert_entry(e, l) =~= Seq::<SrtEntry>::empty().push(e));
    } else if l[0].episode_number > e.episode_number {
        vstd::seq_lib::lemma_multiset_commutative(seq![e], l);
        assert(seq![e] =~= Seq::<SrtEntry>::empty().push(e));
    } else {
        let t = l.skip(1);
        lemma_insert_entry_multiset(e, t);
        vstd::seq_lib::lemma_multiset_commutative(seq![l[0]], insert_entry(e, t));
        vstd::seq_lib::lemma_multiset_commutative(seq![l[0]], t);
        assert(seq![l[0]] + t =~= l);
        assert(seq![l[0]] =~= Seq::<SrtEntry>::empty().push(l[0]));
    }
}

/// Law: sorting keeps exactly the entries it was given: the sorted run is a
/// permutation of its input.
pub proof fn lemma_sort_entries_permutes(l: Seq<SrtEntry>)
    ensures
        sort_entries(l).to_multiset() =~= l.to_multiset(),
    decreases l.len(),
{
    broadcast use vstd::seq_lib::group_to_multiset_ensures;

    if l.len() > 0 {
        lemma_sort_entries_permutes(l.drop_last());
        lemma_insert_entry_multiset(l.last(), sort_entries(l.drop_last()));
        assert(l.drop_last().push(l.last()) =~= l);
    }
}

/// Inserts an entry into an already episode-ordered vector, stably.
fn insert_entry_vec(e: SrtEntry, out: &mut Vec<SrtEntry>)
    ensures
        final(out)@ == insert_entry(e, old(out)@),
{
    let ghost l = out@;
    let mut p: usize = 0;
    while p < out.len() && !(out[p].episode_number > e.episode_number)
        invariant
            0 <= p <= out@.len(),
            l == out@,
            forall|m: int| 0 <= m < p ==> (#[trigger] l[m]).episode_number <= e.episode_number,
        decreases out@.len() - p,
    {
        p = p + 1;
    }
    proof {
        lemma_insert_entry_at(e, l, p as int);
    }
    out.insert(p, e);
    proof {
        assert(out@ =~= l.take(p as int) + seq![e] + l.skip(p as int));
    }
}

/// Sorts a show's entries by episode number, ascending and stable.
fn sort_entries_vec(l: Vec<SrtEntry>) -> (r: Vec<SrtEntry>)
    ensures
        r@ == sort_entries(l@),
{
    let ghost whole = l@;
    let mut l = l;
    let n0 = l.len();
    proof {
        assert(whole.len() == n0 as nat);
    }
    let mut out: Vec<SrtEntry> = Vec::new();
    let mut i: usize = 0;
    proof {
        assert(whole.take(0) =~= Seq::<SrtEntry>::empty());
        assert(whole.skip(0) =~= whole);
    }
    while l.len() > 0
        invariant
            0 <= i <= whole.len(),
            whole.len() <= usize::MAX,
            l@ == whole.skip(i as int),
            out@ == sort_entries(whole.take(i as int)),
        decreases l@.len(),
    {
        let e = l.remove(0);
        proof {
            assert(e == whole[i as int]);
            assert(whole.skip(i as int).subrange(1, whole.skip(i as int).len() as int) =~= whole.skip(
                i + 1,
            ));
        }
        insert_entry_vec(e, &mut out);
        proof {
            let nxt = whole.take(i + 1);
            assert(nxt.drop_last() =~= whole.take(i as int));
            assert(nxt.last() == whole[i as int]);
        }
        i = i + 1;
    }
    proof {
        assert(whole.skip(i as int).len() == 0);
        assert(i == whole.len());
        assert(whole.take(i as int) =~= whole);
    }
    out
}

/// Groups entries by show name in first-encounter order and sorts each
/// show's entries by episode number, ascending and stable.
pub fn group_entries(entries: Vec<SrtEntry>) -> (r: Vec<ShowGroup>)
    ensures
        r@.len() == group_names(entries@).len(),
        forall|k: int|
            0 <= k < r@.len() ==> (#[trigger] r@[k]).show_name@ == group_names(entries@)[k],
        forall|k: int|
            0 <= k < r@.len() ==> (#[trigger] r@[k]).entries@ == sort_entries(
                entries_for(entries@, group_names(entries@)[k]),
            ),
{
    let ghost all = entries@;
    let mut entries = entries;
    let n0 = entries.len();
    proof {
        assert(all.len() == n0 as nat);
    }
    let mut out: Vec<ShowGroup> = Vec::new();
    let mut i: usize = 0;
    proof {
        assert(all.take(0) =~= Seq::<SrtEntry>::empty());
        assert(all.skip(0) =~= all);
    }
    while entries.len() > 0
        invariant
            0 <= i <= all.len(),
            all.len() <= usize::MAX,
            entries@ == all.skip(i as int),
            out@.len() == group_names(all.take(i as int)).len(),
            forall|k: int|
                0 <= k < out@.len() ==> (#[trigger] out@[k]).show_name@ == group_names(
                    all.take(i as int),
                )[k],
            forall|k: int|
                0 <= k < out@.len() ==> (#[trigger] out@[k]).entries@ == entries_for(
                    all.take(i as int),
                    group_names(all.take(i as int))[k],
                ),
        decreases entries@.len(),
    {
        let e = entries.remove(0);
        proof {
            assert(e == all[i as int]);
            assert(all.skip(i as int).subrange(1, all.skip(i as int).len() as int) =~= all.skip(
                i + 1,
            ));
            let nxt = all.take(i + 1);
            assert(nxt.drop_last() =~= all.take(i as int));
            assert(nxt.last() == all[i as int]);
        }
        let ghost pre = all.take(i as int);
        let ghost names = group_names(pre);
        let mut j: usize = 0;
        while j < out.len() && !out[j].show_name.eq(&e.show_name)
            invariant
                0 <= j <= out@.len(),
                out@.len() == names.len(),
                forall|k: int|
                    0 <= k < out@.len() ==> (#[trigger] out@[k]).show_name@ == names[k],
                forall|m: int| 0 <= m < j ==> #[trigger] names[m] != e.show_name@,
            decreases out@.len() - j,
        {
            proof {
                assert(out@[j as int].show_name@ == names[j as int]);
            }
            j = j + 1;
        }
        if j < out.len() {
            proof {
                assert(out@[j as int].show_name@ == names[j as int]);
                assert(names[j as int] == e.show_name@);
                assert(contains_name(names, e.show_name@));
                assert(group_names(all.take(i + 1)) == names);
            }
            proof {
                lemma_group_names_distinct(pre);
            }
            let ghost outpre = out@;
            let mut g = out.remove(j);
            proof {
                assert(g == outpre[j as int]);
            }
            g.entries.push(e);
            let ghost gnew = g;
            out.insert(j, g);
            proof {
                assert(out@ =~= outpre.update(j as int, gnew));
                assert(gnew.show_name@ == outpre[j as int].show_name@);
                assert(gnew.entries@ == outpre[j as int].entries@.push(e));
                assert forall|k: int| 0 <= k < out@.len() implies (#[trigger] out@[k]).show_name@
                    == names[k] && out@[k].entries@ == entries_for(
                    all.take(i + 1),
                    names[k],
                ) by {
                    if k != j {
                        assert(out@[k] == outpre[k]);
                        assert(names[k] != names[j as int]);
                        assert(entries_for(all.take(i + 1), names[k]) == entries_for(
                            pre,
                            names[k],
                        ));
                    } else {
                        assert(out@[k] == gnew);
                        assert(entries_for(all.take(i + 1), names[k]) == entries_for(
                            pre,
                            names[k],
                        ).push(e));
                    }
                }
            }
        } else {
            proof {
                assert forall|k: int| 0 <= k < names.len() implies #[trigger] names[k]
                    != e.show_name@ by {}
                assert(!contains_name(names, e.show_name@));
                assert(group_names(all.take(i + 1)) == names.push(e.show_name@));
                lemma_absent_name_no_entries(pre, e.show_name@);
            }
            let name = e.show_name.clone();
            let mut v: Vec<SrtEntry> = Vec::new();
            v.push(e);
            out.push(ShowGroup { show_name: name, entries: v });
            proof {
                assert forall|k: int| 0 <= k < out@.len() implies (#[trigger] out@[k]).show_name@
                    == group_names(all.take(i + 1))[k] && out@[k].entries@ == entries_for(
                    all.take(i + 1),
                    group_names(all.take(i + 1))[k],
                ) by {
                    let nn = group_names(all.take(i + 1));
                    if k < out@.len() - 1 {
                        assert(nn[k] == names[k]);
                        assert(entries_for(all.take(i + 1), nn[k]) == if nn[k] == e.show_name@ {
                            entries_for(pre, nn[k]).push(e)
                        } else {
                            entries_for(pre, nn[k])
                        });
                        assert(nn[k] != e.show_name@);
                    } else {
                        assert(nn[k] == e.show_name@);
                        assert(entries_for(all.take(i + 1), e.show_name@) == entries_for(
                            pre,
                            e.show_name@,
                        ).push(e));
                        assert(out@[k].entries@ =~= Seq::<SrtEntry>::empty().push(e));
                    }
                }
            }
        }
        i = i + 1;
    }
    proof {
        assert(all.take(i as int) =~= all);
    }
    let ghost ungrouped = out@;
    let mut out = out;
    let n1 = out.len();
    proof {
        assert(ungrouped.len() == n1 as nat);
    }
    let mut sorted: Vec<ShowGroup> = Vec::new();
    let mut k: usize = 0;
    while out.len() > 0
        invariant
            0 <= k <= ungrouped.len(),
            ungrouped.len() <= usize::MAX,
            out@ == ungrouped.skip(k as int),
            sorted@.len() == k,
            forall|m: int|
                0 <= m < k ==> (#[trigger] sorted@[m]).show_name@ == ungrouped[m].show_name@
                    && sorted@[m].entries@ == sort_entries(ungrouped[m].entries@),
        decreases out@.len(),
    {
        let g = out.remove(0);
        proof {
            assert(g == ungrouped[k as int]);
            assert(ungrouped.skip(k as int).subrange(
                1,
                ungrouped.skip(k as int).len() as int,
            ) =~= ungrouped.skip(k + 1));
        }
        let ShowGroup { show_name, entries: ge } = g;
        let ge2 = sort_entries_vec(ge);
        sorted.push(ShowGroup { show_name, entries: ge2 });
        k = k + 1;
    }
    sorted
}

// ---------------------------------------------------------------------------
// Flattening groups into the three ordered batches
// ---------------------------------------------------------------------------

/// All entries of all groups, in group order.
pub open spec fn entries_cat(groups: Seq<ShowGroup>) -> Seq<SrtEntry>
    decreases groups.len(),
{
    if groups.len() == 0 {
        Seq::empty()
    } else {
        entries_cat(groups.drop_last()) + groups.last().entries@
    }
}

/// Number of entries in the first `k` groups.
pub open spec fn ep_count(groups: Seq<ShowGroup>, k: int) -> int
    decreases k,
{
    if k <= 0 {
        0
    } else {
        ep_count(groups, k - 1) + groups[k - 1].entries@.len()
    }
}

/// Number of subtitles in the first `k` entries.
pub open spec fn tr_count(es: Seq<SrtEntry>, k: int) -> int
    decreases k,
{
    if k <= 0 {
        0
    } else {
        tr_count(es, k - 1) + es[k - 1].content.0@.len()
    }
}

proof fn lemma_ep_count_cat(groups: Seq<ShowGroup>, k: int)
    requires
        0 <= k <= groups.len(),
    ensures
        ep_count(groups, k) == entries_cat(groups.take(k)).len(),
    decreases k,
{
    if k > 0 {
        lemma_ep_count_cat(groups, k - 1);
        let t = groups.take(k);
        assert(t.drop_last() =~= groups.take(k - 1));
        assert(t.last() == groups[k - 1]);
    }
}

proof fn lemma_ep_count_mono(groups: Seq<ShowGroup>, a: int, b: int)
    requires
        0 <= a <= b,
    ensures
        ep_count(groups, a) <= ep_count(groups, b),
    decreases b,
{
    if a < b {
        lemma_ep_count_mono(groups, a, b - 1);
    }
}

proof fn lemma_tr_count_mono(es: Seq<SrtEntry>, a: int, b: int)
    requires
        0 <= a <= b,
    ensures
        tr_count(es, a) <= tr_count(es, b),
    decreases b,
{
    if a < b {
        lemma_tr_count_mono(es, a, b - 1);
    }
}

proof fn lemma_ep_count_take(groups: Seq<ShowGroup>, k: int, m: int)
    requires
        0 <= m <= k <= groups.len(),
    ensures
        ep_count(groups.take(k), m) == ep_count(groups, m),
    decreases m,
{
    if m > 0 {
        lemma_ep_count_take(groups, k, m - 1);
        assert(groups.take(k)[m - 1] == groups[m - 1]);
    }
}

/// The entry `j` of group `k` sits at global position `ep_count(groups, k) + j`.
proof fn lemma_entries_cat_index(groups: Seq<ShowGroup>, k: int, j: int)
    requires
        0 <= k < groups.len(),
        0 <= j < groups[k].entries@.len(),
    ensures
        0 <= ep_count(groups, k) + j < entries_cat(groups).len(),
        entries_cat(groups)[ep_count(groups, k) + j] == groups[k].entries@[j],
    decreases groups.len(),
{
    let a = entries_cat(groups.drop_last());
    lemma_ep_count_cat(groups, groups.len() as int);
    assert(groups.take(groups.len() as int) =~= groups);
    lemma_ep_count_mono(groups, 0, k);
    if k == groups.len() - 1 {
        lemma_ep_count_cat(groups, k);
        assert(groups.take(k) =~= groups.drop_last().take(k));
        lemma_ep_count_take(groups, k, k);
        let dl = groups.drop_last();
        lemma_ep_count_cat_eq(groups, dl, k);
        assert(entries_cat(groups) == a + groups.last().entries@);
    } else {
        let dl = groups.drop_last();
        lemma_ep_count_cat_eq(groups, dl, k + 1);
        lemma_ep_count_cat_eq(groups, dl, k);
        lemma_entries_cat_index(dl, k, j);
        assert(dl[k] == groups[k]);
        lemma_ep_count_mono(dl, k + 1, dl.len() as int);
        lemma_ep_count_cat(dl, dl.len() as int);
        assert(dl.take(dl.len() as int) =~= dl);
        assert(ep_count(dl, k) + j < ep_count(dl, k + 1));
        assert(entries_cat(groups) == a + groups.last().entries@);
        assert(entries_cat(groups)[ep_count(dl, k) + j] == a[ep_count(dl, k) + j]);
    }
}

/// Counting entries looks only at the first `k` groups.
proof fn lemma_ep_count_cat_eq(g1: Seq<ShowGroup>, g2: Seq<ShowGroup>, k: int)
    requires
        0 <= k <= g1.len(),
        k <= g2.len(),
        forall|m: int| 0 <= m < k ==> g1[m] == g2[m],
    ensures
        ep_count(g1, k) == ep_count(g2, k),
    decreases k,
{
    if k > 0 {
        lemma_ep_count_cat_eq(g1, g2, k - 1);
    }
}

/// The three batches of one ingestion run, in insertion order: shows, then
/// episodes, then transcript lines.
pub struct Batches {
    pub shows: Vec<(String, String)>,
    pub episodes: Vec<(i64, String, i32, i32)>,
    pub transcripts: Vec<(i64, i32, String, String, String)>,
}

/// Flattens grouped entries into the three ordered batches, assigning
/// identifiers by position: show `k` gets id `k + 1`, the globally `i`-th
/// entry becomes episode `i + 1` in season 1, and its `j`-th subtitle becomes
/// the transcript line with `line_id` `j + 1` and formatted timestamps.
pub fn prepare_batches(groups: &Vec<ShowGroup>, show_type: &str) -> (r: Batches)
    requires
        groups@.len() < i64::MAX,
        ep_count(groups@, groups@.len() as int) < i64::MAX,
        forall|i: int|
            0 <= i < entries_cat(groups@).len() ==> (#[trigger] entries_cat(
                groups@,
            )[i]).content.0@.len() < i32::MAX,
    ensures
        r.shows@.len() == groups@.len(),
        forall|k: int|
            0 <= k < groups@.len() ==> (#[trigger] r.shows@[k]).0@ == groups@[k].show_name@
                && r.shows@[k].1@ == show_type@,
        r.episodes@.len() == ep_count(groups@, groups@.len() as int),
        forall|k: int, j: int|
            0 <= k < groups@.len() && 0 <= j < groups@[k].entries@.len() ==> {
                let row = #[trigger] r.episodes@[ep_count(groups@, k) + j];
                &&& row.0 == k + 1
                &&& row.1@ == groups@[k].entries@[j].episode_name@
                &&& row.2 == 1
                &&& row.3 == groups@[k].entries@[j].episode_number
            },
        r.transcripts@.len() == tr_count(entries_cat(groups@), entries_cat(groups@).len() as int),
        forall|i: int, j: int|
            #![trigger r.transcripts@[tr_count(entries_cat(groups@), i) + j]]
            0 <= i < entries_cat(groups@).len() && 0 <= j < entries_cat(
                groups@,
            )[i].content.0@.len() ==> {
                let sub = entries_cat(groups@)[i].content.0@[j];
                let row = r.transcripts@[tr_count(entries_cat(groups@), i) + j];
                &&& row.0 == i + 1
                &&& row.1 == j + 1
                &&& row.2@ == ts_format(sub.start_time)
                &&& row.3@ == ts_format(sub.end_time)
                &&& row.4@ == sub.text@
            },
{
    let ghost es = entries_cat(groups@);
    let mut shows: Vec<(String, String)> = Vec::new();
    let mut episodes: Vec<(i64, String, i32, i32)> = Vec::new();
    let mut transcripts: Vec<(i64, i32, String, String, String)> = Vec::new();
    let mut gk: usize = 0;
    proof {
        lemma_ep_count_cat(groups@, groups@.len() as int);
        assert(groups@.take(groups@.len() as int) =~= groups@);
    }
    while gk < groups.len()
        invariant
            0 <= gk <= groups@.len(),
            groups@.len() < i64::MAX,
            ep_count(groups@, groups@.len() as int) < i64::MAX,
            es == entries_cat(groups@),
            es.len() == ep_count(groups@, groups@.len() as int),
            forall|i: int|
                0 <= i < es.len() ==> (#[trigger] es[i]).content.0@.len() < i32::MAX,
            shows@.len() == gk,
            forall|k: int|
                0 <= k < gk ==> (#[trigger] shows@[k]).0@ == groups@[k].show_name@ && shows@[k].1@
                    == show_type@,
            episodes@.len() == ep_count(groups@, gk as int),
            forall|k: int, j: int|
                0 <= k < gk && 0 <= j < groups@[k].entries@.len() ==> {
                    let row = #[trigger] episodes@[ep_count(groups@, k) + j];
                    &&& row.0 == k + 1
                    &&& row.1@ == groups@[k].entries@[j].episode_name@
                    &&& row.2 == 1
                    &&& row.3 == groups@[k].entries@[j].episode_number
                },
            transcripts@.len() == tr_count(es, episodes@.len() as int),
            forall|i: int, j: int|
                0 <= i < episodes@.len() && 0 <= j < es[i].content.0@.len() ==> {
                    let sub = es[i].content.0@[j];
                    let row = #[trigger] transcripts@[tr_count(es, i) + j];
                    &&& row.0 == i + 1
                    &&& row.1 == j + 1
                    &&& row.2@ == ts_format(sub.start_time)
                    &&& row.3@ == ts_format(sub.end_time)
                    &&& row.4@ == sub.text@
                },
        decreases groups@.len() - gk,
    {
        let g = &groups[gk];
        shows.push((g.show_name.clone(), String::from_str(show_type)));
        let show_id = (gk as i64) + 1;
        let mut j: usize = 0;
        proof {
            lemma_ep_count_mono(groups@, gk + 1, groups@.len() as int);
        }
        while j < g.entries.len()
            invariant
                0 <= gk < groups@.len(),
                g == groups@[gk as int],
                0 <= j <= g.entries@.len(),
                show_id == gk + 1,
                groups@.len() < i64::MAX,
                ep_count(groups@, groups@.len() as int) < i64::MAX,
                ep_count(groups@, gk + 1) == ep_count(groups@, gk as int)
                    + groups@[gk as int].entries@.len(),
                ep_count(groups@, gk + 1) <= ep_count(groups@, groups@.len() as int),
                es == entries_cat(groups@),
                es.len() == ep_count(groups@, groups@.len() as int),
                forall|i: int|
                    0 <= i < es.len() ==> (#[trigger] es[i]).content.0@.len() < i32::MAX,
                episodes@.len() == ep_count(groups@, gk as int) + j,
                forall|k: int, j2: int|
                    0 <= k < gk && 0 <= j2 < groups@[k].entries@.len() ==> {
                        let row = #[trigger] episodes@[ep_count(groups@, k) + j2];
                        &&& row.0 == k + 1
                        &&& row.1@ == groups@[k].entries@[j2].episode_name@
                        &&& row.2 == 1
                        &&& row.3 == groups@[k].entries@[j2].episode_number
                    },
                forall|j2: int|
                    0 <= j2 < j ==> {
                        let row = #[trigger] episodes@[ep_count(groups@, gk as int) + j2];
                        &&& row.0 == gk + 1
                        &&& row.1@ == groups@[gk as int].entries@[j2].episode_name@
                        &&& row.2 == 1
                        &&& row.3 == groups@[gk as int].entries@[j2].episode_number
                    },
                transcripts@.len() == tr_count(es, episodes@.len() as int),
                forall|i: int, j2: int|
                    0 <= i < episodes@.len() && 0 <= j2 < es[i].content.0@.len() ==> {
                        let sub = es[i].content.0@[j2];
                        let row = #[trigger] transcripts@[tr_count(es, i) + j2];
                        &&& row.0 == i + 1
                        &&& row.1 == j2 + 1
                        &&& row.2@ == ts_format(sub.start_time)
                        &&& row.3@ == ts_format(sub.end_time)
                        &&& row.4@ == sub.text@
                    },
            decreases g.entries@.len() - j,
        {
            let e = &g.entries[j];
            proof {
                lemma_entries_cat_index(groups@, gk as int, j as int);
                lemma_ep_count_mono(groups@, gk as int, gk + 1);
            }
            let ghost eidx = ep_count(groups@, gk as int) + j;
            proof {
                assert(es[eidx] == groups@[gk as int].entries@[j as int]);
            }
            let episode_id = (episodes.len() as i64) + 1;
            let ghost eppre = episodes@;
            episodes.push((show_id, e.episode_name.clone(), 1i32, e.episode_number));
            proof {
                assert forall|k: int, j2: int|
                    0 <= k < gk && 0 <= j2 < groups@[k].entries@.len() implies {
                    let row = #[trigger] episodes@[ep_count(groups@, k) + j2];
                    &&& row.0 == k + 1
                    &&& row.1@ == groups@[k].entries@[j2].episode_name@
                    &&& row.2 == 1
                    &&& row.3 == groups@[k].entries@[j2].episode_number
                } by {
                    lemma_ep_count_mono(groups@, k + 1, gk as int);
                    lemma_ep_count_mono(groups@, 0, k);
                    assert(ep_count(groups@, k) + j2 < eppre.len());
                    assert(episodes@[ep_count(groups@, k) + j2] == eppre[ep_count(groups@, k)
                        + j2]);
                }
                assert forall|j2: int| 0 <= j2 < j + 1 implies {
                    let row = #[trigger] episodes@[ep_count(groups@, gk as int) + j2];
                    &&& row.0 == gk + 1
                    &&& row.1@ == groups@[gk as int].entries@[j2].episode_name@
                    &&& row.2 == 1
                    &&& row.3 == groups@[gk as int].entries@[j2].episode_number
                } by {
                    lemma_ep_count_mono(groups@, 0, gk as int);
                    if j2 < j {
                        assert(episodes@[ep_count(groups@, gk as int) + j2] == eppre[ep_count(
                            groups@,
                            gk as int,
                        ) + j2]);
                    } else {
                        assert(ep_count(groups@, gk as int) + j2 == eppre.len());
                    }
                }
            }
            let mut idx: usize = 0;
            while idx < e.content.0.len()
                invariant
                    0 <= gk < groups@.len(),
                    g == groups@[gk as int],
                    0 <= j < g.entries@.len(),
                    e == groups@[gk as int].entries@[j as int],
                    0 <= idx <= e.content.0@.len(),
                    es == entries_cat(groups@),
                    0 <= eidx < es.len(),
                    es[eidx] == groups@[gk as int].entries@[j as int],
                    e.content.0@.len() < i32::MAX,
                    episode_id == eidx + 1,
                    episodes@.len() == eidx + 1,
                    transcripts@.len() == tr_count(es, eidx) + idx,
                    forall|i: int, j2: int|
                        0 <= i < eidx && 0 <= j2 < es[i].content.0@.len() ==> {
                            let sub = es[i].content.0@[j2];
                            let row = #[trigger] transcripts@[tr_count(es, i) + j2];
                            &&& row.0 == i + 1
                            &&& row.1 == j2 + 1
                            &&& row.2@ == ts_format(sub.start_time)
                            &&& row.3@ == ts_format(sub.end_time)
                            &&& row.4@ == sub.text@
                        },
                    forall|j2: int|
                        0 <= j2 < idx ==> {
                            let sub = es[eidx].content.0@[j2];
                            let row = #[trigger] transcripts@[tr_count(es, eidx) + j2];
                            &&& row.0 == eidx + 1
                            &&& row.1 == j2 + 1
                            &&& row.2@ == ts_format(sub.start_time)
                            &&& row.3@ == ts_format(sub.end_time)
                            &&& row.4@ == sub.text@
                        },
                decreases e.content.0@.len() - idx,
            {
                let sub = &e.content.0[idx];
                let ghost trpre = transcripts@;
                transcripts.push(
                    (
                        episode_id,
                        (idx as i32) + 1,
                        sub.start_time.to_string(),
                        sub.end_time.to_string(),
                        sub.text.clone(),
                    ),
                );
                proof {
                    assert forall|i: int, j2: int|
                        0 <= i < eidx && 0 <= j2 < es[i].content.0@.len() implies {
                        let sub2 = es[i].content.0@[j2];
                        let row = #[trigger] transcripts@[tr_count(es, i) + j2];
                        &&& row.0 == i + 1
                        &&& row.1 == j2 + 1
                        &&& row.2@ == ts_format(sub2.start_time)
                        &&& row.3@ == ts_format(sub2.end_time)
                        &&& row.4@ == sub2.text@
                    } by {
                        lemma_tr_count_mono(es, i + 1, eidx);
                        lemma_tr_count_mono(es, 0, i);
                        assert(tr_count(es, i) + j2 < trpre.len());
                        assert(transcripts@[tr_count(es, i) + j2] == trpre[tr_count(es, i) + j2]);
                    }
                    assert forall|j2: int| 0 <= j2 < idx + 1 implies {
                        let sub2 = es[eidx].content.0@[j2];
                        let row = #[trigger] transcripts@[tr_count(es, eidx) + j2];
                        &&& row.0 == eidx + 1
                        &&& row.1 == j2 + 1
                        &&& row.2@ == ts_format(sub2.start_time)
                        &&& row.3@ == ts_format(sub2.end_time)
                        &&& row.4@ == sub2.text@
                    } by {
                        lemma_tr_count_mono(es, 0, eidx);
                        if j2 < idx {
                            assert(transcripts@[tr_count(es, eidx) + j2] == trpre[tr_count(
                                es,
                                eidx,
                            ) + j2]);
                        } else {
                            assert(tr_count(es, eidx) + j2 == trpre.len());
                        }
                    }
                }
                idx = idx + 1;
            }
            proof {
                assert(tr_count(es, eidx + 1) == tr_count(es, eidx) + es[eidx].content.0@.len());
                assert forall|i: int, j2: int|
                    0 <= i < eidx + 1 && 0 <= j2 < es[i].content.0@.len() implies {
                    let sub2 = es[i].content.0@[j2];
                    let row = #[trigger] transcripts@[tr_count(es, i) + j2];
                    &&& row.0 == i + 1
                    &&& row.1 == j2 + 1
                    &&& row.2@ == ts_format(sub2.start_time)
                    &&& row.3@ == ts_format(sub2.end_time)
                    &&& row.4@ == sub2.text@
                } by {}
            }
            j = j + 1;
        }
        proof {
            assert(episodes@.len() == ep_count(groups@, gk + 1));
            assert forall|k: int, j2: int|
                0 <= k < gk + 1 && 0 <= j2 < groups@[k].entries@.len() implies {
                let row = #[trigger] episodes@[ep_count(groups@, k) + j2];
                &&& row.0 == k + 1
                &&& row.1@ == groups@[k].entries@[j2].episode_name@
                &&& row.2 == 1
                &&& row.3 == groups@[k].entries@[j2].episode_number
            } by {}
        }
        gk = gk + 1;
    }
    proof {
        assert(tr_count(es, episodes@.len() as int) == tr_count(es, es.len() as int));
    }
    Batches { shows, episodes, transcripts }
}

} // verus!
