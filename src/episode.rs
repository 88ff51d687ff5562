//! Episodes grouped by name: for the rows of the chosen series, the
//! abstracts of the newest episodes of each name.
//!
//! Dates compare as strings, year first, then month, then episode number,
//! so that month "9" comes after month "10".
use vstd::prelude::*;
use core::cmp::Ordering;
use crate::text::{compare_text, lemma_text_order, text_lt, text_order};

verus! {

/// How many abstracts are kept for each episode name.
pub const WINDOW: usize = 3;

/// One row of the episode table.
pub struct EpisodeRecord {
    pub episode_name: String,
    pub year: String,
    pub month: String,
    pub episode_num: String,
    pub abstract_text: String,
    pub series_id: i64,
}

/// The abstracts kept for one episode name, newest first.
pub struct EpisodeGroup {
    pub episode_name: String,
    pub abstracts: Vec<String>,
}

/// A dated abstract of a row.
pub struct EpisodeEntry {
    pub year: String,
    pub month: String,
    pub episode_num: String,
    pub abstract_text: String,
}

/// The entries of one episode name, newest first.
pub struct EpisodeBucket {
    pub name: String,
    pub entries: Vec<EpisodeEntry>,
}

/// Year, month, episode number and abstract.
pub type EntryView = (Seq<char>, Seq<char>, Seq<char>, Seq<char>);

impl View for EpisodeEntry {
    type V = EntryView;

    open spec fn view(&self) -> EntryView {
        (self.year@, self.month@, self.episode_num@, self.abstract_text@)
    }
}

pub open spec fn entries_view(v: Seq<EpisodeEntry>) -> Seq<EntryView> {
    v.map_values(|x: EpisodeEntry| x@)
}

pub open spec fn strings_view(v: Seq<String>) -> Seq<Seq<char>> {
    v.map_values(|x: String| x@)
}

pub open spec fn row_name(r: EpisodeRecord) -> Seq<char> {
    r.episode_name@
}

pub open spec fn row_entry(r: EpisodeRecord) -> EntryView {
    (r.year@, r.month@, r.episode_num@, r.abstract_text@)
}

/// The rows whose series is in `ids`, in scan order.
pub open spec fn selected_rows(ids: Seq<i64>, rows: Seq<EpisodeRecord>) -> Seq<EpisodeRecord>
    decreases rows.len(),
{
    if rows.len() == 0 {
        Seq::empty()
    } else {
        let prev = selected_rows(ids, rows.drop_last());
        if ids.contains(rows.last().series_id) {
            prev.push(rows.last())
        } else {
            prev
        }
    }
}

/// The order of two entries by date: year, then month, then episode
/// number, each compared as a string. The abstract takes no part.
pub open spec fn entry_order(a: EntryView, b: EntryView) -> Ordering {
    if text_order(a.0, b.0) != Ordering::Equal {
        text_order(a.0, b.0)
    } else if text_order(a.1, b.1) != Ordering::Equal {
        text_order(a.1, b.1)
    } else {
        text_order(a.2, b.2)
    }
}

pub open spec fn entry_lt(a: EntryView, b: EntryView) -> bool {
    entry_order(a, b) == Ordering::Less
}

pub open spec fn entry_le(a: EntryView, b: EntryView) -> bool {
    entry_order(a, b) != Ordering::Greater
}

/// The entries of the rows named `k`, in scan order.
pub open spec fn entries_named(rs: Seq<EpisodeRecord>, k: Seq<char>) -> Seq<EntryView>
    decreases rs.len(),
{
    if rs.len() == 0 {
        Seq::empty()
    } else {
        let prev = entries_named(rs.drop_last(), k);
        if row_name(rs.last()) == k {
            prev.push(row_entry(rs.last()))
        } else {
            prev
        }
    }
}

/// The first position from `j` on whose entry is older than `x`.
pub open spec fn newest_insert_pos(s: Seq<EntryView>, x: EntryView, j: int) -> int
    decreases s.len() - j,
{
    if j < 0 || j >= s.len() {
        s.len() as int
    } else if entry_lt(s[j], x) {
        j
    } else {
        newest_insert_pos(s, x, j + 1)
    }
}

/// Stable sort newest first: each entry goes after every earlier entry
/// that is not older than it.
pub open spec fn sort_newest_first(s: Seq<EntryView>) -> Seq<EntryView>
    decreases s.len(),
{
    if s.len() == 0 {
        s
    } else {
        let t = sort_newest_first(s.drop_last());
        t.insert(newest_insert_pos(t, s.last(), 0), s.last())
    }
}

pub open spec fn newest_first(s: Seq<EntryView>) -> bool {
    forall|i: int, j: int| 0 <= i < j < s.len() ==> entry_le(#[trigger] s[j], #[trigger] s[i])
}

/// The abstracts of the first `WINDOW` entries.
pub open spec fn window_abstracts(s: Seq<EntryView>) -> Seq<Seq<char>> {
    s.take(if s.len() < WINDOW { s.len() as int } else { WINDOW as int }).map_values(
        |e: EntryView| e.3,
    )
}

/// The abstracts kept for the name `k`: those of the newest `WINDOW`
/// entries of the rows named `k`.
pub open spec fn kept_abstracts(rows: Seq<EpisodeRecord>, k: Seq<char>) -> Seq<Seq<char>> {
    window_abstracts(sort_newest_first(entries_named(rows, k)))
}

/// The groups' episode names are strictly ascending.
pub open spec fn group_names_ascending(groups: Seq<EpisodeGroup>) -> bool {
    forall|i: int, j: int|
        0 <= i < j < groups.len() ==> text_lt(#[trigger] groups[i].episode_name@, #[trigger] groups[j].episode_name@)
}

/// Each group holds the abstracts kept for its name.
pub open spec fn groups_kept(sel: Seq<EpisodeRecord>, groups: Seq<EpisodeGroup>) -> bool {
    forall|i: int|
        0 <= i < groups.len() ==> strings_view(#[trigger] groups[i].abstracts@) == kept_abstracts(sel, groups[i].episode_name@)
}

/// The episode names of the rows, in order.
pub open spec fn row_names(rs: Seq<EpisodeRecord>) -> Seq<Seq<char>> {
    rs.map_values(|r: EpisodeRecord| r.episode_name@)
}

/// The names of the groups, in order.
pub open spec fn group_names(groups: Seq<EpisodeGroup>) -> Seq<Seq<char>> {
    groups.map_values(|g: EpisodeGroup| g.episode_name@)
}

/// Each group's name is the name of some row.
pub open spec fn groups_named(sel: Seq<EpisodeRecord>, groups: Seq<EpisodeGroup>) -> bool {
    forall|i: int| 0 <= i < groups.len() ==> row_names(sel).contains(#[trigger] groups[i].episode_name@)
}

/// Each row's name is the name of some group.
pub open spec fn rows_grouped(sel: Seq<EpisodeRecord>, groups: Seq<EpisodeGroup>) -> bool {
    forall|j: int| 0 <= j < sel.len() ==> group_names(groups).contains(#[trigger] sel[j].episode_name@)
}

/// `groups` is the episode view of the rows of the series in `ids`: one
/// group per episode name among those rows, in ascending name order, each
/// holding the abstracts of that name's newest `WINDOW` entries, newest
/// first, rows of equal date in scan order.
#[verifier::opaque]
pub open spec fn is_episode_view(ids: Seq<i64>, rows: Seq<EpisodeRecord>, groups: Seq<EpisodeGroup>) -> bool {
    &&& group_names_ascending(groups)
    &&& groups_kept(selected_rows(ids, rows), groups)
    &&& groups_named(selected_rows(ids, rows), groups)
    &&& rows_grouped(selected_rows(ids, rows), groups)
}

/// The order on entries is a total preorder.
pub proof fn lemma_entry_order(a: EntryView, b: EntryView, c: EntryView)
    ensures
        entry_le(a, b) || entry_le(b, a),
        entry_lt(a, b) <==> !entry_le(b, a),
        entry_le(a, b) && entry_le(b, c) ==> entry_le(a, c),
        entry_le(a, b) && entry_lt(b, c) ==> entry_lt(a, c),
        entry_lt(a, b) && entry_le(b, c) ==> entry_lt(a, c),
{
    lemma_text_order(a.0, b.0, c.0);
    lemma_text_order(b.0, a.0, c.0);
    lemma_text_order(a.0, c.0, b.0);
    lemma_text_order(a.1, b.1, c.1);
    lemma_text_order(b.1, a.1, c.1);
    lemma_text_order(a.1, c.1, b.1);
    lemma_text_order(a.2, b.2, c.2);
    lemma_text_order(b.2, a.2, c.2);
    lemma_text_order(a.2, c.2, b.2);
}

proof fn lemma_newest_insert_pos(s: Seq<EntryView>, x: EntryView, j: int)
    requires
        0 <= j <= s.len(),
    ensures
        j <= newest_insert_pos(s, x, j) <= s.len(),
        forall|i: int| j <= i < newest_insert_pos(s, x, j) ==> !entry_lt(#[trigger] s[i], x),
        newest_insert_pos(s, x, j) < s.len() ==> entry_lt(s[newest_insert_pos(s, x, j)], x),
    decreases s.len() - j,
{
    if j < s.len() && !entry_lt(s[j], x) {
        lemma_newest_insert_pos(s, x, j + 1);
    }
}

/// Inserting at the stable position keeps a newest-first sequence so.
proof fn lemma_insert_keeps_newest_first(t: Seq<EntryView>, x: EntryView)
    requires
        newest_first(t),
    ensures
        newest_first(t.insert(newest_insert_pos(t, x, 0), x)),
{
    let p = newest_insert_pos(t, x, 0);
    lemma_newest_insert_pos(t, x, 0);
    let u = t.insert(p, x);
    assert forall|i: int, j: int| 0 <= i < j < u.len() implies entry_le(#[trigger] u[j], #[trigger] u[i]) by {
        if i < p && j == p {
            lemma_entry_order(t[i], x, x);
        } else if i == p && j > p {
            lemma_entry_order(t[j - 1], t[p], x);
        }
    }
}

/// The stable sort puts newer entries first.
pub proof fn lemma_sort_newest_first_ordered(s: Seq<EntryView>)
    ensures
        newest_first(sort_newest_first(s)),
    decreases s.len(),
{
    if s.len() > 0 {
        lemma_sort_newest_first_ordered(s.drop_last());
        lemma_insert_keeps_newest_first(sort_newest_first(s.drop_last()), s.last());
    }
}

/// The stable sort keeps exactly the entries it was given.
pub proof fn lemma_sort_newest_first_contains(s: Seq<EntryView>)
    ensures
        sort_newest_first(s).len() == s.len(),
        forall|x: EntryView| sort_newest_first(s).contains(x) <==> s.contains(x),
    decreases s.len(),
{
    if s.len() > 0 {
        let t = sort_newest_first(s.drop_last());
        lemma_sort_newest_first_contains(s.drop_last());
        lemma_newest_insert_pos(t, s.last(), 0);
        let p = newest_insert_pos(t, s.last(), 0);
        t.insert_ensures(p, s.last());
        assert forall|x: EntryView| sort_newest_first(s).contains(x) <==> s.contains(x) by {
            if s.contains(x) {
                if x == s.last() {
                    assert(sort_newest_first(s)[p] == x);
                } else {
                    let k = choose|k: int| 0 <= k < s.len() && s[k] == x;
                    assert(k < s.len() - 1);
                    assert(s.drop_last()[k] == x);
                    assert(s.drop_last().contains(x));
                    let m = choose|m: int| 0 <= m < t.len() && t[m] == x;
                    if m < p {
                        assert(sort_newest_first(s)[m] == x);
                    } else {
                        assert(sort_newest_first(s)[m + 1] == x);
                    }
                }
            }
            if sort_newest_first(s).contains(x) {
                let m = choose|m: int| 0 <= m < sort_newest_first(s).len() && sort_newest_first(s)[m] == x;
                if m == p {
                    assert(s[s.len() - 1] == x);
                } else {
                    if m < p {
                        assert(t[m] == x);
                    } else {
                        assert(t[m - 1] == x);
                    }
                    assert(t.contains(x));
                    assert(s.drop_last().contains(x));
                    let k = choose|k: int| 0 <= k < s.drop_last().len() && s.drop_last()[k] == x;
                    assert(s[k] == x);
                }
            }
        }
    }
}

/// Entries of one and the same date keep their scan order.
pub proof fn lemma_equal_dates_keep_scan_order(t: Seq<EntryView>)
    requires
        forall|i: int, j: int|
            0 <= i < t.len() && 0 <= j < t.len() ==> entry_order(#[trigger] t[i], #[trigger] t[j])
                == Ordering::Equal,
    ensures
        sort_newest_first(t) == t,
    decreases t.len(),
{
    if t.len() > 0 {
        let u = t.drop_last();
        assert forall|i: int, j: int|
            0 <= i < u.len() && 0 <= j < u.len() implies entry_order(#[trigger] u[i], #[trigger] u[j])
                == Ordering::Equal by {
            assert(u[i] == t[i] && u[j] == t[j]);
        }
        lemma_equal_dates_keep_scan_order(u);
        lemma_newest_insert_pos(u, t.last(), 0);
        let p = newest_insert_pos(u, t.last(), 0);
        if p < u.len() {
            assert(entry_order(t[p], t[t.len() - 1]) == Ordering::Equal);
        }
        assert(u.insert(u.len() as int, t.last()) =~= t);
    }
}

/// The date order of two entries.
fn compare_entries(a: &EpisodeEntry, b: &EpisodeEntry) -> (r: Ordering)
    ensures
        r == entry_order(a@, b@),
{
    let y = compare_text(&a.year, &b.year);
    if !matches!(y, Ordering::Equal) {
        return y;
    }
    let m = compare_text(&a.month, &b.month);
    if !matches!(m, Ordering::Equal) {
        return m;
    }
    compare_text(&a.episode_num, &b.episode_num)
}

/// Inserts `entry` after every entry that is not older than it.
fn insert_newest_first(entries: &mut Vec<EpisodeEntry>, entry: EpisodeEntry)
    ensures
        entries_view(final(entries)@) == entries_view(old(entries)@).insert(
            newest_insert_pos(entries_view(old(entries)@), entry@, 0),
            entry@,
        ),
{
    let ghost s = entries_view(entries@);
    let mut j: usize = 0;
    while j < entries.len() && !matches!(compare_entries(&entries[j], &entry), Ordering::Less)
        invariant
            s == entries_view(entries@),
            j <= entries.len(),
            newest_insert_pos(s, entry@, 0) == newest_insert_pos(s, entry@, j as int),
        decreases entries.len() - j,
    {
        j = j + 1;
    }
    entries.insert(j, entry);
    assert(entries_view(entries@) =~= s.insert(j as int, entry@));
}

/// Whether `ids` holds `id`.
fn holds_id(ids: &Vec<i64>, id: i64) -> (r: bool)
    ensures
        r == ids@.contains(id),
{
    let mut i: usize = 0;
    while i < ids.len()
        invariant
            i <= ids.len(),
            forall|k: int| 0 <= k < i ==> ids@[k] != id,
        decreases ids.len() - i,
    {
        if ids[i] == id {
            return true;
        }
        i = i + 1;
    }
    false
}

/// The buckets' episode names are strictly ascending.
pub open spec fn names_ascending(buckets: Seq<EpisodeBucket>) -> bool {
    forall|i: int, j: int|
        0 <= i < j < buckets.len() ==> text_lt(#[trigger] buckets[i].name@, #[trigger] buckets[j].name@)
}

/// Each bucket holds, newest first, the entries of its name's rows.
pub open spec fn buckets_exact(records: Seq<EpisodeRecord>, buckets: Seq<EpisodeBucket>) -> bool {
    forall|i: int|
        0 <= i < buckets.len() ==> entries_view(#[trigger] buckets[i].entries@) == sort_newest_first(
            entries_named(records, buckets[i].name@),
        )
}

/// Each bucket's name is the name of some row.
pub open spec fn buckets_occur(records: Seq<EpisodeRecord>, buckets: Seq<EpisodeBucket>) -> bool {
    forall|i: int|
        0 <= i < buckets.len() ==> exists|j: int|
            0 <= j < records.len() && row_name(#[trigger] records[j]) == (#[trigger] buckets[i]).name@
}

/// Each row's name is the name of some bucket.
pub open spec fn rows_covered(records: Seq<EpisodeRecord>, buckets: Seq<EpisodeBucket>) -> bool {
    forall|j: int|
        0 <= j < records.len() ==> exists|i: int|
            0 <= i < buckets.len() && (#[trigger] buckets[i]).name@ == row_name(#[trigger] records[j])
}

/// `buckets` groups `records` by episode name: one bucket per name that
/// occurs, in ascending name order, each holding its rows' entries newest
/// first, rows of equal date in scan order.
#[verifier::opaque]
pub open spec fn is_bucket_view(records: Seq<EpisodeRecord>, buckets: Seq<EpisodeBucket>) -> bool {
    &&& names_ascending(buckets)
    &&& buckets_exact(records, buckets)
    &&& buckets_occur(records, buckets)
    &&& rows_covered(records, buckets)
}

/// The first bucket whose name is not below `name`.
fn find_bucket(buckets: &Vec<EpisodeBucket>, name: &String) -> (g: usize)
    ensures
        g <= buckets.len(),
        forall|i: int| 0 <= i < g ==> text_lt(#[trigger] buckets@[i].name@, name@),
        g < buckets.len() ==> !text_lt(buckets@[g as int].name@, name@),
{
    let mut g: usize = 0;
    while g < buckets.len() && matches!(compare_text(&buckets[g].name, name), Ordering::Less)
        invariant
            g <= buckets.len(),
            forall|i: int| 0 <= i < g ==> text_lt(#[trigger] buckets@[i].name@, name@),
        decreases buckets.len() - g,
    {
        g = g + 1;
    }
    g
}

/// How one scan step changes the buckets: the row's entry joins the bucket
/// of its name at position `g` when `found`, or starts a new bucket there.
pub open spec fn bucket_step_shape(
    r: EpisodeRecord,
    old_buckets: Seq<EpisodeBucket>,
    ng: Seq<EpisodeBucket>,
    g: int,
    found: bool,
) -> bool {
    &&& 0 <= g <= old_buckets.len()
    &&& forall|i: int| 0 <= i < g ==> text_lt(#[trigger] old_buckets[i].name@, row_name(r))
    &&& found ==> {
        &&& g < old_buckets.len()
        &&& old_buckets[g].name@ == row_name(r)
        &&& ng.len() == old_buckets.len()
        &&& forall|i: int| 0 <= i < ng.len() && i != g ==> ng[i] == old_buckets[i]
        &&& ng[g].name@ == row_name(r)
        &&& entries_view(ng[g].entries@) == entries_view(old_buckets[g].entries@).insert(
            newest_insert_pos(entries_view(old_buckets[g].entries@), row_entry(r), 0),
            row_entry(r),
        )
    }
    &&& !found ==> {
        &&& g < old_buckets.len() ==> text_lt(row_name(r), old_buckets[g].name@)
        &&& ng.len() == old_buckets.len() + 1
        &&& forall|i: int| 0 <= i < g ==> ng[i] == old_buckets[i]
        &&& forall|i: int| g < i < ng.len() ==> ng[i] == old_buckets[i - 1]
        &&& ng[g].name@ == row_name(r)
        &&& entries_view(ng[g].entries@) == seq![row_entry(r)]
    }
}

/// One scan step of the bucketing keeps the buckets exact.
proof fn lemma_bucket_step(
    pre: Seq<EpisodeRecord>,
    r: EpisodeRecord,
    old_buckets: Seq<EpisodeBucket>,
    ng: Seq<EpisodeBucket>,
    g: int,
    found: bool,
)
    requires
        is_bucket_view(pre, old_buckets),
        bucket_step_shape(r, old_buckets, ng, g, found),
    ensures
        is_bucket_view(pre.push(r), ng),
{
    reveal(is_bucket_view);
    lemma_bucket_step_distinct(r, old_buckets, ng, g, found);
    lemma_bucket_step_ascending(pre, r, old_buckets, ng, g, found);
    lemma_bucket_step_exact(pre, r, old_buckets, ng, g, found);
    lemma_bucket_step_occur(pre, r, old_buckets, ng, g, found);
    lemma_bucket_step_covered(pre, r, old_buckets, ng, g, found);
}

/// Every bucket but the one the row joins has another name.
proof fn lemma_bucket_step_distinct(
    r: EpisodeRecord,
    old_buckets: Seq<EpisodeBucket>,
    ng: Seq<EpisodeBucket>,
    g: int,
    found: bool,
)
    requires
        names_ascending(old_buckets),
        bucket_step_shape(r, old_buckets, ng, g, found),
    ensures
        forall|i: int|
            0 <= i < old_buckets.len() && (i != g || !found) ==> (#[trigger] old_buckets[i]).name@
                != row_name(r),
{
    let key = row_name(r);
    lemma_text_order(key, key, key);
    assert forall|i: int|
        0 <= i < old_buckets.len() && (i != g || !found) implies (#[trigger] old_buckets[i]).name@
            != key by {
        if i > g {
            assert(text_lt(old_buckets[g].name@, old_buckets[i].name@));
            if found {
                lemma_text_order(key, key, old_buckets[i].name@);
            } else {
                lemma_text_order(key, old_buckets[g].name@, old_buckets[i].name@);
            }
        } else if i < g && found {
            assert(text_lt(old_buckets[i].name@, old_buckets[g].name@));
        }
    }
}

/// Scanning one more row adds its entry under its own name only.
proof fn lemma_entries_named_push(pre: Seq<EpisodeRecord>, r: EpisodeRecord, k: Seq<char>)
    ensures
        entries_named(pre.push(r), k) == if row_name(r) == k {
            entries_named(pre, k).push(row_entry(r))
        } else {
            entries_named(pre, k)
        },
{
    assert(pre.push(r).drop_last() =~= pre);
}

proof fn lemma_bucket_step_ascending(
    pre: Seq<EpisodeRecord>,
    r: EpisodeRecord,
    old_buckets: Seq<EpisodeBucket>,
    ng: Seq<EpisodeBucket>,
    g: int,
    found: bool,
)
    requires
        names_ascending(old_buckets),
        bucket_step_shape(r, old_buckets, ng, g, found),
    ensures
        names_ascending(ng),
{
    let key = row_name(r);
    assert forall|i: int, j: int|
        0 <= i < j < ng.len() implies text_lt(#[trigger] ng[i].name@, #[trigger] ng[j].name@) by {
        if found {
            assert(ng[i].name@ == old_buckets[i].name@);
            assert(ng[j].name@ == old_buckets[j].name@);
        } else if i > g {
            assert(ng[i] == old_buckets[i - 1] && ng[j] == old_buckets[j - 1]);
        } else if j < g {
            assert(ng[i] == old_buckets[i] && ng[j] == old_buckets[j]);
        } else if i == g {
            assert(ng[j] == old_buckets[j - 1]);
            if j - 1 > g {
                assert(text_lt(old_buckets[g].name@, old_buckets[j - 1].name@));
                lemma_text_order(key, old_buckets[g].name@, old_buckets[j - 1].name@);
            }
        } else if j == g {
            assert(ng[i] == old_buckets[i]);
        } else {
            assert(ng[i] == old_buckets[i] && ng[j] == old_buckets[j - 1]);
            lemma_text_order(old_buckets[i].name@, key, old_buckets[g].name@);
            if j - 1 > g {
                assert(text_lt(old_buckets[g].name@, old_buckets[j - 1].name@));
                lemma_text_order(old_buckets[i].name@, old_buckets[g].name@, old_buckets[j - 1].name@);
            }
        }
    }
}

proof fn lemma_bucket_step_exact(
    pre: Seq<EpisodeRecord>,
    r: EpisodeRecord,
    old_buckets: Seq<EpisodeBucket>,
    ng: Seq<EpisodeBucket>,
    g: int,
    found: bool,
)
    requires
        buckets_exact(pre, old_buckets),
        rows_covered(pre, old_buckets),
        bucket_step_shape(r, old_buckets, ng, g, found),
        forall|i: int|
            0 <= i < old_buckets.len() && (i != g || !found) ==> (#[trigger] old_buckets[i]).name@
                != row_name(r),
    ensures
        buckets_exact(pre.push(r), ng),
{
    let post = pre.push(r);
    let key = row_name(r);
    let x = row_entry(r);
    lemma_entries_named_push(pre, r, key);
    let q = entries_named(post, key);
    assert(q.drop_last() =~= entries_named(pre, key));
    assert(q.last() == x);
    if !found {
        assert forall|j: int| 0 <= j < pre.len() implies row_name(#[trigger] pre[j]) != key by {
            let i = choose|i: int|
                0 <= i < old_buckets.len() && (#[trigger] old_buckets[i]).name@ == row_name(pre[j]);
        }
        lemma_entries_named_empty(pre, key);
        let e = Seq::<EntryView>::empty();
        assert(newest_insert_pos(e, x, 0) == 0);
        assert(q.drop_last() =~= e);
        assert(sort_newest_first(e) == e);
        assert(sort_newest_first(q) == e.insert(0, x));
        assert(sort_newest_first(q) =~= seq![x]);
    }
    assert forall|i: int| 0 <= i < ng.len() implies entries_view(#[trigger] ng[i].entries@)
        == sort_newest_first(entries_named(post, ng[i].name@)) by {
        if i != g {
            let oi = if found || i < g { i } else { i - 1 };
            assert(ng[i] == old_buckets[oi]);
            lemma_entries_named_push(pre, r, old_buckets[oi].name@);
        }
    }
}

proof fn lemma_bucket_step_occur(
    pre: Seq<EpisodeRecord>,
    r: EpisodeRecord,
    old_buckets: Seq<EpisodeBucket>,
    ng: Seq<EpisodeBucket>,
    g: int,
    found: bool,
)
    requires
        buckets_occur(pre, old_buckets),
        bucket_step_shape(r, old_buckets, ng, g, found),
    ensures
        buckets_occur(pre.push(r), ng),
{
    let post = pre.push(r);
    assert forall|i: int| 0 <= i < ng.len() implies exists|j: int|
        0 <= j < post.len() && row_name(#[trigger] post[j]) == (#[trigger] ng[i]).name@ by {
        if i == g {
            assert(row_name(post[pre.len() as int]) == ng[i].name@);
        } else {
            let oi = if found || i < g { i } else { i - 1 };
            assert(ng[i] == old_buckets[oi]);
            let j = choose|j: int|
                0 <= j < pre.len() && row_name(#[trigger] pre[j]) == (#[trigger] old_buckets[oi]).name@;
            assert(post[j] == pre[j]);
        }
    }
}

proof fn lemma_bucket_step_covered(
    pre: Seq<EpisodeRecord>,
    r: EpisodeRecord,
    old_buckets: Seq<EpisodeBucket>,
    ng: Seq<EpisodeBucket>,
    g: int,
    found: bool,
)
    requires
        rows_covered(pre, old_buckets),
        bucket_step_shape(r, old_buckets, ng, g, found),
    ensures
        rows_covered(pre.push(r), ng),
{
    let post = pre.push(r);
    assert forall|j: int| 0 <= j < post.len() implies exists|i: int|
        0 <= i < ng.len() && (#[trigger] ng[i]).name@ == row_name(#[trigger] post[j]) by {
        if j == pre.len() {
            assert(ng[g].name@ == row_name(post[j]));
        } else {
            assert(post[j] == pre[j]);
            let oi = choose|oi: int|
                0 <= oi < old_buckets.len() && (#[trigger] old_buckets[oi]).name@ == row_name(pre[j]);
            if found {
                assert(ng[oi].name@ == old_buckets[oi].name@);
            } else if oi < g {
                assert(ng[oi] == old_buckets[oi]);
            } else {
                assert(ng[oi + 1] == old_buckets[oi]);
            }
        }
    }
}

/// An entry is among a name's entries exactly when some row of that name
/// gives it.
pub proof fn lemma_entries_named_contains(rs: Seq<EpisodeRecord>, k: Seq<char>, x: EntryView)
    ensures
        entries_named(rs, k).contains(x) <==> exists|j: int|
            0 <= j < rs.len() && row_name(#[trigger] rs[j]) == k && row_entry(rs[j]) == x,
    decreases rs.len(),
{
    if rs.len() > 0 {
        let pre = rs.drop_last();
        lemma_entries_named_contains(pre, k, x);
        let prev = entries_named(pre, k);
        if entries_named(rs, k).contains(x) {
            let m = choose|m: int| 0 <= m < entries_named(rs, k).len() && entries_named(rs, k)[m] == x;
            if m < prev.len() {
                assert(prev[m] == x);
                assert(prev.contains(x));
                let j = choose|j: int| 0 <= j < pre.len() && row_name(#[trigger] pre[j]) == k && row_entry(pre[j]) == x;
                assert(rs[j] == pre[j]);
            } else {
                assert(row_name(rs[rs.len() - 1]) == k && row_entry(rs[rs.len() - 1]) == x);
            }
        }
        if exists|j: int| 0 <= j < rs.len() && row_name(#[trigger] rs[j]) == k && row_entry(rs[j]) == x {
            let j = choose|j: int| 0 <= j < rs.len() && row_name(#[trigger] rs[j]) == k && row_entry(rs[j]) == x;
            if j < pre.len() {
                assert(pre[j] == rs[j]);
                assert(prev.contains(x));
                let m = choose|m: int| 0 <= m < prev.len() && prev[m] == x;
                assert(entries_named(rs, k)[m] == x);
            } else {
                assert(entries_named(rs, k)[prev.len() as int] == x);
            }
        }
    }
}

proof fn lemma_entries_named_empty(rs: Seq<EpisodeRecord>, k: Seq<char>)
    requires
        forall|j: int| 0 <= j < rs.len() ==> row_name(#[trigger] rs[j]) != k,
    ensures
        entries_named(rs, k) == Seq::<EntryView>::empty(),
    decreases rs.len(),
{
    if rs.len() > 0 {
        assert forall|j: int| 0 <= j < rs.drop_last().len() implies row_name(#[trigger] rs.drop_last()[j]) != k by {
            assert(rs.drop_last()[j] == rs[j]);
        }
        lemma_entries_named_empty(rs.drop_last(), k);
    }
}

/// Adds the entry of `row` to the bucket of its name.
fn add_row(buckets: &mut Vec<EpisodeBucket>, row: &EpisodeRecord, Ghost(pre): Ghost<Seq<EpisodeRecord>>)
    requires
        is_bucket_view(pre, old(buckets)@),
    ensures
        is_bucket_view(pre.push(*row), final(buckets)@),
{
    let ghost r = *row;
    let name = row.episode_name.clone();
    let entry = EpisodeEntry {
        year: row.year.clone(),
        month: row.month.clone(),
        episode_num: row.episode_num.clone(),
        abstract_text: row.abstract_text.clone(),
    };
    assert(entry@ == row_entry(r));
    let g = find_bucket(buckets, &name);
    let found = g < buckets.len() && matches!(compare_text(&buckets[g].name, &name), Ordering::Equal);
    let ghost old_buckets = buckets@;
    if g < buckets.len() {
        proof {
            lemma_text_order(buckets@[g as int].name@, name@, name@);
            lemma_text_order(name@, buckets@[g as int].name@, name@);
        }
    }
    if found {
        let mut b = buckets.remove(g);
        insert_newest_first(&mut b.entries, entry);
        buckets.insert(g, b);
        assert(buckets@ =~= old_buckets.update(g as int, b));
    } else {
        let mut entries: Vec<EpisodeEntry> = Vec::new();
        entries.push(entry);
        assert(entries_view(entries@) =~= seq![row_entry(r)]);
        buckets.insert(g, EpisodeBucket { name, entries });
    }
    proof {
        lemma_bucket_step(pre, r, old_buckets, buckets@, g as int, found);
    }
}

/// Buckets the rows of the series in `ids` by episode name, in ascending
/// name order, each bucket's entries newest first.
fn bucket_rows(ids: &Vec<i64>, rows: &Vec<EpisodeRecord>) -> (buckets: Vec<EpisodeBucket>)
    ensures
        is_bucket_view(selected_rows(ids@, rows@), buckets@),
{
    let mut buckets: Vec<EpisodeBucket> = Vec::new();
    let mut idx: usize = 0;
    proof {
        reveal(is_bucket_view);
        assert(rows@.take(0) =~= Seq::<EpisodeRecord>::empty());
    }
    while idx < rows.len()
        invariant
            idx <= rows.len(),
            is_bucket_view(selected_rows(ids@, rows@.take(idx as int)), buckets@),
        decreases rows.len() - idx,
    {
        let ghost pre = selected_rows(ids@, rows@.take(idx as int));
        proof {
            assert(rows@.take(idx + 1).drop_last() =~= rows@.take(idx as int));
        }
        if holds_id(ids, rows[idx].series_id) {
            add_row(&mut buckets, &rows[idx], Ghost(pre));
        }
        idx = idx + 1;
    }
    assert(rows@.take(rows.len() as int) =~= rows@);
    buckets
}

/// The abstracts of the first `WINDOW` entries.
fn window_of(entries: &Vec<EpisodeEntry>) -> (r: Vec<String>)
    ensures
        strings_view(r@) == window_abstracts(entries_view(entries@)),
{
    let n: usize = if entries.len() < WINDOW { entries.len() } else { WINDOW };
    let mut out: Vec<String> = Vec::new();
    let mut i: usize = 0;
    while i < n
        invariant
            n <= entries.len(),
            n == if entries.len() < WINDOW { entries.len() } else { WINDOW },
            i <= n,
            out@.len() == i,
            forall|m: int| 0 <= m < i ==> (#[trigger] out@[m])@ == entries@[m].abstract_text@,
        decreases n - i,
    {
        out.push(entries[i].abstract_text.clone());
        i = i + 1;
    }
    assert(strings_view(out@) =~= window_abstracts(entries_view(entries@)));
    out
}

/// For the rows of the series in `ids`, the abstracts of the `WINDOW`
/// newest episodes of each name, grouped by name in ascending order.
/// With no ids the result is empty.
pub fn episodes_by_name(ids: &Vec<i64>, rows: &Vec<EpisodeRecord>) -> (groups: Vec<EpisodeGroup>)
    ensures
        is_episode_view(ids@, rows@, groups@),
        ids@.len() == 0 ==> groups@.len() == 0,
{
    if ids.len() == 0 {
        proof {
            lemma_nothing_selected(ids@, rows@);
            reveal(is_episode_view);
        }
        return Vec::new();
    }
    let buckets = bucket_rows(ids, rows);
    let ghost sel = selected_rows(ids@, rows@);
    let mut groups: Vec<EpisodeGroup> = Vec::new();
    let mut i: usize = 0;
    while i < buckets.len()
        invariant
            i <= buckets.len(),
            groups@.len() == i,
            forall|k: int|
                0 <= k < i ==> (#[trigger] groups@[k]).episode_name@ == buckets@[k].name@
                    && strings_view(groups@[k].abstracts@) == window_abstracts(entries_view(buckets@[k].entries@)),
        decreases buckets.len() - i,
    {
        let abstracts = window_of(&buckets[i].entries);
        groups.push(EpisodeGroup { episode_name: buckets[i].name.clone(), abstracts });
        i = i + 1;
    }
    proof {
        lemma_groups_from_buckets(ids@, rows@, buckets@, groups@);
    }
    groups
}

proof fn lemma_nothing_selected(ids: Seq<i64>, rows: Seq<EpisodeRecord>)
    requires
        ids.len() == 0,
    ensures
        selected_rows(ids, rows).len() == 0,
    decreases rows.len(),
{
    if rows.len() > 0 {
        lemma_nothing_selected(ids, rows.drop_last());
        assert(!ids.contains(rows.last().series_id));
    }
}

proof fn lemma_groups_from_buckets(
    ids: Seq<i64>,
    rows: Seq<EpisodeRecord>,
    buckets: Seq<EpisodeBucket>,
    groups: Seq<EpisodeGroup>,
)
    requires
        is_bucket_view(selected_rows(ids, rows), buckets),
        groups.len() == buckets.len(),
        forall|k: int|
            0 <= k < buckets.len() ==> (#[trigger] groups[k]).episode_name@ == buckets[k].name@
                && strings_view(groups[k].abstracts@) == window_abstracts(entries_view(buckets[k].entries@)),
    ensures
        is_episode_view(ids, rows, groups),
{
    reveal(is_episode_view);
    let sel = selected_rows(ids, rows);
    lemma_bucket_view_all(sel, buckets);
    lemma_groups_ascending(sel, buckets, groups);
    lemma_groups_kept(sel, buckets, groups);
    lemma_groups_named(sel, buckets, groups);
    lemma_rows_grouped(sel, buckets, groups);
}

proof fn lemma_groups_ascending(
    sel: Seq<EpisodeRecord>,
    buckets: Seq<EpisodeBucket>,
    groups: Seq<EpisodeGroup>,
)
    requires
        groups.len() == buckets.len(),
        forall|k: int|
            0 <= k < buckets.len() ==> (#[trigger] groups[k]).episode_name@ == buckets[k].name@
                && strings_view(groups[k].abstracts@) == window_abstracts(entries_view(buckets[k].entries@)),
        names_ascending(buckets),
    ensures
        group_names_ascending(groups),
{
    assert forall|i: int, j: int|
        0 <= i < j < groups.len() implies text_lt(#[trigger] groups[i].episode_name@, #[trigger] groups[j].episode_name@) by {
        assert(text_lt(buckets[i].name@, buckets[j].name@));
    }
}

proof fn lemma_groups_kept(
    sel: Seq<EpisodeRecord>,
    buckets: Seq<EpisodeBucket>,
    groups: Seq<EpisodeGroup>,
)
    requires
        groups.len() == buckets.len(),
        forall|k: int|
            0 <= k < buckets.len() ==> (#[trigger] groups[k]).episode_name@ == buckets[k].name@
                && strings_view(groups[k].abstracts@) == window_abstracts(entries_view(buckets[k].entries@)),
        buckets_exact(sel, buckets),
    ensures
        groups_kept(sel, groups),
{
    assert forall|i: int| 0 <= i < groups.len() implies strings_view(#[trigger] groups[i].abstracts@)
        == kept_abstracts(sel, groups[i].episode_name@) by {
        assert(entries_view(buckets[i].entries@) == sort_newest_first(entries_named(sel, buckets[i].name@)));
    }
}

proof fn lemma_groups_named(
    sel: Seq<EpisodeRecord>,
    buckets: Seq<EpisodeBucket>,
    groups: Seq<EpisodeGroup>,
)
    requires
        groups.len() == buckets.len(),
        forall|k: int|
            0 <= k < buckets.len() ==> (#[trigger] groups[k]).episode_name@ == buckets[k].name@
                && strings_view(groups[k].abstracts@) == window_abstracts(entries_view(buckets[k].entries@)),
        buckets_occur(sel, buckets),
    ensures
        groups_named(sel, groups),
{
    assert forall|i: int| 0 <= i < groups.len() implies row_names(sel).contains(
        #[trigger] groups[i].episode_name@,
    ) by {
        assert(groups[i].episode_name@ == buckets[i].name@);
        let j = choose|j: int| 0 <= j < sel.len() && row_name(#[trigger] sel[j]) == (#[trigger] buckets[i]).name@;
        assert(row_names(sel)[j] == groups[i].episode_name@);
    }
}

proof fn lemma_rows_grouped(
    sel: Seq<EpisodeRecord>,
    buckets: Seq<EpisodeBucket>,
    groups: Seq<EpisodeGroup>,
)
    requires
        groups.len() == buckets.len(),
        forall|k: int|
            0 <= k < buckets.len() ==> (#[trigger] groups[k]).episode_name@ == buckets[k].name@
                && strings_view(groups[k].abstracts@) == window_abstracts(entries_view(buckets[k].entries@)),
        rows_covered(sel, buckets),
    ensures
        rows_grouped(sel, groups),
{
    assert forall|j: int| 0 <= j < sel.len() implies group_names(groups).contains(
        #[trigger] sel[j].episode_name@,
    ) by {
        let i = choose|i: int| 0 <= i < buckets.len() && (#[trigger] buckets[i]).name@ == row_name(sel[j]);
        assert(groups[i].episode_name@ == buckets[i].name@);
        assert(group_names(groups)[i] == sel[j].episode_name@);
    }
}

proof fn lemma_bucket_view_all(records: Seq<EpisodeRecord>, buckets: Seq<EpisodeBucket>)
    requires
        is_bucket_view(records, buckets),
    ensures
        names_ascending(buckets),
        buckets_exact(records, buckets),
        buckets_occur(records, buckets),
        rows_covered(records, buckets),
{
    reveal(is_bucket_view);
}

/// No group of the episode view holds more than `WINDOW` abstracts.
pub proof fn lemma_episode_window(ids: Seq<i64>, rows: Seq<EpisodeRecord>, groups: Seq<EpisodeGroup>)
    requires
        is_episode_view(ids, rows, groups),
    ensures
        forall|i: int| 0 <= i < groups.len() ==> (#[trigger] groups[i]).abstracts@.len() <= WINDOW,
{
    reveal(is_episode_view);
    assert forall|i: int| 0 <= i < groups.len() implies (#[trigger] groups[i]).abstracts@.len() <= WINDOW by {
        assert(strings_view(groups[i].abstracts@).len() == groups[i].abstracts@.len());
    }
}

/// With no series ids the episode view is empty.
pub proof fn lemma_episode_no_ids(ids: Seq<i64>, rows: Seq<EpisodeRecord>, groups: Seq<EpisodeGroup>)
    requires
        is_episode_view(ids, rows, groups),
        ids.len() == 0,
    ensures
        groups.len() == 0,
{
    reveal(is_episode_view);
    lemma_nothing_selected(ids, rows);
    if groups.len() > 0 {
        assert(row_names(selected_rows(ids, rows)).contains(groups[0].episode_name@));
    }
}

/// The abstracts kept for a name are those of its newest entries: the
/// `m`-th kept abstract is that of the `m`-th entry of a newest-first
/// arrangement of exactly the entries of that name's rows, and no entry
/// left out is newer than a kept one.
pub proof fn lemma_episode_newest_kept(
    ids: Seq<i64>,
    rows: Seq<EpisodeRecord>,
    groups: Seq<EpisodeGroup>,
    i: int,
)
    requires
        is_episode_view(ids, rows, groups),
        0 <= i < groups.len(),
    ensures
        ({
            let s = sort_newest_first(entries_named(selected_rows(ids, rows), groups[i].episode_name@));
            &&& forall|x: EntryView| s.contains(x) <==> exists|j: int|
                0 <= j < selected_rows(ids, rows).len()
                    && row_name(#[trigger] selected_rows(ids, rows)[j]) == groups[i].episode_name@
                    && row_entry(selected_rows(ids, rows)[j]) == x
            &&& newest_first(s)
            &&& groups[i].abstracts@.len() == if s.len() < WINDOW { s.len() } else { WINDOW as nat }
            &&& forall|m: int| 0 <= m < groups[i].abstracts@.len() ==> (#[trigger] groups[i].abstracts@[m])@ == s[m].3
            &&& forall|m: int, q: int|
                0 <= m < groups[i].abstracts@.len() <= q < s.len() ==> entry_le(#[trigger] s[q], #[trigger] s[m])
        }),
{
    reveal(is_episode_view);
    let s = sort_newest_first(entries_named(selected_rows(ids, rows), groups[i].episode_name@));
    lemma_sort_newest_first_contains(entries_named(selected_rows(ids, rows), groups[i].episode_name@));
    lemma_sort_newest_first_ordered(entries_named(selected_rows(ids, rows), groups[i].episode_name@));
    assert(strings_view(groups[i].abstracts@).len() == groups[i].abstracts@.len());
    assert forall|x: EntryView| s.contains(x) <==> exists|j: int|
        0 <= j < selected_rows(ids, rows).len()
            && row_name(#[trigger] selected_rows(ids, rows)[j]) == groups[i].episode_name@
            && row_entry(selected_rows(ids, rows)[j]) == x by {
        lemma_entries_named_contains(selected_rows(ids, rows), groups[i].episode_name@, x);
    }
    assert forall|m: int| 0 <= m < groups[i].abstracts@.len() implies (#[trigger] groups[i].abstracts@[m])@ == s[m].3 by {
        assert(strings_view(groups[i].abstracts@)[m] == groups[i].abstracts@[m]@);
    }
}

} // verus!
