//! Series grouped by period: every series under the key of its year and
//! month, each group ordered by series name.
use vstd::prelude::*;
use core::cmp::Ordering;
use crate::text::{
    compare_text, lemma_text_order, period_key, period_key_of, text_le, text_lt,
};

verus! {

/// One row of the series table.
pub struct SeriesRecord {
    pub id: i64,
    pub name: String,
    pub year: String,
    pub month: String,
}

/// One entry of a period group.
pub struct SeriesItem {
    pub id: i64,
    pub series_name: String,
}

/// The series of one period, ordered by name.
pub struct PeriodGroup {
    pub period: String,
    pub items: Vec<SeriesItem>,
}

impl View for SeriesItem {
    type V = (i64, Seq<char>);

    open spec fn view(&self) -> (i64, Seq<char>) {
        (self.id, self.series_name@)
    }
}

pub open spec fn items_view(v: Seq<SeriesItem>) -> Seq<(i64, Seq<char>)> {
    v.map_values(|x: SeriesItem| x@)
}

pub open spec fn record_key(r: SeriesRecord) -> Seq<char> {
    period_key_of(r.year@, r.month@)
}

pub open spec fn record_item(r: SeriesRecord) -> (i64, Seq<char>) {
    (r.id, r.name@)
}

/// The entries of the records whose period key is `k`, in scan order.
pub open spec fn items_in_period(rs: Seq<SeriesRecord>, k: Seq<char>) -> Seq<(i64, Seq<char>)>
    decreases rs.len(),
{
    if rs.len() == 0 {
        Seq::empty()
    } else {
        let prev = items_in_period(rs.drop_last(), k);
        if record_key(rs.last()) == k {
            prev.push(record_item(rs.last()))
        } else {
            prev
        }
    }
}

/// The first position from `j` on whose name is greater than `name`.
pub open spec fn name_insert_pos(s: Seq<(i64, Seq<char>)>, name: Seq<char>, j: int) -> int
    decreases s.len() - j,
{
    if j < 0 || j >= s.len() {
        s.len() as int
    } else if text_lt(name, s[j].1) {
        j
    } else {
        name_insert_pos(s, name, j + 1)
    }
}

/// Stable sort by name: each entry goes after every earlier entry whose
/// name is not greater than its own.
pub open spec fn sort_by_name(s: Seq<(i64, Seq<char>)>) -> Seq<(i64, Seq<char>)>
    decreases s.len(),
{
    if s.len() == 0 {
        s
    } else {
        let t = sort_by_name(s.drop_last());
        t.insert(name_insert_pos(t, s.last().1, 0), s.last())
    }
}

pub open spec fn names_sorted(s: Seq<(i64, Seq<char>)>) -> bool {
    forall|i: int, j: int| 0 <= i < j < s.len() ==> text_le(#[trigger] s[i].1, #[trigger] s[j].1)
}

/// The groups' period keys are strictly ascending.
pub open spec fn periods_ascending(groups: Seq<PeriodGroup>) -> bool {
    forall|i: int, j: int|
        0 <= i < j < groups.len() ==> text_lt(#[trigger] groups[i].period@, #[trigger] groups[j].period@)
}

/// Each group holds the stable sort by name of its period's records.
pub open spec fn groups_exact(records: Seq<SeriesRecord>, groups: Seq<PeriodGroup>) -> bool {
    forall|i: int|
        0 <= i < groups.len() ==> items_view(#[trigger] groups[i].items@) == sort_by_name(
            items_in_period(records, groups[i].period@),
        )
}

/// Each group's key is the key of some record.
pub open spec fn groups_occur(records: Seq<SeriesRecord>, groups: Seq<PeriodGroup>) -> bool {
    forall|i: int|
        0 <= i < groups.len() ==> exists|j: int|
            0 <= j < records.len() && record_key(#[trigger] records[j]) == (#[trigger] groups[i]).period@
}

/// Each record's key is the key of some group.
pub open spec fn records_covered(records: Seq<SeriesRecord>, groups: Seq<PeriodGroup>) -> bool {
    forall|j: int|
        0 <= j < records.len() ==> exists|i: int|
            0 <= i < groups.len() && (#[trigger] groups[i]).period@ == record_key(#[trigger] records[j])
}

/// `groups` is the period view of `records`: one group per period key that
/// occurs, in ascending key order, each holding the stable sort by name of
/// that period's records.
#[verifier::opaque]
pub open spec fn is_period_view(records: Seq<SeriesRecord>, groups: Seq<PeriodGroup>) -> bool {
    &&& periods_ascending(groups)
    &&& groups_exact(records, groups)
    &&& groups_occur(records, groups)
    &&& records_covered(records, groups)
}

proof fn lemma_name_insert_pos(s: Seq<(i64, Seq<char>)>, name: Seq<char>, j: int)
    requires
        0 <= j <= s.len(),
    ensures
        j <= name_insert_pos(s, name, j) <= s.len(),
        forall|i: int| j <= i < name_insert_pos(s, name, j) ==> !text_lt(name, #[trigger] s[i].1),
        name_insert_pos(s, name, j) < s.len() ==> text_lt(name, s[name_insert_pos(s, name, j)].1),
    decreases s.len() - j,
{
    if j < s.len() && !text_lt(name, s[j].1) {
        lemma_name_insert_pos(s, name, j + 1);
    }
}

/// Inserting at the stable position keeps a name-sorted sequence sorted.
proof fn lemma_insert_keeps_sorted(t: Seq<(i64, Seq<char>)>, x: (i64, Seq<char>))
    requires
        names_sorted(t),
    ensures
        names_sorted(t.insert(name_insert_pos(t, x.1, 0), x)),
{
    let p = name_insert_pos(t, x.1, 0);
    lemma_name_insert_pos(t, x.1, 0);
    let u = t.insert(p, x);
    assert forall|i: int, j: int| 0 <= i < j < u.len() implies text_le(#[trigger] u[i].1, #[trigger] u[j].1) by {
        if i < p && j == p {
            lemma_text_order(x.1, t[i].1, x.1);
        } else if i == p && j > p {
            lemma_text_order(x.1, t[p].1, t[j - 1].1);
            lemma_text_order(t[p].1, t[j - 1].1, x.1);
        }
    }
}

/// The stable sort by name orders its result by name.
pub proof fn lemma_sort_by_name_sorted(s: Seq<(i64, Seq<char>)>)
    ensures
        names_sorted(sort_by_name(s)),
    decreases s.len(),
{
    if s.len() > 0 {
        lemma_sort_by_name_sorted(s.drop_last());
        lemma_insert_keeps_sorted(sort_by_name(s.drop_last()), s.last());
    }
}

/// The stable sort by name keeps exactly the entries it was given.
pub proof fn lemma_sort_by_name_contains(s: Seq<(i64, Seq<char>)>)
    ensures
        sort_by_name(s).len() == s.len(),
        forall|x: (i64, Seq<char>)| sort_by_name(s).contains(x) <==> s.contains(x),
    decreases s.len(),
{
    if s.len() > 0 {
        let t = sort_by_name(s.drop_last());
        lemma_sort_by_name_contains(s.drop_last());
        lemma_name_insert_pos(t, s.last().1, 0);
        let p = name_insert_pos(t, s.last().1, 0);
        t.insert_ensures(p, s.last());
        assert forall|x: (i64, Seq<char>)| sort_by_name(s).contains(x) <==> s.contains(x) by {
            if s.contains(x) {
                if x == s.last() {
                    assert(sort_by_name(s)[p] == x);
                } else {
                    let k = choose|k: int| 0 <= k < s.len() && s[k] == x;
                    assert(k < s.len() - 1);
                    assert(s.drop_last()[k] == x);
                    assert(s.drop_last().contains(x));
                    let m = choose|m: int| 0 <= m < t.len() && t[m] == x;
                    if m < p {
                        assert(sort_by_name(s)[m] == x);
                    } else {
                        assert(sort_by_name(s)[m + 1] == x);
                    }
                }
            }
            if sort_by_name(s).contains(x) {
                let m = choose|m: int| 0 <= m < sort_by_name(s).len() && sort_by_name(s)[m] == x;
                if m == p {
                    assert(s[s.len() - 1] == x);
                } else {
                    if m < p {
                        assert(t[m] == x);
                    } else {
                        assert(t[m - 1] == x);
                    }
                    assert(t.contains(x));
                    assert(s.drop_last().contains(x));
                    let k = choose|k: int| 0 <= k < s.drop_last().len() && s.drop_last()[k] == x;
                    assert(s[k] == x);
                }
            }
        }
    }
}

/// Entries of one and the same name keep their scan order.
pub proof fn lemma_equal_names_keep_scan_order(t: Seq<(i64, Seq<char>)>)
    requires
        forall|i: int, j: int| 0 <= i < t.len() && 0 <= j < t.len() ==> (#[trigger] t[i]).1 == (#[trigger] t[j]).1,
    ensures
        sort_by_name(t) == t,
    decreases t.len(),
{
    if t.len() > 0 {
        let u = t.drop_last();
        assert forall|i: int, j: int| 0 <= i < u.len() && 0 <= j < u.len() implies (#[trigger] u[i]).1
            == (#[trigger] u[j]).1 by {
            assert(u[i] == t[i] && u[j] == t[j]);
        }
        lemma_equal_names_keep_scan_order(u);
        lemma_name_insert_pos(u, t.last().1, 0);
        let p = name_insert_pos(u, t.last().1, 0);
        if p < u.len() {
            assert(t[p].1 == t[t.len() - 1].1);
            lemma_text_order(t[p].1, t[p].1, t[p].1);
        }
        assert(u.insert(u.len() as int, t.last()) =~= t);
    }
}

/// Inserts `item` after every entry whose name is not greater than its own.
fn insert_by_name(items: &mut Vec<SeriesItem>, item: SeriesItem)
    ensures
        items_view(final(items)@) == items_view(old(items)@).insert(
            name_insert_pos(items_view(old(items)@), item@.1, 0),
            item@,
        ),
{
    let ghost s = items_view(items@);
    let mut j: usize = 0;
    while j < items.len() && !matches!(compare_text(&item.series_name, &items[j].series_name), Ordering::Less)
        invariant
            s == items_view(items@),
            j <= items.len(),
            name_insert_pos(s, item@.1, 0) == name_insert_pos(s, item@.1, j as int),
        decreases items.len() - j,
    {
        j = j + 1;
    }
    items.insert(j, item);
    assert(items_view(items@) =~= s.insert(j as int, item@));
}

/// The first group whose key is not below `key`.
fn find_period(groups: &Vec<PeriodGroup>, key: &String) -> (g: usize)
    ensures
        g <= groups.len(),
        forall|i: int| 0 <= i < g ==> text_lt(#[trigger] groups@[i].period@, key@),
        g < groups.len() ==> !text_lt(groups@[g as int].period@, key@),
{
    let mut g: usize = 0;
    while g < groups.len() && matches!(compare_text(&groups[g].period, key), Ordering::Less)
        invariant
            g <= groups.len(),
            forall|i: int| 0 <= i < g ==> text_lt(#[trigger] groups@[i].period@, key@),
        decreases groups.len() - g,
    {
        g = g + 1;
    }
    g
}

/// Adds the entry of `rec` to the group of its period key.
fn add_record(groups: &mut Vec<PeriodGroup>, rec: &SeriesRecord, Ghost(pre): Ghost<Seq<SeriesRecord>>)
    requires
        is_period_view(pre, old(groups)@),
    ensures
        is_period_view(pre.push(*rec), final(groups)@),
{
    let ghost r = *rec;
    let key = period_key(&rec.year, &rec.month);
    let item = SeriesItem { id: rec.id, series_name: rec.name.clone() };
    assert(item@ == record_item(r));
    let g = find_period(groups, &key);
    let found = g < groups.len() && matches!(compare_text(&groups[g].period, &key), Ordering::Equal);
    let ghost old_groups = groups@;
    if g < groups.len() {
        proof {
            lemma_text_order(groups@[g as int].period@, key@, key@);
            lemma_text_order(key@, groups@[g as int].period@, key@);
        }
    }
    if found {
        let mut grp = groups.remove(g);
        insert_by_name(&mut grp.items, item);
        groups.insert(g, grp);
        assert(groups@ =~= old_groups.update(g as int, grp));
    } else {
        let mut items: Vec<SeriesItem> = Vec::new();
        items.push(item);
        assert(items_view(items@) =~= seq![record_item(r)]);
        groups.insert(g, PeriodGroup { period: key, items });
    }
    proof {
        lemma_period_step(pre, r, old_groups, groups@, g as int, found);
    }
}

/// Groups the series by period key, in ascending key order, each group
/// ordered by series name with equal names in scan order.
pub fn series_by_period(records: &Vec<SeriesRecord>) -> (groups: Vec<PeriodGroup>)
    ensures
        is_period_view(records@, groups@),
{
    let mut groups: Vec<PeriodGroup> = Vec::new();
    let mut idx: usize = 0;
    proof {
        reveal(is_period_view);
    }
    while idx < records.len()
        invariant
            idx <= records.len(),
            is_period_view(records@.take(idx as int), groups@),
        decreases records.len() - idx,
    {
        proof {
            assert(records@.take(idx + 1) =~= records@.take(idx as int).push(records@[idx as int]));
        }
        add_record(&mut groups, &records[idx], Ghost(records@.take(idx as int)));
        idx = idx + 1;
    }
    assert(records@.take(records.len() as int) =~= records@);
    groups
}

/// How one scan step changes the groups: the record's entry joins the
/// group of its key at position `g` when `found`, or starts a new group there.
pub open spec fn step_shape(
    r: SeriesRecord,
    old_groups: Seq<PeriodGroup>,
    ng: Seq<PeriodGroup>,
    g: int,
    found: bool,
) -> bool {
    &&& 0 <= g <= old_groups.len()
    &&& forall|i: int| 0 <= i < g ==> text_lt(#[trigger] old_groups[i].period@, record_key(r))
    &&& found ==> {
        &&& g < old_groups.len()
        &&& old_groups[g].period@ == record_key(r)
        &&& ng.len() == old_groups.len()
        &&& forall|i: int| 0 <= i < ng.len() && i != g ==> ng[i] == old_groups[i]
        &&& ng[g].period@ == record_key(r)
        &&& items_view(ng[g].items@) == items_view(old_groups[g].items@).insert(
            name_insert_pos(items_view(old_groups[g].items@), r.name@, 0),
            record_item(r),
        )
    }
    &&& !found ==> {
        &&& g < old_groups.len() ==> text_lt(record_key(r), old_groups[g].period@)
        &&& ng.len() == old_groups.len() + 1
        &&& forall|i: int| 0 <= i < g ==> ng[i] == old_groups[i]
        &&& forall|i: int| g < i < ng.len() ==> ng[i] == old_groups[i - 1]
        &&& ng[g].period@ == record_key(r)
        &&& items_view(ng[g].items@) == seq![record_item(r)]
    }
}

/// One scan step of the period grouping keeps the view exact.
proof fn lemma_period_step(
    pre: Seq<SeriesRecord>,
    r: SeriesRecord,
    old_groups: Seq<PeriodGroup>,
    ng: Seq<PeriodGroup>,
    g: int,
    found: bool,
)
    requires
        is_period_view(pre, old_groups),
        step_shape(r, old_groups, ng, g, found),
    ensures
        is_period_view(pre.push(r), ng),
{
    reveal(is_period_view);
    lemma_step_distinct(r, old_groups, ng, g, found);
    lemma_step_ascending(pre, r, old_groups, ng, g, found);
    lemma_step_exact(pre, r, old_groups, ng, g, found);
    lemma_step_occur(pre, r, old_groups, ng, g, found);
    lemma_step_covered(pre, r, old_groups, ng, g, found);
}

/// Every group but the one the record joins has another key.
proof fn lemma_step_distinct(
    r: SeriesRecord,
    old_groups: Seq<PeriodGroup>,
    ng: Seq<PeriodGroup>,
    g: int,
    found: bool,
)
    requires
        periods_ascending(old_groups),
        step_shape(r, old_groups, ng, g, found),
    ensures
        forall|i: int|
            0 <= i < old_groups.len() && (i != g || !found) ==> (#[trigger] old_groups[i]).period@
                != record_key(r),
{
    let key = record_key(r);
    lemma_text_order(key, key, key);
    assert forall|i: int|
        0 <= i < old_groups.len() && (i != g || !found) implies (#[trigger] old_groups[i]).period@
            != key by {
        if i > g {
            assert(text_lt(old_groups[g].period@, old_groups[i].period@));
            if found {
                lemma_text_order(key, key, old_groups[i].period@);
            } else {
                lemma_text_order(key, old_groups[g].period@, old_groups[i].period@);
            }
        } else if i < g && found {
            assert(text_lt(old_groups[i].period@, old_groups[g].period@));
        }
    }
}

/// Scanning one more record adds its entry to its own period only.
proof fn lemma_items_in_period_push(pre: Seq<SeriesRecord>, r: SeriesRecord, k: Seq<char>)
    ensures
        items_in_period(pre.push(r), k) == if record_key(r) == k {
            items_in_period(pre, k).push(record_item(r))
        } else {
            items_in_period(pre, k)
        },
{
    assert(pre.push(r).drop_last() =~= pre);
}

proof fn lemma_step_ascending(
    pre: Seq<SeriesRecord>,
    r: SeriesRecord,
    old_groups: Seq<PeriodGroup>,
    ng: Seq<PeriodGroup>,
    g: int,
    found: bool,
)
    requires
        periods_ascending(old_groups),
        step_shape(r, old_groups, ng, g, found),
    ensures
        periods_ascending(ng),
{
    let key = record_key(r);
    assert forall|i: int, j: int|
        0 <= i < j < ng.len() implies text_lt(#[trigger] ng[i].period@, #[trigger] ng[j].period@) by {
        if found {
            assert(ng[i].period@ == old_groups[i].period@);
            assert(ng[j].period@ == old_groups[j].period@);
        } else if i > g {
            assert(ng[i] == old_groups[i - 1] && ng[j] == old_groups[j - 1]);
        } else if j < g {
            assert(ng[i] == old_groups[i] && ng[j] == old_groups[j]);
        } else if i == g {
            assert(ng[j] == old_groups[j - 1]);
            if j - 1 > g {
                assert(text_lt(old_groups[g].period@, old_groups[j - 1].period@));
                lemma_text_order(key, old_groups[g].period@, old_groups[j - 1].period@);
            }
        } else if j == g {
            assert(ng[i] == old_groups[i]);
        } else {
            assert(ng[i] == old_groups[i] && ng[j] == old_groups[j - 1]);
            lemma_text_order(old_groups[i].period@, key, old_groups[g].period@);
            if j - 1 > g {
                assert(text_lt(old_groups[g].period@, old_groups[j - 1].period@));
                lemma_text_order(old_groups[i].period@, old_groups[g].period@, old_groups[j - 1].period@);
            }
        }
    }
}

proof fn lemma_step_exact(
    pre: Seq<SeriesRecord>,
    r: SeriesRecord,
    old_groups: Seq<PeriodGroup>,
    ng: Seq<PeriodGroup>,
    g: int,
    found: bool,
)
    requires
        groups_exact(pre, old_groups),
        records_covered(pre, old_groups),
        step_shape(r, old_groups, ng, g, found),
        forall|i: int|
            0 <= i < old_groups.len() && (i != g || !found) ==> (#[trigger] old_groups[i]).period@
                != record_key(r),
    ensures
        groups_exact(pre.push(r), ng),
{
    let post = pre.push(r);
    let key = record_key(r);
    let x = record_item(r);
    lemma_items_in_period_push(pre, r, key);
    let q = items_in_period(post, key);
    assert(q.drop_last() =~= items_in_period(pre, key));
    assert(q.last() == x);
    if !found {
        assert forall|j: int| 0 <= j < pre.len() implies record_key(#[trigger] pre[j]) != key by {
            let i = choose|i: int|
                0 <= i < old_groups.len() && (#[trigger] old_groups[i]).period@ == record_key(pre[j]);
        }
        lemma_items_in_period_empty(pre, key);
        let e = Seq::<(i64, Seq<char>)>::empty();
        assert(name_insert_pos(e, x.1, 0) == 0);
        assert(q.drop_last() =~= e);
        assert(sort_by_name(e) == e);
        assert(sort_by_name(q) == e.insert(0, x));
        assert(sort_by_name(q) =~= seq![x]);
    }
    assert forall|i: int| 0 <= i < ng.len() implies items_view(#[trigger] ng[i].items@)
        == sort_by_name(items_in_period(post, ng[i].period@)) by {
        if i != g {
            let oi = if found || i < g { i } else { i - 1 };
            assert(ng[i] == old_groups[oi]);
            lemma_items_in_period_push(pre, r, old_groups[oi].period@);
        }
    }
}

proof fn lemma_step_occur(
    pre: Seq<SeriesRecord>,
    r: SeriesRecord,
    old_groups: Seq<PeriodGroup>,
    ng: Seq<PeriodGroup>,
    g: int,
    found: bool,
)
    requires
        groups_occur(pre, old_groups),
        step_shape(r, old_groups, ng, g, found),
    ensures
        groups_occur(pre.push(r), ng),
{
    let post = pre.push(r);
    assert forall|i: int| 0 <= i < ng.len() implies exists|j: int|
        0 <= j < post.len() && record_key(#[trigger] post[j]) == (#[trigger] ng[i]).period@ by {
        if i == g {
            assert(record_key(post[pre.len() as int]) == ng[i].period@);
        } else {
            let oi = if found || i < g { i } else { i - 1 };
            assert(ng[i] == old_groups[oi]);
            let j = choose|j: int|
                0 <= j < pre.len() && record_key(#[trigger] pre[j]) == (#[trigger] old_groups[oi]).period@;
            assert(post[j] == pre[j]);
        }
    }
}

proof fn lemma_step_covered(
    pre: Seq<SeriesRecord>,
    r: SeriesRecord,
    old_groups: Seq<PeriodGroup>,
    ng: Seq<PeriodGroup>,
    g: int,
    found: bool,
)
    requires
        records_covered(pre, old_groups),
        step_shape(r, old_groups, ng, g, found),
    ensures
        records_covered(pre.push(r), ng),
{
    let post = pre.push(r);
    assert forall|j: int| 0 <= j < post.len() implies exists|i: int|
        0 <= i < ng.len() && (#[trigger] ng[i]).period@ == record_key(#[trigger] post[j]) by {
        if j == pre.len() {
            assert(ng[g].period@ == record_key(post[j]));
        } else {
            assert(post[j] == pre[j]);
            let oi = choose|oi: int|
                0 <= oi < old_groups.len() && (#[trigger] old_groups[oi]).period@ == record_key(pre[j]);
            if found {
                assert(ng[oi].period@ == old_groups[oi].period@);
            } else if oi < g {
                assert(ng[oi] == old_groups[oi]);
            } else {
                assert(ng[oi + 1] == old_groups[oi]);
            }
        }
    }
}

/// An entry is in a period's entries exactly when some record of that
/// period gives it.
pub proof fn lemma_items_in_period_contains(rs: Seq<SeriesRecord>, k: Seq<char>, x: (i64, Seq<char>))
    ensures
        items_in_period(rs, k).contains(x) <==> exists|j: int|
            0 <= j < rs.len() && record_key(#[trigger] rs[j]) == k && record_item(rs[j]) == x,
    decreases rs.len(),
{
    if rs.len() > 0 {
        let pre = rs.drop_last();
        lemma_items_in_period_contains(pre, k, x);
        let prev = items_in_period(pre, k);
        if items_in_period(rs, k).contains(x) {
            let m = choose|m: int| 0 <= m < items_in_period(rs, k).len() && items_in_period(rs, k)[m] == x;
            if m < prev.len() {
                assert(prev[m] == x);
                assert(prev.contains(x));
                let j = choose|j: int| 0 <= j < pre.len() && record_key(#[trigger] pre[j]) == k && record_item(pre[j]) == x;
                assert(rs[j] == pre[j]);
            } else {
                assert(record_key(rs[rs.len() - 1]) == k && record_item(rs[rs.len() - 1]) == x);
            }
        }
        if exists|j: int| 0 <= j < rs.len() && record_key(#[trigger] rs[j]) == k && record_item(rs[j]) == x {
            let j = choose|j: int| 0 <= j < rs.len() && record_key(#[trigger] rs[j]) == k && record_item(rs[j]) == x;
            if j < pre.len() {
                assert(pre[j] == rs[j]);
                assert(prev.contains(x));
                let m = choose|m: int| 0 <= m < prev.len() && prev[m] == x;
                assert(items_in_period(rs, k)[m] == x);
            } else {
                assert(items_in_period(rs, k)[prev.len() as int] == x);
            }
        }
    }
}

/// Within every group of the period view, series names never decrease.
pub proof fn lemma_period_names_sorted(records: Seq<SeriesRecord>, groups: Seq<PeriodGroup>)
    requires
        is_period_view(records, groups),
    ensures
        forall|i: int| 0 <= i < groups.len() ==> names_sorted(items_view(#[trigger] groups[i].items@)),
{
    reveal(is_period_view);
    assert forall|i: int| 0 <= i < groups.len() implies names_sorted(items_view(#[trigger] groups[i].items@)) by {
        lemma_sort_by_name_sorted(items_in_period(records, groups[i].period@));
    }
}

proof fn lemma_period_view_parts(records: Seq<SeriesRecord>, groups: Seq<PeriodGroup>)
    requires
        is_period_view(records, groups),
    ensures
        groups_exact(records, groups),
        records_covered(records, groups),
{
    reveal(is_period_view);
}

/// An entry of a group comes from a record of that group's period.
proof fn lemma_group_entry_source(records: Seq<SeriesRecord>, groups: Seq<PeriodGroup>, i: int, m: int)
    requires
        groups_exact(records, groups),
        0 <= i < groups.len(),
        0 <= m < groups[i].items@.len(),
    ensures
        exists|j: int|
            0 <= j < records.len() && record_key(#[trigger] records[j]) == groups[i].period@
                && record_item(records[j]) == groups[i].items@[m]@,
{
    let k = groups[i].period@;
    let y = items_view(groups[i].items@)[m];
    lemma_sort_by_name_contains(items_in_period(records, k));
    assert(items_view(groups[i].items@).contains(y));
    lemma_items_in_period_contains(records, k, y);
}

/// Where record ids are distinct, every record's id appears in exactly one
/// group of the period view: the group of the record's period key, which
/// holds the record's entry.
pub proof fn lemma_period_record_placed(records: Seq<SeriesRecord>, groups: Seq<PeriodGroup>, j: int)
    requires
        is_period_view(records, groups),
        forall|a: int, b: int| 0 <= a < b < records.len() ==> (#[trigger] records[a]).id != (#[trigger] records[b]).id,
        0 <= j < records.len(),
    ensures
        exists|i: int|
            0 <= i < groups.len() && (#[trigger] groups[i]).period@ == record_key(records[j])
                && items_view(groups[i].items@).contains(record_item(records[j])),
        forall|i: int, m: int|
            0 <= i < groups.len() && 0 <= m < groups[i].items@.len() && (#[trigger] groups[i].items@[m]).id
                == records[j].id ==> groups[i].period@ == record_key(records[j]),
{
    lemma_period_view_parts(records, groups);
    let r = records[j];
    let i = choose|i: int| 0 <= i < groups.len() && (#[trigger] groups[i]).period@ == record_key(r);
    let s = items_in_period(records, groups[i].period@);
    lemma_items_in_period_contains(records, groups[i].period@, record_item(r));
    lemma_sort_by_name_contains(s);
    assert(items_view(groups[i].items@).contains(record_item(r)));
    assert forall|i2: int, m: int|
        0 <= i2 < groups.len() && 0 <= m < groups[i2].items@.len() && (#[trigger] groups[i2].items@[m]).id
            == r.id implies groups[i2].period@ == record_key(r) by {
        lemma_group_entry_source(records, groups, i2, m);
        let j2 = choose|j2: int|
            0 <= j2 < records.len() && record_key(#[trigger] records[j2]) == groups[i2].period@
                && record_item(records[j2]) == groups[i2].items@[m]@;
        if j2 < j {
            assert(records[j2].id != records[j].id);
        } else if j2 > j {
            assert(records[j].id != records[j2].id);
        }
    }
}

proof fn lemma_items_in_period_empty(rs: Seq<SeriesRecord>, k: Seq<char>)
    requires
        forall|j: int| 0 <= j < rs.len() ==> record_key(#[trigger] rs[j]) != k,
    ensures
        items_in_period(rs, k) == Seq::<(i64, Seq<char>)>::empty(),
    decreases rs.len(),
{
    if rs.len() > 0 {
        assert forall|j: int| 0 <= j < rs.drop_last().len() implies record_key(#[trigger] rs.drop_last()[j]) != k by {
            assert(rs.drop_last()[j] == rs[j]);
        }
        lemma_items_in_period_empty(rs.drop_last(), k);
    }
}

} // verus!
