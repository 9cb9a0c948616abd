//! Building the year/month/day/minute tree that spans a time range.
//!
//! The builder walks years, months, days and minutes in ascending order,
//! skips civil dates that do not exist, and hangs a minute file with its
//! exact one-minute window off every day directory.
use vstd::prelude::*;

use crate::calendar::{
    days_in_month, epoch_millis_at, lemma_epoch_millis_range, millis_upper_bound, month_days,
    valid_date, MAX_YEAR, MIN_YEAR,
};
use crate::calendar::{civil_to_millis, lemma_millis_upper_bound, millis_to_civil, millis_year, MILLIS_PER_MINUTE};
use crate::text::{four_digits, lex_lt, two_digits};

use crate::text::{
    lemma_four_digits_order, lemma_lex_lt_append, lemma_lex_lt_irreflexive, lemma_lex_lt_prefixed,
    lemma_lex_lt_transitive, lemma_two_digits_order,
};
use crate::text::{four_digit_name, push_two_digits, two_digit_name};
use crate::tree::{
    created_node, entries_lookup, ChildEntry, File, FileKey, FileTree, FileType, TimeBounds,
};
use crate::tree::{lemma_lookup_absent, lemma_lookup_finds, lemma_lookup_some_entry};

verus! {

/// Name of the minute file for hour `h` and minute `mi`: `HH-MM`.
pub open spec fn minute_name(h: int, mi: int) -> Seq<char> {
    two_digits(h) + seq!['-'] + two_digits(mi)
}

/// A minute window's last instant comes this many milliseconds after its
/// first: one minute less one millisecond.
pub const MINUTE_END_OFFSET_MILLIS: i64 = 59_999;

/// The window of the minute file for `y-m-d h:mi`.
pub open spec fn minute_window(y: int, m: int, d: int, h: int, mi: int) -> TimeBounds {
    TimeBounds {
        start_time: epoch_millis_at(y, m, d, h, mi, 0, 0) as i64,
        end_time: (epoch_millis_at(y, m, d, h, mi, 0, 0) + 59_999) as i64,
    }
}

/// Day directory `kd` holds the minute file for `(h, mi)` with its exact
/// window.
pub open spec fn minute_file_ok(
    t: FileTree,
    kd: FileKey,
    y: int,
    m: int,
    d: int,
    h: int,
    mi: int,
) -> bool {
    &&& entries_lookup(t.node(kd).children@, minute_name(h, mi)) matches Some(kf)
    &&& t.valid_key(kf)
    &&& kd.0 < kf.0
    &&& t.node(kf).file_type == FileType::File(minute_window(y, m, d, h, mi))
}

/// Month directory `km` holds a day directory for `d` with all 1440
/// minute files.
pub open spec fn day_ok(t: FileTree, km: FileKey, y: int, m: int, d: int) -> bool {
    &&& entries_lookup(t.node(km).children@, two_digits(d)) matches Some(kd)
    &&& t.valid_key(kd)
    &&& km.0 < kd.0
    &&& t.node(kd).file_type is Directory
    &&& t.node(kd).children@.len() == 1440
    &&& forall|h: int, mi: int|
        0 <= h < 24 && 0 <= mi < 60 ==> minute_file_ok(t, kd, y, m, d, h, mi)
}

/// Year directory `ky` holds month `m`: every existing day of the month
/// is present and no other day name resolves.
pub open spec fn month_ok(t: FileTree, ky: FileKey, y: int, m: int) -> bool {
    &&& entries_lookup(t.node(ky).children@, two_digits(m)) matches Some(km)
    &&& t.valid_key(km)
    &&& ky.0 < km.0
    &&& t.node(km).file_type is Directory
    &&& t.node(km).children@.len() == days_in_month(y, m)
    &&& (forall|d: int| 1 <= d <= days_in_month(y, m) ==> day_ok(t, km, y, m, d))
    &&& (forall|d: int|
        days_in_month(y, m) < d <= 31 ==> entries_lookup(
            t.node(km).children@,
            two_digits(d),
        ) is None)
}

/// The root holds year `y` with all twelve months.
pub open spec fn year_ok(t: FileTree, y: int) -> bool {
    &&& entries_lookup(t.node(FileKey(0usize)).children@, four_digits(y)) matches Some(ky)
    &&& t.valid_key(ky)
    &&& 0 < ky.0
    &&& t.node(ky).file_type is Directory
    &&& t.node(ky).children@.len() == 12
    &&& forall|m: int| 1 <= m <= 12 ==> month_ok(t, ky, y, m)
}

/// The tree materializes every minute of every existing day of the years
/// `y0..=y1`.
pub open spec fn tree_covers(t: FileTree, y0: int, y1: int) -> bool {
    forall|y: int| y0 <= y <= y1 ==> year_ok(t, y)
}

/// Between two tree states, every node but `x` (and any new ones) is
/// untouched.
pub open spec fn frame_except(t1: FileTree, t2: FileTree, x: int) -> bool {
    &&& t1.nodes@.len() <= t2.nodes@.len()
    &&& forall|k: int| 0 <= k < t1.nodes@.len() && k != x ==> t2.nodes@[k] == t1.nodes@[k]
}

/// A hit in a prefix is a hit in the whole list.
pub proof fn lemma_lookup_prefix(s1: Seq<ChildEntry>, s2: Seq<ChildEntry>, n: Seq<char>)
    requires
        s1.is_prefix_of(s2),
        entries_lookup(s1, n) is Some,
    ensures
        entries_lookup(s2, n) == entries_lookup(s1, n),
    decreases s1.len(),
{
    assert(s1.len() > 0);
    assert(s2[0] == s1[0]);
    if s1[0].name@ != n {
        assert(s1.drop_first().is_prefix_of(s2.drop_first()));
        lemma_lookup_prefix(s1.drop_first(), s2.drop_first(), n);
    }
}

/// When a fresh node's name exceeds every child name, it lands at the end
/// of the parent's child list and the old entries keep their places.
pub proof fn lemma_created_at_end(
    prev: FileTree,
    cur: FileTree,
    name: Seq<char>,
    ft: FileType,
    parent: FileKey,
    r: FileKey,
)
    requires
        created_node(prev, cur, name, ft, parent, r),
        prev.valid_key(parent),
        entries_lookup(prev.node(parent).children@, name) is None,
        forall|j: int|
            0 <= j < prev.node(parent).children@.len() ==> lex_lt(
                (#[trigger] prev.node(parent).children@[j]).name@,
                name,
            ),
    ensures
        cur.node(parent).children@.len() == prev.node(parent).children@.len() + 1,
        forall|j: int|
            0 <= j < prev.node(parent).children@.len() ==> cur.node(parent).children@[j]
                == prev.node(parent).children@[j],
        prev.node(parent).children@.is_prefix_of(cur.node(parent).children@),
        cur.node(parent).children@.last().name@ == name,
        cur.node(parent).children@.last().key == r,
{
    let oldc = prev.node(parent).children@;
    let newc = cur.node(parent).children@;
    let ins = choose|ins: int|
        #![auto]
        {
            &&& crate::tree::insert_position_ok(oldc, name, ins)
            &&& newc == oldc.insert(ins, newc[ins])
            &&& newc[ins].name@ == name
            &&& newc[ins].key == r
        };
    if ins < oldc.len() {
        lemma_lex_lt_irreflexive(name);
        lemma_lex_lt_transitive(name, oldc[ins].name@, name);
        assert(false);
    }
    assert(forall|j: int| 0 <= j < oldc.len() ==> newc[j] == oldc[j]);
    assert(oldc.is_prefix_of(newc)) by {
        assert(oldc =~= newc.subrange(0, oldc.len() as int));
    }
}

/// `x` names no node of day `d`'s subtree under month directory `km`:
/// not its day directory and not one of its minute files.
pub open spec fn off_day_path(t: FileTree, km: FileKey, d: int, x: int) -> bool {
    0 <= x < t.nodes@.len() && x != km.0 ==> {
        let xn = t.nodes@[x];
        &&& !(xn.parent == Some(km) && xn.name@ == two_digits(d))
        &&& (xn.parent matches Some(px) ==> !(t.nodes@[px.0 as int].parent == Some(km)
            && t.nodes@[px.0 as int].name@ == two_digits(d)))
    }
}

/// A day's subtree facts survive a change at a node off its path.
pub proof fn lemma_day_ok_frame(
    t1: FileTree,
    t2: FileTree,
    km: FileKey,
    y: int,
    m: int,
    d: int,
    x: int,
)
    requires
        t1.wf(),
        t1.valid_key(km),
        day_ok(t1, km, y, m, d),
        frame_except(t1, t2, x),
        x == km.0 ==> t1.nodes@[km.0 as int].children@.is_prefix_of(
            t2.nodes@[km.0 as int].children@,
        ),
        off_day_path(t1, km, d, x),
    ensures
        day_ok(t2, km, y, m, d),
{
    let kd = entries_lookup(t1.node(km).children@, two_digits(d))->Some_0;
    lemma_lookup_some_entry(t1.node(km).children@, two_digits(d));
    let c = choose|c: int|
        0 <= c < t1.node(km).children@.len() && (#[trigger] t1.node(km).children@[c].name@)
            == two_digits(d) && t1.node(km).children@[c].key == kd;
    assert(t1.wf_node(km.0 as int));
    assert(t1.nodes@[kd.0 as int].parent == Some(km));
    assert(t1.nodes@[kd.0 as int].name@ == two_digits(d));
    assert(kd.0 != x) by {
        if 0 <= x < t1.nodes@.len() && x != km.0 {
            assert(off_day_path(t1, km, d, x));
        }
    }
    assert(t2.nodes@[kd.0 as int] == t1.nodes@[kd.0 as int]);
    if x == km.0 {
        lemma_lookup_prefix(
            t1.nodes@[km.0 as int].children@,
            t2.nodes@[km.0 as int].children@,
            two_digits(d),
        );
    } else {
        assert(t2.nodes@[km.0 as int] == t1.nodes@[km.0 as int]);
    }
    assert(entries_lookup(t2.node(km).children@, two_digits(d)) == Some(kd));
    assert forall|h: int, mi: int| 0 <= h < 24 && 0 <= mi < 60 implies minute_file_ok(
        t2,
        kd,
        y,
        m,
        d,
        h,
        mi,
    ) by {
        assert(minute_file_ok(t1, kd, y, m, d, h, mi));
        let kf = entries_lookup(t1.node(kd).children@, minute_name(h, mi))->Some_0;
        lemma_lookup_some_entry(t1.node(kd).children@, minute_name(h, mi));
        assert(t1.wf_node(kd.0 as int));
        assert(t1.nodes@[kf.0 as int].parent == Some(kd));
        assert(kf.0 != x) by {
            if 0 <= x < t1.nodes@.len() && x != km.0 && kf.0 == x {
                assert(off_day_path(t1, km, d, x));
                assert(t1.nodes@[x].parent == Some(kd));
                assert(t1.nodes@[kd.0 as int].parent == Some(km) && t1.nodes@[kd.0 as int].name@
                    == two_digits(d));
                assert(false);
            }
            if x == km.0 {
                assert(km.0 < kd.0 < kf.0);
            }
        }
        assert(t2.nodes@[kf.0 as int] == t1.nodes@[kf.0 as int]);
    }
}

/// Entry `j` of a day directory is the minute file for the `j`-th minute
/// of the day.
pub open spec fn minute_entry_ok(t: FileTree, kd: FileKey, j: int, y: int, m: int, d: int) -> bool {
    &&& 0 <= j < t.node(kd).children@.len()
    &&& t.node(kd).children@[j].name@ == minute_name(j / 60, j % 60)
    &&& t.valid_key(t.node(kd).children@[j].key)
    &&& kd.0 < t.node(kd).children@[j].key.0
    &&& t.node(t.node(kd).children@[j].key).file_type == FileType::File(
        minute_window(y, m, d, j / 60, j % 60),
    )
}

/// Splitting a minute index into hour and minute of the hour.
pub proof fn lemma_minute_split(h: int, mi: int)
    requires
        0 <= h,
        0 <= mi < 60,
    ensures
        (h * 60 + mi) / 60 == h,
        (h * 60 + mi) % 60 == mi,
{
    vstd::arithmetic::div_mod::lemma_fundamental_div_mod_converse(h * 60 + mi, 60, h, mi);
}

/// Minute names ascend with the minute index.
pub proof fn lemma_minute_name_lt(j1: int, j2: int)
    requires
        0 <= j1 < j2 < 1440,
    ensures
        lex_lt(minute_name(j1 / 60, j1 % 60), minute_name(j2 / 60, j2 % 60)),
{
    let h1 = j1 / 60;
    let mi1 = j1 % 60;
    let h2 = j2 / 60;
    let mi2 = j2 % 60;
    vstd::arithmetic::div_mod::lemma_fundamental_div_mod(j1, 60);
    vstd::arithmetic::div_mod::lemma_fundamental_div_mod(j2, 60);
    vstd::arithmetic::div_mod::lemma_remainder_lower(j1, 60);
    vstd::arithmetic::div_mod::lemma_remainder_upper(j1, 60);
    vstd::arithmetic::div_mod::lemma_remainder_lower(j2, 60);
    vstd::arithmetic::div_mod::lemma_remainder_upper(j2, 60);
    vstd::arithmetic::div_mod::lemma_div_pos_is_pos(j1, 60);
    vstd::arithmetic::div_mod::lemma_div_pos_is_pos(j2, 60);
    assert(0 <= mi1 < 60 && 0 <= mi2 < 60);
    assert(j1 == 60 * h1 + mi1 && j2 == 60 * h2 + mi2);
    assert(0 <= h1 && 0 <= h2);
    if h1 == h2 {
        assert(mi1 < mi2);
        lemma_two_digits_order(mi1, mi2);
        let p = two_digits(h1) + seq!['-'];
        lemma_lex_lt_prefixed(p, two_digits(mi1), two_digits(mi2));
        assert(minute_name(h1, mi1) =~= p + two_digits(mi1));
        assert(minute_name(h2, mi2) =~= p + two_digits(mi2));
    } else {
        assert(h1 < h2) by {
            if h1 > h2 {
                assert(j1 >= 60 * h1 >= 60 * (h2 + 1) > j2);
            }
        }
        assert(h2 < 100) by {
            if h2 >= 100 {
                assert(j2 >= 60 * 100);
            }
        }
        lemma_two_digits_order(h1, h2);
        lemma_lex_lt_append(
            two_digits(h1),
            two_digits(h2),
            seq!['-'] + two_digits(mi1),
            seq!['-'] + two_digits(mi2),
        );
        assert(minute_name(h1, mi1) =~= two_digits(h1) + (seq!['-'] + two_digits(mi1)));
        assert(minute_name(h2, mi2) =~= two_digits(h2) + (seq!['-'] + two_digits(mi2)));
    }
}

/// Fill an empty day directory with its 1440 minute files.
fn build_minutes(t: &mut FileTree, day_key: FileKey, y: i64, m: i64, d: i64)
    requires
        old(t).wf(),
        old(t).valid_key(day_key),
        old(t).node(day_key).file_type is Directory,
        old(t).node(day_key).children@.len() == 0,
        valid_date(y as int, m as int, d as int),
        old(t).node_count() + 1440 <= usize::MAX,
    ensures
        final(t).wf(),
        final(t).node_count() == old(t).node_count() + 1440,
        frame_except(*old(t), *final(t), day_key.0 as int),
        final(t).node(day_key).inode == old(t).node(day_key).inode,
        final(t).node(day_key).name@ == old(t).node(day_key).name@,
        final(t).node(day_key).file_type == old(t).node(day_key).file_type,
        final(t).node(day_key).parent == old(t).node(day_key).parent,
        final(t).node(day_key).children@.len() == 1440,
        final(t).root == old(t).root,
        forall|h: int, mi: int|
            0 <= h < 24 && 0 <= mi < 60 ==> minute_file_ok(
                *final(t),
                day_key,
                y as int,
                m as int,
                d as int,
                h,
                mi,
            ),
{
    proof {
        lemma_epoch_millis_range(y as int, m as int, d as int, 23, 59, 59, 999);
        lemma_millis_upper_bound();
    }
    let day_start: i64 = civil_to_millis(y, m, d, 0, 0, 0, 0);
    let mut idx: usize = 0;
    while idx < 1440
        invariant
            t.wf(),
            valid_date(y as int, m as int, d as int),
            day_start == epoch_millis_at(y as int, m as int, d as int, 0, 0, 0, 0),
            0 <= day_start,
            day_start + 86_399_999 < 0x7fff_ffff_ffff_ffff,
            idx <= 1440,
            day_key.0 < old(t).node_count(),
            old(t).node_count() + 1440 <= usize::MAX,
            t.node_count() == old(t).node_count() + idx,
            frame_except(*old(t), *t, day_key.0 as int),
            t.node(day_key).inode == old(t).node(day_key).inode,
            t.node(day_key).name@ == old(t).node(day_key).name@,
            t.node(day_key).file_type == old(t).node(day_key).file_type,
            t.node(day_key).file_type is Directory,
            t.node(day_key).parent == old(t).node(day_key).parent,
            t.root == old(t).root,
            t.node(day_key).children@.len() == idx,
            forall|j: int|
                0 <= j < idx ==> minute_entry_ok(*t, day_key, j, y as int, m as int, d as int),
        decreases 1440 - idx,
    {
        let h: i64 = (idx as i64) / 60;
        let mi: i64 = (idx as i64) % 60;
        let mut name = String::new();
        push_two_digits(&mut name, h);
        name.append("-");
        push_two_digits(&mut name, mi);
        let start: i64 = day_start + (idx as i64) * 60_000;
        let tb = TimeBounds { start_time: start, end_time: start + MINUTE_END_OFFSET_MILLIS };
        proof {
            reveal_strlit("-");
            assert(name@ =~= minute_name(h as int, mi as int));
            assert(tb == minute_window(y as int, m as int, d as int, h as int, mi as int));
            assert forall|c: int| 0 <= c < t.node(day_key).children@.len() implies lex_lt(
                (#[trigger] t.node(day_key).children@[c]).name@,
                name@,
            ) by {
                assert(minute_entry_ok(*t, day_key, c, y as int, m as int, d as int));
                lemma_minute_name_lt(c, idx as int);
            }
            assert forall|c: int| 0 <= c < t.node(day_key).children@.len() implies (
            #[trigger] t.node(day_key).children@[c].name@) != name@ by {
                lemma_lex_lt_irreflexive(name@);
            }
            lemma_lookup_absent(t.node(day_key).children@, name@);
        }
        let ghost t_before = *t;
        let kf = t.create_file(name, tb, Some(day_key));
        proof {
            lemma_created_at_end(
                t_before,
                *t,
                minute_name(h as int, mi as int),
                FileType::File(tb),
                day_key,
                kf,
            );
            assert forall|j: int| 0 <= j < idx + 1 implies minute_entry_ok(
                *t,
                day_key,
                j,
                y as int,
                m as int,
                d as int,
            ) by {
                if j < idx {
                    assert(minute_entry_ok(t_before, day_key, j, y as int, m as int, d as int));
                    let e = t_before.node(day_key).children@[j];
                    assert(t.node(day_key).children@[j] == e);
                    assert(e.key.0 != day_key.0 && (e.key.0 as int) < t_before.node_count());
                    assert(t.nodes@[e.key.0 as int] == t_before.nodes@[e.key.0 as int]);
                } else {
                    lemma_minute_split(h as int, mi as int);
                    assert(t.node(day_key).children@[j].key == kf);
                    assert(t.node(kf).file_type == FileType::File(tb));
                }
            }
        }
        idx = idx + 1;
    }
    proof {
        assert forall|h: int, mi: int| 0 <= h < 24 && 0 <= mi < 60 implies minute_file_ok(
            *t,
            day_key,
            y as int,
            m as int,
            d as int,
            h,
            mi,
        ) by {
            let j = h * 60 + mi;
            lemma_minute_split(h, mi);
            assert(minute_entry_ok(*t, day_key, j, y as int, m as int, d as int));
            assert(t.wf_node(day_key.0 as int));
            lemma_lookup_finds(t.node(day_key).children@, minute_name(h, mi), j);
        }
    }
}

/// `x` names no node of month `m`'s subtree under year directory `ky`.
pub open spec fn off_month_path(t: FileTree, ky: FileKey, m: int, x: int) -> bool {
    0 <= x < t.nodes@.len() && x != ky.0 ==> {
        let xn = t.nodes@[x];
        &&& !(xn.parent == Some(ky) && xn.name@ == two_digits(m))
        &&& (xn.parent matches Some(px) ==> {
            let pn = t.nodes@[px.0 as int];
            &&& !(pn.parent == Some(ky) && pn.name@ == two_digits(m))
            &&& (pn.parent matches Some(ppx) ==> !(t.nodes@[ppx.0 as int].parent == Some(ky)
                && t.nodes@[ppx.0 as int].name@ == two_digits(m)))
        })
    }
}

/// A month's subtree facts survive a change at a node off its path.
pub proof fn lemma_month_ok_frame(
    t1: FileTree,
    t2: FileTree,
    ky: FileKey,
    y: int,
    m: int,
    x: int,
)
    requires
        t1.wf(),
        t1.valid_key(ky),
        month_ok(t1, ky, y, m),
        frame_except(t1, t2, x),
        x == ky.0 ==> t1.nodes@[ky.0 as int].children@.is_prefix_of(
            t2.nodes@[ky.0 as int].children@,
        ),
        off_month_path(t1, ky, m, x),
    ensures
        month_ok(t2, ky, y, m),
{
    let km = entries_lookup(t1.node(ky).children@, two_digits(m))->Some_0;
    lemma_lookup_some_entry(t1.node(ky).children@, two_digits(m));
    assert(t1.wf_node(ky.0 as int));
    assert(t1.nodes@[km.0 as int].parent == Some(ky));
    assert(t1.nodes@[km.0 as int].name@ == two_digits(m));
    assert(km.0 != x) by {
        if 0 <= x < t1.nodes@.len() && x != ky.0 {
            assert(off_month_path(t1, ky, m, x));
        }
    }
    assert(t2.nodes@[km.0 as int] == t1.nodes@[km.0 as int]);
    if x == ky.0 {
        lemma_lookup_prefix(
            t1.nodes@[ky.0 as int].children@,
            t2.nodes@[ky.0 as int].children@,
            two_digits(m),
        );
    } else {
        assert(t2.nodes@[ky.0 as int] == t1.nodes@[ky.0 as int]);
    }
    assert(entries_lookup(t2.node(ky).children@, two_digits(m)) == Some(km));
    assert forall|d: int| 1 <= d <= days_in_month(y, m) implies day_ok(t2, km, y, m, d) by {
        assert(day_ok(t1, km, y, m, d));
        assert(off_day_path(t1, km, d, x)) by {
            if 0 <= x < t1.nodes@.len() && x != km.0 {
                let xn = t1.nodes@[x];
                if xn.parent == Some(km) && xn.name@ == two_digits(d) {
                    if x == ky.0 {
                        assert(t1.wf_node(x));
                        assert(false);
                    } else {
                        assert(off_month_path(t1, ky, m, x));
                        assert(false);
                    }
                }
                match xn.parent {
                    Some(px) => {
                        let pn = t1.nodes@[px.0 as int];
                        if pn.parent == Some(km) && pn.name@ == two_digits(d) {
                            if x == ky.0 {
                                assert(t1.wf_node(x));
                                assert(t1.wf_node(px.0 as int));
                                assert(false);
                            } else {
                                assert(off_month_path(t1, ky, m, x));
                                assert(false);
                            }
                        }
                    },
                    None => {},
                }
            }
        }
        lemma_day_ok_frame(t1, t2, km, y, m, d, x);
    }
}

/// Fill an empty month directory with one day directory per existing
/// civil day, each holding its 1440 minute files. Days that do not exist
/// (such as February 30th) are skipped.
fn build_month_days(t: &mut FileTree, month_key: FileKey, y: i64, m: i64)
    requires
        old(t).wf(),
        old(t).valid_key(month_key),
        old(t).node(month_key).file_type is Directory,
        old(t).node(month_key).children@.len() == 0,
        MIN_YEAR <= y <= MAX_YEAR,
        1 <= m <= 12,
        old(t).node_count() + 44_671 <= usize::MAX,
    ensures
        final(t).wf(),
        old(t).node_count() <= final(t).node_count() <= old(t).node_count() + 44_671,
        frame_except(*old(t), *final(t), month_key.0 as int),
        final(t).node(month_key).inode == old(t).node(month_key).inode,
        final(t).node(month_key).name@ == old(t).node(month_key).name@,
        final(t).node(month_key).file_type == old(t).node(month_key).file_type,
        final(t).node(month_key).parent == old(t).node(month_key).parent,
        final(t).node(month_key).children@.len() == days_in_month(y as int, m as int),
        final(t).root == old(t).root,
        forall|d: int|
            1 <= d <= days_in_month(y as int, m as int) ==> day_ok(
                *final(t),
                month_key,
                y as int,
                m as int,
                d,
            ),
        forall|d: int|
            days_in_month(y as int, m as int) < d <= 31 ==> entries_lookup(
                final(t).node(month_key).children@,
                two_digits(d),
            ) is None,
{
    let dim: i64 = month_days(y, m);
    let mut d: i64 = 1;
    while d <= 31
        invariant
            t.wf(),
            MIN_YEAR <= y <= MAX_YEAR,
            1 <= m <= 12,
            1 <= d <= 32,
            dim == days_in_month(y as int, m as int),
            28 <= dim <= 31,
            month_key.0 < old(t).node_count(),
            old(t).node_count() + 44_671 <= usize::MAX,
            t.node_count() <= old(t).node_count() + (d - 1) * 1441,
            old(t).node_count() <= t.node_count(),
            frame_except(*old(t), *t, month_key.0 as int),
            t.node(month_key).inode == old(t).node(month_key).inode,
            t.node(month_key).name@ == old(t).node(month_key).name@,
            t.node(month_key).file_type == old(t).node(month_key).file_type,
            t.node(month_key).file_type is Directory,
            t.node(month_key).parent == old(t).node(month_key).parent,
            t.root == old(t).root,
            t.node(month_key).children@.len() == (if d - 1 <= dim {
                d - 1
            } else {
                dim as int
            }),
            forall|j: int|
                0 <= j < t.node(month_key).children@.len() ==> (
                #[trigger] t.node(month_key).children@[j].name@) == two_digits(j + 1),
            forall|dd: int|
                1 <= dd < d && dd <= dim ==> day_ok(*t, month_key, y as int, m as int, dd),
        decreases 32 - d,
    {
        if d <= dim {
            proof {
                assert forall|c: int| 0 <= c < t.node(month_key).children@.len() implies lex_lt(
                    (#[trigger] t.node(month_key).children@[c]).name@,
                    two_digits(d as int),
                ) by {
                    lemma_two_digits_order(c + 1, d as int);
                }
                assert forall|c: int| 0 <= c < t.node(month_key).children@.len() implies (
                #[trigger] t.node(month_key).children@[c].name@) != two_digits(d as int) by {
                    lemma_lex_lt_irreflexive(two_digits(d as int));
                }
                lemma_lookup_absent(t.node(month_key).children@, two_digits(d as int));
            }
            let ghost t0 = *t;
            let kd = t.create_directory(two_digit_name(d), Some(month_key));
            proof {
                lemma_created_at_end(
                    t0,
                    *t,
                    two_digits(d as int),
                    FileType::Directory,
                    month_key,
                    kd,
                );
                assert forall|dd: int| 1 <= dd < d && dd <= dim implies day_ok(
                    *t,
                    month_key,
                    y as int,
                    m as int,
                    dd,
                ) by {
                    assert(day_ok(t0, month_key, y as int, m as int, dd));
                    lemma_day_ok_frame(
                        t0,
                        *t,
                        month_key,
                        y as int,
                        m as int,
                        dd,
                        month_key.0 as int,
                    );
                }
            }
            let ghost t1 = *t;
            build_minutes(t, kd, y, m, d);
            proof {
                assert(t.wf_node(month_key.0 as int));
                assert forall|dd: int| 1 <= dd < d && dd <= dim implies day_ok(
                    *t,
                    month_key,
                    y as int,
                    m as int,
                    dd,
                ) by {
                    assert(day_ok(t1, month_key, y as int, m as int, dd));
                    assert(off_day_path(t1, month_key, dd, kd.0 as int)) by {
                        assert(t1.nodes@[kd.0 as int].parent == Some(month_key));
                        assert(t1.nodes@[kd.0 as int].name@ == two_digits(d as int));
                        crate::text::lemma_two_digits_distinct(d as int, dd);
                        assert(t1.wf_node(month_key.0 as int));
                    }
                    lemma_day_ok_frame(t1, *t, month_key, y as int, m as int, dd, kd.0 as int);
                }
                // the new day itself
                let newc = t.node(month_key).children@;
                assert(newc == t1.node(month_key).children@);
                lemma_lookup_finds(newc, two_digits(d as int), newc.len() - 1);
                assert(day_ok(*t, month_key, y as int, m as int, d as int));
                // entry names, shifted by nothing: list unchanged since t1
                assert forall|j: int| 0 <= j < newc.len() implies (#[trigger] newc[j].name@)
                    == two_digits(j + 1) by {
                    if j < newc.len() - 1 {
                        assert(newc[j] == t0.node(month_key).children@[j]);
                    }
                }
            }
        }
        d = d + 1;
    }
    proof {
        assert forall|dd: int|
            days_in_month(y as int, m as int) < dd <= 31 implies entries_lookup(
            t.node(month_key).children@,
            two_digits(dd),
        ) is None by {
            assert forall|c: int| 0 <= c < t.node(month_key).children@.len() implies (
            #[trigger] t.node(month_key).children@[c].name@) != two_digits(dd) by {
                crate::text::lemma_two_digits_distinct(c + 1, dd);
            }
            lemma_lookup_absent(t.node(month_key).children@, two_digits(dd));
        }
    }
}

/// `x` names no node of year `y`'s subtree under the root. The changes
/// the builder makes are always the root's own child list or a fresh
/// year directory, so one level suffices.
pub open spec fn off_year_path(t: FileTree, y: int, x: int) -> bool {
    0 <= x < t.nodes@.len() && x != 0 ==> {
        let xn = t.nodes@[x];
        &&& xn.parent == Some(FileKey(0usize))
        &&& xn.name@ != four_digits(y)
    }
}

/// A year's subtree facts survive adding another year at the root.
pub proof fn lemma_year_ok_frame(t1: FileTree, t2: FileTree, y: int, x: int)
    requires
        t1.wf(),
        year_ok(t1, y),
        frame_except(t1, t2, x),
        x == 0 ==> t1.nodes@[0].children@.is_prefix_of(t2.nodes@[0].children@),
        off_year_path(t1, y, x),
    ensures
        year_ok(t2, y),
{
    let ky = entries_lookup(t1.node(FileKey(0usize)).children@, four_digits(y))->Some_0;
    lemma_lookup_some_entry(t1.node(FileKey(0usize)).children@, four_digits(y));
    assert(t1.wf_node(0));
    assert(t1.nodes@[ky.0 as int].parent == Some(FileKey(0usize)));
    assert(t1.nodes@[ky.0 as int].name@ == four_digits(y));
    assert(ky.0 != x) by {
        if 0 <= x < t1.nodes@.len() && x != 0 {
            assert(off_year_path(t1, y, x));
        }
    }
    assert(t2.nodes@[ky.0 as int] == t1.nodes@[ky.0 as int]);
    if x == 0 {
        lemma_lookup_prefix(t1.nodes@[0].children@, t2.nodes@[0].children@, four_digits(y));
    } else {
        assert(t2.nodes@[0] == t1.nodes@[0]);
    }
    assert(entries_lookup(t2.node(FileKey(0usize)).children@, four_digits(y)) == Some(ky));
    assert forall|m: int| 1 <= m <= 12 implies month_ok(t2, ky, y, m) by {
        assert(month_ok(t1, ky, y, m));
        assert(off_month_path(t1, ky, m, x)) by {
            if 0 <= x < t1.nodes@.len() && x != ky.0 {
                let xn = t1.nodes@[x];
                if x == 0 {
                    assert(t1.wf_node(0));
                    assert(xn.parent is None);
                    assert(0 < ky.0);
                } else {
                    assert(xn.parent == Some(FileKey(0usize)));
                    assert(ky.0 != 0);
                    assert(t1.wf_node(0));
                }
            }
        }
        lemma_month_ok_frame(t1, t2, ky, y, m, x);
    }
}

/// Fill an empty year directory with its twelve months.
fn build_year_months(t: &mut FileTree, year_key: FileKey, y: i64)
    requires
        old(t).wf(),
        old(t).valid_key(year_key),
        old(t).node(year_key).file_type is Directory,
        old(t).node(year_key).children@.len() == 0,
        MIN_YEAR <= y <= MAX_YEAR,
        old(t).node_count() + 536_064 <= usize::MAX,
    ensures
        final(t).wf(),
        old(t).node_count() <= final(t).node_count() <= old(t).node_count() + 536_064,
        frame_except(*old(t), *final(t), year_key.0 as int),
        final(t).node(year_key).inode == old(t).node(year_key).inode,
        final(t).node(year_key).name@ == old(t).node(year_key).name@,
        final(t).node(year_key).file_type == old(t).node(year_key).file_type,
        final(t).node(year_key).parent == old(t).node(year_key).parent,
        final(t).node(year_key).children@.len() == 12,
        final(t).root == old(t).root,
        forall|m: int| 1 <= m <= 12 ==> month_ok(*final(t), year_key, y as int, m),
{
    let mut m: i64 = 1;
    while m <= 12
        invariant
            t.wf(),
            MIN_YEAR <= y <= MAX_YEAR,
            1 <= m <= 13,
            year_key.0 < old(t).node_count(),
            old(t).node_count() + 536_064 <= usize::MAX,
            t.node_count() <= old(t).node_count() + (m - 1) * 44_672,
            old(t).node_count() <= t.node_count(),
            frame_except(*old(t), *t, year_key.0 as int),
            t.node(year_key).inode == old(t).node(year_key).inode,
            t.node(year_key).name@ == old(t).node(year_key).name@,
            t.node(year_key).file_type == old(t).node(year_key).file_type,
            t.node(year_key).file_type is Directory,
            t.node(year_key).parent == old(t).node(year_key).parent,
            t.root == old(t).root,
            t.node(year_key).children@.len() == m - 1,
            forall|j: int|
                0 <= j < t.node(year_key).children@.len() ==> (
                #[trigger] t.node(year_key).children@[j].name@) == two_digits(j + 1),
            forall|mm: int| 1 <= mm < m ==> month_ok(*t, year_key, y as int, mm),
        decreases 13 - m,
    {
        proof {
            assert forall|c: int| 0 <= c < t.node(year_key).children@.len() implies lex_lt(
                (#[trigger] t.node(year_key).children@[c]).name@,
                two_digits(m as int),
            ) by {
                lemma_two_digits_order(c + 1, m as int);
            }
            assert forall|c: int| 0 <= c < t.node(year_key).children@.len() implies (
            #[trigger] t.node(year_key).children@[c].name@) != two_digits(m as int) by {
                lemma_lex_lt_irreflexive(two_digits(m as int));
            }
            lemma_lookup_absent(t.node(year_key).children@, two_digits(m as int));
        }
        let ghost t0 = *t;
        let km = t.create_directory(two_digit_name(m), Some(year_key));
        proof {
            lemma_created_at_end(
                t0,
                *t,
                two_digits(m as int),
                FileType::Directory,
                year_key,
                km,
            );
            assert forall|mm: int| 1 <= mm < m implies month_ok(*t, year_key, y as int, mm) by {
                assert(month_ok(t0, year_key, y as int, mm));
                lemma_month_ok_frame(t0, *t, year_key, y as int, mm, year_key.0 as int);
            }
        }
        let ghost t1 = *t;
        build_month_days(t, km, y, m);
        proof {
            assert(t.wf_node(year_key.0 as int));
            assert forall|mm: int| 1 <= mm < m implies month_ok(*t, year_key, y as int, mm) by {
                assert(month_ok(t1, year_key, y as int, mm));
                assert(off_month_path(t1, year_key, mm, km.0 as int)) by {
                    assert(t1.nodes@[km.0 as int].parent == Some(year_key));
                    assert(t1.nodes@[km.0 as int].name@ == two_digits(m as int));
                    crate::text::lemma_two_digits_distinct(m as int, mm);
                    assert(t1.wf_node(year_key.0 as int));
                    match t1.nodes@[year_key.0 as int].parent {
                        Some(ppx) => {
                            assert(t1.wf_node(ppx.0 as int));
                        },
                        None => {},
                    }
                }
                lemma_month_ok_frame(t1, *t, year_key, y as int, mm, km.0 as int);
            }
            let newc = t.node(year_key).children@;
            assert(newc == t1.node(year_key).children@);
            lemma_lookup_finds(newc, two_digits(m as int), newc.len() - 1);
            assert(month_ok(*t, year_key, y as int, m as int));
            assert forall|j: int| 0 <= j < newc.len() implies (#[trigger] newc[j].name@)
                == two_digits(j + 1) by {
                if j < newc.len() - 1 {
                    assert(newc[j] == t0.node(year_key).children@[j]);
                }
            }
        }
        m = m + 1;
    }
}

/// Build the virtual tree for a time range. The tree spans the full
/// years the range touches: for every year from `start_time`'s to
/// `end_time`'s, every existing civil day appears as `year/MM/DD` with
/// all 1440 `HH-MM` minute files, and days that do not exist are absent.
pub fn create_file_tree_for_time_range(start_time: i64, end_time: i64) -> (r: FileTree)
    requires
        0 <= start_time <= end_time < millis_upper_bound(),
        (millis_year(end_time as int) - millis_year(start_time as int) + 1) * 536_065 + 1
            <= usize::MAX,
    ensures
        r.wf(),
        tree_covers(r, millis_year(start_time as int), millis_year(end_time as int)),
        r.node(FileKey(0usize)).children@.len() == millis_year(end_time as int) - millis_year(
            start_time as int,
        ) + 1,
        forall|j: int|
            0 <= j < r.node(FileKey(0usize)).children@.len() ==> (#[trigger] r.node(
                FileKey(0usize),
            ).children@[j].name@) == four_digits(millis_year(start_time as int) + j),
{
    let ct_start = millis_to_civil(start_time);
    let ct_end = millis_to_civil(end_time);
    let y0: i64 = ct_start.year;
    let y1: i64 = ct_end.year;
    proof {
        crate::calendar::lemma_civil_year(ct_start);
        crate::calendar::lemma_civil_year(ct_end);
        crate::calendar::lemma_millis_year_unique(start_time as int, y0 as int);
        crate::calendar::lemma_millis_year_unique(end_time as int, y1 as int);
        if y0 > y1 {
            crate::calendar::lemma_days_before_year_diff(y1 as int + 1, y0 as int);
            assert(false);
        }
        crate::calendar::lemma_days_before_year_diff(y0 as int, y1 as int + 1);
        vstd::arithmetic::div_mod::lemma_multiply_divide_lt(
            end_time - start_time,
            60_000,
            (crate::calendar::days_before_year(y1 as int + 1) - crate::calendar::days_before_year(
                y0 as int,
            )) * 1440,
        );
        vstd::arithmetic::div_mod::lemma_div_pos_is_pos(end_time - start_time, 60_000);
    }
    let minutes: i64 = (end_time - start_time) / MILLIS_PER_MINUTE;
    let cap: usize = minutes as usize;
    let mut tree = FileTree::new(cap);
    let mut yy: i64 = y0;
    while yy <= y1
        invariant
            tree.wf(),
            MIN_YEAR <= y0 <= yy <= y1 + 1,
            y1 <= MAX_YEAR,
            y0 == millis_year(start_time as int),
            y1 == millis_year(end_time as int),
            (y1 - y0 + 1) * 536_065 + 1 <= usize::MAX,
            tree.node_count() <= 1 + (yy - y0) * 536_065,
            tree.node(FileKey(0usize)).children@.len() == yy - y0,
            tree.node(FileKey(0usize)).file_type is Directory,
            forall|j: int|
                0 <= j < yy - y0 ==> (#[trigger] tree.node(
                    FileKey(0usize),
                ).children@[j].name@) == four_digits(y0 + j),
            forall|yv: int| y0 <= yv < yy ==> year_ok(tree, yv),
        decreases y1 + 1 - yy,
    {
        proof {
            assert forall|c: int| 0 <= c < tree.node(FileKey(0usize)).children@.len() implies
                lex_lt(
                (#[trigger] tree.node(FileKey(0usize)).children@[c]).name@,
                four_digits(yy as int),
            ) by {
                lemma_four_digits_order(y0 + c, yy as int);
            }
            assert forall|c: int| 0 <= c < tree.node(FileKey(0usize)).children@.len() implies (
            #[trigger] tree.node(FileKey(0usize)).children@[c].name@) != four_digits(
                yy as int,
            ) by {
                lemma_lex_lt_irreflexive(four_digits(yy as int));
            }
            lemma_lookup_absent(tree.node(FileKey(0usize)).children@, four_digits(yy as int));
        }
        let ghost t0 = tree;
        let root = tree.get_root();
        let ky = tree.create_directory(four_digit_name(yy), root);
        proof {
            lemma_created_at_end(
                t0,
                tree,
                four_digits(yy as int),
                FileType::Directory,
                FileKey(0),
                ky,
            );
            assert forall|yv: int| y0 <= yv < yy implies year_ok(tree, yv) by {
                assert(year_ok(t0, yv));
                lemma_year_ok_frame(t0, tree, yv, 0);
            }
        }
        let ghost t1 = tree;
        build_year_months(&mut tree, ky, yy);
        proof {
            assert(tree.wf_node(0));
            assert forall|yv: int| y0 <= yv < yy implies year_ok(tree, yv) by {
                assert(year_ok(t1, yv));
                assert(off_year_path(t1, yv, ky.0 as int)) by {
                    assert(t1.nodes@[ky.0 as int].parent == Some(FileKey(0usize)));
                    assert(t1.nodes@[ky.0 as int].name@ == four_digits(yy as int));
                    crate::text::lemma_four_digits_distinct(yy as int, yv);
                }
                lemma_year_ok_frame(t1, tree, yv, ky.0 as int);
            }
            let newc = tree.node(FileKey(0usize)).children@;
            assert(newc == t1.node(FileKey(0usize)).children@);
            lemma_lookup_finds(newc, four_digits(yy as int), newc.len() - 1);
            assert(year_ok(tree, yy as int));
            assert forall|j: int| 0 <= j < newc.len() implies (#[trigger] newc[j].name@)
                == four_digits(y0 + j) by {
                if j < newc.len() - 1 {
                    assert(newc[j] == t0.node(FileKey(0usize)).children@[j]);
                }
            }
        }
        yy = yy + 1;
    }
    tree
}

/// One year of history: how far back from "now" the mounted tree reaches.
pub const LOOKBACK_MILLIS: i64 = 31_536_000_000;

/// Build the tree the mount serves: the range from 365 days before
/// `now_millis` up to `now_millis`.
pub fn prepare_file_tree(now_millis: i64) -> (r: FileTree)
    requires
        LOOKBACK_MILLIS <= now_millis < millis_upper_bound(),
    ensures
        r.wf(),
        tree_covers(
            r,
            millis_year(now_millis - LOOKBACK_MILLIS),
            millis_year(now_millis as int),
        ),
        r.node(FileKey(0usize)).children@.len() == millis_year(now_millis as int) - millis_year(
            now_millis - LOOKBACK_MILLIS,
        ) + 1,
        forall|j: int|
            0 <= j < r.node(FileKey(0usize)).children@.len() ==> (#[trigger] r.node(
                FileKey(0usize),
            ).children@[j].name@) == four_digits(millis_year(now_millis - LOOKBACK_MILLIS) + j),
{
    let start_time = now_millis - LOOKBACK_MILLIS;
    proof {
        crate::calendar::lemma_millis_year(start_time as int);
        crate::calendar::lemma_millis_year(now_millis as int);
        let ys = millis_year(start_time as int);
        let ye = millis_year(now_millis as int);
        if ye > ys + 1 {
            crate::calendar::lemma_days_before_year_diff(ys + 1, ys + 2);
            crate::calendar::lemma_days_before_year_diff(ys + 2, ye);
            assert(false);
        }
        if ye < ys {
            crate::calendar::lemma_days_before_year_diff(ye + 1, ys);
            assert(false);
        }
    }
    create_file_tree_for_time_range(start_time, now_millis)
}

} // verus!
