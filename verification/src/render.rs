//! Merging fetched events and rendering them as the text a minute file
//! shows: events sorted by timestamp (ties keep fan-in order), one
//! `[stream] message` line per event, joined by newlines with no
//! trailing newline.
use vstd::prelude::*;

use crate::events::FilteredLogEvent;

verus! {

/// Events ascend by timestamp.
pub open spec fn sorted_by_ts(s: Seq<FilteredLogEvent>) -> bool {
    forall|i: int, j: int| 0 <= i < j < s.len() ==> (#[trigger] s[i]).timestamp <= (#[trigger] s[j]).timestamp
}

/// Insert `e` after every event whose timestamp is at most `e`'s: the
/// insertion step of a stable sort.
pub open spec fn stable_insert(s: Seq<FilteredLogEvent>, e: FilteredLogEvent) -> Seq<
    FilteredLogEvent,
>
    decreases s.len(),
{
    if s.len() == 0 {
        seq![e]
    } else if s.last().timestamp <= e.timestamp {
        s.push(e)
    } else {
        stable_insert(s.drop_last(), e).push(s.last())
    }
}

/// Stable sort by timestamp: insert each event, in input order, into
/// the sorted run of its predecessors.
pub open spec fn stable_sort_by_ts(s: Seq<FilteredLogEvent>) -> Seq<FilteredLogEvent>
    decreases s.len(),
{
    if s.len() == 0 {
        Seq::empty()
    } else {
        stable_insert(stable_sort_by_ts(s.drop_last()), s.last())
    }
}

proof fn lemma_stable_insert_len(s: Seq<FilteredLogEvent>, e: FilteredLogEvent)
    ensures
        stable_insert(s, e).len() == s.len() + 1,
    decreases s.len(),
{
    if s.len() > 0 && s.last().timestamp > e.timestamp {
        lemma_stable_insert_len(s.drop_last(), e);
    }
}

proof fn lemma_stable_insert_sorted(s: Seq<FilteredLogEvent>, e: FilteredLogEvent)
    requires
        sorted_by_ts(s),
    ensures
        sorted_by_ts(stable_insert(s, e)),
        stable_insert(s, e).to_multiset() == s.to_multiset().insert(e),
    decreases s.len(),
{
    s.to_multiset_ensures();
    if s.len() == 0 {
        assert(stable_insert(s, e) =~= seq![e]);
        assert(seq![e].to_multiset() == s.to_multiset().insert(e)) by {
            seq![e].to_multiset_ensures();
            assert(seq![e].drop_last() =~= Seq::<FilteredLogEvent>::empty());
            assert(s =~= Seq::<FilteredLogEvent>::empty());
        }
    } else if s.last().timestamp <= e.timestamp {
        let r = s.push(e);
        assert(sorted_by_ts(r)) by {
            assert forall|i: int, j: int| 0 <= i < j < r.len() implies (#[trigger] r[i]).timestamp
                <= (#[trigger] r[j]).timestamp by {
                if j < r.len() - 1 {
                    assert(r[i] == s[i] && r[j] == s[j]);
                } else {
                    if i < s.len() - 1 {
                        assert(s[i].timestamp <= s[s.len() - 1].timestamp);
                    }
                }
            }
        }
        s.to_multiset_ensures();
        assert(s.push(e).to_multiset() =~= s.to_multiset().insert(e));
        assert(r.drop_last() =~= s);
    } else {
        let inner = stable_insert(s.drop_last(), e);
        assert(sorted_by_ts(s.drop_last()));
        lemma_stable_insert_sorted(s.drop_last(), e);
        lemma_stable_insert_len(s.drop_last(), e);
        let r = inner.push(s.last());
        // every inserted element is at most the reattached last element
        assert(sorted_by_ts(r)) by {
            lemma_stable_insert_members(s.drop_last(), e);
            assert forall|i: int, j: int| 0 <= i < j < r.len() implies (#[trigger] r[i]).timestamp
                <= (#[trigger] r[j]).timestamp by {
                if j < r.len() - 1 {
                    assert(r[i] == inner[i] && r[j] == inner[j]);
                } else {
                    assert(r[i] == inner[i]);
                }
            }
        }
        inner.to_multiset_ensures();
        s.drop_last().to_multiset_ensures();
        assert(inner.push(s.last()).to_multiset() =~= inner.to_multiset().insert(s.last()));
        assert(s.drop_last().push(s.last()).to_multiset() =~= s.drop_last().to_multiset().insert(
            s.last(),
        ));
        assert(r.to_multiset() == inner.to_multiset().insert(s.last()));
        assert(inner.to_multiset() == s.drop_last().to_multiset().insert(e));
        assert(s.drop_last().push(s.last()) =~= s);
        assert(s.to_multiset() == s.drop_last().to_multiset().insert(s.last()));
        assert(s.drop_last().to_multiset().insert(e).insert(s.last())
            =~= s.drop_last().to_multiset().insert(s.last()).insert(e));
    }
}

/// Every element of `stable_insert(s, e)` is `e` itself or an element
/// of `s`, so its timestamp is bounded by one of theirs.
proof fn lemma_stable_insert_members(s: Seq<FilteredLogEvent>, e: FilteredLogEvent)
    ensures
        forall|i: int|
            0 <= i < stable_insert(s, e).len() ==> (#[trigger] stable_insert(s, e)[i]).timestamp
                <= e.timestamp || exists|j: int|
                0 <= j < s.len() && stable_insert(s, e)[i] == s[j],
    decreases s.len(),
{
    lemma_stable_insert_len(s, e);
    if s.len() == 0 {
    } else if s.last().timestamp <= e.timestamp {
    } else {
        lemma_stable_insert_members(s.drop_last(), e);
        let inner = stable_insert(s.drop_last(), e);
        lemma_stable_insert_len(s.drop_last(), e);
        let r = inner.push(s.last());
        assert forall|i: int| 0 <= i < r.len() implies (#[trigger] r[i]).timestamp <= e.timestamp
            || exists|j: int| 0 <= j < s.len() && r[i] == s[j] by {
            if i < r.len() - 1 {
                assert(r[i] == inner[i]);
                if !(inner[i].timestamp <= e.timestamp) {
                    let j = choose|j: int| 0 <= j < s.drop_last().len() && inner[i] == s.drop_last()[j];
                    assert(r[i] == s[j]);
                }
            } else {
                assert(r[i] == s[s.len() - 1]);
            }
        }
    }
}

/// Ordering law: the stable sort yields a timestamp-ascending
/// rearrangement of its input, so in any rendered blob each line's
/// event timestamp is at least the previous line's.
pub proof fn lemma_stable_sort_ordered(s: Seq<FilteredLogEvent>)
    ensures
        sorted_by_ts(stable_sort_by_ts(s)),
        stable_sort_by_ts(s).to_multiset() == s.to_multiset(),
        stable_sort_by_ts(s).len() == s.len(),
    decreases s.len(),
{
    s.to_multiset_ensures();
    if s.len() == 0 {
        assert(stable_sort_by_ts(s) =~= Seq::<FilteredLogEvent>::empty());
        assert(s =~= Seq::<FilteredLogEvent>::empty());
    } else {
        lemma_stable_sort_ordered(s.drop_last());
        lemma_stable_insert_sorted(stable_sort_by_ts(s.drop_last()), s.last());
        lemma_stable_insert_len(stable_sort_by_ts(s.drop_last()), s.last());
        s.drop_last().to_multiset_ensures();
        assert(s.drop_last().push(s.last()) =~= s);
        assert(s.drop_last().push(s.last()).to_multiset() =~= s.drop_last().to_multiset().insert(
            s.last(),
        ));
        assert(stable_sort_by_ts(s.drop_last()).to_multiset().insert(s.last())
            =~= s.drop_last().to_multiset().insert(s.last()));
        assert(stable_sort_by_ts(s).to_multiset() =~= s.to_multiset());
    }
}

/// The rendered line for one event.
pub open spec fn render_line(e: FilteredLogEvent) -> Seq<char> {
    seq!['['] + e.log_stream_name@ + seq![']', ' '] + e.message@
}

/// The rendered text for a run of events: lines joined by a single
/// newline, no trailing newline.
pub open spec fn render_events(s: Seq<FilteredLogEvent>) -> Seq<char>
    decreases s.len(),
{
    if s.len() == 0 {
        Seq::empty()
    } else if s.len() == 1 {
        render_line(s[0])
    } else {
        render_events(s.drop_last()) + seq!['\n'] + render_line(s.last())
    }
}

/// Insert one event into a timestamp-sorted vector, after all events
/// with an equal or smaller timestamp.
fn insert_event(out: &mut Vec<FilteredLogEvent>, e: FilteredLogEvent)
    ensures
        final(out)@ == stable_insert(old(out)@, e),
{
    let mut i: usize = out.len();
    while i > 0 && out[i - 1].timestamp > e.timestamp
        invariant
            i <= out@.len(),
            out@ == old(out)@,
            forall|j: int| i <= j < out@.len() ==> (#[trigger] out@[j]).timestamp > e.timestamp,
        decreases i,
    {
        i = i - 1;
    }
    proof {
        lemma_stable_insert_splits(out@, e, i as int);
    }
    out.insert(i, e);
}

/// Where the scan stops is where `stable_insert` puts the element.
proof fn lemma_stable_insert_splits(s: Seq<FilteredLogEvent>, e: FilteredLogEvent, i: int)
    requires
        0 <= i <= s.len(),
        forall|j: int| i <= j < s.len() ==> (#[trigger] s[j]).timestamp > e.timestamp,
        i > 0 ==> s[i - 1].timestamp <= e.timestamp,
    ensures
        stable_insert(s, e) == s.insert(i, e),
    decreases s.len() - i,
{
    if i == s.len() {
        if s.len() == 0 {
            assert(stable_insert(s, e) =~= s.insert(i, e));
        } else {
            assert(s.insert(i, e) =~= s.push(e));
        }
    } else {
        assert(s.last().timestamp > e.timestamp);
        lemma_stable_insert_splits(s.drop_last(), e, i);
        assert(stable_insert(s, e) == stable_insert(s.drop_last(), e).push(s.last()));
        assert(s.drop_last().insert(i, e).push(s.last()) =~= s.insert(i, e));
    }
}

/// Stable-sort a vector of events by timestamp.
pub fn sort_events_by_timestamp(events: Vec<FilteredLogEvent>) -> (r: Vec<FilteredLogEvent>)
    ensures
        r@ == stable_sort_by_ts(events@),
{
    let ghost input = events@;
    let mut stack = events;
    let mut rev: Vec<FilteredLogEvent> = Vec::new();
    while stack.len() > 0
        invariant
            rev@.len() + stack@.len() == input.len(),
            forall|i: int| 0 <= i < stack@.len() ==> #[trigger] stack@[i] == input[i],
            forall|i: int|
                0 <= i < rev@.len() ==> #[trigger] rev@[i] == input[input.len() - 1 - i],
        decreases stack@.len(),
    {
        let e = stack.pop().unwrap();
        rev.push(e);
    }
    let mut out: Vec<FilteredLogEvent> = Vec::new();
    let ghost done: int = 0;
    while rev.len() > 0
        invariant
            done == input.len() - rev@.len(),
            0 <= done <= input.len(),
            forall|i: int|
                0 <= i < rev@.len() ==> #[trigger] rev@[i] == input[input.len() - 1 - i],
            out@ == stable_sort_by_ts(input.subrange(0, done)),
        decreases rev@.len(),
    {
        let e = rev.pop().unwrap();
        proof {
            assert(e == input[done]);
            assert(input.subrange(0, done + 1).drop_last() =~= input.subrange(0, done));
            assert(input.subrange(0, done + 1).last() == input[done]);
        }
        insert_event(&mut out, e);
        proof {
            done = done + 1;
        }
    }
    proof {
        assert(input.subrange(0, input.len() as int) =~= input);
    }
    out
}

/// Render sorted events into the minute file's text.
fn render_to_text(events: &Vec<FilteredLogEvent>) -> (r: String)
    ensures
        r@ == render_events(events@),
{
    let mut out = String::new();
    let n = events.len();
    let mut i: usize = 0;
    while i < n
        invariant
            n == events@.len(),
            i <= n,
            out@ == render_events(events@.subrange(0, i as int)),
        decreases n - i,
    {
        proof {
            reveal_strlit("[");
            reveal_strlit("] ");
            reveal_strlit("\n");
        }
        if i > 0 {
            out.append("\n");
        }
        out.append("[");
        out.append(events[i].log_stream_name.as_str());
        out.append("] ");
        out.append(events[i].message.as_str());
        proof {
            let pre = events@.subrange(0, i as int);
            let cur = events@.subrange(0, i + 1 as int);
            assert(cur.drop_last() =~= pre);
            assert(cur.last() == events@[i as int]);
            if i == 0 {
                assert(out@ =~= render_line(events@[0]));
                assert(cur.len() == 1 && cur[0] == events@[0]);
            } else {
                assert(out@ =~= render_events(pre) + seq!['\n'] + render_line(events@[i as int]));
            }
        }
        i = i + 1;
    }
    proof {
        assert(events@.subrange(0, n as int) =~= events@);
    }
    out
}

/// Merge per-group event runs, sort them stably by timestamp, and
/// render the result as UTF-8 bytes. The groups' order is the fan-in
/// order that breaks timestamp ties.
pub fn merge_and_render(groups: Vec<Vec<FilteredLogEvent>>) -> (r: Vec<u8>)
    ensures
        r@ == vstd::utf8::encode_utf8(
            render_events(
                stable_sort_by_ts(groups@.map_values(|v: Vec<FilteredLogEvent>| v@).flatten()),
            ),
        ),
        sorted_by_ts(stable_sort_by_ts(groups@.map_values(|v: Vec<FilteredLogEvent>| v@).flatten())),
{
    let ghost gs = groups@.map_values(|v: Vec<FilteredLogEvent>| v@);
    let mut stack = groups;
    let mut rev: Vec<Vec<FilteredLogEvent>> = Vec::new();
    while stack.len() > 0
        invariant
            rev@.len() + stack@.len() == gs.len(),
            forall|i: int| 0 <= i < stack@.len() ==> (#[trigger] stack@[i])@ == gs[i],
            forall|i: int|
                0 <= i < rev@.len() ==> (#[trigger] rev@[i])@ == gs[gs.len() - 1 - i],
        decreases stack@.len(),
    {
        let g = stack.pop().unwrap();
        rev.push(g);
    }
    let mut all: Vec<FilteredLogEvent> = Vec::new();
    let ghost taken: int = 0;
    while rev.len() > 0
        invariant
            taken == gs.len() - rev@.len(),
            0 <= taken <= gs.len(),
            forall|i: int|
                0 <= i < rev@.len() ==> (#[trigger] rev@[i])@ == gs[gs.len() - 1 - i],
            all@ == gs.subrange(0, taken).flatten(),
        decreases rev@.len(),
    {
        let mut g = rev.pop().unwrap();
        proof {
            assert(g@ == gs[taken]);
        }
        all.append(&mut g);
        proof {
            gs.subrange(0, taken).lemma_flatten_push(gs[taken]);
            assert(gs.subrange(0, taken).push(gs[taken]) =~= gs.subrange(0, taken + 1));
            taken = taken + 1;
        }
    }
    proof {
        assert(gs.subrange(0, gs.len() as int) =~= gs);
        lemma_stable_sort_ordered(gs.flatten());
    }
    let sorted = sort_events_by_timestamp(all);
    let text = render_to_text(&sorted);
    text.as_str().as_bytes_vec()
}

} // verus!
