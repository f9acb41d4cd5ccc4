//! Event lists of one topic: newest-first ordering, paging, removal, and
//! picking the imported events that are not stored yet.
use vstd::prelude::*;
use vstd::seq_lib::group_to_multiset_ensures;
use vstd::multiset::Multiset;
use crate::counts::EventRow;

verus! {

broadcast use group_to_multiset_ensures;

impl Clone for EventRow {
    fn clone(&self) -> (res: EventRow)
        ensures
            res == *self,
    {
        EventRow {
            id: self.id.clone(),
            topic_id: self.topic_id.clone(),
            timestamp: self.timestamp.clone(),
            timestamp_ms: self.timestamp_ms,
        }
    }
}

/// Every event comes no later than the one before it.
pub open spec fn newest_first(rows: Seq<EventRow>) -> bool {
    forall|i: int, j: int| 0 <= i < j < rows.len() ==> rows[i].timestamp_ms >= rows[j].timestamp_ms
}

/// `x` put into a newest-first list just before the first event that is not
/// newer than it.
pub open spec fn insert_newest_first(x: EventRow, s: Seq<EventRow>) -> Seq<EventRow>
    decreases s.len(),
{
    if s.len() == 0 {
        seq![x]
    } else if s[0].timestamp_ms > x.timestamp_ms {
        seq![s[0]] + insert_newest_first(x, s.drop_first())
    } else {
        seq![x] + s
    }
}

/// The events in newest-first order, events with equal times keeping their
/// order: the stable sort by `timestamp_ms`, descending.
pub open spec fn newest_first_order(s: Seq<EventRow>) -> Seq<EventRow>
    decreases s.len(),
{
    if s.len() == 0 {
        Seq::empty()
    } else {
        insert_newest_first(s[0], newest_first_order(s.drop_first()))
    }
}

proof fn lemma_insert_newest_first_at(x: EventRow, s: Seq<EventRow>, k: int)
    requires
        0 <= k <= s.len(),
        forall|i: int| 0 <= i < k ==> s[i].timestamp_ms > x.timestamp_ms,
        k < s.len() ==> s[k].timestamp_ms <= x.timestamp_ms,
    ensures
        insert_newest_first(x, s) == s.insert(k, x),
    decreases k,
{
    if k == 0 {
        assert(seq![x] + s =~= s.insert(0, x));
    } else {
        lemma_insert_newest_first_at(x, s.drop_first(), k - 1);
        assert(seq![s[0]] + s.drop_first().insert(k - 1, x) =~= s.insert(k, x));
    }
}

/// The events at time `t`.
pub open spec fn at_time(t: i64) -> spec_fn(EventRow) -> bool {
    |e: EventRow| e.timestamp_ms == t
}

/// Filtering a concatenation filters each part.
pub proof fn lemma_filter_concat(a: Seq<EventRow>, b: Seq<EventRow>, p: spec_fn(EventRow) -> bool)
    ensures
        (a + b).filter(p) == a.filter(p) + b.filter(p),
    decreases b.len(),
{
    reveal(Seq::filter);
    if b.len() == 0 {
        assert(a + b =~= a);
        assert(a.filter(p) + b.filter(p) =~= a.filter(p));
    } else {
        lemma_filter_concat(a, b.drop_last(), p);
        assert((a + b).drop_last() =~= a + b.drop_last());
        assert((a + b).last() == b.last());
        if p(b.last()) {
            assert(a.filter(p) + b.drop_last().filter(p).push(b.last()) =~= (a.filter(p)
                + b.drop_last().filter(p)).push(b.last()));
        }
    }
}

/// Filtering a list with one more event in front.
pub proof fn lemma_filter_cons(x: EventRow, s: Seq<EventRow>, p: spec_fn(EventRow) -> bool)
    ensures
        (seq![x] + s).filter(p) == if p(x) {
            seq![x] + s.filter(p)
        } else {
            s.filter(p)
        },
{
    lemma_filter_concat(seq![x], s, p);
    reveal(Seq::filter);
    assert(seq![x].drop_last() =~= Seq::<EventRow>::empty());
    assert(Seq::<EventRow>::empty().filter(p) =~= Seq::<EventRow>::empty());
    if p(x) {
        assert(seq![x].filter(p) =~= seq![x]);
    } else {
        assert(seq![x].filter(p) =~= Seq::<EventRow>::empty());
        assert(Seq::<EventRow>::empty() + s.filter(p) =~= s.filter(p));
    }
}

/// Inserting `x` puts it before every event of its own time.
proof fn lemma_insert_newest_first_at_time(x: EventRow, s: Seq<EventRow>, t: i64)
    ensures
        insert_newest_first(x, s).filter(at_time(t)) == if x.timestamp_ms == t {
            seq![x] + s.filter(at_time(t))
        } else {
            s.filter(at_time(t))
        },
    decreases s.len(),
{
    let p = at_time(t);
    if s.len() == 0 {
        lemma_filter_cons(x, s, p);
        assert(seq![x] + s =~= seq![x]);
    } else if s[0].timestamp_ms > x.timestamp_ms {
        let rest = s.drop_first();
        lemma_insert_newest_first_at_time(x, rest, t);
        lemma_filter_cons(s[0], insert_newest_first(x, rest), p);
        lemma_filter_cons(s[0], rest, p);
        assert(seq![s[0]] + rest =~= s);
        if x.timestamp_ms == t {
            assert(seq![x] + (seq![s[0]] + rest).filter(p) == seq![x] + rest.filter(p));
        }
    } else {
        lemma_filter_cons(x, s, p);
    }
}

/// The newest-first order is stable: the events of any one time come out in
/// the order they came in.
pub proof fn law_newest_first_keeps_order_of_equal_times(rows: Seq<EventRow>, t: i64)
    ensures
        newest_first_order(rows).filter(at_time(t)) == rows.filter(at_time(t)),
    decreases rows.len(),
{
    if rows.len() == 0 {
        assert(newest_first_order(rows) =~= rows);
    } else {
        let rest = rows.drop_first();
        law_newest_first_keeps_order_of_equal_times(rest, t);
        lemma_insert_newest_first_at_time(rows[0], newest_first_order(rest), t);
        lemma_filter_cons(rows[0], rest, at_time(t));
        assert(seq![rows[0]] + rest =~= rows);
    }
}

/// The events ordered newest first (by `timestamp_ms`, descending); events
/// with equal times keep their order.
pub fn sort_newest_first(rows: Vec<EventRow>) -> (res: Vec<EventRow>)
    ensures
        res@ == newest_first_order(rows@),
        newest_first(res@),
        res@.to_multiset() == rows@.to_multiset(),
{
    let ghost input = rows@;
    let mut rest = rows;
    let mut res: Vec<EventRow> = Vec::new();
    while rest.len() > 0
        invariant
            newest_first(res@),
            res@.to_multiset().add(rest@.to_multiset()) == input.to_multiset(),
            rest@.len() <= input.len(),
            rest@ == input.take(rest@.len() as int),
            res@ == newest_first_order(input.skip(rest@.len() as int)),
        decreases rest.len(),
    {
        let ghost before = rest@;
        let x = rest.pop().unwrap();
        assert(before =~= rest@.push(x));
        proof {
            let n = rest@.len() as int;
            assert(rest@ =~= input.take(n));
            assert(input.skip(n).drop_first() =~= input.skip(n + 1));
            assert(input.skip(n)[0] == x);
        }
        let mut k: usize = 0;
        while k < res.len() && res[k].timestamp_ms > x.timestamp_ms
            invariant
                k <= res@.len(),
                forall|i: int| 0 <= i < k ==> res@[i].timestamp_ms > x.timestamp_ms,
            decreases res.len() - k,
        {
            k = k + 1;
        }
        let ghost old_res = res@;
        proof {
            lemma_insert_newest_first_at(x, old_res, k as int);
        }
        res.insert(k, x);
        assert(forall|i: int| k < i < res@.len() ==> res@[i] == old_res[i - 1]);
        assert(forall|i: int| 0 <= i < k ==> res@[i] == old_res[i]);
        assert(newest_first(res@)) by {
            assert forall|i: int, j: int| 0 <= i < j < res@.len() implies res@[i].timestamp_ms
                >= res@[j].timestamp_ms by {
                if j == k {
                } else if i == k {
                    assert(res@[j] == old_res[j - 1]);
                    assert(old_res[k as int].timestamp_ms <= x.timestamp_ms);
                    if j - 1 > k {
                        assert(old_res[k as int].timestamp_ms >= old_res[j - 1].timestamp_ms);
                    }
                } else if i < k && j > k {
                    assert(res@[j] == old_res[j - 1]);
                } else if j < k {
                } else {
                    assert(res@[j] == old_res[j - 1]);
                    assert(res@[i] == old_res[i - 1]);
                }
            }
        }
        assert(res@.to_multiset() =~= old_res.to_multiset().insert(x));
        assert(before.to_multiset() =~= rest@.to_multiset().insert(x));
        assert(res@.to_multiset().add(rest@.to_multiset()) =~= input.to_multiset());
    }
    assert(rest@.to_multiset() =~= Multiset::empty());
    assert(res@.to_multiset() =~= input.to_multiset());
    assert(input.skip(0) =~= input);
    res
}

} // verus!

verus! {

/// How many events a page of the event list grows by.
pub const PAGE_SIZE: usize = 50;

/// The first `end` events of the list (all of them where there are fewer).
pub fn page(all: &[EventRow], end: usize) -> (res: Vec<EventRow>)
    ensures
        res@ == all@.take(if end < all@.len() { end as int } else { all@.len() as int }),
{
    let n = if end < all.len() {
        end
    } else {
        all.len()
    };
    let mut res: Vec<EventRow> = Vec::new();
    let mut i: usize = 0;
    while i < n
        invariant
            i <= n <= all@.len(),
            res@ == all@.take(i as int),
        decreases n - i,
    {
        res.push(all[i].clone());
        i = i + 1;
        assert(res@ =~= all@.take(i as int));
    }
    res
}

/// The events whose identifier is not `id`, in their order.
pub open spec fn without_id(rows: Seq<EventRow>, id: Seq<char>) -> Seq<EventRow>
    decreases rows.len(),
{
    if rows.len() == 0 {
        Seq::empty()
    } else {
        let rest = without_id(rows.drop_last(), id);
        if rows.last().id@ == id {
            rest
        } else {
            rest.push(rows.last())
        }
    }
}

/// Removes every event with identifier `id`, keeping the others in order.
pub fn remove_event(rows: &[EventRow], id: &str) -> (res: Vec<EventRow>)
    ensures
        res@ == without_id(rows@, id@),
{
    let key = String::from_str(id);
    let mut res: Vec<EventRow> = Vec::new();
    let mut i: usize = 0;
    while i < rows.len()
        invariant
            i <= rows@.len(),
            key@ == id@,
            res@ == without_id(rows@.take(i as int), id@),
        decreases rows.len() - i,
    {
        assert(rows@.take(i + 1).drop_last() =~= rows@.take(i as int));
        if rows[i].id != key {
            res.push(rows[i].clone());
        }
        i = i + 1;
    }
    assert(rows@.take(i as int) =~= rows@);
    res
}

/// Some stored event has the timestamp `t`.
pub open spec fn has_timestamp(rows: Seq<EventRow>, t: Seq<char>) -> bool {
    exists|i: int| 0 <= i < rows.len() && rows[i].timestamp@ == t
}

/// The imported events to keep, in their order: each one whose timestamp no
/// stored event has and no earlier imported event has, so that every new
/// timestamp of the import is added once.
pub open spec fn fresh_rows(existing: Seq<EventRow>, incoming: Seq<EventRow>) -> Seq<EventRow>
    decreases incoming.len(),
{
    if incoming.len() == 0 {
        Seq::empty()
    } else {
        let rest = fresh_rows(existing, incoming.drop_last());
        let t = incoming.last().timestamp@;
        if has_timestamp(existing, t) || has_timestamp(incoming.drop_last(), t) {
            rest
        } else {
            rest.push(incoming.last())
        }
    }
}

/// Whether one of the first `end` events of `rows` has the timestamp of `row`.
fn timestamp_among(rows: &[EventRow], end: usize, row: &EventRow) -> (res: bool)
    requires
        end <= rows@.len(),
    ensures
        res == has_timestamp(rows@.take(end as int), row.timestamp@),
{
    let mut j: usize = 0;
    while j < end
        invariant
            j <= end <= rows@.len(),
            forall|k: int| 0 <= k < j ==> rows@[k].timestamp@ != row.timestamp@,
        decreases end - j,
    {
        if rows[j].timestamp == row.timestamp {
            assert(rows@.take(end as int)[j as int] == rows@[j as int]);
            return true;
        }
        j = j + 1;
    }
    proof {
        if has_timestamp(rows@.take(end as int), row.timestamp@) {
            let k = choose|k: int|
                0 <= k < rows@.take(end as int).len() && rows@.take(end as int)[k].timestamp@
                    == row.timestamp@;
            assert(rows@.take(end as int)[k] == rows@[k]);
        }
    }
    false
}

/// The imported events to add to a topic: those whose timestamp neither the
/// topic's stored events nor an earlier imported event has, in their order,
/// each moved to `topic_id`.
pub fn select_new_rows(existing: &[EventRow], incoming: &[EventRow], topic_id: &str) -> (res: Vec<
    EventRow,
>)
    ensures
        res@.len() == fresh_rows(existing@, incoming@).len(),
        forall|i: int|
            0 <= i < res@.len() ==> {
                let f = #[trigger] fresh_rows(existing@, incoming@)[i];
                &&& res@[i].id == f.id
                &&& res@[i].timestamp == f.timestamp
                &&& res@[i].timestamp_ms == f.timestamp_ms
                &&& res@[i].topic_id@ == topic_id@
            },
{
    let mut res: Vec<EventRow> = Vec::new();
    let mut i: usize = 0;
    while i < incoming.len()
        invariant
            i <= incoming@.len(),
            res@.len() == fresh_rows(existing@, incoming@.take(i as int)).len(),
            forall|k: int|
                0 <= k < res@.len() ==> {
                    let f = #[trigger] fresh_rows(existing@, incoming@.take(i as int))[k];
                    &&& res@[k].id == f.id
                    &&& res@[k].timestamp == f.timestamp
                    &&& res@[k].timestamp_ms == f.timestamp_ms
                    &&& res@[k].topic_id@ == topic_id@
                },
        decreases incoming.len() - i,
    {
        assert(incoming@.take(i + 1).drop_last() =~= incoming@.take(i as int));
        assert(incoming@.take(i + 1).last() == incoming@[i as int]);
        assert(existing@.take(existing@.len() as int) =~= existing@);
        let stored = timestamp_among(existing, existing.len(), &incoming[i]);
        let earlier = timestamp_among(incoming, i, &incoming[i]);
        if !stored && !earlier {
            let row = &incoming[i];
            res.push(
                EventRow {
                    id: row.id.clone(),
                    topic_id: String::from_str(topic_id),
                    timestamp: row.timestamp.clone(),
                    timestamp_ms: row.timestamp_ms,
                },
            );
        }
        i = i + 1;
    }
    assert(incoming@.take(i as int) =~= incoming@);
    res
}

/// Every imported timestamp is either stored already or carried by one of the
/// events the import adds.
pub proof fn lemma_fresh_rows_cover(existing: Seq<EventRow>, incoming: Seq<EventRow>, j: int)
    requires
        0 <= j < incoming.len(),
    ensures
        has_timestamp(existing, incoming[j].timestamp@) || exists|k: int|
            0 <= k < fresh_rows(existing, incoming).len() && (#[trigger] fresh_rows(
                existing,
                incoming,
            )[k]).timestamp@ == incoming[j].timestamp@,
    decreases incoming.len(),
{
    let front = incoming.drop_last();
    let rest = fresh_rows(existing, front);
    let t = incoming[j].timestamp@;
    if j < incoming.len() - 1 {
        lemma_fresh_rows_cover(existing, front, j);
        if !has_timestamp(existing, t) {
            let k = choose|k: int|
                0 <= k < rest.len() && (#[trigger] rest[k]).timestamp@ == front[j].timestamp@;
            assert(fresh_rows(existing, incoming)[k] == rest[k]);
        }
    } else if !has_timestamp(existing, t) {
        if has_timestamp(front, t) {
            let i = choose|i: int| 0 <= i < front.len() && front[i].timestamp@ == t;
            lemma_fresh_rows_cover(existing, front, i);
            let k = choose|k: int|
                0 <= k < rest.len() && (#[trigger] rest[k]).timestamp@ == front[i].timestamp@;
            assert(fresh_rows(existing, incoming)[k] == rest[k]);
        } else {
            assert(fresh_rows(existing, incoming)[rest.len() as int] == incoming[j]);
        }
    }
}

/// Every event the import adds is one of the imported events.
proof fn lemma_fresh_rows_from_incoming(existing: Seq<EventRow>, incoming: Seq<EventRow>, k: int)
    requires
        0 <= k < fresh_rows(existing, incoming).len(),
    ensures
        exists|j: int|
            0 <= j < incoming.len() && #[trigger] incoming[j] == fresh_rows(existing, incoming)[k],
    decreases incoming.len(),
{
    let front = incoming.drop_last();
    let rest = fresh_rows(existing, front);
    if k < rest.len() {
        lemma_fresh_rows_from_incoming(existing, front, k);
        let j = choose|j: int| 0 <= j < front.len() && #[trigger] front[j] == rest[k];
        assert(incoming[j] == front[j]);
        assert(fresh_rows(existing, incoming)[k] == rest[k]);
    } else {
        assert(incoming[incoming.len() - 1] == fresh_rows(existing, incoming)[k]);
    }
}

/// An import adds one event for each new timestamp: every added event has a
/// timestamp that no stored event has, no two added events share a
/// timestamp, every added event is one of the imported ones, and every
/// imported timestamp is stored already or carried by an added event.
pub proof fn law_import_adds_one_row_per_new_timestamp(
    existing: Seq<EventRow>,
    incoming: Seq<EventRow>,
)
    ensures
        forall|k: int|
            0 <= k < fresh_rows(existing, incoming).len() ==> !has_timestamp(
                existing,
                (#[trigger] fresh_rows(existing, incoming)[k]).timestamp@,
            ),
        forall|k: int, l: int|
            0 <= k < l < fresh_rows(existing, incoming).len() ==> (#[trigger] fresh_rows(
                existing,
                incoming,
            )[k]).timestamp@ != (#[trigger] fresh_rows(existing, incoming)[l]).timestamp@,
        forall|k: int|
            #![trigger fresh_rows(existing, incoming)[k]]
            0 <= k < fresh_rows(existing, incoming).len() ==> exists|j: int|
                0 <= j < incoming.len() && #[trigger] incoming[j] == fresh_rows(
                    existing,
                    incoming,
                )[k],
        forall|j: int|
            0 <= j < incoming.len() ==> has_timestamp(existing, (#[trigger] incoming[j]).timestamp@)
                || exists|k: int|
                0 <= k < fresh_rows(existing, incoming).len() && (#[trigger] fresh_rows(
                    existing,
                    incoming,
                )[k]).timestamp@ == incoming[j].timestamp@,
    decreases incoming.len(),
{
    let fresh = fresh_rows(existing, incoming);
    assert forall|k: int| #![trigger fresh[k]] 0 <= k < fresh.len() implies exists|j: int|
        0 <= j < incoming.len() && #[trigger] incoming[j] == fresh[k] by {
        lemma_fresh_rows_from_incoming(existing, incoming, k);
    }
    assert forall|j: int| 0 <= j < incoming.len() implies has_timestamp(
        existing,
        (#[trigger] incoming[j]).timestamp@,
    ) || exists|k: int| 0 <= k < fresh.len() && (#[trigger] fresh[k]).timestamp@
        == incoming[j].timestamp@ by {
        lemma_fresh_rows_cover(existing, incoming, j);
    }
    if incoming.len() > 0 {
        let front = incoming.drop_last();
        let rest = fresh_rows(existing, front);
        law_import_adds_one_row_per_new_timestamp(existing, front);
        let t = incoming.last().timestamp@;
        if !(has_timestamp(existing, t) || has_timestamp(front, t)) {
            assert forall|k: int| 0 <= k < fresh.len() implies !has_timestamp(
                existing,
                (#[trigger] fresh[k]).timestamp@,
            ) by {
                if k < rest.len() {
                    assert(fresh[k] == rest[k]);
                }
            }
            assert forall|k: int, l: int|
                0 <= k < l < fresh.len() implies (#[trigger] fresh[k]).timestamp@
                != (#[trigger] fresh[l]).timestamp@ by {
                assert(fresh[k] == rest[k]);
                if l < rest.len() {
                    assert(fresh[l] == rest[l]);
                } else {
                    lemma_fresh_rows_from_incoming(existing, front, k);
                    let j = choose|j: int| 0 <= j < front.len() && #[trigger] front[j] == rest[k];
                    assert(fresh[l] == incoming.last());
                    if rest[k].timestamp@ == t {
                        assert(front[j].timestamp@ == t);
                        assert(has_timestamp(front, t));
                    }
                }
            }
        } else {
            assert(fresh == rest);
        }
    }
}

/// No imported event is fresh once every imported timestamp is stored.
proof fn lemma_no_fresh_rows(existing: Seq<EventRow>, incoming: Seq<EventRow>)
    requires
        forall|j: int|
            0 <= j < incoming.len() ==> has_timestamp(existing, #[trigger] incoming[j].timestamp@),
    ensures
        fresh_rows(existing, incoming).len() == 0,
    decreases incoming.len(),
{
    if incoming.len() > 0 {
        lemma_no_fresh_rows(existing, incoming.drop_last());
        assert(has_timestamp(existing, incoming[incoming.len() - 1].timestamp@));
    }
}

/// Importing the same events a second time adds nothing: once the fresh
/// events of an import are stored (under any identifiers and topic), none of
/// the imported events is fresh any more.
pub proof fn law_reimport_adds_nothing(
    existing: Seq<EventRow>,
    incoming: Seq<EventRow>,
    added: Seq<EventRow>,
)
    requires
        added.len() == fresh_rows(existing, incoming).len(),
        forall|i: int|
            0 <= i < added.len() ==> #[trigger] added[i].timestamp@ == fresh_rows(
                existing,
                incoming,
            )[i].timestamp@,
    ensures
        fresh_rows(existing + added, incoming).len() == 0,
{
    let stored = existing + added;
    assert forall|j: int| 0 <= j < incoming.len() implies has_timestamp(
        stored,
        #[trigger] incoming[j].timestamp@,
    ) by {
        lemma_fresh_rows_cover(existing, incoming, j);
        if has_timestamp(existing, incoming[j].timestamp@) {
            let i = choose|i: int|
                0 <= i < existing.len() && existing[i].timestamp@ == incoming[j].timestamp@;
            assert(stored[i] == existing[i]);
        } else {
            let k = choose|k: int|
                0 <= k < fresh_rows(existing, incoming).len() && (#[trigger] fresh_rows(
                    existing,
                    incoming,
                )[k]).timestamp@ == incoming[j].timestamp@;
            assert(stored[existing.len() + k] == added[k]);
        }
    }
    lemma_no_fresh_rows(stored, incoming);
}

} // verus!

verus! {

/// The topic name of an imported file: its name without a final `.txt`.
pub open spec fn name_without_txt(file: Seq<char>) -> Seq<char> {
    if file.len() >= 4 && file.skip(file.len() - 4) == seq!['.', 't', 'x', 't'] {
        file.take(file.len() - 4)
    } else {
        file
    }
}

/// The topic name for an imported file: the file name without a final `.txt`.
pub fn topic_name_from_file(file: &str) -> (res: &str)
    ensures
        res@ == name_without_txt(file@),
{
    let n = file.unicode_len();
    if n >= 4 && file.get_char(n - 4) == '.' && file.get_char(n - 3) == 't' && file.get_char(n - 2)
        == 'x' && file.get_char(n - 1) == 't' {
        assert(file@.skip(n - 4) =~= seq!['.', 't', 'x', 't']);
        file.substring_char(0, n - 4)
    } else {
        proof {
            if n >= 4 && file@.skip(n - 4) == seq!['.', 't', 'x', 't'] {
                assert(file@[n - 4] == file@.skip(n - 4)[0]);
                assert(file@[n - 3] == file@.skip(n - 4)[1]);
                assert(file@[n - 2] == file@.skip(n - 4)[2]);
                assert(file@[n - 1] == file@.skip(n - 4)[3]);
            }
        }
        assert(file@.subrange(0, n as int) =~= file@);
        file.substring_char(0, n)
    }
}

/// The topic name of a file `<name>.txt` is `<name>`, and a file whose name
/// does not end in `.txt` gives its whole name: putting `.txt` back onto the
/// topic name of a `.txt` file gives the file name again.
pub proof fn law_topic_name_drops_only_the_txt_ending(name: Seq<char>, file: Seq<char>)
    ensures
        name_without_txt(name + seq!['.', 't', 'x', 't']) == name,
        !(file.len() >= 4 && file.skip(file.len() - 4) == seq!['.', 't', 'x', 't'])
            ==> name_without_txt(file) == file,
{
    let f = name + seq!['.', 't', 'x', 't'];
    assert(f.skip(f.len() - 4) =~= seq!['.', 't', 'x', 't']);
    assert(f.take(f.len() - 4) =~= name);
}

/// After removing the events with identifier `id`, none is left.
pub proof fn law_removed_event_is_gone(rows: Seq<EventRow>, id: Seq<char>)
    ensures
        forall|i: int| 0 <= i < without_id(rows, id).len() ==> #[trigger] without_id(rows, id)[i].id@
            != id,
    decreases rows.len(),
{
    if rows.len() > 0 {
        law_removed_event_is_gone(rows.drop_last(), id);
        let rest = without_id(rows.drop_last(), id);
        assert forall|i: int| 0 <= i < without_id(rows, id).len() implies #[trigger] without_id(
            rows,
            id,
        )[i].id@ != id by {
            if i < rest.len() {
                assert(without_id(rows, id)[i] == rest[i]);
            }
        }
    }
}

/// Removing the events with identifier `id` keeps exactly the other events,
/// in the order they had: the result is the list filtered by `e.id != id`.
pub proof fn law_removal_keeps_the_rest_in_order(rows: Seq<EventRow>, id: Seq<char>)
    ensures
        without_id(rows, id) == rows.filter(|e: EventRow| e.id@ != id),
    decreases rows.len(),
{
    reveal(Seq::filter);
    if rows.len() > 0 {
        law_removal_keeps_the_rest_in_order(rows.drop_last(), id);
    }
}

} // verus!
