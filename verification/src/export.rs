//! Exporting a topic: its events ordered by their ISO timestamp text, and the
//! text file with one line per event.
use vstd::prelude::*;
use vstd::string::*;
use vstd::seq_lib::group_to_multiset_ensures;
use vstd::multiset::Multiset;
use crate::counts::EventRow;
use crate::events::lemma_filter_cons;
use crate::text::chars_of;
use crate::time::{export_line, export_line_text, LocalDateTime};

verus! {

broadcast use group_to_multiset_ensures;

/// `a` comes strictly before `b` in the character-by-character order of
/// strings (the order of `str`, since UTF-8 keeps the order of code points).
pub open spec fn text_before(a: Seq<char>, b: Seq<char>) -> bool
    decreases a.len(),
{
    if a.len() == 0 {
        b.len() > 0
    } else if b.len() == 0 {
        false
    } else if a[0] != b[0] {
        a[0] < b[0]
    } else {
        text_before(a.drop_first(), b.drop_first())
    }
}

pub proof fn lemma_text_before_irreflexive(a: Seq<char>)
    ensures
        !text_before(a, a),
    decreases a.len(),
{
    if a.len() > 0 {
        lemma_text_before_irreflexive(a.drop_first());
    }
}

pub proof fn lemma_text_before_transitive(a: Seq<char>, b: Seq<char>, c: Seq<char>)
    requires
        text_before(a, b),
        text_before(b, c),
    ensures
        text_before(a, c),
    decreases a.len(),
{
    if a.len() > 0 && b.len() > 0 && c.len() > 0 && a[0] == b[0] && b[0] == c[0] {
        lemma_text_before_transitive(a.drop_first(), b.drop_first(), c.drop_first());
    }
}

pub proof fn lemma_text_before_total(a: Seq<char>, b: Seq<char>)
    ensures
        a =~= b || text_before(a, b) || text_before(b, a),
    decreases a.len(),
{
    if a.len() > 0 && b.len() > 0 && a[0] == b[0] {
        lemma_text_before_total(a.drop_first(), b.drop_first());
        if a.drop_first() =~= b.drop_first() {
            assert(a =~= seq![a[0]] + a.drop_first());
            assert(b =~= seq![b[0]] + b.drop_first());
        }
    }
}

/// Whether text `a` comes strictly before text `b`.
fn chars_before(a: &Vec<char>, b: &Vec<char>) -> (res: bool)
    ensures
        res == text_before(a@, b@),
{
    let mut i: usize = 0;
    assert(a@.skip(0) =~= a@);
    assert(b@.skip(0) =~= b@);
    while i < a.len() && i < b.len() && a[i] == b[i]
        invariant
            i <= a@.len(),
            i <= b@.len(),
            text_before(a@, b@) == text_before(a@.skip(i as int), b@.skip(i as int)),
        decreases a.len() - i,
    {
        assert(a@.skip(i as int).drop_first() =~= a@.skip(i + 1));
        assert(b@.skip(i as int).drop_first() =~= b@.skip(i + 1));
        i = i + 1;
    }
    if i == a.len() {
        i < b.len()
    } else if i == b.len() {
        false
    } else {
        assert(a@.skip(i as int)[0] == a@[i as int]);
        assert(b@.skip(i as int)[0] == b@[i as int]);
        a[i] < b[i]
    }
}

/// Whether the timestamp of `a` comes strictly before that of `b`.
pub fn timestamp_before(a: &EventRow, b: &EventRow) -> (res: bool)
    ensures
        res == text_before(a.timestamp@, b.timestamp@),
{
    let ca = chars_of(a.timestamp.as_str());
    let cb = chars_of(b.timestamp.as_str());
    chars_before(&ca, &cb)
}

/// Every event's timestamp text comes no earlier than the one before it.
pub open spec fn by_timestamp(rows: Seq<EventRow>) -> bool {
    forall|i: int, j: int|
        0 <= i < j < rows.len() ==> !text_before(rows[j].timestamp@, rows[i].timestamp@)
}

/// `x` put into a list ordered by timestamp text just before the first event
/// whose timestamp does not come before that of `x`.
pub open spec fn insert_by_timestamp(x: EventRow, s: Seq<EventRow>) -> Seq<EventRow>
    decreases s.len(),
{
    if s.len() == 0 {
        seq![x]
    } else if text_before(s[0].timestamp@, x.timestamp@) {
        seq![s[0]] + insert_by_timestamp(x, s.drop_first())
    } else {
        seq![x] + s
    }
}

/// The events ordered by timestamp text, events with equal timestamps keeping
/// their order: the stable sort by timestamp.
pub open spec fn timestamp_order(s: Seq<EventRow>) -> Seq<EventRow>
    decreases s.len(),
{
    if s.len() == 0 {
        Seq::empty()
    } else {
        insert_by_timestamp(s[0], timestamp_order(s.drop_first()))
    }
}

proof fn lemma_insert_by_timestamp_at(x: EventRow, s: Seq<EventRow>, k: int)
    requires
        0 <= k <= s.len(),
        forall|i: int| 0 <= i < k ==> text_before(s[i].timestamp@, x.timestamp@),
        k < s.len() ==> !text_before(s[k].timestamp@, x.timestamp@),
    ensures
        insert_by_timestamp(x, s) == s.insert(k, x),
    decreases k,
{
    if k == 0 {
        assert(seq![x] + s =~= s.insert(0, x));
    } else {
        lemma_insert_by_timestamp_at(x, s.drop_first(), k - 1);
        assert(seq![s[0]] + s.drop_first().insert(k - 1, x) =~= s.insert(k, x));
    }
}

/// The events whose timestamp text is `t`.
pub open spec fn with_timestamp(t: Seq<char>) -> spec_fn(EventRow) -> bool {
    |e: EventRow| e.timestamp@ == t
}

/// Inserting `x` puts it before every event with the same timestamp.
proof fn lemma_insert_by_timestamp_same(x: EventRow, s: Seq<EventRow>, t: Seq<char>)
    ensures
        insert_by_timestamp(x, s).filter(with_timestamp(t)) == if x.timestamp@ == t {
            seq![x] + s.filter(with_timestamp(t))
        } else {
            s.filter(with_timestamp(t))
        },
    decreases s.len(),
{
    let p = with_timestamp(t);
    if s.len() == 0 {
        lemma_filter_cons(x, s, p);
        assert(seq![x] + s =~= seq![x]);
    } else if text_before(s[0].timestamp@, x.timestamp@) {
        let rest = s.drop_first();
        lemma_text_before_irreflexive(x.timestamp@);
        lemma_insert_by_timestamp_same(x, rest, t);
        lemma_filter_cons(s[0], insert_by_timestamp(x, rest), p);
        lemma_filter_cons(s[0], rest, p);
        assert(seq![s[0]] + rest =~= s);
    } else {
        lemma_filter_cons(x, s, p);
    }
}

/// The export order is stable: events with the same timestamp come out in
/// the order they came in.
pub proof fn law_timestamp_order_keeps_order_of_equal_timestamps(rows: Seq<EventRow>, t: Seq<char>)
    ensures
        timestamp_order(rows).filter(with_timestamp(t)) == rows.filter(with_timestamp(t)),
    decreases rows.len(),
{
    if rows.len() == 0 {
        assert(timestamp_order(rows) =~= rows);
    } else {
        let rest = rows.drop_first();
        law_timestamp_order_keeps_order_of_equal_timestamps(rest, t);
        lemma_insert_by_timestamp_same(rows[0], timestamp_order(rest), t);
        lemma_filter_cons(rows[0], rest, with_timestamp(t));
        assert(seq![rows[0]] + rest =~= rows);
    }
}

/// The events ordered by their timestamp text, oldest first; events with
/// equal timestamps keep their order.
pub fn sort_by_timestamp(rows: Vec<EventRow>) -> (res: Vec<EventRow>)
    ensures
        res@ == timestamp_order(rows@),
        by_timestamp(res@),
        res@.to_multiset() == rows@.to_multiset(),
{
    let ghost input = rows@;
    let mut rest = rows;
    let mut res: Vec<EventRow> = Vec::new();
    while rest.len() > 0
        invariant
            by_timestamp(res@),
            res@.to_multiset().add(rest@.to_multiset()) == input.to_multiset(),
            rest@.len() <= input.len(),
            rest@ == input.take(rest@.len() as int),
            res@ == timestamp_order(input.skip(rest@.len() as int)),
        decreases rest.len(),
    {
        let ghost before = rest@;
        let x = rest.pop().unwrap();
        assert(before =~= rest@.push(x));
        proof {
            let n = rest@.len() as int;
            assert(rest@ =~= input.take(n));
            assert(input.skip(n).drop_first() =~= input.skip(n + 1));
            assert(input.skip(n)[0] == x);
        }
        let mut k: usize = 0;
        while k < res.len() && timestamp_before(&res[k], &x)
            invariant
                k <= res@.len(),
                forall|i: int| 0 <= i < k ==> text_before(res@[i].timestamp@, x.timestamp@),
            decreases res.len() - k,
        {
            k = k + 1;
        }
        let ghost old_res = res@;
        proof {
            lemma_insert_by_timestamp_at(x, old_res, k as int);
        }
        res.insert(k, x);
        assert(forall|i: int| k < i < res@.len() ==> res@[i] == old_res[i - 1]);
        assert(forall|i: int| 0 <= i < k ==> res@[i] == old_res[i]);
        assert(by_timestamp(res@)) by {
            assert forall|i: int, j: int| 0 <= i < j < res@.len() implies !text_before(
                res@[j].timestamp@,
                res@[i].timestamp@,
            ) by {
                let xt = x.timestamp@;
                if j == k {
                    lemma_text_before_total(res@[i].timestamp@, xt);
                    lemma_text_before_irreflexive(xt);
                    if text_before(xt, res@[i].timestamp@) {
                        lemma_text_before_transitive(xt, res@[i].timestamp@, xt);
                    }
                } else if i == k {
                    let kt = old_res[k as int].timestamp@;
                    let jt = old_res[j - 1].timestamp@;
                    assert(res@[j] == old_res[j - 1]);
                    assert(!text_before(kt, xt));
                    if text_before(jt, xt) {
                        if j - 1 > k {
                            assert(!text_before(jt, kt));
                            lemma_text_before_total(jt, kt);
                            if kt =~= jt {
                            } else {
                                lemma_text_before_transitive(kt, jt, xt);
                            }
                        }
                    }
                } else if i < k && j > k {
                    assert(res@[j] == old_res[j - 1]);
                } else if j < k {
                } else {
                    assert(res@[j] == old_res[j - 1]);
                    assert(res@[i] == old_res[i - 1]);
                }
            }
        }
        assert(res@.to_multiset() =~= old_res.to_multiset().insert(x));
        assert(before.to_multiset() =~= rest@.to_multiset().insert(x));
        assert(res@.to_multiset().add(rest@.to_multiset()) =~= input.to_multiset());
    }
    assert(rest@.to_multiset() =~= Multiset::empty());
    assert(res@.to_multiset() =~= input.to_multiset());
    assert(input.skip(0) =~= input);
    res
}

/// The exported text: one line per event time, in the given order.
pub open spec fn export_text_of(times: Seq<LocalDateTime>) -> Seq<char>
    decreases times.len(),
{
    if times.len() == 0 {
        Seq::empty()
    } else {
        export_text_of(times.drop_last()) + export_line_text(times.last())
    }
}

/// The content of an exported topic file, one line per event time.
pub fn export_text(times: &[LocalDateTime]) -> (s: String)
    requires
        forall|i: int| 0 <= i < times@.len() ==> #[trigger] times@[i].month0 < u32::MAX,
    ensures
        s@ == export_text_of(times@),
{
    let mut s = String::new();
    let mut i: usize = 0;
    while i < times.len()
        invariant
            i <= times@.len(),
            forall|k: int| 0 <= k < times@.len() ==> #[trigger] times@[k].month0 < u32::MAX,
            s@ == export_text_of(times@.take(i as int)),
        decreases times.len() - i,
    {
        assert(times@.take(i + 1).drop_last() =~= times@.take(i as int));
        let line = export_line(&times[i]);
        s.append(line.as_str());
        i = i + 1;
    }
    assert(times@.take(i as int) =~= times@);
    s
}

} // verus!
