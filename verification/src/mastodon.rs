//! The length of a Mastodon post as Mastodon counts it: text is counted in
//! grapheme clusters, and every `http://` or `https://` link, up to the next
//! white-space character or the end, counts as 23 characters whatever its
//! real length.
use vstd::prelude::*;
use vstd::string::*;
use unicode_segmentation::UnicodeSegmentation;
use crate::text::{
    byte_len, chars_of, is_white_space, lemma_byte_len_prefix, utf8_len, white_space,
};

verus! {

/// What `unicode_segmentation` computes as the number of extended grapheme
/// clusters (UAX #29) of a text.
pub uninterp spec fn grapheme_count_of(text: Seq<char>) -> nat;

/// `UnicodeSegmentation::graphemes(text, true).count()`: the number of
/// extended grapheme clusters of `text`. The contract names that number and
/// states what the crate's iterator shows of it: every cluster it yields is a
/// non-empty piece of the text and a non-empty text yields at least one, so
/// the count is at most the number of characters and is zero exactly for the
/// empty text. The crate gives every printable ASCII character (space to `~`)
/// the category `Any`, between two of which there is always a boundary, so a
/// text of such characters has one cluster per character. Where the cluster
/// boundaries fall in other texts is left unsaid.
#[verifier::external_body]
pub fn grapheme_count(text: &str) -> (n: usize)
    ensures
        n == grapheme_count_of(text@),
        n <= text@.len(),
        (n == 0) == (text@.len() == 0),
        printable_ascii(text@) ==> n == text@.len(),
{
    text.graphemes(true).count()
}

/// `s` holds `http://` at position `i`.
pub open spec fn http_at(s: Seq<char>, i: int) -> bool {
    0 <= i && i + 7 <= s.len() && s.subrange(i, i + 7) == seq!['h', 't', 't', 'p', ':', '/', '/']
}

/// `s` holds `https://` at position `i`.
pub open spec fn https_at(s: Seq<char>, i: int) -> bool {
    0 <= i && i + 8 <= s.len() && s.subrange(i, i + 8) == seq![
        'h',
        't',
        't',
        'p',
        's',
        ':',
        '/',
        '/',
    ]
}

/// A link starts at position `i` of `s`.
pub open spec fn url_at(s: Seq<char>, i: int) -> bool {
    http_at(s, i) || https_at(s, i)
}

/// The first position at or after `from` where a link starts.
pub open spec fn first_url_start(s: Seq<char>, from: int) -> Option<int>
    decreases s.len() - from,
{
    if from >= s.len() {
        None
    } else if url_at(s, from) {
        Some(from)
    } else {
        first_url_start(s, from + 1)
    }
}

/// The first position at or after `from` that holds a white-space character,
/// or the length of `s` when there is none.
pub open spec fn first_white_space(s: Seq<char>, from: int) -> int
    decreases s.len() - from,
{
    if from >= s.len() {
        s.len() as int
    } else if is_white_space(s[from]) {
        from
    } else {
        first_white_space(s, from + 1)
    }
}

pub proof fn lemma_first_url_start(s: Seq<char>, from: int)
    ensures
        first_url_start(s, from) matches Some(st) ==> from <= st < s.len() && url_at(s, st),
    decreases s.len() - from,
{
    if from < s.len() && !url_at(s, from) {
        lemma_first_url_start(s, from + 1);
    }
}

pub proof fn lemma_first_white_space(s: Seq<char>, from: int)
    ensures
        from <= s.len() ==> from <= first_white_space(s, from) <= s.len(),
        0 <= from < s.len() && !is_white_space(s[from]) ==> from < first_white_space(s, from),
        forall|j: int| from <= j < first_white_space(s, from) ==> !is_white_space(#[trigger] s[j]),
    decreases s.len() - from,
{
    if from < s.len() && !is_white_space(s[from]) {
        lemma_first_white_space(s, from + 1);
    }
}

/// The link starting at `st` ends before the first white-space character.
pub proof fn lemma_url_end(s: Seq<char>, st: int)
    requires
        url_at(s, st),
    ensures
        st < first_white_space(s, st) <= s.len(),
{
    assert(s[st] == s.subrange(st, st + 7)[0]);
    lemma_first_white_space(s, st);
}

/// The links found scanning from `from`, left to right, as the positions
/// where each starts and ends: a link starts at the first `http://` or
/// `https://` at or after the end of the one before, and ends before the next
/// white-space character or at the end of the text.
pub open spec fn link_spans(s: Seq<char>, from: int) -> Seq<(int, int)>
    decreases s.len() - from,
{
    match first_url_start(s, from) {
        None => Seq::empty(),
        Some(st) => {
            proof {
                lemma_first_url_start(s, from);
                lemma_url_end(s, st);
            }
            let e = first_white_space(s, st);
            seq![(st, e)] + link_spans(s, e)
        },
    }
}

/// The sum, over the links, of 23 minus the link's grapheme count: what the
/// links change in the count.
pub open spec fn link_sum(link_counts: Seq<int>) -> int
    decreases link_counts.len(),
{
    if link_counts.len() == 0 {
        0
    } else {
        link_sum(link_counts.drop_last()) + 23 - link_counts.last()
    }
}

/// The Mastodon length for a text of `text_count` grapheme clusters whose
/// links have `link_counts` clusters: every link counts 23 in place of its
/// clusters, and the length is never below zero.
pub open spec fn length_from_counts(text_count: int, link_counts: Seq<int>) -> int {
    let total = text_count + link_sum(link_counts);
    if total < 0 {
        0
    } else {
        total
    }
}

/// The grapheme counts of the links of `s`, in order.
pub open spec fn link_grapheme_counts(s: Seq<char>) -> Seq<int> {
    link_spans(s, 0).map_values(|p: (int, int)| grapheme_count_of(s.subrange(p.0, p.1)) as int)
}

/// The Mastodon length of a text: its grapheme count with every link counted
/// as 23, and never below zero.
pub open spec fn mastodon_length(s: Seq<char>) -> int {
    length_from_counts(grapheme_count_of(s) as int, link_grapheme_counts(s))
}

/// Every character is printable ASCII (from space to `~`).
pub open spec fn printable_ascii(s: Seq<char>) -> bool {
    forall|i: int| 0 <= i < s.len() ==> ' ' <= #[trigger] s[i] <= '~'
}

/// The Mastodon length of a text in which every character is a cluster of
/// its own: its length, with every link counting 23 in place of its length.
pub open spec fn ascii_mastodon_length(s: Seq<char>) -> int {
    length_from_counts(s.len() as int, link_spans(s, 0).map_values(|p: (int, int)| p.1 - p.0))
}

/// `n` as a `usize` keeps it modulo the width of `usize`, as `as usize` does.
pub open spec fn usize_wrapped(n: int) -> int {
    n % (usize::MAX as int + 1)
}

/// Whether a link starts at position `i` of `cs`.
fn url_starts_at(cs: &Vec<char>, i: usize) -> (res: bool)
    requires
        i <= cs@.len(),
    ensures
        res == url_at(cs@, i as int),
{
    let n = cs.len();
    if n - i >= 7 && cs[i] == 'h' && cs[i + 1] == 't' && cs[i + 2] == 't' && cs[i + 3] == 'p' {
        if cs[i + 4] == ':' && cs[i + 5] == '/' && cs[i + 6] == '/' {
            assert(cs@.subrange(i as int, i + 7) =~= seq!['h', 't', 't', 'p', ':', '/', '/']);
            return true;
        }
        if n - i >= 8 && cs[i + 4] == 's' && cs[i + 5] == ':' && cs[i + 6] == '/' && cs[i + 7] == '/' {
            assert(cs@.subrange(i as int, i + 8) =~= seq!['h', 't', 't', 'p', 's', ':', '/', '/']);
            return true;
        }
    }
    proof {
        if http_at(cs@, i as int) {
            assert(cs@[i as int] == cs@.subrange(i as int, i + 7)[0]);
            assert(cs@[i + 1] == cs@.subrange(i as int, i + 7)[1]);
            assert(cs@[i + 2] == cs@.subrange(i as int, i + 7)[2]);
            assert(cs@[i + 3] == cs@.subrange(i as int, i + 7)[3]);
            assert(cs@[i + 4] == cs@.subrange(i as int, i + 7)[4]);
            assert(cs@[i + 5] == cs@.subrange(i as int, i + 7)[5]);
            assert(cs@[i + 6] == cs@.subrange(i as int, i + 7)[6]);
        }
        if https_at(cs@, i as int) {
            assert(cs@[i as int] == cs@.subrange(i as int, i + 8)[0]);
            assert(cs@[i + 1] == cs@.subrange(i as int, i + 8)[1]);
            assert(cs@[i + 2] == cs@.subrange(i as int, i + 8)[2]);
            assert(cs@[i + 3] == cs@.subrange(i as int, i + 8)[3]);
            assert(cs@[i + 4] == cs@.subrange(i as int, i + 8)[4]);
            assert(cs@[i + 5] == cs@.subrange(i as int, i + 8)[5]);
            assert(cs@[i + 6] == cs@.subrange(i as int, i + 8)[6]);
            assert(cs@[i + 7] == cs@.subrange(i as int, i + 8)[7]);
        }
    }
    false
}

/// The first position at or after `from` where a link starts in `cs`.
fn find_url_from(cs: &Vec<char>, from: usize) -> (res: Option<usize>)
    requires
        from <= cs@.len(),
    ensures
        res matches Some(p) ==> first_url_start(cs@, from as int) == Some(p as int),
        res is None ==> first_url_start(cs@, from as int) is None,
{
    let mut i = from;
    while i < cs.len()
        invariant
            from <= i <= cs@.len(),
            first_url_start(cs@, from as int) == first_url_start(cs@, i as int),
        decreases cs.len() - i,
    {
        if url_starts_at(cs, i) {
            return Some(i);
        }
        i = i + 1;
    }
    None
}

/// The first position at or after `from` that holds a white-space character
/// in `cs`, or its length.
fn find_white_space_from(cs: &Vec<char>, from: usize) -> (res: usize)
    requires
        from <= cs@.len(),
    ensures
        res == first_white_space(cs@, from as int),
{
    let mut i = from;
    while i < cs.len()
        invariant
            from <= i <= cs@.len(),
            first_white_space(cs@, from as int) == first_white_space(cs@, i as int),
        decreases cs.len() - i,
    {
        if white_space(cs[i]) {
            return i;
        }
        i = i + 1;
    }
    i
}

/// The byte offset of the first `http://` or `https://` in `s`: the smaller
/// of the first offsets of the two, or `None` when `s` holds neither. The
/// offset is the UTF-8 length of the characters before the link.
pub fn find_url_start(s: &str) -> (res: Option<usize>)
    requires
        byte_len(s@) <= usize::MAX,
    ensures
        res is None <==> first_url_start(s@, 0) is None,
        res matches Some(p) ==> first_url_start(s@, 0) matches Some(k) && p == byte_len(
            s@.take(k),
        ),
{
    let cs = chars_of(s);
    match find_url_from(&cs, 0) {
        None => None,
        Some(k) => {
            proof {
                lemma_first_url_start(cs@, 0);
            }
            let mut offset: usize = 0;
            let mut i: usize = 0;
            while i < k
                invariant
                    i <= k < cs@.len(),
                    cs@ == s@,
                    byte_len(s@) <= usize::MAX,
                    offset == byte_len(cs@.take(i as int)),
                decreases k - i,
            {
                assert(cs@.take(i + 1).drop_last() =~= cs@.take(i as int));
                proof {
                    lemma_byte_len_prefix(cs@, i + 1);
                }
                offset = offset + utf8_len(cs[i]);
                i = i + 1;
            }
            Some(offset)
        },
    }
}

/// The links of `text`, left to right, as the character positions where each
/// starts and ends.
pub fn find_links(text: &str) -> (res: Vec<(usize, usize)>)
    ensures
        res@.map_values(|p: (usize, usize)| (p.0 as int, p.1 as int)) == link_spans(text@, 0),
{
    let cs = chars_of(text);
    let ghost s = cs@;
    let mut res: Vec<(usize, usize)> = Vec::new();
    let mut pos: usize = 0;
    loop
        invariant
            s == text@,
            s == cs@,
            pos <= s.len(),
            res@.map_values(|p: (usize, usize)| (p.0 as int, p.1 as int)) + link_spans(
                s,
                pos as int,
            ) == link_spans(s, 0),
        ensures
            res@.map_values(|p: (usize, usize)| (p.0 as int, p.1 as int)) == link_spans(s, 0),
        decreases s.len() - pos,
    {
        match find_url_from(&cs, pos) {
            None => {
                assert(link_spans(s, pos as int) =~= Seq::empty());
                assert(res@.map_values(|p: (usize, usize)| (p.0 as int, p.1 as int))
                    + Seq::<(int, int)>::empty() =~= res@.map_values(
                    |p: (usize, usize)| (p.0 as int, p.1 as int),
                ));
                break ;
            },
            Some(st) => {
                proof {
                    lemma_first_url_start(s, pos as int);
                    lemma_url_end(s, st as int);
                }
                let e = find_white_space_from(&cs, st);
                let ghost before = res@.map_values(|p: (usize, usize)| (p.0 as int, p.1 as int));
                res.push((st, e));
                assert(res@.map_values(|p: (usize, usize)| (p.0 as int, p.1 as int)) =~= before.push(
                    (st as int, e as int),
                ));
                assert(link_spans(s, pos as int) == seq![(st as int, e as int)] + link_spans(
                    s,
                    e as int,
                ));
                assert(before + (seq![(st as int, e as int)] + link_spans(s, e as int))
                    =~= before.push((st as int, e as int)) + link_spans(s, e as int));
                pos = e;
            },
        }
    }
    res
}

/// The Mastodon length from the grapheme count of a text and those of its
/// links, kept modulo the width of `usize`: every link counts 23 in place of
/// its clusters, and the length is never below zero.
pub fn length_from_grapheme_counts(text_count: usize, link_counts: &[usize]) -> (n: usize)
    ensures
        n == usize_wrapped(
            length_from_counts(text_count as int, link_counts@.map_values(|c: usize| c as int)),
        ),
{
    let ghost counts = link_counts@.map_values(|c: usize| c as int);
    let mut plus: u128 = text_count as u128;
    let mut minus: u128 = 0;
    let mut i: usize = 0;
    while i < link_counts.len()
        invariant
            i <= link_counts@.len(),
            counts == link_counts@.map_values(|c: usize| c as int),
            plus == text_count + 23 * i,
            minus <= i * (usize::MAX as int),
            plus - minus == text_count + link_sum(counts.take(i as int)),
        decreases link_counts.len() - i,
    {
        assert(counts.take(i + 1).drop_last() =~= counts.take(i as int));
        assert(counts.take(i + 1).last() == link_counts@[i as int]);
        let c = link_counts[i];
        assert((i + 1) * (usize::MAX as int) == i * (usize::MAX as int) + usize::MAX) by (nonlinear_arith);
        assert((i + 1) * (usize::MAX as int) <= (usize::MAX as int) * (usize::MAX as int)) by (nonlinear_arith)
            requires
                i + 1 <= usize::MAX,
        ;
        assert((usize::MAX as int) * (usize::MAX as int) < u128::MAX) by (nonlinear_arith)
            requires
                usize::MAX <= u64::MAX,
        ;
        plus = plus + 23;
        minus = minus + c as u128;
        i = i + 1;
    }
    assert(counts.take(i as int) =~= counts);
    let ghost len = length_from_counts(text_count as int, counts);
    if plus <= minus {
        assert(len == 0);
        assert(usize_wrapped(0) == 0);
        0
    } else {
        let total = plus - minus;
        let m: u128 = usize::MAX as u128 + 1;
        assert(len == total);
        let r = total % m;
        assert(r == usize_wrapped(len));
        r as usize
    }
}

/// The length of `text` as Mastodon counts it: grapheme clusters, with each
/// `http://` or `https://` link (up to the next white space or the end)
/// counted as 23, and never below zero; kept modulo the width of `usize`, so
/// exact whenever the length fits in a `usize`. For a text of printable ASCII
/// characters the length is the character count with every link counted as 23.
pub fn mastodon_char_count(text: &str) -> (n: usize)
    ensures
        n == usize_wrapped(mastodon_length(text@)),
        mastodon_length(text@) <= usize::MAX ==> n == mastodon_length(text@),
        printable_ascii(text@) ==> mastodon_length(text@) == ascii_mastodon_length(text@),
{
    let spans = find_links(text);
    let ghost s = text@;
    let ghost spans_int = link_spans(s, 0);
    let mut counts: Vec<usize> = Vec::new();
    let mut i: usize = 0;
    while i < spans.len()
        invariant
            s == text@,
            i <= spans@.len(),
            spans@.map_values(|p: (usize, usize)| (p.0 as int, p.1 as int)) == spans_int,
            spans_int == link_spans(s, 0),
            counts@.len() == i,
            forall|k: int|
                0 <= k < i ==> #[trigger] counts@[k] == grapheme_count_of(
                    s.subrange(spans_int[k].0, spans_int[k].1),
                ),
            forall|k: int|
                0 <= k < i ==> printable_ascii(s) ==> counts@[k] == spans_int[k].1 - spans_int[k].0,
        decreases spans.len() - i,
    {
        let (a, b) = spans[i];
        assert(spans_int[i as int] == (a as int, b as int));
        proof {
            lemma_link_spans_in_text(s, 0, i as int);
        }
        let link = text.substring_char(a, b);
        let g = grapheme_count(link);
        assert(link@ == s.subrange(a as int, b as int));
        proof {
            if printable_ascii(s) {
                assert forall|j: int| 0 <= j < link@.len() implies ' ' <= #[trigger] link@[j] <= '~' by {
                    assert(link@[j] == s[a + j]);
                }
            }
        }
        counts.push(g);
        i = i + 1;
    }
    let g = grapheme_count(text);
    assert(counts@.map_values(|c: usize| c as int) =~= link_grapheme_counts(s));
    proof {
        if printable_ascii(s) {
            assert(counts@.map_values(|c: usize| c as int) =~= spans_int.map_values(
                |p: (int, int)| p.1 - p.0,
            ));
        }
    }
    let n = length_from_grapheme_counts(g, counts.as_slice());
    proof {
        if mastodon_length(s) <= usize::MAX {
            vstd::arithmetic::div_mod::lemma_small_mod(
                mastodon_length(s) as nat,
                (usize::MAX as int + 1) as nat,
            );
        }
    }
    n
}

/// Every link lies within the text and after the position the scan starts at.
pub proof fn lemma_link_spans_in_text(s: Seq<char>, from: int, k: int)
    requires
        0 <= from,
        0 <= k < link_spans(s, from).len(),
    ensures
        from <= link_spans(s, from)[k].0 < link_spans(s, from)[k].1 <= s.len(),
    decreases s.len() - from,
{
    lemma_first_url_start(s, from);
    let st = first_url_start(s, from)->0;
    lemma_url_end(s, st);
    let e = first_white_space(s, st);
    if k > 0 {
        lemma_link_spans_in_text(s, e, k - 1);
        assert(link_spans(s, from)[k] == link_spans(s, e)[k - 1]);
    }
}

} // verus!

verus! {

/// A text without any `http://` or `https://` link is counted exactly by its
/// grapheme clusters.
pub proof fn law_text_without_links_counts_graphemes(s: Seq<char>)
    requires
        first_url_start(s, 0) is None,
    ensures
        mastodon_length(s) == grapheme_count_of(s),
{
    assert(link_grapheme_counts(s) =~= Seq::<int>::empty());
}

proof fn lemma_first_white_space_at(s: Seq<char>, from: int, k: int)
    requires
        0 <= from <= k <= s.len(),
        forall|j: int| from <= j < k ==> !is_white_space(#[trigger] s[j]),
        k == s.len() || is_white_space(s[k]),
    ensures
        first_white_space(s, from) == k,
    decreases k - from,
{
    if from < k {
        lemma_first_white_space_at(s, from + 1, k);
    }
}

proof fn lemma_first_url_start_at(s: Seq<char>, from: int, k: int)
    requires
        0 <= from <= k < s.len(),
        forall|j: int| from <= j < k ==> !#[trigger] url_at(s, j),
        url_at(s, k),
    ensures
        first_url_start(s, from) == Some(k),
    decreases k - from,
{
    if from < k {
        lemma_first_url_start_at(s, from + 1, k);
    }
}

proof fn lemma_no_url(s: Seq<char>, from: int, i: int)
    requires
        0 <= from <= i < s.len(),
        first_url_start(s, from) is None,
    ensures
        !url_at(s, i),
    decreases i - from,
{
    if from < i {
        lemma_no_url(s, from + 1, i);
    }
}

/// A text that is one link and nothing else counts as 23, however long the
/// link is.
pub proof fn law_single_link_counts_23(s: Seq<char>)
    requires
        url_at(s, 0),
        forall|j: int| 0 <= j < s.len() ==> !is_white_space(#[trigger] s[j]),
    ensures
        mastodon_length(s) == 23,
{
    lemma_first_white_space_at(s, 0, s.len() as int);
    assert(s.subrange(0, s.len() as int) =~= s);
    assert(first_url_start(s, s.len() as int) is None);
    assert(link_spans(s, s.len() as int) =~= Seq::<(int, int)>::empty());
    assert(first_url_start(s, 0) == Some(0int));
    assert(link_spans(s, 0) =~= seq![(0int, s.len() as int)]);
    let g = grapheme_count_of(s) as int;
    assert(link_grapheme_counts(s) =~= seq![g]);
    assert(seq![g].drop_last() =~= Seq::<int>::empty());
    assert(link_sum(Seq::<int>::empty()) == 0);
    assert(link_sum(seq![g]) == 23 - g);
}

/// `link_sum` adds up over concatenation.
pub proof fn lemma_link_sum_concat(a: Seq<int>, b: Seq<int>)
    ensures
        link_sum(a + b) == link_sum(a) + link_sum(b),
    decreases b.len(),
{
    if b.len() == 0 {
        assert(a + b =~= a);
    } else {
        lemma_link_sum_concat(a, b.drop_last());
        assert((a + b).drop_last() =~= a + b.drop_last());
    }
}

/// The lengths of the links found scanning from `from`.
pub open spec fn link_lengths(s: Seq<char>, from: int) -> Seq<int> {
    link_spans(s, from).map_values(|p: (int, int)| p.1 - p.0)
}

/// Putting a text `a` in front of `s` leaves the links of `s` as they are.
proof fn lemma_link_lengths_shift(a: Seq<char>, s: Seq<char>, j: int)
    requires
        0 <= j <= s.len(),
    ensures
        link_lengths(a + s, a.len() + j) == link_lengths(s, j),
    decreases s.len() - j,
{
    let t = a + s;
    let n = a.len() as int;
    assert forall|i: int| j <= i < s.len() implies url_at(t, n + i) == url_at(s, i) by {
        if i + 7 <= s.len() {
            assert(t.subrange(n + i, n + i + 7) =~= s.subrange(i, i + 7));
        }
        if i + 8 <= s.len() {
            assert(t.subrange(n + i, n + i + 8) =~= s.subrange(i, i + 8));
        }
    }
    lemma_first_url_start(s, j);
    match first_url_start(s, j) {
        None => {
            assert forall|i: int| n + j <= i < t.len() implies !#[trigger] url_at(t, i) by {
                lemma_no_url(s, j, i - n);
                assert(url_at(t, n + (i - n)) == url_at(s, i - n));
            }
            if first_url_start(t, n + j) is Some {
                lemma_first_url_start(t, n + j);
                let k = first_url_start(t, n + j)->0;
                assert(!url_at(t, k));
            }
            assert(link_lengths(t, n + j) =~= Seq::<int>::empty());
            assert(link_lengths(s, j) =~= Seq::<int>::empty());
        },
        Some(st) => {
            assert forall|i: int| n + j <= i < n + st implies !#[trigger] url_at(t, i) by {
                lemma_first_url_start_before(s, j, i - n);
                assert(url_at(t, n + (i - n)) == url_at(s, i - n));
            }
            assert(url_at(t, n + st) == url_at(s, st));
            lemma_first_url_start_at(t, n + j, n + st);
            lemma_url_end(s, st);
            let e = first_white_space(s, st);
            lemma_first_white_space(s, st);
            assert forall|i: int| n + st <= i < n + e implies !is_white_space(#[trigger] t[i]) by {
                assert(t[i] == s[i - n]);
            }
            if e < s.len() {
                lemma_first_white_space_ends(s, st);
                assert(t[n + e] == s[e]);
            }
            lemma_first_white_space_at(t, n + st, n + e);
            lemma_link_lengths_shift(a, s, e);
            assert(link_spans(t, n + j) == seq![(n + st, n + e)] + link_spans(t, n + e));
            assert(link_spans(s, j) == seq![(st, e)] + link_spans(s, e));
            assert(link_lengths(t, n + j) =~= seq![e - st] + link_lengths(t, n + e));
            assert(link_lengths(s, j) =~= seq![e - st] + link_lengths(s, e));
        },
    }
}

proof fn lemma_first_url_start_before(s: Seq<char>, from: int, i: int)
    requires
        0 <= from <= i,
        first_url_start(s, from) matches Some(st) && i < st,
    ensures
        !url_at(s, i),
    decreases i - from,
{
    if from < i {
        lemma_first_url_start_before(s, from + 1, i);
    }
}

proof fn lemma_first_white_space_ends(s: Seq<char>, from: int)
    requires
        0 <= from,
        first_white_space(s, from) < s.len(),
    ensures
        is_white_space(s[first_white_space(s, from)]),
    decreases s.len() - from,
{
    if from < s.len() && !is_white_space(s[from]) {
        lemma_first_white_space_ends(s, from + 1);
    }
}

/// The scheme of a link: `http://` or `https://`.
pub open spec fn link_scheme(h: Seq<char>) -> bool {
    h == seq!['h', 't', 't', 'p', ':', '/', '/'] || h == seq![
        'h',
        't',
        't',
        'p',
        's',
        ':',
        '/',
        '/',
    ]
}

/// The length of a text with a link `h + x` after a link-free `p` and before a
/// rest `q` that is empty or starts with a space: the link counts 23 whatever
/// `x` is.
proof fn lemma_one_link_length(p: Seq<char>, h: Seq<char>, x: Seq<char>, q: Seq<char>)
    requires
        link_scheme(h),
        first_url_start(p, 0) is None,
        forall|i: int| 0 <= i < x.len() ==> !is_white_space(#[trigger] x[i]),
        q.len() == 0 || q[0] == ' ',
    ensures
        ascii_mastodon_length(p + h + x + q) == length_from_counts(
            (p.len() + q.len()) as int,
            seq![0int] + link_lengths(q, 0),
        ),
{
    let a = p + h + x;
    let t = a + q;
    assert(p + h + x + q == t);
    let n = p.len() as int;
    let m = a.len() as int;
    // no link starts inside `p`
    assert forall|i: int| 0 <= i < n implies !#[trigger] url_at(t, i) by {
        if url_at(t, i) {
            if http_at(t, i) {
                if i + 7 <= n {
                    assert(p.subrange(i, i + 7) =~= t.subrange(i, i + 7));
                    lemma_no_url(p, 0, i);
                } else {
                    assert(t.subrange(i, i + 7)[n - i] == t[n]);
                    assert(t[n] == h[0]);
                }
            } else {
                if i + 8 <= n {
                    assert(p.subrange(i, i + 8) =~= t.subrange(i, i + 8));
                    lemma_no_url(p, 0, i);
                } else {
                    assert(t.subrange(i, i + 8)[n - i] == t[n]);
                    assert(t[n] == h[0]);
                }
            }
        }
    }
    // the link starts right after `p`
    if h.len() == 7 {
        assert(t.subrange(n, n + 7) =~= h);
    } else {
        assert(t.subrange(n, n + 8) =~= h);
    }
    assert(url_at(t, n));
    lemma_first_url_start_at(t, 0, n);
    // and ends where `q` starts
    assert forall|i: int| n <= i < m implies !is_white_space(#[trigger] t[i]) by {
        if i < n + h.len() {
            assert(t[i] == h[i - n]);
        } else {
            assert(t[i] == x[i - n - h.len()]);
        }
    }
    if q.len() > 0 {
        assert(t[m] == q[0]);
    }
    lemma_first_white_space_at(t, n, m);
    lemma_link_lengths_shift(a, q, 0);
    assert(link_spans(t, 0) == seq![(n, m)] + link_spans(t, m));
    assert(link_lengths(t, 0) =~= seq![m - n] + link_lengths(t, m));
    lemma_link_sum_concat(seq![m - n], link_lengths(q, 0));
    lemma_link_sum_concat(seq![0int], link_lengths(q, 0));
    assert(seq![m - n].drop_last() =~= Seq::<int>::empty());
    assert(seq![0int].drop_last() =~= Seq::<int>::empty());
}

/// A link counts 23 whatever its real length: in a text of a link-free part,
/// a link made of a scheme and a run of non-white-space characters, and a rest
/// that is empty or starts with a space, changing the link's run changes
/// nothing. This is the length rule with every character a cluster of its
/// own, which `mastodon_char_count` shows it to be for printable ASCII texts.
pub proof fn law_link_length_does_not_count(
    p: Seq<char>,
    h: Seq<char>,
    x: Seq<char>,
    y: Seq<char>,
    q: Seq<char>,
)
    requires
        link_scheme(h),
        first_url_start(p, 0) is None,
        forall|i: int| 0 <= i < x.len() ==> !is_white_space(#[trigger] x[i]),
        forall|i: int| 0 <= i < y.len() ==> !is_white_space(#[trigger] y[i]),
        q.len() == 0 || q[0] == ' ',
    ensures
        ascii_mastodon_length(p + h + x + q) == ascii_mastodon_length(p + h + y + q),
{
    lemma_one_link_length(p, h, x, q);
    lemma_one_link_length(p, h, y, q);
}

} // verus!
