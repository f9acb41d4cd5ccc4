//! The `add` parameter of a page's query string, which asks the tracker to
//! record an event for the named topic on start-up.
use vstd::prelude::*;
use vstd::string::*;
use crate::text::chars_of;

verus! {

/// The end of the `&`-separated pair that starts at `from`: the position of
/// the next `&`, or the length of `s`.
pub open spec fn pair_end(s: Seq<char>, from: int) -> int
    decreases s.len() - from,
{
    if from >= s.len() {
        s.len() as int
    } else if s[from] == '&' {
        from
    } else {
        pair_end(s, from + 1)
    }
}

pub proof fn lemma_pair_end(s: Seq<char>, from: int)
    ensures
        from <= s.len() ==> from <= pair_end(s, from) <= s.len(),
        forall|j: int| from <= j < pair_end(s, from) ==> s[j] != '&',
        pair_end(s, from) < s.len() ==> s[pair_end(s, from)] == '&',
    decreases s.len() - from,
{
    if from < s.len() && s[from] != '&' {
        lemma_pair_end(s, from + 1);
    }
}

/// The pair starting at `from` begins with `add=`.
pub open spec fn starts_with_add(s: Seq<char>, from: int) -> bool {
    0 <= from && from + 4 <= s.len() && s.subrange(from, from + 4) == seq!['a', 'd', 'd', '=']
}

/// The value of the first pair, at or after the pair that starts at `from`,
/// whose key is exactly `add`, as the positions where that value starts and
/// ends.
pub open spec fn add_value_from(s: Seq<char>, from: int) -> Option<(int, int)>
    decreases s.len() - from,
{
    if from < 0 || from > s.len() {
        None
    } else {
        let end = pair_end(s, from);
        if starts_with_add(s, from) {
            Some((from + 4, end))
        } else if end >= s.len() {
            None
        } else {
            proof {
                lemma_pair_end(s, from);
            }
            add_value_from(s, end + 1)
        }
    }
}

/// Where the pairs start: after a leading `?`, if there is one.
pub open spec fn query_start(s: Seq<char>) -> int {
    if s.len() > 0 && s[0] == '?' {
        1
    } else {
        0
    }
}

/// The raw value of the `add` parameter of a query string, as the positions
/// where it starts and ends in `s`.
pub open spec fn add_param_span(s: Seq<char>) -> Option<(int, int)> {
    add_value_from(s, query_start(s))
}

/// A pair of the query starts at `p`: at the start of the pairs or right
/// after a `&`.
pub open spec fn pair_start(s: Seq<char>, p: int) -> bool {
    p == query_start(s) || (query_start(s) < p <= s.len() && s[p - 1] == '&')
}

proof fn lemma_add_value_from(s: Seq<char>, from: int)
    requires
        pair_start(s, from),
    ensures
        add_value_from(s, from) matches Some((a, b)) ==> {
            &&& from <= a - 4
            &&& pair_start(s, a - 4)
            &&& starts_with_add(s, a - 4)
            &&& a <= b <= s.len()
            &&& (forall|j: int| a <= j < b ==> s[j] != '&')
            &&& (b == s.len() || s[b] == '&')
            &&& forall|p: int| from <= p < a - 4 && pair_start(s, p) ==> !starts_with_add(s, p)
        },
        add_value_from(s, from) is None ==> forall|p: int|
            from <= p <= s.len() && pair_start(s, p) ==> !starts_with_add(s, p),
    decreases s.len() - from,
{
    lemma_pair_end(s, from);
    let end = pair_end(s, from);
    if starts_with_add(s, from) {
        assert forall|j: int| from + 4 <= j < end implies s[j] != '&' by {}
    } else if end >= s.len() {
        assert forall|p: int| from <= p <= s.len() && pair_start(s, p) implies !starts_with_add(
            s,
            p,
        ) by {
            if p > from {
                assert(s[p - 1] != '&');
            }
        }
    } else {
        assert(pair_start(s, end + 1));
        lemma_add_value_from(s, end + 1);
        assert forall|p: int| from <= p < end + 1 && pair_start(s, p) implies !starts_with_add(
            s,
            p,
        ) by {
            if p > from {
                assert(s[p - 1] != '&');
            }
        }
    }
}

/// The `add` value is that of the first `&`-separated pair whose key is
/// exactly `add`: the pair starts where the pairs start or right after a
/// `&`, the value runs from after `add=` to the next `&` or the end, and no
/// earlier pair has the key `add`. Without such a pair there is no value.
pub proof fn law_add_value_is_first_add_pair(s: Seq<char>)
    ensures
        add_param_span(s) matches Some((a, b)) ==> {
            &&& pair_start(s, a - 4)
            &&& s.subrange(a - 4, a) == seq!['a', 'd', 'd', '=']
            &&& a <= b <= s.len()
            &&& (forall|j: int| a <= j < b ==> s[j] != '&')
            &&& (b == s.len() || s[b] == '&')
            &&& forall|p: int| p < a - 4 && pair_start(s, p) ==> !starts_with_add(s, p)
        },
        add_param_span(s) is None ==> forall|p: int| pair_start(s, p) ==> !starts_with_add(s, p),
{
    lemma_add_value_from(s, query_start(s));
}

/// The raw (still percent-encoded) value of the `add` parameter of `search`,
/// a query string with or without its leading `?`; `None` where no
/// `&`-separated pair has the key `add`.
pub fn parse_add_param_raw(search: &str) -> (res: Option<&str>)
    ensures
        add_param_span(search@) is None ==> res is None,
        add_param_span(search@) matches Some((a, b)) ==> res matches Some(v) && v@
            == search@.subrange(a, b),
{
    let cs = chars_of(search);
    let n = cs.len();
    let mut from: usize = if n > 0 && cs[0] == '?' {
        1
    } else {
        0
    };
    loop
        invariant
            cs@ == search@,
            n == cs@.len(),
            from <= n,
            add_param_span(search@) == add_value_from(cs@, from as int),
        decreases n - from,
    {
        let mut end = from;
        while end < n && cs[end] != '&'
            invariant
                from <= end <= n,
                n == cs@.len(),
                pair_end(cs@, from as int) == pair_end(cs@, end as int),
            decreases n - end,
        {
            end = end + 1;
        }
        proof {
            lemma_pair_end(cs@, from as int);
        }
        if n - from >= 4 && cs[from] == 'a' && cs[from + 1] == 'd' && cs[from + 2] == 'd' && cs[from
            + 3] == '=' {
            assert(cs@.subrange(from as int, from + 4) =~= seq!['a', 'd', 'd', '=']);
            return Some(search.substring_char(from + 4, end));
        }
        proof {
            if starts_with_add(cs@, from as int) {
                assert(cs@[from as int] == cs@.subrange(from as int, from + 4)[0]);
                assert(cs@[from + 1] == cs@.subrange(from as int, from + 4)[1]);
                assert(cs@[from + 2] == cs@.subrange(from as int, from + 4)[2]);
                assert(cs@[from + 3] == cs@.subrange(from as int, from + 4)[3]);
            }
        }
        if end >= n {
            return None;
        }
        from = end + 1;
    }
}

} // verus!
