//! Locality of the grammar: what is read from a position depends only on
//! the text from that position on.
use vstd::prelude::*;
use crate::parser::{
    colon_at, digits_end, key_at, parse_array_at, parse_elements_at, parse_members_at,
    parse_object_at, parse_pair_at, parse_value_at, scan_number, scan_string, word_at,
    null_word, true_word, false_word,
};
use crate::parser::put;
use crate::text::{is_digit, is_ws, lemma_skip_ws, skip_ws};
use crate::value::{Doc, Val};

verus! {

/// `s` from `p` on and `t` from `q` on hold the same characters.
pub open spec fn same_from(s: Seq<char>, p: int, t: Seq<char>, q: int) -> bool {
    &&& 0 <= p <= s.len()
    &&& 0 <= q <= t.len()
    &&& s.len() - p == t.len() - q
    &&& forall|k: int| 0 <= k < s.len() - p ==> #[trigger] s[p + k] == t[q + k]
}

pub proof fn lemma_same_from_advance(s: Seq<char>, p: int, t: Seq<char>, q: int, j: int)
    requires
        same_from(s, p, t, q),
        0 <= j <= s.len() - p,
    ensures
        same_from(s, p + j, t, q + j),
{
    assert forall|k: int| 0 <= k < s.len() - (p + j) implies #[trigger] s[p + j + k] == t[q + j + k] by {
        assert(s[p + (j + k)] == t[q + (j + k)]);
    }
}

pub proof fn lemma_same_from_at(s: Seq<char>, p: int, t: Seq<char>, q: int, j: int)
    requires
        same_from(s, p, t, q),
        0 <= j < s.len() - p,
    ensures
        s[p + j] == t[q + j],
{
    assert(s[p + j] == t[q + j]);
}

pub proof fn lemma_shift_skip_ws(s: Seq<char>, p: int, t: Seq<char>, q: int)
    requires
        same_from(s, p, t, q),
    ensures
        skip_ws(t, q) == skip_ws(s, p) + (q - p),
    decreases s.len() - p,
{
    if p < s.len() {
        lemma_same_from_at(s, p, t, q, 0);
        lemma_same_from_advance(s, p, t, q, 1);
        lemma_shift_skip_ws(s, p + 1, t, q + 1);
    }
}

pub proof fn lemma_shift_scan_string(s: Seq<char>, p: int, t: Seq<char>, q: int, acc: Seq<char>)
    requires
        same_from(s, p, t, q),
    ensures
        match scan_string(s, p, acc) {
            Some((x, e)) => scan_string(t, q, acc) == Some((x, e + (q - p))),
            None => scan_string(t, q, acc) is None,
        },
    decreases s.len() - p,
{
    if p < s.len() {
        lemma_same_from_at(s, p, t, q, 0);
        if s[p] == '\\' {
            if p + 1 < s.len() {
                lemma_same_from_at(s, p, t, q, 1);
                lemma_same_from_advance(s, p, t, q, 2);
                lemma_shift_scan_string(s, p + 2, t, q + 2, acc.push(s[p + 1]));
            }
        } else if s[p] != '"' {
            lemma_same_from_advance(s, p, t, q, 1);
            lemma_shift_scan_string(s, p + 1, t, q + 1, acc.push(s[p]));
        }
    }
}

pub proof fn lemma_shift_digits_end(s: Seq<char>, p: int, t: Seq<char>, q: int)
    requires
        same_from(s, p, t, q),
    ensures
        digits_end(t, q) == digits_end(s, p) + (q - p),
        p <= digits_end(s, p) <= s.len(),
    decreases s.len() - p,
{
    if p < s.len() {
        lemma_same_from_at(s, p, t, q, 0);
        lemma_same_from_advance(s, p, t, q, 1);
        lemma_shift_digits_end(s, p + 1, t, q + 1);
    }
}

pub proof fn lemma_shift_scan_number(first: char, s: Seq<char>, p: int, t: Seq<char>, q: int)
    requires
        same_from(s, p, t, q),
    ensures
        match scan_number(first, s, p) {
            Some((n, e)) => scan_number(first, t, q) == Some((n, e + (q - p))),
            None => scan_number(first, t, q) is None,
        },
{
    lemma_shift_digits_end(s, p, t, q);
    let e = digits_end(s, p);
    assert(t.subrange(q, e + (q - p)) =~= s.subrange(p, e)) by {
        assert forall|k: int| 0 <= k < e - p implies #[trigger] t.subrange(q, e + (q - p))[k]
            == s.subrange(p, e)[k] by {
            lemma_same_from_at(s, p, t, q, k);
        }
    }
}

pub proof fn lemma_shift_word_at(s: Seq<char>, p: int, t: Seq<char>, q: int, w: Seq<char>)
    requires
        same_from(s, p, t, q),
    ensures
        word_at(t, q, w) == word_at(s, p, w),
{
    if p + w.len() <= s.len() {
        assert(t.subrange(q, q + w.len()) =~= s.subrange(p, p + w.len())) by {
            assert forall|k: int| 0 <= k < w.len() implies #[trigger] t.subrange(q, q + w.len())[k]
                == s.subrange(p, p + w.len())[k] by {
                lemma_same_from_at(s, p, t, q, k);
            }
        }
    }
}

pub proof fn lemma_shift_key_at(s: Seq<char>, p: int, t: Seq<char>, q: int)
    requires
        same_from(s, p, t, q),
    ensures
        match key_at(s, p) {
            Some((k, e)) => key_at(t, q) == Some((k, e + (q - p))),
            None => key_at(t, q) is None,
        },
{
    lemma_shift_skip_ws(s, p, t, q);
    lemma_skip_ws(s, p);
    let a = skip_ws(s, p);
    if a < s.len() {
        lemma_same_from_at(s, p, t, q, a - p);
        lemma_same_from_advance(s, p, t, q, a + 1 - p);
        lemma_shift_scan_string(s, a + 1, t, a + 1 + (q - p), Seq::empty());
    }
}

pub proof fn lemma_shift_colon_at(s: Seq<char>, p: int, t: Seq<char>, q: int)
    requires
        same_from(s, p, t, q),
    ensures
        match colon_at(s, p) {
            Some(e) => colon_at(t, q) == Some(e + (q - p)),
            None => colon_at(t, q) is None,
        },
{
    lemma_shift_skip_ws(s, p, t, q);
    lemma_skip_ws(s, p);
    let a = skip_ws(s, p);
    if a < s.len() {
        lemma_same_from_at(s, p, t, q, a - p);
    }
}

pub proof fn lemma_scan_string_bounds(s: Seq<char>, p: int, acc: Seq<char>)
    requires
        0 <= p,
    ensures
        scan_string(s, p, acc) matches Some((x, e)) ==> p < e <= s.len(),
    decreases s.len() - p,
{
    if 0 <= p < s.len() {
        if s[p] == '\\' {
            if p + 1 < s.len() {
                lemma_scan_string_bounds(s, p + 2, acc.push(s[p + 1]));
            }
        } else if s[p] != '"' {
            lemma_scan_string_bounds(s, p + 1, acc.push(s[p]));
        }
    }
}

pub proof fn lemma_key_colon_bounds(s: Seq<char>, p: int)
    requires
        0 <= p <= s.len(),
    ensures
        key_at(s, p) matches Some((k, e)) ==> p < e <= s.len(),
        colon_at(s, p) matches Some(e) ==> p < e <= s.len(),
{
    lemma_skip_ws(s, p);
    lemma_scan_string_bounds(s, skip_ws(s, p) + 1, Seq::empty());
}

pub proof fn lemma_shift_value(s: Seq<char>, p: int, t: Seq<char>, q: int)
    requires
        same_from(s, p, t, q),
    ensures
        match parse_value_at(s, p) {
            Some((v, e)) => parse_value_at(t, q) == Some((v, e + (q - p))),
            None => parse_value_at(t, q) is None,
        },
    decreases s.len() - p, 0int,
{
    lemma_shift_skip_ws(s, p, t, q);
    lemma_skip_ws(s, p);
    let a = skip_ws(s, p);
    let b = a + (q - p);
    if a < s.len() {
        lemma_same_from_at(s, p, t, q, a - p);
        lemma_same_from_advance(s, p, t, q, a - p);
        lemma_same_from_advance(s, p, t, q, a + 1 - p);
        let c = s[a];
        if c == '"' {
            lemma_shift_scan_string(s, a + 1, t, b + 1, Seq::empty());
        } else if c == 'n' || c == 't' || c == 'f' {
            lemma_shift_word_at(s, a, t, b, null_word());
            lemma_shift_word_at(s, a, t, b, true_word());
            lemma_shift_word_at(s, a, t, b, false_word());
        } else if c == '{' {
            lemma_shift_object(s, a + 1, t, b + 1);
        } else if c == '[' {
            lemma_shift_array(s, a + 1, t, b + 1);
        } else {
            lemma_shift_scan_number(c, s, a + 1, t, b + 1);
        }
    }
}

pub proof fn lemma_shift_pair(s: Seq<char>, p: int, t: Seq<char>, q: int)
    requires
        same_from(s, p, t, q),
    ensures
        match parse_pair_at(s, p) {
            Some((kv, e)) => parse_pair_at(t, q) == Some((kv, e + (q - p))),
            None => parse_pair_at(t, q) is None,
        },
    decreases s.len() - p, 0int,
{
    lemma_shift_key_at(s, p, t, q);
    lemma_key_colon_bounds(s, p);
    if let Some((k, e1)) = key_at(s, p) {
        lemma_same_from_advance(s, p, t, q, e1 - p);
        lemma_shift_colon_at(s, e1, t, e1 + (q - p));
        lemma_key_colon_bounds(s, e1);
        if let Some(e2) = colon_at(s, e1) {
            lemma_same_from_advance(s, p, t, q, e2 - p);
            lemma_shift_value(s, e2, t, e2 + (q - p));
        }
    }
}

pub proof fn lemma_shift_members(s: Seq<char>, p: int, t: Seq<char>, q: int, acc: Doc)
    requires
        same_from(s, p, t, q),
    ensures
        match parse_members_at(s, p, acc) {
            Some((m, e)) => parse_members_at(t, q, acc) == Some((m, e + (q - p))),
            None => parse_members_at(t, q, acc) is None,
        },
    decreases s.len() - p, 1int,
{
    lemma_shift_pair(s, p, t, q);
    if let Some((kv, e)) = parse_pair_at(s, p) {
        if p < e <= s.len() {
            lemma_same_from_advance(s, p, t, q, e - p);
            lemma_shift_skip_ws(s, e, t, e + (q - p));
            lemma_skip_ws(s, e);
            let a = skip_ws(s, e);
            if a < s.len() {
                lemma_same_from_at(s, p, t, q, a - p);
                lemma_same_from_advance(s, p, t, q, a + 1 - p);
                lemma_shift_members(s, a + 1, t, a + 1 + (q - p), put(acc, kv.0, kv.1));
            }
        }
    }
}

pub proof fn lemma_shift_object(s: Seq<char>, p: int, t: Seq<char>, q: int)
    requires
        same_from(s, p, t, q),
    ensures
        match parse_object_at(s, p) {
            Some((m, e)) => parse_object_at(t, q) == Some((m, e + (q - p))),
            None => parse_object_at(t, q) is None,
        },
    decreases s.len() - p, 2int,
{
    lemma_shift_skip_ws(s, p, t, q);
    lemma_skip_ws(s, p);
    let a = skip_ws(s, p);
    if a < s.len() {
        lemma_same_from_at(s, p, t, q, a - p);
    }
    lemma_shift_members(s, p, t, q, Seq::empty());
}

pub proof fn lemma_shift_elements(s: Seq<char>, p: int, t: Seq<char>, q: int, acc: Seq<Val>)
    requires
        same_from(s, p, t, q),
    ensures
        match parse_elements_at(s, p, acc) {
            Some((a, e)) => parse_elements_at(t, q, acc) == Some((a, e + (q - p))),
            None => parse_elements_at(t, q, acc) is None,
        },
    decreases s.len() - p, 1int,
{
    lemma_shift_value(s, p, t, q);
    if let Some((v, e)) = parse_value_at(s, p) {
        if p < e <= s.len() {
            lemma_same_from_advance(s, p, t, q, e - p);
            lemma_shift_skip_ws(s, e, t, e + (q - p));
            lemma_skip_ws(s, e);
            let a = skip_ws(s, e);
            if a < s.len() {
                lemma_same_from_at(s, p, t, q, a - p);
                lemma_same_from_advance(s, p, t, q, a + 1 - p);
                lemma_shift_elements(s, a + 1, t, a + 1 + (q - p), acc.push(v));
            }
        }
    }
}

pub proof fn lemma_shift_array(s: Seq<char>, p: int, t: Seq<char>, q: int)
    requires
        same_from(s, p, t, q),
    ensures
        match parse_array_at(s, p) {
            Some((a, e)) => parse_array_at(t, q) == Some((a, e + (q - p))),
            None => parse_array_at(t, q) is None,
        },
    decreases s.len() - p, 2int,
{
    lemma_shift_skip_ws(s, p, t, q);
    lemma_skip_ws(s, p);
    let a = skip_ws(s, p);
    if a < s.len() {
        lemma_same_from_at(s, p, t, q, a - p);
    }
    lemma_shift_elements(s, p, t, q, Seq::empty());
}

/// Every value, pair, object or array that is read ends after where the
/// reading started, and within the text.
pub proof fn lemma_value_bounds(s: Seq<char>, p: int)
    requires
        0 <= p <= s.len(),
    ensures
        parse_value_at(s, p) matches Some((v, e)) ==> p < e <= s.len(),
    decreases s.len() - p, 0int,
{
    lemma_skip_ws(s, p);
    let a = skip_ws(s, p);
    if a < s.len() {
        let c = s[a];
        if c == '"' {
            lemma_scan_string_bounds(s, a + 1, Seq::empty());
        } else if c == '{' {
            lemma_object_bounds(s, a + 1);
        } else if c == '[' {
            lemma_array_bounds(s, a + 1);
        } else if c == '-' || crate::text::is_digit(c) {
            lemma_shift_digits_end(s, a + 1, s, a + 1);
        }
    }
}

pub proof fn lemma_pair_bounds(s: Seq<char>, p: int)
    requires
        0 <= p <= s.len(),
    ensures
        parse_pair_at(s, p) matches Some((kv, e)) ==> p < e <= s.len(),
    decreases s.len() - p, 0int,
{
    lemma_key_colon_bounds(s, p);
    if let Some((k, e1)) = key_at(s, p) {
        lemma_key_colon_bounds(s, e1);
        if let Some(e2) = colon_at(s, e1) {
            lemma_value_bounds(s, e2);
        }
    }
}

pub proof fn lemma_members_bounds(s: Seq<char>, p: int, acc: Doc)
    requires
        0 <= p <= s.len(),
    ensures
        parse_members_at(s, p, acc) matches Some((m, e)) ==> p < e <= s.len(),
    decreases s.len() - p, 1int,
{
    lemma_pair_bounds(s, p);
    if let Some((kv, e)) = parse_pair_at(s, p) {
        lemma_skip_ws(s, e);
        let a = skip_ws(s, e);
        if a < s.len() && s[a] == ',' {
            lemma_members_bounds(s, a + 1, put(acc, kv.0, kv.1));
        }
    }
}

pub proof fn lemma_object_bounds(s: Seq<char>, p: int)
    requires
        0 <= p <= s.len(),
    ensures
        parse_object_at(s, p) matches Some((m, e)) ==> p < e <= s.len(),
    decreases s.len() - p, 2int,
{
    lemma_skip_ws(s, p);
    lemma_members_bounds(s, p, Seq::empty());
}

pub proof fn lemma_elements_bounds(s: Seq<char>, p: int, acc: Seq<Val>)
    requires
        0 <= p <= s.len(),
    ensures
        parse_elements_at(s, p, acc) matches Some((a, e)) ==> p < e <= s.len(),
    decreases s.len() - p, 1int,
{
    lemma_value_bounds(s, p);
    if let Some((v, e)) = parse_value_at(s, p) {
        lemma_skip_ws(s, e);
        let a = skip_ws(s, e);
        if a < s.len() && s[a] == ',' {
            lemma_elements_bounds(s, a + 1, acc.push(v));
        }
    }
}

pub proof fn lemma_array_bounds(s: Seq<char>, p: int)
    requires
        0 <= p <= s.len(),
    ensures
        parse_array_at(s, p) matches Some((a, e)) ==> p < e <= s.len(),
    decreases s.len() - p, 2int,
{
    lemma_skip_ws(s, p);
    lemma_elements_bounds(s, p, Seq::empty());
}

/// Reading members or elements from any index in the whitespace before
/// their first token gives the same result.
pub proof fn lemma_lists_from_skip(s: Seq<char>, p: int, p2: int)
    requires
        0 <= p <= p2 <= s.len(),
        skip_ws(s, p) == skip_ws(s, p2),
        p2 <= skip_ws(s, p),
    ensures
        parse_members_at(s, p, Seq::empty()) == parse_members_at(s, p2, Seq::empty()),
        parse_elements_at(s, p, Seq::empty()) == parse_elements_at(s, p2, Seq::empty()),
        parse_value_at(s, p) == parse_value_at(s, p2),
        parse_pair_at(s, p) == parse_pair_at(s, p2),
        parse_object_at(s, p) == parse_object_at(s, p2),
        parse_array_at(s, p) == parse_array_at(s, p2),
{
    lemma_skip_ws(s, p);
    lemma_key_colon_bounds(s, p);
    if let Some((k, e1)) = key_at(s, p) {
        lemma_key_colon_bounds(s, e1);
        if let Some(e2) = colon_at(s, e1) {
            lemma_value_bounds(s, e2);
        }
    }
    assert(parse_pair_at(s, p) == parse_pair_at(s, p2));
    lemma_pair_bounds(s, p);
    lemma_value_bounds(s, p2);
    assert(parse_value_at(s, p) == parse_value_at(s, p2));
}

/// `s` and `t` hold the same characters from `p` up to `e`, and where no
/// digit follows `e` in `s`, none follows it in `t` either.
pub open spec fn agree_to(s: Seq<char>, t: Seq<char>, p: int, e: int) -> bool {
    &&& 0 <= p <= e <= s.len()
    &&& e <= t.len()
    &&& forall|k: int| p <= k < e ==> #[trigger] s[k] == t[k]
    &&& (e >= s.len() || !is_digit(s[e])) ==> (e >= t.len() || !is_digit(t[e]))
}

pub proof fn lemma_agree_within(s: Seq<char>, t: Seq<char>, p: int, e: int, p2: int, e2: int)
    requires
        agree_to(s, t, p, e),
        p <= p2 <= e2 < e,
    ensures
        agree_to(s, t, p2, e2),
{
    assert(s[e2] == t[e2]);
}

pub proof fn lemma_prefix_skip_ws(s: Seq<char>, t: Seq<char>, p: int, e: int)
    requires
        agree_to(s, t, p, e),
        skip_ws(s, p) < e,
    ensures
        skip_ws(t, p) == skip_ws(s, p),
    decreases e - p,
{
    lemma_skip_ws(s, p);
    assert(s[p] == t[p]);
    if is_ws(s[p]) {
        lemma_prefix_skip_ws(s, t, p + 1, e);
    }
}

pub proof fn lemma_prefix_scan_string(s: Seq<char>, t: Seq<char>, p: int, e: int, acc: Seq<char>)
    requires
        0 <= p,
        p <= e <= s.len(),
        e <= t.len(),
        forall|k: int| p <= k < e ==> #[trigger] s[k] == t[k],
        scan_string(s, p, acc) matches Some((x, f)) && f == e,
    ensures
        scan_string(t, p, acc) == scan_string(s, p, acc),
    decreases s.len() - p,
{
    lemma_scan_string_bounds(s, p, acc);
    assert(s[p] == t[p]);
    if s[p] == '\\' {
        lemma_scan_string_bounds(s, p + 2, acc.push(s[p + 1]));
        assert(s[p + 1] == t[p + 1]);
        lemma_prefix_scan_string(s, t, p + 2, e, acc.push(s[p + 1]));
    } else if s[p] != '"' {
        lemma_scan_string_bounds(s, p + 1, acc.push(s[p]));
        lemma_prefix_scan_string(s, t, p + 1, e, acc.push(s[p]));
    }
}

pub proof fn lemma_prefix_digits_end(s: Seq<char>, t: Seq<char>, p: int, e: int)
    requires
        agree_to(s, t, p, e),
        digits_end(s, p) == e,
    ensures
        digits_end(t, p) == e,
    decreases e - p,
{
    if p < e {
        assert(s[p] == t[p]);
        assert(is_digit(s[p]));
        assert(digits_end(s, p + 1) == e);
        lemma_prefix_digits_end(s, t, p + 1, e);
    } else {
        if e < s.len() {
            lemma_shift_digits_end(s, e + 1, s, e + 1);
        }
        assert(e >= s.len() || !is_digit(s[e]));
        assert(e >= t.len() || !is_digit(t[e]));
    }
}

pub proof fn lemma_prefix_key_at(s: Seq<char>, t: Seq<char>, p: int, e: int)
    requires
        agree_to(s, t, p, e),
        key_at(s, p) matches Some((k, f)) && f == e,
    ensures
        key_at(t, p) == key_at(s, p),
{
    lemma_skip_ws(s, p);
    let a = skip_ws(s, p);
    lemma_scan_string_bounds(s, a + 1, Seq::empty());
    lemma_prefix_skip_ws(s, t, p, e);
    assert(s[a] == t[a]);
    lemma_prefix_scan_string(s, t, a + 1, e, Seq::empty());
}

pub proof fn lemma_prefix_colon_at(s: Seq<char>, t: Seq<char>, p: int, e: int)
    requires
        agree_to(s, t, p, e),
        colon_at(s, p) == Some(e),
    ensures
        colon_at(t, p) == Some(e),
{
    lemma_skip_ws(s, p);
    lemma_prefix_skip_ws(s, t, p, e);
    assert(s[e - 1] == t[e - 1]);
}

pub proof fn lemma_prefix_value(s: Seq<char>, t: Seq<char>, p: int, e: int)
    requires
        agree_to(s, t, p, e),
        parse_value_at(s, p) matches Some((v, f)) && f == e,
    ensures
        parse_value_at(t, p) == parse_value_at(s, p),
    decreases s.len() - p, 0int,
{
    lemma_skip_ws(s, p);
    let a = skip_ws(s, p);
    lemma_value_bounds(s, p);
    let c = s[a];
    if c == '"' {
        lemma_scan_string_bounds(s, a + 1, Seq::empty());
    } else if c == '{' {
        lemma_object_bounds(s, a + 1);
    } else if c == '[' {
        lemma_array_bounds(s, a + 1);
    } else if c == '-' || is_digit(c) {
        lemma_shift_digits_end(s, a + 1, s, a + 1);
    }
    lemma_prefix_skip_ws(s, t, p, e);
    assert(s[a] == t[a]);
    if c == '"' {
        lemma_prefix_scan_string(s, t, a + 1, e, Seq::empty());
    } else if c == 'n' || c == 't' || c == 'f' {
        assert(t.subrange(a, e) =~= s.subrange(a, e));
    } else if c == '{' {
        lemma_agree_within(s, t, p, e, a + 1, e - 1);
        lemma_prefix_object(s, t, a + 1, e);
    } else if c == '[' {
        lemma_prefix_array(s, t, a + 1, e);
    } else {
        lemma_prefix_digits_end(s, t, a + 1, e);
        assert(t.subrange(a + 1, e) =~= s.subrange(a + 1, e));
    }
}

pub proof fn lemma_prefix_pair(s: Seq<char>, t: Seq<char>, p: int, e: int)
    requires
        agree_to(s, t, p, e),
        parse_pair_at(s, p) matches Some((kv, f)) && f == e,
    ensures
        parse_pair_at(t, p) == parse_pair_at(s, p),
    decreases s.len() - p, 0int,
{
    lemma_key_colon_bounds(s, p);
    let e1 = key_at(s, p)->Some_0.1;
    lemma_key_colon_bounds(s, e1);
    let e2 = colon_at(s, e1)->Some_0;
    lemma_value_bounds(s, e2);
    lemma_agree_within(s, t, p, e, p, e1);
    lemma_prefix_key_at(s, t, p, e1);
    lemma_agree_within(s, t, p, e, e1, e2);
    lemma_prefix_colon_at(s, t, e1, e2);
    assert(agree_to(s, t, e2, e));
    lemma_prefix_value(s, t, e2, e);
}

pub proof fn lemma_prefix_members(s: Seq<char>, t: Seq<char>, p: int, e: int, acc: Doc)
    requires
        agree_to(s, t, p, e),
        parse_members_at(s, p, acc) matches Some((m, f)) && f == e,
    ensures
        parse_members_at(t, p, acc) == parse_members_at(s, p, acc),
    decreases s.len() - p, 1int,
{
    lemma_pair_bounds(s, p);
    let (kv, e1) = parse_pair_at(s, p)->Some_0;
    lemma_skip_ws(s, e1);
    let a = skip_ws(s, e1);
    if s[a] == ',' {
        lemma_members_bounds(s, a + 1, put(acc, kv.0, kv.1));
    }
    lemma_agree_within(s, t, p, e, p, e1);
    lemma_prefix_pair(s, t, p, e1);
    assert(agree_to(s, t, e1, e));
    lemma_prefix_skip_ws(s, t, e1, e);
    assert(s[a] == t[a]);
    if s[a] == ',' {
        assert(agree_to(s, t, a + 1, e));
        lemma_prefix_members(s, t, a + 1, e, put(acc, kv.0, kv.1));
    }
}

pub proof fn lemma_prefix_object(s: Seq<char>, t: Seq<char>, p: int, e: int)
    requires
        agree_to(s, t, p, e),
        parse_object_at(s, p) matches Some((m, f)) && f == e,
    ensures
        parse_object_at(t, p) == parse_object_at(s, p),
    decreases s.len() - p, 2int,
{
    lemma_skip_ws(s, p);
    let a = skip_ws(s, p);
    lemma_members_bounds(s, p, Seq::empty());
    if a < s.len() && s[a] == '}' {
        lemma_prefix_skip_ws(s, t, p, e);
    } else {
        lemma_prefix_members(s, t, p, e, Seq::empty());
        if a < e {
            lemma_prefix_skip_ws(s, t, p, e);
            assert(s[a] == t[a]);
        }
    }
}

pub proof fn lemma_prefix_elements(s: Seq<char>, t: Seq<char>, p: int, e: int, acc: Seq<Val>)
    requires
        agree_to(s, t, p, e),
        parse_elements_at(s, p, acc) matches Some((xs, f)) && f == e,
    ensures
        parse_elements_at(t, p, acc) == parse_elements_at(s, p, acc),
    decreases s.len() - p, 1int,
{
    lemma_value_bounds(s, p);
    let (v, e1) = parse_value_at(s, p)->Some_0;
    lemma_skip_ws(s, e1);
    let a = skip_ws(s, e1);
    if s[a] == ',' {
        lemma_elements_bounds(s, a + 1, acc.push(v));
    }
    lemma_agree_within(s, t, p, e, p, e1);
    lemma_prefix_value(s, t, p, e1);
    assert(agree_to(s, t, e1, e));
    lemma_prefix_skip_ws(s, t, e1, e);
    assert(s[a] == t[a]);
    if s[a] == ',' {
        assert(agree_to(s, t, a + 1, e));
        lemma_prefix_elements(s, t, a + 1, e, acc.push(v));
    }
}

pub proof fn lemma_prefix_array(s: Seq<char>, t: Seq<char>, p: int, e: int)
    requires
        agree_to(s, t, p, e),
        parse_array_at(s, p) matches Some((xs, f)) && f == e,
    ensures
        parse_array_at(t, p) == parse_array_at(s, p),
    decreases s.len() - p, 2int,
{
    lemma_skip_ws(s, p);
    let a = skip_ws(s, p);
    lemma_elements_bounds(s, p, Seq::empty());
    if a < s.len() && s[a] == ']' {
        lemma_prefix_skip_ws(s, t, p, e);
    } else {
        lemma_prefix_elements(s, t, p, e, Seq::empty());
        if a < e {
            lemma_prefix_skip_ws(s, t, p, e);
            assert(s[a] == t[a]);
        }
    }
}

} // verus!
