//! The gaps between tokens: the indices where the grammar skips whitespace.
//! Whitespace inserted at any of them leaves what is read unchanged.
use vstd::prelude::*;
use crate::locality::{
    agree_to, lemma_array_bounds, lemma_elements_bounds,
    lemma_key_colon_bounds, lemma_lists_from_skip, lemma_members_bounds, lemma_object_bounds,
    lemma_pair_bounds, lemma_prefix_colon_at, lemma_prefix_key_at, lemma_prefix_pair,
    lemma_prefix_skip_ws, lemma_prefix_value, lemma_same_from_advance, lemma_shift_elements,
    lemma_shift_members, lemma_shift_pair, lemma_shift_skip_ws, lemma_shift_value, lemma_value_bounds, same_from,
};
use crate::parser::{
    colon_at, key_at, parse_array_at, parse_elements_at, parse_members_at, parse_object_at,
    parse_pair_at, parse_value_at, put,
};
use crate::text::{is_ws, lemma_skip_ws, skip_ws};
use crate::value::{Doc, Val};

verus! {

/// `s` with `w` inserted at index `i`.
pub open spec fn insert_at(s: Seq<char>, i: int, w: Seq<char>) -> Seq<char> {
    s.subrange(0, i) + w + s.subrange(i, s.len() as int)
}

/// Every character of `w` is whitespace.
pub open spec fn all_ws(w: Seq<char>) -> bool {
    forall|k: int| 0 <= k < w.len() ==> is_ws(#[trigger] w[k])
}

/// The gaps of the value read from `p`: the whitespace before it, and the
/// gaps inside it where it is an object or an array.
pub open spec fn gap_value(s: Seq<char>, p: int, i: int) -> bool
    decreases s.len() - p, 0int,
{
    if p < 0 || p > s.len() {
        false
    } else {
        let a = skip_ws(s, p);
        proof {
            lemma_skip_ws(s, p);
        }
        (p <= i <= a) || (a < s.len() && s[a] == '{' && gap_object(s, a + 1, i)) || (a < s.len()
            && s[a] == '[' && gap_array(s, a + 1, i))
    }
}

/// The gaps of the pair read from `p`: before the key, before the colon,
/// and those of the value.
pub open spec fn gap_pair(s: Seq<char>, p: int, i: int) -> bool
    decreases s.len() - p, 0int,
{
    if p < 0 || p > s.len() {
        false
    } else {
        (p <= i <= skip_ws(s, p)) || match key_at(s, p) {
            None => false,
            Some((k, e1)) => (e1 <= i <= skip_ws(s, e1)) || match colon_at(s, e1) {
                None => false,
                Some(e2) => p < e2 <= s.len() && gap_value(s, e2, i),
            },
        }
    }
}

/// The gaps of the members read from `p`: those of each pair, and those
/// before each comma and before the closing brace.
pub open spec fn gap_members(s: Seq<char>, p: int, i: int) -> bool
    decreases s.len() - p, 1int,
{
    if p < 0 || p > s.len() {
        false
    } else {
        gap_pair(s, p, i) || match parse_pair_at(s, p) {
            None => false,
            Some((kv, e)) => {
                let a = skip_ws(s, e);
                if e <= p || e > s.len() {
                    false
                } else {
                    proof {
                        lemma_skip_ws(s, e);
                    }
                    (e <= i <= a) || (a < s.len() && s[a] == ',' && gap_members(s, a + 1, i))
                }
            },
        }
    }
}

/// The gaps of the object whose opening brace stands just before `p`.
pub open spec fn gap_object(s: Seq<char>, p: int, i: int) -> bool
    decreases s.len() - p, 2int,
{
    let a = skip_ws(s, p);
    if 0 <= p && a < s.len() && s[a] == '}' {
        p <= i <= a
    } else {
        gap_members(s, p, i)
    }
}

/// The gaps of the elements read from `p`.
pub open spec fn gap_elements(s: Seq<char>, p: int, i: int) -> bool
    decreases s.len() - p, 1int,
{
    if p < 0 || p > s.len() {
        false
    } else {
        gap_value(s, p, i) || match parse_value_at(s, p) {
            None => false,
            Some((v, e)) => {
                let a = skip_ws(s, e);
                if e <= p || e > s.len() {
                    false
                } else {
                    proof {
                        lemma_skip_ws(s, e);
                    }
                    (e <= i <= a) || (a < s.len() && s[a] == ',' && gap_elements(s, a + 1, i))
                }
            },
        }
    }
}

/// The gaps of the array whose opening bracket stands just before `p`.
pub open spec fn gap_array(s: Seq<char>, p: int, i: int) -> bool
    decreases s.len() - p, 2int,
{
    let a = skip_ws(s, p);
    if 0 <= p && a < s.len() && s[a] == ']' {
        p <= i <= a
    } else {
        gap_elements(s, p, i)
    }
}

pub proof fn lemma_skip_ws_run(s: Seq<char>, p: int, q: int)
    requires
        0 <= p <= q <= s.len(),
        forall|k: int| p <= k < q ==> is_ws(#[trigger] s[k]),
    ensures
        skip_ws(s, p) == skip_ws(s, q),
    decreases q - p,
{
    if p < q {
        lemma_skip_ws_run(s, p + 1, q);
    }
}

pub proof fn lemma_insert_facts(s: Seq<char>, i: int, w: Seq<char>)
    requires
        0 <= i <= s.len(),
        all_ws(w),
    ensures
        insert_at(s, i, w).len() == s.len() + w.len(),
        forall|k: int| 0 <= k < i ==> #[trigger] insert_at(s, i, w)[k] == s[k],
        forall|k: int| i <= k < i + w.len() ==> is_ws(#[trigger] insert_at(s, i, w)[k]),
        same_from(s, i, insert_at(s, i, w), i + w.len()),
{
    let t = insert_at(s, i, w);
    let d = w.len() as int;
    assert forall|k: int| i <= k < i + d implies is_ws(#[trigger] t[k]) by {
        assert(t[k] == w[k - i]);
    }
    assert forall|k: int| 0 <= k < s.len() - i implies #[trigger] s[i + k] == t[i + d + k] by {
        assert(t[i + d + k] == s.subrange(i, s.len() as int)[k]);
    }
}

/// Below the insertion, the text with the insertion agrees with the text.
pub proof fn lemma_insert_agree(s: Seq<char>, i: int, w: Seq<char>, q: int, f: int)
    requires
        0 <= q <= f <= i <= s.len(),
        all_ws(w),
    ensures
        agree_to(s, insert_at(s, i, w), q, f),
{
    lemma_insert_facts(s, i, w);
    let t = insert_at(s, i, w);
    if f < i {
        assert(t[f] == s[f]);
    } else if w.len() > 0 {
        assert(is_ws(t[i]));
    } else {
        assert(t =~= s);
    }
}

/// Whitespace inserted in the run of whitespace from `c` on moves the end
/// of that run by its length.
pub proof fn lemma_ws_region(s: Seq<char>, i: int, w: Seq<char>, c: int)
    requires
        0 <= c <= i <= skip_ws(s, c),
        i <= s.len(),
        all_ws(w),
    ensures
        skip_ws(insert_at(s, i, w), c) == skip_ws(s, c) + w.len(),
{
    let t = insert_at(s, i, w);
    let d = w.len() as int;
    lemma_skip_ws(s, c);
    lemma_insert_facts(s, i, w);
    assert forall|k: int| c <= k < i + d implies is_ws(#[trigger] t[k]) by {
        if k < i {
            assert(t[k] == s[k]);
        }
    }
    lemma_skip_ws_run(t, c, i + d);
    lemma_shift_skip_ws(s, i, t, i + d);
    lemma_skip_ws_run(s, c, i);
}

pub proof fn lemma_insert_value(s: Seq<char>, p: int, i: int, w: Seq<char>)
    requires
        0 <= p <= s.len(),
        all_ws(w),
        parse_value_at(s, p) is Some,
        gap_value(s, p, i),
    ensures
        p <= i < parse_value_at(s, p)->Some_0.1,
        parse_value_at(insert_at(s, i, w), p) == Some(
            (parse_value_at(s, p)->Some_0.0, parse_value_at(s, p)->Some_0.1 + w.len()),
        ),
    decreases s.len() - p, 0int,
{
    let t = insert_at(s, i, w);
    let d = w.len() as int;
    lemma_skip_ws(s, p);
    let a = skip_ws(s, p);
    lemma_value_bounds(s, p);
    if p <= i <= a {
        lemma_insert_facts(s, i, w);
        lemma_ws_region(s, i, w, p);
        lemma_same_from_advance(s, i, t, i + d, a - i);
        lemma_shift_skip_ws(s, a, t, a + d);
        lemma_skip_ws(t, p);
        lemma_lists_from_skip(t, p, a + d);
        lemma_lists_from_skip(s, p, a);
        lemma_shift_value(s, a, t, a + d);
        lemma_value_bounds(s, a);
    } else if s[a] == '{' {
        lemma_object_bounds(s, a + 1);
        lemma_insert_object(s, a + 1, i, w);
        lemma_insert_facts(s, i, w);
        lemma_insert_agree(s, i, w, p, i);
        lemma_prefix_skip_ws(s, t, p, i);
        assert(t[a] == s[a]);
    } else {
        lemma_array_bounds(s, a + 1);
        lemma_insert_array(s, a + 1, i, w);
        lemma_insert_facts(s, i, w);
        lemma_insert_agree(s, i, w, p, i);
        lemma_prefix_skip_ws(s, t, p, i);
        assert(t[a] == s[a]);
    }
}

#[verifier::rlimit(60)]
pub proof fn lemma_insert_pair(s: Seq<char>, p: int, i: int, w: Seq<char>)
    requires
        0 <= p <= s.len(),
        all_ws(w),
        parse_pair_at(s, p) is Some,
        gap_pair(s, p, i),
    ensures
        p <= i < parse_pair_at(s, p)->Some_0.1,
        parse_pair_at(insert_at(s, i, w), p) == Some(
            (parse_pair_at(s, p)->Some_0.0, parse_pair_at(s, p)->Some_0.1 + w.len()),
        ),
    decreases s.len() - p, 0int,
{
    let t = insert_at(s, i, w);
    let d = w.len() as int;
    lemma_skip_ws(s, p);
    let a = skip_ws(s, p);
    lemma_key_colon_bounds(s, p);
    let e1 = key_at(s, p)->Some_0.1;
    lemma_key_colon_bounds(s, e1);
    let e2 = colon_at(s, e1)->Some_0;
    lemma_value_bounds(s, e2);
    lemma_skip_ws(s, e1);
    let c = skip_ws(s, e1);
    if p <= i <= a {
        lemma_insert_facts(s, i, w);
        lemma_ws_region(s, i, w, p);
        lemma_same_from_advance(s, i, t, i + d, a - i);
        lemma_shift_skip_ws(s, a, t, a + d);
        lemma_skip_ws(t, p);
        lemma_lists_from_skip(t, p, a + d);
        lemma_lists_from_skip(s, p, a);
        lemma_shift_pair(s, a, t, a + d);
    } else if e1 <= i <= c {
        lemma_insert_facts(s, i, w);
        lemma_insert_agree(s, i, w, p, e1);
        lemma_prefix_key_at(s, t, p, e1);
        lemma_ws_region(s, i, w, e1);
        lemma_same_from_advance(s, i, t, i + d, c - i);
        assert(s[c] == t[c + d]);
        lemma_same_from_advance(s, i, t, i + d, e2 - i);
        lemma_shift_value(s, e2, t, e2 + d);
    } else {
        lemma_insert_value(s, e2, i, w);
        lemma_insert_facts(s, i, w);
        lemma_insert_agree(s, i, w, p, e1);
        lemma_prefix_key_at(s, t, p, e1);
        lemma_insert_agree(s, i, w, e1, e2);
        lemma_prefix_colon_at(s, t, e1, e2);
    }
}

#[verifier::rlimit(60)]
pub proof fn lemma_insert_members(s: Seq<char>, p: int, i: int, w: Seq<char>, acc: Doc)
    requires
        0 <= p <= s.len(),
        all_ws(w),
        parse_members_at(s, p, acc) is Some,
        gap_members(s, p, i),
    ensures
        p <= i < parse_members_at(s, p, acc)->Some_0.1,
        parse_members_at(insert_at(s, i, w), p, acc) == Some(
            (parse_members_at(s, p, acc)->Some_0.0, parse_members_at(s, p, acc)->Some_0.1 + w.len()),
        ),
    decreases s.len() - p, 1int,
{
    let t = insert_at(s, i, w);
    let d = w.len() as int;
    lemma_pair_bounds(s, p);
    let (kv, e1) = parse_pair_at(s, p)->Some_0;
    lemma_skip_ws(s, e1);
    let a = skip_ws(s, e1);
    let acc2 = put(acc, kv.0, kv.1);
    if s[a] == ',' {
        lemma_members_bounds(s, a + 1, acc2);
    }
    if gap_pair(s, p, i) {
        lemma_insert_pair(s, p, i, w);
        lemma_insert_facts(s, i, w);
        lemma_same_from_advance(s, i, t, i + d, e1 - i);
        lemma_shift_skip_ws(s, e1, t, e1 + d);
        lemma_same_from_advance(s, i, t, i + d, a - i);
        assert(s[a] == t[a + d]);
        if s[a] == ',' {
            lemma_same_from_advance(s, i, t, i + d, a + 1 - i);
            lemma_shift_members(s, a + 1, t, a + 1 + d, acc2);
        }
    } else if e1 <= i <= a {
        lemma_insert_facts(s, i, w);
        lemma_insert_agree(s, i, w, p, e1);
        lemma_prefix_pair(s, t, p, e1);
        lemma_ws_region(s, i, w, e1);
        lemma_same_from_advance(s, i, t, i + d, a - i);
        assert(s[a] == t[a + d]);
        if s[a] == ',' {
            lemma_same_from_advance(s, i, t, i + d, a + 1 - i);
            lemma_shift_members(s, a + 1, t, a + 1 + d, acc2);
        }
    } else {
        lemma_insert_members(s, a + 1, i, w, acc2);
        lemma_insert_facts(s, i, w);
        lemma_insert_agree(s, i, w, p, e1);
        lemma_prefix_pair(s, t, p, e1);
        lemma_insert_agree(s, i, w, e1, i);
        lemma_prefix_skip_ws(s, t, e1, i);
        assert(t[a] == s[a]);
    }
}

pub proof fn lemma_insert_object(s: Seq<char>, p: int, i: int, w: Seq<char>)
    requires
        0 <= p <= s.len(),
        all_ws(w),
        parse_object_at(s, p) is Some,
        gap_object(s, p, i),
    ensures
        p <= i < parse_object_at(s, p)->Some_0.1,
        parse_object_at(insert_at(s, i, w), p) == Some(
            (parse_object_at(s, p)->Some_0.0, parse_object_at(s, p)->Some_0.1 + w.len()),
        ),
    decreases s.len() - p, 2int,
{
    let t = insert_at(s, i, w);
    let d = w.len() as int;
    lemma_skip_ws(s, p);
    let a = skip_ws(s, p);
    if a < s.len() && s[a] == '}' {
        lemma_insert_facts(s, i, w);
        lemma_ws_region(s, i, w, p);
        lemma_same_from_advance(s, i, t, i + d, a - i);
        assert(s[a] == t[a + d]);
    } else {
        lemma_members_bounds(s, p, Seq::empty());
        lemma_insert_members(s, p, i, w, Seq::empty());
        lemma_insert_facts(s, i, w);
        if i <= a {
            lemma_ws_region(s, i, w, p);
            lemma_same_from_advance(s, i, t, i + d, a - i);
            if a < s.len() {
                assert(s[a] == t[a + d]);
            }
        } else {
            lemma_insert_agree(s, i, w, p, i);
            lemma_prefix_skip_ws(s, t, p, i);
            assert(t[a] == s[a]);
        }
    }
}

#[verifier::rlimit(60)]
pub proof fn lemma_insert_elements(s: Seq<char>, p: int, i: int, w: Seq<char>, acc: Seq<Val>)
    requires
        0 <= p <= s.len(),
        all_ws(w),
        parse_elements_at(s, p, acc) is Some,
        gap_elements(s, p, i),
    ensures
        p <= i < parse_elements_at(s, p, acc)->Some_0.1,
        parse_elements_at(insert_at(s, i, w), p, acc) == Some(
            (parse_elements_at(s, p, acc)->Some_0.0, parse_elements_at(s, p, acc)->Some_0.1
                + w.len()),
        ),
    decreases s.len() - p, 1int,
{
    let t = insert_at(s, i, w);
    let d = w.len() as int;
    lemma_value_bounds(s, p);
    let (v, e1) = parse_value_at(s, p)->Some_0;
    lemma_skip_ws(s, e1);
    let a = skip_ws(s, e1);
    let acc2 = acc.push(v);
    if s[a] == ',' {
        lemma_elements_bounds(s, a + 1, acc2);
    }
    if gap_value(s, p, i) {
        lemma_insert_value(s, p, i, w);
        lemma_insert_facts(s, i, w);
        lemma_same_from_advance(s, i, t, i + d, e1 - i);
        lemma_shift_skip_ws(s, e1, t, e1 + d);
        lemma_same_from_advance(s, i, t, i + d, a - i);
        assert(s[a] == t[a + d]);
        if s[a] == ',' {
            lemma_same_from_advance(s, i, t, i + d, a + 1 - i);
            lemma_shift_elements(s, a + 1, t, a + 1 + d, acc2);
        }
    } else if e1 <= i <= a {
        lemma_insert_facts(s, i, w);
        lemma_insert_agree(s, i, w, p, e1);
        lemma_prefix_value(s, t, p, e1);
        lemma_ws_region(s, i, w, e1);
        lemma_same_from_advance(s, i, t, i + d, a - i);
        assert(s[a] == t[a + d]);
        if s[a] == ',' {
            lemma_same_from_advance(s, i, t, i + d, a + 1 - i);
            lemma_shift_elements(s, a + 1, t, a + 1 + d, acc2);
        }
    } else {
        lemma_insert_elements(s, a + 1, i, w, acc2);
        lemma_insert_facts(s, i, w);
        lemma_insert_agree(s, i, w, p, e1);
        lemma_prefix_value(s, t, p, e1);
        lemma_insert_agree(s, i, w, e1, i);
        lemma_prefix_skip_ws(s, t, e1, i);
        assert(t[a] == s[a]);
    }
}

pub proof fn lemma_insert_array(s: Seq<char>, p: int, i: int, w: Seq<char>)
    requires
        0 <= p <= s.len(),
        all_ws(w),
        parse_array_at(s, p) is Some,
        gap_array(s, p, i),
    ensures
        p <= i < parse_array_at(s, p)->Some_0.1,
        parse_array_at(insert_at(s, i, w), p) == Some(
            (parse_array_at(s, p)->Some_0.0, parse_array_at(s, p)->Some_0.1 + w.len()),
        ),
    decreases s.len() - p, 2int,
{
    let t = insert_at(s, i, w);
    let d = w.len() as int;
    lemma_skip_ws(s, p);
    let a = skip_ws(s, p);
    if a < s.len() && s[a] == ']' {
        lemma_insert_facts(s, i, w);
        lemma_ws_region(s, i, w, p);
        lemma_same_from_advance(s, i, t, i + d, a - i);
        assert(s[a] == t[a + d]);
    } else {
        lemma_elements_bounds(s, p, Seq::empty());
        lemma_insert_elements(s, p, i, w, Seq::empty());
        lemma_insert_facts(s, i, w);
        if i <= a {
            lemma_ws_region(s, i, w, p);
            lemma_same_from_advance(s, i, t, i + d, a - i);
            if a < s.len() {
                assert(s[a] == t[a + d]);
            }
        } else {
            lemma_insert_agree(s, i, w, p, i);
            lemma_prefix_skip_ws(s, t, p, i);
            assert(t[a] == s[a]);
        }
    }
}

} // verus!
