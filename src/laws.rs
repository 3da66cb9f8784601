//! Laws of the document language, proved over the spec functions that the
//! parser's and the printer's contracts use: what an empty document renders
//! as, which documents read back from their own text, and where whitespace
//! does not matter.
use vstd::prelude::*;
use crate::parser::{
    colon_at, digits_end, digits_value, has_key, key_at, keys_unique, parse_document,
    parse_members_at, parse_object_at, parse_pair_at, parse_text, parse_value_at, put,
    scan_number, scan_string,
};
use crate::render::{
    entries_text, escape, key_text, line_end, lemma_line_end, nat_text, pad,
    render_doc, render_value, strip_cr, digit_char,
};
use crate::text::{
    is_digit, is_ws, lemma_skip_ws, lemma_skip_ws_back, skip_ws, skip_ws_back, trim,
};
use crate::gaps::{
    all_ws, gap_object, insert_at, lemma_insert_agree, lemma_insert_facts, lemma_insert_object,
    lemma_ws_region,
};
use crate::value::{Doc, Val};

verus! {

pub proof fn lemma_digit_char(d: nat)
    requires
        d < 10,
    ensures
        is_digit(digit_char(d)),
        digit_char(d) as int - '0' as int == d,
{
}

pub proof fn lemma_nat_text(n: nat)
    ensures
        nat_text(n).len() > 0,
        forall|i: int| 0 <= i < nat_text(n).len() ==> is_digit(#[trigger] nat_text(n)[i]),
        digits_value(nat_text(n)) == n,
    decreases n,
{
    if n < 10 {
        lemma_digit_char(n);
        let t = nat_text(n);
        assert(t.drop_last() =~= Seq::<char>::empty());
        assert(digits_value(Seq::<char>::empty()) == 0);
    } else {
        lemma_nat_text(n / 10);
        lemma_digit_char(n % 10);
        let t = nat_text(n);
        assert(t.drop_last() =~= nat_text(n / 10));
        assert(n / 10 * 10 + n % 10 == n) by (nonlinear_arith);
    }
}

/// Whitespace from `p` up to `q`, and none at `q`: `skip_ws` stops at `q`.
pub proof fn lemma_skip_ws_to(s: Seq<char>, p: int, q: int)
    requires
        0 <= p <= q <= s.len(),
        forall|k: int| p <= k < q ==> is_ws(#[trigger] s[k]),
        q < s.len() ==> !is_ws(s[q]),
    ensures
        skip_ws(s, p) == q,
    decreases q - p,
{
    if p < q {
        lemma_skip_ws_to(s, p + 1, q);
    }
}

pub proof fn lemma_escape_concat(a: Seq<char>, b: Seq<char>)
    ensures
        escape(a + b) == escape(a) + escape(b),
    decreases b.len(),
{
    if b.len() == 0 {
        assert(a + b =~= a);
        assert(escape(b) =~= Seq::<char>::empty());
        assert(escape(a) + escape(b) =~= escape(a));
    } else {
        lemma_escape_concat(a, b.drop_last());
        assert((a + b).drop_last() =~= a + b.drop_last());
        assert((a + b).last() == b.last());
        if b.last() == '"' || b.last() == '\\' {
            assert(escape(a + b) =~= escape(a) + escape(b));
        } else {
            assert(escape(a + b) =~= escape(a) + escape(b));
        }
    }
}

pub proof fn lemma_escape_single(c: char)
    ensures
        escape(seq![c]) == if c == '"' || c == '\\' {
            seq!['\\', c]
        } else {
            seq![c]
        },
{
    assert(seq![c].drop_last() =~= Seq::<char>::empty());
    assert(escape(Seq::<char>::empty()) =~= Seq::<char>::empty());
    assert(escape(seq![c]) =~= if c == '"' || c == '\\' {
        seq!['\\', c]
    } else {
        seq![c]
    });
}

/// Text without quotes or backslashes is its own escape.
pub proof fn lemma_escape_plain(t: Seq<char>)
    requires
        !t.contains('"'),
        !t.contains('\\'),
    ensures
        escape(t) == t,
    decreases t.len(),
{
    if t.len() > 0 {
        assert(!t.drop_last().contains('"')) by {
            if t.drop_last().contains('"') {
                let i = choose|i: int| 0 <= i < t.drop_last().len() && t.drop_last()[i] == '"';
                assert(t[i] == '"');
            }
        }
        assert(!t.drop_last().contains('\\')) by {
            if t.drop_last().contains('\\') {
                let i = choose|i: int| 0 <= i < t.drop_last().len() && t.drop_last()[i] == '\\';
                assert(t[i] == '\\');
            }
        }
        lemma_escape_plain(t.drop_last());
        assert(t[t.len() - 1] != '"');
        assert(t[t.len() - 1] != '\\');
        assert(escape(t) =~= t);
    }
}

/// The escaped text of `t` followed by a quote reads back as `t`.
pub proof fn lemma_scan_escaped(s: Seq<char>, p: int, t: Seq<char>, acc: Seq<char>)
    requires
        0 <= p,
        p + escape(t).len() < s.len(),
        s.subrange(p, p + escape(t).len()) == escape(t),
        s[p + escape(t).len()] == '"',
    ensures
        scan_string(s, p, acc) == Some((acc + t, p + escape(t).len() + 1)),
    decreases t.len(),
{
    let n = escape(t).len();
    if t.len() == 0 {
        assert(escape(t) =~= Seq::<char>::empty());
        assert(acc + t =~= acc);
    } else {
        let c = t[0];
        let rest = t.drop_first();
        assert(t =~= seq![c] + rest);
        lemma_escape_concat(seq![c], rest);
        lemma_escape_single(c);
        let head = escape(seq![c]);
        assert(escape(t) == head + escape(rest));
        assert(s[p] == escape(t)[0]);
        assert(acc.push(c) + rest =~= acc + t);
        assert forall|k: int| 0 <= k < escape(rest).len() implies s[p + head.len() + k] == escape(
            rest,
        )[k] by {
            assert(s.subrange(p, p + n)[head.len() + k] == s[p + head.len() + k]);
            assert(escape(t)[head.len() + k] == escape(rest)[k]);
        }
        assert(s.subrange(p + head.len(), p + head.len() + escape(rest).len()) =~= escape(rest));
        if c == '"' || c == '\\' {
            assert(s[p] == '\\');
            assert(s[p + 1] == escape(t)[1]);
            lemma_scan_escaped(s, p + 2, rest, acc.push(c));
        } else {
            lemma_scan_escaped(s, p + 1, rest, acc.push(c));
        }
    }
}

/// The digits `d` stand at `p` and no digit follows them.
pub proof fn lemma_digits_end(s: Seq<char>, p: int, d: Seq<char>)
    requires
        0 <= p,
        p + d.len() <= s.len(),
        s.subrange(p, p + d.len()) == d,
        forall|i: int| 0 <= i < d.len() ==> is_digit(#[trigger] d[i]),
        p + d.len() < s.len() ==> !is_digit(s[p + d.len()]),
    ensures
        digits_end(s, p) == p + d.len(),
    decreases d.len(),
{
    if d.len() > 0 {
        assert(s[p] == d[0]);
        let rest = d.drop_first();
        assert(s.subrange(p + 1, p + 1 + rest.len()) =~= rest);
        lemma_digits_end(s, p + 1, rest);
    }
}

/// A value that prints on a single line: a scalar, and a string only where
/// it holds no line feed.
pub open spec fn is_flat_scalar(v: Val) -> bool {
    match v {
        Val::Str(t) => !t.contains('\n'),
        Val::Num(_) => true,
        Val::Bool(_) => true,
        Val::Null => true,
        _ => false,
    }
}

pub proof fn lemma_escape_keeps_out(t: Seq<char>, c: char)
    requires
        !t.contains(c),
        c != '"',
        c != '\\',
    ensures
        !escape(t).contains(c),
    decreases t.len(),
{
    if t.len() > 0 {
        assert(!t.drop_last().contains(c)) by {
            if t.drop_last().contains(c) {
                let i = choose|i: int| 0 <= i < t.drop_last().len() && t.drop_last()[i] == c;
                assert(t[i] == c);
            }
        }
        lemma_escape_keeps_out(t.drop_last(), c);
        assert(t[t.len() - 1] != c);
        let e = escape(t);
        let e0 = escape(t.drop_last());
        assert forall|i: int| 0 <= i < e.len() implies e[i] != c by {
            if i < e0.len() {
                assert(e[i] == e0[i]);
            }
        }
    }
}

/// The shape of a flat scalar's text: it starts with neither whitespace
/// nor a line feed, holds no line feed, and ends with neither a carriage
/// return nor whitespace.
pub proof fn lemma_flat_scalar_text(v: Val)
    requires
        is_flat_scalar(v),
    ensures
        render_value(v).len() > 0,
        !is_ws(render_value(v)[0]),
        !render_value(v).contains('\n'),
        render_value(v).last() != '\r',
{
    let r = render_value(v);
    match v {
        Val::Str(t) => {
            lemma_escape_keeps_out(t, '\n');
            let e = escape(t);
            assert forall|i: int| 0 <= i < r.len() implies r[i] != '\n' by {
                if 0 < i < r.len() - 1 {
                    assert(r[i] == e[i - 1]);
                }
            }
        },
        Val::Num(n) => {
            if n < 0 {
                lemma_nat_text((-n) as nat);
                let d = nat_text((-n) as nat);
                assert forall|i: int| 0 <= i < r.len() implies r[i] != '\n' by {
                    if i > 0 {
                        assert(r[i] == d[i - 1]);
                    }
                }
                assert(r.last() == d[d.len() - 1]);
            } else {
                lemma_nat_text(n as nat);
                let d = nat_text(n as nat);
                assert(r == d);
                assert(is_digit(r[0]));
                assert(is_digit(r[r.len() - 1]));
                assert forall|i: int| 0 <= i < r.len() implies r[i] != '\n' by {
                    assert(is_digit(r[i]));
                }
            }
        },
        Val::Bool(b) => {
            assert(!r.contains('\n'));
        },
        Val::Null => {
            assert(!r.contains('\n'));
        },
        _ => {},
    }
}

/// A flat scalar's text, after whitespace from `p0`, reads back as the value.
pub proof fn lemma_parse_flat_scalar(s: Seq<char>, p0: int, p: int, v: Val)
    requires
        is_flat_scalar(v),
        0 <= p0 <= p,
        skip_ws(s, p0) == p,
        p + render_value(v).len() < s.len(),
        s.subrange(p, p + render_value(v).len()) == render_value(v),
        !is_digit(s[p + render_value(v).len()]),
    ensures
        parse_value_at(s, p0) == Some((v, p + render_value(v).len())),
{
    let r = render_value(v);
    assert(s[p] == r[0]);
    match v {
        Val::Str(t) => {
            let e = escape(t);
            assert(s.subrange(p + 1, p + 1 + e.len()) =~= e) by {
                assert forall|k: int| 0 <= k < e.len() implies s[p + 1 + k] == e[k] by {
                    assert(s.subrange(p, p + r.len())[1 + k] == s[p + 1 + k]);
                    assert(r[1 + k] == e[k]);
                }
            }
            assert(s[p + 1 + e.len()] == r[1 + e.len() as int]);
            lemma_scan_escaped(s, p + 1, t, Seq::empty());
            assert(Seq::<char>::empty() + t =~= t);
        },
        Val::Num(n) => {
            if n < 0 {
                let m = (-n) as nat;
                lemma_nat_text(m);
                let d = nat_text(m);
                assert(r == seq!['-'] + d);
                assert(s.subrange(p + 1, p + 1 + d.len()) =~= d) by {
                    assert forall|k: int| 0 <= k < d.len() implies s[p + 1 + k] == d[k] by {
                        assert(s.subrange(p, p + r.len())[1 + k] == s[p + 1 + k]);
                        assert(r[1 + k] == d[k]);
                    }
                }
                lemma_digits_end(s, p + 1, d);
                assert(scan_number('-', s, p + 1) == Some((n, p + r.len())));
            } else {
                let m = n as nat;
                lemma_nat_text(m);
                let d = nat_text(m);
                assert(r == d);
                let rest = d.drop_first();
                assert(s.subrange(p + 1, p + 1 + rest.len()) =~= rest) by {
                    assert forall|k: int| 0 <= k < rest.len() implies s[p + 1 + k] == rest[k] by {
                        assert(s.subrange(p, p + r.len())[1 + k] == s[p + 1 + k]);
                    }
                }
                lemma_digits_end(s, p + 1, rest);
                assert(seq![d[0]] + s.subrange(p + 1, p + d.len()) =~= d);
                assert(is_digit(d[0]));
                assert(scan_number(d[0], s, p + 1) == Some((n, p + r.len())));
            }
        },
        Val::Bool(b) => {
            assert(s.subrange(p, p + r.len()) == r);
        },
        Val::Null => {
            assert(s.subrange(p, p + r.len()) == r);
        },
        _ => {},
    }
}

pub proof fn lemma_line_end_prefix(x: Seq<char>, y: Seq<char>, j: int)
    requires
        0 <= j <= x.len(),
        line_end(x, j) < x.len(),
    ensures
        line_end(x + y, j) == line_end(x, j),
    decreases x.len() - j,
{
    if j < x.len() && x[j] != '\n' {
        lemma_line_end_prefix(x, y, j + 1);
    }
}

/// Padding works line by line: text that ends a line can be padded apart
/// from what follows it.
pub proof fn lemma_pad_append(x: Seq<char>, y: Seq<char>)
    requires
        x.len() == 0 || x.last() == '\n',
    ensures
        pad(x + y) == pad(x) + pad(y),
    decreases x.len(),
{
    if x.len() == 0 {
        assert(x + y =~= y);
        assert(pad(x) =~= Seq::<char>::empty());
        assert(pad(x) + pad(y) =~= pad(y));
    } else {
        lemma_line_end(x, 0);
        let i = line_end(x, 0);
        assert(i < x.len()) by {
            if i == x.len() {
                assert(x[x.len() - 1] != '\n');
            }
        }
        lemma_line_end_prefix(x, y, 0);
        let xy = x + y;
        let rest = x.subrange(i + 1, x.len() as int);
        assert(xy.subrange(0, i) =~= x.subrange(0, i));
        assert(xy.subrange(i + 1, xy.len() as int) =~= rest + y);
        assert(rest.len() == 0 || rest.last() == '\n');
        lemma_pad_append(rest, y);
        assert(pad(xy) =~= pad(x) + pad(y));
    }
}

/// A single line with no line feed in it, and no carriage return at its end.
pub proof fn lemma_pad_line(l: Seq<char>)
    requires
        !l.contains('\n'),
        l.len() == 0 || l.last() != '\r',
    ensures
        pad(l.push('\n')) == seq![' ', ' '] + l + seq!['\n'],
{
    let t = l.push('\n');
    lemma_line_end(t, 0);
    let i = line_end(t, 0);
    assert(i == l.len()) by {
        if i < l.len() {
            assert(l[i] == '\n');
        }
        if i > l.len() {
            assert(t[l.len() as int] == '\n');
        }
    }
    assert(t.subrange(0, i) =~= l);
    assert(strip_cr(l) == l);
    assert(t.subrange(i + 1, t.len() as int) =~= Seq::<char>::empty());
    assert(pad(Seq::<char>::empty()) =~= Seq::<char>::empty());
    assert(pad(t) =~= seq![' ', ' '] + l + seq!['\n']);
}

/// The line that entry `i` of `m` prints as, without its line feed.
pub open spec fn entry_line(m: Doc, i: int) -> Seq<char> {
    key_text(m[i].0) + seq![':', ' '] + render_value(m[i].1) + if i + 1 < m.len() {
        seq![',']
    } else {
        Seq::empty()
    }
}

/// The padded lines of the entries of `m` from `j` on.
pub open spec fn lines_from(m: Doc, j: int) -> Seq<char>
    decreases m.len() - j,
{
    if j < 0 || j >= m.len() {
        Seq::empty()
    } else {
        seq![' ', ' '] + entry_line(m, j) + seq!['\n'] + lines_from(m, j + 1)
    }
}

/// A key that prints quoted and reads back as itself: it holds a space,
/// and no quote, backslash or line feed.
pub open spec fn is_quotable_key(k: Seq<char>) -> bool {
    k.contains(' ') && !k.contains('"') && !k.contains('\\') && !k.contains('\n')
}

/// A document of scalar values whose text reads back as itself.
pub open spec fn is_flat_document(m: Doc) -> bool {
    &&& keys_unique(m)
    &&& forall|i: int| 0 <= i < m.len() ==> #[trigger] is_quotable_key(m[i].0)
    &&& forall|i: int| 0 <= i < m.len() ==> #[trigger] is_flat_scalar(m[i].1)
}

pub proof fn lemma_entry_line_shape(m: Doc, i: int)
    requires
        is_flat_document(m),
        0 <= i < m.len(),
    ensures
        !entry_line(m, i).contains('\n'),
        entry_line(m, i).last() != '\r',
        entry_line(m, i) == seq!['"'] + m[i].0 + seq!['"', ':', ' '] + render_value(m[i].1) + if i
            + 1 < m.len() {
            seq![',']
        } else {
            Seq::empty()
        },
{
    let k = m[i].0;
    let r = render_value(m[i].1);
    assert(is_quotable_key(k));
    assert(is_flat_scalar(m[i].1));
    lemma_flat_scalar_text(m[i].1);
    let c: Seq<char> = if i + 1 < m.len() {
        seq![',']
    } else {
        Seq::empty()
    };
    let l = entry_line(m, i);
    assert(l =~= seq!['"'] + k + seq!['"', ':', ' '] + r + c);
    assert forall|j: int| 0 <= j < l.len() implies l[j] != '\n' by {
        if 1 <= j < 1 + k.len() {
            assert(l[j] == k[j - 1]);
        } else if 4 + k.len() <= j < 4 + k.len() + r.len() {
            assert(l[j] == r[j - 4 - k.len()]);
        }
    }
    if i + 1 >= m.len() {
        assert(l.last() == r.last());
    }
}

/// Padding the entries of `m` gives their padded lines.
pub proof fn lemma_pad_entries(m: Doc, j: int)
    requires
        is_flat_document(m),
        0 <= j <= m.len(),
    ensures
        pad(entries_text(m, j)) + lines_from(m, j) == lines_from(m, 0),
    decreases j,
{
    if j == 0 {
        assert(entries_text(m, 0) =~= Seq::<char>::empty());
        assert(pad(Seq::<char>::empty()) =~= Seq::<char>::empty());
        assert(pad(entries_text(m, j)) + lines_from(m, j) =~= lines_from(m, 0));
    } else {
        lemma_pad_entries(m, j - 1);
        let prev = entries_text(m, j - 1);
        let l = entry_line(m, j - 1);
        assert(entries_text(m, j) =~= prev + l.push('\n'));
        if j - 1 > 0 {
            assert(prev.last() == '\n');
        }
        lemma_pad_append(prev, l.push('\n'));
        lemma_entry_line_shape(m, j - 1);
        lemma_pad_line(l);
        assert(pad(entries_text(m, j)) + lines_from(m, j) =~= pad(prev) + lines_from(m, j - 1));
    }
}

/// The text of one entry, from the line feed before it through its value.
pub open spec fn entry_head(k: Seq<char>, v: Val) -> Seq<char> {
    seq!['\n', ' ', ' ', '"'] + k + seq!['"', ':', ' '] + render_value(v)
}

/// An entry's text at `p`, followed by a character that is no digit, reads
/// back as the key and the value.
pub proof fn lemma_parse_flat_pair(s: Seq<char>, p: int, k: Seq<char>, v: Val)
    requires
        is_quotable_key(k),
        is_flat_scalar(v),
        0 <= p,
        p + entry_head(k, v).len() < s.len(),
        s.subrange(p, p + entry_head(k, v).len()) == entry_head(k, v),
        !is_digit(s[p + entry_head(k, v).len()]),
    ensures
        parse_pair_at(s, p) == Some(((k, v), p + entry_head(k, v).len())),
{
    let h = entry_head(k, v);
    let r = render_value(v);
    let kl = k.len() as int;
    let e = p + h.len();
    lemma_flat_scalar_text(v);
    assert forall|x: int| 0 <= x < h.len() implies s[p + x] == h[x] by {
        assert(s.subrange(p, e)[x] == s[p + x]);
    }
    assert(s[p] == h[0] && s[p + 1] == h[1] && s[p + 2] == h[2] && s[p + 3] == h[3]);
    lemma_skip_ws_to(s, p, p + 3);
    lemma_escape_plain(k);
    assert(s.subrange(p + 4, p + 4 + kl) =~= k) by {
        assert forall|x: int| 0 <= x < kl implies s[p + 4 + x] == k[x] by {
            assert(s[p + 4 + x] == h[4 + x]);
        }
    }
    assert(s[p + 4 + kl] == h[4 + kl]);
    lemma_scan_escaped(s, p + 4, k, Seq::empty());
    assert(Seq::<char>::empty() + k =~= k);
    assert(key_at(s, p) == Some((k, p + 5 + kl)));
    assert(s[p + 5 + kl] == h[5 + kl]);
    lemma_skip_ws_to(s, p + 5 + kl, p + 5 + kl);
    assert(colon_at(s, p + 5 + kl) == Some(p + 6 + kl));
    assert(s[p + 6 + kl] == h[6 + kl]);
    assert(s[p + 7 + kl] == h[7 + kl]);
    lemma_skip_ws_to(s, p + 6 + kl, p + 7 + kl);
    assert(s.subrange(p + 7 + kl, e) =~= r) by {
        assert forall|x: int| 0 <= x < r.len() implies s[p + 7 + kl + x] == r[x] by {
            assert(s[p + 7 + kl + x] == h[7 + kl + x]);
        }
    }
    lemma_parse_flat_scalar(s, p + 6 + kl, p + 7 + kl, v);
}

/// From a line feed at `p` on, the text holds the padded lines of the
/// entries of `m` from `j` on and a closing brace: the members that are read
/// there, after the first `j` entries of `m`, are all of `m`.
pub proof fn lemma_parse_flat_members(s: Seq<char>, m: Doc, j: int, p: int)
    requires
        is_flat_document(m),
        0 <= j < m.len(),
        0 <= p <= s.len(),
        s.subrange(p, s.len() as int) == seq!['\n'] + lines_from(m, j) + seq!['}'],
    ensures
        parse_members_at(s, p, m.take(j)) == Some((m, s.len() as int)),
    decreases m.len() - j,
{
    let k = m[j].0;
    let v = m[j].1;
    let last = j + 1 >= m.len();
    let c: Seq<char> = if last {
        Seq::empty()
    } else {
        seq![',']
    };
    lemma_entry_line_shape(m, j);
    assert(is_quotable_key(k));
    assert(is_flat_scalar(v));
    let rest = lines_from(m, j + 1);
    let h = entry_head(k, v);
    let post = c + seq!['\n'] + rest + seq!['}'];
    let u = s.subrange(p, s.len() as int);
    assert(u =~= h + post);
    let e = p + h.len();
    assert(s.subrange(p, e) =~= u.subrange(0, h.len() as int));
    assert(u.subrange(0, h.len() as int) =~= h);
    assert(s.subrange(e, s.len() as int) =~= u.subrange(h.len() as int, u.len() as int));
    assert(u.subrange(h.len() as int, u.len() as int) =~= post);
    assert(s[e] == post[0]);
    lemma_parse_flat_pair(s, p, k, v);
    let before = m.take(j);
    assert(!has_key(before, k)) by {
        if has_key(before, k) {
            let i = choose|i: int| 0 <= i < before.len() && before[i].0 == k;
            assert(m[i].0 == m[j].0);
        }
    }
    assert(put(before, k, v) =~= m.take(j + 1));
    if last {
        assert(rest =~= Seq::<char>::empty());
        assert(post =~= seq!['\n', '}']);
        assert(s[e + 1] == post[1]);
        lemma_skip_ws_to(s, e, e + 1);
        assert(m.take(j + 1) =~= m);
    } else {
        lemma_skip_ws_to(s, e, e);
        assert(s.subrange(e + 1, s.len() as int) =~= post.subrange(1, post.len() as int));
        assert(post.subrange(1, post.len() as int) =~= seq!['\n'] + rest + seq!['}']);
        lemma_parse_flat_members(s, m, j + 1, e + 1);
    }
}

proof fn lemma_flat_render_shape(m: Doc)
    requires
        is_flat_document(m),
        m.len() > 0,
    ensures
        render_doc(m) == seq!['{'] + (seq!['\n'] + lines_from(m, 0) + seq!['}']),
{
    let n = m.len() as int;
    lemma_pad_entries(m, n);
    assert(lines_from(m, n) =~= Seq::<char>::empty());
    assert(pad(entries_text(m, n)) =~= lines_from(m, 0));
    assert(render_doc(m) =~= seq!['{'] + (seq!['\n'] + lines_from(m, 0) + seq!['}']));
}

proof fn lemma_parse_flat_object(s: Seq<char>, m: Doc)
    requires
        is_flat_document(m),
        m.len() > 0,
        s == seq!['{'] + (seq!['\n'] + lines_from(m, 0) + seq!['}']),
    ensures
        parse_object_at(s, 1) == Some((m, s.len() as int)),
{
    lemma_entry_line_shape(m, 0);
    let tail = seq!['\n'] + lines_from(m, 0) + seq!['}'];
    assert(s[1] == '\n' && s[2] == ' ' && s[3] == ' ' && s[4] == '"');
    lemma_skip_ws_to(s, 1, 4);
    assert(s.subrange(1, s.len() as int) =~= tail);
    lemma_parse_flat_members(s, m, 0, 1);
    assert(m.take(0) =~= Seq::<(Seq<char>, Val)>::empty());
}

/// Rendering a document of scalar values whose keys all print quoted, and
/// parsing the text again, gives back the same entries. Keys without a space
/// print bare, which the grammar does not read as a key; keys with a quote
/// or a backslash, and keys or strings with a line feed, do not print in a
/// form that reads back.
pub proof fn lemma_flat_document_round_trip(m: Doc)
    requires
        is_flat_document(m),
    ensures
        parse_document(render_doc(m)) == Some(m),
{
    let s = render_doc(m);
    if m.len() == 0 {
        assert(s =~= seq!['{', '}']);
        assert(skip_ws(s, 1) == 1);
        assert(m =~= Seq::<(Seq<char>, Val)>::empty());
    } else {
        lemma_flat_render_shape(m);
        lemma_parse_flat_object(s, m);
    }
    assert(s[0] == '{');
    assert(s[s.len() - 1] == '}');
    assert(skip_ws(s, 0) == 0);
    assert(skip_ws_back(s, s.len() as int) == s.len());
    assert(trim(s) =~= s);
}

/// A text that parses to a document with no entries renders as `{}`.
pub proof fn lemma_parsed_empty_renders_braces(s: Seq<char>)
    requires
        parse_document(s) is Some,
        parse_document(s)->Some_0.len() == 0,
    ensures
        render_doc(parse_document(s)->Some_0) == seq!['{', '}'],
{
}

/// Whitespace inserted in a gap between the tokens of a document text with
/// no surrounding whitespace leaves the document that is read unchanged.
pub proof fn lemma_whitespace_between_tokens(t: Seq<char>, i: int, w: Seq<char>)
    requires
        parse_text(t) is Some,
        gap_object(t, 1, i),
        all_ws(w),
    ensures
        parse_text(insert_at(t, i, w)) == parse_text(t),
{
    assert(t.len() > 0 && t[0] == '{' && t.last() == '}');
    crate::locality::lemma_object_bounds(t, 1);
    lemma_insert_object(t, 1, i, w);
    lemma_insert_facts(t, i, w);
    let u = insert_at(t, i, w);
    let d = w.len() as int;
    assert(u[0] == t[0]);
    assert(t[i + (t.len() - i - 1)] == u[i + d + (t.len() - i - 1)]);
}

pub proof fn lemma_skip_ws_back_run(s: Seq<char>, q: int, r: int)
    requires
        0 <= q <= r <= s.len(),
        forall|k: int| q <= k < r ==> is_ws(#[trigger] s[k]),
    ensures
        skip_ws_back(s, r) == skip_ws_back(s, q),
    decreases r - q,
{
    if q < r {
        lemma_skip_ws_back_run(s, q, r - 1);
    }
}

/// The gaps of a whole document text: the whitespace before and after it,
/// and the gaps between the tokens of the text that is left.
pub open spec fn gap_document(s: Seq<char>, i: int) -> bool {
    let a = skip_ws(s, 0);
    let b = skip_ws_back(s, s.len() as int);
    (0 <= i <= a) || (b <= i <= s.len()) || (a < b && gap_object(trim(s), 1, i - a))
}

proof fn lemma_insert_leading(s: Seq<char>, i: int, w: Seq<char>)
    requires
        0 <= i <= skip_ws(s, 0) < skip_ws_back(s, s.len() as int),
        all_ws(w),
    ensures
        trim(insert_at(s, i, w)) == trim(s),
{
    let a = skip_ws(s, 0);
    let b = skip_ws_back(s, s.len() as int);
    let d = w.len() as int;
    let u = insert_at(s, i, w);
    lemma_skip_ws(s, 0);
    lemma_skip_ws_back(s, s.len() as int);
    lemma_insert_facts(s, i, w);
    lemma_ws_region(s, i, w, 0);
    assert forall|k: int| b + d <= k < u.len() implies is_ws(#[trigger] u[k]) by {
        assert(s[i + (k - d - i)] == u[i + d + (k - d - i)]);
    }
    lemma_skip_ws_back_run(u, b + d, u.len() as int);
    assert(s[i + (b - 1 - i)] == u[i + d + (b - 1 - i)]);
    assert forall|k: int| 0 <= k < b - a implies #[trigger] trim(u)[k] == trim(s)[k] by {
        assert(s[i + (a + k - i)] == u[i + d + (a + k - i)]);
    }
    assert(trim(u) =~= trim(s));
}

proof fn lemma_insert_trailing(s: Seq<char>, i: int, w: Seq<char>)
    requires
        skip_ws(s, 0) < skip_ws_back(s, s.len() as int) <= i <= s.len(),
        all_ws(w),
    ensures
        trim(insert_at(s, i, w)) == trim(s),
{
    let a = skip_ws(s, 0);
    let b = skip_ws_back(s, s.len() as int);
    let d = w.len() as int;
    let u = insert_at(s, i, w);
    lemma_skip_ws(s, 0);
    lemma_skip_ws_back(s, s.len() as int);
    lemma_insert_facts(s, i, w);
    lemma_insert_agree(s, i, w, 0, i);
    crate::locality::lemma_prefix_skip_ws(s, u, 0, i);
    assert forall|k: int| b <= k < u.len() implies is_ws(#[trigger] u[k]) by {
        if k >= i + d {
            assert(s[i + (k - d - i)] == u[i + d + (k - d - i)]);
        }
    }
    lemma_skip_ws_back_run(u, b, u.len() as int);
    assert(trim(u) =~= trim(s));
}

proof fn lemma_insert_inside(s: Seq<char>, i: int, w: Seq<char>)
    requires
        skip_ws(s, 0) < i < skip_ws_back(s, s.len() as int),
        all_ws(w),
    ensures
        trim(insert_at(s, i, w)) == insert_at(trim(s), i - skip_ws(s, 0), w),
{
    let a = skip_ws(s, 0);
    let b = skip_ws_back(s, s.len() as int);
    let d = w.len() as int;
    let u = insert_at(s, i, w);
    let t = trim(s);
    lemma_skip_ws(s, 0);
    lemma_skip_ws_back(s, s.len() as int);
    lemma_insert_facts(s, i, w);
    lemma_insert_agree(s, i, w, 0, i);
    crate::locality::lemma_prefix_skip_ws(s, u, 0, i);
    assert forall|k: int| b + d <= k < u.len() implies is_ws(#[trigger] u[k]) by {
        assert(s[i + (k - d - i)] == u[i + d + (k - d - i)]);
    }
    lemma_skip_ws_back_run(u, b + d, u.len() as int);
    assert(s[i + (b - 1 - i)] == u[i + d + (b - 1 - i)]);
    let v = insert_at(t, i - a, w);
    assert forall|k: int| 0 <= k < b + d - a implies #[trigger] trim(u)[k] == v[k] by {
        if k >= i - a + d {
            assert(s[i + (a + k - d - i)] == u[i + d + (a + k - d - i)]);
        }
    }
    assert(trim(u) =~= v);
}

/// Whitespace inserted in a gap of a document text (around the document or
/// between two of its tokens, never inside a string, a number or a literal)
/// leaves the document that is read unchanged.
pub proof fn lemma_whitespace_insensitive(s: Seq<char>, i: int, w: Seq<char>)
    requires
        parse_document(s) is Some,
        gap_document(s, i),
        all_ws(w),
    ensures
        parse_document(insert_at(s, i, w)) == parse_document(s),
{
    let a = skip_ws(s, 0);
    let b = skip_ws_back(s, s.len() as int);
    lemma_skip_ws(s, 0);
    lemma_skip_ws_back(s, s.len() as int);
    if a >= b {
        assert(trim(s) =~= Seq::<char>::empty());
    }
    if 0 <= i <= a {
        lemma_insert_leading(s, i, w);
    } else if b <= i <= s.len() {
        lemma_insert_trailing(s, i, w);
    } else {
        let t = trim(s);
        assert(a < b);
        assert(t.len() == b - a);
        assert(parse_object_at(t, 1) is Some);
        crate::locality::lemma_object_bounds(t, 1);
        lemma_insert_object(t, 1, i - a, w);
        assert(i - a < parse_object_at(t, 1)->Some_0.1 <= t.len());
        lemma_insert_inside(s, i, w);
        lemma_whitespace_between_tokens(t, i - a, w);
    }
}

} // verus!
