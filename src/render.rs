//! The text form of documents: spec functions that say what a value renders
//! to, and the printer that is proved to produce it.
use vstd::prelude::*;
use crate::text::{chars_of, string_of};
use crate::value::{lemma_doc_view, Doc, JSONValue, Val, JSON};

verus! {

broadcast use vstd::std_specs::vec::axiom_vec_index_decreases;

/// String content with `"` and `\` escaped by a backslash.
pub open spec fn escape(t: Seq<char>) -> Seq<char>
    decreases t.len(),
{
    if t.len() == 0 {
        Seq::empty()
    } else if t.last() == '"' || t.last() == '\\' {
        escape(t.drop_last()) + seq!['\\', t.last()]
    } else {
        escape(t.drop_last()).push(t.last())
    }
}

pub open spec fn digit_char(d: nat) -> char {
    ((d + 48) as u8) as char
}

/// Decimal digits of `n`, with no leading zeros.
pub open spec fn nat_text(n: nat) -> Seq<char>
    decreases n,
{
    if n < 10 {
        seq![digit_char(n)]
    } else {
        nat_text(n / 10).push(digit_char(n % 10))
    }
}

/// Decimal text of `n`, with a leading minus sign when it is negative.
pub open spec fn int_text(n: int) -> Seq<char> {
    if n < 0 {
        seq!['-'] + nat_text((-n) as nat)
    } else {
        nat_text(n as nat)
    }
}

/// A key as it is printed: quoted when it holds a space, bare otherwise.
pub open spec fn key_text(k: Seq<char>) -> Seq<char> {
    if k.contains(' ') {
        seq!['"'] + k + seq!['"']
    } else {
        k
    }
}

pub open spec fn render_value(v: Val) -> Seq<char>
    decreases v, 0int,
{
    match v {
        Val::Str(t) => seq!['"'] + escape(t) + seq!['"'],
        Val::Num(n) => int_text(n as int),
        Val::Bool(b) => if b {
            seq!['t', 'r', 'u', 'e']
        } else {
            seq!['f', 'a', 'l', 's', 'e']
        },
        Val::Null => seq!['n', 'u', 'l', 'l'],
        Val::Arr(a) => seq!['['] + items_text(a, a.len() as int) + seq![']'],
        Val::Obj(m) => if m.len() == 0 {
            seq!['{', '}']
        } else {
            seq!['{', '\n'] + pad(entries_text(m, m.len() as int)) + seq!['}']
        },
    }
}

/// The first `n` elements of `a`, rendered and separated by commas.
pub open spec fn items_text(a: Seq<Val>, n: int) -> Seq<char>
    decreases a, n,
{
    if n <= 0 || n > a.len() {
        Seq::empty()
    } else {
        items_text(a, n - 1) + render_value(a[n - 1]) + if n < a.len() {
            seq![',']
        } else {
            Seq::empty()
        }
    }
}

/// The first `n` entries of `m`, one `key: value` line each, with a comma
/// after every entry but the last of `m`.
pub open spec fn entries_text(m: Doc, n: int) -> Seq<char>
    decreases m, n,
{
    if n <= 0 || n > m.len() {
        Seq::empty()
    } else {
        entries_text(m, n - 1) + key_text(m[n - 1].0) + seq![':', ' '] + render_value(m[n - 1].1)
            + if n < m.len() {
            seq![',']
        } else {
            Seq::empty()
        } + seq!['\n']
    }
}

/// The text of a document.
pub open spec fn render_doc(m: Doc) -> Seq<char> {
    render_value(Val::Obj(m))
}

/// Index of the first line feed at or after `j`, or the length of `t`.
pub open spec fn line_end(t: Seq<char>, j: int) -> int
    decreases t.len() - j,
{
    if 0 <= j < t.len() && t[j] != '\n' {
        line_end(t, j + 1)
    } else {
        j
    }
}

/// A line without the carriage return that ends it, if any.
pub open spec fn strip_cr(l: Seq<char>) -> Seq<char> {
    if l.len() > 0 && l.last() == '\r' {
        l.drop_last()
    } else {
        l
    }
}

/// Every line of `t` (as `str::lines` splits it) with two spaces before it
/// and a line feed after it.
pub open spec fn pad(t: Seq<char>) -> Seq<char>
    decreases t.len(),
{
    if t.len() == 0 {
        Seq::empty()
    } else {
        let i = line_end(t, 0);
        proof {
            lemma_line_end(t, 0);
        }
        if i < t.len() {
            seq![' ', ' '] + strip_cr(t.subrange(0, i)) + seq!['\n'] + pad(
                t.subrange(i + 1, t.len() as int),
            )
        } else {
            seq![' ', ' '] + t + seq!['\n']
        }
    }
}

pub proof fn lemma_line_end(t: Seq<char>, j: int)
    requires
        0 <= j <= t.len(),
    ensures
        j <= line_end(t, j) <= t.len(),
        line_end(t, j) < t.len() ==> t[line_end(t, j)] == '\n',
        forall|k: int| j <= k < line_end(t, j) ==> #[trigger] t[k] != '\n',
    decreases t.len() - j,
{
    if j < t.len() && t[j] != '\n' {
        lemma_line_end(t, j + 1);
    }
}

pub proof fn lemma_line_end_shift(t: Seq<char>, a: int, j: int)
    requires
        0 <= a <= j <= t.len(),
    ensures
        line_end(t.subrange(a, t.len() as int), j - a) == line_end(t, j) - a,
    decreases t.len() - j,
{
    if j < t.len() && t[j] != '\n' {
        lemma_line_end_shift(t, a, j + 1);
    }
}

/// Appends the characters of `t` to `out`.
fn push_all(out: &mut Vec<char>, t: &Vec<char>)
    ensures
        final(out)@ == old(out)@ + t@,
{
    let mut i: usize = 0;
    while i < t.len()
        invariant
            i <= t.len(),
            out@ == old(out)@ + t@.subrange(0, i as int),
        decreases t.len() - i,
    {
        out.push(t[i]);
        i = i + 1;
        assert(out@ =~= old(out)@ + t@.subrange(0, i as int));
    }
    assert(t@.subrange(0, t@.len() as int) =~= t@);
}

/// Appends `pad(t)` to `out`.
fn pad_into(t: &Vec<char>, out: &mut Vec<char>)
    ensures
        final(out)@ == old(out)@ + pad(t@),
{
    let mut start: usize = 0;
    assert(t@.subrange(0, t@.len() as int) =~= t@);
    while start < t.len()
        invariant
            start <= t.len(),
            old(out)@ + pad(t@) == out@ + pad(t@.subrange(start as int, t@.len() as int)),
        decreases t.len() - start,
    {
        let ghost rest = t@.subrange(start as int, t@.len() as int);
        let mut i: usize = start;
        while i < t.len() && t[i] != '\n'
            invariant
                start <= i <= t.len(),
                line_end(t@, i as int) == line_end(t@, start as int),
            decreases t.len() - i,
        {
            i = i + 1;
        }
        proof {
            lemma_line_end(t@, start as int);
            lemma_line_end_shift(t@, start as int, start as int);
            assert(line_end(rest, 0) == i - start);
        }
        let mut e: usize = i;
        if i < t.len() && e > start && t[e - 1] == '\r' {
            e = e - 1;
        }
        let ghost before = out@;
        out.push(' ');
        out.push(' ');
        let mut k: usize = start;
        while k < e
            invariant
                start <= k <= e <= i <= t.len(),
                out@ == before + seq![' ', ' '] + t@.subrange(start as int, k as int),
            decreases e - k,
        {
            out.push(t[k]);
            k = k + 1;
            assert(out@ =~= before + seq![' ', ' '] + t@.subrange(start as int, k as int));
        }
        out.push('\n');
        proof {
            if i < t.len() {
                let line = rest.subrange(0, i - start);
                assert(line =~= t@.subrange(start as int, i as int));
                assert(strip_cr(line) =~= t@.subrange(start as int, e as int));
                assert(rest.subrange(i - start + 1, rest.len() as int) =~= t@.subrange(
                    i + 1,
                    t@.len() as int,
                ));
                assert(out@ =~= before + (seq![' ', ' '] + strip_cr(line) + seq!['\n']));
            } else {
                assert(rest =~= t@.subrange(start as int, e as int));
                assert(t@.subrange(t@.len() as int, t@.len() as int) =~= Seq::<char>::empty());
                assert(out@ =~= before + (seq![' ', ' '] + rest + seq!['\n']));
            }
        }
        if i < t.len() {
            start = i + 1;
        } else {
            start = t.len();
        }
    }
    assert(t@.subrange(start as int, t@.len() as int) =~= Seq::<char>::empty());
    assert(out@ =~= old(out)@ + pad(t@));
}

/// Pads every line of `str` by two spaces, as the printer does with the
/// text of a nested document.
pub fn get_padded_string(str: String) -> (r: String)
    ensures
        r@ == pad(str@),
{
    let t = chars_of(str.as_str());
    let mut out: Vec<char> = Vec::new();
    pad_into(&t, &mut out);
    assert(out@ =~= pad(t@));
    string_of(&out)
}

/// Appends `escape(t)` to `out`.
fn escape_into(t: &Vec<char>, out: &mut Vec<char>)
    ensures
        final(out)@ == old(out)@ + escape(t@),
{
    let mut i: usize = 0;
    while i < t.len()
        invariant
            i <= t.len(),
            out@ == old(out)@ + escape(t@.subrange(0, i as int)),
        decreases t.len() - i,
    {
        let ghost prefix = t@.subrange(0, i as int);
        let c = t[i];
        if c == '"' || c == '\\' {
            out.push('\\');
        }
        out.push(c);
        i = i + 1;
        proof {
            let next = t@.subrange(0, i as int);
            assert(next.drop_last() =~= prefix);
            assert(out@ =~= old(out)@ + escape(next));
        }
    }
    assert(t@.subrange(0, t@.len() as int) =~= t@);
}

/// Appends `nat_text(n)` to `out`.
fn write_nat(n: u64, out: &mut Vec<char>)
    ensures
        final(out)@ == old(out)@ + nat_text(n as nat),
    decreases n,
{
    if n >= 10 {
        write_nat(n / 10, out);
    }
    let d = (n % 10) as u8;
    out.push((d + 48) as char);
    assert(out@ =~= old(out)@ + nat_text(n as nat));
}

/// Appends `int_text(n)` to `out`.
fn write_int(n: i32, out: &mut Vec<char>)
    ensures
        final(out)@ == old(out)@ + int_text(n as int),
{
    if n < 0 {
        out.push('-');
        let m = (0 - (n as i64)) as u64;
        write_nat(m, out);
        assert(out@ =~= old(out)@ + int_text(n as int));
    } else {
        write_nat(n as u64, out);
    }
}

/// Appends `key_text(k)` to `out`.
fn write_key(k: &String, out: &mut Vec<char>)
    ensures
        final(out)@ == old(out)@ + key_text(k@),
{
    let t = chars_of(k.as_str());
    let mut i: usize = 0;
    let mut spaced = false;
    while i < t.len()
        invariant
            i <= t.len(),
            spaced == exists|j: int| 0 <= j < i && t@[j] == ' ',
        decreases t.len() - i,
    {
        if t[i] == ' ' {
            spaced = true;
        }
        i = i + 1;
    }
    assert(spaced == t@.contains(' '));
    if spaced {
        out.push('"');
        push_all(out, &t);
        out.push('"');
        assert(out@ =~= old(out)@ + key_text(k@));
    } else {
        push_all(out, &t);
    }
}

impl JSONValue {
    /// Appends the text of this value to `out`.
    pub fn write_to(&self, out: &mut Vec<char>)
        ensures
            final(out)@ == old(out)@ + render_value(self@),
        decreases self, 0int,
    {
        match self {
            JSONValue::String(t) => {
                out.push('"');
                escape_into(&chars_of(t.as_str()), out);
                out.push('"');
                assert(out@ =~= old(out)@ + render_value(self@));
            },
            JSONValue::Number(n) => {
                write_int(*n, out);
            },
            JSONValue::Bool(b) => {
                if *b {
                    push_all(out, &vec!['t', 'r', 'u', 'e']);
                } else {
                    push_all(out, &vec!['f', 'a', 'l', 's', 'e']);
                }
                assert(out@ =~= old(out)@ + render_value(self@));
            },
            JSONValue::Null => {
                push_all(out, &vec!['n', 'u', 'l', 'l']);
                assert(out@ =~= old(out)@ + render_value(self@));
            },
            JSONValue::Array(a) => {
                let ghost items = self@->Arr_0;
                out.push('[');
                let mut i: usize = 0;
                while i < a.len()
                    invariant
                        *self == JSONValue::Array(*a),
                        i <= a.len(),
                        items.len() == a.len(),
                        forall|j: int| 0 <= j < a.len() ==> #[trigger] items[j] == a[j]@,
                        out@ == old(out)@ + seq!['['] + items_text(items, i as int),
                    decreases a.len() - i,
                {
                    proof {
                        // The element is smaller than the array that holds it.
                        let v = *self;
                        assert(v->Array_0 == *a);
                        assert(decreases_to!(v => v->Array_0));
                        assert(decreases_to!(*a => a[i as int]));
                    }
                    a[i].write_to(out);
                    if i + 1 < a.len() {
                        out.push(',');
                    }
                    i = i + 1;
                    assert(out@ =~= old(out)@ + seq!['['] + items_text(items, i as int));
                }
                out.push(']');
                assert(out@ =~= old(out)@ + render_value(self@));
            },
            JSONValue::Object(d) => {
                d.write_to(out);
            },
        }
    }

    /// The text of this value.
    pub fn render(&self) -> (r: String)
        ensures
            r@ == render_value(self@),
    {
        let mut out: Vec<char> = Vec::new();
        self.write_to(&mut out);
        assert(out@ =~= render_value(self@));
        string_of(&out)
    }
}

impl JSON {
    /// Appends the text of this document to `out`.
    pub fn write_to(&self, out: &mut Vec<char>)
        ensures
            final(out)@ == old(out)@ + render_doc(self@),
        decreases self, 0int,
    {
        proof {
            lemma_doc_view(*self);
        }
        let n = self.object.len();
        if n == 0 {
            out.push('{');
            out.push('}');
            assert(out@ =~= old(out)@ + render_doc(self@));
            return;
        }
        let ghost m = self@;
        let mut body: Vec<char> = Vec::new();
        let mut i: usize = 0;
        while i < n
            invariant
                n == self.object.len(),
                m == self@,
                m.len() == n,
                forall|j: int| 0 <= j < n ==> #[trigger] m[j] == (self.object[j].0@, self.object[j].1@),
                i <= n,
                body@ == entries_text(m, i as int),
            decreases n - i,
        {
            write_key(&self.object[i].0, &mut body);
            body.push(':');
            body.push(' ');
            self.object[i].1.write_to(&mut body);
            if i + 1 < n {
                body.push(',');
            }
            body.push('\n');
            i = i + 1;
            assert(body@ =~= entries_text(m, i as int));
        }
        out.push('{');
        out.push('\n');
        pad_into(&body, out);
        out.push('}');
        assert(out@ =~= old(out)@ + render_doc(self@));
    }

    /// The text of this document.
    pub fn render(&self) -> (r: String)
        ensures
            r@ == render_doc(self@),
    {
        let mut out: Vec<char> = Vec::new();
        self.write_to(&mut out);
        assert(out@ =~= render_doc(self@));
        string_of(&out)
    }
}

} // verus!
