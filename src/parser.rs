//! The grammar of documents, as spec functions over positions in a character
//! sequence, and the recursive-descent parser that is proved to follow it.
use vstd::prelude::*;
use crate::text::{chars_of, is_digit, lemma_skip_ws, next_token, skip_ws, string_of, trim, trimmed_chars};
use crate::value::{has_json_extension, lemma_doc_view, ArgsParseError, Doc, JSONParseError, JSONValue, Val, JSON};

verus! {

/// Decodes string text that starts at `p`, just past an opening quote, with
/// `acc` decoded so far: a backslash takes the next character literally, an
/// unescaped quote ends the string. The result holds the text and the index
/// just past the closing quote.
pub open spec fn scan_string(s: Seq<char>, p: int, acc: Seq<char>) -> Option<(Seq<char>, int)>
    decreases s.len() - p,
{
    if p < 0 || p >= s.len() {
        None
    } else if s[p] == '"' {
        Some((acc, p + 1))
    } else if s[p] == '\\' {
        if p + 1 < s.len() {
            scan_string(s, p + 2, acc.push(s[p + 1]))
        } else {
            None
        }
    } else {
        scan_string(s, p + 1, acc.push(s[p]))
    }
}

/// Index of the first position at or after `p` that does not hold an ASCII digit.
pub open spec fn digits_end(s: Seq<char>, p: int) -> int
    decreases s.len() - p,
{
    if 0 <= p < s.len() && is_digit(s[p]) {
        digits_end(s, p + 1)
    } else {
        p
    }
}

/// The number that a sequence of ASCII digits denotes in decimal.
pub open spec fn digits_value(d: Seq<char>) -> int
    decreases d.len(),
{
    if d.len() == 0 {
        0
    } else {
        digits_value(d.drop_last()) * 10 + (d.last() as int - '0' as int)
    }
}

/// A number whose first character `first` (a minus sign or a digit) has been
/// read, with the rest starting at `p`: all the digits that follow are taken,
/// and the result must fit in an `i32`.
pub open spec fn scan_number(first: char, s: Seq<char>, p: int) -> Option<(i32, int)> {
    let e = digits_end(s, p);
    let d = if first == '-' {
        s.subrange(p, e)
    } else {
        seq![first] + s.subrange(p, e)
    };
    let v = if first == '-' {
        -digits_value(d)
    } else {
        digits_value(d)
    };
    if d.len() > 0 && i32::MIN <= v <= i32::MAX {
        Some((v as i32, e))
    } else {
        None
    }
}

pub open spec fn null_word() -> Seq<char> {
    seq!['n', 'u', 'l', 'l']
}

pub open spec fn true_word() -> Seq<char> {
    seq!['t', 'r', 'u', 'e']
}

pub open spec fn false_word() -> Seq<char> {
    seq!['f', 'a', 'l', 's', 'e']
}

/// `w` stands in `s` at index `q`.
pub open spec fn word_at(s: Seq<char>, q: int, w: Seq<char>) -> bool {
    0 <= q && q + w.len() <= s.len() && s.subrange(q, q + w.len()) == w
}

/// A quoted key after optional whitespace: its text and the index past it.
pub open spec fn key_at(s: Seq<char>, p: int) -> Option<(Seq<char>, int)> {
    let q = skip_ws(s, p);
    if 0 <= p && q < s.len() && s[q] == '"' {
        scan_string(s, q + 1, Seq::empty())
    } else {
        None
    }
}

/// A colon after optional whitespace: the index past it.
pub open spec fn colon_at(s: Seq<char>, p: int) -> Option<int> {
    let q = skip_ws(s, p);
    if 0 <= p && q < s.len() && s[q] == ':' {
        Some(q + 1)
    } else {
        None
    }
}

pub open spec fn keys_unique(m: Doc) -> bool {
    forall|i: int, j: int| 0 <= i < j < m.len() ==> m[i].0 != m[j].0
}

pub open spec fn has_key(m: Doc, k: Seq<char>) -> bool {
    exists|i: int| 0 <= i < m.len() && m[i].0 == k
}

/// Sets key `k` to `v`: the entry of `k` takes the new value where there is
/// one, else the pair is added at the end.
pub open spec fn put(m: Doc, k: Seq<char>, v: Val) -> Doc {
    if has_key(m, k) {
        m.map_values(|e: (Seq<char>, Val)| if e.0 == k { (k, v) } else { e })
    } else {
        m.push((k, v))
    }
}

/// A value after optional whitespace, starting at `p`: the value and the
/// index just past it.
pub open spec fn parse_value_at(s: Seq<char>, p: int) -> Option<(Val, int)>
    decreases s.len() - p, 0int,
{
    let q = skip_ws(s, p);
    if p < 0 || p > s.len() || q >= s.len() {
        None
    } else {
        proof {
            lemma_skip_ws(s, p);
        }
        let c = s[q];
        if c == '"' {
            match scan_string(s, q + 1, Seq::empty()) {
                Some((t, e)) => Some((Val::Str(t), e)),
                None => None,
            }
        } else if c == 'n' {
            if word_at(s, q, null_word()) {
                Some((Val::Null, q + 4))
            } else {
                None
            }
        } else if c == 't' {
            if word_at(s, q, true_word()) {
                Some((Val::Bool(true), q + 4))
            } else {
                None
            }
        } else if c == 'f' {
            if word_at(s, q, false_word()) {
                Some((Val::Bool(false), q + 5))
            } else {
                None
            }
        } else if c == '{' {
            match parse_object_at(s, q + 1) {
                Some((m, e)) => Some((Val::Obj(m), e)),
                None => None,
            }
        } else if c == '[' {
            match parse_array_at(s, q + 1) {
                Some((a, e)) => Some((Val::Arr(a), e)),
                None => None,
            }
        } else if c == '-' || is_digit(c) {
            match scan_number(c, s, q + 1) {
                Some((n, e)) => Some((Val::Num(n), e)),
                None => None,
            }
        } else {
            None
        }
    }
}

/// A key, a colon and a value, starting at `p`.
pub open spec fn parse_pair_at(s: Seq<char>, p: int) -> Option<((Seq<char>, Val), int)>
    decreases s.len() - p, 0int,
{
    match key_at(s, p) {
        None => None,
        Some((k, e1)) => match colon_at(s, e1) {
            None => None,
            Some(e2) => {
                if e2 <= p || e2 > s.len() {
                    None
                } else {
                    match parse_value_at(s, e2) {
                        Some((v, e)) => Some(((k, v), e)),
                        None => None,
                    }
                }
            },
        },
    }
}

/// The entries of an object from `p` on, up to and including its closing
/// brace, with `acc` read so far.
pub open spec fn parse_members_at(s: Seq<char>, p: int, acc: Doc) -> Option<(Doc, int)>
    decreases s.len() - p, 1int,
{
    if p < 0 || p > s.len() {
        None
    } else {
        match parse_pair_at(s, p) {
            None => None,
            Some((kv, e)) => {
                let m = put(acc, kv.0, kv.1);
                let q = skip_ws(s, e);
                if e <= p || e > s.len() {
                    None
                } else {
                    proof {
                        lemma_skip_ws(s, e);
                    }
                    if q >= s.len() {
                        None
                    } else if s[q] == '}' {
                        Some((m, q + 1))
                    } else if s[q] == ',' {
                        parse_members_at(s, q + 1, m)
                    } else {
                        None
                    }
                }
            },
        }
    }
}

/// An object whose opening brace stands just before `p`: its entries and
/// the index past its closing brace.
pub open spec fn parse_object_at(s: Seq<char>, p: int) -> Option<(Doc, int)>
    decreases s.len() - p, 2int,
{
    let q = skip_ws(s, p);
    if 0 <= p && q < s.len() && s[q] == '}' {
        Some((Seq::empty(), q + 1))
    } else {
        parse_members_at(s, p, Seq::empty())
    }
}

/// The elements of an array from `p` on, up to and including its closing
/// bracket, with `acc` read so far.
pub open spec fn parse_elements_at(s: Seq<char>, p: int, acc: Seq<Val>) -> Option<(Seq<Val>, int)>
    decreases s.len() - p, 1int,
{
    if p < 0 || p > s.len() {
        None
    } else {
        match parse_value_at(s, p) {
            None => None,
            Some((v, e)) => {
                let q = skip_ws(s, e);
                if e <= p || e > s.len() {
                    None
                } else {
                    proof {
                        lemma_skip_ws(s, e);
                    }
                    if q >= s.len() {
                        None
                    } else if s[q] == ']' {
                        Some((acc.push(v), q + 1))
                    } else if s[q] == ',' {
                        parse_elements_at(s, q + 1, acc.push(v))
                    } else {
                        None
                    }
                }
            },
        }
    }
}

/// An array whose opening bracket stands just before `p`.
pub open spec fn parse_array_at(s: Seq<char>, p: int) -> Option<(Seq<Val>, int)>
    decreases s.len() - p, 2int,
{
    let q = skip_ws(s, p);
    if 0 <= p && q < s.len() && s[q] == ']' {
        Some((Seq::empty(), q + 1))
    } else {
        parse_elements_at(s, p, Seq::empty())
    }
}

/// A whole document text with no surrounding whitespace: it starts with an
/// opening brace and ends with a closing one, and an object starts there.
/// What follows the brace that closes that object is not read.
pub open spec fn parse_text(t: Seq<char>) -> Option<Doc> {
    if t.len() > 0 && t[0] == '{' && t.last() == '}' {
        match parse_object_at(t, 1) {
            Some((m, _)) => Some(m),
            None => None,
        }
    } else {
        None
    }
}

/// A document text, with surrounding whitespace allowed.
pub open spec fn parse_document(s: Seq<char>) -> Option<Doc> {
    parse_text(trim(s))
}

/// A magnitude past the largest that an `i32` can take, negated or not.
pub const MAGNITUDE_CAP: u64 = 2147483649;

pub proof fn lemma_digits_value_nonneg(d: Seq<char>)
    requires
        forall|i: int| 0 <= i < d.len() ==> is_digit(#[trigger] d[i]),
    ensures
        digits_value(d) >= 0,
    decreases d.len(),
{
    if d.len() > 0 {
        lemma_digits_value_nonneg(d.drop_last());
    }
}

/// `w` stands in `s` at index `q`.
fn word_follows(s: &Vec<char>, q: usize, w: &Vec<char>) -> (r: bool)
    requires
        q <= s.len(),
    ensures
        r == word_at(s@, q as int, w@),
{
    if w.len() > s.len() - q {
        return false;
    }
    let mut i: usize = 0;
    while i < w.len()
        invariant
            i <= w.len(),
            q + w.len() <= s.len(),
            forall|j: int| 0 <= j < i ==> s@[q + j] == w@[j],
        decreases w.len() - i,
    {
        if s[q + i] != w[i] {
            assert(s@.subrange(q as int, q + w.len())[i as int] != w@[i as int]);
            return false;
        }
        i = i + 1;
    }
    assert(s@.subrange(q as int, q + w.len()) =~= w@);
    true
}

impl JSON {
    /// Consumes whitespace from `pos` on, then the character after it, and
    /// returns that character; `None` where only whitespace is left.
    pub fn skip_whitspace(s: &Vec<char>, pos: &mut usize) -> (r: Option<char>)
        requires
            *old(pos) <= s.len(),
        ensures
            skip_ws(s@, *old(pos) as int) < s.len() ==> r == Some(s@[skip_ws(s@, *old(pos) as int)])
                && *final(pos) == skip_ws(s@, *old(pos) as int) + 1,
            skip_ws(s@, *old(pos) as int) >= s.len() ==> r is None && *final(pos) == s.len(),
            *old(pos) <= *final(pos) <= s.len(),
            r is Some ==> *old(pos) < *final(pos),
            *old(pos) <= skip_ws(s@, *old(pos) as int),
    {
        let q = next_token(s, *pos);
        if q < s.len() {
            *pos = q + 1;
            Some(s[q])
        } else {
            *pos = q;
            None
        }
    }

    /// Reads string text from `pos`, just past its opening quote, through
    /// its closing quote.
    pub fn parse_string_value(s: &Vec<char>, pos: &mut usize) -> (r: Result<String, JSONParseError>)
        requires
            *old(pos) <= s.len(),
        ensures
            match scan_string(s@, *old(pos) as int, Seq::empty()) {
                Some((t, e)) => r is Ok && r->Ok_0@ == t && *final(pos) == e,
                None => r is Err,
            },
            *final(pos) <= s.len(),
            r is Ok ==> *old(pos) < *final(pos),
    {
        let ghost p0 = *pos as int;
        let mut value: Vec<char> = Vec::new();
        let mut i: usize = *pos;
        while i < s.len()
            invariant
                p0 == *old(pos),
                p0 <= i <= s.len(),
                scan_string(s@, p0, Seq::empty()) == scan_string(s@, i as int, value@),
            decreases s.len() - i,
        {
            let ch = s[i];
            if ch == '"' {
                *pos = i + 1;
                return Ok(string_of(&value));
            } else if ch == '\\' {
                if i + 1 >= s.len() {
                    *pos = s.len();
                    return Err(JSONParseError);
                }
                value.push(s[i + 1]);
                i = i + 2;
            } else {
                value.push(ch);
                i = i + 1;
            }
        }
        *pos = i;
        Err(JSONParseError)
    }

    /// Reads a quoted key after optional whitespace.
    pub fn parse_key(s: &Vec<char>, pos: &mut usize) -> (r: Result<String, JSONParseError>)
        requires
            *old(pos) <= s.len(),
        ensures
            match key_at(s@, *old(pos) as int) {
                Some((k, e)) => r is Ok && r->Ok_0@ == k && *final(pos) == e,
                None => r is Err,
            },
            *final(pos) <= s.len(),
            r is Ok ==> *old(pos) < *final(pos),
    {
        match JSON::skip_whitspace(s, pos) {
            Some(c) => {
                if c != '"' {
                    return Err(JSONParseError);
                }
            },
            None => {
                return Err(JSONParseError);
            },
        }
        JSON::parse_string_value(s, pos)
    }

    /// Reads a number whose first character `digit` (a minus sign or a
    /// digit) has been read; the rest starts at `pos`.
    pub fn parse_numeric_value(digit: char, s: &Vec<char>, pos: &mut usize) -> (r: Result<
        i32,
        JSONParseError,
    >)
        requires
            *old(pos) <= s.len(),
            digit == '-' || is_digit(digit),
        ensures
            match scan_number(digit, s@, *old(pos) as int) {
                Some((n, e)) => r is Ok && r->Ok_0 == n && *final(pos) == e,
                None => r is Err,
            },
            *old(pos) <= *final(pos) <= s.len(),
    {
        let ghost p0 = *pos as int;
        let ghost e = digits_end(s@, p0);
        let neg = digit == '-';
        let mut m: u64 = if neg {
            0
        } else {
            (digit as u32 - '0' as u32) as u64
        };
        let start = *pos;
        let ghost first: Seq<char> = if neg {
            Seq::empty()
        } else {
            seq![digit]
        };
        proof {
            assert(first + s@.subrange(p0, p0) =~= first);
            if !neg {
                assert(first.drop_last() =~= Seq::<char>::empty());
                assert(digits_value(Seq::<char>::empty()) == 0);
                assert(first.last() == digit);
                assert(digits_value(first) == digit as int - '0' as int);
            }
        }
        let mut i: usize = *pos;
        while i < s.len() && '0' <= s[i] && s[i] <= '9'
            invariant
                p0 == *old(pos),
                p0 <= i <= s.len(),
                digits_end(s@, i as int) == e,
                forall|j: int| p0 <= j < i ==> is_digit(#[trigger] s@[j]),
                start == p0,
                forall|j: int| 0 <= j < first.len() ==> is_digit(#[trigger] first[j]),
                m as int == if digits_value(first + s@.subrange(p0, i as int)) < MAGNITUDE_CAP {
                    digits_value(first + s@.subrange(p0, i as int))
                } else {
                    MAGNITUDE_CAP as int
                },
            decreases s.len() - i,
        {
            let ghost d = first + s@.subrange(p0, i as int);
            let ghost d2 = first + s@.subrange(p0, i + 1);
            proof {
                assert(d2.drop_last() =~= d);
                assert(forall|j: int| 0 <= j < d.len() ==> is_digit(#[trigger] d[j]));
                lemma_digits_value_nonneg(d);
                let k = s@[i as int] as int - '0' as int;
                assert(digits_value(d2) == digits_value(d) * 10 + k);
                assert(digits_value(d) * 10 + k >= digits_value(d)) by (nonlinear_arith)
                    requires
                        digits_value(d) >= 0,
                        0 <= k,
                ;
            }
            if m < MAGNITUDE_CAP {
                m = m * 10 + (s[i] as u32 - '0' as u32) as u64;
                if m > MAGNITUDE_CAP {
                    m = MAGNITUDE_CAP;
                }
            }
            i = i + 1;
        }
        *pos = i;
        proof {
            let d = first + s@.subrange(p0, i as int);
            assert(d =~= (if neg {
                s@.subrange(p0, e)
            } else {
                seq![digit] + s@.subrange(p0, e)
            }));
        }
        if neg && i == start {
            return Err(JSONParseError);
        }
        if neg {
            if m <= 2147483648 {
                Ok((0 - m as i64) as i32)
            } else {
                Err(JSONParseError)
            }
        } else {
            if m <= 2147483647 {
                Ok(m as i32)
            } else {
                Err(JSONParseError)
            }
        }
    }

    /// Reads a colon after optional whitespace; returns the error where
    /// something else stands there.
    pub fn skip_colons(s: &Vec<char>, pos: &mut usize) -> (r: Option<JSONParseError>)
        requires
            *old(pos) <= s.len(),
        ensures
            match colon_at(s@, *old(pos) as int) {
                Some(e) => r is None && *final(pos) == e,
                None => r is Some,
            },
            *final(pos) <= s.len(),
            r is None ==> *old(pos) < *final(pos),
    {
        match JSON::skip_whitspace(s, pos) {
            Some(c) => {
                if c == ':' {
                    None
                } else {
                    Some(JSONParseError)
                }
            },
            None => Some(JSONParseError),
        }
    }

    /// Sets `key` to `value`: an entry with that key takes the new value,
    /// else the pair is added at the end.
    pub fn insert(&mut self, key: String, value: JSONValue)
        requires
            keys_unique(old(self)@),
        ensures
            final(self)@ == put(old(self)@, key@, value@),
            keys_unique(final(self)@),
    {
        let ghost m = self@;
        let mut i: usize = 0;
        while i < self.object.len()
            invariant
                *self == *old(self),
                m == old(self)@,
                keys_unique(m),
                i <= self.object.len(),
                m.len() == self.object.len(),
                forall|j: int| 0 <= j < i ==> m[j].0 != key@,
            decreases self.object.len() - i,
        {
            if self.object[i].0 == key {
                self.object.set(i, (key, value));
                proof {
                    lemma_doc_view(*old(self));
                    lemma_doc_view(*self);
                    assert(m[i as int].0 == key@);
                    assert(has_key(m, key@));
                    let ghost r = put(m, key@, value@);
                    assert forall|j: int| 0 <= j < m.len() implies self@[j] == r[j]
                        && self@[j].0 == m[j].0 by {
                        if j < i {
                            assert(m[j].0 != key@);
                            assert(self.object[j] == old(self).object[j]);
                        } else if j > i {
                            assert(m[i as int].0 != m[j].0);
                            assert(self.object[j] == old(self).object[j]);
                        }
                    }
                    assert(self@ =~= r);
                }
                return;
            }
            i = i + 1;
        }
        self.object.push((key, value));
        proof {
            lemma_doc_view(*old(self));
            lemma_doc_view(*self);
            assert(!has_key(m, key@));
            assert(self@ =~= m.push((key@, value@)));
        }
    }

    /// Reads a value after optional whitespace.
    pub fn parse_value(s: &Vec<char>, pos: &mut usize) -> (r: Result<JSONValue, JSONParseError>)
        requires
            *old(pos) <= s.len(),
        ensures
            match parse_value_at(s@, *old(pos) as int) {
                Some((v, e)) => r is Ok && r->Ok_0@ == v && *final(pos) == e,
                None => r is Err,
            },
            *final(pos) <= s.len(),
            r is Ok ==> *old(pos) < *final(pos),
        decreases s.len() - *old(pos), 0int,
    {
        let ghost p0 = *pos as int;
        let c = match JSON::skip_whitspace(s, pos) {
            Some(c) => c,
            None => {
                return Err(JSONParseError);
            },
        };
        let q = *pos - 1;
        if c == '"' {
            match JSON::parse_string_value(s, pos) {
                Ok(t) => Ok(JSONValue::String(t)),
                Err(e) => Err(e),
            }
        } else if c == 'n' {
            if word_follows(s, q, &vec!['n', 'u', 'l', 'l']) {
                *pos = q + 4;
                Ok(JSONValue::Null)
            } else {
                Err(JSONParseError)
            }
        } else if c == 't' {
            if word_follows(s, q, &vec!['t', 'r', 'u', 'e']) {
                *pos = q + 4;
                Ok(JSONValue::Bool(true))
            } else {
                Err(JSONParseError)
            }
        } else if c == 'f' {
            if word_follows(s, q, &vec!['f', 'a', 'l', 's', 'e']) {
                *pos = q + 5;
                Ok(JSONValue::Bool(false))
            } else {
                Err(JSONParseError)
            }
        } else if c == '{' {
            match JSON::parse_object_value(s, pos) {
                Ok(d) => Ok(JSONValue::Object(d)),
                Err(e) => Err(e),
            }
        } else if c == '[' {
            match JSON::parse_array_value(s, pos) {
                Ok(a) => Ok(JSONValue::Array(a)),
                Err(e) => Err(e),
            }
        } else if c == '-' || ('0' <= c && c <= '9') {
            match JSON::parse_numeric_value(c, s, pos) {
                Ok(n) => Ok(JSONValue::Number(n)),
                Err(e) => Err(e),
            }
        } else {
            Err(JSONParseError)
        }
    }

    /// Reads a key, a colon and a value.
    pub fn get_pair(s: &Vec<char>, pos: &mut usize) -> (r: Result<(String, JSONValue), JSONParseError>)
        requires
            *old(pos) <= s.len(),
        ensures
            match parse_pair_at(s@, *old(pos) as int) {
                Some((kv, e)) => r is Ok && r->Ok_0.0@ == kv.0 && r->Ok_0.1@ == kv.1
                    && *final(pos) == e,
                None => r is Err,
            },
            *final(pos) <= s.len(),
            r is Ok ==> *old(pos) < *final(pos),
        decreases s.len() - *old(pos), 0int,
    {
        let key = match JSON::parse_key(s, pos) {
            Ok(key) => key,
            Err(err) => {
                return Err(err);
            },
        };
        match JSON::skip_colons(s, pos) {
            Some(err) => {
                return Err(err);
            },
            None => {},
        }
        let value = match JSON::parse_value(s, pos) {
            Ok(value) => value,
            Err(err) => {
                return Err(err);
            },
        };
        Ok((key, value))
    }

    /// Reads an object whose opening brace stands just before `pos`,
    /// through its closing brace.
    pub fn parse_object_value(s: &Vec<char>, pos: &mut usize) -> (r: Result<JSON, JSONParseError>)
        requires
            *old(pos) <= s.len(),
        ensures
            match parse_object_at(s@, *old(pos) as int) {
                Some((m, e)) => r is Ok && r->Ok_0@ == m && *final(pos) == e,
                None => r is Err,
            },
            *final(pos) <= s.len(),
            r is Ok ==> keys_unique(r->Ok_0@),
            r is Ok ==> *old(pos) < *final(pos),
        decreases s.len() - *old(pos), 2int,
    {
        let ghost p0 = *pos as int;
        let mut json = JSON { object: Vec::new() };
        proof {
            assert(json@ =~= Seq::<(Seq<char>, Val)>::empty());
        }
        let q = next_token(s, *pos);
        if q < s.len() && s[q] == '}' {
            *pos = q + 1;
            assert(keys_unique(json@));
            return Ok(json);
        }
        loop
            invariant
                p0 == *old(pos),
                p0 <= *pos <= s.len(),
                keys_unique(json@),
                parse_object_at(s@, p0) == parse_members_at(s@, *pos as int, json@),
            decreases s.len() - *pos,
        {
            let (key, value) = match JSON::get_pair(s, pos) {
                Ok(pair) => pair,
                Err(err) => {
                    return Err(err);
                },
            };
            json.insert(key, value);
            match JSON::skip_whitspace(s, pos) {
                Some(c) => {
                    if c == '}' {
                        return Ok(json);
                    } else if c != ',' {
                        return Err(JSONParseError);
                    }
                },
                None => {
                    return Err(JSONParseError);
                },
            }
        }
    }

    /// Reads an array whose opening bracket stands just before `pos`,
    /// through its closing bracket.
    pub fn parse_array_value(s: &Vec<char>, pos: &mut usize) -> (r: Result<Vec<JSONValue>, JSONParseError>)
        requires
            *old(pos) <= s.len(),
        ensures
            match parse_array_at(s@, *old(pos) as int) {
                Some((a, e)) => r is Ok && JSONValue::Array(r->Ok_0)@ == Val::Arr(a)
                    && *final(pos) == e,
                None => r is Err,
            },
            *final(pos) <= s.len(),
            r is Ok ==> *old(pos) < *final(pos),
        decreases s.len() - *old(pos), 2int,
    {
        let ghost p0 = *pos as int;
        let mut array: Vec<JSONValue> = Vec::new();
        proof {
            assert(JSONValue::Array(array)@->Arr_0 =~= Seq::<Val>::empty());
        }
        let q = next_token(s, *pos);
        if q < s.len() && s[q] == ']' {
            *pos = q + 1;
            return Ok(array);
        }
        loop
            invariant
                p0 == *old(pos),
                p0 <= *pos <= s.len(),
                parse_array_at(s@, p0) == parse_elements_at(
                    s@,
                    *pos as int,
                    JSONValue::Array(array)@->Arr_0,
                ),
            decreases s.len() - *pos,
        {
            let ghost before = JSONValue::Array(array)@->Arr_0;
            let value = match JSON::parse_value(s, pos) {
                Ok(value) => value,
                Err(err) => {
                    return Err(err);
                },
            };
            array.push(value);
            proof {
                assert(JSONValue::Array(array)@->Arr_0 =~= before.push(value@));
            }
            match JSON::skip_whitspace(s, pos) {
                Some(c) => {
                    if c == ']' {
                        return Ok(array);
                    } else if c != ',' {
                        return Err(JSONParseError);
                    }
                },
                None => {
                    return Err(JSONParseError);
                },
            }
        }
    }

    /// Parses a document text with no surrounding whitespace, given as
    /// characters.
    pub fn parse_chars(s: &Vec<char>) -> (r: Result<JSON, JSONParseError>)
        ensures
            match parse_text(s@) {
                Some(m) => r is Ok && r->Ok_0@ == m,
                None => r is Err,
            },
            r is Ok ==> keys_unique(r->Ok_0@),
    {
        if s.len() == 0 || s[0] != '{' || s[s.len() - 1] != '}' {
            return Err(JSONParseError);
        }
        let mut pos: usize = 1;
        JSON::parse_object_value(s, &mut pos)
    }

    /// Parses a document text with no surrounding whitespace.
    pub fn parse(content: String) -> (r: Result<JSON, JSONParseError>)
        ensures
            match parse_text(content@) {
                Some(m) => r is Ok && r->Ok_0@ == m,
                None => r is Err,
            },
            r is Ok ==> keys_unique(r->Ok_0@),
    {
        JSON::parse_chars(&chars_of(content.as_str()))
    }

    /// Parses a document text; whitespace around it is ignored. A grammar
    /// error becomes an input error that carries its message.
    pub fn parse_from_string(content: String) -> (r: Result<JSON, ArgsParseError>)
        ensures
            match parse_document(content@) {
                Some(m) => r is Ok && r->Ok_0@ == m,
                None => r is Err && r->Err_0.0@ == "Invalid JSON file!"@,
            },
            r is Ok ==> keys_unique(r->Ok_0@),
    {
        match JSON::parse_chars(&trimmed_chars(content.as_str())) {
            Ok(json) => Ok(json),
            Err(err) => Err(ArgsParseError(err.message())),
        }
    }

    /// Accepts a file name with the `.json` extension; refuses any other
    /// with an error that names it.
    pub fn check_file_name(file_name: &String) -> (r: Result<(), ArgsParseError>)
        ensures
            r is Ok <==> has_json_extension(file_name@),
            r is Err ==> r->Err_0.0@ == file_name@ + " is not a JSON file"@,
    {
        let t = chars_of(file_name.as_str());
        if t.len() >= 5 && word_follows(&t, t.len() - 5, &vec!['.', 'j', 's', 'o', 'n']) {
            Ok(())
        } else {
            Err(ArgsParseError::not_json_file(file_name))
        }
    }
}

} // verus!
