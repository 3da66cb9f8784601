//! The document tree and its mathematical model.
use vstd::prelude::*;

verus! {

/// The model of a value: what a `JSONValue` means, with strings as
/// sequences of characters.
pub enum Val {
    Str(Seq<char>),
    Num(i32),
    Bool(bool),
    Null,
    Arr(Seq<Val>),
    Obj(Seq<(Seq<char>, Val)>),
}

/// The model of a document: its entries as (key, value) pairs in the order
/// in which each key first appeared.
pub type Doc = Seq<(Seq<char>, Val)>;

#[derive(Debug)]
pub enum JSONValue {
    String(String),
    Number(i32),
    Bool(bool),
    Null,
    Array(Vec<JSONValue>),
    Object(JSON),
}

/// A document: a mapping from keys to values, with each key present once.
#[derive(Debug)]
pub struct JSON {
    pub object: Vec<(String, JSONValue)>,
}

pub open spec fn value_model(v: JSONValue) -> Val
    decreases v,
{
    match v {
        JSONValue::String(s) => Val::Str(s@),
        JSONValue::Number(n) => Val::Num(n),
        JSONValue::Bool(b) => Val::Bool(b),
        JSONValue::Null => Val::Null,
        JSONValue::Array(a) => Val::Arr(
            Seq::new(
                a.len() as nat,
                |i: int|
                    if 0 <= i < a.len() {
                        value_model(a[i])
                    } else {
                        Val::Null
                    },
            ),
        ),
        JSONValue::Object(d) => Val::Obj(
            Seq::new(
                d.object.len() as nat,
                |i: int|
                    if 0 <= i < d.object.len() {
                        (d.object[i].0@, value_model(d.object[i].1))
                    } else {
                        (Seq::empty(), Val::Null)
                    },
            ),
        ),
    }
}

impl View for JSONValue {
    type V = Val;

    open spec fn view(&self) -> Val {
        value_model(*self)
    }
}

impl View for JSON {
    type V = Doc;

    open spec fn view(&self) -> Doc {
        match value_model(JSONValue::Object(*self)) {
            Val::Obj(m) => m,
            _ => Seq::empty(),
        }
    }
}

pub proof fn lemma_doc_view(d: JSON)
    ensures
        d@.len() == d.object.len(),
        forall|j: int|
            0 <= j < d.object.len() ==> #[trigger] d@[j] == (d.object[j].0@, d.object[j].1@),
{
}

/// An input error: the file name or its contents were refused. It carries a
/// message for the user.
pub struct ArgsParseError(pub String);

/// A grammar error: the text is not a well-formed document.
pub struct JSONParseError;

/// A file name with the `.json` extension.
pub open spec fn has_json_extension(name: Seq<char>) -> bool {
    name.len() >= 5 && name.subrange(name.len() - 5, name.len() as int) == seq![
        '.',
        'j',
        's',
        'o',
        'n',
    ]
}

impl ArgsParseError {
    /// The error for a file name without the `.json` extension.
    pub fn not_json_file(file_name: &String) -> (r: ArgsParseError)
        ensures
            r.0@ == file_name@ + " is not a JSON file"@,
    {
        ArgsParseError(file_name.clone().concat(" is not a JSON file"))
    }

    /// The error for a file that cannot be read.
    pub fn missing_file(file_name: &String) -> (r: ArgsParseError)
        ensures
            r.0@ == file_name@ + " does not exist!"@,
    {
        ArgsParseError(file_name.clone().concat(" does not exist!"))
    }

    /// The message that this error carries.
    pub fn message(&self) -> (r: String)
        ensures
            r@ == self.0@,
    {
        self.0.clone()
    }
}

impl JSONParseError {
    /// The message shown for every grammar error.
    pub fn message(&self) -> (r: String)
        ensures
            r@ == "Invalid JSON file!"@,
    {
        String::from_str("Invalid JSON file!")
    }
}

} // verus!
