//! Shapes (the caller's description of a record), values, errors, and the
//! mathematical model that the contracts speak of.
use vstd::prelude::*;

verus! {

/// The textual kinds a scalar field can hold.
#[derive(Debug, Clone, Copy, PartialEq, Eq, Structural)]
pub enum Kind {
    Bool,
    U8,
    U16,
    U32,
    U64,
    I8,
    I16,
    I32,
    I64,
    Char,
    Str,
}

/// A named member of a record or of an enum variant. The codec is positional:
/// the name only documents the field.
#[derive(Debug, PartialEq)]
pub struct Field {
    pub name: String,
    pub shape: Shape,
}

/// One variant of an enum: its discriminant token and the fields that follow it
/// on the same cursor (none for a unit variant, one for a newtype variant).
#[derive(Debug, PartialEq)]
pub struct Variant {
    pub name: String,
    pub fields: Vec<Field>,
}

/// The shape of a value, which drives both decoding and encoding.
#[derive(Debug, PartialEq)]
pub enum Shape {
    /// One field holding a scalar in its textual form.
    Scalar(Kind),
    /// One field holding bytes as unpadded base64.
    Bytes,
    /// One field holding two byte strings of the given lengths, each in the
    /// bcrypt alphabet, written back to back with no separator.
    Legacy { salt: usize, hash: usize },
    /// One field; the empty field stands for absence.
    Optional(Box<Shape>),
    /// One field split on `,`, each part an element. The empty field is one
    /// element read from the empty text.
    Sequence(Box<Shape>),
    /// One field split on `=` and `,`, read as alternating keys and values.
    /// Order is kept; a key equal in value to an earlier key is refused.
    Mapping(Box<Shape>, Box<Shape>),
    /// The fields in order, each taking its own place on the same cursor.
    Struct(Vec<Field>),
    /// A discriminant field naming a variant, then the variant's fields.
    Enum(Vec<Variant>),
}

/// A decoded (or to be encoded) value.
#[derive(Debug, PartialEq)]
pub enum Value {
    Bool(bool),
    UInt(u64),
    Int(i64),
    Char(char),
    Str(String),
    Bytes(Vec<u8>),
    Pair(Vec<u8>, Vec<u8>),
    Absent,
    Present(Box<Value>),
    List(Vec<Value>),
    Dict(Vec<(Value, Value)>),
    Record(Vec<Value>),
    Tagged(String, Vec<Value>),
}

/// Errors of decoding and encoding.
#[derive(Debug, PartialEq)]
pub enum Error {
    /// The cursor ran out where a field was required.
    MissingField,
    /// The field's text is not a value of the expected kind.
    Parse(Kind, String),
    /// A byte field is not a canonical encoding.
    Encoding,
    /// The discriminant names no declared variant.
    UnknownVariant(String),
    /// The value has no representation in the format under this shape.
    Unsupported,
    /// A map key decodes to the same value as an earlier key; it holds the
    /// repeated key's text.
    DuplicateKey(String),
}

/// The mathematical model of a `Value`.
pub enum Val {
    Bool(bool),
    UInt(u64),
    Int(i64),
    Char(char),
    Str(Seq<char>),
    Bytes(Seq<u8>),
    Pair(Seq<u8>, Seq<u8>),
    Absent,
    Present(Box<Val>),
    List(Seq<Val>),
    Dict(Seq<(Val, Val)>),
    Record(Seq<Val>),
    Tagged(Seq<char>, Seq<Val>),
}

/// The mathematical model of an `Error`.
pub enum Fault {
    MissingField,
    Parse(Kind, Seq<char>),
    Encoding,
    UnknownVariant(Seq<char>),
    Unsupported,
    DuplicateKey(Seq<char>),
}

pub open spec fn view_values(s: Seq<Value>) -> Seq<Val>
    decreases s,
{
    if s.len() == 0 {
        Seq::empty()
    } else {
        view_values(s.drop_last()).push(s.last().view())
    }
}

pub open spec fn view_pairs(s: Seq<(Value, Value)>) -> Seq<(Val, Val)>
    decreases s,
{
    if s.len() == 0 {
        Seq::empty()
    } else {
        view_pairs(s.drop_last()).push((s.last().0.view(), s.last().1.view()))
    }
}

impl Value {
    pub open spec fn view(self) -> Val
        decreases self,
    {
        match self {
            Value::Bool(b) => Val::Bool(b),
            Value::UInt(n) => Val::UInt(n),
            Value::Int(n) => Val::Int(n),
            Value::Char(c) => Val::Char(c),
            Value::Str(s) => Val::Str(s@),
            Value::Bytes(b) => Val::Bytes(b@),
            Value::Pair(a, b) => Val::Pair(a@, b@),
            Value::Absent => Val::Absent,
            Value::Present(x) => Val::Present(Box::new((*x).view())),
            Value::List(items) => Val::List(view_values(items@)),
            Value::Dict(pairs) => Val::Dict(view_pairs(pairs@)),
            Value::Record(items) => Val::Record(view_values(items@)),
            Value::Tagged(name, items) => Val::Tagged(name@, view_values(items@)),
        }
    }
}

impl Error {
    pub open spec fn view(self) -> Fault {
        match self {
            Error::MissingField => Fault::MissingField,
            Error::Parse(k, s) => Fault::Parse(k, s@),
            Error::Encoding => Fault::Encoding,
            Error::UnknownVariant(s) => Fault::UnknownVariant(s@),
            Error::Unsupported => Fault::Unsupported,
            Error::DuplicateKey(s) => Fault::DuplicateKey(s@),
        }
    }
}

pub proof fn lemma_view_values_push(s: Seq<Value>, v: Value)
    ensures
        view_values(s.push(v)) == view_values(s).push(v.view()),
        view_values(s).len() == s.len(),
    decreases s.len(),
{
    assert(s.push(v).drop_last() =~= s);
    if s.len() > 0 {
        lemma_view_values_push(s.drop_last(), s.last());
        assert(s.drop_last().push(s.last()) =~= s);
    }
}

pub proof fn lemma_view_pairs_push(s: Seq<(Value, Value)>, p: (Value, Value))
    ensures
        view_pairs(s.push(p)) == view_pairs(s).push((p.0.view(), p.1.view())),
{
    assert(s.push(p).drop_last() =~= s);
}

} // verus!

verus! {

pub proof fn lemma_view_values_index(s: Seq<Value>)
    ensures
        view_values(s).len() == s.len(),
        forall|i: int| 0 <= i < s.len() ==> #[trigger] view_values(s)[i] == s[i].view(),
    decreases s.len(),
{
    if s.len() > 0 {
        lemma_view_values_index(s.drop_last());
    }
}

pub proof fn lemma_view_pairs_index(s: Seq<(Value, Value)>)
    ensures
        view_pairs(s).len() == s.len(),
        forall|i: int|
            0 <= i < s.len() ==> #[trigger] view_pairs(s)[i] == (s[i].0.view(), s[i].1.view()),
    decreases s.len(),
{
    if s.len() > 0 {
        lemma_view_pairs_index(s.drop_last());
    }
}

pub proof fn lemma_char_view(c: char)
    ensures
        Value::Char(c).view() == Val::Char(c),
{
}

pub proof fn lemma_str_view(s: String)
    ensures
        Value::Str(s).view() == Val::Str(s@),
{
}

pub proof fn lemma_bytes_view(b: Vec<u8>)
    ensures
        Value::Bytes(b).view() == Val::Bytes(b@),
{
}

pub proof fn lemma_uint_view(n: u64)
    ensures
        Value::UInt(n).view() == Val::UInt(n),
{
}

pub proof fn lemma_pair_view(a: Vec<u8>, b: Vec<u8>)
    ensures
        Value::Pair(a, b).view() == Val::Pair(a@, b@),
{
}

} // verus!
