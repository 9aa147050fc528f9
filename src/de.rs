//! Decoding: reading a value of a given shape from the fields of a hash.
use vstd::prelude::*;
use crate::base64::{bytes_of, decode_bytes};
use crate::base64bcrypt::{decode_legacy, legacy_of};
use crate::scalar::{parse_field, parse_scalar};
use crate::shape::{
    lemma_bytes_view, lemma_char_view, lemma_pair_view, lemma_str_view, lemma_view_pairs_index,
    lemma_view_pairs_push, lemma_view_values_index, lemma_view_values_push, view_pairs,
    view_values, Error, Fault, Field, Shape, Val, Value, Variant,
};
use crate::text::{
    chars_of, copy_chars, join, join_text, lemma_split_nonempty, same_text, split, split_text,
    string_of, texts, Cut,
};

verus! {

/// The index of the first variant named `t`, from `i` on; -1 if there is none.
pub open spec fn variant_from(vs: Seq<Variant>, t: Seq<char>, i: int) -> int
    decreases vs.len() - i,
{
    if i < 0 || i >= vs.len() {
        -1
    } else if vs[i].name@ == t {
        i
    } else {
        variant_from(vs, t, i + 1)
    }
}

pub proof fn lemma_variant_from(vs: Seq<Variant>, t: Seq<char>, i: int)
    ensures
        variant_from(vs, t, i) == -1 || (0 <= i <= variant_from(vs, t, i) < vs.len()
            && vs[variant_from(vs, t, i)].name@ == t),
    decreases vs.len() - i,
{
    if 0 <= i < vs.len() && vs[i].name@ != t {
        lemma_variant_from(vs, t, i + 1);
    }
}

#[via_fn]
proof fn dec_decreases(fs: Seq<Seq<char>>, pos: int, shape: Shape) {
    if let Shape::Enum(variants) = shape {
        if 0 <= pos < fs.len() {
            let i = variant_from(variants@, fs[pos], 0);
            lemma_variant_from(variants@, fs[pos], 0);
            if i >= 0 {
                assert(decreases_to!(variants => variants@));
                assert(decreases_to!(variants@ => variants@[i]));
                assert(decreases_to!(variants@[i].fields => variants@[i].fields@));
                assert(decreases_to!(shape => variants@[i].fields@));
            }
        }
    }
}

/// Reads `shape` from the fields `fs` starting at `pos`: the value and the
/// position of the first field not consumed.
pub open spec fn dec(fs: Seq<Seq<char>>, pos: int, shape: Shape) -> Result<(Val, int), Fault>
    decreases shape, 2int, 0int,
    via dec_decreases
{
    match shape {
        Shape::Struct(fields) => match dec_fields(fs, pos, fields@, fields@.len() as int) {
            Ok((vs, p)) => Ok((Val::Record(vs), p)),
            Err(e) => Err(e),
        },
        Shape::Enum(variants) => if pos < 0 || pos >= fs.len() {
            Err(Fault::MissingField)
        } else {
            let t = fs[pos];
            let i = variant_from(variants@, t, 0);
            if i < 0 {
                Err(Fault::UnknownVariant(t))
            } else {
                let fields = variants@[i].fields@;
                match dec_fields(fs, pos + 1, fields, fields.len() as int) {
                    Ok((vs, p)) => Ok((Val::Tagged(t, vs), p)),
                    Err(e) => Err(e),
                }
            }
        },
        _ => if pos < 0 || pos >= fs.len() {
            Err(Fault::MissingField)
        } else {
            match dec_one(fs[pos], shape) {
                Ok(v) => Ok((v, pos + 1)),
                Err(e) => Err(e),
            }
        },
    }
}

/// Reads a shape that takes one field from that field's text `t`.
pub open spec fn dec_one(t: Seq<char>, shape: Shape) -> Result<Val, Fault>
    decreases shape, 1int, 0int,
{
    match shape {
        Shape::Scalar(k) => match parse_scalar(t, k) {
            Some(v) => Ok(v),
            None => Err(Fault::Parse(k, t)),
        },
        Shape::Bytes => match bytes_of(t) {
            Some(b) => Ok(Val::Bytes(b)),
            None => Err(Fault::Encoding),
        },
        Shape::Legacy { salt, hash } => match legacy_of(t, salt as nat, hash as nat) {
            Some((a, b)) => Ok(Val::Pair(a, b)),
            None => Err(Fault::Encoding),
        },
        Shape::Optional(inner) => if t.len() == 0 {
            Ok(Val::Absent)
        } else {
            match dec(seq![t], 0, *inner) {
                Ok((v, _)) => Ok(Val::Present(Box::new(v))),
                Err(e) => Err(e),
            }
        },
        Shape::Sequence(_) => {
            let parts = split(t, Cut::Items);
            match dec_items(parts, shape, parts.len() as int) {
                Ok(vs) => Ok(Val::List(vs)),
                Err(e) => Err(e),
            }
        },
        Shape::Mapping(_, _) => {
            let tokens = split(t, Cut::Tokens);
            match dec_pairs(tokens, shape, pair_count(tokens.len())) {
                Ok(ps) => Ok(Val::Dict(ps)),
                Err(e) => Err(e),
            }
        },
        _ => Err(Fault::Unsupported),
    }
}

/// Reads the first `n` fields of a record, in order, from `pos` on.
pub open spec fn dec_fields(fs: Seq<Seq<char>>, pos: int, fields: Seq<Field>, n: int) -> Result<
    (Seq<Val>, int),
    Fault,
>
    decreases fields, 0int, n,
{
    if n <= 0 || n > fields.len() {
        Ok((Seq::empty(), pos))
    } else {
        match dec_fields(fs, pos, fields, n - 1) {
            Err(e) => Err(e),
            Ok((vs, p)) => match dec(fs, p, fields[n - 1].shape) {
                Err(e) => Err(e),
                Ok((v, q)) => Ok((vs.push(v), q)),
            },
        }
    }
}

/// Reads the first `n` parts of a sequence field, each on its own, as elements
/// of the sequence shape `seq_shape`.
pub open spec fn dec_items(parts: Seq<Seq<char>>, seq_shape: Shape, n: int) -> Result<Seq<Val>, Fault>
    decreases seq_shape, 0int, n,
{
    if n <= 0 || n > parts.len() || !(seq_shape is Sequence) {
        Ok(Seq::empty())
    } else {
        match dec_items(parts, seq_shape, n - 1) {
            Err(e) => Err(e),
            Ok(vs) => match dec(seq![parts[n - 1]], 0, *seq_shape->Sequence_0) {
                Err(e) => Err(e),
                Ok((v, _)) => Ok(vs.push(v)),
            },
        }
    }
}

/// Whether one of the pairs read so far has the key `k`.
pub open spec fn key_seen(ps: Seq<(Val, Val)>, k: Val) -> bool {
    exists|j: int| 0 <= j < ps.len() && #[trigger] ps[j].0 == k
}

/// Reads the first `n` key/value pairs of a map field cut into `tokens`, under
/// the map shape `map_shape`. Pair `i` is tokens `2i` and `2i + 1`; a key equal
/// to an earlier pair's key is refused.
pub open spec fn dec_pairs(tokens: Seq<Seq<char>>, map_shape: Shape, n: int) -> Result<
    Seq<(Val, Val)>,
    Fault,
>
    decreases map_shape, 0int, n,
{
    if n <= 0 || 2 * n - 2 >= tokens.len() || !(map_shape is Mapping) {
        Ok(Seq::empty())
    } else {
        match dec_pairs(tokens, map_shape, n - 1) {
            Err(e) => Err(e),
            Ok(ps) => {
                let i = n - 1;
                match dec(seq![tokens[2 * i]], 0, *map_shape->Mapping_0) {
                    Err(e) => Err(e),
                    Ok((k, _)) => if key_seen(ps, k) {
                        Err(Fault::DuplicateKey(tokens[2 * i]))
                    } else if 2 * i + 1 >= tokens.len() {
                        Err(Fault::MissingField)
                    } else {
                        match dec(seq![tokens[2 * i + 1]], 0, *map_shape->Mapping_1) {
                            Err(e) => Err(e),
                            Ok((v, _)) => Ok(ps.push((k, v))),
                        }
                    },
                }
            },
        }
    }
}

/// How many key/value pairs `n` tokens hold; an odd token out is a key
/// whose value is missing.
pub open spec fn pair_count(n: nat) -> int {
    ((n + 1) / 2) as int
}

/// The fields of a hash: its text cut at each `$`, less what comes before the
/// first one.
pub open spec fn fields_of(s: Seq<char>) -> Seq<Seq<char>> {
    split(s, Cut::Fields).drop_first()
}

/// What decoding the text `s` under `shape` gives. Fields left over after the
/// shape is read are not looked at.
pub open spec fn decode_text(s: Seq<char>, shape: Shape) -> Result<Val, Fault> {
    match dec(fields_of(s), 0, shape) {
        Ok((v, _)) => Ok(v),
        Err(e) => Err(e),
    }
}

proof fn lemma_fields_fail(fs: Seq<Seq<char>>, pos: int, fields: Seq<Field>, i: int, n: int)
    requires
        0 <= i <= n <= fields.len(),
        dec_fields(fs, pos, fields, i) is Err,
    ensures
        dec_fields(fs, pos, fields, n) == dec_fields(fs, pos, fields, i),
    decreases n - i,
{
    if n > i {
        lemma_fields_fail(fs, pos, fields, i, n - 1);
    }
}

proof fn lemma_items_fail(parts: Seq<Seq<char>>, m: Shape, i: int, n: int)
    requires
        0 <= i <= n <= parts.len(),
        dec_items(parts, m, i) is Err,
    ensures
        dec_items(parts, m, n) == dec_items(parts, m, i),
    decreases n - i,
{
    if n > i {
        lemma_items_fail(parts, m, i, n - 1);
    }
}

proof fn lemma_pairs_fail(tokens: Seq<Seq<char>>, m: Shape, i: int, n: int)
    requires
        0 <= i <= n,
        2 * n - 2 < tokens.len(),
        dec_pairs(tokens, m, i) is Err,
    ensures
        dec_pairs(tokens, m, n) == dec_pairs(tokens, m, i),
    decreases n - i,
{
    if n > i {
        lemma_pairs_fail(tokens, m, i, n - 1);
    }
}

/// One field on its own, as a cursor of its own.
fn single(t: &Vec<char>) -> (r: Vec<Vec<char>>)
    ensures
        texts(r@) == seq![t@],
{
    let mut r: Vec<Vec<char>> = Vec::new();
    r.push(copy_chars(t));
    assert(texts(r@) =~= seq![t@]);
    r
}

fn decode_at(fs: &Vec<Vec<char>>, pos: usize, shape: &Shape) -> (r: Result<(Value, usize), Error>)
    requires
        pos <= fs@.len(),
    ensures
        match r {
            Ok((v, p)) => dec(texts(fs@), pos as int, *shape) == Ok::<_, Fault>((v.view(), p as int)) && p
                <= fs@.len(),
            Err(e) => dec(texts(fs@), pos as int, *shape) == Err::<(Val, int), Fault>(e.view()),
        },
    decreases shape, 2int,
{
    match shape {
        Shape::Struct(fields) => match decode_fields(fs, pos, fields) {
            Ok((vs, p)) => Ok((Value::Record(vs), p)),
            Err(e) => Err(e),
        },
        Shape::Enum(variants) => {
            if pos >= fs.len() {
                return Err(Error::MissingField);
            }
            let t = &fs[pos];
            assert(texts(fs@)[pos as int] == t@);
            let mut i: usize = 0;
            while i < variants.len()
                invariant
                    i <= variants@.len(),
                    variant_from(variants@, t@, 0) == variant_from(variants@, t@, i as int),
                ensures
                    i <= variants@.len(),
                    variant_from(variants@, t@, 0) == variant_from(variants@, t@, i as int),
                    i < variants@.len() ==> variants@[i as int].name@ == t@,
                decreases variants.len() - i,
            {
                let name = chars_of(variants[i].name.as_str());
                if same_text(&name, t) {
                    break;
                }
                i += 1;
            }
            if i == variants.len() {
                return Err(Error::UnknownVariant(string_of(t)));
            }
            proof {
                assert(decreases_to!(variants => variants@));
                assert(decreases_to!(variants@ => variants@[i as int]));
            }
            match decode_fields(fs, pos + 1, &variants[i].fields) {
                Ok((vs, p)) => Ok((Value::Tagged(string_of(t), vs), p)),
                Err(e) => Err(e),
            }
        },
        _ => {
            if pos >= fs.len() {
                return Err(Error::MissingField);
            }
            assert(texts(fs@)[pos as int] == fs@[pos as int]@);
            match decode_one(&fs[pos], shape) {
                Ok(v) => Ok((v, pos + 1)),
                Err(e) => Err(e),
            }
        },
    }
}

fn decode_fields(fs: &Vec<Vec<char>>, pos: usize, fields: &Vec<Field>) -> (r: Result<
    (Vec<Value>, usize),
    Error,
>)
    requires
        pos <= fs@.len(),
    ensures
        match r {
            Ok((vs, p)) => dec_fields(texts(fs@), pos as int, fields@, fields@.len() as int) == Ok::<_, Fault>(
                (view_values(vs@), p as int),
            ) && p <= fs@.len(),
            Err(e) => dec_fields(texts(fs@), pos as int, fields@, fields@.len() as int) == Err::<(Seq<Val>, int), Fault>(
                e.view(),
            ),
        },
    decreases fields, 0int,
{
    let mut acc: Vec<Value> = Vec::new();
    let mut p = pos;
    let mut i: usize = 0;
    while i < fields.len()
        invariant
            i <= fields@.len(),
            p <= fs@.len(),
            dec_fields(texts(fs@), pos as int, fields@, i as int) == Ok::<_, Fault>(
                (view_values(acc@), p as int),
            ),
        decreases fields.len() - i,
    {
        proof {
            assert(decreases_to!(fields => fields@));
            assert(decreases_to!(fields@ => fields@[i as int]));
        }
        match decode_at(fs, p, &fields[i].shape) {
            Ok((v, q)) => {
                proof {
                    lemma_view_values_push(acc@, v);
                }
                acc.push(v);
                p = q;
            },
            Err(e) => {
                proof {
                    lemma_fields_fail(texts(fs@), pos as int, fields@, i + 1, fields@.len() as int);
                }
                return Err(e);
            },
        }
        i += 1;
    }
    Ok((acc, p))
}

fn decode_one(t: &Vec<char>, shape: &Shape) -> (r: Result<Value, Error>)
    ensures
        match r {
            Ok(v) => dec_one(t@, *shape) == Ok::<_, Fault>(v.view()),
            Err(e) => dec_one(t@, *shape) == Err::<Val, Fault>(e.view()),
        },
    decreases shape, 1int,
{
    match shape {
        Shape::Scalar(k) => match parse_field(t, *k) {
            Some(v) => Ok(v),
            None => Err(Error::Parse(*k, string_of(t))),
        },
        Shape::Bytes => match decode_bytes(t) {
            Ok(b) => Ok(Value::Bytes(b)),
            Err(e) => Err(e),
        },
        Shape::Legacy { salt, hash } => match decode_legacy(t, *salt, *hash) {
            Ok((a, b)) => Ok(Value::Pair(a, b)),
            Err(e) => Err(e),
        },
        Shape::Optional(inner) => {
            if t.len() == 0 {
                return Ok(Value::Absent);
            }
            let one = single(t);
            match decode_at(&one, 0, inner) {
                Ok((v, _)) => Ok(Value::Present(Box::new(v))),
                Err(e) => Err(e),
            }
        },
        Shape::Sequence(_) => {
            let parts = split_text(t, Cut::Items);
            match decode_items(&parts, shape) {
                Ok(vs) => Ok(Value::List(vs)),
                Err(e) => Err(e),
            }
        },
        Shape::Mapping(_, _) => {
            let tokens = split_text(t, Cut::Tokens);
            match decode_pairs(&tokens, shape) {
                Ok(ps) => Ok(Value::Dict(ps)),
                Err(e) => Err(e),
            }
        },
        _ => Err(Error::Unsupported),
    }
}

fn decode_items(parts: &Vec<Vec<char>>, seq_shape: &Shape) -> (r: Result<Vec<Value>, Error>)
    requires
        seq_shape is Sequence,
    ensures
        match r {
            Ok(vs) => dec_items(texts(parts@), *seq_shape, parts@.len() as int) == Ok::<_, Fault>(
                view_values(vs@),
            ),
            Err(e) => dec_items(texts(parts@), *seq_shape, parts@.len() as int) == Err::<Seq<Val>, Fault>(e.view()),
        },
    decreases seq_shape, 0int,
{
    let inner: &Shape = match seq_shape {
        Shape::Sequence(b) => b,
        _ => seq_shape,
    };
    proof {
        assert(decreases_to!(*seq_shape => *inner));
    }
    let mut acc: Vec<Value> = Vec::new();
    let mut i: usize = 0;
    while i < parts.len()
        invariant
            i <= parts@.len(),
            seq_shape is Sequence,
            *inner == *seq_shape->Sequence_0,
            dec_items(texts(parts@), *seq_shape, i as int) == Ok::<_, Fault>(view_values(acc@)),
        decreases parts.len() - i,
    {
        let one = single(&parts[i]);
        assert(texts(parts@)[i as int] == parts@[i as int]@);
        proof {
            assert(decreases_to!(*seq_shape => *inner));
        }
        match decode_at(&one, 0, inner) {
            Ok((v, _)) => {
                proof {
                    lemma_view_values_push(acc@, v);
                }
                acc.push(v);
            },
            Err(e) => {
                proof {
                    assert(dec_items(texts(parts@), *seq_shape, i + 1) == Err::<Seq<Val>, Fault>(
                        e.view(),
                    ));
                    lemma_items_fail(texts(parts@), *seq_shape, i + 1, parts@.len() as int);
                }
                return Err(e);
            },
        }
        i += 1;
    }
    Ok(acc)
}

fn same_bytes(a: &Vec<u8>, b: &Vec<u8>) -> (r: bool)
    ensures
        r == (a@ == b@),
{
    if a.len() != b.len() {
        return false;
    }
    let mut i: usize = 0;
    while i < a.len()
        invariant
            a@.len() == b@.len(),
            i <= a@.len(),
            forall|j: int| 0 <= j < i ==> a@[j] == b@[j],
        decreases a.len() - i,
    {
        if a[i] != b[i] {
            return false;
        }
        i += 1;
    }
    assert(a@ =~= b@);
    true
}

fn same_list(a: &Vec<Value>, b: &Vec<Value>) -> (r: bool)
    ensures
        r == (view_values(a@) == view_values(b@)),
    decreases a, 1int,
{
    proof {
        lemma_view_values_index(a@);
        lemma_view_values_index(b@);
    }
    if a.len() != b.len() {
        return false;
    }
    let mut i: usize = 0;
    while i < a.len()
        invariant
            a@.len() == b@.len(),
            i <= a@.len(),
            view_values(a@).len() == a@.len(),
            view_values(b@).len() == b@.len(),
            forall|j: int| 0 <= j < a@.len() ==> #[trigger] view_values(a@)[j] == a@[j].view(),
            forall|j: int| 0 <= j < b@.len() ==> #[trigger] view_values(b@)[j] == b@[j].view(),
            forall|j: int| 0 <= j < i ==> view_values(a@)[j] == view_values(b@)[j],
        decreases a.len() - i,
    {
        proof {
            assert(decreases_to!(a => a@));
            assert(decreases_to!(a@ => a@[i as int]));
        }
        if !same_value(&a[i], &b[i]) {
            assert(view_values(a@)[i as int] != view_values(b@)[i as int]);
            return false;
        }
        i += 1;
    }
    assert(view_values(a@) =~= view_values(b@));
    true
}

fn same_pairs(x: &Vec<(Value, Value)>, y: &Vec<(Value, Value)>) -> (r: bool)
    ensures
        r == (view_pairs(x@) == view_pairs(y@)),
    decreases x, 1int,
{
    proof {
        lemma_view_pairs_index(x@);
        lemma_view_pairs_index(y@);
    }
    if x.len() != y.len() {
        return false;
    }
    let mut i: usize = 0;
    while i < x.len()
        invariant
            x@.len() == y@.len(),
            i <= x@.len(),
            view_pairs(x@).len() == x@.len(),
            view_pairs(y@).len() == y@.len(),
            forall|j: int|
                0 <= j < x@.len() ==> #[trigger] view_pairs(x@)[j] == (
                    x@[j].0.view(),
                    x@[j].1.view(),
                ),
            forall|j: int|
                0 <= j < y@.len() ==> #[trigger] view_pairs(y@)[j] == (
                    y@[j].0.view(),
                    y@[j].1.view(),
                ),
            forall|j: int| 0 <= j < i ==> view_pairs(x@)[j] == view_pairs(y@)[j],
        decreases x.len() - i,
    {
        proof {
            assert(decreases_to!(x => x@));
            assert(decreases_to!(x@ => x@[i as int]));
            assert(decreases_to!(x@[i as int] => x@[i as int].0));
            assert(decreases_to!(x@[i as int] => x@[i as int].1));
        }
        if !same_value(&x[i].0, &y[i].0) || !same_value(&x[i].1, &y[i].1) {
            assert(view_pairs(x@)[i as int] != view_pairs(y@)[i as int]);
            return false;
        }
        i += 1;
    }
    assert(view_pairs(x@) =~= view_pairs(y@));
    true
}

/// Whether two values have the same model.
pub fn same_value(a: &Value, b: &Value) -> (r: bool)
    ensures
        r == (a.view() == b.view()),
    decreases a, 0int,
{
    match (a, b) {
        (Value::Bool(x), Value::Bool(y)) => *x == *y,
        (Value::UInt(x), Value::UInt(y)) => *x == *y,
        (Value::Int(x), Value::Int(y)) => *x == *y,
        (Value::Char(x), Value::Char(y)) => {
            proof {
                lemma_char_view(*x);
                lemma_char_view(*y);
            }
            *x == *y
        },
        (Value::Str(x), Value::Str(y)) => {
            proof {
                lemma_str_view(*x);
                lemma_str_view(*y);
            }
            same_text(&chars_of(x.as_str()), &chars_of(y.as_str()))
        },
        (Value::Bytes(x), Value::Bytes(y)) => {
            proof {
                lemma_bytes_view(*x);
                lemma_bytes_view(*y);
            }
            same_bytes(x, y)
        },
        (Value::Pair(x, u), Value::Pair(y, w)) => {
            proof {
                lemma_pair_view(*x, *u);
                lemma_pair_view(*y, *w);
            }
            same_bytes(x, y) && same_bytes(u, w)
        },
        (Value::Absent, Value::Absent) => true,
        (Value::Present(x), Value::Present(y)) => same_value(x, y),
        (Value::List(x), Value::List(y)) => same_list(x, y),
        (Value::Record(x), Value::Record(y)) => same_list(x, y),
        (Value::Tagged(n, x), Value::Tagged(m, y)) => same_text(
            &chars_of(n.as_str()),
            &chars_of(m.as_str()),
        ) && same_list(x, y),
        (Value::Dict(x), Value::Dict(y)) => same_pairs(x, y),
        _ => false,
    }
}

/// Whether one of the pairs read so far has the key `k`.
fn has_key(ps: &Vec<(Value, Value)>, k: &Value) -> (r: bool)
    ensures
        r == key_seen(view_pairs(ps@), k.view()),
{
    proof {
        lemma_view_pairs_index(ps@);
    }
    let mut j: usize = 0;
    while j < ps.len()
        invariant
            j <= ps@.len(),
            view_pairs(ps@).len() == ps@.len(),
            forall|l: int|
                0 <= l < ps@.len() ==> #[trigger] view_pairs(ps@)[l] == (
                    ps@[l].0.view(),
                    ps@[l].1.view(),
                ),
            forall|l: int| 0 <= l < j ==> (#[trigger] view_pairs(ps@)[l]).0 != k.view(),
        decreases ps.len() - j,
    {
        if same_value(&ps[j].0, k) {
            assert(view_pairs(ps@)[j as int].0 == k.view());
            return true;
        }
        j += 1;
    }
    false
}

fn decode_pairs(tokens: &Vec<Vec<char>>, map_shape: &Shape) -> (r: Result<Vec<(Value, Value)>, Error>)
    requires
        map_shape is Mapping,
    ensures
        match r {
            Ok(ps) => dec_pairs(texts(tokens@), *map_shape, pair_count(tokens@.len())) == Ok::<_, Fault>(
                view_pairs(ps@),
            ),
            Err(e) => dec_pairs(texts(tokens@), *map_shape, pair_count(tokens@.len())) == Err::<Seq<(Val, Val)>, Fault>(
                e.view(),
            ),
        },
    decreases map_shape, 0int,
{
    let (key_shape, value_shape): (&Shape, &Shape) = match map_shape {
        Shape::Mapping(k, v) => (k, v),
        _ => (map_shape, map_shape),
    };
    proof {
        assert(decreases_to!(*map_shape => *key_shape));
        assert(decreases_to!(*map_shape => *value_shape));
    }
    let ghost ts = texts(tokens@);
    let mut acc: Vec<(Value, Value)> = Vec::new();
    let mut i: usize = 0;
    while i < tokens.len() - i
        invariant
            ts == texts(tokens@),
            i <= pair_count(tokens@.len()),
            i <= tokens@.len(),
            map_shape is Mapping,
            *key_shape == *map_shape->Mapping_0,
            *value_shape == *map_shape->Mapping_1,
            dec_pairs(ts, *map_shape, i as int) == Ok::<_, Fault>(view_pairs(acc@)),
        decreases tokens.len() - i,
    {
        let kt = &tokens[2 * i];
        assert(ts[2 * i] == kt@);
        proof {
            assert(decreases_to!(*map_shape => *key_shape));
        }
        let key = match decode_at(&single(kt), 0, key_shape) {
            Ok((k, _)) => k,
            Err(e) => {
                proof {
                    assert(dec_pairs(ts, *map_shape, i + 1) == Err::<Seq<(Val, Val)>, Fault>(
                        e.view(),
                    ));
                    lemma_pairs_fail(ts, *map_shape, i + 1, pair_count(tokens@.len()));
                }
                return Err(e);
            },
        };
        if has_key(&acc, &key) {
            proof {
                assert(dec_pairs(ts, *map_shape, i + 1) == Err::<Seq<(Val, Val)>, Fault>(
                    Fault::DuplicateKey(ts[2 * i]),
                ));
                lemma_pairs_fail(ts, *map_shape, i + 1, pair_count(tokens@.len()));
            }
            return Err(Error::DuplicateKey(string_of(kt)));
        }
        if 2 * i + 1 >= tokens.len() {
            proof {
                lemma_pairs_fail(ts, *map_shape, i + 1, pair_count(tokens@.len()));
            }
            return Err(Error::MissingField);
        }
        let vt = &tokens[2 * i + 1];
        assert(ts[2 * i + 1] == vt@);
        proof {
            assert(decreases_to!(*map_shape => *value_shape));
        }
        match decode_at(&single(vt), 0, value_shape) {
            Ok((v, _)) => {
                proof {
                    lemma_view_pairs_push(acc@, (key, v));
                }
                acc.push((key, v));
            },
            Err(e) => {
                proof {
                    lemma_pairs_fail(ts, *map_shape, i + 1, pair_count(tokens@.len()));
                }
                return Err(e);
            },
        }
        i += 1;
    }
    Ok(acc)
}

/// A cursor over the fields of a hash, consumed front to back.
pub struct McfDeserializer {
    fields: Vec<Vec<char>>,
    pos: usize,
}

impl McfDeserializer {
    /// The fields of the hash.
    pub closed spec fn fields(&self) -> Seq<Seq<char>> {
        texts(self.fields@)
    }

    /// The index of the next field to consume.
    pub closed spec fn position(&self) -> int {
        self.pos as int
    }

    /// The position lies among the fields, or just past the last.
    pub open spec fn wf(&self) -> bool {
        0 <= self.position() <= self.fields().len()
    }

    /// A cursor at the first field of `input`, past the text before its
    /// first `$`.
    pub fn new(input: &str) -> (r: Self)
        ensures
            r.wf(),
            r.fields() == fields_of(input@),
            r.position() == 0,
    {
        let cs = chars_of(input);
        let mut fs = split_text(&cs, Cut::Fields);
        proof {
            lemma_split_nonempty(cs@, Cut::Fields);
        }
        let ghost all = fs@;
        fs.remove(0);
        proof {
            assert(texts(fs@) =~= texts(all).drop_first());
        }
        McfDeserializer { fields: fs, pos: 0 }
    }

    /// The fields not yet consumed, written back as one text with `$`
    /// between them; the cursor is then exhausted.
    pub fn rest(&mut self) -> (r: String)
        requires
            old(self).wf(),
        ensures
            final(self).wf(),
            final(self).fields() == old(self).fields(),
            final(self).position() == old(self).fields().len(),
            r@ == join(
                old(self).fields().subrange(old(self).position(), old(self).fields().len() as int),
                '$',
            ),
    {
        let mut left: Vec<Vec<char>> = Vec::new();
        let mut i = self.pos;
        while i < self.fields.len()
            invariant
                self.pos <= i <= self.fields@.len(),
                texts(left@) == texts(self.fields@).subrange(self.pos as int, i as int),
            decreases self.fields.len() - i,
        {
            let ghost before = left@;
            left.push(copy_chars(&self.fields[i]));
            proof {
                assert(texts(left@) =~= texts(before).push(self.fields@[i as int]@));
                assert(texts(self.fields@)[i as int] == self.fields@[i as int]@);
                assert(texts(left@) =~= texts(self.fields@).subrange(self.pos as int, i + 1));
            }
            i += 1;
        }
        self.pos = self.fields.len();
        string_of(&join_text(&left, '$'))
    }

    /// Reads one value of `shape` from the cursor and moves past the fields it
    /// took; on failure the cursor stays where it was.
    pub fn deserialize(&mut self, shape: &Shape) -> (r: Result<Value, Error>)
        requires
            old(self).wf(),
        ensures
            final(self).wf(),
            final(self).fields() == old(self).fields(),
            match r {
                Ok(v) => dec(old(self).fields(), old(self).position(), *shape) == Ok::<_, Fault>(
                    (v.view(), final(self).position()),
                ),
                Err(e) => dec(old(self).fields(), old(self).position(), *shape) == Err::<(Val, int), Fault>(e.view())
                    && final(self).position() == old(self).position(),
            },
    {
        match decode_at(&self.fields, self.pos, shape) {
            Ok((v, p)) => {
                self.pos = p;
                Ok(v)
            },
            Err(e) => Err(e),
        }
    }
}

/// Decodes a value of `shape` from an MCF string.
pub fn from_str(input: &str, shape: &Shape) -> (r: Result<Value, Error>)
    ensures
        match r {
            Ok(v) => decode_text(input@, *shape) == Ok::<_, Fault>(v.view()),
            Err(e) => decode_text(input@, *shape) == Err::<Val, Fault>(e.view()),
        },
{
    let mut d = McfDeserializer::new(input);
    d.deserialize(shape)
}

} // verus!
