//! Encoding: writing a value of a given shape as the fields of a hash.
use vstd::prelude::*;
use crate::base64::{bytes_text, encode_bytes};
use crate::base64bcrypt::{encode_legacy, legacy_text};
use crate::de::variant_from;
use crate::scalar::{scalar_field, scalar_text};
use crate::shape::{
    lemma_view_pairs_index, lemma_view_values_index, view_pairs, view_values, Error, Fault,
    Field, Shape, Val, Value,
};
use crate::text::{chars_of, cuts, is_cut, join, join_text, plain, same_text, string_of, texts, Cut};

verus! {

/// No character of `t` is a delimiter of `by`.
pub open spec fn free_of(t: Seq<char>, by: Cut) -> bool {
    forall|i: int| 0 <= i < t.len() ==> !cuts(#[trigger] t[i], by)
}

/// The fields that `v` takes under `shape`, in order; `None` where the value
/// does not fit the shape or has no unambiguous text in the format.
pub open spec fn enc(v: Val, shape: Shape) -> Option<Seq<Seq<char>>>
    decreases shape, 2int, 0int,
    via enc_decreases
{
    match shape {
        Shape::Struct(fields) => match v {
            Val::Record(vs) => if vs.len() == fields@.len() {
                enc_fields(vs, fields@, fields@.len() as int)
            } else {
                None
            },
            _ => None,
        },
        Shape::Enum(variants) => match v {
            Val::Tagged(name, vs) => {
                let i = variant_from(variants@, name, 0);
                if i < 0 || !plain(name) {
                    None
                } else {
                    let fields = variants@[i].fields@;
                    if vs.len() != fields.len() {
                        None
                    } else {
                        match enc_fields(vs, fields, fields.len() as int) {
                            Some(fs) => Some(seq![name] + fs),
                            None => None,
                        }
                    }
                }
            },
            _ => None,
        },
        _ => match enc_one(v, shape) {
            Some(t) => Some(seq![t]),
            None => None,
        },
    }
}

#[via_fn]
proof fn enc_decreases(v: Val, shape: Shape) {
    if let Shape::Enum(variants) = shape {
        if let Val::Tagged(name, vs) = v {
            let i = variant_from(variants@, name, 0);
            crate::de::lemma_variant_from(variants@, name, 0);
            if i >= 0 {
                assert(decreases_to!(variants => variants@));
                assert(decreases_to!(variants@ => variants@[i]));
                assert(decreases_to!(variants@[i].fields => variants@[i].fields@));
                assert(decreases_to!(shape => variants@[i].fields@));
            }
        }
    }
}

/// The text of a shape that takes one field.
pub open spec fn enc_one(v: Val, shape: Shape) -> Option<Seq<char>>
    decreases shape, 1int, 0int,
{
    match shape {
        Shape::Scalar(k) => scalar_text(v, k),
        Shape::Bytes => match v {
            Val::Bytes(b) => bytes_text(b),
            _ => None,
        },
        Shape::Legacy { salt, hash } => match v {
            Val::Pair(a, b) => legacy_text(a, b, salt as nat, hash as nat),
            _ => None,
        },
        Shape::Optional(inner) => match v {
            Val::Absent => Some(Seq::empty()),
            Val::Present(x) => match enc(*x, *inner) {
                Some(f) => if f.len() == 1 && f[0].len() > 0 {
                    Some(f[0])
                } else {
                    None
                },
                None => None,
            },
            _ => None,
        },
        Shape::Sequence(_) => match v {
            Val::List(vs) => if vs.len() == 0 {
                None
            } else {
                enc_items(vs, shape, vs.len() as int)
            },
            _ => None,
        },
        Shape::Mapping(_, _) => match v {
            Val::Dict(ps) => if ps.len() == 0 {
                None
            } else {
                match enc_pairs(ps, shape, ps.len() as int) {
                    Some((t, _)) => Some(t),
                    None => None,
                }
            },
            _ => None,
        },
        _ => None,
    }
}

/// The fields of the first `n` members of a record, one after another.
pub open spec fn enc_fields(vs: Seq<Val>, fields: Seq<Field>, n: int) -> Option<Seq<Seq<char>>>
    decreases fields, 0int, n,
{
    if n <= 0 || n > fields.len() || n > vs.len() {
        Some(Seq::empty())
    } else {
        match enc_fields(vs, fields, n - 1) {
            None => None,
            Some(prev) => match enc(vs[n - 1], fields[n - 1].shape) {
                None => None,
                Some(f) => Some(prev + f),
            },
        }
    }
}

/// The text of an element, key or value: it must take exactly one field and
/// hold no delimiter of `by`.
pub open spec fn enc_atom(x: Val, shape: Shape, by: Cut) -> Option<Seq<char>>
    decreases shape, 3int, 0int,
{
    match enc(x, shape) {
        Some(f) => if f.len() == 1 && free_of(f[0], by) {
            Some(f[0])
        } else {
            None
        },
        None => None,
    }
}

/// The first `n` elements of a sequence, joined by `,`.
pub open spec fn enc_items(vs: Seq<Val>, seq_shape: Shape, n: int) -> Option<Seq<char>>
    decreases seq_shape, 0int, n,
{
    if n <= 0 || n > vs.len() || !(seq_shape is Sequence) {
        Some(Seq::empty())
    } else {
        match enc_items(vs, seq_shape, n - 1) {
            None => None,
            Some(prev) => match enc_atom(vs[n - 1], *seq_shape->Sequence_0, Cut::Items) {
                None => None,
                Some(t) => Some(
                    if n == 1 {
                        t
                    } else {
                        prev.push(',') + t
                    },
                ),
            },
        }
    }
}

/// The first `n` entries of a map as `key=value` joined by `,`, with the key
/// texts written so far; `None` where a key's text repeats.
pub open spec fn enc_pairs(ps: Seq<(Val, Val)>, map_shape: Shape, n: int) -> Option<
    (Seq<char>, Seq<Seq<char>>),
>
    decreases map_shape, 0int, n,
{
    if n <= 0 || n > ps.len() || !(map_shape is Mapping) {
        Some((Seq::empty(), Seq::empty()))
    } else {
        match enc_pairs(ps, map_shape, n - 1) {
            None => None,
            Some((prev, keys)) => match (
                enc_atom(ps[n - 1].0, *map_shape->Mapping_0, Cut::Tokens),
                enc_atom(ps[n - 1].1, *map_shape->Mapping_1, Cut::Tokens),
            ) {
                (Some(k), Some(t)) => if keys.contains(k) {
                    None
                } else {
                    let entry = k.push('=') + t;
                    Some(
                        (
                            if n == 1 {
                                entry
                            } else {
                                prev.push(',') + entry
                            },
                            keys.push(k),
                        ),
                    )
                },
                _ => None,
            },
        }
    }
}

/// The MCF text of `v` under `shape`: `$` and then the fields separated by
/// `$`. A bare optional has no field of its own to stand in, and is refused.
pub open spec fn encode_text(v: Val, shape: Shape) -> Option<Seq<char>> {
    if shape is Optional {
        None
    } else {
        match enc(v, shape) {
            Some(fs) => Some(seq!['$'] + join(fs, '$')),
            None => None,
        }
    }
}

proof fn lemma_fields_none(vs: Seq<Val>, fields: Seq<Field>, i: int, n: int)
    requires
        0 <= i <= n <= fields.len(),
        n <= vs.len(),
        enc_fields(vs, fields, i) is None,
    ensures
        enc_fields(vs, fields, n) is None,
    decreases n - i,
{
    if n > i {
        lemma_fields_none(vs, fields, i, n - 1);
    }
}

proof fn lemma_items_none(vs: Seq<Val>, m: Shape, i: int, n: int)
    requires
        0 <= i <= n <= vs.len(),
        m is Sequence,
        enc_items(vs, m, i) is None,
    ensures
        enc_items(vs, m, n) is None,
    decreases n - i,
{
    if n > i {
        lemma_items_none(vs, m, i, n - 1);
    }
}

proof fn lemma_pairs_none(ps: Seq<(Val, Val)>, m: Shape, i: int, n: int)
    requires
        0 <= i <= n <= ps.len(),
        m is Mapping,
        enc_pairs(ps, m, i) is None,
    ensures
        enc_pairs(ps, m, n) is None,
    decreases n - i,
{
    if n > i {
        lemma_pairs_none(ps, m, i, n - 1);
    }
}

fn is_free(t: &Vec<char>, by: Cut) -> (r: bool)
    ensures
        r == free_of(t@, by),
{
    let mut i: usize = 0;
    while i < t.len()
        invariant
            i <= t@.len(),
            forall|j: int| 0 <= j < i ==> !cuts(#[trigger] t@[j], by),
        decreases t.len() - i,
    {
        if is_cut(t[i], by) {
            return false;
        }
        i += 1;
    }
    true
}

fn contains_text(keys: &Vec<Vec<char>>, k: &Vec<char>) -> (r: bool)
    ensures
        r == texts(keys@).contains(k@),
{
    let mut i: usize = 0;
    while i < keys.len()
        invariant
            i <= keys@.len(),
            forall|j: int| 0 <= j < i ==> #[trigger] texts(keys@)[j] != k@,
        decreases keys.len() - i,
    {
        if same_text(&keys[i], k) {
            assert(texts(keys@)[i as int] == k@);
            return true;
        }
        i += 1;
    }
    false
}

fn push_all(out: &mut Vec<char>, t: &Vec<char>)
    ensures
        final(out)@ == old(out)@ + t@,
{
    let mut i: usize = 0;
    while i < t.len()
        invariant
            i <= t@.len(),
            out@ == old(out)@ + t@.subrange(0, i as int),
        decreases t.len() - i,
    {
        out.push(t[i]);
        proof {
            assert(t@.subrange(0, i + 1) =~= t@.subrange(0, i as int).push(t@[i as int]));
        }
        i += 1;
    }
    proof {
        assert(t@.subrange(0, t@.len() as int) =~= t@);
    }
}

fn encode_at(v: &Value, shape: &Shape) -> (r: Option<Vec<Vec<char>>>)
    ensures
        match r {
            Some(fs) => enc(v.view(), *shape) == Some(texts(fs@)),
            None => enc(v.view(), *shape) is None,
        },
    decreases shape, 2int,
{
    match shape {
        Shape::Struct(fields) => match v {
            Value::Record(vs) => {
                proof {
                    lemma_view_values_index(vs@);
                }
                if vs.len() != fields.len() {
                    return None;
                }
                encode_fields(vs, fields)
            },
            _ => None,
        },
        Shape::Enum(variants) => match v {
            Value::Tagged(name, vs) => {
                let nm = chars_of(name.as_str());
                let mut i: usize = 0;
                while i < variants.len()
                    invariant
                        i <= variants@.len(),
                        variant_from(variants@, nm@, 0) == variant_from(variants@, nm@, i as int),
                    ensures
                        i <= variants@.len(),
                        variant_from(variants@, nm@, 0) == variant_from(variants@, nm@, i as int),
                        i < variants@.len() ==> variants@[i as int].name@ == nm@,
                    decreases variants.len() - i,
                {
                    let other = chars_of(variants[i].name.as_str());
                    if same_text(&other, &nm) {
                        break;
                    }
                    i += 1;
                }
                proof {
                    lemma_view_values_index(vs@);
                }
                if i == variants.len() || !crate::text::is_plain(&nm) || vs.len()
                    != variants[i].fields.len() {
                    return None;
                }
                proof {
                    assert(decreases_to!(variants => variants@));
                    assert(decreases_to!(variants@ => variants@[i as int]));
                }
                match encode_fields(vs, &variants[i].fields) {
                    Some(fs) => {
                        let mut out: Vec<Vec<char>> = Vec::new();
                        out.push(nm);
                        let mut fs = fs;
                        let ghost tail = fs@;
                        out.append(&mut fs);
                        proof {
                            assert(texts(out@) =~= seq![nm@] + texts(tail));
                        }
                        Some(out)
                    },
                    None => None,
                }
            },
            _ => None,
        },
        _ => match encode_one(v, shape) {
            Some(t) => {
                let mut out: Vec<Vec<char>> = Vec::new();
                out.push(t);
                proof {
                    assert(texts(out@) =~= seq![t@]);
                }
                Some(out)
            },
            None => None,
        },
    }
}

fn encode_fields(vs: &Vec<Value>, fields: &Vec<Field>) -> (r: Option<Vec<Vec<char>>>)
    requires
        vs@.len() == fields@.len(),
    ensures
        match r {
            Some(fs) => enc_fields(view_values(vs@), fields@, fields@.len() as int) == Some(
                texts(fs@),
            ),
            None => enc_fields(view_values(vs@), fields@, fields@.len() as int) is None,
        },
    decreases fields, 0int,
{
    let ghost vv = view_values(vs@);
    proof {
        lemma_view_values_index(vs@);
    }
    let mut out: Vec<Vec<char>> = Vec::new();
    let mut i: usize = 0;
    while i < fields.len()
        invariant
            i <= fields@.len(),
            vs@.len() == fields@.len(),
            vv == view_values(vs@),
            vv.len() == vs@.len(),
            forall|j: int| 0 <= j < vs@.len() ==> #[trigger] vv[j] == vs@[j].view(),
            enc_fields(vv, fields@, i as int) == Some(texts(out@)),
        decreases fields.len() - i,
    {
        proof {
            assert(decreases_to!(fields => fields@));
            assert(decreases_to!(fields@ => fields@[i as int]));
        }
        match encode_at(&vs[i], &fields[i].shape) {
            Some(f) => {
                let ghost before = out@;
                let mut f = f;
                let ghost fv = f@;
                out.append(&mut f);
                proof {
                    assert(texts(out@) =~= texts(before) + texts(fv));
                }
            },
            None => {
                proof {
                    lemma_fields_none(vv, fields@, i + 1, fields@.len() as int);
                }
                return None;
            },
        }
        i += 1;
    }
    Some(out)
}

fn encode_one(v: &Value, shape: &Shape) -> (r: Option<Vec<char>>)
    ensures
        match r {
            Some(t) => enc_one(v.view(), *shape) == Some(t@),
            None => enc_one(v.view(), *shape) is None,
        },
    decreases shape, 1int,
{
    match shape {
        Shape::Scalar(k) => scalar_field(v, *k),
        Shape::Bytes => match v {
            Value::Bytes(b) => encode_bytes(b),
            _ => None,
        },
        Shape::Legacy { salt, hash } => match v {
            Value::Pair(a, b) => encode_legacy(a, b, *salt, *hash),
            _ => None,
        },
        Shape::Optional(inner) => match v {
            Value::Absent => Some(Vec::new()),
            Value::Present(x) => match encode_at(x, inner) {
                Some(f) => {
                    if f.len() == 1 && f[0].len() > 0 {
                        let mut f = f;
                        let ghost fv = f@;
                        let t = f.remove(0);
                        assert(t@ == texts(fv)[0]);
                        Some(t)
                    } else {
                        None
                    }
                },
                None => None,
            },
            _ => None,
        },
        Shape::Sequence(_) => match v {
            Value::List(vs) => {
                proof {
                    lemma_view_values_index(vs@);
                }
                if vs.len() == 0 {
                    None
                } else {
                    encode_items(vs, shape)
                }
            },
            _ => None,
        },
        Shape::Mapping(_, _) => match v {
            Value::Dict(ps) => {
                proof {
                    lemma_view_pairs_index(ps@);
                }
                if ps.len() == 0 {
                    None
                } else {
                    encode_pairs(ps, shape)
                }
            },
            _ => None,
        },
        _ => None,
    }
}

fn encode_atom(x: &Value, shape: &Shape, by: Cut) -> (r: Option<Vec<char>>)
    ensures
        match r {
            Some(t) => enc_atom(x.view(), *shape, by) == Some(t@),
            None => enc_atom(x.view(), *shape, by) is None,
        },
    decreases shape, 3int,
{
    match encode_at(x, shape) {
        Some(f) => {
            if f.len() == 1 && is_free(&f[0], by) {
                let mut f = f;
                let ghost fv = f@;
                let t = f.remove(0);
                assert(t@ == texts(fv)[0]);
                Some(t)
            } else {
                None
            }
        },
        None => None,
    }
}

fn encode_items(vs: &Vec<Value>, seq_shape: &Shape) -> (r: Option<Vec<char>>)
    requires
        seq_shape is Sequence,
    ensures
        match r {
            Some(t) => enc_items(view_values(vs@), *seq_shape, vs@.len() as int) == Some(t@),
            None => enc_items(view_values(vs@), *seq_shape, vs@.len() as int) is None,
        },
    decreases seq_shape, 0int,
{
    let inner: &Shape = match seq_shape {
        Shape::Sequence(b) => b,
        _ => seq_shape,
    };
    let ghost vv = view_values(vs@);
    proof {
        lemma_view_values_index(vs@);
    }
    let mut out: Vec<char> = Vec::new();
    let mut i: usize = 0;
    while i < vs.len()
        invariant
            i <= vs@.len(),
            seq_shape is Sequence,
            *inner == *seq_shape->Sequence_0,
            vv == view_values(vs@),
            vv.len() == vs@.len(),
            forall|j: int| 0 <= j < vs@.len() ==> #[trigger] vv[j] == vs@[j].view(),
            enc_items(vv, *seq_shape, i as int) == Some(out@),
        decreases vs.len() - i,
    {
        proof {
            assert(decreases_to!(*seq_shape => *inner));
        }
        match encode_atom(&vs[i], inner, Cut::Items) {
            Some(t) => {
                let ghost before = out@;
                if i > 0 {
                    out.push(',');
                }
                push_all(&mut out, &t);
                proof {
                    if i > 0 {
                        assert(out@ =~= before.push(',') + t@);
                    } else {
                        assert(out@ =~= t@);
                    }
                }
            },
            None => {
                proof {
                    lemma_items_none(vv, *seq_shape, i + 1, vs@.len() as int);
                }
                return None;
            },
        }
        i += 1;
    }
    Some(out)
}

fn encode_pairs(ps: &Vec<(Value, Value)>, map_shape: &Shape) -> (r: Option<Vec<char>>)
    requires
        map_shape is Mapping,
    ensures
        match r {
            Some(t) => enc_pairs(view_pairs(ps@), *map_shape, ps@.len() as int) matches Some(
                (u, _),
            ) && u == t@,
            None => enc_pairs(view_pairs(ps@), *map_shape, ps@.len() as int) is None,
        },
    decreases map_shape, 0int,
{
    let (key_shape, value_shape): (&Shape, &Shape) = match map_shape {
        Shape::Mapping(k, v) => (k, v),
        _ => (map_shape, map_shape),
    };
    let ghost pv = view_pairs(ps@);
    proof {
        lemma_view_pairs_index(ps@);
    }
    let mut out: Vec<char> = Vec::new();
    let mut keys: Vec<Vec<char>> = Vec::new();
    let mut i: usize = 0;
    while i < ps.len()
        invariant
            i <= ps@.len(),
            map_shape is Mapping,
            *key_shape == *map_shape->Mapping_0,
            *value_shape == *map_shape->Mapping_1,
            pv == view_pairs(ps@),
            pv.len() == ps@.len(),
            forall|j: int|
                0 <= j < ps@.len() ==> #[trigger] pv[j] == (ps@[j].0.view(), ps@[j].1.view()),
            enc_pairs(pv, *map_shape, i as int) == Some((out@, texts(keys@))),
        decreases ps.len() - i,
    {
        proof {
            assert(decreases_to!(*map_shape => *key_shape));
            assert(decreases_to!(*map_shape => *value_shape));
        }
        let k = encode_atom(&ps[i].0, key_shape, Cut::Tokens);
        let t = encode_atom(&ps[i].1, value_shape, Cut::Tokens);
        match (k, t) {
            (Some(k), Some(t)) => {
                if contains_text(&keys, &k) {
                    proof {
                        lemma_pairs_none(pv, *map_shape, i + 1, ps@.len() as int);
                    }
                    return None;
                }
                let ghost before = out@;
                let ghost kb = keys@;
                if i > 0 {
                    out.push(',');
                }
                push_all(&mut out, &k);
                out.push('=');
                push_all(&mut out, &t);
                keys.push(k);
                proof {
                    assert(texts(keys@) =~= texts(kb).push(k@));
                    if i > 0 {
                        assert(out@ =~= before.push(',') + (k@.push('=') + t@));
                    } else {
                        assert(out@ =~= k@.push('=') + t@);
                    }
                }
            },
            _ => {
                proof {
                    lemma_pairs_none(pv, *map_shape, i + 1, ps@.len() as int);
                }
                return None;
            },
        }
        i += 1;
    }
    Some(out)
}

/// The output buffer of an encode, begun with the leading `$`.
pub struct McfSerializer {
    out: Vec<char>,
}

impl McfSerializer {
    /// What the buffer holds.
    pub closed spec fn text(&self) -> Seq<char> {
        self.out@
    }

    /// A buffer holding the leading `$`.
    pub fn new() -> (r: Self)
        ensures
            r.text() == seq!['$'],
    {
        let mut out: Vec<char> = Vec::new();
        out.push('$');
        assert(out@ =~= seq!['$']);
        McfSerializer { out }
    }

    /// Appends the fields of `v` under `shape`, separated by `$`; on failure
    /// the buffer is left as it was.
    pub fn serialize(&mut self, v: &Value, shape: &Shape) -> (r: Result<(), Error>)
        ensures
            match enc(v.view(), *shape) {
                Some(fs) => r is Ok && final(self).text() == old(self).text() + join(fs, '$'),
                None => r matches Err(e) && e.view() == Fault::Unsupported && final(self).text()
                    == old(self).text(),
            },
    {
        match encode_at(v, shape) {
            Some(fs) => {
                let t = join_text(&fs, '$');
                push_all(&mut self.out, &t);
                Ok(())
            },
            None => Err(Error::Unsupported),
        }
    }

    /// The text written.
    pub fn into_string(self) -> (r: String)
        ensures
            r@ == self.text(),
    {
        string_of(&self.out)
    }
}

/// Encodes `v` under `shape` as an MCF string.
pub fn to_string(v: &Value, shape: &Shape) -> (r: Result<String, Error>)
    ensures
        match encode_text(v.view(), *shape) {
            Some(t) => r matches Ok(s) && s@ == t,
            None => r matches Err(e) && e.view() == Fault::Unsupported,
        },
{
    if let Shape::Optional(_) = shape {
        return Err(Error::Unsupported);
    }
    let mut w = McfSerializer::new();
    match w.serialize(v, shape) {
        Ok(()) => Ok(w.into_string()),
        Err(e) => Err(e),
    }
}

} // verus!
