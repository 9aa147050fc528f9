//! A generic hash record read from MCF: an algorithm identifier, its
//! parameters, a salt and a hash.
use vstd::prelude::*;
use crate::de::decode_text;
use crate::ser::encode_text;
use crate::shape::{lemma_bytes_view, lemma_str_view, lemma_view_pairs_index, view_pairs, view_values, Error, Fault, Field, Kind, Shape, Val, Value};

verus! {

/// A hash in the form `$<algorithm>$<k=v,...>$<salt>$<hash>`, the salt and
/// hash in unpadded base64.
#[derive(Debug, PartialEq)]
pub struct McfHash {
    pub algorithm: String,
    pub parameters: Vec<(String, String)>,
    pub salt: Vec<u8>,
    pub hash: Vec<u8>,
}

pub open spec fn text_pairs(ps: Seq<(String, String)>) -> Seq<(Val, Val)> {
    ps.map_values(|p: (String, String)| (Val::Str(p.0@), Val::Str(p.1@)))
}

pub open spec fn is_str(s: Box<Shape>) -> bool {
    *s == Shape::Scalar(Kind::Str)
}

/// The shape of an `McfHash`: a string, a map of strings, two byte fields.
pub open spec fn is_mcf_shape(s: Shape) -> bool {
    &&& s is Struct
    &&& s->Struct_0@.len() == 4
    &&& s->Struct_0@[0].shape == Shape::Scalar(Kind::Str)
    &&& s->Struct_0@[1].shape matches Shape::Mapping(k, v) && is_str(k) && is_str(v)
    &&& s->Struct_0@[2].shape == Shape::Bytes
    &&& s->Struct_0@[3].shape == Shape::Bytes
}

/// The values that stand for an `McfHash`.
pub open spec fn is_mcf_value(v: Val) -> bool {
    &&& v is Record
    &&& v->Record_0.len() == 4
    &&& v->Record_0[0] is Str
    &&& v->Record_0[1] is Dict
    &&& forall|i: int|
        0 <= i < v->Record_0[1]->Dict_0.len() ==> (#[trigger] v->Record_0[1]->Dict_0[i]).0 is Str
            && v->Record_0[1]->Dict_0[i].1 is Str
    &&& v->Record_0[2] is Bytes
    &&& v->Record_0[3] is Bytes
}

pub(crate) fn named(name: &str, shape: Shape) -> (r: Field)
    ensures
        r.shape == shape,
{
    Field { name: String::from_str(name), shape }
}

impl McfHash {
    pub open spec fn view(&self) -> Val {
        Val::Record(
            seq![
                Val::Str(self.algorithm@),
                Val::Dict(text_pairs(self.parameters@)),
                Val::Bytes(self.salt@),
                Val::Bytes(self.hash@),
            ],
        )
    }

    /// The shape an `McfHash` is read and written with.
    pub fn shape() -> (r: Shape)
        ensures
            is_mcf_shape(r),
    {
        let mut fields: Vec<Field> = Vec::new();
        fields.push(named("algorithm", Shape::Scalar(Kind::Str)));
        fields.push(
            named(
                "parameters",
                Shape::Mapping(Box::new(Shape::Scalar(Kind::Str)), Box::new(Shape::Scalar(Kind::Str))),
            ),
        );
        fields.push(named("salt", Shape::Bytes));
        fields.push(named("hash", Shape::Bytes));
        Shape::Struct(fields)
    }

    /// The record as a value.
    pub fn to_value(&self) -> (r: Value)
        ensures
            r.view() == self.view(),
    {
        let mut ps: Vec<(Value, Value)> = Vec::new();
        let mut i: usize = 0;
        while i < self.parameters.len()
            invariant
                i <= self.parameters@.len(),
                view_pairs(ps@) == text_pairs(self.parameters@).subrange(0, i as int),
            decreases self.parameters.len() - i,
        {
            let k = self.parameters[i].0.clone();
            let v = self.parameters[i].1.clone();
            proof {
                crate::shape::lemma_view_pairs_push(ps@, (Value::Str(k), Value::Str(v)));
                assert(text_pairs(self.parameters@).subrange(0, i + 1) =~= text_pairs(
                    self.parameters@,
                ).subrange(0, i as int).push((Val::Str(k@), Val::Str(v@))));
            }
            ps.push((Value::Str(k), Value::Str(v)));
            i += 1;
        }
        proof {
            assert(text_pairs(self.parameters@).subrange(0, i as int) =~= text_pairs(
                self.parameters@,
            ));
        }
        let a = self.algorithm.clone();
        let salt = self.salt.clone();
        let hash = self.hash.clone();
        proof {
            lemma_str_view(a);
            lemma_bytes_view(salt);
            lemma_bytes_view(hash);
            assert(salt@ =~= self.salt@);
            assert(hash@ =~= self.hash@);
        }
        let mut vs: Vec<Value> = Vec::new();
        vs.push(Value::Str(a));
        vs.push(Value::Dict(ps));
        vs.push(Value::Bytes(salt));
        vs.push(Value::Bytes(hash));
        proof {
            crate::shape::lemma_view_values_index(vs@);
            assert(view_values(vs@) =~= seq![
                Val::Str(self.algorithm@),
                Val::Dict(text_pairs(self.parameters@)),
                Val::Bytes(self.salt@),
                Val::Bytes(self.hash@),
            ]);
        }
        Value::Record(vs)
    }

    /// The record a value stands for; `None` where it is not of that form.
    pub fn from_value(v: &Value) -> (r: Option<McfHash>)
        ensures
            r is Some <==> is_mcf_value(v.view()),
            r matches Some(h) ==> h.view() == v.view(),
    {
        let vs = match v {
            Value::Record(vs) => vs,
            _ => return None,
        };
        proof {
            crate::shape::lemma_view_values_index(vs@);
        }
        if vs.len() != 4 {
            return None;
        }
        let algorithm = match &vs[0] {
            Value::Str(s) => {
                proof {
                    lemma_str_view(*s);
                }
                s.clone()
            },
            _ => return None,
        };
        let ps = match &vs[1] {
            Value::Dict(ps) => ps,
            _ => return None,
        };
        proof {
            lemma_view_pairs_index(ps@);
        }
        let salt = match &vs[2] {
            Value::Bytes(b) => {
                proof {
                    lemma_bytes_view(*b);
                }
                let c = b.clone();
                assert(c@ =~= b@);
                c
            },
            _ => return None,
        };
        let hash = match &vs[3] {
            Value::Bytes(b) => {
                proof {
                    lemma_bytes_view(*b);
                }
                let c = b.clone();
                assert(c@ =~= b@);
                c
            },
            _ => return None,
        };
        proof {
            assert(v.view()->Record_0[1] == vs@[1].view());
        }
        let mut parameters: Vec<(String, String)> = Vec::new();
        let mut i: usize = 0;
        while i < ps.len()
            invariant
                i <= ps@.len(),
                v.view() is Record,
                v.view()->Record_0.len() == 4,
                v.view()->Record_0[1] == Val::Dict(view_pairs(ps@)),
                view_pairs(ps@).len() == ps@.len(),
                forall|j: int|
                    0 <= j < ps@.len() ==> #[trigger] view_pairs(ps@)[j] == (
                        ps@[j].0.view(),
                        ps@[j].1.view(),
                    ),
                forall|j: int|
                    0 <= j < i ==> (#[trigger] view_pairs(ps@)[j]).0 is Str && view_pairs(
                        ps@,
                    )[j].1 is Str,
                text_pairs(parameters@) == view_pairs(ps@).subrange(0, i as int),
            decreases ps.len() - i,
        {
            match (&ps[i].0, &ps[i].1) {
                (Value::Str(k), Value::Str(t)) => {
                    let ghost before = parameters@;
                    let k2 = k.clone();
                    let t2 = t.clone();
                    proof {
                        lemma_str_view(*k);
                        lemma_str_view(*t);
                    }
                    parameters.push((k2, t2));
                    proof {
                        assert(ps@[i as int].0 == Value::Str(*k));
                        assert(ps@[i as int].1 == Value::Str(*t));
                        assert(view_pairs(ps@)[i as int] == (Val::Str(k2@), Val::Str(t2@)));
                        assert(text_pairs(parameters@) =~= text_pairs(before).push(
                            (Val::Str(k2@), Val::Str(t2@)),
                        ));
                        assert(view_pairs(ps@).subrange(0, i + 1) =~= view_pairs(ps@).subrange(
                            0,
                            i as int,
                        ).push(view_pairs(ps@)[i as int]));
                        assert(text_pairs(parameters@) =~= view_pairs(ps@).subrange(0, i + 1));
                    }
                },
                _ => {
                    assert(!(view_pairs(ps@)[i as int].0 is Str && view_pairs(ps@)[i as int].1 is Str));
                    return None;
                },
            }
            i += 1;
        }
        proof {
            assert(view_pairs(ps@).subrange(0, i as int) =~= view_pairs(ps@));
        }
        let h = McfHash { algorithm, parameters, salt, hash };
        proof {
            assert(view_values(vs@) =~= seq![
                Val::Str(h.algorithm@),
                Val::Dict(text_pairs(h.parameters@)),
                Val::Bytes(h.salt@),
                Val::Bytes(h.hash@),
            ]);
        }
        Some(h)
    }

    /// Reads a hash. The shape is `McfHash::shape()`; a decoded value not of
    /// the record's form (which that shape does not produce) is `Unsupported`.
    pub fn from_str(input: &str) -> (r: Result<McfHash, Error>)
        ensures
            exists|s: Shape|
                is_mcf_shape(s) && match r {
                    Ok(h) => decode_text(input@, s) == Ok::<Val, Fault>(h.view()),
                    Err(e) => decode_text(input@, s) == Err::<Val, Fault>(e.view()) || (decode_text(
                        input@,
                        s,
                    ) matches Ok(v) && !is_mcf_value(v) && e.view() == Fault::Unsupported),
                },
    {
        let s = McfHash::shape();
        match crate::de::from_str(input, &s) {
            Ok(v) => match McfHash::from_value(&v) {
                Some(h) => Ok(h),
                None => Err(Error::Unsupported),
            },
            Err(e) => Err(e),
        }
    }

    /// Writes the hash as MCF.
    pub fn to_string(&self) -> (r: Result<String, Error>)
        ensures
            exists|s: Shape|
                is_mcf_shape(s) && match encode_text(self.view(), s) {
                    Some(t) => r matches Ok(x) && x@ == t,
                    None => r matches Err(e) && e.view() == Fault::Unsupported,
                },
    {
        let s = McfHash::shape();
        crate::ser::to_string(&self.to_value(), &s)
    }
}

} // verus!
