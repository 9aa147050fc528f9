//! The bcrypt hash in its own layout, `$2a$<cost>$<salt and hash>`, whose
//! salt and hash share one field in the bcrypt alphabet.
use vstd::prelude::*;
use crate::de::decode_text;
use crate::hash::{named, McfHash};
use crate::scalar::{decimal, push_decimal};
use crate::ser::encode_text;
use crate::shape::{
    lemma_pair_view, lemma_str_view, lemma_uint_view, lemma_view_values_index,
    view_values, Error, Fault, Kind, Shape, Val, Value,
};
use crate::text::string_of;

verus! {

/// Bytes of a bcrypt salt.
pub const SALT_LEN: usize = 16;

/// Bytes of a bcrypt hash.
pub const HASH_LEN: usize = 23;

/// An MCF-style bcrypt hash.
#[derive(Debug, PartialEq)]
pub struct BcryptHash {
    pub algorithm: String,
    pub cost: u8,
    pub salthash: (Vec<u8>, Vec<u8>),
}

/// The shape of a `BcryptHash`: a string, a `u8`, a legacy salt and hash.
pub open spec fn is_bcrypt_shape(s: Shape) -> bool {
    &&& s is Struct
    &&& s->Struct_0@.len() == 3
    &&& s->Struct_0@[0].shape == Shape::Scalar(Kind::Str)
    &&& s->Struct_0@[1].shape == Shape::Scalar(Kind::U8)
    &&& s->Struct_0@[2].shape == Shape::Legacy { salt: SALT_LEN, hash: HASH_LEN }
}

/// The values that stand for a `BcryptHash`.
pub open spec fn is_bcrypt_value(v: Val) -> bool {
    &&& v is Record
    &&& v->Record_0.len() == 3
    &&& v->Record_0[0] is Str
    &&& v->Record_0[1] matches Val::UInt(n) && n <= 0xff
    &&& v->Record_0[2] is Pair
}

impl BcryptHash {
    pub open spec fn view(&self) -> Val {
        Val::Record(
            seq![
                Val::Str(self.algorithm@),
                Val::UInt(self.cost as u64),
                Val::Pair(self.salthash.0@, self.salthash.1@),
            ],
        )
    }

    /// The shape a `BcryptHash` is read and written with.
    pub fn shape() -> (r: Shape)
        ensures
            is_bcrypt_shape(r),
    {
        let mut fields = Vec::new();
        fields.push(named("algorithm", Shape::Scalar(Kind::Str)));
        fields.push(named("cost", Shape::Scalar(Kind::U8)));
        fields.push(named("salthash", Shape::Legacy { salt: SALT_LEN, hash: HASH_LEN }));
        Shape::Struct(fields)
    }

    /// The record as a value.
    pub fn to_value(&self) -> (r: Value)
        ensures
            r.view() == self.view(),
    {
        let a = self.algorithm.clone();
        let s = self.salthash.0.clone();
        let h = self.salthash.1.clone();
        proof {
            lemma_str_view(a);
            lemma_uint_view(self.cost as u64);
            lemma_pair_view(s, h);
            assert(s@ =~= self.salthash.0@);
            assert(h@ =~= self.salthash.1@);
        }
        let mut vs: Vec<Value> = Vec::new();
        vs.push(Value::Str(a));
        vs.push(Value::UInt(self.cost as u64));
        vs.push(Value::Pair(s, h));
        proof {
            lemma_view_values_index(vs@);
            assert(view_values(vs@) =~= seq![
                Val::Str(self.algorithm@),
                Val::UInt(self.cost as u64),
                Val::Pair(self.salthash.0@, self.salthash.1@),
            ]);
        }
        Value::Record(vs)
    }

    /// The record a value stands for; `None` where it is not of that form.
    pub fn from_value(v: &Value) -> (r: Option<BcryptHash>)
        ensures
            r is Some <==> is_bcrypt_value(v.view()),
            r matches Some(h) ==> h.view() == v.view(),
    {
        let vs = match v {
            Value::Record(vs) => vs,
            _ => return None,
        };
        proof {
            lemma_view_values_index(vs@);
        }
        if vs.len() != 3 {
            return None;
        }
        let algorithm = match &vs[0] {
            Value::Str(s) => {
                proof {
                    lemma_str_view(*s);
                }
                s.clone()
            },
            _ => return None,
        };
        let cost = match &vs[1] {
            Value::UInt(n) => {
                proof {
                    lemma_uint_view(*n);
                }
                if *n > 0xff {
                    return None;
                }
                *n as u8
            },
            _ => return None,
        };
        let salthash = match &vs[2] {
            Value::Pair(a, b) => {
                proof {
                    lemma_pair_view(*a, *b);
                }
                let a2 = a.clone();
                let b2 = b.clone();
                assert(a2@ =~= a@);
                assert(b2@ =~= b@);
                (a2, b2)
            },
            _ => return None,
        };
        let h = BcryptHash { algorithm, cost, salthash };
        proof {
            assert(view_values(vs@) =~= seq![
                Val::Str(h.algorithm@),
                Val::UInt(h.cost as u64),
                Val::Pair(h.salthash.0@, h.salthash.1@),
            ]);
        }
        Some(h)
    }

    /// Reads a bcrypt hash. A decoded value not of the record's form (which
    /// the shape does not produce) is `Unsupported`.
    pub fn from_str(input: &str) -> (r: Result<BcryptHash, Error>)
        ensures
            exists|s: Shape|
                is_bcrypt_shape(s) && match r {
                    Ok(h) => decode_text(input@, s) == Ok::<Val, Fault>(h.view()),
                    Err(e) => decode_text(input@, s) == Err::<Val, Fault>(e.view()) || (decode_text(
                        input@,
                        s,
                    ) matches Ok(v) && !is_bcrypt_value(v) && e.view() == Fault::Unsupported),
                },
    {
        let s = BcryptHash::shape();
        match crate::de::from_str(input, &s) {
            Ok(v) => match BcryptHash::from_value(&v) {
                Some(h) => Ok(h),
                None => Err(Error::Unsupported),
            },
            Err(e) => Err(e),
        }
    }

    /// Writes the hash as MCF.
    pub fn to_string(&self) -> (r: Result<String, Error>)
        ensures
            exists|s: Shape|
                is_bcrypt_shape(s) && match encode_text(self.view(), s) {
                    Some(t) => r matches Ok(x) && x@ == t,
                    None => r matches Err(e) && e.view() == Fault::Unsupported,
                },
    {
        let s = BcryptHash::shape();
        crate::ser::to_string(&self.to_value(), &s)
    }

    /// The same hash as a generic record: the cost becomes the parameter
    /// `cost`, the salt and hash their own fields.
    pub fn into(self) -> (r: McfHash)
        ensures
            r.algorithm@ == self.algorithm@,
            r.parameters@.len() == 1,
            r.parameters@[0].0@ == seq!['c', 'o', 's', 't'],
            r.parameters@[0].1@ == decimal(self.cost as nat),
            r.salt@ == self.salthash.0@,
            r.hash@ == self.salthash.1@,
    {
        let mut digits: Vec<char> = Vec::new();
        push_decimal(&mut digits, self.cost as u64);
        let key = String::from_str("cost");
        proof {
            reveal_strlit("cost");
        }
        let mut parameters: Vec<(String, String)> = Vec::new();
        parameters.push((key, string_of(&digits)));
        assert(digits@ =~= decimal(self.cost as nat));
        McfHash {
            algorithm: self.algorithm,
            parameters,
            salt: self.salthash.0,
            hash: self.salthash.1,
        }
    }
}

} // verus!
