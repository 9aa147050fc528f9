//! What holds across calls: decoding undoes encoding, decoding is a function
//! of its input, and absence survives a round trip.
use vstd::prelude::*;
use crate::scalar::{
    all_digits, decimal, digit_char, digit_value, digits_value, false_text, is_digit,
    parse_scalar, scalar_text, true_text, unsigned_body,
};
use crate::de::{
    dec, dec_fields, dec_items, dec_one, dec_pairs, decode_text, fields_of, lemma_variant_from,
    key_seen, pair_count, variant_from,
};
use crate::ser::{enc, enc_atom, enc_fields, enc_items, enc_one, enc_pairs, encode_text, free_of};
use crate::shape::{Fault, Field, Kind, Shape, Val};
use crate::text::{cuts, join, plain, split, Cut};

verus! {

proof fn lemma_digit(d: nat)
    requires
        d < 10,
    ensures
        is_digit(digit_char(d)),
        digit_value(digit_char(d)) == d,
{
    let ds = seq!['0', '1', '2', '3', '4', '5', '6', '7', '8', '9'];
    assert(ds[0] == '0' && ds[1] == '1' && ds[2] == '2' && ds[3] == '3' && ds[4] == '4');
    assert(ds[5] == '5' && ds[6] == '6' && ds[7] == '7' && ds[8] == '8' && ds[9] == '9');
}

/// The decimal digits of `n` are digits, at least one, and read back as `n`.
proof fn lemma_decimal(n: nat)
    ensures
        all_digits(decimal(n)),
        digits_value(decimal(n)) == n,
    decreases n,
{
    let t = decimal(n);
    if n < 10 {
        lemma_digit(n);
        assert(t.drop_last() =~= Seq::<char>::empty());
        assert(t.last() == digit_char(n));
        assert(digits_value(t) == digits_value(t.drop_last()) * 10 + digit_value(t.last()));
    } else {
        lemma_decimal(n / 10);
        lemma_digit(n % 10);
        assert(t.drop_last() =~= decimal(n / 10));
        assert((n / 10) * 10 + n % 10 == n) by (nonlinear_arith);
        assert(t.last() == digit_char(n % 10));
        assert(digits_value(t) == digits_value(decimal(n / 10)) * 10 + digit_value(t.last()));
        assert forall|i: int| 0 <= i < t.len() implies is_digit(#[trigger] t[i]) by {
            if i < t.len() - 1 {
                assert(t[i] == decimal(n / 10)[i]);
            }
        }
    }
}

/// A scalar's canonical text reads back as the scalar.
pub proof fn lemma_scalar_round_trip(v: Val, k: Kind)
    requires
        scalar_text(v, k) is Some,
    ensures
        parse_scalar(scalar_text(v, k)->0, k) == Some(v),
{
    let t = scalar_text(v, k)->0;
    match (k, v) {
        (Kind::Bool, Val::Bool(b)) => {
            if !b {
                assert(false_text().len() != true_text().len());
            }
        },
        (Kind::Char, Val::Char(c)) => {},
        (Kind::Str, Val::Str(s)) => {},
        (_, Val::UInt(n)) => {
            lemma_decimal(n as nat);
            assert(unsigned_body(t, false) == t);
        },
        (_, Val::Int(n)) => {
            if n < 0 {
                lemma_decimal((-n) as nat);
                assert(t.drop_first() =~= decimal((-n) as nat));
                assert(unsigned_body(t, true) == decimal((-n) as nat));
            } else {
                lemma_decimal(n as nat);
                assert(unsigned_body(t, true) == t);
            }
        },
        _ => {},
    }
}

/// Shapes whose fields all hold text of the library's own making: no byte
/// field, whose text comes from the outside encoder.
pub open spec fn textual(shape: Shape) -> bool
    decreases shape,
{
    match shape {
        Shape::Scalar(_) => true,
        Shape::Bytes => false,
        Shape::Legacy { .. } => false,
        Shape::Optional(i) => textual(*i),
        Shape::Sequence(i) => textual(*i),
        Shape::Mapping(k, v) => textual(*k) && textual(*v),
        Shape::Struct(fields) => forall|i: int|
            0 <= i < fields@.len() ==> textual(#[trigger] fields@[i].shape),
        Shape::Enum(vs) => forall|i: int, j: int|
            0 <= i < vs@.len() && 0 <= j < vs@[i].fields@.len() ==> textual(
                #[trigger] vs@[i].fields@[j].shape,
            ),
    }
}

proof fn lemma_split_free(a: Seq<char>, by: Cut)
    requires
        free_of(a, by),
    ensures
        split(a, by) == seq![a],
    decreases a.len(),
{
    if a.len() == 0 {
        assert(a =~= Seq::<char>::empty());
        assert(split(a, by) =~= seq![a]);
    } else {
        assert(free_of(a.drop_last(), by));
        lemma_split_free(a.drop_last(), by);
        assert(!cuts(a[a.len() - 1], by));
        assert(a.drop_last().push(a.last()) =~= a);
        assert(split(a, by) =~= seq![a]);
    }
}

proof fn lemma_split_after(s: Seq<char>, c: char, a: Seq<char>, by: Cut)
    requires
        cuts(c, by),
        free_of(a, by),
    ensures
        split(s.push(c) + a, by) == split(s, by).push(a),
    decreases a.len(),
{
    let x = s.push(c) + a;
    if a.len() == 0 {
        assert(a =~= Seq::<char>::empty());
        assert(x =~= s.push(c));
        assert(s.push(c).drop_last() =~= s);
        assert(split(s, by).push(a) =~= split(s, by).push(Seq::<char>::empty()));
    } else {
        assert(free_of(a.drop_last(), by));
        lemma_split_after(s, c, a.drop_last(), by);
        assert(x.drop_last() =~= s.push(c) + a.drop_last());
        assert(x.last() == a[a.len() - 1]);
        assert(a.drop_last().push(a.last()) =~= a);
        let prev = split(s, by).push(a.drop_last());
        assert(prev.update(prev.len() - 1, prev.last().push(x.last())) =~= split(s, by).push(a));
    }
}

proof fn lemma_plain_free(a: Seq<char>, by: Cut)
    requires
        plain(a),
    ensures
        free_of(a, by),
{
    assert forall|i: int| 0 <= i < a.len() implies !cuts(#[trigger] a[i], by) by {
        assert(!(a[i] == '$' || a[i] == ',' || a[i] == '='));
    }
}

/// The text `$f0$f1...` cuts back into its fields when none holds a `$`.
proof fn lemma_fields_of_join(fs: Seq<Seq<char>>)
    requires
        fs.len() >= 1,
        forall|i: int| 0 <= i < fs.len() ==> free_of(#[trigger] fs[i], Cut::Fields),
    ensures
        split(seq!['$'] + join(fs, '$'), Cut::Fields) == seq![Seq::<char>::empty()] + fs,
    decreases fs.len(),
{
    let e = Seq::<char>::empty();
    if fs.len() == 1 {
        assert(seq!['$'] + join(fs, '$') =~= e.push('$') + fs[0]);
        lemma_split_after(e, '$', fs[0], Cut::Fields);
        assert(split(e, Cut::Fields) =~= seq![e]);
        assert(seq![e].push(fs[0]) =~= seq![e] + fs);
    } else {
        let p = fs.drop_last();
        assert forall|i: int| 0 <= i < p.len() implies free_of(#[trigger] p[i], Cut::Fields) by {
            assert(p[i] == fs[i]);
        }
        lemma_fields_of_join(p);
        assert(free_of(fs[fs.len() - 1], Cut::Fields));
        assert(seq!['$'] + join(fs, '$') =~= (seq!['$'] + join(p, '$')).push('$') + fs.last());
        lemma_split_after(seq!['$'] + join(p, '$'), '$', fs.last(), Cut::Fields);
        assert((seq![e] + p).push(fs.last()) =~= seq![e] + fs);
    }
}

proof fn lemma_items_prefix(p: Seq<Seq<char>>, q: Seq<Seq<char>>, m: Shape, k: int)
    requires
        0 <= k <= p.len(),
        k <= q.len(),
        p.subrange(0, k) == q.subrange(0, k),
    ensures
        dec_items(p, m, k) == dec_items(q, m, k),
    decreases k,
{
    if k > 0 {
        assert(p.subrange(0, k - 1) =~= q.subrange(0, k - 1)) by {
            assert(p.subrange(0, k - 1) =~= p.subrange(0, k).subrange(0, k - 1));
            assert(q.subrange(0, k - 1) =~= q.subrange(0, k).subrange(0, k - 1));
        }
        assert(p[k - 1] == p.subrange(0, k)[k - 1]);
        assert(q[k - 1] == q.subrange(0, k)[k - 1]);
        lemma_items_prefix(p, q, m, k - 1);
    }
}

proof fn lemma_pairs_prefix(p: Seq<Seq<char>>, q: Seq<Seq<char>>, m: Shape, k: int)
    requires
        0 <= k,
        2 * k <= p.len(),
        2 * k <= q.len(),
        p.subrange(0, 2 * k) == q.subrange(0, 2 * k),
    ensures
        dec_pairs(p, m, k) == dec_pairs(q, m, k),
    decreases k,
{
    if k > 0 {
        assert(p.subrange(0, 2 * k - 2) =~= q.subrange(0, 2 * k - 2)) by {
            assert(p.subrange(0, 2 * k - 2) =~= p.subrange(0, 2 * k).subrange(0, 2 * k - 2));
            assert(q.subrange(0, 2 * k - 2) =~= q.subrange(0, 2 * k).subrange(0, 2 * k - 2));
        }
        lemma_pairs_prefix(p, q, m, k - 1);
        assert forall|j: int| 0 <= j < 2 * k implies p[j] == q[j] by {
            assert(p[j] == p.subrange(0, 2 * k)[j]);
            assert(q[j] == q.subrange(0, 2 * k)[j]);
        }
    }
}

proof fn lemma_sub_of(fs: Seq<Seq<char>>, pos: int, f: Seq<Seq<char>>, a: int, b: int)
    requires
        0 <= pos,
        pos + f.len() <= fs.len(),
        fs.subrange(pos, pos + f.len()) == f,
        0 <= a <= b <= f.len(),
    ensures
        fs.subrange(pos + a, pos + b) == f.subrange(a, b),
{
    assert forall|j: int| 0 <= j < b - a implies fs.subrange(pos + a, pos + b)[j] == f.subrange(
        a,
        b,
    )[j] by {
        assert(fs.subrange(pos, pos + f.len())[a + j] == fs[pos + a + j]);
    }
    assert(fs.subrange(pos + a, pos + b) =~= f.subrange(a, b));
}

/// A value's fields, found among others at `pos`, decode back to the value
/// and take exactly those fields; none of them holds a `$`.
proof fn lemma_rt(v: Val, shape: Shape, fs: Seq<Seq<char>>, pos: int)
    requires
        textual(shape),
        enc(v, shape) is Some,
        0 <= pos,
        pos + enc(v, shape)->0.len() <= fs.len(),
        fs.subrange(pos, pos + enc(v, shape)->0.len()) == enc(v, shape)->0,
    ensures
        dec(fs, pos, shape) == Ok::<(Val, int), Fault>((v, pos + enc(v, shape)->0.len())),
        forall|i: int|
            0 <= i < enc(v, shape)->0.len() ==> free_of(#[trigger] enc(v, shape)->0[i], Cut::Fields),
    decreases shape, 2int, 0int,
{
    let f = enc(v, shape)->0;
    match shape {
        Shape::Struct(fields) => {
            let vs = v->Record_0;
            lemma_rt_fields(vs, fields@, fields@.len() as int, fs, pos);
            assert(vs.subrange(0, vs.len() as int) =~= vs);
        },
        Shape::Enum(variants) => {
            let name = v->Tagged_0;
            let vs = v->Tagged_1;
            let i = variant_from(variants@, name, 0);
            lemma_variant_from(variants@, name, 0);
            let fields = variants@[i].fields@;
            let g = enc_fields(vs, fields, fields.len() as int)->0;
            assert(f == seq![name] + g);
            lemma_sub_of(fs, pos, f, 0, 1);
            assert(fs[pos] == fs.subrange(pos, pos + 1)[0]);
            lemma_sub_of(fs, pos, f, 1, f.len() as int);
            assert(f.subrange(1, f.len() as int) =~= g);
            assert forall|j: int| 0 <= j < fields.len() implies textual(
                #[trigger] fields[j].shape,
            ) by {
                assert(textual(variants@[i].fields@[j].shape));
            }
            assert(decreases_to!(variants => variants@));
            assert(decreases_to!(variants@ => variants@[i]));
            assert(decreases_to!(variants@[i].fields => variants@[i].fields@));
            lemma_rt_fields(vs, fields, fields.len() as int, fs, pos + 1);
            assert(vs.subrange(0, vs.len() as int) =~= vs);
            lemma_plain_free(name, Cut::Fields);
            assert forall|j: int| 0 <= j < f.len() implies free_of(#[trigger] f[j], Cut::Fields) by {
                if j > 0 {
                    assert(f[j] == g[j - 1]);
                }
            }
        },
        _ => {
            let t = enc_one(v, shape)->0;
            lemma_rt_one(v, shape);
            lemma_sub_of(fs, pos, f, 0, 1);
            assert(fs[pos] == fs.subrange(pos, pos + 1)[0]);
        },
    }
}

/// A field's text decodes back to the value, and holds no `$`.
proof fn lemma_rt_one(v: Val, shape: Shape)
    requires
        textual(shape),
        !(shape is Struct),
        !(shape is Enum),
        enc_one(v, shape) is Some,
    ensures
        dec_one(enc_one(v, shape)->0, shape) == Ok::<Val, Fault>(v),
        free_of(enc_one(v, shape)->0, Cut::Fields),
    decreases shape, 1int, 0int,
{
    let t = enc_one(v, shape)->0;
    match shape {
        Shape::Scalar(k) => {
            lemma_scalar_round_trip(v, k);
            lemma_plain_free(t, Cut::Fields);
        },
        Shape::Optional(inner) => {
            if let Val::Present(x) = v {
                let f = enc(*x, *inner)->0;
                assert(f =~= seq![t]);
                assert(seq![t].subrange(0, 1) =~= seq![t]);
                lemma_rt(*x, *inner, seq![t], 0);
            }
        },
        Shape::Sequence(_) => {
            let vs = v->List_0;
            lemma_items(vs, shape, vs.len() as int);
            assert(vs.subrange(0, vs.len() as int) =~= vs);
        },
        Shape::Mapping(_, _) => {
            let ps = v->Dict_0;
            lemma_pairs(ps, shape, ps.len() as int);
            assert(ps.subrange(0, ps.len() as int) =~= ps);
            assert(pair_count((2 * ps.len()) as nat) == ps.len());
        },
        _ => {},
    }
}

proof fn lemma_rt_fields(vs: Seq<Val>, fields: Seq<Field>, n: int, fs: Seq<Seq<char>>, pos: int)
    requires
        0 <= n <= fields.len(),
        n <= vs.len(),
        forall|i: int| 0 <= i < fields.len() ==> textual(#[trigger] fields[i].shape),
        enc_fields(vs, fields, n) is Some,
        0 <= pos,
        pos + enc_fields(vs, fields, n)->0.len() <= fs.len(),
        fs.subrange(pos, pos + enc_fields(vs, fields, n)->0.len()) == enc_fields(vs, fields, n)->0,
    ensures
        dec_fields(fs, pos, fields, n) == Ok::<(Seq<Val>, int), Fault>(
            (vs.subrange(0, n), pos + enc_fields(vs, fields, n)->0.len()),
        ),
        forall|i: int|
            0 <= i < enc_fields(vs, fields, n)->0.len() ==> free_of(
                #[trigger] enc_fields(vs, fields, n)->0[i],
                Cut::Fields,
            ),
    decreases fields, 0int, n,
{
    let g = enc_fields(vs, fields, n)->0;
    if n == 0 {
        assert(vs.subrange(0, 0) =~= Seq::<Val>::empty());
    } else {
        let gp = enc_fields(vs, fields, n - 1)->0;
        let f = enc(vs[n - 1], fields[n - 1].shape)->0;
        assert(g == gp + f);
        lemma_sub_of(fs, pos, g, 0, gp.len() as int);
        assert(g.subrange(0, gp.len() as int) =~= gp);
        lemma_rt_fields(vs, fields, n - 1, fs, pos);
        lemma_sub_of(fs, pos, g, gp.len() as int, g.len() as int);
        assert(g.subrange(gp.len() as int, g.len() as int) =~= f);
        assert(decreases_to!(fields => fields[n - 1]));
        lemma_rt(vs[n - 1], fields[n - 1].shape, fs, pos + gp.len());
        assert(vs.subrange(0, n - 1).push(vs[n - 1]) =~= vs.subrange(0, n));
        assert forall|j: int| 0 <= j < g.len() implies free_of(#[trigger] g[j], Cut::Fields) by {
            if j < gp.len() {
                assert(g[j] == gp[j]);
            } else {
                assert(g[j] == f[j - gp.len()]);
            }
        }
    }
}

proof fn lemma_items(vs: Seq<Val>, m: Shape, n: int)
    requires
        m is Sequence,
        textual(m),
        1 <= n <= vs.len(),
        enc_items(vs, m, n) is Some,
    ensures
        split(enc_items(vs, m, n)->0, Cut::Items).len() == n,
        dec_items(split(enc_items(vs, m, n)->0, Cut::Items), m, n) == Ok::<Seq<Val>, Fault>(
            vs.subrange(0, n),
        ),
        free_of(enc_items(vs, m, n)->0, Cut::Fields),
    decreases m, 0int, n,
{
    let inner = *m->Sequence_0;
    let t = enc_items(vs, m, n)->0;
    let a = enc_atom(vs[n - 1], inner, Cut::Items)->0;
    let f = enc(vs[n - 1], inner)->0;
    assert(f =~= seq![a]);
    assert(seq![a].subrange(0, 1) =~= seq![a]);
    lemma_rt(vs[n - 1], inner, seq![a], 0);
    assert(free_of(a, Cut::Fields)) by {
        assert(f[0] == a);
    }
    if n == 1 {
        assert(t == a);
        lemma_split_free(a, Cut::Items);
        assert(seq![a][0] == a);
        assert(Seq::<Val>::empty().push(vs[0]) =~= vs.subrange(0, 1));
    } else {
        lemma_items(vs, m, n - 1);
        let prev = enc_items(vs, m, n - 1)->0;
        assert(t == prev.push(',') + a);
        lemma_split_after(prev, ',', a, Cut::Items);
        let p = split(t, Cut::Items);
        assert(p.subrange(0, n - 1) =~= split(prev, Cut::Items).subrange(0, n - 1));
        lemma_items_prefix(p, split(prev, Cut::Items), m, n - 1);
        assert(p[n - 1] == a);
        assert(vs.subrange(0, n - 1).push(vs[n - 1]) =~= vs.subrange(0, n));
        assert forall|j: int| 0 <= j < t.len() implies !cuts(#[trigger] t[j], Cut::Fields) by {
            if j < prev.len() {
                assert(t[j] == prev[j]);
            } else if j > prev.len() {
                assert(t[j] == a[j - prev.len() - 1]);
            }
        }
    }
}

spec fn text_part(r: Option<(Seq<char>, Seq<Seq<char>>)>) -> Seq<char> {
    match r {
        Some((t, _)) => t,
        None => Seq::empty(),
    }
}

spec fn keys_part(r: Option<(Seq<char>, Seq<Seq<char>>)>) -> Seq<Seq<char>> {
    match r {
        Some((_, k)) => k,
        None => Seq::empty(),
    }
}

proof fn lemma_pairs(ps: Seq<(Val, Val)>, m: Shape, n: int)
    requires
        m is Mapping,
        textual(m),
        1 <= n <= ps.len(),
        enc_pairs(ps, m, n) is Some,
    ensures
        split(text_part(enc_pairs(ps, m, n)), Cut::Tokens).len() == 2 * n,
        keys_part(enc_pairs(ps, m, n)).len() == n,
        forall|i: int|
            0 <= i < n ==> #[trigger] split(text_part(enc_pairs(ps, m, n)), Cut::Tokens)[2 * i]
                == keys_part(enc_pairs(ps, m, n))[i],
        forall|i: int, j: int|
            0 <= i < j < n ==> #[trigger] keys_part(enc_pairs(ps, m, n))[i] != #[trigger] keys_part(
                enc_pairs(ps, m, n),
            )[j],
        forall|i: int|
            0 <= i < n ==> enc_atom(#[trigger] ps[i].0, *m->Mapping_0, Cut::Tokens) == Some(
                keys_part(enc_pairs(ps, m, n))[i],
            ),
        dec_pairs(split(text_part(enc_pairs(ps, m, n)), Cut::Tokens), m, n) == Ok::<
            Seq<(Val, Val)>,
            Fault,
        >(ps.subrange(0, n)),
        free_of(text_part(enc_pairs(ps, m, n)), Cut::Fields),
    decreases m, 0int, n,
{
    let ks = *m->Mapping_0;
    let ws = *m->Mapping_1;
    let (t, keys) = enc_pairs(ps, m, n)->0;
    let k = enc_atom(ps[n - 1].0, ks, Cut::Tokens)->0;
    let w = enc_atom(ps[n - 1].1, ws, Cut::Tokens)->0;
    assert(enc(ps[n - 1].0, ks)->0 =~= seq![k]);
    assert(enc(ps[n - 1].1, ws)->0 =~= seq![w]);
    assert(seq![k].subrange(0, 1) =~= seq![k]);
    assert(seq![w].subrange(0, 1) =~= seq![w]);
    lemma_rt(ps[n - 1].0, ks, seq![k], 0);
    lemma_rt(ps[n - 1].1, ws, seq![w], 0);
    assert(free_of(k, Cut::Fields)) by {
        assert(enc(ps[n - 1].0, ks)->0[0] == k);
    }
    assert(free_of(w, Cut::Fields)) by {
        assert(enc(ps[n - 1].1, ws)->0[0] == w);
    }
    let entry = k.push('=') + w;
    lemma_split_after(k, '=', w, Cut::Tokens);
    if n == 1 {
        assert(t == entry);
        lemma_split_free(k, Cut::Tokens);
        let p = split(t, Cut::Tokens);
        assert(p =~= seq![k, w]);
        assert(keys =~= seq![k]);
        assert(keys[0] == k);
        assert(Seq::<(Val, Val)>::empty().push((ps[0].0, ps[0].1)) =~= ps.subrange(0, 1));
        assert(!key_seen(Seq::<(Val, Val)>::empty(), ps[0].0));
        assert(p[0] == k && p[1] == w);
        assert(dec_pairs(p, m, 0) == Ok::<Seq<(Val, Val)>, Fault>(Seq::empty()));
    } else {
        lemma_pairs(ps, m, n - 1);
        let (prev, kp) = enc_pairs(ps, m, n - 1)->0;
        assert(!kp.contains(k));
        assert(keys == kp.push(k));
        assert(t == prev.push(',') + entry);
        let u = prev.push(',') + k;
        assert(t =~= u.push('=') + w);
        lemma_split_after(u, '=', w, Cut::Tokens);
        lemma_split_after(prev, ',', k, Cut::Tokens);
        let q = split(prev, Cut::Tokens);
        let p = split(t, Cut::Tokens);
        assert(p =~= q.push(k).push(w));
        assert(p.subrange(0, 2 * (n - 1)) =~= q.subrange(0, 2 * (n - 1)));
        lemma_pairs_prefix(p, q, m, n - 1);
        assert(dec_pairs(p, m, n - 1) == Ok::<Seq<(Val, Val)>, Fault>(ps.subrange(0, n - 1)));
        assert(p[2 * (n - 1)] == k);
        assert(p[2 * (n - 1) + 1] == w);
        assert(!key_seen(ps.subrange(0, n - 1), ps[n - 1].0)) by {
            if key_seen(ps.subrange(0, n - 1), ps[n - 1].0) {
                let j = choose|j: int|
                    0 <= j < n - 1 && #[trigger] ps.subrange(0, n - 1)[j].0 == ps[n - 1].0;
                assert(ps.subrange(0, n - 1)[j] == ps[j]);
                assert(enc_atom(ps[j].0, ks, Cut::Tokens) == Some(kp[j]));
                assert(kp[j] == k);
                assert(kp.contains(k));
            }
        }
        assert(ps.subrange(0, n - 1).push((ps[n - 1].0, ps[n - 1].1)) =~= ps.subrange(0, n));
        assert forall|i: int| 0 <= i < n implies enc_atom(
            #[trigger] ps[i].0,
            ks,
            Cut::Tokens,
        ) == Some(keys[i]) by {
            if i < n - 1 {
                assert(keys[i] == kp[i]);
            }
        }
        assert forall|i: int| 0 <= i < n implies #[trigger] p[2 * i] == keys[i] by {
            if i < n - 1 {
                assert(p[2 * i] == q[2 * i]);
            }
        }
        assert forall|i: int, j: int| 0 <= i < j < n implies #[trigger] keys[i] != #[trigger] keys[j] by {
            if j == n - 1 {
                if keys[i] == keys[j] {
                    assert(kp[i] == k);
                    assert(kp.contains(k));
                }
            }
        }
        assert forall|j: int| 0 <= j < t.len() implies !cuts(#[trigger] t[j], Cut::Fields) by {
            if j < prev.len() {
                assert(t[j] == prev[j]);
            } else if j > prev.len() && j <= prev.len() + k.len() {
                assert(t[j] == k[j - prev.len() - 1]);
            } else if j > prev.len() + k.len() + 1 {
                assert(t[j] == w[j - prev.len() - k.len() - 2]);
            }
        }
    }
    if n == 1 {
        assert forall|j: int| 0 <= j < t.len() implies !cuts(#[trigger] t[j], Cut::Fields) by {
            if j < k.len() {
                assert(t[j] == k[j]);
            } else if j > k.len() {
                assert(t[j] == w[j - k.len() - 1]);
            }
        }
    }
}

/// Decoding undoes encoding: for a shape made of text fields (no byte
/// field), every value the encoder accepts decodes from its MCF text back to
/// itself.
pub proof fn round_trip(v: Val, shape: Shape)
    requires
        textual(shape),
        encode_text(v, shape) is Some,
    ensures
        decode_text(encode_text(v, shape)->0, shape) == Ok::<Val, Fault>(v),
{
    let f = enc(v, shape)->0;
    let t = seq!['$'] + join(f, '$');
    assert(f.subrange(0, f.len() as int) =~= f);
    lemma_rt(v, shape, f, 0);
    if f.len() == 0 {
        let e = Seq::<char>::empty();
        assert(t =~= e.push('$') + e);
        lemma_split_after(e, '$', e, Cut::Fields);
        assert(split(e, Cut::Fields) =~= seq![e]);
        let fs = fields_of(t);
        assert(fs =~= seq![e]);
        assert(fs.subrange(0, 0) =~= f);
        lemma_rt(v, shape, fs, 0);
    } else {
        lemma_fields_of_join(f);
        assert(fields_of(t) =~= f);
    }
}

/// Decoding is a function of the text and the shape: decoding one input
/// twice gives equal results.
pub proof fn decode_is_deterministic(
    s: Seq<char>,
    shape: Shape,
    first: Result<Val, Fault>,
    second: Result<Val, Fault>,
)
    requires
        first == decode_text(s, shape),
        second == decode_text(s, shape),
    ensures
        first == second,
{
}

/// The empty field reads as absent under an optional shape, and absence is
/// written back as the empty field.
pub proof fn absence_round_trip(inner: Shape)
    ensures
        dec_one(Seq::empty(), Shape::Optional(Box::new(inner))) == Ok::<Val, Fault>(Val::Absent),
        enc(Val::Absent, Shape::Optional(Box::new(inner))) == Some(seq![Seq::<char>::empty()]),
{
}

/// Between two fields, the empty field reads as absent and is written back
/// as the empty field: `$..$$..` keeps its empty field.
pub proof fn absence_in_place(fs: Seq<Seq<char>>, pos: int, inner: Shape)
    requires
        0 <= pos < fs.len(),
        fs[pos].len() == 0,
    ensures
        dec(fs, pos, Shape::Optional(Box::new(inner))) == Ok::<(Val, int), Fault>(
            (Val::Absent, pos + 1),
        ),
        enc(Val::Absent, Shape::Optional(Box::new(inner))) == Some(seq![fs[pos]]),
{
    assert(fs[pos] =~= Seq::<char>::empty());
}

} // verus!
