//! Scalars in their textual form: reading a field as a number, a boolean, a
//! character or a string, and writing one back.
use vstd::prelude::*;
use crate::shape::{lemma_char_view, Kind, Val, Value};
use crate::text::{plain, string_of, chars_of};

verus! {

pub open spec fn is_digit(c: char) -> bool {
    48 <= (c as u32) <= 57
}

pub open spec fn digit_value(c: char) -> nat {
    ((c as u32) - 48) as nat
}

pub open spec fn digit_char(d: nat) -> char {
    seq!['0', '1', '2', '3', '4', '5', '6', '7', '8', '9'][d as int]
}

/// One or more decimal digits.
pub open spec fn all_digits(s: Seq<char>) -> bool {
    s.len() > 0 && forall|i: int| 0 <= i < s.len() ==> is_digit(#[trigger] s[i])
}

pub open spec fn digits_value(s: Seq<char>) -> nat
    decreases s.len(),
{
    if s.len() == 0 {
        0
    } else {
        digits_value(s.drop_last()) * 10 + digit_value(s.last())
    }
}

/// The decimal digits of `n`, without leading zeros.
pub open spec fn decimal(n: nat) -> Seq<char>
    decreases n,
{
    if n < 10 {
        seq![digit_char(n)]
    } else {
        decimal(n / 10).push(digit_char(n % 10))
    }
}

pub open spec fn true_text() -> Seq<char> {
    seq!['t', 'r', 'u', 'e']
}

pub open spec fn false_text() -> Seq<char> {
    seq!['f', 'a', 'l', 's', 'e']
}

pub open spec fn is_unsigned(k: Kind) -> bool {
    k is U8 || k is U16 || k is U32 || k is U64
}

pub open spec fn is_signed(k: Kind) -> bool {
    k is I8 || k is I16 || k is I32 || k is I64
}

/// The largest value of an integer kind.
pub open spec fn max_of(k: Kind) -> nat {
    match k {
        Kind::U8 => 0xff,
        Kind::U16 => 0xffff,
        Kind::U32 => 0xffff_ffff,
        Kind::U64 => 0xffff_ffff_ffff_ffff,
        Kind::I8 => 0x7f,
        Kind::I16 => 0x7fff,
        Kind::I32 => 0x7fff_ffff,
        _ => 0x7fff_ffff_ffff_ffff,
    }
}

/// The digits after an optional sign (`+` always, `-` for a signed kind).
pub open spec fn unsigned_body(t: Seq<char>, signed: bool) -> Seq<char> {
    if t.len() > 0 && (t[0] == '+' || (signed && t[0] == '-')) {
        t.drop_first()
    } else {
        t
    }
}

/// What a field's text reads as under a scalar kind, as std's `FromStr` reads
/// it; `None` where it is no value of that kind.
pub open spec fn parse_scalar(t: Seq<char>, k: Kind) -> Option<Val> {
    match k {
        Kind::Bool => if t == true_text() {
            Some(Val::Bool(true))
        } else if t == false_text() {
            Some(Val::Bool(false))
        } else {
            None
        },
        Kind::Char => if t.len() == 1 {
            Some(Val::Char(t[0]))
        } else {
            None
        },
        Kind::Str => Some(Val::Str(t)),
        _ => {
            let signed = is_signed(k);
            let body = unsigned_body(t, signed);
            let neg = signed && t.len() > 0 && t[0] == '-';
            let v = digits_value(body);
            if !all_digits(body) {
                None
            } else if !signed {
                if v <= max_of(k) {
                    Some(Val::UInt(v as u64))
                } else {
                    None
                }
            } else if neg {
                if v <= max_of(k) + 1 {
                    Some(Val::Int((-v) as i64))
                } else {
                    None
                }
            } else if v <= max_of(k) {
                Some(Val::Int(v as i64))
            } else {
                None
            }
        },
    }
}

/// The canonical text of a scalar of kind `k`; `None` where the value is not
/// of that kind, is out of its range, or holds a delimiter of the format.
pub open spec fn scalar_text(v: Val, k: Kind) -> Option<Seq<char>> {
    let t = match (k, v) {
        (Kind::Bool, Val::Bool(b)) => Some(if b { true_text() } else { false_text() }),
        (Kind::Char, Val::Char(c)) => Some(seq![c]),
        (Kind::Str, Val::Str(s)) => Some(s),
        (_, Val::UInt(n)) => if is_unsigned(k) && n <= max_of(k) {
            Some(decimal(n as nat))
        } else {
            None
        },
        (_, Val::Int(n)) => if is_signed(k) && -max_of(k) - 1 <= n <= max_of(k) {
            Some(
                if n < 0 {
                    seq!['-'] + decimal((-n) as nat)
                } else {
                    decimal(n as nat)
                },
            )
        } else {
            None
        },
        _ => None,
    };
    match t {
        Some(s) => if plain(s) {
            Some(s)
        } else {
            None
        },
        None => None,
    }
}

fn max_value(k: Kind) -> (r: u64)
    requires
        is_unsigned(k) || is_signed(k),
    ensures
        r == max_of(k),
{
    match k {
        Kind::U8 => 0xff,
        Kind::U16 => 0xffff,
        Kind::U32 => 0xffff_ffff,
        Kind::U64 => 0xffff_ffff_ffff_ffff,
        Kind::I8 => 0x7f,
        Kind::I16 => 0x7fff,
        Kind::I32 => 0x7fff_ffff,
        _ => 0x7fff_ffff_ffff_ffff,
    }
}

proof fn lemma_digits_grow(s: Seq<char>, i: int)
    requires
        0 <= i <= s.len(),
    ensures
        digits_value(s.subrange(0, i)) <= digits_value(s),
    decreases s.len() - i,
{
    if i < s.len() {
        lemma_digits_grow(s, i + 1);
        assert(s.subrange(0, i + 1).drop_last() =~= s.subrange(0, i));
    } else {
        assert(s.subrange(0, i) =~= s);
    }
}

/// Reads all-digit text, giving up once the value passes `bound`.
fn read_digits(t: &Vec<char>, start: usize, bound: u64) -> (r: Option<u64>)
    requires
        start <= t@.len(),
    ensures
        r == (if all_digits(t@.subrange(start as int, t@.len() as int)) && digits_value(
            t@.subrange(start as int, t@.len() as int),
        ) <= bound {
            Some(digits_value(t@.subrange(start as int, t@.len() as int)) as u64)
        } else {
            None
        }),
{
    let ghost body = t@.subrange(start as int, t@.len() as int);
    if start == t.len() {
        return None;
    }
    let mut acc: u128 = 0;
    let mut i: usize = start;
    while i < t.len()
        invariant
            start <= i <= t@.len(),
            body == t@.subrange(start as int, t@.len() as int),
            acc == digits_value(body.subrange(0, i - start)),
            acc <= bound,
            forall|j: int| 0 <= j < i - start ==> is_digit(#[trigger] body[j]),
        decreases t.len() - i,
    {
        let c = t[i];
        let code = c as u32;
        proof {
            assert(body.subrange(0, i - start + 1).drop_last() =~= body.subrange(0, i - start));
            assert(body[i - start] == c);
        }
        if code < 48 || code > 57 {
            return None;
        }
        acc = acc * 10 + (code - 48) as u128;
        if acc > bound as u128 {
            proof {
                lemma_digits_grow(body, i - start + 1);
            }
            return None;
        }
        i += 1;
    }
    proof {
        assert(body.subrange(0, i - start) =~= body);
    }
    Some(acc as u64)
}

/// Reads a field as a scalar of kind `k`.
pub fn parse_field(t: &Vec<char>, k: Kind) -> (r: Option<Value>)
    ensures
        match r {
            Some(v) => parse_scalar(t@, k) == Some(v.view()),
            None => parse_scalar(t@, k) is None,
        },
{
    proof {
        reveal_strlit("true");
        reveal_strlit("false");
    }
    match k {
        Kind::Bool => {
            let s = chars_of("true");
            let f = chars_of("false");
            proof {
                assert(s@ =~= true_text());
                assert(f@ =~= false_text());
            }
            if crate::text::same_text(t, &s) {
                Some(Value::Bool(true))
            } else if crate::text::same_text(t, &f) {
                Some(Value::Bool(false))
            } else {
                None
            }
        },
        Kind::Char => {
            if t.len() == 1 {
                let c = t[0];
                proof {
                    lemma_char_view(c);
                }
                Some(Value::Char(c))
            } else {
                None
            }
        },
        Kind::Str => Some(Value::Str(string_of(t))),
        _ => {
            let signed = k == Kind::I8 || k == Kind::I16 || k == Kind::I32 || k == Kind::I64;
            let neg = signed && t.len() > 0 && t[0] == '-';
            let start: usize = if t.len() > 0 && (t[0] == '+' || neg) {
                1
            } else {
                0
            };
            proof {
                let body = unsigned_body(t@, signed);
                assert(body =~= t@.subrange(start as int, t@.len() as int));
            }
            let max = max_value(k);
            let bound = if neg {
                max + 1
            } else {
                max
            };
            match read_digits(t, start, bound) {
                None => None,
                Some(v) => {
                    if !signed {
                        Some(Value::UInt(v))
                    } else if neg {
                        Some(Value::Int((0 - v as i128) as i64))
                    } else {
                        Some(Value::Int(v as i64))
                    }
                },
            }
        },
    }
}

fn digit_of(d: u64) -> (c: char)
    requires
        d < 10,
    ensures
        c == digit_char(d as nat),
{
    match d {
        0 => '0',
        1 => '1',
        2 => '2',
        3 => '3',
        4 => '4',
        5 => '5',
        6 => '6',
        7 => '7',
        8 => '8',
        _ => '9',
    }
}

/// Appends the decimal digits of `n`.
pub(crate) fn push_decimal(out: &mut Vec<char>, n: u64)
    ensures
        final(out)@ == old(out)@ + decimal(n as nat),
    decreases n,
{
    if n >= 10 {
        push_decimal(out, n / 10);
    }
    out.push(digit_of(n % 10));
    assert(out@ =~= old(out)@ + decimal(n as nat));
}

/// Appends the characters of `s`.
fn push_str(out: &mut Vec<char>, s: &str)
    ensures
        final(out)@ == old(out)@ + s@,
{
    let cs = chars_of(s);
    let mut i: usize = 0;
    while i < cs.len()
        invariant
            cs@ == s@,
            i <= cs@.len(),
            out@ == old(out)@ + cs@.subrange(0, i as int),
        decreases cs.len() - i,
    {
        out.push(cs[i]);
        proof {
            assert(cs@.subrange(0, i + 1) =~= cs@.subrange(0, i as int).push(cs@[i as int]));
        }
        i += 1;
    }
    proof {
        assert(cs@.subrange(0, cs@.len() as int) =~= cs@);
    }
}

/// The canonical text of `v` as a scalar of kind `k`.
pub fn scalar_field(v: &Value, k: Kind) -> (r: Option<Vec<char>>)
    ensures
        match r {
            Some(t) => scalar_text(v.view(), k) == Some(t@),
            None => scalar_text(v.view(), k) is None,
        },
{
    let mut out: Vec<char> = Vec::new();
    match (k, v) {
        (Kind::Bool, Value::Bool(b)) => {
            proof {
                reveal_strlit("true");
                reveal_strlit("false");
            }
            if *b {
                push_str(&mut out, "true");
                assert(out@ =~= true_text());
            } else {
                push_str(&mut out, "false");
                assert(out@ =~= false_text());
            }
        },
        (Kind::Char, Value::Char(c)) => {
            out.push(*c);
            proof {
                lemma_char_view(*c);
                assert(out@ =~= seq![*c]);
            }
        },
        (Kind::Str, Value::Str(s)) => {
            out = chars_of(s.as_str());
        },
        (_, Value::UInt(n)) => {
            if !(k == Kind::U8 || k == Kind::U16 || k == Kind::U32 || k == Kind::U64) {
                return None;
            }
            if *n > max_value(k) {
                return None;
            }
            push_decimal(&mut out, *n);
            assert(out@ =~= decimal(*n as nat));
        },
        (_, Value::Int(n)) => {
            if !(k == Kind::I8 || k == Kind::I16 || k == Kind::I32 || k == Kind::I64) {
                return None;
            }
            let max = max_value(k) as i128;
            let m = *n as i128;
            if m > max || m < -max - 1 {
                return None;
            }
            if m < 0 {
                out.push('-');
                push_decimal(&mut out, (0 - m) as u64);
                assert(out@ =~= seq!['-'] + decimal((-m) as nat));
            } else {
                push_decimal(&mut out, m as u64);
                assert(out@ =~= decimal(m as nat));
            }
        },
        _ => {
            return None;
        },
    }
    if crate::text::is_plain(&out) {
        Some(out)
    } else {
        None
    }
}

} // verus!
