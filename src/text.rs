//! Splitting a field on its delimiters, joining fields back, and moving text
//! between `String` and `Vec<char>`.
use vstd::prelude::*;

verus! {

/// Which delimiters cut a text into pieces.
#[derive(Debug, Clone, Copy, PartialEq, Eq, Structural)]
pub enum Cut {
    /// `$`, between the fields of a hash.
    Fields,
    /// `,`, between the elements of a sequence.
    Items,
    /// `=` and `,`, between the keys and values of a map.
    Tokens,
}

pub open spec fn cuts(c: char, by: Cut) -> bool {
    match by {
        Cut::Fields => c == '$',
        Cut::Items => c == ',',
        Cut::Tokens => c == '=' || c == ',',
    }
}

/// True when no character of `s` is one of the format's delimiters.
pub open spec fn plain(s: Seq<char>) -> bool {
    forall|i: int| 0 <= i < s.len() ==> !(#[trigger] s[i] == '$' || s[i] == ',' || s[i] == '=')
}

/// The pieces between the delimiters of `s`, in order; the empty text has one
/// empty piece.
pub open spec fn split(s: Seq<char>, by: Cut) -> Seq<Seq<char>>
    decreases s.len(),
{
    if s.len() == 0 {
        seq![Seq::<char>::empty()]
    } else {
        let prev = split(s.drop_last(), by);
        if cuts(s.last(), by) {
            prev.push(Seq::<char>::empty())
        } else {
            prev.update(prev.len() - 1, prev.last().push(s.last()))
        }
    }
}

/// The pieces written in order with `d` between two neighbours.
pub open spec fn join(fs: Seq<Seq<char>>, d: char) -> Seq<char>
    decreases fs.len(),
{
    if fs.len() == 0 {
        Seq::empty()
    } else if fs.len() == 1 {
        fs[0]
    } else {
        join(fs.drop_last(), d).push(d) + fs.last()
    }
}

/// The texts held by a vector of character vectors.
pub open spec fn texts(fs: Seq<Vec<char>>) -> Seq<Seq<char>> {
    fs.map_values(|f: Vec<char>| f@)
}

pub proof fn lemma_split_nonempty(s: Seq<char>, by: Cut)
    ensures
        split(s, by).len() >= 1,
    decreases s.len(),
{
    if s.len() > 0 {
        lemma_split_nonempty(s.drop_last(), by);
    }
}

pub fn is_cut(c: char, by: Cut) -> (r: bool)
    ensures
        r == cuts(c, by),
{
    match by {
        Cut::Fields => c == '$',
        Cut::Items => c == ',',
        Cut::Tokens => c == '=' || c == ',',
    }
}

/// Whether `s` holds none of the format's delimiters.
pub fn is_plain(s: &Vec<char>) -> (r: bool)
    ensures
        r == plain(s@),
{
    let mut i: usize = 0;
    while i < s.len()
        invariant
            i <= s@.len(),
            forall|j: int| 0 <= j < i ==> !(#[trigger] s@[j] == '$' || s@[j] == ',' || s@[j] == '='),
        decreases s.len() - i,
    {
        let c = s[i];
        if c == '$' || c == ',' || c == '=' {
            return false;
        }
        i += 1;
    }
    true
}

/// Cuts `s` at each delimiter of `by`.
pub fn split_text(s: &Vec<char>, by: Cut) -> (r: Vec<Vec<char>>)
    ensures
        texts(r@) == split(s@, by),
{
    let mut done: Vec<Vec<char>> = Vec::new();
    let mut cur: Vec<char> = Vec::new();
    let mut i: usize = 0;
    proof {
        assert(s@.subrange(0, 0) =~= Seq::<char>::empty());
        assert(texts(done@).push(cur@) =~= seq![Seq::<char>::empty()]);
    }
    while i < s.len()
        invariant
            i <= s@.len(),
            split(s@.subrange(0, i as int), by) == texts(done@).push(cur@),
        decreases s.len() - i,
    {
        let c = s[i];
        proof {
            assert(s@.subrange(0, i + 1).drop_last() =~= s@.subrange(0, i as int));
            assert(s@.subrange(0, i + 1).last() == c);
        }
        if is_cut(c, by) {
            let ghost old_done = done@;
            let ghost old_cur = cur@;
            done.push(cur);
            cur = Vec::new();
            proof {
                assert(texts(done@) =~= texts(old_done).push(old_cur));
                assert(texts(done@).push(cur@) =~= texts(old_done).push(old_cur).push(
                    Seq::<char>::empty(),
                ));
            }
        } else {
            let ghost old_cur = cur@;
            cur.push(c);
            proof {
                let prev = texts(done@).push(old_cur);
                assert(prev.update(prev.len() - 1, prev.last().push(c)) =~= texts(done@).push(
                    cur@,
                ));
            }
        }
        i += 1;
    }
    proof {
        assert(s@.subrange(0, s@.len() as int) =~= s@);
    }
    let ghost old_done = done@;
    done.push(cur);
    proof {
        assert(texts(done@) =~= texts(old_done).push(cur@));
    }
    done
}

/// Writes the pieces with `d` between neighbours.
pub fn join_text(fs: &Vec<Vec<char>>, d: char) -> (r: Vec<char>)
    ensures
        r@ == join(texts(fs@), d),
{
    let mut out: Vec<char> = Vec::new();
    let mut i: usize = 0;
    while i < fs.len()
        invariant
            i <= fs@.len(),
            out@ == join(texts(fs@).subrange(0, i as int), d),
        decreases fs.len() - i,
    {
        let ghost before = out@;
        if i > 0 {
            out.push(d);
        }
        let mut j: usize = 0;
        let ghost mid = out@;
        while j < fs[i].len()
            invariant
                i < fs@.len(),
                j <= fs@[i as int]@.len(),
                out@ == mid + fs@[i as int]@.subrange(0, j as int),
            decreases fs@[i as int]@.len() - j,
        {
            out.push(fs[i][j]);
            proof {
                assert(fs@[i as int]@.subrange(0, j + 1) =~= fs@[i as int]@.subrange(
                    0,
                    j as int,
                ).push(fs@[i as int]@[j as int]));
            }
            j += 1;
        }
        proof {
            let t = texts(fs@);
            assert(fs@[i as int]@.subrange(0, j as int) =~= fs@[i as int]@);
            assert(t.subrange(0, i + 1).drop_last() =~= t.subrange(0, i as int));
            assert(t[i as int] == fs@[i as int]@);
            if i == 0 {
                assert(out@ =~= t.subrange(0, 1)[0]);
            } else {
                assert(out@ =~= before.push(d) + t[i as int]);
            }
        }
        i += 1;
    }
    proof {
        assert(texts(fs@).subrange(0, fs@.len() as int) =~= texts(fs@));
    }
    out
}

/// The characters of `s`.
pub fn chars_of(s: &str) -> (r: Vec<char>)
    ensures
        r@ == s@,
{
    let n = s.unicode_len();
    let mut out: Vec<char> = Vec::new();
    let mut i: usize = 0;
    while i < n
        invariant
            n == s@.len(),
            i <= n,
            out@ == s@.subrange(0, i as int),
        decreases n - i,
    {
        out.push(s.get_char(i));
        proof {
            assert(s@.subrange(0, i + 1) =~= s@.subrange(0, i as int).push(s@[i as int]));
        }
        i += 1;
    }
    proof {
        assert(s@.subrange(0, n as int) =~= s@);
    }
    out
}

/// A copy of the characters in `s`.
pub fn copy_chars(s: &Vec<char>) -> (r: Vec<char>)
    ensures
        r@ == s@,
{
    let mut out: Vec<char> = Vec::new();
    let mut i: usize = 0;
    while i < s.len()
        invariant
            i <= s@.len(),
            out@ == s@.subrange(0, i as int),
        decreases s.len() - i,
    {
        out.push(s[i]);
        proof {
            assert(s@.subrange(0, i + 1) =~= s@.subrange(0, i as int).push(s@[i as int]));
        }
        i += 1;
    }
    proof {
        assert(s@.subrange(0, s@.len() as int) =~= s@);
    }
    out
}

/// Whether two texts are equal.
pub fn same_text(a: &Vec<char>, b: &Vec<char>) -> (r: bool)
    ensures
        r == (a@ == b@),
{
    if a.len() != b.len() {
        return false;
    }
    let mut i: usize = 0;
    while i < a.len()
        invariant
            a@.len() == b@.len(),
            i <= a@.len(),
            forall|j: int| 0 <= j < i ==> a@[j] == b@[j],
        decreases a.len() - i,
    {
        if a[i] != b[i] {
            return false;
        }
        i += 1;
    }
    proof {
        assert(a@ =~= b@);
    }
    true
}

/// The characters of `s` from `from` up to `to`.
pub fn slice_chars(s: &Vec<char>, from: usize, to: usize) -> (r: Vec<char>)
    requires
        from <= to <= s@.len(),
    ensures
        r@ == s@.subrange(from as int, to as int),
{
    let mut out: Vec<char> = Vec::new();
    let mut i: usize = from;
    while i < to
        invariant
            from <= i <= to <= s@.len(),
            out@ == s@.subrange(from as int, i as int),
        decreases to - i,
    {
        out.push(s[i]);
        proof {
            assert(s@.subrange(from as int, i + 1) =~= s@.subrange(from as int, i as int).push(
                s@[i as int],
            ));
        }
        i += 1;
    }
    out
}

/// Relies on std's `FromIterator<&char>` for `String`: the string holds the
/// characters in order.
#[verifier::external_body]
pub(crate) fn string_of(chars: &Vec<char>) -> (r: String)
    ensures
        r@ == chars@,
{
    chars.iter().collect()
}

} // verus!
