//! Byte-string utilities for the assembler: source text is handled as byte
//! sequences, split into lines on line feeds and into tokens on single
//! spaces, exactly as the source grammar prescribes.
use vstd::prelude::*;

verus! {

/// The sequence of views of a list of byte vectors.
pub open spec fn views(v: Seq<Vec<u8>>) -> Seq<Seq<u8>> {
    Seq::new(v.len(), |i: int| v[i]@)
}

/// Index of the first occurrence of `sep` in `s`, if any.
pub open spec fn find_byte(s: Seq<u8>, sep: u8) -> Option<int>
    decreases s.len(),
{
    if s.len() == 0 {
        None
    } else if s[0] == sep {
        Some(0)
    } else {
        match find_byte(s.skip(1), sep) {
            Some(i) => Some(i + 1),
            None => None,
        }
    }
}

/// `find_byte` returns the first occurrence: the found position holds `sep`
/// and nothing before it does; `None` means `sep` does not occur at all.
pub proof fn lemma_find_byte_spec(s: Seq<u8>, sep: u8)
    ensures
        match find_byte(s, sep) {
            Some(i) => 0 <= i < s.len() && s[i] == sep && forall|j: int|
                0 <= j < i ==> s[j] != sep,
            None => forall|j: int| 0 <= j < s.len() ==> s[j] != sep,
        },
    decreases s.len(),
{
    if s.len() > 0 && s[0] != sep {
        lemma_find_byte_spec(s.skip(1), sep);
        match find_byte(s.skip(1), sep) {
            Some(i) => {
                assert(s[i + 1] == s.skip(1)[i]);
                assert forall|j: int| 0 <= j < i + 1 implies s[j] != sep by {
                    if j >= 1 {
                        assert(s[j] == s.skip(1)[j - 1]);
                    }
                }
            },
            None => {
                assert forall|j: int| 0 <= j < s.len() implies s[j] != sep by {
                    if j >= 1 {
                        assert(s[j] == s.skip(1)[j - 1]);
                    }
                }
            },
        }
    }
}

/// Conversely, a position holding `sep` with none before it is what
/// `find_byte` returns.
pub proof fn lemma_find_byte_at(s: Seq<u8>, sep: u8, i: int)
    requires
        0 <= i < s.len(),
        s[i] == sep,
        forall|j: int| 0 <= j < i ==> s[j] != sep,
    ensures
        find_byte(s, sep) == Some(i),
    decreases s.len(),
{
    if i > 0 {
        assert(forall|j: int| 0 <= j < i - 1 ==> s.skip(1)[j] == s[j + 1]);
        lemma_find_byte_at(s.skip(1), sep, i - 1);
    }
}

/// Finds the first occurrence of `sep` in `v`.
pub fn find_byte_in(v: &Vec<u8>, sep: u8) -> (r: Option<usize>)
    ensures
        match r {
            Some(i) => find_byte(v@, sep) == Some(i as int),
            None => find_byte(v@, sep) is None,
        },
{
    proof {
        lemma_find_byte_spec(v@, sep);
    }
    let mut i: usize = 0;
    while i < v.len()
        invariant
            0 <= i <= v@.len(),
            forall|j: int| 0 <= j < i ==> v@[j] != sep,
        decreases v@.len() - i,
    {
        if v[i] == sep {
            proof {
                lemma_find_byte_at(v@, sep, i as int);
            }
            return Some(i);
        }
        i = i + 1;
    }
    None
}

/// A copy of `v[from..to]`.
pub fn subvec(v: &Vec<u8>, from: usize, to: usize) -> (r: Vec<u8>)
    requires
        from <= to <= v@.len(),
    ensures
        r@ == v@.subrange(from as int, to as int),
{
    let mut r: Vec<u8> = Vec::new();
    let mut i: usize = from;
    while i < to
        invariant
            from <= i <= to,
            r@ == v@.subrange(from as int, i as int),
        decreases to - i,
    {
        r.push(v[i]);
        proof {
            assert(r@ =~= v@.subrange(from as int, i + 1));
        }
        i = i + 1;
    }
    r
}

/// A copy of the whole of `v`.
pub fn copy_bytes(v: &Vec<u8>) -> (r: Vec<u8>)
    ensures
        r@ == v@,
{
    let r = subvec(v, 0, v.len());
    proof {
        assert(v@.subrange(0, v@.len() as int) =~= v@);
    }
    r
}

/// The fields of `s` between occurrences of `sep`. Empty fields are kept:
/// two adjacent separators enclose an empty field, and splitting the empty
/// sequence yields one empty field.
pub open spec fn split_by(s: Seq<u8>, sep: u8) -> Seq<Seq<u8>>
    decreases s.len(),
    via split_by_dec
{
    match find_byte(s, sep) {
        None => seq![s],
        Some(i) => seq![s.take(i)] + split_by(s.skip(i + 1), sep),
    }
}

#[via_fn]
proof fn split_by_dec(s: Seq<u8>, sep: u8) {
    lemma_find_byte_spec(s, sep);
}

pub proof fn lemma_split_by_len(s: Seq<u8>, sep: u8)
    ensures
        split_by(s, sep).len() >= 1,
    decreases s.len(),
{
    lemma_find_byte_spec(s, sep);
    match find_byte(s, sep) {
        None => {},
        Some(i) => {
            lemma_split_by_len(s.skip(i + 1), sep);
        },
    }
}

/// Splits `v` on `sep`, keeping empty fields.
pub fn split_bytes_by(v: &Vec<u8>, sep: u8) -> (r: Vec<Vec<u8>>)
    ensures
        views(r@) == split_by(v@, sep),
    decreases v@.len(),
{
    proof {
        lemma_find_byte_spec(v@, sep);
    }
    match find_byte_in(v, sep) {
        None => {
            let mut r: Vec<Vec<u8>> = Vec::new();
            r.push(copy_bytes(v));
            proof {
                assert(views(r@) =~= split_by(v@, sep));
            }
            r
        },
        Some(i) => {
            let n = v.len();
            proof {
                lemma_find_byte_spec(v@, sep);
                assert(0 <= i < v@.len());
            }
            let first = subvec(v, 0, i);
            let rest = subvec(v, i + 1, n);
            proof {
                assert(rest@ =~= v@.skip(i + 1));
                assert(first@ =~= v@.take(i as int));
            }
            let mut r = split_bytes_by(&rest, sep);
            r.insert(0, first);
            proof {
                assert(views(r@) =~= split_by(v@, sep));
            }
            r
        },
    }
}

/// Joins fields with a single `sep` between adjacent ones; the inverse of
/// `split_by`.
pub open spec fn join_by(ts: Seq<Seq<u8>>, sep: u8) -> Seq<u8>
    decreases ts.len(),
{
    if ts.len() == 0 {
        Seq::empty()
    } else if ts.len() == 1 {
        ts[0]
    } else {
        join_by(ts.drop_last(), sep) + seq![sep] + ts.last()
    }
}

/// A joined sequence starts with its first field, and where a second field
/// follows, the separator stands right after the first.
pub proof fn lemma_join_prefix(ts: Seq<Seq<u8>>, sep: u8)
    requires
        ts.len() >= 1,
    ensures
        join_by(ts, sep).len() >= ts[0].len(),
        forall|k: int| 0 <= k < ts[0].len() ==> join_by(ts, sep)[k] == ts[0][k],
        ts.len() >= 2 ==> join_by(ts, sep).len() >= ts[0].len() + 1 && join_by(ts, sep)[ts[0].len() as int]
            == sep,
    decreases ts.len(),
{
    if ts.len() >= 2 {
        lemma_join_prefix(ts.drop_last(), sep);
        assert(ts.drop_last()[0] == ts[0]);
        let pre = join_by(ts.drop_last(), sep);
        let whole = join_by(ts, sep);
        assert(whole == pre + seq![sep] + ts.last());
        assert(forall|k: int| 0 <= k < pre.len() ==> whole[k] == pre[k]);
        assert(whole[pre.len() as int] == sep);
        if ts.len() == 2 {
            assert(pre == ts[0]);
        }
    }
}

/// Splitting yields one more field than there are separators: never more
/// than the length of the input plus one.
pub proof fn lemma_split_by_count(s: Seq<u8>, sep: u8)
    ensures
        split_by(s, sep).len() <= s.len() + 1,
    decreases s.len(),
{
    lemma_find_byte_spec(s, sep);
    match find_byte(s, sep) {
        None => {},
        Some(i) => {
            lemma_split_by_count(s.skip(i + 1), sep);
        },
    }
}

/// Joins byte vectors with a single `sep` between adjacent ones.
pub fn join_bytes_by(ts: &Vec<Vec<u8>>, sep: u8) -> (r: Vec<u8>)
    ensures
        r@ == join_by(views(ts@), sep),
{
    let mut r: Vec<u8> = Vec::new();
    let mut i: usize = 0;
    while i < ts.len()
        invariant
            0 <= i <= ts@.len(),
            r@ == join_by(views(ts@).take(i as int), sep),
        decreases ts@.len() - i,
    {
        if i > 0 {
            r.push(sep);
        }
        let mut j: usize = 0;
        let t = &ts[i];
        while j < t.len()
            invariant
                0 <= j <= t@.len(),
                i < ts@.len(),
                t == &ts[i as int],
                r@ == if i == 0 {
                    t@.take(j as int)
                } else {
                    join_by(views(ts@).take(i as int), sep) + seq![sep] + t@.take(j as int)
                },
            decreases t@.len() - j,
        {
            r.push(t[j]);
            proof {
                assert(t@.take(j + 1) =~= t@.take(j as int).push(t@[j as int]));
            }
            j = j + 1;
        }
        proof {
            let vts = views(ts@);
            assert(t@.take(t@.len() as int) =~= t@);
            assert(vts.take(i + 1).drop_last() =~= vts.take(i as int));
            assert(vts.take(i + 1).last() == t@);
            if i == 0 {
                assert(join_by(vts.take(1), sep) == vts.take(1)[0]);
            }
        }
        i = i + 1;
    }
    proof {
        assert(views(ts@).take(ts@.len() as int) =~= views(ts@));
    }
    r
}

} // verus!
