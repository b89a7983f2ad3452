//! Character-level string helpers with exact specifications.
use vstd::prelude::*;
use vstd::string::*;

verus! {

/// `p` occurs in `s` starting at index `i`.
pub open spec fn occurs_at(s: Seq<char>, p: Seq<char>, i: int) -> bool {
    0 <= i && i + p.len() <= s.len() && s.subrange(i, i + p.len()) == p
}

pub open spec fn has_prefix(s: Seq<char>, p: Seq<char>) -> bool {
    occurs_at(s, p, 0)
}

/// The leftmost occurrence of `p` in `s` at or after index `i`.
pub open spec fn first_occ_from(s: Seq<char>, p: Seq<char>, i: int) -> Option<int>
    decreases s.len() + 1 - i,
{
    if i < 0 || i + p.len() > s.len() {
        None
    } else if occurs_at(s, p, i) {
        Some(i)
    } else {
        first_occ_from(s, p, i + 1)
    }
}

pub open spec fn contains_seq(s: Seq<char>, p: Seq<char>) -> bool {
    first_occ_from(s, p, 0) is Some
}

/// Splitting at every leftmost, non-overlapping occurrence of a non-empty separator.
pub open spec fn split_seq(s: Seq<char>, sep: Seq<char>) -> Seq<Seq<char>>
    decreases s.len(),
{
    match first_occ_from(s, sep, 0) {
        Some(i) => if sep.len() > 0 && 0 <= i && i + sep.len() <= s.len() {
            seq![s.subrange(0, i)] + split_seq(s.subrange(i + sep.len(), s.len() as int), sep)
        } else {
            seq![s]
        },
        None => seq![s],
    }
}

/// The parts joined with `sep` between consecutive ones.
pub open spec fn join_seq(parts: Seq<Seq<char>>, sep: Seq<char>) -> Seq<char>
    decreases parts.len(),
{
    if parts.len() == 0 {
        Seq::empty()
    } else if parts.len() == 1 {
        parts[0]
    } else {
        join_seq(parts.drop_last(), sep) + sep + parts.last()
    }
}

/// The escape that some compilers write for a dot.
pub open spec fn escaped_dot() -> Seq<char> {
    seq!['%', '2', 'e']
}

/// Every escaped dot replaced by a dot, scanning from the left.
pub open spec fn unescape_seq(s: Seq<char>) -> Seq<char>
    decreases s.len(),
{
    if s.len() == 0 {
        s
    } else if has_prefix(s, escaped_dot()) {
        seq!['.'] + unescape_seq(s.subrange(3, s.len() as int))
    } else {
        seq![s[0]] + unescape_seq(s.subrange(1, s.len() as int))
    }
}

/// The part of `s` before the first occurrence of `p`, or all of `s`.
pub open spec fn before_first(s: Seq<char>, p: Seq<char>) -> Seq<char> {
    split_seq(s, p)[0]
}

/// Relies on `Iterator::collect` into a `String`: the characters are kept in order.
#[verifier::external_body]
pub fn string_of(v: &Vec<char>) -> (r: String)
    ensures
        r@ == v@,
{
    v.iter().collect()
}

pub fn chars_of(s: &str) -> (r: Vec<char>)
    ensures
        r@ == s@,
{
    let n = s.unicode_len();
    let mut r: Vec<char> = Vec::new();
    let mut i: usize = 0;
    while i < n
        invariant
            n == s@.len(),
            i <= n,
            r@ == s@.subrange(0, i as int),
        decreases n - i,
    {
        r.push(s.get_char(i));
        i += 1;
        assert(r@ =~= s@.subrange(0, i as int));
    }
    assert(r@ =~= s@);
    r
}

pub fn occurs_at_exec(s: &Vec<char>, p: &Vec<char>, i: usize) -> (r: bool)
    ensures
        r == occurs_at(s@, p@, i as int),
{
    if i > s.len() || p.len() > s.len() - i {
        return false;
    }
    let slen = s.len();
    let mut k: usize = 0;
    while k < p.len()
        invariant
            slen == s@.len(),
            i + p@.len() <= s@.len(),
            i <= s@.len(),
            k <= p@.len(),
            forall|j: int| 0 <= j < k ==> s@[i + j] == p@[j],
        decreases p@.len() - k,
    {
        assert(i + k < slen);
        if s[i + k] != p[k] {
            assert(s@.subrange(i as int, i + p@.len())[k as int] != p@[k as int]);
            return false;
        }
        k += 1;
    }
    assert(s@.subrange(i as int, i + p@.len()) =~= p@);
    true
}

pub fn starts_with(s: &Vec<char>, p: &Vec<char>) -> (r: bool)
    ensures
        r == has_prefix(s@, p@),
{
    occurs_at_exec(s, p, 0)
}

/// Leftmost occurrence of `p` in `s` at or after `from`.
pub fn find_from(s: &Vec<char>, p: &Vec<char>, from: usize) -> (r: Option<usize>)
    ensures
        match r {
            Some(i) => first_occ_from(s@, p@, from as int) == Some(i as int),
            None => first_occ_from(s@, p@, from as int) is None,
        },
{
    let mut i: usize = from;
    while i <= s.len() && p.len() <= s.len() - i
        invariant
            from <= i,
            first_occ_from(s@, p@, from as int) == first_occ_from(s@, p@, i as int),
        decreases s@.len() + 1 - i,
    {
        if occurs_at_exec(s, p, i) {
            return Some(i);
        }
        if i == s.len() {
            assert(first_occ_from(s@, p@, i + 1) is None);
            return None;
        }
        i += 1;
    }
    None
}

pub fn contains(s: &Vec<char>, p: &Vec<char>) -> (r: bool)
    ensures
        r == contains_seq(s@, p@),
{
    find_from(s, p, 0).is_some()
}

pub proof fn lemma_first_occ_shift(s: Seq<char>, p: Seq<char>, start: int, k: int)
    requires
        0 <= start <= s.len(),
        0 <= k,
    ensures
        first_occ_from(s, p, start + k) == (match first_occ_from(
            s.subrange(start, s.len() as int),
            p,
            k,
        ) {
            Some(j) => Some(j + start),
            None => None::<int>,
        }),
    decreases s.len() + 1 - (start + k),
{
    let t = s.subrange(start, s.len() as int);
    if start + k + p.len() > s.len() {
    } else {
        assert(t.subrange(k, k + p.len()) =~= s.subrange(start + k, start + k + p.len()));
        if !occurs_at(s, p, start + k) {
            lemma_first_occ_shift(s, p, start, k + 1);
        }
    }
}

pub proof fn lemma_first_occ_bounds(s: Seq<char>, p: Seq<char>, i: int)
    ensures
        first_occ_from(s, p, i) matches Some(j) ==> i <= j && occurs_at(s, p, j),
    decreases s.len() + 1 - i,
{
    if i < 0 || i + p.len() > s.len() {
    } else if occurs_at(s, p, i) {
    } else {
        lemma_first_occ_bounds(s, p, i + 1);
    }
}

/// Splits `s` at every leftmost, non-overlapping occurrence of `sep`.
pub fn split(s: &Vec<char>, sep: &Vec<char>) -> (r: Vec<Vec<char>>)
    requires
        sep@.len() > 0,
    ensures
        r@.map_values(|v: Vec<char>| v@) == split_seq(s@, sep@),
        r@.len() >= 1,
{
    let mut r: Vec<Vec<char>> = Vec::new();
    let slen = s.len();
    let mut start: usize = 0;
    assert(s@.subrange(0, s@.len() as int) =~= s@);
    assert(r@.map_values(|v: Vec<char>| v@) =~= Seq::<Seq<char>>::empty());
    loop
        invariant
            sep@.len() > 0,
            slen == s@.len(),
            start <= s@.len(),
            r@.map_values(|v: Vec<char>| v@) + split_seq(
                s@.subrange(start as int, s@.len() as int),
                sep@,
            ) == split_seq(s@, sep@),
        decreases s@.len() - start,
    {
        let ghost t = s@.subrange(start as int, s@.len() as int);
        proof {
            lemma_first_occ_shift(s@, sep@, start as int, 0);
            lemma_first_occ_bounds(s@, sep@, start as int);
        }
        match find_from(s, sep, start) {
            Some(i) => {
                let mut piece: Vec<char> = Vec::new();
                let mut k: usize = start;
                while k < i
                    invariant
                        start <= k <= i <= s@.len(),
                        piece@ == s@.subrange(start as int, k as int),
                    decreases i - k,
                {
                    piece.push(s[k]);
                    k += 1;
                    assert(piece@ =~= s@.subrange(start as int, k as int));
                }
                let ghost old_r = r@.map_values(|v: Vec<char>| v@);
                r.push(piece);
                proof {
                    assert(t.subrange(0, i - start) =~= s@.subrange(start as int, i as int));
                    assert(t.subrange(i - start + sep@.len(), t.len() as int) =~= s@.subrange(
                        i + sep@.len(),
                        s@.len() as int,
                    ));
                    assert(r@.map_values(|v: Vec<char>| v@) =~= old_r.push(
                        s@.subrange(start as int, i as int),
                    ));
                    assert(split_seq(t, sep@) == seq![s@.subrange(start as int, i as int)]
                        + split_seq(s@.subrange(i + sep@.len(), s@.len() as int), sep@));
                    assert(old_r.push(s@.subrange(start as int, i as int)) + split_seq(
                        s@.subrange(i + sep@.len(), s@.len() as int),
                        sep@,
                    ) =~= old_r + split_seq(t, sep@));
                }
                assert(occurs_at(s@, sep@, i as int));
                start = i + sep.len();
            },
            None => {
                let mut piece: Vec<char> = Vec::new();
                let mut k: usize = start;
                while k < s.len()
                    invariant
                        start <= k <= s@.len(),
                        piece@ == s@.subrange(start as int, k as int),
                    decreases s@.len() - k,
                {
                    piece.push(s[k]);
                    k += 1;
                    assert(piece@ =~= s@.subrange(start as int, k as int));
                }
                let ghost old_r = r@.map_values(|v: Vec<char>| v@);
                r.push(piece);
                proof {
                    assert(split_seq(t, sep@) == seq![t]);
                    assert(r@.map_values(|v: Vec<char>| v@) =~= old_r + split_seq(t, sep@));
                }
                return r;
            },
        }
    }
}

/// Joins the parts with `sep` between consecutive ones.
pub fn join(parts: &Vec<Vec<char>>, sep: &Vec<char>) -> (r: Vec<char>)
    ensures
        r@ == join_seq(parts@.map_values(|v: Vec<char>| v@), sep@),
{
    let r = join_first(parts, parts.len(), sep);
    assert(parts@.map_values(|v: Vec<char>| v@).subrange(0, parts@.len() as int) =~= parts@.map_values(|v: Vec<char>| v@));
    r
}

/// Joins the first `k` parts with `sep` between consecutive ones.
pub fn join_first(parts: &Vec<Vec<char>>, k: usize, sep: &Vec<char>) -> (r: Vec<char>)
    requires
        k <= parts@.len(),
    ensures
        r@ == join_seq(parts@.map_values(|v: Vec<char>| v@).subrange(0, k as int), sep@),
{
    let ghost ps = parts@.map_values(|v: Vec<char>| v@);
    let mut r: Vec<char> = Vec::new();
    let mut i: usize = 0;
    while i < k
        invariant
            ps == parts@.map_values(|v: Vec<char>| v@),
            k <= parts@.len(),
            i <= k,
            r@ == join_seq(ps.subrange(0, i as int), sep@),
        decreases k - i,
    {
        if i > 0 {
            r.extend_from_slice(sep.as_slice());
        }
        r.extend_from_slice(parts[i].as_slice());
        proof {
            let q = ps.subrange(0, i + 1);
            assert(q.drop_last() =~= ps.subrange(0, i as int));
            if i == 0 {
                assert(join_seq(q, sep@) == q[0]);
            }
        }
        i += 1;
    }
    r
}

/// Replaces every escaped dot with a dot.
pub fn unescape(s: &Vec<char>) -> (r: Vec<char>)
    ensures
        r@ == unescape_seq(s@),
{
    let pat: Vec<char> = vec!['%', '2', 'e'];
    let mut r: Vec<char> = Vec::new();
    let mut i: usize = 0;
    assert(s@.subrange(0, s@.len() as int) =~= s@);
    while i < s.len()
        invariant
            pat@ == escaped_dot(),
            i <= s@.len(),
            r@ + unescape_seq(s@.subrange(i as int, s@.len() as int)) == unescape_seq(s@),
        decreases s@.len() - i,
    {
        let ghost t = s@.subrange(i as int, s@.len() as int);
        if occurs_at_exec(s, &pat, i) {
            assert(t.subrange(0, 3) =~= s@.subrange(i as int, i + 3));
            assert(t.subrange(3, t.len() as int) =~= s@.subrange(i + 3, s@.len() as int));
            r.push('.');
            i += 3;
        } else {
            assert(!has_prefix(t, escaped_dot())) by {
                if t.len() >= 3 {
                    assert(t.subrange(0, 3) =~= s@.subrange(i as int, i + 3));
                }
            }
            assert(t.subrange(1, t.len() as int) =~= s@.subrange(i + 1, s@.len() as int));
            r.push(s[i]);
            i += 1;
        }
        assert(r@ + unescape_seq(s@.subrange(i as int, s@.len() as int)) =~= unescape_seq(s@));
    }
    assert(s@.subrange(i as int, s@.len() as int) =~= Seq::<char>::empty());
    assert(r@ =~= unescape_seq(s@));
    r
}

} // verus!
