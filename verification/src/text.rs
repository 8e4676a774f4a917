//! Character-level helpers shared by the decoder and the launch logic:
//! finding the first occurrence of a separator, splitting text into lines,
//! and comparing strings character by character.

use vstd::prelude::*;

verus! {

/// Index of the first newline in `t`, or `t.len()` if there is none.
pub open spec fn first_nl(t: Seq<char>) -> int
    decreases t.len(),
{
    if t.len() == 0 {
        0
    } else if t[0] == '\n' {
        0
    } else {
        1 + first_nl(t.drop_first())
    }
}

pub proof fn lemma_first_nl(t: Seq<char>)
    ensures
        0 <= first_nl(t) <= t.len(),
        forall|k: int| 0 <= k < first_nl(t) ==> t[k] != '\n',
        first_nl(t) < t.len() ==> t[first_nl(t)] == '\n',
    decreases t.len(),
{
    if t.len() > 0 && t[0] != '\n' {
        lemma_first_nl(t.drop_first());
        assert forall|k: int| 0 <= k < first_nl(t) implies t[k] != '\n' by {
            if k > 0 {
                assert(t.drop_first()[k - 1] == t[k]);
            }
        }
    }
}

/// Index of the first `=` in `t`, or `t.len()` if there is none.
pub open spec fn first_eq(t: Seq<char>) -> int
    decreases t.len(),
{
    if t.len() == 0 {
        0
    } else if t[0] == '=' {
        0
    } else {
        1 + first_eq(t.drop_first())
    }
}

pub proof fn lemma_first_nl_is(t: Seq<char>, j: int)
    requires
        0 <= j <= t.len(),
        forall|k: int| 0 <= k < j ==> t[k] != '\n',
        j < t.len() ==> t[j] == '\n',
    ensures
        first_nl(t) == j,
    decreases t.len(),
{
    if t.len() > 0 && t[0] != '\n' {
        assert forall|k: int| 0 <= k < j - 1 implies t.drop_first()[k] != '\n' by {
            assert(t.drop_first()[k] == t[k + 1]);
        }
        lemma_first_nl_is(t.drop_first(), j - 1);
    }
}

pub proof fn lemma_first_eq_is(t: Seq<char>, j: int)
    requires
        0 <= j <= t.len(),
        forall|k: int| 0 <= k < j ==> t[k] != '=',
        j < t.len() ==> t[j] == '=',
    ensures
        first_eq(t) == j,
    decreases t.len(),
{
    if t.len() > 0 && t[0] != '=' {
        assert forall|k: int| 0 <= k < j - 1 implies t.drop_first()[k] != '=' by {
            assert(t.drop_first()[k] == t[k + 1]);
        }
        lemma_first_eq_is(t.drop_first(), j - 1);
    }
}

/// The lines of `t`, split at every newline; text that ends in a newline has
/// a final empty line, and empty text is one empty line.
pub open spec fn split_lines(t: Seq<char>) -> Seq<Seq<char>>
    decreases t.len(),
{
    let i = first_nl(t);
    if 0 <= i && i < t.len() {
        seq![t.subrange(0, i)] + split_lines(t.subrange(i + 1, t.len() as int))
    } else {
        seq![t]
    }
}

/// A line survives comment filtering unless it starts with `#`.
pub open spec fn keeps(line: Seq<char>) -> bool {
    !(line.len() > 0 && line[0] == '#')
}

/// The lines that survive comment filtering, in order.
pub open spec fn keep_lines(ls: Seq<Seq<char>>) -> Seq<Seq<char>>
    decreases ls.len(),
{
    if ls.len() == 0 {
        Seq::empty()
    } else {
        let rest = keep_lines(ls.drop_last());
        if keeps(ls.last()) {
            rest.push(ls.last())
        } else {
            rest
        }
    }
}

/// The comment-filtered lines of raw entry text.
pub open spec fn kept_lines(t: Seq<char>) -> Seq<Seq<char>> {
    keep_lines(split_lines(t))
}

pub proof fn lemma_keep_push(ls: Seq<Seq<char>>, l: Seq<char>)
    ensures
        keeps(l) ==> keep_lines(ls.push(l)) == keep_lines(ls).push(l),
        !keeps(l) ==> keep_lines(ls.push(l)) == keep_lines(ls),
{
    assert(ls.push(l).drop_last() =~= ls);
    assert(ls.push(l).last() == l);
}

/// The sequence holds no newline.
pub open spec fn nl_free(t: Seq<char>) -> bool {
    forall|k: int| 0 <= k < t.len() ==> t[k] != '\n'
}

/// Splitting text that starts with a newline-free line: that line comes
/// first, and the rest splits on its own.
pub proof fn lemma_split_prefix(a: Seq<char>, b: Seq<char>)
    requires
        nl_free(a),
    ensures
        split_lines(a + seq!['\n'] + b) == seq![a] + split_lines(b),
{
    let t = a + seq!['\n'] + b;
    assert forall|k: int| 0 <= k < a.len() implies t[k] != '\n' by {
        assert(t[k] == a[k]);
    }
    assert(t[a.len() as int] == '\n');
    lemma_first_nl_is(t, a.len() as int);
    assert(t.subrange(0, a.len() as int) =~= a);
    assert(t.subrange(a.len() as int + 1, t.len() as int) =~= b);
}

/// A newline-free text is one line.
pub proof fn lemma_split_single(a: Seq<char>)
    requires
        nl_free(a),
    ensures
        split_lines(a) == seq![a],
{
    lemma_first_nl_is(a, a.len() as int);
}

/// Comment filtering keeps a list of lines none of which is a comment.
pub proof fn lemma_keep_all(ls: Seq<Seq<char>>)
    requires
        forall|i: int| 0 <= i < ls.len() ==> keeps(ls[i]),
    ensures
        keep_lines(ls) == ls,
    decreases ls.len(),
{
    if ls.len() > 0 {
        assert forall|i: int| 0 <= i < ls.drop_last().len() implies keeps(ls.drop_last()[i]) by {
            assert(ls.drop_last()[i] == ls[i]);
        }
        lemma_keep_all(ls.drop_last());
        assert(keep_lines(ls) =~= ls);
    }
}

/// Index of the first newline at or after `from`, or the text's length if
/// there is none.
pub fn find_nl(s: &str, from: usize, n: usize) -> (r: usize)
    requires
        from <= n,
        n == s@.len(),
    ensures
        from <= r <= n,
        r - from == first_nl(s@.subrange(from as int, n as int)),
{
    let mut i: usize = from;
    while i < n
        invariant
            from <= i <= n,
            n == s@.len(),
            forall|k: int| from <= k < i ==> s@[k] != '\n',
        decreases n - i,
    {
        if s.get_char(i) == '\n' {
            proof {
                let rest = s@.subrange(from as int, n as int);
                assert forall|k: int| 0 <= k < i - from implies rest[k] != '\n' by {
                    assert(rest[k] == s@[from + k]);
                }
                assert(rest[i - from] == s@[i as int]);
                lemma_first_nl_is(rest, i - from);
            }
            return i;
        }
        i += 1;
    }
    proof {
        let rest = s@.subrange(from as int, n as int);
        assert forall|k: int| 0 <= k < n - from implies rest[k] != '\n' by {
            assert(rest[k] == s@[from + k]);
        }
        lemma_first_nl_is(rest, n - from);
    }
    n
}

/// Splits a line on its first `=` into a key and a value, as the decoder's
/// key/value handling wants it; a line without `=` yields nothing.
pub fn split_kv<'a>(line: &'a str) -> (r: Option<(&'a str, &'a str)>)
    ensures
        r is Some <==> first_eq(line@) < line@.len(),
        r matches Some((k, v)) ==> {
            &&& k@ == line@.subrange(0, first_eq(line@))
            &&& v@ == line@.subrange(first_eq(line@) + 1, line@.len() as int)
        },
{
    let n = line.unicode_len();
    let mut i: usize = 0;
    while i < n
        invariant
            i <= n,
            n == line@.len(),
            forall|k: int| 0 <= k < i ==> line@[k] != '=',
        decreases n - i,
    {
        if line.get_char(i) == '=' {
            proof {
                lemma_first_eq_is(line@, i as int);
            }
            let key = line.substring_char(0, i);
            let val = line.substring_char(i + 1, n);
            return Some((key, val));
        }
        i += 1;
    }
    proof {
        lemma_first_eq_is(line@, n as int);
    }
    None
}

/// Two strings hold the same characters.
pub fn str_eq(a: &str, b: &str) -> (r: bool)
    ensures
        r == (a@ == b@),
{
    let n = a.unicode_len();
    if n != b.unicode_len() {
        proof {
            assert(a@ != b@) by {
                assert(a@.len() != b@.len());
            }
        }
        return false;
    }
    let mut i: usize = 0;
    while i < n
        invariant
            n == a@.len(),
            n == b@.len(),
            i <= n,
            forall|k: int| 0 <= k < i ==> a@[k] == b@[k],
        decreases n - i,
    {
        if a.get_char(i) != b.get_char(i) {
            return false;
        }
        i += 1;
    }
    proof {
        assert(a@ =~= b@);
    }
    true
}

} // verus!
