//! Character-sequence utilities: substring search, whitespace token
//! splitting, line splitting and joining, each with a mathematical
//! definition over `Seq<char>` that the executable functions are proved
//! against.

use vstd::prelude::*;

verus! {

use crate::scan::{is_space, token_end, lemma_token_end, nl_pos, lemma_nl_pos, is_space_exec};

broadcast use {lemma_token_end, lemma_nl_pos};

/// The views of a sequence of strings.
pub open spec fn views_of(v: Seq<String>) -> Seq<Seq<char>> {
    v.map_values(|s: String| s@)
}

/// `needle` occurs in `hay` starting at position `i`.
pub open spec fn contains_at(hay: Seq<char>, needle: Seq<char>, i: int) -> bool {
    0 <= i && i + needle.len() <= hay.len() && hay.subrange(i, i + needle.len() as int) =~= needle
}

/// Position of the first occurrence of `needle` in `hay` at or after `i`,
/// if any.
pub open spec fn find_from(hay: Seq<char>, needle: Seq<char>, i: int) -> Option<int>
    decreases hay.len() - i
        when 0 <= i
{
    if i + needle.len() > hay.len() {
        None
    } else if contains_at(hay, needle, i) {
        Some(i)
    } else {
        find_from(hay, needle, i + 1)
    }
}

/// Position of the first occurrence of `needle` in `hay`, if any.
pub open spec fn find(hay: Seq<char>, needle: Seq<char>) -> Option<int> {
    find_from(hay, needle, 0)
}

pub proof fn lemma_find_from(hay: Seq<char>, needle: Seq<char>, i: int)
    requires
        0 <= i,
    ensures
        match find_from(hay, needle, i) {
            Some(p) => i <= p && contains_at(hay, needle, p) && forall|k: int|
                i <= k < p ==> !contains_at(hay, needle, k),
            None => forall|k: int| i <= k ==> !contains_at(hay, needle, k),
        },
    decreases hay.len() - i + needle.len(),
{
    if i + needle.len() > hay.len() {
    } else if contains_at(hay, needle, i) {
    } else {
        lemma_find_from(hay, needle, i + 1);
    }
}

/// Whether two chars are equal at each offset of a candidate match.
fn match_at(hay: &str, needle: &str, i: usize) -> (r: bool)
    requires
        i + needle@.len() <= hay@.len(),
    ensures
        r == contains_at(hay@, needle@, i as int),
{
    let hlen = hay.unicode_len();
    let nlen = needle.unicode_len();
    let mut j: usize = 0;
    while j < nlen
        invariant
            j <= nlen,
            nlen == needle@.len(),
            hlen == hay@.len(),
            i + nlen <= hlen,
            forall|k: int| 0 <= k < j ==> hay@[i + k] == needle@[k],
        decreases nlen - j,
    {
        if hay.get_char(i + j) != needle.get_char(j) {
            proof {
                if contains_at(hay@, needle@, i as int) {
                    assert(hay@.subrange(i as int, i + nlen)[j as int] == hay@[i + j]);
                }
            }
            return false;
        }
        j += 1;
    }
    proof {
        assert(hay@.subrange(i as int, i + nlen) =~= needle@);
    }
    true
}

/// First occurrence of `needle` in `hay`, as a character index.
pub fn find_pattern(hay: &str, needle: &str) -> (r: Option<usize>)
    ensures
        match r {
            Some(p) => find(hay@, needle@) == Some(p as int),
            None => find(hay@, needle@) is None,
        },
{
    let hlen = hay.unicode_len();
    let nlen = needle.unicode_len();
    if nlen > hlen {
        return None;
    }
    if nlen == 0 {
        proof {
            assert(hay@.subrange(0, 0) =~= needle@);
        }
        return Some(0);
    }
    let mut i: usize = 0;
    while i <= hlen - nlen
        invariant
            hlen == hay@.len(),
            nlen == needle@.len(),
            0 < nlen <= hlen,
            i <= hlen - nlen + 1,
            find_from(hay@, needle@, 0) == find_from(hay@, needle@, i as int),
        decreases hlen - i,
    {
        if match_at(hay, needle, i) {
            return Some(i);
        }
        i += 1;
    }
    None
}

/// The maximal runs of non-space characters of `s` at or after `i`, in
/// order.
pub open spec fn split_ws_from(s: Seq<char>, i: int) -> Seq<Seq<char>>
    decreases s.len() - i
        when 0 <= i <= s.len()
{
    if i >= s.len() {
        Seq::empty()
    } else if is_space(s[i]) {
        split_ws_from(s, i + 1)
    } else {
        seq![s.subrange(i, token_end(s, i))] + split_ws_from(s, token_end(s, i))
    }
}

/// The whitespace-separated tokens of `s`, in order, empty tokens dropped.
pub open spec fn split_ws(s: Seq<char>) -> Seq<Seq<char>> {
    split_ws_from(s, 0)
}

/// The lines of `s` at or after `i`: segments are split at each line feed,
/// one carriage return directly before a line feed is dropped, and a final
/// line ending opens no further line.
pub open spec fn split_lines_from(s: Seq<char>, i: int) -> Seq<Seq<char>>
    decreases s.len() - i
        when 0 <= i <= s.len()
{
    if i >= s.len() {
        Seq::empty()
    } else {
        let j = nl_pos(s, i);
        if j >= s.len() {
            seq![s.subrange(i, s.len() as int)]
        } else {
            let e = if j > i && s[j - 1] == '\r' {
                j - 1
            } else {
                j
            };
            seq![s.subrange(i, e)] + split_lines_from(s, j + 1)
        }
    }
}

/// The lines of `s`.
pub open spec fn split_lines(s: Seq<char>) -> Seq<Seq<char>> {
    split_lines_from(s, 0)
}

/// The lines joined with a single line feed between them, none at the end.
pub open spec fn join_nl(ls: Seq<Seq<char>>) -> Seq<char>
    decreases ls.len(),
{
    if ls.len() == 0 {
        Seq::empty()
    } else if ls.len() == 1 {
        ls[0]
    } else {
        ls[0] + seq!['\n'] + join_nl(ls.drop_first())
    }
}

pub proof fn lemma_join_nl_push(ls: Seq<Seq<char>>, x: Seq<char>)
    ensures
        join_nl(ls.push(x)) == if ls.len() == 0 {
            x
        } else {
            join_nl(ls) + seq!['\n'] + x
        },
    decreases ls.len(),
{
    if ls.len() == 0 {
        assert(ls.push(x)[0] == x);
    } else if ls.len() == 1 {
        assert(ls.push(x)[0] == ls[0]);
        assert(ls.push(x).drop_first() =~= seq![x]);
        assert(join_nl(seq![x]) == x);
        assert(join_nl(ls.push(x)) == ls[0] + seq!['\n'] + x);
    } else {
        assert(ls.push(x).drop_first() =~= ls.drop_first().push(x));
        lemma_join_nl_push(ls.drop_first(), x);
    }
}

/// The whitespace-separated tokens of `s`.
pub fn split_whitespace_exec(s: &str) -> (r: Vec<String>)
    ensures
        views_of(r@) == split_ws(s@),
{
    broadcast use lemma_token_end;

    let len = s.unicode_len();
    let mut r: Vec<String> = Vec::new();
    let mut i: usize = 0;
    proof {
        assert(views_of(r@) =~= Seq::<Seq<char>>::empty());
    }
    while i < len
        invariant
            i <= len,
            len == s@.len(),
            split_ws(s@) == views_of(r@) + split_ws_from(s@, i as int),
        decreases len - i,
    {
        let c = s.get_char(i);
        if is_space_exec(c) {
            i += 1;
        } else {
            let ghost te = token_end(s@, i as int);
            let mut j: usize = i + 1;
            proof {
                assert(token_end(s@, i as int) == token_end(s@, i + 1));
            }
            while j < len
                invariant
                    i < j <= len,
                    len == s@.len(),
                    te == token_end(s@, i as int),
                    te == token_end(s@, j as int),
                ensures
                    i < j <= len,
                    j == te,
                decreases len - j,
            {
                let c2 = s.get_char(j);
                if is_space_exec(c2) {
                    break ;
                }
                j += 1;
            }
            let tok = s.substring_char(i, j);
            let owned = tok.to_owned();
            proof {
                assert(views_of(r@.push(owned)) =~= views_of(r@).push(s@.subrange(
                    i as int,
                    te,
                )));
                assert(views_of(r@) + split_ws_from(s@, i as int) =~= views_of(r@.push(owned))
                    + split_ws_from(s@, te));
            }
            r.push(owned);
            i = j;
        }
    }
    proof {
        assert(views_of(r@) + split_ws_from(s@, len as int) =~= views_of(r@));
    }
    r
}

/// The lines of `s`, each as an owned string.
pub fn split_lines_exec(s: &str) -> (r: Vec<String>)
    ensures
        views_of(r@) == split_lines(s@),
{
    broadcast use lemma_nl_pos;

    let len = s.unicode_len();
    let mut r: Vec<String> = Vec::new();
    let mut i: usize = 0;
    proof {
        assert(views_of(r@) =~= Seq::<Seq<char>>::empty());
    }
    while i < len
        invariant
            i <= len,
            len == s@.len(),
            split_lines(s@) == views_of(r@) + split_lines_from(s@, i as int),
        decreases len - i,
    {
        let ghost np = nl_pos(s@, i as int);
        let mut j: usize = i;
        while j < len
            invariant
                i <= j <= len,
                len == s@.len(),
                np == nl_pos(s@, i as int),
                np == nl_pos(s@, j as int),
            ensures
                i <= j <= len,
                j == np,
            decreases len - j,
        {
            let c = s.get_char(j);
            if c == '\n' {
                break ;
            }
            j += 1;
        }
        if j >= len {
            let line = s.substring_char(i, len);
            let owned = line.to_owned();
            proof {
                assert(views_of(r@.push(owned)) =~= views_of(r@).push(s@.subrange(
                    i as int,
                    len as int,
                )));
                assert(views_of(r@) + split_lines_from(s@, i as int) =~= views_of(r@.push(owned)));
            }
            r.push(owned);
            i = len;
        } else {
            let e = if j > i && s.get_char(j - 1) == '\r' {
                j - 1
            } else {
                j
            };
            let line = s.substring_char(i, e);
            let owned = line.to_owned();
            proof {
                assert(views_of(r@.push(owned)) =~= views_of(r@).push(s@.subrange(
                    i as int,
                    e as int,
                )));
                assert(views_of(r@) + split_lines_from(s@, i as int) =~= views_of(r@.push(owned))
                    + split_lines_from(s@, j + 1));
            }
            r.push(owned);
            i = j + 1;
        }
    }
    proof {
        assert(views_of(r@) + split_lines_from(s@, i as int) =~= views_of(r@));
    }
    r
}

/// The buffered lines joined with a single line feed between them.
pub fn join_lines(v: &Vec<String>) -> (r: String)
    ensures
        r@ == join_nl(views_of(v@)),
{
    let mut r = String::new();
    let mut i: usize = 0;
    proof {
        reveal_strlit("\n");
        assert(views_of(v@).subrange(0, 0) =~= Seq::<Seq<char>>::empty());
    }
    while i < v.len()
        invariant
            i <= v@.len(),
            r@ == join_nl(views_of(v@).subrange(0, i as int)),
        decreases v@.len() - i,
    {
        proof {
            reveal_strlit("\n");
            assert("\n"@ =~= seq!['\n']);
            lemma_join_nl_push(views_of(v@).subrange(0, i as int), v@[i as int]@);
            assert(views_of(v@).subrange(0, i + 1) =~= views_of(v@).subrange(0, i as int).push(
                v@[i as int]@,
            ));
        }
        if i > 0 {
            r.append("\n");
        }
        let line: &String = &v[i];
        r.append(line.as_str());
        i += 1;
    }
    proof {
        assert(views_of(v@).subrange(0, v@.len() as int) =~= views_of(v@));
    }
    r
}

} // verus!
