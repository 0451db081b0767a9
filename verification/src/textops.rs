//! Sequence operations shared by the pipeline stages: joining pieces with a
//! separator, searching for a substring, and splitting on one.

use vstd::prelude::*;
use crate::tokenize::lemma_vec2_deep;

verus! {

/// The pieces joined with `sep` between consecutive elements.
pub open spec fn join_sep(parts: Seq<Seq<char>>, sep: Seq<char>) -> Seq<char>
    decreases parts.len(),
{
    if parts.len() == 0 {
        Seq::empty()
    } else if parts.len() == 1 {
        parts[0]
    } else {
        parts[0] + sep + join_sep(parts.drop_first(), sep)
    }
}

/// Whether `pat` occurs in `text` at position `i`.
pub open spec fn match_at(text: Seq<char>, pat: Seq<char>, i: int) -> bool {
    0 <= i && i + pat.len() <= text.len() && text.subrange(i, i + pat.len()) == pat
}

/// The position of the first occurrence of `pat` in `text` at or after
/// `from`, if any.
pub open spec fn find_from(text: Seq<char>, pat: Seq<char>, from: int) -> Option<int>
    decreases text.len() - from,
{
    if from < 0 || pat.len() == 0 || from + pat.len() > text.len() {
        None
    } else if match_at(text, pat, from) {
        Some(from)
    } else {
        find_from(text, pat, from + 1)
    }
}

/// `find_from` returns exactly the first match position.
pub proof fn lemma_find_from_props(text: Seq<char>, pat: Seq<char>, from: int)
    requires
        0 <= from,
        pat.len() >= 1,
    ensures
        find_from(text, pat, from) matches Some(i) ==> from <= i && match_at(text, pat, i)
            && forall|j: int| from <= j < i ==> !match_at(text, pat, j),
        find_from(text, pat, from) is None ==> forall|j: int|
            from <= j ==> !match_at(text, pat, j),
    decreases text.len() - from,
{
    if from + pat.len() > text.len() {
        assert forall|j: int| from <= j implies !match_at(text, pat, j) by {}
    } else if !match_at(text, pat, from) {
        lemma_find_from_props(text, pat, from + 1);
    }
}

/// A position satisfying the first-match description is the `find_from`
/// result.
pub proof fn lemma_find_from_exact(text: Seq<char>, pat: Seq<char>, from: int, i: int)
    requires
        0 <= from <= i,
        pat.len() >= 1,
        match_at(text, pat, i),
        forall|j: int| from <= j < i ==> !match_at(text, pat, j),
    ensures
        find_from(text, pat, from) == Some(i),
    decreases i - from,
{
    if from < i {
        lemma_find_from_exact(text, pat, from + 1, i);
    }
}

/// Matching within a suffix is matching at the shifted position.
pub proof fn lemma_match_at_shift(text: Seq<char>, pat: Seq<char>, k: int, j: int)
    requires
        0 <= k <= text.len(),
        0 <= j,
    ensures
        match_at(text.skip(k), pat, j) == match_at(text, pat, k + j),
{
    if j + pat.len() <= text.len() - k {
        assert(text.skip(k).subrange(j, j + pat.len()) =~= text.subrange(k + j, k + j + pat.len()));
    }
}

/// `text` split on occurrences of `sep`, as `str::split` with a string
/// pattern splits: the leftmost match is taken first and matches do not
/// overlap; an empty pattern matches at every character boundary, both ends
/// included.
pub open spec fn split_seq(text: Seq<char>, sep: Seq<char>) -> Seq<Seq<char>>
    decreases text.len(),
    via split_seq_dec
{
    if sep.len() == 0 {
        seq![Seq::<char>::empty()] + Seq::new(text.len(), |i: int| seq![text[i]]) + seq![
            Seq::<char>::empty(),
        ]
    } else {
        match find_from(text, sep, 0) {
            Some(i) => seq![text.take(i)] + split_seq(text.skip(i + sep.len()), sep),
            None => seq![text],
        }
    }
}

#[via_fn]
proof fn split_seq_dec(text: Seq<char>, sep: Seq<char>) {
    if sep.len() > 0 {
        lemma_find_from_props(text, sep, 0);
    }
}

/// Copies the characters of `text` in positions `a..b`.
pub fn subvec(text: &Vec<char>, a: usize, b: usize) -> (r: Vec<char>)
    requires
        a <= b <= text@.len(),
    ensures
        r@ == text@.subrange(a as int, b as int),
{
    let mut out: Vec<char> = Vec::new();
    let mut i: usize = a;
    while i < b
        invariant
            a <= i <= b <= text@.len(),
            out@ == text@.subrange(a as int, i as int),
        decreases b - i,
    {
        out.push(text[i]);
        proof {
            assert(text@.subrange(a as int, i + 1) =~= text@.subrange(a as int, i as int).push(
                text@[i as int],
            ));
        }
        i = i + 1;
    }
    out
}

/// Appends the characters of `part` to `out`.
pub fn append_chars(out: &mut Vec<char>, part: &Vec<char>)
    ensures
        final(out)@ == old(out)@ + part@,
{
    let mut i: usize = 0;
    while i < part.len()
        invariant
            0 <= i <= part@.len(),
            out@ == old(out)@ + part@.take(i as int),
        decreases part@.len() - i,
    {
        out.push(part[i]);
        proof {
            assert(part@.take(i + 1) =~= part@.take(i as int).push(part@[i as int]));
            assert(old(out)@ + part@.take(i + 1) =~= (old(out)@ + part@.take(i as int)).push(
                part@[i as int],
            ));
        }
        i = i + 1;
    }
    proof {
        assert(part@.take(part@.len() as int) =~= part@);
    }
}

/// Joins the pieces with `sep` between consecutive elements.
#[verifier::rlimit(60)]
pub fn join_chars(parts: &Vec<Vec<char>>, sep: &Vec<char>) -> (r: Vec<char>)
    ensures
        r@ == join_sep(parts.deep_view(), sep@),
{
    let ghost dv = parts.deep_view();
    proof {
        crate::tokenize::lemma_vec2_deep(parts);
    }
    let mut out: Vec<char> = Vec::new();
    let mut k: usize = 0;
    proof {
        assert(dv.skip(0) =~= dv);
        assert(out@ + join_sep(dv, sep@) =~= join_sep(dv, sep@));
    }
    while k < parts.len()
        invariant
            0 <= k <= parts@.len(),
            dv == parts.deep_view(),
            dv.len() == parts@.len(),
            forall|i: int| 0 <= i < parts@.len() ==> dv[i] == parts@[i]@,
            join_sep(dv, sep@) == out@ + join_sep(dv.skip(k as int), sep@),
        decreases parts@.len() - k,
    {
        let ghost suffix = dv.skip(k as int);
        proof {
            assert(suffix[0] == dv[k as int]);
            if k + 1 < parts@.len() {
                assert(suffix.drop_first() =~= dv.skip(k + 1));
            }
        }
        append_chars(&mut out, &parts[k]);
        if k + 1 < parts.len() {
            append_chars(&mut out, sep);
            proof {
                assert(join_sep(suffix, sep@) == suffix[0] + sep@ + join_sep(
                    dv.skip(k + 1),
                    sep@,
                ));
            }
        } else {
            proof {
                assert(suffix.len() == 1);
                assert(join_sep(suffix, sep@) == suffix[0]);
                assert(dv.skip(k + 1) =~= Seq::<Seq<char>>::empty());
            }
        }
        k = k + 1;
    }
    proof {
        assert(dv.skip(parts@.len() as int) =~= Seq::<Seq<char>>::empty());
        if dv.len() == 0 {
            assert(out@ =~= join_sep(dv, sep@));
        }
    }
    out
}

/// Whether `text` holds the character `c`.
pub fn contains_char(text: &Vec<char>, c: char) -> (r: bool)
    ensures
        r == text@.contains(c),
{
    let mut i: usize = 0;
    while i < text.len()
        invariant
            0 <= i <= text@.len(),
            forall|k: int| 0 <= k < i ==> text@[k] != c,
        decreases text@.len() - i,
    {
        if text[i] == c {
            return true;
        }
        i = i + 1;
    }
    false
}

/// Whether some character of `text` is not white space.
pub fn has_nonspace_chars(text: &Vec<char>) -> (r: bool)
    ensures
        r == crate::tokenize::has_nonspace(text@),
{
    let mut i: usize = 0;
    while i < text.len()
        invariant
            0 <= i <= text@.len(),
            forall|k: int| 0 <= k < i ==> crate::width::is_space(text@[k]),
        decreases text@.len() - i,
    {
        if !crate::width::is_space_char(text[i]) {
            return true;
        }
        i = i + 1;
    }
    false
}

/// The position of the first occurrence of `pat` at or after `from`, if any.
pub fn find_pat(text: &Vec<char>, pat: &Vec<char>, from: usize) -> (r: Option<usize>)
    requires
        pat@.len() >= 1,
    ensures
        r matches Some(i) ==> from <= i && match_at(text@, pat@, i as int) && find_from(
            text@,
            pat@,
            from as int,
        ) == Some(i as int),
        r is None ==> find_from(text@, pat@, from as int) is None,
{
    let mut i: usize = from;
    while pat.len() <= text.len() && i <= text.len() - pat.len()
        invariant
            from <= i,
            pat@.len() >= 1,
            forall|j: int| from <= j < i ==> !match_at(text@, pat@, j),
        decreases text@.len() - i,
    {
        let mut j: usize = 0;
        let mut eq: bool = true;
        while j < pat.len()
            invariant
                i + pat@.len() <= text@.len(),
                text@.len() <= usize::MAX,
                0 <= j <= pat@.len(),
                eq ==> text@.subrange(i as int, i + j) =~= pat@.take(j as int),
                !eq ==> exists|m: int| 0 <= m < j && text@[i + m] != pat@[m],
            decreases pat@.len() - j,
        {
            if text[i + j] != pat[j] {
                eq = false;
            } else {
                proof {
                    if eq {
                        assert(text@.subrange(i as int, i + j + 1) =~= text@.subrange(
                            i as int,
                            i + j,
                        ).push(text@[i + j]));
                        assert(pat@.take(j + 1) =~= pat@.take(j as int).push(pat@[j as int]));
                    }
                }
            }
            j = j + 1;
        }
        if eq {
            proof {
                assert(pat@.take(pat@.len() as int) =~= pat@);
                assert(match_at(text@, pat@, i as int));
                lemma_find_from_exact(text@, pat@, from as int, i as int);
            }
            return Some(i);
        }
        proof {
            assert(!match_at(text@, pat@, i as int)) by {
                let m = choose|m: int|
                    0 <= m < pat@.len() && text@[i + m] != pat@[m];
                if match_at(text@, pat@, i as int) {
                    assert(text@.subrange(i as int, i + pat@.len())[m] == text@[i + m]);
                }
            }
        }
        i = i + 1;
    }
    proof {
        assert forall|j: int| from <= j implies !match_at(text@, pat@, j) by {
            if j >= i {
                assert(j + pat@.len() > text@.len());
            }
        }
        lemma_find_from_props(text@, pat@, from as int);
        match find_from(text@, pat@, from as int) {
            Some(w) => {
                assert(match_at(text@, pat@, w));
            },
            None => {},
        }
    }
    None
}


/// Shifting the start of the search window shifts the match position.
pub proof fn lemma_find_shift(text: Seq<char>, pat: Seq<char>, pos: int)
    requires
        0 <= pos <= text.len(),
        pat.len() >= 1,
    ensures
        find_from(text, pat, pos) matches Some(i) ==> find_from(text.skip(pos), pat, 0) == Some(
            i - pos,
        ),
        find_from(text, pat, pos) is None ==> find_from(text.skip(pos), pat, 0) is None,
{
    lemma_find_from_props(text, pat, pos);
    match find_from(text, pat, pos) {
        Some(i) => {
            lemma_match_at_shift(text, pat, pos, i - pos);
            assert forall|j: int| 0 <= j < i - pos implies !match_at(text.skip(pos), pat, j) by {
                lemma_match_at_shift(text, pat, pos, j);
            }
            lemma_find_from_exact(text.skip(pos), pat, 0, i - pos);
        },
        None => {
            lemma_find_from_props(text.skip(pos), pat, 0);
            match find_from(text.skip(pos), pat, 0) {
                Some(w) => {
                    lemma_match_at_shift(text, pat, pos, w);
                    assert(false);
                },
                None => {},
            }
        },
    }
}

/// Splits `text` on occurrences of `sep`, as `split_seq` describes.
pub fn split_chars(text: &Vec<char>, sep: &Vec<char>) -> (r: Vec<Vec<char>>)
    ensures
        r.deep_view() == split_seq(text@, sep@),
{
    let mut out: Vec<Vec<char>> = Vec::new();
    if sep.len() == 0 {
        out.push(Vec::new());
        let mut i: usize = 0;
        while i < text.len()
            invariant
                0 <= i <= text@.len(),
                out@.len() == i + 1,
                out@[0]@ =~= Seq::<char>::empty(),
                forall|k: int| 1 <= k <= i ==> out@[k]@ =~= seq![text@[k - 1]],
            decreases text@.len() - i,
        {
            let mut piece: Vec<char> = Vec::new();
            piece.push(text[i]);
            out.push(piece);
            i = i + 1;
        }
        out.push(Vec::new());
        proof {
            lemma_vec2_deep(&out);
            assert(out.deep_view() =~= split_seq(text@, sep@));
        }
    } else {
        let ghost full = split_seq(text@, sep@);
        let n = text.len();
        let mut pos: usize = 0;
        let mut done: bool = false;
        proof {
            assert(n as nat == text@.len());
        }
        proof {
            assert(text@.skip(0) =~= text@);
            assert(out.deep_view() =~= Seq::<Seq<char>>::empty());
            assert(full =~= out.deep_view() + split_seq(text@.skip(0), sep@));
        }
        while !done
            invariant
                0 <= pos <= text@.len(),
                text@.len() <= usize::MAX,
                sep@.len() >= 1,
                full == split_seq(text@, sep@),
                !done ==> full == out.deep_view() + split_seq(text@.skip(pos as int), sep@),
                done ==> full == out.deep_view(),
            decreases text@.len() + 1 - pos, (if done { 0int } else { 1int }),
        {
            let ghost tail = text@.skip(pos as int);
            let ghost old_deep = out.deep_view();
            match find_pat(text, sep, pos) {
                Some(i) => {
                    let piece = subvec(text, pos, i);
                    out.push(piece);
                    proof {
                        lemma_find_shift(text@, sep@, pos as int);
                        assert(find_from(tail, sep@, 0) == Some(i - pos));
                        assert(tail.take(i - pos) =~= text@.subrange(pos as int, i as int));
                        assert(tail.skip(i - pos + sep@.len()) =~= text@.skip(i + sep@.len()));
                        lemma_vec2_deep(&out);
                        assert(out.deep_view() =~= old_deep.push(piece@));
                        assert(old_deep.push(piece@) =~= old_deep + seq![piece@]);
                        assert(split_seq(tail, sep@) == seq![tail.take(i - pos)] + split_seq(
                            tail.skip(i - pos + sep@.len()),
                            sep@,
                        ));
                        assert(full =~= out.deep_view() + split_seq(
                            text@.skip(i + sep@.len()),
                            sep@,
                        ));
                    }
                    pos = i + sep.len();
                },
                None => {
                    let piece = subvec(text, pos, text.len());
                    out.push(piece);
                    proof {
                        lemma_find_shift(text@, sep@, pos as int);
                        assert(find_from(tail, sep@, 0) is None);
                        assert(split_seq(tail, sep@) == seq![tail]);
                        assert(tail =~= piece@);
                        lemma_vec2_deep(&out);
                        assert(out.deep_view() =~= old_deep.push(piece@));
                        assert(full =~= out.deep_view());
                    }
                    done = true;
                },
            }
        }
    }
    out
}

} // verus!
