//! Tokenization of a paragraph.
//!
//! The text is cut immediately after every white-space character; every piece
//! that contains a non-space character becomes a token. A token is therefore
//! a word plus at most one trailing white-space character, and runs of two or
//! more white-space characters collapse, because the all-space pieces they
//! produce are dropped.

use vstd::prelude::*;
use crate::width::is_space;
use crate::width::is_space_char;

verus! {

/// Whether some character of `t` is not white space.
pub open spec fn has_nonspace(t: Seq<char>) -> bool {
    exists|k: int| 0 <= k < t.len() && !is_space(t[k])
}

/// One past the position of the first white-space character of `text`, or
/// the length of `text` if there is none: the end of its first piece.
pub open spec fn token_end(text: Seq<char>) -> nat
    decreases text.len(),
{
    if text.len() == 0 {
        0
    } else if is_space(text[0]) {
        1
    } else {
        1 + token_end(text.skip(1))
    }
}

/// Position and content facts about the first piece of `text`.
pub proof fn lemma_token_end_props(text: Seq<char>)
    ensures
        text.len() == 0 ==> token_end(text) == 0,
        text.len() >= 1 ==> 1 <= token_end(text) <= text.len(),
        forall|k: int| 0 <= k < token_end(text) - 1 ==> !is_space(text[k]),
        text.len() >= 1 && token_end(text) < text.len() ==> is_space(
            text[token_end(text) as int - 1],
        ),
    decreases text.len(),
{
    if text.len() >= 1 && !is_space(text[0]) {
        lemma_token_end_props(text.skip(1));
        assert forall|k: int| 0 <= k < token_end(text) - 1 implies !is_space(text[k]) by {
            if k >= 1 {
                assert(text.skip(1)[k - 1] == text[k]);
            }
        }
        if token_end(text) < text.len() {
            assert(text.skip(1)[token_end(text) as int - 2] == text[token_end(text) as int - 1]);
        }
    }
}

/// If the first white-space character of `text` stands at position `j`, the
/// first piece ends just after it.
pub proof fn lemma_token_end_at(text: Seq<char>, j: int)
    requires
        0 <= j < text.len(),
        is_space(text[j]),
        forall|k: int| 0 <= k < j ==> !is_space(text[k]),
    ensures
        token_end(text) == j + 1,
    decreases j,
{
    if j > 0 {
        assert(!is_space(text[0]));
        assert(text.skip(1)[j - 1] == text[j]);
        assert forall|k: int| 0 <= k < j - 1 implies !is_space(text.skip(1)[k]) by {
            assert(text.skip(1)[k] == text[k + 1]);
        }
        lemma_token_end_at(text.skip(1), j - 1);
    }
}

/// If `text` holds no white space at all, it is one single piece.
pub proof fn lemma_token_end_all_nonspace(text: Seq<char>)
    requires
        forall|k: int| 0 <= k < text.len() ==> !is_space(text[k]),
    ensures
        token_end(text) == text.len(),
    decreases text.len(),
{
    if text.len() > 0 {
        assert forall|k: int| 0 <= k < text.skip(1).len() implies !is_space(text.skip(1)[k]) by {
            assert(text.skip(1)[k] == text[k + 1]);
        }
        lemma_token_end_all_nonspace(text.skip(1));
    }
}

/// The tokens of a paragraph: the pieces delimited by cuts after every
/// white-space character, keeping those that contain a non-space character.
pub open spec fn tokens_of(text: Seq<char>) -> Seq<Seq<char>>
    decreases text.len(),
    via tokens_of_dec
{
    if text.len() == 0 {
        Seq::empty()
    } else {
        let e = token_end(text) as int;
        let tok = text.take(e);
        let rest = tokens_of(text.skip(e));
        if has_nonspace(tok) {
            seq![tok] + rest
        } else {
            rest
        }
    }
}

#[via_fn]
proof fn tokens_of_dec(text: Seq<char>) {
    lemma_token_end_props(text);
}

/// A token as the tokenizer produces it: non-empty, white space at most in
/// its final position, and holding at least one non-space character.
pub open spec fn wf_token(t: Seq<char>) -> bool {
    &&& t.len() >= 1
    &&& !is_space(t[0])
    &&& forall|k: int| 0 <= k < t.len() - 1 ==> !is_space(t[k])
}

/// A well-formed token sequence: every token is well formed and every token
/// but the last ends with its single white-space character.
pub open spec fn wf_tokens(ts: Seq<Seq<char>>) -> bool {
    &&& forall|i: int| 0 <= i < ts.len() ==> wf_token(#[trigger] ts[i])
    &&& forall|i: int| 0 <= i < ts.len() - 1 ==> is_space(#[trigger] ts[i].last())
}

/// The tokenizer only produces well-formed token sequences.
pub proof fn lemma_tokens_wf(text: Seq<char>)
    ensures
        wf_tokens(tokens_of(text)),
    decreases text.len(),
{
    if text.len() > 0 {
        lemma_token_end_props(text);
        let e = token_end(text) as int;
        let tok = text.take(e);
        let rest = tokens_of(text.skip(e));
        lemma_tokens_wf(text.skip(e));
        if has_nonspace(tok) {
            let k = choose|k: int| 0 <= k < tok.len() && !is_space(tok[k]);
            assert(wf_token(tok)) by {
                if is_space(tok[0]) {
                    assert(e == 1) by {
                        lemma_token_end_at(text, 0);
                    }
                    assert(k == 0);
                }
            }
            let ts = seq![tok] + rest;
            assert forall|i: int| 0 <= i < ts.len() implies wf_token(ts[i]) by {
                if i > 0 {
                    assert(ts[i] == rest[i - 1]);
                }
            }
            assert forall|i: int| 0 <= i < ts.len() - 1 implies is_space(ts[i].last()) by {
                if i == 0 {
                    assert(rest.len() > 0);
                    assert(text.skip(e).len() > 0);
                    assert(e < text.len());
                    assert(is_space(text[e - 1]));
                    assert(tok.last() == text[e - 1]);
                } else {
                    assert(ts[i] == rest[i - 1]);
                }
            }
        }
    }
}

/// Index-wise description of the deep view of a vector of token vectors.
pub proof fn lemma_vec2_deep(v: &Vec<Vec<char>>)
    ensures
        v.deep_view().len() == v@.len(),
        forall|i: int| 0 <= i < v@.len() ==> v.deep_view()[i] == v@[i]@,
{
}

/// Index-wise description of the deep view of a vector of lines.
pub proof fn lemma_vec3_deep(v: &Vec<Vec<Vec<char>>>)
    ensures
        v.deep_view().len() == v@.len(),
        forall|i: int| 0 <= i < v@.len() ==> v.deep_view()[i] == v@[i].deep_view(),
{
}

/// Splits a newline-free paragraph into its tokens, each a word plus at most
/// one trailing white-space character; runs of white space collapse.
pub fn split_into_words(text: &Vec<char>) -> (r: Vec<Vec<char>>)
    ensures
        r.deep_view() == tokens_of(text@),
{
    let mut out: Vec<Vec<char>> = Vec::new();
    let mut cur: Vec<char> = Vec::new();
    let mut has_ns: bool = false;
    let ghost mut s: int = 0;
    let mut i: usize = 0;
    proof {
        assert(text@.skip(0) =~= text@);
        assert(out.deep_view() =~= Seq::<Seq<char>>::empty());
        assert(tokens_of(text@) =~= out.deep_view() + tokens_of(text@.skip(0)));
    }
    while i < text.len()
        invariant
            0 <= s <= i <= text@.len(),
            cur@ == text@.subrange(s, i as int),
            forall|k: int| 0 <= k < cur@.len() ==> !is_space(cur@[k]),
            has_ns == has_nonspace(cur@),
            tokens_of(text@) == out.deep_view() + tokens_of(text@.skip(s)),
        decreases text@.len() - i,
    {
        let c = text[i];
        proof {
            assert(text@.subrange(s, i + 1) =~= cur@.push(text@[i as int]));
        }
        if is_space_char(c) {
            cur.push(c);
            let ghost tail = text@.skip(s);
            proof {
                assert forall|k: int| 0 <= k < i - s implies !is_space(tail[k]) by {
                    assert(tail[k] == text@[s + k]);
                    assert(text@.subrange(s, i as int)[k] == text@[s + k]);
                }
                assert(tail[i - s] == text@[i as int]);
                lemma_token_end_at(tail, i - s);
                assert(tail.take(i + 1 - s) =~= text@.subrange(s, i + 1));
                assert(tail.skip(i + 1 - s) =~= text@.skip(i + 1));
                // the new piece ends here; it is kept exactly when it has a
                // non-space character
                assert(has_nonspace(cur@) == has_ns) by {
                    if has_nonspace(cur@) {
                        let k = choose|k: int|
                            0 <= k < cur@.len() && !is_space(cur@[k]);
                        assert(k < cur@.len() - 1 || k == cur@.len() - 1);
                        assert(cur@[k] == text@.subrange(s, i + 1)[k]);
                        if k == cur@.len() - 1 {
                            assert(is_space(cur@[k]));
                        }
                        assert(has_nonspace(text@.subrange(s, i as int)));
                    }
                    if has_ns {
                        let k = choose|k: int|
                            0 <= k < i - s && !is_space(text@.subrange(s, i as int)[k]);
                        assert(cur@[k] == text@.subrange(s, i as int)[k]);
                    }
                }
            }
            if has_ns {
                let ghost old_deep = out.deep_view();
                out.push(cur);
                proof {
                    lemma_vec2_deep(&out);
                    assert(out.deep_view() =~= old_deep.push(text@.subrange(s, i + 1)));
                    assert(tokens_of(text@) =~= out.deep_view() + tokens_of(text@.skip(i + 1)));
                }
            } else {
                proof {
                    assert(tokens_of(text@) =~= out.deep_view() + tokens_of(text@.skip(i + 1)));
                }
            }
            cur = Vec::new();
            has_ns = false;
            proof {
                s = i + 1;
            }
        } else {
            cur.push(c);
            proof {
                assert(!is_space(cur@[cur@.len() - 1]));
            }
            has_ns = true;
        }
        i = i + 1;
    }
    proof {
        let tail = text@.skip(s);
        if s < text@.len() {
            assert forall|k: int| 0 <= k < tail.len() implies !is_space(tail[k]) by {
                assert(tail[k] == text@[s + k]);
                assert(text@.subrange(s, i as int)[k] == text@[s + k]);
            }
            lemma_token_end_all_nonspace(tail);
            assert(tail.take(tail.len() as int) =~= tail);
            assert(tail.skip(tail.len() as int) =~= Seq::<char>::empty());
            assert(tail == cur@) by {
                assert(tail =~= text@.subrange(s, i as int));
            }
            assert(has_nonspace(tail)) by {
                assert(!is_space(tail[0]));
            }
            assert(has_ns);
            let e = token_end(tail) as int;
            assert(e == tail.len());
            assert(tail.take(e) =~= tail);
            assert(tail.skip(e) =~= Seq::<char>::empty());
            assert(tokens_of(tail.skip(e)) =~= Seq::<Seq<char>>::empty());
            assert(tokens_of(tail) == seq![tail.take(e)] + tokens_of(tail.skip(e)));
            assert(tokens_of(tail) =~= seq![tail]);
        }
    }
    if has_ns {
        let ghost old_deep = out.deep_view();
        out.push(cur);
        proof {
            lemma_vec2_deep(&out);
            assert(out.deep_view() =~= old_deep.push(text@.skip(s)));
            assert(old_deep.push(text@.skip(s)) =~= old_deep + seq![text@.skip(s)]);
            assert(tokens_of(text@) =~= out.deep_view());
        }
    } else {
        proof {
            assert(s == text@.len());
            assert(tokens_of(text@.skip(s)) =~= Seq::<Seq<char>>::empty());
            assert(tokens_of(text@) =~= out.deep_view());
        }
    }
    out
}

} // verus!
