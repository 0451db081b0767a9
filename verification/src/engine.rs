//! The justification entry points: one paragraph, and a whole document.

use vstd::prelude::*;
use crate::breaks::break_idxs;
use crate::breaks::lines_of;
use crate::breaks::pad_of;
use crate::distribute::distributed;
use crate::hyphen::hyph_doc;
use crate::settings::JustifyError;
use crate::settings::Placer;
use crate::settings::Settings;
use crate::strconv::chars_vec;
use crate::strconv::string_from_chars;
use crate::textops::join_sep;
use crate::textops::split_seq;
use crate::tokenize::has_nonspace;
use crate::tokenize::lemma_vec2_deep;
use crate::tokenize::lemma_vec3_deep;
use crate::tokenize::tokens_of;
use crate::width::byte_len;

verus! {

/// The emitted form of one line: the paragraph's last line is the bare
/// concatenation of its tokens unless the last line is justified too; when
/// spaces are ignored the tokens are joined with single spaces; otherwise
/// the line's padding is distributed over its gaps.
pub open spec fn emitted_line<P: Placer>(
    line: Seq<Seq<char>>,
    is_last: bool,
    s: Settings<P>,
) -> Seq<char> {
    if is_last && !s.justify_last_line {
        join_sep(line, Seq::empty())
    } else if s.ignore_spaces {
        join_sep(line, seq![' '])
    } else {
        distributed(s.insert_at, pad_of(line, s.width as nat, s.wcwidth), line)
    }
}

/// The emitted lines of one paragraph: its tokens are split into lines at
/// the break positions, and each line is emitted by `emitted_line`.
pub open spec fn paragraph_lines<P: Placer>(text: Seq<char>, s: Settings<P>) -> Seq<Seq<char>> {
    let words = tokens_of(text);
    let lines = lines_of(words, break_idxs(words, s.width as nat, s.wcwidth));
    Seq::new(lines.len(), |k: int| emitted_line(lines[k], k == lines.len() - 1, s))
}

/// A justified paragraph: its emitted lines joined with the newline string,
/// with nothing after the final line.
pub open spec fn paragraph_out<P: Placer>(text: Seq<char>, s: Settings<P>) -> Seq<char> {
    join_sep(paragraph_lines(text, s), s.newline@)
}

/// Settings under which the hyphenator has room to work: when hyphenation
/// is requested, the hyphen string must be narrower than the target width.
pub open spec fn wf_settings<P>(s: Settings<P>) -> bool {
    s.hyphenate_overflow ==> byte_len(s.hyphen@) < s.width as nat
}

/// The text the document splitter works on: the hyphenated text when the
/// hyphenation pass is on, the input itself otherwise.
pub open spec fn doc_source<P: Placer>(text: Seq<char>, s: Settings<P>) -> Seq<char> {
    if s.hyphenate_overflow {
        hyph_doc(text, s)
    } else {
        text
    }
}

/// The segments that survive the paragraph split: those holding at least
/// one non-space character, in their original order.
pub open spec fn kept_paras(segs: Seq<Seq<char>>) -> Seq<Seq<char>>
    decreases segs.len(),
{
    if segs.len() == 0 {
        Seq::empty()
    } else if has_nonspace(segs.last()) {
        kept_paras(segs.drop_last()).push(segs.last())
    } else {
        kept_paras(segs.drop_last())
    }
}

/// What `kept_paras` makes of a prefix is a prefix of what it makes of the
/// whole.
pub proof fn lemma_kept_prefix(segs: Seq<Seq<char>>, k: int)
    requires
        0 <= k <= segs.len(),
    ensures
        kept_paras(segs.take(k)).len() <= kept_paras(segs).len(),
        kept_paras(segs.take(k)) == kept_paras(segs).take(kept_paras(segs.take(k)).len() as int),
    decreases segs.len() - k,
{
    if k == segs.len() {
        assert(segs.take(k) =~= segs);
        assert(kept_paras(segs).take(kept_paras(segs).len() as int) =~= kept_paras(segs));
    } else {
        lemma_kept_prefix(segs, k + 1);
        let a = kept_paras(segs.take(k));
        let a1 = kept_paras(segs.take(k + 1));
        let b = kept_paras(segs);
        assert(segs.take(k + 1).drop_last() =~= segs.take(k));
        assert(segs.take(k + 1).last() == segs[k]);
        if has_nonspace(segs[k]) {
            assert(a1 == a.push(segs[k]));
        } else {
            assert(a1 == a);
        }
        assert(b.take(a.len() as int) =~= a);
    }
}

/// The paragraphs of the document: the segments of the (possibly
/// hyphenated) text between occurrences of the newline string that hold a
/// non-space character.
pub open spec fn doc_paragraphs<P: Placer>(text: Seq<char>, s: Settings<P>) -> Seq<Seq<char>> {
    kept_paras(split_seq(doc_source(text, s), s.newline@))
}

/// Each paragraph justified, in order.
pub open spec fn paras_out<P: Placer>(paras: Seq<Seq<char>>, s: Settings<P>) -> Seq<Seq<char>>
    decreases paras.len(),
{
    if paras.len() == 0 {
        Seq::empty()
    } else {
        paras_out(paras.drop_last(), s).push(paragraph_out(paras.last(), s))
    }
}

/// `paras_out` justifies exactly the paragraphs it is given, element-wise.
pub proof fn lemma_paras_out_index<P: Placer>(paras: Seq<Seq<char>>, s: Settings<P>)
    ensures
        paras_out(paras, s).len() == paras.len(),
        forall|m: int| 0 <= m < paras.len() ==> #[trigger] paras_out(paras, s)[m] == paragraph_out(
            paras[m],
            s,
        ),
    decreases paras.len(),
{
    if paras.len() > 0 {
        lemma_paras_out_index(paras.drop_last(), s);
    }
}

/// The whole document justified: every kept paragraph justified and the
/// results joined with the separator string.
pub open spec fn justified_doc<P: Placer>(text: Seq<char>, s: Settings<P>) -> Seq<char> {
    join_sep(paras_out(doc_paragraphs(text, s), s), s.separator@)
}

/// Justifies one newline-free paragraph (see `paragraph_out`): its tokens
/// are packed into lines up to the target width and each line except the
/// last is padded to exactly that width.
pub(crate) fn justify_paragraph_chars<P: Placer>(text: &Vec<char>, settings: &Settings<P>) -> (r:
    Vec<char>)
    ensures
        r@ == paragraph_out(text@, *settings),
{
    let ghost toks = tokens_of(text@);
    let words = crate::tokenize::split_into_words(text);
    proof {
        crate::tokenize::lemma_tokens_wf(text@);
        lemma_vec2_deep(&words);
        assert forall|q: int| 0 <= q < words.deep_view().len() implies #[trigger] words.deep_view(
        )[q].len() >= 1 by {
            assert(crate::tokenize::wf_token(toks[q]));
        }
    }
    let breaks = crate::breaks::get_break_indexes(&words, settings);
    let lines = crate::breaks::lines_from_indexes(&words, &breaks);
    let spaces = crate::breaks::spaces_to_add(&lines, settings);
    let newline_chars = chars_vec(settings.newline.as_str());
    let ghost lns = lines_of(toks, break_idxs(toks, settings.width as nat, settings.wcwidth));
    let ghost plines = paragraph_lines(text@, *settings);
    proof {
        lemma_vec3_deep(&lines);
        assert(lines.deep_view() == lns);
        assert(plines.len() == lns.len());
    }
    let empty_sep: Vec<char> = Vec::new();
    let mut space_sep: Vec<char> = Vec::new();
    space_sep.push(' ');
    proof {
        assert(space_sep@ =~= seq![' ']);
    }
    let mut outs: Vec<Vec<char>> = Vec::new();
    let mut k: usize = 0;
    let n_lines = lines.len();
    while k < n_lines
        invariant
            0 <= k <= n_lines,
            n_lines == lines@.len(),
            lines.deep_view() == lns,
            lines@.len() == lns.len(),
            forall|m: int| 0 <= m < lines@.len() ==> lines@[m].deep_view() == lns[m],
            plines == paragraph_lines(text@, *settings),
            plines.len() == lns.len(),
            forall|m: int| 0 <= m < lns.len() ==> #[trigger] plines[m] == emitted_line(
                lns[m],
                m == lns.len() - 1,
                *settings,
            ),
            spaces@.len() == lns.len(),
            forall|m: int| 0 <= m < lns.len() ==> #[trigger] spaces@[m] as nat == pad_of(
                lns[m],
                settings.width as nat,
                settings.wcwidth,
            ),
            empty_sep@ == Seq::<char>::empty(),
            space_sep@ == seq![' '],
            outs@.len() == k,
            forall|m: int| 0 <= m < k ==> #[trigger] outs@[m]@ == plines[m],
        decreases n_lines - k,
    {
        let is_last = k == n_lines - 1;
        let line_out: Vec<char> = if is_last && !settings.justify_last_line {
            crate::textops::join_chars(&lines[k], &empty_sep)
        } else if settings.ignore_spaces {
            crate::textops::join_chars(&lines[k], &space_sep)
        } else {
            crate::distribute::add_spaces(spaces[k], &lines[k], &settings.insert_at)
        };
        proof {
            assert(line_out@ == emitted_line(lns[k as int], is_last, *settings));
        }
        outs.push(line_out);
        k = k + 1;
    }
    let r = crate::textops::join_chars(&outs, &newline_chars);
    proof {
        lemma_vec2_deep(&outs);
        assert(outs.deep_view() =~= plines);
    }
    r
}

/// Justifies a single paragraph. The text must hold no literal newline
/// character: the tokenizer would treat it as ordinary white space and
/// silently collapse it, so such input is rejected as invalid. The check is
/// for the literal character, whatever newline string the settings carry.
pub fn justify_paragraph<P: Placer>(text: &str, settings: &Settings<P>) -> (r: Result<
    String,
    JustifyError,
>)
    ensures
        text@.contains('\n') <==> r is Err,
        r matches Err(e) ==> e == JustifyError::InvalidInput,
        r matches Ok(out) ==> out@ == paragraph_out(text@, *settings),
{
    let chars = chars_vec(text);
    if crate::textops::contains_char(&chars, '\n') {
        return Err(JustifyError::InvalidInput);
    }
    let out = justify_paragraph_chars(&chars, settings);
    Ok(string_from_chars(&out))
}

/// Justifies a whole document (see `justified_doc`): the hyphenation pass
/// runs first when enabled; when spaces are ignored its result is the whole
/// answer; otherwise the text splits into paragraphs on the newline string,
/// all-white-space segments are dropped, each paragraph is justified, and
/// the results are joined with the separator string. Hyphenation with a
/// hyphen string at least as wide as the target is rejected, as the chunks
/// would have no room; a paragraph holding a literal newline is rejected as
/// invalid input.
pub fn justify<P: Placer>(text: &str, settings: &Settings<P>) -> (r: Result<String, JustifyError>)
    ensures
        !wf_settings(*settings) <==> r == Err::<String, JustifyError>(JustifyError::InvalidSettings),
        wf_settings(*settings) && settings.ignore_spaces ==> (r matches Ok(out) && out@ == (
        if settings.hyphenate_overflow {
            hyph_doc(text@, *settings)
        } else {
            Seq::<char>::empty()
        })),
        wf_settings(*settings) && !settings.ignore_spaces ==> ((exists|k: int|
            0 <= k < doc_paragraphs(text@, *settings).len() && (#[trigger] doc_paragraphs(
                text@,
                *settings,
            )[k]).contains('\n')) ==> r == Err::<String, JustifyError>(JustifyError::InvalidInput)),
        wf_settings(*settings) && !settings.ignore_spaces ==> ((forall|k: int|
            0 <= k < doc_paragraphs(text@, *settings).len() ==> !(#[trigger] doc_paragraphs(
                text@,
                *settings,
            )[k]).contains('\n')) ==> (r matches Ok(out) && out@ == justified_doc(
            text@,
            *settings,
        ))),
{
    let chars = chars_vec(text);
    let hyphen_chars = chars_vec(settings.hyphen.as_str());
    if settings.hyphenate_overflow {
        let hb = crate::width::width_of_chars(&hyphen_chars, false);
        if hb >= settings.width as u128 {
            return Err(JustifyError::InvalidSettings);
        }
    }
    let source: Vec<char> = if settings.hyphenate_overflow {
        crate::hyphen::hyphenate_overflow(&chars, settings)
    } else {
        chars
    };
    if settings.ignore_spaces {
        if settings.hyphenate_overflow {
            return Ok(string_from_chars(&source));
        } else {
            return Ok(String::new());
        }
    }
    let newline_chars = chars_vec(settings.newline.as_str());
    let separator_chars = chars_vec(settings.separator.as_str());
    let segs = crate::textops::split_chars(&source, &newline_chars);
    let ghost sdv = segs.deep_view();
    let ghost paras = doc_paragraphs(text@, *settings);
    proof {
        lemma_vec2_deep(&segs);
        assert(source@ == doc_source(text@, *settings));
        assert(paras == kept_paras(sdv));
    }
    let mut outs: Vec<Vec<char>> = Vec::new();
    let mut count: usize = 0;
    let mut k: usize = 0;
    proof {
        assert(sdv.take(0) =~= Seq::<Seq<char>>::empty());
        assert(kept_paras(sdv.take(0)) =~= Seq::<Seq<char>>::empty());
    }
    while k < segs.len()
        invariant
            0 <= k <= segs@.len(),
            sdv == segs.deep_view(),
            sdv.len() == segs@.len(),
            forall|m: int| 0 <= m < segs@.len() ==> segs@[m]@ == sdv[m],
            paras == kept_paras(sdv),
            paras == doc_paragraphs(text@, *settings),
            wf_settings(*settings),
            !settings.ignore_spaces,
            count == outs@.len(),
            count <= k,
            kept_paras(sdv.take(k as int)) == paras.take(count as int),
            count <= paras.len(),
            forall|m: int| 0 <= m < count ==> !(#[trigger] paras[m]).contains('\n'),
            forall|m: int| 0 <= m < count ==> #[trigger] outs@[m]@ == paragraph_out(
                paras[m],
                *settings,
            ),
        decreases segs@.len() - k,
    {
        proof {
            assert(sdv.take(k + 1).drop_last() =~= sdv.take(k as int));
            assert(sdv.take(k + 1).last() == sdv[k as int]);
            lemma_kept_prefix(sdv, k + 1);
        }
        if crate::textops::has_nonspace_chars(&segs[k]) {
            proof {
                assert(kept_paras(sdv.take(k + 1)) == kept_paras(sdv.take(k as int)).push(
                    sdv[k as int],
                ));
                assert(kept_paras(sdv.take(k + 1)).len() == count + 1);
                assert(count + 1 <= paras.len());
                assert(kept_paras(sdv.take(k + 1)) == paras.take(count + 1));
                assert(paras.take(count + 1)[count as int] == paras[count as int]);
                assert(kept_paras(sdv.take(k as int)).push(sdv[k as int])[count as int] == sdv[
                    k as int]);
                assert(paras[count as int] == sdv[k as int]);
            }
            if crate::textops::contains_char(&segs[k], '\n') {
                proof {
                    assert(paras[count as int].contains('\n'));
                    assert(doc_paragraphs(text@, *settings)[count as int].contains('\n'));
                }
                return Err(JustifyError::InvalidInput);
            }
            let out = justify_paragraph_chars(&segs[k], settings);
            outs.push(out);
            count = count + 1;
        } else {
            proof {
                assert(kept_paras(sdv.take(k + 1)) == kept_paras(sdv.take(k as int)));
            }
        }
        k = k + 1;
    }
    proof {
        assert(sdv.take(segs@.len() as int) =~= sdv);
        assert(count == paras.len());
    }
    let joined = crate::textops::join_chars(&outs, &separator_chars);
    proof {
        lemma_vec2_deep(&outs);
        lemma_paras_out_index(paras, *settings);
        assert(outs.deep_view() =~= paras_out(paras, *settings));
    }
    Ok(string_from_chars(&joined))
}

} // verus!
