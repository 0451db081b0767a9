//! Laws of the justifier, stated and proved over the same specifications
//! that the executable functions are verified against.

use vstd::prelude::*;
use crate::breaks::break_idxs;
use crate::breaks::breaks_from;
use crate::breaks::lines_of;
use crate::breaks::pad_of;
use crate::distribute::counts_of;
use crate::distribute::distributed;
use crate::distribute::gap_count;
use crate::distribute::join_counts_from;
use crate::distribute::spaces_seq;
use crate::distribute::unit_gap;
use crate::engine::doc_paragraphs;
use crate::engine::emitted_line;
use crate::engine::justified_doc;
use crate::engine::kept_paras;
use crate::hyphen::core_of;
use crate::hyphen::ws_units;
use crate::engine::paragraph_lines;
use crate::engine::paragraph_out;
use crate::settings::Placer;
use crate::settings::Settings;
use crate::textops::find_from;
use crate::textops::join_sep;
use crate::textops::split_seq;
use crate::tokenize::has_nonspace;
use crate::tokenize::token_end;
use crate::tokenize::tokens_of;
use crate::tokenize::wf_token;
use crate::width::byte_len;
use crate::width::char_w;
use crate::width::is_space;
use crate::width::line_w;
use crate::width::seq_w;

verus! {

/// Any run of two or more white-space characters between words collapses:
/// every token the tokenizer emits is non-empty and carries white space in
/// its final position at most, so at most one white-space character stands
/// between consecutive words of the output.
pub proof fn lemma_whitespace_collapsing(text: Seq<char>)
    ensures
        forall|i: int| 0 <= i < tokens_of(text).len() ==> wf_token(#[trigger] tokens_of(text)[i]),
{
    crate::tokenize::lemma_tokens_wf(text);
}

/// Width of the tokens from position `i` on.
pub open spec fn line_w_from(words: Seq<Seq<char>>, wc: bool, i: int) -> nat
    decreases words.len() - i,
{
    if i < 0 || i >= words.len() {
        0
    } else {
        seq_w(words[i], wc) + line_w_from(words, wc, i + 1)
    }
}

/// A token sequence that fits the target width in total is never broken.
proof fn lemma_no_breaks(words: Seq<Seq<char>>, width: nat, wc: bool, i: int, n: nat)
    requires
        0 <= i,
        n + line_w_from(words, wc, i) <= width,
    ensures
        breaks_from(words, width, wc, i, n) == Seq::<int>::empty(),
    decreases words.len() - i,
{
    if 0 <= i < words.len() {
        let t = words[i];
        if t.len() == 0 {
            lemma_no_breaks(words, width, wc, i + 1, n);
        } else {
            let c = n + seq_w(t, wc);
            assert(c - (if is_space(t.last()) {
                1int
            } else {
                0int
            }) <= width);
            lemma_no_breaks(words, width, wc, i + 1, c);
        }
    }
}

/// A paragraph that fits the target width as a whole comes back as its
/// tokens concatenated: interior white space collapsed, and no padding
/// inserted anywhere.
pub proof fn lemma_short_paragraph_unpadded<P: Placer>(text: Seq<char>, s: Settings<P>)
    requires
        !s.justify_last_line,
        line_w(tokens_of(text), s.wcwidth) <= s.width as nat,
    ensures
        paragraph_out(text, s) == join_sep(tokens_of(text), Seq::empty()),
{
    let words = tokens_of(text);
    assert forall|i: int| 0 <= i <= words.len() implies line_w_from(words, s.wcwidth, i) <= line_w(
        words,
        s.wcwidth,
    ) by {
        lemma_line_w_from_le(words, s.wcwidth, i);
    }
    lemma_line_w_from_eq(words, s.wcwidth, 0);
    lemma_no_breaks(words, s.width as nat, s.wcwidth, 0, 0);
    let bs = break_idxs(words, s.width as nat, s.wcwidth);
    assert(bs =~= seq![0int]);
    let lns = lines_of(words, bs);
    assert(lns.len() == 1);
    assert(lns[0] =~= words);
    let plines = paragraph_lines(text, s);
    assert(plines.len() == 1);
    assert(plines[0] == join_sep(words, Seq::empty()));
    assert(paragraph_out(text, s) == join_sep(plines, s.newline@));
    assert(join_sep(plines, s.newline@) == plines[0]);
}

/// The suffix widths never exceed the whole line's width.
proof fn lemma_line_w_from_le(words: Seq<Seq<char>>, wc: bool, i: int)
    requires
        0 <= i <= words.len(),
    ensures
        line_w_from(words, wc, i) <= line_w(words, wc),
    decreases i,
{
    if i == 0 {
        lemma_line_w_from_eq(words, wc, 0);
        assert(words.skip(0) =~= words);
    } else {
        lemma_line_w_from_le(words, wc, i - 1);
        assert(line_w_from(words, wc, i - 1) == seq_w(words[i - 1], wc) + line_w_from(
            words,
            wc,
            i,
        ));
    }
}

/// The suffix width from a position equals the width of the skipped line.
proof fn lemma_line_w_from_eq(words: Seq<Seq<char>>, wc: bool, i: int)
    requires
        0 <= i <= words.len(),
    ensures
        line_w_from(words, wc, i) == line_w(words.skip(i), wc),
    decreases words.len() - i,
{
    if i < words.len() {
        lemma_line_w_from_eq(words, wc, i + 1);
        assert(words.skip(i)[0] == words[i]);
        assert(words.skip(i).drop_first() =~= words.skip(i + 1));
    }
}


/// Byte widths of the tokens in positions `[a, b)`.
pub open spec fn sum_bytes(words: Seq<Seq<char>>, a: int, b: int) -> nat
    decreases b - a,
{
    if a < 0 || a >= b {
        0
    } else {
        byte_len(words[a]) + sum_bytes(words, a + 1, b)
    }
}

/// Extending the range by one token on the right adds that token's bytes.
proof fn lemma_sum_bytes_snoc(words: Seq<Seq<char>>, a: int, b: int)
    requires
        0 <= a <= b,
    ensures
        sum_bytes(words, a, b + 1) == sum_bytes(words, a, b) + byte_len(words[b]),
    decreases b - a,
{
    if a < b {
        lemma_sum_bytes_snoc(words, a + 1, b);
    } else {
        assert(sum_bytes(words, a, a + 1) == byte_len(words[a]) + sum_bytes(words, a + 1, a + 1));
    }
}

/// The byte width of a cut-out line is the byte sum over its token range.
proof fn lemma_subrange_bytes(words: Seq<Seq<char>>, a: int, b: int)
    requires
        0 <= a <= b <= words.len(),
    ensures
        line_w(words.subrange(a, b), false) == sum_bytes(words, a, b),
    decreases b - a,
{
    if a < b {
        lemma_subrange_bytes(words, a + 1, b);
        assert(words.subrange(a, b)[0] == words[a]);
        assert(words.subrange(a, b).drop_first() =~= words.subrange(a + 1, b));
    }
}

/// Every line the breaker closes holds at most one unit more than the
/// target width in bytes: the unit its final token's trailing white-space
/// character accounts for.
proof fn lemma_breaks_fit(words: Seq<Seq<char>>, width: nat, b: int, i: int, n: nat)
    requires
        forall|j: int| 0 <= j < words.len() ==> (#[trigger] words[j]).len() >= 1,
        forall|j: int| 0 <= j < words.len() - 1 ==> is_space(#[trigger] words[j].last()),
        forall|j: int| 0 <= j < words.len() - 1 ==> byte_len(#[trigger] words[j]) <= width + 1,
        0 <= b <= i <= words.len(),
        n == sum_bytes(words, b, i),
        i - b >= 2 ==> n <= width + 1,
    ensures
        ({
            let full = seq![b] + breaks_from(words, width, false, i, n);
            forall|k: int|
                0 <= k < full.len() - 1 ==> sum_bytes(words, #[trigger] full[k], full[k + 1])
                    <= width + 1
        }),
    decreases words.len() - i,
{
    let full = seq![b] + breaks_from(words, width, false, i, n);
    if i < words.len() {
        let t = words[i];
        assert(t.len() >= 1);
        let c = n + seq_w(t, false);
        let adj: int = if is_space(t.last()) {
            1int
        } else {
            0int
        };
        if c - adj > width {
            let nb = byte_len(t);
            assert(nb == sum_bytes(words, i, i + 1)) by {
                lemma_sum_bytes_snoc(words, i, i);
            }
            if i > 0 {
                lemma_breaks_fit(words, width, i, i + 1, nb);
                let sub = seq![i] + breaks_from(words, width, false, i + 1, nb);
                assert(full =~= seq![b] + seq![i] + breaks_from(words, width, false, i + 1, nb));
                assert forall|k: int|
                    0 <= k < full.len() - 1 implies sum_bytes(words, #[trigger] full[k], full[k + 1])
                        <= width + 1 by {
                    if k == 0 {
                        assert(full[0] == b);
                        assert(full[1] == i);
                        if i - b >= 2 {
                        } else if i - b == 1 {
                            assert(sum_bytes(words, b, i) == byte_len(words[b]) + sum_bytes(
                                words,
                                b + 1,
                                i,
                            ));
                            assert(b < words.len() - 1);
                        }
                    } else {
                        assert(full[k] == sub[k - 1]);
                        assert(full[k + 1] == sub[k]);
                        assert(sum_bytes(words, sub[k - 1], sub[k]) <= width + 1);
                    }
                }
            } else {
                assert(b == 0);
                lemma_breaks_fit(words, width, 0, 1, nb);
                assert(breaks_from(words, width, false, 0, n) == Seq::<int>::empty()
                    + breaks_from(words, width, false, 1, nb));
                assert(full =~= seq![0int] + breaks_from(words, width, false, 1, nb));
            }
        } else {
            assert(sum_bytes(words, b, i + 1) == sum_bytes(words, b, i) + byte_len(words[i])) by {
                lemma_sum_bytes_snoc(words, b, i);
            }
            assert(c <= width + 1);
            lemma_breaks_fit(words, width, b, i + 1, c);
            assert(breaks_from(words, width, false, i, n) == breaks_from(
                words,
                width,
                false,
                i + 1,
                c,
            ));
            assert(full =~= seq![b] + breaks_from(words, width, false, i + 1, c));
        }
    }
}

/// The spaces each gap receives, summed over the gaps from `g` up.
pub open spec fn gap_total<P: Placer>(
    ia: crate::settings::InsertAt<P>,
    k: nat,
    total: nat,
    gaps: nat,
    line: Seq<Seq<char>>,
    g: int,
) -> nat
    decreases gaps - g,
{
    if g < 0 || g >= gaps {
        0
    } else {
        gap_count(ia, k, total, gaps, line, g as nat) + gap_total(ia, k, total, gaps, line, g + 1)
    }
}

/// Before any unit is placed, every gap is empty.
proof fn lemma_gap_total_zero<P: Placer>(
    ia: crate::settings::InsertAt<P>,
    total: nat,
    gaps: nat,
    line: Seq<Seq<char>>,
    g: int,
)
    ensures
        gap_total(ia, 0, total, gaps, line, g) == 0,
    decreases gaps - g,
{
    if 0 <= g < gaps {
        lemma_gap_total_zero(ia, total, gaps, line, g + 1);
    }
}

/// Placing one more unit raises the total of the gaps from `g` up by one
/// exactly when the unit's gap lies in that range.
proof fn lemma_gap_total_step<P: Placer>(
    ia: crate::settings::InsertAt<P>,
    k: nat,
    total: nat,
    gaps: nat,
    line: Seq<Seq<char>>,
    g: int,
)
    requires
        k >= 1,
        0 <= g,
    ensures
        gap_total(ia, k, total, gaps, line, g) == gap_total(ia, (k - 1) as nat, total, gaps, line, g)
            + (if g <= unit_gap(ia, (k - 1) as nat, total, gaps, line) < gaps {
            1nat
        } else {
            0nat
        }),
    decreases gaps - g,
{
    if 0 <= g < gaps {
        lemma_gap_total_step(ia, k, total, gaps, line, g + 1);
        assert(gap_count(ia, k, total, gaps, line, g as nat) == gap_count(
            ia,
            (k - 1) as nat,
            total,
            gaps,
            line,
            g as nat,
        ) + (if unit_gap(ia, (k - 1) as nat, total, gaps, line) == g as nat {
            1nat
        } else {
            0nat
        }));
    }
}

/// All `k` units placed so far lie in some gap: the gap totals sum to `k`.
proof fn lemma_gap_total_all<P: Placer>(
    ia: crate::settings::InsertAt<P>,
    k: nat,
    total: nat,
    gaps: nat,
    line: Seq<Seq<char>>,
)
    requires
        gaps >= 1,
    ensures
        gap_total(ia, k, total, gaps, line, 0) == k,
    decreases k,
{
    if k == 0 {
        lemma_gap_total_zero(ia, total, gaps, line, 0);
    } else {
        lemma_gap_total_all(ia, (k - 1) as nat, total, gaps, line);
        crate::distribute::lemma_unit_gap_in_range(ia, (k - 1) as nat, total, gaps, line);
        lemma_gap_total_step(ia, k, total, gaps, line, 0);
    }
}

/// The per-gap space counts in positions `[k, hi)`, summed.
pub open spec fn counts_sum_from(counts: Seq<nat>, k: int, hi: int) -> nat
    decreases hi - k,
{
    if k < 0 || k >= hi {
        0
    } else {
        counts[k] + counts_sum_from(counts, k + 1, hi)
    }
}

/// Summing the distributed counts over a tail of the gaps matches the gap
/// totals.
proof fn lemma_counts_sum_is_gap_total<P: Placer>(
    ia: crate::settings::InsertAt<P>,
    add: nat,
    gaps: nat,
    line: Seq<Seq<char>>,
    g: int,
)
    ensures
        counts_sum_from(counts_of(ia, add, gaps, line), g, gaps as int) == gap_total(
            ia,
            add,
            add,
            gaps,
            line,
            g,
        ),
    decreases gaps - g,
{
    if 0 <= g < gaps {
        lemma_counts_sum_is_gap_total(ia, add, gaps, line, g + 1);
    }
}

/// A run of spaces is as many bytes long as it has spaces.
proof fn lemma_spaces_bytes(n: nat)
    ensures
        byte_len(spaces_seq(n)) == n,
    decreases n,
{
    if n > 0 {
        assert(spaces_seq(n)[0] == ' ');
        assert(spaces_seq(n).drop_first() =~= spaces_seq((n - 1) as nat));
        lemma_spaces_bytes((n - 1) as nat);
    }
}

/// The byte length of a line joined with its gap spaces: the tokens' bytes
/// plus one byte per inserted space.
#[verifier::rlimit(50)]
#[verifier::spinoff_prover]
proof fn lemma_join_counts_bytes(line: Seq<Seq<char>>, counts: Seq<nat>, k: int)
    requires
        0 <= k,
    ensures
        byte_len(join_counts_from(line, counts, k)) == line_w_from(line, false, k)
            + counts_sum_from(counts, k, line.len() - 1),
    decreases line.len() - k,
{
    if k >= line.len() {
    } else if k == line.len() - 1 {
        assert(join_counts_from(line, counts, k) == line[k]);
    } else {
        lemma_join_counts_bytes(line, counts, k + 1);
        assert(join_counts_from(line, counts, k) == line[k] + spaces_seq(counts[k])
            + join_counts_from(line, counts, k + 1));
        crate::width::lemma_seq_w_concat(line[k] + spaces_seq(counts[k]), join_counts_from(
            line,
            counts,
            k + 1,
        ), false);
        crate::width::lemma_seq_w_concat(line[k], spaces_seq(counts[k]), false);
        lemma_spaces_bytes(counts[k]);
        assert(line_w_from(line, false, k) == seq_w(line[k], false) + line_w_from(
            line,
            false,
            k + 1,
        ));
        assert(counts_sum_from(counts, k, line.len() - 1) == counts[k] + counts_sum_from(
            counts,
            k + 1,
            line.len() - 1,
        ));
    }
}

/// With spaces honoured and the last line left alone, every fully packed
/// line of a paragraph comes out at most the target width in bytes, and at
/// exactly the target width whenever it holds at least two tokens — given
/// that width is measured in bytes and no single token is wider than the
/// target (its trailing white-space character not counting).
pub proof fn lemma_full_lines_width<P: Placer>(text: Seq<char>, s: Settings<P>)
    requires
        !s.ignore_spaces,
        !s.justify_last_line,
        !s.wcwidth,
        forall|j: int|
            0 <= j < tokens_of(text).len() ==> byte_len(#[trigger] tokens_of(text)[j]) <= s.width
                as nat + (if is_space(tokens_of(text)[j].last()) {
                1nat
            } else {
                0nat
            }),
    ensures
        forall|k: int|
            0 <= k < paragraph_lines(text, s).len() - 1 ==> byte_len(
                #[trigger] paragraph_lines(text, s)[k],
            ) <= s.width as nat,
        forall|k: int|
            0 <= k < paragraph_lines(text, s).len() - 1 && lines_of(
                tokens_of(text),
                break_idxs(tokens_of(text), s.width as nat, false),
            )[k].len() >= 2 ==> byte_len(#[trigger] paragraph_lines(text, s)[k]) == s.width as nat,
{
    let words = tokens_of(text);
    let wd = s.width as nat;
    crate::tokenize::lemma_tokens_wf(text);
    crate::breaks::lemma_break_idxs_wf(words, wd, false);
    let bs = break_idxs(words, wd, false);
    let lns = lines_of(words, bs);
    let plines = paragraph_lines(text, s);
    assert forall|j: int| 0 <= j < words.len() - 1 implies byte_len(#[trigger] words[j]) <= wd
        + 1 by {
        assert(is_space(words[j].last()));
    }
    lemma_breaks_fit(words, wd, 0, 0, 0);
    assert(bs == seq![0int] + breaks_from(words, wd, false, 0, 0));
    assert forall|k: int| 0 <= k < plines.len() - 1 implies byte_len(#[trigger] plines[k]) <= wd
        && (lns[k].len() >= 2 ==> byte_len(plines[k]) == wd) by {
        let a = bs[k];
        let b2 = bs[k + 1];
        assert(sum_bytes(words, a, b2) <= wd + 1);
        assert(0 <= a < b2 <= words.len());
        let raw = words.subrange(a, b2);
        let line = crate::breaks::strip_last_tok(raw);
        assert(lns[k] == line);
        lemma_subrange_bytes(words, a, b2);
        // the stripped white-space character returns at least one byte
        let lt = words[b2 - 1];
        assert(raw.last() == lt);
        assert(lt.len() >= 1);
        assert(line =~= raw.drop_last().push(lt.drop_last()));
        crate::width::lemma_line_w_push(raw.drop_last(), false, lt.drop_last());
        assert(line_w(raw, false) == line_w(raw.drop_last(), false) + seq_w(lt, false)) by {
            assert(raw =~= raw.drop_last().push(lt));
            crate::width::lemma_line_w_push(raw.drop_last(), false, lt);
        }
        crate::width::lemma_seq_w_drop_last(lt, false);
        let size = line_w(line, false);
        assert(size + char_w(lt.last(), false) == sum_bytes(words, a, b2));
        assert(char_w(lt.last(), false) >= 1);
        assert(size <= wd);
        let pad = pad_of(line, wd, false);
        assert(pad == wd - size);
        assert(plines[k] == emitted_line(lns[k], false, s));
        assert(plines[k] == distributed(s.insert_at, pad, line));
        if line.len() >= 2 {
            let gaps = (line.len() - 1) as nat;
            let cts = counts_of(s.insert_at, pad, gaps, line);
            lemma_join_counts_bytes(line, cts, 0);
            lemma_line_w_from_eq(line, false, 0);
            assert(line.skip(0) =~= line);
            lemma_counts_sum_is_gap_total(s.insert_at, pad, gaps, line, 0);
            lemma_gap_total_all(s.insert_at, pad, pad, gaps, line);
            assert(byte_len(plines[k]) == size + pad);
        } else {
            assert(line.len() == 1);
            assert(distributed(s.insert_at, pad, line) == line[0]);
            assert(byte_len(line[0]) <= size) by {
                assert(line_w(line, false) == seq_w(line[0], false) + line_w(
                    line.drop_first(),
                    false,
                ));
            }
        }
    }
}


/// Tokenization ignores a leading run of white space.
proof fn lemma_tokens_ws_prefix(pre: Seq<char>, x: Seq<char>)
    requires
        forall|k: int| 0 <= k < pre.len() ==> is_space(#[trigger] pre[k]),
    ensures
        tokens_of(pre + x) == tokens_of(x),
    decreases pre.len(),
{
    if pre.len() == 0 {
        assert(pre + x =~= x);
    } else {
        let j = pre + x;
        assert(j[0] == pre[0]);
        crate::tokenize::lemma_token_end_at(j, 0);
        assert(token_end(j) == 1);
        assert(j.take(1) =~= seq![pre[0]]);
        assert(!has_nonspace(j.take(1)));
        assert(j.skip(1) =~= pre.skip(1) + x);
        assert forall|k: int| 0 <= k < pre.skip(1).len() implies is_space(
            #[trigger] pre.skip(1)[k],
        ) by {
            assert(pre.skip(1)[k] == pre[k + 1]);
        }
        lemma_tokens_ws_prefix(pre.skip(1), x);
    }
}

/// Tokenization distributes over a cut placed just after a white-space
/// character.
proof fn lemma_tokens_concat_after_ws(a: Seq<char>, b: Seq<char>)
    requires
        a.len() >= 1,
        is_space(a.last()),
    ensures
        tokens_of(a + b) == tokens_of(a) + tokens_of(b),
    decreases a.len(),
{
    let j = a + b;
    crate::tokenize::lemma_token_end_props(a);
    let e = token_end(a) as int;
    assert(is_space(a[e - 1])) by {
        if e < a.len() {
        } else {
            if !is_space(a[e - 1]) {
                assert(forall|k: int| 0 <= k < a.len() - 1 ==> !is_space(#[trigger] a[k]));
                assert(!is_space(a.last()));
            }
        }
    }
    assert forall|k: int| 0 <= k < e - 1 implies !is_space(j[k]) by {
        assert(j[k] == a[k]);
    }
    assert(j[e - 1] == a[e - 1]);
    crate::tokenize::lemma_token_end_at(j, e - 1);
    assert(token_end(j) == e);
    assert(j.take(e) =~= a.take(e));
    assert(j.skip(e) =~= a.skip(e) + b);
    if e == a.len() {
        assert(a.skip(e) =~= Seq::<char>::empty());
        assert(a.skip(e) + b =~= b);
        assert(a.take(e) =~= a);
        assert(tokens_of(a) == (if has_nonspace(a.take(e)) {
            seq![a.take(e)] + tokens_of(a.skip(e))
        } else {
            tokens_of(a.skip(e))
        }));
        assert(tokens_of(Seq::<char>::empty()) =~= Seq::<Seq<char>>::empty());
        if has_nonspace(a.take(e)) {
            assert(tokens_of(j) =~= tokens_of(a) + tokens_of(b));
        } else {
            assert(tokens_of(j) =~= tokens_of(a) + tokens_of(b));
        }
    } else {
        assert(a.skip(e).len() >= 1);
        assert(a.skip(e).last() == a.last());
        lemma_tokens_concat_after_ws(a.skip(e), b);
        if has_nonspace(a.take(e)) {
            assert(tokens_of(j) =~= tokens_of(a) + tokens_of(b));
        } else {
            assert(tokens_of(j) =~= tokens_of(a) + tokens_of(b));
        }
    }
}

/// A single well-formed token tokenizes to itself.
proof fn lemma_tokens_single(t: Seq<char>)
    requires
        wf_token(t),
    ensures
        tokens_of(t) == seq![t],
{
    if is_space(t.last()) {
        crate::tokenize::lemma_token_end_at(t, t.len() - 1);
    } else {
        assert forall|k: int| 0 <= k < t.len() implies !is_space(t[k]) by {
            if k == t.len() - 1 {
            }
        }
        crate::tokenize::lemma_token_end_all_nonspace(t);
    }
    let e = token_end(t) as int;
    assert(e == t.len());
    assert(tokens_of(t) == (if has_nonspace(t.take(e)) {
        seq![t.take(e)] + tokens_of(t.skip(e))
    } else {
        tokens_of(t.skip(e))
    }));
    assert(t.take(e) =~= t);
    assert(t.skip(e) =~= Seq::<char>::empty());
    assert(tokens_of(Seq::<char>::empty()) =~= Seq::<Seq<char>>::empty());
    assert(has_nonspace(t)) by {
        assert(!is_space(t[0]));
    }
    assert(tokens_of(t) =~= seq![t]);
}

/// Padding a line and tokenizing the result gives back exactly the line's
/// tokens: the inserted spaces vanish again.
proof fn lemma_retokenize_counts(line: Seq<Seq<char>>, counts: Seq<nat>, k: int)
    requires
        0 <= k <= line.len(),
        forall|j: int| 0 <= j < line.len() ==> wf_token(#[trigger] line[j]),
        forall|j: int| 0 <= j < line.len() - 1 ==> is_space(#[trigger] line[j].last()),
    ensures
        tokens_of(join_counts_from(line, counts, k)) == line.skip(k),
    decreases line.len() - k,
{
    if k == line.len() {
        assert(line.skip(k) =~= Seq::<Seq<char>>::empty());
        assert(tokens_of(Seq::<char>::empty()) =~= Seq::<Seq<char>>::empty());
    } else if k == line.len() - 1 {
        lemma_tokens_single(line[k]);
        assert(line.skip(k) =~= seq![line[k]]);
    } else {
        let t = line[k];
        let sp = spaces_seq(counts[k]);
        let rest = join_counts_from(line, counts, k + 1);
        assert(join_counts_from(line, counts, k) == t + sp + rest);
        assert(t + sp + rest =~= t + (sp + rest));
        assert(is_space(t.last()));
        lemma_tokens_concat_after_ws(t, sp + rest);
        lemma_tokens_single(t);
        assert forall|m: int| 0 <= m < sp.len() implies is_space(#[trigger] sp[m]) by {
            assert(sp[m] == ' ');
        }
        lemma_tokens_ws_prefix(sp, rest);
        lemma_retokenize_counts(line, counts, k + 1);
        assert(tokens_of(t + (sp + rest)) == seq![t] + line.skip(k + 1));
        assert(seq![t] + line.skip(k + 1) =~= line.skip(k));
    }
}

/// Joining a line with an all-white-space separator and tokenizing the
/// result gives back exactly the line's tokens.
proof fn lemma_retokenize_join_sep(line: Seq<Seq<char>>, sep: Seq<char>)
    requires
        forall|j: int| 0 <= j < line.len() ==> wf_token(#[trigger] line[j]),
        forall|j: int| 0 <= j < line.len() - 1 ==> is_space(#[trigger] line[j].last()),
        forall|m: int| 0 <= m < sep.len() ==> is_space(#[trigger] sep[m]),
    ensures
        tokens_of(join_sep(line, sep)) == line,
    decreases line.len(),
{
    if line.len() == 0 {
        assert(tokens_of(Seq::<char>::empty()) =~= Seq::<Seq<char>>::empty());
        assert(line =~= Seq::<Seq<char>>::empty());
    } else if line.len() == 1 {
        lemma_tokens_single(line[0]);
        assert(line =~= seq![line[0]]);
    } else {
        let t = line[0];
        let rest = join_sep(line.drop_first(), sep);
        assert(join_sep(line, sep) == t + sep + rest);
        assert(t + sep + rest =~= t + (sep + rest));
        assert(is_space(t.last()));
        lemma_tokens_concat_after_ws(t, sep + rest);
        lemma_tokens_single(t);
        lemma_tokens_ws_prefix(sep, rest);
        assert forall|j: int| 0 <= j < line.drop_first().len() implies wf_token(
            #[trigger] line.drop_first()[j],
        ) by {
            assert(line.drop_first()[j] == line[j + 1]);
        }
        assert forall|j: int| 0 <= j < line.drop_first().len() - 1 implies is_space(
            #[trigger] line.drop_first()[j].last(),
        ) by {
            assert(line.drop_first()[j] == line[j + 1]);
        }
        lemma_retokenize_join_sep(line.drop_first(), sep);
        assert(tokens_of(t + (sep + rest)) == seq![t] + line.drop_first());
        assert(seq![t] + line.drop_first() =~= line);
    }
}

/// Appending white space to a text leaves its words unchanged.
proof fn lemma_units_append_ws(a: Seq<char>, sep: Seq<char>)
    requires
        forall|m: int| 0 <= m < sep.len() ==> is_space(#[trigger] sep[m]),
    ensures
        ws_units(a + sep) == ws_units(a),
    decreases a.len(),
{
    if sep.len() == 0 {
        assert(a + sep =~= a);
    } else if a.len() == 0 {
        assert(a + sep =~= sep + Seq::<char>::empty());
        lemma_tokens_ws_prefix(sep, Seq::<char>::empty());
        assert(tokens_of(Seq::<char>::empty()) =~= Seq::<Seq<char>>::empty());
        assert(ws_units(a + sep) =~= ws_units(a));
    } else {
        crate::tokenize::lemma_token_end_props(a);
        let e = token_end(a) as int;
        let j = a + sep;
        if e < a.len() || is_space(a[e - 1]) {
            // the first piece of `a` is already complete
            assert forall|k: int| 0 <= k < e - 1 implies !is_space(j[k]) by {
                assert(j[k] == a[k]);
            }
            assert(j[e - 1] == a[e - 1]);
            crate::tokenize::lemma_token_end_at(j, e - 1);
            assert(j.take(e) =~= a.take(e));
            assert(j.skip(e) =~= a.skip(e) + sep);
            lemma_units_append_ws(a.skip(e), sep);
            let d: int = if has_nonspace(a.take(e)) {
                1
            } else {
                0
            };
            assert(tokens_of(j) == (if has_nonspace(j.take(e)) {
                seq![j.take(e)] + tokens_of(j.skip(e))
            } else {
                tokens_of(j.skip(e))
            }));
            assert(tokens_of(a) == (if has_nonspace(a.take(e)) {
                seq![a.take(e)] + tokens_of(a.skip(e))
            } else {
                tokens_of(a.skip(e))
            }));
            assert(ws_units(a.skip(e) + sep).len() == ws_units(a.skip(e)).len());
            assert(tokens_of(a.skip(e) + sep).len() == tokens_of(a.skip(e)).len());
            assert(ws_units(j).len() == ws_units(a).len());
            assert forall|i: int| 0 <= i < ws_units(a).len() implies ws_units(j)[i] == ws_units(
                a,
            )[i] by {
                assert(ws_units(j)[i] == core_of(tokens_of(j)[i]));
                assert(ws_units(a)[i] == core_of(tokens_of(a)[i]));
                if i < d {
                    assert(tokens_of(j)[0] == j.take(e));
                    assert(tokens_of(a)[0] == a.take(e));
                } else {
                    assert(tokens_of(j)[i] == tokens_of(a.skip(e) + sep)[i - d]);
                    assert(tokens_of(a)[i] == tokens_of(a.skip(e))[i - d]);
                    assert(ws_units(a.skip(e) + sep)[i - d] == core_of(
                        tokens_of(a.skip(e) + sep)[i - d],
                    ));
                    assert(ws_units(a.skip(e))[i - d] == core_of(tokens_of(a.skip(e))[i - d]));
                }
            }
            assert(ws_units(j) =~= ws_units(a));
        } else {
            // `a` holds no white space: the first appended character closes
            // its single token and the rest of the suffix is dropped
            assert(e == a.len());
            assert forall|k: int| 0 <= k < a.len() implies !is_space(a[k]) by {
                if k < e - 1 {
                } else {
                    assert(k == e - 1);
                }
            }
            assert forall|k: int| 0 <= k < a.len() implies !is_space(j[k]) by {
                assert(j[k] == a[k]);
            }
            assert(j[a.len() as int] == sep[0]);
            crate::tokenize::lemma_token_end_at(j, a.len() as int);
            assert(token_end(j) == a.len() + 1);
            let tok = j.take(a.len() as int + 1);
            assert(tok =~= a.push(sep[0]));
            assert(has_nonspace(tok)) by {
                assert(tok[0] == a[0]);
                assert(!is_space(tok[0]));
            }
            assert(j.skip(a.len() as int + 1) =~= sep.skip(1) + Seq::<char>::empty());
            assert forall|m: int| 0 <= m < sep.skip(1).len() implies is_space(
                #[trigger] sep.skip(1)[m],
            ) by {
                assert(sep.skip(1)[m] == sep[m + 1]);
            }
            lemma_tokens_ws_prefix(sep.skip(1), Seq::<char>::empty());
            assert(tokens_of(Seq::<char>::empty()) =~= Seq::<Seq<char>>::empty());
            assert(tokens_of(j) =~= seq![tok]);
            crate::tokenize::lemma_token_end_all_nonspace(a);
            assert(a.take(a.len() as int) =~= a);
            assert(a.skip(a.len() as int) =~= Seq::<char>::empty());
            assert(has_nonspace(a)) by {
                assert(!is_space(a[0]));
            }
            assert(tokens_of(a) =~= seq![a]);
            assert(core_of(tok) =~= a) by {
                assert(is_space(tok.last()));
                assert(tok.drop_last() =~= a);
            }
            assert(core_of(a) == a);
            assert(ws_units(j) =~= ws_units(a));
        }
    }
}


/// When tokenization distributes over a concatenation, so do the words.
proof fn lemma_units_concat(a: Seq<char>, b: Seq<char>)
    requires
        tokens_of(a + b) == tokens_of(a) + tokens_of(b),
    ensures
        ws_units(a + b) == ws_units(a) + ws_units(b),
{
    assert forall|i: int| 0 <= i < ws_units(a + b).len() implies ws_units(a + b)[i] == (ws_units(a)
        + ws_units(b))[i] by {
        assert(ws_units(a + b)[i] == core_of(tokens_of(a + b)[i]));
        if i < tokens_of(a).len() {
            assert(tokens_of(a + b)[i] == tokens_of(a)[i]);
            assert(ws_units(a)[i] == core_of(tokens_of(a)[i]));
        } else {
            assert(tokens_of(a + b)[i] == tokens_of(b)[i - tokens_of(a).len()]);
            assert(ws_units(b)[i - tokens_of(a).len()] == core_of(
                tokens_of(b)[i - tokens_of(a).len()],
            ));
        }
    }
    assert(ws_units(a + b) =~= ws_units(a) + ws_units(b));
}

/// The words of one emitted line are the bare cores of the line's tokens,
/// whatever the emission mode: padding and joining spaces all vanish when
/// the line is read back.
proof fn lemma_line_units<P: Placer>(line: Seq<Seq<char>>, is_last: bool, s: Settings<P>)
    requires
        forall|j: int| 0 <= j < line.len() ==> wf_token(#[trigger] line[j]),
        forall|j: int| 0 <= j < line.len() - 1 ==> is_space(#[trigger] line[j].last()),
    ensures
        ws_units(emitted_line(line, is_last, s)) == line.map_values(|t: Seq<char>| core_of(t)),
{
    let goal = line.map_values(|t: Seq<char>| core_of(t));
    if is_last && !s.justify_last_line {
        lemma_retokenize_join_sep(line, Seq::empty());
        assert(ws_units(emitted_line(line, is_last, s)) =~= goal);
    } else if s.ignore_spaces {
        assert forall|m: int| 0 <= m < seq![' '].len() implies is_space(#[trigger] seq![' '][m])
            by {}
        lemma_retokenize_join_sep(line, seq![' ']);
        assert(ws_units(emitted_line(line, is_last, s)) =~= goal);
    } else {
        let pad = pad_of(line, s.width as nat, s.wcwidth);
        if line.len() == 0 {
            assert(tokens_of(Seq::<char>::empty()) =~= Seq::<Seq<char>>::empty());
            assert(ws_units(emitted_line(line, is_last, s)) =~= goal);
        } else if line.len() == 1 {
            lemma_tokens_single(line[0]);
            assert(ws_units(emitted_line(line, is_last, s)) =~= goal);
        } else {
            lemma_retokenize_counts(line, counts_of(s.insert_at, pad, (line.len() - 1) as nat, line), 0);
            assert(line.skip(0) =~= line);
            assert(ws_units(emitted_line(line, is_last, s)) =~= goal);
        }
    }
}

/// The words of a paragraph's output from line `k` on are the cores of the
/// tokens from that line's first token on.
#[verifier::rlimit(80)]
#[verifier::spinoff_prover]
proof fn lemma_paragraph_units_from<P: Placer>(text: Seq<char>, s: Settings<P>, k: int)
    requires
        s.newline@.len() >= 1,
        forall|m: int| 0 <= m < s.newline@.len() ==> is_space(#[trigger] s.newline@[m]),
        0 <= k < break_idxs(tokens_of(text), s.width as nat, s.wcwidth).len(),
    ensures
        ws_units(join_sep(paragraph_lines(text, s).skip(k), s.newline@)) == tokens_of(text).skip(
            break_idxs(tokens_of(text), s.width as nat, s.wcwidth)[k],
        ).map_values(|t: Seq<char>| core_of(t)),
    decreases break_idxs(tokens_of(text), s.width as nat, s.wcwidth).len() - k,
{
    let words = tokens_of(text);
    let nl = s.newline@;
    crate::tokenize::lemma_tokens_wf(text);
    crate::breaks::lemma_break_idxs_wf(words, s.width as nat, s.wcwidth);
    let bs = break_idxs(words, s.width as nat, s.wcwidth);
    let lns = lines_of(words, bs);
    let plines = paragraph_lines(text, s);
    assert(plines.len() == bs.len());
    if k == bs.len() - 1 {
        let line = lns[k];
        assert(line == words.subrange(bs[k], words.len() as int));
        assert(plines.skip(k) =~= seq![plines[k]]);
        assert(join_sep(plines.skip(k), nl) == plines[k]);
        assert(plines[k] == emitted_line(line, true, s));
        assert forall|j: int| 0 <= j < line.len() implies wf_token(#[trigger] line[j]) by {
            assert(line[j] == words[bs[k] + j]);
        }
        assert forall|j: int| 0 <= j < line.len() - 1 implies is_space(
            #[trigger] line[j].last(),
        ) by {
            assert(line[j] == words[bs[k] + j]);
        }
        lemma_line_units(line, true, s);
        assert(ws_units(plines[k]) =~= words.skip(bs[k]).map_values(|t: Seq<char>| core_of(t)))
            by {
            assert(line =~= words.skip(bs[k]));
        }
    } else {
        let raw = words.subrange(bs[k], bs[k + 1]);
        let line = lns[k];
        assert(line == crate::breaks::strip_last_tok(raw));
        assert(bs[k] < bs[k + 1] <= words.len());
        crate::breaks::lemma_breaks_from_range(words, s.width as nat, s.wcwidth, 0, 0);
        let btail = breaks_from(words, s.width as nat, s.wcwidth, 0, 0);
        assert(bs[k + 1] == btail[k]);
        assert(btail[k] < words.len());
        assert(bs[k + 1] < words.len());
        let sk = plines.skip(k);
        assert(sk.len() >= 2);
        assert(sk[0] == plines[k]);
        assert(sk.drop_first() =~= plines.skip(k + 1));
        let ll = plines[k];
        let rest = join_sep(plines.skip(k + 1), nl);
        assert(join_sep(sk, nl) == ll + nl + rest);
        assert(ll + nl + rest =~= (ll + nl) + rest);
        assert((ll + nl).last() == nl.last());
        assert(is_space((ll + nl).last()));
        lemma_tokens_concat_after_ws(ll + nl, rest);
        lemma_units_concat(ll + nl, rest);
        lemma_units_append_ws(ll, nl);
        // the line's own words are the cores of its tokens
        assert forall|j: int| 0 <= j < line.len() implies wf_token(#[trigger] line[j]) by {
            assert(raw[j] == words[bs[k] + j]);
            if j < line.len() - 1 {
                assert(line[j] == raw[j]);
            } else {
                assert(line[j] == raw.last().drop_last());
                assert(raw.last() == words[bs[k + 1] - 1]);
                assert(bs[k + 1] - 1 < words.len() - 1);
                assert(is_space(words[bs[k + 1] - 1].last()));
                let tok = words[bs[k + 1] - 1];
                assert(wf_token(tok));
                assert forall|m: int| 0 <= m < tok.drop_last().len() implies !is_space(
                    #[trigger] tok.drop_last()[m],
                ) by {
                    assert(tok.drop_last()[m] == tok[m]);
                }
                assert(tok.drop_last().len() >= 1);
                assert(!is_space(tok.drop_last()[0]));
            }
        }
        assert forall|j: int| 0 <= j < line.len() - 1 implies is_space(
            #[trigger] line[j].last(),
        ) by {
            assert(line[j] == raw[j]);
            assert(raw[j] == words[bs[k] + j]);
        }
        lemma_line_units(line, false, s);
        // stripping the final token's white space does not change any core
        assert(line.map_values(|t: Seq<char>| core_of(t)) =~= raw.map_values(
            |t: Seq<char>| core_of(t),
        )) by {
            assert forall|j: int| 0 <= j < raw.len() implies core_of(line[j]) == core_of(
                raw[j],
            ) by {
                if j == raw.len() - 1 {
                    let tok = raw.last();
                    assert(tok == words[bs[k + 1] - 1]);
                    assert(is_space(tok.last()));
                    assert(line[j] == tok.drop_last());
                    assert forall|m: int| 0 <= m < tok.drop_last().len() implies !is_space(
                        #[trigger] tok.drop_last()[m],
                    ) by {
                        assert(tok.drop_last()[m] == tok[m]);
                        assert(wf_token(tok));
                    }
                    if tok.drop_last().len() > 0 {
                        assert(!is_space(tok.drop_last().last()));
                    }
                    assert(core_of(tok.drop_last()) == tok.drop_last());
                    assert(core_of(tok) == tok.drop_last());
                } else {
                    assert(line[j] == raw[j]);
                }
            }
        }
        lemma_paragraph_units_from(text, s, k + 1);
        assert(ws_units(join_sep(sk, nl)) =~= words.skip(bs[k]).map_values(
            |t: Seq<char>| core_of(t),
        )) by {
            assert(ws_units((ll + nl) + rest) == ws_units(ll + nl) + ws_units(rest));
            assert(ws_units(ll) == line.map_values(|t: Seq<char>| core_of(t)));
            assert forall|i: int|
                0 <= i < words.skip(bs[k]).len() implies (ws_units(ll + nl) + ws_units(rest))[i]
                == core_of(words.skip(bs[k])[i]) by {
                if i < raw.len() {
                    assert(raw[i] == words[bs[k] + i]);
                } else {
                    assert(ws_units(rest)[i - raw.len()] == words.skip(bs[k + 1]).map_values(
                        |t: Seq<char>| core_of(t),
                    )[i - raw.len()]);
                    assert(words.skip(bs[k + 1])[i - raw.len()] == words[bs[k] + i]);
                }
            }
            assert(ws_units(ll + nl).len() == raw.len());
            assert(ws_units(rest).len() == words.skip(bs[k + 1]).len());
        }
    }
}

/// Stripping every distributor-inserted space from a justified paragraph
/// gives back the paragraph's words: the white-space-collapsed token
/// sequence of the input survives justification unchanged, for any newline
/// string made of white space.
pub proof fn lemma_depadding_preserves_words<P: Placer>(text: Seq<char>, s: Settings<P>)
    requires
        s.newline@.len() >= 1,
        forall|m: int| 0 <= m < s.newline@.len() ==> is_space(#[trigger] s.newline@[m]),
    ensures
        ws_units(paragraph_out(text, s)) == ws_units(text),
{
    let words = tokens_of(text);
    crate::breaks::lemma_break_idxs_wf(words, s.width as nat, s.wcwidth);
    let bs = break_idxs(words, s.width as nat, s.wcwidth);
    lemma_paragraph_units_from(text, s, 0);
    let plines = paragraph_lines(text, s);
    assert(plines.skip(0) =~= plines);
    assert(bs[0] == 0);
    assert(words.skip(0) =~= words);
    assert(ws_units(paragraph_out(text, s)) =~= ws_units(text)) by {
        assert(ws_units(paragraph_out(text, s)) == words.map_values(|t: Seq<char>| core_of(t)));
        assert forall|i: int| 0 <= i < words.len() implies ws_units(text)[i] == core_of(
            words[i],
        ) by {}
    }
}


/// Justifying an already-justified paragraph with the same settings changes
/// nothing, for a paragraph the breaker keeps on one line: the output's
/// tokens are the input's tokens, so the same line and the same padding come
/// out again. (The settings must honour spaces; with spaces ignored the
/// document entry point never reaches the paragraph stage.)
pub proof fn lemma_single_line_idempotent<P: Placer>(text: Seq<char>, s: Settings<P>)
    requires
        !s.ignore_spaces,
        break_idxs(tokens_of(text), s.width as nat, s.wcwidth) == seq![0int],
    ensures
        paragraph_out(paragraph_out(text, s), s) == paragraph_out(text, s),
{
    let words = tokens_of(text);
    crate::tokenize::lemma_tokens_wf(text);
    let bs = break_idxs(words, s.width as nat, s.wcwidth);
    let lns = lines_of(words, bs);
    assert(lns.len() == 1);
    assert(lns[0] =~= words);
    let plines = paragraph_lines(text, s);
    assert(plines.len() == 1);
    let em = emitted_line(words, true, s);
    assert(plines[0] == em);
    let o1 = paragraph_out(text, s);
    assert(o1 == em);
    // the output's tokens are the input's tokens
    assert(tokens_of(o1) == words) by {
        if !s.justify_last_line {
            lemma_retokenize_join_sep(words, Seq::empty());
        } else {
            let pad = pad_of(words, s.width as nat, s.wcwidth);
            if words.len() == 0 {
                assert(tokens_of(Seq::<char>::empty()) =~= Seq::<Seq<char>>::empty());
                assert(words =~= Seq::<Seq<char>>::empty());
            } else if words.len() == 1 {
                lemma_tokens_single(words[0]);
                assert(words =~= seq![words[0]]);
            } else {
                lemma_retokenize_counts(
                    words,
                    counts_of(s.insert_at, pad, (words.len() - 1) as nat, words),
                    0,
                );
                assert(words.skip(0) =~= words);
            }
        }
    }
    // so the second run sees the same single line and pads it the same way
    let bs2 = break_idxs(tokens_of(o1), s.width as nat, s.wcwidth);
    assert(bs2 == bs);
    let lns2 = lines_of(tokens_of(o1), bs2);
    assert(lns2.len() == 1);
    assert(lns2[0] =~= words);
    let plines2 = paragraph_lines(o1, s);
    assert(plines2.len() == 1);
    assert(plines2[0] == emitted_line(lns2[0], true, s));
    assert(plines2[0] == em);
    assert(paragraph_out(o1, s) == join_sep(plines2, s.newline@));
    assert(join_sep(plines2, s.newline@) == plines2[0]);
}


/// Within every line the breaker builds, each token after the line's first
/// was accepted: the line's byte width up to and including that token,
/// less its trailing white-space unit, stays within the target.
proof fn lemma_breaks_accept(words: Seq<Seq<char>>, width: nat, b: int, i: int, n: nat)
    requires
        forall|j: int| 0 <= j < words.len() ==> (#[trigger] words[j]).len() >= 1,
        0 <= b <= i <= words.len(),
        n == sum_bytes(words, b, i),
    ensures
        ({
            let full = seq![b] + breaks_from(words, width, false, i, n);
            forall|k: int, m: int|
                0 <= k < full.len() && (#[trigger] full[k]) < m < (if k + 1 < full.len() {
                    full[k + 1]
                } else {
                    words.len() as int
                }) && i <= m ==> sum_bytes(words, full[k], m + 1) - (if is_space(
                    (#[trigger] words[m]).last(),
                ) {
                    1int
                } else {
                    0int
                }) <= width
        }),
    decreases words.len() - i,
{
    let full = seq![b] + breaks_from(words, width, false, i, n);
    if i < words.len() {
        let t = words[i];
        let c = n + seq_w(t, false);
        let adj: int = if is_space(t.last()) {
            1int
        } else {
            0int
        };
        assert(sum_bytes(words, b, i + 1) == sum_bytes(words, b, i) + byte_len(words[i])) by {
            lemma_sum_bytes_snoc(words, b, i);
        }
        if c - adj > width {
            let nb = byte_len(t);
            assert(nb == sum_bytes(words, i, i + 1)) by {
                lemma_sum_bytes_snoc(words, i, i);
            }
            if i > 0 {
                lemma_breaks_accept(words, width, i, i + 1, nb);
                let sub = seq![i] + breaks_from(words, width, false, i + 1, nb);
                assert(full =~= seq![b] + seq![i] + breaks_from(words, width, false, i + 1, nb));
                assert forall|k: int, m: int|
                    0 <= k < full.len() && (#[trigger] full[k]) < m < (if k + 1 < full.len() {
                        full[k + 1]
                    } else {
                        words.len() as int
                    }) && i <= m implies sum_bytes(words, full[k], m + 1) - (if is_space(
                    (#[trigger] words[m]).last(),
                ) {
                    1int
                } else {
                    0int
                }) <= width by {
                    if k == 0 {
                        // the line [b, i) admits no position m with i <= m < i
                        assert(full[0] == b);
                        assert(full[1] == i);
                        assert(false);
                    } else {
                        assert(full[k] == sub[k - 1]);
                        crate::breaks::lemma_breaks_from_range(words, width, false, i + 1, nb);
                        assert(sub[k - 1] >= i) by {
                            if k - 1 > 0 {
                                assert(sub[k - 1] == breaks_from(words, width, false, i + 1, nb)[k
                                    - 2]);
                            }
                        }
                        assert(m >= i + 1);
                        if k + 1 < full.len() {
                            assert(full[k + 1] == sub[k]);
                        }
                    }
                }
            } else {
                lemma_breaks_accept(words, width, 0, 1, nb);
            }
        } else {
            assert(c <= width + adj);
            lemma_breaks_accept(words, width, b, i + 1, c);
            assert(breaks_from(words, width, false, i, n) == breaks_from(
                words,
                width,
                false,
                i + 1,
                c,
            ));
            assert(full =~= seq![b] + breaks_from(words, width, false, i + 1, c));
            assert forall|k: int, m: int|
                0 <= k < full.len() && (#[trigger] full[k]) < m < (if k + 1 < full.len() {
                    full[k + 1]
                } else {
                    words.len() as int
                }) && i <= m implies sum_bytes(words, full[k], m + 1) - (if is_space(
                (#[trigger] words[m]).last(),
            ) {
                1int
            } else {
                0int
            }) <= width by {
                if m == i {
                    // only a line that begins at or before `i` can reach it
                    assert(k == 0) by {
                        if k > 0 {
                            crate::breaks::lemma_breaks_from_range(words, width, false, i + 1, c);
                            assert(full[k] == breaks_from(words, width, false, i + 1, c)[k - 1]);
                            assert(full[k] >= i + 1);
                        }
                    }
                    assert(full[0] == b);
                    assert(sum_bytes(words, b, i + 1) == c);
                }
            }
        }
    }
}

/// A scan that starts inside a line whose every further token was already
/// accepted adds no break.
proof fn lemma_accepted_no_breaks(line: Seq<Seq<char>>, width: nat, i: int, n: nat)
    requires
        forall|j: int| 0 <= j < line.len() ==> (#[trigger] line[j]).len() >= 1,
        1 <= i <= line.len(),
        n == sum_bytes(line, 0, i),
        forall|m: int|
            i <= m < line.len() ==> sum_bytes(line, 0, m + 1) - (if is_space(
                (#[trigger] line[m]).last(),
            ) {
                1int
            } else {
                0int
            }) <= width,
    ensures
        breaks_from(line, width, false, i, n) == Seq::<int>::empty(),
    decreases line.len() - i,
{
    if i < line.len() {
        let t = line[i];
        let c = n + seq_w(t, false);
        assert(sum_bytes(line, 0, i + 1) == sum_bytes(line, 0, i) + byte_len(line[i])) by {
            lemma_sum_bytes_snoc(line, 0, i);
        }
        assert(c == sum_bytes(line, 0, i + 1));
        lemma_accepted_no_breaks(line, width, i + 1, c);
    }
}

/// The full break sequence of such a line is the single starting position.
proof fn lemma_accepted_single_line(line: Seq<Seq<char>>, width: nat)
    requires
        forall|j: int| 0 <= j < line.len() ==> (#[trigger] line[j]).len() >= 1,
        forall|m: int|
            1 <= m < line.len() ==> sum_bytes(line, 0, m + 1) - (if is_space(
                (#[trigger] line[m]).last(),
            ) {
                1int
            } else {
                0int
            }) <= width,
    ensures
        break_idxs(line, width, false) == seq![0int],
{
    if line.len() == 0 {
        assert(break_idxs(line, width, false) =~= seq![0int]);
    } else {
        let t = line[0];
        let c0 = seq_w(t, false);
        assert(sum_bytes(line, 0, 1) == byte_len(line[0])) by {
            lemma_sum_bytes_snoc(line, 0, 0);
        }
        let adj: int = if is_space(t.last()) {
            1int
        } else {
            0int
        };
        if c0 - adj > width {
            assert(breaks_from(line, width, false, 0, 0) == breaks_from(
                line,
                width,
                false,
                1,
                byte_len(t),
            ));
        } else {
            assert(breaks_from(line, width, false, 0, 0) == breaks_from(line, width, false, 1, c0));
        }
        lemma_accepted_no_breaks(line, width, 1, byte_len(line[0]));
        assert(break_idxs(line, width, false) =~= seq![0int]);
    }
}


/// A token range's byte sums carry over to the cut-out line.
proof fn lemma_sum_bytes_sub(words: Seq<Seq<char>>, a: int, b: int, j: int)
    requires
        0 <= a <= b <= words.len(),
        0 <= j <= b - a,
    ensures
        sum_bytes(words.subrange(a, b), 0, j) == sum_bytes(words, a, a + j),
    decreases j,
{
    if j > 0 {
        lemma_sum_bytes_sub(words, a, b, j - 1);
        lemma_sum_bytes_snoc(words.subrange(a, b), 0, j - 1);
        lemma_sum_bytes_snoc(words, a, a + j - 1);
        assert(words.subrange(a, b)[j - 1] == words[a + j - 1]);
    }
}

/// Byte sums only see the tokens below the bound.
proof fn lemma_sum_bytes_agree(x: Seq<Seq<char>>, y: Seq<Seq<char>>, j: int)
    requires
        0 <= j,
        forall|m: int| 0 <= m < j ==> x[m] == y[m],
    ensures
        sum_bytes(x, 0, j) == sum_bytes(y, 0, j),
    decreases j,
{
    if j > 0 {
        lemma_sum_bytes_agree(x, y, j - 1);
        lemma_sum_bytes_snoc(x, 0, j - 1);
        lemma_sum_bytes_snoc(y, 0, j - 1);
    }
}

/// The tokens of one cut line of a paragraph are well formed.
proof fn lemma_line_tokens_wf(p: Seq<char>, width: nat, k: int)
    requires
        0 <= k < break_idxs(tokens_of(p), width, false).len(),
    ensures
        ({
            let words = tokens_of(p);
            let bs = break_idxs(words, width, false);
            let line = lines_of(words, bs)[k];
            forall|j: int|
                0 <= j < line.len() ==> wf_token(#[trigger] line[j]) && (j < line.len() - 1
                    ==> is_space(line[j].last()))
        }),
{
    let words = tokens_of(p);
    crate::tokenize::lemma_tokens_wf(p);
    crate::breaks::lemma_break_idxs_wf(words, width, false);
    crate::breaks::lemma_breaks_from_range(words, width, false, 0, 0);
    let bs = break_idxs(words, width, false);
    let line = lines_of(words, bs)[k];
    let is_last = k == bs.len() - 1;
    let a = bs[k];
    let y: int = if k + 1 < bs.len() {
        bs[k + 1]
    } else {
        words.len() as int
    };
    if k + 1 < bs.len() {
        assert(bs[k + 1] == breaks_from(words, width, false, 0, 0)[k]);
        assert(bs[k + 1] < words.len());
    }
    let raw = words.subrange(a, y);
    assert forall|j: int|
        0 <= j < line.len() implies wf_token(#[trigger] line[j]) && (j < line.len() - 1
            ==> is_space(line[j].last())) by {
        if is_last {
            assert(line[j] == words[a + j]);
        } else {
            assert(raw[j] == words[a + j]);
            if j < line.len() - 1 {
                assert(line[j] == raw[j]);
            } else {
                let tok = words[y - 1];
                assert(line[j] == tok.drop_last());
                assert(y - 1 < words.len() - 1);
                assert(is_space(tok.last()));
                assert(wf_token(tok));
                assert forall|m: int| 0 <= m < tok.drop_last().len() implies !is_space(
                    #[trigger] tok.drop_last()[m],
                ) by {
                    assert(tok.drop_last()[m] == tok[m]);
                }
                assert(tok.drop_last().len() >= 1);
                assert(!is_space(tok.drop_last()[0]));
            }
        }
    }
}

/// Every token of a cut line after the first was accepted into it: the
/// line's running byte width up to that token, less its trailing
/// white-space unit, stays within the target.
#[verifier::rlimit(50)]
proof fn lemma_line_acceptance(p: Seq<char>, width: nat, k: int)
    requires
        0 <= k < break_idxs(tokens_of(p), width, false).len(),
    ensures
        ({
            let words = tokens_of(p);
            let bs = break_idxs(words, width, false);
            let line = lines_of(words, bs)[k];
            forall|mm: int|
                1 <= mm < line.len() ==> sum_bytes(line, 0, mm + 1) - (if is_space(
                    (#[trigger] line[mm]).last(),
                ) {
                    1int
                } else {
                    0int
                }) <= width
        }),
{
    let words = tokens_of(p);
    crate::tokenize::lemma_tokens_wf(p);
    crate::breaks::lemma_break_idxs_wf(words, width, false);
    crate::breaks::lemma_breaks_from_range(words, width, false, 0, 0);
    lemma_breaks_accept(words, width, 0, 0, 0);
    lemma_line_tokens_wf(p, width, k);
    let bs = break_idxs(words, width, false);
    assert(bs == seq![0int] + breaks_from(words, width, false, 0, 0));
    let line = lines_of(words, bs)[k];
    let is_last = k == bs.len() - 1;
    let a = bs[k];
    let y: int = if k + 1 < bs.len() {
        bs[k + 1]
    } else {
        words.len() as int
    };
    if k + 1 < bs.len() {
        assert(bs[k + 1] == breaks_from(words, width, false, 0, 0)[k]);
        assert(bs[k + 1] < words.len());
    }
    let raw = words.subrange(a, y);
    assert forall|mm: int|
        1 <= mm < line.len() implies sum_bytes(line, 0, mm + 1) - (if is_space(
        (#[trigger] line[mm]).last(),
    ) {
        1int
    } else {
        0int
    }) <= width by {
        assert(a < a + mm < y);
        assert(sum_bytes(words, a, a + mm + 1) - (if is_space(words[a + mm].last()) {
            1int
        } else {
            0int
        }) <= width);
        if is_last || mm < line.len() - 1 {
            assert forall|m: int| 0 <= m < mm + 1 implies line[m] == raw[m] by {
                if !is_last && m == line.len() - 1 {
                    assert(false);
                }
            }
            lemma_sum_bytes_agree(line, raw, mm + 1);
            lemma_sum_bytes_sub(words, a, y, mm + 1);
            assert(line[mm] == words[a + mm]);
        } else {
            // the stripped final token: one white-space unit gone
            let tok = words[y - 1];
            lemma_sum_bytes_snoc(line, 0, mm);
            lemma_sum_bytes_snoc(words, a, a + mm);
            assert forall|m: int| 0 <= m < mm implies line[m] == raw[m] by {}
            lemma_sum_bytes_agree(line, raw, mm);
            lemma_sum_bytes_sub(words, a, y, mm);
            assert(line[mm] == tok.drop_last());
            crate::width::lemma_seq_w_drop_last(tok, false);
            assert(byte_len(line[mm]) == byte_len(tok) - char_w(tok.last(), false));
            assert(char_w(tok.last(), false) >= 1);
            assert(is_space(words[a + mm].last()));
            assert(!is_space(line[mm].last())) by {
                assert(line[mm].len() >= 1);
                assert(wf_token(line[mm]));
                if line[mm].len() == 1 {
                    assert(!is_space(line[mm][0]));
                } else {
                    assert(!is_space(line[mm][line[mm].len() - 1]));
                }
            }
        }
    }
}

/// Justifying one already-emitted line of a justified paragraph reproduces
/// that line exactly: its tokens survive re-tokenization, the breaker keeps
/// them on one line again, and the same padding is distributed into the
/// same gaps.
proof fn lemma_line_rejustified<P: Placer>(p: Seq<char>, s: Settings<P>, k: int)
    requires
        s.justify_last_line,
        !s.ignore_spaces,
        !s.wcwidth,
        0 <= k < break_idxs(tokens_of(p), s.width as nat, false).len(),
    ensures
        paragraph_out(paragraph_lines(p, s)[k], s) == paragraph_lines(p, s)[k],
        tokens_of(paragraph_lines(p, s)[k]) == lines_of(
            tokens_of(p),
            break_idxs(tokens_of(p), s.width as nat, false),
        )[k],
{
    let words = tokens_of(p);
    let wd = s.width as nat;
    crate::tokenize::lemma_tokens_wf(p);
    crate::breaks::lemma_break_idxs_wf(words, wd, false);
    lemma_line_tokens_wf(p, wd, k);
    lemma_line_acceptance(p, wd, k);
    let bs = break_idxs(words, wd, false);
    let lns = lines_of(words, bs);
    let plines = paragraph_lines(p, s);
    let is_last = k == bs.len() - 1;
    let line = lns[k];
    let ll = plines[k];
    assert(ll == emitted_line(line, is_last, s));
    assert(ll == distributed(s.insert_at, pad_of(line, wd, false), line));
    let pad = pad_of(line, wd, false);
    assert(tokens_of(ll) == line) by {
        if line.len() == 0 {
            assert(tokens_of(Seq::<char>::empty()) =~= Seq::<Seq<char>>::empty());
            assert(line =~= Seq::<Seq<char>>::empty());
        } else if line.len() == 1 {
            lemma_tokens_single(line[0]);
            assert(line =~= seq![line[0]]);
        } else {
            lemma_retokenize_counts(
                line,
                counts_of(s.insert_at, pad, (line.len() - 1) as nat, line),
                0,
            );
            assert(line.skip(0) =~= line);
        }
    }
    // the second run keeps the line whole and pads it identically
    lemma_accepted_single_line(line, wd);
    let bs2 = break_idxs(tokens_of(ll), wd, false);
    assert(bs2 == seq![0int]);
    let lns2 = lines_of(tokens_of(ll), bs2);
    assert(lns2.len() == 1);
    assert(lns2[0] =~= line);
    let plines2 = paragraph_lines(ll, s);
    assert(plines2.len() == 1);
    assert(plines2[0] == emitted_line(lns2[0], true, s));
    assert(plines2[0] == distributed(s.insert_at, pad_of(line, wd, false), line));
    assert(paragraph_out(ll, s) == join_sep(plines2, s.newline@));
    assert(join_sep(plines2, s.newline@) == plines2[0]);
}


/// No piece of a split on a one-character separator holds that character.
proof fn lemma_split_segments_no_sep(text: Seq<char>, c: char)
    ensures
        forall|i: int|
            0 <= i < split_seq(text, seq![c]).len() ==> !(#[trigger] split_seq(
                text,
                seq![c],
            )[i]).contains(c),
    decreases text.len(),
{
    let pat = seq![c];
    lemma_find_from_props_wrap(text, pat);
    match find_from(text, pat, 0) {
        Some(i) => {
            let segs = split_seq(text, pat);
            assert(segs == seq![text.take(i)] + split_seq(text.skip(i + 1), pat));
            lemma_split_segments_no_sep(text.skip(i + 1), c);
            assert forall|q: int|
                0 <= q < segs.len() implies !(#[trigger] segs[q]).contains(c) by {
                if q == 0 {
                    assert(segs[0] == text.take(i));
                    if text.take(i).contains(c) {
                        let m = choose|m: int| 0 <= m < i && text.take(i)[m] == c;
                        assert(text[m] == c);
                        assert(text.subrange(m, m + 1) =~= pat);
                        assert(crate::textops::match_at(text, pat, m));
                        assert(false);
                    }
                } else {
                    assert(segs[q] == split_seq(text.skip(i + 1), pat)[q - 1]);
                }
            }
        },
        None => {
            assert(split_seq(text, pat) == seq![text]);
            if text.contains(c) {
                let m = choose|m: int| 0 <= m < text.len() && text[m] == c;
                assert(text.subrange(m, m + 1) =~= pat);
                assert(crate::textops::match_at(text, pat, m));
                assert(false);
            }
        },
    }
}

/// The first-match facts for a one-character pattern, from position 0.
proof fn lemma_find_from_props_wrap(text: Seq<char>, pat: Seq<char>)
    requires
        pat.len() >= 1,
    ensures
        find_from(text, pat, 0) matches Some(i) ==> 0 <= i && crate::textops::match_at(
            text,
            pat,
            i,
        ) && forall|j: int| 0 <= j < i ==> !crate::textops::match_at(text, pat, j),
        find_from(text, pat, 0) is None ==> forall|j: int|
            0 <= j ==> !crate::textops::match_at(text, pat, j),
{
    crate::textops::lemma_find_from_props(text, pat, 0);
}

/// Splitting a join on a one-character separator that no piece holds gives
/// back the pieces.
proof fn lemma_split_join_roundtrip(items: Seq<Seq<char>>, c: char)
    requires
        items.len() >= 1,
        forall|i: int| 0 <= i < items.len() ==> !(#[trigger] items[i]).contains(c),
    ensures
        split_seq(join_sep(items, seq![c]), seq![c]) == items,
    decreases items.len(),
{
    let pat = seq![c];
    let j = join_sep(items, pat);
    if items.len() == 1 {
        assert(j == items[0]);
        lemma_find_from_props_wrap(j, pat);
        match find_from(j, pat, 0) {
            Some(i) => {
                assert(crate::textops::match_at(j, pat, i));
                assert(j.subrange(i, i + 1) =~= seq![j[i]]);
                assert(seq![j[i]] == pat);
                assert(seq![j[i]][0] == pat[0]);
                assert(j[i] == c);
                assert(items[0].contains(c));
                assert(false);
            },
            None => {
                assert(split_seq(j, pat) == seq![j]);
                assert(seq![j] =~= items);
            },
        }
    } else {
        let rest = join_sep(items.drop_first(), pat);
        assert(j == items[0] + pat + rest);
        let h = items[0].len() as int;
        assert forall|q: int| 0 <= q < h implies !crate::textops::match_at(j, pat, q) by {
            if crate::textops::match_at(j, pat, q) {
                assert(j.subrange(q, q + 1) =~= seq![j[q]]);
                assert(seq![j[q]] == pat);
                assert(seq![j[q]][0] == pat[0]);
                assert(j[q] == c);
                assert(j[q] == items[0][q]);
                assert(items[0].contains(c));
            }
        }
        assert(j[h] == c);
        assert(j.subrange(h, h + 1) =~= pat);
        assert(crate::textops::match_at(j, pat, h));
        crate::textops::lemma_find_from_exact(j, pat, 0, h);
        assert(split_seq(j, pat) == seq![j.take(h)] + split_seq(j.skip(h + 1), pat));
        assert(j.take(h) =~= items[0]);
        assert(j.skip(h + 1) =~= rest);
        assert forall|i: int| 0 <= i < items.drop_first().len() implies !(
        #[trigger] items.drop_first()[i]).contains(c) by {
            assert(items.drop_first()[i] == items[i + 1]);
        }
        lemma_split_join_roundtrip(items.drop_first(), c);
        assert(seq![items[0]] + items.drop_first() =~= items);
    }
}

/// A segment list whose every piece holds a word survives the paragraph
/// filter unchanged.
proof fn lemma_kept_all(segs: Seq<Seq<char>>)
    requires
        forall|i: int| 0 <= i < segs.len() ==> has_nonspace(#[trigger] segs[i]),
    ensures
        kept_paras(segs) == segs,
    decreases segs.len(),
{
    if segs.len() > 0 {
        assert(has_nonspace(segs.last()));
        lemma_kept_all(segs.drop_last());
        assert(kept_paras(segs) == segs.drop_last().push(segs.last()));
        assert(segs.drop_last().push(segs.last()) =~= segs);
    }
}

/// Every kept paragraph holds a word, and holds no character that no
/// segment holds.
proof fn lemma_kept_elems(segs: Seq<Seq<char>>, c: char)
    ensures
        forall|i: int|
            0 <= i < kept_paras(segs).len() ==> has_nonspace(#[trigger] kept_paras(segs)[i]),
        (forall|j: int| 0 <= j < segs.len() ==> !(#[trigger] segs[j]).contains(c)) ==> forall|
            i: int,
        |
            0 <= i < kept_paras(segs).len() ==> !(#[trigger] kept_paras(segs)[i]).contains(c),
    decreases segs.len(),
{
    if segs.len() > 0 {
        lemma_kept_elems(segs.drop_last(), c);
        assert forall|j: int| 0 <= j < segs.drop_last().len() implies segs.drop_last()[j]
            == segs[j] by {}
        let front = kept_paras(segs.drop_last());
        let whole = kept_paras(segs);
        assert forall|i: int| 0 <= i < whole.len() implies has_nonspace(#[trigger] whole[i]) by {
            if has_nonspace(segs.last()) {
                assert(whole == front.push(segs.last()));
                if i < front.len() {
                    assert(whole[i] == front[i]);
                } else {
                    assert(whole[i] == segs.last());
                }
            } else {
                assert(whole == front);
            }
        }
        if forall|j: int| 0 <= j < segs.len() ==> !(#[trigger] segs[j]).contains(c) {
            assert forall|j: int| 0 <= j < segs.drop_last().len() implies !(
            #[trigger] segs.drop_last()[j]).contains(c) by {
                assert(segs.drop_last()[j] == segs[j]);
            }
            assert forall|i: int| 0 <= i < whole.len() implies !(#[trigger] whole[i]).contains(
                c,
            ) by {
                assert(!segs.last().contains(c)) by {
                    assert(segs.last() == segs[segs.len() - 1]);
                }
                if has_nonspace(segs.last()) {
                    assert(whole == front.push(segs.last()));
                    if i < front.len() {
                        assert(whole[i] == front[i]);
                    } else {
                        assert(whole[i] == segs.last());
                    }
                } else {
                    assert(whole == front);
                }
            }
        }
    }
}

/// A text with at least one token holds a word.
proof fn lemma_tokens_nonempty_nonspace(text: Seq<char>)
    requires
        tokens_of(text).len() >= 1,
    ensures
        has_nonspace(text),
    decreases text.len(),
{
    if text.len() > 0 {
        crate::tokenize::lemma_token_end_props(text);
        let e = token_end(text) as int;
        if has_nonspace(text.take(e)) {
            let q = choose|q: int| 0 <= q < e && !is_space(text.take(e)[q]);
            assert(text[q] == text.take(e)[q]);
        } else {
            lemma_tokens_nonempty_nonspace(text.skip(e));
            let q = choose|q: int| 0 <= q < text.skip(e).len() && !is_space(text.skip(e)[q]);
            assert(text[e + q] == text.skip(e)[q]);
        }
    }
}

/// A text with a word has at least one token.
proof fn lemma_nonspace_tokens_nonempty(text: Seq<char>)
    requires
        has_nonspace(text),
    ensures
        tokens_of(text).len() >= 1,
    decreases text.len(),
{
    let q = choose|q: int| 0 <= q < text.len() && !is_space(text[q]);
    crate::tokenize::lemma_token_end_props(text);
    let e = token_end(text) as int;
    if !has_nonspace(text.take(e)) {
        assert(q >= e) by {
            if q < e {
                assert(text.take(e)[q] == text[q]);
            }
        }
        assert(text.skip(e)[q - e] == text[q]);
        assert(has_nonspace(text.skip(e)));
        lemma_nonspace_tokens_nonempty(text.skip(e));
    }
}

/// No token holds a character its text does not hold.
proof fn lemma_tokens_no_char(text: Seq<char>, c: char)
    requires
        !text.contains(c),
    ensures
        forall|i: int|
            0 <= i < tokens_of(text).len() ==> !(#[trigger] tokens_of(text)[i]).contains(c),
    decreases text.len(),
{
    if text.len() > 0 {
        crate::tokenize::lemma_token_end_props(text);
        let e = token_end(text) as int;
        assert(!text.skip(e).contains(c)) by {
            if text.skip(e).contains(c) {
                let m = choose|m: int| 0 <= m < text.skip(e).len() && text.skip(e)[m] == c;
                assert(text[e + m] == c);
            }
        }
        lemma_tokens_no_char(text.skip(e), c);
        let toks = tokens_of(text);
        assert forall|i: int| 0 <= i < toks.len() implies !(#[trigger] toks[i]).contains(c) by {
            if has_nonspace(text.take(e)) && i == 0 {
                assert(toks[0] == text.take(e));
                if text.take(e).contains(c) {
                    let m = choose|m: int| 0 <= m < e && text.take(e)[m] == c;
                    assert(text[m] == c);
                }
            } else {
                let d: int = if has_nonspace(text.take(e)) {
                    1
                } else {
                    0
                };
                assert(toks[i] == tokens_of(text.skip(e))[i - d]);
            }
        }
    }
}

/// A padded line holds no character beyond its tokens' characters and the
/// space.
proof fn lemma_join_counts_no_char(line: Seq<Seq<char>>, counts: Seq<nat>, k: int, c: char)
    requires
        c != ' ',
        forall|j: int| 0 <= j < line.len() ==> !(#[trigger] line[j]).contains(c),
    ensures
        !join_counts_from(line, counts, k).contains(c),
    decreases line.len() - k,
{
    if k < 0 || k >= line.len() {
    } else if k == line.len() - 1 {
        assert(join_counts_from(line, counts, k) == line[k]);
    } else {
        lemma_join_counts_no_char(line, counts, k + 1, c);
        let j = line[k] + spaces_seq(counts[k]) + join_counts_from(line, counts, k + 1);
        assert forall|m: int| 0 <= m < j.len() implies j[m] != c by {
            if m < line[k].len() {
                assert(j[m] == line[k][m]);
                if j[m] == c {
                    assert(line[k].contains(c));
                }
            } else if m < line[k].len() + counts[k] {
                assert(j[m] == ' ');
            } else {
                assert(j[m] == join_counts_from(line, counts, k + 1)[m - line[k].len()
                    - counts[k]]);
                if j[m] == c {
                    assert(join_counts_from(line, counts, k + 1).contains(c));
                }
            }
        }
        if j.contains(c) {
            let m = choose|m: int| 0 <= m < j.len() && j[m] == c;
        }
    }
}

/// Joining two piece lists is joining each and placing one separator
/// between the results.
proof fn lemma_join_sep_append(xs: Seq<Seq<char>>, ys: Seq<Seq<char>>, sep: Seq<char>)
    requires
        xs.len() >= 1,
        ys.len() >= 1,
    ensures
        join_sep(xs + ys, sep) == join_sep(xs, sep) + sep + join_sep(ys, sep),
    decreases xs.len(),
{
    if xs.len() == 1 {
        assert((xs + ys)[0] == xs[0]);
        assert((xs + ys).drop_first() =~= ys);
        assert(join_sep(xs + ys, sep) == xs[0] + sep + join_sep(ys, sep));
        assert(join_sep(xs, sep) == xs[0]);
    } else {
        lemma_join_sep_append(xs.drop_first(), ys, sep);
        assert((xs + ys)[0] == xs[0]);
        assert((xs + ys).drop_first() =~= xs.drop_first() + ys);
        assert(join_sep(xs + ys, sep) == xs[0] + sep + join_sep(xs.drop_first() + ys, sep));
        assert(join_sep(xs, sep) == xs[0] + sep + join_sep(xs.drop_first(), sep));
        assert(xs[0] + sep + (join_sep(xs.drop_first(), sep) + sep + join_sep(ys, sep)) =~= (xs[0]
            + sep + join_sep(xs.drop_first(), sep)) + sep + join_sep(ys, sep));
    }
}

/// The emitted lines of a list of paragraphs, in order.
pub open spec fn lines_cat<P: Placer>(paras: Seq<Seq<char>>, s: Settings<P>) -> Seq<Seq<char>>
    decreases paras.len(),
{
    if paras.len() == 0 {
        Seq::empty()
    } else {
        lines_cat(paras.drop_last(), s) + paragraph_lines(paras.last(), s)
    }
}

/// Joining the justified paragraphs with the line separator flattens into
/// joining all their lines with it.
proof fn lemma_flatten_lines<P: Placer>(paras: Seq<Seq<char>>, s: Settings<P>, sep: Seq<char>)
    requires
        paras.len() >= 1,
        sep == s.newline@,
    ensures
        join_sep(crate::engine::paras_out(paras, s), sep) == join_sep(lines_cat(paras, s), sep),
        lines_cat(paras, s).len() >= 1,
    decreases paras.len(),
{
    let outs = crate::engine::paras_out(paras, s);
    crate::engine::lemma_paras_out_index(paras, s);
    if paras.len() == 1 {
        assert(outs == crate::engine::paras_out(paras.drop_last(), s).push(
            paragraph_out(paras.last(), s),
        ));
        assert(outs =~= seq![paragraph_out(paras[0], s)]);
        assert(join_sep(outs, sep) == paragraph_out(paras[0], s));
        assert(paras.last() == paras[0]);
        assert(lines_cat(paras.drop_last(), s) =~= Seq::<Seq<char>>::empty());
        assert(lines_cat(paras, s) =~= paragraph_lines(paras[0], s));
        assert(paragraph_lines(paras[0], s).len() >= 1);
    } else {
        lemma_flatten_lines(paras.drop_last(), s, sep);
        let first_outs = crate::engine::paras_out(paras.drop_last(), s);
        assert(outs == first_outs.push(paragraph_out(paras.last(), s)));
        assert(outs =~= first_outs + seq![paragraph_out(paras.last(), s)]);
        crate::engine::lemma_paras_out_index(paras.drop_last(), s);
        assert(first_outs.len() >= 1);
        lemma_join_sep_append(first_outs, seq![paragraph_out(paras.last(), s)], sep);
        assert(join_sep(seq![paragraph_out(paras.last(), s)], sep) == paragraph_out(
            paras.last(),
            s,
        ));
        assert(paragraph_out(paras.last(), s) == join_sep(paragraph_lines(paras.last(), s), sep));
        lemma_join_sep_append(lines_cat(paras.drop_last(), s), paragraph_lines(paras.last(), s), sep);
        assert(paragraph_lines(paras.last(), s).len() >= 1);
        assert(lines_cat(paras, s) == lines_cat(paras.drop_last(), s) + paragraph_lines(
            paras.last(),
            s,
        ));
    }
}


/// Every emitted line of every justified paragraph reproduces itself when
/// justified again, holds a word, and holds no newline character.
proof fn lemma_lines_cat_props<P: Placer>(paras: Seq<Seq<char>>, s: Settings<P>)
    requires
        s.justify_last_line,
        !s.ignore_spaces,
        !s.wcwidth,
        forall|i: int| 0 <= i < paras.len() ==> has_nonspace(#[trigger] paras[i]),
        forall|i: int| 0 <= i < paras.len() ==> !(#[trigger] paras[i]).contains('\n'),
    ensures
        forall|i: int|
            0 <= i < lines_cat(paras, s).len() ==> paragraph_out(
                #[trigger] lines_cat(paras, s)[i],
                s,
            ) == lines_cat(paras, s)[i] && has_nonspace(lines_cat(paras, s)[i]) && !lines_cat(
                paras,
                s,
            )[i].contains('\n'),
    decreases paras.len(),
{
    if paras.len() > 0 {
        assert forall|j: int| 0 <= j < paras.drop_last().len() implies paras.drop_last()[j]
            == paras[j] by {}
        lemma_lines_cat_props(paras.drop_last(), s);
        let p = paras.last();
        assert(has_nonspace(p));
        assert(!p.contains('\n'));
        let words = tokens_of(p);
        let wd = s.width as nat;
        crate::tokenize::lemma_tokens_wf(p);
        crate::breaks::lemma_break_idxs_wf(words, wd, false);
        crate::breaks::lemma_breaks_from_range(words, wd, false, 0, 0);
        lemma_nonspace_tokens_nonempty(p);
        lemma_tokens_no_char(p, '\n');
        let bs = break_idxs(words, wd, false);
        let lns = lines_of(words, bs);
        let plines = paragraph_lines(p, s);
        assert forall|k: int|
            0 <= k < plines.len() implies paragraph_out(#[trigger] plines[k], s) == plines[k]
            && has_nonspace(plines[k]) && !plines[k].contains('\n') by {
            lemma_line_rejustified(p, s, k);
            lemma_line_tokens_wf(p, wd, k);
            let line = lns[k];
            assert(line.len() >= 1) by {
                if k < bs.len() - 1 {
                    assert(bs[k] < bs[k + 1]);
                } else {
                    assert(bs[k] < words.len()) by {
                        if k > 0 {
                            assert(bs[k] == breaks_from(words, wd, false, 0, 0)[k - 1]);
                        }
                    }
                }
            }
            assert(tokens_of(plines[k]).len() >= 1);
            lemma_tokens_nonempty_nonspace(plines[k]);
            // the line's tokens hold no newline, so neither does the line
            assert forall|j: int| 0 <= j < line.len() implies !(#[trigger] line[j]).contains(
                '\n',
            ) by {
                let a = bs[k];
                if k == bs.len() - 1 {
                    assert(line[j] == words[a + j]);
                } else {
                    let raw = words.subrange(a, bs[k + 1]);
                    if j < line.len() - 1 {
                        assert(line[j] == raw[j]);
                        assert(raw[j] == words[a + j]);
                    } else {
                        let tok = words[bs[k + 1] - 1];
                        assert(line[j] == tok.drop_last());
                        if tok.drop_last().contains('\n') {
                            let m = choose|m: int|
                                0 <= m < tok.drop_last().len() && tok.drop_last()[m] == '\n';
                            assert(tok[m] == '\n');
                            assert(tok.contains('\n'));
                        }
                    }
                }
            }
            assert(plines[k] == emitted_line(line, k == bs.len() - 1, s));
            assert(plines[k] == distributed(s.insert_at, pad_of(line, wd, false), line));
            assert(!plines[k].contains('\n')) by {
                let pad = pad_of(line, wd, false);
                if line.len() == 1 {
                    assert(distributed(s.insert_at, pad, line) == line[0]);
                } else {
                    lemma_join_counts_no_char(
                        line,
                        counts_of(s.insert_at, pad, (line.len() - 1) as nat, line),
                        0,
                        '\n',
                    );
                }
            }
        }
        assert forall|i: int|
            0 <= i < lines_cat(paras, s).len() implies paragraph_out(
            #[trigger] lines_cat(paras, s)[i],
            s,
        ) == lines_cat(paras, s)[i] && has_nonspace(lines_cat(paras, s)[i]) && !lines_cat(
            paras,
            s,
        )[i].contains('\n') by {
            let front = lines_cat(paras.drop_last(), s);
            assert(lines_cat(paras, s) == front + plines);
            if i < front.len() {
                assert(lines_cat(paras, s)[i] == front[i]);
            } else {
                assert(lines_cat(paras, s)[i] == plines[i - front.len()]);
            }
        }
    }
}

/// Justifying already-justified text with the same settings and the last
/// line justified too reproduces it exactly, when width is measured in
/// bytes, spaces are honoured, hyphenation is off, and lines and paragraphs
/// are both separated by the newline character.
pub proof fn lemma_justify_idempotent<P: Placer>(text: Seq<char>, s: Settings<P>)
    requires
        s.justify_last_line,
        !s.ignore_spaces,
        !s.hyphenate_overflow,
        !s.wcwidth,
        s.newline@ == seq!['\n'],
        s.separator@ == seq!['\n'],
    ensures
        justified_doc(justified_doc(text, s), s) == justified_doc(text, s),
{
    let nl = seq!['\n'];
    let segs = split_seq(text, nl);
    let paras = doc_paragraphs(text, s);
    assert(crate::engine::doc_source(text, s) == text);
    assert(paras == kept_paras(segs));
    lemma_split_segments_no_sep(text, '\n');
    lemma_kept_elems(segs, '\n');
    let o1 = justified_doc(text, s);
    crate::engine::lemma_paras_out_index(paras, s);
    if paras.len() == 0 {
        assert(o1 == join_sep(crate::engine::paras_out(paras, s), s.separator@));
        assert(crate::engine::paras_out(paras, s) =~= Seq::<Seq<char>>::empty());
        assert(o1 =~= Seq::<char>::empty());
        assert(crate::engine::doc_source(o1, s) == o1);
        assert(find_from(o1, nl, 0) is None);
        assert(split_seq(o1, nl) == seq![o1]);
        assert(doc_paragraphs(o1, s) =~= Seq::<Seq<char>>::empty()) by {
            assert(!has_nonspace(o1));
            assert(seq![o1].last() == o1);
            assert(seq![o1].drop_last() =~= Seq::<Seq<char>>::empty());
            assert(kept_paras(Seq::<Seq<char>>::empty()) == Seq::<Seq<char>>::empty());
            assert(kept_paras(seq![o1]) == kept_paras(seq![o1].drop_last()));
            assert(kept_paras(seq![o1]) =~= Seq::<Seq<char>>::empty());
        }
        assert(crate::engine::paras_out(doc_paragraphs(o1, s), s) =~= Seq::<Seq<char>>::empty());
        assert(justified_doc(o1, s) =~= o1);
    } else {
        lemma_flatten_lines(paras, s, s.newline@);
        let lines = lines_cat(paras, s);
        assert(o1 == join_sep(lines, nl));
        lemma_lines_cat_props(paras, s);
        assert(crate::engine::doc_source(o1, s) == o1);
        lemma_split_join_roundtrip(lines, '\n');
        assert(split_seq(o1, nl) == lines);
        lemma_kept_all(lines);
        assert(doc_paragraphs(o1, s) == lines);
        crate::engine::lemma_paras_out_index(lines, s);
        assert(crate::engine::paras_out(lines, s) =~= lines);
        assert(justified_doc(o1, s) == join_sep(lines, s.separator@));
        assert(justified_doc(o1, s) == o1);
    }
}

} // verus!
