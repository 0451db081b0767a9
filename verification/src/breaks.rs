//! Line breaking: partitioning the token sequence into lines that fit the
//! target width, and computing each line's padding.

use vstd::prelude::*;
use crate::settings::Settings;
use crate::tokenize::lemma_vec2_deep;
use crate::width::byte_len;
use crate::width::is_space;
use crate::width::line_w;
use crate::width::seq_w;
use crate::width::width_of_chars;
use crate::width::line_width_capped;

verus! {

/// The break positions the line breaker adds while scanning tokens from
/// position `i` with accumulated width `n` on the current line. A token
/// whose width would push the current line past `width` starts a new line;
/// a trailing white-space character on the token does not count toward the
/// comparison. After a break the accumulator restarts from the raw byte
/// length of the breaking token, whatever the measurement mode: the byte
/// measure is the reference accounting, and the display-cell mode reuses it
/// at this one point.
pub open spec fn breaks_from(
    words: Seq<Seq<char>>,
    width: nat,
    wc: bool,
    i: int,
    n: nat,
) -> Seq<int>
    decreases words.len() - i,
{
    if i < 0 || i >= words.len() {
        Seq::empty()
    } else {
        let t = words[i];
        if t.len() == 0 {
            breaks_from(words, width, wc, i + 1, n)
        } else {
            let c = n + seq_w(t, wc);
            let adj: int = if is_space(t.last()) {
                1
            } else {
                0
            };
            if c - adj > width {
                (if i > 0 {
                    seq![i]
                } else {
                    Seq::empty()
                }) + breaks_from(words, width, wc, i + 1, byte_len(t))
            } else {
                breaks_from(words, width, wc, i + 1, c)
            }
        }
    }
}

/// All break positions for a token sequence: position 0 followed by every
/// position at which a new line starts.
pub open spec fn break_idxs(words: Seq<Seq<char>>, width: nat, wc: bool) -> Seq<int> {
    seq![0int] + breaks_from(words, width, wc, 0, 0)
}

/// A well-formed break sequence for `n_words` tokens: it starts at 0, rises
/// strictly, and stays within the token count.
pub open spec fn wf_breaks(bs: Seq<int>, n_words: int) -> bool {
    &&& bs.len() >= 1
    &&& bs[0] == 0
    &&& forall|k: int| 0 <= k < bs.len() - 1 ==> #[trigger] bs[k] < bs[k + 1]
    &&& forall|k: int| 0 <= k < bs.len() ==> 0 <= #[trigger] bs[k] <= n_words
}

/// A strictly increasing sequence of positions inside `[lo, hi)`.
pub open spec fn inc_in_range(bs: Seq<int>, lo: int, hi: int) -> bool {
    &&& forall|k: int| 0 <= k < bs.len() ==> lo <= #[trigger] bs[k] < hi
    &&& forall|k: int| 0 <= k < bs.len() - 1 ==> #[trigger] bs[k] < bs[k + 1]
}

/// The positions `breaks_from` produces rise strictly within
/// `[max(i, 1), words.len())`.
pub proof fn lemma_breaks_from_range(words: Seq<Seq<char>>, width: nat, wc: bool, i: int, n: nat)
    requires
        0 <= i,
    ensures
        inc_in_range(
            breaks_from(words, width, wc, i, n),
            if i > 0 {
                i
            } else {
                1
            },
            words.len() as int,
        ),
    decreases words.len() - i,
{
    let bs = breaks_from(words, width, wc, i, n);
    let lo: int = if i > 0 {
        i
    } else {
        1
    };
    if 0 <= i < words.len() {
        let t = words[i];
        if t.len() == 0 {
            lemma_breaks_from_range(words, width, wc, i + 1, n);
        } else {
            let c = n + seq_w(t, wc);
            let adj: int = if is_space(t.last()) {
                1
            } else {
                0
            };
            if c - adj > width {
                lemma_breaks_from_range(words, width, wc, i + 1, byte_len(t));
                let sub = breaks_from(words, width, wc, i + 1, byte_len(t));
                if i > 0 {
                    assert(bs == seq![i] + sub);
                    assert forall|k: int| 0 <= k < bs.len() implies lo <= #[trigger] bs[k]
                        < words.len() by {
                        if k > 0 {
                            assert(bs[k] == sub[k - 1]);
                        }
                    }
                    assert forall|k: int| 0 <= k < bs.len() - 1 implies #[trigger] bs[k] < bs[k
                        + 1] by {
                        if k == 0 {
                            assert(bs[1] == sub[0]);
                        } else {
                            assert(bs[k] == sub[k - 1]);
                            assert(bs[k + 1] == sub[k]);
                        }
                    }
                } else {
                    assert(bs =~= sub);
                }
            } else {
                lemma_breaks_from_range(words, width, wc, i + 1, c);
            }
        }
    }
}

/// The full break sequence is well formed.
pub proof fn lemma_break_idxs_wf(words: Seq<Seq<char>>, width: nat, wc: bool)
    ensures
        wf_breaks(break_idxs(words, width, wc), words.len() as int),
{
    lemma_breaks_from_range(words, width, wc, 0, 0);
    let bs = break_idxs(words, width, wc);
    let tail = breaks_from(words, width, wc, 0, 0);
    assert forall|k: int| 0 <= k < bs.len() - 1 implies #[trigger] bs[k] < bs[k + 1] by {
        if k > 0 {
            assert(bs[k] == tail[k - 1]);
            assert(bs[k + 1] == tail[k]);
        } else {
            assert(bs[1] == tail[0]);
        }
    }
    assert forall|k: int| 0 <= k < bs.len() implies 0 <= #[trigger] bs[k] <= words.len() by {
        if k > 0 {
            assert(bs[k] == tail[k - 1]);
        }
    }
}

/// The last token of a line loses its trailing white-space character.
pub open spec fn strip_last_tok(line: Seq<Seq<char>>) -> Seq<Seq<char>>
    recommends
        line.len() >= 1,
{
    line.update(line.len() - 1, line.last().drop_last())
}

/// The lines cut from the token sequence by the break positions: the tokens
/// between consecutive breaks, with the trailing white-space character of
/// each line's final token removed; the tokens after the last break form the
/// final line, kept as they are.
pub open spec fn lines_of(words: Seq<Seq<char>>, bs: Seq<int>) -> Seq<Seq<Seq<char>>> {
    Seq::new(
        bs.len(),
        |k: int|
            if k < bs.len() - 1 {
                strip_last_tok(words.subrange(bs[k], bs[k + 1]))
            } else {
                words.subrange(bs[k], words.len() as int)
            },
    )
}

/// Padding owed to a line: the space left up to the target width, and none
/// for a line already at or past it.
pub open spec fn pad_of(line: Seq<Seq<char>>, width: nat, wc: bool) -> nat {
    if width < line_w(line, wc) {
        0
    } else {
        (width - line_w(line, wc)) as nat
    }
}

/// Computes where lines break: the returned positions start with 0 and then
/// name each token that begins a new line, because adding it to the current
/// line would pass the target width (a token's trailing white-space
/// character not counting).
pub fn get_break_indexes<P>(words: &Vec<Vec<char>>, settings: &Settings<P>) -> (r: Vec<usize>)
    ensures
        r@.map_values(|u: usize| u as int) == break_idxs(
            words.deep_view(),
            settings.width as nat,
            settings.wcwidth,
        ),
        wf_breaks(r@.map_values(|u: usize| u as int), words.deep_view().len() as int),
{
    let ghost dw = words.deep_view();
    let ghost wd = settings.width as nat;
    let ghost wcm = settings.wcwidth;
    proof {
        lemma_vec2_deep(words);
    }
    let mut v: Vec<usize> = Vec::new();
    v.push(0);
    let wu = settings.width as u128;
    let wc = settings.wcwidth;
    let mut n: u128 = 0;
    let mut i: usize = 0;
    proof {
        assert(v@.map_values(|u: usize| u as int) =~= seq![0int]);
        assert(break_idxs(dw, wd, wcm) =~= v@.map_values(|u: usize| u as int) + breaks_from(
            dw,
            wd,
            wcm,
            0,
            0,
        ));
    }
    while i < words.len()
        invariant
            0 <= i <= words@.len(),
            dw == words.deep_view(),
            dw.len() == words@.len(),
            forall|q: int| 0 <= q < words@.len() ==> dw[q] == words@[q]@,
            wu == settings.width as u128,
            wc == settings.wcwidth,
            wd == settings.width as nat,
            wcm == settings.wcwidth,
            n <= u64::MAX as u128 * 4 + 1,
            break_idxs(dw, wd, wcm) == v@.map_values(|u: usize| u as int) + breaks_from(
                dw,
                wd,
                wcm,
                i as int,
                n as nat,
            ),
        decreases words@.len() - i,
    {
        let word = &words[i];
        let wlen = word.len();
        if wlen > 0 {
            let w = width_of_chars(word, wc);
            let c = n + w;
            let last_c = word[wlen - 1];
            let ws = crate::width::is_space_char(last_c);
            proof {
                assert(dw[i as int].last() == word@[wlen - 1]);
            }
            let over = if ws {
                c > wu && c - 1 > wu
            } else {
                c > wu
            };
            proof {
                let cs = n as nat + seq_w(dw[i as int], wcm);
                let adj: int = if is_space(dw[i as int].last()) {
                    1int
                } else {
                    0int
                };
                assert(c as nat == cs);
                assert(over == (cs - adj > wd));
            }
            if over {
                if i > 0 {
                    let ghost old_map = v@.map_values(|u: usize| u as int);
                    v.push(i);
                    proof {
                        assert(v@.map_values(|u: usize| u as int) =~= old_map + seq![i as int]);
                    }
                }
                let bl = width_of_chars(word, false);
                n = bl;
                proof {
                    assert(n as nat == byte_len(dw[i as int]));
                    assert(n <= 4 * dw[i as int].len());
                    assert(dw[i as int].len() <= u64::MAX);
                }
            } else {
                n = c;
                proof {
                    if is_space(dw[i as int].last()) {
                        assert(c as int - 1 <= wd);
                    } else {
                        assert(c as int <= wd);
                    }
                    assert(n <= u64::MAX as u128 * 4 + 1) by {
                        assert(wd <= u64::MAX);
                    }
                }
            }
            proof {
                assert(break_idxs(dw, wd, wcm) =~= v@.map_values(|u: usize| u as int)
                    + breaks_from(dw, wd, wcm, i + 1, n as nat));
            }
        }
        i = i + 1;
    }
    proof {
        assert(breaks_from(dw, wd, wcm, words@.len() as int, n as nat) =~= Seq::<int>::empty());
        assert(break_idxs(dw, wd, wcm) =~= v@.map_values(|u: usize| u as int));
        lemma_break_idxs_wf(dw, wd, wcm);
    }
    v
}

/// Cuts the token sequence into lines along the break positions, removing
/// the trailing white-space character of each non-final line's last token.
pub fn lines_from_indexes(words: &Vec<Vec<char>>, breaks: &Vec<usize>) -> (r: Vec<Vec<Vec<char>>>)
    requires
        wf_breaks(breaks@.map_values(|u: usize| u as int), words.deep_view().len() as int),
        forall|q: int| 0 <= q < words.deep_view().len() ==> #[trigger] words.deep_view()[q].len()
            >= 1,
    ensures
        r.deep_view() == lines_of(words.deep_view(), breaks@.map_values(|u: usize| u as int)),
{
    let ghost dw = words.deep_view();
    let ghost bs = breaks@.map_values(|u: usize| u as int);
    let ghost target = lines_of(dw, bs);
    proof {
        lemma_vec2_deep(words);
    }
    let mut lines: Vec<Vec<Vec<char>>> = Vec::new();
    let mut k: usize = 0;
    proof {
        assert(lines.deep_view() =~= target.take(0));
    }
    while k < breaks.len() - 1
        invariant
            breaks@.len() >= 1,
            0 <= k <= breaks@.len() - 1,
            dw == words.deep_view(),
            bs == breaks@.map_values(|u: usize| u as int),
            target == lines_of(dw, bs),
            wf_breaks(bs, dw.len() as int),
            dw.len() == words@.len(),
            forall|q: int| 0 <= q < words@.len() ==> dw[q] == words@[q]@,
            forall|q: int| 0 <= q < dw.len() ==> #[trigger] dw[q].len() >= 1,
            lines.deep_view() == target.take(k as int),
        decreases breaks@.len() - 1 - k,
    {
        let a = breaks[k];
        let b = breaks[k + 1];
        proof {
            assert(bs[k as int] == a as int);
            assert(bs[k + 1] == b as int);
            assert(a < b <= dw.len());
        }
        let mut t_v: Vec<Vec<char>> = Vec::new();
        let mut q: usize = a;
        proof {
            assert(t_v.deep_view() =~= dw.subrange(a as int, a as int));
        }
        while q < b - 1
            invariant
                a <= q <= b - 1,
                b <= words@.len(),
                dw.len() == words@.len(),
                forall|m: int| 0 <= m < words@.len() ==> dw[m] == words@[m]@,
                t_v.deep_view() == dw.subrange(a as int, q as int),
            decreases b - q,
        {
            let ghost old_deep = t_v.deep_view();
            let tok = crate::textops::subvec(&words[q], 0, words[q].len());
            proof {
                assert(tok@ =~= dw[q as int]);
            }
            t_v.push(tok);
            proof {
                lemma_vec2_deep(&t_v);
                assert(t_v.deep_view() =~= old_deep.push(dw[q as int]));
                assert(dw.subrange(a as int, q + 1) =~= dw.subrange(a as int, q as int).push(
                    dw[q as int],
                ));
            }
            q = q + 1;
        }
        // the line's last token loses its trailing white-space character
        proof {
            assert(dw[b - 1].len() >= 1);
            assert(words@[b - 1]@.len() >= 1);
        }
        let last_len = words[b - 1].len();
        let stripped = crate::textops::subvec(&words[b - 1], 0, last_len - 1);
        let ghost before_push = t_v.deep_view();
        t_v.push(stripped);
        proof {
            lemma_vec2_deep(&t_v);
            assert(stripped@ =~= dw[b - 1].drop_last());
            assert(t_v.deep_view() =~= before_push.push(dw[b - 1].drop_last()));
            assert(t_v.deep_view() =~= strip_last_tok(dw.subrange(bs[k as int], bs[k + 1])));
        }
        let ghost lines_before = lines.deep_view();
        lines.push(t_v);
        proof {
            assert(lines.deep_view().len() == lines_before.len() + 1);
            assert forall|m: int| 0 <= m < lines.deep_view().len() implies lines.deep_view()[m]
                == target.take(k + 1)[m] by {
                assert(lines.deep_view()[m] == lines@[m].deep_view());
            }
            assert(lines.deep_view() =~= target.take(k + 1));
        }
        k = k + 1;
    }
    // the final line: every token from the last break onward, unchanged
    let a = breaks[breaks.len() - 1];
    proof {
        assert(bs[bs.len() - 1] == a as int);
        assert(a <= dw.len());
    }
    let mut t_v: Vec<Vec<char>> = Vec::new();
    let mut q: usize = a;
    let n_words = words.len();
    proof {
        assert(t_v.deep_view() =~= dw.subrange(a as int, a as int));
    }
    while q < n_words
        invariant
            a <= q <= n_words,
            n_words == words@.len(),
            dw == words.deep_view(),
            dw.len() == words@.len(),
            forall|m: int| 0 <= m < words@.len() ==> dw[m] == words@[m]@,
            t_v.deep_view() == dw.subrange(a as int, q as int),
        decreases n_words - q,
    {
        let ghost old_deep = t_v.deep_view();
        let tok = crate::textops::subvec(&words[q], 0, words[q].len());
        proof {
            assert(tok@ =~= dw[q as int]);
        }
        t_v.push(tok);
        proof {
            lemma_vec2_deep(&t_v);
            assert(t_v.deep_view() =~= old_deep.push(dw[q as int]));
            assert(dw.subrange(a as int, q + 1) =~= dw.subrange(a as int, q as int).push(
                dw[q as int],
            ));
        }
        q = q + 1;
    }
    let ghost lines_before = lines.deep_view();
    let ghost prev = lines@;
    lines.push(t_v);
    proof {
        assert(lines.deep_view().len() == lines_before.len() + 1);
        assert forall|m: int| 0 <= m < lines.deep_view().len() implies lines.deep_view()[m]
            == target[m] by {
            assert(lines.deep_view()[m] == lines@[m].deep_view());
            if m < lines_before.len() {
                assert(lines@[m] == prev[m]);
                assert(lines_before[m] == prev[m].deep_view());
                assert(target.take(k as int)[m] == target[m]);
            } else {
                assert(lines@[m] == t_v);
            }
        }
        assert(lines.deep_view() =~= target);
    }
    lines
}

/// How many spaces each line needs to reach the target width: the shortfall
/// against the target, and none for a line already at or past it.
pub fn spaces_to_add<P>(lines: &Vec<Vec<Vec<char>>>, settings: &Settings<P>) -> (r: Vec<usize>)
    ensures
        r@.len() == lines@.len(),
        forall|k: int| 0 <= k < lines@.len() ==> #[trigger] r@[k] as nat == pad_of(
            lines.deep_view()[k],
            settings.width as nat,
            settings.wcwidth,
        ),
{
    let ghost dl = lines.deep_view();
    let mut out: Vec<usize> = Vec::new();
    let mut k: usize = 0;
    while k < lines.len()
        invariant
            0 <= k <= lines@.len(),
            dl == lines.deep_view(),
            dl.len() == lines@.len(),
            out@.len() == k,
            forall|m: int| 0 <= m < k ==> #[trigger] out@[m] as nat == pad_of(
                dl[m],
                settings.width as nat,
                settings.wcwidth,
            ),
        decreases lines@.len() - k,
    {
        proof {
            assert(dl[k as int] == lines@[k as int].deep_view());
        }
        let size = line_width_capped(&lines[k], settings.wcwidth);
        let wu = settings.width as u128;
        if wu < size {
            out.push(0);
        } else {
            out.push((wu - size) as usize);
        }
        k = k + 1;
    }
    out
}

} // verus!
