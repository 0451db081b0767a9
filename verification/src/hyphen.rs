//! Hyphenation of over-wide units.
//!
//! A unit is a white-space-delimited word, or — when spaces are ignored — a
//! whole line as delimited by the configured newline string. A unit wider
//! than the target is cut greedily into chunks that each fit the width left
//! after the hyphen string, the hyphen is appended to every chunk but the
//! last, and everything is rejoined.

use vstd::prelude::*;
use crate::settings::Settings;
use crate::textops::join_sep;
use crate::textops::split_seq;
use crate::tokenize::lemma_vec2_deep;
use crate::tokenize::tokens_of;
use crate::width::byte_len;
use crate::width::char_w;
use crate::width::char_w_of;
use crate::width::is_space;
use crate::width::is_space_char;
use crate::width::seq_w;
use crate::width::width_of_chars;

verus! {

/// A token without its trailing white-space character: the bare word.
pub open spec fn core_of(t: Seq<char>) -> Seq<char> {
    if t.len() > 0 && is_space(t.last()) {
        t.drop_last()
    } else {
        t
    }
}

/// The maximal white-space-free runs of `text`: its tokens with each one's
/// trailing white-space character removed.
pub open spec fn ws_units(text: Seq<char>) -> Seq<Seq<char>> {
    tokens_of(text).map_values(|t: Seq<char>| core_of(t))
}

/// The positions at which a new chunk starts while scanning `u` from
/// position `i` with accumulated width `q`: a character that would push the
/// running chunk past `budget` starts the next chunk.
pub open spec fn chunk_starts_from(u: Seq<char>, budget: nat, wc: bool, i: int, q: nat) -> Seq<int>
    decreases u.len() - i,
{
    if i < 0 || i >= u.len() {
        Seq::empty()
    } else {
        let q2 = q + char_w(u[i], wc);
        if q2 > budget {
            seq![i] + chunk_starts_from(u, budget, wc, i + 1, char_w(u[i], wc))
        } else {
            chunk_starts_from(u, budget, wc, i + 1, q2)
        }
    }
}

/// All chunk start positions of a unit: 0 followed by every position that
/// begins a new chunk.
pub open spec fn chunk_starts(u: Seq<char>, budget: nat, wc: bool) -> Seq<int> {
    seq![0int] + chunk_starts_from(u, budget, wc, 0, 0)
}

/// The positions `chunk_starts_from` produces lie in `[i, u.len())` and
/// rise strictly.
pub proof fn lemma_chunk_starts_from_range(u: Seq<char>, budget: nat, wc: bool, i: int, q: nat)
    requires
        0 <= i,
    ensures
        crate::breaks::inc_in_range(chunk_starts_from(u, budget, wc, i, q), i, u.len() as int),
    decreases u.len() - i,
{
    let bs = chunk_starts_from(u, budget, wc, i, q);
    if 0 <= i < u.len() {
        let q2 = q + char_w(u[i], wc);
        if q2 > budget {
            lemma_chunk_starts_from_range(u, budget, wc, i + 1, char_w(u[i], wc));
            let sub = chunk_starts_from(u, budget, wc, i + 1, char_w(u[i], wc));
            assert(bs == seq![i] + sub);
            assert forall|k: int| 0 <= k < bs.len() implies i <= #[trigger] bs[k] < u.len() by {
                if k > 0 {
                    assert(bs[k] == sub[k - 1]);
                }
            }
            assert forall|k: int| 0 <= k < bs.len() - 1 implies #[trigger] bs[k] < bs[k + 1] by {
                if k == 0 {
                    assert(bs[1] == sub[0]);
                } else {
                    assert(bs[k] == sub[k - 1]);
                    assert(bs[k + 1] == sub[k]);
                }
            }
        } else {
            lemma_chunk_starts_from_range(u, budget, wc, i + 1, q2);
        }
    }
}

/// The chunks the start positions cut out of the unit.
pub open spec fn chunks_of(u: Seq<char>, starts: Seq<int>) -> Seq<Seq<char>> {
    Seq::new(
        starts.len(),
        |k: int|
            if k < starts.len() - 1 {
                u.subrange(starts[k], starts[k + 1])
            } else {
                u.subrange(starts[k], u.len() as int)
            },
    )
}

/// An over-wide unit cut into chunks: the hyphen string is appended to
/// every chunk but the last, and the results are joined with the joiner.
pub open spec fn hyph_chunked(
    u: Seq<char>,
    budget: nat,
    wc: bool,
    hyphen: Seq<char>,
    joiner: Seq<char>,
) -> Seq<char> {
    let chunks = chunks_of(u, chunk_starts(u, budget, wc));
    let parts = Seq::new(
        chunks.len(),
        |k: int|
            if k < chunks.len() - 1 {
                chunks[k] + hyphen
            } else {
                chunks[k]
            },
    );
    join_sep(parts, joiner)
}

/// The string that separates units when the hyphenator reassembles them: a
/// single space between words, or the newline string between lines when
/// spaces are ignored.
pub open spec fn hyph_joiner<P>(s: Settings<P>) -> Seq<char> {
    if s.ignore_spaces {
        s.newline@
    } else {
        seq![' ']
    }
}

/// The units the hyphenator works over: lines as cut by the newline string
/// when spaces are ignored, bare words otherwise.
pub open spec fn hyph_units<P>(text: Seq<char>, s: Settings<P>) -> Seq<Seq<char>> {
    if s.ignore_spaces {
        split_seq(text, s.newline@)
    } else {
        ws_units(text)
    }
}

/// One unit after the hyphenation pass: cut into hyphen-joined chunks when
/// its measured width passes the target, untouched otherwise.
pub open spec fn hyph_unit<P>(u: Seq<char>, s: Settings<P>) -> Seq<char>
    recommends
        byte_len(s.hyphen@) < s.width as nat,
{
    if seq_w(u, s.wcwidth) > s.width as nat {
        hyph_chunked(
            u,
            (s.width - byte_len(s.hyphen@)) as nat,
            s.wcwidth,
            s.hyphen@,
            hyph_joiner(s),
        )
    } else {
        u
    }
}

/// The whole text after the hyphenation pass: every unit transformed, and
/// the units rejoined with the joiner in their original order.
pub open spec fn hyph_doc<P>(text: Seq<char>, s: Settings<P>) -> Seq<char>
    recommends
        byte_len(s.hyphen@) < s.width as nat,
{
    join_sep(hyph_units(text, s).map_values(|u: Seq<char>| hyph_unit(u, s)), hyph_joiner(s))
}

/// Splits the text into its maximal white-space-free runs.
pub fn split_into_units(text: &Vec<char>) -> (r: Vec<Vec<char>>)
    ensures
        r.deep_view() == ws_units(text@),
{
    let words = crate::tokenize::split_into_words(text);
    let ghost toks = tokens_of(text@);
    proof {
        crate::tokenize::lemma_tokens_wf(text@);
        lemma_vec2_deep(&words);
    }
    let mut out: Vec<Vec<char>> = Vec::new();
    let mut k: usize = 0;
    while k < words.len()
        invariant
            0 <= k <= words@.len(),
            toks == tokens_of(text@),
            words.deep_view() == toks,
            words@.len() == toks.len(),
            forall|m: int| 0 <= m < words@.len() ==> words@[m]@ == toks[m],
            crate::tokenize::wf_tokens(toks),
            out@.len() == k,
            forall|m: int| 0 <= m < k ==> out@[m]@ == core_of(toks[m]),
        decreases words@.len() - k,
    {
        let tok = &words[k];
        proof {
            assert(toks[k as int].len() >= 1);
        }
        let tlen = tok.len();
        let last_c = tok[tlen - 1];
        let piece = if is_space_char(last_c) {
            crate::textops::subvec(tok, 0, tlen - 1)
        } else {
            crate::textops::subvec(tok, 0, tlen)
        };
        proof {
            if is_space(toks[k as int].last()) {
                assert(piece@ =~= toks[k as int].drop_last());
            } else {
                assert(piece@ =~= toks[k as int]);
            }
        }
        out.push(piece);
        k = k + 1;
    }
    proof {
        lemma_vec2_deep(&out);
        assert(out.deep_view() =~= ws_units(text@));
    }
    out
}

/// Cuts one over-wide unit into chunks that each fit `budget`, appends the
/// hyphen to all but the last, and joins them with the joiner.
fn hyph_one(
    u: &Vec<char>,
    budget: usize,
    wc: bool,
    hyphen: &Vec<char>,
    joiner: &Vec<char>,
) -> (r: Vec<char>)
    ensures
        r@ == hyph_chunked(u@, budget as nat, wc, hyphen@, joiner@),
{
    let ghost starts_spec = chunk_starts(u@, budget as nat, wc);
    // greedy scan for the chunk start positions
    let mut starts: Vec<usize> = Vec::new();
    starts.push(0);
    let mut q: u128 = 0;
    let mut i: usize = 0;
    proof {
        assert(starts@.map_values(|x: usize| x as int) =~= seq![0int]);
        assert(starts_spec =~= starts@.map_values(|x: usize| x as int) + chunk_starts_from(
            u@,
            budget as nat,
            wc,
            0,
            0,
        ));
    }
    while i < u.len()
        invariant
            0 <= i <= u@.len(),
            q <= u64::MAX as u128 + 4,
            starts_spec == chunk_starts(u@, budget as nat, wc),
            starts_spec == starts@.map_values(|x: usize| x as int) + chunk_starts_from(
                u@,
                budget as nat,
                wc,
                i as int,
                q as nat,
            ),
        decreases u@.len() - i,
    {
        let w = char_w_of(u[i], wc);
        let q2 = q + (w as u128);
        if q2 > budget as u128 {
            let ghost old_map = starts@.map_values(|x: usize| x as int);
            starts.push(i);
            q = w as u128;
            proof {
                assert(starts@.map_values(|x: usize| x as int) =~= old_map + seq![i as int]);
                assert(starts_spec =~= starts@.map_values(|x: usize| x as int)
                    + chunk_starts_from(u@, budget as nat, wc, i + 1, char_w(u@[i as int], wc)));
            }
        } else {
            q = q2;
            proof {
                assert(q as nat <= budget as nat);
                assert(starts_spec =~= starts@.map_values(|x: usize| x as int)
                    + chunk_starts_from(u@, budget as nat, wc, i + 1, q as nat));
            }
        }
        i = i + 1;
    }
    proof {
        assert(chunk_starts_from(u@, budget as nat, wc, u@.len() as int, q as nat) =~= Seq::<
            int,
        >::empty());
        assert(starts_spec =~= starts@.map_values(|x: usize| x as int));
        lemma_chunk_starts_from_range(u@, budget as nat, wc, 0, 0);
    }
    // cut the chunks out and append the hyphen to all but the last
    let ghost chunks = chunks_of(u@, starts_spec);
    let mut parts: Vec<Vec<char>> = Vec::new();
    let mut k: usize = 0;
    let n_starts = starts.len();
    while k < n_starts
        invariant
            0 <= k <= n_starts,
            n_starts == starts@.len(),
            starts_spec == starts@.map_values(|x: usize| x as int),
            starts_spec == chunk_starts(u@, budget as nat, wc),
            chunks == chunks_of(u@, starts_spec),
            crate::breaks::inc_in_range(
                chunk_starts_from(u@, budget as nat, wc, 0, 0),
                0,
                u@.len() as int,
            ),
            starts_spec.len() >= 1,
            starts_spec[0] == 0,
            parts@.len() == k,
            forall|m: int|
                0 <= m < k ==> #[trigger] parts@[m]@ == (if m < starts_spec.len() - 1 {
                    chunks[m] + hyphen@
                } else {
                    chunks[m]
                }),
        decreases n_starts - k,
    {
        let a = starts[k];
        proof {
            assert(starts_spec[k as int] == a as int);
            if k as int > 0 {
                assert(starts_spec[k as int] == chunk_starts_from(
                    u@,
                    budget as nat,
                    wc,
                    0,
                    0,
                )[k - 1]);
            }
            if (k as int) < starts_spec.len() - 1 {
                assert(starts_spec[k + 1] == chunk_starts_from(u@, budget as nat, wc, 0, 0)[
                    k as int]);
                if k as int > 0 {
                    assert(chunk_starts_from(u@, budget as nat, wc, 0, 0)[k - 1]
                        < chunk_starts_from(u@, budget as nat, wc, 0, 0)[k as int]);
                }
            }
            assert(0 <= a as int <= u@.len());
        }
        let b = if k + 1 < n_starts {
            starts[k + 1]
        } else {
            u.len()
        };
        proof {
            assert(a <= b <= u@.len());
        }
        let mut chunk = crate::textops::subvec(u, a, b);
        proof {
            assert(chunk@ == chunks[k as int]);
        }
        if k + 1 < n_starts {
            crate::textops::append_chars(&mut chunk, hyphen);
            proof {
                assert(chunk@ == chunks[k as int] + hyphen@);
            }
        }
        parts.push(chunk);
        k = k + 1;
    }
    let r = crate::textops::join_chars(&parts, joiner);
    proof {
        lemma_vec2_deep(&parts);
        assert(parts.deep_view() =~= Seq::new(
            chunks.len(),
            |m: int|
                if m < chunks.len() - 1 {
                    chunks[m] + hyphen@
                } else {
                    chunks[m]
                },
        ));
    }
    r
}

/// Runs the hyphenation pass over the whole text: every unit wider than the
/// target is cut into hyphen-joined chunks, and the units are rejoined in
/// order.
pub fn hyphenate_overflow<P>(text: &Vec<char>, settings: &Settings<P>) -> (r: Vec<char>)
    requires
        byte_len(settings.hyphen@) < settings.width as nat,
    ensures
        r@ == hyph_doc(text@, *settings),
{
    let hyphen_chars = crate::strconv::chars_vec(settings.hyphen.as_str());
    let newline_chars = crate::strconv::chars_vec(settings.newline.as_str());
    let units: Vec<Vec<char>> = if settings.ignore_spaces {
        crate::textops::split_chars(text, &newline_chars)
    } else {
        split_into_units(text)
    };
    let ghost units_spec = hyph_units(text@, *settings);
    proof {
        assert(units.deep_view() == units_spec);
        lemma_vec2_deep(&units);
    }
    let mut joiner: Vec<char> = Vec::new();
    if settings.ignore_spaces {
        crate::textops::append_chars(&mut joiner, &newline_chars);
    } else {
        joiner.push(' ');
    }
    proof {
        assert(joiner@ =~= hyph_joiner(*settings));
    }
    let hb = width_of_chars(&hyphen_chars, false);
    proof {
        assert(hb as nat == byte_len(settings.hyphen@));
        assert(hb < settings.width as u128);
    }
    let budget = settings.width - (hb as usize);
    let wu = settings.width as u128;
    let mut parts: Vec<Vec<char>> = Vec::new();
    let mut k: usize = 0;
    while k < units.len()
        invariant
            0 <= k <= units@.len(),
            units.deep_view() == units_spec,
            units@.len() == units_spec.len(),
            forall|m: int| 0 <= m < units@.len() ==> units@[m]@ == units_spec[m],
            joiner@ == hyph_joiner(*settings),
            wu == settings.width as u128,
            hb as nat == byte_len(settings.hyphen@),
            hb < settings.width as u128,
            budget as nat == settings.width as nat - byte_len(settings.hyphen@),
            hyphen_chars@ == settings.hyphen@,
            parts@.len() == k,
            forall|m: int| 0 <= m < k ==> #[trigger] parts@[m]@ == hyph_unit(
                units_spec[m],
                *settings,
            ),
        decreases units@.len() - k,
    {
        let w = width_of_chars(&units[k], settings.wcwidth);
        proof {
            assert(w as nat == seq_w(units_spec[k as int], settings.wcwidth));
        }
        if w > wu {
            let piece = hyph_one(&units[k], budget, settings.wcwidth, &hyphen_chars, &joiner);
            parts.push(piece);
        } else {
            let piece = crate::textops::subvec(&units[k], 0, units[k].len());
            proof {
                assert(piece@ =~= units_spec[k as int]);
            }
            parts.push(piece);
        }
        k = k + 1;
    }
    let r = crate::textops::join_chars(&parts, &joiner);
    proof {
        lemma_vec2_deep(&parts);
        assert(parts.deep_view() =~= units_spec.map_values(|u: Seq<char>| hyph_unit(u, *settings)));
    }
    r
}

} // verus!
