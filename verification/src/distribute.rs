//! Space distribution: padding a line to the target width by inserting
//! spaces into the gaps between its tokens, following a placement policy.

use vstd::prelude::*;
use crate::settings::InsertAt;
use crate::settings::Placer;
use crate::tokenize::lemma_vec2_deep;

verus! {

/// The gap (numbered from 0 at the left, of `gaps` many) that receives
/// space unit `u` of `total` under policy `ia`. `Left` cycles through the
/// gaps from the left, `Right` from the right, `Balanced` alternates inward
/// from both ends, and `Custom` asks the caller's strategy, any out-of-range
/// answer counting as the leftmost gap (the executable strategy is bound to
/// stay in range, so the case never arises in compiled code).
pub open spec fn unit_gap<P: Placer>(
    ia: InsertAt<P>,
    u: nat,
    total: nat,
    gaps: nat,
    line: Seq<Seq<char>>,
) -> nat
    recommends
        gaps >= 1,
{
    match ia {
        InsertAt::Left => u % gaps,
        InsertAt::Right => (gaps - 1 - ((u % gaps) as int)) as nat,
        InsertAt::Balanced => {
            let j = (u % gaps) + 1;
            if j % 2 == 0 {
                (gaps - j / 2) as nat
            } else {
                j / 2
            }
        },
        InsertAt::Custom(p) => {
            let g = p.place_spec(u, total, gaps, line);
            if g < gaps {
                g
            } else {
                0
            }
        },
    }
}

/// Every unit lands in a real gap.
pub proof fn lemma_unit_gap_in_range<P: Placer>(
    ia: InsertAt<P>,
    u: nat,
    total: nat,
    gaps: nat,
    line: Seq<Seq<char>>,
)
    requires
        gaps >= 1,
    ensures
        unit_gap(ia, u, total, gaps, line) < gaps,
{
}

/// How many of the first `k` space units land in gap `g`.
pub open spec fn gap_count<P: Placer>(
    ia: InsertAt<P>,
    k: nat,
    total: nat,
    gaps: nat,
    line: Seq<Seq<char>>,
    g: nat,
) -> nat
    decreases k,
{
    if k == 0 {
        0
    } else {
        gap_count(ia, (k - 1) as nat, total, gaps, line, g) + (if unit_gap(
            ia,
            (k - 1) as nat,
            total,
            gaps,
            line,
        ) == g {
            1nat
        } else {
            0nat
        })
    }
}

/// A gap holds at most one unit per round.
pub proof fn lemma_gap_count_le<P: Placer>(
    ia: InsertAt<P>,
    k: nat,
    total: nat,
    gaps: nat,
    line: Seq<Seq<char>>,
    g: nat,
)
    ensures
        gap_count(ia, k, total, gaps, line, g) <= k,
    decreases k,
{
    if k > 0 {
        lemma_gap_count_le(ia, (k - 1) as nat, total, gaps, line, g);
    }
}

/// A run of `n` spaces.
pub open spec fn spaces_seq(n: nat) -> Seq<char> {
    Seq::new(n, |i: int| ' ')
}

/// The tokens from position `k` on, joined with `counts[k]` spaces after
/// each token except the line's last.
pub open spec fn join_counts_from(line: Seq<Seq<char>>, counts: Seq<nat>, k: int) -> Seq<char>
    decreases line.len() - k,
{
    if k < 0 || k >= line.len() {
        Seq::empty()
    } else if k == line.len() - 1 {
        line[k]
    } else {
        line[k] + spaces_seq(counts[k]) + join_counts_from(line, counts, k + 1)
    }
}

/// The number of spaces each gap receives when `add` units are distributed.
pub open spec fn counts_of<P: Placer>(
    ia: InsertAt<P>,
    add: nat,
    gaps: nat,
    line: Seq<Seq<char>>,
) -> Seq<nat> {
    Seq::new(gaps, |g: int| gap_count(ia, add, add, gaps, line, g as nat))
}

/// A line with `add` spaces distributed over its gaps under policy `ia`: an
/// empty line stays empty, a single token stands alone with no padding, and
/// otherwise each gap receives its counted share of spaces.
pub open spec fn distributed<P: Placer>(
    ia: InsertAt<P>,
    add: nat,
    line: Seq<Seq<char>>,
) -> Seq<char> {
    if line.len() == 0 {
        Seq::empty()
    } else if line.len() == 1 {
        line[0]
    } else {
        join_counts_from(line, counts_of(ia, add, (line.len() - 1) as nat, line), 0)
    }
}

/// Inserts `add` spaces into the gaps of `line` following `insert_at`, and
/// returns the tokens joined with their padding: no spaces are added before
/// the first or after the last token, and a line of at most one token is
/// returned unpadded.
pub fn add_spaces<P: Placer>(add: usize, line: &Vec<Vec<char>>, insert_at: &InsertAt<P>) -> (r:
    Vec<char>)
    ensures
        r@ == distributed(*insert_at, add as nat, line.deep_view()),
{
    let ghost dl = line.deep_view();
    proof {
        lemma_vec2_deep(line);
    }
    if line.len() == 0 {
        let r: Vec<char> = Vec::new();
        proof {
            assert(r@ =~= distributed(*insert_at, add as nat, dl));
        }
        return r;
    }
    if line.len() == 1 {
        let r = crate::textops::subvec(&line[0], 0, line[0].len());
        proof {
            assert(r@ =~= dl[0]);
        }
        return r;
    }
    let v_i = line.len() - 1;
    let ghost gaps = v_i as nat;
    // one counter per gap
    let mut add_v: Vec<usize> = Vec::new();
    let mut z: usize = 0;
    while z < v_i
        invariant
            0 <= z <= v_i,
            add_v@.len() == z,
            forall|m: int| 0 <= m < z ==> add_v@[m] == 0,
        decreases v_i - z,
    {
        add_v.push(0);
        z = z + 1;
    }
    // place each unit in its gap
    let mut u: usize = 0;
    while u < add
        invariant
            0 <= u <= add,
            v_i >= 1,
            v_i + 1 == line@.len(),
            gaps == v_i as nat,
            dl == line.deep_view(),
            dl.len() == line@.len(),
            add_v@.len() == v_i,
            forall|g: int| 0 <= g < v_i ==> #[trigger] add_v@[g] as nat == gap_count(
                *insert_at,
                u as nat,
                add as nat,
                gaps,
                dl,
                g as nat,
            ),
        decreases add - u,
    {
        let j: usize = match insert_at {
            InsertAt::Left => u % v_i,
            InsertAt::Right => v_i - 1 - (u % v_i),
            InsertAt::Balanced => {
                let jj = (u % v_i) + 1;
                if jj % 2 == 0 {
                    v_i - jj / 2
                } else {
                    jj / 2
                }
            },
            InsertAt::Custom(p) => p.place(u, add, v_i, line),
        };
        proof {
            assert(j as nat == unit_gap(*insert_at, u as nat, add as nat, gaps, dl));
            lemma_unit_gap_in_range(*insert_at, u as nat, add as nat, gaps, dl);
            lemma_gap_count_le(*insert_at, u as nat, add as nat, gaps, dl, j as nat);
        }
        let cur = add_v[j];
        add_v[j] = cur + 1;
        proof {
            assert forall|g: int| 0 <= g < v_i implies #[trigger] add_v@[g] as nat == gap_count(
                *insert_at,
                (u + 1) as nat,
                add as nat,
                gaps,
                dl,
                g as nat,
            ) by {
                assert(gap_count(*insert_at, (u + 1) as nat, add as nat, gaps, dl, g as nat)
                    == gap_count(*insert_at, u as nat, add as nat, gaps, dl, g as nat) + (
                if unit_gap(*insert_at, u as nat, add as nat, gaps, dl) == g as nat {
                    1nat
                } else {
                    0nat
                }));
            }
        }
        u = u + 1;
    }
    // join the tokens with their gaps' spaces
    let ghost cts = counts_of(*insert_at, add as nat, gaps, dl);
    proof {
        assert(cts.len() == gaps);
        assert forall|g: int| 0 <= g < v_i implies cts[g] == add_v@[g] as nat by {}
    }
    let mut out: Vec<char> = Vec::new();
    let mut k: usize = 0;
    proof {
        assert(join_counts_from(dl, cts, 0) == out@ + join_counts_from(dl, cts, 0));
        assert(out@ + join_counts_from(dl, cts, 0) =~= join_counts_from(dl, cts, 0));
    }
    while k < line.len()
        invariant
            0 <= k <= line@.len(),
            line@.len() == v_i + 1,
            v_i >= 1,
            gaps == v_i as nat,
            dl == line.deep_view(),
            dl.len() == line@.len(),
            forall|m: int| 0 <= m < line@.len() ==> dl[m] == line@[m]@,
            add_v@.len() == v_i,
            cts.len() == gaps,
            forall|g: int| 0 <= g < v_i ==> #[trigger] cts[g] == add_v@[g] as nat,
            join_counts_from(dl, cts, 0) == out@ + join_counts_from(dl, cts, k as int),
        decreases line@.len() - k,
    {
        crate::textops::append_chars(&mut out, &line[k]);
        if k < v_i {
            let ghost before = out@;
            let target = add_v[k];
            let mut m: usize = 0;
            while m < target
                invariant
                    0 <= m <= target,
                    out@ == before + spaces_seq(m as nat),
                decreases target - m,
            {
                out.push(' ');
                proof {
                    assert(spaces_seq((m + 1) as nat) =~= spaces_seq(m as nat).push(' '));
                    assert(before + spaces_seq((m + 1) as nat) =~= (before + spaces_seq(
                        m as nat,
                    )).push(' '));
                }
                m = m + 1;
            }
            proof {
                assert(join_counts_from(dl, cts, k as int) == dl[k as int] + spaces_seq(
                    cts[k as int],
                ) + join_counts_from(dl, cts, k + 1));
                assert(join_counts_from(dl, cts, 0) =~= out@ + join_counts_from(dl, cts, k + 1));
            }
        } else {
            proof {
                assert(k == v_i);
                assert(join_counts_from(dl, cts, k as int) == dl[k as int]);
                assert(join_counts_from(dl, cts, k + 1) =~= Seq::<char>::empty());
                assert(join_counts_from(dl, cts, 0) =~= out@ + join_counts_from(dl, cts, k + 1));
            }
        }
        k = k + 1;
    }
    proof {
        assert(join_counts_from(dl, cts, line@.len() as int) =~= Seq::<char>::empty());
        assert(out@ =~= join_counts_from(dl, cts, 0));
        assert(distributed(*insert_at, add as nat, dl) == join_counts_from(dl, cts, 0));
    }
    out
}

} // verus!
