//! Configuration for the justifier: placement policies and the settings
//! record shared by every entry point.

use vstd::prelude::*;

verus! {

/// A space-placement strategy supplied by the caller for `InsertAt::Custom`.
///
/// For each of the `total` space units inserted into a line, `place` picks
/// the gap (of `gaps` many, numbered from 0 at the left) that receives the
/// unit. `place_spec` is the strategy's own mathematical description of that
/// choice; `place` must agree with it, which keeps custom placement
/// deterministic and free of hidden state.
pub trait Placer: Sized {
    /// The gap chosen for unit `unit` of `total` on a line with `gaps` gaps.
    spec fn place_spec(&self, unit: nat, total: nat, gaps: nat, line: Seq<Seq<char>>) -> nat;

    /// The executable choice; it must match `place_spec` and stay in bounds.
    fn place(&self, unit: usize, total: usize, gaps: usize, line: &Vec<Vec<char>>) -> (r: usize)
        requires
            1 <= gaps,
            unit < total,
        ensures
            r < gaps,
            r as nat == self.place_spec(unit as nat, total as nat, gaps as nat, line.deep_view()),
    ;
}

/// The placement strategy that puts every inserted space in the leftmost gap.
pub struct LeftmostPlacer;

impl Placer for LeftmostPlacer {
    open spec fn place_spec(&self, unit: nat, total: nat, gaps: nat, line: Seq<Seq<char>>) -> nat {
        0
    }

    fn place(&self, unit: usize, total: usize, gaps: usize, line: &Vec<Vec<char>>) -> (r: usize) {
        0
    }
}

/// Where inserted spaces go within a line.
pub enum InsertAt<P> {
    /// Spaces fill the leftmost gaps first on each pass over the line.
    Left,
    /// Spaces fill the rightmost gaps first on each pass over the line.
    Right,
    /// Spaces alternate inward from both ends: the first unit goes to the
    /// first gap, the second to the last gap, the third to the second gap,
    /// and so on, cycling when there are more units than gaps.
    Balanced,
    /// A caller-supplied strategy decides the gap for every unit.
    Custom(P),
}

/// Settings used by `justify` and `justify_paragraph`.
pub struct Settings<P> {
    /// Whether the last line of a paragraph is padded like the others.
    pub justify_last_line: bool,
    /// Whether units wider than `width` are broken into hyphenated chunks.
    pub hyphenate_overflow: bool,
    /// Target width of each line, in measurement units.
    pub width: usize,
    /// The pattern by which spaces are inserted into a line.
    pub insert_at: InsertAt<P>,
    /// Measure width in terminal display cells instead of UTF-8 bytes.
    pub wcwidth: bool,
    /// Join the words of a line with single spaces instead of distributing
    /// padding; useful with `hyphenate_overflow` for text without spaces.
    pub ignore_spaces: bool,
    /// The string that separates lines of one justified paragraph.
    pub newline: String,
    /// The string appended to every chunk but the last when hyphenating.
    pub hyphen: String,
    /// The string that separates justified paragraphs in `justify`.
    pub separator: String,
}

impl Default for Settings<LeftmostPlacer> {
    /// The default settings: 80 columns, byte measure, balanced placement.
    fn default() -> (s: Self)
        ensures
            s.justify_last_line == false,
            s.hyphenate_overflow == false,
            s.width == 80,
            s.insert_at is Balanced,
            s.wcwidth == false,
            s.ignore_spaces == false,
            s.newline@ == seq!['\n'],
            s.hyphen@ == seq!['-'],
            s.separator@ == seq!['\n', '\n'],
    {
        proof {
            reveal_strlit("\n");
            reveal_strlit("-");
            reveal_strlit("\n\n");
        }
        let s = Settings {
            justify_last_line: false,
            hyphenate_overflow: false,
            width: 80,
            insert_at: InsertAt::Balanced,
            wcwidth: false,
            ignore_spaces: false,
            newline: "\n".to_owned(),
            hyphen: "-".to_owned(),
            separator: "\n\n".to_owned(),
        };
        proof {
            assert(s.newline@ =~= seq!['\n']);
            assert(s.hyphen@ =~= seq!['-']);
            assert(s.separator@ =~= seq!['\n', '\n']);
        }
        s
    }
}

/// The failures the justification entry points report.
#[derive(Clone, Copy, Debug, PartialEq, Eq, Structural)]
pub enum JustifyError {
    /// A paragraph-level call received text containing a literal newline.
    InvalidInput,
    /// Hyphenation was requested with a target width no larger than the
    /// hyphen string, which leaves no room for any chunk.
    InvalidSettings,
}

} // verus!
