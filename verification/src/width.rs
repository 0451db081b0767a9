//! Character and string width measurement.
//!
//! Width is measured either in UTF-8 bytes (the default) or in terminal
//! display cells, where East-Asian wide characters occupy two columns and
//! combining marks occupy none.

use vstd::prelude::*;

verus! {

/// The Unicode `White_Space` code points, the characters that
/// `char::is_whitespace` recognises.
pub open spec fn is_space(c: char) -> bool {
    let u = c as u32;
    u == 0x20 || (0x09 <= u && u <= 0x0D) || u == 0x85 || u == 0xA0 || u == 0x1680 || (0x2000 <= u
        && u <= 0x200A) || u == 0x2028 || u == 0x2029 || u == 0x202F || u == 0x205F || u == 0x3000
}

/// Number of bytes in the UTF-8 encoding of `c`.
pub open spec fn utf8_len(c: char) -> nat {
    let u = c as u32;
    if u < 0x80 {
        1
    } else if u < 0x800 {
        2
    } else if u < 0x10000 {
        3
    } else {
        4
    }
}

/// The terminal cell width of `c` as the `unicode_width` crate reports it,
/// with a control character (reported there as `None`) counting as 0 cells.
pub uninterp spec fn cell_width(c: char) -> nat;

/// Width of one character under the chosen measurement mode: terminal cells
/// when `wc` is set, UTF-8 bytes otherwise.
pub open spec fn char_w(c: char, wc: bool) -> nat {
    if wc {
        cell_width(c)
    } else {
        utf8_len(c)
    }
}

/// Measured width of a character sequence: the sum of its characters' widths.
pub open spec fn seq_w(s: Seq<char>, wc: bool) -> nat
    decreases s.len(),
{
    if s.len() == 0 {
        0
    } else {
        char_w(s[0], wc) + seq_w(s.drop_first(), wc)
    }
}

/// Byte length of the UTF-8 encoding of `s`.
pub open spec fn byte_len(s: Seq<char>) -> nat {
    seq_w(s, false)
}

/// Relies on `unicode_width::UnicodeWidthChar::width` for the cell width of a
/// character; a control character, reported there as `None`, counts as 0
/// cells. The crate's tables give every single character a width of at most
/// 3, and give the ASCII space width 1.
#[verifier::external_body]
fn cell_width_of(c: char) -> (r: usize)
    ensures
        r as nat == cell_width(c),
        r <= 3,
        c == ' ' ==> r == 1,
{
    unicode_width::UnicodeWidthChar::width(c).unwrap_or(0)
}

/// Whether `c` is a Unicode white-space character.
pub fn is_space_char(c: char) -> (r: bool)
    ensures
        r == is_space(c),
{
    let u = c as u32;
    u == 0x20 || (0x09 <= u && u <= 0x0D) || u == 0x85 || u == 0xA0 || u == 0x1680 || (0x2000 <= u
        && u <= 0x200A) || u == 0x2028 || u == 0x2029 || u == 0x202F || u == 0x205F || u == 0x3000
}

/// Number of bytes in the UTF-8 encoding of `c`.
fn utf8_len_of(c: char) -> (r: usize)
    ensures
        r as nat == utf8_len(c),
{
    let u = c as u32;
    if u < 0x80 {
        1
    } else if u < 0x800 {
        2
    } else if u < 0x10000 {
        3
    } else {
        4
    }
}

/// Width of one character under the chosen measurement mode.
pub fn char_w_of(c: char, wc: bool) -> (r: usize)
    ensures
        r as nat == char_w(c, wc),
        r <= 4,
{
    if wc {
        cell_width_of(c)
    } else {
        utf8_len_of(c)
    }
}

/// Appending one character adds that character's width.
pub proof fn lemma_seq_w_push(s: Seq<char>, wc: bool, c: char)
    ensures
        seq_w(s.push(c), wc) == seq_w(s, wc) + char_w(c, wc),
    decreases s.len(),
{
    assert(s.push(c).len() == s.len() + 1);
    assert(seq_w(s.push(c), wc) == char_w(s.push(c)[0], wc) + seq_w(s.push(c).drop_first(), wc));
    if s.len() == 0 {
        assert(s.push(c)[0] == c);
        assert(s.push(c).drop_first() =~= Seq::<char>::empty());
        assert(seq_w(Seq::<char>::empty(), wc) == 0);
    } else {
        assert(s.push(c)[0] == s[0]);
        assert(s.push(c).drop_first() =~= s.drop_first().push(c));
        lemma_seq_w_push(s.drop_first(), wc, c);
    }
}

/// Width adds over concatenation.
pub proof fn lemma_seq_w_concat(a: Seq<char>, b: Seq<char>, wc: bool)
    ensures
        seq_w(a + b, wc) == seq_w(a, wc) + seq_w(b, wc),
    decreases a.len(),
{
    if a.len() == 0 {
        assert(a + b =~= b);
    } else {
        assert((a + b).drop_first() =~= a.drop_first() + b);
        lemma_seq_w_concat(a.drop_first(), b, wc);
    }
}

/// Dropping the final character removes that character's width.
pub proof fn lemma_seq_w_drop_last(s: Seq<char>, wc: bool)
    requires
        s.len() >= 1,
    ensures
        seq_w(s, wc) == seq_w(s.drop_last(), wc) + char_w(s.last(), wc),
{
    assert(s =~= s.drop_last().push(s.last()));
    lemma_seq_w_push(s.drop_last(), wc, s.last());
}

/// Measured width of a vector of characters, as a 128-bit count that no
/// input reachable in practice can overflow.
pub fn width_of_chars(s: &Vec<char>, wc: bool) -> (r: u128)
    ensures
        r as nat == seq_w(s@, wc),
        r <= 4 * s@.len(),
{
    let mut acc: u128 = 0;
    let mut i: usize = 0;
    while i < s.len()
        invariant
            0 <= i <= s@.len(),
            acc as nat == seq_w(s@.take(i as int), wc),
            acc <= 4 * i,
        decreases s@.len() - i,
    {
        let w = char_w_of(s[i], wc);
        proof {
            assert(s@.take(i + 1) =~= s@.take(i as int).push(s@[i as int]));
            lemma_seq_w_push(s@.take(i as int), wc, s@[i as int]);
        }
        acc = acc + (w as u128);
        i = i + 1;
    }
    proof {
        assert(s@.take(s@.len() as int) =~= s@);
    }
    acc
}


/// Measured width of a line of tokens: the sum of the tokens' widths.
pub open spec fn line_w(line: Seq<Seq<char>>, wc: bool) -> nat
    decreases line.len(),
{
    if line.len() == 0 {
        0
    } else {
        seq_w(line[0], wc) + line_w(line.drop_first(), wc)
    }
}

/// Appending one token adds that token's width to the line's width.
pub proof fn lemma_line_w_push(line: Seq<Seq<char>>, wc: bool, t: Seq<char>)
    ensures
        line_w(line.push(t), wc) == line_w(line, wc) + seq_w(t, wc),
    decreases line.len(),
{
    assert(line.push(t).len() == line.len() + 1);
    assert(line_w(line.push(t), wc) == seq_w(line.push(t)[0], wc) + line_w(
        line.push(t).drop_first(),
        wc,
    ));
    if line.len() == 0 {
        assert(line.push(t)[0] == t);
        assert(line.push(t).drop_first() =~= Seq::<Seq<char>>::empty());
        assert(line_w(Seq::<Seq<char>>::empty(), wc) == 0);
    } else {
        assert(line.push(t)[0] == line[0]);
        assert(line.push(t).drop_first() =~= line.drop_first().push(t));
        lemma_line_w_push(line.drop_first(), wc, t);
    }
}

/// Measured width of a line of tokens, saturating at the 128-bit limit,
/// which no input reachable in practice approaches.
pub fn line_width_capped(line: &Vec<Vec<char>>, wc: bool) -> (r: u128)
    ensures
        line_w(line.deep_view(), wc) <= u128::MAX ==> r as nat == line_w(line.deep_view(), wc),
        line_w(line.deep_view(), wc) > u128::MAX ==> r == u128::MAX,
{
    let ghost dl = line.deep_view();
    proof {
        crate::tokenize::lemma_vec2_deep(line);
    }
    let mut acc: u128 = 0;
    let mut k: usize = 0;
    proof {
        assert(dl.take(0) =~= Seq::<Seq<char>>::empty());
    }
    while k < line.len()
        invariant
            0 <= k <= line@.len(),
            dl == line.deep_view(),
            dl.len() == line@.len(),
            forall|i: int| 0 <= i < line@.len() ==> dl[i] == line@[i]@,
            line_w(dl.take(k as int), wc) <= u128::MAX ==> acc as nat == line_w(
                dl.take(k as int),
                wc,
            ),
            line_w(dl.take(k as int), wc) > u128::MAX ==> acc == u128::MAX,
        decreases line@.len() - k,
    {
        let w = width_of_chars(&line[k], wc);
        proof {
            assert(dl.take(k + 1) =~= dl.take(k as int).push(dl[k as int]));
            lemma_line_w_push(dl.take(k as int), wc, dl[k as int]);
        }
        if w > u128::MAX - acc {
            acc = u128::MAX;
        } else {
            acc = acc + w;
        }
        k = k + 1;
    }
    proof {
        assert(dl.take(line@.len() as int) =~= dl);
    }
    acc
}

} // verus!
