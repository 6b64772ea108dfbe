//! Specification of the segmenter: splitting raw input into parts, the
//! minimum-cost dynamic program over one part, the backtracking pass with
//! its apostrophe/digit re-merging, and the characters' case model.

use crate::cost::spec_cost_add;
use crate::cost::SENTINEL;
use vstd::prelude::*;

verus! {

/// Characters a part is made of: ASCII alphanumerics and the apostrophe.
/// Every other character separates parts and is discarded.
pub open spec fn is_word_char(c: char) -> bool {
    (48 <= c as u32 && c as u32 <= 57) || (65 <= c as u32 && c as u32 <= 90) || (97 <= c as u32
        && c as u32 <= 122) || c == '\''
}

/// ASCII decimal digit.
pub open spec fn is_digit_char(c: char) -> bool {
    48 <= c as u32 && c as u32 <= 57
}

/// ASCII uppercase letter.
pub open spec fn is_upper_char(c: char) -> bool {
    65 <= c as u32 && c as u32 <= 90
}

/// ASCII lowercase image of a character; anything but an ASCII uppercase
/// letter is left alone.
pub open spec fn lower_char(c: char) -> char {
    if is_upper_char(c) {
        ((c as u32 + 32) as u8) as char
    } else {
        c
    }
}

/// Pointwise ASCII lowercase.
pub open spec fn lower_seq(s: Seq<char>) -> Seq<char> {
    s.map_values(|c: char| lower_char(c))
}

/// ASCII uppercase image of a character; anything but an ASCII lowercase
/// letter is left alone.
pub open spec fn upper_char(c: char) -> char {
    if 97 <= c as u32 && c as u32 <= 122 {
        ((c as u32 - 32) as u8) as char
    } else {
        c
    }
}

/// Pointwise ASCII uppercase.
pub open spec fn upper_seq(s: Seq<char>) -> Seq<char> {
    s.map_values(|c: char| upper_char(c))
}

/// Pointwise ASCII uppercase of every token in a list.
pub open spec fn upper_tokens(ts: Seq<Seq<char>>) -> Seq<Seq<char>> {
    ts.map_values(|t: Seq<char>| upper_seq(t))
}

/// Cost a mapping assigns to a word, or `SENTINEL` for a word it does not
/// know.
pub open spec fn map_cost(m: Map<Seq<char>, u64>, w: Seq<char>) -> int {
    if m.contains_key(w) {
        m[w] as int
    } else {
        SENTINEL as int
    }
}

/// Cost of a candidate token: the token is lowercased, then looked up.
pub open spec fn word_cost(m: Map<Seq<char>, u64>, t: Seq<char>) -> int {
    map_cost(m, lower_seq(t))
}

/// Minimum segmentation cost of the first `i` characters of `p`:
/// `dp_cost(.., 0) == 0`, and each longer prefix takes the cheapest way to
/// end in a token of length at most `mw`.
pub open spec fn dp_cost(m: Map<Seq<char>, u64>, mw: int, p: Seq<char>, i: int) -> int
    decreases i, 2int, 0int,
{
    if i <= 0 || mw < 1 {
        0
    } else {
        best_from(
            m,
            mw,
            p,
            i,
            if mw < i {
                mw
            } else {
                i
            },
        ).0
    }
}

/// Cheapest (cost, token length) pair at position `i` among last-token
/// lengths `1..=k`, scanning lengths upward and keeping the first minimum,
/// so the shortest token wins a tie.
pub open spec fn best_from(m: Map<Seq<char>, u64>, mw: int, p: Seq<char>, i: int, k: int) -> (
    int,
    int,
)
    decreases i, 1int, k,
    when 1 <= k <= i && 1 <= mw
{
    let c = spec_cost_add(dp_cost(m, mw, p, i - k), word_cost(m, p.subrange(i - k, i)));
    if k == 1 {
        (c, 1)
    } else {
        let prev = best_from(m, mw, p, i, k - 1);
        if c < prev.0 {
            (c, k)
        } else {
            prev
        }
    }
}

/// The winning pair is one of the candidates, no candidate beats it, and a
/// tie is resolved to the shortest length.
pub proof fn lemma_best_from(m: Map<Seq<char>, u64>, mw: int, p: Seq<char>, i: int, k: int)
    requires
        1 <= k <= i,
        1 <= mw,
    ensures
        1 <= best_from(m, mw, p, i, k).1 <= k,
        best_from(m, mw, p, i, k).0 == spec_cost_add(
            dp_cost(m, mw, p, i - best_from(m, mw, p, i, k).1),
            word_cost(m, p.subrange(i - best_from(m, mw, p, i, k).1, i)),
        ),
        forall|kk: int|
            1 <= kk <= k ==> best_from(m, mw, p, i, k).0 <= spec_cost_add(
                dp_cost(m, mw, p, i - kk),
                #[trigger] word_cost(m, p.subrange(i - kk, i)),
            ),
        forall|kk: int|
            1 <= kk < best_from(m, mw, p, i, k).1 ==> best_from(m, mw, p, i, k).0 < spec_cost_add(
                dp_cost(m, mw, p, i - kk),
                #[trigger] word_cost(m, p.subrange(i - kk, i)),
            ),
    decreases k,
{
    if k > 1 {
        lemma_best_from(m, mw, p, i, k - 1);
    }
}

/// One step of the backtracking output pass. The freshly matched span
/// `p[i-k..i]` is merged into the previously emitted token (the one to its
/// right, `acc`'s last) when that token is exactly `'s`, or when a digit
/// meets a digit across the boundary; a lone apostrophe is never merged.
/// Otherwise the span is emitted on its own.
pub open spec fn merge_step(p: Seq<char>, i: int, k: int, acc: Seq<Seq<char>>) -> Seq<Seq<char>> {
    let t = p.subrange(i - k, i);
    if t != seq!['\''] && acc.len() > 0 && (acc.last() == seq!['\'', 's'] || (is_digit_char(
        t.last(),
    ) && acc.last().len() > 0 && is_digit_char(acc.last().first()))) {
        acc.update(acc.len() - 1, t + acc.last())
    } else {
        acc.push(t)
    }
}

/// Tokens emitted while backtracking from position `i` down to the start,
/// in emission order (right to left), appended to `acc`.
pub open spec fn back_tokens(
    m: Map<Seq<char>, u64>,
    mw: int,
    p: Seq<char>,
    i: int,
    acc: Seq<Seq<char>>,
) -> Seq<Seq<char>>
    decreases i,
{
    if i <= 0 || mw < 1 {
        acc
    } else {
        let k = best_from(
            m,
            mw,
            p,
            i,
            if mw < i {
                mw
            } else {
                i
            },
        ).1;
        if 1 <= k <= i {
            back_tokens(m, mw, p, i - k, merge_step(p, i, k, acc))
        } else {
            acc
        }
    }
}

/// Token sequence for one part, in left-to-right order.
pub open spec fn spec_split_part(m: Map<Seq<char>, u64>, mw: int, p: Seq<char>) -> Seq<Seq<char>> {
    back_tokens(m, mw, p, p.len() as int, Seq::empty()).reverse()
}

/// Splitting raw input into parts: `cur` is the run of word characters
/// read so far, `out` the completed parts; a separator flushes `cur`,
/// empty runs are dropped.
pub open spec fn parts_from(s: Seq<char>, i: int, cur: Seq<char>, out: Seq<Seq<char>>) -> Seq<
    Seq<char>,
>
    decreases s.len() - i,
{
    if i < 0 || i >= s.len() {
        if cur.len() > 0 {
            out.push(cur)
        } else {
            out
        }
    } else if is_word_char(s[i]) {
        parts_from(s, i + 1, cur.push(s[i]), out)
    } else {
        parts_from(
            s,
            i + 1,
            Seq::empty(),
            if cur.len() > 0 {
                out.push(cur)
            } else {
                out
            },
        )
    }
}

/// The nonempty maximal runs of word characters in `s`, in order.
pub open spec fn spec_parts(s: Seq<char>) -> Seq<Seq<char>> {
    parts_from(s, 0, Seq::empty(), Seq::empty())
}

/// Tokens of a list of parts, concatenated in order.
pub open spec fn split_parts_tokens(m: Map<Seq<char>, u64>, mw: int, ps: Seq<Seq<char>>) -> Seq<
    Seq<char>,
>
    decreases ps.len(),
{
    if ps.len() == 0 {
        Seq::empty()
    } else {
        split_parts_tokens(m, mw, ps.drop_last()) + spec_split_part(m, mw, ps.last())
    }
}

/// The full segmentation: each part's tokens, concatenated in input order.
pub open spec fn spec_split(m: Map<Seq<char>, u64>, mw: int, s: Seq<char>) -> Seq<Seq<char>> {
    split_parts_tokens(m, mw, spec_parts(s))
}

/// Accumulated parts only ever grow at the front of `out`.
pub proof fn lemma_parts_from_out(s: Seq<char>, i: int, cur: Seq<char>, out: Seq<Seq<char>>)
    ensures
        parts_from(s, i, cur, out) == out + parts_from(s, i, cur, Seq::empty()),
    decreases s.len() - i,
{
    if i < 0 || i >= s.len() {
        if cur.len() > 0 {
            assert(out.push(cur) =~= out + Seq::empty().push(cur));
        } else {
            assert(out =~= out + Seq::<Seq<char>>::empty());
        }
    } else if is_word_char(s[i]) {
        lemma_parts_from_out(s, i + 1, cur.push(s[i]), out);
    } else {
        if cur.len() > 0 {
            lemma_parts_from_out(s, i + 1, Seq::empty(), out.push(cur));
            lemma_parts_from_out(s, i + 1, Seq::empty(), Seq::empty().push(cur));
            assert(out.push(cur) =~= out + Seq::empty().push(cur));
            assert(out + (Seq::empty().push(cur) + parts_from(s, i + 1, Seq::empty(), Seq::empty()))
                =~= (out + Seq::empty().push(cur)) + parts_from(s, i + 1, Seq::empty(), Seq::empty()));
        } else {
            lemma_parts_from_out(s, i + 1, Seq::empty(), out);
        }
    }
}

// Executable character classes, matching the specification exactly.
/// Does `c` belong in a part?
pub fn ex_is_word_char(c: char) -> (r: bool)
    ensures
        r == is_word_char(c),
{
    let u = c as u32;
    (48 <= u && u <= 57) || (65 <= u && u <= 90) || (97 <= u && u <= 122) || c == '\''
}

/// Is `c` an ASCII digit?
pub fn ex_is_digit_char(c: char) -> (r: bool)
    ensures
        r == is_digit_char(c),
{
    let u = c as u32;
    48 <= u && u <= 57
}

/// ASCII lowercase of one character.
pub fn ex_lower_char(c: char) -> (r: char)
    ensures
        r == lower_char(c),
{
    let u = c as u32;
    if 65 <= u && u <= 90 {
        ((u + 32) as u8) as char
    } else {
        c
    }
}

} // verus!
