//! Properties of the segmenter, stated over the specification and proved
//! once and for all: reconstruction of the input, monotonicity along the
//! chosen boundaries, determinism, case-insensitivity of the boundaries,
//! and independence of separator splitting from the cost model.

use crate::cost::lemma_cost_add_ge;
use crate::cost::spec_cost_add;
use crate::cost::COST_INF;
use crate::segment::back_tokens;
use crate::segment::best_from;
use crate::segment::dp_cost;
use crate::segment::is_digit_char;
use crate::segment::is_word_char;
use crate::segment::lemma_parts_from_out;
use crate::segment::lower_char;
use crate::segment::merge_step;
use crate::segment::parts_from;
use crate::segment::spec_parts;
use crate::segment::spec_split;
use crate::segment::spec_split_part;
use crate::segment::split_parts_tokens;
use crate::segment::upper_char;
use crate::segment::upper_seq;
use crate::segment::upper_tokens;
use crate::segment::word_cost;
use vstd::prelude::*;

verus! {

/// Every dynamic-programming prefix cost lies between 0 and `COST_INF`.
pub proof fn lemma_dp_range(m: Map<Seq<char>, u64>, mw: int, p: Seq<char>, i: int)
    ensures
        0 <= dp_cost(m, mw, p, i) <= COST_INF,
    decreases i, 2int, 0int,
{
    if i <= 0 || mw < 1 {
    } else {
        lemma_best_from_range(
            m,
            mw,
            p,
            i,
            if mw < i {
                mw
            } else {
                i
            },
        );
    }
}

/// Every candidate minimum lies between 0 and `COST_INF`.
pub proof fn lemma_best_from_range(m: Map<Seq<char>, u64>, mw: int, p: Seq<char>, i: int, k: int)
    requires
        1 <= k <= i,
        1 <= mw,
    ensures
        0 <= best_from(m, mw, p, i, k).0 <= COST_INF,
    decreases i, 1int, k,
{
    lemma_dp_range(m, mw, p, i - k);
    if k > 1 {
        lemma_best_from_range(m, mw, p, i, k - 1);
    }
}

/// Walking one chosen token leftward never increases the prefix cost:
/// `cost[i] >= cost[i - k]` for the winning token length `k` at `i`. (The
/// cost array is not monotone between arbitrary neighbours: a longer
/// prefix can end in a cheap long word where the shorter prefix had to
/// take an expensive one.)
pub proof fn lemma_cost_step_monotone(m: Map<Seq<char>, u64>, mw: int, p: Seq<char>, i: int)
    requires
        1 <= mw,
        1 <= i,
    ensures
        ({
            let k = best_from(
                m,
                mw,
                p,
                i,
                if mw < i {
                    mw
                } else {
                    i
                },
            ).1;
            dp_cost(m, mw, p, i) >= dp_cost(m, mw, p, i - k)
        }),
{
    let back: int = if mw < i {
        mw
    } else {
        i
    };
    crate::segment::lemma_best_from(m, mw, p, i, back);
    let k = best_from(m, mw, p, i, back).1;
    lemma_dp_range(m, mw, p, i - k);
    lemma_cost_add_ge(dp_cost(m, mw, p, i - k), word_cost(m, p.subrange(i - k, i)));
}

/// With single-character lookups only (`maxword == 1`), the cost array is
/// non-decreasing outright.
pub proof fn lemma_cost_monotone_unit(m: Map<Seq<char>, u64>, p: Seq<char>, i: int)
    requires
        1 <= i,
    ensures
        dp_cost(m, 1, p, i) >= dp_cost(m, 1, p, i - 1),
{
    lemma_cost_step_monotone(m, 1, p, i);
    crate::segment::lemma_best_from(m, 1, p, i, 1);
}

/// Segmenting the same input against the same model twice yields the same
/// token sequence: the result is a function of model and input alone.
pub proof fn lemma_split_deterministic(
    m: Map<Seq<char>, u64>,
    mw: int,
    s: Seq<char>,
    out1: Seq<Seq<char>>,
    out2: Seq<Seq<char>>,
)
    requires
        out1 == spec_split(m, mw, s),
        out2 == spec_split(m, mw, s),
    ensures
        out1 == out2,
{
}

/// Sum of a list of token lengths.
pub open spec fn sum_lens(lens: Seq<int>) -> int
    decreases lens.len(),
{
    if lens.len() == 0 {
        0
    } else {
        sum_lens(lens.drop_last()) + lens.last()
    }
}

/// A way to cut the first `i` characters into tokens: token lengths
/// between 1 and `mw` that add up to `i`.
pub open spec fn is_partition(lens: Seq<int>, i: int, mw: int) -> bool {
    (forall|j: int| 0 <= j < lens.len() ==> 1 <= #[trigger] lens[j] <= mw) && sum_lens(lens) == i
}

/// Total cost of a partition of `p[..end]`, last token split off first.
pub open spec fn partition_cost(m: Map<Seq<char>, u64>, p: Seq<char>, lens: Seq<int>, end: int) -> int
    decreases lens.len(),
{
    if lens.len() == 0 {
        0
    } else {
        spec_cost_add(
            partition_cost(m, p, lens.drop_last(), end - lens.last()),
            word_cost(m, p.subrange(end - lens.last(), end)),
        )
    }
}

/// Token lengths of at least one character sum to at least their count.
proof fn lemma_sum_lens_ge_len(lens: Seq<int>)
    requires
        forall|j: int| 0 <= j < lens.len() ==> 1 <= #[trigger] lens[j],
    ensures
        sum_lens(lens) >= lens.len(),
    decreases lens.len(),
{
    if lens.len() > 0 {
        lemma_sum_lens_ge_len(lens.drop_last());
    }
}

/// A partition's cost lies between 0 and `COST_INF`.
proof fn lemma_partition_cost_range(m: Map<Seq<char>, u64>, p: Seq<char>, lens: Seq<int>, end: int)
    ensures
        0 <= partition_cost(m, p, lens, end) <= COST_INF,
    decreases lens.len(),
{
    if lens.len() > 0 {
        lemma_partition_cost_range(m, p, lens.drop_last(), end - lens.last());
    }
}

/// Raising the cost of what comes before a token cannot lower the total.
proof fn lemma_cost_add_mono(a1: int, a2: int, b: int)
    requires
        0 <= a1 <= a2 <= COST_INF,
        0 <= b <= COST_INF,
    ensures
        spec_cost_add(a1, b) <= spec_cost_add(a2, b),
{
}

/// The table entry `cost[i]` is the true minimum: some partition of
/// `p[..i]` into tokens of length at most `maxword` achieves it, and no
/// such partition costs less.
pub proof fn lemma_dp_optimal(m: Map<Seq<char>, u64>, mw: int, p: Seq<char>, i: int)
    requires
        mw >= 1,
        0 <= i,
    ensures
        exists|lens: Seq<int>|
            #[trigger] is_partition(lens, i, mw) && partition_cost(m, p, lens, i) == dp_cost(
                m,
                mw,
                p,
                i,
            ),
        forall|lens: Seq<int>|
            #[trigger] is_partition(lens, i, mw) ==> partition_cost(m, p, lens, i) >= dp_cost(
                m,
                mw,
                p,
                i,
            ),
    decreases i,
{
    if i == 0 {
        let w = Seq::<int>::empty();
        assert(is_partition(w, 0, mw) && partition_cost(m, p, w, 0) == dp_cost(m, mw, p, 0));
        assert forall|lens: Seq<int>| #[trigger] is_partition(lens, 0, mw) implies partition_cost(
            m,
            p,
            lens,
            0,
        ) >= dp_cost(m, mw, p, 0) by {
            lemma_sum_lens_ge_len(lens);
            assert(lens.len() == 0);
        }
    } else {
        let back: int = if mw < i {
            mw
        } else {
            i
        };
        crate::segment::lemma_best_from(m, mw, p, i, back);
        let kw = best_from(m, mw, p, i, back).1;
        lemma_dp_optimal(m, mw, p, i - kw);
        // a partition achieving the table entry: extend one that achieves
        // the entry at i - kw by the winning token
        let sub = choose|lens: Seq<int>|
            #[trigger] is_partition(lens, i - kw, mw) && partition_cost(m, p, lens, i - kw)
                == dp_cost(m, mw, p, i - kw);
        let w = sub.push(kw);
        assert(w.drop_last() =~= sub);
        assert(sum_lens(w) == i);
        assert(forall|j: int| 0 <= j < w.len() ==> 1 <= #[trigger] w[j] <= mw);
        assert(is_partition(w, i, mw) && partition_cost(m, p, w, i) == dp_cost(m, mw, p, i));
        // no partition does better: its last token is a candidate the
        // scan considered, and what precedes it cannot beat the table
        assert forall|lens: Seq<int>| #[trigger] is_partition(lens, i, mw) implies partition_cost(
            m,
            p,
            lens,
            i,
        ) >= dp_cost(m, mw, p, i) by {
            lemma_sum_lens_ge_len(lens);
            assert(lens.len() >= 1);
            let k = lens.last();
            let rest = lens.drop_last();
            lemma_sum_lens_ge_len(rest);
            assert(sum_lens(rest) == i - k);
            assert(forall|j: int| 0 <= j < rest.len() ==> 1 <= #[trigger] rest[j] <= mw);
            assert(is_partition(rest, i - k, mw));
            assert(1 <= k <= back);
            lemma_dp_optimal(m, mw, p, i - k);
            assert(partition_cost(m, p, rest, i - k) >= dp_cost(m, mw, p, i - k));
            lemma_dp_range(m, mw, p, i - k);
            lemma_partition_cost_range(m, p, rest, i - k);
            lemma_cost_add_mono(
                dp_cost(m, mw, p, i - k),
                partition_cost(m, p, rest, i - k),
                word_cost(m, p.subrange(i - k, i)),
            );
            assert(partition_cost(m, p, lens, i) >= spec_cost_add(
                dp_cost(m, mw, p, i - k),
                word_cost(m, p.subrange(i - k, i)),
            ));
        }
    }
}

/// Backtracking invariant: the tokens gathered so far, read left to
/// right, spell the part's suffix from `i` on; carrying the walk to the
/// start spells the whole part.
proof fn lemma_back_tokens_concat(
    m: Map<Seq<char>, u64>,
    mw: int,
    p: Seq<char>,
    i: int,
    acc: Seq<Seq<char>>,
)
    requires
        mw >= 1,
        0 <= i <= p.len(),
        acc.reverse().flatten() == p.subrange(i, p.len() as int),
    ensures
        back_tokens(m, mw, p, i, acc).reverse().flatten() == p,
    decreases i,
{
    if i <= 0 {
        assert(p.subrange(0, p.len() as int) =~= p);
    } else {
        let back: int = if mw < i {
            mw
        } else {
            i
        };
        crate::segment::lemma_best_from(m, mw, p, i, back);
        let k = best_from(m, mw, p, i, back).1;
        let t = p.subrange(i - k, i);
        let acc2 = merge_step(p, i, k, acc);
        assert(t + p.subrange(i, p.len() as int) =~= p.subrange(i - k, p.len() as int));
        if t != seq!['\''] && acc.len() > 0 && (acc.last() == seq!['\'', 's']
            || (crate::segment::is_digit_char(t.last()) && acc.last().len() > 0
            && crate::segment::is_digit_char(acc.last().first()))) {
            let last = acc.last();
            let rev = acc.reverse();
            let rev2 = acc2.reverse();
            assert(rev.len() > 0);
            assert(rev.first() == last);
            assert(rev2 =~= seq![t + last] + rev.drop_first());
            assert(rev =~= seq![last] + rev.drop_first());
            assert(rev.flatten() == last + rev.drop_first().flatten()) by {
                assert((seq![last] + rev.drop_first()).first() == last);
                assert((seq![last] + rev.drop_first()).drop_first() =~= rev.drop_first());
            }
            assert(rev2.flatten() == (t + last) + rev.drop_first().flatten()) by {
                assert(rev2.first() == t + last);
                assert(rev2.drop_first() =~= rev.drop_first());
            }
            assert((t + last) + rev.drop_first().flatten() =~= t + (last
                + rev.drop_first().flatten()));
            assert(acc2.reverse().flatten() =~= p.subrange(i - k, p.len() as int));
        } else {
            let rev2 = acc2.reverse();
            assert(rev2 =~= seq![t] + acc.reverse());
            assert(rev2.flatten() == t + acc.reverse().flatten()) by {
                assert(rev2.first() == t);
                assert(rev2.drop_first() =~= acc.reverse());
            }
            assert(acc2.reverse().flatten() =~= p.subrange(i - k, p.len() as int));
        }
        lemma_back_tokens_concat(m, mw, p, i - k, acc2);
    }
}

/// Concatenating a part's tokens, in order, spells the part exactly:
/// merging only rejoins adjacent tokens, and no character is dropped,
/// duplicated or reordered.
pub proof fn lemma_tokens_reconstruct(m: Map<Seq<char>, u64>, mw: int, p: Seq<char>)
    requires
        mw >= 1,
    ensures
        spec_split_part(m, mw, p).flatten() == p,
{
    let acc = Seq::<Seq<char>>::empty();
    assert(acc.reverse() =~= Seq::<Seq<char>>::empty());
    assert(acc.reverse().flatten() =~= p.subrange(p.len() as int, p.len() as int));
    lemma_back_tokens_concat(m, mw, p, p.len() as int, acc);
}

/// Lowercasing after uppercasing gives the same character as lowercasing
/// alone.
proof fn lemma_lower_upper_char(c: char)
    ensures
        lower_char(upper_char(c)) == lower_char(c),
        (upper_char(c) == '\'') == (c == '\''),
        is_digit_char(upper_char(c)) == is_digit_char(c),
{
}

/// A token's lowercase key ignores the case of the token.
proof fn lemma_lower_upper_seq(t: Seq<char>)
    ensures
        crate::segment::lower_seq(upper_seq(t)) == crate::segment::lower_seq(t),
{
    assert(crate::segment::lower_seq(upper_seq(t)) =~= crate::segment::lower_seq(t)) by {
        assert forall|j: int| 0 <= j < t.len() implies crate::segment::lower_seq(upper_seq(t))[j]
            == crate::segment::lower_seq(t)[j] by {
            lemma_lower_upper_char(t[j]);
        }
    }
}

/// Candidate lookups cannot tell an uppercased part from the original.
proof fn lemma_word_cost_upper(m: Map<Seq<char>, u64>, p: Seq<char>, a: int, b: int)
    requires
        0 <= a <= b <= p.len(),
    ensures
        word_cost(m, upper_seq(p).subrange(a, b)) == word_cost(m, p.subrange(a, b)),
{
    assert(upper_seq(p).subrange(a, b) =~= upper_seq(p.subrange(a, b)));
    lemma_lower_upper_seq(p.subrange(a, b));
}

/// The cost table of an uppercased part equals that of the original.
proof fn lemma_dp_upper(m: Map<Seq<char>, u64>, mw: int, p: Seq<char>, i: int)
    requires
        i <= p.len(),
    ensures
        dp_cost(m, mw, upper_seq(p), i) == dp_cost(m, mw, p, i),
    decreases i, 2int, 0int,
{
    if i <= 0 || mw < 1 {
    } else {
        lemma_best_upper(
            m,
            mw,
            p,
            i,
            if mw < i {
                mw
            } else {
                i
            },
        );
    }
}

/// The winning candidate of an uppercased part equals that of the
/// original.
proof fn lemma_best_upper(m: Map<Seq<char>, u64>, mw: int, p: Seq<char>, i: int, k: int)
    requires
        1 <= k <= i <= p.len(),
        1 <= mw,
    ensures
        best_from(m, mw, upper_seq(p), i, k) == best_from(m, mw, p, i, k),
    decreases i, 1int, k,
{
    lemma_dp_upper(m, mw, p, i - k);
    lemma_word_cost_upper(m, p, i - k, i);
    if k > 1 {
        lemma_best_upper(m, mw, p, i, k - 1);
    }
}

/// Backtracking an uppercased part emits the uppercased tokens, as long
/// as neither part nor gathered tokens hold an apostrophe (the `'s` merge
/// compares case-sensitively, so an apostrophe could change the merging).
proof fn lemma_back_tokens_upper(
    m: Map<Seq<char>, u64>,
    mw: int,
    p: Seq<char>,
    i: int,
    acc: Seq<Seq<char>>,
)
    requires
        mw >= 1,
        0 <= i <= p.len(),
        forall|j: int| 0 <= j < p.len() ==> p[j] != '\'',
        forall|t: int, j: int|
            0 <= t < acc.len() && 0 <= j < acc[t].len() ==> #[trigger] acc[t][j] != '\'',
    ensures
        back_tokens(m, mw, upper_seq(p), i, upper_tokens(acc)) == upper_tokens(
            back_tokens(m, mw, p, i, acc),
        ),
    decreases i,
{
    if i <= 0 {
    } else {
        let back: int = if mw < i {
            mw
        } else {
            i
        };
        lemma_best_upper(m, mw, p, i, back);
        crate::segment::lemma_best_from(m, mw, p, i, back);
        let k = best_from(m, mw, p, i, back).1;
        let t = p.subrange(i - k, i);
        let tu = upper_seq(p).subrange(i - k, i);
        assert(tu =~= upper_seq(t));
        assert forall|j: int| 0 <= j < t.len() implies #[trigger] t[j] != '\'' by {
            assert(t[j] == p[i - k + j]);
        }
        lemma_merge_upper(p, i, k, acc);
        let acc2 = merge_step(p, i, k, acc);
        assert forall|tt: int, j: int|
            0 <= tt < acc2.len() && 0 <= j < acc2[tt].len() implies #[trigger] acc2[tt][j]
            != '\'' by {
            if t != seq!['\''] && acc.len() > 0 && (acc.last() == seq!['\'', 's']
                || (is_digit_char(t.last()) && acc.last().len() > 0 && is_digit_char(
                acc.last().first(),
            ))) {
                if tt == acc.len() - 1 {
                    assert(acc2[tt] == t + acc.last());
                    if j < t.len() {
                        assert(acc2[tt][j] == t[j]);
                    } else {
                        assert(acc2[tt][j] == acc[tt][j - t.len()]);
                    }
                } else {
                    assert(acc2[tt] == acc[tt]);
                }
            } else {
                if tt < acc.len() {
                    assert(acc2[tt] == acc[tt]);
                } else {
                    assert(acc2[tt] == t);
                }
            }
        }
        lemma_back_tokens_upper(m, mw, p, i - k, acc2);
    }
}

/// One merge step treats the uppercased spans exactly as the originals,
/// provided no apostrophe is in play.
proof fn lemma_merge_upper(p: Seq<char>, i: int, k: int, acc: Seq<Seq<char>>)
    requires
        0 <= i - k,
        1 <= k,
        i <= p.len(),
        forall|j: int| 0 <= j < p.len() ==> p[j] != '\'',
        forall|t: int, j: int|
            0 <= t < acc.len() && 0 <= j < acc[t].len() ==> #[trigger] acc[t][j] != '\'',
    ensures
        merge_step(upper_seq(p), i, k, upper_tokens(acc)) == upper_tokens(merge_step(p, i, k, acc)),
{
    let t = p.subrange(i - k, i);
    let tu = upper_seq(p).subrange(i - k, i);
    assert(tu =~= upper_seq(t));
    assert(t[0] == p[i - k]);
    // neither span can be a lone apostrophe
    assert(t != seq!['\'']) by {
        if t == seq!['\''] {
            assert(p[i - k] == '\'');
        }
    }
    assert(tu != seq!['\'']) by {
        if tu == seq!['\''] {
            assert(upper_seq(t)[0] == upper_char(t[0]));
            assert(tu[0] == upper_char(t[0]));
            lemma_lower_upper_char(t[0]);
            assert(upper_char(t[0]) == '\'');
        }
    }
    if acc.len() > 0 {
        let last = acc.last();
        let lastu = upper_tokens(acc).last();
        assert(lastu == upper_seq(last));
        // neither previous token can be exactly `'s`
        assert(last != seq!['\'', 's']) by {
            if last == seq!['\'', 's'] {
                assert(acc[acc.len() - 1][0] == '\'');
            }
        }
        assert(lastu != seq!['\'', 's']) by {
            if lastu == seq!['\'', 's'] {
                assert(upper_seq(last).len() == 2);
                assert(upper_char(last[0]) == '\'');
                lemma_lower_upper_char(last[0]);
                assert(acc[acc.len() - 1][0] == '\'');
            }
        }
        lemma_lower_upper_char(t[t.len() - 1]);
        assert(tu.last() == upper_char(t.last()));
        if last.len() > 0 {
            lemma_lower_upper_char(last[0]);
            assert(lastu.first() == upper_char(last.first()));
        }
        let cond = is_digit_char(t.last()) && last.len() > 0 && is_digit_char(last.first());
        let condu = is_digit_char(tu.last()) && lastu.len() > 0 && is_digit_char(lastu.first());
        assert(cond == condu);
        if cond {
            assert(merge_step(p, i, k, acc) == acc.update(acc.len() - 1, t + last));
            assert(merge_step(upper_seq(p), i, k, upper_tokens(acc)) == upper_tokens(acc).update(
                acc.len() - 1,
                tu + lastu,
            ));
            assert(tu + lastu =~= upper_seq(t + last));
            assert(upper_tokens(acc).update(acc.len() - 1, upper_seq(t + last)) =~= upper_tokens(
                acc.update(acc.len() - 1, t + last),
            ));
        } else {
            assert(upper_tokens(acc).push(tu) =~= upper_tokens(acc.push(t)));
        }
    } else {
        assert(upper_tokens(acc).push(tu) =~= upper_tokens(acc.push(t)));
    }
}

/// Case does not move word boundaries: segmenting the uppercased part
/// yields exactly the uppercased tokens of the original, for parts
/// without an apostrophe. (With apostrophes the `'s` re-merge compares
/// case-sensitively and can group the same boundaries differently.)
pub proof fn lemma_case_boundaries(m: Map<Seq<char>, u64>, mw: int, p: Seq<char>)
    requires
        mw >= 1,
        forall|j: int| 0 <= j < p.len() ==> p[j] != '\'',
    ensures
        spec_split_part(m, mw, upper_seq(p)) == upper_tokens(spec_split_part(m, mw, p)),
{
    let acc = Seq::<Seq<char>>::empty();
    assert(upper_tokens(acc) =~= Seq::<Seq<char>>::empty());
    lemma_back_tokens_upper(m, mw, p, p.len() as int, acc);
    assert(upper_seq(p).len() == p.len());
    let bt = back_tokens(m, mw, p, p.len() as int, acc);
    assert(back_tokens(m, mw, upper_seq(p), p.len() as int, acc) == upper_tokens(bt));
    assert(upper_tokens(bt).reverse() =~= upper_tokens(bt.reverse()));
}

/// The word characters of `s` from position `i` on, separators dropped.
pub open spec fn keep_word_chars(s: Seq<char>, i: int) -> Seq<char>
    decreases s.len() - i,
{
    if i < 0 || i >= s.len() {
        Seq::empty()
    } else if is_word_char(s[i]) {
        seq![s[i]] + keep_word_chars(s, i + 1)
    } else {
        keep_word_chars(s, i + 1)
    }
}

/// The word characters of `s`, in order.
pub open spec fn word_chars_of(s: Seq<char>) -> Seq<char> {
    keep_word_chars(s, 0)
}

/// The parts of `s`, joined back together, spell its word characters.
proof fn lemma_parts_flatten(s: Seq<char>, i: int, cur: Seq<char>)
    requires
        0 <= i <= s.len(),
    ensures
        parts_from(s, i, cur, Seq::empty()).flatten() == cur + keep_word_chars(s, i),
    decreases s.len() - i,
{
    if i >= s.len() {
        if cur.len() > 0 {
            let one = Seq::<Seq<char>>::empty().push(cur);
            assert(one.first() == cur);
            assert(one.drop_first() =~= Seq::<Seq<char>>::empty());
            assert(one.flatten() == cur + Seq::<Seq<char>>::empty().flatten());
            assert(one.flatten() =~= cur + keep_word_chars(s, i));
        } else {
            assert(Seq::<Seq<char>>::empty().flatten() =~= cur + keep_word_chars(s, i));
        }
    } else if is_word_char(s[i]) {
        lemma_parts_flatten(s, i + 1, cur.push(s[i]));
        assert(cur.push(s[i]) + keep_word_chars(s, i + 1) =~= cur + (seq![s[i]]
            + keep_word_chars(s, i + 1)));
    } else {
        lemma_parts_flatten(s, i + 1, Seq::empty());
        let rest = parts_from(s, i + 1, Seq::empty(), Seq::empty());
        if cur.len() > 0 {
            lemma_parts_from_out(s, i + 1, Seq::empty(), Seq::empty().push(cur));
            let whole = Seq::empty().push(cur) + rest;
            assert(parts_from(s, i, cur, Seq::empty()) == whole);
            assert(whole.first() == cur);
            assert(whole.drop_first() =~= rest);
            assert(whole.flatten() == cur + rest.flatten());
            assert(cur + (Seq::<char>::empty() + keep_word_chars(s, i + 1)) =~= cur
                + keep_word_chars(s, i));
        } else {
            assert(Seq::<char>::empty() + keep_word_chars(s, i + 1) =~= cur + keep_word_chars(
                s,
                i,
            ));
        }
    }
}

/// Joining each part's tokens spells the joined parts.
proof fn lemma_split_tokens_flatten(m: Map<Seq<char>, u64>, mw: int, ps: Seq<Seq<char>>)
    requires
        mw >= 1,
    ensures
        split_parts_tokens(m, mw, ps).flatten() == ps.flatten(),
    decreases ps.len(),
{
    if ps.len() == 0 {
        assert(split_parts_tokens(m, mw, ps).flatten() =~= ps.flatten());
    } else {
        let rest = ps.drop_last();
        lemma_split_tokens_flatten(m, mw, rest);
        lemma_tokens_reconstruct(m, mw, ps.last());
        vstd::seq_lib::lemma_flatten_concat(
            split_parts_tokens(m, mw, rest),
            spec_split_part(m, mw, ps.last()),
        );
        ps.lemma_flatten_and_flatten_alt_are_equivalent();
        rest.lemma_flatten_and_flatten_alt_are_equivalent();
        assert(ps.flatten_alt() == rest.flatten_alt() + ps.last());
    }
}

/// The full segmentation loses nothing but the separators: joining every
/// emitted token, in order, spells exactly the input's word characters.
pub proof fn lemma_split_reconstruct(m: Map<Seq<char>, u64>, mw: int, s: Seq<char>)
    requires
        mw >= 1,
    ensures
        spec_split(m, mw, s).flatten() == word_chars_of(s),
{
    lemma_parts_flatten(s, 0, Seq::empty());
    lemma_split_tokens_flatten(m, mw, spec_parts(s));
    assert(Seq::<char>::empty() + word_chars_of(s) =~= word_chars_of(s));
}

/// Uppercasing does not change which characters separate parts.
proof fn lemma_upper_word_char(c: char)
    ensures
        is_word_char(upper_char(c)) == is_word_char(c),
{
}

/// Splitting into parts commutes with uppercasing the input.
proof fn lemma_parts_upper(s: Seq<char>, i: int, cur: Seq<char>, out: Seq<Seq<char>>)
    requires
        0 <= i <= s.len(),
    ensures
        parts_from(upper_seq(s), i, upper_seq(cur), upper_tokens(out)) == upper_tokens(
            parts_from(s, i, cur, out),
        ),
    decreases s.len() - i,
{
    if i >= s.len() {
        if cur.len() > 0 {
            assert(upper_tokens(out).push(upper_seq(cur)) =~= upper_tokens(out.push(cur)));
        }
    } else {
        assert(upper_seq(s)[i] == upper_char(s[i]));
        lemma_upper_word_char(s[i]);
        if is_word_char(s[i]) {
            assert(upper_seq(cur).push(upper_char(s[i])) =~= upper_seq(cur.push(s[i])));
            lemma_parts_upper(s, i + 1, cur.push(s[i]), out);
        } else {
            let fl = if cur.len() > 0 {
                out.push(cur)
            } else {
                out
            };
            if cur.len() > 0 {
                assert(upper_tokens(out).push(upper_seq(cur)) =~= upper_tokens(out.push(cur)));
            }
            assert(upper_seq(Seq::<char>::empty()) =~= Seq::<char>::empty());
            lemma_parts_upper(s, i + 1, Seq::empty(), fl);
        }
    }
}

/// Every character of every part comes from the input.
proof fn lemma_parts_no_apos(s: Seq<char>, i: int, cur: Seq<char>, out: Seq<Seq<char>>)
    requires
        0 <= i <= s.len(),
        forall|j: int| 0 <= j < s.len() ==> s[j] != '\'',
        forall|j: int| 0 <= j < cur.len() ==> cur[j] != '\'',
        forall|t: int, j: int|
            0 <= t < out.len() && 0 <= j < out[t].len() ==> #[trigger] out[t][j] != '\'',
    ensures
        forall|t: int, j: int|
            0 <= t < parts_from(s, i, cur, out).len() && 0 <= j < parts_from(s, i, cur, out)[t].len()
                ==> #[trigger] parts_from(s, i, cur, out)[t][j] != '\'',
    decreases s.len() - i,
{
    let fl = if cur.len() > 0 {
        out.push(cur)
    } else {
        out
    };
    assert forall|t: int, j: int|
        0 <= t < fl.len() && 0 <= j < fl[t].len() implies #[trigger] fl[t][j] != '\'' by {
        if t < out.len() {
            assert(fl[t] == out[t]);
        } else {
            assert(fl[t] == cur);
        }
    }
    let r = parts_from(s, i, cur, out);
    if i >= s.len() {
        assert(r == fl);
        assert forall|t: int, j: int| 0 <= t < r.len() && 0 <= j < r[t].len() implies #[trigger] r[t][j]
            != '\'' by {
            assert(fl[t][j] != '\'');
        }
    } else if is_word_char(s[i]) {
        let cur2 = cur.push(s[i]);
        assert(forall|j: int| 0 <= j < cur2.len() ==> cur2[j] != '\'');
        lemma_parts_no_apos(s, i + 1, cur2, out);
        assert(r == parts_from(s, i + 1, cur2, out));
        assert forall|t: int, j: int| 0 <= t < r.len() && 0 <= j < r[t].len() implies #[trigger] r[t][j]
            != '\'' by {
            assert(parts_from(s, i + 1, cur2, out)[t][j] != '\'');
        }
    } else {
        lemma_parts_no_apos(s, i + 1, Seq::empty(), fl);
        assert(r == parts_from(s, i + 1, Seq::empty(), fl));
        assert forall|t: int, j: int| 0 <= t < r.len() && 0 <= j < r[t].len() implies #[trigger] r[t][j]
            != '\'' by {
            assert(parts_from(s, i + 1, Seq::empty(), fl)[t][j] != '\'');
        }
    }
}

/// Per-part case independence lifts to a whole list of parts.
proof fn lemma_split_tokens_upper(m: Map<Seq<char>, u64>, mw: int, ps: Seq<Seq<char>>)
    requires
        mw >= 1,
        forall|t: int, j: int|
            0 <= t < ps.len() && 0 <= j < ps[t].len() ==> #[trigger] ps[t][j] != '\'',
    ensures
        split_parts_tokens(m, mw, upper_tokens(ps)) == upper_tokens(
            split_parts_tokens(m, mw, ps),
        ),
    decreases ps.len(),
{
    if ps.len() == 0 {
        assert(upper_tokens(ps) =~= Seq::<Seq<char>>::empty());
        assert(upper_tokens(split_parts_tokens(m, mw, ps)) =~= Seq::<Seq<char>>::empty());
    } else {
        let rest = ps.drop_last();
        assert(forall|t: int, j: int|
            0 <= t < rest.len() && 0 <= j < rest[t].len() ==> #[trigger] rest[t][j] != '\'');
        lemma_split_tokens_upper(m, mw, rest);
        lemma_case_boundaries(m, mw, ps.last());
        assert(upper_tokens(ps).drop_last() =~= upper_tokens(rest));
        assert(upper_tokens(ps).last() == upper_seq(ps.last()));
        assert(upper_tokens(split_parts_tokens(m, mw, rest)) + upper_tokens(
            spec_split_part(m, mw, ps.last()),
        ) =~= upper_tokens(split_parts_tokens(m, mw, rest) + spec_split_part(m, mw, ps.last())));
    }
}

/// Case does not move word boundaries of a whole input without
/// apostrophes: segmenting the uppercased string yields exactly the
/// uppercased tokens of the original, with the boundaries unchanged.
pub proof fn lemma_case_split(m: Map<Seq<char>, u64>, mw: int, s: Seq<char>)
    requires
        mw >= 1,
        forall|j: int| 0 <= j < s.len() ==> s[j] != '\'',
    ensures
        spec_split(m, mw, upper_seq(s)) == upper_tokens(spec_split(m, mw, s)),
{
    assert(upper_seq(Seq::<char>::empty()) =~= Seq::<char>::empty());
    assert(upper_tokens(Seq::<Seq<char>>::empty()) =~= Seq::<Seq<char>>::empty());
    lemma_parts_upper(s, 0, Seq::empty(), Seq::empty());
    assert(spec_parts(upper_seq(s)) == upper_tokens(spec_parts(s)));
    lemma_parts_no_apos(s, 0, Seq::empty(), Seq::empty());
    lemma_split_tokens_upper(m, mw, spec_parts(s));
}

/// Scanning from `i` reads only `s[i..]`, so a common suffix gives the
/// same parts.
proof fn lemma_parts_suffix(s: Seq<char>, off: int, i: int, cur: Seq<char>, out: Seq<Seq<char>>)
    requires
        0 <= off <= i <= s.len(),
    ensures
        parts_from(s, i, cur, out) == parts_from(
            s.subrange(off, s.len() as int),
            i - off,
            cur,
            out,
        ),
    decreases s.len() - i,
{
    let b = s.subrange(off, s.len() as int);
    if i >= s.len() {
        assert(i - off >= b.len());
    } else {
        assert(b[i - off] == s[i]);
        if is_word_char(s[i]) {
            lemma_parts_suffix(s, off, i + 1, cur.push(s[i]), out);
        } else {
            lemma_parts_suffix(
                s,
                off,
                i + 1,
                Seq::empty(),
                if cur.len() > 0 {
                    out.push(cur)
                } else {
                    out
                },
            );
        }
    }
}

/// Parts left of a separator do not depend on what stands right of it,
/// and vice versa.
proof fn lemma_sep_parts_from(a: Seq<char>, c: char, b: Seq<char>, i: int, cur: Seq<char>)
    requires
        !is_word_char(c),
        0 <= i <= a.len(),
    ensures
        parts_from(a + seq![c] + b, i, cur, Seq::empty()) == parts_from(a, i, cur, Seq::empty())
            + spec_parts(b),
    decreases a.len() - i,
{
    let s = a + seq![c] + b;
    let fl: Seq<Seq<char>> = if cur.len() > 0 {
        Seq::empty().push(cur)
    } else {
        Seq::empty()
    };
    if i < a.len() {
        assert(s[i] == a[i]);
        if is_word_char(a[i]) {
            lemma_sep_parts_from(a, c, b, i + 1, cur.push(a[i]));
        } else {
            lemma_sep_parts_from(a, c, b, i + 1, Seq::empty());
            lemma_parts_from_out(s, i + 1, Seq::empty(), fl);
            lemma_parts_from_out(a, i + 1, Seq::empty(), fl);
            assert((fl + parts_from(a, i + 1, Seq::empty(), Seq::empty())) + spec_parts(b) =~= fl
                + (parts_from(a, i + 1, Seq::empty(), Seq::empty()) + spec_parts(b)));
        }
    } else {
        assert(s[i] == c);
        lemma_parts_from_out(s, i + 1, Seq::empty(), fl);
        lemma_parts_suffix(s, i + 1, i + 1, Seq::empty(), Seq::empty());
        assert(s.subrange(i + 1, s.len() as int) =~= b);
        assert(parts_from(a, i, cur, Seq::empty()) == fl);
        assert(fl + spec_parts(b) =~= parts_from(a, i, cur, Seq::empty()) + spec_parts(b));
    }
}

/// Token lists of concatenated part lists concatenate.
proof fn lemma_split_tokens_add(
    m: Map<Seq<char>, u64>,
    mw: int,
    ps: Seq<Seq<char>>,
    qs: Seq<Seq<char>>,
)
    ensures
        split_parts_tokens(m, mw, ps + qs) == split_parts_tokens(m, mw, ps) + split_parts_tokens(
            m,
            mw,
            qs,
        ),
    decreases qs.len(),
{
    if qs.len() == 0 {
        assert(ps + qs =~= ps);
        assert(split_parts_tokens(m, mw, ps) + split_parts_tokens(m, mw, qs)
            =~= split_parts_tokens(m, mw, ps));
    } else {
        lemma_split_tokens_add(m, mw, ps, qs.drop_last());
        assert((ps + qs).drop_last() =~= ps + qs.drop_last());
        assert((ps + qs).last() == qs.last());
        assert((split_parts_tokens(m, mw, ps) + split_parts_tokens(m, mw, qs.drop_last()))
            + spec_split_part(m, mw, qs.last()) =~= split_parts_tokens(m, mw, ps) + (
        split_parts_tokens(m, mw, qs.drop_last()) + spec_split_part(m, mw, qs.last())));
    }
}

/// Separator characters split the input independently of the cost model:
/// the tokens of `a`, a separator, then `b` are the tokens of `a`
/// followed by the tokens of `b`, whatever the separator is.
pub proof fn lemma_separator_split(
    m: Map<Seq<char>, u64>,
    mw: int,
    a: Seq<char>,
    c: char,
    b: Seq<char>,
)
    requires
        !is_word_char(c),
    ensures
        spec_split(m, mw, a + seq![c] + b) == spec_split(m, mw, a) + spec_split(m, mw, b),
{
    lemma_sep_parts_from(a, c, b, 0, Seq::empty());
    lemma_split_tokens_add(m, mw, spec_parts(a), spec_parts(b));
}

} // verus!
