//! The language model: a mapping from word to fixed-point cost, plus the
//! length of the longest word.

use crate::cost::cost_add;
use crate::cost::fixln_q32;
use crate::cost::spec_zipf_cost;
use crate::cost::MAX_LN_Q32;
use crate::cost::ONE_Q32;
use crate::cost::SENTINEL;
use crate::segment::back_tokens;
use crate::segment::best_from;
use crate::segment::dp_cost;
use crate::segment::ex_is_digit_char;
use crate::segment::ex_is_word_char;
use crate::segment::ex_lower_char;
use crate::segment::lower_seq;
use crate::segment::map_cost;
use crate::segment::merge_step;
use crate::segment::lemma_parts_from_out;
use crate::segment::parts_from;
use crate::segment::spec_parts;
use crate::segment::spec_split;
use crate::segment::split_parts_tokens;
use crate::segment::spec_split_part;
use crate::segment::word_cost;
use vstd::prelude::*;
use vstd::string::StrSliceExecFns;

verus! {

/// Element-for-element equality of two character vectors.
fn chars_eq(a: &Vec<char>, b: &Vec<char>) -> (r: bool)
    ensures
        r == (a@ == b@),
{
    if a.len() != b.len() {
        assert(a@ != b@);
        return false;
    }
    let n = a.len();
    let mut i: usize = 0;
    while i < n
        invariant
            i <= n,
            n == a@.len() == b@.len(),
            forall|j: int| 0 <= j < i ==> a@[j] == b@[j],
        decreases n - i,
    {
        if a[i] != b[i] {
            return false;
        }
        i += 1;
    }
    proof {
        assert(a@ =~= b@);
    }
    true
}

/// Copy of `p[a..b]`.
fn subvec(p: &Vec<char>, a: usize, b: usize) -> (r: Vec<char>)
    requires
        a <= b <= p@.len(),
    ensures
        r@ == p@.subrange(a as int, b as int),
{
    let mut r: Vec<char> = Vec::new();
    let mut i: usize = a;
    while i < b
        invariant
            a <= i <= b <= p@.len(),
            r@ =~= p@.subrange(a as int, i as int),
        decreases b - i,
    {
        r.push(p[i]);
        proof {
            assert(r@ =~= p@.subrange(a as int, (i + 1) as int));
        }
        i += 1;
    }
    r
}

/// Lowercased copy of `p[a..b]`.
fn lower_sub(p: &Vec<char>, a: usize, b: usize) -> (r: Vec<char>)
    requires
        a <= b <= p@.len(),
    ensures
        r@ == lower_seq(p@.subrange(a as int, b as int)),
{
    let mut r: Vec<char> = Vec::new();
    let mut i: usize = a;
    while i < b
        invariant
            a <= i <= b <= p@.len(),
            r@ =~= lower_seq(p@.subrange(a as int, i as int)),
        decreases b - i,
    {
        r.push(ex_lower_char(p[i]));
        proof {
            assert(r@ =~= lower_seq(p@.subrange(a as int, (i + 1) as int)));
        }
        i += 1;
    }
    r
}

/// `a` followed by `b`.
fn concat_chars(a: Vec<char>, b: &Vec<char>) -> (r: Vec<char>)
    ensures
        r@ == a@ + b@,
{
    let ghost ga = a@;
    let mut r = a;
    let n = b.len();
    let mut i: usize = 0;
    while i < n
        invariant
            i <= n,
            n == b@.len(),
            r@ =~= ga + b@.subrange(0, i as int),
        decreases n - i,
    {
        r.push(b[i]);
        proof {
            assert(r@ =~= ga + b@.subrange(0, (i + 1) as int));
        }
        i += 1;
    }
    proof {
        assert(b@.subrange(0, n as int) =~= b@);
    }
    r
}

/// All characters of a string, in order.
fn chars_of(s: &str) -> (r: Vec<char>)
    ensures
        r@ == s@,
{
    let n = s.unicode_len();
    let mut r: Vec<char> = Vec::new();
    let mut i: usize = 0;
    while i < n
        invariant
            i <= n,
            n == s@.len(),
            r@ =~= s@.subrange(0, i as int),
        decreases n - i,
    {
        r.push(s.get_char(i));
        proof {
            assert(r@ =~= s@.subrange(0, (i + 1) as int));
        }
        i += 1;
    }
    proof {
        assert(s@.subrange(0, n as int) =~= s@);
    }
    r
}

/// Relies on `String: FromIterator<char>` of std: collecting characters
/// builds the string holding exactly those characters in order.
#[verifier::external_body]
fn chars_to_string(cs: &Vec<char>) -> (r: String)
    ensures
        r@ == cs@,
{
    cs.iter().collect()
}

/// Append one token, as a `String`, to the output list.
fn push_token(out: &mut Vec<String>, tok: &Vec<char>)
    ensures
        final(out).deep_view() == old(out).deep_view().push(tok@),
{
    let st = chars_to_string(tok);
    out.push(st);
    proof {
        let dv = out.deep_view();
        let prev = old(out).deep_view();
        assert(dv.len() == prev.len() + 1);
        assert forall|ii: int| 0 <= ii < dv.len() implies dv[ii] == prev.push(tok@)[ii] by {
            if ii < prev.len() {
                assert(out@[ii] == old(out)@[ii]);
            } else {
                assert(out@[ii] == st);
                assert(st.deep_view() == st@);
            }
        }
        assert(dv =~= prev.push(tok@));
    }
}

/// Length of the longest word in the list (0 when the list is empty or
/// holds only empty words).
pub open spec fn spec_max_len(ws: Seq<Seq<char>>) -> int
    decreases ws.len(),
{
    if ws.len() == 0 {
        0
    } else {
        let rest = spec_max_len(ws.drop_last());
        if ws.last().len() > rest {
            ws.last().len() as int
        } else {
            rest
        }
    }
}

/// Cost mapping for the first `j` words of a list of `n`, word at rank
/// `t` costing `spec_zipf_cost(t, n)`; a later duplicate overwrites an
/// earlier one.
pub open spec fn zipf_map_prefix(ws: Seq<Seq<char>>, j: int, n: int) -> Map<Seq<char>, u64>
    decreases j,
{
    if j <= 0 {
        Map::empty()
    } else {
        zipf_map_prefix(ws, j - 1, n).insert(ws[j - 1], spec_zipf_cost(j - 1, n) as u64)
    }
}

/// The cost mapping a word list defines.
pub open spec fn spec_zipf_map(ws: Seq<Seq<char>>) -> Map<Seq<char>, u64> {
    zipf_map_prefix(ws, ws.len() as int, ws.len() as int)
}

/// A line with a trailing carriage return has it stripped, as `str::lines`
/// does.
pub open spec fn strip_cr(l: Seq<char>) -> Seq<char> {
    if l.len() > 0 && l.last() == '\r' {
        l.drop_last()
    } else {
        l
    }
}

/// Append a finished line to the word list, dropping it when empty.
pub open spec fn push_line(out: Seq<Seq<char>>, l: Seq<char>) -> Seq<Seq<char>> {
    let t = strip_cr(l);
    if t.len() > 0 {
        out.push(t)
    } else {
        out
    }
}

/// The nonempty lines of `s` from position `i` on: `cur` is the line read
/// so far, `out` the finished lines.
pub open spec fn lines_from(s: Seq<char>, i: int, cur: Seq<char>, out: Seq<Seq<char>>) -> Seq<
    Seq<char>,
>
    decreases s.len() - i,
{
    if i < 0 || i >= s.len() {
        push_line(out, cur)
    } else if s[i] == '\n' {
        lines_from(s, i + 1, Seq::empty(), push_line(out, cur))
    } else {
        lines_from(s, i + 1, cur.push(s[i]), out)
    }
}

/// The word list a model file defines: its nonempty lines, in order,
/// rank 0 first.
pub open spec fn spec_model_words(s: Seq<char>) -> Seq<Seq<char>> {
    lines_from(s, 0, Seq::empty(), Seq::empty())
}

/// Failure to build a model.
#[derive(Clone, Copy, Debug, PartialEq, Eq, Structural)]
pub enum ModelError {
    /// The word list held no (nonempty) word, so no cost can be assigned.
    InvalidModel,
}

/// One dictionary word with its cost.
#[derive(Debug)]
pub struct WordEntry {
    pub word: Vec<char>,
    pub cost: u64,
}

/// Word-to-cost mapping described by a list of entries; a later entry for
/// the same word overwrites an earlier one.
pub open spec fn entries_map(es: Seq<WordEntry>) -> Map<Seq<char>, u64>
    decreases es.len(),
{
    if es.len() == 0 {
        Map::empty()
    } else {
        entries_map(es.drop_last()).insert(es.last().word@, es.last().cost)
    }
}

/// An immutable statistical model of a language: each known word has a
/// finite cost, low for frequent words, and `maxword` bounds how far the
/// segmenter looks back.
#[derive(Debug)]
pub struct LanguageModel {
    entries: Vec<WordEntry>,
    maxword: usize,
}

impl LanguageModel {
    /// The mapping from word (as given in the dictionary) to its cost.
    pub closed spec fn word_map(self) -> Map<Seq<char>, u64> {
        entries_map(self.entries@)
    }

    /// Length in characters of the longest dictionary word.
    pub closed spec fn spec_maxword(self) -> int {
        self.maxword as int
    }

    /// A well-formed model looks back at least one character, every key
    /// is no longer than `maxword`, and every cost is finite (below the
    /// unknown-word sentinel).
    pub closed spec fn wf(self) -> bool {
        &&& self.maxword >= 1
        &&& forall|i: int|
            0 <= i < self.entries@.len() ==> (#[trigger] self.entries@[i]).word@.len()
                <= self.maxword
        &&& forall|i: int| 0 <= i < self.entries@.len() ==> (#[trigger] self.entries@[i]).cost < SENTINEL
    }

    /// Well-formedness seen through the map view: keys are bounded by
    /// `maxword` and costs are finite.
    pub proof fn lemma_wf_map(self)
        requires
            self.wf(),
        ensures
            self.spec_maxword() >= 1,
            forall|w: Seq<char>|
                #[trigger] self.word_map().contains_key(w) ==> w.len() <= self.spec_maxword()
                    && self.word_map()[w] < SENTINEL,
    {
        lemma_entries_map_bounds(self.entries@, self.maxword as int);
    }

    /// Cost of a lowercased key, `SENTINEL` when the key is unknown. The
    /// last entry for a key wins, so the scan runs back to front.
    fn cost_of_key(&self, key: &Vec<char>) -> (r: u64)
        ensures
            r as int == map_cost(self.word_map(), key@),
    {
        let mut j: usize = self.entries.len();
        proof {
            assert(self.entries@.take(self.entries@.len() as int) =~= self.entries@);
        }
        while j > 0
            invariant
                j <= self.entries@.len(),
                map_cost(entries_map(self.entries@), key@) == map_cost(
                    entries_map(self.entries@.take(j as int)),
                    key@,
                ),
            decreases j,
        {
            j = j - 1;
            proof {
                assert(self.entries@.take((j + 1) as int).drop_last() =~= self.entries@.take(
                    j as int,
                ));
                assert(self.entries@.take((j + 1) as int).last() == self.entries@[j as int]);
            }
            if chars_eq(&self.entries[j].word, key) {
                return self.entries[j].cost;
            }
        }
        proof {
            assert(self.entries@.take(0) =~= Seq::<WordEntry>::empty());
            assert(!Map::<Seq<char>, u64>::empty().contains_key(key@));
        }
        SENTINEL
    }

    /// Cost of the candidate token `p[a..b]`, looked up lowercased.
    fn token_cost(&self, p: &Vec<char>, a: usize, b: usize) -> (r: u64)
        requires
            a <= b <= p@.len(),
        ensures
            r as int == word_cost(self.word_map(), p@.subrange(a as int, b as int)),
    {
        let key = lower_sub(p, a, b);
        self.cost_of_key(&key)
    }

    /// Cheapest way to end a segmentation of `p[..i]`: the minimal
    /// `(cost, token length)` over last-token lengths `1..=min(maxword, i)`,
    /// the shortest length winning a tie. `cost[j]` must hold the minimum
    /// segmentation cost of `p[..j]` for all `j < i`.
    fn best_match(&self, p: &Vec<char>, cost: &Vec<u64>, i: usize) -> (r: (u64, usize))
        requires
            self.wf(),
            1 <= i <= p@.len(),
            p@.len() < usize::MAX,
            i <= cost@.len(),
            forall|j: int|
                0 <= j < i ==> (#[trigger] cost@[j]) as int == dp_cost(
                    self.word_map(),
                    self.spec_maxword(),
                    p@,
                    j,
                ),
        ensures
            r.0 as int == best_from(
                self.word_map(),
                self.spec_maxword(),
                p@,
                i as int,
                if self.spec_maxword() < i { self.spec_maxword() } else { i as int },
            ).0,
            r.1 as int == best_from(
                self.word_map(),
                self.spec_maxword(),
                p@,
                i as int,
                if self.spec_maxword() < i { self.spec_maxword() } else { i as int },
            ).1,
            1 <= r.1 <= i,
            r.0 as int == dp_cost(self.word_map(), self.spec_maxword(), p@, i as int),
    {
        let ghost m = self.word_map();
        let ghost mw = self.spec_maxword();
        let back: usize = if self.maxword < i {
            self.maxword
        } else {
            i
        };
        let mut bc: u64 = cost_add(cost[i - 1], self.token_cost(p, i - 1, i));
        let mut bk: usize = 1;
        let mut k: usize = 2;
        while k <= back
            invariant
                self.wf(),
                m == self.word_map(),
                mw == self.spec_maxword(),
                1 <= i <= p@.len(),
                p@.len() < usize::MAX,
                i <= cost@.len(),
                forall|j: int|
                    0 <= j < i ==> (#[trigger] cost@[j]) as int == dp_cost(m, mw, p@, j),
                back == if mw < i { mw } else { i as int },
                2 <= k <= back + 1,
                1 <= bk < k,
                (bc as int, bk as int) == best_from(m, mw, p@, i as int, (k - 1) as int),
            decreases back + 1 - k,
        {
            let c = cost_add(cost[i - k], self.token_cost(p, i - k, i));
            proof {
                assert(best_from(m, mw, p@, i as int, k as int) == (
                if c < bc {
                    (c as int, k as int)
                } else {
                    (bc as int, bk as int)
                }));
            }
            if c < bc {
                bc = c;
                bk = k;
            }
            k += 1;
        }
        (bc, bk)
    }

    /// Segment one part (a run of word characters) into tokens. The cost
    /// table is filled left to right, then the optimal boundaries are
    /// recovered right to left; `'s` suffixes and digit runs split by the
    /// search are re-joined on the way.
    pub fn split_part(&self, p: &Vec<char>) -> (out: Vec<Vec<char>>)
        requires
            self.wf(),
            p@.len() < usize::MAX,
        ensures
            out.deep_view() == crate::segment::spec_split_part(
                self.word_map(),
                self.spec_maxword(),
                p@,
            ),
            out.deep_view().flatten() == p@,
    {
        let ghost m = self.word_map();
        let ghost mw = self.spec_maxword();
        proof {
            crate::laws::lemma_tokens_reconstruct(m, mw, p@);
        }
        let l = p.len();
        let mut cost: Vec<u64> = Vec::new();
        cost.push(0);
        let mut i: usize = 1;
        while i <= l
            invariant
                self.wf(),
                m == self.word_map(),
                mw == self.spec_maxword(),
                l == p@.len(),
                l < usize::MAX,
                1 <= i <= l + 1,
                cost@.len() == i,
                forall|j: int| 0 <= j < i ==> (#[trigger] cost@[j]) as int == dp_cost(m, mw, p@, j),
            decreases l + 1 - i,
        {
            let r = self.best_match(p, &cost, i);
            cost.push(r.0);
            i += 1;
        }
        let mut out_rev: Vec<Vec<char>> = Vec::new();
        proof {
            assert(out_rev.deep_view() =~~= Seq::<Seq<char>>::empty());
        }
        let mut pos: usize = l;
        while pos > 0
            invariant
                self.wf(),
                m == self.word_map(),
                mw == self.spec_maxword(),
                l == p@.len(),
                l < usize::MAX,
                pos <= l,
                cost@.len() == l + 1,
                forall|j: int|
                    0 <= j <= l ==> (#[trigger] cost@[j]) as int == dp_cost(m, mw, p@, j),
                forall|t: int| 0 <= t < out_rev@.len() ==> (#[trigger] out_rev@[t])@.len() > 0,
                back_tokens(m, mw, p@, l as int, Seq::empty()) == back_tokens(
                    m,
                    mw,
                    p@,
                    pos as int,
                    out_rev.deep_view(),
                ),
            decreases pos,
        {
            let r = self.best_match(p, &cost, pos);
            let k = r.1;
            proof {
                // The recomputed best cost must agree with the table.
                assert(r.0 == cost@[pos as int]);
            }
            let token = subvec(p, pos - k, pos);
            let ghost acc0 = out_rev.deep_view();
            let ghost t = p@.subrange(pos - k, pos as int);
            let is_apos = k == 1 && *vstd::slice::slice_index_get(token.as_slice(), 0) == '\'';
            proof {
                if is_apos {
                    assert(t =~= seq!['\'']);
                } else if t == seq!['\''] {
                    assert(t.len() == 1 && t[0] == '\'');
                    assert(false);
                }
                assert(is_apos == (t == seq!['\'']));
            }
            let mut do_merge = false;
            if !is_apos && out_rev.len() > 0 {
                let li = out_rev.len() - 1;
                let last_len = out_rev[li].len();
                proof {
                    assert(out_rev@[li as int]@ == acc0.last());
                    assert(acc0.last().len() > 0);
                }
                let is_s = last_len == 2 && *vstd::slice::slice_index_get(
                    out_rev[li].as_slice(),
                    0,
                ) == '\'' && *vstd::slice::slice_index_get(out_rev[li].as_slice(), 1) == 's';
                proof {
                    if is_s {
                        assert(acc0.last() =~= seq!['\'', 's']);
                    } else if acc0.last() == seq!['\'', 's'] {
                        assert(acc0.last().len() == 2 && acc0.last()[0] == '\'' && acc0.last()[1]
                            == 's');
                        assert(false);
                    }
                }
                let digit_follow = ex_is_digit_char(p[pos - 1]) && ex_is_digit_char(
                    *vstd::slice::slice_index_get(out_rev[li].as_slice(), 0),
                );
                proof {
                    assert(t.last() == p@[pos - 1]);
                    assert(acc0.last().first() == out_rev@[li as int]@[0]);
                }
                do_merge = is_s || digit_follow;
            }
            proof {
                if do_merge {
                    assert(merge_step(p@, pos as int, k as int, acc0) == acc0.update(
                        acc0.len() - 1,
                        t + acc0.last(),
                    ));
                } else {
                    assert(merge_step(p@, pos as int, k as int, acc0) == acc0.push(t));
                }
            }
            if do_merge {
                let li = out_rev.len() - 1;
                let tok2 = concat_chars(token, &out_rev[li]);
                out_rev[li] = tok2;
                proof {
                    assert(out_rev.deep_view() =~~= acc0.update(acc0.len() - 1, t + acc0.last()));
                }
            } else {
                out_rev.push(token);
                proof {
                    assert(out_rev.deep_view() =~~= acc0.push(t));
                }
            }
            proof {
                assert(back_tokens(m, mw, p@, pos as int, acc0) == back_tokens(
                    m,
                    mw,
                    p@,
                    pos - k,
                    merge_step(p@, pos as int, k as int, acc0),
                ));
            }
            pos -= k;
        }
        let ghost fullacc = out_rev.deep_view();
        let mut out: Vec<Vec<char>> = Vec::new();
        proof {
            assert(out_rev.deep_view() =~~= fullacc.subrange(0, out_rev@.len() as int));
            assert(out.deep_view() =~~= fullacc.subrange(
                out_rev@.len() as int,
                fullacc.len() as int,
            ).reverse());
        }
        while out_rev.len() > 0
            invariant
                out_rev@.len() <= fullacc.len(),
                out_rev.deep_view() == fullacc.subrange(0, out_rev@.len() as int),
                out.deep_view() == fullacc.subrange(
                    out_rev@.len() as int,
                    fullacc.len() as int,
                ).reverse(),
            decreases out_rev@.len(),
    {
            let nlast = out_rev.len() - 1;
            let ghost pre = out_rev@;
            let ghost predeep = out_rev.deep_view();
            match out_rev.pop() {
                Some(tok) => {
                    proof {
                        assert(predeep[nlast as int] == pre[nlast as int].deep_view());
                        assert(tok == pre[nlast as int]);
                        assert(tok.deep_view() == fullacc[nlast as int]);
                        assert(fullacc.subrange(nlast as int, fullacc.len() as int).reverse()
                            =~~= fullacc.subrange(
                            (nlast + 1) as int,
                            fullacc.len() as int,
                        ).reverse().push(fullacc[nlast as int]));
                    }
                    out.push(tok);
                    proof {
                        assert(out_rev.deep_view() =~~= fullacc.subrange(0, nlast as int));
                        assert(out.deep_view() =~~= fullacc.subrange(
                            nlast as int,
                            fullacc.len() as int,
                        ).reverse());
                    }
                },
                None => {
                    proof {
                        assert(false);
                    }
                },
            }
        }
        proof {
            assert(fullacc.subrange(0, fullacc.len() as int) =~= fullacc);
            assert(out.deep_view() =~~= back_tokens(m, mw, p@, l as int, Seq::empty()).reverse());
        }
        out
    }

    /// Build a model from an ordered word list (rank 0 first). The word at
    /// rank `i` among `n` costs `ln((i + 1) * ln(n))` in Q32.32, clamped
    /// below at zero; `maxword` is the longest word's length. A list with
    /// no nonempty word cannot carry a cost model and is rejected.
    fn build(words: Vec<Vec<char>>) -> (r: Result<LanguageModel, ModelError>)
        ensures
            ({
                let ws = words.deep_view();
                match r {
                    Ok(lm) => lm.wf() && lm.word_map() == spec_zipf_map(ws) && lm.spec_maxword()
                        == spec_max_len(ws) && spec_max_len(ws) >= 1,
                    Err(e) => e == ModelError::InvalidModel && spec_max_len(ws) == 0,
                }
            }),
    {
        let ghost ws = words.deep_view();
        let n = words.len();
        let lnn = fixln_q32((n as u128) * 0x1_0000_0000);
        let mut entries: Vec<WordEntry> = Vec::new();
        let mut maxword: usize = 0;
        let mut idx: usize = 0;
        proof {
            assert(ws.take(0) =~= Seq::<Seq<char>>::empty());
        }
        while idx < n
            invariant
                idx <= n,
                n == ws.len(),
                ws == words.deep_view(),
                lnn as int == crate::cost::spec_fixln((n as int) * (ONE_Q32 as int)),
                lnn <= MAX_LN_Q32,
                entries@.len() == idx,
                entries_map(entries@) == zipf_map_prefix(ws, idx as int, n as int),
                forall|t: int|
                    0 <= t < idx ==> (#[trigger] entries@[t]).word@.len() <= maxword,
                forall|t: int| 0 <= t < idx ==> (#[trigger] entries@[t]).cost < SENTINEL,
                maxword as int == spec_max_len(ws.take(idx as int)),
            decreases n - idx,
        {
            proof {
                assert((idx as int + 1) * (lnn as int) <= 0x1_0000_0000_0000_0000
                    * 0x60_0000_0000) by (nonlinear_arith)
                    requires
                        0 <= idx as int + 1 <= 0x1_0000_0000_0000_0000,
                        0 <= lnn <= 0x60_0000_0000,
                ;
            }
            let rank_term: u128 = (idx as u128 + 1) * (lnn as u128);
            let c = fixln_q32(rank_term);
            let w = subvec(&words[idx], 0, words[idx].len());
            proof {
                assert(w@ =~= words@[idx as int]@);
                assert(ws[idx as int] == words@[idx as int].deep_view());
                assert(w@ =~= ws[idx as int]);
            }
            let wlen = w.len();
            if wlen > maxword {
                maxword = wlen;
            }
            let ghost old_entries = entries@;
            entries.push(WordEntry { word: w, cost: c });
            proof {
                assert(entries@.drop_last() =~= old_entries);
                assert(entries@.last() == entries@[idx as int]);
                assert(entries_map(entries@) == entries_map(old_entries).insert(
                    entries@.last().word@,
                    entries@.last().cost,
                ));
                assert(entries@.last().cost as int == spec_zipf_cost(idx as int, n as int));
                assert(entries_map(entries@) == zipf_map_prefix(ws, idx as int + 1, n as int));
                assert(ws.take(idx as int + 1).drop_last() =~= ws.take(idx as int));
                assert(ws.take(idx as int + 1).last() == ws[idx as int]);
            }
            idx += 1;
        }
        proof {
            assert(ws.take(n as int) =~= ws);
        }
        if maxword == 0 {
            return Err(ModelError::InvalidModel);
        }
        Ok(LanguageModel { entries, maxword })
    }

    /// Build a model from an ordered slice of words, most frequent first.
    /// Rejects a list with no nonempty word with `InvalidModel`.
    pub fn new(words: &[&str]) -> (r: Result<LanguageModel, ModelError>)
        ensures
            ({
                let ws = words.deep_view();
                match r {
                    Ok(lm) => lm.wf() && lm.word_map() == spec_zipf_map(ws) && lm.spec_maxword()
                        == spec_max_len(ws) && spec_max_len(ws) >= 1,
                    Err(e) => e == ModelError::InvalidModel && spec_max_len(ws) == 0,
                }
            }),
    {
        let ghost ws = words.deep_view();
        let n = words.len();
        let mut vs: Vec<Vec<char>> = Vec::new();
        let mut i: usize = 0;
        while i < n
            invariant
                i <= n,
                n == ws.len(),
                ws == words.deep_view(),
                vs@.len() == i,
                forall|t: int| 0 <= t < i ==> (#[trigger] vs@[t])@ == ws[t],
            decreases n - i,
        {
            let w = chars_of(words[i]);
            vs.push(w);
            i += 1;
        }
        proof {
            assert(vs.deep_view() =~~= ws);
        }
        Self::build(vs)
    }

    /// Build a model from the text of a model file: one word per line,
    /// most frequent first, empty lines ignored. Rejects text with no
    /// nonempty line with `InvalidModel`.
    pub fn new_model(model: &str) -> (r: Result<LanguageModel, ModelError>)
        ensures
            ({
                let ws = spec_model_words(model@);
                match r {
                    Ok(lm) => lm.wf() && lm.word_map() == spec_zipf_map(ws) && lm.spec_maxword()
                        == spec_max_len(ws) && spec_max_len(ws) >= 1,
                    Err(e) => e == ModelError::InvalidModel && spec_max_len(ws) == 0,
                }
            }),
    {
        let cs = chars_of(model);
        let n = cs.len();
        let mut words: Vec<Vec<char>> = Vec::new();
        let mut cur: Vec<char> = Vec::new();
        let mut i: usize = 0;
        proof {
            assert(words.deep_view() =~~= Seq::<Seq<char>>::empty());
        }
        while i < n
            invariant
                i <= n,
                n == cs@.len(),
                cs@ == model@,
                lines_from(model@, 0, Seq::empty(), Seq::empty()) == lines_from(
                    model@,
                    i as int,
                    cur@,
                    words.deep_view(),
                ),
            decreases n - i,
        {
            let c = cs[i];
            let ghost old_out = words.deep_view();
            let ghost old_cur = cur@;
            if c == '\n' {
                let mut t = cur;
                cur = Vec::new();
                if t.len() > 0 && t[t.len() - 1] == '\r' {
                    let _last = t.pop();
                    proof {
                        assert(t@ =~= strip_cr(old_cur));
                    }
                } else {
                    proof {
                        assert(t@ == strip_cr(old_cur));
                    }
                }
                if t.len() > 0 {
                    words.push(t);
                    proof {
                        assert(words.deep_view() =~~= push_line(old_out, old_cur));
                    }
                } else {
                    proof {
                        assert(words.deep_view() =~~= push_line(old_out, old_cur));
                    }
                }
            } else {
                cur.push(c);
            }
            i += 1;
        }
        let ghost old_out = words.deep_view();
        let ghost old_cur = cur@;
        let mut t = cur;
        if t.len() > 0 && t[t.len() - 1] == '\r' {
            let _last = t.pop();
            proof {
                assert(t@ =~= strip_cr(old_cur));
            }
        } else {
            proof {
                assert(t@ == strip_cr(old_cur));
            }
        }
        if t.len() > 0 {
            words.push(t);
            proof {
                assert(words.deep_view() =~~= push_line(old_out, old_cur));
            }
        } else {
            proof {
                assert(words.deep_view() =~~= push_line(old_out, old_cur));
            }
        }
        proof {
            assert(words.deep_view() == spec_model_words(model@));
        }
        Self::build(words)
    }

    /// Segment a string. The input is split on every character that is
    /// neither an ASCII alphanumeric nor an apostrophe; each nonempty part
    /// is segmented against the model, and the tokens are returned in
    /// input order with the input's case preserved.
    pub fn split(&self, s: &str) -> (r: Vec<String>)
        requires
            self.wf(),
            s@.len() < usize::MAX,
        ensures
            r.deep_view() == spec_split(self.word_map(), self.spec_maxword(), s@),
    {
        let ghost m = self.word_map();
        let ghost mw = self.spec_maxword();
        let cs = chars_of(s);
        let n = cs.len();
        let mut out: Vec<String> = Vec::new();
        let mut cur: Vec<char> = Vec::new();
        let ghost mut done: Seq<Seq<char>> = Seq::empty();
        let mut i: usize = 0;
        proof {
            assert(cur@ =~= Seq::<char>::empty());
            assert(out.deep_view() =~~= split_parts_tokens(m, mw, done));
            assert(spec_parts(s@) == done + parts_from(s@, 0, cur@, Seq::empty()));
        }
        while i < n
            invariant
                i <= n,
                n == cs@.len(),
                cs@ == s@,
                s@.len() < usize::MAX,
                cur@.len() <= i,
                self.wf(),
                m == self.word_map(),
                mw == self.spec_maxword(),
                spec_parts(s@) == done + parts_from(s@, i as int, cur@, Seq::empty()),
                out.deep_view() == split_parts_tokens(m, mw, done),
            decreases n - i,
        {
            let c = cs[i];
            if ex_is_word_char(c) {
                cur.push(c);
            } else {
                if cur.len() > 0 {
                    let tokens = self.split_part(&cur);
                    let ghost base = out.deep_view();
                    let tn = tokens.len();
                    let mut tj: usize = 0;
                    while tj < tn
                        invariant
                            tj <= tn,
                            tn == tokens@.len(),
                            out.deep_view() == base + tokens.deep_view().take(tj as int),
                        decreases tn - tj,
                    {
                        push_token(&mut out, &tokens[tj]);
                        proof {
                            assert(tokens.deep_view()[tj as int] =~= tokens@[tj as int]@);
                            assert(out.deep_view() =~= base + tokens.deep_view().take(
                                tj as int + 1,
                            ));
                        }
                        tj += 1;
                    }
                    proof {
                        assert(tokens.deep_view().take(tn as int) =~= tokens.deep_view());
                        lemma_parts_from_out(
                            s@,
                            i as int + 1,
                            Seq::empty(),
                            Seq::empty().push(cur@),
                        );
                        assert(parts_from(s@, i as int, cur@, Seq::empty()) == Seq::empty().push(
                            cur@,
                        ) + parts_from(s@, i as int + 1, Seq::empty(), Seq::empty()));
                        let prev = done;
                        done = prev.push(cur@);
                        assert(done + parts_from(s@, i as int + 1, Seq::empty(), Seq::empty())
                            =~= prev + (Seq::empty().push(cur@) + parts_from(
                            s@,
                            i as int + 1,
                            Seq::empty(),
                            Seq::empty(),
                        )));
                        assert(done.drop_last() =~= prev);
                        assert(done.last() == cur@);
                        assert(split_parts_tokens(m, mw, done) == split_parts_tokens(m, mw, prev)
                            + spec_split_part(m, mw, cur@));
                        assert(out.deep_view() =~~= split_parts_tokens(m, mw, done));
                    }
                    cur = Vec::new();
                } else {
                    proof {
                        assert(cur@ =~= Seq::<char>::empty());
                    }
                }
            }
            i += 1;
        }
        if cur.len() > 0 {
            let tokens = self.split_part(&cur);
            let ghost base = out.deep_view();
            let tn = tokens.len();
            let mut tj: usize = 0;
            while tj < tn
                invariant
                    tj <= tn,
                    tn == tokens@.len(),
                    out.deep_view() == base + tokens.deep_view().take(tj as int),
                decreases tn - tj,
            {
                push_token(&mut out, &tokens[tj]);
                proof {
                    assert(tokens.deep_view()[tj as int] =~= tokens@[tj as int]@);
                    assert(out.deep_view() =~= base + tokens.deep_view().take(tj as int + 1));
                }
                tj += 1;
            }
            proof {
                assert(tokens.deep_view().take(tn as int) =~= tokens.deep_view());
                assert(parts_from(s@, n as int, cur@, Seq::empty()) == Seq::empty().push(cur@));
                let prev = done;
                done = prev.push(cur@);
                assert(spec_parts(s@) =~= done);
                assert(done.drop_last() =~= prev);
                assert(done.last() == cur@);
                assert(split_parts_tokens(m, mw, done) == split_parts_tokens(m, mw, prev)
                    + spec_split_part(m, mw, cur@));
                assert(out.deep_view() =~~= split_parts_tokens(m, mw, done));
            }
        } else {
            proof {
                assert(parts_from(s@, n as int, cur@, Seq::empty())
                    =~= Seq::<Seq<char>>::empty());
                assert(spec_parts(s@) =~= done);
            }
        }
        proof {
            assert(out.deep_view() == spec_split(m, mw, s@));
        }
        out
    }
}

/// Every key of `entries_map(es)` comes from some entry, so bounds on the
/// entries carry over to the map.
proof fn lemma_entries_map_bounds(es: Seq<WordEntry>, maxword: int)
    requires
        forall|i: int| 0 <= i < es.len() ==> (#[trigger] es[i]).word@.len() <= maxword,
        forall|i: int| 0 <= i < es.len() ==> (#[trigger] es[i]).cost < SENTINEL,
    ensures
        forall|w: Seq<char>|
            #[trigger] entries_map(es).contains_key(w) ==> w.len() <= maxword && entries_map(
                es,
            )[w] < SENTINEL,
    decreases es.len(),
{
    if es.len() == 0 {
        assert forall|w: Seq<char>| #[trigger] entries_map(es).contains_key(w) implies w.len()
            <= maxword && entries_map(es)[w] < SENTINEL by {
            assert(!Map::<Seq<char>, u64>::empty().contains_key(w));
        }
    }
    if es.len() > 0 {
        assert(forall|i: int|
            0 <= i < es.drop_last().len() ==> #[trigger] es.drop_last()[i] == es[i]);
        lemma_entries_map_bounds(es.drop_last(), maxword);
        assert(entries_map(es) == entries_map(es.drop_last()).insert(
            es.last().word@,
            es.last().cost,
        ));
        assert forall|w: Seq<char>| #[trigger] entries_map(es).contains_key(w) implies w.len()
            <= maxword && entries_map(es)[w] < SENTINEL by {
            if w == es.last().word@ {
                assert(es[es.len() - 1].word@.len() <= maxword);
                assert(es[es.len() - 1].cost < SENTINEL);
            } else {
                assert(entries_map(es.drop_last()).contains_key(w));
                assert(entries_map(es.drop_last())[w] < SENTINEL);
                assert(entries_map(es)[w] == entries_map(es.drop_last())[w]);
            }
        }
    }
}

} // verus!
