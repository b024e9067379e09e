//! Token-aware paragraph segmentation with overlap.
//!
//! `chunk_by_paragraph_with_overlap` splits a text on blank-line paragraph
//! boundaries and accumulates paragraphs into chunks of at most `max_tokens`
//! estimated tokens; when a chunk is finalized, the next one is seeded with an
//! overlap of trailing paragraphs worth at most `overlap_tokens`. A paragraph
//! whose own estimate exceeds `max_tokens` is hard-split into word windows.

use vstd::prelude::*;

use crate::text::count_words;
use crate::text::is_ws_char;
use crate::text::join_range;
use crate::text::join_strings;
use crate::text::join_with;
use crate::text::lemma_count_words_concat;
use crate::text::lemma_keep_trimmed_props;
use crate::text::count_words_from;
use crate::text::paragraphs;
use crate::text::split_paragraphs;
use crate::text::estimate_tokens;
use crate::text::token_estimate;
use crate::text::ws_char;
use crate::text::ws_state_after;

verus! {

/// `ceil(4 * w / 3)`: the token estimate as a function of a word count.
pub open spec fn te_of(w: nat) -> nat {
    (4 * w + 2) / 3
}

/// The token estimate is subadditive: estimating two texts separately never
/// yields less than estimating their combined word count.
pub proof fn lemma_te_subadd(a: nat, b: nat)
    ensures
        te_of(a + b) <= te_of(a) + te_of(b),
{
}

/// The words of `s`: maximal runs of non-whitespace characters, scanned left
/// to right (`i` is the scan position, `start` the start of the pending run).
pub open spec fn words_loop(s: Seq<char>, i: int, start: int, acc: Seq<Seq<char>>) -> Seq<Seq<char>>
    decreases s.len() - i,
{
    if i >= s.len() {
        if start < i {
            acc.push(s.subrange(start, s.len() as int))
        } else {
            acc
        }
    } else if is_ws_char(s[i]) {
        let acc2 = if start < i {
            acc.push(s.subrange(start, i))
        } else {
            acc
        };
        words_loop(s, i + 1, i + 1, acc2)
    } else {
        words_loop(s, i + 1, start, acc)
    }
}

/// The words of `s`.
pub open spec fn split_words(s: Seq<char>) -> Seq<Seq<char>> {
    words_loop(s, 0, 0, Seq::empty())
}

/// Splits `text` into words: the executable counterpart of [`split_words`].
pub fn split_words_exec(text: &str) -> (r: Vec<String>)
    ensures
        r@.map_values(|p: String| p@) == split_words(text@),
{
    let n = text.unicode_len();
    let mut i: usize = 0;
    let mut start: usize = 0;
    let mut r: Vec<String> = Vec::new();
    proof {
        assert(r@.map_values(|p: String| p@) =~= Seq::<Seq<char>>::empty());
    }
    while i < n
        invariant
            n == text@.len(),
            start <= i <= n,
            words_loop(text@, i as int, start as int, r@.map_values(|p: String| p@))
                == split_words(text@),
        decreases n - i,
    {
        if ws_char(text.get_char(i)) {
            if start < i {
                let w = String::from_str(text.substring_char(start, i));
                let ghost pre = r@.map_values(|p: String| p@);
                r.push(w);
                proof {
                    assert(r@.map_values(|p: String| p@) =~= pre.push(
                        text@.subrange(start as int, i as int),
                    ));
                }
            }
            start = i + 1;
            i = i + 1;
        } else {
            i = i + 1;
        }
    }
    if start < n {
        let w = String::from_str(text.substring_char(start, n));
        let ghost pre = r@.map_values(|p: String| p@);
        r.push(w);
        proof {
            assert(r@.map_values(|p: String| p@) =~= pre.push(
                text@.subrange(start as int, n as int),
            ));
        }
    }
    r
}

/// Word windows of a hard-split paragraph: each window takes up to `max`
/// consecutive words joined with single spaces; the window start advances by
/// `max - ov` words, or by the full window size if that advance would be
/// non-positive.
pub open spec fn windows_loop(
    ws: Seq<Seq<char>>,
    max: nat,
    ov: nat,
    start: int,
    acc: Seq<Seq<char>>,
) -> Seq<Seq<char>>
    decreases ws.len() - start,
{
    if start >= ws.len() || max == 0 {
        acc
    } else {
        let end = if start + max <= ws.len() {
            start + max
        } else {
            ws.len() as int
        };
        let w = join_with(ws.subrange(start, end), seq![' ']);
        let adv: int = if max > ov {
            max - ov
        } else {
            end - start
        };
        let next = if start + adv > ws.len() {
            ws.len() as int
        } else {
            start + adv
        };
        windows_loop(ws, max, ov, next, acc.push(w))
    }
}

/// The word windows of the words `ws`.
pub open spec fn word_windows(ws: Seq<Seq<char>>, max: nat, ov: nat) -> Seq<Seq<char>> {
    windows_loop(ws, max, ov, 0, Seq::empty())
}

/// Hard-splits one oversized paragraph into word windows.
pub fn hard_split_paragraph(para: &str, max_tokens: usize, overlap_tokens: usize) -> (r: Vec<
    String,
>)
    requires
        max_tokens >= 1,
    ensures
        r@.map_values(|p: String| p@) == word_windows(
            split_words(para@),
            max_tokens as nat,
            overlap_tokens as nat,
        ),
{
    let words = split_words_exec(para);
    let n = words.len();
    let ghost wviews = words@.map_values(|p: String| p@);
    let mut start: usize = 0;
    let mut r: Vec<String> = Vec::new();
    proof {
        assert(r@.map_values(|p: String| p@) =~= Seq::<Seq<char>>::empty());
    }
    while start < n
        invariant
            n == wviews.len(),
            wviews == words@.map_values(|p: String| p@),
            max_tokens >= 1,
            start <= n,
            windows_loop(
                wviews,
                max_tokens as nat,
                overlap_tokens as nat,
                start as int,
                r@.map_values(|p: String| p@),
            ) == word_windows(wviews, max_tokens as nat, overlap_tokens as nat),
        decreases n - start,
    {
        let end = if n - start > max_tokens {
            start + max_tokens
        } else {
            n
        };
        let w = join_range(&words, start, end, " ");
        let ghost pre = r@.map_values(|p: String| p@);
        proof {
            assert(seq![' '] =~= " "@) by {
                reveal_strlit(" ");
            }
        }
        r.push(w);
        proof {
            assert(r@.map_values(|p: String| p@) =~= pre.push(
                join_with(wviews.subrange(start as int, end as int), seq![' ']),
            ));
        }
        let remaining = n - start;
        let adv = if max_tokens > overlap_tokens {
            max_tokens - overlap_tokens
        } else {
            end - start
        };
        if adv >= remaining {
            start = n;
        } else {
            start = start + adv;
        }
    }
    r
}

/// A single word: non-empty, with no whitespace inside.
pub open spec fn word_like(w: Seq<char>) -> bool {
    w.len() > 0 && forall|j: int| 0 <= j < w.len() ==> !is_ws_char(#[trigger] w[j])
}

/// Every piece the word scan produces is a single word.
proof fn lemma_words_loop_props(s: Seq<char>, i: int, start: int, acc: Seq<Seq<char>>)
    requires
        0 <= start <= i <= s.len(),
        forall|k: int| 0 <= k < acc.len() ==> word_like(#[trigger] acc[k]),
        forall|j: int| start <= j < i ==> !is_ws_char(#[trigger] s[j]),
    ensures
        forall|k: int|
            0 <= k < words_loop(s, i, start, acc).len() ==> word_like(
                #[trigger] words_loop(s, i, start, acc)[k],
            ),
    decreases s.len() - i,
{
    if i >= s.len() {
        if start < i {
            let sub = s.subrange(start, s.len() as int);
            let res = acc.push(sub);
            assert(words_loop(s, i, start, acc) == res);
            assert(word_like(sub)) by {
                assert forall|j: int| 0 <= j < sub.len() implies !is_ws_char(
                    #[trigger] sub[j],
                ) by {
                    assert(sub[j] == s[start + j]);
                }
            }
            assert forall|k: int| 0 <= k < res.len() implies word_like(#[trigger] res[k]) by {
                if k < acc.len() {
                    assert(res[k] == acc[k]);
                } else {
                    assert(res[k] == sub);
                }
            }
        } else {
            assert(words_loop(s, i, start, acc) == acc);
        }
    } else if is_ws_char(s[i]) {
        let acc2 = if start < i {
            acc.push(s.subrange(start, i))
        } else {
            acc
        };
        if start < i {
            let sub = s.subrange(start, i);
            assert(word_like(sub)) by {
                assert forall|j: int| 0 <= j < sub.len() implies !is_ws_char(
                    #[trigger] sub[j],
                ) by {
                    assert(sub[j] == s[start + j]);
                }
            }
            assert forall|k: int| 0 <= k < acc2.len() implies word_like(#[trigger] acc2[k]) by {
                if k < acc.len() {
                    assert(acc2[k] == acc[k]);
                } else {
                    assert(acc2[k] == sub);
                }
            }
        }
        lemma_words_loop_props(s, i + 1, i + 1, acc2);
        assert(words_loop(s, i, start, acc) == words_loop(s, i + 1, i + 1, acc2));
    } else {
        lemma_words_loop_props(s, i + 1, start, acc);
        assert(words_loop(s, i, start, acc) == words_loop(s, i + 1, start, acc));
    }
}

/// Every word of `split_words` is a single word.
pub proof fn lemma_split_words_props(s: Seq<char>)
    ensures
        forall|k: int|
            0 <= k < split_words(s).len() ==> word_like(#[trigger] split_words(s)[k]),
{
    lemma_words_loop_props(s, 0, 0, Seq::empty());
}

/// A run of non-whitespace continues the current word: it adds none.
proof fn lemma_nonws_from_false(w: Seq<char>)
    requires
        forall|j: int| 0 <= j < w.len() ==> !is_ws_char(#[trigger] w[j]),
    ensures
        count_words_from(w, false) == 0,
    decreases w.len(),
{
    if w.len() > 0 {
        assert(forall|j: int|
            0 <= j < w.subrange(1, w.len() as int).len() ==> !is_ws_char(
                #[trigger] w.subrange(1, w.len() as int)[j],
            ));
        lemma_nonws_from_false(w.subrange(1, w.len() as int));
    }
}

/// A single word counts as one word.
pub proof fn lemma_word_count_one(w: Seq<char>)
    requires
        word_like(w),
    ensures
        count_words(w) == 1,
{
    assert(forall|j: int|
        0 <= j < w.subrange(1, w.len() as int).len() ==> !is_ws_char(
            #[trigger] w.subrange(1, w.len() as int)[j],
        ));
    lemma_nonws_from_false(w.subrange(1, w.len() as int));
}

/// A list of single words holds as many words as it has entries.
proof fn lemma_sum_words_ones(ps: Seq<Seq<char>>)
    requires
        forall|k: int| 0 <= k < ps.len() ==> word_like(#[trigger] ps[k]),
    ensures
        sum_words(ps) == ps.len(),
    decreases ps.len(),
{
    if ps.len() > 0 {
        lemma_word_count_one(ps[0]);
        let rest = ps.subrange(1, ps.len() as int);
        assert(forall|k: int| 0 <= k < rest.len() ==> word_like(#[trigger] rest[k]));
        lemma_sum_words_ones(rest);
    }
}

/// Sum of the word counts of the parts.
pub open spec fn sum_words(ps: Seq<Seq<char>>) -> nat
    decreases ps.len(),
{
    if ps.len() == 0 {
        0
    } else {
        count_words(ps[0]) + sum_words(ps.subrange(1, ps.len() as int))
    }
}

/// Sum of the token estimates of the parts.
pub open spec fn sum_estimates(ps: Seq<Seq<char>>) -> nat
    decreases ps.len(),
{
    if ps.len() == 0 {
        0
    } else {
        token_estimate(ps[0]) + sum_estimates(ps.subrange(1, ps.len() as int))
    }
}

pub proof fn lemma_sum_words_push(ps: Seq<Seq<char>>, x: Seq<char>)
    ensures
        sum_words(ps.push(x)) == sum_words(ps) + count_words(x),
    decreases ps.len(),
{
    if ps.len() == 0 {
        assert(ps.push(x)[0] == x);
        assert(ps.push(x).subrange(1, 1) =~= Seq::<Seq<char>>::empty());
        assert(sum_words(Seq::<Seq<char>>::empty()) == 0);
    } else {
        assert(ps.push(x)[0] == ps[0]);
        assert(ps.push(x).subrange(1, ps.len() as int + 1) =~= ps.subrange(1, ps.len() as int).push(
            x,
        ));
        lemma_sum_words_push(ps.subrange(1, ps.len() as int), x);
    }
}

pub proof fn lemma_sum_estimates_push(ps: Seq<Seq<char>>, x: Seq<char>)
    ensures
        sum_estimates(ps.push(x)) == sum_estimates(ps) + token_estimate(x),
    decreases ps.len(),
{
    if ps.len() == 0 {
        assert(ps.push(x)[0] == x);
        assert(ps.push(x).subrange(1, 1) =~= Seq::<Seq<char>>::empty());
        assert(sum_estimates(Seq::<Seq<char>>::empty()) == 0);
    } else {
        assert(ps.push(x)[0] == ps[0]);
        assert(ps.push(x).subrange(1, ps.len() as int + 1) =~= ps.subrange(1, ps.len() as int).push(
            x,
        ));
        lemma_sum_estimates_push(ps.subrange(1, ps.len() as int), x);
    }
}

/// A run of whitespace contains no words.
pub proof fn lemma_ws_only_no_words(s: Seq<char>, prev_ws: bool)
    requires
        forall|j: int| 0 <= j < s.len() ==> is_ws_char(#[trigger] s[j]),
    ensures
        count_words_from(s, prev_ws) == 0,
    decreases s.len(),
{
    if s.len() > 0 {
        lemma_ws_only_no_words(s.subrange(1, s.len() as int), is_ws_char(s[0]));
    }
}

/// Paragraph-like parts: non-empty, not ending in whitespace.
pub open spec fn para_like(ps: Seq<Seq<char>>) -> bool {
    forall|k: int|
        0 <= k < ps.len() ==> (#[trigger] ps[k]).len() > 0 && !is_ws_char(ps[k].last())
}

/// Joining paragraph-like parts with a whitespace separator neither merges
/// nor creates words: the join's word count is the sum of the parts'.
pub proof fn lemma_join_words(ps: Seq<Seq<char>>, sep: Seq<char>)
    requires
        para_like(ps),
        sep.len() > 0,
        forall|j: int| 0 <= j < sep.len() ==> is_ws_char(#[trigger] sep[j]),
    ensures
        count_words(join_with(ps, sep)) == sum_words(ps),
    decreases ps.len(),
{
    if ps.len() == 0 {
        assert(count_words_from(Seq::<char>::empty(), true) == 0);
    } else if ps.len() == 1 {
        assert(ps.subrange(1, 1) =~= Seq::<Seq<char>>::empty());
        assert(sum_words(Seq::<Seq<char>>::empty()) == 0);
    } else {
        let rest = ps.subrange(1, ps.len() as int);
        let head = ps[0];
        assert(head.len() > 0 && !is_ws_char(head.last()));
        assert(is_ws_char(sep.last())) by {
            assert(sep.last() == sep[sep.len() - 1]);
        }
        assert forall|k: int| 0 <= k < rest.len() implies (#[trigger] rest[k]).len() > 0
            && !is_ws_char(rest[k].last()) by {
            assert(rest[k] == ps[k + 1]);
            assert(ps[k + 1].len() > 0 && !is_ws_char(ps[k + 1].last()));
        }
        lemma_join_words(rest, sep);
        let tail = join_with(rest, sep);
        assert(join_with(ps, sep) == (head + sep) + tail);
        lemma_count_words_concat(head + sep, tail, true);
        lemma_count_words_concat(head, sep, true);
        lemma_ws_only_no_words(sep, ws_state_after(head, true));
        assert((head + sep).last() == sep.last());
        assert(ws_state_after(head + sep, true) == is_ws_char(sep.last()));
        assert(count_words_from(head + sep, true) == count_words(head));
        assert(count_words_from(tail, true) == sum_words(rest));
        assert(count_words(join_with(ps, sep)) == count_words(head) + sum_words(rest));
        assert(sum_words(ps) == count_words(head) + sum_words(rest));
    }
}

/// The estimate of a whitespace-separated join is at most the sum of the
/// parts' estimates.
pub proof fn lemma_join_estimate(ps: Seq<Seq<char>>, sep: Seq<char>)
    requires
        para_like(ps),
        sep.len() > 0,
        forall|j: int| 0 <= j < sep.len() ==> is_ws_char(#[trigger] sep[j]),
    ensures
        token_estimate(join_with(ps, sep)) <= sum_estimates(ps),
    decreases ps.len(),
{
    lemma_join_words(ps, sep);
    lemma_te_of_sum(ps);
    assert(token_estimate(join_with(ps, sep)) == te_of(sum_words(ps)));
}

/// `te_of` of a sum of word counts is at most the sum of the estimates.
pub proof fn lemma_te_of_sum(ps: Seq<Seq<char>>)
    ensures
        te_of(sum_words(ps)) <= sum_estimates(ps),
    decreases ps.len(),
{
    if ps.len() > 0 {
        let rest = ps.subrange(1, ps.len() as int);
        lemma_te_of_sum(rest);
        lemma_te_subadd(count_words(ps[0]), sum_words(rest));
    }
}

/// The overlap seed taken from the end of a finalized chunk: paragraphs are
/// taken from the end while their accumulated token estimates stay within
/// `ov`, stopping at the first paragraph that would exceed it.
pub open spec fn overlap_rec(prev: Seq<Seq<char>>, ov: nat, toks: nat) -> Seq<Seq<char>>
    decreases prev.len(),
{
    if prev.len() == 0 {
        Seq::empty()
    } else {
        let t = token_estimate(prev.last());
        if toks + t > ov {
            Seq::empty()
        } else {
            overlap_rec(prev.drop_last(), ov, (toks + t) as nat).push(prev.last())
        }
    }
}

/// The overlap taken from the end of `prev` within a budget of `ov` tokens.
pub open spec fn overlap_of(prev: Seq<Seq<char>>, ov: nat) -> Seq<Seq<char>> {
    overlap_rec(prev, ov, 0)
}

/// The overlap is a suffix of the finalized chunk, and the sum of its
/// paragraphs' estimates stays within the budget.
pub proof fn lemma_overlap_props(prev: Seq<Seq<char>>, ov: nat, toks: nat)
    ensures
        overlap_rec(prev, ov, toks).len() <= prev.len(),
        overlap_rec(prev, ov, toks) == prev.subrange(
            prev.len() - overlap_rec(prev, ov, toks).len(),
            prev.len() as int,
        ),
        toks + sum_estimates(overlap_rec(prev, ov, toks)) <= ov || overlap_rec(
            prev,
            ov,
            toks,
        ).len() == 0,
    decreases prev.len(),
{
    let r = overlap_rec(prev, ov, toks);
    if prev.len() == 0 {
        assert(r =~= prev.subrange(0, 0));
    } else {
        let t = token_estimate(prev.last());
        if toks + t > ov {
            assert(r =~= prev.subrange(prev.len() as int, prev.len() as int));
        } else {
            lemma_overlap_props(prev.drop_last(), ov, (toks + t) as nat);
            let inner = overlap_rec(prev.drop_last(), ov, (toks + t) as nat);
            lemma_sum_estimates_push(inner, prev.last());
            assert(r =~= prev.subrange(prev.len() - r.len(), prev.len() as int)) by {
                assert(inner == prev.drop_last().subrange(
                    prev.len() - 1 - inner.len(),
                    prev.len() - 1,
                ));
                assert(forall|k: int|
                    0 <= k < inner.len() ==> inner[k] == #[trigger] prev.drop_last()[prev.len() - 1
                        - inner.len() + k]);
            }
            if inner.len() == 0 {
                assert(sum_estimates(inner) == 0);
            }
        }
    }
}

/// Builds the overlap seed from the end of `previous`: the executable
/// counterpart of [`overlap_of`].
pub fn build_overlap(previous: &Vec<String>, overlap_tokens: usize) -> (r: Vec<String>)
    ensures
        r@.map_values(|p: String| p@) == overlap_of(
            previous@.map_values(|p: String| p@),
            overlap_tokens as nat,
        ),
{
    let ghost views = previous@.map_values(|p: String| p@);
    let n = previous.len();
    let mut j: usize = n;
    let mut toks: usize = 0;
    let mut stop: bool = false;
    proof {
        assert(views.take(n as int) =~= views);
        assert(views.subrange(n as int, n as int) =~= Seq::<Seq<char>>::empty());
        assert(overlap_rec(views, overlap_tokens as nat, 0) + Seq::<Seq<char>>::empty()
            =~= overlap_rec(views, overlap_tokens as nat, 0));
    }
    while j > 0 && !stop
        invariant
            n == previous@.len(),
            views == previous@.map_values(|p: String| p@),
            j <= n,
            overlap_of(views, overlap_tokens as nat) == if stop {
                views.subrange(j as int, n as int)
            } else {
                overlap_rec(views.take(j as int), overlap_tokens as nat, toks as nat)
                    + views.subrange(j as int, n as int)
            },
        decreases j + if stop { 0int } else { 1int },
    {
        let t = estimate_tokens(previous[j - 1].as_str());
        if toks > overlap_tokens || t > overlap_tokens - toks {
            stop = true;
            proof {
                assert(overlap_rec(views.take(j as int), overlap_tokens as nat, toks as nat)
                    =~= Seq::<Seq<char>>::empty()) by {
                    assert(views.take(j as int).last() == views[j - 1]);
                }
                assert(Seq::<Seq<char>>::empty() + views.subrange(j as int, n as int)
                    =~= views.subrange(j as int, n as int));
            }
        } else {
            proof {
                let cur = views.take(j as int);
                assert(cur.last() == views[j - 1]);
                assert(cur.drop_last() =~= views.take(j - 1));
                assert(overlap_rec(cur, overlap_tokens as nat, toks as nat) == overlap_rec(
                    views.take(j - 1),
                    overlap_tokens as nat,
                    (toks + t) as nat,
                ).push(views[j - 1]));
                assert(overlap_rec(views.take(j - 1), overlap_tokens as nat, (toks + t) as nat).push(
                    views[j - 1],
                ) + views.subrange(j as int, n as int) =~= overlap_rec(
                    views.take(j - 1),
                    overlap_tokens as nat,
                    (toks + t) as nat,
                ) + views.subrange(j - 1, n as int));
            }
            toks = toks + t;
            j = j - 1;
        }
    }
    proof {
        if !stop {
            assert(j == 0);
            assert(views.take(0) =~= Seq::<Seq<char>>::empty());
            assert(overlap_rec(views.take(0), overlap_tokens as nat, toks as nat)
                =~= Seq::<Seq<char>>::empty());
            assert(Seq::<Seq<char>>::empty() + views.subrange(0, n as int) =~= views.subrange(
                0,
                n as int,
            ));
        }
    }
    // Copy the suffix previous[j..].
    let mut r: Vec<String> = Vec::new();
    let mut k: usize = j;
    while k < n
        invariant
            j <= k <= n,
            n == previous@.len(),
            views == previous@.map_values(|p: String| p@),
            r@.map_values(|p: String| p@) == views.subrange(j as int, k as int),
        decreases n - k,
    {
        let ghost pre = r@.map_values(|p: String| p@);
        r.push(previous[k].clone());
        proof {
            assert(r@.map_values(|p: String| p@) =~= pre.push(views[k as int]));
            assert(views.subrange(j as int, k + 1) =~= views.subrange(j as int, k as int).push(
                views[k as int],
            ));
        }
        k = k + 1;
    }
    r
}

/// Hard-split windows each stand alone as a chunk of a single part.
pub open spec fn singleton_chunks(wins: Seq<Seq<char>>) -> Seq<Seq<Seq<char>>> {
    wins.map_values(|w: Seq<char>| seq![w])
}

/// The blank-line separator placed between paragraphs of a chunk.
pub open spec fn nn_sep() -> Seq<char> {
    seq!['\n', '\n']
}

/// The segmentation state machine over the paragraph list: `i` is the next
/// paragraph, `cur` the working chunk (as its paragraphs), `cur_toks` its
/// token budget already used, `acc` the finished chunks (each as its parts).
pub open spec fn seg_loop(
    paras: Seq<Seq<char>>,
    max: nat,
    ov: nat,
    i: int,
    cur: Seq<Seq<char>>,
    cur_toks: nat,
    acc: Seq<Seq<Seq<char>>>,
) -> Seq<Seq<Seq<char>>>
    decreases paras.len() - i,
{
    if i >= paras.len() {
        if cur.len() > 0 {
            acc.push(cur)
        } else {
            acc
        }
    } else {
        let p = paras[i];
        let pt = token_estimate(p);
        if pt > max {
            seg_loop(
                paras,
                max,
                ov,
                i + 1,
                cur,
                cur_toks,
                acc + singleton_chunks(word_windows(split_words(p), max, ov)),
            )
        } else if cur_toks + pt > max {
            let ovl = overlap_of(cur, ov);
            seg_loop(
                paras,
                max,
                ov,
                i + 1,
                ovl.push(p),
                (token_estimate(join_with(ovl, seq![' '])) + pt) as nat,
                acc.push(cur),
            )
        } else {
            seg_loop(paras, max, ov, i + 1, cur.push(p), (cur_toks + pt) as nat, acc)
        }
    }
}

/// The chunks of `text`, each as its list of parts (paragraphs, or a single
/// hard-split window).
pub open spec fn segment_chunk_lists(text: Seq<char>, max: nat, ov: nat) -> Seq<Seq<Seq<char>>> {
    seg_loop(paragraphs(text), max, ov, 0, Seq::empty(), 0, Seq::empty())
}

/// The chunk texts of `text`: each chunk's parts joined with a blank line.
pub open spec fn segment_spec(text: Seq<char>, max: nat, ov: nat) -> Seq<Seq<char>> {
    segment_chunk_lists(text, max, ov).map_values(|c: Seq<Seq<char>>| join_with(c, nn_sep()))
}

/// Splits `text` into token-bounded chunks of whole paragraphs, seeding each
/// chunk after the first with up to `overlap_tokens` of trailing paragraphs
/// of the previous chunk; an oversized paragraph is hard-split into word
/// windows. The result is exactly [`segment_spec`] of the input.
pub fn chunk_by_paragraph_with_overlap(text: &str, max_tokens: usize, overlap_tokens: usize) -> (chunks: Vec<String>)
    requires
        max_tokens >= 1,
        2 * max_tokens + overlap_tokens <= usize::MAX,
    ensures
        chunks@.map_values(|c: String| c@) == segment_spec(
            text@,
            max_tokens as nat,
            overlap_tokens as nat,
        ),
{
    let ghost max: nat = max_tokens as nat;
    let ghost ov: nat = overlap_tokens as nat;
    let paras = split_paragraphs(text);
    let ghost pviews = paras@.map_values(|p: String| p@);
    proof {
        lemma_keep_trimmed_props(crate::text::raw_paragraphs(text@));
        reveal_strlit("\n\n");
        reveal_strlit(" ");
        assert("\n\n"@ =~= nn_sep());
        assert(" "@ =~= seq![' ']);
    }
    let mut chunks: Vec<String> = Vec::new();
    let mut cur: Vec<String> = Vec::new();
    let mut cur_toks: usize = 0;
    let ghost mut acc: Seq<Seq<Seq<char>>> = Seq::empty();
    let mut i: usize = 0;
    proof {
        assert(chunks@.map_values(|c: String| c@) =~= acc.map_values(
            |c: Seq<Seq<char>>| join_with(c, nn_sep()),
        ));
        assert(cur@.map_values(|p: String| p@) =~= Seq::<Seq<char>>::empty());
    }
    while i < paras.len()
        invariant
            max == max_tokens as nat,
            ov == overlap_tokens as nat,
            max_tokens >= 1,
            2 * max_tokens + overlap_tokens <= usize::MAX,
            "\n\n"@ == nn_sep(),
            " "@ == seq![' '],
            pviews == paras@.map_values(|p: String| p@),
            pviews == paragraphs(text@),
            forall|k: int|
                0 <= k < pviews.len() ==> {
                    let p = #[trigger] pviews[k];
                    p.len() > 0 && !is_ws_char(p[0]) && !is_ws_char(p.last())
                },
            i <= pviews.len(),
            cur_toks <= max_tokens + overlap_tokens,
            para_like(cur@.map_values(|p: String| p@)),
            chunks@.map_values(|c: String| c@) == acc.map_values(
                |c: Seq<Seq<char>>| join_with(c, nn_sep()),
            ),
            seg_loop(pviews, max, ov, i as int, cur@.map_values(|p: String| p@), cur_toks as nat, acc)
                == segment_chunk_lists(text@, max, ov),
        decreases pviews.len() - i,
    {
        let para_tokens = estimate_tokens(paras[i].as_str());
        let ghost cur_views = cur@.map_values(|p: String| p@);
        if para_tokens > max_tokens {
            // Oversized paragraph: hard-split into word windows, emitted
            // directly; the working chunk is untouched.
            let wins = hard_split_paragraph(paras[i].as_str(), max_tokens, overlap_tokens);
            let ghost wviews = wins@.map_values(|p: String| p@);
            let mut k: usize = 0;
            while k < wins.len()
                invariant
                    k <= wins@.len(),
                    wviews == wins@.map_values(|p: String| p@),
                    chunks@.map_values(|c: String| c@) == acc.map_values(
                        |c: Seq<Seq<char>>| join_with(c, nn_sep()),
                    ) + wviews.subrange(0, k as int),
                decreases wins@.len() - k,
            {
                let ghost pre = chunks@.map_values(|c: String| c@);
                chunks.push(wins[k].clone());
                proof {
                    assert(chunks@.map_values(|c: String| c@) =~= pre.push(wviews[k as int]));
                    assert(pre.push(wviews[k as int]) =~= acc.map_values(
                        |c: Seq<Seq<char>>| join_with(c, nn_sep()),
                    ) + wviews.subrange(0, k + 1));
                }
                k = k + 1;
            }
            proof {
                assert(wviews.subrange(0, wviews.len() as int) =~= wviews);
                assert forall|m: int| 0 <= m < wviews.len() implies join_with(
                    #[trigger] singleton_chunks(wviews)[m],
                    nn_sep(),
                ) == wviews[m] by {
                    assert(singleton_chunks(wviews)[m] == seq![wviews[m]]);
                    assert(join_with(seq![wviews[m]], nn_sep()) == wviews[m]);
                }
                acc = acc + singleton_chunks(wviews);
                assert(chunks@.map_values(|c: String| c@) =~= acc.map_values(
                    |c: Seq<Seq<char>>| join_with(c, nn_sep()),
                ));
            }
        } else if cur_toks + para_tokens > max_tokens {
            // Finalize the working chunk and seed the next one with the
            // overlap taken from its end.
            let joined = join_strings(&cur, "\n\n");
            let ghost pre = chunks@.map_values(|c: String| c@);
            chunks.push(joined);
            proof {
                acc = acc.push(cur_views);
                assert(chunks@.map_values(|c: String| c@) =~= pre.push(
                    join_with(cur_views, nn_sep()),
                ));
                assert(chunks@.map_values(|c: String| c@) =~= acc.map_values(
                    |c: Seq<Seq<char>>| join_with(c, nn_sep()),
                ));
            }
            let ovl = build_overlap(&cur, overlap_tokens);
            let ghost ovl_views = ovl@.map_values(|p: String| p@);
            proof {
                lemma_overlap_props(cur_views, ov, 0);
                assert forall|k: int| 0 <= k < ovl_views.len() implies (#[trigger] ovl_views[k]).len()
                    > 0 && !is_ws_char(ovl_views[k].last()) by {
                    assert(ovl_views[k] == cur_views[cur_views.len() - ovl_views.len() + k]);
                }
                assert(forall|j: int| 0 <= j < seq![' '].len() ==> is_ws_char(#[trigger] seq![' '][j]));
                lemma_join_estimate(ovl_views, seq![' ']);
                if ovl_views.len() > 0 {
                    assert(sum_estimates(ovl_views) <= ov);
                } else {
                    assert(sum_estimates(ovl_views) == 0);
                }
                assert(token_estimate(join_with(ovl_views, seq![' '])) <= ov);
            }
            let sp = join_strings(&ovl, " ");
            let est = estimate_tokens(sp.as_str());
            cur = ovl;
            cur.push(paras[i].clone());
            cur_toks = est + para_tokens;
            proof {
                assert(cur@.map_values(|p: String| p@) =~= ovl_views.push(pviews[i as int]));
                assert(para_like(cur@.map_values(|p: String| p@)));
            }
        } else {
            cur.push(paras[i].clone());
            cur_toks = cur_toks + para_tokens;
            proof {
                assert(cur@.map_values(|p: String| p@) =~= cur_views.push(pviews[i as int]));
                assert(para_like(cur@.map_values(|p: String| p@)));
            }
        }
        i = i + 1;
    }
    if cur.len() > 0 {
        let joined = join_strings(&cur, "\n\n");
        let ghost pre = chunks@.map_values(|c: String| c@);
        let ghost cur_views = cur@.map_values(|p: String| p@);
        chunks.push(joined);
        proof {
            acc = acc.push(cur_views);
            assert(chunks@.map_values(|c: String| c@) =~= pre.push(join_with(cur_views, nn_sep())));
            assert(chunks@.map_values(|c: String| c@) =~= acc.map_values(
                |c: Seq<Seq<char>>| join_with(c, nn_sep()),
            ));
        }
    }
    proof {
        assert(acc == segment_chunk_lists(text@, max, ov));
    }
    chunks
}

/// The working chunk's true estimate never exceeds the tracked budget, the
/// budget never exceeds `max`, and so every emitted chunk's estimate is at
/// most `max` — provided every paragraph fits beside the overlap budget.
proof fn lemma_seg_loop_bound(
    paras: Seq<Seq<char>>,
    max: nat,
    ov: nat,
    i: int,
    cur: Seq<Seq<char>>,
    ct: nat,
    acc: Seq<Seq<Seq<char>>>,
)
    requires
        0 <= i <= paras.len(),
        para_like(paras),
        forall|k: int|
            0 <= k < paras.len() ==> token_estimate(#[trigger] paras[k]) + ov <= max,
        para_like(cur),
        te_of(sum_words(cur)) <= ct,
        ct <= max,
        forall|k: int|
            0 <= k < acc.len() ==> token_estimate(join_with(#[trigger] acc[k], nn_sep())) <= max,
    ensures
        forall|k: int|
            0 <= k < seg_loop(paras, max, ov, i, cur, ct, acc).len() ==> token_estimate(
                join_with(#[trigger] seg_loop(paras, max, ov, i, cur, ct, acc)[k], nn_sep()),
            ) <= max,
    decreases paras.len() - i,
{
    let nn = nn_sep();
    assert(nn.len() > 0 && forall|j: int| 0 <= j < nn.len() ==> is_ws_char(#[trigger] nn[j]));
    if i >= paras.len() {
        if cur.len() > 0 {
            assert(seg_loop(paras, max, ov, i, cur, ct, acc) == acc.push(cur));
            lemma_join_words(cur, nn);
            lemma_te_of_sum_eq(cur, nn);
            assert forall|k: int| 0 <= k < acc.push(cur).len() implies token_estimate(
                join_with(#[trigger] acc.push(cur)[k], nn),
            ) <= max by {
                if k < acc.len() {
                    assert(acc.push(cur)[k] == acc[k]);
                }
            }
        }
    } else {
        let p = paras[i];
        let pt = token_estimate(p);
        assert(pt + ov <= max);
        assert(!(pt > max));
        if ct + pt > max {
            let ovl = overlap_of(cur, ov);
            lemma_overlap_props(cur, ov, 0);
            assert(para_like(ovl)) by {
                assert forall|k: int| 0 <= k < ovl.len() implies (#[trigger] ovl[k]).len() > 0
                    && !is_ws_char(ovl[k].last()) by {
                    assert(ovl[k] == cur[cur.len() - ovl.len() + k]);
                }
            }
            let sp = seq![' '];
            assert(sp.len() > 0 && forall|j: int| 0 <= j < sp.len() ==> is_ws_char(#[trigger] sp[j]));
            lemma_join_words(ovl, sp);
            lemma_te_of_sum(ovl);
            if ovl.len() == 0 {
                assert(sum_estimates(ovl) == 0);
            } else {
                assert(sum_estimates(ovl) <= ov);
            }
            let ct2 = (token_estimate(join_with(ovl, sp)) + pt) as nat;
            assert(token_estimate(join_with(ovl, sp)) == te_of(sum_words(ovl)));
            assert(ct2 <= max);
            let cur2 = ovl.push(p);
            assert(para_like(cur2)) by {
                assert forall|k: int| 0 <= k < cur2.len() implies (#[trigger] cur2[k]).len() > 0
                    && !is_ws_char(cur2[k].last()) by {
                    if k < ovl.len() {
                        assert(cur2[k] == ovl[k]);
                    } else {
                        assert(cur2[k] == p);
                    }
                }
            }
            lemma_sum_words_push(ovl, p);
            lemma_te_subadd(sum_words(ovl), count_words(p));
            assert(te_of(sum_words(cur2)) <= ct2);
            lemma_join_words(cur, nn);
            lemma_te_of_sum_eq(cur, nn);
            assert(token_estimate(join_with(cur, nn)) <= max);
            assert forall|k: int| 0 <= k < acc.push(cur).len() implies token_estimate(
                join_with(#[trigger] acc.push(cur)[k], nn),
            ) <= max by {
                if k < acc.len() {
                    assert(acc.push(cur)[k] == acc[k]);
                }
            }
            lemma_seg_loop_bound(paras, max, ov, i + 1, cur2, ct2, acc.push(cur));
            assert(seg_loop(paras, max, ov, i, cur, ct, acc) == seg_loop(
                paras,
                max,
                ov,
                i + 1,
                cur2,
                ct2,
                acc.push(cur),
            ));
        } else {
            let cur2 = cur.push(p);
            assert(para_like(cur2)) by {
                assert forall|k: int| 0 <= k < cur2.len() implies (#[trigger] cur2[k]).len() > 0
                    && !is_ws_char(cur2[k].last()) by {
                    if k < cur.len() {
                        assert(cur2[k] == cur[k]);
                    } else {
                        assert(cur2[k] == p);
                    }
                }
            }
            lemma_sum_words_push(cur, p);
            lemma_te_subadd(sum_words(cur), count_words(p));
            assert(te_of(sum_words(cur2)) <= ct + pt);
            lemma_seg_loop_bound(paras, max, ov, i + 1, cur2, (ct + pt) as nat, acc);
            assert(seg_loop(paras, max, ov, i, cur, ct, acc) == seg_loop(
                paras,
                max,
                ov,
                i + 1,
                cur2,
                (ct + pt) as nat,
                acc,
            ));
        }
    }
}

/// For paragraph-like parts the estimate of the join equals `te_of` of the
/// summed word counts.
proof fn lemma_te_of_sum_eq(ps: Seq<Seq<char>>, sep: Seq<char>)
    requires
        para_like(ps),
        sep.len() > 0,
        forall|j: int| 0 <= j < sep.len() ==> is_ws_char(#[trigger] sep[j]),
    ensures
        token_estimate(join_with(ps, sep)) == te_of(sum_words(ps)),
        token_estimate(join_with(ps, sep)) <= sum_estimates(ps),
{
    lemma_join_words(ps, sep);
    lemma_te_of_sum(ps);
}

/// Law (segmentation token bound): when every paragraph's estimate fits in
/// `max` beside the whole overlap budget `ov`, every chunk the segmenter
/// emits has an estimated token count of at most `max`.
pub proof fn lemma_segmentation_token_bound(text: Seq<char>, max: nat, ov: nat)
    requires
        forall|k: int|
            0 <= k < paragraphs(text).len() ==> token_estimate(#[trigger] paragraphs(text)[k]) + ov
                <= max,
    ensures
        forall|k: int|
            0 <= k < segment_spec(text, max, ov).len() ==> token_estimate(
                #[trigger] segment_spec(text, max, ov)[k],
            ) <= max,
{
    crate::text::lemma_keep_trimmed_props(crate::text::raw_paragraphs(text));
    assert(para_like(paragraphs(text)));
    assert(te_of(sum_words(Seq::<Seq<char>>::empty())) == 0) by {
        assert(sum_words(Seq::<Seq<char>>::empty()) == 0);
    }
    lemma_seg_loop_bound(paragraphs(text), max, ov, 0, Seq::empty(), 0, Seq::empty());
    let lists = segment_chunk_lists(text, max, ov);
    assert forall|k: int| 0 <= k < segment_spec(text, max, ov).len() implies token_estimate(
        #[trigger] segment_spec(text, max, ov)[k],
    ) <= max by {
        assert(segment_spec(text, max, ov)[k] == join_with(lists[k], nn_sep()));
    }
}

/// Chunk `b` begins with a non-empty suffix of chunk `a`'s paragraphs.
pub open spec fn shares_tail(a: Seq<Seq<char>>, b: Seq<Seq<char>>) -> bool {
    exists|l: int|
        1 <= l <= a.len() && l <= b.len() && #[trigger] b.take(l) == a.skip(a.len() - l)
}

/// Every finalized chunk whose last paragraph fits the overlap budget is
/// followed by a chunk seeded with a non-empty suffix of it.
proof fn lemma_seg_loop_overlap(
    paras: Seq<Seq<char>>,
    max: nat,
    ov: nat,
    i: int,
    cur: Seq<Seq<char>>,
    ct: nat,
    acc: Seq<Seq<Seq<char>>>,
)
    requires
        0 <= i <= paras.len(),
        forall|k: int| 0 <= k < paras.len() ==> token_estimate(#[trigger] paras[k]) <= max,
        cur.len() == 0 ==> ct == 0,
        acc.len() > 0 ==> cur.len() > 0,
        forall|k: int| 0 <= k < acc.len() ==> (#[trigger] acc[k]).len() > 0,
        acc.len() > 0 && token_estimate(acc.last().last()) <= ov ==> shares_tail(acc.last(), cur),
        forall|k: int|
            0 <= k < acc.len() - 1 ==> (token_estimate((#[trigger] acc[k]).last()) <= ov
                ==> shares_tail(acc[k], acc[k + 1])),
    ensures
        forall|k: int|
            0 <= k < seg_loop(paras, max, ov, i, cur, ct, acc).len() ==> (#[trigger] seg_loop(
                paras,
                max,
                ov,
                i,
                cur,
                ct,
                acc,
            )[k]).len() > 0,
        forall|k: int|
            0 <= k < seg_loop(paras, max, ov, i, cur, ct, acc).len() - 1 ==> (token_estimate(
                (#[trigger] seg_loop(paras, max, ov, i, cur, ct, acc)[k]).last(),
            ) <= ov ==> shares_tail(
                seg_loop(paras, max, ov, i, cur, ct, acc)[k],
                seg_loop(paras, max, ov, i, cur, ct, acc)[k + 1],
            )),
    decreases paras.len() - i,
{
    if i >= paras.len() {
        if cur.len() > 0 {
            let res = acc.push(cur);
            assert(seg_loop(paras, max, ov, i, cur, ct, acc) == res);
            assert forall|k: int| 0 <= k < res.len() implies (#[trigger] res[k]).len() > 0 by {
                if k < acc.len() {
                    assert(res[k] == acc[k]);
                } else {
                    assert(res[k] == cur);
                }
            }
            assert forall|k: int| 0 <= k < res.len() - 1 implies (token_estimate(
                (#[trigger] res[k]).last(),
            ) <= ov ==> shares_tail(res[k], res[k + 1])) by {
                if k < acc.len() - 1 {
                    assert(res[k] == acc[k] && res[k + 1] == acc[k + 1]);
                } else {
                    assert(res[k] == acc.last() && res[k + 1] == cur);
                }
            }
        }
    } else {
        let p = paras[i];
        let pt = token_estimate(p);
        assert(!(pt > max));
        if ct + pt > max {
            // cur is non-empty: an empty working chunk has a zero budget and
            // pt <= max.
            assert(cur.len() > 0);
            let ovl = overlap_of(cur, ov);
            lemma_overlap_props(cur, ov, 0);
            let cur2 = ovl.push(p);
            if token_estimate(cur.last()) <= ov {
                // The overlap takes at least the last paragraph, so the next
                // chunk starts with a suffix of this one.
                assert(ovl.len() > 0);
                let l = ovl.len() as int;
                assert(shares_tail(cur, cur2)) by {
                    assert(cur2.take(l) =~= ovl);
                    assert(ovl == cur.skip(cur.len() - l));
                }
            }
            let acc2 = acc.push(cur);
            assert(acc2.last() == cur);
            assert(forall|k: int| 0 <= k < acc2.len() ==> (#[trigger] acc2[k]).len() > 0) by {
                assert forall|k: int| 0 <= k < acc2.len() implies (#[trigger] acc2[k]).len()
                    > 0 by {
                    if k < acc.len() {
                        assert(acc2[k] == acc[k]);
                    } else {
                        assert(acc2[k] == cur);
                    }
                }
            }
            assert forall|k: int| 0 <= k < acc2.len() - 1 implies (token_estimate(
                (#[trigger] acc2[k]).last(),
            ) <= ov ==> shares_tail(acc2[k], acc2[k + 1])) by {
                if k < acc.len() - 1 {
                    assert(acc2[k] == acc[k] && acc2[k + 1] == acc[k + 1]);
                } else {
                    assert(acc2[k] == acc.last() && acc2[k + 1] == cur);
                }
            }
            let ct2 = (token_estimate(join_with(ovl, seq![' '])) + pt) as nat;
            lemma_seg_loop_overlap(paras, max, ov, i + 1, cur2, ct2, acc2);
            assert(seg_loop(paras, max, ov, i, cur, ct, acc) == seg_loop(
                paras,
                max,
                ov,
                i + 1,
                cur2,
                ct2,
                acc2,
            ));
        } else {
            let cur2 = cur.push(p);
            if acc.len() > 0 && token_estimate(acc.last().last()) <= ov {
                assert(shares_tail(acc.last(), cur2)) by {
                    let l = choose|l: int|
                        1 <= l <= acc.last().len() && l <= cur.len() && #[trigger] cur.take(l)
                            == acc.last().skip(acc.last().len() - l);
                    assert(cur2.take(l) =~= cur.take(l));
                }
            }
            lemma_seg_loop_overlap(paras, max, ov, i + 1, cur2, (ct + pt) as nat, acc);
            assert(seg_loop(paras, max, ov, i, cur, ct, acc) == seg_loop(
                paras,
                max,
                ov,
                i + 1,
                cur2,
                (ct + pt) as nat,
                acc,
            ));
        }
    }
}

/// Law (overlap property): when no paragraph exceeds the chunk budget (so no
/// hard split breaks the chain), every chunk whose last paragraph fits the
/// overlap budget shares at least one paragraph with the next chunk — the
/// next chunk begins with a non-empty suffix of its paragraphs. Every emitted
/// chunk holds at least one paragraph.
pub proof fn lemma_overlap_between_chunks(text: Seq<char>, max: nat, ov: nat)
    requires
        forall|k: int|
            0 <= k < paragraphs(text).len() ==> token_estimate(#[trigger] paragraphs(text)[k])
                <= max,
    ensures
        forall|k: int|
            0 <= k < segment_chunk_lists(text, max, ov).len() ==> (#[trigger] segment_chunk_lists(
                text,
                max,
                ov,
            )[k]).len() > 0,
        forall|k: int|
            0 <= k < segment_chunk_lists(text, max, ov).len() - 1 ==> (token_estimate(
                (#[trigger] segment_chunk_lists(text, max, ov)[k]).last(),
            ) <= ov ==> shares_tail(
                segment_chunk_lists(text, max, ov)[k],
                segment_chunk_lists(text, max, ov)[k + 1],
            )),
{
    lemma_seg_loop_overlap(paragraphs(text), max, ov, 0, Seq::empty(), 0, Seq::empty());
}

/// Every window the hard-split scan emits holds between one and `max` words.
proof fn lemma_windows_loop_bound(
    ws: Seq<Seq<char>>,
    max: nat,
    ov: nat,
    start: int,
    acc: Seq<Seq<char>>,
)
    requires
        0 <= start,
        max >= 1,
        forall|k: int| 0 <= k < ws.len() ==> word_like(#[trigger] ws[k]),
        forall|k: int|
            0 <= k < acc.len() ==> 1 <= count_words(#[trigger] acc[k]) <= max,
    ensures
        forall|k: int|
            0 <= k < windows_loop(ws, max, ov, start, acc).len() ==> 1 <= count_words(
                #[trigger] windows_loop(ws, max, ov, start, acc)[k],
            ) <= max,
    decreases ws.len() - start,
{
    if start >= ws.len() {
    } else {
        let end = if start + max <= ws.len() {
            start + max
        } else {
            ws.len() as int
        };
        let sub = ws.subrange(start, end);
        let w = join_with(sub, seq![' ']);
        assert forall|k: int| 0 <= k < sub.len() implies (#[trigger] sub[k]).len() > 0
            && !is_ws_char(sub[k].last()) by {
            assert(sub[k] == ws[start + k]);
            assert(word_like(ws[start + k]));
        }
        assert(forall|j: int| 0 <= j < seq![' '].len() ==> is_ws_char(#[trigger] seq![' '][j]));
        lemma_join_words(sub, seq![' ']);
        assert(forall|k: int| 0 <= k < sub.len() ==> word_like(#[trigger] sub[k])) by {
            assert(forall|k: int| 0 <= k < sub.len() ==> sub[k] == #[trigger] ws[start + k]);
        }
        lemma_sum_words_ones(sub);
        assert(count_words(w) == end - start);
        let acc2 = acc.push(w);
        assert forall|k: int| 0 <= k < acc2.len() implies 1 <= count_words(#[trigger] acc2[k])
            <= max by {
            if k < acc.len() {
                assert(acc2[k] == acc[k]);
            } else {
                assert(acc2[k] == w);
            }
        }
        let adv: int = if max > ov {
            max - ov
        } else {
            end - start
        };
        let next = if start + adv > ws.len() {
            ws.len() as int
        } else {
            start + adv
        };
        lemma_windows_loop_bound(ws, max, ov, next, acc2);
        assert(windows_loop(ws, max, ov, start, acc) == windows_loop(ws, max, ov, next, acc2));
    }
}

/// Law (hard-split window bound): every window of a hard-split paragraph
/// holds between one and `max` words, each window being consecutive words of
/// the paragraph joined by single spaces; a window falls short of `max` words
/// only where the paragraph's end truncates it.
pub proof fn lemma_hard_split_window_words(para: Seq<char>, max: nat, ov: nat)
    requires
        max >= 1,
    ensures
        forall|k: int|
            0 <= k < word_windows(split_words(para), max, ov).len() ==> 1 <= count_words(
                #[trigger] word_windows(split_words(para), max, ov)[k],
            ) <= max,
{
    lemma_split_words_props(para);
    lemma_windows_loop_bound(split_words(para), max, ov, 0, Seq::empty());
}

} // verus!
