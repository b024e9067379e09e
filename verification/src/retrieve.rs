//! Similarity-ranked retrieval with a greedy diversity filter.
//!
//! The caller supplies, for a snapshot of entries, one relevance score per
//! entry and the matrix of pairwise similarity values between entries, both as
//! integers under any fixed order-preserving encoding of its similarity
//! measure, together with the diversity threshold under the same encoding.
//! Entries are ranked by score, highest first (ties broken toward the earlier
//! entry), then walked greedily: a candidate is selected if and only if its
//! similarity to every already-selected entry is at or below the threshold,
//! until six entries are selected or the candidates are exhausted.

use vstd::prelude::*;

use crate::store::VectorEntry;

verus! {

/// Maximum number of results a retrieval returns.
pub const RETRIEVE_CAP: usize = 6;

/// Position (within `cand[from..]`) of the best candidate: the one with the
/// highest score, the earliest on ties.
pub open spec fn best_pos(scores: Seq<u64>, cand: Seq<int>, from: int) -> int
    decreases cand.len() - from,
{
    if from >= cand.len() - 1 {
        cand.len() - 1
    } else {
        let b = best_pos(scores, cand, from + 1);
        if scores[cand[from]] >= scores[cand[b]] {
            from
        } else {
            b
        }
    }
}

pub proof fn lemma_best_pos_range(scores: Seq<u64>, cand: Seq<int>, from: int)
    requires
        0 <= from < cand.len(),
    ensures
        from <= best_pos(scores, cand, from) < cand.len(),
        forall|k: int|
            from <= k < cand.len() ==> scores[cand[#[trigger] best_pos(scores, cand, from)]]
                >= scores[#[trigger] cand[k]],
    decreases cand.len() - from,
{
    if from < cand.len() - 1 {
        lemma_best_pos_range(scores, cand, from + 1);
    }
}

/// The candidate positions `cand`, reordered by descending score (earlier
/// position first on equal scores).
pub open spec fn sel_order(scores: Seq<u64>, cand: Seq<int>) -> Seq<int>
    decreases cand.len(),
{
    if cand.len() == 0 {
        Seq::empty()
    } else {
        let b0 = best_pos(scores, cand, 0);
        let b: int = if 0 <= b0 < cand.len() {
            b0
        } else {
            0
        };
        seq![cand[b]] + sel_order(scores, cand.remove(b))
    }
}

/// The indices `0..n`.
pub open spec fn index_seq(n: int) -> Seq<int> {
    Seq::new(n as nat, |k: int| k)
}

/// The entry indices ranked by descending score.
pub open spec fn ranking(scores: Seq<u64>) -> Seq<int> {
    sel_order(scores, index_seq(scores.len() as int))
}

/// The ranked order is a permutation of the candidates: same length, no
/// duplicates (when the candidates have none), and every element a candidate.
pub proof fn lemma_sel_order_perm(scores: Seq<u64>, cand: Seq<int>)
    requires
        cand.no_duplicates(),
    ensures
        sel_order(scores, cand).len() == cand.len(),
        sel_order(scores, cand).no_duplicates(),
        forall|k: int|
            0 <= k < sel_order(scores, cand).len() ==> cand.contains(
                #[trigger] sel_order(scores, cand)[k],
            ),
    decreases cand.len(),
{
    if cand.len() > 0 {
        let b = best_pos(scores, cand, 0);
        lemma_best_pos_range(scores, cand, 0);
        let rest = cand.remove(b);
        cand.remove_ensures(b);
        assert(rest.no_duplicates()) by {
            assert forall|p: int, q: int| 0 <= p < q < rest.len() implies rest[p] != rest[q] by {
                assert(rest[p] == if p < b {
                    cand[p]
                } else {
                    cand[p + 1]
                });
                assert(rest[q] == if q < b {
                    cand[q]
                } else {
                    cand[q + 1]
                });
            }
        }
        lemma_sel_order_perm(scores, rest);
        let r = sel_order(scores, cand);
        assert(r == seq![cand[b]] + sel_order(scores, rest));
        assert forall|k: int| 0 <= k < r.len() implies cand.contains(#[trigger] r[k]) by {
            if k == 0 {
                assert(r[0] == cand[b]);
            } else {
                assert(r[k] == sel_order(scores, rest)[k - 1]);
                assert(rest.contains(sel_order(scores, rest)[k - 1]));
                let w = choose|w: int| 0 <= w < rest.len() && rest[w] == r[k];
                assert(cand[if w < b {
                    w
                } else {
                    w + 1
                }] == r[k]);
            }
        }
        assert(r.no_duplicates()) by {
            assert forall|p: int, q: int| 0 <= p < q < r.len() implies r[p] != r[q] by {
                if p == 0 {
                    assert(r[0] == cand[b]);
                    assert(r[q] == sel_order(scores, rest)[q - 1]);
                    assert(rest.contains(sel_order(scores, rest)[q - 1]));
                    let w = choose|w: int| 0 <= w < rest.len() && rest[w] == r[q];
                    assert(rest[w] == if w < b {
                        cand[w]
                    } else {
                        cand[w + 1]
                    });
                } else {
                    assert(r[p] == sel_order(scores, rest)[p - 1]);
                    assert(r[q] == sel_order(scores, rest)[q - 1]);
                }
            }
        }
    }
}

/// Whether candidate `c` is diverse enough against everything in `selected`.
pub open spec fn diverse_ok(sims: Seq<Seq<u64>>, selected: Seq<int>, c: int, thr: u64) -> bool {
    forall|k: int| 0 <= k < selected.len() ==> sims[#[trigger] selected[k]][c] <= thr
}

/// The greedy diversity walk over the ranked candidates, selecting each
/// candidate that is diverse against all earlier selections, until `cap`
/// entries are selected; a rejected candidate is never reconsidered.
pub open spec fn greedy_rec(
    order: Seq<int>,
    sims: Seq<Seq<u64>>,
    thr: u64,
    cap: nat,
    i: int,
    sel: Seq<int>,
) -> Seq<int>
    decreases order.len() - i,
{
    if i >= order.len() || sel.len() >= cap {
        sel
    } else if diverse_ok(sims, sel, order[i], thr) {
        greedy_rec(order, sims, thr, cap, i + 1, sel.push(order[i]))
    } else {
        greedy_rec(order, sims, thr, cap, i + 1, sel)
    }
}

/// The indices retrieval selects, in order.
pub open spec fn selected_indices(scores: Seq<u64>, sims: Seq<Seq<u64>>, thr: u64) -> Seq<int> {
    greedy_rec(ranking(scores), sims, thr, RETRIEVE_CAP as nat, 0, Seq::empty())
}

/// The texts retrieval returns for entry texts `texts`.
pub open spec fn retrieve_spec(
    texts: Seq<Seq<char>>,
    scores: Seq<u64>,
    sims: Seq<Seq<u64>>,
    thr: u64,
) -> Seq<Seq<char>> {
    selected_indices(scores, sims, thr).map_values(|j: int| texts[j])
}

/// Ranks the entry indices by descending score, earliest first on ties.
pub fn rank_indices(scores: &Vec<u64>) -> (order: Vec<usize>)
    ensures
        order@.map_values(|u: usize| u as int) == ranking(scores@),
        order@.len() == scores@.len(),
        forall|k: int| 0 <= k < order@.len() ==> (#[trigger] order@[k]) < scores@.len(),
{
    let n = scores.len();
    let mut cand: Vec<usize> = Vec::new();
    let mut i: usize = 0;
    while i < n
        invariant
            i <= n,
            cand@.len() == i,
            forall|k: int| 0 <= k < i ==> #[trigger] cand@[k] == k,
        decreases n - i,
    {
        cand.push(i);
        i = i + 1;
    }
    proof {
        assert(cand@.map_values(|u: usize| u as int) =~= index_seq(n as int));
    }
    let mut order: Vec<usize> = Vec::new();
    while cand.len() > 0
        invariant
            n == scores@.len(),
            forall|k: int| 0 <= k < cand@.len() ==> (#[trigger] cand@[k]) < n,
            forall|k: int| 0 <= k < order@.len() ==> (#[trigger] order@[k]) < n,
            ranking(scores@) == order@.map_values(|u: usize| u as int) + sel_order(
                scores@,
                cand@.map_values(|u: usize| u as int),
            ),
        decreases cand@.len(),
    {
        let ghost cviews = cand@.map_values(|u: usize| u as int);
        let m = cand.len();
        let mut best: usize = m - 1;
        let mut j: usize = m - 1;
        while j > 0
            invariant
                n == scores@.len(),
                m == cand@.len(),
                cviews == cand@.map_values(|u: usize| u as int),
                forall|k: int| 0 <= k < cand@.len() ==> (#[trigger] cand@[k]) < n,
                m >= 1,
                j < m,
                best as int == best_pos(scores@, cviews, j as int),
                j <= best < m,
            decreases j,
        {
            j = j - 1;
            if scores[cand[j]] >= scores[cand[best]] {
                best = j;
            }
        }
        proof {
            lemma_best_pos_range(scores@, cviews, 0);
        }
        let chosen = cand[best];
        let ghost pre_order = order@.map_values(|u: usize| u as int);
        order.push(chosen);
        cand.remove(best);
        proof {
            assert(order@.map_values(|u: usize| u as int) =~= pre_order.push(
                cviews[best as int],
            ));
            assert(cand@.map_values(|u: usize| u as int) =~= cviews.remove(best as int));
            assert(sel_order(scores@, cviews) == seq![cviews[best as int]] + sel_order(
                scores@,
                cviews.remove(best as int),
            ));
            assert(pre_order + sel_order(scores@, cviews) =~= pre_order.push(cviews[best as int])
                + sel_order(scores@, cviews.remove(best as int)));
            cviews.remove_ensures(best as int);
            assert(forall|k: int|
                0 <= k < cand@.len() ==> (#[trigger] cand@[k]) < n);
        }
    }
    proof {
        assert(cand@.map_values(|u: usize| u as int) =~= Seq::<int>::empty());
        assert(sel_order(scores@, Seq::<int>::empty()) == Seq::<int>::empty());
        assert(order@.map_values(|u: usize| u as int) + Seq::<int>::empty() =~= order@.map_values(
            |u: usize| u as int,
        ));
        lemma_ranking_perm(scores@);
    }
    order
}

/// The ranking is a permutation of `0..len`.
pub proof fn lemma_ranking_perm(scores: Seq<u64>)
    ensures
        ranking(scores).len() == scores.len(),
        ranking(scores).no_duplicates(),
        forall|k: int|
            0 <= k < ranking(scores).len() ==> 0 <= #[trigger] ranking(scores)[k] < scores.len(),
{
    let idx = index_seq(scores.len() as int);
    assert(idx.no_duplicates());
    lemma_sel_order_perm(scores, idx);
    assert forall|k: int| 0 <= k < ranking(scores).len() implies 0 <= #[trigger] ranking(scores)[k]
        < scores.len() by {
        assert(idx.contains(ranking(scores)[k]));
        let w = choose|w: int| 0 <= w < idx.len() && idx[w] == ranking(scores)[k];
        assert(idx[w] == w);
    }
}

/// Ranks all entries by the caller-computed scores and greedily selects at
/// most six mutually diverse entries; returns their texts, most relevant
/// first. On an empty snapshot the result is empty (and no error).
pub fn retrieve(
    entries: &Vec<VectorEntry>,
    scores: &Vec<u64>,
    sims: &Vec<Vec<u64>>,
    threshold: u64,
) -> (r: Vec<String>)
    requires
        scores@.len() == entries@.len(),
        sims@.len() == entries@.len(),
        forall|k: int| 0 <= k < sims@.len() ==> (#[trigger] sims@[k])@.len() == entries@.len(),
    ensures
        r@.map_values(|t: String| t@) == retrieve_spec(
            entries@.map_values(|e: VectorEntry| e.text@),
            scores@,
            sims@.map_values(|v: Vec<u64>| v@),
            threshold,
        ),
        r@.len() <= RETRIEVE_CAP,
        entries@.len() == 0 ==> r@.len() == 0,
{
    let ghost texts = entries@.map_values(|e: VectorEntry| e.text@);
    let ghost simviews = sims@.map_values(|v: Vec<u64>| v@);
    let order = rank_indices(scores);
    let ghost ord = order@.map_values(|u: usize| u as int);
    let mut selected: Vec<usize> = Vec::new();
    let mut r: Vec<String> = Vec::new();
    let mut i: usize = 0;
    proof {
        assert(selected@.map_values(|u: usize| u as int) =~= Seq::<int>::empty());
        assert(r@.map_values(|t: String| t@) =~= Seq::<Seq<char>>::empty());
    }
    while i < order.len() && selected.len() < RETRIEVE_CAP
        invariant
            scores@.len() == entries@.len(),
            sims@.len() == entries@.len(),
            forall|k: int| 0 <= k < sims@.len() ==> (#[trigger] sims@[k])@.len() == entries@.len(),
            texts == entries@.map_values(|e: VectorEntry| e.text@),
            simviews == sims@.map_values(|v: Vec<u64>| v@),
            ord == order@.map_values(|u: usize| u as int),
            forall|k: int| 0 <= k < order@.len() ==> (#[trigger] order@[k]) < entries@.len(),
            i <= order@.len(),
            selected@.len() == r@.len() <= RETRIEVE_CAP,
            forall|k: int| 0 <= k < selected@.len() ==> (#[trigger] selected@[k]) < entries@.len(),
            r@.map_values(|t: String| t@) == selected@.map_values(|u: usize| u as int).map_values(
                |j: int| texts[j],
            ),
            greedy_rec(
                ord,
                simviews,
                threshold,
                RETRIEVE_CAP as nat,
                i as int,
                selected@.map_values(|u: usize| u as int),
            ) == selected_indices(scores@, simviews, threshold),
        decreases order@.len() - i,
    {
        let ghost sel = selected@.map_values(|u: usize| u as int);
        let c = order[i];
        let mut ok = true;
        let mut k: usize = 0;
        while k < selected.len() && ok
            invariant
                sel == selected@.map_values(|u: usize| u as int),
                simviews == sims@.map_values(|v: Vec<u64>| v@),
                sims@.len() == entries@.len(),
                forall|m: int|
                    0 <= m < sims@.len() ==> (#[trigger] sims@[m])@.len() == entries@.len(),
                forall|m: int|
                    0 <= m < selected@.len() ==> (#[trigger] selected@[m]) < entries@.len(),
                c < entries@.len(),
                k <= selected@.len(),
                ok ==> forall|m: int|
                    0 <= m < k ==> simviews[#[trigger] sel[m]][c as int] <= threshold,
                !ok ==> !diverse_ok(simviews, sel, c as int, threshold),
            decreases selected@.len() - k,
        {
            if sims[selected[k]][c] > threshold {
                ok = false;
                proof {
                    assert(simviews[sel[k as int]][c as int] > threshold);
                }
            }
            k = k + 1;
        }
        proof {
            if ok {
                assert(k == selected@.len());
                assert(diverse_ok(simviews, sel, c as int, threshold));
            }
        }
        if ok {
            let ghost pre_r = r@;
            selected.push(c);
            r.push(entries[c].text.clone());
            proof {
                assert(selected@.map_values(|u: usize| u as int) =~= sel.push(c as int));
                assert(texts[c as int] == entries@[c as int].text@);
                pre_r.lemma_push_map_commute(|t: String| t@, entries@[c as int].text);
                assert(r@ == pre_r.push(entries@[c as int].text));
                sel.lemma_push_map_commute(|j: int| texts[j], c as int);
                assert(r@.map_values(|t: String| t@) == sel.push(c as int).map_values(
                    |j: int| texts[j],
                ));
            }
        }
        i = i + 1;
    }
    proof {
        let sel = selected@.map_values(|u: usize| u as int);
        if i >= order@.len() || sel.len() >= RETRIEVE_CAP as nat {
            assert(greedy_rec(ord, simviews, threshold, RETRIEVE_CAP as nat, i as int, sel) == sel);
        }
        assert(r@.map_values(|t: String| t@) =~= retrieve_spec(texts, scores@, simviews, threshold));
        if entries@.len() == 0 {
            assert(ord.len() == 0) by {
                lemma_ranking_perm(scores@);
            }
        }
    }
    r
}

/// When every candidate passes the diversity check, the greedy walk fills up
/// to the cap: it selects `min(cap, sel.len() + order.len() - i)` entries.
proof fn lemma_greedy_all_ok(
    order: Seq<int>,
    sims: Seq<Seq<u64>>,
    thr: u64,
    cap: nat,
    i: int,
    sel: Seq<int>,
    n: int,
)
    requires
        0 <= i <= order.len(),
        sel.len() <= cap,
        order.no_duplicates(),
        forall|k: int| 0 <= k < order.len() ==> 0 <= #[trigger] order[k] < n,
        forall|k: int| 0 <= k < sel.len() ==> 0 <= #[trigger] sel[k] < n,
        forall|k: int, j: int|
            0 <= k < sel.len() && i <= j < order.len() ==> #[trigger] sel[k] != #[trigger] order[j],
        forall|a: int, b: int|
            0 <= a < n && 0 <= b < n && a != b ==> #[trigger] sims[a][b] <= thr,
    ensures
        greedy_rec(order, sims, thr, cap, i, sel).len() == if sel.len() + order.len() - i
            <= cap {
            sel.len() + order.len() - i
        } else {
            cap as int
        },
    decreases order.len() - i,
{
    if i >= order.len() || sel.len() >= cap {
    } else {
        let c = order[i];
        assert(diverse_ok(sims, sel, c, thr)) by {
            assert forall|k: int| 0 <= k < sel.len() implies sims[#[trigger] sel[k]][c] <= thr by {
                assert(sel[k] != order[i]);
            }
        }
        lemma_greedy_all_ok(order, sims, thr, cap, i + 1, sel.push(c), n);
    }
}

/// Law (retrieval cap): with at least six entries whose pairwise similarities
/// all lie at or below the threshold, retrieval returns exactly six results.
pub proof fn lemma_retrieval_cap(
    texts: Seq<Seq<char>>,
    scores: Seq<u64>,
    sims: Seq<Seq<u64>>,
    thr: u64,
)
    requires
        scores.len() >= RETRIEVE_CAP,
        forall|a: int, b: int|
            0 <= a < scores.len() && 0 <= b < scores.len() && a != b ==> #[trigger] sims[a][b]
                <= thr,
    ensures
        retrieve_spec(texts, scores, sims, thr).len() == RETRIEVE_CAP,
{
    lemma_ranking_perm(scores);
    lemma_greedy_all_ok(
        ranking(scores),
        sims,
        thr,
        RETRIEVE_CAP as nat,
        0,
        Seq::empty(),
        scores.len() as int,
    );
}

/// Every ordered pair in `s` is diverse: the later entry passed the check
/// against the earlier one.
pub open spec fn pairwise_diverse(sims: Seq<Seq<u64>>, thr: u64, s: Seq<int>) -> bool {
    forall|k: int, m: int|
        0 <= k < m < s.len() ==> sims[#[trigger] s[k]][#[trigger] s[m]] <= thr
}

/// The greedy walk keeps every ordered pair of selections diverse.
proof fn lemma_greedy_pairwise(
    order: Seq<int>,
    sims: Seq<Seq<u64>>,
    thr: u64,
    cap: nat,
    i: int,
    sel: Seq<int>,
)
    requires
        pairwise_diverse(sims, thr, sel),
    ensures
        pairwise_diverse(sims, thr, greedy_rec(order, sims, thr, cap, i, sel)),
    decreases order.len() - i,
{
    if i >= order.len() || sel.len() >= cap {
    } else {
        let c = order[i];
        if diverse_ok(sims, sel, c, thr) {
            let sel2 = sel.push(c);
            assert(pairwise_diverse(sims, thr, sel2)) by {
                assert forall|k: int, m: int| 0 <= k < m < sel2.len() implies sims[#[trigger] sel2[k]][#[trigger] sel2[m]]
                    <= thr by {
                    if m == sel.len() {
                        assert(sel2[k] == sel[k]);
                        assert(sims[sel[k]][c] <= thr);
                    } else {
                        assert(sel2[k] == sel[k] && sel2[m] == sel[m]);
                    }
                }
            }
            lemma_greedy_pairwise(order, sims, thr, cap, i + 1, sel2);
        } else {
            lemma_greedy_pairwise(order, sims, thr, cap, i + 1, sel);
        }
    }
}

/// Every index the greedy walk selects lies in `0..n` when the candidates
/// and the initial selection do.
proof fn lemma_greedy_range(
    order: Seq<int>,
    sims: Seq<Seq<u64>>,
    thr: u64,
    cap: nat,
    i: int,
    sel: Seq<int>,
    n: int,
)
    requires
        0 <= i,
        forall|k: int| 0 <= k < order.len() ==> 0 <= #[trigger] order[k] < n,
        forall|k: int| 0 <= k < sel.len() ==> 0 <= #[trigger] sel[k] < n,
    ensures
        forall|k: int|
            0 <= k < greedy_rec(order, sims, thr, cap, i, sel).len() ==> 0 <= #[trigger] greedy_rec(
                order,
                sims,
                thr,
                cap,
                i,
                sel,
            )[k] < n,
    decreases order.len() - i,
{
    if i >= order.len() || sel.len() >= cap {
        assert(greedy_rec(order, sims, thr, cap, i, sel) == sel);
    } else if diverse_ok(sims, sel, order[i], thr) {
        let sel2 = sel.push(order[i]);
        assert forall|k: int| 0 <= k < sel2.len() implies 0 <= #[trigger] sel2[k] < n by {
            if k < sel.len() {
                assert(sel2[k] == sel[k]);
                assert(0 <= sel[k] < n);
            } else {
                assert(sel2[k] == order[i]);
                assert(0 <= order[i] < n);
            }
        }
        lemma_greedy_range(order, sims, thr, cap, i + 1, sel2, n);
        assert(greedy_rec(order, sims, thr, cap, i, sel) == greedy_rec(
            order,
            sims,
            thr,
            cap,
            i + 1,
            sel2,
        ));
    } else {
        lemma_greedy_range(order, sims, thr, cap, i + 1, sel, n);
        assert(greedy_rec(order, sims, thr, cap, i, sel) == greedy_rec(
            order,
            sims,
            thr,
            cap,
            i + 1,
            sel,
        ));
    }
}

/// Law (diversity enforcement, over the returned texts): in a snapshot whose
/// texts are pairwise distinct, two entries whose similarity exceeds the
/// threshold in both orientations never both contribute their text to the
/// result.
pub proof fn lemma_diversity_texts(
    texts: Seq<Seq<char>>,
    scores: Seq<u64>,
    sims: Seq<Seq<u64>>,
    thr: u64,
    a: int,
    b: int,
)
    requires
        texts.len() == scores.len(),
        0 <= a < scores.len(),
        0 <= b < scores.len(),
        a != b,
        sims[a][b] > thr,
        sims[b][a] > thr,
        forall|p: int, q: int|
            #![trigger texts[p], texts[q]]
            0 <= p < q < texts.len() ==> texts[p] != texts[q],
    ensures
        !(retrieve_spec(texts, scores, sims, thr).contains(texts[a]) && retrieve_spec(
            texts,
            scores,
            sims,
            thr,
        ).contains(texts[b])),
{
    let res = selected_indices(scores, sims, thr);
    let rt = retrieve_spec(texts, scores, sims, thr);
    lemma_ranking_perm(scores);
    lemma_greedy_range(
        ranking(scores),
        sims,
        thr,
        RETRIEVE_CAP as nat,
        0,
        Seq::empty(),
        scores.len() as int,
    );
    lemma_diversity(scores, sims, thr, a, b);
    if rt.contains(texts[a]) && rt.contains(texts[b]) {
        let p = choose|p: int| 0 <= p < rt.len() && rt[p] == texts[a];
        let q = choose|q: int| 0 <= q < rt.len() && rt[q] == texts[b];
        assert(texts[res[p]] == texts[a]);
        assert(texts[res[q]] == texts[b]);
        // Distinct texts make the text-to-index map injective.
        assert(res[p] == a);
        assert(res[q] == b);
        assert(res.contains(a) && res.contains(b));
    }
}

/// Law (diversity enforcement): two entries whose similarity exceeds the
/// threshold in both orientations are never both retrieved.
pub proof fn lemma_diversity(scores: Seq<u64>, sims: Seq<Seq<u64>>, thr: u64, a: int, b: int)
    requires
        a != b,
        sims[a][b] > thr,
        sims[b][a] > thr,
    ensures
        !(selected_indices(scores, sims, thr).contains(a) && selected_indices(
            scores,
            sims,
            thr,
        ).contains(b)),
{
    let res = selected_indices(scores, sims, thr);
    assert(pairwise_diverse(sims, thr, Seq::<int>::empty()));
    lemma_greedy_pairwise(ranking(scores), sims, thr, RETRIEVE_CAP as nat, 0, Seq::empty());
    if res.contains(a) && res.contains(b) {
        let p = choose|p: int| 0 <= p < res.len() && res[p] == a;
        let q = choose|q: int| 0 <= q < res.len() && res[q] == b;
        if p < q {
            assert(sims[res[p]][res[q]] <= thr);
        } else {
            assert(sims[res[q]][res[p]] <= thr);
        }
    }
}

} // verus!
