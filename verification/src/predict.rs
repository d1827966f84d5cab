//! The linear predictor: a candidate's score is the dot product of its
//! feature values with the model's weights, over the aligned pairs that
//! `FeatureList::combine` produces.
//!
//! Scores are kept as exact fixed-point integers.  The logistic transform
//! `1/(1+e^-x)` that turns a score into a probability is strictly
//! monotone, so ranking by the raw dot product ranks exactly as ranking by
//! the transformed value; the transform itself is presentation and is
//! applied outside this crate.  A score of zero is the neutral prior (the
//! transform maps it to one half).

use vstd::prelude::*;

use crate::features::FeatureList;
use crate::features::LIST_BOUND;
use crate::features::VALUE_BOUND;
use crate::features::bounded_values;
use crate::features::combine_spec;
use crate::features::has_key;
use crate::features::key_set;
use crate::features::lemma_key_set_has_key;
use crate::features::lemma_lookup_has_key;
use crate::features::lookup;

verus! {

/// The accumulated dot product of a sequence of (value, weight) pairs.
pub open spec fn dot(s: Seq<(i64, i64)>) -> int
    decreases s.len(),
{
    if s.len() == 0 {
        0
    } else {
        dot(s.drop_last()) + s.last().0 * s.last().1
    }
}

/// Both components of every pair lie within `VALUE_BOUND`.
pub open spec fn bounded_pairs(s: Seq<(i64, i64)>) -> bool {
    forall|i: int|
        0 <= i < s.len() ==> -VALUE_BOUND <= (#[trigger] s[i]).0 <= VALUE_BOUND && -VALUE_BOUND
            <= (#[trigger] s[i]).1 <= VALUE_BOUND
}

/// The aligned (value, weight) pairs of the join of `cand` with `model`.
pub open spec fn aligned_pairs(cand: Seq<(u64, i64)>, model: Seq<(u64, i64)>) -> Seq<(i64, i64)> {
    combine_spec(cand, model).map_values(|t: (u64, i64, i64)| (t.1, t.2))
}

/// A candidate's score against a model: the dot product over the features
/// the two lists share.
pub open spec fn score_spec(cand: Seq<(u64, i64)>, model: Seq<(u64, i64)>) -> int {
    dot(aligned_pairs(cand, model))
}

/// A dot product over bounded pairs is bounded by the pair count times the
/// largest possible product, which is `VALUE_BOUND` squared.
proof fn lemma_dot_bound(s: Seq<(i64, i64)>)
    requires
        bounded_pairs(s),
    ensures
        -(s.len() as int) * 1_000_000_000_000_000_000_000_000 <= dot(s) <= (s.len() as int)
            * 1_000_000_000_000_000_000_000_000,
    decreases s.len(),
{
    if s.len() == 0 {
    } else {
        let a = s.last().0 as int;
        let b = s.last().1 as int;
        assert(bounded_pairs(s.drop_last()));
        lemma_dot_bound(s.drop_last());
        assert(-1_000_000_000_000_000_000_000_000 <= a * b <= 1_000_000_000_000_000_000_000_000)
            by (nonlinear_arith)
            requires
                -1_000_000_000_000 <= a <= 1_000_000_000_000,
                -1_000_000_000_000 <= b <= 1_000_000_000_000,
        ;
    }
}

/// The linear predictor over an aligned pair sequence: the exact sum of the
/// products.  The empty sequence scores zero, the neutral prior.
pub fn predict(pairs: &Vec<(i64, i64)>) -> (r: i128)
    requires
        pairs@.len() <= LIST_BOUND,
        bounded_pairs(pairs@),
    ensures
        r == dot(pairs@),
{
    let n = pairs.len();
    let mut acc: i128 = 0;
    let mut i: usize = 0;
    while i < n
        invariant
            n == pairs@.len(),
            pairs@.len() <= LIST_BOUND,
            bounded_pairs(pairs@),
            i <= n,
            acc == dot(pairs@.take(i as int)),
        decreases n - i,
    {
        let (a, b) = pairs[i];
        proof {
            assert(-1_000_000_000_000_000_000_000_000 <= a as int * b as int
                <= 1_000_000_000_000_000_000_000_000) by (nonlinear_arith)
                requires
                    -1_000_000_000_000 <= a as int <= 1_000_000_000_000,
                    -1_000_000_000_000 <= b as int <= 1_000_000_000_000,
            ;
            assert(bounded_pairs(pairs@.take(i as int)));
            lemma_dot_bound(pairs@.take(i as int));
            assert(pairs@.take(i + 1).drop_last() =~= pairs@.take(i as int));
            assert(pairs@.take(i + 1).last() == pairs@[i as int]);
        }
        let prod: i128 = (a as i128) * (b as i128);
        acc = acc + prod;
        i += 1;
    }
    proof {
        assert(pairs@.take(n as int) =~= pairs@);
    }
    acc
}

/// The join of two bounded lists is itself bounded: no longer than the left
/// list, with both carried values within `VALUE_BOUND`.
proof fn lemma_combine_bounded(a: Seq<(u64, i64)>, b: Seq<(u64, i64)>)
    requires
        bounded_values(a),
        bounded_values(b),
    ensures
        combine_spec(a, b).len() <= a.len(),
        bounded_pairs(combine_spec(a, b).map_values(|t: (u64, i64, i64)| (t.1, t.2))),
    decreases a.len(),
{
    if a.len() > 0 {
        let f = |t: (u64, i64, i64)| (t.1, t.2);
        let rest = combine_spec(a.drop_last(), b);
        assert(bounded_values(a.drop_last()));
        lemma_combine_bounded(a.drop_last(), b);
        match lookup(b, a.last().0) {
            Some(vb) => {
                lemma_lookup_has_key(b, a.last().0);
                let i = choose|i: int| 0 <= i < b.len() && #[trigger] b[i] == (a.last().0, vb);
                assert(-VALUE_BOUND <= vb <= VALUE_BOUND);
                let t = (a.last().0, a.last().1, vb);
                assert(-VALUE_BOUND <= a.last().1 <= VALUE_BOUND) by {
                    assert(a[a.len() - 1].1 == a.last().1);
                }
                assert(combine_spec(a, b) == rest.push(t));
                assert(rest.push(t).map_values(f) =~= rest.map_values(f).push(f(t)));
                assert(bounded_pairs(rest.map_values(f).push(f(t)))) by {
                    let s = rest.map_values(f).push(f(t));
                    assert forall|j: int| 0 <= j < s.len() implies -VALUE_BOUND <= (
                    #[trigger] s[j]).0 <= VALUE_BOUND && -VALUE_BOUND <= (#[trigger] s[j]).1
                        <= VALUE_BOUND by {
                        if j < s.len() - 1 {
                            assert(s[j] == rest.map_values(f)[j]);
                        }
                    }
                }
            },
            None => {},
        }
    }
}

/// A candidate's score against a model, computed exactly.
pub fn score_features(cand: &FeatureList, model: &FeatureList) -> (r: i128)
    requires
        cand.wf(),
        bounded_values(model@),
    ensures
        r == score_spec(cand@, model@),
{
    let triples = cand.combine(model);
    proof {
        lemma_combine_bounded(cand@, model@);
    }
    let n = triples.len();
    let mut pairs: Vec<(i64, i64)> = Vec::new();
    let mut i: usize = 0;
    while i < n
        invariant
            n == triples@.len(),
            i <= n,
            pairs@ == triples@.take(i as int).map_values(|t: (u64, i64, i64)| (t.1, t.2)),
        decreases n - i,
    {
        let t = triples[i];
        pairs.push((t.1, t.2));
        proof {
            assert(triples@.take(i + 1).map_values(|t: (u64, i64, i64)| (t.1, t.2)) =~= triples@
                .take(i as int).map_values(|t: (u64, i64, i64)| (t.1, t.2)).push(
                (triples@[i as int].1, triples@[i as int].2),
            ));
        }
        i += 1;
    }
    proof {
        assert(triples@.take(n as int) =~= triples@);
    }
    predict(&pairs)
}

/// The neutral prior: a candidate sharing no feature id with the model
/// scores exactly zero.
pub proof fn lemma_score_neutral(cand: Seq<(u64, i64)>, model: Seq<(u64, i64)>)
    requires
        key_set(cand).disjoint(key_set(model)),
    ensures
        score_spec(cand, model) == 0,
    decreases cand.len(),
{
    if cand.len() > 0 {
        let k = cand.last().0;
        assert(has_key(cand, k)) by {
            assert(cand[cand.len() - 1].0 == k);
        }
        lemma_key_set_has_key(cand, k);
        lemma_key_set_has_key(model, k);
        lemma_lookup_has_key(model, k);
        assert(lookup(model, k) is None);
        assert forall|x: u64| key_set(cand.drop_last()).contains(x) implies !key_set(
            model,
        ).contains(x) by {
            lemma_key_set_has_key(cand.drop_last(), x);
            let i = choose|i: int|
                0 <= i < cand.drop_last().len() && (#[trigger] cand.drop_last()[i]).0 == x;
            assert(cand[i].0 == x);
            lemma_key_set_has_key(cand, x);
        }
        lemma_score_neutral(cand.drop_last(), model);
        assert(aligned_pairs(cand, model) == aligned_pairs(cand.drop_last(), model));
    }
}

} // verus!
