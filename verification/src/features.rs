//! Sparse feature lists and the equality join that aligns two of them.
//!
//! A `FeatureList` is an ordered list of `(feature id, value)` pairs with
//! unique ids.  Values are fixed-point numbers: one unit of real value is
//! `SCALE` here, so `1.5` is stored as `1_500_000`.

use vstd::prelude::*;

verus! {

/// Fixed-point scale: stored value `SCALE` means a real value of one.
pub const SCALE: i64 = 1_000_000;

/// Largest magnitude a stored feature value or model weight may take
/// (one million real units at `SCALE`).  Keeping values inside this bound
/// lets every score fit comfortably in an `i128`.
pub const VALUE_BOUND: i64 = 1_000_000_000_000;

/// Largest number of features one list may hold.
pub const LIST_BOUND: usize = 1_000_000;

/// A sparse named numeric vector: either a model's weights or an item's
/// computed features.
#[derive(Clone)]
pub struct FeatureList {
    pub pairs: Vec<(u64, i64)>,
}

impl View for FeatureList {
    type V = Seq<(u64, i64)>;

    open spec fn view(&self) -> Seq<(u64, i64)> {
        self.pairs@
    }
}

/// Whether some pair of `s` carries the id `k`.
pub open spec fn has_key(s: Seq<(u64, i64)>, k: u64) -> bool {
    exists|i: int| 0 <= i < s.len() && (#[trigger] s[i]).0 == k
}

/// The value of the first pair of `s` carrying the id `k`, if any.
pub open spec fn lookup(s: Seq<(u64, i64)>, k: u64) -> Option<i64>
    decreases s.len(),
{
    if s.len() == 0 {
        None
    } else if s[0].0 == k {
        Some(s[0].1)
    } else {
        lookup(s.drop_first(), k)
    }
}

/// No two pairs of `s` share an id.
pub open spec fn unique_keys(s: Seq<(u64, i64)>) -> bool {
    forall|i: int, j: int| 0 <= i < j < s.len() ==> (#[trigger] s[i]).0 != (#[trigger] s[j]).0
}

/// The set of ids that occur in `s`.
pub open spec fn key_set(s: Seq<(u64, i64)>) -> Set<u64> {
    s.map_values(|p: (u64, i64)| p.0).to_set()
}

/// Every value of `s` lies within `VALUE_BOUND`.
pub open spec fn bounded_values(s: Seq<(u64, i64)>) -> bool {
    forall|i: int| 0 <= i < s.len() ==> -VALUE_BOUND <= (#[trigger] s[i]).1 <= VALUE_BOUND
}

/// The equality join of `a` and `b`: one triple `(id, value in a, value in b)`
/// for each pair of `a` whose id also occurs in `b`, in the order of `a`.
pub open spec fn combine_spec(a: Seq<(u64, i64)>, b: Seq<(u64, i64)>) -> Seq<(u64, i64, i64)>
    decreases a.len(),
{
    if a.len() == 0 {
        Seq::empty()
    } else {
        let rest = combine_spec(a.drop_last(), b);
        match lookup(b, a.last().0) {
            Some(vb) => rest.push((a.last().0, a.last().1, vb)),
            None => rest,
        }
    }
}

impl FeatureList {
    /// A list is well formed when its ids are unique, its values bounded,
    /// and its length bounded.
    pub open spec fn wf(&self) -> bool {
        unique_keys(self@) && bounded_values(self@) && self@.len() <= LIST_BOUND
    }

    /// An empty feature list.
    pub fn empty() -> (r: FeatureList)
        ensures
            r@ == Seq::<(u64, i64)>::empty(),
    {
        FeatureList { pairs: Vec::new() }
    }

    /// The value stored under the id `k`, if any.
    pub fn get(&self, k: u64) -> (r: Option<i64>)
        ensures
            r == lookup(self@, k),
    {
        let n = self.pairs.len();
        let mut i: usize = 0;
        while i < n
            invariant
                n == self.pairs.len(),
                i <= n,
                forall|j: int| 0 <= j < i ==> (#[trigger] self.pairs@[j]).0 != k,
            decreases n - i,
        {
            let p = self.pairs[i];
            if p.0 == k {
                proof {
                    lemma_lookup_at(self@, k, i as int);
                }
                return Some(p.1);
            }
            i += 1;
        }
        proof {
            lemma_lookup_none(self@, k);
        }
        None
    }

    /// An exact copy of this list.
    pub fn duplicate(&self) -> (r: FeatureList)
        ensures
            r@ == self@,
    {
        let n = self.pairs.len();
        let mut pairs: Vec<(u64, i64)> = Vec::new();
        let mut i: usize = 0;
        while i < n
            invariant
                n == self.pairs.len(),
                i <= n,
                pairs@ == self@.take(i as int),
            decreases n - i,
        {
            pairs.push(self.pairs[i]);
            proof {
                assert(self@.take(i + 1) =~= self@.take(i as int).push(self@[i as int]));
            }
            i += 1;
        }
        proof {
            assert(self@.take(n as int) =~= self@);
        }
        FeatureList { pairs }
    }

    /// The equality join of this list with `other`: every id present in both
    /// yields exactly one aligned triple, in this list's order; ids present
    /// in only one list are dropped.
    pub fn combine(&self, other: &FeatureList) -> (r: Vec<(u64, i64, i64)>)
        ensures
            r@ == combine_spec(self@, other@),
    {
        let n = self.pairs.len();
        let mut r: Vec<(u64, i64, i64)> = Vec::new();
        let mut i: usize = 0;
        while i < n
            invariant
                n == self.pairs.len(),
                i <= n,
                r@ == combine_spec(self@.take(i as int), other@),
            decreases n - i,
        {
            let p = self.pairs[i];
            proof {
                assert(self@.take(i + 1).drop_last() =~= self@.take(i as int));
                assert(self@.take(i + 1).last() == self@[i as int]);
            }
            match other.get(p.0) {
                Some(vb) => {
                    r.push((p.0, p.1, vb));
                },
                None => {},
            }
            i += 1;
        }
        proof {
            assert(self@.take(n as int) =~= self@);
        }
        r
    }
}

/// `lookup` finds the pair at `i` when no earlier pair carries `k`.
proof fn lemma_lookup_at(s: Seq<(u64, i64)>, k: u64, i: int)
    requires
        0 <= i < s.len(),
        s[i].0 == k,
        forall|j: int| 0 <= j < i ==> (#[trigger] s[j]).0 != k,
    ensures
        lookup(s, k) == Some(s[i].1),
    decreases i,
{
    if i > 0 {
        assert(forall|j: int| 0 <= j < i - 1 ==> (#[trigger] s.drop_first()[j]).0 != k);
        lemma_lookup_at(s.drop_first(), k, i - 1);
    }
}

/// `lookup` finds nothing when no pair carries `k`.
proof fn lemma_lookup_none(s: Seq<(u64, i64)>, k: u64)
    requires
        forall|j: int| 0 <= j < s.len() ==> (#[trigger] s[j]).0 != k,
    ensures
        lookup(s, k) is None,
    decreases s.len(),
{
    if s.len() > 0 {
        assert(forall|j: int| 0 <= j < s.len() - 1 ==> (#[trigger] s.drop_first()[j]).0 != k);
        lemma_lookup_none(s.drop_first(), k);
    }
}

/// An id is in the key set exactly when some pair of `s` carries it.
pub proof fn lemma_key_set_has_key(s: Seq<(u64, i64)>, k: u64)
    ensures
        key_set(s).contains(k) <==> has_key(s, k),
{
    let m = s.map_values(|p: (u64, i64)| p.0);
    if has_key(s, k) {
        let i = choose|i: int| 0 <= i < s.len() && (#[trigger] s[i]).0 == k;
        assert(m[i] == k);
        assert(m.contains(k));
    }
    if m.contains(k) {
        let i = choose|i: int| 0 <= i < m.len() && #[trigger] m[i] == k;
        assert(s[i].0 == k);
    }
}

/// `lookup` succeeds exactly on the ids that occur in `s`, and returns a
/// value stored under that id.
pub proof fn lemma_lookup_has_key(s: Seq<(u64, i64)>, k: u64)
    ensures
        (lookup(s, k) is Some) == has_key(s, k),
        lookup(s, k) matches Some(v) ==> exists|i: int|
            0 <= i < s.len() && #[trigger] s[i] == (k, v),
    decreases s.len(),
{
    if s.len() > 0 && s[0].0 != k {
        lemma_lookup_has_key(s.drop_first(), k);
        if lookup(s, k) is Some {
            let v = lookup(s, k)->Some_0;
            let i = choose|i: int| 0 <= i < s.drop_first().len() && #[trigger] s.drop_first()[i]
                == (k, v);
            assert(s[i + 1] == (k, v));
        }
        if has_key(s, k) {
            let i = choose|i: int| 0 <= i < s.len() && (#[trigger] s[i]).0 == k;
            assert(s.drop_first()[i - 1].0 == k);
        }
    }
}

/// How `lookup` behaves on a list extended at the back: earlier pairs win.
proof fn lemma_lookup_push(s: Seq<(u64, i64)>, x: (u64, i64), k: u64)
    ensures
        lookup(s.push(x), k) == (if has_key(s, k) {
            lookup(s, k)
        } else if x.0 == k {
            Some(x.1)
        } else {
            None
        }),
    decreases s.len(),
{
    lemma_lookup_has_key(s, k);
    if s.len() == 0 {
        assert(s.push(x)[0] == x);
        if x.0 != k {
            lemma_lookup_none(s.push(x), k);
        }
    } else {
        assert(s.push(x)[0] == s[0]);
        lemma_lookup_push(s.drop_first(), x, k);
        assert(s.push(x).drop_first() =~= s.drop_first().push(x));
        if s[0].0 != k {
            assert(has_key(s, k) == has_key(s.drop_first(), k)) by {
                lemma_lookup_has_key(s.drop_first(), k);
            }
        }
    }
}

/// Combination correctness: under unique keys on the left, the join holds
/// exactly the triples `(k, value in a, value in b)` for the ids `k` that
/// both lists carry.
pub proof fn lemma_combine_membership(a: Seq<(u64, i64)>, b: Seq<(u64, i64)>)
    requires
        unique_keys(a),
    ensures
        forall|t: (u64, i64, i64)|
            combine_spec(a, b).contains(t) <==> (lookup(a, t.0) == Some(t.1) && lookup(b, t.0)
                == Some(t.2)),
    decreases a.len(),
{
    if a.len() == 0 {
        assert forall|t: (u64, i64, i64)| !combine_spec(a, b).contains(t) by {
            assert(combine_spec(a, b).len() == 0);
        }
    } else {
        let a1 = a.drop_last();
        let k = a.last().0;
        let va = a.last().1;
        assert(unique_keys(a1));
        lemma_combine_membership(a1, b);
        assert(a1.push(a.last()) =~= a);
        assert(!has_key(a1, k)) by {
            if has_key(a1, k) {
                let i = choose|i: int| 0 <= i < a1.len() && (#[trigger] a1[i]).0 == k;
                assert(a[i].0 == a[a.len() - 1].0);
            }
        }
        let c1 = combine_spec(a1, b);
        assert forall|t: (u64, i64, i64)|
            combine_spec(a, b).contains(t) <==> (lookup(a, t.0) == Some(t.1) && lookup(b, t.0)
                == Some(t.2)) by {
            lemma_lookup_push(a1, a.last(), t.0);
            lemma_lookup_has_key(a1, t.0);
            match lookup(b, k) {
                Some(vb) => {
                    let c = c1.push((k, va, vb));
                    assert(combine_spec(a, b) == c);
                    assert(c.contains(t) <==> (c1.contains(t) || t == (k, va, vb))) by {
                        if c.contains(t) {
                            let i = choose|i: int| 0 <= i < c.len() && c[i] == t;
                            if i < c1.len() {
                                assert(c1[i] == t);
                            }
                        }
                        if c1.contains(t) {
                            let i = choose|i: int| 0 <= i < c1.len() && #[trigger] c1[i] == t;
                            assert(c[i] == t);
                        }
                        assert(c[c.len() - 1] == (k, va, vb));
                    }
                },
                None => {
                    assert(combine_spec(a, b) == c1);
                    if t.0 == k && lookup(b, t.0) == Some(t.2) {
                        assert(false);
                    }
                },
            }
        }
    }
}

/// Combination correctness, counted: under unique keys on the left, the
/// join has exactly one triple per id the two key sets share.
pub proof fn lemma_combine_len(a: Seq<(u64, i64)>, b: Seq<(u64, i64)>)
    requires
        unique_keys(a),
    ensures
        combine_spec(a, b).len() == key_set(a).intersect(key_set(b)).len(),
    decreases a.len(),
{
    broadcast use vstd::set::group_set_axioms;
    broadcast use vstd::seq_lib::seq_to_set_is_finite;

    if a.len() == 0 {
        assert(key_set(a).intersect(key_set(b)) =~= Set::<u64>::empty()) by {
            assert forall|x: u64| !key_set(a).contains(x) by {
                lemma_key_set_has_key(a, x);
            }
        }
    } else {
        let a1 = a.drop_last();
        let k = a.last().0;
        assert(unique_keys(a1));
        lemma_combine_len(a1, b);
        assert(!has_key(a1, k)) by {
            if has_key(a1, k) {
                let i = choose|i: int| 0 <= i < a1.len() && (#[trigger] a1[i]).0 == k;
                assert(a[i].0 == a[a.len() - 1].0);
            }
        }
        assert(key_set(a) =~= key_set(a1).insert(k)) by {
            assert forall|x: u64| key_set(a).contains(x) <==> key_set(a1).insert(k).contains(
                x,
            ) by {
                lemma_key_set_has_key(a, x);
                lemma_key_set_has_key(a1, x);
                if has_key(a, x) && x != k {
                    let i = choose|i: int| 0 <= i < a.len() && (#[trigger] a[i]).0 == x;
                    assert(a1[i].0 == x);
                }
                if has_key(a1, x) {
                    let i = choose|i: int| 0 <= i < a1.len() && (#[trigger] a1[i]).0 == x;
                    assert(a[i].0 == x);
                }
                assert(has_key(a, k)) by {
                    assert(a[a.len() - 1].0 == k);
                }
            }
        }
        lemma_key_set_has_key(a1, k);
        lemma_key_set_has_key(b, k);
        lemma_lookup_has_key(b, k);
        let k1 = key_set(a1).intersect(key_set(b));
        assert(k1.finite());
        match lookup(b, k) {
            Some(vb) => {
                assert(key_set(a).intersect(key_set(b)) =~= k1.insert(k));
                assert(!k1.contains(k));
                assert(k1.insert(k).len() == k1.len() + 1);
            },
            None => {
                assert(key_set(a).intersect(key_set(b)) =~= k1);
            },
        }
    }
}

/// Combination correctness, symmetric: combining in the other order gives
/// the same set of triples with the two carried values exchanged.
pub proof fn lemma_combine_symmetric(a: Seq<(u64, i64)>, b: Seq<(u64, i64)>)
    requires
        unique_keys(a),
        unique_keys(b),
    ensures
        combine_spec(a, b).map_values(|t: (u64, i64, i64)| (t.0, t.2, t.1)).to_set()
            == combine_spec(b, a).to_set(),
{
    broadcast use vstd::set::group_set_axioms;

    let f = |t: (u64, i64, i64)| (t.0, t.2, t.1);
    let left = combine_spec(a, b).map_values(f);
    let right = combine_spec(b, a);
    lemma_combine_membership(a, b);
    lemma_combine_membership(b, a);
    assert forall|t: (u64, i64, i64)| left.contains(t) <==> right.contains(t) by {
        if left.contains(t) {
            let i = choose|i: int| 0 <= i < left.len() && #[trigger] left[i] == t;
            assert(combine_spec(a, b).contains(combine_spec(a, b)[i])) by {
                assert(combine_spec(a, b)[i] == combine_spec(a, b)[i]);
            }
            assert(t == f(combine_spec(a, b)[i]));
        }
        if right.contains(t) {
            assert(combine_spec(a, b).contains((t.0, t.2, t.1)));
            let i = choose|i: int| 0 <= i < combine_spec(a, b).len() && #[trigger] combine_spec(
                a,
                b,
            )[i] == (t.0, t.2, t.1);
            assert(left[i] == t);
        }
    }
    assert(left.to_set() =~= right.to_set());
}

} // verus!
