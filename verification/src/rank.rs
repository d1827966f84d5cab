//! Ranking of scored candidates: a stable sort by descending score, and the
//! exploration re-ranker that may promote one hidden candidate into the
//! visible window.

use vstd::prelude::*;

use vstd::multiset::Multiset;

verus! {

/// Probability scale: an exploration chance is stored in parts per million,
/// so `CHANCE_SCALE` means certainty and `0` means never.
pub const CHANCE_SCALE: u32 = 1_000_000;

/// One candidate's scoring outcome: its item id, its fixed-point score, and
/// its position in the original candidate order.
#[derive(Clone, Copy)]
pub struct Scored {
    pub item_id: u128,
    pub score: i128,
    pub pos: usize,
}

/// `a` ranks strictly before `b`: higher score first, and for equal scores
/// the earlier original position first.
pub open spec fn precedes(a: Scored, b: Scored) -> bool {
    a.score > b.score || (a.score == b.score && a.pos < b.pos)
}

/// `s` is ordered by descending score, equal scores by original position.
pub open spec fn sorted_desc(s: Seq<Scored>) -> bool {
    forall|i: int, j: int| 0 <= i < j < s.len() ==> !precedes(#[trigger] s[j], #[trigger] s[i])
}

/// Insert `x` into `s` after every element that ranks strictly before it.
pub open spec fn insert_one(s: Seq<Scored>, x: Scored) -> Seq<Scored>
    decreases s.len(),
{
    if s.len() > 0 && precedes(s[0], x) {
        seq![s[0]] + insert_one(s.drop_first(), x)
    } else {
        seq![x] + s
    }
}

/// The stable sort of `s` by descending score: insertion sort, one element
/// at a time in original order, so equal scores keep that order.
pub open spec fn sort_spec(s: Seq<Scored>) -> Seq<Scored>
    decreases s.len(),
{
    if s.len() == 0 {
        Seq::empty()
    } else {
        insert_one(sort_spec(s.drop_last()), s.last())
    }
}

/// `s` with the elements at `a` and `b` exchanged.
pub open spec fn swapped(s: Seq<Scored>, a: int, b: int) -> Seq<Scored> {
    s.update(a, s[b]).update(b, s[a])
}

/// Inserting grows the length by one and adds exactly `x` to the elements.
proof fn lemma_insert_one_elems(s: Seq<Scored>, x: Scored)
    ensures
        insert_one(s, x).len() == s.len() + 1,
        forall|y: Scored| insert_one(s, x).contains(y) <==> (s.contains(y) || y == x),
{
    broadcast use vstd::seq_lib::group_to_multiset_ensures;
    broadcast use vstd::multiset::group_multiset_axioms;

    lemma_insert_one_multiset(s, x);
    assert(insert_one(s, x).to_multiset().len() == s.to_multiset().len() + 1);
    assert forall|y: Scored| insert_one(s, x).contains(y) <==> (s.contains(y) || y == x) by {
        assert(insert_one(s, x).contains(y) <==> insert_one(s, x).to_multiset().count(y) > 0);
        assert(s.contains(y) <==> s.to_multiset().count(y) > 0);
        if y == x {
            assert(insert_one(s, x).to_multiset().count(y) == s.to_multiset().count(y) + 1);
        } else {
            assert(insert_one(s, x).to_multiset().count(y) == s.to_multiset().count(y));
        }
    }
}

/// Inserting into a sorted sequence keeps it sorted.
proof fn lemma_insert_one_sorted(s: Seq<Scored>, x: Scored)
    requires
        sorted_desc(s),
    ensures
        sorted_desc(insert_one(s, x)),
    decreases s.len(),
{
    if s.len() > 0 && precedes(s[0], x) {
        assert(sorted_desc(s.drop_first()));
        lemma_insert_one_sorted(s.drop_first(), x);
        lemma_insert_one_elems(s.drop_first(), x);
        let t = insert_one(s.drop_first(), x);
        let r = seq![s[0]] + t;
        assert forall|i: int, j: int| 0 <= i < j < r.len() implies !precedes(
            #[trigger] r[j],
            #[trigger] r[i],
        ) by {
            if i == 0 {
                assert(t.contains(r[j])) by {
                    assert(t[j - 1] == r[j]);
                }
                if r[j] != x {
                    assert(s.drop_first().contains(r[j]));
                    let k = choose|k: int|
                        0 <= k < s.drop_first().len() && #[trigger] s.drop_first()[k] == r[j];
                    assert(s[k + 1] == r[j]);
                    assert(!precedes(s[k + 1], s[0]));
                }
            } else {
                assert(t[j - 1] == r[j] && t[i - 1] == r[i]);
            }
        }
    } else {
        let r = seq![x] + s;
        assert forall|i: int, j: int| 0 <= i < j < r.len() implies !precedes(
            #[trigger] r[j],
            #[trigger] r[i],
        ) by {
            if i == 0 {
                // s[0] does not precede x, and s is sorted, so no element
                // of s precedes x.
                if s.len() > 0 {
                    assert(r[j] == s[j - 1]);
                    assert(!precedes(s[j - 1], s[0]));
                }
            } else {
                assert(r[j] == s[j - 1] && r[i] == s[i - 1]);
            }
        }
    }
}

/// The stable sort is sorted and is a permutation of its input.
pub proof fn lemma_sort_spec_props(s: Seq<Scored>)
    ensures
        sort_spec(s).len() == s.len(),
        sorted_desc(sort_spec(s)),
        sort_spec(s).to_multiset() == s.to_multiset(),
        forall|y: Scored| sort_spec(s).contains(y) <==> s.contains(y),
    decreases s.len(),
{
    broadcast use vstd::seq_lib::group_to_multiset_ensures;

    if s.len() > 0 {
        lemma_sort_spec_props(s.drop_last());
        lemma_insert_one_sorted(sort_spec(s.drop_last()), s.last());
        lemma_insert_one_elems(sort_spec(s.drop_last()), s.last());
        lemma_insert_one_multiset(sort_spec(s.drop_last()), s.last());
        assert(s.drop_last().push(s.last()) =~= s);
        assert(s.drop_last().push(s.last()).to_multiset() == s.drop_last().to_multiset().insert(
            s.last(),
        ));
        assert forall|y: Scored| sort_spec(s).contains(y) implies s.contains(y) by {
            assert(sort_spec(s.drop_last()).contains(y) || y == s.last());
            if y == s.last() {
                assert(s[s.len() - 1] == y);
            } else {
                assert(s.drop_last().contains(y));
                let j = choose|j: int|
                    0 <= j < s.drop_last().len() && #[trigger] s.drop_last()[j] == y;
                assert(s[j] == y);
            }
        }
        assert forall|y: Scored| s.contains(y) implies sort_spec(s).contains(y) by {
            assert(sort_spec(s) == insert_one(sort_spec(s.drop_last()), s.last()));
            let j = choose|j: int| 0 <= j < s.len() && #[trigger] s[j] == y;
            if j < s.len() - 1 {
                assert(s.drop_last()[j] == y);
                assert(s.drop_last().contains(y));
                assert(sort_spec(s.drop_last()).contains(y));
            }
        }
    }
}

/// Inserting adds one occurrence of `x` to the multiset of elements.
proof fn lemma_insert_one_multiset(s: Seq<Scored>, x: Scored)
    ensures
        insert_one(s, x).to_multiset() == s.to_multiset().insert(x),
    decreases s.len(),
{
    broadcast use vstd::seq_lib::group_to_multiset_ensures;
    broadcast use vstd::seq_lib::lemma_multiset_commutative;
    broadcast use vstd::multiset::group_multiset_axioms;

    if s.len() > 0 && precedes(s[0], x) {
        lemma_insert_one_multiset(s.drop_first(), x);
        let t = insert_one(s.drop_first(), x);
        assert(seq![s[0]] + s.drop_first() =~= s);
        assert((seq![s[0]] + t).to_multiset() == seq![s[0]].to_multiset().add(t.to_multiset()));
        assert(seq![s[0]].to_multiset().add(s.drop_first().to_multiset().insert(x))
            =~= seq![s[0]].to_multiset().add(s.drop_first().to_multiset()).insert(x));
    } else {
        assert((seq![x] + s).to_multiset() == seq![x].to_multiset().add(s.to_multiset()));
        assert(seq![x].to_multiset() =~= Multiset::<Scored>::empty().insert(x)) by {
            assert(seq![x].drop_first() =~= Seq::<Scored>::empty());
        }
        assert(Multiset::<Scored>::empty().insert(x).add(s.to_multiset()) =~= s.to_multiset()
            .insert(x));
    }
}

/// `insert_one` places `x` exactly at the first index whose element does
/// not rank strictly before `x`.
proof fn lemma_insert_one_at(s: Seq<Scored>, x: Scored, i: int)
    requires
        0 <= i <= s.len(),
        forall|j: int| 0 <= j < i ==> precedes(#[trigger] s[j], x),
        i == s.len() || !precedes(s[i as int], x),
    ensures
        insert_one(s, x) == s.insert(i, x),
    decreases i,
{
    if i == 0 {
        assert(insert_one(s, x) == seq![x] + s);
        assert(s.insert(0, x) =~= seq![x] + s);
    } else {
        assert(precedes(s[0], x));
        assert(forall|j: int| 0 <= j < i - 1 ==> precedes(#[trigger] s.drop_first()[j], x));
        lemma_insert_one_at(s.drop_first(), x, i - 1);
        assert(seq![s[0]] + s.drop_first().insert(i - 1, x) =~= s.insert(i, x));
    }
}

/// Insert `x` into the sorted vector `r`, keeping it sorted and stable.
fn insert_scored(r: &mut Vec<Scored>, x: Scored)
    ensures
        final(r)@ == insert_one(old(r)@, x),
{
    let n = r.len();
    let mut i: usize = 0;
    while i < n && (r[i].score > x.score || (r[i].score == x.score && r[i].pos < x.pos))
        invariant
            n == r@.len(),
            i <= n,
            *r == *old(r),
            forall|j: int| 0 <= j < i ==> precedes(#[trigger] r@[j], x),
        decreases n - i,
    {
        i += 1;
    }
    proof {
        lemma_insert_one_at(r@, x, i as int);
    }
    r.insert(i, x);
}

/// Sort scored candidates by descending score; candidates with equal scores
/// keep their original relative order.
pub fn sort_scored(v: &Vec<Scored>) -> (r: Vec<Scored>)
    ensures
        r@ == sort_spec(v@),
{
    let n = v.len();
    let mut r: Vec<Scored> = Vec::new();
    let mut i: usize = 0;
    while i < n
        invariant
            n == v@.len(),
            i <= n,
            r@ == sort_spec(v@.take(i as int)),
        decreases n - i,
    {
        insert_scored(&mut r, v[i]);
        proof {
            assert(v@.take(i + 1).drop_last() =~= v@.take(i as int));
            assert(v@.take(i + 1).last() == v@[i as int]);
        }
        i += 1;
    }
    proof {
        assert(v@.take(n as int) =~= v@);
    }
    r
}

/// Relies on rand::thread_rng and rand::Rng::gen_range over `0..n`: a
/// uniformly random value below `n` from a thread-local generator
/// (gen_range panics only on an empty range, which `n > 0` rules out).
#[verifier::external_body]
fn rand_below(n: u64) -> (r: u64)
    requires
        n > 0,
    ensures
        r < n,
{
    rand::Rng::gen_range(&mut rand::thread_rng(), 0..n)
}

/// The exploration re-ranker.  When fewer candidates are visible than
/// exist (`max < len`), then with probability `chance` (in parts per
/// million) one uniformly random hidden candidate and one uniformly random
/// visible candidate exchange positions; otherwise, and whenever the
/// visible window is empty or covers everything, the ranking is unchanged.
pub fn resort_examples(examples: &mut Vec<Scored>, max: usize, chance: u32)
    requires
        chance <= CHANCE_SCALE,
    ensures
        final(examples)@.len() == old(examples)@.len(),
        max >= old(examples)@.len() ==> final(examples)@ == old(examples)@,
        max == 0 ==> final(examples)@ == old(examples)@,
        chance == 0 ==> final(examples)@ == old(examples)@,
        final(examples)@ == old(examples)@ || (0 < max < old(examples)@.len() && chance > 0
            && exists|i: int, j: int|
            0 <= i < max <= j < old(examples)@.len() && final(examples)@ == swapped(
                old(examples)@,
                i,
                j,
            )),
        (chance == CHANCE_SCALE && 0 < max < old(examples)@.len()) ==> exists|i: int, j: int|
            0 <= i < max <= j < old(examples)@.len() && final(examples)@ == swapped(
                old(examples)@,
                i,
                j,
            ),
{
    let len = examples.len();
    if max >= len || max == 0 {
        return ;
    }
    let draw = rand_below(CHANCE_SCALE as u64);
    if draw >= chance as u64 {
        return ;
    }
    let from = max + rand_below((len - max) as u64) as usize;
    let to = rand_below(max as u64) as usize;
    let hidden = examples[from];
    let visible = examples[to];
    examples[to] = hidden;
    examples[from] = visible;
    proof {
        assert(examples@ == swapped(old(examples)@, to as int, from as int));
    }
}

} // verus!
