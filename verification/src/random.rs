//! Random order through rand's shuffling.
use rand::rngs::StdRng;
use rand::seq::SliceRandom;
use vstd::prelude::*;

verus! {

#[verifier::external_type_specification]
#[verifier::external_body]
pub struct ExStdRng(StdRng);

/// Calls rand's `SliceRandom::shuffle` on `v`. The crate's source shuffles by
/// swapping pairs of positions only, so the result holds the same elements as
/// before, each as often; which order comes out depends on the generator and is
/// left unsaid.
#[verifier::external_body]
fn shuffle_positions(v: &mut Vec<usize>, rng: &mut StdRng)
    ensures
        final(v)@.to_multiset() == old(v)@.to_multiset(),
{
    v.as_mut_slice().shuffle(rng);
}

/// Whether `perm` lists each of `0..n` exactly once.
pub open spec fn is_permutation(perm: Seq<usize>, n: nat) -> bool {
    &&& perm.len() == n
    &&& perm.no_duplicates()
    &&& forall|k: int| 0 <= k < perm.len() ==> #[trigger] perm[k] < n
    &&& forall|c: usize| c < n ==> #[trigger] perm.contains(c)
}

/// `0, 1, ..., n - 1`.
pub open spec fn index_range(n: nat) -> Seq<usize> {
    Seq::new(n, |i: int| i as usize)
}

proof fn lemma_same_multiset_as_range(perm: Seq<usize>, n: nat)
    requires
        n <= usize::MAX + 1,
        perm.to_multiset() == index_range(n).to_multiset(),
    ensures
        is_permutation(perm, n),
{
    broadcast use vstd::seq_lib::group_to_multiset_ensures;

    let r = index_range(n);
    assert(r.no_duplicates());
    r.lemma_multiset_has_no_duplicates();
    assert(perm.len() == perm.to_multiset().len());
    assert(r.len() == r.to_multiset().len());
    perm.lemma_multiset_has_no_duplicates_conv();
    assert forall|k: int| 0 <= k < perm.len() implies #[trigger] perm[k] < n by {
        let x = perm[k];
        assert(perm.contains(x));
        assert(perm.to_multiset().count(x) > 0);
        assert(r.to_multiset().count(x) > 0);
        assert(r.contains(x));
        let i = choose|i: int| 0 <= i < r.len() && r[i] == x;
        assert(r[i] == i as usize);
    }
    assert forall|c: usize| c < n implies #[trigger] perm.contains(c) by {
        assert(r[c as int] == c);
        assert(r.contains(c));
        assert(r.to_multiset().count(c) > 0);
        assert(perm.to_multiset().count(c) > 0);
    }
}

/// The indices `0..n` in an order that `rng` picks.
pub fn shuffled_range(n: usize, rng: &mut StdRng) -> (r: Vec<usize>)
    ensures
        is_permutation(r@, n as nat),
{
    let mut v: Vec<usize> = Vec::new();
    let mut k: usize = 0;
    while k < n
        invariant
            k <= n,
            v@ == index_range(k as nat),
        decreases n - k,
    {
        v.push(k);
        k += 1;
        assert(v@ =~= index_range(k as nat));
    }
    shuffle_positions(&mut v, rng);
    proof {
        lemma_same_multiset_as_range(v@, n as nat);
    }
    v
}

/// Showing the items of `s` in the order `perm` keeps every item, each as often.
pub proof fn lemma_permuted_items<A>(s: Seq<A>, perm: Seq<usize>)
    requires
        s.len() <= usize::MAX,
        is_permutation(perm, s.len()),
    ensures
        perm.map_values(|i: usize| s[i as int]).to_multiset() == s.to_multiset(),
    decreases s.len(),
{
    broadcast use vstd::multiset::group_multiset_axioms;

    let n = s.len();
    if n == 0 {
        assert(perm.map_values(|i: usize| s[i as int]) =~= Seq::<A>::empty());
        assert(s =~= Seq::<A>::empty());
    } else {
        let last = (n - 1) as usize;
        assert(perm.contains(last));
        let p = choose|p: int| 0 <= p < perm.len() && perm[p] == last;
        let rest = perm.remove(p);
        let s2 = s.drop_last();
        assert forall|k: int| 0 <= k < rest.len() implies #[trigger] rest[k] < s2.len() by {
            let k2 = if k < p { k } else { k + 1 };
            assert(rest[k] == perm[k2]);
            assert(k2 != p);
        }
        assert forall|c: usize| c < s2.len() implies #[trigger] rest.contains(c) by {
            assert(perm.contains(c));
            let q = choose|q: int| 0 <= q < perm.len() && perm[q] == c;
            assert(q != p);
            let k = if q < p { q } else { q - 1 };
            assert(rest[k] == c);
        }
        assert(rest.no_duplicates()) by {
            assert forall|i: int, j: int| 0 <= i < rest.len() && 0 <= j < rest.len() && i != j implies rest[i]
                != rest[j] by {
                let i2 = if i < p { i } else { i + 1 };
                let j2 = if j < p { j } else { j + 1 };
                assert(rest[i] == perm[i2]);
                assert(rest[j] == perm[j2]);
            }
        }
        lemma_permuted_items(s2, rest);
        let shown = perm.map_values(|i: usize| s[i as int]);
        let shown2 = rest.map_values(|i: usize| s2[i as int]);
        assert(shown2 =~= shown.remove(p));
        vstd::seq_lib::to_multiset_remove(shown, p);
        vstd::seq_lib::to_multiset_build(s2, s.last());
        assert(s2.push(s.last()) =~= s);
        assert(shown[p] == s.last());
        assert(shown.contains(s.last()));
        vstd::seq_lib::to_multiset_contains(shown, s.last());
        assert(shown.to_multiset() =~= shown.to_multiset().remove(s.last()).insert(s.last()));
    }
}

} // verus!
