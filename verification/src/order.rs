//! Orders in which the samples of a collection are presented.
//!
//! An order over `n` samples is a sequence of positions in the caller's
//! collection. The collection itself is never moved or copied: a pass walks the
//! order and reads the sample that stands at each position.
use rand::seq::SliceRandom;
use vstd::prelude::*;

verus! {

/// `order` presents each of `n` samples exactly once: it has `n` entries, no
/// position occurs twice, and the positions that occur are those below `n`.
pub open spec fn is_permutation(order: Seq<usize>, n: nat) -> bool {
    &&& order.len() == n
    &&& order.no_duplicates()
    &&& forall|k: usize| k < n <==> #[trigger] order.contains(k)
}

/// The order that presents the samples as the caller holds them.
pub open spec fn sequential(n: nat) -> Seq<usize> {
    Seq::new(n, |i: int| i as usize)
}

/// The caller's own order presents each sample once.
pub proof fn lemma_sequential_is_permutation(n: nat)
    requires
        n <= usize::MAX,
    ensures
        is_permutation(sequential(n), n),
{
    let s = sequential(n);
    assert forall|k: usize| k < n implies #[trigger] s.contains(k) by {
        assert(s[k as int] == k);
    }
}

/// Two orders with the same entries, each as often in one as in the other,
/// present the same samples: if one is a permutation, so is the other.
pub proof fn lemma_rearranged_permutation(a: Seq<usize>, b: Seq<usize>, n: nat)
    requires
        is_permutation(a, n),
        a.to_multiset() == b.to_multiset(),
    ensures
        is_permutation(b, n),
{
    vstd::seq_lib::to_multiset_len(a);
    vstd::seq_lib::to_multiset_len(b);
    a.lemma_multiset_has_no_duplicates();
    b.lemma_multiset_has_no_duplicates_conv();
    assert forall|k: usize| k < n <==> #[trigger] b.contains(k) by {
        vstd::seq_lib::to_multiset_contains(a, k);
        vstd::seq_lib::to_multiset_contains(b, k);
        assert(a.contains(k) <==> k < n);
    }
}

/// `n` different positions below `n` are all of them.
pub proof fn lemma_full_pass(pass: Seq<usize>, n: nat)
    requires
        pass.len() == n,
        pass.no_duplicates(),
        forall|i: int| 0 <= i < pass.len() ==> (#[trigger] pass[i]) < n,
    ensures
        is_permutation(pass, n),
{
    assert forall|k: usize| #[trigger] pass.contains(k) implies k < n by {
        let i = choose|i: int| 0 <= i < pass.len() && pass[i] == k;
        assert(pass[i] < n);
    }
    assert forall|k: usize| k < n implies #[trigger] pass.contains(k) by {
        if !pass.contains(k) {
            lemma_short_pass(pass, n, k);
        }
    }
}

/// Different positions below `n` that leave one position below `n` out are
/// fewer than `n`.
proof fn lemma_short_pass(pass: Seq<usize>, n: nat, missing: usize)
    requires
        pass.no_duplicates(),
        forall|i: int| 0 <= i < pass.len() ==> (#[trigger] pass[i]) < n,
        missing < n,
        !pass.contains(missing),
    ensures
        pass.len() < n,
{
    let positions = pass.to_set();
    pass.unique_seq_to_set();
    let below = Set::new(|k: usize| k < n && k != missing);
    let all = Set::new(|k: usize| k < n);
    lemma_positions_below(n);
    assert(all.remove(missing) =~= below);
    assert(positions.subset_of(below)) by {
        assert forall|k: usize| positions.contains(k) implies below.contains(k) by {
            let i = choose|i: int| 0 <= i < pass.len() && pass[i] == k;
            assert(pass[i] < n);
        }
    }
    vstd::set_lib::lemma_len_subset(positions, below);
}

/// There are at most `n` positions below `n`.
proof fn lemma_positions_below(n: nat)
    ensures
        Set::new(|k: usize| k < n).finite(),
        Set::new(|k: usize| k < n).len() <= n,
    decreases n,
{
    let all = Set::new(|k: usize| k < n);
    if n == 0 {
        assert(all =~= Set::<usize>::empty());
    } else {
        let fewer = Set::new(|k: usize| k < (n - 1) as nat);
        lemma_positions_below((n - 1) as nat);
        if n - 1 <= usize::MAX {
            assert(all =~= fewer.insert((n - 1) as usize));
        } else {
            assert(all =~= fewer);
        }
    }
}

/// Rearranges `order` at random with `rand::seq::SliceRandom::shuffle`, drawing
/// from the generator that `rand::thread_rng` hands out. The shuffle does
/// nothing but swap pairs of entries, so whatever it draws, the result holds the
/// entries it was given, each as often as before. Nothing is claimed about
/// which arrangement comes out. The generator takes its seed from the operating
/// system, on its first use in a thread and again from time to time; rand stops
/// the program if the system cannot supply one.
#[verifier::external_body]
fn shuffle(order: &mut Vec<usize>)
    ensures
        final(order)@.to_multiset() == old(order)@.to_multiset(),
{
    order.shuffle(&mut rand::thread_rng());
}

/// The positions `0, 1, .., n - 1` in rising order.
pub fn sequential_order(n: usize) -> (order: Vec<usize>)
    ensures
        order@ == sequential(n as nat),
{
    let mut order: Vec<usize> = Vec::new();
    let mut i: usize = 0;
    while i < n
        invariant
            i <= n,
            order@ == sequential(i as nat),
        decreases n - i,
    {
        order.push(i);
        i += 1;
        assert(order@ =~= sequential(i as nat));
    }
    order
}

/// A fresh random order over `n` samples. Whatever the generator draws, the
/// result presents each sample exactly once.
pub fn shuffled_order(n: usize) -> (order: Vec<usize>)
    ensures
        is_permutation(order@, n as nat),
{
    let mut order = sequential_order(n);
    shuffle(&mut order);
    proof {
        lemma_sequential_is_permutation(n as nat);
        lemma_rearranged_permutation(sequential(n as nat), order@, n as nat);
    }
    order
}

} // verus!
