//! The outcome of an evaluation: how many predictions were right, out of how many.
use vstd::prelude::*;

verus! {

/// The count behind an accuracy: `correct` predictions out of `total`. The
/// accuracy itself is their quotient, which is left to the caller.
#[derive(Debug, Clone, Copy, PartialEq, Eq, Structural)]
pub struct Tally {
    pub correct: usize,
    pub total: usize,
}

/// How many of the verdicts are `true`.
pub open spec fn hits(verdicts: Seq<bool>) -> nat
    decreases verdicts.len(),
{
    if verdicts.len() == 0 {
        0
    } else {
        hits(verdicts.drop_last()) + if verdicts.last() {
            1nat
        } else {
            0nat
        }
    }
}

/// There are never more hits than verdicts; every verdict is a hit exactly when
/// all are `true`, and none is exactly when all are `false`.
pub proof fn lemma_hits_bounds(verdicts: Seq<bool>)
    ensures
        hits(verdicts) <= verdicts.len(),
        hits(verdicts) == verdicts.len() <==> forall|i: int|
            0 <= i < verdicts.len() ==> verdicts[i],
        hits(verdicts) == 0 <==> forall|i: int| 0 <= i < verdicts.len() ==> !verdicts[i],
    decreases verdicts.len(),
{
    if verdicts.len() > 0 {
        let front = verdicts.drop_last();
        lemma_hits_bounds(front);
        assert forall|i: int| 0 <= i < front.len() implies front[i] == verdicts[i] by {}
        if forall|i: int| 0 <= i < verdicts.len() ==> verdicts[i] {
            assert(verdicts.last());
        }
        if forall|i: int| 0 <= i < verdicts.len() ==> !verdicts[i] {
            assert(!verdicts.last());
        }
    }
}

/// Counts an evaluation. `verdicts` holds one entry for each sample that was
/// evaluated: whether its prediction came within tolerance of what was expected.
pub fn tally(verdicts: &Vec<bool>) -> (t: Tally)
    ensures
        t.total == verdicts.len(),
        t.correct == hits(verdicts@),
        t.correct <= t.total,
        t.correct == t.total <==> forall|i: int| 0 <= i < verdicts.len() ==> verdicts[i],
        t.correct == 0 <==> forall|i: int| 0 <= i < verdicts.len() ==> !verdicts[i],
{
    let mut correct: usize = 0;
    let mut i: usize = 0;
    while i < verdicts.len()
        invariant
            i <= verdicts.len(),
            correct == hits(verdicts@.take(i as int)),
            correct <= i,
        decreases verdicts.len() - i,
    {
        proof {
            assert(verdicts@.take(i + 1).drop_last() =~= verdicts@.take(i as int));
            lemma_hits_bounds(verdicts@.take(i + 1));
        }
        if verdicts[i] {
            correct += 1;
        }
        i += 1;
    }
    proof {
        assert(verdicts@.take(verdicts.len() as int) =~= verdicts@);
        lemma_hits_bounds(verdicts@);
    }
    Tally { correct, total: verdicts.len() }
}

} // verus!
