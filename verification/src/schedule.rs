//! The course of a training run: a fixed number of passes over the samples,
//! each pass in a fresh random order.
//!
//! A [`Schedule`] decides which sample is presented next and when training is
//! over. The caller performs each presentation (predict, compare with the
//! target, adjust the weights) and comes back for the next one.
use crate::order::{is_permutation, lemma_full_pass, shuffled_order};
use crate::sample::{all_fit, check_samples, is_first_fault, SampleError};
use vstd::prelude::*;

verus! {

/// What a schedule was asked to do and what it has handed out so far.
pub struct ScheduleView {
    /// How many samples the collection holds.
    pub samples: nat,
    /// How many passes over the collection were asked for.
    pub epochs: nat,
    /// The passes that are over, oldest first, each as the order it presented.
    pub completed: Seq<Seq<usize>>,
    /// The samples presented so far in the pass that is under way.
    pub current: Seq<usize>,
}

impl ScheduleView {
    /// A schedule before its first presentation. With no samples every pass is
    /// over as soon as it starts, each having presented nothing.
    pub open spec fn initial(samples: nat, epochs: nat) -> ScheduleView {
        ScheduleView {
            samples,
            epochs,
            completed: if samples == 0 {
                Seq::new(epochs, |k: int| Seq::<usize>::empty())
            } else {
                Seq::<Seq<usize>>::empty()
            },
            current: Seq::<usize>::empty(),
        }
    }

    /// All passes are over.
    pub open spec fn is_finished(self) -> bool {
        self.completed.len() == self.epochs
    }

    /// Every pass that is over presented each sample exactly once, and the pass
    /// under way has presented no sample twice and not yet all of them.
    pub open spec fn is_consistent(self) -> bool {
        &&& self.completed.len() <= self.epochs
        &&& forall|k: int|
            0 <= k < self.completed.len() ==> is_permutation(
                #[trigger] self.completed[k],
                self.samples,
            )
        &&& self.current.no_duplicates()
        &&& forall|i: int| 0 <= i < self.current.len() ==> (#[trigger] self.current[i]) < self.samples
        &&& if self.is_finished() {
            self.current.len() == 0
        } else {
            self.current.len() < self.samples
        }
    }

    /// The view after `sample` was presented: it joins the pass under way, and
    /// the pass is over once it has presented as many samples as there are.
    pub open spec fn present(self, sample: usize) -> ScheduleView {
        if self.current.len() + 1 == self.samples {
            ScheduleView {
                completed: self.completed.push(self.current.push(sample)),
                current: Seq::<usize>::empty(),
                ..self
            }
        } else {
            ScheduleView { current: self.current.push(sample), ..self }
        }
    }

    /// How many presentations are still to come.
    pub open spec fn remaining(self) -> int {
        (self.epochs - self.completed.len()) * self.samples - self.current.len()
    }
}

/// A run of `epochs` passes over `samples` samples makes `samples * epochs`
/// presentations in all.
pub proof fn lemma_initial_remaining(samples: nat, epochs: nat)
    ensures
        ScheduleView::initial(samples, epochs).is_consistent(),
        ScheduleView::initial(samples, epochs).remaining() == samples * epochs,
{
    let v = ScheduleView::initial(samples, epochs);
    if samples == 0 {
        assert forall|k: int| 0 <= k < v.completed.len() implies is_permutation(
            #[trigger] v.completed[k],
            samples,
        ) by {
            assert(v.completed[k] =~= Seq::<usize>::empty());
        }
        assert((epochs - epochs) * samples == 0) by (nonlinear_arith);
        assert(samples * epochs == 0) by (nonlinear_arith)
            requires
                samples == 0,
        ;
    } else {
        assert((epochs - 0) * samples == samples * epochs) by (nonlinear_arith);
    }
}

/// Training is over exactly when no presentation is left.
pub proof fn lemma_finished_iff_nothing_remains(v: ScheduleView)
    requires
        v.is_consistent(),
    ensures
        v.remaining() >= 0,
        v.is_finished() <==> v.remaining() == 0,
{
    let passes_left = v.epochs - v.completed.len();
    let n = v.samples as int;
    if v.is_finished() {
        assert(passes_left * n == 0) by (nonlinear_arith)
            requires
                passes_left == 0,
        ;
    } else {
        assert(passes_left * n >= n) by (nonlinear_arith)
            requires
                passes_left >= 1,
                n >= 0,
        ;
    }
}

/// Each presentation takes one off what is left and keeps the view consistent,
/// provided the sample was not yet presented in the pass under way.
pub proof fn lemma_present_counts_down(v: ScheduleView, sample: usize)
    requires
        v.is_consistent(),
        !v.is_finished(),
        sample < v.samples,
        !v.current.contains(sample),
    ensures
        v.present(sample).is_consistent(),
        v.present(sample).remaining() == v.remaining() - 1,
{
    let w = v.present(sample);
    let pass = v.current.push(sample);
    assert(pass.no_duplicates());
    if v.current.len() + 1 == v.samples {
        lemma_full_pass(pass, v.samples);
        assert forall|k: int| 0 <= k < w.completed.len() implies is_permutation(
            #[trigger] w.completed[k],
            w.samples,
        ) by {
            if k < v.completed.len() {
                assert(w.completed[k] == v.completed[k]);
            }
        }
        let passes_left = v.epochs - v.completed.len();
        let n = v.samples as int;
        assert((passes_left - 1) * n == passes_left * n - n) by (nonlinear_arith);
    }
}

/// With no pass asked for, training is over before it starts.
pub proof fn lemma_no_epochs_nothing_to_present(samples: nat)
    ensures
        ScheduleView::initial(samples, 0).is_finished(),
        ScheduleView::initial(samples, 0).remaining() == 0,
{
    lemma_initial_remaining(samples, 0);
}

/// The course of one training run over a collection of samples.
pub struct Schedule {
    samples: usize,
    epochs: usize,
    /// How many passes are over.
    passes: usize,
    /// How many samples of `order` the pass under way has presented.
    cursor: usize,
    /// The order of the pass under way.
    order: Vec<usize>,
    /// The orders of the passes that are over.
    completed: Ghost<Seq<Seq<usize>>>,
}

impl View for Schedule {
    type V = ScheduleView;

    closed spec fn view(&self) -> ScheduleView {
        ScheduleView {
            samples: self.samples as nat,
            epochs: self.epochs as nat,
            completed: self.completed@,
            current: self.order@.take(self.cursor as int),
        }
    }
}

impl Schedule {
    #[verifier::type_invariant]
    spec fn inv(self) -> bool {
        &&& self.passes <= self.epochs
        &&& self.completed@.len() == self.passes
        &&& forall|k: int|
            0 <= k < self.completed@.len() ==> is_permutation(
                #[trigger] self.completed@[k],
                self.samples as nat,
            )
        &&& if self.passes < self.epochs {
            is_permutation(self.order@, self.samples as nat) && self.cursor < self.samples
        } else {
            self.cursor == 0
        }
    }

    /// What the invariant says of the view.
    proof fn lemma_inv_consistent(self)
        requires
            self.inv(),
        ensures
            self@.is_consistent(),
    {
        let current = self.order@.take(self.cursor as int);
        assert forall|i: int| 0 <= i < current.len() implies (#[trigger] current[i])
            < self.samples by {
            assert(self.order@.contains(self.order@[i]));
        }
    }

    /// A run of `epochs` passes over `samples` samples, before its first
    /// presentation. The order of the first pass is drawn here.
    pub fn new(samples: usize, epochs: usize) -> (schedule: Schedule)
        ensures
            schedule@ == ScheduleView::initial(samples as nat, epochs as nat),
            schedule@.is_consistent(),
    {
        let passes = if samples == 0 {
            epochs
        } else {
            0
        };
        let order = if passes < epochs {
            shuffled_order(samples)
        } else {
            Vec::new()
        };
        let ghost completed = ScheduleView::initial(samples as nat, epochs as nat).completed;
        let schedule = Schedule { samples, epochs, passes, cursor: 0, order, completed: Ghost(completed) };
        proof {
            lemma_initial_remaining(samples as nat, epochs as nat);
            assert(schedule@.current =~= Seq::<usize>::empty());
        }
        schedule
    }

    /// The position of the sample to present next, or `None` when every pass is
    /// over. Within a pass every sample comes exactly once; when a pass ends
    /// and another is due, its order is drawn afresh.
    pub fn next_sample(&mut self) -> (next: Option<usize>)
        ensures
            old(self)@.is_consistent(),
            final(self)@.is_consistent(),
            match next {
                None => old(self)@.is_finished() && final(self)@ == old(self)@,
                Some(sample) => {
                    &&& !old(self)@.is_finished()
                    &&& sample < old(self)@.samples
                    &&& !old(self)@.current.contains(sample)
                    &&& final(self)@ == old(self)@.present(sample)
                },
            },
    {
        proof {
            use_type_invariant(&*self);
            self.lemma_inv_consistent();
        }
        if self.passes == self.epochs {
            return None;
        }
        let sample = self.order[self.cursor];
        let ghost before = self@;
        proof {
            let order = self.order@;
            let cursor = self.cursor as int;
            assert(order.contains(order[cursor]));
            assert(order.take(cursor + 1) =~= order.take(cursor).push(sample));
            assert(order.take(order.len() as int) =~= order);
            if before.current.contains(sample) {
                let i = choose|i: int| 0 <= i < before.current.len() && before.current[i] == sample;
                assert(order[i] == order[cursor]);
            }
        }
        if self.cursor + 1 < self.samples {
            self.cursor = self.cursor + 1;
        } else {
            let passes = self.passes + 1;
            let ghost completed = self.completed@.push(self.order@);
            let order = if passes < self.epochs {
                shuffled_order(self.samples)
            } else {
                Vec::new()
            };
            *self = Schedule {
                samples: self.samples,
                epochs: self.epochs,
                passes,
                cursor: 0,
                order,
                completed: Ghost(completed),
            };
            proof {
                assert(self@.current =~= Seq::<usize>::empty());
            }
        }
        proof {
            assert(self@ == before.present(sample));
            lemma_present_counts_down(before, sample);
        }
        Some(sample)
    }
}

/// Plans a training run of `epochs` passes for a perceptron of `input_size`
/// inputs, over samples given by their lengths in the caller's order. The run is
/// refused, whatever `epochs` is, unless every sample fits the perceptron; the
/// error is the fault of the first sample that does not.
pub fn plan_training(lens: &Vec<usize>, input_size: usize, epochs: usize) -> (plan: Result<
    Schedule,
    SampleError,
>)
    ensures
        plan is Ok <==> all_fit(lens@, input_size),
        plan matches Ok(schedule) ==> {
            &&& schedule@ == ScheduleView::initial(lens.len() as nat, epochs as nat)
            &&& schedule@.is_consistent()
        },
        plan matches Err(e) ==> is_first_fault(e, lens@, input_size),
{
    match check_samples(lens, input_size) {
        Ok(()) => Ok(Schedule::new(lens.len(), epochs)),
        Err(e) => Err(e),
    }
}

} // verus!
