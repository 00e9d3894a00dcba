//! The shape of a sample: one value for each input of the perceptron, then the target.
use vstd::prelude::*;

verus! {

/// Why a sample cannot be presented to a perceptron.
#[derive(Debug, Clone, Copy, PartialEq, Eq, Structural)]
pub enum SampleError {
    /// The sample at position `sample` is empty, so it has no target value.
    MalformedSample { sample: usize },
    /// The sample at position `sample` holds `features` feature values before its
    /// target, which is not the number of inputs of the perceptron.
    DimensionMismatch { sample: usize, features: usize },
}

impl SampleError {
    /// The position, in the caller's collection, of the sample that was refused.
    pub open spec fn position(self) -> usize {
        match self {
            SampleError::MalformedSample { sample } => sample,
            SampleError::DimensionMismatch { sample, .. } => sample,
        }
    }
}

/// A sample of `len` values fits a perceptron of `input_size` inputs when it holds
/// exactly `input_size` feature values followed by one target value.
pub open spec fn fits(len: usize, input_size: usize) -> bool {
    len == input_size + 1
}

/// What is wrong with a sample of `len` values that stands at position `index`,
/// if anything is. An empty sample is malformed whatever the input size.
pub open spec fn fault(index: usize, len: usize, input_size: usize) -> Option<SampleError> {
    if len == 0 {
        Some(SampleError::MalformedSample { sample: index })
    } else if len - 1 != input_size {
        Some(SampleError::DimensionMismatch { sample: index, features: (len - 1) as usize })
    } else {
        None
    }
}

/// Every sample of the collection fits.
pub open spec fn all_fit(lens: Seq<usize>, input_size: usize) -> bool {
    forall|i: int| 0 <= i < lens.len() ==> fits(#[trigger] lens[i], input_size)
}

/// `error` is the fault of the first sample of the collection that does not fit.
pub open spec fn is_first_fault(error: SampleError, lens: Seq<usize>, input_size: usize) -> bool {
    &&& error.position() < lens.len()
    &&& fault(error.position(), lens[error.position() as int], input_size) == Some(error)
    &&& forall|i: int| 0 <= i < error.position() ==> fits(#[trigger] lens[i], input_size)
}

/// A sample has no fault exactly when it fits.
pub proof fn lemma_faultless_iff_fits(index: usize, len: usize, input_size: usize)
    ensures
        fault(index, len, input_size) is None <==> fits(len, input_size),
{
}

/// A collection has at most one first fault, and none when every sample fits.
pub proof fn lemma_first_fault_unique(
    first: SampleError,
    second: SampleError,
    lens: Seq<usize>,
    input_size: usize,
)
    requires
        is_first_fault(first, lens, input_size),
        is_first_fault(second, lens, input_size),
    ensures
        first == second,
        !all_fit(lens, input_size),
{
    let p = first.position() as int;
    let q = second.position() as int;
    assert(!fits(lens[p], input_size));
    assert(!fits(lens[q], input_size));
}

/// Checks one sample, given by its position and its length, against the input size.
pub fn check_sample(index: usize, len: usize, input_size: usize) -> (r: Result<(), SampleError>)
    ensures
        r is Ok <==> fits(len, input_size),
        r matches Err(e) ==> fault(index, len, input_size) == Some(e),
{
    if len == 0 {
        Err(SampleError::MalformedSample { sample: index })
    } else if len - 1 != input_size {
        Err(SampleError::DimensionMismatch { sample: index, features: len - 1 })
    } else {
        Ok(())
    }
}

/// Checks a collection of samples, given by their lengths in the caller's order.
/// It succeeds exactly when every sample fits, and otherwise reports the fault of
/// the first sample that does not.
pub fn check_samples(lens: &Vec<usize>, input_size: usize) -> (r: Result<(), SampleError>)
    ensures
        r is Ok <==> all_fit(lens@, input_size),
        r matches Err(e) ==> is_first_fault(e, lens@, input_size),
{
    let mut i: usize = 0;
    while i < lens.len()
        invariant
            i <= lens.len(),
            forall|j: int| 0 <= j < i ==> fits(#[trigger] lens[j], input_size),
        decreases lens.len() - i,
    {
        match check_sample(i, lens[i], input_size) {
            Ok(()) => {},
            Err(e) => {
                return Err(e);
            },
        }
        i += 1;
    }
    Ok(())
}

} // verus!
