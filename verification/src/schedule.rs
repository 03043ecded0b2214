//! Which observation each filtering step of a run consumes.
//!
//! A run advances the model in fixed time steps and, whenever an
//! observation is due, filters with the next observation of the data: the
//! first one used is `start`, and each filtering step moves `stride`
//! observations further on.
use vstd::prelude::*;

verus! {

/// The next observation a run will filter with, and how far each filtering
/// step moves on.
pub struct ObservationCursor {
    next: usize,
    stride: usize,
}

/// The state of a cursor as plain numbers.
pub struct CursorModel {
    pub next: nat,
    pub stride: nat,
}

impl View for ObservationCursor {
    type V = CursorModel;

    closed spec fn view(&self) -> CursorModel {
        CursorModel { next: self.next as nat, stride: self.stride as nat }
    }
}

/// One filtering step asked for with `n` observations at hand: the index of
/// the observation to use and the cursor after it, or nothing (and the
/// cursor unchanged) when the data hold no such observation.
pub open spec fn take_spec(c: CursorModel, n: nat) -> (Option<nat>, CursorModel) {
    if c.next < n {
        (Some(c.next), CursorModel { next: c.next + c.stride, stride: c.stride })
    } else {
        (None, c)
    }
}

/// The cursor after `k` filtering steps.
pub open spec fn iterate_spec(c: CursorModel, n: nat, k: nat) -> CursorModel
    decreases k,
{
    if k == 0 {
        c
    } else {
        take_spec(iterate_spec(c, n, (k - 1) as nat), n).1
    }
}

impl ObservationCursor {
    #[verifier::type_invariant]
    spec fn stride_fits(self) -> bool {
        self.stride <= isize::MAX
    }

    /// A cursor that starts at observation `start` and moves `stride`
    /// observations on after each filtering step.
    pub fn new(start: usize, stride: usize) -> (c: ObservationCursor)
        requires
            stride <= isize::MAX,
        ensures
            c@.next == start,
            c@.stride == stride,
    {
        ObservationCursor { next: start, stride }
    }

    /// The index of the observation the next filtering step will use.
    pub fn next_index(&self) -> (i: usize)
        ensures
            i == self@.next,
    {
        self.next
    }

    /// How many observations each filtering step moves on.
    pub fn stride(&self) -> (s: usize)
        ensures
            s == self@.stride,
    {
        self.stride
    }

    /// One filtering step with `n_observations` observations at hand: hands
    /// out the index of the observation to use and moves on by the stride,
    /// or returns `None` and stays put when that observation does not
    /// exist.  (`n_observations` is the length of a vector, which never
    /// exceeds `isize::MAX`.)
    pub fn take(&mut self, n_observations: usize) -> (r: Option<usize>)
        requires
            n_observations <= isize::MAX,
        ensures
            (match r {
                Some(i) => Some(i as nat),
                None => None::<nat>,
            }, final(self)@) == take_spec(old(self)@, n_observations as nat),
    {
        proof {
            use_type_invariant(&*self);
        }
        if self.next < n_observations {
            let i = self.next;
            self.next = self.next + self.stride;
            Some(i)
        } else {
            None
        }
    }
}

/// The `k`-th filtering step of a run (counting from zero) uses observation
/// `start + k * stride` when that observation exists, and no observation
/// otherwise: the observations used are `start, start + stride,
/// start + 2 * stride, ...` up to the end of the data.
pub proof fn lemma_kth_take(c: CursorModel, n: nat, k: nat)
    ensures
        take_spec(iterate_spec(c, n, k), n).0 == if c.next + k * c.stride < n {
            Some(c.next + k * c.stride)
        } else {
            None::<nat>
        },
{
    lemma_iterate_next(c, n, k);
}

/// Where the cursor stands after `k` steps.
proof fn lemma_iterate_next(c: CursorModel, n: nat, k: nat)
    ensures
        iterate_spec(c, n, k).stride == c.stride,
        c.next + k * c.stride < n ==> iterate_spec(c, n, k).next == c.next + k * c.stride,
        c.next + k * c.stride >= n ==> iterate_spec(c, n, k).next >= n,
    decreases k,
{
    if k > 0 {
        let k0 = (k - 1) as nat;
        lemma_iterate_next(c, n, k0);
        assert(k * c.stride == k0 * c.stride + c.stride) by (nonlinear_arith)
            requires
                k == k0 + 1,
        ;
    } else {
        assert(0 * c.stride == 0) by (nonlinear_arith);
    }
}

} // verus!
