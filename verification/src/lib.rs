//! A library of silicon synapses: networks of simple computational units
//! coupled by weights, together with a Boltzmann-machine simulator that
//! performs stochastic unit updates under a temperature parameter.
//!
//! All quantities are fixed-point numbers ([`fixed::Fx`]), stored as integer
//! multiples of `1 / 65536`; arithmetic saturates instead of wrapping.

use vstd::prelude::*;

pub mod boltzmann;
pub mod fixed;
pub mod linalg;
pub mod rng;
pub mod training;
pub mod util;

pub use crate::linalg::symmetric::SymmetricMatrix;

verus! {

use crate::fixed::Fx;
use crate::linalg::all_wf;

/// A trait representing anything that can process an input to generate an
/// output.
///
/// This computation is not supposed to alter the internal state of the
/// object.
pub trait Compute {
    /// The internal consistency a unit maintains; computing demands it.
    spec fn wf(&self) -> bool;

    /// The input length this unit consumes.
    spec fn spec_input_size(&self) -> int;

    /// The output length this unit produces.
    spec fn spec_output_size(&self) -> int;

    /// Process input into output.
    fn compute(&self, input: &[Fx]) -> (out: Vec<Fx>)
        requires
            self.wf(),
            all_wf(input@),
        ensures
            out@.len() == self.spec_output_size(),
            all_wf(out@),
    ;

    /// The number of input values this unit consumes.
    fn input_size(&self) -> (n: usize)
        requires
            self.wf(),
        ensures
            n as int == self.spec_input_size(),
    ;

    /// The number of output values this unit produces.
    fn output_size(&self) -> (n: usize)
        requires
            self.wf(),
        ensures
            n as int == self.spec_output_size(),
    ;
}

/// This trait describes a training method. It does not hold a lot of
/// constraints by itself, but networks implementing the same training
/// method should be trainable in the same way.
pub trait Method {

}

/// A trait for networks that can be trained using a certain method of
/// unsupervised training.
pub trait UnsupervisedTrain<M: Method>: Compute {
    /// Adjust the network from an unlabeled input.
    fn unsupervised_train(&mut self, rule: &M, input: &[Fx])
        requires
            old(self).wf(),
            all_wf(input@),
        ensures
            final(self).wf(),
            final(self).spec_input_size() == old(self).spec_input_size(),
            final(self).spec_output_size() == old(self).spec_output_size(),
    ;
}

/// A trait for networks that can be trained using a certain method of
/// supervised training.
pub trait SupervisedTrain<M: Method>: Compute {
    /// Adjust the network from an input and its target output.
    fn supervised_train(&mut self, rule: &M, input: &[Fx], target: &[Fx])
        requires
            old(self).wf(),
            all_wf(input@),
            all_wf(target@),
        ensures
            final(self).wf(),
            final(self).spec_input_size() == old(self).spec_input_size(),
            final(self).spec_output_size() == old(self).spec_output_size(),
    ;
}

/// A trait for networks that can be trained using a certain method in a
/// back-propagation way: the training returns a values vector that is to
/// be used as a target value for the previous layer.
pub trait BackpropTrain<M: Method>: Compute {
    /// Adjust the network and hand back the target for the layer before.
    fn backprop_train(&mut self, rule: &M, input: &[Fx], target: &[Fx]) -> (out: Vec<Fx>)
        requires
            old(self).wf(),
            all_wf(input@),
            all_wf(target@),
        ensures
            final(self).wf(),
            final(self).spec_input_size() == old(self).spec_input_size(),
            final(self).spec_output_size() == old(self).spec_output_size(),
            all_wf(out@),
    ;
}

} // verus!
