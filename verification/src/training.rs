//! A list of available training methods.
//!
//! These types describe the parameters of each learning that can be tuned
//! by the user.

use vstd::prelude::*;

verus! {

use crate::Method;
use crate::fixed::Fx;

/// The gradient descent approach, consisting of finding a minimum of the
/// error by going down its gradient.
pub struct GradientDescent {
    /// The learning rate associated with this gradient descent rule.
    ///
    /// A very small value will make the training slow, but a too big one
    /// will make it unstable.
    pub rate: Fx,
}

impl Method for GradientDescent {

}

/// The perceptron rule, a classic learning rule for one-layered
/// feedforward networks.
pub struct PerceptronRule {
    /// The learning rate associated with this perceptron rule.
    ///
    /// A very small value will make the training slow, but a too big one
    /// will make it unstable.
    pub rate: Fx,
}

impl Method for PerceptronRule {

}

} // verus!
