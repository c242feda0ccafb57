//! A set of utility adapters to combine networks.

use vstd::prelude::*;

verus! {

use crate::BackpropTrain;
use crate::Compute;
use crate::Method;
use crate::SupervisedTrain;
use crate::UnsupervisedTrain;
use crate::fixed::Fx;
use crate::linalg::all_wf;

/// An adapter that chains two networks, linking the first's output to the
/// second's input.
pub struct Chain<A, B> {
    first: A,
    second: B,
}

impl<A: Compute, B: Compute> Chain<A, B> {
    /// Chains the two given adapters.
    pub fn new(first: A, second: B) -> (c: Chain<A, B>)
        ensures
            c.wf() == (first.wf() && second.wf()),
            c.spec_input_size() == first.spec_input_size(),
            c.spec_output_size() == second.spec_output_size(),
    {
        Chain { first, second }
    }
}

impl<A: Compute, B: Compute> Compute for Chain<A, B> {
    closed spec fn wf(&self) -> bool {
        self.first.wf() && self.second.wf()
    }

    closed spec fn spec_input_size(&self) -> int {
        self.first.spec_input_size()
    }

    closed spec fn spec_output_size(&self) -> int {
        self.second.spec_output_size()
    }

    fn compute(&self, input: &[Fx]) -> (out: Vec<Fx>) {
        let mid = self.first.compute(input);
        self.second.compute(mid.as_slice())
    }

    fn input_size(&self) -> (n: usize) {
        self.first.input_size()
    }

    fn output_size(&self) -> (n: usize) {
        self.second.output_size()
    }
}

/// The backpropagation training on a chain is computed this way:
///
/// - first compute the output of the first layer
/// - use the output of this layer to train the second with the target
/// - use the output of the training of the second layer as a target
///   to train the first
impl<A, B, M> BackpropTrain<M> for Chain<A, B> where
    A: BackpropTrain<M>,
    B: BackpropTrain<M>,
    M: Method,
 {
    fn backprop_train(&mut self, rule: &M, input: &[Fx], target: &[Fx]) -> (out: Vec<Fx>) {
        let mid_input = self.first.compute(input);
        let mid_target = self.second.backprop_train(rule, mid_input.as_slice(), target);
        self.first.backprop_train(rule, input, mid_target.as_slice())
    }
}

/// The supervised training on a chain is computed the same way as the
/// backprop training, simply discarding its output.
impl<A, B, M> SupervisedTrain<M> for Chain<A, B> where
    A: BackpropTrain<M>,
    B: BackpropTrain<M>,
    M: Method,
 {
    fn supervised_train(&mut self, rule: &M, input: &[Fx], target: &[Fx]) {
        self.backprop_train(rule, input, target);
    }
}

/// An adapter that feeds the same input to two networks, and concatenates
/// their outputs into its output.
pub struct Parallel<A, B> {
    first: A,
    second: B,
}

impl<A: Compute, B: Compute> Parallel<A, B> {
    /// Runs the two given adapters side by side.
    pub fn new(first: A, second: B) -> (p: Parallel<A, B>)
        ensures
            p.wf() == (first.wf() && second.wf() && first.spec_output_size()
                + second.spec_output_size() <= usize::MAX),
            p.spec_output_size() == first.spec_output_size() + second.spec_output_size(),
            p.spec_input_size() == if first.spec_input_size() >= second.spec_input_size() {
                first.spec_input_size()
            } else {
                second.spec_input_size()
            },
    {
        Parallel { first, second }
    }
}

impl<A: Compute, B: Compute> Compute for Parallel<A, B> {
    closed spec fn wf(&self) -> bool {
        self.first.wf() && self.second.wf() && self.first.spec_output_size()
            + self.second.spec_output_size() <= usize::MAX
    }

    closed spec fn spec_input_size(&self) -> int {
        if self.first.spec_input_size() >= self.second.spec_input_size() {
            self.first.spec_input_size()
        } else {
            self.second.spec_input_size()
        }
    }

    closed spec fn spec_output_size(&self) -> int {
        self.first.spec_output_size() + self.second.spec_output_size()
    }

    fn compute(&self, input: &[Fx]) -> (out: Vec<Fx>) {
        let mut v = self.first.compute(input);
        let mut rest = self.second.compute(input);
        v.append(&mut rest);
        v
    }

    fn input_size(&self) -> (n: usize) {
        let a = self.first.input_size();
        let b = self.second.input_size();
        if a >= b {
            a
        } else {
            b
        }
    }

    fn output_size(&self) -> (n: usize) {
        self.first.output_size() + self.second.output_size()
    }
}

impl<A, B, M> UnsupervisedTrain<M> for Parallel<A, B> where
    A: UnsupervisedTrain<M>,
    B: UnsupervisedTrain<M>,
    M: Method,
 {
    fn unsupervised_train(&mut self, rule: &M, input: &[Fx]) {
        self.first.unsupervised_train(rule, input);
        self.second.unsupervised_train(rule, input);
    }
}

impl<A, B, M> SupervisedTrain<M> for Parallel<A, B> where
    A: SupervisedTrain<M>,
    B: SupervisedTrain<M>,
    M: Method,
 {
    fn supervised_train(&mut self, rule: &M, input: &[Fx], target: &[Fx]) {
        let n = self.first.output_size();
        let len = target.len();
        if len < n {
            let empty: Vec<Fx> = Vec::new();
            self.first.supervised_train(rule, input, target);
            self.second.supervised_train(rule, input, empty.as_slice());
        } else {
            let head = &target[0..n];
            let tail = &target[n..len];
            proof {
                assert(all_wf(head@));
                assert(all_wf(tail@));
            }
            self.first.supervised_train(rule, input, head);
            self.second.supervised_train(rule, input, tail);
        }
    }
}

/// A network that returns a fixed output, whatever the input is.
pub struct FixedOutput {
    output: Vec<Fx>,
}

impl FixedOutput {
    /// The stored output values.
    pub closed spec fn spec_output(self) -> Seq<Fx> {
        self.output@
    }

    /// Creates a new fixed output network that will always return the
    /// values provided as `output`.
    pub fn new(output: &[Fx]) -> (r: FixedOutput)
        ensures
            r.wf() == all_wf(output@),
            r.spec_output() == output@,
            r.spec_output_size() == output@.len(),
            r.spec_input_size() == 0,
    {
        let mut v: Vec<Fx> = Vec::new();
        let mut k: usize = 0;
        while k < output.len()
            invariant
                k <= output@.len(),
                v@.len() == k as int,
                forall|t: int| 0 <= t < k as int ==> v@[t] == output@[t],
            decreases output@.len() - k,
        {
            v.push(output[k]);
            k = k + 1;
        }
        proof {
            assert(v@ =~= output@);
        }
        FixedOutput { output: v }
    }
}

impl Compute for FixedOutput {
    closed spec fn wf(&self) -> bool {
        all_wf(self.output@)
    }

    closed spec fn spec_input_size(&self) -> int {
        0
    }

    closed spec fn spec_output_size(&self) -> int {
        self.output@.len() as int
    }

    /// The stored output, whatever the input is.
    fn compute(&self, input: &[Fx]) -> (out: Vec<Fx>)
        ensures
            out@ == self.spec_output(),
    {
        let mut v: Vec<Fx> = Vec::new();
        let mut k: usize = 0;
        while k < self.output.len()
            invariant
                self.wf(),
                k <= self.output@.len(),
                v@.len() == k as int,
                forall|t: int| 0 <= t < k as int ==> v@[t] == self.output@[t],
            decreases self.output@.len() - k,
        {
            v.push(self.output[k]);
            k = k + 1;
        }
        proof {
            assert(v@ =~= self.output@);
        }
        v
    }

    fn input_size(&self) -> (n: usize) {
        0
    }

    fn output_size(&self) -> (n: usize) {
        self.output.len()
    }
}

/// A network that simply returns its input, truncated or padded with
/// zeros to its fixed size.
pub struct Identity {
    size: usize,
}

impl Identity {
    /// Creates a new identity network of the given size.
    pub fn new(size: usize) -> (r: Identity)
        ensures
            r.wf(),
            r.spec_input_size() == size as int,
            r.spec_output_size() == size as int,
    {
        Identity { size }
    }
}

impl Compute for Identity {
    closed spec fn wf(&self) -> bool {
        true
    }

    closed spec fn spec_input_size(&self) -> int {
        self.size as int
    }

    closed spec fn spec_output_size(&self) -> int {
        self.size as int
    }

    /// The input, cut or zero-padded to the fixed size: entry `k` of the
    /// output is `input[k]` where the input reaches, and zero beyond it.
    fn compute(&self, input: &[Fx]) -> (out: Vec<Fx>)
        ensures
            forall|k: int|
                0 <= k < self.spec_output_size() ==> #[trigger] out@[k] == (if k < input@.len() {
                    input@[k]
                } else {
                    Fx { raw: 0 }
                }),
    {
        let lim: usize = if input.len() < self.size {
            input.len()
        } else {
            self.size
        };
        let mut v: Vec<Fx> = Vec::new();
        let mut k: usize = 0;
        while k < lim
            invariant
                lim as int <= input@.len(),
                k <= lim,
                v@.len() == k as int,
                forall|t: int| 0 <= t < k as int ==> v@[t] == input@[t],
            decreases lim - k,
        {
            v.push(input[k]);
            k = k + 1;
        }
        while v.len() < self.size
            invariant
                lim as int <= input@.len(),
                lim <= self.size,
                lim as int <= v@.len() <= self.size as int,
                forall|t: int| 0 <= t < lim as int ==> v@[t] == input@[t],
                forall|t: int| lim as int <= t < v@.len() ==> (#[trigger] v@[t]).raw == 0,
            decreases self.size - v.len(),
        {
            v.push(Fx::zero());
        }
        v
    }

    fn input_size(&self) -> (n: usize) {
        self.size
    }

    fn output_size(&self) -> (n: usize) {
        self.size
    }
}

} // verus!
