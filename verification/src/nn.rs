//! A feed-forward network: one weight matrix and one bias row for each
//! transition between two layers.

use crate::error::Error;
use crate::matrix::{
    activated_grid, all_finite, drawn_grid, normalized_grid, product_grid, scaled_grid, sum_grid,
    zero_grid, Matrix,
};
use vstd::prelude::*;

verus! {

/// A network of `topology.len()` layers.
///
/// `connections[i]` takes layer `i` to layer `i + 1` and has shape
/// `topology[i] × topology[i + 1]`; `biases[i]` is a row of `topology[i + 1]`
/// entries.
#[derive(Clone, Debug)]
pub struct NN {
    pub topology: Vec<usize>,
    pub connections: Vec<Matrix>,
    pub biases: Vec<Matrix>,
}

/// The parameters of a network as plain sequences.
pub struct Parameters {
    pub topology: Seq<usize>,
    pub connections: Seq<Seq<Seq<u64>>>,
    pub biases: Seq<Seq<Seq<u64>>>,
}

/// At least two layers, none of them empty.
pub open spec fn valid_topology(topology: Seq<usize>) -> bool {
    &&& topology.len() >= 2
    &&& forall|i: int| 0 <= i < topology.len() ==> #[trigger] topology[i] > 0
}

/// The grids of a vector of matrices.
pub open spec fn grids_of(matrices: Seq<Matrix>) -> Seq<Seq<Seq<u64>>> {
    Seq::new(matrices.len(), |i: int| matrices[i]@)
}

impl View for NN {
    type V = Parameters;

    open spec fn view(&self) -> Parameters {
        Parameters {
            topology: self.topology@,
            connections: grids_of(self.connections@),
            biases: grids_of(self.biases@),
        }
    }
}

impl NN {
    /// The topology is valid and every matrix has the shape that it asks for.
    pub open spec fn wf(&self) -> bool {
        &&& valid_topology(self.topology@)
        &&& self.connections@.len() == self.topology@.len() - 1
        &&& self.biases@.len() == self.topology@.len() - 1
        &&& forall|i: int|
            0 <= i < self.connections@.len() ==> {
                &&& (#[trigger] self.connections@[i]).wf()
                &&& self.connections@[i].rows == self.topology@[i]
                &&& self.connections@[i].columns == self.topology@[i + 1]
            }
        &&& forall|i: int|
            0 <= i < self.biases@.len() ==> {
                &&& (#[trigger] self.biases@[i]).wf()
                &&& self.biases@[i].rows == 1
                &&& self.biases@[i].columns == self.topology@[i + 1]
            }
    }
}

/// The parameters of the network of the given topology whose every weight
/// and bias is `+0.0`.
pub open spec fn zero_parameters(topology: Seq<usize>) -> Parameters {
    Parameters {
        topology,
        connections: Seq::new(
            (topology.len() - 1) as nat,
            |i: int| zero_grid(topology[i] as nat, topology[i + 1] as nat),
        ),
        biases: Seq::new(
            (topology.len() - 1) as nat,
            |i: int| zero_grid(1, topology[i + 1] as nat),
        ),
    }
}

/// Matrix by matrix, entry by entry, `p + q`.
pub open spec fn sum_parameters(p: Parameters, q: Parameters) -> Parameters {
    Parameters {
        topology: p.topology,
        connections: Seq::new(
            p.connections.len(),
            |i: int| sum_grid(p.connections[i], q.connections[i]),
        ),
        biases: Seq::new(p.biases.len(), |i: int| sum_grid(p.biases[i], q.biases[i])),
    }
}

/// Every weight and bias of `p` times `s`.
pub open spec fn scaled_parameters(p: Parameters, s: u64) -> Parameters {
    Parameters {
        topology: p.topology,
        connections: Seq::new(p.connections.len(), |i: int| scaled_grid(p.connections[i], s)),
        biases: Seq::new(p.biases.len(), |i: int| scaled_grid(p.biases[i], s)),
    }
}

/// The number of weights in the first `n` transitions.
pub open spec fn weight_count(topology: Seq<usize>, n: nat) -> nat
    decreases n,
{
    if n == 0 {
        0
    } else {
        weight_count(topology, (n - 1) as nat) + (topology[n - 1] * topology[n as int]) as nat
    }
}

/// The number of biases in the first `n` transitions.
pub open spec fn bias_count(topology: Seq<usize>, n: nat) -> nat
    decreases n,
{
    if n == 0 {
        0
    } else {
        bias_count(topology, (n - 1) as nat) + topology[n as int] as nat
    }
}

/// The number of weights and biases of a network.
pub open spec fn parameter_count(topology: Seq<usize>) -> nat {
    weight_count(topology, (topology.len() - 1) as nat) + bias_count(
        topology,
        (topology.len() - 1) as nat,
    )
}

/// The parameters that a run of draws fills: the weight matrices one after
/// the other, each row by row, and after them the bias rows.
pub open spec fn drawn_parameters(topology: Seq<usize>, draws: Seq<u64>) -> Parameters {
    Parameters {
        topology,
        connections: Seq::new(
            (topology.len() - 1) as nat,
            |i: int|
                drawn_grid(
                    topology[i] as nat,
                    topology[i + 1] as nat,
                    draws,
                    weight_count(topology, i as nat) as int,
                ),
        ),
        biases: Seq::new(
            (topology.len() - 1) as nat,
            |i: int|
                drawn_grid(
                    1,
                    topology[i + 1] as nat,
                    draws,
                    (weight_count(topology, (topology.len() - 1) as nat) + bias_count(
                        topology,
                        i as nat,
                    )) as int,
                ),
        ),
    }
}

/// The counts grow with the number of transitions.
pub proof fn lemma_counts_grow(topology: Seq<usize>, n: nat, m: nat)
    requires
        n <= m,
    ensures
        weight_count(topology, n) <= weight_count(topology, m),
        bias_count(topology, n) <= bias_count(topology, m),
    decreases m,
{
    if n < m {
        lemma_counts_grow(topology, n, (m - 1) as nat);
        assert(topology[m - 1] * topology[m as int] >= 0) by (nonlinear_arith);
    }
}

/// What one transition makes of the activations `x`: the product with the
/// weights plus the bias row, normalized unless the transition is the last,
/// and rectified in either case.
pub open spec fn layer_output(
    x: Seq<Seq<u64>>,
    weights: Seq<Seq<u64>>,
    bias: Seq<Seq<u64>>,
    width: nat,
    last: bool,
) -> Seq<Seq<u64>> {
    let raw = sum_grid(product_grid(x, weights, width), bias);
    if last {
        activated_grid(raw)
    } else {
        activated_grid(normalized_grid(raw))
    }
}

/// The activations after the first `layers` transitions; before the first
/// the input is normalized.
pub open spec fn forward_through(p: Parameters, input: Seq<Seq<u64>>, layers: nat) -> Seq<Seq<u64>>
    decreases layers,
{
    if layers == 0 {
        normalized_grid(input)
    } else {
        layer_output(
            forward_through(p, input, (layers - 1) as nat),
            p.connections[layers - 1],
            p.biases[layers - 1],
            p.topology[layers as int] as nat,
            layers == p.connections.len(),
        )
    }
}

/// The output of the network for the given input row.
pub open spec fn forward(p: Parameters, input: Seq<Seq<u64>>) -> Seq<Seq<u64>> {
    forward_through(p, input, p.connections.len())
}

/// Whether the topology has at least two layers and no empty one.
pub fn is_valid_topology(topology: &Vec<usize>) -> (r: bool)
    ensures
        r == valid_topology(topology@),
{
    if topology.len() < 2 {
        return false;
    }
    let mut i: usize = 0;
    while i < topology.len()
        invariant
            i <= topology.len(),
            forall|k: int| 0 <= k < i ==> #[trigger] topology@[k] > 0,
        decreases topology.len() - i,
    {
        if topology[i] == 0 {
            return false;
        }
        i = i + 1;
    }
    true
}

/// Whether the topology is valid and every matrix has the shape that it
/// asks for.
pub fn is_well_formed(nn: &NN) -> (r: bool)
    ensures
        r == nn.wf(),
{
    if !is_valid_topology(&nn.topology) {
        return false;
    }
    let count: usize = nn.topology.len() - 1;
    if nn.connections.len() != count || nn.biases.len() != count {
        return false;
    }
    let mut i: usize = 0;
    while i < count
        invariant
            valid_topology(nn.topology@),
            count == nn.topology@.len() - 1,
            nn.connections@.len() == count,
            nn.biases@.len() == count,
            i <= count,
            forall|k: int|
                0 <= k < i ==> {
                    &&& (#[trigger] nn.connections@[k]).wf()
                    &&& nn.connections@[k].rows == nn.topology@[k]
                    &&& nn.connections@[k].columns == nn.topology@[k + 1]
                },
            forall|k: int|
                0 <= k < i ==> {
                    &&& (#[trigger] nn.biases@[k]).wf()
                    &&& nn.biases@[k].rows == 1
                    &&& nn.biases@[k].columns == nn.topology@[k + 1]
                },
        decreases count - i,
    {
        let weights: &Matrix = &nn.connections[i];
        let bias: &Matrix = &nn.biases[i];
        if !crate::matrix::is_well_formed(weights) || weights.rows != nn.topology[i]
            || weights.columns != nn.topology[i + 1] {
            return false;
        }
        if !crate::matrix::is_well_formed(bias) || bias.rows != 1 || bias.columns != nn.topology[i
            + 1] {
            return false;
        }
        i = i + 1;
    }
    true
}

/// The network of the given topology with every weight and bias `+0.0`.
pub fn new(topology: Vec<usize>) -> (nn: NN)
    requires
        valid_topology(topology@),
    ensures
        nn.wf(),
        nn@ == zero_parameters(topology@),
{
    let mut connections: Vec<Matrix> = Vec::new();
    let mut biases: Vec<Matrix> = Vec::new();
    let mut i: usize = 1;
    while i < topology.len()
        invariant
            1 <= i <= topology.len(),
            connections@.len() == i - 1,
            biases@.len() == i - 1,
            forall|k: int|
                0 <= k < i - 1 ==> {
                    &&& (#[trigger] connections@[k]).wf()
                    &&& connections@[k].rows == topology@[k]
                    &&& connections@[k].columns == topology@[k + 1]
                    &&& connections@[k]@ == zero_grid(topology@[k] as nat, topology@[k + 1] as nat)
                },
            forall|k: int|
                0 <= k < i - 1 ==> {
                    &&& (#[trigger] biases@[k]).wf()
                    &&& biases@[k].rows == 1
                    &&& biases@[k].columns == topology@[k + 1]
                    &&& biases@[k]@ == zero_grid(1, topology@[k + 1] as nat)
                },
        decreases topology.len() - i,
    {
        connections.push(crate::matrix::new(topology[i - 1], topology[i]));
        biases.push(crate::matrix::new(1, topology[i]));
        i = i + 1;
    }
    let nn = NN { topology, connections, biases };
    assert(nn@.connections =~= zero_parameters(topology@).connections);
    assert(nn@.biases =~= zero_parameters(topology@).biases);
    nn
}

/// Whether two topologies list the same widths.
pub fn same_topology(a: &Vec<usize>, b: &Vec<usize>) -> (r: bool)
    ensures
        r == (a@ == b@),
{
    if a.len() != b.len() {
        return false;
    }
    let mut i: usize = 0;
    while i < a.len()
        invariant
            a.len() == b.len(),
            i <= a.len(),
            forall|k: int| 0 <= k < i ==> a@[k] == b@[k],
        decreases a.len() - i,
    {
        if a[i] != b[i] {
            return false;
        }
        i = i + 1;
    }
    assert(a@ =~= b@);
    true
}

/// A copy of a topology.
pub fn copy_topology(topology: &Vec<usize>) -> (r: Vec<usize>)
    ensures
        r@ == topology@,
{
    let mut r: Vec<usize> = Vec::new();
    let mut i: usize = 0;
    while i < topology.len()
        invariant
            i <= topology.len(),
            r@ == topology@.subrange(0, i as int),
        decreases topology.len() - i,
    {
        r.push(topology[i]);
        assert(r@ =~= topology@.subrange(0, i + 1));
        i = i + 1;
    }
    assert(r@ =~= topology@);
    r
}

/// The network whose every weight and bias is the sum of those of `nn1` and
/// `nn2`, which must have the same topology.
pub fn add(nn1: &NN, nn2: &NN) -> (r: Result<NN, Error>)
    requires
        nn1.wf(),
        nn2.wf(),
    ensures
        nn1.topology@ == nn2.topology@ ==> r is Ok && r.unwrap().wf() && r.unwrap()@
            == sum_parameters(nn1@, nn2@),
        nn1.topology@ != nn2.topology@ ==> r == Err::<NN, Error>(Error::TopologyMismatch),
{
    if !same_topology(&nn1.topology, &nn2.topology) {
        return Err(Error::TopologyMismatch);
    }
    let mut connections: Vec<Matrix> = Vec::new();
    let mut biases: Vec<Matrix> = Vec::new();
    let mut i: usize = 0;
    while i < nn1.connections.len()
        invariant
            nn1.wf(),
            nn2.wf(),
            nn1.topology@ == nn2.topology@,
            i <= nn1.connections@.len(),
            connections@.len() == i,
            biases@.len() == i,
            forall|k: int|
                0 <= k < i ==> {
                    &&& (#[trigger] connections@[k]).wf()
                    &&& connections@[k].rows == nn1.topology@[k]
                    &&& connections@[k].columns == nn1.topology@[k + 1]
                    &&& connections@[k]@ == sum_grid(nn1.connections@[k]@, nn2.connections@[k]@)
                },
            forall|k: int|
                0 <= k < i ==> {
                    &&& (#[trigger] biases@[k]).wf()
                    &&& biases@[k].rows == 1
                    &&& biases@[k].columns == nn1.topology@[k + 1]
                    &&& biases@[k]@ == sum_grid(nn1.biases@[k]@, nn2.biases@[k]@)
                },
        decreases nn1.connections@.len() - i,
    {
        let weights = match crate::matrix::add(&nn1.connections[i], &nn2.connections[i]) {
            Ok(m) => m,
            Err(e) => {
                return Err(e);
            },
        };
        let bias = match crate::matrix::add(&nn1.biases[i], &nn2.biases[i]) {
            Ok(m) => m,
            Err(e) => {
                return Err(e);
            },
        };
        connections.push(weights);
        biases.push(bias);
        i = i + 1;
    }
    let nn = NN { topology: copy_topology(&nn1.topology), connections, biases };
    assert(nn@.connections =~= sum_parameters(nn1@, nn2@).connections);
    assert(nn@.biases =~= sum_parameters(nn1@, nn2@).biases);
    Ok(nn)
}

/// The network whose every weight and bias is that of `nn1` times `s`.
pub fn scalar(nn1: &NN, s: u64) -> (nn: NN)
    requires
        nn1.wf(),
    ensures
        nn.wf(),
        nn@ == scaled_parameters(nn1@, s),
{
    let mut connections: Vec<Matrix> = Vec::new();
    let mut biases: Vec<Matrix> = Vec::new();
    let mut i: usize = 0;
    while i < nn1.connections.len()
        invariant
            nn1.wf(),
            i <= nn1.connections@.len(),
            connections@.len() == i,
            biases@.len() == i,
            forall|k: int|
                0 <= k < i ==> {
                    &&& (#[trigger] connections@[k]).wf()
                    &&& connections@[k].rows == nn1.topology@[k]
                    &&& connections@[k].columns == nn1.topology@[k + 1]
                    &&& connections@[k]@ == scaled_grid(nn1.connections@[k]@, s)
                },
            forall|k: int|
                0 <= k < i ==> {
                    &&& (#[trigger] biases@[k]).wf()
                    &&& biases@[k].rows == 1
                    &&& biases@[k].columns == nn1.topology@[k + 1]
                    &&& biases@[k]@ == scaled_grid(nn1.biases@[k]@, s)
                },
        decreases nn1.connections@.len() - i,
    {
        connections.push(crate::matrix::scalar(&nn1.connections[i], s));
        biases.push(crate::matrix::scalar(&nn1.biases[i], s));
        i = i + 1;
    }
    let nn = NN { topology: copy_topology(&nn1.topology), connections, biases };
    assert(nn@.connections =~= scaled_parameters(nn1@, s).connections);
    assert(nn@.biases =~= scaled_parameters(nn1@, s).biases);
    nn
}

/// Runs the network on one input row, which must be as wide as the first
/// layer.
///
/// The input is normalized. Each transition multiplies by the weights and
/// adds the bias row; the result is normalized, except after the last
/// transition, and rectified after every one.
pub fn feedforward(nn: &NN, input: &Matrix) -> (r: Result<Matrix, Error>)
    requires
        nn.wf(),
        input.wf(),
    ensures
        input.rows == 1 && input.columns == nn.topology@[0] ==> r is Ok && r.unwrap().wf()
            && r.unwrap().rows == 1 && r.unwrap().columns == nn.topology@[nn.topology@.len() - 1]
            && r.unwrap()@ == forward(nn@, input@),
        input.rows != 1 || input.columns != nn.topology@[0] ==> r == Err::<Matrix, Error>(
            Error::DimensionMismatch,
        ),
{
    if input.columns != nn.topology[0] || input.rows != 1 {
        return Err(Error::DimensionMismatch);
    }
    let count: usize = nn.connections.len();
    let mut current: Matrix = crate::matrix::normalize(input);
    let mut i: usize = 0;
    while i < count
        invariant
            nn.wf(),
            count == nn.connections@.len(),
            i <= count,
            current.wf(),
            current.rows == 1,
            current.columns == nn.topology@[i as int],
            current@ == forward_through(nn@, input@, i as nat),
        decreases count - i,
    {
        let weights: &Matrix = &nn.connections[i];
        let bias: &Matrix = &nn.biases[i];
        let product = match crate::matrix::multiply(&current, weights) {
            Ok(m) => m,
            Err(e) => {
                return Err(e);
            },
        };
        let raw = match crate::matrix::add(&product, bias) {
            Ok(m) => m,
            Err(e) => {
                return Err(e);
            },
        };
        let last: bool = i == count - 1;
        if last {
            current = crate::matrix::activate(&raw);
        } else {
            let leveled = crate::matrix::normalize(&raw);
            current = crate::matrix::activate(&leveled);
        }
        i = i + 1;
        assert(nn@.connections[i - 1] == weights@);
        assert(nn@.biases[i - 1] == bias@);
    }
    Ok(current)
}

/// The number of weights and biases of a network of the given topology,
/// unless it is too large for the machine.
pub fn parameter_count_of(topology: &Vec<usize>) -> (r: Option<usize>)
    requires
        topology@.len() >= 1,
    ensures
        parameter_count(topology@) <= usize::MAX ==> r == Some(parameter_count(topology@) as usize),
        parameter_count(topology@) > usize::MAX ==> r is None,
{
    let ghost last = (topology@.len() - 1) as nat;
    let mut weights: usize = 0;
    let mut biases: usize = 0;
    let mut i: usize = 1;
    while i < topology.len()
        invariant
            1 <= i <= topology@.len(),
            last == topology@.len() - 1,
            weights == weight_count(topology@, (i - 1) as nat),
            biases == bias_count(topology@, (i - 1) as nat),
        decreases topology@.len() - i,
    {
        let rows: usize = topology[i - 1];
        let columns: usize = topology[i];
        assert(rows * columns <= 0xffff_ffff_ffff_ffff * 0xffff_ffff_ffff_ffff) by (nonlinear_arith)
            requires
                rows <= 0xffff_ffff_ffff_ffff,
                columns <= 0xffff_ffff_ffff_ffff,
        ;
        let more: u128 = (weights as u128) + (rows as u128) * (columns as u128);
        let more_biases: u128 = (biases as u128) + (columns as u128);
        proof {
            lemma_counts_grow(topology@, i as nat, last);
        }
        if more > usize::MAX as u128 || more_biases > usize::MAX as u128 {
            return None;
        }
        weights = more as usize;
        biases = more_biases as usize;
        i = i + 1;
    }
    let total: u128 = (weights as u128) + (biases as u128);
    if total > usize::MAX as u128 {
        None
    } else {
        Some(total as usize)
    }
}

/// A network filled with draws from a standard normal source: the weight
/// matrices first, each row by row, and the bias rows after them. The caller
/// supplies the draws, one for each parameter.
pub fn new_gaussian_noise(topology: Vec<usize>, draws: &Vec<u64>) -> (r: Result<NN, Error>)
    requires
        valid_topology(topology@),
    ensures
        draws@.len() == parameter_count(topology@) ==> r is Ok && r.unwrap().wf() && r.unwrap()@
            == drawn_parameters(topology@, draws@),
        draws@.len() != parameter_count(topology@) ==> r == Err::<NN, Error>(Error::ShapeMismatch),
{
    let given: usize = draws.len();
    match parameter_count_of(&topology) {
        Some(count) => {
            if count != given {
                return Err(Error::ShapeMismatch);
            }
        },
        None => {
            return Err(Error::ShapeMismatch);
        },
    }
    let ghost last = (topology@.len() - 1) as nat;
    let mut connections: Vec<Matrix> = Vec::new();
    let mut biases: Vec<Matrix> = Vec::new();
    let mut next: usize = 0;
    let mut i: usize = 1;
    while i < topology.len()
        invariant
            1 <= i <= topology@.len(),
            last == topology@.len() - 1,
            draws.len() == parameter_count(topology@),
            next == weight_count(topology@, (i - 1) as nat),
            connections@.len() == i - 1,
            forall|k: int|
                0 <= k < i - 1 ==> {
                    &&& (#[trigger] connections@[k]).wf()
                    &&& connections@[k].rows == topology@[k]
                    &&& connections@[k].columns == topology@[k + 1]
                    &&& connections@[k]@ == drawn_grid(
                        topology@[k] as nat,
                        topology@[k + 1] as nat,
                        draws@,
                        weight_count(topology@, k as nat) as int,
                    )
                },
        decreases topology@.len() - i,
    {
        proof {
            lemma_counts_grow(topology@, i as nat, last);
        }
        connections.push(crate::matrix::from_draws(topology[i - 1], topology[i], draws, next));
        next = next + topology[i - 1] * topology[i];
        i = i + 1;
    }
    let mut i: usize = 1;
    while i < topology.len()
        invariant
            1 <= i <= topology@.len(),
            last == topology@.len() - 1,
            draws.len() == parameter_count(topology@),
            next == weight_count(topology@, last) + bias_count(topology@, (i - 1) as nat),
            biases@.len() == i - 1,
            forall|k: int|
                0 <= k < i - 1 ==> {
                    &&& (#[trigger] biases@[k]).wf()
                    &&& biases@[k].rows == 1
                    &&& biases@[k].columns == topology@[k + 1]
                    &&& biases@[k]@ == drawn_grid(
                        1,
                        topology@[k + 1] as nat,
                        draws@,
                        (weight_count(topology@, last) + bias_count(topology@, k as nat)) as int,
                    )
                },
        decreases topology@.len() - i,
    {
        proof {
            lemma_counts_grow(topology@, i as nat, last);
            assert(1 * topology@[i as int] == topology@[i as int]) by (nonlinear_arith);
        }
        biases.push(crate::matrix::from_draws(1, topology[i], draws, next));
        next = next + topology[i];
        i = i + 1;
    }
    let nn = NN { topology, connections, biases };
    assert(nn@.connections =~= drawn_parameters(topology@, draws@).connections);
    assert(nn@.biases =~= drawn_parameters(topology@, draws@).biases);
    Ok(nn)
}

/// No weight and no bias is an infinity or a NaN.
pub open spec fn all_finite_parameters(p: Parameters) -> bool {
    &&& forall|i: int| 0 <= i < p.connections.len() ==> all_finite(#[trigger] p.connections[i])
    &&& forall|i: int| 0 <= i < p.biases.len() ==> all_finite(#[trigger] p.biases[i])
}

} // verus!
