//! The exclusive-or task: a network with two inputs and two outputs is to
//! make its first output the larger for equal inputs and its second output
//! the larger for unequal ones.

use crate::binary64::addition::{difference, minus, plus, sum};
use crate::binary64::comparison::{at_most, check_at_most};
use crate::binary64::{ONE, ZERO};
use crate::matrix::{entry, Matrix};
use crate::nn::{feedforward, forward, Parameters, NN};
use vstd::prelude::*;

verus! {

/// The input row `[a, b]`.
pub open spec fn input_row(a: u64, b: u64) -> Seq<Seq<u64>> {
    seq![seq![a, b]]
}

/// By how much the wanted output exceeds the other one for the input
/// `[a, b]`.
pub open spec fn margin(p: Parameters, a: u64, b: u64, wanted: int) -> u64 {
    let output = forward(p, input_row(a, b));
    difference(output[0][wanted], output[0][1 - wanted])
}

/// Whether the wanted output is strictly the larger one for the input
/// `[a, b]`.
pub open spec fn decides(p: Parameters, a: u64, b: u64, wanted: int) -> bool {
    let output = forward(p, input_row(a, b));
    !at_most(output[0][wanted], output[0][1 - wanted])
}

/// The fitness: the four margins added up from `+0.0`, in the order of the
/// inputs `[0, 0]`, `[1, 0]`, `[0, 1]`, `[1, 1]`.
pub open spec fn fitness(p: Parameters) -> u64 {
    sum(
        sum(sum(sum(ZERO, margin(p, ZERO, ZERO, 0)), margin(p, ONE, ZERO, 1)), margin(p, ZERO, ONE, 1)),
        margin(p, ONE, ONE, 0),
    )
}

/// Whether the network decides all four inputs rightly.
pub open spec fn solves(p: Parameters) -> bool {
    &&& decides(p, ZERO, ZERO, 0)
    &&& decides(p, ONE, ZERO, 1)
    &&& decides(p, ZERO, ONE, 1)
    &&& decides(p, ONE, ONE, 0)
}

/// A network that the task can be put to: two inputs, two outputs.
pub open spec fn fits(nn: &NN) -> bool {
    &&& nn.wf()
    &&& nn.topology@[0] == 2
    &&& nn.topology@[nn.topology@.len() - 1] == 2
}

/// Whether the task can be put to the network.
pub fn check_fits(nn: &NN) -> (r: bool)
    ensures
        r == fits(nn),
{
    if !crate::nn::is_well_formed(nn) {
        return false;
    }
    nn.topology[0] == 2 && nn.topology[nn.topology.len() - 1] == 2
}

/// The one-row matrix `[a, b]`.
fn input_of(a: u64, b: u64) -> (m: Matrix)
    ensures
        m.wf(),
        m.rows == 1,
        m.columns == 2,
        m@ == input_row(a, b),
{
    let mut row: Vec<u64> = Vec::new();
    row.push(a);
    row.push(b);
    let mut value: Vec<Vec<u64>> = Vec::new();
    value.push(row);
    let m = Matrix { value, rows: 1, columns: 2 };
    assert(m@[0] =~= seq![a, b]);
    assert(m@ =~= input_row(a, b));
    m
}

/// The margin for one input, and whether the network decides it rightly.
fn judge(nn: &NN, a: u64, b: u64, wanted: usize) -> (r: (u64, bool))
    requires
        fits(nn),
        wanted <= 1,
    ensures
        r.0 == margin(nn@, a, b, wanted as int),
        r.1 == decides(nn@, a, b, wanted as int),
{
    let input = input_of(a, b);
    match feedforward(nn, &input) {
        Ok(output) => {
            let right: u64 = entry(&output, 0, wanted);
            let wrong: u64 = entry(&output, 0, 1 - wanted);
            (minus(right, wrong), !check_at_most(right, wrong))
        },
        Err(_) => (ZERO, false),
    }
}

/// The fitness of a network on the task, and whether it solves it.
pub fn score(nn: &NN) -> (r: (u64, bool))
    requires
        fits(nn),
    ensures
        r.0 == fitness(nn@),
        r.1 == solves(nn@),
{
    let (m00, p00) = judge(nn, ZERO, ZERO, 0);
    let (m10, p10) = judge(nn, ONE, ZERO, 1);
    let (m01, p01) = judge(nn, ZERO, ONE, 1);
    let (m11, p11) = judge(nn, ONE, ONE, 0);
    let total: u64 = plus(plus(plus(plus(ZERO, m00), m10), m01), m11);
    (total, p00 && p10 && p01 && p11)
}

} // verus!
