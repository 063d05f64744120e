//! What holds of matrices, networks and generations for all inputs.

use crate::binary64::accuracy::{distance, lemma_add_then_subtract_value, signed_units};
use crate::binary64::addition::{difference, lemma_sum_commutes, sum};
use crate::binary64::conversion::from_integer;
use crate::binary64::division::quotient;
use crate::binary64::laws::{
    lemma_centered_on_itself, lemma_count_one, lemma_difference_with_itself,
    lemma_product_commutes, lemma_product_with_one, lemma_product_with_zero, lemma_sum_of_zeros,
    lemma_sum_with_zero_multiple, lemma_zero_plus,
};
use crate::binary64::multiplication::product;
use crate::binary64::power::{bit_length, lemma_bit_length_bounds};
use crate::binary64::rounding::dropped_bits;
use crate::binary64::{
    at_least_zero, is_finite, is_nan, is_negative, is_zero, scale, with_sign, ONE, ZERO,
};
use crate::matrix::{
    activated_grid, activated_grid_with, all_finite, deviation_of, difference_grid, dot,
    entry_count, grid_deviation, grid_total, has_shape, leaky, leaky_with, mean_of,
    normalized_grid, nowhere_negative, product_grid, row_deviation, row_total, scaled_grid,
    squared_deviation, standardized, sum_grid, variance_of, zero_grid,
};
use crate::nn::{
    all_finite_parameters, forward, forward_through, layer_output, scaled_parameters,
    sum_parameters, valid_topology, zero_parameters, Parameters, NN,
};
use crate::trainer::{advanced, combined, started, step_of, weighted_total, Settings};
use vstd::arithmetic::power2::{lemma2_to64_rest, pow2};
use vstd::prelude::*;

verus! {

/// The sum of two matrices of one shape does not depend on their order.
pub proof fn lemma_sum_grid_commutes(a: Seq<Seq<u64>>, b: Seq<Seq<u64>>, rows: nat, columns: nat)
    requires
        has_shape(a, rows, columns),
        has_shape(b, rows, columns),
    ensures
        sum_grid(a, b) == sum_grid(b, a),
{
    assert forall|i: int| 0 <= i < rows implies sum_grid(a, b)[i] == sum_grid(b, a)[i] by {
        assert(a[i].len() == b[i].len());
        assert forall|j: int| 0 <= j < columns implies sum_grid(a, b)[i][j] == sum_grid(b, a)[i][j] by {
            lemma_sum_commutes(a[i][j], b[i][j]);
        }
        assert(sum_grid(a, b)[i] =~= sum_grid(b, a)[i]);
    }
    assert(sum_grid(a, b) =~= sum_grid(b, a));
}

/// Adding a matrix of finite entries scaled by `+0.0` to it changes
/// nothing.
pub proof fn lemma_zero_multiple_is_neutral(a: Seq<Seq<u64>>)
    requires
        all_finite(a),
    ensures
        sum_grid(a, scaled_grid(a, ZERO)) == a,
{
    let r = sum_grid(a, scaled_grid(a, ZERO));
    assert forall|i: int| 0 <= i < a.len() implies r[i] == a[i] by {
        assert forall|j: int| 0 <= j < a[i].len() implies r[i][j] == a[i][j] by {
            assert(is_finite(a[i][j]));
            lemma_sum_with_zero_multiple(a[i][j]);
        }
        assert(r[i] =~= a[i]);
    }
    assert(r =~= a);
}

/// Adding a matrix and subtracting it again gives the first matrix back up
/// to the two roundings: as long as nothing overflows, every entry lies
/// within half a unit in the last place of the sum, plus half a unit in its
/// own last place, of the entry that it started from.
pub proof fn lemma_add_then_subtract(a: Seq<Seq<u64>>, b: Seq<Seq<u64>>, rows: nat, columns: nat)
    requires
        has_shape(a, rows, columns),
        has_shape(b, rows, columns),
        all_finite(a),
        all_finite(b),
        all_finite(sum_grid(a, b)),
        all_finite(difference_grid(sum_grid(a, b), b)),
    ensures
        has_shape(difference_grid(sum_grid(a, b), b), rows, columns),
        forall|i: int, j: int|
            0 <= i < rows && 0 <= j < columns ==> 2 * distance(
                signed_units(#[trigger] difference_grid(sum_grid(a, b), b)[i][j]),
                signed_units(a[i][j]),
            ) <= pow2(scale(sum_grid(a, b)[i][j])) + pow2(
                scale(difference_grid(sum_grid(a, b), b)[i][j]),
            ),
{
    let total = sum_grid(a, b);
    let back = difference_grid(total, b);
    assert forall|i: int| 0 <= i < rows implies (#[trigger] back[i]).len() == columns by {
        assert(a[i].len() == columns);
        assert(total[i].len() == columns);
    }
    assert forall|i: int, j: int| 0 <= i < rows && 0 <= j < columns implies 2 * distance(
        signed_units(#[trigger] back[i][j]),
        signed_units(a[i][j]),
    ) <= pow2(scale(total[i][j])) + pow2(scale(back[i][j])) by {
        assert(a[i].len() == columns && b[i].len() == columns);
        assert(total[i][j] == sum(a[i][j], b[i][j]));
        assert(back[i][j] == difference(total[i][j], b[i][j]));
        assert(is_finite(a[i][j]));
        assert(is_finite(b[i][j]));
        assert(is_finite(total[i][j]));
        assert(is_finite(back[i][j]));
        lemma_add_then_subtract_value(a[i][j], b[i][j]);
    }
}

/// The rectifier leaves a matrix without negative entries as it is, so
/// that applying it once more changes nothing either.
pub proof fn lemma_activation_fixes_nonnegative(a: Seq<Seq<u64>>, leak: u64)
    requires
        nowhere_negative(a),
    ensures
        activated_grid_with(a, leak) == a,
        activated_grid_with(activated_grid_with(a, leak), leak) == activated_grid_with(a, leak),
{
    let r = activated_grid_with(a, leak);
    assert forall|i: int| 0 <= i < a.len() implies r[i] == a[i] by {
        assert forall|j: int| 0 <= j < a[i].len() implies r[i][j] == a[i][j] by {
            assert(at_least_zero(a[i][j]));
        }
        assert(r[i] =~= a[i]);
    }
    assert(r =~= a);
}

/// The rectifier multiplies what is below zero by the leak coefficient, and
/// changes the sign of no value.
pub proof fn lemma_leaky_keeps_sign(v: u64, leak: u64)
    requires
        !is_nan(v),
        0 < leak < crate::binary64::INFINITY,
    ensures
        !at_least_zero(v) ==> leaky_with(v, leak) == product(leak, v),
        !is_nan(leaky_with(v, leak)),
        is_negative(leaky_with(v, leak)) == is_negative(v),
{
}

/// `+0.0` plus a zero of either sign is `+0.0`.
pub proof fn lemma_zero_plus_zero(negative: bool)
    ensures
        sum(ZERO, with_sign(negative, 0)) == ZERO,
        difference(ZERO, ZERO) == ZERO,
{
    assert(ZERO == with_sign(false, 0));
    lemma_sum_of_zeros(false, negative);
    lemma_difference_with_itself(ZERO);
}

/// A positive count is a positive number.
pub proof fn lemma_count_is_positive(n: nat)
    requires
        n > 0,
    ensures
        !is_nan(from_integer(n)),
        !is_zero(from_integer(n)),
        !is_negative(from_integer(n)),
{
    lemma2_to64_rest();
    lemma_bit_length_bounds(n);
    let d = dropped_bits(n, 1074);
    assert(d == bit_length(n) - 53);
    assert(1074 + d >= 1022);
    assert((1074 + d) * pow2(52) >= 1022 * pow2(52)) by (nonlinear_arith)
        requires
            1074 + d >= 1022,
            pow2(52) > 0,
    ;
}

/// `+0.0` divided by a positive number is `+0.0`.
pub proof fn lemma_zero_over_positive(c: u64)
    requires
        !is_nan(c),
        !is_zero(c),
        !is_negative(c),
    ensures
        quotient(ZERO, c) == ZERO,
{
}

/// Every entry is `c`.
pub open spec fn constant_grid(a: Seq<Seq<u64>>, c: u64) -> bool {
    forall|i: int, j: int| 0 <= i < a.len() && 0 <= j < a[i].len() ==> #[trigger] a[i][j] == c
}

/// The squared deviations of the first `n` entries of a row of `c` from `c`
/// add nothing to `+0.0`.
pub proof fn lemma_constant_row_deviation(row: Seq<u64>, n: nat, c: u64)
    requires
        is_finite(c),
        forall|i: int| 0 <= i < n ==> #[trigger] row[i] == c,
    ensures
        row_deviation(ZERO, row, n, c) == ZERO,
    decreases n,
{
    if n > 0 {
        lemma_constant_row_deviation(row, (n - 1) as nat, c);
        assert(row[n - 1] == c);
        lemma_difference_with_itself(c);
        lemma_product_with_zero(ZERO);
        lemma_sum_of_zeros(false, false);
        assert(with_sign(false, 0) == ZERO);
        assert(squared_deviation(c, c) == ZERO);
    }
}

/// The squared deviations of the first `k` rows of a matrix of `c` from
/// `c` add up to `+0.0`.
pub proof fn lemma_constant_grid_deviation(a: Seq<Seq<u64>>, k: nat, c: u64)
    requires
        is_finite(c),
        constant_grid(a, c),
        k <= a.len(),
    ensures
        grid_deviation(a, k, c) == ZERO,
    decreases k,
{
    if k > 0 {
        lemma_constant_grid_deviation(a, (k - 1) as nat, c);
        let row = a[k - 1];
        assert forall|j: int| 0 <= j < row.len() implies #[trigger] row[j] == c by {
            assert(a[k - 1][j] == c);
        }
        lemma_constant_row_deviation(row, row.len(), c);
    }
}

/// A matrix whose entries all are one finite value has deviation `+0.0`
/// about that value, so that normalizing it divides nothing: where the mean
/// comes out as that value, every entry becomes `+0.0`.
pub proof fn lemma_normalized_constant(a: Seq<Seq<u64>>, rows: nat, columns: nat, c: u64)
    requires
        has_shape(a, rows, columns),
        rows > 0,
        columns > 0,
        is_finite(c),
        constant_grid(a, c),
        mean_of(a) == c,
    ensures
        variance_of(a, c) == ZERO,
        deviation_of(a) == ZERO,
        normalized_grid(a) == zero_grid(rows, columns),
{
    assert(a[0].len() == columns);
    assert(entry_count(a) > 0) by (nonlinear_arith)
        requires
            entry_count(a) == rows * columns,
            rows > 0,
            columns > 0,
    ;
    lemma_constant_grid_deviation(a, rows, c);
    lemma_count_is_positive(entry_count(a));
    lemma_zero_over_positive(from_integer(entry_count(a)));
    lemma_centered_on_itself(c);
    assert(standardized(c, c, ZERO) == ZERO);
    let r = normalized_grid(a);
    let z = zero_grid(rows, columns);
    assert forall|i: int| 0 <= i < rows implies r[i] == z[i] by {
        assert(a[i].len() == columns);
        assert forall|j: int| 0 <= j < columns implies r[i][j] == z[i][j] by {
            assert(a[i][j] == c);
        }
        assert(r[i] =~= z[i]);
    }
    assert(r =~= z);
}

/// The sum of two networks of one topology does not depend on their order.
pub proof fn lemma_add_commutes(nn1: NN, nn2: NN)
    requires
        nn1.wf(),
        nn2.wf(),
        nn1.topology@ == nn2.topology@,
    ensures
        sum_parameters(nn1@, nn2@) == sum_parameters(nn2@, nn1@),
{
    let left = sum_parameters(nn1@, nn2@);
    let right = sum_parameters(nn2@, nn1@);
    assert forall|i: int| 0 <= i < left.connections.len() implies left.connections[i]
        == right.connections[i] by {
        assert(nn1.connections@[i].wf() && nn2.connections@[i].wf());
        lemma_sum_grid_commutes(
            nn1@.connections[i],
            nn2@.connections[i],
            nn1.topology@[i] as nat,
            nn1.topology@[i + 1] as nat,
        );
    }
    assert forall|i: int| 0 <= i < left.biases.len() implies left.biases[i] == right.biases[i] by {
        assert(nn1.biases@[i].wf() && nn2.biases@[i].wf());
        lemma_sum_grid_commutes(nn1@.biases[i], nn2@.biases[i], 1, nn1.topology@[i + 1] as nat);
    }
    assert(left.connections =~= right.connections);
    assert(left.biases =~= right.biases);
}

/// Adding to a network of finite parameters the same network scaled by
/// `+0.0` gives the network again.
pub proof fn lemma_network_zero_multiple_is_neutral(nn: NN)
    requires
        nn.wf(),
        all_finite_parameters(nn@),
    ensures
        sum_parameters(nn@, scaled_parameters(nn@, ZERO)) == nn@,
{
    let p = nn@;
    let r = sum_parameters(p, scaled_parameters(p, ZERO));
    assert forall|i: int| 0 <= i < p.connections.len() implies r.connections[i]
        == p.connections[i] by {
        assert(all_finite(p.connections[i]));
        lemma_zero_multiple_is_neutral(p.connections[i]);
    }
    assert forall|i: int| 0 <= i < p.biases.len() implies r.biases[i] == p.biases[i] by {
        assert(all_finite(p.biases[i]));
        lemma_zero_multiple_is_neutral(p.biases[i]);
    }
    assert(r.connections =~= p.connections);
    assert(r.biases =~= p.biases);
}

/// With weights that are all `+0.0`, a dot product with a finite row is
/// `+0.0`.
pub proof fn lemma_dot_with_zero_weights(row: Seq<u64>, b: Seq<Seq<u64>>, j: int, k: nat)
    requires
        forall|i: int| 0 <= i < k ==> is_finite(#[trigger] row[i]),
        forall|i: int| 0 <= i < k ==> (#[trigger] b[i])[j] == ZERO,
    ensures
        dot(row, b, j, k) == ZERO,
    decreases k,
{
    if k > 0 {
        lemma_dot_with_zero_weights(row, b, j, (k - 1) as nat);
        assert(is_finite(row[k - 1]));
        assert(b[k - 1][j] == ZERO);
        lemma_product_with_zero(row[k - 1]);
        lemma_zero_plus_zero(is_negative(row[k - 1]));
    }
}

/// A row of `+0.0` adds up to `+0.0`, and so do its squared deviations
/// from `+0.0`.
pub proof fn lemma_zero_row_totals(row: Seq<u64>, n: nat)
    requires
        forall|i: int| 0 <= i < n ==> #[trigger] row[i] == ZERO,
    ensures
        row_total(ZERO, row, n) == ZERO,
        row_deviation(ZERO, row, n, ZERO) == ZERO,
    decreases n,
{
    if n > 0 {
        lemma_zero_row_totals(row, (n - 1) as nat);
        assert(row[n - 1] == ZERO);
        lemma_zero_plus_zero(false);
        assert(with_sign(false, 0) == ZERO);
        lemma_product_with_zero(ZERO);
        assert(squared_deviation(ZERO, ZERO) == ZERO);
    }
}

/// Normalizing a row of `+0.0` leaves it as it is: mean and deviation are
/// `+0.0`, and nothing is divided.
pub proof fn lemma_normalized_zero_row(width: nat)
    requires
        width > 0,
    ensures
        normalized_grid(zero_grid(1, width)) == zero_grid(1, width),
{
    let g = zero_grid(1, width);
    assert(g[0].len() == width);
    assert(entry_count(g) == width) by (nonlinear_arith)
        requires
            entry_count(g) == 1 * width,
    ;
    lemma_zero_row_totals(g[0], width);
    assert(grid_total(g, 0) == ZERO);
    assert(grid_total(g, 1) == row_total(grid_total(g, 0), g[0], g[0].len()));
    assert(grid_deviation(g, 0, ZERO) == ZERO);
    assert(grid_deviation(g, 1, ZERO) == row_deviation(
        grid_deviation(g, 0, ZERO),
        g[0],
        g[0].len(),
        ZERO,
    ));
    lemma_count_is_positive(width);
    lemma_zero_over_positive(from_integer(width));
    assert(mean_of(g) == ZERO);
    assert(variance_of(g, ZERO) == ZERO);
    assert(deviation_of(g) == ZERO);
    lemma_zero_plus_zero(false);
    assert(with_sign(false, 0) == ZERO);
    assert(standardized(ZERO, ZERO, ZERO) == ZERO);
    let r = normalized_grid(g);
    assert forall|j: int| 0 <= j < width implies r[0][j] == g[0][j] by {
        assert(g[0][j] == ZERO);
    }
    assert(r[0] =~= g[0]);
    assert(r =~= g);
}

/// A transition whose weights and biases are all `+0.0` turns a finite row
/// into a row of `+0.0`.
pub proof fn lemma_zero_layer(x: Seq<Seq<u64>>, inputs: nat, width: nat, last: bool)
    requires
        has_shape(x, 1, inputs),
        all_finite(x),
        width > 0,
    ensures
        layer_output(x, zero_grid(inputs, width), zero_grid(1, width), width, last) == zero_grid(
            1,
            width,
        ),
{
    let w = zero_grid(inputs, width);
    let bias = zero_grid(1, width);
    let z = zero_grid(1, width);
    let p = product_grid(x, w, width);
    assert(x[0].len() == inputs);
    assert forall|j: int| 0 <= j < width implies p[0][j] == ZERO by {
        assert forall|i: int| 0 <= i < inputs implies is_finite(#[trigger] x[0][i]) by {}
        assert forall|i: int| 0 <= i < inputs implies (#[trigger] w[i])[j] == ZERO by {}
        lemma_dot_with_zero_weights(x[0], w, j, inputs);
    }
    let raw = sum_grid(p, bias);
    lemma_zero_plus_zero(false);
    assert(with_sign(false, 0) == ZERO);
    assert forall|j: int| 0 <= j < width implies raw[0][j] == ZERO by {
        assert(p[0][j] == ZERO);
        assert(bias[0][j] == ZERO);
    }
    assert(raw[0] =~= z[0]);
    assert(raw =~= z);
    lemma_normalized_zero_row(width);
    assert(leaky(ZERO) == ZERO);
    assert forall|j: int| 0 <= j < width implies activated_grid(z)[0][j] == z[0][j] by {
        assert(z[0][j] == ZERO);
    }
    assert(activated_grid(z)[0] =~= z[0]);
    assert(activated_grid(z) =~= z);
}

/// After at least one transition of a network whose weights and biases are
/// all `+0.0`, the activations are all `+0.0`.
pub proof fn lemma_zero_network_through(topology: Seq<usize>, input: Seq<Seq<u64>>, layers: nat)
    requires
        valid_topology(topology),
        has_shape(input, 1, topology[0] as nat),
        all_finite(normalized_grid(input)),
        1 <= layers <= topology.len() - 1,
    ensures
        forward_through(zero_parameters(topology), input, layers) == zero_grid(
            1,
            topology[layers as int] as nat,
        ),
    decreases layers,
{
    let p = zero_parameters(topology);
    let before = forward_through(p, input, (layers - 1) as nat);
    let inputs = topology[layers - 1] as nat;
    let width = topology[layers as int] as nat;
    if layers == 1 {
        assert(before == normalized_grid(input));
        assert(input[0].len() == inputs);
        assert(before[0].len() == inputs);
    } else {
        lemma_zero_network_through(topology, input, (layers - 1) as nat);
        assert(before == zero_grid(1, inputs));
        assert(before[0].len() == inputs);
        assert forall|i: int, j: int|
            0 <= i < before.len() && 0 <= j < before[i].len() implies is_finite(
            #[trigger] before[i][j],
        ) by {
            assert(before[i][j] == ZERO);
        }
    }
    assert(topology[layers as int] > 0);
    assert(p.connections[layers - 1] == zero_grid(inputs, width));
    assert(p.biases[layers - 1] == zero_grid(1, width));
    lemma_zero_layer(before, inputs, width, layers == p.connections.len());
}

/// A network whose weights and biases are all `+0.0` answers `+0.0` on
/// every output to every input row that normalizes to finite values.
pub proof fn lemma_zero_network_answers_zero(topology: Seq<usize>, input: Seq<Seq<u64>>)
    requires
        valid_topology(topology),
        has_shape(input, 1, topology[0] as nat),
        all_finite(normalized_grid(input)),
    ensures
        forward(zero_parameters(topology), input) == zero_grid(
            1,
            topology[topology.len() - 1] as nat,
        ),
{
    lemma_zero_network_through(topology, input, (topology.len() - 1) as nat);
}

/// No entry is a NaN or `-0.0`.
pub open spec fn plain_grid(a: Seq<Seq<u64>>) -> bool {
    forall|i: int, j: int|
        0 <= i < a.len() && 0 <= j < a[i].len() ==> !is_nan(#[trigger] a[i][j]) && a[i][j]
            != with_sign(true, 0)
}

/// No weight and no bias is a NaN or `-0.0`.
pub open spec fn plain_parameters(p: Parameters) -> bool {
    &&& forall|i: int| 0 <= i < p.connections.len() ==> plain_grid(#[trigger] p.connections[i])
    &&& forall|i: int| 0 <= i < p.biases.len() ==> plain_grid(#[trigger] p.biases[i])
}

/// The all-zero matrix plus a matrix of its shape, weighted by `1.0`, is
/// that matrix, as long as it holds no NaN and no `-0.0`.
pub proof fn lemma_zero_plus_grid(a: Seq<Seq<u64>>, rows: nat, columns: nat)
    requires
        has_shape(a, rows, columns),
        plain_grid(a),
    ensures
        sum_grid(zero_grid(rows, columns), a) == a,
        sum_grid(zero_grid(rows, columns), scaled_grid(a, ONE)) == a,
{
    let z = zero_grid(rows, columns);
    let plain = sum_grid(z, a);
    let weighted = sum_grid(z, scaled_grid(a, ONE));
    assert forall|i: int| 0 <= i < rows implies plain[i] == a[i] && weighted[i] == a[i] by {
        assert(a[i].len() == columns);
        assert forall|j: int| 0 <= j < columns implies plain[i][j] == a[i][j] && weighted[i][j]
            == a[i][j] by {
            assert(!is_nan(a[i][j]));
            lemma_product_with_one(a[i][j]);
            lemma_zero_plus(a[i][j]);
        }
        assert(plain[i] =~= a[i]);
        assert(weighted[i] =~= a[i]);
    }
    assert(plain =~= a);
    assert(weighted =~= a);
}

/// With one worker that scores one candidate, and with fitness `1.0`, the
/// total of the generation is the noise itself and the step is the learning
/// rate over the noise deviation: the network moves by the noise times
/// that quotient. The noise must hold no NaN and no `-0.0`, and the noise
/// deviation must be no NaN.
pub proof fn lemma_single_sample_update(current: NN, noise: NN, settings: Settings)
    requires
        current.wf(),
        noise.wf(),
        current.topology@ == noise.topology@,
        plain_parameters(noise@),
        settings.population == 1,
        settings.workers == 1,
        !is_nan(settings.noise_deviation),
    ensures
        weighted_total(current.topology@, seq![noise@], seq![ONE], 1) == noise@,
        combined(current.topology@, seq![noise@], 1) == noise@,
        step_of(settings) == quotient(settings.learning_rate, settings.noise_deviation),
        advanced(started(current@), seq![noise@], settings).parameters == sum_parameters(
            current@,
            scaled_parameters(
                noise@,
                quotient(settings.learning_rate, settings.noise_deviation),
            ),
        ),
{
    let t = current.topology@;
    let p = noise@;
    let z = zero_parameters(t);
    let weighted = sum_parameters(z, scaled_parameters(p, ONE));
    let summed = sum_parameters(z, p);
    assert forall|i: int| 0 <= i < p.connections.len() implies weighted.connections[i]
        == p.connections[i] && summed.connections[i] == p.connections[i] by {
        assert(noise.connections@[i].wf());
        assert(plain_grid(p.connections[i]));
        lemma_zero_plus_grid(p.connections[i], t[i] as nat, t[i + 1] as nat);
    }
    assert forall|i: int| 0 <= i < p.biases.len() implies weighted.biases[i] == p.biases[i]
        && summed.biases[i] == p.biases[i] by {
        assert(noise.biases@[i].wf());
        assert(plain_grid(p.biases[i]));
        lemma_zero_plus_grid(p.biases[i], 1, t[i + 1] as nat);
    }
    assert(weighted.connections =~= p.connections);
    assert(weighted.biases =~= p.biases);
    assert(summed.connections =~= p.connections);
    assert(summed.biases =~= p.biases);
    assert(weighted == p);
    assert(summed == p);
    let noises = seq![p];
    let fitness = seq![ONE];
    assert(weighted_total(t, noises, fitness, 0) == z);
    assert(weighted_total(t, noises, fitness, 1) == sum_parameters(
        weighted_total(t, noises, fitness, 0),
        scaled_parameters(noises[0], fitness[0]),
    ));
    assert(combined(t, noises, 0) == z);
    assert(combined(t, noises, 1) == sum_parameters(combined(t, noises, 0), noises[0]));
    assert(settings.population * settings.workers == 1) by (nonlinear_arith)
        requires
            settings.population == 1,
            settings.workers == 1,
    ;
    lemma_count_one();
    lemma_product_commutes(ONE, settings.noise_deviation);
    lemma_product_with_one(settings.noise_deviation);
}

} // verus!
