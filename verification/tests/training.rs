//! Generations of the evolution strategy, and the task they train for.

use evo_nn::binary64::{ONE, ZERO};
use evo_nn::error::Error;
use evo_nn::matrix;
use evo_nn::matrix::Matrix;
use evo_nn::nn;
use evo_nn::nn::NN;
use evo_nn::trainer;
use evo_nn::trainer::{Phase, Settings};
use evo_nn::xor;
use rand::rngs::StdRng;
use rand::{Rng, SeedableRng};
use rand_distr::StandardNormal;

fn noise_network(topology: &[usize], seed: u64) -> NN {
    let mut rng = StdRng::seed_from_u64(seed);
    let count = nn::parameter_count_of(&topology.to_vec()).unwrap();
    let draws: Vec<u64> =
        (0..count).map(|_| rng.sample::<f64, _>(StandardNormal).to_bits()).collect();
    nn::new_gaussian_noise(topology.to_vec(), &draws).unwrap()
}

fn matrices(net: &NN) -> Vec<&Matrix> {
    net.connections.iter().chain(net.biases.iter()).collect()
}

fn parameters(net: &NN) -> Vec<f64> {
    matrices(net)
        .iter()
        .flat_map(|m| m.value.iter().flat_map(|r| r.iter().map(|v| f64::from_bits(*v))))
        .collect()
}

fn settings(learning_rate: f64, noise_deviation: f64, population: usize, workers: usize) -> Settings {
    Settings {
        learning_rate: learning_rate.to_bits(),
        noise_deviation: noise_deviation.to_bits(),
        population,
        workers,
    }
}

#[test]
fn the_step_is_the_learning_rate_over_population_and_deviation() {
    let s = settings(0.01, 0.1, 100, 8);
    assert_eq!(f64::from_bits(trainer::step_size(&s)), 0.01 / ((100 * 8) as f64 * 0.1));
    let s = settings(0.5, 0.25, 1, 1);
    assert_eq!(f64::from_bits(trainer::step_size(&s)), 2.0);
}

#[test]
fn settings_are_checked() {
    assert!(trainer::is_valid_settings(&settings(0.01, 0.1, 100, 8)));
    assert!(!trainer::is_valid_settings(&settings(0.01, 0.1, 0, 8)));
    assert!(!trainer::is_valid_settings(&settings(0.01, 0.1, 100, 0)));
    assert!(!trainer::is_valid_settings(&settings(0.0, 0.1, 100, 8)));
    assert!(!trainer::is_valid_settings(&settings(-0.01, 0.1, 100, 8)));
    assert!(!trainer::is_valid_settings(&settings(0.01, 0.0, 100, 8)));
    assert!(!trainer::is_valid_settings(&settings(0.01, f64::INFINITY, 100, 8)));
    assert!(!trainer::is_valid_settings(&settings(f64::NAN, 0.1, 100, 8)));
}

#[test]
fn a_candidate_is_the_current_network_plus_scaled_noise() {
    let current = noise_network(&[2, 4, 4, 2], 1);
    let noise = noise_network(&[2, 4, 4, 2], 2);
    let candidate = trainer::perturb(&current, &noise, 0.1f64.to_bits()).unwrap();
    let expected: Vec<f64> = parameters(&current)
        .iter()
        .zip(parameters(&noise).iter())
        .map(|(c, n)| c + n * 0.1)
        .collect();
    assert_eq!(parameters(&candidate), expected);
    let other = noise_network(&[2, 3, 2], 3);
    assert_eq!(trainer::perturb(&current, &other, ONE).err(), Some(Error::TopologyMismatch));
}

#[test]
fn a_worker_adds_up_its_noise_weighted_by_fitness() {
    let current = noise_network(&[2, 3, 1], 1);
    let noises = vec![noise_network(&[2, 3, 1], 2), noise_network(&[2, 3, 1], 3)];
    // The fitness is the first weight of the candidate.
    let score = |candidate: &NN| (candidate.connections[0].value[0][0], false);
    let total = trainer::worker_pass(&current, &noises, &settings(0.01, 0.5, 2, 1), &score).unwrap();
    let first = parameters(&current)[0];
    let mut expected = vec![0.0; parameters(&current).len()];
    for noise in noises.iter() {
        let fitness = first + parameters(noise)[0] * 0.5;
        for (e, n) in expected.iter_mut().zip(parameters(noise).iter()) {
            *e = *e + n * fitness;
        }
    }
    assert_eq!(parameters(&total), expected);
    assert_eq!(total.topology, vec![2, 3, 1]);
}

#[test]
fn a_worker_without_noise_hands_back_the_zero_network() {
    let current = noise_network(&[2, 3, 1], 1);
    let score = |_: &NN| (ONE, false);
    let total =
        trainer::worker_pass(&current, &Vec::new(), &settings(0.01, 1.0, 0, 1), &score).unwrap();
    assert!(parameters(&total).iter().all(|v| v.to_bits() == 0));
}

#[test]
fn a_worker_rejects_noise_of_another_topology() {
    let current = noise_network(&[2, 3, 1], 1);
    let noises = vec![noise_network(&[2, 3, 1], 2), noise_network(&[2, 2, 1], 3)];
    let score = |_: &NN| (ONE, false);
    assert_eq!(
        trainer::worker_pass(&current, &noises, &settings(0.01, 1.0, 2, 1), &score).err(),
        Some(Error::TopologyMismatch)
    );
}

#[test]
fn contributions_are_summed_from_zero() {
    let parts = vec![
        noise_network(&[2, 3, 1], 1),
        noise_network(&[2, 3, 1], 2),
        noise_network(&[2, 3, 1], 3),
    ];
    let total = trainer::combine(vec![2, 3, 1], &parts).unwrap();
    let mut expected = vec![0.0; parameters(&parts[0]).len()];
    for part in parts.iter() {
        for (e, p) in expected.iter_mut().zip(parameters(part).iter()) {
            *e = *e + p;
        }
    }
    assert_eq!(parameters(&total), expected);
    let none = trainer::combine(vec![2, 3, 1], &Vec::new()).unwrap();
    assert!(parameters(&none).iter().all(|v| v.to_bits() == 0));
    assert_eq!(trainer::combine(vec![2, 2, 1], &parts).err(), Some(Error::TopologyMismatch));
}

#[test]
fn one_sample_moves_the_network_by_the_scaled_noise() {
    // One worker, one candidate, fitness one: the update is the noise times
    // the learning rate over the deviation.
    let s = settings(0.03, 0.1, 1, 1);
    let current = noise_network(&[2, 4, 4, 2], 5);
    let noise = noise_network(&[2, 4, 4, 2], 6);
    let score = |_: &NN| (ONE, false);
    let contribution = trainer::worker_pass(&current, &vec![noise.clone()], &s, &score).unwrap();
    let total = trainer::combine(current.topology.clone(), &vec![contribution.clone()]).unwrap();
    let delta = nn::scalar(&total, trainer::step_size(&s));
    let expected: Vec<f64> = parameters(&noise).iter().map(|e| e * (0.03 / 0.1)).collect();
    assert_eq!(parameters(&delta), expected);

    let mut run = trainer::begin(current.clone(), s);
    trainer::observe(&mut run, false);
    trainer::advance(&mut run, &vec![contribution]).unwrap();
    assert_eq!(run.generation, 1);
    assert_eq!(run.phase, Phase::Training);
    let moved: Vec<f64> = parameters(&current)
        .iter()
        .zip(parameters(&noise).iter())
        .map(|(c, e)| c + e * (0.03 / 0.1))
        .collect();
    assert_eq!(parameters(&run.network), moved);
}

#[test]
fn one_sample_with_another_fitness() {
    let s = settings(0.01, 0.5, 1, 1);
    let current = noise_network(&[2, 2, 1], 8);
    let noise = noise_network(&[2, 2, 1], 9);
    let score = |_: &NN| (2.5f64.to_bits(), false);
    let contribution = trainer::worker_pass(&current, &vec![noise.clone()], &s, &score).unwrap();
    let mut run = trainer::begin(current.clone(), s);
    trainer::advance(&mut run, &vec![contribution]).unwrap();
    let step = 0.01 / (1.0 * 0.5);
    let moved: Vec<f64> = parameters(&current)
        .iter()
        .zip(parameters(&noise).iter())
        .map(|(c, e)| c + (0.0 + e * 2.5) * step)
        .collect();
    assert_eq!(parameters(&run.network), moved);
}

#[test]
fn a_scorer_that_reports_success_stops_the_run_at_once() {
    let s = settings(0.01, 0.1, 2, 2);
    let current = noise_network(&[2, 4, 4, 2], 5);
    let score = |_: &NN| (ONE, true);
    let mut run = trainer::begin(current.clone(), s);
    assert_eq!(run.generation, 0);
    assert_eq!(run.phase, Phase::Training);
    let (_, success) = score(&run.network);
    trainer::observe(&mut run, success);
    assert_eq!(run.phase, Phase::Converged);
    let noises = vec![noise_network(&[2, 4, 4, 2], 6), noise_network(&[2, 4, 4, 2], 7)];
    let part = trainer::worker_pass(&run.network, &noises, &s, &score).unwrap();
    trainer::advance(&mut run, &vec![part.clone(), part]).unwrap();
    assert_eq!(run.generation, 0);
    assert_eq!(run.phase, Phase::Converged);
    assert_eq!(parameters(&run.network), parameters(&current));
    trainer::observe(&mut run, false);
    assert_eq!(run.phase, Phase::Converged);
}

#[test]
fn a_generation_with_a_wrong_contribution_changes_nothing() {
    let s = settings(0.01, 0.1, 1, 2);
    let current = noise_network(&[2, 3, 1], 5);
    let mut run = trainer::begin(current.clone(), s);
    let parts = vec![noise_network(&[2, 3, 1], 6), noise_network(&[2, 4, 1], 7)];
    assert_eq!(trainer::advance(&mut run, &parts), Err(Error::TopologyMismatch));
    assert_eq!(run.generation, 0);
    assert_eq!(parameters(&run.network), parameters(&current));
}

#[test]
fn generations_are_counted() {
    let s = settings(0.01, 0.1, 1, 1);
    let mut run = trainer::begin(nn::new(vec![2, 2]), s);
    for g in 0..5u64 {
        assert_eq!(run.generation, g);
        trainer::advance(&mut run, &vec![noise_network(&[2, 2], g)]).unwrap();
    }
    assert_eq!(run.generation, 5);
}

// The task, written with the machine's own arithmetic.

fn plain_score(net: &NN) -> (f64, bool) {
    let mut pass = true;
    let mut score = 0.0;
    let cases: [([f64; 2], usize); 4] =
        [([0.0, 0.0], 0), ([1.0, 0.0], 1), ([0.0, 1.0], 1), ([1.0, 1.0], 0)];
    for (input, wanted) in cases.iter() {
        let mut m = matrix::new(1, 2);
        matrix::set_value(&mut m, vec![vec![input[0].to_bits(), input[1].to_bits()]]).unwrap();
        let output = nn::feedforward(net, &m).unwrap();
        let right = f64::from_bits(output.value[0][*wanted]);
        let wrong = f64::from_bits(output.value[0][1 - *wanted]);
        score += right - wrong;
        if right <= wrong {
            pass = false;
        }
    }
    (score, pass)
}

#[test]
fn the_task_scores_as_the_margins_say() {
    for seed in 0..40u64 {
        let net = noise_network(&[2, 4, 4, 2], seed);
        let (fitness, solved) = xor::score(&net);
        let (expected, expected_solved) = plain_score(&net);
        assert_eq!(f64::from_bits(fitness), expected);
        assert_eq!(solved, expected_solved);
    }
}

#[test]
fn the_zero_network_does_not_solve_the_task() {
    let (fitness, solved) = xor::score(&nn::new(vec![2, 4, 4, 2]));
    assert_eq!(fitness, ZERO);
    assert!(!solved);
}

#[test]
fn some_network_solves_the_task() {
    let mut found = false;
    for seed in 0..5000u64 {
        let net = noise_network(&[2, 4, 4, 2], seed);
        let (fitness, solved) = xor::score(&net);
        if solved {
            assert_eq!((f64::from_bits(fitness), true), plain_score(&net));
            assert!(f64::from_bits(fitness) > 0.0);
            found = true;
            break;
        }
    }
    assert!(found);
}
