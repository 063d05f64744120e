//! One generation of the evolution strategy: candidates are the current
//! parameters plus scaled noise, each worker adds up its noise weighted by
//! the fitness of the candidate, and the parameters move along the scaled
//! total of all workers.

use crate::binary64::conversion::{from_count, from_integer};
use crate::binary64::division::{divide, quotient};
use crate::binary64::multiplication::{product, times};
use crate::error::Error;
use crate::nn::{scaled_parameters, sum_parameters, zero_parameters, Parameters, NN};
use vstd::prelude::*;

verus! {

/// What stays fixed during a run.
#[derive(Clone, Copy, Debug)]
pub struct Settings {
    /// The learning rate, a binary64.
    pub learning_rate: u64,
    /// The standard deviation of the noise, a binary64.
    pub noise_deviation: u64,
    /// How many candidates each worker scores in a generation.
    pub population: usize,
    /// How many workers share a generation.
    pub workers: usize,
}

/// The current parameters moved by `deviation` times the noise.
pub open spec fn perturbed(current: Parameters, noise: Parameters, deviation: u64) -> Parameters {
    sum_parameters(current, scaled_parameters(noise, deviation))
}

/// The total of the first `n` noise networks, each weighted by the fitness
/// of its candidate, added up in order from the all-zero network.
pub open spec fn weighted_total(
    topology: Seq<usize>,
    noises: Seq<Parameters>,
    fitness: Seq<u64>,
    n: nat,
) -> Parameters
    decreases n,
{
    if n == 0 {
        zero_parameters(topology)
    } else {
        sum_parameters(
            weighted_total(topology, noises, fitness, (n - 1) as nat),
            scaled_parameters(noises[n - 1], fitness[n - 1]),
        )
    }
}

/// The total of the first `n` contributions, added up in order from the
/// all-zero network.
pub open spec fn combined(topology: Seq<usize>, contributions: Seq<Parameters>, n: nat) -> Parameters
    decreases n,
{
    if n == 0 {
        zero_parameters(topology)
    } else {
        sum_parameters(combined(topology, contributions, (n - 1) as nat), contributions[n - 1])
    }
}

/// The factor of the update: the learning rate over the size of the whole
/// population times the noise deviation.
pub open spec fn step_of(settings: Settings) -> u64 {
    quotient(
        settings.learning_rate,
        product(from_integer((settings.population * settings.workers) as nat), settings.noise_deviation),
    )
}

/// The parameters after the update: the current ones plus `step` times the
/// total.
pub open spec fn updated(current: Parameters, total: Parameters, step: u64) -> Parameters {
    sum_parameters(current, scaled_parameters(total, step))
}

/// The views of a vector of networks.
pub open spec fn parameters_of(networks: Seq<NN>) -> Seq<Parameters> {
    Seq::new(networks.len(), |i: int| networks[i]@)
}

/// Every network is well formed.
pub open spec fn all_well_formed(networks: Seq<NN>) -> bool {
    forall|i: int| 0 <= i < networks.len() ==> (#[trigger] networks[i]).wf()
}

/// Every network has the given topology.
pub open spec fn all_of_topology(networks: Seq<NN>, topology: Seq<usize>) -> bool {
    forall|i: int| 0 <= i < networks.len() ==> (#[trigger] networks[i]).topology@ == topology
}

/// The candidate that a noise network gives: the current parameters plus
/// `deviation` times the noise.
pub fn perturb(current: &NN, noise: &NN, deviation: u64) -> (r: Result<NN, Error>)
    requires
        current.wf(),
        noise.wf(),
    ensures
        current.topology@ == noise.topology@ ==> r is Ok && r.unwrap().wf() && r.unwrap()@
            == perturbed(current@, noise@, deviation),
        current.topology@ != noise.topology@ ==> r == Err::<NN, Error>(Error::TopologyMismatch),
{
    let scaled = crate::nn::scalar(noise, deviation);
    crate::nn::add(current, &scaled)
}

/// The running total of a worker with one more noise network added to it,
/// weighted by the fitness of its candidate.
pub fn accumulate(total: &NN, noise: &NN, fitness: u64) -> (r: Result<NN, Error>)
    requires
        total.wf(),
        noise.wf(),
    ensures
        total.topology@ == noise.topology@ ==> r is Ok && r.unwrap().wf() && r.unwrap()@
            == sum_parameters(total@, scaled_parameters(noise@, fitness)),
        total.topology@ != noise.topology@ ==> r == Err::<NN, Error>(Error::TopologyMismatch),
{
    let weighted = crate::nn::scalar(noise, fitness);
    crate::nn::add(total, &weighted)
}

/// The sum of what the workers hand back, added up in the order given from
/// the all-zero network of the given topology.
pub fn combine(topology: Vec<usize>, contributions: &Vec<NN>) -> (r: Result<NN, Error>)
    requires
        crate::nn::valid_topology(topology@),
        all_well_formed(contributions@),
    ensures
        all_of_topology(contributions@, topology@) ==> r is Ok && r.unwrap().wf()
            && r.unwrap().topology@ == topology@ && r.unwrap()@ == combined(
            topology@,
            parameters_of(contributions@),
            contributions@.len(),
        ),
        !all_of_topology(contributions@, topology@) ==> r == Err::<NN, Error>(
            Error::TopologyMismatch,
        ),
{
    let ghost layers = topology@;
    let mut total: NN = crate::nn::new(topology);
    let mut i: usize = 0;
    while i < contributions.len()
        invariant
            all_well_formed(contributions@),
            i <= contributions@.len(),
            total.wf(),
            layers == topology@,
            total.topology@ == layers,
            forall|k: int| 0 <= k < i ==> (#[trigger] contributions@[k]).topology@ == layers,
            total@ == combined(layers, parameters_of(contributions@), i as nat),
        decreases contributions@.len() - i,
    {
        match crate::nn::add(&total, &contributions[i]) {
            Ok(next) => {
                total = next;
            },
            Err(e) => {
                assert(contributions@[i as int].topology@ != layers);
                return Err(e);
            },
        }
        i = i + 1;
    }
    Ok(total)
}

/// The factor by which the total of a generation is scaled.
pub fn step_size(settings: &Settings) -> (r: u64)
    ensures
        r == step_of(*settings),
{
    assert(settings.population * settings.workers <= 0xffff_ffff_ffff_ffff * 0xffff_ffff_ffff_ffff)
        by (nonlinear_arith)
        requires
            settings.population <= 0xffff_ffff_ffff_ffff,
            settings.workers <= 0xffff_ffff_ffff_ffff,
    ;
    let size: u64 = from_count((settings.population as u128) * (settings.workers as u128));
    divide(settings.learning_rate, times(size, settings.noise_deviation))
}

/// The parameters after a generation: the current ones plus the total of
/// all workers scaled by the step.
pub fn apply_update(current: &NN, total: &NN, settings: &Settings) -> (r: Result<NN, Error>)
    requires
        current.wf(),
        total.wf(),
    ensures
        current.topology@ == total.topology@ ==> r is Ok && r.unwrap().wf() && r.unwrap()@
            == updated(current@, total@, step_of(*settings)),
        current.topology@ != total.topology@ ==> r == Err::<NN, Error>(Error::TopologyMismatch),
{
    let update = crate::nn::scalar(total, step_size(settings));
    crate::nn::add(current, &update)
}

/// Whether the scorer can be called on every well-formed network of the
/// given topology.
pub open spec fn accepts<F: Fn(&NN) -> (u64, bool)>(score: &F, topology: Seq<usize>) -> bool {
    forall|candidate: NN|
        candidate.wf() && candidate.topology@ == topology ==> #[trigger] call_requires(
            *score,
            (&candidate,),
        )
}

/// Whether `fitness` is what the scorer gave for some network that holds
/// the parameters `candidate`.
pub open spec fn is_fitness_of<F: Fn(&NN) -> (u64, bool)>(
    score: &F,
    candidate: Parameters,
    fitness: u64,
) -> bool {
    exists|network: NN, success: bool|
        network.wf() && network@ == candidate && #[trigger] call_ensures(
            *score,
            (&network,),
            (fitness, success),
        )
}

/// Whether `fitness` lists, for each noise network in turn, what the scorer
/// gave for its candidate.
pub open spec fn scored_by<F: Fn(&NN) -> (u64, bool)>(
    score: &F,
    current: Parameters,
    noises: Seq<NN>,
    deviation: u64,
    fitness: Seq<u64>,
) -> bool {
    &&& fitness.len() == noises.len()
    &&& forall|i: int|
        0 <= i < noises.len() ==> is_fitness_of(
            score,
            perturbed(current, noises[i]@, deviation),
            #[trigger] fitness[i],
        )
}

/// The share of one worker in a generation.
///
/// The worker is handed one noise network for each candidate of its
/// population. For each in turn it forms the candidate, asks the scorer for
/// its fitness, and adds the noise weighted by that fitness to a running
/// total that starts from the all-zero network.
pub fn worker_pass<F: Fn(&NN) -> (u64, bool)>(
    current: &NN,
    noises: &Vec<NN>,
    settings: &Settings,
    score: &F,
) -> (r: Result<NN, Error>)
    requires
        current.wf(),
        all_well_formed(noises@),
        noises@.len() == settings.population,
        accepts(score, current.topology@),
    ensures
        all_of_topology(noises@, current.topology@) ==> r is Ok && r.unwrap().wf()
            && r.unwrap().topology@ == current.topology@ && exists|fitness: Seq<u64>|
            scored_by(score, current@, noises@, settings.noise_deviation, fitness) && r.unwrap()@
                == #[trigger] weighted_total(
                current.topology@,
                parameters_of(noises@),
                fitness,
                noises@.len(),
            ),
        !all_of_topology(noises@, current.topology@) ==> r == Err::<NN, Error>(
            Error::TopologyMismatch,
        ),
{
    let deviation: u64 = settings.noise_deviation;
    // Whether every noise network fits is settled before the scorer is
    // asked anything.
    let mut k: usize = 0;
    while k < noises.len()
        invariant
            k <= noises@.len(),
            forall|j: int| 0 <= j < k ==> (#[trigger] noises@[j]).topology@ == current.topology@,
        decreases noises@.len() - k,
    {
        if !crate::nn::same_topology(&noises[k].topology, &current.topology) {
            return Err(Error::TopologyMismatch);
        }
        k = k + 1;
    }
    let mut total: NN = crate::nn::new(crate::nn::copy_topology(&current.topology));
    let ghost mut fitness: Seq<u64> = Seq::empty();
    let mut i: usize = 0;
    while i < noises.len()
        invariant
            current.wf(),
            all_well_formed(noises@),
            all_of_topology(noises@, current.topology@),
            accepts(score, current.topology@),
            i <= noises@.len(),
            total.wf(),
            total.topology@ == current.topology@,
            fitness.len() == i,
            forall|j: int|
                0 <= j < i ==> is_fitness_of(
                    score,
                    perturbed(current@, noises@[j]@, deviation),
                    #[trigger] fitness[j],
                ),
            total@ == weighted_total(current.topology@, parameters_of(noises@), fitness, i as nat),
        decreases noises@.len() - i,
    {
        let noise: &NN = &noises[i];
        let candidate = match perturb(current, noise, deviation) {
            Ok(c) => c,
            Err(e) => {
                return Err(e);
            },
        };
        let outcome: (u64, bool) = score(&candidate);
        let next = match accumulate(&total, noise, outcome.0) {
            Ok(t) => t,
            Err(e) => {
                return Err(e);
            },
        };
        proof {
            let ghost before = fitness;
            fitness = fitness.push(outcome.0);
            assert(call_ensures(*score, (&candidate,), (outcome.0, outcome.1)));
            assert(is_fitness_of(score, perturbed(current@, noises@[i as int]@, deviation), outcome.0));
            assert forall|j: int| 0 <= j < i + 1 implies is_fitness_of(
                score,
                perturbed(current@, noises@[j]@, deviation),
                #[trigger] fitness[j],
            ) by {
                if j < i {
                    assert(fitness[j] == before[j]);
                }
            }
            lemma_weighted_total_extends(
                current.topology@,
                parameters_of(noises@),
                before,
                fitness,
                i as nat,
            );
        }
        total = next;
        i = i + 1;
    }
    proof {
        assert(scored_by(score, current@, noises@, deviation, fitness));
    }
    Ok(total)
}

/// The weighted total of the first `n` noise networks looks at the first
/// `n` fitness values only.
pub proof fn lemma_weighted_total_extends(
    topology: Seq<usize>,
    noises: Seq<Parameters>,
    shorter: Seq<u64>,
    longer: Seq<u64>,
    n: nat,
)
    requires
        n <= shorter.len() <= longer.len(),
        forall|i: int| 0 <= i < n ==> shorter[i] == longer[i],
    ensures
        weighted_total(topology, noises, shorter, n) == weighted_total(topology, noises, longer, n),
    decreases n,
{
    if n > 0 {
        lemma_weighted_total_extends(topology, noises, shorter, longer, (n - 1) as nat);
    }
}

/// Where a run stands: still training, or done because the scorer has
/// reported success.
#[derive(Clone, Copy, Debug, PartialEq, Eq, Structural)]
pub enum Phase {
    Training,
    Converged,
}

/// The state of a run: the current network and the number of generations
/// that have been applied to it.
#[derive(Debug)]
pub struct Trainer {
    pub network: NN,
    pub generation: u64,
    pub phase: Phase,
    pub settings: Settings,
}

/// The state of a run as plain values.
pub struct State {
    pub parameters: Parameters,
    pub generation: nat,
    pub phase: Phase,
}

impl View for Trainer {
    type V = State;

    open spec fn view(&self) -> State {
        State {
            parameters: self.network@,
            generation: self.generation as nat,
            phase: self.phase,
        }
    }
}

/// The state before the first generation.
pub open spec fn started(parameters: Parameters) -> State {
    State { parameters, generation: 0, phase: Phase::Training }
}

/// The state after the check at a generation boundary, where `success` is
/// what the scorer says of the current network. A converged run stays
/// converged.
pub open spec fn observed(state: State, success: bool) -> State {
    if success {
        State { phase: Phase::Converged, ..state }
    } else {
        state
    }
}

/// The state after the workers' contributions of one generation have been
/// applied. A converged run is left as it is.
pub open spec fn advanced(state: State, contributions: Seq<Parameters>, settings: Settings) -> State {
    match state.phase {
        Phase::Converged => state,
        Phase::Training => State {
            parameters: updated(
                state.parameters,
                combined(state.parameters.topology, contributions, contributions.len()),
                step_of(settings),
            ),
            generation: state.generation + 1,
            phase: Phase::Training,
        },
    }
}

/// Population and worker count are positive; learning rate and noise
/// deviation are positive and finite.
pub open spec fn valid_settings(settings: Settings) -> bool {
    &&& settings.population > 0
    &&& settings.workers > 0
    &&& 0 < settings.learning_rate < crate::binary64::INFINITY
    &&& 0 < settings.noise_deviation < crate::binary64::INFINITY
}

/// Whether the settings can be trained with.
pub fn is_valid_settings(settings: &Settings) -> (r: bool)
    ensures
        r == valid_settings(*settings),
{
    settings.population > 0 && settings.workers > 0 && 0 < settings.learning_rate
        && settings.learning_rate < crate::binary64::INFINITY && 0 < settings.noise_deviation
        && settings.noise_deviation < crate::binary64::INFINITY
}

/// A run that starts from the given network, at generation 0.
pub fn begin(network: NN, settings: Settings) -> (trainer: Trainer)
    ensures
        trainer.network == network,
        trainer.settings == settings,
        trainer@ == started(network@),
{
    Trainer { network, generation: 0, phase: Phase::Training, settings }
}

/// The check at a generation boundary: the run is converged once the scorer
/// reports success for the current network.
pub fn observe(trainer: &mut Trainer, success: bool)
    ensures
        final(trainer).network == old(trainer).network,
        final(trainer).settings == old(trainer).settings,
        final(trainer)@ == observed(old(trainer)@, success),
{
    if success {
        trainer.phase = Phase::Converged;
    }
}

/// Applies one generation: the contributions of all workers, one from
/// each, are summed, the sum is scaled by the step, and the result is added
/// to the current network. Nothing happens to a converged run, and nothing
/// where a contribution has another topology.
pub fn advance(trainer: &mut Trainer, contributions: &Vec<NN>) -> (r: Result<(), Error>)
    requires
        old(trainer).network.wf(),
        all_well_formed(contributions@),
        contributions@.len() == old(trainer).settings.workers,
        old(trainer).generation < u64::MAX,
    ensures
        final(trainer).settings == old(trainer).settings,
        final(trainer).network.wf(),
        final(trainer).network.topology@ == old(trainer).network.topology@,
        old(trainer).phase == Phase::Converged ==> r is Ok && *final(trainer) == *old(trainer),
        old(trainer).phase == Phase::Training && all_of_topology(
            contributions@,
            old(trainer).network.topology@,
        ) ==> r is Ok && final(trainer)@ == advanced(
            old(trainer)@,
            parameters_of(contributions@),
            old(trainer).settings,
        ),
        old(trainer).phase == Phase::Training && !all_of_topology(
            contributions@,
            old(trainer).network.topology@,
        ) ==> r == Err::<(), Error>(Error::TopologyMismatch) && *final(trainer) == *old(trainer),
{
    if trainer.phase == Phase::Converged {
        return Ok(());
    }
    let total = match combine(crate::nn::copy_topology(&trainer.network.topology), contributions) {
        Ok(t) => t,
        Err(e) => {
            return Err(e);
        },
    };
    let next = match apply_update(&trainer.network, &total, &trainer.settings) {
        Ok(n) => n,
        Err(e) => {
            return Err(e);
        },
    };
    trainer.network = next;
    trainer.generation = trainer.generation + 1;
    Ok(())
}

/// A run whose first check reports success is converged at generation 0
/// with its parameters untouched, whatever is handed to it afterwards.
pub proof fn lemma_success_stops_before_any_update(
    parameters: Parameters,
    contributions: Seq<Parameters>,
    settings: Settings,
)
    ensures
        advanced(observed(started(parameters), true), contributions, settings) == (State {
            parameters,
            generation: 0,
            phase: Phase::Converged,
        }),
{
}

} // verus!
