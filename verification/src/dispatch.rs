use crate::bits::{
    bit_reverse, bit_reverse_permute, bit_reversed, floor_log2, lemma_bit_reverse_bound,
    lemma_bit_reversed_twice, log2_floor,
};
use crate::field::{all_wf, values, FieldElement};
use crate::modular::{is_canonical, is_prime, is_principal_root, is_root_of_unity};
use crate::parallel::{four_step, lane_exponent, lane_input, lane_partial, parallel_fft};
use crate::serial::serial_fft;
use crate::transform::{dft, dft_partial, radix2};
use vstd::arithmetic::div_mod::*;
use vstd::arithmetic::power::*;
use vstd::arithmetic::power2::*;
use vstd::prelude::*;

verus! {

/// The parallelism that is at hand: the number of workers.
#[derive(Clone, Copy, Debug)]
pub struct Worker {
    pub cpus: usize,
}

impl Worker {
    /// A worker handle over `cpus` workers.
    pub fn new_with_cpus(cpus: usize) -> (worker: Worker)
        ensures
            worker.cpus == cpus,
    {
        Worker { cpus }
    }

    /// The number of workers, rounded down to a power of two, as its exponent.
    pub fn log_num_cpus(&self) -> (log_cpus: u32)
        requires
            self.cpus > 0,
        ensures
            log_cpus as nat == floor_log2(self.cpus as nat),
    {
        log2_floor(self.cpus)
    }
}

/// The engine that a transform runs on.
#[derive(Clone, Copy, Debug, PartialEq, Eq, Structural)]
pub enum Strategy {
    /// One thread.
    Serial,
    /// The four-step decomposition over `2^log_cpus` lanes.
    Parallel { log_cpus: u32 },
}

/// The number of lanes asked for, as an exponent of two: that of the hint
/// rounded down, where one is given and is not zero; zero for a hint of
/// zero; that of the worker's capacity without a hint.
pub open spec fn lane_bits(cpus: nat, hint: Option<usize>) -> nat {
    match hint {
        Some(h) => if h > 0 {
            floor_log2(h as nat)
        } else {
            0
        },
        None => floor_log2(cpus),
    }
}

/// Serial where no parallelism is asked for or the transform is no larger
/// than the number of lanes; parallel otherwise.
pub open spec fn chosen_strategy(log_n: u32, log_cpus: nat) -> Strategy {
    if log_cpus == 0 || log_n <= log_cpus {
        Strategy::Serial
    } else {
        Strategy::Parallel { log_cpus: log_cpus as u32 }
    }
}

/// What a transform of `x` yields on the given engine.
pub open spec fn strategy_output(x: Seq<int>, w: int, p: int, strategy: Strategy) -> Seq<int> {
    match strategy {
        Strategy::Serial => radix2(x, w, p),
        Strategy::Parallel { log_cpus } => four_step(x, w, p, pow2(log_cpus as nat)),
    }
}

/// A hint of zero selects the serial engine, whatever the size; and a
/// request for as many lanes as the transform has entries, or more, is never
/// met by a partition: the parallel engine runs with fewer lane bits than
/// `log_n` only.
pub proof fn lemma_dispatch_policy(cpus: nat, hint: Option<usize>, log_n: u32)
    ensures
        hint == Some(0usize) ==> chosen_strategy(log_n, lane_bits(cpus, hint)) == Strategy::Serial,
        lane_bits(cpus, hint) >= log_n ==> chosen_strategy(log_n, lane_bits(cpus, hint))
            == Strategy::Serial,
        match chosen_strategy(log_n, lane_bits(cpus, hint)) {
            Strategy::Serial => true,
            Strategy::Parallel { log_cpus } => log_cpus as nat == lane_bits(cpus, hint) && 0
                < log_cpus < log_n,
        },
{
}

/// A transform of size one leaves its input as it is, on either engine.
pub proof fn lemma_size_one_unchanged(x: Seq<int>, w: int, p: int)
    requires
        p > 1,
        x.len() == 1,
        is_canonical(x, p),
    ensures
        radix2(x, w, p) == x,
        four_step(x, w, p, 1) == x,
        dft(x, w, p) == x,
{
    lemma_pow0(w);
    lemma_small_mod(x[0] as nat, p as nat);
    assert(x[0] * 1 == x[0]);
    assert(dft_partial(x, w, 0, 1) == dft_partial(x, w, 0, 0) + x[0] * pow(w, (0 * 0) as nat));
    assert(dft(x, w, p) =~= x);
    assert(lane_exponent(0, 0, 0, 1, 1) == 0);
    assert(lane_partial(x, w, 0, 0, 1, 1, 1) == lane_partial(x, w, 0, 0, 1, 1, 0) + x[0int + 0int
        * 1int] * pow(w, lane_exponent(0, 0, 0, 1, 1)));
    let lane = lane_input(x, w, p, 0, 1, 1);
    assert(lane =~= x);
    assert(radix2(lane, pow(w, 1) % p, p) == lane);
    assert(four_step(x, w, p, 1) =~= x);
}

/// Chooses the engine for a transform of size `2^log_n`.
///
/// A hint stands for a number of workers and must not exceed the worker's
/// capacity; it is rounded down to a power of two. Without a hint the
/// worker's capacity takes its place.
pub fn select_strategy(worker: &Worker, log_n: u32, use_cpus_hint: Option<usize>) -> (strategy:
    Strategy)
    requires
        match use_cpus_hint {
            Some(hint) => hint <= worker.cpus,
            None => worker.cpus > 0,
        },
    ensures
        strategy == chosen_strategy(log_n, lane_bits(worker.cpus as nat, use_cpus_hint)),
{
    let log_cpus: u32 = match use_cpus_hint {
        Some(hint) => {
            if hint > 0 {
                log2_floor(hint)
            } else {
                0
            }
        },
        None => worker.log_num_cpus(),
    };
    if log_cpus == 0 || log_n <= log_cpus {
        Strategy::Serial
    } else {
        Strategy::Parallel { log_cpus }
    }
}

/// The transform on the engine that `select_strategy` chooses.
///
/// On either engine the buffer ends up holding, in natural order, the
/// discrete transform of its content by `omega`, provided `omega` is a
/// principal root of unity for the size.
pub fn best_fft<F: FieldElement>(
    a: &mut [F],
    worker: &Worker,
    omega: &F,
    log_n: u32,
    use_cpus_hint: Option<usize>,
)
    requires
        log_n < 32,
        old(a).len() == pow2(log_n as nat),
        all_wf(old(a)@),
        omega.wf(),
        match use_cpus_hint {
            Some(hint) => hint <= worker.cpus,
            None => worker.cpus > 0,
        },
    ensures
        final(a)@.len() == old(a)@.len(),
        all_wf(final(a)@),
        values(final(a)@) == strategy_output(
            values(old(a)@),
            omega.value(),
            F::modulus(),
            chosen_strategy(log_n, lane_bits(worker.cpus as nat, use_cpus_hint)),
        ),
        is_principal_root(omega.value(), log_n as nat, F::modulus()) ==> values(final(a)@) == dft(
            values(old(a)@),
            omega.value(),
            F::modulus(),
        ),
        is_prime(F::modulus()) && is_root_of_unity(
            omega.value(),
            pow2(log_n as nat),
            F::modulus(),
        ) ==> values(final(a)@) == dft(values(old(a)@), omega.value(), F::modulus()),
        log_n == 0 ==> values(final(a)@) == values(old(a)@),
{
    let ghost x = values(a@);
    let ghost before = a@;
    match select_strategy(worker, log_n, use_cpus_hint) {
        Strategy::Serial => {
            serial_fft(a, omega, log_n);
        },
        Strategy::Parallel { log_cpus } => {
            parallel_fft(a, omega, log_n, log_cpus);
        },
    }
    proof {
        if log_n == 0 {
            lemma2_to64();
            F::lemma_modulus();
            assert(is_canonical(x, F::modulus())) by {
                assert forall|i: int| 0 <= i < x.len() implies 0 <= #[trigger] x[i] < F::modulus() by {
                    assert(before[i].wf());
                    before[i].lemma_canonical();
                }
            }
            lemma_size_one_unchanged(x, omega.value(), F::modulus());
        }
    }
}

/// The way a transform with an accelerator at hand is carried out.
#[derive(Clone, Copy, Debug, PartialEq, Eq, Structural)]
pub enum AcceleratedPath {
    /// The accelerator runs the forward transform.
    Forward,
    /// The accelerator runs the inverse transform.
    Inverse,
    /// The accelerator is left alone and the CPU engines run.
    Fallback,
}

/// Decides from the root of unity that was supplied whether the forward or
/// the inverse transform is meant: the one whose reference value it equals,
/// the forward one first; with neither, the CPU engines take over.
pub fn select_accelerated_path<F: FieldElement>(
    supplied: &F,
    forward_reference: &F,
    inverse_reference: &F,
) -> (path: AcceleratedPath)
    requires
        supplied.wf(),
        forward_reference.wf(),
        inverse_reference.wf(),
    ensures
        path == if forward_reference.value() == supplied.value() {
            AcceleratedPath::Forward
        } else if inverse_reference.value() == supplied.value() {
            AcceleratedPath::Inverse
        } else {
            AcceleratedPath::Fallback
        },
{
    if forward_reference.equals(supplied) {
        AcceleratedPath::Forward
    } else if inverse_reference.equals(supplied) {
        AcceleratedPath::Inverse
    } else {
        AcceleratedPath::Fallback
    }
}

impl AcceleratedPath {
    /// Whether the accelerator is to be tried on this path.
    pub fn uses_accelerator(&self) -> (tried: bool)
        ensures
            tried == (*self != AcceleratedPath::Fallback),
    {
        match self {
            AcceleratedPath::Forward => true,
            AcceleratedPath::Inverse => true,
            AcceleratedPath::Fallback => false,
        }
    }
}

/// The root of unity that the transform on the given path runs with: the
/// generator of the domain forward, its inverse backward, and the root that
/// the caller holds for the CPU engines otherwise.
pub fn root_for_path<F: FieldElement>(
    path: AcceleratedPath,
    generator: &F,
    generator_inverse: &F,
    fallback: &F,
) -> (root: F)
    ensures
        root == match path {
            AcceleratedPath::Forward => *generator,
            AcceleratedPath::Inverse => *generator_inverse,
            AcceleratedPath::Fallback => *fallback,
        },
{
    match path {
        AcceleratedPath::Forward => *generator,
        AcceleratedPath::Inverse => *generator_inverse,
        AcceleratedPath::Fallback => *fallback,
    }
}

/// How the attempt to run a transform on the accelerator ended.
#[derive(Clone, Copy, Debug, PartialEq, Eq, Structural)]
pub enum AcceleratorOutcome {
    /// The accelerator was not tried: no reference root matched.
    Skipped,
    /// The accelerator was not to be had.
    Unavailable,
    /// The accelerator failed, and the buffer was put back as it was.
    Failed,
    /// The accelerator ran, and the buffer holds its output.
    Completed,
}

/// The CPU stand-in for the accelerator: the transform on the engine that
/// the worker's capacity selects, left in bit-reversed order as the
/// accelerator leaves its own.
pub fn fallback_fft<F: FieldElement>(a: &mut [F], worker: &Worker, omega: &F, log_n: u32)
    requires
        log_n < 32,
        old(a).len() == pow2(log_n as nat),
        all_wf(old(a)@),
        omega.wf(),
        worker.cpus > 0,
    ensures
        final(a)@.len() == old(a)@.len(),
        all_wf(final(a)@),
        values(final(a)@) == bit_reversed(
            strategy_output(
                values(old(a)@),
                omega.value(),
                F::modulus(),
                chosen_strategy(log_n, lane_bits(worker.cpus as nat, Some(worker.cpus))),
            ),
            log_n as nat,
        ),
        is_principal_root(omega.value(), log_n as nat, F::modulus()) ==> values(final(a)@)
            == bit_reversed(dft(values(old(a)@), omega.value(), F::modulus()), log_n as nat),
{
    best_fft(a, worker, omega, log_n, Some(worker.cpus));
    let ghost natural = a@;
    bit_reverse_permute(a, log_n);
    proof {
        lemma_values_bit_reversed(natural, log_n as nat);
        assert forall|i: int| 0 <= i < a@.len() implies (#[trigger] a@[i]).wf() by {
            lemma_bit_reverse_bound(i as nat, log_n as nat);
            assert(natural[bit_reverse(i as nat, log_n as nat) as int].wf());
        }
    }
}

/// The pass that ends every accelerated transform, whichever path ran: the
/// bit-reversal permutation, which brings the buffer into natural order.
pub fn normalize_order<F: FieldElement>(a: &mut [F], log_n: u32)
    requires
        log_n < 32,
        old(a).len() == pow2(log_n as nat),
        all_wf(old(a)@),
    ensures
        final(a)@ == bit_reversed(old(a)@, log_n as nat),
        all_wf(final(a)@),
        values(final(a)@) == bit_reversed(values(old(a)@), log_n as nat),
{
    let ghost before = a@;
    bit_reverse_permute(a, log_n);
    proof {
        lemma_values_bit_reversed(before, log_n as nat);
        assert forall|i: int| 0 <= i < a@.len() implies (#[trigger] a@[i]).wf() by {
            lemma_bit_reverse_bound(i as nat, log_n as nat);
            assert(before[bit_reverse(i as nat, log_n as nat) as int].wf());
        }
    }
}

/// Ends a transform for which an accelerator was at hand.
///
/// Where the accelerator ran, the buffer holds its output and only the
/// normalizing pass is left. Where it did not (no root matched, it was not to
/// be had, or it failed and the buffer was put back), the CPU engines run
/// first, without a word to the caller, and the same pass follows.
pub fn complete_accelerated_fft<F: FieldElement>(
    a: &mut [F],
    worker: &Worker,
    omega: &F,
    log_n: u32,
    outcome: AcceleratorOutcome,
)
    requires
        log_n < 32,
        old(a).len() == pow2(log_n as nat),
        all_wf(old(a)@),
        omega.wf(),
        worker.cpus > 0,
    ensures
        final(a)@.len() == old(a)@.len(),
        all_wf(final(a)@),
        outcome == AcceleratorOutcome::Completed ==> final(a)@ == bit_reversed(
            old(a)@,
            log_n as nat,
        ),
        outcome != AcceleratorOutcome::Completed ==> values(final(a)@) == strategy_output(
            values(old(a)@),
            omega.value(),
            F::modulus(),
            chosen_strategy(log_n, lane_bits(worker.cpus as nat, Some(worker.cpus))),
        ),
        outcome != AcceleratorOutcome::Completed && is_principal_root(
            omega.value(),
            log_n as nat,
            F::modulus(),
        ) ==> values(final(a)@) == dft(values(old(a)@), omega.value(), F::modulus()),
        log_n == 0 ==> values(final(a)@) == values(old(a)@),
{
    let ghost x = values(a@);
    let ghost before = a@;
    let accelerator_ran: bool = match outcome {
        AcceleratorOutcome::Completed => true,
        AcceleratorOutcome::Skipped => false,
        AcceleratorOutcome::Unavailable => false,
        AcceleratorOutcome::Failed => false,
    };
    if !accelerator_ran {
        fallback_fft(a, worker, omega, log_n);
    }
    normalize_order(a, log_n);
    proof {
        if !accelerator_ran {
            let natural = strategy_output(
                x,
                omega.value(),
                F::modulus(),
                chosen_strategy(log_n, lane_bits(worker.cpus as nat, Some(worker.cpus))),
            );
            lemma_bit_reversed_twice(natural, log_n as nat);
            lemma_bit_reversed_twice(dft(x, omega.value(), F::modulus()), log_n as nat);
        }
        if log_n == 0 {
            lemma2_to64();
            F::lemma_modulus();
            assert(bit_reversed(before, 0) =~= before);
            assert(is_canonical(x, F::modulus())) by {
                assert forall|i: int| 0 <= i < x.len() implies 0 <= #[trigger] x[i] < F::modulus() by {
                    assert(before[i].wf());
                    before[i].lemma_canonical();
                }
            }
            lemma_size_one_unchanged(x, omega.value(), F::modulus());
        }
    }
}

/// The residues of a permuted buffer are the permuted residues.
proof fn lemma_values_bit_reversed<F: FieldElement>(a: Seq<F>, bits: nat)
    requires
        a.len() == pow2(bits),
    ensures
        values(bit_reversed(a, bits)) == bit_reversed(values(a), bits),
{
    assert forall|i: int| 0 <= i < a.len() implies values(bit_reversed(a, bits))[i] == bit_reversed(
        values(a),
        bits,
    )[i] by {
        lemma_bit_reverse_bound(i as nat, bits);
    }
    assert(values(bit_reversed(a, bits)) =~= bit_reversed(values(a), bits));
}

/// A transform that an accelerator left in bit-reversed order is, once
/// normalized, the transform in natural order: what the CPU engines yield
/// for the same input and root.
pub proof fn lemma_normalized_matches_cpu(accelerated: Seq<int>, x: Seq<int>, w: int, p: int, log_n: nat)
    requires
        x.len() == pow2(log_n),
        accelerated == bit_reversed(dft(x, w, p), log_n),
    ensures
        bit_reversed(accelerated, log_n) == dft(x, w, p),
{
    lemma_bit_reversed_twice(dft(x, w, p), log_n);
}

} // verus!
