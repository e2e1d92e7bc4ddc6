use field_fft::bits::bit_reverse_permute;
use field_fft::dispatch::{
    best_fft, complete_accelerated_fft, fallback_fft, normalize_order, root_for_path,
    select_accelerated_path, select_strategy, AcceleratedPath, AcceleratorOutcome, Strategy,
    Worker,
};
use field_fft::residue::Residue;
use field_fft::serial::serial_fft;

fn residues<const P: u64>(input: &[u64]) -> Vec<Residue<P>> {
    input.iter().map(|v| Residue::<P>::new(*v)).collect()
}

fn words<const P: u64>(a: &[Residue<P>]) -> Vec<u64> {
    a.iter().map(|r| r.get()).collect()
}

fn serial<const P: u64>(input: &[u64], omega: u64, log_n: u32) -> Vec<u64> {
    let mut a = residues::<P>(input);
    serial_fft(&mut a[..], &Residue::<P>::new(omega), log_n);
    words(&a)
}

#[test]
fn worker_reports_its_capacity_rounded_down() {
    assert_eq!(Worker::new_with_cpus(1).log_num_cpus(), 0);
    assert_eq!(Worker::new_with_cpus(4).log_num_cpus(), 2);
    assert_eq!(Worker::new_with_cpus(6).log_num_cpus(), 2);
    assert_eq!(Worker::new_with_cpus(8).cpus, 8);
}

#[test]
fn a_hint_of_zero_selects_the_serial_engine() {
    let worker = Worker::new_with_cpus(16);
    for log_n in 0..32 {
        assert_eq!(select_strategy(&worker, log_n, Some(0)), Strategy::Serial);
    }
}

#[test]
fn a_hint_of_one_selects_the_serial_engine() {
    let worker = Worker::new_with_cpus(16);
    assert_eq!(select_strategy(&worker, 10, Some(1)), Strategy::Serial);
}

#[test]
fn a_hint_is_rounded_down_to_a_power_of_two() {
    let worker = Worker::new_with_cpus(16);
    assert_eq!(select_strategy(&worker, 10, Some(4)), Strategy::Parallel { log_cpus: 2 });
    assert_eq!(select_strategy(&worker, 10, Some(5)), Strategy::Parallel { log_cpus: 2 });
    assert_eq!(select_strategy(&worker, 10, Some(7)), Strategy::Parallel { log_cpus: 2 });
    assert_eq!(select_strategy(&worker, 10, Some(16)), Strategy::Parallel { log_cpus: 4 });
}

#[test]
fn a_transform_no_larger_than_the_lanes_runs_serially() {
    let worker = Worker::new_with_cpus(16);
    assert_eq!(select_strategy(&worker, 3, Some(8)), Strategy::Serial);
    assert_eq!(select_strategy(&worker, 3, Some(16)), Strategy::Serial);
    assert_eq!(select_strategy(&worker, 4, Some(8)), Strategy::Parallel { log_cpus: 3 });
    assert_eq!(select_strategy(&worker, 0, None), Strategy::Serial);
}

#[test]
fn without_a_hint_the_capacity_of_the_worker_decides() {
    assert_eq!(select_strategy(&Worker::new_with_cpus(1), 10, None), Strategy::Serial);
    assert_eq!(
        select_strategy(&Worker::new_with_cpus(6), 10, None),
        Strategy::Parallel { log_cpus: 2 }
    );
    assert_eq!(select_strategy(&Worker::new_with_cpus(6), 2, None), Strategy::Serial);
}

#[test]
fn best_fft_yields_the_same_on_either_engine() {
    let input: Vec<u64> = (0..32).map(|v| (7 * v + 3) % 97).collect();
    let expected = serial::<97>(&input, 28, 5);
    let worker = Worker::new_with_cpus(8);
    for hint in [None, Some(0), Some(1), Some(2), Some(3), Some(8)] {
        let mut a = residues::<97>(&input);
        best_fft(&mut a[..], &worker, &Residue::<97>::new(28), 5, hint);
        assert_eq!(words(&a), expected);
    }
}

#[test]
fn best_fft_of_four_entries_modulo_five() {
    let worker = Worker::new_with_cpus(2);
    let mut a = residues::<5>(&[1, 2, 3, 4]);
    best_fft(&mut a[..], &worker, &Residue::<5>::new(2), 2, None);
    assert_eq!(words(&a), vec![0, 4, 3, 2]);
}

#[test]
fn best_fft_of_one_entry_leaves_it_unchanged() {
    for hint in [None, Some(0), Some(4)] {
        let mut a = residues::<17>(&[13]);
        best_fft(&mut a[..], &Worker::new_with_cpus(4), &Residue::<17>::new(1), 0, hint);
        assert_eq!(words(&a), vec![13]);
    }
}

#[test]
fn the_supplied_root_selects_the_accelerated_path() {
    let forward = Residue::<17>::new(4);
    let inverse = Residue::<17>::new(13);
    assert_eq!(
        select_accelerated_path(&Residue::<17>::new(4), &forward, &inverse),
        AcceleratedPath::Forward
    );
    assert_eq!(
        select_accelerated_path(&Residue::<17>::new(13), &forward, &inverse),
        AcceleratedPath::Inverse
    );
    assert_eq!(
        select_accelerated_path(&Residue::<17>::new(2), &forward, &inverse),
        AcceleratedPath::Fallback
    );
}

#[test]
fn the_forward_path_wins_where_both_references_match() {
    let minus_one = Residue::<17>::new(16);
    assert_eq!(
        select_accelerated_path(&minus_one, &minus_one, &minus_one),
        AcceleratedPath::Forward
    );
}

#[test]
fn the_fallback_leaves_the_transform_in_bit_reversed_order() {
    let input: Vec<u64> = vec![3, 1, 4, 1, 5, 9, 2, 6];
    let mut expected = serial::<17>(&input, 2, 3);
    bit_reverse_permute(&mut expected[..], 3);
    let mut a = residues::<17>(&input);
    fallback_fft(&mut a[..], &Worker::new_with_cpus(4), &Residue::<17>::new(2), 3);
    assert_eq!(words(&a), expected);
}

#[test]
fn normalizing_is_the_bit_reversal_permutation() {
    let mut a = residues::<17>(&[0, 1, 2, 3, 4, 5, 6, 7]);
    normalize_order(&mut a[..], 3);
    assert_eq!(words(&a), vec![0, 4, 2, 6, 1, 5, 3, 7]);
}

// Stands in for an accelerator: the transform by its defining sum, left in
// bit-reversed order.
fn accelerator_double(a: &mut [Residue<17>], omega: u64, log_n: u32) {
    let n = a.len();
    let mut out: Vec<Residue<17>> = Vec::new();
    for j in 0..n {
        let mut acc = 0u64;
        for i in 0..n {
            let mut w = 1u64;
            for _ in 0..(i * j) {
                w = w * omega % 17;
            }
            acc = (acc + a[i].get() * w) % 17;
        }
        out.push(Residue::<17>::new(acc));
    }
    bit_reverse_permute(&mut out[..], log_n);
    a.copy_from_slice(&out);
}

#[test]
fn the_normalized_accelerator_output_equals_the_cpu_output() {
    let input: Vec<u64> = vec![3, 1, 4, 1, 5, 9, 2, 6];
    let worker = Worker::new_with_cpus(4);
    let omega = Residue::<17>::new(2);

    let mut accelerated = residues::<17>(&input);
    accelerator_double(&mut accelerated[..], 2, 3);
    complete_accelerated_fft(
        &mut accelerated[..],
        &worker,
        &omega,
        3,
        AcceleratorOutcome::Completed,
    );
    let expected = serial::<17>(&input, 2, 3);
    assert_eq!(words(&accelerated), expected);

    for outcome in [
        AcceleratorOutcome::Skipped,
        AcceleratorOutcome::Unavailable,
        AcceleratorOutcome::Failed,
    ] {
        let mut on_cpu = residues::<17>(&input);
        complete_accelerated_fft(&mut on_cpu[..], &worker, &omega, 3, outcome);
        assert_eq!(words(&on_cpu), expected);
    }
}

#[test]
fn only_the_fallback_path_leaves_the_accelerator_alone() {
    assert!(AcceleratedPath::Forward.uses_accelerator());
    assert!(AcceleratedPath::Inverse.uses_accelerator());
    assert!(!AcceleratedPath::Fallback.uses_accelerator());
}

#[test]
fn each_path_has_its_root() {
    let forward = Residue::<17>::new(2);
    let inverse = Residue::<17>::new(9);
    let other = Residue::<17>::new(4);
    assert_eq!(root_for_path(AcceleratedPath::Forward, &forward, &inverse, &other).get(), 2);
    assert_eq!(root_for_path(AcceleratedPath::Inverse, &forward, &inverse, &other).get(), 9);
    assert_eq!(root_for_path(AcceleratedPath::Fallback, &forward, &inverse, &other).get(), 4);
}

#[test]
fn a_transform_of_one_entry_is_unchanged_on_every_path() {
    let worker = Worker::new_with_cpus(4);
    let omega = Residue::<17>::new(1);
    for outcome in [
        AcceleratorOutcome::Completed,
        AcceleratorOutcome::Skipped,
        AcceleratorOutcome::Unavailable,
        AcceleratorOutcome::Failed,
    ] {
        let mut a = residues::<17>(&[5]);
        complete_accelerated_fft(&mut a[..], &worker, &omega, 0, outcome);
        assert_eq!(words(&a), vec![5]);
    }
}
