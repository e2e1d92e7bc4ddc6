use field_fft::parallel::{gather_lanes, parallel_fft, scatter_lane};
use field_fft::residue::Residue;
use field_fft::serial::serial_fft;

fn residues<const P: u64>(input: &[u64]) -> Vec<Residue<P>> {
    input.iter().map(|v| Residue::<P>::new(*v)).collect()
}

fn words<const P: u64>(a: &[Residue<P>]) -> Vec<u64> {
    a.iter().map(|r| r.get()).collect()
}

fn serial<const P: u64>(input: &[u64], omega: u64, log_n: u32) -> Vec<u64> {
    let mut a = residues::<P>(input);
    serial_fft(&mut a[..], &Residue::<P>::new(omega), log_n);
    words(&a)
}

fn parallel<const P: u64>(input: &[u64], omega: u64, log_n: u32, log_cpus: u32) -> Vec<u64> {
    let mut a = residues::<P>(input);
    parallel_fft(&mut a[..], &Residue::<P>::new(omega), log_n, log_cpus);
    words(&a)
}

#[test]
fn parallel_transform_of_four_entries_modulo_five() {
    for log_cpus in 0..=2 {
        assert_eq!(parallel::<5>(&[1, 2, 3, 4], 2, 2, log_cpus), vec![0, 4, 3, 2]);
    }
}

#[test]
fn parallel_equals_serial_for_every_number_of_lanes() {
    let input: Vec<u64> = vec![3, 1, 4, 1, 5, 9, 2, 6];
    let expected = serial::<17>(&input, 2, 3);
    for log_cpus in 0..=3 {
        assert_eq!(parallel::<17>(&input, 2, 3, log_cpus), expected);
    }
    let input: Vec<u64> = (0..32).map(|v| (v * v * v + 2 * v + 1) % 97).collect();
    let expected = serial::<97>(&input, 28, 5);
    for log_cpus in 0..=5 {
        assert_eq!(parallel::<97>(&input, 28, 5, log_cpus), expected);
    }
}

#[test]
fn parallel_transform_of_one_entry_is_the_entry() {
    assert_eq!(parallel::<17>(&[11], 1, 0, 0), vec![11]);
}

#[test]
fn scatter_with_one_lane_copies_the_buffer() {
    let a = residues::<17>(&[3, 1, 4, 1]);
    let lane = scatter_lane(&a[..], &Residue::<17>::new(4), 0, 2, 0);
    assert_eq!(words(&lane), vec![3, 1, 4, 1]);
}

#[test]
fn scatter_weights_the_strides_of_the_buffer() {
    // four entries, two lanes, w = 4 modulo 17 (of order four)
    let a = residues::<17>(&[3, 1, 4, 1]);
    let omega = Residue::<17>::new(4);
    // lane 0: plain sums over the two strides
    let lane = scatter_lane(&a[..], &omega, 0, 2, 1);
    assert_eq!(words(&lane), vec![7, 2]);
    // lane 1: entry i is a[i] * w^i + a[i + 2] * w^(i + 2)
    let lane = scatter_lane(&a[..], &omega, 1, 2, 1);
    assert_eq!(words(&lane), vec![(3 + 4 * 16) % 17, (4 + 64) % 17]);
}

#[test]
fn scatter_with_as_many_lanes_as_entries_yields_single_sums() {
    let a = residues::<5>(&[1, 2, 3, 4]);
    let omega = Residue::<5>::new(2);
    let expected = [0u64, 4, 3, 2];
    for j in 0..4usize {
        let lane = scatter_lane(&a[..], &omega, j, 2, 2);
        assert_eq!(words(&lane), vec![expected[j]]);
    }
}

#[test]
fn gather_takes_the_lane_from_the_low_bits() {
    let tmp: Vec<Vec<Residue<17>>> = vec![residues::<17>(&[1, 2, 3, 4]), residues::<17>(&[5, 6, 7, 8])];
    let mut a = residues::<17>(&[0; 8]);
    gather_lanes(&mut a[..], &tmp, 1);
    assert_eq!(words(&a), vec![1, 5, 2, 6, 3, 7, 4, 8]);
}

#[test]
fn gather_from_a_single_lane_copies_it() {
    let tmp: Vec<Vec<Residue<17>>> = vec![residues::<17>(&[9, 8, 7, 6])];
    let mut a = residues::<17>(&[0; 4]);
    gather_lanes(&mut a[..], &tmp, 0);
    assert_eq!(words(&a), vec![9, 8, 7, 6]);
}
