use geffe::error::AttackError;
use geffe::geffe::Geffe;
use geffe::lfsr::LFSR;
use geffe::resolve::find_lfsr3_candidate;
use geffe::walk::control_window_matches;

fn registers() -> (LFSR, LFSR, LFSR) {
    (LFSR::new(0b00101, 5), LFSR::new(0b000011, 6), LFSR::new(0b0000011, 7))
}

fn synthetic_target(seed1: u32, seed2: u32, seed3: u32, n: usize) -> Vec<u8> {
    let (lfsr1, lfsr2, lfsr3) = registers();
    Geffe::new(lfsr1, lfsr2, lfsr3).generate(seed1, seed2, seed3, n)
}

#[test]
fn control_window_is_compared_bit_for_bit() {
    let control = [0u8, 1, 0, 1, 1, 0];
    let first = [1u8, 1, 0, 0];
    let second = [0u8, 1, 1, 0];
    assert!(control_window_matches(&control, 1, &first, &second, &[1, 1, 0, 0], 4));
    assert!(!control_window_matches(&control, 1, &first, &second, &[1, 1, 0, 1], 4));
    assert!(control_window_matches(&control, 0, &first, &second, &[0, 1, 1, 0], 4));
    assert!(control_window_matches(&control, 0, &first, &second, &[0, 1, 9, 9], 2));
    assert!(control_window_matches(&control, 6, &first, &second, &[], 0));
    assert!(!control_window_matches(&control, 2, &first, &second, &[2, 1, 0, 0], 4));
}

#[test]
fn resolver_finds_the_planted_control_seed() {
    let target = synthetic_target(3, 53, 69, 96);
    let (mut lfsr1, mut lfsr2, mut lfsr3) = registers();
    let found = find_lfsr3_candidate(&mut lfsr3, &mut lfsr1, &mut lfsr2, &target, 3, 53, 96, 7);
    assert_eq!(found, Ok(69));
}

#[test]
fn resolver_fails_when_the_planted_seed_is_outside_the_search_space() {
    let target = synthetic_target(3, 53, 69, 96);
    let (mut lfsr1, mut lfsr2, mut lfsr3) = registers();
    let restricted =
        find_lfsr3_candidate(&mut lfsr3, &mut lfsr1, &mut lfsr2, &target, 3, 53, 96, 4);
    assert_eq!(restricted, Err(AttackError::ControlNotResolved));
    let wide_enough =
        find_lfsr3_candidate(&mut lfsr3, &mut lfsr1, &mut lfsr2, &target, 3, 53, 96, 5);
    assert_eq!(wide_enough, Ok(69));
}

#[test]
fn resolver_fails_with_wrong_data_seeds() {
    let target = synthetic_target(3, 53, 69, 96);
    let (mut lfsr1, mut lfsr2, mut lfsr3) = registers();
    let found = find_lfsr3_candidate(&mut lfsr3, &mut lfsr1, &mut lfsr2, &target, 4, 53, 96, 7);
    assert_eq!(found, Err(AttackError::ControlNotResolved));
}

#[test]
fn resolver_fails_when_one_late_bit_differs() {
    let mut target = synthetic_target(3, 53, 69, 96);
    target[95] ^= 1;
    let (mut lfsr1, mut lfsr2, mut lfsr3) = registers();
    let found = find_lfsr3_candidate(&mut lfsr3, &mut lfsr1, &mut lfsr2, &target, 3, 53, 96, 7);
    assert_eq!(found, Err(AttackError::ControlNotResolved));
    let shorter = find_lfsr3_candidate(&mut lfsr3, &mut lfsr1, &mut lfsr2, &target, 3, 53, 95, 7);
    assert_eq!(shorter, Ok(69));
}

#[test]
fn resolver_finds_every_planted_control_seed() {
    for seed3 in 1..128u32 {
        let target = synthetic_target(3, 53, seed3, 96);
        let (mut lfsr1, mut lfsr2, mut lfsr3) = registers();
        let found = find_lfsr3_candidate(&mut lfsr3, &mut lfsr1, &mut lfsr2, &target, 3, 53, 96, 7)
            .expect("a planted seed is found");
        assert_ne!(found, 0);
        assert_eq!(synthetic_target(3, 53, found, 96), target);
    }
}

#[test]
fn resolver_rejects_the_zero_state() {
    // The control register goes from 1 straight to 0 and stays there.
    let mut lfsr1 = LFSR::new(0b011, 3);
    let mut lfsr2 = LFSR::new(0b0011, 4);
    let mut lfsr3 = LFSR::new(0b10, 2);
    assert_eq!(lfsr3.generate(1, 4), vec![1, 0, 0, 0]);
    // With control state 0 the combined keystream is that of the second
    // register; with control state 1 it starts with the first register's bit.
    let target = lfsr2.generate(9, 12);
    assert_ne!(lfsr1.generate(4, 1)[0], target[0]);
    let found = find_lfsr3_candidate(&mut lfsr3, &mut lfsr1, &mut lfsr2, &target, 4, 9, 12, 2);
    assert_eq!(found, Err(AttackError::ControlNotResolved));
}

#[test]
fn resolver_leaves_the_registers_after_their_runs() {
    let target = synthetic_target(3, 53, 69, 96);
    let (mut lfsr1, mut lfsr2, mut lfsr3) = registers();
    find_lfsr3_candidate(&mut lfsr3, &mut lfsr1, &mut lfsr2, &target, 3, 53, 96, 7).unwrap();
    assert_eq!(lfsr1.state(), 12);
    assert_eq!(lfsr2.state(), 5);
    let mut reference = LFSR::new(0b0000011, 7);
    reference.generate(1, 128 + 96);
    assert_eq!(lfsr3.state(), reference.state());
}

#[test]
fn resolver_with_an_empty_target_returns_the_first_state() {
    let (mut lfsr1, mut lfsr2, mut lfsr3) = registers();
    let found = find_lfsr3_candidate(&mut lfsr3, &mut lfsr1, &mut lfsr2, &[], 3, 53, 0, 7);
    assert_eq!(found, Ok(1));
}
