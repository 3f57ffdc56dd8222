use geffe::attack::{streams_equal, RecoveredSeeds, ScanParams};
use geffe::bits::{binary_string, parse_keystream};
use geffe::error::AttackError;
use geffe::geffe::Geffe;
use geffe::lfsr::LFSR;

const TARGET: &str =
    "100011101100100100011110110110111000010111010001011011011000111100011111100010000100100100101111";

fn small_generator() -> Geffe {
    Geffe::new(LFSR::new(0b00101, 5), LFSR::new(0b000011, 6), LFSR::new(0b0000011, 7))
}

fn params(window_len: usize, threshold: usize) -> ScanParams {
    ScanParams { window_len, threshold }
}

#[test]
fn attack_recovers_planted_seeds() {
    let target = parse_keystream(TARGET).unwrap();
    let mut generator = small_generator();
    let outcome = generator.recover_seeds(&target, params(64, 22), params(64, 22));
    assert_eq!(outcome, Ok(RecoveredSeeds { seed1: 3, seed2: 53, seed3: 69 }));
    assert_eq!(generator.generate(3, 53, 69, target.len()), target);
}

#[test]
fn attack_round_trips_for_many_planted_seeds() {
    let mut recovered = 0;
    for &(seed1, seed2, seed3) in &[
        (11u32, 61u32, 20u32),
        (13, 42, 7),
        (3, 53, 69),
        (4, 24, 75),
        (2, 59, 65),
        (7, 3, 12),
        (14, 27, 9),
        (8, 6, 71),
    ] {
        let mut generator = small_generator();
        let target = generator.generate(seed1, seed2, seed3, 96);
        match generator.recover_seeds(&target, params(64, 22), params(64, 22)) {
            Ok(seeds) => {
                assert_ne!(seeds.seed1, 0);
                assert_ne!(seeds.seed2, 0);
                assert_ne!(seeds.seed3, 0);
                let again = generator.generate(seeds.seed1, seeds.seed2, seeds.seed3, 96);
                assert_eq!(again, target);
                assert_eq!((seeds.seed1, seeds.seed2, seeds.seed3), (seed1, seed2, seed3));
                recovered += 1;
            }
            Err(e) => panic!("attack failed: {}", e.message()),
        }
    }
    assert_eq!(recovered, 8);
}

#[test]
fn attack_fails_without_candidates() {
    let target = parse_keystream(TARGET).unwrap();
    let mut generator = small_generator();
    let outcome = generator.recover_seeds(&target, params(64, 0), params(64, 22));
    assert_eq!(outcome, Err(AttackError::NoCandidatesFound));
    let outcome = generator.recover_seeds(&target, params(64, 22), params(64, 0));
    assert_eq!(outcome, Err(AttackError::NoCandidatesFound));
}

#[test]
fn attack_excludes_the_right_seed_at_its_own_discrepancy() {
    // The discrepancy of the planted first seed over 64 bits is 15.
    let target = parse_keystream(TARGET).unwrap();
    let mut generator = small_generator();
    let outcome = generator.recover_seeds(&target, params(64, 15), params(64, 22));
    assert_eq!(outcome, Err(AttackError::NoCandidatesFound));
    let outcome = generator.recover_seeds(&target, params(64, 16), params(64, 22));
    assert_eq!(outcome, Ok(RecoveredSeeds { seed1: 3, seed2: 53, seed3: 69 }));
}

#[test]
fn attack_fails_when_no_control_seed_reproduces_the_target() {
    let mut target = parse_keystream(TARGET).unwrap();
    target[90] ^= 1;
    let mut generator = small_generator();
    let outcome = generator.recover_seeds(&target, params(64, 22), params(64, 22));
    assert_eq!(outcome, Err(AttackError::ControlNotResolved));
}

#[test]
fn verification_accepts_the_right_seeds_and_rejects_wrong_ones() {
    let target = parse_keystream(TARGET).unwrap();
    let mut generator = small_generator();
    assert_eq!(generator.verify_seeds(3, 53, 69, &target), Ok(()));
    assert_eq!(
        generator.verify_seeds(3, 53, 70, &target),
        Err(AttackError::VerificationMismatch)
    );
    assert_eq!(
        generator.verify_seeds(0, 0, 0, &target),
        Err(AttackError::VerificationMismatch)
    );
    assert_eq!(generator.verify_seeds(0, 0, 0, &[0, 0, 0]), Ok(()));
    assert_eq!(generator.verify_seeds(5, 6, 7, &[]), Ok(()));
}

#[test]
fn streams_are_equal_when_lengths_and_bits_agree() {
    assert!(streams_equal(&[1, 0, 1], &[1, 0, 1]));
    assert!(!streams_equal(&[1, 0, 1], &[1, 0, 0]));
    assert!(!streams_equal(&[1, 0, 1], &[1, 0]));
    assert!(!streams_equal(&[], &[0]));
    assert!(streams_equal(&[], &[]));
}

#[test]
fn keystream_is_read_from_zeros_and_ones() {
    assert_eq!(parse_keystream("0110"), Some(vec![0, 1, 1, 0]));
    assert_eq!(parse_keystream(""), Some(vec![]));
    assert_eq!(parse_keystream("01 10"), None);
    assert_eq!(parse_keystream("0120"), None);
    assert_eq!(parse_keystream("01\u{0661}"), None);
    assert_eq!(parse_keystream(TARGET).unwrap().len(), 96);
}

#[test]
fn seed_is_written_as_thirty_two_binary_digits() {
    assert_eq!(binary_string(0), "00000000000000000000000000000000");
    assert_eq!(binary_string(1), "00000000000000000000000000000001");
    assert_eq!(binary_string(69), "00000000000000000000000001000101");
    assert_eq!(binary_string(0x8000_0000), "10000000000000000000000000000000");
    assert_eq!(binary_string(u32::MAX), "11111111111111111111111111111111");
    assert_eq!(binary_string(0xDEAD_BEEF), format!("{:032b}", 0xDEAD_BEEFu32));
}

#[test]
fn each_failure_has_its_own_message() {
    let messages = [
        AttackError::NoCandidatesFound.message(),
        AttackError::ControlNotResolved.message(),
        AttackError::VerificationMismatch.message(),
    ];
    assert_eq!(messages[0], "no candidate seed found for a data register");
    assert_eq!(messages[1], "no control seed reproduces the target");
    assert_eq!(messages[2], "regenerated keystream differs from the target");
}

#[test]
fn attack_can_run_when_windows_and_reference_runs_fit() {
    let generator = small_generator();
    assert!(generator.can_recover(96, params(64, 22), params(96, 22)));
    assert!(!generator.can_recover(96, params(97, 22), params(64, 22)));
    assert!(!generator.can_recover(96, params(64, 22), params(97, 22)));
    assert!(generator.can_recover(0, params(0, 0), params(0, 0)));
    assert!(!generator.can_recover(usize::MAX, params(0, 0), params(0, 0)));
}

#[test]
fn attack_recovers_seeds_of_wider_registers() {
    let registers = || {
        Geffe::new(
            LFSR::new((1 << 3) | 1, 10),
            LFSR::new((1 << 2) | 1, 11),
            LFSR::new((1 << 6) | (1 << 4) | (1 << 1) | 1, 12),
        )
    };
    let planted = [(244u32, 1214u32, 2230u32), (134, 758, 3752), (14, 1862, 3431)];
    for &(seed1, seed2, seed3) in &planted {
        let target = registers().generate(seed1, seed2, seed3, 256);
        let mut generator = registers();
        assert!(generator.can_recover(256, params(128, 42), params(128, 42)));
        let outcome = generator.recover_seeds(&target, params(128, 42), params(128, 42));
        assert_eq!(outcome, Ok(RecoveredSeeds { seed1, seed2, seed3 }));
    }
}
