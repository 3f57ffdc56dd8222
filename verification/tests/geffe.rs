use geffe::geffe::{combine_streams, Geffe};
use geffe::lfsr::LFSR;

fn small_generator() -> Geffe {
    Geffe::new(LFSR::new(0b00101, 5), LFSR::new(0b000011, 6), LFSR::new(0b0000011, 7))
}

#[test]
fn combiner_takes_the_first_stream_where_the_control_bit_is_one() {
    let control = [1u8, 0, 1, 0, 1, 1];
    let first = [1u8, 1, 0, 0, 1, 0];
    let second = [0u8, 1, 1, 0, 0, 1];
    assert_eq!(combine_streams(&control, &first, &second, 6), vec![1, 1, 0, 0, 1, 0]);
    assert_eq!(combine_streams(&control, &first, &second, 3), vec![1, 1, 0]);
    assert_eq!(combine_streams(&control, &first, &second, 0), Vec::<u8>::new());
}

#[test]
fn geffe_keystream_is_the_combination_of_the_three_register_keystreams() {
    let mut generator = small_generator();
    let combined = generator.generate(3, 53, 69, 96);
    let first = LFSR::new(0b00101, 5).generate(3, 96);
    let second = LFSR::new(0b000011, 6).generate(53, 96);
    let control = LFSR::new(0b0000011, 7).generate(69, 96);
    for i in 0..96 {
        let expected = if control[i] == 1 { first[i] } else { second[i] };
        assert_eq!(combined[i], expected);
    }
    let text: String = combined.iter().map(|b| if *b == 1 { '1' } else { '0' }).collect();
    assert_eq!(
        text,
        "100011101100100100011110110110111000010111010001011011011000111100011111100010000100100100101111"
    );
}

#[test]
fn geffe_generate_leaves_each_register_after_its_run() {
    let mut generator = small_generator();
    generator.generate(3, 53, 69, 96);
    assert_eq!(generator.lfsr1.state(), 12);
    assert_eq!(generator.lfsr2.state(), 5);
    assert_eq!(generator.lfsr3.state(), 85);
    assert_eq!(generator.lfsr1.taps(), 0b00101);
    assert_eq!(generator.lfsr3.degree(), 7);
}

#[test]
fn geffe_generate_is_deterministic() {
    let mut generator = small_generator();
    let first = generator.generate(3, 53, 69, 200);
    let second = generator.generate(3, 53, 69, 200);
    assert_eq!(first, second);
    assert_eq!(first.len(), 200);
}

#[test]
fn zero_control_seed_passes_the_second_register_through() {
    let mut generator = small_generator();
    let combined = generator.generate(3, 53, 0, 64);
    assert_eq!(combined, LFSR::new(0b000011, 6).generate(53, 64));
    assert_eq!(generator.generate(0, 0, 0, 64), vec![0u8; 64]);
}
