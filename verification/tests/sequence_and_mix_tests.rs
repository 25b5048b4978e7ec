use walkie_talkie_engine::mix::{accumulate, add_sample, clamp_sample, finalize, silent_mix};
use walkie_talkie_engine::sequence::{advance, distance, successor};

#[test]
fn distance_counts_forward_steps() {
    assert_eq!(distance(5, 5), 0);
    assert_eq!(distance(5, 6), 1);
    assert_eq!(distance(5, 15), 10);
    assert_eq!(distance(0, 65535), 65535);
}

#[test]
fn distance_wraps_across_the_boundary() {
    assert_eq!(distance(65535, 0), 1);
    assert_eq!(distance(65530, 4), 10);
    assert_eq!(distance(6, 5), 65535);
    assert_eq!(distance(10, 65530), 65520);
}

#[test]
fn successor_wraps_to_zero() {
    assert_eq!(successor(0), 1);
    assert_eq!(successor(65534), 65535);
    assert_eq!(successor(65535), 0);
}

#[test]
fn advance_wraps_modulo_two_to_the_sixteen() {
    assert_eq!(advance(10, 0), 10);
    assert_eq!(advance(10, 9), 19);
    assert_eq!(advance(65530, 9), 3);
    assert_eq!(advance(65535, 65535), 65534);
}

#[test]
fn add_sample_is_plain_addition_in_range() {
    assert_eq!(add_sample(0, 0), 0);
    assert_eq!(add_sample(20000, 20000), 40000);
    assert_eq!(add_sample(-20000, -20000), -40000);
    assert_eq!(add_sample(100, -32768), -32668);
}

#[test]
fn add_sample_saturates_at_the_accumulator_limits() {
    assert_eq!(add_sample(i32::MAX, 1), i32::MAX);
    assert_eq!(add_sample(i32::MAX - 5, 32767), i32::MAX);
    assert_eq!(add_sample(i32::MIN, -1), i32::MIN);
    assert_eq!(add_sample(i32::MIN + 5, -32768), i32::MIN);
    assert_eq!(add_sample(i32::MAX, -1), i32::MAX - 1);
}

#[test]
fn clamp_sample_limits_to_sixteen_bits() {
    assert_eq!(clamp_sample(0), 0);
    assert_eq!(clamp_sample(32767), 32767);
    assert_eq!(clamp_sample(32768), 32767);
    assert_eq!(clamp_sample(40000), 32767);
    assert_eq!(clamp_sample(-32768), -32768);
    assert_eq!(clamp_sample(-32769), -32768);
    assert_eq!(clamp_sample(i32::MIN), -32768);
    assert_eq!(clamp_sample(i32::MAX), 32767);
    assert_eq!(clamp_sample(-123), -123);
}

#[test]
fn silent_mix_is_all_zero() {
    assert_eq!(silent_mix(0), Vec::<i32>::new());
    assert_eq!(silent_mix(5), vec![0, 0, 0, 0, 0]);
}

#[test]
fn accumulate_adds_at_the_given_offset() {
    let mut mix = vec![1, 2, 3, 4, 5, 6];
    accumulate(&mut mix, 2, &[10, -20, 30]);
    assert_eq!(mix, vec![1, 2, 13, -16, 35, 6]);
    accumulate(&mut mix, 0, &[]);
    assert_eq!(mix, vec![1, 2, 13, -16, 35, 6]);
    accumulate(&mut mix, 6, &[]);
    assert_eq!(mix, vec![1, 2, 13, -16, 35, 6]);
}

#[test]
fn finalize_clamps_every_accumulator() {
    let mix = vec![0, 40000, -40000, 32767, -32768, 17];
    let mut frames = [99i16; 6];
    finalize(&mix, &mut frames);
    assert_eq!(frames, [0, 32767, -32768, 32767, -32768, 17]);
}

#[test]
fn two_loud_frames_saturate_the_output() {
    let mut mix = silent_mix(8);
    accumulate(&mut mix, 0, &[20000; 8]);
    accumulate(&mut mix, 0, &[20000; 8]);
    assert_eq!(mix, vec![40000; 8]);
    let mut frames = [0i16; 8];
    finalize(&mix, &mut frames);
    assert_eq!(frames, [32767; 8]);
}

#[test]
fn mixing_order_does_not_matter() {
    let a = [1000i16, -2000, 3000, 4];
    let b = [-7i16, 32767, -32768, 9];
    let mut first = silent_mix(6);
    accumulate(&mut first, 0, &a);
    accumulate(&mut first, 2, &b);
    let mut second = silent_mix(6);
    accumulate(&mut second, 2, &b);
    accumulate(&mut second, 0, &a);
    assert_eq!(first, second);
    assert_eq!(first, vec![1000, -2000, 2993, 32771, -32768, 9]);
}
