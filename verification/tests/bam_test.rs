use ordent::bam::{advance_phase, phase_lag};

#[test]
fn lag_crosses_the_zero_boundary_by_the_short_way() {
    // A source just below a full turn pulls a target just above zero backwards.
    assert_eq!(phase_lag(u32::MAX - 100_000, 100_000), -200_001);
    assert_eq!(phase_lag(100_000, u32::MAX - 100_000), 200_001);
}

#[test]
fn lag_of_a_quarter_turn() {
    assert_eq!(phase_lag(u32::MAX / 4, 0), 1_073_741_823);
    assert_eq!(phase_lag(0, u32::MAX / 4), -1_073_741_823);
}

#[test]
fn lag_at_half_a_turn_is_the_negative_extreme() {
    assert_eq!(phase_lag(0x8000_0000, 0), i32::MIN);
    assert_eq!(phase_lag(0, 0x8000_0000), i32::MIN);
    assert_eq!(phase_lag(u32::MAX / 2, 0), i32::MAX);
}

#[test]
fn lag_is_invariant_under_rotation() {
    let shift = 3_000_000_000u32;
    let (a, b) = (123_456u32, 4_000_000_000u32);
    assert_eq!(
        phase_lag(a.wrapping_add(shift), b.wrapping_add(shift)),
        phase_lag(a, b)
    );
}

#[test]
fn lag_of_equal_phases_is_zero() {
    assert_eq!(phase_lag(77, 77), 0);
}

#[test]
fn advance_phase_multiplies_and_wraps() {
    assert_eq!(advance_phase(0, 10, 16), 160);
    assert_eq!(advance_phase(u32::MAX, 1, 1), 0);
    assert_eq!(advance_phase(5, 0x8000_0000, 2), 5);
    assert_eq!(advance_phase(100_000, 0, 16), 100_000);
}

#[test]
fn advance_phase_composes_over_time_steps() {
    let (theta, d_theta) = (4_000_000_000u32, 123_457u32);
    let (dt1, dt2) = (40_000u32, 4_294_000_000u32);
    let twice = advance_phase(advance_phase(theta, d_theta, dt1), d_theta, dt2);
    assert_eq!(twice, advance_phase(theta, d_theta, dt1.wrapping_add(dt2)));
}
