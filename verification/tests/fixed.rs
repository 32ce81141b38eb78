use rollback_sim::fixed::{
    clamp_to, div_toward_zero, isqrt, length_squared, scale_vector, unit_vector, vector_length,
    COORD_LIMIT, SCALE,
};

#[test]
fn isqrt_rounds_down() {
    assert_eq!(isqrt(0), 0);
    assert_eq!(isqrt(1), 1);
    assert_eq!(isqrt(2), 1);
    assert_eq!(isqrt(3), 1);
    assert_eq!(isqrt(4), 2);
    assert_eq!(isqrt(15), 3);
    assert_eq!(isqrt(16), 4);
    assert_eq!(isqrt(17), 4);
    assert_eq!(isqrt(64_000_000), 8_000);
    assert_eq!(isqrt(63_999_999), 7_999);
}

#[test]
fn isqrt_of_the_largest_word() {
    assert_eq!(isqrt(u64::MAX), 4_294_967_295);
    assert_eq!(isqrt(4_294_967_295 * 4_294_967_295), 4_294_967_295);
    assert_eq!(isqrt(4_294_967_295 * 4_294_967_295 - 1), 4_294_967_294);
}

#[test]
fn division_rounds_toward_zero() {
    assert_eq!(div_toward_zero(7, 2), 3);
    assert_eq!(div_toward_zero(-7, 2), -3);
    assert_eq!(div_toward_zero(6, 3), 2);
    assert_eq!(div_toward_zero(-6, 3), -2);
    assert_eq!(div_toward_zero(0, 5), 0);
    assert_eq!(div_toward_zero(-1, 60), 0);
    assert_eq!(div_toward_zero(59, 60), 0);
}

#[test]
fn clamp_saturates_at_the_limit() {
    assert_eq!(clamp_to(5, 10), 5);
    assert_eq!(clamp_to(-5, 10), -5);
    assert_eq!(clamp_to(11, 10), 10);
    assert_eq!(clamp_to(-11, 10), -10);
    assert_eq!(clamp_to(i64::MAX, COORD_LIMIT), COORD_LIMIT);
    assert_eq!(clamp_to(i64::MIN, COORD_LIMIT), -COORD_LIMIT);
}

#[test]
fn length_of_a_three_four_five_triangle() {
    assert_eq!(length_squared(3_000, 4_000), 25_000_000);
    assert_eq!(vector_length(3_000, 4_000), 5_000);
    assert_eq!(vector_length(-3_000, 4_000), 5_000);
    assert_eq!(vector_length(0, 0), 0);
    assert_eq!(vector_length(1, 1), 1);
}

#[test]
fn length_at_the_edge_of_the_world() {
    let edge = 2 * COORD_LIMIT;
    assert_eq!(length_squared(edge, edge), 8_000_000_000_000_000_000);
    assert_eq!(vector_length(edge, 0), edge);
    assert_eq!(vector_length(edge, edge), 2_828_427_124);
}

#[test]
fn unit_vector_has_length_one() {
    assert_eq!(unit_vector(3_000, 4_000), (600, 800));
    assert_eq!(unit_vector(-3_000, -4_000), (-600, -800));
    assert_eq!(unit_vector(8_000, 0), (SCALE, 0));
    assert_eq!(unit_vector(0, -2), (0, -SCALE));
    assert_eq!(unit_vector(0, 0), (0, 0));
}

#[test]
fn unit_vector_rounds_toward_zero() {
    // The length of (1, 1) rounds down to 1, so each coordinate is a full unit.
    assert_eq!(unit_vector(1, 1), (1_000, 1_000));
    // The length of (1000, 1000) is 1414.2..., rounded down to 1414.
    assert_eq!(unit_vector(1_000, 1_000), (707, 707));
    assert_eq!(unit_vector(-1_000, 1_000), (-707, 707));
}

#[test]
fn scale_vector_multiplies_by_a_fixed_point_factor() {
    assert_eq!(scale_vector((600, 800), 10_000), (6_000, 8_000));
    assert_eq!(scale_vector((-600, 800), 10_000), (-6_000, 8_000));
    assert_eq!(scale_vector((707, -707), 1_500), (1_060, -1_060));
    assert_eq!(scale_vector((1_000, 0), 0), (0, 0));
}

#[test]
fn division_covers_the_whole_range() {
    assert_eq!(div_toward_zero(i64::MIN, 1), i64::MIN);
    assert_eq!(div_toward_zero(i64::MIN, 2), i64::MIN / 2);
    assert_eq!(div_toward_zero(i64::MIN, i64::MAX), -1);
    assert_eq!(div_toward_zero(i64::MAX, i64::MAX), 1);
    assert_eq!(div_toward_zero(i64::MIN + 1, i64::MAX), -1);
    assert_eq!(div_toward_zero(i64::MAX - 1, i64::MAX), 0);
}
