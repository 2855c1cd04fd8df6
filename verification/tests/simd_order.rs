#[test]
fn order_of_operations() {
    let sqrt3 = 3.0f32.sqrt();
    let dx = 5.5;
    let dy = 6.6;
    let hex_radius = 7.7;

    let q = (sqrt3 / 3.0 * dx - 1.0 / 3.0 * dy) / hex_radius;

    let expected = ((sqrt3 / 3.0) * dx - ((1.0 / 3.0) * dy)) / hex_radius;
    assert_eq!(q, expected);
    assert_eq!(kaleidomo_core::kaleido_type_to_u32(kaleidomo_core::KaleidoType::Hexagonal), 3);
}
