use longcut::geometry::{Dimensions, Font, Position};

#[test]
fn addition_sums_each_side() {
    assert_eq!(
        Dimensions::new(1, 2).saturating_add(Dimensions::new(10, 20)),
        Dimensions::new(11, 22)
    );
}

#[test]
fn dimensions_addition_saturates_at_u32_max() {
    assert_eq!(
        Dimensions::new(u32::MAX, u32::MAX - 1).saturating_add(Dimensions::new(1, 2)),
        Dimensions::new(u32::MAX, u32::MAX)
    );
}

#[test]
fn addition_sums_each_axis() {
    assert_eq!(
        Position::new(1, 2).saturating_add(Position::new(10, 20)),
        Position::new(11, 22)
    );
}

#[test]
fn position_addition_saturates_at_u32_max() {
    assert_eq!(
        Position::new(u32::MAX, u32::MAX - 1).saturating_add(Position::new(1, 2)),
        Position::new(u32::MAX, u32::MAX)
    );
}

#[test]
fn intersection_takes_the_smaller_side() {
    assert_eq!(
        Dimensions::new(10, 40).intersect(Dimensions::new(30, 20)),
        Dimensions::new(10, 20)
    );
}

#[test]
fn the_origin_is_zero_on_both_axes() {
    assert_eq!(Position::zero(), Position::new(0, 0));
}

#[test]
fn a_font_keeps_its_family_and_size() {
    let font = Font::new("Sans".to_string(), 12);
    assert_eq!(font.family, "Sans");
    assert_eq!(font.size, 12);
}
