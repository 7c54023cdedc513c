use longcut::geometry::{Dimensions, Position};
use longcut::property::{limit_measure, limit_region, margin_measure, margin_region, Limit, Side};

#[test]
fn a_margin_grows_the_size_across_its_side() {
    let child = Dimensions::new(40, 10);
    assert_eq!(margin_measure(Side::Top, 5, child), Dimensions::new(40, 15));
    assert_eq!(margin_measure(Side::Bottom, 5, child), Dimensions::new(40, 15));
    assert_eq!(margin_measure(Side::Left, 5, child), Dimensions::new(45, 10));
    assert_eq!(margin_measure(Side::Right, 5, child), Dimensions::new(45, 10));
    assert_eq!(
        margin_measure(Side::Top, 2, Dimensions::new(1, u32::MAX - 1)),
        Dimensions::new(1, u32::MAX)
    );
}

#[test]
fn a_margin_draws_the_component_in_what_it_leaves() {
    let region = Dimensions::new(100, 50);
    assert_eq!(
        margin_region(Side::Top, 20, region),
        (Position::new(0, 20), Dimensions::new(100, 30))
    );
    assert_eq!(
        margin_region(Side::Bottom, 20, region),
        (Position::new(0, 0), Dimensions::new(100, 30))
    );
    assert_eq!(
        margin_region(Side::Left, 20, region),
        (Position::new(20, 0), Dimensions::new(80, 50))
    );
    assert_eq!(
        margin_region(Side::Right, 120, region),
        (Position::new(0, 0), Dimensions::new(0, 50))
    );
}

#[test]
fn limits_raise_or_cut_down_one_size() {
    let child = Dimensions::new(40, 10);
    assert_eq!(limit_measure(Limit::MaximumHeight, 5, child), Dimensions::new(40, 5));
    assert_eq!(limit_measure(Limit::MaximumHeight, 50, child), Dimensions::new(40, 10));
    assert_eq!(limit_measure(Limit::MinimumHeight, 50, child), Dimensions::new(40, 50));
    assert_eq!(limit_measure(Limit::MaximumWidth, 30, child), Dimensions::new(30, 10));
    assert_eq!(limit_measure(Limit::MinimumWidth, 30, child), Dimensions::new(40, 10));
}

#[test]
fn a_fixed_height_is_that_height_whatever_the_child_asks_for() {
    for child in [Dimensions::new(40, 10), Dimensions::new(40, 90)] {
        let fixed = limit_measure(
            Limit::MaximumHeight,
            25,
            limit_measure(Limit::MinimumHeight, 25, child),
        );
        assert_eq!(fixed, Dimensions::new(40, 25));
    }
}

#[test]
fn an_upper_limit_draws_in_a_region_of_the_limited_size() {
    let region = Dimensions::new(100, 50);
    assert_eq!(
        limit_region(Limit::MaximumHeight, 20, region),
        Some((Position::new(0, 0), Dimensions::new(100, 20)))
    );
    assert_eq!(
        limit_region(Limit::MaximumWidth, 20, region),
        Some((Position::new(0, 0), Dimensions::new(20, 50)))
    );
    assert_eq!(limit_region(Limit::MinimumWidth, 20, region), None);
}
