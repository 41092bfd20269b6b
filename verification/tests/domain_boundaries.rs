use mddem::domain::{
    axes_with, boundary_type_char, resolve_boundary, BoundaryConfig, BoundaryType,
};

#[test]
fn backward_compat_periodic_flags() {
    // Only periodic flags, no explicit boundary types
    let config = BoundaryConfig { periodic: [true, false, true], ..Default::default() };
    let types = config.resolved_boundary_types();
    assert_eq!(types, [BoundaryType::Periodic, BoundaryType::Fixed, BoundaryType::Periodic]);
}

#[test]
fn boundary_type_overrides_periodic() {
    // boundary_z = shrink-wrap overrides periodic_z = true
    let config = BoundaryConfig {
        periodic: [true, true, true],
        boundary: [None, None, Some(BoundaryType::ShrinkWrap)],
    };
    let types = config.resolved_boundary_types();
    assert_eq!(types[0], BoundaryType::Periodic);
    assert_eq!(types[1], BoundaryType::Periodic);
    assert_eq!(types[2], BoundaryType::ShrinkWrap);
}

#[test]
fn explicit_fixed_overrides_periodic_flag() {
    assert_eq!(resolve_boundary(Some(BoundaryType::Fixed), true), BoundaryType::Fixed);
    assert_eq!(resolve_boundary(None, false), BoundaryType::Fixed);
    assert_eq!(resolve_boundary(None, true), BoundaryType::Periodic);
}

#[test]
fn default_boundary_config_is_fully_periodic() {
    let config = BoundaryConfig::default();
    assert_eq!(config.resolved_boundary_types(), [BoundaryType::Periodic; 3]);
    assert_eq!(BoundaryType::default(), BoundaryType::Periodic);
}

#[test]
fn boundary_letters() {
    let s: String = [BoundaryType::Periodic, BoundaryType::Fixed, BoundaryType::ShrinkWrap]
        .iter()
        .map(|b| boundary_type_char(*b))
        .collect();
    assert_eq!(s, "pfs");
}

#[test]
fn periodic_and_shrink_wrap_flags() {
    let types = [BoundaryType::Periodic, BoundaryType::ShrinkWrap, BoundaryType::Fixed];
    assert_eq!(axes_with(&types, BoundaryType::Periodic), [true, false, false]);
    assert_eq!(axes_with(&types, BoundaryType::ShrinkWrap), [false, true, false]);
}
