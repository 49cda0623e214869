use brush_render::config::RandomSplatsConfig;
use brush_render::splat_layout::{
    sh_coeffs_for_degree, sh_degree_from_coeffs, sh_resize_for_degree, splat_shapes_from_raw,
    ShResize,
};

#[test]
fn config_defaults_and_overrides() {
    let config = RandomSplatsConfig::new();
    assert_eq!(config.init_count(), 10000);
    let config = config.with_init_count(42);
    assert_eq!(config.init_count(), 42);
}

#[test]
fn sh_counts_and_degrees() {
    assert_eq!(sh_coeffs_for_degree(0), 1);
    assert_eq!(sh_coeffs_for_degree(3), 16);
    assert_eq!(sh_degree_from_coeffs(1), Some(0));
    assert_eq!(sh_degree_from_coeffs(16), Some(3));
    assert_eq!(sh_degree_from_coeffs(25), Some(4));
    assert_eq!(sh_degree_from_coeffs(10), None);
    assert_eq!(sh_degree_from_coeffs(0), None);
    for d in 0..10 {
        assert_eq!(sh_degree_from_coeffs(sh_coeffs_for_degree(d)), Some(d));
    }
}

#[test]
fn sh_resize_pads_or_truncates() {
    assert!(matches!(sh_resize_for_degree(1, 3), ShResize::Pad(15)));
    assert!(matches!(sh_resize_for_degree(16, 1), ShResize::Truncate(4)));
    assert!(matches!(sh_resize_for_degree(9, 2), ShResize::Truncate(9)));
}

#[test]
fn shapes_from_raw_buffers() {
    let s = splat_shapes_from_raw(30, Some(480)).unwrap();
    assert_eq!((s.n_splats, s.sh_coeffs_per_channel), (10, 16));
    let s = splat_shapes_from_raw(31, None).unwrap();
    assert_eq!((s.n_splats, s.sh_coeffs_per_channel), (10, 1));
    assert!(splat_shapes_from_raw(2, Some(3)).is_none());
}
