use rallocator::tunables::{
    create_aligned_class_map, create_class_map, create_class_reciprocals, create_class_shifts, valid_size_classes, SizeClassLayout,
    Standard, StandardSizeClasses, Tuning, CLASS_MAP_LEN, MAX_SIZE_CLASSES,
};

#[test]
fn runtime_size_class_validation_rejects_every_invalid_shape() {
    assert!(!valid_size_classes(&[]));
    assert!(!valid_size_classes(&[16; MAX_SIZE_CLASSES + 1]));
    assert!(!valid_size_classes(&[16, 32]));
    assert!(!valid_size_classes(&[0, 16_384]));
    assert!(!valid_size_classes(&[17, 16_384]));
    assert!(!valid_size_classes(&[32, 16, 16_384]));
    assert!(valid_size_classes(&[16, 48, 16_384]));
}

#[test]
fn runtime_size_class_tables_cover_alignment_and_arithmetic_cases() {
    let sizes = [16, 48, 64, 16_384];
    let class_map = create_class_map(&sizes);
    assert_eq!(class_map[1], 0);
    assert_eq!(class_map[2], 1);
    assert_eq!(class_map[4], 2);
    assert_eq!(class_map[CLASS_MAP_LEN - 1], 3);

    let aligned = create_aligned_class_map(&sizes);
    assert_eq!(aligned[0][1], 0);
    assert_eq!(aligned[6][1], 2);
    assert_eq!(aligned[12][1], 3);

    let reciprocals = create_class_reciprocals(&sizes);
    assert_ne!(reciprocals[0], 0);
    assert_ne!(reciprocals[3], 0);
    assert_eq!(reciprocals[4], 0);

    let shifts = create_class_shifts(&sizes);
    assert_eq!(shifts[0], 4);
    assert_eq!(shifts[1], u8::MAX);
    assert_eq!(shifts[2], 6);
    assert_eq!(shifts[3], 14);
    assert_eq!(shifts[4], u8::MAX);
}

#[test]
fn the_standard_layout_is_valid() {
    let sizes = StandardSizeClasses::sizes();
    assert_eq!(sizes.len(), 37);
    assert!(valid_size_classes(&sizes));
    let tuning = Tuning::of::<Standard>().unwrap();
    assert_eq!(tuning.sizes, sizes);
    assert_eq!(tuning.partial_slab_scan_limit, 4);
    assert_eq!(tuning.batch_limit, 256);
    assert_eq!(tuning.medium_purge_delay_ms, 1_000);
    assert!(Tuning::new(vec![16, 32], 4, 256, 1_000).is_none());
    assert!(Tuning::new(sizes, 0, 256, 1_000).is_none());
}
