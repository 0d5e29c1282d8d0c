use tulip_rs_ffi::ids::{assign_indicator_ids, fnv1a32, lowercase_name, IdError, FNV_OFFSET_BASIS};

#[test]
fn fnv_reference_vectors() {
    assert_eq!(fnv1a32(b""), 0x811c9dc5);
    assert_eq!(fnv1a32(b""), FNV_OFFSET_BASIS);
    assert_eq!(fnv1a32(b"a"), 0xe40c292c);
    assert_eq!(fnv1a32(b"foobar"), 0xbf9cf968);
}

#[test]
fn lowercase_of_prefixes() {
    assert_eq!(lowercase_name(&b"ADX".to_vec()), b"adx".to_vec());
    assert_eq!(lowercase_name(&b"AroonOsc_2".to_vec()), b"aroonosc_2".to_vec());
}

#[test]
fn ids_are_name_hashes() {
    let prefixes = vec![b"AD".to_vec(), b"ADX".to_vec(), b"STOCH".to_vec()];
    let entries = assign_indicator_ids(&prefixes, &Vec::new()).unwrap();
    assert_eq!(entries.len(), 3);
    assert_eq!(entries[1].name, b"adx".to_vec());
    assert_eq!(entries[1].prefix, b"ADX".to_vec());
    assert_eq!(entries[1].id, fnv1a32(b"adx"));
    assert_eq!(entries[2].id, fnv1a32(b"stoch"));
}

#[test]
fn ids_do_not_depend_on_list_position() {
    let a = vec![b"AD".to_vec(), b"ADX".to_vec()];
    let b = vec![b"ZLEMA".to_vec(), b"ADX".to_vec(), b"AD".to_vec()];
    let ea = assign_indicator_ids(&a, &Vec::new()).unwrap();
    let eb = assign_indicator_ids(&b, &Vec::new()).unwrap();
    assert_eq!(ea[0].id, eb[2].id);
    assert_eq!(ea[1].id, eb[1].id);
}

#[test]
fn name_too_long_is_refused() {
    let long = vec![b'A'; 33];
    let prefixes = vec![b"AD".to_vec(), long, vec![b'B'; 40]];
    match assign_indicator_ids(&prefixes, &Vec::new()) {
        Err(e) => assert_eq!(e, IdError::NameTooLong(1)),
        Ok(_) => panic!("expected a refused name"),
    }
}

#[test]
fn name_of_exactly_the_field_width_fits() {
    let prefixes = vec![vec![b'A'; 32]];
    assert!(assign_indicator_ids(&prefixes, &Vec::new()).is_ok());
}

#[test]
fn collision_is_refused() {
    // Two prefixes with the same lowercase name hash to the same id.
    let prefixes = vec![b"AD".to_vec(), b"SMA".to_vec(), b"ad".to_vec()];
    match assign_indicator_ids(&prefixes, &Vec::new()) {
        Err(e) => assert_eq!(e, IdError::Collision(0, 2)),
        Ok(_) => panic!("expected a collision"),
    }
}

#[test]
fn pinned_id_collision_is_refused() {
    let prefixes = vec![b"AD".to_vec(), b"ADX".to_vec()];
    let overrides = vec![(b"adx".to_vec(), fnv1a32(b"ad"))];
    match assign_indicator_ids(&prefixes, &overrides) {
        Err(e) => assert_eq!(e, IdError::Collision(0, 1)),
        Ok(_) => panic!("expected a collision"),
    }
}

#[test]
fn override_pins_an_id() {
    let prefixes = vec![b"AD".to_vec(), b"ADX".to_vec()];
    let overrides = vec![(b"adx".to_vec(), 7u32), (b"adx".to_vec(), 42u32)];
    let entries = assign_indicator_ids(&prefixes, &overrides).unwrap();
    assert_eq!(entries[0].id, fnv1a32(b"ad"));
    assert_eq!(entries[1].id, 42);
}

#[test]
fn stale_override_is_refused() {
    let prefixes = vec![b"AD".to_vec()];
    let overrides = vec![(b"ad".to_vec(), 1u32), (b"nosuch".to_vec(), 2u32)];
    match assign_indicator_ids(&prefixes, &overrides) {
        Err(e) => assert_eq!(e, IdError::StaleOverride(1)),
        Ok(_) => panic!("expected a stale override"),
    }
}
