use vyges_mpl::options::Halo;
use vyges_mpl::placer_args::{
    blockage_weights_conflict, deprecated_base_halo, key_of, scan_placer_args, scan_stop_error, PlacerKey, ScanStop,
};

#[test]
fn flags_stand_alone_and_keys_take_the_next_token() {
    let (keys, stop) = scan_placer_args(&["-use_full_halo", "-target_util", "0.3", "-keep_clustering_data", "-halo_width", "5"]);
    assert_eq!(
        keys,
        vec![
            (PlacerKey::UseFullHalo, 0),
            (PlacerKey::TargetUtil, 2),
            (PlacerKey::KeepClusteringData, 3),
            (PlacerKey::HaloWidth, 5)
        ]
    );
    assert_eq!(stop, None);
}

#[test]
fn a_key_without_a_value_stops_the_scan_before_it_is_looked_up() {
    let (keys, stop) = scan_placer_args(&["-min_ar", "0.5", "-bogus"]);
    assert_eq!(keys, vec![(PlacerKey::MinAr, 1)]);
    assert_eq!(stop, Some(ScanStop::MissingValue("-bogus".to_string())));
    let e = scan_stop_error(&stop.unwrap());
    assert_eq!((e.code, e.message.as_str()), (0, "-bogus requires a value."));
}

#[test]
fn an_unknown_keyword_stops_the_scan() {
    let (keys, stop) = scan_placer_args(&["-bogus", "1", "-min_ar", "0.5"]);
    assert!(keys.is_empty());
    let e = scan_stop_error(&stop.unwrap());
    assert_eq!((e.code, e.message.as_str()), (0, "Unknown keyword -bogus for rtl_macro_placer."));
    assert_eq!(key_of("-soft_blockage_weight"), Some(PlacerKey::SoftBlockageWeight));
    assert_eq!(key_of("soft_blockage_weight"), None);
}

#[test]
fn both_blockage_weights_are_refused() {
    let e = blockage_weights_conflict(true, true).unwrap_err();
    assert_eq!(e.code, 69);
    assert_eq!(e.message, "Cannot set -macro_blockage_weight along with -soft_blockage_weight. Use only one of those keys.");
    assert!(blockage_weights_conflict(true, false).is_ok());
    assert!(blockage_weights_conflict(false, true).is_ok());
}

#[test]
fn one_deprecated_halo_key_stands_in_for_the_other() {
    assert_eq!(deprecated_base_halo(None, None), None);
    assert_eq!(deprecated_base_halo(Some(4), None), Some(Halo { left: 4, bottom: 4, right: 4, top: 4 }));
    assert_eq!(deprecated_base_halo(Some(4), Some(7)), Some(Halo { left: 4, bottom: 7, right: 4, top: 7 }));
    assert_eq!(deprecated_base_halo(None, Some(7)), Some(Halo { left: 7, bottom: 7, right: 7, top: 7 }));
}
