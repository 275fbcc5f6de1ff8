use vyges_mpl::halo::Orient;
use vyges_mpl::read::{is_pad_without_signal_type, is_supply_sig_type, orient_from_name, placement_status_is_fixed};

#[test]
fn three_statuses_mean_fixed() {
    assert!(placement_status_is_fixed("FIRM"));
    assert!(placement_status_is_fixed("LOCKED"));
    assert!(placement_status_is_fixed("FIXED"));
    assert!(!placement_status_is_fixed("PLACED"));
    assert!(!placement_status_is_fixed("firm"));
}

#[test]
fn supply_nets_and_signal_less_pads_are_recognised() {
    assert!(is_supply_sig_type("POWER") && is_supply_sig_type("GROUND"));
    assert!(!is_supply_sig_type("SIGNAL") && !is_supply_sig_type("CLOCK"));
    assert!(is_pad_without_signal_type("PAD_POWER") && is_pad_without_signal_type("PAD_SPACER"));
    assert!(!is_pad_without_signal_type("PAD_INPUT"));
}

#[test]
fn four_orientations_are_told_apart_and_the_rest_are_other() {
    assert_eq!(orient_from_name("R0"), Orient::R0);
    assert_eq!(orient_from_name("R180"), Orient::R180);
    assert_eq!(orient_from_name("MX"), Orient::Mx);
    assert_eq!(orient_from_name("MY"), Orient::My);
    assert_eq!(orient_from_name("R90"), Orient::Other);
    assert_eq!(orient_from_name("MXR90"), Orient::Other);
}
