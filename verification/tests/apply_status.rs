use vyges_mpl::apply::{blockages_to_destroy, settles_as, Baseline, Settlement};
use vyges_mpl::status::{settle_status, Status};

#[test]
fn nothing_added_means_nothing_to_destroy() {
    assert!(blockages_to_destroy(Baseline { blockages: 3 }, 3).is_empty());
}

#[test]
fn destruction_runs_highest_index_first() {
    assert_eq!(blockages_to_destroy(Baseline { blockages: 3 }, 6), vec![5, 4, 3]);
}

#[test]
fn a_baseline_of_zero_removes_everything() {
    assert_eq!(blockages_to_destroy(Baseline { blockages: 0 }, 2), vec![1, 0]);
}

#[test]
fn a_shrunken_count_asks_for_nothing_rather_than_producing_garbage_indices() {
    assert!(blockages_to_destroy(Baseline { blockages: 5 }, 2).is_empty());
}

#[test]
fn only_success_commits() {
    assert_eq!(settles_as(true), Settlement::Committed);
    assert_eq!(settles_as(false), Settlement::RolledBack);
}

#[test]
fn placing_nothing_is_never_applied() {
    assert_eq!(settle_status(0, None), Status::Vacuous);
    assert_ne!(settle_status(0, None), Status::Applied);
}

#[test]
fn a_refusal_outranks_the_count() {
    assert_eq!(settle_status(12, Some("flat cluster needs par")), Status::Refused);
    assert_eq!(settle_status(0, Some("flat cluster needs par")), Status::Refused);
}

#[test]
fn placing_macros_is_applied() {
    assert_eq!(settle_status(1, None), Status::Applied);
}

#[test]
fn no_two_verdicts_share_an_exit_code() {
    let codes = [Status::Applied, Status::Refused, Status::Vacuous].map(Status::exit_code);
    let mut sorted = codes;
    sorted.sort_unstable();
    let mut deduped = sorted.to_vec();
    deduped.dedup();
    assert_eq!(deduped.len(), codes.len(), "a CI gate must distinguish them: {codes:?}");
}

#[test]
fn the_pass_word_is_the_only_one_that_exits_zero() {
    assert_eq!(Status::Applied.exit_code(), 0);
    assert_ne!(Status::Vacuous.exit_code(), 0);
    assert_ne!(Status::Refused.exit_code(), 0);
}
