use gattify::model::AdvertisingReport;
use gattify::winrt::advertise::{
    advertising_report, cut_local_name, LocalNameCut, ProviderStatus, Publication, PublishStep,
    Published, Publisher, LOCAL_NAME_BUDGET,
};
use gattify::ErrorCode;


#[test]
fn a_name_is_cut_at_a_character_boundary() {
    assert_eq!(
        cut_local_name(Some("Host A"), LOCAL_NAME_BUDGET),
        LocalNameCut {
            bytes: b"Host A".to_vec(),
            truncated: false
        }
    );
    let cut = cut_local_name(Some("Thirteen byte"), LOCAL_NAME_BUDGET);
    assert!(!cut.truncated);
    let cut = cut_local_name(Some("Fourteen bytes"), LOCAL_NAME_BUDGET);
    assert_eq!(cut.bytes, b"Fourteen byte");
    assert!(cut.truncated);
    // "é" takes two bytes and cannot be split.
    let cut = cut_local_name(Some("ééééééé"), LOCAL_NAME_BUDGET);
    assert_eq!(cut.bytes, "éééééé".as_bytes());
    assert!(cut.truncated);
    let cut = cut_local_name(Some("😀"), 3);
    assert!(!cut.included());
    assert!(cut.truncated);
}

#[test]
fn a_missing_or_empty_name_is_neither_included_nor_cut() {
    for name in [None, Some("")] {
        let cut = cut_local_name(name, LOCAL_NAME_BUDGET);
        assert!(!cut.included());
        assert!(!cut.truncated);
        assert_eq!(
            advertising_report(&cut, false, false),
            Ok(AdvertisingReport {
                local_name_included: false,
                local_name_truncated: false
            })
        );
    }
}

#[test]
fn a_name_left_out_by_windows_counts_as_cut() {
    let cut = cut_local_name(Some("Host A"), LOCAL_NAME_BUDGET);
    assert_eq!(
        advertising_report(&cut, true, false),
        Ok(AdvertisingReport {
            local_name_included: true,
            local_name_truncated: false
        })
    );
    assert_eq!(
        advertising_report(&cut, false, true),
        Ok(AdvertisingReport {
            local_name_included: false,
            local_name_truncated: true
        })
    );
    assert_eq!(
        advertising_report(&cut, false, false).unwrap_err().code,
        ErrorCode::PayloadTooLarge
    );
}

#[test]
fn a_cut_name_rejects_unless_it_is_optional() {
    let cut = cut_local_name(Some("A much longer host name"), LOCAL_NAME_BUDGET);
    assert_eq!(
        advertising_report(&cut, true, false).unwrap_err().code,
        ErrorCode::PayloadTooLarge
    );
    assert_eq!(
        advertising_report(&cut, true, true),
        Ok(AdvertisingReport {
            local_name_included: true,
            local_name_truncated: true
        })
    );
}

#[test]
fn a_fresh_provider_starts_at_once_and_reports_the_start() {
    let mut publisher = Publisher::default();
    let advertised = Publication::Advertised(1);
    assert_eq!(
        publisher.want(Some(advertised)),
        Some(PublishStep::Start(advertised))
    );
    assert_eq!(publisher.want(Some(advertised)), None);
    assert_eq!(
        publisher.observe(ProviderStatus::Started { all_data: false }),
        (
            Some(Published::Started {
                publication: advertised,
                all_data: false
            }),
            None
        )
    );
}

#[test]
fn a_change_waits_for_the_start_then_stops_then_starts() {
    let mut publisher = Publisher::default();
    publisher.want(Some(Publication::Advertised(1)));
    assert_eq!(publisher.want(Some(Publication::Advertised(2))), None);
    let (outcome, step) = publisher.observe(ProviderStatus::Started { all_data: true });
    assert!(matches!(
        outcome,
        Some(Published::Started {
            publication: Publication::Advertised(1),
            ..
        })
    ));
    assert_eq!(step, Some(PublishStep::Stop));
    assert_eq!(publisher.observe(ProviderStatus::Other), (None, None));
    assert_eq!(
        publisher.observe(ProviderStatus::Stopped),
        (None, Some(PublishStep::Start(Publication::Advertised(2))))
    );
}

#[test]
fn a_stopped_advertisement_stays_discoverable() {
    let mut publisher = Publisher::default();
    publisher.want(Some(Publication::Advertised(1)));
    publisher.observe(ProviderStatus::Started { all_data: true });
    assert_eq!(
        publisher.want(Some(Publication::Discoverable)),
        Some(PublishStep::Stop)
    );
    assert_eq!(
        publisher.observe(ProviderStatus::Stopped),
        (None, Some(PublishStep::Start(Publication::Discoverable)))
    );
    assert_eq!(publisher.want(None), None);
    let (_, step) = publisher.observe(ProviderStatus::Started { all_data: true });
    assert_eq!(step, Some(PublishStep::Stop));
}

#[test]
fn an_aborted_start_ends_the_wish_without_a_retry() {
    let mut publisher = Publisher::default();
    publisher.want(Some(Publication::Advertised(3)));
    assert_eq!(
        publisher.observe(ProviderStatus::Aborted),
        (Some(Published::Ended(Publication::Advertised(3))), None)
    );
    assert_eq!(
        publisher.want(Some(Publication::Advertised(4))),
        Some(PublishStep::Start(Publication::Advertised(4)))
    );
}

#[test]
fn a_publication_that_windows_ends_is_reported_and_not_restarted() {
    let mut publisher = Publisher::default();
    publisher.want(Some(Publication::Discoverable));
    publisher.observe(ProviderStatus::Started { all_data: true });
    assert_eq!(
        publisher.observe(ProviderStatus::Aborted),
        (Some(Published::Ended(Publication::Discoverable)), None)
    );
}

#[test]
fn right_after_a_call_only_its_outcome_counts() {
    let mut publisher = Publisher::default();
    publisher.want(Some(Publication::Advertised(1)));
    assert!(publisher.is_settling());
    // The start can take a moment to show.
    assert_eq!(
        publisher.check(ProviderStatus::Created, false),
        (None, None)
    );
    assert_eq!(
        publisher.check(ProviderStatus::Started { all_data: true }, false),
        (
            Some(Published::Started {
                publication: Publication::Advertised(1),
                all_data: true
            }),
            None
        )
    );
    assert!(!publisher.is_settling());
    assert_eq!(
        publisher.want(Some(Publication::Discoverable)),
        Some(PublishStep::Stop)
    );
    assert_eq!(
        publisher.check(ProviderStatus::Started { all_data: true }, false),
        (None, None)
    );
    assert_eq!(
        publisher.check(ProviderStatus::Stopped, false),
        (None, Some(PublishStep::Start(Publication::Discoverable)))
    );
}

#[test]
fn the_late_event_of_a_stop_read_already_does_not_end_the_next_start() {
    let mut publisher = Publisher::default();
    publisher.want(Some(Publication::Discoverable));
    publisher.check(ProviderStatus::Started { all_data: true }, false);
    publisher.want(Some(Publication::Advertised(2)));
    let (_, step) = publisher.check(ProviderStatus::Stopped, false);
    assert_eq!(step, Some(PublishStep::Start(Publication::Advertised(2))));
    // The event of the stop arrives, and the start does not show yet.
    assert_eq!(
        publisher.check(ProviderStatus::Stopped, false),
        (None, None)
    );
    assert!(publisher.is_settling());
    let (outcome, _) = publisher.check(ProviderStatus::Started { all_data: true }, false);
    assert!(matches!(outcome, Some(Published::Started { .. })));
}

#[test]
fn a_silent_publication_without_an_advertisement_counts_as_started() {
    let mut publisher = Publisher::default();
    publisher.want(Some(Publication::Discoverable));
    assert_eq!(
        publisher.check(ProviderStatus::Stopped, true),
        (
            Some(Published::Started {
                publication: Publication::Discoverable,
                all_data: true
            }),
            None
        )
    );
    assert!(!publisher.is_settling());
    // A status without a start does not end it, an abort does.
    assert_eq!(
        publisher.check(ProviderStatus::Stopped, false),
        (None, None)
    );
    assert_eq!(
        publisher.check(ProviderStatus::Aborted, false),
        (Some(Published::Ended(Publication::Discoverable)), None)
    );
}

#[test]
fn the_next_advertisement_is_not_stuck_behind_a_silent_publication() {
    let mut publisher = Publisher::default();
    publisher.want(Some(Publication::Discoverable));
    assert_eq!(publisher.want(Some(Publication::Advertised(2))), None);
    assert_eq!(
        publisher.check(ProviderStatus::Created, true).1,
        Some(PublishStep::Stop)
    );
    assert_eq!(
        publisher.check(ProviderStatus::Created, false),
        (None, Some(PublishStep::Start(Publication::Advertised(2))))
    );
}

#[test]
fn a_silent_advertisement_waits_while_wanted_and_ends_when_not() {
    let mut publisher = Publisher::default();
    publisher.want(Some(Publication::Advertised(1)));
    assert_eq!(publisher.check(ProviderStatus::Stopped, true), (None, None));
    assert!(publisher.is_settling());
    assert_eq!(publisher.want(Some(Publication::Discoverable)), None);
    assert_eq!(
        publisher.check(ProviderStatus::Stopped, true),
        (
            Some(Published::Ended(Publication::Advertised(1))),
            Some(PublishStep::Start(Publication::Discoverable))
        )
    );
}

#[test]
fn an_advertisement_that_shows_no_start_any_more_has_ended() {
    let mut publisher = Publisher::default();
    publisher.want(Some(Publication::Advertised(1)));
    publisher.check(ProviderStatus::Started { all_data: true }, false);
    assert_eq!(
        publisher.check(ProviderStatus::Stopped, false),
        (Some(Published::Ended(Publication::Advertised(1))), None)
    );
}

#[test]
fn a_stop_that_still_shows_the_start_keeps_waiting() {
    let mut publisher = Publisher::default();
    publisher.want(Some(Publication::Discoverable));
    publisher.check(ProviderStatus::Started { all_data: true }, false);
    assert_eq!(publisher.want(None), Some(PublishStep::Stop));
    assert_eq!(
        publisher.check(ProviderStatus::Started { all_data: true }, true),
        (None, None)
    );
    assert!(publisher.is_settling());
    assert_eq!(publisher.check(ProviderStatus::Created, true), (None, None));
    assert!(!publisher.is_settling());
    assert_eq!(publisher.check(ProviderStatus::Stopped, true), (None, None));
}

#[test]
fn a_refused_call_leaves_the_provider_idle() {
    let mut publisher = Publisher::default();
    publisher.want(Some(Publication::Advertised(1)));
    publisher.start_failed();
    assert_eq!(
        publisher.observe(ProviderStatus::Started { all_data: true }),
        (None, None)
    );

    publisher.want(Some(Publication::Discoverable));
    publisher.observe(ProviderStatus::Started { all_data: true });
    assert_eq!(
        publisher.want(Some(Publication::Advertised(2))),
        Some(PublishStep::Stop)
    );
    assert_eq!(
        publisher.stop_failed(),
        Some(PublishStep::Start(Publication::Advertised(2)))
    );
}

#[test]
fn a_name_within_the_budget_is_whole() {
    let cut = cut_local_name(Some("abc"), 3);
    assert_eq!(cut.bytes, b"abc");
    assert!(!cut.truncated);
    assert!(cut.included());
    let cut = cut_local_name(Some("abcd"), 3);
    assert_eq!(cut.bytes, b"abc");
    assert!(cut.truncated);
}

#[test]
fn stopping_with_nothing_wanted_leaves_the_provider_idle() {
    let mut publisher = Publisher::default();
    assert_eq!(publisher.want(None), None);
    assert!(!publisher.is_settling());
    assert_eq!(publisher.observe(ProviderStatus::Stopped), (None, None));
}
