use serial_link::clock::{epoch_seconds, epoch_seconds_of, ClockBeforeEpoch};
use std::time::{Duration, SystemTime};

#[test]
fn test_epoch_seconds() {
    let now: u64 = SystemTime::now()
        .duration_since(SystemTime::UNIX_EPOCH)
        .unwrap()
        .as_secs();

    assert_eq!(epoch_seconds().unwrap(), now);
}

#[test]
fn epoch_seconds_lie_after_2020() {
    let seconds: u64 = epoch_seconds().unwrap();
    assert!(seconds > 1_577_836_800);
}

#[test]
fn seconds_are_handed_on_as_they_are() {
    assert_eq!(epoch_seconds_of(Ok(0)), Ok(0));
    assert_eq!(epoch_seconds_of(Ok(1_700_000_000)), Ok(1_700_000_000));
    assert_eq!(epoch_seconds_of(Ok(u64::MAX)), Ok(u64::MAX));
}

#[test]
fn a_clock_before_1970_is_an_error() {
    let later = SystemTime::UNIX_EPOCH + Duration::from_secs(1);
    let failed = SystemTime::UNIX_EPOCH.duration_since(later).unwrap_err();
    assert_eq!(epoch_seconds_of(Err(failed)), Err(ClockBeforeEpoch));
}
