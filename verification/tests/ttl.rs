//! Times to live.
use codecrafters_redis::command::common::{get_ttl, parse_ttl, CommandError, ExpCmd};
use codecrafters_redis::time::Duration;

#[test]
fn get_ttl_without_expiry_is_none() {
    assert!(get_ttl(&ExpCmd::Ex, None).unwrap().is_none());
}

#[test]
fn get_ttl_ex_is_seconds() {
    let got = get_ttl(&ExpCmd::Ex, Some(b"10".as_ref())).unwrap().unwrap();
    assert_eq!(got, Duration::from_secs(10));
}

#[test]
fn get_ttl_px_is_milliseconds() {
    let got = get_ttl(&ExpCmd::Px, Some(b"500".as_ref()))
        .unwrap()
        .unwrap();
    assert_eq!(got, Duration::from_millis(500));
}

#[test]
fn get_ttl_rejects_malformed_number() {
    assert!(matches!(
        get_ttl(&ExpCmd::Ex, Some(b"soon".as_ref())),
        Err(CommandError::WrongNumber(_))
    ));
}

#[test]
fn parse_ttl_without_cmd_or_exp_is_none() {
    assert!(parse_ttl(None, None).unwrap().is_none());
    assert!(parse_ttl(Some(b"EX".as_ref()), None).unwrap().is_none());
}

#[test]
fn parse_ttl_accepts_lowercase_ex() {
    let got = parse_ttl(Some(b"ex".as_ref()), Some(b"1".as_ref()))
        .unwrap()
        .unwrap();
    assert_eq!(got, Duration::from_secs(1));
}

#[test]
fn parse_ttl_rejects_unknown_cmd() {
    assert!(matches!(
        parse_ttl(Some(b"BOGUS".as_ref()), Some(b"1".as_ref())),
        Err(CommandError::Unknown(_))
    ));
}
