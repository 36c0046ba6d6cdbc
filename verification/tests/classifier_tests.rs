use dyfi_client::ip::IpAddress;
use dyfi_client::types::DyfiResponse;
use dyfi_client::types::DyfiResponseCode;

fn classify(s: &str) -> DyfiResponse {
    DyfiResponse::from(s.to_string())
}

#[test]
fn test_classify_known_tokens() {
    assert_eq!(classify("badauth"), DyfiResponse::BadAuth);
    assert_eq!(classify("nohost"), DyfiResponse::NoHost);
    assert_eq!(classify("notfqdn"), DyfiResponse::NotFQDN);
    assert_eq!(classify("nochg"), DyfiResponse::NoChg);
    assert_eq!(classify("dnserr"), DyfiResponse::DNSErr);
    assert_eq!(classify("abuse"), DyfiResponse::Abuse);
}

#[test]
fn test_classify_good_with_ip() {
    assert_eq!(
        classify("good 203.0.113.9"),
        DyfiResponse::Good(Some(IpAddress::V4(203, 0, 113, 9)))
    );
}

#[test]
fn test_classify_good_without_ip() {
    assert_eq!(classify("good"), DyfiResponse::Good(None));
}

#[test]
fn test_classify_badip() {
    assert_eq!(
        classify("badip 203.0.113.5"),
        DyfiResponse::BadIP(IpAddress::V4(203, 0, 113, 5))
    );
}

#[test]
fn test_classify_trims_and_splits_whitespace() {
    assert_eq!(classify("  nochg\n"), DyfiResponse::NoChg);
    assert_eq!(
        classify("\tgood   203.0.113.9\r\n"),
        DyfiResponse::Good(Some(IpAddress::V4(203, 0, 113, 9)))
    );
}

#[test]
fn test_classify_unknown_is_preserved_verbatim() {
    assert_eq!(
        classify("something unexpected"),
        DyfiResponse::Other("something unexpected".to_string())
    );
    assert_eq!(classify(""), DyfiResponse::Other("".to_string()));
    assert_eq!(classify("goodness"), DyfiResponse::Other("goodness".to_string()));
    assert_eq!(
        classify("nochg 1.2.3.4"),
        DyfiResponse::Other("nochg 1.2.3.4".to_string())
    );
}

#[test]
fn test_classify_bad_ip_token_is_unrecognized() {
    assert_eq!(
        classify("badip notanip"),
        DyfiResponse::Other("badip notanip".to_string())
    );
    assert_eq!(
        classify("good 999.0.0.1"),
        DyfiResponse::Other("good 999.0.0.1".to_string())
    );
}

#[test]
fn test_response_codes() {
    assert_eq!(DyfiResponseCode::from(classify("badauth")), DyfiResponseCode::BadAuth);
    assert_eq!(DyfiResponseCode::from(classify("nohost")), DyfiResponseCode::NoHost);
    assert_eq!(DyfiResponseCode::from(classify("notfqdn")), DyfiResponseCode::NotFQDN);
    assert_eq!(
        DyfiResponseCode::from(classify("badip 203.0.113.5")),
        DyfiResponseCode::BadIP
    );
    assert_eq!(DyfiResponseCode::from(classify("dnserr")), DyfiResponseCode::DNSErr);
    assert_eq!(DyfiResponseCode::from(classify("abuse")), DyfiResponseCode::Abuse);
    assert_eq!(DyfiResponseCode::from(classify("nochg")), DyfiResponseCode::OkCode);
    assert_eq!(DyfiResponseCode::from(classify("nonsense")), DyfiResponseCode::OkCode);
}

#[test]
fn test_exit_code_values() {
    assert_eq!(DyfiResponseCode::OkCode.exit_code(), 0);
    assert_eq!(DyfiResponseCode::BadAuth.exit_code(), 1);
    assert_eq!(DyfiResponseCode::NoHost.exit_code(), 2);
    assert_eq!(DyfiResponseCode::NotFQDN.exit_code(), 3);
    assert_eq!(DyfiResponseCode::BadIP.exit_code(), 4);
    assert_eq!(DyfiResponseCode::DNSErr.exit_code(), 5);
    assert_eq!(DyfiResponseCode::Abuse.exit_code(), 6);
}
