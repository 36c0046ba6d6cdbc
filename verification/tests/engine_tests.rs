use dyfi_client::engine::Decision;
use dyfi_client::engine::Dyfi;
use dyfi_client::engine::LoopStatus;
use dyfi_client::ip::IpAddress;
use dyfi_client::types::Config;
use dyfi_client::types::DyfiResponse;
use dyfi_client::types::DyfiError;
use dyfi_client::types::DyfiResponseCode;
use dyfi_client::util::join_hostnames;
use dyfi_client::util::split_to_sorted_vec;

fn mock_ip() -> IpAddress {
    IpAddress::V4(192, 0, 2, 1) // RFC 5737
}

fn test_config(hostnames: Vec<String>) -> Config {
    Config {
        dyfi_api: "http://127.0.0.1/nic/update".to_string(),
        public_ip_api: "http://127.0.0.1/".to_string(),
        user: "mockuser".to_string(),
        password: "mockpassword".to_string(),
        hostnames,
        poll_interval: 3600,
        force_update_interval: 3600 * 24 * 5,
    }
}

fn mock_config() -> Config {
    test_config(split_to_sorted_vec("mock.dy.fi,mock-some-more.dy.fi"))
}

/// Drive one poll cycle as the surrounding application would: decide on
/// the observations, and if an update is due, classify `body` as the
/// provider's reply and apply it. Returns the run's code for the cycle,
/// the success code when the run goes on.
fn run_one_cycle(
    dyfi: &mut Dyfi,
    resolved: Vec<Vec<IpAddress>>,
    fetched: Option<IpAddress>,
    now: u64,
    body: &str,
) -> DyfiResponseCode {
    match dyfi.decide(resolved, fetched, now) {
        Decision::FetchFailed => unreachable!(),
        Decision::Update => {
            let response = DyfiResponse::from(body.to_string());
            match dyfi.apply(LoopStatus::Action(Ok(response)), now) {
                Some(code) => code,
                None => DyfiResponseCode::OkCode,
            }
        }
        Decision::NoOp => DyfiResponseCode::OkCode,
    }
}

#[test]
fn test_update_nocfg() {
    let mut dyfi = Dyfi::from(mock_config()).unwrap();
    let code = run_one_cycle(&mut dyfi, vec![vec![], vec![]], Some(mock_ip()), 0, "nochg");
    assert_eq!(code, DyfiResponseCode::OkCode);
}

#[test]
fn test_update_badauth() {
    let mut dyfi = Dyfi::from(mock_config()).unwrap();
    let code = run_one_cycle(&mut dyfi, vec![vec![], vec![]], Some(mock_ip()), 0, "badauth");
    assert_eq!(code, DyfiResponseCode::BadAuth);
}

#[test]
fn test_update_nohost() {
    let config = test_config(vec!["".to_string()]);
    assert_eq!(join_hostnames(&config.hostnames), "");
    let mut dyfi = Dyfi::from(config).unwrap();
    let code = run_one_cycle(&mut dyfi, vec![vec![]], Some(mock_ip()), 0, "nohost");
    assert_eq!(code, DyfiResponseCode::NoHost);
}

#[test]
fn test_config_nohost() {
    let mut config = mock_config();
    config.hostnames = vec![];
    let dyfi = Dyfi::from(config);
    assert!(dyfi.is_err());
}

#[test]
fn test_update_notfqdn() {
    let config = test_config(split_to_sorted_vec("something-outrageous,example.com"));
    assert_eq!(
        join_hostnames(&config.hostnames),
        "example.com,something-outrageous"
    );
    let mut dyfi = Dyfi::from(config).unwrap();
    let code = run_one_cycle(&mut dyfi, vec![vec![], vec![]], Some(mock_ip()), 0, "notfqdn");
    assert_eq!(code, DyfiResponseCode::NotFQDN);
}

#[test]
fn test_update_badip() {
    let mut dyfi = Dyfi::from(mock_config()).unwrap();
    let body = format!("badip {}", "192.0.2.1");
    let code = run_one_cycle(&mut dyfi, vec![vec![], vec![]], Some(mock_ip()), 0, &body);
    assert_eq!(code, DyfiResponseCode::BadIP);
}

#[test]
fn test_update_good() {
    let mut dyfi = Dyfi::from(mock_config()).unwrap();
    let body = format!("good {}", "192.0.2.1");
    let code = run_one_cycle(&mut dyfi, vec![vec![], vec![]], Some(mock_ip()), 7, &body);
    assert_eq!(code, DyfiResponseCode::OkCode);
    assert_eq!(dyfi.previous_ips, vec![vec![mock_ip()], vec![mock_ip()]]);
    assert_eq!(dyfi.previous_update_time, Some(7));
    assert_eq!(dyfi.stopped, None);
}

#[test]
fn test_update_dnserr() {
    let mut dyfi = Dyfi::from(mock_config()).unwrap();
    let code = run_one_cycle(&mut dyfi, vec![vec![], vec![]], Some(mock_ip()), 0, "dnserr");
    assert_eq!(code, DyfiResponseCode::DNSErr);
}

#[test]
fn test_update_abuse() {
    let mut dyfi = Dyfi::from(mock_config()).unwrap();
    let code = run_one_cycle(&mut dyfi, vec![vec![], vec![]], Some(mock_ip()), 0, "abuse");
    assert_eq!(code, DyfiResponseCode::Abuse);
}

#[test]
fn test_first_cycle_always_updates() {
    // Even when every hostname already resolves to the public address,
    // the first cycle updates: the engine has no update on record.
    let mut dyfi = Dyfi::from(mock_config()).unwrap();
    let resolved = vec![vec![mock_ip()], vec![mock_ip()]];
    let d = dyfi.decide(resolved, Some(mock_ip()), 0);
    assert_eq!(d, Decision::Update);
}

#[test]
fn scenario_no_op() {
    let ip = IpAddress::V4(203, 0, 113, 5);
    let mut dyfi = Dyfi::from(mock_config()).unwrap();
    dyfi.previous_update_time = Some(1000);
    let d = dyfi.decide(vec![vec![ip], vec![ip]], Some(ip), 1500);
    assert_eq!(d, Decision::NoOp);
    assert_eq!(dyfi.previous_update_time, Some(1000));
    assert_eq!(dyfi.stopped, None);
}

#[test]
fn scenario_idempotent_until_drift_or_elapse() {
    let ip = IpAddress::V4(203, 0, 113, 5);
    let mut dyfi = Dyfi::from(mock_config()).unwrap();
    dyfi.previous_update_time = Some(1000);
    // Repeated matching cycles stay no-ops.
    for now in [1500u64, 2000, 2500] {
        let d = dyfi.decide(vec![vec![ip], vec![ip]], Some(ip), now);
        assert_eq!(d, Decision::NoOp);
    }
    // DNS drift forces an update.
    let other = IpAddress::V4(198, 51, 100, 7);
    let d = dyfi.decide(vec![vec![ip], vec![other]], Some(ip), 3000);
    assert_eq!(d, Decision::Update);
}

#[test]
fn scenario_force_interval_elapsed() {
    let ip = IpAddress::V4(203, 0, 113, 5);
    let mut dyfi = Dyfi::from(mock_config()).unwrap();
    dyfi.previous_update_time = Some(1000);
    let force = 3600 * 24 * 5;
    let d = dyfi.decide(vec![vec![ip], vec![ip]], Some(ip), 1000 + force);
    assert_eq!(d, Decision::Update);
}

#[test]
fn scenario_missing_record() {
    let ip = IpAddress::V4(203, 0, 113, 5);
    let new_ip = IpAddress::V4(203, 0, 113, 9);
    let mut dyfi = Dyfi::from(mock_config()).unwrap();
    dyfi.previous_update_time = Some(1000);
    // One hostname resolves to nothing: an update call is due, with all
    // hostnames joined by commas.
    let d = dyfi.decide(vec![vec![], vec![ip]], Some(ip), 1500);
    assert_eq!(d, Decision::Update);
    assert_eq!(
        join_hostnames(&dyfi.config.hostnames),
        "mock-some-more.dy.fi,mock.dy.fi"
    );
    let response = DyfiResponse::from("good 203.0.113.9".to_string());
    let r = dyfi.apply(LoopStatus::Action(Ok(response)), 1500);
    assert_eq!(r, None);
    assert_eq!(dyfi.previous_ips, vec![vec![new_ip], vec![new_ip]]);
    assert_eq!(dyfi.previous_update_time, Some(1500));
}

#[test]
fn scenario_hard_failure() {
    let mut dyfi = Dyfi::from(mock_config()).unwrap();
    let code = run_one_cycle(&mut dyfi, vec![vec![], vec![]], Some(mock_ip()), 0, "badauth");
    assert_eq!(code, DyfiResponseCode::BadAuth);
    assert_eq!(code.exit_code(), 1);
    // The engine is stopped: no further cycles run.
    assert_eq!(dyfi.stopped, Some(DyfiResponseCode::BadAuth));
}

#[test]
fn scenario_malformed_ip_on_update() {
    let response = DyfiResponse::from("badip 203.0.113.5".to_string());
    assert_eq!(response, DyfiResponse::BadIP(IpAddress::V4(203, 0, 113, 5)));
    let mut dyfi = Dyfi::from(mock_config()).unwrap();
    let d = dyfi.decide(vec![vec![], vec![]], Some(mock_ip()), 0);
    assert_eq!(d, Decision::Update);
    let r = dyfi.apply(LoopStatus::Action(Ok(response)), 0);
    assert_eq!(r, Some(DyfiResponseCode::BadIP));
    assert_eq!(r.unwrap().exit_code(), 4);
    assert_eq!(dyfi.stopped, Some(DyfiResponseCode::BadIP));
}

#[test]
fn scenario_transient_fetch_failure() {
    let ip = IpAddress::V4(203, 0, 113, 5);
    let mut dyfi = Dyfi::from(mock_config()).unwrap();
    dyfi.previous_update_time = Some(1000);
    dyfi.previous_ips = vec![vec![ip], vec![ip]];
    dyfi.my_ip = Some(ip);
    // The IP-discovery call failed: nothing changes and the caller is
    // told to retry after a quarter of the poll interval.
    let d = dyfi.decide(vec![vec![], vec![]], None, 2000);
    assert_eq!(d, Decision::FetchFailed);
    assert_eq!(dyfi.previous_update_time, Some(1000));
    assert_eq!(dyfi.previous_ips, vec![vec![ip], vec![ip]]);
    assert_eq!(dyfi.my_ip, Some(ip));
    assert_eq!(dyfi.stopped, None);
    assert_eq!(dyfi.retry_backoff(), 3600 / 4);
    assert_eq!(dyfi.poll_delay(), 3600);
}

#[test]
fn test_transport_error_is_transient() {
    let mut dyfi = Dyfi::from(mock_config()).unwrap();
    let d = dyfi.decide(vec![vec![], vec![]], Some(mock_ip()), 0);
    assert_eq!(d, Decision::Update);
    let err = DyfiError("connection reset".to_string());
    let r = dyfi.apply(LoopStatus::Action(Err(err)), 0);
    assert_eq!(r, None);
    assert_eq!(dyfi.stopped, None);
    assert_eq!(dyfi.previous_update_time, None);
}

#[test]
fn test_nochg_refreshes_update_time() {
    let mut dyfi = Dyfi::from(mock_config()).unwrap();
    let code = run_one_cycle(&mut dyfi, vec![vec![], vec![]], Some(mock_ip()), 42, "nochg");
    assert_eq!(code, DyfiResponseCode::OkCode);
    assert_eq!(dyfi.previous_update_time, Some(42));
}

#[test]
fn test_good_none_is_terminal() {
    // `good` with no address answers a request this client never sends;
    // it stops the run, mapped to the success-adjacent code.
    let mut dyfi = Dyfi::from(mock_config()).unwrap();
    let code = run_one_cycle(&mut dyfi, vec![vec![], vec![]], Some(mock_ip()), 0, "good");
    assert_eq!(code, DyfiResponseCode::OkCode);
    assert_eq!(dyfi.stopped, Some(DyfiResponseCode::OkCode));
}

#[test]
fn test_unrecognized_is_terminal() {
    let mut dyfi = Dyfi::from(mock_config()).unwrap();
    let code = run_one_cycle(&mut dyfi, vec![vec![], vec![]], Some(mock_ip()), 0, "eh?");
    assert_eq!(code, DyfiResponseCode::OkCode);
    assert_eq!(dyfi.stopped, Some(DyfiResponseCode::OkCode));
}
