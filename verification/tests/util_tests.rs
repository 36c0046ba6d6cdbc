use dyfi_client::types::Hostname;
use dyfi_client::util::join_hostnames;
use dyfi_client::util::split_to_sorted_vec;

#[test]
fn test_split_empty_str() {
    let t: Vec<Hostname> = split_to_sorted_vec("");
    assert_eq!(t, Vec::<Hostname>::new());
}

#[test]
fn test_split_sorts() {
    let t = split_to_sorted_vec("something-outrageous,example.com");
    assert_eq!(t, vec!["example.com".to_string(), "something-outrageous".to_string()]);
}

#[test]
fn test_split_keeps_duplicates() {
    let t = split_to_sorted_vec("b.dy.fi,a.dy.fi,b.dy.fi");
    assert_eq!(
        t,
        vec!["a.dy.fi".to_string(), "b.dy.fi".to_string(), "b.dy.fi".to_string()]
    );
}

#[test]
fn test_split_single() {
    let t = split_to_sorted_vec("mock.dy.fi");
    assert_eq!(t, vec!["mock.dy.fi".to_string()]);
}

#[test]
fn test_join_hostnames_two() {
    let hs = vec!["mock-some-more.dy.fi".to_string(), "mock.dy.fi".to_string()];
    assert_eq!(join_hostnames(&hs), "mock-some-more.dy.fi,mock.dy.fi");
}

#[test]
fn test_join_hostnames_single_empty() {
    let hs = vec!["".to_string()];
    assert_eq!(join_hostnames(&hs), "");
}

#[test]
fn test_join_hostnames_one() {
    let hs = vec!["mock.dy.fi".to_string()];
    assert_eq!(join_hostnames(&hs), "mock.dy.fi");
}
