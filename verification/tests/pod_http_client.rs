use pod_helper::common::PodSpec;
use pod_helper::pod_http_client::{idx_pods_url, podspec_json_url};
use pod_helper::utils;

#[test]
fn pod_http_client_test_str_join() {
    assert_eq!(utils::str_join("123", ","), "1,2,3")
}

#[test]
fn idx_pods_url_of_key() {
    assert_eq!(
        "https://cdn.cocoapods.org/all_pods_versions_2_2_2.txt",
        idx_pods_url("222")
    );
}

#[test]
fn podspec_json_url_of_pod() {
    let pod = PodSpec::new("AppNetworkManager".to_string()).unwrap();
    assert_eq!(
        "https://cdn.cocoapods.org/Specs/2/2/2/AppNetworkManager/1.0.0/AppNetworkManager.podspec.json",
        podspec_json_url(&pod, "1.0.0")
    );
}
