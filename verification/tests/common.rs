use pod_helper::common::{FilePodSpec, PodSpec, PodVer};

#[test]
fn test_pod_ver_0() {
    assert_eq!([0, 0, 0], PodVer::new("").nums)
}

#[test]
fn test_pod_ver_1() {
    assert_eq!([1, 0, 0], PodVer::new("1").nums)
}

#[test]
fn test_pod_ver_2() {
    assert_eq!([1, 6, 0], PodVer::new("1.6").nums)
}

#[test]
fn test_pod_ver_3() {
    assert_eq!([1, 0, 0], PodVer::new("1.0.0").nums)
}

#[test]
fn test_pod_ver_xxx() {
    assert_eq!([1, 0, 0], PodVer::new("1.0.beta_3").nums)
}

#[test]
fn pod_ver_reads_only_three_numbers() {
    assert_eq!([1, 2, 3], PodVer::new("1.2.3.4").nums);
}

#[test]
fn pod_ver_numbers_as_str_parse_reads_them() {
    assert_eq!([5, 7, 0], PodVer::new("+5.007.x").nums);
    assert_eq!([0, 2, 0], PodVer::new("-1.2").nums);
    assert_eq!([0, 1, 0], PodVer::new("+.1").nums);
    assert_eq!([4294967295, 0, 1], PodVer::new("4294967295.4294967296.1").nums);
    assert_eq!([0, 0, 3], PodVer::new("..3").nums);
}

#[test]
fn pod_ver_to_string() {
    assert_eq!("1.6.0", PodVer::new("1.6").to_string());
    assert_eq!("10.0.4294967295", PodVer { nums: [10, 0, u32::MAX] }.to_string());
}

#[test]
fn pod_ver_text_round_trip() {
    for nums in [[0, 0, 0], [1, 2, 3], [12, 305, 4000], [u32::MAX, 9, 10]] {
        let v = PodVer { nums };
        assert_eq!(v, PodVer::new(&v.to_string()));
    }
}

#[test]
fn pod_ver_order() {
    let a = PodVer::new("1.2.3");
    let b = PodVer::new("1.10.0");
    assert!(a.less_than(&b));
    assert!(!b.less_than(&a));
    assert!(!a.less_than(&a));
    assert_eq!(a < b, a.less_than(&b));
}

#[test]
fn pod_spec_new_has_index_key() {
    let ps = PodSpec::new("AppNetworkManager".to_string()).unwrap();
    assert_eq!("AppNetworkManager", ps.name);
    assert_eq!("222", ps.hex);
    assert!(ps.get_vers().is_none());
}

#[test]
fn pod_spec_versions_newest_first() {
    let mut ps = PodSpec::new("Alamofire".to_string()).unwrap();
    let vers = vec![
        PodVer::new("4.9.1"),
        PodVer::new("5.3.0"),
        PodVer::new("5.10.1"),
        PodVer::new("5.3.0"),
        PodVer::new("1.0"),
    ];
    ps.set_vers(Some(vers));
    let got: Vec<[u32; 3]> = ps.get_vers().as_ref().unwrap().iter().map(|v| v.nums).collect();
    assert_eq!(vec![[5, 10, 1], [5, 3, 0], [5, 3, 0], [4, 9, 1], [1, 0, 0]], got);
    ps.set_vers(None);
    assert!(ps.get_vers().is_none());
    ps.set_vers(Some(Vec::new()));
    assert_eq!(0, ps.get_vers().as_ref().unwrap().len());
}

#[test]
fn file_pod_spec_new() {
    let fps = FilePodSpec::new("Kingfisher".to_string(), "5.15.6".to_string(), None);
    assert_eq!("Kingfisher", fps.name);
    assert_eq!([5, 15, 6], fps.ver.nums);
    assert!(fps.sub_spec.is_none());
}
