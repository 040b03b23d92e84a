use pod_helper::utils::{name_hash, parse_podfile_lock_podspec, str_join};

#[test]
fn test_name_hash() {
    assert_eq!("222", name_hash("AppNetworkManager").unwrap());
}

#[test]
fn utils_test_str_join() {
    assert_eq!("1_2_3", str_join("123", "_"));
}

#[test]
fn str_join_edge_cases() {
    assert_eq!("", str_join("", "_"));
    assert_eq!("a", str_join("a", "--"));
    assert_eq!("a--b", str_join("ab", "--"));
    assert_eq!("abc", str_join("abc", ""));
}

#[test]
fn name_hash_is_three_hex_digits() {
    for name in ["Alamofire", "Kingfisher", "UITableView+FDTemplateLayoutCell", "", "ä"] {
        let h = name_hash(name).unwrap();
        assert_eq!(3, h.len());
        assert!(h.chars().all(|c| c.is_ascii_digit() || ('a'..='f').contains(&c)));
    }
}

const PODFILE_LOCK: &str = r#"
PODS:
  - Alamofire (5.3.0)
  - Kingfisher (5.15.6):
  - Kingfisher/Core (= 5.15.6)
  - Kingfisher/Core (5.15.6)
  - "UITableView+FDTemplateLayoutCell (1.6)":
  - "UITableView+FDTemplateLayoutCell/Core" (=1.6)

DEPENDENCIES:
  - Alamofire
  - Kingfisher
  - "UITableView+FDTemplateLayoutCell"

SPEC REPOS:
  trunk:
    - Alamofire
    - Kingfisher
    - "UITableView+FDTemplateLayoutCell"

SPEC CHECKSUMS:
  Alamofire: 2c792affbdc2f18016e08fdbcacd60aebe1ba593
  Kingfisher: b3554e7bf6106115b44e8795300bad580ef2fdc7
  "UITableView+FDTemplateLayoutCell": 5c949b4a5059c404b442926c0e80f81d10a2d66f

PODFILE CHECKSUM: a22a05f6bb3b016d9eaa60819db5e0998dbbc7cb

COCOAPODS: 1.10.0
    "#;

#[test]
fn test_parse_podfile_lock_podspec() {
    let podfile_lock = PODFILE_LOCK;

    let pg_map = parse_podfile_lock_podspec(podfile_lock).unwrap();
    assert_eq!(
        vec!([5, 3, 0], [5, 15, 6], [1, 6, 0]),
        [
            "Alamofire",
            "Kingfisher",
            "UITableView+FDTemplateLayoutCell"
        ]
        .iter()
        .map(|&name| pg_map.get(name).unwrap().0.ver.nums)
        .collect::<Vec<_>>(),
    );
}

#[test]
fn parse_podfile_lock_keeps_sub_specs_and_order() {
    let pg_map = parse_podfile_lock_podspec(PODFILE_LOCK).unwrap();
    assert_eq!(3, pg_map.len());
    let names: Vec<&str> = pg_map.groups().iter().map(|g| g.0.name.as_str()).collect();
    assert_eq!(vec!["Alamofire", "Kingfisher", "UITableView+FDTemplateLayoutCell"], names);
    let king = pg_map.get("Kingfisher").unwrap();
    assert_eq!(Some(vec!["Core".to_string()]), king.0.sub_spec);
    assert_eq!("Kingfisher", king.1.name);
    let table = pg_map.get("UITableView+FDTemplateLayoutCell").unwrap();
    assert_eq!(Some(vec!["Core\"".to_string()]), table.0.sub_spec);
    assert!(pg_map.get("Alamofire").unwrap().0.sub_spec.is_none());
    assert!(pg_map.get("DEPENDENCIES").is_none());
    assert!(pg_map.get("Core").is_none());
}

#[test]
fn parse_podfile_lock_first_sub_spec_line_opens_the_pod() {
    let text = "PODS:\n  - Kingfisher/Core (5.15.6)\n  - Kingfisher/Image (5.15.6)\n  - Kingfisher (5.15.6)\n";
    let pg_map = parse_podfile_lock_podspec(text).unwrap();
    assert_eq!(1, pg_map.len());
    let king = pg_map.get("Kingfisher").unwrap();
    assert_eq!([5, 15, 6], king.0.ver.nums);
    assert_eq!(Some(vec!["Image".to_string()]), king.0.sub_spec);
}

#[test]
fn parse_podfile_lock_crlf_and_no_pods() {
    let text = "PODS:\r\n  - Alamofire (5.3.0)\r\n\r\n  - Late (1.0)\r\n";
    let pg_map = parse_podfile_lock_podspec(text).unwrap();
    assert_eq!(1, pg_map.len());
    assert_eq!([5, 3, 0], pg_map.get("Alamofire").unwrap().0.ver.nums);

    assert!(parse_podfile_lock_podspec("").unwrap().is_empty());
    assert!(parse_podfile_lock_podspec("DEPENDENCIES:\n  - A (1.0)\n").unwrap().is_empty());
    assert!(parse_podfile_lock_podspec("PODS:\n\n  - A (1.0)\n").unwrap().is_empty());
}

#[test]
fn parse_podfile_lock_skips_other_lines() {
    let text = "x\nPODS:\n  - A (1.0) extra\n - B (1.0)\n  - C (2.1.1)\n  - C (3.0)\n";
    let pg_map = parse_podfile_lock_podspec(text).unwrap();
    assert_eq!(1, pg_map.len());
    assert_eq!([2, 1, 1], pg_map.get("C").unwrap().0.ver.nums);
}
