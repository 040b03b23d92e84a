use pod_helper::cmds::check::{
    apply_idx_response, check_groups, hex_counts, podfile_update_rows, UpdateRow,
};
use pod_helper::error::PodError;
use pod_helper::opts::pod_helper::CheckOpts;

fn opts(show_no_update: bool) -> CheckOpts {
    CheckOpts {
        file_path: "Podfile.lock".to_string(),
        request_concurrent: 5,
        connect_timeout: 10,
        request_timeout: 20,
        show_no_update,
    }
}

fn row(name: &str, ver: &str, new_ver: &str) -> UpdateRow {
    UpdateRow { name: name.to_string(), ver: ver.to_string(), new_ver: new_ver.to_string() }
}

const LOCK: &str = "PODS:\n  - Alamofire (5.3.0)\n  - AppNetworkManager (1.0.5)\n  - Kingfisher (5.15.6)\n  - Moya (14.0)\n\nDEPENDENCIES:\n";

#[test]
fn check_groups_without_pods_is_an_error() {
    match check_groups("DEPENDENCIES:\n  - A\n") {
        Err(PodError::Other(msg)) => {
            assert_eq!("parse file podfile.lock can not find any podspec", msg)
        }
        other => panic!("unexpected {:?}", other),
    }
    assert_eq!(4, check_groups(LOCK).unwrap().len());
}

#[test]
fn hex_counts_count_each_key() {
    let map = check_groups(LOCK).unwrap();
    let counts = hex_counts(&map);
    let total: u32 = counts.iter().map(|c| c.1).sum();
    assert_eq!(4, total);
    for g in map.groups() {
        let c = counts.iter().find(|c| c.0 == g.1.hex).unwrap();
        let n = map.groups().iter().filter(|h| h.1.hex == g.1.hex).count() as u32;
        assert_eq!(n, c.1);
    }
    let mut keys: Vec<&String> = counts.iter().map(|c| &c.0).collect();
    keys.dedup();
    assert_eq!(counts.len(), keys.len());
}

#[test]
fn hex_counts_of_shared_key() {
    let text = "PODS:\n  - AppNetworkManager (1.0)\n  - AppNetworkManager/Sub (1.0)\n";
    let map = check_groups(text).unwrap();
    let counts = hex_counts(&map);
    assert_eq!(1, counts.len());
    assert_eq!("222", counts[0].0);
    assert_eq!(1, counts[0].1);
}

#[test]
fn apply_idx_response_records_versions() {
    let mut map = check_groups(LOCK).unwrap();
    let answer = "Other/1.0\n\nAlamofire/5.2.0/5.4.1/5.3.0\nMoya/15.0.0\n";
    apply_idx_response(&mut map, 1, answer);
    let alamofire = map.get("Alamofire").unwrap();
    let vers: Vec<[u32; 3]> =
        alamofire.1.get_vers().as_ref().unwrap().iter().map(|v| v.nums).collect();
    assert_eq!(vec![[5, 4, 1], [5, 3, 0], [5, 2, 0]], vers);
    // reading stopped after one pod of the map
    assert!(map.get("Moya").unwrap().1.get_vers().is_none());

    apply_idx_response(&mut map, 2, answer);
    let moya = map.get("Moya").unwrap();
    assert_eq!([15, 0, 0], moya.1.get_vers().as_ref().unwrap()[0].nums);
}

#[test]
fn apply_idx_response_later_line_wins_and_bare_name() {
    let mut map = check_groups(LOCK).unwrap();
    apply_idx_response(&mut map, 3, "Moya/1.0\nMoya/2.0/3.0\nKingfisher\n");
    let moya: Vec<[u32; 3]> =
        map.get("Moya").unwrap().1.get_vers().as_ref().unwrap().iter().map(|v| v.nums).collect();
    assert_eq!(vec![[3, 0, 0], [2, 0, 0]], moya);
    assert_eq!(0, map.get("Kingfisher").unwrap().1.get_vers().as_ref().unwrap().len());
}

#[test]
fn update_rows_in_report_order() {
    let mut map = check_groups(LOCK).unwrap();
    apply_idx_response(
        &mut map,
        10,
        "Alamofire/5.2.0/5.4.1\nKingfisher/5.15.6/5.0.0\nMoya/13.0\n",
    );
    let rows = podfile_update_rows(&opts(false), &map);
    assert_eq!(
        vec![
            row("AppNetworkManager", "1.0.5", "not found or request failed"),
            row("Alamofire", "5.3.0", "5.4.1"),
        ],
        rows
    );
    let rows = podfile_update_rows(&opts(true), &map);
    assert_eq!(
        vec![
            row("AppNetworkManager", "1.0.5", "not found or request failed"),
            row("Kingfisher", "5.15.6", "-"),
            row("Moya", "14.0.0", "-"),
            row("Alamofire", "5.3.0", "5.4.1"),
        ],
        rows
    );
    assert_eq!(map.len(), rows.len());
}
