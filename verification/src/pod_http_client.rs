//! The addresses of the CocoaPods CDN that pod specs are fetched from.
use vstd::prelude::*;

use crate::common::PodSpec;
use crate::utils::{join_chars, lemma_join_chars_key, str_join};

verus! {

/// The address of the index file of the pods whose names have the index
/// key `hex`: `https://cdn.cocoapods.org/all_pods_versions_2_2_2.txt` for
/// the key `222`.
pub open spec fn idx_pods_url_spec(hex: Seq<char>) -> Seq<char> {
    "https://cdn.cocoapods.org/all_pods_versions_"@ + join_chars(hex, "_"@) + ".txt"@
}

/// The address of the podspec JSON of version `ver` of the pod `name` whose
/// index key is `hex`: `https://cdn.cocoapods.org/Specs/2/2/2/NAME/VER/NAME.podspec.json`.
pub open spec fn podspec_json_url_spec(hex: Seq<char>, name: Seq<char>, ver: Seq<char>) -> Seq<
    char,
> {
    "https://cdn.cocoapods.org/Specs/"@ + join_chars(hex, "/"@) + "/"@ + name + "/"@ + ver + "/"@
        + name + ".podspec.json"@
}

/// The index address of a key spells the key's three characters in their
/// own order, separated by `'_'`: for `d`, `a`, `2` it is
/// `.../all_pods_versions_d_a_2.txt`.
pub proof fn lemma_idx_pods_url_of_key(hex: Seq<char>)
    requires
        hex.len() == 3,
    ensures
        idx_pods_url_spec(hex) == "https://cdn.cocoapods.org/all_pods_versions_"@ + seq![
            hex[0],
            '_',
            hex[1],
            '_',
            hex[2],
        ] + ".txt"@,
{
    reveal_strlit("_");
    assert("_"@ =~= seq!['_']);
    lemma_join_chars_key(hex, '_');
}

/// The podspec address of a pod spells the three characters of its key in
/// their own order as path segments, then the name, the version and the
/// name again: `.../Specs/d/a/2/NAME/VER/NAME.podspec.json`.
pub proof fn lemma_podspec_json_url_of_key(hex: Seq<char>, name: Seq<char>, ver: Seq<char>)
    requires
        hex.len() == 3,
    ensures
        podspec_json_url_spec(hex, name, ver) == "https://cdn.cocoapods.org/Specs/"@ + seq![
            hex[0],
            '/',
            hex[1],
            '/',
            hex[2],
        ] + "/"@ + name + "/"@ + ver + "/"@ + name + ".podspec.json"@,
{
    reveal_strlit("/");
    assert("/"@ =~= seq!['/']);
    lemma_join_chars_key(hex, '/');
}

/// The address of the index file for the key `hex`.
pub fn idx_pods_url(hex: &str) -> (res: String)
    ensures
        res@ == idx_pods_url_spec(hex@),
{
    let mut url = "https://cdn.cocoapods.org/all_pods_versions_".to_owned();
    let joined = str_join(hex, "_");
    url.append(joined.as_str());
    url.append(".txt");
    url
}

/// The address of the podspec JSON of version `ver` of `pod`.
pub fn podspec_json_url(pod: &PodSpec, ver: &str) -> (res: String)
    ensures
        res@ == podspec_json_url_spec(pod@.hex, pod@.name, ver@),
{
    let mut url = "https://cdn.cocoapods.org/Specs/".to_owned();
    let joined = str_join(pod.hex_ref().as_str(), "/");
    url.append(joined.as_str());
    url.append("/");
    url.append(pod.name_ref().as_str());
    url.append("/");
    url.append(ver);
    url.append("/");
    url.append(pod.name_ref().as_str());
    url.append(".podspec.json");
    url
}

} // verus!
