//! `pod_helper check`: which pods of a `Podfile.lock` have newer versions in
//! the CocoaPods CDN index.
//!
//! The command reads the `Podfile.lock`, asks the index once per index key,
//! records the versions of each pod from the answers, and reports. This
//! module holds its decisions; reading the file, the requests and the
//! printing are done by the program around it.
use vstd::prelude::*;

use crate::common::{
    is_desc_sorting, lemma_ver_order, pod_ver_of, ver_lt, ver_rank, ver_string, PodSpecGroupModel,
    PodVer,
};
use crate::error::{PodError, Result};
use crate::opts::pod_helper::CheckOpts;
use crate::text::{chars_view, split_chars, split_on, str_chars, string_from_chars};
use crate::utils::{
    find_group, groups_view, lemma_find_group_from, lemma_find_group_names,
    parse_podfile_lock_podspec, podfile_lock_pods, PodSpecMap,
};

verus! {

/// The error text when a `Podfile.lock` lists no pod.
pub open spec fn no_pods_text() -> Seq<char> {
    "parse file podfile.lock can not find any podspec"@
}

/// The pod spec groups to check, read from the text of a `Podfile.lock`;
/// a file that lists no pod is an error.
pub fn check_groups(text: &str) -> (res: Result<PodSpecMap>)
    ensures
        podfile_lock_pods(text@).len() > 0 ==> (res matches Ok(m) && m@ == podfile_lock_pods(
            text@,
        )),
        podfile_lock_pods(text@).len() == 0 ==> (res matches Err(PodError::Other(msg)) && msg@
            == no_pods_text()),
{
    let map = match parse_podfile_lock_podspec(text) {
        Ok(m) => m,
        Err(e) => return Err(e),
    };
    if map.is_empty() {
        return Err(PodError::Other("parse file podfile.lock can not find any podspec"));
    }
    Ok(map)
}

// ---------------------------------------------------------------------------
// Index keys to request
// ---------------------------------------------------------------------------

/// How many of `gs` have the index key `hex`.
pub open spec fn hex_count(gs: Seq<PodSpecGroupModel>, hex: Seq<char>) -> nat
    decreases gs.len(),
{
    if gs.len() == 0 {
        0
    } else {
        hex_count(gs.drop_last(), hex) + if gs.last().spec.hex == hex {
            1nat
        } else {
            0nat
        }
    }
}

/// The index keys of `gs`, each once, in the order of their first group.
pub open spec fn distinct_hexes(gs: Seq<PodSpecGroupModel>) -> Seq<Seq<char>>
    decreases gs.len(),
{
    if gs.len() == 0 {
        Seq::empty()
    } else {
        let h = distinct_hexes(gs.drop_last());
        if h.contains(gs.last().spec.hex) {
            h
        } else {
            h.push(gs.last().spec.hex)
        }
    }
}

/// The sum of the counts of the keys `hs` among `gs`.
pub open spec fn sum_counts(gs: Seq<PodSpecGroupModel>, hs: Seq<Seq<char>>) -> nat
    decreases hs.len(),
{
    if hs.len() == 0 {
        0
    } else {
        sum_counts(gs, hs.drop_last()) + hex_count(gs, hs.last())
    }
}

/// How often `h` occurs in `hs`.
pub open spec fn occurrences(hs: Seq<Seq<char>>, h: Seq<char>) -> nat
    decreases hs.len(),
{
    if hs.len() == 0 {
        0
    } else {
        occurrences(hs.drop_last(), h) + if hs.last() == h {
            1nat
        } else {
            0nat
        }
    }
}

pub proof fn lemma_hex_count_bound(gs: Seq<PodSpecGroupModel>, hex: Seq<char>)
    ensures
        hex_count(gs, hex) <= gs.len(),
    decreases gs.len(),
{
    if gs.len() > 0 {
        lemma_hex_count_bound(gs.drop_last(), hex);
    }
}

/// No key occurs twice among the distinct keys, and a key that is not among
/// them has no group.
pub proof fn lemma_distinct_hexes(gs: Seq<PodSpecGroupModel>)
    ensures
        forall|i: int, j: int|
            0 <= i < j < distinct_hexes(gs).len() ==> distinct_hexes(gs)[i] != distinct_hexes(
                gs,
            )[j],
        forall|h: Seq<char>| !distinct_hexes(gs).contains(h) ==> hex_count(gs, h) == 0,
    decreases gs.len(),
{
    if gs.len() > 0 {
        let g0 = gs.drop_last();
        lemma_distinct_hexes(g0);
        let h0 = distinct_hexes(g0);
        let d = distinct_hexes(gs);
        assert forall|h: Seq<char>| !d.contains(h) implies hex_count(gs, h) == 0 by {
            assert(!h0.contains(h)) by {
                if h0.contains(h) {
                    let k = choose|k: int| 0 <= k < h0.len() && h0[k] == h;
                    if h0.contains(gs.last().spec.hex) {
                        assert(d == h0);
                    } else {
                        assert(d == h0.push(gs.last().spec.hex));
                    }
                    assert(d[k] == h);
                }
            }
            assert(gs.last().spec.hex != h) by {
                if gs.last().spec.hex == h {
                    assert(d == h0.push(gs.last().spec.hex));
                    assert(d[d.len() - 1] == h);
                }
            }
            assert(hex_count(g0, h) == 0);
            assert(hex_count(gs, h) == hex_count(g0, h) + if gs.last().spec.hex == h {
                1nat
            } else {
                0nat
            });
        }
    }
}

/// The sum of the counts over some keys, when one more group is added.
proof fn lemma_sum_counts_push(g0: Seq<PodSpecGroupModel>, g: PodSpecGroupModel, hs: Seq<Seq<char>>)
    ensures
        sum_counts(g0.push(g), hs) == sum_counts(g0, hs) + occurrences(hs, g.spec.hex),
    decreases hs.len(),
{
    let gs = g0.push(g);
    assert(gs.drop_last() =~= g0);
    if hs.len() > 0 {
        lemma_sum_counts_push(g0, g, hs.drop_last());
    }
}

/// A key that occurs once in a list.
proof fn lemma_occurrences_distinct(hs: Seq<Seq<char>>, h: Seq<char>)
    requires
        forall|i: int, j: int| 0 <= i < j < hs.len() ==> hs[i] != hs[j],
    ensures
        hs.contains(h) ==> occurrences(hs, h) == 1,
        !hs.contains(h) ==> occurrences(hs, h) == 0,
    decreases hs.len(),
{
    if hs.len() > 0 {
        let h0 = hs.drop_last();
        lemma_occurrences_distinct(h0, h);
        if hs.last() == h {
            assert(!h0.contains(h)) by {
                if h0.contains(h) {
                    let k = choose|k: int| 0 <= k < h0.len() && h0[k] == h;
                    assert(hs[k] == hs[hs.len() - 1]);
                }
            }
        } else {
            if hs.contains(h) {
                let k = choose|k: int| 0 <= k < hs.len() && hs[k] == h;
                assert(h0[k] == h);
            }
            if h0.contains(h) {
                let k = choose|k: int| 0 <= k < h0.len() && h0[k] == h;
                assert(hs[k] == h);
            }
        }
    }
}

/// Every group is counted under exactly one index key: the counts of the
/// distinct keys add up to the number of groups.
pub proof fn lemma_hex_counts_total(gs: Seq<PodSpecGroupModel>)
    ensures
        sum_counts(gs, distinct_hexes(gs)) == gs.len(),
    decreases gs.len(),
{
    if gs.len() > 0 {
        let g0 = gs.drop_last();
        let g = gs.last();
        assert(gs =~= g0.push(g));
        lemma_hex_counts_total(g0);
        lemma_distinct_hexes(g0);
        lemma_distinct_hexes(gs);
        let h0 = distinct_hexes(g0);
        let d = distinct_hexes(gs);
        lemma_sum_counts_push(g0, g, d);
        lemma_occurrences_distinct(d, g.spec.hex);
        if h0.contains(g.spec.hex) {
            assert(d == h0);
        } else {
            assert(d == h0.push(g.spec.hex));
            assert(d.drop_last() =~= h0);
            assert(hex_count(g0, g.spec.hex) == 0);
            assert(sum_counts(g0, d) == sum_counts(g0, h0) + hex_count(g0, g.spec.hex));
            assert(d.contains(g.spec.hex)) by {
                assert(d[d.len() - 1] == g.spec.hex);
            }
        }
    }
}

/// The views of a list of index keys with their counts.
pub open spec fn counts_view(v: Seq<(String, u32)>) -> Seq<(Seq<char>, u32)> {
    v.map_values(|p: (String, u32)| (p.0@, p.1))
}

/// Each index key of the groups of `map` once, in the order of its first
/// group, with the number of groups that have it: the keys to ask the index
/// for, and how many pods each answer concerns.
pub fn hex_counts(map: &PodSpecMap) -> (res: Vec<(String, u32)>)
    requires
        map@.len() <= u32::MAX,
    ensures
        res@.len() == distinct_hexes(map@).len(),
        forall|k: int|
            0 <= k < res@.len() ==> (#[trigger] res@[k]).0@ == distinct_hexes(map@)[k] && res@[k].1
                == hex_count(map@, distinct_hexes(map@)[k]),
{
    let groups = map.groups();
    let ghost gs = map@;
    let mut res: Vec<(String, u32)> = Vec::new();
    let mut i: usize = 0;
    assert(gs.take(0) =~= Seq::<PodSpecGroupModel>::empty());
    while i < groups.len()
        invariant
            gs == map@,
            crate::utils::groups_view(groups@) == gs,
            gs.len() <= u32::MAX,
            i <= groups.len(),
            res@.len() == distinct_hexes(gs.take(i as int)).len(),
            forall|k: int|
                0 <= k < res@.len() ==> (#[trigger] res@[k]).0@ == distinct_hexes(gs.take(i as int))[k]
                    && res@[k].1 == hex_count(gs.take(i as int), distinct_hexes(gs.take(i as int))[k]),
        decreases groups.len() - i,
    {
        let ghost pre = gs.take(i as int);
        let ghost next = gs.take(i + 1);
        assert(next.drop_last() =~= pre);
        assert(next.last() == gs[i as int]);
        assert(gs[i as int] == groups@[i as int]@);
        let hex = groups[i].1.hex_ref();
        let ghost h = hex@;
        assert(h == next.last().spec.hex);
        proof {
            lemma_distinct_hexes(pre);
            lemma_hex_count_bound(pre, h);
        }
        let ghost d = distinct_hexes(pre);
        let mut j: usize = 0;
        while j < res.len() && !(res[j].0 == *hex)
            invariant
                hex@ == h,
                j <= res.len(),
                res@.len() == d.len(),
                forall|k: int| 0 <= k < res@.len() ==> (#[trigger] res@[k]).0@ == d[k],
                forall|k: int| 0 <= k < j ==> d[k] != h,
            decreases res.len() - j,
        {
            j = j + 1;
        }
        if j < res.len() {
            let count = res[j].1;
            proof {
                assert(d[j as int] == h);
                assert(d.contains(h));
                assert(count == hex_count(pre, h));
            }
            let key = res[j].0.clone();
            res.set(j, (key, count + 1));
            proof {
                assert(distinct_hexes(next) == d);
                assert forall|k: int| 0 <= k < res@.len() implies (#[trigger] res@[k]).0@
                    == distinct_hexes(next)[k] && res@[k].1 == hex_count(
                    next,
                    distinct_hexes(next)[k],
                ) by {
                    if k != j {
                        assert(d[k] != d[j as int]);
                    }
                }
            }
        } else {
            proof {
                assert(!d.contains(h)) by {
                    if d.contains(h) {
                        let k = choose|k: int| 0 <= k < d.len() && d[k] == h;
                        assert(res@[k].0@ == d[k]);
                    }
                }
                assert(hex_count(pre, h) == 0);
                assert(distinct_hexes(next) == d.push(h));
            }
            let key = hex.clone();
            res.push((key, 1));
            proof {
                assert forall|k: int| 0 <= k < res@.len() implies (#[trigger] res@[k]).0@
                    == distinct_hexes(next)[k] && res@[k].1 == hex_count(
                    next,
                    distinct_hexes(next)[k],
                ) by {
                    if k < d.len() {
                        assert(d[k] != h) by {
                            if d[k] == h {
                                assert(d.contains(h));
                            }
                        }
                    }
                }
            }
        }
        i = i + 1;
    }
    assert(gs.take(groups.len() as int) =~= gs);
    res
}

// ---------------------------------------------------------------------------
// Answers of the index
// ---------------------------------------------------------------------------

/// What one line `NAME/VER/VER/...` of an index answer says of `gs`: the
/// index of the group of the pod `NAME` and that pod's versions, in the
/// order listed. Empty lines and pods not in `gs` say nothing.
pub open spec fn idx_line_update(gs: Seq<PodSpecGroupModel>, line: Seq<char>) -> Option<
    (int, Seq<PodVer>),
> {
    if line.len() == 0 {
        None
    } else {
        let parts = split_on(line, '/');
        match find_group(gs, parts[0]) {
            Some(i) => Some((i, parts.drop_first().map_values(|p: Seq<char>| pod_ver_of(p)))),
            None => None,
        }
    }
}

/// The versions that `lines` give the groups of `gs`, added to `acc`: a
/// later line about a pod replaces an earlier one, and reading stops once
/// `counter` lines have named pods of `gs`.
pub open spec fn idx_updates(
    gs: Seq<PodSpecGroupModel>,
    lines: Seq<Seq<char>>,
    counter: int,
    acc: Map<int, Seq<PodVer>>,
) -> Map<int, Seq<PodVer>>
    decreases lines.len(),
{
    if lines.len() == 0 {
        acc
    } else {
        match idx_line_update(gs, lines[0]) {
            Some(u) => if counter <= 1 {
                acc.insert(u.0, u.1)
            } else {
                idx_updates(gs, lines.drop_first(), counter - 1, acc.insert(u.0, u.1))
            },
            None => idx_updates(gs, lines.drop_first(), counter, acc),
        }
    }
}

/// The versions that the index answer `text` gives the groups of `gs`, when
/// `counter` of them have the key that was asked for.
pub open spec fn idx_answer_updates(gs: Seq<PodSpecGroupModel>, counter: int, text: Seq<char>) -> Map<
    int,
    Seq<PodVer>,
> {
    idx_updates(gs, split_on(text, '\n'), counter, Map::empty())
}

/// `now` is `before` with the versions of `updates` given to their groups.
pub open spec fn holds_updates(
    now: Seq<PodSpecGroupModel>,
    before: Seq<PodSpecGroupModel>,
    updates: Map<int, Seq<PodVer>>,
) -> bool {
    &&& now.len() == before.len()
    &&& forall|i: int|
        0 <= i < before.len() ==> {
            &&& (#[trigger] now[i]).file == before[i].file
            &&& now[i].spec.name == before[i].spec.name
            &&& now[i].spec.hex == before[i].spec.hex
            &&& updates.contains_key(i) ==> (now[i].spec.vers matches Some(s) && is_desc_sorting(
                s,
                updates[i],
            ))
            &&& !updates.contains_key(i) ==> now[i].spec.vers == before[i].spec.vers
        }
}

/// The versions of the pieces after the first.
fn versions_of(parts: &Vec<Vec<char>>) -> (res: Vec<PodVer>)
    requires
        parts.len() >= 1,
    ensures
        res@ == chars_view(parts@).drop_first().map_values(|p: Seq<char>| pod_ver_of(p)),
{
    let ghost want = chars_view(parts@).drop_first().map_values(|p: Seq<char>| pod_ver_of(p));
    let mut res: Vec<PodVer> = Vec::new();
    let mut i: usize = 1;
    while i < parts.len()
        invariant
            1 <= i <= parts.len(),
            want == chars_view(parts@).drop_first().map_values(|p: Seq<char>| pod_ver_of(p)),
            res@ == want.take(i - 1),
        decreases parts.len() - i,
    {
        let v = PodVer::from_chars(&parts[i]);
        res.push(v);
        assert(want[i - 1] == pod_ver_of(parts@[i as int]@));
        assert(res@ =~= want.take(i as int));
        i = i + 1;
    }
    assert(want.take(parts.len() - 1) =~= want);
    res
}

/// Records in `map` the versions that the index answer `text` lists, for a
/// key that `counter` of the groups have: each line `NAME/VER/VER/...` about
/// a pod of `map` gives that pod the versions listed, newest first, and
/// reading stops after `counter` such lines.
pub fn apply_idx_response(map: &mut PodSpecMap, counter: u32, text: &str)
    requires
        counter >= 1,
    ensures
        holds_updates(final(map)@, old(map)@, idx_answer_updates(old(map)@, counter as int, text@)),
{
    let ghost before = map@;
    let ghost first_counter = counter;
    let chars = str_chars(text);
    let lines = split_chars(&chars, '\n');
    let ghost ls = chars_view(lines@);
    let ghost total = idx_answer_updates(before, counter as int, text@);
    let ghost mut acc: Map<int, Seq<PodVer>> = Map::empty();
    let mut remaining = counter;
    let mut k: usize = 0;
    assert(ls.skip(0) =~= ls);
    while k < lines.len()
        invariant
            ls == chars_view(lines@),
            before == old(map)@,
            first_counter == counter,
            total == idx_answer_updates(old(map)@, first_counter as int, text@),
            k <= lines.len(),
            remaining >= 1,
            total == idx_updates(before, ls.skip(k as int), remaining as int, acc),
            holds_updates(map@, before, acc),
        decreases lines.len() - k,
    {
        let ghost rest = ls.skip(k as int);
        assert(rest[0] == lines@[k as int]@);
        assert(rest.drop_first() =~= ls.skip(k + 1));
        let line = &lines[k];
        if line.len() > 0 {
            let parts = split_chars(line, '/');
            proof {
                crate::text::lemma_split_on_len(line@, '/');
            }
            let name = string_from_chars(&parts[0]);
            proof {
                lemma_find_group_names(map@, before, name@, 0);
                lemma_find_group_from(map@, name@, 0);
            }
            match map.position(&name) {
                Some(i) => {
                    let vers = versions_of(&parts);
                    let ghost old_map = map@;
                    let ghost old_acc = acc;
                    assert(idx_line_update(before, rest[0]) == Some((i as int, vers@)));
                    map.set_vers_at(i, Some(vers));
                    proof {
                        acc = acc.insert(i as int, vers@);
                        assert(holds_updates(map@, before, acc)) by {
                            assert forall|j: int| 0 <= j < before.len() implies {
                                &&& (#[trigger] map@[j]).file == before[j].file
                                &&& map@[j].spec.name == before[j].spec.name
                                &&& map@[j].spec.hex == before[j].spec.hex
                                &&& acc.contains_key(j) ==> (map@[j].spec.vers matches Some(s)
                                    && is_desc_sorting(s, acc[j]))
                                &&& !acc.contains_key(j) ==> map@[j].spec.vers
                                    == before[j].spec.vers
                            } by {
                                if j != i {
                                    assert(map@[j] == old_map[j]);
                                }
                            }
                        }
                    }
                    remaining = remaining - 1;
                    if remaining == 0 {
                        assert(total == old_acc.insert(i as int, vers@));
                        return;
                    }
                },
                None => {},
            }
        }
        k = k + 1;
    }
    assert(ls.skip(k as int).len() == 0);
}

// ---------------------------------------------------------------------------
// The report
// ---------------------------------------------------------------------------

/// A line of the report: a pod, its version in the `Podfile.lock`, and what
/// the index says of it.
#[derive(Debug, PartialEq)]
pub struct UpdateRow {
    pub name: String,
    pub ver: String,
    pub new_ver: String,
}

/// What a line of the report holds.
pub struct UpdateRowModel {
    pub name: Seq<char>,
    pub ver: Seq<char>,
    pub new_ver: Seq<char>,
}

impl View for UpdateRow {
    type V = UpdateRowModel;

    open spec fn view(&self) -> UpdateRowModel {
        UpdateRowModel { name: self.name@, ver: self.ver@, new_ver: self.new_ver@ }
    }
}

/// What the report says of a pod whose versions are not known.
pub open spec fn not_found_text() -> Seq<char> {
    "not found or request failed"@
}

/// What the report says of a pod that has no newer version.
pub open spec fn no_update_text() -> Seq<char> {
    "-"@
}

/// The newest version known of the pod of `g`, if any.
pub open spec fn newest(g: PodSpecGroupModel) -> Option<PodVer> {
    match g.spec.vers {
        Some(vs) => if vs.len() > 0 {
            Some(vs[0])
        } else {
            None
        },
        None => None,
    }
}

/// 0 when no version of the pod of `g` is known, 2 when a newer one than
/// the pinned one is, and 1 otherwise.
pub open spec fn row_kind(g: PodSpecGroupModel) -> int {
    match newest(g) {
        None => 0,
        Some(n) => if ver_lt(g.file.ver@, n@) {
            2
        } else {
            1
        },
    }
}

/// The line of the report about the pod of `g`.
pub open spec fn row_of(g: PodSpecGroupModel) -> UpdateRowModel {
    UpdateRowModel {
        name: g.file.name,
        ver: ver_string(g.file.ver@),
        new_ver: match newest(g) {
            None => not_found_text(),
            Some(n) => if ver_lt(g.file.ver@, n@) {
                ver_string(n@)
            } else {
                no_update_text()
            },
        },
    }
}

/// The lines about the groups of `gs` of kind `kind`, in order.
pub open spec fn rows_of_kind(gs: Seq<PodSpecGroupModel>, kind: int) -> Seq<UpdateRowModel>
    decreases gs.len(),
{
    if gs.len() == 0 {
        Seq::empty()
    } else {
        let r = rows_of_kind(gs.drop_last(), kind);
        if row_kind(gs.last()) == kind {
            r.push(row_of(gs.last()))
        } else {
            r
        }
    }
}

/// The report on `gs`: first the pods whose versions are not known, then,
/// if `show_no_update`, those with no newer version, then those with a
/// newer one.
pub open spec fn update_report(gs: Seq<PodSpecGroupModel>, show_no_update: bool) -> Seq<
    UpdateRowModel,
> {
    rows_of_kind(gs, 0) + (if show_no_update {
        rows_of_kind(gs, 1)
    } else {
        Seq::empty()
    }) + rows_of_kind(gs, 2)
}

/// What the report says of a pod: with no version known, "not found or
/// request failed"; when its pinned version is a smaller number (read with
/// all three numbers) than its newest known version, that newest version;
/// otherwise "-". The line always names the pod and its pinned version.
pub proof fn lemma_row_of_pod(g: PodSpecGroupModel)
    ensures
        row_of(g).name == g.file.name,
        row_of(g).ver == ver_string(g.file.ver@),
        row_kind(g) == 0 <==> newest(g) is None,
        newest(g) is None ==> row_of(g).new_ver == not_found_text(),
        row_kind(g) == 2 <==> (newest(g) matches Some(n) && ver_rank(g.file.ver) < ver_rank(n)),
        row_kind(g) == 1 <==> (newest(g) matches Some(n) && ver_rank(n) <= ver_rank(g.file.ver)),
        newest(g) matches Some(n) ==> row_of(g).new_ver == (if ver_rank(g.file.ver) < ver_rank(n) {
            ver_string(n@)
        } else {
            no_update_text()
        }),
{
    match newest(g) {
        Some(n) => {
            lemma_ver_order(g.file.ver, n);
        },
        None => {},
    }
}

/// The views of report lines.
pub open spec fn rows_view(rows: Seq<UpdateRow>) -> Seq<UpdateRowModel> {
    rows.map_values(|r: UpdateRow| r@)
}

/// Every pod has exactly one kind: the report lines of the three kinds
/// together are as many as the pods.
pub proof fn lemma_rows_partition(gs: Seq<PodSpecGroupModel>)
    ensures
        rows_of_kind(gs, 0).len() + rows_of_kind(gs, 1).len() + rows_of_kind(gs, 2).len()
            == gs.len(),
        update_report(gs, true).len() == gs.len(),
    decreases gs.len(),
{
    if gs.len() > 0 {
        lemma_rows_partition(gs.drop_last());
    }
}

/// The kind of the pod of `g`, as `row_kind` gives it.
fn kind_of(g: &crate::common::PodSpecGroup) -> (res: u8)
    ensures
        res as int == row_kind(g@),
{
    match g.1.get_vers() {
        Some(v) => {
            if v.len() == 0 {
                0
            } else if g.0.ver.less_than(&v[0]) {
                2
            } else {
                1
            }
        },
        None => 0,
    }
}

/// The report line about the pod of `g`.
fn row_for(g: &crate::common::PodSpecGroup) -> (res: UpdateRow)
    ensures
        res@ == row_of(g@),
{
    let new_ver = match g.1.get_vers() {
        Some(v) => {
            if v.len() == 0 {
                "not found or request failed".to_owned()
            } else if g.0.ver.less_than(&v[0]) {
                v[0].to_string()
            } else {
                "-".to_owned()
            }
        },
        None => "not found or request failed".to_owned(),
    };
    UpdateRow { name: g.0.name.clone(), ver: g.0.ver.to_string(), new_ver }
}

/// Appends the report lines of kind `kind` about `groups`.
fn push_rows(groups: &Vec<crate::common::PodSpecGroup>, kind: u8, rows: &mut Vec<UpdateRow>)
    ensures
        rows_view(final(rows)@) == rows_view(old(rows)@) + rows_of_kind(
            groups_view(groups@),
            kind as int,
        ),
{
    let ghost gs = groups_view(groups@);
    let ghost start = rows_view(rows@);
    let mut i: usize = 0;
    assert(gs.take(0) =~= Seq::<PodSpecGroupModel>::empty());
    assert(start + rows_of_kind(gs.take(0), kind as int) =~= start);
    while i < groups.len()
        invariant
            gs == groups_view(groups@),
            i <= groups.len(),
            rows_view(rows@) == start + rows_of_kind(gs.take(i as int), kind as int),
        decreases groups.len() - i,
    {
        let ghost pre = gs.take(i as int);
        let ghost next = gs.take(i + 1);
        assert(next.drop_last() =~= pre);
        assert(next.last() == groups@[i as int]@);
        let g = &groups[i];
        if kind_of(g) == kind {
            let row = row_for(g);
            let ghost old_rows = rows@;
            rows.push(row);
            assert(rows_view(rows@) =~= rows_view(old_rows).push(row@));
        }
        i = i + 1;
    }
    assert(gs.take(groups.len() as int) =~= gs);
}

/// The report on the groups of `map`: first the pods whose versions are not
/// known (`"not found or request failed"`), then, if `opt.show_no_update`,
/// those with no newer version (`"-"`), then those with a newer one (the
/// newest version).
pub fn podfile_update_rows(opt: &CheckOpts, map: &PodSpecMap) -> (res: Vec<UpdateRow>)
    ensures
        rows_view(res@) == update_report(map@, opt.show_no_update),
{
    let groups = map.groups();
    let mut rows: Vec<UpdateRow> = Vec::new();
    assert(rows_view(rows@) =~= Seq::<UpdateRowModel>::empty());
    push_rows(groups, 0, &mut rows);
    if opt.show_no_update {
        push_rows(groups, 1, &mut rows);
    }
    push_rows(groups, 2, &mut rows);
    assert(rows_view(rows@) =~= update_report(map@, opt.show_no_update));
    rows
}

} // verus!
