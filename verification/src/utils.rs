//! Index keys of pod names, joining, and reading the pods of a
//! `Podfile.lock`.
use vstd::prelude::*;
use vstd::utf8::encode_utf8;

use md5::{Digest, Md5};

use crate::error::{PodError, Result};
use crate::common::{
    pod_ver_of, strings_view, FilePodSpec, FilePodSpecModel, PodSpec,
    PodSpecGroup, PodSpecGroupModel, PodSpecModel, PodVer,
};
use crate::text::{
    chars_view, find_char, find_from, has_prefix, lines_of, split_chars, split_on, starts_with,
    str_chars, string_from_chars, sub_chars, text_lines, trim_chars, trim_set,
};

verus! {

/// The MD5 digest of `data`.
pub uninterp spec fn md5_digest(data: Seq<u8>) -> Seq<u8>;

/// Calls `Md5::digest` (crate md-5) on `data` and copies the digest out.
/// Claimed: the result is `md5_digest` of the bytes, and it has 16 bytes,
/// as the digest's type `GenericArray<u8, U16>` fixes.
#[verifier::external_body]
fn md5_bytes(data: &[u8]) -> (res: Vec<u8>)
    ensures
        res@ == md5_digest(data@),
        res@.len() == 16,
{
    Md5::digest(data).to_vec()
}

/// The lowercase hexadecimal digit of `n` (`0 <= n < 16`).
pub open spec fn hex_char(n: int) -> char {
    if n < 10 {
        (n + '0' as int) as char
    } else {
        (n - 10 + 'a' as int) as char
    }
}

/// The index key of a pod name: the first three lowercase hexadecimal
/// digits of the MD5 digest of its UTF-8 bytes.
pub open spec fn spec_name_hash(name: Seq<char>) -> Seq<char> {
    let d = md5_digest(encode_utf8(name));
    seq![hex_char((d[0] / 16) as int), hex_char((d[0] % 16) as int), hex_char((d[1] / 16) as int)]
}

fn hex_digit(n: u8) -> (res: char)
    requires
        n < 16,
    ensures
        res == hex_char(n as int),
{
    if n < 10 {
        (48u8 + n) as char
    } else {
        (87u8 + n) as char
    }
}

/// The index key of `name`: the first three hex digits of MD5(name).
pub fn name_hash(name: &str) -> (res: Result<String>)
    ensures
        res matches Ok(h) && h@ == spec_name_hash(name@),
{
    let digest = md5_bytes(name.as_bytes());
    if digest.len() != 16 {
        return Err(PodError::MD5);
    }
    let mut hex = String::new();
    hex.push(hex_digit(digest[0] / 16));
    hex.push(hex_digit(digest[0] % 16));
    hex.push(hex_digit(digest[1] / 16));
    assert(hex@ =~= spec_name_hash(name@));
    Ok(hex)
}

/// Every index key is three lowercase hexadecimal digits.
pub proof fn lemma_name_hash_shape(name: Seq<char>)
    ensures
        spec_name_hash(name).len() == 3,
        forall|i: int|
            0 <= i < 3 ==> {
                let c = #[trigger] spec_name_hash(name)[i];
                ('0' <= c <= '9') || ('a' <= c <= 'f')
            },
{
    let d = md5_digest(encode_utf8(name));
    let h = spec_name_hash(name);
    assert(0 <= d[0] / 16 < 16);
    assert(0 <= d[0] % 16 < 16);
    assert(0 <= d[1] / 16 < 16);
}

/// The lowercase hexadecimal digit of a nibble is the standard one:
/// character `n` of "0123456789abcdef".
pub proof fn lemma_hex_char_table(n: int)
    requires
        0 <= n < 16,
    ensures
        hex_char(n) == "0123456789abcdef"@[n],
{
    reveal_strlit("0123456789abcdef");
}

/// The index key of a name is the first three characters of the lowercase
/// hexadecimal spelling of its MD5 digest: the high then low nibble of the
/// first byte, then the high nibble of the second.
pub proof fn lemma_name_hash_hex(name: Seq<char>)
    ensures
        ({
            let d = md5_digest(encode_utf8(name));
            let digits = "0123456789abcdef"@;
            spec_name_hash(name) == seq![
                digits[(d[0] / 16) as int],
                digits[(d[0] % 16) as int],
                digits[(d[1] / 16) as int],
            ]
        }),
{
    let d = md5_digest(encode_utf8(name));
    lemma_hex_char_table((d[0] / 16) as int);
    lemma_hex_char_table((d[0] % 16) as int);
    lemma_hex_char_table((d[1] / 16) as int);
}

/// The characters of `s` with `sep` between each two of them.
pub open spec fn join_chars(s: Seq<char>, sep: Seq<char>) -> Seq<char>
    decreases s.len(),
{
    if s.len() == 0 {
        Seq::<char>::empty()
    } else if s.len() == 1 {
        seq![s[0]]
    } else {
        join_chars(s.drop_last(), sep) + sep + seq![s.last()]
    }
}

/// Joining with a one-character separator keeps the characters in their
/// own order: character `i` lands at position `2 * i`, with the separator
/// between each two.
pub proof fn lemma_join_chars_single(s: Seq<char>, c: char)
    requires
        s.len() > 0,
    ensures
        join_chars(s, seq![c]).len() == 2 * s.len() - 1,
        forall|k: int|
            0 <= k < 2 * s.len() - 1 ==> #[trigger] join_chars(s, seq![c])[k] == if k % 2 == 0 {
                s[k / 2]
            } else {
                c
            },
    decreases s.len(),
{
    if s.len() > 1 {
        let s0 = s.drop_last();
        lemma_join_chars_single(s0, c);
        let j0 = join_chars(s0, seq![c]);
        let j = join_chars(s, seq![c]);
        assert(j == j0 + seq![c] + seq![s.last()]);
        assert forall|k: int| 0 <= k < 2 * s.len() - 1 implies #[trigger] j[k] == if k % 2 == 0 {
            s[k / 2]
        } else {
            c
        } by {
            if k < 2 * s0.len() - 1 {
                assert(j[k] == j0[k]);
                if k % 2 == 0 {
                    assert(s[k / 2] == s0[k / 2]);
                }
            }
        }
    }
}

/// Joining a three-character key with a one-character separator spells the
/// key's characters in order with the separator between them.
pub proof fn lemma_join_chars_key(h: Seq<char>, c: char)
    requires
        h.len() == 3,
    ensures
        join_chars(h, seq![c]) == seq![h[0], c, h[1], c, h[2]],
{
    lemma_join_chars_single(h, c);
    let j = join_chars(h, seq![c]);
    assert(j[0] == h[0] && j[1] == c && j[2] == h[1] && j[3] == c && j[4] == h[2]);
    assert(j =~= seq![h[0], c, h[1], c, h[2]]);
}

/// The characters of `string` with `sep` between each two of them
/// (`str_join("123", "_") == "1_2_3"`).
pub fn str_join(string: &str, sep: &str) -> (res: String)
    ensures
        res@ == join_chars(string@, sep@),
{
    let chars = str_chars(string);
    let mut res = String::new();
    let mut i: usize = 0;
    assert(chars@.take(0) =~= Seq::<char>::empty());
    while i < chars.len()
        invariant
            i <= chars.len(),
            chars@ == string@,
            res@ == join_chars(chars@.take(i as int), sep@),
        decreases chars.len() - i,
    {
        let ghost pre = chars@.take(i as int);
        let ghost next = chars@.take(i + 1);
        assert(next.drop_last() =~= pre);
        if i > 0 {
            res.append(sep);
        }
        res.push(chars[i]);
        if i == 0 {
            assert(res@ =~= join_chars(next, sep@));
        } else {
            assert(res@ =~= join_chars(next, sep@));
        }
        i = i + 1;
    }
    assert(chars@.take(chars.len() as int) =~= chars@);
    res
}

// ---------------------------------------------------------------------------
// The pods of a Podfile.lock
// ---------------------------------------------------------------------------

/// The line that opens the pods section.
pub open spec fn pods_header() -> Seq<char> {
    seq!['P', 'O', 'D', 'S', ':']
}

/// How a line of a root pod begins.
pub open spec fn pod_line_prefix() -> Seq<char> {
    seq![' ', ' ', '-', ' ']
}

/// What is trimmed from both ends of a pod line.
pub open spec fn pod_line_trim() -> Seq<char> {
    seq![' ', '-', '"', ':']
}

/// What is trimmed from both ends of a version.
pub open spec fn ver_trim() -> Seq<char> {
    seq!['(', ')']
}

/// `NAME/SUB` cut into the pod name and its sub spec; a text without `'/'`
/// is a pod name with no sub spec.
pub open spec fn split_name(s: Seq<char>) -> (Seq<char>, Option<Seq<char>>) {
    match find_from(s, '/', 0) {
        Some(i) => (s.take(i), Some(s.skip(i + 1))),
        None => (s, None),
    }
}

/// A pod name with a sub spec is cut at its first `'/'`: the name is the
/// text before it, which holds no `'/'`, and the sub spec is all the text
/// after it; a text with no `'/'` is a name alone.
pub proof fn lemma_split_name(s: Seq<char>)
    ensures
        match split_name(s) {
            (a, Some(b)) => s == a + seq!['/'] + b && !a.contains('/'),
            (a, None) => a == s && !s.contains('/'),
        },
{
    crate::text::lemma_find_from(s, '/', 0);
    match find_from(s, '/', 0) {
        Some(i) => {
            assert(s =~= s.take(i) + seq!['/'] + s.skip(i + 1));
            assert(!s.take(i).contains('/')) by {
                if s.take(i).contains('/') {
                    let k = choose|k: int| 0 <= k < s.take(i).len() && s.take(i)[k] == '/';
                    assert(s[k] == '/');
                }
            }
        },
        None => {
            assert(!s.contains('/')) by {
                if s.contains('/') {
                    let k = choose|k: int| 0 <= k < s.len() && s[k] == '/';
                    assert(s[k] == '/');
                }
            }
        },
    }
}

/// The first index at or after `i` of a group whose pod is named `name`.
pub open spec fn find_group_from(groups: Seq<PodSpecGroupModel>, name: Seq<char>, i: int) -> Option<
    int,
>
    decreases groups.len() - i,
{
    if i < 0 || i >= groups.len() {
        None
    } else if groups[i].file.name == name {
        Some(i)
    } else {
        find_group_from(groups, name, i + 1)
    }
}

pub proof fn lemma_find_group_from(groups: Seq<PodSpecGroupModel>, name: Seq<char>, i: int)
    requires
        0 <= i,
    ensures
        match find_group_from(groups, name, i) {
            Some(k) => i <= k < groups.len() && groups[k].file.name == name,
            None => forall|j: int| i <= j < groups.len() ==> groups[j].file.name != name,
        },
    decreases groups.len() - i,
{
    if i < groups.len() && groups[i].file.name != name {
        lemma_find_group_from(groups, name, i + 1);
    }
}

/// Looking up a name depends only on the names of the groups.
pub proof fn lemma_find_group_names(
    a: Seq<PodSpecGroupModel>,
    b: Seq<PodSpecGroupModel>,
    name: Seq<char>,
    i: int,
)
    requires
        a.len() == b.len(),
        forall|k: int| 0 <= k < a.len() ==> (#[trigger] a[k]).file.name == b[k].file.name,
    ensures
        find_group_from(a, name, i) == find_group_from(b, name, i),
    decreases a.len() - i,
{
    if 0 <= i < a.len() && a[i].file.name != name {
        lemma_find_group_names(a, b, name, i + 1);
    }
}

/// The index of the group whose pod is named `name`, if any.
pub open spec fn find_group(groups: Seq<PodSpecGroupModel>, name: Seq<char>) -> Option<int> {
    find_group_from(groups, name, 0)
}

/// The group of a pod first met in a `Podfile.lock`: pinned at the version
/// that `ver` spells, with no sub spec, the index key of its name, and no
/// versions known.
pub open spec fn new_group_model(name: Seq<char>, ver: Seq<char>) -> PodSpecGroupModel {
    PodSpecGroupModel {
        file: FilePodSpecModel { name: name, ver: pod_ver_of(ver), sub_spec: None },
        spec: PodSpecModel { name: name, hex: spec_name_hash(name), vers: None },
    }
}

/// `g` with the sub spec `sub` appended to its sub specs.
pub open spec fn add_sub_spec(g: PodSpecGroupModel, sub: Seq<char>) -> PodSpecGroupModel {
    PodSpecGroupModel {
        file: FilePodSpecModel {
            name: g.file.name,
            ver: g.file.ver,
            sub_spec: Some(
                match g.file.sub_spec {
                    Some(ss) => ss.push(sub),
                    None => seq![sub],
                },
            ),
        },
        spec: g.spec,
    }
}

/// What one line of the pods section does to the groups read so far.
/// A line `  - NAME (VER)`, `  - NAME (VER):` or `  - "NAME (VER)"` adds
/// the pod `NAME`, unless it is already there; `NAME/SUB` names the sub spec
/// `SUB` of the pod `NAME`, which is added to a pod already there. Any other
/// line changes nothing.
pub open spec fn apply_pod_line(groups: Seq<PodSpecGroupModel>, line: Seq<char>) -> Seq<
    PodSpecGroupModel,
> {
    if !has_prefix(line, pod_line_prefix()) {
        groups
    } else {
        let ls = split_on(trim_set(line, pod_line_trim()), ' ');
        if ls.len() != 2 {
            groups
        } else {
            let (name, sub) = split_name(ls[0]);
            match find_group(groups, name) {
                Some(i) => match sub {
                    Some(s) => groups.update(i, add_sub_spec(groups[i], s)),
                    None => groups,
                },
                None => groups.push(new_group_model(name, trim_set(ls[1], ver_trim()))),
            }
        }
    }
}

/// The groups that `lines` add to `groups`, up to the first empty line.
pub open spec fn collect_pods(groups: Seq<PodSpecGroupModel>, lines: Seq<Seq<char>>) -> Seq<
    PodSpecGroupModel,
>
    decreases lines.len(),
{
    if lines.len() == 0 || lines[0].len() == 0 {
        groups
    } else {
        collect_pods(apply_pod_line(groups, lines[0]), lines.drop_first())
    }
}

/// The index of the first line at or after `i` that opens the pods section
/// (the number of lines when none does).
pub open spec fn pods_start(lines: Seq<Seq<char>>, i: int) -> int
    decreases lines.len() - i,
{
    if i < 0 || i >= lines.len() {
        lines.len() as int
    } else if lines[i] == pods_header() {
        i
    } else {
        pods_start(lines, i + 1)
    }
}

/// The pod spec groups that a `Podfile.lock` with the text `text` pins: the
/// lines from the `PODS:` line up to the next empty line, applied in order.
pub open spec fn podfile_lock_pods(text: Seq<char>) -> Seq<PodSpecGroupModel> {
    let lines = lines_of(text);
    collect_pods(Seq::empty(), lines.skip(pods_start(lines, 0)))
}

/// Groups as a `Podfile.lock` gives them: one per pod name, each with the
/// index key of its name and no versions yet.
pub open spec fn fresh_groups(gs: Seq<PodSpecGroupModel>) -> bool {
    &&& forall|i: int, j: int|
        0 <= i < j < gs.len() ==> (#[trigger] gs[i]).file.name != (#[trigger] gs[j]).file.name
    &&& forall|i: int|
        0 <= i < gs.len() ==> {
            &&& (#[trigger] gs[i]).spec.name == gs[i].file.name
            &&& gs[i].spec.hex == spec_name_hash(gs[i].file.name)
            &&& gs[i].spec.vers is None
        }
}

proof fn lemma_apply_pod_line_fresh(gs: Seq<PodSpecGroupModel>, line: Seq<char>)
    requires
        fresh_groups(gs),
    ensures
        fresh_groups(apply_pod_line(gs, line)),
{
    if has_prefix(line, pod_line_prefix()) {
        let ls = split_on(trim_set(line, pod_line_trim()), ' ');
        if ls.len() == 2 {
            let (name, sub) = split_name(ls[0]);
            lemma_find_group_from(gs, name, 0);
            match find_group(gs, name) {
                Some(i) => {
                    match sub {
                        Some(s) => {
                            let r = gs.update(i, add_sub_spec(gs[i], s));
                            assert forall|a: int, b: int|
                                0 <= a < b < r.len() implies (#[trigger] r[a]).file.name != (
                                #[trigger] r[b]).file.name by {
                                assert(r[a].file.name == gs[a].file.name);
                                assert(r[b].file.name == gs[b].file.name);
                            }
                            assert forall|a: int| 0 <= a < r.len() implies {
                                &&& (#[trigger] r[a]).spec.name == r[a].file.name
                                &&& r[a].spec.hex == spec_name_hash(r[a].file.name)
                                &&& r[a].spec.vers is None
                            } by {
                                assert(r[a].file.name == gs[a].file.name);
                                assert(r[a].spec == gs[a].spec);
                            }
                        },
                        None => {},
                    }
                },
                None => {
                    let r = gs.push(new_group_model(name, trim_set(ls[1], ver_trim())));
                    assert forall|a: int, b: int|
                        0 <= a < b < r.len() implies (#[trigger] r[a]).file.name != (
                        #[trigger] r[b]).file.name by {
                        if b == gs.len() {
                            assert(r[a] == gs[a]);
                        } else {
                            assert(r[a] == gs[a] && r[b] == gs[b]);
                        }
                    }
                    assert forall|a: int| 0 <= a < r.len() implies {
                        &&& (#[trigger] r[a]).spec.name == r[a].file.name
                        &&& r[a].spec.hex == spec_name_hash(r[a].file.name)
                        &&& r[a].spec.vers is None
                    } by {
                        if a < gs.len() {
                            assert(r[a] == gs[a]);
                        }
                    }
                },
            }
        }
    }
}

proof fn lemma_collect_pods_fresh(gs: Seq<PodSpecGroupModel>, lines: Seq<Seq<char>>)
    requires
        fresh_groups(gs),
    ensures
        fresh_groups(collect_pods(gs, lines)),
    decreases lines.len(),
{
    if lines.len() > 0 && lines[0].len() > 0 {
        lemma_apply_pod_line_fresh(gs, lines[0]);
        lemma_collect_pods_fresh(apply_pod_line(gs, lines[0]), lines.drop_first());
    }
}

/// No group name holds a `'/'`.
pub open spec fn names_without_slash(gs: Seq<PodSpecGroupModel>) -> bool {
    forall|i: int| 0 <= i < gs.len() ==> !(#[trigger] gs[i]).file.name.contains('/')
}

proof fn lemma_apply_pod_line_no_slash(gs: Seq<PodSpecGroupModel>, line: Seq<char>)
    requires
        names_without_slash(gs),
    ensures
        names_without_slash(apply_pod_line(gs, line)),
{
    if has_prefix(line, pod_line_prefix()) {
        let ls = split_on(trim_set(line, pod_line_trim()), ' ');
        if ls.len() == 2 {
            let (name, sub) = split_name(ls[0]);
            lemma_split_name(ls[0]);
            lemma_find_group_from(gs, name, 0);
            let r = apply_pod_line(gs, line);
            assert forall|a: int| 0 <= a < r.len() implies !(#[trigger] r[a]).file.name.contains(
                '/',
            ) by {
                if a < gs.len() {
                    assert(r[a].file.name == gs[a].file.name);
                } else {
                    assert(r[a].file.name == name);
                }
            }
        }
    }
}

proof fn lemma_collect_pods_no_slash(gs: Seq<PodSpecGroupModel>, lines: Seq<Seq<char>>)
    requires
        names_without_slash(gs),
    ensures
        names_without_slash(collect_pods(gs, lines)),
    decreases lines.len(),
{
    if lines.len() > 0 && lines[0].len() > 0 {
        lemma_apply_pod_line_no_slash(gs, lines[0]);
        lemma_collect_pods_no_slash(apply_pod_line(gs, lines[0]), lines.drop_first());
    }
}

/// Every pod that a `Podfile.lock` yields has a name without `'/'`: a
/// `NAME/SUB` line names the pod `NAME`, the text before its first `'/'`.
pub proof fn lemma_podfile_lock_names_without_slash(text: Seq<char>)
    ensures
        forall|i: int|
            0 <= i < podfile_lock_pods(text).len() ==> !(#[trigger] podfile_lock_pods(
                text,
            )[i]).file.name.contains('/'),
{
    let lines = lines_of(text);
    lemma_collect_pods_no_slash(Seq::empty(), lines.skip(pods_start(lines, 0)));
}

/// A line `  - NAME/SUB (VER)` about a pod already read adds exactly `SUB`,
/// all the text after the first `'/'`, to its sub specs, and a line naming
/// a new pod adds a pod whose name is the text before the first `'/'`.
pub proof fn lemma_apply_pod_line_sub_spec(gs: Seq<PodSpecGroupModel>, line: Seq<char>)
    requires
        has_prefix(line, pod_line_prefix()),
        split_on(trim_set(line, pod_line_trim()), ' ').len() == 2,
    ensures
        ({
            let first = split_on(trim_set(line, pod_line_trim()), ' ')[0];
            let r = apply_pod_line(gs, line);
            match find_from(first, '/', 0) {
                Some(k) => match find_group(gs, first.take(k)) {
                    Some(i) => r == gs.update(
                        i,
                        add_sub_spec(gs[i], first.subrange(k + 1, first.len() as int)),
                    ),
                    None => r.len() == gs.len() + 1 && r.last().file.name == first.take(k),
                },
                None => match find_group(gs, first) {
                    Some(i) => r == gs,
                    None => r.len() == gs.len() + 1 && r.last().file.name == first,
                },
            }
        }),
{
    let first = split_on(trim_set(line, pod_line_trim()), ' ')[0];
    match find_from(first, '/', 0) {
        Some(k) => {
            assert(first.skip(k + 1) =~= first.subrange(k + 1, first.len() as int));
        },
        None => {},
    }
}

/// Every pod of a `Podfile.lock` is read once, under the index key of its
/// name and with no versions yet, and looking its name up finds its group.
pub proof fn lemma_podfile_lock_pods_fresh(text: Seq<char>)
    ensures
        fresh_groups(podfile_lock_pods(text)),
        forall|i: int|
            0 <= i < podfile_lock_pods(text).len() ==> find_group(
                podfile_lock_pods(text),
                (#[trigger] podfile_lock_pods(text)[i]).file.name,
            ) == Some(i),
{
    let lines = lines_of(text);
    lemma_collect_pods_fresh(Seq::empty(), lines.skip(pods_start(lines, 0)));
    let gs = podfile_lock_pods(text);
    assert forall|i: int| 0 <= i < gs.len() implies find_group(gs, (#[trigger] gs[i]).file.name)
        == Some(i) by {
        lemma_find_group_from(gs, gs[i].file.name, 0);
        match find_group(gs, gs[i].file.name) {
            Some(k) => {
                if k < i {
                    assert(gs[k].file.name != gs[i].file.name);
                } else if k > i {
                    assert(gs[i].file.name != gs[k].file.name);
                }
            },
            None => {},
        }
    }
}

/// The pod spec groups of a `Podfile.lock`, one per pod name, in the order
/// in which their pods first appear.
#[derive(Debug)]
pub struct PodSpecMap {
    groups: Vec<PodSpecGroup>,
}

/// The views of a sequence of groups.
pub open spec fn groups_view(groups: Seq<PodSpecGroup>) -> Seq<PodSpecGroupModel> {
    groups.map_values(|g: PodSpecGroup| g@)
}

impl View for PodSpecMap {
    type V = Seq<PodSpecGroupModel>;

    closed spec fn view(&self) -> Seq<PodSpecGroupModel> {
        groups_view(self.groups@)
    }
}

impl PodSpecMap {
    /// A map with no groups.
    pub fn new() -> (res: PodSpecMap)
        ensures
            res@ == Seq::<PodSpecGroupModel>::empty(),
    {
        let res = PodSpecMap { groups: Vec::new() };
        assert(res@ =~= Seq::<PodSpecGroupModel>::empty());
        res
    }

    /// The number of groups.
    pub fn len(&self) -> (res: usize)
        ensures
            res == self@.len(),
    {
        self.groups.len()
    }

    /// Whether there is no group.
    pub fn is_empty(&self) -> (res: bool)
        ensures
            res == (self@.len() == 0),
    {
        self.groups.len() == 0
    }

    /// The groups, in order.
    pub fn groups(&self) -> (res: &Vec<PodSpecGroup>)
        ensures
            groups_view(res@) == self@,
    {
        &self.groups
    }

    /// The index of the group of the pod named `name`, if any.
    pub fn position(&self, name: &String) -> (res: Option<usize>)
        ensures
            match res {
                Some(i) => find_group(self@, name@) == Some(i as int),
                None => find_group(self@, name@) is None,
            },
    {
        let mut i: usize = 0;
        while i < self.groups.len()
            invariant
                i <= self.groups.len(),
                find_group(self@, name@) == find_group_from(self@, name@, i as int),
            decreases self.groups.len() - i,
        {
            if self.groups[i].0.name == *name {
                return Some(i);
            }
            i = i + 1;
        }
        None
    }

    /// The group of the pod named `name`, if any.
    pub fn get(&self, name: &str) -> (res: Option<&PodSpecGroup>)
        ensures
            match find_group(self@, name@) {
                Some(i) => res matches Some(g) && g@ == self@[i],
                None => res is None,
            },
    {
        let key = string_from_chars(&str_chars(name));
        proof {
            lemma_find_group_from(self@, name@, 0);
        }
        match self.position(&key) {
            Some(i) => Some(&self.groups[i]),
            None => None,
        }
    }

    /// Gives the pod of group `i` the versions `vers`, newest first.
    pub fn set_vers_at(&mut self, i: usize, vers: Option<Vec<PodVer>>)
        requires
            i < old(self)@.len(),
        ensures
            final(self)@.len() == old(self)@.len(),
            forall|k: int| 0 <= k < old(self)@.len() && k != i ==> final(self)@[k] == old(self)@[k],
            final(self)@[i as int].file == old(self)@[i as int].file,
            final(self)@[i as int].spec.name == old(self)@[i as int].spec.name,
            final(self)@[i as int].spec.hex == old(self)@[i as int].spec.hex,
            match vers {
                Some(v) => final(self)@[i as int].spec.vers matches Some(s)
                    && crate::common::is_desc_sorting(s, v@),
                None => final(self)@[i as int].spec.vers is None,
            },
    {
        let ghost before = self.groups@;
        let mut g = self.groups.remove(i);
        g.1.set_vers(vers);
        self.groups.insert(i, g);
        proof {
            let after = self.groups@;
            assert forall|k: int| 0 <= k < before.len() && k != i implies after[k] == before[k] by {
                if k < i {
                    assert(after[k] == before.remove(i as int)[k]);
                } else {
                    assert(after[k] == before.remove(i as int)[k - 1]);
                }
            }
            assert(after[i as int] == g);
        }
    }

    /// Appends `sub` to the sub specs of group `i`.
    fn add_sub_spec_at(&mut self, i: usize, sub: String)
        requires
            i < old(self)@.len(),
        ensures
            final(self)@ == old(self)@.update(i as int, add_sub_spec(old(self)@[i as int], sub@)),
    {
        let ghost before = self.groups@;
        let mut g = self.groups.remove(i);
        let subs = match g.0.sub_spec.take() {
            Some(mut ss) => {
                let ghost old_ss = ss@;
                ss.push(sub);
                assert(strings_view(ss@) =~= strings_view(old_ss).push(sub@));
                ss
            },
            None => {
                let mut ss: Vec<String> = Vec::new();
                ss.push(sub);
                assert(strings_view(ss@) =~= seq![sub@]);
                ss
            },
        };
        g.0.sub_spec = Some(subs);
        self.groups.insert(i, g);
        proof {
            let after = self.groups@;
            assert forall|k: int| 0 <= k < before.len() && k != i implies after[k] == before[k] by {
                if k < i {
                    assert(after[k] == before.remove(i as int)[k]);
                } else {
                    assert(after[k] == before.remove(i as int)[k - 1]);
                }
            }
            assert(groups_view(after) =~= groups_view(before).update(
                i as int,
                add_sub_spec(groups_view(before)[i as int], sub@),
            ));
        }
    }

    /// Adds the group `g` at the end.
    fn push_group(&mut self, g: PodSpecGroup)
        ensures
            final(self)@ == old(self)@.push(g@),
    {
        self.groups.push(g);
        assert(groups_view(self.groups@) =~= groups_view(old(self).groups@).push(g@));
    }

    /// Applies one line of the pods section, as `apply_pod_line` describes.
    fn apply_line(&mut self, line: &[char]) -> (res: Result<()>)
        ensures
            res is Ok,
            final(self)@ == apply_pod_line(old(self)@, line@),
    {
        let prefix: [char; 4] = [' ', ' ', '-', ' '];
        assert(prefix@ =~= pod_line_prefix());
        if !starts_with(line, &prefix) {
            return Ok(());
        }
        let trim_set_chars: [char; 4] = [' ', '-', '"', ':'];
        assert(trim_set_chars@ =~= pod_line_trim());
        let trimmed = trim_chars(line, &trim_set_chars);
        let ls = split_chars(&trimmed, ' ');
        if ls.len() != 2 {
            return Ok(());
        }
        let full = &ls[0];
        let ghost split = split_name(full@);
        let (name_chars, sub) = match find_char(full, '/') {
            Some(idx) => (sub_chars(full, 0, idx), Some(sub_chars(full, idx + 1, full.len()))),
            None => (sub_chars(full, 0, full.len()), None),
        };
        assert(name_chars@ =~= split.0);
        assert(match sub {
            Some(s) => split.1 == Some(s@),
            None => split.1 is None,
        }) by {
            match sub {
                Some(s) => {
                    assert(s@ =~= split.1->0);
                },
                None => {},
            }
        }
        let name = string_from_chars(&name_chars);
        proof {
            lemma_find_group_from(self@, name@, 0);
        }
        match self.position(&name) {
            Some(i) => {
                match sub {
                    Some(s) => {
                        let sub_name = string_from_chars(&s);
                        self.add_sub_spec_at(i, sub_name);
                    },
                    None => {},
                }
                Ok(())
            },
            None => {
                let ver_set_chars: [char; 2] = ['(', ')'];
                assert(ver_set_chars@ =~= ver_trim());
                let ver = trim_chars(&ls[1], &ver_set_chars);
                let fps = FilePodSpec::new(name.clone(), string_from_chars(&ver), None);
                let ps = match PodSpec::new(name) {
                    Ok(ps) => ps,
                    Err(e) => return Err(e),
                };
                let g = PodSpecGroup(fps, ps);
                assert(g@ == new_group_model(name_chars@, trim_set(ls@[1]@, ver_trim())));
                self.push_group(g);
                Ok(())
            },
        }
    }
}

/// Reads the pod spec groups of a `Podfile.lock` whose text is `text`: the
/// root pods listed from the `PODS:` line up to the next empty line.
pub fn parse_podfile_lock_podspec(text: &str) -> (res: Result<PodSpecMap>)
    ensures
        res matches Ok(m) && m@ == podfile_lock_pods(text@),
{
    let chars = str_chars(text);
    let lines = text_lines(&chars);
    let ghost ls = chars_view(lines@);
    let header: [char; 5] = ['P', 'O', 'D', 'S', ':'];
    assert(header@ =~= pods_header());
    let n = lines.len();
    let mut i: usize = 0;
    while i < n && !crate::text::chars_eq(&lines[i], &header)
        invariant
            n == lines.len(),
            ls == chars_view(lines@),
            i <= n,
            header@ == pods_header(),
            pods_start(ls, 0) == pods_start(ls, i as int),
        decreases n - i,
    {
        assert(ls[i as int] == lines@[i as int]@);
        i = i + 1;
    }
    let ghost start = i as int;
    assert(pods_start(ls, 0) == start);
    let mut map = PodSpecMap::new();
    while i < n && lines[i].len() > 0
        invariant
            n == lines.len(),
            ls == chars_view(lines@),
            start <= i <= n,
            collect_pods(Seq::empty(), ls.skip(start)) == collect_pods(map@, ls.skip(i as int)),
        decreases n - i,
    {
        let ghost rest = ls.skip(i as int);
        assert(rest[0] == lines@[i as int]@);
        assert(rest.drop_first() =~= ls.skip(i + 1));
        match map.apply_line(&lines[i]) {
            Ok(()) => {},
            Err(e) => return Err(e),
        }
        i = i + 1;
    }
    proof {
        let rest = ls.skip(i as int);
        if i < n {
            assert(rest[0] == lines@[i as int]@);
        } else {
            assert(rest.len() == 0);
        }
    }
    Ok(map)
}

} // verus!
