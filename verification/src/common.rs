//! Pod versions and the pod specs that a `Podfile.lock` and the CDN index
//! describe.
use vstd::prelude::*;

use crate::error::Result;
use crate::text::{
    chars_view, lemma_split_on_plain_suffix, lemma_split_on_sep_suffix, split_chars, split_on,
    str_chars,
};
use crate::utils::{name_hash, spec_name_hash};

verus! {

// ---------------------------------------------------------------------------
// Decimal numbers
// ---------------------------------------------------------------------------

/// An ASCII decimal digit.
pub open spec fn is_digit(c: char) -> bool {
    '0' <= c && c <= '9'
}

/// The value of a decimal digit character.
pub open spec fn digit_of(c: char) -> int {
    c as int - '0' as int
}

/// The character of a decimal digit `d` (`0 <= d < 10`).
pub open spec fn digit_char(d: int) -> char {
    (d + '0' as int) as char
}

pub open spec fn all_digits(s: Seq<char>) -> bool {
    forall|i: int| 0 <= i < s.len() ==> is_digit(#[trigger] s[i])
}

/// The number that the decimal digits `s` spell, most significant first.
pub open spec fn digits_value(s: Seq<char>) -> int
    decreases s.len(),
{
    if s.len() == 0 {
        0
    } else {
        digits_value(s.drop_last()) * 10 + digit_of(s.last())
    }
}

/// `s` without the one leading `'+'` that an unsigned number may carry.
pub open spec fn unsigned_body(s: Seq<char>) -> Seq<char> {
    if s.len() > 0 && s[0] == '+' {
        s.drop_first()
    } else {
        s
    }
}

/// `s` read as a `u32` in the way `str::parse::<u32>` reads it: an optional
/// `'+'`, then one or more ASCII digits whose value fits in a `u32`.
pub open spec fn parse_u32_spec(s: Seq<char>) -> Option<u32> {
    let d = unsigned_body(s);
    if d.len() > 0 && all_digits(d) && digits_value(d) <= u32::MAX {
        Some(digits_value(d) as u32)
    } else {
        None
    }
}

/// The decimal spelling of `n`, with no leading zeros.
pub open spec fn decimal(n: nat) -> Seq<char>
    decreases n,
{
    if n < 10 {
        seq![digit_char(n as int)]
    } else {
        decimal(n / 10).push(digit_char((n % 10) as int))
    }
}

pub proof fn lemma_digit_char(d: int)
    requires
        0 <= d < 10,
    ensures
        is_digit(digit_char(d)),
        digit_of(digit_char(d)) == d,
        digit_char(d) != '.',
        digit_char(d) != '+',
{
}

/// The decimal spelling of `n` is a non-empty run of digits that reads back
/// as `n`.
pub proof fn lemma_decimal(n: nat)
    ensures
        decimal(n).len() > 0,
        all_digits(decimal(n)),
        digits_value(decimal(n)) == n,
        !decimal(n).contains('.'),
    decreases n,
{
    if n < 10 {
        lemma_digit_char(n as int);
        assert(decimal(n).drop_last() =~= Seq::<char>::empty());
        assert(digits_value(decimal(n)) == digits_value(Seq::<char>::empty()) * 10 + digit_of(
            digit_char(n as int),
        ));
    } else {
        lemma_decimal(n / 10);
        lemma_digit_char((n % 10) as int);
        let s = decimal(n);
        assert(s.drop_last() =~= decimal(n / 10));
        assert(s.last() == digit_char((n % 10) as int));
        assert((n / 10) * 10 + n % 10 == n);
        assert(digits_value(s) == digits_value(decimal(n / 10)) * 10 + digit_of(s.last()));
        assert forall|i: int| 0 <= i < s.len() implies is_digit(#[trigger] s[i]) by {
            if i < s.len() - 1 {
                assert(s[i] == decimal(n / 10)[i]);
            }
        }
        assert forall|i: int| 0 <= i < s.len() implies s[i] != '.' by {
            if i < s.len() - 1 {
                assert(s[i] == decimal(n / 10)[i]);
            }
        }
    }
}

pub proof fn lemma_parse_decimal(n: u32)
    ensures
        parse_u32_spec(decimal(n as nat)) == Some(n),
{
    lemma_decimal(n as nat);
    let s = decimal(n as nat);
    assert(is_digit(s[0]));
    assert(unsigned_body(s) == s);
}

/// `s` read as a `u32`, as `str::parse::<u32>` reads it.
pub fn parse_u32(s: &[char]) -> (res: Option<u32>)
    ensures
        res == parse_u32_spec(s@),
{
    let start: usize = if s.len() > 0 && s[0] == '+' {
        1
    } else {
        0
    };
    let ghost body = unsigned_body(s@);
    assert(body =~= s@.subrange(start as int, s.len() as int));
    if start == s.len() {
        return None;
    }
    let mut acc: u64 = 0;
    let mut i: usize = start;
    while i < s.len()
        invariant
            start <= i <= s.len(),
            body == s@.subrange(start as int, s.len() as int),
            body == unsigned_body(s@),
            all_digits(s@.subrange(start as int, i as int)),
            acc == if digits_value(s@.subrange(start as int, i as int)) <= u32::MAX {
                digits_value(s@.subrange(start as int, i as int))
            } else {
                u32::MAX + 1
            },
            digits_value(s@.subrange(start as int, i as int)) >= 0,
        decreases s.len() - i,
    {
        let c = s[i];
        if c < '0' || c > '9' {
            assert(body[i - start] == c);
            assert(!is_digit(body[i - start]));
            assert(!all_digits(body));
            return None;
        }
        let d = (c as u32 - 48) as u64;
        let ghost pre = s@.subrange(start as int, i as int);
        let ghost next = s@.subrange(start as int, i + 1);
        assert(next.drop_last() =~= pre);
        assert(next.last() == c);
        assert forall|k: int| 0 <= k < next.len() implies is_digit(#[trigger] next[k]) by {
            if k < next.len() - 1 {
                assert(next[k] == pre[k]);
            }
        }
        acc = acc * 10 + d;
        if acc > 0xffff_ffff {
            acc = 0x1_0000_0000;
        }
        i = i + 1;
    }
    assert(s@.subrange(start as int, s.len() as int) == body);
    if acc > 0xffff_ffff {
        None
    } else {
        Some(acc as u32)
    }
}

/// Appends the decimal spelling of `n` to `s`.
pub fn push_decimal(s: &mut String, n: u32)
    ensures
        final(s)@ == old(s)@ + decimal(n as nat),
    decreases n,
{
    if n >= 10 {
        push_decimal(s, n / 10);
    }
    let d = (n % 10) as u8;
    s.push((48u8 + d) as char);
    assert(decimal(n as nat) =~= if n < 10 {
        seq![digit_char(n as int)]
    } else {
        decimal((n / 10) as nat).push(digit_char((n % 10) as int))
    });
}

// ---------------------------------------------------------------------------
// Pod versions
// ---------------------------------------------------------------------------

/// A pod version, of which only the first three numbers (`x.y.z`) count.
#[derive(Debug, Clone, Copy, PartialEq, Eq, PartialOrd, Ord, Hash)]
pub struct PodVer {
    pub nums: [u32; 3],
}

impl View for PodVer {
    type V = Seq<u32>;

    open spec fn view(&self) -> Seq<u32> {
        self.nums@
    }
}

/// Number `i` of a version whose text was cut at its dots into `parts`:
/// the part read as a `u32`, and 0 where it is missing or not a number.
pub open spec fn ver_component(parts: Seq<Seq<char>>, i: int) -> u32 {
    if i < parts.len() {
        match parse_u32_spec(parts[i]) {
            Some(v) => v,
            None => 0,
        }
    } else {
        0
    }
}

/// The numbers of the version that `text` spells.
pub open spec fn ver_nums(text: Seq<char>) -> Seq<u32> {
    let parts = split_on(text, '.');
    seq![ver_component(parts, 0), ver_component(parts, 1), ver_component(parts, 2)]
}

/// The version that `text` spells.
pub open spec fn pod_ver_of(text: Seq<char>) -> PodVer {
    let n = ver_nums(text);
    PodVer { nums: [n[0], n[1], n[2]] }
}

/// The text of a version: its three numbers joined by dots.
pub open spec fn ver_string(v: Seq<u32>) -> Seq<char> {
    decimal(v[0] as nat) + seq!['.'] + decimal(v[1] as nat) + seq!['.'] + decimal(v[2] as nat)
}

/// `a` comes before `b`: the numbers compared in order, the first that
/// differs deciding.
pub open spec fn ver_lt(a: Seq<u32>, b: Seq<u32>) -> bool {
    ||| a[0] < b[0]
    ||| a[0] == b[0] && a[1] < b[1]
    ||| a[0] == b[0] && a[1] == b[1] && a[2] < b[2]
}

/// The version read as one number, its numbers as digits of base 2^32,
/// the first most significant.
pub open spec fn ver_rank(v: PodVer) -> int {
    v.nums[0] as int * 0x1_0000_0000_0000_0000 + v.nums[1] as int * 0x1_0000_0000 + v.nums[2] as int
}

/// Version order is the order of the three numbers, each compared ascending,
/// the first that differs deciding: `a` is older than `b` exactly when `a`
/// read as one number in base 2^32 is smaller. So it is a strict total
/// order, and equal first and second numbers with a smaller third is older.
pub proof fn lemma_ver_order(a: PodVer, b: PodVer)
    ensures
        ver_lt(a@, b@) <==> ver_rank(a) < ver_rank(b),
        ver_lt(a@, b@) <==> (a.nums[0] < b.nums[0] || (a.nums[0] == b.nums[0] && (a.nums[1]
            < b.nums[1] || (a.nums[1] == b.nums[1] && a.nums[2] < b.nums[2])))),
        !ver_lt(a@, b@) && !ver_lt(b@, a@) ==> a == b,
{
    assert(a@[0] == a.nums[0] && a@[1] == a.nums[1] && a@[2] == a.nums[2]);
    assert(b@[0] == b.nums[0] && b@[1] == b.nums[1] && b@[2] == b.nums[2]);
    if !ver_lt(a@, b@) && !ver_lt(b@, a@) {
        lemma_ver_not_lt_both(a, b);
    }
}

/// In versions held newest first, no version is a larger number than one
/// before it.
pub proof fn lemma_sorted_desc_ranks(s: Seq<PodVer>)
    requires
        sorted_desc(s),
    ensures
        forall|i: int, j: int|
            0 <= i < j < s.len() ==> ver_rank(#[trigger] s[j]) <= ver_rank(#[trigger] s[i]),
{
    assert forall|i: int, j: int| 0 <= i < j < s.len() implies ver_rank(#[trigger] s[j])
        <= ver_rank(#[trigger] s[i]) by {
        lemma_ver_order(s[i], s[j]);
    }
}

/// Each version is at least as new as every version after it.
pub open spec fn sorted_desc(s: Seq<PodVer>) -> bool {
    forall|i: int, j: int| 0 <= i < j < s.len() ==> !ver_lt(#[trigger] s[i]@, #[trigger] s[j]@)
}

/// `out` holds the versions of `inp`, each as often, newest first.
pub open spec fn is_desc_sorting(out: Seq<PodVer>, inp: Seq<PodVer>) -> bool {
    out.to_multiset() == inp.to_multiset() && sorted_desc(out)
}

/// Reading back the text of a version gives the version itself.
pub proof fn lemma_ver_string_roundtrip(v: PodVer)
    ensures
        ver_nums(ver_string(v@)) == v@,
        pod_ver_of(ver_string(v@)) == v,
{
    let a = decimal(v@[0] as nat);
    let b = decimal(v@[1] as nat);
    let c = decimal(v@[2] as nat);
    lemma_decimal(v@[0] as nat);
    lemma_decimal(v@[1] as nat);
    lemma_decimal(v@[2] as nat);
    let e = Seq::<char>::empty();
    lemma_split_on_plain_suffix(e, a, '.');
    assert(e + a =~= a);
    assert(split_on(e, '.') =~= seq![e]);
    assert(split_on(a, '.') =~= seq![a]);
    lemma_split_on_sep_suffix(a, '.');
    lemma_split_on_plain_suffix(a.push('.'), b, '.');
    let s2 = a.push('.') + b;
    assert(split_on(s2, '.') =~= seq![a, b]);
    lemma_split_on_sep_suffix(s2, '.');
    lemma_split_on_plain_suffix(s2.push('.'), c, '.');
    let s = s2.push('.') + c;
    assert(split_on(s, '.') =~= seq![a, b, c]);
    assert(ver_string(v@) =~= s);
    lemma_parse_decimal(v@[0]);
    lemma_parse_decimal(v@[1]);
    lemma_parse_decimal(v@[2]);
    assert(ver_nums(ver_string(v@)) =~= v@);
    lemma_ver_eq(pod_ver_of(ver_string(v@)), v);
}

/// Versions with the same numbers are the same version.
pub proof fn lemma_ver_eq(a: PodVer, b: PodVer)
    requires
        a@ == b@,
    ensures
        a == b,
{
    assert(a.nums@[0] == b.nums@[0]);
    assert(a.nums@[1] == b.nums@[1]);
    assert(a.nums@[2] == b.nums@[2]);
    assert(a.nums =~= b.nums);
}

impl PodVer {
    /// The version that `text` spells: the text is cut at its dots and each of
    /// the first three pieces is read as a number, 0 where it is missing or
    /// not a number.
    pub fn new(text: &str) -> (res: PodVer)
        ensures
            res@ == ver_nums(text@),
            res == pod_ver_of(text@),
    {
        let chars = str_chars(text);
        Self::from_chars(&chars)
    }

    /// The version that the characters `text` spell, as `new` reads them.
    pub fn from_chars(text: &[char]) -> (res: PodVer)
        ensures
            res@ == ver_nums(text@),
            res == pod_ver_of(text@),
    {
        let parts = split_chars(text, '.');
        let a = Self::component(&parts, 0);
        let b = Self::component(&parts, 1);
        let c = Self::component(&parts, 2);
        let res = PodVer { nums: [a, b, c] };
        assert(res@ =~= ver_nums(text@));
        proof {
            lemma_ver_eq(res, pod_ver_of(text@));
        }
        res
    }

    fn component(parts: &Vec<Vec<char>>, i: usize) -> (res: u32)
        ensures
            res == ver_component(chars_view(parts@), i as int),
    {
        if i < parts.len() {
            match parse_u32(&parts[i]) {
                Some(v) => v,
                None => 0,
            }
        } else {
            0
        }
    }

    /// The text of this version, its three numbers joined by dots
    /// (`"1.2.3"`).
    pub fn to_string(&self) -> (res: String)
        ensures
            res@ == ver_string(self@),
    {
        let mut s = String::new();
        push_decimal(&mut s, self.nums[0]);
        s.push('.');
        push_decimal(&mut s, self.nums[1]);
        s.push('.');
        push_decimal(&mut s, self.nums[2]);
        assert(s@ =~= ver_string(self@));
        s
    }

    /// Whether this version is older than `other`.
    pub fn less_than(&self, other: &PodVer) -> (res: bool)
        ensures
            res == ver_lt(self@, other@),
    {
        if self.nums[0] != other.nums[0] {
            self.nums[0] < other.nums[0]
        } else if self.nums[1] != other.nums[1] {
            self.nums[1] < other.nums[1]
        } else {
            self.nums[2] < other.nums[2]
        }
    }
}

// ---------------------------------------------------------------------------
// Ordering versions
// ---------------------------------------------------------------------------

/// The index of the first version in `s` that is older than `x`
/// (the length of `s` when there is none).
fn insert_position(s: &Vec<PodVer>, x: &PodVer) -> (res: usize)
    ensures
        res <= s.len(),
        forall|k: int| 0 <= k < res ==> !ver_lt(#[trigger] s@[k]@, x@),
        res < s.len() ==> ver_lt(s@[res as int]@, x@),
{
    let mut i: usize = 0;
    while i < s.len()
        invariant
            i <= s.len(),
            forall|k: int| 0 <= k < i ==> !ver_lt(#[trigger] s@[k]@, x@),
        decreases s.len() - i,
    {
        if s[i].less_than(x) {
            return i;
        }
        i = i + 1;
    }
    i
}

/// The versions of `vers`, newest first.
pub fn sort_desc(vers: Vec<PodVer>) -> (res: Vec<PodVer>)
    ensures
        is_desc_sorting(res@, vers@),
{
    let mut out: Vec<PodVer> = Vec::new();
    let mut i: usize = 0;
    assert(vers@.take(0) =~= Seq::<PodVer>::empty());
    while i < vers.len()
        invariant
            i <= vers.len(),
            out@.to_multiset() == vers@.take(i as int).to_multiset(),
            sorted_desc(out@),
        decreases vers.len() - i,
    {
        let x = vers[i];
        let pos = insert_position(&out, &x);
        let ghost before = out@;
        out.insert(pos, x);
        proof {
            assert(vers@.take(i + 1) =~= vers@.take(i as int).push(x));
            let t = out@;
            assert(t == before.insert(pos as int, x));
            vstd::seq_lib::to_multiset_insert(before, pos as int, x);
            vstd::seq_lib::to_multiset_build(vers@.take(i as int), x);
            assert(vers@.take(i as int).push(x).to_multiset() == vers@.take(
                i as int,
            ).to_multiset().insert(x));
            assert forall|a: int, b: int| 0 <= a < b < t.len() implies !ver_lt(
                #[trigger] t[a]@,
                #[trigger] t[b]@,
            ) by {
                if b < pos {
                    assert(t[a] == before[a] && t[b] == before[b]);
                } else if b == pos {
                    assert(t[a] == before[a]);
                    assert(!ver_lt(before[a]@, x@));
                } else if a == pos {
                    assert(t[b] == before[b - 1]);
                    assert(ver_lt(before[pos as int]@, x@));
                    if b - 1 > pos {
                        assert(!ver_lt(before[pos as int]@, before[b - 1]@));
                    }
                } else if a < pos {
                    assert(t[a] == before[a] && t[b] == before[b - 1]);
                } else {
                    assert(t[a] == before[a - 1] && t[b] == before[b - 1]);
                }
            }
        }
        i = i + 1;
    }
    assert(vers@.take(vers.len() as int) =~= vers@);
    out
}

/// Of two versions, neither older than the other, both are the same.
proof fn lemma_ver_not_lt_both(a: PodVer, b: PodVer)
    requires
        !ver_lt(a@, b@),
        !ver_lt(b@, a@),
    ensures
        a == b,
{
    assert(a@ =~= b@);
    lemma_ver_eq(a, b);
}

/// The versions newest first are determined by the versions alone: any two
/// lists that hold the same versions, each newest first, are equal.
pub proof fn lemma_desc_sorting_unique(a: Seq<PodVer>, b: Seq<PodVer>, inp: Seq<PodVer>)
    requires
        is_desc_sorting(a, inp),
        is_desc_sorting(b, inp),
    ensures
        a == b,
    decreases a.len(),
{
    broadcast use vstd::seq_lib::group_to_multiset_ensures;

    assert(a.len() == a.to_multiset().len());
    assert(b.len() == b.to_multiset().len());
    if a.len() == 0 {
        assert(a =~= b);
    } else {
        let m = a.to_multiset();
        assert(b.to_multiset() == m);
        assert(a.contains(a[0]));
        assert(m.count(a[0]) > 0);
        assert(b.contains(a[0]));
        let k = choose|k: int| 0 <= k < b.len() && b[k] == a[0];
        assert(b.contains(b[0]));
        assert(b.to_multiset().count(b[0]) > 0);
        assert(m.count(b[0]) > 0);
        assert(a.contains(b[0]));
        let l = choose|l: int| 0 <= l < a.len() && a[l] == b[0];
        if k > 0 {
            assert(!ver_lt(b[0]@, b[k]@));
        }
        if l > 0 {
            assert(!ver_lt(a[0]@, a[l]@));
        }
        lemma_ver_not_lt_both(a[0], b[0]);
        let ra = a.drop_first();
        let rb = b.drop_first();
        assert(a.remove(0) =~= ra);
        assert(b.remove(0) =~= rb);
        assert(ra.to_multiset() == m.remove(a[0]));
        assert(rb.to_multiset() == m.remove(b[0]));
        assert(sorted_desc(ra)) by {
            assert forall|i: int, j: int| 0 <= i < j < ra.len() implies !ver_lt(
                #[trigger] ra[i]@,
                #[trigger] ra[j]@,
            ) by {
                assert(ra[i] == a[i + 1] && ra[j] == a[j + 1]);
            }
        }
        assert(sorted_desc(rb)) by {
            assert forall|i: int, j: int| 0 <= i < j < rb.len() implies !ver_lt(
                #[trigger] rb[i]@,
                #[trigger] rb[j]@,
            ) by {
                assert(rb[i] == b[i + 1] && rb[j] == b[j + 1]);
            }
        }
        lemma_desc_sorting_unique(ra, rb, ra);
        assert(a =~= b) by {
            assert forall|i: int| 0 <= i < a.len() implies a[i] == b[i] by {
                if i > 0 {
                    assert(a[i] == ra[i - 1]);
                    assert(b[i] == rb[i - 1]);
                }
            }
        }
    }
}

/// The first of the versions newest first is at least as new as every
/// version among them.
pub proof fn lemma_newest_first(s: Seq<PodVer>, inp: Seq<PodVer>)
    requires
        is_desc_sorting(s, inp),
        s.len() > 0,
    ensures
        forall|i: int| 0 <= i < inp.len() ==> !ver_lt(s[0]@, (#[trigger] inp[i])@),
{
    broadcast use vstd::seq_lib::group_to_multiset_ensures;

    assert forall|i: int| 0 <= i < inp.len() implies !ver_lt(s[0]@, (#[trigger] inp[i])@) by {
        assert(inp.contains(inp[i]));
        assert(inp.to_multiset().count(inp[i]) > 0);
        assert(s.to_multiset().count(inp[i]) > 0);
        assert(s.contains(inp[i]));
        let k = choose|k: int| 0 <= k < s.len() && s[k] == inp[i];
        if k > 0 {
            assert(!ver_lt(s[0]@, s[k]@));
        }
    }
}

// ---------------------------------------------------------------------------
// Pod specs
// ---------------------------------------------------------------------------

/// The views of a sequence of strings.
pub open spec fn strings_view(v: Seq<String>) -> Seq<Seq<char>> {
    v.map_values(|s: String| s@)
}

/// The view of an optional list of strings.
pub open spec fn opt_strings_view(v: Option<Vec<String>>) -> Option<Seq<Seq<char>>> {
    match v {
        Some(v) => Some(strings_view(v@)),
        None => None,
    }
}

/// What a pod spec of the CDN index holds.
pub struct PodSpecModel {
    pub name: Seq<char>,
    pub hex: Seq<char>,
    pub vers: Option<Seq<PodVer>>,
}

/// What a pod spec of a `Podfile.lock` holds.
pub struct FilePodSpecModel {
    pub name: Seq<char>,
    pub ver: PodVer,
    pub sub_spec: Option<Seq<Seq<char>>>,
}

/// What a pod spec group holds.
pub struct PodSpecGroupModel {
    pub file: FilePodSpecModel,
    pub spec: PodSpecModel,
}

/// A pod spec of a `Podfile.lock` together with its entry in the CDN index.
#[derive(Debug)]
pub struct PodSpecGroup(pub FilePodSpec, pub PodSpec);

/// A pod spec of the CDN index: its name, the index key of the name, and,
/// once they are known, all its versions, newest first.
#[derive(Debug)]
pub struct PodSpec {
    pub name: String,
    pub hex: String,
    vers: Option<Vec<PodVer>>,
}

/// A pod spec as a `Podfile.lock` pins it.
#[derive(Debug)]
pub struct FilePodSpec {
    pub name: String,
    pub ver: PodVer,
    pub sub_spec: Option<Vec<String>>,
}

impl View for PodSpec {
    type V = PodSpecModel;

    closed spec fn view(&self) -> PodSpecModel {
        PodSpecModel {
            name: self.name@,
            hex: self.hex@,
            vers: match self.vers {
                Some(v) => Some(v@),
                None => None,
            },
        }
    }
}

impl View for FilePodSpec {
    type V = FilePodSpecModel;

    open spec fn view(&self) -> FilePodSpecModel {
        FilePodSpecModel {
            name: self.name@,
            ver: self.ver,
            sub_spec: opt_strings_view(self.sub_spec),
        }
    }
}

impl View for PodSpecGroup {
    type V = PodSpecGroupModel;

    open spec fn view(&self) -> PodSpecGroupModel {
        PodSpecGroupModel { file: self.0@, spec: self.1@ }
    }
}

impl PodSpec {
    /// The pod spec named `name`, with the index key of the name and no
    /// versions yet.
    pub fn new(name: String) -> (res: Result<PodSpec>)
        ensures
            res matches Ok(ps) && ps@ == (PodSpecModel {
                name: name@,
                hex: spec_name_hash(name@),
                vers: None,
            }),
    {
        let hex = match name_hash(name.as_str()) {
            Ok(h) => h,
            Err(e) => return Err(e),
        };
        Ok(PodSpec { name, hex, vers: None })
    }

    /// The name of the pod.
    pub fn name_ref(&self) -> (res: &String)
        ensures
            res@ == self@.name,
    {
        &self.name
    }

    /// The index key of the pod's name.
    pub fn hex_ref(&self) -> (res: &String)
        ensures
            res@ == self@.hex,
    {
        &self.hex
    }

    /// The versions held, newest first, if they are known.
    pub fn get_vers(&self) -> (res: &Option<Vec<PodVer>>)
        ensures
            match res {
                Some(v) => self@.vers == Some(v@),
                None => self@.vers is None,
            },
    {
        &self.vers
    }

    /// Holds `vers`, newest first; `None` forgets the versions held.
    pub fn set_vers(&mut self, vers: Option<Vec<PodVer>>)
        ensures
            final(self)@.name == old(self)@.name,
            final(self)@.hex == old(self)@.hex,
            match vers {
                Some(v) => final(self)@.vers matches Some(s) && is_desc_sorting(s, v@),
                None => final(self)@.vers is None,
            },
    {
        match vers {
            Some(vers) => {
                self.vers = Some(sort_desc(vers));
            },
            None => self.vers = None,
        }
    }
}

impl FilePodSpec {
    /// The pod spec `name` pinned at the version that `ver` spells.
    pub fn new(name: String, ver: String, sub_spec: Option<Vec<String>>) -> (res: FilePodSpec)
        ensures
            res@ == (FilePodSpecModel {
                name: name@,
                ver: pod_ver_of(ver@),
                sub_spec: opt_strings_view(sub_spec),
            }),
    {
        FilePodSpec { name, ver: PodVer::new(ver.as_str()), sub_spec }
    }
}

} // verus!
