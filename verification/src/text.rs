//! Character-level text handling: the splitting, trimming and matching that
//! the podfile and index formats are read with, stated over `Seq<char>`.
use vstd::prelude::*;

verus! {

/// `String::push` (std) appends the character `ch` to `s`; that is all that
/// is claimed of it.
pub assume_specification[ String::push ](s: &mut String, ch: char)
    ensures
        final(s)@ == old(s)@.push(ch),
;

/// The views of a sequence of character vectors.
pub open spec fn chars_view(v: Seq<Vec<char>>) -> Seq<Seq<char>> {
    v.map_values(|x: Vec<char>| x@)
}

/// `s` cut at every occurrence of `sep`, as `str::split` with a one-character
/// pattern cuts it: `n` separators give `n + 1` pieces, some possibly empty.
pub open spec fn split_on(s: Seq<char>, sep: char) -> Seq<Seq<char>>
    decreases s.len(),
{
    if s.len() == 0 {
        seq![Seq::<char>::empty()]
    } else {
        let parts = split_on(s.drop_last(), sep);
        if s.last() == sep {
            parts.push(Seq::<char>::empty())
        } else {
            parts.update(parts.len() - 1, parts.last().push(s.last()))
        }
    }
}

pub proof fn lemma_split_on_len(s: Seq<char>, sep: char)
    ensures
        split_on(s, sep).len() >= 1,
    decreases s.len(),
{
    if s.len() > 0 {
        lemma_split_on_len(s.drop_last(), sep);
    }
}

/// Appending text without a separator extends the last piece.
pub proof fn lemma_split_on_plain_suffix(p: Seq<char>, q: Seq<char>, sep: char)
    requires
        !q.contains(sep),
    ensures
        split_on(p + q, sep) == split_on(p, sep).update(
            split_on(p, sep).len() - 1,
            split_on(p, sep).last() + q,
        ),
    decreases q.len(),
{
    lemma_split_on_len(p, sep);
    let parts = split_on(p, sep);
    if q.len() == 0 {
        assert(p + q =~= p);
        assert(parts.last() + q =~= parts.last());
        assert(parts.update(parts.len() - 1, parts.last() + q) =~= parts);
    } else {
        let q0 = q.drop_last();
        assert(!q0.contains(sep)) by {
            assert forall|i: int| 0 <= i < q0.len() implies q0[i] != sep by {
                assert(q0[i] == q[i]);
            }
        }
        lemma_split_on_plain_suffix(p, q0, sep);
        assert((p + q).drop_last() =~= p + q0);
        assert((p + q).last() == q.last());
        assert(q.last() != sep) by {
            assert(q[q.len() - 1] == q.last());
        }
        lemma_split_on_len(p + q0, sep);
        assert(split_on(p + q, sep) =~= parts.update(parts.len() - 1, parts.last() + q)) by {
            assert(parts.last() + q0 + seq![q.last()] =~= parts.last() + q);
            assert((parts.last() + q0).push(q.last()) =~= parts.last() + q);
        }
    }
}

/// A separator at the end opens a new, empty piece.
pub proof fn lemma_split_on_sep_suffix(p: Seq<char>, sep: char)
    ensures
        split_on(p.push(sep), sep) == split_on(p, sep).push(Seq::<char>::empty()),
{
    assert(p.push(sep).drop_last() =~= p);
}

/// Whether `prefix` is a prefix of `s`.
pub open spec fn has_prefix(s: Seq<char>, prefix: Seq<char>) -> bool {
    prefix.len() <= s.len() && s.take(prefix.len() as int) == prefix
}

/// The first index at or after `i` whose character is not in `set`
/// (the length of `s` when there is none).
pub open spec fn skip_set_from(s: Seq<char>, set: Seq<char>, i: int) -> int
    decreases s.len() - i,
{
    if 0 <= i < s.len() && set.contains(s[i]) {
        skip_set_from(s, set, i + 1)
    } else {
        i
    }
}

/// The end of `s.subrange(lo, j)` once the characters of `set` are removed
/// from its back.
pub open spec fn skip_set_back(s: Seq<char>, set: Seq<char>, lo: int, j: int) -> int
    decreases j - lo,
{
    if lo < j && set.contains(s[j - 1]) {
        skip_set_back(s, set, lo, j - 1)
    } else {
        j
    }
}

/// `s` with every leading and trailing character that lies in `set`
/// removed, as `str::trim_matches` with a slice of characters does.
pub open spec fn trim_set(s: Seq<char>, set: Seq<char>) -> Seq<char> {
    let lo = skip_set_from(s, set, 0);
    s.subrange(lo, skip_set_back(s, set, lo, s.len() as int))
}

/// The first index at or after `i` holding `c`, if there is one.
pub open spec fn find_from(s: Seq<char>, c: char, i: int) -> Option<int>
    decreases s.len() - i,
{
    if i < 0 || i >= s.len() {
        None
    } else if s[i] == c {
        Some(i)
    } else {
        find_from(s, c, i + 1)
    }
}

/// The index `find_from` gives holds `c`, and no index before it at or
/// after `i` does; when it gives none, no index at or after `i` holds `c`.
pub proof fn lemma_find_from(s: Seq<char>, c: char, i: int)
    requires
        0 <= i,
    ensures
        match find_from(s, c, i) {
            Some(k) => i <= k < s.len() && s[k] == c && forall|j: int| i <= j < k ==> s[j] != c,
            None => forall|j: int| i <= j < s.len() ==> s[j] != c,
        },
    decreases s.len() - i,
{
    if i < s.len() && s[i] != c {
        lemma_find_from(s, c, i + 1);
    }
}

/// A line with one trailing carriage return removed, if it has one.
pub open spec fn strip_cr(line: Seq<char>) -> Seq<char> {
    if line.len() > 0 && line.last() == '\r' {
        line.drop_last()
    } else {
        line
    }
}

/// The lines of `text` as `BufRead::lines` yields them: cut at each `'\n'`,
/// a `"\r\n"` ending counts as one line end, and no empty line is yielded
/// after a final line end.
pub open spec fn lines_of(text: Seq<char>) -> Seq<Seq<char>> {
    let parts = split_on(text, '\n');
    let body = parts.drop_last().map_values(|l: Seq<char>| strip_cr(l));
    if parts.last().len() == 0 {
        body
    } else {
        body.push(parts.last())
    }
}

/// The characters of `s`, in order.
pub fn str_chars(s: &str) -> (res: Vec<char>)
    ensures
        res@ == s@,
{
    let mut res: Vec<char> = Vec::new();
    for c in it: s.chars()
        invariant
            res@ == it.seq().take(it.index() as int),
    {
        res.push(c);
    }
    res
}

/// A `String` holding the characters of `v`, in order.
pub fn string_from_chars(v: &[char]) -> (res: String)
    ensures
        res@ == v@,
{
    let mut res = String::new();
    let mut i: usize = 0;
    while i < v.len()
        invariant
            i <= v.len(),
            res@ == v@.take(i as int),
        decreases v.len() - i,
    {
        res.push(v[i]);
        i = i + 1;
        assert(res@ =~= v@.take(i as int));
    }
    assert(v@.take(v.len() as int) =~= v@);
    res
}

/// Whether two character slices hold the same characters.
pub fn chars_eq(a: &[char], b: &[char]) -> (res: bool)
    ensures
        res == (a@ == b@),
{
    if a.len() != b.len() {
        return false;
    }
    let mut i: usize = 0;
    while i < a.len()
        invariant
            a.len() == b.len(),
            i <= a.len(),
            forall|k: int| 0 <= k < i ==> a@[k] == b@[k],
        decreases a.len() - i,
    {
        if a[i] != b[i] {
            return false;
        }
        i = i + 1;
    }
    assert(a@ =~= b@);
    true
}

/// Whether `c` occurs in `set`.
pub fn char_in(c: char, set: &[char]) -> (res: bool)
    ensures
        res == set@.contains(c),
{
    let mut i: usize = 0;
    while i < set.len()
        invariant
            i <= set.len(),
            forall|k: int| 0 <= k < i ==> set@[k] != c,
        decreases set.len() - i,
    {
        if set[i] == c {
            assert(set@[i as int] == c);
            return true;
        }
        i = i + 1;
    }
    false
}

/// Whether `s` begins with `prefix`.
pub fn starts_with(s: &[char], prefix: &[char]) -> (res: bool)
    ensures
        res == has_prefix(s@, prefix@),
{
    if prefix.len() > s.len() {
        return false;
    }
    let mut i: usize = 0;
    while i < prefix.len()
        invariant
            prefix.len() <= s.len(),
            i <= prefix.len(),
            forall|k: int| 0 <= k < i ==> s@[k] == prefix@[k],
        decreases prefix.len() - i,
    {
        if s[i] != prefix[i] {
            assert(s@.take(prefix.len() as int)[i as int] != prefix@[i as int]);
            return false;
        }
        i = i + 1;
    }
    assert(s@.take(prefix.len() as int) =~= prefix@);
    true
}

/// The characters `s[from..to]`.
pub fn sub_chars(s: &[char], from: usize, to: usize) -> (res: Vec<char>)
    requires
        from <= to <= s.len(),
    ensures
        res@ == s@.subrange(from as int, to as int),
{
    let mut res: Vec<char> = Vec::new();
    let mut i: usize = from;
    while i < to
        invariant
            from <= i <= to <= s.len(),
            res@ == s@.subrange(from as int, i as int),
        decreases to - i,
    {
        res.push(s[i]);
        i = i + 1;
        assert(res@ =~= s@.subrange(from as int, i as int));
    }
    res
}

/// The index of the first `c` in `s`, if any.
pub fn find_char(s: &[char], c: char) -> (res: Option<usize>)
    ensures
        match res {
            Some(i) => find_from(s@, c, 0) == Some(i as int) && i < s.len(),
            None => find_from(s@, c, 0) is None,
        },
{
    let mut i: usize = 0;
    while i < s.len()
        invariant
            i <= s.len(),
            find_from(s@, c, 0) == find_from(s@, c, i as int),
        decreases s.len() - i,
    {
        if s[i] == c {
            return Some(i);
        }
        i = i + 1;
    }
    None
}

/// `s` with the characters of `set` trimmed from both ends.
pub fn trim_chars(s: &[char], set: &[char]) -> (res: Vec<char>)
    ensures
        res@ == trim_set(s@, set@),
{
    let mut lo: usize = 0;
    while lo < s.len() && char_in(s[lo], set)
        invariant
            lo <= s.len(),
            skip_set_from(s@, set@, 0) == skip_set_from(s@, set@, lo as int),
        decreases s.len() - lo,
    {
        lo = lo + 1;
    }
    let mut hi: usize = s.len();
    while lo < hi && char_in(s[hi - 1], set)
        invariant
            lo <= hi <= s.len(),
            skip_set_back(s@, set@, lo as int, s.len() as int) == skip_set_back(
                s@,
                set@,
                lo as int,
                hi as int,
            ),
        decreases hi - lo,
    {
        hi = hi - 1;
    }
    sub_chars(s, lo, hi)
}

/// `s` cut at every `sep`.
pub fn split_chars(s: &[char], sep: char) -> (res: Vec<Vec<char>>)
    ensures
        chars_view(res@) == split_on(s@, sep),
{
    let mut parts: Vec<Vec<char>> = Vec::new();
    let mut cur: Vec<char> = Vec::new();
    let mut i: usize = 0;
    assert(s@.take(0) =~= Seq::<char>::empty());
    assert(chars_view(parts@).push(cur@) =~= split_on(s@.take(0), sep));
    while i < s.len()
        invariant
            i <= s.len(),
            chars_view(parts@).push(cur@) == split_on(s@.take(i as int), sep),
        decreases s.len() - i,
    {
        let ghost pre = s@.take(i as int);
        let ghost next = s@.take(i + 1);
        assert(next.drop_last() =~= pre);
        assert(next.last() == s@[i as int]);
        proof {
            lemma_split_on_len(pre, sep);
        }
        if s[i] == sep {
            let ghost old_parts = parts@;
            let ghost old_cur = cur@;
            parts.push(cur);
            cur = Vec::new();
            assert(chars_view(parts@) =~= chars_view(old_parts).push(old_cur)) by {
                assert(parts@ == old_parts.push(parts@.last()));
            }
            assert(chars_view(parts@).push(cur@) =~= split_on(next, sep));
        } else {
            let ghost old_cur = cur@;
            cur.push(s[i]);
            assert(chars_view(parts@).push(cur@) =~= split_on(next, sep));
        }
        i = i + 1;
    }
    assert(s@.take(s.len() as int) =~= s@);
    let ghost before = parts@;
    parts.push(cur);
    assert(chars_view(parts@) =~= chars_view(before).push(parts@.last()@));
    parts
}

/// The lines of `text`, as `lines_of` describes them.
pub fn text_lines(text: &[char]) -> (res: Vec<Vec<char>>)
    ensures
        chars_view(res@) == lines_of(text@),
{
    let parts = split_chars(text, '\n');
    proof {
        lemma_split_on_len(text@, '\n');
    }
    let n = parts.len();
    let mut res: Vec<Vec<char>> = Vec::new();
    let mut i: usize = 0;
    let ghost pv = chars_view(parts@);
    while i + 1 < n
        invariant
            n == parts.len(),
            n >= 1,
            pv == chars_view(parts@),
            i + 1 <= n,
            chars_view(res@) == pv.take(i as int).map_values(|l: Seq<char>| strip_cr(l)),
        decreases n - i,
    {
        let line = &parts[i];
        let len = line.len();
        let stripped = if len > 0 && line[len - 1] == '\r' {
            sub_chars(line, 0, len - 1)
        } else {
            sub_chars(line, 0, len)
        };
        assert(stripped@ == strip_cr(pv[i as int])) by {
            assert(pv[i as int] == line@);
            assert(line@.subrange(0, len as int) =~= line@);
            if len > 0 {
                assert(line@.subrange(0, len - 1) =~= line@.drop_last());
            }
        }
        let ghost before = res@;
        assert(chars_view(before).len() == before.len());
        assert(pv.take(i as int).map_values(|l: Seq<char>| strip_cr(l)).len() == i);
        assert(before.len() == i);
        let ghost expected = pv.take(i + 1).map_values(|l: Seq<char>| strip_cr(l));
        res.push(stripped);
        assert forall|k: int| 0 <= k < i + 1 implies chars_view(res@)[k] == expected[k] by {
            if k < i {
                assert(res@[k] == before[k]);
                assert(chars_view(before)[k] == pv.take(i as int).map_values(
                    |l: Seq<char>| strip_cr(l),
                )[k]);
            }
        }
        assert(chars_view(res@) =~= expected);
        i = i + 1;
    }
    assert(pv.take(i as int) =~= pv.drop_last());
    let last = &parts[n - 1];
    assert(last@ == pv.last());
    if last.len() > 0 {
        let copy = sub_chars(last, 0, last.len());
        assert(copy@ =~= last@);
        let ghost before = res@;
        res.push(copy);
        assert(chars_view(res@) =~= chars_view(before).push(copy@));
    }
    res
}

} // verus!
