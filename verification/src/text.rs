//! Character-sequence utilities the parsers and renderers share, each with
//! its meaning stated as a spec function over `Seq<char>`.

use vstd::prelude::*;
use vstd::std_specs::iter::IteratorSpec;

verus! {

/// The views of a sequence of strings.
pub open spec fn strs(v: Seq<String>) -> Seq<Seq<char>> {
    v.map_values(|s: String| s@)
}

/// Appends one character to a string (`String::push`).
#[verifier::external_body]
pub(crate) fn push_char(s: &mut String, c: char)
    ensures
        final(s)@ == old(s)@.push(c),
{
    s.push(c)
}

/// The characters of `s`, in order.
pub fn chars_of(s: &str) -> (v: Vec<char>)
    ensures
        v@ == s@,
{
    let mut v: Vec<char> = Vec::new();
    let mut it = s.chars();
    loop
        invariant
            v@ + it.remaining() == s@,
        decreases s@.len() - v@.len(),
    {
        match it.next() {
            Some(c) => {
                v.push(c);
            },
            None => {
                return v;
            },
        }
    }
}

} // verus!

verus! {

/// Unicode `White_Space`, the set `char::is_whitespace` answers for.
pub open spec fn is_ws(c: char) -> bool {
    ||| ('\t' <= c && c <= '\r')
    ||| c == ' '
    ||| c == '\u{85}'
    ||| c == '\u{a0}'
    ||| c == '\u{1680}'
    ||| ('\u{2000}' <= c && c <= '\u{200a}')
    ||| c == '\u{2028}'
    ||| c == '\u{2029}'
    ||| c == '\u{202f}'
    ||| c == '\u{205f}'
    ||| c == '\u{3000}'
}

pub fn is_whitespace(c: char) -> (r: bool)
    ensures
        r == is_ws(c),
{
    ('\t' <= c && c <= '\r') || c == ' ' || c == '\u{85}' || c == '\u{a0}' || c == '\u{1680}'
        || ('\u{2000}' <= c && c <= '\u{200a}') || c == '\u{2028}' || c == '\u{2029}'
        || c == '\u{202f}' || c == '\u{205f}' || c == '\u{3000}'
}

pub open spec fn is_ascii_digit(c: char) -> bool {
    '0' <= c && c <= '9'
}

pub open spec fn is_ascii_lower(c: char) -> bool {
    'a' <= c && c <= 'z'
}

pub open spec fn is_ascii_upper(c: char) -> bool {
    'A' <= c && c <= 'Z'
}

pub open spec fn is_ascii_alnum(c: char) -> bool {
    is_ascii_digit(c) || is_ascii_lower(c) || is_ascii_upper(c)
}

pub fn ascii_digit(c: char) -> (r: bool)
    ensures
        r == is_ascii_digit(c),
{
    '0' <= c && c <= '9'
}

pub fn ascii_lower(c: char) -> (r: bool)
    ensures
        r == is_ascii_lower(c),
{
    'a' <= c && c <= 'z'
}

pub fn ascii_upper(c: char) -> (r: bool)
    ensures
        r == is_ascii_upper(c),
{
    'A' <= c && c <= 'Z'
}

pub fn ascii_alnum(c: char) -> (r: bool)
    ensures
        r == is_ascii_alnum(c),
{
    ascii_digit(c) || ascii_lower(c) || ascii_upper(c)
}

/// `c` with an ASCII uppercase letter mapped to its lowercase form.
pub open spec fn lower_char(c: char) -> char {
    if is_ascii_upper(c) {
        ((c as u32) + 32) as char
    } else {
        c
    }
}

pub fn to_ascii_lower(c: char) -> (r: char)
    ensures
        r == lower_char(c),
{
    if ascii_upper(c) {
        let b: u8 = c as u8;
        let r: char = (b + 32) as char;
        r
    } else {
        c
    }
}

/// `c` with an ASCII lowercase letter mapped to its uppercase form.
pub open spec fn upper_char(c: char) -> char {
    if is_ascii_lower(c) {
        ((c as u32) - 32) as char
    } else {
        c
    }
}

pub fn to_ascii_upper(c: char) -> (r: char)
    ensures
        r == upper_char(c),
{
    if ascii_lower(c) {
        let b: u8 = c as u8;
        let r: char = (b - 32) as char;
        r
    } else {
        c
    }
}

/// `s` with its ASCII letters uppercased.
pub open spec fn upper(s: Seq<char>) -> Seq<char> {
    s.map_values(|c: char| upper_char(c))
}

pub fn upper_of(s: &[char]) -> (r: Vec<char>)
    ensures
        r@ == upper(s@),
{
    let mut r: Vec<char> = Vec::new();
    let mut i: usize = 0;
    while i < s.len()
        invariant
            i <= s@.len(),
            r@ == upper(s@).take(i as int),
        decreases s.len() - i,
    {
        r.push(to_ascii_upper(s[i]));
        i += 1;
        assert(r@ =~= upper(s@).take(i as int));
    }
    assert(upper(s@).take(i as int) =~= upper(s@));
    r
}

/// A copy of `s[from..to]`.
pub fn subvec(s: &[char], from: usize, to: usize) -> (v: Vec<char>)
    requires
        from <= to <= s@.len(),
    ensures
        v@ == s@.subrange(from as int, to as int),
{
    let mut v: Vec<char> = Vec::new();
    let mut i = from;
    while i < to
        invariant
            from <= i <= to <= s@.len(),
            v@ == s@.subrange(from as int, i as int),
        decreases to - i,
    {
        v.push(s[i]);
        i += 1;
    }
    v
}

/// Whether two character sequences are equal.
pub fn chars_eq(a: &[char], b: &[char]) -> (r: bool)
    ensures
        r == (a@ == b@),
{
    if a.len() != b.len() {
        return false;
    }
    let mut i: usize = 0;
    while i < a.len()
        invariant
            a@.len() == b@.len(),
            i <= a@.len(),
            forall|j: int| 0 <= j < i ==> a@[j] == b@[j],
        decreases a.len() - i,
    {
        if a[i] != b[i] {
            return false;
        }
        i += 1;
    }
    assert(a@ =~= b@);
    true
}

/// Whether `pat` occurs in `s` starting at `i`.
pub open spec fn occurs_at(s: Seq<char>, pat: Seq<char>, i: int) -> bool {
    0 <= i && i + pat.len() <= s.len() && s.subrange(i, i + pat.len()) == pat
}

pub open spec fn has_prefix(s: Seq<char>, p: Seq<char>) -> bool {
    occurs_at(s, p, 0)
}

pub open spec fn has_suffix(s: Seq<char>, p: Seq<char>) -> bool {
    p.len() <= s.len() && occurs_at(s, p, s.len() - p.len())
}

/// The first occurrence of `pat` in `s` at or after `from`.
pub open spec fn find_from(s: Seq<char>, pat: Seq<char>, from: int) -> Option<int>
    decreases s.len() + 1 - from,
{
    if from < 0 || from + pat.len() > s.len() {
        None
    } else if occurs_at(s, pat, from) {
        Some(from)
    } else {
        find_from(s, pat, from + 1)
    }
}

pub open spec fn find(s: Seq<char>, pat: Seq<char>) -> Option<int> {
    find_from(s, pat, 0)
}

pub open spec fn contains(s: Seq<char>, pat: Seq<char>) -> bool {
    find(s, pat) is Some
}

/// The last occurrence of `pat` in `s` that starts before `before`.
pub open spec fn rfind_before(s: Seq<char>, pat: Seq<char>, before: int) -> Option<int>
    decreases before,
{
    if before <= 0 {
        None
    } else if occurs_at(s, pat, before - 1) {
        Some(before - 1)
    } else {
        rfind_before(s, pat, before - 1)
    }
}

pub open spec fn rfind(s: Seq<char>, pat: Seq<char>) -> Option<int> {
    rfind_before(s, pat, s.len() + 1 as int)
}

pub proof fn lemma_find_from(s: Seq<char>, pat: Seq<char>, from: int)
    requires
        from >= 0,
    ensures
        match find_from(s, pat, from) {
            Some(i) => from <= i && occurs_at(s, pat, i) && forall|k: int|
                from <= k < i ==> !occurs_at(s, pat, k),
            None => forall|k: int| from <= k ==> !occurs_at(s, pat, k),
        },
    decreases s.len() + 1 - from,
{
    if from + pat.len() > s.len() {
    } else if occurs_at(s, pat, from) {
    } else {
        lemma_find_from(s, pat, from + 1);
    }
}

pub proof fn lemma_rfind_before(s: Seq<char>, pat: Seq<char>, before: int)
    ensures
        match rfind_before(s, pat, before) {
            Some(i) => 0 <= i < before && occurs_at(s, pat, i) && forall|k: int|
                i < k < before ==> !occurs_at(s, pat, k),
            None => forall|k: int| k < before ==> !occurs_at(s, pat, k),
        },
    decreases before,
{
    if before <= 0 {
    } else if occurs_at(s, pat, before - 1) {
    } else {
        lemma_rfind_before(s, pat, before - 1);
    }
}

/// Whether `pat` occurs in `s` at `i`.
pub fn matches_at(s: &[char], pat: &[char], i: usize) -> (r: bool)
    ensures
        r == occurs_at(s@, pat@, i as int),
{
    if i > s.len() || pat.len() > s.len() - i {
        return false;
    }
    let mut j: usize = 0;
    while j < pat.len()
        invariant
            i + pat@.len() <= s@.len(),
            s@.len() <= usize::MAX,
            j <= pat@.len(),
            forall|k: int| 0 <= k < j ==> s@[i + k] == pat@[k],
        decreases pat.len() - j,
    {
        assert(i + j < s@.len());
        if s[i + j] != pat[j] {
            assert(s@.subrange(i as int, i + pat@.len())[j as int] != pat@[j as int]);
            return false;
        }
        j += 1;
    }
    assert(s@.subrange(i as int, i + pat@.len()) =~= pat@);
    true
}

pub fn starts_with(s: &[char], p: &[char]) -> (r: bool)
    ensures
        r == has_prefix(s@, p@),
{
    matches_at(s, p, 0)
}

pub fn ends_with(s: &[char], p: &[char]) -> (r: bool)
    ensures
        r == has_suffix(s@, p@),
{
    if p.len() > s.len() {
        false
    } else {
        matches_at(s, p, s.len() - p.len())
    }
}

/// The first occurrence of `pat` at or after `from`.
pub fn find_at(s: &[char], pat: &[char], from: usize) -> (r: Option<usize>)
    ensures
        r matches Some(i) ==> find_from(s@, pat@, from as int) == Some(i as int),
        r is None ==> find_from(s@, pat@, from as int) is None,
{
    let mut i = from;
    while i <= s.len() && pat.len() <= s.len() - i
        invariant
            from <= i,
            find_from(s@, pat@, from as int) == find_from(s@, pat@, i as int),
        decreases s.len() + 1 - i,
    {
        if matches_at(s, pat, i) {
            return Some(i);
        }
        if i == s.len() {
            assert(find_from(s@, pat@, i + 1) is None);
            return None;
        }
        i += 1;
    }
    None
}

pub fn find_str(s: &[char], pat: &[char]) -> (r: Option<usize>)
    ensures
        r matches Some(i) ==> find(s@, pat@) == Some(i as int),
        r is None ==> find(s@, pat@) is None,
{
    find_at(s, pat, 0)
}

pub fn contains_str(s: &[char], pat: &[char]) -> (r: bool)
    ensures
        r == contains(s@, pat@),
{
    find_at(s, pat, 0).is_some()
}

/// The last occurrence of `pat` in `s`.
pub fn rfind_str(s: &[char], pat: &[char]) -> (r: Option<usize>)
    ensures
        r matches Some(i) ==> rfind(s@, pat@) == Some(i as int),
        r is None ==> rfind(s@, pat@) is None,
{
    if matches_at(s, pat, s.len()) {
        return Some(s.len());
    }
    let mut before: usize = s.len();
    while before > 0
        invariant
            before <= s@.len() + 1,
            rfind(s@, pat@) == rfind_before(s@, pat@, before as int),
        decreases before,
    {
        if matches_at(s, pat, before - 1) {
            return Some(before - 1);
        }
        before -= 1;
    }
    None
}

pub open spec fn strip_prefix(s: Seq<char>, p: Seq<char>) -> Option<Seq<char>> {
    if has_prefix(s, p) {
        Some(s.skip(p.len() as int))
    } else {
        None
    }
}

pub open spec fn strip_suffix(s: Seq<char>, p: Seq<char>) -> Option<Seq<char>> {
    if has_suffix(s, p) {
        Some(s.take(s.len() - p.len()))
    } else {
        None
    }
}

pub fn strip_prefix_of(s: &[char], p: &[char]) -> (r: Option<Vec<char>>)
    ensures
        r matches Some(v) ==> strip_prefix(s@, p@) == Some(v@),
        r is None ==> strip_prefix(s@, p@) is None,
{
    if starts_with(s, p) {
        Some(subvec(s, p.len(), s.len()))
    } else {
        None
    }
}

pub fn strip_suffix_of(s: &[char], p: &[char]) -> (r: Option<Vec<char>>)
    ensures
        r matches Some(v) ==> strip_suffix(s@, p@) == Some(v@),
        r is None ==> strip_suffix(s@, p@) is None,
{
    if ends_with(s, p) {
        Some(subvec(s, 0, s.len() - p.len()))
    } else {
        None
    }
}

/// Splits `s` around the first occurrence of `pat`.
pub open spec fn split_once(s: Seq<char>, pat: Seq<char>) -> Option<(Seq<char>, Seq<char>)> {
    match find(s, pat) {
        Some(i) => Some((s.take(i), s.skip(i + pat.len()))),
        None => None,
    }
}

/// Splits `s` around the last occurrence of `pat`.
pub open spec fn rsplit_once(s: Seq<char>, pat: Seq<char>) -> Option<(Seq<char>, Seq<char>)> {
    match rfind(s, pat) {
        Some(i) => Some((s.take(i), s.skip(i + pat.len()))),
        None => None,
    }
}

pub fn split_once_at(s: &[char], pat: &[char]) -> (r: Option<(Vec<char>, Vec<char>)>)
    ensures
        r matches Some((a, b)) ==> split_once(s@, pat@) == Some((a@, b@)),
        r is None ==> split_once(s@, pat@) is None,
{
    let n = s.len();
    match find_str(s, pat) {
        Some(i) => {
            proof {
                lemma_find_from(s@, pat@, 0);
                assert(occurs_at(s@, pat@, i as int));
            }
            Some((subvec(s, 0, i), subvec(s, i + pat.len(), s.len())))
        },
        None => None,
    }
}

pub fn rsplit_once_at(s: &[char], pat: &[char]) -> (r: Option<(Vec<char>, Vec<char>)>)
    ensures
        r matches Some((a, b)) ==> rsplit_once(s@, pat@) == Some((a@, b@)),
        r is None ==> rsplit_once(s@, pat@) is None,
{
    let n = s.len();
    match rfind_str(s, pat) {
        Some(i) => {
            proof {
                lemma_rfind_before(s@, pat@, s@.len() + 1int);
                assert(occurs_at(s@, pat@, i as int));
            }
            Some((subvec(s, 0, i), subvec(s, i + pat.len(), s.len())))
        },
        None => None,
    }
}

} // verus!

verus! {

/// `s` without the leading characters `p` accepts.
pub open spec fn trim_start_by(s: Seq<char>, p: spec_fn(char) -> bool) -> Seq<char>
    decreases s.len(),
{
    if s.len() > 0 && p(s[0]) {
        trim_start_by(s.drop_first(), p)
    } else {
        s
    }
}

/// `s` without the trailing characters `p` accepts.
pub open spec fn trim_end_by(s: Seq<char>, p: spec_fn(char) -> bool) -> Seq<char>
    decreases s.len(),
{
    if s.len() > 0 && p(s.last()) {
        trim_end_by(s.drop_last(), p)
    } else {
        s
    }
}

pub open spec fn ws() -> spec_fn(char) -> bool {
    |c: char| is_ws(c)
}

pub open spec fn one_of(set: Seq<char>) -> spec_fn(char) -> bool {
    |c: char| set.contains(c)
}

pub open spec fn trim_start(s: Seq<char>) -> Seq<char> {
    trim_start_by(s, ws())
}

pub open spec fn trim_end(s: Seq<char>) -> Seq<char> {
    trim_end_by(s, ws())
}

/// `str::trim`: no leading or trailing whitespace.
pub open spec fn trim(s: Seq<char>) -> Seq<char> {
    trim_end(trim_start(s))
}

pub proof fn lemma_trim_start_at(s: Seq<char>, p: spec_fn(char) -> bool, i: int)
    requires
        0 <= i <= s.len(),
        forall|k: int| 0 <= k < i ==> p(s[k]),
        i == s.len() || !p(s[i]),
    ensures
        trim_start_by(s, p) == s.skip(i),
    decreases i,
{
    if i == 0 {
        assert(s.skip(0) =~= s);
    } else {
        assert(p(s[0]));
        let t = s.drop_first();
        assert forall|k: int| 0 <= k < i - 1 implies p(t[k]) by {
            assert(t[k] == s[k + 1]);
        }
        lemma_trim_start_at(t, p, i - 1);
        assert(t.skip(i - 1) =~= s.skip(i));
    }
}

pub proof fn lemma_trim_end_at(s: Seq<char>, p: spec_fn(char) -> bool, j: int)
    requires
        0 <= j <= s.len(),
        forall|k: int| j <= k < s.len() ==> p(s[k]),
        j == 0 || !p(s[j - 1]),
    ensures
        trim_end_by(s, p) == s.take(j),
    decreases s.len() - j,
{
    if j == s.len() {
        assert(s.take(j) =~= s);
    } else {
        assert(p(s.last()));
        let t = s.drop_last();
        lemma_trim_end_at(t, p, j);
        assert(t.take(j) =~= s.take(j));
    }
}

/// The index of the first character of `s[from..to]` that is not whitespace.
fn skip_ws_from(s: &[char], from: usize, to: usize) -> (i: usize)
    requires
        from <= to <= s@.len(),
    ensures
        from <= i <= to,
        forall|k: int| from <= k < i ==> is_ws(s@[k]),
        i == to || !is_ws(s@[i as int]),
{
    let mut i = from;
    while i < to && is_whitespace(s[i])
        invariant
            from <= i <= to <= s@.len(),
            forall|k: int| from <= k < i ==> is_ws(s@[k]),
        decreases to - i,
    {
        i += 1;
    }
    i
}

pub fn trim_start_ws(s: &[char]) -> (r: Vec<char>)
    ensures
        r@ == trim_start(s@),
{
    let i = skip_ws_from(s, 0, s.len());
    proof {
        lemma_trim_start_at(s@, ws(), i as int);
    }
    subvec(s, i, s.len())
}

pub fn trim_end_ws(s: &[char]) -> (r: Vec<char>)
    ensures
        r@ == trim_end(s@),
{
    let mut j = s.len();
    while j > 0 && is_whitespace(s[j - 1])
        invariant
            j <= s@.len(),
            forall|k: int| j <= k < s@.len() ==> is_ws(s@[k]),
        decreases j,
    {
        j -= 1;
    }
    proof {
        lemma_trim_end_at(s@, ws(), j as int);
    }
    subvec(s, 0, j)
}

pub fn trim_ws(s: &[char]) -> (r: Vec<char>)
    ensures
        r@ == trim(s@),
{
    let t = trim_start_ws(s);
    trim_end_ws(t.as_slice())
}

pub fn trim_start_set(s: &[char], set: &[char]) -> (r: Vec<char>)
    ensures
        r@ == trim_start_by(s@, one_of(set@)),
{
    let mut i: usize = 0;
    while i < s.len() && char_in(s[i], set)
        invariant
            i <= s@.len(),
            forall|k: int| 0 <= k < i ==> one_of(set@)(s@[k]),
        decreases s.len() - i,
    {
        i += 1;
    }
    proof {
        lemma_trim_start_at(s@, one_of(set@), i as int);
    }
    subvec(s, i, s.len())
}

pub fn trim_end_set(s: &[char], set: &[char]) -> (r: Vec<char>)
    ensures
        r@ == trim_end_by(s@, one_of(set@)),
{
    let mut j = s.len();
    while j > 0 && char_in(s[j - 1], set)
        invariant
            j <= s@.len(),
            forall|k: int| j <= k < s@.len() ==> one_of(set@)(s@[k]),
        decreases j,
    {
        j -= 1;
    }
    proof {
        lemma_trim_end_at(s@, one_of(set@), j as int);
    }
    subvec(s, 0, j)
}

/// Whether `c` is one of `set`.
pub fn char_in(c: char, set: &[char]) -> (r: bool)
    ensures
        r == set@.contains(c),
{
    let mut i: usize = 0;
    while i < set.len()
        invariant
            i <= set@.len(),
            forall|k: int| 0 <= k < i ==> set@[k] != c,
        decreases set.len() - i,
    {
        if set[i] == c {
            assert(set@[i as int] == c);
            return true;
        }
        i += 1;
    }
    false
}

/// A line with the `\r` of a `\r\n` ending removed.
pub open spec fn strip_cr(l: Seq<char>) -> Seq<char> {
    if l.len() > 0 && l.last() == '\r' {
        l.drop_last()
    } else {
        l
    }
}

/// `str::lines` of `s[start..]`.
pub open spec fn lines_from(s: Seq<char>, start: int) -> Seq<Seq<char>>
    decreases s.len() - start,
{
    if start < 0 || start >= s.len() {
        seq![]
    } else {
        match find_from(s, seq!['\n'], start) {
            None => seq![s.subrange(start, s.len() as int)],
            Some(i) => if i < start || i >= s.len() {
                seq![]
            } else {
                seq![strip_cr(s.subrange(start, i))] + lines_from(s, i + 1)
            },
        }
    }
}

/// `str::lines`: split at `\n`, a `\r\n` ending counts as one, and a final
/// line ending adds no empty line.
pub open spec fn lines(s: Seq<char>) -> Seq<Seq<char>> {
    lines_from(s, 0)
}

pub fn lines_of(s: &[char]) -> (r: Vec<Vec<char>>)
    ensures
        r@.map_values(|l: Vec<char>| l@) == lines(s@),
{
    let mut r: Vec<Vec<char>> = Vec::new();
    let mut start: usize = 0;
    let nl: [char; 1] = ['\n'];
    let ghost nls: Seq<char> = seq!['\n'];
    assert(nl@ =~= nls);
    while start < s.len()
        invariant
            start <= s@.len(),
            nl@ == nls,
            nls == seq!['\n'],
            r@.map_values(|l: Vec<char>| l@) + lines_from(s@, start as int) == lines(s@),
        decreases s.len() - start,
    {
        let ghost before = r@.map_values(|l: Vec<char>| l@);
        match find_at(s, &nl, start) {
            None => {
                let line = subvec(s, start, s.len());
                r.push(line);
                assert(r@.map_values(|l: Vec<char>| l@) =~= before.push(line@));
                assert(lines_from(s@, s@.len() as int) =~= Seq::<Seq<char>>::empty());
                start = s.len();
            },
            Some(i) => {
                proof {
                    lemma_find_from(s@, nls, start as int);
                }
                let mut line = subvec(s, start, i);
                if line.len() > 0 && line[line.len() - 1] == '\r' {
                    line.pop();
                    assert(line@ =~= strip_cr(s@.subrange(start as int, i as int)));
                }
                r.push(line);
                assert(r@.map_values(|l: Vec<char>| l@) =~= before.push(line@));
                start = i + 1;
            },
        }
    }
    assert(lines_from(s@, start as int) =~= Seq::<Seq<char>>::empty());
    assert(r@.map_values(|l: Vec<char>| l@) =~= lines(s@));
    r
}

} // verus!

verus! {

/// `str::split` by a non-empty pattern, from `start`.
pub open spec fn split_from(s: Seq<char>, pat: Seq<char>, start: int) -> Seq<Seq<char>>
    decreases s.len() + 1 - start,
{
    if start < 0 || start > s.len() || pat.len() == 0 {
        seq![]
    } else {
        match find_from(s, pat, start) {
            None => seq![s.subrange(start, s.len() as int)],
            Some(i) => if i < start || i + pat.len() > s.len() {
                seq![]
            } else {
                seq![s.subrange(start, i)] + split_from(s, pat, i + pat.len())
            },
        }
    }
}

pub open spec fn split(s: Seq<char>, pat: Seq<char>) -> Seq<Seq<char>> {
    split_from(s, pat, 0)
}

pub open spec fn views(v: Seq<Vec<char>>) -> Seq<Seq<char>> {
    v.map_values(|l: Vec<char>| l@)
}

pub fn split_by(s: &[char], pat: &[char]) -> (r: Vec<Vec<char>>)
    requires
        pat@.len() > 0,
    ensures
        views(r@) == split(s@, pat@),
{
    let n = s.len();
    let mut r: Vec<Vec<char>> = Vec::new();
    let mut start: usize = 0;
    loop
        invariant
            n == s@.len(),
            start <= s@.len(),
            pat@.len() > 0,
            views(r@) + split_from(s@, pat@, start as int) == split(s@, pat@),
        decreases s@.len() + 1 - start,
    {
        let ghost before = views(r@);
        match find_at(s, pat, start) {
            None => {
                let piece = subvec(s, start, s.len());
                r.push(piece);
                assert(views(r@) =~= before.push(piece@));
                assert(views(r@) =~= split(s@, pat@));
                return r;
            },
            Some(i) => {
                proof {
                    lemma_find_from(s@, pat@, start as int);
                }
                let piece = subvec(s, start, i);
                r.push(piece);
                assert(views(r@) =~= before.push(piece@));
                start = i + pat.len();
            },
        }
    }
}

/// The end of the run of non-whitespace characters starting at `i`.
pub open spec fn token_end(s: Seq<char>, i: int) -> int
    decreases s.len() - i,
{
    if i < 0 || i >= s.len() || is_ws(s[i]) {
        i
    } else {
        token_end(s, i + 1)
    }
}

pub proof fn lemma_token_end(s: Seq<char>, i: int)
    requires
        0 <= i <= s.len(),
    ensures
        i <= token_end(s, i) <= s.len(),
        forall|k: int| i <= k < token_end(s, i) ==> !is_ws(s[k]),
        token_end(s, i) == s.len() || is_ws(s[token_end(s, i)]),
    decreases s.len() - i,
{
    if i < s.len() && !is_ws(s[i]) {
        lemma_token_end(s, i + 1);
    }
}

/// `str::split_whitespace` of `s[i..]`.
pub open spec fn split_ws_from(s: Seq<char>, i: int) -> Seq<Seq<char>>
    decreases s.len() - i,
{
    if i < 0 || i >= s.len() {
        seq![]
    } else if is_ws(s[i]) {
        split_ws_from(s, i + 1)
    } else {
        let e = token_end(s, i + 1);
        if e <= i || e > s.len() {
            seq![]
        } else {
            seq![s.subrange(i, e)] + split_ws_from(s, e)
        }
    }
}

/// `str::split_whitespace`: the maximal runs of non-whitespace characters.
pub open spec fn split_ws(s: Seq<char>) -> Seq<Seq<char>> {
    split_ws_from(s, 0)
}

pub fn split_whitespace(s: &[char]) -> (r: Vec<Vec<char>>)
    ensures
        views(r@) == split_ws(s@),
{
    let mut r: Vec<Vec<char>> = Vec::new();
    let mut i: usize = 0;
    while i < s.len()
        invariant
            i <= s@.len(),
            views(r@) + split_ws_from(s@, i as int) == split_ws(s@),
        decreases s.len() - i,
    {
        if is_whitespace(s[i]) {
            i += 1;
        } else {
            let mut e = i + 1;
            while e < s.len() && !is_whitespace(s[e])
                invariant
                    i < e <= s@.len(),
                    forall|k: int| i + 1 <= k < e ==> !is_ws(s@[k]),
                decreases s.len() - e,
            {
                e += 1;
            }
            proof {
                lemma_token_end(s@, i + 1);
                lemma_token_end_is(s@, i + 1, e as int);
            }
            let ghost before = views(r@);
            let tok = subvec(s, i, e);
            r.push(tok);
            assert(views(r@) =~= before.push(tok@));
            i = e;
        }
    }
    assert(split_ws_from(s@, i as int) =~= Seq::<Seq<char>>::empty());
    assert(views(r@) =~= split_ws(s@));
    r
}

proof fn lemma_token_end_is(s: Seq<char>, i: int, e: int)
    requires
        0 <= i <= e <= s.len(),
        forall|k: int| i <= k < e ==> !is_ws(s[k]),
        e == s.len() || is_ws(s[e]),
    ensures
        token_end(s, i) == e,
    decreases e - i,
{
    if i < e {
        lemma_token_end_is(s, i + 1, e);
    }
}

/// `str::replace` with a non-empty pattern, from `start`.
pub open spec fn replace_from(s: Seq<char>, from: Seq<char>, to: Seq<char>, start: int) -> Seq<char>
    decreases s.len() + 1 - start,
{
    if start < 0 || start > s.len() || from.len() == 0 {
        seq![]
    } else {
        match find_from(s, from, start) {
            None => s.subrange(start, s.len() as int),
            Some(i) => if i < start || i + from.len() > s.len() {
                seq![]
            } else {
                s.subrange(start, i) + to + replace_from(s, from, to, i + from.len())
            },
        }
    }
}

/// Every non-overlapping occurrence of `from`, left to right, replaced by `to`.
pub open spec fn replace(s: Seq<char>, from: Seq<char>, to: Seq<char>) -> Seq<char> {
    replace_from(s, from, to, 0)
}

pub fn push_all(v: &mut Vec<char>, s: &[char])
    ensures
        final(v)@ == old(v)@ + s@,
{
    let mut i: usize = 0;
    while i < s.len()
        invariant
            i <= s@.len(),
            v@ == old(v)@ + s@.take(i as int),
        decreases s.len() - i,
    {
        v.push(s[i]);
        i += 1;
        assert(s@.take(i as int) =~= s@.take(i - 1).push(s@[i - 1]));
    }
    assert(s@.take(s@.len() as int) =~= s@);
}

pub fn replace_all(s: &[char], from: &[char], to: &[char]) -> (r: Vec<char>)
    requires
        from@.len() > 0,
    ensures
        r@ == replace(s@, from@, to@),
{
    let n = s.len();
    let mut r: Vec<char> = Vec::new();
    let mut start: usize = 0;
    loop
        invariant
            n == s@.len(),
            start <= s@.len(),
            from@.len() > 0,
            r@ + replace_from(s@, from@, to@, start as int) == replace(s@, from@, to@),
        decreases s@.len() + 1 - start,
    {
        match find_at(s, from, start) {
            None => {
                let rest = subvec(s, start, s.len());
                push_all(&mut r, rest.as_slice());
                return r;
            },
            Some(i) => {
                proof {
                    lemma_find_from(s@, from@, start as int);
                }
                let ghost before = r@;
                let piece = subvec(s, start, i);
                push_all(&mut r, piece.as_slice());
                push_all(&mut r, to);
                assert(r@ =~= before + (s@.subrange(start as int, i as int) + to@));
                start = i + from.len();
            },
        }
    }
}

/// A string holding exactly `v`.
pub fn string_of(v: &[char]) -> (s: String)
    ensures
        s@ == v@,
{
    let mut s = String::new();
    let mut i: usize = 0;
    while i < v.len()
        invariant
            i <= v@.len(),
            s@ == v@.take(i as int),
        decreases v.len() - i,
    {
        push_char(&mut s, v[i]);
        i += 1;
        assert(v@.take(i as int) =~= v@.take(i - 1).push(v@[i - 1]));
    }
    assert(v@.take(v@.len() as int) =~= v@);
    s
}

/// The characters of a `String`.
pub fn chars(s: &String) -> (v: Vec<char>)
    ensures
        v@ == s@,
{
    chars_of(s.as_str())
}

/// Appends `t` to `s`.
pub fn push_str(s: &mut String, t: &str)
    ensures
        final(s)@ == old(s)@ + t@,
{
    let v = chars_of(t);
    let mut i: usize = 0;
    while i < v.len()
        invariant
            i <= v@.len(),
            v@ == t@,
            s@ == old(s)@ + v@.take(i as int),
        decreases v.len() - i,
    {
        push_char(s, v[i]);
        i += 1;
        assert(v@.take(i as int) =~= v@.take(i - 1).push(v@[i - 1]));
    }
    assert(v@.take(v@.len() as int) =~= v@);
}

/// Clones of a list of strings.
pub fn clone_strings(v: &Vec<String>) -> (r: Vec<String>)
    ensures
        strs(r@) == strs(v@),
{
    let mut r: Vec<String> = Vec::new();
    let mut i: usize = 0;
    while i < v.len()
        invariant
            i <= v@.len(),
            strs(r@) == strs(v@.take(i as int)),
        decreases v.len() - i,
    {
        r.push(v[i].clone());
        i += 1;
        assert(strs(v@.take(i as int)) =~= strs(v@.take(i - 1)).push(v@[i - 1]@));
        assert(strs(r@) =~= strs(v@.take(i - 1)).push(v@[i - 1]@));
    }
    assert(v@.take(v@.len() as int) =~= v@);
    r
}

} // verus!

verus! {

/// Lexicographic order by code point, the order `String`'s `Ord` gives.
pub open spec fn lex_lt(a: Seq<char>, b: Seq<char>) -> bool
    decreases a.len(),
{
    if b.len() == 0 {
        false
    } else if a.len() == 0 {
        true
    } else if a[0] != b[0] {
        a[0] < b[0]
    } else {
        lex_lt(a.drop_first(), b.drop_first())
    }
}

pub fn lex_less(a: &[char], b: &[char]) -> (r: bool)
    ensures
        r == lex_lt(a@, b@),
{
    let mut i: usize = 0;
    assert(a@.skip(0) =~= a@);
    assert(b@.skip(0) =~= b@);
    loop
        invariant
            i <= a@.len(),
            i <= b@.len(),
            lex_lt(a@, b@) == lex_lt(a@.skip(i as int), b@.skip(i as int)),
        decreases a.len() - i,
    {
        if i == b.len() {
            return false;
        }
        if i == a.len() {
            return true;
        }
        assert(a@.skip(i as int)[0] == a@[i as int]);
        assert(b@.skip(i as int)[0] == b@[i as int]);
        if a[i] != b[i] {
            return a[i] < b[i];
        }
        assert(a@.skip(i as int).drop_first() =~= a@.skip(i + 1));
        assert(b@.skip(i as int).drop_first() =~= b@.skip(i + 1));
        i += 1;
    }
}

/// `x` inserted into `r` before the first element not less than it, unless
/// that element is `x` itself.
pub open spec fn insert_sorted(r: Seq<Seq<char>>, x: Seq<char>) -> Seq<Seq<char>>
    decreases r.len(),
{
    if r.len() == 0 {
        seq![x]
    } else if x == r[0] {
        r
    } else if lex_lt(x, r[0]) {
        seq![x] + r
    } else {
        seq![r[0]] + insert_sorted(r.drop_first(), x)
    }
}

/// The distinct elements of `s` in ascending order (`sort` then `dedup`).
pub open spec fn sort_dedup(s: Seq<Seq<char>>) -> Seq<Seq<char>>
    decreases s.len(),
{
    if s.len() == 0 {
        seq![]
    } else {
        insert_sorted(sort_dedup(s.drop_last()), s.last())
    }
}

proof fn lemma_insert_sorted_at(r: Seq<Seq<char>>, x: Seq<char>, k: int)
    requires
        0 <= k <= r.len(),
        forall|j: int| 0 <= j < k ==> r[j] != x && !lex_lt(x, r[j]),
        k == r.len() || r[k] == x || lex_lt(x, r[k]),
    ensures
        insert_sorted(r, x) == (if k < r.len() && r[k] == x {
            r
        } else {
            r.take(k) + seq![x] + r.skip(k)
        }),
    decreases k,
{
    if k == 0 {
        assert(r.take(0) + seq![x] + r.skip(0) =~= seq![x] + r);
    } else {
        let t = r.drop_first();
        assert forall|j: int| 0 <= j < k - 1 implies t[j] != x && !lex_lt(x, t[j]) by {
            assert(t[j] == r[j + 1]);
        }
        lemma_insert_sorted_at(t, x, k - 1);
        if k < r.len() && r[k] == x {
            assert(seq![r[0]] + t =~= r);
        } else {
            assert(seq![r[0]] + (t.take(k - 1) + seq![x] + t.skip(k - 1)) =~= r.take(k) + seq![x]
                + r.skip(k));
        }
    }
}

fn not_before(s: &String, x: &[char]) -> (r: bool)
    ensures
        r == (s@ == x@ || lex_lt(x@, s@)),
{
    let sv = chars(s);
    chars_eq(sv.as_slice(), x) || lex_less(x, sv.as_slice())
}

/// Inserts `x` into `r` the way `insert_sorted` describes.
pub fn insert_sorted_string(r: &mut Vec<String>, x: String)
    ensures
        strs(final(r)@) == insert_sorted(strs(old(r)@), x@),
{
    let xv = chars(&x);
    let mut k: usize = 0;
    while k < r.len() && !not_before(&r[k], xv.as_slice())
        invariant
            k <= r@.len(),
            xv@ == x@,
            r@ == old(r)@,
            forall|j: int| 0 <= j < k ==> r@[j]@ != x@ && !lex_lt(x@, r@[j]@),
        decreases r.len() - k,
    {
        k += 1;
    }
    proof {
        lemma_insert_sorted_at(strs(r@), x@, k as int);
    }
    if k < r.len() && r[k] == x {
        return;
    }
    let ghost before = r@;
    r.insert(k, x);
    assert(strs(r@) =~= strs(before).take(k as int) + seq![x@] + strs(before).skip(k as int));
}

/// The distinct strings of `v`, in ascending order.
pub fn sort_dedup_strings(v: &Vec<String>) -> (r: Vec<String>)
    ensures
        strs(r@) == sort_dedup(strs(v@)),
{
    let mut r: Vec<String> = Vec::new();
    let mut i: usize = 0;
    while i < v.len()
        invariant
            i <= v@.len(),
            strs(r@) == sort_dedup(strs(v@).take(i as int)),
        decreases v.len() - i,
    {
        proof {
            assert(strs(v@).take(i + 1).drop_last() =~= strs(v@).take(i as int));
        }
        insert_sorted_string(&mut r, v[i].clone());
        i += 1;
    }
    assert(strs(v@).take(v@.len() as int) =~= strs(v@));
    r
}

/// The elements of `s` with later repeats dropped, first-seen order kept.
pub open spec fn dedup_first(s: Seq<Seq<char>>) -> Seq<Seq<char>>
    decreases s.len(),
{
    if s.len() == 0 {
        seq![]
    } else {
        let r = dedup_first(s.drop_last());
        if r.contains(s.last()) {
            r
        } else {
            r.push(s.last())
        }
    }
}

/// Whether `v` holds a string equal to `s`.
pub fn contains_string(v: &Vec<String>, s: &String) -> (r: bool)
    ensures
        r == strs(v@).contains(s@),
{
    let mut i: usize = 0;
    while i < v.len()
        invariant
            i <= v@.len(),
            forall|k: int| 0 <= k < i ==> v@[k]@ != s@,
        decreases v.len() - i,
    {
        if v[i] == *s {
            assert(strs(v@)[i as int] == s@);
            return true;
        }
        i += 1;
    }
    proof {
        if strs(v@).contains(s@) {
            let k = choose|k: int| 0 <= k < strs(v@).len() && strs(v@)[k] == s@;
            assert(v@[k]@ == s@);
        }
    }
    false
}

/// `v` with repeats dropped, first-seen order kept.
pub fn dedup_strings(v: &Vec<String>) -> (r: Vec<String>)
    ensures
        strs(r@) == dedup_first(strs(v@)),
{
    let mut r: Vec<String> = Vec::new();
    let mut i: usize = 0;
    while i < v.len()
        invariant
            i <= v@.len(),
            strs(r@) == dedup_first(strs(v@).take(i as int)),
        decreases v.len() - i,
    {
        proof {
            assert(strs(v@).take(i + 1).drop_last() =~= strs(v@).take(i as int));
        }
        if !contains_string(&r, &v[i]) {
            let ghost before = strs(r@);
            r.push(v[i].clone());
            assert(strs(r@) =~= before.push(v@[i as int]@));
        }
        i += 1;
    }
    assert(strs(v@).take(v@.len() as int) =~= strs(v@));
    r
}


/// Appending six pieces one after another builds `s` followed by their
/// concatenation.
pub proof fn lemma_concat6<A>(
    s: Seq<A>,
    p1: Seq<A>,
    p2: Seq<A>,
    p3: Seq<A>,
    p4: Seq<A>,
    p5: Seq<A>,
    p6: Seq<A>,
    a1: Seq<A>,
    a2: Seq<A>,
    a3: Seq<A>,
    a4: Seq<A>,
    a5: Seq<A>,
    a6: Seq<A>,
)
    requires
        a1 == s + p1,
        a2 == a1 + p2,
        a3 == a2 + p3,
        a4 == a3 + p4,
        a5 == a4 + p5,
        a6 == a5 + p6,
    ensures
        a6 == s + (p1 + p2 + p3 + p4 + p5 + p6),
{
    assert(a6 =~= s + (p1 + p2 + p3 + p4 + p5 + p6));
}


/// An exact copy of a list of strings.
pub fn copy_strings(v: &Vec<String>) -> (r: Vec<String>)
    ensures
        r@ == v@,
{
    let mut r: Vec<String> = Vec::new();
    let mut i: usize = 0;
    while i < v.len()
        invariant
            i <= v@.len(),
            r@ == v@.take(i as int),
        decreases v.len() - i,
    {
        r.push(v[i].clone());
        i += 1;
        assert(r@ =~= v@.take(i as int));
    }
    assert(v@.take(v@.len() as int) =~= v@);
    r
}

/// An exact copy of an optional string.
pub fn copy_opt(o: &Option<String>) -> (r: Option<String>)
    ensures
        r == *o,
{
    match o {
        Some(s) => Some(s.clone()),
        None => None,
    }
}


/// Whether two strings hold the same characters.
pub fn str_eq(a: &str, b: &str) -> (r: bool)
    ensures
        r == (a@ == b@),
{
    let av = chars_of(a);
    let bv = chars_of(b);
    chars_eq(av.as_slice(), bv.as_slice())
}


proof fn lemma_insert_sorted_members(r: Seq<Seq<char>>, x: Seq<char>)
    ensures
        forall|y: Seq<char>| insert_sorted(r, x).contains(y) ==> r.contains(y) || y == x,
    decreases r.len(),
{
    if r.len() > 0 && x != r[0] && !lex_lt(x, r[0]) {
        lemma_insert_sorted_members(r.drop_first(), x);
        assert forall|y: Seq<char>| insert_sorted(r, x).contains(y) implies r.contains(y) || y == x by {
            let s = insert_sorted(r, x);
            let k = choose|k: int| 0 <= k < s.len() && s[k] == y;
            if k == 0 {
                assert(r[0] == y);
            } else {
                let t = insert_sorted(r.drop_first(), x);
                assert(s[k] == t[k - 1]);
                assert(t.contains(y));
                if r.drop_first().contains(y) {
                    let j = choose|j: int| 0 <= j < r.drop_first().len() && r.drop_first()[j] == y;
                    assert(r[j + 1] == y);
                }
            }
        }
    } else if r.len() > 0 && x != r[0] {
        assert forall|y: Seq<char>| insert_sorted(r, x).contains(y) implies r.contains(y) || y == x by {
            let s = insert_sorted(r, x);
            let k = choose|k: int| 0 <= k < s.len() && s[k] == y;
            if k > 0 {
                assert(s[k] == r[k - 1]);
            }
        }
    }
}

/// Every element of `sort_dedup(s)` comes from `s`.
pub proof fn lemma_sort_dedup_members(s: Seq<Seq<char>>)
    ensures
        forall|y: Seq<char>| sort_dedup(s).contains(y) ==> s.contains(y),
    decreases s.len(),
{
    if s.len() > 0 {
        lemma_sort_dedup_members(s.drop_last());
        lemma_insert_sorted_members(sort_dedup(s.drop_last()), s.last());
        assert forall|y: Seq<char>| sort_dedup(s).contains(y) implies s.contains(y) by {
            if y == s.last() {
                assert(s[s.len() - 1] == y);
            } else {
                assert(sort_dedup(s.drop_last()).contains(y));
                assert(s.drop_last().contains(y));
                let j = choose|j: int| 0 <= j < s.drop_last().len() && s.drop_last()[j] == y;
                assert(s[j] == y);
            }
        }
    }
}

/// No sequence is below itself.
pub proof fn lemma_lex_irreflexive(a: Seq<char>)
    ensures
        !lex_lt(a, a),
    decreases a.len(),
{
    if a.len() > 0 {
        lemma_lex_irreflexive(a.drop_first());
    }
}

/// The order is transitive.
pub proof fn lemma_lex_transitive(a: Seq<char>, b: Seq<char>, c: Seq<char>)
    requires
        lex_lt(a, b),
        lex_lt(b, c),
    ensures
        lex_lt(a, c),
    decreases a.len(),
{
    if a.len() > 0 && b.len() > 0 && c.len() > 0 && a[0] == b[0] && b[0] == c[0] {
        lemma_lex_transitive(a.drop_first(), b.drop_first(), c.drop_first());
    }
}

/// Of two different sequences, one is below the other, and not both.
pub proof fn lemma_lex_total(a: Seq<char>, b: Seq<char>)
    ensures
        a != b ==> (lex_lt(a, b) || lex_lt(b, a)),
        !(lex_lt(a, b) && lex_lt(b, a)),
    decreases a.len(),
{
    if a.len() > 0 && b.len() > 0 && a[0] == b[0] {
        lemma_lex_total(a.drop_first(), b.drop_first());
        if a != b {
            assert(a.drop_first() != b.drop_first()) by {
                if a.drop_first() == b.drop_first() {
                    assert(a =~= seq![a[0]] + a.drop_first());
                    assert(b =~= seq![b[0]] + b.drop_first());
                }
            }
        }
    } else if a.len() == 0 && b.len() == 0 {
        assert(a =~= b);
    }
}

/// Every element below every later one: ascending, without repeats.
pub open spec fn strictly_sorted(s: Seq<Seq<char>>) -> bool {
    forall|i: int, j: int| 0 <= i < j < s.len() ==> lex_lt(#[trigger] s[i], #[trigger] s[j])
}

proof fn lemma_insert_sorted_has(r: Seq<Seq<char>>, x: Seq<char>)
    ensures
        insert_sorted(r, x).contains(x),
        forall|y: Seq<char>| r.contains(y) ==> insert_sorted(r, x).contains(y),
    decreases r.len(),
{
    if r.len() == 0 {
        assert(insert_sorted(r, x)[0] == x);
    } else if x == r[0] {
        assert(r[0] == x);
    } else if lex_lt(x, r[0]) {
        let s = seq![x] + r;
        assert(s[0] == x);
        assert forall|y: Seq<char>| r.contains(y) implies s.contains(y) by {
            let j = choose|j: int| 0 <= j < r.len() && r[j] == y;
            assert(s[j + 1] == y);
        }
    } else {
        lemma_insert_sorted_has(r.drop_first(), x);
        let t = insert_sorted(r.drop_first(), x);
        let s = seq![r[0]] + t;
        let k = choose|k: int| 0 <= k < t.len() && t[k] == x;
        assert(s[k + 1] == x);
        assert forall|y: Seq<char>| r.contains(y) implies s.contains(y) by {
            let j = choose|j: int| 0 <= j < r.len() && r[j] == y;
            if j == 0 {
                assert(s[0] == y);
            } else {
                assert(r.drop_first()[j - 1] == y);
                assert(r.drop_first().contains(y));
                assert(t.contains(y));
                let m = choose|m: int| 0 <= m < t.len() && t[m] == y;
                assert(s[m + 1] == y);
            }
        }
    }
}

proof fn lemma_insert_sorted_sorted(r: Seq<Seq<char>>, x: Seq<char>)
    requires
        strictly_sorted(r),
    ensures
        strictly_sorted(insert_sorted(r, x)),
    decreases r.len(),
{
    if r.len() == 0 {
    } else if x == r[0] {
    } else if lex_lt(x, r[0]) {
        let s = seq![x] + r;
        assert forall|i: int, j: int| 0 <= i < j < s.len() implies lex_lt(#[trigger] s[i], #[trigger] s[j]) by {
            if i == 0 {
                if j > 1 {
                    lemma_lex_transitive(x, r[0], r[j - 1]);
                }
            } else {
                assert(s[i] == r[i - 1] && s[j] == r[j - 1]);
            }
        }
    } else {
        lemma_lex_total(x, r[0]);
        let t = r.drop_first();
        assert(strictly_sorted(t)) by {
            assert forall|i: int, j: int| 0 <= i < j < t.len() implies lex_lt(#[trigger] t[i], #[trigger] t[j]) by {
                assert(t[i] == r[i + 1] && t[j] == r[j + 1]);
            }
        }
        lemma_insert_sorted_sorted(t, x);
        lemma_insert_sorted_members(t, x);
        let u = insert_sorted(t, x);
        let s = seq![r[0]] + u;
        assert forall|i: int, j: int| 0 <= i < j < s.len() implies lex_lt(#[trigger] s[i], #[trigger] s[j]) by {
            if i == 0 {
                assert(s[j] == u[j - 1]);
                assert(u.contains(u[j - 1]));
                if t.contains(u[j - 1]) {
                    let m = choose|m: int| 0 <= m < t.len() && t[m] == u[j - 1];
                    assert(r[m + 1] == u[j - 1]);
                }
            } else {
                assert(s[i] == u[i - 1] && s[j] == u[j - 1]);
            }
        }
    }
}

/// `sort_dedup` gives the distinct elements of its input, each once, in
/// ascending order: an element is in the result exactly when it is in the
/// input, and every element is below every later one.
pub proof fn law_sort_dedup(s: Seq<Seq<char>>)
    ensures
        strictly_sorted(sort_dedup(s)),
        forall|y: Seq<char>| sort_dedup(s).contains(y) <==> s.contains(y),
    decreases s.len(),
{
    lemma_sort_dedup_members(s);
    if s.len() > 0 {
        law_sort_dedup(s.drop_last());
        lemma_insert_sorted_sorted(sort_dedup(s.drop_last()), s.last());
        lemma_insert_sorted_has(sort_dedup(s.drop_last()), s.last());
        assert forall|y: Seq<char>| s.contains(y) implies sort_dedup(s).contains(y) by {
            let j = choose|j: int| 0 <= j < s.len() && s[j] == y;
            assert(sort_dedup(s) == insert_sorted(sort_dedup(s.drop_last()), s.last()));
            if j < s.len() - 1 {
                assert(s.drop_last()[j] == y);
                assert(s.drop_last().contains(y));
                assert(sort_dedup(s.drop_last()).contains(y));
            } else {
                assert(y == s.last());
            }
        }
    }
}

/// What `trim_end_by` leaves is a prefix of `s` that does not end in a
/// character it trims, and it keeps a first character it would not trim.
pub proof fn lemma_trim_end_shape(s: Seq<char>, p: spec_fn(char) -> bool)
    ensures
        trim_end_by(s, p).len() <= s.len(),
        trim_end_by(s, p) == s.take(trim_end_by(s, p).len() as int),
        trim_end_by(s, p).len() == 0 || !p(trim_end_by(s, p).last()),
        s.len() > 0 && !p(s[0]) ==> trim_end_by(s, p).len() >= 1,
    decreases s.len(),
{
    if s.len() > 0 && p(s.last()) {
        lemma_trim_end_shape(s.drop_last(), p);
        let t = trim_end_by(s.drop_last(), p);
        assert(s.drop_last().take(t.len() as int) =~= s.take(t.len() as int));
        if s.len() > 1 {
            assert(s.drop_last()[0] == s[0]);
        }
    } else {
        assert(s.take(s.len() as int) =~= s);
    }
}

} // verus!
