use vstd::prelude::*;

verus! {

/// The characters that `char::is_whitespace` accepts (Unicode `White_Space`).
pub open spec fn is_space(c: char) -> bool {
    let u = c as u32;
    (0x09 <= u && u <= 0x0d) || u == 0x20 || u == 0x85 || u == 0xa0 || u == 0x1680 || (0x2000
        <= u && u <= 0x200a) || u == 0x2028 || u == 0x2029 || u == 0x202f || u == 0x205f || u
        == 0x3000
}

/// Whether `char::is_alphanumeric` accepts `c` (Unicode `Alphabetic` or `Numeric`).
pub uninterp spec fn alphanumeric(c: char) -> bool;

/// What `char::to_lowercase` makes of a whole string.
pub uninterp spec fn lower_of(s: Seq<char>) -> Seq<char>;

/// Relies on `str::chars`: the characters of `s`, in order.
#[verifier::external_body]
pub(crate) fn chars_of(s: &str) -> (r: Vec<char>)
    ensures
        r@ == s@,
{
    s.chars().collect()
}

/// Relies on `String`'s `FromIterator<&char>`: the string made of `v`, in order.
#[verifier::external_body]
pub(crate) fn string_of(v: &[char]) -> (r: String)
    ensures
        r@ == v@,
{
    v.iter().collect()
}

/// Relies on `char::is_alphanumeric`.
#[verifier::external_body]
pub(crate) fn is_alphanumeric(c: char) -> (r: bool)
    ensures
        r == alphanumeric(c),
{
    c.is_alphanumeric()
}

/// Relies on `str::to_lowercase`: the lower-case form depends on the characters alone.
#[verifier::external_body]
pub(crate) fn lowercase(s: &str) -> (r: String)
    ensures
        r@ == lower_of(s@),
{
    s.to_lowercase()
}

/// `char::is_whitespace`, stated as the fixed list of `White_Space` code points.
pub fn is_space_char(c: char) -> (r: bool)
    ensures
        r == is_space(c),
{
    let u = c as u32;
    (0x09 <= u && u <= 0x0d) || u == 0x20 || u == 0x85 || u == 0xa0 || u == 0x1680 || (0x2000
        <= u && u <= 0x200a) || u == 0x2028 || u == 0x2029 || u == 0x202f || u == 0x205f || u
        == 0x3000
}

/// Index of the first non-space character at or after `i`.
pub open spec fn skip_spaces(s: Seq<char>, i: int) -> int
    decreases s.len() - i,
{
    if 0 <= i < s.len() && is_space(s[i]) {
        skip_spaces(s, i + 1)
    } else {
        i
    }
}

/// One past the last non-space character in `s[lo..j]`, or `lo`.
pub open spec fn back_spaces(s: Seq<char>, lo: int, j: int) -> int
    decreases j - lo,
{
    if lo < j && j <= s.len() && is_space(s[j - 1]) {
        back_spaces(s, lo, j - 1)
    } else {
        j
    }
}

/// `s` without leading and trailing white space, as `str::trim` gives it.
pub open spec fn trim(s: Seq<char>) -> Seq<char> {
    let a = skip_spaces(s, 0);
    s.subrange(a, back_spaces(s, a, s.len() as int))
}

proof fn lemma_skip_bounds(s: Seq<char>, i: int)
    requires
        0 <= i <= s.len(),
    ensures
        i <= skip_spaces(s, i) <= s.len(),
    decreases s.len() - i,
{
    if i < s.len() && is_space(s[i]) {
        lemma_skip_bounds(s, i + 1);
    }
}

/// The bounds `[a, b)` of `s` without its surrounding white space.
pub fn trim_bounds(s: &[char]) -> (r: (usize, usize))
    ensures
        r.0 <= r.1 <= s@.len(),
        s@.subrange(r.0 as int, r.1 as int) == trim(s@),
{
    let mut i: usize = 0;
    while i < s.len() && is_space_char(s[i])
        invariant
            i <= s@.len(),
            skip_spaces(s@, i as int) == skip_spaces(s@, 0),
        decreases s@.len() - i,
    {
        i = i + 1;
    }
    let mut j: usize = s.len();
    while j > i && is_space_char(s[j - 1])
        invariant
            i <= j <= s@.len(),
            skip_spaces(s@, 0) == i,
            back_spaces(s@, i as int, j as int) == back_spaces(s@, i as int, s@.len() as int),
        decreases j,
    {
        j = j - 1;
    }
    (i, j)
}

/// A copy of `s[a..b]`.
pub fn copy_range(s: &[char], a: usize, b: usize) -> (r: Vec<char>)
    requires
        a <= b <= s@.len(),
    ensures
        r@ == s@.subrange(a as int, b as int),
{
    let mut r: Vec<char> = Vec::new();
    let mut i: usize = a;
    while i < b
        invariant
            a <= i <= b <= s@.len(),
            r@ == s@.subrange(a as int, i as int),
        decreases b - i,
    {
        r.push(s[i]);
        i = i + 1;
    }
    r
}

/// A copy of `s` without its surrounding white space.
pub fn trimmed(s: &[char]) -> (r: Vec<char>)
    ensures
        r@ == trim(s@),
{
    let (a, b) = trim_bounds(s);
    copy_range(s, a, b)
}

/// Whether `p` occurs in `s` at position `i`.
pub open spec fn occurs_at(s: Seq<char>, p: Seq<char>, i: int) -> bool {
    0 <= i && i + p.len() <= s.len() && s.subrange(i, i + p.len()) == p
}

pub open spec fn starts_with(s: Seq<char>, p: Seq<char>) -> bool {
    occurs_at(s, p, 0)
}

/// The first position at or after `i` where `p` occurs in `s`.
pub open spec fn find_from(s: Seq<char>, p: Seq<char>, i: int) -> Option<int>
    decreases s.len() + 1 - i,
{
    if i < 0 || i + p.len() > s.len() {
        None
    } else if occurs_at(s, p, i) {
        Some(i)
    } else {
        find_from(s, p, i + 1)
    }
}

pub open spec fn contains(s: Seq<char>, p: Seq<char>) -> bool {
    find_from(s, p, 0) is Some
}

/// Whether `p` occurs in `s` at position `i`.
pub fn matches_at(s: &[char], p: &[char], i: usize) -> (r: bool)
    ensures
        r == occurs_at(s@, p@, i as int),
{
    if i > s.len() || p.len() > s.len() - i {
        return false;
    }
    let n = s.len();
    let mut k: usize = 0;
    while k < p.len()
        invariant
            n == s@.len(),
            i as int + p@.len() <= s@.len(),
            k <= p@.len(),
            forall|t: int| 0 <= t < k ==> s@[i + t] == p@[t],
        decreases p@.len() - k,
    {
        if s[i + k] != p[k] {
            assert(s@.subrange(i as int, i + p@.len())[k as int] != p@[k as int]);
            return false;
        }
        k = k + 1;
    }
    assert(s@.subrange(i as int, i + p@.len()) =~= p@);
    true
}

/// The first position at or after `i` where `p` occurs in `s`.
pub fn find(s: &[char], p: &[char], i: usize) -> (r: Option<usize>)
    ensures
        r matches Some(k) ==> find_from(s@, p@, i as int) == Some(k as int),
        r is None ==> find_from(s@, p@, i as int) is None,
{
    if p.len() > s.len() || i > s.len() - p.len() {
        return None;
    }
    let last = s.len() - p.len();
    let mut k: usize = i;
    loop
        invariant
            i <= k <= last,
            last == s@.len() - p@.len(),
            find_from(s@, p@, i as int) == find_from(s@, p@, k as int),
        decreases last - k,
    {
        if matches_at(s, p, k) {
            return Some(k);
        }
        if k == last {
            assert(find_from(s@, p@, k + 1) is None);
            return None;
        }
        k = k + 1;
    }
}

/// Whether `s` begins with `p`.
pub fn begins_with(s: &[char], p: &[char]) -> (r: bool)
    ensures
        r == starts_with(s@, p@),
{
    matches_at(s, p, 0)
}

/// Whether `p` occurs somewhere in `s`.
pub fn has(s: &[char], p: &[char]) -> (r: bool)
    ensures
        r == contains(s@, p@),
{
    find(s, p, 0).is_some()
}

/// Whether `s` is exactly `p`.
pub fn same(s: &[char], p: &[char]) -> (r: bool)
    ensures
        r == (s@ == p@),
{
    if s.len() != p.len() {
        return false;
    }
    let r = matches_at(s, p, 0);
    assert(s@.subrange(0, s@.len() as int) =~= s@);
    r
}


/// The lines of `s` as `str::lines` gives them: split at `\n`, a trailing `\r` dropped,
/// and no empty last line after a final `\n`.
pub open spec fn lines_of(s: Seq<char>) -> Seq<Seq<char>>
    decreases s.len(),
{
    if s.len() == 0 {
        Seq::empty()
    } else {
        match find_from(s, seq!['\n'], 0) {
            None => seq![strip_cr(s)],
            Some(i) => if 0 <= i < s.len() {
                seq![strip_cr(s.subrange(0, i))] + lines_of(s.subrange(i + 1, s.len() as int))
            } else {
                Seq::empty()
            },
        }
    }
}

pub open spec fn strip_cr(s: Seq<char>) -> Seq<char> {
    if s.len() > 0 && s.last() == '\r' {
        s.drop_last()
    } else {
        s
    }
}

pub(crate) proof fn lemma_find_bound(s: Seq<char>, p: Seq<char>, i: int)
    ensures
        find_from(s, p, i) matches Some(k) ==> i <= k && k + p.len() <= s.len() && occurs_at(s, p, k),
    decreases s.len() + 1 - i,
{
    if !(i < 0 || i + p.len() > s.len()) && !occurs_at(s, p, i) {
        lemma_find_bound(s, p, i + 1);
    }
}

/// The lines of `s`.
pub fn lines(s: &[char]) -> (r: Vec<Vec<char>>)
    ensures
        r@.len() == lines_of(s@).len(),
        forall|i: int| 0 <= i < r@.len() ==> (#[trigger] r@[i])@ == lines_of(s@)[i],
    decreases s@.len(),
{
    let nl = ['\n'];
    let nl_s = vstd::array::array_as_slice(&nl);
    assert(nl_s@ == seq!['\n']);
    if s.len() == 0 {
        return Vec::new();
    }
    match find(s, nl_s, 0) {
        None => {
            let mut out: Vec<Vec<char>> = Vec::new();
            out.push(cut_cr(s, s.len()));
            assert(s@.subrange(0, s@.len() as int) == s@);
            out
        },
        Some(i) => {
            proof {
                lemma_find_bound(s@, seq!['\n'], 0);
            }
            let first = cut_cr(s, i);
            let rest_chars = copy_range(s, i + 1, s.len());
            let rest = lines(rest_chars.as_slice());
            let mut out: Vec<Vec<char>> = Vec::new();
            out.push(first);
            let mut k: usize = 0;
            while k < rest.len()
                invariant
                    k <= rest@.len(),
                    rest@.len() == lines_of(rest_chars@).len(),
                    forall|t: int| 0 <= t < rest@.len() ==> (#[trigger] rest@[t])@ == lines_of(rest_chars@)[t],
                    out@.len() == k + 1,
                    out@[0]@ == strip_cr(s@.subrange(0, i as int)),
                    forall|t: int| 1 <= t < k + 1 ==> (#[trigger] out@[t])@ == lines_of(rest_chars@)[t - 1],
                decreases rest@.len() - k,
            {
                let line = copy_range(rest[k].as_slice(), 0, rest[k].len());
                assert(rest@[k as int]@.subrange(0, rest@[k as int]@.len() as int) == rest@[k as int]@);
                out.push(line);
                k = k + 1;
            }
            out
        },
    }
}

/// A copy of `s[..e]` without a trailing `\r`.
fn cut_cr(s: &[char], e: usize) -> (r: Vec<char>)
    requires
        e <= s@.len(),
    ensures
        r@ == strip_cr(s@.subrange(0, e as int)),
{
    if e > 0 && s[e - 1] == '\r' {
        assert(s@.subrange(0, e as int).drop_last() == s@.subrange(0, e - 1));
        copy_range(s, 0, e - 1)
    } else {
        copy_range(s, 0, e)
    }
}

/// `s` with every occurrence of `p`, scanned from the left, replaced by `q`, as
/// `str::replace` gives it.
pub open spec fn replace_all(s: Seq<char>, p: Seq<char>, q: Seq<char>) -> Seq<char>
    decreases s.len(),
{
    if p.len() == 0 {
        s
    } else {
        match find_from(s, p, 0) {
            None => s,
            Some(i) => if 0 <= i && i + p.len() <= s.len() {
                s.subrange(0, i) + q + replace_all(s.subrange(i + p.len(), s.len() as int), p, q)
            } else {
                s
            },
        }
    }
}

/// Appends `t` to `out`.
pub fn append(out: &mut Vec<char>, t: &[char])
    ensures
        final(out)@ == old(out)@ + t@,
{
    let mut i: usize = 0;
    while i < t.len()
        invariant
            i <= t@.len(),
            out@ == old(out)@ + t@.subrange(0, i as int),
        decreases t@.len() - i,
    {
        out.push(t[i]);
        i = i + 1;
    }
    assert(t@.subrange(0, t@.len() as int) == t@);
}

/// `s` with every occurrence of `p` replaced by `q`.
pub fn replace(s: &[char], p: &[char], q: &[char]) -> (r: Vec<char>)
    requires
        p@.len() > 0,
    ensures
        r@ == replace_all(s@, p@, q@),
    decreases s@.len(),
{
    let n = s.len();
    match find(s, p, 0) {
        None => {
            let r = copy_range(s, 0, s.len());
            assert(s@.subrange(0, s@.len() as int) == s@);
            r
        },
        Some(i) => {
            proof {
                lemma_find_bound(s@, p@, 0);
            }
            let mut out = copy_range(s, 0, i);
            append(&mut out, q);
            let tail = copy_range(s, i + p.len(), n);
            let rest = replace(tail.as_slice(), p, q);
            append(&mut out, rest.as_slice());
            out
        },
    }
}


/// Index of the first white-space character at or after `i`, or `s.len()`.
pub open spec fn word_end(s: Seq<char>, i: int) -> int
    decreases s.len() - i,
{
    if 0 <= i < s.len() && !is_space(s[i]) {
        word_end(s, i + 1)
    } else {
        i
    }
}

/// The first white-space separated word of `s`, or nothing.
pub open spec fn first_word(s: Seq<char>) -> Seq<char> {
    let a = skip_spaces(s, 0);
    s.subrange(a, word_end(s, a))
}

proof fn lemma_word_end_bounds(s: Seq<char>, i: int)
    requires
        0 <= i <= s.len(),
    ensures
        i <= word_end(s, i) <= s.len(),
    decreases s.len() - i,
{
    if i < s.len() && !is_space(s[i]) {
        lemma_word_end_bounds(s, i + 1);
    }
}

/// The first index at or after `i` that holds white space, or `s.len()`.
pub fn word_end_exec(s: &[char], i: usize) -> (r: usize)
    requires
        i <= s@.len(),
    ensures
        r as int == word_end(s@, i as int),
        i <= r <= s@.len(),
{
    proof {
        lemma_word_end_bounds(s@, i as int);
    }
    let mut k: usize = i;
    while k < s.len() && !is_space_char(s[k])
        invariant
            i <= k <= s@.len(),
            word_end(s@, k as int) == word_end(s@, i as int),
        decreases s@.len() - k,
    {
        k = k + 1;
    }
    k
}

/// The first word of `s`.
pub fn first_word_exec(s: &[char]) -> (r: Vec<char>)
    ensures
        r@ == first_word(s@),
{
    proof {
        lemma_skip_bounds(s@, 0);
    }
    let mut a: usize = 0;
    while a < s.len() && is_space_char(s[a])
        invariant
            a <= s@.len(),
            skip_spaces(s@, a as int) == skip_spaces(s@, 0),
        decreases s@.len() - a,
    {
        a = a + 1;
    }
    let b = word_end_exec(s, a);
    copy_range(s, a, b)
}

/// Index of the last `c` in `s`.
pub open spec fn last_index(s: Seq<char>, c: char) -> Option<int> {
    if exists|i: int| 0 <= i < s.len() && s[i] == c {
        Some(choose|i: int| 0 <= i < s.len() && s[i] == c && forall|j: int| i < j < s.len() ==> #[trigger] s[j] != c)
    } else {
        None
    }
}

/// Index of the last `c` in `s`.
pub fn last_index_exec(s: &[char], c: char) -> (r: Option<usize>)
    ensures
        r matches Some(i) ==> i < s@.len() && last_index(s@, c) == Some(i as int),
        r is None ==> last_index(s@, c) is None,
{
    let mut k: usize = s.len();
    while k > 0
        invariant
            k <= s@.len(),
            forall|j: int| k <= j < s@.len() ==> #[trigger] s@[j] != c,
        decreases k,
    {
        if s[k - 1] == c {
            let ghost i = (k - 1) as int;
            assert(exists|t: int| 0 <= t < s@.len() && s@[t] == c) by {
                assert(s@[i] == c);
            }
            let ghost w = choose|t: int| 0 <= t < s@.len() && s@[t] == c && forall|j: int| t < j < s@.len() ==> #[trigger] s@[j] != c;
            assert(w == i) by {
                if w < i {
                    assert(s@[i] != c);
                } else if w > i {
                    assert(s@[w] != c);
                }
            }
            return Some(k - 1);
        }
        k = k - 1;
    }
    None
}

} // verus!
