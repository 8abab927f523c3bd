//! Character-level text handling: trimming, searching and splitting sequences
//! of characters, and moving between `&str`, `String` and `Vec<char>`.
use vstd::prelude::*;

verus! {

/// Unicode `White_Space`, the property that `str::trim` removes.
pub open spec fn spec_is_whitespace(c: char) -> bool {
    let u = c as u32;
    (0x09 <= u && u <= 0x0d) || u == 0x20 || u == 0x85 || u == 0xa0 || u == 0x1680 || (0x2000 <= u
        && u <= 0x200a) || u == 0x2028 || u == 0x2029 || u == 0x202f || u == 0x205f || u == 0x3000
}

/// `s` without its leading whitespace.
pub open spec fn spec_trim_start(s: Seq<char>) -> Seq<char>
    decreases s.len(),
{
    if s.len() > 0 && spec_is_whitespace(s[0]) {
        spec_trim_start(s.drop_first())
    } else {
        s
    }
}

/// `s` without its trailing whitespace.
pub open spec fn spec_trim_end(s: Seq<char>) -> Seq<char>
    decreases s.len(),
{
    if s.len() > 0 && spec_is_whitespace(s.last()) {
        spec_trim_end(s.drop_last())
    } else {
        s
    }
}

/// `s` without leading and trailing whitespace, as `str::trim` gives it.
pub open spec fn spec_trim(s: Seq<char>) -> Seq<char> {
    spec_trim_end(spec_trim_start(s))
}

/// `pat` occurs in `s` starting at index `i`.
pub open spec fn occurs_at(s: Seq<char>, pat: Seq<char>, i: int) -> bool {
    0 <= i && i + pat.len() <= s.len() && s.subrange(i, i + pat.len()) == pat
}

/// The first index at or after `i` at which `pat` occurs in `s`.
pub open spec fn spec_find_from(s: Seq<char>, pat: Seq<char>, i: int) -> Option<int>
    decreases s.len() + 1 - i,
{
    if i < 0 || i + pat.len() > s.len() {
        None
    } else if occurs_at(s, pat, i) {
        Some(i)
    } else {
        spec_find_from(s, pat, i + 1)
    }
}

/// The first index at which `pat` occurs in `s`, as `str::find` gives it
/// (counted in characters).
pub open spec fn spec_find(s: Seq<char>, pat: Seq<char>) -> Option<int> {
    spec_find_from(s, pat, 0)
}

/// `pat` occurs somewhere in `s`, as `str::contains` tells.
pub open spec fn spec_contains(s: Seq<char>, pat: Seq<char>) -> bool {
    spec_find(s, pat) is Some
}

/// The pieces of `s` between the occurrences of `sep`, found from left to
/// right, as `str::split` with a non-empty string pattern gives them.
pub open spec fn spec_split(s: Seq<char>, sep: Seq<char>) -> Seq<Seq<char>>
    decreases s.len(),
{
    match spec_find(s, sep) {
        Some(i) => if sep.len() > 0 && 0 <= i && i + sep.len() <= s.len() {
            seq![s.take(i)] + spec_split(s.skip(i + sep.len()), sep)
        } else {
            seq![s]
        },
        None => seq![s],
    }
}

/// The views of a vector of character vectors.
pub open spec fn views(v: Seq<Vec<char>>) -> Seq<Seq<char>> {
    v.map_values(|x: Vec<char>| x@)
}

/// The characters of `s`, in order.
pub fn chars_of(s: &str) -> (r: Vec<char>)
    ensures
        r@ == s@,
{
    let mut v: Vec<char> = Vec::new();
    for c in it: s.chars()
        invariant
            v@ == it.seq().take(it.index() as int),
    {
        v.push(c);
    }
    v
}

/// The lowercase form of `s`, as `str::to_lowercase` gives it (Unicode
/// lowercase mapping).
pub uninterp spec fn lowercase_of(s: Seq<char>) -> Seq<char>;

/// The lowercase form of `s`.
///
/// Calls `str::to_lowercase`. The contract names the result
/// `lowercase_of(s@)`; the Unicode lowercase mapping itself is not
/// described.
#[verifier::external_body]
pub(crate) fn to_lowercase(s: &str) -> (r: String)
    ensures
        r@ == lowercase_of(s@),
{
    s.to_lowercase()
}

/// Appends `c` to `s`.
///
/// Calls `String::push`; trusted to append exactly that character.
#[verifier::external_body]
fn push_char(s: &mut String, c: char)
    ensures
        final(s)@ == old(s)@.push(c),
{
    s.push(c);
}

/// Appends the characters of `v` to `s`.
pub fn push_chars(s: &mut String, v: &Vec<char>)
    ensures
        final(s)@ == old(s)@ + v@,
{
    let ghost start = s@;
    for i in 0..v.len()
        invariant
            s@ == start + v@.take(i as int),
    {
        push_char(s, v[i]);
        assert(v@.take(i + 1) == v@.take(i as int).push(v@[i as int]));
    }
    assert(v@.take(v.len() as int) == v@);
}

/// A `String` holding exactly the characters of `v`.
pub fn string_of(v: &Vec<char>) -> (r: String)
    ensures
        r@ == v@,
{
    let mut s = String::new();
    push_chars(&mut s, v);
    s
}

/// The characters of `v` from `from` up to (not including) `to`.
pub fn subvec(v: &Vec<char>, from: usize, to: usize) -> (r: Vec<char>)
    requires
        from <= to <= v.len(),
    ensures
        r@ == v@.subrange(from as int, to as int),
{
    let mut r: Vec<char> = Vec::new();
    let mut i = from;
    while i < to
        invariant
            from <= i <= to <= v.len(),
            r@ == v@.subrange(from as int, i as int),
        decreases to - i,
    {
        r.push(v[i]);
        i = i + 1;
    }
    r
}

/// Whether `a` and `b` hold the same characters.
pub fn same_chars(a: &Vec<char>, b: &Vec<char>) -> (r: bool)
    ensures
        r == (a@ == b@),
{
    if a.len() != b.len() {
        return false;
    }
    let mut i: usize = 0;
    while i < a.len()
        invariant
            a.len() == b.len(),
            i <= a.len(),
            forall|j: int| 0 <= j < i ==> a@[j] == b@[j],
        decreases a.len() - i,
    {
        if a[i] != b[i] {
            return false;
        }
        i = i + 1;
    }
    assert(a@ =~= b@);
    true
}

/// Whether `c` is Unicode whitespace.
pub fn is_whitespace(c: char) -> (r: bool)
    ensures
        r == spec_is_whitespace(c),
{
    let u = c as u32;
    (0x09 <= u && u <= 0x0d) || u == 0x20 || u == 0x85 || u == 0xa0 || u == 0x1680 || (0x2000 <= u
        && u <= 0x200a) || u == 0x2028 || u == 0x2029 || u == 0x202f || u == 0x205f || u == 0x3000
}

/// `v` without leading and trailing whitespace.
pub fn trim(v: &Vec<char>) -> (r: Vec<char>)
    ensures
        r@ == spec_trim(v@),
{
    let n = v.len();
    let mut a: usize = 0;
    assert(v@.skip(0) == v@);
    while a < n && is_whitespace(v[a])
        invariant
            a <= n == v.len(),
            spec_trim_start(v@) == spec_trim_start(v@.skip(a as int)),
        decreases n - a,
    {
        assert(v@.skip(a as int).drop_first() == v@.skip(a + 1));
        a = a + 1;
    }
    let ghost mid = v@.skip(a as int);
    assert(spec_trim_start(v@) == mid);
    let mut b: usize = n;
    while b > a && is_whitespace(v[b - 1])
        invariant
            a <= b <= n == v.len(),
            mid == v@.skip(a as int),
            spec_trim_end(mid) == spec_trim_end(v@.subrange(a as int, b as int)),
        decreases b - a,
    {
        assert(v@.subrange(a as int, b as int).drop_last() == v@.subrange(a as int, b - 1));
        b = b - 1;
    }
    assert(mid == v@.subrange(a as int, n as int));
    subvec(v, a, b)
}

/// Whether `pat` occurs in `s` at index `i`.
pub fn occurs_at_exec(s: &Vec<char>, pat: &Vec<char>, i: usize) -> (r: bool)
    ensures
        r == occurs_at(s@, pat@, i as int),
{
    if i > s.len() || pat.len() > s.len() - i {
        return false;
    }
    let mut k: usize = 0;
    while k < pat.len()
        invariant
            i + pat.len() <= s.len(),
            k <= pat.len(),
            forall|j: int| 0 <= j < k ==> s@[i + j] == pat@[j],
        decreases pat.len() - k,
    {
        if s[i + k] != pat[k] {
            assert(s@.subrange(i as int, i + pat.len())[k as int] != pat@[k as int]);
            return false;
        }
        k = k + 1;
    }
    assert(s@.subrange(i as int, i + pat.len()) =~= pat@);
    true
}

/// The first index at which `pat` occurs in `s`.
pub fn find(s: &Vec<char>, pat: &Vec<char>) -> (r: Option<usize>)
    ensures
        r matches Some(i) ==> spec_find(s@, pat@) == Some(i as int),
        r is None ==> spec_find(s@, pat@) is None,
{
    if pat.len() > s.len() {
        return None;
    }
    let last = s.len() - pat.len();
    let mut i: usize = 0;
    loop
        invariant
            last + pat.len() == s.len(),
            i <= last,
            spec_find(s@, pat@) == spec_find_from(s@, pat@, i as int),
        decreases last - i,
    {
        if occurs_at_exec(s, pat, i) {
            return Some(i);
        }
        if i == last {
            assert(spec_find_from(s@, pat@, i + 1) is None);
            return None;
        }
        i = i + 1;
    }
}

/// Whether `pat` occurs in `s`.
pub fn contains(s: &Vec<char>, pat: &Vec<char>) -> (r: bool)
    ensures
        r == spec_contains(s@, pat@),
{
    find(s, pat).is_some()
}

/// A found occurrence lies inside `s` and really is one.
pub proof fn lemma_find_from_in_bounds(s: Seq<char>, pat: Seq<char>, i: int)
    ensures
        spec_find_from(s, pat, i) matches Some(k) ==> i <= k && occurs_at(s, pat, k),
    decreases s.len() + 1 - i,
{
    if i < 0 || i + pat.len() > s.len() {
    } else if occurs_at(s, pat, i) {
    } else {
        lemma_find_from_in_bounds(s, pat, i + 1);
    }
}

/// A single character occurs where `s` holds it.
proof fn lemma_occurs_char(s: Seq<char>, c: char, i: int)
    ensures
        occurs_at(s, seq![c], i) <==> (0 <= i < s.len() && s[i] == c),
{
    if 0 <= i < s.len() {
        let sub = s.subrange(i, i + 1);
        assert(sub =~= seq![s[i]]);
        if sub == seq![c] {
            assert(sub[0] == c);
        }
    }
}

/// The first occurrence of a character is where it first appears.
pub proof fn lemma_find_char(s: Seq<char>, c: char, k: int)
    requires
        0 <= k < s.len(),
        s[k] == c,
        forall|j: int| 0 <= j < k ==> s[j] != c,
    ensures
        spec_find(s, seq![c]) == Some(k),
{
    lemma_find_char_from(s, c, k, 0);
}

proof fn lemma_find_char_from(s: Seq<char>, c: char, k: int, i: int)
    requires
        0 <= i <= k < s.len(),
        s[k] == c,
        forall|j: int| 0 <= j < k ==> s[j] != c,
    ensures
        spec_find_from(s, seq![c], i) == Some(k),
    decreases k - i,
{
    lemma_occurs_char(s, c, i);
    if i < k {
        lemma_find_char_from(s, c, k, i + 1);
    }
}

/// A character that does not appear is not found.
pub proof fn lemma_find_char_absent(s: Seq<char>, c: char)
    requires
        forall|j: int| 0 <= j < s.len() ==> s[j] != c,
    ensures
        spec_find(s, seq![c]) is None,
{
    lemma_find_char_absent_from(s, c, 0);
}

proof fn lemma_find_char_absent_from(s: Seq<char>, c: char, i: int)
    requires
        0 <= i,
        forall|j: int| 0 <= j < s.len() ==> s[j] != c,
    ensures
        spec_find_from(s, seq![c], i) is None,
    decreases s.len() + 1 - i,
{
    lemma_occurs_char(s, c, i);
    if i + 1 <= s.len() {
        lemma_find_char_absent_from(s, c, i + 1);
    }
}

/// Trimming text that neither starts nor ends with whitespace leaves it as
/// it is.
pub proof fn lemma_trim_unchanged(s: Seq<char>)
    requires
        s.len() > 0,
        !spec_is_whitespace(s[0]),
        !spec_is_whitespace(s.last()),
    ensures
        spec_trim(s) == s,
{
}

/// Trimming twice trims no more than trimming once.
pub proof fn lemma_trim_idempotent(s: Seq<char>)
    ensures
        spec_trim(spec_trim(s)) == spec_trim(s),
{
    lemma_trim_start_shape(s);
    lemma_trim_end_shape(spec_trim_start(s));
    let t = spec_trim(s);
    if t.len() > 0 {
        lemma_trim_end_suffix_start(spec_trim_start(s));
    }
}

proof fn lemma_trim_start_shape(s: Seq<char>)
    ensures
        spec_trim_start(s).len() > 0 ==> !spec_is_whitespace(spec_trim_start(s)[0]),
    decreases s.len(),
{
    if s.len() > 0 && spec_is_whitespace(s[0]) {
        lemma_trim_start_shape(s.drop_first());
    }
}

proof fn lemma_trim_end_shape(s: Seq<char>)
    ensures
        spec_trim_end(s).len() > 0 ==> !spec_is_whitespace(spec_trim_end(s).last()),
        spec_trim_end(s) == s.take(spec_trim_end(s).len() as int),
        spec_trim_end(s).len() <= s.len(),
    decreases s.len(),
{
    if s.len() > 0 && spec_is_whitespace(s.last()) {
        lemma_trim_end_shape(s.drop_last());
        assert(s.drop_last().take(spec_trim_end(s).len() as int) == s.take(
            spec_trim_end(s).len() as int,
        ));
    } else {
        assert(s.take(s.len() as int) == s);
    }
}

proof fn lemma_trim_end_suffix_start(s: Seq<char>)
    requires
        s.len() > 0 ==> !spec_is_whitespace(s[0]),
        spec_trim_end(s).len() > 0,
    ensures
        !spec_is_whitespace(spec_trim_end(s)[0]),
{
    lemma_trim_end_shape(s);
    assert(spec_trim_end(s)[0] == s[0]);
}

/// The search from `i` finds the first occurrence at or after `i`.
pub proof fn lemma_find_from_first(s: Seq<char>, pat: Seq<char>, i: int, k: int)
    requires
        0 <= i <= k,
        occurs_at(s, pat, k),
        forall|j: int| i <= j < k ==> !occurs_at(s, pat, j),
    ensures
        spec_find_from(s, pat, i) == Some(k),
    decreases k - i,
{
    if i < k {
        lemma_find_from_first(s, pat, i + 1, k);
    }
}

/// A search that finds nothing from `i` on passes no occurrence; one that
/// finds `k` passes none before `k`.
pub proof fn lemma_find_from_minimal(s: Seq<char>, pat: Seq<char>, i: int)
    requires
        0 <= i,
    ensures
        spec_find_from(s, pat, i) is None ==> forall|j: int| i <= j ==> !occurs_at(s, pat, j),
        spec_find_from(s, pat, i) matches Some(k) ==> forall|j: int|
            i <= j < k ==> !occurs_at(s, pat, j),
    decreases s.len() + 1 - i,
{
    if i + pat.len() > s.len() {
    } else if occurs_at(s, pat, i) {
    } else {
        lemma_find_from_minimal(s, pat, i + 1);
    }
}

/// An occurrence that lies inside `a` is one in `a + x` as well.
proof fn lemma_occurs_in_prefix(a: Seq<char>, x: Seq<char>, pat: Seq<char>, j: int)
    requires
        0 <= j,
        j + pat.len() <= a.len(),
    ensures
        occurs_at(a + x, pat, j) == occurs_at(a, pat, j),
{
    assert((a + x).subrange(j, j + pat.len()) =~= a.subrange(j, j + pat.len()));
}

/// Splitting at a one-character separator, or at a two-character one whose
/// characters differ (such as `\r\n`), splits two texts joined by it into
/// the pieces of each.
pub proof fn lemma_split_join(a: Seq<char>, b: Seq<char>, sep: Seq<char>)
    requires
        sep.len() == 1 || (sep.len() == 2 && sep[0] != sep[1]),
    ensures
        spec_split(a + sep + b, sep) == spec_split(a, sep) + spec_split(b, sep),
    decreases a.len(),
{
    let big = a + sep + b;
    let n = sep.len() as int;
    lemma_find_from_minimal(a, sep, 0);
    assert forall|j: int| 0 <= j && j + n <= a.len() implies occurs_at(big, sep, j) == occurs_at(
        a,
        sep,
        j,
    ) by {
        assert(big == a + (sep + b));
        lemma_occurs_in_prefix(a, sep + b, sep, j);
    }
    if a.len() >= 1 && n == 2 {
        assert(!occurs_at(big, sep, a.len() - 1)) by {
            let sub = big.subrange(a.len() - 1, a.len() + 1int);
            assert(sub[1] == big[a.len() as int]);
            assert(big[a.len() as int] == sep[0]);
            if sub == sep {
                assert(sub[1] == sep[1]);
            }
        }
    }
    match spec_find(a, sep) {
        Some(i) => {
            lemma_find_from_in_bounds(a, sep, 0);
            lemma_find_from_first(big, sep, 0, i);
            let rest = a.skip(i + n);
            assert(big.skip(i + n) == rest + sep + b);
            assert(big.take(i) == a.take(i));
            lemma_split_join(rest, b, sep);
            assert(spec_split(a, sep) == seq![a.take(i)] + spec_split(rest, sep));
            assert(spec_split(big, sep) == seq![a.take(i)] + spec_split(rest + sep + b, sep));
        },
        None => {
            assert(occurs_at(big, sep, a.len() as int)) by {
                assert(big.subrange(a.len() as int, a.len() + n) =~= sep);
            }
            lemma_find_from_first(big, sep, 0, a.len() as int);
            assert(big.take(a.len() as int) == a);
            assert(big.skip(a.len() + n) == b);
            assert(spec_split(a, sep) == seq![a]);
        },
    }
}

/// A trimmed non-empty text neither starts nor ends with whitespace.
pub proof fn lemma_trimmed_ends(s: Seq<char>)
    ensures
        spec_trim(s).len() > 0 ==> !spec_is_whitespace(spec_trim(s)[0]) && !spec_is_whitespace(
            spec_trim(s).last(),
        ),
{
    lemma_trim_start_shape(s);
    lemma_trim_end_shape(spec_trim_start(s));
    if spec_trim(s).len() > 0 {
        lemma_trim_end_suffix_start(spec_trim_start(s));
    }
}

/// The pieces of `s` between the occurrences of `sep`.
pub fn split(s: &Vec<char>, sep: &Vec<char>) -> (r: Vec<Vec<char>>)
    requires
        sep.len() > 0,
    ensures
        views(r@) == spec_split(s@, sep@),
{
    let mut out: Vec<Vec<char>> = Vec::new();
    let mut rest = subvec(s, 0, s.len());
    assert(rest@ == s@);
    loop
        invariant
            sep.len() > 0,
            spec_split(s@, sep@) == views(out@) + spec_split(rest@, sep@),
        decreases rest.len(),
    {
        match find(&rest, sep) {
            None => {
                let ghost before = out@;
                out.push(rest);
                assert(views(out@) == views(before) + seq![rest@]);
                return out;
            },
            Some(i) => {
                proof {
                    lemma_find_from_in_bounds(rest@, sep@, 0);
                }
                let piece = subvec(&rest, 0, i);
                let next = subvec(&rest, i + sep.len(), rest.len());
                assert(piece@ == rest@.take(i as int));
                assert(next@ == rest@.skip(i + sep.len()));
                let ghost before = out@;
                out.push(piece);
                assert(views(out@) == views(before) + seq![piece@]);
                rest = next;
            },
        }
    }
}

} // verus!
