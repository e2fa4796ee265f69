//! Character-level helpers shared by the record format and the identifier rules.
//!
//! Every function here is specified over `Seq<char>`, the view of `str`, `String`
//! and of a slice of characters.

use vstd::prelude::*;
use vstd::slice::*;
use vstd::std_specs::iter::IteratorSpec;
use vstd::string::*;

verus! {

/// `String::push` appends one character to the end of the string.
pub assume_specification[ String::push ](s: &mut String, ch: char)
    ensures
        final(s)@ == old(s)@.push(ch),
;

/// The code points with the Unicode property `White_Space`.
pub open spec fn is_space(c: char) -> bool {
    let n = c as u32;
    ||| 0x09 <= n <= 0x0D
    ||| n == 0x20
    ||| n == 0x85
    ||| n == 0xA0
    ||| n == 0x1680
    ||| 0x2000 <= n <= 0x200A
    ||| n == 0x2028
    ||| n == 0x2029
    ||| n == 0x202F
    ||| n == 0x205F
    ||| n == 0x3000
}

/// How many white-space characters `s` begins with.
pub open spec fn leading_space(s: Seq<char>) -> nat
    decreases s.len(),
{
    if s.len() > 0 && is_space(s[0]) {
        1 + leading_space(s.drop_first())
    } else {
        0
    }
}

/// How many white-space characters `s` ends with.
pub open spec fn trailing_space(s: Seq<char>) -> nat
    decreases s.len(),
{
    if s.len() > 0 && is_space(s.last()) {
        1 + trailing_space(s.drop_last())
    } else {
        0
    }
}

/// `s` without its leading white space.
pub open spec fn trim_start(s: Seq<char>) -> Seq<char> {
    s.skip(leading_space(s) as int)
}

/// `s` without its trailing white space.
pub open spec fn trim_end(s: Seq<char>) -> Seq<char> {
    s.take(s.len() - trailing_space(s))
}

/// `s` without leading and trailing white space.
pub open spec fn trim(s: Seq<char>) -> Seq<char> {
    trim_end(trim_start(s))
}

/// `pat` stands in `s` at index `i`.
pub open spec fn occurs_at(s: Seq<char>, pat: Seq<char>, i: int) -> bool {
    0 <= i && i + pat.len() <= s.len() && s.subrange(i, i + pat.len()) == pat
}

/// The least index at or after `i` where `pat` stands in `s`.
pub open spec fn first_occurrence_from(s: Seq<char>, pat: Seq<char>, i: int) -> Option<int>
    decreases s.len() - i + 1,
{
    if i < 0 || i + pat.len() > s.len() {
        None
    } else if occurs_at(s, pat, i) {
        Some(i)
    } else {
        first_occurrence_from(s, pat, i + 1)
    }
}

/// The least index where `pat` stands in `s`.
pub open spec fn first_occurrence(s: Seq<char>, pat: Seq<char>) -> Option<int> {
    first_occurrence_from(s, pat, 0)
}

/// The first place at or after `from` where `s` holds `c`, or the length of `s`.
pub open spec fn next_place(s: Seq<char>, c: char, from: int) -> int
    decreases s.len() - from,
{
    if from < 0 || from >= s.len() {
        s.len() as int
    } else if s[from] == c {
        from
    } else {
        next_place(s, c, from + 1)
    }
}

/// The parts of `s` between its commas, each trimmed. A text without a comma
/// is one part.
pub open spec fn comma_parts(s: Seq<char>) -> Seq<Seq<char>>
    decreases s.len(),
{
    let at = next_place(s, ',', 0);
    if 0 <= at < s.len() {
        seq![trim(s.take(at))] + comma_parts(s.skip(at + 1))
    } else {
        seq![trim(s)]
    }
}

/// `next_place` finds `k` when `c` stands at `k` and nowhere in `from..k`.
pub proof fn lemma_next_place(s: Seq<char>, c: char, from: int, k: int)
    requires
        0 <= from <= k <= s.len(),
        forall|j: int| from <= j < k ==> s[j] != c,
        k == s.len() || s[k] == c,
    ensures
        next_place(s, c, from) == k,
    decreases k - from,
{
    if from < k {
        lemma_next_place(s, c, from + 1, k);
    }
}

/// `leading_space(s)` is the one index that follows only white space and is not
/// itself white space.
pub proof fn lemma_leading_space(s: Seq<char>, k: int)
    requires
        0 <= k <= s.len(),
        forall|j: int| 0 <= j < k ==> is_space(#[trigger] s[j]),
        k == s.len() || !is_space(s[k]),
    ensures
        leading_space(s) == k,
    decreases k,
{
    if k > 0 {
        let t = s.drop_first();
        assert forall|j: int| 0 <= j < k - 1 implies is_space(#[trigger] t[j]) by {
            assert(t[j] == s[j + 1]);
        }
        lemma_leading_space(t, k - 1);
    }
}

/// What `leading_space(s)` is, read the other way.
pub proof fn lemma_leading_space_bounds(s: Seq<char>)
    ensures
        leading_space(s) <= s.len(),
        forall|j: int| 0 <= j < leading_space(s) ==> is_space(#[trigger] s[j]),
        leading_space(s) == s.len() || !is_space(s[leading_space(s) as int]),
    decreases s.len(),
{
    if s.len() > 0 && is_space(s[0]) {
        let t = s.drop_first();
        lemma_leading_space_bounds(t);
        assert forall|j: int| 0 <= j < leading_space(s) implies is_space(#[trigger] s[j]) by {
            if j > 0 {
                assert(s[j] == t[j - 1]);
            }
        }
        if leading_space(s) < s.len() {
            assert(s[leading_space(s) as int] == t[leading_space(t) as int]);
        }
    }
}

/// `trailing_space(s)` is the length of the one blank tail that follows a
/// character that is not white space.
pub proof fn lemma_trailing_space(s: Seq<char>, k: int)
    requires
        0 <= k <= s.len(),
        forall|j: int| s.len() - k <= j < s.len() ==> is_space(#[trigger] s[j]),
        k == s.len() || !is_space(s[s.len() - k - 1]),
    ensures
        trailing_space(s) == k,
    decreases k,
{
    if k > 0 {
        let t = s.drop_last();
        assert forall|j: int| t.len() - (k - 1) <= j < t.len() implies is_space(
            #[trigger] t[j],
        ) by {
            assert(t[j] == s[j]);
        }
        lemma_trailing_space(t, k - 1);
    }
}

/// What `trailing_space(s)` is, read the other way.
pub proof fn lemma_trailing_space_bounds(s: Seq<char>)
    ensures
        trailing_space(s) <= s.len(),
        forall|j: int| s.len() - trailing_space(s) <= j < s.len() ==> is_space(#[trigger] s[j]),
        trailing_space(s) == s.len() || !is_space(s[s.len() - trailing_space(s) - 1]),
    decreases s.len(),
{
    if s.len() > 0 && is_space(s.last()) {
        let t = s.drop_last();
        lemma_trailing_space_bounds(t);
        assert forall|j: int| s.len() - trailing_space(s) <= j < s.len() implies is_space(
            #[trigger] s[j],
        ) by {
            if j < s.len() - 1 {
                assert(s[j] == t[j]);
            }
        }
        if trailing_space(s) < s.len() {
            assert(s[s.len() - trailing_space(s) - 1] == t[t.len() - trailing_space(t) - 1]);
        }
    }
}

/// `first_occurrence_from` finds `k` when `pat` stands at `k` and nowhere in `i..k`.
pub proof fn lemma_first_occurrence(s: Seq<char>, pat: Seq<char>, i: int, k: int)
    requires
        0 <= i <= k,
        occurs_at(s, pat, k),
        forall|j: int| i <= j < k ==> !occurs_at(s, pat, j),
    ensures
        first_occurrence_from(s, pat, i) == Some(k),
    decreases k - i,
{
    if i < k {
        lemma_first_occurrence(s, pat, i + 1, k);
    }
}

/// What `first_occurrence_from` returns, read the other way.
pub proof fn lemma_first_occurrence_bounds(s: Seq<char>, pat: Seq<char>, i: int)
    requires
        0 <= i,
    ensures
        match first_occurrence_from(s, pat, i) {
            Some(k) => i <= k && occurs_at(s, pat, k) && forall|j: int|
                i <= j < k ==> !occurs_at(s, pat, j),
            None => forall|j: int| i <= j ==> !occurs_at(s, pat, j),
        },
    decreases s.len() - i + 1,
{
    if i + pat.len() <= s.len() && !occurs_at(s, pat, i) {
        lemma_first_occurrence_bounds(s, pat, i + 1);
    }
}

/// `trim(s)` is the run of `s` from its first to its last character that is not
/// white space.
pub proof fn lemma_trim_is(s: Seq<char>, lo: int, hi: int)
    requires
        0 <= lo <= hi <= s.len(),
        forall|j: int| 0 <= j < lo ==> is_space(#[trigger] s[j]),
        forall|j: int| hi <= j < s.len() ==> is_space(#[trigger] s[j]),
        lo < hi ==> !is_space(s[lo]) && !is_space(s[hi - 1]),
    ensures
        trim(s) == s.subrange(lo, hi),
{
    if lo < hi {
        lemma_leading_space(s, lo);
        let t = s.skip(lo);
        assert forall|j: int| t.len() - (s.len() - hi) <= j < t.len() implies is_space(
            #[trigger] t[j],
        ) by {
            assert(t[j] == s[j + lo]);
        }
        assert(t[t.len() - (s.len() - hi) - 1] == s[hi - 1]);
        lemma_trailing_space(t, s.len() - hi);
        assert(t.take(t.len() - (s.len() - hi)) =~= s.subrange(lo, hi));
    } else {
        assert forall|j: int| 0 <= j < s.len() implies is_space(#[trigger] s[j]) by {
            if j < lo {
            } else {
            }
        }
        lemma_leading_space(s, s.len() as int);
        let t = s.skip(s.len() as int);
        assert(t.len() == 0);
        assert(trim_end(t) =~= s.subrange(lo, hi));
    }
}

/// The bounds of `trim(s)` in `s`.
pub proof fn lemma_trim_bounds(s: Seq<char>) -> (r: (int, int))
    ensures
        0 <= r.0 <= r.1 <= s.len(),
        forall|j: int| 0 <= j < r.0 ==> is_space(#[trigger] s[j]),
        forall|j: int| r.1 <= j < s.len() ==> is_space(#[trigger] s[j]),
        r.0 < r.1 ==> !is_space(s[r.0]) && !is_space(s[r.1 - 1]),
        trim(s) == s.subrange(r.0, r.1),
{
    lemma_leading_space_bounds(s);
    let lo = leading_space(s) as int;
    let t = s.skip(lo);
    lemma_trailing_space_bounds(t);
    let back = trailing_space(t) as int;
    if lo == s.len() {
        lemma_trim_is(s, lo, lo);
        (lo, lo)
    } else {
        assert(t[0] == s[lo]);
        let hi = s.len() - back;
        assert forall|j: int| hi <= j < s.len() implies is_space(#[trigger] s[j]) by {
            assert(t[j - lo] == s[j]);
        }
        assert(t[t.len() - back - 1] == s[hi - 1]);
        lemma_trim_is(s, lo, hi);
        (lo, hi)
    }
}

/// White space before `s` does not change what `trim` leaves of it.
pub proof fn lemma_trim_after_space(c: char, s: Seq<char>)
    requires
        is_space(c),
    ensures
        trim(seq![c] + s) == trim(s),
{
    let (lo, hi) = lemma_trim_bounds(s);
    let t = seq![c] + s;
    assert forall|j: int| 0 <= j < lo + 1 implies is_space(#[trigger] t[j]) by {
        if j > 0 {
            assert(t[j] == s[j - 1]);
        }
    }
    assert forall|j: int| hi + 1 <= j < t.len() implies is_space(#[trigger] t[j]) by {
        assert(t[j] == s[j - 1]);
    }
    if lo < hi {
        assert(t[lo + 1] == s[lo]);
        assert(t[hi] == s[hi - 1]);
    }
    lemma_trim_is(t, lo + 1, hi + 1);
    assert(t.subrange(lo + 1, hi + 1) =~= s.subrange(lo, hi));
}

/// White space after `s` does not change what `trim` leaves of it.
pub proof fn lemma_trim_before_space(s: Seq<char>, c: char)
    requires
        is_space(c),
    ensures
        trim(s.push(c)) == trim(s),
{
    let (lo, hi) = lemma_trim_bounds(s);
    let t = s.push(c);
    if lo < hi {
        assert forall|j: int| 0 <= j < lo implies is_space(#[trigger] t[j]) by {
            assert(t[j] == s[j]);
        }
        assert forall|j: int| hi <= j < t.len() implies is_space(#[trigger] t[j]) by {
            if j < s.len() {
                assert(t[j] == s[j]);
            }
        }
        assert(t[lo] == s[lo]);
        assert(t[hi - 1] == s[hi - 1]);
        lemma_trim_is(t, lo, hi);
        assert(t.subrange(lo, hi) =~= s.subrange(lo, hi));
    } else {
        assert forall|j: int| 0 <= j < t.len() implies is_space(#[trigger] t[j]) by {
            if j < s.len() {
                assert(t[j] == s[j]);
                if j < lo {
                } else {
                }
            }
        }
        lemma_trim_is(t, 0, 0);
        assert(t.subrange(0, 0) =~= s.subrange(lo, hi));
    }
}

/// The first place where `pat` stands in `a` is the first where it stands in
/// any text that begins with `a`.
pub proof fn lemma_first_occurrence_extend(a: Seq<char>, b: Seq<char>, pat: Seq<char>, k: int)
    requires
        first_occurrence(a, pat) == Some(k),
    ensures
        first_occurrence(a + b, pat) == Some(k),
{
    lemma_first_occurrence_bounds(a, pat, 0);
    let s = a + b;
    assert(s.subrange(k, k + pat.len()) =~= a.subrange(k, k + pat.len()));
    assert forall|j: int| 0 <= j < k implies !occurs_at(s, pat, j) by {
        assert(!occurs_at(a, pat, j));
        assert(s.subrange(j, j + pat.len()) =~= a.subrange(j, j + pat.len()));
    }
    lemma_first_occurrence(s, pat, 0, k);
}

/// Whether `c` is white space.
pub fn is_whitespace(c: char) -> (b: bool)
    ensures
        b == is_space(c),
{
    let n: u32 = c as u32;
    (0x09 <= n && n <= 0x0D) || n == 0x20 || n == 0x85 || n == 0xA0 || n == 0x1680 || (0x2000 <= n
        && n <= 0x200A) || n == 0x2028 || n == 0x2029 || n == 0x202F || n == 0x205F || n == 0x3000
}

/// The characters of `s`, in order.
pub fn to_chars(s: &str) -> (v: Vec<char>)
    ensures
        v@ == s@,
{
    broadcast use group_string_axioms;

    let mut v: Vec<char> = Vec::new();
    let mut it = s.chars();
    loop
        invariant
            it.obeys_prophetic_iter_laws(),
            it.decrease() is Some,
            v@ + it.remaining() == s@,
        ensures
            v@ == s@,
        decreases it.decrease()->0,
    {
        match it.next() {
            Some(c) => {
                v.push(c);
            },
            None => {
                break;
            },
        }
    }
    v
}

/// The string that holds the characters of `s`.
pub fn string_of(s: &[char]) -> (r: String)
    ensures
        r@ == s@,
{
    let mut r = String::new();
    let mut i: usize = 0;
    while i < s.len()
        invariant
            i <= s.len(),
            r@ == s@.take(i as int),
        decreases s.len() - i,
    {
        r.push(s[i]);
        i += 1;
    }
    r
}

/// Whether two runs of characters are the same.
pub fn same_text(a: &[char], b: &[char]) -> (r: bool)
    ensures
        r == (a@ == b@),
{
    if a.len() != b.len() {
        return false;
    }
    let mut i: usize = 0;
    while i < a.len()
        invariant
            i <= a.len(),
            a.len() == b.len(),
            a@.take(i as int) == b@.take(i as int),
        decreases a.len() - i,
    {
        if a[i] != b[i] {
            return false;
        }
        assert(a@.take(i + 1) == a@.take(i as int).push(a@[i as int]));
        assert(b@.take(i + 1) == b@.take(i as int).push(b@[i as int]));
        i += 1;
    }
    assert(a@.take(i as int) == a@);
    assert(b@.take(i as int) == b@);
    true
}

/// How many white-space characters `s` begins with.
pub fn count_leading_space(s: &[char]) -> (k: usize)
    ensures
        k == leading_space(s@),
        k <= s.len(),
{
    let mut k: usize = 0;
    while k < s.len() && is_whitespace(s[k])
        invariant
            k <= s.len(),
            forall|j: int| 0 <= j < k ==> is_space(#[trigger] s@[j]),
        decreases s.len() - k,
    {
        k += 1;
    }
    proof {
        lemma_leading_space(s@, k as int);
    }
    k
}

/// How many white-space characters `s` ends with.
pub fn count_trailing_space(s: &[char]) -> (k: usize)
    ensures
        k == trailing_space(s@),
        k <= s.len(),
{
    let n: usize = s.len();
    let mut k: usize = 0;
    while k < n && is_whitespace(s[n - k - 1])
        invariant
            n == s.len(),
            k <= n,
            forall|j: int| n - k <= j < n ==> is_space(#[trigger] s@[j]),
        decreases n - k,
    {
        k += 1;
    }
    proof {
        lemma_trailing_space(s@, k as int);
    }
    k
}

/// `s` without leading and trailing white space.
pub fn trimmed(s: &[char]) -> (r: &[char])
    ensures
        r@ == trim(s@),
{
    let a: usize = count_leading_space(s);
    let rest = slice_subrange(s, a, s.len());
    assert(rest@ == trim_start(s@));
    let b: usize = count_trailing_space(rest);
    let r = slice_subrange(rest, 0, rest.len() - b);
    assert(r@ == trim_end(rest@));
    r
}

/// Whether `pat` stands in `s` at index `i`.
pub fn matches_at(s: &[char], pat: &[char], i: usize) -> (b: bool)
    ensures
        b == occurs_at(s@, pat@, i as int),
{
    if i > s.len() || pat.len() > s.len() - i {
        return false;
    }
    let part = slice_subrange(s, i, i + pat.len());
    same_text(part, pat)
}

/// Whether `s` begins with `pat`.
pub fn has_prefix(s: &[char], pat: &[char]) -> (b: bool)
    ensures
        b == pat@.is_prefix_of(s@),
{
    if pat.len() > s.len() {
        return false;
    }
    matches_at(s, pat, 0)
}

/// The least index where `pat` stands in `s`.
pub fn find(s: &[char], pat: &[char]) -> (r: Option<usize>)
    ensures
        match r {
            Some(k) => first_occurrence(s@, pat@) == Some(k as int),
            None => first_occurrence(s@, pat@) is None,
        },
{
    if pat.len() > s.len() {
        return None;
    }
    let last: usize = s.len() - pat.len();
    let mut i: usize = 0;
    while i < last
        invariant
            last == s.len() - pat.len(),
            i <= last,
            first_occurrence(s@, pat@) == first_occurrence_from(s@, pat@, i as int),
        decreases last - i,
    {
        if matches_at(s, pat, i) {
            return Some(i);
        }
        i += 1;
    }
    if matches_at(s, pat, last) {
        Some(last)
    } else {
        assert(first_occurrence_from(s@, pat@, last + 1) is None);
        None
    }
}

/// The first place at or after `from` where `s` holds `c`, or the length of `s`.
pub fn find_char(s: &[char], c: char, from: usize) -> (k: usize)
    ensures
        k == next_place(s@, c, from as int),
        k <= s.len(),
        from <= s.len() ==> from <= k,
{
    if from >= s.len() {
        return s.len();
    }
    let mut k: usize = from;
    while k < s.len() && s[k] != c
        invariant
            from <= k <= s.len(),
            forall|j: int| from <= j < k ==> s@[j] != c,
        decreases s.len() - k,
    {
        k += 1;
    }
    proof {
        lemma_next_place(s@, c, from as int, k as int);
    }
    k
}

/// The parts of `s` between its commas, each trimmed.
pub fn split_commas(s: &str) -> (r: Vec<String>)
    ensures
        r@.map_values(|s: String| s@) == comma_parts(s@),
{
    let chars = to_chars(s);
    let n: usize = chars.len();
    let mut r: Vec<String> = Vec::new();
    let mut from: usize = 0;
    let ghost view_of = |s: String| s@;
    assert(r@.map_values(view_of) =~= Seq::<Seq<char>>::empty());
    assert(chars@.skip(0) =~= chars@);
    loop
        invariant_except_break
            r@.map_values(view_of) + comma_parts(chars@.skip(from as int)) == comma_parts(s@),
        invariant
            from <= n,
            n == chars.len(),
            chars@ == s@,
            view_of == |s: String| s@,
        ensures
            r@.map_values(view_of) == comma_parts(s@),
        decreases n - from,
    {
        let rest = slice_subrange(chars.as_slice(), from, n);
        assert(rest@ == chars@.skip(from as int));
        let at = find_char(rest, ',', 0);
        let ghost before = r@.map_values(view_of);
        if at < rest.len() {
            let part = string_of(trimmed(slice_subrange(rest, 0, at)));
            assert(rest@.subrange(0, at as int) == rest@.take(at as int));
            r.push(part);
            proof {
                assert(r@.map_values(view_of) =~= before.push(trim(rest@.take(at as int))));
                assert(rest@.skip(at + 1) =~= chars@.skip(from + at + 1));
                assert(before.push(trim(rest@.take(at as int))) + comma_parts(
                    rest@.skip(at + 1),
                ) =~= before + comma_parts(rest@));
            }
            from = from + at + 1;
        } else {
            let part = string_of(trimmed(rest));
            r.push(part);
            proof {
                assert(r@.map_values(view_of) =~= before.push(trim(rest@)));
                assert(before.push(trim(rest@)) =~= before + comma_parts(rest@));
            }
            break;
        }
    }
    r
}

} // verus!
