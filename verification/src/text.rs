//! Character-level text utilities: trimming, splitting on a delimiter,
//! removing characters, and decimal rendering/parsing of 64-bit integers.
//! These are the primitives the emoji normalizer and the selector parser
//! are specified and proved with.

use vstd::prelude::*;
use vstd::string::StrSliceExecFns;

verus! {

/// Relies on `String::push` of std: appends the given character to the end
/// of the string.
pub assume_specification[ String::push ](s: &mut String, c: char)
    ensures
        final(s)@ == old(s)@.push(c),
;

// ---------------------------------------------------------------------------
// Conversions between strings and character vectors
// ---------------------------------------------------------------------------
/// The characters of `s`, as a vector.
pub fn chars_of(s: &str) -> (r: Vec<char>)
    ensures
        r@ == s@,
{
    let n = s.unicode_len();
    let mut r: Vec<char> = Vec::new();
    let mut i: usize = 0;
    while i < n
        invariant
            i <= n,
            n == s@.len(),
            r@ == s@.take(i as int),
        decreases n - i,
    {
        r.push(s.get_char(i));
        proof {
            assert(r@ =~= s@.take(i + 1));
        }
        i = i + 1;
    }
    proof {
        assert(r@ =~= s@);
    }
    r
}

/// A string holding exactly the characters of `v`.
pub fn string_of(v: &Vec<char>) -> (r: String)
    ensures
        r@ == v@,
{
    let mut r = String::new();
    let mut i: usize = 0;
    while i < v.len()
        invariant
            i <= v@.len(),
            r@ == v@.take(i as int),
        decreases v@.len() - i,
    {
        r.push(v[i]);
        proof {
            assert(r@ =~= v@.take(i + 1));
        }
        i = i + 1;
    }
    proof {
        assert(r@ =~= v@);
    }
    r
}

/// Character-wise string equality; equivalent to equality of the views.
pub fn str_eq(a: &str, b: &str) -> (r: bool)
    ensures
        r == (a@ == b@),
{
    let na = a.unicode_len();
    let nb = b.unicode_len();
    if na != nb {
        return false;
    }
    let mut i: usize = 0;
    while i < na
        invariant
            i <= na,
            na == a@.len(),
            na == b@.len(),
            forall|j: int| 0 <= j < i ==> a@[j] == b@[j],
        decreases na - i,
    {
        if a.get_char(i) != b.get_char(i) {
            return false;
        }
        i = i + 1;
    }
    proof {
        assert(a@ =~= b@);
    }
    true
}

/// Compares a string against a character vector.
pub fn str_eq_chars(a: &str, v: &Vec<char>) -> (r: bool)
    ensures
        r == (a@ == v@),
{
    let na = a.unicode_len();
    if na != v.len() {
        return false;
    }
    let mut i: usize = 0;
    while i < na
        invariant
            i <= na,
            na == a@.len(),
            na == v@.len(),
            forall|j: int| 0 <= j < i ==> a@[j] == v@[j],
        decreases na - i,
    {
        if a.get_char(i) != v[i] {
            return false;
        }
        i = i + 1;
    }
    proof {
        assert(a@ =~= v@);
    }
    true
}

// ---------------------------------------------------------------------------
// Whitespace and trimming
// ---------------------------------------------------------------------------
/// The whitespace characters that trimming removes from the ends of a string.
pub open spec fn is_space(c: char) -> bool {
    c == ' ' || c == '\t' || c == '\n' || c == '\r'
}

/// `s` without its leading whitespace.
pub open spec fn trim_start_spec(s: Seq<char>) -> Seq<char>
    decreases s.len(),
{
    if s.len() > 0 && is_space(s[0]) {
        trim_start_spec(s.skip(1))
    } else {
        s
    }
}

/// `s` without its trailing whitespace.
pub open spec fn trim_end_spec(s: Seq<char>) -> Seq<char>
    decreases s.len(),
{
    if s.len() > 0 && is_space(s.last()) {
        trim_end_spec(s.drop_last())
    } else {
        s
    }
}

/// `s` without leading and trailing whitespace.
pub open spec fn trim_spec(s: Seq<char>) -> Seq<char> {
    trim_end_spec(trim_start_spec(s))
}

pub fn is_space_exec(c: char) -> (r: bool)
    ensures
        r == is_space(c),
{
    c == ' ' || c == '\t' || c == '\n' || c == '\r'
}

/// Removes leading and trailing whitespace from `v`, in place.
#[verifier::loop_isolation(false)]
pub fn trim_in_place(v: &mut Vec<char>)
    ensures
        final(v)@ == trim_spec(old(v)@),
{
    while v.len() > 0 && is_space_exec(v[0])
        invariant
            trim_start_spec(v@) == trim_start_spec(old(v)@),
        decreases v@.len(),
    {
        let ghost pre: Seq<char> = v@;
        let _c = v.remove(0);
        proof {
            assert(v@ =~= pre.skip(1));
        }
    }
    while v.len() > 0 && is_space_exec(v[v.len() - 1])
        invariant
            trim_end_spec(v@) == trim_spec(old(v)@),
        decreases v@.len(),
    {
        let ghost pre: Seq<char> = v@;
        let _c = v.pop();
        proof {
            assert(v@ =~= pre.drop_last());
        }
    }
}

/// A string whose trimming changes nothing has no whitespace at either end.
pub proof fn lemma_trim_stable_parts(s: Seq<char>)
    requires
        trim_spec(s) == s,
    ensures
        trim_start_spec(s) == s,
        trim_end_spec(s) == s,
        s.len() > 0 ==> !is_space(s[0]),
        s.len() > 0 ==> !is_space(s.last()),
{
    if s.len() > 0 && is_space(s[0]) {
        lemma_trim_start_len(s.skip(1));
        lemma_trim_end_len(trim_start_spec(s));
        assert(trim_spec(s).len() < s.len());
        assert(false);
    }
    assert(trim_start_spec(s) == s);
    if s.len() > 0 && is_space(s.last()) {
        lemma_trim_end_len(s.drop_last());
        assert(trim_end_spec(s).len() < s.len());
        assert(false);
    }
}

pub proof fn lemma_trim_start_len(s: Seq<char>)
    ensures
        trim_start_spec(s).len() <= s.len(),
    decreases s.len(),
{
    if s.len() > 0 && is_space(s[0]) {
        lemma_trim_start_len(s.skip(1));
    }
}

pub proof fn lemma_trim_end_len(s: Seq<char>)
    ensures
        trim_end_spec(s).len() <= s.len(),
    decreases s.len(),
{
    if s.len() > 0 && is_space(s.last()) {
        lemma_trim_end_len(s.drop_last());
    }
}

/// Trimming a string whose ends are not whitespace changes nothing.
pub proof fn lemma_trim_of_clean(s: Seq<char>)
    requires
        s.len() > 0 ==> !is_space(s[0]),
        s.len() > 0 ==> !is_space(s.last()),
    ensures
        trim_spec(s) == s,
{
}

/// Appending one space on the right disappears under trimming, as does
/// prepending one on the left.
pub proof fn lemma_trim_pad(s: Seq<char>)
    requires
        trim_spec(s) == s,
        s.len() > 0,
    ensures
        trim_spec(s + seq![' ']) == s,
        trim_spec(seq![' '] + s) == s,
{
    lemma_trim_stable_parts(s);
    let r = s + seq![' '];
    assert(!is_space(r[0]));
    assert(trim_start_spec(r) == r);
    assert(r.last() == ' ');
    assert(r.drop_last() =~= s);
    assert(trim_end_spec(r) == trim_end_spec(s));
    let l = seq![' '] + s;
    assert(is_space(l[0]));
    assert(l.skip(1) =~= s);
    assert(trim_start_spec(l) == trim_start_spec(s));
}

// ---------------------------------------------------------------------------
// Splitting on a delimiter
// ---------------------------------------------------------------------------
/// Whether `s` starts with `d`.
pub open spec fn begins_with(s: Seq<char>, d: Seq<char>) -> bool {
    d.len() <= s.len() && s.take(d.len() as int) == d
}

/// The pieces of `s` between non-overlapping, leftmost occurrences of the
/// delimiter `d`; the delimiters themselves are not part of any piece.
/// There is always at least one piece, and a piece may be empty.
pub open spec fn split_spec(s: Seq<char>, d: Seq<char>) -> Seq<Seq<char>>
    decreases s.len(),
{
    if d.len() == 0 {
        seq![s]
    } else if begins_with(s, d) {
        seq![Seq::<char>::empty()].add(split_spec(s.skip(d.len() as int), d))
    } else if s.len() == 0 {
        seq![s]
    } else {
        let rest = split_spec(s.skip(1), d);
        seq![seq![s[0]].add(rest[0])].add(rest.skip(1))
    }
}

pub proof fn lemma_split_len(s: Seq<char>, d: Seq<char>)
    ensures
        split_spec(s, d).len() >= 1,
    decreases s.len(),
{
    if d.len() == 0 {
    } else if begins_with(s, d) {
        lemma_split_len(s.skip(d.len() as int), d);
    } else if s.len() == 0 {
    } else {
        lemma_split_len(s.skip(1), d);
    }
}

/// If `d` occurs nowhere in `s`, splitting gives back `s` as the one piece.
pub proof fn lemma_split_no_match(s: Seq<char>, d: Seq<char>)
    requires
        d.len() >= 1,
        forall|i: int|
            0 <= i <= s.len() - d.len() ==> #[trigger] s.subrange(i, i + d.len() as int) != d,
    ensures
        split_spec(s, d) == seq![s],
    decreases s.len(),
{
    if begins_with(s, d) {
        assert(s.subrange(0, 0 + d.len() as int) == s.take(d.len() as int));
        assert(false);
    }
    if s.len() == 0 {
    } else {
        assert forall|i: int| 0 <= i <= s.skip(1).len() - d.len() implies #[trigger] s.skip(
            1,
        ).subrange(i, i + d.len() as int) != d by {
            assert(s.skip(1).subrange(i, i + d.len() as int) =~= s.subrange(
                i + 1,
                i + 1 + d.len() as int,
            ));
        }
        lemma_split_no_match(s.skip(1), d);
        let rest = split_spec(s.skip(1), d);
        assert(rest == seq![s.skip(1)]);
        assert(seq![s[0]].add(s.skip(1)) =~= s);
        assert(split_spec(s, d) =~= seq![s]);
    }
}

/// Splitting `x + d + y` where `x` never contains the first character of
/// `d`: the split is `x` followed by the split of `y`.
pub proof fn lemma_split_concat(x: Seq<char>, d: Seq<char>, y: Seq<char>)
    requires
        d.len() >= 1,
        forall|i: int| 0 <= i < x.len() ==> x[i] != d[0],
    ensures
        split_spec(x + d + y, d) == seq![x] + split_spec(y, d),
    decreases x.len(),
{
    let s = x + d + y;
    if x.len() == 0 {
        assert(s.take(d.len() as int) =~= d);
        assert(begins_with(s, d));
        assert(s.skip(d.len() as int) =~= y);
        assert(x =~= Seq::<char>::empty());
        assert(split_spec(s, d) == seq![x] + split_spec(y, d));
    } else {
        assert(s[0] == x[0]);
        if begins_with(s, d) {
            assert(s.take(d.len() as int)[0] == d[0]);
            assert(false);
        }
        assert(s.len() > 0);
        assert(s.skip(1) =~= x.skip(1) + d + y);
        lemma_split_concat(x.skip(1), d, y);
        let rest = split_spec(s.skip(1), d);
        lemma_split_len(y, d);
        assert(rest == seq![x.skip(1)] + split_spec(y, d));
        assert(rest[0] == x.skip(1));
        assert(seq![s[0]].add(rest[0]) =~= x);
        assert(rest.skip(1) =~= split_spec(y, d));
        assert(split_spec(s, d) =~= seq![x] + split_spec(y, d));
    }
}

/// Attaching a prefix free of the delimiter's first character extends the
/// first piece of the split and leaves the rest alone.
pub proof fn lemma_split_prefix(x: Seq<char>, s: Seq<char>, d: Seq<char>)
    requires
        d.len() >= 1,
        forall|i: int| 0 <= i < x.len() ==> x[i] != d[0],
    ensures
        split_spec(x + s, d) == seq![x + split_spec(s, d)[0]] + split_spec(s, d).skip(1),
    decreases x.len(),
{
    lemma_split_len(s, d);
    if x.len() == 0 {
        assert(x + s =~= s);
        assert(x + split_spec(s, d)[0] =~= split_spec(s, d)[0]);
        lemma_split_first_rest(s, d);
    } else {
        let t = x + s;
        assert(t[0] == x[0]);
        if begins_with(t, d) {
            assert(t.take(d.len() as int)[0] == d[0]);
            assert(false);
        }
        assert(t.skip(1) =~= x.skip(1) + s);
        lemma_split_prefix(x.skip(1), s, d);
        let rest = split_spec(t.skip(1), d);
        assert(rest[0] == x.skip(1) + split_spec(s, d)[0]);
        assert(seq![t[0]].add(rest[0]) =~= x + split_spec(s, d)[0]);
        assert(rest.skip(1) =~= split_spec(s, d).skip(1));
        assert(split_spec(t, d) =~= seq![x + split_spec(s, d)[0]] + split_spec(s, d).skip(1));
    }
}

/// A split is its first piece followed by the remaining pieces.
pub proof fn lemma_split_first_rest(s: Seq<char>, d: Seq<char>)
    ensures
        split_spec(s, d) == seq![split_spec(s, d)[0]] + split_spec(s, d).skip(1),
{
    lemma_split_len(s, d);
    assert(split_spec(s, d) =~= seq![split_spec(s, d)[0]] + split_spec(s, d).skip(1));
}

/// Whether `d` occurs in `s` at position `at`.
#[verifier::loop_isolation(false)]
pub fn matches_at(s: &Vec<char>, d: &Vec<char>, at: usize) -> (r: bool)
    requires
        at <= s@.len(),
    ensures
        r == begins_with(s@.skip(at as int), d@),
{
    if d.len() > s.len() - at {
        return false;
    }
    let mut j: usize = 0;
    while j < d.len()
        invariant
            j <= d@.len(),
            at + d@.len() <= s@.len(),
            forall|k: int| 0 <= k < j ==> s@[at + k] == d@[k],
        decreases d@.len() - j,
    {
        if s[at + j] != d[j] {
            proof {
                assert(s@.skip(at as int).take(d@.len() as int)[j as int] != d@[j as int]);
            }
            return false;
        }
        j = j + 1;
    }
    proof {
        assert(s@.skip(at as int).take(d@.len() as int) =~= d@);
    }
    true
}

/// Splits `s` on the delimiter `d`, returning the pieces.
#[verifier::loop_isolation(false)]
pub fn split_chars(s: &Vec<char>, d: &Vec<char>) -> (r: Vec<Vec<char>>)
    requires
        d@.len() >= 1,
    ensures
        r@.len() == split_spec(s@, d@).len(),
        forall|k: int| 0 <= k < r@.len() ==> r@[k]@ == split_spec(s@, d@)[k],
{
    let ghost full: Seq<Seq<char>> = split_spec(s@, d@);
    let mut out: Vec<Vec<char>> = Vec::new();
    let mut cur: Vec<char> = Vec::new();
    let mut i: usize = 0;
    proof {
        lemma_split_len(s@, d@);
        assert(s@.skip(0) =~= s@);
    }
    while i < s.len()
        invariant
            i <= s@.len(),
            full.len() == out@.len() + split_spec(s@.skip(i as int), d@).len(),
            forall|k: int| 0 <= k < out@.len() ==> full[k] == out@[k]@,
            full[out@.len() as int] == cur@ + split_spec(s@.skip(i as int), d@)[0],
            forall|k: int|
                1 <= k < split_spec(s@.skip(i as int), d@).len() ==> full[out@.len() + k]
                    == split_spec(s@.skip(i as int), d@)[k],
        decreases s@.len() - i,
    {
        let ghost tail: Seq<Seq<char>> = split_spec(s@.skip(i as int), d@);
        if matches_at(s, d, i) {
            proof {
                lemma_split_len(s@.skip(i as int + d@.len() as int), d@);
                assert(s@.skip(i as int).skip(d@.len() as int) =~= s@.skip(
                    i as int + d@.len() as int,
                ));
                assert(tail == seq![Seq::<char>::empty()].add(
                    split_spec(s@.skip(i as int + d@.len() as int), d@),
                ));
            }
            out.push(cur);
            cur = Vec::new();
            i = i + d.len();
            proof {
                let tail2 = split_spec(s@.skip(i as int), d@);
                assert(tail[0] =~= Seq::<char>::empty());
                assert(full[out@.len() - 1] == out@[out@.len() - 1]@);
                assert(cur@ + tail2[0] =~= tail[1]);
                assert forall|k: int| 1 <= k < tail2.len() implies full[out@.len() + k]
                    == tail2[k] by {
                    assert(tail[k + 1] == tail2[k]);
                }
            }
        } else {
            proof {
                lemma_split_len(s@.skip(i as int + 1), d@);
                assert(s@.skip(i as int).len() > 0);
                assert(s@.skip(i as int).skip(1) =~= s@.skip(i as int + 1));
                let rest = split_spec(s@.skip(i as int + 1), d@);
                assert(tail == seq![seq![s@.skip(i as int)[0]].add(rest[0])].add(rest.skip(1)));
                assert(s@.skip(i as int)[0] == s@[i as int]);
            }
            let c = s[i];
            cur.push(c);
            i = i + 1;
            proof {
                let tail2 = split_spec(s@.skip(i as int), d@);
                assert(tail[0] == seq![s@[i - 1]].add(tail2[0]));
                assert(cur@ + tail2[0] =~= full[out@.len() as int]);
                assert forall|k: int| 1 <= k < tail2.len() implies full[out@.len() + k]
                    == tail2[k] by {
                    assert(tail.skip(1)[k - 1] == tail2.skip(1)[k - 1]);
                    assert(tail[k] == tail2[k]);
                }
            }
        }
    }
    proof {
        assert(s@.skip(i as int) =~= Seq::<char>::empty());
        assert(split_spec(s@.skip(i as int), d@) =~= seq![Seq::<char>::empty()]);
        assert(full[out@.len() as int] == cur@);
    }
    out.push(cur);
    out
}

// ---------------------------------------------------------------------------
// Removing characters
// ---------------------------------------------------------------------------
/// `s` with every occurrence of a character of `bad` removed.
pub open spec fn remove_chars(s: Seq<char>, bad: Seq<char>) -> Seq<char>
    decreases s.len(),
{
    if s.len() == 0 {
        s
    } else if bad.contains(s[0]) {
        remove_chars(s.skip(1), bad)
    } else {
        seq![s[0]] + remove_chars(s.skip(1), bad)
    }
}

/// Removal distributes over concatenation.
pub proof fn lemma_remove_chars_concat(a: Seq<char>, b: Seq<char>, bad: Seq<char>)
    ensures
        remove_chars(a + b, bad) == remove_chars(a, bad) + remove_chars(b, bad),
    decreases a.len(),
{
    if a.len() == 0 {
        assert(a + b =~= b);
        assert(remove_chars(a, bad) + remove_chars(b, bad) =~= remove_chars(b, bad));
    } else {
        assert((a + b).skip(1) =~= a.skip(1) + b);
        lemma_remove_chars_concat(a.skip(1), b, bad);
        assert((a + b)[0] == a[0]);
        if !bad.contains(a[0]) {
            assert(seq![a[0]] + (remove_chars(a.skip(1), bad) + remove_chars(b, bad)) =~= (
            seq![a[0]] + remove_chars(a.skip(1), bad)) + remove_chars(b, bad));
        }
    }
}

/// Removing characters that never occur changes nothing.
pub proof fn lemma_remove_chars_none(s: Seq<char>, bad: Seq<char>)
    requires
        forall|i: int| 0 <= i < s.len() ==> !bad.contains(s[i]),
    ensures
        remove_chars(s, bad) == s,
    decreases s.len(),
{
    if s.len() > 0 {
        assert(!bad.contains(s[0]));
        lemma_remove_chars_none(s.skip(1), bad);
        assert(seq![s[0]] + s.skip(1) =~= s);
    }
}

/// Removes every character of `bad` from `s`.
#[verifier::loop_isolation(false)]
pub fn remove_chars_exec(s: &Vec<char>, bad: &Vec<char>) -> (r: Vec<char>)
    ensures
        r@ == remove_chars(s@, bad@),
{
    let mut r: Vec<char> = Vec::new();
    let mut i: usize = 0;
    proof {
        assert(s@.skip(0) =~= s@);
    }
    while i < s.len()
        invariant
            i <= s@.len(),
            remove_chars(s@, bad@) == r@ + remove_chars(s@.skip(i as int), bad@),
        decreases s@.len() - i,
    {
        let ghost tail: Seq<char> = s@.skip(i as int);
        proof {
            assert(tail[0] == s@[i as int]);
            assert(tail.skip(1) =~= s@.skip(i as int + 1));
        }
        let c = s[i];
        if !contains_char(bad, c) {
            r.push(c);
            proof {
                assert(remove_chars(tail, bad@) == seq![c] + remove_chars(tail.skip(1), bad@));
                assert(r@ + remove_chars(s@.skip(i as int + 1), bad@) =~= remove_chars(s@, bad@));
            }
        } else {
            proof {
                assert(remove_chars(tail, bad@) == remove_chars(tail.skip(1), bad@));
            }
        }
        i = i + 1;
    }
    proof {
        assert(s@.skip(i as int) =~= Seq::<char>::empty());
        assert(r@ + remove_chars(s@.skip(i as int), bad@) =~= r@);
    }
    r
}

/// Whether `v` contains the character `c`.
#[verifier::loop_isolation(false)]
pub fn contains_char(v: &Vec<char>, c: char) -> (r: bool)
    ensures
        r == v@.contains(c),
{
    let mut i: usize = 0;
    while i < v.len()
        invariant
            i <= v@.len(),
            forall|j: int| 0 <= j < i ==> v@[j] != c,
        decreases v@.len() - i,
    {
        if v[i] == c {
            return true;
        }
        i = i + 1;
    }
    false
}

// ---------------------------------------------------------------------------
// Decimal rendering and parsing
// ---------------------------------------------------------------------------
/// The decimal digit characters, as a spec-level map from value to character.
pub open spec fn digit_char(d: int) -> char {
    if d == 0 {
        '0'
    } else if d == 1 {
        '1'
    } else if d == 2 {
        '2'
    } else if d == 3 {
        '3'
    } else if d == 4 {
        '4'
    } else if d == 5 {
        '5'
    } else if d == 6 {
        '6'
    } else if d == 7 {
        '7'
    } else if d == 8 {
        '8'
    } else {
        '9'
    }
}

/// Whether `c` is a decimal digit.
pub open spec fn is_digit(c: char) -> bool {
    c == '0' || c == '1' || c == '2' || c == '3' || c == '4' || c == '5' || c == '6' || c == '7'
        || c == '8' || c == '9'
}

/// The value of a digit character; 10 marks a non-digit.
pub open spec fn digit_val(c: char) -> int {
    if c == '0' {
        0
    } else if c == '1' {
        1
    } else if c == '2' {
        2
    } else if c == '3' {
        3
    } else if c == '4' {
        4
    } else if c == '5' {
        5
    } else if c == '6' {
        6
    } else if c == '7' {
        7
    } else if c == '8' {
        8
    } else if c == '9' {
        9
    } else {
        10
    }
}

/// The decimal rendering of `n`, most significant digit first.
pub open spec fn dec_str(n: int) -> Seq<char>
    decreases n,
{
    if n < 10 {
        seq![digit_char(n)]
    } else {
        dec_str(n / 10).push(digit_char(n % 10))
    }
}

/// The number a digit string denotes, read most significant digit first.
pub open spec fn dec_val(s: Seq<char>) -> int
    decreases s.len(),
{
    if s.len() == 0 {
        0
    } else {
        dec_val(s.drop_last()) * 10 + digit_val(s.last())
    }
}

pub open spec fn all_digits(s: Seq<char>) -> bool {
    forall|i: int| 0 <= i < s.len() ==> is_digit(s[i])
}

/// What parsing a decimal string as a 64-bit number yields: the denoted
/// value when the string is non-empty, all digits, and in range; nothing
/// otherwise.
pub open spec fn parse_dec(s: Seq<char>) -> Option<u64> {
    if s.len() > 0 && all_digits(s) && dec_val(s) <= u64::MAX {
        Some(dec_val(s) as u64)
    } else {
        None
    }
}

/// A decimal rendering consists of digits only and denotes the number it
/// renders.
pub proof fn lemma_dec_str_digits(n: int)
    requires
        n >= 0,
    ensures
        dec_str(n).len() >= 1,
        all_digits(dec_str(n)),
        dec_val(dec_str(n)) == n,
    decreases n,
{
    if n < 10 {
        assert(dec_str(n) == seq![digit_char(n)]);
        assert(dec_val(dec_str(n).drop_last()) == 0) by {
            assert(dec_str(n).drop_last() =~= Seq::<char>::empty());
        }
    } else {
        lemma_dec_str_digits(n / 10);
        let s = dec_str(n);
        assert(s == dec_str(n / 10).push(digit_char(n % 10)));
        assert(s.drop_last() =~= dec_str(n / 10));
        assert(s.last() == digit_char(n % 10));
        assert(0 <= n % 10 < 10);
        assert(forall|i: int| 0 <= i < s.len() - 1 ==> s[i] == dec_str(n / 10)[i]);
        assert(all_digits(s));
        assert(dec_val(s) == (n / 10) * 10 + n % 10);
        assert((n / 10) * 10 + n % 10 == n) by (nonlinear_arith);
    }
}

pub proof fn lemma_dec_val_nonneg(s: Seq<char>)
    ensures
        dec_val(s) >= 0,
    decreases s.len(),
{
    if s.len() > 0 {
        lemma_dec_val_nonneg(s.drop_last());
        assert(digit_val(s.last()) >= 0);
    }
}

/// The value of a prefix never exceeds the value of the whole string.
pub proof fn lemma_dec_val_prefix(s: Seq<char>, i: int)
    requires
        0 <= i <= s.len(),
    ensures
        dec_val(s.take(i)) <= dec_val(s),
    decreases s.len() - i,
{
    if i < s.len() {
        lemma_dec_val_prefix(s, i + 1);
        let t = s.take(i + 1);
        assert(t.drop_last() =~= s.take(i));
        lemma_dec_val_nonneg(s.take(i));
        assert(dec_val(t) == dec_val(s.take(i)) * 10 + digit_val(t.last()));
        assert(dec_val(s.take(i)) * 10 >= dec_val(s.take(i)));
    } else {
        assert(s.take(i) =~= s);
    }
}

/// The digit for a value below ten.
pub fn digit_exec(d: u64) -> (c: char)
    requires
        d < 10,
    ensures
        c == digit_char(d as int),
{
    if d == 0 {
        '0'
    } else if d == 1 {
        '1'
    } else if d == 2 {
        '2'
    } else if d == 3 {
        '3'
    } else if d == 4 {
        '4'
    } else if d == 5 {
        '5'
    } else if d == 6 {
        '6'
    } else if d == 7 {
        '7'
    } else if d == 8 {
        '8'
    } else {
        '9'
    }
}

/// The value of a digit character, or nothing for any other character.
pub fn digit_of(c: char) -> (r: Option<u64>)
    ensures
        r is Some <==> is_digit(c),
        r matches Some(d) ==> d == digit_val(c),
{
    match c {
        '0' => Some(0),
        '1' => Some(1),
        '2' => Some(2),
        '3' => Some(3),
        '4' => Some(4),
        '5' => Some(5),
        '6' => Some(6),
        '7' => Some(7),
        '8' => Some(8),
        '9' => Some(9),
        _ => None,
    }
}

/// Renders `n` in decimal.
pub fn u64_to_dec(n: u64) -> (r: String)
    ensures
        r@ == dec_str(n as int),
    decreases n,
{
    if n < 10 {
        let mut s = String::new();
        s.push(digit_exec(n));
        proof {
            assert(s@ =~= seq![digit_char(n as int)]);
        }
        s
    } else {
        let mut s = u64_to_dec(n / 10);
        s.push(digit_exec(n % 10));
        s
    }
}

/// Parses a decimal digit string as a 64-bit number; yields nothing on an
/// empty string, a non-digit character, or overflow.
#[verifier::loop_isolation(false)]
pub fn parse_u64(s: &Vec<char>) -> (r: Option<u64>)
    ensures
        r == parse_dec(s@),
{
    if s.len() == 0 {
        return None;
    }
    let mut acc: u64 = 0;
    let mut i: usize = 0;
    proof {
        assert(s@.take(0) =~= Seq::<char>::empty());
    }
    while i < s.len()
        invariant
            i <= s@.len(),
            all_digits(s@.take(i as int)),
            acc == dec_val(s@.take(i as int)),
        decreases s@.len() - i,
    {
        let ghost t: Seq<char> = s@.take(i as int + 1);
        proof {
            assert(t.drop_last() =~= s@.take(i as int));
            assert(t.last() == s@[i as int]);
        }
        match digit_of(s[i]) {
            None => {
                proof {
                    assert(!is_digit(s@[i as int]));
                    assert(!all_digits(s@));
                }
                return None;
            },
            Some(d) => {
                let wide: u128 = acc as u128 * 10 + d as u128;
                proof {
                    assert(wide == dec_val(t));
                }
                if wide > u64::MAX as u128 {
                    proof {
                        lemma_dec_val_prefix(s@, i as int + 1);
                        assert(dec_val(s@) > u64::MAX);
                    }
                    return None;
                }
                acc = wide as u64;
                i = i + 1;
            },
        }
    }
    proof {
        assert(s@.take(i as int) =~= s@);
    }
    Some(acc)
}

} // verus!
