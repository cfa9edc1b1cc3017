use vstd::prelude::*;
use vstd::std_specs::iter::IteratorSpec;

verus! {

// ---------------------------------------------------------------------------
// Characters and strings
// ---------------------------------------------------------------------------

/// `String::push`: the string afterwards is the old one with `c` appended.
#[verifier::external_body]
fn push_char(s: &mut String, c: char)
    ensures
        final(s)@ == old(s)@.push(c),
{
    s.push(c);
}

/// The characters of `s`, in order.
pub fn chars_of(s: &str) -> (v: Vec<char>)
    ensures
        v@ == s@,
{
    let mut v: Vec<char> = Vec::new();
    for c in it: s.chars()
        invariant
            v@ == it.seq().take(it.index() as int),
    {
        v.push(c);
    }
    v
}

/// A `String` holding exactly the characters of `v`.
pub fn string_of(v: &[char]) -> (s: String)
    ensures
        s@ == v@,
{
    let mut s = String::new();
    let mut i: usize = 0;
    while i < v.len()
        invariant
            i <= v@.len(),
            s@ == v@.subrange(0, i as int),
        decreases v@.len() - i,
    {
        push_char(&mut s, v[i]);
        i = i + 1;
    }
    s
}

/// A `String` holding the characters of `v` from `lo` up to (not including) `hi`.
pub fn string_of_range(v: &Vec<char>, lo: usize, hi: usize) -> (s: String)
    requires
        lo <= hi <= v@.len(),
    ensures
        s@ == v@.subrange(lo as int, hi as int),
{
    let mut s = String::new();
    let mut i: usize = lo;
    while i < hi
        invariant
            lo <= i <= hi <= v@.len(),
            s@ == v@.subrange(lo as int, i as int),
        decreases hi - i,
    {
        push_char(&mut s, v[i]);
        i = i + 1;
    }
    s
}

/// `s` followed by the characters of `v`.
pub fn append_chars(s: &mut String, v: &Vec<char>)
    ensures
        final(s)@ == old(s)@ + v@,
{
    let mut i: usize = 0;
    while i < v.len()
        invariant
            i <= v@.len(),
            s@ == old(s)@ + v@.subrange(0, i as int),
        decreases v@.len() - i,
    {
        push_char(s, v[i]);
        i = i + 1;
    }
}

/// Whether `v` and `w` hold the same characters.
pub fn chars_eq(v: &Vec<char>, w: &Vec<char>) -> (b: bool)
    ensures
        b == (v@ == w@),
{
    if v.len() != w.len() {
        return false;
    }
    let mut i: usize = 0;
    while i < v.len()
        invariant
            v@.len() == w@.len(),
            i <= v@.len(),
            forall|k: int| 0 <= k < i ==> v@[k] == w@[k],
        decreases v@.len() - i,
    {
        if v[i] != w[i] {
            return false;
        }
        i = i + 1;
    }
    assert(v@ =~= w@);
    true
}

/// Whether the characters of `v` from position `lo` on begin with `w`.
pub fn chars_at(v: &Vec<char>, lo: usize, w: &Vec<char>) -> (b: bool)
    requires
        lo <= v@.len(),
    ensures
        b == (w@.len() <= v@.len() - lo && v@.subrange(lo as int, lo + w@.len()) == w@),
{
    let n = v.len();
    if w.len() > n - lo {
        return false;
    }
    let mut i: usize = 0;
    while i < w.len()
        invariant
            n == v@.len(),
            lo + w@.len() <= v@.len(),
            i <= w@.len(),
            forall|k: int| 0 <= k < i ==> v@[lo + k] == w@[k],
        decreases w@.len() - i,
    {
        if v[lo + i] != w[i] {
            assert(v@.subrange(lo as int, lo + w@.len())[i as int] != w@[i as int]);
            return false;
        }
        i = i + 1;
    }
    assert(v@.subrange(lo as int, lo + w@.len()) =~= w@);
    true
}

// ---------------------------------------------------------------------------
// Searching
// ---------------------------------------------------------------------------

/// `i` is the position of the first `c` in `s`.
pub open spec fn is_first_index_of(s: Seq<char>, c: char, i: int) -> bool {
    &&& 0 <= i < s.len()
    &&& s[i] == c
    &&& forall|j: int| 0 <= j < i ==> s[j] != c
}

/// `i` is the position of the last `c` in `s`.
pub open spec fn is_last_index_of(s: Seq<char>, c: char, i: int) -> bool {
    &&& 0 <= i < s.len()
    &&& s[i] == c
    &&& forall|j: int| i < j < s.len() ==> s[j] != c
}

/// `s` split at its first `c`: what stands before it and what stands after it.
pub open spec fn split_once(s: Seq<char>, c: char) -> Option<(Seq<char>, Seq<char>)> {
    if exists|i: int| is_first_index_of(s, c, i) {
        let i = choose|i: int| is_first_index_of(s, c, i);
        Some((s.subrange(0, i), s.subrange(i + 1, s.len() as int)))
    } else {
        None
    }
}

/// What stands before the first `c` in `s`, or all of `s` when it holds none.
pub open spec fn before_first(s: Seq<char>, c: char) -> Seq<char> {
    match split_once(s, c) {
        Some((head, _)) => head,
        None => s,
    }
}

/// What stands after the last `c` in `s`, or all of `s` when it holds none.
pub open spec fn after_last(s: Seq<char>, c: char) -> Seq<char> {
    if exists|i: int| is_last_index_of(s, c, i) {
        let i = choose|i: int| is_last_index_of(s, c, i);
        s.subrange(i + 1, s.len() as int)
    } else {
        s
    }
}

/// The position of the first `c` in `v` at or after `lo` and before `hi`.
pub fn find_first(v: &Vec<char>, lo: usize, hi: usize, c: char) -> (r: Option<usize>)
    requires
        lo <= hi <= v@.len(),
    ensures
        match r {
            Some(k) => lo <= k < hi && is_first_index_of(
                v@.subrange(lo as int, hi as int),
                c,
                k - lo,
            ),
            None => forall|k: int| lo <= k < hi ==> v@[k] != c,
        },
{
    let mut i: usize = lo;
    while i < hi
        invariant
            lo <= i <= hi <= v@.len(),
            forall|k: int| lo <= k < i ==> v@[k] != c,
        decreases hi - i,
    {
        if v[i] == c {
            return Some(i);
        }
        i = i + 1;
    }
    None
}

/// The position of the last `c` in `v`.
pub fn find_last(v: &Vec<char>, c: char) -> (r: Option<usize>)
    ensures
        match r {
            Some(k) => is_last_index_of(v@, c, k as int),
            None => forall|k: int| 0 <= k < v@.len() ==> v@[k] != c,
        },
{
    let mut i: usize = v.len();
    while i > 0
        invariant
            i <= v@.len(),
            forall|k: int| i <= k < v@.len() ==> v@[k] != c,
        decreases i,
    {
        if v[i - 1] == c {
            return Some(i - 1);
        }
        i = i - 1;
    }
    None
}

/// A first position is unique.
pub proof fn lemma_first_index_unique(s: Seq<char>, c: char, i: int, j: int)
    requires
        is_first_index_of(s, c, i),
        is_first_index_of(s, c, j),
    ensures
        i == j,
{
}

/// A character that occurs has a first position.
pub proof fn lemma_first_exists(s: Seq<char>, c: char, k: int)
    requires
        0 <= k < s.len(),
        s[k] == c,
    ensures
        exists|i: int| is_first_index_of(s, c, i),
    decreases k,
{
    if exists|j: int| 0 <= j < k && s[j] == c {
        let j = choose|j: int| 0 <= j < k && s[j] == c;
        lemma_first_exists(s, c, j);
    } else {
        assert(is_first_index_of(s, c, k));
    }
}

/// A character that occurs has a last position.
pub proof fn lemma_last_exists(s: Seq<char>, c: char, k: int)
    requires
        0 <= k < s.len(),
        s[k] == c,
    ensures
        exists|i: int| is_last_index_of(s, c, i),
    decreases s.len() - k,
{
    if exists|j: int| k < j < s.len() && s[j] == c {
        let j = choose|j: int| k < j < s.len() && s[j] == c;
        lemma_last_exists(s, c, j);
    } else {
        assert(is_last_index_of(s, c, k));
    }
}

/// `split_once` splits at the position that a scan finds.
pub proof fn lemma_split_once_at(s: Seq<char>, c: char, i: int)
    requires
        is_first_index_of(s, c, i),
    ensures
        split_once(s, c) == Some((s.subrange(0, i), s.subrange(i + 1, s.len() as int))),
{
    let k = choose|k: int| is_first_index_of(s, c, k);
    lemma_first_index_unique(s, c, i, k);
}

/// `split_once` finds nothing in a sequence without `c`.
pub proof fn lemma_split_once_none(s: Seq<char>, c: char)
    requires
        forall|k: int| 0 <= k < s.len() ==> s[k] != c,
    ensures
        split_once(s, c) is None,
{
}

/// `after_last` cuts after the position that a backward scan finds.
pub proof fn lemma_after_last_at(s: Seq<char>, c: char, i: int)
    requires
        is_last_index_of(s, c, i),
    ensures
        after_last(s, c) == s.subrange(i + 1, s.len() as int),
{
    let k = choose|k: int| is_last_index_of(s, c, k);
    assert(k == i);
}

// ---------------------------------------------------------------------------
// Whitespace and trimming
// ---------------------------------------------------------------------------

/// Unicode `White_Space`, the set that `char::is_whitespace` tests.
pub open spec fn is_unicode_whitespace(c: char) -> bool {
    let u = c as u32;
    ||| 0x9 <= u <= 0xd
    ||| u == 0x20
    ||| u == 0x85
    ||| u == 0xa0
    ||| u == 0x1680
    ||| 0x2000 <= u <= 0x200a
    ||| u == 0x2028
    ||| u == 0x2029
    ||| u == 0x202f
    ||| u == 0x205f
    ||| u == 0x3000
}

/// Whether `c` is Unicode whitespace.
pub fn is_whitespace(c: char) -> (b: bool)
    ensures
        b == is_unicode_whitespace(c),
{
    let u = c as u32;
    (0x9 <= u && u <= 0xd) || u == 0x20 || u == 0x85 || u == 0xa0 || u == 0x1680 || (0x2000 <= u
        && u <= 0x200a) || u == 0x2028 || u == 0x2029 || u == 0x202f || u == 0x205f || u == 0x3000
}

/// `s` without its leading whitespace.
pub open spec fn trim_start_chars(s: Seq<char>) -> Seq<char>
    decreases s.len(),
{
    if s.len() > 0 && is_unicode_whitespace(s[0]) {
        trim_start_chars(s.drop_first())
    } else {
        s
    }
}

/// `s` without its trailing whitespace.
pub open spec fn trim_end_chars(s: Seq<char>) -> Seq<char>
    decreases s.len(),
{
    if s.len() > 0 && is_unicode_whitespace(s.last()) {
        trim_end_chars(s.drop_last())
    } else {
        s
    }
}

/// `s` without leading and trailing whitespace (what `str::trim` gives).
pub open spec fn trimmed(s: Seq<char>) -> Seq<char> {
    trim_end_chars(trim_start_chars(s))
}

proof fn lemma_trim_start_from(s: Seq<char>, lo: int)
    requires
        0 <= lo <= s.len(),
        forall|k: int| 0 <= k < lo ==> is_unicode_whitespace(s[k]),
    ensures
        trim_start_chars(s) == trim_start_chars(s.subrange(lo, s.len() as int)),
    decreases lo,
{
    if lo > 0 {
        assert(s.drop_first().subrange(lo - 1, s.drop_first().len() as int) =~= s.subrange(
            lo,
            s.len() as int,
        ));
        lemma_trim_start_from(s.drop_first(), lo - 1);
    } else {
        assert(s.subrange(0, s.len() as int) =~= s);
    }
}

proof fn lemma_trim_end_to(s: Seq<char>, hi: int)
    requires
        0 <= hi <= s.len(),
        forall|k: int| hi <= k < s.len() ==> is_unicode_whitespace(s[k]),
    ensures
        trim_end_chars(s) == trim_end_chars(s.subrange(0, hi)),
    decreases s.len() - hi,
{
    if hi < s.len() {
        assert(s.drop_last().subrange(0, hi) =~= s.subrange(0, hi));
        lemma_trim_end_to(s.drop_last(), hi);
    } else {
        assert(s.subrange(0, hi) =~= s);
    }
}

/// The characters of `v` without leading and trailing whitespace.
pub fn trim_chars(v: &Vec<char>) -> (r: Vec<char>)
    ensures
        r@ == trimmed(v@),
{
    let n = v.len();
    let mut lo: usize = 0;
    while lo < n && is_whitespace(v[lo])
        invariant
            n == v@.len(),
            lo <= n,
            forall|k: int| 0 <= k < lo ==> is_unicode_whitespace(v@[k]),
        decreases n - lo,
    {
        lo = lo + 1;
    }
    let ghost rest = v@.subrange(lo as int, n as int);
    proof {
        lemma_trim_start_from(v@, lo as int);
        assert(trim_start_chars(rest) == rest);
    }
    let mut hi: usize = n;
    while hi > lo && is_whitespace(v[hi - 1])
        invariant
            n == v@.len(),
            lo <= hi <= n,
            forall|k: int| hi <= k < n ==> is_unicode_whitespace(v@[k]),
        decreases hi,
    {
        hi = hi - 1;
    }
    proof {
        lemma_trim_end_to(rest, hi - lo);
        assert(rest.subrange(0, hi - lo) =~= v@.subrange(lo as int, hi as int));
        let kept = v@.subrange(lo as int, hi as int);
        assert(trim_end_chars(kept) == kept);
    }
    let mut r: Vec<char> = Vec::new();
    let mut i: usize = lo;
    while i < hi
        invariant
            lo <= i <= hi <= n == v@.len(),
            r@ == v@.subrange(lo as int, i as int),
        decreases hi - i,
    {
        r.push(v[i]);
        i = i + 1;
    }
    r
}

/// `s` without leading and trailing whitespace, as `str::trim` leaves it.
pub fn trim(s: &str) -> (r: String)
    ensures
        r@ == trimmed(s@),
{
    let v = chars_of(s);
    let t = trim_chars(&v);
    string_of(&t)
}

/// Trimmed text has no whitespace at either end.
pub proof fn lemma_trimmed_ends(s: Seq<char>)
    ensures
        trimmed(s).len() > 0 ==> !is_unicode_whitespace(trimmed(s)[0]),
        trimmed(s).len() > 0 ==> !is_unicode_whitespace(trimmed(s).last()),
{
    lemma_trim_start_first(s);
    lemma_trim_end_prefix(trim_start_chars(s));
    lemma_trim_end_last(trim_start_chars(s));
}

proof fn lemma_trim_start_first(s: Seq<char>)
    ensures
        trim_start_chars(s).len() > 0 ==> !is_unicode_whitespace(trim_start_chars(s)[0]),
    decreases s.len(),
{
    if s.len() > 0 && is_unicode_whitespace(s[0]) {
        lemma_trim_start_first(s.drop_first());
    }
}

proof fn lemma_trim_end_last(s: Seq<char>)
    ensures
        trim_end_chars(s).len() > 0 ==> !is_unicode_whitespace(trim_end_chars(s).last()),
    decreases s.len(),
{
    if s.len() > 0 && is_unicode_whitespace(s.last()) {
        lemma_trim_end_last(s.drop_last());
    }
}

proof fn lemma_trim_end_prefix(s: Seq<char>)
    ensures
        trim_end_chars(s).len() <= s.len(),
        trim_end_chars(s) == s.subrange(0, trim_end_chars(s).len() as int),
    decreases s.len(),
{
    if s.len() > 0 && is_unicode_whitespace(s.last()) {
        lemma_trim_end_prefix(s.drop_last());
        assert(s.drop_last().subrange(0, trim_end_chars(s).len() as int) =~= s.subrange(
            0,
            trim_end_chars(s).len() as int,
        ));
    } else {
        assert(s.subrange(0, s.len() as int) =~= s);
    }
}

/// Trimming twice gives what trimming once gives.
pub proof fn lemma_trim_idempotent(s: Seq<char>)
    ensures
        trimmed(trimmed(s)) == trimmed(s),
{
    let t = trimmed(s);
    lemma_trimmed_ends(s);
    if t.len() > 0 {
        assert(trim_start_chars(t) == t);
        assert(trim_end_chars(t) == t);
    } else {
        assert(trim_start_chars(t) == t);
        assert(trim_end_chars(t) == t);
    }
}

// ---------------------------------------------------------------------------
// Decimal numbers
// ---------------------------------------------------------------------------

/// The decimal digit for `d` (below ten).
pub open spec fn digit_char(d: nat) -> char {
    (d + 48) as char
}

/// Whether `c` is an ASCII decimal digit.
pub open spec fn is_digit(c: char) -> bool {
    '0' <= c && c <= '9'
}

/// The value of the decimal digit `c`.
pub open spec fn digit_value(c: char) -> nat {
    (c as u32 - 48) as nat
}

/// The decimal notation of `n`, without sign or leading zeros.
pub open spec fn decimal_chars(n: nat) -> Seq<char>
    decreases n,
{
    if n < 10 {
        seq![digit_char(n)]
    } else {
        decimal_chars(n / 10).push(digit_char(n % 10))
    }
}

/// The decimal notation of `n`, with zeros in front up to `width` characters (what `{:0width}` writes).
pub open spec fn zero_padded(n: nat, width: nat) -> Seq<char> {
    let d = decimal_chars(n);
    if d.len() < width {
        Seq::new((width - d.len()) as nat, |_i: int| '0') + d
    } else {
        d
    }
}

/// The value of a sequence of decimal digits.
pub open spec fn digits_value(s: Seq<char>) -> nat
    decreases s.len(),
{
    if s.len() == 0 {
        0
    } else {
        digits_value(s.drop_last()) * 10 + digit_value(s.last())
    }
}

/// Every character of `s` is a decimal digit.
pub open spec fn all_digits(s: Seq<char>) -> bool {
    forall|i: int| 0 <= i < s.len() ==> is_digit(#[trigger] s[i])
}

/// What `str::parse::<u32>` gives for `s`: an optional `+`, then one or more
/// decimal digits whose value fits in a `u32`.
pub open spec fn parse_u32_spec(s: Seq<char>) -> Option<u32> {
    let digits = if s.len() > 0 && s[0] == '+' {
        s.drop_first()
    } else {
        s
    };
    if digits.len() > 0 && all_digits(digits) && digits_value(digits) <= u32::MAX {
        Some(digits_value(digits) as u32)
    } else {
        None
    }
}

fn digit_to_char(d: u64) -> (c: char)
    requires
        d < 10,
    ensures
        c == digit_char(d as nat),
{
    ((d as u8) + 48u8) as char
}

/// Pushes the decimal notation of `n` onto `v`.
pub fn push_decimal(v: &mut Vec<char>, n: u64)
    ensures
        final(v)@ == old(v)@ + decimal_chars(n as nat),
    decreases n,
{
    if n >= 10 {
        push_decimal(v, n / 10);
    }
    v.push(digit_to_char(n % 10));
    proof {
        if n >= 10 {
            assert(old(v)@ + decimal_chars(n as nat) =~= old(v)@ + decimal_chars((n / 10) as nat)
                + seq![digit_char((n % 10) as nat)]);
        } else {
            assert(decimal_chars(n as nat) == seq![digit_char(n as nat)]);
        }
    }
}

/// Pushes `n` in decimal onto `v`, with zeros in front up to `width` characters.
pub fn push_zero_padded(v: &mut Vec<char>, n: u64, width: usize)
    ensures
        final(v)@ == old(v)@ + zero_padded(n as nat, width as nat),
{
    let mut digits: Vec<char> = Vec::new();
    push_decimal(&mut digits, n);
    assert(digits@ =~= decimal_chars(n as nat));
    if digits.len() < width {
        let pad = width - digits.len();
        let mut i: usize = 0;
        while i < pad
            invariant
                i <= pad,
                v@ == old(v)@ + Seq::new(i as nat, |_i: int| '0'),
            decreases pad - i,
        {
            v.push('0');
            i = i + 1;
            assert(v@ =~= old(v)@ + Seq::new(i as nat, |_i: int| '0'));
        }
        append_vec(v, &digits);
        assert(v@ =~= old(v)@ + zero_padded(n as nat, width as nat));
    } else {
        append_vec(v, &digits);
    }
}

/// `v` followed by the characters of `w`.
pub fn append_vec(v: &mut Vec<char>, w: &Vec<char>)
    ensures
        final(v)@ == old(v)@ + w@,
{
    let mut i: usize = 0;
    while i < w.len()
        invariant
            i <= w@.len(),
            v@ == old(v)@ + w@.subrange(0, i as int),
        decreases w@.len() - i,
    {
        v.push(w[i]);
        i = i + 1;
        assert(v@ =~= old(v)@ + w@.subrange(0, i as int));
    }
    assert(w@.subrange(0, w@.len() as int) =~= w@);
}

proof fn lemma_digits_value_grows(s: Seq<char>, k: int)
    requires
        0 <= k <= s.len(),
    ensures
        digits_value(s.subrange(0, k)) <= digits_value(s),
    decreases s.len() - k,
{
    if k < s.len() {
        lemma_digits_value_grows(s.drop_last(), k);
        assert(s.drop_last().subrange(0, k) =~= s.subrange(0, k));
    } else {
        assert(s.subrange(0, k) =~= s);
    }
}

/// The value of the decimal number in `v` from `lo` up to `hi`, as `str::parse::<u32>` reads it.
pub fn parse_u32_range(v: &Vec<char>, lo: usize, hi: usize) -> (r: Option<u32>)
    requires
        lo <= hi <= v@.len(),
    ensures
        r == parse_u32_spec(v@.subrange(lo as int, hi as int)),
{
    let ghost s = v@.subrange(lo as int, hi as int);
    let mut start = lo;
    if lo < hi && v[lo] == '+' {
        start = lo + 1;
    }
    let ghost digits = v@.subrange(start as int, hi as int);
    assert(digits =~= (if s.len() > 0 && s[0] == '+' {
        s.drop_first()
    } else {
        s
    }));
    if start == hi {
        return None;
    }
    assert(parse_u32_spec(s) == (if all_digits(digits) && digits_value(digits) <= u32::MAX {
        Some(digits_value(digits) as u32)
    } else {
        None
    }));
    let mut acc: u32 = 0;
    let mut i: usize = start;
    while i < hi
        invariant
            lo <= start <= i <= hi <= v@.len(),
            start < hi,
            digits == v@.subrange(start as int, hi as int),
            parse_u32_spec(v@.subrange(lo as int, hi as int)) == (if all_digits(digits)
                && digits_value(digits) <= u32::MAX {
                Some(digits_value(digits) as u32)
            } else {
                None
            }),
            all_digits(v@.subrange(start as int, i as int)),
            acc as nat == digits_value(v@.subrange(start as int, i as int)),
        decreases hi - i,
    {
        let c = v[i];
        let ghost pre = v@.subrange(start as int, i as int);
        let ghost next = v@.subrange(start as int, i + 1);
        assert(next.drop_last() =~= pre);
        assert(next.last() == c);
        if !('0' <= c && c <= '9') {
            assert(digits[i - start] == c);
            return None;
        }
        let d = c as u32 - 48;
        assert(digits_value(next) == acc * 10 + d);
        if acc > (u32::MAX - d) / 10 {
            proof {
                assert(next =~= digits.subrange(0, i + 1 - start));
                lemma_digits_value_grows(digits, i + 1 - start);
            }
            return None;
        }
        acc = acc * 10 + d;
        i = i + 1;
        assert(all_digits(v@.subrange(start as int, i as int)));
    }
    Some(acc)
}

/// A digit below ten is written as the character that reads back as it.
pub proof fn lemma_digit_char(k: nat)
    requires
        k < 10,
    ensures
        is_digit(digit_char(k)),
        digit_value(digit_char(k)) == k,
{
}

/// Like `str::parse::<u32>`, a single leading `+` is allowed and changes nothing, a leading `-`
/// is refused, and empty text is refused.
pub proof fn lemma_parse_u32_signs(s: Seq<char>)
    ensures
        s.len() > 0 && s[0] != '+' ==> parse_u32_spec(seq!['+'] + s) == parse_u32_spec(s),
        parse_u32_spec(seq!['-'] + s) is None,
        parse_u32_spec(Seq::<char>::empty()) is None,
        parse_u32_spec(seq!['+']) is None,
{
    assert((seq!['+'] + s).drop_first() =~= s);
    assert((seq!['-'] + s)[0] == '-');
    assert(!is_digit('-'));
}

/// Reading back the decimal notation of a `u32` gives the number.
pub proof fn lemma_parse_decimal_roundtrip(n: u32)
    ensures
        parse_u32_spec(decimal_chars(n as nat)) == Some(n),
{
    lemma_decimal_digits(n as nat);
    let d = decimal_chars(n as nat);
    assert(d[0] != '+');
}

/// The decimal notation is made of digits, begins with no `+`, and reads back as the number.
pub proof fn lemma_decimal_digits(n: nat)
    ensures
        decimal_chars(n).len() > 0,
        all_digits(decimal_chars(n)),
        digits_value(decimal_chars(n)) == n,
    decreases n,
{
    lemma_digit_char((n % 10) as nat);
    if n >= 10 {
        lemma_decimal_digits(n / 10);
        let d = decimal_chars(n);
        assert(d.drop_last() =~= decimal_chars(n / 10));
        assert(d.last() == digit_char((n % 10) as nat));
        assert(digits_value(d) == digits_value(decimal_chars(n / 10)) * 10 + n % 10);
        assert forall|i: int| 0 <= i < d.len() implies is_digit(#[trigger] d[i]) by {
            if i < d.len() - 1 {
                assert(d[i] == decimal_chars(n / 10)[i]);
            }
        }
    } else {
        let d = decimal_chars(n);
        assert(d.drop_last() =~= Seq::<char>::empty());
        assert(digits_value(d.drop_last()) == 0);
    }
}

proof fn lemma_trim_start_push(s: Seq<char>, c: char)
    ensures
        trim_start_chars(s.push(c)) == if trim_start_chars(s).len() > 0 {
            trim_start_chars(s).push(c)
        } else {
            trim_start_chars(seq![c])
        },
    decreases s.len(),
{
    if s.len() > 0 {
        assert(s.push(c).drop_first() =~= s.drop_first().push(c));
        assert(s.push(c)[0] == s[0]);
        if is_unicode_whitespace(s[0]) {
            lemma_trim_start_push(s.drop_first(), c);
        }
    } else {
        assert(s.push(c) =~= seq![c]);
    }
}

/// The characters that `str::trim` removes at both ends: Unicode `White_Space`, U+0009 to U+000D
/// (tab, line feed, vertical tab, form feed, carriage return), space, U+0085, no-break space,
/// U+1680, U+2000 to U+200A, the line and paragraph separators, U+202F, U+205F and U+3000.
/// Adding one of them at either end of a text does not change the trimmed text.
pub proof fn lemma_trim_drops_white_space(s: Seq<char>, c: char)
    requires
        ({
            let u = c as u32;
            (9 <= u <= 13) || u == 32 || u == 133 || u == 160 || u == 5760 || (8192 <= u <= 8202)
                || u == 8232 || u == 8233 || u == 8239 || u == 8287 || u == 12288
        }),
    ensures
        trimmed(s.push(c)) == trimmed(s),
        trimmed(seq![c] + s) == trimmed(s),
{
    lemma_trim_start_push(s, c);
    let t = trim_start_chars(s);
    if t.len() > 0 {
        assert(t.push(c).drop_last() =~= t);
    } else {
        assert(seq![c].drop_first() =~= Seq::<char>::empty());
        assert(trim_start_chars(seq![c]) == trim_start_chars(Seq::<char>::empty()));
    }
    assert((seq![c] + s).drop_first() =~= s);
}

/// A character outside Unicode `White_Space` is kept by trimming.
pub proof fn lemma_trim_keeps_other(c: char)
    requires
        ({
            let u = c as u32;
            !((9 <= u <= 13) || u == 32 || u == 133 || u == 160 || u == 5760 || (8192 <= u
                <= 8202) || u == 8232 || u == 8233 || u == 8239 || u == 8287 || u == 12288)
        }),
    ensures
        trimmed(seq![c]) == seq![c],
{
}

/// A line read from a console, with its `\r\n` or `\n` ending, trims to the same text as
/// without it.
pub proof fn lemma_trim_line_ending(s: Seq<char>)
    ensures
        trimmed(s + seq!['\r', '\n']) == trimmed(s),
        trimmed(s + seq!['\n']) == trimmed(s),
{
    assert(s + seq!['\r', '\n'] =~= s.push('\r').push('\n'));
    assert(s + seq!['\n'] =~= s.push('\n'));
    lemma_trim_drops_white_space(s.push('\r'), '\n');
    lemma_trim_drops_white_space(s, '\r');
    lemma_trim_drops_white_space(s, '\n');
}

// ---------------------------------------------------------------------------
// Dictionary order
// ---------------------------------------------------------------------------

/// `a` comes before `b` in dictionary (lexicographic) order of character codes.
pub open spec fn text_before(a: Seq<char>, b: Seq<char>) -> bool {
    exists|i: int|
        0 <= i <= a.len() && i <= b.len() && #[trigger] a.subrange(0, i) == b.subrange(0, i) && (
        (i < a.len() && i < b.len() && (a[i] as u32) < (b[i] as u32)) || (i == a.len() && i
            < b.len()))
}

/// The two digits of `n` (below 100).
pub open spec fn two_digits(n: nat) -> Seq<char> {
    seq![digit_char(n / 10), digit_char(n % 10)]
}

/// The four digits of `n` (below 10000).
pub open spec fn four_digits(n: nat) -> Seq<char> {
    seq![
        digit_char(n / 1000),
        digit_char((n / 100) % 10),
        digit_char((n / 10) % 10),
        digit_char(n % 10),
    ]
}

/// A number below 100 padded to two places is its two digits.
pub proof fn lemma_zero_padded_two(n: nat)
    requires
        n < 100,
    ensures
        zero_padded(n, 2) == two_digits(n),
{
    reveal_with_fuel(decimal_chars, 3);
    if n < 10 {
        assert(digit_char(0) == '0');
        assert(zero_padded(n, 2) =~= two_digits(n));
    } else {
        assert(decimal_chars(n / 10) == seq![digit_char(n / 10)]);
        assert(zero_padded(n, 2) =~= two_digits(n));
    }
}

/// A number below 10000 padded to four places is its four digits.
pub proof fn lemma_zero_padded_four(n: nat)
    requires
        n < 10000,
    ensures
        zero_padded(n, 4) == four_digits(n),
{
    reveal_with_fuel(decimal_chars, 5);
    assert(digit_char(0) == '0');
    if n < 10 {
        assert(zero_padded(n, 4) =~= four_digits(n));
    } else if n < 100 {
        assert(decimal_chars(n / 10) == seq![digit_char(n / 10)]);
        assert(zero_padded(n, 4) =~= four_digits(n));
    } else if n < 1000 {
        assert(decimal_chars(n / 100) == seq![digit_char(n / 100)]);
        assert((n / 10) / 10 == n / 100);
        assert(decimal_chars(n / 10) =~= seq![digit_char(n / 100), digit_char((n / 10) % 10)]);
        assert(zero_padded(n, 4) =~= four_digits(n));
    } else {
        assert(decimal_chars(n / 1000) == seq![digit_char(n / 1000)]);
        assert((n / 10) / 10 == n / 100);
        assert((n / 100) / 10 == n / 1000);
        assert(decimal_chars(n / 100) =~= seq![digit_char(n / 1000), digit_char((n / 100) % 10)]);
        assert(decimal_chars(n / 10) =~= seq![
            digit_char(n / 1000),
            digit_char((n / 100) % 10),
            digit_char((n / 10) % 10),
        ]);
        assert(zero_padded(n, 4) =~= four_digits(n));
    }
}

proof fn lemma_digit_order(j: nat, k: nat)
    requires
        j < k < 10,
    ensures
        (digit_char(j) as u32) < (digit_char(k) as u32),
{
    lemma_digit_char(j);
    lemma_digit_char(k);
}

/// Dictionary order is kept when two texts of equal length, in order, are followed by anything.
pub proof fn lemma_before_then(a1: Seq<char>, b1: Seq<char>, a2: Seq<char>, b2: Seq<char>)
    requires
        a1.len() == b1.len(),
        text_before(a1, b1),
    ensures
        text_before(a1 + a2, b1 + b2),
{
    let i = choose|i: int|
        0 <= i <= a1.len() && i <= b1.len() && #[trigger] a1.subrange(0, i) == b1.subrange(0, i)
            && ((i < a1.len() && i < b1.len() && (a1[i] as u32) < (b1[i] as u32)) || (i
            == a1.len() && i < b1.len()));
    assert((a1 + a2).subrange(0, i) =~= a1.subrange(0, i));
    assert((b1 + b2).subrange(0, i) =~= b1.subrange(0, i));
    assert((a1 + a2)[i] == a1[i]);
    assert((b1 + b2)[i] == b1[i]);
}

/// Dictionary order is kept when both texts are preceded by the same text.
pub proof fn lemma_same_then(p: Seq<char>, a: Seq<char>, b: Seq<char>)
    requires
        text_before(a, b),
    ensures
        text_before(p + a, p + b),
{
    let i = choose|i: int|
        0 <= i <= a.len() && i <= b.len() && #[trigger] a.subrange(0, i) == b.subrange(0, i) && (
        (i < a.len() && i < b.len() && (a[i] as u32) < (b[i] as u32)) || (i == a.len() && i
            < b.len()));
    let k = p.len() + i;
    assert((p + a).subrange(0, k) =~= p + a.subrange(0, i));
    assert((p + b).subrange(0, k) =~= p + b.subrange(0, i));
    if i < a.len() && i < b.len() {
        assert((p + a)[k] == a[i]);
        assert((p + b)[k] == b[i]);
    }
    assert(text_before(p + a, p + b));
}

/// Two-place numbers followed by texts: the smaller number comes first, and equal numbers are
/// ordered by what follows.
pub proof fn lemma_two_digits_then(n1: nat, n2: nat, r1: Seq<char>, r2: Seq<char>)
    requires
        n1 < 100,
        n2 < 100,
        n1 < n2 || (n1 == n2 && text_before(r1, r2)),
    ensures
        text_before(two_digits(n1) + r1, two_digits(n2) + r2),
{
    if n1 < n2 {
        if n1 / 10 < n2 / 10 {
            lemma_digit_order(n1 / 10, n2 / 10);
            assert(two_digits(n1).subrange(0, 0) =~= two_digits(n2).subrange(0, 0));
        } else {
            lemma_digit_order(n1 % 10, n2 % 10);
            assert(two_digits(n1).subrange(0, 1) =~= two_digits(n2).subrange(0, 1));
        }
        assert(text_before(two_digits(n1), two_digits(n2)));
        lemma_before_then(two_digits(n1), two_digits(n2), r1, r2);
    } else {
        lemma_same_then(two_digits(n1), r1, r2);
    }
}

proof fn lemma_four_digit_split(n: nat)
    requires
        n < 10000,
    ensures
        n == 1000 * (n / 1000) + 100 * ((n / 100) % 10) + 10 * ((n / 10) % 10) + n % 10,
        n / 1000 < 10,
        (n / 100) % 10 < 10,
        (n / 10) % 10 < 10,
        n % 10 < 10,
{
    assert(n == 1000 * (n / 1000) + 100 * ((n / 100) % 10) + 10 * ((n / 10) % 10) + n % 10)
        by (nonlinear_arith)
        requires
            n < 10000,
    ;
}

proof fn lemma_four_digits_before(n1: nat, n2: nat)
    requires
        n1 < n2 < 10000,
    ensures
        text_before(four_digits(n1), four_digits(n2)),
{
    let f1 = four_digits(n1);
    let f2 = four_digits(n2);
    let (a1, b1, c1, d1) = (n1 / 1000, (n1 / 100) % 10, (n1 / 10) % 10, n1 % 10);
    let (a2, b2, c2, d2) = (n2 / 1000, (n2 / 100) % 10, (n2 / 10) % 10, n2 % 10);
    lemma_four_digit_split(n1);
    lemma_four_digit_split(n2);
    if a1 != a2 {
        assert(a1 < a2);
        lemma_digit_order(a1, a2);
        assert(f1.subrange(0, 0) =~= f2.subrange(0, 0));
    } else if b1 != b2 {
        assert(b1 < b2);
        lemma_digit_order(b1, b2);
        assert(f1.subrange(0, 1) =~= f2.subrange(0, 1));
    } else if c1 != c2 {
        assert(c1 < c2);
        lemma_digit_order(c1, c2);
        assert(f1.subrange(0, 2) =~= f2.subrange(0, 2));
    } else {
        assert(d1 < d2);
        lemma_digit_order(d1, d2);
        assert(f1.subrange(0, 3) =~= f2.subrange(0, 3));
    }
}

/// Four-place numbers followed by texts: the smaller number comes first, and equal numbers are
/// ordered by what follows.
pub proof fn lemma_four_digits_then(n1: nat, n2: nat, r1: Seq<char>, r2: Seq<char>)
    requires
        n1 < 10000,
        n2 < 10000,
        n1 < n2 || (n1 == n2 && text_before(r1, r2)),
    ensures
        text_before(four_digits(n1) + r1, four_digits(n2) + r2),
{
    if n1 < n2 {
        lemma_four_digits_before(n1, n2);
        lemma_before_then(four_digits(n1), four_digits(n2), r1, r2);
    } else {
        lemma_same_then(four_digits(n1), r1, r2);
    }
}

} // verus!
