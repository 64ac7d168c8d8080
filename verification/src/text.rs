//! Character-level text toolkit: the splitting, trimming and number parsing
//! that the procfs/sysfs parsers are built from, each with a mathematical
//! statement of what it computes.
use vstd::prelude::*;

verus! {

// ───────────────────────────── specifications ─────────────────────────────

/// ASCII whitespace as `u8::is_ascii_whitespace` defines it
/// (space, tab, line feed, form feed, carriage return).
pub open spec fn is_ascii_ws(c: char) -> bool {
    c == ' ' || c == '\t' || c == '\n' || c == '\x0C' || c == '\r'
}

/// Unicode `White_Space`, the set `char::is_whitespace` (and so `str::trim`) uses.
pub open spec fn is_ws(c: char) -> bool {
    ||| ('\t' <= c && c <= '\r')
    ||| c == ' '
    ||| c == '\u{85}'
    ||| c == '\u{A0}'
    ||| c == '\u{1680}'
    ||| ('\u{2000}' <= c && c <= '\u{200A}')
    ||| c == '\u{2028}'
    ||| c == '\u{2029}'
    ||| c == '\u{202F}'
    ||| c == '\u{205F}'
    ||| c == '\u{3000}'
}

pub open spec fn is_digit(c: char) -> bool {
    '0' <= c && c <= '9'
}

/// `s` with leading whitespace removed.
pub open spec fn trim_start(s: Seq<char>) -> Seq<char>
    decreases s.len(),
{
    if s.len() > 0 && is_ws(s[0]) {
        trim_start(s.drop_first())
    } else {
        s
    }
}

/// `s` with trailing whitespace removed.
pub open spec fn trim_end(s: Seq<char>) -> Seq<char>
    decreases s.len(),
{
    if s.len() > 0 && is_ws(s.last()) {
        trim_end(s.drop_last())
    } else {
        s
    }
}

/// What `str::trim` returns.
pub open spec fn trim(s: Seq<char>) -> Seq<char> {
    trim_end(trim_start(s))
}

/// Index of the first `c` at or after `i`, or `s.len()` when there is none.
pub open spec fn find_from(s: Seq<char>, i: int, c: char) -> int
    decreases s.len() - i,
{
    if i < 0 || i >= s.len() {
        s.len() as int
    } else if s[i] == c {
        i
    } else {
        find_from(s, i + 1, c)
    }
}

/// Index of the first ASCII whitespace at or after `i`, or `s.len()`.
pub open spec fn word_end(s: Seq<char>, i: int) -> int
    decreases s.len() - i,
{
    if i < 0 || i >= s.len() {
        s.len() as int
    } else if is_ascii_ws(s[i]) {
        i
    } else {
        word_end(s, i + 1)
    }
}

/// The words of `s[i..]` as `str::split_ascii_whitespace` yields them.
pub open spec fn tokens_from(s: Seq<char>, i: int) -> Seq<Seq<char>>
    decreases s.len() - i,
{
    if i < 0 || i >= s.len() {
        seq![]
    } else if is_ascii_ws(s[i]) {
        tokens_from(s, i + 1)
    } else {
        let j = word_end(s, i);
        proof {
            lemma_word_end_bounds(s, i);
        }
        seq![s.subrange(i, j)] + tokens_from(s, j)
    }
}

/// What `str::split_ascii_whitespace` yields.
pub open spec fn tokens(s: Seq<char>) -> Seq<Seq<char>> {
    tokens_from(s, 0)
}

/// A line without its `\r` when the line ended in `\r\n`.
pub open spec fn strip_cr(l: Seq<char>) -> Seq<char> {
    if l.len() > 0 && l.last() == '\r' {
        l.drop_last()
    } else {
        l
    }
}

/// The lines of `s[i..]` as `str::lines` yields them.
pub open spec fn lines_from(s: Seq<char>, i: int) -> Seq<Seq<char>>
    decreases s.len() - i,
{
    if i < 0 || i >= s.len() {
        seq![]
    } else {
        let j = find_from(s, i, '\n');
        proof {
            lemma_find_from_bounds(s, i, '\n');
        }
        if j < s.len() {
            seq![strip_cr(s.subrange(i, j))] + lines_from(s, j + 1)
        } else {
            seq![s.subrange(i, s.len() as int)]
        }
    }
}

/// What `str::lines` yields.
pub open spec fn lines(s: Seq<char>) -> Seq<Seq<char>> {
    lines_from(s, 0)
}

/// The pieces of `s[i..]` between occurrences of `c`, as `str::split` yields them.
pub open spec fn pieces_from(s: Seq<char>, i: int, c: char) -> Seq<Seq<char>>
    decreases s.len() + 1 - i,
{
    if i < 0 || i > s.len() {
        seq![]
    } else {
        let j = find_from(s, i, c);
        proof {
            lemma_find_from_bounds(s, i, c);
        }
        if j < s.len() {
            seq![s.subrange(i, j)] + pieces_from(s, j + 1, c)
        } else {
            seq![s.subrange(i, s.len() as int)]
        }
    }
}

/// What `str::split` with a character pattern yields.
pub open spec fn pieces(s: Seq<char>, c: char) -> Seq<Seq<char>> {
    pieces_from(s, 0, c)
}

/// What `str::split_once` with a character pattern returns.
pub open spec fn split_once(s: Seq<char>, c: char) -> Option<(Seq<char>, Seq<char>)> {
    let j = find_from(s, 0, c);
    if j < s.len() {
        Some((s.take(j), s.skip(j + 1)))
    } else {
        None
    }
}

/// Index of the last `c` in `s`, or `-1`.
pub open spec fn last_index(s: Seq<char>, c: char) -> int
    decreases s.len(),
{
    if s.len() == 0 {
        -1
    } else if s.last() == c {
        s.len() - 1
    } else {
        last_index(s.drop_last(), c)
    }
}

/// What `str::rsplit_once` with a character pattern returns.
pub open spec fn rsplit_once(s: Seq<char>, c: char) -> Option<(Seq<char>, Seq<char>)> {
    let j = last_index(s, c);
    if j >= 0 {
        Some((s.take(j), s.skip(j + 1)))
    } else {
        None
    }
}

pub open spec fn starts_with(s: Seq<char>, p: Seq<char>) -> bool {
    p.len() <= s.len() && s.take(p.len() as int) == p
}

/// What `str::contains` with a string pattern returns.
pub open spec fn contains(s: Seq<char>, p: Seq<char>) -> bool {
    exists|i: int| 0 <= i && i + p.len() <= s.len() && #[trigger] s.subrange(i, i + p.len()) == p
}

pub open spec fn all_digits(s: Seq<char>) -> bool {
    forall|i: int| 0 <= i < s.len() ==> is_digit(#[trigger] s[i])
}

/// The number that a string of decimal digits denotes.
pub open spec fn digits_value(s: Seq<char>) -> nat
    decreases s.len(),
{
    if s.len() == 0 {
        0
    } else {
        digits_value(s.drop_last()) * 10 + ((s.last() as int) - ('0' as int)) as nat
    }
}

/// The magnitude that unsigned `FromStr` reads: one optional `+`, then at
/// least one decimal digit and nothing else.
pub open spec fn unsigned_magnitude(s: Seq<char>) -> Option<nat> {
    let d = if s.len() > 0 && s[0] == '+' {
        s.drop_first()
    } else {
        s
    };
    if d.len() > 0 && all_digits(d) {
        Some(digits_value(d))
    } else {
        None
    }
}

/// The value that signed `FromStr` reads: one optional `+` or `-`, then at
/// least one decimal digit and nothing else.
pub open spec fn signed_value(s: Seq<char>) -> Option<int> {
    if s.len() > 0 && s[0] == '-' {
        let d = s.drop_first();
        if d.len() > 0 && all_digits(d) {
            Some(-(digits_value(d) as int))
        } else {
            None
        }
    } else {
        match unsigned_magnitude(s) {
            Some(v) => Some(v as int),
            None => None,
        }
    }
}

/// What `s.parse::<u64>()` gives, as an `Option`.
pub open spec fn parse_u64(s: Seq<char>) -> Option<u64> {
    match unsigned_magnitude(s) {
        Some(v) => if v <= u64::MAX {
            Some(v as u64)
        } else {
            None
        },
        None => None,
    }
}

/// What `s.parse::<u32>()` gives, as an `Option`.
pub open spec fn parse_u32(s: Seq<char>) -> Option<u32> {
    match unsigned_magnitude(s) {
        Some(v) => if v <= u32::MAX {
            Some(v as u32)
        } else {
            None
        },
        None => None,
    }
}

/// What `s.parse::<i64>()` gives, as an `Option`.
pub open spec fn parse_i64(s: Seq<char>) -> Option<i64> {
    match signed_value(s) {
        Some(v) => if i64::MIN <= v <= i64::MAX {
            Some(v as i64)
        } else {
            None
        },
        None => None,
    }
}

/// What `s.parse::<i32>()` gives, as an `Option`.
pub open spec fn parse_i32(s: Seq<char>) -> Option<i32> {
    match signed_value(s) {
        Some(v) => if i32::MIN <= v <= i32::MAX {
            Some(v as i32)
        } else {
            None
        },
        None => None,
    }
}

pub open spec fn digit_char(d: nat) -> char {
    ((d + ('0' as nat)) as u32) as char
}

/// The decimal representation of `n`, as `Display` writes it.
pub open spec fn decimal(n: nat) -> Seq<char>
    decreases n,
{
    if n < 10 {
        seq![digit_char(n)]
    } else {
        decimal(n / 10).push(digit_char(n % 10))
    }
}

/// `s` with ASCII capitals lowered, as `str::to_ascii_lowercase` gives it.
pub open spec fn ascii_lower(s: Seq<char>) -> Seq<char> {
    s.map_values(|c: char| lower_char(c))
}

pub open spec fn lower_char(c: char) -> char {
    if 'A' <= c && c <= 'Z' {
        ((c as u32) + 32) as char
    } else {
        c
    }
}

/// Whether `a` sorts strictly before `b` (code point by code point, a
/// proper prefix first), the order of `str` and of UTF-8 byte strings.
pub open spec fn lex_lt(a: Seq<char>, b: Seq<char>) -> bool
    decreases a.len(),
{
    if b.len() == 0 {
        false
    } else if a.len() == 0 {
        true
    } else if a[0] != b[0] {
        a[0] < b[0]
    } else {
        lex_lt(a.drop_first(), b.drop_first())
    }
}

/// The views of a sequence of character vectors.
pub open spec fn views(v: Seq<Vec<char>>) -> Seq<Seq<char>> {
    v.map_values(|x: Vec<char>| x@)
}

// ───────────────────────────── lemmas ─────────────────────────────

pub proof fn lemma_find_from_bounds(s: Seq<char>, i: int, c: char)
    ensures
        0 <= i <= s.len() ==> i <= find_from(s, i, c) <= s.len(),
        0 <= i && find_from(s, i, c) < s.len() ==> s[find_from(s, i, c)] == c,
        forall|k: int| 0 <= i <= k < find_from(s, i, c) ==> s[k] != c,
    decreases s.len() - i,
{
    if 0 <= i < s.len() && s[i] != c {
        lemma_find_from_bounds(s, i + 1, c);
    }
}

proof fn lemma_find_from_prefix(a: Seq<char>, b: Seq<char>, c: char, i: int)
    requires
        0 <= i <= a.len(),
    ensures
        find_from(a + seq![c] + b, i, c) == find_from(a, i, c),
    decreases a.len() - i,
{
    let s = a + seq![c] + b;
    if i < a.len() {
        assert(s[i] == a[i]);
        if a[i] != c {
            lemma_find_from_prefix(a, b, c, i + 1);
        }
    } else {
        assert(s[i] == c);
    }
}

proof fn lemma_find_from_shift(p: Seq<char>, b: Seq<char>, c: char, k: int)
    requires
        0 <= k <= b.len(),
    ensures
        find_from(p + b, p.len() + k, c) == p.len() + find_from(b, k, c),
    decreases b.len() - k,
{
    if k < b.len() {
        assert((p + b)[p.len() + k] == b[k]);
        if b[k] != c {
            lemma_find_from_shift(p, b, c, k + 1);
        }
    }
}

proof fn lemma_pieces_prefix(a: Seq<char>, b: Seq<char>, c: char, i: int)
    requires
        0 <= i <= a.len(),
    ensures
        pieces_from(a + seq![c] + b, i, c) == pieces_from(a, i, c) + pieces_from(a + seq![c] + b, a.len() + 1int, c),
    decreases a.len() - i,
{
    let s = a + seq![c] + b;
    lemma_find_from_prefix(a, b, c, i);
    lemma_find_from_bounds(a, i, c);
    let j = find_from(a, i, c);
    assert(s.subrange(i, j) =~= a.subrange(i, j));
    if j < a.len() {
        lemma_pieces_prefix(a, b, c, j + 1);
        assert(pieces_from(s, i, c) =~= seq![a.subrange(i, j)] + pieces_from(s, j + 1, c));
        assert(pieces_from(a, i, c) =~= seq![a.subrange(i, j)] + pieces_from(a, j + 1, c));
    }
    assert(pieces_from(s, i, c) =~= pieces_from(a, i, c) + pieces_from(s, a.len() + 1int, c));
}

proof fn lemma_pieces_shift(p: Seq<char>, b: Seq<char>, c: char, k: int)
    requires
        0 <= k <= b.len(),
    ensures
        pieces_from(p + b, p.len() + k, c) == pieces_from(b, k, c),
    decreases b.len() - k,
{
    lemma_find_from_shift(p, b, c, k);
    lemma_find_from_bounds(b, k, c);
    let j = find_from(b, k, c);
    assert((p + b).subrange(p.len() + k, p.len() + j) =~= b.subrange(k, j));
    if j < b.len() {
        lemma_pieces_shift(p, b, c, j + 1);
    }
}

/// Splitting at a joining separator: the pieces of `a`, `c`, `b` are the
/// pieces of `a` followed by those of `b`.
pub proof fn lemma_pieces_join(a: Seq<char>, b: Seq<char>, c: char)
    ensures
        pieces(a + seq![c] + b, c) == pieces(a, c) + pieces(b, c),
{
    lemma_pieces_prefix(a, b, c, 0);
    lemma_pieces_shift(a + seq![c], b, c, 0);
    assert(a + seq![c] + b == (a + seq![c]) + b);
}

pub proof fn lemma_word_end_bounds(s: Seq<char>, i: int)
    ensures
        0 <= i <= s.len() ==> i <= word_end(s, i) <= s.len(),
        0 <= i && word_end(s, i) < s.len() ==> is_ascii_ws(s[word_end(s, i)]),
        forall|k: int| 0 <= i <= k < word_end(s, i) ==> !is_ascii_ws(s[k]),
    decreases s.len() - i,
{
    if 0 <= i < s.len() && !is_ascii_ws(s[i]) {
        lemma_word_end_bounds(s, i + 1);
    }
}

proof fn lemma_digits_value_push(s: Seq<char>, c: char)
    ensures
        is_digit(c) ==> digits_value(s.push(c)) == digits_value(s) * 10 + ((c as int) - ('0' as int)),
        all_digits(s) && is_digit(c) ==> all_digits(s.push(c)),
{
    assert(s.push(c).drop_last() =~= s);
}

proof fn lemma_digits_value_monotone(s: Seq<char>, t: Seq<char>)
    requires
        all_digits(s + t),
    ensures
        digits_value(s) <= digits_value(s + t),
    decreases t.len(),
{
    if t.len() > 0 {
        let u = s + t.drop_last();
        assert(s + t =~= u.push(t.last()));
        assert(all_digits(u)) by {
            assert forall|i: int| 0 <= i < u.len() implies is_digit(#[trigger] u[i]) by {
                assert(u[i] == (s + t)[i]);
            }
        }
        assert(is_digit((s + t)[(s + t).len() - 1]));
        lemma_digits_value_push(u, t.last());
        assert(s + t.drop_last() == u);
        lemma_digits_value_monotone(s, t.drop_last());
    }
}

proof fn lemma_decimal_digits(n: nat)
    ensures
        decimal(n).len() > 0,
        all_digits(decimal(n)),
        digits_value(decimal(n)) == n,
        decimal(n)[0] != '+' && decimal(n)[0] != '-',
    decreases n,
{
    let d = digit_char(n % 10);
    assert((d as int) == (n % 10) + ('0' as int));
    if n < 10 {
        assert(decimal(n) == seq![d]);
        assert(seq![d].drop_last() =~= Seq::<char>::empty());
        assert(n % 10 == n);
        assert(digits_value(seq![d]) == digits_value(seq![d].drop_last()) * 10 + ((d as int) - ('0' as int)) as nat);
    } else {
        lemma_decimal_digits(n / 10);
        let prefix = decimal(n / 10);
        assert(decimal(n) == prefix.push(d));
        lemma_digits_value_push(prefix, d);
        assert(prefix.push(d)[0] == prefix[0]);
        assert((n / 10) * 10 + n % 10 == n);
    }
}

/// Reading back what `Display` writes gives the number again: the decimal
/// form of every `u64` parses to itself.
pub proof fn lemma_parse_decimal_roundtrip(n: u64)
    ensures
        parse_u64(decimal(n as nat)) == Some(n),
{
    lemma_decimal_digits(n as nat);
}

// ───────────────────────────── executable code ─────────────────────────────

/// Appends one character to a string by calling `String::push`; trusted,
/// not proved: the contract claims that the string's characters afterwards
/// are the previous ones followed by `c`, as the standard library documents.
#[verifier::external_body]
pub(crate) fn push_char(s: &mut String, c: char)
    ensures
        final(s)@ == old(s)@.push(c),
{
    s.push(c);
}

/// The characters of `s`, in order.
pub fn to_chars(s: &str) -> (r: Vec<char>)
    ensures
        r@ == s@,
{
    let mut out: Vec<char> = Vec::new();
    for c in it: s.chars()
        invariant
            out@ == it.seq().take(it.index() as int),
    {
        out.push(c);
    }
    out
}

/// A string holding exactly the characters of `v`.
pub fn to_string(v: &Vec<char>) -> (r: String)
    ensures
        r@ == v@,
{
    let mut s = String::new();
    let n = v.len();
    for i in 0..n
        invariant
            n == v.len(),
            s@ == v@.take(i as int),
    {
        push_char(&mut s, v[i]);
        assert(v@.take(i + 1) =~= v@.take(i as int).push(v@[i as int]));
    }
    assert(v@.take(n as int) =~= v@);
    s
}

/// Appends the characters of `v` to `s`.
pub fn push_chars(s: &mut String, v: &Vec<char>)
    ensures
        final(s)@ == old(s)@ + v@,
{
    let n = v.len();
    let ghost s0 = s@;
    for i in 0..n
        invariant
            n == v.len(),
            s@ == s0 + v@.take(i as int),
    {
        push_char(s, v[i]);
        assert(v@.take(i + 1) =~= v@.take(i as int).push(v@[i as int]));
    }
    assert(v@.take(n as int) =~= v@);
}

/// Appends the characters of `t` to `s`.
pub fn push_str(s: &mut String, t: &str)
    ensures
        final(s)@ == old(s)@ + t@,
{
    let v = to_chars(t);
    push_chars(s, &v);
}

/// A string holding exactly the characters of `t`.
pub fn string_of(t: &str) -> (r: String)
    ensures
        r@ == t@,
{
    let v = to_chars(t);
    to_string(&v)
}

/// The characters `v[lo..hi]`.
pub fn slice_of(v: &Vec<char>, lo: usize, hi: usize) -> (r: Vec<char>)
    requires
        lo <= hi <= v.len(),
    ensures
        r@ == v@.subrange(lo as int, hi as int),
{
    let mut out: Vec<char> = Vec::new();
    let mut i = lo;
    while i < hi
        invariant
            lo <= i <= hi <= v.len(),
            out@ == v@.subrange(lo as int, i as int),
        decreases hi - i,
    {
        out.push(v[i]);
        assert(v@.subrange(lo as int, i + 1) =~= v@.subrange(lo as int, i as int).push(v@[i as int]));
        i += 1;
    }
    out
}

pub fn is_ascii_ws_char(c: char) -> (r: bool)
    ensures
        r == is_ascii_ws(c),
{
    c == ' ' || c == '\t' || c == '\n' || c == '\x0C' || c == '\r'
}

pub fn is_ws_char(c: char) -> (r: bool)
    ensures
        r == is_ws(c),
{
    ('\t' <= c && c <= '\r') || c == ' ' || c == '\u{85}' || c == '\u{A0}' || c == '\u{1680}'
        || ('\u{2000}' <= c && c <= '\u{200A}') || c == '\u{2028}' || c == '\u{2029}'
        || c == '\u{202F}' || c == '\u{205F}' || c == '\u{3000}'
}

proof fn lemma_trim_start_skip(s: Seq<char>, i: int)
    requires
        0 <= i <= s.len(),
        forall|k: int| 0 <= k < i ==> is_ws(#[trigger] s[k]),
    ensures
        trim_start(s) == trim_start(s.skip(i)),
    decreases i,
{
    if i > 0 {
        assert(s.skip(1) =~= s.drop_first());
        lemma_trim_start_skip(s.drop_first(), i - 1);
        assert(s.drop_first().skip(i - 1) =~= s.skip(i));
    } else {
        assert(s.skip(0) =~= s);
    }
}

proof fn lemma_trim_end_take(s: Seq<char>, j: int)
    requires
        0 <= j <= s.len(),
        forall|k: int| j <= k < s.len() ==> is_ws(#[trigger] s[k]),
    ensures
        trim_end(s) == trim_end(s.take(j)),
    decreases s.len() - j,
{
    if j < s.len() {
        assert(s.take(s.len() - 1) =~= s.drop_last());
        lemma_trim_end_take(s.drop_last(), j);
        assert(s.drop_last().take(j) =~= s.take(j));
    } else {
        assert(s.take(j) =~= s);
    }
}

/// `str::trim`.
pub fn trim_chars(v: &Vec<char>) -> (r: Vec<char>)
    ensures
        r@ == trim(v@),
{
    let n = v.len();
    let mut lo: usize = 0;
    while lo < n && is_ws_char(v[lo])
        invariant
            lo <= n == v.len(),
            forall|k: int| 0 <= k < lo ==> is_ws(#[trigger] v@[k]),
        decreases n - lo,
    {
        lo += 1;
    }
    proof {
        lemma_trim_start_skip(v@, lo as int);
    }
    let ghost t = v@.skip(lo as int);
    assert(trim_start(t) == t);
    let mut hi: usize = n;
    while hi > lo && is_ws_char(v[hi - 1])
        invariant
            lo <= hi <= n == v.len(),
            t == v@.skip(lo as int),
            forall|k: int| hi - lo <= k < t.len() ==> is_ws(#[trigger] t[k]),
        decreases hi,
    {
        hi -= 1;
    }
    proof {
        lemma_trim_end_take(t, hi - lo);
        assert(t.take(hi - lo) =~= v@.subrange(lo as int, hi as int));
    }
    slice_of(v, lo, hi)
}

/// `str::split_ascii_whitespace`, collected.
pub fn split_ws(v: &Vec<char>) -> (r: Vec<Vec<char>>)
    ensures
        views(r@) == tokens(v@),
{
    let n = v.len();
    let mut out: Vec<Vec<char>> = Vec::new();
    let mut i: usize = 0;
    while i < n
        invariant
            i <= n == v.len(),
            views(out@) + tokens_from(v@, i as int) == tokens(v@),
        decreases n - i,
    {
        if is_ascii_ws_char(v[i]) {
            i += 1;
        } else {
            let mut j = i;
            while j < n && !is_ascii_ws_char(v[j])
                invariant
                    i <= j <= n == v.len(),
                    word_end(v@, i as int) == word_end(v@, j as int),
                decreases n - j,
            {
                j += 1;
            }
            proof {
                lemma_word_end_bounds(v@, i as int);
            }
            let w = slice_of(v, i, j);
            let ghost old_out = out@;
            out.push(w);
            assert(views(out@) =~= views(old_out).push(w@));
            assert(views(out@) + tokens_from(v@, j as int) =~= views(old_out) + tokens_from(v@, i as int));
            i = j;
        }
    }
    out
}

/// Index of the first `c` at or after `i`, or `v.len()`.
pub fn find_char(v: &Vec<char>, i: usize, c: char) -> (r: usize)
    requires
        i <= v.len(),
    ensures
        r == find_from(v@, i as int, c),
{
    let mut j = i;
    while j < v.len() && v[j] != c
        invariant
            i <= j <= v.len(),
            find_from(v@, i as int, c) == find_from(v@, j as int, c),
        decreases v.len() - j,
    {
        j += 1;
    }
    j
}

/// `str::lines`, collected.
pub fn split_lines(v: &Vec<char>) -> (r: Vec<Vec<char>>)
    ensures
        views(r@) == lines(v@),
{
    let n = v.len();
    let mut out: Vec<Vec<char>> = Vec::new();
    let mut i: usize = 0;
    while i < n
        invariant
            i <= n == v.len(),
            views(out@) + lines_from(v@, i as int) == lines(v@),
        decreases n - i,
    {
        let j = find_char(v, i, '\n');
        proof {
            lemma_find_from_bounds(v@, i as int, '\n');
        }
        let ghost old_out = out@;
        if j < n {
            let mut e = j;
            if e > i && v[e - 1] == '\r' {
                e = e - 1;
            }
            let l = slice_of(v, i, e);
            assert(l@ == strip_cr(v@.subrange(i as int, j as int))) by {
                if j > i && v@[j - 1] == '\r' {
                    assert(v@.subrange(i as int, j as int).drop_last() =~= l@);
                }
            }
            out.push(l);
            assert(views(out@) =~= views(old_out).push(l@));
            assert(views(out@) + lines_from(v@, j + 1) =~= views(old_out) + lines_from(v@, i as int));
            i = j + 1;
        } else {
            let l = slice_of(v, i, n);
            out.push(l);
            assert(views(out@) =~= views(old_out).push(l@));
            assert(lines_from(v@, n as int) =~= Seq::<Seq<char>>::empty());
            assert(views(out@) + lines_from(v@, n as int) =~= views(old_out) + lines_from(v@, i as int));
            i = n;
        }
    }
    out
}

/// `str::split` on one character, collected.
pub fn split_char(v: &Vec<char>, c: char) -> (r: Vec<Vec<char>>)
    ensures
        views(r@) == pieces(v@, c),
        r@.len() >= 1,
{
    let n = v.len();
    let mut out: Vec<Vec<char>> = Vec::new();
    let mut i: usize = 0;
    loop
        invariant
            i <= n == v.len(),
            views(out@) + pieces_from(v@, i as int, c) == pieces(v@, c),
        decreases n - i,
    {
        let j = find_char(v, i, c);
        proof {
            lemma_find_from_bounds(v@, i as int, c);
        }
        let ghost old_out = out@;
        let p = slice_of(v, i, j);
        out.push(p);
        assert(views(out@) =~= views(old_out).push(p@));
        if j < n {
            assert(views(out@) + pieces_from(v@, j + 1, c) =~= views(old_out) + pieces_from(v@, i as int, c));
            i = j + 1;
        } else {
            assert(views(out@) =~= views(old_out) + pieces_from(v@, i as int, c));
            assert(views(out@) =~= pieces(v@, c));
            return out;
        }
    }
}

/// `str::split_once` on one character.
pub fn split_once_char(v: &Vec<char>, c: char) -> (r: Option<(Vec<char>, Vec<char>)>)
    ensures
        match r {
            Some((a, b)) => split_once(v@, c) == Some((a@, b@)),
            None => split_once(v@, c) is None,
        },
{
    let j = find_char(v, 0, c);
    proof {
        lemma_find_from_bounds(v@, 0, c);
    }
    if j < v.len() {
        let a = slice_of(v, 0, j);
        let b = slice_of(v, j + 1, v.len());
        assert(a@ =~= v@.take(j as int));
        assert(b@ =~= v@.skip(j + 1));
        Some((a, b))
    } else {
        None
    }
}

proof fn lemma_last_index(s: Seq<char>, c: char)
    ensures
        -1 <= last_index(s, c) < s.len(),
        last_index(s, c) >= 0 ==> s[last_index(s, c)] == c,
        forall|k: int| last_index(s, c) < k < s.len() ==> s[k] != c,
    decreases s.len(),
{
    if s.len() > 0 && s.last() != c {
        lemma_last_index(s.drop_last(), c);
        assert forall|k: int| last_index(s, c) < k < s.len() implies s[k] != c by {
            if k < s.len() - 1 {
                assert(s[k] == s.drop_last()[k]);
            }
        }
    }
}

/// `str::rsplit_once` on one character.
pub fn rsplit_once_char(v: &Vec<char>, c: char) -> (r: Option<(Vec<char>, Vec<char>)>)
    ensures
        match r {
            Some((a, b)) => rsplit_once(v@, c) == Some((a@, b@)),
            None => rsplit_once(v@, c) is None,
        },
{
    let mut j = v.len();
    assert(v@.take(j as int) =~= v@);
    while j > 0 && v[j - 1] != c
        invariant
            j <= v.len(),
            last_index(v@, c) == last_index(v@.take(j as int), c),
        decreases j,
    {
        assert(v@.take(j as int).drop_last() =~= v@.take(j - 1));
        j -= 1;
    }
    assert(v@.take(v.len() as int) =~= v@);
    if j == 0 {
        assert(v@.take(0) =~= Seq::<char>::empty());
        None
    } else {
        let k = j - 1;
        let a = slice_of(v, 0, k);
        let b = slice_of(v, k + 1, v.len());
        assert(a@ =~= v@.take(k as int));
        assert(b@ =~= v@.skip(k + 1));
        Some((a, b))
    }
}

/// Whether `v` starts with `p`.
pub fn has_prefix(v: &Vec<char>, p: &Vec<char>) -> (r: bool)
    ensures
        r == starts_with(v@, p@),
{
    if p.len() > v.len() {
        return false;
    }
    let mut i: usize = 0;
    while i < p.len()
        invariant
            i <= p.len() <= v.len(),
            forall|k: int| 0 <= k < i ==> v@[k] == p@[k],
        decreases p.len() - i,
    {
        if v[i] != p[i] {
            assert(v@.take(p.len() as int)[i as int] != p@[i as int]);
            return false;
        }
        i += 1;
    }
    assert(v@.take(p.len() as int) =~= p@);
    true
}

/// Whether `v` starts with the characters of `p`.
pub fn starts_with_str(v: &Vec<char>, p: &str) -> (r: bool)
    ensures
        r == starts_with(v@, p@),
{
    let pv = to_chars(p);
    has_prefix(v, &pv)
}

/// Whether `v` and `w` hold the same characters.
pub fn vec_eq(v: &Vec<char>, w: &Vec<char>) -> (r: bool)
    ensures
        r == (v@ == w@),
{
    if w.len() != v.len() {
        return false;
    }
    let b = has_prefix(v, w);
    assert(v@.take(w.len() as int) =~= v@);
    b
}

/// Whether `v` holds exactly the characters of `p`.
pub fn eq_str(v: &Vec<char>, p: &str) -> (r: bool)
    ensures
        r == (v@ == p@),
{
    let pv = to_chars(p);
    if pv.len() != v.len() {
        return false;
    }
    let b = has_prefix(v, &pv);
    assert(v@.take(pv.len() as int) =~= v@);
    b
}

/// `v` without the prefix `p`, when it has it (`str::strip_prefix`).
pub fn strip_prefix_str(v: &Vec<char>, p: &str) -> (r: Option<Vec<char>>)
    ensures
        match r {
            Some(rest) => starts_with(v@, p@) && rest@ == v@.skip(p@.len() as int),
            None => !starts_with(v@, p@),
        },
{
    let pv = to_chars(p);
    if has_prefix(v, &pv) {
        Some(slice_of(v, pv.len(), v.len()))
    } else {
        None
    }
}

/// Whether `p` occurs in `v` (`str::contains`).
pub fn has_substring(v: &Vec<char>, p: &Vec<char>) -> (r: bool)
    ensures
        r == contains(v@, p@),
{
    if p.len() > v.len() {
        return false;
    }
    let last = v.len() - p.len();
    let mut i: usize = 0;
    while i <= last
        invariant
            last == v.len() - p.len(),
            p.len() <= v.len(),
            forall|k: int| 0 <= k < i ==> #[trigger] v@.subrange(k, k + p.len()) != p@,
        decreases last + 1 - i,
    {
        let w = slice_of(v, i, i + p.len());
        let mut same = true;
        let mut k: usize = 0;
        while k < p.len()
            invariant
                w@.len() == p.len(),
                k <= p.len(),
                same == (forall|m: int| 0 <= m < k ==> w@[m] == p@[m]),
            decreases p.len() - k,
        {
            if w[k] != p[k] {
                same = false;
            }
            k += 1;
        }
        if same {
            assert(w@ =~= p@);
            return true;
        }
        assert(w@ != p@) by {
            if w@ == p@ {
                assert(forall|m: int| 0 <= m < p.len() ==> w@[m] == p@[m]);
            }
        }
        if i == last {
            assert forall|j: int| 0 <= j && j + p@.len() <= v@.len() implies #[trigger] v@.subrange(j, j + p@.len()) != p@ by {
                assert(j <= i);
            }
            return false;
        }
        i += 1;
    }
    false
}

/// Whether `c` occurs in `v`.
pub fn has_char(v: &Vec<char>, c: char) -> (r: bool)
    ensures
        r == v@.contains(c),
{
    let j = find_char(v, 0, c);
    proof {
        lemma_find_from_bounds(v@, 0, c);
    }
    j < v.len()
}

pub fn digits_only(v: &Vec<char>) -> (r: bool)
    ensures
        r == all_digits(v@),
{
    let mut i: usize = 0;
    while i < v.len()
        invariant
            i <= v.len(),
            forall|k: int| 0 <= k < i ==> is_digit(#[trigger] v@[k]),
        decreases v.len() - i,
    {
        if !('0' <= v[i] && v[i] <= '9') {
            return false;
        }
        i += 1;
    }
    true
}

/// `str::to_ascii_lowercase`.
pub fn lowercase(v: &Vec<char>) -> (r: Vec<char>)
    ensures
        r@ == ascii_lower(v@),
{
    let mut out: Vec<char> = Vec::new();
    let n = v.len();
    for i in 0..n
        invariant
            n == v.len(),
            out@ == ascii_lower(v@.take(i as int)),
    {
        let c = v[i];
        let l = if 'A' <= c && c <= 'Z' {
            ((c as u8) + 32) as char
        } else {
            c
        };
        assert(l == lower_char(c));
        out.push(l);
        assert(ascii_lower(v@.take(i + 1)) =~= ascii_lower(v@.take(i as int)).push(lower_char(c)));
    }
    assert(v@.take(n as int) =~= v@);
    out
}

/// The value of a nonempty string of digits `v[lo..hi]`, when it is at most `max`.
fn digits_at_most(v: &Vec<char>, lo: usize, max: u64) -> (r: Option<u64>)
    requires
        lo <= v.len(),
        max >= 9,
    ensures
        match r {
            Some(x) => v@.len() > lo && all_digits(v@.skip(lo as int)) && x == digits_value(
                v@.skip(lo as int),
            ) && x <= max,
            None => !(v@.len() > lo && all_digits(v@.skip(lo as int)) && digits_value(
                v@.skip(lo as int),
            ) <= max),
        },
{
    let ghost d = v@.skip(lo as int);
    if lo >= v.len() {
        return None;
    }
    let mut acc: u64 = 0;
    let mut i = lo;
    while i < v.len()
        invariant
            lo <= i <= v.len(),
            d == v@.skip(lo as int),
            all_digits(d.take(i - lo)),
            acc == digits_value(d.take(i - lo)),
            acc <= max,
            max >= 9,
        decreases v.len() - i,
    {
        let c = v[i];
        proof {
            assert(d.take(i - lo + 1) =~= d.take(i - lo).push(c));
            lemma_digits_value_push(d.take(i - lo), c);
        }
        if !('0' <= c && c <= '9') {
            assert(!all_digits(d)) by {
                assert(d[i - lo] == c);
            }
            return None;
        }
        let dv = (c as u32 - '0' as u32) as u64;
        if acc > (max - dv) / 10 {
            proof {
                assert(digits_value(d.take(i - lo + 1)) > max) by (nonlinear_arith)
                    requires
                        digits_value(d.take(i - lo + 1)) == acc * 10 + dv,
                        acc > (max - dv) / 10,
                        dv <= 9,
                        dv <= max || true,
                ;
                if all_digits(d) {
                    assert(d =~= d.take(i - lo + 1) + d.skip(i - lo + 1));
                    lemma_digits_value_monotone(d.take(i - lo + 1), d.skip(i - lo + 1));
                }
            }
            return None;
        }
        proof {
            assert(acc * 10 + dv <= max) by (nonlinear_arith)
                requires
                    acc <= (max - dv) / 10,
                    dv <= 9,
            ;
        }
        acc = acc * 10 + dv;
        i += 1;
    }
    assert(d.take(v.len() - lo) =~= d);
    Some(acc)
}

/// `str::parse::<u64>`.
pub fn parse_u64_chars(v: &Vec<char>) -> (r: Option<u64>)
    ensures
        r == parse_u64(v@),
{
    let lo: usize = if v.len() > 0 && v[0] == '+' {
        1
    } else {
        0
    };
    proof {
        if lo == 1 {
            assert(v@.skip(1) =~= v@.drop_first());
        } else {
            assert(v@.skip(0) =~= v@);
        }
    }
    digits_at_most(v, lo, u64::MAX)
}

/// `str::parse::<u32>`.
pub fn parse_u32_chars(v: &Vec<char>) -> (r: Option<u32>)
    ensures
        r == parse_u32(v@),
{
    match parse_u64_chars(v) {
        Some(x) => if x <= u32::MAX as u64 {
            Some(x as u32)
        } else {
            None
        },
        None => {
            proof {
                let m = unsigned_magnitude(v@);
                if let Some(x) = m {
                    assert(x > u64::MAX);
                }
            }
            None
        },
    }
}

/// `str::parse::<i64>`.
pub fn parse_i64_chars(v: &Vec<char>) -> (r: Option<i64>)
    ensures
        r == parse_i64(v@),
{
    if v.len() > 0 && v[0] == '-' {
        assert(v@.skip(1) =~= v@.drop_first());
        match digits_at_most(v, 1, 0x8000_0000_0000_0000u64) {
            Some(m) => {
                if m == 0x8000_0000_0000_0000u64 {
                    Some(i64::MIN)
                } else {
                    Some(-(m as i64))
                }
            },
            None => None,
        }
    } else {
        match parse_u64_chars(v) {
            Some(m) => {
                if m <= i64::MAX as u64 {
                    Some(m as i64)
                } else {
                    None
                }
            },
            None => None,
        }
    }
}

/// `str::parse::<i32>`.
pub fn parse_i32_chars(v: &Vec<char>) -> (r: Option<i32>)
    ensures
        r == parse_i32(v@),
{
    match parse_i64_chars(v) {
        Some(x) => if i32::MIN as i64 <= x && x <= i32::MAX as i64 {
            Some(x as i32)
        } else {
            None
        },
        None => None,
    }
}

/// Appends the decimal representation of `n` to `s`.
pub fn push_decimal(s: &mut String, n: u64)
    ensures
        final(s)@ == old(s)@ + decimal(n as nat),
    decreases n,
{
    if n >= 10 {
        push_decimal(s, n / 10);
    }
    let d = (n % 10) as u8;
    let c = (48u8 + d) as char;
    assert(c == digit_char((n % 10) as nat));
    let ghost before = s@;
    push_char(s, c);
    proof {
        if n >= 10 {
            assert(decimal(n as nat) == decimal((n / 10) as nat).push(c));
        } else {
            assert(n % 10 == n);
            assert(decimal(n as nat) == seq![c]);
        }
    }
}

/// Whether `a` sorts strictly before `b`.
pub fn lex_less(a: &Vec<char>, b: &Vec<char>) -> (r: bool)
    ensures
        r == lex_lt(a@, b@),
{
    let mut i: usize = 0;
    assert(a@.skip(0) =~= a@);
    assert(b@.skip(0) =~= b@);
    loop
        invariant
            i <= a.len(),
            i <= b.len(),
            lex_lt(a@, b@) == lex_lt(a@.skip(i as int), b@.skip(i as int)),
        decreases a.len() - i,
    {
        if i == b.len() {
            return false;
        }
        if i == a.len() {
            return true;
        }
        if a[i] != b[i] {
            return a[i] < b[i];
        }
        assert(a@.skip(i as int).drop_first() =~= a@.skip(i + 1));
        assert(b@.skip(i as int).drop_first() =~= b@.skip(i + 1));
        i += 1;
    }
}

} // verus!
