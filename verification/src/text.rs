//! Character-level text model shared by the filters, the matcher and the
//! hotkey rules.
//!
//! Text is handled as sequences of Unicode scalar values (`Seq<char>` in
//! specifications, `Vec<char>` at run time).  The Unicode character classes
//! and case mapping come from the standard library; their ASCII part is stated
//! exactly (white space entirely), the rest is named.

use vstd::prelude::*;

verus! {

// ---------------------------------------------------------------------------
// Character classes
// ---------------------------------------------------------------------------

/// Whether a non-ASCII character has the Unicode `White_Space` property:
/// next line, no-break space, ogham space mark, the spaces from en quad to
/// hair space, line and paragraph separators, narrow no-break space, medium
/// mathematical space and ideographic space.
pub open spec fn unicode_whitespace(c: char) -> bool {
    ||| c == '\u{85}'
    ||| c == '\u{a0}'
    ||| c == '\u{1680}'
    ||| ('\u{2000}' <= c && c <= '\u{200a}')
    ||| c == '\u{2028}'
    ||| c == '\u{2029}'
    ||| c == '\u{202f}'
    ||| c == '\u{205f}'
    ||| c == '\u{3000}'
}

/// Whether a non-ASCII character is alphabetic or numeric in Unicode.
pub uninterp spec fn unicode_alphanumeric(c: char) -> bool;

/// Whether a non-ASCII character has the Unicode `Alphabetic` property.
pub uninterp spec fn unicode_alphabetic(c: char) -> bool;

/// Lower-casing of a string that holds a non-ASCII character.
pub uninterp spec fn unicode_lowercase(s: Seq<char>) -> Seq<char>;

pub open spec fn is_ascii_char(c: char) -> bool {
    (c as u32) < 128
}

pub open spec fn is_ascii_digit(c: char) -> bool {
    '0' <= c && c <= '9'
}

pub open spec fn is_ascii_upper(c: char) -> bool {
    'A' <= c && c <= 'Z'
}

pub open spec fn is_ascii_lower(c: char) -> bool {
    'a' <= c && c <= 'z'
}

pub open spec fn is_ascii_letter(c: char) -> bool {
    is_ascii_upper(c) || is_ascii_lower(c)
}

/// `char::is_whitespace`: tab, line feed, vertical tab, form feed, carriage
/// return and space in ASCII.
pub open spec fn is_ws(c: char) -> bool {
    if is_ascii_char(c) {
        c == ' ' || ('\t' <= c && c <= '\r')
    } else {
        unicode_whitespace(c)
    }
}

/// `char::is_alphanumeric`.
pub open spec fn is_alnum(c: char) -> bool {
    if is_ascii_char(c) {
        is_ascii_letter(c) || is_ascii_digit(c)
    } else {
        unicode_alphanumeric(c)
    }
}

/// `char::is_alphabetic`.
pub open spec fn is_alpha(c: char) -> bool {
    if is_ascii_char(c) {
        is_ascii_letter(c)
    } else {
        unicode_alphabetic(c)
    }
}

pub open spec fn all_ascii(s: Seq<char>) -> bool {
    forall|i: int| 0 <= i < s.len() ==> is_ascii_char(#[trigger] s[i])
}

pub open spec fn ascii_lower(c: char) -> char {
    if is_ascii_upper(c) {
        ((c as u32) + 32) as char
    } else {
        c
    }
}

/// `str::to_lowercase`.
pub open spec fn lowercase(s: Seq<char>) -> Seq<char> {
    if all_ascii(s) {
        s.map_values(|c: char| ascii_lower(c))
    } else {
        unicode_lowercase(s)
    }
}

/// `char::is_whitespace`: the Unicode `White_Space` property.
pub(crate) fn char_is_whitespace(c: char) -> (r: bool)
    ensures
        r == is_ws(c),
        !is_ascii_char(c) ==> r == unicode_whitespace(c),
{
    if (c as u32) < 128 {
        c == ' ' || ('\t' <= c && c <= '\r')
    } else {
        c == '\u{85}' || c == '\u{a0}' || c == '\u{1680}' || ('\u{2000}' <= c && c <= '\u{200a}')
            || c == '\u{2028}' || c == '\u{2029}' || c == '\u{202f}' || c == '\u{205f}' || c == '\u{3000}'
    }
}

/// Calls `char::is_alphanumeric`.  Trusted: on ASCII it is true exactly for
/// letters and digits (as `is_alnum` states); beyond ASCII the answer is
/// named `unicode_alphanumeric`.
#[verifier::external_body]
pub(crate) fn char_is_alphanumeric(c: char) -> (r: bool)
    ensures
        r == is_alnum(c),
        !is_ascii_char(c) ==> r == unicode_alphanumeric(c),
{
    c.is_alphanumeric()
}

/// Calls `char::is_alphabetic`.  Trusted: on ASCII it is true exactly for
/// letters (as `is_alpha` states); beyond ASCII the answer is named
/// `unicode_alphabetic`.
#[verifier::external_body]
pub(crate) fn char_is_alphabetic(c: char) -> (r: bool)
    ensures
        r == is_alpha(c),
        !is_ascii_char(c) ==> r == unicode_alphabetic(c),
{
    c.is_alphabetic()
}

/// Calls `str::to_lowercase` and collects the characters.  Trusted: an
/// all-ASCII string maps each upper-case letter to its lower-case letter and
/// keeps every other character (as `lowercase` states); any other string
/// maps to what `unicode_lowercase` names; the result fits in memory as a
/// vector of characters.
#[verifier::external_body]
pub(crate) fn to_lowercase(s: &str) -> (r: Vec<char>)
    ensures
        r@ == lowercase(s@),
        !all_ascii(s@) ==> r@ == unicode_lowercase(s@),
        r@.len() * 4 <= isize::MAX,
{
    s.to_lowercase().chars().collect()
}

/// Collects `str::chars`: the characters of the string, in order (Verus
/// views a string as exactly that sequence); the result fits in memory as a
/// vector of characters.
#[verifier::external_body]
pub(crate) fn chars_of(s: &str) -> (r: Vec<char>)
    ensures
        r@ == s@,
        r@.len() * 4 <= isize::MAX,
{
    s.chars().collect()
}

/// Collects characters into a `String` (`FromIterator<char>`): the string
/// holds exactly those characters, in order.
#[verifier::external_body]
pub(crate) fn string_of(v: &[char]) -> (r: String)
    ensures
        r@ == v@,
{
    v.iter().collect()
}

// ---------------------------------------------------------------------------
// UTF-8 byte length
// ---------------------------------------------------------------------------

/// `char::len_utf8`.
pub open spec fn utf8_len(c: char) -> nat {
    if (c as u32) < 0x80 {
        1
    } else if (c as u32) < 0x800 {
        2
    } else if (c as u32) < 0x10000 {
        3
    } else {
        4
    }
}

/// Number of bytes of the UTF-8 encoding (`str::len`).
pub open spec fn byte_len(s: Seq<char>) -> nat
    decreases s.len(),
{
    if s.len() == 0 {
        0
    } else {
        byte_len(s.drop_last()) + utf8_len(s.last())
    }
}

pub proof fn lemma_byte_len_ge_len(s: Seq<char>)
    ensures
        byte_len(s) >= s.len(),
        all_ascii(s) ==> byte_len(s) == s.len(),
    decreases s.len(),
{
    if s.len() > 0 {
        lemma_byte_len_ge_len(s.drop_last());
        if all_ascii(s) {
            assert(all_ascii(s.drop_last()));
            assert(is_ascii_char(s[s.len() - 1]));
        }
    }
}

pub proof fn lemma_byte_len_concat(a: Seq<char>, b: Seq<char>)
    ensures
        byte_len(a + b) == byte_len(a) + byte_len(b),
    decreases b.len(),
{
    if b.len() == 0 {
        assert(a + b =~= a);
    } else {
        lemma_byte_len_concat(a, b.drop_last());
        assert((a + b).drop_last() =~= a + b.drop_last());
    }
}

pub proof fn lemma_byte_len_bound(s: Seq<char>)
    ensures
        byte_len(s) <= 4 * s.len(),
    decreases s.len(),
{
    if s.len() > 0 {
        lemma_byte_len_bound(s.drop_last());
    }
}

/// Byte length of the UTF-8 encoding of `s`.
pub fn byte_len_of(s: &[char]) -> (n: usize)
    requires
        s@.len() * 4 <= isize::MAX,
    ensures
        n == byte_len(s@),
{
    proof {
        lemma_byte_len_bound(s@);
    }
    byte_len_capped(s, (usize::MAX - 4) as usize)
}

fn char_utf8_len(c: char) -> (n: usize)
    ensures
        n == utf8_len(c),
{
    let v = c as u32;
    if v < 0x80 {
        1
    } else if v < 0x800 {
        2
    } else if v < 0x10000 {
        3
    } else {
        4
    }
}

/// Byte length of the UTF-8 encoding of `s`, capped at `cap + 1`.
pub fn byte_len_capped(s: &[char], cap: usize) -> (n: usize)
    requires
        cap + 4 <= usize::MAX,
    ensures
        n <= cap ==> n == byte_len(s@),
        n > cap <==> byte_len(s@) > cap,
{
    let mut total: usize = 0;
    let mut i: usize = 0;
    while i < s.len()
        invariant
            i <= s@.len(),
            total <= cap ==> total == byte_len(s@.take(i as int)),
            total > cap ==> byte_len(s@.take(i as int)) > cap,
            total <= cap + 1,
            cap + 4 <= usize::MAX,
        decreases s@.len() - i,
    {
        assert(s@.take(i + 1).drop_last() =~= s@.take(i as int));
        if total <= cap {
            let k = char_utf8_len(s[i]);
            total = if total + k > cap { cap + 1 } else { total + k };
        }
        proof {
            if byte_len(s@.take(i as int)) > cap {
                assert(byte_len(s@.take(i + 1)) > cap);
            }
        }
        i += 1;
    }
    assert(s@.take(s@.len() as int) =~= s@);
    total
}

// ---------------------------------------------------------------------------
// Trimming
// ---------------------------------------------------------------------------

/// `str::trim_start`.
pub open spec fn trim_start(s: Seq<char>) -> Seq<char>
    decreases s.len(),
{
    if s.len() > 0 && is_ws(s[0]) {
        trim_start(s.drop_first())
    } else {
        s
    }
}

/// `str::trim_end`.
pub open spec fn trim_end(s: Seq<char>) -> Seq<char>
    decreases s.len(),
{
    if s.len() > 0 && is_ws(s.last()) {
        trim_end(s.drop_last())
    } else {
        s
    }
}

/// `str::trim`.
pub open spec fn trim(s: Seq<char>) -> Seq<char> {
    trim_end(trim_start(s))
}

/// What `trim_start` leaves is empty or starts with a non-whitespace character.
pub proof fn lemma_trim_start_shape(s: Seq<char>)
    ensures
        trim_start(s).len() == 0 || !is_ws(trim_start(s)[0]),
    decreases s.len(),
{
    if s.len() > 0 && is_ws(s[0]) {
        lemma_trim_start_shape(s.drop_first());
    }
}

/// What `trim_end` leaves is a prefix, empty or ending with a non-whitespace
/// character.
pub proof fn lemma_trim_end_shape(s: Seq<char>)
    ensures
        trim_end(s).len() <= s.len(),
        trim_end(s) == s.take(trim_end(s).len() as int),
        trim_end(s).len() == 0 || !is_ws(trim_end(s).last()),
    decreases s.len(),
{
    if s.len() > 0 && is_ws(s.last()) {
        lemma_trim_end_shape(s.drop_last());
        let k = trim_end(s.drop_last()).len() as int;
        assert(s.drop_last().take(k) =~= s.take(k));
    } else {
        assert(s.take(s.len() as int) =~= s);
    }
}

/// Trimming twice is trimming once.
pub proof fn lemma_trim_idempotent(s: Seq<char>)
    ensures
        trim(trim(s)) == trim(s),
{
    let a = trim_start(s);
    lemma_trim_start_shape(s);
    let b = trim_end(a);
    lemma_trim_end_shape(a);
    if b.len() > 0 {
        assert(b[0] == a[0]);
    }
    assert(trim_start(b) == b);
    assert(trim_end(b) == b);
}

/// Number of leading whitespace characters.
fn leading_ws(s: &[char]) -> (k: usize)
    ensures
        k <= s@.len(),
        trim_start(s@) == s@.skip(k as int),
{
    let mut i: usize = 0;
    assert(s@.skip(0) =~= s@);
    while i < s.len() && char_is_whitespace(s[i])
        invariant
            i <= s@.len(),
            trim_start(s@) == trim_start(s@.skip(i as int)),
        decreases s@.len() - i,
    {
        assert(s@.skip(i as int).drop_first() =~= s@.skip(i + 1));
        i += 1;
    }
    i
}

/// Index one past the last non-whitespace character of `s[..end]`.
fn trailing_end(s: &[char], start: usize) -> (k: usize)
    requires
        start <= s@.len(),
    ensures
        start <= k <= s@.len(),
        trim_end(s@.subrange(start as int, s@.len() as int)) == s@.subrange(start as int, k as int),
{
    let mut j: usize = s.len();
    while j > start && char_is_whitespace(s[j - 1])
        invariant
            start <= j <= s@.len(),
            trim_end(s@.subrange(start as int, s@.len() as int)) == trim_end(
                s@.subrange(start as int, j as int),
            ),
        decreases j,
    {
        assert(s@.subrange(start as int, j as int).drop_last() =~= s@.subrange(
            start as int,
            j - 1,
        ));
        j -= 1;
    }
    j
}

/// `str::trim` on characters.
pub fn trim_chars(s: &[char]) -> (r: Vec<char>)
    ensures
        r@ == trim(s@),
        r@.len() <= s@.len(),
{
    let a = leading_ws(s);
    let b = trailing_end(s, a);
    assert(s@.skip(a as int) =~= s@.subrange(a as int, s@.len() as int));
    slice_to_vec_range(s, a, b)
}

/// Copies `s[a..b]` into a new vector.
pub fn slice_to_vec_range(s: &[char], a: usize, b: usize) -> (r: Vec<char>)
    requires
        a <= b <= s@.len(),
    ensures
        r@ == s@.subrange(a as int, b as int),
{
    let mut r: Vec<char> = Vec::new();
    let mut i: usize = a;
    while i < b
        invariant
            a <= i <= b <= s@.len(),
            r@ == s@.subrange(a as int, i as int),
        decreases b - i,
    {
        r.push(s[i]);
        assert(r@ =~= s@.subrange(a as int, i + 1));
        i += 1;
    }
    r
}

/// `str::trim_end_matches` with a set of characters.
pub open spec fn trim_end_set(s: Seq<char>, set: Seq<char>) -> Seq<char>
    decreases s.len(),
{
    if s.len() > 0 && set.contains(s.last()) {
        trim_end_set(s.drop_last(), set)
    } else {
        s
    }
}

fn contains_char(set: &[char], c: char) -> (b: bool)
    ensures
        b == set@.contains(c),
{
    let mut i: usize = 0;
    while i < set.len()
        invariant
            i <= set@.len(),
            forall|k: int| 0 <= k < i ==> set@[k] != c,
        decreases set@.len() - i,
    {
        if set[i] == c {
            return true;
        }
        i += 1;
    }
    false
}

pub fn trim_end_set_chars(s: &[char], set: &[char]) -> (r: Vec<char>)
    ensures
        r@ == trim_end_set(s@, set@),
        r@.len() <= s@.len(),
{
    let mut j: usize = s.len();
    assert(s@.take(j as int) =~= s@);
    while j > 0 && contains_char(set, s[j - 1])
        invariant
            j <= s@.len(),
            trim_end_set(s@, set@) == trim_end_set(s@.take(j as int), set@),
        decreases j,
    {
        assert(s@.take(j as int).drop_last() =~= s@.take(j - 1));
        j -= 1;
    }
    assert(s@.take(j as int) =~= s@.subrange(0, j as int));
    slice_to_vec_range(s, 0, j)
}

// ---------------------------------------------------------------------------
// Words, searching, splitting
// ---------------------------------------------------------------------------

/// Number of items `str::split_whitespace` yields.
pub open spec fn word_count(s: Seq<char>) -> nat
    decreases s.len(),
{
    if s.len() == 0 {
        0
    } else if !is_ws(s.last()) && (s.len() == 1 || is_ws(s[s.len() - 2])) {
        word_count(s.drop_last()) + 1
    } else {
        word_count(s.drop_last())
    }
}

pub fn count_words(s: &[char]) -> (n: usize)
    ensures
        n == word_count(s@),
{
    let mut n: usize = 0;
    let mut i: usize = 0;
    let mut prev_ws = true;
    while i < s.len()
        invariant
            i <= s@.len(),
            n == word_count(s@.take(i as int)),
            n <= i,
            prev_ws == (i == 0 || is_ws(s@[i - 1])),
        decreases s@.len() - i,
    {
        assert(s@.take(i + 1).drop_last() =~= s@.take(i as int));
        let w = char_is_whitespace(s[i]);
        if !w && prev_ws {
            n += 1;
        }
        prev_ws = w;
        i += 1;
    }
    assert(s@.take(s@.len() as int) =~= s@);
    n
}

/// Index of the first occurrence of `c`, if any (`str::find` with a char).
pub open spec fn find_char(s: Seq<char>, c: char) -> Option<int> {
    if exists|i: int| 0 <= i < s.len() && s[i] == c {
        Some(choose|i: int| 0 <= i < s.len() && s[i] == c && forall|k: int| 0 <= k < i ==> s[k] != c)
    } else {
        None
    }
}

pub fn find_char_index(s: &[char], c: char) -> (r: Option<usize>)
    ensures
        r matches Some(i) ==> find_char(s@, c) == Some(i as int),
        r matches Some(i) ==> i < s@.len() && s@[i as int] == c,
        r is None ==> find_char(s@, c) is None,
{
    let mut i: usize = 0;
    while i < s.len()
        invariant
            i <= s@.len(),
            forall|k: int| 0 <= k < i ==> s@[k] != c,
        decreases s@.len() - i,
    {
        if s[i] == c {
            let ghost w = choose|j: int| 0 <= j < s@.len() && s@[j] == c && forall|k: int| 0 <= k < j ==> s@[k] != c;
            assert(0 <= i < s@.len() && s@[i as int] == c && forall|k: int| 0 <= k < i ==> s@[k] != c);
            proof {
                if w < i {
                } else if w > i {
                    assert(s@[i as int] != c);
                }
            }
            return Some(i);
        }
        i += 1;
    }
    None
}

/// Splits on every character of `seps` (`str::split` with a char pattern).
/// A string without separators gives one piece; `n` separators give `n + 1`.
pub open spec fn split_on(s: Seq<char>, seps: Seq<char>) -> Seq<Seq<char>>
    decreases s.len(),
{
    if s.len() == 0 {
        seq![Seq::<char>::empty()]
    } else {
        let r = split_on(s.drop_last(), seps);
        if seps.contains(s.last()) {
            r.push(Seq::<char>::empty())
        } else {
            r.update(r.len() - 1, r.last().push(s.last()))
        }
    }
}

pub proof fn lemma_split_on_nonempty(s: Seq<char>, seps: Seq<char>)
    ensures
        split_on(s, seps).len() >= 1,
    decreases s.len(),
{
    if s.len() > 0 {
        lemma_split_on_nonempty(s.drop_last(), seps);
    }
}

pub fn split_chars(s: &[char], seps: &[char]) -> (r: Vec<Vec<char>>)
    ensures
        r@.len() == split_on(s@, seps@).len(),
        forall|k: int| 0 <= k < r@.len() ==> #[trigger] r@[k]@ == split_on(s@, seps@)[k],
{
    let mut out: Vec<Vec<char>> = Vec::new();
    let mut cur: Vec<char> = Vec::new();
    let mut i: usize = 0;
    while i < s.len()
        invariant
            i <= s@.len(),
            out@.len() + 1 == split_on(s@.take(i as int), seps@).len(),
            forall|k: int| 0 <= k < out@.len() ==> #[trigger] out@[k]@ == split_on(s@.take(i as int), seps@)[k],
            cur@ == split_on(s@.take(i as int), seps@).last(),
        decreases s@.len() - i,
    {
        proof {
            assert(s@.take(i + 1).drop_last() =~= s@.take(i as int));
            lemma_split_on_nonempty(s@.take(i as int), seps@);
        }
        let c = s[i];
        if contains_char(seps, c) {
            let done = cur;
            out.push(done);
            cur = Vec::new();
            assert(cur@ =~= Seq::<char>::empty());
        } else {
            cur.push(c);
        }
        i += 1;
    }
    assert(s@.take(s@.len() as int) =~= s@);
    out.push(cur);
    out
}

/// Drops one trailing carriage return.
pub open spec fn strip_cr(s: Seq<char>) -> Seq<char> {
    if s.len() > 0 && s.last() == '\r' {
        s.drop_last()
    } else {
        s
    }
}

/// `str::lines`: split on `'\n'`, no empty final line after a trailing
/// newline, and one `'\r'` removed from the end of each line that a `'\n'`
/// ends (a final line without a newline keeps its `'\r'`).
pub open spec fn lines(s: Seq<char>) -> Seq<Seq<char>> {
    let parts = split_on(s, seq!['\n']);
    Seq::new(lines_n(parts) as nat, |k: int| line_at(parts, k))
}

/// How many lines the pieces between newlines make: the last piece only
/// counts when it is not empty.
pub open spec fn lines_n(parts: Seq<Seq<char>>) -> int {
    if parts.last().len() == 0 { parts.len() - 1 } else { parts.len() as int }
}

/// Line `k`: piece `k`, without a final `'\r'` when a newline ends it.
pub open spec fn line_at(parts: Seq<Seq<char>>, k: int) -> Seq<char> {
    if k < parts.len() - 1 { strip_cr(parts[k]) } else { parts[k] }
}

pub fn lines_of(s: &[char]) -> (r: Vec<Vec<char>>)
    ensures
        r@.len() == lines(s@).len(),
        forall|k: int| 0 <= k < r@.len() ==> #[trigger] r@[k]@ == lines(s@)[k],
{
    let seps = vec!['\n'];
    assert(seps@ =~= seq!['\n']);
    let parts = split_chars(s, seps.as_slice());
    proof {
        lemma_split_on_nonempty(s@, seq!['\n']);
    }
    let ghost parts_spec = split_on(s@, seq!['\n']);
    let mut n = parts.len();
    if parts[n - 1].len() == 0 {
        n = n - 1;
    }
    let total = parts.len();
    let mut out: Vec<Vec<char>> = Vec::new();
    let mut i: usize = 0;
    while i < n
        invariant
            i <= n <= total,
            total == parts@.len() == parts_spec.len(),
            parts_spec == split_on(s@, seq!['\n']),
            n == lines(s@).len(),
            forall|k: int| 0 <= k < parts@.len() ==> #[trigger] parts@[k]@ == parts_spec[k],
            out@.len() == i,
            forall|k: int| 0 <= k < i ==> #[trigger] out@[k]@ == lines(s@)[k],
        decreases n - i,
    {
        let p = &parts[i];
        let len = p.len();
        let line = if i + 1 < total && len > 0 && p[len - 1] == '\r' {
            slice_to_vec_range(p.as_slice(), 0, len - 1)
        } else {
            slice_to_vec_range(p.as_slice(), 0, len)
        };
        proof {
            assert(parts@[i as int]@ == parts_spec[i as int]);
            assert(lines(s@)[i as int] == line_at(parts_spec, i as int));
            if i + 1 < total && len > 0 && p@[len - 1] == '\r' {
                assert(p@.subrange(0, len - 1) =~= p@.drop_last());
            } else {
                assert(p@.subrange(0, len as int) =~= p@);
            }
        }
        out.push(line);
        i += 1;
    }
    out
}

/// Joins pieces with a separator.
pub open spec fn join(parts: Seq<Seq<char>>, sep: Seq<char>) -> Seq<char>
    decreases parts.len(),
{
    if parts.len() == 0 {
        Seq::<char>::empty()
    } else if parts.len() == 1 {
        parts[0]
    } else {
        join(parts.drop_last(), sep) + sep + parts.last()
    }
}

pub fn join_chars(parts: &Vec<Vec<char>>, start: usize, sep: &[char]) -> (r: Vec<char>)
    requires
        start <= parts@.len(),
    ensures
        r@ == join(parts@.skip(start as int).map_values(|v: Vec<char>| v@), sep@),
{
    let ghost views = parts@.skip(start as int).map_values(|v: Vec<char>| v@);
    let mut out: Vec<char> = Vec::new();
    let mut i: usize = start;
    while i < parts.len()
        invariant
            start <= i <= parts@.len(),
            views == parts@.skip(start as int).map_values(|v: Vec<char>| v@),
            out@ == join(views.take(i - start), sep@),
        decreases parts@.len() - i,
    {
        assert(views.take(i - start + 1).drop_last() =~= views.take(i - start));
        if i > start {
            append_chars(&mut out, sep);
        }
        let ghost before = out@;
        append_chars(&mut out, parts[i].as_slice());
        proof {
            assert(views[i - start] == parts@[i as int]@);
            if i == start {
                assert(before =~= Seq::<char>::empty());
                assert(out@ =~= views.take(1)[0]);
            }
        }
        i += 1;
    }
    assert(views.take(parts@.len() - start) =~= views);
    out
}

/// Appends characters to a vector.
pub fn append_chars(out: &mut Vec<char>, s: &[char])
    ensures
        final(out)@ == old(out)@ + s@,
{
    let mut i: usize = 0;
    while i < s.len()
        invariant
            i <= s@.len(),
            out@ == old(out)@ + s@.take(i as int),
        decreases s@.len() - i,
    {
        out.push(s[i]);
        assert(old(out)@ + s@.take(i + 1) =~= old(out)@ + s@.take(i as int) + seq![s@[i as int]]);
        i += 1;
    }
    assert(s@.take(s@.len() as int) =~= s@);
}

/// Whether `p` is a prefix of `s`.
pub open spec fn starts_with(s: Seq<char>, p: Seq<char>) -> bool {
    p.len() <= s.len() && s.take(p.len() as int) == p
}

pub fn starts_with_chars(s: &[char], p: &[char]) -> (b: bool)
    ensures
        b == starts_with(s@, p@),
{
    if p.len() > s.len() {
        return false;
    }
    let mut i: usize = 0;
    while i < p.len()
        invariant
            p@.len() <= s@.len(),
            i <= p@.len(),
            forall|k: int| 0 <= k < i ==> s@[k] == p@[k],
        decreases p@.len() - i,
    {
        if s[i] != p[i] {
            assert(s@.take(p@.len() as int)[i as int] != p@[i as int]);
            return false;
        }
        i += 1;
    }
    assert(s@.take(p@.len() as int) =~= p@);
    true
}

/// Character-wise equality of two vectors.
pub fn chars_eq(a: &[char], b: &[char]) -> (r: bool)
    ensures
        r == (a@ == b@),
{
    if a.len() != b.len() {
        return false;
    }
    let mut i: usize = 0;
    while i < a.len()
        invariant
            a@.len() == b@.len(),
            i <= a@.len(),
            forall|k: int| 0 <= k < i ==> a@[k] == b@[k],
        decreases a@.len() - i,
    {
        if a[i] != b[i] {
            return false;
        }
        i += 1;
    }
    assert(a@ =~= b@);
    true
}

} // verus!
