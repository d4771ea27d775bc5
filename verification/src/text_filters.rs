//! Character-name removal for OCR'd dialogue text.
//!
//! Two systems run in turn:
//! 1. inline: a `Word:` / `Word;` prefix, or a short one- or two-word first
//!    line, is stripped without any list of names;
//! 2. file-based: a `name:` / `name;` prefix, or a first line equal to or at
//!    least 90% similar to a known name, is stripped.

use vstd::prelude::*;
use crate::similarity::{name_ratio, name_ratio_chars};
use crate::text::{
    append_chars, byte_len, byte_len_capped, chars_eq, chars_of, count_words, find_char,
    find_char_index, is_alnum, is_ws, join, join_chars, lines, lines_of, lowercase,
    lemma_byte_len_bound, slice_to_vec_range, byte_len_of, starts_with, starts_with_chars, string_of,
    to_lowercase, trim, trim_chars, trim_end_set, trim_end_set_chars, utf8_len, word_count,
    char_is_alphanumeric, char_is_whitespace,
};
use crate::text_grouping::{OcrBox, TextLine};

verus! {

// ---------------------------------------------------------------------------
// Specification
// ---------------------------------------------------------------------------

/// A character that may appear in a name: alphanumeric, whitespace, `_`, `-`
/// or `'`.
pub open spec fn is_name_char(c: char) -> bool {
    is_alnum(c) || is_ws(c) || c == '_' || c == '-' || c == '\''
}

pub open spec fn all_name_chars(s: Seq<char>) -> bool {
    forall|i: int| 0 <= i < s.len() ==> is_name_char(#[trigger] s[i])
}

/// Trailing characters dropped from a first line before it is compared.
pub open spec fn name_punctuation() -> Seq<char> {
    seq![':', ';', '.', '-', '—', ' ']
}

/// The part of `trimmed` after the separator at `pos`, when the part before it
/// looks like a name.
pub open spec fn inline_prefix_rest(trimmed: Seq<char>, pos: int) -> Option<Seq<char>> {
    let word = trimmed.take(pos);
    let rest = trim(trimmed.skip(pos + 1));
    if word.len() > 0 && word_count(word) <= 2 && byte_len(word) <= 40 && all_name_chars(word)
        && rest.len() > 0 {
        Some(rest)
    } else {
        None
    }
}

/// Everything after the first line, joined back with newlines and trimmed.
pub open spec fn after_first_line(text: Seq<char>) -> Seq<char> {
    trim(join(lines(text).skip(1), seq!['\n']))
}

/// Whether a (trimmed) first line is a short name-like header.
pub open spec fn inline_header(first: Seq<char>) -> bool {
    let norm = trim(trim_end_set(first, name_punctuation()));
    &&& first.len() > 0
    &&& byte_len(first) <= 40
    &&& word_count(first) <= 2
    &&& norm.len() > 0
    &&& word_count(norm) <= 2
    &&& all_name_chars(norm)
}

/// Inline name removal (no list of names needed).
pub open spec fn inline_removal(text: Seq<char>) -> Seq<char> {
    let trimmed = trim(text);
    let colon = find_char(trimmed, ':');
    let semi = find_char(trimmed, ';');
    if text.len() == 0 {
        text
    } else if colon is Some && inline_prefix_rest(trimmed, colon->0) is Some {
        inline_prefix_rest(trimmed, colon->0)->0
    } else if semi is Some && inline_prefix_rest(trimmed, semi->0) is Some {
        inline_prefix_rest(trimmed, semi->0)->0
    } else if lines(text).len() >= 2 && inline_header(trim(lines(text)[0])) {
        after_first_line(text)
    } else {
        text
    }
}

/// The characters after the first `k` bytes, looked for from character `j`
/// on; `None` when byte `k` is inside a character or past the end (slicing a
/// string there panics).
pub open spec fn byte_skip_from(s: Seq<char>, k: nat, j: int) -> Option<Seq<char>>
    decreases s.len() - j,
{
    if j < 0 || j > s.len() {
        None
    } else if byte_len(s.take(j)) == k {
        Some(s.skip(j))
    } else if byte_len(s.take(j)) > k || j == s.len() {
        None
    } else {
        byte_skip_from(s, k, j + 1)
    }
}

pub open spec fn byte_skip(s: Seq<char>, k: nat) -> Option<Seq<char>> {
    byte_skip_from(s, k, 0)
}

/// Prefix removal over the names from index `k` on: `None` when no name is a
/// prefix; otherwise the stripped text (or `None` inside when the slice would
/// split a character).
pub open spec fn name_prefix_removal(names: Seq<Seq<char>>, text: Seq<char>, k: int) -> Option<
    Option<Seq<char>>,
>
    decreases names.len() - k,
{
    if k < 0 || k >= names.len() {
        None
    } else {
        let tl = lowercase(text);
        let with_colon = names[k].push(':');
        let with_semi = names[k].push(';');
        if starts_with(tl, with_colon) {
            Some(
                match byte_skip(text, byte_len(with_colon)) {
                    Some(rest) => Some(trim(rest)),
                    None => None,
                },
            )
        } else if starts_with(tl, with_semi) {
            Some(
                match byte_skip(text, byte_len(with_semi)) {
                    Some(rest) => Some(trim(rest)),
                    None => None,
                },
            )
        } else {
            name_prefix_removal(names, text, k + 1)
        }
    }
}

/// The first line, lower-cased and stripped of trailing punctuation.
pub open spec fn normalized_first_line(text: Seq<char>) -> Seq<char> {
    trim(trim_end_set(lowercase(trim(lines(text)[0])), name_punctuation()))
}

/// Whether some name is at least 90% similar to `first`.
pub open spec fn fuzzy_name_hit(names: Seq<Seq<char>>, first: Seq<char>) -> bool {
    exists|k: int| 0 <= k < names.len() && name_ratio(first, #[trigger] names[k]) >= 90
}

/// File-based removal; `None` when slicing would split a character.
pub open spec fn file_removal(names: Seq<Seq<char>>, text: Seq<char>) -> Option<Seq<char>> {
    let ls = lines(text);
    if text.len() == 0 {
        Some(text)
    } else if name_prefix_removal(names, text, 0) is Some {
        name_prefix_removal(names, text, 0)->0
    } else if ls.len() < 2 {
        Some(text)
    } else {
        let first_raw = trim(ls[0]);
        if first_raw.len() == 0 || byte_len(first_raw) > 40 || word_count(first_raw) > 4 {
            Some(text)
        } else if names.contains(normalized_first_line(text)) || fuzzy_name_hit(
            names,
            normalized_first_line(text),
        ) {
            Some(after_first_line(text))
        } else {
            Some(text)
        }
    }
}

/// Both systems: inline first, then the names list.
pub open spec fn name_removal(names: Seq<Seq<char>>, text: Seq<char>) -> Option<Seq<char>> {
    if text.len() == 0 {
        Some(text)
    } else if inline_removal(text) != text {
        Some(inline_removal(text))
    } else {
        file_removal(names, text)
    }
}

/// Lower-cased names in first-occurrence order, without repeats.
pub open spec fn distinct_lowered(names: Seq<Seq<char>>) -> Seq<Seq<char>>
    decreases names.len(),
{
    if names.len() == 0 {
        Seq::empty()
    } else {
        let prev = distinct_lowered(names.drop_last());
        let l = lowercase(names.last());
        if prev.contains(l) {
            prev
        } else {
            prev.push(l)
        }
    }
}

// ---------------------------------------------------------------------------
// Run-time helpers
// ---------------------------------------------------------------------------

fn all_name_chars_exec(s: &[char]) -> (b: bool)
    ensures
        b == all_name_chars(s@),
{
    let mut i: usize = 0;
    while i < s.len()
        invariant
            i <= s@.len(),
            forall|k: int| 0 <= k < i ==> is_name_char(#[trigger] s@[k]),
        decreases s@.len() - i,
    {
        let c = s[i];
        if !(char_is_alphanumeric(c) || char_is_whitespace(c) || c == '_' || c == '-' || c == '\'') {
            return false;
        }
        i += 1;
    }
    true
}

fn inline_prefix_rest_exec(trimmed: &Vec<char>, pos: usize) -> (r: Option<Vec<char>>)
    requires
        pos < trimmed@.len(),
    ensures
        r matches Some(v) ==> inline_prefix_rest(trimmed@, pos as int) == Some(v@),
        r is None ==> inline_prefix_rest(trimmed@, pos as int) is None,
{
    let n = trimmed.len();
    let word = slice_to_vec_range(trimmed.as_slice(), 0, pos);
    let tail = slice_to_vec_range(trimmed.as_slice(), pos + 1, n);
    let rest = trim_chars(tail.as_slice());
    assert(word@ =~= trimmed@.take(pos as int));
    assert(tail@ =~= trimmed@.skip(pos + 1));
    if word.len() == 0 {
        return None;
    }
    if count_words(word.as_slice()) > 2 {
        return None;
    }
    if byte_len_capped(word.as_slice(), 40) > 40 {
        return None;
    }
    if !all_name_chars_exec(word.as_slice()) {
        return None;
    }
    if rest.len() == 0 {
        return None;
    }
    Some(rest)
}

fn name_punctuation_exec() -> (v: Vec<char>)
    ensures
        v@ == name_punctuation(),
{
    let v = vec![':', ';', '.', '-', '—', ' '];
    assert(v@ =~= name_punctuation());
    v
}

fn inline_header_exec(first: &Vec<char>) -> (b: bool)
    ensures
        b == inline_header(first@),
{
    if first.len() == 0 || byte_len_capped(first.as_slice(), 40) > 40 || count_words(first.as_slice()) > 2 {
        return false;
    }
    let punct = name_punctuation_exec();
    let stripped = trim_end_set_chars(first.as_slice(), punct.as_slice());
    let norm = trim_chars(stripped.as_slice());
    norm.len() > 0 && count_words(norm.as_slice()) <= 2 && all_name_chars_exec(norm.as_slice())
}

/// Everything after the first line, joined with newlines and trimmed.
fn after_first_line_exec(ls: &Vec<Vec<char>>, ghost_text: Ghost<Seq<char>>) -> (r: Vec<char>)
    requires
        ls@.len() >= 1,
        ls@.len() == lines(ghost_text@).len(),
        forall|k: int| 0 <= k < ls@.len() ==> #[trigger] ls@[k]@ == lines(ghost_text@)[k],
    ensures
        r@ == after_first_line(ghost_text@),
{
    let nl = vec!['\n'];
    assert(nl@ =~= seq!['\n']);
    let joined = join_chars(ls, 1, nl.as_slice());
    assert(ls@.skip(1).map_values(|v: Vec<char>| v@) =~= lines(ghost_text@).skip(1));
    trim_chars(joined.as_slice())
}

/// Characters of `s` after its first `k` bytes; `None` when byte `k` does not
/// start a character.
fn byte_skip_exec(s: &Vec<char>, k: usize) -> (r: Option<Vec<char>>)
    requires
        s@.len() * 4 <= isize::MAX,
    ensures
        r matches Some(v) ==> byte_skip(s@, k as nat) == Some(v@),
        r is None ==> byte_skip(s@, k as nat) is None,
{
    let mut acc: usize = 0;
    let mut j: usize = 0;
    proof {
        assert(s@.take(0).len() == 0);
    }
    while j < s.len() && acc < k
        invariant
            j <= s@.len(),
            s@.len() * 4 <= isize::MAX,
            acc == byte_len(s@.take(j as int)),
            acc <= 4 * j,
            byte_skip(s@, k as nat) == byte_skip_from(s@, k as nat, j as int),
        decreases s@.len() - j,
    {
        proof {
            assert(s@.take(j + 1).drop_last() =~= s@.take(j as int));
        }
        let c = s[j];
        acc = acc + char_len(c);
        j += 1;
    }
    if acc == k {
        Some(slice_to_vec_range(s.as_slice(), j, s.len()))
    } else {
        None
    }
}

fn char_len(c: char) -> (n: usize)
    ensures
        n == utf8_len(c),
        n <= 4,
{
    let v = c as u32;
    if v < 0x80 {
        1
    } else if v < 0x800 {
        2
    } else if v < 0x10000 {
        3
    } else {
        4
    }
}

// ---------------------------------------------------------------------------
// The filter
// ---------------------------------------------------------------------------

/// Character-name filter holding lower-cased names without repeats.
pub struct CharacterNameFilter {
    names: Vec<Vec<char>>,
}

impl CharacterNameFilter {
    #[verifier::type_invariant]
    spec fn inv(&self) -> bool {
        forall|k: int| 0 <= k < self.names@.len() ==> #[trigger] self.names@[k]@.len() * 4 <= isize::MAX
    }

    /// The names, lower-cased, in first-occurrence order.
    pub closed spec fn name_list(&self) -> Seq<Seq<char>> {
        self.names@.map_values(|v: Vec<char>| v@)
    }

    /// Creates a filter from names; they are lower-cased and repeats dropped.
    pub fn new(names: Vec<String>) -> (f: Self)
        ensures
            f.name_list() == distinct_lowered(names@.map_values(|s: String| s@)),
    {
        let ghost views = names@.map_values(|s: String| s@);
        let mut out: Vec<Vec<char>> = Vec::new();
        let mut i: usize = 0;
        while i < names.len()
            invariant
                i <= names@.len(),
                views == names@.map_values(|s: String| s@),
                out@.map_values(|v: Vec<char>| v@) == distinct_lowered(views.take(i as int)),
                forall|k: int| 0 <= k < out@.len() ==> #[trigger] out@[k]@.len() * 4 <= isize::MAX,
            decreases names@.len() - i,
        {
            let l = to_lowercase(names[i].as_str());
            proof {
                assert(views.take(i + 1).drop_last() =~= views.take(i as int));
                assert(views.take(i + 1).last() == names@[i as int]@);
            }
            let ghost prev = out@.map_values(|v: Vec<char>| v@);
            let mut found = false;
            let mut k: usize = 0;
            while k < out.len()
                invariant
                    k <= out@.len(),
                    prev == out@.map_values(|v: Vec<char>| v@),
                    found ==> prev.contains(l@),
                    !found ==> forall|m: int| 0 <= m < k ==> prev[m] != l@,
                decreases out@.len() - k,
            {
                if chars_eq(out[k].as_slice(), l.as_slice()) {
                    assert(prev[k as int] == l@);
                    assert(prev.contains(l@));
                    found = true;
                }
                k += 1;
            }
            proof {
                if !found {
                    assert(!prev.contains(l@));
                }
            }
            if !found {
                out.push(l);
                assert(out@.map_values(|v: Vec<char>| v@) =~= prev.push(lowercase(names@[i as int]@)));
            }
            i += 1;
        }
        assert(views.take(names@.len() as int) =~= views);
        CharacterNameFilter { names: out }
    }

    /// Inline name removal (no names file needed).
    pub fn remove_inline_name(text: &str) -> (r: String)
        ensures
            r@ == inline_removal(text@),
    {
        let tv = chars_of(text);
        let v = Self::inline_chars(&tv);
        string_of(v.as_slice())
    }

    fn separator_rest(trimmed: &Vec<char>, sep: char) -> (r: Option<Vec<char>>)
        ensures
            r matches Some(v) ==> find_char(trimmed@, sep) is Some && inline_prefix_rest(
                trimmed@,
                find_char(trimmed@, sep)->0,
            ) == Some(v@),
            r is None ==> !(find_char(trimmed@, sep) is Some && inline_prefix_rest(
                trimmed@,
                find_char(trimmed@, sep)->0,
            ) is Some),
    {
        match find_char_index(trimmed.as_slice(), sep) {
            Some(c) => inline_prefix_rest_exec(trimmed, c),
            None => None,
        }
    }

    fn inline_chars(tv: &Vec<char>) -> (r: Vec<char>)
        ensures
            r@ == inline_removal(tv@),
    {
        if tv.len() == 0 {
            return slice_to_vec_range(tv.as_slice(), 0, 0);
        }
        let trimmed = trim_chars(tv.as_slice());
        if let Some(rest) = Self::separator_rest(&trimmed, ':') {
            return rest;
        }
        if let Some(rest) = Self::separator_rest(&trimmed, ';') {
            return rest;
        }
        let ls = lines_of(tv.as_slice());
        if ls.len() >= 2 {
            let first = trim_chars(ls[0].as_slice());
            if inline_header_exec(&first) {
                return after_first_line_exec(&ls, Ghost(tv@));
            }
        }
        slice_to_vec_range(tv.as_slice(), 0, tv.len())
    }

    /// Both systems; `None` exactly when a matched `name:` prefix ends inside
    /// a multi-byte character of the original text (where slicing panics).
    pub fn try_remove_name(&self, text: &str) -> (r: Option<String>)
        ensures
            r matches Some(s) ==> name_removal(self.name_list(), text@) == Some(s@),
            r is None ==> name_removal(self.name_list(), text@) is None,
    {
        let tv = chars_of(text);
        if tv.len() == 0 {
            return Some(string_of(tv.as_slice()));
        }
        let inline = Self::inline_chars(&tv);
        if !chars_eq(inline.as_slice(), tv.as_slice()) {
            return Some(string_of(inline.as_slice()));
        }
        match self.file_chars(text, &tv) {
            Some(v) => Some(string_of(v.as_slice())),
            None => None,
        }
    }

    /// Removes a character name (inline, then file-based).
    pub fn remove_name(&self, text: &str) -> (r: String)
        requires
            name_removal(self.name_list(), text@) is Some,
        ensures
            name_removal(self.name_list(), text@) == Some(r@),
    {
        match self.try_remove_name(text) {
            Some(s) => s,
            None => {
                assert(false);
                String::new()
            },
        }
    }

    fn strip_bytes(tv: &Vec<char>, prefix: &Vec<char>) -> (r: Option<Vec<char>>)
        requires
            tv@.len() * 4 <= isize::MAX,
            prefix@.len() * 4 <= isize::MAX,
        ensures
            r matches Some(v) ==> (match byte_skip(tv@, byte_len(prefix@)) {
                Some(rest) => Some(trim(rest)),
                None => None::<Seq<char>>,
            }) == Some(v@),
            r is None ==> byte_skip(tv@, byte_len(prefix@)) is None,
    {
        let k = byte_len_of(prefix.as_slice());
        match byte_skip_exec(tv, k) {
            Some(rest) => Some(trim_chars(rest.as_slice())),
            None => None,
        }
    }

    fn file_chars(&self, text: &str, tv: &Vec<char>) -> (r: Option<Vec<char>>)
        requires
            tv@ == text@,
            tv@.len() > 0,
            tv@.len() * 4 <= isize::MAX,
        ensures
            r matches Some(v) ==> file_removal(self.name_list(), tv@) == Some(v@),
            r is None ==> file_removal(self.name_list(), tv@) is None,
    {
        proof {
            use_type_invariant(self);
        }
        let ghost names = self.name_list();
        let tl = to_lowercase(text);
        // "name:" / "name;" prefixes.
        let mut k: usize = 0;
        while k < self.names.len()
            invariant
                k <= self.names@.len(),
                names == self.name_list(),
                names.len() == self.names@.len(),
                tl@ == lowercase(tv@),
                tl@.len() * 4 <= isize::MAX,
                tv@.len() * 4 <= isize::MAX,
                name_prefix_removal(names, tv@, 0) == name_prefix_removal(names, tv@, k as int),
                forall|q: int| 0 <= q < self.names@.len() ==> #[trigger] self.names@[q]@.len() * 4 <= isize::MAX,
            decreases self.names@.len() - k,
        {
            let name = &self.names[k];
            assert(name@ == names[k as int]);
            let mut with_colon: Vec<char> = Vec::new();
            append_chars(&mut with_colon, name.as_slice());
            with_colon.push(':');
            let mut with_semi: Vec<char> = Vec::new();
            append_chars(&mut with_semi, name.as_slice());
            with_semi.push(';');
            assert(with_colon@ =~= names[k as int].push(':'));
            assert(with_semi@ =~= names[k as int].push(';'));
            if starts_with_chars(tl.as_slice(), with_colon.as_slice()) {
                assert(with_colon@.len() <= tl@.len());
                return Self::strip_bytes(tv, &with_colon);
            }
            if starts_with_chars(tl.as_slice(), with_semi.as_slice()) {
                assert(with_semi@.len() <= tl@.len());
                return Self::strip_bytes(tv, &with_semi);
            }
            k += 1;
        }
        assert(name_prefix_removal(names, tv@, 0) is None);
        let ls = lines_of(tv.as_slice());
        if ls.len() < 2 {
            return Some(slice_to_vec_range(tv.as_slice(), 0, tv.len()));
        }
        let first_raw = trim_chars(ls[0].as_slice());
        if first_raw.len() == 0 || byte_len_capped(first_raw.as_slice(), 40) > 40
            || count_words(first_raw.as_slice()) > 4 {
            return Some(slice_to_vec_range(tv.as_slice(), 0, tv.len()));
        }
        let first_str = string_of(first_raw.as_slice());
        let lowered = to_lowercase(first_str.as_str());
        let punct = name_punctuation_exec();
        let stripped = trim_end_set_chars(lowered.as_slice(), punct.as_slice());
        let norm = trim_chars(stripped.as_slice());
        assert(norm@ == normalized_first_line(tv@));
        // Exact match against the list, then fuzzy.
        let mut hit = false;
        let mut m: usize = 0;
        while m < self.names.len()
            invariant
                m <= self.names@.len(),
                names == self.name_list(),
                names.len() == self.names@.len(),
                norm@ == normalized_first_line(tv@),
                norm@.len() * 4 <= isize::MAX,
                forall|q: int| 0 <= q < self.names@.len() ==> #[trigger] self.names@[q]@.len() * 4 <= isize::MAX,
                hit ==> (names.contains(norm@) || fuzzy_name_hit(names, norm@)),
                !hit ==> forall|q: int| 0 <= q < m ==> names[q] != norm@ && name_ratio(norm@, #[trigger] names[q]) < 90,
            decreases self.names@.len() - m,
        {
            let name = &self.names[m];
            assert(name@ == names[m as int]);
            if !hit {
                if chars_eq(name.as_slice(), norm.as_slice()) {
                    hit = true;
                    assert(names.contains(norm@));
                } else if name_ratio_chars(norm.as_slice(), name.as_slice()) >= 90 {
                    hit = true;
                    assert(name_ratio(norm@, names[m as int]) >= 90);
                }
            }
            m += 1;
        }
        proof {
            if !hit {
                assert(!names.contains(norm@));
                assert(!fuzzy_name_hit(names, norm@));
            }
        }
        if hit {
            return Some(after_first_line_exec(&ls, Ghost(tv@)));
        }
        Some(slice_to_vec_range(tv.as_slice(), 0, tv.len()))
    }
}


/// Levenshtein-based similarity (0-100) of two strings, as used to compare a
/// first line with a character name: `100 * (m - d) / m` rounded down, with
/// `m` the larger character count and `d` the edit distance.
pub fn fuzzy_ratio(s1: &str, s2: &str) -> (r: u8)
    ensures
        r == name_ratio(s1@, s2@),
{
    let a = chars_of(s1);
    let b = chars_of(s2);
    name_ratio_chars(a.as_slice(), b.as_slice())
}

// ---------------------------------------------------------------------------
// Center lines
// ---------------------------------------------------------------------------

/// Which vertical center lines are active, and where they are.
#[derive(Debug, Clone, Copy, PartialEq, Eq)]
pub struct CenterLineConfig {
    pub use_center_line_1: bool,
    pub use_center_line_2: bool,
    pub use_center_line_3: bool,
    /// Width of each line's band, in pixels.
    pub center_line_margin: i32,
    /// Absolute start of the second line, in pixels.
    pub center_line_2_start: i32,
    /// Start of the third line, in pixels (the configured fraction of the
    /// region width).
    pub center_line_3_start: i32,
}

/// `i32` division by two, rounding toward zero.
pub open spec fn half(v: int) -> int {
    if v >= 0 {
        v / 2
    } else {
        -((-v) / 2)
    }
}

fn half_i32(v: i32) -> (r: i32)
    ensures
        r == half(v as int),
{
    if v >= 0 {
        v / 2
    } else {
        let n: i64 = -(v as i64);
        (-(n / 2)) as i32
    }
}

/// The band `[start, end]` of line 1 (the region's vertical center).
pub open spec fn band_1(config: CenterLineConfig, screen_width: u32) -> (int, int) {
    let center_x = half((screen_width as i32) as int);
    (center_x - half(config.center_line_margin as int), center_x + half(config.center_line_margin as int))
}

/// Whether a box spanning `left_x..right_x` crosses an active line.
pub open spec fn box_on_line(config: CenterLineConfig, screen_width: u32, b: (i32, i32)) -> bool {
    let (s1, e1) = band_1(config, screen_width);
    let s2 = config.center_line_2_start as int;
    let e2 = s2 + config.center_line_margin;
    let s3 = config.center_line_3_start as int;
    let e3 = s3 + config.center_line_margin;
    ||| config.use_center_line_1 && b.0 <= e1 && b.1 >= s1
    ||| config.use_center_line_2 && b.0 <= e2 && b.1 >= s2
    ||| config.use_center_line_3 && b.0 <= e3 && b.1 >= s3
}

pub open spec fn any_line_active(config: CenterLineConfig) -> bool {
    config.use_center_line_1 || config.use_center_line_2 || config.use_center_line_3
}

/// Whether a line (given by the spans of its boxes) is kept.
pub open spec fn line_kept(config: CenterLineConfig, screen_width: u32, boxes: Seq<(i32, i32)>) -> bool {
    !any_line_active(config) || exists|k: int| 0 <= k < boxes.len() && box_on_line(config, screen_width, #[trigger] boxes[k])
}

/// Indices of the kept lines among the first `n`, in order.
pub open spec fn kept_lines(config: CenterLineConfig, screen_width: u32, lines: Seq<Seq<(i32, i32)>>, n: int) -> Seq<usize>
    decreases n,
{
    if n <= 0 {
        Seq::empty()
    } else if line_kept(config, screen_width, lines[n - 1]) {
        kept_lines(config, screen_width, lines, n - 1).push((n - 1) as usize)
    } else {
        kept_lines(config, screen_width, lines, n - 1)
    }
}

/// With no center line active every line is kept, in order.
pub proof fn lemma_no_active_line_keeps_all(config: CenterLineConfig, screen_width: u32, lines: Seq<Seq<(i32, i32)>>, n: int)
    requires
        !any_line_active(config),
        0 <= n <= lines.len(),
        n <= usize::MAX,
    ensures
        kept_lines(config, screen_width, lines, n) == Seq::new(n as nat, |i: int| i as usize),
    decreases n,
{
    if n > 0 {
        lemma_no_active_line_keeps_all(config, screen_width, lines, n - 1);
        assert(kept_lines(config, screen_width, lines, n) =~= Seq::new(n as nat, |i: int| i as usize));
    }
}

/// A box spanning `b.0..=b.1` crosses the band `start..=end`.
pub open spec fn crosses(b: (i32, i32), start: int, end: int) -> bool {
    b.0 <= end && b.1 >= start
}

/// The box crosses one of the active bands: line 1 is the band of half the
/// margin on each side of the region's middle, lines 2 and 3 the bands of
/// margin width from their starts.
pub open spec fn crosses_active_band(config: CenterLineConfig, screen_width: u32, b: (i32, i32)) -> bool {
    let middle = half((screen_width as i32) as int);
    let h = half(config.center_line_margin as int);
    let m = config.center_line_margin as int;
    ||| config.use_center_line_1 && crosses(b, middle - h, middle + h)
    ||| config.use_center_line_2 && crosses(b, config.center_line_2_start as int, config.center_line_2_start + m)
    ||| config.use_center_line_3 && crosses(b, config.center_line_3_start as int, config.center_line_3_start + m)
}

/// The kept lines are given by index, in increasing order.  Line `i` is
/// among them whenever some box of it, at any position in the line, crosses
/// an active band, and every line is kept when no center line is active;
/// when one is, a kept line has a box crossing an active band.
pub proof fn lemma_kept_lines_members(config: CenterLineConfig, screen_width: u32, lines: Seq<Seq<(i32, i32)>>, n: int)
    requires
        0 <= n <= lines.len(),
        n <= usize::MAX,
    ensures
        forall|a: int, b: int| 0 <= a < b < kept_lines(config, screen_width, lines, n).len()
            ==> kept_lines(config, screen_width, lines, n)[a] < kept_lines(config, screen_width, lines, n)[b],
        forall|a: int| 0 <= a < kept_lines(config, screen_width, lines, n).len()
            ==> kept_lines(config, screen_width, lines, n)[a] < n,
        forall|i: int, k: int| 0 <= i < n && 0 <= k < lines[i].len()
            && #[trigger] crosses_active_band(config, screen_width, lines[i][k])
            ==> kept_lines(config, screen_width, lines, n).contains(i as usize),
        forall|i: int| 0 <= i < n && !any_line_active(config) ==> #[trigger] kept_lines(config, screen_width, lines, n).contains(i as usize),
        forall|i: int| 0 <= i < n && any_line_active(config) && #[trigger] kept_lines(config, screen_width, lines, n).contains(i as usize)
            ==> exists|k: int| 0 <= k < lines[i].len() && #[trigger] crosses_active_band(config, screen_width, lines[i][k]),
{
    lemma_kept_lines_order(config, screen_width, lines, n);
    assert forall|i: int, k: int| 0 <= i < n && 0 <= k < lines[i].len()
        && #[trigger] crosses_active_band(config, screen_width, lines[i][k])
        implies kept_lines(config, screen_width, lines, n).contains(i as usize) by {
        lemma_kept_member(config, screen_width, lines, n, i);
        lemma_line_kept_crossing(config, screen_width, lines[i]);
    }
    assert forall|i: int| 0 <= i < n && !any_line_active(config)
        implies #[trigger] kept_lines(config, screen_width, lines, n).contains(i as usize) by {
        lemma_kept_member(config, screen_width, lines, n, i);
    }
    assert forall|i: int| 0 <= i < n && any_line_active(config) && #[trigger] kept_lines(config, screen_width, lines, n).contains(i as usize)
        implies exists|k: int| 0 <= k < lines[i].len() && #[trigger] crosses_active_band(config, screen_width, lines[i][k]) by {
        lemma_kept_member(config, screen_width, lines, n, i);
        lemma_line_kept_crossing(config, screen_width, lines[i]);
    }
}

proof fn lemma_kept_lines_order(config: CenterLineConfig, screen_width: u32, lines: Seq<Seq<(i32, i32)>>, n: int)
    requires
        0 <= n <= lines.len(),
        n <= usize::MAX,
    ensures
        forall|a: int, b: int| 0 <= a < b < kept_lines(config, screen_width, lines, n).len()
            ==> kept_lines(config, screen_width, lines, n)[a] < kept_lines(config, screen_width, lines, n)[b],
        forall|a: int| 0 <= a < kept_lines(config, screen_width, lines, n).len()
            ==> kept_lines(config, screen_width, lines, n)[a] < n,
    decreases n,
{
    if n > 0 {
        lemma_kept_lines_order(config, screen_width, lines, n - 1);
        let prev = kept_lines(config, screen_width, lines, n - 1);
        let r = kept_lines(config, screen_width, lines, n);
        if line_kept(config, screen_width, lines[n - 1]) {
            assert(r == prev.push((n - 1) as usize));
            assert(((n - 1) as usize) as int == n - 1);
        } else {
            assert(r == prev);
        }
    }
}

proof fn lemma_kept_member(config: CenterLineConfig, screen_width: u32, lines: Seq<Seq<(i32, i32)>>, n: int, i: int)
    requires
        0 <= i < n <= lines.len(),
        n <= usize::MAX,
    ensures
        kept_lines(config, screen_width, lines, n).contains(i as usize) <==> line_kept(config, screen_width, lines[i]),
    decreases n,
{
    lemma_kept_lines_order(config, screen_width, lines, n - 1);
    let prev = kept_lines(config, screen_width, lines, n - 1);
    let r = kept_lines(config, screen_width, lines, n);
    if i < n - 1 {
        lemma_kept_member(config, screen_width, lines, n - 1, i);
        if r.contains(i as usize) {
            let q = choose|q: int| 0 <= q < r.len() && r[q] == i as usize;
            if q < prev.len() {
                assert(prev[q] == r[q]);
            }
        }
        if prev.contains(i as usize) {
            let q = choose|q: int| 0 <= q < prev.len() && prev[q] == i as usize;
            assert(r[q] == prev[q]);
        }
    } else {
        if r.contains(i as usize) && !line_kept(config, screen_width, lines[n - 1]) {
            let q = choose|q: int| 0 <= q < r.len() && r[q] == i as usize;
            assert(r[q] < n - 1);
        }
        if line_kept(config, screen_width, lines[n - 1]) {
            assert(r[prev.len() as int] == (n - 1) as usize);
        }
    }
}

/// A line is kept exactly when no center line is active or one of its
/// boxes crosses an active band.
proof fn lemma_line_kept_crossing(config: CenterLineConfig, screen_width: u32, boxes: Seq<(i32, i32)>)
    ensures
        line_kept(config, screen_width, boxes) <==> (!any_line_active(config) || exists|k: int| 0 <= k < boxes.len()
            && #[trigger] crosses_active_band(config, screen_width, boxes[k])),
{
    assert forall|k: int| 0 <= k < boxes.len() implies
        box_on_line(config, screen_width, #[trigger] boxes[k]) == crosses_active_band(config, screen_width, boxes[k]) by {}
    if exists|k: int| 0 <= k < boxes.len() && #[trigger] crosses_active_band(config, screen_width, boxes[k]) {
        let k = choose|k: int| 0 <= k < boxes.len() && #[trigger] crosses_active_band(config, screen_width, boxes[k]);
        assert(box_on_line(config, screen_width, boxes[k]));
    }
}

/// Filter keeping the text lines that cross an active center line.
pub struct CenterLineFilter;

impl CenterLineFilter {
    /// Returns, in order, the indices of the lines to keep: every line when
    /// no center line is active, else the lines with a box whose top edge
    /// (`left_x`, `right_x`) overlaps an active line's band.  Line 1 is the
    /// band of `center_line_margin` pixels around the middle of the region,
    /// lines 2 and 3 the band of that width from their start.
    pub fn kept_indices(lines: &Vec<Vec<(i32, i32)>>, config: &CenterLineConfig, screen_width: u32) -> (r: Vec<usize>)
        requires
            config.use_center_line_2 ==> i32::MIN <= config.center_line_2_start + config.center_line_margin <= i32::MAX,
            config.use_center_line_3 ==> i32::MIN <= config.center_line_3_start + config.center_line_margin <= i32::MAX,
        ensures
            r@ == kept_lines(*config, screen_width, lines@.map_values(|l: Vec<(i32, i32)>| l@), lines@.len() as int),
    {
        let ghost lv = lines@.map_values(|l: Vec<(i32, i32)>| l@);
        let any = config.use_center_line_1 || config.use_center_line_2 || config.use_center_line_3;
        let center_x = half_i32(screen_width as i32);
        let hm = half_i32(config.center_line_margin);
        let (s1, e1): (i32, i32) = if config.use_center_line_1 { (center_x - hm, center_x + hm) } else { (0, 0) };
        let (s2, e2): (i32, i32) = if config.use_center_line_2 {
            (config.center_line_2_start, config.center_line_2_start + config.center_line_margin)
        } else {
            (0, 0)
        };
        let (s3, e3): (i32, i32) = if config.use_center_line_3 {
            (config.center_line_3_start, config.center_line_3_start + config.center_line_margin)
        } else {
            (0, 0)
        };
        let mut r: Vec<usize> = Vec::new();
        let mut i: usize = 0;
        while i < lines.len()
            invariant
                i <= lines@.len(),
                lv == lines@.map_values(|l: Vec<(i32, i32)>| l@),
                any == any_line_active(*config),
                config.use_center_line_1 ==> (s1 as int, e1 as int) == band_1(*config, screen_width),
                config.use_center_line_2 ==> s2 == config.center_line_2_start && e2 == config.center_line_2_start + config.center_line_margin,
                config.use_center_line_3 ==> s3 == config.center_line_3_start && e3 == config.center_line_3_start + config.center_line_margin,
                r@ == kept_lines(*config, screen_width, lv, i as int),
            decreases lines@.len() - i,
        {
            let boxes = &lines[i];
            assert(lv[i as int] == boxes@);
            let mut keep = !any;
            let mut k: usize = 0;
            while k < boxes.len() && !keep
                invariant
                    k <= boxes@.len(),
                    any == any_line_active(*config),
                    config.use_center_line_1 ==> (s1 as int, e1 as int) == band_1(*config, screen_width),
                    config.use_center_line_2 ==> s2 == config.center_line_2_start && e2 == config.center_line_2_start + config.center_line_margin,
                    config.use_center_line_3 ==> s3 == config.center_line_3_start && e3 == config.center_line_3_start + config.center_line_margin,
                    keep ==> line_kept(*config, screen_width, boxes@),
                    !keep ==> any && forall|q: int| 0 <= q < k ==> !box_on_line(*config, screen_width, #[trigger] boxes@[q]),
                decreases boxes@.len() - k,
            {
                let (lx, rx) = boxes[k];
                let hit = (config.use_center_line_1 && lx <= e1 && rx >= s1)
                    || (config.use_center_line_2 && lx <= e2 && rx >= s2)
                    || (config.use_center_line_3 && lx <= e3 && rx >= s3);
                if hit {
                    assert(box_on_line(*config, screen_width, boxes@[k as int]));
                    keep = true;
                }
                k += 1;
            }
            if keep {
                r.push(i);
            }
            i += 1;
        }
        r
    }

    /// The lines that cross an active center line (all lines when none is
    /// active), in order; a box spans its top edge, from the top-left to the
    /// top-right x.
    pub fn filter_lines(lines: Vec<TextLine>, config: &CenterLineConfig, screen_width: u32) -> (r: Vec<TextLine>)
        requires
            config.use_center_line_2 ==> i32::MIN <= config.center_line_2_start + config.center_line_margin <= i32::MAX,
            config.use_center_line_3 ==> i32::MIN <= config.center_line_3_start + config.center_line_margin <= i32::MAX,
        ensures
            r@ == lines@.filter(text_line_kept(*config, screen_width)),
    {
        let ghost orig = lines@;
        let ghost pred = text_line_kept(*config, screen_width);
        let mut rest = lines;
        let mut out: Vec<TextLine> = Vec::new();
        let ghost mut done: int = 0;
        while rest.len() > 0
            invariant
                0 <= done <= orig.len(),
                rest@ == orig.skip(done),
                pred == text_line_kept(*config, screen_width),
                out@ == orig.take(done).filter(pred),
                config.use_center_line_2 ==> i32::MIN <= config.center_line_2_start + config.center_line_margin <= i32::MAX,
                config.use_center_line_3 ==> i32::MIN <= config.center_line_3_start + config.center_line_margin <= i32::MAX,
            decreases rest@.len(),
        {
            let line = rest.remove(0);
            let spans = top_spans(&line.boxes);
            let mut one: Vec<Vec<(i32, i32)>> = Vec::new();
            one.push(spans);
            let kept = Self::kept_indices(&one, config, screen_width);
            proof {
                reveal(Seq::filter);
                assert(line == orig[done]);
                assert(orig.take(done + 1).drop_last() =~= orig.take(done));
                assert(one@.map_values(|l: Vec<(i32, i32)>| l@) =~= seq![box_spans(line.boxes@)]);
                assert(kept_lines(*config, screen_width, seq![box_spans(line.boxes@)], 0) =~= Seq::<usize>::empty());
            }
            if kept.len() > 0 {
                out.push(line);
            }
            proof {
                done = done + 1;
            }
        }
        proof {
            assert(orig.take(done) =~= orig);
        }
        out
    }
}

/// The top-edge spans (top-left x, top-right x) of some boxes.
pub open spec fn box_spans(bs: Seq<OcrBox>) -> Seq<(i32, i32)> {
    bs.map_values(|b: OcrBox| (b.bbox[0][0], b.bbox[1][0]))
}

/// Whether a text line crosses an active center line (always, when none is active).
pub open spec fn text_line_kept(config: CenterLineConfig, screen_width: u32) -> spec_fn(TextLine) -> bool {
    |l: TextLine| line_kept(config, screen_width, box_spans(l.boxes@))
}

/// With no center line active, filtering keeps every text line, in order.
pub proof fn lemma_no_active_line_keeps_all_lines(config: CenterLineConfig, screen_width: u32, lines: Seq<TextLine>)
    requires
        !any_line_active(config),
    ensures
        lines.filter(text_line_kept(config, screen_width)) == lines,
    decreases lines.len(),
{
    reveal(Seq::filter);
    if lines.len() > 0 {
        lemma_no_active_line_keeps_all_lines(config, screen_width, lines.drop_last());
        assert(lines.drop_last().push(lines.last()) =~= lines);
    }
}

fn top_spans(boxes: &Vec<OcrBox>) -> (r: Vec<(i32, i32)>)
    ensures
        r@ == box_spans(boxes@),
{
    let mut r: Vec<(i32, i32)> = Vec::new();
    let mut i: usize = 0;
    while i < boxes.len()
        invariant
            i <= boxes@.len(),
            r@ == box_spans(boxes@.take(i as int)),
        decreases boxes@.len() - i,
    {
        r.push((boxes[i].bbox[0][0], boxes[i].bbox[1][0]));
        proof {
            assert(box_spans(boxes@.take(i + 1)) =~= box_spans(boxes@.take(i as int)).push((boxes@[i as int].bbox[0][0], boxes@[i as int].bbox[1][0])));
        }
        i += 1;
    }
    assert(boxes@.take(boxes@.len() as int) =~= boxes@);
    r
}

} // verus!
