//! Match deduplication and garbage-text filtering.

use vstd::prelude::*;
use vstd::hash_map::HashMapWithView;
use std::collections::VecDeque;
use crate::similarity::{indel_ratio, indel_ratio_chars};
use crate::text::{chars_of, char_is_alphabetic, char_is_whitespace, is_alpha, is_ws, lowercase, string_of, to_lowercase, trim, trim_chars};

verus! {

broadcast use vstd::std_specs::hash::group_hash_axioms;

/// Similarity of two strings ignoring case: the Indel ratio of their
/// lower-cased characters.
pub open spec fn text_similarity(a: Seq<char>, b: Seq<char>) -> int {
    indel_ratio(lowercase(a), lowercase(b))
}

/// Fuzzy similarity (0-100) of two strings, ignoring case.
pub fn fuzzy_ratio(s1: &str, s2: &str) -> (r: u8)
    ensures
        r == text_similarity(s1@, s2@),
{
    let a = to_lowercase(s1);
    let b = to_lowercase(s2);
    indel_ratio_chars(a.as_slice(), b.as_slice())
}

/// Deduplication state for tracking match history.
pub struct DedupState {
    /// The last (up to) two matched line indices, oldest first
    pub index_history: VecDeque<usize>,
    /// Last matched line text
    pub last_text: Option<String>,
    /// Per-paragraph typewriter matches: paragraph index -> line index
    pub typewriter_matched: HashMapWithView<usize, usize>,
    /// Consecutive empty OCR reads
    pub empty_reads: u32,
    /// Consecutive reads with the same text
    pub stable_count: u32,
    /// Lower-cased text of the last read, for stable-frame detection
    pub last_fingerprint: Option<String>,
}

pub open spec fn opt_view(o: Option<String>) -> Option<Seq<char>> {
    match o {
        Some(s) => Some(s@),
        None => None,
    }
}

/// History after recording `index`: the oldest entry goes once two are held.
pub open spec fn history_after(h: Seq<usize>, index: usize) -> Seq<usize> {
    if h.len() >= 2 {
        h.subrange(1, h.len() as int).push(index)
    } else {
        h.push(index)
    }
}

/// Recording a match keeps at most the two most recent indices, with the
/// new one last, so the recorded index counts as a duplicate afterwards.
pub proof fn lemma_history_bounded(h: Seq<usize>, index: usize)
    requires
        h.len() <= 2,
    ensures
        1 <= history_after(h, index).len() <= 2,
        history_after(h, index).last() == index,
        history_after(h, index).contains(index),
{
    let r = history_after(h, index);
    assert(r[r.len() - 1] == index);
}

/// After recording `index` on a history of at most two indices, an index
/// counts as a duplicate exactly when it is `index` or the most recent index
/// before it.
pub proof fn lemma_recorded_duplicates(h: Seq<usize>, index: usize, j: usize)
    requires
        h.len() <= 2,
    ensures
        history_after(h, index).contains(j) <==> (j == index || (h.len() > 0 && j == h.last())),
{
    let r = history_after(h, index);
    if r.contains(j) {
        let k = choose|k: int| 0 <= k < r.len() && r[k] == j;
        if h.len() >= 2 {
            assert(k == 0 || k == 1);
        }
    }
    if j == index {
        assert(r[r.len() - 1] == index);
    } else if h.len() > 0 && j == h.last() {
        assert(r[r.len() - 2] == j);
    }
}

/// A text is 100% similar to itself, so the text of the last match is
/// always a duplicate of itself.
pub proof fn lemma_text_similarity_self(t: Seq<char>)
    ensures
        text_similarity(t, t) == 100,
{
    crate::similarity::lemma_indel_ratio_self(lowercase(t));
}

/// One read of stable-frame detection on (count, last lower-cased text): the
/// same lower-cased text again counts one more, another text starts over.
pub open spec fn stable_step(state: (int, Option<Seq<char>>), text: Seq<char>) -> (int, Option<Seq<char>>) {
    if state.1 == Some(lowercase(text)) {
        (state.0 + 1, state.1)
    } else {
        (1, Some(lowercase(text)))
    }
}

/// Stable-frame state after feeding `texts`, in order, to a fresh state.
pub open spec fn stable_after(texts: Seq<Seq<char>>) -> (int, Option<Seq<char>>)
    decreases texts.len(),
{
    if texts.len() == 0 {
        (0, None)
    } else {
        stable_step(stable_after(texts.drop_last()), texts.last())
    }
}

/// `k` is the length of the run of texts at the end of `texts` that equal
/// the last one ignoring case.
pub open spec fn is_final_run(texts: Seq<Seq<char>>, k: int) -> bool {
    &&& 1 <= k <= texts.len()
    &&& forall|i: int| texts.len() - k <= i < texts.len() ==> lowercase(#[trigger] texts[i]) == lowercase(texts.last())
    &&& k < texts.len() ==> lowercase(texts[texts.len() - k - 1]) != lowercase(texts.last())
}

/// After a run of reads the stable count is the length of the final run of
/// texts equal to the last one ignoring case, and the remembered text is the
/// last one lower-cased; `update_stable_detection` answers whether that run
/// has reached the threshold.
pub proof fn lemma_stable_count_is_run(texts: Seq<Seq<char>>)
    requires
        texts.len() > 0,
    ensures
        is_final_run(texts, stable_after(texts).0),
        stable_after(texts).1 == Some(lowercase(texts.last())),
    decreases texts.len(),
{
    let prev = texts.drop_last();
    if prev.len() > 0 {
        lemma_stable_count_is_run(prev);
        let k = stable_after(prev).0;
        let l = lowercase(texts.last());
        if stable_after(prev).1 == Some(l) {
            assert forall|i: int| texts.len() - (k + 1) <= i < texts.len() implies lowercase(#[trigger] texts[i]) == l by {
                if i < texts.len() - 1 {
                    assert(texts[i] == prev[i]);
                }
            }
            if k + 1 < texts.len() {
                assert(texts[texts.len() - (k + 1) - 1] == prev[prev.len() - k - 1]);
            }
        } else {
            assert(texts[texts.len() - 2] == prev.last());
        }
    }
}

impl DedupState {
    /// The history holds at most the two most recent indices.  States built
    /// by `new` and changed only through these methods keep this.
    pub open spec fn wf(&self) -> bool {
        self.index_history@.len() <= 2
    }

    /// The empty state.
    pub open spec fn is_fresh(&self) -> bool {
        &&& self.index_history@.len() == 0
        &&& self.last_text is None
        &&& self.typewriter_matched@ == Map::<usize, usize>::empty()
        &&& self.empty_reads == 0
        &&& self.stable_count == 0
        &&& self.last_fingerprint is None
    }

    /// Creates a new deduplication state.
    pub fn new() -> (s: Self)
        ensures
            s.is_fresh(),
            s.wf(),
    {
        DedupState {
            index_history: VecDeque::with_capacity(2),
            last_text: None,
            typewriter_matched: HashMapWithView::new(),
            empty_reads: 0,
            stable_count: 0,
            last_fingerprint: None,
        }
    }

    /// Records a matched line index and text; resets the empty-read count.
    pub fn record_match(&mut self, index: usize, text: String)
        ensures
            final(self).index_history@ == history_after(old(self).index_history@, index),
            old(self).wf() ==> final(self).wf(),
            final(self).last_text == Some(text),
            final(self).empty_reads == 0,
            final(self).typewriter_matched@ == old(self).typewriter_matched@,
            final(self).stable_count == old(self).stable_count,
            final(self).last_fingerprint == old(self).last_fingerprint,
    {
        if self.index_history.len() >= 2 {
            self.index_history.pop_front();
        }
        self.index_history.push_back(index);
        self.last_text = Some(text);
        self.empty_reads = 0;
    }

    /// Records a typewriter match for a paragraph.
    pub fn record_typewriter_match(&mut self, paragraph_idx: usize, line_idx: usize)
        ensures
            final(self).typewriter_matched@ == old(self).typewriter_matched@.insert(paragraph_idx, line_idx),
            final(self).index_history@ == old(self).index_history@,
            final(self).last_text == old(self).last_text,
            final(self).empty_reads == old(self).empty_reads,
            final(self).stable_count == old(self).stable_count,
            final(self).last_fingerprint == old(self).last_fingerprint,
    {
        self.typewriter_matched.insert(paragraph_idx, line_idx);
    }

    /// Whether `index` is among the recent matches.
    pub fn is_duplicate_index(&self, index: usize) -> (b: bool)
        ensures
            b == self.index_history@.contains(index),
    {
        let n = self.index_history.len();
        let mut i: usize = 0;
        while i < n
            invariant
                n == self.index_history@.len(),
                i <= n,
                forall|k: int| 0 <= k < i ==> self.index_history@[k] != index,
            decreases n - i,
        {
            if self.index_history[i] == index {
                assert(self.index_history@[i as int] == index);
                return true;
            }
            i += 1;
        }
        false
    }

    /// Whether `text` is at least `similarity_threshold` similar to the last
    /// matched text (false when nothing was matched yet).
    pub fn is_duplicate_text(&self, text: &str, similarity_threshold: u8) -> (b: bool)
        ensures
            b == (match self.last_text {
                Some(last) => text_similarity(text@, last@) >= similarity_threshold,
                None => false,
            }),
    {
        match &self.last_text {
            Some(last) => fuzzy_ratio(text, last.as_str()) >= similarity_threshold,
            None => false,
        }
    }

    /// Whether `line_idx` was already matched for `paragraph_idx`.
    pub fn is_typewriter_duplicate(&self, paragraph_idx: usize, line_idx: usize) -> (b: bool)
        ensures
            b == (self.typewriter_matched@.contains_key(paragraph_idx)
                && self.typewriter_matched@[paragraph_idx] == line_idx),
    {
        match self.typewriter_matched.get(&paragraph_idx) {
            Some(m) => *m == line_idx,
            None => false,
        }
    }

    /// Counts one more empty read.
    pub fn increment_empty_reads(&mut self)
        requires
            old(self).empty_reads < u32::MAX,
        ensures
            final(self).empty_reads == old(self).empty_reads + 1,
            final(self).index_history@ == old(self).index_history@,
            final(self).last_text == old(self).last_text,
            final(self).typewriter_matched@ == old(self).typewriter_matched@,
            final(self).stable_count == old(self).stable_count,
            final(self).last_fingerprint == old(self).last_fingerprint,
    {
        self.empty_reads += 1;
    }

    /// Resets the empty-read count.
    pub fn reset_empty_reads(&mut self)
        ensures
            final(self).empty_reads == 0,
            final(self).index_history@ == old(self).index_history@,
            final(self).last_text == old(self).last_text,
            final(self).typewriter_matched@ == old(self).typewriter_matched@,
            final(self).stable_count == old(self).stable_count,
            final(self).last_fingerprint == old(self).last_fingerprint,
    {
        self.empty_reads = 0;
    }

    /// The current empty-read count.
    pub fn empty_reads(&self) -> (n: u32)
        ensures
            n == self.empty_reads,
    {
        self.empty_reads
    }

    /// Forgets all typewriter matches.
    pub fn clear_typewriter_cache(&mut self)
        ensures
            final(self).typewriter_matched@ == Map::<usize, usize>::empty(),
            final(self).index_history@ == old(self).index_history@,
            final(self).last_text == old(self).last_text,
            final(self).empty_reads == old(self).empty_reads,
            final(self).stable_count == old(self).stable_count,
            final(self).last_fingerprint == old(self).last_fingerprint,
    {
        self.typewriter_matched.clear();
    }

    /// Feeds the text of one read; true once the same (case-insensitive) text
    /// has been seen `stable_threshold` times in a row.
    pub fn update_stable_detection(&mut self, text: &str, stable_threshold: u32) -> (b: bool)
        requires
            opt_view(old(self).last_fingerprint) == Some(lowercase(text@)) ==> old(self).stable_count < u32::MAX,
        ensures
            opt_view(old(self).last_fingerprint) == Some(lowercase(text@)) ==> final(self).stable_count
                == old(self).stable_count + 1 && final(self).last_fingerprint == old(self).last_fingerprint,
            opt_view(old(self).last_fingerprint) != Some(lowercase(text@)) ==> final(self).stable_count == 1
                && opt_view(final(self).last_fingerprint) == Some(lowercase(text@)),
            (final(self).stable_count as int, opt_view(final(self).last_fingerprint))
                == stable_step((old(self).stable_count as int, opt_view(old(self).last_fingerprint)), text@),
            b == (final(self).stable_count >= stable_threshold),
            final(self).index_history@ == old(self).index_history@,
            final(self).last_text == old(self).last_text,
            final(self).typewriter_matched@ == old(self).typewriter_matched@,
            final(self).empty_reads == old(self).empty_reads,
    {
        let lowered = to_lowercase(text);
        let fingerprint = string_of(lowered.as_slice());
        let same = match &self.last_fingerprint {
            Some(last) => *last == fingerprint,
            None => false,
        };
        if same {
            self.stable_count += 1;
        } else {
            self.stable_count = 1;
            self.last_fingerprint = Some(fingerprint);
        }
        self.stable_count >= stable_threshold
    }

    /// Clears all state.
    pub fn reset(&mut self)
        ensures
            final(self).is_fresh(),
            final(self).wf(),
    {
        self.index_history.clear();
        self.last_text = None;
        self.typewriter_matched.clear();
        self.empty_reads = 0;
        self.stable_count = 0;
        self.last_fingerprint = None;
    }
}

// ---------------------------------------------------------------------------
// Garbage text
// ---------------------------------------------------------------------------

/// Punctuation that counts neither as a letter nor as a non-letter.
pub open spec fn is_ignored_punct(c: char) -> bool {
    c == '.' || c == ',' || c == '!' || c == '?' || c == '-' || c == '–' || c == '—' || c == '\''
        || c == '"' || c == ':'
}

/// Characters that are counted: neither whitespace nor ignored punctuation.
pub open spec fn counted(s: Seq<char>) -> Seq<char> {
    s.filter(|c: char| !is_ws(c) && !is_ignored_punct(c))
}

pub open spec fn letters(s: Seq<char>) -> Seq<char> {
    counted(s).filter(|c: char| is_alpha(c))
}

/// Garbage: fewer than `min_length` characters after trimming, nothing but
/// whitespace and punctuation, or a share of non-letters above
/// `max_non_letter_permille` / 1000.
pub open spec fn is_garbage(text: Seq<char>, max_non_letter_permille: u32, min_length: usize) -> bool {
    let t = trim(text);
    let total = counted(t).len();
    let letter_count = letters(t).len();
    if t.len() < min_length {
        true
    } else if total == 0 {
        true
    } else {
        (total - letter_count) * 1000 > max_non_letter_permille * total
    }
}

/// Surrounding whitespace does not change whether a text is garbage.
pub proof fn lemma_garbage_ignores_surrounding_space(text: Seq<char>, max_non_letter_permille: u32, min_length: usize)
    ensures
        is_garbage(trim(text), max_non_letter_permille, min_length) == is_garbage(text, max_non_letter_permille, min_length),
{
    crate::text::lemma_trim_idempotent(text);
}

/// The length test counts every character of the trimmed text, punctuation
/// included: a trimmed text shorter than `min_length` is garbage, and one of
/// at least `min_length` characters that holds a counted character (neither
/// whitespace nor ignored punctuation), all of whose counted characters are
/// letters, is not garbage, whatever the ratio allowed.
pub proof fn lemma_garbage_length_rule(text: Seq<char>, max_non_letter_permille: u32, min_length: usize)
    ensures
        trim(text).len() < min_length ==> is_garbage(text, max_non_letter_permille, min_length),
        trim(text).len() >= min_length
            && (exists|i: int| 0 <= i < trim(text).len()
                && !is_ws(#[trigger] trim(text)[i]) && !is_ignored_punct(trim(text)[i]))
            && (forall|i: int| 0 <= i < trim(text).len()
                && !is_ws(#[trigger] trim(text)[i]) && !is_ignored_punct(trim(text)[i]) ==> is_alpha(trim(text)[i]))
            ==> !is_garbage(text, max_non_letter_permille, min_length),
{
    let t = trim(text);
    if t.len() >= min_length
        && (exists|i: int| 0 <= i < t.len() && !is_ws(#[trigger] t[i]) && !is_ignored_punct(t[i]))
        && (forall|i: int| 0 <= i < t.len() && !is_ws(#[trigger] t[i]) && !is_ignored_punct(t[i]) ==> is_alpha(t[i])) {
        let p = |c: char| !is_ws(c) && !is_ignored_punct(c);
        let a = |c: char| is_alpha(c);
        let c = counted(t);
        assert(c == t.filter(p));
        let i = choose|i: int| 0 <= i < t.len() && !is_ws(#[trigger] t[i]) && !is_ignored_punct(t[i]);
        t.lemma_filter_contains(p, i);
        assert(c.len() > 0);
        assert forall|j: int| 0 <= j < c.len() implies a(#[trigger] c[j]) by {
            t.lemma_filter_pred(p, j);
            assert(c.contains(c[j]));
            t.lemma_filter_contains_rev(p, c[j]);
            let q = choose|q: int| 0 <= q < t.len() && t[q] == c[j];
            assert(!is_ws(t[q]) && !is_ignored_punct(t[q]));
        }
        lemma_filter_keeps_all(c, a);
        assert(letters(t) == c.filter(a));
    }
}

/// A trimmed text with no counted character (only whitespace and ignored
/// punctuation) is garbage.
pub proof fn lemma_garbage_without_counted(text: Seq<char>, max_non_letter_permille: u32, min_length: usize)
    requires
        forall|i: int| 0 <= i < trim(text).len() ==> is_ws(#[trigger] trim(text)[i]) || is_ignored_punct(trim(text)[i]),
    ensures
        is_garbage(text, max_non_letter_permille, min_length),
{
    let t = trim(text);
    let p = |c: char| !is_ws(c) && !is_ignored_punct(c);
    assert(counted(t) == t.filter(p));
    if counted(t).len() > 0 {
        t.lemma_filter_pred(p, 0);
        assert(counted(t).contains(counted(t)[0]));
        t.lemma_filter_contains_rev(p, counted(t)[0]);
    }
}

/// Allowing a larger share of non-letters, or asking for fewer characters,
/// never turns a clean text into garbage.
pub proof fn lemma_garbage_monotone(text: Seq<char>, permille_low: u32, permille_high: u32, min_low: usize, min_high: usize)
    requires
        permille_low <= permille_high,
        min_low <= min_high,
    ensures
        is_garbage(text, permille_high, min_low) ==> is_garbage(text, permille_low, min_high),
{
    let total = counted(trim(text)).len();
    assert(permille_low * total <= permille_high * total) by (nonlinear_arith)
        requires
            permille_low <= permille_high,
    ;
}

/// Filtering by a predicate that every item meets keeps the sequence.
proof fn lemma_filter_keeps_all(s: Seq<char>, p: spec_fn(char) -> bool)
    requires
        forall|j: int| 0 <= j < s.len() ==> p(#[trigger] s[j]),
    ensures
        s.filter(p) == s,
    decreases s.len(),
{
    reveal(Seq::filter);
    if s.len() > 0 {
        lemma_filter_keeps_all(s.drop_last(), p);
        assert(s.drop_last().push(s.last()) =~= s);
    }
}

/// Checks whether OCR text is garbage.
pub fn is_garbage_text(text: &str, max_non_letter_permille: u32, min_length: usize) -> (b: bool)
    ensures
        b == is_garbage(text@, max_non_letter_permille, min_length),
{
    let tv = chars_of(text);
    let t = trim_chars(tv.as_slice());
    if t.len() < min_length {
        return true;
    }
    let mut letter_count: usize = 0;
    let mut total: usize = 0;
    let mut i: usize = 0;
    while i < t.len()
        invariant
            i <= t@.len(),
            t@.len() * 4 <= isize::MAX,
            total == counted(t@.take(i as int)).len(),
            letter_count == letters(t@.take(i as int)).len(),
            letter_count <= total <= i,
        decreases t@.len() - i,
    {
        let ghost pre = t@.take(i as int);
        assert(t@.take(i + 1) =~= pre.push(t@[i as int]));
        let ch = t[i];
        proof {
            reveal(Seq::filter);
            assert(pre.push(ch).drop_last() =~= pre);
        }
        let ignored = char_is_whitespace(ch) || ch == '.' || ch == ',' || ch == '!' || ch == '?'
            || ch == '-' || ch == '–' || ch == '—' || ch == '\'' || ch == '"' || ch == ':';
        if !ignored {
            total += 1;
            if char_is_alphabetic(ch) {
                letter_count += 1;
            }
        }
        proof {
            if !ignored {
                assert(counted(pre.push(ch)) =~= counted(pre).push(ch));
                assert(counted(pre).push(ch).drop_last() =~= counted(pre));
                if is_alpha(ch) {
                    assert(letters(pre.push(ch)) =~= letters(pre).push(ch));
                } else {
                    assert(letters(pre.push(ch)) =~= letters(pre));
                }
            } else {
                assert(counted(pre.push(ch)) =~= counted(pre));
                assert(letters(pre.push(ch)) =~= letters(pre));
            }
        }
        i += 1;
    }
    assert(t@.take(t@.len() as int) =~= t@);
    if total == 0 {
        return true;
    }
    let non_letter = total - letter_count;
    proof {
        vstd::arithmetic::mul::lemma_mul_upper_bound(
            max_non_letter_permille as int, u32::MAX as int, total as int, usize::MAX as int);
    }
    (non_letter as u128) * 1000 > (max_non_letter_permille as u128) * (total as u128)
}

} // verus!
