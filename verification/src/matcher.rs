//! Fuzzy matcher: finds the dialogue line that OCR'd text belongs to.
//!
//! Scores are Indel ratios (0..=100) between the lower-cased OCR text and each
//! lower-cased line (in typewriter mode, the line's prefix of the same length).
//! Lines close enough to the best score and passing the length, coverage and
//! prefix filters are candidates; the winner is the best-scoring candidate, or,
//! once a line has been matched before, the candidate closest to it.

use vstd::prelude::*;
use crate::similarity::{indel_ratio, indel_ratio_chars, lemma_indel_ratio_range, lemma_indel_ratio_self};
use crate::text::{lowercase, to_lowercase, chars_of};

verus! {

/// Matcher configuration: thresholds, margins and window sizes.
#[derive(Debug, Clone, Copy, PartialEq, Eq)]
pub struct MatchConfig {
    /// Primary similarity threshold (0-100)
    pub similarity_threshold: u8,
    /// Secondary threshold for short lines (0-100)
    pub similarity_threshold2: u8,
    /// Lines (or texts) shorter than this use the secondary threshold
    pub short_line_max_length: usize,
    /// Score margin below the best score for candidates
    pub score_margin: u8,
    /// Forward search window size (lines ahead of last match)
    pub forward_window: usize,
    /// Backward search window size (lines before last match)
    pub back_window: usize,
    /// Score margin for global override (search outside window)
    pub global_override_margin: u8,
    /// Minimum share of the line the text must cover in typewriter mode, in percent
    pub typewriter_min_coverage_percent: u32,
    /// Disambiguation margin for typewriter mode
    pub typewriter_disambig_margin: u8,
}

pub const SIMILARITY_THRESHOLD: u8 = 75;
pub const SIMILARITY_THRESHOLD2: u8 = 90;
pub const SHORT_LINE_MAX_LENGTH: usize = 8;
pub const SCORE_MARGIN: u8 = 3;
pub const FORWARD_WINDOW: usize = 400;
pub const BACK_WINDOW: usize = 30;
pub const GLOBAL_OVERRIDE_MARGIN: u8 = 12;
pub const TYPEWRITER_MIN_COVERAGE_PERCENT: u32 = 65;
pub const TYPEWRITER_DISAMBIG_MARGIN: u8 = 20;

impl MatchConfig {
    pub open spec fn spec_default() -> MatchConfig {
        MatchConfig {
            similarity_threshold: SIMILARITY_THRESHOLD,
            similarity_threshold2: SIMILARITY_THRESHOLD2,
            short_line_max_length: SHORT_LINE_MAX_LENGTH,
            score_margin: SCORE_MARGIN,
            forward_window: FORWARD_WINDOW,
            back_window: BACK_WINDOW,
            global_override_margin: GLOBAL_OVERRIDE_MARGIN,
            typewriter_min_coverage_percent: TYPEWRITER_MIN_COVERAGE_PERCENT,
            typewriter_disambig_margin: TYPEWRITER_DISAMBIG_MARGIN,
        }
    }
}

impl Default for MatchConfig {
    fn default() -> (c: Self)
        ensures
            c == MatchConfig::spec_default(),
    {
        MatchConfig {
            similarity_threshold: SIMILARITY_THRESHOLD,
            similarity_threshold2: SIMILARITY_THRESHOLD2,
            short_line_max_length: SHORT_LINE_MAX_LENGTH,
            score_margin: SCORE_MARGIN,
            forward_window: FORWARD_WINDOW,
            back_window: BACK_WINDOW,
            global_override_margin: GLOBAL_OVERRIDE_MARGIN,
            typewriter_min_coverage_percent: TYPEWRITER_MIN_COVERAGE_PERCENT,
            typewriter_disambig_margin: TYPEWRITER_DISAMBIG_MARGIN,
        }
    }
}

/// Match state: the last matched line (1-based), -1 when nothing matched yet.
#[derive(Debug, Clone, Copy, PartialEq, Eq)]
pub struct MatchState {
    pub last_index: i64,
}

impl MatchState {
    /// Creates a new match state with no history.
    pub fn new() -> (s: Self)
        ensures
            s.last_index == -1,
    {
        MatchState { last_index: -1 }
    }

    /// Records a matched index.
    pub fn update(&mut self, index: usize)
        ensures
            final(self).last_index == index as i64,
    {
        self.last_index = index as i64;
    }

    /// Clears the history.
    pub fn reset(&mut self)
        ensures
            final(self).last_index == -1,
    {
        self.last_index = -1;
    }

    /// True once a line has been matched.
    pub fn has_history(&self) -> (b: bool)
        ensures
            b == (self.last_index >= 0),
    {
        self.last_index >= 0
    }
}

/// Matched line index (1-based) and its similarity score.
#[derive(Debug, Clone, Copy, PartialEq, Eq)]
pub struct MatchResult {
    pub index: usize,
    pub score: u8,
}

// ---------------------------------------------------------------------------
// Specification
// ---------------------------------------------------------------------------

pub open spec fn min_int(a: int, b: int) -> int {
    if a <= b {
        a
    } else {
        b
    }
}

pub open spec fn sat_sub(a: int, b: int) -> int {
    if a >= b {
        a - b
    } else {
        0
    }
}

pub open spec fn abs_int(a: int) -> int {
    if a >= 0 {
        a
    } else {
        -a
    }
}

/// Score of one (lower-cased) line against the lower-cased text.
pub open spec fn line_score(t: Seq<char>, l: Seq<char>, typewriter: bool) -> int {
    if typewriter {
        indel_ratio(t, l.take(min_int(t.len() as int, l.len() as int)))
    } else {
        indel_ratio(t, l)
    }
}

/// Score of line `i` of `lines` (original, not lower-cased, characters).
pub open spec fn score_at(t: Seq<char>, lines: Seq<Seq<char>>, typewriter: bool, i: int) -> int {
    line_score(t, lowercase(lines[i]), typewriter)
}

/// Highest score among the first `n` lines (0 for none).
pub open spec fn best_upto(t: Seq<char>, lines: Seq<Seq<char>>, typewriter: bool, n: int) -> int
    decreases n,
{
    if n <= 0 {
        0
    } else {
        let prev = best_upto(t, lines, typewriter, n - 1);
        let s = score_at(t, lines, typewriter, n - 1);
        if s > prev {
            s
        } else {
            prev
        }
    }
}

pub open spec fn threshold_for(cfg: MatchConfig, text_len: int, line_len: int) -> int {
    if text_len < cfg.short_line_max_length || line_len < cfg.short_line_max_length {
        cfg.similarity_threshold2 as int
    } else {
        cfg.similarity_threshold as int
    }
}

/// Whether line `i` survives the candidate filters.
pub open spec fn is_candidate(
    cfg: MatchConfig,
    t: Seq<char>,
    lines: Seq<Seq<char>>,
    typewriter: bool,
    i: int,
) -> bool {
    let text_len = t.len() as int;
    let line_len = lines[i].len() as int;
    let l = lowercase(lines[i]);
    let score = score_at(t, lines, typewriter, i);
    let min_viable = sat_sub(best_upto(t, lines, typewriter, lines.len() as int), cfg.score_margin as int);
    let p = min_int(4, text_len);
    &&& score >= min_viable
    &&& score >= threshold_for(cfg, text_len, line_len)
    &&& !(text_len > line_len * 2 && score < 90)
    &&& !(!typewriter && line_len > text_len * 2 && score < 90)
    &&& typewriter && line_len > 0 ==> text_len * 100 >= cfg.typewriter_min_coverage_percent * line_len
    &&& typewriter && p >= 2 ==> indel_ratio(t.take(p), l.take(min_int(p, l.len() as int))) >= 60
}

/// Whether candidate `i` ranks before candidate `j`.
pub open spec fn ranks_before(
    history: bool,
    last: int,
    i: int,
    si: int,
    j: int,
    sj: int,
) -> bool {
    let better_score = si > sj || (si == sj && i < j);
    if history {
        let di = abs_int(i + 1 - last);
        let dj = abs_int(j + 1 - last);
        di < dj || (di == dj && better_score)
    } else {
        better_score
    }
}

/// The top-ranked candidate among the first `n` lines.
pub open spec fn pick_upto(
    cfg: MatchConfig,
    t: Seq<char>,
    lines: Seq<Seq<char>>,
    typewriter: bool,
    last_index: i64,
    n: int,
) -> Option<int>
    decreases n,
{
    if n <= 0 {
        None
    } else {
        let prev = pick_upto(cfg, t, lines, typewriter, last_index, n - 1);
        let i = n - 1;
        if is_candidate(cfg, t, lines, typewriter, i) && (prev is None || ranks_before(
            last_index >= 0,
            last_index as int,
            i,
            score_at(t, lines, typewriter, i),
            prev->0,
            score_at(t, lines, typewriter, prev->0),
        )) {
            Some(i)
        } else {
            prev
        }
    }
}

/// Another candidate scores within the disambiguation margin of the winner.
pub open spec fn has_rival(
    cfg: MatchConfig,
    t: Seq<char>,
    lines: Seq<Seq<char>>,
    typewriter: bool,
    w: int,
) -> bool {
    exists|c: int|
        0 <= c < lines.len() && c != w && #[trigger] is_candidate(cfg, t, lines, typewriter, c)
            && score_at(t, lines, typewriter, c) >= sat_sub(
            score_at(t, lines, typewriter, w),
            cfg.typewriter_disambig_margin as int,
        )
}

/// The match, as (1-based line index, score).
pub open spec fn best_match(
    cfg: MatchConfig,
    text: Seq<char>,
    lines: Seq<Seq<char>>,
    last_index: i64,
    typewriter: bool,
    frame_stable: bool,
) -> Option<(int, int)> {
    let t = lowercase(text);
    if lines.len() == 0 || text.len() == 0 {
        None
    } else if best_upto(t, lines, typewriter, lines.len() as int) < cfg.similarity_threshold {
        None
    } else {
        match pick_upto(cfg, t, lines, typewriter, last_index, lines.len() as int) {
            None => None,
            Some(w) => if typewriter && !frame_stable && has_rival(cfg, t, lines, typewriter, w) {
                None
            } else {
                Some((w + 1, score_at(t, lines, typewriter, w)))
            },
        }
    }
}

pub open spec fn views(lines: Seq<String>) -> Seq<Seq<char>> {
    lines.map_values(|s: String| s@)
}

// ---------------------------------------------------------------------------
// Implementation
// ---------------------------------------------------------------------------

proof fn lemma_pick_is_candidate(
    cfg: MatchConfig,
    t: Seq<char>,
    lines: Seq<Seq<char>>,
    typewriter: bool,
    last_index: i64,
    n: int,
)
    ensures
        pick_upto(cfg, t, lines, typewriter, last_index, n) matches Some(w) ==> 0 <= w < n
            && is_candidate(cfg, t, lines, typewriter, w),
    decreases n,
{
    if n > 0 {
        lemma_pick_is_candidate(cfg, t, lines, typewriter, last_index, n - 1);
    }
}

proof fn lemma_best_upto_bounds(t: Seq<char>, lines: Seq<Seq<char>>, typewriter: bool, n: int)
    ensures
        0 <= best_upto(t, lines, typewriter, n) <= 100,
        forall|i: int| 0 <= i < n ==> #[trigger] score_at(t, lines, typewriter, i) <= best_upto(t, lines, typewriter, n),
    decreases n,
{
    if n > 0 {
        lemma_best_upto_bounds(t, lines, typewriter, n - 1);
        let l = lowercase(lines[n - 1]);
        lemma_indel_ratio_range(t, l);
        lemma_indel_ratio_range(t, l.take(min_int(t.len() as int, l.len() as int)));
    }
}

/// Default fuzzy matcher.
pub struct FuzzyMatcher {
    pub config: MatchConfig,
}

impl FuzzyMatcher {
    /// Creates a matcher with the given configuration.
    pub fn new(config: MatchConfig) -> (m: Self)
        ensures
            m.config == config,
    {
        FuzzyMatcher { config }
    }

    /// Creates a matcher with the default configuration.
    pub fn with_defaults() -> (m: Self)
        ensures
            m.config == MatchConfig::spec_default(),
    {
        FuzzyMatcher { config: MatchConfig::default() }
    }

    fn get_threshold(&self, text_len: usize, line_len: usize) -> (r: u8)
        ensures
            r == threshold_for(self.config, text_len as int, line_len as int),
    {
        if text_len < self.config.short_line_max_length || line_len < self.config.short_line_max_length {
            self.config.similarity_threshold2
        } else {
            self.config.similarity_threshold
        }
    }

    /// Finds the best matching line for `text`; `None` when there is no line,
    /// no text, no score reaching the threshold, no candidate, or (typewriter
    /// mode on an unstable frame) a rival within the disambiguation margin.
    pub fn find_best_match(
        &self,
        text: &str,
        lines: &[String],
        state: &MatchState,
        typewriter_mode: bool,
        frame_stable: bool,
    ) -> (r: Option<MatchResult>)
        ensures
            r matches Some(m) ==> best_match(
                self.config,
                text@,
                views(lines@),
                state.last_index,
                typewriter_mode,
                frame_stable,
            ) == Some((m.index as int, m.score as int)),
            r is None ==> best_match(
                self.config,
                text@,
                views(lines@),
                state.last_index,
                typewriter_mode,
                frame_stable,
            ) is None,
            r matches Some(m) ==> 1 <= m.index <= lines@.len(),
    {
        let ghost raw = views(lines@);
        if lines.len() == 0 || text.is_empty() {
            return None;
        }
        let t = to_lowercase(text);
        let ghost tv = lowercase(text@);
        let text_len = t.len();
        let n = lines.len();
        // Scores, lower-cased lines and character counts of every line.
        let mut lowered: Vec<Vec<char>> = Vec::new();
        let mut line_lens: Vec<usize> = Vec::new();
        let mut scores: Vec<u8> = Vec::new();
        let mut best: u8 = 0;
        let mut i: usize = 0;
        while i < n
            invariant
                n == lines@.len() == raw.len(),
                raw == views(lines@),
                t@ == tv,
                text_len == tv.len(),
                text_len * 4 <= isize::MAX,
                i <= n,
                lowered@.len() == i,
                line_lens@.len() == i,
                scores@.len() == i,
                forall|k: int| 0 <= k < i ==> #[trigger] lowered@[k]@ == lowercase(raw[k]),
                forall|k: int| 0 <= k < i ==> #[trigger] lowered@[k]@.len() * 4 <= isize::MAX,
                forall|k: int| 0 <= k < i ==> #[trigger] line_lens@[k] == raw[k].len(),
                forall|k: int| 0 <= k < i ==> #[trigger] line_lens@[k] * 4 <= isize::MAX,
                forall|k: int| 0 <= k < i ==> #[trigger] scores@[k] == score_at(tv, raw, typewriter_mode, k),
                best == best_upto(tv, raw, typewriter_mode, i as int),
            decreases n - i,
        {
            let l = to_lowercase(lines[i].as_str());
            let cs = chars_of(lines[i].as_str());
            proof {
                assert(raw[i as int] == lines@[i as int]@);
                lemma_best_upto_bounds(tv, raw, typewriter_mode, i as int + 1);
            }
            let score = if typewriter_mode {
                let plen = if text_len <= l.len() { text_len } else { l.len() };
                let prefix = vstd::slice::slice_subrange(l.as_slice(), 0, plen);
                assert(prefix@ =~= l@.take(min_int(tv.len() as int, l@.len() as int)));
                indel_ratio_chars(t.as_slice(), prefix)
            } else {
                indel_ratio_chars(t.as_slice(), l.as_slice())
            };
            if score > best {
                best = score;
            }
            lowered.push(l);
            line_lens.push(cs.len());
            scores.push(score);
            i += 1;
        }
        if best < self.config.similarity_threshold {
            return None;
        }
        proof {
            lemma_best_upto_bounds(tv, raw, typewriter_mode, n as int);
        }
        let min_viable: u8 = if best >= self.config.score_margin { best - self.config.score_margin } else { 0 };
        // Candidate filters and the running winner.
        let history = state.last_index >= 0;
        let last: i64 = state.last_index;
        let mut cands: Vec<bool> = Vec::new();
        let mut winner: Option<usize> = None;
        let mut i: usize = 0;
        while i < n
            invariant
                n == lines@.len() == raw.len(),
                t@ == tv,
                text_len == tv.len(),
                text_len * 4 <= isize::MAX,
                lowered@.len() == n,
                line_lens@.len() == n,
                scores@.len() == n,
                forall|k: int| 0 <= k < n ==> #[trigger] lowered@[k]@ == lowercase(raw[k]),
                forall|k: int| 0 <= k < n ==> #[trigger] lowered@[k]@.len() * 4 <= isize::MAX,
                forall|k: int| 0 <= k < n ==> #[trigger] line_lens@[k] == raw[k].len(),
                forall|k: int| 0 <= k < n ==> #[trigger] line_lens@[k] * 4 <= isize::MAX,
                forall|k: int| 0 <= k < n ==> #[trigger] scores@[k] == score_at(tv, raw, typewriter_mode, k),
                best == best_upto(tv, raw, typewriter_mode, n as int),
                min_viable == sat_sub(best as int, self.config.score_margin as int),
                history == (last >= 0),
                last == state.last_index,
                i <= n,
                cands@.len() == i,
                forall|k: int| 0 <= k < i ==> #[trigger] cands@[k] == is_candidate(self.config, tv, raw, typewriter_mode, k),
                winner matches Some(w) ==> w < i,
                winner matches Some(w) ==> pick_upto(self.config, tv, raw, typewriter_mode, last, i as int) == Some(w as int),
                winner is None ==> pick_upto(self.config, tv, raw, typewriter_mode, last, i as int) is None,
            decreases n - i,
        {
            let score = scores[i];
            let line_len = line_lens[i];
            assert(line_lens@[i as int] * 4 <= isize::MAX);
            let threshold = self.get_threshold(text_len, line_len);
            let mut ok = score >= min_viable && score >= threshold;
            if text_len > line_len * 2 && score < 90 {
                ok = false;
            }
            if !typewriter_mode && line_len > text_len * 2 && score < 90 {
                ok = false;
            }
            if typewriter_mode {
                proof {
                    vstd::arithmetic::mul::lemma_mul_upper_bound(
                        self.config.typewriter_min_coverage_percent as int, u32::MAX as int,
                        line_len as int, isize::MAX as int);
                }
                if line_len > 0 && (text_len as u128) * 100 < (self.config.typewriter_min_coverage_percent as u128) * (line_len as u128) {
                    ok = false;
                }
                let p = if text_len < 4 { text_len } else { 4 };
                if p >= 2 {
                    let l = &lowered[i];
                    let lp = if p <= l.len() { p } else { l.len() };
                    let tp = vstd::slice::slice_subrange(t.as_slice(), 0, p);
                    let lpre = vstd::slice::slice_subrange(l.as_slice(), 0, lp);
                    assert(tp@ =~= tv.take(p as int));
                    assert(lpre@ =~= lowercase(raw[i as int]).take(min_int(p as int, lowercase(raw[i as int]).len() as int)));
                    let pr = indel_ratio_chars(tp, lpre);
                    if pr < 60 {
                        ok = false;
                    }
                }
            }
            assert(ok == is_candidate(self.config, tv, raw, typewriter_mode, i as int));
            if ok {
                let replace = match winner {
                    None => true,
                    Some(w) => {
                        let sw = scores[w];
                        let better_score = score > sw || (score == sw && i < w);
                        if history {
                            let di = abs_diff(i + 1, last);
                            let dw = abs_diff(w + 1, last);
                            di < dw || (di == dw && better_score)
                        } else {
                            better_score
                        }
                    },
                };
                if replace {
                    winner = Some(i);
                }
            }
            cands.push(ok);
            i += 1;
        }
        let w = match winner {
            None => {
                return None;
            },
            Some(w) => w,
        };
        proof {
            lemma_pick_is_candidate(self.config, tv, raw, typewriter_mode, last, n as int);
        }
        let sw = scores[w];
        if typewriter_mode && !frame_stable {
            let floor: u8 = if sw >= self.config.typewriter_disambig_margin { sw - self.config.typewriter_disambig_margin } else { 0 };
            let mut c: usize = 0;
            while c < n
                invariant
                    n == raw.len(),
                    cands@.len() == n,
                    scores@.len() == n,
                    forall|k: int| 0 <= k < n ==> #[trigger] cands@[k] == is_candidate(self.config, tv, raw, typewriter_mode, k),
                    forall|k: int| 0 <= k < n ==> #[trigger] scores@[k] == score_at(tv, raw, typewriter_mode, k),
                    w < n,
                    pick_upto(self.config, tv, raw, typewriter_mode, last, n as int) == Some(w as int),
                    last == state.last_index,
                    raw == views(lines@),
                    tv == lowercase(text@),
                    n > 0,
                    text@.len() > 0,
                    typewriter_mode && !frame_stable,
                    best_upto(tv, raw, typewriter_mode, n as int) >= self.config.similarity_threshold,
                    floor == sat_sub(scores@[w as int] as int, self.config.typewriter_disambig_margin as int),
                    c <= n,
                    forall|k: int| 0 <= k < c && k != w && #[trigger] is_candidate(self.config, tv, raw, typewriter_mode, k)
                        ==> score_at(tv, raw, typewriter_mode, k) < floor,
                decreases n - c,
            {
                if c != w && cands[c] && scores[c] >= floor {
                    assert(is_candidate(self.config, tv, raw, typewriter_mode, c as int));
                    assert(has_rival(self.config, tv, raw, typewriter_mode, w as int));
                    assert(pick_upto(self.config, tv, raw, typewriter_mode, last, n as int) == Some(w as int));
                    assert(best_match(self.config, text@, raw, state.last_index, typewriter_mode, frame_stable) is None);
                    return None;
                }
                c += 1;
            }
        }
        Some(MatchResult { index: w + 1, score: sw })
    }
}

/// `|a - b|` for a 1-based index against the last matched index.
fn abs_diff(a: usize, b: i64) -> (r: u128)
    requires
        b >= 0,
    ensures
        r == abs_int(a - b),
{
    let a2 = a as u128;
    let b2 = b as u128;
    if a2 >= b2 {
        a2 - b2
    } else {
        b2 - a2
    }
}

/// Fuzzy text matcher interface.
pub trait Matcher {
    /// Finds the best matching line for the given text.
    fn find_best_match(
        &self,
        text: &str,
        lines: &[String],
        state: &MatchState,
        typewriter_mode: bool,
        frame_stable: bool,
    ) -> Option<MatchResult>;
}

impl Matcher for FuzzyMatcher {
    fn find_best_match(
        &self,
        text: &str,
        lines: &[String],
        state: &MatchState,
        typewriter_mode: bool,
        frame_stable: bool,
    ) -> (r: Option<MatchResult>)
        ensures
            r matches Some(m) ==> best_match(
                self.config,
                text@,
                views(lines@),
                state.last_index,
                typewriter_mode,
                frame_stable,
            ) == Some((m.index as int, m.score as int)),
            r is None ==> best_match(
                self.config,
                text@,
                views(lines@),
                state.last_index,
                typewriter_mode,
                frame_stable,
            ) is None,
            r matches Some(m) ==> 1 <= m.index <= lines@.len(),
    {
        FuzzyMatcher::find_best_match(self, text, lines, state, typewriter_mode, frame_stable)
    }
}

/// A line equal to the text (ignoring case) makes the matcher answer with
/// score 100 when typewriter mode is off and nothing was matched before.
pub proof fn lemma_identity_match(cfg: MatchConfig, text: Seq<char>, lines: Seq<Seq<char>>, i: int)
    requires
        0 <= i < lines.len(),
        text.len() > 0,
        lowercase(lines[i]) == lowercase(text),
        cfg.similarity_threshold <= 100,
        cfg.similarity_threshold2 <= 100,
    ensures
        best_match(cfg, text, lines, -1i64, false, false) matches Some(m) && m.1 == 100,
{
    let t = lowercase(text);
    let n = lines.len() as int;
    lemma_indel_ratio_self(t);
    lemma_best_upto_bounds(t, lines, false, n);
    assert(score_at(t, lines, false, i) == 100);
    assert(best_upto(t, lines, false, n) == 100);
    assert(is_candidate(cfg, t, lines, false, i));
    lemma_pick_wins(cfg, t, lines, -1i64, n, i);
    lemma_pick_is_candidate(cfg, t, lines, false, -1i64, n);
}

/// A match points at an existing line, carries that line's score, and the
/// score clears the threshold for the text and line lengths.
pub proof fn lemma_match_meets_threshold(
    cfg: MatchConfig,
    text: Seq<char>,
    lines: Seq<Seq<char>>,
    last_index: i64,
    typewriter: bool,
    frame_stable: bool,
)
    ensures
        best_match(cfg, text, lines, last_index, typewriter, frame_stable) matches Some(m) ==> {
            &&& 1 <= m.0 <= lines.len()
            &&& m.1 == score_at(lowercase(text), lines, typewriter, m.0 - 1)
            &&& m.1 >= threshold_for(cfg, lowercase(text).len() as int, lines[m.0 - 1].len() as int)
        },
{
    lemma_pick_is_candidate(cfg, lowercase(text), lines, typewriter, last_index, lines.len() as int);
}

/// No line scores more than the score margin above the returned match: a
/// line is only chosen when its score is within the margin of the best one.
pub proof fn lemma_match_near_best(
    cfg: MatchConfig,
    text: Seq<char>,
    lines: Seq<Seq<char>>,
    last_index: i64,
    typewriter: bool,
    frame_stable: bool,
)
    ensures
        best_match(cfg, text, lines, last_index, typewriter, frame_stable) matches Some(m) ==>
            forall|i: int| 0 <= i < lines.len()
                ==> #[trigger] score_at(lowercase(text), lines, typewriter, i) <= m.1 + cfg.score_margin,
{
    let t = lowercase(text);
    lemma_pick_is_candidate(cfg, t, lines, typewriter, last_index, lines.len() as int);
    lemma_best_upto_bounds(t, lines, typewriter, lines.len() as int);
}

/// The matcher is deterministic: two answers for the same text, lines,
/// last match and mode are the same answer.
pub proof fn lemma_match_deterministic(
    cfg: MatchConfig,
    text: Seq<char>,
    lines: Seq<Seq<char>>,
    last_index: i64,
    typewriter: bool,
    frame_stable: bool,
    first: Option<(int, int)>,
    second: Option<(int, int)>,
)
    requires
        first == best_match(cfg, text, lines, last_index, typewriter, frame_stable),
        second == best_match(cfg, text, lines, last_index, typewriter, frame_stable),
    ensures
        first == second,
{
}

/// Candidate `w` beats candidate `c`: with history, by being closer to the
/// last match (1-based `last`), then by score, then by position; without
/// history, by score, then by position.
pub open spec fn wins_over(history: bool, last: int, w: int, sw: int, c: int, sc: int) -> bool {
    let by_score = sw > sc || (sw == sc && w < c);
    if history {
        let dw = abs_int(w + 1 - last);
        let dc = abs_int(c + 1 - last);
        dw < dc || (dw == dc && by_score)
    } else {
        by_score
    }
}

proof fn lemma_pick_beats_all(
    cfg: MatchConfig,
    t: Seq<char>,
    lines: Seq<Seq<char>>,
    typewriter: bool,
    last_index: i64,
    n: int,
)
    ensures
        pick_upto(cfg, t, lines, typewriter, last_index, n) matches Some(w) ==> forall|c: int|
            0 <= c < n && c != w && #[trigger] is_candidate(cfg, t, lines, typewriter, c) ==> wins_over(
                last_index >= 0,
                last_index as int,
                w,
                score_at(t, lines, typewriter, w),
                c,
                score_at(t, lines, typewriter, c),
            ),
        pick_upto(cfg, t, lines, typewriter, last_index, n) is None ==> forall|c: int|
            0 <= c < n ==> !#[trigger] is_candidate(cfg, t, lines, typewriter, c),
    decreases n,
{
    if n > 0 {
        lemma_pick_beats_all(cfg, t, lines, typewriter, last_index, n - 1);
        lemma_pick_is_candidate(cfg, t, lines, typewriter, last_index, n - 1);
    }
}

/// The matcher's choice among the candidates: once a line has been matched
/// (`last_index >= 0`), the returned line is at least as close to it as any
/// other candidate, and a score only decides between candidates at the same
/// distance (then the earlier line); before any match, the returned line
/// has the highest score of all candidates (the earliest among equals).
pub proof fn lemma_match_choice(
    cfg: MatchConfig,
    text: Seq<char>,
    lines: Seq<Seq<char>>,
    last_index: i64,
    typewriter: bool,
    frame_stable: bool,
)
    ensures
        best_match(cfg, text, lines, last_index, typewriter, frame_stable) matches Some(m) ==> {
            &&& is_candidate(cfg, lowercase(text), lines, typewriter, m.0 - 1)
            &&& forall|c: int| 0 <= c < lines.len() && c != m.0 - 1
                && #[trigger] is_candidate(cfg, lowercase(text), lines, typewriter, c) ==> {
                let sc = score_at(lowercase(text), lines, typewriter, c);
                let by_score = m.1 > sc || (m.1 == sc && m.0 - 1 < c);
                if last_index >= 0 {
                    let dm = abs_int(m.0 - last_index);
                    let dc = abs_int(c + 1 - last_index);
                    dm < dc || (dm == dc && by_score)
                } else {
                    by_score
                }
            }
        },
{
    let t = lowercase(text);
    lemma_pick_beats_all(cfg, t, lines, typewriter, last_index, lines.len() as int);
    lemma_pick_is_candidate(cfg, t, lines, typewriter, last_index, lines.len() as int);
}

/// Without history the top-ranked candidate has the best score of all
/// candidates.
proof fn lemma_pick_wins(cfg: MatchConfig, t: Seq<char>, lines: Seq<Seq<char>>, last: i64, n: int, i: int)
    requires
        last < 0,
        0 <= i < n,
        is_candidate(cfg, t, lines, false, i),
    ensures
        pick_upto(cfg, t, lines, false, last, n) matches Some(w)
            && score_at(t, lines, false, w) >= score_at(t, lines, false, i),
    decreases n,
{
    if i < n - 1 {
        lemma_pick_wins(cfg, t, lines, last, n - 1, i);
    }
    if n - 1 > 0 && i == n - 1 {
        lemma_pick_is_candidate(cfg, t, lines, false, last, n - 1);
    }
}

} // verus!
