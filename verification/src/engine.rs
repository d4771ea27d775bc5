//! The matching stage of the reader: from the texts of one OCR read to the
//! dialogue lines to voice, with the deduplication and typewriter rules.
//! Reading the dialogue files, sleeping and sending the results stay with
//! the caller, which hands each read to `MatcherWorker::process_read`.

use vstd::prelude::*;
use crate::dedup::{history_after, lemma_history_bounded, is_garbage, is_garbage_text, opt_view, text_similarity, DedupState};
use crate::matcher::{best_match, lemma_match_meets_threshold, views, FuzzyMatcher, MatchConfig, MatchState};
use crate::text::{
    lines, lines_of,
    byte_len, byte_len_capped, chars_of, join, join_chars, split_chars, split_on, string_of, trim,
    trim_chars,
};
use crate::text_filters::{name_removal, CharacterNameFilter};

verus! {

/// Consecutive empty reads after which the worker idles between reads.
pub const EMPTY_READS_TO_IDLE: u32 = 3;
/// Identical consecutive reads after which a frame counts as stable.
pub const TYPEWRITER_STABLE_READS: u32 = 2;
/// Garbage filter: largest share of non-letters, in per mille.
pub const GARBAGE_NON_LETTER_PERMILLE: u32 = 300;
/// Garbage filter and length check: shortest text considered.
pub const MIN_TEXT_LENGTH: usize = 3;
/// Matched lines at least this similar to the previous one are skipped.
pub const DUPLICATE_TEXT_THRESHOLD: u8 = 92;

/// The matching state the rules read and write: recent matched indices, the
/// last matched line text, the per-paragraph typewriter matches and the
/// matcher's last index.
pub open spec fn match_view(dedup: DedupState, state: MatchState) -> (Seq<usize>, Option<Seq<char>>, Map<usize, usize>, i64) {
    (dedup.index_history@, opt_view(dedup.last_text), dedup.typewriter_matched@, state.last_index)
}

/// The trimmed, non-empty pieces, in order.
pub open spec fn trimmed_nonempty(parts: Seq<Seq<char>>) -> Seq<Seq<char>>
    decreases parts.len(),
{
    if parts.len() == 0 {
        Seq::empty()
    } else {
        let r = trimmed_nonempty(parts.drop_last());
        let t = trim(parts.last());
        if t.len() > 0 {
            r.push(t)
        } else {
            r
        }
    }
}

/// One dialogue's text as a single sentence: its lines trimmed, empty ones
/// dropped, joined with spaces.
pub open spec fn flat_line(text: Seq<char>) -> Seq<char> {
    join(trimmed_nonempty(split_on(text, seq!['\n'])), seq![' '])
}

/// A text after the character-name filter, when there is one.
pub open spec fn cleaned(names: Option<Seq<Seq<char>>>, text: Seq<char>) -> Seq<char> {
    match names {
        Some(n) => name_removal(n, text)->0,
        None => text,
    }
}

/// The non-empty flattened texts of the first `n` entries, with their
/// paragraph index.
pub open spec fn line_items(names: Option<Seq<Seq<char>>>, texts: Seq<Seq<char>>, n: int) -> Seq<(usize, Seq<char>)>
    decreases n,
{
    if n <= 0 {
        Seq::empty()
    } else {
        let r = line_items(names, texts, n - 1);
        let j = flat_line(cleaned(names, texts[n - 1]));
        if j.len() > 0 {
            r.push(((n - 1) as usize, j))
        } else {
            r
        }
    }
}

/// One line of a read: the new matching state and the line index to voice.
pub open spec fn match_step(
    cfg: MatchConfig,
    lines: Seq<Seq<char>>,
    typewriter: bool,
    paragraph_mode: bool,
    stable: bool,
    s: (Seq<usize>, Option<Seq<char>>, Map<usize, usize>, i64),
    item: (usize, Seq<char>),
) -> ((Seq<usize>, Option<Seq<char>>, Map<usize, usize>, i64), Option<usize>) {
    let (para, text) = item;
    let per_paragraph = typewriter && paragraph_mode;
    if is_garbage(text, GARBAGE_NON_LETTER_PERMILLE, MIN_TEXT_LENGTH) || byte_len(text) < MIN_TEXT_LENGTH {
        (s, None)
    } else {
        match best_match(cfg, text, lines, s.3, typewriter, stable) {
            None => (s, None),
            Some((idx, _score)) => {
                let i = idx as usize;
                if per_paragraph && s.2.contains_key(para) && s.2[para] == i {
                    (s, None)
                } else if s.0.contains(i) {
                    (s, None)
                } else if (s.1 matches Some(last) && text_similarity(lines[idx - 1], last) >= DUPLICATE_TEXT_THRESHOLD) {
                    (s, None)
                } else {
                    ((
                        history_after(s.0, i),
                        Some(lines[idx - 1]),
                        if per_paragraph { s.2.insert(para, i) } else { s.2 },
                        i as i64,
                    ), Some(i))
                }
            },
        }
    }
}

/// All lines of a read, in order: the final state and the indices voiced.
pub open spec fn match_items(
    cfg: MatchConfig,
    lines: Seq<Seq<char>>,
    typewriter: bool,
    paragraph_mode: bool,
    stable: bool,
    s: (Seq<usize>, Option<Seq<char>>, Map<usize, usize>, i64),
    items: Seq<(usize, Seq<char>)>,
) -> ((Seq<usize>, Option<Seq<char>>, Map<usize, usize>, i64), Seq<usize>)
    decreases items.len(),
{
    if items.len() == 0 {
        (s, Seq::empty())
    } else {
        let (s1, out) = match_items(cfg, lines, typewriter, paragraph_mode, stable, s, items.drop_last());
        let (s2, m) = match_step(cfg, lines, typewriter, paragraph_mode, stable, s1, items.last());
        match m {
            Some(i) => (s2, out.push(i)),
            None => (s2, out),
        }
    }
}

/// Within one read, every voiced index is a line of the dialogue (1-based),
/// the first is not among the recently voiced lines handed in, and a line
/// is not voiced again before two other lines were voiced in between.
pub proof fn lemma_voiced_lines_spaced(
    cfg: MatchConfig,
    lines: Seq<Seq<char>>,
    typewriter: bool,
    paragraph_mode: bool,
    stable: bool,
    s: (Seq<usize>, Option<Seq<char>>, Map<usize, usize>, i64),
    items: Seq<(usize, Seq<char>)>,
)
    requires
        s.0.len() <= 2,
        lines.len() <= usize::MAX,
    ensures
        forall|k: int| 0 <= k < match_items(cfg, lines, typewriter, paragraph_mode, stable, s, items).1.len()
            ==> 1 <= #[trigger] match_items(cfg, lines, typewriter, paragraph_mode, stable, s, items).1[k] <= lines.len(),
        match_items(cfg, lines, typewriter, paragraph_mode, stable, s, items).1.len() > 0
            ==> !s.0.contains(match_items(cfg, lines, typewriter, paragraph_mode, stable, s, items).1[0]),
        forall|k: int| 0 <= k < match_items(cfg, lines, typewriter, paragraph_mode, stable, s, items).1.len() - 1
            ==> #[trigger] match_items(cfg, lines, typewriter, paragraph_mode, stable, s, items).1[k]
                != match_items(cfg, lines, typewriter, paragraph_mode, stable, s, items).1[k + 1],
        forall|k: int| 0 <= k < match_items(cfg, lines, typewriter, paragraph_mode, stable, s, items).1.len() - 2
            ==> #[trigger] match_items(cfg, lines, typewriter, paragraph_mode, stable, s, items).1[k]
                != match_items(cfg, lines, typewriter, paragraph_mode, stable, s, items).1[k + 2],
{
    lemma_voiced_history(cfg, lines, typewriter, paragraph_mode, stable, s, items);
}

proof fn lemma_voiced_history(
    cfg: MatchConfig,
    lines: Seq<Seq<char>>,
    typewriter: bool,
    paragraph_mode: bool,
    stable: bool,
    s: (Seq<usize>, Option<Seq<char>>, Map<usize, usize>, i64),
    items: Seq<(usize, Seq<char>)>,
)
    requires
        s.0.len() <= 2,
        lines.len() <= usize::MAX,
    ensures
        ({
            let (s2, out) = match_items(cfg, lines, typewriter, paragraph_mode, stable, s, items);
            &&& s2.0.len() <= 2
            &&& out.len() > 0 ==> s2.0.len() >= 1 && s2.0.last() == out.last()
            &&& out.len() > 1 ==> s2.0.len() == 2 && s2.0[0] == out[out.len() - 2]
            &&& out.len() == 0 ==> s2.0 == s.0
            &&& out.len() > 0 ==> !s.0.contains(out[0])
            &&& forall|k: int| 0 <= k < out.len() ==> 1 <= #[trigger] out[k] <= lines.len()
            &&& forall|k: int| 0 <= k < out.len() - 1 ==> #[trigger] out[k] != out[k + 1]
            &&& forall|k: int| 0 <= k < out.len() - 2 ==> #[trigger] out[k] != out[k + 2]
        }),
    decreases items.len(),
{
    if items.len() > 0 {
        lemma_voiced_history(cfg, lines, typewriter, paragraph_mode, stable, s, items.drop_last());
        let (s1, out1) = match_items(cfg, lines, typewriter, paragraph_mode, stable, s, items.drop_last());
        let (s2, m) = match_step(cfg, lines, typewriter, paragraph_mode, stable, s1, items.last());
        let (para, text) = items.last();
        lemma_match_meets_threshold(cfg, text, lines, s1.3, typewriter, stable);
        match m {
            Some(i) => {
                lemma_history_bounded(s1.0, i);
                let out = out1.push(i);
                assert(!s1.0.contains(i));
                if out1.len() > 0 {
                    assert(s1.0[s1.0.len() - 1] == out1.last());
                }
                if s1.0.len() == 2 {
                    assert(s1.0.contains(s1.0[0]));
                    assert(s1.0.contains(s1.0[1]));
                }
                assert(s2.0 == history_after(s1.0, i));
                assert forall|k: int| 0 <= k < out.len() - 1 implies #[trigger] out[k] != out[k + 1] by {
                    if k < out1.len() - 1 {
                        assert(out1[k] != out1[k + 1]);
                    } else {
                        assert(s1.0.contains(s1.0[s1.0.len() - 1]));
                    }
                }
                assert forall|k: int| 0 <= k < out.len() - 2 implies #[trigger] out[k] != out[k + 2] by {
                    if k < out1.len() - 2 {
                        assert(out1[k] != out1[k + 2]);
                    } else {
                        assert(s1.0.contains(s1.0[0]));
                    }
                }
                assert forall|k: int| 0 <= k < out.len() implies 1 <= #[trigger] out[k] <= lines.len() by {
                    if k < out1.len() {
                        assert(out1[k] == out[k]);
                    }
                }
                if out1.len() > 0 {
                    assert(out[0] == out1[0]);
                }
            },
            None => {},
        }
    }
}

/// What became of one OCR read.
pub struct ReadOutcome {
    /// The 1-based indices of the dialogue lines to voice, in order.
    pub matched: Vec<usize>,
    /// Whether enough empty reads came in a row to idle before the next read.
    pub idle: bool,
}

/// The matching stage's state across reads.
pub struct MatcherWorker {
    pub matcher: FuzzyMatcher,
    pub match_state: MatchState,
    pub dedup: DedupState,
    pub dialog_lines: Vec<String>,
    pub filter: Option<CharacterNameFilter>,
}

fn flat_line_exec(text: &Vec<char>) -> (r: Vec<char>)
    ensures
        r@ == flat_line(text@),
{
    let nl = vec!['\n'];
    assert(nl@ =~= seq!['\n']);
    let parts = split_chars(text.as_slice(), nl.as_slice());
    let ghost pv = split_on(text@, seq!['\n']);
    let mut kept: Vec<Vec<char>> = Vec::new();
    let mut i: usize = 0;
    while i < parts.len()
        invariant
            i <= parts@.len(),
            parts@.len() == pv.len(),
            pv == split_on(text@, seq!['\n']),
            forall|k: int| 0 <= k < parts@.len() ==> #[trigger] parts@[k]@ == pv[k],
            kept@.map_values(|v: Vec<char>| v@) == trimmed_nonempty(pv.take(i as int)),
        decreases parts@.len() - i,
    {
        assert(pv.take(i + 1).drop_last() =~= pv.take(i as int));
        assert(pv.take(i + 1).last() == pv[i as int]);
        let t = trim_chars(parts[i].as_slice());
        if t.len() > 0 {
            let ghost before = kept@;
            kept.push(t);
            assert(kept@.map_values(|v: Vec<char>| v@) =~= before.map_values(|v: Vec<char>| v@).push(trim(pv[i as int])));
        }
        i += 1;
    }
    assert(pv.take(parts@.len() as int) =~= pv);
    assert(kept@.skip(0) =~= kept@);
    let sp = vec![' '];
    assert(sp@ =~= seq![' ']);
    join_chars(&kept, 0, sp.as_slice())
}

impl MatcherWorker {
    /// A worker with fresh matching state.
    pub fn new(matcher: FuzzyMatcher, dialog_lines: Vec<String>, filter: Option<CharacterNameFilter>) -> (w: Self)
        ensures
            w.matcher == matcher,
            w.dialog_lines@ == dialog_lines@,
            w.filter == filter,
            w.match_state.last_index == -1,
            w.dedup.is_fresh(),
    {
        MatcherWorker {
            matcher,
            match_state: MatchState::new(),
            dedup: DedupState::new(),
            dialog_lines,
            filter,
        }
    }

    /// The names of the character-name filter, if there is one.
    pub open spec fn filter_names(&self) -> Option<Seq<Seq<char>>> {
        match self.filter {
            Some(f) => Some(f.name_list()),
            None => None,
        }
    }

    /// Whether the character-name filter can process every text of a read
    /// (it cannot cut a `name:` prefix that ends inside a multi-byte character).
    pub open spec fn accepts(&self, texts: Seq<Seq<char>>) -> bool {
        self.filter is Some ==> forall|i: int| 0 <= i < texts.len() ==> name_removal(self.filter->0.name_list(), #[trigger] texts[i]) is Some
    }

    fn cleaned_text(&self, text: &String) -> (r: Vec<char>)
        requires
            self.filter is Some ==> name_removal(self.filter->0.name_list(), text@) is Some,
        ensures
            r@ == cleaned(self.filter_names(), text@),
    {
        match &self.filter {
            Some(f) => chars_of(f.remove_name(text.as_str()).as_str()),
            None => chars_of(text.as_str()),
        }
    }

    /// Handles one OCR read.  An empty read counts towards idling (and, in
    /// typewriter mode, forgets the per-paragraph matches).  Otherwise the
    /// empty-read count is reset, the stable-frame count updated with the
    /// texts joined by blank lines, and each text, cleaned of a character
    /// name and flattened to one sentence, is matched in turn: garbage and
    /// texts under three bytes are skipped, and a match is voiced unless the
    /// paragraph already voiced that line (typewriter paragraph mode), the
    /// line was one of the last two voiced, or it is at least 92% like the
    /// last voiced line.
    pub fn process_read(&mut self, texts: &Vec<String>, paragraph_mode: bool, typewriter: bool) -> (out: ReadOutcome)
        requires
            texts@.len() == 0 ==> old(self).dedup.empty_reads < u32::MAX,
            texts@.len() > 0 && opt_view(old(self).dedup.last_fingerprint)
                == Some(crate::text::lowercase(join(views(texts@), "\n\n"@))) ==> old(self).dedup.stable_count < u32::MAX,
            old(self).accepts(views(texts@)),
        ensures
            final(self).matcher == old(self).matcher,
            final(self).dialog_lines@ == old(self).dialog_lines@,
            final(self).filter == old(self).filter,
            old(self).dedup.wf() ==> final(self).dedup.wf(),
            texts@.len() == 0 ==> {
                &&& final(self).dedup.empty_reads == old(self).dedup.empty_reads + 1
                &&& final(self).dedup.typewriter_matched@ == if typewriter {
                    Map::<usize, usize>::empty()
                } else {
                    old(self).dedup.typewriter_matched@
                }
                &&& final(self).dedup.index_history@ == old(self).dedup.index_history@
                &&& final(self).dedup.last_text == old(self).dedup.last_text
                &&& final(self).dedup.stable_count == old(self).dedup.stable_count
                &&& final(self).dedup.last_fingerprint == old(self).dedup.last_fingerprint
                &&& final(self).match_state == old(self).match_state
                &&& out.matched@.len() == 0
                &&& out.idle == (final(self).dedup.empty_reads >= EMPTY_READS_TO_IDLE)
            },
            texts@.len() > 0 ==> {
                let fingerprint = join(views(texts@), "\n\n"@);
                let stable = final(self).dedup.stable_count >= TYPEWRITER_STABLE_READS;
                let r = match_items(
                    old(self).matcher.config,
                    views(old(self).dialog_lines@),
                    typewriter,
                    paragraph_mode,
                    stable,
                    match_view(old(self).dedup, old(self).match_state),
                    line_items(old(self).filter_names(), views(texts@), texts@.len() as int),
                );
                &&& final(self).dedup.empty_reads == 0
                &&& (opt_view(old(self).dedup.last_fingerprint) == Some(crate::text::lowercase(fingerprint)) ==>
                    final(self).dedup.stable_count == old(self).dedup.stable_count + 1
                    && final(self).dedup.last_fingerprint == old(self).dedup.last_fingerprint)
                &&& (opt_view(old(self).dedup.last_fingerprint) != Some(crate::text::lowercase(fingerprint)) ==>
                    final(self).dedup.stable_count == 1
                    && opt_view(final(self).dedup.last_fingerprint) == Some(crate::text::lowercase(fingerprint)))
                &&& match_view(final(self).dedup, final(self).match_state) == r.0
                &&& out.matched@ == r.1
                &&& !out.idle
            },
    {
        if texts.len() == 0 {
            self.dedup.increment_empty_reads();
            if typewriter {
                self.dedup.clear_typewriter_cache();
            }
            let idle = self.dedup.empty_reads() >= EMPTY_READS_TO_IDLE;
            return ReadOutcome { matched: Vec::new(), idle };
        }
        self.dedup.reset_empty_reads();
        let fingerprint = self.fingerprint(texts);
        let frame_stable = self.dedup.update_stable_detection(fingerprint.as_str(), TYPEWRITER_STABLE_READS);
        let ghost stable_count = self.dedup.stable_count;
        let ghost last_fp = self.dedup.last_fingerprint;
        let items = self.collect_items(texts);
        let ghost lines = views(self.dialog_lines@);
        let ghost s0 = match_view(self.dedup, self.match_state);
        let ghost iv = items@.map_values(|e: (usize, Vec<char>)| (e.0, e.1@));
        let mut matched: Vec<usize> = Vec::new();
        let mut k: usize = 0;
        while k < items.len()
            invariant
                k <= items@.len(),
                iv == items@.map_values(|e: (usize, Vec<char>)| (e.0, e.1@)),
                lines == views(self.dialog_lines@),
                self.dialog_lines@ == old(self).dialog_lines@,
                self.matcher == old(self).matcher,
                self.filter == old(self).filter,
                self.dedup.empty_reads == 0,
                self.dedup.stable_count == stable_count,
                self.dedup.last_fingerprint == last_fp,
                old(self).dedup.wf() ==> self.dedup.wf(),
                frame_stable == (stable_count >= TYPEWRITER_STABLE_READS),
                ({
                    let r = match_items(self.matcher.config, lines, typewriter, paragraph_mode, frame_stable, s0, iv.take(k as int));
                    &&& match_view(self.dedup, self.match_state) == r.0
                    &&& matched@ == r.1
                }),
            decreases items@.len() - k,
        {
            assert(iv.take(k + 1).drop_last() =~= iv.take(k as int));
            assert(iv.take(k + 1).last() == iv[k as int]);
            let para = items[k].0;
            let text = string_of(items[k].1.as_slice());
            if let Some(i) = self.match_one(para, &text, paragraph_mode, typewriter, frame_stable) {
                matched.push(i);
            }
            k += 1;
        }
        assert(iv.take(items@.len() as int) =~= iv);
        ReadOutcome { matched, idle: false }
    }

    fn fingerprint(&self, texts: &Vec<String>) -> (r: String)
        ensures
            r@ == join(views(texts@), "\n\n"@),
    {
        let mut parts: Vec<Vec<char>> = Vec::new();
        let mut i: usize = 0;
        while i < texts.len()
            invariant
                i <= texts@.len(),
                parts@.map_values(|v: Vec<char>| v@) == views(texts@).take(i as int),
            decreases texts@.len() - i,
        {
            let ghost before = parts@;
            parts.push(chars_of(texts[i].as_str()));
            assert(parts@.map_values(|v: Vec<char>| v@) =~= before.map_values(|v: Vec<char>| v@).push(texts@[i as int]@));
            assert(views(texts@).take(i + 1) =~= views(texts@).take(i as int).push(texts@[i as int]@));
            i += 1;
        }
        assert(views(texts@).take(texts@.len() as int) =~= views(texts@));
        assert(parts@.skip(0) =~= parts@);
        let sep = chars_of("\n\n");
        string_of(join_chars(&parts, 0, sep.as_slice()).as_slice())
    }

    fn collect_items(&self, texts: &Vec<String>) -> (r: Vec<(usize, Vec<char>)>)
        requires
            self.accepts(views(texts@)),
        ensures
            r@.map_values(|e: (usize, Vec<char>)| (e.0, e.1@)) == line_items(self.filter_names(), views(texts@), texts@.len() as int),
    {
        let ghost tv = views(texts@);
        let mut r: Vec<(usize, Vec<char>)> = Vec::new();
        let mut i: usize = 0;
        while i < texts.len()
            invariant
                i <= texts@.len(),
                tv == views(texts@),
                self.accepts(tv),
                r@.map_values(|e: (usize, Vec<char>)| (e.0, e.1@)) == line_items(self.filter_names(), tv, i as int),
            decreases texts@.len() - i,
        {
            assert(tv[i as int] == texts@[i as int]@);
            let c = self.cleaned_text(&texts[i]);
            let j = flat_line_exec(&c);
            if j.len() > 0 {
                let ghost before = r@;
                r.push((i, j));
                assert(r@.map_values(|e: (usize, Vec<char>)| (e.0, e.1@)) =~= before.map_values(|e: (usize, Vec<char>)| (e.0, e.1@)).push((i, j@)));
            }
            i += 1;
        }
        r
    }

    fn match_one(&mut self, para: usize, text: &String, paragraph_mode: bool, typewriter: bool, frame_stable: bool) -> (r: Option<usize>)
        requires
            old(self).dedup.empty_reads == 0,
        ensures
            final(self).dialog_lines@ == old(self).dialog_lines@,
            final(self).matcher == old(self).matcher,
            final(self).filter == old(self).filter,
            final(self).dedup.empty_reads == 0,
            final(self).dedup.stable_count == old(self).dedup.stable_count,
            final(self).dedup.last_fingerprint == old(self).dedup.last_fingerprint,
            old(self).dedup.wf() ==> final(self).dedup.wf(),
            ({
                let st = match_step(
                    old(self).matcher.config,
                    views(old(self).dialog_lines@),
                    typewriter,
                    paragraph_mode,
                    frame_stable,
                    match_view(old(self).dedup, old(self).match_state),
                    (para, text@),
                );
                &&& match_view(final(self).dedup, final(self).match_state) == st.0
                &&& r == st.1
            }),
    {
        if is_garbage_text(text.as_str(), GARBAGE_NON_LETTER_PERMILLE, MIN_TEXT_LENGTH) {
            return None;
        }
        let tv = chars_of(text.as_str());
        if byte_len_capped(tv.as_slice(), MIN_TEXT_LENGTH) < MIN_TEXT_LENGTH {
            return None;
        }
        let result = match self.matcher.find_best_match(text.as_str(), self.dialog_lines.as_slice(), &self.match_state, typewriter, frame_stable) {
            Some(m) => m,
            None => return None,
        };
        let idx = result.index;
        let per_paragraph = typewriter && paragraph_mode;
        if per_paragraph && self.dedup.is_typewriter_duplicate(para, idx) {
            return None;
        }
        if self.dedup.is_duplicate_index(idx) {
            return None;
        }
        let line = self.dialog_lines[idx - 1].clone();
        assert(line@ == views(self.dialog_lines@)[idx - 1]);
        if self.dedup.is_duplicate_text(line.as_str(), DUPLICATE_TEXT_THRESHOLD) {
            return None;
        }
        self.dedup.record_match(idx, line);
        self.match_state.update(idx);
        if per_paragraph {
            self.dedup.record_typewriter_match(para, idx);
        }
        Some(idx)
    }
}

// ---------------------------------------------------------------------------
// The dialogue and names files
// ---------------------------------------------------------------------------

/// The dialogue lines of a dialogue file: its lines (`str::lines`), as they are.
pub fn parse_dialog_lines(content: &str) -> (r: Vec<String>)
    ensures
        views(r@) == lines(content@),
{
    let cs = chars_of(content);
    let ls = lines_of(cs.as_slice());
    let mut r: Vec<String> = Vec::new();
    let mut i: usize = 0;
    while i < ls.len()
        invariant
            i <= ls@.len(),
            ls@.len() == lines(content@).len(),
            cs@ == content@,
            forall|k: int| 0 <= k < ls@.len() ==> #[trigger] ls@[k]@ == lines(content@)[k],
            views(r@) == lines(content@).take(i as int),
        decreases ls@.len() - i,
    {
        let ghost before = r@;
        r.push(string_of(ls[i].as_slice()));
        assert(views(r@) =~= views(before).push(ls@[i as int]@));
        assert(lines(content@).take(i + 1) =~= lines(content@).take(i as int).push(lines(content@)[i as int]));
        i += 1;
    }
    assert(lines(content@).take(ls@.len() as int) =~= lines(content@));
    r
}

/// The lines of a file, each trimmed.
pub open spec fn trimmed_lines(content: Seq<char>) -> Seq<Seq<char>> {
    lines(content).map_values(|l: Seq<char>| trim(l))
}

/// The text is not empty.
pub open spec fn nonblank() -> spec_fn(Seq<char>) -> bool {
    |l: Seq<char>| l.len() > 0
}

/// The character names of a names file: each line trimmed, empty ones dropped.
pub fn parse_character_names(content: &str) -> (r: Vec<String>)
    ensures
        views(r@) == trimmed_lines(content@).filter(nonblank()),
{
    let cs = chars_of(content);
    let ls = lines_of(cs.as_slice());
    let ghost tl = trimmed_lines(content@);
    let mut r: Vec<String> = Vec::new();
    let mut i: usize = 0;
    while i < ls.len()
        invariant
            i <= ls@.len(),
            ls@.len() == lines(content@).len(),
            tl == trimmed_lines(content@),
            cs@ == content@,
            forall|k: int| 0 <= k < ls@.len() ==> #[trigger] ls@[k]@ == lines(content@)[k],
            views(r@) == tl.take(i as int).filter(nonblank()),
        decreases ls@.len() - i,
    {
        let t = trim_chars(ls[i].as_slice());
        proof {
            reveal(Seq::filter);
            assert(tl[i as int] == t@);
            assert(tl.take(i + 1).drop_last() =~= tl.take(i as int));
            assert(tl.take(i + 1).last() == t@);
        }
        if t.len() > 0 {
            let ghost before = r@;
            r.push(string_of(t.as_slice()));
            assert(views(r@) =~= views(before).push(t@));
        }
        i += 1;
    }
    assert(tl.take(ls@.len() as int) =~= tl);
    r
}

} // verus!
