//! In-memory history of recent log lines, so the debug console can show what
//! was logged before it was opened.

use vstd::prelude::*;
use std::collections::VecDeque;
use crate::text::{chars_of, string_of, trim_end_set, trim_end_set_chars};

verus! {

/// Number of lines each history keeps.
pub const MAX_HISTORY: usize = 2000;

/// History after adding `line`: the oldest line goes once the history is full.
pub open spec fn history_push(h: Seq<Seq<char>>, line: Seq<char>) -> Seq<Seq<char>> {
    if h.len() >= MAX_HISTORY {
        h.drop_first().push(line)
    } else {
        h.push(line)
    }
}

/// A formatted log line without its trailing line breaks.
pub open spec fn log_line(s: Seq<char>) -> Seq<char> {
    trim_end_set(s, seq!['\r', '\n'])
}

pub open spec fn lines_view(v: Seq<String>) -> Seq<Seq<char>> {
    v.map_values(|s: String| s@)
}

proof fn lemma_lines_view_push(s: Seq<String>, x: String)
    ensures
        lines_view(s.push(x)) == lines_view(s).push(x@),
{
    assert(lines_view(s.push(x)) =~= lines_view(s).push(x@));
}

proof fn lemma_lines_view_drop_first(s: Seq<String>)
    requires
        s.len() > 0,
    ensures
        lines_view(s.subrange(1, s.len() as int)) == lines_view(s).drop_first(),
{
    assert(lines_view(s.subrange(1, s.len() as int)) =~= lines_view(s).drop_first());
}

/// The last `n` lines (all of them when there are fewer).
pub open spec fn last_lines(s: Seq<Seq<char>>, n: int) -> Seq<Seq<char>> {
    if s.len() > n {
        s.skip(s.len() - n)
    } else {
        s
    }
}

/// The non-empty lines that a run of log records contributes, in order.
pub open spec fn contributed_lines(records: Seq<Seq<char>>) -> Seq<Seq<char>> {
    logged(records).filter(nonempty_line())
}

/// Each record without its trailing line breaks.
pub open spec fn logged(records: Seq<Seq<char>>) -> Seq<Seq<char>> {
    records.map_values(|r: Seq<char>| log_line(r))
}

/// The line is not empty.
pub open spec fn nonempty_line() -> spec_fn(Seq<char>) -> bool {
    |l: Seq<char>| l.len() > 0
}

/// The raw history after a run of records pushed into an empty one.
pub open spec fn raw_history_after(records: Seq<Seq<char>>) -> Seq<Seq<char>> {
    last_lines(contributed_lines(records), MAX_HISTORY as int)
}

proof fn lemma_trim_end_set_last(s: Seq<char>, set: Seq<char>)
    ensures
        trim_end_set(s, set).len() > 0 ==> !set.contains(trim_end_set(s, set).last()),
    decreases s.len(),
{
    if s.len() > 0 && set.contains(s.last()) {
        lemma_trim_end_set_last(s.drop_last(), set);
    }
}

/// The raw history keeps the last `MAX_HISTORY` non-empty records, without
/// their trailing line breaks, oldest first: what one more record does to the
/// history (what `push_history` does) matches this over any run of records,
/// and every kept line is non-empty and ends in neither `\r` nor `\n`.
pub proof fn lemma_raw_history_is_last_lines(records: Seq<Seq<char>>, record: Seq<char>)
    ensures
        raw_history_after(Seq::empty()) == Seq::<Seq<char>>::empty(),
        raw_history_after(records.push(record)) == if log_line(record).len() == 0 {
            raw_history_after(records)
        } else {
            history_push(raw_history_after(records), log_line(record))
        },
        raw_history_after(records).len() <= MAX_HISTORY,
        forall|i: int| 0 <= i < raw_history_after(records).len() ==> {
            let l = #[trigger] raw_history_after(records)[i];
            l.len() > 0 && l.last() != '\r' && l.last() != '\n'
        },
{
    let p = nonempty_line();
    reveal(Seq::filter);
    assert(logged(Seq::empty()) =~= Seq::<Seq<char>>::empty());
    assert(logged(records.push(record)) =~= logged(records).push(log_line(record)));
    assert(logged(records.push(record)).drop_last() =~= logged(records));
    let c = contributed_lines(records);
    let c2 = contributed_lines(records.push(record));
    if log_line(record).len() > 0 {
        assert(c2 == c.push(log_line(record)));
        let m = MAX_HISTORY as int;
        let h = last_lines(c, m);
        if c.len() >= m {
            assert(h.drop_first().push(log_line(record)) =~= c2.skip(c2.len() - m));
        } else {
            assert(h.push(log_line(record)) =~= c2);
        }
    } else {
        assert(c2 == c);
    }
    assert forall|i: int| 0 <= i < raw_history_after(records).len() implies {
        let l = #[trigger] raw_history_after(records)[i];
        l.len() > 0 && l.last() != '\r' && l.last() != '\n'
    } by {
        let ms = logged(records);
        let h = raw_history_after(records);
        let j = if c.len() > MAX_HISTORY { i + c.len() - MAX_HISTORY } else { i };
        assert(h[i] == c[j]);
        ms.lemma_filter_pred(p, j);
        assert(c.contains(c[j]));
        ms.lemma_filter_contains_rev(p, c[j]);
        let k = choose|k: int| 0 <= k < ms.len() && ms[k] == c[j];
        assert(ms[k] == log_line(records[k]));
        lemma_trim_end_set_last(records[k], seq!['\r', '\n']);
        assert(seq!['\r', '\n'].contains('\r') && seq!['\r', '\n'].contains('\n')) by {
            assert(seq!['\r', '\n'][0] == '\r');
            assert(seq!['\r', '\n'][1] == '\n');
        }
    }
}

/// A bounded history of log lines, oldest first.
pub struct LogHistory {
    lines: VecDeque<String>,
}

impl View for LogHistory {
    type V = Seq<Seq<char>>;

    closed spec fn view(&self) -> Seq<Seq<char>> {
        lines_view(self.lines@)
    }
}

impl LogHistory {
    /// At most `MAX_HISTORY` lines are kept.
    #[verifier::type_invariant]
    closed spec fn bounded(self) -> bool {
        self.lines@.len() <= MAX_HISTORY
    }

    /// An empty history.
    pub fn new() -> (h: Self)
        ensures
            h@ == Seq::<Seq<char>>::empty(),
    {
        let h = LogHistory { lines: VecDeque::new() };
        assert(h@ =~= Seq::<Seq<char>>::empty());
        h
    }

    /// Adds a line, dropping the oldest when the history is full.
    pub fn push_entry(&mut self, line: String)
        ensures
            final(self)@ == history_push(old(self)@, line@),
            final(self)@.len() <= MAX_HISTORY,
    {
        proof {
            use_type_invariant(&*self);
        }
        let mut lines: VecDeque<String> = VecDeque::new();
        std::mem::swap(&mut lines, &mut self.lines);
        let ghost orig = lines@;
        if lines.len() >= MAX_HISTORY {
            lines.pop_front();
            proof {
                lemma_lines_view_drop_first(orig);
            }
        }
        let ghost mid = lines@;
        lines.push_back(line);
        proof {
            lemma_lines_view_push(mid, line);
        }
        self.lines = lines;
    }

    /// The lines, oldest first.
    pub fn lines(&self) -> (v: Vec<String>)
        ensures
            lines_view(v@) == self@,
    {
        let mut v: Vec<String> = Vec::new();
        let mut i: usize = 0;
        while i < self.lines.len()
            invariant
                i <= self.lines@.len(),
                lines_view(v@) == lines_view(self.lines@).take(i as int),
            decreases self.lines@.len() - i,
        {
            let ghost before = v@;
            v.push(self.lines[i].clone());
            proof {
                lemma_lines_view_push(before, v@[before.len() as int]);
                assert(v@ == before.push(v@[before.len() as int]));
                assert(lines_view(self.lines@).take(i + 1) =~= lines_view(self.lines@).take(i as int).push(self.lines@[i as int]@));
            }
            i += 1;
        }
        assert(lines_view(self.lines@).take(self.lines@.len() as int) =~= lines_view(self.lines@));
        v
    }
}

/// The two histories: raw formatted log lines and plain-language user lines.
pub struct LogBuffers {
    pub raw: LogHistory,
    pub user: LogHistory,
}

impl LogBuffers {
    /// Both histories empty.
    pub fn new() -> (b: Self)
        ensures
            b.raw@ == Seq::<Seq<char>>::empty(),
            b.user@ == Seq::<Seq<char>>::empty(),
    {
        LogBuffers { raw: LogHistory::new(), user: LogHistory::new() }
    }
}

/// The line that a formatted log record contributes: the record without its
/// trailing line breaks, or nothing when that is empty.
pub fn trimmed_log_line(s: &str) -> (r: Option<String>)
    ensures
        log_line(s@).len() == 0 ==> r is None,
        log_line(s@).len() > 0 ==> (r matches Some(t) && t@ == log_line(s@)),
{
    let c = chars_of(s);
    let set = ['\r', '\n'];
    let t = trim_end_set_chars(c.as_slice(), set.as_slice());
    assert(set@ == seq!['\r', '\n']);
    if t.len() == 0 {
        None
    } else {
        Some(string_of(t.as_slice()))
    }
}

/// Records a formatted log record in the raw history: trailing line breaks
/// are dropped and an empty line is not recorded.
pub fn push_history(buffers: &mut LogBuffers, line: &str)
    ensures
        log_line(line@).len() == 0 ==> final(buffers).raw@ == old(buffers).raw@,
        log_line(line@).len() > 0 ==> final(buffers).raw@ == history_push(old(buffers).raw@, log_line(line@)),
        final(buffers).user@ == old(buffers).user@,
{
    match trimmed_log_line(line) {
        Some(t) => buffers.raw.push_entry(t),
        None => {},
    }
}

/// Records a plain-language line in the user history.
pub fn push_user_log(buffers: &mut LogBuffers, line: String)
    ensures
        final(buffers).user@ == history_push(old(buffers).user@, line@),
        final(buffers).raw@ == old(buffers).raw@,
{
    buffers.user.push_entry(line);
}

/// The recent raw log lines, oldest first.
pub fn recent_logs(buffers: &LogBuffers) -> (v: Vec<String>)
    ensures
        lines_view(v@) == buffers.raw@,
{
    buffers.raw.lines()
}

/// The recent plain-language log lines, oldest first.
pub fn recent_user_logs(buffers: &LogBuffers) -> (v: Vec<String>)
    ensures
        lines_view(v@) == buffers.user@,
{
    buffers.user.lines()
}

} // verus!
