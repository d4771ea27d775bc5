//! The playback queue for dialogue lines and system sounds, and the rules
//! that pick which audio file belongs to a line.

use vstd::prelude::*;
use std::collections::VecDeque;
use crate::text::{append_chars, ascii_lower, chars_of, chars_eq, string_of};

verus! {

/// Commands that can be sent to the audio player.
#[derive(Debug, Clone, Copy, PartialEq, Eq, Structural)]
pub enum AudioCommand {
    /// Skip to the next line with a speed boost
    SkipToNextWithBoost,
    /// Stop all audio playback
    StopAll,
}

/// The most items a queue of the given capacity holds (never less than one,
/// since an item is always accepted).
pub open spec fn effective_capacity(capacity: usize) -> nat {
    if capacity == 0 {
        1
    } else {
        capacity as nat
    }
}

/// Queue contents after accepting `item`: the oldest is dropped first when
/// the queue is full.
pub open spec fn after_enqueue<T>(items: Seq<T>, capacity: usize, item: T) -> Seq<T> {
    if items.len() >= capacity && items.len() > 0 {
        items.subrange(1, items.len() as int).push(item)
    } else {
        items.push(item)
    }
}

/// Queue contents after lowering the capacity: the newest `capacity` items.
pub open spec fn trimmed_to<T>(items: Seq<T>, capacity: nat) -> Seq<T> {
    if items.len() > capacity {
        items.subrange(items.len() - capacity, items.len() as int)
    } else {
        items
    }
}

/// Audio playback queue (first in, first out) with bounded capacity.
pub struct AudioQueue<T> {
    items: VecDeque<T>,
    capacity: usize,
    busy: bool,
}

impl<T> View for AudioQueue<T> {
    type V = Seq<T>;

    closed spec fn view(&self) -> Seq<T> {
        self.items@
    }
}

impl<T> AudioQueue<T> {
    /// The queue never holds more items than its effective capacity.
    #[verifier::type_invariant]
    closed spec fn bounded(self) -> bool {
        self.items@.len() <= effective_capacity(self.capacity)
    }

    /// Maximum number of queued items.
    pub closed spec fn capacity_spec(&self) -> usize {
        self.capacity
    }

    /// The "currently playing" flag.
    pub closed spec fn busy_flag(&self) -> bool {
        self.busy
    }

    /// Creates a new audio queue with the given capacity.
    pub fn new(capacity: usize) -> (q: Self)
        ensures
            q@ == Seq::<T>::empty(),
            q.capacity_spec() == capacity,
            !q.busy_flag(),
    {
        AudioQueue { items: VecDeque::with_capacity(capacity), capacity, busy: false }
    }

    /// Updates the maximum queue capacity (at least one), dropping the oldest
    /// items if the queue is now too long.
    pub fn set_capacity(&mut self, capacity: usize)
        ensures
            final(self).capacity_spec() == if capacity == 0 { 1 } else { capacity },
            final(self)@ == trimmed_to(old(self)@, effective_capacity(capacity)),
            final(self).busy_flag() == old(self).busy_flag(),
            final(self)@.len() <= effective_capacity(final(self).capacity_spec()),
    {
        let cap: usize = if capacity == 0 { 1 } else { capacity };
        let mut items: VecDeque<T> = VecDeque::new();
        std::mem::swap(&mut items, &mut self.items);
        let ghost orig = items@;
        assert(orig.subrange(0, orig.len() as int) =~= orig);
        while items.len() > cap
            invariant
                cap >= 1,
                items@.len() <= orig.len(),
                orig.len() > cap ==> items@.len() >= cap,
                orig.len() <= cap ==> items@ == orig,
                items@ == orig.subrange(orig.len() - items@.len(), orig.len() as int),
            decreases items@.len(),
        {
            items.pop_front();
        }
        self.capacity = cap;
        self.items = items;
    }

    /// Enqueues an item, dropping the oldest if the queue is full.
    pub fn enqueue(&mut self, item: T)
        ensures
            final(self)@ == after_enqueue(old(self)@, old(self).capacity_spec(), item),
            final(self).capacity_spec() == old(self).capacity_spec(),
            final(self).busy_flag() == old(self).busy_flag(),
            final(self)@.len() <= effective_capacity(final(self).capacity_spec()),
    {
        proof {
            use_type_invariant(&*self);
        }
        let mut items: VecDeque<T> = VecDeque::new();
        std::mem::swap(&mut items, &mut self.items);
        if items.len() >= self.capacity {
            items.pop_front();
        }
        items.push_back(item);
        self.items = items;
    }

    /// Takes the oldest item, if any.
    pub fn dequeue(&mut self) -> (r: Option<T>)
        ensures
            old(self)@.len() == 0 ==> r is None && final(self)@ == old(self)@,
            old(self)@.len() > 0 ==> r == Some(old(self)@[0])
                && final(self)@ == old(self)@.subrange(1, old(self)@.len() as int),
            final(self).capacity_spec() == old(self).capacity_spec(),
            final(self).busy_flag() == old(self).busy_flag(),
    {
        proof {
            use_type_invariant(&*self);
        }
        let mut items: VecDeque<T> = VecDeque::new();
        std::mem::swap(&mut items, &mut self.items);
        let r = items.pop_front();
        self.items = items;
        r
    }

    /// Returns the current queue length.
    pub fn len(&self) -> (n: usize)
        ensures
            n == self@.len(),
            n <= effective_capacity(self.capacity_spec()),
    {
        proof {
            use_type_invariant(self);
        }
        self.items.len()
    }

    /// Returns true if the queue is empty.
    pub fn is_empty(&self) -> (b: bool)
        ensures
            b == (self@.len() == 0),
    {
        self.items.len() == 0
    }

    /// Returns true if audio is playing or the queue is not empty.
    pub fn is_busy(&self) -> (b: bool)
        ensures
            b == (self.busy_flag() || self@.len() > 0),
    {
        self.busy || self.items.len() > 0
    }

    /// Sets the busy state.
    pub fn set_busy(&mut self, busy: bool)
        ensures
            final(self).busy_flag() == busy,
            final(self)@ == old(self)@,
            final(self).capacity_spec() == old(self).capacity_spec(),
    {
        proof {
            use_type_invariant(&*self);
        }
        self.busy = busy;
    }

    /// Clears all items from the queue.
    pub fn clear(&mut self)
        ensures
            final(self)@ == Seq::<T>::empty(),
            final(self).capacity_spec() == old(self).capacity_spec(),
            final(self).busy_flag() == old(self).busy_flag(),
    {
        let mut items: VecDeque<T> = VecDeque::new();
        std::mem::swap(&mut items, &mut self.items);
        items.clear();
        self.items = items;
    }

}

/// Enqueueing keeps the items already queued in order ahead of the new one,
/// minus the oldest when the queue was full; the new item comes out last.
pub proof fn lemma_enqueue_fifo<T>(items: Seq<T>, capacity: usize, item: T)
    ensures
        after_enqueue(items, capacity, item).last() == item,
        items.len() < capacity ==> after_enqueue(items, capacity, item).drop_last() == items,
        items.len() < capacity ==> after_enqueue(items, capacity, item).len() == items.len() + 1,
        items.len() >= capacity && items.len() > 0 ==> after_enqueue(items, capacity, item).len() == items.len(),
{
    if items.len() >= capacity && items.len() > 0 {
        assert(after_enqueue(items, capacity, item).drop_last() =~= items.subrange(1, items.len() as int));
    } else {
        assert(after_enqueue(items, capacity, item).drop_last() =~= items);
    }
}

// ---------------------------------------------------------------------------
// Audio file names
// ---------------------------------------------------------------------------

/// Audio formats tried, in order.
pub open spec fn audio_formats() -> Seq<Seq<char>> {
    seq!["ogg"@, "mp3"@, "m4a"@, "aac"@, "flac"@, "mp4"@]
}

pub open spec fn digit_char(d: nat) -> char {
    seq!['0', '1', '2', '3', '4', '5', '6', '7', '8', '9'][d as int]
}

/// Decimal digits of `n`, most significant first.
pub open spec fn decimal(n: nat) -> Seq<char>
    decreases n,
{
    if n < 10 {
        seq![digit_char(n)]
    } else {
        decimal(n / 10).push(digit_char(n % 10))
    }
}

pub(crate) fn decimal_chars(n: usize) -> (r: Vec<char>)
    ensures
        r@ == decimal(n as nat),
    decreases n,
{
    let digits = ['0', '1', '2', '3', '4', '5', '6', '7', '8', '9'];
    assert(digits@ == seq!['0', '1', '2', '3', '4', '5', '6', '7', '8', '9']);
    if n < 10 {
        let mut v: Vec<char> = Vec::new();
        v.push(digits[n]);
        v
    } else {
        let mut v = decimal_chars(n / 10);
        v.push(digits[n % 10]);
        v
    }
}

/// `prefix (N).ext`
pub open spec fn numbered_name(prefix: Seq<char>, n: nat, ext: Seq<char>) -> Seq<char> {
    prefix + " ("@ + decimal(n) + ")."@ + ext
}

/// `name.ext`
pub open spec fn dotted_name(name: Seq<char>, ext: Seq<char>) -> Seq<char> {
    name + "."@ + ext
}

/// File names tried for a dialogue line, in order: `output1 (N).ext` for
/// every format, then `output2 (N).ext` when the second output is enabled
/// and dynamic speed is not.
pub open spec fn line_audio_candidates(n: nat, enable_output2: bool, enable_dynamic_speed: bool) -> Seq<Seq<char>> {
    let first = audio_formats().map_values(|e: Seq<char>| numbered_name("output1"@, n, e));
    let second = audio_formats().map_values(|e: Seq<char>| numbered_name("output2"@, n, e));
    if enable_output2 && !enable_dynamic_speed {
        first + second
    } else {
        first
    }
}

/// File names tried for a system sound, in order.
pub open spec fn sound_candidates(name: Seq<char>) -> Seq<Seq<char>> {
    audio_formats().map_values(|e: Seq<char>| dotted_name(name, e))
}

/// The first candidate that is among `present`.
pub open spec fn first_present(cands: Seq<Seq<char>>, present: Seq<Seq<char>>) -> Option<Seq<char>>
    decreases cands.len(),
{
    if cands.len() == 0 {
        None
    } else if present.contains(cands[0]) {
        Some(cands[0])
    } else {
        first_present(cands.drop_first(), present)
    }
}

pub open spec fn names_view(v: Seq<String>) -> Seq<Seq<char>> {
    v.map_values(|s: String| s@)
}

fn format_names() -> (r: Vec<Vec<char>>)
    ensures
        r@.map_values(|v: Vec<char>| v@) == audio_formats(),
{
    let mut r: Vec<Vec<char>> = Vec::new();
    r.push(chars_of("ogg"));
    r.push(chars_of("mp3"));
    r.push(chars_of("m4a"));
    r.push(chars_of("aac"));
    r.push(chars_of("flac"));
    r.push(chars_of("mp4"));
    assert(r@.map_values(|v: Vec<char>| v@) =~= audio_formats());
    r
}

fn contains_name(present: &Vec<String>, name: &Vec<char>) -> (b: bool)
    ensures
        b == names_view(present@).contains(name@),
{
    let ghost pv = names_view(present@);
    let mut i: usize = 0;
    while i < present.len()
        invariant
            i <= present@.len(),
            pv == names_view(present@),
            forall|k: int| 0 <= k < i ==> pv[k] != name@,
        decreases present@.len() - i,
    {
        let c = chars_of(present[i].as_str());
        if chars_eq(c.as_slice(), name.as_slice()) {
            assert(pv[i as int] == name@);
            return true;
        }
        i += 1;
    }
    false
}

/// Tries the candidates in order; returns the first that is present.
fn pick_first(cands: &Vec<Vec<char>>, present: &Vec<String>) -> (r: Option<String>)
    ensures
        r matches Some(s) ==> first_present(cands@.map_values(|v: Vec<char>| v@), names_view(present@)) == Some(s@),
        r is None ==> first_present(cands@.map_values(|v: Vec<char>| v@), names_view(present@)) is None,
{
    let ghost cv = cands@.map_values(|v: Vec<char>| v@);
    let ghost pv = names_view(present@);
    let mut i: usize = 0;
    assert(cv.skip(0) =~= cv);
    while i < cands.len()
        invariant
            i <= cands@.len(),
            cv == cands@.map_values(|v: Vec<char>| v@),
            pv == names_view(present@),
            first_present(cv, pv) == first_present(cv.skip(i as int), pv),
        decreases cands@.len() - i,
    {
        assert(cv.skip(i as int)[0] == cv[i as int]);
        assert(cv.skip(i as int).drop_first() =~= cv.skip(i + 1));
        if contains_name(present, &cands[i]) {
            return Some(string_of(cands[i].as_slice()));
        }
        i += 1;
    }
    None
}

fn name_with(prefix: &[char], num: &[char], ext: &[char]) -> (r: Vec<char>)
    ensures
        r@ == prefix@ + " ("@ + num@ + ")."@ + ext@,
{
    let mut r: Vec<char> = Vec::new();
    append_chars(&mut r, prefix);
    append_chars(&mut r, chars_of(" (").as_slice());
    append_chars(&mut r, num);
    append_chars(&mut r, chars_of(").").as_slice());
    append_chars(&mut r, ext);
    r
}

/// Picks the audio file for the 1-based dialogue line `line_index` among the
/// file names present in the audio directory: `output1 (N)` in each format
/// (ogg, mp3, m4a, aac, flac, mp4), then, when the second output is enabled
/// and dynamic speed is off, `output2 (N)` likewise.
pub fn find_audio_file(
    present: &Vec<String>,
    line_index: usize,
    enable_output2: bool,
    enable_dynamic_speed: bool,
) -> (r: Option<String>)
    ensures
        r matches Some(s) ==> first_present(line_audio_candidates(line_index as nat, enable_output2, enable_dynamic_speed), names_view(present@)) == Some(s@),
        r is None ==> first_present(line_audio_candidates(line_index as nat, enable_output2, enable_dynamic_speed), names_view(present@)) is None,
{
    let formats = format_names();
    let num = decimal_chars(line_index);
    let out1 = chars_of("output1");
    let out2 = chars_of("output2");
    let both = enable_output2 && !enable_dynamic_speed;
    let ghost fv = formats@.map_values(|v: Vec<char>| v@);
    let mut cands: Vec<Vec<char>> = Vec::new();
    let mut k: usize = 0;
    while k < formats.len()
        invariant
            k <= formats@.len(),
            fv == formats@.map_values(|v: Vec<char>| v@),
            fv == audio_formats(),
            num@ == decimal(line_index as nat),
            out1@ == "output1"@,
            cands@.len() == k,
            forall|q: int| 0 <= q < k ==> #[trigger] cands@[q]@ == numbered_name("output1"@, line_index as nat, fv[q]),
        decreases formats@.len() - k,
    {
        cands.push(name_with(out1.as_slice(), num.as_slice(), formats[k].as_slice()));
        k += 1;
    }
    if both {
        let mut k: usize = 0;
        while k < formats.len()
            invariant
                k <= formats@.len(),
                fv == formats@.map_values(|v: Vec<char>| v@),
                fv == audio_formats(),
                num@ == decimal(line_index as nat),
                out2@ == "output2"@,
                cands@.len() == 6 + k,
                forall|q: int| 0 <= q < 6 ==> #[trigger] cands@[q]@ == numbered_name("output1"@, line_index as nat, fv[q]),
                forall|q: int| 6 <= q < 6 + k ==> #[trigger] cands@[q]@ == numbered_name("output2"@, line_index as nat, fv[q - 6]),
            decreases formats@.len() - k,
        {
            cands.push(name_with(out2.as_slice(), num.as_slice(), formats[k].as_slice()));
            k += 1;
        }
    }
    assert(cands@.map_values(|v: Vec<char>| v@) =~= line_audio_candidates(line_index as nat, enable_output2, enable_dynamic_speed));
    pick_first(&cands, present)
}

/// Picks the file for the system sound `sound_name` (`name.ext` in each
/// format, in order) among the file names present in the audio directory.
pub fn find_system_sound(present: &Vec<String>, sound_name: &str) -> (r: Option<String>)
    ensures
        r matches Some(s) ==> first_present(sound_candidates(sound_name@), names_view(present@)) == Some(s@),
        r is None ==> first_present(sound_candidates(sound_name@), names_view(present@)) is None,
{
    let formats = format_names();
    let name = chars_of(sound_name);
    let ghost fv = formats@.map_values(|v: Vec<char>| v@);
    let mut cands: Vec<Vec<char>> = Vec::new();
    let mut k: usize = 0;
    while k < formats.len()
        invariant
            k <= formats@.len(),
            fv == formats@.map_values(|v: Vec<char>| v@),
            fv == audio_formats(),
            name@ == sound_name@,
            cands@.len() == k,
            forall|q: int| 0 <= q < k ==> #[trigger] cands@[q]@ == dotted_name(sound_name@, fv[q]),
        decreases formats@.len() - k,
    {
        let mut c: Vec<char> = Vec::new();
        append_chars(&mut c, name.as_slice());
        append_chars(&mut c, chars_of(".").as_slice());
        append_chars(&mut c, formats[k].as_slice());
        cands.push(c);
        k += 1;
    }
    assert(cands@.map_values(|v: Vec<char>| v@) =~= sound_candidates(sound_name@));
    pick_first(&cands, present)
}

/// The process whose volume is lowered while a line plays: the configured
/// one, else the captured window's process, else none.
pub fn ducking_target(ducking_target_process: &str, capture_window_query: &str) -> (r: Option<String>)
    ensures
        ducking_target_process@.len() > 0 ==> (r matches Some(s) && s@ == ducking_target_process@),
        ducking_target_process@.len() == 0 && capture_window_query@.len() > 0 ==> (r matches Some(s) && s@ == capture_window_query@),
        ducking_target_process@.len() == 0 && capture_window_query@.len() == 0 ==> r is None,
{
    let a = chars_of(ducking_target_process);
    let b = chars_of(capture_window_query);
    if a.len() > 0 {
        Some(string_of(a.as_slice()))
    } else if b.len() > 0 {
        Some(string_of(b.as_slice()))
    } else {
        None
    }
}

/// `str::eq_ignore_ascii_case`: same length, equal up to ASCII letter case.
pub open spec fn eq_ignore_ascii_case(a: Seq<char>, b: Seq<char>) -> bool {
    a.len() == b.len() && forall|i: int| 0 <= i < a.len() ==> ascii_lower(#[trigger] a[i]) == ascii_lower(b[i])
}

fn lower_code(c: char) -> (r: u32)
    ensures
        r == ascii_lower(c) as u32,
{
    if 'A' <= c && c <= 'Z' {
        c as u32 + 32
    } else {
        c as u32
    }
}

fn eq_ignore_case_chars(a: &[char], b: &[char]) -> (r: bool)
    ensures
        r == eq_ignore_ascii_case(a@, b@),
{
    if a.len() != b.len() {
        return false;
    }
    let mut i: usize = 0;
    while i < a.len()
        invariant
            a@.len() == b@.len(),
            i <= a@.len(),
            forall|k: int| 0 <= k < i ==> ascii_lower(#[trigger] a@[k]) == ascii_lower(b@[k]),
        decreases a@.len() - i,
    {
        let x = lower_code(a[i]);
        let y = lower_code(b[i]);
        if x != y {
            return false;
        }
        i += 1;
    }
    true
}

/// Whether the volume of an audio session is lowered: never our own
/// process's; with a target process, only sessions whose process name
/// (when known) equals it up to ASCII case; otherwise every other session.
pub fn should_duck_session(process_id: u32, current_pid: u32, target: &Option<String>, process_name: &Option<String>) -> (r: bool)
    ensures
        r == (process_id != current_pid && match target {
            None => true,
            Some(t) => match process_name {
                Some(n) => eq_ignore_ascii_case(n@, t@),
                None => false,
            },
        }),
{
    if process_id == current_pid {
        return false;
    }
    match target {
        None => true,
        Some(t) => match process_name {
            Some(n) => {
                let nv = chars_of(n.as_str());
                let tv = chars_of(t.as_str());
                eq_ignore_case_chars(nv.as_slice(), tv.as_slice())
            },
            None => false,
        },
    }
}

} // verus!
