//! Choosing the window and monitor to capture, from the lists the system
//! reports.

use vstd::prelude::*;
use crate::text::{append_chars, chars_eq, chars_of, lowercase, string_of, to_lowercase, trim, trim_chars};

verus! {

/// Lightweight info about a capturable window (for the UI picker).
#[derive(Debug, Clone)]
pub struct WindowInfo {
    /// Window title text.
    pub title: String,
    /// Owning process executable name.
    pub process_name: String,
    /// Raw window handle as a string.
    pub hwnd: String,
}

/// Lightweight info about a physical monitor (for the UI picker).
#[derive(Debug, Clone)]
pub struct MonitorInfo {
    /// Device name, the stable id used in the configuration.
    pub id: String,
    /// Display label.
    pub name: String,
    pub x: i32,
    pub y: i32,
    pub width: i32,
    pub height: i32,
    pub primary: bool,
}

/// A top-level window as enumerated: its handle, and its process name and
/// title when they could be read.
#[derive(Debug, Clone)]
pub struct WindowCandidate {
    pub hwnd: isize,
    pub process_name: Option<String>,
    pub title: Option<String>,
}

/// Index of the first monitor whose id is `id`.
pub open spec fn first_monitor(ms: Seq<MonitorInfo>, id: Seq<char>) -> Option<int> {
    if exists|i: int| 0 <= i < ms.len() && (#[trigger] ms[i]).id@ == id {
        Some(choose|i: int| 0 <= i < ms.len() && (#[trigger] ms[i]).id@ == id
            && forall|j: int| 0 <= j < i ==> (#[trigger] ms[j]).id@ != id)
    } else {
        None
    }
}

proof fn lemma_first_monitor(ms: Seq<MonitorInfo>, id: Seq<char>, i: int)
    requires
        0 <= i < ms.len(),
        ms[i].id@ == id,
        forall|j: int| 0 <= j < i ==> (#[trigger] ms[j]).id@ != id,
    ensures
        first_monitor(ms, id) == Some(i),
{
    let w = choose|q: int| 0 <= q < ms.len() && (#[trigger] ms[q]).id@ == id
        && forall|j: int| 0 <= j < q ==> (#[trigger] ms[j]).id@ != id;
    assert(0 <= i < ms.len() && ms[i].id@ == id && forall|j: int| 0 <= j < i ==> (#[trigger] ms[j]).id@ != id);
    if w < i {
        assert(ms[w].id@ != id);
    } else if w > i {
        assert(ms[i].id@ != id);
    }
}

/// Screen rectangle (x, y, w, h) of the monitor with the given device id
/// (trimmed); none for an empty id or an unknown one.
pub fn monitor_rect_by_id(monitors: &Vec<MonitorInfo>, id: &str) -> (r: Option<(i32, i32, i32, i32)>)
    ensures
        trim(id@).len() == 0 ==> r is None,
        trim(id@).len() > 0 ==> match first_monitor(monitors@, trim(id@)) {
            Some(i) => r == Some((monitors@[i].x, monitors@[i].y, monitors@[i].width, monitors@[i].height)),
            None => r is None,
        },
{
    let idv = chars_of(id);
    let t = trim_chars(idv.as_slice());
    if t.len() == 0 {
        return None;
    }
    let mut i: usize = 0;
    while i < monitors.len()
        invariant
            i <= monitors@.len(),
            t@ == trim(id@),
            t@.len() > 0,
            forall|j: int| 0 <= j < i ==> (#[trigger] monitors@[j]).id@ != t@,
        decreases monitors@.len() - i,
    {
        let m = &monitors[i];
        let mid = chars_of(m.id.as_str());
        if chars_eq(mid.as_slice(), t.as_slice()) {
            proof {
                lemma_first_monitor(monitors@, t@, i as int);
            }
            return Some((m.x, m.y, m.width, m.height));
        }
        i += 1;
    }
    None
}

/// Index of the first window entry with handle `raw`.
pub open spec fn first_handle(ws: Seq<(isize, String, String)>, raw: isize) -> Option<int> {
    if exists|i: int| 0 <= i < ws.len() && (#[trigger] ws[i]).0 == raw {
        Some(choose|i: int| 0 <= i < ws.len() && (#[trigger] ws[i]).0 == raw
            && forall|j: int| 0 <= j < i ==> (#[trigger] ws[j]).0 != raw)
    } else {
        None
    }
}

proof fn lemma_first_handle(ws: Seq<(isize, String, String)>, raw: isize, i: int)
    requires
        0 <= i < ws.len(),
        ws[i].0 == raw,
        forall|j: int| 0 <= j < i ==> (#[trigger] ws[j]).0 != raw,
    ensures
        first_handle(ws, raw) == Some(i),
{
    let w = choose|q: int| 0 <= q < ws.len() && (#[trigger] ws[q]).0 == raw
        && forall|j: int| 0 <= j < q ==> (#[trigger] ws[j]).0 != raw;
    assert(0 <= i < ws.len() && ws[i].0 == raw && forall|j: int| 0 <= j < i ==> (#[trigger] ws[j]).0 != raw);
    if w < i {
        assert(ws[w].0 != raw);
    } else if w > i {
        assert(ws[i].0 != raw);
    }
}

/// The capture query for a window: its process name, or its title when the
/// process name is empty.
pub open spec fn query_of(title: Seq<char>, process: Seq<char>) -> Seq<char> {
    if process.len() > 0 { process } else { title }
}

fn find_handle(windows: &Vec<(isize, String, String)>, raw: isize) -> (r: Option<usize>)
    ensures
        r matches Some(i) ==> first_handle(windows@, raw) == Some(i as int) && i < windows@.len(),
        r is None ==> first_handle(windows@, raw) is None,
{
    let mut i: usize = 0;
    while i < windows.len()
        invariant
            i <= windows@.len(),
            forall|j: int| 0 <= j < i ==> (#[trigger] windows@[j]).0 != raw,
        decreases windows@.len() - i,
    {
        if windows[i].0 == raw {
            proof {
                lemma_first_handle(windows@, raw, i as int);
            }
            return Some(i);
        }
        i += 1;
    }
    None
}

/// The capture query for the window with handle `raw` among the enumerated
/// (handle, title, process name) entries.
pub fn query_for_hwnd(windows: &Vec<(isize, String, String)>, raw: isize) -> (r: Option<String>)
    ensures
        match first_handle(windows@, raw) {
            Some(i) => r matches Some(q) && q@ == query_of(windows@[i].1@, windows@[i].2@),
            None => r is None,
        },
{
    match find_handle(windows, raw) {
        Some(i) => {
            let (_, title, process) = &windows[i];
            if chars_of(process.as_str()).len() > 0 {
                Some(string_of(chars_of(process.as_str()).as_slice()))
            } else {
                Some(string_of(chars_of(title.as_str()).as_slice()))
            }
        },
        None => None,
    }
}

/// The capture query and the title of the window with handle `raw`.
pub fn window_info_for_hwnd(windows: &Vec<(isize, String, String)>, raw: isize) -> (r: Option<(String, String)>)
    ensures
        match first_handle(windows@, raw) {
            Some(i) => r matches Some(p) && p.0@ == query_of(windows@[i].1@, windows@[i].2@) && p.1@ == windows@[i].1@,
            None => r is None,
        },
{
    match find_handle(windows, raw) {
        Some(i) => {
            let (_, title, process) = &windows[i];
            let t = chars_of(title.as_str());
            let q = if chars_of(process.as_str()).len() > 0 {
                string_of(chars_of(process.as_str()).as_slice())
            } else {
                string_of(t.as_slice())
            };
            Some((q, string_of(t.as_slice())))
        },
        None => None,
    }
}

// ---------------------------------------------------------------------------
// Choosing the window to capture
// ---------------------------------------------------------------------------

/// `char::to_ascii_lowercase`, as a code point.
pub open spec fn ascii_fold(c: char) -> u32 {
    if 'A' <= c && c <= 'Z' {
        (c as u32 + 32) as u32
    } else {
        c as u32
    }
}

/// `str::eq_ignore_ascii_case`.
pub open spec fn eq_ignore_ascii_case(a: Seq<char>, b: Seq<char>) -> bool {
    a.len() == b.len() && forall|i: int| 0 <= i < a.len() ==> ascii_fold(#[trigger] a[i]) == ascii_fold(b[i])
}

/// `str::contains` with a string pattern.
pub open spec fn contains_seq(hay: Seq<char>, needle: Seq<char>) -> bool {
    exists|i: int| 0 <= i && i + needle.len() <= hay.len() && #[trigger] hay.subrange(i, i + needle.len()) == needle
}

/// Which rule picked the window, or why none was picked.
pub open spec fn window_choice(
    ws: Seq<WindowCandidate>,
    query: Seq<char>,
    pinned_hwnd: isize,
    pinned_query: Seq<char>,
    auto_target: Option<isize>,
) -> Option<int> {
    let q = trim(query);
    let pinned = if pinned_hwnd != 0 && pinned_query.len() > 0 && pinned_query == q {
        first_where(ws, has_hwnd(pinned_hwnd))
    } else {
        None
    };
    if pinned is Some {
        pinned
    } else if q.len() == 0 {
        match auto_target {
            Some(t) => first_where(ws, has_hwnd(t)),
            None => None,
        }
    } else {
        match first_where(ws, process_is(q)) {
            Some(i) => Some(i),
            None => first_where(ws, title_has(q)),
        }
    }
}

/// The window has the given handle.
pub open spec fn has_hwnd(h: isize) -> spec_fn(WindowCandidate) -> bool {
    |w: WindowCandidate| w.hwnd == h
}

/// The window's process name equals `q`, ASCII case ignored.
pub open spec fn process_is(q: Seq<char>) -> spec_fn(WindowCandidate) -> bool {
    |w: WindowCandidate| (w.process_name matches Some(p) && eq_ignore_ascii_case(p@, q))
}

/// The window's title contains `q`, case ignored.
pub open spec fn title_has(q: Seq<char>) -> spec_fn(WindowCandidate) -> bool {
    |w: WindowCandidate| (w.title matches Some(t) && contains_seq(lowercase(t@), lowercase(q)))
}

/// Index of the first candidate satisfying `p`.
pub open spec fn first_where(ws: Seq<WindowCandidate>, p: spec_fn(WindowCandidate) -> bool) -> Option<int> {
    if exists|i: int| 0 <= i < ws.len() && p(#[trigger] ws[i]) {
        Some(choose|i: int| 0 <= i < ws.len() && p(#[trigger] ws[i]) && forall|j: int| 0 <= j < i ==> !p(#[trigger] ws[j]))
    } else {
        None
    }
}

proof fn lemma_first_where(ws: Seq<WindowCandidate>, p: spec_fn(WindowCandidate) -> bool, i: int)
    requires
        0 <= i < ws.len(),
        p(ws[i]),
        forall|j: int| 0 <= j < i ==> !p(#[trigger] ws[j]),
    ensures
        first_where(ws, p) == Some(i),
{
    let w = choose|q: int| 0 <= q < ws.len() && p(#[trigger] ws[q]) && forall|j: int| 0 <= j < q ==> !p(#[trigger] ws[j]);
    assert(0 <= i < ws.len() && p(ws[i]) && forall|j: int| 0 <= j < i ==> !p(#[trigger] ws[j]));
    if w < i {
        assert(!p(ws[w]));
    } else if w > i {
        assert(!p(ws[i]));
    }
}

proof fn lemma_first_where_found(ws: Seq<WindowCandidate>, p: spec_fn(WindowCandidate) -> bool)
    ensures
        first_where(ws, p) matches Some(i) ==> 0 <= i < ws.len() && p(ws[i])
            && forall|j: int| 0 <= j < i ==> !p(#[trigger] ws[j]),
        first_where(ws, p) is None ==> forall|j: int| 0 <= j < ws.len() ==> !p(#[trigger] ws[j]),
{
    if exists|i: int| 0 <= i < ws.len() && p(#[trigger] ws[i]) {
        let k = choose|i: int| 0 <= i < ws.len() && p(#[trigger] ws[i]);
        lemma_first_exists(ws, p, k);
    }
}

proof fn lemma_first_exists(ws: Seq<WindowCandidate>, p: spec_fn(WindowCandidate) -> bool, k: int)
    requires
        0 <= k < ws.len(),
        p(ws[k]),
    ensures
        exists|i: int| 0 <= i < ws.len() && p(#[trigger] ws[i]) && forall|j: int| 0 <= j < i ==> !p(#[trigger] ws[j]),
    decreases k,
{
    if exists|j: int| 0 <= j < k && p(#[trigger] ws[j]) {
        let j = choose|j: int| 0 <= j < k && p(#[trigger] ws[j]);
        lemma_first_exists(ws, p, j);
    } else {
        assert(0 <= k < ws.len() && p(ws[k]) && forall|j: int| 0 <= j < k ==> !p(#[trigger] ws[j]));
    }
}

/// The rules in order: without a pinned window that applies, a non-empty
/// query picks the first window whose process name is the query (ASCII case
/// ignored) whenever there is one, and the first window whose title holds the
/// query only when no process name matches; any pick is one of the windows.
pub proof fn lemma_window_rules(
    ws: Seq<WindowCandidate>,
    query: Seq<char>,
    pinned_hwnd: isize,
    pinned_query: Seq<char>,
    auto_target: Option<isize>,
)
    ensures
        window_choice(ws, query, pinned_hwnd, pinned_query, auto_target) matches Some(i) ==> 0 <= i < ws.len(),
        !(pinned_hwnd != 0 && pinned_query.len() > 0 && pinned_query == trim(query)) && trim(query).len() > 0 ==> {
            &&& (exists|k: int| 0 <= k < ws.len() && #[trigger] process_is(trim(query))(ws[k])) ==> (
                window_choice(ws, query, pinned_hwnd, pinned_query, auto_target) matches Some(i)
                    && process_is(trim(query))(ws[i])
                    && forall|j: int| 0 <= j < i ==> !process_is(trim(query))(#[trigger] ws[j]))
            &&& (forall|k: int| 0 <= k < ws.len() ==> !process_is(trim(query))(#[trigger] ws[k])) ==>
                window_choice(ws, query, pinned_hwnd, pinned_query, auto_target) == first_where(ws, title_has(trim(query)))
        },
{
    let q = trim(query);
    lemma_first_where_found(ws, has_hwnd(pinned_hwnd));
    lemma_first_where_found(ws, process_is(q));
    lemma_first_where_found(ws, title_has(q));
    match auto_target {
        Some(t) => lemma_first_where_found(ws, has_hwnd(t)),
        None => {},
    }
}

fn ascii_fold_exec(c: char) -> (r: u32)
    ensures
        r == ascii_fold(c),
{
    if 'A' <= c && c <= 'Z' {
        c as u32 + 32
    } else {
        c as u32
    }
}

fn eq_ignore_ascii_case_exec(a: &[char], b: &[char]) -> (r: bool)
    ensures
        r == eq_ignore_ascii_case(a@, b@),
{
    if a.len() != b.len() {
        return false;
    }
    let mut i: usize = 0;
    while i < a.len()
        invariant
            a@.len() == b@.len(),
            i <= a@.len(),
            forall|k: int| 0 <= k < i ==> ascii_fold(#[trigger] a@[k]) == ascii_fold(b@[k]),
        decreases a@.len() - i,
    {
        if ascii_fold_exec(a[i]) != ascii_fold_exec(b[i]) {
            return false;
        }
        i += 1;
    }
    true
}

fn contains_exec(hay: &[char], needle: &[char]) -> (r: bool)
    requires
        hay@.len() * 4 <= isize::MAX,
    ensures
        r == contains_seq(hay@, needle@),
{
    if needle.len() > hay.len() {
        return false;
    }
    let last = hay.len() - needle.len();
    let mut i: usize = 0;
    while i <= last
        invariant
            last + needle@.len() == hay@.len(),
            hay@.len() * 4 <= isize::MAX,
            i <= last + 1,
            forall|k: int| 0 <= k < i ==> #[trigger] hay@.subrange(k, k + needle@.len()) != needle@,
        decreases last + 1 - i,
    {
        let mut j: usize = 0;
        let mut same = true;
        while j < needle.len()
            invariant
                last + needle@.len() == hay@.len(),
                hay@.len() * 4 <= isize::MAX,
                i <= last,
                j <= needle@.len(),
                same == forall|k: int| 0 <= k < j ==> hay@[i + k] == needle@[k],
            decreases needle@.len() - j,
        {
            if hay[i + j] != needle[j] {
                same = false;
            }
            j += 1;
        }
        if same {
            assert(hay@.subrange(i as int, i + needle@.len()) =~= needle@);
            return true;
        }
        proof {
            let ghost k0 = choose|k: int| 0 <= k < needle@.len() && hay@[i + k] != needle@[k];
            assert(hay@.subrange(i as int, i + needle@.len())[k0] != needle@[k0]);
        }
        i += 1;
    }
    false
}

/// Picks the window to capture for `query` among the enumerated windows:
/// the pinned window when the query is the one it was pinned for and it
/// still exists; for an empty query the auto-detected game window; else the
/// first window whose process name equals the query (ASCII case ignored);
/// else the first whose title contains it (case ignored).  The query is
/// trimmed first.  Returns the window's index, or the error message.
pub fn pick_window(
    windows: &Vec<WindowCandidate>,
    query: &str,
    pinned_hwnd: isize,
    pinned_query: &str,
    auto_target: Option<isize>,
) -> (r: Result<usize, String>)
    ensures
        r matches Ok(i) ==> window_choice(windows@, query@, pinned_hwnd, pinned_query@, auto_target) == Some(i as int),
        r is Err ==> window_choice(windows@, query@, pinned_hwnd, pinned_query@, auto_target) is None,
        r matches Err(m) ==> (trim(query@).len() == 0 ==> m@ == "No window query set and no usable game window detected"@),
        r matches Err(m) ==> (trim(query@).len() > 0 ==> m@ == "No window matching '"@ + query@ + "'"@),
{
    let ghost ws = windows@;
    let qv = chars_of(query);
    let q = trim_chars(qv.as_slice());
    let pq = chars_of(pinned_query);
    let ghost pin_cond = pinned_hwnd != 0 && pinned_query@.len() > 0 && pinned_query@ == trim(query@);
    // The pinned window.
    if pinned_hwnd != 0 && pq.len() > 0 && chars_eq(pq.as_slice(), q.as_slice()) {
        let mut i: usize = 0;
        while i < windows.len()
            invariant
                i <= windows@.len(),
                ws == windows@,
                pin_cond,
                pin_cond == (pinned_hwnd != 0 && pinned_query@.len() > 0 && pinned_query@ == trim(query@)),
                forall|j: int| 0 <= j < i ==> !has_hwnd(pinned_hwnd)(#[trigger] ws[j]),
            decreases windows@.len() - i,
        {
            if windows[i].hwnd == pinned_hwnd {
                proof {
                    lemma_first_where(ws, has_hwnd(pinned_hwnd), i as int);
                }
                return Ok(i);
            }
            i += 1;
        }
        proof {
            assert(first_where(ws, has_hwnd(pinned_hwnd)) is None);
        }
    }
    proof {
        assert(!pin_cond || first_where(ws, has_hwnd(pinned_hwnd)) is None);
    }
    if q.len() == 0 {
        if let Some(t) = auto_target {
            let mut i: usize = 0;
            while i < windows.len()
                invariant
                    i <= windows@.len(),
                    ws == windows@,
                    !pin_cond || first_where(ws, has_hwnd(pinned_hwnd)) is None,
            pin_cond == (pinned_hwnd != 0 && pinned_query@.len() > 0 && pinned_query@ == trim(query@)),
                    trim(query@).len() == 0,
                    auto_target == Some(t),
                    forall|j: int| 0 <= j < i ==> !has_hwnd(t)(#[trigger] ws[j]),
                decreases windows@.len() - i,
            {
                if windows[i].hwnd == t {
                    proof {
                        lemma_first_where(ws, has_hwnd(t), i as int);
                    }
                    return Ok(i);
                }
                i += 1;
            }
            proof {
                assert(first_where(ws, has_hwnd(t)) is None);
            }
        }
        return Err("No window query set and no usable game window detected".to_owned());
    }
    // Process name.
    let mut i: usize = 0;
    while i < windows.len()
        invariant
            i <= windows@.len(),
            ws == windows@,
            q@ == trim(query@),
            q@.len() > 0,
            !pin_cond || first_where(ws, has_hwnd(pinned_hwnd)) is None,
            pin_cond == (pinned_hwnd != 0 && pinned_query@.len() > 0 && pinned_query@ == trim(query@)),
            forall|j: int| 0 <= j < i ==> !process_is(q@)(#[trigger] ws[j]),
        decreases windows@.len() - i,
    {
        if let Some(p) = &windows[i].process_name {
            let pv = chars_of(p.as_str());
            if eq_ignore_ascii_case_exec(pv.as_slice(), q.as_slice()) {
                proof {
                    lemma_first_where(ws, process_is(q@), i as int);
                }
                return Ok(i);
            }
        }
        i += 1;
    }
    proof {
        assert(first_where(ws, process_is(q@)) is None);
    }
    // Title.
    let ql = to_lowercase(string_of(q.as_slice()).as_str());
    let mut i: usize = 0;
    while i < windows.len()
        invariant
            i <= windows@.len(),
            ws == windows@,
            q@ == trim(query@),
            q@.len() > 0,
            ql@ == lowercase(q@),
            !pin_cond || first_where(ws, has_hwnd(pinned_hwnd)) is None,
            pin_cond == (pinned_hwnd != 0 && pinned_query@.len() > 0 && pinned_query@ == trim(query@)),
            first_where(ws, process_is(q@)) is None,
            forall|j: int| 0 <= j < i ==> !title_has(q@)(#[trigger] ws[j]),
        decreases windows@.len() - i,
    {
        if let Some(t) = &windows[i].title {
            let tl = to_lowercase(t.as_str());
            if contains_exec(tl.as_slice(), ql.as_slice()) {
                proof {
                    lemma_first_where(ws, title_has(q@), i as int);
                }
                return Ok(i);
            }
        }
        i += 1;
    }
    proof {
        assert(first_where(ws, title_has(q@)) is None);
    }
    let mut m = chars_of("No window matching '");
    append_chars(&mut m, qv.as_slice());
    append_chars(&mut m, chars_of("'").as_slice());
    Err(string_of(m.as_slice()))
}

} // verus!
