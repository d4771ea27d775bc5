//! Grouping of recognised text boxes into lines and paragraphs: boxes are
//! ordered top to bottom, gathered into lines by vertical proximity to each
//! line's mean centre, ordered left to right within a line, and consecutive
//! lines are split into paragraphs at large vertical gaps.

use vstd::prelude::*;
use crate::text::{append_chars, chars_of, join, join_chars, string_of};

verus! {

/// Rust's truncating division of integers (towards zero), for `b > 0`.
pub open spec fn trunc_div(a: int, b: int) -> int {
    if a >= 0 {
        a / b
    } else {
        -((-a) / b)
    }
}

/// A recognised text box.
#[derive(Debug, Clone)]
pub struct OcrBox {
    /// Bounding box as 4 corner points: [[x, y]; 4]
    /// Order: [top-left, top-right, bottom-right, bottom-left]
    pub bbox: [[i32; 2]; 4],
    /// Recognized text content
    pub text: String,
}

impl OcrBox {
    /// Vertical centre of the box: the midpoint of the top-left and
    /// bottom-right corners, rounded towards zero.
    pub open spec fn center(&self) -> int {
        trunc_div(self.bbox[0][1] + self.bbox[2][1], 2)
    }

    /// Creates a box.
    pub fn new(bbox: [[i32; 2]; 4], text: String) -> (b: Self)
        ensures
            b.bbox == bbox,
            b.text == text,
    {
        OcrBox { bbox, text }
    }

    /// The top-left corner.
    pub fn top_left(&self) -> (p: [i32; 2])
        ensures
            p == self.bbox[0],
    {
        self.bbox[0]
    }

    /// The top-right corner.
    pub fn top_right(&self) -> (p: [i32; 2])
        ensures
            p == self.bbox[1],
    {
        self.bbox[1]
    }

    /// The bottom-right corner.
    pub fn bottom_right(&self) -> (p: [i32; 2])
        ensures
            p == self.bbox[2],
    {
        self.bbox[2]
    }

    /// The bottom-left corner.
    pub fn bottom_left(&self) -> (p: [i32; 2])
        ensures
            p == self.bbox[3],
    {
        self.bbox[3]
    }

    /// The vertical centre (the sum of the two y coordinates must fit in an `i32`).
    pub fn center_y(&self) -> (c: i32)
        requires
            i32::MIN <= self.bbox[0][1] + self.bbox[2][1] <= i32::MAX,
        ensures
            c == self.center(),
    {
        self.center_wide() as i32
    }

    /// The vertical extent, `|bottom-right y - top-left y|` (which must fit in an `i32`).
    pub fn height(&self) -> (h: i32)
        requires
            i32::MIN < self.bbox[2][1] - self.bbox[0][1] <= i32::MAX,
        ensures
            h == if self.bbox[2][1] >= self.bbox[0][1] {
                self.bbox[2][1] - self.bbox[0][1]
            } else {
                self.bbox[0][1] - self.bbox[2][1]
            },
    {
        let d = self.bbox[2][1] - self.bbox[0][1];
        if d >= 0 {
            d
        } else {
            -d
        }
    }

    /// The centre, computed without overflow.
    fn center_wide(&self) -> (c: i64)
        ensures
            c == self.center(),
            i32::MIN <= c <= i32::MAX,
    {
        let s: i64 = self.bbox[0][1] as i64 + self.bbox[2][1] as i64;
        if s >= 0 {
            s / 2
        } else {
            -((-s) / 2)
        }
    }
}

/// Sum of the box centres.
pub open spec fn centers_sum(bs: Seq<OcrBox>) -> int
    decreases bs.len(),
{
    if bs.len() == 0 {
        0
    } else {
        centers_sum(bs.drop_last()) + bs.last().center()
    }
}

/// Mean centre of a line's boxes, rounded towards zero (0 for no boxes).
pub open spec fn line_mean(bs: Seq<OcrBox>) -> int {
    if bs.len() == 0 {
        0
    } else {
        trunc_div(centers_sum(bs), bs.len() as int)
    }
}

proof fn lemma_center_range(b: OcrBox)
    ensures
        i32::MIN <= b.center() <= i32::MAX,
{
}

proof fn lemma_centers_sum_bounds(bs: Seq<OcrBox>)
    ensures
        bs.len() * (i32::MIN as int) <= centers_sum(bs) <= bs.len() * (i32::MAX as int),
    decreases bs.len(),
{
    if bs.len() > 0 {
        lemma_centers_sum_bounds(bs.drop_last());
        lemma_center_range(bs.last());
        assert((bs.len() - 1) * (i32::MIN as int) + i32::MIN == bs.len() * (i32::MIN as int)) by (nonlinear_arith);
        assert((bs.len() - 1) * (i32::MAX as int) + i32::MAX == bs.len() * (i32::MAX as int)) by (nonlinear_arith);
    }
}

proof fn lemma_mean_range(bs: Seq<OcrBox>)
    ensures
        i32::MIN <= line_mean(bs) <= i32::MAX,
{
    if bs.len() > 0 {
        lemma_centers_sum_bounds(bs);
        let n = bs.len() as int;
        let s = centers_sum(bs);
        if s >= 0 {
            assert(s / n <= i32::MAX) by (nonlinear_arith)
                requires
                    0 <= s <= n * (i32::MAX as int),
                    n >= 1,
            ;
            assert(s / n >= 0) by (nonlinear_arith)
                requires
                    0 <= s,
                    n >= 1,
            ;
        } else {
            assert((-s) / n <= 0x8000_0000) by (nonlinear_arith)
                requires
                    0 < -s <= n * 0x8000_0000,
                    n >= 1,
            ;
            assert((-s) / n >= 0) by (nonlinear_arith)
                requires
                    0 < -s,
                    n >= 1,
            ;
        }
    }
}

/// A line of text boxes.
#[derive(Debug, Clone)]
pub struct TextLine {
    /// Text boxes in this line (left to right order)
    pub boxes: Vec<OcrBox>,
    /// Mean Y coordinate of the line
    pub y_mean: i32,
}

/// The boxes' texts joined with single spaces.
pub open spec fn line_text(bs: Seq<OcrBox>) -> Seq<char> {
    join(bs.map_values(|b: OcrBox| b.text@), seq![' '])
}

impl TextLine {
    /// An empty line.
    pub fn new() -> (l: Self)
        ensures
            l.boxes@.len() == 0,
            l.y_mean == 0,
    {
        TextLine { boxes: Vec::new(), y_mean: 0 }
    }

    /// Appends a box and recomputes the mean centre of the line.
    pub fn add_box(&mut self, ocr_box: OcrBox)
        ensures
            final(self).boxes@ == old(self).boxes@.push(ocr_box),
            final(self).y_mean == line_mean(final(self).boxes@),
    {
        self.boxes.push(ocr_box);
        self.y_mean = mean_of(&self.boxes);
    }

    /// The boxes' texts joined with single spaces.
    pub fn text(&self) -> (r: String)
        ensures
            r@ == line_text(self.boxes@),
    {
        let mut parts: Vec<Vec<char>> = Vec::new();
        let mut i: usize = 0;
        while i < self.boxes.len()
            invariant
                i <= self.boxes@.len(),
                parts@.len() == i,
                forall|k: int| 0 <= k < i ==> #[trigger] parts@[k]@ == self.boxes@[k].text@,
            decreases self.boxes@.len() - i,
        {
            parts.push(chars_of(self.boxes[i].text.as_str()));
            i += 1;
        }
        let sp = vec![' '];
        let r = join_chars(&parts, 0, sp.as_slice());
        assert(parts@.skip(0).map_values(|v: Vec<char>| v@) =~= self.boxes@.map_values(|b: OcrBox| b.text@));
        assert(sp@ =~= seq![' ']);
        string_of(r.as_slice())
    }

    /// Orders the boxes left to right (stable by left x).
    pub fn sort_by_x(&mut self)
        ensures
            final(self).boxes@ == stable_sorted(old(self).boxes@, false),
            final(self).y_mean == old(self).y_mean,
    {
        let mut boxes: Vec<OcrBox> = Vec::new();
        std::mem::swap(&mut boxes, &mut self.boxes);
        self.boxes = sort_boxes(boxes, false);
    }

    /// Whether the line has no boxes.
    pub fn is_empty(&self) -> (b: bool)
        ensures
            b == (self.boxes@.len() == 0),
    {
        self.boxes.len() == 0
    }
}

/// The mean centre of some boxes, computed without overflow.
fn mean_of(boxes: &Vec<OcrBox>) -> (m: i32)
    ensures
        m == line_mean(boxes@),
{
    let n = boxes.len();
    if n == 0 {
        return 0;
    }
    let mut sum: i128 = 0;
    let mut i: usize = 0;
    while i < n
        invariant
            n == boxes@.len(),
            i <= n,
            sum == centers_sum(boxes@.take(i as int)),
        decreases n - i,
    {
        proof {
            assert(boxes@.take(i + 1).drop_last() =~= boxes@.take(i as int));
            lemma_centers_sum_bounds(boxes@.take(i as int));
            assert(i * (i32::MAX as int) < 0x1_0000_0000_0000_0000 * 0x8000_0000) by (nonlinear_arith)
                requires
                    i <= usize::MAX,
            ;
            assert(i * (i32::MIN as int) > -0x1_0000_0000_0000_0000 * 0x8000_0000) by (nonlinear_arith)
                requires
                    i <= usize::MAX,
            ;
        }
        let c = boxes[i].center_wide();
        sum = sum + c as i128;
        i += 1;
    }
    proof {
        assert(boxes@.take(n as int) =~= boxes@);
        lemma_mean_range(boxes@);
        lemma_centers_sum_bounds(boxes@);
        assert(n * (i32::MAX as int) < 0x1_0000_0000_0000_0000 * 0x8000_0000) by (nonlinear_arith)
            requires
                n <= usize::MAX,
        ;
        assert(n * (i32::MIN as int) > -0x1_0000_0000_0000_0000 * 0x8000_0000) by (nonlinear_arith)
            requires
                n <= usize::MAX,
        ;
    }
    let len = n as i128;
    let m: i128 = if sum >= 0 {
        sum / len
    } else {
        -((-sum) / len)
    };
    m as i32
}

// ---------------------------------------------------------------------------
// Stable ordering of boxes
// ---------------------------------------------------------------------------

/// The key boxes are ordered by: (top y, left x) for rows, (left x, 0) within a line.
pub open spec fn sort_key(b: OcrBox, by_row: bool) -> (int, int) {
    if by_row {
        (b.bbox[0][1] as int, b.bbox[0][0] as int)
    } else {
        (b.bbox[0][0] as int, 0int)
    }
}

/// Lexicographic order on keys.
pub open spec fn key_lt(a: (int, int), b: (int, int)) -> bool {
    a.0 < b.0 || (a.0 == b.0 && a.1 < b.1)
}

/// The boxes are in non-decreasing key order.
pub open spec fn sorted_by(s: Seq<OcrBox>, by_row: bool) -> bool {
    forall|i: int, j: int| 0 <= i < j < s.len() ==> !key_lt(sort_key(s[j], by_row), sort_key(s[i], by_row))
}

/// The box has key `k`.
pub open spec fn has_key(k: (int, int), by_row: bool) -> spec_fn(OcrBox) -> bool {
    |b: OcrBox| sort_key(b, by_row) == k
}

/// For every key, the boxes with that key come in the same order in both
/// sequences (so `r` is a stable reordering of `s`).
pub open spec fn same_per_key(r: Seq<OcrBox>, s: Seq<OcrBox>, by_row: bool) -> bool {
    forall|k: (int, int)| #[trigger] r.filter(has_key(k, by_row)) == s.filter(has_key(k, by_row))
}

/// Number of leading boxes whose key is below that of `x`.
pub open spec fn insert_pos(t: Seq<OcrBox>, x: OcrBox, by_row: bool) -> nat
    decreases t.len(),
{
    if t.len() == 0 {
        0
    } else if key_lt(sort_key(t[0], by_row), sort_key(x, by_row)) {
        1 + insert_pos(t.drop_first(), x, by_row)
    } else {
        0
    }
}

/// Stable sort by key: `s[0]` goes before the first element of the sorted
/// rest whose key is not below its own.
pub open spec fn stable_sorted(s: Seq<OcrBox>, by_row: bool) -> Seq<OcrBox>
    decreases s.len(),
{
    if s.len() == 0 {
        s
    } else {
        let t = stable_sorted(s.drop_first(), by_row);
        t.insert(insert_pos(t, s[0], by_row) as int, s[0])
    }
}

proof fn lemma_insert_pos(t: Seq<OcrBox>, x: OcrBox, by_row: bool)
    ensures
        insert_pos(t, x, by_row) <= t.len(),
        forall|j: int| 0 <= j < insert_pos(t, x, by_row) ==> key_lt(sort_key(#[trigger] t[j], by_row), sort_key(x, by_row)),
        insert_pos(t, x, by_row) < t.len() ==> !key_lt(sort_key(t[insert_pos(t, x, by_row) as int], by_row), sort_key(x, by_row)),
    decreases t.len(),
{
    if t.len() > 0 && key_lt(sort_key(t[0], by_row), sort_key(x, by_row)) {
        lemma_insert_pos(t.drop_first(), x, by_row);
        assert forall|j: int| 0 <= j < insert_pos(t, x, by_row) implies key_lt(sort_key(#[trigger] t[j], by_row), sort_key(x, by_row)) by {
            if j > 0 {
                assert(t[j] == t.drop_first()[j - 1]);
            }
        }
    }
}

/// Inserting `x` at a position where everything before has a smaller key
/// and everything after a key at least as large keeps the order sorted and
/// puts `x` first among the boxes of its key.
proof fn lemma_insert_keeps_order(t: Seq<OcrBox>, s: Seq<OcrBox>, x: OcrBox, pos: int, by_row: bool)
    requires
        0 <= pos <= t.len(),
        sorted_by(t, by_row),
        same_per_key(t, s, by_row),
        forall|j: int| 0 <= j < pos ==> key_lt(sort_key(#[trigger] t[j], by_row), sort_key(x, by_row)),
        pos < t.len() ==> !key_lt(sort_key(t[pos], by_row), sort_key(x, by_row)),
    ensures
        sorted_by(t.insert(pos, x), by_row),
        same_per_key(t.insert(pos, x), seq![x] + s, by_row),
{
    let r = t.insert(pos, x);
    let a = t.subrange(0, pos);
    let b = t.subrange(pos, t.len() as int);
    assert(t =~= a + b);
    assert(r =~= a + seq![x] + b);
    assert forall|i: int, j: int| 0 <= i < j < r.len() implies !key_lt(sort_key(r[j], by_row), sort_key(r[i], by_row)) by {
        if j < pos {
            assert(r[i] == t[i] && r[j] == t[j]);
        } else if j == pos {
            assert(r[i] == t[i]);
        } else if i == pos {
            assert(r[j] == t[j - 1]);
            if j - 1 > pos {
                assert(!key_lt(sort_key(t[j - 1], by_row), sort_key(t[pos], by_row)));
            }
        } else if i < pos {
            assert(r[i] == t[i] && r[j] == t[j - 1]);
        } else {
            assert(r[i] == t[i - 1] && r[j] == t[j - 1]);
        }
    }
    assert forall|k: (int, int)| #[trigger] r.filter(has_key(k, by_row)) == (seq![x] + s).filter(has_key(k, by_row)) by {
        let p = has_key(k, by_row);
        Seq::filter_distributes_over_add(a + seq![x], b, p);
        Seq::filter_distributes_over_add(a, seq![x], p);
        Seq::filter_distributes_over_add(a, b, p);
        s.lemma_filter_prepend(x, p);
        reveal(Seq::filter);
        assert(seq![x].filter(p) =~= if p(x) { seq![x] } else { Seq::<OcrBox>::empty() });
        assert(t.filter(p) == s.filter(p));
        if p(x) {
            assert forall|j: int| 0 <= j < a.len() implies !p(#[trigger] a[j]) by {
                assert(a[j] == t[j]);
            }
            a.lemma_all_neg_filter_empty(p);
            assert(a.filter(p) =~= Seq::<OcrBox>::empty());
        }
    }
}

/// `stable_sorted` is sorted and a stable reordering of its input.
pub proof fn lemma_stable_sorted(s: Seq<OcrBox>, by_row: bool)
    ensures
        sorted_by(stable_sorted(s, by_row), by_row),
        same_per_key(stable_sorted(s, by_row), s, by_row),
        stable_sorted(s, by_row).len() == s.len(),
    decreases s.len(),
{
    if s.len() > 0 {
        let rest = s.drop_first();
        lemma_stable_sorted(rest, by_row);
        let t = stable_sorted(rest, by_row);
        lemma_insert_pos(t, s[0], by_row);
        lemma_insert_keeps_order(t, rest, s[0], insert_pos(t, s[0], by_row) as int, by_row);
        assert(seq![s[0]] + rest =~= s);
    }
}

fn key_less(a: &OcrBox, b: &OcrBox, by_row: bool) -> (r: bool)
    ensures
        r == key_lt(sort_key(*a, by_row), sort_key(*b, by_row)),
{
    if by_row {
        a.bbox[0][1] < b.bbox[0][1] || (a.bbox[0][1] == b.bbox[0][1] && a.bbox[0][0] < b.bbox[0][0])
    } else {
        a.bbox[0][0] < b.bbox[0][0]
    }
}

/// Stable sort of boxes by key (by (top y, left x) for rows, by left x otherwise).
fn sort_boxes(boxes: Vec<OcrBox>, by_row: bool) -> (r: Vec<OcrBox>)
    ensures
        r@ == stable_sorted(boxes@, by_row),
{
    let ghost orig = boxes@;
    let mut input = boxes;
    let mut out: Vec<OcrBox> = Vec::new();
    assert(orig.subrange(orig.len() as int, orig.len() as int) =~= Seq::<OcrBox>::empty());
    while input.len() > 0
        invariant
            input@ == orig.take(input@.len() as int),
            input@.len() <= orig.len(),
            out@ == stable_sorted(orig.subrange(input@.len() as int, orig.len() as int), by_row),
        decreases input@.len(),
    {
        let ghost n = input@.len();
        let x = input.pop().unwrap();
        proof {
            assert(x == orig[n - 1]);
            assert(input@ =~= orig.take(n - 1));
            let seg = orig.subrange(n - 1, orig.len() as int);
            assert(seg.drop_first() =~= orig.subrange(n as int, orig.len() as int));
            assert(seg[0] == x);
            lemma_insert_pos(out@, x, by_row);
        }
        let mut pos: usize = 0;
        while pos < out.len() && key_less(&out[pos], &x, by_row)
            invariant
                pos <= out@.len(),
                pos <= insert_pos(out@, x, by_row),
                forall|j: int| 0 <= j < insert_pos(out@, x, by_row) ==> key_lt(sort_key(#[trigger] out@[j], by_row), sort_key(x, by_row)),
                insert_pos(out@, x, by_row) <= out@.len(),
                insert_pos(out@, x, by_row) < out@.len() ==> !key_lt(sort_key(out@[insert_pos(out@, x, by_row) as int], by_row), sort_key(x, by_row)),
            decreases out@.len() - pos,
        {
            pos += 1;
        }
        assert(pos == insert_pos(out@, x, by_row));
        out.insert(pos, x);
    }
    assert(orig.subrange(0, orig.len() as int) =~= orig);
    out
}

// ---------------------------------------------------------------------------
// Lines
// ---------------------------------------------------------------------------

/// A box centred at `c` belongs to a line whose mean centre is less than
/// `thr` away.
pub open spec fn close_to(line: Seq<OcrBox>, c: int, thr: int) -> bool {
    let d = c - line_mean(line);
    (if d >= 0 { d } else { -d }) < thr
}

/// The first line a box centred at `c` belongs to, if any.
pub open spec fn first_close(lines: Seq<Seq<OcrBox>>, c: int, thr: int) -> Option<int>
    decreases lines.len(),
{
    if lines.len() == 0 {
        None
    } else {
        match first_close(lines.drop_last(), c, thr) {
            Some(j) => Some(j),
            None => if close_to(lines.last(), c, thr) {
                Some(lines.len() - 1)
            } else {
                None
            },
        }
    }
}

/// The lines after placing one more box: into the first line it belongs
/// to, else into a new line at the end.
pub open spec fn place(lines: Seq<Seq<OcrBox>>, b: OcrBox, thr: int) -> Seq<Seq<OcrBox>> {
    match first_close(lines, b.center(), thr) {
        Some(j) => lines.update(j, lines[j].push(b)),
        None => lines.push(seq![b]),
    }
}

/// The lines formed by placing the boxes one after another.
pub open spec fn grouped(boxes: Seq<OcrBox>, thr: int) -> Seq<Seq<OcrBox>>
    decreases boxes.len(),
{
    if boxes.len() == 0 {
        Seq::empty()
    } else {
        place(grouped(boxes.drop_last(), thr), boxes.last(), thr)
    }
}

proof fn lemma_first_close_range(lines: Seq<Seq<OcrBox>>, c: int, thr: int)
    ensures
        first_close(lines, c, thr) matches Some(j) ==> 0 <= j < lines.len() && close_to(lines[j], c, thr),
    decreases lines.len(),
{
    if lines.len() > 0 {
        lemma_first_close_range(lines.drop_last(), c, thr);
    }
}

proof fn lemma_first_close_prefix(lines: Seq<Seq<OcrBox>>, k: int, c: int, thr: int)
    requires
        0 <= k <= lines.len(),
        first_close(lines.take(k), c, thr) is Some,
    ensures
        first_close(lines, c, thr) == first_close(lines.take(k), c, thr),
    decreases lines.len() - k,
{
    if k < lines.len() {
        assert(lines.drop_last().take(k) =~= lines.take(k));
        lemma_first_close_prefix(lines.drop_last(), k, c, thr);
    } else {
        assert(lines.take(k) =~= lines);
    }
}

/// Every line formed from boxes is non-empty, and the lines hold the boxes
/// (each box in exactly one line, as many boxes in all as were given).
pub proof fn lemma_grouped_lines(boxes: Seq<OcrBox>, thr: int)
    ensures
        forall|i: int| 0 <= i < grouped(boxes, thr).len() ==> #[trigger] grouped(boxes, thr)[i].len() > 0,
        total_boxes(grouped(boxes, thr)) == boxes.len(),
        grouped(boxes, thr).len() <= boxes.len(),
    decreases boxes.len(),
{
    if boxes.len() > 0 {
        let prev = grouped(boxes.drop_last(), thr);
        lemma_grouped_lines(boxes.drop_last(), thr);
        lemma_first_close_range(prev, boxes.last().center(), thr);
        match first_close(prev, boxes.last().center(), thr) {
            Some(j) => {
                lemma_total_boxes_update(prev, j, prev[j].push(boxes.last()));
            },
            None => {
                assert(prev.push(seq![boxes.last()]).drop_last() =~= prev);
            },
        }
    }
}

/// Number of boxes over all lines.
pub open spec fn total_boxes(lines: Seq<Seq<OcrBox>>) -> int
    decreases lines.len(),
{
    if lines.len() == 0 {
        0
    } else {
        total_boxes(lines.drop_last()) + lines.last().len()
    }
}

proof fn lemma_total_boxes_update(lines: Seq<Seq<OcrBox>>, j: int, l: Seq<OcrBox>)
    requires
        0 <= j < lines.len(),
    ensures
        total_boxes(lines.update(j, l)) == total_boxes(lines) - lines[j].len() + l.len(),
    decreases lines.len(),
{
    if j < lines.len() - 1 {
        assert(lines.update(j, l).drop_last() =~= lines.drop_last().update(j, l));
        lemma_total_boxes_update(lines.drop_last(), j, l);
    } else {
        assert(lines.update(j, l).drop_last() =~= lines.drop_last());
    }
}

/// Groups boxes into lines: the boxes are taken top to bottom (stable by
/// (top y, left x)), each joins the first line whose mean centre is less
/// than `line_threshold` away from its own centre or else starts a new line,
/// and each line's boxes are then ordered left to right (stable by left x).
/// A line's `y_mean` is the mean centre of its boxes.
pub fn group_into_lines(boxes: Vec<OcrBox>, line_threshold: i32) -> (r: Vec<TextLine>)
    ensures
        r@.len() == grouped(stable_sorted(boxes@, true), line_threshold as int).len(),
        forall|i: int| 0 <= i < r@.len() ==> {
            let g = grouped(stable_sorted(boxes@, true), line_threshold as int);
            &&& (#[trigger] r@[i]).boxes@ == stable_sorted(g[i], false)
            &&& r@[i].y_mean == line_mean(g[i])
        },
{
    let ghost thr = line_threshold as int;
    let sorted = sort_boxes(boxes, true);
    let ghost ss = sorted@;
    let mut rest = sorted;
    let mut lines: Vec<TextLine> = Vec::new();
    let ghost mut done: int = 0;
    while rest.len() > 0
        invariant
            0 <= done <= ss.len(),
            thr == line_threshold as int,
            rest@ == ss.skip(done),
            lines@.len() == grouped(ss.take(done), thr).len(),
            forall|j: int| 0 <= j < lines@.len() ==> {
                &&& (#[trigger] lines@[j]).boxes@ == grouped(ss.take(done), thr)[j]
                &&& lines@[j].y_mean == line_mean(lines@[j].boxes@)
            },
        decreases rest@.len(),
    {
        let b = rest.remove(0);
        let ghost ls = grouped(ss.take(done), thr);
        proof {
            assert(b == ss[done]);
            assert(ss.take(done + 1).drop_last() =~= ss.take(done));
            assert(ss.take(done + 1).last() == b);
        }
        let c = b.center_wide();
        let mut j: usize = 0;
        let mut found = false;
        while j < lines.len()
            invariant_except_break
                !found,
            invariant
                j <= lines@.len(),
                lines@.len() == ls.len(),
                forall|k: int| 0 <= k < lines@.len() ==> {
                    &&& (#[trigger] lines@[k]).boxes@ == ls[k]
                    &&& lines@[k].y_mean == line_mean(lines@[k].boxes@)
                },
                c == b.center(),
                thr == line_threshold as int,
                first_close(ls.take(j as int), c as int, thr) is None,
            ensures
                found ==> j < lines@.len() && first_close(ls.take(j + 1), c as int, thr) == Some(j as int),
                !found ==> j == lines@.len() && first_close(ls.take(j as int), c as int, thr) is None,
            decreases lines@.len() - j,
        {
            let d: i64 = c - lines[j].y_mean as i64;
            let ad: i64 = if d >= 0 { d } else { -d };
            proof {
                assert(ls.take(j + 1).drop_last() =~= ls.take(j as int));
                assert(ls.take(j + 1).last() == ls[j as int]);
                assert(lines@[j as int].y_mean == line_mean(ls[j as int]));
                assert(d == c - line_mean(ls[j as int]));
                assert(ad == (if d >= 0 { d as int } else { -d }));
                assert((ad < line_threshold) == close_to(ls[j as int], c as int, thr));
            }
            if ad < line_threshold as i64 {
                found = true;
                break;
            }
            j += 1;
        }
        if found {
            proof {
                lemma_first_close_prefix(ls, j + 1, c as int, thr);
            }
            let ghost before = lines@;
            let mut line = lines.remove(j);
            line.add_box(b);
            lines.insert(j, line);
            proof {
                assert(lines@ =~= before.update(j as int, lines@[j as int]));
            }
        } else {
            proof {
                assert(ls.take(j as int) =~= ls);
            }
            let mut line = TextLine::new();
            line.add_box(b);
            proof {
                assert(line.boxes@ =~= seq![b]);
            }
            lines.push(line);
        }
        proof {
            done = done + 1;
        }
    }
    proof {
        assert(ss.take(done) =~= ss);
    }
    let ghost g = grouped(ss, thr);
    let ghost all_lines = lines@;
    let mut out: Vec<TextLine> = Vec::new();
    while lines.len() > 0
        invariant
            out@.len() + lines@.len() == all_lines.len(),
            lines@ == all_lines.skip(out@.len() as int),
            all_lines.len() == g.len(),
            forall|j: int| 0 <= j < all_lines.len() ==> {
                &&& (#[trigger] all_lines[j]).boxes@ == g[j]
                &&& all_lines[j].y_mean == line_mean(all_lines[j].boxes@)
            },
            forall|i: int| 0 <= i < out@.len() ==> {
                &&& (#[trigger] out@[i]).boxes@ == stable_sorted(g[i], false)
                &&& out@[i].y_mean == line_mean(g[i])
            },
        decreases lines@.len(),
    {
        let line = lines.remove(0);
        proof {
            assert(line == all_lines[out@.len() as int]);
        }
        let mut line = line;
        line.sort_by_x();
        out.push(line);
    }
    out
}

// ---------------------------------------------------------------------------
// Paragraphs
// ---------------------------------------------------------------------------

/// Each line's text and mean centre.
pub open spec fn line_entries(lines: Seq<TextLine>) -> Seq<(Seq<char>, int)> {
    lines.map_values(|l: TextLine| (line_text(l.boxes@), l.y_mean as int))
}

/// Consecutive lines grouped into paragraphs: a line starts a new paragraph
/// when its mean centre is more than `gap` below the previous line's.
pub open spec fn paragraph_groups(ls: Seq<(Seq<char>, int)>, gap: int) -> Seq<Seq<Seq<char>>>
    decreases ls.len(),
{
    if ls.len() == 0 {
        Seq::empty()
    } else if ls.len() == 1 {
        seq![seq![ls[0].0]]
    } else {
        let p = paragraph_groups(ls.drop_last(), gap);
        if ls.last().1 - ls[ls.len() - 2].1 > gap {
            p.push(seq![ls.last().0])
        } else {
            p.update(p.len() - 1, p.last().push(ls.last().0))
        }
    }
}

/// The texts handed to matching: without paragraph mode one text of all
/// lines joined by newlines; with it, one text per paragraph.
pub open spec fn clustered(lines: Seq<TextLine>, paragraph_mode: bool, gap: int) -> Seq<Seq<char>> {
    let es = line_entries(lines);
    if lines.len() == 0 {
        Seq::empty()
    } else if !paragraph_mode {
        seq![join(es.map_values(|e: (Seq<char>, int)| e.0), seq!['\n'])]
    } else {
        paragraph_groups(es, gap).map_values(|p: Seq<Seq<char>>| join(p, seq!['\n']))
    }
}

proof fn lemma_paragraph_groups_nonempty(ls: Seq<(Seq<char>, int)>, gap: int)
    ensures
        ls.len() > 0 ==> paragraph_groups(ls, gap).len() > 0,
    decreases ls.len(),
{
    if ls.len() > 1 {
        lemma_paragraph_groups_nonempty(ls.drop_last(), gap);
    }
}

spec fn group_views(g: Seq<Vec<Vec<char>>>) -> Seq<Seq<Seq<char>>> {
    g.map_values(|p: Vec<Vec<char>>| p@.map_values(|v: Vec<char>| v@))
}

/// Paragraphs partition the lines: each paragraph has at least one line,
/// and the paragraphs' lines, read in order, are exactly the lines in order.
pub proof fn lemma_paragraphs_partition_lines(ls: Seq<(Seq<char>, int)>, gap: int)
    ensures
        paragraph_groups(ls, gap).flatten_alt() == ls.map_values(|e: (Seq<char>, int)| e.0),
        forall|i: int| 0 <= i < paragraph_groups(ls, gap).len() ==> #[trigger] paragraph_groups(ls, gap)[i].len() > 0,
    decreases ls.len(),
{
    let texts = ls.map_values(|e: (Seq<char>, int)| e.0);
    if ls.len() == 0 {
        assert(texts =~= Seq::<Seq<char>>::empty());
    } else if ls.len() == 1 {
        let p = paragraph_groups(ls, gap);
        assert(p.drop_last() =~= Seq::<Seq<Seq<char>>>::empty());
        assert(p.drop_last().flatten_alt() =~= Seq::<Seq<char>>::empty());
        assert(p.flatten_alt() =~= Seq::<Seq<char>>::empty() + p.last());
        assert(texts =~= seq![ls[0].0]);
        assert(p.flatten_alt() =~= texts);
    } else {
        let prev = ls.drop_last();
        lemma_paragraphs_partition_lines(prev, gap);
        let p = paragraph_groups(prev, gap);
        lemma_paragraph_groups_nonempty(prev, gap);
        assert(prev.map_values(|e: (Seq<char>, int)| e.0) =~= texts.drop_last());
        let r = paragraph_groups(ls, gap);
        if ls.last().1 - ls[ls.len() - 2].1 > gap {
            assert(r.drop_last() =~= p);
            assert(r.flatten_alt() =~= p.flatten_alt() + seq![ls.last().0]);
        } else {
            assert(r.drop_last() =~= p.drop_last());
            assert(r.flatten_alt() =~= p.drop_last().flatten_alt() + p.last().push(ls.last().0));
            assert(p.flatten_alt() =~= p.drop_last().flatten_alt() + p.last());
        }
        assert(texts =~= texts.drop_last().push(ls.last().0));
    }
}

/// The number of lines in the first `p` paragraphs.
pub open spec fn lines_before(g: Seq<Seq<Seq<char>>>, p: int) -> int
    decreases p,
{
    if p <= 0 {
        0
    } else {
        lines_before(g, p - 1) + g[p - 1].len()
    }
}

proof fn lemma_lines_before_prefix(g1: Seq<Seq<Seq<char>>>, g2: Seq<Seq<Seq<char>>>, p: int)
    requires
        0 <= p <= g1.len(),
        p <= g2.len(),
        forall|q: int| 0 <= q < p ==> #[trigger] g1[q].len() == g2[q].len(),
    ensures
        lines_before(g1, p) == lines_before(g2, p),
    decreases p,
{
    if p > 0 {
        lemma_lines_before_prefix(g1, g2, p - 1);
    }
}

/// Where the paragraphs break: line `j` of paragraph `p` is line
/// `lines_before(p) + j`; within a paragraph each line is at most `gap` below
/// the line before it, and the first line of every paragraph but the first
/// is more than `gap` below the line before it.  So lines whose consecutive
/// gaps are all at most `gap` stay in one paragraph, whatever their total
/// spread.
pub proof fn lemma_paragraph_breaks(ls: Seq<(Seq<char>, int)>, gap: int)
    ensures
        lines_before(paragraph_groups(ls, gap), paragraph_groups(ls, gap).len() as int) == ls.len(),
        forall|p: int, j: int| 0 <= p < paragraph_groups(ls, gap).len() && 0 <= j < paragraph_groups(ls, gap)[p].len()
            ==> #[trigger] paragraph_groups(ls, gap)[p][j] == ls[lines_before(paragraph_groups(ls, gap), p) + j].0
                && lines_before(paragraph_groups(ls, gap), p) + j < ls.len()
                && (j > 0 ==> ls[lines_before(paragraph_groups(ls, gap), p) + j].1
                    - ls[lines_before(paragraph_groups(ls, gap), p) + j - 1].1 <= gap),
        forall|p: int| 0 < p < paragraph_groups(ls, gap).len()
            ==> 0 < #[trigger] lines_before(paragraph_groups(ls, gap), p) < ls.len()
                && ls[lines_before(paragraph_groups(ls, gap), p)].1 - ls[lines_before(paragraph_groups(ls, gap), p) - 1].1 > gap,
{
    lemma_paragraph_line_count(ls, gap);
    assert forall|p: int, j: int| 0 <= p < paragraph_groups(ls, gap).len() && 0 <= j < paragraph_groups(ls, gap)[p].len()
        implies #[trigger] paragraph_groups(ls, gap)[p][j] == ls[lines_before(paragraph_groups(ls, gap), p) + j].0
            && lines_before(paragraph_groups(ls, gap), p) + j < ls.len()
            && (j > 0 ==> ls[lines_before(paragraph_groups(ls, gap), p) + j].1
                - ls[lines_before(paragraph_groups(ls, gap), p) + j - 1].1 <= gap) by {
        lemma_paragraph_line(ls, gap, p, j);
    }
    assert forall|p: int| 0 < p < paragraph_groups(ls, gap).len()
        implies 0 < #[trigger] lines_before(paragraph_groups(ls, gap), p) < ls.len()
            && ls[lines_before(paragraph_groups(ls, gap), p)].1 - ls[lines_before(paragraph_groups(ls, gap), p) - 1].1 > gap by {
        lemma_paragraph_start(ls, gap, p);
    }
}

proof fn lemma_paragraph_line_count(ls: Seq<(Seq<char>, int)>, gap: int)
    ensures
        lines_before(paragraph_groups(ls, gap), paragraph_groups(ls, gap).len() as int) == ls.len(),
    decreases ls.len(),
{
    let g = paragraph_groups(ls, gap);
    let n = ls.len() as int;
    if n == 1 {
        assert(lines_before(g, 0) == 0);
    } else if n > 1 {
        let prev = ls.drop_last();
        lemma_paragraph_line_count(prev, gap);
        lemma_paragraph_groups_nonempty(prev, gap);
        let gp = paragraph_groups(prev, gap);
        let l = gp.len() as int;
        if ls.last().1 - ls[n - 2].1 > gap {
            lemma_lines_before_prefix(g, gp, l);
        } else {
            lemma_lines_before_prefix(g, gp, l - 1);
        }
    }
}

proof fn lemma_paragraph_line(ls: Seq<(Seq<char>, int)>, gap: int, p: int, j: int)
    requires
        0 <= p < paragraph_groups(ls, gap).len(),
        0 <= j < paragraph_groups(ls, gap)[p].len(),
    ensures
        0 <= lines_before(paragraph_groups(ls, gap), p) + j < ls.len(),
        paragraph_groups(ls, gap)[p][j] == ls[lines_before(paragraph_groups(ls, gap), p) + j].0,
        j > 0 ==> ls[lines_before(paragraph_groups(ls, gap), p) + j].1 - ls[lines_before(paragraph_groups(ls, gap), p) + j - 1].1 <= gap,
    decreases ls.len(),
{
    let g = paragraph_groups(ls, gap);
    let n = ls.len() as int;
    if n == 1 {
        assert(lines_before(g, 0) == 0);
    } else {
        let prev = ls.drop_last();
        lemma_paragraph_line_count(prev, gap);
        lemma_paragraph_groups_nonempty(prev, gap);
        let gp = paragraph_groups(prev, gap);
        let l = gp.len() as int;
        let x = ls.last().0;
        if ls.last().1 - ls[n - 2].1 > gap {
            assert(g == gp.push(seq![x]));
            lemma_lines_before_prefix(g, gp, p);
            if p < l {
                lemma_paragraph_line(prev, gap, p, j);
                if j > 0 {
                    lemma_paragraph_line(prev, gap, p, j - 1);
                }
            } else {
                lemma_lines_before_prefix(g, gp, l);
            }
        } else {
            assert(g == gp.update(l - 1, gp[l - 1].push(x)));
            lemma_lines_before_prefix(g, gp, p);
            if j < gp[p].len() {
                lemma_paragraph_line(prev, gap, p, j);
            } else {
                assert(p == l - 1);
                assert(lines_before(gp, l) == lines_before(gp, l - 1) + gp[l - 1].len());
            }
            if j > 0 {
                lemma_paragraph_line(prev, gap, p, j - 1);
            }
        }
    }
}

proof fn lemma_paragraph_start(ls: Seq<(Seq<char>, int)>, gap: int, p: int)
    requires
        0 < p < paragraph_groups(ls, gap).len(),
    ensures
        0 < lines_before(paragraph_groups(ls, gap), p) < ls.len(),
        ls[lines_before(paragraph_groups(ls, gap), p)].1 - ls[lines_before(paragraph_groups(ls, gap), p) - 1].1 > gap,
    decreases ls.len(),
{
    let g = paragraph_groups(ls, gap);
    let n = ls.len() as int;
    let prev = ls.drop_last();
    lemma_paragraph_line_count(prev, gap);
    lemma_paragraph_groups_nonempty(prev, gap);
    let gp = paragraph_groups(prev, gap);
    let l = gp.len() as int;
    let x = ls.last().0;
    if ls.last().1 - ls[n - 2].1 > gap {
        assert(g == gp.push(seq![x]));
        lemma_lines_before_prefix(g, gp, p);
        if p < l {
            lemma_paragraph_start(prev, gap, p);
        }
    } else {
        assert(g == gp.update(l - 1, gp[l - 1].push(x)));
        lemma_lines_before_prefix(g, gp, p);
        lemma_paragraph_start(prev, gap, p);
    }
}

/// The texts of the lines, joined by newlines: one text for all lines, or
/// (in paragraph mode) one per paragraph, a paragraph ending where the next
/// line's mean centre is more than `gap_threshold` below the previous one.
#[verifier::rlimit(40)]
pub fn cluster_into_paragraphs(lines: Vec<TextLine>, paragraph_mode: bool, gap_threshold: i32) -> (r: Vec<String>)
    ensures
        r@.map_values(|s: String| s@) == clustered(lines@, paragraph_mode, gap_threshold as int),
{
    let ghost es = line_entries(lines@);
    let ghost gap = gap_threshold as int;
    let nl = vec!['\n'];
    assert(nl@ =~= seq!['\n']);
    if lines.len() == 0 {
        let r: Vec<String> = Vec::new();
        assert(r@.map_values(|s: String| s@) =~= Seq::<Seq<char>>::empty());
        return r;
    }
    if !paragraph_mode {
        let mut texts: Vec<Vec<char>> = Vec::new();
        let mut i: usize = 0;
        while i < lines.len()
            invariant
                i <= lines@.len(),
                es == line_entries(lines@),
                texts@.len() == i,
                forall|k: int| 0 <= k < i ==> #[trigger] texts@[k]@ == es[k].0,
            decreases lines@.len() - i,
        {
            let t = lines[i].text();
            texts.push(chars_of(t.as_str()));
            i += 1;
        }
        let all = join_chars(&texts, 0, nl.as_slice());
        assert(texts@.skip(0).map_values(|v: Vec<char>| v@) =~= es.map_values(|e: (Seq<char>, int)| e.0));
        let mut r: Vec<String> = Vec::new();
        r.push(string_of(all.as_slice()));
        assert(r@.map_values(|s: String| s@) =~= seq![join(es.map_values(|e: (Seq<char>, int)| e.0), seq!['\n'])]);
        return r;
    }
    let mut groups: Vec<Vec<Vec<char>>> = Vec::new();
    let mut prev_y: i32 = 0;
    let mut i: usize = 0;
    while i < lines.len()
        invariant
            i <= lines@.len(),
            es == line_entries(lines@),
            gap == gap_threshold as int,
            group_views(groups@) == paragraph_groups(es.take(i as int), gap),
            i > 0 ==> prev_y == lines@[i - 1].y_mean,
        decreases lines@.len() - i,
    {
        let t = chars_of(lines[i].text().as_str());
        let y = lines[i].y_mean;
        let ghost before = groups@;
        proof {
            assert(es[i as int].0 == t@);
            assert(es.take(i + 1).drop_last() =~= es.take(i as int));
            assert(es.take(i + 1).last() == es[i as int]);
            lemma_paragraph_groups_nonempty(es.take(i as int), gap);
        }
        if i == 0 {
            assert(group_views(before).len() == 0);
            let mut g: Vec<Vec<char>> = Vec::new();
            g.push(t);
            groups.push(g);
            proof {
                assert(groups@[0]@.map_values(|v: Vec<char>| v@) =~= seq![es[0].0]);
                assert(group_views(groups@) =~= seq![seq![es[0].0]]);
            }
        } else {
            proof {
                assert(es.take(i + 1)[i - 1] == es[i - 1]);
            }
            let d: i64 = y as i64 - prev_y as i64;
            if d > gap_threshold as i64 {
                let mut g: Vec<Vec<char>> = Vec::new();
                g.push(t);
                groups.push(g);
                proof {
                    assert(groups@.last()@.map_values(|v: Vec<char>| v@) =~= seq![es[i as int].0]);
                    assert(group_views(groups@) =~= group_views(before).push(seq![es[i as int].0]));
                }
            } else {
                let mut last = groups.pop().unwrap();
                let ghost last_before = last@;
                last.push(t);
                groups.push(last);
                proof {
                    let gv = group_views(before);
                    assert(last@.map_values(|v: Vec<char>| v@) =~= last_before.map_values(|v: Vec<char>| v@).push(es[i as int].0));
                    assert(group_views(groups@) =~= gv.update(gv.len() - 1, gv.last().push(es[i as int].0)));
                }
            }
        }
        prev_y = y;
        i += 1;
    }
    proof {
        assert(es.take(lines@.len() as int) =~= es);
    }
    let mut r: Vec<String> = Vec::new();
    let mut k: usize = 0;
    while k < groups.len()
        invariant
            k <= groups@.len(),
            r@.len() == k,
            forall|j: int| 0 <= j < k ==> #[trigger] r@[j]@ == join(group_views(groups@)[j], seq!['\n']),
            nl@ == seq!['\n'],
        decreases groups@.len() - k,
    {
        let joined = join_chars(&groups[k], 0, nl.as_slice());
        proof {
            assert(groups@[k as int]@.skip(0).map_values(|v: Vec<char>| v@) =~= group_views(groups@)[k as int]);
        }
        r.push(string_of(joined.as_slice()));
        k += 1;
    }
    assert(r@.map_values(|s: String| s@) =~= paragraph_groups(es, gap).map_values(|p: Seq<Seq<char>>| join(p, seq!['\n'])));
    r
}

/// Whether a read is clustered into paragraphs: when paragraph mode is on,
/// and always when the second region is enabled, since its frame holds both
/// regions stacked and each must read as a dialogue of its own.
pub fn reads_paragraphs(enable_paragraph_ocr: bool, monitor2_enabled: bool) -> (r: bool)
    ensures
        r == (enable_paragraph_ocr || monitor2_enabled),
{
    enable_paragraph_ocr || monitor2_enabled
}

} // verus!
