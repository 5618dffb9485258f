//! Where the grid puts each shown sound: sounds of a category fill rows of
//! a fixed width under the category's header, and each category starts a
//! new row. Positions here are positions in the list of shown sounds.

use vstd::prelude::*;

verus! {

/// Width of a card with its margin, in cells.
pub const CARD_SPAN: u16 = 24;

/// Height of a card row with the blank line under it.
pub const ROW_SPAN: u16 = 6;

/// Height of a category header with the blank line under it.
pub const HEADER_SPAN: u16 = 2;

/// Height of a card.
pub const CARD_HEIGHT: u16 = 5;

/// Rows of the screen taken by the header and the footer.
pub const CHROME_HEIGHT: u16 = 6;

/// How many cards fit side by side in a terminal `width` cells wide: at least one.
pub open spec fn cols_for(width: u16) -> u16 {
    let c = (if width >= 4 { width - 4 } else { 0 }) / CARD_SPAN as int;
    if c < 1 {
        1
    } else {
        c as u16
    }
}

/// How many cards fit side by side.
pub fn grid_cols(width: u16) -> (r: u16)
    ensures
        r == cols_for(width),
        r >= 1,
{
    let c = width.saturating_sub(4) / CARD_SPAN;
    if c < 1 {
        1
    } else {
        c
    }
}

/// Column and row of the shown sound at position `k`, given the categories
/// of the shown sounds in order.
pub open spec fn place(cats: Seq<Seq<char>>, cols: int, k: int) -> (int, int)
    decreases k,
{
    if k <= 0 {
        (0, 0)
    } else {
        let (c, r) = place(cats, cols, k - 1);
        if cats[k] != cats[k - 1] {
            (0, r + 1)
        } else if c + 1 >= cols {
            (0, r + 1)
        } else {
            (c + 1, r)
        }
    }
}

/// The top line, in grid coordinates, of the row of the shown sound at `k`.
pub open spec fn top(cats: Seq<Seq<char>>, cols: int, k: int) -> int
    decreases k,
{
    if k <= 0 {
        HEADER_SPAN as int
    } else if cats[k] != cats[k - 1] {
        top(cats, cols, k - 1) + ROW_SPAN + HEADER_SPAN
    } else if place(cats, cols, k - 1).0 + 1 >= cols {
        top(cats, cols, k - 1) + ROW_SPAN
    } else {
        top(cats, cols, k - 1)
    }
}

pub open spec fn views(v: Seq<String>) -> Seq<Seq<char>> {
    v.map_values(|s: String| s@)
}

proof fn lemma_place_bounds(cats: Seq<Seq<char>>, cols: int, k: int)
    requires
        cols >= 1,
        k >= 0,
    ensures
        0 <= place(cats, cols, k).0 < cols,
        0 <= place(cats, cols, k).1 <= k,
        top(cats, cols, k) >= HEADER_SPAN,
        top(cats, cols, k) <= HEADER_SPAN + k * (ROW_SPAN + HEADER_SPAN),
    decreases k,
{
    if k > 0 {
        lemma_place_bounds(cats, cols, k - 1);
    }
}

/// The column and row of every shown sound, given their categories in order.
pub fn grid_layout(cats: &Vec<String>, cols: u16) -> (r: Vec<(u16, u16)>)
    requires
        cols >= 1,
    ensures
        r.len() == cats.len(),
        forall|k: int|
            0 <= k < r.len() ==> (#[trigger] r@[k]).0 as int == place(views(cats@), cols as int, k).0
                && r@[k].1 as int == place(views(cats@), cols as int, k).1 % 0x1_0000,
{
    let mut r: Vec<(u16, u16)> = Vec::new();
    let mut c: u16 = 0;
    let mut row: usize = 0;
    let mut k: usize = 0;
    let ghost cs = views(cats@);
    while k < cats.len()
        invariant
            cols >= 1,
            cs == views(cats@),
            k <= cats.len(),
            r.len() == k,
            k == 0 ==> c == 0 && row == 0,
            k > 0 ==> c as int == place(cs, cols as int, k - 1).0 && row as int == place(cs, cols as int, k - 1).1,
            forall|j: int|
                0 <= j < k ==> (#[trigger] r@[j]).0 as int == place(cs, cols as int, j).0
                    && r@[j].1 as int == place(cs, cols as int, j).1 % 0x1_0000,
        decreases cats.len() - k,
    {
        proof {
            lemma_place_bounds(cs, cols as int, k as int);
            if k > 0 {
                lemma_place_bounds(cs, cols as int, k - 1);
            }
        }
        if k > 0 {
            assert(cs[k as int] == cats@[k as int]@ && cs[k - 1] == cats@[k - 1]@);
            if !(cats[k] == cats[k - 1]) || c + 1 >= cols {
                c = 0;
                row = row + 1;
            } else {
                c = c + 1;
            }
        }
        assert(place(cs, cols as int, k as int) == (c as int, row as int));
        let row16: u16 = (row % 0x1_0000) as u16;
        r.push((c, row16));
        k = k + 1;
    }
    r
}

/// The top line of the row of the shown sound at `pos`, at most the
/// largest `u16`.
pub fn row_top(cats: &Vec<String>, cols: u16, pos: usize) -> (r: u16)
    requires
        cols >= 1,
        pos < cats.len(),
    ensures
        r as int == (if top(views(cats@), cols as int, pos as int) > 0xffff {
            0xffff
        } else {
            top(views(cats@), cols as int, pos as int)
        }),
{
    let ghost cs = views(cats@);
    let mut c: u16 = 0;
    let mut y: u64 = HEADER_SPAN as u64;
    let mut k: usize = 0;
    proof {
        lemma_place_bounds(cs, cols as int, 0);
    }
    while k < pos
        invariant
            cols >= 1,
            cs == views(cats@),
            pos < cats.len(),
            k <= pos,
            c as int == place(cs, cols as int, k as int).0,
            y as int == top(cs, cols as int, k as int),
            y <= 0xffff,
        decreases pos - k,
    {
        proof {
            lemma_place_bounds(cs, cols as int, k + 1);
        }
        assert(cs[k + 1] == cats@[k + 1]@ && cs[k as int] == cats@[k as int]@);
        if !(cats[k + 1] == cats[k]) {
            c = 0;
            y = y + (ROW_SPAN + HEADER_SPAN) as u64;
        } else if c + 1 >= cols {
            c = 0;
            y = y + ROW_SPAN as u64;
        } else {
            c = c + 1;
        }
        k = k + 1;
        if y > 0xffff {
            proof {
                lemma_top_grows(cs, cols as int, k as int, pos as int);
            }
            return 0xffff;
        }
    }
    if y > 0xffff {
        0xffff
    } else {
        y as u16
    }
}

/// The grid's new scroll offset so that the row starting at `row_top`, with
/// the header above it, is in view on a screen `height` lines high.
pub open spec fn scrolled_into_view(row_top: u16, height: u16, scroll: u16) -> int {
    let viewport = if height >= CHROME_HEIGHT { height - CHROME_HEIGHT } else { 0 };
    let bottom = row_top + CARD_HEIGHT;
    let effective_top = if row_top >= HEADER_SPAN { row_top - HEADER_SPAN } else { 0 };
    if effective_top < scroll {
        effective_top
    } else if bottom > scroll + viewport {
        if bottom >= viewport { bottom - viewport } else { 0 }
    } else {
        scroll as int
    }
}

/// The scroll offset that brings a row into view.
pub fn scroll_into_view(row_top: u16, height: u16, scroll: u16) -> (r: u16)
    requires
        row_top as int + CARD_HEIGHT <= 0xffff,
    ensures
        r as int == scrolled_into_view(row_top, height, scroll),
{
    let viewport = height.saturating_sub(CHROME_HEIGHT);
    let bottom = row_top + CARD_HEIGHT;
    let effective_top = row_top.saturating_sub(HEADER_SPAN);
    if effective_top < scroll {
        effective_top
    } else if bottom as u32 > scroll as u32 + viewport as u32 {
        bottom.saturating_sub(viewport)
    } else {
        scroll
    }
}

/// The grid's scroll offset moved by `delta`, kept between zero and the
/// offset that shows the end of content `content_height` lines high.
pub open spec fn scroll_moved(scroll: u16, delta: i32, content_height: int, height: u16) -> int {
    let wanted = scroll + delta;
    let viewport = if height >= CHROME_HEIGHT { height - CHROME_HEIGHT } else { 0 };
    let max_scroll = if content_height > viewport { (content_height - viewport) % 0x1_0000 } else { 0 };
    if wanted < 0 {
        0
    } else if wanted % 0x1_0000 > max_scroll {
        max_scroll
    } else {
        wanted % 0x1_0000
    }
}

/// Moves the scroll offset; `last_top` is the top of the last shown row.
pub fn scroll_by(scroll: u16, delta: i32, last_top: u16, height: u16) -> (r: u16)
    requires
        -0x1000_0000 <= delta <= 0x1000_0000,
    ensures
        r as int == scroll_moved(scroll, delta, last_top + ROW_SPAN, height),
{
    let wanted: i32 = scroll as i32 + delta;
    if wanted < 0 {
        return 0;
    }
    let content: i32 = last_top as i32 + ROW_SPAN as i32;
    let viewport: i32 = height.saturating_sub(CHROME_HEIGHT) as i32;
    let max_scroll: u16 = if content > viewport {
        let d: i32 = content - viewport;
        (d % 0x1_0000) as u16
    } else {
        0
    };
    let w: u16 = (wanted % 0x1_0000) as u16;
    if w > max_scroll {
        max_scroll
    } else {
        w
    }
}

proof fn lemma_top_grows(cats: Seq<Seq<char>>, cols: int, a: int, b: int)
    requires
        0 <= a <= b,
    ensures
        top(cats, cols, a) <= top(cats, cols, b),
    decreases b - a,
{
    if a < b {
        lemma_top_grows(cats, cols, a, b - 1);
    }
}

/// The position of the shown sound in the row above (`down` false) or below,
/// whose column is nearest; the leftmost of two as near.
pub open spec fn is_vertical_step(layout: Seq<(u16, u16)>, pos: int, down: bool, t: int) -> bool {
    let (col, row) = layout[pos];
    let target = if down { row + 1 } else { row - 1 };
    let dist = |c: u16| if c >= col { c - col } else { col - c };
    &&& 0 <= t < layout.len()
    &&& layout[t].1 == target
    &&& forall|j: int| 0 <= j < layout.len() && layout[j].1 == target ==> dist(layout[t].0) <= dist(#[trigger] layout[j].0)
    &&& forall|j: int| 0 <= j < t && layout[j].1 == target ==> dist(layout[t].0) < dist(#[trigger] layout[j].0)
}

/// The position a step up or down moves the cursor to, if any.
pub fn vertical_step(layout: &Vec<(u16, u16)>, pos: usize, down: bool) -> (r: Option<usize>)
    requires
        pos < layout.len(),
    ensures
        match r {
            Some(t) => is_vertical_step(layout@, pos as int, down, t as int),
            None => (!down && layout@[pos as int].1 == 0) || forall|j: int| 0 <= j < layout.len() ==> layout@[j].1 != (if down { layout@[pos as int].1 + 1 } else { layout@[pos as int].1 - 1 }),
        },
{
    let (col, row) = layout[pos];
    if !down && row == 0 {
        return None;
    }
    if down && row == u16::MAX {
        return None;
    }
    let target: u16 = if down { row + 1 } else { row - 1 };
    let mut best: Option<usize> = None;
    let mut best_dist: u16 = 0;
    let mut j: usize = 0;
    while j < layout.len()
        invariant
            pos < layout.len(),
            (col, row) == layout@[pos as int],
            target as int == (if down { row + 1 } else { row - 1 }),
            j <= layout.len(),
            match best {
                Some(t) => t < j && layout@[t as int].1 == target
                    && best_dist as int == (if layout@[t as int].0 >= col { layout@[t as int].0 - col } else { col - layout@[t as int].0 })
                    && (forall|i: int| 0 <= i < j && layout@[i].1 == target ==> best_dist <= (if #[trigger] layout@[i].0 >= col { layout@[i].0 - col } else { col - layout@[i].0 }))
                    && (forall|i: int| 0 <= i < t && layout@[i].1 == target ==> best_dist < (if #[trigger] layout@[i].0 >= col { layout@[i].0 - col } else { col - layout@[i].0 })),
                None => forall|i: int| 0 <= i < j ==> layout@[i].1 != target,
            },
        decreases layout.len() - j,
    {
        let (c, r) = layout[j];
        if r == target {
            let d = if c >= col { c - col } else { col - c };
            match best {
                None => {
                    best = Some(j);
                    best_dist = d;
                },
                Some(_) => {
                    if d < best_dist {
                        best = Some(j);
                        best_dist = d;
                    }
                },
            }
        }
        j = j + 1;
    }
    if down && row == u16::MAX {
        return None;
    }
    best
}

/// The first position of `cursor` among the shown sounds.
pub open spec fn position_in(shown: Seq<usize>, cursor: usize) -> Option<int>
    decreases shown.len(),
{
    if shown.len() == 0 {
        None
    } else {
        match position_in(shown.drop_last(), cursor) {
            Some(i) => Some(i),
            None => if shown.last() == cursor {
                Some(shown.len() - 1)
            } else {
                None
            },
        }
    }
}

proof fn lemma_position_in(shown: Seq<usize>, cursor: usize)
    ensures
        match position_in(shown, cursor) {
            Some(i) => 0 <= i < shown.len() && shown[i] == cursor && forall|j: int|
                0 <= j < i ==> shown[j] != cursor,
            None => forall|j: int| 0 <= j < shown.len() ==> shown[j] != cursor,
        },
    decreases shown.len(),
{
    if shown.len() > 0 {
        lemma_position_in(shown.drop_last(), cursor);
        assert forall|j: int| 0 <= j < shown.len() - 1 implies shown.drop_last()[j] == shown[j] by {}
    }
}

/// The first position of `cursor` among the shown sounds.
pub fn find_position(shown: &Vec<usize>, cursor: usize) -> (r: Option<usize>)
    ensures
        match r {
            Some(i) => position_in(shown@, cursor) == Some(i as int),
            None => position_in(shown@, cursor) is None,
        },
{
    proof {
        lemma_position_in(shown@, cursor);
    }
    let mut i: usize = 0;
    while i < shown.len()
        invariant
            i <= shown.len(),
            forall|j: int| 0 <= j < i ==> shown@[j] != cursor,
            match position_in(shown@, cursor) {
                Some(f) => 0 <= f < shown@.len() && shown@[f] == cursor && forall|j: int|
                    0 <= j < f ==> shown@[j] != cursor,
                None => forall|j: int| 0 <= j < shown@.len() ==> shown@[j] != cursor,
            },
        decreases shown.len() - i,
    {
        if shown[i] == cursor {
            return Some(i);
        }
        i = i + 1;
    }
    None
}

/// The cursor after a step left (or right) through the shown sounds, if it
/// moves: to the neighbour in the list, or to the first shown sound when the
/// cursor is on none.
pub open spec fn stepped(shown: Seq<usize>, cursor: usize, right: bool) -> Option<usize> {
    match position_in(shown, cursor) {
        Some(p) => if right {
            if p + 1 < shown.len() {
                Some(shown[p + 1])
            } else {
                None
            }
        } else if p > 0 {
            Some(shown[p - 1])
        } else {
            None
        },
        None => if shown.len() > 0 {
            Some(shown[0])
        } else {
            None
        },
    }
}

/// The cursor after a step left or right, if it moves.
pub fn horizontal_step(shown: &Vec<usize>, cursor: usize, right: bool) -> (r: Option<usize>)
    ensures
        r == stepped(shown@, cursor, right),
{
    proof {
        lemma_position_in(shown@, cursor);
    }
    match find_position(shown, cursor) {
        Some(p) => {
            if right {
                if p < shown.len() - 1 {
                    Some(shown[p + 1])
                } else {
                    None
                }
            } else if p > 0 {
                Some(shown[p - 1])
            } else {
                None
            }
        },
        None => {
            if shown.len() > 0 {
                Some(shown[0])
            } else {
                None
            }
        },
    }
}

/// Where the cursor goes when the sound under it is not shown: to the first
/// shown sound. None when it stays.
pub fn revalidated_cursor(shown: &Vec<usize>, cursor: usize) -> (r: Option<usize>)
    ensures
        r == (if shown.len() > 0 && position_in(shown@, cursor) is None {
            Some(shown@[0])
        } else {
            None::<usize>
        }),
{
    if shown.len() == 0 {
        return None;
    }
    match find_position(shown, cursor) {
        Some(_) => None,
        None => Some(shown[0]),
    }
}

/// Horizontal distance between the left edges of two neighbouring cards.
pub const CARD_PITCH: u16 = 26;

/// Cells of a card's slider row that set its volume, from the slider's start.
pub const SLIDER_REACH: u16 = 18;

/// Whether the screen cell (`x`, `y`) lies on the card of the shown sound at
/// `k`, with the grid scrolled by `scroll` and `width` columns on screen.
pub open spec fn hits(cats: Seq<Seq<char>>, cols: int, scroll: int, width: int, x: int, y: int, k: int) -> bool {
    let t = 3 - scroll + top(cats, cols, k);
    let cx = 2 + place(cats, cols, k).0 * CARD_PITCH;
    &&& t <= y < t + CARD_HEIGHT
    &&& cx + CARD_SPAN <= width
    &&& cx <= x < cx + CARD_SPAN
}

/// On a card's slider row, the offset of `x` from the slider's start, if it
/// is within the slider's reach.
pub open spec fn slider_offset(cats: Seq<Seq<char>>, cols: int, scroll: int, x: int, y: int, k: int) -> Option<int> {
    let t = 3 - scroll + top(cats, cols, k);
    let start = 2 + place(cats, cols, k).0 * CARD_PITCH + 2;
    if y - t == 3 && start <= x < start + SLIDER_REACH {
        Some(x - start)
    } else {
        None
    }
}

/// The shown sound whose card holds the screen cell (`x`, `y`), and where on
/// its slider the cell is, if it is on the slider.
pub fn card_at(cats: &Vec<String>, cols: u16, scroll: u16, width: u16, x: u16, y: u16) -> (r: Option<(usize, Option<u16>)>)
    requires
        cols >= 1,
    ensures
        match r {
            Some((k, s)) => k < cats.len()
                && hits(views(cats@), cols as int, scroll as int, width as int, x as int, y as int, k as int)
                && (forall|j: int| 0 <= j < k ==> !hits(views(cats@), cols as int, scroll as int, width as int, x as int, y as int, j))
                && match s {
                    Some(o) => slider_offset(views(cats@), cols as int, scroll as int, x as int, y as int, k as int) == Some(o as int),
                    None => slider_offset(views(cats@), cols as int, scroll as int, x as int, y as int, k as int) is None,
                },
            None => forall|j: int| 0 <= j < cats.len() ==> !hits(views(cats@), cols as int, scroll as int, width as int, x as int, y as int, j),
        },
{
    let ghost cs = views(cats@);
    let mut c: u16 = 0;
    let mut t: u64 = HEADER_SPAN as u64;
    let mut k: usize = 0;
    while k < cats.len()
        invariant
            cols >= 1,
            cs == views(cats@),
            k <= cats.len(),
            k < cats.len() ==> c as int == place(cs, cols as int, k as int).0,
            k < cats.len() ==> t as int == top(cs, cols as int, k as int),
            t <= 0x3_0000,
            forall|j: int| 0 <= j < k ==> !hits(cs, cols as int, scroll as int, width as int, x as int, y as int, j),
        decreases cats.len() - k,
    {
        proof {
            lemma_place_bounds(cs, cols as int, k as int);
        }
        if t + 3 > y as u64 + scroll as u64 {
            proof {
                assert forall|j: int| k <= j < cats.len() implies !hits(cs, cols as int, scroll as int, width as int, x as int, y as int, j) by {
                    lemma_top_grows(cs, cols as int, k as int, j);
                }
            }
            return None;
        }
        let screen_top: i64 = t as i64 + 3 - scroll as i64;
        proof {
            let ci = c as int;
            assert(ci * 26 <= 0xffff * 26) by (nonlinear_arith)
                requires
                    0 <= ci <= 0xffff,
            ;
        }
        let cx: u64 = 2 + c as u64 * CARD_PITCH as u64;
        if (y as i64) < screen_top + CARD_HEIGHT as i64 && cx + CARD_SPAN as u64 <= width as u64
            && cx <= x as u64 && (x as u64) < cx + CARD_SPAN as u64 {
            let start: u64 = cx + 2;
            let on_slider = y as i64 - screen_top == 3 && start <= x as u64 && (x as u64) < start + SLIDER_REACH as u64;
            if on_slider {
                return Some((k, Some((x as u64 - start) as u16)));
            } else {
                return Some((k, None));
            }
        }
        if k + 1 < cats.len() {
            proof {
                lemma_place_bounds(cs, cols as int, k + 1);
            }
            assert(cs[k + 1] == cats@[k + 1]@ && cs[k as int] == cats@[k as int]@);
            if !(cats[k + 1] == cats[k]) {
                c = 0;
                t = t + (ROW_SPAN + HEADER_SPAN) as u64;
            } else if c + 1 >= cols {
                c = 0;
                t = t + ROW_SPAN as u64;
            } else {
                c = c + 1;
            }
        }
        k = k + 1;
    }
    None
}

} // verus!
