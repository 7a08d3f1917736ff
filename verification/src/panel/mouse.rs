//! What the mouse does.

use vstd::prelude::*;

use super::{effect_ok, select_id, App, Effect, State};
use crate::arith::{divide, lemma_ratio_keeps_order, ratio};
use crate::ccmap::CONTROLS;
use crate::controls::BITS;
use crate::geometry::Rect;
use crate::single::ONE;

verus! {

/// What the mouse did.
#[derive(Clone, Copy, Debug, PartialEq, Eq, Structural)]
pub enum Mouse {
    ScrollUp,
    ScrollDown,
    /// The left button went down.
    LeftDown,
    /// The mouse moved with the left button down.
    LeftDrag,
    Other,
}

/// The first of the given bars that covers a cell of the screen.
pub open spec fn first_hit(hits: Seq<(usize, Rect)>, col: int, row: int) -> Option<(usize, Rect)>
    decreases hits.len(),
{
    if hits.len() == 0 {
        None
    } else if hits[0].1.covers(col, row) {
        Some(hits[0])
    } else {
        first_hit(hits.drop_first(), col, row)
    }
}

impl State {
    /// With the control selected whose bar is at the given cell, if any.
    pub open spec fn with_pointed(self, col: int, row: int) -> State {
        match first_hit(self.hits, col, row) {
            Some((id, _)) => self.with_selected(id as int),
            None => self,
        }
    }

    /// After the selected control was moved by `d` steps, and that it was.
    pub open spec fn after_scroll(self, d: int) -> (State, Effect) {
        (self.after_adjust(d), Effect::Moved { id: self.cur_id() as usize })
    }

    /// After an event of the mouse at the given cell. The wheel selects the control under the
    /// mouse, if any, and moves the selected one by a step. The left button selects the control
    /// under it and puts its level to where the mouse is along the bar; the bit crusher is moved by
    /// the wheel only.
    pub open spec fn after_mouse(self, m: Mouse, col: u16, row: u16) -> (State, Effect) {
        match m {
            Mouse::ScrollUp => self.with_pointed(col as int, row as int).after_scroll(1),
            Mouse::ScrollDown => self.with_pointed(col as int, row as int).after_scroll(-1),
            Mouse::LeftDown | Mouse::LeftDrag => match first_hit(
                self.hits,
                col as int,
                row as int,
            ) {
                Some((id, r)) => if id == BITS {
                    (self.with_selected(id as int), Effect::Nothing)
                } else {
                    (
                        self.with_selected(id as int).with_norm(
                            id as int,
                            ratio(col - r.x, r.width as int),
                        ),
                        Effect::Moved { id },
                    )
                },
                None => (self, Effect::Nothing),
            },
            Mouse::Other => (self, Effect::Nothing),
        }
    }
}

/// The first bar found covers the cell and is one of the bars.
pub proof fn lemma_first_hit(hits: Seq<(usize, Rect)>, col: int, row: int)
    ensures
        match first_hit(hits, col, row) {
            Some(h) => h.1.covers(col, row) && hits.contains(h),
            None => forall|i: int|
                0 <= i < hits.len() ==> !(#[trigger] hits[i]).1.covers(col, row),
        },
    decreases hits.len(),
{
    if hits.len() != 0 {
        if hits[0].1.covers(col, row) {
            assert(hits.contains(hits[0]));
        } else {
            lemma_first_hit(hits.drop_first(), col, row);
            let rest = hits.drop_first();
            match first_hit(rest, col, row) {
                Some(h) => {
                    let i = choose|i: int| 0 <= i < rest.len() && rest[i] == h;
                    assert(hits[i + 1] == h);
                },
                None => {
                    assert forall|i: int| 0 <= i < hits.len() implies !(
                    #[trigger] hits[i]).1.covers(col, row) by {
                        if i > 0 {
                            assert(rest[i - 1] == hits[i]);
                        }
                    }
                },
            }
        }
    }
}

/// A bar that covers the cell while no earlier one does is the first one found.
pub proof fn lemma_first_hit_at(hits: Seq<(usize, Rect)>, col: int, row: int, k: int)
    requires
        0 <= k < hits.len(),
        hits[k].1.covers(col, row),
        forall|i: int| 0 <= i < k ==> !(#[trigger] hits[i]).1.covers(col, row),
    ensures
        first_hit(hits, col, row) == Some(hits[k]),
    decreases hits.len(),
{
    if k > 0 {
        let rest = hits.drop_first();
        assert(!hits[0].1.covers(col, row));
        assert forall|i: int| 0 <= i < k - 1 implies !(#[trigger] rest[i]).1.covers(col, row) by {
            assert(rest[i] == hits[i + 1]);
        }
        lemma_first_hit_at(rest, col, row, k - 1);
    }
}

/// The control whose bar is at the given cell of the screen, with its bar.
pub fn cell_at(app: &App, col: u16, row: u16) -> (r: Option<(usize, Rect)>)
    requires
        app@.wf(),
    ensures
        r == first_hit(app@.hits, col as int, row as int),
        r matches Some(h) ==> h.0 < CONTROLS && h.1.covers(col as int, row as int),
{
    let ghost hits = app.hits@;
    proof {
        lemma_first_hit(hits, col as int, row as int);
    }
    let mut i: usize = 0;
    assert(hits.skip(0) =~= hits);
    while i < app.hits.len()
        invariant
            hits == app.hits@,
            hits == app@.hits,
            app@.wf(),
            i <= hits.len(),
            first_hit(hits, col as int, row as int) == first_hit(
                hits.skip(i as int),
                col as int,
                row as int,
            ),
        decreases hits.len() - i,
    {
        let h = app.hits[i];
        assert(hits.skip(i as int)[0] == h);
        assert(hits.skip(i as int).drop_first() =~= hits.skip(i + 1));
        if h.1.contains(col, row) {
            assert(app@.hits[i as int].0 < CONTROLS);
            return Some(h);
        }
        i = i + 1;
    }
    None
}

/// Handles an event of the mouse at the given cell.
pub fn handle_mouse(app: &mut App, m: Mouse, col: u16, row: u16) -> (e: Effect)
    requires
        old(app)@.wf(),
    ensures
        (final(app)@, e) == old(app)@.after_mouse(m, col, row),
        effect_ok(e),
        final(app)@.wf(),
{
    match m {
        Mouse::ScrollUp | Mouse::ScrollDown => {
            let d: i32 = if let Mouse::ScrollUp = m {
                1
            } else {
                -1
            };
            if let Some((id, _)) = cell_at(app, col, row) {
                select_id(app, id);
            }
            let id = app.cur_id();
            app.adjust(d);
            Effect::Moved { id }
        },
        Mouse::LeftDown | Mouse::LeftDrag => {
            if let Some((id, r)) = cell_at(app, col, row) {
                select_id(app, id);
                if id != BITS {
                    let level = divide(col - r.x, r.width);
                    app.set_norm(id, level);
                    return Effect::Moved { id };
                }
            }
            Effect::Nothing
        },
        Mouse::Other => Effect::Nothing,
    }
}

// ---------- laws ----------

/// A click on a bar selects its control and puts its level to where the mouse is along the bar; the
/// bit crusher is left alone. No other control moves.
pub proof fn law_click_sets_level(s: State, m: Mouse, col: u16, row: u16, other: int)
    requires
        s.wf(),
        m == Mouse::LeftDown || m == Mouse::LeftDrag,
        first_hit(s.hits, col as int, row as int) is Some,
        0 <= other < CONTROLS,
    ensures
        ({
            let (id, r) = first_hit(s.hits, col as int, row as int)->0;
            let (after, e) = s.after_mouse(m, col, row);
            let level = ratio(col - r.x, r.width as int);
            &&& after.cur_id() == id
            &&& id != BITS ==> after.norm(id as int) == level && level <= ONE
            &&& id == BITS ==> after.norm(id as int) == s.norm(id as int)
            &&& other != id ==> after.norm(other) == s.norm(other)
            &&& id != BITS ==> e == Effect::Moved { id }
            &&& id == BITS ==> e == Effect::Nothing
        }),
{
    lemma_first_hit(s.hits, col as int, row as int);
    let (id, r) = first_hit(s.hits, col as int, row as int)->0;
    let i = choose|i: int| 0 <= i < s.hits.len() && s.hits[i] == (id, r);
    assert(s.hits[i].0 < CONTROLS);
    super::law_select_then_current(s, id as int);
    let selected = s.with_selected(id as int);
    let level = ratio(col - r.x, r.width as int);
    lemma_ratio_keeps_order((col - r.x) as nat, r.width as nat, r.width as nat);
    super::law_set_then_read(selected, id as int, level);
    if other != id {
        super::law_set_moves_one(selected, id as int, level, other);
    }
}

/// Scrolling up and then down at the same place turns the bit crusher back to where it was.
pub proof fn law_scroll_back(s: State, col: u16, row: u16)
    requires
        s.wf(),
        s.with_pointed(col as int, row as int).cur_id() == BITS,
    ensures
        s.after_mouse(Mouse::ScrollUp, col, row).0.after_mouse(Mouse::ScrollDown, col, row).0
            == s.with_pointed(col as int, row as int),
{
    lemma_first_hit(s.hits, col as int, row as int);
    let pointed = s.with_pointed(col as int, row as int);
    if first_hit(s.hits, col as int, row as int) is Some {
        let hit = first_hit(s.hits, col as int, row as int)->0;
        let i = choose|i: int| 0 <= i < s.hits.len() && s.hits[i] == hit;
        assert(s.hits[i].0 < CONTROLS);
        super::law_select_then_current(s, hit.0 as int);
        let up = pointed.after_adjust(1);
        assert(up.with_selected(hit.0 as int) =~= up);
    }
    super::law_bits_turn_back(pointed, 1);
}

/// Levels that are all numbers stay so after every event of the mouse.
pub proof fn law_mouse_keeps_numbers(s: State, m: Mouse, col: u16, row: u16)
    requires
        s.wf(),
        s.numeric(),
    ensures
        s.after_mouse(m, col, row).0.numeric(),
{
    lemma_first_hit(s.hits, col as int, row as int);
    let pointed = s.with_pointed(col as int, row as int);
    if let Some((id, r)) = first_hit(s.hits, col as int, row as int) {
        let i = choose|i: int| 0 <= i < s.hits.len() && s.hits[i] == (id, r);
        assert(s.hits[i].0 < CONTROLS);
        super::law_select_then_current(s, id as int);
        lemma_ratio_keeps_order((col - r.x) as nat, r.width as nat, r.width as nat);
        super::law_set_keeps_numbers(pointed, id as int, ratio(col - r.x, r.width as int));
    }
    super::law_adjust_keeps_numbers(pointed, 1);
    super::law_adjust_keeps_numbers(pointed, -1);
}

/// The wheel selects the control under the mouse, or keeps to the selected one where there is none,
/// and moves it by a step. The other controls and all the rest stay as they are.
pub proof fn law_wheel_moves_a_step(s: State, m: Mouse, col: u16, row: u16, other: int)
    requires
        s.wf(),
        m == Mouse::ScrollUp || m == Mouse::ScrollDown,
        0 <= other < CONTROLS,
    ensures
        ({
            let hit = first_hit(s.hits, col as int, row as int);
            let id = if hit is Some {
                (hit->0).0 as int
            } else {
                s.cur_id()
            };
            let d: int = if m == Mouse::ScrollUp {
                1
            } else {
                -1
            };
            let (t, e) = s.after_mouse(m, col, row);
            &&& t.cur_id() == id
            &&& id != 28 ==> t.norm(id) == super::nudged(s.norm(id), d)
            &&& id == 28 ==> (t.bits_idx - s.bits_idx - d) % 6 == 0
            &&& other != id ==> t.norm(other) == s.norm(other)
            &&& super::same_but_levels_and_selection(s, t)
            &&& hit is None ==> super::same_but_levels(s, t)
            &&& e == Effect::Moved { id: id as usize }
        }),
{
    let pointed = s.with_pointed(col as int, row as int);
    lemma_first_hit(s.hits, col as int, row as int);
    if let Some((id, r)) = first_hit(s.hits, col as int, row as int) {
        let i = choose|i: int| 0 <= i < s.hits.len() && s.hits[i] == (id, r);
        assert(s.hits[i].0 < CONTROLS);
        super::law_select_then_current(s, id as int);
    }
    let d: int = if m == Mouse::ScrollUp {
        1
    } else {
        -1
    };
    super::law_adjust_moves_the_selected(pointed, d);
    if other != pointed.cur_id() {
        super::law_adjust_moves_one(pointed, d, other);
    }
}

/// A click changes nothing but levels and the selection.
pub proof fn law_click_leaves_the_rest(s: State, m: Mouse, col: u16, row: u16)
    requires
        m == Mouse::LeftDown || m == Mouse::LeftDrag,
    ensures
        super::same_but_levels_and_selection(s, s.after_mouse(m, col, row).0),
{
}

/// A click beside all bars does nothing, and neither does any other button.
pub proof fn law_misses_do_nothing(s: State, m: Mouse, col: u16, row: u16)
    requires
        m == Mouse::Other || ((m == Mouse::LeftDown || m == Mouse::LeftDrag) && forall|i: int|
            0 <= i < s.hits.len() ==> !(#[trigger] s.hits[i]).1.covers(col as int, row as int)),
    ensures
        s.after_mouse(m, col, row) == (s, Effect::Nothing),
{
    lemma_first_hit(s.hits, col as int, row as int);
    if let Some(h) = first_hit(s.hits, col as int, row as int) {
        let i = choose|i: int| 0 <= i < s.hits.len() && s.hits[i] == h;
        assert(s.hits[i].1.covers(col as int, row as int));
    }
}

} // verus!
