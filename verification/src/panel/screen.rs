//! What the panel looks like: the rows of the screen, their text, and where the bars stand.

use ratatui::layout::{Constraint, Direction, Layout};
use ratatui::widgets::{Block, Borders};
use vstd::prelude::*;
use vstd::string::StringExecFns;

use super::{is_time, just_hit, App, State};
use crate::controls::{
    control_name, name_of, BIT_NAMES, DRUMS, FIRST_MASTER, MASTER, NP, PARAMS,
};
use crate::geometry::Rect;
use crate::midi::{has_text, law_text_is_found};
use crate::text::{
    align_left, cell_bar, center, centered, decimal, is_digit, law_bars_line_up,
    law_columns_line_up, law_decimal, left_aligned, lemma_decimal_digits, level_bar, push_decimal,
    push_repeated, repeated,
};

verus! {

broadcast use vstd::std_specs::hash::group_hash_axioms;

/// Width of the column of names.
pub const LABEL_W: u16 = 8;

/// Width of a bar.
pub const BAR_W: u16 = 14;

/// Width of the gap after a bar.
pub const COL_GAP: u16 = 2;

/// The letters of the notes that play the drums.
pub const NOTE_LETTERS: [&'static str; 3] = ["C", "D", "E"];

/// The title of the screen.
pub const TITLE: &'static str = " ◆ zygdrum · FM drums ";

/// The line at the bottom of the screen.
pub const HINT: &'static str = "a/s/d (C/D/E) trigger · ←→ drum · Tab/↑↓ row · -/= or drag/scroll adjust · Enter learn · m MIDI · Esc quit";

// ---------- rows of the screen ----------

/// Number of rows: the headings, the parameters, a line, the master controls, the MIDI line, a
/// line, the hint.
pub const AREAS: usize = 7;

/// Heights of all rows but the last, which takes what is left and has at least one line.
pub const HEIGHTS: [u16; 6] = [1, 9, 1, 3, 1, 1];

/// Lines that all rows take together when the last has one line.
pub const FULL_HEIGHT: u16 = 17;

/// The next position within a range of `size` positions from `pos` on.
pub open spec fn stepped(pos: u16, size: u16) -> u16 {
    if size == 0 || pos == u16::MAX {
        pos
    } else {
        (pos + 1) as u16
    }
}

/// `size` less two, but not below zero.
pub open spec fn narrowed(size: u16) -> u16 {
    if size < 2 {
        0
    } else {
        (size - 2) as u16
    }
}

/// The area inside a border.
pub open spec fn bordered(area: Rect) -> Rect {
    Rect {
        x: stepped(area.x, area.width),
        y: stepped(area.y, area.height),
        width: narrowed(area.width),
        height: narrowed(area.height),
    }
}

/// `Block::inner` of ratatui, for a block with borders on all sides: each side takes one column or
/// row from the area, as far as there are any.
#[verifier::external_body]
fn inside_border(area: Rect) -> (r: Rect)
    ensures
        r == bordered(area),
{
    let outer = ratatui::layout::Rect { x: area.x, y: area.y, width: area.width, height: area.height };
    let r = Block::default().borders(Borders::ALL).inner(outer);
    Rect { x: r.x, y: r.y, width: r.width, height: r.height }
}

/// The sum of the first `n` heights.
pub open spec fn height_sum(heights: Seq<u16>, n: int) -> int
    decreases n,
{
    if n <= 0 {
        0
    } else {
        height_sum(heights, n - 1) + heights[n - 1]
    }
}

/// `rows` are stacked from the top of `area`, all but the last with the given heights; the last
/// takes what is left.
pub open spec fn stacked(area: Rect, heights: Seq<u16>, rows: Seq<Rect>) -> bool {
    &&& forall|i: int| 0 <= i <= heights.len() ==> (#[trigger] rows[i]).y == area.y + height_sum(heights, i)
    &&& forall|i: int| 0 <= i < heights.len() ==> (#[trigger] rows[i]).height == heights[i]
    &&& rows[heights.len() as int].height == area.height - height_sum(heights, heights.len() as int)
}

/// `rows` share `area`: they follow one another from its top to its end, none but the last is taller
/// than the given heights, and the last takes what these leave. Where that is less than `least`, the
/// last row has `least` lines as far as the area has them.
pub open spec fn shared(area: Rect, heights: Seq<u16>, least: u16, rows: Seq<Rect>) -> bool {
    let n = heights.len() as int;
    &&& rows[0].y == area.y
    &&& forall|i: int|
        #![trigger rows[i]]
        0 < i <= n ==> rows[i].y == rows[i - 1].y + rows[i - 1].height
    &&& rows[n].y + rows[n].height == area.y + area.height
    &&& forall|i: int| 0 <= i < n ==> (#[trigger] rows[i]).height <= heights[i]
    &&& rows[n].height == if height_sum(heights, n) + least <= area.height {
        area.height - height_sum(heights, n)
    } else if least <= area.height {
        least as int
    } else {
        area.height as int
    }
}

/// `Layout::split` of ratatui, for rows of which all but the last have a fixed height and the last
/// a least one, which the solver takes as a signed number. There are as many rows as heights, each
/// as wide as the area and within it. In an area that ends within the lines a screen can have, they
/// follow one another from the top to the end, no fixed height is exceeded, and the last row takes
/// what these leave, at least its least height as far as there is room; so where all find room, the
/// fixed heights are kept. Which of the fixed heights give way in an area that is too small is left
/// to the solver.
#[verifier::external_body]
fn split_rows(area: Rect, heights: [u16; 6], least: u16) -> (rows: Vec<Rect>)
    requires
        least <= 0x7FFF,
    ensures
        rows@.len() == 7,
        forall|i: int|
            0 <= i < 7 ==> (#[trigger] rows@[i]).x == area.x && rows@[i].width == area.width,
        forall|i: int|
            0 <= i < 7 ==> area.y <= (#[trigger] rows@[i]).y && rows@[i].y + rows@[i].height
                <= area.y + area.height,
        area.y + area.height <= u16::MAX ==> shared(area, heights@, least, rows@),
{
    let whole = ratatui::layout::Rect { x: area.x, y: area.y, width: area.width, height: area.height };
    let [a, b, c, d, e, f] = heights.map(Constraint::Length);
    let layout = Layout::default().direction(Direction::Vertical);
    let rects = layout.constraints([a, b, c, d, e, f, Constraint::Min(least)]).split(whole);
    rects.iter().map(|r| Rect { x: r.x, y: r.y, width: r.width, height: r.height }).collect()
}

/// The rows of a screen that fills `area`.
pub fn layout(area: Rect) -> (rows: Vec<Rect>)
    ensures
        rows@.len() == AREAS,
        forall|i: int|
            0 <= i < AREAS ==> (#[trigger] rows@[i]).x == bordered(area).x && rows@[i].width
                == bordered(area).width,
        forall|i: int|
            0 <= i < AREAS ==> bordered(area).y <= (#[trigger] rows@[i]).y && rows@[i].y
                + rows@[i].height <= bordered(area).y + bordered(area).height,
        area.y + area.height <= u16::MAX ==> shared(
            bordered(area),
            HEIGHTS@,
            1,
            rows@,
        ),
        area.height >= FULL_HEIGHT + 2 && area.y + area.height <= u16::MAX ==> stacked(
            bordered(area),
            HEIGHTS@,
            rows@,
        ),
{
    proof {
        reveal_with_fuel(height_sum, 7);
        assert(height_sum(HEIGHTS@, 6) == 16);
    }
    let rows = split_rows(inside_border(area), HEIGHTS, 1);
    proof {
        if area.y + area.height <= u16::MAX && area.height >= FULL_HEIGHT + 2 {
            lemma_shared_is_stacked(bordered(area), rows@);
        }
    }
    rows
}

/// Rows that all find room keep their heights.
proof fn lemma_shared_is_stacked(area: Rect, rows: Seq<Rect>)
    requires
        rows.len() == AREAS,
        shared(area, HEIGHTS@, 1, rows),
        area.height >= FULL_HEIGHT,
    ensures
        stacked(area, HEIGHTS@, rows),
{
    reveal_with_fuel(height_sum, 7);
    assert(rows[1].y == rows[0].y + rows[0].height);
    assert(rows[2].y == rows[1].y + rows[1].height);
    assert(rows[3].y == rows[2].y + rows[2].height);
    assert(rows[4].y == rows[3].y + rows[3].height);
    assert(rows[5].y == rows[4].y + rows[4].height);
    assert(rows[6].y == rows[5].y + rows[5].height);
}

// ---------- text ----------

/// How a piece of text stands out.
#[derive(Clone, Copy, Debug, PartialEq, Eq, Structural)]
pub enum Tone {
    Plain,
    Idle,
    Dim,
    Accent,
    AccentBold,
    /// Dark on the accent colour.
    Chosen,
}

/// A piece of text in one tone.
pub struct Span {
    pub text: String,
    pub tone: Tone,
}

/// A piece of text in one tone.
#[verifier::ext_equal]
pub struct SpanView {
    pub text: Seq<char>,
    pub tone: Tone,
}

impl View for Span {
    type V = SpanView;

    open spec fn view(&self) -> SpanView {
        SpanView { text: self.text@, tone: self.tone }
    }
}

/// The pieces of a line.
pub open spec fn line_view(line: Seq<Span>) -> Seq<SpanView> {
    Seq::new(line.len(), |i: int| line[i]@)
}

/// The pieces of several lines.
pub open spec fn lines_view(lines: Seq<Vec<Span>>) -> Seq<Seq<SpanView>> {
    Seq::new(lines.len(), |i: int| line_view(lines[i]@))
}

/// Appends a piece of text to a line.
fn push_span(line: &mut Vec<Span>, text: String, tone: Tone)
    ensures
        line_view(final(line)@) == line_view(old(line)@).push(SpanView { text: text@, tone }),
        final(line)@.len() == old(line)@.len() + 1,
{
    line.push(Span { text, tone });
    assert(line_view(line@) =~= line_view(old(line)@).push(SpanView { text: text@, tone }));
}

/// Appends the gap after a bar.
fn push_gap(line: &mut Vec<Span>)
    ensures
        line_view(final(line)@) == line_view(old(line)@).push(gap()),
        final(line)@.len() == old(line)@.len() + 1,
{
    let mut s = String::new();
    push_repeated(&mut s, ' ', COL_GAP as usize);
    assert(s@ =~= repeated(' ', COL_GAP as int));
    push_span(line, s, Tone::Plain);
}

/// The gap after a bar.
pub open spec fn gap() -> SpanView {
    SpanView { text: repeated(' ', COL_GAP as int), tone: Tone::Plain }
}

/// The levels of the drive and the volume in percent, in words.
pub struct Percents {
    pub drive: String,
    pub volume: String,
}

/// The heading of a drum: its name and the note that plays it.
pub open spec fn heading(drum: int) -> Seq<char> {
    DRUMS[drum]@ + " ("@ + NOTE_LETTERS[drum]@ + ")"@
}

impl State {
    /// The tone of the heading of a drum.
    pub open spec fn heading_tone(self, drum: int, now: u32) -> Tone {
        if drum == self.sel_drum {
            Tone::Chosen
        } else if just_hit(self.flash[drum], now) {
            Tone::AccentBold
        } else {
            Tone::Idle
        }
    }

    /// The headings of the first `n` drums, each with its gap.
    pub open spec fn headings(self, now: u32, n: int) -> Seq<SpanView>
        decreases n,
    {
        if n <= 0 {
            seq![]
        } else {
            self.headings(now, n - 1).push(
                SpanView {
                    text: centered(heading(n - 1), BAR_W as int),
                    tone: self.heading_tone(n - 1, now),
                },
            ).push(gap())
        }
    }

    /// The line of headings.
    pub open spec fn header_line(self, now: u32) -> Seq<SpanView> {
        seq![SpanView { text: repeated(' ', LABEL_W as int), tone: Tone::Plain }] + self.headings(
            now,
            3,
        )
    }

    /// The tone of what belongs to a row of the panel as a whole.
    pub open spec fn row_tone(self, row: int) -> Tone {
        if self.sel_row == row {
            Tone::AccentBold
        } else {
            Tone::Idle
        }
    }

    /// The tone of the bar of a parameter.
    pub open spec fn bar_tone(self, drum: int, param: int) -> Tone {
        if drum != self.sel_drum {
            Tone::Dim
        } else if self.sel_row == param {
            Tone::AccentBold
        } else {
            Tone::Idle
        }
    }

    /// The bars of one parameter for the first `n` drums, each with its gap.
    pub open spec fn bars(self, param: int, n: int) -> Seq<SpanView>
        decreases n,
    {
        if n <= 0 {
            seq![]
        } else {
            self.bars(param, n - 1).push(
                SpanView {
                    text: level_bar(self.drums[n - 1][param], BAR_W as int),
                    tone: self.bar_tone(n - 1, param),
                },
            ).push(gap())
        }
    }

    /// The line of one parameter: its name and its bars.
    pub open spec fn param_line(self, param: int) -> Seq<SpanView> {
        seq![
            SpanView {
                text: left_aligned(PARAMS[param]@, LABEL_W as int),
                tone: self.row_tone(param),
            },
        ] + self.bars(param, 3)
    }

    /// The value of a master control in words.
    pub open spec fn master_value(self, p: Percents, k: int) -> Seq<char> {
        if k == 1 {
            BIT_NAMES[self.bits_idx]@
        } else if k == 0 {
            p.drive@ + "%"@
        } else {
            p.volume@ + "%"@
        }
    }

    /// The line of a master control: its name, its bar and its value.
    pub open spec fn master_line(self, p: Percents, k: int) -> Seq<SpanView> {
        seq![
            SpanView {
                text: left_aligned(MASTER[k]@, LABEL_W as int),
                tone: self.row_tone(NP + k),
            },
            SpanView {
                text: level_bar(self.norm(FIRST_MASTER + k), BAR_W as int),
                tone: if self.sel_row == NP + k {
                    Tone::Accent
                } else {
                    Tone::Dim
                },
            },
            SpanView { text: " "@ + self.master_value(p, k), tone: self.row_tone(NP + k) },
        ]
    }

    /// The channel listened to, in words.
    pub open spec fn channel_text(self) -> Seq<char> {
        if self.midi_channel == 0 {
            "Omni"@
        } else {
            decimal(self.midi_channel as nat)
        }
    }

    /// The end of the MIDI line: that a controller is waited for, else the notice, else the number
    /// of bindings and the last message.
    pub open spec fn midi_news(self) -> Seq<SpanView> {
        if self.learn {
            seq![
                SpanView {
                    text: "· ◉ LEARN "@ + name_of(self.cur_id()) + " (send CC) "@,
                    tone: Tone::AccentBold,
                },
            ]
        } else {
            match self.toast {
                Some(t) => seq![SpanView { text: "· "@ + t + " "@, tone: Tone::Accent }],
                None => {
                    let count = SpanView {
                        text: "· "@ + decimal(self.cc_map.len()) + " CC maps "@,
                        tone: Tone::Dim,
                    };
                    match self.last_midi {
                        Some(m) => seq![count, SpanView { text: "· "@ + m, tone: Tone::Dim }],
                        None => seq![count],
                    }
                },
            }
        }
    }

    /// The MIDI line.
    pub open spec fn midi_line(self) -> Seq<SpanView> {
        seq![
            SpanView { text: " MIDI "@, tone: Tone::Dim },
            SpanView { text: "ch:"@ + self.channel_text() + " "@, tone: Tone::Idle },
            SpanView { text: "· "@ + self.midi_port + " "@, tone: Tone::Dim },
        ] + self.midi_news()
    }
}

/// `a + b + c` as one text.
fn join3(a: &str, b: &str, c: &str) -> (r: String)
    ensures
        r@ == a@ + b@ + c@,
{
    let mut s = a.to_string();
    s.append(b);
    s.append(c);
    s
}

impl App {
    /// Draws the line of headings.
    fn draw_header(&self, now: u32) -> (line: Vec<Span>)
        requires
            self@.wf(),
            is_time(now),
        ensures
            line_view(line@) == self@.header_line(now),
    {
        let mut line: Vec<Span> = Vec::new();
        let ghost empty = line_view(line@);
        let blank = align_left("", LABEL_W as usize);
        proof {
            reveal_strlit("");
            assert(blank@ =~= repeated(' ', LABEL_W as int));
            assert(empty =~= Seq::<SpanView>::empty());
        }
        push_span(&mut line, blank, Tone::Plain);
        let ghost first = SpanView { text: repeated(' ', LABEL_W as int), tone: Tone::Plain };
        assert(line_view(line@) =~= seq![first] + self@.headings(now, 0));
        let mut i: usize = 0;
        while i < 3
            invariant
                i <= 3,
                self@.wf(),
                is_time(now),
                line_view(line@) == seq![first] + self@.headings(now, i as int),
            decreases 3 - i,
        {
            let mut text = DRUMS[i].to_string();
            text.append(" (");
            text.append(NOTE_LETTERS[i]);
            text.append(")");
            let tone = if i == self.sel_drum {
                Tone::Chosen
            } else if self.flashes(i, now) {
                Tone::AccentBold
            } else {
                Tone::Idle
            };
            push_span(&mut line, center(text.as_str(), BAR_W as usize), tone);
            push_gap(&mut line);
            i = i + 1;
            assert(line_view(line@) =~= seq![first] + self@.headings(now, i as int));
        }
        line
    }

    /// Draws the line of one parameter.
    fn draw_param(&self, param: usize) -> (line: Vec<Span>)
        requires
            self@.wf(),
            param < NP,
        ensures
            line_view(line@) == self@.param_line(param as int),
    {
        let mut line: Vec<Span> = Vec::new();
        let row_sel = self.sel_row == param;
        let ghost empty = line_view(line@);
        assert(empty =~= Seq::<SpanView>::empty());
        push_span(
            &mut line,
            align_left(PARAMS[param], LABEL_W as usize),
            if row_sel {
                Tone::AccentBold
            } else {
                Tone::Idle
            },
        );
        let ghost first = SpanView {
            text: left_aligned(PARAMS[param as int]@, LABEL_W as int),
            tone: self@.row_tone(param as int),
        };
        assert(line_view(line@) =~= seq![first] + self@.bars(param as int, 0));
        let mut drum: usize = 0;
        while drum < 3
            invariant
                drum <= 3,
                param < NP,
                self@.wf(),
                row_sel == (self@.sel_row == param),
                line_view(line@) == seq![first] + self@.bars(param as int, drum as int),
            decreases 3 - drum,
        {
            let tone = if drum != self.sel_drum {
                Tone::Dim
            } else if row_sel {
                Tone::AccentBold
            } else {
                Tone::Idle
            };
            push_span(&mut line, cell_bar(self.drums[drum].p[param], BAR_W as usize), tone);
            push_gap(&mut line);
            drum = drum + 1;
            assert(line_view(line@) =~= seq![first] + self@.bars(
                param as int,
                drum as int,
            ));
        }
        line
    }

    /// Draws the line of a master control.
    fn draw_master(&self, p: &Percents, k: usize) -> (line: Vec<Span>)
        requires
            self@.wf(),
            k < 3,
        ensures
            line_view(line@) == self@.master_line(*p, k as int),
    {
        let sel = self.sel_row == NP + k;
        let style = if sel {
            Tone::AccentBold
        } else {
            Tone::Idle
        };
        let mut value = " ".to_string();
        if k == 1 {
            value.append(BIT_NAMES[self.bits_idx]);
        } else if k == 0 {
            value.append(p.drive.as_str());
            value.append("%");
        } else {
            value.append(p.volume.as_str());
            value.append("%");
        }
        assert(value@ =~= " "@ + self@.master_value(*p, k as int));
        let mut line: Vec<Span> = Vec::new();
        push_span(&mut line, align_left(MASTER[k], LABEL_W as usize), style);
        push_span(
            &mut line,
            cell_bar(self.control_norm(FIRST_MASTER + k), BAR_W as usize),
            if sel {
                Tone::Accent
            } else {
                Tone::Dim
            },
        );
        push_span(&mut line, value, style);
        assert(line_view(line@) =~= self@.master_line(*p, k as int));
        line
    }

    /// Draws the MIDI line.
    fn draw_midi(&self) -> (line: Vec<Span>)
        requires
            self@.wf(),
        ensures
            line_view(line@) == self@.midi_line(),
    {
        let mut channel = String::new();
        if self.midi_channel == 0 {
            channel.append("Omni");
        } else {
            push_decimal(&mut channel, self.midi_channel as usize);
        }
        assert(channel@ =~= self@.channel_text());
        let mut line: Vec<Span> = Vec::new();
        push_span(&mut line, " MIDI ".to_string(), Tone::Dim);
        push_span(&mut line, join3("ch:", channel.as_str(), " "), Tone::Idle);
        push_span(&mut line, join3("· ", self.midi_port.as_str(), " "), Tone::Dim);
        if self.learn {
            let name = control_name(self.cur_id());
            push_span(
                &mut line,
                join3("· ◉ LEARN ", name.as_str(), " (send CC) "),
                Tone::AccentBold,
            );
        } else if let Some(t) = &self.toast {
            push_span(&mut line, join3("· ", t.as_str(), " "), Tone::Accent);
        } else {
            let mut count = String::new();
            push_decimal(&mut count, self.cc_map.len());
            assert(count@ =~= decimal(self@.cc_map.len()));
            push_span(&mut line, join3("· ", count.as_str(), " CC maps "), Tone::Dim);
            if let Some(m) = &self.last_midi {
                let mut text = "· ".to_string();
                text.append(m.as_str());
                push_span(&mut line, text, Tone::Dim);
            }
        }
        assert(line_view(line@) =~= self@.midi_line());
        line
    }
}

// ---------- the whole screen ----------

/// The lines of the screen.
pub struct Screen {
    pub header: Vec<Span>,
    pub matrix: Vec<Vec<Span>>,
    pub master: Vec<Vec<Span>>,
    pub midi: Vec<Span>,
}

/// The lines of the screen.
#[verifier::ext_equal]
pub struct ScreenView {
    pub header: Seq<SpanView>,
    pub matrix: Seq<Seq<SpanView>>,
    pub master: Seq<Seq<SpanView>>,
    pub midi: Seq<SpanView>,
}

impl View for Screen {
    type V = ScreenView;

    open spec fn view(&self) -> ScreenView {
        ScreenView {
            header: line_view(self.header@),
            matrix: lines_view(self.matrix@),
            master: lines_view(self.master@),
            midi: line_view(self.midi@),
        }
    }
}

/// Bar `k` of the parameters, row by row: the control it belongs to and where it stands.
pub open spec fn param_hit(area: Rect, k: int) -> (usize, Rect) {
    let (drum, param) = (k % 3, k / 3);
    (
        (drum * 9 + param) as usize,
        Rect::placed(
            (area.x + LABEL_W + drum * (BAR_W + COL_GAP)) as u16,
            (area.y + param) as u16,
            BAR_W,
            1,
        ),
    )
}

/// Bar `k` of the master controls: the control it belongs to and where it stands.
pub open spec fn master_hit(area: Rect, k: int) -> (usize, Rect) {
    (
        (FIRST_MASTER + k) as usize,
        Rect::placed((area.x + LABEL_W) as u16, (area.y + k) as u16, BAR_W, 1),
    )
}

/// All bars, with the parameters in the area `matrix` and the master controls in `master`.
pub open spec fn bars_at(matrix: Rect, master: Rect) -> Seq<(usize, Rect)> {
    Seq::new(27, |k: int| param_hit(matrix, k)) + Seq::new(3, |k: int| master_hit(master, k))
}

/// The bars begin within the columns and rows that a screen can have.
pub open spec fn rows_fit(rows: Seq<Rect>) -> bool {
    &&& rows[1].x + 40 <= u16::MAX
    &&& rows[1].y + 8 <= u16::MAX
    &&& rows[3].x + 8 <= u16::MAX
    &&& rows[3].y + 2 <= u16::MAX
}

impl State {
    /// With the bars of a screen with the given rows noted, in place of any earlier ones.
    pub open spec fn with_bars(self, rows: Seq<Rect>) -> State {
        State { hits: bars_at(rows[1], rows[3]), ..self }
    }

    /// The screen that shows the panel.
    pub open spec fn screen(self, p: Percents, now: u32) -> ScreenView {
        ScreenView {
            header: self.header_line(now),
            matrix: Seq::new(NP as nat, |param: int| self.param_line(param)),
            master: Seq::new(3, |k: int| self.master_line(p, k)),
            midi: self.midi_line(),
        }
    }
}

/// The bars, with the parameters in the area `matrix` and the master controls in `master`.
fn place_bars(matrix: Rect, master: Rect) -> (hits: Vec<(usize, Rect)>)
    requires
        matrix.x + 40 <= u16::MAX,
        matrix.y + 8 <= u16::MAX,
        master.x + 8 <= u16::MAX,
        master.y + 2 <= u16::MAX,
    ensures
        hits@ == bars_at(matrix, master),
{
    let mut hits: Vec<(usize, Rect)> = Vec::new();
    let mut k: usize = 0;
    while k < 27
        invariant
            matrix.x + 40 <= u16::MAX,
            matrix.y + 8 <= u16::MAX,
            k <= 27,
            hits@.len() == k,
            forall|i: int| 0 <= i < k ==> #[trigger] hits@[i] == param_hit(matrix, i),
        decreases 27 - k,
    {
        let (drum, param) = (k % 3, k / 3);
        let x = matrix.x + LABEL_W + (drum as u16) * (BAR_W + COL_GAP);
        hits.push((drum * NP + param, Rect::new(x, matrix.y + param as u16, BAR_W, 1)));
        k = k + 1;
    }
    let mut q: usize = 0;
    while q < 3
        invariant
            master.x + 8 <= u16::MAX,
            master.y + 2 <= u16::MAX,
            q <= 3,
            hits@.len() == 27 + q,
            forall|i: int| 0 <= i < 27 ==> #[trigger] hits@[i] == param_hit(matrix, i),
            forall|i: int|
                27 <= i < 27 + q ==> #[trigger] hits@[i] == master_hit(master, i - 27),
        decreases 3 - q,
    {
        hits.push(
            (FIRST_MASTER + q, Rect::new(master.x + LABEL_W, master.y + q as u16, BAR_W, 1)),
        );
        q = q + 1;
    }
    assert(hits@ =~= bars_at(matrix, master));
    hits
}

/// Every bar belongs to a control.
proof fn lemma_bars_name_controls(matrix: Rect, master: Rect)
    ensures
        forall|i: int|
            0 <= i < bars_at(matrix, master).len() ==> (#[trigger] bars_at(
                matrix,
                master,
            )[i]).0 < crate::ccmap::CONTROLS,
{
}

/// Draws the panel on the given rows and notes where the bars of the controls stand.
pub fn ui(app: &mut App, rows: &Vec<Rect>, p: &Percents, now: u32) -> (screen: Screen)
    requires
        old(app)@.wf(),
        rows@.len() == AREAS,
        rows_fit(rows@),
        is_time(now),
    ensures
        screen@ == old(app)@.screen(*p, now),
        final(app)@ == old(app)@.with_bars(rows@),
        final(app)@.wf(),
{
    let header = app.draw_header(now);
    let mut matrix: Vec<Vec<Span>> = Vec::new();
    let mut param: usize = 0;
    while param < NP
        invariant
            app@.wf(),
            param <= NP,
            matrix@.len() == param,
            forall|i: int|
                0 <= i < param ==> line_view((#[trigger] matrix@[i])@) == app@.param_line(i),
        decreases NP - param,
    {
        let line = app.draw_param(param);
        matrix.push(line);
        param = param + 1;
    }
    let mut master: Vec<Vec<Span>> = Vec::new();
    let mut k: usize = 0;
    while k < 3
        invariant
            app@.wf(),
            k <= 3,
            master@.len() == k,
            forall|i: int|
                0 <= i < k ==> line_view((#[trigger] master@[i])@) == app@.master_line(*p, i),
        decreases 3 - k,
    {
        let line = app.draw_master(p, k);
        master.push(line);
        k = k + 1;
    }
    let midi = app.draw_midi();
    let ghost before = app@;
    app.hits = place_bars(rows[1], rows[3]);
    proof {
        lemma_bars_name_controls(rows@[1], rows@[3]);
        assert(app@ =~= (State { hits: bars_at(rows@[1], rows@[3]), ..before }));
        assert(lines_view(matrix@) =~= before.screen(*p, now).matrix);
        assert(lines_view(master@) =~= before.screen(*p, now).master);
    }
    Screen { header, matrix, master, midi }
}

/// Draws the panel on a screen that fills `area`: the rows, and what is on them. Nothing is drawn
/// where a bar would begin beyond the columns and rows that a screen can have.
pub fn draw(app: &mut App, area: Rect, p: &Percents, now: u32) -> (r: (Vec<Rect>, Option<Screen>))
    requires
        old(app)@.wf(),
        is_time(now),
    ensures
        r.0@.len() == AREAS,
        forall|i: int|
            0 <= i < AREAS ==> (#[trigger] r.0@[i]).x == bordered(area).x && r.0@[i].width
                == bordered(area).width,
        area.height >= FULL_HEIGHT + 2 && area.y + area.height <= u16::MAX ==> stacked(
            bordered(area),
            HEIGHTS@,
            r.0@,
        ),
        forall|i: int|
            0 <= i < AREAS ==> bordered(area).y <= (#[trigger] r.0@[i]).y && r.0@[i].y
                + r.0@[i].height <= bordered(area).y + bordered(area).height,
        area.y + area.height <= u16::MAX ==> shared(
            bordered(area),
            HEIGHTS@,
            1,
            r.0@,
        ),
        r.1 is Some <==> rows_fit(r.0@),
        area.x + 41 <= u16::MAX && area.y + area.height + 9 <= u16::MAX ==> r.1 is Some,
        match r.1 {
            Some(screen) => {
                &&& screen@ == old(app)@.screen(*p, now)
                &&& final(app)@ == old(app)@.with_bars(r.0@)
            },
            None => final(app)@ == old(app)@,
        },
        final(app)@.wf(),
{
    let rows = layout(area);
    let (a, b) = (rows[1], rows[3]);
    assert(a == rows@[1] && b == rows@[3]);
    if a.x <= u16::MAX - 40 && a.y <= u16::MAX - 8 && b.x <= u16::MAX - 8 && b.y <= u16::MAX - 2 {
        let screen = ui(app, &rows, p, now);
        (rows, Some(screen))
    } else {
        (rows, None)
    }
}

// ---------- laws ----------

/// There is only one way to stack rows of given heights in an area: on a screen that is tall enough,
/// drawing again finds the same rows and notes the same bars.
pub proof fn law_same_area_same_bars(area: Rect, first: Seq<Rect>, second: Seq<Rect>)
    requires
        first.len() == AREAS,
        second.len() == AREAS,
        stacked(area, HEIGHTS@, first),
        stacked(area, HEIGHTS@, second),
        forall|i: int|
            0 <= i < AREAS ==> (#[trigger] first[i]).x == area.x && first[i].width == area.width,
        forall|i: int|
            0 <= i < AREAS ==> (#[trigger] second[i]).x == area.x && second[i].width == area.width,
    ensures
        first == second,
        bars_at(first[1], first[3]) == bars_at(second[1], second[3]),
{
    assert forall|i: int| 0 <= i < AREAS implies first[i] == second[i] by {
        assert(first[i].y == second[i].y);
        assert(first[i].height == second[i].height);
    }
    assert(first =~= second);
}

/// The bars noted are those of the last drawing alone: drawing again on the same rows notes the same
/// thirty bars, and nothing else of the panel changes.
pub proof fn law_drawing_again_changes_nothing(
    s: State,
    rows: Seq<Rect>,
    earlier: Seq<(usize, Rect)>,
)
    requires
        s.wf(),
    ensures
        s.with_bars(rows).with_bars(rows) == s.with_bars(rows),
        s.with_bars(rows).hits.len() == crate::ccmap::CONTROLS,
        s.with_bars(rows).wf(),
        (State { hits: earlier, ..s }).with_bars(rows) == s.with_bars(rows),
{
    lemma_bars_name_controls(rows[1], rows[3]);
}

/// Every control has a bar, and only one.
pub proof fn law_every_control_has_one_bar(matrix: Rect, master: Rect, id: int)
    requires
        0 <= id < crate::ccmap::CONTROLS,
    ensures
        exists|k: int|
            0 <= k < bars_at(matrix, master).len() && (#[trigger] bars_at(matrix, master)[k]).0
                == id,
        forall|k: int, l: int|
            0 <= k < l < bars_at(matrix, master).len() ==> (#[trigger] bars_at(
                matrix,
                master,
            )[k]).0 != (#[trigger] bars_at(matrix, master)[l]).0,
{
    let bars = bars_at(matrix, master);
    if id < 27 {
        let k = (id % 9) * 3 + id / 9;
        assert(bars[k].0 == id);
    } else {
        assert(bars[id].0 == id);
    }
}

/// On a screen that is tall enough, the control whose bar is at a cell is found there: what is
/// clicked is what is seen.
pub proof fn law_bars_are_found(area: Rect, rows: Seq<Rect>, k: int, col: int, row: int)
    requires
        rows.len() == AREAS,
        stacked(area, HEIGHTS@, rows),
        rows[1].x == rows[3].x,
        rows_fit(rows),
        0 <= k < 30,
        bars_at(rows[1], rows[3])[k].1.covers(col, row),
    ensures
        super::mouse::first_hit(bars_at(rows[1], rows[3]), col, row) == Some(
            bars_at(rows[1], rows[3])[k],
        ),
{
    reveal_with_fuel(height_sum, 7);
    let bars = bars_at(rows[1], rows[3]);
    assert(rows[1].y == area.y + 1);
    assert(rows[3].y == area.y + 11);
    assert forall|i: int| 0 <= i < k implies !(#[trigger] bars[i]).1.covers(col, row) by {
        if k < 27 {
            assert(bars[k] == param_hit(rows[1], k));
            assert(bars[i] == param_hit(rows[1], i));
        } else {
            assert(bars[k] == master_hit(rows[3], k - 27));
            if i < 27 {
                assert(bars[i] == param_hit(rows[1], i));
            } else {
                assert(bars[i] == master_hit(rows[3], i - 27));
            }
        }
    }
    super::mouse::lemma_first_hit_at(bars, col, row, k);
}

/// The columns that the first `n` pieces of a line take.
pub open spec fn columns(line: Seq<SpanView>, n: int) -> int
    decreases n,
{
    if n <= 0 {
        0
    } else {
        columns(line, n - 1) + line[n - 1].text.len()
    }
}

/// The line of a parameter begins with its name, and shows in the column of each drum the level of
/// the control of that drum and that parameter.
pub proof fn law_screen_shows_levels(s: State, p: Percents, now: u32, drum: int, param: int)
    requires
        s.wf(),
        0 <= drum < 3,
        0 <= param < 9,
    ensures
        s.screen(p, now).matrix.len() == 9,
        s.screen(p, now).matrix[param].len() == 7,
        s.screen(p, now).matrix[param][0].text == left_aligned(PARAMS[param]@, 8),
        s.screen(p, now).matrix[param][1 + 2 * drum].text == level_bar(s.norm(9 * drum + param), 14),
        s.screen(p, now).matrix[param][2 + 2 * drum].text == repeated(' ', 2),
{
    reveal_with_fuel(State::bars, 4);
    super::law_controls_are_what_is_held(s, drum, param, 0);
}

/// Setting the control of a drum and a parameter shows in its own bar, and in no other bar of a
/// parameter.
pub proof fn law_setting_is_shown(
    s: State,
    p: Percents,
    now: u32,
    drum: int,
    param: int,
    n: u32,
    other_drum: int,
    other_param: int,
)
    requires
        s.wf(),
        0 <= drum < 3,
        0 <= param < 9,
        0 <= other_drum < 3,
        0 <= other_param < 9,
        other_drum != drum || other_param != param,
    ensures
        ({
            let id = 9 * drum + param;
            let (before, after) = (s.screen(p, now), s.with_norm(id, n).screen(p, now));
            let (row, col) = (other_param, 1 + 2 * other_drum);
            &&& after.matrix[param][1 + 2 * drum].text == level_bar(super::settled(id, n), 14)
            &&& after.matrix[row][col].text == before.matrix[row][col].text
        }),
{
    let id = 9 * drum + param;
    let other = 9 * other_drum + other_param;
    let t = s.with_norm(id, n);
    super::law_set_then_read(s, id, n);
    super::law_set_moves_one(s, id, n, other);
    law_screen_shows_levels(t, p, now, drum, param);
    law_screen_shows_levels(s, p, now, other_drum, other_param);
    law_screen_shows_levels(t, p, now, other_drum, other_param);
}

/// The line of a master control shows its name, its level and its value: the drive and the volume in
/// percent, the bit crusher by the name of its setting.
pub proof fn law_screen_shows_master_levels(s: State, p: Percents, now: u32, k: int)
    requires
        s.wf(),
        0 <= k < 3,
    ensures
        s.screen(p, now).master.len() == 3,
        s.screen(p, now).master[k].len() == 3,
        s.screen(p, now).master[k][0].text == left_aligned(MASTER[k]@, 8),
        s.screen(p, now).master[k][1].text == level_bar(s.norm(27 + k), 14),
        s.screen(p, now).master[0][2].text == " "@ + p.drive@ + "%"@,
        s.screen(p, now).master[1][2].text == " "@ + BIT_NAMES[s.bits_idx]@,
        s.screen(p, now).master[2][2].text == " "@ + p.volume@ + "%"@,
{
    assert(" "@ + (p.drive@ + "%"@) =~= " "@ + p.drive@ + "%"@);
    assert(" "@ + (p.volume@ + "%"@) =~= " "@ + p.volume@ + "%"@);
}

/// The selected control stands out, and no other: its bar is the only bright one, and the name of its
/// row too.
pub proof fn law_selected_control_stands_out(
    s: State,
    p: Percents,
    now: u32,
    drum: int,
    param: int,
    k: int,
)
    requires
        s.wf(),
        0 <= drum < 3,
        0 <= param < 9,
        0 <= k < 3,
    ensures
        ({
            let screen = s.screen(p, now);
            let bar = screen.matrix[param][1 + 2 * drum];
            &&& bar.tone == Tone::AccentBold <==> s.cur_id() == 9 * drum + param
            &&& bar.tone == Tone::Dim <==> s.sel_drum != drum
            &&& bar.tone == Tone::Idle <==> s.sel_drum == drum && s.sel_row != param
            &&& screen.matrix[param][0].tone == Tone::AccentBold <==> s.sel_row == param
            &&& screen.matrix[param][0].tone == Tone::Idle <==> s.sel_row != param
            &&& screen.master[k][1].tone == Tone::Accent <==> s.cur_id() == 27 + k
            &&& screen.master[k][1].tone == Tone::Dim <==> s.cur_id() != 27 + k
            &&& screen.master[k][0].tone == Tone::AccentBold <==> s.cur_id() == 27 + k
            &&& screen.master[k][0].tone == Tone::Idle <==> s.cur_id() != 27 + k
            &&& screen.master[k][2].tone == screen.master[k][0].tone
        }),
{
    reveal_with_fuel(State::bars, 4);
}

/// The headings name the drums and the notes that play them, each above the bars of its drum. The
/// selected drum stands out, and so does one that was just hit.
pub proof fn law_headings(s: State, p: Percents, now: u32, drum: int, param: int)
    requires
        s.wf(),
        0 <= drum < 3,
        0 <= param < 9,
    ensures
        ({
            let (header, line) = (s.screen(p, now).header, s.screen(p, now).matrix[param]);
            let cell = header[1 + 2 * drum];
            &&& header.len() == 7
            &&& header[0].text == repeated(' ', 8)
            &&& header[2 + 2 * drum].text == repeated(' ', 2)
            &&& has_text(cell.text, DRUMS[drum]@)
            &&& has_text(cell.text, "("@ + NOTE_LETTERS[drum]@ + ")"@)
            &&& columns(header, 1 + 2 * drum) == columns(line, 1 + 2 * drum)
            &&& cell.text.len() == line[1 + 2 * drum].text.len()
            &&& cell.tone == Tone::Chosen <==> s.sel_drum == drum
            &&& cell.tone == Tone::AccentBold <==> s.sel_drum != drum && just_hit(s.flash[drum], now)
            &&& cell.tone == Tone::Idle <==> s.sel_drum != drum && !just_hit(s.flash[drum], now)
        }),
{
    law_columns_of_bars(s, p, now, drum, param);
    lemma_columns_of_headings(s, now, drum);
    lemma_heading_text(drum);
}

/// The heading of a drum holds its name and its note.
proof fn lemma_heading_text(drum: int)
    requires
        0 <= drum < 3,
    ensures
        has_text(centered(heading(drum), 14), DRUMS[drum]@),
        has_text(centered(heading(drum), 14), "("@ + NOTE_LETTERS[drum]@ + ")"@),
{
    let h = heading(drum);
    let free = if 14 > h.len() {
        14 - h.len()
    } else {
        0
    };
    let (a, b) = (repeated(' ', free / 2), repeated(' ', free - free / 2));
    assert(centered(h, 14) == a + h + b);
    assert(" ("@ == " "@ + "("@) by {
        reveal_strlit(" (");
        reveal_strlit("(");
        reveal_strlit(" ");
        assert(" ("@ =~= " "@ + "("@);
    }
    lemma_text_parts(a, DRUMS[drum]@, " "@, "("@, NOTE_LETTERS[drum]@, ")"@, b);
}

/// A name and a letter in brackets are found in a text made of them.
#[verifier::spinoff_prover]
proof fn lemma_text_parts(
    a: Seq<char>,
    name: Seq<char>,
    blank: Seq<char>,
    open: Seq<char>,
    letter: Seq<char>,
    close: Seq<char>,
    b: Seq<char>,
)
    ensures
        has_text(a + (name + (blank + open) + letter + close) + b, name),
        has_text(a + (name + (blank + open) + letter + close) + b, open + letter + close),
{
    let whole = a + (name + (blank + open) + letter + close) + b;
    let (tail, head, part) = (blank + open + letter + close + b, a + name + blank, open + letter + close);
    assert(whole =~= a + name + tail);
    law_text_is_found(a, name, tail, whole);
    assert(whole =~= head + part + b);
    law_text_is_found(head, part, b, whole);
}

/// The heading of a drum fits the column of its bars.
proof fn lemma_heading_fits(drum: int)
    requires
        0 <= drum < 3,
    ensures
        heading(drum).len() <= 14,
{
    reveal_strlit("KICK");
    reveal_strlit("SNARE");
    reveal_strlit("HIHAT");
    reveal_strlit("C");
    reveal_strlit("D");
    reveal_strlit("E");
    reveal_strlit(" (");
    reveal_strlit(")");
}

/// Where the headings stand.
proof fn lemma_columns_of_headings(s: State, now: u32, drum: int)
    requires
        0 <= drum < 3,
    ensures
        s.header_line(now).len() == 7,
        s.header_line(now)[0].text == repeated(' ', 8),
        s.header_line(now)[2 + 2 * drum].text == repeated(' ', 2),
        s.header_line(now)[1 + 2 * drum] == (SpanView {
            text: centered(heading(drum), 14),
            tone: s.heading_tone(drum, now),
        }),
        columns(s.header_line(now), 1 + 2 * drum) == 8 + 16 * drum,
        centered(heading(drum), 14).len() == 14,
        heading(drum).len() <= 14,
{
    reveal_with_fuel(State::headings, 4);
    reveal_with_fuel(columns, 6);
    lemma_heading_fits(0);
    lemma_heading_fits(1);
    lemma_heading_fits(2);
    law_columns_line_up(heading(0), 14);
    law_columns_line_up(heading(1), 14);
    law_columns_line_up(heading(2), 14);
}

/// The names fit the column of names.
proof fn lemma_names_fit(param: int, k: int)
    requires
        0 <= param < 9,
        0 <= k < 3,
    ensures
        PARAMS[param]@.len() <= 8,
        MASTER[k]@.len() <= 8,
{
    reveal_strlit("Tune");
    reveal_strlit("Ratio");
    reveal_strlit("FM");
    reveal_strlit("FMDec");
    reveal_strlit("PEnv");
    reveal_strlit("PDec");
    reveal_strlit("Decay");
    reveal_strlit("Snap");
    reveal_strlit("Tone");
    reveal_strlit("Drive");
    reveal_strlit("Bits");
    reveal_strlit("Volume");
}

/// The bars of all lines stand below one another: each begins where the names, the bars and the gaps
/// before it end, and is fourteen columns wide.
pub proof fn law_columns_of_bars(s: State, p: Percents, now: u32, drum: int, param: int)
    requires
        s.wf(),
        0 <= drum < 3,
        0 <= param < 9,
    ensures
        columns(s.screen(p, now).matrix[param], 1 + 2 * drum) == 8 + 16 * drum,
        s.screen(p, now).matrix[param][1 + 2 * drum].text.len() == 14,
{
    reveal_with_fuel(State::bars, 4);
    reveal_with_fuel(columns, 6);
    lemma_names_fit(param, 0);
    law_columns_line_up(PARAMS[param]@, 8);
    lemma_bar_length(s.drums[0][param]);
    lemma_bar_length(s.drums[1][param]);
    lemma_bar_length(s.drums[2][param]);
}

proof fn lemma_bar_length(level: u32)
    ensures
        level_bar(level, 14).len() == 14,
{
    law_bars_line_up(level, level, 14);
}

/// The bars are noted where they are drawn: the bar of a control is noted in the line and at the
/// column where that control is drawn, as wide as it is drawn.
pub proof fn law_bars_are_noted_where_drawn(
    s: State,
    rows: Seq<Rect>,
    p: Percents,
    now: u32,
    drum: int,
    param: int,
    k: int,
)
    requires
        s.wf(),
        rows.len() == AREAS,
        rows[1].x + 54 <= u16::MAX,
        rows[1].y + 9 <= u16::MAX,
        rows[3].x + 22 <= u16::MAX,
        rows[3].y + 3 <= u16::MAX,
        0 <= drum < 3,
        0 <= param < 9,
        0 <= k < 3,
    ensures
        ({
            let screen = s.screen(p, now);
            let (line, col) = (screen.matrix[param], 1 + 2 * drum);
            let spot = Rect {
                x: (rows[1].x + columns(line, col)) as u16,
                y: (rows[1].y + param) as u16,
                width: line[col].text.len() as u16,
                height: 1,
            };
            s.with_bars(rows).hits.contains(((9 * drum + param) as usize, spot))
        }),
        ({
            let line = s.screen(p, now).master[k];
            let spot = Rect {
                x: (rows[3].x + columns(line, 1)) as u16,
                y: (rows[3].y + k) as u16,
                width: line[1].text.len() as u16,
                height: 1,
            };
            s.with_bars(rows).hits.contains(((27 + k) as usize, spot))
        }),
{
    law_columns_of_bars(s, p, now, drum, param);
    let bars = bars_at(rows[1], rows[3]);
    let i = 3 * param + drum;
    assert(i % 3 == drum && i / 3 == param);
    assert(bars[i] == param_hit(rows[1], i));
    assert(bars[27 + k] == master_hit(rows[3], k));
    reveal_with_fuel(columns, 3);
    lemma_names_fit(0, k);
    law_columns_line_up(MASTER[k]@, 8);
    lemma_bar_length(s.norm(27 + k));
    let hits = s.with_bars(rows).hits;
    assert(hits[i] == bars[i]);
    assert(hits[27 + k] == bars[27 + k]);
}

/// A click on a bar fills it up to the cell that was clicked.
pub proof fn law_click_fills_bar(s: State, area: Rect, rows: Seq<Rect>, k: int, col: u16, row: u16)
    requires
        s.wf(),
        rows.len() == AREAS,
        stacked(area, HEIGHTS@, rows),
        rows[1].x == rows[3].x,
        rows[1].x + 54 <= u16::MAX,
        rows_fit(rows),
        0 <= k < 30,
        k != 28,
        bars_at(rows[1], rows[3])[k].1.covers(col as int, row as int),
    ensures
        ({
            let (id, spot) = bars_at(rows[1], rows[3])[k];
            let after = s.with_bars(rows).after_mouse(super::mouse::Mouse::LeftDown, col, row).0;
            &&& after.cur_id() == id
            &&& crate::text::filled_cells(after.norm(id as int), 14) == col - spot.x
        }),
{
    let t = s.with_bars(rows);
    let bars = bars_at(rows[1], rows[3]);
    let (id, spot) = bars[k];
    law_bars_are_found(area, rows, k, col as int, row as int);
    law_drawing_again_changes_nothing(s, rows, seq![]);
    assert(t.hits == bars);
    if k < 27 {
        assert(bars[k] == param_hit(rows[1], k));
    } else {
        assert(bars[k] == master_hit(rows[3], k - 27));
    }
    super::mouse::law_click_sets_level(t, super::mouse::Mouse::LeftDown, col, row, 0);
    crate::text::law_parts_fill_cells(col - spot.x, 14);
}

/// On a screen that is tall enough, the rows have the heights given, follow one another from the top,
/// and end where the area ends; so the bars lie in the rows of the parameters and of the master
/// controls.
pub proof fn law_bars_lie_in_their_rows(area: Rect, rows: Seq<Rect>, k: int, col: int, row: int)
    requires
        rows.len() == AREAS,
        stacked(area, HEIGHTS@, rows),
        area.height >= FULL_HEIGHT,
        rows_fit(rows),
        0 <= k < 30,
        bars_at(rows[1], rows[3])[k].1.covers(col, row),
    ensures
        k < 27 ==> rows[1].y <= row < rows[1].y + rows[1].height,
        k >= 27 ==> rows[3].y <= row < rows[3].y + rows[3].height,
        rows[0].y == area.y,
        forall|i: int| 0 < i < 7 ==> (#[trigger] rows[i]).y == rows[i - 1].y + rows[i - 1].height,
        rows[6].y + rows[6].height == area.y + area.height,
{
    reveal_with_fuel(height_sum, 8);
    let bars = bars_at(rows[1], rows[3]);
    if k < 27 {
        assert(bars[k] == param_hit(rows[1], k));
    } else {
        assert(bars[k] == master_hit(rows[3], k - 27));
    }
    assert forall|i: int| 0 < i < 7 implies (#[trigger] rows[i]).y == rows[i - 1].y + rows[
        i - 1
    ].height by {
        assert(rows[i - 1].height == HEIGHTS@[i - 1]);
    }
}

/// A border takes the outermost cells of an area and no others.
pub proof fn law_border_takes_the_edge(area: Rect, col: int, row: int)
    requires
        area.x + area.width <= u16::MAX,
        area.y + area.height <= u16::MAX,
        area.width > 0,
        area.height > 0,
    ensures
        bordered(area).covers(col, row) <==> area.covers(col - 1, row - 1) && area.covers(
            col + 1,
            row + 1,
        ),
{
}

/// The MIDI line tells the channel and the port. Different choices of the channel are told in
/// different words.
pub proof fn law_midi_line_tells_channel_and_port(s: State, t: State, p: Percents, now: u32)
    requires
        s.wf(),
        t.wf(),
    ensures
        s.screen(p, now).midi[1].text == t.screen(p, now).midi[1].text ==> s.midi_channel
            == t.midi_channel,
        s.midi_channel > 0 ==> s.screen(p, now).midi[1].text == "ch:"@ + decimal(
            s.midi_channel as nat,
        ) + " "@,
        s.midi_channel == 0 ==> s.screen(p, now).midi[1].text == "ch:"@ + "Omni"@ + " "@,
        s.screen(p, now).midi[2].text == "· "@ + s.midi_port + " "@,
        s.screen(p, now).midi[0] == t.screen(p, now).midi[0],
        s.screen(p, now).midi[0].tone == Tone::Dim,
        s.screen(p, now).midi[1].tone == Tone::Idle,
        s.screen(p, now).midi[2].tone == Tone::Dim,
{
    let (a, b) = (s.channel_text(), t.channel_text());
    let (x, y) = ("ch:"@ + a + " "@, "ch:"@ + b + " "@);
    if x == y {
        let n = "ch:"@.len() as int;
        assert(x.subrange(n, x.len() - " "@.len()) =~= a);
        assert(y.subrange(n, y.len() - " "@.len()) =~= b);
        reveal_strlit("Omni");
        lemma_decimal_digits(s.midi_channel as nat);
        lemma_decimal_digits(t.midi_channel as nat);
        assert(!is_digit("Omni"@[0]));
        if s.midi_channel > 0 {
            assert(is_digit(decimal(s.midi_channel as nat)[0]));
        }
        if t.midi_channel > 0 {
            assert(is_digit(decimal(t.midi_channel as nat)[0]));
        }
        law_decimal(s.midi_channel as nat, t.midi_channel as nat);
    }
}

/// The MIDI line ends with the control that a controller is waited for; else with the notice; else
/// with the number of bindings and the last message.
pub proof fn law_midi_line_tells_news(s: State, p: Percents, now: u32)
    requires
        s.wf(),
    ensures
        ({
            let line = s.screen(p, now).midi;
            &&& s.learn ==> line.len() == 4 && line[3].text == "· ◉ LEARN "@ + name_of(s.cur_id())
                + " (send CC) "@ && line[3].tone == Tone::AccentBold
            &&& !s.learn && s.toast is Some ==> line.len() == 4 && line[3].text == "· "@ + s.toast->0
                + " "@ && line[3].tone == Tone::Accent
            &&& !s.learn && s.toast is None ==> line[3].text == "· "@ + decimal(s.cc_map.len())
                + " CC maps "@ && line[3].tone == Tone::Dim
            &&& !s.learn && s.toast is None && s.last_midi is Some ==> line.len() == 5
                && line[4].text == "· "@ + s.last_midi->0 && line[4].tone == Tone::Dim
            &&& !s.learn && s.toast is None && s.last_midi is None ==> line.len() == 4
        }),
{
}

} // verus!
