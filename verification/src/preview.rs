use vstd::prelude::*;

use base64::Engine;

use crate::model::{PreviewIdentity, PreviewIdentityView, PreviewState};
use crate::reader::{consume_bytes, fill_available, LineSource};
use crate::text::append_str;

verus! {

/// Longest line of the live stream accepted, in bytes.
pub const MAX_FRAME_LINE: usize = 2 * 1024 * 1024;

/// How long a fallback snapshot waits for the first live frame, in
/// milliseconds.
pub const FALLBACK_DELAY_MS: u64 = 350;

/// Largest frame width or height accepted.
pub const MAX_FRAME_DIMENSION: u16 = 1_000;

/// Largest number of cells in a frame accepted.
pub const MAX_FRAME_CELLS: u32 = 500_000;

// ---------------------------------------------------------------------
// Arbitration between the live stream and the fallback snapshot
// ---------------------------------------------------------------------

/// How starting the live stream for a selection went.
#[derive(Debug, PartialEq, Eq)]
pub enum LiveStart {
    Started,
    NotApplicable,
    Unavailable(String),
}

/// What is known of the live stream of the current selection.
#[derive(Debug, Clone, Copy, PartialEq, Eq, Structural)]
pub enum LiveState {
    /// Started, no frame yet.
    Waiting,
    /// A frame arrived.
    Ready,
    /// It failed or could not start.
    Unavailable,
    /// The selection has no live stream.
    NotApplicable,
}

/// The preview a finished snapshot shows.
pub open spec fn snapshot_preview(result: Result<String, String>) -> PreviewState {
    match result {
        Ok(text) => PreviewState::Ready(text),
        Err(error) => PreviewState::Error(error),
    }
}

/// Decides which of the live stream and the fallback snapshot the
/// preview shows: a live frame always wins; a snapshot is shown once the
/// live stream has failed, does not apply, or has sent nothing for
/// [`FALLBACK_DELAY_MS`].
pub struct Arbiter {
    pub generation: u64,
    /// When the current selection's preview was requested, in
    /// milliseconds.
    pub started_at: u64,
    pub live: LiveState,
    /// A snapshot that arrived and was not shown yet.
    pub fallback: Option<Result<String, String>>,
}

/// Whether a held snapshot may be shown at `now`.
pub open spec fn fallback_due(live: LiveState, started_at: u64, now: u64) -> bool {
    live != LiveState::Waiting || (now >= started_at && now - started_at >= FALLBACK_DELAY_MS)
}

impl Arbiter {
    /// An arbiter for no selection.
    pub fn new() -> (r: Arbiter)
        ensures
            r.generation == 0,
            r.started_at == 0,
            r.live == LiveState::NotApplicable,
            r.fallback is None,
    {
        Arbiter { generation: 0, started_at: 0, live: LiveState::NotApplicable, fallback: None }
    }

    /// Starts arbitrating the preview request `generation`, made at `now`,
    /// whose live stream started as `start` says.
    pub fn reset(&mut self, generation: u64, start: &LiveStart, now: u64)
        ensures
            final(self).generation == generation,
            final(self).started_at == now,
            final(self).fallback is None,
            final(self).live == match start {
                LiveStart::Started => LiveState::Waiting,
                LiveStart::NotApplicable => LiveState::NotApplicable,
                LiveStart::Unavailable(_) => LiveState::Unavailable,
            },
    {
        self.generation = generation;
        self.started_at = now;
        self.fallback = None;
        self.live = match start {
            LiveStart::Started => LiveState::Waiting,
            LiveStart::NotApplicable => LiveState::NotApplicable,
            LiveStart::Unavailable(_) => LiveState::Unavailable,
        };
    }

    /// Hands out the held snapshot if it is due at `now`.
    fn release_fallback(&mut self, now: u64) -> (r: Option<PreviewState>)
        ensures
            final(self).generation == old(self).generation,
            final(self).started_at == old(self).started_at,
            final(self).live == old(self).live,
            fallback_due(old(self).live, old(self).started_at, now) ==> final(self).fallback is None
                && r == match old(self).fallback {
                Some(result) => Some(snapshot_preview(result)),
                None => None,
            },
            !fallback_due(old(self).live, old(self).started_at, now) ==> final(self).fallback == old(
                self,
            ).fallback && r is None,
    {
        let due = self.live != LiveState::Waiting || now.saturating_sub(self.started_at)
            >= FALLBACK_DELAY_MS;
        if !due {
            return None;
        }
        match self.fallback.take() {
            Some(Ok(text)) => Some(PreviewState::Ready(text)),
            Some(Err(error)) => Some(PreviewState::Error(error)),
            None => None,
        }
    }

    /// A snapshot for request `generation` arrived at `now`: it is ignored
    /// when stale or when a live frame is showing, else held and shown as
    /// soon as it is due.
    pub fn fallback(&mut self, generation: u64, result: Result<String, String>, now: u64) -> (r:
        Option<PreviewState>)
        ensures
            generation != old(self).generation || old(self).live == LiveState::Ready ==> r is None
                && *final(self) == *old(self),
            generation == old(self).generation && old(self).live != LiveState::Ready ==> {
                &&& final(self).generation == old(self).generation
                &&& final(self).started_at == old(self).started_at
                &&& final(self).live == old(self).live
                &&& if fallback_due(old(self).live, old(self).started_at, now) {
                    final(self).fallback is None && r == Some(snapshot_preview(result))
                } else {
                    final(self).fallback == Some(result) && r is None
                }
            },
    {
        if generation != self.generation || self.live == LiveState::Ready {
            return None;
        }
        self.fallback = Some(result);
        self.release_fallback(now)
    }

    /// The live stream sent a frame or failed, at `now`. A frame is shown
    /// and drops any held snapshot; a failure after a frame is ignored;
    /// an earlier failure releases the held snapshot, or shows the error.
    pub fn live(&mut self, result: Result<String, String>, now: u64) -> (r: Option<PreviewState>)
        ensures
            final(self).generation == old(self).generation,
            final(self).started_at == old(self).started_at,
            match result {
                Ok(frame) => {
                    &&& final(self).live == LiveState::Ready
                    &&& final(self).fallback is None
                    &&& r == Some(PreviewState::Ready(frame))
                },
                Err(error) => if old(self).live == LiveState::Ready {
                    r is None && *final(self) == *old(self)
                } else {
                    &&& final(self).live == LiveState::Unavailable
                    &&& final(self).fallback is None
                    &&& r == match old(self).fallback {
                        Some(held) => Some(snapshot_preview(held)),
                        None => Some(PreviewState::Error(error)),
                    }
                },
            },
    {
        match result {
            Ok(frame) => {
                self.live = LiveState::Ready;
                self.fallback = None;
                Some(PreviewState::Ready(frame))
            },
            Err(error) => {
                if self.live == LiveState::Ready {
                    return None;
                }
                self.live = LiveState::Unavailable;
                match self.release_fallback(now) {
                    Some(preview) => Some(preview),
                    None => Some(PreviewState::Error(error)),
                }
            },
        }
    }

    /// Releases the held snapshot once it is due at `now`.
    pub fn tick(&mut self, now: u64) -> (r: Option<PreviewState>)
        ensures
            final(self).generation == old(self).generation,
            final(self).started_at == old(self).started_at,
            final(self).live == old(self).live,
            fallback_due(old(self).live, old(self).started_at, now) ==> final(self).fallback is None
                && r == match old(self).fallback {
                Some(result) => Some(snapshot_preview(result)),
                None => None,
            },
            !fallback_due(old(self).live, old(self).started_at, now) ==> final(self).fallback == old(
                self,
            ).fallback && r is None,
    {
        self.release_fallback(now)
    }
}

// ---------------------------------------------------------------------
// Which selection the live stream observes
// ---------------------------------------------------------------------

/// The view of an optional preview identity.
pub open spec fn identity_view(identity: Option<PreviewIdentity>) -> Option<PreviewIdentityView> {
    match identity {
        Some(i) => Some(i@),
        None => None,
    }
}

/// What the live stream has to do when the selection or the preview size
/// may have changed.
pub enum LiveAction {
    /// Nothing changed: keep the stream, which stands as given.
    Keep(LiveStart),
    /// Stop any stream: the new selection has none.
    Stop,
    /// Stop any stream and observe this pane instead.
    Observe(String),
}

/// The selection and preview size the live stream was last set up for.
pub struct LiveSelection {
    pub identity: Option<PreviewIdentity>,
    pub dimensions: (u16, u16),
}

impl LiveSelection {
    /// Set up for nothing.
    pub fn new() -> (r: LiveSelection)
        ensures
            r.identity is None,
            r.dimensions == (0u16, 0u16),
    {
        LiveSelection { identity: None, dimensions: (0, 0) }
    }

    /// Decides what the live stream does for the selection `identity` at
    /// `dimensions`, given whether a stream is `running`: an unchanged
    /// selection and size keep it; otherwise the stream follows the new
    /// selection's preview pane, if it has one.
    pub fn select(
        &mut self,
        identity: Option<&PreviewIdentity>,
        dimensions: (u16, u16),
        running: bool,
    ) -> (r: LiveAction)
        ensures
            ({
                let wanted = match identity {
                    Some(i) => Some(i@),
                    None => None,
                };
                if identity_view(old(self).identity) == wanted && old(self).dimensions == dimensions {
                    &&& *final(self) == *old(self)
                    &&& r == if running {
                        LiveAction::Keep(LiveStart::Started)
                    } else {
                        LiveAction::Keep(LiveStart::NotApplicable)
                    }
                } else {
                    &&& identity_view(final(self).identity) == wanted
                    &&& final(self).dimensions == dimensions
                    &&& match identity {
                        Some(i) => match i.preview_pane {
                            Some(p) => r matches LiveAction::Observe(q) && q@ == p@,
                            None => r is Stop,
                        },
                        None => r is Stop,
                    }
                }
            }),
    {
        let same = match (&self.identity, identity) {
            (Some(a), Some(b)) => a.same(b),
            (None, None) => true,
            _ => false,
        };
        if same && self.dimensions.0 == dimensions.0 && self.dimensions.1 == dimensions.1 {
            return if running {
                LiveAction::Keep(LiveStart::Started)
            } else {
                LiveAction::Keep(LiveStart::NotApplicable)
            };
        }
        self.identity = match identity {
            Some(i) => Some(i.duplicate()),
            None => None,
        };
        self.dimensions = dimensions;
        match identity {
            Some(i) => match &i.preview_pane {
                Some(pane) => LiveAction::Observe(pane.clone()),
                None => LiveAction::Stop,
            },
            None => LiveAction::Stop,
        }
    }
}

// ---------------------------------------------------------------------
// The live frame stream
// ---------------------------------------------------------------------

#[verifier::external_type_specification]
#[verifier::external_body]
pub struct ExParser(vt100::Parser);

/// The result of decoding text with the standard base64 alphabet and
/// padding, as `base64::engine::general_purpose::STANDARD.decode`
/// computes it: the bytes, or the decode error's message.
pub uninterp spec fn base64_standard_decode(input: Seq<char>) -> Result<Seq<u8>, Seq<char>>;

/// Decodes `input` with `base64`'s standard engine.
#[verifier::external_body]
fn decode_base64(input: &str) -> (r: Result<Vec<u8>, String>)
    ensures
        match r {
            Ok(bytes) => base64_standard_decode(input@) == Ok::<Seq<u8>, Seq<char>>(bytes@),
            Err(message) => base64_standard_decode(input@) == Err::<Seq<u8>, Seq<char>>(message@),
        },
{
    base64::engine::general_purpose::STANDARD.decode(input).map_err(|error| error.to_string())
}

/// The text `vt100::Screen::contents_formatted` gives, read as UTF-8
/// with invalid sequences replaced, for a screen made by
/// `vt100::Parser::new(rows, cols, 0)` and fed `bytes`.
pub uninterp spec fn vt100_formatted(rows: u16, cols: u16, bytes: Seq<u8>) -> Seq<char>;

/// A terminal screen of `height` by `width` cells without scrollback,
/// together with every byte fed to it since it was made.
pub struct Screen {
    parser: vt100::Parser,
    height: u16,
    width: u16,
    fed: Ghost<Seq<u8>>,
}

impl Screen {
    /// Rows of the screen.
    pub closed spec fn height(&self) -> u16 {
        self.height
    }

    /// Columns of the screen.
    pub closed spec fn width(&self) -> u16 {
        self.width
    }

    /// Every byte fed to the screen since it was made.
    pub closed spec fn fed(&self) -> Seq<u8> {
        self.fed@
    }

    /// Rows of the screen.
    pub fn rows(&self) -> (r: u16)
        ensures
            r == self.height(),
    {
        self.height
    }

    /// Columns of the screen.
    pub fn columns(&self) -> (r: u16)
        ensures
            r == self.width(),
    {
        self.width
    }
}

/// A screen of `rows` by `cols` from `vt100::Parser::new(rows, cols, 0)`,
/// fed nothing yet.
#[verifier::external_body]
fn new_screen(rows: u16, cols: u16) -> (r: Screen)
    requires
        rows > 0,
        cols > 0,
    ensures
        r.height() == rows,
        r.width() == cols,
        r.fed() == Seq::<u8>::empty(),
{
    Screen { parser: vt100::Parser::new(rows, cols, 0), height: rows, width: cols, fed: Ghost(Seq::empty()) }
}

/// Feeds `bytes` to the screen with `vt100::Parser::process`, on a
/// screen at least two columns wide (on one column a wide character
/// makes vt100 subtract past zero).
#[verifier::external_body]
fn screen_process(screen: &mut Screen, bytes: &[u8])
    requires
        old(screen).width() >= 2,
    ensures
        final(screen).height() == old(screen).height(),
        final(screen).width() == old(screen).width(),
        final(screen).fed() == old(screen).fed() + bytes@,
{
    screen.parser.process(bytes);
    screen.fed = Ghost(screen.fed@ + bytes@);
}

/// The screen's contents with their formatting, from
/// `vt100::Screen::contents_formatted`, read as UTF-8 with invalid
/// sequences replaced.
#[verifier::external_body]
fn screen_text(screen: &Screen) -> (r: String)
    ensures
        r@ == vt100_formatted(screen.height(), screen.width(), screen.fed()),
{
    String::from_utf8_lossy(&screen.parser.screen().contents_formatted()).into_owned()
}

// ---------------------------------------------------------------------
// Screen cells and styled runs
// ---------------------------------------------------------------------

/// A terminal colour.
#[derive(Debug, Clone, Copy, PartialEq, Eq, Structural)]
pub enum CellColor {
    /// The terminal's default colour.
    Default,
    /// A colour of the terminal's palette.
    Indexed(u8),
    /// A colour given by red, green and blue.
    Rgb(u8, u8, u8),
}

/// How a cell is drawn.
#[derive(Debug, Clone, Copy, PartialEq, Eq, Structural)]
pub struct CellStyle {
    pub foreground: CellColor,
    pub background: CellColor,
    pub bold: bool,
    pub italic: bool,
    pub underline: bool,
    pub inverse: bool,
}

/// The style of text with no attributes in default colours.
pub open spec fn plain_style() -> CellStyle {
    CellStyle {
        foreground: CellColor::Default,
        background: CellColor::Default,
        bold: false,
        italic: false,
        underline: false,
        inverse: false,
    }
}

/// One cell of a screen: its text (empty when blank), whether it is the
/// second half of a wide character, and its style.
#[derive(Debug, Clone)]
pub struct Cell {
    pub contents: String,
    pub wide_continuation: bool,
    pub style: CellStyle,
}

/// Mathematical value of a [`Cell`].
pub struct CellView {
    pub contents: Seq<char>,
    pub wide_continuation: bool,
    pub style: CellStyle,
}

impl View for Cell {
    type V = CellView;

    open spec fn view(&self) -> CellView {
        CellView {
            contents: self.contents@,
            wide_continuation: self.wide_continuation,
            style: self.style,
        }
    }
}

/// The cell at `row`, `col` of a screen made by
/// `vt100::Parser::new(rows, cols, 0)` and fed `bytes`, as
/// `vt100::Screen::cell` gives it (none outside the screen).
pub uninterp spec fn vt100_cell(rows: u16, cols: u16, bytes: Seq<u8>, row: u16, col: u16) -> Option<
    CellView,
>;

/// The view of an optional cell.
pub open spec fn cell_view(cell: Option<Cell>) -> Option<CellView> {
    match cell {
        Some(c) => Some(c@),
        None => None,
    }
}

/// The cell at `row`, `col` from `vt100::Screen::cell`, its text from
/// `Cell::contents`, its flag from `Cell::is_wide_continuation` and its
/// style from the cell's colours and attributes.
#[verifier::external_body]
fn screen_cell(screen: &Screen, row: u16, col: u16) -> (r: Option<Cell>)
    ensures
        cell_view(r) == vt100_cell(screen.height(), screen.width(), screen.fed(), row, col),
{
    let color = |c| match c {
        vt100::Color::Default => CellColor::Default,
        vt100::Color::Idx(i) => CellColor::Indexed(i),
        vt100::Color::Rgb(r, g, b) => CellColor::Rgb(r, g, b),
    };
    screen.parser.screen().cell(row, col).map(|c| Cell {
        contents: c.contents(),
        wide_continuation: c.is_wide_continuation(),
        style: CellStyle { foreground: color(c.fgcolor()), background: color(c.bgcolor()),
            bold: c.bold(), italic: c.italic(), underline: c.underline(), inverse: c.inverse() },
    })
}


/// A run of text drawn in one style.
pub type RunView = (Seq<char>, CellStyle);

/// Runs finished so far, the text of the current run and its style.
pub type RunState = (Seq<RunView>, Seq<char>, CellStyle);

/// Folds one cell into a row's runs: cells outside the screen and second
/// halves of wide characters add nothing; a change of style after some
/// text closes the current run; a blank cell is drawn as a space.
pub open spec fn fold_cell(state: RunState, cell: Option<CellView>) -> RunState {
    match cell {
        None => state,
        Some(c) => if c.wide_continuation {
            state
        } else {
            let close = c.style != state.2 && state.1.len() > 0;
            let glyph = if c.contents.len() > 0 {
                c.contents
            } else {
                seq![' ']
            };
            (
                if close {
                    state.0.push((state.1, state.2))
                } else {
                    state.0
                },
                if close {
                    glyph
                } else {
                    state.1 + glyph
                },
                c.style,
            )
        },
    }
}

/// The runs of a row's cells, left to right, before the last run closes.
pub open spec fn fold_cells(cells: Seq<Option<CellView>>) -> RunState
    decreases cells.len(),
{
    if cells.len() == 0 {
        (Seq::empty(), Seq::empty(), plain_style())
    } else {
        fold_cell(fold_cells(cells.drop_last()), cells.last())
    }
}

/// The styled runs of a row of cells.
pub open spec fn row_runs(cells: Seq<Option<CellView>>) -> Seq<RunView> {
    let state = fold_cells(cells);
    if state.1.len() > 0 {
        state.0.push((state.1, state.2))
    } else {
        state.0
    }
}

/// The cells of one row of a screen made `rows` by `cols` and fed `bytes`.
pub open spec fn screen_row(rows: u16, cols: u16, bytes: Seq<u8>, row: int) -> Seq<Option<CellView>> {
    Seq::new(cols as nat, |c: int| vt100_cell(rows, cols, bytes, row as u16, c as u16))
}

/// The styled runs of every row of a screen made `rows` by `cols` and
/// fed `bytes`.
pub open spec fn styled_screen(rows: u16, cols: u16, bytes: Seq<u8>) -> Seq<Seq<RunView>> {
    Seq::new(rows as nat, |r: int| row_runs(screen_row(rows, cols, bytes, r)))
}

/// The view of styled runs.
pub open spec fn runs_view(runs: Seq<Vec<(String, CellStyle)>>) -> Seq<Seq<RunView>> {
    runs.map_values(|row: Vec<(String, CellStyle)>| row@.map_values(|run: (String, CellStyle)| (run.0@, run.1)))
}

fn run_row(screen: &Screen, row: u16) -> (r: Vec<(String, CellStyle)>)
    ensures
        r@.map_values(|run: (String, CellStyle)| (run.0@, run.1)) == row_runs(
            screen_row(screen.height(), screen.width(), screen.fed(), row as int),
        ),
{
    let ghost cells = screen_row(screen.height(), screen.width(), screen.fed(), row as int);
    let mut runs: Vec<(String, CellStyle)> = Vec::new();
    let mut text = String::new();
    let mut current = CellStyle {
        foreground: CellColor::Default,
        background: CellColor::Default,
        bold: false,
        italic: false,
        underline: false,
        inverse: false,
    };
    let mut col: u16 = 0;
    let width = screen.columns();
    while col < width
        invariant
            width == screen.width(),
            col <= width,
            cells == screen_row(screen.height(), screen.width(), screen.fed(), row as int),
            (runs@.map_values(|run: (String, CellStyle)| (run.0@, run.1)), text@, current) == fold_cells(
                cells.take(col as int),
            ),
        decreases width - col,
    {
        let cell = screen_cell(screen, row, col);
        let ghost before = runs@.map_values(|run: (String, CellStyle)| (run.0@, run.1));
        proof {
            assert(cells.take(col + 1).drop_last() =~= cells.take(col as int));
            assert(cells.take(col + 1).last() == cells[col as int]);
            assert(cells[col as int] == cell_view(cell));
        }
        match cell {
            Some(c) => {
                if !c.wide_continuation {
                    if c.style != current && !text.as_str().is_empty() {
                        let done = text;
                        runs.push((done, current));
                        text = String::new();
                        proof {
                            assert(runs@.map_values(|run: (String, CellStyle)| (run.0@, run.1))
                                =~= before.push((done@, current)));
                        }
                    }
                    if !c.contents.as_str().is_empty() {
                        append_str(&mut text, c.contents.as_str());
                    } else {
                        append_str(&mut text, " ");
                        proof {
                            reveal_strlit(" ");
                            assert(" "@ =~= seq![' ']);
                        }
                    }
                    current = c.style;
                }
            },
            None => {},
        }
        col = col + 1;
    }
    proof {
        assert(cells.take(width as int) =~= cells);
    }
    if !text.as_str().is_empty() {
        let ghost before = runs@.map_values(|run: (String, CellStyle)| (run.0@, run.1));
        let t = text;
        runs.push((t, current));
        proof {
            assert(runs@.map_values(|run: (String, CellStyle)| (run.0@, run.1)) =~= before.push(
                (t@, current),
            ));
        }
    }
    runs
}

/// The text of terminal output `ansi` as a screen `rows` by `columns`
/// would show it, row by row, as runs of text in one style each. The
/// screen is at least two columns wide: on one column vt100 cannot place
/// a wide character.
pub fn styled_rows(ansi: &str, rows: u16, columns: u16) -> (r: Vec<Vec<(String, CellStyle)>>)
    requires
        rows > 0,
        columns >= 2,
    ensures
        runs_view(r@) == styled_screen(rows, columns, vstd::utf8::encode_utf8(ansi@)),
{
    let mut screen = new_screen(rows, columns);
    screen_process(&mut screen, ansi.as_bytes());
    proof {
        assert(screen.fed() =~= vstd::utf8::encode_utf8(ansi@));
    }
    let mut r: Vec<Vec<(String, CellStyle)>> = Vec::new();
    let mut row: u16 = 0;
    while row < rows
        invariant
            row <= rows,
            screen.height() == rows,
            screen.width() == columns,
            screen.fed() == vstd::utf8::encode_utf8(ansi@),
            r@.len() == row,
            forall|k: int|
                0 <= k < row ==> #[trigger] runs_view(r@)[k] == row_runs(
                    screen_row(rows, columns, vstd::utf8::encode_utf8(ansi@), k),
                ),
        decreases rows - row,
    {
        let runs = run_row(&screen, row);
        let ghost before = r@;
        proof {
            assert(runs@.map_values(|run: (String, CellStyle)| (run.0@, run.1)) == row_runs(
                screen_row(rows, columns, vstd::utf8::encode_utf8(ansi@), row as int),
            ));
        }
        r.push(runs);
        proof {
            assert forall|k: int| 0 <= k < row + 1 implies #[trigger] runs_view(r@)[k] == row_runs(
                screen_row(rows, columns, vstd::utf8::encode_utf8(ansi@), k),
            ) by {
                if k < row {
                    assert(r@[k] == before[k]);
                    assert(runs_view(r@)[k] == runs_view(before)[k]);
                } else {
                    assert(r@[k] == runs);
                    assert(runs_view(r@)[k] == runs@.map_values(
                        |run: (String, CellStyle)| (run.0@, run.1),
                    ));
                }
            }
        }
        row = row + 1;
    }
    proof {
        assert(runs_view(r@) =~= styled_screen(rows, columns, vstd::utf8::encode_utf8(ansi@)));
    }
    r
}

/// Position of the first newline byte of `s`, or its length when it has
/// none.
pub open spec fn line_end(s: Seq<u8>) -> int
    decreases s.len(),
{
    if s.len() == 0 {
        0
    } else if s[0] == 10u8 {
        0
    } else {
        1 + line_end(s.drop_first())
    }
}

proof fn lemma_line_end(s: Seq<u8>, c: int)
    requires
        0 <= c <= s.len(),
        forall|j: int| 0 <= j < c ==> s[j] != 10u8,
        c == s.len() || s[c] == 10u8,
    ensures
        line_end(s) == c,
    decreases c,
{
    if c > 0 {
        let t = s.drop_first();
        assert forall|j: int| 0 <= j < c - 1 implies t[j] != 10u8 by {
            assert(t[j] == s[j + 1]);
        }
        if c < s.len() {
            assert(t[c - 1] == s[c]);
        }
        lemma_line_end(t, c - 1);
    }
}

/// Why a line is refused when it grows longer than [`MAX_FRAME_LINE`].
pub open spec fn line_too_long() -> Seq<char> {
    "terminal frame exceeds 2097152 bytes"@
}

/// What one chunk of bytes from the stream does to the line being read.
#[derive(Debug, PartialEq, Eq)]
pub enum LineChunk {
    /// This many bytes, through the newline, end the line.
    Complete(usize),
    /// All these bytes belong to the line, which goes on.
    Partial(usize),
    /// Taking the bytes up to the newline would make the line longer
    /// than [`MAX_FRAME_LINE`]; the line is refused with this message.
    TooLong(String),
}

/// Adds the bytes of `available` up to and including its first newline
/// (all of them when it has none) to `output`, unless that would make
/// `output` longer than [`MAX_FRAME_LINE`]; says how many bytes it took
/// and whether they ended the line.
pub fn line_chunk(output: &mut Vec<u8>, available: &[u8]) -> (r: LineChunk)
    ensures
        ({
            let end = line_end(available@);
            let complete = end < available@.len();
            let taken = if complete {
                end + 1
            } else {
                end
            };
            if old(output)@.len() + taken > MAX_FRAME_LINE {
                r matches LineChunk::TooLong(m) && m@ == line_too_long() && final(output)@ == old(output)@
            } else {
                &&& final(output)@ == old(output)@ + available@.take(taken)
                &&& r == if complete {
                    LineChunk::Complete(taken as usize)
                } else {
                    LineChunk::Partial(taken as usize)
                }
            }
        }),
{
    let mut consumed: usize = 0;
    while consumed < available.len() && available[consumed] != 10u8
        invariant
            consumed <= available@.len(),
            forall|j: int| 0 <= j < consumed ==> available@[j] != 10u8,
        decreases available@.len() - consumed,
    {
        consumed = consumed + 1;
    }
    proof {
        lemma_line_end(available@, consumed as int);
    }
    let complete = consumed < available.len();
    if complete {
        consumed = consumed + 1;
    }
    if output.len() > MAX_FRAME_LINE || consumed > MAX_FRAME_LINE - output.len() {
        return LineChunk::TooLong("terminal frame exceeds 2097152 bytes".to_owned());
    }
    let ghost before = output@;
    let mut k: usize = 0;
    while k < consumed
        invariant
            k <= consumed,
            consumed <= available@.len(),
            output@ == before + available@.take(k as int),
        decreases consumed - k,
    {
        output.push(available[k]);
        proof {
            assert(available@.take(k + 1) =~= available@.take(k as int).push(available@[k as int]));
        }
        k = k + 1;
    }
    if complete {
        LineChunk::Complete(consumed)
    } else {
        LineChunk::Partial(consumed)
    }
}

/// Reads one line (through its newline, or to the end of the stream)
/// into `output`, refusing lines longer than [`MAX_FRAME_LINE`] before
/// buffering them. Returns the length of `output`. Each chunk the reader
/// hands out is taken as [`line_chunk`] says: a line that grows too long
/// is refused with its message; otherwise the line fails only when the
/// reader does.
pub fn read_limited_line<R: std::io::BufRead>(
    source: &mut LineSource<R>,
    output: &mut Vec<u8>,
) -> (r: Result<usize, String>)
    ensures
        final(output)@.len() >= old(output)@.len(),
        final(output)@.subrange(0, old(output)@.len() as int) == old(output)@,
        forall|i: int|
            old(output)@.len() <= i < final(output)@.len() - 1 ==> #[trigger] final(output)@[i]
                != 10u8,
        final(output)@.len() > old(output)@.len() ==> final(output)@.len() <= MAX_FRAME_LINE,
        r matches Ok(n) ==> n == final(output)@.len() && (final(source).ended() || (
        final(output)@.len() > old(output)@.len() && final(output)@.last() == 10u8)),
{
    let ghost start = output@;
    loop
        invariant
            start == old(output)@,
            output@.len() >= start.len(),
            output@.subrange(0, start.len() as int) == start,
            forall|i: int| start.len() <= i < output@.len() ==> #[trigger] output@[i] != 10u8,
            output@.len() > start.len() ==> output@.len() <= MAX_FRAME_LINE,
        decreases MAX_FRAME_LINE as int + 1 - output@.len(),
    {
        let available = match fill_available(source) {
            Ok(bytes) => bytes,
            Err(message) => return Err(message),
        };
        if available.len() == 0 {
            return Ok(output.len());
        }
        let ghost before = output@;
        let chunk = line_chunk(output, available.as_slice());
        proof {
            lemma_line_end_bound(available@);
            let end = line_end(available@);
            let taken = if end < available@.len() {
                end + 1
            } else {
                end
            };
            if !(chunk is TooLong) {
                assert(output@.subrange(0, start.len() as int) =~= start) by {
                    assert(before.subrange(0, start.len() as int) =~= start);
                }
                assert forall|j: int| 0 <= j < end implies available@[j] != 10u8 by {
                    lemma_line_before_end(available@, j);
                }
                assert forall|i: int|
                    start.len() <= i < output@.len() - 1 implies #[trigger] output@[i] != 10u8 by {
                    if i < before.len() {
                        assert(output@[i] == before[i]);
                    } else {
                        let t = available@.take(taken);
                        assert(output@ == before + t);
                        assert(output@[i] == t[i - before.len()]);
                        assert(t[i - before.len()] == available@[i - before.len()]);
                    }
                }
                if end < available@.len() {
                    lemma_line_end_at(available@);
                    let t = available@.take(taken);
                    assert(output@ == before + t);
                    assert(output@.last() == t[end]);
                    assert(output@.last() == 10u8);
                }
            }
            assert(taken >= 1) by {
                if end == available@.len() {
                    assert(available@.len() > 0);
                }
            }
        }
        match chunk {
            LineChunk::TooLong(message) => {
                return Err(message);
            },
            LineChunk::Complete(consumed) => {
                consume_bytes(source, consumed);
                return Ok(output.len());
            },
            LineChunk::Partial(consumed) => {
                consume_bytes(source, consumed);
            },
        }
    }
}

proof fn lemma_line_end_at(s: Seq<u8>)
    requires
        line_end(s) < s.len(),
    ensures
        s[line_end(s)] == 10u8,
    decreases s.len(),
{
    if s.len() > 0 && s[0] != 10u8 {
        lemma_line_end_bound(s.drop_first());
        assert(line_end(s) == 1 + line_end(s.drop_first()));
        lemma_line_end_at(s.drop_first());
        assert(s.drop_first()[line_end(s.drop_first())] == s[line_end(s)]);
    }
}

proof fn lemma_line_end_bound(s: Seq<u8>)
    ensures
        0 <= line_end(s) <= s.len(),
    decreases s.len(),
{
    if s.len() > 0 && s[0] != 10u8 {
        lemma_line_end_bound(s.drop_first());
    }
}

proof fn lemma_line_before_end(s: Seq<u8>, j: int)
    requires
        0 <= j < line_end(s),
    ensures
        s[j] != 10u8,
    decreases j,
{
    assert(s.len() > 0 && s[0] != 10u8);
    lemma_line_end_bound(s);
    if j > 0 {
        assert(line_end(s) == 1 + line_end(s.drop_first()));
        lemma_line_before_end(s.drop_first(), j - 1);
        assert(s.drop_first()[j - 1] == s[j]);
    }
}

/// One record of the live stream.
#[derive(Debug, Clone, PartialEq, Eq)]
pub struct Record {
    pub kind: String,
    pub bytes: Option<String>,
    pub full: bool,
    pub height: u16,
    pub sequence: u64,
    pub width: u16,
    pub encoding: Option<String>,
}

/// Why a record of the live stream is rejected, if it is, before its
/// bytes are decoded: the message of the first failed check.
pub open spec fn frame_rejection(
    frame: Record,
    last_sequence: Option<u64>,
    expected: Option<(u16, u16)>,
) -> Option<Seq<char>> {
    if !(frame.encoding matches Some(e) && e@ == "ansi"@) {
        Some("terminal frame encoding is not ANSI"@)
    } else if frame.width == 0 || frame.height == 0 {
        Some("terminal frame has zero dimensions"@)
    } else if frame.width < 2 {
        Some("terminal frame is narrower than two columns"@)
    } else if frame.width > MAX_FRAME_DIMENSION || frame.height > MAX_FRAME_DIMENSION
        || frame.width as int * frame.height as int > MAX_FRAME_CELLS as int {
        Some("terminal frame dimensions exceed preview limits"@)
    } else if expected matches Some(dims) && dims != (frame.width, frame.height) {
        Some("terminal frame dimensions do not match preview geometry"@)
    } else if last_sequence matches Some(s) && frame.sequence <= s {
        Some("terminal frame sequence did not advance"@)
    } else if !frame.full && !(last_sequence matches Some(s) && frame.sequence == s + 1) {
        Some("terminal frame sequence gap"@)
    } else {
        None
    }
}

/// The base64 text a record carries; empty when it carries none.
pub open spec fn frame_text(frame: Record) -> Seq<char> {
    match frame.bytes {
        Some(b) => b@,
        None => Seq::empty(),
    }
}

/// The screen after an accepted frame carrying `bytes`: a full frame
/// makes a new screen of its size fed just those bytes; an incremental
/// one feeds them to the screen there was.
pub open spec fn screen_after(before: Option<Screen>, frame: Record, bytes: Seq<u8>, after: Screen) -> bool {
    if frame.full {
        &&& after.height() == frame.height
        &&& after.width() == frame.width
        &&& after.fed() == bytes
    } else {
        &&& before matches Some(b)
        &&& after.height() == b.height()
        &&& after.width() == b.width()
        &&& after.fed() == b.fed() + bytes
    }
}

/// Whether `r` holds the formatted contents of `screen`.
pub open spec fn shows_screen(r: Result<Option<String>, String>, screen: Screen) -> bool {
    r matches Ok(Some(text)) && text@ == vt100_formatted(screen.height(), screen.width(), screen.fed())
}

/// Tracks the live stream: a full frame starts a new screen, each
/// incremental frame must follow the previous one directly.
pub struct StreamState {
    pub screen: Option<Screen>,
    pub last_sequence: Option<u64>,
    pub expected_dimensions: Option<(u16, u16)>,
}

impl StreamState {
    /// A stream that has accepted a frame has a screen.
    pub open spec fn well_formed(&self) -> bool {
        &&& self.last_sequence is Some ==> self.screen is Some
        &&& self.screen matches Some(screen) ==> screen.width() >= 2
    }

    /// A stream that has seen no frame, expecting frames of the given
    /// size (any size when `None`).
    pub fn new(expected_dimensions: Option<(u16, u16)>) -> (r: StreamState)
        ensures
            r.well_formed(),
            r.screen is None,
            r.last_sequence is None,
            r.expected_dimensions == expected_dimensions,
    {
        StreamState { screen: None, last_sequence: None, expected_dimensions }
    }

    /// Applies one record: records of other kinds are skipped
    /// (`Ok(None)`); frames are checked (encoding, size, sequence), then
    /// their bytes are decoded and fed to the screen, whose new contents
    /// are returned.
    pub fn apply(&mut self, frame: &Record) -> (r: Result<Option<String>, String>)
        requires
            old(self).well_formed(),
        ensures
            final(self).well_formed(),
            final(self).expected_dimensions == old(self).expected_dimensions,
            frame.kind@ != "terminal.frame"@ ==> r == Ok::<Option<String>, String>(None)
                && final(self).last_sequence == old(self).last_sequence,
            frame.kind@ == "terminal.frame"@ ==> match frame_rejection(
                *frame,
                old(self).last_sequence,
                old(self).expected_dimensions,
            ) {
                Some(message) => r matches Err(e) && e@ == message && final(self).last_sequence == old(
                    self,
                ).last_sequence,
                None => match base64_standard_decode(frame_text(*frame)) {
                    Ok(bytes) => {
                        &&& final(self).last_sequence == Some(frame.sequence)
                        &&& final(self).screen is Some
                        &&& screen_after(old(self).screen, *frame, bytes, final(self).screen.unwrap())
                        &&& shows_screen(r, final(self).screen.unwrap())
                    },
                    Err(message) => r matches Err(e) && e@ == message && final(self).last_sequence
                        == old(self).last_sequence,
                },
            },
    {
        if frame.kind != "terminal.frame".to_owned() {
            return Ok(None);
        }
        let ansi = match &frame.encoding {
            Some(e) => *e == "ansi".to_owned(),
            None => false,
        };
        if !ansi {
            return Err("terminal frame encoding is not ANSI".to_owned());
        }
        if frame.width == 0 || frame.height == 0 {
            return Err("terminal frame has zero dimensions".to_owned());
        }
        if frame.width < 2 {
            return Err("terminal frame is narrower than two columns".to_owned());
        }
        proof {
            let w = frame.width as int;
            let h = frame.height as int;
            assert(w * h <= 65535 * 65535) by (nonlinear_arith)
                requires
                    0 <= w <= 65535,
                    0 <= h <= 65535,
            ;
        }
        if frame.width > MAX_FRAME_DIMENSION || frame.height > MAX_FRAME_DIMENSION || (
        frame.width as u32) * (frame.height as u32) > MAX_FRAME_CELLS {
            return Err("terminal frame dimensions exceed preview limits".to_owned());
        }
        if let Some(expected) = self.expected_dimensions {
            if expected.0 != frame.width || expected.1 != frame.height {
                return Err("terminal frame dimensions do not match preview geometry".to_owned());
            }
        }
        if let Some(sequence) = self.last_sequence {
            if frame.sequence <= sequence {
                return Err("terminal frame sequence did not advance".to_owned());
            }
        }
        if !frame.full {
            let follows = match self.last_sequence {
                Some(sequence) => frame.sequence == sequence + 1,
                None => false,
            };
            if !follows {
                return Err("terminal frame sequence gap".to_owned());
            }
        }
        if frame.full {
            self.screen = Some(new_screen(frame.height, frame.width));
        }
        let decoded = if frame.bytes.is_some() {
            let text = frame.bytes.as_ref().unwrap();
            proof {
                assert(text@ == frame_text(*frame));
            }
            decode_base64(text.as_str())
        } else {
            proof {
                reveal_strlit("");
            }
            proof {
                assert(""@ == frame_text(*frame));
            }
            decode_base64("")
        };
        let bytes = match decoded {
            Ok(bytes) => bytes,
            Err(message) => return Err(message),
        };
        match &mut self.screen {
            Some(screen) => {
                screen_process(screen, bytes.as_slice());
            },
            None => {
                return Err("incremental frame before full frame".to_owned());
            },
        }
        self.last_sequence = Some(frame.sequence);
        match &self.screen {
            Some(screen) => Ok(Some(screen_text(screen))),
            None => Err("incremental frame before full frame".to_owned()),
        }
    }
}

} // verus!
