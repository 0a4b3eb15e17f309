//! The board: cells, nets, and which net owns the pad or the trace of a cell.

use vstd::prelude::*;
use crate::interface_types::{Color, ColorGrid, white};
use crate::table::{copy_table, is_table, new_table, table_fits};
use crate::text::{chars_of, lemma_scan_line, rows_of, scan_lines, split_lines, text_lines};

verus! {

/// A signal group. A board written as text names its nets by characters, a
/// board drawn as a picture by colours.
#[derive(Debug, Clone, Copy, PartialEq, Eq, Hash, PartialOrd, Ord, Structural)]
pub enum Net {
    Character { pad_c: char, route_c: char },
    Color { pad_color: Color, route_color: Color },
}

/// A cell of the board, by column `x` and row `y`.
#[derive(Debug, Clone, Copy, PartialEq, Eq, Hash, PartialOrd, Ord, Structural)]
pub struct Point {
    pub x: usize,
    pub y: usize,
}

impl Point {
    /// The order of points: by `x`, then by `y`.
    pub open spec fn spec_precedes(self, other: Point) -> bool {
        self.x < other.x || (self.x == other.x && self.y < other.y)
    }

    /// Whether `self` comes strictly before `other`.
    #[verifier::when_used_as_spec(spec_precedes)]
    pub fn precedes(self, other: Point) -> (b: bool)
        ensures
            b == self.spec_precedes(other),
    {
        self.x < other.x || (self.x == other.x && self.y < other.y)
    }
}

/// Two points without an order between them, kept with the smaller one first.
#[derive(Debug, Clone, Copy, PartialEq, Eq, Hash, PartialOrd, Ord, Structural)]
pub struct PointPair {
    start: Point,
    end: Point,
}

impl PointPair {
    pub closed spec fn spec_start(&self) -> Point {
        self.start
    }

    pub closed spec fn spec_end(&self) -> Point {
        self.end
    }

    /// The pair of `point1` and `point2`, whichever way round they are given.
    pub fn new(point1: Point, point2: Point) -> (pair: Self)
        ensures
            pair.spec_start() == (if point1.spec_precedes(point2) { point1 } else { point2 }),
            pair.spec_end() == (if point1.spec_precedes(point2) { point2 } else { point1 }),
    {
        if point1.precedes(point2) {
            PointPair { start: point1, end: point2 }
        } else {
            PointPair { start: point2, end: point1 }
        }
    }

    #[verifier::when_used_as_spec(spec_start)]
    pub fn start(&self) -> (p: Point)
        ensures
            p == self.spec_start(),
    {
        self.start
    }

    #[verifier::when_used_as_spec(spec_end)]
    pub fn end(&self) -> (p: Point)
        ensures
            p == self.spec_end(),
    {
        self.end
    }

    /// A pair is determined by its two ends.
    pub proof fn lemma_ends_determine(self, other: PointPair)
        ensures
            self.spec_start() == other.spec_start() && self.spec_end() == other.spec_end() ==> self
                == other,
    {
    }
}


/// Whether `p` occurs in `points`.
pub fn contains_point(points: &Vec<Point>, p: Point) -> (found: bool)
    ensures
        found == points@.contains(p),
{
    let mut i: usize = 0;
    while i < points.len()
        invariant
            i <= points.len(),
            forall|j: int| 0 <= j < i ==> points@[j] != p,
        decreases points.len() - i,
    {
        if points[i] == p {
            return true;
        }
        i += 1;
    }
    false
}

/// Whether some point occurs in both lists.
pub fn share_point(a: &Vec<Point>, b: &Vec<Point>) -> (found: bool)
    ensures
        found == (exists|p: Point| a@.contains(p) && b@.contains(p)),
{
    let mut i: usize = 0;
    while i < a.len()
        invariant
            i <= a.len(),
            forall|j: int| 0 <= j < i ==> !b@.contains(#[trigger] a@[j]),
        decreases a.len() - i,
    {
        if contains_point(b, a[i]) {
            return true;
        }
        i += 1;
    }
    false
}

/// Whether every point of `a` occurs in `b`.
pub fn points_within(a: &Vec<Point>, b: &Vec<Point>) -> (all: bool)
    ensures
        all == (forall|p: Point| a@.contains(p) ==> b@.contains(p)),
{
    let mut i: usize = 0;
    while i < a.len()
        invariant
            i <= a.len(),
            forall|j: int| 0 <= j < i ==> b@.contains(#[trigger] a@[j]),
        decreases a.len() - i,
    {
        if !contains_point(b, a[i]) {
            return false;
        }
        i += 1;
    }
    true
}


/// The net that owns cell `p` in a table of owners, if any does.
pub open spec fn owner_at(layer: Seq<Vec<Option<Net>>>, p: Point) -> Option<Net> {
    if p.y < layer.len() && p.x < layer[p.y as int]@.len() {
        layer[p.y as int]@[p.x as int]
    } else {
        None
    }
}

/// The cells that `net` owns.
pub open spec fn cells_of(layer: Seq<Vec<Option<Net>>>, net: Net) -> Set<Point> {
    Set::new(|p: Point| owner_at(layer, p) == Some(net))
}

/// The cells that nets other than `net` own.
pub open spec fn cells_except(layer: Seq<Vec<Option<Net>>>, net: Net) -> Set<Point> {
    Set::new(|p: Point| owner_at(layer, p) is Some && owner_at(layer, p) != Some(net))
}

/// The cells of a table of owners that nets other than `net` own, row by row.
pub fn layer_except(layer: &Vec<Vec<Option<Net>>>, net: &Net) -> (cells: Vec<Point>)
    ensures
        cells@.to_set() == cells_except(layer@, *net),
        cells@.no_duplicates(),
{
    let mut cells: Vec<Point> = Vec::new();
    let mut y: usize = 0;
    while y < layer.len()
        invariant
            y <= layer@.len(),
            forall|p: Point|
                cells@.contains(p) <==> (cells_except(layer@, *net).contains(p) && p.y < y),
            cells@.no_duplicates(),
        decreases layer@.len() - y,
    {
        let mut x: usize = 0;
        while x < layer[y].len()
            invariant
                y < layer@.len(),
                x <= layer@[y as int]@.len(),
                forall|p: Point|
                    cells@.contains(p) <==> (cells_except(layer@, *net).contains(p) && (p.y < y || (
                    p.y == y && p.x < x))),
                cells@.no_duplicates(),
            decreases layer@[y as int]@.len() - x,
        {
            let here = Point { x, y };
            let ghost before = cells@;
            let taken = match layer[y][x] {
                Some(owner) => owner != *net,
                None => false,
            };
            proof {
                assert(owner_at(layer@, here) == layer@[y as int]@[x as int]);
                assert(taken == cells_except(layer@, *net).contains(here));
                assert(!before.contains(here));
            }
            if taken {
                cells.push(here);
            }
            proof {
                assert forall|p: Point|
                    cells@.contains(p) <==> (cells_except(layer@, *net).contains(p) && (p.y < y || (
                    p.y == y && p.x < x + 1))) by {
                    let early = p.y < y || (p.y == y && p.x < x);
                    assert((p.y < y || (p.y == y && p.x < x + 1)) <==> (early || p == here));
                    assert(before.contains(p) <==> (cells_except(layer@, *net).contains(p) && early));
                    if taken {
                        assert(cells@ =~= before.push(here));
                        if before.contains(p) {
                            let j = choose|j: int| 0 <= j < before.len() && before[j] == p;
                            assert(cells@[j] == p);
                        }
                        if p == here {
                            assert(cells@[before.len() as int] == here);
                        }
                        if cells@.contains(p) {
                            let j = choose|j: int| 0 <= j < cells@.len() && cells@[j] == p;
                            if j < before.len() {
                                assert(before[j] == p);
                            }
                        }
                    }
                }
            }
            x += 1;
        }
        y += 1;
    }
    proof {
        assert(cells@.to_set() =~= cells_except(layer@, *net));
    }
    cells
}

/// The board with its pads and traces. Each table tells of every cell which
/// net owns it: a cell holds the pad of one net at most, and the trace of
/// one net at most.
#[derive(Debug, Clone)]
pub struct Grid {
    pub pads: Vec<Vec<Option<Net>>>,
    pub traces: Vec<Vec<Option<Net>>>,
    /// Owners of the 2×2 blocks that a trace crosses diagonally, each block
    /// at its top-left cell.
    pub diagonal_traces: Vec<Vec<Option<Net>>>,
    pub width: usize,
    pub height: usize,
}

impl Grid {
    /// Every table has one slot for each cell of the board.
    pub open spec fn wf(&self) -> bool {
        &&& is_table(self.pads@, self.width as nat, self.height as nat)
        &&& is_table(self.traces@, self.width as nat, self.height as nat)
        &&& is_table(self.diagonal_traces@, self.width as nat, self.height as nat)
    }

    pub open spec fn inside(&self, p: Point) -> bool {
        p.x < self.width && p.y < self.height
    }

    /// The net whose pad cell `p` holds.
    pub open spec fn pad_at(&self, p: Point) -> Option<Net> {
        owner_at(self.pads@, p)
    }

    /// The net whose trace runs through cell `p`.
    pub open spec fn trace_at(&self, p: Point) -> Option<Net> {
        owner_at(self.traces@, p)
    }

    /// The net whose trace crosses the block at `p` diagonally.
    pub open spec fn diagonal_trace_at(&self, p: Point) -> Option<Net> {
        owner_at(self.diagonal_traces@, p)
    }

    /// The pads of `net`.
    pub open spec fn pads_of(&self, net: Net) -> Set<Point> {
        cells_of(self.pads@, net)
    }

    /// The nets of the board, each with its pads: a net is on the board as
    /// long as it has a pad.
    pub open spec fn pad_map(&self) -> Map<Net, Set<Point>> {
        Map::new(|net: Net| exists|p: Point| self.pad_at(p) == Some(net), |net: Net| self.pads_of(net))
    }

    /// No cell holds a trace.
    pub open spec fn unrouted(&self) -> bool {
        &&& forall|p: Point| self.trace_at(p) is None
        &&& forall|p: Point| self.diagonal_trace_at(p) is None
    }

    /// An empty board.
    pub fn new(width: usize, height: usize) -> (grid: Self)
        ensures
            grid.wf(),
            grid.width == width,
            grid.height == height,
            forall|p: Point| grid.pad_at(p) is None,
            grid.unrouted(),
    {
        Grid {
            pads: new_table(width, height, None),
            traces: new_table(width, height, None),
            diagonal_traces: new_table(width, height, None),
            width,
            height,
        }
    }

    /// The pads of all nets but `net`.
    pub fn pads_except(&self, net: &Net) -> (cells: Vec<Point>)
        ensures
            cells@.to_set() == cells_except(self.pads@, *net),
            cells@.no_duplicates(),
    {
        layer_except(&self.pads, net)
    }

    /// The trace cells of all nets but `net`.
    pub fn routes_except(&self, net: &Net) -> (cells: Vec<Point>)
        ensures
            cells@.to_set() == cells_except(self.traces@, *net),
            cells@.no_duplicates(),
    {
        layer_except(&self.traces, net)
    }

    /// The blocks that traces of nets other than `net` cross diagonally.
    pub fn diagonal_routes_except(&self, net: &Net) -> (cells: Vec<Point>)
        ensures
            cells@.to_set() == cells_except(self.diagonal_traces@, *net),
            cells@.no_duplicates(),
    {
        layer_except(&self.diagonal_traces, net)
    }

    /// Takes the pad off cell `point`, whichever net it belongs to. A net
    /// that loses its last pad is on the board no longer.
    pub fn remove_pad(&mut self, point: Point)
        requires
            old(self).wf(),
        ensures
            final(self).wf(),
            final(self).width == old(self).width,
            final(self).height == old(self).height,
            final(self).traces == old(self).traces,
            final(self).diagonal_traces == old(self).diagonal_traces,
            forall|p: Point|
                final(self).pad_at(p) == if p == point {
                    None
                } else {
                    old(self).pad_at(p)
                },
    {
        if point.x < self.width && point.y < self.height {
            self.pads[point.y][point.x] = None;
        }
    }

    /// Makes cell `point` a pad of `net`, whatever it held before.
    pub fn insert_pad(&mut self, net: Net, point: Point)
        requires
            old(self).wf(),
            old(self).inside(point),
        ensures
            final(self).wf(),
            final(self).width == old(self).width,
            final(self).height == old(self).height,
            final(self).traces == old(self).traces,
            final(self).diagonal_traces == old(self).diagonal_traces,
            forall|p: Point|
                final(self).pad_at(p) == if p == point {
                    Some(net)
                } else {
                    old(self).pad_at(p)
                },
    {
        self.pads[point.y][point.x] = Some(net);
    }

    /// Every net of the board is named by colours.
    pub open spec fn colored(&self) -> bool {
        &&& forall|p: Point| self.pad_at(p) is Some ==> self.pad_at(p).unwrap() is Color
        &&& forall|p: Point| self.trace_at(p) is Some ==> self.trace_at(p).unwrap() is Color
    }

    /// The colour of cell `p` in the picture of the board: the route colour
    /// of the trace through it, else the pad colour of its pad, else white.
    pub open spec fn cell_color(&self, p: Point) -> Color {
        match self.trace_at(p) {
            Some(Net::Color { pad_color, route_color }) => route_color,
            _ => match self.pad_at(p) {
                Some(Net::Color { pad_color, route_color }) => pad_color,
                _ => white(),
            },
        }
    }

    /// The picture of the board.
    pub fn to_color_grid(&self) -> (picture: ColorGrid)
        requires
            self.wf(),
            self.colored(),
        ensures
            is_table(picture.grid@, self.width as nat, self.height as nat),
            forall|p: Point|
                self.inside(p) ==> picture.grid@[p.y as int]@[p.x as int] == #[trigger] self.cell_color(p),
    {
        let mut grid: Vec<Vec<Color>> = Vec::new();
        let mut y: usize = 0;
        while y < self.height
            invariant
                y <= self.height,
                self.wf(),
                self.colored(),
                is_table(grid@, self.width as nat, y as nat),
                forall|p: Point|
                    p.x < self.width && p.y < y ==> grid@[p.y as int]@[p.x as int]
                        == #[trigger] self.cell_color(p),
            decreases self.height - y,
        {
            let mut row: Vec<Color> = Vec::new();
            let mut x: usize = 0;
            while x < self.width
                invariant
                    x <= self.width,
                    y < self.height,
                    self.wf(),
                    self.colored(),
                    row@.len() == x,
                    forall|i: int|
                        0 <= i < x ==> row@[i] == self.cell_color(Point { x: i as usize, y }),
                decreases self.width - x,
            {
                let ghost here = Point { x, y };
                let pad = match self.pads[y][x] {
                    Some(Net::Color { pad_color, route_color }) => pad_color,
                    _ => Color { r: 255, g: 255, b: 255 },
                };
                let color = match self.traces[y][x] {
                    Some(Net::Color { pad_color, route_color }) => route_color,
                    _ => pad,
                };
                proof {
                    assert(self.pad_at(here) == self.pads@[y as int]@[x as int]);
                    assert(self.trace_at(here) == self.traces@[y as int]@[x as int]);
                    assert(self.trace_at(here) is Some ==> self.trace_at(here).unwrap() is Color);
                    assert(color == self.cell_color(here));
                }
                row.push(color);
                x += 1;
            }
            grid.push(row);
            proof {
                assert forall|p: Point| p.x < self.width && p.y < y + 1 implies grid@[p.y as int]@[p.x as int]
                    == #[trigger] self.cell_color(p) by {
                    if p.y == y {
                        assert(p == Point { x: p.x, y });
                    }
                }
            }
            y += 1;
        }
        ColorGrid { grid }
    }
}


/// The number of bytes that a character takes in a string.
pub open spec fn utf8_len(c: char) -> nat {
    if (c as u32) < 0x80 {
        1
    } else if (c as u32) < 0x800 {
        2
    } else if (c as u32) < 0x10000 {
        3
    } else {
        4
    }
}

/// The number of bytes that a line takes in a string.
pub open spec fn byte_len(line: Seq<char>) -> nat
    decreases line.len(),
{
    if line.len() == 0 {
        0
    } else {
        byte_len(line.drop_last()) + utf8_len(line.last())
    }
}

/// The lower-case letter of an upper-case letter of ASCII; any other
/// character as it is.
pub open spec fn ascii_lower(c: char) -> char {
    if 'A' <= c && c <= 'Z' {
        ((c as u8) + 32) as char
    } else {
        c
    }
}

/// The lower-case letter of an upper-case letter of ASCII; any other
/// character as it is.
pub fn to_ascii_lower(c: char) -> (lower: char)
    ensures
        lower == ascii_lower(c),
{
    if c >= 'A' && c <= 'Z' {
        ((c as u8) + 32) as char
    } else {
        c
    }
}

/// A character that stands for a pad in the text of a board.
pub open spec fn is_pad_char(c: char) -> bool {
    c != ' ' && c != '#'
}

/// The net that a character of the text of a board stands for.
pub open spec fn net_of_char(c: char) -> Net {
    Net::Character { pad_c: c, route_c: ascii_lower(c) }
}

/// The width of the board that the lines describe: the first line is a wall
/// that is two bytes longer than the board is wide.
pub open spec fn text_width(lines: Seq<Seq<char>>) -> int {
    byte_len(lines[0]) - 2
}

/// The height of the board that the lines describe: all lines but the two walls.
pub open spec fn text_height(lines: Seq<Seq<char>>) -> int {
    lines.len() - 2
}

/// The pad of cell `p` on the board that the lines describe. Row `y` of the
/// board is line `y + 1`, and column `x` is character `x + 1` of that line.
pub open spec fn text_pad(lines: Seq<Seq<char>>, p: Point) -> Option<Net> {
    if p.y + 2 < lines.len() && p.x + 1 < lines[p.y + 1].len() && is_pad_char(lines[p.y + 1][p.x + 1]) {
        Some(net_of_char(lines[p.y + 1][p.x + 1]))
    } else {
        None
    }
}

/// The lines describe a board: two walls with a row between them at least,
/// and each pad in a column of the board.
pub open spec fn is_board_text(lines: Seq<Seq<char>>) -> bool {
    &&& lines.len() >= 3
    &&& 2 <= byte_len(lines[0]) <= usize::MAX
    &&& forall|y: int, x: int|
        1 <= y < lines.len() - 1 && 0 <= x < lines[y].len() && is_pad_char(#[trigger] lines[y][x]) ==> 1
            <= x <= text_width(lines)
}

/// A wall of `#` for a board of the given width.
pub open spec fn wall_text(width: nat) -> Seq<char> {
    Seq::new(width + 2, |i: int| '#')
}

/// A row of the board between two `#`, with a line feed after it.
pub open spec fn row_text(row: Seq<char>) -> Seq<char> {
    seq!['#'] + row + seq!['#', '\n']
}

/// The rows of a board, one line each.
pub open spec fn rows_text(rows: Seq<Seq<char>>) -> Seq<char>
    decreases rows.len(),
{
    if rows.len() == 0 {
        Seq::empty()
    } else {
        rows_text(rows.drop_last()) + row_text(rows.last())
    }
}

/// The text of a board: a wall, the rows, and a wall, one line each. The
/// walls are as wide as the first row.
pub open spec fn board_text(rows: Seq<Seq<char>>) -> Seq<char> {
    wall_text(rows[0].len()) + seq!['\n'] + rows_text(rows) + wall_text(rows[0].len()) + seq!['\n']
}

/// The number of bytes of a line, if it can be counted.
fn byte_length(line: &Vec<char>) -> (n: Option<usize>)
    ensures
        match n {
            Some(n) => n == byte_len(line@),
            None => byte_len(line@) > usize::MAX,
        },
{
    let mut n: usize = 0;
    let mut i: usize = 0;
    assert(line@.take(0) =~= Seq::<char>::empty());
    while i < line.len()
        invariant
            i <= line@.len(),
            n == byte_len(line@.take(i as int)),
        decreases line@.len() - i,
    {
        let c = line[i];
        let code = c as u32;
        let k: usize = if code < 0x80 {
            1
        } else if code < 0x800 {
            2
        } else if code < 0x10000 {
            3
        } else {
            4
        };
        proof {
            assert(line@.take(i + 1).drop_last() =~= line@.take(i as int));
            assert(line@.take(i + 1).last() == c);
            assert(k == utf8_len(c));
        }
        if k > usize::MAX - n {
            proof {
                lemma_byte_len_grows(line@, i + 1);
            }
            return None;
        }
        n += k;
        i += 1;
    }
    proof {
        assert(line@.take(line@.len() as int) =~= line@);
    }
    Some(n)
}

/// A part of a line takes no more bytes than the line.
proof fn lemma_byte_len_grows(line: Seq<char>, n: int)
    requires
        0 <= n <= line.len(),
    ensures
        byte_len(line.take(n)) <= byte_len(line),
    decreases line.len() - n,
{
    if n < line.len() {
        lemma_byte_len_grows(line, n + 1);
        assert(line.take(n + 1).drop_last() =~= line.take(n));
    } else {
        assert(line.take(n) =~= line);
    }
}

impl Grid {
    /// Every net of the board is named by characters.
    pub open spec fn textual(&self) -> bool {
        &&& forall|p: Point| self.pad_at(p) is Some ==> self.pad_at(p).unwrap() is Character
        &&& forall|p: Point| self.trace_at(p) is Some ==> self.trace_at(p).unwrap() is Character
    }

    /// The character of cell `p` in the text of the board: the route
    /// character of the trace through it, else the pad character of its pad,
    /// else a blank.
    pub open spec fn cell_char(&self, p: Point) -> char {
        match self.trace_at(p) {
            Some(Net::Character { pad_c, route_c }) => route_c,
            _ => match self.pad_at(p) {
                Some(Net::Character { pad_c, route_c }) => pad_c,
                _ => ' ',
            },
        }
    }

    /// The characters of the cells of the board, row by row.
    pub open spec fn char_rows(&self) -> Seq<Seq<char>> {
        Seq::new(
            self.height as nat,
            |y: int| Seq::new(self.width as nat, |x: int| self.cell_char(Point { x: x as usize, y: y as usize })),
        )
    }

    /// The characters of the cells of the board, row by row.
    pub fn to_char_matrix(&self) -> (rows: Vec<Vec<char>>)
        requires
            self.wf(),
            self.textual(),
        ensures
            rows_of(rows@) == self.char_rows(),
    {
        let mut rows: Vec<Vec<char>> = Vec::new();
        let mut y: usize = 0;
        while y < self.height
            invariant
                y <= self.height,
                self.wf(),
                self.textual(),
                is_table(rows@, self.width as nat, y as nat),
                forall|p: Point|
                    p.x < self.width && p.y < y ==> rows@[p.y as int]@[p.x as int]
                        == #[trigger] self.cell_char(p),
            decreases self.height - y,
        {
            let mut row: Vec<char> = Vec::new();
            let mut x: usize = 0;
            while x < self.width
                invariant
                    x <= self.width,
                    y < self.height,
                    self.wf(),
                    self.textual(),
                    row@.len() == x,
                    forall|i: int|
                        0 <= i < x ==> row@[i] == self.cell_char(Point { x: i as usize, y }),
                decreases self.width - x,
            {
                let ghost here = Point { x, y };
                let pad = match self.pads[y][x] {
                    Some(Net::Character { pad_c, route_c }) => pad_c,
                    _ => ' ',
                };
                let c = match self.traces[y][x] {
                    Some(Net::Character { pad_c, route_c }) => route_c,
                    _ => pad,
                };
                proof {
                    assert(self.pad_at(here) == self.pads@[y as int]@[x as int]);
                    assert(self.trace_at(here) == self.traces@[y as int]@[x as int]);
                    assert(self.trace_at(here) is Some ==> self.trace_at(here).unwrap() is Character);
                    assert(c == self.cell_char(here));
                }
                row.push(c);
                x += 1;
            }
            rows.push(row);
            proof {
                assert forall|p: Point| p.x < self.width && p.y < y + 1 implies rows@[p.y as int]@[p.x as int]
                    == #[trigger] self.cell_char(p) by {
                    if p.y == y {
                        assert(p == Point { x: p.x, y });
                    }
                }
            }
            y += 1;
        }
        proof {
            let wanted = self.char_rows();
            assert(rows_of(rows@).len() == wanted.len());
            assert forall|j: int| 0 <= j < wanted.len() implies rows_of(rows@)[j] == wanted[j] by {
                assert(rows@[j]@.len() == self.width);
                assert forall|i: int| 0 <= i < self.width implies rows@[j]@[i] == wanted[j][i] by {
                    let p = Point { x: i as usize, y: j as usize };
                    assert(rows@[p.y as int]@[p.x as int] == self.cell_char(p));
                }
                assert(rows@[j]@ =~= wanted[j]);
            }
            assert(rows_of(rows@) =~= wanted);
        }
        rows
    }

    /// The text of a board from the characters of its cells.
    pub fn build_grid_string(char_matrix: &Vec<Vec<char>>) -> (text: String)
        requires
            char_matrix@.len() >= 1,
        ensures
            text@ == board_text(rows_of(char_matrix@)),
    {
        let width = char_matrix[0].len();
        let mut wall: Vec<char> = Vec::new();
        wall.push('#');
        wall.push('#');
        let mut i: usize = 0;
        while i < width
            invariant
                i <= width,
                wall@.len() == i + 2,
                forall|j: int| 0 <= j < wall@.len() ==> wall@[j] == '#',
            decreases width - i,
        {
            wall.push('#');
            i += 1;
        }
        assert(wall@ =~= wall_text(width as nat));
        let mut text = String::new();
        push_chars(&mut text, &wall);
        text.push('\n');
        let ghost head = text@;
        let ghost rows = rows_of(char_matrix@);
        let mut y: usize = 0;
        assert(rows.take(0) =~= Seq::<Seq<char>>::empty());
        assert(text@ =~= head + rows_text(rows.take(0)));
        while y < char_matrix.len()
            invariant
                y <= char_matrix@.len(),
                rows == rows_of(char_matrix@),
                text@ == head + rows_text(rows.take(y as int)),
            decreases char_matrix@.len() - y,
        {
            let ghost before = text@;
            text.push('#');
            push_chars(&mut text, &char_matrix[y]);
            text.push('#');
            text.push('\n');
            proof {
                let part = rows.take(y + 1);
                assert(part.drop_last() =~= rows.take(y as int));
                assert(part.last() == char_matrix@[y as int]@);
                assert(text@ =~= before + row_text(char_matrix@[y as int]@));
                assert(text@ =~= head + rows_text(part));
            }
            y += 1;
        }
        proof {
            assert(rows.take(char_matrix@.len() as int) =~= rows);
            assert(rows[0] == char_matrix@[0]@);
        }
        push_chars(&mut text, &wall);
        text.push('\n');
        assert(text@ =~= board_text(rows));
        text
    }

    /// The text of the board.
    pub open spec fn text(&self) -> Seq<char> {
        board_text(self.char_rows())
    }

    /// The board as text: a wall of `#`, one line for each row between two
    /// `#`, and a wall again.
    pub fn to_string(&self) -> (text: String)
        requires
            self.wf(),
            self.textual(),
            self.height >= 1,
        ensures
            text@ == self.text(),
    {
        let char_matrix = self.to_char_matrix();
        assert(rows_of(char_matrix@).len() == self.char_rows().len());
        Self::build_grid_string(&char_matrix)
    }

    /// The text describes a board.
    pub open spec fn parses(s: Seq<char>) -> bool {
        is_board_text(text_lines(s))
    }

    /// `self` is the board that the lines describe, without a trace.
    pub open spec fn read_from(&self, lines: Seq<Seq<char>>) -> bool {
        &&& self.wf()
        &&& self.width == text_width(lines)
        &&& self.height == text_height(lines)
        &&& self.unrouted()
        &&& forall|p: Point| self.pad_at(p) == text_pad(lines, p)
    }

    /// Reads a board from its text, if the text describes one.
    pub fn parse(s: &str) -> (grid: Option<Grid>)
        ensures
            grid is Some <==> Self::parses(s@),
            grid is Some ==> grid.unwrap().read_from(text_lines(s@)),
    {
        let chars = chars_of(s);
        let lines = split_lines(&chars);
        let ghost rows = text_lines(s@);
        proof {
            assert(rows_of(lines@) == rows);
            assert(rows.len() == lines@.len());
            assert forall|y: int| 0 <= y < lines@.len() implies rows[y] == (#[trigger] lines@[y])@ by {
                assert(rows_of(lines@)[y] == lines@[y]@);
            }
        }
        if lines.len() < 3 {
            return None;
        }
        assert(rows[0] == lines@[0]@);
        let width = match byte_length(&lines[0]) {
            Some(n) => {
                if n < 2 {
                    return None;
                }
                n - 2
            },
            None => {
                return None;
            },
        };
        let height = lines.len() - 2;
        let mut grid = Grid::new(width, height);
        let mut y: usize = 0;
        while y < height
            invariant
                y <= height,
                height == lines@.len() - 2,
                rows == text_lines(s@),
                width == text_width(rows),
                rows.len() == lines@.len(),
                forall|j: int| 0 <= j < lines@.len() ==> rows[j] == (#[trigger] lines@[j])@,
                grid.wf(),
                grid.width == width,
                grid.height == height,
                grid.unrouted(),
                forall|p: Point|
                    grid.pad_at(p) == if p.y < y {
                        text_pad(rows, p)
                    } else {
                        None
                    },
                forall|j: int, x: int|
                    1 <= j < y + 1 && 0 <= x < rows[j].len() && is_pad_char(#[trigger] rows[j][x]) ==> 1
                        <= x <= width,
            decreases height - y,
        {
            let line = &lines[y + 1];
            assert(rows[y + 1] == line@);
            let mut x: usize = 0;
            while x < line.len()
                invariant
                    x <= line@.len(),
                    y < height,
                    height == lines@.len() - 2,
                    rows.len() == lines@.len(),
                    rows[y + 1] == line@,
                    rows == text_lines(s@),
                    width == text_width(rows),
                    grid.wf(),
                    grid.width == width,
                    grid.height == height,
                    grid.unrouted(),
                    forall|p: Point|
                        grid.pad_at(p) == if p.y < y || (p.y == y && p.x + 1 < x) {
                            text_pad(rows, p)
                        } else {
                            None
                        },
                    forall|i: int| 0 <= i < x && is_pad_char(#[trigger] line@[i]) ==> 1 <= i <= width,
                decreases line@.len() - x,
            {
                let c = line[x];
                if c != ' ' && c != '#' {
                    if x == 0 || x - 1 >= width {
                        proof {
                            let j = y + 1;
                            assert(is_pad_char(rows[j][x as int]));
                            if is_board_text(rows) {
                                assert(1 <= j < rows.len() - 1);
                                assert(0 <= x < rows[j].len());
                                assert(1 <= x <= text_width(rows));
                            }
                        }
                        return None;
                    }
                    let net = Net::Character { pad_c: c, route_c: to_ascii_lower(c) };
                    let here = Point { x: x - 1, y };
                    let ghost before = grid;
                    grid.insert_pad(net, here);
                    assert forall|p: Point| grid.trace_at(p) is None by {
                        assert(before.trace_at(p) is None);
                    }
                    assert forall|p: Point| grid.diagonal_trace_at(p) is None by {
                        assert(before.diagonal_trace_at(p) is None);
                    }
                    assert(text_pad(rows, here) == Some(net));
                } else {
                    assert(x >= 1 ==> text_pad(rows, Point { x: (x - 1) as usize, y }) is None);
                }
                assert forall|p: Point|
                    grid.pad_at(p) == if p.y < y || (p.y == y && p.x + 1 < x + 1) {
                        text_pad(rows, p)
                    } else {
                        None
                    } by {
                    if p.y == y && p.x + 1 == x {
                        assert(p == Point { x: (x - 1) as usize, y });
                    }
                }
                x += 1;
            }
            assert forall|p: Point|
                grid.pad_at(p) == if p.y < y + 1 {
                    text_pad(rows, p)
                } else {
                    None
                } by {
                if p.y == y && !(p.x + 1 < line@.len()) {
                    assert(text_pad(rows, p) is None);
                }
            }
            y += 1;
        }
        proof {
            assert forall|p: Point| grid.pad_at(p) == text_pad(rows, p) by {
                if p.y >= height {
                    assert(text_pad(rows, p) is None);
                }
            }
        }
        Some(grid)
    }

    /// Reads a board from its text. The board has the pads of the text and
    /// no trace.
    pub fn from_string(s: &str) -> (grid: Grid)
        requires
            Self::parses(s@),
        ensures
            grid.read_from(text_lines(s@)),
    {
        match Self::parse(s) {
            Some(grid) => grid,
            None => Grid::new(0, 0),
        }
    }
}

/// Appends the characters to the string.
fn push_chars(text: &mut String, chars: &Vec<char>)
    ensures
        final(text)@ == old(text)@ + chars@,
{
    let mut i: usize = 0;
    assert(text@ =~= old(text)@ + chars@.take(0));
    while i < chars.len()
        invariant
            i <= chars@.len(),
            text@ == old(text)@ + chars@.take(i as int),
        decreases chars@.len() - i,
    {
        text.push(chars[i]);
        assert(chars@.take(i + 1) =~= chars@.take(i as int).push(chars@[i as int]));
        assert(text@ =~= old(text)@ + chars@.take(i + 1));
        i += 1;
    }
    assert(chars@.take(chars@.len() as int) =~= chars@);
}


/// The cells of a table of owners that `net` owns, row by row.
pub fn layer_of(layer: &Vec<Vec<Option<Net>>>, net: &Net) -> (cells: Vec<Point>)
    ensures
        cells@.to_set() == cells_of(layer@, *net),
        cells@.no_duplicates(),
{
    let mut cells: Vec<Point> = Vec::new();
    let mut y: usize = 0;
    while y < layer.len()
        invariant
            y <= layer@.len(),
            forall|p: Point| cells@.contains(p) <==> (cells_of(layer@, *net).contains(p) && p.y < y),
            cells@.no_duplicates(),
        decreases layer@.len() - y,
    {
        let mut x: usize = 0;
        while x < layer[y].len()
            invariant
                y < layer@.len(),
                x <= layer@[y as int]@.len(),
                forall|p: Point|
                    cells@.contains(p) <==> (cells_of(layer@, *net).contains(p) && (p.y < y || (p.y == y
                        && p.x < x))),
                cells@.no_duplicates(),
            decreases layer@[y as int]@.len() - x,
        {
            let here = Point { x, y };
            let ghost before = cells@;
            let taken = match layer[y][x] {
                Some(owner) => owner == *net,
                None => false,
            };
            proof {
                assert(owner_at(layer@, here) == layer@[y as int]@[x as int]);
                assert(taken == cells_of(layer@, *net).contains(here));
                assert(!before.contains(here));
            }
            if taken {
                cells.push(here);
            }
            proof {
                assert forall|p: Point|
                    cells@.contains(p) <==> (cells_of(layer@, *net).contains(p) && (p.y < y || (p.y == y
                        && p.x < x + 1))) by {
                    let early = p.y < y || (p.y == y && p.x < x);
                    assert((p.y < y || (p.y == y && p.x < x + 1)) <==> (early || p == here));
                    assert(before.contains(p) <==> (cells_of(layer@, *net).contains(p) && early));
                    if taken {
                        assert(cells@ =~= before.push(here));
                        if before.contains(p) {
                            let j = choose|j: int| 0 <= j < before.len() && before[j] == p;
                            assert(cells@[j] == p);
                        }
                        if p == here {
                            assert(cells@[before.len() as int] == here);
                        }
                        if cells@.contains(p) {
                            let j = choose|j: int| 0 <= j < cells@.len() && cells@[j] == p;
                            if j < before.len() {
                                assert(before[j] == p);
                            }
                        }
                    }
                }
            }
            x += 1;
        }
        y += 1;
    }
    proof {
        assert(cells@.to_set() =~= cells_of(layer@, *net));
    }
    cells
}

/// Whether `net` occurs in `nets`.
pub fn contains_net(nets: &Vec<Net>, net: Net) -> (found: bool)
    ensures
        found == nets@.contains(net),
{
    let mut i: usize = 0;
    while i < nets.len()
        invariant
            i <= nets@.len(),
            forall|j: int| 0 <= j < i ==> nets@[j] != net,
        decreases nets@.len() - i,
    {
        if nets[i] == net {
            return true;
        }
        i += 1;
    }
    false
}

/// The nets that own a cell of the table, each once, in the order in which
/// the rows show them first.
pub fn layer_nets(layer: &Vec<Vec<Option<Net>>>) -> (nets: Vec<Net>)
    ensures
        nets@.no_duplicates(),
        forall|net: Net| nets@.contains(net) <==> exists|p: Point| owner_at(layer@, p) == Some(net),
{
    let mut nets: Vec<Net> = Vec::new();
    let mut y: usize = 0;
    while y < layer.len()
        invariant
            y <= layer@.len(),
            nets@.no_duplicates(),
            forall|net: Net|
                nets@.contains(net) <==> exists|p: Point| owner_at(layer@, p) == Some(net) && p.y < y,
        decreases layer@.len() - y,
    {
        let mut x: usize = 0;
        while x < layer[y].len()
            invariant
                y < layer@.len(),
                x <= layer@[y as int]@.len(),
                nets@.no_duplicates(),
                forall|net: Net|
                    nets@.contains(net) <==> exists|p: Point|
                        owner_at(layer@, p) == Some(net) && (p.y < y || (p.y == y && p.x < x)),
            decreases layer@[y as int]@.len() - x,
        {
            let ghost here = Point { x, y };
            let ghost before = nets@;
            proof {
                assert(owner_at(layer@, here) == layer@[y as int]@[x as int]);
            }
            match layer[y][x] {
                Some(owner) => {
                    if !contains_net(&nets, owner) {
                        nets.push(owner);
                        proof {
                            assert(nets@ =~= before.push(owner));
                            assert(nets@[before.len() as int] == owner);
                        }
                    }
                },
                None => {},
            }
            proof {
                assert forall|net: Net|
                    nets@.contains(net) <==> exists|p: Point|
                        owner_at(layer@, p) == Some(net) && (p.y < y || (p.y == y && p.x < x + 1)) by {
                    if before.contains(net) {
                        let j = choose|j: int| 0 <= j < before.len() && before[j] == net;
                        assert(nets@[j] == net);
                        let p = choose|p: Point|
                            owner_at(layer@, p) == Some(net) && (p.y < y || (p.y == y && p.x < x));
                        assert(owner_at(layer@, p) == Some(net) && (p.y < y || (p.y == y && p.x < x + 1)));
                    }
                    if owner_at(layer@, here) == Some(net) {
                        assert(nets@.contains(net));
                        assert(owner_at(layer@, here) == Some(net) && (here.y < y || (here.y == y
                            && here.x < x + 1)));
                    }
                    if nets@.contains(net) && !before.contains(net) {
                        let j = choose|j: int| 0 <= j < nets@.len() && nets@[j] == net;
                        if j < before.len() {
                            assert(before[j] == net);
                        }
                        assert(owner_at(layer@, here) == Some(net));
                    }
                    if exists|p: Point|
                        owner_at(layer@, p) == Some(net) && (p.y < y || (p.y == y && p.x < x + 1)) {
                        let p = choose|p: Point|
                            owner_at(layer@, p) == Some(net) && (p.y < y || (p.y == y && p.x < x + 1));
                        if p != here {
                            assert(owner_at(layer@, p) == Some(net) && (p.y < y || (p.y == y && p.x < x)));
                            assert(before.contains(net));
                        }
                    }
                }
            }
            x += 1;
        }
        y += 1;
    }
    proof {
        assert forall|net: Net|
            nets@.contains(net) <==> exists|p: Point| owner_at(layer@, p) == Some(net) by {
            if exists|p: Point| owner_at(layer@, p) == Some(net) {
                let p = choose|p: Point| owner_at(layer@, p) == Some(net);
                assert(owner_at(layer@, p) == Some(net) && p.y < y);
            }
            if nets@.contains(net) {
                let p = choose|p: Point| owner_at(layer@, p) == Some(net) && p.y < y;
                assert(owner_at(layer@, p) == Some(net));
            }
        }
    }
    nets
}


impl Color {
    /// The order of colours: by red, then green, then blue.
    pub open spec fn spec_precedes(self, other: Color) -> bool {
        self.r < other.r || (self.r == other.r && (self.g < other.g || (self.g == other.g && self.b
            < other.b)))
    }

    /// Whether `self` comes strictly before `other`.
    #[verifier::when_used_as_spec(spec_precedes)]
    pub fn precedes(self, other: Color) -> (b: bool)
        ensures
            b == self.spec_precedes(other),
    {
        self.r < other.r || (self.r == other.r && (self.g < other.g || (self.g == other.g && self.b
            < other.b)))
    }
}

impl Net {
    /// The order of nets: those named by characters come before those named
    /// by colours; among the first the pad character decides, then the route
    /// character; among the second the pad colour, then the route colour.
    pub open spec fn spec_precedes(self, other: Net) -> bool {
        match (self, other) {
            (Net::Character { pad_c: p1, route_c: r1 }, Net::Character { pad_c: p2, route_c: r2 }) => {
                p1 < p2 || (p1 == p2 && r1 < r2)
            },
            (Net::Character { .. }, Net::Color { .. }) => true,
            (Net::Color { .. }, Net::Character { .. }) => false,
            (Net::Color { pad_color: p1, route_color: r1 }, Net::Color { pad_color: p2, route_color: r2 }) => {
                p1.spec_precedes(p2) || (p1 == p2 && r1.spec_precedes(r2))
            },
        }
    }

    /// Whether `self` comes strictly before `other`.
    #[verifier::when_used_as_spec(spec_precedes)]
    pub fn precedes(self, other: Net) -> (b: bool)
        ensures
            b == self.spec_precedes(other),
    {
        match (self, other) {
            (Net::Character { pad_c: p1, route_c: r1 }, Net::Character { pad_c: p2, route_c: r2 }) => {
                p1 < p2 || (p1 == p2 && r1 < r2)
            },
            (Net::Character { .. }, Net::Color { .. }) => true,
            (Net::Color { .. }, Net::Character { .. }) => false,
            (Net::Color { pad_color: p1, route_color: r1 }, Net::Color { pad_color: p2, route_color: r2 }) => {
                p1.precedes(p2) || (p1 == p2 && r1.precedes(r2))
            },
        }
    }
}

impl PointPair {
    /// The order of pairs: by the first point, then by the second.
    pub open spec fn spec_precedes(self, other: PointPair) -> bool {
        self.spec_start().spec_precedes(other.spec_start()) || (self.spec_start() == other.spec_start()
            && self.spec_end().spec_precedes(other.spec_end()))
    }

    /// Whether `self` comes strictly before `other`.
    #[verifier::when_used_as_spec(spec_precedes)]
    pub fn precedes(self, other: PointPair) -> (b: bool)
        ensures
            b == self.spec_precedes(other),
    {
        self.start.precedes(other.start) || (self.start == other.start && self.end.precedes(other.end))
    }
}


/// Two tables of owners give every cell the same owner.
pub proof fn lemma_same_owners(a: Seq<Vec<Option<Net>>>, b: Seq<Vec<Option<Net>>>)
    requires
        a.len() == b.len(),
        forall|y: int| 0 <= y < a.len() ==> (#[trigger] a[y])@ == b[y]@,
    ensures
        forall|p: Point| owner_at(a, p) == owner_at(b, p),
{
    assert forall|p: Point| owner_at(a, p) == owner_at(b, p) by {
        if p.y < a.len() {
            assert(a[p.y as int]@ == b[p.y as int]@);
        }
    }
}

impl Grid {
    /// Whether every table has one slot for each cell of the board.
    pub fn is_wf(&self) -> (ok: bool)
        ensures
            ok == self.wf(),
    {
        table_fits(&self.pads, self.width, self.height) && table_fits(
            &self.traces,
            self.width,
            self.height,
        ) && table_fits(&self.diagonal_traces, self.width, self.height)
    }

    /// Whether every net of the board is named by colours.
    pub fn is_colored(&self) -> (ok: bool)
        requires
            self.wf(),
        ensures
            ok == self.colored(),
    {
        let mut y: usize = 0;
        while y < self.height
            invariant
                y <= self.height,
                self.wf(),
                forall|p: Point|
                    p.y < y && self.pad_at(p) is Some ==> (#[trigger] self.pad_at(p)).unwrap() is Color,
                forall|p: Point|
                    p.y < y && self.trace_at(p) is Some ==> (#[trigger] self.trace_at(p)).unwrap() is Color,
            decreases self.height - y,
        {
            let mut x: usize = 0;
            while x < self.width
                invariant
                    x <= self.width,
                    y < self.height,
                    self.wf(),
                    forall|p: Point|
                        (p.y < y || (p.y == y && p.x < x)) && self.pad_at(p) is Some ==> (
                        #[trigger] self.pad_at(p)).unwrap() is Color,
                    forall|p: Point|
                        (p.y < y || (p.y == y && p.x < x)) && self.trace_at(p) is Some ==> (
                        #[trigger] self.trace_at(p)).unwrap() is Color,
                decreases self.width - x,
            {
                let ghost here = Point { x, y };
                assert(self.pad_at(here) == self.pads@[y as int]@[x as int]);
                assert(self.trace_at(here) == self.traces@[y as int]@[x as int]);
                match self.pads[y][x] {
                    Some(Net::Character { .. }) => {
                        return false;
                    },
                    _ => {},
                }
                match self.traces[y][x] {
                    Some(Net::Character { .. }) => {
                        return false;
                    },
                    _ => {},
                }
                assert forall|p: Point|
                    (p.y < y || (p.y == y && p.x < x + 1)) && self.pad_at(p) is Some implies (
                #[trigger] self.pad_at(p)).unwrap() is Color by {
                    if p.y == y && p.x == x {
                        assert(p == here);
                    }
                }
                assert forall|p: Point|
                    (p.y < y || (p.y == y && p.x < x + 1)) && self.trace_at(p) is Some implies (
                #[trigger] self.trace_at(p)).unwrap() is Color by {
                    if p.y == y && p.x == x {
                        assert(p == here);
                    }
                }
                x += 1;
            }
            y += 1;
        }
        true
    }

    /// Whether every net of the board is named by characters.
    pub fn is_textual(&self) -> (ok: bool)
        requires
            self.wf(),
        ensures
            ok == self.textual(),
    {
        let mut y: usize = 0;
        while y < self.height
            invariant
                y <= self.height,
                self.wf(),
                forall|p: Point|
                    p.y < y && self.pad_at(p) is Some ==> (#[trigger] self.pad_at(p)).unwrap() is Character,
                forall|p: Point|
                    p.y < y && self.trace_at(p) is Some ==> (#[trigger] self.trace_at(p)).unwrap() is Character,
            decreases self.height - y,
        {
            let mut x: usize = 0;
            while x < self.width
                invariant
                    x <= self.width,
                    y < self.height,
                    self.wf(),
                    forall|p: Point|
                        (p.y < y || (p.y == y && p.x < x)) && self.pad_at(p) is Some ==> (
                        #[trigger] self.pad_at(p)).unwrap() is Character,
                    forall|p: Point|
                        (p.y < y || (p.y == y && p.x < x)) && self.trace_at(p) is Some ==> (
                        #[trigger] self.trace_at(p)).unwrap() is Character,
                decreases self.width - x,
            {
                let ghost here = Point { x, y };
                assert(self.pad_at(here) == self.pads@[y as int]@[x as int]);
                assert(self.trace_at(here) == self.traces@[y as int]@[x as int]);
                match self.pads[y][x] {
                    Some(Net::Color { .. }) => {
                        return false;
                    },
                    _ => {},
                }
                match self.traces[y][x] {
                    Some(Net::Color { .. }) => {
                        return false;
                    },
                    _ => {},
                }
                assert forall|p: Point|
                    (p.y < y || (p.y == y && p.x < x + 1)) && self.pad_at(p) is Some implies (
                #[trigger] self.pad_at(p)).unwrap() is Character by {
                    if p.y == y && p.x == x {
                        assert(p == here);
                    }
                }
                assert forall|p: Point|
                    (p.y < y || (p.y == y && p.x < x + 1)) && self.trace_at(p) is Some implies (
                #[trigger] self.trace_at(p)).unwrap() is Character by {
                    if p.y == y && p.x == x {
                        assert(p == here);
                    }
                }
                x += 1;
            }
            y += 1;
        }
        true
    }

    /// A board with the same pads and traces.
    pub fn duplicate(&self) -> (copy: Grid)
        requires
            self.wf(),
        ensures
            copy.wf(),
            copy.width == self.width,
            copy.height == self.height,
            forall|p: Point| copy.pad_at(p) == self.pad_at(p),
            forall|p: Point| copy.trace_at(p) == self.trace_at(p),
            forall|p: Point| copy.diagonal_trace_at(p) == self.diagonal_trace_at(p),
    {
        let copy = Grid {
            pads: copy_table(&self.pads),
            traces: copy_table(&self.traces),
            diagonal_traces: copy_table(&self.diagonal_traces),
            width: self.width,
            height: self.height,
        };
        proof {
            lemma_same_owners(copy.pads@, self.pads@);
            lemma_same_owners(copy.traces@, self.traces@);
            lemma_same_owners(copy.diagonal_traces@, self.diagonal_traces@);
        }
        copy
    }
}

/// The characters of the cells of the board, row by row.
pub fn grid_to_string(grid: &Grid) -> (rows: Vec<Vec<char>>)
    requires
        grid.wf(),
        grid.textual(),
    ensures
        rows_of(rows@) == grid.char_rows(),
{
    grid.to_char_matrix()
}

/// A pad: a cell and the net that it belongs to.
#[derive(Debug, Clone, Copy, PartialEq, Eq, Hash, Structural)]
pub struct Pad {
    pub net: Net,
    pub point: Point,
}


/// Each row between two `#`.
pub open spec fn framed_rows(rows: Seq<Seq<char>>) -> Seq<Seq<char>> {
    Seq::new(rows.len(), |i: int| seq!['#'] + rows[i] + seq!['#'])
}

/// A line of `#` takes one byte for each character.
pub proof fn lemma_wall_bytes(width: nat, n: int)
    requires
        0 <= n <= width + 2,
    ensures
        byte_len(wall_text(width).take(n)) == n,
    decreases n,
{
    let part = wall_text(width).take(n);
    if n > 0 {
        lemma_wall_bytes(width, n - 1);
        assert(part.drop_last() =~= wall_text(width).take(n - 1));
        assert(part.last() == '#');
        assert(('#' as u32) == 35);
    }
}

/// The rows of a board, written one line each behind a text that ends a
/// line, are read as one line each, between two `#`.
pub proof fn lemma_scan_rows(head: Seq<char>, rows: Seq<Seq<char>>, k: int)
    requires
        0 <= k <= rows.len(),
        scan_lines(head).1.len() == 0,
        forall|y: int, x: int| 0 <= y < rows.len() && 0 <= x < rows[y].len() ==> #[trigger] rows[y][x] != '\n',
    ensures
        scan_lines(head + rows_text(rows.take(k))) == (
            scan_lines(head).0 + framed_rows(rows.take(k)),
            Seq::<char>::empty(),
        ),
    decreases k,
{
    let part = rows.take(k);
    if k == 0 {
        assert(rows_text(part) =~= Seq::<char>::empty());
        assert(head + rows_text(part) =~= head);
        assert(scan_lines(head).0 + framed_rows(part) =~= scan_lines(head).0);
        assert(scan_lines(head).1 =~= Seq::<char>::empty());
    } else {
        lemma_scan_rows(head, rows, k - 1);
        let shorter = rows.take(k - 1);
        assert(part.drop_last() =~= shorter);
        let row = rows[k - 1];
        assert(part.last() == row);
        let line = seq!['#'] + row + seq!['#'];
        assert(row_text(row) =~= line + seq!['\n']);
        let before = head + rows_text(shorter);
        assert(head + rows_text(part) =~= before + line + seq!['\n']);
        assert forall|i: int| 0 <= i < line.len() implies line[i] != '\n' by {
            if 0 < i < line.len() - 1 {
                assert(line[i] == rows[k - 1][i - 1]);
            }
        }
        lemma_scan_line(before, line);
        assert(framed_rows(part) =~= framed_rows(shorter).push(line)) by {
            assert forall|i: int| 0 <= i < part.len() implies framed_rows(part)[i] == framed_rows(
                shorter,
            ).push(line)[i] by {
                if i < k - 1 {
                    assert(part[i] == shorter[i]);
                }
            }
        }
        assert((scan_lines(head).0 + framed_rows(shorter)).push(line) =~= scan_lines(head).0 + framed_rows(
            part,
        ));
    }
}

/// The text of a board is read as its lines: a wall, each row between two
/// `#`, and a wall.
pub proof fn lemma_board_text_lines(rows: Seq<Seq<char>>)
    requires
        rows.len() >= 1,
        forall|y: int, x: int| 0 <= y < rows.len() && 0 <= x < rows[y].len() ==> #[trigger] rows[y][x] != '\n',
    ensures
        text_lines(board_text(rows)) == seq![wall_text(rows[0].len())] + framed_rows(rows) + seq![
            wall_text(rows[0].len()),
        ],
{
    let wall = wall_text(rows[0].len());
    let empty = Seq::<char>::empty();
    lemma_scan_line(empty, wall);
    let head = wall + seq!['\n'];
    assert(empty + wall + seq!['\n'] =~= head);
    assert(scan_lines(head).0 =~= seq![wall]);
    lemma_scan_rows(head, rows, rows.len() as int);
    assert(rows.take(rows.len() as int) =~= rows);
    let body = head + rows_text(rows);
    lemma_scan_line(body, wall);
    assert(board_text(rows) =~= body + wall + seq!['\n']);
    assert(scan_lines(body).0.push(wall) =~= seq![wall] + framed_rows(rows) + seq![wall]);
}

impl Grid {
    /// What the text of the board tells of cell `p`: the net of its
    /// character, unless the character is a blank or a `#`.
    pub open spec fn text_cell(&self, p: Point) -> Option<Net> {
        if self.inside(p) && is_pad_char(self.cell_char(p)) {
            Some(net_of_char(self.cell_char(p)))
        } else {
            None
        }
    }

    /// No cell is written as a line feed.
    pub open spec fn printable(&self) -> bool {
        forall|p: Point| self.inside(p) ==> #[trigger] self.cell_char(p) != '\n'
    }

    /// The text of a board describes a board of the same size, whose pads
    /// are what the cells are written as.
    pub proof fn lemma_text_parses(&self)
        requires
            self.wf(),
            self.height >= 1,
            self.width + 2 <= usize::MAX,
            self.printable(),
        ensures
            Self::parses(self.text()),
            text_width(text_lines(self.text())) == self.width,
            text_height(text_lines(self.text())) == self.height,
            forall|p: Point| text_pad(text_lines(self.text()), p) == self.text_cell(p),
    {
        let rows = self.char_rows();
        let w = self.width as nat;
        assert forall|y: int, x: int| 0 <= y < rows.len() && 0 <= x < rows[y].len() implies #[trigger] rows[y][x]
            != '\n' by {
            let p = Point { x: x as usize, y: y as usize };
            assert(self.inside(p));
            assert(rows[y][x] == self.cell_char(p));
        }
        assert(rows[0].len() == w);
        lemma_board_text_lines(rows);
        let wall = wall_text(w);
        let lines = text_lines(self.text());
        assert(lines == seq![wall] + framed_rows(rows) + seq![wall]);
        assert(lines.len() == self.height + 2);
        assert(lines[0] == wall);
        lemma_wall_bytes(w, w as int + 2);
        assert(wall.take(w as int + 2) =~= wall);
        assert forall|y: int| 1 <= y < lines.len() - 1 implies #[trigger] lines[y] == seq!['#'] + rows[y - 1]
            + seq!['#'] by {
            assert(lines[y] == framed_rows(rows)[y - 1]);
        }
        assert forall|y: int, x: int|
            1 <= y < lines.len() - 1 && 0 <= x < lines[y].len() && is_pad_char(
                #[trigger] lines[y][x],
            ) implies 1 <= x <= text_width(lines) by {
            assert(lines[y] == seq!['#'] + rows[y - 1] + seq!['#']);
            assert(rows[y - 1].len() == w);
        }
        assert forall|p: Point| text_pad(lines, p) == self.text_cell(p) by {
            if p.y + 2 < lines.len() {
                let y = p.y + 1;
                assert(lines[y] == seq!['#'] + rows[y - 1] + seq!['#']);
                assert(rows[y - 1].len() == w);
                if p.x < w {
                    assert(lines[y][p.x + 1] == rows[y - 1][p.x as int]);
                    assert(rows[p.y as int][p.x as int] == self.cell_char(
                        Point { x: p.x as int as usize, y: p.y as int as usize },
                    ));
                } else if p.x == w {
                    assert(lines[y][p.x + 1] == '#');
                }
            }
        }
    }

    /// Every pad belongs to a net that is named by a character other than a
    /// blank, a `#` and a line feed, with the lower-case letter of that
    /// character for its traces.
    pub open spec fn plainly_named(&self) -> bool {
        forall|p: Point|
            (#[trigger] self.pad_at(p)) is Some ==> match self.pad_at(p).unwrap() {
                Net::Character { pad_c, route_c } => is_pad_char(pad_c) && pad_c != '\n' && route_c
                    == ascii_lower(pad_c),
                Net::Color { .. } => false,
            }
    }

    /// A board without traces, written as text and read again, has the pads
    /// that it had, on a board of the same size.
    pub proof fn lemma_round_trip(&self, back: Grid)
        requires
            self.wf(),
            self.height >= 1,
            self.width + 2 <= usize::MAX,
            self.unrouted(),
            self.plainly_named(),
            back.read_from(text_lines(self.text())),
        ensures
            Self::parses(self.text()),
            back.width == self.width,
            back.height == self.height,
            forall|p: Point| back.pad_at(p) == self.pad_at(p),
    {
        assert forall|p: Point| self.inside(p) implies #[trigger] self.cell_char(p) != '\n' by {
            assert(self.trace_at(p) is None);
        }
        self.lemma_text_parses();
        assert forall|p: Point| back.pad_at(p) == self.pad_at(p) by {
            assert(self.trace_at(p) is None);
            assert(back.pad_at(p) == self.text_cell(p));
        }
    }
}

} // verus!
