use regex::Regex;
use vstd::prelude::*;

use crate::error::{is_parse_error, LacamError};
use crate::graph::{rows_view, Graph};
use crate::text::{chars_of, parse_usize, parsed_usize, trim_cr};

verus! {

broadcast use vstd::string::group_string_axioms;

/// What the regular expression `height\s+(\d+)` captures in `line`: the digits after the first
/// `height` followed by white space and digits, if there is one.
pub uninterp spec fn height_capture(line: Seq<char>) -> Option<Seq<char>>;

/// What the regular expression `width\s+(\d+)` captures in `line`.
pub uninterp spec fn width_capture(line: Seq<char>) -> Option<Seq<char>>;

/// `Regex::captures` with `height\s+(\d+)` on `line`: the first group of the first match.
#[verifier::external_body]
fn height_digits(line: &str) -> (r: Option<String>)
    ensures
        match r {
            Some(d) => height_capture(line@) == Some(d@),
            None => height_capture(line@) is None,
        },
{
    let re = Regex::new(r"height\s+(\d+)").unwrap();
    match re.captures(line) {
        Some(caps) => Some(caps[1].to_string()),
        None => None,
    }
}

/// `Regex::captures` with `width\s+(\d+)` on `line`: the first group of the first match.
#[verifier::external_body]
fn width_digits(line: &str) -> (r: Option<String>)
    ensures
        match r {
            Some(d) => width_capture(line@) == Some(d@),
            None => width_capture(line@) is None,
        },
{
    let re = Regex::new(r"width\s+(\d+)").unwrap();
    match re.captures(line) {
        Some(caps) => Some(caps[1].to_string()),
        None => None,
    }
}

/// `line` holds the word `map` somewhere.
pub open spec fn mentions_map(line: Seq<char>) -> bool {
    exists|i: int| 0 <= i && i + 3 <= line.len() && #[trigger] line.subrange(i, i + 3) == seq!['m', 'a', 'p']
}

/// `Regex::is_match` with `map` on `line`: whether `map` occurs in it.
#[verifier::external_body]
fn has_map(line: &str) -> (r: bool)
    ensures
        r == mentions_map(line@),
{
    let re = Regex::new(r"map").unwrap();
    re.is_match(line)
}

/// `s` without its trailing carriage returns.
pub(crate) fn trim_cr_str(s: &str) -> (r: &str)
    ensures
        r@ == trim_cr(s@),
{
    let mut n = s.unicode_len();
    proof {
        assert(s@.subrange(0, n as int) =~= s@);
    }
    while n > 0 && s.get_char(n - 1) == '\r'
        invariant
            n <= s@.len(),
            trim_cr(s@.subrange(0, n as int)) == trim_cr(s@),
        decreases n,
    {
        proof {
            let t = s@.subrange(0, n as int);
            assert(t.drop_last() =~= s@.subrange(0, n - 1));
        }
        n -= 1;
    }
    s.substring_char(0, n)
}

/// The header of a map file: the size of the grid and where its rows begin.
#[derive(Clone, Copy, Debug)]
pub struct MapHeader {
    pub height: usize,
    pub width: usize,
    /// The line after the one that mentions `map`: the first row of the grid.
    pub rows_start: usize,
}

/// Reading the header from line `i` on, with the height and width read so far: the height, the
/// width and the first row of the grid, or the text of the error. A `height` line sets the
/// height, a `width` line the width, and the first other line that mentions `map` ends the
/// header.
pub open spec fn header_from(lines: Seq<String>, i: int, h: usize, w: usize) -> Result<(usize, usize, int), Seq<char>>
    decreases lines.len() - i,
{
    if i < 0 || i >= lines.len() {
        Ok((h, w, lines.len() as int))
    } else {
        let line = trim_cr(lines[i]@);
        match height_capture(line) {
            Some(d) => match parsed_usize(d) {
                Some(v) => header_from(lines, i + 1, v, w),
                None => Err(seq!['h', 'e', 'i', 'g', 'h', 't']),
            },
            None => match width_capture(line) {
                Some(d) => match parsed_usize(d) {
                    Some(v) => header_from(lines, i + 1, h, v),
                    None => Err(seq!['w', 'i', 'd', 't', 'h']),
                },
                None => if mentions_map(line) {
                    Ok((h, w, i + 1))
                } else {
                    header_from(lines, i + 1, h, w)
                },
            },
        }
    }
}

/// The header of the map file `lines`.
pub open spec fn map_header(lines: Seq<String>) -> Result<(usize, usize, int), Seq<char>> {
    header_from(lines, 0, 0, 0)
}

/// Reads the header of a map file: `height` and `width` lines up to the line that mentions
/// `map`. A number that is not a `usize` is an error naming its field.
pub fn read_map_header(lines: &Vec<String>) -> (r: Result<MapHeader, LacamError>)
    ensures
        match (r, map_header(lines@)) {
            (Ok(hd), Ok((h, w, start))) => hd.height == h && hd.width == w && hd.rows_start == start,
            (Err(e), Err(text)) => is_parse_error(e, text),
            _ => false,
        },
{
    let mut height: usize = 0;
    let mut width: usize = 0;
    let mut i: usize = 0;
    let mut done = false;
    while i < lines.len() && !done
        invariant
            0 <= i <= lines@.len(),
            done ==> 0 < i && map_header(lines@) == Ok::<(usize, usize, int), Seq<char>>((height, width, i as int)),
            !done ==> map_header(lines@) == header_from(lines@, i as int, height, width),
        decreases lines@.len() - i,
    {
        let line = trim_cr_str(lines[i].as_str());
        match height_digits(line) {
            Some(d) => match parse_usize(&chars_of(d.as_str())) {
                Some(v) => {
                    height = v;
                },
                None => {
                    proof {
                        reveal_strlit("height");
                        assert(map_header(lines@) == header_from(lines@, i as int, height, width));
                    }
                    let field = "height".to_string();
                    assert(field@ == seq!['h', 'e', 'i', 'g', 'h', 't']);
                    return Err(LacamError::Parse { field });
                },
            },
            None => match width_digits(line) {
                Some(d) => match parse_usize(&chars_of(d.as_str())) {
                    Some(v) => {
                        width = v;
                    },
                    None => {
                        proof {
                            reveal_strlit("width");
                            assert(map_header(lines@) == header_from(lines@, i as int, height, width));
                        }
                        let field = "width".to_string();
                        assert(field@ == seq!['w', 'i', 'd', 't', 'h']);
                        return Err(LacamError::Parse { field });
                    },
                },
                None => {
                    if has_map(line) {
                        done = true;
                    }
                },
            },
        }
        i += 1;
    }
    Ok(MapHeader { height, width, rows_start: i })
}

/// Whether the character `c` of a map row is passable: anything but a tree `T` or a wall `@`.
pub open spec fn passable_char(c: char) -> bool {
    c != 'T' && c != '@'
}

/// Cell `x` of row `y` of the grid whose rows start at line `start`: the cell is passable
/// when the row exists and has a passable character at `x`.
pub open spec fn map_cell(lines: Seq<String>, start: int, y: int, x: int) -> bool {
    let k = start + y;
    &&& 0 <= k < lines.len()
    &&& 0 <= x < trim_cr(lines[k]@).len()
    &&& passable_char(trim_cr(lines[k]@)[x])
}

/// The `height` rows of `width` cells of the grid whose rows start at line `start`.
pub open spec fn map_rows(lines: Seq<String>, start: int, width: nat, height: nat) -> Seq<Seq<bool>> {
    Seq::new(height, |y: int| Seq::new(width, |x: int| map_cell(lines, start, y, x)))
}

/// The grid of the header fits: both sides fit in an `i32`, the number of cells in a `usize`,
/// and no line past the last row has a passable cell within the width.
pub open spec fn map_fits(lines: Seq<String>, h: usize, w: usize, start: int) -> bool {
    &&& h <= i32::MAX
    &&& w <= i32::MAX
    &&& w * h <= usize::MAX
    &&& 0 <= start <= lines.len()
    &&& forall|y: int, x: int|
        h <= y && start + y < lines.len() && 0 <= x < w ==> !#[trigger] map_cell(lines, start, y, x)
}

/// The passable cells among the first `w` characters of `row`.
fn row_cells(row: &Vec<char>, w: usize) -> (cells: Vec<bool>)
    ensures
        cells@.len() == w,
        forall|x: int| 0 <= x < w ==> #[trigger] cells@[x] == (x < row@.len() && passable_char(row@[x])),
{
    let mut cells: Vec<bool> = Vec::new();
    let mut x: usize = 0;
    while x < w
        invariant
            0 <= x <= w,
            cells@.len() == x,
            forall|k: int| 0 <= k < x ==> #[trigger] cells@[k] == (k < row@.len() && passable_char(row@[k])),
        decreases w - x,
    {
        cells.push(x < row.len() && row[x] != 'T' && row[x] != '@');
        x += 1;
    }
    cells
}

/// Whether the grid of the header `hd` fits (see `map_fits`).
pub fn check_map_fits(lines: &Vec<String>, hd: &MapHeader) -> (r: bool)
    ensures
        r == map_fits(lines@, hd.height, hd.width, hd.rows_start as int),
{
    if hd.height > 0x7fff_ffff || hd.width > 0x7fff_ffff || hd.rows_start > lines.len() {
        return false;
    }
    if hd.width.checked_mul(hd.height).is_none() {
        return false;
    }
    if lines.len() - hd.rows_start <= hd.height {
        return true;
    }
    let mut k: usize = hd.rows_start + hd.height;
    while k < lines.len()
        invariant
            hd.rows_start + hd.height <= k <= lines@.len(),
            hd.rows_start <= lines@.len(),
            forall|y: int, x: int|
                hd.height <= y && hd.rows_start + y < k && 0 <= x < hd.width ==> !#[trigger] map_cell(
                    lines@,
                    hd.rows_start as int,
                    y,
                    x,
                ),
        decreases lines@.len() - k,
    {
        let row = chars_of(trim_cr_str(lines[k].as_str()));
        let mut x: usize = 0;
        while x < hd.width && x < row.len()
            invariant
                hd.rows_start + hd.height <= k < lines@.len(),
                row@ == trim_cr(lines@[k as int]@),
                0 <= x <= hd.width,
                forall|c: int| 0 <= c < x ==> !passable_char(#[trigger] row@[c]),
            decreases hd.width - x,
        {
            if row[x] != 'T' && row[x] != '@' {
                proof {
                    let y = k - hd.rows_start;
                    assert(map_cell(lines@, hd.rows_start as int, y, x as int));
                }
                return false;
            }
            x += 1;
        }
        proof {
            assert forall|y: int, x2: int|
                hd.height <= y && hd.rows_start + y < k + 1 && 0 <= x2 < hd.width implies !#[trigger] map_cell(
                    lines@,
                    hd.rows_start as int,
                    y,
                    x2,
                ) by {
                if hd.rows_start + y == k && x2 < row@.len() {
                    assert(!passable_char(row@[x2]));
                }
            }
        }
        k += 1;
    }
    true
}

impl Graph {
    /// The graph of the grid of a map file whose header is `hd`: rows of `hd.width` cells from
    /// line `hd.rows_start` on, `hd.height` of them; a row shorter than the width, or a missing
    /// row, is blocked past its end.
    pub fn from_map_rows(lines: &Vec<String>, hd: &MapHeader) -> (g: Graph)
        requires
            map_fits(lines@, hd.height, hd.width, hd.rows_start as int),
        ensures
            g.wf(),
            g.width == hd.width,
            g.height == hd.height,
            g.matches_rows(map_rows(lines@, hd.rows_start as int, hd.width as nat, hd.height as nat)),
    {
        let ghost rows = map_rows(lines@, hd.rows_start as int, hd.width as nat, hd.height as nat);
        if hd.height == 0 {
            let g = Graph { vertices: Vec::new(), grid: Vec::new(), width: hd.width, height: 0 };
            assert(hd.width * 0 == 0);
            return g;
        }
        let mut grid: Vec<Vec<bool>> = Vec::new();
        let mut y: usize = 0;
        while y < hd.height
            invariant
                map_fits(lines@, hd.height, hd.width, hd.rows_start as int),
                rows == map_rows(lines@, hd.rows_start as int, hd.width as nat, hd.height as nat),
                0 <= y <= hd.height,
                grid@.len() == y,
                forall|r: int| 0 <= r < y ==> (#[trigger] grid@[r])@ == rows[r],
            decreases hd.height - y,
        {
            let row: Vec<char> = if y < lines.len() - hd.rows_start {
                chars_of(trim_cr_str(lines[hd.rows_start + y].as_str()))
            } else {
                Vec::new()
            };
            let cells = row_cells(&row, hd.width);
            proof {
                assert(cells@ =~= rows[y as int]);
            }
            grid.push(cells);
            y += 1;
        }
        proof {
            assert(rows_view(grid@) =~= rows);
            assert(grid@[0]@.len() == hd.width);
            assert(grid@.len() * grid@[0]@.len() == hd.width * hd.height) by (nonlinear_arith)
                requires
                    grid@.len() == hd.height,
                    grid@[0]@.len() == hd.width,
            ;
        }
        match Graph::from_array(grid) {
            Ok(g) => g,
            Err(_) => {
                proof {
                    assert(false);
                }
                Graph::new()
            },
        }
    }

    /// The graph of the map file whose lines are `lines`: `None` when the grid of the header
    /// does not fit (see `map_fits`), else the header's error or the graph of its grid.
    pub fn from_map_lines(lines: &Vec<String>) -> (r: Option<Result<Graph, LacamError>>)
        ensures
            match map_header(lines@) {
                Err(text) => r matches Some(Err(e)) && is_parse_error(e, text),
                Ok((h, w, start)) => if map_fits(lines@, h, w, start) {
                    r matches Some(Ok(g)) && g.wf() && g.width == w && g.height == h && g.matches_rows(
                        map_rows(lines@, start, w as nat, h as nat),
                    )
                } else {
                    r is None
                },
            },
    {
        match read_map_header(lines) {
            Err(e) => Some(Err(e)),
            Ok(hd) => {
                if check_map_fits(lines, &hd) {
                    Some(Ok(Graph::from_map_rows(lines, &hd)))
                } else {
                    None
                }
            },
        }
    }
}

} // verus!
