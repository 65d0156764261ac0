//! The GMSF document: its layout in bytes and what its grid means.
//!
//! A document is a header of twelve bytes followed by the cells of the
//! grid, row by row.  A cell is one byte, the identifier of a symbol,
//! unless that byte is the document's audiogear marker: such a cell goes on
//! with five pairs of symbol identifier and row, and one volume byte.

use crate::roll::Note;
use crate::sheet::{channel_and_key, Config, GMSFSheetType, PITCH_ROWS};
use vstd::prelude::*;

verus! {

/// Length of the header.
pub const HEADER_LEN: usize = 12;

/// Number of symbol placements in an audiogear cell.
pub const AUDIOGEAR_PAIRS: usize = 5;

/// Length of an audiogear cell: marker, pairs and volume.
pub const AUDIOGEAR_LEN: usize = 12;

/// The fixed fields of a document.
#[derive(Clone, Copy, PartialEq, Eq, Structural, Debug)]
pub struct Header {
    /// Format version.
    pub version: u8,
    /// The cell byte that opens an audiogear cell.
    pub audiogear_id: u8,
    /// Tempo in beats per minute.
    pub bpm: u16,
    /// Number of columns.
    pub width: u16,
    /// Number of rows.
    pub height: u16,
}

/// One cell of the grid.
pub enum Cell {
    /// Nothing is placed here.
    Empty,
    /// A single symbol.
    Symbol(u8),
    /// Several symbols, each with the row it is meant for.
    Audiogear(Seq<(u8, u8)>),
}

/// Whether `data` begins with the magic bytes `GMSF`.
pub open spec fn has_magic(data: Seq<u8>) -> bool {
    &&& data.len() >= 4
    &&& data[0] == 0x47
    &&& data[1] == 0x4D
    &&& data[2] == 0x53
    &&& data[3] == 0x46
}

/// The 16-bit number whose little-endian bytes stand at `at`.
pub open spec fn le16(data: Seq<u8>, at: int) -> u16 {
    (data[at] + 256 * data[at + 1]) as u16
}

/// The header that the first twelve bytes of `data` spell.
pub open spec fn header_of(data: Seq<u8>) -> Header {
    Header {
        version: data[4],
        audiogear_id: data[5],
        bpm: le16(data, 6),
        width: le16(data, 8),
        height: le16(data, 10),
    }
}

/// The placements of the audiogear cell that begins at `at`: five pairs of
/// symbol identifier and row, after the marker byte.
pub open spec fn audiogear_pairs(data: Seq<u8>, at: int) -> Seq<(u8, u8)> {
    Seq::new(AUDIOGEAR_PAIRS as nat, |i: int| (data[at + 1 + 2 * i], data[at + 2 + 2 * i]))
}

/// The cell that begins at `at` and the position after it, unless the
/// data ends before the cell does.
pub open spec fn parse_cell(data: Seq<u8>, audiogear_id: u8, at: int) -> Option<(Cell, int)> {
    if at >= data.len() {
        None
    } else if data[at] == 0 {
        Some((Cell::Empty, at + 1))
    } else if data[at] != audiogear_id {
        Some((Cell::Symbol(data[at]), at + 1))
    } else if at + AUDIOGEAR_LEN > data.len() {
        None
    } else {
        Some((Cell::Audiogear(audiogear_pairs(data, at)), at + AUDIOGEAR_LEN))
    }
}

/// The first `count` cells of a row that begins at `at`, and the position
/// after them.
pub open spec fn parse_row(data: Seq<u8>, audiogear_id: u8, at: int, count: nat) -> Option<
    (Seq<Cell>, int),
>
    decreases count,
{
    if count == 0 {
        Some((Seq::empty(), at))
    } else {
        match parse_row(data, audiogear_id, at, (count - 1) as nat) {
            Some((cells, next)) => match parse_cell(data, audiogear_id, next) {
                Some((cell, end)) => Some((cells.push(cell), end)),
                None => None,
            },
            None => None,
        }
    }
}

/// The first `count` rows of `width` cells of a grid that begins at `at`,
/// and the position after them.
pub open spec fn parse_rows(
    data: Seq<u8>,
    audiogear_id: u8,
    width: nat,
    at: int,
    count: nat,
) -> Option<(Seq<Seq<Cell>>, int)>
    decreases count,
{
    if count == 0 {
        Some((Seq::empty(), at))
    } else {
        match parse_rows(data, audiogear_id, width, at, (count - 1) as nat) {
            Some((rows, next)) => match parse_row(data, audiogear_id, next, width) {
                Some((row, end)) => Some((rows.push(row), end)),
                None => None,
            },
            None => None,
        }
    }
}

/// The rows of the grid of `data`, unless the data ends too early.  What
/// follows the grid is ignored.
pub open spec fn parse_grid(data: Seq<u8>) -> Option<Seq<Seq<Cell>>> {
    if data.len() < HEADER_LEN {
        None
    } else {
        let header = header_of(data);
        match parse_rows(
            data,
            header.audiogear_id,
            header.width as nat,
            HEADER_LEN as int,
            header.height as nat,
        ) {
            Some((rows, _)) => Some(rows),
            None => None,
        }
    }
}

/// A row that cannot be read cannot be read further.
pub proof fn lemma_parse_row_fails(data: Seq<u8>, audiogear_id: u8, at: int, count: nat, more: nat)
    requires
        parse_row(data, audiogear_id, at, count) is None,
        count <= more,
    ensures
        parse_row(data, audiogear_id, at, more) is None,
    decreases more,
{
    if count < more {
        lemma_parse_row_fails(data, audiogear_id, at, count, (more - 1) as nat);
    }
}

/// A grid that cannot be read cannot be read further.
pub proof fn lemma_parse_rows_fails(
    data: Seq<u8>,
    audiogear_id: u8,
    width: nat,
    at: int,
    count: nat,
    more: nat,
)
    requires
        parse_rows(data, audiogear_id, width, at, count) is None,
        count <= more,
    ensures
        parse_rows(data, audiogear_id, width, at, more) is None,
    decreases more,
{
    if count < more {
        lemma_parse_rows_fails(data, audiogear_id, width, at, count, (more - 1) as nat);
    }
}

/// Rows that were read are as many and as wide as was asked for.
pub proof fn lemma_parse_rows_shape(
    data: Seq<u8>,
    audiogear_id: u8,
    width: nat,
    at: int,
    count: nat,
)
    requires
        parse_rows(data, audiogear_id, width, at, count) is Some,
    ensures
        ({
            let read = parse_rows(data, audiogear_id, width, at, count)->0;
            read.0.len() == count
        }),
    decreases count,
{
    if count > 0 {
        lemma_parse_rows_shape(data, audiogear_id, width, at, (count - 1) as nat);
    }
}

impl Config {
    /// The channel and pitch that symbol `id` sounds in row `row`, if the
    /// configuration knows the symbol and it sounds.
    pub open spec fn sound(&self, id: u8, row: int) -> Option<(u8, u8)> {
        match self.symbol(id) {
            Some(sheet_type) => channel_and_key(sheet_type, row),
            None => None,
        }
    }

    /// Whether symbol `id` may stand in row `row`: a symbol that sounds
    /// needs one of the pitch rows.
    pub open spec fn in_range(&self, id: u8, row: int) -> bool {
        self.symbol(id) matches Some(sheet_type) && sheet_type.is_pitched() ==> row < PITCH_ROWS
    }
}

/// Whether a placement in an audiogear cell sounds `key` on `channel`.
/// Identifier zero places nothing.
pub open spec fn pair_sounds(config: &Config, pair: (u8, u8), channel: u8, key: u8) -> bool {
    pair.0 != 0 && config.sound(pair.0, pair.1 as int) == Some((channel, key))
}

/// Whether a placement names a row that its symbol may stand in.
pub open spec fn pair_in_range(config: &Config, pair: (u8, u8)) -> bool {
    pair.0 != 0 ==> config.in_range(pair.0, pair.1 as int)
}

/// Whether some placement among `pairs` sounds `key` on `channel`.
pub open spec fn pairs_sound(config: &Config, pairs: Seq<(u8, u8)>, channel: u8, key: u8) -> bool {
    exists|i: int| 0 <= i < pairs.len() && pair_sounds(config, #[trigger] pairs[i], channel, key)
}

/// Whether every placement among `pairs` names a row that its symbol may
/// stand in.
pub open spec fn pairs_in_range(config: &Config, pairs: Seq<(u8, u8)>) -> bool {
    forall|i: int| 0 <= i < pairs.len() ==> pair_in_range(config, #[trigger] pairs[i])
}

/// Whether `cell`, standing in row `row`, sounds `key` on `channel`.
pub open spec fn cell_sounds(config: &Config, cell: Cell, row: int, channel: u8, key: u8) -> bool {
    match cell {
        Cell::Empty => false,
        Cell::Symbol(id) => config.sound(id, row) == Some((channel, key)),
        Cell::Audiogear(pairs) => pairs_sound(config, pairs, channel, key),
    }
}

/// Whether every symbol of `cell` that sounds has a pitch row.
pub open spec fn cell_in_range(config: &Config, cell: Cell, row: int) -> bool {
    match cell {
        Cell::Empty => true,
        Cell::Symbol(id) => config.in_range(id, row),
        Cell::Audiogear(pairs) => pairs_in_range(config, pairs),
    }
}

/// Whether `cell` is a single symbol that the configuration reads as
/// `sheet_type`.
pub open spec fn cell_is(config: &Config, cell: Cell, sheet_type: GMSFSheetType) -> bool {
    cell matches Cell::Symbol(id) && config.symbol(id) == Some(sheet_type)
}

/// Whether row `r` of `rows` sounds `note`.
pub open spec fn row_sounds(config: &Config, rows: Seq<Seq<Cell>>, r: int, note: Note) -> bool {
    &&& 0 <= r < rows.len()
    &&& 0 <= note.1 < rows[r].len()
    &&& cell_sounds(config, rows[r][note.1], r, note.0, note.2)
}

/// The notes of a grid: every pitch that some cell sounds, with the
/// channel it sounds on and the column of the cell.
pub open spec fn notes_of(config: &Config, rows: Seq<Seq<Cell>>) -> Set<Note> {
    Set::new(|note: Note| exists|r: int| row_sounds(config, rows, r, note))
}

/// Whether every symbol of the grid that sounds has a pitch row.
pub open spec fn rows_in_range(config: &Config, rows: Seq<Seq<Cell>>) -> bool {
    forall|r: int, x: int|
        0 <= r < rows.len() && 0 <= x < rows[r].len() ==> cell_in_range(
            config,
            #[trigger] rows[r][x],
            r,
        )
}

/// The column of the nearest repeat-begin before column `x` of `row`, or
/// zero if there is none.
pub open spec fn nearest_begin(config: &Config, row: Seq<Cell>, x: int) -> int
    decreases x,
{
    if x <= 0 {
        0
    } else if cell_is(config, row[x - 1], GMSFSheetType::RepeatBegin) {
        x - 1
    } else {
        nearest_begin(config, row, x - 1)
    }
}

/// The repeat markers of column `x`: for each row, from the top, that has
/// a repeat-end there, the column that the repeat goes back to.
pub open spec fn column_markers(config: &Config, rows: Seq<Seq<Cell>>, x: int) -> Seq<usize>
    decreases rows.len(),
{
    if rows.len() == 0 {
        Seq::empty()
    } else {
        let above = column_markers(config, rows.drop_last(), x);
        let row = rows.last();
        if 0 <= x < row.len() && cell_is(config, row[x], GMSFSheetType::RepeatEnd) {
            above.push(nearest_begin(config, row, x) as usize)
        } else {
            above
        }
    }
}

/// The repeat markers of every column of a grid of `width` columns.
pub open spec fn markers_of(config: &Config, rows: Seq<Seq<Cell>>, width: nat) -> Seq<Seq<usize>> {
    Seq::new(width, |x: int| column_markers(config, rows, x))
}

/// A repeat goes back to its own column or to one before it.
pub proof fn lemma_nearest_begin_bound(config: &Config, row: Seq<Cell>, x: int)
    requires
        0 <= x,
    ensures
        0 <= nearest_begin(config, row, x) <= x,
    decreases x,
{
    if x > 0 && !cell_is(config, row[x - 1], GMSFSheetType::RepeatBegin) {
        lemma_nearest_begin_bound(config, row, x - 1);
    }
}

/// A column has at most one marker per row, and none goes forward.
pub proof fn lemma_column_markers_bound(config: &Config, rows: Seq<Seq<Cell>>, x: int)
    requires
        0 <= x <= usize::MAX,
    ensures
        column_markers(config, rows, x).len() <= rows.len(),
        forall|i: int|
            0 <= i < column_markers(config, rows, x).len() ==> column_markers(config, rows, x)[i]
                <= x,
    decreases rows.len(),
{
    if rows.len() > 0 {
        lemma_column_markers_bound(config, rows.drop_last(), x);
        lemma_nearest_begin_bound(config, rows.last(), x);
    }
}

} // verus!
