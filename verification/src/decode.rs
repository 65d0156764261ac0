//! Decoding a GMSF document into a piano roll and its repeat markers.

use crate::error::ConvertError;
use crate::grid::{
    audiogear_pairs, cell_in_range, cell_is, cell_sounds, column_markers, has_magic, header_of,
    lemma_parse_row_fails, lemma_parse_rows_fails, markers_of, nearest_begin, notes_of,
    pair_in_range, pair_sounds, pairs_in_range, pairs_sound, parse_cell, parse_grid, parse_row,
    parse_rows, row_sounds, rows_in_range, Cell, Header, AUDIOGEAR_LEN, AUDIOGEAR_PAIRS,
    HEADER_LEN,
};
use crate::repeat::markers_view;
use crate::roll::{Note, PianoRoll};
use crate::sheet::{channel_and_key_from_gmsf_sheet, Config, GMSFSheetType, PITCH_ROWS};
use vstd::prelude::*;

verus! {

/// A decoded document.
#[derive(Debug)]
pub struct Sheet {
    /// Tempo in beats per minute.
    pub bpm: u16,
    /// The notes of the grid.
    pub roll: PianoRoll,
    /// For each column, the columns that its repeat-ends go back to, one for
    /// each row that has a repeat-end there.
    pub repeat_ends: Vec<Vec<usize>>,
}

/// Why `data` cannot be decoded, if it cannot.
///
/// The magic bytes are checked first, then whether the data holds the
/// whole header and grid, then whether every sounding symbol has a pitch
/// row.
pub open spec fn decode_failure(data: Seq<u8>, config: &Config) -> Option<ConvertError> {
    if !has_magic(data) {
        Some(ConvertError::MalformedHeader)
    } else {
        match parse_grid(data) {
            None => Some(ConvertError::TruncatedInput),
            Some(rows) => if rows_in_range(config, rows) {
                None
            } else {
                Some(ConvertError::RowOutOfRange)
            },
        }
    }
}

impl Sheet {
    /// Whether the sheet holds what the grid `rows` under header `header`
    /// means.
    pub open spec fn shows(&self, config: &Config, header: Header, rows: Seq<Seq<Cell>>) -> bool {
        &&& self.bpm == header.bpm
        &&& self.roll.wf()
        &&& self.roll.spec_width() == header.width
        &&& self.roll@ == notes_of(config, rows)
        &&& markers_view(self.repeat_ends@) == markers_of(config, rows, header.width as nat)
    }
}

/// The notes that symbol `id`, placed for row `row` at column `x`, sounds.
spec fn sound_notes(config: &Config, id: u8, row: int, x: int) -> Set<Note> {
    Set::new(|note: Note| note.1 == x && config.sound(id, row) == Some((note.0, note.2)))
}

/// The notes that `cell`, standing in row `row` at column `x`, sounds.
spec fn cell_notes(config: &Config, cell: Cell, row: int, x: int) -> Set<Note> {
    Set::new(|note: Note| note.1 == x && cell_sounds(config, cell, row, note.0, note.2))
}

/// A cell appended to the last row adds its own notes.
proof fn lemma_notes_extend(config: &Config, done: Seq<Seq<Cell>>, partial: Seq<Cell>, cell: Cell)
    ensures
        notes_of(config, done.push(partial.push(cell))) == notes_of(
            config,
            done.push(partial),
        ).union(cell_notes(config, cell, done.len() as int, partial.len() as int)),
{
    let before = done.push(partial);
    let after = done.push(partial.push(cell));
    let y = done.len() as int;
    let x = partial.len() as int;
    let added = cell_notes(config, cell, y, x);
    assert forall|note: Note|
        notes_of(config, after).contains(note) <==> notes_of(config, before).union(
            added,
        ).contains(note) by {
        if notes_of(config, after).contains(note) {
            let r = choose|r: int| row_sounds(config, after, r, note);
            if r < y {
                assert(after[r] == before[r]);
                assert(row_sounds(config, before, r, note));
            } else if note.1 < x {
                assert(after[r][note.1] == before[r][note.1]);
                assert(row_sounds(config, before, r, note));
            } else {
                assert(after[r][note.1] == cell);
                assert(added.contains(note));
            }
        }
        if notes_of(config, before).contains(note) {
            let r = choose|r: int| row_sounds(config, before, r, note);
            if r < y {
                assert(after[r] == before[r]);
            } else {
                assert(after[r][note.1] == before[r][note.1]);
            }
            assert(row_sounds(config, after, r, note));
        }
        if added.contains(note) {
            assert(after[y][x] == cell);
            assert(row_sounds(config, after, y, note));
        }
    }
    assert(notes_of(config, after) =~= notes_of(config, before).union(added));
}

/// A row without cells adds no notes.
proof fn lemma_notes_open(config: &Config, done: Seq<Seq<Cell>>)
    ensures
        notes_of(config, done.push(Seq::empty())) == notes_of(config, done),
{
    let after = done.push(Seq::<Cell>::empty());
    assert forall|note: Note|
        notes_of(config, after).contains(note) <==> notes_of(config, done).contains(note) by {
        if notes_of(config, after).contains(note) {
            let r = choose|r: int| row_sounds(config, after, r, note);
            assert(after[r] == done[r]);
            assert(row_sounds(config, done, r, note));
        }
        if notes_of(config, done).contains(note) {
            let r = choose|r: int| row_sounds(config, done, r, note);
            assert(after[r] == done[r]);
            assert(row_sounds(config, after, r, note));
        }
    }
    assert(notes_of(config, after) =~= notes_of(config, done));
}

/// A cell appended to the last row must itself be in range.
proof fn lemma_range_extend(config: &Config, done: Seq<Seq<Cell>>, partial: Seq<Cell>, cell: Cell)
    ensures
        rows_in_range(config, done.push(partial.push(cell))) <==> (rows_in_range(
            config,
            done.push(partial),
        ) && cell_in_range(config, cell, done.len() as int)),
{
    let before = done.push(partial);
    let after = done.push(partial.push(cell));
    let y = done.len() as int;
    let x = partial.len() as int;
    if rows_in_range(config, after) {
        assert(after[y][x] == cell);
        assert forall|r: int, c: int|
            0 <= r < before.len() && 0 <= c < before[r].len() implies cell_in_range(
            config,
            #[trigger] before[r][c],
            r,
        ) by {
            assert(after[r][c] == before[r][c]);
        }
    }
    if rows_in_range(config, before) && cell_in_range(config, cell, y) {
        assert forall|r: int, c: int|
            0 <= r < after.len() && 0 <= c < after[r].len() implies cell_in_range(
            config,
            #[trigger] after[r][c],
            r,
        ) by {
            if r < y || c < x {
                assert(after[r][c] == before[r][c]);
            }
        }
    }
}

/// A row without cells is in range.
proof fn lemma_range_open(config: &Config, done: Seq<Seq<Cell>>)
    ensures
        rows_in_range(config, done.push(Seq::empty())) <==> rows_in_range(config, done),
{
    let after = done.push(Seq::<Cell>::empty());
    if rows_in_range(config, after) {
        assert forall|r: int, c: int|
            0 <= r < done.len() && 0 <= c < done[r].len() implies cell_in_range(
            config,
            #[trigger] done[r][c],
            r,
        ) by {
            assert(after[r][c] == done[r][c]);
        }
    }
    if rows_in_range(config, done) {
        assert forall|r: int, c: int|
            0 <= r < after.len() && 0 <= c < after[r].len() implies cell_in_range(
            config,
            #[trigger] after[r][c],
            r,
        ) by {
            assert(after[r][c] == done[r][c]);
        }
    }
}

/// The nearest repeat-begin depends only on the cells before the column.
proof fn lemma_nearest_begin_prefix(config: &Config, row: Seq<Cell>, longer: Seq<Cell>, x: int)
    requires
        0 <= x <= row.len() <= longer.len(),
        forall|i: int| 0 <= i < row.len() ==> row[i] == longer[i],
    ensures
        nearest_begin(config, longer, x) == nearest_begin(config, row, x),
    decreases x,
{
    if x > 0 {
        lemma_nearest_begin_prefix(config, row, longer, x - 1);
    }
}

/// A cell appended to the last row adds a marker to its column if it is a
/// repeat-end, and changes no other column.
proof fn lemma_markers_extend(
    config: &Config,
    done: Seq<Seq<Cell>>,
    partial: Seq<Cell>,
    cell: Cell,
    x: int,
)
    requires
        0 <= x,
    ensures
        column_markers(config, done.push(partial.push(cell)), x) == if x == partial.len()
            && cell_is(config, cell, GMSFSheetType::RepeatEnd) {
            column_markers(config, done.push(partial), x).push(
                nearest_begin(config, partial, x) as usize,
            )
        } else {
            column_markers(config, done.push(partial), x)
        },
{
    let before = done.push(partial);
    let after = done.push(partial.push(cell));
    assert(before.drop_last() =~= done);
    assert(after.drop_last() =~= done);
    if x <= partial.len() {
        lemma_nearest_begin_prefix(config, partial, partial.push(cell), x);
    }
}

/// A row without cells adds no markers.
proof fn lemma_markers_open(config: &Config, done: Seq<Seq<Cell>>, x: int)
    ensures
        column_markers(config, done.push(Seq::empty()), x) == column_markers(config, done, x),
{
    assert(done.push(Seq::<Cell>::empty()).drop_last() =~= done);
}

/// One more placement in an audiogear cell adds its own notes.
proof fn lemma_pairs_extend(config: &Config, pairs: Seq<(u8, u8)>, pair: (u8, u8), row: int, x: int)
    ensures
        cell_notes(config, Cell::Audiogear(pairs.push(pair)), row, x) == cell_notes(
            config,
            Cell::Audiogear(pairs),
            row,
            x,
        ).union(
            if pair.0 != 0 {
                sound_notes(config, pair.0, pair.1 as int, x)
            } else {
                Set::empty()
            },
        ),
        pairs_in_range(config, pairs.push(pair)) <==> (pairs_in_range(config, pairs)
            && pair_in_range(config, pair)),
{
    let longer = pairs.push(pair);
    let added = if pair.0 != 0 {
        sound_notes(config, pair.0, pair.1 as int, x)
    } else {
        Set::empty()
    };
    let before = cell_notes(config, Cell::Audiogear(pairs), row, x);
    let after = cell_notes(config, Cell::Audiogear(longer), row, x);
    assert forall|note: Note| after.contains(note) <==> before.union(added).contains(note) by {
        if pairs_sound(config, longer, note.0, note.2) {
            let i = choose|i: int|
                0 <= i < longer.len() && pair_sounds(config, #[trigger] longer[i], note.0, note.2);
            if i < pairs.len() {
                assert(longer[i] == pairs[i]);
                assert(pairs_sound(config, pairs, note.0, note.2));
            } else {
                assert(longer[i] == pair);
            }
        }
        if pairs_sound(config, pairs, note.0, note.2) {
            let i = choose|i: int|
                0 <= i < pairs.len() && pair_sounds(config, #[trigger] pairs[i], note.0, note.2);
            assert(longer[i] == pairs[i]);
            assert(pairs_sound(config, longer, note.0, note.2));
        }
        if pair_sounds(config, pair, note.0, note.2) {
            assert(longer[pairs.len() as int] == pair);
            assert(pairs_sound(config, longer, note.0, note.2));
        }
    }
    assert(after =~= before.union(added));
    if pairs_in_range(config, longer) {
        assert(longer[pairs.len() as int] == pair);
        assert forall|i: int| 0 <= i < pairs.len() implies pair_in_range(
            config,
            #[trigger] pairs[i],
        ) by {
            assert(longer[i] == pairs[i]);
        }
    }
    if pairs_in_range(config, pairs) && pair_in_range(config, pair) {
        assert forall|i: int| 0 <= i < longer.len() implies pair_in_range(
            config,
            #[trigger] longer[i],
        ) by {
            if i < pairs.len() {
                assert(longer[i] == pairs[i]);
            } else {
                assert(longer[i] == pair);
            }
        }
    }
}

/// Reads the header of a document.
pub fn parse_header(data: &[u8]) -> (result: Result<Header, ConvertError>)
    ensures
        !has_magic(data@) ==> result == Err::<Header, _>(ConvertError::MalformedHeader),
        has_magic(data@) && data@.len() < HEADER_LEN ==> result == Err::<Header, _>(
            ConvertError::TruncatedInput,
        ),
        has_magic(data@) && data@.len() >= HEADER_LEN ==> result == Ok::<_, ConvertError>(
            header_of(data@),
        ),
{
    if data.len() < 4 || data[0] != 0x47 || data[1] != 0x4D || data[2] != 0x53 || data[3] != 0x46 {
        return Err(ConvertError::MalformedHeader);
    }
    if data.len() < HEADER_LEN {
        return Err(ConvertError::TruncatedInput);
    }
    Ok(
        Header {
            version: data[4],
            audiogear_id: data[5],
            bpm: data[6] as u16 + 256 * (data[7] as u16),
            width: data[8] as u16 + 256 * (data[9] as u16),
            height: data[10] as u16 + 256 * (data[11] as u16),
        },
    )
}

/// Places what symbol `id` sounds, taken for row `row`, at column `x`.
///
/// Returns whether the symbol may stand in that row, and what the
/// configuration reads the symbol as.  A symbol that may not stand there
/// leaves the roll as it was.
fn place_symbol(roll: &mut PianoRoll, config: &Config, id: u8, row: usize, x: usize) -> (placed:
    (bool, Option<GMSFSheetType>))
    requires
        old(roll).wf(),
        x < old(roll).spec_width(),
    ensures
        final(roll).wf(),
        final(roll).spec_width() == old(roll).spec_width(),
        placed.0 == config.in_range(id, row as int),
        placed.1 == config.symbol(id),
        placed.0 ==> final(roll)@ == old(roll)@.union(
            sound_notes(config, id, row as int, x as int),
        ),
        !placed.0 ==> final(roll)@ == old(roll)@,
{
    let symbol = config.symbol_of(id);
    let ok = match symbol {
        Some(sheet_type) => {
            match sheet_type {
                GMSFSheetType::Note(_, _) | GMSFSheetType::LowNote(_, _) | GMSFSheetType::Drums => {
                    if row < PITCH_ROWS {
                        match channel_and_key_from_gmsf_sheet(sheet_type, row) {
                            Some((channel, key)) => {
                                proof {
                                    crate::sheet::lemma_key_range(sheet_type, row as int);
                                }
                                roll.insert(channel, x, key);
                            },
                            None => {},
                        }
                        true
                    } else {
                        false
                    }
                },
                _ => true,
            }
        },
        None => true,
    };
    proof {
        if ok {
            assert(roll@ =~= old(roll)@.union(sound_notes(config, id, row as int, x as int)));
        }
    }
    (ok, symbol)
}

/// Places what the audiogear cell at `at` sounds at column `x`.
///
/// Returns whether every placement may stand in the row it names.
fn place_audiogear(
    roll: &mut PianoRoll,
    config: &Config,
    data: &[u8],
    at: usize,
    x: usize,
) -> (ok: bool)
    requires
        old(roll).wf(),
        x < old(roll).spec_width(),
        at + AUDIOGEAR_LEN <= data@.len(),
    ensures
        final(roll).wf(),
        final(roll).spec_width() == old(roll).spec_width(),
        ok == pairs_in_range(config, audiogear_pairs(data@, at as int)),
        ok ==> final(roll)@ == old(roll)@.union(
            cell_notes(config, Cell::Audiogear(audiogear_pairs(data@, at as int)), 0, x as int),
        ),
{
    let ghost pairs = audiogear_pairs(data@, at as int);
    let len = data.len();
    let mut ok = true;
    let mut i: usize = 0;
    proof {
        assert(pairs.take(0) =~= Seq::<(u8, u8)>::empty());
        assert(cell_notes(config, Cell::Audiogear(pairs.take(0)), 0, x as int) =~= Set::<
            Note,
        >::empty());
        assert(roll@ =~= old(roll)@.union(
            cell_notes(config, Cell::Audiogear(pairs.take(0)), 0, x as int),
        ));
    }
    while i < AUDIOGEAR_PAIRS
        invariant
            i <= AUDIOGEAR_PAIRS,
            len == data@.len(),
            at + AUDIOGEAR_LEN <= len,
            pairs == audiogear_pairs(data@, at as int),
            roll.wf(),
            roll.spec_width() == old(roll).spec_width(),
            x < roll.spec_width(),
            ok == pairs_in_range(config, pairs.take(i as int)),
            ok ==> roll@ == old(roll)@.union(
                cell_notes(config, Cell::Audiogear(pairs.take(i as int)), 0, x as int),
            ),
        decreases AUDIOGEAR_PAIRS - i,
    {
        let inner_id = data[at + 1 + 2 * i];
        let inner_row = data[at + 2 + 2 * i];
        proof {
            assert(pairs.take(i + 1) =~= pairs.take(i as int).push((inner_id, inner_row)));
            lemma_pairs_extend(config, pairs.take(i as int), (inner_id, inner_row), 0, x as int);
        }
        if inner_id != 0 {
            let placed = place_symbol(roll, config, inner_id, inner_row as usize, x);
            ok = ok && placed.0;
        }
        proof {
            if ok {
                assert(roll@ =~= old(roll)@.union(
                    cell_notes(config, Cell::Audiogear(pairs.take(i + 1)), 0, x as int),
                ));
            }
        }
        i += 1;
    }
    proof {
        assert(pairs.take(AUDIOGEAR_PAIRS as int) =~= pairs);
    }
    ok
}

/// Whether the decoder's state holds what the rows read so far mean.
spec fn reflects(
    roll: &PianoRoll,
    repeat_ends: &Vec<Vec<usize>>,
    in_range: bool,
    config: &Config,
    rows: Seq<Seq<Cell>>,
) -> bool {
    &&& roll.wf()
    &&& repeat_ends.len() == roll.spec_width()
    &&& forall|x: int|
        0 <= x < repeat_ends.len() ==> (#[trigger] repeat_ends[x])@ == column_markers(
            config,
            rows,
            x,
        )
    &&& in_range == rows_in_range(config, rows)
    &&& in_range ==> roll@ == notes_of(config, rows)
}

/// Decodes a document: checks the header, reads the grid row by row and
/// collects the notes and the repeat markers of every column.
pub fn decode_sheet(data: &[u8], config: &Config) -> (result: Result<Sheet, ConvertError>)
    ensures
        match decode_failure(data@, config) {
            Some(error) => result matches Err(e) && e == error,
            None => result matches Ok(sheet) && sheet.shows(
                config,
                header_of(data@),
                parse_grid(data@)->0,
            ),
        },
{
    let header = match parse_header(data) {
        Ok(header) => header,
        Err(error) => {
            return Err(error);
        },
    };
    let len = data.len();
    let width: usize = header.width as usize;
    let height: usize = header.height as usize;
    let marker = header.audiogear_id;
    let mut roll = PianoRoll::new(width);
    let mut repeat_ends: Vec<Vec<usize>> = Vec::new();
    let mut column: usize = 0;
    while column < width
        invariant
            column <= width,
            repeat_ends.len() == column,
            forall|x: int|
                0 <= x < column ==> (#[trigger] repeat_ends[x])@ == Seq::<usize>::empty(),
        decreases width - column,
    {
        repeat_ends.push(Vec::new());
        column += 1;
    }
    let mut in_range = true;
    let mut at: usize = HEADER_LEN;
    let ghost mut done: Seq<Seq<Cell>> = Seq::empty();
    proof {
        assert(notes_of(config, done) =~= Set::<Note>::empty());
    }
    let mut y: usize = 0;
    while y < height
        invariant
            y <= height,
            has_magic(data@),
            len == data@.len(),
            len >= HEADER_LEN,
            header == header_of(data@),
            width == header.width,
            height == header.height,
            marker == header.audiogear_id,
            width == roll.spec_width(),
            at <= len,
            done.len() == y,
            parse_rows(data@, marker, width as nat, HEADER_LEN as int, y as nat) == Some(
                (done, at as int),
            ),
            reflects(&roll, &repeat_ends, in_range, config, done),
        decreases height - y,
    {
        let ghost row_start = at;
        let ghost mut partial: Seq<Cell> = Seq::empty();
        let mut last_begin: usize = 0;
        proof {
            lemma_notes_open(config, done);
            lemma_range_open(config, done);
            assert forall|x: int| 0 <= x < repeat_ends.len() implies (#[trigger] repeat_ends[x])@
                == column_markers(config, done.push(partial), x) by {
                lemma_markers_open(config, done, x);
            }
        }
        let mut x: usize = 0;
        while x < width
            invariant
                x <= width,
                y < height,
                has_magic(data@),
                len == data@.len(),
                len >= HEADER_LEN,
                header == header_of(data@),
                width == header.width,
                height == header.height,
                marker == header.audiogear_id,
                width == roll.spec_width(),
                at <= len,
                done.len() == y,
                partial.len() == x,
                parse_rows(data@, marker, width as nat, HEADER_LEN as int, y as nat) == Some(
                    (done, row_start as int),
                ),
                parse_row(data@, marker, row_start as int, x as nat) == Some((partial, at as int)),
                reflects(&roll, &repeat_ends, in_range, config, done.push(partial)),
                last_begin == nearest_begin(config, partial, x as int),
                last_begin <= x,
            decreases width - x,
        {
            if at >= len || (data[at] != 0 && data[at] == marker && len - at < AUDIOGEAR_LEN) {
                proof {
                    assert(parse_cell(data@, marker, at as int) is None);
                    assert(parse_row(data@, marker, row_start as int, (x + 1) as nat) is None);
                    lemma_parse_row_fails(
                        data@,
                        marker,
                        row_start as int,
                        (x + 1) as nat,
                        width as nat,
                    );
                    assert(parse_rows(
                        data@,
                        marker,
                        width as nat,
                        HEADER_LEN as int,
                        (y + 1) as nat,
                    ) is None);
                    lemma_parse_rows_fails(
                        data@,
                        marker,
                        width as nat,
                        HEADER_LEN as int,
                        (y + 1) as nat,
                        height as nat,
                    );
                }
                return Err(ConvertError::TruncatedInput);
            }
            let id = data[at];
            let ghost parsed = parse_cell(data@, marker, at as int)->0;
            let ghost cell = parsed.0;
            let ghost rows_before = done.push(partial);
            let ghost roll_before = roll@;
            let ghost ends_before = markers_view(repeat_ends@);
            let mut cell_ok = true;
            let mut next_begin = last_begin;
            if id == 0 {
                at += 1;
                proof {
                    assert(cell_notes(config, cell, y as int, x as int) =~= Set::<Note>::empty());
                    assert(roll@ =~= roll_before.union(
                        cell_notes(config, cell, y as int, x as int),
                    ));
                }
            } else if id != marker {
                let placed = place_symbol(&mut roll, config, id, y, x);
                cell_ok = placed.0;
                match placed.1 {
                    Some(GMSFSheetType::RepeatBegin) => {
                        next_begin = x;
                    },
                    Some(GMSFSheetType::RepeatEnd) => {
                        repeat_ends[x].push(last_begin);
                    },
                    _ => {},
                }
                at += 1;
                proof {
                    assert(cell_notes(config, cell, y as int, x as int) =~= sound_notes(
                        config,
                        id,
                        y as int,
                        x as int,
                    ));
                }
            } else {
                cell_ok = place_audiogear(&mut roll, config, data, at, x);
                at += AUDIOGEAR_LEN;
                proof {
                    assert(cell_notes(config, cell, y as int, x as int) =~= cell_notes(
                        config,
                        cell,
                        0,
                        x as int,
                    ));
                }
            }
            proof {
                lemma_notes_extend(config, done, partial, cell);
                lemma_range_extend(config, done, partial, cell);
                assert forall|c: int| 0 <= c < repeat_ends.len() implies (
                #[trigger] repeat_ends[c])@ == column_markers(
                    config,
                    done.push(partial.push(cell)),
                    c,
                ) by {
                    lemma_markers_extend(config, done, partial, cell, c);
                    assert(ends_before[c] == column_markers(config, rows_before, c));
                }
                lemma_nearest_begin_prefix(config, partial, partial.push(cell), x as int);
                partial = partial.push(cell);
            }
            in_range = in_range && cell_ok;
            last_begin = next_begin;
            x += 1;
        }
        proof {
            done = done.push(partial);
        }
        y += 1;
    }
    if !in_range {
        return Err(ConvertError::RowOutOfRange);
    }
    proof {
        assert(markers_view(repeat_ends@) =~= markers_of(config, done, width as nat));
    }
    Ok(Sheet { bpm: header.bpm, roll, repeat_ends })
}

} // verus!
