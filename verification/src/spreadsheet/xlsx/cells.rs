//! The cells of an XLSX worksheet.

use crate::error::ErrorView;
use crate::error::RustySheetError;
use crate::error::SpreadsheetError;
use crate::helpers::text::number_value;
use crate::helpers::text::parse_usize;
use crate::helpers::text::same_text;
use crate::helpers::xml::attribute_value;
use crate::helpers::xml::event_views;
use crate::helpers::xml::AttributeView;
use crate::helpers::xml::XmlEvent;
use crate::helpers::xml::XmlTag;
use crate::helpers::xml::XmlView;
use crate::spreadsheet::cell::Cell;
use crate::spreadsheet::cell::CellType;
use crate::spreadsheet::cell::CellView;
use crate::spreadsheet::criteria::Criteria;
use crate::spreadsheet::reference::index_reference;
use crate::spreadsheet::reference::index_to_reference;
use crate::spreadsheet::reference::lemma_reference_within_limits;
use crate::spreadsheet::reference::merge_range;
use crate::spreadsheet::reference::parse_merge_range;
use crate::spreadsheet::reference::reference_index;
use crate::spreadsheet::reference::reference_to_index;
use crate::spreadsheet::resolve::resolve_number_format;
use crate::spreadsheet::resolve::style_type;
use crate::spreadsheet::sheet::Sheet;
use crate::spreadsheet::sheet::SheetView;
use crate::spreadsheet::xlsx::text::lemma_string_value_bounds;
use crate::spreadsheet::xlsx::text::read_string_value;
use crate::spreadsheet::xlsx::text::string_value;
use std::collections::HashMap;
use std::collections::HashSet;
use vstd::prelude::*;

verus! {

/// A row.
pub const TAG_ROW: &'static str = "row";

/// A cell.
pub const TAG_CELL: &'static str = "c";

/// A string that stands in its cell.
pub const TAG_INLINE_STRING: &'static str = "is";

/// The value of a cell.
pub const TAG_VALUE: &'static str = "v";

/// The list of merged ranges.
pub const TAG_MERGE_CELLS: &'static str = "mergeCells";

/// A merged range.
pub const TAG_MERGE_CELL: &'static str = "mergeCell";

/// A merged range: top row, left column, bottom row and right column.
pub type Merge = (usize, usize, usize, usize);

/// The type that a cell has by its attribute `t`.
pub open spec fn plain_type(t: Option<Seq<char>>, error_as_null: bool) -> CellType {
    match t {
        None => CellType::Number,
        Some(t) => if t == "inlineStr"@ || t == "str"@ {
            CellType::InlineString
        } else if t == "s"@ {
            CellType::SharedString
        } else if t == "d"@ {
            CellType::IsoDateTime
        } else if t == "b"@ {
            CellType::Boolean
        } else if t == "e"@ {
            if error_as_null {
                CellType::Empty
            } else {
                CellType::Error
            }
        } else {
            CellType::Number
        },
    }
}

/// The type that a cell has by its attributes `t` and `s`: the style tells numbers
/// from dates and times.
pub open spec fn cell_type(
    attributes: Seq<Result<AttributeView, Seq<char>>>,
    error_as_null: bool,
    formats: Seq<CellType>,
    sheet: SheetView,
    row: usize,
    col: usize,
) -> Result<CellType, ErrorView> {
    match attribute_value(attributes, "t"@) {
        Err(error) => Err(error),
        Ok(t) => {
            let kind = plain_type(t, error_as_null);
            match attribute_value(attributes, "s"@) {
                Err(error) => Err(error),
                Ok(None) => Ok(kind),
                Ok(Some(style)) => if kind != CellType::Number || style.len() == 0 {
                    Ok(kind)
                } else {
                    match number_value(style) {
                        Err(error) => Err(ErrorView::Number(error)),
                        Ok(index) => style_type(
                            formats,
                            sheet.file_name,
                            sheet.name,
                            row as nat,
                            col as nat,
                            index as nat,
                        ),
                    }
                },
            }
        },
    }
}

pub(crate) fn find_cell_type(
    tag: &XmlTag,
    error_as_null: bool,
    formats: &Vec<CellType>,
    sheet: &Sheet,
    row: usize,
    col: usize,
) -> (res: Result<CellType, RustySheetError>)
    ensures
        match cell_type(tag@.attributes, error_as_null, formats@, sheet@, row, col) {
            Ok(kind) => res == Ok::<CellType, RustySheetError>(kind),
            Err(error) => res matches Err(e) && e@ == error,
        },
{
    let kind = match tag.get_attribute_value("t") {
        Err(error) => return Err(error),
        Ok(None) => CellType::Number,
        Ok(Some(t)) => {
            if same_text(t.as_str(), "inlineStr") || same_text(t.as_str(), "str") {
                CellType::InlineString
            } else if same_text(t.as_str(), "s") {
                CellType::SharedString
            } else if same_text(t.as_str(), "d") {
                CellType::IsoDateTime
            } else if same_text(t.as_str(), "b") {
                CellType::Boolean
            } else if same_text(t.as_str(), "e") {
                if error_as_null {
                    CellType::Empty
                } else {
                    CellType::Error
                }
            } else {
                CellType::Number
            }
        },
    };
    match tag.get_attribute_value("s") {
        Err(error) => Err(error),
        Ok(None) => Ok(kind),
        Ok(Some(style)) => {
            if kind != CellType::Number || style.as_str().unicode_len() == 0 {
                Ok(kind)
            } else {
                match parse_usize(style.as_str()) {
                    Err(error) => Err(RustySheetError::Number(error)),
                    Ok(index) => resolve_number_format(
                        formats,
                        sheet.file_name.as_str(),
                        sheet.name.as_str(),
                        row,
                        col,
                        index,
                    ),
                }
            }
        },
    }
}

/// The position of a cell by its attribute `r`, or by the count of rows and cells
/// where there is none. A reference that denotes no cell is an error, or else is
/// passed over where the reader is `lenient`.
pub open spec fn cell_position(
    attributes: Seq<Result<AttributeView, Seq<char>>>,
    row_count: nat,
    col_count: nat,
    sheet: SheetView,
    lenient: bool,
) -> Result<(usize, usize), ErrorView> {
    match attribute_value(attributes, "r"@) {
        Err(error) => Err(error),
        Ok(None) => Ok((row_count as usize, col_count as usize)),
        Ok(Some(text)) => match reference_index(text) {
            Some((row, col)) => Ok((row as usize, col as usize)),
            None => if lenient {
                Ok((row_count as usize, col_count as usize))
            } else {
                Err(ErrorView::CellReferenceError(sheet.file_name, sheet.name, text))
            },
        },
    }
}

pub(crate) fn find_cell_position(
    tag: &XmlTag,
    row_count: usize,
    col_count: usize,
    sheet: &Sheet,
    lenient: bool,
) -> (res: Result<(usize, usize), RustySheetError>)
    ensures
        match cell_position(tag@.attributes, row_count as nat, col_count as nat, sheet@, lenient) {
            Ok(position) => res == Ok::<(usize, usize), RustySheetError>(position),
            Err(error) => res matches Err(e) && e@ == error,
        },
        res matches Ok((row, _)) ==> row < 1048576 || row == row_count,
{
    match tag.get_attribute_value("r") {
        Err(error) => Err(error),
        Ok(None) => Ok((row_count, col_count)),
        Ok(Some(text)) => {
            proof {
                lemma_reference_within_limits(text@);
            }
            match reference_to_index(text.as_str()) {
                Some(position) => Ok(position),
                None => if lenient {
                    Ok((row_count, col_count))
                } else {
                    Err(
                        RustySheetError::Spreadsheet(
                            SpreadsheetError::CellReferenceError(
                                sheet.file_name.clone(),
                                sheet.name.clone(),
                                text,
                            ),
                        ),
                    )
                },
            }
        },
    }
}

/// Whether the sheet ends before a cell in `row`, for a row without values came
/// before it.
pub open spec fn ends_before(
    end_at_empty_row: bool,
    last_row: Option<usize>,
    is_empty: bool,
    row: usize,
) -> bool {
    &&& end_at_empty_row
    &&& last_row matches Some(last)
    &&& (is_empty && last != row) || (!is_empty && last + 1 < row)
}

/// Decides whether the sheet ends before a cell in `row`.
pub fn sheet_ends(end_at_empty_row: bool, last_row: Option<usize>, is_empty: bool, row: usize) -> (res:
    bool)
    ensures
        res == ends_before(end_at_empty_row, last_row, is_empty, row),
{
    match last_row {
        Some(last) => end_at_empty_row && ((is_empty && last != row) || (!is_empty && last < row
            && row - last > 1)),
        None => false,
    }
}

/// The place of the merged range with the given top left corner.
pub open spec fn merge_place(merges: Seq<Merge>, row: usize, col: usize) -> Option<int>
    decreases merges.len(),
{
    if merges.len() == 0 {
        None
    } else if merges.last().0 == row && merges.last().1 == col {
        Some(merges.len() - 1)
    } else {
        merge_place(merges.drop_last(), row, col)
    }
}

/// The merged ranges with one more, which replaces one with the same top left
/// corner.
pub open spec fn with_merge(merges: Seq<Merge>, merge: Merge) -> Seq<Merge> {
    match merge_place(merges, merge.0, merge.1) {
        Some(place) => merges.update(place, merge),
        None => merges.push(merge),
    }
}

fn add_merge(merges: &mut Vec<Merge>, merge: Merge)
    ensures
        final(merges)@ == with_merge(old(merges)@, merge),
{
    let mut n: usize = merges.len();
    proof {
        assert(merges@.take(n as int) =~= merges@);
    }
    while n > 0
        invariant
            n <= merges@.len(),
            merges@ == old(merges)@,
            merge_place(merges@, merge.0, merge.1) == merge_place(
                merges@.take(n as int),
                merge.0,
                merge.1,
            ),
        decreases n,
    {
        let other: Merge = merges[n - 1];
        proof {
            assert(merges@.take(n as int).last() == other);
            assert(merges@.take(n as int).drop_last() =~= merges@.take(n - 1));
        }
        if other.0 == merge.0 && other.1 == merge.1 {
            merges.set(n - 1, merge);
            return;
        }
        n = n - 1;
    }
    merges.push(merge);
}

/// A number for each cell position.
pub open spec fn position_key(row: usize, col: usize) -> u128 {
    (row * 0x1_0000_0000_0000_0000 + col) as u128
}

pub(crate) fn make_key(row: usize, col: usize) -> (res: u128)
    ensures
        res == position_key(row, col),
{
    row as u128 * 0x1_0000_0000_0000_0000 + col as u128
}

pub(crate) proof fn lemma_keys_differ(row: usize, col: usize, other_row: usize, other_col: usize)
    ensures
        position_key(row, col) == position_key(other_row, other_col) <==> row == other_row && col
            == other_col,
{
}

/// The values of cells by their positions.
pub open spec fn values_by_position(map: Map<u128, (CellType, String)>) -> Map<
    (usize, usize),
    (CellType, Seq<char>),
> {
    Map::new(
        |at: (usize, usize)| map.contains_key(position_key(at.0, at.1)),
        |at: (usize, usize)|
            (map[position_key(at.0, at.1)].0, map[position_key(at.0, at.1)].1@),
    )
}

/// The positions with the given numbers.
pub open spec fn positions_of(set: Set<u128>) -> Set<(usize, usize)> {
    Set::new(|at: (usize, usize)| set.contains(position_key(at.0, at.1)))
}

/// How far a worksheet was read.
#[verifier::ext_equal]
pub struct SheetScan {
    /// How many rows ended.
    pub row_count: nat,
    /// How many cells of the row started.
    pub col_count: nat,
    /// The row of the current cell.
    pub row: usize,
    /// The column of the current cell.
    pub col: usize,
    /// The type of the current cell; [`CellType::Empty`] where it does not count.
    pub kind: CellType,
    /// The value of the current cell.
    pub value: Seq<char>,
    /// Whether the list of merged ranges is open.
    pub in_merge_cells: bool,
    /// The last row with a value, or the first one that is wanted.
    pub last_row: Option<usize>,
    /// The sheet with the cells so far.
    pub sheet: SheetView,
    /// The merged ranges so far.
    pub merges: Seq<Merge>,
    /// The values of all cells, in and out of the range, where they are wanted for
    /// merged ranges.
    pub stored: Map<(usize, usize), (CellType, Seq<char>)>,
    /// The positions of the sheet's cells, where they are wanted for merged ranges.
    pub seen: Set<(usize, usize)>,
}

/// What an event makes of a scan.
pub enum ScanStep {
    /// Reading goes on at the event with this number.
    Go(SheetScan, int),
    /// Reading ends.
    Stop(SheetScan),
    /// Reading fails.
    Fail(ErrorView),
}

/// The start of a worksheet's scan.
pub open spec fn scan_start(file_name: Seq<char>, name: Seq<char>, c: Criteria) -> SheetScan {
    let sheet = SheetView::empty(file_name, name, c.range, c.rows_limit, c.skip_empty_rows);
    SheetScan {
        row_count: 0,
        col_count: 0,
        row: 0,
        col: 0,
        kind: CellType::Empty,
        value: Seq::empty(),
        in_merge_cells: false,
        last_row: sheet.chunk_row_lower,
        sheet,
        merges: Seq::empty(),
        stored: Map::empty(),
        seen: Set::empty(),
    }
}

/// A cell starts: its position and type are found out. The flag tells whether the
/// sheet ends before it, as all further rows are unwanted.
pub open spec fn start_cell(
    s: SheetScan,
    attributes: Seq<Result<AttributeView, Seq<char>>>,
    c: Criteria,
    formats: Seq<CellType>,
) -> Result<(SheetScan, bool), ErrorView> {
    match cell_position(attributes, s.row_count, s.col_count, s.sheet, false) {
        Err(error) => Err(error),
        Ok((row, col)) => {
            let at = SheetScan { row, col, col_count: s.col_count + 1, ..s };
            if s.sheet.row_after(row as int) {
                Ok((at, true))
            } else if !s.sheet.has(row as int, col as int) && !c.spread_merged_cells {
                Ok((SheetScan { kind: CellType::Empty, ..at }, false))
            } else {
                match cell_type(attributes, c.error_as_null, formats, s.sheet, row, col) {
                    Err(error) => Err(error),
                    Ok(kind) => Ok((SheetScan { kind, ..at }, false)),
                }
            }
        },
    }
}

/// The current cell with its value.
pub open spec fn current_cell(s: SheetScan) -> CellView {
    CellView { row: s.row, col: s.col, kind: s.kind, value: s.value }
}

/// A cell ends: it joins the sheet where it has a value and lies in the range. The
/// flag tells whether the sheet ends before it.
pub open spec fn end_cell(s: SheetScan, c: Criteria) -> Result<(SheetScan, bool), ErrorView> {
    if s.kind == CellType::Empty || c.is_null(s.value) {
        Ok((SheetScan { value: Seq::empty(), ..s }, false))
    } else if s.kind == CellType::Error {
        Err(
            ErrorView::CellValueError(
                s.sheet.file_name,
                s.sheet.name,
                index_reference(s.row as nat, s.col as nat),
                s.value,
            ),
        )
    } else {
        let stored = if c.spread_merged_cells {
            s.stored.insert((s.row, s.col), (s.kind, s.value))
        } else {
            s.stored
        };
        if !s.sheet.has(s.row as int, s.col as int) {
            Ok((SheetScan { stored, value: Seq::empty(), ..s }, false))
        } else if ends_before(c.end_at_empty_row, s.last_row, s.sheet.cells.len() == 0, s.row) {
            Ok((SheetScan { stored, ..s }, true))
        } else {
            Ok(
                (
                    SheetScan {
                        stored,
                        value: Seq::empty(),
                        last_row: Some(s.row),
                        seen: if c.spread_merged_cells {
                            s.seen.insert((s.row, s.col))
                        } else {
                            s.seen
                        },
                        sheet: s.sheet.with(current_cell(s)),
                        ..s
                    },
                    false,
                ),
            )
        }
    }
}

/// A merged range is met.
pub open spec fn meet_merge(
    s: SheetScan,
    attributes: Seq<Result<AttributeView, Seq<char>>>,
) -> Result<SheetScan, ErrorView> {
    match attribute_value(attributes, "ref"@) {
        Err(error) => Err(error),
        Ok(None) => Ok(s),
        Ok(Some(text)) => match merge_range(text) {
            None => Ok(s),
            Some((top, left, bottom, right)) => Ok(
                SheetScan {
                    merges: with_merge(
                        s.merges,
                        (top as usize, left as usize, bottom as usize, right as usize),
                    ),
                    ..s
                },
            ),
        },
    }
}

/// What event `at` makes of a scan.
pub open spec fn scan_step(
    events: Seq<XmlView>,
    at: int,
    s: SheetScan,
    c: Criteria,
    formats: Seq<CellType>,
) -> ScanStep {
    match events[at] {
        XmlView::Fault(message) => ScanStep::Fail(ErrorView::Xml(message)),
        XmlView::Start(tag) => if c.spread_merged_cells && tag.name == TAG_MERGE_CELLS@ {
            ScanStep::Go(SheetScan { in_merge_cells: true, ..s }, at + 1)
        } else if c.spread_merged_cells && s.in_merge_cells && tag.name == TAG_MERGE_CELL@ {
            match meet_merge(s, tag.attributes) {
                Err(error) => ScanStep::Fail(error),
                Ok(next) => ScanStep::Go(next, at + 1),
            }
        } else if tag.name == TAG_CELL@ {
            match start_cell(s, tag.attributes, c, formats) {
                Err(error) => ScanStep::Fail(error),
                Ok((next, true)) => ScanStep::Stop(next),
                Ok((next, false)) => ScanStep::Go(next, at + 1),
            }
        } else if s.kind != CellType::Empty && (tag.name == TAG_INLINE_STRING@ || tag.name
            == TAG_VALUE@) {
            match string_value(events, at + 1, tag.name, tag.name != TAG_INLINE_STRING@) {
                Err(error) => ScanStep::Fail(error),
                Ok((value, end)) => ScanStep::Go(SheetScan { value, ..s }, end),
            }
        } else {
            ScanStep::Go(s, at + 1)
        },
        XmlView::End(name) => if c.spread_merged_cells && name == TAG_MERGE_CELLS@ {
            ScanStep::Go(SheetScan { in_merge_cells: false, ..s }, at + 1)
        } else if name == TAG_ROW@ {
            ScanStep::Go(SheetScan { row_count: s.row_count + 1, col_count: 0, ..s }, at + 1)
        } else if name == TAG_CELL@ {
            match end_cell(s, c) {
                Err(error) => ScanStep::Fail(error),
                Ok((next, true)) => ScanStep::Stop(next),
                Ok((next, false)) => ScanStep::Go(next, at + 1),
            }
        } else {
            ScanStep::Go(s, at + 1)
        },
        _ => ScanStep::Go(s, at + 1),
    }
}

/// The scan of a worksheet from event `at` on.
pub open spec fn scan_from(
    events: Seq<XmlView>,
    at: int,
    s: SheetScan,
    c: Criteria,
    formats: Seq<CellType>,
) -> Result<SheetScan, ErrorView>
    decreases events.len() - at,
{
    if at < 0 || at >= events.len() {
        Ok(s)
    } else {
        match scan_step(events, at, s, c, formats) {
            ScanStep::Fail(error) => Err(error),
            ScanStep::Stop(last) => Ok(last),
            ScanStep::Go(next, then_at) => {
                proof {
                    lemma_step_advances(events, at, s, c, formats);
                }
                scan_from(events, then_at, next, c, formats)
            },
        }
    }
}

/// Every step of a scan moves on, within the document.
pub proof fn lemma_step_advances(
    events: Seq<XmlView>,
    at: int,
    s: SheetScan,
    c: Criteria,
    formats: Seq<CellType>,
)
    requires
        0 <= at < events.len(),
    ensures
        scan_step(events, at, s, c, formats) matches ScanStep::Go(_, next) ==> at < next
            <= events.len(),
{
    if let XmlView::Start(tag) = events[at] {
        lemma_string_value_bounds(events, at + 1, tag.name, tag.name != TAG_INLINE_STRING@);
    }
}

/// The state of a reader of worksheets.
pub struct SheetScanner {
    row_count: usize,
    col_count: usize,
    row: usize,
    col: usize,
    kind: CellType,
    value: String,
    in_merge_cells: bool,
    last_row: Option<usize>,
    sheet: Sheet,
    merges: Vec<Merge>,
    stored: HashMap<u128, (CellType, String)>,
    seen: HashSet<u128>,
}

impl View for SheetScanner {
    type V = SheetScan;

    closed spec fn view(&self) -> SheetScan {
        SheetScan {
            row_count: self.row_count as nat,
            col_count: self.col_count as nat,
            row: self.row,
            col: self.col,
            kind: self.kind,
            value: self.value@,
            in_merge_cells: self.in_merge_cells,
            last_row: self.last_row,
            sheet: self.sheet@,
            merges: self.merges@,
            stored: values_by_position(self.stored@),
            seen: positions_of(self.seen@),
        }
    }
}

pub(crate) proof fn lemma_store_value(
    map: Map<u128, (CellType, String)>,
    row: usize,
    col: usize,
    value: (CellType, String),
)
    ensures
        values_by_position(map.insert(position_key(row, col), value)) == values_by_position(
            map,
        ).insert((row, col), (value.0, value.1@)),
{
    let now = map.insert(position_key(row, col), value);
    assert forall|at: (usize, usize)| #[trigger] position_key(at.0, at.1) == position_key(
        row,
        col,
    ) <==> at == (row, col) by {
        lemma_keys_differ(at.0, at.1, row, col);
    }
    assert(values_by_position(now) =~= values_by_position(map).insert(
        (row, col),
        (value.0, value.1@),
    ));
}

pub(crate) proof fn lemma_see_position(set: Set<u128>, row: usize, col: usize)
    ensures
        positions_of(set.insert(position_key(row, col))) == positions_of(set).insert((row, col)),
{
    assert forall|at: (usize, usize)| #[trigger] position_key(at.0, at.1) == position_key(
        row,
        col,
    ) <==> at == (row, col) by {
        lemma_keys_differ(at.0, at.1, row, col);
    }
    assert(positions_of(set.insert(position_key(row, col))) =~= positions_of(set).insert(
        (row, col),
    ));
}

impl SheetScanner {
    /// Whether a merged range was met.
    pub fn has_merges(&self) -> (res: bool)
        ensures
            res == (self@.merges.len() > 0),
    {
        self.merges.len() > 0
    }

    /// The sheet, the positions of its cells, the merged ranges and the values of
    /// all cells.
    pub fn into_parts(self) -> (res: (
        Sheet,
        HashSet<u128>,
        Vec<Merge>,
        HashMap<u128, (CellType, String)>,
    ))
        ensures
            res.0@ == self@.sheet,
            positions_of(res.1@) == self@.seen,
            res.2@ == self@.merges,
            values_by_position(res.3@) == self@.stored,
    {
        (self.sheet, self.seen, self.merges, self.stored)
    }

    fn new(file_name: &str, name: &str, criteria: &Criteria) -> (res: SheetScanner)
        ensures
            res@ == scan_start(file_name@, name@, *criteria),
            res.row_count == 0,
            res.col_count == 0,
    {
        broadcast use vstd::std_specs::hash::group_hash_axioms;

        let sheet = Sheet::new(
            file_name,
            name,
            criteria.range,
            criteria.rows_limit,
            criteria.skip_empty_rows,
        );
        let scanner = SheetScanner {
            row_count: 0,
            col_count: 0,
            row: 0,
            col: 0,
            kind: CellType::Empty,
            value: String::new(),
            in_merge_cells: false,
            last_row: sheet.chunk_row_lower,
            sheet,
            merges: Vec::new(),
            stored: HashMap::new(),
            seen: HashSet::new(),
        };
        proof {
            assert(scanner@.value =~= Seq::<char>::empty());
            assert(scanner@.merges =~= Seq::<Merge>::empty());
            assert(scanner@.stored =~= Map::<(usize, usize), (CellType, Seq<char>)>::empty());
            assert(scanner@.seen =~= Set::<(usize, usize)>::empty());
        }
        scanner
    }

    fn start_cell(&mut self, tag: &XmlTag, criteria: &Criteria, formats: &Vec<CellType>) -> (res:
        Result<bool, RustySheetError>)
        requires
            old(self).col_count < usize::MAX,
        ensures
            match start_cell(old(self)@, tag@.attributes, *criteria, formats@) {
                Ok((next, stop)) => {
                    &&& res == Ok::<bool, RustySheetError>(stop)
                    &&& final(self)@ == next
                    &&& final(self).row_count == old(self).row_count
                    &&& final(self).col_count == old(self).col_count + 1
                },
                Err(error) => res matches Err(e) && e@ == error,
            },
    {
        let (row, col) = match find_cell_position(
            tag,
            self.row_count,
            self.col_count,
            &self.sheet,
            false,
        ) {
            Ok(position) => position,
            Err(error) => return Err(error),
        };
        self.row = row;
        self.col = col;
        self.col_count = self.col_count + 1;
        if self.sheet.after_row_upper_bound(row) {
            return Ok(true);
        }
        if self.sheet.contains(row, col) || criteria.spread_merged_cells {
            match find_cell_type(tag, criteria.error_as_null, formats, &self.sheet, row, col) {
                Ok(kind) => {
                    self.kind = kind;
                },
                Err(error) => {
                    return Err(error);
                },
            }
        } else {
            self.kind = CellType::Empty;
        }
        Ok(false)
    }

    fn end_cell(&mut self, criteria: &Criteria) -> (res: Result<bool, RustySheetError>)
        ensures
            match end_cell(old(self)@, *criteria) {
                Ok((next, stop)) => {
                    &&& res == Ok::<bool, RustySheetError>(stop)
                    &&& final(self)@ == next
                    &&& final(self).row_count == old(self).row_count
                    &&& final(self).col_count == old(self).col_count
                },
                Err(error) => res matches Err(e) && e@ == error,
            },
    {
        broadcast use vstd::std_specs::hash::group_hash_axioms;

        if self.kind == CellType::Empty || criteria.contains_null(self.value.as_str()) {
            self.value.clear();
            return Ok(false);
        }
        if self.kind == CellType::Error {
            return Err(
                RustySheetError::Spreadsheet(
                    SpreadsheetError::CellValueError(
                        self.sheet.file_name.clone(),
                        self.sheet.name.clone(),
                        index_to_reference(self.row, self.col),
                        self.value.clone(),
                    ),
                ),
            );
        }
        let cell_in_range: bool = self.sheet.contains(self.row, self.col);
        if criteria.spread_merged_cells {
            let stored: (CellType, String) = (self.kind, self.value.clone());
            proof {
                lemma_store_value(self.stored@, self.row, self.col, stored);
            }
            self.stored.insert(make_key(self.row, self.col), stored);
        }
        if cell_in_range {
            if sheet_ends(
                criteria.end_at_empty_row,
                self.last_row,
                self.sheet.is_empty(),
                self.row,
            ) {
                return Ok(true);
            }
            self.last_row = Some(self.row);
            if criteria.spread_merged_cells {
                proof {
                    lemma_see_position(self.seen@, self.row, self.col);
                }
                self.seen.insert(make_key(self.row, self.col));
            }
            let cell = Cell {
                row: self.row,
                col: self.col,
                kind: self.kind,
                value: self.value.clone(),
            };
            self.sheet.push(cell);
        }
        self.value.clear();
        Ok(false)
    }

    fn meet_merge(&mut self, tag: &XmlTag) -> (res: Result<(), RustySheetError>)
        ensures
            match meet_merge(old(self)@, tag@.attributes) {
                Ok(next) => {
                    &&& res is Ok
                    &&& final(self)@ == next
                    &&& final(self).row_count == old(self).row_count
                    &&& final(self).col_count == old(self).col_count
                },
                Err(error) => res matches Err(e) && e@ == error,
            },
    {
        match tag.get_attribute_value("ref") {
            Err(error) => Err(error),
            Ok(None) => Ok(()),
            Ok(Some(text)) => {
                if let Some(merge) = parse_merge_range(text.as_str()) {
                    add_merge(&mut self.merges, merge);
                }
                Ok(())
            },
        }
    }
}

/// Reads the cells of a worksheet.
pub fn scan_sheet(
    events: &[XmlEvent],
    file_name: &str,
    name: &str,
    criteria: &Criteria,
    formats: &Vec<CellType>,
) -> (res: Result<SheetScanner, RustySheetError>)
    ensures
        match scan_from(
            event_views(events@),
            0,
            scan_start(file_name@, name@, *criteria),
            *criteria,
            formats@,
        ) {
            Ok(scan) => res matches Ok(scanner) && scanner@ == scan,
            Err(error) => res matches Err(e) && e@ == error,
        },
{
    let ghost views = event_views(events@);
    let ghost c = *criteria;
    let ghost whole = scan_from(views, 0, scan_start(file_name@, name@, c), c, formats@);
    let mut scanner = SheetScanner::new(file_name, name, criteria);
    let mut i: usize = 0;
    while i < events.len()
        invariant
            i <= events@.len(),
            views == event_views(events@),
            c == *criteria,
            whole == scan_from(views, 0, scan_start(file_name@, name@, c), c, formats@),
            whole == scan_from(views, i as int, scanner@, c, formats@),
            scanner.row_count <= i,
            scanner.col_count <= i,
        decreases events@.len() - i,
    {
        proof {
            assert(views[i as int] == events@[i as int]@);
            lemma_step_advances(views, i as int, scanner@, c, formats@);
        }
        let ghost before = scanner@;
        match &events[i] {
            XmlEvent::Fault(message) => {
                return Err(RustySheetError::Xml(message.clone()));
            },
            XmlEvent::Start(tag) => {
                if criteria.spread_merged_cells && tag.is(TAG_MERGE_CELLS) {
                    scanner.in_merge_cells = true;
                    i = i + 1;
                } else if criteria.spread_merged_cells && scanner.in_merge_cells && tag.is(
                    TAG_MERGE_CELL,
                ) {
                    match scanner.meet_merge(tag) {
                        Err(error) => {
                            return Err(error);
                        },
                        Ok(_) => {},
                    }
                    i = i + 1;
                } else if tag.is(TAG_CELL) {
                    match scanner.start_cell(tag, criteria, formats) {
                        Err(error) => {
                            return Err(error);
                        },
                        Ok(stop) => {
                            if stop {
                                return Ok(scanner);
                            }
                        },
                    }
                    i = i + 1;
                } else if scanner.kind != CellType::Empty && (tag.is(TAG_INLINE_STRING) || tag.is(
                    TAG_VALUE,
                )) {
                    let is_text: bool = !tag.is(TAG_INLINE_STRING);
                    match read_string_value(events, i + 1, tag.name.as_str(), is_text) {
                        Err(error) => {
                            return Err(error);
                        },
                        Ok((value, end)) => {
                            scanner.value = value;
                            i = end;
                        },
                    }
                } else {
                    i = i + 1;
                }
            },
            XmlEvent::End(tag) => {
                if criteria.spread_merged_cells && same_text(tag.as_str(), TAG_MERGE_CELLS) {
                    scanner.in_merge_cells = false;
                } else if same_text(tag.as_str(), TAG_ROW) {
                    scanner.row_count = scanner.row_count + 1;
                    scanner.col_count = 0;
                } else if same_text(tag.as_str(), TAG_CELL) {
                    match scanner.end_cell(criteria) {
                        Err(error) => {
                            return Err(error);
                        },
                        Ok(stop) => {
                            if stop {
                                return Ok(scanner);
                            }
                        },
                    }
                }
                i = i + 1;
            },
            _ => {
                i = i + 1;
            },
        }
    }
    Ok(scanner)
}

} // verus!
