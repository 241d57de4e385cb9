//! Rendering revision headers as a table of fixed-width, left-aligned
//! columns.

use crate::container::archive::{get_anno_revlog_from_mda, spec_get_anno_revlog};
use crate::error::MdaError;
use crate::revlog::model::{HeaderSpec, RevlogHeader};
use crate::text::string_of;
use vstd::prelude::*;

verus! {

/// The lower-case hexadecimal digit for a value below sixteen.
pub open spec fn spec_hex_digit(n: int) -> char {
    if n == 0 {
        '0'
    } else if n == 1 {
        '1'
    } else if n == 2 {
        '2'
    } else if n == 3 {
        '3'
    } else if n == 4 {
        '4'
    } else if n == 5 {
        '5'
    } else if n == 6 {
        '6'
    } else if n == 7 {
        '7'
    } else if n == 8 {
        '8'
    } else if n == 9 {
        '9'
    } else if n == 10 {
        'a'
    } else if n == 11 {
        'b'
    } else if n == 12 {
        'c'
    } else if n == 13 {
        'd'
    } else if n == 14 {
        'e'
    } else {
        'f'
    }
}

/// The first six bytes of an id as twelve hexadecimal digits, two for each
/// byte, the high half first.
pub open spec fn spec_short_hex(id: Seq<u8>) -> Seq<char> {
    Seq::new(
        12,
        |i: int|
            if i % 2 == 0 {
                spec_hex_digit(id[i / 2] as int / 16)
            } else {
                spec_hex_digit(id[i / 2] as int % 16)
            },
    )
}

/// The decimal digits of a natural number, without leading zeros.
pub open spec fn spec_decimal(n: nat) -> Seq<char>
    decreases n,
{
    if n < 10 {
        seq![spec_hex_digit(n as int)]
    } else {
        spec_decimal(n / 10).push(spec_hex_digit((n % 10) as int))
    }
}

/// The decimal form of an integer, with a minus sign where it is negative.
pub open spec fn spec_signed_decimal(x: int) -> Seq<char> {
    if x < 0 {
        seq!['-'] + spec_decimal((-x) as nat)
    } else {
        spec_decimal(x as nat)
    }
}

/// `cell` filled up with spaces on the right to `width` characters; a cell
/// that is wider stays as it is.
pub open spec fn spec_pad(cell: Seq<char>, width: int) -> Seq<char> {
    if cell.len() >= width {
        cell
    } else {
        cell + Seq::new((width - cell.len()) as nat, |i: int| ' ')
    }
}

/// The widths of the eight columns.
pub open spec fn spec_column_widths() -> Seq<int> {
    seq![6, 8, 7, 6, 7, 12, 12, 40]
}

/// Cells as one line: each padded to its width, with one space between
/// neighbours.
pub open spec fn spec_join(cells: Seq<Seq<char>>, widths: Seq<int>) -> Seq<char>
    decreases cells.len(),
{
    if cells.len() == 0 {
        Seq::empty()
    } else if cells.len() == 1 {
        spec_pad(cells[0], widths[0])
    } else {
        spec_join(cells.drop_last(), widths) + seq![' '] + spec_pad(
            cells.last(),
            widths[cells.len() - 1],
        )
    }
}

/// Eight cells as one line of the table.
pub open spec fn spec_row(cells: Seq<Seq<char>>) -> Seq<char> {
    spec_join(cells, spec_column_widths())
}

/// The cells of the title line.
pub open spec fn spec_title_cells() -> Seq<Seq<char>> {
    seq![
        seq!['r', 'e', 'v'],
        seq!['o', 'f', 'f', 's', 'e', 't'],
        seq!['l', 'e', 'n', 'g', 't', 'h'],
        seq!['d', 'e', 'l', 't', 'a'],
        seq!['l', 'i', 'n', 'k', 'r', 'e', 'v'],
        seq!['n', 'o', 'd', 'e', 'i', 'd'],
        seq!['p', '1'],
        seq!['p', '2'],
    ]
}

/// The cells of the line for one header: revision, offset, length, base
/// revision, link revision, and the short forms of the node id and of the
/// two parents. The latest revision is marked with a star.
pub open spec fn spec_header_cells(h: HeaderSpec, latest: bool) -> Seq<Seq<char>> {
    seq![
        if latest {
            spec_decimal(h.rev as nat).push('*')
        } else {
            spec_decimal(h.rev as nat)
        },
        spec_decimal(h.offset as nat),
        spec_decimal(h.length as nat),
        spec_signed_decimal(h.baserev as int),
        spec_signed_decimal(h.linkrev as int),
        spec_short_hex(h.nodeid),
        spec_short_hex(h.p1rev),
        spec_short_hex(h.p2rev),
    ]
}

/// The table for `headers`: the title line, then one line for each header.
pub open spec fn spec_table(headers: Seq<HeaderSpec>) -> Seq<Seq<char>> {
    Seq::new(
        headers.len() + 1,
        |i: int|
            if i == 0 {
                spec_row(spec_title_cells())
            } else {
                spec_row(spec_header_cells(headers[i - 1], i == headers.len()))
            },
    )
}

/// The lines of text in `lines` are the lines of `table`.
pub open spec fn is_table(lines: Seq<String>, table: Seq<Seq<char>>) -> bool {
    &&& lines.len() == table.len()
    &&& forall|i: int| 0 <= i < lines.len() ==> (#[trigger] lines[i])@ == table[i]
}

/// Gives the hexadecimal digit for `n`.
pub fn hex_digit(n: u8) -> (res: char)
    requires
        n < 16,
    ensures
        res == spec_hex_digit(n as int),
{
    if n == 0 {
        '0'
    } else if n == 1 {
        '1'
    } else if n == 2 {
        '2'
    } else if n == 3 {
        '3'
    } else if n == 4 {
        '4'
    } else if n == 5 {
        '5'
    } else if n == 6 {
        '6'
    } else if n == 7 {
        '7'
    } else if n == 8 {
        '8'
    } else if n == 9 {
        '9'
    } else if n == 10 {
        'a'
    } else if n == 11 {
        'b'
    } else if n == 12 {
        'c'
    } else if n == 13 {
        'd'
    } else if n == 14 {
        'e'
    } else {
        'f'
    }
}

fn short_hex_chars(nodeid: &[u8; 20]) -> (res: Vec<char>)
    ensures
        res@ == spec_short_hex(nodeid@),
{
    let mut chars: Vec<char> = Vec::new();
    let mut i: usize = 0;
    while i < 6
        invariant
            0 <= i <= 6,
            chars.len() == 2 * i,
            forall|k: int| 0 <= k < 2 * i ==> chars[k] == spec_short_hex(nodeid@)[k],
        decreases 6 - i,
    {
        let byte = nodeid[i];
        chars.push(hex_digit(byte / 16));
        chars.push(hex_digit(byte % 16));
        i = i + 1;
    }
    assert(chars@ =~= spec_short_hex(nodeid@));
    chars
}

/// Renders the first six bytes of `nodeid` as twelve hexadecimal digits.
pub fn nodeid_to_short_hex(nodeid: &[u8; 20]) -> (res: String)
    ensures
        res@ == spec_short_hex(nodeid@),
{
    let chars = short_hex_chars(nodeid);
    string_of(&chars)
}

fn push_decimal(out: &mut Vec<char>, n: u64)
    ensures
        final(out)@ == old(out)@ + spec_decimal(n as nat),
    decreases n,
{
    if n < 10 {
        out.push(hex_digit(n as u8));
        assert(out@ =~= old(out)@ + spec_decimal(n as nat));
    } else {
        push_decimal(out, n / 10);
        out.push(hex_digit((n % 10) as u8));
        assert(out@ =~= old(out)@ + spec_decimal(n as nat));
    }
}

fn push_signed_decimal(out: &mut Vec<char>, x: i32)
    ensures
        final(out)@ == old(out)@ + spec_signed_decimal(x as int),
{
    if x < 0 {
        out.push('-');
        push_decimal(out, (-(x as i64)) as u64);
        assert(out@ =~= old(out)@ + spec_signed_decimal(x as int));
    } else {
        push_decimal(out, x as u64);
    }
}

fn push_padded(line: &mut Vec<char>, cell: &Vec<char>, width: usize)
    ensures
        final(line)@ == old(line)@ + spec_pad(cell@, width as int),
{
    let ghost start = line@;
    let mut i: usize = 0;
    while i < cell.len()
        invariant
            0 <= i <= cell.len(),
            line@ == start + cell@.take(i as int),
        decreases cell.len() - i,
    {
        line.push(cell[i]);
        assert(line@ =~= start + cell@.take(i as int + 1));
        i = i + 1;
    }
    assert(cell@.take(i as int) =~= cell@);
    let mut written: usize = cell.len();
    while written < width
        invariant
            cell.len() <= written,
            cell.len() < width ==> written <= width,
            cell.len() >= width ==> written == cell.len(),
            line@ == start + cell@ + Seq::new((written - cell.len()) as nat, |k: int| ' '),
        decreases width - written,
    {
        line.push(' ');
        assert(line@ =~= start + cell@ + Seq::new((written + 1 - cell.len()) as nat, |k: int| ' '));
        written = written + 1;
    }
    assert(spec_pad(cell@, width as int) =~= cell@ + Seq::new(
        (written - cell.len()) as nat,
        |k: int| ' ',
    ));
    assert(line@ =~= start + spec_pad(cell@, width as int));
}

fn row_of(cells: &Vec<Vec<char>>) -> (res: Vec<char>)
    requires
        cells.len() == 8,
    ensures
        res@ == spec_row(cells.deep_view()),
{
    let widths: [usize; 8] = [6, 8, 7, 6, 7, 12, 12, 40];
    let mut line: Vec<char> = Vec::new();
    let mut k: usize = 0;
    assert(cells.deep_view().take(0) =~= Seq::<Seq<char>>::empty());
    while k < 8
        invariant
            0 <= k <= 8,
            cells.len() == 8,
            forall|j: int| 0 <= j < 8 ==> widths@[j] == spec_column_widths()[j],
            line@ == spec_join(cells.deep_view().take(k as int), spec_column_widths()),
        decreases 8 - k,
    {
        if k > 0 {
            line.push(' ');
        }
        push_padded(&mut line, &cells[k], widths[k]);
        proof {
            let grown = cells.deep_view().take(k as int + 1);
            assert(grown.drop_last() =~= cells.deep_view().take(k as int));
            assert(grown.last() == cells[k as int]@);
            assert(grown[0] == cells[0]@);
        }
        k = k + 1;
    }
    assert(cells.deep_view().take(k as int) =~= cells.deep_view());
    line
}

fn title_cells() -> (res: Vec<Vec<char>>)
    ensures
        res.len() == 8,
        res.deep_view() == spec_title_cells(),
{
    let cells = vec![
        vec!['r', 'e', 'v'],
        vec!['o', 'f', 'f', 's', 'e', 't'],
        vec!['l', 'e', 'n', 'g', 't', 'h'],
        vec!['d', 'e', 'l', 't', 'a'],
        vec!['l', 'i', 'n', 'k', 'r', 'e', 'v'],
        vec!['n', 'o', 'd', 'e', 'i', 'd'],
        vec!['p', '1'],
        vec!['p', '2'],
    ];
    assert(cells.deep_view() =~~= spec_title_cells());
    cells
}

fn header_cells(header: &RevlogHeader, latest: bool) -> (res: Vec<Vec<char>>)
    ensures
        res.len() == 8,
        res.deep_view() == spec_header_cells(header@, latest),
{
    let mut rev: Vec<char> = Vec::new();
    push_decimal(&mut rev, header.rev as u64);
    if latest {
        rev.push('*');
    }
    let mut offset: Vec<char> = Vec::new();
    push_decimal(&mut offset, header.offset);
    let mut length: Vec<char> = Vec::new();
    push_decimal(&mut length, header.length as u64);
    let mut baserev: Vec<char> = Vec::new();
    push_signed_decimal(&mut baserev, header.baserev);
    let mut linkrev: Vec<char> = Vec::new();
    push_signed_decimal(&mut linkrev, header.linkrev);
    let cells = vec![
        rev,
        offset,
        length,
        baserev,
        linkrev,
        short_hex_chars(&header.nodeid),
        short_hex_chars(&header.p1rev),
        short_hex_chars(&header.p2rev),
    ];
    assert(cells.deep_view() =~~= spec_header_cells(header@, latest));
    cells
}

/// Renders the table of `headers`: a title line, then one line for each
/// header, the latest marked with a star after its revision number.
pub fn print_revlog_headers(headers: &Vec<RevlogHeader>) -> (res: Vec<String>)
    ensures
        is_table(res@, spec_table(headers.deep_view())),
{
    let mut lines: Vec<String> = Vec::new();
    let title = row_of(&title_cells());
    lines.push(string_of(&title));
    let mut i: usize = 0;
    while i < headers.len()
        invariant
            0 <= i <= headers.len(),
            lines.len() == i + 1,
            forall|k: int|
                0 <= k < lines.len() ==> (#[trigger] lines[k])@ == spec_table(
                    headers.deep_view(),
                )[k],
        decreases headers.len() - i,
    {
        let latest = i == headers.len() - 1;
        let row = row_of(&header_cells(&headers[i], latest));
        lines.push(string_of(&row));
        i = i + 1;
    }
    lines
}

/// The table of the headers of the archive `b` up to revision `rev`.
pub open spec fn spec_read_anno(b: Seq<u8>, rev: i32) -> Result<Seq<Seq<char>>, MdaError> {
    match spec_get_anno_revlog(b, rev) {
        Ok(revlog) => Ok(spec_table(revlog.headers)),
        Err(e) => Err(e),
    }
}

/// Reads the revision log of an archive up to revision `rev` and renders
/// the table of its headers.
pub fn read_anno_from_mda(bytes: &[u8], rev: i32) -> (res: Result<Vec<String>, MdaError>)
    ensures
        match spec_read_anno(bytes@, rev) {
            Ok(table) => res.is_ok() && is_table(res.unwrap()@, table),
            Err(e) => res matches Err(x) && x == e,
        },
{
    match get_anno_revlog_from_mda(bytes, rev) {
        Ok(revlog) => Ok(print_revlog_headers(&revlog.headers)),
        Err(e) => Err(e),
    }
}

} // verus!
