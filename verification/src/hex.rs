//! The hexadecimal dump of a buffer, sixteen bytes to a row.

use vstd::prelude::*;
use crate::text::{count_of, lemma_count_absent, lemma_count_concat};

verus! {

/// How many bytes one row of the dump shows.
pub const ROW_BYTES: usize = 16;

/// The least number of digits an offset is written with.
pub const OFFSET_WIDTH: usize = 8;

/// The lower-case hexadecimal digit for a value below sixteen.
pub open spec fn hex_digit(d: int) -> char {
    if d < 10 {
        (48 + d) as char
    } else {
        (87 + d) as char
    }
}

/// The value of a lower-case hexadecimal digit.
pub open spec fn hex_value(c: char) -> int {
    if '0' <= c <= '9' {
        c as int - 48
    } else {
        c as int - 87
    }
}

/// `n` in lower-case hexadecimal, filled with zeros on the left up to
/// `width` digits, and longer where `n` needs more.
pub open spec fn hex_padded(n: nat, width: nat) -> Seq<char>
    decreases n, width,
{
    if n < 16 && width <= 1 {
        seq![hex_digit(n as int)]
    } else {
        hex_padded(
            n / 16,
            if width == 0 {
                0
            } else {
                (width - 1) as nat
            },
        ) + seq![hex_digit((n % 16) as int)]
    }
}

/// One byte of a row: two digits and a space.
pub open spec fn hex_cell(b: u8) -> Seq<char> {
    seq![hex_digit(b as int / 16), hex_digit(b as int % 16), ' ']
}

/// The cells of a run of bytes, one after the other.
pub open spec fn hex_cells(chunk: Seq<u8>) -> Seq<char>
    decreases chunk.len(),
{
    if chunk.len() == 0 {
        Seq::<char>::empty()
    } else {
        hex_cell(chunk[0]) + hex_cells(chunk.skip(1))
    }
}

/// The bytes that row `row` shows.
pub open spec fn row_chunk(bytes: Seq<u8>, row: nat) -> Seq<u8> {
    bytes.subrange(
        16 * row as int,
        if 16 * row + 16 <= bytes.len() {
            16 * row as int + 16
        } else {
            bytes.len() as int
        },
    )
}

/// Row `row` of the dump, without its line end: the offset of its first
/// byte, two spaces, and the cells.
pub open spec fn hex_row(bytes: Seq<u8>, row: nat) -> Seq<char> {
    hex_padded(16 * row, 8) + seq![' ', ' '] + hex_cells(row_chunk(bytes, row))
}

/// How many rows the dump of `len` bytes has.
pub open spec fn row_count(len: nat) -> nat {
    (len + 15) / 16
}

/// The rows from `row` on, each closed by a line end.
pub open spec fn hex_rows_from(bytes: Seq<u8>, row: nat) -> Seq<char>
    decreases
            (if 16 * row < bytes.len() {
                bytes.len() - 16 * row
            } else {
                0
            }),
{
    if 16 * row >= bytes.len() {
        Seq::<char>::empty()
    } else {
        hex_row(bytes, row) + seq!['\n'] + hex_rows_from(bytes, (row + 1) as nat)
    }
}

/// The whole dump. An empty buffer gives one empty line.
pub open spec fn hex_dump_of(bytes: Seq<u8>) -> Seq<char> {
    if bytes.len() == 0 {
        seq!['\n']
    } else {
        hex_rows_from(bytes, 0)
    }
}

/// The digit character for `d`.
pub fn digit_char(d: u8) -> (c: char)
    requires
        d < 16,
    ensures
        c == hex_digit(d as int),
{
    if d < 10 {
        (48u8 + d) as char
    } else {
        (87u8 + d) as char
    }
}

/// Appends `n` in hexadecimal, at least `width` digits wide.
pub fn push_hex_padded(out: &mut String, n: usize, width: usize)
    ensures
        final(out)@ == old(out)@ + hex_padded(n as nat, width as nat),
    decreases n, width,
{
    if n < 16 && width <= 1 {
        out.push(digit_char(n as u8));
        assert(old(out)@.push(hex_digit(n as int)) =~= old(out)@ + hex_padded(
            n as nat,
            width as nat,
        ));
    } else {
        let less: usize = if width == 0 {
            0
        } else {
            width - 1
        };
        push_hex_padded(out, n / 16, less);
        out.push(digit_char((n % 16) as u8));
        assert((old(out)@ + hex_padded((n / 16) as nat, less as nat)).push(
            hex_digit((n % 16) as int),
        ) =~= old(out)@ + hex_padded(n as nat, width as nat));
    }
}

/// Appends the cell of `b`.
pub fn push_hex_cell(out: &mut String, b: u8)
    ensures
        final(out)@ == old(out)@ + hex_cell(b),
{
    out.push(digit_char(b / 16));
    out.push(digit_char(b % 16));
    out.push(' ');
    assert(old(out)@.push(hex_digit(b as int / 16)).push(hex_digit(b as int % 16)).push(' ')
        =~= old(out)@ + hex_cell(b));
}

/// Renders `content` as a hexadecimal dump: rows of sixteen bytes, each
/// with the offset of its first byte in front.
pub fn print_hex(content: &[u8]) -> (out: String)
    ensures
        out@ == hex_dump_of(content@),
{
    let mut out = String::new();
    if content.len() == 0 {
        out.push('\n');
        assert(out@ =~= seq!['\n']);
        return out;
    }
    let mut start: usize = 0;
    let ghost mut row: nat = 0;
    assert(out@ + hex_rows_from(content@, 0) =~= hex_rows_from(content@, 0));
    while start < content.len()
        invariant
            start <= content.len(),
            start == 16 * row || (start == content.len() && 16 * row >= content.len()),
            out@ + hex_rows_from(content@, row) == hex_rows_from(content@, 0),
        decreases content.len() - start,
    {
        let end: usize = if content.len() - start >= ROW_BYTES {
            start + ROW_BYTES
        } else {
            content.len()
        };
        let ghost before = out@;
        let ghost chunk = row_chunk(content@, row);
        push_hex_padded(&mut out, start, OFFSET_WIDTH);
        out.push(' ');
        out.push(' ');
        let ghost head = out@;
        assert(head =~= before + hex_padded(16 * row, 8) + seq![' ', ' ']);
        let mut k: usize = start;
        assert(chunk.skip(0) =~= chunk);
        assert(out@ + hex_cells(chunk) =~= head + hex_cells(chunk));
        while k < end
            invariant
                start <= k <= end <= content.len(),
                chunk == content@.subrange(start as int, end as int),
                out@ + hex_cells(chunk.skip(k - start)) == head + hex_cells(chunk),
            decreases end - k,
        {
            let ghost rest = chunk.skip(k - start);
            let ghost sofar = out@;
            push_hex_cell(&mut out, content[k]);
            assert(rest[0] == content@[k as int]);
            assert(rest.skip(1) =~= chunk.skip(k + 1 - start));
            assert(sofar + hex_cell(rest[0]) + hex_cells(rest.skip(1)) =~= sofar + hex_cells(
                rest,
            ));
            k += 1;
        }
        assert(chunk.skip(end - start) =~= Seq::<u8>::empty());
        assert(out@ =~= head + hex_cells(chunk));
        out.push('\n');
        proof {
            let tail = hex_rows_from(content@, (row + 1) as nat);
            assert(out@ + tail =~= before + (hex_row(content@, row) + seq!['\n'] + tail));
            row = row + 1;
        }
        start = end;
    }
    assert(out@ + Seq::<char>::empty() =~= out@);
    out
}

/// The index of the first `c` in `s`, or the length of `s` if there is none.
pub open spec fn first_index_of(s: Seq<char>, c: char) -> int
    decreases s.len(),
{
    if s.len() == 0 || s[0] == c {
        0
    } else {
        1 + first_index_of(s.skip(1), c)
    }
}

/// Reads cells back: of every three characters the first two are the
/// digits of one byte.
pub open spec fn decode_cells(s: Seq<char>) -> Seq<u8>
    decreases s.len(),
{
    if s.len() < 3 {
        Seq::<u8>::empty()
    } else {
        seq![(hex_value(s[0]) * 16 + hex_value(s[1])) as u8] + decode_cells(s.skip(3))
    }
}

/// Reads one row back: the cells start two characters after the first
/// space.
pub open spec fn decode_row(row: Seq<char>) -> Seq<u8> {
    let cut = first_index_of(row, ' ') + 2;
    if 0 <= cut <= row.len() {
        decode_cells(row.skip(cut))
    } else {
        Seq::<u8>::empty()
    }
}

/// Reads a dump back, line by line.
pub open spec fn decode_dump(text: Seq<char>) -> Seq<u8>
    decreases text.len(),
{
    if text.len() == 0 {
        Seq::<u8>::empty()
    } else {
        let n = first_index_of(text, '\n');
        if 0 <= n < text.len() {
            decode_row(text.take(n)) + decode_dump(text.skip(n + 1))
        } else {
            decode_row(text)
        }
    }
}

/// A digit is neither a space nor a line end, and reads back as its value.
pub proof fn lemma_hex_digit(d: int)
    requires
        0 <= d < 16,
    ensures
        hex_digit(d) != ' ',
        hex_digit(d) != '\n',
        hex_value(hex_digit(d)) == d,
{
}

/// An offset holds digits only.
pub proof fn lemma_padded_digits(n: nat, width: nat)
    ensures
        hex_padded(n, width).len() >= 1,
        hex_padded(n, width).len() >= width,
        forall|i: int|
            0 <= i < hex_padded(n, width).len() ==> {
                &&& (#[trigger] hex_padded(n, width)[i]) != ' '
                &&& hex_padded(n, width)[i] != '\n'
            },
    decreases n, width,
{
    if n < 16 && width <= 1 {
        lemma_hex_digit(n as int);
    } else {
        let less: nat = if width == 0 {
            0
        } else {
            (width - 1) as nat
        };
        lemma_padded_digits(n / 16, less);
        lemma_hex_digit((n % 16) as int);
    }
}

/// The cells of a run hold no line end, three characters a byte.
pub proof fn lemma_cells_shape(chunk: Seq<u8>)
    ensures
        hex_cells(chunk).len() == 3 * chunk.len(),
        forall|i: int| 0 <= i < hex_cells(chunk).len() ==> (#[trigger] hex_cells(chunk)[i]) != '\n',
    decreases chunk.len(),
{
    if chunk.len() > 0 {
        lemma_cells_shape(chunk.skip(1));
        lemma_hex_digit(chunk[0] as int / 16);
        lemma_hex_digit(chunk[0] as int % 16);
    }
}

/// Reading the cells of a run back gives the run.
pub proof fn lemma_cells_round_trip(chunk: Seq<u8>)
    ensures
        decode_cells(hex_cells(chunk)) == chunk,
    decreases chunk.len(),
{
    if chunk.len() > 0 {
        let text = hex_cells(chunk);
        lemma_cells_round_trip(chunk.skip(1));
        lemma_hex_digit(chunk[0] as int / 16);
        lemma_hex_digit(chunk[0] as int % 16);
        assert(text.skip(3) =~= hex_cells(chunk.skip(1)));
        assert(text[0] == hex_digit(chunk[0] as int / 16));
        assert(text[1] == hex_digit(chunk[0] as int % 16));
        assert(seq![chunk[0]] + chunk.skip(1) =~= chunk);
    }
}

/// Where `c` is not in `a`, the first `c` of `a + b` is the first of `b`.
pub proof fn lemma_first_index_after(a: Seq<char>, b: Seq<char>, c: char)
    requires
        forall|i: int| 0 <= i < a.len() ==> a[i] != c,
    ensures
        first_index_of(a + b, c) == a.len() + first_index_of(b, c),
    decreases a.len(),
{
    if a.len() == 0 {
        assert(a + b =~= b);
    } else {
        assert((a + b)[0] == a[0]);
        assert((a + b).skip(1) =~= a.skip(1) + b);
        lemma_first_index_after(a.skip(1), b, c);
    }
}

/// A row holds no line end, and reads back as the bytes it shows.
pub proof fn lemma_row_round_trip(bytes: Seq<u8>, row: nat)
    requires
        16 * row < bytes.len(),
    ensures
        forall|i: int|
            0 <= i < hex_row(bytes, row).len() ==> (#[trigger] hex_row(bytes, row)[i]) != '\n',
        decode_row(hex_row(bytes, row)) == row_chunk(bytes, row),
{
    let offset = hex_padded(16 * row, 8);
    let cells = hex_cells(row_chunk(bytes, row));
    let tail = seq![' ', ' '] + cells;
    lemma_padded_digits(16 * row, 8);
    lemma_cells_shape(row_chunk(bytes, row));
    lemma_cells_round_trip(row_chunk(bytes, row));
    assert(hex_row(bytes, row) =~= offset + tail);
    lemma_first_index_after(offset, tail, ' ');
    assert(tail[0] == ' ');
    assert(first_index_of(tail, ' ') == 0);
    assert(hex_row(bytes, row).skip(offset.len() as int + 2) =~= cells);
}

/// Reading the rows from `row` on back gives the bytes from that row on.
pub proof fn lemma_rows_round_trip(bytes: Seq<u8>, row: nat)
    requires
        16 * row <= bytes.len(),
    ensures
        decode_dump(hex_rows_from(bytes, row)) == bytes.skip(16 * row as int),
        count_of(hex_rows_from(bytes, row), '\n') == row_count(bytes.len()) - row,
    decreases bytes.len() - 16 * row,
{
    if 16 * row >= bytes.len() {
        assert(bytes.skip(16 * row as int) =~= Seq::<u8>::empty());
        assert(row_count(bytes.len()) == row);
        assert(count_of(hex_rows_from(bytes, row), '\n') == 0);
    } else {
        let line = hex_row(bytes, row);
        let next = (row + 1) as nat;
        let rest = hex_rows_from(bytes, next);
        let text = hex_rows_from(bytes, row);
        lemma_row_round_trip(bytes, row);
        assert(text =~= line + (seq!['\n'] + rest));
        lemma_first_index_after(line, seq!['\n'] + rest, '\n');
        assert((seq!['\n'] + rest)[0] == '\n');
        assert(first_index_of(text, '\n') == line.len());
        assert(text.take(line.len() as int) =~= line);
        assert(text.skip(line.len() as int + 1) =~= rest);
        lemma_count_concat(line, seq!['\n'] + rest, '\n');
        lemma_count_absent(line, '\n');
        assert((seq!['\n'] + rest).skip(1) =~= rest);
        assert(count_of(seq!['\n'] + rest, '\n') == count_of(rest, '\n') + 1);
        assert(count_of(text, '\n') == count_of(rest, '\n') + 1);
        assert(text.len() == line.len() + 1 + rest.len());
        assert(decode_dump(text) == decode_row(line) + decode_dump(rest));
        if 16 * next <= bytes.len() {
            lemma_rows_round_trip(bytes, next);
            assert(row_chunk(bytes, row) + bytes.skip(16 * next as int) =~= bytes.skip(
                16 * row as int,
            ));
        } else {
            assert(rest =~= Seq::<char>::empty());
            assert(count_of(rest, '\n') == 0);
            assert(row_count(bytes.len()) == row + 1);
            assert(decode_dump(rest) =~= Seq::<u8>::empty());
            assert(row_chunk(bytes, row) + Seq::<u8>::empty() =~= bytes.skip(16 * row as int));
        }
    }
}

/// Reading a dump back, digit pair by digit pair, gives the buffer that
/// was dumped.
pub proof fn lemma_hex_dump_round_trip(bytes: Seq<u8>)
    ensures
        decode_dump(hex_dump_of(bytes)) == bytes,
{
    if bytes.len() == 0 {
        let text = seq!['\n'];
        assert(first_index_of(text, '\n') == 0);
        assert(text.take(0) =~= Seq::<char>::empty());
        assert(text.skip(1) =~= Seq::<char>::empty());
        assert(first_index_of(Seq::<char>::empty(), ' ') == 0);
        assert(decode_row(Seq::<char>::empty()) =~= Seq::<u8>::empty());
        assert(decode_dump(Seq::<char>::empty()) =~= Seq::<u8>::empty());
        assert(decode_dump(text) == decode_row(text.take(0)) + decode_dump(text.skip(1)));
        assert(decode_dump(text) =~= bytes);
    } else {
        lemma_rows_round_trip(bytes, 0);
        assert(bytes.skip(0) =~= bytes);
    }
}

/// A dump has one line for every sixteen bytes begun; the dump of the
/// empty buffer is one empty line.
pub proof fn lemma_hex_dump_rows(bytes: Seq<u8>)
    ensures
        bytes.len() > 0 ==> count_of(hex_dump_of(bytes), '\n') == row_count(bytes.len()),
        bytes.len() == 0 ==> hex_dump_of(bytes) == seq!['\n'],
        row_count(bytes.len()) * 16 >= bytes.len() > (row_count(bytes.len()) - 1) * 16,
{
    if bytes.len() > 0 {
        lemma_rows_round_trip(bytes, 0);
    }
}

} // verus!
