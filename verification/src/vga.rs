use vstd::prelude::*;

verus! {

/// Columns of the text screen.
pub const WIDTH: usize = 80;
/// Rows of the text screen.
pub const HEIGHT: usize = 25;
/// White on black.
pub const DEFAULT_COLOR: u8 = 0x0f;

/// Size in bytes of the text buffer.
pub const BUFFER_BYTES: usize = 4000;

/// One byte to store at `offset` in the text buffer: each cell is a
/// character byte followed by an attribute byte.
#[derive(Clone, Copy, Debug, PartialEq, Eq, Structural)]
pub struct CellWrite {
    pub offset: usize,
    pub value: u8,
}

/// The two writes that show `byte` in the default color in cell `cell`.
pub open spec fn cell_writes(cell: int, byte: u8) -> Seq<CellWrite> {
    seq![
        CellWrite { offset: (cell * 2) as usize, value: byte },
        CellWrite { offset: (cell * 2 + 1) as usize, value: DEFAULT_COLOR },
    ]
}

/// The writes that blank the cells `0..n`, in order.
pub open spec fn blank_cells(n: int) -> Seq<CellWrite>
    decreases n,
{
    if n <= 0 {
        Seq::empty()
    } else {
        blank_cells(n - 1) + cell_writes(n - 1, 0x20)
    }
}

/// The writes that show `text` on row `row`, padded with blanks to the
/// full width, for the first `n` columns.
pub open spec fn line_cells(row: int, text: Seq<u8>, n: int) -> Seq<CellWrite>
    decreases n,
{
    if n <= 0 {
        Seq::empty()
    } else {
        line_cells(row, text, n - 1) + cell_writes(
            row * WIDTH + n - 1,
            if n - 1 < text.len() { text[n - 1] } else { 0x20u8 },
        )
    }
}

/// Blanks the whole screen: every cell gets a space in the default color,
/// row by row.
pub fn clear() -> (r: Vec<CellWrite>)
    ensures
        r@ == blank_cells(WIDTH * HEIGHT),
        forall|k: int| 0 <= k < r@.len() ==> (#[trigger] r@[k]).offset < BUFFER_BYTES,
        r@.len() == BUFFER_BYTES,
        forall|k: int|
            0 <= k < BUFFER_BYTES ==> #[trigger] r@[k] == (CellWrite {
                offset: k as usize,
                value: if k % 2 == 0 { 0x20u8 } else { 0x0fu8 },
            }),
{
    proof {
        lemma_blank_cells(WIDTH * HEIGHT);
    }
    let mut r: Vec<CellWrite> = Vec::new();
    let mut row: usize = 0;
    while row < HEIGHT
        invariant
            row <= HEIGHT,
            r@ == blank_cells(row * WIDTH),
            forall|k: int| 0 <= k < r@.len() ==> (#[trigger] r@[k]).offset < (row * WIDTH) * 2,
        decreases HEIGHT - row,
    {
        let mut column: usize = 0;
        while column < WIDTH
            invariant
                row < HEIGHT,
                column <= WIDTH,
                r@ == blank_cells(row * WIDTH + column),
                forall|k: int| 0 <= k < r@.len() ==> (#[trigger] r@[k]).offset < (row * WIDTH + column) * 2,
            decreases WIDTH - column,
        {
            let offset = (row * WIDTH + column) * 2;
            r.push(CellWrite { offset, value: 0x20 });
            r.push(CellWrite { offset: offset + 1, value: DEFAULT_COLOR });
            assert(r@ =~= blank_cells(row * WIDTH + column + 1));
            column = column + 1;
        }
        row = row + 1;
    }
    r
}

/// Shows `text` on row `row`, cut or padded with blanks to the screen
/// width; a row past the bottom of the screen is ignored.
pub fn write_line(row: usize, text: &[u8]) -> (r: Vec<CellWrite>)
    ensures
        row >= HEIGHT ==> r@ == Seq::<CellWrite>::empty(),
        row < HEIGHT ==> r@ == line_cells(row as int, text@, WIDTH as int),
        forall|k: int| 0 <= k < r@.len() ==> (#[trigger] r@[k]).offset < BUFFER_BYTES,
        row < HEIGHT ==> r@.len() == 2 * WIDTH,
        row < HEIGHT ==> forall|c: int|
            0 <= c < WIDTH ==> {
                &&& #[trigger] r@[2 * c] == (CellWrite {
                    offset: ((row * WIDTH + c) * 2) as usize,
                    value: if c < text@.len() { text@[c] } else { 0x20u8 },
                })
                &&& r@[2 * c + 1] == (CellWrite { offset: ((row * WIDTH + c) * 2 + 1) as usize, value: 0x0fu8 })
            },
{
    proof {
        if row < HEIGHT {
            lemma_line_cells(row as int, text@, WIDTH as int);
        }
    }
    let mut r: Vec<CellWrite> = Vec::new();
    if row >= HEIGHT {
        return r;
    }
    let mut column: usize = 0;
    while column < WIDTH
        invariant
            row < HEIGHT,
            column <= WIDTH,
            r@ == line_cells(row as int, text@, column as int),
            forall|k: int| 0 <= k < r@.len() ==> (#[trigger] r@[k]).offset < (row * WIDTH + column) * 2,
        decreases WIDTH - column,
    {
        let byte = if column < text.len() { text[column] } else { 0x20u8 };
        let offset = (row * WIDTH + column) * 2;
        r.push(CellWrite { offset, value: byte });
        r.push(CellWrite { offset: offset + 1, value: DEFAULT_COLOR });
        assert(r@ =~= line_cells(row as int, text@, column + 1));
        column = column + 1;
    }
    r
}

/// Row and column at which byte `i` of `message` is shown, each newline
/// starting a new row.
pub open spec fn banner_position(message: Seq<u8>, i: int) -> (int, int)
    decreases i,
{
    if i <= 0 {
        (0, 0)
    } else {
        let p = banner_position(message, i - 1);
        if message[i - 1] == 0x0Au8 { (p.0 + 1, 0) } else { (p.0, p.1 + 1) }
    }
}

/// The writes that show the first `n` bytes of `message` from the top-left
/// corner, newlines moving to the start of the next row.
pub open spec fn banner_cells(message: Seq<u8>, n: int) -> Seq<CellWrite>
    decreases n,
{
    if n <= 0 {
        Seq::empty()
    } else if message[n - 1] == 0x0Au8 {
        banner_cells(message, n - 1)
    } else {
        let p = banner_position(message, n - 1);
        banner_cells(message, n - 1) + cell_writes(p.0 * WIDTH + p.1, message[n - 1])
    }
}

proof fn lemma_banner_position_bound(message: Seq<u8>, i: int)
    requires
        0 <= i,
    ensures
        0 <= banner_position(message, i).0 <= i,
        0 <= banner_position(message, i).1 <= i,
        banner_position(message, i).0 + banner_position(message, i).1 <= i,
    decreases i,
{
    if i > 0 {
        lemma_banner_position_bound(message, i - 1);
    }
}

/// Every shown byte of `message` has a buffer offset that fits in `usize`.
pub open spec fn banner_offsets_fit(message: Seq<u8>) -> bool {
    forall|i: int|
        0 <= i < message.len() && message[i] != 0x0Au8 ==> {
            let p = #[trigger] banner_position(message, i);
            (p.0 * WIDTH + p.1) * 2 + 1 <= usize::MAX
        }
}

/// Every shown byte of `message`, in its own cell, has a buffer offset that
/// fits in `usize`.
pub open spec fn linear_offsets_fit(message: Seq<u8>) -> bool {
    forall|i: int| 0 <= i < message.len() && #[trigger] message[i] != 0x0Au8 ==> i * 2 + 1 <= usize::MAX
}

/// The boot banner: `message` shown from the top-left corner of the screen,
/// a newline moving to the start of the next row.
pub fn banner(message: &[u8]) -> (r: Vec<CellWrite>)
    requires
        banner_offsets_fit(message@),
    ensures
        r@ == banner_cells(message@, message@.len() as int),
{
    let mut r: Vec<CellWrite> = Vec::new();
    let mut row: usize = 0;
    let mut column: usize = 0;
    let mut i: usize = 0;
    while i < message.len()
        invariant
            i <= message.len(),
            banner_offsets_fit(message@),
            (row as int, column as int) == banner_position(message@, i as int),
            r@ == banner_cells(message@, i as int),
        decreases message.len() - i,
    {
        proof {
            lemma_banner_position_bound(message@, i as int);
        }
        let byte = message[i];
        if byte == 0x0A {
            row = row + 1;
            column = 0;
        } else {
            let offset = (row * WIDTH + column) * 2;
            r.push(CellWrite { offset, value: byte });
            r.push(CellWrite { offset: offset + 1, value: DEFAULT_COLOR });
            assert(r@ =~= banner_cells(message@, i + 1));
            column = column + 1;
        }
        i = i + 1;
    }
    r
}

/// The writes that show the first `n` bytes of `message` in consecutive
/// cells, a newline leaving its cell untouched.
pub open spec fn linear_banner_cells(message: Seq<u8>, n: int) -> Seq<CellWrite>
    decreases n,
{
    if n <= 0 {
        Seq::empty()
    } else if message[n - 1] == 0x0Au8 {
        linear_banner_cells(message, n - 1)
    } else {
        linear_banner_cells(message, n - 1) + cell_writes(n - 1, message[n - 1])
    }
}

/// The first boot banner: byte `i` of `message` shown in cell `i`, newlines
/// skipped but still taking their cell.
pub fn linear_banner(message: &[u8]) -> (r: Vec<CellWrite>)
    requires
        linear_offsets_fit(message@),
    ensures
        r@ == linear_banner_cells(message@, message@.len() as int),
{
    let mut r: Vec<CellWrite> = Vec::new();
    let mut index: usize = 0;
    while index < message.len()
        invariant
            index <= message.len(),
            linear_offsets_fit(message@),
            r@ == linear_banner_cells(message@, index as int),
        decreases message.len() - index,
    {
        let byte = message[index];
        if byte != 0x0A {
            let offset = index * 2;
            r.push(CellWrite { offset, value: byte });
            r.push(CellWrite { offset: offset + 1, value: DEFAULT_COLOR });
        }
        assert(r@ =~= linear_banner_cells(message@, index + 1));
        index = index + 1;
    }
    r
}

/// Blanking `n` cells writes, at every byte offset `k` below `2 n`, a space
/// at even offsets and the default color at odd ones.
pub proof fn lemma_blank_cells(n: int)
    requires
        n >= 0,
        2 * n <= usize::MAX,
    ensures
        blank_cells(n).len() == 2 * n,
        forall|k: int|
            0 <= k < 2 * n ==> #[trigger] blank_cells(n)[k] == (CellWrite {
                offset: k as usize,
                value: if k % 2 == 0 { 0x20u8 } else { 0x0fu8 },
            }),
    decreases n,
{
    if n > 0 {
        lemma_blank_cells(n - 1);
        assert forall|k: int| 0 <= k < 2 * n implies #[trigger] blank_cells(n)[k] == (CellWrite {
            offset: k as usize,
            value: if k % 2 == 0 { 0x20u8 } else { 0x0fu8 },
        }) by {
            if k < 2 * n - 2 {
                assert(blank_cells(n)[k] == blank_cells(n - 1)[k]);
            }
        }
    }
}

/// Showing a line writes, for every column `c` among the first `n`, the
/// text byte of column `c` (a space past the text) at the cell's byte
/// offset `(row * WIDTH + c) * 2` and the default color just after it.
pub proof fn lemma_line_cells(row: int, text: Seq<u8>, n: int)
    requires
        0 <= row,
        0 <= n <= WIDTH,
        (row * WIDTH + WIDTH) * 2 <= usize::MAX,
    ensures
        line_cells(row, text, n).len() == 2 * n,
        forall|c: int|
            0 <= c < n ==> {
                &&& #[trigger] line_cells(row, text, n)[2 * c] == (CellWrite {
                    offset: ((row * WIDTH + c) * 2) as usize,
                    value: if c < text.len() { text[c] } else { 0x20u8 },
                })
                &&& line_cells(row, text, n)[2 * c + 1] == (CellWrite {
                    offset: ((row * WIDTH + c) * 2 + 1) as usize,
                    value: 0x0fu8,
                })
            },
    decreases n,
{
    if n > 0 {
        lemma_line_cells(row, text, n - 1);
        assert forall|c: int| 0 <= c < n implies {
            &&& #[trigger] line_cells(row, text, n)[2 * c] == (CellWrite {
                offset: ((row * WIDTH + c) * 2) as usize,
                value: if c < text.len() { text[c] } else { 0x20u8 },
            })
            &&& line_cells(row, text, n)[2 * c + 1] == (CellWrite {
                offset: ((row * WIDTH + c) * 2 + 1) as usize,
                value: 0x0fu8,
            })
        } by {
            if c < n - 1 {
                assert(line_cells(row, text, n)[2 * c] == line_cells(row, text, n - 1)[2 * c]);
                assert(line_cells(row, text, n)[2 * c + 1] == line_cells(row, text, n - 1)[2 * c + 1]);
            }
        }
    }
}

} // verus!
