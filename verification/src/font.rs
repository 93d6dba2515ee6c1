//! The bitmap-font glyph table: a textual resource of repeated blocks, each
//! a header line `0xHH` naming a one-byte character code followed by sixteen
//! rows of eight cells, `*` marking a lit cell.  Lookup scans the lines from
//! the start and takes the first matching block.

use vstd::prelude::*;

verus! {

pub const NEWLINE: u8 = 10;

pub const LIT_CELL: u8 = 42;

pub const GLYPH_WIDTH: usize = 8;

pub const GLYPH_HEIGHT: usize = 16;

/// The lines of a byte text, split at every newline byte; the text after
/// the last newline is a line too, so the result is never empty.
pub open spec fn spec_lines(s: Seq<u8>) -> Seq<Seq<u8>>
    decreases s.len(),
{
    if s.len() == 0 {
        seq![Seq::<u8>::empty()]
    } else if s[0] == NEWLINE {
        seq![Seq::<u8>::empty()] + spec_lines(s.drop_first())
    } else {
        let rest = spec_lines(s.drop_first());
        rest.update(0, seq![s[0]] + rest[0])
    }
}

pub proof fn lemma_spec_lines_nonempty(s: Seq<u8>)
    ensures
        spec_lines(s).len() >= 1,
    decreases s.len(),
{
    if s.len() == 0 {
    } else {
        lemma_spec_lines_nonempty(s.drop_first());
    }
}

/// The given prefix glued onto the first line.
pub open spec fn prepend_first(pre: Seq<u8>, ls: Seq<Seq<u8>>) -> Seq<Seq<u8>> {
    ls.update(0, pre + ls[0])
}

pub open spec fn is_hex_digit(b: u8) -> bool {
    (48 <= b <= 57) || (65 <= b <= 70) || (97 <= b <= 102)
}

pub open spec fn hex_val(b: u8) -> int {
    if 48 <= b <= 57 {
        b - 48
    } else if 65 <= b <= 70 {
        b - 55
    } else {
        b - 87
    }
}

/// A block header line: `0x` followed by exactly two hex digits.
pub open spec fn is_header(l: Seq<u8>) -> bool {
    &&& l.len() == 4
    &&& l[0] == 48
    &&& l[1] == 120
    &&& is_hex_digit(l[2])
    &&& is_hex_digit(l[3])
}

pub open spec fn header_code(l: Seq<u8>) -> int {
    hex_val(l[2]) * 16 + hex_val(l[3])
}

pub open spec fn is_block_header(l: Seq<u8>, code: int) -> bool {
    is_header(l) && header_code(l) == code
}

/// Index of the first line that is a block header for `code`, or the number
/// of lines when there is none.
pub open spec fn find_block(ls: Seq<Seq<u8>>, code: int) -> int
    decreases ls.len(),
{
    if ls.len() == 0 {
        0
    } else if is_block_header(ls[0], code) {
        0
    } else {
        1 + find_block(ls.drop_first(), code)
    }
}

/// `find_block` names the first match: if no line before `j` matches and
/// `j` either matches or is the end, then `find_block` is exactly `j`.
pub proof fn lemma_find_block_first(ls: Seq<Seq<u8>>, code: int, j: int)
    requires
        0 <= j <= ls.len(),
        forall|k: int| 0 <= k < j ==> !is_block_header(ls[k], code),
        j < ls.len() ==> is_block_header(ls[j], code),
    ensures
        find_block(ls, code) == j,
    decreases ls.len(),
{
    if j == 0 {
        if ls.len() == 0 {
        }
    } else {
        assert(!is_block_header(ls[0], code));
        lemma_find_block_first(ls.drop_first(), code, j - 1);
    }
}

/// Whether cell (x, y) of the block whose header stands at line `hdr` is
/// lit.  A missing row, or a cell beyond the end of its row, counts as lit:
/// the glyph grid defaults to lit cells and only provided cells overwrite
/// them.
pub open spec fn spec_glyph_cell(ls: Seq<Seq<u8>>, hdr: int, x: int, y: int) -> bool {
    let li = hdr + 1 + y;
    if 0 <= li < ls.len() {
        let row = ls[li];
        if x < row.len() {
            row[x] == LIT_CELL
        } else {
            true
        }
    } else {
        true
    }
}

/// Whether the table holds a glyph for `c`: the character must be
/// single-byte representable and some line must be a block header for it.
pub open spec fn spec_has_glyph(font: Seq<u8>, c: char) -> bool {
    &&& c as int <= 255
    &&& find_block(spec_lines(font), c as int) < spec_lines(font).len()
}

/// Cell (x, y) of the glyph that lookup yields for `c`.
pub open spec fn spec_glyph_lit(font: Seq<u8>, c: char, x: int, y: int) -> bool {
    spec_glyph_cell(spec_lines(font), find_block(spec_lines(font), c as int), x, y)
}

/// An 8 by 16 grid of lit or unlit cells, parsed from the glyph table.
pub struct Glyph {
    cells: Vec<bool>,
}

impl Glyph {
    pub closed spec fn wf(&self) -> bool {
        self.cells@.len() == 128
    }

    pub closed spec fn lit(&self, x: int, y: int) -> bool {
        self.cells@[y * 8 + x]
    }

    pub fn lit_at(&self, x: usize, y: usize) -> (r: bool)
        requires
            self.wf(),
            x < GLYPH_WIDTH,
            y < GLYPH_HEIGHT,
        ensures
            r == self.lit(x as int, y as int),
    {
        self.cells[y * 8 + x]
    }
}

/// Split a byte text into its lines, as `spec_lines` describes them.
#[verifier::loop_isolation(false)]
fn split_lines(t: &[u8]) -> (r: Vec<Vec<u8>>)
    ensures
        r@.map_values(|v: Vec<u8>| v@) == spec_lines(t@),
{
    let mut out: Vec<Vec<u8>> = Vec::new();
    let mut cur: Vec<u8> = Vec::new();
    let mut i: usize = 0;
    proof {
        lemma_spec_lines_nonempty(t@);
        assert(t@.skip(0) =~= t@);
        assert(Seq::<u8>::empty() + spec_lines(t@)[0] =~= spec_lines(t@)[0]);
        assert(prepend_first(Seq::<u8>::empty(), spec_lines(t@)) =~= spec_lines(t@));
        assert(out@.map_values(|v: Vec<u8>| v@) =~= Seq::<Seq<u8>>::empty());
        assert(out@.map_values(|v: Vec<u8>| v@) + prepend_first(cur@, spec_lines(t@.skip(0)))
            =~= spec_lines(t@));
    }
    while i < t.len()
        invariant
            i <= t@.len(),
            spec_lines(t@) == out@.map_values(|v: Vec<u8>| v@) + prepend_first(
                cur@,
                spec_lines(t@.skip(i as int)),
            ),
        decreases t@.len() - i,
    {
        let ghost tail = t@.skip(i as int);
        proof {
            assert(tail.len() > 0);
            assert(tail[0] == t@[i as int]);
            assert(tail.drop_first() =~= t@.skip(i as int + 1));
            lemma_spec_lines_nonempty(t@.skip(i as int + 1));
        }
        if t[i] == NEWLINE {
            proof {
                assert(spec_lines(tail) == seq![Seq::<u8>::empty()] + spec_lines(
                    t@.skip(i as int + 1),
                ));
                assert(prepend_first(cur@, spec_lines(tail))[0] == cur@ + Seq::<u8>::empty());
                assert(cur@ + Seq::<u8>::empty() =~= cur@);
                assert((out@ + seq![cur]).map_values(|v: Vec<u8>| v@) =~= out@.map_values(
                    |v: Vec<u8>| v@,
                ) + seq![cur@]);
                assert(out@.map_values(|v: Vec<u8>| v@) + prepend_first(cur@, spec_lines(tail))
                    =~= (out@ + seq![cur]).map_values(|v: Vec<u8>| v@) + prepend_first(
                    Seq::<u8>::empty(),
                    spec_lines(t@.skip(i as int + 1)),
                ));
            }
            out.push(cur);
            cur = Vec::new();
        } else {
            let b = t[i];
            proof {
                let rest = spec_lines(t@.skip(i as int + 1));
                assert(spec_lines(tail) == rest.update(0, seq![b] + rest[0]));
                assert(prepend_first(cur@, spec_lines(tail))[0] == cur@ + (seq![b] + rest[0]));
                assert(cur@ + (seq![b] + rest[0]) =~= (cur@ + seq![b]) + rest[0]);
                assert(cur@.push(b) =~= cur@ + seq![b]);
                assert(prepend_first(cur@, spec_lines(tail)) =~= prepend_first(cur@.push(b), rest));
            }
            cur.push(b);
        }
        i = i + 1;
    }
    proof {
        assert(t@.skip(i as int) =~= Seq::<u8>::empty());
        assert(spec_lines(t@.skip(i as int)) == seq![Seq::<u8>::empty()]);
        assert(prepend_first(cur@, seq![Seq::<u8>::empty()])[0] == cur@ + Seq::<u8>::empty());
        assert(cur@ + Seq::<u8>::empty() =~= cur@);
        assert(prepend_first(cur@, seq![Seq::<u8>::empty()]) =~= seq![cur@]);
        assert((out@ + seq![cur]).map_values(|v: Vec<u8>| v@) =~= out@.map_values(|v: Vec<u8>| v@)
            + seq![cur@]);
        assert(out@.map_values(|v: Vec<u8>| v@) + seq![cur@] =~= spec_lines(t@));
    }
    out.push(cur);
    out
}

/// Whether this line is the block header for `code`.
fn line_is_header_for(l: &Vec<u8>, code: u8) -> (r: bool)
    ensures
        r == is_block_header(l@, code as int),
{
    if l.len() != 4 {
        return false;
    }
    if l[0] != 48 || l[1] != 120 {
        return false;
    }
    let h = l[2];
    let lo = l[3];
    let hv: u8 = if 48 <= h && h <= 57 {
        h - 48
    } else if 65 <= h && h <= 70 {
        h - 55
    } else if 97 <= h && h <= 102 {
        h - 87
    } else {
        return false;
    };
    let lv: u8 = if 48 <= lo && lo <= 57 {
        lo - 48
    } else if 65 <= lo && lo <= 70 {
        lo - 55
    } else if 97 <= lo && lo <= 102 {
        lo - 87
    } else {
        return false;
    };
    hv * 16 + lv == code
}

/// Build the glyph whose header stands at line `hdr`.
#[verifier::loop_isolation(false)]
fn build_glyph(lines: &Vec<Vec<u8>>, hdr: usize) -> (g: Glyph)
    requires
        hdr < lines@.len(),
    ensures
        g.wf(),
        forall|x: int, y: int|
            0 <= x < 8 && 0 <= y < 16 ==> g.lit(x, y) == spec_glyph_cell(
                lines@.map_values(|v: Vec<u8>| v@),
                hdr as int,
                x,
                y,
            ),
{
    let ghost ls = lines@.map_values(|v: Vec<u8>| v@);
    let mut cells: Vec<bool> = Vec::new();
    let mut y: usize = 0;
    while y < 16
        invariant
            y <= 16,
            hdr < lines@.len(),
            ls == lines@.map_values(|v: Vec<u8>| v@),
            cells@.len() == y * 8,
            forall|xx: int, yy: int|
                0 <= xx < 8 && 0 <= yy < y ==> cells@[yy * 8 + xx] == spec_glyph_cell(
                    ls,
                    hdr as int,
                    xx,
                    yy,
                ),
        decreases 16 - y,
    {
        let rows_left: usize = lines.len() - hdr - 1;
        let mut x: usize = 0;
        while x < 8
            invariant
                x <= 8,
                y < 16,
                hdr < lines@.len(),
                rows_left == lines@.len() - hdr - 1,
                ls == lines@.map_values(|v: Vec<u8>| v@),
                cells@.len() == y * 8 + x,
                forall|xx: int, yy: int|
                    0 <= xx < 8 && 0 <= yy < y ==> cells@[yy * 8 + xx] == spec_glyph_cell(
                        ls,
                        hdr as int,
                        xx,
                        yy,
                    ),
                forall|xx: int|
                    0 <= xx < x ==> cells@[y * 8 + xx] == spec_glyph_cell(ls, hdr as int, xx, y as int),
            decreases 8 - x,
        {
            let lit: bool = if y < rows_left {
                let row = &lines[hdr + 1 + y];
                if x < row.len() {
                    row[x] == LIT_CELL
                } else {
                    true
                }
            } else {
                true
            };
            proof {
                assert(lit == spec_glyph_cell(ls, hdr as int, x as int, y as int));
            }
            cells.push(lit);
            x = x + 1;
        }
        y = y + 1;
    }
    let g = Glyph { cells };
    g
}

/// Look the character up in the glyph table.  Only single-byte-representable
/// characters can have a glyph; for any other character, and for any absent
/// code, there is no glyph.  The scan takes the first matching block header.
#[verifier::loop_isolation(false)]
pub fn lookup_font(font: &[u8], c: char) -> (r: Option<Glyph>)
    ensures
        r is Some <==> spec_has_glyph(font@, c),
        r matches Some(g) ==> g.wf() && (forall|x: int, y: int|
            0 <= x < 8 && 0 <= y < 16 ==> g.lit(x, y) == spec_glyph_lit(font@, c, x, y)),
{
    let cu: u32 = c as u32;
    if cu > 255 {
        return None;
    }
    let code: u8 = cu as u8;
    proof {
        assert(code as int == c as int);
    }
    let lines = split_lines(font);
    let ghost ls = spec_lines(font@);
    proof {
        assert(ls == lines@.map_values(|v: Vec<u8>| v@));
    }
    let mut j: usize = 0;
    while j < lines.len()
        invariant
            j <= lines@.len(),
            ls == lines@.map_values(|v: Vec<u8>| v@),
            code as int == c as int,
            forall|k: int| 0 <= k < j ==> !is_block_header(ls[k], code as int),
        decreases lines@.len() - j,
    {
        if line_is_header_for(&lines[j], code) {
            proof {
                lemma_find_block_first(ls, code as int, j as int);
            }
            let g = build_glyph(&lines, j);
            return Some(g);
        }
        j = j + 1;
    }
    proof {
        lemma_find_block_first(ls, code as int, ls.len() as int);
    }
    None
}

} // verus!
