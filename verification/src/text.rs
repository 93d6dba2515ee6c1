//! The streaming text writer: a cursor over a surface that renders each
//! character's glyph in a foreground color, advancing 8 columns per
//! character and handling newlines; once the cursor leaves the surface,
//! glyphs simply clip and the writer never reports an error.

use vstd::prelude::*;
use vstd::string::StrSliceExecFns;

use crate::bitmap::Bitmap;
use crate::bitmap::BitmapView;
use crate::graphics::draw_font_fg;
use crate::graphics::glyph_paints;

verus! {

/// Cursor step for one character: a newline returns the cursor to column 0
/// and advances one glyph row (16 pixels) down; any other character
/// advances 8 columns right.  Advances saturate at the largest coordinate,
/// where everything clips anyway.
pub open spec fn cursor_step(x: int, y: int, c: char) -> (int, int) {
    if c == '\n' {
        (
            0,
            if y + 16 <= i64::MAX {
                y + 16
            } else {
                i64::MAX as int
            },
        )
    } else {
        (
            if x + 8 <= i64::MAX {
                x + 8
            } else {
                i64::MAX as int
            },
            y,
        )
    }
}

/// The cursor after writing the whole of `s` from cursor (x, y).
pub open spec fn cursor_after(x: int, y: int, s: Seq<char>) -> (int, int)
    decreases s.len(),
{
    if s.len() == 0 {
        (x, y)
    } else {
        let st = cursor_step(x, y, s[0]);
        cursor_after(st.0, st.1, s.drop_first())
    }
}

/// Writing one more character steps the cursor once from where the prefix
/// left it.
pub proof fn lemma_cursor_after_push(x: int, y: int, s: Seq<char>, c: char)
    ensures
        cursor_after(x, y, s.push(c)) == ({
            let cur = cursor_after(x, y, s);
            cursor_step(cur.0, cur.1, c)
        }),
    decreases s.len(),
{
    if s.len() == 0 {
        assert(s.push(c)[0] == c);
        assert(s.push(c).drop_first() =~= Seq::<char>::empty());
        assert(cursor_after(x, y, s.push(c)) == ({
            let st = cursor_step(x, y, c);
            cursor_after(st.0, st.1, Seq::<char>::empty())
        }));
        assert(cursor_after(x, y, s) == (x, y));
    } else {
        assert(s.push(c)[0] == s[0]);
        assert(s.push(c).drop_first() =~= s.drop_first().push(c));
        let st = cursor_step(x, y, s[0]);
        lemma_cursor_after_push(st.0, st.1, s.drop_first(), c);
        assert(cursor_after(x, y, s.push(c)) == cursor_after(st.0, st.1, s.drop_first().push(c)));
        assert(cursor_after(x, y, s) == cursor_after(st.0, st.1, s.drop_first()));
    }
}

/// Whether writing the first `n` characters of `s` from cursor (x0, y0)
/// paints the surface cell (cx, cy): some non-newline character among them,
/// rendered at the cursor position its prefix leaves, covers the cell.
pub open spec fn writer_paints_upto(
    b: BitmapView,
    font: Seq<u8>,
    s: Seq<char>,
    x0: int,
    y0: int,
    n: int,
    cx: int,
    cy: int,
) -> bool {
    exists|i: int|
        0 <= i < n && s[i] != '\n' && glyph_paints(
            b,
            font,
            s[i],
            cursor_after(x0, y0, s.take(i)).0,
            cursor_after(x0, y0, s.take(i)).1,
            cx,
            cy,
        )
}

/// Whether writing the whole of `s` paints the surface cell (cx, cy).
pub open spec fn writer_paints(
    b: BitmapView,
    font: Seq<u8>,
    s: Seq<char>,
    x0: int,
    y0: int,
    cx: int,
    cy: int,
) -> bool {
    writer_paints_upto(b, font, s, x0, y0, s.len() as int, cx, cy)
}

/// A streaming writer holding a text cursor, initially at (0, 0).
pub struct TextWriter {
    x: i64,
    y: i64,
}

impl TextWriter {
    pub closed spec fn cursor_x(&self) -> int {
        self.x as int
    }

    pub closed spec fn cursor_y(&self) -> int {
        self.y as int
    }

    pub open spec fn wf(&self) -> bool {
        0 <= self.cursor_x() && 0 <= self.cursor_y()
    }

    pub fn new() -> (r: TextWriter)
        ensures
            r.cursor_x() == 0,
            r.cursor_y() == 0,
            r.wf(),
    {
        TextWriter { x: 0, y: 0 }
    }

    pub fn position(&self) -> (r: (i64, i64))
        ensures
            r.0 == self.cursor_x(),
            r.1 == self.cursor_y(),
    {
        (self.x, self.y)
    }

    /// Write one character: a newline only moves the cursor; any other
    /// character renders its glyph at the cursor and advances it.
    pub fn write_char<T: Bitmap>(&mut self, buf: &mut T, font: &[u8], color: u32, c: char)
        requires
            old(buf).bm().wf(),
            old(self).wf(),
        ensures
            final(self).wf(),
            (final(self).cursor_x(), final(self).cursor_y()) == cursor_step(
                old(self).cursor_x(),
                old(self).cursor_y(),
                c,
            ),
            final(buf).bm().wf(),
            final(buf).bm().same_geometry(old(buf).bm()),
            c == '\n' ==> *final(buf) == *old(buf),
            c != '\n' ==> forall|cx: int, cy: int|
                0 <= cx < old(buf).bm().pixels_per_line && 0 <= cy < old(buf).bm().height
                    ==> final(buf).bm().pixel(cx, cy) == (if glyph_paints(
                    old(buf).bm(),
                    font@,
                    c,
                    old(self).cursor_x(),
                    old(self).cursor_y(),
                    cx,
                    cy,
                ) {
                    color
                } else {
                    old(buf).bm().pixel(cx, cy)
                }),
    {
        if c == '\n' {
            self.x = 0;
            self.y = if self.y <= i64::MAX - 16 {
                self.y + 16
            } else {
                i64::MAX
            };
        } else {
            draw_font_fg(buf, self.x, self.y, color, c, font);
            self.x = if self.x <= i64::MAX - 8 {
                self.x + 8
            } else {
                i64::MAX
            };
        }
    }

    /// Write every character of `s` in order.
    #[verifier::loop_isolation(false)]
    pub fn write_str<T: Bitmap>(&mut self, buf: &mut T, font: &[u8], color: u32, s: &str)
        requires
            old(buf).bm().wf(),
            old(self).wf(),
        ensures
            final(self).wf(),
            (final(self).cursor_x(), final(self).cursor_y()) == cursor_after(
                old(self).cursor_x(),
                old(self).cursor_y(),
                s@,
            ),
            final(buf).bm().wf(),
            final(buf).bm().same_geometry(old(buf).bm()),
            forall|cx: int, cy: int|
                0 <= cx < old(buf).bm().pixels_per_line && 0 <= cy < old(buf).bm().height
                    ==> final(buf).bm().pixel(cx, cy) == (if writer_paints(
                    old(buf).bm(),
                    font@,
                    s@,
                    old(self).cursor_x(),
                    old(self).cursor_y(),
                    cx,
                    cy,
                ) {
                    color
                } else {
                    old(buf).bm().pixel(cx, cy)
                }),
    {
        let ghost b0 = buf.bm();
        let ghost x0 = self.cursor_x();
        let ghost y0 = self.cursor_y();
        let n = s.unicode_len();
        let mut i: usize = 0;
        proof {
            assert(s@.take(0) =~= Seq::<char>::empty());
        }
        while i < n
            invariant
                i <= n,
                n == s@.len(),
                self.wf(),
                buf.bm().wf(),
                buf.bm().same_geometry(b0),
                (self.cursor_x(), self.cursor_y()) == cursor_after(x0, y0, s@.take(i as int)),
                forall|cx: int, cy: int|
                    0 <= cx < b0.pixels_per_line && 0 <= cy < b0.height ==> buf.bm().pixel(cx, cy)
                        == (if writer_paints_upto(b0, font@, s@, x0, y0, i as int, cx, cy) {
                        color
                    } else {
                        b0.pixel(cx, cy)
                    }),
            decreases n - i,
        {
            let c = s.get_char(i);
            let ghost bprev = buf.bm();
            let ghost cxcur = self.cursor_x();
            let ghost cycur = self.cursor_y();
            self.write_char(buf, font, color, c);
            proof {
                assert(s@.take(i as int).push(c) =~= s@.take(i as int + 1));
                lemma_cursor_after_push(x0, y0, s@.take(i as int), c);
                if c != '\n' {
                    assert forall|cx: int, cy: int|
                        glyph_paints(bprev, font@, c, cxcur, cycur, cx, cy) == glyph_paints(
                        b0,
                        font@,
                        c,
                        cxcur,
                        cycur,
                        cx,
                        cy,
                    ) by {
                        assert(bprev.x_extent() == b0.x_extent());
                    }
                }
                assert forall|cx: int, cy: int|
                    0 <= cx < b0.pixels_per_line && 0 <= cy < b0.height implies buf.bm().pixel(
                    cx,
                    cy,
                ) == (if writer_paints_upto(b0, font@, s@, x0, y0, i as int + 1, cx, cy) {
                    color
                } else {
                    b0.pixel(cx, cy)
                }) by {
                    if c != '\n' && glyph_paints(b0, font@, c, cxcur, cycur, cx, cy) {
                        assert(s@[i as int] == c);
                        assert(writer_paints_upto(b0, font@, s@, x0, y0, i as int + 1, cx, cy));
                        assert(buf.bm().pixel(cx, cy) == color);
                    } else {
                        assert(buf.bm().pixel(cx, cy) == bprev.pixel(cx, cy));
                        if writer_paints_upto(b0, font@, s@, x0, y0, i as int + 1, cx, cy) {
                            let j = choose|j: int|
                                0 <= j < i as int + 1 && s@[j] != '\n' && glyph_paints(
                                    b0,
                                    font@,
                                    s@[j],
                                    cursor_after(x0, y0, s@.take(j)).0,
                                    cursor_after(x0, y0, s@.take(j)).1,
                                    cx,
                                    cy,
                                );
                            assert(j < i as int);
                            assert(writer_paints_upto(b0, font@, s@, x0, y0, i as int, cx, cy));
                        } else {
                            if writer_paints_upto(b0, font@, s@, x0, y0, i as int, cx, cy) {
                                let j = choose|j: int|
                                    0 <= j < i as int && s@[j] != '\n' && glyph_paints(
                                        b0,
                                        font@,
                                        s@[j],
                                        cursor_after(x0, y0, s@.take(j)).0,
                                        cursor_after(x0, y0, s@.take(j)).1,
                                        cx,
                                        cy,
                                    );
                                assert(writer_paints_upto(
                                    b0,
                                    font@,
                                    s@,
                                    x0,
                                    y0,
                                    i as int + 1,
                                    cx,
                                    cy,
                                ));
                                assert(false);
                            }
                        }
                    }
                }
            }
            i = i + 1;
        }
        proof {
            assert(s@.take(n as int) =~= s@);
        }
    }
}

} // verus!
