//! Luminance-to-glyph mapping: one decoded frame, given as row-major luma
//! bytes, becomes a text block of `height` lines of `width` glyphs drawn
//! from a density ramp.
use vstd::prelude::*;

verus! {

/// The ramp slot for luma value `v` on a ramp of `len` glyphs:
/// floor(v / 255 * (len - 1)), computed exactly over the integers.
/// Truncation, not rounding, so output leans toward the darker glyph.
pub open spec fn glyph_index_spec(v: u8, len: nat) -> nat
    recommends
        len >= 1,
{
    ((v as int * (len - 1)) / 255) as nat
}

/// Row `y` of the rendered block: the glyph for each of the `w` pixels of
/// that row, then a line break.
pub open spec fn row_spec(luma: Seq<u8>, w: nat, ramp: Seq<char>, y: nat) -> Seq<char> {
    Seq::new(w, |x: int| ramp[glyph_index_spec(luma[y * w + x], ramp.len()) as int]).push('\n')
}

/// The first `h` rendered rows, concatenated.
pub open spec fn render_spec(luma: Seq<u8>, w: nat, h: nat, ramp: Seq<char>) -> Seq<char>
    decreases h,
{
    if h == 0 {
        Seq::empty()
    } else {
        render_spec(luma, w, (h - 1) as nat, ramp) + row_spec(luma, w, ramp, (h - 1) as nat)
    }
}

/// Selects the ramp slot for one luma value: floor(v / 255 * (ramp_len - 1)).
pub fn glyph_index(v: u8, ramp_len: usize) -> (i: usize)
    requires
        1 <= ramp_len,
        255 * (ramp_len - 1) <= usize::MAX,
    ensures
        i == glyph_index_spec(v, ramp_len as nat),
        i < ramp_len,
{
    proof {
        assert(v as int * (ramp_len - 1) <= 255 * (ramp_len - 1)) by (nonlinear_arith)
            requires
                v <= 255,
                ramp_len >= 1,
        ;
        vstd::arithmetic::div_mod::lemma_div_is_ordered(
            v as int * (ramp_len - 1),
            255 * (ramp_len - 1),
            255,
        );
        vstd::arithmetic::div_mod::lemma_div_multiples_vanish(ramp_len - 1, 255);
    }
    (v as usize * (ramp_len - 1)) / 255
}

/// Renders one decoded frame as a text block: `height` lines of `width`
/// glyphs each, every line ended by a line break.
pub fn map_frame(luma: &Vec<u8>, width: usize, height: usize, ramp: &Vec<char>) -> (text: String)
    requires
        luma@.len() == width * height,
        1 <= ramp@.len(),
        255 * (ramp@.len() - 1) <= usize::MAX,
    ensures
        text@ == render_spec(luma@, width as nat, height as nat, ramp@),
{
    let n = luma.len();
    let mut out: Vec<char> = Vec::new();
    let mut y: usize = 0;
    while y < height
        invariant
            y <= height,
            n == width * height,
            luma@.len() == width * height,
            1 <= ramp@.len(),
            255 * (ramp@.len() - 1) <= usize::MAX,
            out@ == render_spec(luma@, width as nat, y as nat, ramp@),
        decreases height - y,
    {
        let mut x: usize = 0;
        while x < width
            invariant
                x <= width,
                y < height,
                n == width * height,
                luma@.len() == width * height,
                1 <= ramp@.len(),
                255 * (ramp@.len() - 1) <= usize::MAX,
                out@ == render_spec(luma@, width as nat, y as nat, ramp@) + Seq::new(
                    x as nat,
                    |j: int| ramp@[glyph_index_spec(luma@[y * width + j], ramp@.len()) as int],
                ),
            decreases width - x,
        {
            proof {
                assert(y * width + x < width * height) by (nonlinear_arith)
                    requires
                        y < height,
                        x < width,
                ;
            }
            let idx = y * width + x;
            let g = glyph_index(luma[idx], ramp.len());
            out.push(ramp[g]);
            proof {
                assert(out@ == render_spec(luma@, width as nat, y as nat, ramp@) + Seq::new(
                    (x + 1) as nat,
                    |j: int| ramp@[glyph_index_spec(luma@[y * width + j], ramp@.len()) as int],
                )) by {
                    assert(Seq::new(
                        (x + 1) as nat,
                        |j: int| ramp@[glyph_index_spec(luma@[y * width + j], ramp@.len()) as int],
                    ) =~= Seq::new(
                        x as nat,
                        |j: int| ramp@[glyph_index_spec(luma@[y * width + j], ramp@.len()) as int],
                    ).push(ramp@[glyph_index_spec(luma@[y * width + x], ramp@.len()) as int]));
                }
            }
            x += 1;
        }
        out.push('\n');
        proof {
            assert(out@ =~= render_spec(luma@, width as nat, (y + 1) as nat, ramp@));
        }
        y += 1;
    }
    crate::text::chars_to_string(&out)
}

/// The built-in density ramp, least to most ink.
pub open spec fn default_ramp_spec() -> Seq<char> {
    seq![' ', '.', '-', '+', '*', 'w', 'G', 'H', 'M', '#', '&', '%']
}

/// The built-in density ramp, least to most ink.
pub fn default_ramp() -> (r: Vec<char>)
    ensures
        r@ == default_ramp_spec(),
        ramp_ok(r@),
        r@.len() == 12,
{
    let mut r: Vec<char> = Vec::new();
    r.push(' ');
    r.push('.');
    r.push('-');
    r.push('+');
    r.push('*');
    r.push('w');
    r.push('G');
    r.push('H');
    r.push('M');
    r.push('#');
    r.push('&');
    r.push('%');
    proof {
        assert(r@ =~= default_ramp_spec());
    }
    r
}

/// How many times `c` occurs in `s`.
pub open spec fn count_char(s: Seq<char>, c: char) -> nat
    decreases s.len(),
{
    if s.len() == 0 {
        0
    } else {
        count_char(s.drop_last(), c) + (if s.last() == c {
            1nat
        } else {
            0nat
        })
    }
}

/// A usable ramp: at least one glyph, and no glyph is a line break.
pub open spec fn ramp_ok(ramp: Seq<char>) -> bool {
    &&& ramp.len() >= 1
    &&& forall|i: int| 0 <= i < ramp.len() ==> ramp[i] != '\n'
}

proof fn lemma_glyph_index_lt(v: u8, len: nat)
    requires
        len >= 1,
    ensures
        glyph_index_spec(v, len) < len,
{
    assert(v as int * (len - 1) <= 255 * (len - 1)) by (nonlinear_arith)
        requires
            v <= 255,
            len >= 1,
    ;
    vstd::arithmetic::div_mod::lemma_div_is_ordered(
        v as int * (len - 1),
        255 * (len - 1),
        255,
    );
    vstd::arithmetic::div_mod::lemma_div_multiples_vanish(len - 1, 255);
}

proof fn lemma_count_char_concat(a: Seq<char>, b: Seq<char>, c: char)
    ensures
        count_char(a + b, c) == count_char(a, c) + count_char(b, c),
    decreases b.len(),
{
    if b.len() == 0 {
        assert(a + b =~= a);
    } else {
        assert((a + b).drop_last() =~= a + b.drop_last());
        lemma_count_char_concat(a, b.drop_last(), c);
    }
}

proof fn lemma_count_char_glyph_prefix(luma: Seq<u8>, w: nat, k: nat, ramp: Seq<char>, y: nat)
    requires
        ramp_ok(ramp),
        k <= w,
    ensures
        count_char(
            Seq::new(k, |x: int| ramp[glyph_index_spec(luma[y * w + x], ramp.len()) as int]),
            '\n',
        ) == 0,
    decreases k,
{
    let s = Seq::new(k, |x: int| ramp[glyph_index_spec(luma[y * w + x], ramp.len()) as int]);
    if k > 0 {
        assert(s.drop_last() =~= Seq::new(
            (k - 1) as nat,
            |x: int| ramp[glyph_index_spec(luma[y * w + x], ramp.len()) as int],
        ));
        lemma_glyph_index_lt(luma[y * w + k - 1], ramp.len());
        lemma_count_char_glyph_prefix(luma, w, (k - 1) as nat, ramp, y);
    }
}

proof fn lemma_count_char_row(luma: Seq<u8>, w: nat, ramp: Seq<char>, y: nat)
    requires
        ramp_ok(ramp),
    ensures
        count_char(row_spec(luma, w, ramp, y), '\n') == 1,
        row_spec(luma, w, ramp, y).len() == w + 1,
{
    let body = Seq::new(w, |x: int| ramp[glyph_index_spec(luma[y * w + x], ramp.len()) as int]);
    assert(row_spec(luma, w, ramp, y).drop_last() =~= body);
    lemma_count_char_glyph_prefix(luma, w, w, ramp, y);
}

/// Line `y` of a text block whose lines are `w` glyphs plus a break:
/// the `w + 1` characters starting at position `y * (w + 1)`.
pub open spec fn block_line(s: Seq<char>, w: nat, y: int) -> Seq<char> {
    s.subrange(y * (w + 1), y * (w + 1) + w + 1)
}

/// Law: each rendered row holds `w` glyphs — never a line break, each the
/// one its luma value selects — and ends with its single line break.
pub proof fn lemma_row_shape(luma: Seq<u8>, w: nat, ramp: Seq<char>, y: nat)
    requires
        ramp_ok(ramp),
    ensures
        row_spec(luma, w, ramp, y).len() == w + 1,
        row_spec(luma, w, ramp, y)[w as int] == '\n',
        count_char(row_spec(luma, w, ramp, y), '\n') == 1,
        forall|x: int|
            0 <= x < w ==> #[trigger] row_spec(luma, w, ramp, y)[x] == ramp[glyph_index_spec(
                luma[y * w + x],
                ramp.len(),
            ) as int] && row_spec(luma, w, ramp, y)[x] != '\n',
{
    lemma_count_char_row(luma, w, ramp, y);
    assert forall|x: int| 0 <= x < w implies #[trigger] row_spec(luma, w, ramp, y)[x]
        == ramp[glyph_index_spec(luma[y * w + x], ramp.len()) as int] && row_spec(
        luma,
        w,
        ramp,
        y,
    )[x] != '\n' by {
        lemma_glyph_index_lt(luma[y * w + x], ramp.len());
    }
}

/// Law: a rendered block of `h` rows of `w` glyphs has length h * (w + 1),
/// holds exactly `h` line breaks, and its `y`-th line is exactly the
/// rendered row `y`.
pub proof fn lemma_block_shape(luma: Seq<u8>, w: nat, h: nat, ramp: Seq<char>)
    requires
        ramp_ok(ramp),
    ensures
        render_spec(luma, w, h, ramp).len() == h * (w + 1),
        count_char(render_spec(luma, w, h, ramp), '\n') == h,
        forall|y: int|
            0 <= y < h ==> #[trigger] block_line(render_spec(luma, w, h, ramp), w, y)
                == row_spec(luma, w, ramp, y as nat),
    decreases h,
{
    let r = render_spec(luma, w, h, ramp);
    if h == 0 {
        assert(r.len() == h * (w + 1)) by (nonlinear_arith)
            requires
                h == 0,
                r.len() == 0,
        ;
    } else {
        let prev = render_spec(luma, w, (h - 1) as nat, ramp);
        let row = row_spec(luma, w, ramp, (h - 1) as nat);
        lemma_block_shape(luma, w, (h - 1) as nat, ramp);
        lemma_count_char_row(luma, w, ramp, (h - 1) as nat);
        lemma_count_char_concat(prev, row, '\n');
        assert(prev.len() + row.len() == h * (w + 1)) by (nonlinear_arith)
            requires
                prev.len() == (h - 1) * (w + 1),
                row.len() == w + 1,
                h >= 1,
        ;
        assert forall|y: int| 0 <= y < h implies #[trigger] block_line(r, w, y) == row_spec(
            luma,
            w,
            ramp,
            y as nat,
        ) by {
            if y < h - 1 {
                assert(0 <= y * (w + 1) && y * (w + 1) + w + 1 <= (h - 1) * (w + 1))
                    by (nonlinear_arith)
                    requires
                        0 <= y < h - 1,
                ;
                assert(block_line(r, w, y) =~= block_line(prev, w, y));
            } else {
                assert(y * (w + 1) == prev.len()) by (nonlinear_arith)
                    requires
                        y == h - 1,
                        prev.len() == (h - 1) * (w + 1),
                ;
                assert(block_line(r, w, y) =~= row);
            }
        }
    }
}

/// Law: the darkest luma value selects the first ramp glyph, the brightest
/// the last.
pub proof fn lemma_glyph_index_bounds(len: nat)
    requires
        len >= 1,
    ensures
        glyph_index_spec(0, len) == 0,
        glyph_index_spec(255, len) == len - 1,
{
    vstd::arithmetic::div_mod::lemma_div_multiples_vanish(len - 1, 255);
}

} // verus!
