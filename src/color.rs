use vstd::prelude::*;
use crate::fixed::SCALE;
use crate::vec3::Vec3;

verus! {

/// A color: red, green and blue as fixed-point fractions, `SCALE` being full intensity.
pub type Color = Vec3;

/// Largest channel value written before scaling to a byte: 0.999 in fixed point.
pub const CHANNEL_CLAMP: i64 = 65470;

/// The decimal digits of `n`, as ASCII.
pub open spec fn decimal(n: nat) -> Seq<u8>
    decreases n,
{
    if n < 10 {
        seq![(48 + n) as u8]
    } else {
        decimal(n / 10).push((48 + n % 10) as u8)
    }
}

/// A channel clamped to `[0, 0.999]`, times 256, rounded down.
pub open spec fn channel_byte(v: int) -> u8 {
    let c = if v < 0 {
        0
    } else if v > CHANNEL_CLAMP {
        CHANNEL_CLAMP as int
    } else {
        v
    };
    ((c * 256) / (SCALE as int)) as u8
}

/// The text line for one pixel: red, green and blue bytes in decimal, then a newline.
pub open spec fn pixel_line(c: Color) -> Seq<u8> {
    decimal(channel_byte(c.x as int) as nat) + seq![32u8] + decimal(channel_byte(c.y as int) as nat)
        + seq![32u8] + decimal(channel_byte(c.z as int) as nat) + seq![10u8]
}

/// The image header: the plain-text pixel map's format token, then width and height, then the largest
/// channel value 255, one to a line.
pub open spec fn ppm_header(w: nat, h: nat) -> Seq<u8> {
    seq![80u8, 51u8, 10u8] + decimal(w) + seq![32u8] + decimal(h) + seq![10u8, 50u8, 53u8, 53u8, 10u8]
}

/// One text line per pixel, in order.
pub open spec fn ppm_body(cols: Seq<Color>) -> Seq<u8>
    decreases cols.len(),
{
    if cols.len() == 0 {
        Seq::empty()
    } else {
        ppm_body(cols.drop_last()) + pixel_line(cols.last())
    }
}

/// The whole image text for pixels `cols`, in row-major order.
pub open spec fn ppm_image(w: nat, h: nat, cols: Seq<Color>) -> Seq<u8> {
    ppm_header(w, h) + ppm_body(cols)
}

/// Appends the image header.
pub fn write_header(out: &mut Vec<u8>, w: u32, h: u32)
    ensures
        final(out)@ == old(out)@ + ppm_header(w as nat, h as nat),
{
    let ghost start = out@;
    out.push(80);
    out.push(51);
    out.push(10);
    push_decimal(out, w);
    out.push(32);
    push_decimal(out, h);
    out.push(10);
    out.push(50);
    out.push(53);
    out.push(53);
    out.push(10);
    assert(out@ =~= start + ppm_header(w as nat, h as nat));
}

/// Appends the decimal digits of `n`.
pub fn push_decimal(out: &mut Vec<u8>, n: u32)
    ensures
        final(out)@ == old(out)@ + decimal(n as nat),
{
    push_decimal_wide(out, n as u64);
}

/// Appends the decimal digits of `n`.
pub fn push_decimal_wide(out: &mut Vec<u8>, n: u64)
    ensures
        final(out)@ == old(out)@ + decimal(n as nat),
    decreases n,
{
    let ghost start = out@;
    if n >= 10 {
        push_decimal_wide(out, n / 10);
    }
    out.push((48 + n % 10) as u8);
    proof {
        if n >= 10 {
            assert(start + decimal(n as nat) =~= (start + decimal((n / 10) as nat)).push(
                (48 + n % 10) as u8,
            ));
        } else {
            assert(start + decimal(n as nat) =~= start.push((48 + n) as u8));
        }
    }
}

/// The byte for one channel.
pub fn to_byte(v: i64) -> (b: u8)
    ensures
        b == channel_byte(v as int),
{
    let c: i64 = if v < 0 {
        0
    } else if v > CHANNEL_CLAMP {
        CHANNEL_CLAMP
    } else {
        v
    };
    (c * 256 / SCALE) as u8
}

impl Vec3 {
    pub fn r(&self) -> (v: i64)
        ensures
            v == self.x,
    {
        self.x
    }

    pub fn g(&self) -> (v: i64)
        ensures
            v == self.y,
    {
        self.y
    }

    pub fn b(&self) -> (v: i64)
        ensures
            v == self.z,
    {
        self.z
    }

    /// Appends this color's text line.
    pub fn write(&self, out: &mut Vec<u8>)
        ensures
            final(out)@ == old(out)@ + pixel_line(*self),
    {
        let ghost start = out@;
        push_decimal(out, to_byte(self.x) as u32);
        out.push(32);
        push_decimal(out, to_byte(self.y) as u32);
        out.push(32);
        push_decimal(out, to_byte(self.z) as u32);
        out.push(10);
        assert(out@ =~= start + pixel_line(*self));
    }
}

/// Number of newline bytes in `s`.
pub open spec fn line_count(s: Seq<u8>) -> nat
    decreases s.len(),
{
    if s.len() == 0 {
        0
    } else {
        line_count(s.drop_last()) + if s.last() == 10u8 { 1nat } else { 0nat }
    }
}

proof fn lemma_line_count_concat(a: Seq<u8>, b: Seq<u8>)
    ensures
        line_count(a + b) == line_count(a) + line_count(b),
    decreases b.len(),
{
    if b.len() > 0 {
        lemma_line_count_concat(a, b.drop_last());
        assert((a + b).drop_last() =~= a + b.drop_last());
    }
}

proof fn lemma_decimal_has_no_newline(n: nat)
    ensures
        line_count(decimal(n)) == 0,
    decreases n,
{
    if n >= 10 {
        lemma_decimal_has_no_newline(n / 10);
        assert(decimal(n).drop_last() =~= decimal(n / 10));
    } else {
        assert(decimal(n).drop_last() =~= Seq::<u8>::empty());
        reveal_with_fuel(line_count, 2);
    }
}

/// The text of an image opens with its header and then holds exactly one line per pixel.
pub proof fn lemma_image_lines(w: nat, h: nat, cols: Seq<Color>)
    ensures
        ppm_image(w, h, cols).take(ppm_header(w, h).len() as int) == ppm_header(w, h),
        line_count(ppm_image(w, h, cols)) == 3 + cols.len(),
    decreases cols.len(),
{
    let hd = ppm_header(w, h);
    assert(ppm_image(w, h, cols).take(hd.len() as int) =~= hd);
    lemma_decimal_has_no_newline(w);
    lemma_decimal_has_no_newline(h);
    let magic: Seq<u8> = seq![80u8, 51u8, 10u8];
    let sp: Seq<u8> = seq![32u8];
    let tail: Seq<u8> = seq![10u8, 50u8, 53u8, 53u8, 10u8];
    assert(line_count(magic) == 1) by {
        reveal_with_fuel(line_count, 4);
        assert(magic.drop_last().drop_last().drop_last() =~= Seq::<u8>::empty());
        assert(magic.drop_last().drop_last() =~= seq![80u8]);
        assert(magic.drop_last() =~= seq![80u8, 51u8]);
    }
    assert(line_count(sp) == 0) by {
        reveal_with_fuel(line_count, 2);
        assert(sp.drop_last() =~= Seq::<u8>::empty());
    }
    assert(line_count(tail) == 2) by {
        reveal_with_fuel(line_count, 6);
        assert(tail.drop_last() =~= seq![10u8, 50u8, 53u8, 53u8]);
        assert(tail.drop_last().drop_last() =~= seq![10u8, 50u8, 53u8]);
        assert(tail.drop_last().drop_last().drop_last() =~= seq![10u8, 50u8]);
        assert(tail.drop_last().drop_last().drop_last().drop_last() =~= seq![10u8]);
        assert(seq![10u8].drop_last() =~= Seq::<u8>::empty());
    }
    lemma_line_count_concat(magic, decimal(w));
    lemma_line_count_concat(magic + decimal(w), sp);
    lemma_line_count_concat(magic + decimal(w) + sp, decimal(h));
    lemma_line_count_concat(magic + decimal(w) + sp + decimal(h), tail);
    assert(line_count(hd) == 3);
    lemma_body_lines(cols);
    lemma_line_count_concat(hd, ppm_body(cols));
}

proof fn lemma_pixel_line_count(c: Color)
    ensures
        line_count(pixel_line(c)) == 1,
{
    let r = decimal(channel_byte(c.x as int) as nat);
    let g = decimal(channel_byte(c.y as int) as nat);
    let b = decimal(channel_byte(c.z as int) as nat);
    let sp: Seq<u8> = seq![32u8];
    let nl: Seq<u8> = seq![10u8];
    lemma_decimal_has_no_newline(channel_byte(c.x as int) as nat);
    lemma_decimal_has_no_newline(channel_byte(c.y as int) as nat);
    lemma_decimal_has_no_newline(channel_byte(c.z as int) as nat);
    assert(line_count(sp) == 0) by {
        reveal_with_fuel(line_count, 2);
        assert(sp.drop_last() =~= Seq::<u8>::empty());
    }
    assert(line_count(nl) == 1) by {
        reveal_with_fuel(line_count, 2);
        assert(nl.drop_last() =~= Seq::<u8>::empty());
    }
    lemma_line_count_concat(r, sp);
    lemma_line_count_concat(r + sp, g);
    lemma_line_count_concat(r + sp + g, sp);
    lemma_line_count_concat(r + sp + g + sp, b);
    lemma_line_count_concat(r + sp + g + sp + b, nl);
}

proof fn lemma_body_lines(cols: Seq<Color>)
    ensures
        line_count(ppm_body(cols)) == cols.len(),
    decreases cols.len(),
{
    if cols.len() > 0 {
        lemma_body_lines(cols.drop_last());
        lemma_pixel_line_count(cols.last());
        lemma_line_count_concat(ppm_body(cols.drop_last()), pixel_line(cols.last()));
    }
}

} // verus!
