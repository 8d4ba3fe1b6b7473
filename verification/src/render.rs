//! ASCII-frame helpers: the luminance-to-glyph ramp, the nibble packing of
//! a frame, and the side-by-side composition of two frames.
//!
//! A frame is a byte string of ramp glyphs with `\n` ending each row.
//! Camera capture and terminal output stay outside; they only feed pixels
//! and frames through these functions.

use vstd::prelude::*;

verus! {

/// How many glyphs the luminance ramp has.
pub const RAMP_LEN: usize = 12;

/// The glyph at one step of the luminance ramp, dark to bright:
/// space `. , : ; + * ? % S # @`.
pub open spec fn ramp_glyph(i: int) -> u8 {
    if i == 0 {
        32u8
    } else if i == 1 {
        46u8
    } else if i == 2 {
        44u8
    } else if i == 3 {
        58u8
    } else if i == 4 {
        59u8
    } else if i == 5 {
        43u8
    } else if i == 6 {
        42u8
    } else if i == 7 {
        63u8
    } else if i == 8 {
        37u8
    } else if i == 9 {
        83u8
    } else if i == 10 {
        35u8
    } else if i == 11 {
        64u8
    } else if i == 12 {
        10u8  // newline: the 13th code in the packed form
    } else {
        32u8
    }
}

/// The packed 4-bit code of a glyph: its ramp position, newline included;
/// any other byte packs as 0.
pub open spec fn glyph_code(b: u8) -> u8 {
    if b == 32 {
        0u8
    } else if b == 46 {
        1u8
    } else if b == 44 {
        2u8
    } else if b == 58 {
        3u8
    } else if b == 59 {
        4u8
    } else if b == 43 {
        5u8
    } else if b == 42 {
        6u8
    } else if b == 63 {
        7u8
    } else if b == 37 {
        8u8
    } else if b == 83 {
        9u8
    } else if b == 35 {
        10u8
    } else if b == 64 {
        11u8
    } else if b == 10 {
        12u8
    } else {
        0u8
    }
}

/// The ramp glyph for a pixel's brightness: the 0..=255 range is spread
/// over the ramp's twelve steps.
pub open spec fn spec_pixel_glyph(p: u8) -> u8 {
    ramp_glyph((p as int * (RAMP_LEN - 1)) / 255)
}

/// Maps one grayscale pixel to its ramp glyph.
pub fn pixel_glyph(p: u8) -> (g: u8)
    ensures
        g == spec_pixel_glyph(p),
{
    let i = (p as usize * (RAMP_LEN - 1)) / 255;
    if i == 0 {
        32
    } else if i == 1 {
        46
    } else if i == 2 {
        44
    } else if i == 3 {
        58
    } else if i == 4 {
        59
    } else if i == 5 {
        43
    } else if i == 6 {
        42
    } else if i == 7 {
        63
    } else if i == 8 {
        37
    } else if i == 9 {
        83
    } else if i == 10 {
        35
    } else {
        proof {
            assert(p as int * 11 <= 255 * 11) by (nonlinear_arith)
                requires p as int <= 255;
        }
        64
    }
}

/// A frame packed two glyphs to a byte, high nibble first; an odd trailing
/// glyph is padded with code 0.
pub open spec fn spec_pack(s: Seq<u8>) -> Seq<u8>
    decreases s.len(),
{
    if s.len() == 0 {
        seq![]
    } else if s.len() == 1 {
        seq![(glyph_code(s[0]) & 0x0f) << 4]
    } else {
        seq![((glyph_code(s[0]) & 0x0f) << 4) | (glyph_code(s[1]) & 0x0f)] + spec_pack(s.skip(2))
    }
}

/// The glyph a 4-bit code unpacks to; codes beyond the ramp give a space.
pub open spec fn code_glyph(n: u8) -> u8 {
    if n < 13 {
        ramp_glyph(n as int)
    } else {
        32u8
    }
}

/// The frame a packed byte string unpacks to: two glyphs per byte.
pub open spec fn spec_unpack(s: Seq<u8>) -> Seq<u8>
    decreases s.len(),
{
    if s.len() == 0 {
        seq![]
    } else {
        seq![code_glyph((s[0] >> 4) & 0x0f), code_glyph(s[0] & 0x0f)] + spec_unpack(s.skip(1))
    }
}

fn glyph_code_x(b: u8) -> (c: u8)
    ensures
        c == glyph_code(b),
        c < 13,
{
    if b == 32 {
        0
    } else if b == 46 {
        1
    } else if b == 44 {
        2
    } else if b == 58 {
        3
    } else if b == 59 {
        4
    } else if b == 43 {
        5
    } else if b == 42 {
        6
    } else if b == 63 {
        7
    } else if b == 37 {
        8
    } else if b == 83 {
        9
    } else if b == 35 {
        10
    } else if b == 64 {
        11
    } else if b == 10 {
        12
    } else {
        0
    }
}

fn code_glyph_x(n: u8) -> (g: u8)
    ensures
        g == code_glyph(n),
{
    if n == 0 {
        32
    } else if n == 1 {
        46
    } else if n == 2 {
        44
    } else if n == 3 {
        58
    } else if n == 4 {
        59
    } else if n == 5 {
        43
    } else if n == 6 {
        42
    } else if n == 7 {
        63
    } else if n == 8 {
        37
    } else if n == 9 {
        83
    } else if n == 10 {
        35
    } else if n == 11 {
        64
    } else if n == 12 {
        10
    } else {
        32
    }
}

/// Packs an ASCII frame two glyphs to a byte for a smaller datagram.
pub fn ascii_frame_to_bytes(ascii: &Vec<u8>) -> (packed: Vec<u8>)
    ensures
        packed@ == spec_pack(ascii@),
{
    let mut packed: Vec<u8> = Vec::new();
    proof {
        assert(ascii@.skip(0) =~= ascii@);
    }
    let mut i: usize = 0;
    while i < ascii.len()
        invariant
            i <= ascii@.len(),
            i % 2 == 0 || i == ascii@.len(),
            spec_pack(ascii@) =~= packed@ + spec_pack(ascii@.skip(i as int)),
        decreases ascii@.len() - i,
    {
        let c1 = glyph_code_x(ascii[i]);
        let ghost rest = ascii@.skip(i as int);
        if i + 1 < ascii.len() {
            let c2 = glyph_code_x(ascii[i + 1]);
            packed.push(((c1 & 0x0f) << 4) | (c2 & 0x0f));
            proof {
                assert(rest[0] == ascii@[i as int]);
                assert(rest[1] == ascii@[i + 1]);
                assert(rest.skip(2) =~= ascii@.skip(i + 2));
            }
            i = i + 2;
        } else {
            packed.push((c1 & 0x0f) << 4);
            proof {
                assert(rest.len() == 1);
                assert(rest[0] == ascii@[i as int]);
            }
            i = i + 1;
        }
    }
    proof {
        assert(ascii@.skip(ascii@.len() as int) =~= Seq::<u8>::empty());
        assert(packed@ =~= spec_pack(ascii@));
    }
    packed
}

/// Unpacks a packed frame back into its glyphs.
pub fn bytes_to_ascii_frame(packed: &Vec<u8>) -> (ascii: Vec<u8>)
    ensures
        ascii@ == spec_unpack(packed@),
{
    let mut ascii: Vec<u8> = Vec::new();
    proof {
        assert(packed@.skip(0) =~= packed@);
    }
    let mut i: usize = 0;
    while i < packed.len()
        invariant
            i <= packed@.len(),
            spec_unpack(packed@) =~= ascii@ + spec_unpack(packed@.skip(i as int)),
        decreases packed@.len() - i,
    {
        let b = packed[i];
        ascii.push(code_glyph_x((b >> 4) & 0x0f));
        ascii.push(code_glyph_x(b & 0x0f));
        proof {
            let rest = packed@.skip(i as int);
            assert(rest[0] == packed@[i as int]);
            assert(rest.skip(1) =~= packed@.skip(i + 1));
        }
        i = i + 1;
    }
    proof {
        assert(packed@.skip(packed@.len() as int) =~= Seq::<u8>::empty());
        assert(ascii@ =~= spec_unpack(packed@));
    }
    ascii
}

/// Packing halves a frame: each packed byte carries two glyphs, the odd
/// glyph its own byte; and unpacking a packed frame of ramp glyphs gives
/// the frame back, with a space appended after an odd-length one.
pub proof fn lemma_pack_unpack_round_trip(s: Seq<u8>)
    requires
        forall|i: int| 0 <= i < s.len() ==> glyph_code(#[trigger] s[i]) < 13 && code_glyph(
            glyph_code(s[i]),
        ) == s[i],
    ensures
        spec_pack(s).len() == (s.len() + 1) / 2,
        spec_unpack(spec_pack(s)) == if s.len() % 2 == 0 {
            s
        } else {
            s + seq![32u8]
        },
    decreases s.len(),
{
    if s.len() == 0 {
        assert(spec_unpack(spec_pack(s)) =~= s);
    } else if s.len() == 1 {
        let c1 = glyph_code(s[0]);
        let b = (c1 & 0x0f) << 4;
        assert(c1 < 13);
        assert((b >> 4) & 0x0f == c1 && b & 0x0f == 0) by (bit_vector)
            requires b == (c1 & 0x0f) << 4 && c1 < 13;
        assert(spec_pack(s) =~= seq![b]);
        let e = Seq::<u8>::empty();
        assert(spec_unpack(e) =~= e);
        assert(seq![b].skip(1) =~= e);
        assert(spec_unpack(seq![b].skip(1)) == spec_unpack(e));
        assert(spec_unpack(seq![b]) =~= seq![code_glyph((b >> 4) & 0x0f), code_glyph(b & 0x0f)]);
        assert(code_glyph((b >> 4) & 0x0f) == s[0]);
        assert(code_glyph(b & 0x0f) == 32u8);
        assert(spec_unpack(spec_pack(s)) =~= s + seq![32u8]);
    } else {
        lemma_pack_unpack_round_trip(s.skip(2));
        let c1 = glyph_code(s[0]);
        let c2 = glyph_code(s[1]);
        let b = ((c1 & 0x0f) << 4) | (c2 & 0x0f);
        assert((b >> 4) & 0x0f == c1 && b & 0x0f == c2) by (bit_vector)
            requires b == ((c1 & 0x0f) << 4) | (c2 & 0x0f) && c1 < 13 && c2 < 13;
        let packed = spec_pack(s);
        assert(packed =~= seq![b] + spec_pack(s.skip(2)));
        assert(packed.skip(1) =~= spec_pack(s.skip(2)));
        assert(spec_unpack(packed) =~= seq![code_glyph(c1), code_glyph(c2)] + spec_unpack(
            spec_pack(s.skip(2)),
        ));
        if s.len() % 2 == 0 {
            assert(spec_unpack(packed) =~= s);
        } else {
            assert(spec_unpack(packed) =~= s + seq![32u8]);
        }
    }
}

// ---------------------------------------------------------------------------
// Side-by-side composition
// ---------------------------------------------------------------------------

/// The position of the first newline, or -1.
pub open spec fn find_nl(s: Seq<u8>) -> int
    decreases s.len(),
{
    if s.len() == 0 {
        -1
    } else if s[0] == 10 {
        0
    } else {
        let r = find_nl(s.skip(1));
        if r < 0 {
            -1
        } else {
            r + 1
        }
    }
}

/// The newline-separated lines of a frame, the final newline optional.
pub open spec fn split_lines(s: Seq<u8>) -> Seq<Seq<u8>>
    decreases s.len(),
{
    if s.len() == 0 {
        seq![]
    } else {
        let i = find_nl(s);
        if i < 0 || i >= s.len() {
            seq![s]
        } else {
            seq![s.take(i)] + split_lines(s.skip(i + 1))
        }
    }
}

/// The width of the widest line.
pub open spec fn max_line_len(ls: Seq<Seq<u8>>) -> int
    decreases ls.len(),
{
    if ls.len() == 0 {
        0
    } else {
        let r = max_line_len(ls.drop_last());
        if ls.last().len() > r {
            ls.last().len() as int
        } else {
            r
        }
    }
}

/// Line `i`, or an empty line past the end.
pub open spec fn line_at(ls: Seq<Seq<u8>>, i: int) -> Seq<u8> {
    if 0 <= i < ls.len() {
        ls[i]
    } else {
        seq![]
    }
}

/// `l` filled with spaces up to width `w`.
pub open spec fn padded(l: Seq<u8>, w: int) -> Seq<u8> {
    if l.len() >= w {
        l
    } else {
        l + Seq::new((w - l.len()) as nat, |j: int| 32u8)
    }
}

/// A horizontal border: `+`, dashes over each pane, `+` between and after.
pub open spec fn dash_row(w1: int, w2: int) -> Seq<u8> {
    seq![43u8] + Seq::new(if w1 >= 0 {
        w1 as nat
    } else {
        0
    }, |j: int| 45u8) + seq![43u8] + Seq::new(
        if w2 >= 0 {
            w2 as nat
        } else {
            0
        },
        |j: int| 45u8,
    ) + seq![43u8]
}

/// Row `i` of the composition: the two padded lines side by side, walled in
/// when a border is asked for.
pub open spec fn merge_row(
    l1: Seq<Seq<u8>>,
    l2: Seq<Seq<u8>>,
    w1: int,
    w2: int,
    border: bool,
    i: int,
) -> Seq<u8> {
    if border {
        seq![124u8] + padded(line_at(l1, i), w1) + seq![124u8] + padded(line_at(l2, i), w2)
            + seq![124u8, 10u8]
    } else {
        padded(line_at(l1, i), w1) + seq![32u8] + padded(line_at(l2, i), w2) + seq![10u8]
    }
}

/// Rows 0 to `n` of the composition, concatenated.
pub open spec fn merge_rows(
    l1: Seq<Seq<u8>>,
    l2: Seq<Seq<u8>>,
    w1: int,
    w2: int,
    border: bool,
    n: int,
) -> Seq<u8>
    decreases n,
{
    if n <= 0 {
        seq![]
    } else {
        merge_rows(l1, l2, w1, w2, border, n - 1) + merge_row(l1, l2, w1, w2, border, n - 1)
    }
}

/// Two frames printed next to each other: line by line, each pane padded to
/// its widest line, with optional borders above, below and between.
pub open spec fn spec_merge(f1: Seq<u8>, f2: Seq<u8>, border: bool) -> Seq<u8> {
    let l1 = split_lines(f1);
    let l2 = split_lines(f2);
    let w1 = max_line_len(l1);
    let w2 = max_line_len(l2);
    let n = if l1.len() >= l2.len() {
        l1.len() as int
    } else {
        l2.len() as int
    };
    let body = merge_rows(l1, l2, w1, w2, border, n);
    if border {
        dash_row(w1, w2) + seq![10u8] + body + dash_row(w1, w2)
    } else {
        body
    }
}

proof fn lemma_find_nl_at(s: Seq<u8>, m: int)
    requires
        0 <= m <= s.len(),
        forall|j: int| 0 <= j < m ==> (#[trigger] s[j]) != 10,
        m == s.len() || s[m] == 10,
    ensures
        m == s.len() ==> find_nl(s) == -1,
        m < s.len() ==> find_nl(s) == m,
    decreases m,
{
    if s.len() == 0 {
    } else if m == 0 {
    } else {
        lemma_find_nl_at(s.skip(1), m - 1);
    }
}

/// No line is wider than the widest.
proof fn lemma_max_line_len_ge(ls: Seq<Seq<u8>>, i: int)
    requires
        0 <= i < ls.len(),
    ensures
        max_line_len(ls) >= ls[i].len(),
        max_line_len(ls) >= 0,
    decreases ls.len(),
{
    if i == ls.len() - 1 {
        lemma_max_line_len_nonneg(ls.drop_last());
    } else {
        lemma_max_line_len_ge(ls.drop_last(), i);
        assert(ls.drop_last()[i] == ls[i]);
    }
}

proof fn lemma_max_line_len_nonneg(ls: Seq<Seq<u8>>)
    ensures
        max_line_len(ls) >= 0,
    decreases ls.len(),
{
    if ls.len() > 0 {
        lemma_max_line_len_nonneg(ls.drop_last());
    }
}

proof fn lemma_max_line_len_step(ls: Seq<Seq<u8>>, i: int)
    requires
        0 <= i < ls.len(),
    ensures
        max_line_len(ls.take(i + 1)) == (if ls[i].len() > max_line_len(ls.take(i)) {
            ls[i].len() as int
        } else {
            max_line_len(ls.take(i))
        }),
{
    assert(ls.take(i + 1).drop_last() =~= ls.take(i));
    assert(ls.take(i + 1).last() == ls[i]);
}

/// The lines of a frame, as runnable code.
pub fn split_lines_vec(s: &Vec<u8>) -> (lines: Vec<Vec<u8>>)
    ensures
        lines@.map_values(|l: Vec<u8>| l@) == split_lines(s@),
{
    let mut lines: Vec<Vec<u8>> = Vec::new();
    proof {
        assert(s@.skip(0) =~= s@);
    }
    let mut pos: usize = 0;
    while pos < s.len()
        invariant
            pos <= s@.len(),
            split_lines(s@) =~= lines@.map_values(|l: Vec<u8>| l@) + split_lines(
                s@.skip(pos as int),
            ),
        decreases s@.len() - pos,
    {
        let mut q: usize = pos;
        while q < s.len() && s[q] != 10
            invariant
                pos <= q <= s@.len(),
                forall|j: int| pos <= j < q ==> (#[trigger] s@[j]) != 10,
            decreases s@.len() - q,
        {
            q = q + 1;
        }
        let mut line: Vec<u8> = Vec::new();
        let mut i: usize = pos;
        while i < q
            invariant
                pos <= i <= q <= s@.len(),
                line@ =~= s@.subrange(pos as int, i as int),
            decreases q - i,
        {
            line.push(s[i]);
            i = i + 1;
        }
        let ghost rest = s@.skip(pos as int);
        proof {
            lemma_find_nl_at(rest, q - pos as int);
        }
        if q < s.len() {
            proof {
                assert(rest.take(q - pos as int) =~= s@.subrange(pos as int, q as int));
                assert(rest.skip(q - pos + 1 as int) =~= s@.skip(q + 1 as int));
                assert((lines@.map_values(|l: Vec<u8>| l@)).push(line@) =~= lines@.map_values(
                    |l: Vec<u8>| l@,
                ) + seq![line@]);
            }
            lines.push(line);
            proof {
                assert(split_lines(s@) =~= lines@.map_values(|l: Vec<u8>| l@) + split_lines(
                    s@.skip(q + 1 as int),
                ));
            }
            pos = q + 1;
        } else {
            proof {
                assert(rest =~= s@.subrange(pos as int, q as int));
                assert(line@ =~= rest);
                assert(split_lines(rest) =~= seq![line@]);
            }
            lines.push(line);
            proof {
                assert(s@.skip(q as int) =~= Seq::<u8>::empty());
                assert(split_lines(s@) =~= lines@.map_values(|l: Vec<u8>| l@) + split_lines(
                    s@.skip(q as int),
                ));
            }
            pos = q;
        }
    }
    proof {
        assert(s@.skip(s@.len() as int) =~= Seq::<u8>::empty());
        assert(lines@.map_values(|l: Vec<u8>| l@) =~= split_lines(s@));
    }
    lines
}

/// The width of the widest line, as runnable code.
fn max_width(lines: &Vec<Vec<u8>>) -> (w: usize)
    ensures
        w == max_line_len(lines@.map_values(|l: Vec<u8>| l@)),
{
    let ghost ls = lines@.map_values(|l: Vec<u8>| l@);
    proof {
        assert(ls.take(0) =~= Seq::<Seq<u8>>::empty());
    }
    let mut w: usize = 0;
    let mut i: usize = 0;
    while i < lines.len()
        invariant
            i <= lines@.len(),
            ls == lines@.map_values(|l: Vec<u8>| l@),
            w == max_line_len(ls.take(i as int)),
        decreases lines@.len() - i,
    {
        proof {
            lemma_max_line_len_step(ls, i as int);
        }
        if lines[i].len() > w {
            w = lines[i].len();
        }
        i = i + 1;
    }
    proof {
        assert(ls.take(ls.len() as int) =~= ls);
    }
    w
}

/// Appends line `i` of `lines` padded with spaces to width `w`.
fn push_padded(out: &mut Vec<u8>, lines: &Vec<Vec<u8>>, i: usize, w: usize)
    ensures
        final(out)@ == old(out)@ + padded(
            line_at(lines@.map_values(|l: Vec<u8>| l@), i as int),
            w as int,
        ),
{
    let ghost ls = lines@.map_values(|l: Vec<u8>| l@);
    let ghost base = out@;
    if i < lines.len() {
        let line = &lines[i];
        let mut j: usize = 0;
        while j < line.len()
            invariant
                j <= line@.len(),
                line@ == ls[i as int],
                out@ =~= base + line@.subrange(0, j as int),
            decreases line@.len() - j,
        {
            out.push(line[j]);
            j = j + 1;
        }
        let mut fill: usize = line.len();
        while fill < w
            invariant
                line@.len() <= fill <= w || (fill == line@.len() && fill >= w),
                line@ == ls[i as int],
                out@ =~= base + line@ + Seq::new((fill - line@.len()) as nat, |k: int| 32u8),
            decreases w - fill,
        {
            out.push(32);
            proof {
                assert(Seq::new((fill + 1 - line@.len()) as nat, |k: int| 32u8) =~= Seq::new(
                    (fill - line@.len()) as nat,
                    |k: int| 32u8,
                ).push(32u8));
            }
            fill = fill + 1;
        }
        proof {
            assert(out@ =~= base + padded(line_at(ls, i as int), w as int));
        }
    } else {
        let mut fill: usize = 0;
        while fill < w
            invariant
                fill <= w,
                out@ =~= base + Seq::new(fill as nat, |k: int| 32u8),
            decreases w - fill,
        {
            out.push(32);
            proof {
                assert(Seq::new((fill + 1) as nat, |k: int| 32u8) =~= Seq::new(
                    fill as nat,
                    |k: int| 32u8,
                ).push(32u8));
            }
            fill = fill + 1;
        }
        proof {
            assert(line_at(ls, i as int) =~= Seq::<u8>::empty());
            assert(out@ =~= base + padded(line_at(ls, i as int), w as int));
        }
    }
}

/// Appends a horizontal border row.
fn push_dash_row(out: &mut Vec<u8>, w1: usize, w2: usize)
    ensures
        final(out)@ == old(out)@ + dash_row(w1 as int, w2 as int),
{
    let ghost base = out@;
    out.push(43);
    let mut i: usize = 0;
    while i < w1
        invariant
            i <= w1,
            out@ =~= base + seq![43u8] + Seq::new(i as nat, |k: int| 45u8),
        decreases w1 - i,
    {
        out.push(45);
        proof {
            assert(Seq::new((i + 1) as nat, |k: int| 45u8) =~= Seq::new(
                i as nat,
                |k: int| 45u8,
            ).push(45u8));
        }
        i = i + 1;
    }
    out.push(43);
    let ghost mid = out@;
    let mut j: usize = 0;
    while j < w2
        invariant
            j <= w2,
            out@ =~= mid + Seq::new(j as nat, |k: int| 45u8),
        decreases w2 - j,
    {
        out.push(45);
        proof {
            assert(Seq::new((j + 1) as nat, |k: int| 45u8) =~= Seq::new(
                j as nat,
                |k: int| 45u8,
            ).push(45u8));
        }
        j = j + 1;
    }
    out.push(43);
    proof {
        assert(out@ =~= base + dash_row(w1 as int, w2 as int));
    }
}

/// Prints two frames next to each other, line by line, each pane padded to
/// its own widest line, with borders when asked for.
pub fn merge_ascii_frames_side_by_side(frame1: &Vec<u8>, frame2: &Vec<u8>, border: bool) -> (m:
    Vec<u8>)
    ensures
        m@ == spec_merge(frame1@, frame2@, border),
{
    let lines1 = split_lines_vec(frame1);
    let lines2 = split_lines_vec(frame2);
    let ghost l1 = lines1@.map_values(|l: Vec<u8>| l@);
    let ghost l2 = lines2@.map_values(|l: Vec<u8>| l@);
    let w1 = max_width(&lines1);
    let w2 = max_width(&lines2);
    let rows = if lines1.len() >= lines2.len() {
        lines1.len()
    } else {
        lines2.len()
    };
    let mut out: Vec<u8> = Vec::new();
    if border {
        push_dash_row(&mut out, w1, w2);
        out.push(10);
    }
    let ghost head = out@;
    let mut i: usize = 0;
    while i < rows
        invariant
            i <= rows,
            l1 == lines1@.map_values(|l: Vec<u8>| l@),
            l2 == lines2@.map_values(|l: Vec<u8>| l@),
            w1 == max_line_len(l1),
            w2 == max_line_len(l2),
            out@ =~= head + merge_rows(l1, l2, w1 as int, w2 as int, border, i as int),
        decreases rows - i,
    {
        if border {
            out.push(124);
        }
        push_padded(&mut out, &lines1, i, w1);
        if border {
            out.push(124);
        } else {
            out.push(32);
        }
        push_padded(&mut out, &lines2, i, w2);
        if border {
            out.push(124);
        }
        out.push(10);
        proof {
            assert(out@ =~= head + merge_rows(l1, l2, w1 as int, w2 as int, border, i + 1 as int));
        }
        i = i + 1;
    }
    if border {
        push_dash_row(&mut out, w1, w2);
    }
    proof {
        assert(out@ =~= spec_merge(frame1@, frame2@, border));
    }
    out
}

} // verus!
