//! The dump encoder: renders a byte stream as annotated hex text, one line
//! per chunk of `columns` bytes, with an offset column, optional grouping,
//! running width alignment and an ASCII preview.

use vstd::prelude::*;

use crate::errors::HexError;

verus! {

/// The ASCII code of the lowercase hex digit for `v`; meaningful only when
/// `v < 16`.
pub open spec fn hex_digit_ascii(v: int) -> u8 {
    if v < 10 {
        (0x30 + v) as u8
    } else {
        (0x61 + v - 10) as u8
    }
}

fn exec_hex_digit_ascii(v: u8) -> (r: u8)
    requires
        v < 16,
    ensures
        r == hex_digit_ascii(v as int),
{
    if v < 10 {
        0x30 + v
    } else {
        0x61 + v - 10
    }
}

/// The two lowercase hex digits of one byte.
pub open spec fn byte_hex(b: u8) -> Seq<u8> {
    seq![hex_digit_ascii(b as int / 16), hex_digit_ascii(b as int % 16)]
}

/// The hex digits of `n`, most significant first, without leading zeros;
/// meaningful only when `n >= 0`.
pub open spec fn hex_digits(n: int) -> Seq<u8>
    decreases n,
{
    if n < 16 {
        seq![hex_digit_ascii(n % 16)]
    } else {
        hex_digits(n / 16) + seq![hex_digit_ascii(n % 16)]
    }
}

/// `n` spaces (or none, when `n` is negative).
pub open spec fn spaces(n: int) -> Seq<u8> {
    if n >= 0 {
        Seq::new(n as nat, |i: int| 0x20u8)
    } else {
        Seq::empty()
    }
}

/// The offset column: the hex digits of `n`, zero-padded on the left to at
/// least eight.
pub open spec fn offset_field(n: int) -> Seq<u8> {
    let d = hex_digits(n);
    if d.len() >= 8 {
        d
    } else {
        Seq::new((8 - d.len()) as nat, |i: int| 0x30u8) + d
    }
}

/// The hex field from byte `i` on: each byte as two digits, with a single
/// space before every byte whose index is a positive multiple of `group`
/// (no spaces at all when `group` is zero).
pub open spec fn hex_field_from(bs: Seq<u8>, group: int, i: int) -> Seq<u8>
    decreases bs.len() - i,
{
    if i < 0 || i >= bs.len() {
        Seq::empty()
    } else {
        let sep: Seq<u8> = if group > 0 && i > 0 && i % group == 0 {
            seq![0x20u8]
        } else {
            Seq::empty()
        };
        sep + byte_hex(bs[i]) + hex_field_from(bs, group, i + 1)
    }
}

/// The whole hex field of one line.
pub open spec fn hex_field(bs: Seq<u8>, group: int) -> Seq<u8> {
    hex_field_from(bs, group, 0)
}

/// Everything on a line left of the alignment padding: offset column, a
/// colon and a space, then the hex field.
pub open spec fn render_head(off: int, group: int, bs: Seq<u8>) -> Seq<u8> {
    offset_field(off) + seq![0x3au8, 0x20u8] + hex_field(bs, group)
}

/// What one byte shows in the preview column: itself if printable ASCII
/// (space through tilde), a dot otherwise.
pub open spec fn preview_byte(b: u8) -> u8 {
    if 0x20 <= b <= 0x7e {
        b
    } else {
        0x2eu8
    }
}

/// The ASCII preview of a chunk.
pub open spec fn preview(bs: Seq<u8>) -> Seq<u8> {
    Seq::new(bs.len(), |i: int| preview_byte(bs[i]))
}

/// The width the encoder tracks after a line: the widest head rendered so
/// far.
pub open spec fn next_width(off: int, group: int, width: int, bs: Seq<u8>) -> int {
    let head = render_head(off, group, bs);
    if head.len() >= width {
        head.len() as int
    } else {
        width
    }
}

/// One full output line: head, padding up to the running width, the
/// ` | ` separator, the preview, and a newline.
pub open spec fn render_line(off: int, group: int, width: int, bs: Seq<u8>) -> Seq<u8> {
    let head = render_head(off, group, bs);
    head + spaces(next_width(off, group, width, bs) - head.len()) + seq![0x20u8, 0x7cu8, 0x20u8]
        + preview(bs) + seq![0x0au8]
}

/// The state the encoder threads from line to line: the grouping, the
/// running offset, and the widest head emitted so far (later, narrower
/// lines pad up to it; earlier lines are never revisited).
pub struct Printer {
    pub octets_per_group: usize,
    pub output_width: usize,
    pub current_offset: u64,
}

impl Printer {
    /// A fresh encoder state: nothing emitted yet, offset starting at
    /// `initial_offset`.
    pub fn new(octets_per_group: usize, initial_offset: u64) -> (r: Printer)
        ensures
            r.octets_per_group == octets_per_group,
            r.output_width == 0,
            r.current_offset == initial_offset,
    {
        Printer { octets_per_group, output_width: 0, current_offset: initial_offset }
    }

    /// Renders one chunk as one line appended to `out`, advancing the
    /// offset by the chunk length and widening the running width to this
    /// line's head if it is the widest yet.
    pub fn write_line(&mut self, out: &mut Vec<u8>, chunk: &[u8])
        requires
            old(self).current_offset + chunk@.len() <= u64::MAX,
        ensures
            final(self).octets_per_group == old(self).octets_per_group,
            final(self).current_offset == old(self).current_offset + chunk@.len(),
            final(self).output_width as int == next_width(
                old(self).current_offset as int,
                old(self).octets_per_group as int,
                old(self).output_width as int,
                chunk@,
            ),
            final(out)@ == old(out)@ + render_line(
                old(self).current_offset as int,
                old(self).octets_per_group as int,
                old(self).output_width as int,
                chunk@,
            ),
    {
        let ghost off = self.current_offset as int;
        let ghost group = self.octets_per_group as int;
        let ghost width0 = self.output_width as int;

        let mut line_buf: Vec<u8> = Vec::new();
        push_offset_field(&mut line_buf, self.current_offset);
        line_buf.push(0x3a);
        line_buf.push(0x20);
        proof {
            assert(line_buf@ =~= offset_field(off) + seq![0x3au8, 0x20u8]);
        }
        push_hex_field(&mut line_buf, chunk, self.octets_per_group);
        proof {
            assert(line_buf@ =~= render_head(off, group, chunk@));
        }

        // Width tracking and alignment padding.
        if line_buf.len() > self.output_width {
            self.output_width = line_buf.len();
        }
        let padding = self.output_width - line_buf.len();
        let ghost head = render_head(off, group, chunk@);
        proof {
            assert(self.output_width as int == next_width(off, group, width0, chunk@));
        }
        let ghost out0 = out@;
        out.append(&mut line_buf);
        push_spaces(out, padding);
        out.push(0x20);
        out.push(0x7c);
        out.push(0x20);
        push_preview(out, chunk);
        out.push(0x0a);
        proof {
            assert(out@ =~= out0 + render_line(off, group, width0, chunk@));
        }

        self.current_offset = self.current_offset + chunk.len() as u64;
    }
}

/// Appends the zero-padded hex offset column for `off`.
fn push_offset_field(buf: &mut Vec<u8>, off: u64)
    ensures
        final(buf)@ == old(buf)@ + offset_field(off as int),
{
    // Digits are collected least-significant first, zero-padded, then
    // reversed into place.
    let mut digits: Vec<u8> = Vec::new();
    let mut v: u64 = off;
    digits.push(exec_hex_digit_ascii((v % 16) as u8));
    proof {
        assert(digits@.reverse() =~= seq![hex_digit_ascii(off as int % 16)]);
        if off < 16 {
            assert(hex_digits(off as int) =~= Seq::<u8>::empty() + digits@.reverse());
        }
    }
    v = v / 16;
    while v > 0
        invariant
            hex_digits(off as int) =~= (if v > 0 {
                hex_digits(v as int)
            } else {
                Seq::<u8>::empty()
            }) + digits@.reverse(),
            digits@.len() >= 1,
        decreases v,
    {
        let d = exec_hex_digit_ascii((v % 16) as u8);
        proof {
            assert(digits@.push(d).reverse() =~= seq![d] + digits@.reverse());
            if v >= 16 {
                assert(hex_digits(v as int) == hex_digits(v as int / 16) + seq![
                    hex_digit_ascii(v as int % 16),
                ]);
                assert((hex_digits(v as int / 16) + seq![d]) + digits@.reverse() =~= hex_digits(
                    v as int / 16,
                ) + (seq![d] + digits@.reverse()));
            } else {
                assert(hex_digits(v as int) =~= seq![d]);
                assert(seq![d] + digits@.reverse() =~= Seq::<u8>::empty() + (seq![d]
                    + digits@.reverse()));
            }
        }
        digits.push(d);
        v = v / 16;
    }
    proof {
        assert(hex_digits(off as int) =~= digits@.reverse());
    }
    let ghost bare = digits@.reverse();
    while digits.len() < 8
        invariant
            bare == hex_digits(off as int),
            digits@.reverse() =~= Seq::new((digits@.len() - bare.len()) as nat, |i: int| 0x30u8)
                + bare,
            bare.len() >= 1,
            digits@.len() >= bare.len(),
            bare.len() < 8 ==> digits@.len() <= 8,
            bare.len() >= 8 ==> digits@.len() == bare.len(),
        decreases 8 - digits.len(),
    {
        proof {
            assert(digits@.push(0x30u8).reverse() =~= seq![0x30u8] + digits@.reverse());
            assert(seq![0x30u8] + (Seq::new((digits@.len() - bare.len()) as nat, |i: int| 0x30u8)
                + bare) =~= Seq::new((digits@.len() + 1 - bare.len()) as nat, |i: int| 0x30u8)
                + bare);
        }
        digits.push(0x30);
    }
    proof {
        assert(offset_field(off as int) =~= digits@.reverse());
    }
    let ghost buf0 = buf@;
    let dlen = digits.len();
    let mut t: usize = 0;
    while t < dlen
        invariant
            t <= dlen == digits@.len(),
            buf@ =~= buf0 + digits@.reverse().take(t as int),
        decreases dlen - t,
    {
        buf.push(digits[dlen - 1 - t]);
        proof {
            assert(digits@.reverse()[t as int] == digits@[dlen - 1 - t]);
            assert(buf@ =~= buf0 + digits@.reverse().take(t + 1));
        }
        t = t + 1;
    }
    proof {
        assert(digits@.reverse().take(dlen as int) =~= digits@.reverse());
        assert(buf@ =~= buf0 + offset_field(off as int));
    }
}

/// Appends the hex field for `chunk` with grouping `group`.
fn push_hex_field(buf: &mut Vec<u8>, chunk: &[u8], group: usize)
    ensures
        final(buf)@ == old(buf)@ + hex_field(chunk@, group as int),
{
    let ghost buf0 = buf@;
    let ghost g = group as int;
    let mut i: usize = 0;
    proof {
        assert(buf@.skip(buf0.len() as int) =~= Seq::<u8>::empty());
    }
    while i < chunk.len()
        invariant
            g == group as int,
            i <= chunk@.len(),
            buf0.len() <= buf@.len(),
            buf@.take(buf0.len() as int) =~= buf0,
            hex_field(chunk@, g) =~= buf@.skip(buf0.len() as int) + hex_field_from(
                chunk@,
                g,
                i as int,
            ),
        decreases chunk@.len() - i,
    {
        let ghost before = buf@;
        if group != 0 && i != 0 && i % group == 0 {
            buf.push(0x20);
        }
        let b = chunk[i];
        buf.push(exec_hex_digit_ascii(b / 16));
        buf.push(exec_hex_digit_ascii(b % 16));
        proof {
            let sep: Seq<u8> = if g > 0 && i > 0 && i as int % g == 0 {
                seq![0x20u8]
            } else {
                Seq::empty()
            };
            assert(buf@ =~= before + (sep + byte_hex(chunk@[i as int])));
            assert(buf@.take(buf0.len() as int) =~= before.take(buf0.len() as int));
            assert(buf@.skip(buf0.len() as int) =~= before.skip(buf0.len() as int) + (sep
                + byte_hex(chunk@[i as int])));
            assert(hex_field_from(chunk@, g, i as int) == sep + byte_hex(chunk@[i as int])
                + hex_field_from(chunk@, g, i + 1));
            assert((before.skip(buf0.len() as int) + (sep + byte_hex(chunk@[i as int])))
                + hex_field_from(chunk@, g, i + 1) =~= before.skip(buf0.len() as int) + (sep
                + byte_hex(chunk@[i as int]) + hex_field_from(chunk@, g, i + 1)));
        }
        i = i + 1;
    }
    proof {
        assert(hex_field_from(chunk@, g, chunk@.len() as int) =~= Seq::<u8>::empty());
        assert(buf@ =~= buf0 + hex_field(chunk@, g));
    }
}

/// Appends `n` spaces.
fn push_spaces(out: &mut Vec<u8>, n: usize)
    ensures
        final(out)@ == old(out)@ + spaces(n as int),
{
    let ghost out0 = out@;
    let mut p: usize = 0;
    while p < n
        invariant
            p <= n,
            out@ =~= out0 + spaces(p as int),
        decreases n - p,
    {
        out.push(0x20);
        proof {
            assert(out@ =~= out0 + spaces(p + 1));
        }
        p = p + 1;
    }
}

/// Appends the ASCII preview of `chunk`.
fn push_preview(out: &mut Vec<u8>, chunk: &[u8])
    ensures
        final(out)@ == old(out)@ + preview(chunk@),
{
    let ghost out0 = out@;
    let mut q: usize = 0;
    while q < chunk.len()
        invariant
            q <= chunk@.len(),
            out@ =~= out0 + preview(chunk@).take(q as int),
        decreases chunk@.len() - q,
    {
        let b = chunk[q];
        if 0x20 <= b && b <= 0x7e {
            out.push(b);
        } else {
            out.push(0x2e);
        }
        proof {
            assert(preview(chunk@)[q as int] == preview_byte(chunk@[q as int]));
            assert(out@ =~= out0 + preview(chunk@).take(q + 1));
        }
        q = q + 1;
    }
    proof {
        assert(preview(chunk@).take(chunk@.len() as int) =~= preview(chunk@));
    }
}

/// The text the encoder produces from `input` on, with `off` and `width`
/// carried over from the lines already rendered.
pub open spec fn spec_dump_from(
    input: Seq<u8>,
    columns: int,
    group: int,
    off: int,
    width: int,
) -> Seq<u8>
    decreases input.len(),
{
    if input.len() == 0 || columns <= 0 {
        Seq::empty()
    } else {
        let c = if input.len() < columns {
            input.len() as int
        } else {
            columns
        };
        render_line(off, group, width, input.take(c)) + spec_dump_from(
            input.skip(c),
            columns,
            group,
            off + c,
            next_width(off, group, width, input.take(c)),
        )
    }
}

/// The whole dump of `input`: chunks of `columns` bytes (the last possibly
/// shorter), offsets counted from `initial_offset`, width tracking starting
/// at zero. Empty input dumps to empty text.
pub open spec fn spec_dump(input: Seq<u8>, columns: int, group: int, initial_offset: int) -> Seq<
    u8,
> {
    spec_dump_from(input, columns, group, initial_offset, 0)
}

/// Encodes `input` into dump text: `columns` bytes per line, grouped every
/// `groupsize` octets (zero disables grouping), offsets starting at
/// `initial_offset`. Zero columns is rejected before any input is read.
pub fn dump_impl(input: &[u8], columns: usize, groupsize: usize, initial_offset: u64) -> (r:
    Result<Vec<u8>, HexError>)
    requires
        initial_offset + input@.len() <= u64::MAX,
    ensures
        columns == 0 <==> r is Err,
        r is Err ==> r->Err_0 == HexError::InvalidConfiguration,
        r is Ok ==> r->Ok_0@ == spec_dump(
            input@,
            columns as int,
            groupsize as int,
            initial_offset as int,
        ),
{
    if columns == 0 {
        return Err(HexError::InvalidConfiguration);
    }
    let mut printer = Printer::new(groupsize, initial_offset);
    let mut out: Vec<u8> = Vec::new();
    let mut pos: usize = 0;
    proof {
        assert(input@.skip(0) =~= input@);
    }
    while pos < input.len()
        invariant
            pos <= input@.len(),
            columns > 0,
            initial_offset + input@.len() <= u64::MAX,
            printer.octets_per_group == groupsize,
            printer.current_offset as int == initial_offset + pos,
            spec_dump(input@, columns as int, groupsize as int, initial_offset as int)
                =~= out@ + spec_dump_from(
                input@.skip(pos as int),
                columns as int,
                groupsize as int,
                printer.current_offset as int,
                printer.output_width as int,
            ),
        decreases input@.len() - pos,
    {
        let remaining = input.len() - pos;
        let c = if remaining < columns {
            remaining
        } else {
            columns
        };
        let chunk = vstd::slice::slice_subrange(input, pos, pos + c);
        proof {
            assert(chunk@ =~= input@.skip(pos as int).take(c as int));
        }
        printer.write_line(&mut out, chunk);
        proof {
            assert(input@.skip(pos as int).skip(c as int) =~= input@.skip(pos + c));
        }
        pos = pos + c;
    }
    proof {
        assert(spec_dump_from(
            input@.skip(pos as int),
            columns as int,
            groupsize as int,
            printer.current_offset as int,
            printer.output_width as int,
        ) =~= Seq::<u8>::empty());
        assert(out@ =~= spec_dump(input@, columns as int, groupsize as int, initial_offset as int));
    }
    Ok(out)
}

} // verus!
