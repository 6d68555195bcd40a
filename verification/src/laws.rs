//! The two properties that tie the components together: loading a dump
//! gives back the dumped bytes, and applying a patch twice leaves what one
//! application left.

use vstd::prelude::*;

use crate::dump::{
    byte_hex, hex_digit_ascii, hex_digits, hex_field, hex_field_from, next_width, offset_field,
    preview, render_head, render_line, spaces, spec_dump, spec_dump_from,
};
use crate::load::{load_lines, spec_lines, spec_load, strip_cr};
use crate::parse::{parse_data, parse_group, spec_data_field};
use crate::patch::{apply_writes, patch_lines, spec_patch, write_at};
use crate::text::{find_char, is_ascii_space, is_hex_digit, is_space};

verus! {

/// The text a dump is, read character by character: dump output is ASCII,
/// so each byte is one character.
pub open spec fn chars_of(s: Seq<u8>) -> Seq<char> {
    Seq::new(s.len(), |i: int| s[i] as char)
}

/// A byte of the hex-digit alphabet the encoder emits.
pub open spec fn is_hex_byte(x: u8) -> bool {
    (0x30 <= x <= 0x39) || (0x61 <= x <= 0x66)
}

/// Hex-digit bytes read as hex-digit characters that are not whitespace
/// and none of the delimiters.
proof fn lemma_hex_byte_char(x: u8)
    requires
        is_hex_byte(x),
    ensures
        is_hex_digit(x as char),
        !is_space(x as char),
        !is_ascii_space(x as char),
        x as char != '|',
        x as char != ':',
        x as char != '\n',
{
}

/// Rendering a nibble and reading the digit back gives the nibble.
proof fn lemma_hex_digit_roundtrip(v: int)
    requires
        0 <= v < 16,
    ensures
        is_hex_byte(hex_digit_ascii(v)),
        is_hex_digit(hex_digit_ascii(v) as char),
        crate::text::hex_digit_value(hex_digit_ascii(v) as char) == v,
{
}

/// Every byte of a rendered number is a hex digit.
proof fn lemma_hex_digits_shape(n: int)
    requires
        n >= 0,
    ensures
        hex_digits(n).len() >= 1,
        forall|k: int| 0 <= k < hex_digits(n).len() ==> is_hex_byte(#[trigger] hex_digits(n)[k]),
    decreases n,
{
    lemma_hex_digit_roundtrip(n % 16);
    if n >= 16 {
        lemma_hex_digits_shape(n / 16);
    }
}

/// The offset column holds only hex digits (the padding zeros included).
proof fn lemma_offset_field_shape(n: int)
    requires
        n >= 0,
    ensures
        offset_field(n).len() >= 8,
        forall|k: int|
            0 <= k < offset_field(n).len() ==> is_hex_byte(#[trigger] offset_field(n)[k]),
{
    lemma_hex_digits_shape(n);
}

/// The hex digits of the bytes `i` (inclusive) to `j` (exclusive), two per
/// byte, without group separators.
pub open spec fn hex_pairs(bs: Seq<u8>, i: int, j: int) -> Seq<u8>
    decreases j - i,
{
    if i < 0 || i >= j || j > bs.len() {
        Seq::empty()
    } else {
        byte_hex(bs[i]) + hex_pairs(bs, i + 1, j)
    }
}

proof fn lemma_hex_pairs_shape(bs: Seq<u8>, i: int, j: int)
    requires
        0 <= i <= j <= bs.len(),
    ensures
        hex_pairs(bs, i, j).len() == 2 * (j - i),
        forall|k: int|
            0 <= k < hex_pairs(bs, i, j).len() ==> is_hex_byte(#[trigger] hex_pairs(bs, i, j)[k]),
    decreases j - i,
{
    if i < j {
        lemma_hex_pairs_shape(bs, i + 1, j);
        lemma_hex_digit_roundtrip(bs[i] as int / 16);
        lemma_hex_digit_roundtrip(bs[i] as int % 16);
        assert forall|k: int| 0 <= k < hex_pairs(bs, i, j).len() implies is_hex_byte(
            #[trigger] hex_pairs(bs, i, j)[k],
        ) by {
            if k >= 2 {
                assert(hex_pairs(bs, i, j)[k] == hex_pairs(bs, i + 1, j)[k - 2]);
            }
        }
    }
}

/// Between one group boundary and the next, the hex field is the bare
/// digit pairs; the rest of the field follows at the next boundary.
proof fn lemma_hex_field_decompose(bs: Seq<u8>, g: int, i: int, j: int)
    requires
        0 <= i < bs.len(),
        i == 0 || (g > 0 && i % g == 0),
        j == if g >= 1 && i + g <= bs.len() {
            i + g
        } else {
            bs.len() as int
        },
    ensures
        hex_field_from(bs, g, i) == (if i > 0 {
            seq![0x20u8]
        } else {
            Seq::<u8>::empty()
        }) + hex_pairs(bs, i, j) + hex_field_from(bs, g, j),
{
    assert forall|m: int| i < m < j implies !(g > 0 && m > 0 && #[trigger] (m % g) == 0) by {
        if g > 0 {
            assert(m % g == m - i) by (nonlinear_arith)
                requires
                    g > 0,
                    i >= 0,
                    i % g == 0,
                    i < m < i + g,
            ;
        }
    }
    lemma_hex_field_run(bs, g, i + 1, j);
    let sep: Seq<u8> = if i > 0 {
        seq![0x20u8]
    } else {
        Seq::empty()
    };
    assert(hex_field_from(bs, g, i) == sep + byte_hex(bs[i]) + hex_field_from(bs, g, i + 1));
    assert(hex_pairs(bs, i, j) == byte_hex(bs[i]) + hex_pairs(bs, i + 1, j));
    assert(sep + byte_hex(bs[i]) + (hex_pairs(bs, i + 1, j) + hex_field_from(bs, g, j)) =~= sep
        + (byte_hex(bs[i]) + hex_pairs(bs, i + 1, j)) + hex_field_from(bs, g, j));
}

/// Inside a group no separators appear, so the field is the digit pairs
/// followed by the field from the group's end.
proof fn lemma_hex_field_run(bs: Seq<u8>, g: int, k: int, j: int)
    requires
        0 < k <= j <= bs.len(),
        forall|m: int| k <= m < j ==> !(g > 0 && m > 0 && #[trigger] (m % g) == 0),
    ensures
        hex_field_from(bs, g, k) == hex_pairs(bs, k, j) + hex_field_from(bs, g, j),
    decreases j - k,
{
    if k == j {
        assert(hex_pairs(bs, k, j) =~= Seq::<u8>::empty());
        assert(Seq::<u8>::empty() + hex_field_from(bs, g, j) =~= hex_field_from(bs, g, j));
    } else {
        lemma_hex_field_run(bs, g, k + 1, j);
        assert(hex_field_from(bs, g, k) == byte_hex(bs[k]) + hex_field_from(bs, g, k + 1));
        assert(byte_hex(bs[k]) + (hex_pairs(bs, k + 1, j) + hex_field_from(bs, g, j)) =~= (
        byte_hex(bs[k]) + hex_pairs(bs, k + 1, j)) + hex_field_from(bs, g, j));
    }
}

/// Reading the digit pairs of a byte range gives back exactly those bytes.
proof fn lemma_parse_pairs(bs: Seq<u8>, i: int, j: int)
    requires
        0 <= i <= j <= bs.len(),
    ensures
        parse_group(chars_of(hex_pairs(bs, i, j))) == (bs.subrange(i, j), Option::<
            crate::errors::HexError,
        >::None),
    decreases j - i,
{
    let g = chars_of(hex_pairs(bs, i, j));
    if i == j {
        assert(g =~= Seq::<char>::empty());
        assert(bs.subrange(i, j) =~= Seq::<u8>::empty());
    } else {
        lemma_hex_pairs_shape(bs, i, j);
        let b = bs[i];
        lemma_hex_digit_roundtrip(b as int / 16);
        lemma_hex_digit_roundtrip(b as int % 16);
        assert(g[0] == hex_digit_ascii(b as int / 16) as char);
        assert(g[1] == hex_digit_ascii(b as int % 16) as char);
        assert(16 * crate::text::hex_digit_value(g[0]) + crate::text::hex_digit_value(g[1])
            == b);
        lemma_parse_pairs(bs, i + 1, j);
        assert(g.skip(2) =~= chars_of(hex_pairs(bs, i + 1, j)));
        assert(seq![b] + bs.subrange(i + 1, j) =~= bs.subrange(i, j));
    }
}

/// The hex field holds only digits and single separating spaces; it opens
/// and closes on a digit.
proof fn lemma_hex_field_from_shape(bs: Seq<u8>, g: int, i: int)
    requires
        0 <= i < bs.len(),
    ensures
        hex_field_from(bs, g, i).len() >= 2,
        forall|k: int|
            0 <= k < hex_field_from(bs, g, i).len() ==> is_hex_byte(
                #[trigger] hex_field_from(bs, g, i)[k],
            ) || hex_field_from(bs, g, i)[k] == 0x20,
        is_hex_byte(hex_field_from(bs, g, i).last()),
        !(g > 0 && i > 0 && i % g == 0) ==> is_hex_byte(hex_field_from(bs, g, i)[0]),
    decreases bs.len() - i,
{
    let hf = hex_field_from(bs, g, i);
    let sep: Seq<u8> = if g > 0 && i > 0 && i % g == 0 {
        seq![0x20u8]
    } else {
        Seq::empty()
    };
    lemma_hex_digit_roundtrip(bs[i] as int / 16);
    lemma_hex_digit_roundtrip(bs[i] as int % 16);
    if i + 1 < bs.len() {
        lemma_hex_field_from_shape(bs, g, i + 1);
        assert(hf.last() == hex_field_from(bs, g, i + 1).last());
    } else {
        assert(hex_field_from(bs, g, i + 1) =~= Seq::<u8>::empty());
        assert(hf =~= sep + byte_hex(bs[i]));
    }
    assert forall|k: int| 0 <= k < hf.len() implies is_hex_byte(#[trigger] hf[k]) || hf[k]
        == 0x20 by {
        if k >= sep.len() + 2 {
            assert(hf[k] == hex_field_from(bs, g, i + 1)[k - sep.len() - 2]);
        }
    }
}

/// From any group boundary on, the hex field reads back as the remaining
/// bytes, with no error.
proof fn lemma_parse_hex_field_from(bs: Seq<u8>, g: int, i: int)
    requires
        0 <= i < bs.len(),
        i == 0 || (g > 0 && i % g == 0),
    ensures
        parse_data(chars_of(hex_field_from(bs, g, i))) == (bs.skip(i), Option::<
            crate::errors::HexError,
        >::None),
    decreases bs.len() - i,
{
    let j: int = if g >= 1 && i + g <= bs.len() {
        i + g
    } else {
        bs.len() as int
    };
    lemma_hex_field_decompose(bs, g, i, j);
    let sep: Seq<u8> = if i > 0 {
        seq![0x20u8]
    } else {
        Seq::empty()
    };
    let hp = hex_pairs(bs, i, j);
    let tail = hex_field_from(bs, g, j);
    lemma_hex_pairs_shape(bs, i, j);
    lemma_parse_pairs(bs, i, j);
    let s2 = chars_of(hp + tail);
    assert(chars_of(sep + hp + tail).skip(sep.len() as int) =~= s2);
    // The group run is exactly the pair digits: all of them are non-space,
    // and the tail, if any, opens with the separating space.
    assert forall|t: int| 0 <= t < hp.len() implies !is_ascii_space(#[trigger] s2[t]) by {
        assert(s2[t] == hp[t] as char);
        lemma_hex_byte_char(hp[t]);
    }
    if j < bs.len() {
        assert(j == i + g);
        assert(j % g == 0) by (nonlinear_arith)
            requires
                g > 0,
                i >= 0,
                i % g == 0,
                j == i + g,
        ;
        assert(tail[0] == 0x20);
        assert(s2[hp.len() as int] == ' ');
    }
    crate::parse::lemma_group_len_is(s2, (2 * (j - i)) as nat);
    assert(s2.take(2 * (j - i)) =~= chars_of(hp));
    if j == bs.len() {
        assert(tail =~= Seq::<u8>::empty());
        assert(s2.skip(2 * (j - i)) =~= Seq::<char>::empty());
        assert(parse_data(s2.skip(2 * (j - i))) == (Seq::<u8>::empty(), Option::<
            crate::errors::HexError,
        >::None));
    } else {
        lemma_parse_hex_field_from(bs, g, j);
        assert(s2.skip(2 * (j - i)) =~= chars_of(tail));
    }
    assert(parse_data(s2) == (bs.subrange(i, j) + bs.skip(j), Option::<
        crate::errors::HexError,
    >::None));
    assert(bs.subrange(i, j) + bs.skip(j) =~= bs.skip(i));
    if i > 0 {
        let s1 = chars_of(sep + hp + tail);
        assert(is_ascii_space(s1[0]));
        assert(s1.drop_first() =~= s2);
    }
}

/// The whole hex field of a non-empty chunk reads back as the chunk.
proof fn lemma_parse_hex_field(bs: Seq<u8>, g: int)
    requires
        bs.len() >= 1,
    ensures
        parse_data(chars_of(hex_field(bs, g))) == (bs, Option::<crate::errors::HexError>::None),
{
    lemma_parse_hex_field_from(bs, g, 0);
    assert(bs.skip(0) =~= bs);
}

/// A rendered line ends on its only line feed, carries no carriage
/// return, and its data field reads back as exactly the hex field of the
/// chunk it shows.
proof fn lemma_recognize_rendered(off: int, g: int, w: int, bs: Seq<u8>)
    requires
        off >= 0,
        bs.len() >= 1,
    ensures
        render_line(off, g, w, bs).len() >= 2,
        render_line(off, g, w, bs).last() == 0x0a,
        forall|k: int|
            0 <= k < render_line(off, g, w, bs).len() - 1 ==> (#[trigger] render_line(
                off,
                g,
                w,
                bs,
            )[k]) != 0x0a && render_line(off, g, w, bs)[k] != 0x0d,
        spec_data_field(
            chars_of(render_line(off, g, w, bs).take(render_line(off, g, w, bs).len() - 1)),
        ) == chars_of(hex_field(bs, g)),
{
    let line = render_line(off, g, w, bs);
    let ofld = offset_field(off);
    let hfld = hex_field(bs, g);
    let head = render_head(off, g, bs);
    let pad = next_width(off, g, w, bs) - head.len();
    let body = head + spaces(pad) + seq![0x20u8] + seq![0x7cu8, 0x20u8] + preview(bs);
    lemma_offset_field_shape(off);
    lemma_hex_field_from_shape(bs, g, 0);
    assert(head =~= ofld + seq![0x3au8, 0x20u8] + hfld);
    assert(line =~= body + seq![0x0au8]);
    assert(line.take(line.len() - 1) =~= body);

    // No line feed or carriage return anywhere before the terminator.
    assert forall|k: int| 0 <= k < line.len() - 1 implies (#[trigger] line[k]) != 0x0a && line[k]
        != 0x0d by {
        assert(line[k] == body[k]);
        if k < head.len() {
            if k < ofld.len() {
                assert(body[k] == ofld[k]);
            } else if k >= ofld.len() + 2 {
                assert(body[k] == hfld[k - ofld.len() - 2]);
            }
        } else if k >= head.len() + pad + 3 {
            assert(body[k] == preview(bs)[k - head.len() - pad - 3]);
        }
    }

    // The first `|` is the separator: everything left of it is digits,
    // spaces and the colon.
    let pre = chars_of(head + spaces(pad) + seq![0x20u8]);
    let post = chars_of(seq![0x7cu8, 0x20u8] + preview(bs));
    assert(chars_of(body) =~= pre + post);
    assert forall|k: int| 0 <= k < pre.len() implies pre[k] != '|' by {
        let hb = (head + spaces(pad) + seq![0x20u8])[k];
        assert(pre[k] == hb as char);
        if k < ofld.len() {
            assert(hb == ofld[k]);
            lemma_hex_byte_char(hb);
        } else if head.len() > k && k >= ofld.len() + 2 {
            assert(hb == hfld[k - ofld.len() - 2]);
            if is_hex_byte(hb) {
                lemma_hex_byte_char(hb);
            }
        }
    }
    assert(post[0] == '|');
    crate::text::lemma_find_char_append(pre, post, '|');
    assert(find_char(chars_of(body), '|') == pre.len());
    assert(crate::parse::spec_before_comment(chars_of(body)) =~= pre);

    // The first `:` closes the offset column.
    let pre2 = chars_of(ofld);
    let post2 = chars_of(seq![0x3au8, 0x20u8] + hfld + spaces(pad) + seq![0x20u8]);
    assert(pre =~= pre2 + post2);
    assert forall|k: int| 0 <= k < pre2.len() implies pre2[k] != ':' by {
        assert(pre2[k] == ofld[k] as char);
        lemma_hex_byte_char(ofld[k]);
    }
    assert(post2[0] == ':');
    crate::text::lemma_find_char_append(pre2, post2, ':');
    assert(find_char(pre, ':') == pre2.len());

    // Trimming the raw data field leaves the bare hex field.
    let raw = pre.skip(pre2.len() as int + 1);
    assert(raw =~= chars_of(seq![0x20u8]) + chars_of(hfld) + chars_of(
        spaces(pad) + seq![0x20u8],
    ));
    assert forall|k: int| 0 <= k < chars_of(seq![0x20u8]).len() implies is_space(
        #[trigger] chars_of(seq![0x20u8])[k],
    ) by {
        assert(chars_of(seq![0x20u8])[k] == ' ');
    }
    assert forall|k: int| 0 <= k < chars_of(spaces(pad) + seq![0x20u8]).len() implies is_space(
        #[trigger] chars_of(spaces(pad) + seq![0x20u8])[k],
    ) by {
        assert(chars_of(spaces(pad) + seq![0x20u8])[k] == ' ');
    }
    assert(!is_space(chars_of(hfld)[0])) by {
        assert(chars_of(hfld)[0] == hfld[0] as char);
        lemma_hex_byte_char(hfld[0]);
    }
    assert(!is_space(chars_of(hfld)[hfld.len() - 1])) by {
        assert(chars_of(hfld)[hfld.len() - 1] == hfld.last() as char);
        lemma_hex_byte_char(hfld.last());
    }
    crate::text::lemma_trim_wrapped(
        chars_of(seq![0x20u8]),
        chars_of(hfld),
        chars_of(spaces(pad) + seq![0x20u8]),
    );
    assert(spec_data_field(chars_of(body)) == chars_of(hfld));
}

/// Loading what the encoder emitted from `input` on, with any carried
/// offset and width, yields `input` back with no error.
proof fn lemma_load_dump_from(input: Seq<u8>, c: int, g: int, off: int, w: int)
    requires
        c >= 1,
        off >= 0,
    ensures
        spec_load(chars_of(spec_dump_from(input, c, g, off, w))) == (input, Option::<
            crate::errors::HexError,
        >::None),
    decreases input.len(),
{
    if input.len() == 0 {
        assert(chars_of(spec_dump_from(input, c, g, off, w)) =~= Seq::<char>::empty());
        assert(spec_lines(Seq::<char>::empty()) =~= Seq::<Seq<char>>::empty());
        assert(input =~= Seq::<u8>::empty());
    } else {
        let cc = if input.len() < c {
            input.len() as int
        } else {
            c
        };
        let chunk = input.take(cc);
        let line = render_line(off, g, w, chunk);
        let rest = spec_dump_from(input.skip(cc), c, g, off + cc, next_width(off, g, w, chunk));
        let text = chars_of(line + rest);
        lemma_recognize_rendered(off, g, w, chunk);
        let body = line.take(line.len() - 1);
        assert(text =~= chars_of(body) + seq!['\n'] + chars_of(rest)) by {
            assert(line[line.len() - 1] == 0x0a);
        }
        assert forall|k: int| 0 <= k < chars_of(body).len() implies chars_of(body)[k] != '\n' by {
            assert(chars_of(body)[k] == body[k] as char);
            assert(body[k] == line[k]);
        }
        crate::text::lemma_find_char_append(
            chars_of(body),
            seq!['\n'] + chars_of(rest),
            '\n',
        );
        assert((seq!['\n'] + chars_of(rest))[0] == '\n');
        assert(text =~= chars_of(body) + (seq!['\n'] + chars_of(rest)));
        assert(find_char(text, '\n') == body.len());
        assert(text.take(body.len() as int) =~= chars_of(body));
        assert(text.skip(body.len() as int + 1) =~= chars_of(rest));
        assert(strip_cr(chars_of(body)) == chars_of(body)) by {
            assert(chars_of(body).last() == body[body.len() - 1] as char);
            assert(body[body.len() - 1] == line[body.len() - 1]);
            assert(line[body.len() - 1] != 0x0d);
        }
        assert(spec_lines(text) == seq![chars_of(body)] + spec_lines(chars_of(rest)));

        lemma_parse_hex_field(chunk, g);
        lemma_load_dump_from(input.skip(cc), c, g, off + cc, next_width(off, g, w, chunk));

        let all = seq![chars_of(body)] + spec_lines(chars_of(rest));
        assert(all[0] == chars_of(body));
        assert(all.drop_first() =~= spec_lines(chars_of(rest)));
        assert(parse_data(spec_data_field(all[0])) == (chunk, Option::<
            crate::errors::HexError,
        >::None));
        assert(load_lines(all).0 == chunk + input.skip(cc));
        assert(chunk + input.skip(cc) =~= input);
        assert(spec_load(text).0 == input);
        assert(spec_load(text).1 is None);
        assert(chars_of(spec_dump_from(input, c, g, off, w)) =~= text);
    }
}

/// Round trip: reading the dump of any byte sequence back through the
/// load direction yields exactly that sequence, whatever positive column
/// count, grouping and starting offset the dump used. Offset columns and
/// previews do not disturb it: the load direction ignores them.
pub proof fn lemma_dump_load_round_trip(
    input: Seq<u8>,
    columns: int,
    group_size: int,
    initial_offset: int,
)
    requires
        columns >= 1,
        group_size >= 0,
        initial_offset >= 0,
    ensures
        spec_load(chars_of(spec_dump(input, columns, group_size, initial_offset))).0 == input,
        spec_load(chars_of(spec_dump(input, columns, group_size, initial_offset))).1 is None,
{
    lemma_load_dump_from(input, columns, group_size, initial_offset, 0);
}

/// The length of a target of length `tl` after one write.
pub open spec fn write_len(tl: int, w: (int, Seq<u8>)) -> int {
    if w.1.len() == 0 || w.0 < 0 {
        tl
    } else if tl >= w.0 + w.1.len() {
        tl
    } else {
        w.0 + w.1.len()
    }
}

/// The length of a target of length `tl` after all of `ws`.
pub open spec fn result_len(tl: int, ws: Seq<(int, Seq<u8>)>) -> int
    decreases ws.len(),
{
    if ws.len() == 0 {
        tl
    } else {
        result_len(write_len(tl, ws[0]), ws.drop_first())
    }
}

/// The byte the last write of `ws` covering position `i` put there, if any
/// write covers it.
pub open spec fn covered_value(ws: Seq<(int, Seq<u8>)>, i: int) -> Option<u8>
    decreases ws.len(),
{
    if ws.len() == 0 {
        None
    } else {
        let lw = ws.last();
        if lw.1.len() > 0 && lw.0 >= 0 && lw.0 <= i < lw.0 + lw.1.len() {
            Some(lw.1[i - lw.0])
        } else {
            covered_value(ws.drop_last(), i)
        }
    }
}

/// Whether a write touches the target at all: it has bytes and a
/// representable position.
pub open spec fn write_valid(w: (int, Seq<u8>)) -> bool {
    w.1.len() > 0 && w.0 >= 0
}

/// Whether a write would change position `i` at all.
spec fn head_covers(w: (int, Seq<u8>), i: int) -> bool {
    write_valid(w) && w.0 <= i < w.0 + w.1.len()
}

/// A later write wins over the first one; the first fills in where no
/// later one touches.
proof fn lemma_covered_cons(ws: Seq<(int, Seq<u8>)>, i: int)
    requires
        ws.len() >= 1,
    ensures
        covered_value(ws, i) == (if covered_value(ws.drop_first(), i) is Some {
            covered_value(ws.drop_first(), i)
        } else if head_covers(ws[0], i) {
            Some(ws[0].1[i - ws[0].0])
        } else {
            None
        }),
    decreases ws.len(),
{
    let rest = ws.drop_first();
    if ws.len() == 1 {
        assert(rest =~= Seq::<(int, Seq<u8>)>::empty());
        assert(ws.drop_last() =~= Seq::<(int, Seq<u8>)>::empty());
        assert(ws.last() == ws[0]);
    } else {
        let lw = ws.last();
        assert(rest.last() == lw);
        assert(rest.drop_last() =~= ws.drop_last().drop_first());
        assert(ws.drop_last()[0] == ws[0]);
        assert(ws.drop_last().len() >= 1);
        lemma_covered_cons(ws.drop_last(), i);
    }
}

/// What every position of a target holds after a run of writes: the byte
/// of the last write covering it, else the old byte, else a zero filled in
/// when a write reached past the old end.
proof fn lemma_apply_writes_pointwise(t: Seq<u8>, ws: Seq<(int, Seq<u8>)>)
    ensures
        apply_writes(t, ws).len() == result_len(t.len() as int, ws),
        result_len(t.len() as int, ws) >= t.len(),
        forall|i: int|
            0 <= i < apply_writes(t, ws).len() ==> apply_writes(t, ws)[i] == (
            match covered_value(ws, i) {
                Some(b) => b,
                None => if i < t.len() {
                    t[i]
                } else {
                    0u8
                },
            }),
    decreases ws.len(),
{
    if ws.len() > 0 {
        let w = ws[0];
        let t1 = write_at(t, w.0, w.1);
        let rest = ws.drop_first();
        assert(t1.len() == write_len(t.len() as int, w));
        lemma_apply_writes_pointwise(t1, rest);
        assert forall|i: int| 0 <= i < apply_writes(t, ws).len() implies apply_writes(t, ws)[i]
            == (match covered_value(ws, i) {
            Some(b) => b,
            None => if i < t.len() {
                t[i]
            } else {
                0u8
            },
        }) by {
            lemma_covered_cons(ws, i);
            assert(apply_writes(t, ws)[i] == apply_writes(t1, rest)[i]);
        }
    }
}

/// Once the target is at least as long as every write reaches, the writes
/// cannot lengthen it further.
proof fn lemma_result_len_absorbed(tl: int, ws: Seq<(int, Seq<u8>)>)
    requires
        forall|k: int|
            0 <= k < ws.len() && write_valid(#[trigger] ws[k]) ==> tl >= ws[k].0 + ws[k].1.len(),
    ensures
        result_len(tl, ws) == tl,
    decreases ws.len(),
{
    if ws.len() > 0 {
        assert(write_len(tl, ws[0]) == tl);
        assert forall|k: int|
            0 <= k < ws.drop_first().len() && write_valid(
                #[trigger] ws.drop_first()[k],
            ) implies tl >= ws.drop_first()[k].0 + ws.drop_first()[k].1.len() by {
            assert(ws.drop_first()[k] == ws[k + 1]);
        }
        lemma_result_len_absorbed(tl, ws.drop_first());
    }
}

/// A run of writes never shortens the target, and leaves it at least as
/// long as every write reaches.
proof fn lemma_result_len_bounds(tl: int, ws: Seq<(int, Seq<u8>)>)
    ensures
        result_len(tl, ws) >= tl,
        forall|k: int|
            0 <= k < ws.len() && write_valid(#[trigger] ws[k]) ==> result_len(tl, ws) >= ws[k].0
                + ws[k].1.len(),
    decreases ws.len(),
{
    if ws.len() > 0 {
        lemma_result_len_bounds(write_len(tl, ws[0]), ws.drop_first());
        assert forall|k: int|
            0 <= k < ws.len() && write_valid(#[trigger] ws[k]) implies result_len(tl, ws) >= ws[k].0
            + ws[k].1.len() by {
            if k > 0 {
                assert(ws.drop_first()[k - 1] == ws[k]);
            }
        }
    }
}

/// Applying the same write list a second time changes nothing: positions a
/// write covers get the same byte again, and every other position keeps
/// what it already had.
pub proof fn lemma_apply_writes_idempotent(t: Seq<u8>, ws: Seq<(int, Seq<u8>)>)
    ensures
        apply_writes(apply_writes(t, ws), ws) == apply_writes(t, ws),
{
    let t1 = apply_writes(t, ws);
    let t2 = apply_writes(t1, ws);
    lemma_apply_writes_pointwise(t, ws);
    lemma_apply_writes_pointwise(t1, ws);
    lemma_result_len_bounds(t.len() as int, ws);
    lemma_result_len_absorbed(t1.len() as int, ws);
    assert(t2.len() == t1.len());
    assert forall|i: int| 0 <= i < t2.len() implies t2[i] == t1[i] by {
        match covered_value(ws, i) {
            Some(b) => {},
            None => {},
        }
    }
    assert(t2 =~= t1);
}

/// Applying a patch twice leaves the target exactly as one application
/// left it, and fails, if at all, at the same spot: the positions and
/// bytes a patch writes depend on the patch text and the global offset
/// alone, never on what the target held.
pub proof fn lemma_patch_idempotent(text: Seq<char>, target: Seq<u8>, goff: int)
    ensures
        spec_patch(text, spec_patch(text, target, goff).0, goff) == (
            spec_patch(text, target, goff).0,
            spec_patch(text, target, goff).1,
        ),
{
    let ws = patch_lines(crate::load::spec_lines(text), goff, None, 0).0;
    lemma_apply_writes_idempotent(target, ws);
}

} // verus!
