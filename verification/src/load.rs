//! The load direction: dump-formatted text back to the bytes it spells,
//! ignoring offsets and comments.

use vstd::prelude::*;

use crate::errors::HexError;
use crate::parse::{parse_data, parse_octets, recognize_line, spec_data_field};
use crate::text::{find_char, find_char_in};

verus! {

/// A line as the line reader yields it: without a single trailing carriage
/// return, if one precedes the line feed.
pub open spec fn strip_cr(line: Seq<char>) -> Seq<char> {
    if line.len() > 0 && line.last() == '\r' {
        line.drop_last()
    } else {
        line
    }
}

/// `text` divided at every line feed. A final fragment without a line feed
/// still counts, though nothing is stripped from it; a trailing line feed
/// does not open an empty last line.
pub open spec fn spec_lines(text: Seq<char>) -> Seq<Seq<char>>
    decreases text.len(),
        via spec_lines_decreases
{
    if text.len() == 0 {
        Seq::empty()
    } else {
        let k = find_char(text, '\n');
        if k < text.len() {
            seq![strip_cr(text.take(k))] + spec_lines(text.skip(k + 1))
        } else {
            seq![text]
        }
    }
}

#[via_fn]
proof fn spec_lines_decreases(text: Seq<char>) {
    if text.len() > 0 {
        crate::text::lemma_find_char(text, '\n');
    }
}

/// Splits `text` into its lines, dropping each line's terminator.
pub fn split_lines(text: &str) -> (r: Vec<String>)
    ensures
        r.deep_view() == spec_lines(text@),
{
    let n = text.unicode_len();
    let mut lines: Vec<String> = Vec::new();
    let mut p: usize = 0;
    proof {
        assert(text@.skip(0) =~= text@);
        assert(lines.deep_view() + spec_lines(text@) =~= spec_lines(text@));
    }
    while p < n
        invariant
            p <= n == text@.len(),
            spec_lines(text@) =~= lines.deep_view() + spec_lines(text@.skip(p as int)),
        decreases n - p,
    {
        let rest = text.substring_char(p, n);
        proof {
            assert(rest@ =~= text@.skip(p as int));
        }
        let k = find_char_in(rest, '\n');
        proof {
            crate::text::lemma_find_char(rest@, '\n');
        }
        let crlf = k < rest.unicode_len() && k > 0 && rest.get_char(k - 1) == '\r';
        let end = if crlf {
            k - 1
        } else {
            k
        };
        let line = rest.substring_char(0, end).to_owned();
        proof {
            if k < rest@.len() {
                assert(rest@.subrange(0, end as int) =~= strip_cr(rest@.take(k as int)));
            } else {
                assert(rest@.subrange(0, end as int) =~= rest@);
            }
        }
        let ghost before = lines.deep_view();
        lines.push(line);
        proof {
            assert(lines.deep_view() =~= before.push(line@));
        }
        if k < rest.unicode_len() {
            proof {
                assert(rest@.skip(k + 1) =~= text@.skip(p + k + 1));
                assert(spec_lines(text@.skip(p as int)) == seq![line@] + spec_lines(
                    text@.skip(p + k + 1),
                ));
                assert(lines.deep_view() + spec_lines(text@.skip(p + k + 1)) =~= before + (seq![
                    line@,
                ] + spec_lines(text@.skip(p + k + 1))));
            }
            p = p + k + 1;
        } else {
            proof {
                assert(spec_lines(text@.skip(p as int)) == seq![line@]);
                assert(text@.skip(n as int) =~= Seq::<char>::empty());
                assert(lines.deep_view() + spec_lines(text@.skip(n as int)) =~= before + seq![
                    line@,
                ]);
            }
            p = n;
        }
    }
    proof {
        assert(text@.skip(p as int) =~= Seq::<char>::empty());
        assert(lines.deep_view() =~= spec_lines(text@));
    }
    lines
}

/// The data field of one line: what stands between the first `:` (if any)
/// and the first `|` (if any), trimmed. Offsets and comments are ignored.
pub fn extract_dump(line: &str) -> (r: String)
    ensures
        r@ == spec_data_field(line@),
{
    let parts = recognize_line(line);
    parts.data
}

/// The bytes that the data fields of `lines` spell, concatenated in order,
/// beside the first parse error if one stops the reading early.
pub open spec fn load_lines(lines: Seq<Seq<char>>) -> (Seq<u8>, Option<HexError>)
    decreases lines.len(),
{
    if lines.len() == 0 {
        (Seq::empty(), None)
    } else {
        let (bs, e) = parse_data(spec_data_field(lines[0]));
        if e is Some {
            (bs, e)
        } else {
            let (rest, e2) = load_lines(lines.drop_first());
            (bs + rest, e2)
        }
    }
}

/// What loading a whole text yields: every line's data bytes in order, and
/// the first error, if any, after the bytes decoded before it.
pub open spec fn spec_load(text: Seq<char>) -> (Seq<u8>, Option<HexError>) {
    load_lines(spec_lines(text))
}

/// Reads dump-formatted text back into the bytes it spells. Offset fields
/// and comments are ignored. Bytes decoded before an error are returned
/// beside it, as a streaming reader would already have written them on.
pub fn load_impl(text: &str) -> (r: (Vec<u8>, Option<HexError>))
    ensures
        r.0@ == spec_load(text@).0,
        r.1 == spec_load(text@).1,
{
    let lines = split_lines(text);
    let ghost all = lines.deep_view();
    let mut out: Vec<u8> = Vec::new();
    let mut i: usize = 0;
    proof {
        assert(all.skip(0) =~= all);
    }
    while i < lines.len()
        invariant
            i <= lines@.len(),
            all == lines.deep_view(),
            all == spec_lines(text@),
            load_lines(all).0 == out@ + load_lines(all.skip(i as int)).0,
            load_lines(all).1 == load_lines(all.skip(i as int)).1,
        decreases lines@.len() - i,
    {
        let data = extract_dump(lines[i].as_str());
        let (mut bytes, err) = parse_octets(data.as_str());
        let ghost bs = bytes@;
        let ghost out_before = out@;
        proof {
            assert(all.skip(i as int)[0] == all[i as int]);
            assert(all[i as int] == lines@[i as int]@);
            assert(data@ == spec_data_field(all.skip(i as int)[0]));
            assert(bs == parse_data(spec_data_field(all.skip(i as int)[0])).0);
            assert(err == parse_data(spec_data_field(all.skip(i as int)[0])).1);
        }
        out.append(&mut bytes);
        match err {
            Some(e) => {
                proof {
                    assert(load_lines(all.skip(i as int)) == (bs, Some(e)));
                    assert(load_lines(all).0 =~= out@);
                }
                return (out, Some(e));
            },
            None => {
                proof {
                    assert(all.skip(i as int).drop_first() =~= all.skip(i + 1));
                    assert(load_lines(all.skip(i as int)).0 == bs + load_lines(
                        all.skip(i + 1),
                    ).0);
                    assert(out_before + (bs + load_lines(all.skip(i + 1)).0) =~= out@
                        + load_lines(all.skip(i + 1)).0);
                }
            },
        }
        i = i + 1;
    }
    proof {
        assert(all.skip(i as int) =~= Seq::<Seq<char>>::empty());
        assert(load_lines(all).0 =~= out@);
    }
    (out, None)
}

} // verus!
