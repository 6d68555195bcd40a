//! The patch applier: drives the line recognizer, the octet parser and the
//! offset resolver over patch text and performs seeked writes into an
//! in-memory seekable target. Seeking past the end zero-fills the gap, as
//! the underlying storage would. Bytes already written stay written when a
//! later line fails: in-place patching offers no atomicity.

use vstd::prelude::*;

use crate::errors::HexError;
use crate::load::spec_lines;
use crate::parse::{
    parse_data, parse_octets, recognize_line, spec_data_field, spec_offset_field,
    spec_parse_offset, Offset,
};

verus! {

/// `t` with `data` written at position `pos`, the tail beyond the old end
/// zero-filled first if the write starts past it. An empty write leaves `t`
/// alone: a seek by itself never extends the target.
pub open spec fn write_at(t: Seq<u8>, pos: int, data: Seq<u8>) -> Seq<u8> {
    if data.len() == 0 || pos < 0 {
        t
    } else {
        let end = pos + data.len();
        let newlen = if t.len() >= end {
            t.len() as int
        } else {
            end
        };
        Seq::new(
            newlen as nat,
            |i: int|
                if pos <= i < end {
                    data[i - pos]
                } else if i < t.len() {
                    t[i]
                } else {
                    0u8
                },
        )
    }
}

/// `t` after the writes in `ws`, applied left to right.
pub open spec fn apply_writes(t: Seq<u8>, ws: Seq<(int, Seq<u8>)>) -> Seq<u8>
    decreases ws.len(),
{
    if ws.len() == 0 {
        t
    } else {
        apply_writes(write_at(t, ws[0].0, ws[0].1), ws.drop_first())
    }
}

/// Appending a write applies it after all the others.
pub proof fn lemma_apply_writes_push(t: Seq<u8>, ws: Seq<(int, Seq<u8>)>, w: (int, Seq<u8>))
    ensures
        apply_writes(t, ws.push(w)) == write_at(apply_writes(t, ws), w.0, w.1),
    decreases ws.len(),
{
    assert(ws.push(w)[0] == if ws.len() == 0 {
        w
    } else {
        ws[0]
    });
    if ws.len() == 0 {
        assert(ws.push(w).drop_first() =~= Seq::<(int, Seq<u8>)>::empty());
        assert(apply_writes(t, ws.push(w)) == apply_writes(
            write_at(t, w.0, w.1),
            Seq::<(int, Seq<u8>)>::empty(),
        ));
        assert(apply_writes(write_at(t, w.0, w.1), Seq::<(int, Seq<u8>)>::empty()) == write_at(
            t,
            w.0,
            w.1,
        ));
        assert(apply_writes(t, ws) == t);
    } else {
        assert(ws.push(w).drop_first() =~= ws.drop_first().push(w));
        lemma_apply_writes_push(write_at(t, ws[0].0, ws[0].1), ws.drop_first(), w);
        assert(apply_writes(t, ws.push(w)) == apply_writes(
            write_at(t, ws[0].0, ws[0].1),
            ws.drop_first().push(w),
        ));
        assert(apply_writes(t, ws) == apply_writes(
            write_at(t, ws[0].0, ws[0].1),
            ws.drop_first(),
        ));
    }
}

/// Every write starts at a representable position and ends within what a
/// byte vector can index: the machine limit an in-memory target imposes.
pub open spec fn writes_fit(ws: Seq<(int, Seq<u8>)>) -> bool {
    forall|k: int|
        0 <= k < ws.len() ==> 0 <= (#[trigger] ws[k]).0 && ws[k].0 + ws[k].1.len() <= usize::MAX
}

/// The global adjustment added to a resolved offset, with its own overflow
/// error.
pub open spec fn spec_adjust(resolved: u64, goff: int) -> Result<u64, HexError> {
    if 0 <= resolved + goff <= u64::MAX {
        Ok((resolved + goff) as u64)
    } else {
        Err(HexError::OffsetAdjustmentOverflow)
    }
}

/// What an offset field does to the applier's state: an empty field keeps
/// basis and position; anything else must parse, resolve against the
/// basis, and take the global adjustment, becoming the new basis (before
/// adjustment) and write position (after it).
pub open spec fn seek_spec(
    off_field: Seq<char>,
    goff: int,
    basis: Option<u64>,
    pos: int,
) -> Result<(Option<u64>, int), HexError> {
    if off_field.len() == 0 {
        Ok((basis, pos))
    } else {
        match spec_parse_offset(off_field) {
            Err(e) => Err(e),
            Ok(o) => match o.spec_to_absolute(basis) {
                Err(e) => Err(e),
                Ok(resolved) => match spec_adjust(resolved, goff) {
                    Err(e) => Err(e),
                    Ok(p) => Ok((Some(resolved), p as int)),
                },
            },
        }
    }
}

/// The writes that the lines of a patch ask for, starting from the given
/// basis and position, beside the first error if one stops the run. A line
/// with data but no basis yet fails before its data is even parsed; a
/// partially decoded line keeps the bytes before the bad spot, since a
/// streaming applier would already have written them.
pub open spec fn patch_lines(
    lines: Seq<Seq<char>>,
    goff: int,
    basis: Option<u64>,
    pos: int,
) -> (Seq<(int, Seq<u8>)>, Option<HexError>)
    decreases lines.len(),
{
    if lines.len() == 0 {
        (Seq::empty(), None)
    } else {
        match seek_spec(spec_offset_field(lines[0]), goff, basis, pos) {
            Err(e) => (Seq::empty(), Some(e)),
            Ok((basis2, pos2)) => {
                let data = spec_data_field(lines[0]);
                if data.len() > 0 && basis2 is None {
                    (Seq::empty(), Some(HexError::OffsetRequiredBeforeData))
                } else {
                    let (bs, e) = parse_data(data);
                    let w: Seq<(int, Seq<u8>)> = if bs.len() > 0 {
                        seq![(pos2, bs)]
                    } else {
                        Seq::empty()
                    };
                    if e is Some {
                        (w, e)
                    } else {
                        let (rest, e2) = patch_lines(
                            lines.drop_first(),
                            goff,
                            basis2,
                            pos2 + bs.len(),
                        );
                        (w + rest, e2)
                    }
                }
            },
        }
    }
}

/// What applying patch text to a target yields: the target after every
/// write the run performed -- including those before a failure -- and the
/// first error, if any.
pub open spec fn spec_patch(text: Seq<char>, target: Seq<u8>, goff: int) -> (
    Seq<u8>,
    Option<HexError>,
) {
    let (ws, e) = patch_lines(spec_lines(text), goff, None, 0);
    (apply_writes(target, ws), e)
}

/// Writes `data` into `target` at position `pos`, zero-filling any gap
/// between the old end and `pos`.
fn write_chunk(target: &mut Vec<u8>, pos: u64, data: &[u8])
    requires
        pos + data@.len() <= usize::MAX,
    ensures
        final(target)@ == write_at(old(target)@, pos as int, data@),
{
    if data.len() == 0 {
        return ;
    }
    let p = pos as usize;
    while target.len() < p
        invariant
            target@.len() >= old(target)@.len(),
            old(target)@.len() >= p ==> target@ == old(target)@,
            old(target)@.len() < p ==> target@.len() <= p,
            forall|i: int|
                0 <= i < target@.len() ==> target@[i] == (if i < old(target)@.len() {
                    old(target)@[i]
                } else {
                    0u8
                }),
        decreases p - target@.len(),
    {
        target.push(0);
    }
    let mut j: usize = 0;
    while j < data.len()
        invariant
            p == pos,
            pos + data@.len() <= usize::MAX,
            0 < data@.len(),
            j <= data@.len(),
            target@.len() == (if old(target)@.len() >= p + j {
                old(target)@.len() as int
            } else {
                p + j
            }),
            target@.len() >= p,
            forall|i: int|
                0 <= i < target@.len() ==> target@[i] == (if p <= i < p + j {
                    data@[i - p]
                } else if i < old(target)@.len() {
                    old(target)@[i]
                } else {
                    0u8
                }),
        decreases data@.len() - j,
    {
        let idx = p + j;
        let b = data[j];
        if idx < target.len() {
            target[idx] = b;
        } else {
            target.push(b);
        }
        j = j + 1;
    }
    proof {
        assert(target@ =~= write_at(old(target)@, pos as int, data@));
    }
}

/// Performs the seek a line's offset field asks for, if any: the new basis
/// and write position, or the error that stops the run.
fn seek_step(off: &str, goff: i64, basis: Option<u64>, pos: u64) -> (r: Result<
    (Option<u64>, u64),
    HexError,
>)
    ensures
        r is Ok <==> seek_spec(off@, goff as int, basis, pos as int) is Ok,
        r is Ok ==> {
            let s = seek_spec(off@, goff as int, basis, pos as int)->Ok_0;
            r->Ok_0.0 == s.0 && r->Ok_0.1 as int == s.1
        },
        r is Err ==> seek_spec(off@, goff as int, basis, pos as int) == Err::<
            (Option<u64>, int),
            HexError,
        >(r->Err_0),
{
    if off.is_empty() {
        return Ok((basis, pos));
    }
    let o = match Offset::parse(off) {
        Ok(o) => o,
        Err(e) => {
            return Err(e);
        },
    };
    let resolved = match o.to_absolute(basis) {
        Ok(v) => v,
        Err(e) => {
            return Err(e);
        },
    };
    let adjusted: u64 = if goff >= 0 {
        let step = goff as u64;
        if resolved <= u64::MAX - step {
            resolved + step
        } else {
            return Err(HexError::OffsetAdjustmentOverflow);
        }
    } else {
        let magnitude: u64 = if goff == i64::MIN {
            0x8000_0000_0000_0000u64
        } else {
            (-goff) as u64
        };
        if resolved >= magnitude {
            resolved - magnitude
        } else {
            return Err(HexError::OffsetAdjustmentOverflow);
        }
    };
    Ok((Some(resolved), adjusted))
}

/// Applies patch text to an in-memory target: per line, an optional seek
/// (absolute, or relative to the last absolute offset), then the line's
/// bytes written at the current position. Writes performed before an error
/// remain in the target. The one demand on callers is the machine limit
/// that every write must end within the unsigned 64-bit range.
pub fn patch_impl(text: &str, target: &mut Vec<u8>, global_offset: i64) -> (r: Result<
    (),
    HexError,
>)
    requires
        writes_fit(patch_lines(spec_lines(text@), global_offset as int, None, 0).0),
    ensures
        final(target)@ == spec_patch(text@, old(target)@, global_offset as int).0,
        r is Ok <==> spec_patch(text@, old(target)@, global_offset as int).1 is None,
        r is Err ==> spec_patch(text@, old(target)@, global_offset as int).1 == Some(r->Err_0),
{
    let ghost goff = global_offset as int;
    let ghost all = spec_lines(text@);
    let ghost full = patch_lines(all, goff, None, 0);
    let lines = crate::load::split_lines(text);
    let mut basis: Option<u64> = None;
    let mut pos: u64 = 0;
    let ghost mut done: Seq<(int, Seq<u8>)> = Seq::empty();
    let mut i: usize = 0;
    proof {
        assert(all.skip(0) =~= all);
        assert(done + patch_lines(all, goff, None, 0).0 =~= patch_lines(all, goff, None, 0).0);
    }
    while i < lines.len()
        invariant
            i <= lines@.len(),
            lines.deep_view() == all,
            all == spec_lines(text@),
            goff == global_offset as int,
            full == patch_lines(all, goff, None, 0),
            writes_fit(full.0),
            full.0 == done + patch_lines(all.skip(i as int), goff, basis, pos as int).0,
            full.1 == patch_lines(all.skip(i as int), goff, basis, pos as int).1,
            target@ == apply_writes(old(target)@, done),
        decreases lines@.len() - i,
    {
        let ghost suffix = patch_lines(all.skip(i as int), goff, basis, pos as int);
        let parts = recognize_line(lines[i].as_str());
        proof {
            assert(all.skip(i as int)[0] == all[i as int]);
            assert(all[i as int] == lines@[i as int]@);
        }
        let (basis2, pos2) = match seek_step(parts.offset.as_str(), global_offset, basis, pos) {
            Ok(s) => s,
            Err(e) => {
                proof {
                    assert(suffix == (Seq::<(int, Seq<u8>)>::empty(), Some(e)));
                    assert(full.0 =~= done);
                }
                return Err(e);
            },
        };
        basis = basis2;
        pos = pos2;
        if !parts.data.as_str().is_empty() && basis.is_none() {
            proof {
                assert(suffix == (
                    Seq::<(int, Seq<u8>)>::empty(),
                    Some(HexError::OffsetRequiredBeforeData),
                ));
                assert(full.0 =~= done);
            }
            return Err(HexError::OffsetRequiredBeforeData);
        }
        let (bytes, err) = parse_octets(parts.data.as_str());
        let ghost bs = bytes@;
        let ghost done0 = done;
        let ghost w = (pos as int, bs);
        proof {
            assert(bs == parse_data(spec_data_field(all.skip(i as int)[0])).0);
            assert(err == parse_data(spec_data_field(all.skip(i as int)[0])).1);
            if bs.len() > 0 {
                assert(suffix.0 == seq![w] + (if err is Some {
                    Seq::<(int, Seq<u8>)>::empty()
                } else {
                    patch_lines(all.skip(i as int).drop_first(), goff, basis, pos + bs.len()).0
                }));
            }
        }
        if bytes.len() > 0 {
            proof {
                assert(suffix.0[0] == w);
                assert(full.0[done0.len() as int] == w);
                assert(0 <= w.0 && w.0 + w.1.len() <= usize::MAX);
            }
            write_chunk(target, pos, bytes.as_slice());
            proof {
                lemma_apply_writes_push(old(target)@, done0, w);
                done = done0.push(w);
                assert(target@ == apply_writes(old(target)@, done));
            }
            pos = pos + bytes.len() as u64;
        }
        match err {
            Some(e) => {
                proof {
                    if bs.len() > 0 {
                        assert(suffix.0 =~= seq![w]);
                        assert(done =~= done0 + seq![w]);
                        assert(full.0 =~= done);
                    } else {
                        assert(suffix.0 =~= Seq::<(int, Seq<u8>)>::empty());
                        assert(full.0 =~= done);
                    }
                }
                return Err(e);
            },
            None => {
                proof {
                    assert(all.skip(i as int).drop_first() =~= all.skip(i + 1));
                    let rest = patch_lines(all.skip(i + 1), goff, basis, pos as int);
                    if bs.len() > 0 {
                        assert(suffix.0 == seq![w] + rest.0);
                        assert(done =~= done0 + seq![w]);
                        assert(full.0 =~= done0 + (seq![w] + rest.0));
                        assert(done0 + (seq![w] + rest.0) =~= (done0 + seq![w]) + rest.0);
                        assert(full.0 =~= done + rest.0);
                    } else {
                        assert(suffix.0 == Seq::<(int, Seq<u8>)>::empty() + rest.0);
                        assert(suffix.0 =~= rest.0);
                        assert(full.0 =~= done + rest.0);
                    }
                }
            },
        }
        i = i + 1;
    }
    proof {
        assert(all.skip(i as int) =~= Seq::<Seq<char>>::empty());
        assert(full.0 =~= done);
    }
    Ok(())
}

} // verus!
