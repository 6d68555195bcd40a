//! The line recognizer, the octet parser and the offset resolver: the three
//! leaf components that read the dump format.

use vstd::prelude::*;

use crate::errors::HexError;
use crate::text::{
    exec_hex_digit_value, exec_is_ascii_space, exec_is_space, find_char, find_char_in,
    hex_digit_value, is_ascii_space, is_hex_digit, is_space, lemma_find_char, lemma_trim_wrapped,
    trim,
};

verus! {

/// The three fields of one line of the dump format, split apart but not
/// validated.
#[derive(Debug)]
pub struct DumpLine {
    pub offset: String,
    pub data: String,
    pub comment: String,
}

impl PartialEq for DumpLine {
    fn eq(&self, other: &DumpLine) -> (r: bool) {
        self.offset == other.offset && self.data == other.data && self.comment == other.comment
    }
}

impl vstd::std_specs::cmp::PartialEqSpecImpl for DumpLine {
    open spec fn obeys_eq_spec() -> bool {
        true
    }

    open spec fn eq_spec(&self, other: &DumpLine) -> bool {
        self.offset@ == other.offset@ && self.data@ == other.data@
            && self.comment@ == other.comment@
    }
}

/// The part of `line` before its first `|`, the whole line if there is none.
pub open spec fn spec_before_comment(line: Seq<char>) -> Seq<char> {
    line.take(find_char(line, '|'))
}

/// The comment field: what follows the first `|`, untrimmed; empty if there
/// is no `|`.
pub open spec fn spec_comment(line: Seq<char>) -> Seq<char> {
    if find_char(line, '|') < line.len() {
        line.skip(find_char(line, '|') + 1)
    } else {
        Seq::empty()
    }
}

/// The offset field: what precedes the first `:` before any `|`, trimmed;
/// empty if there is no such `:`.
pub open spec fn spec_offset_field(line: Seq<char>) -> Seq<char> {
    let rest = spec_before_comment(line);
    let j = find_char(rest, ':');
    if j < rest.len() {
        trim(rest.take(j))
    } else {
        Seq::empty()
    }
}

/// The data field: what stands between the first `:` (if any) and the first
/// `|` (if any), trimmed.
pub open spec fn spec_data_field(line: Seq<char>) -> Seq<char> {
    let rest = spec_before_comment(line);
    let j = find_char(rest, ':');
    if j < rest.len() {
        trim(rest.skip(j + 1))
    } else {
        trim(rest)
    }
}

/// Copies `s` without its surrounding whitespace.
fn trim_str(s: &str) -> (r: String)
    ensures
        r@ == trim(s@),
{
    let n = s.unicode_len();
    let mut a: usize = 0;
    while a < n && exec_is_space(s.get_char(a))
        invariant
            0 <= a <= n == s@.len(),
            forall|j: int| 0 <= j < a ==> is_space(#[trigger] s@[j]),
        decreases n - a,
    {
        a = a + 1;
    }
    let mut b: usize = n;
    while b > a && exec_is_space(s.get_char(b - 1))
        invariant
            a <= b <= n == s@.len(),
            forall|j: int| b <= j < n ==> is_space(#[trigger] s@[j]),
        decreases b,
    {
        b = b - 1;
    }
    proof {
        lemma_trim_wrapped(s@.take(a as int), s@.subrange(a as int, b as int), s@.skip(b as int));
        assert(s@.take(a as int) + s@.subrange(a as int, b as int) + s@.skip(b as int) =~= s@);
    }
    s.substring_char(a, b).to_owned()
}

/// Splits one line of the dump format into offset, data and comment by its
/// first `|` and the first `:` before it, trimming offset and data. Never
/// fails; it does not look at what the fields hold.
pub fn recognize_line(line: &str) -> (r: DumpLine)
    ensures
        r.offset@ == spec_offset_field(line@),
        r.data@ == spec_data_field(line@),
        r.comment@ == spec_comment(line@),
{
    let n = line.unicode_len();
    let k = find_char_in(line, '|');
    proof {
        lemma_find_char(line@, '|');
    }
    let rest = line.substring_char(0, k);
    let comment: String = if k < n {
        line.substring_char(k + 1, n).to_owned()
    } else {
        String::new()
    };
    proof {
        assert(rest@ =~= spec_before_comment(line@));
        if k < n {
            assert(line@.subrange(k + 1, n as int) =~= line@.skip(k + 1));
        }
    }
    let j = find_char_in(rest, ':');
    proof {
        lemma_find_char(rest@, ':');
    }
    let (offset, data): (String, String) = if j < k {
        proof {
            assert(rest@.subrange(0, j as int) =~= rest@.take(j as int));
            assert(rest@.subrange(j + 1, k as int) =~= rest@.skip(j + 1));
        }
        (trim_str(rest.substring_char(0, j)), trim_str(rest.substring_char(j + 1, k)))
    } else {
        proof {
            assert(rest@.subrange(0, 0) =~= Seq::<char>::empty());
            assert(trim(Seq::<char>::empty()) =~= Seq::<char>::empty());
        }
        (rest.substring_char(0, 0).to_owned(), trim_str(rest))
    };
    DumpLine { offset, data, comment }
}

/// The length of the leading run of non-whitespace characters: the first
/// group of a data field.
pub open spec fn group_len(s: Seq<char>) -> nat
    decreases s.len(),
{
    if s.len() == 0 || is_ascii_space(s[0]) {
        0
    } else {
        1 + group_len(s.drop_first())
    }
}

pub proof fn lemma_group_len(s: Seq<char>)
    ensures
        group_len(s) <= s.len(),
        forall|i: int| 0 <= i < group_len(s) ==> !is_ascii_space(#[trigger] s[i]),
        group_len(s) < s.len() ==> is_ascii_space(s[group_len(s) as int]),
    decreases s.len(),
{
    if s.len() > 0 && !is_ascii_space(s[0]) {
        lemma_group_len(s.drop_first());
        assert forall|i: int| 0 <= i < group_len(s) implies !is_ascii_space(#[trigger] s[i]) by {
            if i > 0 {
                assert(s[i] == s.drop_first()[i - 1]);
            }
        }
    }
}

/// Parses an even-length group of hex digits pairwise, left to right. The
/// bytes of the pairs before the first bad pair are kept; a bad pair yields
/// the error beside them.
pub open spec fn parse_group(g: Seq<char>) -> (Seq<u8>, Option<HexError>)
    decreases g.len(),
{
    if g.len() < 2 {
        (Seq::empty(), None)
    } else if is_hex_digit(g[0]) && is_hex_digit(g[1]) {
        let b = (16 * hex_digit_value(g[0]) + hex_digit_value(g[1])) as u8;
        let (rest, e) = parse_group(g.skip(2));
        (seq![b] + rest, e)
    } else {
        (Seq::empty(), Some(HexError::InvalidHexDigit))
    }
}

/// Parses a whole data field: whitespace-separated groups of hex digit
/// pairs, consumed left to right. The first component holds every byte
/// decoded before the first error; the second the error, if any. A group of
/// odd length fails before any of its pairs is read.
pub open spec fn parse_data(s: Seq<char>) -> (Seq<u8>, Option<HexError>)
    decreases s.len(),
        via parse_data_decreases
{
    if s.len() == 0 {
        (Seq::empty(), None)
    } else if is_ascii_space(s[0]) {
        parse_data(s.drop_first())
    } else {
        let n = group_len(s) as int;
        if n % 2 == 1 {
            (Seq::empty(), Some(HexError::MalformedOctet))
        } else {
            let (bs, e) = parse_group(s.take(n));
            if e is Some {
                (bs, e)
            } else {
                let (rest, e2) = parse_data(s.skip(n));
                (bs + rest, e2)
            }
        }
    }
}

#[via_fn]
proof fn parse_data_decreases(s: Seq<char>) {
    if s.len() > 0 && !is_ascii_space(s[0]) {
        lemma_group_len(s);
        assert(group_len(s) >= 1);
    }
}

/// Turns a data field into the bytes it spells, stopping at the first
/// ill-formed group or pair. Bytes decoded before the error are returned
/// beside it: what was already handed on stays handed on.
pub fn parse_octets(data: &str) -> (r: (Vec<u8>, Option<HexError>))
    ensures
        r.0@ == parse_data(data@).0,
        r.1 == parse_data(data@).1,
{
    let n = data.unicode_len();
    let mut out: Vec<u8> = Vec::new();
    let mut i: usize = 0;
    proof {
        assert(data@.skip(0) =~= data@);
    }
    while i < n
        invariant
            0 <= i <= n == data@.len(),
            parse_data(data@).0 == out@ + parse_data(data@.skip(i as int)).0,
            parse_data(data@).1 == parse_data(data@.skip(i as int)).1,
        decreases n - i,
    {
        let c = data.get_char(i);
        if exec_is_ascii_space(c) {
            proof {
                assert(data@.skip(i as int)[0] == data@[i as int]);
                assert(data@.skip(i as int).drop_first() =~= data@.skip(i + 1));
            }
            i = i + 1;
        } else {
            // Measure the group that starts here.
            let ghost rem = data@.skip(i as int);
            let mut j: usize = i + 1;
            proof {
                assert(rem[0] == data@[i as int]);
            }
            while j < n && !exec_is_ascii_space(data.get_char(j))
                invariant
                    i < j <= n == data@.len(),
                    forall|t: int| i <= t < j ==> !is_ascii_space(#[trigger] data@[t]),
                decreases n - j,
            {
                j = j + 1;
            }
            proof {
                assert forall|t: int| 0 <= t < j - i implies !is_ascii_space(
                    #[trigger] rem[t],
                ) by {
                    assert(rem[t] == data@[i + t]);
                }
                if j < n {
                    assert(rem[(j - i) as int] == data@[j as int]);
                }
                lemma_group_len_is(rem, (j - i) as nat);
            }
            if (j - i) % 2 == 1 {
                proof {
                    assert(parse_data(data@).0 =~= out@);
                }
                return (out, Some(HexError::MalformedOctet));
            }
            // Decode the group pairwise. While inside the group, `base` marks
            // how much of `out` predates it.
            let ghost g = rem.take((j - i) as int);
            let ghost base = out@.len() as int;
            let mut k: usize = i;
            proof {
                assert(g.skip(0) =~= g);
                assert(out@.take(base) =~= out@);
            }
            while k < j
                invariant
                    i <= k <= j <= n == data@.len(),
                    (k - i) % 2 == 0,
                    (j - i) % 2 == 0,
                    rem == data@.skip(i as int),
                    g == rem.take((j - i) as int),
                    group_len(rem) == j - i,
                    !is_ascii_space(rem[0]),
                    0 <= base <= out@.len(),
                    out@.len() - base == (k - i) / 2,
                    parse_group(g).0 == out@.skip(base) + parse_group(g.skip((k - i) as int)).0,
                    parse_group(g).1 == parse_group(g.skip((k - i) as int)).1,
                    parse_data(data@).0 == out@.take(base) + parse_data(rem).0,
                    parse_data(data@).1 == parse_data(rem).1,
                decreases j - k,
            {
                let c0 = data.get_char(k);
                let c1 = data.get_char(k + 1);
                proof {
                    assert(g.skip((k - i) as int)[0] == data@[k as int]);
                    assert(g.skip((k - i) as int)[1] == data@[k + 1]);
                }
                let v0 = exec_hex_digit_value(c0);
                let v1 = exec_hex_digit_value(c1);
                if v0.is_none() || v1.is_none() {
                    proof {
                        assert(parse_group(g.skip((k - i) as int)).1 == Some(
                            HexError::InvalidHexDigit,
                        ));
                        assert(parse_group(g.skip((k - i) as int)).0 =~= Seq::<u8>::empty());
                        assert(parse_group(g).0 =~= out@.skip(base));
                        assert(parse_data(rem) == (out@.skip(base), Some(
                            HexError::InvalidHexDigit,
                        )));
                        assert(parse_data(data@).0 =~= out@);
                    }
                    return (out, Some(HexError::InvalidHexDigit));
                }
                let b: u8 = 16 * v0.unwrap() + v1.unwrap();
                out.push(b);
                proof {
                    assert(g.skip((k - i) as int).skip(2) =~= g.skip((k - i) + 2));
                    assert(out@.skip(base) =~= out@.take(base + ((k - i) / 2)).skip(base) + seq![
                        b,
                    ] + parse_group(g.skip((k - i) + 2)).0.take(0));
                    assert(out@.take(base) =~= out@.drop_last().take(base));
                    assert(out@.skip(base) =~= out@.drop_last().skip(base).push(b));
                    assert(out@.drop_last().skip(base) + (seq![b] + parse_group(
                        g.skip((k - i) + 2),
                    ).0) =~= out@.skip(base) + parse_group(g.skip((k - i) + 2)).0);
                }
                k = k + 2;
            }
            proof {
                assert(g.skip((j - i) as int) =~= Seq::<char>::empty());
                assert(parse_group(g).0 =~= out@.skip(base));
                assert(rem.skip((j - i) as int) =~= data@.skip(j as int));
                assert(out@.take(base) + (out@.skip(base) + parse_data(data@.skip(j as int)).0)
                    =~= out@ + parse_data(data@.skip(j as int)).0);
            }
            i = j;
        }
    }
    proof {
        assert(data@.skip(i as int) =~= Seq::<char>::empty());
        assert(parse_data(data@).0 =~= out@);
    }
    (out, None)
}

/// `group_len` is exactly the length of the leading whitespace-free run.
pub proof fn lemma_group_len_is(s: Seq<char>, n: nat)
    requires
        n <= s.len(),
        forall|i: int| 0 <= i < n ==> !is_ascii_space(#[trigger] s[i]),
        n < s.len() ==> is_ascii_space(s[n as int]),
    ensures
        group_len(s) == n,
{
    lemma_group_len(s);
}

/// Decodes a data field all at once: the bytes if every group is well
/// formed, the first error otherwise.
pub fn for_parsed_data(data: &str) -> (r: Result<Vec<u8>, HexError>)
    ensures
        parse_data(data@).1 is None ==> r is Ok && r->Ok_0@ == parse_data(data@).0,
        parse_data(data@).1 is Some ==> r is Err && r->Err_0 == parse_data(data@).1->0,
{
    let (bytes, err) = parse_octets(data);
    match err {
        None => Ok(bytes),
        Some(e) => Err(e),
    }
}

/// An offset token of a patch line: either an absolute position or a step
/// relative to the last absolute one.
#[derive(Clone, Copy, Debug, PartialEq, Eq, Structural)]
pub enum Offset {
    Absolute(u64),
    Relative(i64),
}

/// Whether every character of `s` is a hex digit.
pub open spec fn all_hex(s: Seq<char>) -> bool {
    forall|i: int| 0 <= i < s.len() ==> is_hex_digit(#[trigger] s[i])
}

/// The number that `s` spells in hex; meaningful only when `all_hex(s)`.
pub open spec fn hex_value(s: Seq<char>) -> int
    decreases s.len(),
{
    if s.len() == 0 {
        0
    } else {
        16 * hex_value(s.drop_last()) + hex_digit_value(s.last())
    }
}

pub proof fn lemma_hex_value_nonneg(s: Seq<char>)
    ensures
        hex_value(s) >= 0,
    decreases s.len(),
{
    if s.len() > 0 {
        lemma_hex_value_nonneg(s.drop_last());
    }
}

/// Reading one more digit multiplies the prefix value by sixteen and adds
/// the digit.
proof fn lemma_hex_value_step(s: Seq<char>, i: int)
    requires
        0 <= i < s.len(),
    ensures
        hex_value(s.take(i + 1)) == 16 * hex_value(s.take(i)) + hex_digit_value(s[i]),
{
    assert(s.take(i + 1).drop_last() =~= s.take(i));
    assert(s.take(i + 1).last() == s[i]);
}

/// Prefix values never shrink as more digits are read.
proof fn lemma_hex_value_monotone(s: Seq<char>, t1: int, t2: int)
    requires
        0 <= t1 <= t2 <= s.len(),
    ensures
        hex_value(s.take(t1)) <= hex_value(s.take(t2)),
    decreases t2 - t1,
{
    if t1 < t2 {
        lemma_hex_value_monotone(s, t1, t2 - 1);
        lemma_hex_value_step(s, t2 - 1);
        lemma_hex_value_nonneg(s.take(t2 - 1));
    }
}

/// Reads all of `s` as unsigned hex. `None` exactly when `s` is empty,
/// holds a non-digit, or spells a value above `u64::MAX`.
fn parse_hex_full(s: &str) -> (r: Option<u64>)
    ensures
        match r {
            Some(v) => s@.len() > 0 && all_hex(s@) && hex_value(s@) == v,
            None => s@.len() == 0 || !all_hex(s@) || hex_value(s@) > u64::MAX,
        },
{
    let n = s.unicode_len();
    if n == 0 {
        return None;
    }
    let mut acc: u64 = 0;
    let mut i: usize = 0;
    while i < n
        invariant
            0 <= i <= n == s@.len(),
            forall|j: int| 0 <= j < i ==> is_hex_digit(#[trigger] s@[j]),
            acc == hex_value(s@.take(i as int)),
        decreases n - i,
    {
        let c = s.get_char(i);
        let d = match exec_hex_digit_value(c) {
            Some(d) => d,
            None => {
                return None;
            },
        };
        let wide: u128 = (acc as u128) * 16 + (d as u128);
        proof {
            lemma_hex_value_step(s@, i as int);
        }
        if wide > u64::MAX as u128 {
            proof {
                lemma_hex_value_monotone(s@, i + 1, n as int);
                assert(s@.take(n as int) =~= s@);
            }
            return None;
        }
        acc = wide as u64;
        i = i + 1;
    }
    proof {
        assert(s@.take(n as int) =~= s@);
    }
    Some(acc)
}

/// How an offset token reads: a leading `+` or `-` makes it relative and
/// signed, anything else absolute and unsigned; a sign with nothing after
/// it, a non-digit, or a value outside the target type all fail.
pub open spec fn spec_parse_offset(s: Seq<char>) -> Result<Offset, HexError> {
    if s.len() > 0 && (s[0] == '+' || s[0] == '-') {
        let rest = s.drop_first();
        if rest.len() == 0 || !all_hex(rest) {
            Err(HexError::InvalidOffset)
        } else {
            let magnitude = hex_value(rest);
            let signed = if s[0] == '-' {
                -magnitude
            } else {
                magnitude
            };
            if i64::MIN <= signed <= i64::MAX {
                Ok(Offset::Relative(signed as i64))
            } else {
                Err(HexError::InvalidOffset)
            }
        }
    } else {
        if s.len() == 0 || !all_hex(s) || hex_value(s) > u64::MAX {
            Err(HexError::InvalidOffset)
        } else {
            Ok(Offset::Absolute(hex_value(s) as u64))
        }
    }
}

impl Offset {
    /// Parses an offset token: signed hex after `+`/`-`, unsigned hex
    /// otherwise.
    pub fn parse(s: &str) -> (r: Result<Offset, HexError>)
        ensures
            r == spec_parse_offset(s@),
    {
        let n = s.unicode_len();
        if n > 0 {
            let c0 = s.get_char(0);
            if c0 == '+' || c0 == '-' {
                let rest = s.substring_char(1, n);
                proof {
                    assert(rest@ =~= s@.drop_first());
                }
                return match parse_hex_full(rest) {
                    None => {
                        proof {
                            lemma_hex_value_nonneg(rest@);
                        }
                        Err(HexError::InvalidOffset)
                    },
                    Some(v) => {
                        if c0 == '-' {
                            if v == 0x8000_0000_0000_0000u64 {
                                Ok(Offset::Relative(i64::MIN))
                            } else if v < 0x8000_0000_0000_0000u64 {
                                Ok(Offset::Relative(-(v as i64)))
                            } else {
                                Err(HexError::InvalidOffset)
                            }
                        } else {
                            if v <= i64::MAX as u64 {
                                Ok(Offset::Relative(v as i64))
                            } else {
                                Err(HexError::InvalidOffset)
                            }
                        }
                    },
                };
            }
        }
        match parse_hex_full(s) {
            None => Err(HexError::InvalidOffset),
            Some(v) => Ok(Offset::Absolute(v)),
        }
    }

    /// What resolving against a basis yields: an absolute offset stands as
    /// it is; a relative one steps from the basis, which must exist, and
    /// must land inside the unsigned 64-bit range.
    pub open spec fn spec_to_absolute(self, basis: Option<u64>) -> Result<u64, HexError> {
        match self {
            Offset::Absolute(n) => Ok(n),
            Offset::Relative(n) => match basis {
                None => Err(HexError::NoBasisForRelativeOffset),
                Some(m) => if 0 <= m + n <= u64::MAX {
                    Ok((m + n) as u64)
                } else {
                    Err(HexError::OffsetOverflow)
                },
            },
        }
    }

    /// Resolves this offset against the most recent absolute position, if
    /// any.
    pub fn to_absolute(self, basis: Option<u64>) -> (r: Result<u64, HexError>)
        ensures
            r == self.spec_to_absolute(basis),
    {
        match self {
            Offset::Absolute(n) => Ok(n),
            Offset::Relative(n) => match basis {
                None => Err(HexError::NoBasisForRelativeOffset),
                Some(m) => {
                    if n >= 0 {
                        let step = n as u64;
                        if m <= u64::MAX - step {
                            Ok(m + step)
                        } else {
                            Err(HexError::OffsetOverflow)
                        }
                    } else {
                        let magnitude: u64 = if n == i64::MIN {
                            0x8000_0000_0000_0000u64
                        } else {
                            (-n) as u64
                        };
                        if m >= magnitude {
                            Ok(m - magnitude)
                        } else {
                            Err(HexError::OffsetOverflow)
                        }
                    }
                },
            },
        }
    }
}

} // verus!
