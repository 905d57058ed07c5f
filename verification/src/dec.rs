//! The meaning of decoding, as total specification functions over byte
//! sequences. The executable decoder is proved to return exactly what these
//! functions say, error for error.

use vstd::prelude::*;

use crate::be::u16_be;
use crate::be::u32_be;
use crate::be::u64_be;
use crate::err::NbtError;
use crate::utf8::is_utf8;
use crate::value::Val;

verus! {

/// Read a 2-byte length-prefixed UTF-8 name at `pos`.
pub open spec fn dec_name(b: Seq<u8>, pos: int) -> Result<(Seq<u8>, int), NbtError> {
    if pos + 2 > b.len() {
        Err(NbtError::Truncated)
    } else {
        let n = u16_be(b[pos], b[pos + 1]) as int;
        if pos + 2 + n > b.len() {
            Err(NbtError::Truncated)
        } else {
            let name = b.subrange(pos + 2, pos + 2 + n);
            if is_utf8(name) {
                Ok((name, pos + 2 + n))
            } else {
                Err(NbtError::InvalidText)
            }
        }
    }
}

/// Read the payload of one value of the given tag at `pos`, descending at
/// most `d` further container levels.
pub open spec fn dec_value(b: Seq<u8>, pos: int, tag: u8, d: nat) -> Result<(Val, int), NbtError>
    decreases d, 0int, 0int,
{
    if tag == 1 {
        if pos + 1 > b.len() {
            Err(NbtError::Truncated)
        } else {
            Ok((Val::Byte(b[pos]), pos + 1))
        }
    } else if tag == 2 {
        if pos + 2 > b.len() {
            Err(NbtError::Truncated)
        } else {
            Ok((Val::Short(u16_be(b[pos], b[pos + 1]) as i16), pos + 2))
        }
    } else if tag == 3 {
        if pos + 4 > b.len() {
            Err(NbtError::Truncated)
        } else {
            Ok((Val::Int(u32_be(b[pos], b[pos + 1], b[pos + 2], b[pos + 3]) as i32), pos + 4))
        }
    } else if tag == 4 {
        if pos + 8 > b.len() {
            Err(NbtError::Truncated)
        } else {
            Ok(
                (
                    Val::Long(
                        u64_be(
                            b[pos],
                            b[pos + 1],
                            b[pos + 2],
                            b[pos + 3],
                            b[pos + 4],
                            b[pos + 5],
                            b[pos + 6],
                            b[pos + 7],
                        ) as i64,
                    ),
                    pos + 8,
                ),
            )
        }
    } else if tag == 5 {
        if pos + 4 > b.len() {
            Err(NbtError::Truncated)
        } else {
            Ok((Val::Float(u32_be(b[pos], b[pos + 1], b[pos + 2], b[pos + 3])), pos + 4))
        }
    } else if tag == 6 {
        if pos + 8 > b.len() {
            Err(NbtError::Truncated)
        } else {
            Ok(
                (
                    Val::Double(
                        u64_be(
                            b[pos],
                            b[pos + 1],
                            b[pos + 2],
                            b[pos + 3],
                            b[pos + 4],
                            b[pos + 5],
                            b[pos + 6],
                            b[pos + 7],
                        ),
                    ),
                    pos + 8,
                ),
            )
        }
    } else if tag == 7 {
        if pos + 4 > b.len() {
            Err(NbtError::Truncated)
        } else {
            let n = u32_be(b[pos], b[pos + 1], b[pos + 2], b[pos + 3]) as int;
            if pos + 4 + n > b.len() {
                Err(NbtError::Truncated)
            } else {
                Ok((Val::ByteArray(b.subrange(pos + 4, pos + 4 + n)), pos + 4 + n))
            }
        }
    } else if tag == 8 {
        match dec_name(b, pos) {
            Ok((s, p)) => Ok((Val::Str(s), p)),
            Err(e) => Err(e),
        }
    } else if tag == 9 {
        if d == 0 {
            Err(NbtError::DepthLimit)
        } else {
            dec_list(b, pos, (d - 1) as nat)
        }
    } else if tag == 10 {
        if d == 0 {
            Err(NbtError::DepthLimit)
        } else {
            dec_compound(b, pos, (d - 1) as nat)
        }
    } else {
        Err(NbtError::UnknownTag)
    }
}

/// Read a list body at `pos`: element tag, big-endian count, then that many
/// payload-only elements.
pub open spec fn dec_list(b: Seq<u8>, pos: int, d: nat) -> Result<(Val, int), NbtError>
    decreases d, (u32_be(b[pos + 1], b[pos + 2], b[pos + 3], b[pos + 4]) as int) + 1, 1int,
{
    if pos + 5 > b.len() {
        Err(NbtError::Truncated)
    } else {
        let t = b[pos];
        let n = u32_be(b[pos + 1], b[pos + 2], b[pos + 3], b[pos + 4]) as int;
        match dec_elems(b, pos + 5, t, n as nat, d) {
            Ok((items, p)) => Ok((Val::List(t, items), p)),
            Err(e) => Err(e),
        }
    }
}

/// Read `n` consecutive payloads of tag `t` starting at `pos`.
pub open spec fn dec_elems(b: Seq<u8>, pos: int, t: u8, n: nat, d: nat) -> Result<
    (Seq<Val>, int),
    NbtError,
>
    decreases d, n as int, 1int,
{
    if n == 0 {
        Ok((Seq::empty(), pos))
    } else {
        match dec_value(b, pos, t, d) {
            Ok((v, p1)) => match dec_elems(b, p1, t, (n - 1) as nat, d) {
                Ok((rest, p2)) => Ok((seq![v] + rest, p2)),
                Err(e) => Err(e),
            },
            Err(e) => Err(e),
        }
    }
}

/// Read a compound body at `pos`: framed entries up to and including the
/// end marker.
pub open spec fn dec_compound(b: Seq<u8>, pos: int, d: nat) -> Result<(Val, int), NbtError>
    decreases d, b.len() + 2, 1int,
{
    match dec_entries(b, pos, d, b.len() + 1, Seq::empty()) {
        Ok((es, p)) => Ok((Val::Compound(es), p)),
        Err(e) => Err(e),
    }
}

/// Read compound entries at `pos` until an end marker, rejecting a name
/// already in `seen` or among the entries that follow it. `fuel` bounds the
/// number of entries; every entry occupies at least one byte, so a fuel of
/// one more than the bytes that remain never runs out before the bytes do.
pub open spec fn dec_entries(
    b: Seq<u8>,
    pos: int,
    d: nat,
    fuel: nat,
    seen: Seq<Seq<u8>>,
) -> Result<(Seq<(Seq<u8>, Val)>, int), NbtError>
    decreases d, fuel as int, 1int,
{
    if fuel == 0 {
        Err(NbtError::Truncated)
    } else if pos + 1 > b.len() {
        Err(NbtError::Truncated)
    } else {
        let t = b[pos];
        if t == 0 {
            Ok((Seq::empty(), pos + 1))
        } else {
            match dec_name(b, pos + 1) {
                Ok((nm, p1)) => match dec_value(b, p1, t, d) {
                    Ok((v, p2)) => {
                        if seen.contains(nm) {
                            Err(NbtError::DuplicateKey)
                        } else {
                            match dec_entries(b, p2, d, (fuel - 1) as nat, seen.push(nm)) {
                                Ok((rest, p3)) => Ok((seq![(nm, v)] + rest, p3)),
                                Err(e) => Err(e),
                            }
                        }
                    },
                    Err(e) => Err(e),
                },
                Err(e) => Err(e),
            }
        }
    }
}

/// Read a whole document at the start of `b`: one named compound, framed
/// exactly like a compound entry. A root that is a known tag but not a
/// compound is refused as a type mismatch; an end marker or an unknown id
/// as an unknown tag.
pub open spec fn dec_doc(b: Seq<u8>, d: nat) -> Result<((Seq<u8>, Val), int), NbtError> {
    if 1 > b.len() {
        Err(NbtError::Truncated)
    } else {
        let t = b[0];
        match dec_name(b, 1) {
            Ok((nm, p1)) => {
                if t == 0 || t > 10 {
                    Err(NbtError::UnknownTag)
                } else if t != 10 {
                    Err(NbtError::TypeMismatch)
                } else {
                    match dec_value(b, p1, 10, d) {
                        Ok((v, p2)) => Ok(((nm, v), p2)),
                        Err(e) => Err(e),
                    }
                }
            },
            Err(e) => Err(e),
        }
    }
}

} // verus!
