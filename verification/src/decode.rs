//! The decoder: a cursor over an in-memory byte source and a recursive
//! descent parser, proved to return exactly what the specification decoder
//! says, error for error.

use vstd::prelude::*;

use crate::be::u16_be;
use crate::be::u32_be;
use crate::be::u64_be;
use crate::dec::dec_compound;
use crate::dec::dec_doc;
use crate::dec::dec_elems;
use crate::dec::dec_entries;
use crate::dec::dec_list;
use crate::dec::dec_name;
use crate::dec::dec_value;
use crate::encode::DEFAULT_MAX_DEPTH;
use crate::err::NbtError;
use crate::utf8::is_valid_utf8;
use crate::value::bytes_eq;
use crate::value::deep_view_entries;
use crate::value::deep_view_seq;
use crate::value::NBT;
use crate::value::Val;

verus! {

/// A cursor over a fully buffered byte source. Reads consume bytes from
/// `pos` towards the end; the bytes themselves never change.
pub struct ReadWrapper {
    /// The buffered source.
    pub data: Vec<u8>,
    /// How many bytes have been consumed.
    pub pos: usize,
}

impl ReadWrapper {
    /// The cursor never stands past the end of the source.
    pub open spec fn wf(self) -> bool {
        self.pos <= self.data@.len()
    }

    /// The whole underlying byte source.
    pub open spec fn bytes(self) -> Seq<u8> {
        self.data@
    }

    /// A cursor over the given bytes, standing at the start.
    pub fn from(input: Vec<u8>) -> (r: ReadWrapper)
        ensures
            r.bytes() == input@,
            r.pos == 0,
            r.wf(),
    {
        ReadWrapper { data: input, pos: 0 }
    }

    /// Consume one byte.
    fn read_byte(&mut self) -> (res: Result<u8, NbtError>)
        requires
            old(self).wf(),
        ensures
            final(self).wf(),
            final(self).bytes() == old(self).bytes(),
            old(self).pos + 1 <= old(self).bytes().len() ==> (res matches Ok(x) && x == old(
                self,
            ).bytes()[old(self).pos as int] && final(self).pos == old(self).pos + 1),
            old(self).pos + 1 > old(self).bytes().len() ==> res == Err::<u8, NbtError>(
                NbtError::Truncated,
            ),
    {
        if self.pos >= self.data.len() {
            return Err(NbtError::Truncated);
        }
        let x = self.data[self.pos];
        self.pos = self.pos + 1;
        Ok(x)
    }

    /// Consume exactly `n` bytes, or fail without consuming when fewer
    /// remain.
    pub fn read_n(&mut self, n: usize) -> (res: Result<Vec<u8>, NbtError>)
        requires
            old(self).wf(),
        ensures
            final(self).wf(),
            final(self).bytes() == old(self).bytes(),
            old(self).pos + n <= old(self).bytes().len() ==> (res matches Ok(v) && v@ == old(
                self,
            ).bytes().subrange(old(self).pos as int, old(self).pos + n) && final(self).pos == old(
                self,
            ).pos + n),
            old(self).pos + n > old(self).bytes().len() ==> res == Err::<Vec<u8>, NbtError>(
                NbtError::Truncated,
            ) && *final(self) == *old(self),
    {
        if n > self.data.len() - self.pos {
            return Err(NbtError::Truncated);
        }
        let s = vstd::slice::slice_subrange(self.data.as_slice(), self.pos, self.pos + n);
        let v = vstd::slice::slice_to_vec(s);
        self.pos = self.pos + n;
        Ok(v)
    }

    /// Consume a big-endian 16-bit value.
    fn read_u16(&mut self) -> (res: Result<u16, NbtError>)
        requires
            old(self).wf(),
        ensures
            final(self).wf(),
            final(self).bytes() == old(self).bytes(),
            old(self).pos + 2 <= old(self).bytes().len() ==> (res matches Ok(x) && x == u16_be(
                old(self).bytes()[old(self).pos as int],
                old(self).bytes()[old(self).pos + 1],
            ) && final(self).pos == old(self).pos + 2),
            old(self).pos + 2 > old(self).bytes().len() ==> res == Err::<u16, NbtError>(
                NbtError::Truncated,
            ),
    {
        if self.data.len() - self.pos < 2 {
            return Err(NbtError::Truncated);
        }
        let b0 = self.data[self.pos];
        let b1 = self.data[self.pos + 1];
        self.pos = self.pos + 2;
        Ok(((b0 as u16) << 8) | (b1 as u16))
    }

    /// Consume a big-endian 32-bit value.
    fn read_u32(&mut self) -> (res: Result<u32, NbtError>)
        requires
            old(self).wf(),
        ensures
            final(self).wf(),
            final(self).bytes() == old(self).bytes(),
            old(self).pos + 4 <= old(self).bytes().len() ==> (res matches Ok(x) && x == u32_be(
                old(self).bytes()[old(self).pos as int],
                old(self).bytes()[old(self).pos + 1],
                old(self).bytes()[old(self).pos + 2],
                old(self).bytes()[old(self).pos + 3],
            ) && final(self).pos == old(self).pos + 4),
            old(self).pos + 4 > old(self).bytes().len() ==> res == Err::<u32, NbtError>(
                NbtError::Truncated,
            ),
    {
        if self.data.len() - self.pos < 4 {
            return Err(NbtError::Truncated);
        }
        let b0 = self.data[self.pos];
        let b1 = self.data[self.pos + 1];
        let b2 = self.data[self.pos + 2];
        let b3 = self.data[self.pos + 3];
        self.pos = self.pos + 4;
        Ok(((b0 as u32) << 24) | ((b1 as u32) << 16) | ((b2 as u32) << 8) | (b3 as u32))
    }

    /// Consume a big-endian 64-bit value.
    fn read_u64(&mut self) -> (res: Result<u64, NbtError>)
        requires
            old(self).wf(),
        ensures
            final(self).wf(),
            final(self).bytes() == old(self).bytes(),
            old(self).pos + 8 <= old(self).bytes().len() ==> (res matches Ok(x) && x == u64_be(
                old(self).bytes()[old(self).pos as int],
                old(self).bytes()[old(self).pos + 1],
                old(self).bytes()[old(self).pos + 2],
                old(self).bytes()[old(self).pos + 3],
                old(self).bytes()[old(self).pos + 4],
                old(self).bytes()[old(self).pos + 5],
                old(self).bytes()[old(self).pos + 6],
                old(self).bytes()[old(self).pos + 7],
            ) && final(self).pos == old(self).pos + 8),
            old(self).pos + 8 > old(self).bytes().len() ==> res == Err::<u64, NbtError>(
                NbtError::Truncated,
            ),
    {
        if self.data.len() - self.pos < 8 {
            return Err(NbtError::Truncated);
        }
        let b0 = self.data[self.pos];
        let b1 = self.data[self.pos + 1];
        let b2 = self.data[self.pos + 2];
        let b3 = self.data[self.pos + 3];
        let b4 = self.data[self.pos + 4];
        let b5 = self.data[self.pos + 5];
        let b6 = self.data[self.pos + 6];
        let b7 = self.data[self.pos + 7];
        self.pos = self.pos + 8;
        Ok(
            ((b0 as u64) << 56) | ((b1 as u64) << 48) | ((b2 as u64) << 40) | ((b3 as u64) << 32)
                | ((b4 as u64) << 24) | ((b5 as u64) << 16) | ((b6 as u64) << 8) | (b7 as u64),
        )
    }

    /// Consume a 2-byte length-prefixed UTF-8 name.
    pub fn read_name(&mut self) -> (res: Result<Vec<u8>, NbtError>)
        requires
            old(self).wf(),
        ensures
            final(self).wf(),
            final(self).bytes() == old(self).bytes(),
            match dec_name(old(self).bytes(), old(self).pos as int) {
                Ok((nm, p)) => res matches Ok(v) && v@ == nm && final(self).pos == p,
                Err(e) => res == Err::<Vec<u8>, NbtError>(e),
            },
            res is Ok ==> old(self).pos <= final(self).pos,
    {
        let n16 = match self.read_u16() {
            Ok(x) => x,
            Err(e) => {
                return Err(e);
            },
        };
        let v = match self.read_n(n16 as usize) {
            Ok(x) => x,
            Err(e) => {
                return Err(e);
            },
        };
        if !is_valid_utf8(v.as_slice()) {
            return Err(NbtError::InvalidText);
        }
        Ok(v)
    }

    /// Consume the payload of one scalar, byte-array or string value of the
    /// given tag.
    pub fn read_plain_nbt(&mut self, t: u8) -> (res: Result<NBT, NbtError>)
        requires
            old(self).wf(),
            1 <= t <= 8,
        ensures
            final(self).wf(),
            final(self).bytes() == old(self).bytes(),
            match dec_value(old(self).bytes(), old(self).pos as int, t, 0) {
                Ok((v, p)) => res matches Ok(r) && r@ == v && final(self).pos == p,
                Err(e) => res == Err::<NBT, NbtError>(e),
            },
            res is Ok ==> old(self).pos <= final(self).pos,
    {
        if t == 1 {
            match self.read_byte() {
                Ok(x) => Ok(NBT::Byte(x)),
                Err(e) => Err(e),
            }
        } else if t == 2 {
            match self.read_u16() {
                Ok(x) => Ok(NBT::Short(x as i16)),
                Err(e) => Err(e),
            }
        } else if t == 3 {
            match self.read_u32() {
                Ok(x) => Ok(NBT::Int(x as i32)),
                Err(e) => Err(e),
            }
        } else if t == 4 {
            match self.read_u64() {
                Ok(x) => Ok(NBT::Long(x as i64)),
                Err(e) => Err(e),
            }
        } else if t == 5 {
            match self.read_u32() {
                Ok(x) => Ok(NBT::Float(x)),
                Err(e) => Err(e),
            }
        } else if t == 6 {
            match self.read_u64() {
                Ok(x) => Ok(NBT::Double(x)),
                Err(e) => Err(e),
            }
        } else if t == 7 {
            let n = match self.read_u32() {
                Ok(x) => x,
                Err(e) => {
                    return Err(e);
                },
            };
            match self.read_n(n as usize) {
                Ok(v) => Ok(NBT::ByteArray(v)),
                Err(e) => Err(e),
            }
        } else {
            match self.read_name() {
                Ok(v) => Ok(NBT::Str(v)),
                Err(e) => Err(e),
            }
        }
    }

    /// Consume the payload of one value of the given tag, descending at
    /// most `depth` further container levels.
    pub fn read_value(&mut self, t: u8, depth: usize) -> (res: Result<NBT, NbtError>)
        requires
            old(self).wf(),
        ensures
            final(self).wf(),
            final(self).bytes() == old(self).bytes(),
            match dec_value(old(self).bytes(), old(self).pos as int, t, depth as nat) {
                Ok((v, p)) => res matches Ok(r) && r@ == v && final(self).pos == p,
                Err(e) => res == Err::<NBT, NbtError>(e),
            },
            res is Ok ==> old(self).pos <= final(self).pos,
        decreases depth, 0int,
    {
        if 1 <= t && t <= 8 {
            self.read_plain_nbt(t)
        } else if t == 9 {
            if depth == 0 {
                Err(NbtError::DepthLimit)
            } else {
                self.read_list(depth - 1)
            }
        } else if t == 10 {
            if depth == 0 {
                Err(NbtError::DepthLimit)
            } else {
                self.read_compound(depth - 1)
            }
        } else {
            Err(NbtError::UnknownTag)
        }
    }

    /// Consume a list body: element tag, count, then that many payload-only
    /// elements, each nesting at most `depth` further container levels.
    #[verifier::loop_isolation(false)]
    pub fn read_list(&mut self, depth: usize) -> (res: Result<NBT, NbtError>)
        requires
            old(self).wf(),
        ensures
            final(self).wf(),
            final(self).bytes() == old(self).bytes(),
            match dec_list(old(self).bytes(), old(self).pos as int, depth as nat) {
                Ok((v, p)) => res matches Ok(r) && r@ == v && final(self).pos == p,
                Err(e) => res == Err::<NBT, NbtError>(e),
            },
            res is Ok ==> old(self).pos <= final(self).pos,
        decreases depth, 1int,
    {
        let ghost b = old(self).bytes();
        let ghost pos0 = old(self).pos as int;
        let ghost d = depth as nat;
        let t = match self.read_byte() {
            Ok(x) => x,
            Err(e) => {
                return Err(e);
            },
        };
        let n = match self.read_u32() {
            Ok(x) => x,
            Err(e) => {
                return Err(e);
            },
        };
        let mut items: Vec<NBT> = Vec::new();
        let mut i: u32 = 0;
        proof {
            assert(deep_view_seq(items@) =~= Seq::<Val>::empty());
        }
        while i < n
            invariant
                self.wf(),
                self.bytes() == b,
                i <= n,
                pos0 + 5 <= b.len(),
                pos0 <= self.pos,
                t == b[pos0],
                n == u32_be(b[pos0 + 1], b[pos0 + 2], b[pos0 + 3], b[pos0 + 4]),
                dec_list(b, pos0, d) == (match dec_elems(
                    b,
                    self.pos as int,
                    t,
                    (n - i) as nat,
                    d,
                ) {
                    Ok((rest, p)) => Ok::<(Val, int), NbtError>(
                        (Val::List(t, deep_view_seq(items@) + rest), p),
                    ),
                    Err(e) => Err::<(Val, int), NbtError>(e),
                }),
            decreases n - i,
        {
            let ghost vals = deep_view_seq(items@);
            let v = match self.read_value(t, depth) {
                Ok(x) => x,
                Err(e) => {
                    return Err(e);
                },
            };
            proof {
                let rest_r = dec_elems(b, self.pos as int, t, (n - i - 1) as nat, d);
                assert(deep_view_seq(items@.push(v)) =~= vals.push(v@)) by {
                    assert(items@.push(v).drop_last() =~= items@);
                    assert(items@.push(v).last() == v);
                }
                match rest_r {
                    Ok((rest, p)) => {
                        assert(vals + (seq![v@] + rest) =~= vals.push(v@) + rest);
                    },
                    Err(_) => {},
                }
            }
            items.push(v);
            i = i + 1;
        }
        proof {
            assert(dec_elems(b, self.pos as int, t, 0, d) == Ok::<(Seq<Val>, int), NbtError>(
                (Seq::<Val>::empty(), self.pos as int),
            ));
            assert(deep_view_seq(items@) + Seq::<Val>::empty() =~= deep_view_seq(items@));
        }
        Ok(NBT::List(t, items))
    }

    /// Consume a compound body: framed entries up to and including the end
    /// marker, rejecting a repeated name, each value nesting at most
    /// `depth` further container levels.
    #[verifier::loop_isolation(false)]
    pub fn read_compound(&mut self, depth: usize) -> (res: Result<NBT, NbtError>)
        requires
            old(self).wf(),
        ensures
            final(self).wf(),
            final(self).bytes() == old(self).bytes(),
            match dec_compound(old(self).bytes(), old(self).pos as int, depth as nat) {
                Ok((v, p)) => res matches Ok(r) && r@ == v && final(self).pos == p,
                Err(e) => res == Err::<NBT, NbtError>(e),
            },
            res is Ok ==> old(self).pos <= final(self).pos,
        decreases depth, 1int,
    {
        let ghost b = old(self).bytes();
        let ghost pos0 = old(self).pos as int;
        let ghost d = depth as nat;
        let mut entries: Vec<(Vec<u8>, NBT)> = Vec::new();
        let ghost seen = Seq::<Seq<u8>>::empty();
        proof {
            assert(deep_view_entries(entries@) =~= Seq::<(Seq<u8>, Val)>::empty());
        }
        loop
            invariant
                self.wf(),
                self.bytes() == b,
                pos0 <= self.pos,
                self.pos - pos0 >= entries@.len(),
                seen.len() == entries@.len(),
                forall|j: int|
                    0 <= j < entries@.len() ==> #[trigger] seen[j] == entries@[j].0@
                        && deep_view_entries(entries@)[j] == (entries@[j].0@,
                    entries@[j].1.deep_view()),
                deep_view_entries(entries@).len() == entries@.len(),
                dec_compound(b, pos0, d) == (match dec_entries(
                    b,
                    self.pos as int,
                    d,
                    (b.len() + 1 - entries@.len()) as nat,
                    seen,
                ) {
                    Ok((rest, p)) => Ok::<(Val, int), NbtError>(
                        (Val::Compound(deep_view_entries(entries@) + rest), p),
                    ),
                    Err(e) => Err::<(Val, int), NbtError>(e),
                }),
            decreases b.len() - self.pos,
        {
            let ghost vals = deep_view_entries(entries@);
            let ghost fuel = (b.len() + 1 - entries@.len()) as nat;
            proof {
                assert(entries@.len() <= self.pos - pos0 <= b.len());
                assert(fuel >= 1);
            }
            let t = match self.read_byte() {
                Ok(x) => x,
                Err(e) => {
                    return Err(e);
                },
            };
            if t == 0 {
                proof {
                    assert(vals + Seq::<(Seq<u8>, Val)>::empty() =~= vals);
                }
                return Ok(NBT::Compound(entries));
            }
            let name = match self.read_name() {
                Ok(x) => x,
                Err(e) => {
                    return Err(e);
                },
            };
            let v = match self.read_value(t, depth) {
                Ok(x) => x,
                Err(e) => {
                    return Err(e);
                },
            };
            if contains_name(&entries, &name) {
                proof {
                    assert(seen.contains(name@)) by {
                        let j = choose|j: int|
                            0 <= j < entries@.len() && (#[trigger] entries@[j]).0@ == name@;
                        assert(seen[j] == name@);
                    }
                }
                return Err(NbtError::DuplicateKey);
            }
            proof {
                assert(!seen.contains(name@)) by {
                    if seen.contains(name@) {
                        let j = choose|j: int| 0 <= j < seen.len() && seen[j] == name@;
                        assert(entries@[j].0@ == name@);
                    }
                }
            }
            let ghost rest_r = dec_entries(
                b,
                self.pos as int,
                d,
                (fuel - 1) as nat,
                seen.push(name@),
            );
            proof {
                assert(deep_view_entries(entries@.push((name, v))) =~= vals.push(
                    (name@, v.deep_view()),
                )) by {
                    assert(entries@.push((name, v)).drop_last() =~= entries@);
                    assert(entries@.push((name, v)).last() == (name, v));
                }
                match rest_r {
                    Ok((rest, p)) => {
                        assert(vals + (seq![(name@, v@)] + rest) =~= vals.push((name@, v@))
                            + rest);
                    },
                    Err(_) => {},
                }
            }
            entries.push((name, v));
            proof {
                seen = seen.push(name@);
                assert((b.len() + 1 - entries@.len()) as nat == (fuel - 1) as nat);
            }
        }
    }
}

/// Whether some entry of the vector carries the given name.
#[verifier::loop_isolation(false)]
fn contains_name(entries: &Vec<(Vec<u8>, NBT)>, name: &Vec<u8>) -> (r: bool)
    ensures
        r == exists|j: int| 0 <= j < entries@.len() && (#[trigger] entries@[j]).0@ == name@,
{
    let mut j: usize = 0;
    while j < entries.len()
        invariant
            0 <= j <= entries@.len(),
            forall|k: int| 0 <= k < j ==> (#[trigger] entries@[k]).0@ != name@,
        decreases entries@.len() - j,
    {
        if bytes_eq(&entries[j].0, name) {
            return true;
        }
        j = j + 1;
    }
    false
}

impl NBT {
    /// Decode a whole document: one named compound framed exactly like a
    /// compound entry, returning the root's name and value. Bytes after the
    /// root's end marker are left unread.
    pub fn load_named(input: Vec<u8>, max_depth: usize) -> (res: Result<
        (Vec<u8>, NBT),
        NbtError,
    >)
        ensures
            match dec_doc(input@, max_depth as nat) {
                Ok(((nm, v), p)) => res matches Ok(pair) && pair.0@ == nm && pair.1@ == v,
                Err(e) => res == Err::<(Vec<u8>, NBT), NbtError>(e),
            },
    {
        let mut src = ReadWrapper::from(input);
        let t = match src.read_byte() {
            Ok(x) => x,
            Err(e) => {
                return Err(e);
            },
        };
        let name = match src.read_name() {
            Ok(x) => x,
            Err(e) => {
                return Err(e);
            },
        };
        if t == 0 || t > 10 {
            return Err(NbtError::UnknownTag);
        }
        if t != 10 {
            return Err(NbtError::TypeMismatch);
        }
        let v = match src.read_value(t, max_depth) {
            Ok(x) => x,
            Err(e) => {
                return Err(e);
            },
        };
        Ok((name, v))
    }

    /// Decode a whole document with the default depth limit, returning the
    /// root value and discarding the root's name.
    pub fn load(input: Vec<u8>) -> (res: Result<NBT, NbtError>)
        ensures
            match dec_doc(input@, DEFAULT_MAX_DEPTH as nat) {
                Ok(((nm, v), p)) => res matches Ok(r) && r@ == v,
                Err(e) => res == Err::<NBT, NbtError>(e),
            },
    {
        match NBT::load_named(input, DEFAULT_MAX_DEPTH) {
            Ok(pair) => Ok(pair.1),
            Err(e) => Err(e),
        }
    }
}

} // verus!
