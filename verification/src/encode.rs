//! The serializer: depth-first, canonical bytes, checked against the
//! specification encoding before anything is written.

use vstd::prelude::*;

use crate::be::be16;
use crate::be::be32;
use crate::be::be64;
use crate::enc::enc_doc;
use crate::enc::enc_entries;
use crate::enc::enc_entry;
use crate::enc::enc_items;
use crate::enc::enc_value;
use crate::enc::hom;
use crate::enc::hom_entries;
use crate::enc::hom_items;
use crate::enc::lemma_enc_entries_snoc;
use crate::enc::lemma_enc_items_snoc;
use crate::enc::lemma_hom_entries_index;
use crate::enc::lemma_hom_items_index;
use crate::enc::lemma_sizes_entries_index;
use crate::enc::lemma_sizes_items_index;
use crate::enc::lemma_vdepth_entries_le;
use crate::enc::lemma_vdepth_items_le;
use crate::enc::sizes_entries;
use crate::enc::sizes_fit;
use crate::enc::sizes_items;
use crate::enc::vdepth;
use crate::err::NbtError;
use crate::value::deep_view_entries;
use crate::value::deep_view_seq;
use crate::value::lemma_deep_view_entries;
use crate::value::lemma_deep_view_seq;
use crate::value::NBT;

verus! {

/// The nesting depth that `load` and `dump` permit when the caller does not
/// choose one.
pub const DEFAULT_MAX_DEPTH: usize = 512;

/// Append the two big-endian bytes of a 16-bit value.
fn push_be16(out: &mut Vec<u8>, x: u16)
    ensures
        final(out)@ == old(out)@ + be16(x),
{
    out.push((x >> 8) as u8);
    out.push(x as u8);
    assert(out@ =~= old(out)@ + be16(x));
}

/// Append the four big-endian bytes of a 32-bit value.
fn push_be32(out: &mut Vec<u8>, x: u32)
    ensures
        final(out)@ == old(out)@ + be32(x),
{
    out.push((x >> 24) as u8);
    out.push((x >> 16) as u8);
    out.push((x >> 8) as u8);
    out.push(x as u8);
    assert(out@ =~= old(out)@ + be32(x));
}

/// Append the eight big-endian bytes of a 64-bit value.
fn push_be64(out: &mut Vec<u8>, x: u64)
    ensures
        final(out)@ == old(out)@ + be64(x),
{
    out.push((x >> 56) as u8);
    out.push((x >> 48) as u8);
    out.push((x >> 40) as u8);
    out.push((x >> 32) as u8);
    out.push((x >> 24) as u8);
    out.push((x >> 16) as u8);
    out.push((x >> 8) as u8);
    out.push(x as u8);
    assert(out@ =~= old(out)@ + be64(x));
}

/// Append a byte slice verbatim.
#[verifier::loop_isolation(false)]
fn push_bytes(out: &mut Vec<u8>, b: &[u8])
    ensures
        final(out)@ == old(out)@ + b@,
{
    let mut i: usize = 0;
    while i < b.len()
        invariant
            0 <= i <= b@.len(),
            out@ == old(out)@ + b@.subrange(0, i as int),
        decreases b@.len() - i,
    {
        out.push(b[i]);
        assert(out@ =~= old(out)@ + b@.subrange(0, i + 1));
        i = i + 1;
    }
    assert(b@.subrange(0, b@.len() as int) =~= b@);
}

impl NBT {
    /// Whether the tree nests no deeper than `limit` levels of lists and
    /// compounds.
    #[verifier::loop_isolation(false)]
    pub fn depth_within(&self, limit: usize) -> (r: bool)
        ensures
            r == (vdepth(self@) <= limit),
        decreases self,
    {
        match self {
            NBT::List(_t, items) => {
                proof {
                    lemma_deep_view_seq(items@);
                }
                if limit == 0 {
                    return false;
                }
                let ghost vs = deep_view_seq(items@);
                let mut i: usize = 0;
                while i < items.len()
                    invariant
                        0 <= i <= items@.len(),
                        vs == deep_view_seq(items@),
                        decreases_to!(*self => items@),
                        vs.len() == items@.len(),
                        forall|j: int| 0 <= j < items@.len() ==> vs[j] == (#[trigger] items@[j]).deep_view(),
                        limit >= 1,
                        forall|j: int| 0 <= j < i ==> vdepth(#[trigger] vs[j]) <= limit - 1,
                    decreases items@.len() - i,
                {
                    proof {
                        assert(decreases_to!(items@ => items@[i as int]));
                        assert(decreases_to!(*self => items@[i as int]));
                    }
                    if !items[i].depth_within(limit - 1) {
                        proof {
                            assert(vs[i as int] == items@[i as int].deep_view());
                            lemma_vdepth_items_le(vs, (limit - 1) as nat);
                        }
                        return false;
                    }
                    i = i + 1;
                }
                proof {
                    lemma_vdepth_items_le(vs, (limit - 1) as nat);
                }
                true
            },
            NBT::Compound(entries) => {
                proof {
                    lemma_deep_view_entries(entries@);
                }
                if limit == 0 {
                    return false;
                }
                let ghost vs = deep_view_entries(entries@);
                let mut i: usize = 0;
                while i < entries.len()
                    invariant
                        0 <= i <= entries@.len(),
                        vs == deep_view_entries(entries@),
                        decreases_to!(*self => entries@),
                        vs.len() == entries@.len(),
                        forall|j: int|
                            0 <= j < entries@.len() ==> vs[j] == ((#[trigger] entries@[j]).0@,
                            entries@[j].1.deep_view()),
                        limit >= 1,
                        forall|j: int| 0 <= j < i ==> vdepth((#[trigger] vs[j]).1) <= limit - 1,
                    decreases entries@.len() - i,
                {
                    proof {
                        assert(decreases_to!(entries@ => entries@[i as int]));
                        assert(decreases_to!(entries@[i as int] => entries@[i as int].1));
                        assert(decreases_to!(*self => entries@[i as int].1));
                    }
                    if !entries[i].1.depth_within(limit - 1) {
                        proof {
                            assert(vs[i as int].1 == entries@[i as int].1.deep_view());
                            lemma_vdepth_entries_le(vs, (limit - 1) as nat);
                        }
                        return false;
                    }
                    i = i + 1;
                }
                proof {
                    lemma_vdepth_entries_le(vs, (limit - 1) as nat);
                }
                true
            },
            _ => true,
        }
    }

    /// Whether every list in the tree is homogeneous.
    #[verifier::loop_isolation(false)]
    pub fn hom_check(&self) -> (r: bool)
        ensures
            r == hom(self@),
        decreases self,
    {
        match self {
            NBT::List(t, items) => {
                proof {
                    lemma_deep_view_seq(items@);
                    lemma_hom_items_index(*t, deep_view_seq(items@));
                }
                let ghost vs = deep_view_seq(items@);
                let mut i: usize = 0;
                while i < items.len()
                    invariant
                        0 <= i <= items@.len(),
                        vs == deep_view_seq(items@),
                        decreases_to!(*self => items@),
                        vs.len() == items@.len(),
                        forall|j: int| 0 <= j < items@.len() ==> vs[j] == (#[trigger] items@[j]).deep_view(),
                        forall|j: int|
                            0 <= j < i ==> crate::value::spec_tag_of(#[trigger] vs[j]) == t && hom(
                                vs[j],
                            ),
                    decreases items@.len() - i,
                {
                    let elem = &items[i];
                    proof {
                        assert(decreases_to!(items@ => items@[i as int]));
                        assert(decreases_to!(*self => items@[i as int]));
                    }
                    if NBT::get_type_id(elem) != *t {
                        proof {
                            assert(vs[i as int] == items@[i as int].deep_view());
                            lemma_hom_items_index(*t, vs);
                        }
                        return false;
                    }
                    if !elem.hom_check() {
                        proof {
                            assert(vs[i as int] == items@[i as int].deep_view());
                            lemma_hom_items_index(*t, vs);
                        }
                        return false;
                    }
                    i = i + 1;
                }
                proof {
                    lemma_hom_items_index(*t, vs);
                }
                true
            },
            NBT::Compound(entries) => {
                proof {
                    lemma_deep_view_entries(entries@);
                    lemma_hom_entries_index(deep_view_entries(entries@));
                }
                let ghost vs = deep_view_entries(entries@);
                let mut i: usize = 0;
                while i < entries.len()
                    invariant
                        0 <= i <= entries@.len(),
                        vs == deep_view_entries(entries@),
                        decreases_to!(*self => entries@),
                        vs.len() == entries@.len(),
                        forall|j: int|
                            0 <= j < entries@.len() ==> vs[j] == ((#[trigger] entries@[j]).0@,
                            entries@[j].1.deep_view()),
                        forall|j: int| 0 <= j < i ==> hom((#[trigger] vs[j]).1),
                    decreases entries@.len() - i,
                {
                    proof {
                        assert(decreases_to!(entries@ => entries@[i as int]));
                        assert(decreases_to!(entries@[i as int] => entries@[i as int].1));
                        assert(decreases_to!(*self => entries@[i as int].1));
                    }
                    if !entries[i].1.hom_check() {
                        proof {
                            assert(vs[i as int].1 == entries@[i as int].1.deep_view());
                            lemma_hom_entries_index(vs);
                        }
                        return false;
                    }
                    i = i + 1;
                }
                proof {
                    lemma_hom_entries_index(vs);
                }
                true
            },
            _ => true,
        }
    }

    /// Whether every length in the tree fits the width of its wire frame.
    #[verifier::loop_isolation(false)]
    pub fn sizes_ok(&self) -> (r: bool)
        ensures
            r == sizes_fit(self@),
        decreases self,
    {
        match self {
            NBT::ByteArray(b) => b.len() < 0x8000_0000,
            NBT::Str(s) => s.len() <= 0xFFFF,
            NBT::List(_t, items) => {
                proof {
                    lemma_deep_view_seq(items@);
                    lemma_sizes_items_index(deep_view_seq(items@));
                }
                if items.len() >= 0x8000_0000 {
                    return false;
                }
                let ghost vs = deep_view_seq(items@);
                let mut i: usize = 0;
                while i < items.len()
                    invariant
                        0 <= i <= items@.len(),
                        vs == deep_view_seq(items@),
                        decreases_to!(*self => items@),
                        vs.len() == items@.len(),
                        forall|j: int| 0 <= j < items@.len() ==> vs[j] == (#[trigger] items@[j]).deep_view(),
                        forall|j: int| 0 <= j < i ==> sizes_fit(#[trigger] vs[j]),
                    decreases items@.len() - i,
                {
                    proof {
                        assert(decreases_to!(items@ => items@[i as int]));
                        assert(decreases_to!(*self => items@[i as int]));
                    }
                    if !items[i].sizes_ok() {
                        proof {
                            assert(vs[i as int] == items@[i as int].deep_view());
                            lemma_sizes_items_index(vs);
                        }
                        return false;
                    }
                    i = i + 1;
                }
                proof {
                    lemma_sizes_items_index(vs);
                }
                true
            },
            NBT::Compound(entries) => {
                proof {
                    lemma_deep_view_entries(entries@);
                    lemma_sizes_entries_index(deep_view_entries(entries@));
                }
                let ghost vs = deep_view_entries(entries@);
                let mut i: usize = 0;
                while i < entries.len()
                    invariant
                        0 <= i <= entries@.len(),
                        vs == deep_view_entries(entries@),
                        decreases_to!(*self => entries@),
                        vs.len() == entries@.len(),
                        forall|j: int|
                            0 <= j < entries@.len() ==> vs[j] == ((#[trigger] entries@[j]).0@,
                            entries@[j].1.deep_view()),
                        forall|j: int|
                            0 <= j < i ==> (#[trigger] vs[j]).0.len() <= 0xFFFF && sizes_fit(
                                vs[j].1,
                            ),
                    decreases entries@.len() - i,
                {
                    let pair = &entries[i];
                    if pair.0.len() > 0xFFFF {
                        proof {
                            lemma_sizes_entries_index(vs);
                            assert(vs[i as int].0 == entries@[i as int].0@);
                        }
                        return false;
                    }
                    proof {
                        assert(decreases_to!(entries@ => entries@[i as int]));
                        assert(decreases_to!(entries@[i as int] => entries@[i as int].1));
                        assert(decreases_to!(*self => entries@[i as int].1));
                    }
                    if !pair.1.sizes_ok() {
                        proof {
                            assert(vs[i as int].1 == entries@[i as int].1.deep_view());
                            lemma_sizes_entries_index(vs);
                        }
                        return false;
                    }
                    i = i + 1;
                }
                proof {
                    lemma_sizes_entries_index(vs);
                }
                true
            },
            _ => true,
        }
    }
}

/// Append the payload bytes of one value.
#[verifier::loop_isolation(false)]
fn write_value(v: &NBT, out: &mut Vec<u8>)
    requires
        sizes_fit(v@),
    ensures
        final(out)@ == old(out)@ + enc_value(v@),
    decreases v,
{
    match v {
        NBT::Byte(b) => {
            out.push(*b);
            assert(out@ =~= old(out)@ + enc_value(v@));
        },
        NBT::Short(x) => {
            push_be16(out, *x as u16);
        },
        NBT::Int(x) => {
            push_be32(out, *x as u32);
        },
        NBT::Long(x) => {
            push_be64(out, *x as u64);
        },
        NBT::Float(u) => {
            push_be32(out, *u);
        },
        NBT::Double(u) => {
            push_be64(out, *u);
        },
        NBT::ByteArray(b) => {
            push_be32(out, b.len() as u32);
            let ghost mid = out@;
            push_bytes(out, b.as_slice());
            assert(out@ =~= old(out)@ + enc_value(v@));
        },
        NBT::Str(s) => {
            push_be16(out, s.len() as u16);
            push_bytes(out, s.as_slice());
            assert(out@ =~= old(out)@ + enc_value(v@));
        },
        NBT::List(t, items) => {
            proof {
                lemma_deep_view_seq(items@);
                lemma_sizes_items_index(deep_view_seq(items@));
            }
            out.push(*t);
            push_be32(out, items.len() as u32);
            let ghost vs = deep_view_seq(items@);
            let ghost header = out@;
            proof {
                assert(enc_items(vs.take(0)) =~= Seq::<u8>::empty());
                assert(header =~= header + enc_items(vs.take(0)));
            }
            let mut i: usize = 0;
            while i < items.len()
                invariant
                    0 <= i <= items@.len(),
                    vs == deep_view_seq(items@),
                    decreases_to!(*v => items@),
                    vs.len() == items@.len(),
                    forall|j: int| 0 <= j < items@.len() ==> vs[j] == (#[trigger] items@[j]).deep_view(),
                    forall|j: int| 0 <= j < vs.len() ==> sizes_fit(#[trigger] vs[j]),
                    out@ == header + enc_items(vs.take(i as int)),
                decreases items@.len() - i,
            {
                proof {
                    assert(decreases_to!(items@ => items@[i as int]));
                    assert(decreases_to!(*v => items@[i as int]));
                    assert(vs[i as int] == items@[i as int].deep_view());
                }
                write_value(&items[i], out);
                proof {
                    assert(vs.take(i as int).push(vs[i as int]) =~= vs.take(i + 1));
                    lemma_enc_items_snoc(vs.take(i as int), vs[i as int]);
                    assert(out@ =~= header + enc_items(vs.take(i + 1)));
                }
                i = i + 1;
            }
            proof {
                assert(vs.take(vs.len() as int) =~= vs);
                assert(out@ =~= old(out)@ + enc_value(v@));
            }
        },
        NBT::Compound(entries) => {
            proof {
                lemma_deep_view_entries(entries@);
                lemma_sizes_entries_index(deep_view_entries(entries@));
            }
            let ghost vs = deep_view_entries(entries@);
            let ghost start = out@;
            proof {
                assert(enc_entries(vs.take(0)) =~= Seq::<u8>::empty());
                assert(start =~= start + enc_entries(vs.take(0)));
            }
            let mut i: usize = 0;
            while i < entries.len()
                invariant
                    0 <= i <= entries@.len(),
                    vs == deep_view_entries(entries@),
                    decreases_to!(*v => entries@),
                    vs.len() == entries@.len(),
                    forall|j: int|
                        0 <= j < entries@.len() ==> vs[j] == ((#[trigger] entries@[j]).0@,
                        entries@[j].1.deep_view()),
                    forall|j: int|
                        0 <= j < vs.len() ==> (#[trigger] vs[j]).0.len() <= 0xFFFF && sizes_fit(
                            vs[j].1,
                        ),
                    out@ == start + enc_entries(vs.take(i as int)),
                    start == old(out)@,
                decreases entries@.len() - i,
            {
                let pair = &entries[i];
                let ghost before = out@;
                out.push(NBT::get_type_id(&pair.1));
                push_be16(out, pair.0.len() as u16);
                push_bytes(out, pair.0.as_slice());
                proof {
                    assert(decreases_to!(entries@ => entries@[i as int]));
                    assert(decreases_to!(entries@[i as int] => entries@[i as int].1));
                    assert(decreases_to!(*v => entries@[i as int].1));
                }
                write_value(&pair.1, out);
                proof {
                    assert(vs[i as int] == (entries@[i as int].0@, entries@[i as int].1.deep_view()));
                    assert(out@ =~= before + enc_entry(vs[i as int].0, vs[i as int].1));
                    assert(vs.take(i as int).push(vs[i as int]) =~= vs.take(i + 1));
                    lemma_enc_entries_snoc(vs.take(i as int), vs[i as int].0, vs[i as int].1);
                    assert(out@ =~= start + enc_entries(vs.take(i + 1)));
                }
                i = i + 1;
            }
            out.push(0u8);
            proof {
                assert(vs.take(vs.len() as int) =~= vs);
                assert(out@ =~= old(out)@ + enc_value(v@));
            }
        },
    }
}

impl NBT {
    /// Encode this tree as a document whose root carries the given name:
    /// the root's tag id, the length-prefixed name, then the root's payload.
    ///
    /// Fails fast instead of emitting malformed bytes: the root must be a
    /// compound, the tree must nest within `max_depth`, and every list must
    /// be homogeneous. Every length in the tree must fit the width of its
    /// wire frame, which `sizes_ok` checks.
    pub fn dump_named(&self, name: &[u8], max_depth: usize) -> (res: Result<Vec<u8>, NbtError>)
        requires
            name@.len() <= 0xFFFF,
            sizes_fit(self@),
        ensures
            !(self@ is Compound) ==> res == Err::<Vec<u8>, NbtError>(NbtError::TypeMismatch),
            self@ is Compound && vdepth(self@) > max_depth ==> res == Err::<Vec<u8>, NbtError>(
                NbtError::DepthLimit,
            ),
            self@ is Compound && vdepth(self@) <= max_depth && !hom(self@) ==> res == Err::<
                Vec<u8>,
                NbtError,
            >(NbtError::HeterogeneousList),
            self@ is Compound && vdepth(self@) <= max_depth && hom(self@) ==> (res matches Ok(b)
                && b@ == enc_doc(name@, self@)),
    {
        if !self.is_compound() {
            return Err(NbtError::TypeMismatch);
        }
        if !self.depth_within(max_depth) {
            return Err(NbtError::DepthLimit);
        }
        if !self.hom_check() {
            return Err(NbtError::HeterogeneousList);
        }
        let mut out: Vec<u8> = Vec::new();
        out.push(NBT::get_type_id(self));
        push_be16(&mut out, name.len() as u16);
        push_bytes(&mut out, name);
        write_value(self, &mut out);
        proof {
            assert(out@ =~= enc_doc(name@, self@));
        }
        Ok(out)
    }

    /// Encode this tree as a document whose root has the empty name and the
    /// default depth limit. The errors are those of `dump_named`, and every
    /// length in the tree must fit the width of its wire frame, which
    /// `sizes_ok` checks.
    pub fn dump(&self) -> (res: Result<Vec<u8>, NbtError>)
        requires
            sizes_fit(self@),
        ensures
            !(self@ is Compound) ==> res == Err::<Vec<u8>, NbtError>(NbtError::TypeMismatch),
            self@ is Compound && vdepth(self@) > DEFAULT_MAX_DEPTH ==> res == Err::<
                Vec<u8>,
                NbtError,
            >(NbtError::DepthLimit),
            self@ is Compound && vdepth(self@) <= DEFAULT_MAX_DEPTH && !hom(self@) ==> res == Err::<
                Vec<u8>,
                NbtError,
            >(NbtError::HeterogeneousList),
            self@ is Compound && vdepth(self@) <= DEFAULT_MAX_DEPTH && hom(self@) ==> (res matches Ok(
                b,
            ) && b@ == enc_doc(Seq::<u8>::empty(), self@)),
    {
        let name: [u8; 0] = [];
        let res = self.dump_named(name.as_slice(), DEFAULT_MAX_DEPTH);
        proof {
            assert(name@ =~= Seq::<u8>::empty());
        }
        res
    }
}

} // verus!
