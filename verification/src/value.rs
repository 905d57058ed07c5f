//! The tagged tree of values, its mathematical model, and the accessors.

use vstd::prelude::*;

use crate::err::NbtError;

verus! {

/// A decoded tree. Scalars carry their payload directly; `Float` and
/// `Double` carry the big-endian bit pattern of the 32-bit or 64-bit IEEE
/// value, so that trees round-trip bit-exactly. `Str` carries UTF-8 bytes.
/// A `List` records its declared element tag id even when empty, because
/// the wire format frames empty lists with one. A `Compound` is an ordered
/// sequence of `(name, value)` pairs; insertion order is significant and
/// names are unique in any tree the decoder produces.
#[derive(Debug, PartialEq, Eq)]
pub enum NBT {
    Byte(u8),
    Short(i16),
    Int(i32),
    Long(i64),
    Float(u32),
    Double(u64),
    ByteArray(Vec<u8>),
    Str(Vec<u8>),
    List(u8, Vec<NBT>),
    Compound(Vec<(Vec<u8>, NBT)>),
}

/// The mathematical model of a tree: the same shape as `NBT`, with
/// sequences in place of vectors.
pub enum Val {
    Byte(u8),
    Short(i16),
    Int(i32),
    Long(i64),
    Float(u32),
    Double(u64),
    ByteArray(Seq<u8>),
    Str(Seq<u8>),
    List(u8, Seq<Val>),
    Compound(Seq<(Seq<u8>, Val)>),
}

impl NBT {
    /// The model of this tree.
    pub open spec fn deep_view(self) -> Val
        decreases self, 1int,
    {
        match self {
            NBT::Byte(b) => Val::Byte(b),
            NBT::Short(x) => Val::Short(x),
            NBT::Int(x) => Val::Int(x),
            NBT::Long(x) => Val::Long(x),
            NBT::Float(x) => Val::Float(x),
            NBT::Double(x) => Val::Double(x),
            NBT::ByteArray(b) => Val::ByteArray(b@),
            NBT::Str(s) => Val::Str(s@),
            NBT::List(t, items) => Val::List(t, deep_view_seq(items@)),
            NBT::Compound(entries) => Val::Compound(deep_view_entries(entries@)),
        }
    }
}

/// The models of a sequence of trees, in order.
pub open spec fn deep_view_seq(s: Seq<NBT>) -> Seq<Val>
    decreases s, 0int,
{
    if s.len() == 0 {
        Seq::empty()
    } else {
        deep_view_seq(s.drop_last()).push(s.last().deep_view())
    }
}

/// The models of a sequence of named trees, in order.
pub open spec fn deep_view_entries(s: Seq<(Vec<u8>, NBT)>) -> Seq<(Seq<u8>, Val)>
    decreases s, 0int,
{
    if s.len() == 0 {
        Seq::empty()
    } else {
        deep_view_entries(s.drop_last()).push((s.last().0@, s.last().1.deep_view()))
    }
}

/// The model of a sequence of trees is the sequence of their models.
pub proof fn lemma_deep_view_seq(s: Seq<NBT>)
    ensures
        deep_view_seq(s).len() == s.len(),
        forall|i: int| 0 <= i < s.len() ==> deep_view_seq(s)[i] == (#[trigger] s[i]).deep_view(),
    decreases s.len(),
{
    if s.len() > 0 {
        lemma_deep_view_seq(s.drop_last());
        assert forall|i: int|
            0 <= i < s.len() implies deep_view_seq(s)[i] == (#[trigger] s[i]).deep_view() by {
            if i < s.len() - 1 {
                assert(s.drop_last()[i] == s[i]);
                assert(deep_view_seq(s)[i] == deep_view_seq(s.drop_last())[i]);
            } else {
                assert(s.last() == s[i]);
            }
        }
    }
}

/// The model of a sequence of named trees, entry by entry.
pub proof fn lemma_deep_view_entries(s: Seq<(Vec<u8>, NBT)>)
    ensures
        deep_view_entries(s).len() == s.len(),
        forall|i: int|
            0 <= i < s.len() ==> deep_view_entries(s)[i] == ((#[trigger] s[i]).0@,
            s[i].1.deep_view()),
    decreases s.len(),
{
    if s.len() > 0 {
        lemma_deep_view_entries(s.drop_last());
        assert forall|i: int|
            0 <= i < s.len() implies deep_view_entries(s)[i] == ((#[trigger] s[i]).0@,
        s[i].1.deep_view()) by {
            if i < s.len() - 1 {
                assert(s.drop_last()[i] == s[i]);
                assert(deep_view_entries(s)[i] == deep_view_entries(s.drop_last())[i]);
            } else {
                assert(s.last() == s[i]);
            }
        }
    }
}

impl View for NBT {
    type V = Val;

    open spec fn view(&self) -> Val {
        self.deep_view()
    }
}

/// The wire tag id of each variant.
pub open spec fn spec_tag_of(v: Val) -> u8 {
    match v {
        Val::Byte(_) => 1,
        Val::Short(_) => 2,
        Val::Int(_) => 3,
        Val::Long(_) => 4,
        Val::Float(_) => 5,
        Val::Double(_) => 6,
        Val::ByteArray(_) => 7,
        Val::Str(_) => 8,
        Val::List(_, _) => 9,
        Val::Compound(_) => 10,
    }
}

impl NBT {
    /// The wire tag id of this value's variant.
    pub fn get_type_id(tag: &NBT) -> (t: u8)
        ensures
            t == spec_tag_of(tag@),
    {
        match tag {
            NBT::Byte(_) => 1u8,
            NBT::Short(_) => 2u8,
            NBT::Int(_) => 3u8,
            NBT::Long(_) => 4u8,
            NBT::Float(_) => 5u8,
            NBT::Double(_) => 6u8,
            NBT::ByteArray(_) => 7u8,
            NBT::Str(_) => 8u8,
            NBT::List(_, _) => 9u8,
            NBT::Compound(_) => 10u8,
        }
    }

    /// A fresh value: does nothing, kept for compatibility with callers
    /// that probe for the constructor.
    pub fn new() {
    }

    /// Whether this value is a compound.
    pub fn is_compound(&self) -> (r: bool)
        ensures
            r == (self@ is Compound),
    {
        match self {
            NBT::Compound(_) => true,
            _ => false,
        }
    }
}

/// The value under the first entry carrying the given name, if any.
pub open spec fn lookup(es: Seq<(Seq<u8>, Val)>, name: Seq<u8>) -> Option<Val>
    decreases es.len(),
{
    if es.len() == 0 {
        None
    } else if es[0].0 == name {
        Some(es[0].1)
    } else {
        lookup(es.skip(1), name)
    }
}

/// The index of the first entry carrying the given name, or the number of
/// entries when none does.
pub open spec fn lookup_idx(es: Seq<(Seq<u8>, Val)>, name: Seq<u8>) -> int
    decreases es.len(),
{
    if es.len() == 0 {
        0
    } else if es[0].0 == name {
        0
    } else {
        1 + lookup_idx(es.skip(1), name)
    }
}

/// How the looked-up value relates to the index of its entry.
pub proof fn lemma_lookup_idx(es: Seq<(Seq<u8>, Val)>, name: Seq<u8>)
    ensures
        0 <= lookup_idx(es, name) <= es.len(),
        lookup_idx(es, name) < es.len() ==> es[lookup_idx(es, name)].0 == name && lookup(es, name)
            == Some(es[lookup_idx(es, name)].1),
        forall|j: int| 0 <= j < lookup_idx(es, name) ==> (#[trigger] es[j]).0 != name,
        lookup_idx(es, name) == es.len() ==> lookup(es, name) is None,
    decreases es.len(),
{
    if es.len() > 0 && es[0].0 != name {
        lemma_lookup_idx(es.skip(1), name);
        assert forall|j: int| 0 <= j < lookup_idx(es, name) implies (#[trigger] es[j]).0
            != name by {
            if j > 0 {
                assert(es.skip(1)[j - 1] == es[j]);
            }
        }
    }
}

/// The model of a sequence of named trees, in a form the solver applies on
/// its own wherever `deep_view_entries` appears.
pub broadcast proof fn lemma_deep_view_entries_auto(s: Seq<(Vec<u8>, NBT)>)
    ensures
        (#[trigger] deep_view_entries(s)).len() == s.len(),
        forall|i: int|
            0 <= i < s.len() ==> #[trigger] deep_view_entries(s)[i] == (s[i].0@,
            s[i].1.deep_view()),
{
    lemma_deep_view_entries(s);
}

/// Whether two byte vectors hold the same bytes.
#[verifier::loop_isolation(false)]
pub(crate) fn bytes_eq(a: &Vec<u8>, b: &Vec<u8>) -> (r: bool)
    ensures
        r == (a@ == b@),
{
    if a.len() != b.len() {
        return false;
    }
    let mut i: usize = 0;
    while i < a.len()
        invariant
            0 <= i <= a@.len(),
            a@.len() == b@.len(),
            forall|k: int| 0 <= k < i ==> a@[k] == b@[k],
        decreases a@.len() - i,
    {
        if a[i] != b[i] {
            return false;
        }
        i = i + 1;
    }
    proof {
        assert(a@ =~= b@);
    }
    true
}

/// Whether a byte vector holds the same bytes as a slice.
#[verifier::loop_isolation(false)]
fn bytes_eq_slice(a: &Vec<u8>, b: &[u8]) -> (r: bool)
    ensures
        r == (a@ == b@),
{
    if a.len() != b.len() {
        return false;
    }
    let mut i: usize = 0;
    while i < a.len()
        invariant
            0 <= i <= a@.len(),
            a@.len() == b@.len(),
            forall|k: int| 0 <= k < i ==> a@[k] == b@[k],
        decreases a@.len() - i,
    {
        if a[i] != *vstd::slice::slice_index_get(b, i) {
            return false;
        }
        i = i + 1;
    }
    proof {
        assert(a@ =~= b@);
    }
    true
}

impl NBT {
    /// The entries of a compound, or a type mismatch for any other variant.
    pub fn as_compound(&self) -> (res: Result<&Vec<(Vec<u8>, NBT)>, NbtError>)
        ensures
            match res {
                Ok(m) => self@ == Val::Compound(deep_view_entries(m@)),
                Err(e) => e == NbtError::TypeMismatch && !(self@ is Compound),
            },
    {
        match self {
            NBT::Compound(v) => Ok(v),
            _ => Err(NbtError::TypeMismatch),
        }
    }

    /// The entries of a compound for mutation, or a type mismatch for any
    /// other variant, which is then left unchanged.
    pub fn as_mut_compound(&mut self) -> (res: Result<&mut Vec<(Vec<u8>, NBT)>, NbtError>)
        ensures
            !(old(self)@ is Compound) ==> (res matches Err(e) && e == NbtError::TypeMismatch
                && *final(self) == *old(self)),
            old(self)@ is Compound ==> (res matches Ok(m) && *old(self) == NBT::Compound(*m)
                && *final(self) == NBT::Compound(*final(m))),
    {
        match self {
            NBT::Compound(v) => Ok(v),
            _ => Err(NbtError::TypeMismatch),
        }
    }

    /// The elements of a list, or a type mismatch for any other variant.
    pub fn as_list(&self) -> (res: Result<&Vec<NBT>, NbtError>)
        ensures
            match res {
                Ok(items) => self@ matches Val::List(t, vs) && deep_view_seq(items@) == vs,
                Err(e) => e == NbtError::TypeMismatch && !(self@ is List),
            },
    {
        match self {
            NBT::List(_t, v) => Ok(v),
            _ => Err(NbtError::TypeMismatch),
        }
    }

    /// The value under the given name in a compound; nothing for a missing
    /// name or any other variant.
    #[verifier::loop_isolation(false)]
    pub fn get(&self, name: &[u8]) -> (res: Option<&NBT>)
        ensures
            match res {
                Some(r) => self@ matches Val::Compound(es) && lookup(es, name@) == Some(r@),
                None => !(self@ is Compound) || (self@ matches Val::Compound(es) && lookup(
                    es,
                    name@,
                ) is None),
            },
    {
        match self {
            NBT::Compound(entries) => {
                proof {
                    lemma_deep_view_entries(entries@);
                    lemma_lookup_idx(deep_view_entries(entries@), name@);
                }
                let ghost vs = deep_view_entries(entries@);
                let ghost idx = lookup_idx(vs, name@);
                let mut i: usize = 0;
                while i < entries.len()
                    invariant
                        0 <= i <= entries@.len(),
                        i <= idx,
                    decreases entries@.len() - i,
                {
                    if bytes_eq_slice(&entries[i].0, name) {
                        proof {
                            assert(vs[i as int].0 == name@);
                            assert(idx <= i) by {
                                if i < idx {
                                    assert(vs[i as int].0 != name@);
                                }
                            }
                        }
                        return Some(&entries[i].1);
                    }
                    proof {
                        assert(vs[i as int].0 != name@);
                        assert(idx != i);
                    }
                    i = i + 1;
                }
                proof {
                    assert(idx == entries@.len());
                }
                None
            },
            _ => None,
        }
    }

    /// The value under the given name in a compound, for mutation; nothing
    /// for a missing name or any other variant, which are left unchanged.
    /// When the name is found, the compound afterwards holds, at the same
    /// position and under the same name, whatever the caller leaves behind
    /// through the returned reference, and every other entry is unchanged.
    #[verifier::loop_isolation(false)]
    pub fn get_mut(&mut self, name: &[u8]) -> (res: Option<&mut NBT>)
        ensures
            !(old(self)@ is Compound) ==> (res is None && *final(self) == *old(self)),
            old(self)@ matches Val::Compound(es) ==> (lookup(es, name@) is None ==> (res is None
                && *final(self) == *old(self))),
            old(self)@ matches Val::Compound(es) ==> (lookup(es, name@) is Some ==> (res matches Some(
                r,
            ) && (*r)@ == lookup(es, name@)->0)),
            *old(self) matches NBT::Compound(ev) ==> (res matches Some(r)
                ==> (*final(self) matches NBT::Compound(ev2) && ev2@ =~= ev@.update(
                lookup_idx(deep_view_entries(ev@), name@),
                (ev@[lookup_idx(deep_view_entries(ev@), name@)].0, *final(r)),
            ))),
    {
        broadcast use lemma_deep_view_entries_auto;

        match self {
            NBT::Compound(entries) => {
                proof {
                    lemma_lookup_idx(deep_view_entries(entries@), name@);
                }
                let ghost vs = deep_view_entries(entries@);
                let ghost idx = lookup_idx(vs, name@);
                let ghost ev0 = *entries;
                let n = entries.len();
                let mut i: usize = 0;
                while i < n
                    invariant
                        0 <= i <= entries@.len(),
                        n == entries@.len(),
                        i <= idx,
                        *entries == ev0,
                        vs == deep_view_entries(entries@),
                        vs.len() == entries@.len(),
                        forall|j: int|
                            0 <= j < entries@.len() ==> vs[j] == ((#[trigger] entries@[j]).0@,
                            entries@[j].1.deep_view()),
                        idx == lookup_idx(vs, name@),
                        forall|j: int| 0 <= j < idx ==> (#[trigger] vs[j]).0 != name@,
                        idx < vs.len() ==> vs[idx].0 == name@ && lookup(vs, name@) == Some(
                            vs[idx].1,
                        ),
                        idx == vs.len() ==> lookup(vs, name@) is None,
                    decreases entries@.len() - i,
                {
                    if bytes_eq_slice(&entries[i].0, name) {
                        proof {
                            assert(vs[i as int].0 == name@);
                            assert(idx <= i) by {
                                if i < idx {
                                    assert(vs[i as int].0 != name@);
                                }
                            }
                            assert(idx == i);
                        }
                        proof {
                            assert(vs[i as int].1 == lookup(vs, name@)->0);
                        }
                        let r = &mut entries[i].1;
                        return Some(r);
                    }
                    proof {
                        assert(vs[i as int].0 != name@);
                        assert(idx != i);
                    }
                    i = i + 1;
                }
                proof {
                    assert(idx == entries@.len());
                }
                None
            },
            _ => None,
        }
    }
}

} // verus!
