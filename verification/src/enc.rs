//! The canonical encoding of a tree, as specification functions, together
//! with the shape predicates the codec's contracts are stated over.

use vstd::prelude::*;

use crate::be::be16;
use crate::be::be32;
use crate::be::be64;
use crate::utf8::is_utf8;
use crate::value::spec_tag_of;
use crate::value::Val;

verus! {

/// The payload bytes of one value: exactly what follows its tag id and, for
/// compound entries, its name on the wire.
pub open spec fn enc_value(v: Val) -> Seq<u8>
    decreases v, 1int,
{
    match v {
        Val::Byte(b) => seq![b],
        Val::Short(x) => be16(x as u16),
        Val::Int(x) => be32(x as u32),
        Val::Long(x) => be64(x as u64),
        Val::Float(u) => be32(u),
        Val::Double(u) => be64(u),
        Val::ByteArray(b) => be32(b.len() as u32) + b,
        Val::Str(s) => be16(s.len() as u16) + s,
        Val::List(t, items) => seq![t] + be32(items.len() as u32) + enc_items(items),
        Val::Compound(es) => enc_entries(es) + seq![0u8],
    }
}

/// The payloads of a list's elements, back to back, with no per-element
/// framing.
pub open spec fn enc_items(s: Seq<Val>) -> Seq<u8>
    decreases s, 0int,
{
    if s.len() == 0 {
        Seq::empty()
    } else {
        enc_value(s[0]) + enc_items(s.skip(1))
    }
}

/// One framed compound entry: tag id, length-prefixed name, payload.
pub open spec fn enc_entry(name: Seq<u8>, v: Val) -> Seq<u8>
    decreases v, 2int,
{
    seq![spec_tag_of(v)] + be16(name.len() as u16) + name + enc_value(v)
}

/// A compound's entries, framed and in order, without the end marker.
pub open spec fn enc_entries(es: Seq<(Seq<u8>, Val)>) -> Seq<u8>
    decreases es, 0int,
{
    if es.len() == 0 {
        Seq::empty()
    } else {
        enc_entry(es[0].0, es[0].1) + enc_entries(es.skip(1))
    }
}

/// A whole document: the root is framed exactly like a compound entry.
pub open spec fn enc_doc(name: Seq<u8>, v: Val) -> Seq<u8> {
    enc_entry(name, v)
}

/// Every list in the tree is homogeneous: each element's variant matches
/// the list's declared element tag.
pub open spec fn hom(v: Val) -> bool
    decreases v, 1int,
{
    match v {
        Val::List(t, items) => hom_items(t, items),
        Val::Compound(es) => hom_entries(es),
        _ => true,
    }
}

/// Homogeneity of a list body against a declared element tag.
pub open spec fn hom_items(t: u8, s: Seq<Val>) -> bool
    decreases s, 0int,
{
    s.len() == 0 || (spec_tag_of(s[0]) == t && hom(s[0]) && hom_items(t, s.skip(1)))
}

/// Homogeneity inside each entry of a compound.
pub open spec fn hom_entries(es: Seq<(Seq<u8>, Val)>) -> bool
    decreases es, 0int,
{
    es.len() == 0 || (hom(es[0].1) && hom_entries(es.skip(1)))
}

/// Every length in the tree fits the width of its frame: names and strings
/// a 2-byte length, byte arrays and list counts a positive 4-byte signed
/// length.
pub open spec fn sizes_fit(v: Val) -> bool
    decreases v, 1int,
{
    match v {
        Val::ByteArray(b) => b.len() < 0x8000_0000,
        Val::Str(s) => s.len() <= 0xFFFF,
        Val::List(t, items) => items.len() < 0x8000_0000 && sizes_items(items),
        Val::Compound(es) => sizes_entries(es),
        _ => true,
    }
}

/// Frame fit of each element of a list body.
pub open spec fn sizes_items(s: Seq<Val>) -> bool
    decreases s, 0int,
{
    s.len() == 0 || (sizes_fit(s[0]) && sizes_items(s.skip(1)))
}

/// Frame fit of each entry of a compound: the name and the value.
pub open spec fn sizes_entries(es: Seq<(Seq<u8>, Val)>) -> bool
    decreases es, 0int,
{
    es.len() == 0 || (es[0].0.len() <= 0xFFFF && sizes_fit(es[0].1) && sizes_entries(es.skip(1)))
}

/// Whether some entry carries the given name.
pub open spec fn has_name(es: Seq<(Seq<u8>, Val)>, name: Seq<u8>) -> bool {
    exists|i: int| 0 <= i < es.len() && es[i].0 == name
}

/// Every string payload and every name in the tree is well-formed UTF-8,
/// and the names within each compound are pairwise distinct.
pub open spec fn text_ok(v: Val) -> bool
    decreases v, 1int,
{
    match v {
        Val::Str(s) => is_utf8(s),
        Val::List(t, items) => text_items(items),
        Val::Compound(es) => text_entries(es),
        _ => true,
    }
}

/// Text well-formedness of each element of a list body.
pub open spec fn text_items(s: Seq<Val>) -> bool
    decreases s, 0int,
{
    s.len() == 0 || (text_ok(s[0]) && text_items(s.skip(1)))
}

/// Text well-formedness of a compound body: each name is UTF-8 and occurs
/// once, and each value is text well-formed.
pub open spec fn text_entries(es: Seq<(Seq<u8>, Val)>) -> bool
    decreases es, 0int,
{
    es.len() == 0 || (is_utf8(es[0].0) && !has_name(es.skip(1), es[0].0) && text_ok(es[0].1)
        && text_entries(es.skip(1)))
}

/// A tree the decoder could have produced: frames fit, lists are
/// homogeneous, text is valid and names are unique.
pub open spec fn wf(v: Val) -> bool {
    sizes_fit(v) && hom(v) && text_ok(v)
}

/// Nesting depth: the number of list or compound frames on the deepest
/// path. A scalar has depth zero.
pub open spec fn vdepth(v: Val) -> nat
    decreases v, 1int,
{
    match v {
        Val::List(t, items) => 1 + vdepth_items(items),
        Val::Compound(es) => 1 + vdepth_entries(es),
        _ => 0,
    }
}

/// The deepest nesting among a list body's elements.
pub open spec fn vdepth_items(s: Seq<Val>) -> nat
    decreases s, 0int,
{
    if s.len() == 0 {
        0
    } else if vdepth(s[0]) >= vdepth_items(s.skip(1)) {
        vdepth(s[0])
    } else {
        vdepth_items(s.skip(1))
    }
}

/// The deepest nesting among a compound body's values.
pub open spec fn vdepth_entries(es: Seq<(Seq<u8>, Val)>) -> nat
    decreases es, 0int,
{
    if es.len() == 0 {
        0
    } else if vdepth(es[0].1) >= vdepth_entries(es.skip(1)) {
        vdepth(es[0].1)
    } else {
        vdepth_entries(es.skip(1))
    }
}

/// Appending an element to a list body appends its payload.
pub proof fn lemma_enc_items_snoc(s: Seq<Val>, x: Val)
    ensures
        enc_items(s.push(x)) == enc_items(s) + enc_value(x),
    decreases s.len(),
{
    if s.len() == 0 {
        assert(s.push(x)[0] == x);
        assert(s.push(x).skip(1) =~= Seq::<Val>::empty());
        assert(enc_items(Seq::<Val>::empty()) =~= Seq::<u8>::empty());
        assert(enc_items(s.push(x)) =~= enc_value(x) + enc_items(Seq::<Val>::empty()));
        assert(enc_items(s.push(x)) =~= enc_value(x));
        assert(enc_items(s) + enc_value(x) =~= enc_value(x));
    } else {
        assert(s.push(x).skip(1) =~= s.skip(1).push(x));
        lemma_enc_items_snoc(s.skip(1), x);
        assert(s.push(x)[0] == s[0]);
        assert(enc_items(s) + enc_value(x) =~= enc_value(s[0]) + (enc_items(s.skip(1))
            + enc_value(x)));
    }
}

/// Appending an entry to a compound body appends its frame.
pub proof fn lemma_enc_entries_snoc(es: Seq<(Seq<u8>, Val)>, name: Seq<u8>, x: Val)
    ensures
        enc_entries(es.push((name, x))) == enc_entries(es) + enc_entry(name, x),
    decreases es.len(),
{
    if es.len() == 0 {
        assert(es.push((name, x))[0] == (name, x));
        assert(es.push((name, x)).skip(1) =~= Seq::<(Seq<u8>, Val)>::empty());
        assert(enc_entries(Seq::<(Seq<u8>, Val)>::empty()) =~= Seq::<u8>::empty());
        assert(enc_entries(es.push((name, x))) =~= enc_entry(name, x) + enc_entries(
            Seq::<(Seq<u8>, Val)>::empty(),
        ));
        assert(enc_entries(es.push((name, x))) =~= enc_entry(name, x));
        assert(enc_entries(es) + enc_entry(name, x) =~= enc_entry(name, x));
    } else {
        assert(es.push((name, x)).skip(1) =~= es.skip(1).push((name, x)));
        lemma_enc_entries_snoc(es.skip(1), name, x);
        assert(es.push((name, x))[0] == es[0]);
        assert(enc_entries(es) + enc_entry(name, x) =~= enc_entry(es[0].0, es[0].1) + (enc_entries(
            es.skip(1),
        ) + enc_entry(name, x)));
    }
}

/// A list body is homogeneous exactly when each element's tag matches and
/// each element is itself homogeneous.
pub proof fn lemma_hom_items_index(t: u8, s: Seq<Val>)
    ensures
        hom_items(t, s) <==> (forall|i: int|
            0 <= i < s.len() ==> spec_tag_of(#[trigger] s[i]) == t && hom(s[i])),
    decreases s.len(),
{
    if s.len() > 0 {
        lemma_hom_items_index(t, s.skip(1));
        if hom_items(t, s) {
            assert forall|i: int| 0 <= i < s.len() implies spec_tag_of(#[trigger] s[i]) == t
                && hom(s[i]) by {
                if i > 0 {
                    assert(s.skip(1)[i - 1] == s[i]);
                }
            }
        }
        if forall|i: int| 0 <= i < s.len() ==> spec_tag_of(#[trigger] s[i]) == t && hom(s[i]) {
            assert forall|i: int| 0 <= i < s.skip(1).len() implies spec_tag_of(
                #[trigger] s.skip(1)[i],
            ) == t && hom(s.skip(1)[i]) by {
                assert(s.skip(1)[i] == s[i + 1]);
            }
            assert(spec_tag_of(s[0]) == t && hom(s[0]));
        }
    }
}

/// A compound body is homogeneous exactly when each entry's value is.
pub proof fn lemma_hom_entries_index(es: Seq<(Seq<u8>, Val)>)
    ensures
        hom_entries(es) <==> (forall|i: int| 0 <= i < es.len() ==> hom(#[trigger] es[i].1)),
    decreases es.len(),
{
    if es.len() > 0 {
        lemma_hom_entries_index(es.skip(1));
        if hom_entries(es) {
            assert forall|i: int| 0 <= i < es.len() implies hom(#[trigger] es[i].1) by {
                if i > 0 {
                    assert(es.skip(1)[i - 1] == es[i]);
                }
            }
        }
        if forall|i: int| 0 <= i < es.len() ==> hom(#[trigger] es[i].1) {
            assert forall|i: int| 0 <= i < es.skip(1).len() implies hom(
                #[trigger] es.skip(1)[i].1,
            ) by {
                assert(es.skip(1)[i] == es[i + 1]);
            }
            assert(hom(es[0].1));
        }
    }
}

/// A list body's nesting stays within a bound exactly when each element's
/// nesting does.
pub proof fn lemma_vdepth_items_le(s: Seq<Val>, k: nat)
    ensures
        (vdepth_items(s) <= k) <==> (forall|i: int|
            0 <= i < s.len() ==> vdepth(#[trigger] s[i]) <= k),
    decreases s.len(),
{
    if s.len() > 0 {
        lemma_vdepth_items_le(s.skip(1), k);
        if vdepth_items(s) <= k {
            assert forall|i: int| 0 <= i < s.len() implies vdepth(#[trigger] s[i]) <= k by {
                if i > 0 {
                    assert(s.skip(1)[i - 1] == s[i]);
                }
            }
        }
        if forall|i: int| 0 <= i < s.len() ==> vdepth(#[trigger] s[i]) <= k {
            assert forall|i: int| 0 <= i < s.skip(1).len() implies vdepth(
                #[trigger] s.skip(1)[i],
            ) <= k by {
                assert(s.skip(1)[i] == s[i + 1]);
            }
            assert(vdepth(s[0]) <= k);
        }
    }
}

/// A compound body's nesting stays within a bound exactly when each value's
/// nesting does.
pub proof fn lemma_vdepth_entries_le(es: Seq<(Seq<u8>, Val)>, k: nat)
    ensures
        (vdepth_entries(es) <= k) <==> (forall|i: int|
            0 <= i < es.len() ==> vdepth(#[trigger] es[i].1) <= k),
    decreases es.len(),
{
    if es.len() > 0 {
        lemma_vdepth_entries_le(es.skip(1), k);
        if vdepth_entries(es) <= k {
            assert forall|i: int| 0 <= i < es.len() implies vdepth(#[trigger] es[i].1) <= k by {
                if i > 0 {
                    assert(es.skip(1)[i - 1] == es[i]);
                }
            }
        }
        if forall|i: int| 0 <= i < es.len() ==> vdepth(#[trigger] es[i].1) <= k {
            assert forall|i: int| 0 <= i < es.skip(1).len() implies vdepth(
                #[trigger] es.skip(1)[i].1,
            ) <= k by {
                assert(es.skip(1)[i] == es[i + 1]);
            }
            assert(vdepth(es[0].1) <= k);
        }
    }
}

/// Frame fit of a list body, element by element.
pub proof fn lemma_sizes_items_index(s: Seq<Val>)
    ensures
        sizes_items(s) <==> (forall|i: int| 0 <= i < s.len() ==> sizes_fit(#[trigger] s[i])),
    decreases s.len(),
{
    if s.len() > 0 {
        lemma_sizes_items_index(s.skip(1));
        if sizes_items(s) {
            assert forall|i: int| 0 <= i < s.len() implies sizes_fit(#[trigger] s[i]) by {
                if i > 0 {
                    assert(s.skip(1)[i - 1] == s[i]);
                }
            }
        }
        if forall|i: int| 0 <= i < s.len() ==> sizes_fit(#[trigger] s[i]) {
            assert forall|i: int| 0 <= i < s.skip(1).len() implies sizes_fit(
                #[trigger] s.skip(1)[i],
            ) by {
                assert(s.skip(1)[i] == s[i + 1]);
            }
            assert(sizes_fit(s[0]));
        }
    }
}

/// Frame fit of a compound body, entry by entry.
pub proof fn lemma_sizes_entries_index(es: Seq<(Seq<u8>, Val)>)
    ensures
        sizes_entries(es) <==> (forall|i: int|
            0 <= i < es.len() ==> (#[trigger] es[i]).0.len() <= 0xFFFF && sizes_fit(es[i].1)),
    decreases es.len(),
{
    if es.len() > 0 {
        lemma_sizes_entries_index(es.skip(1));
        if sizes_entries(es) {
            assert forall|i: int| 0 <= i < es.len() implies (#[trigger] es[i]).0.len() <= 0xFFFF
                && sizes_fit(es[i].1) by {
                if i > 0 {
                    assert(es.skip(1)[i - 1] == es[i]);
                }
            }
        }
        if forall|i: int|
            0 <= i < es.len() ==> (#[trigger] es[i]).0.len() <= 0xFFFF && sizes_fit(es[i].1) {
            assert forall|i: int|
                0 <= i < es.skip(1).len() implies (#[trigger] es.skip(1)[i]).0.len() <= 0xFFFF
                && sizes_fit(es.skip(1)[i].1) by {
                assert(es.skip(1)[i] == es[i + 1]);
            }
            assert(es[0] == es[0]);
            assert(es[0].0.len() <= 0xFFFF && sizes_fit(es[0].1));
        }
    }
}

} // verus!
