//! The round-trip laws: every successful decode reads back exactly the
//! canonical encoding of the tree it returns, and every well-formed tree
//! decodes from its own encoding.

use vstd::prelude::*;

use crate::be::be16;
use crate::be::be32;
use crate::be::be64;
use crate::be::lemma_be16_roundtrip;
use crate::be::lemma_be32_roundtrip;
use crate::be::lemma_be64_roundtrip;
use crate::be::lemma_i16_u16;
use crate::be::lemma_i32_u32;
use crate::be::lemma_i64_u64;
use crate::be::u16_be;
use crate::be::u32_be;
use crate::be::u64_be;
use crate::dec::dec_compound;
use crate::dec::dec_doc;
use crate::dec::dec_elems;
use crate::dec::dec_entries;
use crate::dec::dec_list;
use crate::dec::dec_name;
use crate::dec::dec_value;
use crate::enc::enc_doc;
use crate::enc::enc_entries;
use crate::enc::enc_entry;
use crate::enc::enc_items;
use crate::enc::enc_value;
use crate::enc::has_name;
use crate::enc::hom;
use crate::enc::hom_entries;
use crate::enc::hom_items;
use crate::enc::sizes_entries;
use crate::enc::sizes_fit;
use crate::enc::sizes_items;
use crate::enc::text_entries;
use crate::enc::text_items;
use crate::enc::text_ok;
use crate::enc::vdepth;
use crate::enc::vdepth_entries;
use crate::enc::vdepth_items;
use crate::enc::wf;
use crate::err::NbtError;
use crate::utf8::is_utf8;
use crate::value::spec_tag_of;
use crate::value::Val;

verus! {

/// Adjacent subranges concatenate.
proof fn lemma_subrange_cat(b: Seq<u8>, x: int, y: int, z: int)
    requires
        0 <= x <= y <= z <= b.len(),
    ensures
        b.subrange(x, z) == b.subrange(x, y) + b.subrange(y, z),
{
    assert(b.subrange(x, z) =~= b.subrange(x, y) + b.subrange(y, z));
}

/// A successfully read name occupies exactly its frame: the two length
/// bytes followed by the name itself.
proof fn lemma_dec_name_enc(b: Seq<u8>, pos: int)
    requires
        0 <= pos,
    ensures
        match dec_name(b, pos) {
            Ok((nm, p)) => pos + 2 <= p <= b.len() && nm.len() == p - pos - 2 && nm.len() <= 0xFFFF
                && is_utf8(nm) && be16(nm.len() as u16) + nm == b.subrange(pos, p),
            Err(_) => true,
        },
{
    match dec_name(b, pos) {
        Ok((nm, p)) => {
            let n16 = u16_be(b[pos], b[pos + 1]);
            lemma_be16_roundtrip(0, b[pos], b[pos + 1]);
            assert(be16(n16) =~= b.subrange(pos, pos + 2));
            assert((nm.len() as u16) == n16);
            lemma_subrange_cat(b, pos, pos + 2, p);
        },
        Err(_) => {},
    }
}

/// Decoding one value reads back exactly its canonical payload, and the
/// value is homogeneous, text well-formed, within the depth bound, and,
/// when the whole source is small enough to pin every length, frame-fitting.
proof fn lemma_dec_value_enc(b: Seq<u8>, pos: int, tag: u8, d: nat)
    requires
        0 <= pos,
    ensures
        match dec_value(b, pos, tag, d) {
            Ok((v, p)) => pos < p <= b.len() && spec_tag_of(v) == tag && enc_value(v)
                == b.subrange(pos, p) && hom(v) && text_ok(v) && vdepth(v) <= d && (b.len()
                < 0x8000_0000 ==> sizes_fit(v)),
            Err(_) => true,
        },
    decreases d, 0int, 0int,
{
    match dec_value(b, pos, tag, d) {
        Ok((v, p)) => {
            if tag == 1 {
                assert(enc_value(v) =~= b.subrange(pos, p));
            } else if tag == 2 {
                let u = u16_be(b[pos], b[pos + 1]);
                lemma_i16_u16(0, u);
                lemma_be16_roundtrip(u, b[pos], b[pos + 1]);
                assert(enc_value(v) =~= b.subrange(pos, p));
            } else if tag == 3 {
                let u = u32_be(b[pos], b[pos + 1], b[pos + 2], b[pos + 3]);
                lemma_i32_u32(0, u);
                lemma_be32_roundtrip(u, b[pos], b[pos + 1], b[pos + 2], b[pos + 3]);
                assert(enc_value(v) =~= b.subrange(pos, p));
            } else if tag == 4 {
                let u = u64_be(
                    b[pos],
                    b[pos + 1],
                    b[pos + 2],
                    b[pos + 3],
                    b[pos + 4],
                    b[pos + 5],
                    b[pos + 6],
                    b[pos + 7],
                );
                lemma_i64_u64(0, u);
                lemma_be64_roundtrip(
                    u,
                    b[pos],
                    b[pos + 1],
                    b[pos + 2],
                    b[pos + 3],
                    b[pos + 4],
                    b[pos + 5],
                    b[pos + 6],
                    b[pos + 7],
                );
                assert(enc_value(v) =~= b.subrange(pos, p));
            } else if tag == 5 {
                let u = u32_be(b[pos], b[pos + 1], b[pos + 2], b[pos + 3]);
                lemma_be32_roundtrip(u, b[pos], b[pos + 1], b[pos + 2], b[pos + 3]);
                assert(enc_value(v) =~= b.subrange(pos, p));
            } else if tag == 6 {
                let u = u64_be(
                    b[pos],
                    b[pos + 1],
                    b[pos + 2],
                    b[pos + 3],
                    b[pos + 4],
                    b[pos + 5],
                    b[pos + 6],
                    b[pos + 7],
                );
                lemma_be64_roundtrip(
                    u,
                    b[pos],
                    b[pos + 1],
                    b[pos + 2],
                    b[pos + 3],
                    b[pos + 4],
                    b[pos + 5],
                    b[pos + 6],
                    b[pos + 7],
                );
                assert(enc_value(v) =~= b.subrange(pos, p));
            } else if tag == 7 {
                let u = u32_be(b[pos], b[pos + 1], b[pos + 2], b[pos + 3]);
                let n = u as int;
                let payload = b.subrange(pos + 4, pos + 4 + n);
                assert(payload.len() == n);
                assert((payload.len() as u32) == u);
                lemma_be32_roundtrip(u, b[pos], b[pos + 1], b[pos + 2], b[pos + 3]);
                assert(be32(u) =~= b.subrange(pos, pos + 4));
                lemma_subrange_cat(b, pos, pos + 4, p);
            } else if tag == 8 {
                lemma_dec_name_enc(b, pos);
                assert(enc_value(v) == b.subrange(pos, p));
            } else if tag == 9 {
                lemma_dec_list_enc(b, pos, (d - 1) as nat);
            } else {
                lemma_dec_compound_enc(b, pos, (d - 1) as nat);
            }
        },
        Err(_) => {},
    }
}

/// Decoding a list body reads back exactly its canonical frame.
proof fn lemma_dec_list_enc(b: Seq<u8>, pos: int, d: nat)
    requires
        0 <= pos,
    ensures
        match dec_list(b, pos, d) {
            Ok((v, p)) => pos < p <= b.len() && spec_tag_of(v) == 9 && enc_value(v) == b.subrange(
                pos,
                p,
            ) && hom(v) && text_ok(v) && vdepth(v) <= d + 1 && (b.len() < 0x8000_0000
                ==> sizes_fit(v)),
            Err(_) => true,
        },
    decreases d, (u32_be(b[pos + 1], b[pos + 2], b[pos + 3], b[pos + 4]) as int) + 1, 1int,
{
    match dec_list(b, pos, d) {
        Ok((v, p)) => {
            let t = b[pos];
            let u = u32_be(b[pos + 1], b[pos + 2], b[pos + 3], b[pos + 4]);
            let n = u as int;
            lemma_dec_elems_enc(b, pos + 5, t, n as nat, d);
            match dec_elems(b, pos + 5, t, n as nat, d) {
                Ok((items, p2)) => {
                    assert(items.len() == n);
                    assert((items.len() as u32) == u);
                    lemma_be32_roundtrip(u, b[pos + 1], b[pos + 2], b[pos + 3], b[pos + 4]);
                    assert(seq![t] + be32(u) =~= b.subrange(pos, pos + 5));
                    lemma_subrange_cat(b, pos, pos + 5, p);
                    assert(enc_value(v) =~= (seq![t] + be32(u)) + enc_items(items));
                    assert(p2 - (pos + 5) >= n);
                },
                Err(_) => {},
            }
        },
        Err(_) => {},
    }
}

/// Decoding consecutive elements reads back exactly their payloads, one per
/// element, each occupying at least one byte.
proof fn lemma_dec_elems_enc(b: Seq<u8>, pos: int, t: u8, n: nat, d: nat)
    requires
        0 <= pos <= b.len(),
    ensures
        match dec_elems(b, pos, t, n, d) {
            Ok((items, p)) => pos <= p <= b.len() && p - pos >= n && items.len() == n && enc_items(
                items,
            ) == b.subrange(pos, p) && hom_items(t, items) && text_items(items) && vdepth_items(
                items,
            ) <= d && (b.len() < 0x8000_0000 ==> sizes_items(items)),
            Err(_) => true,
        },
    decreases d, n as int, 1int,
{
    if n == 0 {
        assert(enc_items(Seq::<Val>::empty()) =~= b.subrange(pos, pos));
    } else {
        match dec_elems(b, pos, t, n, d) {
            Ok((items, p)) => {
                lemma_dec_value_enc(b, pos, t, d);
                match dec_value(b, pos, t, d) {
                    Ok((v, p1)) => {
                        lemma_dec_elems_enc(b, p1, t, (n - 1) as nat, d);
                        match dec_elems(b, p1, t, (n - 1) as nat, d) {
                            Ok((rest, p2)) => {
                                assert(items == seq![v] + rest);
                                assert(items[0] == v);
                                assert(items.skip(1) =~= rest);
                                assert(enc_items(items) == enc_value(v) + enc_items(rest));
                                lemma_subrange_cat(b, pos, p1, p2);
                            },
                            Err(_) => {},
                        }
                    },
                    Err(_) => {},
                }
            },
            Err(_) => {},
        }
    }
}

/// Decoding a compound body reads back exactly its canonical frame.
proof fn lemma_dec_compound_enc(b: Seq<u8>, pos: int, d: nat)
    requires
        0 <= pos,
    ensures
        match dec_compound(b, pos, d) {
            Ok((v, p)) => pos < p <= b.len() && spec_tag_of(v) == 10 && enc_value(v) == b.subrange(
                pos,
                p,
            ) && hom(v) && text_ok(v) && vdepth(v) <= d + 1 && (b.len() < 0x8000_0000
                ==> sizes_fit(v)),
            Err(_) => true,
        },
    decreases d, b.len() + 2, 1int,
{
    match dec_compound(b, pos, d) {
        Ok((v, p)) => {
            lemma_dec_entries_enc(b, pos, d, b.len() + 1, Seq::empty());
            match dec_entries(b, pos, d, b.len() + 1, Seq::empty()) {
                Ok((es, p2)) => {
                    assert(enc_value(v) == enc_entries(es) + seq![0u8]);
                    assert(enc_entries(es) + seq![0u8] =~= b.subrange(pos, p2)) by {
                        assert(enc_entries(es) == b.subrange(pos, p2 - 1));
                        assert(b.subrange(pos, p2) =~= b.subrange(pos, p2 - 1) + seq![b[p2 - 1]]);
                    }
                },
                Err(_) => {},
            }
        },
        Err(_) => {},
    }
}

/// Decoding compound entries reads back exactly their frames followed by
/// the end marker; the names are unique, valid and disjoint from `seen`.
proof fn lemma_dec_entries_enc(b: Seq<u8>, pos: int, d: nat, fuel: nat, seen: Seq<Seq<u8>>)
    requires
        0 <= pos,
    ensures
        match dec_entries(b, pos, d, fuel, seen) {
            Ok((es, p)) => pos < p <= b.len() && enc_entries(es) == b.subrange(pos, p - 1) && b[p
                - 1] == 0 && hom_entries(es) && text_entries(es) && vdepth_entries(es) <= d && (
            forall|k: Seq<u8>| seen.contains(k) ==> !has_name(es, k)) && (b.len() < 0x8000_0000
                ==> sizes_entries(es)),
            Err(_) => true,
        },
    decreases d, fuel as int, 1int,
{
    match dec_entries(b, pos, d, fuel, seen) {
        Ok((es, p)) => {
            let t = b[pos];
            if t == 0 {
                assert(enc_entries(es) =~= b.subrange(pos, pos));
            } else {
                lemma_dec_name_enc(b, pos + 1);
                match dec_name(b, pos + 1) {
                    Ok((nm, p1)) => {
                        lemma_dec_value_enc(b, p1, t, d);
                        match dec_value(b, p1, t, d) {
                            Ok((v, p2)) => {
                                lemma_dec_entries_enc(b, p2, d, (fuel - 1) as nat, seen.push(nm));
                                match dec_entries(b, p2, d, (fuel - 1) as nat, seen.push(nm)) {
                                    Ok((rest, p3)) => {
                                        assert(es == seq![(nm, v)] + rest);
                                        assert(es[0] == (nm, v));
                                        assert(es.skip(1) =~= rest);
                                        assert(enc_entries(es) == enc_entry(nm, v) + enc_entries(
                                            rest,
                                        ));
                                        assert(enc_entry(nm, v) =~= seq![t] + (be16(
                                            nm.len() as u16,
                                        ) + nm) + enc_value(v));
                                        assert(seq![t] =~= b.subrange(pos, pos + 1));
                                        lemma_subrange_cat(b, pos, pos + 1, p1);
                                        lemma_subrange_cat(b, pos, p1, p2);
                                        lemma_subrange_cat(b, pos, p2, p3 - 1);
                                        assert(enc_entry(nm, v) =~= b.subrange(pos, p2));
                                        // the first name is not among the rest: `rest` avoids
                                        // everything in `seen.push(nm)`
                                        assert(seen.push(nm).contains(nm)) by {
                                            assert(seen.push(nm)[seen.len() as int] == nm);
                                        }
                                        assert(!has_name(rest, nm));
                                        assert(text_entries(es));
                                        // entries that follow avoid everything in `seen`
                                        assert forall|k: Seq<u8>| seen.contains(k) implies !has_name(
                                            es,
                                            k,
                                        ) by {
                                            assert(seen.push(nm).contains(k)) by {
                                                let j = choose|j: int|
                                                    0 <= j < seen.len() && seen[j] == k;
                                                assert(seen.push(nm)[j] == k);
                                            }
                                            assert(!has_name(rest, k));
                                            if has_name(es, k) {
                                                let j = choose|j: int|
                                                    0 <= j < es.len() && es[j].0 == k;
                                                if j == 0 {
                                                    assert(seen.contains(nm));
                                                    let q = choose|q: int|
                                                        0 <= q < seen.len() && seen[q] == nm;
                                                    assert(false);
                                                } else {
                                                    assert(rest[j - 1] == es[j]);
                                                    assert(has_name(rest, k));
                                                }
                                            }
                                        }
                                    },
                                    Err(_) => {},
                                }
                            },
                            Err(_) => {},
                        }
                    },
                    Err(_) => {},
                }
            }
        },
        Err(_) => {},
    }
}

/// Byte-exactness: whatever the decoder accepts is re-encoded, byte for
/// byte, onto exactly the bytes it consumed; and on a source small enough
/// to pin every length, the decoded tree is well-formed and within the
/// depth bound.
pub proof fn lemma_decode_encode(b: Seq<u8>, d: nat)
    ensures
        match dec_doc(b, d) {
            Ok(((nm, v), p)) => 0 < p <= b.len() && enc_doc(nm, v) == b.subrange(0, p) && hom(v)
                && text_ok(v) && is_utf8(nm) && nm.len() <= 0xFFFF && vdepth(v) <= d && (b.len()
                < 0x8000_0000 ==> wf(v)),
            Err(_) => true,
        },
{
    match dec_doc(b, d) {
        Ok(((nm, v), p)) => {
            lemma_dec_name_enc(b, 1);
            match dec_name(b, 1) {
                Ok((nm1, p1)) => {
                    lemma_dec_value_enc(b, p1, 10, d);
                    assert(enc_doc(nm, v) =~= seq![b[0]] + (be16(nm.len() as u16) + nm)
                        + enc_value(v));
                    assert(seq![b[0]] =~= b.subrange(0, 1));
                    lemma_subrange_cat(b, 0, 1, p1);
                    lemma_subrange_cat(b, 0, p1, p);
                },
                Err(_) => {},
            }
        },
        Err(_) => {},
    }
}


/// A byte inside a matched region equals the corresponding byte of the
/// pattern.
proof fn lemma_match_at(b: Seq<u8>, pos: int, e: Seq<u8>, i: int)
    requires
        0 <= pos,
        pos + e.len() <= b.len(),
        b.subrange(pos, pos + e.len() as int) == e,
        0 <= i < e.len(),
    ensures
        b[pos + i] == e[i],
{
    assert(b.subrange(pos, pos + e.len() as int)[i] == b[pos + i]);
}

/// A sub-region of a matched region matches the corresponding part of the
/// pattern.
proof fn lemma_match_sub(b: Seq<u8>, pos: int, e: Seq<u8>, x: int, y: int)
    requires
        0 <= pos,
        pos + e.len() <= b.len(),
        b.subrange(pos, pos + e.len() as int) == e,
        0 <= x <= y <= e.len(),
    ensures
        b.subrange(pos + x, pos + y) == e.subrange(x, y),
{
    assert forall|i: int|
        0 <= i < y - x implies b.subrange(pos + x, pos + y)[i] == e.subrange(x, y)[i] by {
        assert(b.subrange(pos, pos + e.len() as int)[x + i] == b[pos + (x + i)]);
        assert(b.subrange(pos + x, pos + y)[i] == b[(pos + x) + i]);
        assert(b[pos + (x + i)] == b[(pos + x) + i]);
    }
    assert(b.subrange(pos + x, pos + y) =~= e.subrange(x, y));
}

/// A framed name decodes to itself.
proof fn lemma_enc_dec_name(b: Seq<u8>, pos: int, nm: Seq<u8>)
    requires
        0 <= pos,
        pos + 2 + nm.len() <= b.len(),
        b.subrange(pos, pos + 2 + nm.len()) == be16(nm.len() as u16) + nm,
        nm.len() <= 0xFFFF,
        is_utf8(nm),
    ensures
        dec_name(b, pos) == Ok::<(Seq<u8>, int), crate::err::NbtError>((nm, pos + 2 + nm.len())),
{
    let n16 = nm.len() as u16;
    let frame = be16(n16) + nm;
    lemma_match_at(b, pos, frame, 0);
    lemma_match_at(b, pos, frame, 1);
    assert(b[pos] == (n16 >> 8) as u8 && b[pos + 1] == n16 as u8);
    lemma_be16_roundtrip(n16, 0, 0);
    assert(u16_be(b[pos], b[pos + 1]) == n16);
    assert(n16 as int == nm.len());
    lemma_match_sub(b, pos, frame, 2, frame.len() as int);
    assert(frame.subrange(2, frame.len() as int) =~= nm);
}

/// A canonical payload decodes to exactly the value that produced it.
proof fn lemma_enc_dec_value(b: Seq<u8>, pos: int, v: Val, d: nat)
    requires
        0 <= pos,
        pos + enc_value(v).len() <= b.len(),
        b.subrange(pos, pos + enc_value(v).len() as int) == enc_value(v),
        sizes_fit(v),
        hom(v),
        text_ok(v),
        vdepth(v) <= d,
    ensures
        dec_value(b, pos, spec_tag_of(v), d) == Ok::<(Val, int), crate::err::NbtError>(
            (v, pos + enc_value(v).len()),
        ),
    decreases v, 1int,
{
    let e = enc_value(v);
    let p = pos + e.len();
    match v {
        Val::Byte(x) => {
            lemma_match_at(b, pos, e, 0);
            assert(b[pos] == x);
        },
        Val::Short(x) => {
            let u = x as u16;
            lemma_match_at(b, pos, e, 0);
            lemma_match_at(b, pos, e, 1);
            assert(b[pos] == (u >> 8) as u8 && b[pos + 1] == u as u8);
            lemma_be16_roundtrip(u, 0, 0);
            assert(u16_be(b[pos], b[pos + 1]) == u);
            lemma_i16_u16(x, 0);
        },
        Val::Int(x) => {
            let u = x as u32;
            lemma_match_at(b, pos, e, 0);
            lemma_match_at(b, pos, e, 1);
            lemma_match_at(b, pos, e, 2);
            lemma_match_at(b, pos, e, 3);
            lemma_be32_roundtrip(u, 0, 0, 0, 0);
            assert(u32_be(b[pos], b[pos + 1], b[pos + 2], b[pos + 3]) == u);
            lemma_i32_u32(x, 0);
        },
        Val::Long(x) => {
            let u = x as u64;
            lemma_match_at(b, pos, e, 0);
            lemma_match_at(b, pos, e, 1);
            lemma_match_at(b, pos, e, 2);
            lemma_match_at(b, pos, e, 3);
            lemma_match_at(b, pos, e, 4);
            lemma_match_at(b, pos, e, 5);
            lemma_match_at(b, pos, e, 6);
            lemma_match_at(b, pos, e, 7);
            lemma_be64_roundtrip(u, 0, 0, 0, 0, 0, 0, 0, 0);
            assert(u64_be(
                b[pos],
                b[pos + 1],
                b[pos + 2],
                b[pos + 3],
                b[pos + 4],
                b[pos + 5],
                b[pos + 6],
                b[pos + 7],
            ) == u);
            lemma_i64_u64(x, 0);
        },
        Val::Float(u) => {
            lemma_match_at(b, pos, e, 0);
            lemma_match_at(b, pos, e, 1);
            lemma_match_at(b, pos, e, 2);
            lemma_match_at(b, pos, e, 3);
            lemma_be32_roundtrip(u, 0, 0, 0, 0);
            assert(u32_be(b[pos], b[pos + 1], b[pos + 2], b[pos + 3]) == u);
        },
        Val::Double(u) => {
            lemma_match_at(b, pos, e, 0);
            lemma_match_at(b, pos, e, 1);
            lemma_match_at(b, pos, e, 2);
            lemma_match_at(b, pos, e, 3);
            lemma_match_at(b, pos, e, 4);
            lemma_match_at(b, pos, e, 5);
            lemma_match_at(b, pos, e, 6);
            lemma_match_at(b, pos, e, 7);
            lemma_be64_roundtrip(u, 0, 0, 0, 0, 0, 0, 0, 0);
            assert(u64_be(
                b[pos],
                b[pos + 1],
                b[pos + 2],
                b[pos + 3],
                b[pos + 4],
                b[pos + 5],
                b[pos + 6],
                b[pos + 7],
            ) == u);
        },
        Val::ByteArray(s) => {
            let u = s.len() as u32;
            lemma_match_at(b, pos, e, 0);
            lemma_match_at(b, pos, e, 1);
            lemma_match_at(b, pos, e, 2);
            lemma_match_at(b, pos, e, 3);
            lemma_be32_roundtrip(u, 0, 0, 0, 0);
            assert(u32_be(b[pos], b[pos + 1], b[pos + 2], b[pos + 3]) == u);
            assert(u as int == s.len());
            lemma_match_sub(b, pos, e, 4, e.len() as int);
            assert(e.subrange(4, e.len() as int) =~= s);
        },
        Val::Str(s) => {
            assert(e == be16(s.len() as u16) + s);
            lemma_enc_dec_name(b, pos, s);
        },
        Val::List(t, items) => {
            assert(vdepth(v) == 1 + vdepth_items(items));
            let d1 = (d - 1) as nat;
            let u = items.len() as u32;
            assert(e == seq![t] + be32(u) + enc_items(items));
            lemma_match_at(b, pos, e, 0);
            lemma_match_at(b, pos, e, 1);
            lemma_match_at(b, pos, e, 2);
            lemma_match_at(b, pos, e, 3);
            lemma_match_at(b, pos, e, 4);
            assert(b[pos] == t);
            lemma_be32_roundtrip(u, 0, 0, 0, 0);
            assert(u32_be(b[pos + 1], b[pos + 2], b[pos + 3], b[pos + 4]) == u);
            assert(u as int == items.len());
            lemma_match_sub(b, pos, e, 5, e.len() as int);
            assert(e.subrange(5, e.len() as int) =~= enc_items(items));
            lemma_enc_dec_elems(b, pos + 5, t, items, d1);
        },
        Val::Compound(es) => {
            assert(vdepth(v) == 1 + vdepth_entries(es));
            let d1 = (d - 1) as nat;
            assert(e == enc_entries(es) + seq![0u8]);
            lemma_enc_entries_len(es);
            lemma_enc_dec_entries(b, pos, es, d1, b.len() + 1, Seq::empty());
        },
    }
}

/// Canonical consecutive payloads decode to exactly the elements that
/// produced them.
proof fn lemma_enc_dec_elems(b: Seq<u8>, pos: int, t: u8, items: Seq<Val>, d: nat)
    requires
        0 <= pos,
        pos + enc_items(items).len() <= b.len(),
        b.subrange(pos, pos + enc_items(items).len() as int) == enc_items(items),
        sizes_items(items),
        hom_items(t, items),
        text_items(items),
        vdepth_items(items) <= d,
    ensures
        dec_elems(b, pos, t, items.len(), d) == Ok::<(Seq<Val>, int), crate::err::NbtError>(
            (items, pos + enc_items(items).len()),
        ),
    decreases items, 0int,
{
    if items.len() == 0 {
        assert(dec_elems(b, pos, t, 0, d) == Ok::<(Seq<Val>, int), crate::err::NbtError>(
            (Seq::<Val>::empty(), pos),
        ));
        assert(items =~= Seq::<Val>::empty());
    } else {
        let whole = enc_items(items);
        let v0 = items[0];
        let rest = items.skip(1);
        let e0 = enc_value(v0);
        let erest = enc_items(rest);
        assert(whole == e0 + erest);
        lemma_match_sub(b, pos, whole, 0, e0.len() as int);
        assert(whole.subrange(0, e0.len() as int) =~= e0);
        lemma_match_sub(b, pos, whole, e0.len() as int, whole.len() as int);
        assert(whole.subrange(e0.len() as int, whole.len() as int) =~= erest);
        lemma_enc_dec_value(b, pos, v0, d);
        lemma_enc_dec_elems(b, pos + e0.len(), t, rest, d);
        assert(seq![v0] + rest =~= items);
    }
}

/// Every framed entry occupies at least one byte.
proof fn lemma_enc_entries_len(es: Seq<(Seq<u8>, Val)>)
    ensures
        enc_entries(es).len() >= es.len(),
    decreases es,
{
    if es.len() > 0 {
        lemma_enc_entries_len(es.skip(1));
        assert(enc_entry(es[0].0, es[0].1).len() >= 1);
    }
}

/// Canonical entry frames followed by an end marker decode to exactly the
/// entries that produced them, given fuel for every entry and no clash with
/// the names already seen.
proof fn lemma_enc_dec_entries(
    b: Seq<u8>,
    pos: int,
    es: Seq<(Seq<u8>, Val)>,
    d: nat,
    fuel: nat,
    seen: Seq<Seq<u8>>,
)
    requires
        0 <= pos,
        pos + enc_entries(es).len() + 1 <= b.len(),
        b.subrange(pos, pos + enc_entries(es).len() + 1) == enc_entries(es) + seq![0u8],
        sizes_entries(es),
        hom_entries(es),
        text_entries(es),
        vdepth_entries(es) <= d,
        fuel >= es.len() + 1,
        forall|k: Seq<u8>| seen.contains(k) ==> !has_name(es, k),
    ensures
        dec_entries(b, pos, d, fuel, seen) == Ok::<
            (Seq<(Seq<u8>, Val)>, int),
            crate::err::NbtError,
        >((es, pos + enc_entries(es).len() + 1)),
    decreases es, 0int,
{
    let whole = enc_entries(es) + seq![0u8];
    if es.len() == 0 {
        lemma_match_at(b, pos, whole, 0);
        assert(b[pos] == 0);
        assert(es =~= Seq::<(Seq<u8>, Val)>::empty());
    } else {
        let nm0 = es[0].0;
        let v0 = es[0].1;
        let rest = es.skip(1);
        let e0 = enc_entry(nm0, v0);
        let erest = enc_entries(rest);
        assert(enc_entries(es) == e0 + erest);
        lemma_match_at(b, pos, whole, 0);
        assert(whole[0] == spec_tag_of(v0)) by {
            assert(e0[0] == spec_tag_of(v0));
        }
        assert(b[pos] == spec_tag_of(v0));
        assert(1 <= spec_tag_of(v0) <= 10);
        // the name frame
        let nframe = be16(nm0.len() as u16) + nm0;
        lemma_match_sub(b, pos, whole, 1, 1 + nframe.len() as int);
        assert(whole.subrange(1, 1 + nframe.len() as int) =~= nframe) by {
            assert(forall|i: int| 0 <= i < e0.len() ==> whole[i] == #[trigger] e0[i]);
            assert(forall|i: int| 0 <= i < nframe.len() ==> e0[1 + i] == #[trigger] nframe[i]);
        }
        lemma_enc_dec_name(b, pos + 1, nm0);
        let p1 = pos + 3 + nm0.len();
        // the value payload
        let ev = enc_value(v0);
        lemma_match_sub(b, pos, whole, 1 + nframe.len() as int, e0.len() as int);
        assert(whole.subrange(1 + nframe.len() as int, e0.len() as int) =~= ev) by {
            assert(forall|i: int| 0 <= i < e0.len() ==> whole[i] == #[trigger] e0[i]);
            assert(forall|i: int|
                0 <= i < ev.len() ==> e0[1 + nframe.len() + i] == #[trigger] ev[i]);
        }
        assert(b.subrange(p1, p1 + ev.len() as int) == ev);
        lemma_enc_dec_value(b, p1, v0, d);
        let p2 = p1 + ev.len();
        assert(!seen.contains(nm0)) by {
            if seen.contains(nm0) {
                assert(has_name(es, nm0)) by {
                    assert(es[0].0 == nm0);
                }
            }
        }
        // the remaining entries and the end marker
        lemma_match_sub(b, pos, whole, e0.len() as int, whole.len() as int);
        assert(whole.subrange(e0.len() as int, whole.len() as int) =~= erest + seq![0u8]);
        assert(b.subrange(p2, p2 + erest.len() + 1) == erest + seq![0u8]) by {
            assert(p2 == pos + e0.len());
        }
        assert forall|k: Seq<u8>| seen.push(nm0).contains(k) implies !has_name(rest, k) by {
            let j = choose|j: int| 0 <= j < seen.push(nm0).len() && seen.push(nm0)[j] == k;
            if j < seen.len() {
                assert(seen[j] == k);
                assert(seen.contains(k));
                assert(!has_name(es, k));
                if has_name(rest, k) {
                    let q = choose|q: int| 0 <= q < rest.len() && rest[q].0 == k;
                    assert(es[q + 1] == rest[q]);
                    assert(has_name(es, k));
                }
            } else {
                assert(k == nm0);
                assert(!has_name(rest, nm0));
            }
        }
        lemma_enc_dec_entries(b, p2, rest, d, (fuel - 1) as nat, seen.push(nm0));
        assert(seq![(nm0, v0)] + rest =~= es);
    }
}

/// Round trip: a well-formed compound within the depth bound, under a name
/// that fits its frame, decodes from its own document encoding to exactly
/// itself, consuming the whole encoding.
pub proof fn lemma_encode_decode(nm: Seq<u8>, v: Val, d: nat)
    requires
        wf(v),
        vdepth(v) <= d,
        v is Compound,
        is_utf8(nm),
        nm.len() <= 0xFFFF,
    ensures
        dec_doc(enc_doc(nm, v), d) == Ok::<((Seq<u8>, Val), int), crate::err::NbtError>(
            ((nm, v), enc_doc(nm, v).len() as int),
        ),
{
    let b = enc_doc(nm, v);
    assert(b == seq![spec_tag_of(v)] + be16(nm.len() as u16) + nm + enc_value(v));
    assert(spec_tag_of(v) == 10);
    assert(b[0] == 10);
    let nframe = be16(nm.len() as u16) + nm;
    assert(b.subrange(0, b.len() as int) =~= b);
    lemma_match_sub(b, 0, b, 1, 1 + nframe.len() as int);
    assert(b.subrange(1, 1 + nframe.len() as int) =~= nframe) by {
        assert(b.subrange(1, 1 + nframe.len() as int) == b.subrange(0int + 1, 0int + (1
            + nframe.len() as int)));
        assert(forall|i: int| 0 <= i < nframe.len() ==> b[1 + i] == #[trigger] nframe[i]);
    }
    lemma_enc_dec_name(b, 1, nm);
    let p1 = 3 + nm.len() as int;
    let ev = enc_value(v);
    lemma_match_sub(b, 0, b, p1, b.len() as int);
    assert(b.subrange(p1, p1 + ev.len() as int) =~= ev) by {
        assert(forall|i: int| 0 <= i < ev.len() ==> b[p1 + i] == #[trigger] ev[i]);
    }
    lemma_enc_dec_value(b, p1, v, d);
}


/// Whether `c` is a prefix of `b`.
pub open spec fn is_prefix(c: Seq<u8>, b: Seq<u8>) -> bool {
    c.len() <= b.len() && c == b.subrange(0, c.len() as int)
}

/// The bytes of a prefix agree with the source.
proof fn lemma_prefix_bytes(c: Seq<u8>, b: Seq<u8>)
    requires
        is_prefix(c, b),
    ensures
        forall|i: int| 0 <= i < c.len() ==> #[trigger] c[i] == b[i],
{
    assert forall|i: int| 0 <= i < c.len() implies #[trigger] c[i] == b[i] by {
        assert(b.subrange(0, c.len() as int)[i] == b[i]);
    }
}

/// A subrange that lies inside a prefix agrees with the source's.
proof fn lemma_prefix_sub(c: Seq<u8>, b: Seq<u8>, x: int, y: int)
    requires
        is_prefix(c, b),
        0 <= x <= y <= c.len(),
    ensures
        c.subrange(x, y) == b.subrange(x, y),
{
    lemma_prefix_bytes(c, b);
    assert(c.subrange(x, y) =~= b.subrange(x, y));
}

/// Reading a name from a prefix returns the same name, or truncation when
/// the cut falls inside the frame.
proof fn lemma_prefix_name(c: Seq<u8>, b: Seq<u8>, pos: int)
    requires
        is_prefix(c, b),
        0 <= pos,
        dec_name(b, pos) is Ok,
    ensures
        dec_name(c, pos) == (if dec_name(b, pos)->Ok_0.1 <= c.len() {
            dec_name(b, pos)
        } else {
            Err::<(Seq<u8>, int), crate::err::NbtError>(NbtError::Truncated)
        }),
{
    lemma_prefix_bytes(c, b);
    let (nm, p) = dec_name(b, pos)->Ok_0;
    if pos + 2 > c.len() {
    } else {
        let n = u16_be(b[pos], b[pos + 1]) as int;
        if pos + 2 + n > c.len() {
        } else {
            lemma_prefix_sub(c, b, pos + 2, pos + 2 + n);
        }
    }
}

/// Decoding a value from a prefix returns the same value, or truncation
/// when the cut falls inside its payload.
proof fn lemma_prefix_value(c: Seq<u8>, b: Seq<u8>, pos: int, tag: u8, d: nat)
    requires
        is_prefix(c, b),
        0 <= pos <= c.len(),
        dec_value(b, pos, tag, d) is Ok,
    ensures
        dec_value(c, pos, tag, d) == (if dec_value(b, pos, tag, d)->Ok_0.1 <= c.len() {
            dec_value(b, pos, tag, d)
        } else {
            Err::<(Val, int), crate::err::NbtError>(NbtError::Truncated)
        }),
    decreases d, 0int, 0int,
{
    lemma_prefix_bytes(c, b);
    let (v, p) = dec_value(b, pos, tag, d)->Ok_0;
    if tag == 7 {
        if pos + 4 <= c.len() {
            let n = u32_be(b[pos], b[pos + 1], b[pos + 2], b[pos + 3]) as int;
            if pos + 4 + n <= c.len() {
                lemma_prefix_sub(c, b, pos + 4, pos + 4 + n);
            }
        }
    } else if tag == 8 {
        lemma_prefix_name(c, b, pos);
    } else if tag == 9 {
        if d > 0 {
            lemma_prefix_list(c, b, pos, (d - 1) as nat);
        }
    } else if tag == 10 {
        if d > 0 {
            lemma_prefix_compound(c, b, pos, (d - 1) as nat);
        }
    }
}

/// Decoding a list body from a prefix returns the same list, or truncation
/// when the cut falls inside its frame.
proof fn lemma_prefix_list(c: Seq<u8>, b: Seq<u8>, pos: int, d: nat)
    requires
        is_prefix(c, b),
        0 <= pos <= c.len(),
        dec_list(b, pos, d) is Ok,
    ensures
        dec_list(c, pos, d) == (if dec_list(b, pos, d)->Ok_0.1 <= c.len() {
            dec_list(b, pos, d)
        } else {
            Err::<(Val, int), crate::err::NbtError>(NbtError::Truncated)
        }),
    decreases d, (u32_be(b[pos + 1], b[pos + 2], b[pos + 3], b[pos + 4]) as int) + 2, 1int,
{
    lemma_prefix_bytes(c, b);
    if pos + 5 <= c.len() {
        let t = b[pos];
        let n = u32_be(b[pos + 1], b[pos + 2], b[pos + 3], b[pos + 4]) as int;
        assert(u32_be(c[pos + 1], c[pos + 2], c[pos + 3], c[pos + 4]) as int == n);
        lemma_prefix_elems(c, b, pos + 5, t, n as nat, d);
        lemma_dec_elems_enc(b, pos + 5, t, n as nat, d);
    } else {
        lemma_dec_elems_enc(b, pos + 5, t_of(b, pos), n_of(b, pos), d);
    }
}

/// The element tag a list header declares.
spec fn t_of(b: Seq<u8>, pos: int) -> u8 {
    b[pos]
}

/// The element count a list header declares.
spec fn n_of(b: Seq<u8>, pos: int) -> nat {
    u32_be(b[pos + 1], b[pos + 2], b[pos + 3], b[pos + 4]) as nat
}

/// Decoding consecutive elements from a prefix returns the same elements,
/// or truncation when the cut falls inside one of them.
proof fn lemma_prefix_elems(c: Seq<u8>, b: Seq<u8>, pos: int, t: u8, n: nat, d: nat)
    requires
        is_prefix(c, b),
        0 <= pos <= c.len(),
        dec_elems(b, pos, t, n, d) is Ok,
    ensures
        dec_elems(c, pos, t, n, d) == (if dec_elems(b, pos, t, n, d)->Ok_0.1 <= c.len() {
            dec_elems(b, pos, t, n, d)
        } else {
            Err::<(Seq<Val>, int), crate::err::NbtError>(NbtError::Truncated)
        }),
    decreases d, n as int, 1int,
{
    if n > 0 {
        lemma_prefix_value(c, b, pos, t, d);
        let (v, p1) = dec_value(b, pos, t, d)->Ok_0;
        lemma_dec_value_enc(b, pos, t, d);
        if p1 <= c.len() {
            lemma_prefix_elems(c, b, p1, t, (n - 1) as nat, d);
            lemma_dec_elems_enc(b, p1, t, (n - 1) as nat, d);
        } else {
            lemma_dec_elems_enc(b, p1, t, (n - 1) as nat, d);
        }
    }
}

/// Decoding a compound body from a prefix returns the same compound, or
/// truncation when the cut falls inside its frame.
proof fn lemma_prefix_compound(c: Seq<u8>, b: Seq<u8>, pos: int, d: nat)
    requires
        is_prefix(c, b),
        0 <= pos <= c.len(),
        dec_compound(b, pos, d) is Ok,
    ensures
        dec_compound(c, pos, d) == (if dec_compound(b, pos, d)->Ok_0.1 <= c.len() {
            dec_compound(b, pos, d)
        } else {
            Err::<(Val, int), crate::err::NbtError>(NbtError::Truncated)
        }),
    decreases d, b.len() + c.len() + 3, 1int,
{
    lemma_prefix_entries(c, b, pos, d, b.len() + 1, c.len() + 1, Seq::empty());
}

/// Decoding entries from a prefix returns the same entries, or truncation
/// when the cut falls inside one of them or before the end marker. The
/// prefix side's fuel covers one more entry than the bytes it has left.
proof fn lemma_prefix_entries(
    c: Seq<u8>,
    b: Seq<u8>,
    pos: int,
    d: nat,
    fuel_b: nat,
    fuel_c: nat,
    seen: Seq<Seq<u8>>,
)
    requires
        is_prefix(c, b),
        0 <= pos <= c.len(),
        fuel_c + pos >= c.len() + 1,
        dec_entries(b, pos, d, fuel_b, seen) is Ok,
    ensures
        dec_entries(c, pos, d, fuel_c, seen) == (if dec_entries(
            b,
            pos,
            d,
            fuel_b,
            seen,
        )->Ok_0.1 <= c.len() {
            dec_entries(b, pos, d, fuel_b, seen)
        } else {
            Err::<(Seq<(Seq<u8>, Val)>, int), crate::err::NbtError>(NbtError::Truncated)
        }),
    decreases d, fuel_b as int, 1int,
{
    lemma_prefix_bytes(c, b);
    lemma_dec_entries_enc(b, pos, d, fuel_b, seen);
    let (es, p) = dec_entries(b, pos, d, fuel_b, seen)->Ok_0;
    if pos + 1 > c.len() {
    } else {
        let t = b[pos];
        if t == 0 {
        } else {
            let (nm, p1) = dec_name(b, pos + 1)->Ok_0;
            let (v, p2) = dec_value(b, p1, t, d)->Ok_0;
            lemma_dec_name_enc(b, pos + 1);
            lemma_dec_value_enc(b, p1, t, d);
            lemma_dec_entries_enc(b, p2, d, (fuel_b - 1) as nat, seen.push(nm));
            lemma_prefix_name(c, b, pos + 1);
            if p1 <= c.len() {
                lemma_prefix_value(c, b, p1, t, d);
                if p2 <= c.len() {
                    lemma_prefix_entries(
                        c,
                        b,
                        p2,
                        d,
                        (fuel_b - 1) as nat,
                        (fuel_c - 1) as nat,
                        seen.push(nm),
                    );
                }
            }
        }
    }
}

/// Truncation: a byte stream that decodes successfully, cut anywhere before
/// the end of what the decoder consumed, decodes to a truncation error:
/// never to a tree, and never to any other error.
pub proof fn lemma_truncation(b: Seq<u8>, d: nat, j: int)
    requires
        dec_doc(b, d) is Ok,
        0 <= j < dec_doc(b, d)->Ok_0.1,
    ensures
        dec_doc(b.subrange(0, j), d) == Err::<((Seq<u8>, Val), int), crate::err::NbtError>(
            NbtError::Truncated,
        ),
{
    lemma_decode_encode(b, d);
    let c = b.subrange(0, j);
    assert(is_prefix(c, b)) by {
        assert(b.subrange(0, j).len() == j);
        assert(c == b.subrange(0, c.len() as int));
    }
    lemma_prefix_bytes(c, b);
    let ((nm, v), p) = dec_doc(b, d)->Ok_0;
    if j == 0 {
    } else {
        lemma_prefix_name(c, b, 1);
        let (nm1, p1) = dec_name(b, 1)->Ok_0;
        lemma_dec_name_enc(b, 1);
        if p1 <= c.len() {
            lemma_prefix_value(c, b, p1, 10, d);
            lemma_dec_value_enc(b, p1, 10, d);
        }
    }
}

} // verus!
