//! The pretty printer: an indented, human-readable rendering of a tree as
//! UTF-8 text bytes, pinned down by a specification rendering.
//!
//! Compound entries appear as `name: value` lines with an entry count
//! annotation and two more spaces of indentation per level. Lists of nested
//! containers are expanded one element per line; lists of scalars are laid
//! out inline. Bytes render in hex, the other numeric types in decimal, and
//! floats as the hex bit pattern the tree stores for them.

use vstd::prelude::*;

use crate::value::deep_view_entries;
use crate::value::deep_view_seq;
use crate::value::lemma_deep_view_entries;
use crate::value::lemma_deep_view_seq;
use crate::value::NBT;
use crate::value::Val;

verus! {

/// The byte rendering one hex digit.
pub open spec fn hex_digit(n: int) -> u8 {
    if n < 10 {
        (n + 0x30) as u8
    } else {
        (n + 0x37) as u8
    }
}

/// A number in hex, zero-padded to a fixed width.
pub open spec fn hex_digits_fixed(n: nat, width: nat) -> Seq<u8>
    decreases width,
{
    if width == 0 {
        Seq::empty()
    } else {
        hex_digits_fixed(n / 16, (width - 1) as nat) + seq![hex_digit((n % 16) as int)]
    }
}

/// A number in decimal, most significant digit first.
pub open spec fn dec_digits(n: nat) -> Seq<u8>
    decreases n,
{
    if n < 10 {
        seq![hex_digit(n as int)]
    } else {
        dec_digits(n / 10) + seq![hex_digit((n % 10) as int)]
    }
}

/// A signed number in decimal.
pub open spec fn dec_int(n: int) -> Seq<u8> {
    if n < 0 {
        seq![('-' as u8)] + dec_digits((-n) as nat)
    } else {
        dec_digits(n as nat)
    }
}

/// The count annotation `(N) entries `.
pub open spec fn r_count(n: nat) -> Seq<u8> {
    seq![('(' as u8)] + dec_digits(n) + seq![(')' as u8), (' ' as u8), ('e' as u8), ('n' as u8), ('t' as u8), ('r' as u8), ('i' as u8), ('e' as u8), ('s' as u8), (' ' as u8)]
}

/// The rendering of one value, indented by `pad` where it spans lines.
pub open spec fn r_value(v: Val, pad: Seq<u8>) -> Seq<u8>
    decreases v, 1int,
{
    match v {
        Val::Byte(b) => seq![('0' as u8), ('x' as u8)] + hex_digits_fixed(b as nat, 2),
        Val::Short(x) => dec_int(x as int),
        Val::Int(x) => dec_int(x as int),
        Val::Long(x) => dec_int(x as int),
        Val::Float(u) => seq![('f' as u8), ('3' as u8), ('2' as u8), (':' as u8), ('0' as u8), ('x' as u8)] + hex_digits_fixed(u as nat, 8),
        Val::Double(u) => seq![('f' as u8), ('6' as u8), ('4' as u8), (':' as u8), ('0' as u8), ('x' as u8)] + hex_digits_fixed(
            u as nat,
            16,
        ),
        Val::Str(s) => seq![('"' as u8)] + s + seq![('"' as u8)],
        Val::ByteArray(s) => seq![('(' as u8)] + dec_digits(s.len()) + seq![
            (')' as u8),
            (' ' as u8),
            ('b' as u8),
            ('y' as u8),
            ('t' as u8),
            ('e' as u8),
            ('s' as u8),
        ],
        Val::List(t, items) => r_count(items.len()) + seq![('[' as u8)] + (if items.len() > 0 && (t == 9
            || t == 10) {
            r_items_expanded(items, pad + seq![(' ' as u8), (' ' as u8)]) + seq![('\n' as u8)] + pad
        } else {
            r_items_inline(items, pad)
        }) + seq![(']' as u8)],
        Val::Compound(es) => r_count(es.len()) + seq![('{' as u8)] + r_entries(
            es,
            pad + seq![(' ' as u8), (' ' as u8)],
        ) + seq![('\n' as u8)] + pad + seq![('}' as u8)],
    }
}

/// Inline list elements, separated by a comma and a space.
pub open spec fn r_items_inline(s: Seq<Val>, pad: Seq<u8>) -> Seq<u8>
    decreases s, 0int,
{
    if s.len() == 0 {
        Seq::empty()
    } else if s.len() == 1 {
        r_value(s[0], pad)
    } else {
        r_items_inline(s.drop_last(), pad) + seq![(',' as u8), (' ' as u8)] + r_value(s.last(), pad)
    }
}

/// Expanded list elements, one per line, each ending in a comma.
pub open spec fn r_items_expanded(s: Seq<Val>, pad: Seq<u8>) -> Seq<u8>
    decreases s, 0int,
{
    if s.len() == 0 {
        Seq::empty()
    } else {
        r_items_expanded(s.drop_last(), pad) + seq![('\n' as u8)] + pad + r_value(s.last(), pad) + seq![
            (',' as u8),
        ]
    }
}

/// Compound entries, one `name: value` line each.
pub open spec fn r_entries(es: Seq<(Seq<u8>, Val)>, pad: Seq<u8>) -> Seq<u8>
    decreases es, 0int,
{
    if es.len() == 0 {
        Seq::empty()
    } else {
        r_entries(es.drop_last(), pad) + seq![('\n' as u8)] + pad + es.last().0 + seq![(':' as u8), (' ' as u8)]
            + r_value(es.last().1, pad)
    }
}

/// Append the byte rendering one hex digit.
fn push_hex_digit(out: &mut Vec<u8>, d: u64)
    requires
        d < 16,
    ensures
        final(out)@ == old(out)@ + seq![hex_digit(d as int)],
{
    if d < 10 {
        out.push((d as u8) + 0x30);
    } else {
        out.push((d as u8) + 0x37);
    }
    assert(final(out)@ =~= old(out)@ + seq![hex_digit(d as int)]);
}

/// Append a number in hex, zero-padded to a fixed width.
fn push_hex_fixed(out: &mut Vec<u8>, n: u64, width: usize)
    ensures
        final(out)@ == old(out)@ + hex_digits_fixed(n as nat, width as nat),
    decreases width,
{
    if width == 0 {
        assert(final(out)@ =~= old(out)@ + hex_digits_fixed(n as nat, 0));
    } else {
        push_hex_fixed(out, n / 16, width - 1);
        push_hex_digit(out, n % 16);
        assert(final(out)@ =~= old(out)@ + hex_digits_fixed(n as nat, width as nat));
    }
}

/// Append a number in decimal.
fn push_dec_u64(out: &mut Vec<u8>, n: u64)
    ensures
        final(out)@ == old(out)@ + dec_digits(n as nat),
    decreases n,
{
    if n < 10 {
        push_hex_digit(out, n);
        assert(final(out)@ =~= old(out)@ + dec_digits(n as nat));
    } else {
        push_dec_u64(out, n / 10);
        push_hex_digit(out, n % 10);
        assert(final(out)@ =~= old(out)@ + dec_digits(n as nat));
    }
}

/// Append a signed number in decimal.
fn push_dec_i64(out: &mut Vec<u8>, x: i64)
    ensures
        final(out)@ == old(out)@ + dec_int(x as int),
{
    if x >= 0 {
        push_dec_u64(out, x as u64);
    } else {
        out.push(('-' as u8));
        let m: u64 = !(x as u64);
        proof {
            assert(x < 0 ==> (!(x as u64)) as int + 1 == -(x as int)) by (bit_vector);
            assert(x < 0 ==> (!(x as u64)) < 0xFFFF_FFFF_FFFF_FFFF) by (bit_vector);
        }
        push_dec_u64(out, m + 1);
        assert(final(out)@ =~= old(out)@ + dec_int(x as int));
    }
}

/// Append the count annotation.
fn push_count(out: &mut Vec<u8>, n: u64)
    ensures
        final(out)@ == old(out)@ + r_count(n as nat),
{
    out.push(('(' as u8));
    push_dec_u64(out, n);
    out.push((')' as u8));
    out.push((' ' as u8));
    out.push(('e' as u8));
    out.push(('n' as u8));
    out.push(('t' as u8));
    out.push(('r' as u8));
    out.push(('i' as u8));
    out.push(('e' as u8));
    out.push(('s' as u8));
    out.push((' ' as u8));
    assert(final(out)@ =~= old(out)@ + r_count(n as nat));
}

/// Append the rendering of one value.
#[verifier::loop_isolation(false)]
#[verifier::rlimit(60)]
fn render_value(v: &NBT, pad: &Vec<u8>, out: &mut Vec<u8>)
    ensures
        final(out)@ == old(out)@ + r_value(v@, pad@),
    decreases v,
{
    match v {
        NBT::Byte(b) => {
            out.push(('0' as u8));
            out.push(('x' as u8));
            push_hex_fixed(out, *b as u64, 2);
            assert(final(out)@ =~= old(out)@ + r_value(v@, pad@));
        },
        NBT::Short(x) => {
            push_dec_i64(out, *x as i64);
            proof {
                assert((*x as i64) as int == *x as int);
            }
        },
        NBT::Int(x) => {
            push_dec_i64(out, *x as i64);
            proof {
                assert((*x as i64) as int == *x as int);
            }
        },
        NBT::Long(x) => {
            push_dec_i64(out, *x);
        },
        NBT::Float(u) => {
            out.push(('f' as u8));
            out.push(('3' as u8));
            out.push(('2' as u8));
            out.push((':' as u8));
            out.push(('0' as u8));
            out.push(('x' as u8));
            push_hex_fixed(out, *u as u64, 8);
            assert(final(out)@ =~= old(out)@ + r_value(v@, pad@));
        },
        NBT::Double(u) => {
            out.push(('f' as u8));
            out.push(('6' as u8));
            out.push(('4' as u8));
            out.push((':' as u8));
            out.push(('0' as u8));
            out.push(('x' as u8));
            push_hex_fixed(out, *u, 16);
            assert(final(out)@ =~= old(out)@ + r_value(v@, pad@));
        },
        NBT::Str(s) => {
            out.push(('"' as u8));
            push_all(out, s);
            out.push(('"' as u8));
            assert(final(out)@ =~= old(out)@ + r_value(v@, pad@));
        },
        NBT::ByteArray(s) => {
            out.push(('(' as u8));
            push_dec_u64(out, s.len() as u64);
            out.push((')' as u8));
            out.push((' ' as u8));
            out.push(('b' as u8));
            out.push(('y' as u8));
            out.push(('t' as u8));
            out.push(('e' as u8));
            out.push(('s' as u8));
            assert(final(out)@ =~= old(out)@ + r_value(v@, pad@));
        },
        NBT::List(t, items) => {
            proof {
                lemma_deep_view_seq(items@);
            }
            let ghost vs = deep_view_seq(items@);
            push_count(out, items.len() as u64);
            out.push(('[' as u8));
            let expanded = items.len() > 0 && (*t == 9 || *t == 10);
            if expanded {
                let pad2 = deeper(pad);
                let ghost header = out@;
                let mut i: usize = 0;
                while i < items.len()
                    invariant
                        0 <= i <= items@.len(),
                        out@ == header + r_items_expanded(vs.take(i as int), pad2@),
                    decreases items@.len() - i,
                {
                    out.push(('\n' as u8));
                    push_all(out, &pad2);
                    proof {
                        assert(decreases_to!(items@ => items@[i as int]));
                        assert(decreases_to!(*v => items@[i as int]));
                    }
                    render_value(&items[i], &pad2, out);
                    out.push((',' as u8));
                    proof {
                        assert(vs.take(i + 1).drop_last() =~= vs.take(i as int));
                        assert(vs.take(i + 1).last() == vs[i as int]);
                        assert(out@ =~= header + r_items_expanded(vs.take(i + 1), pad2@));
                    }
                    i = i + 1;
                }
                out.push(('\n' as u8));
                push_all(out, pad);
                out.push((']' as u8));
                proof {
                    assert(vs.take(vs.len() as int) =~= vs);
                    assert(final(out)@ =~= old(out)@ + r_value(v@, pad@));
                }
            } else {
                let ghost header = out@;
                let mut i: usize = 0;
                while i < items.len()
                    invariant
                        0 <= i <= items@.len(),
                        out@ == header + r_items_inline(vs.take(i as int), pad@),
                    decreases items@.len() - i,
                {
                    if i > 0 {
                        out.push((',' as u8));
                        out.push((' ' as u8));
                    }
                    proof {
                        assert(decreases_to!(items@ => items@[i as int]));
                        assert(decreases_to!(*v => items@[i as int]));
                    }
                    render_value(&items[i], pad, out);
                    proof {
                        assert(vs.take(i + 1).drop_last() =~= vs.take(i as int));
                        assert(vs.take(i + 1).last() == vs[i as int]);
                        assert(out@ =~= header + r_items_inline(vs.take(i + 1), pad@));
                    }
                    i = i + 1;
                }
                out.push((']' as u8));
                proof {
                    assert(vs.take(vs.len() as int) =~= vs);
                    assert(final(out)@ =~= old(out)@ + r_value(v@, pad@));
                }
            }
        },
        NBT::Compound(entries) => {
            proof {
                lemma_deep_view_entries(entries@);
            }
            let ghost vs = deep_view_entries(entries@);
            push_count(out, entries.len() as u64);
            out.push(('{' as u8));
            let pad2 = deeper(pad);
            let ghost header = out@;
            let mut i: usize = 0;
            while i < entries.len()
                invariant
                    0 <= i <= entries@.len(),
                    out@ == header + r_entries(vs.take(i as int), pad2@),
                decreases entries@.len() - i,
            {
                out.push(('\n' as u8));
                push_all(out, &pad2);
                let pair = &entries[i];
                push_all(out, &pair.0);
                out.push((':' as u8));
                out.push((' ' as u8));
                proof {
                    assert(decreases_to!(entries@ => entries@[i as int]));
                    assert(decreases_to!(entries@[i as int] => entries@[i as int].1));
                    assert(decreases_to!(*v => entries@[i as int].1));
                }
                render_value(&pair.1, &pad2, out);
                proof {
                    assert(vs.take(i + 1).drop_last() =~= vs.take(i as int));
                    assert(vs.take(i + 1).last() == vs[i as int]);
                    assert(out@ =~= header + r_entries(vs.take(i + 1), pad2@));
                }
                i = i + 1;
            }
            out.push(('\n' as u8));
            push_all(out, pad);
            out.push(('}' as u8));
            proof {
                assert(vs.take(vs.len() as int) =~= vs);
                assert(final(out)@ =~= old(out)@ + r_value(v@, pad@));
            }
        },
    }
}

/// Append a byte vector verbatim.
#[verifier::loop_isolation(false)]
fn push_all(out: &mut Vec<u8>, b: &Vec<u8>)
    ensures
        final(out)@ == old(out)@ + b@,
{
    let mut i: usize = 0;
    while i < b.len()
        invariant
            0 <= i <= b@.len(),
            out@ == old(out)@ + b@.subrange(0, i as int),
        decreases b@.len() - i,
    {
        out.push(b[i]);
        assert(out@ =~= old(out)@ + b@.subrange(0, i + 1));
        i = i + 1;
    }
    assert(b@.subrange(0, b@.len() as int) =~= b@);
}

/// One more level of indentation.
fn deeper(pad: &Vec<u8>) -> (r: Vec<u8>)
    ensures
        r@ == pad@ + seq![(' ' as u8), (' ' as u8)],
{
    let mut r: Vec<u8> = Vec::new();
    push_all(&mut r, pad);
    r.push((' ' as u8));
    r.push((' ' as u8));
    proof {
        assert(r@ =~= pad@ + seq![(' ' as u8), (' ' as u8)]);
    }
    r
}

impl NBT {
    /// The indented textual rendering of this tree, as UTF-8 bytes.
    pub fn render(&self) -> (res: Vec<u8>)
        ensures
            res@ == r_value(self@, Seq::<u8>::empty()),
    {
        let mut out: Vec<u8> = Vec::new();
        let pad: Vec<u8> = Vec::new();
        render_value(self, &pad, &mut out);
        out
    }
}

} // verus!
