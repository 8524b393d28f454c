//! Laws of the codec: where each child stands in an assembled frame, and that
//! parsing an assembled message reproduces the message.

use vstd::prelude::*;
use crate::bitmap::{Bitmap, word_bit, bitmap_closed};
use crate::encoding::{Encoding, spec_byte_length, spec_bytes_ok};
use crate::field::{
    ChildField,
    spec_parse_child,
    spec_parse_fixed,
    spec_parse_var,
    spec_assemble_child,
    spec_assemble_fixed,
    spec_assemble_var,
    spec_prefix_value,
    spec_prefix_bytes,
    spec_content_chars,
    spec_prefix_cap,
    lemma_prefix_bytes_len,
    lemma_prefix_round_trip,
    lemma_prefix_bytes_unique,
    prefix_wf,
};
use crate::iso_spec::{
    BmpField,
    Field,
    spec_child_at,
    spec_parse_bitmap,
    spec_parse_children,
    spec_parse_bmp,
    spec_parse_field,
    spec_parse_fields,
    spec_parse_msg,
    spec_assemble_children,
    spec_assemble_field,
    spec_assemble_fields,
    spec_assemble_msg,
    children_wf,
    fields_wf,
};
use crate::wire::{u64_to_be, lemma_u64_be_round_trip, lemma_u64_be_bytes_round_trip};

verus! {

/// The assembled wire bytes of the children at positions `p..<q` (the
/// reserved indicator position 65 excepted), in ascending position order.
pub open spec fn spec_assemble_upto(
    children: Seq<ChildField>,
    bmp: Bitmap,
    m: Map<Seq<char>, Seq<u8>>,
    p: u32,
    q: u32,
) -> Option<Seq<u8>>
    decreases q - p,
{
    if p >= q {
        Some(Seq::empty())
    } else if p != 65 && bmp.spec_is_on(p) {
        match spec_child_at(children, p) {
            None => None,
            Some(c) => if m.contains_key(c.spec_name()) {
                match spec_assemble_child(c, m[c.spec_name()]) {
                    None => None,
                    Some(seg) => match spec_assemble_upto(children, bmp, m, (p + 1) as u32, q) {
                        None => None,
                        Some(rest) => Some(seg + rest),
                    },
                }
            } else {
                None
            },
        }
    } else {
        spec_assemble_upto(children, bmp, m, (p + 1) as u32, q)
    }
}

/// The accumulator-threading assembly equals the accumulator followed by the
/// concatenation form.
pub proof fn lemma_children_eq_upto(
    children: Seq<ChildField>,
    bmp: Bitmap,
    m: Map<Seq<char>, Seq<u8>>,
    acc: Seq<u8>,
    p: u32,
)
    requires
        2 <= p <= 193,
    ensures
        spec_assemble_children(children, bmp, m, acc, p) == (match spec_assemble_upto(
            children,
            bmp,
            m,
            p,
            193,
        ) {
            Some(u) => Some(acc + u),
            None => None,
        }),
    decreases 193 - p,
{
    if p >= 193 {
        assert(acc + Seq::<u8>::empty() =~= acc);
    } else if p != 65 && bmp.spec_is_on(p) {
        match spec_child_at(children, p) {
            None => {},
            Some(c) => {
                if m.contains_key(c.spec_name()) {
                    match spec_assemble_child(c, m[c.spec_name()]) {
                        None => {},
                        Some(seg) => {
                            lemma_children_eq_upto(children, bmp, m, acc + seg, (p + 1) as u32);
                            match spec_assemble_upto(children, bmp, m, (p + 1) as u32, 193) {
                                Some(rest) => {
                                    assert((acc + seg) + rest =~= acc + (seg + rest));
                                },
                                None => {},
                            }
                        },
                    }
                }
            },
        }
    } else {
        lemma_children_eq_upto(children, bmp, m, acc, (p + 1) as u32);
    }
}

/// The assembled range `p..<q` splits at any middle position.
pub proof fn lemma_upto_split(
    children: Seq<ChildField>,
    bmp: Bitmap,
    m: Map<Seq<char>, Seq<u8>>,
    p: u32,
    mid: u32,
    q: u32,
)
    requires
        p <= mid <= q,
    ensures
        spec_assemble_upto(children, bmp, m, p, q) == (match (
            spec_assemble_upto(children, bmp, m, p, mid),
            spec_assemble_upto(children, bmp, m, mid, q),
        ) {
            (Some(a), Some(b)) => Some(a + b),
            _ => None,
        }),
    decreases mid - p,
{
    if p == mid {
        match spec_assemble_upto(children, bmp, m, mid, q) {
            Some(b) => {
                assert(Seq::<u8>::empty() + b =~= b);
            },
            None => {},
        }
    } else {
        lemma_upto_split(children, bmp, m, (p + 1) as u32, mid, q);
        if p != 65 && bmp.spec_is_on(p) {
            match spec_child_at(children, p) {
                None => {},
                Some(c) => {
                    if m.contains_key(c.spec_name()) {
                        match spec_assemble_child(c, m[c.spec_name()]) {
                            None => {},
                            Some(seg) => {
                                match (
                                    spec_assemble_upto(children, bmp, m, (p + 1) as u32, mid),
                                    spec_assemble_upto(children, bmp, m, mid, q),
                                ) {
                                    (Some(a), Some(b)) => {
                                        assert(seg + (a + b) =~= (seg + a) + b);
                                    },
                                    _ => {},
                                }
                            },
                        }
                    }
                },
            }
        }
    }
}

/// The byte offset, within the assembled child area, at which the child at
/// position `q` stands.
pub open spec fn spec_child_offset(
    children: Seq<ChildField>,
    bmp: Bitmap,
    m: Map<Seq<char>, Seq<u8>>,
    q: u32,
) -> int {
    spec_assemble_upto(children, bmp, m, 2, q)->Some_0.len() as int
}

/// A child's assembled segment is never empty: a fixed field has at least one
/// content byte, a variable field at least one prefix byte.
proof fn lemma_child_seg_nonempty(c: ChildField, content: Seq<u8>)
    requires
        c.wf(),
        spec_assemble_child(c, content) is Some,
    ensures
        spec_assemble_child(c, content)->Some_0.len() > 0,
{
    match c {
        ChildField::Fixed(f) => {},
        ChildField::Var(f) => {
            let chars = spec_content_chars(f.encoding, content.len());
            lemma_prefix_bytes_len(f.len_encoding, chars, f.len as nat);
        },
    }
}

/// When the whole child area assembles, so does every sub-range of positions.
proof fn lemma_upto_some_all(
    children: Seq<ChildField>,
    bmp: Bitmap,
    m: Map<Seq<char>, Seq<u8>>,
    p: u32,
    q: u32,
)
    requires
        2 <= p <= q <= 193,
        spec_assemble_upto(children, bmp, m, 2, 193) is Some,
    ensures
        spec_assemble_upto(children, bmp, m, p, q) is Some,
{
    lemma_upto_split(children, bmp, m, 2, p, 193);
    lemma_upto_split(children, bmp, m, p, q, 193);
}

/// Position ordering: within the assembled child area, the byte offset of a
/// present child is strictly increasing in its position; the earlier child's
/// whole segment lies before the later child's offset.
pub proof fn lemma_position_offsets_monotone(
    children: Seq<ChildField>,
    bmp: Bitmap,
    m: Map<Seq<char>, Seq<u8>>,
    q1: u32,
    q2: u32,
)
    requires
        children_wf(children),
        2 <= q1 < q2 <= 192,
        q1 != 65,
        bmp.spec_is_on(q1),
        spec_assemble_upto(children, bmp, m, 2, 193) is Some,
    ensures
        spec_child_offset(children, bmp, m, q1) + spec_assemble_child(
            spec_child_at(children, q1)->Some_0,
            m[spec_child_at(children, q1)->Some_0.spec_name()],
        )->Some_0.len() <= spec_child_offset(children, bmp, m, q2),
        spec_child_offset(children, bmp, m, q1) < spec_child_offset(children, bmp, m, q2),
{
    lemma_upto_some_all(children, bmp, m, q1, 193);
    let c = spec_child_at(children, q1);
    assert(c is Some && m.contains_key(c->Some_0.spec_name()) && spec_assemble_child(
        c->Some_0,
        m[c->Some_0.spec_name()],
    ) is Some);
    let seg = spec_assemble_child(c->Some_0, m[c->Some_0.spec_name()])->Some_0;
    lemma_child_at_wf_local(children, q1);
    lemma_child_seg_nonempty(c->Some_0, m[c->Some_0.spec_name()]);
    lemma_upto_some_all(children, bmp, m, 2, q1);
    lemma_upto_some_all(children, bmp, m, 2, q2);
    lemma_upto_some_all(children, bmp, m, (q1 + 1) as u32, q2);
    lemma_upto_split(children, bmp, m, 2, q1, q2);
    lemma_upto_split(children, bmp, m, q1, (q1 + 1) as u32, q2);
    assert(spec_assemble_upto(children, bmp, m, q1, (q1 + 1) as u32) == Some(
        seg + Seq::<u8>::empty(),
    ));
    assert(seg + Seq::<u8>::empty() =~= seg);
}

/// A child found by position is well formed when all children are.
proof fn lemma_child_at_wf_local(children: Seq<ChildField>, p: u32)
    requires
        children_wf(children),
        spec_child_at(children, p) is Some,
    ensures
        spec_child_at(children, p)->Some_0.wf(),
    decreases children.len(),
{
    if children.len() > 0 && children[0].spec_position() != p {
        assert(forall|i: int|
            0 <= i < children.drop_first().len() ==> (#[trigger] children.drop_first()[i])
                == children[i + 1]);
        lemma_child_at_wf_local(children.drop_first(), p);
    }
}


/// Parsing the wire form of a cascade-closed bitmap yields the same bitmap,
/// consuming exactly its 8, 16 or 24 bytes.
pub proof fn lemma_bitmap_bytes_round_trip(b: Bitmap, buf: Seq<u8>, pos: int)
    requires
        bitmap_closed(b),
        0 <= pos,
        pos + b.spec_as_bytes().len() <= buf.len(),
        buf.subrange(pos, pos + b.spec_as_bytes().len()) == b.spec_as_bytes(),
    ensures
        spec_parse_bitmap(buf, pos) == Some((b, pos + b.spec_as_bytes().len())),
{
    let ab = b.spec_as_bytes();
    lemma_u64_be_round_trip(b.p_bmp);
    lemma_u64_be_round_trip(b.s_bmp);
    lemma_u64_be_round_trip(b.t_bmp);
    assert((0u64 >> 63u64) & 1u64 != 1u64) by (bit_vector);
    assert(u64_to_be(b.p_bmp).len() == 8 && u64_to_be(b.s_bmp).len() == 8 && u64_to_be(
        b.t_bmp,
    ).len() == 8);
    if b.spec_is_on(1) {
        if b.spec_is_on(65) {
            assert(forall|j: int| 0 <= j < 8 ==> u64_to_be(b.p_bmp)[j] == ab[j]);
            assert(forall|j: int| 0 <= j < 8 ==> u64_to_be(b.s_bmp)[j] == ab[8 + j]);
            assert(forall|j: int| 0 <= j < 8 ==> u64_to_be(b.t_bmp)[j] == ab[16 + j]);
            lemma_subrange_shift(buf, pos, ab, 0, u64_to_be(b.p_bmp));
            lemma_subrange_shift(buf, pos, ab, 8, u64_to_be(b.s_bmp));
            lemma_subrange_shift(buf, pos, ab, 16, u64_to_be(b.t_bmp));
        } else {
            assert(forall|j: int| 0 <= j < 8 ==> u64_to_be(b.p_bmp)[j] == ab[j]);
            assert(forall|j: int| 0 <= j < 8 ==> u64_to_be(b.s_bmp)[j] == ab[8 + j]);
            lemma_subrange_shift(buf, pos, ab, 0, u64_to_be(b.p_bmp));
            lemma_subrange_shift(buf, pos, ab, 8, u64_to_be(b.s_bmp));
            assert(b.t_bmp == 0);
        }
    } else {
        assert(forall|j: int| 0 <= j < 8 ==> u64_to_be(b.p_bmp)[j] == ab[j]);
        lemma_subrange_shift(buf, pos, ab, 0, u64_to_be(b.p_bmp));
        assert(b.s_bmp == 0);
        assert(b.t_bmp == 0);
    }
}

/// A slice of the buffer holding `ab` at `pos` equals the matching slice of
/// `ab`.
proof fn lemma_subrange_shift(buf: Seq<u8>, pos: int, ab: Seq<u8>, off: int, part: Seq<u8>)
    requires
        0 <= pos,
        pos + ab.len() <= buf.len(),
        buf.subrange(pos, pos + ab.len()) == ab,
        0 <= off,
        off + part.len() <= ab.len(),
        forall|j: int| 0 <= j < part.len() ==> #[trigger] part[j] == ab[off + j],
    ensures
        buf.subrange(pos + off, pos + off + part.len()) =~= part,
{
    assert forall|j: int|
        0 <= j < part.len() implies buf.subrange(pos + off, pos + off + part.len() as int)[j]
        == part[j] by {
        assert(buf.subrange(pos, pos + ab.len() as int)[off + j] == buf[pos + off + j]);
        assert(part[j] == ab[off + j]);
    }
}

/// Parsing a freshly assembled child's wire bytes yields back its content and
/// consumes exactly those bytes.
pub proof fn lemma_child_round_trip(c: ChildField, content: Seq<u8>, buf: Seq<u8>, pos: int)
    requires
        c.wf(),
        spec_bytes_ok(c.spec_encoding(), content),
        spec_assemble_child(c, content) is Some,
        0 <= pos,
        pos + spec_assemble_child(c, content)->Some_0.len() <= buf.len(),
        buf.subrange(pos, pos + spec_assemble_child(c, content)->Some_0.len())
            == spec_assemble_child(c, content)->Some_0,
    ensures
        spec_parse_child(c, buf, pos) == Some(
            (content, pos + spec_assemble_child(c, content)->Some_0.len()),
        ),
{
    let seg = spec_assemble_child(c, content)->Some_0;
    match c {
        ChildField::Fixed(f) => {
            assert(seg == content);
            assert(buf.subrange(pos, pos + content.len()) == content);
        },
        ChildField::Var(f) => {
            let chars = spec_content_chars(f.encoding, content.len());
            let d = f.len as nat;
            let prefix = spec_prefix_bytes(f.len_encoding, chars, d);
            lemma_prefix_bytes_len(f.len_encoding, chars, d);
            let pn = spec_byte_length(f.len_encoding, d);
            assert(seg == prefix + content);
            assert(seg.len() == pn + content.len());
            assert(buf.subrange(pos, pos + pn) =~= prefix) by {
                assert(forall|i: int| 0 <= i < seg.len() ==> seg[i] == #[trigger] buf[pos + i]);
                assert(forall|i: int| 0 <= i < pn ==> prefix[i] == seg[i]);
            }
            lemma_prefix_round_trip(f.len_encoding, chars, d);
            assert(spec_prefix_value(f.len_encoding, buf.subrange(pos, pos + pn)) == Some(chars));
            let cn = spec_byte_length(f.encoding, chars);
            assert(cn == content.len());
            assert(buf.subrange(pos + pn, pos + pn + cn) =~= content) by {
                assert(forall|i: int| 0 <= i < seg.len() ==> seg[i] == #[trigger] buf[pos + i]);
                assert(forall|i: int| 0 <= i < content.len() ==> content[i] == seg[pn + i]);
            }
        },
    }
}

/// Every stored content that a present child of the bitmap would assemble is
/// valid under that child's alphabet.
pub open spec fn contents_valid(
    children: Seq<ChildField>,
    bmp: Bitmap,
    m: Map<Seq<char>, Seq<u8>>,
) -> bool {
    forall|q: u32|
        2 <= q < 193 && q != 65 && #[trigger] bmp.spec_is_on(q) && spec_child_at(children, q)
            is Some && m.contains_key(spec_child_at(children, q)->Some_0.spec_name())
            ==> spec_bytes_ok(
            spec_child_at(children, q)->Some_0.spec_encoding(),
            m[spec_child_at(children, q)->Some_0.spec_name()],
        )
}

/// The name-to-content bindings the parse of positions `p..=192` makes.
pub open spec fn children_entries(
    children: Seq<ChildField>,
    bmp: Bitmap,
    m: Map<Seq<char>, Seq<u8>>,
    p: u32,
) -> Map<Seq<char>, Seq<u8>>
    decreases 193 - p,
{
    if p >= 193 {
        Map::empty()
    } else if p != 65 && bmp.spec_is_on(p) && spec_child_at(children, p) is Some {
        let c = spec_child_at(children, p)->Some_0;
        Map::<Seq<char>, Seq<u8>>::empty().insert(
            c.spec_name(),
            m[c.spec_name()],
        ).union_prefer_right(children_entries(children, bmp, m, (p + 1) as u32))
    } else {
        children_entries(children, bmp, m, (p + 1) as u32)
    }
}

/// Parsing the assembled child area from position `p` binds exactly the
/// present children's contents over the map parsed so far, and consumes
/// exactly the area's bytes.
pub proof fn lemma_children_round_trip(
    children: Seq<ChildField>,
    bmp: Bitmap,
    m: Map<Seq<char>, Seq<u8>>,
    m0: Map<Seq<char>, Seq<u8>>,
    buf: Seq<u8>,
    pos: int,
    p: u32,
)
    requires
        children_wf(children),
        contents_valid(children, bmp, m),
        2 <= p <= 193,
        spec_assemble_upto(children, bmp, m, p, 193) is Some,
        0 <= pos,
        pos + spec_assemble_upto(children, bmp, m, p, 193)->Some_0.len() <= buf.len(),
        buf.subrange(pos, pos + spec_assemble_upto(children, bmp, m, p, 193)->Some_0.len())
            == spec_assemble_upto(children, bmp, m, p, 193)->Some_0,
    ensures
        spec_parse_children(children, bmp, buf, pos, m0, p) == Some(
            (
                m0.union_prefer_right(children_entries(children, bmp, m, p)),
                pos + spec_assemble_upto(children, bmp, m, p, 193)->Some_0.len(),
            ),
        ),
    decreases 193 - p,
{
    let tail = spec_assemble_upto(children, bmp, m, p, 193)->Some_0;
    if p >= 193 {
        assert(m0.union_prefer_right(Map::<Seq<char>, Seq<u8>>::empty()) =~= m0);
    } else if p != 65 && bmp.spec_is_on(p) {
        let c = spec_child_at(children, p)->Some_0;
        let content = m[c.spec_name()];
        let seg = spec_assemble_child(c, content)->Some_0;
        let rest = spec_assemble_upto(children, bmp, m, (p + 1) as u32, 193)->Some_0;
        assert(tail == seg + rest);
        lemma_child_at_wf_local(children, p);
        assert(buf.subrange(pos, pos + seg.len()) =~= seg) by {
            assert(forall|i: int| 0 <= i < tail.len() ==> tail[i] == #[trigger] buf[pos + i]);
            assert(forall|i: int| 0 <= i < seg.len() ==> seg[i] == tail[i]);
        }
        lemma_child_round_trip(c, content, buf, pos);
        let np = pos + seg.len();
        assert(buf.subrange(np, np + rest.len()) =~= rest) by {
            assert(forall|i: int| 0 <= i < tail.len() ==> tail[i] == #[trigger] buf[pos + i]);
            assert(forall|i: int| 0 <= i < rest.len() ==> rest[i] == tail[seg.len() + i]);
        }
        let m1 = m0.insert(c.spec_name(), content);
        lemma_children_round_trip(children, bmp, m, m1, buf, np, (p + 1) as u32);
        let e = children_entries(children, bmp, m, (p + 1) as u32);
        assert(m1.union_prefer_right(e) =~= m0.union_prefer_right(
            Map::<Seq<char>, Seq<u8>>::empty().insert(c.spec_name(), content).union_prefer_right(
                e,
            ),
        ));
    } else {
        lemma_children_round_trip(children, bmp, m, m0, buf, pos, (p + 1) as u32);
    }
}


/// Assembling one field onto an accumulator appends exactly what it would
/// produce on an empty accumulator.
proof fn lemma_assemble_field_acc(
    f: Field,
    m: Map<Seq<char>, Seq<u8>>,
    bmp: Bitmap,
    acc: Seq<u8>,
)
    ensures
        spec_assemble_field(f, m, bmp, acc) == (match spec_assemble_field(
            f,
            m,
            bmp,
            Seq::empty(),
        ) {
            Some(u) => Some(acc + u),
            None => None,
        }),
{
    match f {
        Field::Fixed(ff) => {
            if m.contains_key(ff.name@) {
                match spec_assemble_fixed(ff, m[ff.name@]) {
                    Some(seg) => {
                        assert(Seq::<u8>::empty() + seg =~= seg);
                    },
                    None => {},
                }
            }
        },
        Field::Var(vf) => {
            if m.contains_key(vf.name@) {
                match spec_assemble_var(vf, m[vf.name@]) {
                    Some(seg) => {
                        assert(Seq::<u8>::empty() + seg =~= seg);
                    },
                    None => {},
                }
            }
        },
        Field::Bmp(bf) => {
            lemma_children_eq_upto(bf.children@, bmp, m, acc + bmp.spec_as_bytes(), 2);
            lemma_children_eq_upto(bf.children@, bmp, m, Seq::empty() + bmp.spec_as_bytes(), 2);
            assert(Seq::<u8>::empty() + bmp.spec_as_bytes() =~= bmp.spec_as_bytes());
            match spec_assemble_upto(bf.children@, bmp, m, 2, 193) {
                Some(u) => {
                    assert((acc + bmp.spec_as_bytes()) + u =~= acc + (bmp.spec_as_bytes() + u));
                },
                None => {},
            }
        },
    }
}

/// Assembling fields onto an accumulator appends exactly what they would
/// produce on an empty accumulator.
proof fn lemma_assemble_fields_acc(
    fields: Seq<Field>,
    m: Map<Seq<char>, Seq<u8>>,
    bmp: Bitmap,
    acc: Seq<u8>,
)
    ensures
        spec_assemble_fields(fields, m, bmp, acc) == (match spec_assemble_fields(
            fields,
            m,
            bmp,
            Seq::empty(),
        ) {
            Some(u) => Some(acc + u),
            None => None,
        }),
    decreases fields.len(),
{
    if fields.len() == 0 {
        assert(acc + Seq::<u8>::empty() =~= acc);
    } else {
        lemma_assemble_field_acc(fields[0], m, bmp, acc);
        lemma_assemble_field_acc(fields[0], m, bmp, Seq::empty());
        match spec_assemble_field(fields[0], m, bmp, Seq::empty()) {
            None => {},
            Some(seg) => {
                assert(Seq::<u8>::empty() + seg =~= seg);
                lemma_assemble_fields_acc(fields.drop_first(), m, bmp, acc + seg);
                lemma_assemble_fields_acc(fields.drop_first(), m, bmp, seg);
                match spec_assemble_fields(fields.drop_first(), m, bmp, Seq::empty()) {
                    None => {},
                    Some(rest) => {
                        assert((acc + seg) + rest =~= acc + (seg + rest));
                    },
                }
            },
        }
    }
}

/// Every stored content a field of the layout would assemble is valid under
/// its alphabet.
pub open spec fn msg_fields_ok(
    fields: Seq<Field>,
    m: Map<Seq<char>, Seq<u8>>,
    bmp: Bitmap,
) -> bool
    decreases fields.len(),
{
    if fields.len() == 0 {
        true
    } else {
        (match fields[0] {
            Field::Fixed(f) => m.contains_key(f.name@) ==> spec_bytes_ok(f.encoding, m[f.name@]),
            Field::Var(f) => m.contains_key(f.name@) ==> spec_bytes_ok(f.encoding, m[f.name@]),
            Field::Bmp(b) => contents_valid(b.children@, bmp, m),
        }) && msg_fields_ok(fields.drop_first(), m, bmp)
    }
}

/// The name-to-content bindings that parsing the assembled fields makes.
pub open spec fn fields_entries(
    fields: Seq<Field>,
    m: Map<Seq<char>, Seq<u8>>,
    bmp: Bitmap,
) -> Map<Seq<char>, Seq<u8>>
    decreases fields.len(),
{
    if fields.len() == 0 {
        Map::empty()
    } else {
        (match fields[0] {
            Field::Fixed(f) => Map::<Seq<char>, Seq<u8>>::empty().insert(f.name@, m[f.name@]),
            Field::Var(f) => Map::<Seq<char>, Seq<u8>>::empty().insert(f.name@, m[f.name@]),
            Field::Bmp(b) => children_entries(b.children@, bmp, m, 2),
        }).union_prefer_right(fields_entries(fields.drop_first(), m, bmp))
    }
}

/// The bitmap a parse of the layout ends with: the assembled bitmap once a
/// composite field has been walked, the initial one otherwise.
pub open spec fn fields_result_bmp(fields: Seq<Field>, bmp: Bitmap, bmp0: Bitmap) -> Bitmap
    decreases fields.len(),
{
    if fields.len() == 0 {
        bmp0
    } else {
        match fields[0] {
            Field::Bmp(_) => fields_result_bmp(fields.drop_first(), bmp, bmp),
            _ => fields_result_bmp(fields.drop_first(), bmp, bmp0),
        }
    }
}

/// The all-zero bitmap a parse starts from.
pub open spec fn zero_bitmap() -> Bitmap {
    Bitmap { p_bmp: 0u64, s_bmp: 0u64, t_bmp: 0u64 }
}

/// Parsing assembled fields binds exactly the fields' contents over the map
/// parsed so far, ends with the assembled bitmap once the composite field has
/// been walked, and consumes exactly the assembled bytes.
proof fn lemma_fields_round_trip(
    fields: Seq<Field>,
    m: Map<Seq<char>, Seq<u8>>,
    bmp: Bitmap,
    m0: Map<Seq<char>, Seq<u8>>,
    bmp0: Bitmap,
    buf: Seq<u8>,
    pos: int,
)
    requires
        fields_wf(fields),
        msg_fields_ok(fields, m, bmp),
        bitmap_closed(bmp),
        spec_assemble_fields(fields, m, bmp, Seq::empty()) is Some,
        0 <= pos,
        pos + spec_assemble_fields(fields, m, bmp, Seq::empty())->Some_0.len() <= buf.len(),
        buf.subrange(pos, pos + spec_assemble_fields(fields, m, bmp, Seq::empty())->Some_0.len())
            == spec_assemble_fields(fields, m, bmp, Seq::empty())->Some_0,
    ensures
        spec_parse_fields(fields, buf, pos, m0, bmp0) == Some(
            (
                m0.union_prefer_right(fields_entries(fields, m, bmp)),
                fields_result_bmp(fields, bmp, bmp0),
                pos + spec_assemble_fields(fields, m, bmp, Seq::empty())->Some_0.len(),
            ),
        ),
    decreases fields.len(),
{
    let tail = spec_assemble_fields(fields, m, bmp, Seq::empty())->Some_0;
    if fields.len() == 0 {
        assert(m0.union_prefer_right(Map::<Seq<char>, Seq<u8>>::empty()) =~= m0);
    } else {
        let f0 = fields[0];
        assert(f0.wf() && fields_wf(fields.drop_first())) by {
            assert(forall|i: int|
                0 <= i < fields.drop_first().len() ==> (#[trigger] fields.drop_first()[i])
                    == fields[i + 1]);
        }
        let seg = spec_assemble_field(f0, m, bmp, Seq::empty())->Some_0;
        lemma_assemble_field_acc(f0, m, bmp, Seq::empty());
        assert(Seq::<u8>::empty() + seg =~= seg);
        lemma_assemble_fields_acc(fields.drop_first(), m, bmp, seg);
        let rest = spec_assemble_fields(fields.drop_first(), m, bmp, Seq::empty())->Some_0;
        assert(tail == seg + rest);
        assert(buf.subrange(pos, pos + seg.len()) =~= seg) by {
            assert(forall|j: int| 0 <= j < seg.len() ==> #[trigger] seg[j] == tail[j]);
            lemma_subrange_shift(buf, pos, tail, 0, seg);
        }
        let np = pos + seg.len();
        assert(buf.subrange(np, np + rest.len()) =~= rest) by {
            assert(forall|j: int| 0 <= j < rest.len() ==> #[trigger] rest[j] == tail[seg.len()
                + j]);
            lemma_subrange_shift(buf, pos, tail, seg.len() as int, rest);
        }
        match f0 {
            Field::Fixed(ff) => {
                lemma_child_round_trip(ChildField::Fixed(ff), m[ff.name@], buf, pos);
                let m1 = m0.insert(ff.name@, m[ff.name@]);
                lemma_fields_round_trip(fields.drop_first(), m, bmp, m1, bmp0, buf, np);
                let e = fields_entries(fields.drop_first(), m, bmp);
                assert(m1.union_prefer_right(e) =~= m0.union_prefer_right(
                    Map::<Seq<char>, Seq<u8>>::empty().insert(
                        ff.name@,
                        m[ff.name@],
                    ).union_prefer_right(e),
                ));
            },
            Field::Var(vf) => {
                lemma_child_round_trip(ChildField::Var(vf), m[vf.name@], buf, pos);
                let m1 = m0.insert(vf.name@, m[vf.name@]);
                lemma_fields_round_trip(fields.drop_first(), m, bmp, m1, bmp0, buf, np);
                let e = fields_entries(fields.drop_first(), m, bmp);
                assert(m1.union_prefer_right(e) =~= m0.union_prefer_right(
                    Map::<Seq<char>, Seq<u8>>::empty().insert(
                        vf.name@,
                        m[vf.name@],
                    ).union_prefer_right(e),
                ));
            },
            Field::Bmp(bf) => {
                let ab = bmp.spec_as_bytes();
                lemma_children_eq_upto(bf.children@, bmp, m, ab, 2);
                let cu = spec_assemble_upto(bf.children@, bmp, m, 2, 193)->Some_0;
                assert(seg == ab + cu);
                assert(buf.subrange(pos, pos + ab.len()) =~= ab) by {
                    assert(forall|j: int| 0 <= j < ab.len() ==> #[trigger] ab[j] == tail[j]);
                    lemma_subrange_shift(buf, pos, tail, 0, ab);
                }
                lemma_bitmap_bytes_round_trip(bmp, buf, pos);
                let cp = pos + ab.len();
                assert(buf.subrange(cp, cp + cu.len()) =~= cu) by {
                    assert(forall|j: int| 0 <= j < cu.len() ==> #[trigger] cu[j] == tail[ab.len()
                        + j]);
                    lemma_subrange_shift(buf, pos, tail, ab.len() as int, cu);
                }
                lemma_children_round_trip(bf.children@, bmp, m, m0, buf, cp, 2);
                let m1 = m0.union_prefer_right(children_entries(bf.children@, bmp, m, 2));
                lemma_fields_round_trip(fields.drop_first(), m, bmp, m1, bmp, buf, np);
                let e = fields_entries(fields.drop_first(), m, bmp);
                assert(m1.union_prefer_right(e) =~= m0.union_prefer_right(
                    children_entries(bf.children@, bmp, m, 2).union_prefer_right(e),
                ));
            },
        }
    }
}

/// What the child walk binds is drawn from the message's own contents.
proof fn lemma_children_entries_sub(
    children: Seq<ChildField>,
    bmp: Bitmap,
    m: Map<Seq<char>, Seq<u8>>,
    p: u32,
)
    requires
        2 <= p <= 193,
        spec_assemble_upto(children, bmp, m, p, 193) is Some,
    ensures
        forall|k: Seq<char>|
            #[trigger] children_entries(children, bmp, m, p).contains_key(k) ==> m.contains_key(k)
                && children_entries(children, bmp, m, p)[k] == m[k],
    decreases 193 - p,
{
    if p < 193 {
        lemma_children_entries_sub(children, bmp, m, (p + 1) as u32);
        let e = children_entries(children, bmp, m, p);
        let rest = children_entries(children, bmp, m, (p + 1) as u32);
        if p != 65 && bmp.spec_is_on(p) && spec_child_at(children, p) is Some {
            let c = spec_child_at(children, p)->Some_0;
            assert(m.contains_key(c.spec_name()));
            assert forall|k: Seq<char>| #[trigger] e.contains_key(k) implies m.contains_key(k)
                && e[k] == m[k] by {
                if rest.contains_key(k) {
                    assert(e[k] == rest[k]);
                } else {
                    assert(k == c.spec_name());
                    assert(e[k] == m[c.spec_name()]);
                }
            }
        }
    }
}

/// What a parse of the assembled fields binds is drawn from the message's own
/// contents.
proof fn lemma_fields_entries_sub(fields: Seq<Field>, m: Map<Seq<char>, Seq<u8>>, bmp: Bitmap)
    requires
        spec_assemble_fields(fields, m, bmp, Seq::empty()) is Some,
    ensures
        forall|k: Seq<char>|
            #[trigger] fields_entries(fields, m, bmp).contains_key(k) ==> m.contains_key(k)
                && fields_entries(fields, m, bmp)[k] == m[k],
    decreases fields.len(),
{
    if fields.len() > 0 {
        let f0 = fields[0];
        lemma_assemble_field_acc(f0, m, bmp, Seq::empty());
        match spec_assemble_field(f0, m, bmp, Seq::empty()) {
            None => {},
            Some(seg) => {
                lemma_assemble_fields_acc(fields.drop_first(), m, bmp, seg);
                lemma_fields_entries_sub(fields.drop_first(), m, bmp);
                let e = fields_entries(fields, m, bmp);
                let rest = fields_entries(fields.drop_first(), m, bmp);
                let head = match f0 {
                    Field::Fixed(f) => Map::<Seq<char>, Seq<u8>>::empty().insert(
                        f.name@,
                        m[f.name@],
                    ),
                    Field::Var(f) => Map::<Seq<char>, Seq<u8>>::empty().insert(
                        f.name@,
                        m[f.name@],
                    ),
                    Field::Bmp(b) => children_entries(b.children@, bmp, m, 2),
                };
                match f0 {
                    Field::Bmp(bf) => {
                        lemma_children_eq_upto(bf.children@, bmp, m, bmp.spec_as_bytes(), 2);
                        lemma_children_entries_sub(bf.children@, bmp, m, 2);
                    },
                    _ => {},
                }
                assert forall|k: Seq<char>| #[trigger] e.contains_key(k) implies m.contains_key(k)
                    && e[k] == m[k] by {
                    if rest.contains_key(k) {
                        assert(e[k] == rest[k]);
                    } else {
                        assert(head.contains_key(k));
                        assert(e[k] == head[k]);
                        match f0 {
                            Field::Fixed(f) => {
                                assert(k == f.name@);
                            },
                            Field::Var(f) => {
                                assert(k == f.name@);
                            },
                            Field::Bmp(bf) => {},
                        }
                    }
                }
            },
        }
    }
}

/// Serialization round trip: parsing the frame assembled from a valid message
/// reproduces the message, with no bytes left over. The message's contents
/// must lie in their fields' alphabets, its bitmap must be cascade-closed (as
/// `set_on` guarantees), and its map must bind exactly the names the layout
/// binds on parsing.
pub proof fn lemma_parse_inverts_assemble(
    fields: Seq<Field>,
    m: Map<Seq<char>, Seq<u8>>,
    bmp: Bitmap,
)
    requires
        fields_wf(fields),
        msg_fields_ok(fields, m, bmp),
        bitmap_closed(bmp),
        spec_assemble_msg(fields, m, bmp) is Some,
        m.dom() == fields_entries(fields, m, bmp).dom(),
    ensures
        ({
            let bytes = spec_assemble_msg(fields, m, bmp)->Some_0;
            spec_parse_msg(fields, bytes) == Some(
                (m, fields_result_bmp(fields, bmp, zero_bitmap()), bytes.len() as int),
            )
        }),
{
    let bytes = spec_assemble_msg(fields, m, bmp)->Some_0;
    assert(bytes.subrange(0, bytes.len() as int) =~= bytes);
    lemma_fields_round_trip(fields, m, bmp, Map::empty(), zero_bitmap(), bytes, 0);
    lemma_fields_entries_sub(fields, m, bmp);
    let e = fields_entries(fields, m, bmp);
    assert(Map::<Seq<char>, Seq<u8>>::empty().union_prefer_right(e) =~= m) by {
        assert(forall|k: Seq<char>| #[trigger] e.contains_key(k) ==> m.contains_key(k) && e[k]
            == m[k]);
        assert(forall|k: Seq<char>| #[trigger] m.contains_key(k) ==> e.contains_key(k));
    }
}


/// A parsed variable-length prefix is canonical when its value lies under the
/// declared digit count's capacity (for a BCD prefix of odd digit count, a
/// zero fill nibble) and, for BCD content, announces an even character count.
pub open spec fn child_parse_canonical(c: ChildField, buf: Seq<u8>, pos: int) -> bool {
    match c {
        ChildField::Fixed(_) => true,
        ChildField::Var(f) => {
            let pn = spec_byte_length(f.len_encoding, f.len as nat);
            pos + pn <= buf.len() ==> match spec_prefix_value(
                f.len_encoding,
                buf.subrange(pos, pos + pn),
            ) {
                Some(n) => n < spec_prefix_cap(f.len_encoding, f.len as nat) && (f.encoding
                    == Encoding::BCD ==> n % 2 == 0),
                None => true,
            }
        },
    }
}

/// Every prefix met while parsing the child area from `(pos, p)` is
/// canonical.
pub open spec fn parse_children_canonical(
    children: Seq<ChildField>,
    bmp: Bitmap,
    buf: Seq<u8>,
    pos: int,
    p: u32,
) -> bool
    decreases 193 - p,
{
    if p >= 193 {
        true
    } else if p != 65 && bmp.spec_is_on(p) {
        match spec_child_at(children, p) {
            None => true,
            Some(c) => child_parse_canonical(c, buf, pos) && match spec_parse_child(c, buf, pos) {
                Some((content, np)) => parse_children_canonical(
                    children,
                    bmp,
                    buf,
                    np,
                    (p + 1) as u32,
                ),
                None => true,
            },
        }
    } else {
        parse_children_canonical(children, bmp, buf, pos, (p + 1) as u32)
    }
}

/// No two children carry the same name.
pub open spec fn distinct_child_names(children: Seq<ChildField>) -> bool {
    forall|i: int, j: int|
        0 <= i < j < children.len() ==> (#[trigger] children[i]).spec_name() != (
        #[trigger] children[j]).spec_name()
}

/// A child found by position is one of the children and carries that
/// position.
proof fn lemma_child_at_element(children: Seq<ChildField>, q: u32)
    requires
        spec_child_at(children, q) is Some,
    ensures
        exists|j: int|
            0 <= j < children.len() && children[j] == spec_child_at(children, q)->Some_0 && (
            #[trigger] children[j]).spec_position() == q,
    decreases children.len(),
{
    if children.len() > 0 && children[0].spec_position() != q {
        lemma_child_at_element(children.drop_first(), q);
        let j = choose|j: int|
            0 <= j < children.drop_first().len() && children.drop_first()[j] == spec_child_at(
                children.drop_first(),
                q,
            )->Some_0 && (#[trigger] children.drop_first()[j]).spec_position() == q;
        assert(children[j + 1] == children.drop_first()[j]);
    }
}

/// Parsing the child area leaves a binding alone when no remaining child
/// carries its name.
proof fn lemma_parse_children_preserves(
    children: Seq<ChildField>,
    bmp: Bitmap,
    buf: Seq<u8>,
    pos: int,
    m0: Map<Seq<char>, Seq<u8>>,
    p: u32,
    k: Seq<char>,
)
    requires
        2 <= p <= 193,
        spec_parse_children(children, bmp, buf, pos, m0, p) is Some,
        forall|i: int| 0 <= i < children.len() ==> (#[trigger] children[i]).spec_name() != k,
    ensures
        ({
            let mf = spec_parse_children(children, bmp, buf, pos, m0, p)->Some_0.0;
            mf.contains_key(k) == m0.contains_key(k) && (m0.contains_key(k) ==> mf[k] == m0[k])
        }),
    decreases 193 - p,
{
    if p < 193 {
        if p != 65 && bmp.spec_is_on(p) {
            let c = spec_child_at(children, p)->Some_0;
            lemma_child_at_element(children, p);
            assert(c.spec_name() != k);
            let pr = spec_parse_child(c, buf, pos)->Some_0;
            lemma_parse_children_preserves(
                children,
                bmp,
                buf,
                pr.1,
                m0.insert(c.spec_name(), pr.0),
                (p + 1) as u32,
                k,
            );
        } else {
            lemma_parse_children_preserves(children, bmp, buf, pos, m0, (p + 1) as u32, k);
        }
    }
}

/// Re-assembling a parsed child's content reproduces exactly the bytes the
/// parse consumed, for canonical frames.
pub proof fn lemma_child_assemble_of_parse(c: ChildField, buf: Seq<u8>, pos: int)
    requires
        c.wf(),
        0 <= pos,
        spec_parse_child(c, buf, pos) is Some,
        child_parse_canonical(c, buf, pos),
    ensures
        ({
            let (content, np) = spec_parse_child(c, buf, pos)->Some_0;
            spec_assemble_child(c, content) == Some(buf.subrange(pos, np))
        }),
{
    let (content, np) = spec_parse_child(c, buf, pos)->Some_0;
    match c {
        ChildField::Fixed(f) => {
            assert(spec_assemble_fixed(f, content) == Some(content));
        },
        ChildField::Var(f) => {
            let d = f.len as nat;
            let pn = spec_byte_length(f.len_encoding, d);
            let prefix = buf.subrange(pos, pos + pn);
            let n = spec_prefix_value(f.len_encoding, prefix)->Some_0;
            let cn = spec_byte_length(f.encoding, n);
            assert(content == buf.subrange(pos + pn, pos + pn + cn));
            let chars = spec_content_chars(f.encoding, content.len());
            assert(chars == n) by {
                if f.encoding == Encoding::BCD {
                    assert(cn == ((n + 1) / 2) as nat);
                    assert(n % 2 == 0);
                }
            }
            lemma_prefix_bytes_unique(f.len_encoding, prefix, d);
            assert(spec_assemble_var(f, content) == Some(
                spec_prefix_bytes(f.len_encoding, chars, d) + content,
            ));
            assert(prefix + content =~= buf.subrange(pos, pos + pn + cn));
        },
    }
}

/// A parsed bitmap is cascade-closed, and its wire form is exactly the bytes
/// the parse consumed.
pub proof fn lemma_bitmap_assemble_of_parse(buf: Seq<u8>, pos: int)
    requires
        0 <= pos,
        spec_parse_bitmap(buf, pos) is Some,
    ensures
        ({
            let (b, np) = spec_parse_bitmap(buf, pos)->Some_0;
            &&& bitmap_closed(b)
            &&& b.spec_as_bytes() =~= buf.subrange(pos, np)
        }),
{
    let (b, np) = spec_parse_bitmap(buf, pos)->Some_0;
    assert((0u64 >> 63u64) & 1u64 != 1u64) by (bit_vector);
    lemma_u64_be_bytes_round_trip(buf.subrange(pos, pos + 8));
    if word_bit(b.p_bmp, 0) {
        lemma_u64_be_bytes_round_trip(buf.subrange(pos + 8, pos + 16));
        if word_bit(b.s_bmp, 0) {
            lemma_u64_be_bytes_round_trip(buf.subrange(pos + 16, pos + 24));
            assert(b.spec_as_bytes() == buf.subrange(pos, pos + 8) + buf.subrange(
                pos + 8,
                pos + 16,
            ) + buf.subrange(pos + 16, pos + 24));
        } else {
            assert(b.spec_as_bytes() == buf.subrange(pos, pos + 8) + buf.subrange(
                pos + 8,
                pos + 16,
            ));
        }
    } else {
        assert(b.spec_as_bytes() == buf.subrange(pos, pos + 8));
    }
}

/// Re-assembling the child area parsed from a canonical frame reproduces
/// exactly the bytes the parse consumed, when no two children share a name.
pub proof fn lemma_assemble_children_of_parse(
    children: Seq<ChildField>,
    bmp: Bitmap,
    buf: Seq<u8>,
    pos: int,
    m0: Map<Seq<char>, Seq<u8>>,
    p: u32,
)
    requires
        children_wf(children),
        distinct_child_names(children),
        2 <= p <= 193,
        0 <= pos <= buf.len(),
        spec_parse_children(children, bmp, buf, pos, m0, p) is Some,
        parse_children_canonical(children, bmp, buf, pos, p),
    ensures
        ({
            let (mf, np) = spec_parse_children(children, bmp, buf, pos, m0, p)->Some_0;
            spec_assemble_upto(children, bmp, mf, p, 193) == Some(buf.subrange(pos, np))
        }),
    decreases 193 - p,
{
    let (mf, np) = spec_parse_children(children, bmp, buf, pos, m0, p)->Some_0;
    if p >= 193 {
        assert(buf.subrange(pos, pos) =~= Seq::<u8>::empty());
    } else if p != 65 && bmp.spec_is_on(p) {
        let c = spec_child_at(children, p)->Some_0;
        let (content, npc) = spec_parse_child(c, buf, pos)->Some_0;
        lemma_child_at_wf_local(children, p);
        lemma_child_assemble_of_parse(c, buf, pos);
        let m1 = m0.insert(c.spec_name(), content);
        lemma_assemble_children_of_parse(children, bmp, buf, npc, m1, (p + 1) as u32);
        assert(mf.contains_key(c.spec_name()) && mf[c.spec_name()] == content) by {
            lemma_child_at_element(children, p);
            let i = choose|i: int|
                0 <= i < children.len() && children[i] == c && (
                #[trigger] children[i]).spec_position() == p;
            assert forall|q: u32|
                (p + 1) <= q < 193 && q != 65 && bmp.spec_is_on(q) && spec_child_at(children, q)
                    is Some implies spec_child_at(children, q)->Some_0.spec_name()
                != c.spec_name() by {
                lemma_child_at_element(children, q);
                let j = choose|j: int|
                    0 <= j < children.len() && children[j] == spec_child_at(children, q)->Some_0
                        && (#[trigger] children[j]).spec_position() == q;
                assert(j != i);
            }
            lemma_parse_children_preserves_from(
                children,
                bmp,
                buf,
                npc,
                m1,
                (p + 1) as u32,
                c.spec_name(),
            );
        }
        lemma_parse_children_bounds(children, bmp, buf, npc, m1, (p + 1) as u32);
        assert(spec_assemble_upto(children, bmp, mf, p, 193) == Some(
            buf.subrange(pos, npc) + buf.subrange(npc, np),
        ));
        assert(buf.subrange(pos, npc) + buf.subrange(npc, np) =~= buf.subrange(pos, np));
    } else {
        lemma_assemble_children_of_parse(children, bmp, buf, pos, m0, (p + 1) as u32);
    }
}

/// A successful child-area parse never runs past the buffer.
proof fn lemma_parse_children_bounds(
    children: Seq<ChildField>,
    bmp: Bitmap,
    buf: Seq<u8>,
    pos: int,
    m0: Map<Seq<char>, Seq<u8>>,
    p: u32,
)
    requires
        2 <= p <= 193,
        0 <= pos <= buf.len(),
        spec_parse_children(children, bmp, buf, pos, m0, p) is Some,
    ensures
        pos <= spec_parse_children(children, bmp, buf, pos, m0, p)->Some_0.1 <= buf.len(),
    decreases 193 - p,
{
    if p < 193 {
        if p != 65 && bmp.spec_is_on(p) {
            let c = spec_child_at(children, p)->Some_0;
            let pr = spec_parse_child(c, buf, pos)->Some_0;
            lemma_parse_children_bounds(
                children,
                bmp,
                buf,
                pr.1,
                m0.insert(c.spec_name(), pr.0),
                (p + 1) as u32,
            );
        } else {
            lemma_parse_children_bounds(children, bmp, buf, pos, m0, (p + 1) as u32);
        }
    }
}

/// Parsing the child area from `p` leaves a binding alone when no child at a
/// remaining on-position carries its name.
proof fn lemma_parse_children_preserves_from(
    children: Seq<ChildField>,
    bmp: Bitmap,
    buf: Seq<u8>,
    pos: int,
    m0: Map<Seq<char>, Seq<u8>>,
    p: u32,
    k: Seq<char>,
)
    requires
        2 <= p <= 193,
        spec_parse_children(children, bmp, buf, pos, m0, p) is Some,
        forall|q: u32|
            p <= q < 193 && q != 65 && bmp.spec_is_on(q) && spec_child_at(children, q) is Some
                ==> spec_child_at(children, q)->Some_0.spec_name() != k,
        m0.contains_key(k),
    ensures
        ({
            let mf = spec_parse_children(children, bmp, buf, pos, m0, p)->Some_0.0;
            mf.contains_key(k) && mf[k] == m0[k]
        }),
    decreases 193 - p,
{
    if p < 193 {
        if p != 65 && bmp.spec_is_on(p) {
            let c = spec_child_at(children, p)->Some_0;
            let pr = spec_parse_child(c, buf, pos)->Some_0;
            lemma_parse_children_preserves_from(
                children,
                bmp,
                buf,
                pr.1,
                m0.insert(c.spec_name(), pr.0),
                (p + 1) as u32,
                k,
            );
        } else {
            lemma_parse_children_preserves_from(children, bmp, buf, pos, m0, (p + 1) as u32, k);
        }
    }
}


/// Every prefix met while parsing a frame under the conventional layout (one
/// leading field, then the bitmap composite) is canonical.
pub open spec fn frame_parse_canonical(f0: Field, bf: BmpField, buf: Seq<u8>) -> bool {
    &&& match f0 {
        Field::Var(vf) => child_parse_canonical(ChildField::Var(vf), buf, 0),
        _ => true,
    }
    &&& match spec_parse_field(f0, buf, 0, Map::empty(), zero_bitmap()) {
        Some((_, _, np0)) => match spec_parse_bitmap(buf, np0) {
            Some((bmpx, np1)) => parse_children_canonical(bf.children@, bmpx, buf, np1, 2),
            None => true,
        },
        None => true,
    }
}

/// Serialization round trip, the converse direction, for the conventional
/// layout of one leading field followed by the bitmap composite: assembling
/// the parsed message reproduces exactly the bytes the parse consumed (the
/// whole frame, when it has no trailing residue). The frame's length prefixes
/// must be canonical and no two field names may collide.
#[verifier::rlimit(100)]
pub proof fn lemma_assemble_inverts_parse(f0: Field, bf: BmpField, buf: Seq<u8>)
    requires
        !(f0 is Bmp),
        f0.wf(),
        children_wf(bf.children@),
        distinct_child_names(bf.children@),
        forall|i: int|
            0 <= i < bf.children@.len() ==> (#[trigger] bf.children@[i]).spec_name()
                != f0.spec_name(),
        spec_parse_msg(seq![f0, Field::Bmp(bf)], buf) is Some,
        frame_parse_canonical(f0, bf, buf),
    ensures
        ({
            let (mf, bmpf, np) = spec_parse_msg(seq![f0, Field::Bmp(bf)], buf)->Some_0;
            spec_assemble_msg(seq![f0, Field::Bmp(bf)], mf, bmpf) == Some(buf.subrange(0, np))
        }),
{
    let fields = seq![f0, Field::Bmp(bf)];
    assert(fields[0] == f0);
    assert(fields.drop_first() =~= seq![Field::Bmp(bf)]);
    assert(fields.drop_first()[0] == Field::Bmp(bf));
    assert(fields.drop_first().drop_first() =~= Seq::<Field>::empty());
    let whole = spec_parse_fields(fields, buf, 0, Map::empty(), zero_bitmap());
    assert(whole is Some);
    let r0 = spec_parse_field(f0, buf, 0, Map::empty(), zero_bitmap());
    assert(r0 is Some);
    let (m1, b1, np0) = r0->Some_0;
    assert(spec_parse_fields(fields.drop_first(), buf, np0, m1, b1) == whole);
    let r1 = spec_parse_field(Field::Bmp(bf), buf, np0, m1, b1);
    assert(r1 is Some);
    assert(r1 == spec_parse_bmp(bf.children@, buf, np0, m1));
    assert(spec_parse_bitmap(buf, np0) is Some);
    let (bmpx, np1) = spec_parse_bitmap(buf, np0)->Some_0;
    assert(spec_parse_children(bf.children@, bmpx, buf, np1, m1, 2) is Some);
    let (mf, np) = spec_parse_children(bf.children@, bmpx, buf, np1, m1, 2)->Some_0;
    assert(r1->Some_0 == (mf, bmpx, np));
    assert(spec_parse_fields(fields.drop_first().drop_first(), buf, np, mf, bmpx) == whole);
    assert(whole == Some((mf, bmpx, np)));
    let name0 = f0.spec_name();
    let c0 = m1[name0];
    assert(0 <= np0 <= buf.len()) by {
        match f0 {
            Field::Fixed(ff) => {
                assert(spec_parse_fixed(ff, buf, 0) is Some);
            },
            Field::Var(vf) => {
                assert(spec_parse_var(vf, buf, 0) is Some);
            },
            Field::Bmp(_) => {},
        }
    }
    assert(np0 <= np1 <= buf.len());
    lemma_parse_children_bounds(bf.children@, bmpx, buf, np1, m1, 2);
    assert(np1 <= np <= buf.len());
    lemma_assemble_children_of_parse(bf.children@, bmpx, buf, np1, m1, 2);
    lemma_bitmap_assemble_of_parse(buf, np0);
    assert(mf.contains_key(name0) && mf[name0] == c0) by {
        assert forall|q: u32|
            2 <= q < 193 && q != 65 && bmpx.spec_is_on(q) && spec_child_at(bf.children@, q)
                is Some implies spec_child_at(bf.children@, q)->Some_0.spec_name() != name0 by {
            lemma_child_at_element(bf.children@, q);
        }
        lemma_parse_children_preserves_from(bf.children@, bmpx, buf, np1, m1, 2, name0);
    }
    let seg0 = buf.subrange(0, np0);
    match f0 {
        Field::Fixed(ff) => {
            assert(m1 == Map::<Seq<char>, Seq<u8>>::empty().insert(ff.name@, spec_parse_fixed(
                ff,
                buf,
                0,
            )->Some_0.0));
            lemma_child_assemble_of_parse(ChildField::Fixed(ff), buf, 0);
            assert(spec_assemble_fixed(ff, c0) == Some(seg0));
        },
        Field::Var(vf) => {
            lemma_child_assemble_of_parse(ChildField::Var(vf), buf, 0);
            assert(spec_assemble_var(vf, c0) == Some(seg0));
        },
        Field::Bmp(_) => {},
    }
    assert(Seq::<u8>::empty() + seg0 =~= seg0);
    assert(spec_assemble_field(f0, mf, bmpx, Seq::empty()) == Some(seg0));
    let ab = bmpx.spec_as_bytes();
    assert(ab == buf.subrange(np0, np1));
    lemma_children_eq_upto(bf.children@, bmpx, mf, seg0 + ab, 2);
    assert(spec_assemble_children(bf.children@, bmpx, mf, seg0 + ab, 2) == Some(
        (seg0 + ab) + buf.subrange(np1, np),
    ));
    assert(spec_assemble_field(Field::Bmp(bf), mf, bmpx, seg0) == Some(
        (seg0 + ab) + buf.subrange(np1, np),
    ));
    assert((seg0 + ab) + buf.subrange(np1, np) =~= buf.subrange(0, np));
    assert(spec_assemble_fields(fields.drop_first().drop_first(), mf, bmpx, buf.subrange(0, np))
        == Some(buf.subrange(0, np)));
    assert(spec_assemble_fields(fields.drop_first(), mf, bmpx, seg0) == Some(
        buf.subrange(0, np),
    ));
    assert(spec_assemble_fields(fields, mf, bmpx, Seq::empty()) == Some(buf.subrange(0, np)));
}

} // verus!
