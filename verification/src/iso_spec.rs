//! The message layout (`Spec`), the composite bitmap field, and the parsed
//! message container (`IsoMsg`): parsing a frame into field contents and
//! assembling field contents back into a frame.

use vstd::prelude::*;
use crate::bitmap::{Bitmap, word_bit};
use crate::encoding::{Encoding, spec_to_string, render_bytes, spec_to_raw, raw_of_string};
use crate::errors::{ParseError, IsoError};
use crate::field::{
    ChildField,
    FixedField,
    VarField,
    spec_parse_child,
    spec_parse_fixed,
    spec_parse_var,
    spec_assemble_child,
    spec_assemble_fixed,
    spec_assemble_var,
};
use crate::fieldmap::FieldMap;
use crate::wire::read_u64_be;

verus! {

/// The composite bitmap field: its own 8/16/24 bytes, then the children whose
/// positions are on, in ascending position order.
#[derive(Debug)]
pub struct BmpField {
    pub name: String,
    pub encoding: Encoding,
    pub children: Vec<ChildField>,
}

/// A top-level field of a message layout.
#[derive(Debug)]
pub enum Field {
    Fixed(FixedField),
    Var(VarField),
    Bmp(BmpField),
}

/// A named message layout: an ordered list of top-level fields.
#[derive(Debug)]
pub struct Spec {
    name: String,
    fields: Vec<Field>,
}

/// A parsed message: the layout it was parsed under, the field-name to
/// content-bytes map, and the presence bitmap.
pub struct IsoMsg<'a> {
    pub spec: &'a Spec,
    pub fd_map: FieldMap,
    pub bmp: Bitmap,
}

/// The first child declared at position `p`, if any.
pub open spec fn spec_child_at(children: Seq<ChildField>, p: u32) -> Option<ChildField>
    decreases children.len(),
{
    if children.len() == 0 {
        None
    } else if children[0].spec_position() == p {
        Some(children[0])
    } else {
        spec_child_at(children.drop_first(), p)
    }
}

/// The first child with the given name, if any.
pub open spec fn spec_child_by_name(children: Seq<ChildField>, n: Seq<char>) -> Option<ChildField>
    decreases children.len(),
{
    if children.len() == 0 {
        None
    } else if children[0].spec_name() == n {
        Some(children[0])
    } else {
        spec_child_by_name(children.drop_first(), n)
    }
}

/// Machine bounds on every child's declaration.
pub open spec fn children_wf(children: Seq<ChildField>) -> bool {
    forall|i: int| 0 <= i < children.len() ==> (#[trigger] children[i]).wf()
}

/// A child found by position is well formed when all children are.
proof fn lemma_child_at_wf(children: Seq<ChildField>, p: u32)
    requires
        children_wf(children),
        spec_child_at(children, p) is Some,
    ensures
        spec_child_at(children, p)->Some_0.wf(),
    decreases children.len(),
{
    if children.len() > 0 && children[0].spec_position() != p {
        assert(forall|i: int|
            0 <= i < children.drop_first().len() ==> (#[trigger] children.drop_first()[i])
                == children[i + 1]);
        lemma_child_at_wf(children.drop_first(), p);
    }
}

/// Reading the bitmap's own bytes at `pos`: the primary word, the secondary
/// word if bit 1 is on, the tertiary if bit 65 is on; `None` when the buffer
/// is short of a needed word.
pub open spec fn spec_parse_bitmap(buf: Seq<u8>, pos: int) -> Option<(Bitmap, int)> {
    if pos + 8 <= buf.len() {
        let b1 = crate::wire::u64_of_be(buf.subrange(pos, pos + 8));
        if word_bit(b1, 0) {
            if pos + 16 <= buf.len() {
                let b2 = crate::wire::u64_of_be(buf.subrange(pos + 8, pos + 16));
                if word_bit(b2, 0) {
                    if pos + 24 <= buf.len() {
                        let b3 = crate::wire::u64_of_be(buf.subrange(pos + 16, pos + 24));
                        Some((Bitmap { p_bmp: b1, s_bmp: b2, t_bmp: b3 }, pos + 24))
                    } else {
                        None
                    }
                } else {
                    Some((Bitmap { p_bmp: b1, s_bmp: b2, t_bmp: 0u64 }, pos + 16))
                }
            } else {
                None
            }
        } else {
            Some((Bitmap { p_bmp: b1, s_bmp: 0u64, t_bmp: 0u64 }, pos + 8))
        }
    } else {
        None
    }
}

/// Walking positions `p..=192` in ascending order, skipping the reserved
/// indicator position 65, parsing each on-position's child and binding its
/// content; `None` when an on-position has no child or its child fails.
pub open spec fn spec_parse_children(
    children: Seq<ChildField>,
    bmp: Bitmap,
    buf: Seq<u8>,
    pos: int,
    m: Map<Seq<char>, Seq<u8>>,
    p: u32,
) -> Option<(Map<Seq<char>, Seq<u8>>, int)>
    decreases 193 - p,
{
    if p >= 193 {
        Some((m, pos))
    } else if p != 65 && bmp.spec_is_on(p) {
        match spec_child_at(children, p) {
            None => None,
            Some(c) => match spec_parse_child(c, buf, pos) {
                None => None,
                Some((content, np)) => spec_parse_children(
                    children,
                    bmp,
                    buf,
                    np,
                    m.insert(c.spec_name(), content),
                    (p + 1) as u32,
                ),
            },
        }
    } else {
        spec_parse_children(children, bmp, buf, pos, m, (p + 1) as u32)
    }
}

/// Parsing the whole composite bitmap field: its words, then its children.
pub open spec fn spec_parse_bmp(
    children: Seq<ChildField>,
    buf: Seq<u8>,
    pos: int,
    m: Map<Seq<char>, Seq<u8>>,
) -> Option<(Map<Seq<char>, Seq<u8>>, Bitmap, int)> {
    match spec_parse_bitmap(buf, pos) {
        None => None,
        Some((bmp, np)) => match spec_parse_children(children, bmp, buf, np, m, 2) {
            None => None,
            Some((m2, np2)) => Some((m2, bmp, np2)),
        },
    }
}

/// Assembling children from position `p` upward onto `acc`: for each
/// on-position other than the reserved 65, the child's wire bytes from the
/// stored content; `None` when an on-position has no child, its content is
/// missing, or the child's assembly fails.
pub open spec fn spec_assemble_children(
    children: Seq<ChildField>,
    bmp: Bitmap,
    m: Map<Seq<char>, Seq<u8>>,
    acc: Seq<u8>,
    p: u32,
) -> Option<Seq<u8>>
    decreases 193 - p,
{
    if p >= 193 {
        Some(acc)
    } else if p != 65 && bmp.spec_is_on(p) {
        match spec_child_at(children, p) {
            None => None,
            Some(c) => if m.contains_key(c.spec_name()) {
                match spec_assemble_child(c, m[c.spec_name()]) {
                    None => None,
                    Some(seg) => spec_assemble_children(children, bmp, m, acc + seg, (p + 1) as u32),
                }
            } else {
                None
            },
        }
    } else {
        spec_assemble_children(children, bmp, m, acc, (p + 1) as u32)
    }
}

impl BmpField {
    /// Machine bounds on the declaration of every child.
    pub open spec fn wf(self) -> bool {
        children_wf(self.children@)
    }

    /// The child declared at position `pos`, or an error when the layout
    /// declares none there.
    pub fn by_position(&self, pos: u32) -> (r: Result<&ChildField, IsoError>)
        ensures
            match r {
                Ok(c) => spec_child_at(self.children@, pos) == Some(*c),
                Err(_) => spec_child_at(self.children@, pos) is None,
            },
    {
        proof {
            assert(self.children@.skip(0) =~= self.children@);
        }
        let mut i: usize = 0;
        while i < self.children.len()
            invariant
                i <= self.children@.len(),
                spec_child_at(self.children@, pos) == spec_child_at(
                    self.children@.skip(i as int),
                    pos,
                ),
            decreases self.children@.len() - i,
        {
            proof {
                assert(self.children@.skip(i as int)[0] == self.children@[i as int]);
                assert(self.children@.skip(i as int).drop_first() =~= self.children@.skip(i + 1));
            }
            if self.children[i].position() == pos {
                return Ok(&self.children[i]);
            }
            i = i + 1;
        }
        Err(IsoError { msg: "no field declared at this position".to_owned() })
    }

    /// The child with the given name, or an error when the layout declares
    /// none.
    pub fn child_by_name(&self, name: &String) -> (r: Result<&ChildField, IsoError>)
        ensures
            match r {
                Ok(c) => spec_child_by_name(self.children@, name@) == Some(*c),
                Err(_) => spec_child_by_name(self.children@, name@) is None,
            },
    {
        proof {
            assert(self.children@.skip(0) =~= self.children@);
        }
        let mut i: usize = 0;
        while i < self.children.len()
            invariant
                i <= self.children@.len(),
                spec_child_by_name(self.children@, name@) == spec_child_by_name(
                    self.children@.skip(i as int),
                    name@,
                ),
            decreases self.children@.len() - i,
        {
            proof {
                assert(self.children@.skip(i as int)[0] == self.children@[i as int]);
                assert(self.children@.skip(i as int).drop_first() =~= self.children@.skip(i + 1));
            }
            if self.children[i].name().eq(name) {
                return Ok(&self.children[i]);
            }
            i = i + 1;
        }
        Err(IsoError::about("no field named ", name))
    }

    /// Parses the bitmap's own bytes into `out_bmp`, then every on-position
    /// child in ascending order into `out_map`. Errs exactly when the spec
    /// level parse yields nothing (`out_map` may then hold the children
    /// parsed before the failure).
    #[verifier::loop_isolation(false)]
    pub fn parse(&self, in_buf: &Vec<u8>, pos: usize, out_map: &mut FieldMap, out_bmp: &mut Bitmap) -> (r:
        Result<usize, ParseError>)
        requires
            self.wf(),
            pos <= in_buf@.len(),
        ensures
            ({
                let m = spec_parse_bmp(self.children@, in_buf@, pos as int, old(out_map)@);
                match r {
                    Ok(np) => m is Some && final(out_map)@ == m->Some_0.0 && *final(out_bmp)
                        == m->Some_0.1 && np == m->Some_0.2 && np <= in_buf@.len(),
                    Err(_) => m is None,
                }
            }),
    {
        if in_buf.len() - pos < 8 {
            return Err(ParseError::about("failed to parse primary bitmap - ", &self.name));
        }
        let b1 = read_u64_be(in_buf, pos);
        let mut b2: u64 = 0;
        let mut b3: u64 = 0;
        let mut cur = pos + 8;
        if (b1 >> 63u64) & 1 == 1 {
            if in_buf.len() - cur < 8 {
                return Err(ParseError::about("failed to parse secondary bitmap - ", &self.name));
            }
            b2 = read_u64_be(in_buf, cur);
            cur = cur + 8;
            if (b2 >> 63u64) & 1 == 1 {
                if in_buf.len() - cur < 8 {
                    return Err(
                        ParseError::about("failed to parse tertiary bitmap - ", &self.name),
                    );
                }
                b3 = read_u64_be(in_buf, cur);
                cur = cur + 8;
            }
        }
        let bmp = Bitmap::new(b1, b2, b3);
        proof {
            assert(spec_parse_bitmap(in_buf@, pos as int) == Some((bmp, cur as int)));
        }
        *out_bmp = bmp;
        let ghost m0 = out_map@;
        let mut p: u32 = 2;
        while p < 193
            invariant
                2 <= p <= 193,
                cur <= in_buf@.len(),
                *out_bmp == bmp,
                spec_parse_children(self.children@, bmp, in_buf@, cur as int, out_map@, p)
                    == spec_parse_children(self.children@, bmp, in_buf@, pos as int + 8
                    + (if word_bit(b1, 0) {
                    8int
                } else {
                    0int
                }) + (if word_bit(b1, 0) && word_bit(b2, 0) {
                    8int
                } else {
                    0int
                }), m0, 2),
            decreases 193 - p,
        {
            if p != 65 && out_bmp.is_on(p) {
                match self.by_position(p) {
                    Ok(c) => {
                        proof {
                            lemma_child_at_wf(self.children@, p);
                        }
                        match c.parse(in_buf, cur, out_map) {
                            Ok(np) => {
                                cur = np;
                            },
                            Err(e) => {
                                return Err(e);
                            },
                        }
                    },
                    Err(e) => {
                        return Err(ParseError { msg: e.msg });
                    },
                }
            }
            p = p + 1;
        }
        Ok(cur)
    }

    /// Appends the bitmap's 8/16/24 wire bytes, then, in ascending position
    /// order, every on-position child's wire bytes from the message's stored
    /// content. Errs exactly when the spec level assembly yields nothing
    /// (bytes written before the failure remain appended).
    #[verifier::loop_isolation(false)]
    pub fn assemble(&self, out: &mut Vec<u8>, iso_msg: &IsoMsg) -> (r: Result<u32, ParseError>)
        requires
            self.wf(),
        ensures
            ({
                let m = spec_assemble_children(
                    self.children@,
                    iso_msg.bmp,
                    iso_msg.fd_map@,
                    old(out)@ + iso_msg.bmp.spec_as_bytes(),
                    2,
                );
                match r {
                    Ok(_) => m is Some && final(out)@ == m->Some_0,
                    Err(_) => m is None,
                }
            }),
    {
        let bmp_data = iso_msg.bmp.as_vec();
        let mut i: usize = 0;
        let ghost out0 = out@;
        while i < bmp_data.len()
            invariant
                i <= bmp_data@.len(),
                out@ =~= out0 + bmp_data@.take(i as int),
            decreases bmp_data@.len() - i,
        {
            out.push(bmp_data[i]);
            proof {
                assert(bmp_data@.take(i + 1) =~= bmp_data@.take(i as int).push(
                    bmp_data@[i as int],
                ));
            }
            i = i + 1;
        }
        proof {
            assert(bmp_data@.take(bmp_data@.len() as int) =~= bmp_data@);
            assert(out@ =~= out0 + iso_msg.bmp.spec_as_bytes());
        }
        let ghost acc0 = out0 + iso_msg.bmp.spec_as_bytes();
        let mut p: u32 = 2;
        while p < 193
            invariant
                2 <= p <= 193,
                spec_assemble_children(self.children@, iso_msg.bmp, iso_msg.fd_map@, out@, p)
                    == spec_assemble_children(
                    self.children@,
                    iso_msg.bmp,
                    iso_msg.fd_map@,
                    acc0,
                    2,
                ),
            decreases 193 - p,
        {
            if p != 65 && iso_msg.bmp.is_on(p) {
                match self.by_position(p) {
                    Ok(c) => {
                        proof {
                            lemma_child_at_wf(self.children@, p);
                        }
                        match iso_msg.fd_map.get(c.name()) {
                            Some(content) => {
                                match c.assemble(out, content) {
                                    Ok(_) => {},
                                    Err(e) => {
                                        return Err(e);
                                    },
                                }
                            },
                            None => {
                                return Err(
                                    ParseError::about(
                                        "position is on, but no field data present for ",
                                        c.name(),
                                    ),
                                );
                            },
                        }
                    },
                    Err(e) => {
                        return Err(ParseError { msg: e.msg });
                    },
                }
            }
            p = p + 1;
        }
        Ok(0)
    }

    /// The canonical rendering of this field's bytes: hexadecimal.
    pub fn to_string(&self, data: &Vec<u8>) -> (r: String)
        ensures
            r@ == spec_to_string(Encoding::BINARY, data@),
    {
        render_bytes(Encoding::BINARY, data)
    }
}


impl Field {
    /// The field's name.
    pub open spec fn spec_name(self) -> Seq<char> {
        match self {
            Field::Fixed(f) => f.name@,
            Field::Var(f) => f.name@,
            Field::Bmp(f) => f.name@,
        }
    }

    /// The field's bitmap position; 0 for top-level fields not governed by
    /// the bitmap.
    pub open spec fn spec_position(self) -> u32 {
        match self {
            Field::Fixed(f) => f.position,
            Field::Var(f) => f.position,
            Field::Bmp(_) => 0,
        }
    }

    /// Machine bounds on the declaration.
    pub open spec fn wf(self) -> bool {
        match self {
            Field::Fixed(f) => f.wf(),
            Field::Var(f) => f.wf(),
            Field::Bmp(f) => f.wf(),
        }
    }

    /// The field's name.
    pub fn name(&self) -> (r: &String)
        ensures
            r@ == self.spec_name(),
    {
        match self {
            Field::Fixed(f) => &f.name,
            Field::Var(f) => &f.name,
            Field::Bmp(f) => &f.name,
        }
    }

    /// The field's bitmap position.
    pub fn position(&self) -> (r: u32)
        ensures
            r == self.spec_position(),
    {
        match self {
            Field::Fixed(f) => f.position,
            Field::Var(f) => f.position,
            Field::Bmp(_) => 0,
        }
    }
}

/// Parsing one top-level field: a fixed or variable field binds its content
/// under its name; the composite bitmap field parses its words and children.
pub open spec fn spec_parse_field(
    f: Field,
    buf: Seq<u8>,
    pos: int,
    m: Map<Seq<char>, Seq<u8>>,
    bmp: Bitmap,
) -> Option<(Map<Seq<char>, Seq<u8>>, Bitmap, int)> {
    match f {
        Field::Fixed(ff) => match spec_parse_fixed(ff, buf, pos) {
            Some((content, np)) => Some((m.insert(ff.name@, content), bmp, np)),
            None => None,
        },
        Field::Var(vf) => match spec_parse_var(vf, buf, pos) {
            Some((content, np)) => Some((m.insert(vf.name@, content), bmp, np)),
            None => None,
        },
        Field::Bmp(bf) => spec_parse_bmp(bf.children@, buf, pos, m),
    }
}

/// Parsing the fields of a layout in declared order.
pub open spec fn spec_parse_fields(
    fields: Seq<Field>,
    buf: Seq<u8>,
    pos: int,
    m: Map<Seq<char>, Seq<u8>>,
    bmp: Bitmap,
) -> Option<(Map<Seq<char>, Seq<u8>>, Bitmap, int)>
    decreases fields.len(),
{
    if fields.len() == 0 {
        Some((m, bmp, pos))
    } else {
        match spec_parse_field(fields[0], buf, pos, m, bmp) {
            None => None,
            Some((m2, b2, np)) => spec_parse_fields(fields.drop_first(), buf, np, m2, b2),
        }
    }
}

/// Parsing a whole frame under a layout, from an empty message.
pub open spec fn spec_parse_msg(fields: Seq<Field>, buf: Seq<u8>) -> Option<
    (Map<Seq<char>, Seq<u8>>, Bitmap, int),
> {
    spec_parse_fields(fields, buf, 0, Map::empty(), Bitmap { p_bmp: 0u64, s_bmp: 0u64, t_bmp: 0u64 })
}

/// Assembling one top-level field onto `acc`.
pub open spec fn spec_assemble_field(
    f: Field,
    m: Map<Seq<char>, Seq<u8>>,
    bmp: Bitmap,
    acc: Seq<u8>,
) -> Option<Seq<u8>> {
    match f {
        Field::Fixed(ff) => if m.contains_key(ff.name@) {
            match spec_assemble_fixed(ff, m[ff.name@]) {
                Some(seg) => Some(acc + seg),
                None => None,
            }
        } else {
            None
        },
        Field::Var(vf) => if m.contains_key(vf.name@) {
            match spec_assemble_var(vf, m[vf.name@]) {
                Some(seg) => Some(acc + seg),
                None => None,
            }
        } else {
            None
        },
        Field::Bmp(bf) => spec_assemble_children(
            bf.children@,
            bmp,
            m,
            acc + bmp.spec_as_bytes(),
            2,
        ),
    }
}

/// Assembling the fields of a layout in declared order onto `acc`.
pub open spec fn spec_assemble_fields(
    fields: Seq<Field>,
    m: Map<Seq<char>, Seq<u8>>,
    bmp: Bitmap,
    acc: Seq<u8>,
) -> Option<Seq<u8>>
    decreases fields.len(),
{
    if fields.len() == 0 {
        Some(acc)
    } else {
        match spec_assemble_field(fields[0], m, bmp, acc) {
            None => None,
            Some(acc2) => spec_assemble_fields(fields.drop_first(), m, bmp, acc2),
        }
    }
}

/// Assembling a whole frame under a layout.
pub open spec fn spec_assemble_msg(
    fields: Seq<Field>,
    m: Map<Seq<char>, Seq<u8>>,
    bmp: Bitmap,
) -> Option<Seq<u8>> {
    spec_assemble_fields(fields, m, bmp, Seq::empty())
}

impl Field {
    /// Parses this field at `in_buf[pos..]` into `out_map` and (for the
    /// composite bitmap field) `out_bmp`. Errs exactly when the spec level
    /// parse yields nothing.
    pub fn parse(
        &self,
        in_buf: &Vec<u8>,
        pos: usize,
        out_map: &mut FieldMap,
        out_bmp: &mut Bitmap,
    ) -> (r: Result<usize, ParseError>)
        requires
            self.wf(),
            pos <= in_buf@.len(),
        ensures
            ({
                let m = spec_parse_field(*self, in_buf@, pos as int, old(out_map)@, *old(out_bmp));
                match r {
                    Ok(np) => m is Some && final(out_map)@ == m->Some_0.0 && *final(out_bmp)
                        == m->Some_0.1 && np == m->Some_0.2 && np <= in_buf@.len(),
                    Err(_) => m is None,
                }
            }),
    {
        match self {
            Field::Fixed(f) => {
                match f.parse(in_buf, pos, out_map) {
                    Ok(np) => Ok(np),
                    Err(e) => Err(e),
                }
            },
            Field::Var(f) => {
                match f.parse(in_buf, pos, out_map) {
                    Ok(np) => Ok(np),
                    Err(e) => Err(e),
                }
            },
            Field::Bmp(f) => f.parse(in_buf, pos, out_map, out_bmp),
        }
    }

    /// Appends this field's wire bytes from the message's stored content and
    /// bitmap. Errs exactly when the spec level assembly yields nothing.
    pub fn assemble(&self, out: &mut Vec<u8>, iso_msg: &IsoMsg) -> (r: Result<u32, ParseError>)
        requires
            self.wf(),
        ensures
            ({
                let m = spec_assemble_field(*self, iso_msg.fd_map@, iso_msg.bmp, old(out)@);
                match r {
                    Ok(_) => m is Some && final(out)@ == m->Some_0,
                    Err(_) => m is None,
                }
            }),
    {
        match self {
            Field::Fixed(f) => {
                match iso_msg.fd_map.get(&f.name) {
                    Some(content) => {
                        match f.assemble(out, content) {
                            Ok(_) => Ok(0),
                            Err(e) => Err(e),
                        }
                    },
                    None => Err(ParseError::about("no field data present for ", &f.name)),
                }
            },
            Field::Var(f) => {
                match iso_msg.fd_map.get(&f.name) {
                    Some(content) => {
                        match f.assemble(out, content) {
                            Ok(_) => Ok(0),
                            Err(e) => Err(e),
                        }
                    },
                    None => Err(ParseError::about("no field data present for ", &f.name)),
                }
            },
            Field::Bmp(f) => f.assemble(out, iso_msg),
        }
    }
}

/// The first composite bitmap field of a layout, if any.
pub open spec fn spec_first_bmp(fields: Seq<Field>) -> Option<BmpField>
    decreases fields.len(),
{
    if fields.len() == 0 {
        None
    } else {
        match fields[0] {
            Field::Bmp(b) => Some(b),
            _ => spec_first_bmp(fields.drop_first()),
        }
    }
}

/// The first top-level field with the given name, if any.
pub open spec fn spec_top_by_name(fields: Seq<Field>, n: Seq<char>) -> Option<Field>
    decreases fields.len(),
{
    if fields.len() == 0 {
        None
    } else if fields[0].spec_name() == n {
        Some(fields[0])
    } else {
        spec_top_by_name(fields.drop_first(), n)
    }
}

/// A reference to a field resolved by name: either a top-level field or a
/// child of the composite bitmap field.
pub enum FieldRef<'a> {
    Top(&'a Field),
    Child(&'a ChildField),
}

/// Whether every field of a layout is well formed.
pub open spec fn fields_wf(fields: Seq<Field>) -> bool {
    forall|i: int| 0 <= i < fields.len() ==> (#[trigger] fields[i]).wf()
}

impl Spec {
    /// The layout's name.
    pub closed spec fn spec_name(self) -> Seq<char> {
        self.name@
    }

    /// The layout's top-level fields, in declared order.
    pub closed spec fn spec_fields(self) -> Seq<Field> {
        self.fields@
    }

    /// Machine bounds on every field's declaration.
    pub open spec fn wf(self) -> bool {
        fields_wf(self.spec_fields())
    }

    /// A layout from its name and its ordered top-level fields.
    pub fn new(name: String, fields: Vec<Field>) -> (r: Spec)
        ensures
            r.spec_name() == name@,
            r.spec_fields() == fields@,
    {
        Spec { name, fields }
    }

    /// The layout's name.
    pub fn name(&self) -> (r: &String)
        ensures
            r@ == self.spec_name(),
    {
        &self.name
    }

    /// The layout's top-level fields, in declared order.
    pub fn fields(&self) -> (r: &Vec<Field>)
        ensures
            r@ == self.spec_fields(),
    {
        &self.fields
    }

    /// Resolves a field by name: top-level fields first, then the bitmap
    /// composite's children; an error when no field carries the name.
    pub fn field_by_name<'s>(&'s self, name: &String) -> (r: Result<FieldRef<'s>, IsoError>)
        ensures
            match r {
                Ok(fr) => match fr {
                    FieldRef::Top(f) => spec_top_by_name(self.spec_fields(), name@) == Some(*f),
                    FieldRef::Child(c) => spec_top_by_name(self.spec_fields(), name@) is None
                        && spec_first_bmp(self.spec_fields()) is Some && spec_child_by_name(
                        spec_first_bmp(self.spec_fields())->Some_0.children@,
                        name@,
                    ) == Some(*c),
                },
                Err(_) => spec_top_by_name(self.spec_fields(), name@) is None && (spec_first_bmp(
                    self.spec_fields(),
                ) is None || spec_child_by_name(
                    spec_first_bmp(self.spec_fields())->Some_0.children@,
                    name@,
                ) is None),
            },
    {
        proof {
            assert(self.fields@.skip(0) =~= self.fields@);
        }
        let mut i: usize = 0;
        while i < self.fields.len()
            invariant
                i <= self.fields@.len(),
                spec_top_by_name(self.fields@, name@) == spec_top_by_name(
                    self.fields@.skip(i as int),
                    name@,
                ),
            decreases self.fields@.len() - i,
        {
            proof {
                assert(self.fields@.skip(i as int)[0] == self.fields@[i as int]);
                assert(self.fields@.skip(i as int).drop_first() =~= self.fields@.skip(i + 1));
            }
            if self.fields[i].name().eq(name) {
                return Ok(FieldRef::Top(&self.fields[i]));
            }
            i = i + 1;
        }
        match self.first_bmp() {
            Some(b) => {
                match b.child_by_name(name) {
                    Ok(c) => Ok(FieldRef::Child(c)),
                    Err(e) => Err(e),
                }
            },
            None => Err(IsoError::about("no field named ", name)),
        }
    }

    /// The layout's composite bitmap field, if it declares one.
    pub fn first_bmp(&self) -> (r: Option<&BmpField>)
        ensures
            match r {
                Some(b) => spec_first_bmp(self.spec_fields()) == Some(*b),
                None => spec_first_bmp(self.spec_fields()) is None,
            },
    {
        proof {
            assert(self.fields@.skip(0) =~= self.fields@);
        }
        let mut i: usize = 0;
        while i < self.fields.len()
            invariant
                i <= self.fields@.len(),
                spec_first_bmp(self.fields@) == spec_first_bmp(self.fields@.skip(i as int)),
            decreases self.fields@.len() - i,
        {
            proof {
                assert(self.fields@.skip(i as int)[0] == self.fields@[i as int]);
                assert(self.fields@.skip(i as int).drop_first() =~= self.fields@.skip(i + 1));
            }
            match &self.fields[i] {
                Field::Bmp(b) => {
                    return Some(b);
                },
                _ => {},
            }
            i = i + 1;
        }
        None
    }

    /// Parses a frame into a message: walks the top-level fields in declared
    /// order; trailing bytes after the last field are tolerated. Errs exactly
    /// when the spec level parse yields nothing.
    #[verifier::loop_isolation(false)]
    pub fn parse<'s>(&'s self, data: &Vec<u8>) -> (r: Result<IsoMsg<'s>, ParseError>)
        requires
            self.wf(),
        ensures
            ({
                let m = spec_parse_msg(self.spec_fields(), data@);
                match r {
                    Ok(msg) => m is Some && msg.fd_map@ == m->Some_0.0 && msg.bmp == m->Some_0.1
                        && msg.spec == self,
                    Err(_) => m is None,
                }
            }),
    {
        let mut fd_map = FieldMap::new();
        let mut bmp = Bitmap::new(0, 0, 0);
        let mut cur: usize = 0;
        let mut i: usize = 0;
        proof {
            assert(self.fields@.skip(0) =~= self.fields@);
        }
        while i < self.fields.len()
            invariant
                i <= self.fields@.len(),
                cur <= data@.len(),
                spec_parse_fields(self.fields@.skip(i as int), data@, cur as int, fd_map@, bmp)
                    == spec_parse_msg(self.fields@, data@),
            decreases self.fields@.len() - i,
        {
            proof {
                assert(self.fields@.skip(i as int)[0] == self.fields@[i as int]);
                assert(self.fields@.skip(i as int).drop_first() =~= self.fields@.skip(i + 1));
            }
            match self.fields[i].parse(data, cur, &mut fd_map, &mut bmp) {
                Ok(np) => {
                    cur = np;
                },
                Err(e) => {
                    return Err(e);
                },
            }
            i = i + 1;
        }
        Ok(IsoMsg { spec: self, fd_map, bmp })
    }

    /// Assembles a message into its frame: walks the top-level fields in
    /// declared order. Errs exactly when the spec level assembly yields
    /// nothing.
    #[verifier::loop_isolation(false)]
    pub fn assemble(&self, iso_msg: &IsoMsg) -> (r: Result<Vec<u8>, ParseError>)
        requires
            self.wf(),
        ensures
            ({
                let m = spec_assemble_msg(self.spec_fields(), iso_msg.fd_map@, iso_msg.bmp);
                match r {
                    Ok(v) => m is Some && v@ == m->Some_0,
                    Err(_) => m is None,
                }
            }),
    {
        let mut out: Vec<u8> = Vec::new();
        let mut i: usize = 0;
        proof {
            assert(self.fields@.skip(0) =~= self.fields@);
            assert(out@ =~= Seq::<u8>::empty());
        }
        while i < self.fields.len()
            invariant
                i <= self.fields@.len(),
                spec_assemble_fields(self.fields@.skip(i as int), iso_msg.fd_map@, iso_msg.bmp, out@)
                    == spec_assemble_msg(self.fields@, iso_msg.fd_map@, iso_msg.bmp),
            decreases self.fields@.len() - i,
        {
            proof {
                assert(self.fields@.skip(i as int)[0] == self.fields@[i as int]);
                assert(self.fields@.skip(i as int).drop_first() =~= self.fields@.skip(i + 1));
            }
            match self.fields[i].assemble(&mut out, iso_msg) {
                Ok(_) => {},
                Err(e) => {
                    return Err(e);
                },
            }
            i = i + 1;
        }
        Ok(out)
    }
}

impl<'a> IsoMsg<'a> {
    /// The layout this message was parsed under.
    #[allow(non_snake_case)]
    pub fn Spec(&self) -> (r: &'a Spec)
        ensures
            r == self.spec,
    {
        self.spec
    }

    /// The canonical rendering of the bitmap child at `pos`, or an error when
    /// the layout declares no child there or the message holds no content for
    /// it.
    pub fn get_field_value(&self, pos: u32) -> (r: Result<String, IsoError>)
        ensures
            ({
                let bf = spec_first_bmp(self.spec.spec_fields());
                match r {
                    Ok(v) => bf is Some && ({
                        let c = spec_child_at(bf->Some_0.children@, pos);
                        c is Some && self.fd_map@.contains_key(c->Some_0.spec_name()) && v@
                            == spec_to_string(
                            c->Some_0.spec_encoding(),
                            self.fd_map@[c->Some_0.spec_name()],
                        )
                    }),
                    Err(_) => bf is None || spec_child_at(bf->Some_0.children@, pos) is None
                        || !self.fd_map@.contains_key(
                        spec_child_at(bf->Some_0.children@, pos)->Some_0.spec_name(),
                    ),
                }
            }),
    {
        match self.spec.first_bmp() {
            None => Err(IsoError { msg: "layout declares no bitmap field".to_owned() }),
            Some(b) => {
                match b.by_position(pos) {
                    Err(e) => Err(e),
                    Ok(c) => {
                        match self.fd_map.get(c.name()) {
                            None => Err(
                                IsoError::about("no value for field ", c.name()),
                            ),
                            Some(v) => Ok(c.to_string(v)),
                        }
                    },
                }
            },
        }
    }
}

impl ChildField {
    /// The canonical rendering of this field's content bytes.
    pub fn to_string(&self, data: &Vec<u8>) -> (r: String)
        ensures
            r@ == spec_to_string(self.spec_encoding(), data@),
    {
        render_bytes(self.encoding(), data)
    }

    /// The content bytes denoted by a rendered string: the exact inverse of
    /// `to_string` on canonical renderings. Errs exactly when the string is
    /// not well formed under the field's encoding.
    pub fn to_raw(&self, val: &str) -> (r: Result<Vec<u8>, ParseError>)
        ensures
            ({
                let m = spec_to_raw(self.spec_encoding(), val@);
                match r {
                    Ok(v) => m == Some(v@),
                    Err(_) => m is None,
                }
            }),
    {
        match raw_of_string(self.encoding(), val) {
            Some(v) => Ok(v),
            None => Err(ParseError::about("malformed value for field ", self.name())),
        }
    }
}


/// The shape of the built-in sample layout: a 4-character ASCII message type,
/// then a bitmap whose children are a variable-length PAN, a processing code,
/// a system trace number and an expiration date.
pub open spec fn is_sample_spec(s: Spec) -> bool {
    &&& s.spec_name() == "SampleSpec"@
    &&& s.wf()
    &&& s.spec_fields().len() == 2
    &&& match s.spec_fields()[0] {
        Field::Fixed(f) => f.name@ == "message_type"@ && f.len == 4 && f.encoding
            == Encoding::ASCII && f.position == 0,
        _ => false,
    }
    &&& match s.spec_fields()[1] {
        Field::Bmp(b) => {
            &&& b.name@ == "bitmap"@
            &&& b.children@.len() == 4
            &&& match b.children@[0] {
                ChildField::Var(f) => f.name@ == "pan"@ && f.len == 2 && f.encoding
                    == Encoding::ASCII && f.len_encoding == Encoding::ASCII && f.position == 2,
                _ => false,
            }
            &&& match b.children@[1] {
                ChildField::Fixed(f) => f.name@ == "proc_code"@ && f.len == 6 && f.encoding
                    == Encoding::ASCII && f.position == 3,
                _ => false,
            }
            &&& match b.children@[2] {
                ChildField::Fixed(f) => f.name@ == "stan"@ && f.len == 6 && f.encoding
                    == Encoding::ASCII && f.position == 11,
                _ => false,
            }
            &&& match b.children@[3] {
                ChildField::Fixed(f) => f.name@ == "expiration_date"@ && f.len == 4 && f.encoding
                    == Encoding::ASCII && f.position == 14,
                _ => false,
            }
        },
        _ => false,
    }
}

/// The registry of built-in layouts: the layout published under the given
/// name, or an error for an unknown name.
pub fn named_spec(name: &str) -> (r: Result<Spec, IsoError>)
    ensures
        r is Ok <==> name@ == "SampleSpec"@,
        r is Ok ==> is_sample_spec(r->Ok_0),
{
    let key = String::from_str("SampleSpec");
    if !name.to_owned().eq(&key) {
        return Err(IsoError { msg: "no spec known under this name".to_owned() });
    }
    let mut children: Vec<ChildField> = Vec::new();
    children.push(
        ChildField::Var(
            VarField {
                name: String::from_str("pan"),
                len: 2,
                encoding: Encoding::ASCII,
                len_encoding: Encoding::ASCII,
                position: 2,
            },
        ),
    );
    children.push(
        ChildField::Fixed(
            FixedField {
                name: String::from_str("proc_code"),
                len: 6,
                encoding: Encoding::ASCII,
                position: 3,
            },
        ),
    );
    children.push(
        ChildField::Fixed(
            FixedField {
                name: String::from_str("stan"),
                len: 6,
                encoding: Encoding::ASCII,
                position: 11,
            },
        ),
    );
    children.push(
        ChildField::Fixed(
            FixedField {
                name: String::from_str("expiration_date"),
                len: 4,
                encoding: Encoding::ASCII,
                position: 14,
            },
        ),
    );
    let mut fields: Vec<Field> = Vec::new();
    fields.push(
        Field::Fixed(
            FixedField {
                name: String::from_str("message_type"),
                len: 4,
                encoding: Encoding::ASCII,
                position: 0,
            },
        ),
    );
    fields.push(
        Field::Bmp(
            BmpField {
                name: String::from_str("bitmap"),
                encoding: Encoding::ASCII,
                children,
            },
        ),
    );
    let s = Spec { name: String::from_str("SampleSpec"), fields };
    proof {
        assert(s.wf()) by {
            assert(forall|i: int|
                0 <= i < s.spec_fields().len() ==> (#[trigger] s.spec_fields()[i]).wf()) by {
                assert(s.spec_fields()[0].wf());
                assert(s.spec_fields()[1].wf()) by {
                    let b = s.spec_fields()[1]->Bmp_0;
                    assert(b.children@[0].wf());
                    assert(b.children@[1].wf());
                    assert(b.children@[2].wf());
                    assert(b.children@[3].wf());
                }
            }
        }
    }
    Ok(s)
}

} // verus!
