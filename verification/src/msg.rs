//! The record catalog: the known schema shapes. The worked example is the
//! point-cloud record; every other schema decodes to `Msg::Unknown`.

use vstd::prelude::*;
use vstd::string::StringExecFns;
use vstd::utf8::encode_utf8;
use crate::decode::from_slice;
use crate::deserializer::Error;
use crate::shape::{conforms, wire_of, Field, Shape, Value};
use crate::wire::pow256;

verus! {

/// The common metadata record at the head of a point cloud.
#[derive(Debug, PartialEq)]
pub struct Header {
    pub sequence_id: u32,
    pub sec: u32,
    pub nsec: u32,
    pub frame_id: String,
}

/// The description of one point entry in the point-cloud format.
#[derive(Debug, PartialEq)]
pub struct PointField {
    pub name: String,
    pub offset: u32,
    pub datatype: u8,
    pub count: u32,
}

/// The point-cloud record itself.
#[derive(Debug, PartialEq)]
pub struct PointCloud2 {
    pub header: Header,
    pub height: u32,
    pub width: u32,
    pub fields: Vec<PointField>,
    pub is_bigendian: u8,
    pub point_step: u32,
    pub row_step: u32,
    pub data: Vec<u8>,
    pub is_dense: u8,
}

/// A decoded record: one variant per catalog entry, plus the open-ended
/// unrecognized case.
#[derive(Debug, PartialEq)]
pub enum Msg {
    PointCloud2(PointCloud2),
    Unknown,
}

/// The decoded value tree carries exactly the fields of this header.
pub open spec fn header_corresponds(v: Value, h: Header) -> bool {
    &&& v matches Value::Record(_)
    &&& v->Record_0@.len() == 4
    &&& v->Record_0@[0] == Value::U32(h.sequence_id)
    &&& v->Record_0@[1] == Value::U32(h.sec)
    &&& v->Record_0@[2] == Value::U32(h.nsec)
    &&& v->Record_0@[3] matches Value::Text(s) && s@ == h.frame_id@
}

/// The decoded value tree carries exactly the fields of this point field.
pub open spec fn point_field_corresponds(v: Value, f: PointField) -> bool {
    &&& v matches Value::Record(_)
    &&& v->Record_0@.len() == 4
    &&& v->Record_0@[0] matches Value::Text(s) && s@ == f.name@
    &&& v->Record_0@[1] == Value::U32(f.offset)
    &&& v->Record_0@[2] == Value::U8(f.datatype)
    &&& v->Record_0@[3] == Value::U32(f.count)
}

/// The decoded value tree carries exactly the fields of this point cloud.
pub open spec fn pc2_corresponds(v: Value, p: PointCloud2) -> bool {
    &&& v matches Value::Record(_)
    &&& v->Record_0@.len() == 9
    &&& header_corresponds(v->Record_0@[0], p.header)
    &&& v->Record_0@[1] == Value::U32(p.height)
    &&& v->Record_0@[2] == Value::U32(p.width)
    &&& v->Record_0@[3] matches Value::Sequence(_)
    &&& v->Record_0@[3]->Sequence_0@.len() == p.fields@.len()
    &&& forall|i: int|
        0 <= i < p.fields@.len() ==> point_field_corresponds(
            #[trigger] v->Record_0@[3]->Sequence_0@[i],
            p.fields@[i],
        )
    &&& v->Record_0@[4] == Value::U8(p.is_bigendian)
    &&& v->Record_0@[5] == Value::U32(p.point_step)
    &&& v->Record_0@[6] == Value::U32(p.row_step)
    &&& v->Record_0@[7] matches Value::Sequence(_)
    &&& v->Record_0@[7]->Sequence_0@.len() == p.data@.len()
    &&& forall|i: int|
        0 <= i < p.data@.len() ==> #[trigger] v->Record_0@[7]->Sequence_0@[i] == Value::U8(
            p.data@[i],
        )
    &&& v->Record_0@[8] == Value::U8(p.is_dense)
}

/// The layout of the header's shape, whatever the fields are named.
pub open spec fn is_header_shape(s: Shape) -> bool {
    &&& s matches Shape::Record(_)
    &&& s->Record_0@.len() == 4
    &&& s->Record_0@[0].shape == Shape::U32
    &&& s->Record_0@[1].shape == Shape::U32
    &&& s->Record_0@[2].shape == Shape::U32
    &&& s->Record_0@[3].shape == Shape::Text
}

/// The layout of one point-field descriptor's shape.
pub open spec fn is_point_field_shape(s: Shape) -> bool {
    &&& s matches Shape::Record(_)
    &&& s->Record_0@.len() == 4
    &&& s->Record_0@[0].shape == Shape::Text
    &&& s->Record_0@[1].shape == Shape::U32
    &&& s->Record_0@[2].shape == Shape::U8
    &&& s->Record_0@[3].shape == Shape::U32
}

/// The layout of the point-cloud record's shape.
pub open spec fn is_pc2_shape(s: Shape) -> bool {
    &&& s matches Shape::Record(_)
    &&& s->Record_0@.len() == 9
    &&& is_header_shape(s->Record_0@[0].shape)
    &&& s->Record_0@[1].shape == Shape::U32
    &&& s->Record_0@[2].shape == Shape::U32
    &&& s->Record_0@[3].shape matches Shape::Sequence(e) && is_point_field_shape(*e)
    &&& s->Record_0@[4].shape == Shape::U8
    &&& s->Record_0@[5].shape == Shape::U32
    &&& s->Record_0@[6].shape == Shape::U32
    &&& s->Record_0@[7].shape matches Shape::Sequence(e) && *e == Shape::U8
    &&& s->Record_0@[8].shape == Shape::U8
}

/// A value tree with the header's layout, every text length encodable.
pub open spec fn header_value_layout(v: Value) -> bool {
    &&& v matches Value::Record(_)
    &&& v->Record_0@.len() == 4
    &&& v->Record_0@[0] matches Value::U32(_)
    &&& v->Record_0@[1] matches Value::U32(_)
    &&& v->Record_0@[2] matches Value::U32(_)
    &&& v->Record_0@[3] matches Value::Text(t) && encode_utf8(t@).len() < pow256(4)
}

/// A value tree with one point-field descriptor's layout.
pub open spec fn point_field_value_layout(v: Value) -> bool {
    &&& v matches Value::Record(_)
    &&& v->Record_0@.len() == 4
    &&& v->Record_0@[0] matches Value::Text(t) && encode_utf8(t@).len() < pow256(4)
    &&& v->Record_0@[1] matches Value::U32(_)
    &&& v->Record_0@[2] matches Value::U8(_)
    &&& v->Record_0@[3] matches Value::U32(_)
}

/// A value tree with the point-cloud record's layout: exactly the values the
/// point-cloud shape describes.
pub open spec fn pc2_value_layout(v: Value) -> bool {
    &&& v matches Value::Record(_)
    &&& v->Record_0@.len() == 9
    &&& header_value_layout(v->Record_0@[0])
    &&& v->Record_0@[1] matches Value::U32(_)
    &&& v->Record_0@[2] matches Value::U32(_)
    &&& v->Record_0@[3] matches Value::Sequence(fs) && fs@.len() < pow256(4) && (forall|i: int|
        0 <= i < fs@.len() ==> point_field_value_layout(#[trigger] fs@[i]))
    &&& v->Record_0@[4] matches Value::U8(_)
    &&& v->Record_0@[5] matches Value::U32(_)
    &&& v->Record_0@[6] matches Value::U32(_)
    &&& v->Record_0@[7] matches Value::Sequence(ds) && ds@.len() < pow256(4) && (forall|i: int|
        0 <= i < ds@.len() ==> (#[trigger] ds@[i]) matches Value::U8(_))
    &&& v->Record_0@[8] matches Value::U8(_)
}

/// A value conforms to a header-shaped record exactly when it has the
/// header's layout.
pub proof fn lemma_header_conforms_layout(v: Value, s: Shape)
    requires
        is_header_shape(s),
    ensures
        conforms(v, s) == header_value_layout(v),
{
    let fields = s->Record_0@;
    if conforms(v, s) {
        let vals = v->Record_0@;
        assert(conforms(vals[0], fields[0].shape));
        assert(conforms(vals[1], fields[1].shape));
        assert(conforms(vals[2], fields[2].shape));
        assert(conforms(vals[3], fields[3].shape));
        assert(header_value_layout(v));
    }
    if header_value_layout(v) {
        let vals = v->Record_0@;
        assert forall|j: int| 0 <= j < vals.len() implies conforms(
            #[trigger] vals[j],
            fields[j].shape,
        ) by {
            if j == 0 {
                assert(conforms(vals[0], fields[0].shape));
            } else if j == 1 {
                assert(conforms(vals[1], fields[1].shape));
            } else if j == 2 {
                assert(conforms(vals[2], fields[2].shape));
            } else {
                assert(conforms(vals[3], fields[3].shape));
            }
        };
        assert(conforms(v, s));
    }
}

/// A value conforms to a point-field-shaped record exactly when it has that
/// descriptor's layout.
pub proof fn lemma_point_field_conforms_layout(v: Value, s: Shape)
    requires
        is_point_field_shape(s),
    ensures
        conforms(v, s) == point_field_value_layout(v),
{
    let fields = s->Record_0@;
    if conforms(v, s) {
        let vals = v->Record_0@;
        assert(conforms(vals[0], fields[0].shape));
        assert(conforms(vals[1], fields[1].shape));
        assert(conforms(vals[2], fields[2].shape));
        assert(conforms(vals[3], fields[3].shape));
        assert(point_field_value_layout(v));
    }
    if point_field_value_layout(v) {
        let vals = v->Record_0@;
        assert forall|j: int| 0 <= j < vals.len() implies conforms(
            #[trigger] vals[j],
            fields[j].shape,
        ) by {
            if j == 0 {
                assert(conforms(vals[0], fields[0].shape));
            } else if j == 1 {
                assert(conforms(vals[1], fields[1].shape));
            } else if j == 2 {
                assert(conforms(vals[2], fields[2].shape));
            } else {
                assert(conforms(vals[3], fields[3].shape));
            }
        };
        assert(conforms(v, s));
    }
}

/// A value conforms to a point-cloud-shaped record exactly when it has the
/// point-cloud layout: what the shape table declares and what the value tree
/// shows are the same condition.
pub proof fn lemma_pc2_conforms_layout(v: Value, s: Shape)
    requires
        is_pc2_shape(s),
    ensures
        conforms(v, s) == pc2_value_layout(v),
{
    let fields = s->Record_0@;
    if conforms(v, s) {
        let vals = v->Record_0@;
        assert(conforms(vals[0], fields[0].shape));
        assert(conforms(vals[1], fields[1].shape));
        assert(conforms(vals[2], fields[2].shape));
        assert(conforms(vals[3], fields[3].shape));
        assert(conforms(vals[4], fields[4].shape));
        assert(conforms(vals[5], fields[5].shape));
        assert(conforms(vals[6], fields[6].shape));
        assert(conforms(vals[7], fields[7].shape));
        assert(conforms(vals[8], fields[8].shape));
        lemma_header_conforms_layout(vals[0], fields[0].shape);
        let pf = fields[3].shape->Sequence_0;
        let fs = vals[3]->Sequence_0@;
        assert forall|i: int| 0 <= i < fs.len() implies point_field_value_layout(
            #[trigger] fs[i],
        ) by {
            assert(conforms(fs[i], *pf));
            lemma_point_field_conforms_layout(fs[i], *pf);
        };
        let ds = vals[7]->Sequence_0@;
        assert forall|i: int| 0 <= i < ds.len() implies (#[trigger] ds[i]) matches Value::U8(_) by {
            assert(conforms(ds[i], Shape::U8));
        };
        assert(pc2_value_layout(v));
    }
    if pc2_value_layout(v) {
        let vals = v->Record_0@;
        lemma_header_conforms_layout(vals[0], fields[0].shape);
        let pf = fields[3].shape->Sequence_0;
        let fs = vals[3]->Sequence_0@;
        assert forall|i: int| 0 <= i < fs.len() implies conforms(#[trigger] fs[i], *pf) by {
            assert(point_field_value_layout(fs[i]));
            lemma_point_field_conforms_layout(fs[i], *pf);
        };
        assert(conforms(vals[3], fields[3].shape));
        let ds = vals[7]->Sequence_0@;
        assert forall|i: int| 0 <= i < ds.len() implies conforms(#[trigger] ds[i], Shape::U8) by {
            assert(ds[i] matches Value::U8(_));
        };
        assert(conforms(vals[7], fields[7].shape));
        assert forall|i: int| 0 <= i < vals.len() implies conforms(
            #[trigger] vals[i],
            fields[i].shape,
        ) by {
            if i == 0 {
                assert(conforms(vals[0], fields[0].shape));
            } else if i == 1 {
                assert(conforms(vals[1], fields[1].shape));
            } else if i == 2 {
                assert(conforms(vals[2], fields[2].shape));
            } else if i == 3 {
                assert(conforms(vals[3], fields[3].shape));
            } else if i == 4 {
                assert(conforms(vals[4], fields[4].shape));
            } else if i == 5 {
                assert(conforms(vals[5], fields[5].shape));
            } else if i == 6 {
                assert(conforms(vals[6], fields[6].shape));
            } else if i == 7 {
                assert(conforms(vals[7], fields[7].shape));
            } else {
                assert(conforms(vals[8], fields[8].shape));
            }
        };
        assert(conforms(v, s));
    }
}

fn field(name: &str, shape: Shape) -> (r: Field)
    ensures
        r.shape == shape,
{
    Field { name: String::from_str(name), shape }
}

/// The declared shape of the header record.
pub fn header_shape() -> (r: Shape)
    ensures
        is_header_shape(r),
{
    let mut fs: Vec<Field> = Vec::new();
    fs.push(field("sequence_id", Shape::U32));
    fs.push(field("sec", Shape::U32));
    fs.push(field("nsec", Shape::U32));
    fs.push(field("frame_id", Shape::Text));
    Shape::Record(fs)
}

/// The declared shape of one point-field descriptor.
pub fn point_field_shape() -> (r: Shape)
    ensures
        is_point_field_shape(r),
{
    let mut fs: Vec<Field> = Vec::new();
    fs.push(field("name", Shape::Text));
    fs.push(field("offset", Shape::U32));
    fs.push(field("datatype", Shape::U8));
    fs.push(field("count", Shape::U32));
    Shape::Record(fs)
}

/// The declared shape of the point-cloud record, fields in wire order.
pub fn pc2_shape() -> (r: Shape)
    ensures
        is_pc2_shape(r),
{
    let mut fs: Vec<Field> = Vec::new();
    fs.push(field("header", header_shape()));
    fs.push(field("height", Shape::U32));
    fs.push(field("width", Shape::U32));
    fs.push(field("fields", Shape::Sequence(Box::new(point_field_shape()))));
    fs.push(field("is_bigendian", Shape::U8));
    fs.push(field("point_step", Shape::U32));
    fs.push(field("row_step", Shape::U32));
    fs.push(field("data", Shape::Sequence(Box::new(Shape::U8))));
    fs.push(field("is_dense", Shape::U8));
    Shape::Record(fs)
}

/// Rebuilds the typed point cloud from a decoded value of its shape; refuses
/// any value tree of another layout.
fn pc2_from_value(v: &Value) -> (r: Result<PointCloud2, Error>)
    ensures
        r is Ok ==> pc2_corresponds(*v, r->Ok_0),
        pc2_value_layout(*v) ==> r is Ok,
{
    let vals = match v {
        Value::Record(vals) => vals,
        _ => { return Err(Error::SchemaMismatch); },
    };
    if vals.len() != 9 {
        return Err(Error::SchemaMismatch);
    }
    let hvals = match &vals[0] {
        Value::Record(hvals) => hvals,
        _ => { return Err(Error::SchemaMismatch); },
    };
    if hvals.len() != 4 {
        return Err(Error::SchemaMismatch);
    }
    let sequence_id = match &hvals[0] {
        Value::U32(x) => *x,
        _ => { return Err(Error::SchemaMismatch); },
    };
    let sec = match &hvals[1] {
        Value::U32(x) => *x,
        _ => { return Err(Error::SchemaMismatch); },
    };
    let nsec = match &hvals[2] {
        Value::U32(x) => *x,
        _ => { return Err(Error::SchemaMismatch); },
    };
    let frame_id = match &hvals[3] {
        Value::Text(s) => s.clone(),
        _ => { return Err(Error::SchemaMismatch); },
    };
    let height = match &vals[1] {
        Value::U32(x) => *x,
        _ => { return Err(Error::SchemaMismatch); },
    };
    let width = match &vals[2] {
        Value::U32(x) => *x,
        _ => { return Err(Error::SchemaMismatch); },
    };
    let fvals = match &vals[3] {
        Value::Sequence(fvals) => fvals,
        _ => { return Err(Error::SchemaMismatch); },
    };
    let mut fields: Vec<PointField> = Vec::new();
    let mut i: usize = 0;
    while i < fvals.len()
        invariant
            *v matches Value::Record(_),
            v->Record_0@.len() == 9,
            v->Record_0@[3] == Value::Sequence(*fvals),
            i as int == fields@.len(),
            i <= fvals@.len(),
            forall|j: int|
                0 <= j < i as int ==> point_field_corresponds(fvals@[j], #[trigger] fields@[j]),
        decreases fvals@.len() - i as int,
    {
        let pf = match &fvals[i] {
            Value::Record(pvals) => {
                if pvals.len() != 4 {
                    return Err(Error::SchemaMismatch);
                }
                let name = match &pvals[0] {
                    Value::Text(s) => s.clone(),
                    _ => { return Err(Error::SchemaMismatch); },
                };
                let offset = match &pvals[1] {
                    Value::U32(x) => *x,
                    _ => { return Err(Error::SchemaMismatch); },
                };
                let datatype = match &pvals[2] {
                    Value::U8(x) => *x,
                    _ => { return Err(Error::SchemaMismatch); },
                };
                let count = match &pvals[3] {
                    Value::U32(x) => *x,
                    _ => { return Err(Error::SchemaMismatch); },
                };
                PointField { name, offset, datatype, count }
            },
            _ => { return Err(Error::SchemaMismatch); },
        };
        fields.push(pf);
        i = i + 1;
    }
    let is_bigendian = match &vals[4] {
        Value::U8(x) => *x,
        _ => { return Err(Error::SchemaMismatch); },
    };
    let point_step = match &vals[5] {
        Value::U32(x) => *x,
        _ => { return Err(Error::SchemaMismatch); },
    };
    let row_step = match &vals[6] {
        Value::U32(x) => *x,
        _ => { return Err(Error::SchemaMismatch); },
    };
    let dvals = match &vals[7] {
        Value::Sequence(dvals) => dvals,
        _ => { return Err(Error::SchemaMismatch); },
    };
    let mut data: Vec<u8> = Vec::new();
    let mut k: usize = 0;
    while k < dvals.len()
        invariant
            *v matches Value::Record(_),
            v->Record_0@.len() == 9,
            v->Record_0@[7] == Value::Sequence(*dvals),
            k as int == data@.len(),
            k <= dvals@.len(),
            forall|j: int| 0 <= j < k as int ==> dvals@[j] == Value::U8(#[trigger] data@[j]),
        decreases dvals@.len() - k as int,
    {
        let b = match &dvals[k] {
            Value::U8(x) => *x,
            _ => { return Err(Error::SchemaMismatch); },
        };
        data.push(b);
        k = k + 1;
    }
    let is_dense = match &vals[8] {
        Value::U8(x) => *x,
        _ => { return Err(Error::SchemaMismatch); },
    };
    Ok(
        PointCloud2 {
            header: Header { sequence_id, sec, nsec, frame_id },
            height,
            width,
            fields,
            is_bigendian,
            point_step,
            row_step,
            data,
            is_dense,
        },
    )
}

/// Decodes one point-cloud record from a raw payload: the generic decoder
/// runs against the declared point-cloud shape, then the value tree is
/// rebuilt into the typed record.
///
/// It succeeds exactly on payloads (within the budget type's reach) that are
/// the complete encoding of a value of the point-cloud layout, and then
/// returns the record those bytes encode; a payload with trailing bytes
/// beyond one full record is refused as `SchemaMismatch`.
pub fn decode_pointcloud2(payload: &[u8]) -> (r: Result<PointCloud2, Error>)
    ensures
        r is Ok ==> exists|v: Value| wire_of(v) == payload@ && pc2_corresponds(v, r->Ok_0),
        forall|v: Value|
            pc2_value_layout(v) && wire_of(v) == payload@ && payload@.len() <= u32::MAX ==> r
                is Ok,
        payload@.len() <= u32::MAX ==> r != Err::<PointCloud2, Error>(Error::IoError),
        r == Err::<PointCloud2, Error>(Error::SchemaMismatch) <==> payload@.len() <= u32::MAX && (
        exists|v: Value|
            pc2_value_layout(v) && wire_of(v).len() < payload@.len() && payload@.take(
                wire_of(v).len() as int,
            ) == wire_of(v)),
{
    if payload.len() > u32::MAX as usize {
        return Err(Error::BudgetExceeded);
    }
    let shape = pc2_shape();
    let rr = from_slice(payload, &shape);
    proof {
        assert forall|v: Value| pc2_value_layout(v) == conforms(v, shape) by {
            lemma_pc2_conforms_layout(v, shape);
        };
    }
    let v = match rr {
        Ok(v) => v,
        Err(e) => { return Err(e); },
    };
    match pc2_from_value(&v) {
        Ok(p) => {
            proof {
                assert(wire_of(v) == payload@ && pc2_corresponds(v, p));
            }
            Ok(p)
        },
        Err(e) => {
            proof {
                assert(pc2_value_layout(v));
                assert(false);
            }
            Err(e)
        },
    }
}

} // verus!
