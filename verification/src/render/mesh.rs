//! [`MeshBuilder`]: vertex bytes and triangle indices, written one vertex
//! at a time.

use crate::render::{is_packed_layout, packed_layout, type_bytes_before, DataType, VertexPointer};
use vstd::prelude::*;

verus! {

/// A named vertex attribute of a given type.
#[derive(Clone, Debug)]
pub struct Attribute {
    pub name: String,
    pub type_: DataType,
}

/// The types of `attributes`, in order.
pub open spec fn attribute_types(attributes: Seq<Attribute>) -> Seq<DataType> {
    attributes.map_values(|a: Attribute| a.type_)
}

/// Collects the bytes of the vertices, attribute after attribute in the
/// order of `attributes`, and the indices of the triangles.
pub struct MeshBuilder<'a> {
    attributes: &'a [Attribute],
    bytes: Vec<u8>,
    indices: Vec<u16>,
    attribute_num: usize,
    vertex_num: usize,
}

impl<'a> MeshBuilder<'a> {
    /// The attributes every vertex has.
    pub closed spec fn spec_attributes(&self) -> Seq<Attribute> {
        self.attributes@
    }

    /// The bytes written so far.
    pub closed spec fn spec_bytes(&self) -> Seq<u8> {
        self.bytes@
    }

    /// The indices written so far.
    pub closed spec fn spec_indices(&self) -> Seq<u16> {
        self.indices@
    }

    /// How many attributes of the current vertex are written.
    pub closed spec fn spec_attribute_num(&self) -> nat {
        self.attribute_num as nat
    }

    /// How many vertices are complete.
    pub closed spec fn spec_vertex_num(&self) -> nat {
        self.vertex_num as nat
    }

    /// A builder with nothing written, for vertices with `attributes`.
    pub fn new(attributes: &'a [Attribute]) -> (r: MeshBuilder<'a>)
        ensures
            r.spec_attributes() == attributes@,
            r.spec_bytes() == Seq::<u8>::empty(),
            r.spec_indices() == Seq::<u16>::empty(),
            r.spec_attribute_num() == 0,
            r.spec_vertex_num() == 0,
    {
        MeshBuilder { attributes, bytes: Vec::new(), indices: Vec::new(), attribute_num: 0, vertex_num: 0 }
    }

    /// Writes the next attribute of the current vertex: a value of type
    /// `type_`, whose bytes are `value`. The type must be that of the next
    /// attribute.
    pub fn push(&mut self, type_: DataType, value: &[u8])
        requires
            old(self).spec_attribute_num() < old(self).spec_attributes().len(),
            old(self).spec_attributes()[old(self).spec_attribute_num() as int].type_ == type_,
        ensures
            final(self).spec_attributes() == old(self).spec_attributes(),
            final(self).spec_bytes() == old(self).spec_bytes() + value@,
            final(self).spec_indices() == old(self).spec_indices(),
            final(self).spec_attribute_num() == old(self).spec_attribute_num() + 1,
            final(self).spec_vertex_num() == old(self).spec_vertex_num(),
    {
        let n = self.attributes.len();
        assert(self.attribute_num < n);
        self.attribute_num = self.attribute_num + 1;
        self.bytes.extend_from_slice(value);
        assert(self.bytes@ =~= old(self).bytes@ + value@);
    }

    /// Completes the current vertex, whose attributes must all be written,
    /// adds its index to the index list, and returns it. There can be at
    /// most 65536 vertices.
    pub fn end_vert(&mut self) -> (r: u16)
        requires
            old(self).spec_attribute_num() == old(self).spec_attributes().len(),
            old(self).spec_vertex_num() <= u16::MAX,
        ensures
            r == old(self).spec_vertex_num(),
            final(self).spec_attributes() == old(self).spec_attributes(),
            final(self).spec_bytes() == old(self).spec_bytes(),
            final(self).spec_indices() == old(self).spec_indices().push(r),
            final(self).spec_attribute_num() == 0,
            final(self).spec_vertex_num() == old(self).spec_vertex_num() + 1,
    {
        let result = self.vertex_num as u16;
        self.vertex_num = self.vertex_num + 1;
        self.attribute_num = 0;
        self.indices.push(result);
        result
    }

    /// Adds the index `id` of an earlier vertex to the index list again.
    pub fn dup_vert(&mut self, id: u16)
        ensures
            final(self).spec_attributes() == old(self).spec_attributes(),
            final(self).spec_bytes() == old(self).spec_bytes(),
            final(self).spec_indices() == old(self).spec_indices().push(id),
            final(self).spec_attribute_num() == old(self).spec_attribute_num(),
            final(self).spec_vertex_num() == old(self).spec_vertex_num(),
    {
        self.indices.push(id);
    }

    /// The bytes written so far.
    pub fn bytes(&self) -> (r: &[u8])
        ensures
            r@ == self.spec_bytes(),
    {
        self.bytes.as_slice()
    }

    /// The indices written so far.
    pub fn indices(&self) -> (r: &[u16])
        ensures
            r@ == self.spec_indices(),
    {
        self.indices.as_slice()
    }

    /// How many attributes of the current vertex are written.
    pub fn attribute_num(&self) -> (r: usize)
        ensures
            r == self.spec_attribute_num(),
    {
        self.attribute_num
    }
    /// The layout the vertices were written in, once no vertex is half
    /// written: the stride, the bytes of one value of each attribute together,
    /// and for each attribute in order its index, its number of components and
    /// the bytes of the attributes before it.
    pub fn vertex_pointers(&self) -> (r: (usize, Vec<VertexPointer>))
        requires
            self.spec_attribute_num() == 0,
            self.spec_attributes().len() <= u32::MAX,
            type_bytes_before(attribute_types(self.spec_attributes()), self.spec_attributes().len() as int) <= usize::MAX,
        ensures
            is_packed_layout(attribute_types(self.spec_attributes()), r),
    {
        let mut types: Vec<DataType> = Vec::new();
        let mut i: usize = 0;
        while i < self.attributes.len()
            invariant
                i <= self.attributes@.len(),
                types@ == attribute_types(self.attributes@.subrange(0, i as int)),
            decreases self.attributes@.len() - i,
        {
            types.push(self.attributes[i].type_);
            proof {
                assert(attribute_types(self.attributes@.subrange(0, i + 1)) =~= attribute_types(self.attributes@.subrange(0, i as int)).push(
                    self.attributes@[i as int].type_,
                ));
            }
            i += 1;
        }
        proof {
            assert(self.attributes@.subrange(0, self.attributes@.len() as int) =~= self.attributes@);
        }
        packed_layout(types.as_slice())
    }
}

} // verus!
