//! Vertex data types, and the assembly of vertex and index data for upload.

use vstd::prelude::*;

pub mod mesh;
pub mod queue;
pub mod shader;

verus! {

/// The type of a vertex attribute or uniform.
#[derive(Clone, Copy, Debug, PartialEq, Eq, Structural)]
pub enum DataType {
    Float,
    Vec2,
    Vec3,
    Mat3x3,
    Int,
    Sampler2D,
}

impl DataType {
    /// The number of scalar components of a value of this type.
    pub open spec fn spec_num_components(self) -> u32 {
        match self {
            DataType::Float => 1,
            DataType::Vec2 => 2,
            DataType::Vec3 => 3,
            DataType::Mat3x3 => 9,
            DataType::Int => 1,
            DataType::Sampler2D => 1,
        }
    }

    /// The number of bytes of a value of this type: four per component.
    pub open spec fn spec_num_bytes(self) -> usize {
        match self {
            DataType::Float => 4,
            DataType::Vec2 => 8,
            DataType::Vec3 => 12,
            DataType::Mat3x3 => 36,
            DataType::Int => 4,
            DataType::Sampler2D => 4,
        }
    }

    /// The number of scalar components of a value of this type.
    pub fn num_components(self) -> (r: u32)
        ensures
            r == self.spec_num_components(),
    {
        match self {
            DataType::Float => 1,
            DataType::Vec2 => 2,
            DataType::Vec3 => 3,
            DataType::Mat3x3 => 9,
            DataType::Int => 1,
            DataType::Sampler2D => 1,
        }
    }

    /// The number of bytes of a value of this type.
    pub fn num_bytes(self) -> (r: usize)
        ensures
            r == self.spec_num_bytes(),
    {
        match self {
            DataType::Float => 4,
            DataType::Vec2 => 8,
            DataType::Vec3 => 12,
            DataType::Mat3x3 => 36,
            DataType::Int => 4,
            DataType::Sampler2D => 4,
        }
    }
}

/// A value of any type has four bytes per component.
pub proof fn lemma_four_bytes_per_component(t: DataType)
    ensures
        t.spec_num_bytes() == 4 * t.spec_num_components(),
{
}

/// The bytes of one value of each of the first `n` types.
pub open spec fn type_bytes_before(types: Seq<DataType>, n: int) -> nat
    decreases n,
{
    if n <= 0 {
        0
    } else {
        type_bytes_before(types, n - 1) + types[n - 1].spec_num_bytes() as nat
    }
}

proof fn lemma_type_bytes_before_monotone(types: Seq<DataType>, i: int, n: int)
    requires
        0 <= i <= n,
    ensures
        type_bytes_before(types, i) <= type_bytes_before(types, n),
    decreases n - i,
{
    if i < n {
        lemma_type_bytes_before_monotone(types, i, n - 1);
    }
}

/// Where the GPU finds one attribute of a vertex: its attribute index, its
/// number of components, and its offset in the vertex.
#[derive(Clone, Copy, Debug)]
pub struct VertexPointer {
    pub index: u32,
    pub components: u32,
    pub offset: usize,
}

/// `r` is the layout of vertices whose attributes have the types `types`, one
/// value each, packed in order: the stride, and for each attribute its index,
/// its number of components and the bytes of the attributes before it.
pub open spec fn is_packed_layout(types: Seq<DataType>, r: (usize, Vec<VertexPointer>)) -> bool {
    &&& r.0 == type_bytes_before(types, types.len() as int)
    &&& r.1@.len() == types.len()
    &&& forall|i: int|
        0 <= i < r.1@.len() ==> #[trigger] r.1@[i] == (VertexPointer {
            index: i as u32,
            components: types[i].spec_num_components(),
            offset: type_bytes_before(types, i) as usize,
        })
}

/// The layout of vertices whose attributes have the types `types`, one value
/// each, packed in order.
pub fn packed_layout(types: &[DataType]) -> (r: (usize, Vec<VertexPointer>))
    requires
        types@.len() <= u32::MAX,
        type_bytes_before(types@, types@.len() as int) <= usize::MAX,
    ensures
        is_packed_layout(types@, r),
{
    let n = types.len();
    let mut pointers: Vec<VertexPointer> = Vec::new();
    let mut offset: usize = 0;
    let mut i: usize = 0;
    while i < n
        invariant
            n == types@.len(),
            n <= u32::MAX,
            type_bytes_before(types@, n as int) <= usize::MAX,
            i <= n,
            offset == type_bytes_before(types@, i as int),
            pointers@.len() == i,
            forall|k: int|
                0 <= k < i ==> #[trigger] pointers@[k] == (VertexPointer {
                    index: k as u32,
                    components: types@[k].spec_num_components(),
                    offset: type_bytes_before(types@, k) as usize,
                }),
        decreases n - i,
    {
        proof {
            lemma_type_bytes_before_monotone(types@, i + 1, n as int);
        }
        let t = types[i];
        pointers.push(VertexPointer { index: i as u32, components: t.num_components(), offset });
        offset = offset + t.num_bytes();
        i += 1;
    }
    (offset, pointers)
}

/// The number of 16 by 16 workgroups that a histogram pass dispatches over a
/// texture of `width` by `height` texels, in each direction: the texels of
/// a partial tile at the right or bottom edge are left out.
pub fn dispatch_count(width: u32, height: u32) -> (r: (u32, u32))
    ensures
        r.0 == width / 16,
        r.1 == height / 16,
{
    (width / 16, height / 16)
}

} // verus!
