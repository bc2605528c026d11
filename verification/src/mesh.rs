//! CPU-side meshes: named vertex attributes, optional indices, and the
//! checks and conversions done on them before upload.

use crate::text::{decimal, usize_to_string};
use vstd::prelude::*;

verus! {

/// The name of the attribute holding vertex positions.
pub const POSITION: &'static str = "vert_pos";

/// The name of the attribute holding vertex normals.
pub const NORMAL: &'static str = "vert_normal";

/// The values of one vertex attribute. Each component is kept as the bit
/// pattern of its `f32` value.
#[derive(Clone, Debug)]
pub enum AttributeVec {
    Vec2(Vec<[u32; 2]>),
    Vec3(Vec<[u32; 3]>),
}

/// The name and type of a vertex attribute.
#[derive(Clone, Debug)]
pub struct Attribute {
    pub name: String,
    pub type_: AttributeType,
}

/// The type of a vertex attribute.
#[derive(Clone, Copy, Debug, PartialEq, Eq, Structural)]
pub enum AttributeType {
    Vec2,
    Vec3,
}

/// How indices are grouped into primitives.
#[derive(Clone, Copy, Debug, PartialEq, Eq, Structural)]
#[allow(non_camel_case_types)]
pub enum PrimitiveType {
    LINES,
    TRIANGLES,
}

/// Why a mesh cannot be used as it is.
#[derive(Clone, Debug)]
pub enum MeshError {
    /// The number of indices (first) is not a multiple of the number of
    /// vertices of a primitive (second).
    IncompletePrimitive(usize, usize),
    /// There are more indices than a 16-bit index can address.
    TooManyIndices(usize),
    /// The index at the given position has a value above the given maximum.
    IndexOutOfBounds(usize, u16, u16),
    /// Two attributes have different lengths.
    AttributeLengthMismatch { first_name: String, first_len: usize, second_name: String, second_len: usize },
}

/// A mesh: its attributes by name, in the order they were added, its
/// indices if it has any, and its primitive type.
#[derive(Clone, Debug)]
pub struct Mesh {
    pub attributes: Vec<(String, AttributeVec)>,
    pub indices: Option<Vec<u16>>,
    pub primitive_type: PrimitiveType,
}

/// What a mesh holds, with its index vector as a sequence.
pub struct MeshView {
    pub attributes: Seq<(String, AttributeVec)>,
    pub indices: Option<Seq<u16>>,
    pub primitive_type: PrimitiveType,
}

impl View for Mesh {
    type V = MeshView;

    open spec fn view(&self) -> MeshView {
        MeshView {
            attributes: self.attributes@,
            indices: match self.indices {
                Some(v) => Some(v@),
                None => None,
            },
            primitive_type: self.primitive_type,
        }
    }
}

/// No two attributes of `attrs` share a name.
pub open spec fn names_unique(attrs: Seq<(String, AttributeVec)>) -> bool {
    forall|i: int, j: int| 0 <= i < attrs.len() && 0 <= j < attrs.len() && i != j ==> (#[trigger] attrs[i]).0@ != (#[trigger] attrs[j]).0@
}

/// `attrs` after inserting `value` under `name`: replacing the value of the
/// attribute of that name in its place, or appended when there is none.
pub open spec fn inserted_attribute(attrs: Seq<(String, AttributeVec)>, name: String, value: AttributeVec) -> Seq<(String, AttributeVec)> {
    if exists|i: int| 0 <= i < attrs.len() && (#[trigger] attrs[i]).0@ == name@ {
        let i = choose|i: int| 0 <= i < attrs.len() && (#[trigger] attrs[i]).0@ == name@;
        attrs.update(i, (attrs[i].0, value))
    } else {
        attrs.push((name, value))
    }
}

/// The number of values of an attribute.
pub open spec fn attr_len(v: AttributeVec) -> nat {
    match v {
        AttributeVec::Vec2(x) => x@.len(),
        AttributeVec::Vec3(x) => x@.len(),
    }
}

/// All attributes have as many values as the first one.
pub open spec fn lengths_agree(attrs: Seq<(String, AttributeVec)>) -> bool {
    forall|i: int| 0 <= i < attrs.len() ==> #[trigger] attr_len(attrs[i].1) == attr_len(attrs[0].1)
}

/// Attribute `q` is the first whose length differs from the first one's.
pub open spec fn first_mismatch(attrs: Seq<(String, AttributeVec)>, q: int) -> bool {
    &&& 0 < q < attrs.len()
    &&& attr_len(attrs[q].1) != attr_len(attrs[0].1)
    &&& forall|i: int| 0 <= i < q ==> #[trigger] attr_len(attrs[i].1) == attr_len(attrs[0].1)
}

/// The number of vertices of a mesh with attributes `attrs`: the common
/// length of its attributes, 0 without attributes, or the error that names
/// the first attribute and the first one whose length differs from it.
pub open spec fn vert_count_of(attrs: Seq<(String, AttributeVec)>) -> Result<usize, MeshError> {
    if attrs.len() == 0 {
        Ok(0)
    } else if lengths_agree(attrs) {
        Ok(attr_len(attrs[0].1) as usize)
    } else {
        let q = choose|q: int| first_mismatch(attrs, q);
        Err(
            MeshError::AttributeLengthMismatch {
                first_name: attrs[0].0,
                first_len: attr_len(attrs[0].1) as usize,
                second_name: attrs[q].0,
                second_len: attr_len(attrs[q].1) as usize,
            },
        )
    }
}

/// The number of indices a mesh draws: its indices, or else its vertices.
pub open spec fn index_count_of(m: MeshView) -> Result<usize, MeshError> {
    match m.indices {
        Some(ix) => Ok(ix.len() as usize),
        None => vert_count_of(m.attributes),
    }
}

/// Which corner of its triangle the `r`-th index of a line-list hexad
/// takes: the edges are (0, 1), (1, 2) and (2, 0).
pub open spec fn corner(r: int) -> int {
    if r == 0 {
        0
    } else if r == 1 || r == 2 {
        1
    } else if r == 3 || r == 4 {
        2
    } else {
        0
    }
}

/// The line list of the edges of the triangle list `ix`.
pub open spec fn wire_indices(ix: Seq<u16>) -> Seq<u16> {
    Seq::new(2 * ix.len(), |k: int| ix[3 * (k / 6) + corner(k % 6)])
}

/// The line list of the edges of `tris` triangles whose vertices are
/// numbered in order.
pub open spec fn wire_sequential(tris: nat) -> Seq<u16> {
    Seq::new(6 * tris, |k: int| (3 * (k / 6) + corner(k % 6)) as u16)
}

/// The result of turning the triangle mesh `m` into the line mesh of its
/// edges: the new mesh and what is returned.
pub open spec fn wireframe(m: MeshView) -> (MeshView, Result<(), MeshError>) {
    match m.primitive_type {
        PrimitiveType::LINES => (m, Ok(())),
        PrimitiveType::TRIANGLES => match m.indices {
            Some(ix) => if ix.len() % 3 != 0 {
                (m, Err(MeshError::IncompletePrimitive(ix.len() as usize, 3)))
            } else {
                (
                    MeshView { indices: Some(wire_indices(ix)), primitive_type: PrimitiveType::LINES, ..m },
                    Ok(()),
                )
            },
            None => match vert_count_of(m.attributes) {
                Ok(n) => (
                    MeshView {
                        indices: Some(wire_sequential((n / 3) as nat)),
                        primitive_type: PrimitiveType::LINES,
                        ..m
                    },
                    Ok(()),
                ),
                Err(e) => (m, Err(e)),
            },
        },
    }
}

/// Turning the mesh into lines would overflow a 16-bit index.
pub open spec fn wireframe_overflows(m: MeshView) -> bool {
    &&& m.primitive_type == PrimitiveType::TRIANGLES
    &&& m.indices is None
    &&& vert_count_of(m.attributes) is Ok
    &&& vert_count_of(m.attributes)->Ok_0 / 3 > 21845
}

/// The number of vertices that every one of the first `k` attributes has:
/// the smallest of their lengths.
pub open spec fn shortest_upto(attrs: Seq<(String, AttributeVec)>, k: int) -> nat
    decreases k,
{
    if k <= 1 {
        if attrs.len() == 0 { 0 } else { attr_len(attrs[0].1) }
    } else {
        let p = shortest_upto(attrs, k - 1);
        let l = attr_len(attrs[k - 1].1);
        if l < p { l } else { p }
    }
}

/// The number of vertices that every attribute has: an index below it names
/// a vertex; 0 without attributes.
pub open spec fn vertex_bound(attrs: Seq<(String, AttributeVec)>) -> nat {
    shortest_upto(attrs, attrs.len() as int)
}

/// The largest index that names a vertex when `n` vertices exist, or 0 when
/// there is none.
pub open spec fn largest_index(n: nat) -> u16 {
    if n == 0 { 0 } else { (n - 1) as u16 }
}

/// The result of checking that the mesh `m` can be drawn.
pub open spec fn validation_of(m: MeshView) -> Result<(), MeshError> {
    let ic = index_count_of(m)->Ok_0;
    let pv = m.primitive_type.spec_num_verts();
    if ic % pv != 0 {
        Err(MeshError::IncompletePrimitive(ic, pv))
    } else {
        match m.indices {
            Some(ix) => if ic > 0 && ic - 1 > u16::MAX {
                Err(MeshError::TooManyIndices(ic))
            } else {
                let n = vertex_bound(m.attributes);
                if exists|i: int| 0 <= i < ix.len() && ix[i] >= n {
                    let i = choose|i: int| 0 <= i < ix.len() && ix[i] >= n && forall|k: int| 0 <= k < i ==> ix[k] < n;
                    Err(MeshError::IndexOutOfBounds(i as usize, ix[i], largest_index(n)))
                } else {
                    Ok(())
                }
            },
            None => Ok(()),
        }
    }
}

proof fn lemma_first_mismatch_unique(attrs: Seq<(String, AttributeVec)>, q1: int, q2: int)
    requires
        first_mismatch(attrs, q1),
        first_mismatch(attrs, q2),
    ensures
        q1 == q2,
{
    if q1 < q2 {
        assert(attr_len(attrs[q1].1) == attr_len(attrs[0].1));
    } else if q2 < q1 {
        assert(attr_len(attrs[q2].1) == attr_len(attrs[0].1));
    }
}

proof fn lemma_div6(t: int, r: int)
    requires
        0 <= t,
        0 <= r < 6,
    ensures
        (6 * t + r) / 6 == t,
        (6 * t + r) % 6 == r,
{
    assert((6 * t + r) / 6 == t && (6 * t + r) % 6 == r) by (nonlinear_arith)
        requires
            0 <= t,
            0 <= r < 6,
    ;
}

impl AttributeVec {
    /// The number of values.
    pub fn len(&self) -> (r: usize)
        ensures
            r == attr_len(*self),
    {
        match self {
            AttributeVec::Vec2(v) => v.len(),
            AttributeVec::Vec3(v) => v.len(),
        }
    }

    /// Whether there are no values.
    pub fn is_empty(&self) -> (r: bool)
        ensures
            r == (attr_len(*self) == 0),
    {
        match self {
            AttributeVec::Vec2(v) => v.len() == 0,
            AttributeVec::Vec3(v) => v.len() == 0,
        }
    }

    /// The type of the values.
    pub fn type_(&self) -> (r: AttributeType)
        ensures
            r == (match *self {
                AttributeVec::Vec2(_) => AttributeType::Vec2,
                AttributeVec::Vec3(_) => AttributeType::Vec3,
            }),
    {
        match self {
            AttributeVec::Vec2(_) => AttributeType::Vec2,
            AttributeVec::Vec3(_) => AttributeType::Vec3,
        }
    }
}

impl AttributeType {
    /// The number of bytes of one value: four per component.
    pub fn byte_count(&self) -> (r: usize)
        ensures
            r == (match *self {
                AttributeType::Vec2 => 8usize,
                AttributeType::Vec3 => 12usize,
            }),
    {
        match self {
            AttributeType::Vec2 => 2 * 4,
            AttributeType::Vec3 => 3 * 4,
        }
    }
}

impl PrimitiveType {
    /// The number of vertices of one primitive.
    pub open spec fn spec_num_verts(self) -> usize {
        match self {
            PrimitiveType::LINES => 2,
            PrimitiveType::TRIANGLES => 3,
        }
    }

    /// The number of vertices of one primitive: 2 for lines, 3 for triangles.
    pub fn num_verts(self) -> (r: usize)
        ensures
            r == self.spec_num_verts(),
    {
        match self {
            PrimitiveType::LINES => 2,
            PrimitiveType::TRIANGLES => 3,
        }
    }
}

impl Mesh {
    /// A mesh with no attributes and no indices.
    pub fn new(primitive_type: PrimitiveType) -> (r: Mesh)
        ensures
            r.attributes@.len() == 0,
            r.indices is None,
            r.primitive_type == primitive_type,
    {
        Mesh { attributes: Vec::new(), indices: None, primitive_type }
    }

    /// Sets the attribute `name` to `value`: in the place of the attribute of
    /// that name, which keeps its name, or as a new last attribute. Names stay
    /// unique.
    pub fn insert_attribute(&mut self, name: String, value: AttributeVec)
        requires
            names_unique(old(self).attributes@),
        ensures
            final(self).attributes@ == inserted_attribute(old(self).attributes@, name, value),
            names_unique(final(self).attributes@),
            final(self).indices == old(self).indices,
            final(self).primitive_type == old(self).primitive_type,
    {
        let ghost a = self.attributes@;
        let mut i: usize = 0;
        while i < self.attributes.len()
            invariant
                a == self.attributes@,
                a == old(self).attributes@,
                names_unique(a),
                self.indices == old(self).indices,
                self.primitive_type == old(self).primitive_type,
                i <= a.len(),
                forall|k: int| 0 <= k < i ==> (#[trigger] a[k]).0@ != name@,
            decreases a.len() - i,
        {
            if self.attributes[i].0 == name {
                let old_name = self.attributes[i].0.clone();
                self.attributes.set(i, (old_name, value));
                proof {
                    let j = choose|j: int| 0 <= j < a.len() && (#[trigger] a[j]).0@ == name@;
                    if j != i {
                        assert(a[j].0@ != a[i as int].0@);
                    }
                    assert(self.attributes@ =~= inserted_attribute(a, name, value));
                    assert forall|x: int, y: int| 0 <= x < a.len() && 0 <= y < a.len() && x != y implies
                        (#[trigger] self.attributes@[x]).0@ != (#[trigger] self.attributes@[y]).0@ by {
                        assert(self.attributes@[x].0 == a[x].0 && self.attributes@[y].0 == a[y].0);
                    }
                }
                return;
            }
            i += 1;
        }
        self.attributes.push((name, value));
        proof {
            assert(self.attributes@ =~= inserted_attribute(a, name, value));
            assert forall|x: int, y: int| 0 <= x < self.attributes@.len() && 0 <= y < self.attributes@.len() && x != y implies
                (#[trigger] self.attributes@[x]).0@ != (#[trigger] self.attributes@[y]).0@ by {
                if x < a.len() && y < a.len() {
                    assert(self.attributes@[x] == a[x] && self.attributes@[y] == a[y]);
                } else if x < a.len() {
                    assert(self.attributes@[x] == a[x]);
                } else {
                    assert(self.attributes@[y] == a[y]);
                }
            }
        }
    }

    /// The number of vertices: the common length of the attributes, or an
    /// error naming two attributes of different lengths.
    pub fn vert_count(&self) -> (r: Result<usize, MeshError>)
        ensures
            r == vert_count_of(self.attributes@),
    {
        let attrs = &self.attributes;
        let ghost a = attrs@;
        if attrs.len() == 0 {
            return Ok(0);
        }
        let first_len = attrs[0].1.len();
        let mut i: usize = 1;
        while i < attrs.len()
            invariant
                a == attrs@,
                a == self.attributes@,
                a.len() > 0,
                first_len == attr_len(a[0].1),
                1 <= i <= a.len(),
                forall|k: int| 0 <= k < i ==> #[trigger] attr_len(a[k].1) == attr_len(a[0].1),
            decreases a.len() - i,
        {
            let len = attrs[i].1.len();
            if len != first_len {
                let first_name = attrs[0].0.clone();
                let second_name = attrs[i].0.clone();
                let e = MeshError::AttributeLengthMismatch { first_name, first_len, second_name, second_len: len };
                proof {
                    assert(first_mismatch(a, i as int));
                    assert(!lengths_agree(a));
                    let q = choose|q: int| first_mismatch(a, q);
                    lemma_first_mismatch_unique(a, q, i as int);
                    assert(first_name == a[0].0);
                    assert(second_name == a[q].0);
                    assert(vert_count_of(a) == Err::<usize, MeshError>(e));
                }
                return Err(e);
            }
            i += 1;
        }
        Ok(first_len)
    }

    /// The number of indices drawn: the number of indices if there are
    /// any, else the number of vertices.
    pub fn index_count(&self) -> (r: Result<usize, MeshError>)
        ensures
            r == index_count_of(self@),
    {
        match &self.indices {
            Some(indices) => Ok(indices.len()),
            None => self.vert_count(),
        }
    }

    /// Turns a triangle mesh into the line mesh of its triangles' edges;
    /// a line mesh is left as it is. Each triangle `(a, b, c)` becomes the
    /// lines `(a, b)`, `(b, c)`, `(c, a)`; a mesh without indices gets
    /// indices that number its vertices in order.
    pub fn make_wireframe(&mut self) -> (r: Result<(), MeshError>)
        requires
            !wireframe_overflows(old(self)@),
        ensures
            (final(self)@, r) == wireframe(old(self)@),
    {
        match self.primitive_type {
            PrimitiveType::LINES => {
                return Ok(());
            },
            PrimitiveType::TRIANGLES => {},
        }
        let new_indices = match &self.indices {
            Some(indices) => {
                if indices.len() % 3 != 0 {
                    return Err(MeshError::IncompletePrimitive(indices.len(), 3));
                }
                let ghost ix = indices@;
                let tris = indices.len() / 3;
                let mut out: Vec<u16> = Vec::new();
                let mut t: usize = 0;
                while t < tris
                    invariant
                        ix == indices@,
                        ix.len() <= usize::MAX,
                        tris == ix.len() / 3,
                        ix.len() % 3 == 0,
                        t <= tris,
                        out@.len() == 6 * t,
                        forall|k: int| 0 <= k < out@.len() ==> #[trigger] out@[k] == ix[3 * (k / 6) + corner(k % 6)],
                    decreases tris - t,
                {
                    proof {
                        assert(3 * t + 2 < ix.len()) by (nonlinear_arith)
                            requires
                                t < tris,
                                tris == ix.len() / 3,
                        ;
                    }
                    let a = indices[3 * t];
                    let b = indices[3 * t + 1];
                    let c = indices[3 * t + 2];
                    out.push(a);
                    out.push(b);
                    out.push(b);
                    out.push(c);
                    out.push(c);
                    out.push(a);
                    proof {
                        assert forall|k: int| 0 <= k < out@.len() implies #[trigger] out@[k] == ix[3 * (k / 6) + corner(k % 6)] by {
                            if k >= 6 * t {
                                lemma_div6(t as int, k - 6 * t);
                            }
                        }
                    }
                    t += 1;
                }
                proof {
                    assert(out@ =~= wire_indices(ix));
                }
                out
            },
            None => {
                let n = match self.vert_count() {
                    Ok(n) => n,
                    Err(e) => {
                        return Err(e);
                    },
                };
                let tris = n / 3;
                let mut out: Vec<u16> = Vec::new();
                let mut t: usize = 0;
                while t < tris
                    invariant
                        tris <= 21845,
                        t <= tris,
                        out@.len() == 6 * t,
                        forall|k: int| 0 <= k < out@.len() ==> #[trigger] out@[k] == (3 * (k / 6) + corner(k % 6)) as u16,
                    decreases tris - t,
                {
                    let v0 = (3 * t) as u16;
                    let v1 = v0 + 1;
                    let v2 = v0 + 2;
                    out.push(v0);
                    out.push(v1);
                    out.push(v1);
                    out.push(v2);
                    out.push(v2);
                    out.push(v0);
                    proof {
                        assert forall|k: int| 0 <= k < out@.len() implies #[trigger] out@[k] == (3 * (k / 6) + corner(k % 6)) as u16 by {
                            if k >= 6 * t {
                                lemma_div6(t as int, k - 6 * t);
                            }
                        }
                    }
                    t += 1;
                }
                proof {
                    assert(out@ =~= wire_sequential(tris as nat));
                }
                out
            },
        };
        self.indices = Some(new_indices);
        self.primitive_type = PrimitiveType::LINES;
        Ok(())
    }

    /// The number of vertices that every attribute has.
    fn shortest_attribute(&self) -> (r: usize)
        ensures
            r == vertex_bound(self.attributes@),
    {
        let a = &self.attributes;
        if a.len() == 0 {
            return 0;
        }
        let mut best = a[0].1.len();
        let mut k: usize = 1;
        while k < a.len()
            invariant
                a@ == self.attributes@,
                1 <= k <= a@.len(),
                best == shortest_upto(a@, k as int),
            decreases a@.len() - k,
        {
            let l = a[k].1.len();
            if l < best {
                best = l;
            }
            k += 1;
        }
        best
    }

    /// Checks that the mesh can be drawn: the index count is a multiple of
    /// the primitive's vertex count and, with indices, the index count minus
    /// one fits in 16 bits and every index names a vertex that every attribute
    /// has; the error describes the first problem found.
    pub fn validate(&self) -> (r: Result<(), MeshError>)
        requires
            self.indices is None ==> lengths_agree(self.attributes@),
        ensures
            r == validation_of(self@),
    {
        let index_count = match self.index_count() {
            Ok(c) => c,
            Err(_) => vstd::pervasive::unreached(),
        };
        let prim_verts = self.primitive_type.num_verts();
        if index_count % prim_verts != 0 {
            return Err(MeshError::IncompletePrimitive(index_count, prim_verts));
        }
        match &self.indices {
            Some(indices) => {
                let len = indices.len();
                assert(index_count == len);
                if index_count > 0 && index_count - 1 > 65535 {
                    return Err(MeshError::TooManyIndices(index_count));
                }
                let n = self.shortest_attribute();
                let mut i: usize = 0;
                while i < indices.len()
                    invariant
                        i <= indices@.len(),
                        self.indices == Some(*indices),
                        index_count == indices@.len(),
                        self.primitive_type.spec_num_verts() == prim_verts,
                        index_count % prim_verts == 0,
                        index_count_of(self@) == Ok::<usize, MeshError>(index_count),
                        !(index_count > 0 && index_count - 1 > 65535),
                        n == vertex_bound(self.attributes@),
                        forall|k: int| 0 <= k < i ==> indices@[k] < n,
                    decreases indices@.len() - i,
                {
                    let val = indices[i];
                    if val as usize >= n {
                        let max: u16 = if n == 0 { 0 } else { (n - 1) as u16 };
                        proof {
                            let ix = indices@;
                            assert(ix[i as int] >= n);
                            let j = choose|j: int| 0 <= j < ix.len() && ix[j] >= n && forall|k: int| 0 <= k < j ==> ix[k] < n;
                            if j < i {
                                assert(ix[j] < n);
                            }
                            if i < j {
                                assert(ix[i as int] < n);
                            }
                            assert(j == i);
                            assert(max == largest_index(n as nat));
                            assert(validation_of(self@) == Err::<(), MeshError>(MeshError::IndexOutOfBounds(i, val, max)));
                        }
                        return Err(MeshError::IndexOutOfBounds(i, val, max));
                    }
                    i += 1;
                }
                Ok(())
            },
            None => Ok(()),
        }
    }
}

/// The message for a mesh error.
pub open spec fn mesh_error_text(e: MeshError) -> Seq<char> {
    match e {
        MeshError::IncompletePrimitive(count, per) => "Mesh ends with incomplete primitive ("@ + decimal(
            count as nat,
        ) + " indices is not a multiple of "@ + decimal(per as nat) + ")"@,
        MeshError::TooManyIndices(_) => "Too many indices for GPU upload"@,
        MeshError::IndexOutOfBounds(i, val, max) => "Index "@ + decimal(i as nat) + " out of bounds: "@ + decimal(
            val as nat,
        ) + " > "@ + decimal(max as nat),
        MeshError::AttributeLengthMismatch { first_name, first_len, second_name, second_len } =>
            "Two or more attributes have different lengths: `"@ + first_name@ + "` ("@ + decimal(first_len as nat)
            + ") and `"@ + second_name@ + "` ("@ + decimal(second_len as nat) + ")"@,
    }
}

impl MeshError {
    /// The message that describes the error.
    pub fn message(&self) -> (r: String)
        ensures
            r@ == mesh_error_text(*self),
    {
        match self {
            MeshError::IncompletePrimitive(count, per) => {
                let mut t = String::from_str("Mesh ends with incomplete primitive (");
                t.append(usize_to_string(*count).as_str());
                t.append(" indices is not a multiple of ");
                t.append(usize_to_string(*per).as_str());
                t.append(")");
                t
            },
            MeshError::TooManyIndices(_) => String::from_str("Too many indices for GPU upload"),
            MeshError::IndexOutOfBounds(i, val, max) => {
                let mut t = String::from_str("Index ");
                t.append(usize_to_string(*i).as_str());
                t.append(" out of bounds: ");
                t.append(usize_to_string(*val as usize).as_str());
                t.append(" > ");
                t.append(usize_to_string(*max as usize).as_str());
                t
            },
            MeshError::AttributeLengthMismatch { first_name, first_len, second_name, second_len } => {
                let mut t = String::from_str("Two or more attributes have different lengths: `");
                t.append(first_name.as_str());
                t.append("` (");
                t.append(usize_to_string(*first_len).as_str());
                t.append(") and `");
                t.append(second_name.as_str());
                t.append("` (");
                t.append(usize_to_string(*second_len).as_str());
                t.append(")");
                t
            },
        }
    }
}

/// Turning a mesh into lines twice does what turning it once does: once it
/// has succeeded the mesh is a line mesh, which is left as it is.
pub proof fn lemma_wireframe_idempotent(m: MeshView)
    requires
        wireframe(m).1 is Ok,
    ensures
        wireframe(wireframe(m).0) == (wireframe(m).0, Ok::<(), MeshError>(())),
        wireframe(m).0.primitive_type == PrimitiveType::LINES,
        wireframe(m).0.attributes == m.attributes,
{
}

/// Line `l` of the line list `w`.
pub open spec fn line_at(w: Seq<u16>, l: int) -> (u16, u16) {
    (w[2 * l], w[2 * l + 1])
}

/// Edge `l % 3` of triangle `l / 3` of the triangle list `ix`: from corner
/// `l % 3` to the next corner.
pub open spec fn edge_at(ix: Seq<u16>, l: int) -> (u16, u16) {
    (ix[3 * (l / 3) + (l % 3)], ix[3 * (l / 3) + ((l % 3) + 1) % 3])
}

/// Turning an indexed triangle mesh into lines doubles its index count, and
/// line `l` of the result is edge `l % 3` of triangle `l / 3`.
pub proof fn lemma_wireframe_indexed(m: MeshView)
    requires
        m.primitive_type == PrimitiveType::TRIANGLES,
        m.indices is Some,
        wireframe(m).1 is Ok,
    ensures
        wireframe(m).0.indices is Some,
        wireframe(m).0.indices->Some_0.len() == 2 * m.indices->Some_0.len(),
        forall|l: int|
            0 <= l < m.indices->Some_0.len() ==> #[trigger] line_at(wireframe(m).0.indices->Some_0, l) == edge_at(
                m.indices->Some_0,
                l,
            ),
{
    let ix = m.indices->Some_0;
    let w = wireframe(m).0.indices->Some_0;
    assert forall|l: int| 0 <= l < ix.len() implies #[trigger] line_at(w, l) == edge_at(ix, l) by {
        let t = l / 3;
        let c = l % 3;
        assert(l == 3 * t + c && 0 <= c < 3) by (nonlinear_arith)
            requires
                t == l / 3,
                c == l % 3,
                0 <= l,
        ;
        lemma_div6(t, 2 * c);
        lemma_div6(t, 2 * c + 1);
        assert(2 * l == 6 * t + 2 * c);
    }
}

/// A triangle mesh without indices, turned into lines, gets six indices per
/// whole triangle of its vertices, joining its corners in order.
pub proof fn lemma_wireframe_unindexed(m: MeshView)
    requires
        m.primitive_type == PrimitiveType::TRIANGLES,
        m.indices is None,
        wireframe(m).1 is Ok,
    ensures
        vert_count_of(m.attributes) is Ok,
        wireframe(m).0.indices == Some(wire_sequential((vert_count_of(m.attributes)->Ok_0 / 3) as nat)),
{
}

} // verus!
