//! What the WebGL side decides on its own: its errors and their messages,
//! the scalar layout of attribute types, and the memory layout of a
//! mesh's vertices.

use crate::dom::{dom_error_text, DomError};
use crate::mesh::{attr_len, index_count_of, mesh_error_text, vert_count_of, AttributeType, AttributeVec, Mesh, MeshError, PrimitiveType};
use vstd::prelude::*;

verus! {

/// Why the drawing context could not be made.
#[derive(Clone, Debug)]
pub enum ContextError {
    GetContextFailed,
    DomError(DomError),
}

/// Why a vertex or index buffer could not be made.
#[derive(Clone, Debug)]
pub enum BufferError {
    CreateFailed,
    MeshError(MeshError),
}

/// Why a mesh could not be prepared for drawing with a shader.
#[derive(Clone, Debug)]
pub enum DrawError {
    CreateVertexArrayFailed,
    UnknownAttribute(String),
    ShaderError(ShaderError),
}

/// Why a shader could not be made or used.
#[derive(Clone, Debug)]
pub enum ShaderError {
    CreateProgramFailed,
    CreateShaderFailed,
    CompileError(String),
    LinkError(String),
    MissingUniform(String),
    Preprocessor(ShaderLoaderError),
}

/// Why a shader source could not be loaded; each names the path.
#[derive(Clone, Debug)]
pub enum ShaderLoaderError {
    RequestFailed(String),
    IncludeCycle(String),
    IncludeSyntaxError(String),
    VersionMismatch(String),
}

/// Why a texture could not be made.
#[derive(Clone, Debug)]
pub enum TextureError {
    CreateTextureFailed,
    DomError(DomError),
}

/// Why a vertex array could not be made.
#[derive(Clone, Debug)]
pub enum VaoError {
    CreateVertexArrayFailed,
    CreateBufferFailed,
    AttributeTypeError(String, u32, u32),
    UnknownAttribute(String),
}

/// A uniform that names a texture unit.
#[derive(Clone, Copy, Debug)]
pub struct Sampler2D(pub u32);

impl From<DomError> for ContextError {
    fn from(e: DomError) -> (r: ContextError) {
        ContextError::DomError(e)
    }
}

impl vstd::std_specs::convert::FromSpecImpl<DomError> for ContextError {
    open spec fn obeys_from_spec() -> bool {
        true
    }

    open spec fn from_spec(e: DomError) -> ContextError {
        ContextError::DomError(e)
    }
}

impl From<MeshError> for BufferError {
    fn from(e: MeshError) -> (r: BufferError) {
        BufferError::MeshError(e)
    }
}

impl vstd::std_specs::convert::FromSpecImpl<MeshError> for BufferError {
    open spec fn obeys_from_spec() -> bool {
        true
    }

    open spec fn from_spec(e: MeshError) -> BufferError {
        BufferError::MeshError(e)
    }
}

impl From<ShaderError> for DrawError {
    fn from(e: ShaderError) -> (r: DrawError) {
        DrawError::ShaderError(e)
    }
}

impl vstd::std_specs::convert::FromSpecImpl<ShaderError> for DrawError {
    open spec fn obeys_from_spec() -> bool {
        true
    }

    open spec fn from_spec(e: ShaderError) -> DrawError {
        DrawError::ShaderError(e)
    }
}

impl From<ShaderLoaderError> for ShaderError {
    fn from(e: ShaderLoaderError) -> (r: ShaderError) {
        ShaderError::Preprocessor(e)
    }
}

impl vstd::std_specs::convert::FromSpecImpl<ShaderLoaderError> for ShaderError {
    open spec fn obeys_from_spec() -> bool {
        true
    }

    open spec fn from_spec(e: ShaderLoaderError) -> ShaderError {
        ShaderError::Preprocessor(e)
    }
}

impl From<DomError> for TextureError {
    fn from(e: DomError) -> (r: TextureError) {
        TextureError::DomError(e)
    }
}

impl vstd::std_specs::convert::FromSpecImpl<DomError> for TextureError {
    open spec fn obeys_from_spec() -> bool {
        true
    }

    open spec fn from_spec(e: DomError) -> TextureError {
        TextureError::DomError(e)
    }
}

/// The message for a context error.
pub open spec fn context_error_text(e: ContextError) -> Seq<char> {
    match e {
        ContextError::GetContextFailed => "Failed to get WebGl2RenderingContext"@,
        ContextError::DomError(d) => dom_error_text(d),
    }
}

/// The message for a buffer error.
pub open spec fn buffer_error_text(e: BufferError) -> Seq<char> {
    match e {
        BufferError::CreateFailed => "Failed to create_buffer"@,
        BufferError::MeshError(m) => mesh_error_text(m),
    }
}

/// The message for a shader loader error: the same placeholder text for
/// every kind and path.
pub open spec fn shader_loader_error_text(e: ShaderLoaderError) -> Seq<char> {
    "TODO"@
}

/// The message for a shader error.
pub open spec fn shader_error_text(e: ShaderError) -> Seq<char> {
    match e {
        ShaderError::CreateProgramFailed => "Failed to create_program"@,
        ShaderError::CreateShaderFailed => "Failed to create_shader"@,
        ShaderError::CompileError(s) => "Error while compiling shader: "@ + s@,
        ShaderError::LinkError(s) => "Error while linking shader: "@ + s@,
        ShaderError::MissingUniform(s) => "Shader does not have uniform `"@ + s@ + "`"@,
        ShaderError::Preprocessor(l) => shader_loader_error_text(l),
    }
}

/// The message for a draw error.
pub open spec fn draw_error_text(e: DrawError) -> Seq<char> {
    match e {
        DrawError::CreateVertexArrayFailed => "Failed to create_vertex_array"@,
        DrawError::UnknownAttribute(s) => "Shader expects unknown attribute `"@ + s@ + "`"@,
        DrawError::ShaderError(s) => shader_error_text(s),
    }
}

/// The message for a texture error.
pub open spec fn texture_error_text(e: TextureError) -> Seq<char> {
    match e {
        TextureError::CreateTextureFailed => "Failed to create_texture"@,
        TextureError::DomError(d) => dom_error_text(d),
    }
}

/// The upper-case hexadecimal digit for `d`.
pub open spec fn hex_char(d: nat) -> char {
    if d < 10 {
        ('0' as nat + d) as char
    } else {
        ('A' as nat + (d - 10)) as char
    }
}

/// The upper-case hexadecimal digits of `n`, most significant first.
pub open spec fn hex_digits(n: nat) -> Seq<char>
    decreases n,
{
    if n < 16 {
        seq![hex_char(n)]
    } else {
        hex_digits(n / 16) + seq![hex_char(n % 16)]
    }
}

/// `n` written as `0x` and at least two upper-case hexadecimal digits.
pub open spec fn hex_text(n: nat) -> Seq<char> {
    if n < 16 {
        "0x0"@ + hex_digits(n)
    } else {
        "0x"@ + hex_digits(n)
    }
}

/// The message for a vertex array error.
pub open spec fn vao_error_text(e: VaoError) -> Seq<char> {
    match e {
        VaoError::CreateVertexArrayFailed => "Failed to create_vertex_array"@,
        VaoError::CreateBufferFailed => "Failed to create_buffer"@,
        VaoError::AttributeTypeError(name, found, expected) => "Type error for attribute `"@ + name@ + "` (Found "@
            + hex_text(found as nat) + " expected "@ + hex_text(expected as nat) + ")"@,
        VaoError::UnknownAttribute(s) => "Shader expects unknown attribute `"@ + s@ + "`"@,
    }
}

impl ContextError {
    /// The message that describes the error.
    pub fn message(&self) -> (r: String)
        ensures
            r@ == context_error_text(*self),
    {
        match self {
            ContextError::GetContextFailed => String::from_str("Failed to get WebGl2RenderingContext"),
            ContextError::DomError(d) => d.message(),
        }
    }
}

impl BufferError {
    /// The message that describes the error.
    pub fn message(&self) -> (r: String)
        ensures
            r@ == buffer_error_text(*self),
    {
        match self {
            BufferError::CreateFailed => String::from_str("Failed to create_buffer"),
            BufferError::MeshError(m) => m.message(),
        }
    }
}

impl ShaderLoaderError {
    /// The message that describes the error.
    pub fn message(&self) -> (r: String)
        ensures
            r@ == shader_loader_error_text(*self),
    {
        String::from_str("TODO")
    }
}

impl ShaderError {
    /// The message that describes the error.
    pub fn message(&self) -> (r: String)
        ensures
            r@ == shader_error_text(*self),
    {
        match self {
            ShaderError::CreateProgramFailed => String::from_str("Failed to create_program"),
            ShaderError::CreateShaderFailed => String::from_str("Failed to create_shader"),
            ShaderError::CompileError(s) => {
                let mut t = String::from_str("Error while compiling shader: ");
                t.append(s.as_str());
                t
            },
            ShaderError::LinkError(s) => {
                let mut t = String::from_str("Error while linking shader: ");
                t.append(s.as_str());
                t
            },
            ShaderError::MissingUniform(s) => {
                let mut t = String::from_str("Shader does not have uniform `");
                t.append(s.as_str());
                t.append("`");
                t
            },
            ShaderError::Preprocessor(l) => l.message(),
        }
    }
}

impl DrawError {
    /// The message that describes the error.
    pub fn message(&self) -> (r: String)
        ensures
            r@ == draw_error_text(*self),
    {
        match self {
            DrawError::CreateVertexArrayFailed => String::from_str("Failed to create_vertex_array"),
            DrawError::UnknownAttribute(s) => {
                let mut t = String::from_str("Shader expects unknown attribute `");
                t.append(s.as_str());
                t.append("`");
                t
            },
            DrawError::ShaderError(s) => s.message(),
        }
    }
}

impl TextureError {
    /// The message that describes the error.
    pub fn message(&self) -> (r: String)
        ensures
            r@ == texture_error_text(*self),
    {
        match self {
            TextureError::CreateTextureFailed => String::from_str("Failed to create_texture"),
            TextureError::DomError(d) => d.message(),
        }
    }
}

/// The text of the hexadecimal digit `d`.
fn hex_digit(d: u32) -> (r: &'static str)
    requires
        d < 16,
    ensures
        r@ == seq![hex_char(d as nat)],
{
    proof {
        reveal_strlit("0");
        reveal_strlit("1");
        reveal_strlit("2");
        reveal_strlit("3");
        reveal_strlit("4");
        reveal_strlit("5");
        reveal_strlit("6");
        reveal_strlit("7");
        reveal_strlit("8");
        reveal_strlit("9");
        reveal_strlit("A");
        reveal_strlit("B");
        reveal_strlit("C");
        reveal_strlit("D");
        reveal_strlit("E");
        reveal_strlit("F");
    }
    let r = if d == 0 {
        "0"
    } else if d == 1 {
        "1"
    } else if d == 2 {
        "2"
    } else if d == 3 {
        "3"
    } else if d == 4 {
        "4"
    } else if d == 5 {
        "5"
    } else if d == 6 {
        "6"
    } else if d == 7 {
        "7"
    } else if d == 8 {
        "8"
    } else if d == 9 {
        "9"
    } else if d == 10 {
        "A"
    } else if d == 11 {
        "B"
    } else if d == 12 {
        "C"
    } else if d == 13 {
        "D"
    } else if d == 14 {
        "E"
    } else {
        "F"
    };
    assert(r@ =~= seq![hex_char(d as nat)]);
    r
}

/// Appends the hexadecimal digits of `n` to `t`.
fn append_hex_digits(t: &mut String, n: u32)
    ensures
        final(t)@ == old(t)@ + hex_digits(n as nat),
    decreases n,
{
    if n >= 16 {
        append_hex_digits(t, n / 16);
    }
    t.append(hex_digit(n % 16));
}

/// Appends `n` as `0x` and at least two hexadecimal digits to `t`.
pub(crate) fn append_hex(t: &mut String, n: u32)
    ensures
        final(t)@ == old(t)@ + hex_text(n as nat),
{
    if n < 16 {
        t.append("0x0");
    } else {
        t.append("0x");
    }
    append_hex_digits(t, n);
}

impl VaoError {
    /// The message that describes the error.
    pub fn message(&self) -> (r: String)
        ensures
            r@ == vao_error_text(*self),
    {
        match self {
            VaoError::CreateVertexArrayFailed => String::from_str("Failed to create_vertex_array"),
            VaoError::CreateBufferFailed => String::from_str("Failed to create_buffer"),
            VaoError::AttributeTypeError(name, found, expected) => {
                let mut t = String::from_str("Type error for attribute `");
                t.append(name.as_str());
                t.append("` (Found ");
                append_hex(&mut t, *found);
                t.append(" expected ");
                append_hex(&mut t, *expected);
                t.append(")");
                t
            },
            VaoError::UnknownAttribute(s) => {
                let mut t = String::from_str("Shader expects unknown attribute `");
                t.append(s.as_str());
                t.append("`");
                t
            },
        }
    }
}

/// The number of scalar components of an attribute type.
pub open spec fn spec_scalar_count(t: AttributeType) -> i32 {
    match t {
        AttributeType::Vec2 => 2,
        AttributeType::Vec3 => 3,
    }
}

/// The number of scalar components of an attribute type.
pub fn webgl_scalar_count(type_: AttributeType) -> (r: i32)
    ensures
        r == spec_scalar_count(type_),
{
    match type_ {
        AttributeType::Vec2 => 2,
        AttributeType::Vec3 => 3,
    }
}

/// Where each attribute lies in a vertex, and the distance between
/// vertices.
pub struct AttributeLayout {
    /// For each attribute, in the mesh's order: its name, type and offset.
    pub types_offsets: Vec<(String, (AttributeType, usize))>,
    pub stride: usize,
}

/// The type of the values of an attribute.
pub open spec fn type_of(v: AttributeVec) -> AttributeType {
    match v {
        AttributeVec::Vec2(_) => AttributeType::Vec2,
        AttributeVec::Vec3(_) => AttributeType::Vec3,
    }
}

/// How many of the first `n` attributes have type `t`.
pub open spec fn count_type(attrs: Seq<(String, AttributeVec)>, t: AttributeType, n: int) -> nat
    decreases n,
{
    if n <= 0 {
        0
    } else {
        count_type(attrs, t, n - 1) + if type_of(attrs[n - 1].1) == t {
            1nat
        } else {
            0nat
        }
    }
}

/// The offset of attribute `i`: the larger attributes come first, each
/// group in the mesh's order.
pub open spec fn layout_offset(attrs: Seq<(String, AttributeVec)>, i: int) -> nat {
    match type_of(attrs[i].1) {
        AttributeType::Vec3 => 12 * count_type(attrs, AttributeType::Vec3, i),
        AttributeType::Vec2 => 12 * count_type(attrs, AttributeType::Vec3, attrs.len() as int) + 8 * count_type(
            attrs,
            AttributeType::Vec2,
            i,
        ),
    }
}

/// The length of a vertex rounded up to a multiple of 16.
pub open spec fn layout_stride(attrs: Seq<(String, AttributeVec)>) -> nat {
    let len = 12 * count_type(attrs, AttributeType::Vec3, attrs.len() as int) + 8 * count_type(
        attrs,
        AttributeType::Vec2,
        attrs.len() as int,
    );
    (((len + 15) / 16) * 16) as nat
}

proof fn lemma_count_type_bound(attrs: Seq<(String, AttributeVec)>, t: AttributeType, n: int)
    requires
        0 <= n <= attrs.len(),
    ensures
        count_type(attrs, t, n) <= n,
        count_type(attrs, AttributeType::Vec3, n) + count_type(attrs, AttributeType::Vec2, n) == n,
    decreases n,
{
    if n > 0 {
        lemma_count_type_bound(attrs, t, n - 1);
    }
}

proof fn lemma_count_type_range(attrs: Seq<(String, AttributeVec)>, t: AttributeType, i: int, n: int)
    requires
        0 <= i <= n <= attrs.len(),
    ensures
        count_type(attrs, t, i) <= count_type(attrs, t, n) <= count_type(attrs, t, i) + (n - i),
    decreases n - i,
{
    if i < n {
        lemma_count_type_range(attrs, t, i, n - 1);
    }
}

/// `layout` lists, for each of `attrs` in order, its name, type and
/// offset, and has the stride of [`compute_layout`].
pub open spec fn is_layout(attrs: Seq<(String, AttributeVec)>, layout: AttributeLayout) -> bool {
    &&& layout.types_offsets@.len() == attrs.len()
    &&& forall|i: int|
        0 <= i < attrs.len() ==> #[trigger] layout.types_offsets@[i] == (
            attrs[i].0,
            (type_of(attrs[i].1), layout_offset(attrs, i) as usize),
        )
    &&& layout.stride == layout_stride(attrs)
}

/// Lays out the attributes in a vertex: the largest first, those of one
/// size in the mesh's order, each right after the previous, and the
/// stride the length of a vertex rounded up to a multiple of 16.
pub fn compute_layout(attributes: &Vec<(String, AttributeVec)>) -> (r: AttributeLayout)
    requires
        12 * attributes@.len() + 16 <= usize::MAX,
    ensures
        is_layout(attributes@, r),
{
    let ghost a = attributes@;
    let n = attributes.len();
    let mut n3: usize = 0;
    let mut i: usize = 0;
    while i < n
        invariant
            a == attributes@,
            n == a.len(),
            12 * n + 16 <= usize::MAX,
            i <= n,
            n3 == count_type(a, AttributeType::Vec3, i as int),
        decreases n - i,
    {
        proof {
            lemma_count_type_bound(a, AttributeType::Vec3, i as int);
        }
        match attributes[i].1 {
            AttributeVec::Vec3(_) => {
                n3 = n3 + 1;
            },
            AttributeVec::Vec2(_) => {},
        }
        i += 1;
    }
    let mut out: Vec<(String, (AttributeType, usize))> = Vec::new();
    let mut c3: usize = 0;
    let mut c2: usize = 0;
    let mut i: usize = 0;
    proof {
        lemma_count_type_bound(a, AttributeType::Vec3, n as int);
    }
    while i < n
        invariant
            a == attributes@,
            n == a.len(),
            12 * n + 16 <= usize::MAX,
            n3 == count_type(a, AttributeType::Vec3, n as int),
            n3 <= n,
            i <= n,
            c3 == count_type(a, AttributeType::Vec3, i as int),
            c2 == count_type(a, AttributeType::Vec2, i as int),
            c3 + c2 == i,
            out@.len() == i,
            forall|k: int|
                0 <= k < i ==> #[trigger] out@[k] == (a[k].0, (type_of(a[k].1), layout_offset(a, k) as usize)),
        decreases n - i,
    {
        proof {
            lemma_count_type_bound(a, AttributeType::Vec3, i as int);
            lemma_count_type_bound(a, AttributeType::Vec2, i as int);
            lemma_count_type_range(a, AttributeType::Vec3, i as int, n as int);
        }
        let name = attributes[i].0.clone();
        match attributes[i].1 {
            AttributeVec::Vec3(_) => {
                out.push((name, (AttributeType::Vec3, 12 * c3)));
                c3 = c3 + 1;
            },
            AttributeVec::Vec2(_) => {
                out.push((name, (AttributeType::Vec2, 12 * n3 + 8 * c2)));
                c2 = c2 + 1;
            },
        }
        i += 1;
    }
    proof {
        lemma_count_type_bound(a, AttributeType::Vec2, n as int);
    }
    let len = 12 * n3 + 8 * c2;
    let stride = ((len + 15) / 16) * 16;
    AttributeLayout { types_offsets: out, stride }
}

/// The number of bytes of an attribute of type `t`.
pub open spec fn type_bytes(t: AttributeType) -> nat {
    match t {
        AttributeType::Vec2 => 8,
        AttributeType::Vec3 => 12,
    }
}

/// In the layout of `compute_layout`, no two attributes overlap, and every
/// attribute ends within the stride.
pub proof fn lemma_layout_disjoint(attrs: Seq<(String, AttributeVec)>, i: int, j: int)
    requires
        0 <= i < attrs.len(),
        0 <= j < attrs.len(),
        i != j,
    ensures
        layout_offset(attrs, i) + type_bytes(type_of(attrs[i].1)) <= layout_offset(attrs, j) || layout_offset(attrs, j)
            + type_bytes(type_of(attrs[j].1)) <= layout_offset(attrs, i),
        layout_offset(attrs, i) + type_bytes(type_of(attrs[i].1)) <= layout_stride(attrs),
{
    let n = attrs.len() as int;
    lemma_count_step(attrs, i);
    lemma_count_step(attrs, j);
    lemma_count_type_range(attrs, AttributeType::Vec3, i + 1, n);
    lemma_count_type_range(attrs, AttributeType::Vec2, i + 1, n);
    lemma_count_type_range(attrs, AttributeType::Vec3, j + 1, n);
    lemma_count_type_range(attrs, AttributeType::Vec2, j + 1, n);
    if i < j {
        lemma_count_type_range(attrs, AttributeType::Vec3, i + 1, j);
        lemma_count_type_range(attrs, AttributeType::Vec2, i + 1, j);
    } else {
        lemma_count_type_range(attrs, AttributeType::Vec3, j + 1, i);
        lemma_count_type_range(attrs, AttributeType::Vec2, j + 1, i);
    }
    let len = 12 * count_type(attrs, AttributeType::Vec3, n) + 8 * count_type(attrs, AttributeType::Vec2, n);
    assert(len <= ((len + 15) / 16) * 16);
}

proof fn lemma_count_step(attrs: Seq<(String, AttributeVec)>, i: int)
    requires
        0 <= i < attrs.len(),
    ensures
        count_type(attrs, type_of(attrs[i].1), i + 1) == count_type(attrs, type_of(attrs[i].1), i) + 1,
{
}

/// In the layout of `compute_layout`, every attribute ends within the stride.
pub proof fn lemma_layout_within_stride(attrs: Seq<(String, AttributeVec)>, i: int)
    requires
        0 <= i < attrs.len(),
    ensures
        layout_offset(attrs, i) + type_bytes(type_of(attrs[i].1)) <= layout_stride(attrs),
{
    let n = attrs.len() as int;
    lemma_count_step(attrs, i);
    lemma_count_type_range(attrs, AttributeType::Vec3, i + 1, n);
    lemma_count_type_range(attrs, AttributeType::Vec2, i + 1, n);
    let len = 12 * count_type(attrs, AttributeType::Vec3, n) + 8 * count_type(attrs, AttributeType::Vec2, n);
    assert(len <= ((len + 15) / 16) * 16);
}

/// Byte `b` of `x`, least significant first.
pub open spec fn le_byte(x: u32, b: int) -> u8 {
    if b == 0 {
        (x % 256) as u8
    } else if b == 1 {
        ((x / 256) % 256) as u8
    } else if b == 2 {
        ((x / 65536) % 256) as u8
    } else {
        (x / 16777216) as u8
    }
}

/// Byte `k` of the value of `attr` for vertex `v`: its components one after
/// the other, each little-endian.
pub open spec fn attr_byte(attr: AttributeVec, v: int, k: int) -> u8 {
    match attr {
        AttributeVec::Vec2(x) => le_byte(x@[v][k / 4], k % 4),
        AttributeVec::Vec3(x) => le_byte(x@[v][k / 4], k % 4),
    }
}

/// Where byte `k` of vertex `v` of the attribute at `offset` goes, in vertex
/// data with the given stride.
pub open spec fn slot(stride: int, offset: int, v: int, k: int) -> int {
    v * stride + offset + k
}

/// `data` is the vertex data of `attrs` with `vert_count` vertices in the
/// layout of [`compute_layout`]: byte `k` of vertex `v` of attribute `i` at
/// `v * stride + offset + k`, every other byte zero.
pub open spec fn is_vertex_data(attrs: Seq<(String, AttributeVec)>, vert_count: int, data: Seq<u8>) -> bool {
    &&& data.len() == vert_count * layout_stride(attrs)
    &&& forall|i: int, v: int, k: int|
        valid_byte(attrs, vert_count, i, v, k) ==> data[#[trigger] slot(
            layout_stride(attrs) as int,
            layout_offset(attrs, i) as int,
            v,
            k,
        )] == attr_byte(attrs[i].1, v, k)
    &&& forall|p: int| 0 <= p < data.len() && !covered(attrs, vert_count, p) ==> #[trigger] data[p] == 0
}

/// Byte `k` of vertex `v` of attribute `i` exists.
pub open spec fn valid_byte(attrs: Seq<(String, AttributeVec)>, vert_count: int, i: int, v: int, k: int) -> bool {
    0 <= i < attrs.len() && 0 <= v < vert_count && 0 <= k < type_bytes(type_of(attrs[i].1))
}

/// Some attribute byte of a vertex goes to position `p`.
pub open spec fn covered(attrs: Seq<(String, AttributeVec)>, vert_count: int, p: int) -> bool {
    exists|i: int, v: int, k: int|
        valid_byte(attrs, vert_count, i, v, k) && #[trigger] slot(layout_stride(attrs) as int, layout_offset(attrs, i) as int, v, k) == p
}

/// Two attribute bytes never go to the same position.
proof fn lemma_slot_unique(attrs: Seq<(String, AttributeVec)>, vert_count: int, i: int, v: int, k: int, j: int, w: int, l: int)
    requires
        valid_byte(attrs, vert_count, i, v, k),
        valid_byte(attrs, vert_count, j, w, l),
        slot(layout_stride(attrs) as int, layout_offset(attrs, i) as int, v, k) == slot(
            layout_stride(attrs) as int,
            layout_offset(attrs, j) as int,
            w,
            l,
        ),
    ensures
        i == j && v == w && k == l,
{
    let stride = layout_stride(attrs) as int;
    let a = layout_offset(attrs, i) + k;
    let b = layout_offset(attrs, j) + l;
    lemma_layout_within_stride(attrs, i);
    lemma_layout_within_stride(attrs, j);
    assert(v == w && a == b) by (nonlinear_arith)
        requires
            v * stride + a == w * stride + b,
            0 <= a < stride,
            0 <= b < stride,
            0 <= v,
            0 <= w,
    {
        if v < w {
            assert(v * stride + stride <= w * stride);
        } else if w < v {
            assert(w * stride + stride <= v * stride);
        }
    }
    if i != j {
        lemma_layout_disjoint(attrs, i, j);
    }
}

/// Every attribute byte goes inside the vertex data.
proof fn lemma_slot_bound(attrs: Seq<(String, AttributeVec)>, vert_count: int, i: int, v: int, k: int)
    requires
        valid_byte(attrs, vert_count, i, v, k),
    ensures
        0 <= slot(layout_stride(attrs) as int, layout_offset(attrs, i) as int, v, k) < vert_count * layout_stride(attrs),
{
    let stride = layout_stride(attrs) as int;
    let a = layout_offset(attrs, i) + k;
    lemma_layout_within_stride(attrs, i);
    assert(0 <= v * stride + a < vert_count * stride) by (nonlinear_arith)
        requires
            0 <= a < stride,
            0 <= v < vert_count,
    {
        assert(v * stride + stride <= vert_count * stride);
    }
}

/// The attribute bytes handed out so far: all of attributes before `i`, of
/// vertices before `v` of attribute `i`, and bytes before `k` of vertex `v`.
spec fn written(i0: int, v0: int, k0: int, i: int, v: int, k: int) -> bool {
    i < i0 || (i == i0 && v < v0) || (i == i0 && v == v0 && k < k0)
}

/// What the vertex data holds after the bytes before `(i0, v0, k0)` were
/// written.
spec fn data_so_far(
    attrs: Seq<(String, AttributeVec)>,
    vert_count: int,
    data: Seq<u8>,
    i0: int,
    v0: int,
    k0: int,
) -> bool {
    &&& data.len() == vert_count * layout_stride(attrs)
    &&& forall|i: int, v: int, k: int|
        valid_byte(attrs, vert_count, i, v, k) && written(i0, v0, k0, i, v, k) ==> data[#[trigger] slot(
            layout_stride(attrs) as int,
            layout_offset(attrs, i) as int,
            v,
            k,
        )] == attr_byte(attrs[i].1, v, k)
    &&& forall|p: int|
        0 <= p < data.len() && !(exists|i: int, v: int, k: int|
            valid_byte(attrs, vert_count, i, v, k) && written(i0, v0, k0, i, v, k) && #[trigger] slot(
                layout_stride(attrs) as int,
                layout_offset(attrs, i) as int,
                v,
                k,
            ) == p) ==> #[trigger] data[p] == 0
}

/// Component `c`, byte `b` of the value of `attr` for vertex `v`.
fn attr_component(attr: &AttributeVec, v: usize, c: usize) -> (r: u32)
    requires
        v < attr_len(*attr),
        c < type_bytes(type_of(*attr)) / 4,
    ensures
        match *attr {
            AttributeVec::Vec2(x) => r == x@[v as int][c as int],
            AttributeVec::Vec3(x) => r == x@[v as int][c as int],
        },
{
    match attr {
        AttributeVec::Vec2(x) => x[v][c],
        AttributeVec::Vec3(x) => x[v][c],
    }
}

/// Byte `b` of `x`, least significant first.
fn byte_of(x: u32, b: usize) -> (r: u8)
    requires
        b < 4,
    ensures
        r == le_byte(x, b as int),
{
    if b == 0 {
        (x % 256) as u8
    } else if b == 1 {
        ((x / 256) % 256) as u8
    } else if b == 2 {
        ((x / 65536) % 256) as u8
    } else {
        (x / 16777216) as u8
    }
}

/// The vertex data of `attributes`, each with `vert_count` values, in the
/// layout of [`compute_layout`]: byte `k` of vertex `v` of attribute `i` at
/// `v * stride + offset + k`, every component little-endian, and every other
/// byte zero.
pub fn vertex_data(attributes: &Vec<(String, AttributeVec)>, layout: &AttributeLayout, vert_count: usize) -> (r: Vec<u8>)
    requires
        is_layout(attributes@, *layout),
        forall|i: int| 0 <= i < attributes@.len() ==> #[trigger] attr_len(attributes@[i].1) == vert_count,
        vert_count * layout.stride <= usize::MAX,
    ensures
        is_vertex_data(attributes@, vert_count as int, r@),
{
    let ghost a = attributes@;
    let ghost vc = vert_count as int;
    let stride = layout.stride;
    let total = vert_count * stride;
    let mut data: Vec<u8> = Vec::new();
    let mut p: usize = 0;
    while p < total
        invariant
            p <= total,
            data@.len() == p,
            forall|q: int| 0 <= q < p ==> #[trigger] data@[q] == 0,
        decreases total - p,
    {
        data.push(0);
        p += 1;
    }
    let n = attributes.len();
    let mut i: usize = 0;
    while i < n
        invariant
            a == attributes@,
            n == a.len(),
            vc == vert_count,
            stride == layout.stride,
            stride == layout_stride(a),
            total == vert_count * stride,
            layout.types_offsets@.len() == n,
            forall|i2: int|
                0 <= i2 < n ==> #[trigger] layout.types_offsets@[i2] == (a[i2].0, (type_of(a[i2].1), layout_offset(a, i2) as usize)),
            forall|i2: int| 0 <= i2 < n ==> #[trigger] attr_len(a[i2].1) == vert_count,
            i <= n,
            data_so_far(a, vc, data@, i as int, 0, 0),
        decreases n - i,
    {
        let offset = layout.types_offsets[i].1.1;
        let bytes = match attributes[i].1 {
            AttributeVec::Vec2(_) => 8usize,
            AttributeVec::Vec3(_) => 12usize,
        };
        proof {
            lemma_layout_within_stride(a, i as int);
        }
        let mut v: usize = 0;
        while v < vert_count
            invariant
                a == attributes@,
                n == a.len(),
                i < n,
                vc == vert_count,
                stride == layout_stride(a),
                total == vert_count * stride,
                offset == layout_offset(a, i as int),
                bytes == type_bytes(type_of(a[i as int].1)),
                offset + bytes <= stride,
                attr_len(a[i as int].1) == vert_count,
                v <= vert_count,
                data_so_far(a, vc, data@, i as int, v as int, 0),
            decreases vert_count - v,
        {
            let mut k: usize = 0;
            while k < bytes
                invariant
                    a == attributes@,
                    n == a.len(),
                    i < n,
                    vc == vert_count,
                    stride == layout_stride(a),
                    total == vert_count * stride,
                    offset == layout_offset(a, i as int),
                    bytes == type_bytes(type_of(a[i as int].1)),
                    offset + bytes <= stride,
                    attr_len(a[i as int].1) == vert_count,
                    v < vert_count,
                    k <= bytes,
                    data_so_far(a, vc, data@, i as int, v as int, k as int),
                decreases bytes - k,
            {
                proof {
                    assert(v * stride + stride <= vert_count * stride) by (nonlinear_arith)
                        requires v < vert_count, 0 <= stride;
                }
                let pos = v * stride + offset + k;
                let c = attr_component(&attributes[i].1, v, k / 4);
                let byte = byte_of(c, k % 4);
                let ghost before = data@;
                data.set(pos, byte);
                proof {
                    let s = slot(stride as int, offset as int, v as int, k as int);
                    assert(s == pos);
                    assert(byte == attr_byte(a[i as int].1, v as int, k as int));
                    assert forall|i2: int, v2: int, k2: int|
                        valid_byte(a, vc, i2, v2, k2) && written(i as int, v as int, k + 1, i2, v2, k2) implies data@[#[trigger] slot(
                            stride as int,
                            layout_offset(a, i2) as int,
                            v2,
                            k2,
                        )] == attr_byte(a[i2].1, v2, k2) by {
                        let s2 = slot(stride as int, layout_offset(a, i2) as int, v2, k2);
                        if i2 == i && v2 == v && k2 == k {
                        } else {
                            if s2 == s {
                                lemma_slot_unique(a, vc, i2, v2, k2, i as int, v as int, k as int);
                            }
                            lemma_slot_bound(a, vc, i2, v2, k2);
                            assert(written(i as int, v as int, k as int, i2, v2, k2));
                            assert(before[s2] == attr_byte(a[i2].1, v2, k2));
                        }
                    }
                    assert forall|q: int|
                        0 <= q < data@.len() && !(exists|i2: int, v2: int, k2: int|
                            valid_byte(a, vc, i2, v2, k2) && written(i as int, v as int, k + 1, i2, v2, k2) && #[trigger] slot(
                                stride as int,
                                layout_offset(a, i2) as int,
                                v2,
                                k2,
                            ) == q) implies #[trigger] data@[q] == 0 by {
                        if q == s {
                            assert(valid_byte(a, vc, i as int, v as int, k as int) && written(i as int, v as int, k + 1, i as int, v as int, k as int)
                                && slot(stride as int, layout_offset(a, i as int) as int, v as int, k as int) == q);
                        } else {
                            if exists|i2: int, v2: int, k2: int|
                                valid_byte(a, vc, i2, v2, k2) && written(i as int, v as int, k as int, i2, v2, k2) && #[trigger] slot(
                                    stride as int,
                                    layout_offset(a, i2) as int,
                                    v2,
                                    k2,
                                ) == q {
                                let (i2, v2, k2) = choose|i2: int, v2: int, k2: int|
                                    valid_byte(a, vc, i2, v2, k2) && written(i as int, v as int, k as int, i2, v2, k2) && #[trigger] slot(
                                        stride as int,
                                        layout_offset(a, i2) as int,
                                        v2,
                                        k2,
                                    ) == q;
                                assert(written(i as int, v as int, k + 1, i2, v2, k2));
                            }
                            assert(data@[q] == before[q]);
                        }
                    }
                }
                k += 1;
            }
            proof {
                assert forall|i2: int, v2: int, k2: int| valid_byte(a, vc, i2, v2, k2) implies (written(i as int, v as int, bytes as int, i2, v2, k2)
                    <==> written(i as int, v + 1, 0, i2, v2, k2)) by {}
            }
            v += 1;
        }
        proof {
            assert forall|i2: int, v2: int, k2: int| valid_byte(a, vc, i2, v2, k2) implies (written(i as int, vc, 0, i2, v2, k2)
                <==> written(i + 1, 0, 0, i2, v2, k2)) by {}
        }
        i += 1;
    }
    proof {
        assert forall|p2: int| 0 <= p2 < data@.len() && !covered(a, vc, p2) implies #[trigger] data@[p2] == 0 by {
            if exists|i2: int, v2: int, k2: int|
                valid_byte(a, vc, i2, v2, k2) && written(n as int, 0, 0, i2, v2, k2) && #[trigger] slot(
                    stride as int,
                    layout_offset(a, i2) as int,
                    v2,
                    k2,
                ) == p2 {
                let (i2, v2, k2) = choose|i2: int, v2: int, k2: int|
                    valid_byte(a, vc, i2, v2, k2) && written(n as int, 0, 0, i2, v2, k2) && #[trigger] slot(
                        stride as int,
                        layout_offset(a, i2) as int,
                        v2,
                        k2,
                    ) == p2;
                assert(covered(a, vc, p2));
            }
        }
    }
    data
}

/// What a primitive buffer holds before it goes to the GPU: the layout of
/// its vertices, their data, how many indices it draws, and its primitive
/// type.
pub struct PrimitiveData {
    pub layout: AttributeLayout,
    pub vert_data: Vec<u8>,
    pub index_count: usize,
    pub primitive_type: PrimitiveType,
}

/// Lays out the vertices of `mesh` for a primitive buffer: the layout of
/// [`compute_layout`], the vertex data in it, and the number of indices, or
/// of vertices when the mesh has no indices. Fails when the attributes'
/// lengths differ.
pub fn primitive_data(mesh: &Mesh) -> (r: Result<PrimitiveData, MeshError>)
    requires
        12 * mesh.attributes@.len() + 16 <= usize::MAX,
        vert_count_of(mesh.attributes@) is Ok ==> (vert_count_of(mesh.attributes@)->Ok_0 as int) * layout_stride(mesh.attributes@)
            <= usize::MAX,
    ensures
        match r {
            Ok(d) => {
                &&& vert_count_of(mesh.attributes@) is Ok
                &&& is_layout(mesh.attributes@, d.layout)
                &&& is_vertex_data(mesh.attributes@, vert_count_of(mesh.attributes@)->Ok_0 as int, d.vert_data@)
                &&& Ok::<usize, MeshError>(d.index_count) == index_count_of(mesh@)
                &&& d.primitive_type == mesh.primitive_type
            },
            Err(e) => vert_count_of(mesh.attributes@) == Err::<usize, MeshError>(e),
        },
{
    let layout = compute_layout(&mesh.attributes);
    let vert_count = match mesh.vert_count() {
        Ok(n) => n,
        Err(e) => return Err(e),
    };
    proof {
        let a = mesh.attributes@;
        assert(vert_count_of(a) == Ok::<usize, MeshError>(vert_count));
        assert forall|i: int| 0 <= i < a.len() implies #[trigger] attr_len(a[i].1) == vert_count by {
            assert(crate::mesh::lengths_agree(a));
            assert(attr_len(a[i].1) == attr_len(a[0].1));
            assert(attr_len(a[0].1) <= usize::MAX) by {
                match a[0].1 {
                    AttributeVec::Vec2(x) => assert(x@.len() == x.len()),
                    AttributeVec::Vec3(x) => assert(x@.len() == x.len()),
                }
            }
            assert(attr_len(a[0].1) as usize == vert_count);
        }
    }
    let vert_data = vertex_data(&mesh.attributes, &layout, vert_count);
    let index_count = match &mesh.indices {
        Some(indices) => indices.len(),
        None => vert_count,
    };
    Ok(PrimitiveData { layout, vert_data, index_count, primitive_type: mesh.primitive_type })
}

/// The first entry of `entries` named `name`, if any.
pub open spec fn first_named(entries: Seq<(String, (AttributeType, usize))>, name: Seq<char>) -> Option<int> {
    if exists|i: int| 0 <= i < entries.len() && (#[trigger] entries[i]).0@ == name {
        Some(choose|i: int| 0 <= i < entries.len() && (#[trigger] entries[i]).0@ == name
            && forall|k: int| 0 <= k < i ==> (#[trigger] entries[k]).0@ != name)
    } else {
        None
    }
}

impl AttributeLayout {
    /// The type and offset of the attribute named `name`: the first entry
    /// with that name, if any.
    pub fn get(&self, name: &String) -> (r: Option<(AttributeType, usize)>)
        ensures
            match r {
                Some(slot) => {
                    &&& first_named(self.types_offsets@, name@) is Some
                    &&& slot == self.types_offsets@[first_named(self.types_offsets@, name@)->0].1
                },
                None => first_named(self.types_offsets@, name@) is None,
            },
    {
        let ghost e = self.types_offsets@;
        let mut i: usize = 0;
        while i < self.types_offsets.len()
            invariant
                e == self.types_offsets@,
                i <= e.len(),
                forall|k: int| 0 <= k < i ==> (#[trigger] e[k]).0@ != name@,
            decreases e.len() - i,
        {
            if self.types_offsets[i].0 == *name {
                proof {
                    let j = first_named(e, name@)->0;
                    assert(0 <= j < e.len() && e[j].0@ == name@ && forall|k: int| 0 <= k < j ==> (#[trigger] e[k]).0@ != name@);
                    if j < i {
                        assert(e[j].0@ != name@);
                    }
                    if j > i {
                        assert(e[i as int].0@ != name@);
                    }
                }
                return Some(self.types_offsets[i].1);
            }
            i += 1;
        }
        None
    }
}

/// Where the vertex data holds the attribute a shader names `name`: its
/// type and offset, or the error that the mesh has no such attribute.
pub fn draw_attribute(layout: &AttributeLayout, name: &String) -> (r: Result<(AttributeType, usize), DrawError>)
    ensures
        match r {
            Ok(slot) => first_named(layout.types_offsets@, name@) is Some
                && slot == layout.types_offsets@[first_named(layout.types_offsets@, name@)->0].1,
            Err(e) => first_named(layout.types_offsets@, name@) is None && e == DrawError::UnknownAttribute(*name),
        },
{
    match layout.get(name) {
        Some(slot) => Ok(slot),
        None => Err(DrawError::UnknownAttribute(name.clone())),
    }
}

} // verus!
