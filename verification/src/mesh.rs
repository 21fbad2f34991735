//! Raw EQGT terrain and EQGM model geometry, versions 1 through 3.
//! Bone records and other suffix data remain opaque. No coordinate conversion,
//! material interpretation, or skeletal animation is performed. Floating-point
//! fields are kept as their raw IEEE-754 bit patterns.
use vstd::prelude::*;

use crate::bytes;
use crate::bytes::{
    add_records, array2, array3, check_terminates, last_nul, read_u32_le, starts_with, string_in,
};

verus! {

#[allow(inconsistent_fields)]
#[derive(Debug, Clone, PartialEq, Eq)]
pub enum ParseError {
    InvalidMagic,
    UnsupportedVersion { version: u32 },
    Truncated { context: &'static str, offset: usize, needed: usize, remaining: usize },
    CountOverflow { context: &'static str },
    InvalidStringReference { offset: u32 },
    InvalidVertexReference { index: u32, vertex_count: u32 },
}

#[derive(Debug, Clone, Copy, PartialEq, Eq)]
pub enum MeshKind {
    Terrain,
    Model,
}

#[derive(Debug)]
pub struct Mesh<'a> {
    pub kind: MeshKind,
    pub version: u32,
    pub string_table: &'a [u8],
    pub materials: Vec<Material>,
    pub vertices: Vec<Vertex>,
    pub triangles: Vec<Triangle>,
    /// Model header count only; bone records are not decoded or validated.
    pub bone_count: Option<u32>,
    /// Present only in version 2, including unrecognized marker values.
    pub uv_marker: Option<u32>,
    /// Bytes following geometry, including any model bone records.
    pub trailing_data: &'a [u8],
}

#[derive(Debug)]
pub struct Material {
    pub index: u32,
    pub name_offset: u32,
    pub shader_offset: u32,
    pub properties: Vec<Property>,
}

#[derive(Debug)]
pub struct Property {
    pub name_offset: u32,
    /// Raw type tag. Type 2 values are validated as string offsets.
    pub kind: u32,
    pub value: u32,
}

/// Floating-point fields hold their bit patterns, including non-finite values.
#[derive(Debug)]
pub struct Vertex {
    /// Bit patterns of three `f32` coordinates.
    pub position: [u32; 3],
    /// Bit patterns of three `f32` components.
    pub normal: [u32; 3],
    /// Packed version 3 color; absent in versions 1 and 2.
    pub color: Option<u32>,
    /// Bit patterns of the primary `f32` texture coordinates.
    pub uv0: [u32; 2],
    /// Bit patterns of the secondary `f32` texture coordinates, where present.
    pub uv1: Option<[u32; 2]>,
}

#[derive(Debug)]
pub struct Triangle {
    pub vertex_indices: [u32; 3],
    /// Raw material reference, including sentinels and out-of-range values.
    pub material_index: u32,
    pub flags: u32,
}

/// The mathematical content of a [`Mesh`].
pub struct MeshView {
    pub kind: MeshKind,
    pub version: u32,
    pub string_table: Seq<u8>,
    pub materials: Seq<MaterialView>,
    pub vertices: Seq<VertexView>,
    pub triangles: Seq<TriangleView>,
    pub bone_count: Option<u32>,
    pub uv_marker: Option<u32>,
    pub trailing_data: Seq<u8>,
}

/// The mathematical content of a [`Material`].
pub struct MaterialView {
    pub index: u32,
    pub name_offset: u32,
    pub shader_offset: u32,
    pub properties: Seq<PropertyView>,
}

/// The mathematical content of a [`Property`].
pub struct PropertyView {
    pub name_offset: u32,
    pub kind: u32,
    pub value: u32,
}

/// The mathematical content of a [`Vertex`].
pub struct VertexView {
    pub position: Seq<u32>,
    pub normal: Seq<u32>,
    pub color: Option<u32>,
    pub uv0: Seq<u32>,
    pub uv1: Option<Seq<u32>>,
}

/// The mathematical content of a [`Triangle`].
pub struct TriangleView {
    pub vertex_indices: Seq<u32>,
    pub material_index: u32,
    pub flags: u32,
}

impl View for Property {
    type V = PropertyView;

    open spec fn view(&self) -> PropertyView {
        PropertyView { name_offset: self.name_offset, kind: self.kind, value: self.value }
    }
}

impl View for Material {
    type V = MaterialView;

    open spec fn view(&self) -> MaterialView {
        MaterialView {
            index: self.index,
            name_offset: self.name_offset,
            shader_offset: self.shader_offset,
            properties: self.properties@.map_values(|p: Property| p@),
        }
    }
}

impl View for Vertex {
    type V = VertexView;

    open spec fn view(&self) -> VertexView {
        VertexView {
            position: self.position@,
            normal: self.normal@,
            color: self.color,
            uv0: self.uv0@,
            uv1: match self.uv1 {
                Some(uv) => Some(uv@),
                None => None,
            },
        }
    }
}

impl View for Triangle {
    type V = TriangleView;

    open spec fn view(&self) -> TriangleView {
        TriangleView {
            vertex_indices: self.vertex_indices@,
            material_index: self.material_index,
            flags: self.flags,
        }
    }
}

impl<'a> View for Mesh<'a> {
    type V = MeshView;

    open spec fn view(&self) -> MeshView {
        MeshView {
            kind: self.kind,
            version: self.version,
            string_table: self.string_table@,
            materials: self.materials@.map_values(|m: Material| m@),
            vertices: self.vertices@.map_values(|v: Vertex| v@),
            triangles: self.triangles@.map_values(|t: Triangle| t@),
            bone_count: self.bone_count,
            uv_marker: self.uv_marker,
            trailing_data: self.trailing_data@,
        }
    }
}

// ---------------------------------------------------------------------------
// The format, as spec functions over the input bytes.
// ---------------------------------------------------------------------------

/// The error for a read of `needed` bytes at `pos` that runs past the end of `s`.
pub open spec fn truncated(s: Seq<u8>, pos: int, needed: int, context: &'static str) -> ParseError {
    ParseError::Truncated {
        context,
        offset: pos as usize,
        needed: needed as usize,
        remaining: (s.len() - pos) as usize,
    }
}

/// Claim `n` bytes at `pos`: the position after them, or the shortfall.
pub open spec fn take_spec(s: Seq<u8>, pos: int, n: int, context: &'static str) -> Result<
    int,
    ParseError,
> {
    if n <= s.len() - pos {
        Ok(pos + n)
    } else {
        Err(truncated(s, pos, n, context))
    }
}

/// Read one little-endian word at `pos`.
pub open spec fn word_spec(s: Seq<u8>, pos: int, context: &'static str) -> Result<
    (u32, int),
    ParseError,
> {
    if 4 <= s.len() - pos {
        Ok((bytes::le_u32(s, pos), pos + 4))
    } else {
        Err(truncated(s, pos, 4, context))
    }
}

/// Read `n` little-endian words at `pos`, one after the other; the first word
/// that does not fit is the one reported.
pub open spec fn words_spec(s: Seq<u8>, pos: int, n: nat, context: &'static str) -> Result<
    (Seq<u32>, int),
    ParseError,
> {
    if pos + 4 * n <= s.len() {
        Ok((bytes::le_words(s, pos, n), pos + 4 * n))
    } else {
        let k = (s.len() - pos) / 4;
        Err(truncated(s, pos + 4 * k, 4, context))
    }
}

/// Bytes that one vertex occupies in a version.
pub open spec fn vertex_stride(version: u32) -> int {
    if version == 3 {
        44
    } else {
        32
    }
}

/// Bytes that `count` vertices occupy in a version.
pub open spec fn vertex_bytes(version: u32, count: u32) -> int {
    if version == 3 {
        44 * count
    } else {
        32 * count
    }
}

/// The byte size that the header counts require at least: the version 2 UV
/// marker, string table, materials (without properties), vertices and triangles.
pub open spec fn minimum_size(version: u32, counts: Seq<u32>) -> int {
    (if version == 2 {
        4int
    } else {
        0int
    }) + counts[0] + 16 * counts[1] + vertex_bytes(version, counts[2]) + 20 * counts[3]
}

/// One material property: name, raw type tag and value; a type 2 value is a
/// string offset too.
pub open spec fn property_spec(s: Seq<u8>, table: Seq<u8>, pos: int) -> Result<
    (PropertyView, int),
    ParseError,
> {
    match words_spec(s, pos, 3, "property") {
        Err(e) => Err(e),
        Ok((w, next)) => if !bytes::terminates(table, w[0] as int) {
            Err(ParseError::InvalidStringReference { offset: w[0] })
        } else if w[1] == 2 && !bytes::terminates(table, w[2] as int) {
            Err(ParseError::InvalidStringReference { offset: w[2] })
        } else {
            Ok((PropertyView { name_offset: w[0], kind: w[1], value: w[2] }, next))
        },
    }
}

pub open spec fn property_step(table: Seq<u8>) -> spec_fn(Seq<u8>, int) -> Result<
    (PropertyView, int),
    ParseError,
> {
    |s: Seq<u8>, pos: int| property_spec(s, table, pos)
}

/// One material: index, name, shader and its counted properties.
pub open spec fn material_spec(s: Seq<u8>, table: Seq<u8>, pos: int) -> Result<
    (MaterialView, int),
    ParseError,
> {
    match words_spec(s, pos, 4, "material") {
        Err(e) => Err(e),
        Ok((w, p1)) => if !bytes::terminates(table, w[1] as int) {
            Err(ParseError::InvalidStringReference { offset: w[1] })
        } else if !bytes::terminates(table, w[2] as int) {
            Err(ParseError::InvalidStringReference { offset: w[2] })
        } else if w[3] * 12 > usize::MAX {
            Err(ParseError::CountOverflow { context: "record counts" })
        } else {
            match take_spec(s, p1, w[3] * 12, "material properties") {
                Err(e) => Err(e),
                Ok(_) => match bytes::repeat(property_step(table), s, p1, w[3] as nat) {
                    Err(e) => Err(e),
                    Ok((properties, p2)) => Ok(
                        (
                            MaterialView {
                                index: w[0],
                                name_offset: w[1],
                                shader_offset: w[2],
                                properties,
                            },
                            p2,
                        ),
                    ),
                },
            }
        },
    }
}

pub open spec fn material_step(table: Seq<u8>) -> spec_fn(Seq<u8>, int) -> Result<
    (MaterialView, int),
    ParseError,
> {
    |s: Seq<u8>, pos: int| material_spec(s, table, pos)
}

/// A word that only some versions carry.
pub open spec fn optional_word_spec(
    s: Seq<u8>,
    present: bool,
    pos: int,
    context: &'static str,
) -> Result<(Option<u32>, int), ParseError> {
    if present {
        match word_spec(s, pos, context) {
            Err(e) => Err(e),
            Ok((w, next)) => Ok((Some(w), next)),
        }
    } else {
        Ok((None, pos))
    }
}

/// A pair of words that only some versions carry.
pub open spec fn optional_pair_spec(
    s: Seq<u8>,
    present: bool,
    pos: int,
    context: &'static str,
) -> Result<(Option<Seq<u32>>, int), ParseError> {
    if present {
        match words_spec(s, pos, 2, context) {
            Err(e) => Err(e),
            Ok((w, next)) => Ok((Some(w), next)),
        }
    } else {
        Ok((None, pos))
    }
}

/// One vertex: position, normal, the version 3 color, primary UV and the
/// version 3 secondary UV.
pub open spec fn vertex_spec(s: Seq<u8>, version: u32, pos: int) -> Result<
    (VertexView, int),
    ParseError,
> {
    match words_spec(s, pos, 3, "position") {
        Err(e) => Err(e),
        Ok((position, p1)) => match words_spec(s, p1, 3, "normal") {
            Err(e) => Err(e),
            Ok((normal, p2)) => match optional_word_spec(s, version == 3, p2, "color") {
                Err(e) => Err(e),
                Ok((color, p3)) => match words_spec(s, p3, 2, "primary UV") {
                    Err(e) => Err(e),
                    Ok((uv0, p4)) => match optional_pair_spec(
                        s,
                        version == 3,
                        p4,
                        "secondary UV",
                    ) {
                        Err(e) => Err(e),
                        Ok((uv1, p5)) => Ok(
                            (VertexView { position, normal, color, uv0, uv1 }, p5),
                        ),
                    },
                },
            },
        },
    }
}

pub open spec fn vertex_step(version: u32) -> spec_fn(Seq<u8>, int) -> Result<
    (VertexView, int),
    ParseError,
> {
    |s: Seq<u8>, pos: int| vertex_spec(s, version, pos)
}

/// One triangle: three vertex indices, each below the vertex count, then the
/// raw material reference and flags.
pub open spec fn triangle_spec(s: Seq<u8>, vertex_count: u32, pos: int) -> Result<
    (TriangleView, int),
    ParseError,
> {
    match words_spec(s, pos, 3, "triangle vertices") {
        Err(e) => Err(e),
        Ok((idx, p1)) => if idx[0] >= vertex_count {
            Err(ParseError::InvalidVertexReference { index: idx[0], vertex_count })
        } else if idx[1] >= vertex_count {
            Err(ParseError::InvalidVertexReference { index: idx[1], vertex_count })
        } else if idx[2] >= vertex_count {
            Err(ParseError::InvalidVertexReference { index: idx[2], vertex_count })
        } else {
            match word_spec(s, p1, "triangle material") {
                Err(e) => Err(e),
                Ok((material_index, p2)) => match word_spec(s, p2, "triangle flags") {
                    Err(e) => Err(e),
                    Ok((flags, p3)) => Ok(
                        (TriangleView { vertex_indices: idx, material_index, flags }, p3),
                    ),
                },
            }
        },
    }
}

pub open spec fn triangle_step(vertex_count: u32) -> spec_fn(Seq<u8>, int) -> Result<
    (TriangleView, int),
    ParseError,
> {
    |s: Seq<u8>, pos: int| triangle_spec(s, vertex_count, pos)
}

/// A vertex with its secondary UV pair replaced.
pub open spec fn with_uv1(v: VertexView, uv: Seq<u32>) -> VertexView {
    VertexView { position: v.position, normal: v.normal, color: v.color, uv0: v.uv0, uv1: Some(uv) }
}

/// The vertices after the first `k` take their secondary UV pairs from the
/// eight-byte records at `pos`.
pub open spec fn secondary_uvs_upto(vertices: Seq<VertexView>, s: Seq<u8>, pos: int, k: int) -> Seq<
    VertexView,
> {
    Seq::new(
        vertices.len(),
        |j: int|
            if j < k {
                with_uv1(vertices[j], bytes::le_words(s, pos + 8 * j, 2))
            } else {
                vertices[j]
            },
    )
}

/// Whether a version 2 marker supplies secondary UVs: marker 1 for both kinds,
/// marker 2 for terrain only.
pub open spec fn marker_supplies_uvs(kind: MeshKind, marker: u32) -> bool {
    marker == 1 || (kind == MeshKind::Terrain && marker == 2)
}

/// The version 2 UV marker after the triangles, and the secondary UV pairs it
/// announces; nothing in versions 1 and 3.
pub open spec fn secondary_uvs_spec(
    s: Seq<u8>,
    kind: MeshKind,
    version: u32,
    vertices: Seq<VertexView>,
    pos: int,
) -> Result<((Seq<VertexView>, Option<u32>), int), ParseError> {
    if version != 2 {
        Ok(((vertices, None), pos))
    } else {
        match word_spec(s, pos, "UV marker") {
            Err(e) => Err(e),
            Ok((marker, p1)) => if marker_supplies_uvs(kind, marker) {
                if vertices.len() * 8 > usize::MAX {
                    Err(ParseError::CountOverflow { context: "record counts" })
                } else {
                    match take_spec(s, p1, (vertices.len() * 8) as int, "secondary UVs") {
                        Err(e) => Err(e),
                        Ok(p2) => Ok(
                            (
                                (
                                    secondary_uvs_upto(vertices, s, p1, vertices.len() as int),
                                    Some(marker),
                                ),
                                p2,
                            ),
                        ),
                    }
                }
            } else {
                Ok(((vertices, Some(marker)), p1))
            },
        }
    }
}

/// The geometry that follows the header: a size check against the counts,
/// then the string table, materials, vertices, triangles and the version 2
/// UV data, in that order, and the bytes left over.
#[verifier::opaque]
pub open spec fn body_spec(
    s: Seq<u8>,
    kind: MeshKind,
    version: u32,
    counts: Seq<u32>,
    bone_count: Option<u32>,
    pos: int,
) -> Result<MeshView, ParseError> {
    let minimum = minimum_size(version, counts);
    if minimum > usize::MAX {
        Err(ParseError::CountOverflow { context: "record counts" })
    } else {
        match take_spec(s, pos, minimum, "counted records") {
            Err(e) => Err(e),
            Ok(_) => {
                let table = s.subrange(pos, pos + counts[0]);
                match bytes::repeat(material_step(table), s, pos + counts[0], counts[1] as nat) {
                    Err(e) => Err(e),
                    Ok((materials, p1)) => if vertex_bytes(version, counts[2]) > usize::MAX {
                        Err(ParseError::CountOverflow { context: "record counts" })
                    } else {
                        match take_spec(s, p1, vertex_bytes(version, counts[2]), "vertices") {
                            Err(e) => Err(e),
                            Ok(_) => match bytes::repeat(
                                vertex_step(version),
                                s,
                                p1,
                                counts[2] as nat,
                            ) {
                                Err(e) => Err(e),
                                Ok((vertices, p2)) => triangles_and_rest_spec(
                                    s,
                                    kind,
                                    version,
                                    counts,
                                    bone_count,
                                    table,
                                    materials,
                                    vertices,
                                    p2,
                                ),
                            },
                        }
                    },
                }
            },
        }
    }
}

/// The triangles, the version 2 UV data and the bytes left over.
pub open spec fn triangles_and_rest_spec(
    s: Seq<u8>,
    kind: MeshKind,
    version: u32,
    counts: Seq<u32>,
    bone_count: Option<u32>,
    table: Seq<u8>,
    materials: Seq<MaterialView>,
    vertices: Seq<VertexView>,
    pos: int,
) -> Result<MeshView, ParseError> {
    if 20 * counts[3] > usize::MAX {
        Err(ParseError::CountOverflow { context: "record counts" })
    } else {
        match take_spec(s, pos, 20 * counts[3], "triangles") {
            Err(e) => Err(e),
            Ok(_) => match bytes::repeat(triangle_step(counts[2]), s, pos, counts[3] as nat) {
                Err(e) => Err(e),
                Ok((triangles, p1)) => match secondary_uvs_spec(s, kind, version, vertices, p1) {
                    Err(e) => Err(e),
                    Ok(((vertices, uv_marker), p2)) => Ok(
                        MeshView {
                            kind,
                            version,
                            string_table: table,
                            materials,
                            vertices,
                            triangles,
                            bone_count,
                            uv_marker,
                            trailing_data: s.skip(p2),
                        },
                    ),
                },
            },
        }
    }
}

/// What [`parse`] answers for the input bytes `s`: the magic that names the
/// kind, a supported version, four counts, the model bone count, then the
/// geometry.
pub open spec fn parse_spec(s: Seq<u8>) -> Result<MeshView, ParseError> {
    if s.len() < 4 {
        Err(truncated(s, 0, 4, "magic"))
    } else if !bytes::has_prefix(s, crate::terrain_signature()) && !bytes::has_prefix(
        s,
        crate::model_signature(),
    ) {
        Err(ParseError::InvalidMagic)
    } else {
        let kind = if bytes::has_prefix(s, crate::terrain_signature()) {
            MeshKind::Terrain
        } else {
            MeshKind::Model
        };
        match word_spec(s, 4, "version") {
            Err(e) => Err(e),
            Ok((version, _)) => if version < 1 || version > 3 {
                Err(ParseError::UnsupportedVersion { version })
            } else {
                match words_spec(s, 8, 4, "header") {
                    Err(e) => Err(e),
                    Ok((counts, _)) => match optional_word_spec(
                        s,
                        kind == MeshKind::Model,
                        24,
                        "bone count",
                    ) {
                        Err(e) => Err(e),
                        Ok((bone_count, p)) => body_spec(s, kind, version, counts, bone_count, p),
                    },
                }
            },
        }
    }
}

// ---------------------------------------------------------------------------
// The reader.
// ---------------------------------------------------------------------------

struct Reader<'a> {
    bytes: &'a [u8],
    offset: usize,
}

impl<'a> Reader<'a> {
    spec fn wf(&self) -> bool {
        self.offset <= self.bytes@.len() <= usize::MAX
    }

    /// A reader at the start of `bytes`.
    fn new(bytes: &'a [u8]) -> (r: Self)
        ensures
            r.wf(),
            r.bytes == bytes,
            r.offset == 0,
    {
        assert(bytes@.len() == bytes.len());
        Reader { bytes, offset: 0 }
    }

    fn require(&self, needed: usize, context: &'static str) -> (r: Result<(), ParseError>)
        requires
            self.wf(),
        ensures
            r is Ok <==> needed <= self.bytes@.len() - self.offset,
            r matches Err(e) ==> take_spec(self.bytes@, self.offset as int, needed as int, context)
                == Err::<int, ParseError>(e),
    {
        let remaining = self.bytes.len() - self.offset;
        if needed > remaining {
            return Err(
                ParseError::Truncated { context, offset: self.offset, needed, remaining },
            );
        }
        Ok(())
    }

    fn take(&mut self, count: usize, context: &'static str) -> (r: Result<&'a [u8], ParseError>)
        requires
            old(self).wf(),
        ensures
            final(self).wf(),
            final(self).bytes == old(self).bytes,
            old(self).offset <= final(self).offset,
            match take_spec(old(self).bytes@, old(self).offset as int, count as int, context) {
                Ok(end) => end == final(self).offset && (r matches Ok(t) && t@
                    == old(self).bytes@.subrange(old(self).offset as int, end)),
                Err(e) => r == Err::<&'a [u8], ParseError>(e) && final(self).offset == old(
                    self,
                ).offset,
            },
    {
        match self.require(count, context) {
            Err(e) => return Err(e),
            Ok(()) => {},
        }
        assert(count <= self.bytes@.len() - self.offset);
        let start = self.offset;
        self.offset = self.offset + count;
        let t = vstd::slice::slice_subrange(self.bytes, start, self.offset);
        Ok(t)
    }

    fn word(&mut self, context: &'static str) -> (r: Result<u32, ParseError>)
        requires
            old(self).wf(),
        ensures
            final(self).wf(),
            final(self).bytes == old(self).bytes,
            old(self).offset <= final(self).offset,
            r is Err ==> final(self).offset == old(self).offset,
            bytes::step_outcome(
                r,
                word_spec(old(self).bytes@, old(self).offset as int, context),
                final(self).offset as int,
            ),
    {
        self.require(4, context)?;
        let w = read_u32_le(self.bytes, self.offset);
        self.offset = self.offset + 4;
        Ok(w)
    }

    fn words(&mut self, n: usize, context: &'static str) -> (r: Result<Vec<u32>, ParseError>)
        requires
            old(self).wf(),
        ensures
            final(self).wf(),
            final(self).bytes == old(self).bytes,
            old(self).offset <= final(self).offset,
            r is Err ==> final(self).offset == old(self).offset + 4 * ((old(self).bytes@.len()
                - old(self).offset) / 4),
            bytes::step_outcome(
                r,
                words_spec(old(self).bytes@, old(self).offset as int, n as nat, context),
                final(self).offset as int,
            ),
    {
        let ghost s = self.bytes@;
        let ghost start = self.offset as int;
        let mut out: Vec<u32> = Vec::new();
        let mut i: usize = 0;
        while i < n
            invariant
                self.wf(),
                self.bytes == old(self).bytes,
                self.bytes@ == s,
                s == old(self).bytes@,
                start == old(self).offset,
                start <= s.len(),
                0 <= i <= n,
                self.offset == start + 4 * i,
                out@ == bytes::le_words(s, start, i as nat),
            decreases n - i,
        {
            let ghost before = self.offset;
            match self.word(context) {
                Ok(w) => {
                    out.push(w);
                    i = i + 1;
                    assert(out@ =~= bytes::le_words(s, start, i as nat));
                },
                Err(e) => {
                    let ghost rest = s.len() - start;
                    assert(4 * i <= rest < 4 * i + 4);
                    assert(rest / 4 == i) by (nonlinear_arith)
                        requires
                            4 * i <= rest < 4 * i + 4,
                    ;
                    assert(start + 4 * n > s.len());
                    return Err(e);
                },
            }
        }
        assert(out@ =~= bytes::le_words(s, start, n as nat));
        Ok(out)
    }
}

fn parse_property(reader: &mut Reader, table: &[u8], last: Option<usize>) -> (r: Result<
    Property,
    ParseError,
>)
    requires
        old(reader).wf(),
        bytes::is_last_nul(table@, last),
    ensures
        final(reader).wf(),
        final(reader).bytes == old(reader).bytes,
        bytes::step_outcome(
            r,
            property_spec(old(reader).bytes@, table@, old(reader).offset as int),
            final(reader).offset as int,
        ),
{
    let w = reader.words(3, "property")?;
    let name_offset = w[0];
    let kind = w[1];
    let value = w[2];
    if !check_terminates(table, last, name_offset) {
        return Err(ParseError::InvalidStringReference { offset: name_offset });
    }
    if kind == 2 && !check_terminates(table, last, value) {
        return Err(ParseError::InvalidStringReference { offset: value });
    }
    Ok(Property { name_offset, kind, value })
}

fn parse_properties(reader: &mut Reader, table: &[u8], last: Option<usize>, count: u32) -> (r:
    Result<Vec<Property>, ParseError>)
    requires
        old(reader).wf(),
        bytes::is_last_nul(table@, last),
    ensures
        final(reader).wf(),
        final(reader).bytes == old(reader).bytes,
        match r {
            Ok(v) => bytes::repeat(
                property_step(table@),
                old(reader).bytes@,
                old(reader).offset as int,
                count as nat,
            ) == Ok::<(Seq<PropertyView>, int), ParseError>(
                (v@.map_values(|x: Property| x@), final(reader).offset as int),
            ),
            Err(e) => bytes::repeat(
                property_step(table@),
                old(reader).bytes@,
                old(reader).offset as int,
                count as nat,
            ) == Err::<(Seq<PropertyView>, int), ParseError>(e),
        },
{
    let ghost s = reader.bytes@;
    let ghost start = reader.offset as int;
    let ghost step = property_step(table@);
    let mut out: Vec<Property> = Vec::new();
    assert(out@.map_values(|x: Property| x@) =~= Seq::empty());
    let mut i: u32 = 0;
    while i < count
        invariant
            reader.wf(),
            reader.bytes == old(reader).bytes,
            s == old(reader).bytes@,
            start == old(reader).offset,
            step == property_step(table@),
            bytes::is_last_nul(table@, last),
            i <= count,
            bytes::repeat(step, s, start, i as nat) == Ok::<(Seq<PropertyView>, int), ParseError>(
                (out@.map_values(|x: Property| x@), reader.offset as int),
            ),
        decreases count - i,
    {
        match parse_property(reader, table, last) {
            Ok(x) => {
                let ghost before = out@;
                out.push(x);
                assert(out@.map_values(|x: Property| x@) =~= before.map_values(|x: Property| x@).push(
                    x@,
                ));
                i = i + 1;
            },
            Err(e) => {
                proof {
                    bytes::lemma_repeat_error_persists(step, s, start, (i + 1) as nat, count as nat);
                }
                return Err(e);
            },
        }
    }
    Ok(out)
}

fn parse_material(reader: &mut Reader, table: &[u8], last: Option<usize>) -> (r: Result<
    Material,
    ParseError,
>)
    requires
        old(reader).wf(),
        bytes::is_last_nul(table@, last),
    ensures
        final(reader).wf(),
        final(reader).bytes == old(reader).bytes,
        bytes::step_outcome(
            r,
            material_spec(old(reader).bytes@, table@, old(reader).offset as int),
            final(reader).offset as int,
        ),
{
    let w = reader.words(4, "material")?;
    let index = w[0];
    let name_offset = w[1];
    let shader_offset = w[2];
    let count = w[3];
    if !check_terminates(table, last, name_offset) {
        return Err(ParseError::InvalidStringReference { offset: name_offset });
    }
    if !check_terminates(table, last, shader_offset) {
        return Err(ParseError::InvalidStringReference { offset: shader_offset });
    }
    let size = match (count as usize).checked_mul(12) {
        Some(size) => size,
        None => return Err(ParseError::CountOverflow { context: "record counts" }),
    };
    reader.require(size, "material properties")?;
    let properties = parse_properties(reader, table, last, count)?;
    Ok(Material { index, name_offset, shader_offset, properties })
}

fn parse_materials(reader: &mut Reader, table: &[u8], last: Option<usize>, count: u32) -> (r:
    Result<Vec<Material>, ParseError>)
    requires
        old(reader).wf(),
        bytes::is_last_nul(table@, last),
    ensures
        final(reader).wf(),
        final(reader).bytes == old(reader).bytes,
        match r {
            Ok(v) => bytes::repeat(
                material_step(table@),
                old(reader).bytes@,
                old(reader).offset as int,
                count as nat,
            ) == Ok::<(Seq<MaterialView>, int), ParseError>(
                (v@.map_values(|x: Material| x@), final(reader).offset as int),
            ),
            Err(e) => bytes::repeat(
                material_step(table@),
                old(reader).bytes@,
                old(reader).offset as int,
                count as nat,
            ) == Err::<(Seq<MaterialView>, int), ParseError>(e),
        },
{
    let ghost s = reader.bytes@;
    let ghost start = reader.offset as int;
    let ghost step = material_step(table@);
    let mut out: Vec<Material> = Vec::new();
    assert(out@.map_values(|x: Material| x@) =~= Seq::empty());
    let mut i: u32 = 0;
    while i < count
        invariant
            reader.wf(),
            reader.bytes == old(reader).bytes,
            s == old(reader).bytes@,
            start == old(reader).offset,
            step == material_step(table@),
            bytes::is_last_nul(table@, last),
            i <= count,
            bytes::repeat(step, s, start, i as nat) == Ok::<(Seq<MaterialView>, int), ParseError>(
                (out@.map_values(|x: Material| x@), reader.offset as int),
            ),
        decreases count - i,
    {
        match parse_material(reader, table, last) {
            Ok(x) => {
                let ghost before = out@;
                let ghost xv = x@;
                out.push(x);
                assert(out@.map_values(|x: Material| x@) =~= before.map_values(|x: Material| x@).push(
                    xv,
                ));
                i = i + 1;
            },
            Err(e) => {
                proof {
                    bytes::lemma_repeat_error_persists(step, s, start, (i + 1) as nat, count as nat);
                }
                return Err(e);
            },
        }
    }
    Ok(out)
}

fn parse_vertex(reader: &mut Reader, version: u32) -> (r: Result<Vertex, ParseError>)
    requires
        old(reader).wf(),
    ensures
        final(reader).wf(),
        final(reader).bytes == old(reader).bytes,
        bytes::step_outcome(
            r,
            vertex_spec(old(reader).bytes@, version, old(reader).offset as int),
            final(reader).offset as int,
        ),
{
    let position = reader.words(3, "position")?;
    let normal = reader.words(3, "normal")?;
    let color = if version == 3 {
        Some(reader.word("color")?)
    } else {
        None
    };
    let uv0 = reader.words(2, "primary UV")?;
    let uv1 = if version == 3 {
        Some(array2(&reader.words(2, "secondary UV")?))
    } else {
        None
    };
    Ok(
        Vertex {
            position: array3(&position),
            normal: array3(&normal),
            color,
            uv0: array2(&uv0),
            uv1,
        },
    )
}

fn parse_vertices(reader: &mut Reader, version: u32, count: u32) -> (r: Result<
    Vec<Vertex>,
    ParseError,
>)
    requires
        old(reader).wf(),
    ensures
        final(reader).wf(),
        final(reader).bytes == old(reader).bytes,
        match r {
            Ok(v) => bytes::repeat(
                vertex_step(version),
                old(reader).bytes@,
                old(reader).offset as int,
                count as nat,
            ) == Ok::<(Seq<VertexView>, int), ParseError>(
                (v@.map_values(|x: Vertex| x@), final(reader).offset as int),
            ),
            Err(e) => bytes::repeat(
                vertex_step(version),
                old(reader).bytes@,
                old(reader).offset as int,
                count as nat,
            ) == Err::<(Seq<VertexView>, int), ParseError>(e),
        },
{
    let ghost s = reader.bytes@;
    let ghost start = reader.offset as int;
    let ghost step = vertex_step(version);
    let mut out: Vec<Vertex> = Vec::new();
    assert(out@.map_values(|x: Vertex| x@) =~= Seq::empty());
    let mut i: u32 = 0;
    while i < count
        invariant
            reader.wf(),
            reader.bytes == old(reader).bytes,
            s == old(reader).bytes@,
            start == old(reader).offset,
            step == vertex_step(version),
            i <= count,
            bytes::repeat(step, s, start, i as nat) == Ok::<(Seq<VertexView>, int), ParseError>(
                (out@.map_values(|x: Vertex| x@), reader.offset as int),
            ),
        decreases count - i,
    {
        match parse_vertex(reader, version) {
            Ok(x) => {
                let ghost before = out@;
                let ghost xv = x@;
                out.push(x);
                assert(out@.map_values(|x: Vertex| x@) =~= before.map_values(|x: Vertex| x@).push(
                    xv,
                ));
                i = i + 1;
            },
            Err(e) => {
                proof {
                    bytes::lemma_repeat_error_persists(step, s, start, (i + 1) as nat, count as nat);
                }
                return Err(e);
            },
        }
    }
    Ok(out)
}

fn parse_triangle(reader: &mut Reader, vertex_count: u32) -> (r: Result<Triangle, ParseError>)
    requires
        old(reader).wf(),
    ensures
        final(reader).wf(),
        final(reader).bytes == old(reader).bytes,
        bytes::step_outcome(
            r,
            triangle_spec(old(reader).bytes@, vertex_count, old(reader).offset as int),
            final(reader).offset as int,
        ),
{
    let v = reader.words(3, "triangle vertices")?;
    let vertex_indices = array3(&v);
    if vertex_indices[0] >= vertex_count {
        return Err(ParseError::InvalidVertexReference { index: vertex_indices[0], vertex_count });
    }
    if vertex_indices[1] >= vertex_count {
        return Err(ParseError::InvalidVertexReference { index: vertex_indices[1], vertex_count });
    }
    if vertex_indices[2] >= vertex_count {
        return Err(ParseError::InvalidVertexReference { index: vertex_indices[2], vertex_count });
    }
    let material_index = reader.word("triangle material")?;
    let flags = reader.word("triangle flags")?;
    Ok(Triangle { vertex_indices, material_index, flags })
}

fn parse_triangles(reader: &mut Reader, vertex_count: u32, count: u32) -> (r: Result<
    Vec<Triangle>,
    ParseError,
>)
    requires
        old(reader).wf(),
    ensures
        final(reader).wf(),
        final(reader).bytes == old(reader).bytes,
        match r {
            Ok(v) => bytes::repeat(
                triangle_step(vertex_count),
                old(reader).bytes@,
                old(reader).offset as int,
                count as nat,
            ) == Ok::<(Seq<TriangleView>, int), ParseError>(
                (v@.map_values(|x: Triangle| x@), final(reader).offset as int),
            ),
            Err(e) => bytes::repeat(
                triangle_step(vertex_count),
                old(reader).bytes@,
                old(reader).offset as int,
                count as nat,
            ) == Err::<(Seq<TriangleView>, int), ParseError>(e),
        },
{
    let ghost s = reader.bytes@;
    let ghost start = reader.offset as int;
    let ghost step = triangle_step(vertex_count);
    let mut out: Vec<Triangle> = Vec::new();
    assert(out@.map_values(|x: Triangle| x@) =~= Seq::empty());
    let mut i: u32 = 0;
    while i < count
        invariant
            reader.wf(),
            reader.bytes == old(reader).bytes,
            s == old(reader).bytes@,
            start == old(reader).offset,
            step == triangle_step(vertex_count),
            i <= count,
            bytes::repeat(step, s, start, i as nat) == Ok::<(Seq<TriangleView>, int), ParseError>(
                (out@.map_values(|x: Triangle| x@), reader.offset as int),
            ),
        decreases count - i,
    {
        match parse_triangle(reader, vertex_count) {
            Ok(x) => {
                let ghost before = out@;
                let ghost xv = x@;
                out.push(x);
                assert(out@.map_values(|x: Triangle| x@) =~= before.map_values(|x: Triangle| x@).push(
                    xv,
                ));
                i = i + 1;
            },
            Err(e) => {
                proof {
                    bytes::lemma_repeat_error_persists(step, s, start, (i + 1) as nat, count as nat);
                }
                return Err(e);
            },
        }
    }
    Ok(out)
}

fn parse_secondary_uvs(
    reader: &mut Reader,
    kind: MeshKind,
    version: u32,
    vertices: &mut Vec<Vertex>,
) -> (r: Result<Option<u32>, ParseError>)
    requires
        old(reader).wf(),
    ensures
        final(reader).wf(),
        final(reader).bytes == old(reader).bytes,
        match r {
            Ok(marker) => secondary_uvs_spec(
                old(reader).bytes@,
                kind,
                version,
                old(vertices)@.map_values(|x: Vertex| x@),
                old(reader).offset as int,
            ) == Ok::<((Seq<VertexView>, Option<u32>), int), ParseError>(
                (
                    (final(vertices)@.map_values(|x: Vertex| x@), marker),
                    final(reader).offset as int,
                ),
            ),
            Err(e) => secondary_uvs_spec(
                old(reader).bytes@,
                kind,
                version,
                old(vertices)@.map_values(|x: Vertex| x@),
                old(reader).offset as int,
            ) == Err::<((Seq<VertexView>, Option<u32>), int), ParseError>(e),
        },
{
    if version != 2 {
        return Ok(None);
    }
    let marker = reader.word("UV marker")?;
    let supplies = marker == 1 || (matches!(kind, MeshKind::Terrain) && marker == 2);
    if !supplies {
        return Ok(Some(marker));
    }
    let n = vertices.len();
    let size = match n.checked_mul(8) {
        Some(size) => size,
        None => return Err(ParseError::CountOverflow { context: "record counts" }),
    };
    reader.require(size, "secondary UVs")?;
    let ghost s = reader.bytes@;
    let ghost start = reader.offset as int;
    let ghost before = vertices@.map_values(|x: Vertex| x@);
    assert(before =~= secondary_uvs_upto(before, s, start, 0));
    let mut k: usize = 0;
    while k < n
        invariant
            reader.wf(),
            reader.bytes == old(reader).bytes,
            s == reader.bytes@,
            n == vertices@.len(),
            n == before.len(),
            start + 8 * n <= s.len(),
            k <= n,
            reader.offset == start + 8 * k,
            vertices@.map_values(|x: Vertex| x@) == secondary_uvs_upto(before, s, start, k as int),
        decreases n - k,
    {
        let pair = reader.words(2, "secondary UV")?;
        let uv1 = array2(&pair);
        let old_vertex = &vertices[k];
        let updated = Vertex {
            position: old_vertex.position,
            normal: old_vertex.normal,
            color: old_vertex.color,
            uv0: old_vertex.uv0,
            uv1: Some(uv1),
        };
        let ghost prev = vertices@;
        proof {
            assert(prev.map_values(|x: Vertex| x@)[k as int] == before[k as int]);
            assert(updated@ == with_uv1(before[k as int], bytes::le_words(s, start + 8 * k, 2)));
        }
        vertices.set(k, updated);
        proof {
            let kk = k as int;
            let now = vertices@.map_values(|x: Vertex| x@);
            let goal = secondary_uvs_upto(before, s, start, kk + 1);
            assert forall|j: int| 0 <= j < n implies now[j] == goal[j] by {
                if j != kk {
                    assert(prev.map_values(|x: Vertex| x@)[j] == secondary_uvs_upto(
                        before,
                        s,
                        start,
                        kk,
                    )[j]);
                    assert(vertices@[j] == prev[j]);
                }
            }
            assert(now =~= goal);
        }
        k = k + 1;
    }
    Ok(Some(marker))
}

/// The minimum byte size of the counted records, unless it exceeds `usize`.
fn records_size(version: u32, counts: &Vec<u32>) -> (r: Option<usize>)
    requires
        counts@.len() == 4,
    ensures
        r == (if minimum_size(version, counts@) <= usize::MAX {
            Some(minimum_size(version, counts@) as usize)
        } else {
            None::<usize>
        }),
{
    let stride: usize = if version == 3 {
        44
    } else {
        32
    };
    let marker: usize = if version == 2 {
        4
    } else {
        0
    };
    let m = add_records(marker, counts[0], 1)?;
    let m = add_records(m, counts[1], 16)?;
    let m = add_records(m, counts[2], stride)?;
    add_records(m, counts[3], 20)
}

fn parse_rest<'a>(
    reader: &mut Reader<'a>,
    kind: MeshKind,
    version: u32,
    counts: &Vec<u32>,
    bone_count: Option<u32>,
    string_table: &'a [u8],
    materials: Vec<Material>,
    vertices: Vec<Vertex>,
) -> (r: Result<Mesh<'a>, ParseError>)
    requires
        old(reader).wf(),
        counts@.len() == 4,
    ensures
        match r {
            Ok(mesh) => triangles_and_rest_spec(
                old(reader).bytes@,
                kind,
                version,
                counts@,
                bone_count,
                string_table@,
                materials@.map_values(|x: Material| x@),
                vertices@.map_values(|x: Vertex| x@),
                old(reader).offset as int,
            ) == Ok::<MeshView, ParseError>(mesh@),
            Err(e) => triangles_and_rest_spec(
                old(reader).bytes@,
                kind,
                version,
                counts@,
                bone_count,
                string_table@,
                materials@.map_values(|x: Material| x@),
                vertices@.map_values(|x: Vertex| x@),
                old(reader).offset as int,
            ) == Err::<MeshView, ParseError>(e),
        },
{
    let mut vertices = vertices;
    let size = match (counts[3] as usize).checked_mul(20) {
        Some(size) => size,
        None => return Err(ParseError::CountOverflow { context: "record counts" }),
    };
    reader.require(size, "triangles")?;
    let triangles = parse_triangles(reader, counts[2], counts[3])?;
    let uv_marker = parse_secondary_uvs(reader, kind, version, &mut vertices)?;
    let input = reader.bytes;
    let trailing_data = vstd::slice::slice_subrange(input, reader.offset, input.len());
    assert(trailing_data@ =~= input@.skip(reader.offset as int));
    Ok(
        Mesh {
            kind,
            version,
            string_table,
            materials,
            vertices,
            triangles,
            bone_count,
            uv_marker,
            trailing_data,
        },
    )
}

fn parse_body<'a>(
    reader: &mut Reader<'a>,
    kind: MeshKind,
    version: u32,
    counts: &Vec<u32>,
    bone_count: Option<u32>,
) -> (r: Result<Mesh<'a>, ParseError>)
    requires
        old(reader).wf(),
        counts@.len() == 4,
    ensures
        match r {
            Ok(mesh) => body_spec(
                old(reader).bytes@,
                kind,
                version,
                counts@,
                bone_count,
                old(reader).offset as int,
            ) == Ok::<MeshView, ParseError>(mesh@),
            Err(e) => body_spec(
                old(reader).bytes@,
                kind,
                version,
                counts@,
                bone_count,
                old(reader).offset as int,
            ) == Err::<MeshView, ParseError>(e),
        },
{
    proof {
        reveal(body_spec);
    }
    let minimum = match records_size(version, counts) {
        Some(m) => m,
        None => return Err(ParseError::CountOverflow { context: "record counts" }),
    };
    reader.require(minimum, "counted records")?;
    let string_table = reader.take(counts[0] as usize, "string table")?;
    let last = last_nul(string_table);
    let materials = parse_materials(reader, string_table, last, counts[1])?;
    let stride: usize = if version == 3 {
        44
    } else {
        32
    };
    let size = match (counts[2] as usize).checked_mul(stride) {
        Some(size) => size,
        None => return Err(ParseError::CountOverflow { context: "record counts" }),
    };
    reader.require(size, "vertices")?;
    let vertices = parse_vertices(reader, version, counts[2])?;
    parse_rest(reader, kind, version, counts, bone_count, string_table, materials, vertices)
}

/// Decode geometry, retaining any suffix without interpreting skeletal records.
/// Counted byte requirements are checked before allocating record vectors.
/// Every string reference must terminate within the table and every triangle
/// vertex reference must be in range. Material references remain uninterpreted.
pub fn parse(input: &[u8]) -> (r: Result<Mesh<'_>, ParseError>)
    ensures
        match r {
            Ok(mesh) => parse_spec(input@) == Ok::<MeshView, ParseError>(mesh@),
            Err(e) => parse_spec(input@) == Err::<MeshView, ParseError>(e),
        },
{
    let ghost s = input@;
    let mut reader = Reader::new(input);
    let magic = reader.take(4, "magic")?;
    let terrain: [u8; 4] = [0x45, 0x51, 0x47, 0x54];
    let model: [u8; 4] = [0x45, 0x51, 0x47, 0x4d];
    assert(terrain@ == crate::terrain_signature());
    assert(model@ == crate::model_signature());
    let kind = if starts_with(magic, terrain.as_slice()) {
        assert(bytes::has_prefix(s, crate::terrain_signature()));
        MeshKind::Terrain
    } else if starts_with(magic, model.as_slice()) {
        assert(bytes::has_prefix(s, crate::model_signature()));
        assert(!bytes::has_prefix(s, crate::terrain_signature())) by {
            if bytes::has_prefix(s, crate::terrain_signature()) {
                assert(bytes::has_prefix(magic@, terrain@));
            }
        }
        MeshKind::Model
    } else {
        assert(!bytes::has_prefix(s, crate::terrain_signature())) by {
            if bytes::has_prefix(s, crate::terrain_signature()) {
                assert(bytes::has_prefix(magic@, terrain@));
            }
        }
        assert(!bytes::has_prefix(s, crate::model_signature())) by {
            if bytes::has_prefix(s, crate::model_signature()) {
                assert(bytes::has_prefix(magic@, model@));
            }
        }
        return Err(ParseError::InvalidMagic);
    };
    let version = reader.word("version")?;
    if version < 1 || version > 3 {
        return Err(ParseError::UnsupportedVersion { version });
    }
    let counts = reader.words(4, "header")?;
    let bone_count = match kind {
        MeshKind::Model => Some(reader.word("bone count")?),
        MeshKind::Terrain => None,
    };
    parse_body(&mut reader, kind, version, &counts, bone_count)
}

impl<'a> Mesh<'a> {
    /// Resolve a NUL-terminated byte string, excluding the terminator.
    /// Non-UTF-8 bytes and suffix references are permitted.
    pub fn string(&self, offset: u32) -> (r: Result<&[u8], ParseError>)
        ensures
            r is Ok <==> bytes::terminates(self.string_table@, offset as int),
            match r {
                Ok(text) => bytes::string_at(self.string_table@, offset as int, text@),
                Err(e) => e == ParseError::InvalidStringReference { offset },
            },
    {
        match string_in(self.string_table, offset) {
            Some(text) => {
                assert(self.string_table@[offset + text@.len()] == 0);
                Ok(text)
            },
            None => Err(ParseError::InvalidStringReference { offset }),
        }
    }
}

// ---------------------------------------------------------------------------
// Laws.
// ---------------------------------------------------------------------------

/// Every string reference of a mesh resolves within its string table, type 2
/// property values included, and every triangle vertex index addresses the
/// vertex table.
pub open spec fn references_resolve(m: MeshView) -> bool {
    &&& forall|i: int|
        0 <= i < m.materials.len() ==> {
            let material = #[trigger] m.materials[i];
            &&& bytes::terminates(m.string_table, material.name_offset as int)
            &&& bytes::terminates(m.string_table, material.shader_offset as int)
            &&& forall|j: int|
                0 <= j < material.properties.len() ==> {
                    let p = #[trigger] material.properties[j];
                    &&& bytes::terminates(m.string_table, p.name_offset as int)
                    &&& p.kind == 2 ==> bytes::terminates(m.string_table, p.value as int)
                }
        }
    &&& forall|i: int|
        0 <= i < m.triangles.len() ==> {
            let tri = #[trigger] m.triangles[i];
            &&& tri.vertex_indices.len() == 3
            &&& forall|k: int|
                0 <= k < 3 ==> #[trigger] tri.vertex_indices[k] < m.vertices.len()
        }
}

/// Whether a vertex of a mesh of this kind, version and UV marker carries a
/// secondary UV pair: always in version 3, in version 2 when the marker
/// supplies them, never in version 1.
pub open spec fn has_secondary_uvs(kind: MeshKind, version: u32, uv_marker: Option<u32>) -> bool {
    version == 3 || (version == 2 && (uv_marker matches Some(marker) && marker_supplies_uvs(
        kind,
        marker,
    )))
}

/// The record shapes of a mesh: a supported version, a bone count exactly for
/// models, a UV marker exactly in version 2, the version 3 color, secondary UV
/// pairs where [`has_secondary_uvs`] says, and three vertex indices per triangle.
pub open spec fn geometry_well_formed(m: MeshView) -> bool {
    &&& 1 <= m.version <= 3
    &&& m.bone_count is Some <==> m.kind == MeshKind::Model
    &&& m.uv_marker is Some <==> m.version == 2
    &&& forall|i: int|
        0 <= i < m.vertices.len() ==> {
            let v = #[trigger] m.vertices[i];
            &&& v.position.len() == 3
            &&& v.normal.len() == 3
            &&& v.uv0.len() == 2
            &&& v.color is Some <==> m.version == 3
            &&& v.uv1 is Some <==> has_secondary_uvs(m.kind, m.version, m.uv_marker)
            &&& v.uv1 matches Some(uv) ==> uv.len() == 2
        }
}

/// The bytes that a material occupies: its four words and its properties.
pub open spec fn material_size() -> spec_fn(MaterialView) -> int {
    |m: MaterialView| 16 + 12 * (m.properties.len() as int)
}

/// The bytes that the version 2 UV data occupies: the marker and, where the
/// marker supplies them, eight bytes per vertex.
pub open spec fn uv_bytes(
    kind: MeshKind,
    version: u32,
    uv_marker: Option<u32>,
    vertex_count: int,
) -> int {
    if version == 2 {
        4 + (if uv_marker matches Some(marker) && marker_supplies_uvs(kind, marker) {
            8 * vertex_count
        } else {
            0
        })
    } else {
        0
    }
}

pub open spec fn property_valid(table: Seq<u8>) -> spec_fn(PropertyView) -> bool {
    |p: PropertyView|
        {
            &&& bytes::terminates(table, p.name_offset as int)
            &&& p.kind == 2 ==> bytes::terminates(table, p.value as int)
        }
}

pub open spec fn material_valid(table: Seq<u8>) -> spec_fn(MaterialView) -> bool {
    |m: MaterialView|
        {
            &&& bytes::terminates(table, m.name_offset as int)
            &&& bytes::terminates(table, m.shader_offset as int)
            &&& forall|j: int|
                0 <= j < m.properties.len() ==> #[trigger] property_valid(table)(m.properties[j])
        }
}

pub open spec fn vertex_valid(version: u32) -> spec_fn(VertexView) -> bool {
    |v: VertexView|
        {
            &&& v.position.len() == 3
            &&& v.normal.len() == 3
            &&& v.uv0.len() == 2
            &&& v.color is Some <==> version == 3
            &&& v.uv1 is Some <==> version == 3
            &&& v.uv1 matches Some(uv) ==> uv.len() == 2
        }
}

pub open spec fn triangle_valid(vertex_count: u32) -> spec_fn(TriangleView) -> bool {
    |t: TriangleView|
        {
            &&& t.vertex_indices.len() == 3
            &&& forall|k: int| 0 <= k < 3 ==> #[trigger] t.vertex_indices[k] < vertex_count
        }
}

proof fn lemma_word_resumes(s: Seq<u8>, t: Seq<u8>, pos: int, context: &'static str)
    requires
        bytes::compatible(s, t),
        0 <= pos,
    ensures
        word_spec(s, pos, context) matches Ok((w, e)) ==> {
            &&& e == pos + 4
            &&& e <= s.len()
            &&& e <= t.len() ==> word_spec(t, pos, context) == word_spec(s, pos, context)
            &&& t.len() < e ==> word_spec(t, pos, context) is Err
        },
{
    if pos + 4 <= s.len() && pos + 4 <= t.len() {
        assert(s[pos] == t[pos]);
        assert(s[pos + 1] == t[pos + 1]);
        assert(s[pos + 2] == t[pos + 2]);
        assert(s[pos + 3] == t[pos + 3]);
    }
}

proof fn lemma_words_resumes(s: Seq<u8>, t: Seq<u8>, pos: int, n: nat, context: &'static str)
    requires
        bytes::compatible(s, t),
        0 <= pos,
    ensures
        words_spec(s, pos, n, context) matches Ok((w, e)) ==> {
            &&& e == pos + 4 * n
            &&& e <= s.len()
            &&& w.len() == n
            &&& e <= t.len() ==> words_spec(t, pos, n, context) == words_spec(s, pos, n, context)
            &&& t.len() < e ==> words_spec(t, pos, n, context) is Err
        },
{
    if pos + 4 * n <= s.len() && pos + 4 * n <= t.len() {
        bytes::lemma_le_words_compatible(s, t, pos, n);
    }
}

proof fn lemma_property_step(s: Seq<u8>, t: Seq<u8>, table: Seq<u8>, pos: int)
    requires
        bytes::compatible(s, t),
        0 <= pos,
    ensures
        bytes::step_resumes(property_step(table), s, t, pos),
        bytes::step_yields(property_step(table), s, pos, 12, property_valid(table)),
        bytes::step_consumes(property_step(table), s, pos, bytes::const_size(12)),
{
    lemma_words_resumes(s, t, pos, 3, "property");
}

proof fn lemma_material_step(s: Seq<u8>, t: Seq<u8>, table: Seq<u8>, pos: int)
    requires
        bytes::compatible(s, t),
        0 <= pos,
    ensures
        bytes::step_resumes(material_step(table), s, t, pos),
        bytes::step_yields(material_step(table), s, pos, 16, material_valid(table)),
        bytes::step_consumes(material_step(table), s, pos, material_size()),
{
    lemma_words_resumes(s, t, pos, 4, "material");
    let ps = property_step(table);
    let pv = property_valid(table);
    assert forall|q: int| 0 <= q implies #[trigger] bytes::step_resumes(ps, s, t, q)
        && bytes::step_yields(ps, s, q, 12, pv) && bytes::step_consumes(
        ps,
        s,
        q,
        bytes::const_size(12),
    ) by {
        lemma_property_step(s, t, table, q);
    }
    if pos + 16 <= s.len() {
        let count = bytes::le_words(s, pos, 4)[3];
        bytes::lemma_repeat_resumes(ps, s, t, pos + 16, count as nat);
        bytes::lemma_repeat_yields(ps, s, pos + 16, count as nat, 12, pv);
        bytes::lemma_repeat_consumes(ps, s, pos + 16, count as nat, bytes::const_size(12));
        if let Ok((props, e)) = bytes::repeat(ps, s, pos + 16, count as nat) {
            bytes::lemma_total_const(props, 12);
        }
    }
}

proof fn lemma_vertex_step(s: Seq<u8>, t: Seq<u8>, version: u32, pos: int)
    requires
        bytes::compatible(s, t),
        0 <= pos,
    ensures
        bytes::step_resumes(vertex_step(version), s, t, pos),
        bytes::step_yields(
            vertex_step(version),
            s,
            pos,
            vertex_bytes(version, 1),
            vertex_valid(version),
        ),
        bytes::step_consumes(vertex_step(version), s, pos, bytes::const_size(vertex_stride(version))),
{
    lemma_words_resumes(s, t, pos, 3, "position");
    lemma_words_resumes(s, t, pos + 12, 3, "normal");
    lemma_word_resumes(s, t, pos + 24, "color");
    lemma_words_resumes(s, t, pos + 24, 2, "primary UV");
    lemma_words_resumes(s, t, pos + 28, 2, "primary UV");
    lemma_words_resumes(s, t, pos + 36, 2, "secondary UV");
}

proof fn lemma_triangle_step(s: Seq<u8>, t: Seq<u8>, vertex_count: u32, pos: int)
    requires
        bytes::compatible(s, t),
        0 <= pos,
    ensures
        bytes::step_resumes(triangle_step(vertex_count), s, t, pos),
        bytes::step_yields(triangle_step(vertex_count), s, pos, 20, triangle_valid(vertex_count)),
        bytes::step_consumes(triangle_step(vertex_count), s, pos, bytes::const_size(20)),
{
    lemma_words_resumes(s, t, pos, 3, "triangle vertices");
    lemma_word_resumes(s, t, pos + 12, "triangle material");
    lemma_word_resumes(s, t, pos + 16, "triangle flags");
    if let Ok((tri, e)) = triangle_spec(s, vertex_count, pos) {
        assert forall|k: int| 0 <= k < 3 implies #[trigger] tri.vertex_indices[k]
            < vertex_count by {
            if k == 0 {
            } else if k == 1 {
            } else {
            }
        }
    }
}

/// The version 2 UV data: what it reads, what it changes, and how it resumes.
proof fn lemma_secondary_uvs(
    s: Seq<u8>,
    t: Seq<u8>,
    kind: MeshKind,
    version: u32,
    vertices: Seq<VertexView>,
    pos: int,
)
    requires
        bytes::compatible(s, t),
        0 <= pos <= s.len(),
    ensures
        secondary_uvs_spec(s, kind, version, vertices, pos) matches Ok(((vs, marker), e)) ==> {
            &&& pos + (if version == 2 {
                4int
            } else {
                0int
            }) <= e <= s.len()
            &&& vs.len() == vertices.len()
            &&& e == pos + uv_bytes(kind, version, marker, vertices.len() as int)
            &&& marker is Some <==> version == 2
            &&& forall|j: int|
                0 <= j < vs.len() ==> {
                    let v = #[trigger] vs[j];
                    &&& v.position == vertices[j].position
                    &&& v.normal == vertices[j].normal
                    &&& v.color == vertices[j].color
                    &&& v.uv0 == vertices[j].uv0
                    &&& (version == 2 && marker_supplies_uvs(kind, marker->Some_0)) ==> (
                    v.uv1 matches Some(uv) && uv.len() == 2 && uv == bytes::le_words(
                        s,
                        pos + 4 + 8 * j,
                        2,
                    ))
                    &&& !(version == 2 && marker_supplies_uvs(kind, marker->Some_0)) ==> v.uv1
                        == vertices[j].uv1
                }
            &&& e <= t.len() ==> secondary_uvs_spec(t, kind, version, vertices, pos)
                == secondary_uvs_spec(s, kind, version, vertices, pos)
            &&& pos <= t.len() < e ==> secondary_uvs_spec(t, kind, version, vertices, pos) is Err
        },
{
    lemma_word_resumes(s, t, pos, "UV marker");
    if version == 2 && pos + 4 <= s.len() {
        let marker = bytes::le_u32(s, pos);
        let n = vertices.len();
        let p1 = pos + 4;
        if marker_supplies_uvs(kind, marker) && n * 8 <= usize::MAX && p1 + n * 8 <= s.len() {
            let vs = secondary_uvs_upto(vertices, s, p1, n as int);
            assert forall|j: int| 0 <= j < n implies (#[trigger] vs[j]).uv1 matches Some(uv)
                && uv.len() == 2 && uv == bytes::le_words(s, p1 + 8 * j, 2) by {
                assert(vs[j] == with_uv1(vertices[j], bytes::le_words(s, p1 + 8 * j, 2)));
            }
            if p1 + n * 8 <= t.len() {
                assert forall|j: int| 0 <= j < n implies bytes::le_words(s, p1 + 8 * j, 2)
                    == #[trigger] bytes::le_words(t, p1 + 8 * j, 2) by {
                    bytes::lemma_le_words_compatible(s, t, p1 + 8 * j, 2);
                }
                assert(secondary_uvs_upto(vertices, t, p1, n as int) =~= vs);
            }
        }
    }
}

/// The mesh `m` with its trailing bytes replaced.
pub open spec fn with_trailing(m: MeshView, trailing_data: Seq<u8>) -> MeshView {
    MeshView {
        kind: m.kind,
        version: m.version,
        string_table: m.string_table,
        materials: m.materials,
        vertices: m.vertices,
        triangles: m.triangles,
        bone_count: m.bone_count,
        uv_marker: m.uv_marker,
        trailing_data,
    }
}

proof fn lemma_rest(
    s: Seq<u8>,
    t: Seq<u8>,
    kind: MeshKind,
    version: u32,
    counts: Seq<u32>,
    bone_count: Option<u32>,
    table: Seq<u8>,
    materials: Seq<MaterialView>,
    vertices: Seq<VertexView>,
    pos: int,
)
    requires
        bytes::compatible(s, t),
        counts.len() == 4,
        1 <= version <= 3,
        0 <= pos <= s.len(),
        bone_count is Some <==> kind == MeshKind::Model,
    ensures
        triangles_and_rest_spec(
            s,
            kind,
            version,
            counts,
            bone_count,
            table,
            materials,
            vertices,
            pos,
        ) matches Ok(m) ==> {
            let c = s.len() - m.trailing_data.len();
            &&& pos + 20 * counts[3] + (if version == 2 {
                4int
            } else {
                0int
            }) <= c <= s.len()
            &&& m.trailing_data == s.skip(c)
            &&& ({
                &&& vertices.len() == counts[2]
                &&& forall|i: int|
                    0 <= i < vertices.len() ==> #[trigger] vertex_valid(version)(vertices[i])
                &&& forall|i: int|
                    0 <= i < materials.len() ==> #[trigger] material_valid(table)(materials[i])
            }) ==> references_resolve(m) && geometry_well_formed(m)
            &&& c <= t.len() ==> triangles_and_rest_spec(
                t,
                kind,
                version,
                counts,
                bone_count,
                table,
                materials,
                vertices,
                pos,
            ) == Ok::<MeshView, ParseError>(with_trailing(m, t.skip(c)))
            &&& pos <= t.len() < c ==> triangles_and_rest_spec(
                t,
                kind,
                version,
                counts,
                bone_count,
                table,
                materials,
                vertices,
                pos,
            ) is Err
        },
{
    if 20 * counts[3] > usize::MAX || 20 * counts[3] > s.len() - pos {
        return;
    }
    let ts = triangle_step(counts[2]);
    let tv = triangle_valid(counts[2]);
    assert forall|q: int| 0 <= q implies #[trigger] bytes::step_resumes(ts, s, t, q)
        && bytes::step_yields(ts, s, q, 20, tv) by {
        lemma_triangle_step(s, t, counts[2], q);
    }
    bytes::lemma_repeat_resumes(ts, s, t, pos, counts[3] as nat);
    bytes::lemma_repeat_yields(ts, s, pos, counts[3] as nat, 20, tv);
    if let Ok((triangles, p1)) = bytes::repeat(ts, s, pos, counts[3] as nat) {
        lemma_secondary_uvs(s, t, kind, version, vertices, p1);
        if let Ok(((vs, uv_marker), p2)) = secondary_uvs_spec(s, kind, version, vertices, p1) {
            let m = MeshView {
                kind,
                version,
                string_table: table,
                materials,
                vertices: vs,
                triangles,
                bone_count,
                uv_marker,
                trailing_data: s.skip(p2),
            };
            assert(triangles_and_rest_spec(
                s,
                kind,
                version,
                counts,
                bone_count,
                table,
                materials,
                vertices,
                pos,
            ) == Ok::<MeshView, ParseError>(m));
            if !({
                &&& vertices.len() == counts[2]
                &&& forall|i: int|
                    0 <= i < vertices.len() ==> #[trigger] vertex_valid(version)(vertices[i])
                &&& forall|i: int|
                    0 <= i < materials.len() ==> #[trigger] material_valid(table)(materials[i])
            }) {
                return;
            }
            assert forall|i: int| 0 <= i < materials.len() implies {
                let material = #[trigger] materials[i];
                &&& bytes::terminates(table, material.name_offset as int)
                &&& bytes::terminates(table, material.shader_offset as int)
                &&& forall|j: int|
                    0 <= j < material.properties.len() ==> {
                        let p = #[trigger] material.properties[j];
                        &&& bytes::terminates(table, p.name_offset as int)
                        &&& p.kind == 2 ==> bytes::terminates(table, p.value as int)
                    }
            } by {
                let material = materials[i];
                assert(material_valid(table)(material));
                assert forall|j: int| 0 <= j < material.properties.len() implies {
                    let p = #[trigger] material.properties[j];
                    &&& bytes::terminates(table, p.name_offset as int)
                    &&& p.kind == 2 ==> bytes::terminates(table, p.value as int)
                } by {
                    assert(property_valid(table)(material.properties[j]));
                }
            }
            assert forall|i: int| 0 <= i < triangles.len() implies {
                let tri = #[trigger] triangles[i];
                &&& tri.vertex_indices.len() == 3
                &&& forall|k: int|
                    0 <= k < 3 ==> #[trigger] tri.vertex_indices[k] < vs.len()
            } by {
                assert(tv(triangles[i]));
            }
            assert(references_resolve(m));
            assert forall|i: int| 0 <= i < vs.len() implies {
                let v = #[trigger] vs[i];
                &&& v.position.len() == 3
                &&& v.normal.len() == 3
                &&& v.uv0.len() == 2
                &&& v.color is Some <==> version == 3
                &&& v.uv1 is Some <==> has_secondary_uvs(kind, version, uv_marker)
                &&& v.uv1 matches Some(uv) ==> uv.len() == 2
            } by {
                assert(vertex_valid(version)(vertices[i]));
            }
            assert(geometry_well_formed(m));
        }
    }
}

proof fn lemma_body_yield(
    s: Seq<u8>,
    kind: MeshKind,
    version: u32,
    counts: Seq<u32>,
    bone_count: Option<u32>,
    pos: int,
)
    requires
        counts.len() == 4,
        1 <= version <= 3,
        0 <= pos <= s.len(),
        bone_count is Some <==> kind == MeshKind::Model,
    ensures
        body_spec(s, kind, version, counts, bone_count, pos) matches Ok(m) ==> {
            let c = s.len() - m.trailing_data.len();
            &&& pos + minimum_size(version, counts) <= c <= s.len()
            &&& m.trailing_data == s.skip(c)
            &&& references_resolve(m)
            &&& geometry_well_formed(m)
        },
{
    reveal(body_spec);
    let minimum = minimum_size(version, counts);
    if minimum > usize::MAX || minimum > s.len() - pos {
        return;
    }
    let table_end = pos + counts[0];
    let table = s.subrange(pos, table_end);
    let ms = material_step(table);
    let mv = material_valid(table);
    assert forall|q: int| 0 <= q implies #[trigger] bytes::step_yields(ms, s, q, 16, mv) by {
        lemma_material_step(s, s, table, q);
    }
    bytes::lemma_repeat_yields(ms, s, table_end, counts[1] as nat, 16, mv);
    if let Ok((materials, p1)) = bytes::repeat(ms, s, table_end, counts[1] as nat) {
        let vb = vertex_bytes(version, counts[2]);
        if vb > usize::MAX || vb > s.len() - p1 {
            return;
        }
        let vs = vertex_step(version);
        let vv = vertex_valid(version);
        let vk = vertex_bytes(version, 1);
        assert forall|q: int| 0 <= q implies #[trigger] bytes::step_yields(vs, s, q, vk, vv) by {
            lemma_vertex_step(s, s, version, q);
        }
        bytes::lemma_repeat_yields(vs, s, p1, counts[2] as nat, vk as nat, vv);
        if let Ok((vertices, p2)) = bytes::repeat(vs, s, p1, counts[2] as nat) {
            assert(counts[2] * vk == vb) by (nonlinear_arith)
                requires
                    vk == vertex_bytes(version, 1),
                    vb == vertex_bytes(version, counts[2]),
            ;
            lemma_rest(
                s,
                s,
                kind,
                version,
                counts,
                bone_count,
                table,
                materials,
                vertices,
                p2,
            );
        }
    }
}

proof fn lemma_body_resume(
    s: Seq<u8>,
    t: Seq<u8>,
    kind: MeshKind,
    version: u32,
    counts: Seq<u32>,
    bone_count: Option<u32>,
    pos: int,
)
    requires
        bytes::compatible(s, t),
        counts.len() == 4,
        1 <= version <= 3,
        0 <= pos <= s.len(),
        bone_count is Some <==> kind == MeshKind::Model,
    ensures
        body_spec(s, kind, version, counts, bone_count, pos) matches Ok(m) ==> {
            let c = s.len() - m.trailing_data.len();
            &&& c <= t.len() ==> body_spec(t, kind, version, counts, bone_count, pos) == Ok::<
                MeshView,
                ParseError,
            >(with_trailing(m, t.skip(c)))
            &&& pos <= t.len() < c ==> body_spec(t, kind, version, counts, bone_count, pos) is Err
        },
{
    reveal(body_spec);
    let minimum = minimum_size(version, counts);
    if minimum > usize::MAX || minimum > s.len() - pos {
        return;
    }
    lemma_body_yield(s, kind, version, counts, bone_count, pos);
    if t.len() < pos + minimum {
        return;
    }
    let table_end = pos + counts[0];
    let table = s.subrange(pos, table_end);
    assert(t.subrange(pos, table_end) =~= table);
    let ms = material_step(table);
    assert forall|q: int| 0 <= q implies #[trigger] bytes::step_resumes(ms, s, t, q) by {
        lemma_material_step(s, t, table, q);
    }
    bytes::lemma_repeat_resumes(ms, s, t, table_end, counts[1] as nat);
    if let Ok((materials, p1)) = bytes::repeat(ms, s, table_end, counts[1] as nat) {
        let vb = vertex_bytes(version, counts[2]);
        if vb > usize::MAX || vb > s.len() - p1 {
            return;
        }
        let vs = vertex_step(version);
        let vv = vertex_valid(version);
        let vk = vertex_bytes(version, 1);
        assert forall|q: int| 0 <= q implies #[trigger] bytes::step_resumes(vs, s, t, q)
            && bytes::step_yields(vs, s, q, vk, vv) by {
            lemma_vertex_step(s, t, version, q);
        }
        bytes::lemma_repeat_resumes(vs, s, t, p1, counts[2] as nat);
        bytes::lemma_repeat_yields(vs, s, p1, counts[2] as nat, vk as nat, vv);
        if let Ok((vertices, p2)) = bytes::repeat(vs, s, p1, counts[2] as nat) {
            assert(counts[2] * vk == vb) by (nonlinear_arith)
                requires
                    vk == vertex_bytes(version, 1),
                    vb == vertex_bytes(version, counts[2]),
            ;
            lemma_rest(
                s,
                t,
                kind,
                version,
                counts,
                bone_count,
                table,
                materials,
                vertices,
                p2,
            );
        }
    }
}

/// Parsing depends on the bytes it consumes and on nothing after them.
///
/// When `s` parses, let `c` be the number of bytes that its geometry
/// consumes; the trailing data is then exactly the bytes of `s` after `c`. Any
/// `t` that agrees with `s` wherever both have a byte (a prefix or an
/// extension of `s`, say) parses to the same mesh, with `t`'s own bytes after
/// `c` as trailing data, if it holds at least `c` bytes, and is rejected if
/// it holds fewer.
pub proof fn lemma_parse_depends_only_on_consumed_bytes(s: Seq<u8>, t: Seq<u8>)
    requires
        bytes::compatible(s, t),
    ensures
        parse_spec(s) matches Ok(m) ==> {
            let c = s.len() - m.trailing_data.len();
            &&& 0 <= c <= s.len()
            &&& m.trailing_data == s.skip(c)
            &&& c <= t.len() ==> parse_spec(t) == Ok::<MeshView, ParseError>(
                with_trailing(m, t.skip(c)),
            )
            &&& t.len() < c ==> parse_spec(t) is Err
        },
{
    if parse_spec(s) is Ok {
        lemma_word_resumes(s, t, 4, "version");
        lemma_words_resumes(s, t, 8, 4, "header");
        lemma_word_resumes(s, t, 24, "bone count");
        let version = bytes::le_u32(s, 4);
        let counts = bytes::le_words(s, 8, 4);
        let kind = if bytes::has_prefix(s, crate::terrain_signature()) {
            MeshKind::Terrain
        } else {
            MeshKind::Model
        };
        let pos: int = if kind == MeshKind::Model {
            28
        } else {
            24
        };
        let bone_count = if kind == MeshKind::Model {
            Some(bytes::le_u32(s, 24))
        } else {
            None
        };
        lemma_body_yield(s, kind, version, counts, bone_count, pos);
        lemma_body_resume(s, t, kind, version, counts, bone_count, pos);
        if t.len() >= 4 {
            assert(s[0] == t[0] && s[1] == t[1] && s[2] == t[2] && s[3] == t[3]);
            assert(bytes::has_prefix(t, crate::terrain_signature()) == bytes::has_prefix(
                s,
                crate::terrain_signature(),
            ));
            assert(bytes::has_prefix(t, crate::model_signature()) == bytes::has_prefix(
                s,
                crate::model_signature(),
            ));
        }
    }
}

/// What a parsed mesh holds is valid: every string reference resolves within
/// the string table (so [`Mesh::string`] succeeds on it), every triangle
/// vertex index addresses the vertex table, and the records have the shape
/// that the kind, version and UV marker call for.
pub proof fn lemma_parsed_mesh_is_valid(s: Seq<u8>)
    ensures
        parse_spec(s) matches Ok(m) ==> references_resolve(m) && geometry_well_formed(m),
{
    if parse_spec(s) is Ok {
        let version = bytes::le_u32(s, 4);
        let counts = bytes::le_words(s, 8, 4);
        let kind = if bytes::has_prefix(s, crate::terrain_signature()) {
            MeshKind::Terrain
        } else {
            MeshKind::Model
        };
        let pos: int = if kind == MeshKind::Model {
            28
        } else {
            24
        };
        let bone_count = if kind == MeshKind::Model {
            Some(bytes::le_u32(s, 24))
        } else {
            None
        };
        lemma_body_yield(s, kind, version, counts, bone_count, pos);
    }
}

/// Which vertices carry a secondary UV pair: in version 3 all of them, in
/// version 1 none, and in version 2 all of them exactly when the marker after
/// the triangles is 1, or 2 in a terrain (marker 2 supplies none to a model).
pub proof fn lemma_secondary_uv_rule(s: Seq<u8>)
    ensures
        parse_spec(s) matches Ok(m) ==> forall|k: int|
            0 <= k < m.vertices.len() ==> ((#[trigger] m.vertices[k]).uv1 is Some <==> (m.version
                == 3 || (m.version == 2 && (m.uv_marker == Some(1u32) || (m.kind
                == MeshKind::Terrain && m.uv_marker == Some(2u32)))))),
{
    lemma_parsed_mesh_is_valid(s);
}

/// Bytes appended to a mesh that parses become trailing data; the geometry stays.
pub proof fn lemma_parse_keeps_appended_bytes(s: Seq<u8>, extra: Seq<u8>)
    ensures
        parse_spec(s) matches Ok(m) ==> parse_spec(s + extra) == Ok::<MeshView, ParseError>(
            with_trailing(m, m.trailing_data + extra),
        ),
{
    let t = s + extra;
    assert(bytes::compatible(s, t));
    lemma_parse_depends_only_on_consumed_bytes(s, t);
    if let Ok(m) = parse_spec(s) {
        let c = s.len() - m.trailing_data.len();
        assert forall|i: int| 0 <= i < t.len() - c implies #[trigger] t.skip(c)[i] == (
        m.trailing_data + extra)[i] by {
            if i < s.len() - c {
                assert(t[c + i] == s[c + i]);
            }
        }
        assert(t.skip(c) =~= m.trailing_data + extra);
    }
}

/// Every prefix of a mesh that parses that stops short of its geometry is
/// rejected.
pub proof fn lemma_parse_rejects_truncated_geometry(s: Seq<u8>, k: int)
    requires
        0 <= k,
    ensures
        parse_spec(s) matches Ok(m) ==> (k < s.len() - m.trailing_data.len() ==> parse_spec(
            s.take(k),
        ) is Err),
{
    if let Ok(m) = parse_spec(s) {
        if k < s.len() - m.trailing_data.len() {
            let t = s.take(k);
            assert(bytes::compatible(s, t));
            lemma_parse_depends_only_on_consumed_bytes(s, t);
        }
    }
}

proof fn lemma_rest_layout(
    s: Seq<u8>,
    kind: MeshKind,
    version: u32,
    counts: Seq<u32>,
    bone_count: Option<u32>,
    table: Seq<u8>,
    materials: Seq<MaterialView>,
    vertices: Seq<VertexView>,
    pos: int,
)
    requires
        counts.len() == 4,
        1 <= version <= 3,
        0 <= pos <= s.len(),
    ensures
        triangles_and_rest_spec(
            s,
            kind,
            version,
            counts,
            bone_count,
            table,
            materials,
            vertices,
            pos,
        ) matches Ok(m) ==> {
            &&& m.kind == kind
            &&& m.version == version
            &&& m.bone_count == bone_count
            &&& m.string_table == table
            &&& m.materials == materials
            &&& m.vertices.len() == vertices.len()
            &&& m.triangles.len() == counts[3]
            &&& m.trailing_data == s.skip(
                pos + 20 * counts[3] + uv_bytes(kind, version, m.uv_marker, vertices.len() as int),
            )
        },
{
    if 20 * counts[3] > usize::MAX || 20 * counts[3] > s.len() - pos {
        return;
    }
    let ts = triangle_step(counts[2]);
    let tv = triangle_valid(counts[2]);
    assert forall|q: int| 0 <= q implies #[trigger] bytes::step_consumes(
        ts,
        s,
        q,
        bytes::const_size(20),
    ) && bytes::step_yields(ts, s, q, 20, tv) by {
        lemma_triangle_step(s, s, counts[2], q);
    }
    bytes::lemma_repeat_consumes(ts, s, pos, counts[3] as nat, bytes::const_size(20));
    bytes::lemma_repeat_yields(ts, s, pos, counts[3] as nat, 20, tv);
    if let Ok((triangles, p1)) = bytes::repeat(ts, s, pos, counts[3] as nat) {
        bytes::lemma_total_const(triangles, 20);
        lemma_secondary_uvs(s, s, kind, version, vertices, p1);
    }
}

proof fn lemma_body_layout(
    s: Seq<u8>,
    kind: MeshKind,
    version: u32,
    counts: Seq<u32>,
    bone_count: Option<u32>,
    pos: int,
)
    requires
        counts.len() == 4,
        1 <= version <= 3,
        0 <= pos <= s.len(),
    ensures
        body_spec(s, kind, version, counts, bone_count, pos) matches Ok(m) ==> {
            &&& m.kind == kind
            &&& m.version == version
            &&& m.bone_count == bone_count
            &&& m.string_table == s.subrange(pos, pos + counts[0])
            &&& m.materials.len() == counts[1]
            &&& m.vertices.len() == counts[2]
            &&& m.triangles.len() == counts[3]
            &&& m.trailing_data == s.skip(
                pos + counts[0] + bytes::total(m.materials, material_size()) + vertex_bytes(
                    version,
                    counts[2],
                ) + 20 * counts[3] + uv_bytes(kind, version, m.uv_marker, counts[2] as int),
            )
        },
{
    reveal(body_spec);
    let minimum = minimum_size(version, counts);
    if minimum > usize::MAX || minimum > s.len() - pos {
        return;
    }
    let table_end = pos + counts[0];
    let table = s.subrange(pos, table_end);
    let ms = material_step(table);
    let mv = material_valid(table);
    assert forall|q: int| 0 <= q implies #[trigger] bytes::step_consumes(
        ms,
        s,
        q,
        material_size(),
    ) by {
        lemma_material_step(s, s, table, q);
    }
    assert forall|q: int| 0 <= q implies #[trigger] bytes::step_yields(ms, s, q, 16, mv) by {
        lemma_material_step(s, s, table, q);
    }
    bytes::lemma_repeat_consumes(ms, s, table_end, counts[1] as nat, material_size());
    bytes::lemma_repeat_yields(ms, s, table_end, counts[1] as nat, 16, mv);
    if let Ok((materials, p1)) = bytes::repeat(ms, s, table_end, counts[1] as nat) {
        let vb = vertex_bytes(version, counts[2]);
        if vb > usize::MAX || vb > s.len() - p1 {
            return;
        }
        let vs = vertex_step(version);
        let vv = vertex_valid(version);
        let vk = vertex_bytes(version, 1);
        let stride = vertex_stride(version);
        assert forall|q: int| 0 <= q implies #[trigger] bytes::step_consumes(
            vs,
            s,
            q,
            bytes::const_size(stride),
        ) && bytes::step_yields(vs, s, q, vk, vv) by {
            lemma_vertex_step(s, s, version, q);
        }
        bytes::lemma_repeat_consumes(vs, s, p1, counts[2] as nat, bytes::const_size(stride));
        bytes::lemma_repeat_yields(vs, s, p1, counts[2] as nat, vk as nat, vv);
        if let Ok((vertices, p2)) = bytes::repeat(vs, s, p1, counts[2] as nat) {
            bytes::lemma_total_const(vertices, stride);
            assert(stride * counts[2] == vb) by (nonlinear_arith)
                requires
                    stride == vertex_stride(version),
                    vb == vertex_bytes(version, counts[2]),
            ;
            lemma_rest_layout(
                s,
                kind,
                version,
                counts,
                bone_count,
                table,
                materials,
                vertices,
                p2,
            );
        }
    }
}

/// Where the parts of a parsed mesh come from: the kind from the magic, the
/// version word, the model bone count right after the header, the string
/// table after that, as many materials, vertices and triangles as the header
/// counts, and trailing data that starts after the geometry, whose sizes are
/// 16 bytes plus 12 per property per material, 32 (versions 1 and 2) or 44
/// (version 3) per vertex, 20 per triangle, and in version 2 the UV marker
/// and, where it supplies them, eight bytes of secondary UVs per vertex.
pub proof fn lemma_parsed_mesh_layout(s: Seq<u8>)
    ensures
        parse_spec(s) matches Ok(m) ==> {
            let counts = bytes::le_words(s, 8, 4);
            let header_end: int = if m.kind == MeshKind::Model {
                28
            } else {
                24
            };
            &&& m.kind == (if bytes::has_prefix(s, crate::terrain_signature()) {
                MeshKind::Terrain
            } else {
                MeshKind::Model
            })
            &&& m.version == bytes::le_u32(s, 4)
            &&& m.bone_count == (if m.kind == MeshKind::Model {
                Some(bytes::le_u32(s, 24))
            } else {
                None
            })
            &&& m.string_table == s.subrange(header_end, header_end + counts[0])
            &&& m.materials.len() == counts[1]
            &&& m.vertices.len() == counts[2]
            &&& m.triangles.len() == counts[3]
            &&& m.trailing_data == s.skip(
                header_end + counts[0] + bytes::total(m.materials, material_size())
                    + vertex_bytes(m.version, counts[2]) + 20 * counts[3] + uv_bytes(
                    m.kind,
                    m.version,
                    m.uv_marker,
                    counts[2] as int,
                ),
            )
        },
{
    if parse_spec(s) is Ok {
        let version = bytes::le_u32(s, 4);
        let counts = bytes::le_words(s, 8, 4);
        let kind = if bytes::has_prefix(s, crate::terrain_signature()) {
            MeshKind::Terrain
        } else {
            MeshKind::Model
        };
        let pos: int = if kind == MeshKind::Model {
            28
        } else {
            24
        };
        let bone_count = if kind == MeshKind::Model {
            Some(bytes::le_u32(s, 24))
        } else {
            None
        };
        lemma_body_layout(s, kind, version, counts, bone_count, pos);
    }
}

/// The material record that starts at `at` in `s` holds `m`: index, name
/// offset, shader offset and property count, then that many 12-byte property
/// records of name offset, raw type tag and raw value.
pub open spec fn material_record_at(s: Seq<u8>, at: int, m: MaterialView) -> bool {
    &&& m.index == bytes::le_u32(s, at)
    &&& m.name_offset == bytes::le_u32(s, at + 4)
    &&& m.shader_offset == bytes::le_u32(s, at + 8)
    &&& m.properties.len() == bytes::le_u32(s, at + 12)
    &&& forall|j: int|
        0 <= j < m.properties.len() ==> #[trigger] m.properties[j] == PropertyView {
            name_offset: bytes::le_u32(s, at + 16 + 12 * j),
            kind: bytes::le_u32(s, at + 20 + 12 * j),
            value: bytes::le_u32(s, at + 24 + 12 * j),
        }
}

/// The vertex record of a version that starts at `at` in `s` holds the
/// position, normal, color and primary UV of `v`: three position words,
/// three normal words, in version 3 a packed color word, and two UV words.
pub open spec fn vertex_record_at(s: Seq<u8>, version: u32, at: int, v: VertexView) -> bool {
    &&& v.position == bytes::le_words(s, at, 3)
    &&& v.normal == bytes::le_words(s, at + 12, 3)
    &&& v.color == (if version == 3 {
        Some(bytes::le_u32(s, at + 24))
    } else {
        None
    })
    &&& v.uv0 == bytes::le_words(s, if version == 3 {
        at + 28
    } else {
        at + 24
    }, 2)
}

/// The triangle record that starts at `at` in `s` holds `t`: three vertex
/// indices in order, the raw material reference and the flags.
pub open spec fn triangle_record_at(s: Seq<u8>, at: int, t: TriangleView) -> bool {
    &&& t.vertex_indices == bytes::le_words(s, at, 3)
    &&& t.material_index == bytes::le_u32(s, at + 12)
    &&& t.flags == bytes::le_u32(s, at + 16)
}

proof fn lemma_properties_fields(s: Seq<u8>, table: Seq<u8>, start: int, n: nat)
    requires
        0 <= start,
    ensures
        bytes::repeat(property_step(table), s, start, n) matches Ok((props, e)) ==> {
            &&& props.len() == n
            &&& e == start + 12 * props.len()
            &&& forall|j: int|
                0 <= j < props.len() ==> #[trigger] props[j] == PropertyView {
                    name_offset: bytes::le_u32(s, start + 12 * j),
                    kind: bytes::le_u32(s, start + 12 * j + 4),
                    value: bytes::le_u32(s, start + 12 * j + 8),
                }
        },
{
    let ps = property_step(table);
    assert forall|pos: int| 0 <= pos implies #[trigger] bytes::step_consumes(
        ps,
        s,
        pos,
        bytes::const_size(12),
    ) by {
        lemma_property_step(s, s, table, pos);
    }
    bytes::lemma_repeat_consumes(ps, s, start, n, bytes::const_size(12));
    bytes::lemma_repeat_len(ps, s, start, n);
    if let Ok((props, e)) = bytes::repeat(ps, s, start, n) {
        bytes::lemma_total_const(props, 12);
        assert forall|j: int| 0 <= j < props.len() implies #[trigger] props[j] == PropertyView {
            name_offset: bytes::le_u32(s, start + 12 * j),
            kind: bytes::le_u32(s, start + 12 * j + 4),
            value: bytes::le_u32(s, start + 12 * j + 8),
        } by {
            bytes::lemma_repeat_item_at(ps, s, start, n, bytes::const_size(12), j);
            bytes::lemma_total_const(props.take(j), 12);
            let w = bytes::le_words(s, start + 12 * j, 3);
            assert(w[0] == bytes::le_u32(s, start + 12 * j));
            assert(w[1] == bytes::le_u32(s, start + 12 * j + 4));
            assert(w[2] == bytes::le_u32(s, start + 12 * j + 8));
        }
    }
}

proof fn lemma_material_record(s: Seq<u8>, table: Seq<u8>, at: int)
    requires
        0 <= at,
    ensures
        material_spec(s, table, at) matches Ok((m, e)) ==> material_record_at(s, at, m),
{
    if let Ok((m, e)) = material_spec(s, table, at) {
        let w = bytes::le_words(s, at, 4);
        assert(w[0] == bytes::le_u32(s, at));
        assert(w[1] == bytes::le_u32(s, at + 4));
        assert(w[2] == bytes::le_u32(s, at + 8));
        assert(w[3] == bytes::le_u32(s, at + 12));
        lemma_properties_fields(s, table, at + 16, w[3] as nat);
        assert forall|j: int| 0 <= j < m.properties.len() implies #[trigger] m.properties[j]
            == PropertyView {
            name_offset: bytes::le_u32(s, at + 16 + 12 * j),
            kind: bytes::le_u32(s, at + 20 + 12 * j),
            value: bytes::le_u32(s, at + 24 + 12 * j),
        } by {
            assert(at + 16 + 12 * j + 4 == at + 20 + 12 * j);
            assert(at + 16 + 12 * j + 8 == at + 24 + 12 * j);
        }
    }
}

proof fn lemma_materials_fields(s: Seq<u8>, table: Seq<u8>, start: int, n: nat)
    requires
        0 <= start,
    ensures
        bytes::repeat(material_step(table), s, start, n) matches Ok((materials, e)) ==> {
            &&& materials.len() == n
            &&& start <= e
            &&& e == start + bytes::total(materials, material_size())
            &&& forall|k: int|
                0 <= k < materials.len() ==> material_record_at(
                    s,
                    start + bytes::total(materials.take(k), material_size()),
                    #[trigger] materials[k],
                )
        },
{
    let ms = material_step(table);
    assert forall|pos: int| 0 <= pos implies #[trigger] bytes::step_consumes(
        ms,
        s,
        pos,
        material_size(),
    ) by {
        lemma_material_step(s, s, table, pos);
    }
    bytes::lemma_repeat_consumes(ms, s, start, n, material_size());
    bytes::lemma_repeat_len(ms, s, start, n);
    if let Ok((materials, e)) = bytes::repeat(ms, s, start, n) {
        assert forall|k: int| 0 <= k < materials.len() implies material_record_at(
            s,
            start + bytes::total(materials.take(k), material_size()),
            #[trigger] materials[k],
        ) by {
            bytes::lemma_repeat_item_at(ms, s, start, n, material_size(), k);
            let at = start + bytes::total(materials.take(k), material_size());
            bytes::lemma_repeat_prefix(ms, s, start, n, k as nat);
            bytes::lemma_repeat_consumes(ms, s, start, k as nat, material_size());
            lemma_material_record(s, table, at);
        }
    }
}

/// The secondary UV pair of vertex `k` of a parsed mesh: read inline in
/// version 3, from the eight-byte records after the UV marker (starting at
/// `uv_start`) in version 2 when the marker supplies them, absent otherwise.
pub open spec fn secondary_uv_at(
    s: Seq<u8>,
    kind: MeshKind,
    version: u32,
    uv_marker: Option<u32>,
    at: int,
    uv_start: int,
    k: int,
) -> Option<Seq<u32>> {
    if version == 3 {
        Some(bytes::le_words(s, at + 36, 2))
    } else if has_secondary_uvs(kind, version, uv_marker) {
        Some(bytes::le_words(s, uv_start + 8 * k, 2))
    } else {
        None
    }
}

proof fn lemma_vertices_fields(s: Seq<u8>, version: u32, start: int, n: nat)
    requires
        0 <= start,
        1 <= version <= 3,
    ensures
        bytes::repeat(vertex_step(version), s, start, n) matches Ok((vs, e)) ==> {
            &&& vs.len() == n
            &&& e == start + vertex_stride(version) * vs.len()
            &&& forall|k: int|
                0 <= k < vs.len() ==> {
                    &&& vertex_record_at(
                        s,
                        version,
                        start + vertex_stride(version) * k,
                        #[trigger] vs[k],
                    )
                    &&& vs[k].uv1 == if version == 3 {
                        Some(bytes::le_words(s, start + vertex_stride(version) * k + 36, 2))
                    } else {
                        None
                    }
                }
        },
{
    let vs = vertex_step(version);
    let stride = vertex_stride(version);
    assert forall|pos: int| 0 <= pos implies #[trigger] bytes::step_consumes(
        vs,
        s,
        pos,
        bytes::const_size(stride),
    ) by {
        lemma_vertex_step(s, s, version, pos);
    }
    bytes::lemma_repeat_consumes(vs, s, start, n, bytes::const_size(stride));
    bytes::lemma_repeat_len(vs, s, start, n);
    if let Ok((items, e)) = bytes::repeat(vs, s, start, n) {
        bytes::lemma_total_const(items, stride);
        assert forall|k: int| 0 <= k < items.len() implies {
            &&& vertex_record_at(s, version, start + stride * k, #[trigger] items[k])
            &&& items[k].uv1 == if version == 3 {
                Some(bytes::le_words(s, start + stride * k + 36, 2))
            } else {
                None
            }
        } by {
            bytes::lemma_repeat_item_at(vs, s, start, n, bytes::const_size(stride), k);
            bytes::lemma_total_const(items.take(k), stride);
        }
    }
}

proof fn lemma_triangles_fields(s: Seq<u8>, vertex_count: u32, start: int, n: nat)
    requires
        0 <= start,
    ensures
        bytes::repeat(triangle_step(vertex_count), s, start, n) matches Ok((ts, e)) ==> {
            &&& ts.len() == n
            &&& e == start + 20 * ts.len()
            &&& forall|k: int|
                0 <= k < ts.len() ==> triangle_record_at(s, start + 20 * k, #[trigger] ts[k])
        },
{
    let tstep = triangle_step(vertex_count);
    assert forall|pos: int| 0 <= pos implies #[trigger] bytes::step_consumes(
        tstep,
        s,
        pos,
        bytes::const_size(20),
    ) by {
        lemma_triangle_step(s, s, vertex_count, pos);
    }
    bytes::lemma_repeat_consumes(tstep, s, start, n, bytes::const_size(20));
    bytes::lemma_repeat_len(tstep, s, start, n);
    if let Ok((items, e)) = bytes::repeat(tstep, s, start, n) {
        bytes::lemma_total_const(items, 20);
        assert forall|k: int| 0 <= k < items.len() implies triangle_record_at(
            s,
            start + 20 * k,
            #[trigger] items[k],
        ) by {
            bytes::lemma_repeat_item_at(tstep, s, start, n, bytes::const_size(20), k);
            bytes::lemma_total_const(items.take(k), 20);
        }
    }
}

proof fn lemma_rest_fields(
    s: Seq<u8>,
    kind: MeshKind,
    version: u32,
    counts: Seq<u32>,
    bone_count: Option<u32>,
    table: Seq<u8>,
    materials: Seq<MaterialView>,
    vertices: Seq<VertexView>,
    pos: int,
)
    requires
        counts.len() == 4,
        1 <= version <= 3,
        0 <= pos <= s.len(),
    ensures
        triangles_and_rest_spec(
            s,
            kind,
            version,
            counts,
            bone_count,
            table,
            materials,
            vertices,
            pos,
        ) matches Ok(m) ==> {
            let marker_at = pos + 20 * counts[3];
            &&& m.uv_marker == if version == 2 {
                Some(bytes::le_u32(s, marker_at))
            } else {
                None
            }
            &&& forall|k: int|
                0 <= k < m.triangles.len() ==> triangle_record_at(
                    s,
                    pos + 20 * k,
                    #[trigger] m.triangles[k],
                )
            &&& m.vertices.len() == vertices.len()
            &&& forall|j: int|
                0 <= j < m.vertices.len() ==> {
                    let v = #[trigger] m.vertices[j];
                    &&& v.position == vertices[j].position
                    &&& v.normal == vertices[j].normal
                    &&& v.color == vertices[j].color
                    &&& v.uv0 == vertices[j].uv0
                    &&& v.uv1 == if version == 2 && has_secondary_uvs(kind, version, m.uv_marker) {
                        Some(bytes::le_words(s, marker_at + 4 + 8 * j, 2))
                    } else {
                        vertices[j].uv1
                    }
                }
        },
{
    if 20 * counts[3] > usize::MAX || 20 * counts[3] > s.len() - pos {
        return;
    }
    let ts = triangle_step(counts[2]);
    lemma_triangles_fields(s, counts[2], pos, counts[3] as nat);
    if let Ok((triangles, p1)) = bytes::repeat(ts, s, pos, counts[3] as nat) {
        lemma_secondary_uvs(s, s, kind, version, vertices, p1);
    }
}

proof fn lemma_body_fields(
    s: Seq<u8>,
    kind: MeshKind,
    version: u32,
    counts: Seq<u32>,
    bone_count: Option<u32>,
    pos: int,
)
    requires
        counts.len() == 4,
        1 <= version <= 3,
        0 <= pos <= s.len(),
    ensures
        body_spec(s, kind, version, counts, bone_count, pos) matches Ok(m) ==> {
            let table_end = pos + counts[0];
            let vertices_start = table_end + bytes::total(m.materials, material_size());
            let stride = vertex_stride(version);
            let triangles_start = vertices_start + stride * counts[2];
            let uv_start = triangles_start + 20 * counts[3] + 4;
            &&& forall|k: int|
                0 <= k < m.materials.len() ==> material_record_at(
                    s,
                    table_end + bytes::total(m.materials.take(k), material_size()),
                    #[trigger] m.materials[k],
                )
            &&& forall|k: int|
                0 <= k < m.vertices.len() ==> {
                    &&& vertex_record_at(
                        s,
                        version,
                        vertices_start + stride * k,
                        #[trigger] m.vertices[k],
                    )
                    &&& m.vertices[k].uv1 == secondary_uv_at(
                        s,
                        kind,
                        version,
                        m.uv_marker,
                        vertices_start + stride * k,
                        uv_start,
                        k,
                    )
                }
            &&& forall|k: int|
                0 <= k < m.triangles.len() ==> triangle_record_at(
                    s,
                    triangles_start + 20 * k,
                    #[trigger] m.triangles[k],
                )
            &&& m.uv_marker == if version == 2 {
                Some(bytes::le_u32(s, triangles_start + 20 * counts[3]))
            } else {
                None
            }
        },
{
    reveal(body_spec);
    let minimum = minimum_size(version, counts);
    if minimum > usize::MAX || minimum > s.len() - pos {
        return;
    }
    let table_end = pos + counts[0];
    let table = s.subrange(pos, table_end);
    let ms = material_step(table);
    lemma_materials_fields(s, table, table_end, counts[1] as nat);
    if let Ok((materials, p1)) = bytes::repeat(ms, s, table_end, counts[1] as nat) {
        let vb = vertex_bytes(version, counts[2]);
        if vb > usize::MAX || vb > s.len() - p1 {
            return;
        }
        let vs = vertex_step(version);
        let stride = vertex_stride(version);
        lemma_vertices_fields(s, version, p1, counts[2] as nat);
        if let Ok((vertices, p2)) = bytes::repeat(vs, s, p1, counts[2] as nat) {
            lemma_rest_fields(
                s,
                kind,
                version,
                counts,
                bone_count,
                table,
                materials,
                vertices,
                p2,
            );
            if let Ok(m) = triangles_and_rest_spec(
                s,
                kind,
                version,
                counts,
                bone_count,
                table,
                materials,
                vertices,
                p2,
            ) {
                lemma_rest_layout(
                    s,
                    kind,
                    version,
                    counts,
                    bone_count,
                    table,
                    materials,
                    vertices,
                    p2,
                );
                assert(m.materials == materials);
                assert forall|k: int| 0 <= k < m.vertices.len() implies {
                    &&& vertex_record_at(s, version, p1 + stride * k, #[trigger] m.vertices[k])
                    &&& m.vertices[k].uv1 == secondary_uv_at(
                        s,
                        kind,
                        version,
                        m.uv_marker,
                        p1 + stride * k,
                        p2 + 20 * counts[3] + 4,
                        k,
                    )
                } by {
                    assert(vertex_record_at(s, version, p1 + stride * k, vertices[k]));
                }
            }
        }
    }
}

/// Every record of a parsed mesh holds the words stored at its place in the
/// input. After the header (and the model bone count) and the string table
/// come the materials one after the other (see [`material_record_at`] and
/// [`material_size`]), then the vertices of [`vertex_stride`] bytes each
/// (see [`vertex_record_at`], with secondary UV pairs as
/// [`secondary_uv_at`] gives them), then the 20-byte triangles (see
/// [`triangle_record_at`]), then in version 2 the UV marker word and the
/// secondary UV records.
pub proof fn lemma_parsed_mesh_records(s: Seq<u8>)
    ensures
        parse_spec(s) matches Ok(m) ==> {
            let counts = bytes::le_words(s, 8, 4);
            let header_end: int = if m.kind == MeshKind::Model {
                28
            } else {
                24
            };
            let table_end = header_end + counts[0];
            let vertices_start = table_end + bytes::total(m.materials, material_size());
            let stride = vertex_stride(m.version);
            let triangles_start = vertices_start + stride * counts[2];
            let uv_start = triangles_start + 20 * counts[3] + 4;
            &&& forall|k: int|
                0 <= k < m.materials.len() ==> material_record_at(
                    s,
                    table_end + bytes::total(m.materials.take(k), material_size()),
                    #[trigger] m.materials[k],
                )
            &&& forall|k: int|
                0 <= k < m.vertices.len() ==> {
                    &&& vertex_record_at(
                        s,
                        m.version,
                        vertices_start + stride * k,
                        #[trigger] m.vertices[k],
                    )
                    &&& m.vertices[k].uv1 == secondary_uv_at(
                        s,
                        m.kind,
                        m.version,
                        m.uv_marker,
                        vertices_start + stride * k,
                        uv_start,
                        k,
                    )
                }
            &&& forall|k: int|
                0 <= k < m.triangles.len() ==> triangle_record_at(
                    s,
                    triangles_start + 20 * k,
                    #[trigger] m.triangles[k],
                )
            &&& m.uv_marker == if m.version == 2 {
                Some(bytes::le_u32(s, triangles_start + 20 * counts[3]))
            } else {
                None
            }
        },
{
    if parse_spec(s) is Ok {
        let version = bytes::le_u32(s, 4);
        let counts = bytes::le_words(s, 8, 4);
        let kind = if bytes::has_prefix(s, crate::terrain_signature()) {
            MeshKind::Terrain
        } else {
            MeshKind::Model
        };
        let pos: int = if kind == MeshKind::Model {
            28
        } else {
            24
        };
        let bone_count = if kind == MeshKind::Model {
            Some(bytes::le_u32(s, 24))
        } else {
            None
        };
        lemma_body_layout(s, kind, version, counts, bone_count, pos);
        lemma_body_fields(s, kind, version, counts, bone_count, pos);
    }
}

// ---------------------------------------------------------------------------
// How each record depends on the bytes it spans.
// ---------------------------------------------------------------------------

proof fn lemma_word_local(s: Seq<u8>, t: Seq<u8>, pos: int, context: &'static str)
    requires
        0 <= pos,
    ensures
        word_spec(s, pos, context) matches Ok((w, e)) ==> {
            &&& e == pos + 4 <= s.len()
            &&& (t.len() == s.len() && bytes::same_between(s, t, pos, e)) ==> word_spec(t, pos, context) == word_spec(
                s,
                pos,
                context,
            )
        },
{
    if pos + 4 <= s.len() && t.len() == s.len() && bytes::same_between(s, t, pos, pos + 4) {
        assert(s[pos] == t[pos]);
        assert(s[pos + 1] == t[pos + 1]);
        assert(s[pos + 2] == t[pos + 2]);
        assert(s[pos + 3] == t[pos + 3]);
    }
}

proof fn lemma_words_local(s: Seq<u8>, t: Seq<u8>, pos: int, n: nat, context: &'static str)
    requires
        0 <= pos,
    ensures
        words_spec(s, pos, n, context) matches Ok((w, e)) ==> {
            &&& e == pos + 4 * n <= s.len()
            &&& (t.len() == s.len() && bytes::same_between(s, t, pos, e)) ==> words_spec(t, pos, n, context)
                == words_spec(s, pos, n, context)
        },
{
    if pos + 4 * n <= s.len() && t.len() == s.len() && bytes::same_between(s, t, pos, pos + 4 * n) {
        bytes::lemma_le_words_between(s, t, pos, n);
    }
}

proof fn lemma_property_local(s: Seq<u8>, t: Seq<u8>, table: Seq<u8>, pos: int)
    requires
        0 <= pos,
    ensures
        bytes::step_local(property_step(table), s, t, pos),
{
    lemma_words_local(s, t, pos, 3, "property");
}

proof fn lemma_material_local(s: Seq<u8>, t: Seq<u8>, table: Seq<u8>, pos: int)
    requires
        0 <= pos,
    ensures
        bytes::step_local(material_step(table), s, t, pos),
{
    let ps = property_step(table);
    assert forall|q: int| 0 <= q implies #[trigger] bytes::step_local(ps, s, t, q) by {
        lemma_property_local(s, t, table, q);
    }
    if pos + 16 <= s.len() {
        lemma_words_local(s, t, pos, 4, "material");
        let count = bytes::le_words(s, pos, 4)[3];
        bytes::lemma_repeat_local(ps, s, t, pos + 16, count as nat);
    }
}

proof fn lemma_vertex_local(s: Seq<u8>, t: Seq<u8>, version: u32, pos: int)
    requires
        0 <= pos,
    ensures
        bytes::step_local(vertex_step(version), s, t, pos),
{
    lemma_words_local(s, t, pos, 3, "position");
    lemma_words_local(s, t, pos + 12, 3, "normal");
    lemma_word_local(s, t, pos + 24, "color");
    lemma_words_local(s, t, pos + 24, 2, "primary UV");
    lemma_words_local(s, t, pos + 28, 2, "primary UV");
    lemma_words_local(s, t, pos + 36, 2, "secondary UV");
}

proof fn lemma_triangle_local(s: Seq<u8>, t: Seq<u8>, vertex_count: u32, pos: int)
    requires
        0 <= pos,
    ensures
        bytes::step_local(triangle_step(vertex_count), s, t, pos),
{
    lemma_words_local(s, t, pos, 3, "triangle vertices");
    lemma_word_local(s, t, pos + 12, "triangle material");
    lemma_word_local(s, t, pos + 16, "triangle flags");
}

proof fn lemma_secondary_uvs_local(
    s: Seq<u8>,
    t: Seq<u8>,
    kind: MeshKind,
    version: u32,
    vertices: Seq<VertexView>,
    pos: int,
)
    requires
        0 <= pos,
        t.len() == s.len(),
        bytes::same_between(s, t, pos, s.len() as int),
    ensures
        secondary_uvs_spec(t, kind, version, vertices, pos) == secondary_uvs_spec(
            s,
            kind,
            version,
            vertices,
            pos,
        ),
{
    lemma_word_local(s, t, pos, "UV marker");
    if version == 2 && pos + 4 <= s.len() {
        let p1 = pos + 4;
        let n = vertices.len();
        if p1 + n * 8 <= s.len() {
            assert forall|j: int| 0 <= j < n implies bytes::le_words(s, p1 + 8 * j, 2)
                == #[trigger] bytes::le_words(t, p1 + 8 * j, 2) by {
                bytes::lemma_le_words_between(s, t, p1 + 8 * j, 2);
            }
            assert(secondary_uvs_upto(vertices, t, p1, n as int) =~= secondary_uvs_upto(
                vertices,
                s,
                p1,
                n as int,
            ));
        }
    }
}

/// Past the vertices, a `t` of the same length that holds the same bytes
/// gives the same mesh, whatever materials it carries.
proof fn lemma_rest_local(
    s: Seq<u8>,
    t: Seq<u8>,
    kind: MeshKind,
    version: u32,
    counts: Seq<u32>,
    bone_count: Option<u32>,
    table: Seq<u8>,
    materials: Seq<MaterialView>,
    materials2: Seq<MaterialView>,
    vertices: Seq<VertexView>,
    pos: int,
)
    requires
        counts.len() == 4,
        0 <= pos <= s.len(),
        t.len() == s.len(),
        bytes::same_between(s, t, pos, s.len() as int),
        triangles_and_rest_spec(s, kind, version, counts, bone_count, table, materials, vertices, pos)
            is Ok,
    ensures
        ({
            let m = triangles_and_rest_spec(
                s,
                kind,
                version,
                counts,
                bone_count,
                table,
                materials,
                vertices,
                pos,
            )->Ok_0;
            triangles_and_rest_spec(
                t,
                kind,
                version,
                counts,
                bone_count,
                table,
                materials2,
                vertices,
                pos,
            ) == Ok::<MeshView, ParseError>(
                MeshView {
                    kind: m.kind,
                    version: m.version,
                    string_table: m.string_table,
                    materials: materials2,
                    vertices: m.vertices,
                    triangles: m.triangles,
                    bone_count: m.bone_count,
                    uv_marker: m.uv_marker,
                    trailing_data: m.trailing_data,
                },
            )
        }),
{
    let ts = triangle_step(counts[2]);
    assert forall|q: int| 0 <= q implies #[trigger] bytes::step_local(ts, s, t, q) by {
        lemma_triangle_local(s, t, counts[2], q);
    }
    bytes::lemma_repeat_local(ts, s, t, pos, counts[3] as nat);
    if let Ok((triangles, p1)) = bytes::repeat(ts, s, pos, counts[3] as nat) {
        lemma_secondary_uvs_local(s, t, kind, version, vertices, p1);
        lemma_secondary_uvs(s, s, kind, version, vertices, p1);
        if let Ok(((vs, marker), p2)) = secondary_uvs_spec(s, kind, version, vertices, p1) {
            assert(t.skip(p2) =~= s.skip(p2));
        }
    }
}

/// The property `p` with its raw value replaced.
pub open spec fn property_with_value(p: PropertyView, value: u32) -> PropertyView {
    PropertyView { name_offset: p.name_offset, kind: p.kind, value }
}

/// The material `m` with the raw value of its property `j` replaced.
pub open spec fn material_with_property_value(m: MaterialView, j: int, value: u32) -> MaterialView {
    MaterialView {
        index: m.index,
        name_offset: m.name_offset,
        shader_offset: m.shader_offset,
        properties: m.properties.update(j, property_with_value(m.properties[j], value)),
    }
}

/// The mesh `m` with the raw value of property `j` of its material `i`
/// replaced.
pub open spec fn mesh_with_property_value(m: MeshView, i: int, j: int, value: u32) -> MeshView {
    MeshView {
        kind: m.kind,
        version: m.version,
        string_table: m.string_table,
        materials: m.materials.update(i, material_with_property_value(m.materials[i], j, value)),
        vertices: m.vertices,
        triangles: m.triangles,
        bone_count: m.bone_count,
        uv_marker: m.uv_marker,
        trailing_data: m.trailing_data,
    }
}

proof fn lemma_property_value_replaced(s: Seq<u8>, t: Seq<u8>, table: Seq<u8>, pos: int)
    requires
        0 <= pos,
        t.len() == s.len(),
        property_spec(s, table, pos) is Ok,
        property_spec(s, table, pos)->Ok_0.0.kind != 2,
        bytes::same_between(s, t, pos, pos + 8),
    ensures
        property_spec(t, table, pos) == Ok::<(PropertyView, int), ParseError>(
            (
                property_with_value(property_spec(s, table, pos)->Ok_0.0, bytes::le_u32(t, pos + 8)),
                pos + 12,
            ),
        ),
{
    bytes::lemma_le_words_between(s, t, pos, 2);
    let ws = bytes::le_words(s, pos, 3);
    let wt = bytes::le_words(t, pos, 3);
    assert(ws[0] == bytes::le_words(s, pos, 2)[0]);
    assert(ws[1] == bytes::le_words(s, pos, 2)[1]);
    assert(wt[0] == bytes::le_words(t, pos, 2)[0]);
    assert(wt[1] == bytes::le_words(t, pos, 2)[1]);
    assert(wt[2] == bytes::le_u32(t, pos + 8));
}

#[verifier::rlimit(40)]
proof fn lemma_material_value_replaced(
    s: Seq<u8>,
    t: Seq<u8>,
    table: Seq<u8>,
    pos: int,
    j: int,
)
    requires
        0 <= pos,
        t.len() == s.len(),
        material_spec(s, table, pos) is Ok,
        0 <= j < material_spec(s, table, pos)->Ok_0.0.properties.len(),
        material_spec(s, table, pos)->Ok_0.0.properties[j].kind != 2,
        bytes::same_between(s, t, pos, pos + 24 + 12 * j),
        bytes::same_between(s, t, pos + 28 + 12 * j, s.len() as int),
    ensures
        material_spec(t, table, pos) == Ok::<(MaterialView, int), ParseError>(
            (
                material_with_property_value(
                    material_spec(s, table, pos)->Ok_0.0,
                    j,
                    bytes::le_u32(t, pos + 24 + 12 * j),
                ),
                material_spec(s, table, pos)->Ok_0.1,
            ),
        ),
{
    let m = material_spec(s, table, pos)->Ok_0.0;
    bytes::lemma_le_words_between(s, t, pos, 4);
    let count = bytes::le_words(s, pos, 4)[3];
    let ps = property_step(table);
    let size = bytes::const_size::<PropertyView>(12);
    let start = pos + 16;
    assert forall|q: int| 0 <= q implies #[trigger] bytes::step_local(ps, s, t, q)
        && bytes::step_consumes(ps, s, q, size) by {
        lemma_property_local(s, t, table, q);
        lemma_property_step(s, s, table, q);
    }
    let props = m.properties;
    assert(bytes::repeat(ps, s, start, count as nat) is Ok);
    bytes::lemma_repeat_len(ps, s, start, count as nat);
    bytes::lemma_repeat_local(ps, s, t, start, count as nat);
    bytes::lemma_repeat_prefix(ps, s, start, count as nat, j as nat);
    bytes::lemma_repeat_consumes(ps, s, start, j as nat, size);
    bytes::lemma_total_const(props.take(j), 12);
    bytes::lemma_repeat_item_at(ps, s, start, count as nat, size, j);
    let p = start + 12 * j;
    assert(property_spec(s, table, p) == Ok::<(PropertyView, int), ParseError>((props[j], p + 12)));
    lemma_property_value_replaced(s, t, table, p);
    let item = property_with_value(props[j], bytes::le_u32(t, p + 8));
    bytes::lemma_repeat_replace_one(ps, s, t, start, j as nat, p, p + 12, item, count as nat);
}

#[verifier::rlimit(40)]
proof fn lemma_materials_value_replaced(
    s: Seq<u8>,
    t: Seq<u8>,
    table: Seq<u8>,
    start: int,
    n: nat,
    i: int,
    j: int,
)
    requires
        0 <= start <= s.len(),
        bytes::repeat(material_step(table), s, start, n) is Ok,
        0 <= i < bytes::repeat(material_step(table), s, start, n)->Ok_0.0.len(),
        0 <= j < bytes::repeat(material_step(table), s, start, n)->Ok_0.0[i].properties.len(),
        bytes::repeat(material_step(table), s, start, n)->Ok_0.0[i].properties[j].kind != 2,
        bytes::word_replaced(
            s,
            t,
            start + bytes::total(
                bytes::repeat(material_step(table), s, start, n)->Ok_0.0.take(i),
                material_size(),
            ) + 24 + 12 * j,
        ),
    ensures
        ({
            let (materials, e) = bytes::repeat(material_step(table), s, start, n)->Ok_0;
            let q = start + bytes::total(materials.take(i), material_size()) + 24 + 12 * j;
            &&& q + 4 <= e <= s.len()
            &&& bytes::repeat(material_step(table), t, start, n) == Ok::<
                (Seq<MaterialView>, int),
                ParseError,
            >(
                (
                    materials.update(
                        i,
                        material_with_property_value(materials[i], j, bytes::le_u32(t, q)),
                    ),
                    e,
                ),
            )
        }),
{
    let ms = material_step(table);
    let size = material_size();
    assert forall|q: int| 0 <= q implies #[trigger] bytes::step_local(ms, s, t, q) by {
        lemma_material_local(s, t, table, q);
    }
    assert forall|q: int| 0 <= q implies #[trigger] bytes::step_consumes(ms, s, q, size) by {
        lemma_material_step(s, s, table, q);
    }
    let materials = bytes::repeat(ms, s, start, n)->Ok_0.0;
    bytes::lemma_repeat_len(ms, s, start, n);
    bytes::lemma_repeat_local(ms, s, t, start, n);
    bytes::lemma_repeat_prefix(ms, s, start, n, i as nat);
    bytes::lemma_repeat_consumes(ms, s, start, i as nat, size);
    bytes::lemma_repeat_item_at(ms, s, start, n, size, i);
    let pi = start + bytes::total(materials.take(i), size);
    let mi = materials[i];
    let ei = pi + 16 + 12 * mi.properties.len();
    let q = pi + 24 + 12 * j;
    assert(material_spec(s, table, pi) == Ok::<(MaterialView, int), ParseError>((mi, ei)));
    lemma_material_value_replaced(s, t, table, pi, j);
    let mat2 = material_with_property_value(mi, j, bytes::le_u32(t, q));
    bytes::lemma_repeat_replace_one(ms, s, t, start, i as nat, pi, ei, mat2, n);
}

#[verifier::rlimit(40)]
proof fn lemma_body_value_replaced(
    s: Seq<u8>,
    t: Seq<u8>,
    kind: MeshKind,
    version: u32,
    counts: Seq<u32>,
    bone_count: Option<u32>,
    pos: int,
    i: int,
    j: int,
)
    requires
        counts.len() == 4,
        0 <= pos <= s.len(),
        body_spec(s, kind, version, counts, bone_count, pos) is Ok,
        0 <= i < body_spec(s, kind, version, counts, bone_count, pos)->Ok_0.materials.len(),
        0 <= j < body_spec(
            s,
            kind,
            version,
            counts,
            bone_count,
            pos,
        )->Ok_0.materials[i].properties.len(),
        body_spec(s, kind, version, counts, bone_count, pos)->Ok_0.materials[i].properties[j].kind
            != 2,
        bytes::word_replaced(
            s,
            t,
            pos + counts[0] + bytes::total(
                body_spec(s, kind, version, counts, bone_count, pos)->Ok_0.materials.take(i),
                material_size(),
            ) + 24 + 12 * j,
        ),
    ensures
        ({
            let m = body_spec(s, kind, version, counts, bone_count, pos)->Ok_0;
            let q = pos + counts[0] + bytes::total(m.materials.take(i), material_size()) + 24 + 12
                * j;
            body_spec(t, kind, version, counts, bone_count, pos) == Ok::<MeshView, ParseError>(
                mesh_with_property_value(m, i, j, bytes::le_u32(t, q)),
            )
        }),
{
    reveal(body_spec);
    let table_end = pos + counts[0];
    let table = s.subrange(pos, table_end);
    let c1 = counts[1] as nat;
    let (materials, p1) = bytes::repeat(material_step(table), s, table_end, c1)->Ok_0;
    let q = table_end + bytes::total(materials.take(i), material_size()) + 24 + 12 * j;
    lemma_materials_total_nonnegative(materials.take(i));
    lemma_materials_value_replaced(s, t, table, table_end, c1, i, j);
    let mat2 = material_with_property_value(materials[i], j, bytes::le_u32(t, q));
    assert(t.subrange(pos, table_end) =~= table);
    let vs = vertex_step(version);
    assert forall|r: int| 0 <= r implies #[trigger] bytes::step_local(vs, s, t, r) by {
        lemma_vertex_local(s, t, version, r);
    }
    bytes::lemma_repeat_local(vs, s, t, p1, counts[2] as nat);
    if let Ok((vertices, p2)) = bytes::repeat(vs, s, p1, counts[2] as nat) {
        lemma_rest_local(
            s,
            t,
            kind,
            version,
            counts,
            bone_count,
            table,
            materials,
            materials.update(i, mat2),
            vertices,
            p2,
        );
    }
}

proof fn lemma_materials_total_nonnegative(materials: Seq<MaterialView>)
    ensures
        bytes::total(materials, material_size()) >= 0,
    decreases materials.len(),
{
    if materials.len() > 0 {
        lemma_materials_total_nonnegative(materials.drop_last());
    }
}

/// Where the value word of property `j` of material `i` of the mesh `m`
/// parsed from `s` stands: after the header (and the model bone count), the
/// string table, the materials before `i`, the four words of material `i` and
/// the `j` property records before it, as the third word of its record.
pub open spec fn property_value_at(s: Seq<u8>, m: MeshView, i: int, j: int) -> int {
    let header_end: int = if m.kind == MeshKind::Model {
        28
    } else {
        24
    };
    header_end + bytes::le_words(s, 8, 4)[0] + bytes::total(m.materials.take(i), material_size())
        + 24 + 12 * j
}

/// Only the value of a property of type 2 is checked, as a string offset:
/// in a mesh that parses, the value word of a property of any other type may
/// hold any four bytes, and the mesh still parses, with that property's value
/// now the new word and everything else as before.
pub proof fn lemma_untyped_property_value_unchecked(s: Seq<u8>, t: Seq<u8>, i: int, j: int)
    requires
        parse_spec(s) is Ok,
        0 <= i < parse_spec(s)->Ok_0.materials.len(),
        0 <= j < parse_spec(s)->Ok_0.materials[i].properties.len(),
        parse_spec(s)->Ok_0.materials[i].properties[j].kind != 2,
        bytes::word_replaced(s, t, property_value_at(s, parse_spec(s)->Ok_0, i, j)),
    ensures
        parse_spec(t) == Ok::<MeshView, ParseError>(
            mesh_with_property_value(
                parse_spec(s)->Ok_0,
                i,
                j,
                bytes::le_u32(t, property_value_at(s, parse_spec(s)->Ok_0, i, j)),
            ),
        ),
{
    let m = parse_spec(s)->Ok_0;
    let q = property_value_at(s, m, i, j);
    let version = bytes::le_u32(s, 4);
    let counts = bytes::le_words(s, 8, 4);
    let kind = if bytes::has_prefix(s, crate::terrain_signature()) {
        MeshKind::Terrain
    } else {
        MeshKind::Model
    };
    let pos: int = if kind == MeshKind::Model {
        28
    } else {
        24
    };
    let bone_count = if kind == MeshKind::Model {
        Some(bytes::le_u32(s, 24))
    } else {
        None
    };
    lemma_parsed_mesh_layout(s);
    assert(parse_spec(s) == body_spec(s, kind, version, counts, bone_count, pos));
    lemma_materials_total_nonnegative(m.materials.take(i));
    lemma_body_value_replaced(s, t, kind, version, counts, bone_count, pos, i, j);
    lemma_mesh_header_kept(s, t);
}

// ---------------------------------------------------------------------------
// What each error says of the input.
// ---------------------------------------------------------------------------

/// A shortfall error reports where the read started, the bytes it needed and
/// the fewer bytes that were left of the `len` input bytes from there.
pub open spec fn shortfall_explained(e: ParseError, len: int) -> bool {
    e matches ParseError::Truncated { offset, needed, remaining, .. } && offset + remaining == len
        && remaining < needed
}

/// An error of the geometry after the header of `len` input bytes, read with
/// the string table `table` and a vertex count: a shortfall as
/// [`shortfall_explained`] says, a string reference error names an offset with
/// no terminator in the table, and a vertex reference error names an index at
/// or past the vertex count, which it reports; a count overflow comes only
/// where `usize` is narrower than 40 bits.
pub open spec fn body_error_explained(table: Seq<u8>, vertex_count: u32, len: int) -> spec_fn(
    ParseError,
) -> bool {
    |e: ParseError|
        match e {
            ParseError::InvalidMagic => false,
            ParseError::UnsupportedVersion { .. } => false,
            ParseError::Truncated { .. } => shortfall_explained(e, len),
            ParseError::InvalidStringReference { offset } => !bytes::terminates(
                table,
                offset as int,
            ),
            ParseError::InvalidVertexReference { index, vertex_count: reported } => reported
                == vertex_count && index >= vertex_count,
            ParseError::CountOverflow { .. } => usize::MAX < 0x100_0000_0000,
        }
}

proof fn lemma_take_fails(s: Seq<u8>, pos: int, n: int, context: &'static str)
    requires
        0 <= pos <= s.len() <= usize::MAX,
        0 <= n,
    ensures
        n <= usize::MAX ==> (take_spec(s, pos, n, context) matches Err(e) ==> shortfall_explained(
            e,
            s.len() as int,
        )),
{
}

proof fn lemma_words_fail(s: Seq<u8>, pos: int, n: nat, context: &'static str)
    requires
        0 <= pos <= s.len() <= usize::MAX,
    ensures
        words_spec(s, pos, n, context) matches Err(e) ==> shortfall_explained(e, s.len() as int),
        word_spec(s, pos, context) matches Err(e) ==> shortfall_explained(e, s.len() as int),
{
    let k = (s.len() - pos) / 4;
    assert(0 <= s.len() - pos - 4 * k < 4);
}

proof fn lemma_property_errors(s: Seq<u8>, table: Seq<u8>, vertex_count: u32, pos: int)
    requires
        0 <= pos <= s.len() <= usize::MAX,
    ensures
        bytes::step_fails_with(
            property_step(table),
            s,
            pos,
            body_error_explained(table, vertex_count, s.len() as int),
        ),
{
    lemma_words_fail(s, pos, 3, "property");
}

proof fn lemma_material_errors(s: Seq<u8>, table: Seq<u8>, vertex_count: u32, pos: int)
    requires
        0 <= pos <= s.len() <= usize::MAX,
    ensures
        bytes::step_fails_with(
            material_step(table),
            s,
            pos,
            body_error_explained(table, vertex_count, s.len() as int),
        ),
{
    let ps = property_step(table);
    let p = body_error_explained(table, vertex_count, s.len() as int);
    assert forall|q: int| 0 <= q <= s.len() implies #[trigger] bytes::step_fails_with(
        ps,
        s,
        q,
        p,
    ) by {
        lemma_property_errors(s, table, vertex_count, q);
    }
    assert forall|q: int| 0 <= q implies #[trigger] bytes::step_local(ps, s, s, q) by {
        lemma_property_local(s, s, table, q);
    }
    lemma_words_fail(s, pos, 4, "material");
    if pos + 16 <= s.len() {
        let count = bytes::le_words(s, pos, 4)[3];
        lemma_take_fails(s, pos + 16, count * 12, "material properties");
        bytes::lemma_repeat_fails_with(ps, s, pos + 16, count as nat, p);
    }
}

proof fn lemma_vertex_errors(
    s: Seq<u8>,
    table: Seq<u8>,
    version: u32,
    vertex_count: u32,
    pos: int,
)
    requires
        0 <= pos <= s.len() <= usize::MAX,
    ensures
        bytes::step_fails_with(
            vertex_step(version),
            s,
            pos,
            body_error_explained(table, vertex_count, s.len() as int),
        ),
{
    lemma_words_fail(s, pos, 3, "position");
    if pos + 12 <= s.len() {
        lemma_words_fail(s, pos + 12, 3, "normal");
    }
    if pos + 24 <= s.len() {
        lemma_words_fail(s, pos + 24, 1, "color");
        lemma_words_fail(s, pos + 24, 2, "primary UV");
    }
    if pos + 28 <= s.len() {
        lemma_words_fail(s, pos + 28, 2, "primary UV");
    }
    if pos + 32 <= s.len() {
        lemma_words_fail(s, pos + 32, 2, "secondary UV");
    }
    if pos + 36 <= s.len() {
        lemma_words_fail(s, pos + 36, 2, "secondary UV");
    }
}

proof fn lemma_triangle_errors(s: Seq<u8>, table: Seq<u8>, vertex_count: u32, pos: int)
    requires
        0 <= pos <= s.len() <= usize::MAX,
    ensures
        bytes::step_fails_with(
            triangle_step(vertex_count),
            s,
            pos,
            body_error_explained(table, vertex_count, s.len() as int),
        ),
{
    lemma_words_fail(s, pos, 3, "triangle vertices");
    if pos + 12 <= s.len() {
        lemma_words_fail(s, pos + 12, 1, "triangle material");
    }
    if pos + 16 <= s.len() {
        lemma_words_fail(s, pos + 16, 1, "triangle flags");
    }
}

proof fn lemma_rest_errors(
    s: Seq<u8>,
    kind: MeshKind,
    version: u32,
    counts: Seq<u32>,
    bone_count: Option<u32>,
    table: Seq<u8>,
    materials: Seq<MaterialView>,
    vertices: Seq<VertexView>,
    pos: int,
)
    requires
        counts.len() == 4,
        0 <= pos <= s.len() <= usize::MAX,
        vertices.len() == counts[2],
    ensures
        triangles_and_rest_spec(s, kind, version, counts, bone_count, table, materials, vertices, pos)
            matches Err(e) ==> body_error_explained(table, counts[2], s.len() as int)(e),
{
    let p = body_error_explained(table, counts[2], s.len() as int);
    let ts = triangle_step(counts[2]);
    assert forall|q: int| 0 <= q <= s.len() implies #[trigger] bytes::step_fails_with(
        ts,
        s,
        q,
        p,
    ) by {
        lemma_triangle_errors(s, table, counts[2], q);
    }
    assert forall|q: int| 0 <= q implies #[trigger] bytes::step_local(ts, s, s, q) by {
        lemma_triangle_local(s, s, counts[2], q);
    }
    lemma_take_fails(s, pos, 20 * counts[3], "triangles");
    bytes::lemma_repeat_fails_with(ts, s, pos, counts[3] as nat, p);
    bytes::lemma_repeat_local(ts, s, s, pos, counts[3] as nat);
    if let Ok((triangles, p1)) = bytes::repeat(ts, s, pos, counts[3] as nat) {
        lemma_words_fail(s, p1, 1, "UV marker");
        if p1 + 4 <= s.len() {
            lemma_take_fails(s, p1 + 4, (vertices.len() * 8) as int, "secondary UVs");
        }
    }
}

proof fn lemma_body_errors(
    s: Seq<u8>,
    kind: MeshKind,
    version: u32,
    counts: Seq<u32>,
    bone_count: Option<u32>,
    pos: int,
)
    requires
        counts.len() == 4,
        0 <= pos <= s.len() <= usize::MAX,
    ensures
        body_spec(s, kind, version, counts, bone_count, pos) matches Err(e) ==> body_error_explained(
            s.subrange(pos, pos + counts[0]),
            counts[2],
            s.len() as int,
        )(e),
{
    reveal(body_spec);
    let table = s.subrange(pos, pos + counts[0]);
    let p = body_error_explained(table, counts[2], s.len() as int);
    let ms = material_step(table);
    let vs = vertex_step(version);
    assert forall|q: int| 0 <= q <= s.len() implies #[trigger] bytes::step_fails_with(
        ms,
        s,
        q,
        p,
    ) by {
        lemma_material_errors(s, table, counts[2], q);
    }
    assert forall|q: int| 0 <= q <= s.len() implies #[trigger] bytes::step_fails_with(
        vs,
        s,
        q,
        p,
    ) by {
        lemma_vertex_errors(s, table, version, counts[2], q);
    }
    assert forall|q: int| 0 <= q implies #[trigger] bytes::step_local(ms, s, s, q) by {
        lemma_material_local(s, s, table, q);
    }
    assert forall|q: int| 0 <= q implies #[trigger] bytes::step_local(vs, s, s, q) by {
        lemma_vertex_local(s, s, version, q);
    }
    let minimum = minimum_size(version, counts);
    lemma_take_fails(s, pos, minimum, "counted records");
    if minimum <= usize::MAX && minimum <= s.len() - pos {
        let table_end = pos + counts[0];
        bytes::lemma_repeat_fails_with(ms, s, table_end, counts[1] as nat, p);
        bytes::lemma_repeat_local(ms, s, s, table_end, counts[1] as nat);
        if let Ok((materials, p1)) = bytes::repeat(ms, s, table_end, counts[1] as nat) {
            lemma_take_fails(s, p1, vertex_bytes(version, counts[2]), "vertices");
            bytes::lemma_repeat_fails_with(vs, s, p1, counts[2] as nat, p);
            bytes::lemma_repeat_local(vs, s, s, p1, counts[2] as nat);
            bytes::lemma_repeat_len(vs, s, p1, counts[2] as nat);
            if let Ok((vertices, p2)) = bytes::repeat(vs, s, p1, counts[2] as nat) {
                lemma_rest_errors(
                    s,
                    kind,
                    version,
                    counts,
                    bone_count,
                    table,
                    materials,
                    vertices,
                    p2,
                );
            }
        }
    }
}

/// The string table that the header of `s` announces: after the header
/// (and, for a model, the bone count), as many bytes as the first count.
pub open spec fn announced_string_table(s: Seq<u8>) -> Seq<u8> {
    let header_end: int = if bytes::has_prefix(s, crate::terrain_signature()) {
        24
    } else {
        28
    };
    s.subrange(header_end, header_end + bytes::le_words(s, 8, 4)[0])
}

/// Every error names what is wrong with the input: a bad magic is neither
/// signature, an unsupported version is the version word and outside 1 to 3,
/// a shortfall reports where the read started, the bytes it needed and the
/// fewer bytes left from there, a string reference error names an offset
/// with no terminator in the string table, a vertex reference error names an
/// index at or past the vertex count of the header, which it reports, and a
/// count overflow comes only where `usize` is narrower than 40 bits (never on
/// a 64-bit target).
pub proof fn lemma_parse_errors_explained(s: Seq<u8>)
    requires
        s.len() <= usize::MAX,
    ensures
        parse_spec(s) matches Err(e) ==> match e {
            ParseError::InvalidMagic => s.len() >= 4 && !bytes::has_prefix(
                s,
                crate::terrain_signature(),
            ) && !bytes::has_prefix(s, crate::model_signature()),
            ParseError::UnsupportedVersion { version } => version == bytes::le_u32(s, 4) && (
            version < 1 || version > 3),
            ParseError::Truncated { .. } => shortfall_explained(e, s.len() as int),
            ParseError::InvalidStringReference { offset } => !bytes::terminates(
                announced_string_table(s),
                offset as int,
            ),
            ParseError::InvalidVertexReference { index, vertex_count } => vertex_count
                == bytes::le_words(s, 8, 4)[2] && index >= vertex_count,
            ParseError::CountOverflow { .. } => usize::MAX < 0x100_0000_0000,
        },
{
    let kind = if bytes::has_prefix(s, crate::terrain_signature()) {
        MeshKind::Terrain
    } else {
        MeshKind::Model
    };
    let pos: int = if kind == MeshKind::Model {
        28
    } else {
        24
    };
    let bone_count = if kind == MeshKind::Model {
        Some(bytes::le_u32(s, 24))
    } else {
        None
    };
    let counts = bytes::le_words(s, 8, 4);
    if s.len() >= 4 {
        lemma_words_fail(s, 4, 1, "version");
    }
    if s.len() >= 8 {
        lemma_words_fail(s, 8, 4, "header");
    }
    if s.len() >= 24 {
        lemma_words_fail(s, 24, 1, "bone count");
    }
    if pos <= s.len() {
        lemma_body_errors(s, kind, bytes::le_u32(s, 4), counts, bone_count, pos);
    }
}

// ---------------------------------------------------------------------------
// Triangle attributes are carried, not checked.
// ---------------------------------------------------------------------------

/// The mesh `m` with the material reference and flags of triangle `k`
/// replaced.
pub open spec fn with_triangle_attributes(
    m: MeshView,
    k: int,
    material_index: u32,
    flags: u32,
) -> MeshView {
    MeshView {
        kind: m.kind,
        version: m.version,
        string_table: m.string_table,
        materials: m.materials,
        vertices: m.vertices,
        triangles: m.triangles.update(
            k,
            TriangleView { vertex_indices: m.triangles[k].vertex_indices, material_index, flags },
        ),
        bone_count: m.bone_count,
        uv_marker: m.uv_marker,
        trailing_data: m.trailing_data,
    }
}

#[verifier::rlimit(40)]
proof fn lemma_rest_triangle_replaced(
    s: Seq<u8>,
    t: Seq<u8>,
    kind: MeshKind,
    version: u32,
    counts: Seq<u32>,
    bone_count: Option<u32>,
    table: Seq<u8>,
    materials: Seq<MaterialView>,
    vertices: Seq<VertexView>,
    pos: int,
    k: int,
)
    requires
        counts.len() == 4,
        0 <= pos <= s.len(),
        0 <= k < counts[3],
        triangles_and_rest_spec(s, kind, version, counts, bone_count, table, materials, vertices, pos)
            is Ok,
        bytes::range_replaced(s, t, pos + 20 * k + 12, pos + 20 * k + 20),
    ensures
        triangles_and_rest_spec(t, kind, version, counts, bone_count, table, materials, vertices, pos)
            == Ok::<MeshView, ParseError>(
            with_triangle_attributes(
                triangles_and_rest_spec(
                    s,
                    kind,
                    version,
                    counts,
                    bone_count,
                    table,
                    materials,
                    vertices,
                    pos,
                )->Ok_0,
                k,
                bytes::le_u32(t, pos + 20 * k + 12),
                bytes::le_u32(t, pos + 20 * k + 16),
            ),
        ),
{
    let vc = counts[2];
    let ts = triangle_step(vc);
    let size = bytes::const_size::<TriangleView>(20);
    assert forall|q: int| 0 <= q implies #[trigger] bytes::step_local(ts, s, t, q) by {
        lemma_triangle_local(s, t, vc, q);
    }
    assert forall|q: int| 0 <= q implies #[trigger] bytes::step_consumes(ts, s, q, size) by {
        lemma_triangle_step(s, s, vc, q);
    }
    let c3 = counts[3] as nat;
    let (triangles, p1) = bytes::repeat(ts, s, pos, c3)->Ok_0;
    bytes::lemma_repeat_len(ts, s, pos, c3);
    bytes::lemma_repeat_local(ts, s, t, pos, c3);
    bytes::lemma_repeat_prefix(ts, s, pos, c3, k as nat);
    bytes::lemma_repeat_consumes(ts, s, pos, k as nat, size);
    bytes::lemma_total_const(triangles.take(k), 20);
    bytes::lemma_repeat_item_at(ts, s, pos, c3, size, k);
    let at = pos + 20 * k;
    assert(triangle_spec(s, vc, at) == Ok::<(TriangleView, int), ParseError>((triangles[k], at + 20)));
    lemma_words_local(s, t, at, 3, "triangle vertices");
    let item = TriangleView {
        vertex_indices: triangles[k].vertex_indices,
        material_index: bytes::le_u32(t, at + 12),
        flags: bytes::le_u32(t, at + 16),
    };
    assert(triangle_spec(t, vc, at) == Ok::<(TriangleView, int), ParseError>((item, at + 20)));
    bytes::lemma_repeat_replace_one(ts, s, t, pos, k as nat, at, at + 20, item, c3);
    lemma_secondary_uvs_local(s, t, kind, version, vertices, p1);
    lemma_secondary_uvs(s, s, kind, version, vertices, p1);
    if let Ok(((vs, marker), p2)) = secondary_uvs_spec(s, kind, version, vertices, p1) {
        assert(t.skip(p2) =~= s.skip(p2));
    }
}

#[verifier::rlimit(40)]
proof fn lemma_body_triangle_replaced(
    s: Seq<u8>,
    t: Seq<u8>,
    kind: MeshKind,
    version: u32,
    counts: Seq<u32>,
    bone_count: Option<u32>,
    pos: int,
    k: int,
    at: int,
)
    requires
        counts.len() == 4,
        0 <= pos <= s.len(),
        0 <= k < counts[3],
        body_spec(s, kind, version, counts, bone_count, pos) is Ok,
        at == pos + counts[0] + bytes::total(
            body_spec(s, kind, version, counts, bone_count, pos)->Ok_0.materials,
            material_size(),
        ) + vertex_stride(version) * counts[2] + 20 * k,
        bytes::range_replaced(s, t, at + 12, at + 20),
    ensures
        body_spec(t, kind, version, counts, bone_count, pos) == Ok::<MeshView, ParseError>(
            with_triangle_attributes(
                body_spec(s, kind, version, counts, bone_count, pos)->Ok_0,
                k,
                bytes::le_u32(t, at + 12),
                bytes::le_u32(t, at + 16),
            ),
        ),
{
    reveal(body_spec);
    let table_end = pos + counts[0];
    let table = s.subrange(pos, table_end);
    let ms = material_step(table);
    let vs = vertex_step(version);
    let msize = material_size();
    let vsize = bytes::const_size::<VertexView>(vertex_stride(version));
    assert forall|q: int| 0 <= q implies #[trigger] bytes::step_local(ms, s, t, q) by {
        lemma_material_local(s, t, table, q);
    }
    assert forall|q: int| 0 <= q implies #[trigger] bytes::step_consumes(ms, s, q, msize) by {
        lemma_material_step(s, s, table, q);
    }
    assert forall|q: int| 0 <= q implies #[trigger] bytes::step_local(vs, s, t, q) by {
        lemma_vertex_local(s, t, version, q);
    }
    assert forall|q: int| 0 <= q implies #[trigger] bytes::step_consumes(vs, s, q, vsize) by {
        lemma_vertex_step(s, s, version, q);
    }
    let c1 = counts[1] as nat;
    let c2 = counts[2] as nat;
    let (materials, p1) = bytes::repeat(ms, s, table_end, c1)->Ok_0;
    bytes::lemma_repeat_local(ms, s, t, table_end, c1);
    bytes::lemma_repeat_consumes(ms, s, table_end, c1, msize);
    let (vertices, p2) = bytes::repeat(vs, s, p1, c2)->Ok_0;
    bytes::lemma_repeat_local(vs, s, t, p1, c2);
    bytes::lemma_repeat_len(vs, s, p1, c2);
    bytes::lemma_repeat_consumes(vs, s, p1, c2, vsize);
    bytes::lemma_total_const(vertices, vertex_stride(version));
    assert(at == p2 + 20 * k);
    assert(t.subrange(pos, table_end) =~= table);
    lemma_rest_triangle_replaced(
        s,
        t,
        kind,
        version,
        counts,
        bone_count,
        table,
        materials,
        vertices,
        p2,
        k,
    );
}

/// Where triangle `k` of the mesh `m` parsed from `s` starts: after the
/// header (and the model bone count), the string table, the materials and
/// the vertices, the 20-byte triangles follow one after the other.
pub open spec fn triangle_at(s: Seq<u8>, m: MeshView, k: int) -> int {
    let header_end: int = if m.kind == MeshKind::Model {
        28
    } else {
        24
    };
    let counts = bytes::le_words(s, 8, 4);
    header_end + counts[0] + bytes::total(m.materials, material_size()) + vertex_stride(m.version)
        * counts[2] + 20 * k
}

/// A triangle's material reference and flags are carried, never checked: in
/// a mesh that parses, the last eight bytes of any triangle record may hold
/// any bytes, and the mesh still parses, with that triangle's material
/// reference and flags now the two words they hold and everything else as
/// before.
pub proof fn lemma_triangle_attributes_unchecked(s: Seq<u8>, t: Seq<u8>, k: int)
    requires
        parse_spec(s) is Ok,
        0 <= k < parse_spec(s)->Ok_0.triangles.len(),
        bytes::range_replaced(
            s,
            t,
            triangle_at(s, parse_spec(s)->Ok_0, k) + 12,
            triangle_at(s, parse_spec(s)->Ok_0, k) + 20,
        ),
    ensures
        parse_spec(t) == Ok::<MeshView, ParseError>(
            with_triangle_attributes(
                parse_spec(s)->Ok_0,
                k,
                bytes::le_u32(t, triangle_at(s, parse_spec(s)->Ok_0, k) + 12),
                bytes::le_u32(t, triangle_at(s, parse_spec(s)->Ok_0, k) + 16),
            ),
        ),
{
    let m = parse_spec(s)->Ok_0;
    let at = triangle_at(s, m, k);
    let version = bytes::le_u32(s, 4);
    let counts = bytes::le_words(s, 8, 4);
    let kind = if bytes::has_prefix(s, crate::terrain_signature()) {
        MeshKind::Terrain
    } else {
        MeshKind::Model
    };
    let pos: int = if kind == MeshKind::Model {
        28
    } else {
        24
    };
    let bone_count = if kind == MeshKind::Model {
        Some(bytes::le_u32(s, 24))
    } else {
        None
    };
    lemma_parsed_mesh_layout(s);
    assert(parse_spec(s) == body_spec(s, kind, version, counts, bone_count, pos));
    lemma_materials_total_nonnegative(m.materials);
    lemma_body_triangle_replaced(s, t, kind, version, counts, bone_count, pos, k, at);
    lemma_mesh_header_kept(s, t);
}

/// A `t` that holds the bytes of `s` up to the end of the header (and, for a
/// model, the bone count) reads the same header.
proof fn lemma_mesh_header_kept(s: Seq<u8>, t: Seq<u8>)
    requires
        t.len() == s.len(),
        bytes::same_between(s, t, 0, 24),
        !bytes::has_prefix(s, crate::terrain_signature()) ==> bytes::same_between(s, t, 24, 28),
    ensures
        bytes::has_prefix(t, crate::terrain_signature()) == bytes::has_prefix(
            s,
            crate::terrain_signature(),
        ),
        bytes::has_prefix(t, crate::model_signature()) == bytes::has_prefix(
            s,
            crate::model_signature(),
        ),
        bytes::le_u32(t, 4) == bytes::le_u32(s, 4),
        bytes::le_words(t, 8, 4) == bytes::le_words(s, 8, 4),
        !bytes::has_prefix(s, crate::terrain_signature()) ==> bytes::le_u32(t, 24) == bytes::le_u32(
            s,
            24,
        ),
{
    bytes::lemma_le_words_between(s, t, 4, 5);
    assert(bytes::le_u32(s, 4) == bytes::le_words(s, 4, 5)[0]);
    assert(bytes::le_u32(t, 4) == bytes::le_words(t, 4, 5)[0]);
    bytes::lemma_le_words_between(s, t, 8, 4);
    if !bytes::has_prefix(s, crate::terrain_signature()) {
        bytes::lemma_le_words_between(s, t, 24, 1);
        assert(bytes::le_u32(s, 24) == bytes::le_words(s, 24, 1)[0]);
        assert(bytes::le_u32(t, 24) == bytes::le_words(t, 24, 1)[0]);
    }
}

// ---------------------------------------------------------------------------
// Material indices are carried, not checked.
// ---------------------------------------------------------------------------

/// The mesh `m` with its materials replaced.
pub open spec fn with_materials(m: MeshView, materials: Seq<MaterialView>) -> MeshView {
    MeshView {
        kind: m.kind,
        version: m.version,
        string_table: m.string_table,
        materials,
        vertices: m.vertices,
        triangles: m.triangles,
        bone_count: m.bone_count,
        uv_marker: m.uv_marker,
        trailing_data: m.trailing_data,
    }
}

/// Where the materials come out otherwise on `t`, but end at the same place,
/// and `t` holds the same string table and the same bytes after the
/// materials, the mesh differs in its materials alone.
proof fn lemma_body_materials_replaced(
    s: Seq<u8>,
    t: Seq<u8>,
    kind: MeshKind,
    version: u32,
    counts: Seq<u32>,
    bone_count: Option<u32>,
    pos: int,
    materials2: Seq<MaterialView>,
)
    requires
        counts.len() == 4,
        0 <= pos <= s.len(),
        t.len() == s.len(),
        body_spec(s, kind, version, counts, bone_count, pos) is Ok,
        bytes::same_between(s, t, pos, pos + counts[0]),
        bytes::repeat(
            material_step(s.subrange(pos, pos + counts[0])),
            t,
            pos + counts[0],
            counts[1] as nat,
        ) == Ok::<(Seq<MaterialView>, int), ParseError>(
            (
                materials2,
                bytes::repeat(
                    material_step(s.subrange(pos, pos + counts[0])),
                    s,
                    pos + counts[0],
                    counts[1] as nat,
                )->Ok_0.1,
            ),
        ),
        bytes::same_between(
            s,
            t,
            bytes::repeat(
                material_step(s.subrange(pos, pos + counts[0])),
                s,
                pos + counts[0],
                counts[1] as nat,
            )->Ok_0.1,
            s.len() as int,
        ),
    ensures
        body_spec(t, kind, version, counts, bone_count, pos) == Ok::<MeshView, ParseError>(
            with_materials(body_spec(s, kind, version, counts, bone_count, pos)->Ok_0, materials2),
        ),
{
    reveal(body_spec);
    let table_end = pos + counts[0];
    let table = s.subrange(pos, table_end);
    let (materials, p1) = bytes::repeat(material_step(table), s, table_end, counts[1] as nat)->Ok_0;
    assert forall|q: int| 0 <= q implies #[trigger] bytes::step_local(material_step(table), s, s, q) by {
        lemma_material_local(s, s, table, q);
    }
    bytes::lemma_repeat_local(material_step(table), s, s, table_end, counts[1] as nat);
    assert(t.subrange(pos, table_end) =~= table);
    let vs = vertex_step(version);
    assert forall|r: int| 0 <= r implies #[trigger] bytes::step_local(vs, s, t, r) by {
        lemma_vertex_local(s, t, version, r);
    }
    bytes::lemma_repeat_local(vs, s, t, p1, counts[2] as nat);
    if let Ok((vertices, p2)) = bytes::repeat(vs, s, p1, counts[2] as nat) {
        lemma_rest_local(
            s,
            t,
            kind,
            version,
            counts,
            bone_count,
            table,
            materials,
            materials2,
            vertices,
            p2,
        );
    }
}

/// The material `m` with its index replaced.
pub open spec fn with_index(m: MaterialView, index: u32) -> MaterialView {
    MaterialView {
        index,
        name_offset: m.name_offset,
        shader_offset: m.shader_offset,
        properties: m.properties,
    }
}

proof fn lemma_material_index_replaced(s: Seq<u8>, t: Seq<u8>, table: Seq<u8>, pos: int)
    requires
        0 <= pos,
        material_spec(s, table, pos) is Ok,
        bytes::word_replaced(s, t, pos),
    ensures
        material_spec(t, table, pos) == Ok::<(MaterialView, int), ParseError>(
            (
                with_index(material_spec(s, table, pos)->Ok_0.0, bytes::le_u32(t, pos)),
                material_spec(s, table, pos)->Ok_0.1,
            ),
        ),
{
    let ps = property_step(table);
    assert forall|q: int| 0 <= q implies #[trigger] bytes::step_local(ps, s, t, q) by {
        lemma_property_local(s, t, table, q);
    }
    bytes::lemma_le_words_between(s, t, pos + 4, 3);
    let ws = bytes::le_words(s, pos, 4);
    let wt = bytes::le_words(t, pos, 4);
    let rs = bytes::le_words(s, pos + 4, 3);
    let rt = bytes::le_words(t, pos + 4, 3);
    assert(ws[1] == rs[0] && ws[2] == rs[1] && ws[3] == rs[2]);
    assert(wt[1] == rt[0] && wt[2] == rt[1] && wt[3] == rt[2]);
    bytes::lemma_repeat_local(ps, s, t, pos + 16, ws[3] as nat);
}

/// Where material `i` of the mesh `m` parsed from `s` starts: after the
/// header (and the model bone count), the string table and the materials
/// before it.
pub open spec fn material_at(s: Seq<u8>, m: MeshView, i: int) -> int {
    let header_end: int = if m.kind == MeshKind::Model {
        28
    } else {
        24
    };
    header_end + bytes::le_words(s, 8, 4)[0] + bytes::total(m.materials.take(i), material_size())
}

#[verifier::rlimit(40)]
proof fn lemma_body_index_replaced(
    s: Seq<u8>,
    t: Seq<u8>,
    kind: MeshKind,
    version: u32,
    counts: Seq<u32>,
    bone_count: Option<u32>,
    pos: int,
    i: int,
    at: int,
)
    requires
        counts.len() == 4,
        0 <= pos <= s.len(),
        body_spec(s, kind, version, counts, bone_count, pos) is Ok,
        0 <= i < body_spec(s, kind, version, counts, bone_count, pos)->Ok_0.materials.len(),
        at == pos + counts[0] + bytes::total(
            body_spec(s, kind, version, counts, bone_count, pos)->Ok_0.materials.take(i),
            material_size(),
        ),
        bytes::word_replaced(s, t, at),
    ensures
        ({
            let m = body_spec(s, kind, version, counts, bone_count, pos)->Ok_0;
            body_spec(t, kind, version, counts, bone_count, pos) == Ok::<MeshView, ParseError>(
                with_materials(m, m.materials.update(i, with_index(m.materials[i], bytes::le_u32(t, at)))),
            )
        }),
{
    reveal(body_spec);
    let table_end = pos + counts[0];
    let table = s.subrange(pos, table_end);
    let ms = material_step(table);
    let size = material_size();
    assert forall|q: int| 0 <= q implies #[trigger] bytes::step_local(ms, s, t, q) by {
        lemma_material_local(s, t, table, q);
    }
    assert forall|q: int| 0 <= q implies #[trigger] bytes::step_consumes(ms, s, q, size) by {
        lemma_material_step(s, s, table, q);
    }
    let c1 = counts[1] as nat;
    let (materials, p1) = bytes::repeat(ms, s, table_end, c1)->Ok_0;
    bytes::lemma_repeat_len(ms, s, table_end, c1);
    bytes::lemma_repeat_local(ms, s, t, table_end, c1);
    bytes::lemma_repeat_prefix(ms, s, table_end, c1, i as nat);
    bytes::lemma_repeat_consumes(ms, s, table_end, i as nat, size);
    bytes::lemma_repeat_item_at(ms, s, table_end, c1, size, i);
    let mi = materials[i];
    let ei = at + 16 + 12 * mi.properties.len();
    assert(material_spec(s, table, at) == Ok::<(MaterialView, int), ParseError>((mi, ei)));
    lemma_material_index_replaced(s, t, table, at);
    let mat2 = with_index(mi, bytes::le_u32(t, at));
    bytes::lemma_repeat_replace_one(ms, s, t, table_end, i as nat, at, ei, mat2, c1);
    lemma_materials_total_nonnegative(materials.take(i));
    lemma_body_materials_replaced(
        s,
        t,
        kind,
        version,
        counts,
        bone_count,
        pos,
        materials.update(i, mat2),
    );
}

/// A material's index is carried, never checked: in a mesh that parses, the
/// first word of any material record may hold any four bytes, and the mesh
/// still parses, with that material's index now the new word and everything
/// else as before.
pub proof fn lemma_material_index_unchecked(s: Seq<u8>, t: Seq<u8>, i: int)
    requires
        parse_spec(s) is Ok,
        0 <= i < parse_spec(s)->Ok_0.materials.len(),
        bytes::word_replaced(s, t, material_at(s, parse_spec(s)->Ok_0, i)),
    ensures
        parse_spec(t) == Ok::<MeshView, ParseError>(
            with_materials(
                parse_spec(s)->Ok_0,
                parse_spec(s)->Ok_0.materials.update(
                    i,
                    with_index(
                        parse_spec(s)->Ok_0.materials[i],
                        bytes::le_u32(t, material_at(s, parse_spec(s)->Ok_0, i)),
                    ),
                ),
            ),
        ),
{
    let m = parse_spec(s)->Ok_0;
    let at = material_at(s, m, i);
    let version = bytes::le_u32(s, 4);
    let counts = bytes::le_words(s, 8, 4);
    let kind = if bytes::has_prefix(s, crate::terrain_signature()) {
        MeshKind::Terrain
    } else {
        MeshKind::Model
    };
    let pos: int = if kind == MeshKind::Model {
        28
    } else {
        24
    };
    let bone_count = if kind == MeshKind::Model {
        Some(bytes::le_u32(s, 24))
    } else {
        None
    };
    lemma_parsed_mesh_layout(s);
    assert(parse_spec(s) == body_spec(s, kind, version, counts, bone_count, pos));
    lemma_materials_total_nonnegative(m.materials.take(i));
    lemma_body_index_replaced(s, t, kind, version, counts, bone_count, pos, i, at);
    lemma_mesh_header_kept(s, t);
}

// ---------------------------------------------------------------------------
// Vertex records are carried, not checked.
// ---------------------------------------------------------------------------

/// The vertex that a record of a version at `at` in `t` gives: three position
/// words, three normal words, in version 3 a packed color word, two primary
/// UV words and, in version 3, two secondary UV words; in the other versions
/// the secondary UV pair is `uv1`, which does not come from the record.
pub open spec fn vertex_read_at(
    t: Seq<u8>,
    version: u32,
    at: int,
    uv1: Option<Seq<u32>>,
) -> VertexView {
    VertexView {
        position: bytes::le_words(t, at, 3),
        normal: bytes::le_words(t, at + 12, 3),
        color: if version == 3 {
            Some(bytes::le_u32(t, at + 24))
        } else {
            None
        },
        uv0: bytes::le_words(t, if version == 3 {
            at + 28
        } else {
            at + 24
        }, 2),
        uv1: if version == 3 {
            Some(bytes::le_words(t, at + 36, 2))
        } else {
            uv1
        },
    }
}

/// The mesh `m` with its vertices replaced.
pub open spec fn with_vertices(m: MeshView, vertices: Seq<VertexView>) -> MeshView {
    MeshView {
        kind: m.kind,
        version: m.version,
        string_table: m.string_table,
        materials: m.materials,
        vertices,
        triangles: m.triangles,
        bone_count: m.bone_count,
        uv_marker: m.uv_marker,
        trailing_data: m.trailing_data,
    }
}

proof fn lemma_vertex_replaced(s: Seq<u8>, t: Seq<u8>, version: u32, at: int)
    requires
        0 <= at,
        vertex_spec(s, version, at) is Ok,
        t.len() == s.len(),
    ensures
        vertex_spec(t, version, at) == Ok::<(VertexView, int), ParseError>(
            (vertex_read_at(t, version, at, None), vertex_spec(s, version, at)->Ok_0.1),
        ),
{
    lemma_vertex_step(s, s, version, at);
    assert(bytes::le_u32(t, at + 24) == bytes::le_words(t, at + 24, 1)[0]);
}

/// The vertex `v2` as the geometry after the vertices completes it: in
/// version 2 a marker that supplies secondary UVs gives it the pair that
/// `done` holds.
pub open spec fn completed_vertex(version: u32, v2: VertexView, done: VertexView) -> VertexView {
    VertexView {
        position: v2.position,
        normal: v2.normal,
        color: v2.color,
        uv0: v2.uv0,
        uv1: if version == 3 {
            v2.uv1
        } else {
            done.uv1
        },
    }
}

#[verifier::rlimit(40)]
proof fn lemma_rest_vertex_replaced(
    s: Seq<u8>,
    t: Seq<u8>,
    kind: MeshKind,
    version: u32,
    counts: Seq<u32>,
    bone_count: Option<u32>,
    table: Seq<u8>,
    materials: Seq<MaterialView>,
    vertices: Seq<VertexView>,
    pos: int,
    k: int,
    v2: VertexView,
)
    requires
        counts.len() == 4,
        0 <= pos <= s.len(),
        t.len() == s.len(),
        bytes::same_between(s, t, pos, s.len() as int),
        0 <= k < vertices.len(),
        version != 3 ==> v2.uv1 == vertices[k].uv1,
        triangles_and_rest_spec(s, kind, version, counts, bone_count, table, materials, vertices, pos)
            is Ok,
    ensures
        ({
            let m = triangles_and_rest_spec(
                s,
                kind,
                version,
                counts,
                bone_count,
                table,
                materials,
                vertices,
                pos,
            )->Ok_0;
            triangles_and_rest_spec(
                t,
                kind,
                version,
                counts,
                bone_count,
                table,
                materials,
                vertices.update(k, v2),
                pos,
            ) == Ok::<MeshView, ParseError>(
                with_vertices(
                    m,
                    m.vertices.update(k, completed_vertex(version, v2, m.vertices[k])),
                ),
            )
        }),
{
    let vertices2 = vertices.update(k, v2);
    let ts = triangle_step(counts[2]);
    assert forall|q: int| 0 <= q implies #[trigger] bytes::step_local(ts, s, t, q) by {
        lemma_triangle_local(s, t, counts[2], q);
    }
    bytes::lemma_repeat_local(ts, s, t, pos, counts[3] as nat);
    let (triangles, p1) = bytes::repeat(ts, s, pos, counts[3] as nat)->Ok_0;
    lemma_secondary_uvs(s, s, kind, version, vertices, p1);
    lemma_secondary_uvs(s, s, kind, version, vertices2, p1);
    lemma_secondary_uvs_local(s, t, kind, version, vertices2, p1);
    let ((vs, marker), p2) = secondary_uvs_spec(s, kind, version, vertices, p1)->Ok_0;
    assert(secondary_uvs_spec(s, kind, version, vertices2, p1) is Ok);
    let ((vs2, marker2), q2) = secondary_uvs_spec(s, kind, version, vertices2, p1)->Ok_0;
    assert(marker2 == marker && q2 == p2);
    let done = vs[k];
    let want = vs.update(k, completed_vertex(version, v2, done));
    if version == 2 && marker_supplies_uvs(kind, marker->Some_0) {
        let n = vertices.len();
        assert(vs == secondary_uvs_upto(vertices, s, p1 + 4, n as int));
        assert(vs2 == secondary_uvs_upto(vertices2, s, p1 + 4, n as int));
        assert(vs2 =~= want);
    } else {
        assert(vs == vertices);
        assert(vs2 == vertices2);
        assert(vs2 =~= want);
    }
    assert(t.skip(p2) =~= s.skip(p2));
}

#[verifier::rlimit(40)]
proof fn lemma_body_vertex_replaced(
    s: Seq<u8>,
    t: Seq<u8>,
    kind: MeshKind,
    version: u32,
    counts: Seq<u32>,
    bone_count: Option<u32>,
    pos: int,
    k: int,
    at: int,
)
    requires
        counts.len() == 4,
        0 <= pos <= s.len(),
        0 <= k < counts[2],
        body_spec(s, kind, version, counts, bone_count, pos) is Ok,
        at == pos + counts[0] + bytes::total(
            body_spec(s, kind, version, counts, bone_count, pos)->Ok_0.materials,
            material_size(),
        ) + vertex_stride(version) * k,
        bytes::range_replaced(s, t, at, at + vertex_stride(version)),
    ensures
        ({
            let m = body_spec(s, kind, version, counts, bone_count, pos)->Ok_0;
            body_spec(t, kind, version, counts, bone_count, pos) == Ok::<MeshView, ParseError>(
                with_vertices(
                    m,
                    m.vertices.update(k, vertex_read_at(t, version, at, m.vertices[k].uv1)),
                ),
            )
        }),
{
    reveal(body_spec);
    let table_end = pos + counts[0];
    let table = s.subrange(pos, table_end);
    let ms = material_step(table);
    let vs = vertex_step(version);
    let msize = material_size();
    let stride = vertex_stride(version);
    let vsize = bytes::const_size::<VertexView>(stride);
    let vv = vertex_valid(version);
    assert forall|q: int| 0 <= q implies #[trigger] bytes::step_local(ms, s, t, q) by {
        lemma_material_local(s, t, table, q);
    }
    assert forall|q: int| 0 <= q implies #[trigger] bytes::step_consumes(ms, s, q, msize) by {
        lemma_material_step(s, s, table, q);
    }
    assert forall|q: int| 0 <= q implies #[trigger] bytes::step_local(vs, s, t, q) by {
        lemma_vertex_local(s, t, version, q);
    }
    assert forall|q: int| 0 <= q implies #[trigger] bytes::step_consumes(vs, s, q, vsize) by {
        lemma_vertex_step(s, s, version, q);
    }
    assert forall|q: int| 0 <= q implies #[trigger] bytes::step_yields(
        vs,
        s,
        q,
        vertex_bytes(version, 1),
        vv,
    ) by {
        lemma_vertex_step(s, s, version, q);
    }
    let c1 = counts[1] as nat;
    let c2 = counts[2] as nat;
    let (materials, p1) = bytes::repeat(ms, s, table_end, c1)->Ok_0;
    bytes::lemma_repeat_local(ms, s, t, table_end, c1);
    bytes::lemma_repeat_consumes(ms, s, table_end, c1, msize);
    let (vertices, p2) = bytes::repeat(vs, s, p1, c2)->Ok_0;
    bytes::lemma_repeat_len(vs, s, p1, c2);
    bytes::lemma_repeat_local(vs, s, t, p1, c2);
    bytes::lemma_repeat_yields(vs, s, p1, c2, vertex_bytes(version, 1) as nat, vv);
    bytes::lemma_repeat_prefix(vs, s, p1, c2, k as nat);
    bytes::lemma_repeat_consumes(vs, s, p1, k as nat, vsize);
    bytes::lemma_total_const(vertices.take(k), stride);
    bytes::lemma_repeat_item_at(vs, s, p1, c2, vsize, k);
    assert(at == p1 + stride * k);
    assert(vertex_spec(s, version, at) == Ok::<(VertexView, int), ParseError>(
        (vertices[k], at + stride),
    ));
    lemma_vertex_replaced(s, t, version, at);
    let v2 = vertex_read_at(t, version, at, None);
    assert(vv(vertices[k]));
    bytes::lemma_repeat_replace_one(vs, s, t, p1, k as nat, at, at + stride, v2, c2);
    assert(t.subrange(pos, table_end) =~= table);
    lemma_rest_vertex_replaced(
        s,
        t,
        kind,
        version,
        counts,
        bone_count,
        table,
        materials,
        vertices,
        p2,
        k,
        v2,
    );
    let m = body_spec(s, kind, version, counts, bone_count, pos)->Ok_0;
    assert(completed_vertex(version, v2, m.vertices[k]) == vertex_read_at(
        t,
        version,
        at,
        m.vertices[k].uv1,
    ));
}

/// Where vertex `k` of the mesh `m` parsed from `s` starts: after the header
/// (and the model bone count), the string table and the materials, the
/// vertices of [`vertex_stride`] bytes follow one after the other.
pub open spec fn vertex_at(s: Seq<u8>, m: MeshView, k: int) -> int {
    let header_end: int = if m.kind == MeshKind::Model {
        28
    } else {
        24
    };
    header_end + bytes::le_words(s, 8, 4)[0] + bytes::total(m.materials, material_size())
        + vertex_stride(m.version) * k
}

/// Vertex records are carried, never checked: in a mesh that parses, any
/// vertex record may hold any bytes, and the mesh still parses, with that
/// vertex now the one the new record gives (its secondary UV pair, outside
/// version 3, as before) and everything else as before.
pub proof fn lemma_vertex_record_unchecked(s: Seq<u8>, t: Seq<u8>, k: int)
    requires
        parse_spec(s) is Ok,
        0 <= k < parse_spec(s)->Ok_0.vertices.len(),
        bytes::range_replaced(
            s,
            t,
            vertex_at(s, parse_spec(s)->Ok_0, k),
            vertex_at(s, parse_spec(s)->Ok_0, k) + vertex_stride(parse_spec(s)->Ok_0.version),
        ),
    ensures
        parse_spec(t) == Ok::<MeshView, ParseError>(
            with_vertices(
                parse_spec(s)->Ok_0,
                parse_spec(s)->Ok_0.vertices.update(
                    k,
                    vertex_read_at(
                        t,
                        parse_spec(s)->Ok_0.version,
                        vertex_at(s, parse_spec(s)->Ok_0, k),
                        parse_spec(s)->Ok_0.vertices[k].uv1,
                    ),
                ),
            ),
        ),
{
    let m = parse_spec(s)->Ok_0;
    let at = vertex_at(s, m, k);
    let version = bytes::le_u32(s, 4);
    let counts = bytes::le_words(s, 8, 4);
    let kind = if bytes::has_prefix(s, crate::terrain_signature()) {
        MeshKind::Terrain
    } else {
        MeshKind::Model
    };
    let pos: int = if kind == MeshKind::Model {
        28
    } else {
        24
    };
    let bone_count = if kind == MeshKind::Model {
        Some(bytes::le_u32(s, 24))
    } else {
        None
    };
    lemma_parsed_mesh_layout(s);
    assert(parse_spec(s) == body_spec(s, kind, version, counts, bone_count, pos));
    lemma_materials_total_nonnegative(m.materials);
    lemma_body_vertex_replaced(s, t, kind, version, counts, bone_count, pos, k, at);
    lemma_mesh_header_kept(s, t);
}

// ---------------------------------------------------------------------------
// The model bone count is carried, not checked.
// ---------------------------------------------------------------------------

/// The mesh `m` with its bone count replaced.
pub open spec fn with_bone_count(m: MeshView, bone_count: Option<u32>) -> MeshView {
    MeshView {
        kind: m.kind,
        version: m.version,
        string_table: m.string_table,
        materials: m.materials,
        vertices: m.vertices,
        triangles: m.triangles,
        bone_count,
        uv_marker: m.uv_marker,
        trailing_data: m.trailing_data,
    }
}

proof fn lemma_body_bone_count(
    s: Seq<u8>,
    kind: MeshKind,
    version: u32,
    counts: Seq<u32>,
    bone_count: Option<u32>,
    bone_count2: Option<u32>,
    pos: int,
)
    requires
        body_spec(s, kind, version, counts, bone_count, pos) is Ok,
    ensures
        body_spec(s, kind, version, counts, bone_count2, pos) == Ok::<MeshView, ParseError>(
            with_bone_count(body_spec(s, kind, version, counts, bone_count, pos)->Ok_0, bone_count2),
        ),
{
    reveal(body_spec);
}

/// The bone count of a model is carried, never checked: in a model that
/// parses, the bone count word may hold any four bytes, and the mesh still
/// parses, with the new bone count and everything else as before.
pub proof fn lemma_bone_count_unchecked(s: Seq<u8>, t: Seq<u8>)
    requires
        parse_spec(s) is Ok,
        parse_spec(s)->Ok_0.kind == MeshKind::Model,
        bytes::word_replaced(s, t, 24),
    ensures
        parse_spec(t) == Ok::<MeshView, ParseError>(
            with_bone_count(parse_spec(s)->Ok_0, Some(bytes::le_u32(t, 24))),
        ),
{
    let m = parse_spec(s)->Ok_0;
    let version = bytes::le_u32(s, 4);
    let counts = bytes::le_words(s, 8, 4);
    let b1 = Some(bytes::le_u32(s, 24));
    let b2 = Some(bytes::le_u32(t, 24));
    lemma_parsed_mesh_layout(s);
    assert(parse_spec(s) == body_spec(s, MeshKind::Model, version, counts, b1, 28));
    lemma_body_bone_count(s, MeshKind::Model, version, counts, b1, b2, 28);
    let table = s.subrange(28, 28 + counts[0]);
    let ms = material_step(table);
    assert forall|q: int| 0 <= q implies #[trigger] bytes::step_local(ms, s, t, q) by {
        lemma_material_local(s, t, table, q);
    }
    assert(body_spec(s, MeshKind::Model, version, counts, b2, 28) is Ok);
    lemma_body_local_materials(s, version, counts, b2);
    bytes::lemma_repeat_local(ms, s, t, 28 + counts[0], counts[1] as nat);
    lemma_body_materials_replaced(
        s,
        t,
        MeshKind::Model,
        version,
        counts,
        b2,
        28,
        bytes::repeat(ms, s, 28 + counts[0], counts[1] as nat)->Ok_0.0,
    );
    bytes::lemma_le_words_between(s, t, 4, 5);
    assert(bytes::le_u32(s, 4) == bytes::le_words(s, 4, 5)[0]);
    assert(bytes::le_u32(t, 4) == bytes::le_words(t, 4, 5)[0]);
    bytes::lemma_le_words_between(s, t, 8, 4);
    assert(bytes::has_prefix(t, crate::terrain_signature()) == bytes::has_prefix(
        s,
        crate::terrain_signature(),
    ));
    assert(bytes::has_prefix(t, crate::model_signature()) == bytes::has_prefix(
        s,
        crate::model_signature(),
    ));
    let m2 = body_spec(s, MeshKind::Model, version, counts, b2, 28)->Ok_0;
    assert(with_materials(m2, m2.materials) == m2);
}

/// A mesh body that parses has its materials succeed as a run, within the input.
proof fn lemma_body_local_materials(s: Seq<u8>, version: u32, counts: Seq<u32>, b: Option<u32>)
    requires
        counts.len() == 4,
        28 <= s.len(),
        body_spec(s, MeshKind::Model, version, counts, b, 28) is Ok,
    ensures
        bytes::repeat(
            material_step(s.subrange(28, 28 + counts[0])),
            s,
            28 + counts[0],
            counts[1] as nat,
        ) is Ok,
        28 + counts[0] <= s.len(),
        body_spec(s, MeshKind::Model, version, counts, b, 28)->Ok_0.materials == bytes::repeat(
            material_step(s.subrange(28, 28 + counts[0])),
            s,
            28 + counts[0],
            counts[1] as nat,
        )->Ok_0.0,
{
    reveal(body_spec);
}

// ---------------------------------------------------------------------------
// Version 2 secondary UV pairs are carried, not checked.
// ---------------------------------------------------------------------------

#[verifier::rlimit(40)]
proof fn lemma_rest_uv_replaced(
    s: Seq<u8>,
    t: Seq<u8>,
    kind: MeshKind,
    counts: Seq<u32>,
    bone_count: Option<u32>,
    table: Seq<u8>,
    materials: Seq<MaterialView>,
    vertices: Seq<VertexView>,
    pos: int,
    j: int,
    at: int,
)
    requires
        counts.len() == 4,
        0 <= pos <= s.len(),
        0 <= j < vertices.len(),
        triangles_and_rest_spec(s, kind, 2, counts, bone_count, table, materials, vertices, pos)
            is Ok,
        marker_supplies_uvs(
            kind,
            triangles_and_rest_spec(
                s,
                kind,
                2,
                counts,
                bone_count,
                table,
                materials,
                vertices,
                pos,
            )->Ok_0.uv_marker->Some_0,
        ),
        at == pos + 20 * counts[3] + 4 + 8 * j,
        bytes::range_replaced(s, t, at, at + 8),
    ensures
        ({
            let m = triangles_and_rest_spec(
                s,
                kind,
                2,
                counts,
                bone_count,
                table,
                materials,
                vertices,
                pos,
            )->Ok_0;
            triangles_and_rest_spec(t, kind, 2, counts, bone_count, table, materials, vertices, pos)
                == Ok::<MeshView, ParseError>(
                with_vertices(
                    m,
                    m.vertices.update(j, with_uv1(m.vertices[j], bytes::le_words(t, at, 2))),
                ),
            )
        }),
{
    let ts = triangle_step(counts[2]);
    let size = bytes::const_size::<TriangleView>(20);
    assert forall|q: int| 0 <= q implies #[trigger] bytes::step_local(ts, s, t, q) by {
        lemma_triangle_local(s, t, counts[2], q);
    }
    assert forall|q: int| 0 <= q implies #[trigger] bytes::step_consumes(ts, s, q, size) by {
        lemma_triangle_step(s, s, counts[2], q);
    }
    let c3 = counts[3] as nat;
    let (triangles, p1) = bytes::repeat(ts, s, pos, c3)->Ok_0;
    bytes::lemma_repeat_len(ts, s, pos, c3);
    bytes::lemma_repeat_consumes(ts, s, pos, c3, size);
    bytes::lemma_total_const(triangles, 20);
    bytes::lemma_repeat_local(ts, s, t, pos, c3);
    assert(p1 + 4 + 8 * j == at);
    lemma_word_local(s, t, p1, "UV marker");
    let n = vertices.len();
    let u = p1 + 4;
    lemma_secondary_uvs(s, s, kind, 2, vertices, p1);
    let ((vs, marker), p2) = secondary_uvs_spec(s, kind, 2, vertices, p1)->Ok_0;
    assert(vs == secondary_uvs_upto(vertices, s, u, n as int));
    assert forall|i: int| 0 <= i < n && i != j implies bytes::le_words(s, u + 8 * i, 2)
        == #[trigger] bytes::le_words(t, u + 8 * i, 2) by {
        if i < j {
            assert(u + 8 * i + 8 <= at);
        } else {
            assert(at + 8 <= u + 8 * i);
        }
        bytes::lemma_le_words_between(s, t, u + 8 * i, 2);
    }
    assert(secondary_uvs_upto(vertices, t, u, n as int) =~= vs.update(
        j,
        with_uv1(vs[j], bytes::le_words(t, at, 2)),
    ));
    assert(t.skip(p2) =~= s.skip(p2));
}

#[verifier::rlimit(40)]
proof fn lemma_body_uv_replaced(
    s: Seq<u8>,
    t: Seq<u8>,
    kind: MeshKind,
    counts: Seq<u32>,
    bone_count: Option<u32>,
    pos: int,
    j: int,
    at: int,
)
    requires
        counts.len() == 4,
        0 <= pos <= s.len(),
        0 <= j < counts[2],
        body_spec(s, kind, 2, counts, bone_count, pos) is Ok,
        marker_supplies_uvs(kind, body_spec(s, kind, 2, counts, bone_count, pos)->Ok_0.uv_marker->Some_0),
        at == pos + counts[0] + bytes::total(
            body_spec(s, kind, 2, counts, bone_count, pos)->Ok_0.materials,
            material_size(),
        ) + 32 * counts[2] + 20 * counts[3] + 4 + 8 * j,
        bytes::range_replaced(s, t, at, at + 8),
    ensures
        ({
            let m = body_spec(s, kind, 2, counts, bone_count, pos)->Ok_0;
            body_spec(t, kind, 2, counts, bone_count, pos) == Ok::<MeshView, ParseError>(
                with_vertices(
                    m,
                    m.vertices.update(j, with_uv1(m.vertices[j], bytes::le_words(t, at, 2))),
                ),
            )
        }),
{
    reveal(body_spec);
    let version: u32 = 2;
    let table_end = pos + counts[0];
    let table = s.subrange(pos, table_end);
    let ms = material_step(table);
    let vs = vertex_step(version);
    let msize = material_size();
    let vsize = bytes::const_size::<VertexView>(32);
    assert forall|q: int| 0 <= q implies #[trigger] bytes::step_local(ms, s, t, q) by {
        lemma_material_local(s, t, table, q);
    }
    assert forall|q: int| 0 <= q implies #[trigger] bytes::step_consumes(ms, s, q, msize) by {
        lemma_material_step(s, s, table, q);
    }
    assert forall|q: int| 0 <= q implies #[trigger] bytes::step_local(vs, s, t, q) by {
        lemma_vertex_local(s, t, version, q);
    }
    assert forall|q: int| 0 <= q implies #[trigger] bytes::step_consumes(vs, s, q, vsize) by {
        lemma_vertex_step(s, s, version, q);
    }
    let c1 = counts[1] as nat;
    let c2 = counts[2] as nat;
    let (materials, p1) = bytes::repeat(ms, s, table_end, c1)->Ok_0;
    bytes::lemma_repeat_local(ms, s, t, table_end, c1);
    bytes::lemma_repeat_consumes(ms, s, table_end, c1, msize);
    let (vertices, p2) = bytes::repeat(vs, s, p1, c2)->Ok_0;
    bytes::lemma_repeat_local(vs, s, t, p1, c2);
    bytes::lemma_repeat_len(vs, s, p1, c2);
    bytes::lemma_repeat_consumes(vs, s, p1, c2, vsize);
    bytes::lemma_total_const(vertices, 32);
    assert(at == p2 + 20 * counts[3] + 4 + 8 * j);
    assert(t.subrange(pos, table_end) =~= table);
    lemma_rest_uv_replaced(s, t, kind, counts, bone_count, table, materials, vertices, p2, j, at);
}

/// Where the secondary UV pair of vertex `j` of the version 2 mesh `m` parsed
/// from `s` stands: eight bytes each, one after the other, after the marker
/// that follows the triangles.
pub open spec fn uv_pair_at(s: Seq<u8>, m: MeshView, j: int) -> int {
    triangle_at(s, m, m.triangles.len() as int) + 4 + 8 * j
}

/// Version 2 secondary UV pairs are carried, never checked: in a version 2
/// mesh that parses with a marker that supplies them (1, or 2 in a terrain),
/// the pair of any vertex may hold any eight bytes, and the mesh still
/// parses, with that vertex's secondary UV pair now the two words they hold
/// and everything else as before.
pub proof fn lemma_secondary_uv_pair_unchecked(s: Seq<u8>, t: Seq<u8>, j: int)
    requires
        parse_spec(s) is Ok,
        parse_spec(s)->Ok_0.version == 2,
        parse_spec(s)->Ok_0.uv_marker == Some(1u32) || (parse_spec(s)->Ok_0.kind
            == MeshKind::Terrain && parse_spec(s)->Ok_0.uv_marker == Some(2u32)),
        0 <= j < parse_spec(s)->Ok_0.vertices.len(),
        bytes::range_replaced(
            s,
            t,
            uv_pair_at(s, parse_spec(s)->Ok_0, j),
            uv_pair_at(s, parse_spec(s)->Ok_0, j) + 8,
        ),
    ensures
        parse_spec(t) == Ok::<MeshView, ParseError>(
            with_vertices(
                parse_spec(s)->Ok_0,
                parse_spec(s)->Ok_0.vertices.update(
                    j,
                    with_uv1(
                        parse_spec(s)->Ok_0.vertices[j],
                        bytes::le_words(t, uv_pair_at(s, parse_spec(s)->Ok_0, j), 2),
                    ),
                ),
            ),
        ),
{
    let m = parse_spec(s)->Ok_0;
    let at = uv_pair_at(s, m, j);
    let counts = bytes::le_words(s, 8, 4);
    let kind = if bytes::has_prefix(s, crate::terrain_signature()) {
        MeshKind::Terrain
    } else {
        MeshKind::Model
    };
    let pos: int = if kind == MeshKind::Model {
        28
    } else {
        24
    };
    let bone_count = if kind == MeshKind::Model {
        Some(bytes::le_u32(s, 24))
    } else {
        None
    };
    lemma_parsed_mesh_layout(s);
    assert(parse_spec(s) == body_spec(s, kind, 2, counts, bone_count, pos));
    lemma_materials_total_nonnegative(m.materials);
    lemma_body_uv_replaced(s, t, kind, counts, bone_count, pos, j, at);
    lemma_mesh_header_kept(s, t);
}

} // verus!
