//! Raw, borrowed binary EQGZ version 1 and 2 zone descriptors.
//!
//! Transforms, extension words, regions, and lights are preserved without
//! assigning coordinate conventions or interpreting their opaque fields.
//! Floating-point fields are kept as their raw IEEE-754 bit patterns.
use vstd::prelude::*;

use crate::bytes;
use crate::bytes::{
    add_records, array3, check_terminates, last_nul, nullable_word, read_u32_le, starts_with,
    string_in,
};

verus! {

/// A failure to decode a supported binary zone descriptor.
#[allow(inconsistent_fields)]
#[derive(Debug, Clone, PartialEq, Eq)]
pub enum ParseError {
    InvalidMagic,
    UnsupportedVersion { version: u32 },
    Truncated { context: &'static str, offset: usize, needed: usize, remaining: usize },
    CountOverflow { context: &'static str },
    InvalidStringReference { offset: u32 },
    InvalidModelReference { index: u32, model_count: usize },
}

/// A raw zone descriptor. String offsets address `string_table` bytes.
#[derive(Debug)]
pub struct Zone<'a> {
    pub version: u32,
    pub string_table: &'a [u8],
    /// String offsets, with the all-ones sentinel represented by `None`.
    pub models: Vec<Option<u32>>,
    pub placements: Vec<Placement<'a>>,
    pub regions: Vec<Region>,
    pub lights: Vec<Light>,
    /// All bytes following the counted records; retained, not interpreted.
    pub trailing_data: &'a [u8],
}

/// Raw placement values; the floating-point fields hold their bit patterns.
#[derive(Debug)]
pub struct Placement<'a> {
    pub model_index: Option<u32>,
    pub name_offset: u32,
    /// Bit patterns of three `f32` coordinates.
    pub position: [u32; 3],
    /// Bit patterns of three `f32` angles.
    pub rotation: [u32; 3],
    /// Bit pattern of an `f32` scale.
    pub scale: u32,
    /// Counted version 2 words, or an empty slice for version 1.
    pub extension_data: &'a [u8],
}

#[derive(Debug)]
pub struct Region {
    pub name_offset: u32,
    pub data: [u32; 9],
}

#[derive(Debug)]
pub struct Light {
    pub name_offset: u32,
    pub data: [u32; 7],
}

/// The mathematical content of a [`Zone`].
pub struct ZoneView {
    pub version: u32,
    pub string_table: Seq<u8>,
    pub models: Seq<Option<u32>>,
    pub placements: Seq<PlacementView>,
    pub regions: Seq<RegionView>,
    pub lights: Seq<LightView>,
    pub trailing_data: Seq<u8>,
}

/// The mathematical content of a [`Placement`].
pub struct PlacementView {
    pub model_index: Option<u32>,
    pub name_offset: u32,
    pub position: Seq<u32>,
    pub rotation: Seq<u32>,
    pub scale: u32,
    pub extension_data: Seq<u8>,
}

/// The mathematical content of a [`Region`].
pub struct RegionView {
    pub name_offset: u32,
    pub data: Seq<u32>,
}

/// The mathematical content of a [`Light`].
pub struct LightView {
    pub name_offset: u32,
    pub data: Seq<u32>,
}

impl<'a> View for Placement<'a> {
    type V = PlacementView;

    open spec fn view(&self) -> PlacementView {
        PlacementView {
            model_index: self.model_index,
            name_offset: self.name_offset,
            position: self.position@,
            rotation: self.rotation@,
            scale: self.scale,
            extension_data: self.extension_data@,
        }
    }
}

impl View for Region {
    type V = RegionView;

    open spec fn view(&self) -> RegionView {
        RegionView { name_offset: self.name_offset, data: self.data@ }
    }
}

impl View for Light {
    type V = LightView;

    open spec fn view(&self) -> LightView {
        LightView { name_offset: self.name_offset, data: self.data@ }
    }
}

impl<'a> View for Zone<'a> {
    type V = ZoneView;

    open spec fn view(&self) -> ZoneView {
        ZoneView {
            version: self.version,
            string_table: self.string_table@,
            models: self.models@,
            placements: self.placements@.map_values(|p: Placement<'a>| p@),
            regions: self.regions@.map_values(|r: Region| r@),
            lights: self.lights@.map_values(|l: Light| l@),
            trailing_data: self.trailing_data@,
        }
    }
}

// ---------------------------------------------------------------------------
// The format, as spec functions over the input bytes.
// ---------------------------------------------------------------------------

/// The error for a read of `needed` bytes at `pos` that runs past the end of `s`.
pub open spec fn truncated(s: Seq<u8>, pos: int, needed: int, context: &'static str) -> ParseError {
    ParseError::Truncated {
        context,
        offset: pos as usize,
        needed: needed as usize,
        remaining: (s.len() - pos) as usize,
    }
}

/// Claim `n` bytes at `pos`: the position after them, or the shortfall.
pub open spec fn take_spec(s: Seq<u8>, pos: int, n: int, context: &'static str) -> Result<
    int,
    ParseError,
> {
    if n <= s.len() - pos {
        Ok(pos + n)
    } else {
        Err(truncated(s, pos, n, context))
    }
}

/// Read one little-endian word at `pos`.
pub open spec fn word_spec(s: Seq<u8>, pos: int, context: &'static str) -> Result<
    (u32, int),
    ParseError,
> {
    if 4 <= s.len() - pos {
        Ok((bytes::le_u32(s, pos), pos + 4))
    } else {
        Err(truncated(s, pos, 4, context))
    }
}

/// Read `n` little-endian words at `pos`, one after the other; the first word
/// that does not fit is the one reported.
pub open spec fn words_spec(s: Seq<u8>, pos: int, n: nat, context: &'static str) -> Result<
    (Seq<u32>, int),
    ParseError,
> {
    if pos + 4 * n <= s.len() {
        Ok((bytes::le_words(s, pos, n), pos + 4 * n))
    } else {
        let k = (s.len() - pos) / 4;
        Err(truncated(s, pos + 4 * k, 4, context))
    }
}

/// Bytes that a version's placement occupies at least.
pub open spec fn placement_bytes(version: u32, count: u32) -> int {
    if version == 1 {
        36 * count
    } else {
        40 * count
    }
}

/// The byte size that the header counts require at least: string table,
/// models, placements (without extension words), regions and lights.
pub open spec fn minimum_size(version: u32, counts: Seq<u32>) -> int {
    counts[0] + 4 * counts[1] + placement_bytes(version, counts[2]) + 40 * counts[3] + 32
        * counts[4]
}

/// One model entry: a nullable string offset.
pub open spec fn model_spec(s: Seq<u8>, table: Seq<u8>, pos: int) -> Result<
    (Option<u32>, int),
    ParseError,
> {
    match word_spec(s, pos, "model") {
        Err(e) => Err(e),
        Ok((offset, next)) => if offset != u32::MAX && !bytes::terminates(table, offset as int) {
            Err(ParseError::InvalidStringReference { offset })
        } else {
            Ok((bytes::nullable(offset), next))
        },
    }
}

/// The counted extension words of a version 2 placement; nothing in version 1.
pub open spec fn extension_spec(s: Seq<u8>, version: u32, pos: int) -> Result<
    (Seq<u8>, int),
    ParseError,
> {
    if version != 2 {
        Ok((Seq::empty(), pos))
    } else {
        match word_spec(s, pos, "placement extension count") {
            Err(e) => Err(e),
            Ok((count, start)) => if count * 4 > usize::MAX {
                Err(ParseError::CountOverflow { context: "placement extension" })
            } else {
                match take_spec(s, start, count * 4, "placement extension") {
                    Err(e) => Err(e),
                    Ok(end) => Ok((s.subrange(start, end), end)),
                }
            },
        }
    }
}

/// The transform of a placement: position, rotation and scale.
pub open spec fn transform_spec(s: Seq<u8>, pos: int) -> Result<
    ((Seq<u32>, Seq<u32>, u32), int),
    ParseError,
> {
    match words_spec(s, pos, 3, "placement position") {
        Err(e) => Err(e),
        Ok((position, p1)) => match words_spec(s, p1, 3, "placement rotation") {
            Err(e) => Err(e),
            Ok((rotation, p2)) => match word_spec(s, p2, "placement scale") {
                Err(e) => Err(e),
                Ok((scale, p3)) => Ok(((position, rotation, scale), p3)),
            },
        },
    }
}

/// One placement record.
pub open spec fn placement_spec(
    s: Seq<u8>,
    table: Seq<u8>,
    version: u32,
    model_count: u32,
    pos: int,
) -> Result<(PlacementView, int), ParseError> {
    match word_spec(s, pos, "placement model") {
        Err(e) => Err(e),
        Ok((index, p1)) => if index != u32::MAX && index >= model_count {
            Err(ParseError::InvalidModelReference { index, model_count: model_count as usize })
        } else {
            match word_spec(s, p1, "placement name") {
                Err(e) => Err(e),
                Ok((name_offset, p2)) => if !bytes::terminates(table, name_offset as int) {
                    Err(ParseError::InvalidStringReference { offset: name_offset })
                } else {
                    match transform_spec(s, p2) {
                        Err(e) => Err(e),
                        Ok(((position, rotation, scale), p3)) => match extension_spec(
                            s,
                            version,
                            p3,
                        ) {
                            Err(e) => Err(e),
                            Ok((extension_data, p4)) => Ok(
                                (
                                    PlacementView {
                                        model_index: bytes::nullable(index),
                                        name_offset,
                                        position,
                                        rotation,
                                        scale,
                                        extension_data,
                                    },
                                    p4,
                                ),
                            ),
                        },
                    }
                },
            }
        },
    }
}

/// One region record: a name and nine raw words.
pub open spec fn region_spec(s: Seq<u8>, table: Seq<u8>, pos: int) -> Result<
    (RegionView, int),
    ParseError,
> {
    match word_spec(s, pos, "region name") {
        Err(e) => Err(e),
        Ok((name_offset, p1)) => if !bytes::terminates(table, name_offset as int) {
            Err(ParseError::InvalidStringReference { offset: name_offset })
        } else {
            match words_spec(s, p1, 9, "region data") {
                Err(e) => Err(e),
                Ok((data, p2)) => Ok((RegionView { name_offset, data }, p2)),
            }
        },
    }
}

/// One light record: a name and seven raw words.
pub open spec fn light_spec(s: Seq<u8>, table: Seq<u8>, pos: int) -> Result<
    (LightView, int),
    ParseError,
> {
    match word_spec(s, pos, "light name") {
        Err(e) => Err(e),
        Ok((name_offset, p1)) => if !bytes::terminates(table, name_offset as int) {
            Err(ParseError::InvalidStringReference { offset: name_offset })
        } else {
            match words_spec(s, p1, 7, "light data") {
                Err(e) => Err(e),
                Ok((data, p2)) => Ok((LightView { name_offset, data }, p2)),
            }
        },
    }
}

pub open spec fn model_step(table: Seq<u8>) -> spec_fn(Seq<u8>, int) -> Result<
    (Option<u32>, int),
    ParseError,
> {
    |s: Seq<u8>, pos: int| model_spec(s, table, pos)
}

pub open spec fn placement_step(table: Seq<u8>, version: u32, model_count: u32) -> spec_fn(
    Seq<u8>,
    int,
) -> Result<(PlacementView, int), ParseError> {
    |s: Seq<u8>, pos: int| placement_spec(s, table, version, model_count, pos)
}

pub open spec fn region_step(table: Seq<u8>) -> spec_fn(Seq<u8>, int) -> Result<
    (RegionView, int),
    ParseError,
> {
    |s: Seq<u8>, pos: int| region_spec(s, table, pos)
}

pub open spec fn light_step(table: Seq<u8>) -> spec_fn(Seq<u8>, int) -> Result<
    (LightView, int),
    ParseError,
> {
    |s: Seq<u8>, pos: int| light_spec(s, table, pos)
}

/// The counted records that follow a valid header with the given counts.
pub open spec fn records_spec(s: Seq<u8>, version: u32, counts: Seq<u32>) -> Result<
    ZoneView,
    ParseError,
> {
    let minimum = minimum_size(version, counts);
    if minimum > usize::MAX {
        Err(ParseError::CountOverflow { context: "record counts" })
    } else {
        match take_spec(s, 28, minimum, "counted records") {
            Err(e) => Err(e),
            Ok(_) => {
                let table_end = 28 + counts[0];
                let table = s.subrange(28, table_end);
                match bytes::repeat(model_step(table), s, table_end, counts[1] as nat) {
                    Err(e) => Err(e),
                    Ok((models, p1)) => match bytes::repeat(
                        placement_step(table, version, counts[1]),
                        s,
                        p1,
                        counts[2] as nat,
                    ) {
                        Err(e) => Err(e),
                        Ok((placements, p2)) => match bytes::repeat(
                            region_step(table),
                            s,
                            p2,
                            counts[3] as nat,
                        ) {
                            Err(e) => Err(e),
                            Ok((regions, p3)) => match bytes::repeat(
                                light_step(table),
                                s,
                                p3,
                                counts[4] as nat,
                            ) {
                                Err(e) => Err(e),
                                Ok((lights, p4)) => Ok(
                                    ZoneView {
                                        version,
                                        string_table: table,
                                        models,
                                        placements,
                                        regions,
                                        lights,
                                        trailing_data: s.skip(p4),
                                    },
                                ),
                            },
                        },
                    },
                }
            },
        }
    }
}

/// What [`parse`] answers for the input bytes `s`: the magic, a supported
/// version, five counts, a size check against the counts, then the string
/// table, models, placements, regions and lights, in that order, and the
/// bytes left over.
pub open spec fn parse_spec(s: Seq<u8>) -> Result<ZoneView, ParseError> {
    if s.len() < 4 {
        Err(truncated(s, 0, 4, "magic"))
    } else if !bytes::has_prefix(s, crate::zone_signature()) {
        Err(ParseError::InvalidMagic)
    } else {
        match word_spec(s, 4, "version") {
            Err(e) => Err(e),
            Ok((version, _)) => if version != 1 && version != 2 {
                Err(ParseError::UnsupportedVersion { version })
            } else {
                match words_spec(s, 8, 5, "header") {
                    Err(e) => Err(e),
                    Ok((counts, _)) => records_spec(s, version, counts),
                }
            },
        }
    }
}

// ---------------------------------------------------------------------------
// The reader.
// ---------------------------------------------------------------------------

struct Reader<'a> {
    bytes: &'a [u8],
    offset: usize,
}

impl<'a> Reader<'a> {
    spec fn wf(&self) -> bool {
        self.offset <= self.bytes@.len() <= usize::MAX
    }

    /// A reader at the start of `bytes`.
    fn new(bytes: &'a [u8]) -> (r: Self)
        ensures
            r.wf(),
            r.bytes == bytes,
            r.offset == 0,
    {
        assert(bytes@.len() == bytes.len());
        Reader { bytes, offset: 0 }
    }

    fn require(&self, needed: usize, context: &'static str) -> (r: Result<(), ParseError>)
        requires
            self.wf(),
        ensures
            r is Ok <==> needed <= self.bytes@.len() - self.offset,
            r matches Err(e) ==> take_spec(self.bytes@, self.offset as int, needed as int, context)
                == Err::<int, ParseError>(e),
    {
        let remaining = self.bytes.len() - self.offset;
        if needed > remaining {
            return Err(
                ParseError::Truncated { context, offset: self.offset, needed, remaining },
            );
        }
        Ok(())
    }

    fn take(&mut self, count: usize, context: &'static str) -> (r: Result<&'a [u8], ParseError>)
        requires
            old(self).wf(),
        ensures
            final(self).wf(),
            final(self).bytes == old(self).bytes,
            old(self).offset <= final(self).offset,
            match take_spec(old(self).bytes@, old(self).offset as int, count as int, context) {
                Ok(end) => end == final(self).offset && (r matches Ok(t) && t@
                    == old(self).bytes@.subrange(old(self).offset as int, end)),
                Err(e) => r == Err::<&'a [u8], ParseError>(e) && final(self).offset == old(
                    self,
                ).offset,
            },
    {
        match self.require(count, context) {
            Err(e) => return Err(e),
            Ok(()) => {},
        }
        assert(count <= self.bytes@.len() - self.offset);
        let start = self.offset;
        self.offset = self.offset + count;
        let t = vstd::slice::slice_subrange(self.bytes, start, self.offset);
        Ok(t)
    }

    fn word(&mut self, context: &'static str) -> (r: Result<u32, ParseError>)
        requires
            old(self).wf(),
        ensures
            final(self).wf(),
            final(self).bytes == old(self).bytes,
            old(self).offset <= final(self).offset,
            r is Err ==> final(self).offset == old(self).offset,
            bytes::step_outcome(
                r,
                word_spec(old(self).bytes@, old(self).offset as int, context),
                final(self).offset as int,
            ),
    {
        self.require(4, context)?;
        let w = read_u32_le(self.bytes, self.offset);
        self.offset = self.offset + 4;
        Ok(w)
    }

    fn words(&mut self, n: usize, context: &'static str) -> (r: Result<Vec<u32>, ParseError>)
        requires
            old(self).wf(),
        ensures
            final(self).wf(),
            final(self).bytes == old(self).bytes,
            old(self).offset <= final(self).offset,
            r is Err ==> final(self).offset == old(self).offset + 4 * ((old(self).bytes@.len()
                - old(self).offset) / 4),
            bytes::step_outcome(
                r,
                words_spec(old(self).bytes@, old(self).offset as int, n as nat, context),
                final(self).offset as int,
            ),
    {
        let ghost s = self.bytes@;
        let ghost start = self.offset as int;
        let mut out: Vec<u32> = Vec::new();
        let mut i: usize = 0;
        while i < n
            invariant
                self.wf(),
                self.bytes == old(self).bytes,
                self.bytes@ == s,
                s == old(self).bytes@,
                start == old(self).offset,
                start <= s.len(),
                0 <= i <= n,
                self.offset == start + 4 * i,
                out@ == bytes::le_words(s, start, i as nat),
            decreases n - i,
        {
            let ghost before = self.offset;
            match self.word(context) {
                Ok(w) => {
                    out.push(w);
                    i = i + 1;
                    assert(out@ =~= bytes::le_words(s, start, i as nat));
                },
                Err(e) => {
                    let ghost rest = s.len() - start;
                    assert(4 * i <= rest < 4 * i + 4);
                    assert(rest / 4 == i) by (nonlinear_arith)
                        requires
                            4 * i <= rest < 4 * i + 4,
                    ;
                    assert(start + 4 * n > s.len());
                    return Err(e);
                },
            }
        }
        assert(out@ =~= bytes::le_words(s, start, n as nat));
        Ok(out)
    }
}

fn parse_model(reader: &mut Reader, table: &[u8], last: Option<usize>) -> (r: Result<
    Option<u32>,
    ParseError,
>)
    requires
        old(reader).wf(),
        bytes::is_last_nul(table@, last),
    ensures
        final(reader).wf(),
        final(reader).bytes == old(reader).bytes,
        bytes::step_outcome(
            r,
            model_spec(old(reader).bytes@, table@, old(reader).offset as int),
            final(reader).offset as int,
        ),
{
    let offset = nullable_word(reader.word("model")?);
    if let Some(offset) = offset {
        if !check_terminates(table, last, offset) {
            return Err(ParseError::InvalidStringReference { offset });
        }
    }
    Ok(offset)
}

fn parse_extension<'a>(reader: &mut Reader<'a>, version: u32) -> (r: Result<&'a [u8], ParseError>)
    requires
        old(reader).wf(),
    ensures
        final(reader).wf(),
        final(reader).bytes == old(reader).bytes,
        bytes::step_outcome(
            r,
            extension_spec(old(reader).bytes@, version, old(reader).offset as int),
            final(reader).offset as int,
        ),
{
    if version == 2 {
        let count = reader.word("placement extension count")?;
        let size = match (count as usize).checked_mul(4) {
            Some(size) => size,
            None => return Err(ParseError::CountOverflow { context: "placement extension" }),
        };
        reader.take(size, "placement extension")
    } else {
        let empty = vstd::slice::slice_subrange(reader.bytes, reader.offset, reader.offset);
        assert(empty@ =~= Seq::<u8>::empty());
        Ok(empty)
    }
}

fn parse_placement<'a>(
    reader: &mut Reader<'a>,
    table: &[u8],
    last: Option<usize>,
    version: u32,
    model_count: u32,
) -> (r: Result<Placement<'a>, ParseError>)
    requires
        old(reader).wf(),
        bytes::is_last_nul(table@, last),
    ensures
        final(reader).wf(),
        final(reader).bytes == old(reader).bytes,
        bytes::step_outcome(
            r,
            placement_spec(
                old(reader).bytes@,
                table@,
                version,
                model_count,
                old(reader).offset as int,
            ),
            final(reader).offset as int,
        ),
{
    let index = reader.word("placement model")?;
    if index != u32::MAX && index >= model_count {
        return Err(
            ParseError::InvalidModelReference { index, model_count: model_count as usize },
        );
    }
    let name_offset = reader.word("placement name")?;
    if !check_terminates(table, last, name_offset) {
        return Err(ParseError::InvalidStringReference { offset: name_offset });
    }
    let position = reader.words(3, "placement position")?;
    let rotation = reader.words(3, "placement rotation")?;
    let scale = reader.word("placement scale")?;
    let extension_data = parse_extension(reader, version)?;
    Ok(
        Placement {
            model_index: nullable_word(index),
            name_offset,
            position: array3(&position),
            rotation: array3(&rotation),
            scale,
            extension_data,
        },
    )
}

fn parse_region(reader: &mut Reader, table: &[u8], last: Option<usize>) -> (r: Result<
    Region,
    ParseError,
>)
    requires
        old(reader).wf(),
        bytes::is_last_nul(table@, last),
    ensures
        final(reader).wf(),
        final(reader).bytes == old(reader).bytes,
        bytes::step_outcome(
            r,
            region_spec(old(reader).bytes@, table@, old(reader).offset as int),
            final(reader).offset as int,
        ),
{
    let name_offset = reader.word("region name")?;
    if !check_terminates(table, last, name_offset) {
        return Err(ParseError::InvalidStringReference { offset: name_offset });
    }
    let v = reader.words(9, "region data")?;
    let data = [v[0], v[1], v[2], v[3], v[4], v[5], v[6], v[7], v[8]];
    assert(data@ =~= v@);
    Ok(Region { name_offset, data })
}

fn parse_light(reader: &mut Reader, table: &[u8], last: Option<usize>) -> (r: Result<
    Light,
    ParseError,
>)
    requires
        old(reader).wf(),
        bytes::is_last_nul(table@, last),
    ensures
        final(reader).wf(),
        final(reader).bytes == old(reader).bytes,
        bytes::step_outcome(
            r,
            light_spec(old(reader).bytes@, table@, old(reader).offset as int),
            final(reader).offset as int,
        ),
{
    let name_offset = reader.word("light name")?;
    if !check_terminates(table, last, name_offset) {
        return Err(ParseError::InvalidStringReference { offset: name_offset });
    }
    let v = reader.words(7, "light data")?;
    let data = [v[0], v[1], v[2], v[3], v[4], v[5], v[6]];
    assert(data@ =~= v@);
    Ok(Light { name_offset, data })
}

fn parse_models(
    reader: &mut Reader,
    table: &[u8],
    last: Option<usize>,
    count: u32,
) -> (r: Result<Vec<Option<u32>>, ParseError>)
    requires
        old(reader).wf(),
        bytes::is_last_nul(table@, last),
    ensures
        final(reader).wf(),
        final(reader).bytes == old(reader).bytes,
        bytes::step_outcome(
            r,
            bytes::repeat(
                model_step(table@),
                old(reader).bytes@,
                old(reader).offset as int,
                count as nat,
            ),
            final(reader).offset as int,
        ),
{
    let ghost s = reader.bytes@;
    let ghost start = reader.offset as int;
    let ghost step = model_step(table@);
    let mut out: Vec<Option<u32>> = Vec::new();
    let mut i: u32 = 0;
    while i < count
        invariant
            reader.wf(),
            reader.bytes == old(reader).bytes,
            s == old(reader).bytes@,
            start == old(reader).offset,
            step == model_step(table@),
            bytes::is_last_nul(table@, last),
            i <= count,
            bytes::repeat(step, s, start, i as nat) == Ok::<(Seq<Option<u32>>, int), ParseError>(
                (out@, reader.offset as int),
            ),
        decreases count - i,
    {
        match parse_model(reader, table, last) {
            Ok(m) => {
                out.push(m);
                i = i + 1;
            },
            Err(e) => {
                proof {
                    bytes::lemma_repeat_error_persists(step, s, start, (i + 1) as nat, count as nat);
                }
                return Err(e);
            },
        }
    }
    Ok(out)
}

fn parse_placements<'a>(
    reader: &mut Reader<'a>,
    table: &[u8],
    last: Option<usize>,
    version: u32,
    model_count: u32,
    count: u32,
) -> (r: Result<Vec<Placement<'a>>, ParseError>)
    requires
        old(reader).wf(),
        bytes::is_last_nul(table@, last),
    ensures
        final(reader).wf(),
        final(reader).bytes == old(reader).bytes,
        match r {
            Ok(v) => bytes::repeat(
                placement_step(table@, version, model_count),
                old(reader).bytes@,
                old(reader).offset as int,
                count as nat,
            ) == Ok::<(Seq<PlacementView>, int), ParseError>(
                (v@.map_values(|p: Placement<'a>| p@), final(reader).offset as int),
            ),
            Err(e) => bytes::repeat(
                placement_step(table@, version, model_count),
                old(reader).bytes@,
                old(reader).offset as int,
                count as nat,
            ) == Err::<(Seq<PlacementView>, int), ParseError>(e),
        },
{
    let ghost s = reader.bytes@;
    let ghost start = reader.offset as int;
    let ghost step = placement_step(table@, version, model_count);
    let mut out: Vec<Placement<'a>> = Vec::new();
    assert(out@.map_values(|p: Placement<'a>| p@) =~= Seq::empty());
    let mut i: u32 = 0;
    while i < count
        invariant
            reader.wf(),
            reader.bytes == old(reader).bytes,
            s == old(reader).bytes@,
            start == old(reader).offset,
            step == placement_step(table@, version, model_count),
            bytes::is_last_nul(table@, last),
            i <= count,
            bytes::repeat(step, s, start, i as nat) == Ok::<(Seq<PlacementView>, int), ParseError>(
                (out@.map_values(|p: Placement<'a>| p@), reader.offset as int),
            ),
        decreases count - i,
    {
        match parse_placement(reader, table, last, version, model_count) {
            Ok(p) => {
                let ghost before = out@;
                out.push(p);
                assert(out@.map_values(|p: Placement<'a>| p@) =~= before.map_values(
                    |p: Placement<'a>| p@,
                ).push(p@));
                i = i + 1;
            },
            Err(e) => {
                proof {
                    bytes::lemma_repeat_error_persists(step, s, start, (i + 1) as nat, count as nat);
                }
                return Err(e);
            },
        }
    }
    Ok(out)
}

fn parse_regions(reader: &mut Reader, table: &[u8], last: Option<usize>, count: u32) -> (r:
    Result<Vec<Region>, ParseError>)
    requires
        old(reader).wf(),
        bytes::is_last_nul(table@, last),
    ensures
        final(reader).wf(),
        final(reader).bytes == old(reader).bytes,
        match r {
            Ok(v) => bytes::repeat(
                region_step(table@),
                old(reader).bytes@,
                old(reader).offset as int,
                count as nat,
            ) == Ok::<(Seq<RegionView>, int), ParseError>(
                (v@.map_values(|x: Region| x@), final(reader).offset as int),
            ),
            Err(e) => bytes::repeat(
                region_step(table@),
                old(reader).bytes@,
                old(reader).offset as int,
                count as nat,
            ) == Err::<(Seq<RegionView>, int), ParseError>(e),
        },
{
    let ghost s = reader.bytes@;
    let ghost start = reader.offset as int;
    let ghost step = region_step(table@);
    let mut out: Vec<Region> = Vec::new();
    assert(out@.map_values(|x: Region| x@) =~= Seq::empty());
    let mut i: u32 = 0;
    while i < count
        invariant
            reader.wf(),
            reader.bytes == old(reader).bytes,
            s == old(reader).bytes@,
            start == old(reader).offset,
            step == region_step(table@),
            bytes::is_last_nul(table@, last),
            i <= count,
            bytes::repeat(step, s, start, i as nat) == Ok::<(Seq<RegionView>, int), ParseError>(
                (out@.map_values(|x: Region| x@), reader.offset as int),
            ),
        decreases count - i,
    {
        match parse_region(reader, table, last) {
            Ok(x) => {
                let ghost before = out@;
                out.push(x);
                assert(out@.map_values(|x: Region| x@) =~= before.map_values(|x: Region| x@).push(
                    x@,
                ));
                i = i + 1;
            },
            Err(e) => {
                proof {
                    bytes::lemma_repeat_error_persists(step, s, start, (i + 1) as nat, count as nat);
                }
                return Err(e);
            },
        }
    }
    Ok(out)
}

fn parse_lights(reader: &mut Reader, table: &[u8], last: Option<usize>, count: u32) -> (r:
    Result<Vec<Light>, ParseError>)
    requires
        old(reader).wf(),
        bytes::is_last_nul(table@, last),
    ensures
        final(reader).wf(),
        final(reader).bytes == old(reader).bytes,
        match r {
            Ok(v) => bytes::repeat(
                light_step(table@),
                old(reader).bytes@,
                old(reader).offset as int,
                count as nat,
            ) == Ok::<(Seq<LightView>, int), ParseError>(
                (v@.map_values(|x: Light| x@), final(reader).offset as int),
            ),
            Err(e) => bytes::repeat(
                light_step(table@),
                old(reader).bytes@,
                old(reader).offset as int,
                count as nat,
            ) == Err::<(Seq<LightView>, int), ParseError>(e),
        },
{
    let ghost s = reader.bytes@;
    let ghost start = reader.offset as int;
    let ghost step = light_step(table@);
    let mut out: Vec<Light> = Vec::new();
    assert(out@.map_values(|x: Light| x@) =~= Seq::empty());
    let mut i: u32 = 0;
    while i < count
        invariant
            reader.wf(),
            reader.bytes == old(reader).bytes,
            s == old(reader).bytes@,
            start == old(reader).offset,
            step == light_step(table@),
            bytes::is_last_nul(table@, last),
            i <= count,
            bytes::repeat(step, s, start, i as nat) == Ok::<(Seq<LightView>, int), ParseError>(
                (out@.map_values(|x: Light| x@), reader.offset as int),
            ),
        decreases count - i,
    {
        match parse_light(reader, table, last) {
            Ok(x) => {
                let ghost before = out@;
                out.push(x);
                assert(out@.map_values(|x: Light| x@) =~= before.map_values(|x: Light| x@).push(
                    x@,
                ));
                i = i + 1;
            },
            Err(e) => {
                proof {
                    bytes::lemma_repeat_error_persists(step, s, start, (i + 1) as nat, count as nat);
                }
                return Err(e);
            },
        }
    }
    Ok(out)
}

/// The minimum byte size of the counted records, unless it exceeds `usize`.
fn records_size(version: u32, counts: &Vec<u32>) -> (r: Option<usize>)
    requires
        counts@.len() == 5,
    ensures
        r == (if minimum_size(version, counts@) <= usize::MAX {
            Some(minimum_size(version, counts@) as usize)
        } else {
            None::<usize>
        }),
{
    let stride: usize = if version == 1 {
        36
    } else {
        40
    };
    let m = add_records(0, counts[0], 1)?;
    let m = add_records(m, counts[1], 4)?;
    let m = add_records(m, counts[2], stride)?;
    let m = add_records(m, counts[3], 40)?;
    add_records(m, counts[4], 32)
}

/// Decode a complete counted descriptor, retaining any trailing bytes.
///
/// Every referenced string must terminate within the string table. Placement
/// model indices must address the model table, but may address a nullable entry.
/// Count-based minimum sizes are checked before allocating record vectors.
/// Unknown versions are rejected rather than parsed using another layout.
pub fn parse(input: &[u8]) -> (r: Result<Zone<'_>, ParseError>)
    ensures
        match r {
            Ok(zone) => parse_spec(input@) == Ok::<ZoneView, ParseError>(zone@),
            Err(e) => parse_spec(input@) == Err::<ZoneView, ParseError>(e),
        },
{
    let ghost s = input@;
    let mut reader = Reader::new(input);
    let magic = reader.take(4, "magic")?;
    let signature: [u8; 4] = [0x45, 0x51, 0x47, 0x5a];
    assert(signature@ == crate::zone_signature());
    if !starts_with(magic, signature.as_slice()) {
        assert(!bytes::has_prefix(s, crate::zone_signature())) by {
            if bytes::has_prefix(s, crate::zone_signature()) {
                assert(bytes::has_prefix(magic@, signature@));
            }
        }
        return Err(ParseError::InvalidMagic);
    }
    let version = reader.word("version")?;
    if version != 1 && version != 2 {
        return Err(ParseError::UnsupportedVersion { version });
    }
    let counts = reader.words(5, "header")?;
    assert(reader.offset == 28);
    let minimum = match records_size(version, &counts) {
        Some(m) => m,
        None => return Err(ParseError::CountOverflow { context: "record counts" }),
    };
    reader.require(minimum, "counted records")?;
    let string_table = reader.take(counts[0] as usize, "string table")?;
    let last = last_nul(string_table);
    let models = parse_models(&mut reader, string_table, last, counts[1])?;
    let placements = parse_placements(
        &mut reader,
        string_table,
        last,
        version,
        counts[1],
        counts[2],
    )?;
    let regions = parse_regions(&mut reader, string_table, last, counts[3])?;
    let lights = parse_lights(&mut reader, string_table, last, counts[4])?;
    let trailing_data = vstd::slice::slice_subrange(input, reader.offset, input.len());
    assert(trailing_data@ =~= s.skip(reader.offset as int));
    Ok(
        Zone {
            version,
            string_table,
            models,
            placements,
            regions,
            lights,
            trailing_data,
        },
    )
}

impl<'a> Zone<'a> {
    /// Resolve a NUL-terminated byte string, excluding its terminator.
    /// Non-UTF-8 bytes and offsets into the middle of a string are permitted.
    pub fn string(&self, offset: u32) -> (r: Result<&[u8], ParseError>)
        ensures
            r is Ok <==> bytes::terminates(self.string_table@, offset as int),
            match r {
                Ok(text) => bytes::string_at(self.string_table@, offset as int, text@),
                Err(e) => e == ParseError::InvalidStringReference { offset },
            },
    {
        match string_in(self.string_table, offset) {
            Some(text) => {
                assert(self.string_table@[offset + text@.len()] == 0);
                Ok(text)
            },
            None => Err(ParseError::InvalidStringReference { offset }),
        }
    }
}

impl<'a> Placement<'a> {
    /// The extension data as little-endian words; a final partial word is ignored.
    pub fn extension_words(&self) -> (words: Vec<u32>)
        ensures
            words@ == bytes::le_words(
                self.extension_data@,
                0,
                self.extension_data@.len() / 4,
            ),
    {
        let data = self.extension_data;
        let len = data.len();
        let n = len / 4;
        let mut words: Vec<u32> = Vec::new();
        let mut i: usize = 0;
        while i < n
            invariant
                data@ == self.extension_data@,
                len == data@.len(),
                n == data@.len() / 4,
                i <= n,
                words@ == bytes::le_words(data@, 0, i as nat),
            decreases n - i,
        {
            assert(4 * i + 4 <= data@.len());
            words.push(read_u32_le(data, 4 * i));
            i = i + 1;
            assert(words@ =~= bytes::le_words(data@, 0, i as nat));
        }
        assert(words@ =~= bytes::le_words(data@, 0, n as nat));
        words
    }
}

// ---------------------------------------------------------------------------
// Laws.
// ---------------------------------------------------------------------------

/// Every string reference of a zone resolves within its string table, and
/// every placement model index addresses the model table.
pub open spec fn references_resolve(z: ZoneView) -> bool {
    &&& forall|i: int|
        0 <= i < z.models.len() ==> (#[trigger] z.models[i] matches Some(offset)
            ==> bytes::terminates(z.string_table, offset as int))
    &&& forall|i: int|
        0 <= i < z.placements.len() ==> bytes::terminates(
            z.string_table,
            #[trigger] z.placements[i].name_offset as int,
        )
    &&& forall|i: int|
        0 <= i < z.placements.len() ==> (#[trigger] z.placements[i].model_index matches Some(
            index,
        ) ==> index < z.models.len())
    &&& forall|i: int|
        0 <= i < z.regions.len() ==> bytes::terminates(
            z.string_table,
            #[trigger] z.regions[i].name_offset as int,
        )
    &&& forall|i: int|
        0 <= i < z.lights.len() ==> bytes::terminates(
            z.string_table,
            #[trigger] z.lights[i].name_offset as int,
        )
}

/// The record shapes of a zone: a supported version, three-word transforms,
/// no extension words in version 1 and whole extension words in version 2,
/// nine region words and seven light words.
pub open spec fn records_well_formed(z: ZoneView) -> bool {
    &&& z.version == 1 || z.version == 2
    &&& forall|i: int|
        0 <= i < z.placements.len() ==> {
            let p = #[trigger] z.placements[i];
            &&& p.position.len() == 3
            &&& p.rotation.len() == 3
            &&& z.version == 1 ==> p.extension_data.len() == 0
            &&& p.extension_data.len() % 4 == 0
        }
    &&& forall|i: int| 0 <= i < z.regions.len() ==> (#[trigger] z.regions[i]).data.len() == 9
    &&& forall|i: int| 0 <= i < z.lights.len() ==> (#[trigger] z.lights[i]).data.len() == 7
}

/// The bytes that a placement of a version occupies: the fixed fields and,
/// in version 2, the extension count and its words.
pub open spec fn placement_size(version: u32) -> spec_fn(PlacementView) -> int {
    |p: PlacementView|
        if version == 1 {
            36int
        } else {
            40 + p.extension_data.len() as int
        }
}

pub open spec fn model_valid(table: Seq<u8>) -> spec_fn(Option<u32>) -> bool {
    |m: Option<u32>| m matches Some(offset) ==> bytes::terminates(table, offset as int)
}

pub open spec fn placement_valid(table: Seq<u8>, version: u32, model_count: u32) -> spec_fn(
    PlacementView,
) -> bool {
    |p: PlacementView|
        {
            &&& bytes::terminates(table, p.name_offset as int)
            &&& p.model_index matches Some(index) ==> index < model_count
            &&& p.position.len() == 3
            &&& p.rotation.len() == 3
            &&& version == 1 ==> p.extension_data.len() == 0
            &&& p.extension_data.len() % 4 == 0
        }
}

pub open spec fn region_valid(table: Seq<u8>) -> spec_fn(RegionView) -> bool {
    |r: RegionView| bytes::terminates(table, r.name_offset as int) && r.data.len() == 9
}

pub open spec fn light_valid(table: Seq<u8>) -> spec_fn(LightView) -> bool {
    |l: LightView| bytes::terminates(table, l.name_offset as int) && l.data.len() == 7
}

proof fn lemma_word_resumes(s: Seq<u8>, t: Seq<u8>, pos: int, context: &'static str)
    requires
        bytes::compatible(s, t),
        0 <= pos,
    ensures
        word_spec(s, pos, context) matches Ok((w, e)) ==> {
            &&& e == pos + 4
            &&& e <= s.len()
            &&& e <= t.len() ==> word_spec(t, pos, context) == word_spec(s, pos, context)
            &&& t.len() < e ==> word_spec(t, pos, context) is Err
        },
{
    if pos + 4 <= s.len() && pos + 4 <= t.len() {
        assert(s[pos] == t[pos]);
        assert(s[pos + 1] == t[pos + 1]);
        assert(s[pos + 2] == t[pos + 2]);
        assert(s[pos + 3] == t[pos + 3]);
    }
}

proof fn lemma_words_resumes(s: Seq<u8>, t: Seq<u8>, pos: int, n: nat, context: &'static str)
    requires
        bytes::compatible(s, t),
        0 <= pos,
    ensures
        words_spec(s, pos, n, context) matches Ok((w, e)) ==> {
            &&& e == pos + 4 * n
            &&& e <= s.len()
            &&& w.len() == n
            &&& e <= t.len() ==> words_spec(t, pos, n, context) == words_spec(s, pos, n, context)
            &&& t.len() < e ==> words_spec(t, pos, n, context) is Err
        },
{
    if pos + 4 * n <= s.len() && pos + 4 * n <= t.len() {
        bytes::lemma_le_words_compatible(s, t, pos, n);
    }
}

proof fn lemma_model_step(s: Seq<u8>, t: Seq<u8>, table: Seq<u8>, pos: int)
    requires
        bytes::compatible(s, t),
        0 <= pos,
    ensures
        bytes::step_resumes(model_step(table), s, t, pos),
        bytes::step_yields(model_step(table), s, pos, 4, model_valid(table)),
        bytes::step_consumes(model_step(table), s, pos, bytes::const_size(4)),
{
    lemma_word_resumes(s, t, pos, "model");
}

proof fn lemma_placement_step(
    s: Seq<u8>,
    t: Seq<u8>,
    table: Seq<u8>,
    version: u32,
    model_count: u32,
    pos: int,
)
    requires
        bytes::compatible(s, t),
        0 <= pos,
        version == 1 || version == 2,
    ensures
        bytes::step_resumes(placement_step(table, version, model_count), s, t, pos),
        bytes::step_yields(
            placement_step(table, version, model_count),
            s,
            pos,
            placement_bytes(version, 1),
            placement_valid(table, version, model_count),
        ),
        bytes::step_consumes(
            placement_step(table, version, model_count),
            s,
            pos,
            placement_size(version),
        ),
{
    lemma_word_resumes(s, t, pos, "placement model");
    lemma_word_resumes(s, t, pos + 4, "placement name");
    lemma_words_resumes(s, t, pos + 8, 3, "placement position");
    lemma_words_resumes(s, t, pos + 20, 3, "placement rotation");
    lemma_word_resumes(s, t, pos + 32, "placement scale");
    lemma_word_resumes(s, t, pos + 36, "placement extension count");
    if version == 2 && pos + 40 <= s.len() && pos + 40 <= t.len() {
        let count = bytes::le_u32(s, pos + 36);
        let end = pos + 40 + count * 4;
        if end <= s.len() && end <= t.len() {
            assert(s.subrange(pos + 40, end) =~= t.subrange(pos + 40, end));
        }
        assert((count * 4) % 4 == 0);
    }
}

proof fn lemma_region_step(s: Seq<u8>, t: Seq<u8>, table: Seq<u8>, pos: int)
    requires
        bytes::compatible(s, t),
        0 <= pos,
    ensures
        bytes::step_resumes(region_step(table), s, t, pos),
        bytes::step_yields(region_step(table), s, pos, 40, region_valid(table)),
        bytes::step_consumes(region_step(table), s, pos, bytes::const_size(40)),
{
    lemma_word_resumes(s, t, pos, "region name");
    lemma_words_resumes(s, t, pos + 4, 9, "region data");
}

proof fn lemma_light_step(s: Seq<u8>, t: Seq<u8>, table: Seq<u8>, pos: int)
    requires
        bytes::compatible(s, t),
        0 <= pos,
    ensures
        bytes::step_resumes(light_step(table), s, t, pos),
        bytes::step_yields(light_step(table), s, pos, 32, light_valid(table)),
        bytes::step_consumes(light_step(table), s, pos, bytes::const_size(32)),
{
    lemma_word_resumes(s, t, pos, "light name");
    lemma_words_resumes(s, t, pos + 4, 7, "light data");
}

/// The zone `z` with its trailing bytes replaced.
pub open spec fn with_trailing(z: ZoneView, trailing_data: Seq<u8>) -> ZoneView {
    ZoneView {
        version: z.version,
        string_table: z.string_table,
        models: z.models,
        placements: z.placements,
        regions: z.regions,
        lights: z.lights,
        trailing_data,
    }
}

proof fn lemma_records_yield(s: Seq<u8>, version: u32, counts: Seq<u32>)
    requires
        counts.len() == 5,
        version == 1 || version == 2,
    ensures
        records_spec(s, version, counts) matches Ok(z) ==> {
            let c = s.len() - z.trailing_data.len();
            &&& 28 + minimum_size(version, counts) <= c <= s.len()
            &&& z.trailing_data == s.skip(c)
            &&& z.string_table == s.subrange(28, 28 + counts[0])
            &&& z.models.len() == counts[1]
            &&& z.placements.len() == counts[2]
            &&& z.regions.len() == counts[3]
            &&& z.lights.len() == counts[4]
            &&& references_resolve(z)
            &&& records_well_formed(z)
        },
{
    let minimum = minimum_size(version, counts);
    if minimum > usize::MAX || minimum > s.len() - 28 {
        return;
    }
    let table_end = 28 + counts[0];
    let table = s.subrange(28, table_end);
    let ms = model_step(table);
    let ps = placement_step(table, version, counts[1]);
    let rs = region_step(table);
    let ls = light_step(table);
    let mv = model_valid(table);
    let pv = placement_valid(table, version, counts[1]);
    let rv = region_valid(table);
    let lv = light_valid(table);
    let pk = placement_bytes(version, 1);
    assert forall|pos: int| 0 <= pos implies #[trigger] bytes::step_yields(ms, s, pos, 4, mv) by {
        lemma_model_step(s, s, table, pos);
    }
    assert forall|pos: int| 0 <= pos implies #[trigger] bytes::step_yields(ps, s, pos, pk, pv) by {
        lemma_placement_step(s, s, table, version, counts[1], pos);
    }
    assert forall|pos: int| 0 <= pos implies #[trigger] bytes::step_yields(rs, s, pos, 40, rv) by {
        lemma_region_step(s, s, table, pos);
    }
    assert forall|pos: int| 0 <= pos implies #[trigger] bytes::step_yields(ls, s, pos, 32, lv) by {
        lemma_light_step(s, s, table, pos);
    }
    bytes::lemma_repeat_yields(ms, s, table_end, counts[1] as nat, 4, mv);
    if let Ok((models, p1)) = bytes::repeat(ms, s, table_end, counts[1] as nat) {
        bytes::lemma_repeat_yields(ps, s, p1, counts[2] as nat, pk as nat, pv);
        if let Ok((placements, p2)) = bytes::repeat(ps, s, p1, counts[2] as nat) {
            bytes::lemma_repeat_yields(rs, s, p2, counts[3] as nat, 40, rv);
            if let Ok((regions, p3)) = bytes::repeat(rs, s, p2, counts[3] as nat) {
                bytes::lemma_repeat_yields(ls, s, p3, counts[4] as nat, 32, lv);
                if let Ok((lights, p4)) = bytes::repeat(ls, s, p3, counts[4] as nat) {
                    assert(counts[2] * pk == placement_bytes(version, counts[2])) by (
                    nonlinear_arith)
                        requires
                            pk == placement_bytes(version, 1),
                    ;
                    let z = ZoneView {
                        version,
                        string_table: table,
                        models,
                        placements,
                        regions,
                        lights,
                        trailing_data: s.skip(p4),
                    };
                    assert(records_spec(s, version, counts) == Ok::<ZoneView, ParseError>(z));
                    assert forall|i: int| 0 <= i < models.len() implies (
                    #[trigger] models[i] matches Some(offset) ==> bytes::terminates(
                        table,
                        offset as int,
                    )) by {
                        assert(mv(models[i]));
                    }
                    assert forall|i: int| 0 <= i < placements.len() implies {
                        let p = #[trigger] placements[i];
                        &&& bytes::terminates(table, p.name_offset as int)
                        &&& p.model_index matches Some(index) ==> index < models.len()
                        &&& p.position.len() == 3
                        &&& p.rotation.len() == 3
                        &&& version == 1 ==> p.extension_data.len() == 0
                        &&& p.extension_data.len() % 4 == 0
                    } by {
                        assert(pv(placements[i]));
                    }
                    assert forall|i: int| 0 <= i < regions.len() implies bytes::terminates(
                        table,
                        (#[trigger] regions[i]).name_offset as int,
                    ) && regions[i].data.len() == 9 by {
                        assert(rv(regions[i]));
                    }
                    assert forall|i: int| 0 <= i < lights.len() implies bytes::terminates(
                        table,
                        (#[trigger] lights[i]).name_offset as int,
                    ) && lights[i].data.len() == 7 by {
                        assert(lv(lights[i]));
                    }
                    assert(references_resolve(z));
                    assert(records_well_formed(z));
                }
            }
        }
    }
}

#[verifier::rlimit(40)]
proof fn lemma_records_resume(s: Seq<u8>, t: Seq<u8>, version: u32, counts: Seq<u32>)
    requires
        bytes::compatible(s, t),
        counts.len() == 5,
        version == 1 || version == 2,
    ensures
        records_spec(s, version, counts) matches Ok(z) ==> {
            let c = s.len() - z.trailing_data.len();
            &&& c <= t.len() ==> records_spec(t, version, counts) == Ok::<ZoneView, ParseError>(
                with_trailing(z, t.skip(c)),
            )
            &&& t.len() < c ==> records_spec(t, version, counts) is Err
        },
{
    let minimum = minimum_size(version, counts);
    if minimum > usize::MAX || minimum > s.len() - 28 {
        return;
    }
    lemma_records_yield(s, version, counts);
    let table_end = 28 + counts[0];
    let table = s.subrange(28, table_end);
    if t.len() < 28 + minimum {
        return;
    }
    assert(t.subrange(28, table_end) =~= table);
    let ms = model_step(table);
    let ps = placement_step(table, version, counts[1]);
    let rs = region_step(table);
    let ls = light_step(table);
    assert forall|pos: int| 0 <= pos implies #[trigger] bytes::step_resumes(ms, s, t, pos) by {
        lemma_model_step(s, t, table, pos);
    }
    assert forall|pos: int| 0 <= pos implies #[trigger] bytes::step_resumes(ps, s, t, pos) by {
        lemma_placement_step(s, t, table, version, counts[1], pos);
    }
    assert forall|pos: int| 0 <= pos implies #[trigger] bytes::step_resumes(rs, s, t, pos) by {
        lemma_region_step(s, t, table, pos);
    }
    assert forall|pos: int| 0 <= pos implies #[trigger] bytes::step_resumes(ls, s, t, pos) by {
        lemma_light_step(s, t, table, pos);
    }
    bytes::lemma_repeat_resumes(ms, s, t, table_end, counts[1] as nat);
    if let Ok((models, p1)) = bytes::repeat(ms, s, table_end, counts[1] as nat) {
        bytes::lemma_repeat_resumes(ps, s, t, p1, counts[2] as nat);
        if let Ok((placements, p2)) = bytes::repeat(ps, s, p1, counts[2] as nat) {
            bytes::lemma_repeat_resumes(rs, s, t, p2, counts[3] as nat);
            if let Ok((regions, p3)) = bytes::repeat(rs, s, p2, counts[3] as nat) {
                bytes::lemma_repeat_resumes(ls, s, t, p3, counts[4] as nat);
            }
        }
    }
}

/// Parsing depends on the bytes it consumes and on nothing after them.
///
/// When `s` parses, let `c` be the number of bytes that its counted records
/// consume; the trailing data is then exactly the bytes of `s` after `c`. Any
/// `t` that agrees with `s` wherever both have a byte (a prefix or an
/// extension of `s`, say) parses to the same zone, with `t`'s own bytes after
/// `c` as trailing data, if it holds at least `c` bytes, and is rejected if
/// it holds fewer.
pub proof fn lemma_parse_depends_only_on_consumed_bytes(s: Seq<u8>, t: Seq<u8>)
    requires
        bytes::compatible(s, t),
    ensures
        parse_spec(s) matches Ok(z) ==> {
            let c = s.len() - z.trailing_data.len();
            &&& 0 <= c <= s.len()
            &&& z.trailing_data == s.skip(c)
            &&& c <= t.len() ==> parse_spec(t) == Ok::<ZoneView, ParseError>(
                with_trailing(z, t.skip(c)),
            )
            &&& t.len() < c ==> parse_spec(t) is Err
        },
{
    if parse_spec(s) is Ok {
        lemma_word_resumes(s, t, 4, "version");
        lemma_words_resumes(s, t, 8, 5, "header");
        let version = bytes::le_u32(s, 4);
        let counts = bytes::le_words(s, 8, 5);
        lemma_records_yield(s, version, counts);
        lemma_records_resume(s, t, version, counts);
        if t.len() >= 4 {
            assert(bytes::has_prefix(t, crate::zone_signature()) == bytes::has_prefix(
                s,
                crate::zone_signature(),
            )) by {
                assert(s[0] == t[0] && s[1] == t[1] && s[2] == t[2] && s[3] == t[3]);
            }
        }
    }
}

/// What a parsed zone holds is valid: every string reference resolves within
/// the string table (so [`Zone::string`] succeeds on it), every placement
/// model index addresses the model table, and every record has its shape.
pub proof fn lemma_parsed_zone_is_valid(s: Seq<u8>)
    ensures
        parse_spec(s) matches Ok(z) ==> references_resolve(z) && records_well_formed(z),
{
    if parse_spec(s) is Ok {
        lemma_records_yield(s, bytes::le_u32(s, 4), bytes::le_words(s, 8, 5));
    }
}

/// Bytes appended to a zone that parses become trailing data; the records stay.
pub proof fn lemma_parse_keeps_appended_bytes(s: Seq<u8>, extra: Seq<u8>)
    ensures
        parse_spec(s) matches Ok(z) ==> parse_spec(s + extra) == Ok::<ZoneView, ParseError>(
            with_trailing(z, z.trailing_data + extra),
        ),
{
    let t = s + extra;
    assert(bytes::compatible(s, t));
    lemma_parse_depends_only_on_consumed_bytes(s, t);
    if let Ok(z) = parse_spec(s) {
        let c = s.len() - z.trailing_data.len();
        assert forall|i: int| 0 <= i < t.len() - c implies #[trigger] t.skip(c)[i] == (
        z.trailing_data + extra)[i] by {
            if i < s.len() - c {
                assert(t[c + i] == s[c + i]);
            }
        }
        assert(t.skip(c) =~= z.trailing_data + extra);
    }
}

/// Every prefix of a zone that parses that stops short of its counted records
/// is rejected.
pub proof fn lemma_parse_rejects_truncated_records(s: Seq<u8>, k: int)
    requires
        0 <= k,
    ensures
        parse_spec(s) matches Ok(z) ==> (k < s.len() - z.trailing_data.len() ==> parse_spec(
            s.take(k),
        ) is Err),
{
    if let Ok(z) = parse_spec(s) {
        if k < s.len() - z.trailing_data.len() {
            let t = s.take(k);
            assert(bytes::compatible(s, t));
            lemma_parse_depends_only_on_consumed_bytes(s, t);
        }
    }
}

proof fn lemma_records_layout(s: Seq<u8>, version: u32, counts: Seq<u32>)
    requires
        counts.len() == 5,
        version == 1 || version == 2,
    ensures
        records_spec(s, version, counts) matches Ok(z) ==> z.trailing_data == s.skip(
            28 + counts[0] + 4 * counts[1] + bytes::total(z.placements, placement_size(version))
                + 40 * counts[3] + 32 * counts[4],
        ),
{
    let minimum = minimum_size(version, counts);
    if minimum > usize::MAX || minimum > s.len() - 28 {
        return;
    }
    let table_end = 28 + counts[0];
    let table = s.subrange(28, table_end);
    let ms = model_step(table);
    let ps = placement_step(table, version, counts[1]);
    let rs = region_step(table);
    let ls = light_step(table);
    let psize = placement_size(version);
    assert forall|pos: int| 0 <= pos implies #[trigger] bytes::step_consumes(
        ms,
        s,
        pos,
        bytes::const_size(4),
    ) by {
        lemma_model_step(s, s, table, pos);
    }
    assert forall|pos: int| 0 <= pos implies #[trigger] bytes::step_consumes(ps, s, pos, psize) by {
        lemma_placement_step(s, s, table, version, counts[1], pos);
    }
    assert forall|pos: int| 0 <= pos implies #[trigger] bytes::step_consumes(
        rs,
        s,
        pos,
        bytes::const_size(40),
    ) by {
        lemma_region_step(s, s, table, pos);
    }
    assert forall|pos: int| 0 <= pos implies #[trigger] bytes::step_consumes(
        ls,
        s,
        pos,
        bytes::const_size(32),
    ) by {
        lemma_light_step(s, s, table, pos);
    }
    lemma_records_yield(s, version, counts);
    bytes::lemma_repeat_consumes(ms, s, table_end, counts[1] as nat, bytes::const_size(4));
    if let Ok((models, p1)) = bytes::repeat(ms, s, table_end, counts[1] as nat) {
        bytes::lemma_total_const(models, 4);
        bytes::lemma_repeat_consumes(ps, s, p1, counts[2] as nat, psize);
        if let Ok((placements, p2)) = bytes::repeat(ps, s, p1, counts[2] as nat) {
            bytes::lemma_repeat_consumes(rs, s, p2, counts[3] as nat, bytes::const_size(40));
            if let Ok((regions, p3)) = bytes::repeat(rs, s, p2, counts[3] as nat) {
                bytes::lemma_total_const(regions, 40);
                bytes::lemma_repeat_consumes(ls, s, p3, counts[4] as nat, bytes::const_size(32));
                if let Ok((lights, p4)) = bytes::repeat(ls, s, p3, counts[4] as nat) {
                    bytes::lemma_total_const(lights, 32);
                }
            }
        }
    }
}

/// Where the parts of a parsed zone come from: the version word, the string
/// table right after the header, as many models, placements, regions and
/// lights as the header counts, and trailing data that starts after the
/// records, whose sizes are four bytes per model, 36 (version 1) or 40 plus
/// its extension words (version 2) per placement, 40 per region and 32 per
/// light.
pub proof fn lemma_parsed_zone_layout(s: Seq<u8>)
    ensures
        parse_spec(s) matches Ok(z) ==> {
            let counts = bytes::le_words(s, 8, 5);
            &&& z.version == bytes::le_u32(s, 4)
            &&& z.string_table == s.subrange(28, 28 + counts[0])
            &&& z.models.len() == counts[1]
            &&& z.placements.len() == counts[2]
            &&& z.regions.len() == counts[3]
            &&& z.lights.len() == counts[4]
            &&& z.trailing_data == s.skip(
                28 + counts[0] + 4 * counts[1] + bytes::total(
                    z.placements,
                    placement_size(z.version),
                ) + 40 * counts[3] + 32 * counts[4],
            )
        },
{
    if parse_spec(s) is Ok {
        let version = bytes::le_u32(s, 4);
        let counts = bytes::le_words(s, 8, 5);
        lemma_records_yield(s, version, counts);
        lemma_records_layout(s, version, counts);
    }
}

/// The placement record of a version that starts at `at` in `s` holds `p`:
/// the nullable model index, the name offset, three position words, three
/// rotation words, the scale word and, in version 2, the counted extension
/// words after their count.
pub open spec fn placement_record_at(s: Seq<u8>, version: u32, at: int, p: PlacementView) -> bool {
    &&& p.model_index == bytes::nullable(bytes::le_u32(s, at))
    &&& p.name_offset == bytes::le_u32(s, at + 4)
    &&& p.position == bytes::le_words(s, at + 8, 3)
    &&& p.rotation == bytes::le_words(s, at + 20, 3)
    &&& p.scale == bytes::le_u32(s, at + 32)
    &&& p.extension_data == if version == 1 {
        Seq::<u8>::empty()
    } else {
        s.subrange(at + 40, at + 40 + 4 * bytes::le_u32(s, at + 36))
    }
}

proof fn lemma_models_fields(s: Seq<u8>, table: Seq<u8>, start: int, n: nat)
    requires
        0 <= start,
    ensures
        bytes::repeat(model_step(table), s, start, n) matches Ok((models, e)) ==> {
            &&& e == start + 4 * models.len()
            &&& models.len() == n
            &&& forall|i: int|
                0 <= i < models.len() ==> #[trigger] models[i] == bytes::nullable(
                    bytes::le_u32(s, start + 4 * i),
                )
        },
{
    let ms = model_step(table);
    assert forall|pos: int| 0 <= pos implies #[trigger] bytes::step_consumes(
        ms,
        s,
        pos,
        bytes::const_size(4),
    ) by {
        lemma_model_step(s, s, table, pos);
    }
    bytes::lemma_repeat_consumes(ms, s, start, n, bytes::const_size(4));
    bytes::lemma_repeat_len(ms, s, start, n);
    if let Ok((models, e)) = bytes::repeat(ms, s, start, n) {
        bytes::lemma_total_const(models, 4);
        assert forall|i: int| 0 <= i < models.len() implies #[trigger] models[i]
            == bytes::nullable(bytes::le_u32(s, start + 4 * i)) by {
            bytes::lemma_repeat_item_at(ms, s, start, n, bytes::const_size(4), i);
            bytes::lemma_total_const(models.take(i), 4);
        }
    }
}

proof fn lemma_placements_fields(
    s: Seq<u8>,
    table: Seq<u8>,
    version: u32,
    model_count: u32,
    start: int,
    n: nat,
)
    requires
        0 <= start,
        version == 1 || version == 2,
    ensures
        bytes::repeat(placement_step(table, version, model_count), s, start, n) matches Ok(
            (placements, e),
        ) ==> {
            &&& start <= e
            &&& e == start + bytes::total(placements, placement_size(version))
            &&& forall|i: int|
                0 <= i < placements.len() ==> placement_record_at(
                    s,
                    version,
                    start + bytes::total(placements.take(i), placement_size(version)),
                    #[trigger] placements[i],
                )
        },
{
    let ps = placement_step(table, version, model_count);
    let psize = placement_size(version);
    assert forall|pos: int| 0 <= pos implies #[trigger] bytes::step_consumes(ps, s, pos, psize) by {
        lemma_placement_step(s, s, table, version, model_count, pos);
    }
    bytes::lemma_repeat_consumes(ps, s, start, n, psize);
    bytes::lemma_repeat_len(ps, s, start, n);
    if let Ok((placements, e)) = bytes::repeat(ps, s, start, n) {
        assert forall|i: int| 0 <= i < placements.len() implies placement_record_at(
            s,
            version,
            start + bytes::total(placements.take(i), psize),
            #[trigger] placements[i],
        ) by {
            bytes::lemma_repeat_item_at(ps, s, start, n, psize, i);
        }
    }
}

proof fn lemma_regions_fields(s: Seq<u8>, table: Seq<u8>, start: int, n: nat)
    requires
        0 <= start,
    ensures
        bytes::repeat(region_step(table), s, start, n) matches Ok((regions, e)) ==> {
            &&& e == start + 40 * regions.len()
            &&& forall|i: int|
                0 <= i < regions.len() ==> (#[trigger] regions[i]).name_offset == bytes::le_u32(
                    s,
                    start + 40 * i,
                ) && regions[i].data == bytes::le_words(s, start + 40 * i + 4, 9)
        },
{
    let rs = region_step(table);
    assert forall|pos: int| 0 <= pos implies #[trigger] bytes::step_consumes(
        rs,
        s,
        pos,
        bytes::const_size(40),
    ) by {
        lemma_region_step(s, s, table, pos);
    }
    bytes::lemma_repeat_consumes(rs, s, start, n, bytes::const_size(40));
    bytes::lemma_repeat_len(rs, s, start, n);
    if let Ok((regions, e)) = bytes::repeat(rs, s, start, n) {
        bytes::lemma_total_const(regions, 40);
        assert forall|i: int| 0 <= i < regions.len() implies (#[trigger] regions[i]).name_offset
            == bytes::le_u32(s, start + 40 * i) && regions[i].data == bytes::le_words(
            s,
            start + 40 * i + 4,
            9,
        ) by {
            bytes::lemma_repeat_item_at(rs, s, start, n, bytes::const_size(40), i);
            bytes::lemma_total_const(regions.take(i), 40);
        }
    }
}

proof fn lemma_lights_fields(s: Seq<u8>, table: Seq<u8>, start: int, n: nat)
    requires
        0 <= start,
    ensures
        bytes::repeat(light_step(table), s, start, n) matches Ok((lights, e)) ==> {
            &&& e == start + 32 * lights.len()
            &&& forall|i: int|
                0 <= i < lights.len() ==> (#[trigger] lights[i]).name_offset == bytes::le_u32(
                    s,
                    start + 32 * i,
                ) && lights[i].data == bytes::le_words(s, start + 32 * i + 4, 7)
        },
{
    let ls = light_step(table);
    assert forall|pos: int| 0 <= pos implies #[trigger] bytes::step_consumes(
        ls,
        s,
        pos,
        bytes::const_size(32),
    ) by {
        lemma_light_step(s, s, table, pos);
    }
    bytes::lemma_repeat_consumes(ls, s, start, n, bytes::const_size(32));
    bytes::lemma_repeat_len(ls, s, start, n);
    if let Ok((lights, e)) = bytes::repeat(ls, s, start, n) {
        bytes::lemma_total_const(lights, 32);
        assert forall|i: int| 0 <= i < lights.len() implies (#[trigger] lights[i]).name_offset
            == bytes::le_u32(s, start + 32 * i) && lights[i].data == bytes::le_words(
            s,
            start + 32 * i + 4,
            7,
        ) by {
            bytes::lemma_repeat_item_at(ls, s, start, n, bytes::const_size(32), i);
            bytes::lemma_total_const(lights.take(i), 32);
        }
    }
}

#[verifier::rlimit(60)]
proof fn lemma_records_fields(s: Seq<u8>, version: u32, counts: Seq<u32>)
    requires
        counts.len() == 5,
        version == 1 || version == 2,
    ensures
        records_spec(s, version, counts) matches Ok(z) ==> {
            let models_start = 28 + counts[0];
            let placements_start = models_start + 4 * z.models.len();
            let end = s.len() - z.trailing_data.len();
            let lights_start = end - 32 * z.lights.len();
            let regions_start = lights_start - 40 * z.regions.len();
            &&& forall|i: int|
                0 <= i < z.models.len() ==> #[trigger] z.models[i] == bytes::nullable(
                    bytes::le_u32(s, models_start + 4 * i),
                )
            &&& forall|i: int|
                0 <= i < z.placements.len() ==> placement_record_at(
                    s,
                    version,
                    placements_start + bytes::total(
                        z.placements.take(i),
                        placement_size(version),
                    ),
                    #[trigger] z.placements[i],
                )
            &&& forall|i: int|
                0 <= i < z.regions.len() ==> (#[trigger] z.regions[i]).name_offset
                    == bytes::le_u32(s, regions_start + 40 * i) && z.regions[i].data
                    == bytes::le_words(s, regions_start + 40 * i + 4, 9)
            &&& forall|i: int|
                0 <= i < z.lights.len() ==> (#[trigger] z.lights[i]).name_offset == bytes::le_u32(
                    s,
                    lights_start + 32 * i,
                ) && z.lights[i].data == bytes::le_words(s, lights_start + 32 * i + 4, 7)
        },
{
    let minimum = minimum_size(version, counts);
    if minimum > usize::MAX || minimum > s.len() - 28 {
        return;
    }
    let table_end = 28 + counts[0];
    let table = s.subrange(28, table_end);
    lemma_models_fields(s, table, table_end, counts[1] as nat);
    if let Ok((models, p1)) = bytes::repeat(model_step(table), s, table_end, counts[1] as nat) {
        lemma_placements_fields(s, table, version, counts[1], p1, counts[2] as nat);
        if let Ok((placements, p2)) = bytes::repeat(
            placement_step(table, version, counts[1]),
            s,
            p1,
            counts[2] as nat,
        ) {
            lemma_regions_fields(s, table, p2, counts[3] as nat);
            if let Ok((regions, p3)) = bytes::repeat(region_step(table), s, p2, counts[3] as nat) {
                lemma_lights_fields(s, table, p3, counts[4] as nat);
                if let Ok((lights, p4)) = bytes::repeat(
                    light_step(table),
                    s,
                    p3,
                    counts[4] as nat,
                ) {
                    let z = ZoneView {
                        version,
                        string_table: table,
                        models,
                        placements,
                        regions,
                        lights,
                        trailing_data: s.skip(p4),
                    };
                    assert(records_spec(s, version, counts) == Ok::<ZoneView, ParseError>(z));
                    assert(s.len() - z.trailing_data.len() == p4);
                    assert(p4 - 32 * lights.len() == p3);
                    assert(p3 - 40 * regions.len() == p2);
                }
            }
        }
    }
}

/// Every record of a parsed zone holds the words stored at its place in the
/// input: model `i` is the nullable word at `28 + s + 4i` (with `s` the string
/// table size), placements follow the models one after the other (see
/// [`placement_record_at`] and [`placement_size`]), and the 40-byte regions
/// and 32-byte lights, each a name word and its raw data words, are the last
/// records before the trailing data.
pub proof fn lemma_parsed_zone_records(s: Seq<u8>)
    ensures
        parse_spec(s) matches Ok(z) ==> {
            let counts = bytes::le_words(s, 8, 5);
            let models_start = 28 + counts[0];
            let placements_start = models_start + 4 * z.models.len();
            let end = s.len() - z.trailing_data.len();
            let lights_start = end - 32 * z.lights.len();
            let regions_start = lights_start - 40 * z.regions.len();
            &&& forall|i: int|
                0 <= i < z.models.len() ==> #[trigger] z.models[i] == bytes::nullable(
                    bytes::le_u32(s, models_start + 4 * i),
                )
            &&& forall|i: int|
                0 <= i < z.placements.len() ==> placement_record_at(
                    s,
                    z.version,
                    placements_start + bytes::total(
                        z.placements.take(i),
                        placement_size(z.version),
                    ),
                    #[trigger] z.placements[i],
                )
            &&& forall|i: int|
                0 <= i < z.regions.len() ==> (#[trigger] z.regions[i]).name_offset
                    == bytes::le_u32(s, regions_start + 40 * i) && z.regions[i].data
                    == bytes::le_words(s, regions_start + 40 * i + 4, 9)
            &&& forall|i: int|
                0 <= i < z.lights.len() ==> (#[trigger] z.lights[i]).name_offset == bytes::le_u32(
                    s,
                    lights_start + 32 * i,
                ) && z.lights[i].data == bytes::le_words(s, lights_start + 32 * i + 4, 7)
        },
{
    if parse_spec(s) is Ok {
        lemma_records_fields(s, bytes::le_u32(s, 4), bytes::le_words(s, 8, 5));
    }
}

// ---------------------------------------------------------------------------
// What each error says of the input.
// ---------------------------------------------------------------------------

/// A shortfall error reports where the read started, the bytes it needed and
/// the fewer bytes that were left of the `len` input bytes from there.
pub open spec fn shortfall_explained(e: ParseError, len: int) -> bool {
    e matches ParseError::Truncated { offset, needed, remaining, .. } && offset + remaining == len
        && remaining < needed
}

/// An error of the counted records of `len` input bytes, read with the
/// string table `table` and a model count: a shortfall as
/// [`shortfall_explained`] says, a string reference error names an offset with
/// no terminator in the table, and a model reference error names an index
/// other than the sentinel at or past the model count, which it reports; a
/// count overflow comes only where `usize` is narrower than 40 bits.
pub open spec fn record_error_explained(table: Seq<u8>, model_count: u32, len: int) -> spec_fn(
    ParseError,
) -> bool {
    |e: ParseError|
        match e {
            ParseError::InvalidMagic => false,
            ParseError::UnsupportedVersion { .. } => false,
            ParseError::Truncated { .. } => shortfall_explained(e, len),
            ParseError::InvalidStringReference { offset } => !bytes::terminates(
                table,
                offset as int,
            ),
            ParseError::InvalidModelReference { index, model_count: reported } => reported
                == model_count && index != u32::MAX && index >= model_count,
            ParseError::CountOverflow { .. } => usize::MAX < 0x100_0000_0000,
        }
}

proof fn lemma_take_fails(s: Seq<u8>, pos: int, n: int, context: &'static str)
    requires
        0 <= pos <= s.len() <= usize::MAX,
        0 <= n,
    ensures
        n <= usize::MAX ==> (take_spec(s, pos, n, context) matches Err(e) ==> shortfall_explained(
            e,
            s.len() as int,
        )),
{
}

proof fn lemma_words_fail(s: Seq<u8>, pos: int, n: nat, context: &'static str)
    requires
        0 <= pos <= s.len() <= usize::MAX,
    ensures
        words_spec(s, pos, n, context) matches Err(e) ==> shortfall_explained(e, s.len() as int),
        word_spec(s, pos, context) matches Err(e) ==> shortfall_explained(e, s.len() as int),
{
    let k = (s.len() - pos) / 4;
    assert(0 <= s.len() - pos - 4 * k < 4);
}

proof fn lemma_record_errors(s: Seq<u8>, table: Seq<u8>, version: u32, model_count: u32, pos: int)
    requires
        0 <= pos <= s.len() <= usize::MAX,
    ensures
        bytes::step_fails_with(
            model_step(table),
            s,
            pos,
            record_error_explained(table, model_count, s.len() as int),
        ),
        bytes::step_fails_with(
            placement_step(table, version, model_count),
            s,
            pos,
            record_error_explained(table, model_count, s.len() as int),
        ),
        bytes::step_fails_with(
            region_step(table),
            s,
            pos,
            record_error_explained(table, model_count, s.len() as int),
        ),
        bytes::step_fails_with(
            light_step(table),
            s,
            pos,
            record_error_explained(table, model_count, s.len() as int),
        ),
{
    lemma_words_fail(s, pos, 1, "model");
    if pos + 4 <= s.len() {
        lemma_words_fail(s, pos + 4, 1, "placement name");
        lemma_words_fail(s, pos + 4, 9, "region data");
        lemma_words_fail(s, pos + 4, 7, "light data");
    }
    if pos + 8 <= s.len() {
        lemma_words_fail(s, pos + 8, 3, "placement position");
    }
    if pos + 20 <= s.len() {
        lemma_words_fail(s, pos + 20, 3, "placement rotation");
    }
    if pos + 32 <= s.len() {
        lemma_words_fail(s, pos + 32, 1, "placement scale");
    }
    if pos + 36 <= s.len() {
        lemma_words_fail(s, pos + 36, 1, "placement extension count");
    }
    if pos + 40 <= s.len() {
        lemma_take_fails(s, pos + 40, bytes::le_u32(s, pos + 36) * 4, "placement extension");
    }
}

/// Every error names what is wrong with the input: a bad magic is not the
/// signature, an unsupported version is the version word and neither 1 nor
/// 2, a shortfall reports where the read started, the bytes it needed and the
/// fewer bytes left from there, a string reference error names an offset
/// with no terminator in the string table, and a model reference error names
/// an index other than the sentinel at or past the model count of the header,
/// which it reports, and a count overflow comes only where `usize` is narrower
/// than 40 bits (never on a 64-bit target).
pub proof fn lemma_parse_errors_explained(s: Seq<u8>)
    requires
        s.len() <= usize::MAX,
    ensures
        parse_spec(s) matches Err(e) ==> match e {
            ParseError::InvalidMagic => s.len() >= 4 && !bytes::has_prefix(
                s,
                crate::zone_signature(),
            ),
            ParseError::UnsupportedVersion { version } => version == bytes::le_u32(s, 4)
                && version != 1 && version != 2,
            ParseError::Truncated { .. } => shortfall_explained(e, s.len() as int),
            ParseError::InvalidStringReference { offset } => !bytes::terminates(
                s.subrange(28, 28 + bytes::le_words(s, 8, 5)[0]),
                offset as int,
            ),
            ParseError::InvalidModelReference { index, model_count } => model_count
                == bytes::le_words(s, 8, 5)[1] && index != u32::MAX && index >= model_count,
            ParseError::CountOverflow { .. } => usize::MAX < 0x100_0000_0000,
        },
{
    let version = bytes::le_u32(s, 4);
    let counts = bytes::le_words(s, 8, 5);
    if s.len() >= 4 {
        lemma_words_fail(s, 4, 1, "version");
    }
    if s.len() >= 8 {
        lemma_words_fail(s, 8, 5, "header");
    }
    if s.len() < 28 {
        return;
    }
    let table = s.subrange(28, 28 + counts[0]);
    let len = s.len() as int;
    let p = record_error_explained(table, counts[1], len);
    let ms = model_step(table);
    let ps = placement_step(table, version, counts[1]);
    let rs = region_step(table);
    let ls = light_step(table);
    assert forall|q: int| 0 <= q <= len implies #[trigger] bytes::step_fails_with(ms, s, q, p) by {
        lemma_record_errors(s, table, version, counts[1], q);
    }
    assert forall|q: int| 0 <= q <= len implies #[trigger] bytes::step_fails_with(ps, s, q, p) by {
        lemma_record_errors(s, table, version, counts[1], q);
    }
    assert forall|q: int| 0 <= q <= len implies #[trigger] bytes::step_fails_with(rs, s, q, p) by {
        lemma_record_errors(s, table, version, counts[1], q);
    }
    assert forall|q: int| 0 <= q <= len implies #[trigger] bytes::step_fails_with(ls, s, q, p) by {
        lemma_record_errors(s, table, version, counts[1], q);
    }
    assert forall|q: int| 0 <= q implies #[trigger] bytes::step_local(ms, s, s, q) by {
        lemma_model_local(s, s, table, q);
    }
    assert forall|q: int| 0 <= q implies #[trigger] bytes::step_local(ps, s, s, q) by {
        lemma_placement_local(s, s, table, version, counts[1], q);
    }
    assert forall|q: int| 0 <= q implies #[trigger] bytes::step_local(rs, s, s, q) by {
        lemma_region_local(s, s, table, q);
    }
    assert forall|q: int| 0 <= q implies #[trigger] bytes::step_local(ls, s, s, q) by {
        lemma_light_local(s, s, table, q);
    }
    let minimum = minimum_size(version, counts);
    lemma_take_fails(s, 28, minimum, "counted records");
    if minimum > usize::MAX || minimum > s.len() - 28 {
        return;
    }
    let table_end = 28 + counts[0];
    bytes::lemma_repeat_fails_with(ms, s, table_end, counts[1] as nat, p);
    bytes::lemma_repeat_local(ms, s, s, table_end, counts[1] as nat);
    if let Ok((models, p1)) = bytes::repeat(ms, s, table_end, counts[1] as nat) {
        bytes::lemma_repeat_fails_with(ps, s, p1, counts[2] as nat, p);
        bytes::lemma_repeat_local(ps, s, s, p1, counts[2] as nat);
        if let Ok((placements, p2)) = bytes::repeat(ps, s, p1, counts[2] as nat) {
            bytes::lemma_repeat_fails_with(rs, s, p2, counts[3] as nat, p);
            bytes::lemma_repeat_local(rs, s, s, p2, counts[3] as nat);
            if let Ok((regions, p3)) = bytes::repeat(rs, s, p2, counts[3] as nat) {
                bytes::lemma_repeat_fails_with(ls, s, p3, counts[4] as nat, p);
            }
        }
    }
}

// ---------------------------------------------------------------------------
// How each record depends on the bytes it spans.
// ---------------------------------------------------------------------------

proof fn lemma_word_local(s: Seq<u8>, t: Seq<u8>, pos: int, context: &'static str)
    requires
        0 <= pos,
    ensures
        word_spec(s, pos, context) matches Ok((w, e)) ==> {
            &&& e == pos + 4 <= s.len()
            &&& (t.len() == s.len() && bytes::same_between(s, t, pos, e)) ==> word_spec(
                t,
                pos,
                context,
            ) == word_spec(s, pos, context)
        },
{
    if pos + 4 <= s.len() && t.len() == s.len() && bytes::same_between(s, t, pos, pos + 4) {
        assert(s[pos] == t[pos]);
        assert(s[pos + 1] == t[pos + 1]);
        assert(s[pos + 2] == t[pos + 2]);
        assert(s[pos + 3] == t[pos + 3]);
    }
}

proof fn lemma_words_local(s: Seq<u8>, t: Seq<u8>, pos: int, n: nat, context: &'static str)
    requires
        0 <= pos,
    ensures
        words_spec(s, pos, n, context) matches Ok((w, e)) ==> {
            &&& e == pos + 4 * n <= s.len()
            &&& (t.len() == s.len() && bytes::same_between(s, t, pos, e)) ==> words_spec(
                t,
                pos,
                n,
                context,
            ) == words_spec(s, pos, n, context)
        },
{
    if pos + 4 * n <= s.len() && t.len() == s.len() && bytes::same_between(s, t, pos, pos + 4 * n) {
        bytes::lemma_le_words_between(s, t, pos, n);
    }
}

proof fn lemma_model_local(s: Seq<u8>, t: Seq<u8>, table: Seq<u8>, pos: int)
    requires
        0 <= pos,
    ensures
        bytes::step_local(model_step(table), s, t, pos),
{
    lemma_word_local(s, t, pos, "model");
}

proof fn lemma_placement_local(
    s: Seq<u8>,
    t: Seq<u8>,
    table: Seq<u8>,
    version: u32,
    model_count: u32,
    pos: int,
)
    requires
        0 <= pos,
    ensures
        bytes::step_local(placement_step(table, version, model_count), s, t, pos),
{
    lemma_word_local(s, t, pos, "placement model");
    lemma_word_local(s, t, pos + 4, "placement name");
    lemma_words_local(s, t, pos + 8, 3, "placement position");
    lemma_words_local(s, t, pos + 20, 3, "placement rotation");
    lemma_word_local(s, t, pos + 32, "placement scale");
    lemma_word_local(s, t, pos + 36, "placement extension count");
    if let Ok((p, e)) = placement_spec(s, table, version, model_count, pos) {
        if version == 2 && t.len() == s.len() && bytes::same_between(s, t, pos, e) {
            assert(t.subrange(pos + 40, e) =~= s.subrange(pos + 40, e));
        }
    }
}

proof fn lemma_region_local(s: Seq<u8>, t: Seq<u8>, table: Seq<u8>, pos: int)
    requires
        0 <= pos,
    ensures
        bytes::step_local(region_step(table), s, t, pos),
{
    lemma_word_local(s, t, pos, "region name");
    lemma_words_local(s, t, pos + 4, 9, "region data");
}

proof fn lemma_light_local(s: Seq<u8>, t: Seq<u8>, table: Seq<u8>, pos: int)
    requires
        0 <= pos,
    ensures
        bytes::step_local(light_step(table), s, t, pos),
{
    lemma_word_local(s, t, pos, "light name");
    lemma_words_local(s, t, pos + 4, 7, "light data");
}

/// The zone `z` with the data words of its light `k` replaced.
pub open spec fn with_light_data(z: ZoneView, k: int, data: Seq<u32>) -> ZoneView {
    ZoneView {
        version: z.version,
        string_table: z.string_table,
        models: z.models,
        placements: z.placements,
        regions: z.regions,
        lights: z.lights.update(k, LightView { name_offset: z.lights[k].name_offset, data }),
        trailing_data: z.trailing_data,
    }
}

/// Where light `k` of the zone `z` parsed from `s` starts: the lights are the
/// last 32-byte records before the trailing data.
pub open spec fn light_at(s: Seq<u8>, z: ZoneView, k: int) -> int {
    s.len() - z.trailing_data.len() - 32 * z.lights.len() + 32 * k
}

#[verifier::rlimit(40)]
proof fn lemma_records_light_replaced(
    s: Seq<u8>,
    t: Seq<u8>,
    version: u32,
    counts: Seq<u32>,
    k: int,
)
    requires
        counts.len() == 5,
        records_spec(s, version, counts) is Ok,
        0 <= k < records_spec(s, version, counts)->Ok_0.lights.len(),
        bytes::range_replaced(
            s,
            t,
            light_at(s, records_spec(s, version, counts)->Ok_0, k) + 4,
            light_at(s, records_spec(s, version, counts)->Ok_0, k) + 32,
        ),
    ensures
        ({
            let z = records_spec(s, version, counts)->Ok_0;
            let at = light_at(s, z, k);
            &&& 28 <= at
            &&& records_spec(t, version, counts) == Ok::<ZoneView, ParseError>(
                with_light_data(z, k, bytes::le_words(t, at + 4, 7)),
            )
        }),
{
    let z = records_spec(s, version, counts)->Ok_0;
    let table_end = 28 + counts[0];
    let table = s.subrange(28, table_end);
    let ms = model_step(table);
    let ps = placement_step(table, version, counts[1]);
    let rs = region_step(table);
    let ls = light_step(table);
    let size = bytes::const_size::<LightView>(32);
    assert forall|q: int| 0 <= q implies #[trigger] bytes::step_local(ms, s, t, q) by {
        lemma_model_local(s, t, table, q);
    }
    assert forall|q: int| 0 <= q implies #[trigger] bytes::step_local(ps, s, t, q) by {
        lemma_placement_local(s, t, table, version, counts[1], q);
    }
    assert forall|q: int| 0 <= q implies #[trigger] bytes::step_local(rs, s, t, q) by {
        lemma_region_local(s, t, table, q);
    }
    assert forall|q: int| 0 <= q implies #[trigger] bytes::step_local(ls, s, t, q) by {
        lemma_light_local(s, t, table, q);
    }
    assert forall|q: int| 0 <= q implies #[trigger] bytes::step_consumes(ls, s, q, size) by {
    }
    let (models, p1) = bytes::repeat(ms, s, table_end, counts[1] as nat)->Ok_0;
    bytes::lemma_repeat_local(ms, s, t, table_end, counts[1] as nat);
    let (placements, p2) = bytes::repeat(ps, s, p1, counts[2] as nat)->Ok_0;
    bytes::lemma_repeat_local(ps, s, t, p1, counts[2] as nat);
    let (regions, p3) = bytes::repeat(rs, s, p2, counts[3] as nat)->Ok_0;
    bytes::lemma_repeat_local(rs, s, t, p2, counts[3] as nat);
    let c4 = counts[4] as nat;
    let (lights, p4) = bytes::repeat(ls, s, p3, c4)->Ok_0;
    bytes::lemma_repeat_local(ls, s, t, p3, c4);
    bytes::lemma_repeat_len(ls, s, p3, c4);
    bytes::lemma_repeat_consumes(ls, s, p3, c4, size);
    bytes::lemma_total_const(lights, 32);
    assert(z.trailing_data.len() == s.len() - p4);
    let at = p3 + 32 * k;
    assert(at == light_at(s, z, k));
    bytes::lemma_repeat_prefix(ls, s, p3, c4, k as nat);
    bytes::lemma_repeat_consumes(ls, s, p3, k as nat, size);
    bytes::lemma_total_const(lights.take(k), 32);
    bytes::lemma_repeat_item_at(ls, s, p3, c4, size, k);
    assert(light_spec(s, table, at) == Ok::<(LightView, int), ParseError>((lights[k], at + 32)));
    lemma_word_local(s, t, at, "light name");
    let item = LightView { name_offset: lights[k].name_offset, data: bytes::le_words(t, at + 4, 7) };
    assert(light_spec(t, table, at) == Ok::<(LightView, int), ParseError>((item, at + 32)));
    bytes::lemma_repeat_replace_one(ls, s, t, p3, k as nat, at, at + 32, item, c4);
    assert(t.subrange(28, table_end) =~= table);
    assert(t.skip(p4) =~= s.skip(p4));
}

/// A light's data words are never checked: in a zone that parses, the 28
/// data bytes of any light may hold any bytes, and the zone still parses, with
/// that light's data now the seven words they hold and everything else as
/// before.
pub proof fn lemma_light_data_unchecked(s: Seq<u8>, t: Seq<u8>, k: int)
    requires
        parse_spec(s) is Ok,
        0 <= k < parse_spec(s)->Ok_0.lights.len(),
        bytes::range_replaced(
            s,
            t,
            light_at(s, parse_spec(s)->Ok_0, k) + 4,
            light_at(s, parse_spec(s)->Ok_0, k) + 32,
        ),
    ensures
        parse_spec(t) == Ok::<ZoneView, ParseError>(
            with_light_data(
                parse_spec(s)->Ok_0,
                k,
                bytes::le_words(t, light_at(s, parse_spec(s)->Ok_0, k) + 4, 7),
            ),
        ),
{
    let version = bytes::le_u32(s, 4);
    let counts = bytes::le_words(s, 8, 5);
    assert(parse_spec(s) == records_spec(s, version, counts));
    lemma_records_light_replaced(s, t, version, counts, k);
    lemma_header_kept(s, t);
}

/// A `t` that holds the bytes of `s` up to the end of the header reads the
/// same header.
proof fn lemma_header_kept(s: Seq<u8>, t: Seq<u8>)
    requires
        t.len() == s.len(),
        bytes::same_between(s, t, 0, 28),
    ensures
        bytes::has_prefix(t, crate::zone_signature()) == bytes::has_prefix(s, crate::zone_signature()),
        bytes::le_u32(t, 4) == bytes::le_u32(s, 4),
        bytes::le_words(t, 8, 5) == bytes::le_words(s, 8, 5),
{
    bytes::lemma_le_words_between(s, t, 4, 1);
    assert(bytes::le_u32(s, 4) == bytes::le_words(s, 4, 1)[0]);
    assert(bytes::le_u32(t, 4) == bytes::le_words(t, 4, 1)[0]);
    bytes::lemma_le_words_between(s, t, 8, 5);
}

/// The zone `z` with the data words of its region `k` replaced.
pub open spec fn with_region_data(z: ZoneView, k: int, data: Seq<u32>) -> ZoneView {
    ZoneView {
        version: z.version,
        string_table: z.string_table,
        models: z.models,
        placements: z.placements,
        regions: z.regions.update(k, RegionView { name_offset: z.regions[k].name_offset, data }),
        lights: z.lights,
        trailing_data: z.trailing_data,
    }
}

/// Where region `k` of the zone `z` parsed from `s` starts: the 40-byte
/// regions come right before the lights.
pub open spec fn region_at(s: Seq<u8>, z: ZoneView, k: int) -> int {
    s.len() - z.trailing_data.len() - 32 * z.lights.len() - 40 * z.regions.len() + 40 * k
}

#[verifier::rlimit(40)]
proof fn lemma_records_region_replaced(
    s: Seq<u8>,
    t: Seq<u8>,
    version: u32,
    counts: Seq<u32>,
    k: int,
)
    requires
        counts.len() == 5,
        records_spec(s, version, counts) is Ok,
        0 <= k < records_spec(s, version, counts)->Ok_0.regions.len(),
        bytes::range_replaced(
            s,
            t,
            region_at(s, records_spec(s, version, counts)->Ok_0, k) + 4,
            region_at(s, records_spec(s, version, counts)->Ok_0, k) + 40,
        ),
    ensures
        ({
            let z = records_spec(s, version, counts)->Ok_0;
            let at = region_at(s, z, k);
            &&& 28 <= at
            &&& records_spec(t, version, counts) == Ok::<ZoneView, ParseError>(
                with_region_data(z, k, bytes::le_words(t, at + 4, 9)),
            )
        }),
{
    let z = records_spec(s, version, counts)->Ok_0;
    let table_end = 28 + counts[0];
    let table = s.subrange(28, table_end);
    let ms = model_step(table);
    let ps = placement_step(table, version, counts[1]);
    let rs = region_step(table);
    let ls = light_step(table);
    let size = bytes::const_size::<RegionView>(40);
    let lsize = bytes::const_size::<LightView>(32);
    assert forall|q: int| 0 <= q implies #[trigger] bytes::step_local(ms, s, t, q) by {
        lemma_model_local(s, t, table, q);
    }
    assert forall|q: int| 0 <= q implies #[trigger] bytes::step_local(ps, s, t, q) by {
        lemma_placement_local(s, t, table, version, counts[1], q);
    }
    assert forall|q: int| 0 <= q implies #[trigger] bytes::step_local(rs, s, t, q) by {
        lemma_region_local(s, t, table, q);
    }
    assert forall|q: int| 0 <= q implies #[trigger] bytes::step_local(ls, s, t, q) by {
        lemma_light_local(s, t, table, q);
    }
    assert forall|q: int| 0 <= q implies #[trigger] bytes::step_consumes(rs, s, q, size) by {
    }
    assert forall|q: int| 0 <= q implies #[trigger] bytes::step_consumes(ls, s, q, lsize) by {
    }
    let (models, p1) = bytes::repeat(ms, s, table_end, counts[1] as nat)->Ok_0;
    bytes::lemma_repeat_local(ms, s, t, table_end, counts[1] as nat);
    let (placements, p2) = bytes::repeat(ps, s, p1, counts[2] as nat)->Ok_0;
    bytes::lemma_repeat_local(ps, s, t, p1, counts[2] as nat);
    let c3 = counts[3] as nat;
    let (regions, p3) = bytes::repeat(rs, s, p2, c3)->Ok_0;
    bytes::lemma_repeat_local(rs, s, t, p2, c3);
    bytes::lemma_repeat_len(rs, s, p2, c3);
    bytes::lemma_repeat_consumes(rs, s, p2, c3, size);
    bytes::lemma_total_const(regions, 40);
    let c4 = counts[4] as nat;
    let (lights, p4) = bytes::repeat(ls, s, p3, c4)->Ok_0;
    bytes::lemma_repeat_local(ls, s, t, p3, c4);
    bytes::lemma_repeat_len(ls, s, p3, c4);
    bytes::lemma_repeat_consumes(ls, s, p3, c4, lsize);
    bytes::lemma_total_const(lights, 32);
    assert(z.trailing_data.len() == s.len() - p4);
    let at = p2 + 40 * k;
    assert(at == region_at(s, z, k));
    bytes::lemma_repeat_prefix(rs, s, p2, c3, k as nat);
    bytes::lemma_repeat_consumes(rs, s, p2, k as nat, size);
    bytes::lemma_total_const(regions.take(k), 40);
    bytes::lemma_repeat_item_at(rs, s, p2, c3, size, k);
    assert(region_spec(s, table, at) == Ok::<(RegionView, int), ParseError>((regions[k], at + 40)));
    lemma_word_local(s, t, at, "region name");
    let item = RegionView { name_offset: regions[k].name_offset, data: bytes::le_words(t, at + 4, 9) };
    assert(region_spec(t, table, at) == Ok::<(RegionView, int), ParseError>((item, at + 40)));
    bytes::lemma_repeat_replace_one(rs, s, t, p2, k as nat, at, at + 40, item, c3);
    assert(t.subrange(28, table_end) =~= table);
    assert(t.skip(p4) =~= s.skip(p4));
}

/// A region's data words are never checked: in a zone that parses, the 36
/// data bytes of any region may hold any bytes, and the zone still parses,
/// with that region's data now the nine words they hold and everything else
/// as before.
pub proof fn lemma_region_data_unchecked(s: Seq<u8>, t: Seq<u8>, k: int)
    requires
        parse_spec(s) is Ok,
        0 <= k < parse_spec(s)->Ok_0.regions.len(),
        bytes::range_replaced(
            s,
            t,
            region_at(s, parse_spec(s)->Ok_0, k) + 4,
            region_at(s, parse_spec(s)->Ok_0, k) + 40,
        ),
    ensures
        parse_spec(t) == Ok::<ZoneView, ParseError>(
            with_region_data(
                parse_spec(s)->Ok_0,
                k,
                bytes::le_words(t, region_at(s, parse_spec(s)->Ok_0, k) + 4, 9),
            ),
        ),
{
    let version = bytes::le_u32(s, 4);
    let counts = bytes::le_words(s, 8, 5);
    assert(parse_spec(s) == records_spec(s, version, counts));
    lemma_records_region_replaced(s, t, version, counts, k);
    lemma_header_kept(s, t);
}

/// The placement `p` with its position, rotation and scale replaced.
pub open spec fn with_transform(
    p: PlacementView,
    position: Seq<u32>,
    rotation: Seq<u32>,
    scale: u32,
) -> PlacementView {
    PlacementView {
        model_index: p.model_index,
        name_offset: p.name_offset,
        position,
        rotation,
        scale,
        extension_data: p.extension_data,
    }
}

/// The zone `z` with placement `k` given the transform stored at `at + 8` in
/// `t`: three position words, three rotation words and the scale word.
pub open spec fn with_placement_transform(z: ZoneView, k: int, t: Seq<u8>, at: int) -> ZoneView {
    ZoneView {
        version: z.version,
        string_table: z.string_table,
        models: z.models,
        placements: z.placements.update(
            k,
            with_transform(
                z.placements[k],
                bytes::le_words(t, at + 8, 3),
                bytes::le_words(t, at + 20, 3),
                bytes::le_u32(t, at + 32),
            ),
        ),
        regions: z.regions,
        lights: z.lights,
        trailing_data: z.trailing_data,
    }
}

/// Where placement `k` of the zone `z` parsed from `s` starts: after the
/// header, the string table, the four-byte models and the placements before
/// it.
pub open spec fn placement_at(s: Seq<u8>, z: ZoneView, k: int) -> int {
    28 + bytes::le_words(s, 8, 5)[0] + 4 * z.models.len() + bytes::total(
        z.placements.take(k),
        placement_size(z.version),
    )
}

proof fn lemma_placement_transform_replaced(
    s: Seq<u8>,
    t: Seq<u8>,
    table: Seq<u8>,
    version: u32,
    model_count: u32,
    at: int,
)
    requires
        0 <= at,
        placement_spec(s, table, version, model_count, at) is Ok,
        bytes::range_replaced(s, t, at + 8, at + 36),
    ensures
        ({
            let (p, e) = placement_spec(s, table, version, model_count, at)->Ok_0;
            placement_spec(t, table, version, model_count, at) == Ok::<
                (PlacementView, int),
                ParseError,
            >(
                (
                    with_transform(
                        p,
                        bytes::le_words(t, at + 8, 3),
                        bytes::le_words(t, at + 20, 3),
                        bytes::le_u32(t, at + 32),
                    ),
                    e,
                ),
            )
        }),
{
    let e = placement_spec(s, table, version, model_count, at)->Ok_0.1;
    lemma_word_local(s, t, at, "placement model");
    lemma_word_local(s, t, at + 4, "placement name");
    lemma_word_local(s, t, at + 36, "placement extension count");
    if version == 2 {
        assert(t.subrange(at + 40, e) =~= s.subrange(at + 40, e));
    }
    assert(bytes::le_u32(t, at + 32) == bytes::le_words(t, at + 32, 1)[0]);
}

#[verifier::rlimit(40)]
proof fn lemma_records_transform_replaced(
    s: Seq<u8>,
    t: Seq<u8>,
    version: u32,
    counts: Seq<u32>,
    k: int,
    at: int,
)
    requires
        counts.len() == 5,
        version == 1 || version == 2,
        records_spec(s, version, counts) is Ok,
        0 <= k < records_spec(s, version, counts)->Ok_0.placements.len(),
        at == 28 + counts[0] + 4 * counts[1] + bytes::total(
            records_spec(s, version, counts)->Ok_0.placements.take(k),
            placement_size(version),
        ),
        bytes::range_replaced(s, t, at + 8, at + 36),
    ensures
        28 <= at,
        records_spec(t, version, counts) == Ok::<ZoneView, ParseError>(
            with_placement_transform(records_spec(s, version, counts)->Ok_0, k, t, at),
        ),
{
    let z = records_spec(s, version, counts)->Ok_0;
    let table_end = 28 + counts[0];
    let table = s.subrange(28, table_end);
    let ms = model_step(table);
    let ps = placement_step(table, version, counts[1]);
    let rs = region_step(table);
    let ls = light_step(table);
    let size = placement_size(version);
    let msize = bytes::const_size::<Option<u32>>(4);
    assert forall|q: int| 0 <= q implies #[trigger] bytes::step_local(ms, s, t, q) by {
        lemma_model_local(s, t, table, q);
    }
    assert forall|q: int| 0 <= q implies #[trigger] bytes::step_local(ps, s, t, q) by {
        lemma_placement_local(s, t, table, version, counts[1], q);
    }
    assert forall|q: int| 0 <= q implies #[trigger] bytes::step_local(rs, s, t, q) by {
        lemma_region_local(s, t, table, q);
    }
    assert forall|q: int| 0 <= q implies #[trigger] bytes::step_local(ls, s, t, q) by {
        lemma_light_local(s, t, table, q);
    }
    assert forall|q: int| 0 <= q implies #[trigger] bytes::step_consumes(ms, s, q, msize) by {
        lemma_model_step(s, s, table, q);
    }
    assert forall|q: int| 0 <= q implies #[trigger] bytes::step_consumes(ps, s, q, size) by {
        lemma_placement_step(s, s, table, version, counts[1], q);
    }
    let c1 = counts[1] as nat;
    let (models, p1) = bytes::repeat(ms, s, table_end, c1)->Ok_0;
    bytes::lemma_repeat_local(ms, s, t, table_end, c1);
    bytes::lemma_repeat_len(ms, s, table_end, c1);
    bytes::lemma_repeat_consumes(ms, s, table_end, c1, msize);
    bytes::lemma_total_const(models, 4);
    let c2 = counts[2] as nat;
    let (placements, p2) = bytes::repeat(ps, s, p1, c2)->Ok_0;
    bytes::lemma_repeat_local(ps, s, t, p1, c2);
    bytes::lemma_repeat_len(ps, s, p1, c2);
    bytes::lemma_repeat_prefix(ps, s, p1, c2, k as nat);
    bytes::lemma_repeat_consumes(ps, s, p1, k as nat, size);
    bytes::lemma_repeat_item_at(ps, s, p1, c2, size, k);
    let pk = placements[k];
    let e = at + size(pk);
    assert(placement_spec(s, table, version, counts[1], at) == Ok::<(PlacementView, int), ParseError>(
        (pk, e),
    ));
    lemma_placement_transform_replaced(s, t, table, version, counts[1], at);
    let item = with_transform(
        pk,
        bytes::le_words(t, at + 8, 3),
        bytes::le_words(t, at + 20, 3),
        bytes::le_u32(t, at + 32),
    );
    bytes::lemma_repeat_replace_one(ps, s, t, p1, k as nat, at, e, item, c2);
    bytes::lemma_repeat_local(rs, s, t, p2, counts[3] as nat);
    if let Ok((regions, p3)) = bytes::repeat(rs, s, p2, counts[3] as nat) {
        bytes::lemma_repeat_local(ls, s, t, p3, counts[4] as nat);
        if let Ok((lights, p4)) = bytes::repeat(ls, s, p3, counts[4] as nat) {
            assert(t.skip(p4) =~= s.skip(p4));
        }
    }
    assert(t.subrange(28, table_end) =~= table);
}

/// A placement's transform is never checked: in a zone that parses, the 28
/// bytes of position, rotation and scale of any placement may hold any bytes,
/// and the zone still parses, with that placement's transform now the words
/// they hold and everything else as before.
pub proof fn lemma_placement_transform_unchecked(s: Seq<u8>, t: Seq<u8>, k: int)
    requires
        parse_spec(s) is Ok,
        0 <= k < parse_spec(s)->Ok_0.placements.len(),
        bytes::range_replaced(
            s,
            t,
            placement_at(s, parse_spec(s)->Ok_0, k) + 8,
            placement_at(s, parse_spec(s)->Ok_0, k) + 36,
        ),
    ensures
        parse_spec(t) == Ok::<ZoneView, ParseError>(
            with_placement_transform(parse_spec(s)->Ok_0, k, t, placement_at(s, parse_spec(s)->Ok_0, k)),
        ),
{
    let version = bytes::le_u32(s, 4);
    let counts = bytes::le_words(s, 8, 5);
    assert(parse_spec(s) == records_spec(s, version, counts));
    lemma_parsed_zone_layout(s);
    lemma_records_transform_replaced(s, t, version, counts, k, placement_at(s, parse_spec(s)->Ok_0, k));
    lemma_header_kept(s, t);
}

/// The zone `z` with its model list replaced.
pub open spec fn with_models(z: ZoneView, models: Seq<Option<u32>>) -> ZoneView {
    ZoneView {
        version: z.version,
        string_table: z.string_table,
        models,
        placements: z.placements,
        regions: z.regions,
        lights: z.lights,
        trailing_data: z.trailing_data,
    }
}

#[verifier::rlimit(40)]
proof fn lemma_records_model_replaced(
    s: Seq<u8>,
    t: Seq<u8>,
    version: u32,
    counts: Seq<u32>,
    k: int,
)
    requires
        counts.len() == 5,
        version == 1 || version == 2,
        records_spec(s, version, counts) is Ok,
        0 <= k < counts[1],
        bytes::word_replaced(s, t, 28 + counts[0] + 4 * k),
        ({
            let w = bytes::le_u32(t, 28 + counts[0] + 4 * k);
            w == u32::MAX || bytes::terminates(s.subrange(28, 28 + counts[0]), w as int)
        }),
    ensures
        ({
            let z = records_spec(s, version, counts)->Ok_0;
            let w = bytes::le_u32(t, 28 + counts[0] + 4 * k);
            records_spec(t, version, counts) == Ok::<ZoneView, ParseError>(
                with_models(z, z.models.update(k, bytes::nullable(w))),
            )
        }),
{
    let table_end = 28 + counts[0];
    let table = s.subrange(28, table_end);
    let ms = model_step(table);
    let ps = placement_step(table, version, counts[1]);
    let rs = region_step(table);
    let ls = light_step(table);
    let msize = bytes::const_size::<Option<u32>>(4);
    assert forall|q: int| 0 <= q implies #[trigger] bytes::step_local(ms, s, t, q) by {
        lemma_model_local(s, t, table, q);
    }
    assert forall|q: int| 0 <= q implies #[trigger] bytes::step_local(ps, s, t, q) by {
        lemma_placement_local(s, t, table, version, counts[1], q);
    }
    assert forall|q: int| 0 <= q implies #[trigger] bytes::step_local(rs, s, t, q) by {
        lemma_region_local(s, t, table, q);
    }
    assert forall|q: int| 0 <= q implies #[trigger] bytes::step_local(ls, s, t, q) by {
        lemma_light_local(s, t, table, q);
    }
    assert forall|q: int| 0 <= q implies #[trigger] bytes::step_consumes(ms, s, q, msize) by {
        lemma_model_step(s, s, table, q);
    }
    let c1 = counts[1] as nat;
    let (models, p1) = bytes::repeat(ms, s, table_end, c1)->Ok_0;
    bytes::lemma_repeat_len(ms, s, table_end, c1);
    bytes::lemma_repeat_local(ms, s, t, table_end, c1);
    bytes::lemma_repeat_prefix(ms, s, table_end, c1, k as nat);
    bytes::lemma_repeat_consumes(ms, s, table_end, k as nat, msize);
    bytes::lemma_total_const(models.take(k), 4);
    bytes::lemma_repeat_item_at(ms, s, table_end, c1, msize, k);
    let at = table_end + 4 * k;
    assert(model_spec(s, table, at) == Ok::<(Option<u32>, int), ParseError>((models[k], at + 4)));
    let w = bytes::le_u32(t, at);
    assert(model_spec(t, table, at) == Ok::<(Option<u32>, int), ParseError>(
        (bytes::nullable(w), at + 4),
    ));
    bytes::lemma_repeat_replace_one(ms, s, t, table_end, k as nat, at, at + 4, bytes::nullable(w), c1);
    bytes::lemma_repeat_local(ps, s, t, p1, counts[2] as nat);
    if let Ok((placements, p2)) = bytes::repeat(ps, s, p1, counts[2] as nat) {
        bytes::lemma_repeat_local(rs, s, t, p2, counts[3] as nat);
        if let Ok((regions, p3)) = bytes::repeat(rs, s, p2, counts[3] as nat) {
            bytes::lemma_repeat_local(ls, s, t, p3, counts[4] as nat);
            if let Ok((lights, p4)) = bytes::repeat(ls, s, p3, counts[4] as nat) {
                assert(t.skip(p4) =~= s.skip(p4));
            }
        }
    }
    assert(t.subrange(28, table_end) =~= table);
}

/// A model entry is checked only as a string reference, the all-ones
/// sentinel exempt: in a zone that parses, the word of model `k` may hold the
/// sentinel or any offset that terminates in the string table, and the zone
/// still parses, with that model now the new entry and everything else as
/// before.
pub proof fn lemma_model_entry_checked_only_as_string(s: Seq<u8>, t: Seq<u8>, k: int)
    requires
        parse_spec(s) is Ok,
        0 <= k < parse_spec(s)->Ok_0.models.len(),
        bytes::word_replaced(s, t, 28 + bytes::le_words(s, 8, 5)[0] + 4 * k),
        ({
            let w = bytes::le_u32(t, 28 + bytes::le_words(s, 8, 5)[0] + 4 * k);
            w == u32::MAX || bytes::terminates(parse_spec(s)->Ok_0.string_table, w as int)
        }),
    ensures
        parse_spec(t) == Ok::<ZoneView, ParseError>(
            with_models(
                parse_spec(s)->Ok_0,
                parse_spec(s)->Ok_0.models.update(
                    k,
                    bytes::nullable(bytes::le_u32(t, 28 + bytes::le_words(s, 8, 5)[0] + 4 * k)),
                ),
            ),
        ),
{
    let version = bytes::le_u32(s, 4);
    let counts = bytes::le_words(s, 8, 5);
    assert(parse_spec(s) == records_spec(s, version, counts));
    lemma_parsed_zone_layout(s);
    lemma_records_model_replaced(s, t, version, counts, k);
    lemma_header_kept(s, t);
}

/// The zone `z` with the model reference of placement `k` replaced.
pub open spec fn with_placement_model(z: ZoneView, k: int, model_index: Option<u32>) -> ZoneView {
    ZoneView {
        version: z.version,
        string_table: z.string_table,
        models: z.models,
        placements: z.placements.update(
            k,
            PlacementView {
                model_index,
                name_offset: z.placements[k].name_offset,
                position: z.placements[k].position,
                rotation: z.placements[k].rotation,
                scale: z.placements[k].scale,
                extension_data: z.placements[k].extension_data,
            },
        ),
        regions: z.regions,
        lights: z.lights,
        trailing_data: z.trailing_data,
    }
}

proof fn lemma_placement_model_replaced(
    s: Seq<u8>,
    t: Seq<u8>,
    table: Seq<u8>,
    version: u32,
    model_count: u32,
    at: int,
)
    requires
        0 <= at,
        placement_spec(s, table, version, model_count, at) is Ok,
        bytes::word_replaced(s, t, at),
        bytes::le_u32(t, at) == u32::MAX || bytes::le_u32(t, at) < model_count,
    ensures
        ({
            let (p, e) = placement_spec(s, table, version, model_count, at)->Ok_0;
            placement_spec(t, table, version, model_count, at) == Ok::<
                (PlacementView, int),
                ParseError,
            >(
                (
                    PlacementView {
                        model_index: bytes::nullable(bytes::le_u32(t, at)),
                        name_offset: p.name_offset,
                        position: p.position,
                        rotation: p.rotation,
                        scale: p.scale,
                        extension_data: p.extension_data,
                    },
                    e,
                ),
            )
        }),
{
    let e = placement_spec(s, table, version, model_count, at)->Ok_0.1;
    lemma_word_local(s, t, at + 4, "placement name");
    lemma_words_local(s, t, at + 8, 3, "placement position");
    lemma_words_local(s, t, at + 20, 3, "placement rotation");
    lemma_word_local(s, t, at + 32, "placement scale");
    lemma_word_local(s, t, at + 36, "placement extension count");
    if version == 2 {
        assert(t.subrange(at + 40, e) =~= s.subrange(at + 40, e));
    }
}

#[verifier::rlimit(40)]
proof fn lemma_records_placement_model_replaced(
    s: Seq<u8>,
    t: Seq<u8>,
    version: u32,
    counts: Seq<u32>,
    k: int,
    at: int,
)
    requires
        counts.len() == 5,
        version == 1 || version == 2,
        records_spec(s, version, counts) is Ok,
        0 <= k < records_spec(s, version, counts)->Ok_0.placements.len(),
        at == 28 + counts[0] + 4 * counts[1] + bytes::total(
            records_spec(s, version, counts)->Ok_0.placements.take(k),
            placement_size(version),
        ),
        bytes::word_replaced(s, t, at),
        bytes::le_u32(t, at) == u32::MAX || bytes::le_u32(t, at) < counts[1],
    ensures
        28 <= at,
        records_spec(t, version, counts) == Ok::<ZoneView, ParseError>(
            with_placement_model(
                records_spec(s, version, counts)->Ok_0,
                k,
                bytes::nullable(bytes::le_u32(t, at)),
            ),
        ),
{
    let table_end = 28 + counts[0];
    let table = s.subrange(28, table_end);
    let ms = model_step(table);
    let ps = placement_step(table, version, counts[1]);
    let rs = region_step(table);
    let ls = light_step(table);
    let size = placement_size(version);
    let msize = bytes::const_size::<Option<u32>>(4);
    assert forall|q: int| 0 <= q implies #[trigger] bytes::step_local(ms, s, t, q) by {
        lemma_model_local(s, t, table, q);
    }
    assert forall|q: int| 0 <= q implies #[trigger] bytes::step_local(ps, s, t, q) by {
        lemma_placement_local(s, t, table, version, counts[1], q);
    }
    assert forall|q: int| 0 <= q implies #[trigger] bytes::step_local(rs, s, t, q) by {
        lemma_region_local(s, t, table, q);
    }
    assert forall|q: int| 0 <= q implies #[trigger] bytes::step_local(ls, s, t, q) by {
        lemma_light_local(s, t, table, q);
    }
    assert forall|q: int| 0 <= q implies #[trigger] bytes::step_consumes(ms, s, q, msize) by {
        lemma_model_step(s, s, table, q);
    }
    assert forall|q: int| 0 <= q implies #[trigger] bytes::step_consumes(ps, s, q, size) by {
        lemma_placement_step(s, s, table, version, counts[1], q);
    }
    let c1 = counts[1] as nat;
    let (models, p1) = bytes::repeat(ms, s, table_end, c1)->Ok_0;
    bytes::lemma_repeat_local(ms, s, t, table_end, c1);
    bytes::lemma_repeat_len(ms, s, table_end, c1);
    bytes::lemma_repeat_consumes(ms, s, table_end, c1, msize);
    bytes::lemma_total_const(models, 4);
    let c2 = counts[2] as nat;
    let (placements, p2) = bytes::repeat(ps, s, p1, c2)->Ok_0;
    bytes::lemma_repeat_local(ps, s, t, p1, c2);
    bytes::lemma_repeat_len(ps, s, p1, c2);
    bytes::lemma_repeat_prefix(ps, s, p1, c2, k as nat);
    bytes::lemma_repeat_consumes(ps, s, p1, k as nat, size);
    bytes::lemma_repeat_item_at(ps, s, p1, c2, size, k);
    let pk = placements[k];
    let e = at + size(pk);
    assert(placement_spec(s, table, version, counts[1], at) == Ok::<(PlacementView, int), ParseError>(
        (pk, e),
    ));
    lemma_placement_model_replaced(s, t, table, version, counts[1], at);
    let item = PlacementView {
        model_index: bytes::nullable(bytes::le_u32(t, at)),
        name_offset: pk.name_offset,
        position: pk.position,
        rotation: pk.rotation,
        scale: pk.scale,
        extension_data: pk.extension_data,
    };
    bytes::lemma_repeat_replace_one(ps, s, t, p1, k as nat, at, e, item, c2);
    bytes::lemma_repeat_local(rs, s, t, p2, counts[3] as nat);
    if let Ok((regions, p3)) = bytes::repeat(rs, s, p2, counts[3] as nat) {
        bytes::lemma_repeat_local(ls, s, t, p3, counts[4] as nat);
        if let Ok((lights, p4)) = bytes::repeat(ls, s, p3, counts[4] as nat) {
            assert(t.skip(p4) =~= s.skip(p4));
        }
    }
    assert(t.subrange(28, table_end) =~= table);
}

/// A placement's model reference is checked only against the model count,
/// the all-ones sentinel exempt: in a zone that parses, the first word of
/// placement `k` may hold the sentinel or any index below the number of
/// models, and the zone still parses, with that placement's model reference
/// now the new word and everything else as before.
#[verifier::rlimit(40)]
pub proof fn lemma_placement_model_checked_only_against_count(s: Seq<u8>, t: Seq<u8>, k: int)
    requires
        parse_spec(s) is Ok,
        0 <= k < parse_spec(s)->Ok_0.placements.len(),
        bytes::word_replaced(s, t, placement_at(s, parse_spec(s)->Ok_0, k)),
        ({
            let w = bytes::le_u32(t, placement_at(s, parse_spec(s)->Ok_0, k));
            w == u32::MAX || w < parse_spec(s)->Ok_0.models.len()
        }),
    ensures
        parse_spec(t) == Ok::<ZoneView, ParseError>(
            with_placement_model(
                parse_spec(s)->Ok_0,
                k,
                bytes::nullable(bytes::le_u32(t, placement_at(s, parse_spec(s)->Ok_0, k))),
            ),
        ),
{
    let version = bytes::le_u32(s, 4);
    let counts = bytes::le_words(s, 8, 5);
    assert(parse_spec(s) == records_spec(s, version, counts));
    let z = parse_spec(s)->Ok_0;
    let at = placement_at(s, z, k);
    lemma_parsed_zone_layout(s);
    assert(z.models.len() == counts[1]);
    assert(at == 28 + counts[0] + 4 * counts[1] + bytes::total(
        z.placements.take(k),
        placement_size(version),
    ));
    lemma_records_placement_model_replaced(s, t, version, counts, k, at);
    lemma_header_kept(s, t);
}

/// The zone `z` with the extension data of placement `k` replaced.
pub open spec fn with_extension_data(z: ZoneView, k: int, extension_data: Seq<u8>) -> ZoneView {
    ZoneView {
        version: z.version,
        string_table: z.string_table,
        models: z.models,
        placements: z.placements.update(
            k,
            PlacementView {
                model_index: z.placements[k].model_index,
                name_offset: z.placements[k].name_offset,
                position: z.placements[k].position,
                rotation: z.placements[k].rotation,
                scale: z.placements[k].scale,
                extension_data,
            },
        ),
        regions: z.regions,
        lights: z.lights,
        trailing_data: z.trailing_data,
    }
}

proof fn lemma_placement_extension_replaced(
    s: Seq<u8>,
    t: Seq<u8>,
    table: Seq<u8>,
    model_count: u32,
    at: int,
)
    requires
        0 <= at,
        placement_spec(s, table, 2, model_count, at) is Ok,
        bytes::range_replaced(s, t, at + 40, placement_spec(s, table, 2, model_count, at)->Ok_0.1),
    ensures
        ({
            let (p, e) = placement_spec(s, table, 2, model_count, at)->Ok_0;
            placement_spec(t, table, 2, model_count, at) == Ok::<(PlacementView, int), ParseError>(
                (
                    PlacementView {
                        model_index: p.model_index,
                        name_offset: p.name_offset,
                        position: p.position,
                        rotation: p.rotation,
                        scale: p.scale,
                        extension_data: t.subrange(at + 40, e),
                    },
                    e,
                ),
            )
        }),
{
    lemma_word_local(s, t, at, "placement model");
    lemma_word_local(s, t, at + 4, "placement name");
    lemma_words_local(s, t, at + 8, 3, "placement position");
    lemma_words_local(s, t, at + 20, 3, "placement rotation");
    lemma_word_local(s, t, at + 32, "placement scale");
    lemma_word_local(s, t, at + 36, "placement extension count");
}

#[verifier::rlimit(40)]
proof fn lemma_records_extension_replaced(
    s: Seq<u8>,
    t: Seq<u8>,
    counts: Seq<u32>,
    k: int,
    at: int,
)
    requires
        counts.len() == 5,
        records_spec(s, 2, counts) is Ok,
        0 <= k < records_spec(s, 2, counts)->Ok_0.placements.len(),
        at == 28 + counts[0] + 4 * counts[1] + bytes::total(
            records_spec(s, 2, counts)->Ok_0.placements.take(k),
            placement_size(2),
        ),
        bytes::range_replaced(
            s,
            t,
            at + 40,
            at + 40 + records_spec(s, 2, counts)->Ok_0.placements[k].extension_data.len(),
        ),
    ensures
        28 <= at,
        records_spec(t, 2, counts) == Ok::<ZoneView, ParseError>(
            with_extension_data(
                records_spec(s, 2, counts)->Ok_0,
                k,
                t.subrange(
                    at + 40,
                    at + 40 + records_spec(s, 2, counts)->Ok_0.placements[k].extension_data.len(),
                ),
            ),
        ),
{
    let version: u32 = 2;
    let table_end = 28 + counts[0];
    let table = s.subrange(28, table_end);
    let ms = model_step(table);
    let ps = placement_step(table, version, counts[1]);
    let rs = region_step(table);
    let ls = light_step(table);
    let size = placement_size(version);
    let msize = bytes::const_size::<Option<u32>>(4);
    assert forall|q: int| 0 <= q implies #[trigger] bytes::step_local(ms, s, t, q) by {
        lemma_model_local(s, t, table, q);
    }
    assert forall|q: int| 0 <= q implies #[trigger] bytes::step_local(ps, s, t, q) by {
        lemma_placement_local(s, t, table, version, counts[1], q);
    }
    assert forall|q: int| 0 <= q implies #[trigger] bytes::step_local(rs, s, t, q) by {
        lemma_region_local(s, t, table, q);
    }
    assert forall|q: int| 0 <= q implies #[trigger] bytes::step_local(ls, s, t, q) by {
        lemma_light_local(s, t, table, q);
    }
    assert forall|q: int| 0 <= q implies #[trigger] bytes::step_consumes(ms, s, q, msize) by {
        lemma_model_step(s, s, table, q);
    }
    assert forall|q: int| 0 <= q implies #[trigger] bytes::step_consumes(ps, s, q, size) by {
        lemma_placement_step(s, s, table, version, counts[1], q);
    }
    let c1 = counts[1] as nat;
    let (models, p1) = bytes::repeat(ms, s, table_end, c1)->Ok_0;
    bytes::lemma_repeat_local(ms, s, t, table_end, c1);
    bytes::lemma_repeat_len(ms, s, table_end, c1);
    bytes::lemma_repeat_consumes(ms, s, table_end, c1, msize);
    bytes::lemma_total_const(models, 4);
    let c2 = counts[2] as nat;
    let (placements, p2) = bytes::repeat(ps, s, p1, c2)->Ok_0;
    bytes::lemma_repeat_local(ps, s, t, p1, c2);
    bytes::lemma_repeat_len(ps, s, p1, c2);
    bytes::lemma_repeat_prefix(ps, s, p1, c2, k as nat);
    bytes::lemma_repeat_consumes(ps, s, p1, k as nat, size);
    bytes::lemma_repeat_item_at(ps, s, p1, c2, size, k);
    let pk = placements[k];
    let e = at + size(pk);
    assert(placement_spec(s, table, version, counts[1], at) == Ok::<(PlacementView, int), ParseError>(
        (pk, e),
    ));
    lemma_placement_extension_replaced(s, t, table, counts[1], at);
    let item = PlacementView {
        model_index: pk.model_index,
        name_offset: pk.name_offset,
        position: pk.position,
        rotation: pk.rotation,
        scale: pk.scale,
        extension_data: t.subrange(at + 40, e),
    };
    bytes::lemma_repeat_replace_one(ps, s, t, p1, k as nat, at, e, item, c2);
    bytes::lemma_repeat_local(rs, s, t, p2, counts[3] as nat);
    if let Ok((regions, p3)) = bytes::repeat(rs, s, p2, counts[3] as nat) {
        bytes::lemma_repeat_local(ls, s, t, p3, counts[4] as nat);
        if let Ok((lights, p4)) = bytes::repeat(ls, s, p3, counts[4] as nat) {
            assert(t.skip(p4) =~= s.skip(p4));
        }
    }
    assert(t.subrange(28, table_end) =~= table);
}

/// Version 2 placement extension data is carried, never checked: in a
/// version 2 zone that parses, the extension bytes of any placement (after
/// its count word) may hold any bytes, and the zone still parses, with that
/// placement's extension data now the new bytes and everything else as
/// before.
#[verifier::rlimit(40)]
pub proof fn lemma_extension_data_unchecked(s: Seq<u8>, t: Seq<u8>, k: int)
    requires
        parse_spec(s) is Ok,
        parse_spec(s)->Ok_0.version == 2,
        0 <= k < parse_spec(s)->Ok_0.placements.len(),
        bytes::range_replaced(
            s,
            t,
            placement_at(s, parse_spec(s)->Ok_0, k) + 40,
            placement_at(s, parse_spec(s)->Ok_0, k) + 40
                + parse_spec(s)->Ok_0.placements[k].extension_data.len(),
        ),
    ensures
        parse_spec(t) == Ok::<ZoneView, ParseError>(
            with_extension_data(
                parse_spec(s)->Ok_0,
                k,
                t.subrange(
                    placement_at(s, parse_spec(s)->Ok_0, k) + 40,
                    placement_at(s, parse_spec(s)->Ok_0, k) + 40
                        + parse_spec(s)->Ok_0.placements[k].extension_data.len(),
                ),
            ),
        ),
{
    let counts = bytes::le_words(s, 8, 5);
    let z = parse_spec(s)->Ok_0;
    let at = placement_at(s, z, k);
    lemma_parsed_zone_layout(s);
    assert(parse_spec(s) == records_spec(s, 2, counts));
    assert(z.models.len() == counts[1]);
    lemma_records_extension_replaced(s, t, counts, k, at);
    lemma_header_kept(s, t);
}

} // verus!
