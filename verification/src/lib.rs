//! Identify EverQuest EQG resources and parse binary zone descriptors and
//! terrain/model meshes.
//!
//! [`identify`] inspects headers only; [`zone::parse`] validates binary EQGZ
//! version 1 and 2 descriptors; [`mesh::parse`] validates EQGT and EQGM
//! geometry at versions 1 to 3. Archive extraction belongs to `libeq_pfs`.
use vstd::prelude::*;

pub mod bytes;
pub mod mesh;
pub mod zone;

use crate::bytes::{read_u32_le, starts_with};

verus! {

/// A recognized format header, including the raw version for binary resources.
#[derive(Debug, Clone, Copy, PartialEq, Eq)]
pub enum FormatHeader {
    /// Binary zone descriptor (`EQGZ`).
    Zone { version: u32 },
    /// Binary terrain mesh (`EQGT`).
    Terrain { version: u32 },
    /// Binary model mesh (`EQGM`).
    Model { version: u32 },
    /// Text terrain project (`EQTZP`); no binary version is read.
    TerrainProject,
    /// Text object group (`EQOBG`); no binary version is read.
    ObjectGroup,
}

/// A recognized header prefix whose remaining bytes are missing.
#[derive(Debug, Clone, Copy, PartialEq, Eq)]
pub enum Error {
    TruncatedHeader {
        /// Minimum total length needed for the signature, or eight bytes once a
        /// complete binary signature establishes that a version must follow.
        expected: usize,
        /// Number of input bytes available.
        actual: usize,
    },
}

/// `EQGZ`
pub open spec fn zone_signature() -> Seq<u8> {
    seq![0x45u8, 0x51u8, 0x47u8, 0x5au8]
}

/// `EQGT`
pub open spec fn terrain_signature() -> Seq<u8> {
    seq![0x45u8, 0x51u8, 0x47u8, 0x54u8]
}

/// `EQGM`
pub open spec fn model_signature() -> Seq<u8> {
    seq![0x45u8, 0x51u8, 0x47u8, 0x4du8]
}

/// `EQTZP`
pub open spec fn terrain_project_signature() -> Seq<u8> {
    seq![0x45u8, 0x51u8, 0x54u8, 0x5au8, 0x50u8]
}

/// `EQOBG`
pub open spec fn object_group_signature() -> Seq<u8> {
    seq![0x45u8, 0x51u8, 0x4fu8, 0x42u8, 0x47u8]
}

/// `s` is nonempty and a proper prefix of `sig`.
pub open spec fn is_partial(s: Seq<u8>, sig: Seq<u8>) -> bool {
    0 < s.len() < sig.len() && bytes::has_prefix(sig, s)
}

/// `s` is a nonempty proper prefix of one of the three binary signatures.
pub open spec fn is_partial_binary(s: Seq<u8>) -> bool {
    is_partial(s, zone_signature()) || is_partial(s, terrain_signature()) || is_partial(
        s,
        model_signature(),
    )
}

/// `s` is a nonempty proper prefix of one of the two text signatures.
pub open spec fn is_partial_text(s: Seq<u8>) -> bool {
    is_partial(s, terrain_project_signature()) || is_partial(s, object_group_signature())
}

/// `s` begins with one of the three binary signatures.
pub open spec fn has_binary_signature(s: Seq<u8>) -> bool {
    bytes::has_prefix(s, zone_signature()) || bytes::has_prefix(s, terrain_signature()) || bytes::has_prefix(
        s,
        model_signature(),
    )
}

/// The header that a complete binary signature and version word at the start of `s` name.
pub open spec fn binary_header(s: Seq<u8>) -> FormatHeader {
    let version = bytes::le_u32(s, 4);
    if bytes::has_prefix(s, zone_signature()) {
        FormatHeader::Zone { version }
    } else if bytes::has_prefix(s, terrain_signature()) {
        FormatHeader::Terrain { version }
    } else {
        FormatHeader::Model { version }
    }
}

/// What [`identify`] answers for the input bytes `s`.
///
/// No signature is a prefix of another, so at most one of the cases below
/// applies to a nonempty input; the three binary signatures all have four
/// bytes and the two text signatures five.
pub open spec fn identify_spec(s: Seq<u8>) -> Result<Option<FormatHeader>, Error> {
    if s.len() == 0 {
        Ok(None)
    } else if is_partial_binary(s) {
        Err(Error::TruncatedHeader { expected: 4, actual: s.len() as usize })
    } else if is_partial_text(s) {
        Err(Error::TruncatedHeader { expected: 5, actual: s.len() as usize })
    } else if has_binary_signature(s) {
        if s.len() < 8 {
            Err(Error::TruncatedHeader { expected: 8, actual: s.len() as usize })
        } else {
            Ok(Some(binary_header(s)))
        }
    } else if bytes::has_prefix(s, terrain_project_signature()) {
        Ok(Some(FormatHeader::TerrainProject))
    } else if bytes::has_prefix(s, object_group_signature()) {
        Ok(Some(FormatHeader::ObjectGroup))
    } else {
        Ok(None)
    }
}

/// Whether `input` is a nonempty proper prefix of `sig`.
fn is_partial_of(input: &[u8], sig: &[u8]) -> (r: bool)
    ensures
        r == is_partial(input@, sig@),
{
    input.len() > 0 && input.len() < sig.len() && starts_with(sig, input)
}

/// Identify a resource from its signature at byte zero.
///
/// Binary versions are little-endian `u32` values and are returned unchanged,
/// including unknown versions. Text signatures consume no version field.
/// Trailing data is ignored; this function does not validate a complete file.
///
/// Returns `Ok(None)` for empty input or an unknown signature. A nonempty prefix
/// of a known signature, or a binary signature with fewer than four version
/// bytes, returns [`Error::TruncatedHeader`]. Signatures are case-sensitive;
/// whitespace and byte-order marks are not skipped.
pub fn identify(input: &[u8]) -> (r: Result<Option<FormatHeader>, Error>)
    ensures
        r == identify_spec(input@),
{
    if input.len() == 0 {
        return Ok(None);
    }
    let zone: [u8; 4] = [0x45, 0x51, 0x47, 0x5a];
    let terrain: [u8; 4] = [0x45, 0x51, 0x47, 0x54];
    let model: [u8; 4] = [0x45, 0x51, 0x47, 0x4d];
    let project: [u8; 5] = [0x45, 0x51, 0x54, 0x5a, 0x50];
    let group: [u8; 5] = [0x45, 0x51, 0x4f, 0x42, 0x47];
    assert(zone@ == zone_signature());
    assert(terrain@ == terrain_signature());
    assert(model@ == model_signature());
    assert(project@ == terrain_project_signature());
    assert(group@ == object_group_signature());
    let zone = zone.as_slice();
    let terrain = terrain.as_slice();
    let model = model.as_slice();
    let project = project.as_slice();
    let group = group.as_slice();

    if is_partial_of(input, zone) || is_partial_of(input, terrain) || is_partial_of(input, model) {
        return Err(Error::TruncatedHeader { expected: 4, actual: input.len() });
    }
    if is_partial_of(input, project) || is_partial_of(input, group) {
        return Err(Error::TruncatedHeader { expected: 5, actual: input.len() });
    }
    let is_zone = starts_with(input, zone);
    let is_terrain = starts_with(input, terrain);
    let is_model = starts_with(input, model);
    if is_zone || is_terrain || is_model {
        if input.len() < 8 {
            return Err(Error::TruncatedHeader { expected: 8, actual: input.len() });
        }
        let version = read_u32_le(input, 4);
        return Ok(
            Some(
                if is_zone {
                    FormatHeader::Zone { version }
                } else if is_terrain {
                    FormatHeader::Terrain { version }
                } else {
                    FormatHeader::Model { version }
                },
            ),
        );
    }
    if starts_with(input, project) {
        return Ok(Some(FormatHeader::TerrainProject));
    }
    if starts_with(input, group) {
        return Ok(Some(FormatHeader::ObjectGroup));
    }
    Ok(None)
}

/// The bytes that a recognized header spans: the signature and, for a binary
/// resource, its four version bytes.
pub open spec fn header_len(h: FormatHeader) -> int {
    match h {
        FormatHeader::Zone { .. } | FormatHeader::Terrain { .. } | FormatHeader::Model {
            ..
        } => 8,
        FormatHeader::TerrainProject | FormatHeader::ObjectGroup => 5,
    }
}

/// Appending bytes does not change whether a signature that fits in `s` starts it.
proof fn lemma_signature_extend(s: Seq<u8>, extra: Seq<u8>, sig: Seq<u8>)
    requires
        sig.len() <= s.len(),
    ensures
        bytes::has_prefix(s + extra, sig) == bytes::has_prefix(s, sig),
        !is_partial(s + extra, sig),
        !is_partial(s, sig),
{
    if bytes::has_prefix(s, sig) {
        assert forall|i: int| 0 <= i < sig.len() implies (s + extra)[i] == sig[i] by {
            assert((s + extra)[i] == s[i]);
        }
    }
    if bytes::has_prefix(s + extra, sig) {
        assert forall|i: int| 0 <= i < sig.len() implies s[i] == sig[i] by {
            assert((s + extra)[i] == s[i]);
        }
    }
}

/// A nonempty `s` that neither starts with `sig` nor is a proper prefix of it
/// differs from `sig` at some byte, so no extension of `s` does either.
proof fn lemma_mismatch_extend(s: Seq<u8>, extra: Seq<u8>, sig: Seq<u8>)
    requires
        s.len() > 0,
        !bytes::has_prefix(s, sig),
        !is_partial(s, sig),
    ensures
        !bytes::has_prefix(s + extra, sig),
        !is_partial(s + extra, sig),
{
    let i = if s.len() < sig.len() {
        choose|i: int| 0 <= i < s.len() && sig[i] != s[i]
    } else {
        choose|i: int| 0 <= i < sig.len() && s[i] != sig[i]
    };
    assert((s + extra)[i] == s[i]);
}

/// Trailing data is ignored: a recognized header stays recognized, with the
/// same version, whatever follows it, and a nonempty input that is not
/// recognized stays unrecognized.
pub proof fn lemma_identify_ignores_trailing_data(s: Seq<u8>, extra: Seq<u8>)
    ensures
        identify_spec(s) matches Ok(Some(h)) ==> identify_spec(s + extra) == Ok::<
            Option<FormatHeader>,
            Error,
        >(Some(h)),
        s.len() > 0 && identify_spec(s) == Ok::<Option<FormatHeader>, Error>(None)
            ==> identify_spec(s + extra) == Ok::<Option<FormatHeader>, Error>(None),
{
    if s.len() > 0 && identify_spec(s) == Ok::<Option<FormatHeader>, Error>(None) {
        lemma_mismatch_extend(s, extra, zone_signature());
        lemma_mismatch_extend(s, extra, terrain_signature());
        lemma_mismatch_extend(s, extra, model_signature());
        lemma_mismatch_extend(s, extra, terrain_project_signature());
        lemma_mismatch_extend(s, extra, object_group_signature());
    }
    if let Ok(Some(h)) = identify_spec(s) {
        let t = s + extra;
        if s.len() >= 5 {
            lemma_signature_extend(s, extra, terrain_project_signature());
            lemma_signature_extend(s, extra, object_group_signature());
        }
        lemma_signature_extend(s, extra, zone_signature());
        lemma_signature_extend(s, extra, terrain_signature());
        lemma_signature_extend(s, extra, model_signature());
        if has_binary_signature(s) {
            assert(t[4] == s[4] && t[5] == s[5] && t[6] == s[6] && t[7] == s[7]);
            assert(bytes::le_u32(t, 4) == bytes::le_u32(s, 4));
        } else {
            assert(s.len() >= 5);
        }
    }
}

/// Every nonempty proper prefix of a recognized header is reported as a
/// truncated header, with its own length as the bytes available and more
/// bytes than that, but no more than the header spans, as the bytes expected.
pub proof fn lemma_identify_truncated_headers(s: Seq<u8>, k: int)
    ensures
        identify_spec(s) matches Ok(Some(h)) ==> (0 < k < header_len(h) ==> (identify_spec(
            s.take(k),
        ) matches Err(Error::TruncatedHeader { expected, actual }) && actual == k && k
            < expected <= header_len(h))),
{
    if let Ok(Some(h)) = identify_spec(s) {
        if 0 < k < header_len(h) {
            let t = s.take(k);
            assert(forall|i: int| 0 <= i < k ==> t[i] == s[i]);
            if has_binary_signature(s) {
                assert(s.len() >= 8);
                if k < 4 {
                    if bytes::has_prefix(s, zone_signature()) {
                        assert(is_partial(t, zone_signature()));
                    } else if bytes::has_prefix(s, terrain_signature()) {
                        assert(is_partial(t, terrain_signature()));
                    } else {
                        assert(is_partial(t, model_signature()));
                    }
                } else {
                    assert(!is_partial_text(t)) by {
                        assert(t[2] == 0x47u8);
                        assert(terrain_project_signature()[2] == 0x54u8);
                        assert(object_group_signature()[2] == 0x4fu8);
                    }
                    if bytes::has_prefix(s, zone_signature()) {
                        assert(bytes::has_prefix(t, zone_signature()));
                    } else if bytes::has_prefix(s, terrain_signature()) {
                        assert(bytes::has_prefix(t, terrain_signature()));
                    } else {
                        assert(bytes::has_prefix(t, model_signature()));
                    }
                }
            } else {
                let sig = if bytes::has_prefix(s, terrain_project_signature()) {
                    terrain_project_signature()
                } else {
                    object_group_signature()
                };
                assert(bytes::has_prefix(s, sig));
                if k <= 2 {
                    assert(is_partial(t, zone_signature()));
                } else {
                    assert(t[2] == sig[2]);
                    assert(!is_partial_binary(t)) by {
                        assert(zone_signature()[2] == 0x47u8);
                        assert(terrain_signature()[2] == 0x47u8);
                        assert(model_signature()[2] == 0x47u8);
                    }
                    assert(is_partial(t, sig));
                }
            }
        }
    }
}

} // verus!
