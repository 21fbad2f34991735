use libeq_eqg::mesh::{self, MeshKind};
use libeq_eqg::zone::{self, Placement};
use libeq_eqg::{identify, Error, FormatHeader};

fn word(out: &mut Vec<u8>, value: u32) {
    out.extend(value.to_le_bytes());
}

/// A version 2 zone: two models, one placement with two extension words,
/// one region and one light, string table "ab\0cd\0".
fn zone_v2() -> Vec<u8> {
    let mut out = b"EQGZ".to_vec();
    for value in [2, 6, 2, 1, 1, 1] {
        word(&mut out, value);
    }
    out.extend(b"ab\0cd\0");
    word(&mut out, 3);
    word(&mut out, u32::MAX);
    word(&mut out, 0);
    word(&mut out, 1);
    for value in [10, 11, 12, 13, 14, 15, 16] {
        word(&mut out, value);
    }
    word(&mut out, 2);
    word(&mut out, 0xaabbccdd);
    word(&mut out, 7);
    word(&mut out, 4);
    for value in 30..39 {
        word(&mut out, value);
    }
    word(&mut out, 0);
    for value in 40..47 {
        word(&mut out, value);
    }
    out
}

/// A version 2 terrain mesh with one material of two properties, two
/// vertices, one triangle and UV marker 2.
fn terrain_v2() -> Vec<u8> {
    let mut b = b"EQGT".to_vec();
    for v in [2, 4, 1, 2, 1] {
        word(&mut b, v);
    }
    b.extend(b"x\0y\0");
    for v in [5, 0, 2, 2, 0, 1, 9, 2, 2, 2] {
        word(&mut b, v);
    }
    for vertex in 0..2u32 {
        for v in [1, 2, 3, 4, 5, 6, 7 + vertex, 8] {
            word(&mut b, v);
        }
    }
    for v in [0, 1, 1, 3, 4] {
        word(&mut b, v);
    }
    word(&mut b, 2);
    for v in [100, 101, 200, 201] {
        word(&mut b, v);
    }
    b
}

#[test]
fn identify_ignores_any_trailing_data() {
    for header in [
        b"EQGZ\x05\0\0\0".as_slice(),
        b"EQGT\0\0\0\x80",
        b"EQGM\x01\x01\0\0",
        b"EQTZP",
        b"EQOBG",
    ] {
        let alone = identify(header);
        assert!(matches!(alone, Ok(Some(_))));
        for extra in [b"".as_slice(), b"\0", b"EQGZ", b"\xff\xff\xff\xff\xff\xff\xff"] {
            let mut input = header.to_vec();
            input.extend(extra);
            assert_eq!(identify(&input), alone);
        }
    }
    assert_eq!(
        identify(b"EQGT\0\0\0\x80"),
        Ok(Some(FormatHeader::Terrain { version: 0x8000_0000 }))
    );
    assert_eq!(
        identify(b"EQGM\x01\x01\0\0"),
        Ok(Some(FormatHeader::Model { version: 0x101 }))
    );
}

#[test]
fn identify_reports_each_truncation_length() {
    assert_eq!(
        identify(b"EQ"),
        Err(Error::TruncatedHeader { expected: 4, actual: 2 })
    );
    assert_eq!(
        identify(b"EQT"),
        Err(Error::TruncatedHeader { expected: 5, actual: 3 })
    );
    assert_eq!(
        identify(b"EQOB"),
        Err(Error::TruncatedHeader { expected: 5, actual: 4 })
    );
    assert_eq!(
        identify(b"EQGM\0\0\0"),
        Err(Error::TruncatedHeader { expected: 8, actual: 7 })
    );
    assert_eq!(identify(b"EQTZX"), Ok(None));
    assert_eq!(identify(b"EQGz\0\0\0\0"), Ok(None));
}

#[test]
fn zone_version_two_records_and_extension_words() {
    let bytes = zone_v2();
    let z = zone::parse(&bytes).unwrap();
    assert_eq!(z.version, 2);
    assert_eq!(z.string_table, b"ab\0cd\0");
    assert_eq!(z.models, [Some(3), None]);
    let p = &z.placements[0];
    assert_eq!(p.model_index, Some(0));
    assert_eq!(p.name_offset, 1);
    assert_eq!(p.position, [10, 11, 12]);
    assert_eq!(p.rotation, [13, 14, 15]);
    assert_eq!(p.scale, 16);
    assert_eq!(p.extension_data, [0xdd, 0xcc, 0xbb, 0xaa, 7, 0, 0, 0]);
    assert_eq!(p.extension_words(), vec![0xaabbccdd, 7]);
    assert_eq!(z.regions[0].name_offset, 4);
    assert_eq!(z.regions[0].data, [30, 31, 32, 33, 34, 35, 36, 37, 38]);
    assert_eq!(z.lights[0].data, [40, 41, 42, 43, 44, 45, 46]);
    assert!(z.trailing_data.is_empty());
    assert_eq!(z.string(3).unwrap(), b"cd");
    assert_eq!(z.string(4).unwrap(), b"d");
    assert_eq!(z.string(2).unwrap(), b"");
    assert_eq!(
        z.string(6),
        Err(zone::ParseError::InvalidStringReference { offset: 6 })
    );
    assert_eq!(
        z.string(u32::MAX),
        Err(zone::ParseError::InvalidStringReference { offset: u32::MAX })
    );
}

#[test]
fn zone_appended_bytes_become_trailing_data() {
    let bytes = zone_v2();
    let base = zone::parse(&bytes).unwrap();
    for extra in [b"".as_slice(), b"\0", b"more bytes"] {
        let mut longer = bytes.clone();
        longer.extend(extra);
        let z = zone::parse(&longer).unwrap();
        assert_eq!(z.trailing_data, extra);
        assert_eq!(z.models, base.models);
        assert_eq!(z.placements.len(), base.placements.len());
        assert_eq!(z.placements[0].extension_data, base.placements[0].extension_data);
        assert_eq!(z.regions[0].data, base.regions[0].data);
        assert_eq!(z.lights[0].data, base.lights[0].data);
    }
}

#[test]
fn zone_every_prefix_short_of_the_records_fails() {
    let bytes = zone_v2();
    for end in 0..bytes.len() {
        assert!(zone::parse(&bytes[..end]).is_err(), "prefix {end}");
    }
}

#[test]
fn zone_errors_name_the_failing_read() {
    assert_eq!(

        zone::parse(b"").err(),
        Some(zone::ParseError::Truncated {
            context: "magic",
            offset: 0,
            needed: 4,
            remaining: 0
        })
    );
    assert_eq!(

        zone::parse(b"EQGZ\x01\0").err(),
        Some(zone::ParseError::Truncated {
            context: "version",
            offset: 4,
            needed: 4,
            remaining: 2
        })
    );
    assert_eq!(

        zone::parse(b"EQGZ\x01\0\0\0\0\0\0\0\0\0").err(),
        Some(zone::ParseError::Truncated {
            context: "header",
            offset: 12,
            needed: 4,
            remaining: 2
        })
    );
    assert_eq!(zone::parse(b"EQGM\x01\0\0\0").err(), Some(zone::ParseError::InvalidMagic));
    assert_eq!(

        zone::parse(b"EQGZ\0\0\0\0").err(),
        Some(zone::ParseError::UnsupportedVersion { version: 0 })
    );
    let bytes = zone_v2();
    assert_eq!(

        zone::parse(&bytes[..40]).err(),
        Some(zone::ParseError::Truncated {
            context: "counted records",
            offset: 28,
            needed: 6 + 8 + 40 + 40 + 32,
            remaining: 12
        })
    );
    // The extension count claims more words than the descriptor holds.
    let mut bad = bytes.clone();
    bad[78..82].copy_from_slice(&1000u32.to_le_bytes());
    assert_eq!(

        zone::parse(&bad).err(),
        Some(zone::ParseError::Truncated {
            context: "placement extension",
            offset: 82,
            needed: 4000,
            remaining: bytes.len() - 82
        })
    );
    let mut bad = bytes.clone();
    bad[42..46].copy_from_slice(&2u32.to_le_bytes());
    assert_eq!(

        zone::parse(&bad).err(),
        Some(zone::ParseError::InvalidModelReference { index: 2, model_count: 2 })
    );
    let mut bad = bytes;
    bad[34..38].copy_from_slice(&6u32.to_le_bytes());
    assert_eq!(

        zone::parse(&bad).err(),
        Some(zone::ParseError::InvalidStringReference { offset: 6 })
    );
}

#[test]
fn zone_references_of_a_parsed_zone_resolve() {
    let bytes = zone_v2();
    let z = zone::parse(&bytes).unwrap();
    for offset in z.models.iter().flatten() {
        assert!(z.string(*offset).is_ok());
    }
    for p in &z.placements {
        assert!(z.string(p.name_offset).is_ok());
        if let Some(index) = p.model_index {
            assert!((index as usize) < z.models.len());
        }
        assert_eq!(p.extension_data.len() % 4, 0);
    }
    for r in &z.regions {
        assert!(z.string(r.name_offset).is_ok());
    }
    for l in &z.lights {
        assert!(z.string(l.name_offset).is_ok());
    }
}

#[test]
fn extension_words_ignore_a_partial_final_word() {
    let data = [1u8, 0, 0, 0, 2, 1, 0, 0, 9, 9];
    let p = Placement {
        model_index: None,
        name_offset: 0,
        position: [0; 3],
        rotation: [0; 3],
        scale: 0,
        extension_data: &data,
    };
    assert_eq!(p.extension_words(), vec![1, 0x102]);
    let empty = Placement {
        extension_data: &[],
        ..p
    };
    assert!(empty.extension_words().is_empty());
}

#[test]
fn mesh_terrain_marker_two_supplies_secondary_uvs() {
    let bytes = terrain_v2();
    let m = mesh::parse(&bytes).unwrap();
    assert_eq!(m.kind, MeshKind::Terrain);
    assert_eq!(m.version, 2);
    assert_eq!(m.bone_count, None);
    assert_eq!(m.uv_marker, Some(2));
    assert_eq!(m.materials.len(), 1);
    assert_eq!(m.materials[0].index, 5);
    assert_eq!(m.materials[0].properties.len(), 2);
    assert_eq!(m.materials[0].properties[0].value, 9);
    assert_eq!(m.materials[0].properties[1].kind, 2);
    assert_eq!(m.string(m.materials[0].properties[1].value).unwrap(), b"y");
    assert_eq!(m.vertices.len(), 2);
    assert_eq!(m.vertices[0].position, [1, 2, 3]);
    assert_eq!(m.vertices[0].normal, [4, 5, 6]);
    assert_eq!(m.vertices[0].color, None);
    assert_eq!(m.vertices[0].uv0, [7, 8]);
    assert_eq!(m.vertices[1].uv0, [8, 8]);
    assert_eq!(m.vertices[0].uv1, Some([100, 101]));
    assert_eq!(m.vertices[1].uv1, Some([200, 201]));
    assert_eq!(m.triangles[0].vertex_indices, [0, 1, 1]);
    assert_eq!(m.triangles[0].material_index, 3);
    assert_eq!(m.triangles[0].flags, 4);
    assert!(m.trailing_data.is_empty());
}

#[test]
fn mesh_model_marker_two_supplies_nothing() {
    let mut bytes = terrain_v2();
    bytes[3] = b'M';
    // A model carries a bone count after the header.
    bytes.splice(24..24, 6u32.to_le_bytes());
    let m = mesh::parse(&bytes).unwrap();
    assert_eq!(m.kind, MeshKind::Model);
    assert_eq!(m.bone_count, Some(6));
    assert_eq!(m.uv_marker, Some(2));
    assert_eq!(m.vertices[0].uv1, None);
    assert_eq!(m.trailing_data, [100, 0, 0, 0, 101, 0, 0, 0, 200, 0, 0, 0, 201, 0, 0, 0]);
}

#[test]
fn mesh_appended_and_truncated_bytes() {
    let bytes = terrain_v2();
    let mut longer = bytes.clone();
    longer.extend(b"bones");
    let m = mesh::parse(&longer).unwrap();
    assert_eq!(m.trailing_data, b"bones");
    assert_eq!(m.vertices[1].uv1, Some([200, 201]));
    for end in 0..bytes.len() {
        assert!(mesh::parse(&bytes[..end]).is_err(), "prefix {end}");
    }
}

#[test]
fn mesh_errors_name_the_failing_read() {
    let bytes = terrain_v2();
    let mut bad = bytes.clone();
    bad[140..144].copy_from_slice(&2u32.to_le_bytes());
    assert_eq!(

        mesh::parse(&bad).err(),
        Some(mesh::ParseError::InvalidVertexReference { index: 2, vertex_count: 2 })
    );
    let mut bad = bytes.clone();
    bad[64..68].copy_from_slice(&4u32.to_le_bytes());
    assert_eq!(

        mesh::parse(&bad).err(),
        Some(mesh::ParseError::InvalidStringReference { offset: 4 })
    );
    assert_eq!(

        mesh::parse(&bytes[..158]).err(),
        Some(mesh::ParseError::Truncated {
            context: "secondary UVs",
            offset: 156,
            needed: 16,
            remaining: 2
        })
    );
    assert_eq!(

        mesh::parse(&bytes[..30]).err(),
        Some(mesh::ParseError::Truncated {
            context: "counted records",
            offset: 24,
            needed: 4 + 4 + 16 + 64 + 20,
            remaining: 6
        })
    );
    let mut bad = bytes;
    bad[4..8].copy_from_slice(&0u32.to_le_bytes());
    assert_eq!(

        mesh::parse(&bad).err(),
        Some(mesh::ParseError::UnsupportedVersion { version: 0 })
    );
    assert_eq!(mesh::parse(b"EQGZ\x01\0\0\0").err(), Some(mesh::ParseError::InvalidMagic));
}

#[test]
fn zone_parts_come_from_their_layout() {
    let mut bytes = zone_v2();
    bytes.extend(b"tail");
    let z = zone::parse(&bytes).unwrap();
    assert_eq!(z.string_table, &bytes[28..28 + 6]);
    assert_eq!(
        (z.models.len(), z.placements.len(), z.regions.len(), z.lights.len()),
        (2, 1, 1, 1)
    );
    let placement_bytes: usize = z
        .placements
        .iter()
        .map(|p| 40 + p.extension_data.len())
        .sum();
    let end = 28 + 6 + 4 * 2 + placement_bytes + 40 + 32;
    assert_eq!(end, 162);
    assert_eq!(z.trailing_data, &bytes[end..]);
}

#[test]
fn mesh_parts_come_from_their_layout() {
    let mut bytes = terrain_v2();
    bytes.extend(b"rest");
    let m = mesh::parse(&bytes).unwrap();
    assert_eq!(m.string_table, &bytes[24..28]);
    let material_bytes: usize = m
        .materials
        .iter()
        .map(|x| 16 + 12 * x.properties.len())
        .sum();
    let end = 24 + 4 + material_bytes + 32 * 2 + 20 + 4 + 8 * 2;
    assert_eq!(end, 172);
    assert_eq!(m.trailing_data, &bytes[end..]);
}

#[test]
fn identify_keeps_unrecognized_input_unrecognized() {
    for input in [b"X".as_slice(), b"EQX", b"EQGX", b"EQTZQ", b"eqgz"] {
        assert_eq!(identify(input), Ok(None));
        for extra in [b"".as_slice(), b"EQGZ\x01\0\0\0", b"\0\0\0\0\0"] {
            let mut longer = input.to_vec();
            longer.extend(extra);
            assert_eq!(identify(&longer), Ok(None));
        }
    }
}
