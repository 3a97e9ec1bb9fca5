use slidetown_cli::lbf::{process_lbf, LbfCommand, LbfOpts, LbfOutcome};
use slidetown_cli::levelmodifier::{
    process_levelmodifier, LevelModifierCommand, LevelModifierOpts, LevelModifierOutcome,
};
use slidetown_cli::lf::{process_lf, LfCommand, LfOpts, LfOutcome, LF_PACK_DATE};
use slidetown_cli::lof::{process_lof, LofCommand, LofOpts, LofOutcome};
use slidetown_cli::loi::{process_loi, LoiCommand, LoiOpts, LoiOutcome};
use slidetown_cli::Error;

fn w32(v: &mut Vec<u8>, x: u32) {
    v.extend_from_slice(&x.to_le_bytes());
}

/// A small terrain-block container: two blocks, payloads packed
/// contiguously right after the table.
fn sample_lf(date: u32, payloads: &[&[u8]]) -> Vec<u8> {
    let n = payloads.len() as u32;
    let table_end = 108 + 24 * payloads.len();
    let mut v = Vec::new();
    v.extend_from_slice(b"LF\0\0kjc\0");
    w32(&mut v, 7); // unknown1
    w32(&mut v, date);
    w32(&mut v, 9); // unknown2
    w32(&mut v, n);
    for k in 0..13 {
        w32(&mut v, 100 + k);
    }
    w32(&mut v, 4); // size_x
    w32(&mut v, 5); // size_y
    w32(&mut v, 6); // size_idx
    for k in 0..5 {
        w32(&mut v, 200 + k);
    }
    let mut off = table_end as u32;
    for (i, p) in payloads.iter().enumerate() {
        w32(&mut v, i as u32); // index
        w32(&mut v, 10 + i as u32); // position_x
        w32(&mut v, 20 + i as u32); // position_y
        w32(&mut v, off);
        w32(&mut v, p.len() as u32);
        w32(&mut v, 30 + i as u32); // unknown
        off += p.len() as u32;
    }
    for p in payloads {
        v.extend_from_slice(p);
    }
    v
}

#[test]
fn lf_known_deviation_round_trip() {
    // pack(unpack(C)) is byte-identical except the date word
    let original = sample_lf(20011231, &[b"abcd", b"XYZ"]);
    let (manifest, sidecars) = match process_lf(LfOpts {
        cmd: LfCommand::Unpack(original.clone()),
    }) {
        Ok(LfOutcome::Unpack(m, s)) => (m, s),
        other => panic!("unpack failed: {:?}", other.is_err()),
    };
    assert_eq!(sidecars.len(), 2);
    assert_eq!(sidecars[0].name, "0.nif");
    assert_eq!(sidecars[0].data, b"abcd");
    assert_eq!(sidecars[1].name, "1.nif");
    assert_eq!(sidecars[1].data, b"XYZ");
    let given = sidecars.into_iter().map(|p| Some(p.data)).collect();
    let packed = match process_lf(LfOpts { cmd: LfCommand::Pack(manifest, given) }) {
        Ok(LfOutcome::Pack(out)) => out,
        other => panic!("pack failed: {:?}", other.is_err()),
    };
    let mut expected = original;
    expected[12..16].copy_from_slice(&LF_PACK_DATE.to_le_bytes());
    assert_eq!(packed, expected);
}

#[test]
fn lf_patched_offsets_address_payloads() {
    // after packing, length bytes at offset reproduce each sidecar
    let original = sample_lf(1, &[b"first payload", b"2nd"]);
    let (manifest, sidecars) = match process_lf(LfOpts {
        cmd: LfCommand::Unpack(original),
    }) {
        Ok(LfOutcome::Unpack(m, s)) => (m, s),
        _ => panic!("unpack failed"),
    };
    let datas: Vec<Vec<u8>> = sidecars.iter().map(|p| p.data.clone()).collect();
    let given = sidecars.into_iter().map(|p| Some(p.data)).collect();
    let packed = match process_lf(LfOpts { cmd: LfCommand::Pack(manifest, given) }) {
        Ok(LfOutcome::Pack(out)) => out,
        _ => panic!("pack failed"),
    };
    // read the patched reference pairs back out of the table
    for i in 0..2usize {
        let rec = 108 + 24 * i;
        let off =
            u32::from_le_bytes(packed[rec + 12..rec + 16].try_into().unwrap()) as usize;
        let len =
            u32::from_le_bytes(packed[rec + 16..rec + 20].try_into().unwrap()) as usize;
        assert_eq!(&packed[off..off + len], &datas[i][..]);
    }
}

#[test]
fn lf_zero_length_payload() {
    // a zero-length payload writes a valid (offset, 0) pair, no bytes
    let original = sample_lf(20090406, &[b""]);
    let (manifest, sidecars) = match process_lf(LfOpts {
        cmd: LfCommand::Unpack(original.clone()),
    }) {
        Ok(LfOutcome::Unpack(m, s)) => (m, s),
        _ => panic!("unpack failed"),
    };
    assert_eq!(sidecars[0].data, b"");
    let given = sidecars.into_iter().map(|p| Some(p.data)).collect();
    let packed = match process_lf(LfOpts { cmd: LfCommand::Pack(manifest, given) }) {
        Ok(LfOutcome::Pack(out)) => out,
        _ => panic!("pack failed"),
    };
    assert_eq!(packed, original);
    assert_eq!(packed.len(), 132);
    let off = u32::from_le_bytes(packed[120..124].try_into().unwrap());
    let len = u32::from_le_bytes(packed[124..128].try_into().unwrap());
    assert_eq!(off, 132);
    assert_eq!(len, 0);
}

#[test]
fn lf_missing_sidecar_fails_fast() {
    let original = sample_lf(1, &[b"abcd"]);
    let (manifest, _) = match process_lf(LfOpts { cmd: LfCommand::Unpack(original) }) {
        Ok(LfOutcome::Unpack(m, s)) => (m, s),
        _ => panic!("unpack failed"),
    };
    let r = process_lf(LfOpts { cmd: LfCommand::Pack(manifest, vec![None]) });
    assert!(matches!(r, Err(Error::MissingPayload)));
}

#[test]
fn lf_info_reports_header_fields() {
    let original = sample_lf(3, &[b"x"]);
    match process_lf(LfOpts { cmd: LfCommand::Info(original) }) {
        Ok(LfOutcome::Info(i)) => {
            assert_eq!(i.size_x, 4);
            assert_eq!(i.size_y, 5);
            assert_eq!(i.block_count, 1);
        },
        _ => panic!("info failed"),
    }
}

#[test]
fn lf_info_accepts_truncated_table() {
    // info reads the fixed header only: a declared block count with no
    // table behind it still reports the header's fields
    let mut original = sample_lf(3, &[]);
    original[20..24].copy_from_slice(&99u32.to_le_bytes());
    match process_lf(LfOpts { cmd: LfCommand::Info(original) }) {
        Ok(LfOutcome::Info(i)) => assert_eq!(i.block_count, 99),
        _ => panic!("info failed"),
    }
}

#[test]
fn lof_info_accepts_truncated_table() {
    let original = sample_lof(&[], &[]);
    let mut header_only = original[..24].to_vec();
    header_only[16..20].copy_from_slice(&7u32.to_le_bytes());
    match process_lof(LofOpts { cmd: LofCommand::Info(header_only) }) {
        Ok(LofOutcome::Info(i)) => assert_eq!(i.model_count, 7),
        _ => panic!("info failed"),
    }
}

#[test]
fn lbf_info_accepts_truncated_table() {
    let mut header_only = sample_lbf()[..28].to_vec();
    header_only[20..24].copy_from_slice(&5u32.to_le_bytes());
    match process_lbf(LbfOpts { cmd: LbfCommand::Info(header_only) }) {
        Ok(LbfOutcome::Info(i)) => assert_eq!(i.block_count, 5),
        _ => panic!("info failed"),
    }
}

#[test]
fn lf_bad_magic_is_format_error() {
    let mut original = sample_lf(3, &[b"x"]);
    original[0] = b'X';
    let r = process_lf(LfOpts { cmd: LfCommand::Info(original) });
    assert!(matches!(r, Err(Error::Format)));
}

fn sample_lm() -> Vec<u8> {
    // date after the cutoff: 1001 rows per value table; one speed column
    let mut v = Vec::new();
    v.extend_from_slice(b"DPDB");
    w32(&mut v, 20090406);
    w32(&mut v, 1); // speed_length
    w32(&mut v, 0);
    w32(&mut v, 0);
    w32(&mut v, 0);
    w32(&mut v, 77); // the single speed id
    for k in 0..1001u32 {
        w32(&mut v, k); // one value per speed row
    }
    v
}

#[test]
fn lm_round_trip_is_byte_identical() {
    let original = sample_lm();
    let manifest = match process_levelmodifier(LevelModifierOpts {
        cmd: LevelModifierCommand::Unpack(original.clone()),
    }) {
        Ok(LevelModifierOutcome::Unpack(m)) => m,
        _ => panic!("unpack failed"),
    };
    let packed = match process_levelmodifier(LevelModifierOpts {
        cmd: LevelModifierCommand::Pack(manifest),
    }) {
        Ok(LevelModifierOutcome::Pack(out)) => out,
        _ => panic!("pack failed"),
    };
    assert_eq!(packed, original);
}

#[test]
fn lm_empty_table_packs_to_header_only() {
    // all four length fields zero: exactly magic + fixed header fields
    let manifest = "parameter_table\n20090406\n0\n0\n0\n0\n".to_string();
    let packed = match process_levelmodifier(LevelModifierOpts {
        cmd: LevelModifierCommand::Pack(manifest),
    }) {
        Ok(LevelModifierOutcome::Pack(out)) => out,
        _ => panic!("pack failed"),
    };
    let mut expected = Vec::new();
    expected.extend_from_slice(b"DPDB");
    w32(&mut expected, 20090406);
    for _ in 0..4 {
        w32(&mut expected, 0);
    }
    assert_eq!(packed, expected);
    assert_eq!(packed.len(), 24);
}

#[test]
fn lm_manifest_formatting_is_not_significant() {
    // leading zeros in a number token change the text, not the value
    let canonical = "parameter_table\n20090406\n0\n0\n0\n0\n".to_string();
    let padded = "parameter_table\n0020090406\n0\n0\n00\n0\n".to_string();
    let a = match process_levelmodifier(LevelModifierOpts {
        cmd: LevelModifierCommand::Pack(canonical),
    }) {
        Ok(LevelModifierOutcome::Pack(out)) => out,
        _ => panic!("pack failed"),
    };
    let b = match process_levelmodifier(LevelModifierOpts {
        cmd: LevelModifierCommand::Pack(padded),
    }) {
        Ok(LevelModifierOutcome::Pack(out)) => out,
        _ => panic!("pack failed"),
    };
    assert_eq!(a, b);
}

#[test]
fn lm_malformed_manifest_is_document_error() {
    let r = process_levelmodifier(LevelModifierOpts {
        cmd: LevelModifierCommand::Pack("parameter_table\nnot a number\n".to_string()),
    });
    assert!(matches!(r, Err(Error::Document)));
}

fn sample_loi() -> Vec<u8> {
    let mut v = Vec::new();
    v.extend_from_slice(b"LOI\0kjc\0");
    w32(&mut v, 11); // unknown1
    w32(&mut v, 20060823); // version_date
    w32(&mut v, 2); // block_count
    // block 0: one object
    w32(&mut v, 0);
    w32(&mut v, 1);
    for k in 0..24u32 {
        w32(&mut v, 1000 + k);
    }
    // block 1: empty
    w32(&mut v, 1);
    w32(&mut v, 0);
    // one transform override
    w32(&mut v, 1);
    for k in 0..19u32 {
        w32(&mut v, 2000 + k);
    }
    // trailer sections: two of each per-block section, one tagged-3
    w32(&mut v, 2); // first per-block raw list: two items
    w32(&mut v, 41);
    w32(&mut v, 42);
    w32(&mut v, 0); // second per-block raw list: empty
    w32(&mut v, 1); // tagged-3 section count
    w32(&mut v, 7); // its tag
    w32(&mut v, 1); // one item
    w32(&mut v, 43);
    w32(&mut v, 0); // per-block count-then-tag lists
    w32(&mut v, 8);
    w32(&mut v, 1);
    w32(&mut v, 9);
    w32(&mut v, 44);
    w32(&mut v, 1); // per-block object index lists
    w32(&mut v, 1004);
    w32(&mut v, 0);
    v
}

#[test]
fn loi_round_trip_is_byte_identical() {
    let original = sample_loi();
    let manifest = match process_loi(LoiOpts { cmd: LoiCommand::Unpack(original.clone()) }) {
        Ok(LoiOutcome::Unpack(m)) => m,
        _ => panic!("unpack failed"),
    };
    let packed = match process_loi(LoiOpts { cmd: LoiCommand::Pack(manifest) }) {
        Ok(LoiOutcome::Pack(out)) => out,
        _ => panic!("pack failed"),
    };
    assert_eq!(packed, original);
}

#[test]
fn loi_info_counts_objects() {
    let original = sample_loi();
    match process_loi(LoiOpts { cmd: LoiCommand::Info(original) }) {
        Ok(LoiOutcome::Info(i)) => {
            assert_eq!(i.block_count, 2);
            assert_eq!(i.populated_blocks, 1);
            assert_eq!(i.object_total, 1);
            // the object's index is its fifth word
            assert_eq!(i.max_object_index, 1004);
        },
        _ => panic!("info failed"),
    }
}

#[test]
fn loi_truncated_is_format_error() {
    let mut original = sample_loi();
    original.truncate(original.len() - 4);
    let r = process_loi(LoiOpts { cmd: LoiCommand::Info(original) });
    assert!(matches!(r, Err(Error::Format)));
}

fn sample_lof(names: &[(&[u8], &[u8])], payloads: &[&[u8]]) -> Vec<u8> {
    let mut table = Vec::new();
    for (i, (name, file)) in names.iter().enumerate() {
        w32(&mut table, i as u32);
        for k in 0..5u32 {
            w32(&mut table, 300 + k);
        }
        table.extend_from_slice(name);
        table.push(0);
        table.extend_from_slice(file);
        table.push(0);
        for k in 0..3u32 {
            w32(&mut table, 400 + k);
        }
        // the reference pair is patched below
        w32(&mut table, 0);
        w32(&mut table, 0);
    }
    let mut v = Vec::new();
    v.extend_from_slice(b"LOF\0kjc\0");
    w32(&mut v, 1);
    w32(&mut v, 20040321);
    w32(&mut v, names.len() as u32);
    w32(&mut v, 2);
    v.extend_from_slice(&table);
    // lay the payloads out contiguously and patch the pairs
    let mut off = v.len() as u32;
    let mut cursor = 24usize;
    for (i, (name, file)) in names.iter().enumerate() {
        let rec_pre = 24 + name.len() + 1 + file.len() + 1 + 12;
        let pair_at = cursor + rec_pre;
        v[pair_at..pair_at + 4].copy_from_slice(&off.to_le_bytes());
        v[pair_at + 4..pair_at + 8]
            .copy_from_slice(&(payloads[i].len() as u32).to_le_bytes());
        off += payloads[i].len() as u32;
        cursor += rec_pre + 8;
    }
    for p in payloads {
        v.extend_from_slice(p);
    }
    v
}

#[test]
fn lof_round_trip_is_byte_identical() {
    // ascii and well-formed legacy-encoded names re-encode exactly;
    // 0xB0 0xA1 is one Korean syllable in the legacy encoding
    let original = sample_lof(
        &[(b"car body", b"models/body.nif"), (&[0xB0, 0xA1], b"models/kr.nif")],
        &[b"MESH-A", b"MESH-B!"],
    );
    let (manifest, sidecars) = match process_lof(LofOpts {
        cmd: LofCommand::Unpack(original.clone()),
    }) {
        Ok(LofOutcome::Unpack(m, s)) => (m, s),
        _ => panic!("unpack failed"),
    };
    assert_eq!(sidecars[0].name, "models/body.nif");
    assert_eq!(sidecars[0].data, b"MESH-A");
    // the Korean display name decoded to text in the manifest
    assert!(manifest.contains('\u{AC00}'));
    let given = sidecars.into_iter().map(|p| Some(p.data)).collect();
    let packed = match process_lof(LofOpts { cmd: LofCommand::Pack(manifest, given) }) {
        Ok(LofOutcome::Pack(out)) => out,
        _ => panic!("pack failed"),
    };
    assert_eq!(packed, original);
}

#[test]
fn lof_lossy_name_packs_without_aborting() {
    // a display name outside the legacy repertoire is substituted by
    // the encoder's numeric character reference, not rejected
    let original = sample_lof(&[(b"plain", b"m.nif")], &[b"PAYLOAD"]);
    let (manifest, sidecars) = match process_lof(LofOpts {
        cmd: LofCommand::Unpack(original),
    }) {
        Ok(LofOutcome::Unpack(m, s)) => (m, s),
        _ => panic!("unpack failed"),
    };
    let lossy = manifest.replace("5 plain\n", "5 pl\u{1F697}in\n");
    assert_ne!(lossy, manifest);
    let given = sidecars.into_iter().map(|p| Some(p.data)).collect();
    let packed = match process_lof(LofOpts { cmd: LofCommand::Pack(lossy, given) }) {
        Ok(LofOutcome::Pack(out)) => out,
        _ => panic!("pack failed"),
    };
    // the encoder's documented substitution: a numeric character reference
    assert!(packed.windows(9).any(|w| w == b"&#128663;"));
}

#[test]
fn lof_missing_sidecar_fails_fast() {
    let original = sample_lof(&[(b"a", b"a.nif"), (b"b", b"b.nif")], &[b"1", b"2"]);
    let (manifest, sidecars) = match process_lof(LofOpts {
        cmd: LofCommand::Unpack(original),
    }) {
        Ok(LofOutcome::Unpack(m, s)) => (m, s),
        _ => panic!("unpack failed"),
    };
    let mut given: Vec<Option<Vec<u8>>> =
        sidecars.into_iter().map(|p| Some(p.data)).collect();
    given[0] = None;
    let r = process_lof(LofOpts { cmd: LofCommand::Pack(manifest, given) });
    assert!(matches!(r, Err(Error::MissingPayload)));
}

#[test]
fn lof_manifest_idempotence() {
    let original = sample_lof(&[(b"one", b"one.nif")], &[b"DATA"]);
    let (manifest, sidecars) = match process_lof(LofOpts {
        cmd: LofCommand::Unpack(original.clone()),
    }) {
        Ok(LofOutcome::Unpack(m, s)) => (m, s),
        _ => panic!("unpack failed"),
    };
    // pack, unpack again: the re-derived manifest packs to the same bytes
    let given: Vec<Option<Vec<u8>>> =
        sidecars.into_iter().map(|p| Some(p.data)).collect();
    let packed = match process_lof(LofOpts {
        cmd: LofCommand::Pack(manifest.clone(), given.clone()),
    }) {
        Ok(LofOutcome::Pack(out)) => out,
        _ => panic!("pack failed"),
    };
    let (manifest2, _) = match process_lof(LofOpts { cmd: LofCommand::Unpack(packed) }) {
        Ok(LofOutcome::Unpack(m, s)) => (m, s),
        _ => panic!("unpack failed"),
    };
    assert_eq!(manifest, manifest2);
    let packed2 = match process_lof(LofOpts { cmd: LofCommand::Pack(manifest2, given) }) {
        Ok(LofOutcome::Pack(out)) => out,
        _ => panic!("pack failed"),
    };
    assert_eq!(packed2, original);
}

fn sample_lbf() -> Vec<u8> {
    let mut v = Vec::new();
    v.extend_from_slice(b"LBF\0kjc\0");
    w32(&mut v, 1);
    w32(&mut v, 20050101);
    w32(&mut v, 2);
    w32(&mut v, 2); // block_count
    w32(&mut v, 3); // block_object_count
    // block 0: two objects, block 1: one object; payloads follow
    let base = 28 + 4 + 2 * 16 + 4 + 16;
    w32(&mut v, 2);
    w32(&mut v, 50); // unk
    w32(&mut v, 0); // index
    w32(&mut v, base as u32);
    w32(&mut v, 3);
    w32(&mut v, 51);
    w32(&mut v, 0);
    w32(&mut v, (base + 3) as u32);
    w32(&mut v, 2);
    w32(&mut v, 1);
    w32(&mut v, 60);
    w32(&mut v, 1);
    w32(&mut v, (base + 5) as u32);
    w32(&mut v, 4);
    v.extend_from_slice(b"aaabbcccc");
    v
}

#[test]
fn lbf_preview_extracts_labelled_payloads() {
    let original = sample_lbf();
    match process_lbf(LbfOpts { cmd: LbfCommand::Info(original.clone()) }) {
        Ok(LbfOutcome::Info(i)) => assert_eq!(i.block_count, 2),
        _ => panic!("info failed"),
    }
    match process_lbf(LbfOpts { cmd: LbfCommand::Preview(original) }) {
        Ok(LbfOutcome::Preview(v)) => {
            assert_eq!(v.len(), 3);
            assert_eq!(v[0].name, "Block0Object50");
            assert_eq!(v[0].data, b"aaa");
            assert_eq!(v[1].name, "Block0Object51");
            assert_eq!(v[1].data, b"bb");
            assert_eq!(v[2].name, "Block1Object60");
            assert_eq!(v[2].data, b"cccc");
        },
        _ => panic!("preview failed"),
    }
}

#[test]
fn lbf_out_of_range_payload_is_format_error() {
    let mut original = sample_lbf();
    original.truncate(original.len() - 2);
    let r = process_lbf(LbfOpts { cmd: LbfCommand::Preview(original) });
    assert!(matches!(r, Err(Error::Format)));
}
