use dol::DolFile;
use dol::DolHeader;
use dol::Error;
use dol::Section;
use dol::SectionKind;

fn be32(out: &mut Vec<u8>, x: u32) {
    out.extend_from_slice(&x.to_be_bytes());
}

#[test]
fn too_many_text_sections() {
    let mut cur: Vec<u8> = Vec::new();

    let mut sections = Vec::new();
    for _ in 0..8 {
        sections.push(Section {
            address: 0x10,
            data: vec![1, 3, 3, 7],
            kind: SectionKind::Text,
        });
    }

    let hdr = DolFile {
        sections,
        bss_start: 0,
        bss_length: 0,
        entry_point: 0x10,
    };

    assert!(
        hdr.write(&mut cur).is_err(),
        "attempting to write too many text sections should cause an error"
    );
}

#[test]
fn too_many_data_sections() {
    let mut cur: Vec<u8> = Vec::new();
    let mut sections = Vec::new();

    for _ in 0..12 {
        sections.push(Section {
            address: 0x10,
            data: vec![1, 3, 3, 7],
            kind: SectionKind::Data,
        });
    }

    let hdr = DolFile {
        sections,
        bss_start: 0,
        bss_length: 0,
        entry_point: 0x10,
    };

    assert!(
        hdr.write(&mut cur).is_err(),
        "attempting to write too many data sections should cause an error"
    );
}

#[test]
fn write_dol_header() {
    let mut cur: Vec<u8> = Vec::new();

    let hdr = DolHeader {
        section_offsets: vec![
            256, 265, 274, 283, 292, 301, 310, 319, 324, 329, 334, 339, 344, 349, 354, 359, 364,
            369,
        ],
        section_addresses: vec![
            16, 16, 16, 16, 16, 16, 16, 16, 16, 16, 16, 16, 16, 16, 16, 16, 16, 16,
        ],
        section_lengths: vec![4, 4, 4, 4, 4, 4, 4, 5, 5, 5, 5, 5, 5, 5, 5, 5, 5, 5],
        bss_start: 0,
        bss_length: 0,
        entry_point: 16,
    };

    hdr.write(&mut cur);

    let expected: &[u8] = &[
        0, 0, 1, 0, 0, 0, 1, 9, 0, 0, 1, 18, 0, 0, 1, 27, 0, 0, 1, 36, 0, 0, 1, 45, 0, 0, 1, 54,
        0, 0, 1, 63, 0, 0, 1, 68, 0, 0, 1, 73, 0, 0, 1, 78, 0, 0, 1, 83, 0, 0, 1, 88, 0, 0, 1, 93,
        0, 0, 1, 98, 0, 0, 1, 103, 0, 0, 1, 108, 0, 0, 1, 113, 0, 0, 0, 16, 0, 0, 0, 16, 0, 0, 0,
        16, 0, 0, 0, 16, 0, 0, 0, 16, 0, 0, 0, 16, 0, 0, 0, 16, 0, 0, 0, 16, 0, 0, 0, 16, 0, 0, 0,
        16, 0, 0, 0, 16, 0, 0, 0, 16, 0, 0, 0, 16, 0, 0, 0, 16, 0, 0, 0, 16, 0, 0, 0, 16, 0, 0, 0,
        16, 0, 0, 0, 16, 0, 0, 0, 4, 0, 0, 0, 4, 0, 0, 0, 4, 0, 0, 0, 4, 0, 0, 0, 4, 0, 0, 0, 4,
        0, 0, 0, 4, 0, 0, 0, 5, 0, 0, 0, 5, 0, 0, 0, 5, 0, 0, 0, 5, 0, 0, 0, 5, 0, 0, 0, 5, 0, 0,
        0, 5, 0, 0, 0, 5, 0, 0, 0, 5, 0, 0, 0, 5, 0, 0, 0, 5, 0, 0, 0, 0, 0, 0, 0, 0, 0, 0, 0, 16,
        0, 0, 0, 0, 0, 0, 0, 0, 0, 0, 0, 0, 0, 0, 0, 0, 0, 0, 0, 0, 0, 0, 0, 0, 0, 0, 0, 0,
    ];

    assert_eq!(cur, expected);
}

#[test]
fn parse_dol_header_round_trip() {
    let hdr = DolHeader {
        section_offsets: vec![
            0x100, 0x8e0, 0, 0, 0, 0, 0, 0, 0, 0, 0, 0, 0, 0, 0, 0, 0, 0,
        ],
        section_addresses: vec![
            0x8026caa0, 0x8026d280, 0, 0, 0, 0, 0, 0, 0, 0, 0, 0, 0, 0, 0, 0, 0, 0,
        ],
        section_lengths: vec![
            0x7e0, 0xd4d00, 0, 0, 0, 0, 0, 0, 0, 0, 0, 0, 0, 0, 0, 0, 0, 0,
        ],
        bss_start: 0,
        bss_length: 0,
        entry_point: 0x8026caa0,
    };
    let mut bytes: Vec<u8> = Vec::new();
    hdr.write(&mut bytes);
    assert_eq!(bytes.len(), 256);

    let parsed = DolHeader::parse(&bytes).expect("Could not parse DOL header");
    assert_eq!(parsed.section_offsets, hdr.section_offsets);
    assert_eq!(parsed.section_addresses, hdr.section_addresses);
    assert_eq!(parsed.section_lengths, hdr.section_lengths);
    assert_eq!(parsed.bss_start, hdr.bss_start);
    assert_eq!(parsed.bss_length, hdr.bss_length);
    assert_eq!(parsed.entry_point, hdr.entry_point);
}

#[test]
fn round_trip_mixed_kinds() {
    let dol = DolFile {
        sections: vec![
            Section {
                kind: SectionKind::Data,
                address: 0x11,
                data: vec![10, 11],
            },
            Section {
                kind: SectionKind::Text,
                address: 0x22,
                data: vec![1, 2, 3],
            },
            Section {
                kind: SectionKind::Data,
                address: 0x33,
                data: vec![20],
            },
        ],
        bss_start: 0x40,
        bss_length: 0x50,
        entry_point: 0x60,
    };

    let mut bytes: Vec<u8> = Vec::new();
    dol.write(&mut bytes).expect("writing a small file should succeed");

    let back = DolFile::parse(&bytes).expect("reading the written file should succeed");
    assert_eq!(back.bss_start, 0x40);
    assert_eq!(back.bss_length, 0x50);
    assert_eq!(back.entry_point, 0x60);

    // Text first, then the Data sections in their input order.
    assert_eq!(back.sections.len(), 3);
    assert!(back.sections[0].kind == SectionKind::Text);
    assert_eq!(back.sections[0].address, 0x22);
    assert_eq!(back.sections[0].data, vec![1, 2, 3]);
    assert!(back.sections[1].kind == SectionKind::Data);
    assert_eq!(back.sections[1].address, 0x11);
    assert_eq!(back.sections[1].data, vec![10, 11]);
    assert!(back.sections[2].kind == SectionKind::Data);
    assert_eq!(back.sections[2].address, 0x33);
    assert_eq!(back.sections[2].data, vec![20]);
}

#[test]
fn encode_lays_out_contiguously() {
    let dol = DolFile {
        sections: vec![
            Section {
                kind: SectionKind::Data,
                address: 9,
                data: vec![0xCD, 0xCE],
            },
            Section {
                kind: SectionKind::Text,
                address: 5,
                data: vec![0xAB],
            },
        ],
        bss_start: 0,
        bss_length: 0,
        entry_point: 7,
    };

    let mut bytes: Vec<u8> = Vec::new();
    dol.write(&mut bytes).expect("writing a small file should succeed");

    let mut expected: Vec<u8> = Vec::new();
    // Offsets: the Text section right after the header, the Data section
    // right after it, unused slots zero.
    be32(&mut expected, 0x100);
    for _ in 1..7 {
        be32(&mut expected, 0);
    }
    be32(&mut expected, 0x101);
    for _ in 8..18 {
        be32(&mut expected, 0);
    }
    // Addresses.
    be32(&mut expected, 5);
    for _ in 1..7 {
        be32(&mut expected, 0);
    }
    be32(&mut expected, 9);
    for _ in 8..18 {
        be32(&mut expected, 0);
    }
    // Lengths.
    be32(&mut expected, 1);
    for _ in 1..7 {
        be32(&mut expected, 0);
    }
    be32(&mut expected, 2);
    for _ in 8..18 {
        be32(&mut expected, 0);
    }
    be32(&mut expected, 0);
    be32(&mut expected, 0);
    be32(&mut expected, 7);
    expected.extend_from_slice(&[0u8; 28]);
    expected.extend_from_slice(&[0xAB, 0xCD, 0xCE]);

    assert_eq!(bytes, expected);
}

#[test]
fn zero_length_slot_skipped() {
    // Slot 0 has length 0 but a nonzero offset and address: it must yield no
    // section. Slot 1 carries two bytes.
    let hdr = DolHeader {
        section_offsets: vec![
            0x120, 0x100, 0, 0, 0, 0, 0, 0, 0, 0, 0, 0, 0, 0, 0, 0, 0, 0,
        ],
        section_addresses: vec![0xAA, 0xBB, 0, 0, 0, 0, 0, 0, 0, 0, 0, 0, 0, 0, 0, 0, 0, 0],
        section_lengths: vec![0, 2, 0, 0, 0, 0, 0, 0, 0, 0, 0, 0, 0, 0, 0, 0, 0, 0],
        bss_start: 0,
        bss_length: 0,
        entry_point: 0,
    };
    let mut bytes: Vec<u8> = Vec::new();
    hdr.write(&mut bytes);
    bytes.extend_from_slice(&[0x7F, 0x80]);

    let dol = DolFile::parse(&bytes).expect("the file should parse");
    assert_eq!(dol.sections.len(), 1);
    assert!(dol.sections[0].kind == SectionKind::Text);
    assert_eq!(dol.sections[0].address, 0xBB);
    assert_eq!(dol.sections[0].data, vec![0x7F, 0x80]);
}

#[test]
fn short_input_rejected() {
    let bytes: Vec<u8> = vec![0; 10];
    assert!(DolHeader::parse(&bytes).err() == Some(Error::UnexpectedEnd));
    assert!(DolFile::parse(&bytes).err() == Some(Error::UnexpectedEnd));
}

#[test]
fn truncated_section_rejected() {
    // Slot 0 declares four bytes at 0x100 but only two are present.
    let hdr = DolHeader {
        section_offsets: vec![0x100, 0, 0, 0, 0, 0, 0, 0, 0, 0, 0, 0, 0, 0, 0, 0, 0, 0],
        section_addresses: vec![0x10, 0, 0, 0, 0, 0, 0, 0, 0, 0, 0, 0, 0, 0, 0, 0, 0, 0],
        section_lengths: vec![4, 0, 0, 0, 0, 0, 0, 0, 0, 0, 0, 0, 0, 0, 0, 0, 0, 0],
        bss_start: 0,
        bss_length: 0,
        entry_point: 0,
    };
    let mut bytes: Vec<u8> = Vec::new();
    hdr.write(&mut bytes);
    bytes.extend_from_slice(&[1, 2]);

    assert!(DolFile::parse(&bytes).err() == Some(Error::UnexpectedEnd));
}

#[test]
fn capacity_error_names_kind_and_writes_nothing() {
    let text = |_: usize| Section {
        kind: SectionKind::Text,
        address: 1,
        data: vec![0xEE],
    };
    let data = |_: usize| Section {
        kind: SectionKind::Data,
        address: 2,
        data: vec![0xFF],
    };

    let eight_text = DolFile {
        sections: (0..8).map(text).collect(),
        bss_start: 0,
        bss_length: 0,
        entry_point: 0,
    };
    let mut sink: Vec<u8> = Vec::new();
    assert!(
        eight_text.write(&mut sink).err() == Some(Error::TooManySections(SectionKind::Text))
    );
    assert!(sink.is_empty());

    let twelve_data = DolFile {
        sections: (0..12).map(data).collect(),
        bss_start: 0,
        bss_length: 0,
        entry_point: 0,
    };
    let mut sink: Vec<u8> = Vec::new();
    assert!(
        twelve_data.write(&mut sink).err() == Some(Error::TooManySections(SectionKind::Data))
    );
    assert!(sink.is_empty());

    // When both kinds overflow, Text is reported first.
    let both = DolFile {
        sections: (0..8).map(text).chain((0..12).map(data)).collect(),
        bss_start: 0,
        bss_length: 0,
        entry_point: 0,
    };
    let mut sink: Vec<u8> = Vec::new();
    assert!(both.write(&mut sink).err() == Some(Error::TooManySections(SectionKind::Text)));
    assert!(sink.is_empty());
}

#[test]
fn fixture_round_trip() {
    // A well-formed, contiguous file image built byte by byte.
    let mut original: Vec<u8> = Vec::new();
    // Two Text sections at 0x100 and 0x103, one Data section at 0x104.
    be32(&mut original, 0x100);
    be32(&mut original, 0x103);
    for _ in 2..7 {
        be32(&mut original, 0);
    }
    be32(&mut original, 0x104);
    for _ in 8..18 {
        be32(&mut original, 0);
    }
    be32(&mut original, 0x80003100);
    be32(&mut original, 0x80003200);
    for _ in 2..7 {
        be32(&mut original, 0);
    }
    be32(&mut original, 0x80004000);
    for _ in 8..18 {
        be32(&mut original, 0);
    }
    be32(&mut original, 3);
    be32(&mut original, 1);
    for _ in 2..7 {
        be32(&mut original, 0);
    }
    be32(&mut original, 2);
    for _ in 8..18 {
        be32(&mut original, 0);
    }
    be32(&mut original, 0x80005000);
    be32(&mut original, 0x200);
    be32(&mut original, 0x80003100);
    original.extend_from_slice(&[0u8; 28]);
    original.extend_from_slice(&[0xA0, 0xA1, 0xA2, 0xB0, 0xC0, 0xC1]);

    let dol = DolFile::parse(&original).expect("Could not parse DOL file");
    let mut writeback: Vec<u8> = Vec::new();
    dol.write(&mut writeback)
        .expect("Could not write DOL file back to a buffer");

    assert!(
        writeback == original,
        "Expected written DOL file to be equal to the original one"
    );
}

#[test]
fn empty_section_writes_unused_slot() {
    // A section with an empty data buffer is written as a zero-length slot,
    // which a reader treats as unused: the section does not come back.
    let dol = DolFile {
        sections: vec![
            Section {
                kind: SectionKind::Text,
                address: 0x77,
                data: Vec::new(),
            },
            Section {
                kind: SectionKind::Text,
                address: 0x88,
                data: vec![1],
            },
        ],
        bss_start: 0,
        bss_length: 0,
        entry_point: 0,
    };
    let mut bytes: Vec<u8> = Vec::new();
    dol.write(&mut bytes).expect("writing should succeed");

    let back = DolFile::parse(&bytes).expect("reading it back should succeed");
    assert_eq!(back.sections.len(), 1);
    assert_eq!(back.sections[0].address, 0x88);
}

#[test]
fn empty_file_writes_bare_header() {
    let dol = DolFile {
        sections: Vec::new(),
        bss_start: 0x12,
        bss_length: 0x34,
        entry_point: 0x56,
    };
    let mut bytes: Vec<u8> = Vec::new();
    dol.write(&mut bytes).expect("writing an empty file should succeed");
    assert_eq!(bytes.len(), 256);

    let back = DolFile::parse(&bytes).expect("reading it back should succeed");
    assert_eq!(back.sections.len(), 0);
    assert_eq!(back.bss_start, 0x12);
    assert_eq!(back.bss_length, 0x34);
    assert_eq!(back.entry_point, 0x56);
}
