use modlem::binary_io::ByteReader;
use modlem::graphics_set::{Directive, SetBuilder};
use modlem::planar_bmp::PlanarBMP;
use modlem::graphics_set::{ObjectHeader, Palettes, TerrainHeader};
use modlem::parser::Lexer;

#[test]
fn terrain_header_serialises_little_endian() {
    let h = TerrainHeader {
        width: 32,
        height: 40,
        gfx_offset: 0x1234,
        mask_offset: 0x5678,
        _unknown1: 0,
    };
    let mut bytes: Vec<u8> = Vec::new();
    h.write(&mut bytes);
    assert_eq!(bytes, vec![0x20, 0x28, 0x34, 0x12, 0x78, 0x56, 0x00, 0x00]);
    let mut reader = ByteReader::new(bytes);
    let back = TerrainHeader::read(&mut reader).unwrap();
    assert_eq!(back, h);
}

#[test]
fn object_header_round_trip() {
    let h = ObjectHeader {
        animation_flags: 1,
        frame_start: 0,
        frame_end: 4,
        width: 16,
        height: 10,
        animation_frame_data_size: 100,
        mask_offset: 0,
        _unknown0: 0,
        _unknown1: 0,
        trigger_x: 5,
        trigger_y: 6,
        trigger_w: 2,
        trigger_h: 3,
        trigger_effect_id: 7,
        animation_offset: 200,
        preview_frame_offset: 400,
        preview_frame_number: 2,
        _unknown2: 0,
        trap_sound: 9,
    };
    let mut bytes: Vec<u8> = Vec::new();
    h.write(&mut bytes);
    assert_eq!(bytes.len(), 28);
    let mut reader = ByteReader::new(bytes);
    let back = ObjectHeader::read(&mut reader).unwrap();
    // preview_frame_number is derived: (400 - 200) / 100 == 2.
    assert_eq!(back, h);
}

#[test]
fn palettes_round_trip() {
    let mut p = Palettes::new_zeroed();
    p.ega_custom[0] = 0x3F;
    p.vga_standard[23] = 63;
    let mut bytes: Vec<u8> = Vec::new();
    p.write(&mut bytes);
    assert_eq!(bytes.len(), 96);
    assert_eq!(bytes[0], 0x3F);
    assert_eq!(bytes[8 + 8 + 8 + 24 + 23], 63);
    let mut reader = ByteReader::new(bytes);
    let back = Palettes::read(&mut reader).unwrap();
    assert_eq!(back.ega_custom[0], 0x3F);
    assert_eq!(back.vga_standard[23], 63);
}

#[test]
fn object_spec_parses() {
    let script = "{ animation_flags = 1 frames = (0, 8) trigger = (10, 20, 3, 4) \
                  trigger_effect = 5 preview_frame = 1 trap_sound = 2 }";
    let mut lexer = Lexer::from_str(script);
    let h = ObjectHeader::parse(&mut lexer).unwrap();
    assert_eq!(h.animation_flags, 1);
    assert_eq!((h.frame_start, h.frame_end), (0, 8));
    assert_eq!((h.trigger_x, h.trigger_y, h.trigger_w, h.trigger_h), (10, 20, 3, 4));
    assert_eq!(h.trigger_effect_id, 5);
    assert_eq!(h.preview_frame_number, 1);
    assert_eq!(h.trap_sound, 2);
    // Fields the script does not set stay zero.
    assert_eq!(h.width, 0);
    assert_eq!(h.animation_offset, 0);
}

#[test]
fn object_spec_rejects_unknown_key() {
    let mut lexer = Lexer::from_str("{ colour = 3 }");
    assert!(ObjectHeader::parse(&mut lexer).is_err());
}

#[test]
fn palettes_spec_parses() {
    let script = "{ ega_custom = { (1,2,3), (0,0,0), (0,0,0), (0,0,0), \
                  (0,0,0), (0,0,0), (0,0,0), (3,3,3) } \
                  vga_standard = { (63,0,0), (0,63,0), (0,0,63), (0,0,0), \
                  (0,0,0), (0,0,0), (0,0,0), (10,20,30) } }";
    let mut lexer = Lexer::from_str(script);
    let p = Palettes::parse(&mut lexer).unwrap();
    // EGA entries pack the two-bit channels as rrggbb.
    assert_eq!(p.ega_custom[0], 0b01_10_11);
    assert_eq!(p.ega_custom[7], 0b11_11_11);
    assert_eq!(&p.vga_standard[0..3], &[63, 0, 0]);
    assert_eq!(&p.vga_standard[21..24], &[10, 20, 30]);
    // Untouched tables stay zeroed.
    assert_eq!(p.vga_custom, vec![0u8; 24]);
}

#[test]
fn object_spec_text_round_trips() {
    let mut h = ObjectHeader::default();
    h.animation_flags = 1;
    h.frame_end = 8;
    h.trigger_x = 10;
    h.trigger_y = 20;
    h.trigger_w = 3;
    h.trigger_h = 4;
    h.trigger_effect_id = 5;
    h.preview_frame_number = 2;
    h.trap_sound = 6;
    let text = String::from_utf8(h.to_script_bytes()).unwrap();
    let mut lexer = Lexer::from_str(&text);
    let back = ObjectHeader::parse(&mut lexer).unwrap();
    assert_eq!(back, h);
}

#[test]
fn palettes_script_text_round_trips() {
    let mut p = Palettes::new_zeroed();
    p.ega_custom[0] = 0b01_10_11;
    p.ega_standard[7] = 0b11_00_01;
    p.vga_custom[0] = 63;
    p.vga_preview[23] = 17;
    let text = String::from_utf8(p.to_script_bytes().split_off(1)).unwrap();
    // The block opens with `{`; Palettes::parse expects the text after the
    // `Palettes =` key, brace included.
    let full = format!("{{{}", text);
    let mut lexer = Lexer::from_str(&full);
    let back = Palettes::parse(&mut lexer).unwrap();
    assert_eq!(back.ega_custom, p.ega_custom);
    assert_eq!(back.ega_standard, p.ega_standard);
    assert_eq!(back.ega_preview, p.ega_preview);
    assert_eq!(back.vga_custom, p.vga_custom);
    assert_eq!(back.vga_standard, p.vga_standard);
    assert_eq!(back.vga_preview, p.vga_preview);
}

#[test]
fn header_file_layout() {
    let objects = vec![ObjectHeader {
        animation_flags: 2,
        ..ObjectHeader::default()
    }];
    let terrains = vec![TerrainHeader {
        width: 16,
        height: 8,
        gfx_offset: 0,
        mask_offset: 64,
        _unknown1: 0,
    }];
    let mut pal = Palettes::new_zeroed();
    pal.vga_standard[0] = 63;
    let file = modlem::graphics_set::build_header_file(&objects, &terrains, &pal);
    assert_eq!(file.len(), 16 * 28 + 64 * 8 + 96);
    // The first object header, then fifteen zeroed ones.
    assert_eq!(file[0], 2);
    assert!(file[28..16 * 28].iter().all(|&b| b == 0));
    // The first terrain header at the terrain block's start.
    assert_eq!(&file[16 * 28..16 * 28 + 2], &[16, 8]);
    // The palette block sits last.
    assert_eq!(file[16 * 28 + 64 * 8 + 48], 63);
}

#[test]
fn set_builder_bookkeeping() {
    let mut b = SetBuilder::new();
    // A 16x4 four-plane image with no separate mask: the piece is the left
    // half (8 wide), the mask plane 0 of the right half.
    let mut bmp = PlanarBMP::new(16, 4, 4, Vec::new());
    bmp.pset(0, 0, 0xF);
    b.apply_terrain(&bmp, None).unwrap();
    assert_eq!(b.terrain_headers.len(), 1);
    let th = b.terrain_headers[0];
    assert_eq!((th.width, th.height), (16, 4));
    assert_eq!(th.gfx_offset, 0);
    // Four planes of ceil(8/8) * 4 bytes each precede the mask plane.
    assert_eq!(th.mask_offset, 16);
    assert_eq!(b.terrain_data.len(), 20);

    // An object strip of two 8x2 frames (image 16 wide: left half is the
    // object, right half the mask).
    let obmp = PlanarBMP::new(16, 4, 4, Vec::new());
    let mut h = modlem::graphics_set::ObjectHeader::default();
    h.frame_end = 2;
    h.preview_frame_number = 1;
    b.apply_object(h, &obmp, None).unwrap();
    let oh = b.object_headers[0];
    assert_eq!(oh.animation_offset, 0);
    assert_eq!((oh.width, oh.height), (8, 2));
    // Five planes of one 16x2 half... frame data size counts the full
    // width: (16 * 2 / 8) * 5.
    assert_eq!(oh.animation_frame_data_size, 20);
    assert_eq!(oh.preview_frame_offset, 20);
    assert_eq!(oh.mask_offset, 0);
    // Two frames of five 1x2-byte planes each.
    assert_eq!(b.object_data.len(), 2 * 5 * 2);

    // A two-plane image is refused.
    let bad = PlanarBMP::new(16, 4, 2, Vec::new());
    assert!(b.apply_terrain(&bad, None).is_err());
}

#[test]
fn directives_parse() {
    let script = "Terrain \"t0.bmp\" Mask \"t0m.bmp\"\n\
                  Object \"o0.bmp\" = { frames = (0, 4) }\n\
                  Palettes = { vga_standard = { (63,0,0), (0,0,0), (0,0,0), (0,0,0), \
                  (0,0,0), (0,0,0), (0,0,0), (0,0,0) } }\n";
    let mut lexer = Lexer::from_str(script);
    match modlem::graphics_set::next_directive(&mut lexer).unwrap() {
        Directive::Terrain { file, mask } => {
            assert_eq!(file, "t0.bmp");
            assert_eq!(mask.as_deref(), Some("t0m.bmp"));
        }
        _ => panic!("expected a terrain directive"),
    }
    match modlem::graphics_set::next_directive(&mut lexer).unwrap() {
        Directive::Object { file, mask, header } => {
            assert_eq!(file, "o0.bmp");
            assert!(mask.is_none());
            assert_eq!((header.frame_start, header.frame_end), (0, 4));
        }
        _ => panic!("expected an object directive"),
    }
    match modlem::graphics_set::next_directive(&mut lexer).unwrap() {
        Directive::PaletteBlock(p) => assert_eq!(&p.vga_standard[0..3], &[63, 0, 0]),
        _ => panic!("expected the palette block"),
    }
    assert!(matches!(
        modlem::graphics_set::next_directive(&mut lexer).unwrap(),
        Directive::End
    ));
    // An unknown directive name is refused.
    let mut bad = Lexer::from_str("Music \"x.mod\"");
    assert!(modlem::graphics_set::next_directive(&mut bad).is_err());
}
