use modlem::main_dat::{extract_anims, AnimDesc};
use modlem::planar_bmp::{pal8_to_rgb, ColourRGB, PaletteRGB, PlanarBMP};

fn two_colour_palette() -> Vec<u8> {
    // RGBQUAD entries: black, then white.
    vec![0, 0, 0, 0, 255, 255, 255, 0]
}

#[test]
fn packed_pixels_of_one_plane() {
    // 16 x 1, one plane, bits 10101010 01010101.
    let data = vec![0xAA, 0x55];
    let bmp = PlanarBMP::from_contiguous_data(&data, 16, 1, 1, two_colour_palette());
    let expected = [1, 0, 1, 0, 1, 0, 1, 0, 0, 1, 0, 1, 0, 1, 0, 1];
    for x in 0..16 {
        assert_eq!(bmp.get_packed_pixel(x, 0), expected[x]);
    }
}

#[test]
fn set_then_get_pixel() {
    let mut bmp = PlanarBMP::new(16, 4, 4, Vec::new());
    bmp.pset(3, 2, 0xB);
    assert_eq!(bmp.get_packed_pixel(3, 2), 0xB);
    // No other pixel changed.
    for y in 0..4 {
        for x in 0..16 {
            if !(x == 3 && y == 2) {
                assert_eq!(bmp.get_packed_pixel(x, y), 0);
            }
        }
    }
    // Values are reduced to the plane count.
    bmp.pset(0, 0, 0xFF);
    assert_eq!(bmp.get_packed_pixel(0, 0), 0xF);
}

#[test]
fn pixel_values_stay_below_plane_range() {
    let mut bmp = PlanarBMP::new(8, 2, 3, Vec::new());
    for v in 0..=255u8 {
        bmp.pset((v % 8) as usize, (v % 2) as usize, v);
        assert!(bmp.get_packed_pixel((v % 8) as usize, (v % 2) as usize) < 8);
    }
}

#[test]
fn blit_copies_rectangle() {
    let mut dst = PlanarBMP::new(8, 4, 2, Vec::new());
    let mut src = PlanarBMP::new(4, 2, 2, Vec::new());
    src.pset(0, 0, 1);
    src.pset(1, 0, 2);
    src.pset(2, 1, 3);
    dst.blit(&src, 3, 1);
    assert_eq!(dst.get_packed_pixel(3, 1), 1);
    assert_eq!(dst.get_packed_pixel(4, 1), 2);
    assert_eq!(dst.get_packed_pixel(5, 2), 3);
    assert_eq!(dst.get_packed_pixel(0, 0), 0);
    assert_eq!(dst.get_packed_pixel(7, 3), 0);
}

#[test]
fn pal8_data_is_row_major() {
    let data = vec![0xAA, 0x55];
    let bmp = PlanarBMP::from_contiguous_data(&data, 8, 2, 1, two_colour_palette());
    let pal8 = bmp.to_pal8_data();
    assert_eq!(pal8, vec![1, 0, 1, 0, 1, 0, 1, 0, 0, 1, 0, 1, 0, 1, 0, 1]);
}

#[test]
fn save_as_pal8_layout() {
    let data = vec![0xAA, 0x55];
    let bmp = PlanarBMP::from_contiguous_data(&data, 16, 1, 1, two_colour_palette());
    let file = bmp.save_as_pal8();
    // 14-byte file header, 40-byte info header, 2 RGBQUAD entries, 16 pixels.
    assert_eq!(file.len(), 14 + 40 + 8 + 16);
    assert_eq!(&file[0..2], b"BM");
    let bf_size = u32::from_le_bytes([file[2], file[3], file[4], file[5]]);
    assert_eq!(bf_size as usize, file.len());
    let off_bits = u32::from_le_bytes([file[10], file[11], file[12], file[13]]);
    assert_eq!(off_bits, 14 + 40 + 8);
    let bi_size = u32::from_le_bytes([file[14], file[15], file[16], file[17]]);
    assert_eq!(bi_size, 40);
    let width = u32::from_le_bytes([file[18], file[19], file[20], file[21]]);
    let height = u32::from_le_bytes([file[22], file[23], file[24], file[25]]);
    assert_eq!((width, height), (16, 1));
    let bpp = u16::from_le_bytes([file[28], file[29]]);
    assert_eq!(bpp, 8);
    // The single row, bottom-up (here: the only row), one byte per pixel.
    assert_eq!(
        &file[62..78],
        &[1, 0, 1, 0, 1, 0, 1, 0, 0, 1, 0, 1, 0, 1, 0, 1]
    );
}

#[test]
fn vga_palette_scaling() {
    let c = ColourRGB::vga_rgb(63, 0, 0);
    assert_eq!((c.r, c.g, c.b), (252, 0, 0));
    let data = vec![63, 0, 0, 0, 63, 0];
    let pal = PaletteRGB::from_vga_data(2, &data);
    let quads = pal.as_rgbquad();
    assert_eq!(quads, vec![0, 0, 252, 0, 0, 252, 0, 0]);
}

#[test]
fn pal8_to_rgb_uses_standard_then_custom() {
    let mut pal = modlem::graphics_set::Palettes::new_zeroed();
    pal.vga_standard[0] = 63; // entry 0: red 63
    pal.vga_custom[0] = 0;
    pal.vga_custom[1] = 63; // entry 8: green 63
    let rgb = pal8_to_rgb(vec![0, 8], &pal);
    // RGBQUAD order: B, G, R, 0.
    assert_eq!(rgb, vec![0, 0, 252, 0, 0, 252, 0, 0]);
}

#[test]
fn plane_extraction_and_swizzle() {
    let mut bmp = PlanarBMP::new(8, 2, 2, Vec::new());
    bmp.pset(0, 0, 2); // plane 1 only
    bmp.pset(1, 0, 3); // both planes
    bmp.pset(7, 1, 1); // plane 0 only
    let plane0 = bmp.get_plane_data(0, 0, 0, 8, 2);
    assert_eq!(plane0, vec![0b0100_0000, 0b0000_0001]);
    let plane1 = bmp.get_plane_data(1, 0, 0, 8, 2);
    assert_eq!(plane1, vec![0b1100_0000, 0b0000_0000]);
    // A sub-rectangle of a plane is packed with zero padding.
    let region = bmp.get_plane_data(0, 1, 0, 3, 1);
    assert_eq!(region, vec![0b1000_0000]);
    // Swizzling plane 1 into both planes of a new image.
    let swizzled = PlanarBMP::from_swizzle(&bmp, vec![1, 1]);
    assert_eq!(swizzled.get_packed_pixel(0, 0), 3);
    assert_eq!(swizzled.get_packed_pixel(1, 0), 3);
    assert_eq!(swizzled.get_packed_pixel(7, 1), 0);
}

#[test]
fn pal8_file_round_trips_through_from_packed() {
    // Build a 4-plane image, save it, then rebuild it from the file's pixel
    // rows at eight bits per pixel: every packed pixel survives.
    let mut bmp = PlanarBMP::new(8, 3, 4, vec![0u8; 64]);
    for y in 0..3 {
        for x in 0..8 {
            bmp.pset(x, y, ((x + 3 * y) % 16) as u8);
        }
    }
    let file = bmp.save_as_pal8();
    let data_offset = 14 + 40 + 4 * 16;
    let payload = file[data_offset..].to_vec();
    let back = PlanarBMP::from_packed(&payload, 8, 3, 8, 8, Vec::new());
    for y in 0..3 {
        for x in 0..8 {
            assert_eq!(back.get_packed_pixel(x, y), bmp.get_packed_pixel(x, y));
        }
    }
}

#[test]
fn whole_bmp_file_reads_back() {
    let mut bmp = PlanarBMP::new(8, 2, 8, vec![7u8; 1024]);
    bmp.pset(0, 0, 200);
    bmp.pset(7, 1, 31);
    let file = bmp.save_as_pal8();
    // Width 8 is a multiple of 4, so the unpadded pal8 rows line up with
    // the four-byte scanline stride a BMP reader uses.
    let back = PlanarBMP::from_bmp_file(&file).unwrap();
    assert_eq!((back.width, back.height, back.planes), (8, 2, 8));
    assert_eq!(back.get_packed_pixel(0, 0), 200);
    assert_eq!(back.get_packed_pixel(7, 1), 31);
    assert_eq!(back.get_packed_pixel(3, 0), 0);
    assert_eq!(back.palette, vec![7u8; 1024]);
}

#[test]
fn ega_palette_scaling() {
    let c = ColourRGB::ega_rgb(0b0011_1111);
    assert_eq!((c.r, c.g, c.b), (255, 255, 255));
    let dark = ColourRGB::ega_rgb(0b0000_0100);
    assert_eq!((dark.r, dark.g, dark.b), (85, 0, 0));
    let bright = ColourRGB::ega_rgb(0b0010_0000);
    assert_eq!((bright.r, bright.g, bright.b), (170, 0, 0));
}

#[test]
fn anim_slicing_builds_filmstrips() {
    // Two animations: 8x2x1 with 2 frames (4 bytes) and 8x1x2 with 1 frame
    // (2 bytes).
    let descs = vec![
        AnimDesc { num_frames: 2, width: 8, height: 2, planes: 1 },
        AnimDesc { num_frames: 1, width: 8, height: 1, planes: 2 },
    ];
    let data = vec![0xFF, 0x00, 0x0F, 0xF0, 0xAA, 0x55];
    let files = extract_anims(&data, &descs, &vec![0u8; 64]).unwrap();
    assert_eq!(files.len(), 2);
    // First strip: 8 wide, 4 rows, one plane; its pixels follow the bytes.
    let strip = PlanarBMP::from_bmp_file(&files[0]).unwrap();
    assert_eq!((strip.width, strip.height), (8, 4));
    assert_eq!(strip.get_packed_pixel(0, 0), 1); // 0xFF row
    assert_eq!(strip.get_packed_pixel(0, 1), 0); // 0x00 row
    assert_eq!(strip.get_packed_pixel(4, 2), 1); // 0x0F row
    assert_eq!(strip.get_packed_pixel(0, 3), 1); // 0xF0 row
    // A short section is rejected.
    assert!(extract_anims(&vec![0u8; 5], &descs, &Vec::new()).is_err());
    // A misaligned width is rejected.
    let bad = vec![AnimDesc { num_frames: 1, width: 9, height: 1, planes: 1 }];
    assert!(extract_anims(&vec![0u8; 16], &bad, &Vec::new()).is_err());
}
