use leptonica_core::{Pix, PixelDepth, Pta, Box, Boxa, Color, ContourOutput, PixelOp};
use leptonica_core::pix::graphics::{select_masked_points, HashOrientation, generate_hash_box_axis_pta, render_polygon, generate_line_pta, generate_wide_line_pta, generate_box_pta, generate_polyline_pta, generate_boxa_pta, generate_ptaa_boxa, generate_grid_pta, convert_line_to_4cc, generate_filled_square_pta};

#[test]
fn test_generate_line_horizontal() {
    let pta = generate_line_pta(0, 0, 10, 0);
    assert_eq!(pta.len(), 11);

    // Check endpoints
    assert_eq!(pta.get(0), Some((0, 0)));
    assert_eq!(pta.get(10), Some((10, 0)));
}

#[test]
fn test_generate_line_vertical() {
    let pta = generate_line_pta(0, 0, 0, 10);
    assert_eq!(pta.len(), 11);

    assert_eq!(pta.get(0), Some((0, 0)));
    assert_eq!(pta.get(10), Some((0, 10)));
}

#[test]
fn test_generate_line_diagonal() {
    let pta = generate_line_pta(0, 0, 10, 10);
    assert_eq!(pta.len(), 11);

    assert_eq!(pta.get(0), Some((0, 0)));
    assert_eq!(pta.get(10), Some((10, 10)));
}

#[test]
fn test_generate_line_single_point() {
    let pta = generate_line_pta(5, 5, 5, 5);
    assert_eq!(pta.len(), 1);
    assert_eq!(pta.get(0), Some((5, 5)));
}

#[test]
fn test_generate_wide_line() {
    let pta = generate_wide_line_pta(0, 0, 10, 0, 3);
    // Width 3: base line + 2 parallel lines
    assert!(pta.len() >= 33); // At least 11 * 3
}

#[test]
fn test_generate_box_pta() {
    let b = Box::new_unchecked(10, 10, 20, 20);
    let pta = generate_box_pta(&b, 1);
    // Box perimeter should have points
    assert!(!pta.is_empty());
}

#[test]
fn test_generate_polyline_pta() {
    let mut vertices = Pta::new();
    vertices.push(0, 0);
    vertices.push(10, 0);
    vertices.push(10, 10);

    let pta = generate_polyline_pta(&vertices, 1, false);
    // Two line segments
    assert!(!pta.is_empty());

    let pta_closed = generate_polyline_pta(&vertices, 1, true);
    // Closed should have more points (third segment)
    assert!(pta_closed.len() > pta.len());
}

#[test]
fn test_render_line_8bpp() {
    let pix = Pix::new(100, 100, PixelDepth::Bit8).unwrap();
    let mut pix_mut = pix.to_mut();

    pix_mut
        .render_line(10, 10, 90, 90, 1, PixelOp::SetMax)
        .unwrap();

    // Check that the line was drawn (some points should be set)
    let pix: Pix = pix_mut.into();
    let val = pix.get_pixel(50, 50);
    assert_eq!(val, Some(255)); // Diagonal line passes through center
}

#[test]
fn test_render_box_8bpp() {
    let pix = Pix::new(100, 100, PixelDepth::Bit8).unwrap();
    let mut pix_mut = pix.to_mut();

    let b = Box::new_unchecked(20, 20, 60, 60);
    pix_mut.render_box(&b, 1, PixelOp::SetMax).unwrap();

    let pix: Pix = pix_mut.into();

    // Check corners
    assert_eq!(pix.get_pixel(20, 20), Some(255));
    assert_eq!(pix.get_pixel(79, 20), Some(255));
    assert_eq!(pix.get_pixel(20, 79), Some(255));
    assert_eq!(pix.get_pixel(79, 79), Some(255));

    // Check center (should be empty)
    assert_eq!(pix.get_pixel(50, 50), Some(0));
}

#[test]
fn test_render_line_color_32bpp() {
    let pix = Pix::new(100, 100, PixelDepth::Bit32).unwrap();
    let mut pix_mut = pix.to_mut();

    pix_mut
        .render_line_color(10, 50, 90, 50, 1, Color::red())
        .unwrap();

    let pix: Pix = pix_mut.into();

    // Check that red was drawn
    let rgb = pix.get_rgb(50, 50);
    assert_eq!(rgb, Some((255, 0, 0)));
}

#[test]
fn test_render_contours() {
    // Create a grayscale gradient
    let pix = Pix::new(100, 100, PixelDepth::Bit8).unwrap();
    let mut pix_mut = pix.to_mut();

    // Fill with horizontal gradient
    for y in 0..100 {
        for x in 0..100 {
            let val = ((x as f32 / 100.0) * 255.0) as u32;
            pix_mut.set_pixel(x, y, val).unwrap();
        }
    }

    let pix: Pix = pix_mut.into();

    // Render contours every 50 levels
    let contours = pix.render_contours(0, 50, ContourOutput::Binary).unwrap();

    assert_eq!(contours.depth(), PixelDepth::Bit1);
    assert_eq!(contours.width(), 100);
    assert_eq!(contours.height(), 100);

    // There should be contour lines at values 0, 50, 100, 150, 200, 250
    // which correspond to x positions approximately at 0, 20, 39, 59, 78, 98
}

#[test]
fn test_color_conversions() {
    let c = Color::new(100, 150, 200);
    assert_eq!(c.to_gray(), 150);

    let pixel = c.to_pixel32();
    let (r, g, b) = leptonica_core::color::extract_rgb(pixel);
    assert_eq!((r, g, b), (100, 150, 200));
}

#[test]
fn test_pixel_op_flip() {
    let pix = Pix::new(10, 10, PixelDepth::Bit8).unwrap();
    let mut pix_mut = pix.to_mut();

    // Set initial value
    pix_mut.set_pixel(5, 5, 100).unwrap();

    // Flip
    let mut pta = Pta::new();
    pta.push(5, 5);
    pix_mut.render_pta(&pta, PixelOp::Flip).unwrap();

    // Value should be flipped: 100 ^ 255 = 155
    assert_eq!(pix_mut.get_pixel(5, 5), Some(155));
}

#[test]
fn test_generate_boxa_pta() {
    let mut boxa = Boxa::new();
    boxa.push(leptonica_core::box_::Box::new(0, 0, 10, 10).unwrap());
    boxa.push(leptonica_core::box_::Box::new(20, 20, 5, 5).unwrap());
    let pta = generate_boxa_pta(&boxa, 1, false);
    assert!(pta.len() > 0); // should contain outline points of both boxes
}

#[test]
fn test_generate_ptaa_boxa() {
    let mut boxa = Boxa::new();
    boxa.push(leptonica_core::box_::Box::new(0, 0, 10, 10).unwrap());
    boxa.push(leptonica_core::box_::Box::new(5, 5, 8, 8).unwrap());
    let ptaa = generate_ptaa_boxa(&boxa);
    assert_eq!(ptaa.len(), 2);
    // Each pta should have 4 corner points
    assert_eq!(ptaa.get(0).unwrap().len(), 4);
}

#[test]
fn test_generate_grid_pta() {
    let pta = generate_grid_pta(100, 80, 4, 3, 1).unwrap();
    assert!(pta.len() > 0);
}

#[test]
fn test_convert_line_to_4cc() {
    // Create a diagonal line (8-connected)
    let mut pta = Pta::new();
    pta.push(0, 0);
    pta.push(1, 1);
    pta.push(2, 2);
    let pta4 = convert_line_to_4cc(&pta);
    // 2 diagonal steps → 2 extra intermediate points added
    assert_eq!(pta4.len(), 5); // 0,0 | 1,0 | 1,1 | 2,1 | 2,2
}

#[test]
fn test_generate_filled_square_pta() {
    let pta = generate_filled_square_pta(3).unwrap();
    assert_eq!(pta.len(), 9); // 3×3 = 9 points
    // Check corners
    assert!(
        pta.points().iter()
            .any(|&(x, y)| x == 0 && y == 0)
    );
    assert!(
        pta.points().iter()
            .any(|&(x, y)| x == 2 && y == 2)
    );
}

#[test]
fn test_render_boxa() {
    let pix = Pix::new(100, 100, leptonica_core::PixelDepth::Bit8).unwrap();
    let mut pm = pix.to_mut();
    let mut boxa = Boxa::new();
    boxa.push(Box::new(10, 10, 20, 20).unwrap());
    boxa.push(Box::new(50, 50, 15, 15).unwrap());
    pm.render_boxa(&boxa, 1, PixelOp::SetMax).unwrap();
    // Corner pixels of first box should be set
    assert_eq!(pm.get_pixel(10, 10), Some(255));
}

#[test]
fn test_render_boxa_color() {
    let pix = Pix::new(100, 100, leptonica_core::PixelDepth::Bit32).unwrap();
    let mut pm = pix.to_mut();
    let mut boxa = Boxa::new();
    boxa.push(Box::new(10, 10, 20, 20).unwrap());
    let red = Color { r: 255, g: 0, b: 0 };
    pm.render_boxa_color(&boxa, 1, red).unwrap();
    let px = pm.get_pixel(10, 10).unwrap();
    assert_ne!(px, 0);
}

#[test]
fn test_render_grid_color() {
    let pix = Pix::new(100, 100, leptonica_core::PixelDepth::Bit32).unwrap();
    let mut pm = pix.to_mut();
    let white = Color {
        r: 255,
        g: 255,
        b: 255,
    };
    pm.render_grid_color(4, 4, 1, white).unwrap();
    // Some pixels should be non-zero (grid lines drawn)
    let any_set = (0..100u32).any(|y| (0..100u32).any(|x| pm.get_pixel(x, y) != Some(0)));
    assert!(any_set);
}

#[test]
fn test_line_points_exact() {
    let pta = generate_line_pta(0, 0, 5, 2);
    assert_eq!(pta.points(), &[(0, 0), (1, 0), (2, 1), (3, 1), (4, 2), (5, 2)]);
    let steep = generate_line_pta(3, 4, 2, 0);
    assert_eq!(steep.points(), &[(3, 4), (3, 3), (3, 2), (2, 1), (2, 0)]);
}

#[test]
fn test_wide_line_offsets() {
    let pta = generate_wide_line_pta(0, 5, 2, 5, 3);
    assert_eq!(
        pta.points(),
        &[(0, 5), (1, 5), (2, 5), (0, 4), (1, 4), (2, 4), (0, 7), (1, 7), (2, 7)]
    );
    assert_eq!(generate_wide_line_pta(1, 1, 1, 3, 0).len(), 3);
}

#[test]
fn test_box_outline_points() {
    let pta = generate_box_pta(&Box::new_unchecked(0, 0, 3, 3), 1);
    assert_eq!(
        pta.points(),
        &[(0, 0), (1, 0), (2, 0), (0, 2), (1, 2), (2, 2), (0, 1), (2, 1)]
    );
    assert!(generate_box_pta(&Box::new_unchecked(4, 4, 0, 3), 1).is_empty());
}

#[test]
fn test_boxa_pta_dedup() {
    let mut boxa = Boxa::new();
    boxa.push(Box::new(0, 0, 3, 3).unwrap());
    boxa.push(Box::new(0, 0, 3, 3).unwrap());
    assert_eq!(generate_boxa_pta(&boxa, 1, false).len(), 16);
    assert_eq!(generate_boxa_pta(&boxa, 1, true).len(), 8);
}

#[test]
fn test_grid_errors() {
    assert!(generate_grid_pta(10, 10, 0, 2, 1).is_err());
    assert!(generate_grid_pta(10, 10, 6, 2, 1).is_err());
}

#[test]
fn test_square_order() {
    let pta = generate_filled_square_pta(2).unwrap();
    assert_eq!(pta.points(), &[(0, 0), (1, 0), (0, 1), (1, 1)]);
    assert!(generate_filled_square_pta(0).is_err());
}

#[test]
fn test_4cc_keeps_straight_steps() {
    let mut pta = Pta::new();
    pta.push(0, 0);
    pta.push(1, 0);
    pta.push(2, 1);
    assert_eq!(convert_line_to_4cc(&pta).points(), &[(0, 0), (1, 0), (2, 0), (2, 1)]);
}

#[test]
fn test_render_ops_and_colors() {
    let mut pm = Pix::new(4, 4, PixelDepth::Bit8).unwrap().to_mut();
    pm.set_pixel(1, 1, 200).unwrap();
    let mut pta = Pta::new();
    pta.push(1, 1);
    pta.push(-1, 2);
    pta.push(9, 0);
    pm.render_pta(&pta, PixelOp::Clear).unwrap();
    assert_eq!(pm.get_pixel(1, 1), Some(0));
    pm.render_pta_color(&pta, Color::new(30, 60, 90)).unwrap();
    assert_eq!(pm.get_pixel(1, 1), Some(60));
    let mut p16 = Pix::new(2, 2, PixelDepth::Bit16).unwrap().to_mut();
    p16.render_pta_color(&pta, Color::new(1, 1, 1)).unwrap();
    assert_eq!(p16.get_pixel(1, 1), Some(257));
    let mut p2 = Pix::new(2, 2, PixelDepth::Bit2).unwrap().to_mut();
    p2.render_pta_color(&pta, Color::white()).unwrap();
    assert_eq!(p2.get_pixel(1, 1), Some(3));
}

#[test]
fn test_render_pta_rejects_colormap() {
    let mut pm = Pix::new(4, 4, PixelDepth::Bit8).unwrap().to_mut();
    pm.set_colormap(Some(leptonica_core::PixColormap::new(8).unwrap())).unwrap();
    let mut pta = Pta::new();
    pta.push(0, 0);
    assert!(pm.render_pta(&pta, PixelOp::SetMax).is_err());
}

#[test]
fn test_contours_overlay_and_errors() {
    let mut pm = Pix::new(4, 1, PixelDepth::Bit8).unwrap().to_mut();
    for x in 0..4u32 {
        pm.set_pixel(x, 0, 10 + 5 * x).unwrap();
    }
    let pix: Pix = pm.into();
    let over = pix.render_contours(15, 10, ContourOutput::Overlay).unwrap();
    assert_eq!(over.get_pixel(0, 0), Some(10));
    assert_eq!(over.get_pixel(1, 0), Some(0));
    assert_eq!(over.get_pixel(2, 0), Some(20));
    assert_eq!(over.get_pixel(3, 0), Some(0));
    assert!(pix.render_contours(0, 0, ContourOutput::Binary).is_err());
    assert!(pix.render_contours(256, 1, ContourOutput::Binary).is_err());
    let rgb = Pix::new(2, 2, PixelDepth::Bit32).unwrap();
    assert!(matches!(
        rgb.render_contours(0, 1, ContourOutput::Binary),
        Err(leptonica_core::Error::UnsupportedDepth(32))
    ));
}

#[test]
fn test_render_polygon() {
    let mut vertices = Pta::new();
    vertices.push(10, 0);
    vertices.push(20, 10);
    vertices.push(10, 20);
    vertices.push(0, 10);
    let (pixd, _xmin, _ymin) = render_polygon(&vertices, 1).unwrap();
    assert_eq!(pixd.depth(), PixelDepth::Bit1);
    assert!(pixd.width() > 0 && pixd.height() > 0);
}

#[test]
fn render_polygon_square_outline() {
    let mut vertices = Pta::new();
    vertices.push(2, 3);
    vertices.push(5, 3);
    vertices.push(5, 6);
    vertices.push(2, 6);
    let (pix, xmin, ymin) = render_polygon(&vertices, 1).unwrap();
    assert_eq!((xmin, ymin), (2, 3));
    assert_eq!((pix.width(), pix.height()), (6, 7));
    assert_eq!(pix.get_pixel(2, 3), Some(1));
    assert_eq!(pix.get_pixel(5, 6), Some(1));
    assert_eq!(pix.get_pixel(3, 4), Some(0));
    assert_eq!(pix.get_pixel(0, 0), Some(0));
}

#[test]
fn render_polygon_errors() {
    assert!(render_polygon(&Pta::new(), 1).is_err());
    let mut one = Pta::new();
    one.push(4, 4);
    assert!(render_polygon(&one, 1).is_err());
}

#[test]
fn hash_box_axis_rows() {
    let b = Box::new(0, 0, 5, 5).unwrap();
    // 1 + 5 / 2 = 3 lines, at rows 0, 2 and 4
    let pta = generate_hash_box_axis_pta(&b, 2, 1, HashOrientation::Horizontal, false).unwrap().unwrap();
    assert_eq!(pta.len(), 15);
    let rows: Vec<i32> = pta.points().iter().map(|p| p.1).collect();
    assert_eq!(&rows[0..5], &[0, 0, 0, 0, 0]);
    assert_eq!(&rows[5..10], &[2, 2, 2, 2, 2]);
    assert_eq!(&rows[10..15], &[4, 4, 4, 4, 4]);
}

#[test]
fn hash_box_axis_columns_with_outline() {
    let b = Box::new(1, 1, 4, 3).unwrap();
    let outline = generate_box_pta(&b, 1);
    let pta = generate_hash_box_axis_pta(&b, 3, 1, HashOrientation::Vertical, true).unwrap().unwrap();
    // outline first, then 1 + 4 / 3 = 2 columns: x = 1 and x = 4
    assert_eq!(&pta.points()[..outline.len()], outline.points());
    let cols: Vec<(i32, i32)> = pta.points()[outline.len()..].to_vec();
    assert_eq!(cols, vec![(1, 1), (1, 2), (1, 3), (4, 1), (4, 2), (4, 3)]);
}

#[test]
fn hash_box_axis_diagonal_and_errors() {
    let b = Box::new(0, 0, 10, 10).unwrap();
    assert!(generate_hash_box_axis_pta(&b, 4, 1, HashOrientation::PosSlope, false).unwrap().is_none());
    assert!(generate_hash_box_axis_pta(&b, 1, 1, HashOrientation::Horizontal, false).is_err());
    let empty = Box::new(0, 0, 0, 10).unwrap();
    assert!(generate_hash_box_axis_pta(&empty, 4, 1, HashOrientation::Horizontal, false).is_err());
}

#[test]
fn test_generate_hash_box_pta_rows() {
    let b = Box::new(0, 0, 20, 20).unwrap();
    let pta = generate_hash_box_axis_pta(&b, 4, 1, HashOrientation::Horizontal, false).unwrap().unwrap();
    assert!(pta.len() > 0);
}

#[test]
fn flip_twice_restores_pixels() {
    let pix = Pix::new(6, 4, PixelDepth::Bit4).unwrap();
    let mut pm = pix.to_mut();
    for y in 0..4u32 {
        for x in 0..6u32 {
            pm.set_pixel(x, y, (x + 3 * y) % 16).unwrap();
        }
    }
    let before: Vec<Option<u32>> = (0..24u32).map(|i| pm.get_pixel(i % 6, i / 6)).collect();
    let mut pta = Pta::new();
    for &(x, y) in &[(1, 1), (1, 1), (2, 3), (-1, 0), (7, 2), (5, 0), (2, 3), (2, 3)] {
        pta.push(x, y);
    }
    pm.render_pta(&pta, PixelOp::Flip).unwrap();
    // (2, 3) is listed three times: inverted once overall; (1, 1) twice: unchanged
    assert_eq!(pm.get_pixel(2, 3), Some(((2 + 9) % 16) ^ 15));
    assert_eq!(pm.get_pixel(1, 1), Some(4));
    pm.render_pta(&pta, PixelOp::Flip).unwrap();
    let after: Vec<Option<u32>> = (0..24u32).map(|i| pm.get_pixel(i % 6, i / 6)).collect();
    assert_eq!(before, after);
}

#[test]
fn masked_points_keep_on_pixels_and_move() {
    let mask = Pix::new(3, 2, PixelDepth::Bit1).unwrap();
    let mut mm = mask.try_into_mut().unwrap();
    mm.set_pixel(1, 0, 1).unwrap();
    mm.set_pixel(2, 1, 1).unwrap();
    let mask: Pix = mm.into();
    let mut pta = Pta::new();
    for &(x, y) in &[(0, 0), (1, 0), (2, 1), (5, 5), (-1, 0), (1, 0)] {
        pta.push(x, y);
    }
    let out = select_masked_points(&pta, &mask, 10, -3);
    assert_eq!(out.points(), &[(11, -3), (12, -2), (11, -3)]);
}
