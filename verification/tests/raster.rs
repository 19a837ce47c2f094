use olive_rs::canvas::Canvas;
use olive_rs::renderer::Renderer;

fn fresh(w: u32, h: u32, bg: u32) -> Renderer {
    let buffer = vec![bg; (w * h) as usize];
    Renderer::new(buffer, w, h)
}

fn pixel(r: &Renderer, x: u32, y: u32) -> u32 {
    r.get_buffer()[(y * r.stride + x) as usize + r.start]
}

#[test]
fn opaque_rect_scenario() {
    let mut r = fresh(16, 16, 0);
    r.fill(0xFF20_2020);
    r.fill_rect(2, 2, 4, 4, 0xFF00_00FF);
    for y in 0..16u32 {
        for x in 0..16u32 {
            let expected = if (2..=5).contains(&x) && (2..=5).contains(&y) {
                0xFF00_00FF
            } else {
                0xFF20_2020
            };
            assert_eq!(pixel(&r, x, y), expected, "at {x},{y}");
        }
    }
}

#[test]
fn blended_rect_scenario() {
    let mut r = fresh(16, 16, 0);
    r.fill(0xFF00_0000);
    r.begin_blending();
    r.fill_rect(0, 0, 16, 16, 0x8000_00FF);
    for y in 0..16u32 {
        for x in 0..16u32 {
            let p = pixel(&r, x, y);
            assert_eq!(p & 0xFF, 0x80, "red at {x},{y}");
            assert_eq!((p >> 8) & 0xFF, 0, "green at {x},{y}");
            assert_eq!((p >> 16) & 0xFF, 0, "blue at {x},{y}");
            assert_eq!((p >> 24) & 0xFF, 0xFF, "alpha preserved at {x},{y}");
        }
    }
}

#[test]
fn line_clip_accept_scenario() {
    let mut r = fresh(16, 16, 0);
    r.draw_line(-4, 8, 20, 8, 0xFFFF_FFFF);
    for y in 0..16u32 {
        for x in 0..16u32 {
            let expected = if y == 8 { 0xFFFF_FFFF } else { 0 };
            assert_eq!(pixel(&r, x, y), expected, "at {x},{y}");
        }
    }
}

#[test]
fn triangle_coverage_scenario() {
    let mut r = fresh(16, 16, 0xFF20_2020);
    r.fill_triangle(0, 0, 15, 0, 0, 15, 0xFF00_FF00);
    for y in 0..16u32 {
        for x in 0..16u32 {
            let expected = if x + y <= 15 { 0xFF00_FF00 } else { 0xFF20_2020 };
            assert_eq!(pixel(&r, x, y), expected, "at {x},{y}");
        }
    }
}

#[test]
fn circle_fill_scenario() {
    let mut r = fresh(16, 16, 0);
    r.fill_circle(8, 8, 4, 0xFFFF_0000);
    assert_eq!(pixel(&r, 8, 8), 0xFFFF_0000);
    assert_eq!(pixel(&r, 12, 8), 0xFFFF_0000);
    assert_eq!(pixel(&r, 4, 8), 0xFFFF_0000);
    assert_eq!(pixel(&r, 12, 12), 0);
    // Nothing written outside the circle of radius r + 1.
    for y in 0..16i64 {
        for x in 0..16i64 {
            let d2 = (x - 8) * (x - 8) + (y - 8) * (y - 8);
            if d2 > 25 {
                assert_eq!(pixel(&r, x as u32, y as u32), 0, "at {x},{y}");
            }
        }
    }
}

#[test]
fn ppm_write_back_scenario() {
    let buffer = vec![0xFF0A_0B0C, 0x0001_0203];
    let r = Renderer::new(buffer, 2, 1);
    let bytes = r.ppm_data();
    assert_eq!(
        bytes,
        vec![
            b'P', b'6', b'\n', b'2', b' ', b'1', b' ', b'2', b'5', b'5', b'\n', 0x0C, 0x0B, 0x0A,
            0x03, 0x02, 0x01
        ]
    );
}

#[test]
fn ppm_round_trip() {
    let buffer = vec![0xFF0A_0B0C, 0x0001_0203, 0x1122_3344, 0xAABB_CCDD];
    let r = Renderer::new(buffer.clone(), 2, 2);
    let bytes = r.ppm_data();
    // Parse the header back.
    let text: Vec<u8> = bytes.clone();
    assert_eq!(&text[0..3], b"P6\n");
    let header_end = 3 + text[3..].iter().position(|&b| b == b'\n').unwrap() + 1;
    let header = std::str::from_utf8(&text[3..header_end - 1]).unwrap();
    let mut parts = header.split(' ');
    let w: u32 = parts.next().unwrap().parse().unwrap();
    let h: u32 = parts.next().unwrap().parse().unwrap();
    assert_eq!(parts.next().unwrap(), "255");
    assert_eq!((w, h), (2, 2));
    // Each pixel's red, green and blue come back unchanged; alpha is gone.
    for k in 0..4usize {
        let p = buffer[k];
        assert_eq!(text[header_end + 3 * k] as u32, p & 0xFF);
        assert_eq!(text[header_end + 3 * k + 1] as u32, (p >> 8) & 0xFF);
        assert_eq!(text[header_end + 3 * k + 2] as u32, (p >> 16) & 0xFF);
    }
}

#[test]
fn blend_transparent_keeps_destination() {
    let mut p = 0x7712_3456u32;
    olive_rs::color::blend_color(&mut p, 0x00FF_FFFF);
    assert_eq!(p, 0x7712_3456);
}

#[test]
fn blend_opaque_replaces_rgb_keeps_alpha() {
    let mut p = 0x7712_3456u32;
    olive_rs::color::blend_color(&mut p, 0xFFAB_CDEF);
    assert_eq!(p, 0x77AB_CDEF);
}

#[test]
fn blend_half_alpha_mixes() {
    let mut p = 0xFF00_0000u32;
    olive_rs::color::blend_color(&mut p, 0x8000_00FF);
    // (0xFF·0x80 + 0x7F·0x00) / 255 = 0x80 on the red channel.
    assert_eq!(p, 0xFF00_0080);
}

#[test]
fn pack_and_unpack_channels() {
    let c = olive_rs::color::rgba2color(0x0C, 0x0B, 0x0A, 0xFF);
    assert_eq!(c, 0xFF0A_0B0C);
    assert_eq!(olive_rs::color::red_part(c), 0x0C);
    assert_eq!(olive_rs::color::green_part(c), 0x0B);
    assert_eq!(olive_rs::color::blue_part(c), 0x0A);
    assert_eq!(olive_rs::color::alpha_part(c), 0xFF);
}

#[test]
fn aa_color_bounds() {
    // Blend on: output alpha is a fraction of the input alpha.
    for count in 0..=4u8 {
        let c = olive_rs::color::aa_color(count, 0x8011_2233, true);
        assert!((c >> 24) <= 0x80);
        assert_eq!(c & 0x00FF_FFFF, 0x0011_2233);
    }
    // Blend off: output alpha is a fraction of 255.
    assert_eq!(olive_rs::color::aa_color(4, 0x0011_2233, false) >> 24, 255);
    assert_eq!(olive_rs::color::aa_color(2, 0x0011_2233, false) >> 24, 127);
}

#[test]
fn clip_accepts_inside_line_unchanged() {
    assert_eq!(olive_rs::clip::box_clip(1, 2, 10, 9, 16, 16), Some((1, 2, 10, 9)));
}

#[test]
fn clip_rejects_shared_outside_lines() {
    assert_eq!(olive_rs::clip::box_clip(-5, 0, -1, 15, 16, 16), None);
    assert_eq!(olive_rs::clip::box_clip(0, 20, 15, 17, 16, 16), None);
    assert_eq!(olive_rs::clip::box_clip(16, 0, 30, 15, 16, 16), None);
}

#[test]
fn clip_cuts_crossing_line() {
    // A horizontal line crossing the whole box is cut to its columns.
    assert_eq!(olive_rs::clip::box_clip(-4, 8, 20, 8, 16, 16), Some((0, 8, 15, 8)));
}

#[test]
fn line_is_symmetric_without_ties() {
    // dx = 5, dy = 3: no traversal tie, so both directions paint the same.
    let mut a = fresh(16, 16, 0);
    let mut b = fresh(16, 16, 0);
    a.draw_line(1, 1, 6, 4, 0xFFFF_FFFF);
    b.draw_line(6, 4, 1, 1, 0xFFFF_FFFF);
    assert_eq!(a.get_buffer(), b.get_buffer());
}

#[test]
fn fill_rect_zero_extent_is_noop() {
    let mut r = fresh(8, 8, 0xAA);
    r.fill_rect(2, 2, 0, 5, 1);
    r.fill_rect(2, 2, 5, 0, 1);
    for y in 0..8u32 {
        for x in 0..8u32 {
            assert_eq!(pixel(&r, x, y), 0xAA);
        }
    }
}

#[test]
fn fill_rect_negative_extent_grows_leftward() {
    let mut a = fresh(8, 8, 0);
    let mut b = fresh(8, 8, 0);
    a.fill_rect(5, 6, -3, -4, 7);
    b.fill_rect(3, 3, 3, 4, 7);
    assert_eq!(a.get_buffer(), b.get_buffer());
}

#[test]
fn copy_resamples_nearest_neighbor() {
    let mut src = fresh(2, 2, 0);
    src.fill_rect(0, 0, 1, 1, 1);
    src.fill_rect(1, 0, 1, 1, 2);
    src.fill_rect(0, 1, 1, 1, 3);
    src.fill_rect(1, 1, 1, 1, 4);
    let mut dst = fresh(4, 4, 0);
    dst.copy(&src);
    for y in 0..4u32 {
        for x in 0..4u32 {
            let expected = [[1, 2], [3, 4]][(y / 2) as usize][(x / 2) as usize];
            assert_eq!(pixel(&dst, x, y), expected, "at {x},{y}");
        }
    }
}

#[test]
fn sub_canvas_paints_into_region() {
    let r = fresh(8, 8, 0);
    let mut sub = Renderer::sub_canvas(r.into_buffer(), 2, 2, 4, 4, 8, 8);
    sub.fill(9);
    let whole = Renderer::new(sub.into_buffer(), 8, 8);
    for y in 0..8u32 {
        for x in 0..8u32 {
            let expected = if (2..6).contains(&x) && (2..6).contains(&y) { 9 } else { 0 };
            assert_eq!(pixel(&whole, x, y), expected, "at {x},{y}");
        }
    }
}

#[test]
fn fill_text_draws_a_glyph() {
    let mut r = fresh(8, 8, 0);
    r.fill_text("!", 0, 0, 1, 5);
    // The '!' glyph is a one-pixel-wide bar at column 2, broken at row 5.
    for y in 0..8u32 {
        for x in 0..8u32 {
            let on = x == 2 && (y <= 4 || y == 6);
            assert_eq!(pixel(&r, x, y), if on { 5 } else { 0 }, "at {x},{y}");
        }
    }
}

#[test]
fn aa_circle_blends_edges() {
    let mut r = fresh(16, 16, 0xFF00_0000);
    r.fill_circle_aa(8, 8, 4, 0xFFFF_0000);
    // The center pixel is fully covered: blended fully opaque red over black.
    assert_eq!(pixel(&r, 8, 8) & 0x00FF_FFFF, 0x00FF_0000);
    // Far corners stay untouched.
    assert_eq!(pixel(&r, 0, 0), 0xFF00_0000);
    assert_eq!(pixel(&r, 15, 15), 0xFF00_0000);
}

#[test]
fn aa_triangle_covers_interior() {
    let mut r = fresh(16, 16, 0xFF00_0000);
    r.fill_triangle_aa(0, 0, 15, 0, 0, 15, 0xFF00_FF00);
    assert_eq!(pixel(&r, 2, 2) & 0x00FF_FFFF, 0x0000_FF00);
    assert_eq!(pixel(&r, 15, 15), 0xFF00_0000);
}

#[test]
fn mix_triangle_interpolates_vertices() {
    let mut r = fresh(16, 16, 0);
    r.fill_triangle_mix(0, 0, 0xFF00_00FF, 15, 0, 0xFF00_FF00, 0, 15, 0xFFFF_0000);
    // Near the first vertex the color is dominated by it.
    let p = pixel(&r, 1, 1);
    assert!(p & 0xFF > 0xC0, "red channel near the red vertex: {p:#x}");
    // Outside the triangle nothing is painted.
    assert_eq!(pixel(&r, 15, 15), 0);
}

#[test]
fn mix_triangle_upper_rows_exclude_right_end() {
    // An upper trapezoid exists when the top two vertices differ in y; its
    // rows stop one pixel short of the right edge traversal.
    let mut r = fresh(16, 16, 0);
    r.fill_triangle_mix(0, 0, 7, 8, 4, 7, 0, 8, 7);
    // Row 0 holds only the top vertex pixel's span [0, x) which is empty.
    assert_eq!(pixel(&r, 0, 0), 0);
}

#[test]
fn canvas_new_is_zeroed() {
    let c = Canvas::new(4, 3);
    assert_eq!(c.width, 4);
    assert_eq!(c.height, 3);
    assert!(c.get_buffer().iter().all(|&p| p == 0));
}

#[test]
fn canvas_fill_and_rect_clamp() {
    let mut c = Canvas::new(8, 8);
    c.fill(0xFF11_1111);
    c.fill_rect(6, 6, 5, 5, 0xFF22_2222);
    for y in 0..8u32 {
        for x in 0..8u32 {
            let expected = if x >= 6 && y >= 6 { 0xFF22_2222 } else { 0xFF11_1111 };
            assert_eq!(c.get_buffer()[(y * 8 + x) as usize], expected, "at {x},{y}");
        }
    }
}

#[test]
fn canvas_circle_plus_shape_for_radius_one() {
    let mut c = Canvas::new(8, 8);
    c.fill_circle(4, 4, 1, 7);
    for y in 0..8i64 {
        for x in 0..8i64 {
            let on = (x - 4).abs() + (y - 4).abs() <= 1;
            assert_eq!(c.get_buffer()[(y * 8 + x) as usize], if on { 7 } else { 0 }, "at {x},{y}");
        }
    }
}

#[test]
fn canvas_line_matches_renderer_line() {
    let mut c = Canvas::new(16, 16);
    c.draw_line(-4, 8, 20, 8, 3);
    let mut r = fresh(16, 16, 0);
    r.draw_line(-4, 8, 20, 8, 3);
    assert_eq!(c.get_buffer(), r.get_buffer());
}

#[test]
fn canvas_ppm_matches_renderer_ppm() {
    let mut c = Canvas::new(2, 1);
    c.fill_rect(0, 0, 1, 1, 0xFF0A_0B0C);
    c.fill_rect(1, 0, 1, 1, 0x0001_0203);
    assert_eq!(
        c.ppm_data(),
        vec![
            b'P', b'6', b'\n', b'2', b' ', b'1', b' ', b'2', b'5', b'5', b'\n', 0x0C, 0x0B, 0x0A,
            0x03, 0x02, 0x01
        ]
    );
}

#[test]
fn begin_and_end_blending_are_sticky() {
    let mut r = fresh(4, 4, 0xFF00_0000);
    r.begin_blending();
    r.fill_rect(0, 0, 1, 1, 0x0000_00FF);
    // Fully transparent source: destination kept.
    assert_eq!(pixel(&r, 0, 0), 0xFF00_0000);
    r.end_blending();
    r.fill_rect(0, 0, 1, 1, 0x0000_00FF);
    // Opaque replace: stored as-is.
    assert_eq!(pixel(&r, 0, 0), 0x0000_00FF);
}

#[test]
fn get_row_returns_the_row_span() {
    let mut r = fresh(4, 2, 0);
    r.fill_rect(0, 1, 4, 1, 5);
    assert_eq!(r.get_row_unchecked(0), &[0, 0, 0, 0]);
    assert_eq!(r.get_row_unchecked(1), &[5, 5, 5, 5]);
}

#[test]
fn draw_horizontal_line_unchecked_fills_inclusive_run() {
    let mut r = fresh(8, 2, 0);
    r.draw_horizontal_line_unchecked(2, 5, 1, 9);
    for x in 0..8u32 {
        assert_eq!(pixel(&r, x, 0), 0);
        assert_eq!(pixel(&r, x, 1), if (2..=5).contains(&x) { 9 } else { 0 });
    }
}

#[test]
fn ray_walks_a_shallow_line() {
    let mut ray = olive_rs::ray::Ray::new(0, 0, 5, 2);
    let mut pts = Vec::new();
    while !ray.reached {
        pts.push(ray.next_xy());
    }
    assert_eq!(pts, vec![(0, 0), (1, 0), (2, 1), (3, 1), (4, 2)]);
    assert_eq!((ray.x1, ray.y1), (5, 2));
}

#[test]
fn ray_degenerate_segment_is_reached_immediately() {
    let ray = olive_rs::ray::Ray::new(3, 3, 3, 3);
    assert!(ray.reached);
}

#[test]
fn mix_colors_exact_weights() {
    // Weights 1/2, 1/4, 1/4 over pure channels.
    let c = olive_rs::bary::mix3(0x0000_00FF, 0x0000_FF00, 0x00FF_0000, 2, 1, 1, 4);
    assert_eq!(c, 0x003F_3F7F);
}

#[test]
fn renderer_circle_radius_zero_is_noop_and_one_stamps_center() {
    let mut r = fresh(8, 8, 0);
    r.fill_circle(4, 4, 0, 7);
    assert!(r.get_buffer().iter().all(|&p| p == 0));
    r.fill_circle(4, 4, 1, 7);
    for y in 0..8u32 {
        for x in 0..8u32 {
            assert_eq!(pixel(&r, x, y), if (x, y) == (4, 4) { 7 } else { 0 });
        }
    }
}

#[test]
fn canvas_circle_radius_zero_stamps_center() {
    let mut c = Canvas::new(8, 8);
    c.fill_circle(4, 4, 0, 7);
    for y in 0..8u32 {
        for x in 0..8u32 {
            assert_eq!(c.get_buffer()[(y * 8 + x) as usize], if (x, y) == (4, 4) { 7 } else { 0 });
        }
    }
}

#[test]
fn mix_aa_triangle_blends_first_sample_color() {
    let mut r = fresh(16, 16, 0xFF00_0000);
    r.fill_triangle_mix_aa(0, 0, 0xFF00_00FF, 15, 0, 0xFF00_00FF, 0, 15, 0xFF00_00FF);
    // With equal vertex colors the interior blends to that color.
    assert_eq!(pixel(&r, 3, 3) & 0x00FF_FFFF, 0x0000_00FF);
    assert_eq!(pixel(&r, 15, 15), 0xFF00_0000);
}

#[test]
fn get_buffer_mut_allows_raw_writes() {
    let mut r = fresh(2, 2, 0);
    r.get_buffer_mut()[3] = 42;
    assert_eq!(pixel(&r, 1, 1), 42);
}
