use lama_worker::error::WorkerError;
use lama_worker::grid::{shape_fits, ImageGrid, MaskGrid};
use lama_worker::reflect::{reflect_index, reflect_pad_2d, reflect_pad_3d};
use lama_worker::resize::{resize_bilinear_hwc, resize_nearest_hw, Sampler};
use lama_worker::roi::{
    check_roi_fits, crop_with_reflect_pad, postprocess, preprocess, selection, through_float,
};

fn source(i: usize, len: usize, new_len: usize) -> i64 {
    (i as f32 * (len as f32 / new_len as f32)) as i64
}

fn weight(i: usize, len: usize, new_len: usize, first: usize) -> u32 {
    (i as f32 * (len as f32 / new_len as f32) - first as f32).clamp(0.0, 1.0).to_bits()
}

fn blend(v00: u32, v01: u32, v10: u32, v11: u32, wx: u32, wy: u32) -> u32 {
    let f = f32::from_bits;
    let v0 = f(v00) * (1.0 - f(wx)) + f(v01) * f(wx);
    let v1 = f(v10) * (1.0 - f(wx)) + f(v11) * f(wx);
    (v0 * (1.0 - f(wy)) + v1 * f(wy)).to_bits()
}

fn image(h: usize, w: usize, c: usize, f: impl Fn(usize, usize, usize) -> f32) -> ImageGrid {
    ImageGrid::build(h, w, c, |y, x, k| f(y, x, k).to_bits())
}

fn mask(h: usize, w: usize, f: impl Fn(usize, usize) -> bool) -> MaskGrid {
    MaskGrid::build(h, w, f)
}

fn at(g: &ImageGrid, y: usize, x: usize, c: usize) -> f32 {
    f32::from_bits(g.get(y, x, c).unwrap())
}

#[test]
fn grid_starts_at_zero_and_keeps_what_is_stored() {
    let mut g = ImageGrid::new(2, 3, 1).unwrap();
    assert_eq!(g.shape(), (2, 3, 1));
    assert_eq!(g.get(1, 2, 0), Some(0));
    assert!(g.set(1, 2, 0, 7));
    assert_eq!(g.get(1, 2, 0), Some(7));
    assert_eq!(g.get(0, 2, 0), Some(0));
    assert!(!g.set(2, 0, 0, 1));
    assert_eq!(g.get(0, 3, 0), None);
    let mut m = MaskGrid::new(2, 2).unwrap();
    assert_eq!(m.shape(), (2, 2));
    assert_eq!(m.get(0, 1), Some(false));
    assert!(m.set(0, 1, true));
    assert_eq!(m.get(0, 1), Some(true));
    assert_eq!(m.get(2, 0), None);
    assert!(!m.set(0, 2, true));
}

#[test]
fn grid_refuses_what_cannot_be_allocated() {
    assert!(shape_fits(4, 5, 6, 4));
    assert!(!shape_fits(usize::MAX, 2, 1, 1));
    assert!(!shape_fits(usize::MAX, 0, 1, 1));
    assert!(!shape_fits(isize::MAX as usize / 2, 1, 1, 4));
    assert!(ImageGrid::new(usize::MAX, 2, 1).is_none());
    assert!(MaskGrid::new(usize::MAX, 2).is_none());
}

#[test]
fn reflect_index_mirrors_without_repeating_the_border() {
    let shown: Vec<i64> = (-5..9).map(|i| reflect_index(i, 4)).collect();
    assert_eq!(shown, [1, 2, 3, 2, 1, 0, 1, 2, 3, 2, 1, 0, 1, 2]);
    assert_eq!(reflect_index(5, 1), 0);
    assert_eq!(reflect_index(-3, 0), 0);
    assert_eq!(reflect_index(i64::MIN, 3), 0);
    assert_eq!(reflect_index(i64::MAX, i64::MAX), i64::MAX - 2);
    assert_eq!(reflect_index(i64::MIN, i64::MAX), i64::MAX - 3);
}

#[test]
fn reflect_index_keeps_its_laws() {
    for size in 1..7i64 {
        for i in -20..20i64 {
            let r = reflect_index(i, size);
            assert!(0 <= r && r < size);
            assert_eq!(r, reflect_index(-i, size));
            assert_eq!(r, reflect_index(i + 2 * (size - 1), size));
            assert_eq!(reflect_index(size - 1 + i, size), reflect_index(size - 1 - i, size));
            if 0 <= i && i < size {
                assert_eq!(r, i);
            }
        }
    }
}

#[test]
fn reflect_pad_mirrors_rows_and_columns() {
    let g = image(2, 3, 2, |y, x, c| (100 * y + 10 * x + c) as f32);
    let p = reflect_pad_3d(&g, 1, 2, 2, 1);
    assert_eq!(p.shape(), (5, 6, 2));
    for y in 0..5usize {
        for x in 0..6usize {
            let oy = reflect_index(y as i64 - 1, 2) as usize;
            let ox = reflect_index(x as i64 - 2, 3) as usize;
            assert_eq!(at(&p, y, x, 1), (100 * oy + 10 * ox + 1) as f32);
        }
    }
    assert_eq!(at(&p, 1, 2, 0), at(&g, 0, 0, 0));
    let m = mask(2, 2, |y, x| y == 0 && x == 1);
    let p = reflect_pad_2d(&m, 0, 1, 1, 0);
    assert_eq!(p.shape(), (3, 3));
    assert_eq!(p.get(0, 0), Some(true));
    assert_eq!(p.get(0, 1), Some(false));
    assert_eq!(p.get(2, 2), Some(true));
    assert_eq!(p.get(1, 2), Some(false));
}

#[test]
fn bilinear_resize_blends_four_taps() {
    let s = Sampler { source, weight, blend };
    let g = image(2, 2, 1, |y, x, _| (2 * y + x) as f32);
    let r = resize_bilinear_hwc(&g, 4, 4, &s);
    assert_eq!(r.shape(), (4, 4, 1));
    assert_eq!(at(&r, 0, 0, 0), 0.0);
    assert_eq!(at(&r, 0, 1, 0), 0.5);
    assert_eq!(at(&r, 1, 0, 0), 1.0);
    assert_eq!(at(&r, 1, 1, 0), 1.5);
    assert_eq!(at(&r, 3, 3, 0), 3.0);
    let down = resize_bilinear_hwc(&r, 2, 2, &s);
    assert_eq!(at(&down, 1, 1, 0), at(&r, 2, 2, 0));
}

#[test]
fn resize_to_the_same_size_copies() {
    let strange = Sampler {
        source: |_: usize, _: usize, _: usize| -> i64 { panic!("no line is looked up") },
        weight,
        blend,
    };
    let g = image(2, 3, 1, |y, x, _| (y + x) as f32);
    let r = resize_bilinear_hwc(&g, 2, 3, &strange);
    assert_eq!(at(&r, 1, 2, 0), 3.0);
    let m = resize_nearest_hw(&mask(1, 2, |_, x| x == 1), 1, 2, &strange);
    assert_eq!((m.get(0, 0), m.get(0, 1)), (Some(false), Some(true)));
}

#[test]
fn resize_limits_the_lines_it_reads() {
    let wild = Sampler {
        source: |i: usize, _: usize, _: usize| if i == 0 { -9 } else { i64::MAX },
        weight,
        blend,
    };
    let m = resize_nearest_hw(&mask(1, 3, |_, x| x == 2), 1, 2, &wild);
    assert_eq!((m.get(0, 0), m.get(0, 1)), (Some(false), Some(true)));
}

#[test]
fn nearest_resize_stays_binary() {
    let s = Sampler { source, weight, blend };
    let m = resize_nearest_hw(&mask(2, 2, |y, x| y == x), 4, 6, &s);
    for y in 0..4 {
        for x in 0..6 {
            assert_eq!(m.get(y, x), Some(y / 2 == x / 3));
        }
    }
}

#[test]
fn through_float_rounds_to_the_nearest_float() {
    for n in [0usize, 1, 5, 1000, 1 << 24, (1 << 24) + 1, (1 << 24) + 3, (1 << 25) + 2, (1 << 25) + 6]
    {
        assert_eq!(through_float(n), n as f32 as usize, "{}", n);
    }
    for n in [usize::MAX, usize::MAX - 1, isize::MAX as usize, 0x1234_5678_9abc_def0] {
        assert_eq!(through_float(n), n as f32 as usize, "{}", n);
    }
}

#[test]
fn selection_is_the_smallest_box() {
    let m = mask(6, 8, |y, x| (y, x) == (2, 5) || (y, x) == (4, 1));
    let s = selection(&m).unwrap();
    assert_eq!((s.x1, s.y1, s.x2, s.y2), (1, 2, 5, 4));
    assert!(selection(&mask(3, 3, |_, _| false)).is_none());
    assert!(check_roi_fits(&m, 3));
    assert!(check_roi_fits(&mask(3, 3, |_, _| false), 3));
}

#[test]
fn crop_reflects_past_the_border() {
    let g = image(4, 4, 3, |y, x, c| (100 * y + 10 * x + c) as f32);
    let m = mask(4, 4, |y, x| y == 0 && x == 0);
    let (img, msk, b) = crop_with_reflect_pad(&g, &m, -2, -1, 5, 3);
    assert_eq!(img.shape(), (3, 5, 3));
    assert_eq!(at(&img, 0, 0, 0), 120.0);
    assert_eq!(at(&img, 1, 2, 2), 2.0);
    assert_eq!(msk.get(1, 2), Some(true));
    assert_eq!(msk.get(0, 0), Some(false));
    assert_eq!((b.y1, b.y2, b.x1, b.x2), (0, 2, 0, 3));
    let (img, _, b) = crop_with_reflect_pad(&g, &m, 2, 3, 4, 4);
    assert_eq!(at(&img, 0, 0, 0), 320.0);
    assert_eq!(at(&img, 1, 3, 0), 210.0);
    assert_eq!((b.y1, b.y2, b.x1, b.x2), (3, 4, 2, 4));
}

#[test]
fn preprocess_cuts_one_context_on_each_side() {
    let s = Sampler { source, weight, blend };
    let g = image(20, 30, 3, |y, x, c| (100 * y + x) as f32 + c as f32 / 10.0);
    let m = mask(20, 30, |y, x| (8..10).contains(&y) && (3..7).contains(&x));
    let (img, msk, roi) = match preprocess(&g, &m, &s) {
        Ok(v) => v,
        Err(e) => panic!("{}", e.message()),
    };
    assert_eq!((roi.roi_x1, roi.roi_y1, roi.roi_w, roi.roi_h), (-1, 4, 12, 10));
    let b = &roi.paste_box;
    assert_eq!((b.y1, b.y2, b.x1, b.x2), (4, 14, 0, 11));
    assert_eq!(img.shape(), (512, 512, 3));
    assert_eq!(msk.shape(), (512, 512));
    assert_eq!(at(&roi.img_roi, 0, 0, 0), 401.0);
    assert_eq!(at(&roi.img_roi, 0, 1, 0), 400.0);
    assert_eq!(roi.mask_roi.get(4, 4), Some(true));
    assert_eq!(roi.mask_roi.get(4, 3), Some(false));
    assert_eq!(at(&img, 0, 0, 0), 401.0);
}

#[test]
fn preprocess_refuses_an_empty_mask() {
    let s = Sampler { source, weight, blend };
    let g = image(4, 4, 3, |_, _, _| 0.0);
    let r = preprocess(&g, &mask(4, 4, |_, _| false), &s);
    assert!(matches!(r, Err(WorkerError::EmptyMask)));
}

#[test]
fn postprocess_changes_masked_pixels_only() {
    let s = Sampler { source, weight, blend };
    let g = image(9, 7, 3, |y, x, c| (y * 21 + x * 3 + c) as f32);
    // a selection in a corner, so that the region is reflected
    let m = mask(9, 7, |y, x| y < 2 && x < 3 && (y, x) != (1, 1));
    let roi = match preprocess(&g, &m, &s) {
        Ok((_, _, roi)) => roi,
        Err(e) => panic!("{}", e.message()),
    };
    let out = image(roi.roi_h, roi.roi_w, 3, |y, x, c| -((y * 100 + x * 10 + c) as f32));
    let r = postprocess(&out, &g, &roi, &s);
    assert_eq!(r.shape(), (9, 7, 3));
    for y in 0..9usize {
        for x in 0..7usize {
            for c in 0..3usize {
                let want = if m.get(y, x) == Some(true) {
                    let ry = (y as i64 - roi.roi_y1) as usize;
                    let rx = (x as i64 - roi.roi_x1) as usize;
                    at(&out, ry, rx, c)
                } else {
                    at(&g, y, x, c)
                };
                assert_eq!(at(&r, y, x, c), want);
            }
        }
    }
}
