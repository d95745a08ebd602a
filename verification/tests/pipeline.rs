use candle_core::{DType, Device, Tensor};
use lama_worker::error::WorkerError;
use lama_worker::grid::{ImageGrid, MaskGrid};
use lama_worker::layout::{
    chw_tensor_to_hwc, hwc_to_chw_tensor, hwc_to_planar, mask_to_chw_tensor, mask_to_planar,
    output_to_hwc, ONE,
};
use lama_worker::native::{bring_back, bring_in, plan_region};
use lama_worker::report::{error_line, Phase};
use lama_worker::resize::Sampler;
use lama_worker::roi::{check_roi_fits, preprocess};
use lama_worker::session::{
    check_session, inpaint, paste_output, run_ort_inpaint, SessionOutput,
};
use lama_worker::worker::{
    check_image_size, check_input_path, check_mask_size, check_output_path, compose_rgba,
    luma_to_mask, provider_order, rgba_to_hwc, uses_generator, PathFault, Provider,
};

const DEV: Device = Device::Cpu;

fn source(i: usize, len: usize, new_len: usize) -> i64 {
    (i as f32 * (len as f32 / new_len as f32)) as i64
}

fn weight(i: usize, len: usize, new_len: usize, first: usize) -> u32 {
    (i as f32 * (len as f32 / new_len as f32) - first as f32).clamp(0.0, 1.0).to_bits()
}

fn blend(v00: u32, v01: u32, v10: u32, v11: u32, wx: u32, wy: u32) -> u32 {
    let f = f32::from_bits;
    let v0 = f(v00) * (1.0 - f(wx)) + f(v01) * f(wx);
    let v1 = f(v10) * (1.0 - f(wx)) + f(v11) * f(wx);
    (v0 * (1.0 - f(wy)) + v1 * f(wy)).to_bits()
}

fn unit(b: u8) -> u32 {
    (b as f32 / 255.0).to_bits()
}

fn quantize(v: u32) -> u8 {
    (f32::from_bits(v).clamp(0.0, 1.0) * 255.0).round_ties_even() as u8
}

fn unscale(v: u32) -> u32 {
    (f32::from_bits(v) * (1.0f32 / 255.0)).clamp(0.0, 1.0).to_bits()
}

fn scaled(n: usize, longest: usize) -> usize {
    (n as f32 * (1024f32 / longest as f32)).round() as usize
}

fn image(h: usize, w: usize, c: usize, f: impl Fn(usize, usize, usize) -> f32) -> ImageGrid {
    ImageGrid::build(h, w, c, |y, x, k| f(y, x, k).to_bits())
}

fn at(g: &ImageGrid, y: usize, x: usize, c: usize) -> f32 {
    f32::from_bits(g.get(y, x, c).unwrap())
}

fn ok<T>(r: Result<T, WorkerError>) -> T {
    match r {
        Ok(v) => v,
        Err(e) => panic!("{}", e.message()),
    }
}

#[test]
fn planes_hold_channel_by_channel() {
    let g = image(2, 3, 2, |y, x, c| (c * 100 + y * 10 + x) as f32);
    let data: Vec<f32> = hwc_to_planar(&g).into_iter().map(f32::from_bits).collect();
    assert_eq!(data, [0.0, 1.0, 2.0, 10.0, 11.0, 12.0, 100.0, 101.0, 102.0, 110.0, 111.0, 112.0]);
    let m = MaskGrid::build(2, 2, |y, x| y == x);
    assert_eq!(mask_to_planar(&m), [ONE, 0, 0, ONE]);
    assert_eq!(f32::from_bits(ONE), 1.0);
}

#[test]
fn tensors_hold_channels_first() {
    let g = image(2, 3, 3, |y, x, c| (c * 100 + y * 10 + x) as f32);
    let t = ok(hwc_to_chw_tensor(&g, &DEV));
    assert_eq!(t.dims(), &[1, 3, 2, 3]);
    assert_eq!(t.dtype(), DType::F32);
    let v = t.flatten_all().unwrap().to_vec1::<f32>().unwrap();
    assert_eq!(v[6 + 3 + 2], 112.0);
    let back = ok(chw_tensor_to_hwc(&t, &|v: u32| v));
    for y in 0..2 {
        for x in 0..3 {
            for c in 0..3 {
                assert_eq!(back.get(y, x, c), g.get(y, x, c));
            }
        }
    }
    let m = MaskGrid::build(2, 2, |y, x| y > x);
    let t = ok(mask_to_chw_tensor(&m, &DEV));
    assert_eq!(t.dims(), &[1, 1, 2, 2]);
    assert_eq!(t.flatten_all().unwrap().to_vec1::<f32>().unwrap(), [0.0, 0.0, 1.0, 0.0]);
}

#[test]
fn tensors_of_empty_grids_have_no_elements() {
    let g = image(0, 3, 3, |_, _, _| 0.0);
    let t = ok(hwc_to_chw_tensor(&g, &DEV));
    assert_eq!((t.dims(), t.elem_count()), (&[1, 3, 0, 3][..], 0));
    let m = MaskGrid::build(2, 0, |_, _| false);
    let t = ok(mask_to_chw_tensor(&m, &DEV));
    assert_eq!((t.dims(), t.elem_count()), (&[1, 1, 2, 0][..], 0));
}

#[test]
fn tensor_of_a_row_of_two_pixels() {
    let g = image(1, 2, 3, |_, x, c| (3 * x + c + 1) as f32);
    let t = ok(hwc_to_chw_tensor(&g, &DEV));
    assert_eq!(t.dims(), &[1, 3, 1, 2]);
    assert_eq!(t.flatten_all().unwrap().to_vec1::<f32>().unwrap(), [1.0, 4.0, 2.0, 5.0, 3.0, 6.0]);
}

#[test]
fn tensor_to_image_scales_and_limits() {
    let t = Tensor::from_vec(vec![0.0f32, 255.0, 510.0, -3.0, 51.0, 102.0], (1, 3, 1, 2), &DEV)
        .unwrap();
    let g = ok(chw_tensor_to_hwc(&t, &unscale));
    assert_eq!(g.shape(), (1, 2, 3));
    assert_eq!(at(&g, 0, 0, 0), 0.0);
    assert_eq!(at(&g, 0, 1, 0), 1.0);
    assert_eq!(at(&g, 0, 0, 1), 1.0);
    assert_eq!(at(&g, 0, 1, 1), 0.0);
    assert!((at(&g, 0, 0, 2) - 0.2).abs() < 1e-6);
    let double = t.to_dtype(DType::F64).unwrap();
    let g = ok(chw_tensor_to_hwc(&double, &unscale));
    assert!((at(&g, 0, 1, 2) - 0.4).abs() < 1e-6);
    let none = Tensor::zeros((1, 3, 0, 2), DType::F32, &DEV).unwrap();
    assert_eq!(ok(chw_tensor_to_hwc(&none, &unscale)).shape(), (0, 2, 3));
}

#[test]
fn tensor_to_image_refuses_other_shapes() {
    let t = Tensor::zeros((2, 3, 1, 1), DType::F32, &DEV).unwrap();
    match chw_tensor_to_hwc(&t, &unscale) {
        Err(e) => assert_eq!(e.message(), "unexpected tensor shape [2, 3, 1, 1]"),
        Ok(_) => panic!("two images are not one"),
    }
    let flat = Tensor::zeros((3, 1, 1), DType::F32, &DEV).unwrap();
    assert!(matches!(chw_tensor_to_hwc(&flat, &unscale), Err(WorkerError::Rank { expected: 4, .. })));
}

#[test]
fn session_output_becomes_an_image() {
    let data: Vec<u32> = [0.0f32, 255.0, 51.0].iter().map(|v| v.to_bits()).collect();
    let g = ok(output_to_hwc(&vec![1, 3, 1, 1], &data, &unscale));
    assert_eq!((at(&g, 0, 0, 0), at(&g, 0, 0, 1)), (0.0, 1.0));
    for shape in [vec![1usize, 3, 1], vec![2, 3, 1, 1], vec![1, 1, 1, 1], vec![1, 3, 2, 2]] {
        assert!(matches!(
            output_to_hwc(&shape, &data, &unscale),
            Err(WorkerError::OutputShape(s)) if s == shape
        ));
    }
}

#[test]
fn plan_pads_to_multiples_of_eight() {
    let p = ok(plan_region(100, 33, &scaled));
    assert_eq!((p.sh, p.sw, p.ph, p.pw, p.pt, p.pl), (100, 33, 104, 40, 2, 3));
    assert!(!p.shrunk);
    let p = ok(plan_region(3, 1024, &scaled));
    assert_eq!((p.ph, p.pw, p.pt, p.pl), (32, 1024, 14, 0));
    assert!(!p.shrunk);
    let p = ok(plan_region(2048, 1, &scaled));
    assert!(p.shrunk);
    // half of one rounds away from zero
    assert_eq!((p.sh, p.sw, p.ph, p.pw), (1024, 1, 1024, 32));
    let p = ok(plan_region(9000, 3, &scaled));
    assert_eq!((p.sh, p.sw), (1024, 1));
    assert!(matches!(
        plan_region(2000, 2000, &|_: usize, _: usize| usize::MAX),
        Err(WorkerError::TooLarge)
    ));
}

#[test]
fn crop_undoes_padding() {
    let s = Sampler { source, weight, blend };
    let g = image(10, 37, 3, |y, x, c| (y * 1000 + x * 10 + c) as f32);
    let m = MaskGrid::build(10, 37, |y, x| (y + x) % 3 == 0);
    let p = ok(plan_region(10, 37, &scaled));
    let (img, msk) = bring_in(&p, &g, &m, &s);
    assert_eq!(img.shape(), (32, 40, 3));
    assert_eq!(msk.shape(), (32, 40));
    assert_eq!(at(&img, p.pt - 1, p.pl, 0), at(&g, 1, 0, 0));
    assert_eq!(msk.get(p.pt, p.pl + 1), m.get(0, 1));
    let back = bring_back(&p, &img, &s);
    assert_eq!(back.shape(), (10, 37, 3));
    for y in 0..10 {
        for x in 0..37 {
            assert_eq!(at(&back, y, x, 2), at(&g, y, x, 2));
        }
    }
}

#[test]
fn large_regions_are_scaled_down_and_back() {
    let s = Sampler { source, weight, blend };
    let g = image(1030, 2, 3, |_, _, c| c as f32);
    let m = MaskGrid::build(1030, 2, |y, _| y < 515);
    let p = ok(plan_region(1030, 2, &scaled));
    assert_eq!((p.sh, p.sw, p.ph, p.pw), (1024, 2, 1024, 32));
    let (img, msk) = bring_in(&p, &g, &m, &s);
    assert_eq!(img.shape(), (1024, 32, 3));
    assert_eq!(at(&img, 500, 10, 2), 2.0);
    assert_eq!(msk.get(0, 0), Some(true));
    assert_eq!(msk.get(1023, 0), Some(false));
    let back = bring_back(&p, &img, &s);
    assert_eq!(back.shape(), (1030, 2, 3));
    assert_eq!(at(&back, 1029, 1, 1), 1.0);
}

#[test]
fn session_needs_two_inputs_and_an_output() {
    assert!(check_session(2, 1).is_ok());
    assert!(matches!(check_session(3, 1), Err(WorkerError::InputCount(3))));
    assert!(matches!(check_session(2, 0), Err(WorkerError::NoOutputs)));
}

fn constant_output(side: usize, v: f32) -> SessionOutput {
    SessionOutput { shape: vec![1, 3, side, side], data: vec![v.to_bits(); 3 * side * side] }
}

#[test]
fn inpaint_without_selection_gives_the_image_back() {
    let s = Sampler { source, weight, blend };
    let g = image(3, 4, 3, |y, x, c| (y + x + c) as f32);
    let m = MaskGrid::build(3, 4, |_, _| false);
    let never = |_: Vec<u32>, _: Vec<u32>| -> Result<SessionOutput, WorkerError> {
        panic!("nothing to infer")
    };
    let r = ok(inpaint(9, 0, never, &g, &m, &s, &unscale));
    for y in 0..3 {
        for x in 0..4 {
            assert_eq!(at(&r, y, x, 1), at(&g, y, x, 1));
        }
    }
}

#[test]
fn inpaint_hands_the_session_its_planes() {
    let s = Sampler { source, weight, blend };
    let g = image(8, 8, 3, |_, _, c| c as f32 / 4.0);
    let m = MaskGrid::build(8, 8, |y, x| y == 4 && x == 4);
    let seen = std::cell::RefCell::new((0usize, 0usize, 0u32, 0usize));
    let infer = |a: Vec<u32>, b: Vec<u32>| {
        let set = b.iter().filter(|v| **v == ONE).count();
        *seen.borrow_mut() = (a.len(), b.len(), a[2 * 512 * 512], set);
        Ok(constant_output(512, 255.0))
    };
    let r = ok(inpaint(2, 1, infer, &g, &m, &s, &unscale));
    let (a, b, last, set) = *seen.borrow();
    assert_eq!((a, b, f32::from_bits(last)), (3 * 512 * 512, 512 * 512, 0.5));
    // a region of three by three with its middle set
    assert_eq!(set, 171 * 171);
    assert_eq!(at(&r, 4, 4, 0), 1.0);
    assert_eq!(at(&r, 4, 3, 0), 0.0);
}

#[test]
fn inpaint_is_preprocess_and_run() {
    let g = image(9, 11, 3, |y, x, c| (y * 30 + x * 3 + c) as f32 / 300.0);
    let m = MaskGrid::build(9, 11, |y, x| (2..5).contains(&y) && (3..7).contains(&x));
    let sampler = Sampler { source, weight, blend };
    let model = |a: Vec<u32>, b: Vec<u32>| {
        let data = a.iter().zip(b.iter().cycle()).map(|(v, k)| v ^ (k >> 3)).collect();
        Ok(SessionOutput { shape: vec![1, 3, 512, 512], data })
    };
    let whole = ok(inpaint(2, 1, model, &g, &m, &sampler, &unscale));
    let (img, mask, roi) = ok(preprocess(&g, &m, &sampler));
    let steps = ok(run_ort_inpaint(2, 1, model, &g, &img, &mask, &roi, &sampler, &unscale));
    for y in 0..9 {
        for x in 0..11 {
            for c in 0..3 {
                assert_eq!(whole.get(y, x, c), steps.get(y, x, c));
            }
        }
    }
}

#[test]
fn session_failures_come_through() {
    let s = Sampler { source, weight, blend };
    let g = image(4, 4, 3, |_, _, _| 0.0);
    let m = MaskGrid::build(4, 4, |y, x| y == x);
    let fail = |_: Vec<u32>, _: Vec<u32>| -> Result<SessionOutput, WorkerError> {
        Err(WorkerError::Session("ORT run failed: no".to_string()))
    };
    match inpaint(2, 1, fail, &g, &m, &s, &unscale) {
        Err(e) => assert_eq!(e.message(), "ORT run failed: no"),
        Ok(_) => panic!("the session failed"),
    }
    let one = |_: Vec<u32>, _: Vec<u32>| Ok(constant_output(1, 0.0));
    assert!(matches!(inpaint(1, 1, one, &g, &m, &s, &unscale), Err(WorkerError::InputCount(1))));
    assert!(matches!(inpaint(2, 0, one, &g, &m, &s, &unscale), Err(WorkerError::NoOutputs)));
    let empty = |_: Vec<u32>, _: Vec<u32>| Ok(constant_output(0, 0.0));
    assert!(matches!(inpaint(2, 1, empty, &g, &m, &s, &unscale), Err(WorkerError::OutputShape(_))));
    let (img, msk, roi) = ok(preprocess(&g, &m, &s));
    let r = ok(run_ort_inpaint(2, 5, one, &g, &img, &msk, &roi, &s, &unscale));
    assert_eq!(r.shape(), (4, 4, 3));
    assert!(paste_output(&constant_output(2, 9.0), &g, &roi, &s, &unscale).is_ok());
}

#[test]
fn sizes_are_checked() {
    assert!(check_image_size(1, 1).is_ok());
    assert!(matches!(check_image_size(0, 5), Err(WorkerError::ZeroDimension)));
    assert!(check_mask_size(4, 5, 4, 5).is_ok());
    match check_mask_size(4, 5, 4, 6) {
        Err(e) => assert_eq!(e.message(), "image/mask dimensions differ: 4x5 vs 4x6"),
        Ok(_) => panic!("the sizes differ"),
    }
    assert!(matches!(rgba_to_hwc(&vec![0; 7], 1, 2, &unit), Err(WorkerError::BufferLength)));
    assert!(matches!(luma_to_mask(&vec![0; 7], 2, 3), Err(WorkerError::BufferLength)));
    let big = usize::MAX / 2;
    assert!(matches!(luma_to_mask(&vec![0; 7], big, big), Err(WorkerError::BufferLength)));
    let g = image(1, 1, 3, |_, _, _| 0.0);
    assert!(matches!(compose_rgba(&g, &vec![0; 3], &quantize), Err(WorkerError::BufferLength)));
}

#[test]
fn mask_bytes_above_the_threshold_select() {
    let m = ok(luma_to_mask(&vec![0, 127, 128, 255], 2, 2));
    assert_eq!(m.get(0, 0), Some(false));
    assert_eq!(m.get(0, 1), Some(false));
    assert_eq!(m.get(1, 0), Some(true));
    assert_eq!(m.get(1, 1), Some(true));
}

#[test]
fn every_byte_survives_the_float() {
    for b in 0..=255u8 {
        assert_eq!(quantize(unit(b)), b);
    }
    assert_eq!(quantize((-1.0f32).to_bits()), 0);
    assert_eq!(quantize(7.0f32.to_bits()), 255);
    assert_eq!(quantize(0.5f32.to_bits()), 128);
    assert_eq!(quantize((0.5f32 / 255.0).to_bits()), 0);
}

#[test]
fn decode_and_compose_keep_the_bytes() {
    let rgba: Vec<u8> = (0..24).map(|v| (v * 11) as u8).collect();
    let g = ok(rgba_to_hwc(&rgba, 3, 2, &unit));
    assert_eq!(g.shape(), (2, 3, 3));
    assert_eq!(g.get(1, 2, 1), Some(unit(rgba[21])));
    assert_eq!(ok(compose_rgba(&g, &rgba, &quantize)), rgba);
}

#[test]
fn worker_preserves_alpha_and_changes_mask_only() {
    let (width, height) = (512usize, 512usize);
    let mut rgba: Vec<u8> = Vec::new();
    for y in 0..height {
        for x in 0..width {
            let p = ((x as f32 / width as f32) * 255.0) as u8;
            let a = if (x + y) % 2 == 0 { 200 } else { 255 };
            rgba.extend_from_slice(&[p, 128, 64, a]);
        }
    }
    let bbox = (200usize, 200usize, 100usize, 100usize);
    let inside = |x: usize, y: usize| {
        x >= bbox.0 && x < bbox.0 + bbox.2 && y >= bbox.1 && y < bbox.1 + bbox.3
    };
    let mut luma: Vec<u8> = Vec::new();
    for y in 0..height {
        for x in 0..width {
            luma.push(if inside(x, y) { 255 } else { 0 });
        }
    }
    let sampler = Sampler { source, weight, blend };
    let hwc = ok(rgba_to_hwc(&rgba, width, height, &unit));
    let mask = ok(luma_to_mask(&luma, width, height));
    assert!(check_roi_fits(&mask, 3));
    let (img, msk, roi) = ok(preprocess(&hwc, &mask, &sampler));
    // a model that paints a gradient of its own
    let infer = |_: Vec<u32>, _: Vec<u32>| {
        let data = (0..3 * 512 * 512).map(|p| ((p % 512) as f32 / 4.0).to_bits()).collect();
        Ok(SessionOutput { shape: vec![1, 3, 512, 512], data })
    };
    let result = ok(run_ort_inpaint(2, 1, infer, &hwc, &img, &msk, &roi, &sampler, &unscale));
    let out = ok(compose_rgba(&result, &rgba, &quantize));

    assert_eq!(rgba.len(), out.len(), "input and output have different sizes");
    let mut mismatches = 0;
    let mut inside_changed = 0;
    let mut inside_total = 0;
    for y in 0..height {
        for x in 0..width {
            let p = (y * width + x) * 4;
            if rgba[p + 3] != out[p + 3] {
                mismatches += 1;
            }
            if inside(x, y) {
                if rgba[p..p + 3] != out[p..p + 3] {
                    inside_changed += 1;
                }
                inside_total += 1;
            } else {
                assert_eq!(rgba[p..p + 4], out[p..p + 4], "pixel {},{}", x, y);
            }
        }
    }
    assert_eq!(mismatches, 0, "alpha bytes must be preserved exactly");
    assert!(
        inside_changed > inside_total / 4,
        "expected at least 25% of masked pixels to change; got {}/{}",
        inside_changed,
        inside_total
    );
}

#[test]
fn paths_are_checked() {
    assert_eq!(check_input_path(true, true), Ok(()));
    assert_eq!(check_input_path(false, false), Err(PathFault::NotFound));
    assert_eq!(check_input_path(true, false), Err(PathFault::NotAFile));
    assert_eq!(check_output_path(true, true, false), Ok(()));
    assert_eq!(check_output_path(false, false, false), Ok(()));
    assert_eq!(check_output_path(true, false, false), Err(PathFault::NoDirectory));
    assert_eq!(check_output_path(true, true, true), Err(PathFault::IsDirectory));
}

#[test]
fn extension_chooses_the_engine() {
    assert!(uses_generator(&Some("safetensors".to_string())));
    assert!(!uses_generator(&Some("onnx".to_string())));
    assert!(!uses_generator(&Some("SAFETENSORS".to_string())));
    assert!(!uses_generator(&None));
}

#[test]
fn providers_are_tried_in_order() {
    let some = |s: &str| Some(s.to_string());
    assert_eq!(provider_order(&None, &None), [Provider::DirectMl, Provider::Cpu]);
    assert_eq!(provider_order(&some("1"), &some("cuda")), [Provider::Cpu]);
    assert_eq!(provider_order(&some("0"), &some("cuda")), [Provider::Cuda, Provider::Cpu]);
    assert_eq!(provider_order(&None, &some("directml")), [Provider::DirectMl, Provider::Cpu]);
    assert_eq!(provider_order(&None, &some("cpu")), [Provider::Cpu]);
}

#[test]
fn phases_come_in_order() {
    let mut lines = Vec::new();
    let mut phase = Some(Phase::Validate);
    while let Some(p) = phase {
        lines.push(p.marker());
        phase = p.next();
    }
    assert_eq!(
        lines,
        [
            "[LAMA_MARKER] phase validate",
            "[LAMA_MARKER] phase provider",
            "[LAMA_MARKER] phase inference_start",
            "[LAMA_MARKER] phase inference_done",
            "[LAMA_MARKER] phase result_written",
        ]
    );
}

#[test]
fn error_line_is_one_short_line() {
    assert_eq!(error_line("a:\n  b\t\u{3000}c \n", "x"), "ERROR: a: b c");
    assert_eq!(error_line(" \n ", "plain\ntext"), "ERROR: plain\ntext");
    let exact = "y".repeat(500);
    assert_eq!(error_line(&exact, ""), format!("ERROR: {}", exact));
    let long = "y".repeat(501);
    assert_eq!(error_line(&long, ""), format!("ERROR: {}...", "y".repeat(497)));
    // a character of two bytes that lies across the cut is left out
    let wide = "\u{e9}".repeat(300);
    assert_eq!(error_line(&wide, ""), format!("ERROR: {}...", "\u{e9}".repeat(248)));
}

#[test]
fn white_space_is_what_std_says() {
    for n in 0..0x11_0000u32 {
        if let Some(c) = char::from_u32(n) {
            if n > 0x3100 && n % 97 != 0 {
                continue;
            }
            let line = error_line(&format!("a{}b", c), "");
            let want = if c.is_whitespace() { "ERROR: a b".to_string() } else { format!("ERROR: a{}b", c) };
            assert_eq!(line, want, "{:x}", n);
        }
    }
}

#[test]
fn errors_have_their_words() {
    let cases: Vec<(WorkerError, &str)> = vec![
        (
            WorkerError::Rank { expected: 4, shape: vec![1, 20, 3] },
            "unexpected rank, expected: 4, got: 3 ([1, 20, 3])",
        ),
        (WorkerError::TooLarge, "size exceeds memory"),
        (WorkerError::NotAnImage, "not an image of 32-bit floats"),
        (WorkerError::DegenerateWidth, "irfft2: degenerate width"),
        (WorkerError::OddChannels, "odd number of spectral channels"),
        (WorkerError::PadTooLarge, "reflection exceeds the tensor"),
        (WorkerError::KernelTooLarge, "kernel exceeds the tensor"),
        (WorkerError::DroppedBranch, "resnet block dropped a branch"),
        (WorkerError::NoInitBranch, "init produced no local branch"),
        (WorkerError::DroppedLocal, "downsample dropped local branch"),
        (WorkerError::NoGlobalBranch, "no global branch before resnet blocks"),
        (WorkerError::EmptyMask, "empty mask"),
        (WorkerError::ZeroDimension, "image dimensions must be nonzero"),
        (WorkerError::BufferLength, "pixel buffer has the wrong length"),
        (WorkerError::InputCount(0), "expected exactly 2 ORT inputs, got 0"),
        (WorkerError::NoOutputs, "ORT session has no outputs"),
        (WorkerError::OutputShape(vec![]), "unexpected ORT output shape []"),
        (WorkerError::OutputShape(vec![1, 20]), "unexpected ORT output shape [1, 20]"),
        (WorkerError::TensorShape(vec![3]), "unexpected tensor shape [3]"),
        (WorkerError::Session("as it came".to_string()), "as it came"),
    ];
    for (e, text) in cases {
        assert_eq!(e.message(), text);
    }
    let t = Tensor::zeros((2, 2), DType::F32, &DEV).unwrap();
    match t.reshape((3, 3)) {
        Err(e) => {
            let text = e.to_string();
            assert_eq!(WorkerError::Candle(e).message(), text);
        }
        Ok(_) => panic!("the sizes differ"),
    }
}
