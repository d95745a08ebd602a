use candle_core::{DType, Device, Tensor};
use lama_worker::blocks::{
    add_opt, reflect_pad2d, BlockShape, ConvLayer, FfcBlock, FfcBnAct, FourierUnit, RefPadConv,
    ResnetBlock, SpectralTransform,
};
use lama_worker::error::WorkerError;
use lama_worker::grid::{ImageGrid, MaskGrid};
use lama_worker::native::{load_generator, run_candle_inpaint};
use lama_worker::network::{CandleInpainter, UpLayer};
use lama_worker::resize::Sampler;
use lama_worker::roi::preprocess;
use lama_worker::tensor::{elem_count, join};
use lama_worker::weights::Weights;

const DEV: Device = Device::Cpu;

fn wave(k: usize, j: usize, n: usize) -> (u32, u32) {
    let scale = 1.0 / (n as f64).sqrt();
    let a = 2.0 * std::f64::consts::PI * (k as f64) * (j as f64) / (n as f64);
    (((a.cos() * scale) as f32).to_bits(), ((a.sin() * scale) as f32).to_bits())
}

fn tensor(v: &[f32], dims: &[usize]) -> Tensor {
    Tensor::from_vec(v.to_vec(), dims, &DEV).unwrap()
}

fn values(t: &Tensor) -> Vec<f32> {
    t.flatten_all().unwrap().to_vec1::<f32>().unwrap()
}

fn ok<T>(r: Result<T, WorkerError>) -> T {
    match r {
        Ok(v) => v,
        Err(e) => panic!("{}", e.message()),
    }
}

fn close(a: &[f32], b: &[f32]) {
    assert_eq!(a.len(), b.len());
    for i in 0..a.len() {
        assert!((a[i] - b[i]).abs() < 1e-3, "at {}: {} and {}", i, a[i], b[i]);
    }
}

fn noise(n: usize) -> Vec<f32> {
    (0..n).map(|i| ((i * 37 + 11) % 101) as f32 / 50.0 - 1.0).collect()
}

/// A safetensors file of the given tensors, `width` bytes per element.
fn file(kind: &str, width: usize, parts: &[(String, Vec<usize>, Vec<u8>)]) -> Vec<u8> {
    let mut header = String::from("{");
    let mut data: Vec<u8> = Vec::new();
    for (i, (name, shape, bytes)) in parts.iter().enumerate() {
        assert_eq!(shape.iter().product::<usize>() * width, bytes.len());
        if i > 0 {
            header.push(',');
        }
        header.push_str(&format!(
            "\"{}\":{{\"dtype\":\"{}\",\"shape\":{:?},\"data_offsets\":[{},{}]}}",
            name,
            kind,
            shape,
            data.len(),
            data.len() + bytes.len()
        ));
        data.extend_from_slice(bytes);
    }
    header.push('}');
    while header.len() % 8 != 0 {
        header.push(' ');
    }
    let mut out = (header.len() as u64).to_le_bytes().to_vec();
    out.extend_from_slice(header.as_bytes());
    out.extend_from_slice(&data);
    out
}

fn floats(parts: &[(&str, Vec<usize>, Vec<f32>)]) -> Vec<u8> {
    let parts: Vec<(String, Vec<usize>, Vec<u8>)> = parts
        .iter()
        .map(|(n, s, v)| {
            (n.to_string(), s.clone(), v.iter().flat_map(|x| x.to_le_bytes()).collect())
        })
        .collect();
    file("F32", 4, &parts)
}

fn weights(parts: &[(&str, Vec<usize>, Vec<f32>)]) -> Weights {
    ok(Weights::read(floats(parts), &DEV))
}

#[test]
fn reflect_pad2d_mirrors_without_the_border() {
    let x = tensor(&[1.0, 2.0, 3.0, 4.0, 5.0, 6.0, 7.0, 8.0, 9.0], &[1, 1, 3, 3]);
    let y = ok(reflect_pad2d(&x, 1));
    assert_eq!(y.dims(), &[1, 1, 5, 5]);
    let want = [
        5.0, 4.0, 5.0, 6.0, 5.0, 2.0, 1.0, 2.0, 3.0, 2.0, 5.0, 4.0, 5.0, 6.0, 5.0, 8.0, 7.0, 8.0,
        9.0, 8.0, 5.0, 4.0, 5.0, 6.0, 5.0,
    ];
    assert_eq!(values(&y), want);
    let two = ok(reflect_pad2d(&x, 2));
    assert_eq!(values(&two)[..7], [9.0, 8.0, 7.0, 8.0, 9.0, 8.0, 7.0]);
    assert_eq!(values(&ok(reflect_pad2d(&x, 0))), values(&x));
}

#[test]
fn reflect_pad2d_takes_any_layout() {
    let x = tensor(&[1.0, 2.0, 3.0, 4.0, 5.0, 6.0], &[1, 1, 2, 3]);
    let want = [
        5.0, 4.0, 5.0, 6.0, 5.0, 2.0, 1.0, 2.0, 3.0, 2.0, 5.0, 4.0, 5.0, 6.0, 5.0, 2.0, 1.0, 2.0, 3.0, 2.0,
    ];
    let y = ok(reflect_pad2d(&x, 1));
    assert_eq!(y.dims(), &[1, 1, 4, 5]);
    assert_eq!(values(&y), want);
    let turned = tensor(&[1.0, 4.0, 2.0, 5.0, 3.0, 6.0], &[1, 1, 3, 2]).transpose(2, 3).unwrap();
    assert!(!turned.is_contiguous());
    assert_eq!(values(&ok(reflect_pad2d(&turned, 1))), want);
}

#[test]
fn reflect_pad2d_refuses_a_margin_past_the_tensor() {
    let x = tensor(&noise(12), &[1, 1, 3, 4]);
    assert!(matches!(reflect_pad2d(&x, 3), Err(WorkerError::PadTooLarge)));
    assert!(matches!(
        reflect_pad2d(&tensor(&[1.0], &[1]), 1),
        Err(WorkerError::Rank { expected: 4, .. })
    ));
}

#[test]
fn join_counts_and_concatenates() {
    let a = tensor(&[1.0, 2.0], &[1, 2, 1, 1]);
    let b = tensor(&[3.0], &[1, 1, 1, 1]);
    assert_eq!(elem_count(&a), 2);
    assert_eq!(values(&ok(join(&a, &b, 1))), [1.0, 2.0, 3.0]);
    assert!(matches!(join(&a, &b, 2), Err(WorkerError::Candle(_))));
}

#[test]
fn conv_layer_slides_its_kernel() {
    let w = weights(&[("weight", vec![1, 2, 2, 2], vec![1.0, 2.0, 3.0, 4.0, 0.5, 0.0, 0.0, -1.0])]);
    let c = ok(ConvLayer::load(2, 1, 2, 1, w));
    let x = tensor(&noise(18), &[1, 2, 3, 3]);
    let y = ok(c.forward(&x));
    assert_eq!(y.dims(), &[1, 1, 2, 2]);
    let v = noise(18);
    let mut want = Vec::new();
    for i in 0..2 {
        for j in 0..2 {
            let at = |ch: usize, a: usize, b: usize| v[ch * 9 + (i + a) * 3 + j + b];
            want.push(
                at(0, 0, 0) + 2.0 * at(0, 0, 1) + 3.0 * at(0, 1, 0) + 4.0 * at(0, 1, 1)
                    + 0.5 * at(1, 0, 0)
                    - at(1, 1, 1),
            );
        }
    }
    close(&values(&y), &want);
    assert!(matches!(
        c.forward(&tensor(&noise(2), &[1, 2, 1, 1])),
        Err(WorkerError::KernelTooLarge)
    ));
    assert!(matches!(
        c.forward(&tensor(&noise(9), &[1, 1, 3, 3])),
        Err(WorkerError::Candle(_))
    ));
}

#[test]
fn conv_layer_strides() {
    let w = weights(&[("weight", vec![1, 1, 1, 1], vec![2.0])]);
    let c = ok(ConvLayer::load(1, 1, 1, 2, w));
    let y = ok(c.forward(&tensor(&noise(25), &[1, 1, 5, 5])));
    assert_eq!(y.dims(), &[1, 1, 3, 3]);
    let v = noise(25);
    let want: Vec<f32> =
        (0..9).map(|p| 2.0 * v[(p / 3) * 10 + (p % 3) * 2]).collect();
    close(&values(&y), &want);
}

#[test]
fn conv_layer_adds_its_bias() {
    let w = weights(&[
        ("last.weight", vec![2, 1, 1, 1], vec![1.0, -1.0]),
        ("last.bias", vec![2], vec![0.25, 4.0]),
    ]);
    let c = ok(ConvLayer::load_biased(1, 2, 1, w.part("last")));
    let y = ok(c.forward(&tensor(&[3.0], &[1, 1, 1, 1])));
    close(&values(&y), &[3.25, 1.0]);
}

#[test]
fn loading_needs_the_weights_in_their_shape() {
    let parts = [("a.weight", vec![1usize, 1, 1, 1], vec![1.0f32])];
    let w = weights(&parts);
    assert!(matches!(
        ConvLayer::load(1, 1, 1, 1, w.part("b")),
        Err(WorkerError::Candle(_))
    ));
    assert!(matches!(
        ConvLayer::load(2, 1, 1, 1, w.part("a")),
        Err(WorkerError::Candle(_))
    ));
    assert!(matches!(Weights::read(vec![1, 2, 3], &DEV), Err(WorkerError::Candle(_))));
}

#[test]
fn up_layer_spreads_its_kernel() {
    let kernel: Vec<f32> = (1..10).map(|v| v as f32).collect();
    let w = weights(&[
        ("weight", vec![1, 1, 3, 3], kernel.clone()),
        ("bias", vec![1], vec![0.5]),
    ]);
    let u = ok(UpLayer::load(1, 1, 3, 2, 1, 1, w));
    let x = tensor(&[1.0, -2.0, 3.0, 0.5], &[1, 1, 2, 2]);
    let y = ok(u.forward(&x));
    assert_eq!(y.dims(), &[1, 1, 4, 4]);
    let v = values(&x);
    let mut want = vec![0.5f32; 16];
    for i in 0..2usize {
        for j in 0..2usize {
            for a in 0..3usize {
                for b in 0..3usize {
                    let (r, c) = ((2 * i + a) as i64 - 1, (2 * j + b) as i64 - 1);
                    if (0..4).contains(&r) && (0..4).contains(&c) {
                        want[(r * 4 + c) as usize] += v[i * 2 + j] * kernel[a * 3 + b];
                    }
                }
            }
        }
    }
    close(&values(&y), &want);
}

#[test]
fn padded_conv_reflects_first() {
    let w = weights(&[("weight", vec![1, 1, 3, 3], vec![1.0; 9])]);
    let c = ok(RefPadConv::load(1, 1, 1, 3, 1, w));
    let x = tensor(&[1.0, 2.0, 3.0, 4.0], &[1, 1, 2, 2]);
    let y = ok(c.forward(&x));
    // rows and columns of the padded input: 2 1 2 1 over 4 3 4 3
    close(&values(&y), &[27.0, 24.0, 21.0, 18.0]);
}

fn norm_parts(prefix: &str, n: usize, bias: f32) -> Vec<(String, Vec<usize>, Vec<f32>)> {
    vec![
        (format!("{}.running_mean", prefix), vec![n], vec![0.0; n]),
        (format!("{}.running_var", prefix), vec![n], vec![1.0; n]),
        (format!("{}.weight", prefix), vec![n], vec![1.0; n]),
        (format!("{}.bias", prefix), vec![n], vec![bias; n]),
    ]
}

fn read(parts: &[(String, Vec<usize>, Vec<f32>)]) -> Weights {
    let parts: Vec<(&str, Vec<usize>, Vec<f32>)> =
        parts.iter().map(|(n, s, v)| (n.as_str(), s.clone(), v.clone())).collect();
    weights(&parts)
}

fn identity(n: usize) -> Vec<f32> {
    (0..n * n).map(|i| if i / n == i % n { 1.0 } else { 0.0 }).collect()
}

#[test]
fn fourier_unit_transforms_and_comes_back() {
    // An identity over the spectrum with a bias that keeps every bin positive:
    // only the bias comes back on top, all of it in the first pixel.
    let mut parts = norm_parts("bn", 2, 10.0);
    parts.push(("conv_layer.weight".to_string(), vec![2, 2, 1, 1], identity(2)));
    let u = ok(FourierUnit::load(read(&parts), 1));
    let (h, w) = (4usize, 5usize);
    let xs = noise(h * w);
    let y = ok(u.forward(&tensor(&xs, &[1, 1, h, w]), &wave));
    assert_eq!(y.dims(), &[1, 1, h, w]);
    let v = values(&y);
    // A constant 10 in every real bin adds 10 * sqrt(h * w) at the origin; what it
    // adds to the imaginary bins is odd, and so is what is dropped of them.
    let sum_in: f32 = xs.iter().sum();
    let sum_out: f32 = v.iter().sum();
    let eps = 1.0 / (1.0f32 + 1e-5).sqrt();
    assert!((sum_out - (sum_in * eps + 10.0 * ((h * w) as f32).sqrt())).abs() < 1e-2);
}

#[test]
fn fourier_unit_refuses_a_narrow_image() {
    let mut parts = norm_parts("bn", 2, 0.0);
    parts.push(("conv_layer.weight".to_string(), vec![2, 2, 1, 1], identity(2)));
    let u = ok(FourierUnit::load(read(&parts), 1));
    let r = u.forward(&tensor(&noise(8), &[1, 1, 4, 2]), &wave);
    assert!(matches!(r, Err(WorkerError::DegenerateWidth)));
}

fn spectral_parts(prefix: &str, n_in: usize, n_out: usize) -> Vec<(String, Vec<usize>, Vec<f32>)> {
    let half = n_out / 2;
    let mut parts = norm_parts(&format!("{}conv1.1", prefix), half, 0.0);
    parts.extend(norm_parts(&format!("{}fu.bn", prefix), 2 * half, 0.0));
    parts.push((format!("{}conv1.0.weight", prefix), vec![half, n_in, 1, 1], noise(half * n_in)));
    parts.push((
        format!("{}fu.conv_layer.weight", prefix),
        vec![2 * half, 2 * half, 1, 1],
        vec![0.0; 4 * half * half],
    ));
    parts.push((format!("{}conv2.weight", prefix), vec![n_out, half, 1, 1], noise(n_out * half)));
    parts
}

#[test]
fn spectral_transform_pools_for_stride_two() {
    let parts = spectral_parts("", 1, 2);
    let t = ok(SpectralTransform::load(read(&parts), 1, 2, 2));
    let xs = noise(48);
    let y = ok(t.forward(&tensor(&xs, &[1, 1, 6, 8]), &wave));
    assert_eq!(y.dims(), &[1, 2, 3, 4]);
    let (a, b) = (noise(1)[0], noise(2));
    let eps = 1.0 / (1.0f32 + 1e-5).sqrt();
    let mut want = Vec::new();
    for o in 0..2 {
        for i in 0..3 {
            for j in 0..4 {
                let at = |r: usize, c: usize| xs[(2 * i + r) * 8 + 2 * j + c];
                let mean = (at(0, 0) + at(0, 1) + at(1, 0) + at(1, 1)) / 4.0;
                want.push((mean * a * eps).max(0.0) * b[o]);
            }
        }
    }
    close(&values(&y), &want);
}

#[test]
fn spectral_transform_keeps_the_size_for_stride_one() {
    let parts = spectral_parts("", 2, 4);
    let t = ok(SpectralTransform::load(read(&parts), 2, 4, 1));
    assert!(!t.avgpool);
    let y = ok(t.forward(&tensor(&noise(24), &[1, 2, 3, 4]), &wave));
    assert_eq!(y.dims(), &[1, 4, 3, 4]);
}

#[test]
fn add_opt_sums_what_is_there() {
    let a = || Some(tensor(&[1.0, 2.0], &[1, 1, 1, 2]));
    let b = || Some(tensor(&[10.0, 20.0], &[1, 1, 1, 2]));
    assert_eq!(values(&ok(add_opt(a(), b())).unwrap()), [11.0, 22.0]);
    assert_eq!(values(&ok(add_opt(a(), None)).unwrap()), [1.0, 2.0]);
    assert_eq!(values(&ok(add_opt(None, b())).unwrap()), [10.0, 20.0]);
    assert!(ok(add_opt(None, None)).is_none());
    let c = Some(tensor(&[1.0], &[1, 1, 1, 1]));
    assert!(matches!(add_opt(a(), c), Err(WorkerError::Candle(_))));
}

fn shape(in_ch: usize, out_ch: usize, gin: usize, gout: usize) -> BlockShape {
    BlockShape { in_ch, out_ch, gin, gout, stride: 1, pad: 1, kernel: 3 }
}

fn branch_parts(prefix: &str, ch: usize, value: f32) -> Vec<(String, Vec<usize>, Vec<f32>)> {
    let (l, g) = (ch / 4, ch - ch / 4);
    let mut parts = spectral_parts(&format!("{}ffc.convg2g.", prefix), g, g);
    for (name, i, o) in [("convl2l", l, l), ("convl2g", l, g), ("convg2l", g, l)] {
        parts.push((
            format!("{}ffc.{}.weight", prefix, name),
            vec![o, i, 3, 3],
            vec![value; o * i * 9],
        ));
    }
    parts.extend(norm_parts(&format!("{}bn_l", prefix), l, 0.0));
    parts.extend(norm_parts(&format!("{}bn_g", prefix), g, 0.0));
    parts
}

#[test]
fn block_split_follows_the_quarters() {
    assert_eq!(shape(512, 512, 3, 3).split(), (128, 384, 128, 384));
    assert_eq!(shape(4, 64, 0, 0).split(), (4, 0, 64, 0));
    assert_eq!(shape(256, 512, 0, 3).split(), (256, 0, 128, 384));
}

#[test]
fn block_mixes_its_branches() {
    let parts = branch_parts("", 4, 0.5);
    let b = ok(FfcBlock::load(read(&parts).part("ffc"), shape(4, 4, 3, 3)));
    let xl = tensor(&[1.0; 16], &[1, 1, 4, 4]);
    let xg = tensor(&[2.0; 48], &[1, 3, 4, 4]);
    let (ol, og) = ok(b.forward(&xl, Some(&xg), &wave));
    // 9 * 0.5 * 1 from the local input, 9 * 0.5 * 2 * 3 from the global one
    close(&values(&ol.unwrap()), &[31.5; 16]);
    assert_eq!(og.unwrap().dims(), &[1, 3, 4, 4]);
    // without a global input only the local convolutions contribute
    let (ol, og) = ok(b.forward(&xl, None, &wave));
    close(&values(&ol.unwrap()), &[4.5; 16]);
    close(&values(&og.unwrap()), &[4.5; 48]);
}

#[test]
fn block_without_global_share_gives_no_global_branch() {
    let mut parts = norm_parts("bn_l", 2, -100.0);
    parts.push(("ffc.convl2l.weight".to_string(), vec![2, 1, 3, 3], vec![1.0; 18]));
    let b = ok(FfcBnAct::load(read(&parts), shape(1, 2, 0, 0)));
    assert!(b.bn_g.is_none());
    let (yl, yg) = ok(b.forward(&tensor(&[1.0; 9], &[1, 1, 3, 3]), None, &wave));
    // 9 - 100 is negative, and activation leaves zero
    close(&values(&yl.unwrap()), &[0.0; 18]);
    assert!(yg.is_none());
}

#[test]
fn block_refuses_an_input_without_room() {
    let mut parts = norm_parts("bn_l", 2, 0.0);
    parts.push(("ffc.convl2l.weight".to_string(), vec![2, 1, 3, 3], vec![1.0; 18]));
    let b = ok(FfcBnAct::load(read(&parts), shape(1, 2, 0, 0)));
    let r = b.forward(&tensor(&[1.0; 4], &[1, 1, 1, 4]), None, &wave);
    assert!(matches!(r, Err(WorkerError::PadTooLarge)));
}

#[test]
fn resnet_block_adds_its_input() {
    let mut parts = branch_parts("conv1.", 4, 0.0);
    parts.extend(branch_parts("conv2.", 4, 0.0));
    for (n, _, v) in parts.iter_mut() {
        if n.contains("convg2g.conv2.weight") {
            v.iter_mut().for_each(|x| *x = 0.0);
        }
    }
    let b = ok(ResnetBlock::load(read(&parts), 4, 3, 3));
    let (xl, xg) = (tensor(&noise(16), &[1, 1, 4, 4]), tensor(&noise(48), &[1, 3, 4, 4]));
    let (ol, og) = ok(b.forward(&xl, &xg, &wave));
    close(&values(&ol), &noise(16));
    close(&values(&og), &noise(48));
}

#[test]
fn resnet_block_reports_a_dropped_branch() {
    let mut parts = Vec::new();
    for c in ["conv1", "conv2"] {
        parts.extend(norm_parts(&format!("{}.bn_l", c), 1, 0.0));
        parts.push((format!("{}.ffc.convl2l.weight", c), vec![1, 1, 3, 3], vec![0.0; 9]));
    }
    let b = ok(ResnetBlock::load(read(&parts), 1, 0, 0));
    let x = tensor(&noise(16), &[1, 1, 4, 4]);
    assert!(matches!(b.forward(&x, &x, &wave), Err(WorkerError::DroppedBranch)));
}

fn add_norm(parts: &mut Vec<(String, Vec<usize>)>, prefix: &str, n: usize) {
    for name in ["running_mean", "running_var", "weight", "bias"] {
        parts.push((format!("{}.{}", prefix, name), vec![n]));
    }
}

/// The names and shapes of a whole generator.
fn generator_shapes() -> Vec<(String, Vec<usize>)> {
    let mut p: Vec<(String, Vec<usize>)> = Vec::new();
    p.push(("model.1.ffc.convl2l.weight".to_string(), vec![64, 4, 7, 7]));
    add_norm(&mut p, "model.1.bn_l", 64);
    for (i, (a, l, g)) in [(64usize, 128usize, 0usize), (128, 256, 0), (256, 128, 384)]
        .iter()
        .enumerate()
    {
        let base = format!("model.{}", i + 2);
        p.push((format!("{}.ffc.convl2l.weight", base), vec![*l, *a, 3, 3]));
        add_norm(&mut p, &format!("{}.bn_l", base), *l);
        if *g > 0 {
            p.push((format!("{}.ffc.convl2g.weight", base), vec![*g, *a, 3, 3]));
            add_norm(&mut p, &format!("{}.bn_g", base), *g);
        }
    }
    for i in 5..23 {
        for c in ["conv1", "conv2"] {
            let base = format!("model.{}.{}", i, c);
            p.push((format!("{}.ffc.convl2l.weight", base), vec![128, 128, 3, 3]));
            p.push((format!("{}.ffc.convl2g.weight", base), vec![384, 128, 3, 3]));
            p.push((format!("{}.ffc.convg2l.weight", base), vec![128, 384, 3, 3]));
            p.push((format!("{}.ffc.convg2g.conv1.0.weight", base), vec![192, 384, 1, 1]));
            add_norm(&mut p, &format!("{}.ffc.convg2g.conv1.1", base), 192);
            p.push((format!("{}.ffc.convg2g.fu.conv_layer.weight", base), vec![384, 384, 1, 1]));
            add_norm(&mut p, &format!("{}.ffc.convg2g.fu.bn", base), 384);
            p.push((format!("{}.ffc.convg2g.conv2.weight", base), vec![384, 192, 1, 1]));
            add_norm(&mut p, &format!("{}.bn_l", base), 128);
            add_norm(&mut p, &format!("{}.bn_g", base), 384);
        }
    }
    for (i, (a, b)) in [(512usize, 256usize), (256, 128), (128, 64)].iter().enumerate() {
        let at = 24 + 3 * i;
        p.push((format!("model.{}.weight", at), vec![*a, *b, 3, 3]));
        p.push((format!("model.{}.bias", at), vec![*b]));
        add_norm(&mut p, &format!("model.{}", at + 1), *b);
    }
    p.push(("model.34.weight".to_string(), vec![3, 64, 7, 7]));
    p.push(("model.34.bias".to_string(), vec![3]));
    p
}

fn generator_file(skip: &str) -> Vec<u8> {
    let parts: Vec<(String, Vec<usize>, Vec<u8>)> = generator_shapes()
        .into_iter()
        .filter(|(n, _)| n != skip)
        .map(|(n, s)| {
            let count = s.iter().product::<usize>();
            let bytes = if n == "model.34.bias" { vec![0, 1, 2] } else { vec![0; count] };
            (n, s, bytes)
        })
        .collect();
    file("U8", 1, &parts)
}

#[test]
fn generator_keeps_the_size_of_its_image() {
    let m = ok(CandleInpainter::from_safetensors(generator_file(""), &DEV));
    assert_eq!((m.downs.len(), m.res.len(), m.up_conv.len(), m.up_bn.len()), (3, 18, 3, 3));
    let (h, w) = (32usize, 40usize);
    let image = tensor(&noise(3 * h * w), &[1, 3, h, w]);
    let mask = tensor(&vec![1.0; h * w], &[1, 1, h, w]);
    let y = ok(m.inpaint(&image, &mask, &wave));
    assert_eq!(y.dims(), &[1, 3, h, w]);
    let v = values(&y);
    for (c, bias) in [0.0f32, 1.0, 2.0].iter().enumerate() {
        let want = 255.0 / (1.0 + (-bias).exp());
        close(&v[c * h * w..(c + 1) * h * w], &vec![want; h * w]);
    }
}

#[test]
fn generator_refuses_what_is_no_image() {
    let m = ok(CandleInpainter::from_safetensors(generator_file(""), &DEV));
    let image = tensor(&noise(3 * 64), &[1, 3, 8, 8]);
    let mask = tensor(&vec![0.0; 64], &[1, 1, 8, 8]);
    let flat = tensor(&noise(3), &[3]);
    assert!(matches!(m.inpaint(&flat, &mask, &wave), Err(WorkerError::Rank { expected: 4, .. })));
    assert!(matches!(m.inpaint(&image, &flat, &wave), Err(WorkerError::Rank { expected: 4, .. })));
    let whole = Tensor::zeros((1, 1, 8, 8), DType::U8, &DEV).unwrap();
    assert!(matches!(m.inpaint(&image, &whole, &wave), Err(WorkerError::NotAnImage)));
    let empty = Tensor::zeros((1, 3, 0, 8), DType::F32, &DEV).unwrap();
    assert!(matches!(m.inpaint(&empty, &mask, &wave), Err(WorkerError::NotAnImage)));
    // one pixel at the bottleneck has no line to reflect
    assert!(matches!(m.inpaint(&image, &mask, &wave), Err(WorkerError::PadTooLarge)));
}

#[test]
fn generator_rounds_its_sides_up() {
    let (m, _) = ok(load_generator(generator_file("")));
    for (h, w, rows, columns) in [(9, 17, 16, 24), (16, 23, 16, 24), (20, 24, 24, 24)] {
        let image = tensor(&noise(3 * h * w), &[1, 3, h, w]);
        let mask = tensor(&vec![0.0; h * w], &[1, 1, h, w]);
        let y = ok(m.inpaint(&image, &mask, &wave));
        assert_eq!(y.dims(), &[1, 3, rows, columns]);
    }
}

#[test]
fn generator_gives_no_image_for_none() {
    let (m, device) = ok(load_generator(generator_file("")));
    let image = Tensor::zeros((0, 3, 20, 24), DType::F32, &device).unwrap();
    let mask = Tensor::zeros((0, 1, 20, 24), DType::F32, &device).unwrap();
    let y = ok(m.inpaint(&image, &mask, &wave));
    assert_eq!((y.dims(), y.dtype()), (&[0, 3, 24, 24][..], DType::F32));
    let some = Tensor::zeros((1, 1, 20, 24), DType::F32, &device).unwrap();
    assert!(m.inpaint(&image, &some, &wave).is_err());
    let narrow = Tensor::zeros((0, 1, 20, 16), DType::F32, &device).unwrap();
    assert!(matches!(m.inpaint(&image, &narrow, &wave), Err(WorkerError::Candle(_))));
}

#[test]
fn generator_does_not_see_masked_samples() {
    let m = small_generator(3, Vec::new());
    let (h, w) = (16usize, 24usize);
    let a: Vec<f32> = noise(3 * h * w).iter().map(|v| v.abs() / 2.0).collect();
    let hole = |p: usize| (4..9).contains(&(p % (h * w) / w)) && (6..15).contains(&(p % w));
    let inside: Vec<f32> = (0..a.len()).map(|p| if hole(p) { 1.0 - a[p] } else { a[p] }).collect();
    let outside: Vec<f32> = (0..a.len()).map(|p| if hole(p) { a[p] } else { 1.0 - a[p] }).collect();
    let flags: Vec<f32> = (0..h * w).map(|p| if hole(p) { 1.0 } else { 0.0 }).collect();
    let mask = tensor(&flags, &[1, 1, h, w]);
    let run = |v: &[f32]| -> Vec<u32> {
        let y = ok(m.inpaint(&tensor(v, &[1, 3, h, w]), &mask, &wave));
        values(&y).iter().map(|x| x.to_bits()).collect()
    };
    let first = run(&a);
    assert_eq!(first, run(&inside));
    assert_eq!(first, run(&a));
    assert_ne!(first, run(&outside));
}

#[test]
fn generator_loads_for_the_cpu() {
    let (m, device) = ok(load_generator(generator_file("")));
    assert!(device.is_cpu());
    assert_eq!((m.downs.len(), m.res.len(), m.up_conv.len(), m.up_bn.len()), (3, 18, 3, 3));
    let image = tensor(&vec![0.5; 3 * 32 * 40], &[1, 3, 32, 40]);
    let mask = tensor(&vec![1.0; 32 * 40], &[1, 1, 32, 40]);
    let y = ok(m.inpaint(&image, &mask, &wave));
    assert_eq!(y.dims(), &[1, 3, 32, 40]);
    assert!(values(&y).iter().all(|v| v.is_nan() || (0.0..=255.0).contains(v)));
    assert!(matches!(load_generator(vec![1, 2, 3]), Err(WorkerError::Candle(_))));
}

#[test]
fn generator_needs_every_weight() {
    for name in ["model.22.conv2.bn_g.bias", "model.34.bias", "model.4.ffc.convl2g.weight"] {
        let r = CandleInpainter::from_safetensors(generator_file(name), &DEV);
        assert!(matches!(r, Err(WorkerError::Candle(_))));
    }
}

/// A kernel of seven whose centre picks one input channel per output channel.
fn picks(n_in: usize, chosen: &[usize]) -> Vec<f32> {
    let mut v = vec![0.0f32; chosen.len() * n_in * 49];
    for (o, c) in chosen.iter().enumerate() {
        v[(o * n_in + c) * 49 + 24] = 1.0;
    }
    v
}

/// A first block of four channels, `gout` quarters of them global.
fn first_block(gout: usize) -> FfcBnAct {
    let mut parts = norm_parts("bn_l", 1, 0.0);
    let n_l = 4 - gout;
    if n_l > 0 {
        parts = norm_parts("bn_l", n_l, 0.0);
        let chosen: Vec<usize> = (0..n_l).collect();
        parts.push(("ffc.convl2l.weight".to_string(), vec![n_l, 4, 7, 7], picks(4, &chosen)));
    }
    if gout > 0 {
        parts.extend(norm_parts("bn_g", gout, 0.0));
        let chosen: Vec<usize> = (n_l..4).collect();
        parts.push(("ffc.convl2g.weight".to_string(), vec![gout, 4, 7, 7], picks(4, &chosen)));
    }
    let s = BlockShape { in_ch: 4, out_ch: 4, gin: 0, gout, stride: 1, pad: 0, kernel: 7 };
    ok(FfcBnAct::load(read(&parts), s))
}

fn small_generator(gout: usize, downs: Vec<FfcBnAct>) -> CandleInpainter {
    let w = weights(&[
        ("weight", vec![3, 4, 7, 7], picks(4, &[0, 2, 3])),
        ("bias", vec![3], vec![0.0; 3]),
    ]);
    CandleInpainter {
        init: first_block(gout),
        downs,
        res: Vec::new(),
        up_conv: Vec::new(),
        up_bn: Vec::new(),
        final_conv: ok(ConvLayer::load_biased(4, 3, 7, w)),
    }
}

#[test]
fn generator_zeroes_the_hole_and_appends_the_mask() {
    let m = small_generator(3, Vec::new());
    let n = 16usize;
    let mut image = vec![1.0f32; n];
    image.extend(vec![2.0f32; n]);
    image.extend(vec![3.0f32; n]);
    let mut mask = vec![0.0f32; n];
    mask[5] = 1.0;
    let y = ok(m.inpaint(&tensor(&image, &[1, 3, 4, 4]), &tensor(&mask, &[1, 1, 4, 4]), &wave));
    let level = |v: f32| 255.0 / (1.0 + (-v).exp());
    let v = values(&y);
    for p in 0..n {
        let hole = p == 5;
        let eps = 1.0 / (1.0f32 + 1e-5).sqrt();
        let want = if hole {
            [level(0.0), level(0.0), level(eps)]
        } else {
            [level(eps), level(3.0 * eps), level(0.0)]
        };
        for c in 0..3 {
            assert!((v[c * n + p] - want[c]).abs() < 1e-2, "channel {} pixel {}", c, p);
        }
    }
}

#[test]
fn generator_reports_missing_branches() {
    let image = tensor(&noise(48), &[1, 3, 4, 4]);
    let mask = tensor(&[0.0; 16], &[1, 1, 4, 4]);
    let r = small_generator(4, Vec::new()).inpaint(&image, &mask, &wave);
    assert!(matches!(r, Err(WorkerError::NoInitBranch)));
    let r = small_generator(0, Vec::new()).inpaint(&image, &mask, &wave);
    assert!(matches!(r, Err(WorkerError::NoGlobalBranch)));
    let mut parts = norm_parts("bn_g", 4, 0.0);
    parts.push(("ffc.convl2g.weight".to_string(), vec![4, 4, 3, 3], vec![0.0; 144]));
    let s = BlockShape { in_ch: 4, out_ch: 4, gin: 0, gout: 4, stride: 1, pad: 1, kernel: 3 };
    let global_only = ok(FfcBnAct::load(read(&parts), s));
    let r = small_generator(0, vec![global_only]).inpaint(&image, &mask, &wave);
    assert!(matches!(r, Err(WorkerError::DroppedLocal)));
}

fn source(i: usize, len: usize, new_len: usize) -> i64 {
    (i as f32 * (len as f32 / new_len as f32)) as i64
}

fn weight(i: usize, len: usize, new_len: usize, first: usize) -> u32 {
    (i as f32 * (len as f32 / new_len as f32) - first as f32).clamp(0.0, 1.0).to_bits()
}

fn blend(v00: u32, v01: u32, v10: u32, v11: u32, wx: u32, wy: u32) -> u32 {
    let f = f32::from_bits;
    let v0 = f(v00) * (1.0 - f(wx)) + f(v01) * f(wx);
    let v1 = f(v10) * (1.0 - f(wx)) + f(v11) * f(wx);
    (v0 * (1.0 - f(wy)) + v1 * f(wy)).to_bits()
}

#[test]
fn generator_fills_the_mask_of_an_image() {
    let m = ok(CandleInpainter::from_safetensors(generator_file(""), &DEV));
    let sampler = Sampler { source, weight, blend };
    let image = ImageGrid::build(20, 30, 3, |y, x, c| ((y + x + c) as f32 / 64.0).to_bits());
    let mask = MaskGrid::build(20, 30, |y, x| (5..9).contains(&y) && (27..30).contains(&x));
    let (_, _, roi) = ok(preprocess(&image, &mask, &sampler));
    let unscale = |v: u32| (f32::from_bits(v) * (1.0f32 / 255.0)).clamp(0.0, 1.0).to_bits();
    let scaled = |_: usize, _: usize| -> usize { panic!("nothing to scale") };
    let r = ok(run_candle_inpaint(&m, &DEV, &image, &roi, &sampler, &scaled, &unscale, &wave));
    assert_eq!(r.shape(), (20, 30, 3));
    for y in 0..20 {
        for x in 0..30 {
            for c in 0..3 {
                let got = r.get(y, x, c).unwrap();
                if mask.get(y, x) == Some(true) {
                    let want = 1.0 / (1.0 + (-(c as f32)).exp());
                    assert!((f32::from_bits(got) - want).abs() < 1e-4);
                } else {
                    assert_eq!(Some(got), image.get(y, x, c));
                }
            }
        }
    }
}

#[test]
fn native_path_refuses_an_output_of_another_size() {
    let mut m = small_generator(3, Vec::new());
    let w = weights(&[
        ("weight", vec![3, 4, 1, 1], vec![0.0; 12]),
        ("bias", vec![3], vec![0.0; 3]),
    ]);
    m.final_conv = ok(ConvLayer::load_biased(4, 3, 1, w));
    let sampler = Sampler { source, weight, blend };
    let image = ImageGrid::build(8, 8, 3, |_, _, _| 0);
    let mask = MaskGrid::build(8, 8, |y, x| y == 3 && x == 3);
    let (_, _, roi) = ok(preprocess(&image, &mask, &sampler));
    let scaled = |n: usize, _: usize| n;
    let r = run_candle_inpaint(&m, &DEV, &image, &roi, &sampler, &scaled, &|v: u32| v, &wave);
    assert!(matches!(r, Err(WorkerError::TensorShape(s)) if s == [1, 3, 38, 38]));
}
