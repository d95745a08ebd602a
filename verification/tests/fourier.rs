use candle_core::{Device, Tensor};
use lama_worker::error::WorkerError;
use lama_worker::fourier::{contract_h, idft_h, irfft2, mm_last, pack, rfft2, unpack, Basis};

const DEV: Device = Device::Cpu;

fn wave(k: usize, j: usize, n: usize) -> (u32, u32) {
    let scale = 1.0 / (n as f64).sqrt();
    let a = 2.0 * std::f64::consts::PI * (k as f64) * (j as f64) / (n as f64);
    (((a.cos() * scale) as f32).to_bits(), ((a.sin() * scale) as f32).to_bits())
}

fn tensor(v: &[f32], dims: &[usize]) -> Tensor {
    Tensor::from_vec(v.to_vec(), dims, &DEV).unwrap()
}

fn values(t: &Tensor) -> Vec<f32> {
    t.flatten_all().unwrap().to_vec1::<f32>().unwrap()
}

fn ok<T>(r: Result<T, WorkerError>) -> T {
    match r {
        Ok(v) => v,
        Err(e) => panic!("{}", e.message()),
    }
}

fn close(a: &[f32], b: &[f32]) {
    assert_eq!(a.len(), b.len());
    for i in 0..a.len() {
        assert!((a[i] - b[i]).abs() < 1e-4, "at {}: {} and {}", i, a[i], b[i]);
    }
}

fn noise(n: usize) -> Vec<f32> {
    (0..n).map(|i| ((i * 37 + 11) % 101) as f32 / 50.0 - 1.0).collect()
}

fn full(n: usize) -> Basis {
    ok(Basis::full(n, &wave, &DEV))
}

fn half(n: usize) -> Basis {
    ok(Basis::onesided(n, &wave, &DEV))
}

#[test]
fn basis_holds_scaled_waves() {
    let b = half(4);
    assert_eq!(b.c.dims(), &[3, 4]);
    close(&values(&b.c), &[0.5, 0.5, 0.5, 0.5, 0.5, 0.0, -0.5, 0.0, 0.5, -0.5, 0.5, -0.5]);
    close(&values(&b.s), &[0.0, 0.0, 0.0, 0.0, 0.0, 0.5, 0.0, -0.5, 0.0, 0.0, 0.0, 0.0]);
    assert_eq!(full(5).c.dims(), &[5, 5]);
}

#[test]
fn basis_rows_are_orthonormal() {
    for n in [1usize, 2, 5, 8] {
        let b = full(n);
        let (c, s) = (values(&b.c), values(&b.s));
        for k in 0..n {
            for l in 0..n {
                let dot: f32 = (0..n).map(|j| c[k * n + j] * c[l * n + j] + s[k * n + j] * s[l * n + j]).sum();
                let want = if k == l { 1.0 } else { 0.0 };
                assert!((dot - want).abs() < 1e-5, "{} {} {}", n, k, l);
            }
        }
    }
}

#[test]
fn mm_last_contracts_rows() {
    let x = tensor(&[1.0, 2.0, 3.0, 4.0, 5.0, 6.0], &[1, 2, 1, 3]);
    let m = tensor(&[1.0, 0.0, -1.0, 2.0, 1.0, 0.0], &[2, 3]);
    let y = ok(mm_last(&x, &m));
    assert_eq!(y.dims(), &[1, 2, 1, 2]);
    close(&values(&y), &[-2.0, 4.0, -2.0, 13.0]);
}

#[test]
fn mm_last_refuses_other_lengths() {
    let x = tensor(&[1.0, 2.0], &[1, 1, 1, 2]);
    let m = tensor(&[1.0, 0.0, 1.0], &[1, 3]);
    assert!(matches!(mm_last(&x, &m), Err(WorkerError::Candle(_))));
}

#[test]
fn mm_last_takes_any_number_of_axes() {
    let m = tensor(&[1.0, 0.0, 2.0, 1.0, 3.0, 5.0], &[3, 2]);
    let y = ok(mm_last(&tensor(&[1.0, 2.0], &[1, 1, 1, 2]), &m));
    assert_eq!(y.dims(), &[1, 1, 1, 3]);
    assert_eq!(values(&y), [1.0, 4.0, 13.0]);
    let y = ok(mm_last(&tensor(&[1.0, 2.0, 3.0, 4.0], &[2, 2]), &m));
    assert_eq!(y.dims(), &[2, 3]);
    assert_eq!(values(&y), [1.0, 4.0, 13.0, 3.0, 10.0, 29.0]);
    let y = ok(mm_last(&tensor(&[1.0, 2.0], &[2]), &m));
    assert_eq!(y.dims(), &[3]);
    assert_eq!(values(&y), [1.0, 4.0, 13.0]);
}

#[test]
fn contract_h_keeps_channels_apart() {
    let x = tensor(&[1.0, 2.0, 3.0, 4.0], &[1, 2, 2, 1]);
    let mt = tensor(&[1.0, 0.0, 0.0, 1.0], &[2, 2]);
    let y = ok(contract_h(&x, &mt));
    assert_eq!(y.dims(), &[1, 2, 2, 1]);
    assert_eq!(values(&y), [1.0, 2.0, 3.0, 4.0]);
    let column = tensor(&[1.0, 10.0], &[2, 1]);
    assert_eq!(values(&ok(contract_h(&x, &column))), [21.0, 43.0]);
    assert!(matches!(contract_h(&tensor(&[1.0], &[1]), &mt), Err(WorkerError::Rank { expected: 4, .. })));
}

#[test]
fn rfft2_of_small_images() {
    let x = tensor(&[1.0, 2.0, 3.0, 4.0], &[1, 1, 2, 2]);
    let (re, im) = ok(rfft2(&x, &full(2), &half(2)));
    assert_eq!(re.dims(), &[1, 1, 2, 2]);
    close(&values(&re), &[5.0, -1.0, -2.0, 0.0]);
    close(&values(&im), &[0.0; 4]);
    let mut v = vec![0.0; 16];
    v[5] = 1.0;
    let (re, im) = ok(rfft2(&tensor(&v, &[1, 1, 4, 4]), &full(4), &half(4)));
    assert_eq!(im.dims(), &[1, 1, 4, 3]);
    let quarter = |t: usize| [1.0, 0.0, -1.0, 0.0][t % 4] * 0.25;
    let at = |k: usize, l: usize| k + l;
    let want: Vec<f32> = (0..12).map(|p| quarter(at(p / 3, p % 3))).collect();
    close(&values(&re), &want);
    let want: Vec<f32> = (0..12).map(|p| quarter(at(p / 3, p % 3) + 1)).collect();
    close(&values(&im), &want);
}

#[test]
fn irfft2_of_small_spectra() {
    let re = tensor(&[2.0, 1.0, 0.0], &[1, 1, 1, 3]);
    let im = tensor(&[7.0, 1.0, 9.0], &[1, 1, 1, 3]);
    let y = ok(irfft2(&re, &im, &full(4), &full(1), 4));
    assert_eq!(y.dims(), &[1, 1, 1, 4]);
    close(&values(&y), &[2.0, 0.0, 0.0, 2.0]);
    let t = tensor(&[0.0, 0.0, 1.0], &[1, 1, 1, 3]);
    let y = ok(irfft2(&t, &t, &full(5), &full(1), 5));
    close(&values(&y), &[0.8944, -1.2493, 1.1270, -0.5743, -0.1979]);
}

#[test]
fn contract_h_contracts_columns() {
    let (b, c, h, w, n) = (2usize, 3usize, 4usize, 5usize, 2usize);
    let xs = noise(b * c * h * w);
    let ms = noise(h * n);
    let y = ok(contract_h(&tensor(&xs, &[b, c, h, w]), &tensor(&ms, &[h, n])));
    assert_eq!(y.dims(), &[b, c, n, w]);
    let mut want = Vec::new();
    for i in 0..b {
        for j in 0..c {
            for k in 0..n {
                for l in 0..w {
                    let mut s = 0.0f32;
                    for t in 0..h {
                        s += xs[((i * c + j) * h + t) * w + l] * ms[t * n + k];
                    }
                    want.push(s);
                }
            }
        }
    }
    close(&values(&y), &want);
}

fn naive_dft(x: &[f32], c: usize, h: usize, w: usize) -> (Vec<f32>, Vec<f32>) {
    let m = w / 2 + 1;
    let (mut re, mut im) = (Vec::new(), Vec::new());
    let norm = 1.0 / ((h * w) as f64).sqrt();
    for ch in 0..c {
        for u in 0..h {
            for v in 0..m {
                let (mut a, mut b) = (0.0f64, 0.0f64);
                for y in 0..h {
                    for xx in 0..w {
                        let angle = -2.0 * std::f64::consts::PI
                            * ((u * y) as f64 / h as f64 + (v * xx) as f64 / w as f64);
                        let p = x[(ch * h + y) * w + xx] as f64;
                        a += p * angle.cos();
                        b += p * angle.sin();
                    }
                }
                re.push((a * norm) as f32);
                im.push((b * norm) as f32);
            }
        }
    }
    (re, im)
}

#[test]
fn rfft2_is_the_transform_of_a_real_image() {
    for &(h, w) in &[(4usize, 6usize), (5, 5), (3, 4), (1, 3)] {
        let x = noise(2 * h * w);
        let (re, im) = ok(rfft2(&tensor(&x, &[1, 2, h, w]), &full(h), &half(w)));
        assert_eq!(re.dims(), &[1, 2, h, w / 2 + 1]);
        let (a, b) = naive_dft(&x, 2, h, w);
        close(&values(&re), &a);
        close(&values(&im), &b);
    }
}

#[test]
fn irfft2_undoes_rfft2() {
    for &(h, w) in &[(4usize, 6usize), (5, 5), (4, 4), (3, 7), (2, 3)] {
        let x = noise(3 * h * w);
        let (re, im) = ok(rfft2(&tensor(&x, &[1, 3, h, w]), &full(h), &half(w)));
        let y = ok(irfft2(&re, &im, &full(w), &full(h), w));
        assert_eq!(y.dims(), &[1, 3, h, w]);
        close(&values(&y), &x);
    }
}

#[test]
fn irfft2_discards_imaginary_parts_of_real_bins() {
    let (h, w) = (1usize, 4usize);
    let re = tensor(&[1.0, 2.0, 3.0], &[1, 1, h, 3]);
    let plain = tensor(&[0.0, 0.5, 0.0], &[1, 1, h, 3]);
    let odd = tensor(&[7.0, 0.5, -9.0], &[1, 1, h, 3]);
    let a = ok(irfft2(&re, &plain, &full(w), &full(h), w));
    let b = ok(irfft2(&re, &odd, &full(w), &full(h), w));
    close(&values(&a), &values(&b));
    // (1 + 2*2 + 3) / 2 at the first place
    close(&values(&a)[..1], &[4.0]);
}

#[test]
fn irfft2_keeps_the_last_bin_of_an_odd_width() {
    let re = tensor(&[0.0, 0.0], &[1, 1, 1, 2]);
    let im = tensor(&[0.0, 1.0], &[1, 1, 1, 2]);
    let y = ok(irfft2(&re, &im, &full(3), &full(1), 3));
    let root = 3.0f32.sqrt();
    close(&values(&y), &[0.0, -2.0 * (root / 2.0) / root, 2.0 * (root / 2.0) / root]);
}

#[test]
fn irfft2_refuses_a_degenerate_width() {
    let re = tensor(&[1.0, 2.0], &[1, 1, 1, 2]);
    let im = tensor(&[0.0, 0.0], &[1, 1, 1, 2]);
    let r = irfft2(&re, &im, &full(2), &full(1), 2);
    assert!(matches!(r, Err(WorkerError::DegenerateWidth)));
}

#[test]
fn idft_h_inverts_both_parts() {
    let re = tensor(&[1.0, 0.0], &[1, 1, 2, 1]);
    let im = tensor(&[0.0, 1.0], &[1, 1, 2, 1]);
    let (hr, hi) = ok(idft_h(&re, &im, &full(2)));
    let r = 1.0 / 2.0f32.sqrt();
    close(&values(&hr), &[r, r]);
    close(&values(&hi), &[r, -r]);
}

#[test]
fn pack_interleaves_and_unpack_undoes_it() {
    let re = tensor(&noise(12), &[1, 3, 2, 2]);
    let im = tensor(&noise(12).iter().map(|v| v * 2.0 + 5.0).collect::<Vec<f32>>(), &[1, 3, 2, 2]);
    let packed = ok(pack(&re, &im));
    assert_eq!(packed.dims(), &[1, 6, 2, 2]);
    let (r, i, p) = (values(&re), values(&im), values(&packed));
    for c in 0..3 {
        assert_eq!(p[8 * c..8 * c + 4], r[4 * c..4 * c + 4]);
        assert_eq!(p[8 * c + 4..8 * c + 8], i[4 * c..4 * c + 4]);
    }
    let (re2, im2) = ok(unpack(&packed));
    assert_eq!(values(&re2), r);
    assert_eq!(values(&im2), i);
}

#[test]
fn unpack_refuses_an_odd_number_of_channels() {
    let x = tensor(&noise(3), &[1, 3, 1, 1]);
    assert!(matches!(unpack(&x), Err(WorkerError::OddChannels)));
}
