//! Binary32 durations, held against the machine's own.

use hls_probe::single::milli_parts;

#[test]
fn milliseconds_agree_with_floating_point() {
    let mut list = vec![
        0.0,
        0.0005,
        1.0004,
        3.999,
        4.0,
        6.006,
        9.9995,
        16_777_216.0,
        1e10,
        f32::MAX,
        f32::MIN_POSITIVE,
        1e-45,
        f32::INFINITY,
        f32::NAN,
    ];
    let mut state: u64 = 1;
    for _ in 0..20_000 {
        state = state.wrapping_mul(6364136223846793005).wrapping_add(1442695040888963407);
        list.push((state >> 40) as f32 / 65536.0);
        list.push(f32::from_bits((state >> 33) as u32));
    }
    for d in list {
        for d in [d, -d] {
            let product = d * 1000.0;
            assert_eq!(milli_parts(d.to_bits()) / (1 << 32), product as i64 as i128, "{d}");
            if product.abs() < 9e18 {
                let exact = (product as f64 * 4294967296.0) as i128;
                assert_eq!(milli_parts(d.to_bits()), exact, "{d}");
            }
        }
    }
    assert_eq!(milli_parts(0.5f32.to_bits()), 500 << 32);
}
