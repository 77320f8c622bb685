use micrograd::layer::Layer;
use micrograd::value::Tape;

fn zero_init(nout: usize, nin: usize) -> Vec<Vec<u64>> {
    (0..nout).map(|_| vec![0u64; nin + 1]).collect()
}

#[test]
fn parameters() {
    for nin in 50..55 {
        for nout in 90..100 {
            let mut g = Tape::new();
            let init = zero_init(nout, nin);
            assert_eq!(
                Layer::new(&mut g, nin, nout, true, &init).parameters().len(),
                nout * (nin + 1)
            );
        }
    }
}

#[test]
fn layer_forward_values() {
    let mut g = Tape::new();
    let init = vec![
        vec![1.0f64.to_bits(), 2.0f64.to_bits(), 0.5f64.to_bits()],
        vec![(-1.0f64).to_bits(), 0.25f64.to_bits(), 0.0f64.to_bits()],
    ];
    let layer = Layer::new(&mut g, 2, 2, false, &init);
    let x = vec![
        micrograd::value::Value::new(&mut g, 3.0f64.to_bits()),
        micrograd::value::Value::new(&mut g, (-2.0f64).to_bits()),
    ];
    let out = layer.forward(&mut g, &x);
    assert_eq!(out.len(), 2);
    assert_eq!(f64::from_bits(out[0].data(&g)), 1.0 * 3.0 + 2.0 * -2.0 + 0.5);
    assert_eq!(f64::from_bits(out[1].data(&g)), -1.0 * 3.0 + 0.25 * -2.0 + 0.0);
}
