use micrograd::neuron::Neuron;
use micrograd::value::{Tape, Value};

#[test]
fn params() {
    let mut g = Tape::new();
    let neuron = Neuron::new(
        &mut g,
        &vec![0.2f64.to_bits(), (-0.5f64).to_bits()],
        0.1f64.to_bits(),
        true,
    );

    let datas: Vec<f64> = neuron
        .parameters()
        .iter()
        .map(|p| f64::from_bits(p.data(&g)))
        .collect();
    assert_eq!(datas, vec![0.2, -0.5, 0.1]);
}

#[test]
fn forward() {
    let mut g = Tape::new();
    let neuron = Neuron::new(
        &mut g,
        &vec![0.2f64.to_bits(), (-0.5f64).to_bits()],
        0.1f64.to_bits(),
        true,
    );
    let x = vec![
        Value::new(&mut g, 0.3f64.to_bits()),
        Value::new(&mut g, 0.7f64.to_bits()),
    ];
    let expected_output = (0.2f64 * 0.3f64 + (-0.5f64) * 0.7f64 + 0.1f64).tanh();

    let output = neuron.forward(&mut g, &x);

    assert!((f64::from_bits(output.data(&g)) - expected_output).abs() < 1e-6);
}

#[test]
fn neuron_zero_grad() {
    let mut g = Tape::new();
    let neuron = Neuron::new(
        &mut g,
        &vec![1.0f64.to_bits(), 2.0f64.to_bits()],
        0.5f64.to_bits(),
        false,
    );
    let x = vec![
        Value::new(&mut g, 3.0f64.to_bits()),
        Value::new(&mut g, 4.0f64.to_bits()),
    ];
    let out = neuron.forward(&mut g, &x);
    out.backward(&mut g);
    assert!(neuron
        .parameters()
        .iter()
        .all(|p| f64::from_bits(p.grad(&g)) != 0.0));

    neuron.zero_grad(&mut g);
    assert!(neuron
        .parameters()
        .iter()
        .all(|p| f64::from_bits(p.grad(&g)) == 0.0));
    // The inputs' gradients are not parameters and stay accumulated.
    assert_eq!(f64::from_bits(x[0].grad(&g)), 1.0);
}
