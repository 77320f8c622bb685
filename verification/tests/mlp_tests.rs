use micrograd::mlp::{sse_loss, Mlp};
use micrograd::value::{Tape, Value};

/// Zero-valued initial parameters for layer widths `nin -> nouts`.
fn zero_init(nin: usize, nouts: &[usize]) -> Vec<Vec<Vec<u64>>> {
    let mut init = Vec::new();
    let mut d = nin;
    for &nout in nouts {
        init.push((0..nout).map(|_| vec![0u64; d + 1]).collect());
        d = nout;
    }
    init
}

#[test]
fn test_mlp_new() {
    let mut g = Tape::new();
    let init = zero_init(3, &[4, 4, 1]);
    let mlp = Mlp::new(&mut g, 3, vec![4, 4, 1], true, &init);
    assert_eq!(mlp.layers.len(), 3);
    assert_eq!(mlp.layers[0].len(), 4);
    assert_eq!(mlp.layers[1].len(), 4);
    assert_eq!(mlp.layers[2].len(), 1);
}

#[test]
fn test_mlp_forward() {
    let mut g = Tape::new();
    let init = zero_init(3, &[4, 4, 1]);
    let mlp = Mlp::new(&mut g, 3, vec![4, 4, 1], true, &init);
    let input = vec![
        Value::new(&mut g, 0.1f64.to_bits()),
        Value::new(&mut g, 0.2f64.to_bits()),
        Value::new(&mut g, 0.3f64.to_bits()),
    ];
    let output = mlp.forward(&mut g, input);
    assert_eq!(output.len(), 1);
}

#[test]
fn test_mlp_forward_with_different_dimensions() {
    let mut g = Tape::new();
    let init = zero_init(2, &[3, 1]);
    let mlp = Mlp::new(&mut g, 2, vec![3, 1], true, &init);
    let input = vec![
        Value::new(&mut g, 0.5f64.to_bits()),
        Value::new(&mut g, 0.8f64.to_bits()),
    ];
    let output = mlp.forward(&mut g, input);
    assert_eq!(output.len(), 1);
}

#[test]
fn test_stat() {
    let mut g = Tape::new();
    let init = zero_init(3, &[4, 4, 1]);
    let mlp = Mlp::new(&mut g, 3, vec![4, 4, 1], true, &init);
    let stat = mlp.stat();
    assert_eq!(stat.num_layers, 3);
    assert_eq!(stat.num_neurons, 9);
    assert_eq!(stat.num_biases, 9);
    // 12 weights in the first layer + 16 weights in the second + 4 weights in the third
    assert_eq!(stat.num_weights, 32);
    // 32 weights + 9 biases
    assert_eq!(stat.num_parameters, 41);

    let mut g = Tape::new();
    let init = zero_init(2, &[3, 1]);
    let mlp = Mlp::new(&mut g, 2, vec![3, 1], true, &init);
    let stat = mlp.stat();
    assert_eq!(stat.num_layers, 2);
    assert_eq!(stat.num_neurons, 4);
    assert_eq!(stat.num_biases, 4);
    assert_eq!(stat.num_weights, 9);
    assert_eq!(stat.num_parameters, 13);
}

#[test]
fn sse_loss_value() {
    let mut g = Tape::new();
    let preds = vec![
        Value::new(&mut g, 0.5f64.to_bits()),
        Value::new(&mut g, (-1.0f64).to_bits()),
    ];
    let targets = vec![
        Value::new(&mut g, 1.0f64.to_bits()),
        Value::new(&mut g, (-1.0f64).to_bits()),
    ];
    let loss = sse_loss(&mut g, &preds, &targets);
    assert_eq!(f64::from_bits(loss.data(&g)), 0.25);

    loss.backward(&mut g);
    // d/dp of (t - p)^2 is -2 (t - p).
    assert_eq!(f64::from_bits(preds[0].grad(&g)), -1.0);
    assert_eq!(f64::from_bits(preds[1].grad(&g)), 0.0);
}

#[test]
fn mlp_gradient_step_reduces_loss() {
    // One hand-rolled training step on a tiny network: rebuild the graph
    // with nudged weights and see the loss fall.
    let nin = 2;
    let nouts = [2usize, 1usize];
    let xs: [[f64; 2]; 3] = [[2.0, 3.0], [-1.0, -0.5], [0.5, 1.0]];
    let ys: [f64; 3] = [1.0, -1.0, 0.5];
    let mut weights: Vec<Vec<Vec<f64>>> = Vec::new();
    let seeds = [0.3, -0.2, 0.15, 0.08, -0.12];
    let mut s = 0usize;
    let mut d = nin;
    for &nout in nouts.iter() {
        let mut layer = Vec::new();
        for _ in 0..nout {
            let mut row = Vec::new();
            for _ in 0..(d + 1) {
                row.push(seeds[s % seeds.len()]);
                s += 1;
            }
            layer.push(row);
        }
        weights.push(layer);
        d = nout;
    }

    let run = |weights: &Vec<Vec<Vec<f64>>>| -> (f64, Vec<Vec<Vec<f64>>>) {
        let mut g = Tape::new();
        let init: Vec<Vec<Vec<u64>>> = weights
            .iter()
            .map(|l| l.iter().map(|r| r.iter().map(|w| w.to_bits()).collect()).collect())
            .collect();
        let mlp = Mlp::new(&mut g, nin, nouts.to_vec(), false, &init);
        let mut preds = Vec::new();
        for x in xs.iter() {
            let input: Vec<Value> = x.iter().map(|v| Value::new(&mut g, v.to_bits())).collect();
            preds.push(mlp.forward(&mut g, input)[0]);
        }
        let targets: Vec<Value> = ys.iter().map(|y| Value::new(&mut g, y.to_bits())).collect();
        let loss = sse_loss(&mut g, &preds, &targets);
        loss.backward(&mut g);
        let grads = mlp
            .layers
            .iter()
            .map(|l| {
                l.neurons
                    .iter()
                    .map(|n| {
                        let mut row: Vec<f64> = n
                            .weights
                            .iter()
                            .map(|w| f64::from_bits(w.grad(&g)))
                            .collect();
                        row.push(f64::from_bits(n.bias.grad(&g)));
                        row
                    })
                    .collect()
            })
            .collect();
        (f64::from_bits(loss.data(&g)), grads)
    };

    let (loss0, grads) = run(&weights);
    let lr = 0.01;
    for (l, gl) in weights.iter_mut().zip(grads.iter()) {
        for (r, gr) in l.iter_mut().zip(gl.iter()) {
            for (w, gw) in r.iter_mut().zip(gr.iter()) {
                *w -= lr * gw;
            }
        }
    }
    let (loss1, _) = run(&weights);
    assert!(loss1 < loss0, "loss did not fall: {loss0} -> {loss1}");
}
