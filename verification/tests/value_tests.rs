use micrograd::scalar::F64_ONE_BITS;
use micrograd::value::{Tape, Value};

fn leaf(g: &mut Tape, x: f64) -> Value {
    Value::new(g, x.to_bits())
}

fn data(g: &Tape, v: Value) -> f64 {
    f64::from_bits(v.data(g))
}

fn grad(g: &Tape, v: Value) -> f64 {
    f64::from_bits(v.grad(g))
}

#[test]
fn final_grad() {
    let mut g = Tape::new();
    let a = leaf(&mut g, 3.0);
    assert_eq!(data(&g, a), 3.0);
    assert_eq!(grad(&g, a), 0.0);

    a.backward(&mut g);
    assert_eq!(data(&g, a), 3.0);
    assert_eq!(grad(&g, a), 1.0);
}

#[test]
fn add() {
    let mut g = Tape::new();
    let a = leaf(&mut g, 3.0);
    let b = leaf(&mut g, 4.0);
    let c = a.add(&mut g, b);

    c.backward(&mut g);

    assert_eq!(data(&g, a), 3.0);
    assert_eq!(grad(&g, a), 1.0);

    assert_eq!(data(&g, b), 4.0);
    assert_eq!(grad(&g, b), 1.0);

    assert_eq!(data(&g, c), 7.0);
    assert_eq!(grad(&g, c), 1.0);
}

#[test]
fn add_self() {
    let mut g = Tape::new();
    let a = leaf(&mut g, 3.0);
    let c = a.add(&mut g, a);

    c.backward(&mut g);

    assert_eq!(data(&g, a), 3.0);
    assert_eq!(grad(&g, a), 2.0);

    assert_eq!(data(&g, c), 6.0);
    assert_eq!(grad(&g, c), 1.0);
}

#[test]
fn sub() {
    let mut g = Tape::new();
    let a = leaf(&mut g, 3.0);
    let b = leaf(&mut g, 4.0);
    let c = a.sub(&mut g, b);

    c.backward(&mut g);

    assert_eq!(data(&g, a), 3.0);
    assert_eq!(grad(&g, a), 1.0);

    assert_eq!(data(&g, b), 4.0);
    assert_eq!(grad(&g, b), -1.0);

    assert_eq!(data(&g, c), -1.0);
    assert_eq!(grad(&g, c), 1.0);
}

#[test]
fn sub_self() {
    let mut g = Tape::new();
    let a = leaf(&mut g, 3.0);
    let c = a.sub(&mut g, a);

    c.backward(&mut g);

    assert_eq!(data(&g, a), 3.0);
    assert_eq!(grad(&g, a), 0.0);

    assert_eq!(data(&g, c), 0.0);
    assert_eq!(grad(&g, c), 1.0);
}

#[test]
fn mul() {
    let mut g = Tape::new();
    let a = leaf(&mut g, 3.0);
    let b = leaf(&mut g, 4.0);
    let c = a.mul(&mut g, b);

    c.backward(&mut g);

    assert_eq!(data(&g, a), 3.0);
    assert_eq!(grad(&g, a), 4.0);

    assert_eq!(data(&g, b), 4.0);
    assert_eq!(grad(&g, b), 3.0);

    assert_eq!(data(&g, c), 12.0);
    assert_eq!(grad(&g, c), 1.0);
}

#[test]
fn mul_self() {
    let mut g = Tape::new();
    let a = leaf(&mut g, 3.0);
    let c = a.mul(&mut g, a);

    c.backward(&mut g);

    assert_eq!(data(&g, a), 3.0);
    assert_eq!(grad(&g, a), 6.0);

    assert_eq!(data(&g, c), 9.0);
    assert_eq!(grad(&g, c), 1.0);
}

#[test]
fn chain() {
    let mut g = Tape::new();
    let a = leaf(&mut g, -2.0);
    let b = leaf(&mut g, 3.0);
    let e = a.add(&mut g, b);
    let d = a.mul(&mut g, b);
    let f = e.mul(&mut g, d);

    f.backward(&mut g);

    assert_eq!(data(&g, a), -2.0);
    assert_eq!(grad(&g, a), -3.0);

    assert_eq!(data(&g, b), 3.0);
    assert_eq!(grad(&g, b), -8.0);

    assert_eq!(data(&g, e), 1.0);
    assert_eq!(grad(&g, e), -6.0);

    assert_eq!(data(&g, d), -6.0);
    assert_eq!(grad(&g, d), 1.0);

    assert_eq!(data(&g, f), -6.0);
    assert_eq!(grad(&g, f), 1.0);
}

#[test]
fn tanh() {
    let mut g = Tape::new();
    let a = leaf(&mut g, 0.8814);
    let c = a.tanh(&mut g);

    c.backward(&mut g);

    assert_eq!(data(&g, a), 0.8814);
    assert!((grad(&g, a) - 0.5).abs() < 0.1);

    assert!((data(&g, c) - 0.7071).abs() < 0.0001);
    assert_eq!(grad(&g, c), 1.0);
}

#[test]
fn tanh_zero() {
    let mut g = Tape::new();
    let a = leaf(&mut g, 0.0);
    let c = a.tanh(&mut g);

    assert_eq!(data(&g, c), 0.0);

    c.backward(&mut g);
    assert_eq!(grad(&g, a), 1.0);
    assert_eq!(grad(&g, c), 1.0);
}

#[test]
fn reconvergence() {
    // c = (a + b) * a at a = -2, b = 3: dc/da = 2a + b, dc/db = a.
    let mut g = Tape::new();
    let a = leaf(&mut g, -2.0);
    let b = leaf(&mut g, 3.0);
    let e = a.add(&mut g, b);
    let c = e.mul(&mut g, a);

    c.backward(&mut g);

    assert_eq!(data(&g, c), -2.0);
    assert_eq!(grad(&g, a), -1.0);
    assert_eq!(grad(&g, b), -2.0);
    assert_eq!(grad(&g, c), 1.0);
}

#[test]
fn backward_accumulates() {
    // A second pass without a reset adds the same contributions again
    // and leaves every forward value alone; the root is re-seeded to 1.
    let mut g = Tape::new();
    let a = leaf(&mut g, 3.0);
    let b = leaf(&mut g, 4.0);
    let c = a.mul(&mut g, b);

    c.backward(&mut g);
    assert_eq!(grad(&g, a), 4.0);
    assert_eq!(grad(&g, b), 3.0);

    c.backward(&mut g);
    assert_eq!(grad(&g, a), 8.0);
    assert_eq!(grad(&g, b), 6.0);
    assert_eq!(grad(&g, c), 1.0);
    assert_eq!(data(&g, a), 3.0);
    assert_eq!(data(&g, b), 4.0);
    assert_eq!(data(&g, c), 12.0);
}

#[test]
fn zero_grad_resets() {
    let mut g = Tape::new();
    let a = leaf(&mut g, 3.0);
    let b = leaf(&mut g, 4.0);
    let c = a.mul(&mut g, b);

    c.backward(&mut g);
    assert_eq!(grad(&g, a), 4.0);

    a.zero_grad(&mut g);
    c.zero_grad(&mut g);
    b.zero_grad(&mut g);
    assert_eq!(grad(&g, a), 0.0);
    assert_eq!(grad(&g, b), 0.0);
    assert_eq!(grad(&g, c), 0.0);

    c.backward(&mut g);
    assert_eq!(grad(&g, a), 4.0);
    assert_eq!(grad(&g, b), 3.0);
}

#[test]
fn labels_and_ops() {
    let mut g = Tape::new();
    let a = leaf(&mut g, 2.0).with_label(&mut g, "a");
    let b = leaf(&mut g, 5.0);
    let c = a.add(&mut g, b);
    let t = c.tanh(&mut g);

    assert_eq!(a.label(&g), "a");
    assert_eq!(b.label(&g), "");
    assert_eq!(a.op(&g), None);
    assert_eq!(c.op(&g), Some("+".to_string()));
    assert_eq!(a.sub(&mut g, b).op(&g), Some("-".to_string()));
    assert_eq!(a.mul(&mut g, b).op(&g), Some("*".to_string()));
    assert_eq!(t.op(&g), Some("tanh".to_string()));
}

#[test]
fn uuid_is_version_four() {
    let mut g = Tape::new();
    let a = leaf(&mut g, 1.5);
    let u = a.uuid(&g);
    assert_eq!((u >> 76) & 0xf, 4);
    assert_eq!((u >> 62) & 0x3, 2);
}

#[test]
fn root_grad_is_one_bits() {
    let mut g = Tape::new();
    let a = leaf(&mut g, -7.25);
    let b = leaf(&mut g, 0.5);
    let c = a.tanh(&mut g);
    let r = c.mul(&mut g, b);
    r.backward(&mut g);
    assert_eq!(r.grad(&g), F64_ONE_BITS);
}

/// Evaluate tanh(x * y + x) on a fresh tape and differentiate it.
fn eval_case(x: f64, y: f64) -> (f64, f64, f64) {
    let mut g = Tape::new();
    let vx = leaf(&mut g, x);
    let vy = leaf(&mut g, y);
    let p = vx.mul(&mut g, vy);
    let s = p.add(&mut g, vx);
    let r = s.tanh(&mut g);
    r.backward(&mut g);
    (data(&g, r), grad(&g, vx), grad(&g, vy))
}

#[test]
fn gradient_matches_finite_difference() {
    let h = 1e-6;
    let cases = [(0.5, -1.2), (1.1, 0.7), (-0.3, 0.9), (0.05, 0.02), (-1.4, -0.6)];
    for &(x, y) in cases.iter() {
        let (_, gx, gy) = eval_case(x, y);
        let fd_x = (eval_case(x + h, y).0 - eval_case(x - h, y).0) / (2.0 * h);
        let fd_y = (eval_case(x, y + h).0 - eval_case(x, y - h).0) / (2.0 * h);
        assert!((gx - fd_x).abs() < 1e-4, "d/dx at ({x}, {y}): {gx} vs {fd_x}");
        assert!((gy - fd_y).abs() < 1e-4, "d/dy at ({x}, {y}): {gy} vs {fd_y}");
    }
}

#[test]
fn trace_counts() {
    // Seven distinct nodes, six operand edges.
    let mut g = Tape::new();
    let a = leaf(&mut g, 2.0);
    let b = leaf(&mut g, -3.0);
    let c = leaf(&mut g, 10.0);
    let e = a.mul(&mut g, b);
    let d = e.add(&mut g, c);
    let f = leaf(&mut g, -2.0);
    let l = d.mul(&mut g, f);

    let (nodes, edges) = l.trace(&g);
    assert_eq!(nodes.len(), 7);
    assert_eq!(edges.len(), 6);
    // Discovery starts at the root; identities are unique.
    assert_eq!(nodes[0].id, l.id);
    for i in 0..nodes.len() {
        for j in 0..i {
            assert_ne!(nodes[i].id, nodes[j].id);
        }
    }
    // Every edge names an operand relationship between traced nodes.
    for &(op, cons) in edges.iter() {
        assert!(nodes.iter().any(|n| n.id == op));
        assert!(nodes.iter().any(|n| n.id == cons));
    }
}

#[test]
fn trace_aliased_operand_once() {
    // x + x stores its operand once: two nodes, one edge.
    let mut g = Tape::new();
    let x = leaf(&mut g, 3.0);
    let c = x.add(&mut g, x);

    let (nodes, edges) = c.trace(&g);
    assert_eq!(nodes.len(), 2);
    assert_eq!(edges.len(), 1);
    assert_eq!(edges[0], (x.id, c.id));
}

#[test]
fn trace_reports_values() {
    let mut g = Tape::new();
    let a = leaf(&mut g, 1.5).with_label(&mut g, "a");
    let b = leaf(&mut g, 2.5);
    let c = a.add(&mut g, b);
    c.backward(&mut g);

    let (nodes, _) = c.trace(&g);
    let entry = nodes.iter().find(|n| n.id == a.id).unwrap();
    assert_eq!(f64::from_bits(entry.data), 1.5);
    assert_eq!(f64::from_bits(entry.grad), 1.0);
    assert_eq!(entry.label, "a");
    assert!(entry.op.is_none());
    assert_eq!(entry.uuid, a.uuid(&g));
    let centry = nodes.iter().find(|n| n.id == c.id).unwrap();
    assert_eq!(centry.op.as_deref(), Some("+"));
}
