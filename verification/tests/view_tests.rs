use micrograd::value::{Tape, Value};
use micrograd::view::NodeData;

#[test]
fn node_data_fields() {
    let n = NodeData::new("w0".to_string(), "record".to_string());
    assert_eq!(n.label, "w0");
    assert_eq!(n.shape, "record");
}

#[test]
fn dot_description_shape() {
    let mut g = Tape::new();
    let a = Value::new(&mut g, 2.0f64.to_bits()).with_label(&mut g, "a");
    let b = Value::new(&mut g, (-3.0f64).to_bits()).with_label(&mut g, "b");
    let e = a.mul(&mut g, b).with_label(&mut g, "e");

    let (nodes, _) = e.trace(&g);
    let labels: Vec<String> = nodes
        .iter()
        .map(|n| {
            format!(
                "{{ {} | data {} | grad {} }}",
                n.label,
                f64::from_bits(n.data),
                f64::from_bits(n.grad)
            )
        })
        .collect();
    let dot = e.to_dot(&g, &labels);

    assert!(dot.starts_with("digraph"));
    assert!(dot.contains("rankdir=\"LR\""));
    // One record per node, a circle for the product, three edges:
    // a -> *, b -> *, * -> e.
    assert!(dot.contains("{ a | data 2 | grad 0 }"));
    assert!(dot.contains("{ b | data -3 | grad 0 }"));
    assert!(dot.contains("{ e | data -6 | grad 0 }"));
    assert!(dot.contains("shape=record"));
    assert!(dot.contains("shape=circle"));
    assert_eq!(dot.matches(" -> ").count(), 3);
}

fn record_labels(g: &Tape, root: Value) -> Vec<String> {
    let (nodes, _) = root.trace(g);
    nodes
        .iter()
        .map(|n| {
            format!(
                "{{ {} | data {} | grad {} }}",
                n.label,
                f64::from_bits(n.data),
                f64::from_bits(n.grad)
            )
        })
        .collect()
}

#[test]
fn test_print_computation_graph() {
    let mut g = Tape::new();
    let a = Value::new(&mut g, 2.0f64.to_bits()).with_label(&mut g, "a");
    let b = Value::new(&mut g, (-3.0f64).to_bits()).with_label(&mut g, "b");
    let c = Value::new(&mut g, 10.0f64.to_bits()).with_label(&mut g, "c");
    let e = a.mul(&mut g, b).with_label(&mut g, "e"); // 6.0
    let d = e.add(&mut g, c).with_label(&mut g, "d");
    let f = Value::new(&mut g, (-2.0f64).to_bits()).with_label(&mut g, "f");
    let l = d.mul(&mut g, f).with_label(&mut g, "L");

    let labels = record_labels(&g, l);
    assert_eq!(
        l.to_dot(&g, &labels),
        r#"digraph {
    rankdir="LR"
    0 [ label = "NodeData { label: \"{ L | data -8 | grad 0 }\", shape: \"record\" }" label="{ L | data -8 | grad 0 }" shape=record]
    1 [ label = "NodeData { label: \"*\", shape: \"circle\" }" label="*" shape=circle]
    2 [ label = "NodeData { label: \"{ d | data 4 | grad 0 }\", shape: \"record\" }" label="{ d | data 4 | grad 0 }" shape=record]
    3 [ label = "NodeData { label: \"+\", shape: \"circle\" }" label="+" shape=circle]
    4 [ label = "NodeData { label: \"{ e | data -6 | grad 0 }\", shape: \"record\" }" label="{ e | data -6 | grad 0 }" shape=record]
    5 [ label = "NodeData { label: \"*\", shape: \"circle\" }" label="*" shape=circle]
    6 [ label = "NodeData { label: \"{ a | data 2 | grad 0 }\", shape: \"record\" }" label="{ a | data 2 | grad 0 }" shape=record]
    7 [ label = "NodeData { label: \"{ b | data -3 | grad 0 }\", shape: \"record\" }" label="{ b | data -3 | grad 0 }" shape=record]
    8 [ label = "NodeData { label: \"{ c | data 10 | grad 0 }\", shape: \"record\" }" label="{ c | data 10 | grad 0 }" shape=record]
    9 [ label = "NodeData { label: \"{ f | data -2 | grad 0 }\", shape: \"record\" }" label="{ f | data -2 | grad 0 }" shape=record]
    1 -> 0 [ ]
    3 -> 2 [ ]
    5 -> 4 [ ]
    2 -> 1 [ ]
    4 -> 3 [ ]
    6 -> 5 [ ]
    7 -> 5 [ ]
    8 -> 3 [ ]
    9 -> 1 [ ]
}
"#
    );
}

#[test]
fn dot_aliased_square_single_edge() {
    let mut g = Tape::new();
    let x = Value::new(&mut g, 3.0f64.to_bits()).with_label(&mut g, "x");
    let sq = x.mul(&mut g, x).with_label(&mut g, "sq");

    let (nodes, edges) = sq.trace(&g);
    assert_eq!(edges.len(), 1);
    let labels: Vec<String> = nodes.iter().map(|n| n.label.clone()).collect();
    let dot = sq.to_dot(&g, &labels);
    // Two records, one circle, the circle-to-record edge and one operand edge.
    assert_eq!(dot.matches("shape=record").count(), 2);
    assert_eq!(dot.matches("shape=circle").count(), 1);
    assert_eq!(dot.matches(" -> ").count(), 2);
}
