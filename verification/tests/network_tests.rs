use gradgraph::network::{Layer, Neuron, Recorded, Source, MLP};
use gradgraph::{Graph, Operation, Scalar, Value};

#[derive(Clone, Copy, Debug, PartialEq)]
struct Real(f64);

impl Scalar for Real {
    fn zero_spec() -> Self {
        Real(0.0)
    }

    fn one_spec() -> Self {
        Real(1.0)
    }

    fn add_spec(self, rhs: Self) -> Self {
        Real(self.0 + rhs.0)
    }

    fn sub_spec(self, rhs: Self) -> Self {
        Real(self.0 - rhs.0)
    }

    fn mul_spec(self, rhs: Self) -> Self {
        Real(self.0 * rhs.0)
    }

    fn tanh_spec(self) -> Self {
        Real(self.0.tanh())
    }

    fn exp_spec(self) -> Self {
        Real(self.0.exp())
    }

    fn powf_spec(self, exponent: Self) -> Self {
        Real(self.0.powf(exponent.0))
    }

    fn zero() -> Self {
        Real(0.0)
    }

    fn one() -> Self {
        Real(1.0)
    }

    fn dup(&self) -> Self {
        *self
    }

    fn add(&self, rhs: &Self) -> Self {
        Real(self.0 + rhs.0)
    }

    fn sub(&self, rhs: &Self) -> Self {
        Real(self.0 - rhs.0)
    }

    fn mul(&self, rhs: &Self) -> Self {
        Real(self.0 * rhs.0)
    }

    fn tanh(&self) -> Self {
        Real(self.0.tanh())
    }

    fn exp(&self) -> Self {
        Real(self.0.exp())
    }

    fn powf(&self, exponent: &Self) -> Self {
        Real(self.0.powf(exponent.0))
    }
}

/// Hands out 0.125, 0.25, 0.375, ... so that every parameter can be told
/// from the others.
struct Steps {
    count: u32,
}

impl Source<Real> for Steps {
    fn sample(&mut self) -> Real {
        self.count += 1;
        Real(self.count as f64 * 0.125)
    }
}

fn steps() -> Recorded<Real, Steps> {
    Recorded::new(Steps { count: 0 })
}

fn close(a: f64, b: f64) -> bool {
    (a - b).abs() <= 1e-9 * (1.0 + a.abs().max(b.abs()))
}

fn leaves(g: &mut Graph<Real>, xs: &[f64]) -> Vec<Value> {
    xs.iter().map(|x| Value::new(g, Real(*x))).collect()
}

#[test]
fn single_neuron_end_to_end() {
    let mut g = Graph::new();
    let x = leaves(&mut g, &[2.0, 0.0]);
    let neuron = Neuron::with_parameters(&mut g, &vec![Real(-3.0), Real(1.0)], Real(6.8813735870195432));
    let out = neuron.forward(&mut g, &x);
    let before_tanh = out.get_children(&g)[0];
    assert!(close(before_tanh.get_data(&g).0, 0.8813735870195432));
    assert!((out.get_data(&g).0 - 0.7071067).abs() < 1e-6);
    out.backward(&mut g);
    let o = out.get_data(&g).0;
    assert!(close(x[0].get_grad(&g).0, -3.0 * (1.0 - o * o)));
    assert!((x[0].get_grad(&g).0 - -1.5).abs() < 1e-6);
    assert!((x[1].get_grad(&g).0 - 0.5).abs() < 1e-6);
}

#[test]
fn neuron_parameters_are_leaves_in_order() {
    let mut g = Graph::new();
    let _ = Value::new(&mut g, Real(9.0));
    let neuron = Neuron::with_parameters(&mut g, &vec![Real(-3.0), Real(1.0)], Real(0.5));
    assert_eq!(g.len(), 4);
    let x = leaves(&mut g, &[1.0, 1.0]);
    let out = neuron.forward(&mut g, &x);
    // 4 parameters and inputs before, 2 inputs, then product, sum, product, sum, tanh
    assert_eq!(g.len(), 11);
    assert_eq!(out.index(), 10);
    assert_eq!(out.get_operation(&g), Some(Operation::Tanh));
    let last_sum = out.get_children(&g)[0];
    assert_eq!(last_sum.get_operation(&g), Some(Operation::Add));
    let second_product = last_sum.get_children(&g)[1];
    assert_eq!(second_product.get_operation(&g), Some(Operation::Mul));
    let pair = second_product.get_children(&g);
    assert_eq!(pair[0].get_data(&g), Real(1.0));
    assert_eq!(pair[0].index(), 2);
    assert_eq!(pair[1], x[1]);
    let first_sum = last_sum.get_children(&g)[0];
    let bias = first_sum.get_children(&g)[0];
    assert_eq!(bias.index(), 3);
    assert_eq!(bias.get_data(&g), Real(0.5));
    assert!(close(out.get_data(&g).0, (-1.5f64).tanh()));
}

#[test]
fn neuron_pairs_inputs_as_far_as_both_last() {
    let mut g = Graph::new();
    let neuron = Neuron::with_parameters(&mut g, &vec![Real(2.0), Real(3.0), Real(5.0)], Real(1.0));
    let short = leaves(&mut g, &[10.0]);
    let long = leaves(&mut g, &[1.0, 1.0, 1.0, 100.0]);
    let none: Vec<Value> = Vec::new();
    let a = neuron.forward(&mut g, &short);
    let b = neuron.forward(&mut g, &long);
    let c = neuron.forward(&mut g, &none);
    assert!(close(a.get_data(&g).0, 21.0f64.tanh()));
    assert!(close(b.get_data(&g).0, 11.0f64.tanh()));
    assert!(close(c.get_data(&g).0, 1.0f64.tanh()));
}

#[test]
fn neuron_draws_weights_then_bias() {
    let mut g = Graph::new();
    let mut source = steps();
    let neuron = Neuron::new(&mut g, 3, &mut source);
    assert_eq!(source.into_inner().count, 4);
    assert_eq!(g.len(), 4);
    let x = leaves(&mut g, &[1.0, 1.0, 1.0]);
    let out = neuron.forward(&mut g, &x);
    assert!(close(out.get_data(&g).0, (0.5f64 + 0.125 + 0.25 + 0.375).tanh()));
}

#[test]
fn layer_has_one_output_per_neuron() {
    let mut g = Graph::new();
    let mut source = steps();
    let layer = Layer::new(&mut g, 2, 3, &mut source);
    assert_eq!(source.into_inner().count, 9);
    assert_eq!(g.len(), 9);
    let x = leaves(&mut g, &[1.0, -1.0]);
    let outs = layer.forward(&mut g, &x);
    assert_eq!(outs.len(), 3);
    // neuron j holds weights 0.125 (3j + 1), 0.125 (3j + 2) and bias 0.125 (3j + 3)
    for j in 0..3 {
        let base = 3.0 * j as f64;
        let expected = (0.125 * (base + 3.0) + 0.125 * (base + 1.0) - 0.125 * (base + 2.0)).tanh();
        assert!(close(outs[j].get_data(&g).0, expected));
        assert_eq!(outs[j].get_operation(&g), Some(Operation::Tanh));
    }
}

#[test]
fn mlp_shape_follows_sizes() {
    let mut g = Graph::new();
    let mut source = steps();
    let nn = MLP::new(&mut g, 3, &vec![4, 4, 1], &mut source);
    assert_eq!(nn.layers.len(), 3);
    assert_eq!(source.into_inner().count, 4 * 4 + 4 * 5 + 5);
    assert_eq!(g.len(), 41);
}

#[test]
fn mlp_parameters_are_fresh_leaves() {
    let mut g = Graph::new();
    let x = leaves(&mut g, &[2.0, 3.0, -1.0]);
    let mut source = steps();
    let _nn = MLP::new(&mut g, 3, &vec![4, 4, 1], &mut source);
    assert_eq!(g.len(), 44);
    let probe = x[0].add(&mut g, x[1]);
    assert_eq!(probe.index(), 44);
    assert_eq!(x[2].get_data(&g), Real(-1.0));
}

#[test]
fn mlp_feeds_each_layer_with_the_one_before() {
    let mut g = Graph::new();
    let mut source = steps();
    // layer 0: one neuron, w = 0.125, b = 0.25; layer 1: one neuron, w = 0.375, b = 0.5
    let nn = MLP::new(&mut g, 1, &vec![1, 1], &mut source);
    let x = leaves(&mut g, &[2.0]);
    let outs = nn.forward(&mut g, &x);
    assert_eq!(outs.len(), 1);
    let hidden = (0.25f64 + 0.125 * 2.0).tanh();
    let expected = (0.5 + 0.375 * hidden).tanh();
    assert!(close(outs[0].get_data(&g).0, expected));
    outs[0].backward(&mut g);
    let slope_out = 1.0 - expected * expected;
    let slope_hidden = 1.0 - hidden * hidden;
    assert!(close(x[0].get_grad(&g).0, slope_out * 0.375 * slope_hidden * 0.125));
}

#[test]
fn mlp_output_count_is_last_layer_size() {
    let mut g = Graph::new();
    let mut source = steps();
    let nn = MLP::new(&mut g, 3, &vec![4, 4, 2], &mut source);
    let x = leaves(&mut g, &[2.0, 3.0, -1.0]);
    let outs = nn.forward(&mut g, &x);
    assert_eq!(outs.len(), 2);
    for o in outs.iter() {
        let y = o.get_data(&g).0;
        assert!(-1.0 <= y && y <= 1.0);
    }
}

#[test]
fn mlp_without_layers_draws_nothing() {
    let mut g: Graph<Real> = Graph::new();
    let mut source = steps();
    let nn = MLP::new(&mut g, 3, &Vec::new(), &mut source);
    assert_eq!(source.into_inner().count, 0);
    assert_eq!(g.len(), 0);
    assert_eq!(nn.depth(), 0);
    assert!(nn.belongs_to(&g));
}

#[test]
fn every_parameter_holds_its_draw() {
    let mut g = Graph::new();
    let x = leaves(&mut g, &[2.0, 3.0]);
    let mut source = steps();
    let nn = MLP::new(&mut g, 2, &vec![2, 1], &mut source);
    assert_eq!(nn.depth(), 2);
    assert_eq!(g.len(), 2 + 2 * 3 + 3);
    let outs = nn.forward(&mut g, &x);
    // layer 0, neuron 0: w = [0.125, 0.25], b = 0.375; neuron 1: w = [0.5, 0.625], b = 0.75
    let h0 = (0.375f64 + 0.125 * 2.0 + 0.25 * 3.0).tanh();
    let h1 = (0.75f64 + 0.5 * 2.0 + 0.625 * 3.0).tanh();
    // layer 1: w = [0.875, 1.0], b = 1.125
    let expected = (1.125 + 0.875 * h0 + 1.0 * h1).tanh();
    assert!(close(outs[0].get_data(&g).0, expected));
}

#[test]
fn network_belongs_to_the_graph_it_was_built_in() {
    let mut g = Graph::new();
    let mut source = steps();
    let neuron = Neuron::new(&mut g, 2, &mut source);
    let layer = Layer::new(&mut g, 2, 2, &mut source);
    let nn = MLP::new(&mut g, 2, &vec![2, 1], &mut source);
    let x = leaves(&mut g, &[1.0, 2.0]);
    assert!(neuron.belongs_to(&g));
    assert!(layer.belongs_to(&g));
    assert!(nn.belongs_to(&g));
    assert!(g.contains_all(&x));

    let mut small: Graph<Real> = Graph::new();
    let _ = leaves(&mut small, &[0.0, 0.0, 0.0]);
    assert!(neuron.belongs_to(&small));
    assert!(!layer.belongs_to(&small));
    assert!(!nn.belongs_to(&small));
    assert!(!small.contains_all(&x));
    let empty: Graph<Real> = Graph::new();
    assert!(!neuron.belongs_to(&empty));
    assert!(empty.contains_all(&Vec::new()));
}
