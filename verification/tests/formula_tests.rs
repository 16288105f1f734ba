use gradgraph::{Formula, Graph, Scalar, Value};

fn input(n: u32) -> Formula {
    Formula::Input(n)
}

fn sum(a: Formula, b: Formula) -> Formula {
    Formula::Sum(Box::new(a), Box::new(b))
}

fn difference(a: Formula, b: Formula) -> Formula {
    Formula::Difference(Box::new(a), Box::new(b))
}

fn product(a: Formula, b: Formula) -> Formula {
    Formula::Product(Box::new(a), Box::new(b))
}

fn power(a: Formula, b: Formula) -> Formula {
    Formula::Power(Box::new(a), Box::new(b))
}

fn tanh(a: Formula) -> Formula {
    Formula::Tanh(Box::new(a))
}

fn exp(a: Formula) -> Formula {
    Formula::Exp(Box::new(a))
}

fn eval(f: &Formula, inputs: &[f64]) -> f64 {
    match f {
        Formula::Zero => 0.0,
        Formula::One => 1.0,
        Formula::Input(n) => inputs[*n as usize],
        Formula::Sum(a, b) => eval(a, inputs) + eval(b, inputs),
        Formula::Difference(a, b) => eval(a, inputs) - eval(b, inputs),
        Formula::Product(a, b) => eval(a, inputs) * eval(b, inputs),
        Formula::Tanh(a) => eval(a, inputs).tanh(),
        Formula::Exp(a) => eval(a, inputs).exp(),
        Formula::Power(a, b) => eval(a, inputs).powf(eval(b, inputs)),
    }
}

#[test]
fn formula_operations_build_expressions() {
    let a = input(0);
    let b = input(1);
    assert_eq!(Formula::zero(), Formula::Zero);
    assert_eq!(Formula::one(), Formula::One);
    assert_eq!(a.dup(), input(0));
    assert_eq!(a.add(&b), sum(input(0), input(1)));
    assert_eq!(a.sub(&b), difference(input(0), input(1)));
    assert_eq!(a.mul(&b), product(input(0), input(1)));
    assert_eq!(a.tanh(), tanh(input(0)));
    assert_eq!(a.exp(), exp(input(0)));
    assert_eq!(a.powf(&b), power(input(0), input(1)));
    let deep = sum(product(input(0), tanh(input(1))), exp(Formula::One));
    assert_eq!(deep.copy(), sum(product(input(0), tanh(input(1))), exp(Formula::One)));
}

#[test]
fn values_are_forward_formulas() {
    let mut g = Graph::new();
    let a = Value::new(&mut g, input(0));
    let b = Value::new(&mut g, input(1));
    let s = a.add(&mut g, b);
    let p = a.mul(&mut g, b);
    let t = a.tanh(&mut g);
    let e = a.exp(&mut g);
    let k = a.powf(&mut g, input(2));
    let d = a.sub(&mut g, b);
    let q = a.div(&mut g, b);
    let minus_one = difference(Formula::Zero, Formula::One);
    assert_eq!(s.get_data(&g), sum(input(0), input(1)));
    assert_eq!(p.get_data(&g), product(input(0), input(1)));
    assert_eq!(t.get_data(&g), tanh(input(0)));
    assert_eq!(e.get_data(&g), exp(input(0)));
    assert_eq!(k.get_data(&g), power(input(0), input(2)));
    assert_eq!(d.get_data(&g), sum(input(0), product(minus_one.copy(), input(1))));
    assert_eq!(q.get_data(&g), product(input(0), power(input(1), minus_one)));
}

#[test]
fn gradient_of_sum_with_itself_is_zero_plus_one_plus_one() {
    let mut g = Graph::new();
    let a = Value::new(&mut g, input(0));
    let b = a.add(&mut g, a);
    b.backward(&mut g);
    assert_eq!(b.get_grad(&g), Formula::One);
    assert_eq!(a.get_grad(&g), sum(sum(Formula::Zero, Formula::One), Formula::One));
}

#[test]
fn gradient_of_product_with_itself() {
    let mut g = Graph::new();
    let a = Value::new(&mut g, input(0));
    let b = a.mul(&mut g, a);
    b.backward(&mut g);
    let term = product(input(0), Formula::One);
    assert_eq!(a.get_grad(&g), sum(sum(Formula::Zero, term.copy()), term));
}

#[test]
fn each_rule_writes_its_formula() {
    let mut g = Graph::new();
    let a = Value::new(&mut g, input(0));
    let b = Value::new(&mut g, input(1));
    let m = a.mul(&mut g, b);
    m.backward(&mut g);
    assert_eq!(a.get_grad(&g), sum(Formula::Zero, product(input(1), Formula::One)));
    assert_eq!(b.get_grad(&g), sum(Formula::Zero, product(input(0), Formula::One)));

    let mut g = Graph::new();
    let a = Value::new(&mut g, input(0));
    let t = a.tanh(&mut g);
    t.backward(&mut g);
    let square = product(tanh(input(0)), tanh(input(0)));
    assert_eq!(
        a.get_grad(&g),
        sum(Formula::Zero, product(difference(Formula::One, square), Formula::One))
    );

    let mut g = Graph::new();
    let a = Value::new(&mut g, input(0));
    let e = a.exp(&mut g);
    e.backward(&mut g);
    assert_eq!(a.get_grad(&g), sum(Formula::Zero, product(exp(input(0)), Formula::One)));

    let mut g = Graph::new();
    let a = Value::new(&mut g, input(0));
    let p = a.powf(&mut g, input(1));
    p.backward(&mut g);
    let k = p.get_children(&g)[1];
    let slope = product(input(1), power(input(0), difference(input(1), Formula::One)));
    assert_eq!(a.get_grad(&g), sum(Formula::Zero, product(slope, Formula::One)));
    assert_eq!(k.get_grad(&g), Formula::Zero);
}

#[test]
fn consumers_contribute_latest_first() {
    // x feeds y = x * x and z = y + x; from z the sum reaches x before the product does.
    let mut g = Graph::new();
    let x = Value::new(&mut g, input(0));
    let y = x.mul(&mut g, x);
    let z = y.add(&mut g, x);
    z.backward(&mut g);
    let gy = sum(Formula::Zero, Formula::One);
    assert_eq!(y.get_grad(&g), gy.copy());
    let from_sum = sum(Formula::Zero, Formula::One);
    let after_first_slot = sum(from_sum, product(input(0), gy.copy()));
    assert_eq!(x.get_grad(&g), sum(after_first_slot, product(input(0), gy)));
}

#[test]
fn symbolic_gradients_agree_with_closed_form() {
    let mut g = Graph::new();
    let a = Value::new(&mut g, input(0));
    let b = Value::new(&mut g, input(1));
    let c = Value::new(&mut g, input(2));
    let e = a.mul(&mut g, b);
    let d = e.add(&mut g, c);
    let f = d.tanh(&mut g);
    f.backward(&mut g);
    let at = [2.0, -3.0, 10.0];
    let fv = eval(&f.get_data(&g), &at);
    let slope = 1.0 - fv * fv;
    assert_eq!(fv, 4.0f64.tanh());
    assert!((eval(&a.get_grad(&g), &at) - -3.0 * slope).abs() < 1e-12);
    assert!((eval(&b.get_grad(&g), &at) - 2.0 * slope).abs() < 1e-12);
    assert!((eval(&c.get_grad(&g), &at) - slope).abs() < 1e-12);
}

#[test]
fn propagation_from_a_seed_is_exact() {
    let mut g = Graph::new();
    let x = Value::new(&mut g, input(0));
    let y = x.mul(&mut g, x);
    let z = y.add(&mut g, y);
    z.set_grad(&mut g, input(1));
    z.update_gradients(&mut g);
    let to_y = sum(sum(Formula::Zero, input(1)), input(1));
    assert_eq!(z.get_grad(&g), input(1));
    assert_eq!(y.get_grad(&g), to_y.copy());
    let term = product(input(0), to_y);
    assert_eq!(x.get_grad(&g), sum(sum(Formula::Zero, term.copy()), term));
}

#[test]
fn one_rule_alone_goes_no_further() {
    let mut g = Graph::new();
    let x = Value::new(&mut g, input(0));
    let y = x.mul(&mut g, x);
    let z = y.add(&mut g, y);
    z.set_grad(&mut g, Formula::One);
    z.apply_local_rule(&mut g);
    assert_eq!(y.get_grad(&g), sum(sum(Formula::Zero, Formula::One), Formula::One));
    assert_eq!(x.get_grad(&g), Formula::Zero);
}
