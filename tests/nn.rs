use neuron::act::Activation;
use neuron::batch::TrainingBatch;
use neuron::mat::Mat;
use neuron::arith::Arithmetic;
use neuron::nn::Model;

type F64Ops = Arithmetic<
    f64,
    fn(f64, f64) -> f64,
    fn(f64, f64) -> f64,
    fn(f64, f64) -> f64,
    fn(f64, usize) -> f64,
    fn(Activation, f64) -> f64,
    fn(Activation, f64) -> f64,
>;

fn plus(a: f64, b: f64) -> f64 {
    a + b
}

fn minus(a: f64, b: f64) -> f64 {
    a - b
}

fn times(a: f64, b: f64) -> f64 {
    a * b
}

fn over(a: f64, n: usize) -> f64 {
    a / n as f64
}

fn fire(f: Activation, x: f64) -> f64 {
    match f {
        Activation::Sigmoid => 1.0 / (1.0 + (-x).exp()),
        Activation::Tanh => x.tanh(),
        Activation::ReLU => x.max(0.0),
    }
}

fn slope(f: Activation, x: f64) -> f64 {
    match f {
        Activation::Sigmoid => x * (1.0 - x),
        Activation::Tanh => 1.0 - x.tanh().powi(2),
        Activation::ReLU => {
            if x > 0.0 {
                1.0
            } else {
                0.0
            }
        }
    }
}

fn f64_ops() -> F64Ops {
    Arithmetic { zero: 0.0, plus, minus, times, over, fire, slope }
}

fn weight() -> f64 {
    (rand::random::<f64>() - 0.5) * 2.0
}

fn xor() -> TrainingBatch<f64> {
    let input = Mat::new(&[0.0, 1.0, 1.0, 0.0, 1.0, 1.0, 0.0, 0.0], 4, 2);
    let expected = Mat::new(&[1.0, 1.0, 0.0, 0.0], 4, 1);
    TrainingBatch::new(input, expected)
}

#[test]
fn test_forward() {
    let model = Model::new(&[2, 3, 1], weight, 0.0);
    let input: Mat<f64> = Mat::generate(1, 2, || rand::random::<f64>() - 0.5);
    let output = model.activate(&input, &f64_ops());
    assert_eq!(output.len(), 3);
}

#[test]
fn test_gradiant() {
    let mut model = Model::new(&[2, 3, 5, 1], weight, 0.0);
    let input: Mat<f64> = Mat::generate(1, 2, || rand::random::<f64>() - 0.5);
    let expected: Mat<f64> = Mat::generate(1, 1, || rand::random::<f64>() - 0.5);

    let train = TrainingBatch::new(input, expected);
    let (w, b) = model.gradient(&train, &f64_ops());

    assert_eq!(w.len(), 3);
    assert_eq!(b.len(), 3);

    model.learn(w, b, 1.0, &f64_ops());
}

#[test]
fn new_model_has_the_architecture() {
    let model = Model::new(&[2, 3, 3, 1], weight, 0.0);
    let ws = model.weights();
    let bs = model.biases();
    assert_eq!(ws.len(), 3);
    assert_eq!(bs.len(), 3);
    let arch = [2, 3, 3, 1];
    for i in 0..3 {
        assert_eq!(ws[i].rows(), arch[i]);
        assert_eq!(ws[i].cols(), arch[i + 1]);
        assert!(ws[i].as_slice().iter().all(|v| *v >= -1.0 && *v <= 1.0));
        assert_eq!(bs[i].rows(), 1);
        assert_eq!(bs[i].cols(), arch[i + 1]);
        assert!(bs[i].as_slice().iter().all(|v| *v == 0.0));
    }
    assert_eq!(model.activation(), Activation::Sigmoid);
}

#[test]
fn gradient_has_the_shapes_of_the_parameters() {
    let model = Model::new(&[2, 3, 3, 1], weight, 0.0);
    let (w, b) = model.gradient(&xor(), &f64_ops());
    assert_eq!(w.len(), 3);
    assert_eq!(b.len(), 3);
    for i in 0..3 {
        assert_eq!(w[i].rows(), model.weights()[i].rows());
        assert_eq!(w[i].cols(), model.weights()[i].cols());
        assert_eq!(b[i].rows(), model.biases()[i].rows());
        assert_eq!(b[i].cols(), model.biases()[i].cols());
    }
}

#[test]
fn training_on_xor_lowers_the_cost() {
    let mut model = Model::new(&[2, 3, 3, 1], weight, 0.0);
    model.set_activation(Activation::Sigmoid);
    let data = xor();
    let before = model.cost(&data, &f64_ops());
    for _ in 0..1000 {
        let (w, b) = model.gradient(&data, &f64_ops());
        model.learn(w, b, 1.0, &f64_ops());
    }
    let after = model.cost(&data, &f64_ops());
    assert!(after < before, "cost {} did not fall below {}", after, before);
}

#[test]
fn learning_with_a_zero_gradient_changes_nothing() {
    let mut model = Model::new(&[2, 4, 1], weight, 0.0);
    let before_w: Vec<Vec<f64>> = model.weights().iter().map(|m| m.as_slice().to_vec()).collect();
    let before_b: Vec<Vec<f64>> = model.biases().iter().map(|m| m.as_slice().to_vec()).collect();
    let w: Vec<Mat<f64>> = model.weights().iter().map(|m| Mat::clone_zero(m, 0.0)).collect();
    let b: Vec<Mat<f64>> = model.biases().iter().map(|m| Mat::clone_zero(m, 0.0)).collect();
    model.learn(w, b, 0.7, &f64_ops());
    let after_w: Vec<Vec<f64>> = model.weights().iter().map(|m| m.as_slice().to_vec()).collect();
    let after_b: Vec<Vec<f64>> = model.biases().iter().map(|m| m.as_slice().to_vec()).collect();
    assert_eq!(before_w, after_w);
    assert_eq!(before_b, after_b);
}

#[test]
fn learn_subtracts_rate_times_gradient() {
    let mut model = Model::new(&[1, 1], || 0.5, 0.0);
    let w = vec![Mat::new(&[0.25], 1, 1)];
    let b = vec![Mat::new(&[-1.0], 1, 1)];
    model.learn(w, b, 2.0, &f64_ops());
    assert_eq!(model.weights()[0].as_slice(), &[0.0]);
    assert_eq!(model.biases()[0].as_slice(), &[2.0]);
}

#[test]
fn forward_computes_each_layer() {
    let model = Model::new(&[2, 1], || 1.0, 0.0);
    let out = model.forward(&[0.0, 0.0], &f64_ops());
    assert_eq!(out, vec![0.5]);
    let mut relu = Model::new(&[2, 2], || -1.0, 0.0);
    relu.set_activation(Activation::ReLU);
    assert_eq!(relu.forward(&[1.0, 2.0], &f64_ops()), vec![0.0, 0.0]);
}

#[test]
fn activate_keeps_every_row() {
    let model = Model::new(&[2, 3, 1], weight, 0.0);
    let input = Mat::new(&[0.1, 0.2, 0.3, 0.4, 0.5, 0.6], 3, 2);
    let out = model.activate(&input, &f64_ops());
    assert_eq!(out.len(), 3);
    assert_eq!(out[0].as_slice(), input.as_slice());
    assert_eq!(out[1].rows(), 3);
    assert_eq!(out[1].cols(), 3);
    assert_eq!(out[2].rows(), 3);
    assert_eq!(out[2].cols(), 1);
}

#[test]
fn cost_is_divided_by_the_number_of_samples_only() {
    let model = Model::new(&[1, 2], || 0.0, 0.0);
    let batch = TrainingBatch::new(Mat::new(&[3.0, 4.0], 2, 1), Mat::new(&[1.5, 0.5, 0.5, 0.5], 2, 2));
    // every output unit is sigmoid(0) = 0.5
    assert_eq!(model.cost(&batch, &f64_ops()), 0.5);
}

#[test]
fn gradient_of_a_one_layer_model() {
    let model = Model::new(&[1, 1], || 0.0, 0.0);
    let batch = TrainingBatch::new(Mat::new(&[2.0], 1, 1), Mat::new(&[1.0], 1, 1));
    let (w, b) = model.gradient(&batch, &f64_ops());
    // output 0.5, error -0.5, delta = 0.5 * 0.5 * -0.5
    assert_eq!(b[0].as_slice(), &[-0.125]);
    assert_eq!(w[0].as_slice(), &[-0.25]);
}

#[test]
fn combine_averages_the_parts() {
    let model = Model::new(&[1, 1], || 0.0, 0.0);
    let parts = vec![
        (vec![Mat::new(&[1.0], 1, 1)], vec![Mat::new(&[4.0], 1, 1)]),
        (vec![Mat::new(&[3.0], 1, 1)], vec![Mat::new(&[8.0], 1, 1)]),
    ];
    let (w, b) = model.combine(&parts, &f64_ops());
    assert_eq!(w[0].as_slice(), &[2.0]);
    assert_eq!(b[0].as_slice(), &[6.0]);
}
