use vstd::prelude::*;
use crate::act::Activation;
use crate::arith::{row_of, Arithmetic};
use crate::batch::TrainingBatch;
use crate::mat::{lemma_same_cells, Mat, MatView};

verus! {

/// What a model holds: per layer a weight matrix and a one-row bias matrix,
/// and the nonlinearity applied after every layer.
pub struct ModelView<T> {
    pub weights: Seq<MatView<T>>,
    pub biases: Seq<MatView<T>>,
    pub activation: Activation,
}

impl<T> ModelView<T> {
    /// The number of layers of weights.
    pub open spec fn layers(self) -> nat {
        self.weights.len()
    }

    /// The width of layer `i`, the input layer being layer 0.
    pub open spec fn width(self, i: int) -> nat {
        if i == 0 {
            self.weights[0].nrows()
        } else {
            self.weights[i - 1].cols
        }
    }

    /// The layer widths are `arch`, input first; with `wf` this makes weights
    /// `i` an `arch[i]` x `arch[i + 1]` matrix and bias `i` a row of `arch[i + 1]`.
    pub open spec fn has_arch(self, arch: Seq<usize>) -> bool {
        &&& arch.len() == self.layers() + 1
        &&& forall|i: int| 0 <= i <= self.layers() ==> #[trigger] self.width(i) == arch[i]
    }

    /// The shapes chain: each weight matrix takes the width of the layer below
    /// it to that of the layer above, with a one-row bias of the upper width.
    pub open spec fn wf(self) -> bool {
        &&& self.weights.len() >= 1
        &&& self.biases.len() == self.weights.len()
        &&& forall|i: int|
            0 <= i < self.weights.len() ==> {
                &&& (#[trigger] self.weights[i]).wf()
                &&& self.biases[i].wf()
                &&& self.biases[i].nrows() == 1
                &&& self.biases[i].cols == self.weights[i].cols
            }
        &&& forall|i: int|
            0 < i < self.weights.len() ==> (#[trigger] self.weights[i]).nrows()
                == self.weights[i - 1].cols
    }
}

/// Layer `l` of the weight part of each of `parts`.
pub open spec fn weight_parts<T>(parts: Seq<(Vec<Mat<T>>, Vec<Mat<T>>)>, l: int) -> Seq<MatView<T>> {
    Seq::new(parts.len(), |k: int| parts[k].0@[l]@)
}

/// Layer `l` of the bias part of each of `parts`.
pub open spec fn bias_parts<T>(parts: Seq<(Vec<Mat<T>>, Vec<Mat<T>>)>, l: int) -> Seq<MatView<T>> {
    Seq::new(parts.len(), |k: int| parts[k].1@[l]@)
}

/// The views of a sequence of matrices.
pub open spec fn views<T>(ms: Seq<Mat<T>>) -> Seq<MatView<T>> {
    ms.map_values(|m: Mat<T>| m@)
}

/// Every matrix of `ms` is sound and has the shape of the one at the same
/// place in `shapes`.
pub open spec fn shaped_like<T: Copy>(ms: Seq<Mat<T>>, shapes: Seq<MatView<T>>) -> bool {
    &&& ms.len() == shapes.len()
    &&& forall|i: int|
        0 <= i < ms.len() ==> {
            &&& (#[trigger] ms[i]).inv()
            &&& ms[i]@.nrows() == shapes[i].nrows()
            &&& ms[i]@.cols == shapes[i].cols
        }
}

/// `after` is `before` with each cell carried through `step` together with the
/// cell at the same place in `grads`.
pub open spec fn stepped<T, F: Fn(T, T) -> T>(
    before: Seq<MatView<T>>,
    grads: Seq<MatView<T>>,
    after: Seq<MatView<T>>,
    step: F,
) -> bool {
    &&& after.len() == before.len()
    &&& forall|i: int|
        0 <= i < before.len() ==> {
            &&& (#[trigger] after[i]).nrows() == before[i].nrows()
            &&& after[i].cols == before[i].cols
            &&& forall|r: int, c: int|
                0 <= r < before[i].nrows() && 0 <= c < before[i].cols ==> step.ensures(
                    (before[i].at(r, c), grads[i].at(r, c)),
                    #[trigger] after[i].at(r, c),
                )
        }
}

/// Each matrix of `ms` holds `z` in every cell.
pub open spec fn all_cells<T>(ms: Seq<MatView<T>>, z: T) -> bool {
    forall|i: int, r: int, c: int|
        0 <= i < ms.len() && 0 <= r < ms[i].nrows() && 0 <= c < ms[i].cols ==> #[trigger] ms[i].at(r, c)
            == z
}

/// An update whose gradient is zero everywhere, by a step that leaves a cell
/// alone when its gradient is zero, leaves every parameter as it was.
pub proof fn lemma_zero_step<T, F: Fn(T, T) -> T>(
    before: Seq<MatView<T>>,
    grads: Seq<MatView<T>>,
    after: Seq<MatView<T>>,
    step: F,
    zero: T,
)
    requires
        forall|i: int| 0 <= i < before.len() ==> (#[trigger] before[i]).wf(),
        forall|i: int| 0 <= i < after.len() ==> (#[trigger] after[i]).wf(),
        stepped(before, grads, after, step),
        all_cells(grads, zero),
        grads.len() == before.len(),
        forall|i: int| 0 <= i < before.len() ==> (#[trigger] grads[i]).nrows() == before[i].nrows() && grads[i].cols == before[i].cols,
        forall|x: T, y: T| #[trigger] step.ensures((x, zero), y) ==> y == x,
    ensures
        after == before,
{
    assert forall|i: int| 0 <= i < before.len() implies #[trigger] after[i] == before[i] by {
        assert forall|r: int| 0 <= r < before[i].nrows() implies #[trigger] after[i].rows[r]
            == before[i].rows[r] by {
            assert forall|c: int| 0 <= c < before[i].cols implies #[trigger] after[i].rows[r][c]
                == before[i].rows[r][c] by {
                assert(grads[i].at(r, c) == zero);
                assert(step.ensures((before[i].at(r, c), grads[i].at(r, c)), after[i].at(r, c)));
            }
            assert(after[i].rows[r] =~= before[i].rows[r]);
        }
        assert(after[i].rows =~= before[i].rows);
    }
    assert(after =~= before);
}

/// A feed-forward network of dense layers.
pub struct Model<T> {
    weights: Vec<Mat<T>>,
    biases: Vec<Mat<T>>,
    activation: Activation,
}

impl<T> View for Model<T> {
    type V = ModelView<T>;

    closed spec fn view(&self) -> ModelView<T> {
        ModelView { weights: views(self.weights@), biases: views(self.biases@), activation: self.activation }
    }
}

impl<T: Copy> Model<T> {
    /// The shapes chain and every matrix is sound.
    pub closed spec fn inv(&self) -> bool {
        &&& self@.wf()
        &&& shaped_like(self.weights@, self@.weights)
        &&& shaped_like(self.biases@, self@.biases)
    }

    /// A model with layer sizes `arch`, input first: every weight drawn by a
    /// call of `draw`, every bias `zero`, and the sigmoid as nonlinearity.
    pub fn new<F: Fn() -> T>(arch: &[usize], draw: F, zero: T) -> (m: Model<T>)
        requires
            arch@.len() >= 2,
            forall|i: int| 0 <= i < arch@.len() - 1 ==> #[trigger] arch@[i] * arch@[i + 1] <= usize::MAX,
            draw.requires(()),
        ensures
            m.inv(),
            m@.wf(),
            m@.has_arch(arch@),
            m@.activation == Activation::Sigmoid,
            all_cells(m@.biases, zero),
            forall|i: int, r: int, c: int|
                0 <= i < m@.layers() && 0 <= r < m@.weights[i].nrows() && 0 <= c < m@.weights[i].cols
                    ==> draw.ensures((), #[trigger] m@.weights[i].at(r, c)),
    {
        let layers: usize = arch.len() - 1;
        let mut weights: Vec<Mat<T>> = Vec::with_capacity(layers);
        let mut biases: Vec<Mat<T>> = Vec::with_capacity(layers);
        let mut i: usize = 0;
        while i < layers
            invariant
                layers == arch@.len() - 1,
                i <= layers,
                draw.requires(()),
                forall|j: int| 0 <= j < arch@.len() - 1 ==> #[trigger] arch@[j] * arch@[j + 1] <= usize::MAX,
                weights@.len() == i,
                biases@.len() == i,
                forall|j: int|
                    0 <= j < i ==> {
                        &&& (#[trigger] weights@[j]).inv()
                        &&& weights@[j]@.nrows() == arch@[j]
                        &&& weights@[j]@.cols == arch@[j + 1]
                        &&& biases@[j].inv()
                        &&& biases@[j]@.nrows() == 1
                        &&& biases@[j]@.cols == arch@[j + 1]
                        &&& forall|r: int, c: int|
                            0 <= r < arch@[j] && 0 <= c < arch@[j + 1] ==> draw.ensures(
                                (),
                                #[trigger] weights@[j]@.at(r, c),
                            )
                        &&& forall|c: int| 0 <= c < arch@[j + 1] ==> #[trigger] biases@[j]@.at(0, c) == zero
                    },
            decreases layers - i,
        {
            let w: Mat<T> = Mat::generate(arch[i], arch[i + 1], &draw);
            let b: Mat<T> = Mat::zeros_row(arch[i + 1], zero);
            let ghost weights_before = weights@;
            let ghost biases_before = biases@;
            weights.push(w);
            biases.push(b);
            proof {
                assert(weights@[i as int] == w);
                assert(biases@[i as int] == b);
                assert forall|j: int| 0 <= j < i implies weights@[j] == weights_before[j] && biases@[j]
                    == biases_before[j] by {}
            }
            i = i + 1;
        }
        let m = Model { weights, biases, activation: Activation::Sigmoid };
        proof {
            assert forall|j: int| 0 <= j < layers implies {
                &&& (#[trigger] m@.weights[j]).wf()
                &&& m@.biases[j].wf()
                &&& m@.biases[j].nrows() == 1
                &&& m@.biases[j].cols == m@.weights[j].cols
                &&& m@.weights[j] == m.weights@[j]@
                &&& m@.biases[j] == m.biases@[j]@
            } by {
                m.weights@[j].lemma_wf();
                m.biases@[j].lemma_wf();
            }
            assert forall|j: int| 0 < j < layers implies (#[trigger] m@.weights[j]).nrows()
                == m@.weights[j - 1].cols by {
                assert(m@.weights[j] == m.weights@[j]@);
                assert(m@.weights[j - 1] == m.weights@[j - 1]@);
            }
            assert forall|j: int, r: int, c: int|
                0 <= j < m@.biases.len() && 0 <= r < m@.biases[j].nrows() && 0 <= c < m@.biases[j].cols
                    implies #[trigger] m@.biases[j].at(r, c) == zero by {
                assert(m@.biases[j] == m.biases@[j]@);
                assert(m.weights@[j].inv());
                assert(r == 0);
            }
            assert forall|j: int| 0 <= j < layers implies {
                &&& (#[trigger] m.weights@[j]).inv()
                &&& m.weights@[j]@.nrows() == m@.weights[j].nrows()
                &&& m.weights@[j]@.cols == m@.weights[j].cols
                &&& m.biases@[j].inv()
                &&& m.biases@[j]@.nrows() == m@.biases[j].nrows()
                &&& m.biases@[j]@.cols == m@.biases[j].cols
            } by {
                assert(m.weights@[j].inv());
            }
            assert(shaped_like(m.weights@, m@.weights));
            assert(shaped_like(m.biases@, m@.biases)) by {
                assert forall|j: int| 0 <= j < layers implies (#[trigger] m.biases@[j]).inv() by {
                    assert(m.weights@[j].inv());
                }
            }
            assert(m@.wf());
            assert forall|j: int| 0 <= j <= layers implies #[trigger] m@.width(j) == arch@[j] by {
                if j > 0 {
                    assert(m@.weights[j - 1] == m.weights@[j - 1]@);
                } else {
                    assert(m@.weights[0] == m.weights@[0]@);
                }
            }
        }
        m
    }

    /// The nonlinearity applied after every layer.
    pub fn activation(&self) -> (a: Activation)
        ensures
            a == self@.activation,
    {
        self.activation
    }

    /// Replaces the nonlinearity; the weights and biases stay.
    pub fn set_activation(&mut self, activation: Activation)
        requires
            old(self).inv(),
        ensures
            final(self).inv(),
            final(self)@ == (ModelView { activation, ..old(self)@ }),
    {
        self.activation = activation;
    }

    /// The weight matrices, input layer first.
    pub fn weights(&self) -> (ws: &[Mat<T>])
        requires
            self.inv(),
        ensures
            shaped_like(ws@, self@.weights),
            views(ws@) == self@.weights,
    {
        self.weights.as_slice()
    }

    /// The bias rows, input layer first.
    pub fn biases(&self) -> (bs: &[Mat<T>])
        requires
            self.inv(),
        ensures
            shaped_like(bs@, self@.biases),
            views(bs@) == self@.biases,
    {
        self.biases.as_slice()
    }
    /// The output of every layer for the rows of `input`, input layer first:
    /// each layer's output is the one below it times the layer's weights, plus
    /// its bias in every row, with the nonlinearity applied to each cell.
    pub fn activate<P, S, M, D, F, G>(&self, input: &Mat<T>, ops: &Arithmetic<T, P, S, M, D, F, G>) -> (out: Vec<Mat<T>>)
        where
            P: Fn(T, T) -> T,
            S: Fn(T, T) -> T,
            M: Fn(T, T) -> T,
            D: Fn(T, usize) -> T,
            F: Fn(Activation, T) -> T,
            G: Fn(Activation, T) -> T,
        requires
            self.inv(),
            ops.wf(),
            input.inv(),
            input@.cols == self@.width(0),
            forall|i: int| 0 <= i <= self@.layers() ==> input@.nrows() * #[trigger] self@.width(i) <= usize::MAX,
        ensures
            out@.len() == self@.layers() + 1,
            forall|i: int|
                0 <= i < out@.len() ==> {
                    &&& (#[trigger] out@[i]).inv()
                    &&& out@[i]@ == ops.activations(self@, input@, i as nat)
                    &&& out@[i]@.nrows() == input@.nrows()
                    &&& out@[i]@.cols == self@.width(i)
                },
    {
        let layers: usize = self.weights.len();
        let mut out: Vec<Mat<T>> = Vec::new();
        out.push(input.clone());
        let mut i: usize = 0;
        while i < layers
            invariant
                self.inv(),
                ops.wf(),
                input.inv(),
                layers == self@.layers(),
                forall|j: int| 0 <= j <= self@.layers() ==> input@.nrows() * #[trigger] self@.width(j) <= usize::MAX,
                i <= layers,
                out@.len() == i + 1,
                forall|j: int|
                    0 <= j <= i ==> {
                        &&& (#[trigger] out@[j]).inv()
                        &&& out@[j]@ == ops.activations(self@, input@, j as nat)
                        &&& out@[j]@.nrows() == input@.nrows()
                        &&& out@[j]@.cols == self@.width(j)
                    },
            decreases layers - i,
        {
            proof {
                assert(self.weights@[i as int].inv());
                assert(self.biases@[i as int].inv());
                assert(self@.weights[i as int] == self.weights@[i as int]@);
                assert(self@.biases[i as int] == self.biases@[i as int]@);
                assert(out@[i as int].inv());
                assert(input@.nrows() * self@.width(i + 1) <= usize::MAX);
            }
            let a: Mat<T> = layer_forward(ops, self.activation, &out[i], &self.weights[i], &self.biases[i]);
            out.push(a);
            i = i + 1;
        }
        out
    }

    /// The output of the last layer for the single input row `input`.
    pub fn forward<P, S, M, D, F, G>(&self, input: &[T], ops: &Arithmetic<T, P, S, M, D, F, G>) -> (out: Vec<T>)
        where
            P: Fn(T, T) -> T,
            S: Fn(T, T) -> T,
            M: Fn(T, T) -> T,
            D: Fn(T, usize) -> T,
            F: Fn(Activation, T) -> T,
            G: Fn(Activation, T) -> T,
        requires
            self.inv(),
            ops.wf(),
            input@.len() == self@.width(0),
        ensures
            out@ == ops.output(self@, input@),
            out@.len() == self@.width(self@.layers() as int),
    {
        let row: Mat<T> = Mat::row_from_slice(input);
        proof {
            assert forall|i: int| 0 <= i <= self@.layers() implies row@.nrows() * #[trigger] self@.width(i)
                <= usize::MAX by {
                self.lemma_width_fits(i);
            }
            assert(row@.rows =~= row_of(input@).rows);
        }
        let outputs: Vec<Mat<T>> = self.activate(&row, ops);
        let last: usize = outputs.len() - 1;
        proof {
            assert(outputs@[last as int].inv());
            outputs@[last as int].lemma_wf();
        }
        vstd::slice::slice_to_vec(outputs[last].get_row(0))
    }

    /// The mean over the samples of `batch` of the summed squared differences
    /// between the model's output and the expected output.
    pub fn cost<P, S, M, D, F, G>(&self, batch: &TrainingBatch<T>, ops: &Arithmetic<T, P, S, M, D, F, G>) -> (c: T)
        where
            P: Fn(T, T) -> T,
            S: Fn(T, T) -> T,
            M: Fn(T, T) -> T,
            D: Fn(T, usize) -> T,
            F: Fn(Activation, T) -> T,
            G: Fn(Activation, T) -> T,
        requires
            self.inv(),
            ops.wf(),
            batch.inv(),
            batch@.input.cols == self@.width(0),
            batch@.expected.cols == self@.width(self@.layers() as int),
        ensures
            c == ops.cost_of(self@, batch@),
    {
        let n: usize = batch.len();
        let mut total: T = ops.zero;
        let mut s: usize = 0;
        while s < n
            invariant
                self.inv(),
                ops.wf(),
                batch.inv(),
                batch@.input.cols == self@.width(0),
                batch@.expected.cols == self@.width(self@.layers() as int),
                n == batch@.len(),
                s <= n,
                total == ops.error_sum(self@, batch@, s as nat),
            decreases n - s,
        {
            let (x, y) = batch.sample(s);
            let out: Vec<T> = self.forward(x, ops);
            let mut sum: T = ops.zero;
            let mut c: usize = 0;
            while c < out.len()
                invariant
                    ops.wf(),
                    out@.len() == y@.len(),
                    c <= out@.len(),
                    sum == ops.squared_error(out@, y@, c as nat),
                decreases out@.len() - c,
            {
                let d: T = ops.minus(out[c], y[c]);
                sum = ops.plus(sum, ops.times(d, d));
                c = c + 1;
            }
            total = ops.plus(total, sum);
            s = s + 1;
        }
        ops.over(total, n)
    }

    #[verifier::spinoff_prover]
    #[verifier::rlimit(50)]
    /// What one sample `(x, y)` adds to the gradient, by backpropagation:
    /// per layer a weight part and a bias part, of the shapes of the model's
    /// own weights and biases.
    pub fn sample_gradient<P, S, M, D, F, G>(&self, x: &[T], y: &[T], ops: &Arithmetic<T, P, S, M, D, F, G>) -> (g: (Vec<Mat<T>>, Vec<Mat<T>>))
        where
            P: Fn(T, T) -> T,
            S: Fn(T, T) -> T,
            M: Fn(T, T) -> T,
            D: Fn(T, usize) -> T,
            F: Fn(Activation, T) -> T,
            G: Fn(Activation, T) -> T,
        requires
            self.inv(),
            ops.wf(),
            x@.len() == self@.width(0),
            y@.len() == self@.width(self@.layers() as int),
        ensures
            shaped_like(g.0@, self@.weights),
            shaped_like(g.1@, self@.biases),
            forall|l: int| 0 <= l < self@.layers() ==> (#[trigger] g.0@[l])@ == ops.weight_part(self@, x@, y@, l as nat),
            forall|l: int| 0 <= l < self@.layers() ==> (#[trigger] g.1@[l])@ == ops.bias_part(self@, x@, y@, l as nat),
    {
        let row: Mat<T> = Mat::row_from_slice(x);
        proof {
            assert forall|i: int| 0 <= i <= self@.layers() implies row@.nrows() * #[trigger] self@.width(i)
                <= usize::MAX by {
                self.lemma_width_fits(i);
            }
            assert(row@.rows =~= row_of(x@).rows);
        }
        let acts: Vec<Mat<T>> = self.activate(&row, ops);
        let layers: usize = self.weights.len();
        let expected: Mat<T> = Mat::row_from_slice(y);
        let f = self.activation;
        let minus = |a: T, b: T| -> (r: T)
            requires
                ops.wf(),
            ensures
                r == ops.minus_of(a, b),
            { ops.minus(a, b) };
        let delta_of = |a: T, e: T| -> (r: T)
            requires
                ops.wf(),
            ensures
                r == ops.times_of(ops.slope_of(f, a), e),
            { ops.times(ops.slope(f, a), e) };
        proof {
            assert(acts@[layers as int].inv());
            acts@[layers as int].lemma_wf();
        }
        let mut error: Mat<T> = acts[layers].zip_with(&expected, minus);
        proof {
            error.lemma_wf();
            let want = ops.error_at(self@, x@, y@, layers as nat);
            assert forall|r: int, c: int| 0 <= r < error@.nrows() && 0 <= c < error@.cols implies #[trigger] error@.at(r, c)
                == want.at(r, c) by {
                assert(r == 0);
                assert(expected@.at(r, c) == y@[c]);
            }
            lemma_same_cells(error@, want);
        }
        let mut wg: Vec<Mat<T>> = zeros_like_all(&self.weights, ops.zero);
        let mut bg: Vec<Mat<T>> = zeros_like_all(&self.biases, ops.zero);
        let mut l: usize = layers;
        while l > 0
            invariant
                self.inv(),
                ops.wf(),
                f == self@.activation,
                layers == self@.layers(),
                l <= layers,
                forall|a: T, b: T| #[trigger] delta_of.requires((a, b)),
                forall|a: T, b: T, r: T| #[trigger] delta_of.ensures((a, b), r) ==> r == ops.times_of(ops.slope_of(f, a), b),
                acts@.len() == layers + 1,
                forall|i: int|
                    0 <= i < acts@.len() ==> {
                        &&& (#[trigger] acts@[i]).inv()
                        &&& acts@[i]@ == ops.activations(self@, row_of(x@), i as nat)
                        &&& acts@[i]@.nrows() == 1
                        &&& acts@[i]@.cols == self@.width(i)
                    },
                error.inv(),
                error@ == ops.error_at(self@, x@, y@, l as nat),
                error@.nrows() == 1,
                error@.cols == self@.width(l as int),
                shaped_like(wg@, self@.weights),
                shaped_like(bg@, self@.biases),
                forall|j: int|
                    l <= j < layers ==> (#[trigger] wg@[j])@ == ops.weight_part(self@, x@, y@, j as nat)
                        && bg@[j]@ == ops.bias_part(self@, x@, y@, j as nat),
            decreases l,
        {
            proof {
                assert(acts@[l as int].inv());
                assert(acts@[l - 1].inv());
                assert(self.weights@[l - 1].inv());
                assert(self@.weights[l - 1] == self.weights@[l - 1]@);
                assert(self@.biases[l - 1] == self.biases@[l - 1]@);
                self.weights@[l - 1].lemma_wf();
                self.lemma_width_fits(l - 1);
                acts@[l as int].lemma_wf();
                error.lemma_wf();
            }
            let delta: Mat<T> = acts[l].zip_with(&error, delta_of);
            proof {
                delta.lemma_wf();
                let want = ops.bias_part(self@, x@, y@, (l - 1) as nat);
                assert forall|r: int, c: int| 0 <= r < delta@.nrows() && 0 <= c < delta@.cols implies #[trigger] delta@.at(r, c)
                    == want.at(r, c) by {
                    assert(delta_of.ensures((acts@[l as int]@.at(r, c), error@.at(r, c)), delta@.at(r, c)));
                }
                lemma_same_cells(delta@, want);
            }
            let mut wt: Mat<T> = self.weights[l - 1].clone();
            wt.transpose();
            let prev: Mat<T> = product(ops, &delta, &wt);
            let mut at: Mat<T> = acts[l - 1].clone();
            at.transpose();
            proof {
                assert(at@.nrows() * delta@.cols == self@.weights[l - 1].nrows() * self@.weights[l - 1].cols);
            }
            let wd: Mat<T> = product(ops, &at, &delta);
            let ghost wg_before = wg@;
            let ghost bg_before = bg@;
            wg.set(l - 1, wd);
            bg.set(l - 1, delta);
            proof {
                assert forall|i: int| 0 <= i < wg@.len() implies {
                    &&& (#[trigger] wg@[i]).inv()
                    &&& wg@[i]@.nrows() == self@.weights[i].nrows()
                    &&& wg@[i]@.cols == self@.weights[i].cols
                } by {
                    if i != l - 1 {
                        assert(wg@[i] == wg_before[i]);
                    }
                }
                assert forall|i: int| 0 <= i < bg@.len() implies {
                    &&& (#[trigger] bg@[i]).inv()
                    &&& bg@[i]@.nrows() == self@.biases[i].nrows()
                    &&& bg@[i]@.cols == self@.biases[i].cols
                } by {
                    if i != l - 1 {
                        assert(bg@[i] == bg_before[i]);
                    }
                }
                assert forall|j: int| l - 1 <= j < layers implies (#[trigger] wg@[j])@ == ops.weight_part(
                    self@,
                    x@,
                    y@,
                    j as nat,
                ) && bg@[j]@ == ops.bias_part(self@, x@, y@, j as nat) by {
                    if j != l - 1 {
                        assert(wg@[j] == wg_before[j]);
                        assert(bg@[j] == bg_before[j]);
                    }
                }
            }
            error = prev;
            l = l - 1;
        }
        let g = (wg, bg);
        proof {
            assert(l == 0);
            assert forall|j: int| 0 <= j < self@.layers() implies (#[trigger] g.0@[j])@ == ops.weight_part(
                self@,
                x@,
                y@,
                j as nat,
            ) by {
                assert(g.0@[j] == wg@[j]);
            }
            assert forall|j: int| 0 <= j < self@.layers() implies (#[trigger] g.1@[j])@ == ops.bias_part(
                self@,
                x@,
                y@,
                j as nat,
            ) by {
                assert(wg@[j]@ == ops.weight_part(self@, x@, y@, j as nat));
                assert(g.1@[j] == bg@[j]);
            }
        }
        g
    }

    /// The gradient over a batch from the parts of its samples: the parts
    /// summed cell by cell, then each cell divided by the number of parts.
    pub fn combine<P, S, M, D, F, G>(&self, parts: &Vec<(Vec<Mat<T>>, Vec<Mat<T>>)>, ops: &Arithmetic<T, P, S, M, D, F, G>) -> (g: (Vec<Mat<T>>, Vec<Mat<T>>))
        where
            P: Fn(T, T) -> T,
            S: Fn(T, T) -> T,
            M: Fn(T, T) -> T,
            D: Fn(T, usize) -> T,
            F: Fn(Activation, T) -> T,
            G: Fn(Activation, T) -> T,
        requires
            self.inv(),
            ops.wf(),
            forall|k: int|
                0 <= k < parts@.len() ==> shaped_like((#[trigger] parts@[k]).0@, self@.weights)
                    && shaped_like(parts@[k].1@, self@.biases),
        ensures
            shaped_like(g.0@, self@.weights),
            shaped_like(g.1@, self@.biases),
            forall|l: int|
                0 <= l < self@.layers() ==> (#[trigger] g.0@[l])@ == ops.mean(
                    Seq::new(parts@.len(), |k: int| parts@[k].0@[l]@),
                    self@.weights[l],
                ) && g.1@[l]@ == ops.mean(Seq::new(parts@.len(), |k: int| parts@[k].1@[l]@), self@.biases[l]),
    {
        let n: usize = parts.len();
        let plus = |a: T, b: T| -> (r: T)
            requires
                ops.wf(),
            ensures
                r == ops.plus_of(a, b),
            { ops.plus(a, b) };
        let mean = |a: T| -> (r: T)
            requires
                ops.wf(),
            ensures
                r == ops.over_of(a, n),
            { ops.over(a, n) };
        let mut wg: Vec<Mat<T>> = zeros_like_all(&self.weights, ops.zero);
        let mut bg: Vec<Mat<T>> = zeros_like_all(&self.biases, ops.zero);
        proof {
            assert forall|l: int, r: int, c: int|
                0 <= l < wg@.len() && 0 <= r < self@.weights[l].nrows() && 0 <= c < self@.weights[l].cols
                    implies #[trigger] wg@[l]@.at(r, c) == ops.cell_sum(weight_parts(parts@, l), r, c, 0) by {
                assert(views(wg@)[l] == wg@[l]@);
                assert(wg@[l].inv());
            }
            assert forall|l: int, r: int, c: int|
                0 <= l < bg@.len() && 0 <= r < self@.biases[l].nrows() && 0 <= c < self@.biases[l].cols
                    implies #[trigger] bg@[l]@.at(r, c) == ops.cell_sum(bias_parts(parts@, l), r, c, 0) by {
                assert(views(bg@)[l] == bg@[l]@);
                assert(bg@[l].inv());
            }
        }
        let mut k: usize = 0;
        while k < n
            invariant
                self.inv(),
                ops.wf(),
                n == parts@.len(),
                k <= n,
                forall|a: T, b: T| #[trigger] plus.requires((a, b)),
                forall|a: T, b: T, r: T| #[trigger] plus.ensures((a, b), r) ==> r == ops.plus_of(a, b),
                forall|j: int|
                    0 <= j < parts@.len() ==> shaped_like((#[trigger] parts@[j]).0@, self@.weights)
                        && shaped_like(parts@[j].1@, self@.biases),
                shaped_like(wg@, self@.weights),
                shaped_like(bg@, self@.biases),
                forall|l: int, r: int, c: int|
                    0 <= l < wg@.len() && 0 <= r < self@.weights[l].nrows() && 0 <= c < self@.weights[l].cols
                        ==> #[trigger] wg@[l]@.at(r, c) == ops.cell_sum(weight_parts(parts@, l), r, c, k as nat),
                forall|l: int, r: int, c: int|
                    0 <= l < bg@.len() && 0 <= r < self@.biases[l].nrows() && 0 <= c < self@.biases[l].cols
                        ==> #[trigger] bg@[l]@.at(r, c) == ops.cell_sum(bias_parts(parts@, l), r, c, k as nat),
            decreases n - k,
        {
            proof {
                assert(shaped_like(parts@[k as int].0@, self@.weights));
                lemma_shape_trans(parts@[k as int].0@, wg@, self@.weights);
                lemma_shape_trans(parts@[k as int].1@, bg@, self@.biases);
                lemma_shape_trans(wg@, wg@, self@.weights);
                lemma_shape_trans(bg@, bg@, self@.biases);
            }
            let w2: Vec<Mat<T>> = step_all(&wg, &parts[k].0, &plus);
            let b2: Vec<Mat<T>> = step_all(&bg, &parts[k].1, &plus);
            proof {
                lemma_shape_back(w2@, wg@, self@.weights);
                lemma_shape_back(b2@, bg@, self@.biases);
                assert forall|l: int, r: int, c: int|
                    0 <= l < w2@.len() && 0 <= r < self@.weights[l].nrows() && 0 <= c < self@.weights[l].cols
                        implies #[trigger] w2@[l]@.at(r, c) == ops.cell_sum(weight_parts(parts@, l), r, c, (k + 1) as nat) by {
                    assert(wg@[l].inv());
                    assert(views(w2@)[l] == w2@[l]@);
                    assert(views(wg@)[l] == wg@[l]@);
                    assert(views(parts@[k as int].0@)[l] == parts@[k as int].0@[l]@);
                    assert(plus.ensures((wg@[l]@.at(r, c), parts@[k as int].0@[l]@.at(r, c)), w2@[l]@.at(r, c)));
                    assert(weight_parts(parts@, l)[k as int] == parts@[k as int].0@[l]@);
                }
                assert forall|l: int, r: int, c: int|
                    0 <= l < b2@.len() && 0 <= r < self@.biases[l].nrows() && 0 <= c < self@.biases[l].cols
                        implies #[trigger] b2@[l]@.at(r, c) == ops.cell_sum(bias_parts(parts@, l), r, c, (k + 1) as nat) by {
                    assert(bg@[l].inv());
                    assert(views(b2@)[l] == b2@[l]@);
                    assert(views(bg@)[l] == bg@[l]@);
                    assert(views(parts@[k as int].1@)[l] == parts@[k as int].1@[l]@);
                    assert(plus.ensures((bg@[l]@.at(r, c), parts@[k as int].1@[l]@.at(r, c)), b2@[l]@.at(r, c)));
                    assert(bias_parts(parts@, l)[k as int] == parts@[k as int].1@[l]@);
                }
            }
            wg = w2;
            bg = b2;
            k = k + 1;
        }
        proof {
            assert(forall|a: T| #[trigger] mean.requires((a,)));
        }
        let w3: Vec<Mat<T>> = map_all(&wg, mean);
        let b3: Vec<Mat<T>> = map_all(&bg, mean);
        proof {
            lemma_shape_trans(wg@, wg@, self@.weights);
            lemma_shape_trans(bg@, bg@, self@.biases);
            lemma_shape_back(w3@, wg@, self@.weights);
            lemma_shape_back(b3@, bg@, self@.biases);
            assert forall|l: int| 0 <= l < self@.layers() implies (#[trigger] w3@[l])@ == ops.mean(
                weight_parts(parts@, l),
                self@.weights[l],
            ) && b3@[l]@ == ops.mean(bias_parts(parts@, l), self@.biases[l]) by {
                assert(w3@[l].inv());
                assert(b3@[l].inv());
                assert(wg@[l].inv());
                assert(bg@[l].inv());
                w3@[l].lemma_wf();
                b3@[l].lemma_wf();
                assert forall|r: int, c: int| 0 <= r < w3@[l]@.nrows() && 0 <= c < w3@[l]@.cols implies #[trigger] w3@[l]@.at(r, c)
                    == ops.mean(weight_parts(parts@, l), self@.weights[l]).at(r, c) by {
                    assert(mean.ensures((wg@[l]@.at(r, c),), w3@[l]@.at(r, c)));
                    assert(wg@[l]@.at(r, c) == ops.cell_sum(weight_parts(parts@, l), r, c, n as nat));
                }
                lemma_same_cells(w3@[l]@, ops.mean(weight_parts(parts@, l), self@.weights[l]));
                assert forall|r: int, c: int| 0 <= r < b3@[l]@.nrows() && 0 <= c < b3@[l]@.cols implies #[trigger] b3@[l]@.at(r, c)
                    == ops.mean(bias_parts(parts@, l), self@.biases[l]).at(r, c) by {
                    assert(mean.ensures((bg@[l]@.at(r, c),), b3@[l]@.at(r, c)));
                    assert(bg@[l]@.at(r, c) == ops.cell_sum(bias_parts(parts@, l), r, c, n as nat));
                }
                lemma_same_cells(b3@[l]@, ops.mean(bias_parts(parts@, l), self@.biases[l]));
            }
        }
        (w3, b3)
    }

    /// The gradient of the cost over `batch`: per layer a weight part and a
    /// bias part, each the mean over the samples of what the sample adds.
    pub fn gradient<P, S, M, D, F, G>(&self, batch: &TrainingBatch<T>, ops: &Arithmetic<T, P, S, M, D, F, G>) -> (g: (Vec<Mat<T>>, Vec<Mat<T>>))
        where
            P: Fn(T, T) -> T,
            S: Fn(T, T) -> T,
            M: Fn(T, T) -> T,
            D: Fn(T, usize) -> T,
            F: Fn(Activation, T) -> T,
            G: Fn(Activation, T) -> T,
        requires
            self.inv(),
            ops.wf(),
            batch.inv(),
            batch@.input.cols == self@.width(0),
            batch@.expected.cols == self@.width(self@.layers() as int),
        ensures
            g.0@.len() == self@.layers(),
            g.1@.len() == self@.layers(),
            shaped_like(g.0@, self@.weights),
            shaped_like(g.1@, self@.biases),
            forall|l: int|
                0 <= l < self@.layers() ==> (#[trigger] g.0@[l])@ == ops.weight_gradient(self@, batch@, l as nat)
                    && g.1@[l]@ == ops.bias_gradient(self@, batch@, l as nat),
    {
        let n: usize = batch.len();
        let mut parts: Vec<(Vec<Mat<T>>, Vec<Mat<T>>)> = Vec::with_capacity(n);
        let mut s: usize = 0;
        while s < n
            invariant
                self.inv(),
                ops.wf(),
                batch.inv(),
                batch@.input.cols == self@.width(0),
                batch@.expected.cols == self@.width(self@.layers() as int),
                n == batch@.len(),
                s <= n,
                parts@.len() == s,
                forall|k: int|
                    0 <= k < parts@.len() ==> shaped_like((#[trigger] parts@[k]).0@, self@.weights)
                        && shaped_like(parts@[k].1@, self@.biases)
                        && forall|l: int|
                            0 <= l < self@.layers() ==> parts@[k].0@[l]@ == ops.weight_part(
                                self@,
                                batch@.input.rows[k],
                                batch@.expected.rows[k],
                                l as nat,
                            ) && parts@[k].1@[l]@ == ops.bias_part(
                                self@,
                                batch@.input.rows[k],
                                batch@.expected.rows[k],
                                l as nat,
                            ),
            decreases n - s,
        {
            let (x, y) = batch.sample(s);
            let part = self.sample_gradient(x, y, ops);
            let ghost parts_before = parts@;
            parts.push(part);
            proof {
                assert forall|k: int| 0 <= k < parts@.len() implies shaped_like((#[trigger] parts@[k]).0@, self@.weights)
                    && shaped_like(parts@[k].1@, self@.biases) && forall|l: int|
                    0 <= l < self@.layers() ==> parts@[k].0@[l]@ == ops.weight_part(
                        self@,
                        batch@.input.rows[k],
                        batch@.expected.rows[k],
                        l as nat,
                    ) && parts@[k].1@[l]@ == ops.bias_part(
                        self@,
                        batch@.input.rows[k],
                        batch@.expected.rows[k],
                        l as nat,
                    ) by {
                    if k < s {
                        assert(parts@[k] == parts_before[k]);
                    } else {
                        assert(parts@[k] == part);
                        assert forall|l: int| 0 <= l < self@.layers() implies parts@[k].0@[l]@ == ops.weight_part(
                            self@,
                            batch@.input.rows[k],
                            batch@.expected.rows[k],
                            l as nat,
                        ) && parts@[k].1@[l]@ == ops.bias_part(
                            self@,
                            batch@.input.rows[k],
                            batch@.expected.rows[k],
                            l as nat,
                        ) by {
                            assert(part.0@[l]@ == ops.weight_part(self@, x@, y@, l as nat));
                        }
                    }
                }
            }
            s = s + 1;
        }
        let g = self.combine(&parts, ops);
        proof {
            assert forall|l: int| 0 <= l < self@.layers() implies (#[trigger] g.0@[l])@ == ops.weight_gradient(
                self@,
                batch@,
                l as nat,
            ) && g.1@[l]@ == ops.bias_gradient(self@, batch@, l as nat) by {
                assert(weight_parts(parts@, l) =~= Seq::new(
                    batch@.len(),
                    |k: int| ops.weight_part(self@, batch@.input.rows[k], batch@.expected.rows[k], l as nat),
                ));
                assert(bias_parts(parts@, l) =~= Seq::new(
                    batch@.len(),
                    |k: int| ops.bias_part(self@, batch@.input.rows[k], batch@.expected.rows[k], l as nat),
                ));
            }
        }
        g
    }

    /// Every weight and bias matrix of a sound model is sound.
    proof fn lemma_parts_wf(&self)
        requires
            self.inv(),
        ensures
            forall|i: int| 0 <= i < self@.weights.len() ==> (#[trigger] self@.weights[i]).wf(),
            forall|i: int| 0 <= i < self@.biases.len() ==> (#[trigger] self@.biases[i]).wf(),
    {
        assert forall|i: int| 0 <= i < self@.biases.len() implies (#[trigger] self@.biases[i]).wf() by {
            assert(self@.weights[i].wf());
        }
    }

    /// Every layer width fits in a `usize`.
    proof fn lemma_width_fits(&self, i: int)
        requires
            self.inv(),
            0 <= i <= self@.layers(),
        ensures
            1 * self@.width(i) <= usize::MAX,
    {
        if i == 0 {
            assert(self.weights@[0].inv());
            self.weights@[0].lemma_wf();
            assert(self@.weights[0] == self.weights@[0]@);
        } else {
            let w = self.biases@[i - 1];
            assert(w.inv());
            w.lemma_wf();
            assert(self@.biases[i - 1] == w@);
        }
    }

    /// Carries every weight and every bias through `step` together with the
    /// gradient cell at the same place.
    pub fn learn_with<F: Fn(T, T) -> T>(&mut self, weight_gradient: Vec<Mat<T>>, bias_gradient: Vec<Mat<T>>, step: F)
        requires
            old(self).inv(),
            shaped_like(weight_gradient@, old(self)@.weights),
            shaped_like(bias_gradient@, old(self)@.biases),
            forall|x: T, y: T| #[trigger] step.requires((x, y)),
        ensures
            final(self).inv(),
            final(self)@.activation == old(self)@.activation,
            stepped(old(self)@.weights, views(weight_gradient@), final(self)@.weights, step),
            stepped(old(self)@.biases, views(bias_gradient@), final(self)@.biases, step),
    {
        let weights = step_all(&self.weights, &weight_gradient, &step);
        let biases = step_all(&self.biases, &bias_gradient, &step);
        let ghost before = self@;
        self.weights = weights;
        self.biases = biases;
        proof {
            assert(shaped_like(self.weights@, self@.weights));
            assert(shaped_like(self.biases@, self@.biases));
            assert forall|i: int| 0 <= i < self@.weights.len() implies {
                &&& (#[trigger] self@.weights[i]).wf()
                &&& self@.biases[i].wf()
                &&& self@.biases[i].nrows() == 1
                &&& self@.biases[i].cols == self@.weights[i].cols
            } by {
                self.weights@[i].lemma_wf();
                self.biases@[i].lemma_wf();
                assert(before.weights[i].nrows() == self@.weights[i].nrows());
                assert(before.biases[i].nrows() == self@.biases[i].nrows());
            }
            assert forall|i: int| 0 < i < self@.weights.len() implies (#[trigger] self@.weights[i]).nrows()
                == self@.weights[i - 1].cols by {
                assert(before.weights[i].nrows() == self@.weights[i].nrows());
                assert(before.weights[i - 1].cols == self@.weights[i - 1].cols);
            }
        }
    }

    /// One step of gradient descent: each parameter less `rate` times its
    /// gradient.
    pub fn learn<P, S, M, D, F, G>(
        &mut self,
        weight_gradient: Vec<Mat<T>>,
        bias_gradient: Vec<Mat<T>>,
        rate: T,
        ops: &Arithmetic<T, P, S, M, D, F, G>,
    )
        where
            P: Fn(T, T) -> T,
            S: Fn(T, T) -> T,
            M: Fn(T, T) -> T,
            D: Fn(T, usize) -> T,
            F: Fn(Activation, T) -> T,
            G: Fn(Activation, T) -> T,
        requires
            old(self).inv(),
            ops.wf(),
            shaped_like(weight_gradient@, old(self)@.weights),
            shaped_like(bias_gradient@, old(self)@.biases),
        ensures
            final(self).inv(),
            final(self)@.activation == old(self)@.activation,
            final(self)@.weights == ops.descend(old(self)@.weights, views(weight_gradient@), rate),
            final(self)@.biases == ops.descend(old(self)@.biases, views(bias_gradient@), rate),
    {
        let step = |w: T, g: T| -> (r: T)
            requires
                ops.wf(),
            ensures
                r == ops.minus_of(w, ops.times_of(g, rate)),
            { ops.minus(w, ops.times(g, rate)) };
        let ghost before = self@;
        let ghost wg = views(weight_gradient@);
        let ghost bg = views(bias_gradient@);
        proof {
            assert(forall|w: T, g: T| #[trigger] step.requires((w, g)));
            self.lemma_parts_wf();
        }
        self.learn_with(weight_gradient, bias_gradient, step);
        proof {
            self.lemma_parts_wf();
            lemma_stepped_is_descend(ops, before.weights, wg, self@.weights, step, rate);
            lemma_stepped_is_descend(ops, before.biases, bg, self@.biases, step, rate);
        }
    }

}

/// Each matrix of `ms` carried through `step` with the matrix of `grads` at
/// the same place.
fn step_all<T: Copy, F: Fn(T, T) -> T>(ms: &Vec<Mat<T>>, grads: &Vec<Mat<T>>, step: &F) -> (out: Vec<Mat<T>>)
    requires
        shaped_like(grads@, views(ms@)),
        shaped_like(ms@, views(ms@)),
        forall|x: T, y: T| #[trigger] step.requires((x, y)),
    ensures
        shaped_like(out@, views(ms@)),
        stepped(views(ms@), views(grads@), views(out@), step),
{
    let mut out: Vec<Mat<T>> = Vec::with_capacity(ms.len());
    let mut i: usize = 0;
    while i < ms.len()
        invariant
            shaped_like(grads@, views(ms@)),
            shaped_like(ms@, views(ms@)),
            forall|x: T, y: T| #[trigger] step.requires((x, y)),
            i <= ms@.len(),
            out@.len() == i,
            forall|j: int|
                0 <= j < i ==> {
                    &&& (#[trigger] out@[j]).inv()
                    &&& out@[j]@.nrows() == ms@[j]@.nrows()
                    &&& out@[j]@.cols == ms@[j]@.cols
                    &&& forall|r: int, c: int|
                        0 <= r < ms@[j]@.nrows() && 0 <= c < ms@[j]@.cols ==> step.ensures(
                            (ms@[j]@.at(r, c), grads@[j]@.at(r, c)),
                            #[trigger] out@[j]@.at(r, c),
                        )
                },
        decreases ms@.len() - i,
    {
        proof {
            assert(ms@[i as int].inv());
            assert(grads@[i as int].inv());
        }
        out.push(ms[i].zip_with(&grads[i], step));
        i = i + 1;
    }
    proof {
        assert forall|j: int| 0 <= j < out@.len() implies {
            &&& (#[trigger] out@[j]).inv()
            &&& out@[j]@.nrows() == views(ms@)[j].nrows()
            &&& out@[j]@.cols == views(ms@)[j].cols
        } by {
            assert(out@[j].inv());
        }
        assert forall|j: int| 0 <= j < ms@.len() implies {
            &&& (#[trigger] views(out@)[j]).nrows() == views(ms@)[j].nrows()
            &&& views(out@)[j].cols == views(ms@)[j].cols
            &&& forall|r: int, c: int|
                0 <= r < views(ms@)[j].nrows() && 0 <= c < views(ms@)[j].cols ==> step.ensures(
                    (views(ms@)[j].at(r, c), views(grads@)[j].at(r, c)),
                    #[trigger] views(out@)[j].at(r, c),
                )
        } by {
            assert(out@[j].inv());
        }
    }
    out
}


/// `a . b` under the products and sums of `ops`.
fn product<T: Copy, P, S, M, D, F, G>(ops: &Arithmetic<T, P, S, M, D, F, G>, a: &Mat<T>, b: &Mat<T>) -> (m: Mat<T>)
    where
        P: Fn(T, T) -> T,
        S: Fn(T, T) -> T,
        M: Fn(T, T) -> T,
        D: Fn(T, usize) -> T,
        F: Fn(Activation, T) -> T,
        G: Fn(Activation, T) -> T,
    requires
        ops.wf(),
        a.inv(),
        b.inv(),
        a@.cols == b@.nrows(),
        a@.nrows() * b@.cols <= usize::MAX,
    ensures
        m.inv(),
        m@ == ops.product(a@, b@),
{
    let mul_add = |acc: T, x: T, y: T| -> (r: T)
        requires
            ops.wf(),
        ensures
            r == ops.plus_of(acc, ops.times_of(x, y)),
        { ops.plus(acc, ops.times(x, y)) };
    proof {
        assert(forall|p: T, q: T, u: T| #[trigger] mul_add.requires((p, q, u)));
    }
    let m = a.dot(b, ops.zero, mul_add);
    proof {
        a.lemma_wf();
        b.lemma_wf();
        m.lemma_wf();
        let want = ops.product(a@, b@);
        assert forall|r: int, c: int| 0 <= r < m@.nrows() && 0 <= c < m@.cols implies #[trigger] m@.at(r, c)
            == want.at(r, c) by {
            let xs = a@.rows[r];
            let ys = crate::mat::column(b@, c);
            let accs = choose|accs: Seq<T>|
                #[trigger] crate::mat::is_run(mul_add, accs, xs, ys) && accs[0] == ops.zero && accs[xs.len() as int]
                    == m@.at(r, c);
            ops.lemma_run_is_dot(mul_add, accs, xs, ys, xs.len());
        }
        lemma_same_cells(m@, want);
    }
    m
}

/// One layer of a forward pass: `prev . w`, plus the bias row `b` in every
/// row, through the nonlinearity `f`.
fn layer_forward<T: Copy, P, S, M, D, F, G>(
    ops: &Arithmetic<T, P, S, M, D, F, G>,
    f: Activation,
    prev: &Mat<T>,
    w: &Mat<T>,
    b: &Mat<T>,
) -> (m: Mat<T>)
    where
        P: Fn(T, T) -> T,
        S: Fn(T, T) -> T,
        M: Fn(T, T) -> T,
        D: Fn(T, usize) -> T,
        F: Fn(Activation, T) -> T,
        G: Fn(Activation, T) -> T,
    requires
        ops.wf(),
        prev.inv(),
        w.inv(),
        b.inv(),
        prev@.cols == w@.nrows(),
        prev@.nrows() * w@.cols <= usize::MAX,
        b@.nrows() == 1,
        b@.cols == w@.cols,
    ensures
        m.inv(),
        m@ == ops.layer(f, prev@, w@, b@),
        m@.nrows() == prev@.nrows(),
        m@.cols == w@.cols,
{
    let z: Mat<T> = product(ops, prev, w);
    let fire = |v: T, c: T| -> (r: T)
        requires
            ops.wf(),
        ensures
            r == ops.fire_of(f, ops.plus_of(v, c)),
        { ops.fire(f, ops.plus(v, c)) };
    proof {
        b.lemma_wf();
        z.lemma_wf();
        assert(forall|p: T, q: T| #[trigger] fire.requires((p, q)));
    }
    let m = z.zip_each_row(b.get_row(0), fire);
    proof {
        m.lemma_wf();
        let want = ops.layer(f, prev@, w@, b@);
        assert forall|r: int, c: int| 0 <= r < m@.nrows() && 0 <= c < m@.cols implies #[trigger] m@.at(r, c)
            == want.at(r, c) by {
            assert(fire.ensures((z@.at(r, c), b@.rows[0][c]), m@.at(r, c)));
        }
        lemma_same_cells(m@, want);
    }
    m
}

/// A step that takes each parameter to `w - g * rate` is the descent of `ops`.
proof fn lemma_stepped_is_descend<T, P, S, M, D, F, G, H: Fn(T, T) -> T>(
    ops: &Arithmetic<T, P, S, M, D, F, G>,
    before: Seq<MatView<T>>,
    grads: Seq<MatView<T>>,
    after: Seq<MatView<T>>,
    step: H,
    rate: T,
)
    where
        P: Fn(T, T) -> T,
        S: Fn(T, T) -> T,
        M: Fn(T, T) -> T,
        D: Fn(T, usize) -> T,
        F: Fn(Activation, T) -> T,
        G: Fn(Activation, T) -> T,
    requires
        stepped(before, grads, after, step),
        forall|i: int| 0 <= i < before.len() ==> (#[trigger] before[i]).wf(),
        forall|i: int| 0 <= i < after.len() ==> (#[trigger] after[i]).wf(),
        forall|w: T, g: T, r: T| #[trigger] step.ensures((w, g), r) ==> r == ops.minus_of(w, ops.times_of(g, rate)),
    ensures
        after == ops.descend(before, grads, rate),
{
    let want = ops.descend(before, grads, rate);
    assert forall|i: int| 0 <= i < before.len() implies #[trigger] after[i] == want[i] by {
        assert(before[i].wf());
        assert(after[i].wf());
        assert forall|r: int, c: int| 0 <= r < after[i].nrows() && 0 <= c < after[i].cols implies #[trigger] after[i].at(r, c)
            == want[i].at(r, c) by {
            assert(step.ensures((before[i].at(r, c), grads[i].at(r, c)), after[i].at(r, c)));
        }
        lemma_same_cells(after[i], want[i]);
    }
    assert(after =~= want);
}

/// Gradient descent with a gradient that is zero everywhere leaves every
/// parameter as it was, when subtracting `zero * rate` leaves a value alone.
pub proof fn lemma_descend_zero<T, P, S, M, D, F, G>(
    ops: &Arithmetic<T, P, S, M, D, F, G>,
    ps: Seq<MatView<T>>,
    gs: Seq<MatView<T>>,
    rate: T,
)
    where
        P: Fn(T, T) -> T,
        S: Fn(T, T) -> T,
        M: Fn(T, T) -> T,
        D: Fn(T, usize) -> T,
        F: Fn(Activation, T) -> T,
        G: Fn(Activation, T) -> T,
    requires
        forall|i: int| 0 <= i < ps.len() ==> (#[trigger] ps[i]).wf(),
        gs.len() == ps.len(),
        forall|i: int| 0 <= i < ps.len() ==> (#[trigger] gs[i]).nrows() == ps[i].nrows() && gs[i].cols == ps[i].cols,
        all_cells(gs, ops.zero),
        forall|w: T| #[trigger] ops.minus_of(w, ops.times_of(ops.zero, rate)) == w,
    ensures
        ops.descend(ps, gs, rate) == ps,
{
    let d = ops.descend(ps, gs, rate);
    assert forall|i: int| 0 <= i < ps.len() implies #[trigger] d[i] == ps[i] by {
        assert(ps[i].wf());
        assert forall|r: int, c: int| 0 <= r < ps[i].nrows() && 0 <= c < ps[i].cols implies #[trigger] d[i].at(r, c)
            == ps[i].at(r, c) by {
            assert(gs[i].at(r, c) == ops.zero);
            assert(ops.minus_of(ps[i].at(r, c), ops.times_of(ops.zero, rate)) == ps[i].at(r, c));
        }
        lemma_same_cells(d[i], ps[i]);
    }
    assert(d =~= ps);
}

/// Two sequences of matrices shaped like a third are shaped like each other.
proof fn lemma_shape_trans<T: Copy>(a: Seq<Mat<T>>, b: Seq<Mat<T>>, shapes: Seq<MatView<T>>)
    requires
        shaped_like(a, shapes),
        shaped_like(b, shapes),
    ensures
        shaped_like(a, views(b)),
{
    assert forall|i: int| 0 <= i < a.len() implies {
        &&& (#[trigger] a[i]).inv()
        &&& a[i]@.nrows() == views(b)[i].nrows()
        &&& a[i]@.cols == views(b)[i].cols
    } by {
        assert(b[i].inv());
    }
}

/// Shaped like a sequence that is shaped like `shapes` is shaped like `shapes`.
proof fn lemma_shape_back<T: Copy>(a: Seq<Mat<T>>, b: Seq<Mat<T>>, shapes: Seq<MatView<T>>)
    requires
        shaped_like(a, views(b)),
        shaped_like(b, shapes),
    ensures
        shaped_like(a, shapes),
{
    assert forall|i: int| 0 <= i < a.len() implies {
        &&& (#[trigger] a[i]).inv()
        &&& a[i]@.nrows() == shapes[i].nrows()
        &&& a[i]@.cols == shapes[i].cols
    } by {
        assert(b[i].inv());
        assert(a[i].inv());
    }
}

/// Matrices of the shapes of those of `ms`, each cell holding `zero`.
fn zeros_like_all<T: Copy>(ms: &Vec<Mat<T>>, zero: T) -> (out: Vec<Mat<T>>)
    requires
        forall|i: int| 0 <= i < ms@.len() ==> (#[trigger] ms@[i]).inv(),
    ensures
        shaped_like(out@, views(ms@)),
        all_cells(views(out@), zero),
{
    let mut out: Vec<Mat<T>> = Vec::with_capacity(ms.len());
    let mut i: usize = 0;
    while i < ms.len()
        invariant
            forall|j: int| 0 <= j < ms@.len() ==> (#[trigger] ms@[j]).inv(),
            i <= ms@.len(),
            out@.len() == i,
            forall|j: int|
                0 <= j < i ==> {
                    &&& (#[trigger] out@[j]).inv()
                    &&& out@[j]@.nrows() == ms@[j]@.nrows()
                    &&& out@[j]@.cols == ms@[j]@.cols
                    &&& forall|r: int, c: int|
                        0 <= r < out@[j]@.nrows() && 0 <= c < out@[j]@.cols ==> #[trigger] out@[j]@.at(r, c) == zero
                },
        decreases ms@.len() - i,
    {
        proof {
            assert(ms@[i as int].inv());
        }
        out.push(Mat::clone_zero(&ms[i], zero));
        i = i + 1;
    }
    proof {
        assert forall|j: int| 0 <= j < out@.len() implies {
            &&& (#[trigger] out@[j]).inv()
            &&& out@[j]@.nrows() == views(ms@)[j].nrows()
            &&& out@[j]@.cols == views(ms@)[j].cols
        } by {
            assert(out@[j].inv());
        }
        assert forall|j: int, r: int, c: int|
            0 <= j < views(out@).len() && 0 <= r < views(out@)[j].nrows() && 0 <= c < views(out@)[j].cols
                implies #[trigger] views(out@)[j].at(r, c) == zero by {
            assert(out@[j].inv());
        }
    }
    out
}

/// Each matrix of `ms` with `f` applied to each cell.
fn map_all<T: Copy, F: Fn(T) -> T>(ms: &Vec<Mat<T>>, f: F) -> (out: Vec<Mat<T>>)
    requires
        forall|i: int| 0 <= i < ms@.len() ==> (#[trigger] ms@[i]).inv(),
        forall|x: T| #[trigger] f.requires((x,)),
    ensures
        shaped_like(out@, views(ms@)),
        forall|j: int, r: int, c: int|
            0 <= j < ms@.len() && 0 <= r < ms@[j]@.nrows() && 0 <= c < ms@[j]@.cols ==> f.ensures(
                (ms@[j]@.at(r, c),),
                #[trigger] out@[j]@.at(r, c),
            ),
{
    let mut out: Vec<Mat<T>> = Vec::with_capacity(ms.len());
    let mut i: usize = 0;
    while i < ms.len()
        invariant
            forall|j: int| 0 <= j < ms@.len() ==> (#[trigger] ms@[j]).inv(),
            forall|x: T| #[trigger] f.requires((x,)),
            i <= ms@.len(),
            out@.len() == i,
            forall|j: int|
                0 <= j < i ==> {
                    &&& (#[trigger] out@[j]).inv()
                    &&& out@[j]@.nrows() == ms@[j]@.nrows()
                    &&& out@[j]@.cols == ms@[j]@.cols
                },
            forall|j: int, r: int, c: int|
                0 <= j < i && 0 <= r < ms@[j]@.nrows() && 0 <= c < ms@[j]@.cols ==> f.ensures(
                    (ms@[j]@.at(r, c),),
                    #[trigger] out@[j]@.at(r, c),
                ),
        decreases ms@.len() - i,
    {
        proof {
            assert(ms@[i as int].inv());
        }
        out.push(ms[i].map(&f));
        i = i + 1;
    }
    proof {
        assert forall|j: int| 0 <= j < out@.len() implies {
            &&& (#[trigger] out@[j]).inv()
            &&& out@[j]@.nrows() == views(ms@)[j].nrows()
            &&& out@[j]@.cols == views(ms@)[j].cols
        } by {
            assert(out@[j].inv());
        }
    }
    out
}

} // verus!
