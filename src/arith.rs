use vstd::prelude::*;
use crate::act::Activation;
use crate::batch::BatchView;
use crate::mat::{column, is_run, MatView};
use crate::nn::ModelView;

verus! {

/// A one-row matrix holding `x`.
pub open spec fn row_of<T>(x: Seq<T>) -> MatView<T> {
    MatView { cols: x.len(), rows: seq![x] }
}

/// The scalar operations that a model computes with, given by the caller:
/// the library holds no number type of its own.
pub struct Arithmetic<T, P, S, M, D, F, G> {
    pub zero: T,
    /// `a + b`.
    pub plus: P,
    /// `a - b`.
    pub minus: S,
    /// `a * b`.
    pub times: M,
    /// `a` divided by a count.
    pub over: D,
    /// The nonlinearity at a value.
    pub fire: F,
    /// The derivative of the nonlinearity, given the activated value of a unit.
    pub slope: G,
}

impl<T, P, S, M, D, F, G> Arithmetic<T, P, S, M, D, F, G> where
    P: Fn(T, T) -> T,
    S: Fn(T, T) -> T,
    M: Fn(T, T) -> T,
    D: Fn(T, usize) -> T,
    F: Fn(Activation, T) -> T,
    G: Fn(Activation, T) -> T,
 {
    /// Every operation accepts all arguments and gives one result for each.
    pub open spec fn wf(&self) -> bool {
        &&& forall|a: T, b: T| #[trigger] self.plus.requires((a, b))
        &&& forall|a: T, b: T, x: T, y: T|
            #[trigger] self.plus.ensures((a, b), x) && #[trigger] self.plus.ensures((a, b), y) ==> x == y
        &&& forall|a: T, b: T| #[trigger] self.minus.requires((a, b))
        &&& forall|a: T, b: T, x: T, y: T|
            #[trigger] self.minus.ensures((a, b), x) && #[trigger] self.minus.ensures((a, b), y) ==> x == y
        &&& forall|a: T, b: T| #[trigger] self.times.requires((a, b))
        &&& forall|a: T, b: T, x: T, y: T|
            #[trigger] self.times.ensures((a, b), x) && #[trigger] self.times.ensures((a, b), y) ==> x == y
        &&& forall|a: T, n: usize| #[trigger] self.over.requires((a, n))
        &&& forall|a: T, n: usize, x: T, y: T|
            #[trigger] self.over.ensures((a, n), x) && #[trigger] self.over.ensures((a, n), y) ==> x == y
        &&& forall|f: Activation, a: T| #[trigger] self.fire.requires((f, a))
        &&& forall|f: Activation, a: T, x: T, y: T|
            #[trigger] self.fire.ensures((f, a), x) && #[trigger] self.fire.ensures((f, a), y) ==> x == y
        &&& forall|f: Activation, a: T| #[trigger] self.slope.requires((f, a))
        &&& forall|f: Activation, a: T, x: T, y: T|
            #[trigger] self.slope.ensures((f, a), x) && #[trigger] self.slope.ensures((f, a), y) ==> x == y
    }

    pub open spec fn plus_of(&self, a: T, b: T) -> T {
        choose|r: T| self.plus.ensures((a, b), r)
    }

    pub open spec fn minus_of(&self, a: T, b: T) -> T {
        choose|r: T| self.minus.ensures((a, b), r)
    }

    pub open spec fn times_of(&self, a: T, b: T) -> T {
        choose|r: T| self.times.ensures((a, b), r)
    }

    pub open spec fn over_of(&self, a: T, n: usize) -> T {
        choose|r: T| self.over.ensures((a, n), r)
    }

    pub open spec fn fire_of(&self, f: Activation, a: T) -> T {
        choose|r: T| self.fire.ensures((f, a), r)
    }

    pub open spec fn slope_of(&self, f: Activation, a: T) -> T {
        choose|r: T| self.slope.ensures((f, a), r)
    }

    /// `acc` plus the products of the first `n` pairs of `xs` and `ys`, added
    /// one after the other.
    pub open spec fn dot_of(&self, acc: T, xs: Seq<T>, ys: Seq<T>, n: nat) -> T
        decreases n,
    {
        if n == 0 {
            acc
        } else {
            self.plus_of(self.dot_of(acc, xs, ys, (n - 1) as nat), self.times_of(xs[n - 1], ys[n - 1]))
        }
    }

    /// The matrix product `a . b`.
    pub open spec fn product(&self, a: MatView<T>, b: MatView<T>) -> MatView<T> {
        MatView {
            cols: b.cols,
            rows: Seq::new(
                a.nrows(),
                |r: int| Seq::new(b.cols, |c: int| self.dot_of(self.zero, a.rows[r], column(b, c), a.cols)),
            ),
        }
    }

    /// One layer: `prev . w`, plus the bias row in every row, through the
    /// nonlinearity `f`.
    pub open spec fn layer(&self, f: Activation, prev: MatView<T>, w: MatView<T>, bias: MatView<T>) -> MatView<T> {
        MatView {
            cols: w.cols,
            rows: Seq::new(
                prev.nrows(),
                |r: int|
                    Seq::new(
                        w.cols,
                        |c: int| self.fire_of(f, self.plus_of(self.product(prev, w).rows[r][c], bias.at(0, c))),
                    ),
            ),
        }
    }

    /// The output of layer `k` of `m` for the rows of `input`, layer 0 being
    /// the input itself.
    pub open spec fn activations(&self, m: ModelView<T>, input: MatView<T>, k: nat) -> MatView<T>
        decreases k,
    {
        if k == 0 {
            input
        } else {
            self.layer(
                m.activation,
                self.activations(m, input, (k - 1) as nat),
                m.weights[k - 1],
                m.biases[k - 1],
            )
        }
    }

    /// The output of the last layer of `m` for the input row `x`.
    pub open spec fn output(&self, m: ModelView<T>, x: Seq<T>) -> Seq<T> {
        self.activations(m, row_of(x), m.layers()).rows[0]
    }

    /// The squared differences of the first `n` entries of `out` and `y`, summed.
    pub open spec fn squared_error(&self, out: Seq<T>, y: Seq<T>, n: nat) -> T
        decreases n,
    {
        if n == 0 {
            self.zero
        } else {
            let d = self.minus_of(out[n - 1], y[n - 1]);
            self.plus_of(self.squared_error(out, y, (n - 1) as nat), self.times_of(d, d))
        }
    }

    /// The squared errors of the first `k` samples of `b`, summed.
    pub open spec fn error_sum(&self, m: ModelView<T>, b: BatchView<T>, k: nat) -> T
        decreases k,
    {
        if k == 0 {
            self.zero
        } else {
            let out = self.output(m, b.input.rows[k - 1]);
            self.plus_of(self.error_sum(m, b, (k - 1) as nat), self.squared_error(out, b.expected.rows[k - 1], out.len()))
        }
    }

    /// The cost of `m` on `b`: the summed squared errors divided by the number
    /// of samples.
    pub open spec fn cost_of(&self, m: ModelView<T>, b: BatchView<T>) -> T {
        self.over_of(self.error_sum(m, b, b.len()), b.len() as usize)
    }

    /// Each parameter less `rate` times the gradient cell at the same place.
    pub open spec fn descend(&self, ps: Seq<MatView<T>>, gs: Seq<MatView<T>>, rate: T) -> Seq<MatView<T>> {
        Seq::new(
            ps.len(),
            |i: int|
                MatView {
                    cols: ps[i].cols,
                    rows: Seq::new(
                        ps[i].nrows(),
                        |r: int|
                            Seq::new(
                                ps[i].cols,
                                |c: int| self.minus_of(ps[i].at(r, c), self.times_of(gs[i].at(r, c), rate)),
                            ),
                    ),
                },
        )
    }

    /// The error signal of a layer: the derivative at each activated value
    /// times the error at the same place.
    pub open spec fn delta(&self, f: Activation, act: MatView<T>, err: MatView<T>) -> MatView<T> {
        MatView {
            cols: act.cols,
            rows: Seq::new(
                act.nrows(),
                |r: int| Seq::new(act.cols, |c: int| self.times_of(self.slope_of(f, act.at(r, c)), err.at(r, c))),
            ),
        }
    }

    /// The error at the output of layer `l` for the sample `(x, y)`: at the
    /// last layer the output less `y`; below it, the error signal of the layer
    /// above times its transposed weights.
    pub open spec fn error_at(&self, m: ModelView<T>, x: Seq<T>, y: Seq<T>, l: nat) -> MatView<T>
        decreases m.layers() - l,
    {
        if l >= m.layers() {
            let out = self.activations(m, row_of(x), m.layers());
            MatView {
                cols: out.cols,
                rows: Seq::new(
                    out.nrows(),
                    |r: int| Seq::new(out.cols, |c: int| self.minus_of(out.at(r, c), y[c])),
                ),
            }
        } else {
            self.product(
                self.delta(
                    m.activation,
                    self.activations(m, row_of(x), l + 1),
                    self.error_at(m, x, y, l + 1),
                ),
                m.weights[l as int].transposed(),
            )
        }
    }

    /// What the sample `(x, y)` adds to the gradient of the biases of layer `l`.
    pub open spec fn bias_part(&self, m: ModelView<T>, x: Seq<T>, y: Seq<T>, l: nat) -> MatView<T> {
        self.delta(m.activation, self.activations(m, row_of(x), l + 1), self.error_at(m, x, y, l + 1))
    }

    /// What the sample `(x, y)` adds to the gradient of the weights of layer `l`.
    pub open spec fn weight_part(&self, m: ModelView<T>, x: Seq<T>, y: Seq<T>, l: nat) -> MatView<T> {
        self.product(self.activations(m, row_of(x), l).transposed(), self.bias_part(m, x, y, l))
    }

    /// Cell `(r, c)` of the first `k` of `parts`, added one after the other.
    pub open spec fn cell_sum(&self, parts: Seq<MatView<T>>, r: int, c: int, k: nat) -> T
        decreases k,
    {
        if k == 0 {
            self.zero
        } else {
            self.plus_of(self.cell_sum(parts, r, c, (k - 1) as nat), parts[k - 1].at(r, c))
        }
    }

    /// The mean of `parts` cell by cell, in the shape of `shape`.
    pub open spec fn mean(&self, parts: Seq<MatView<T>>, shape: MatView<T>) -> MatView<T> {
        MatView {
            cols: shape.cols,
            rows: Seq::new(
                shape.nrows(),
                |r: int|
                    Seq::new(
                        shape.cols,
                        |c: int| self.over_of(self.cell_sum(parts, r, c, parts.len()), parts.len() as usize),
                    ),
            ),
        }
    }

    /// The weight gradient of layer `l` over `b`: the mean of what its samples add.
    pub open spec fn weight_gradient(&self, m: ModelView<T>, b: BatchView<T>, l: nat) -> MatView<T> {
        self.mean(
            Seq::new(b.len(), |s: int| self.weight_part(m, b.input.rows[s], b.expected.rows[s], l)),
            m.weights[l as int],
        )
    }

    /// The bias gradient of layer `l` over `b`: the mean of what its samples add.
    pub open spec fn bias_gradient(&self, m: ModelView<T>, b: BatchView<T>, l: nat) -> MatView<T> {
        self.mean(
            Seq::new(b.len(), |s: int| self.bias_part(m, b.input.rows[s], b.expected.rows[s], l)),
            m.biases[l as int],
        )
    }

    /// A run of a closure that adds products is the dot product.
    pub proof fn lemma_run_is_dot<H: Fn(T, T, T) -> T>(&self, f: H, accs: Seq<T>, xs: Seq<T>, ys: Seq<T>, k: nat)
        requires
            is_run(f, accs, xs, ys),
            k <= xs.len(),
            forall|a: T, x: T, y: T, r: T| #[trigger] f.ensures((a, x, y), r) ==> r == self.plus_of(a, self.times_of(x, y)),
        ensures
            accs[k as int] == self.dot_of(accs[0], xs, ys, k),
        decreases k,
    {
        if k > 0 {
            self.lemma_run_is_dot(f, accs, xs, ys, (k - 1) as nat);
            let j: int = k - 1;
            assert(f.ensures((accs[j], xs[j], ys[j]), accs[j + 1]));
        }
    }

    pub fn plus(&self, a: T, b: T) -> (r: T)
        requires
            self.wf(),
        ensures
            r == self.plus_of(a, b),
    {
        let r = (self.plus)(a, b);
        proof {
            assert(self.plus.ensures((a, b), self.plus_of(a, b)));
        }
        r
    }

    pub fn minus(&self, a: T, b: T) -> (r: T)
        requires
            self.wf(),
        ensures
            r == self.minus_of(a, b),
    {
        let r = (self.minus)(a, b);
        proof {
            assert(self.minus.ensures((a, b), self.minus_of(a, b)));
        }
        r
    }

    pub fn times(&self, a: T, b: T) -> (r: T)
        requires
            self.wf(),
        ensures
            r == self.times_of(a, b),
    {
        let r = (self.times)(a, b);
        proof {
            assert(self.times.ensures((a, b), self.times_of(a, b)));
        }
        r
    }

    pub fn over(&self, a: T, n: usize) -> (r: T)
        requires
            self.wf(),
        ensures
            r == self.over_of(a, n),
    {
        let r = (self.over)(a, n);
        proof {
            assert(self.over.ensures((a, n), self.over_of(a, n)));
        }
        r
    }

    pub fn fire(&self, f: Activation, a: T) -> (r: T)
        requires
            self.wf(),
        ensures
            r == self.fire_of(f, a),
    {
        let r = (self.fire)(f, a);
        proof {
            assert(self.fire.ensures((f, a), self.fire_of(f, a)));
        }
        r
    }

    pub fn slope(&self, f: Activation, a: T) -> (r: T)
        requires
            self.wf(),
        ensures
            r == self.slope_of(f, a),
    {
        let r = (self.slope)(f, a);
        proof {
            assert(self.slope.ensures((f, a), self.slope_of(f, a)));
        }
        r
    }

}

} // verus!
