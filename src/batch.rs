use vstd::prelude::*;
use vstd::arithmetic::div_mod::{
    lemma_add_mod_noop_right,
    lemma_fundamental_div_mod,
    lemma_fundamental_div_mod_converse,
    lemma_small_mod,
};
use crate::mat::{Mat, MatView};

verus! {

/// Relies on `rand::random`: it draws a value of the requested type; nothing
/// is known of which.
pub assume_specification<T>[ rand::random::<T> ]() -> (r: T)
    where
        rand::distributions::Standard: rand::distributions::Distribution<T>,
;

/// `(i + d) % n`, computed without leaving the range of `usize`.
pub fn add_mod(i: usize, d: usize, n: usize) -> (r: usize)
    requires
        i < n,
    ensures
        r == (i + d) % (n as int),
        r < n,
{
    let dd: usize = d % n;
    proof {
        lemma_fundamental_div_mod(d as int, n as int);
    }
    if dd >= n - i {
        proof {
            let q = d as int / n as int;
            assert((q + 1) * n == n * q + n) by (nonlinear_arith);
            lemma_fundamental_div_mod_converse(i + d, n as int, q + 1, i + dd - n);
        }
        dd - (n - i)
    } else {
        proof {
            let q = d as int / n as int;
            assert(q * n == n * q) by (nonlinear_arith);
            lemma_fundamental_div_mod_converse(i + d, n as int, q, i + dd);
        }
        i + dd
    }
}

/// The sample that `next_chunk` takes as the `i`-th of a chunk drawn at
/// `cursor`, when it skips `d` samples further.
pub open spec fn stride_index(cursor: int, i: int, d: int, n: int) -> int {
    (cursor + 2 * i + d) % n
}

/// `x` and `y` are the input and expected rows of one of the samples that
/// `next_chunk`, at `cursor`, may take as its `i`-th.
pub open spec fn picked<T>(
    inputs: Seq<Seq<T>>,
    expecteds: Seq<Seq<T>>,
    x: Seq<T>,
    y: Seq<T>,
    cursor: int,
    i: int,
) -> bool {
    exists|d: int|
        0 <= d < 3 && x == inputs[#[trigger] stride_index(cursor, i, d, inputs.len() as int)] && y
            == expecteds[stride_index(cursor, i, d, inputs.len() as int)]
}

/// What a batch holds: inputs and expected outputs, one sample per row, and
/// the row at which `next_chunk` goes on.
pub struct BatchView<T> {
    pub input: MatView<T>,
    pub expected: MatView<T>,
    pub cursor: nat,
}

impl<T> BatchView<T> {
    /// The number of samples.
    pub open spec fn len(self) -> nat {
        self.input.nrows()
    }

    /// The batch of `size` samples that starts at sample `offset` and wraps
    /// round to the first sample after the last one.
    pub open spec fn window(self, offset: int, size: nat) -> BatchView<T> {
        BatchView {
            input: MatView {
                cols: self.input.cols,
                rows: Seq::new(size, |i: int| self.input.rows[(offset + i) % (self.len() as int)]),
            },
            expected: MatView {
                cols: self.expected.cols,
                rows: Seq::new(size, |i: int| self.expected.rows[(offset + i) % (self.len() as int)]),
            },
            cursor: 0,
        }
    }
}

/// Paired inputs and expected outputs for training.
pub struct TrainingBatch<T> {
    input: Mat<T>,
    expected: Mat<T>,
    index: usize,
}

impl<T> View for TrainingBatch<T> {
    type V = BatchView<T>;

    closed spec fn view(&self) -> BatchView<T> {
        BatchView { input: self.input@, expected: self.expected@, cursor: self.index as nat }
    }
}

impl<T: Copy> TrainingBatch<T> {
    /// Both matrices are sound and have one row per sample; the cursor points
    /// at a sample.
    pub closed spec fn inv(&self) -> bool {
        &&& self.input.inv()
        &&& self.expected.inv()
        &&& self.input@.nrows() == self.expected@.nrows()
        &&& (self.index < self.input@.nrows() || self.index == 0)
    }

    /// A batch of the samples whose inputs are the rows of `input` and whose
    /// expected outputs are the rows of `expected`.
    pub fn new(input: Mat<T>, expected: Mat<T>) -> (b: TrainingBatch<T>)
        requires
            input.inv(),
            expected.inv(),
            input@.nrows() == expected@.nrows(),
        ensures
            b.inv(),
            b@.input == input@,
            b@.expected == expected@,
            b@.cursor == 0,
    {
        TrainingBatch { input, expected, index: 0 }
    }

    /// The number of samples.
    pub fn len(&self) -> (n: usize)
        requires
            self.inv(),
        ensures
            n == self@.len(),
    {
        self.input.rows()
    }

    /// The inputs, one sample per row.
    pub fn input(&self) -> (m: &Mat<T>)
        requires
            self.inv(),
        ensures
            m.inv(),
            m@ == self@.input,
    {
        &self.input
    }

    /// The expected outputs, one sample per row.
    pub fn expected(&self) -> (m: &Mat<T>)
        requires
            self.inv(),
        ensures
            m.inv(),
            m@ == self@.expected,
    {
        &self.expected
    }

    /// Sample `i`: its input row and its expected row.
    pub fn sample(&self, i: usize) -> (s: (&[T], &[T]))
        requires
            self.inv(),
            i < self@.len(),
        ensures
            s.0@ == self@.input.rows[i as int],
            s.1@ == self@.expected.rows[i as int],
            s.0@.len() == self@.input.cols,
            s.1@.len() == self@.expected.cols,
    {
        proof {
            self.input.lemma_wf();
            self.expected.lemma_wf();
        }
        (self.input.get_row(i), self.expected.get_row(i))
    }

    /// The `size` samples that start at sample `offset % len`, wrapping round
    /// to the first sample after the last.
    pub fn chunk_at(&self, offset: usize, size: usize) -> (b: TrainingBatch<T>)
        requires
            self.inv(),
            self@.len() > 0 || size == 0,
        ensures
            b.inv(),
            b@ == self@.window(offset as int, size as nat),
    {
        let n: usize = self.input.rows();
        let mut input: Mat<T> = Mat::empty(self.input.cols());
        let mut expected: Mat<T> = Mat::empty(self.expected.cols());
        let ghost want = self@.window(offset as int, size as nat);
        let mut idx: usize = 0;
        if n > 0 {
            idx = add_mod(0, offset, n);
        }
        let mut i: usize = 0;
        while i < size
            invariant
                self.inv(),
                n == self@.len(),
                n > 0 || size == 0,
                i <= size,
                n > 0 ==> idx == (offset + i) % (n as int),
                input.inv(),
                expected.inv(),
                want == self@.window(offset as int, size as nat),
                input@.cols == self@.input.cols,
                expected@.cols == self@.expected.cols,
                input@.rows == want.input.rows.take(i as int),
                expected@.rows == want.expected.rows.take(i as int),
            decreases size - i,
        {
            proof {
                self.input.lemma_wf();
                self.expected.lemma_wf();
            }
            let (x, y) = self.sample(idx);
            input.add_row(x);
            expected.add_row(y);
            proof {
                assert(input@.rows =~= want.input.rows.take(i + 1));
                assert(expected@.rows =~= want.expected.rows.take(i + 1));
            }
            idx = add_mod(idx, 1, n);
            proof {
                lemma_add_mod_noop_right(1, offset + i, n as int);
            }
            i = i + 1;
        }
        proof {
            assert(input@.rows =~= want.input.rows);
            assert(expected@.rows =~= want.expected.rows);
        }
        TrainingBatch::new(input, expected)
    }

    /// `size` consecutive samples from a randomly drawn starting sample,
    /// wrapping round to the first sample after the last.
    pub fn random_chunk(&self, size: usize) -> (b: TrainingBatch<T>)
        requires
            self.inv(),
            self@.len() > 0 || size == 0,
        ensures
            b.inv(),
            self@.len() > 0 ==> exists|o: int|
                0 <= o < self@.len() && b@ == #[trigger] self@.window(o, size as nat),
            self@.len() == 0 ==> b@ == self@.window(0, 0),
    {
        let offset: usize = rand::random::<usize>();
        let b = self.chunk_at(offset, size);
        proof {
            let n = self@.len() as int;
            if n > 0 {
                let o = offset as int % n;
                assert forall|i: int| 0 <= i < size implies (offset + i) % n == #[trigger] (o + i) % n by {
                    lemma_add_mod_noop_right(i, offset as int, n);
                }
                assert(b@.input.rows =~= self@.window(o, size as nat).input.rows);
                assert(b@.expected.rows =~= self@.window(o, size as nat).expected.rows);
                assert(b@ == self@.window(o, size as nat));
            } else {
                assert(b@.input.rows =~= self@.window(0, 0).input.rows);
                assert(b@.expected.rows =~= self@.window(0, 0).expected.rows);
            }
        }
        b
    }
    /// `size` samples taken from the cursor on: the `i`-th is the sample
    /// `2 * i` places past the cursor and then zero, one or two more at
    /// random, wrapping round after the last. The cursor moves `size` samples on.
    pub fn next_chunk(&mut self, size: usize) -> (b: TrainingBatch<T>)
        requires
            old(self).inv(),
            old(self)@.len() > 0 || size == 0,
        ensures
            final(self).inv(),
            final(self)@.input == old(self)@.input,
            final(self)@.expected == old(self)@.expected,
            old(self)@.len() > 0 ==> final(self)@.cursor == (old(self)@.cursor + size) % (old(self)@.len() as int),
            old(self)@.len() == 0 ==> final(self)@.cursor == old(self)@.cursor,
            b.inv(),
            b@.cursor == 0,
            b@.input.cols == old(self)@.input.cols,
            b@.expected.cols == old(self)@.expected.cols,
            b@.len() == size,
            forall|i: int|
                0 <= i < size ==> picked(
                    old(self)@.input.rows,
                    old(self)@.expected.rows,
                    #[trigger] b@.input.rows[i],
                    b@.expected.rows[i],
                    old(self)@.cursor as int,
                    i,
                ),
    {
        let ghost start = *self;
        let ghost c0 = self.index as int;
        proof {
            if self.input@.nrows() > 0 {
                lemma_small_mod(self.index as nat, self.input@.nrows());
            }
        }
        let n: usize = self.input.rows();
        let mut input: Mat<T> = Mat::empty(self.input.cols());
        let mut expected: Mat<T> = Mat::empty(self.expected.cols());
        let mut i: usize = 0;
        while i < size
            invariant
                self.inv(),
                self.input == start.input,
                self.expected == start.expected,
                c0 == start.index,
                n == self@.len(),
                n > 0 || size == 0,
                i <= size,
                n > 0 ==> self.index == (c0 + i) % (n as int),
                n == 0 ==> self.index == c0,
                input.inv(),
                expected.inv(),
                input@.cols == self@.input.cols,
                expected@.cols == self@.expected.cols,
                input@.nrows() == i,
                expected@.nrows() == i,
                forall|k: int|
                    0 <= k < i ==> picked(
                        start@.input.rows,
                        start@.expected.rows,
                        #[trigger] input@.rows[k],
                        expected@.rows[k],
                        c0,
                        k,
                    ),
            decreases size - i,
        {
            let d: usize = rand::random::<usize>() % 3;
            let base: usize = add_mod(self.index, i, n);
            let idx: usize = add_mod(base, d, n);
            proof {
                lemma_add_mod_noop_right(i as int, c0 + i, n as int);
                lemma_add_mod_noop_right(d as int, c0 + 2 * i, n as int);
                assert(idx == stride_index(c0, i as int, d as int, n as int));
                self.input.lemma_wf();
                self.expected.lemma_wf();
            }
            let (x, y) = self.sample(idx);
            let ghost input_before = input@;
            let ghost expected_before = expected@;
            input.add_row(x);
            expected.add_row(y);
            self.index = add_mod(self.index, 1, n);
            proof {
                lemma_add_mod_noop_right(1, c0 + i, n as int);
            }
            proof {
                assert(picked(
                    start@.input.rows,
                    start@.expected.rows,
                    input@.rows[i as int],
                    expected@.rows[i as int],
                    c0,
                    i as int,
                )) by {
                    assert(stride_index(c0, i as int, d as int, n as int) == idx);
                }
                assert forall|k: int| 0 <= k < i implies picked(
                    start@.input.rows,
                    start@.expected.rows,
                    #[trigger] input@.rows[k],
                    expected@.rows[k],
                    c0,
                    k,
                ) by {
                    assert(input@.rows[k] == input_before.rows[k]);
                    assert(expected@.rows[k] == expected_before.rows[k]);
                }
            }
            i = i + 1;
        }
        TrainingBatch::new(input, expected)
    }
}

} // verus!
