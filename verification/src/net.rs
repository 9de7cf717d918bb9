//! The feed-forward network: construction, inference and training.
use vstd::prelude::*;
use vstd::arithmetic::div_mod::{
    lemma_div_is_ordered, lemma_div_multiples_vanish, lemma_div_nonincreasing,
    lemma_div_of0, lemma_div_pos_is_pos, lemma_fundamental_div_mod,
    lemma_mod_division_less_than_divisor,
};
use vstd::arithmetic::mul::lemma_mul_inequality;
use vstd::seq_lib::group_to_multiset_ensures;
use vstd::slice::{slice_index_get, slice_subrange};

use crate::fixed::{fx_in_range, fx_mul, fx_sub, mul_fx, sub_fx, FX_LIM, FX_ONE};
use crate::matrix::{colm_s, cols_of, colseq, col0, from_col_vec, had_s, hadamard, madd, madd_s, matmul,
    mm_s, mscale, mscale_s, msig, msig_s, msub, msub_s, tr_s, transpose, vseq, zmat, Matrix};
use crate::mnist::{pix_view, Picture};
use crate::rng::{random_unit, shuffle_pictures};
use crate::Error;

verus! {

/// A fully connected feed-forward network.  `weights[i]` maps layer `i` to
/// layer `i+1` and has shape `sizes[i+1] x sizes[i]`; `biases[i]` is the
/// column vector of layer `i+1`, of shape `sizes[i+1] x 1`.
#[derive(Debug)]
pub struct Network {
    pub num_layers: usize,
    pub sizes: Vec<usize>,
    pub biases: Vec<Matrix>,
    pub weights: Vec<Matrix>,
}

/// Whether a layer-size list describes a network: at least two layers, every
/// layer with at least one neuron.
pub open spec fn sizes_ok(s: Seq<usize>) -> bool {
    s.len() >= 2 && forall|i: int| 0 <= i < s.len() ==> 1 <= #[trigger] s[i]
}

/// One layer's output: the logistic function of `w * a + b`.
pub open spec fn layer_out(w: Seq<Seq<int>>, b: Seq<Seq<int>>, a: Seq<Seq<int>>) -> Seq<Seq<int>> {
    msig_s(madd_s(mm_s(w, a), b))
}

/// The column vector that comes out after feeding `a` through every layer.
pub open spec fn ff_s(ws: Seq<Seq<Seq<int>>>, bs: Seq<Seq<Seq<int>>>, a: Seq<Seq<int>>) -> Seq<
    Seq<int>,
>
    decreases ws.len(),
{
    if ws.len() == 0 {
        a
    } else {
        layer_out(ws.last(), bs.last(), ff_s(ws.drop_last(), bs.drop_last(), a))
    }
}

/// The activation column of layer `i` (layer 0 being the input itself).
pub open spec fn act_s(
    ws: Seq<Seq<Seq<int>>>,
    bs: Seq<Seq<Seq<int>>>,
    a0: Seq<Seq<int>>,
    i: int,
) -> Seq<Seq<int>> {
    ff_s(ws.take(i), bs.take(i), a0)
}

/// The derivative of the logistic function, written over the activation:
/// `s * (1 - s)` elementwise.
pub open spec fn sp_s(s: Seq<Seq<int>>) -> Seq<Seq<int>> {
    Seq::new(
        s.len(),
        |i: int| Seq::new(s[i].len(), |j: int| fx_mul(s[i][j], fx_sub(FX_ONE as int, s[i][j]))),
    )
}

/// The one-hot target column for a label.
pub open spec fn onehot_s(lab: int, n: nat) -> Seq<Seq<int>> {
    Seq::new(n, |i: int| seq![if i == lab { FX_ONE as int } else { 0int }])
}

/// The error column `d` steps above the output layer (so `d == 0` is the
/// output layer itself).
pub open spec fn delta_d(
    ws: Seq<Seq<Seq<int>>>,
    bs: Seq<Seq<Seq<int>>>,
    a0: Seq<Seq<int>>,
    y: Seq<Seq<int>>,
    d: nat,
) -> Seq<Seq<int>>
    decreases d,
{
    let l = ws.len() as int;
    if d == 0 {
        had_s(msub_s(act_s(ws, bs, a0, l), y), sp_s(act_s(ws, bs, a0, l)))
    } else {
        let i = l - 1 - d;
        had_s(
            mm_s(tr_s(ws[i + 1]), delta_d(ws, bs, a0, y, (d - 1) as nat)),
            sp_s(act_s(ws, bs, a0, i + 1)),
        )
    }
}

/// The error column of weight layer `i`.
pub open spec fn delta_s(
    ws: Seq<Seq<Seq<int>>>,
    bs: Seq<Seq<Seq<int>>>,
    a0: Seq<Seq<int>>,
    y: Seq<Seq<int>>,
    i: int,
) -> Seq<Seq<int>> {
    delta_d(ws, bs, a0, y, (ws.len() - 1 - i) as nat)
}

/// The normalized value of one pixel byte, scaled into `[0, FX_ONE]`.
pub open spec fn norm_px(p: u8) -> int {
    (p as int) * (FX_ONE as int) / 255
}

/// One pixel row, normalized.
pub open spec fn norm_row(row: Seq<u8>) -> Seq<int> {
    Seq::new(row.len(), |j: int| norm_px(row[j]))
}

/// A pixel grid flattened to one normalized column, row-major.
pub open spec fn flat_norm(pix: Seq<Seq<u8>>) -> Seq<int>
    decreases pix.len(),
{
    if pix.len() == 0 {
        Seq::empty()
    } else {
        flat_norm(pix.drop_last()) + norm_row(pix.last())
    }
}

impl Network {
    /// Structural invariant tying every parameter matrix to the layer sizes.
    pub open spec fn wf(&self) -> bool {
        &&& self.num_layers == self.sizes@.len()
        &&& sizes_ok(self.sizes@)
        &&& self.biases@.len() == self.sizes@.len() - 1
        &&& self.weights@.len() == self.sizes@.len() - 1
        &&& forall|i: int|
            0 <= i < self.weights@.len() ==> (#[trigger] self.weights@[i]).wf()
                && self.weights@[i].rows == self.sizes@[i + 1] && self.weights@[i].cols
                == self.sizes@[i]
        &&& forall|i: int|
            0 <= i < self.biases@.len() ==> (#[trigger] self.biases@[i]).wf()
                && self.biases@[i].rows == self.sizes@[i + 1] && self.biases@[i].cols == 1
    }

    /// The weight views, layer by layer.
    pub open spec fn wviews(&self) -> Seq<Seq<Seq<int>>> {
        Seq::new(self.weights@.len(), |i: int| self.weights@[i]@)
    }

    /// The bias views, layer by layer.
    pub open spec fn bviews(&self) -> Seq<Seq<Seq<int>>> {
        Seq::new(self.biases@.len(), |i: int| self.biases@[i]@)
    }

    /// The input column a sample feeds into the first layer.
    pub open spec fn a0_of(pic: Picture) -> Seq<Seq<int>> {
        colm_s(flat_norm(pix_view(pic)))
    }

    /// The one-hot target column of a sample's label.
    pub open spec fn y_of(&self, pic: Picture) -> Seq<Seq<int>> {
        onehot_s(pic.value as int, self.sizes@[self.sizes@.len() - 1] as nat)
    }

    /// Whether a sample fits this network: its flattened grid matches the
    /// input width, and its label indexes into the output layer.
    pub open spec fn pic_ok(&self, pic: Picture) -> bool {
        &&& flat_norm(pix_view(pic)).len() == self.sizes@[0]
        &&& (pic.value as int) < self.sizes@[self.sizes@.len() - 1]
    }

    /// The error a misfit sample draws (the input width is checked first).
    pub open spec fn pic_err(&self, pic: Picture) -> Error {
        if flat_norm(pix_view(pic)).len() != self.sizes@[0] {
            Error::DimensionMismatch
        } else {
            Error::InvalidLabel
        }
    }

    /// The bias gradient of layer `i` for one sample.
    pub open spec fn gb_of(&self, pic: Picture, i: int) -> Seq<Seq<int>> {
        delta_s(self.wviews(), self.bviews(), Self::a0_of(pic), self.y_of(pic), i)
    }

    /// The weight gradient of layer `i` for one sample: the outer product of
    /// the error column with the incoming activation.
    pub open spec fn gw_of(&self, pic: Picture, i: int) -> Seq<Seq<int>> {
        mm_s(
            self.gb_of(pic, i),
            tr_s(act_s(self.wviews(), self.bviews(), Self::a0_of(pic), i)),
        )
    }

    /// Whether every sample of a batch fits this network.
    pub open spec fn batch_ok(&self, batch: Seq<Picture>) -> bool {
        forall|k: int| 0 <= k < batch.len() ==> self.pic_ok(#[trigger] batch[k])
    }

    /// Creates a network for the given layer sizes, all weights and biases
    /// drawn independently at random from `[0, 1)`.  Fails exactly when the
    /// size list has fewer than two entries or a zero entry.
    pub fn new(sizes: Vec<usize>) -> (r: Result<Network, Error>)
        ensures
            match r {
                Ok(net) => {
                    &&& sizes_ok(sizes@)
                    &&& net.wf()
                    &&& net.sizes@ == sizes@
                    &&& net.num_layers == sizes@.len()
                    &&& net.weights@.len() == sizes@.len() - 1
                    &&& net.biases@.len() == sizes@.len() - 1
                    &&& forall|i: int|
                        0 <= i < net.weights@.len() ==> (#[trigger] net.weights@[i]).rows
                            == sizes@[i + 1] && net.weights@[i].cols == sizes@[i]
                    &&& forall|i: int|
                        0 <= i < net.biases@.len() ==> (#[trigger] net.biases@[i]).rows
                            == sizes@[i + 1] && net.biases@[i].cols == 1
                },
                Err(e) => e == Error::InvalidTopology && !sizes_ok(sizes@),
            },
    {
        if sizes.len() < 2 {
            return Err(Error::InvalidTopology);
        }
        let mut i: usize = 0;
        while i < sizes.len()
            invariant
                0 <= i <= sizes@.len(),
                forall|p: int| 0 <= p < i as int ==> 1 <= #[trigger] sizes@[p],
            decreases sizes@.len() - i,
        {
            if sizes[i] == 0 {
                return Err(Error::InvalidTopology);
            }
            i += 1;
        }
        let n = sizes.len();
        let mut biases: Vec<Matrix> = Vec::new();
        let mut weights: Vec<Matrix> = Vec::new();
        let mut l: usize = 1;
        while l < n
            invariant
                n == sizes@.len(),
                sizes_ok(sizes@),
                1 <= l <= n,
                biases@.len() == l - 1,
                weights@.len() == l - 1,
                forall|p: int|
                    0 <= p < l - 1 ==> (#[trigger] biases@[p]).wf() && biases@[p].rows
                        == sizes@[p + 1] && biases@[p].cols == 1,
                forall|p: int|
                    0 <= p < l - 1 ==> (#[trigger] weights@[p]).wf() && weights@[p].rows
                        == sizes@[p + 1] && weights@[p].cols == sizes@[p],
            decreases n - l,
        {
            biases.push(random_mat(sizes[l], 1));
            weights.push(random_mat(sizes[l], sizes[l - 1]));
            l += 1;
        }
        Ok(Network { num_layers: n, sizes, biases, weights })
    }

    /// Feeds a column of scalars through every layer in turn and returns the
    /// output layer's activations, each strictly inside `(0, FX_ONE)`.
    /// Fails exactly when the input length is not the input layer's width.
    /// The network itself is untouched.
    pub fn feedforward(&self, a: Vec<i64>) -> (r: Result<Vec<i64>, Error>)
        requires
            self.wf(),
            forall|i: int| 0 <= i < a@.len() ==> fx_in_range(#[trigger] a@[i] as int),
        ensures
            match r {
                Ok(out) => {
                    &&& a@.len() == self.sizes@[0]
                    &&& out@.len() == self.sizes@[self.sizes@.len() - 1]
                    &&& vseq(out@) == colseq(
                        ff_s(self.wviews(), self.bviews(), colm_s(vseq(a@))),
                        0,
                    )
                    &&& forall|i: int|
                        0 <= i < out@.len() ==> 0 < #[trigger] out@[i] as int && (out@[i] as int)
                            < FX_ONE as int
                },
                Err(e) => e == Error::DimensionMismatch && a@.len() != self.sizes@[0],
            },
    {
        if a.len() != self.sizes[0] {
            return Err(Error::DimensionMismatch);
        }
        let ghost aseq = a@;
        let mut act = from_col_vec(a);
        let ghost a0 = act@;
        let nl = self.num_layers;
        let mut i: usize = 0;
        while i < nl - 1
            invariant
                self.wf(),
                nl == self.sizes@.len(),
                0 <= i <= nl - 1,
                act.wf(),
                act.cols == 1,
                act.rows == self.sizes@[i as int],
                a0 == colm_s(vseq(aseq)),
                act@ == ff_s(self.wviews().take(i as int), self.bviews().take(i as int), a0),
                i >= 1 ==> forall|p: int, q: int|
                    0 <= p < act.rows as int && 0 <= q < 1 ==> 0 < #[trigger] act@[p][q]
                        && act@[p][q] < FX_ONE as int,
            decreases nl - 1 - i,
        {
            proof {
                lemma_ff_step(self.wviews(), self.bviews(), a0, i as int);
            }
            let wa = matmul(&self.weights[i], &act);
            let z = madd(&wa, &self.biases[i]);
            act = msig(&z);
            i += 1;
        }
        proof {
            assert(self.wviews().take((nl - 1) as int) =~= self.wviews());
            assert(self.bviews().take((nl - 1) as int) =~= self.bviews());
        }
        let out = col0(&act);
        proof {
            assert(vseq(out@) =~= colseq(ff_s(self.wviews(), self.bviews(), a0), 0));
        }
        Ok(out)
    }

    /// The per-sample gradient: the forward pass stores every activation,
    /// the backward pass walks the layers in reverse, and the result pairs
    /// one bias-gradient column and one weight-gradient matrix per layer.
    /// Fails exactly when the sample does not fit the network, the input
    /// width being checked before the label.
    pub fn backprop(&self, pic: &Picture) -> (r: Result<(Vec<Matrix>, Vec<Matrix>), Error>)
        requires
            self.wf(),
        ensures
            match r {
                Ok(g) => {
                    &&& self.pic_ok(*pic)
                    &&& g.0@.len() == self.sizes@.len() - 1
                    &&& g.1@.len() == self.sizes@.len() - 1
                    &&& forall|i: int|
                        0 <= i < g.0@.len() ==> (#[trigger] g.0@[i]).wf() && g.0@[i].rows
                            == self.sizes@[i + 1] && g.0@[i].cols == 1 && g.0@[i]@ == self.gb_of(
                            *pic,
                            i,
                        )
                    &&& forall|i: int|
                        0 <= i < g.1@.len() ==> (#[trigger] g.1@[i]).wf() && g.1@[i].rows
                            == self.sizes@[i + 1] && g.1@[i].cols == self.sizes@[i] && g.1@[i]@
                            == self.gw_of(*pic, i)
                },
                Err(e) => !self.pic_ok(*pic) && e == self.pic_err(*pic),
            },
    {
        let flat = flatten_pixels(pic);
        if flat.len() != self.sizes[0] {
            return Err(Error::DimensionMismatch);
        }
        if (pic.value as usize) >= self.sizes[self.num_layers - 1] {
            return Err(Error::InvalidLabel);
        }
        let ll = self.num_layers - 1;
        let ghost ws = self.wviews();
        let ghost bs = self.bviews();
        let mut acts: Vec<Matrix> = Vec::new();
        acts.push(from_col_vec(flat));
        let ghost a0 = acts@[0]@;
        proof {
            assert(a0 == Self::a0_of(*pic));
            assert(ws.take(0) =~= Seq::<Seq<Seq<int>>>::empty());
            assert(bs.take(0) =~= Seq::<Seq<Seq<int>>>::empty());
        }
        let mut i: usize = 0;
        while i < ll
            invariant
                self.wf(),
                ws == self.wviews(),
                bs == self.bviews(),
                ll == self.sizes@.len() - 1,
                0 <= i <= ll,
                acts@.len() == i + 1,
                forall|k: int|
                    0 <= k <= i as int ==> (#[trigger] acts@[k]).wf() && acts@[k].cols == 1
                        && acts@[k].rows == self.sizes@[k] && acts@[k]@ == act_s(ws, bs, a0, k),
            decreases ll - i,
        {
            proof {
                lemma_ff_step(ws, bs, a0, i as int);
            }
            let wa = matmul(&self.weights[i], &acts[i]);
            let z = madd(&wa, &self.biases[i]);
            acts.push(msig(&z));
            i += 1;
        }
        let y = onehot_mat(pic.value, self.sizes[self.num_layers - 1]);
        proof {
            assert(y@ == self.y_of(*pic));
        }
        // the output layer's error column
        let diff = msub(&acts[ll], &y);
        let spv = sigprime(&acts[ll]);
        let mut delta = hadamard(&diff, &spv);
        let ghost yv = y@;
        proof {
            assert(delta@ == delta_d(ws, bs, a0, yv, 0));
            assert(ws.take(ll as int) =~= ws);
            assert(bs.take(ll as int) =~= bs);
        }
        let mut rev_b: Vec<Matrix> = Vec::new();
        let mut rev_w: Vec<Matrix> = Vec::new();
        let mut j: usize = ll;
        while j >= 1
            invariant
                self.wf(),
                ws == self.wviews(),
                bs == self.bviews(),
                a0 == Self::a0_of(*pic),
                yv == self.y_of(*pic),
                ll == self.sizes@.len() - 1,
                0 <= j <= ll,
                acts@.len() == ll + 1,
                forall|k: int|
                    0 <= k <= ll ==> (#[trigger] acts@[k]).wf() && acts@[k].cols == 1
                        && acts@[k].rows == self.sizes@[k] && acts@[k]@ == act_s(ws, bs, a0, k),
                j >= 1 ==> delta.wf() && delta.cols == 1 && delta.rows == self.sizes@[j as int]
                    && delta@ == delta_s(ws, bs, a0, yv, j - 1),
                rev_b@.len() == ll - j,
                rev_w@.len() == ll - j,
                forall|k: int|
                    0 <= k < rev_b@.len() ==> (#[trigger] rev_b@[k]).wf() && rev_b@[k].rows
                        == self.sizes@[ll - k] && rev_b@[k].cols == 1 && rev_b@[k]@ == self.gb_of(
                        *pic,
                        ll - 1 - k,
                    ),
                forall|k: int|
                    0 <= k < rev_w@.len() ==> (#[trigger] rev_w@[k]).wf() && rev_w@[k].rows
                        == self.sizes@[ll - k] && rev_w@[k].cols == self.sizes@[ll - 1 - k]
                        && rev_w@[k]@ == self.gw_of(*pic, ll - 1 - k),
            decreases j,
        {
            let ta = transpose(&acts[j - 1]);
            rev_w.push(matmul(&delta, &ta));
            rev_b.push(clone_mat(&delta));
            if j >= 2 {
                proof {
                    lemma_delta_step(ws, bs, a0, yv, j - 2);
                }
                let tw = transpose(&self.weights[j - 1]);
                let md = matmul(&tw, &delta);
                let spl = sigprime(&acts[j - 1]);
                delta = hadamard(&md, &spl);
            }
            j -= 1;
        }
        let mut gb: Vec<Matrix> = Vec::new();
        let mut gw: Vec<Matrix> = Vec::new();
        while rev_b.len() > 0
            invariant
                rev_b@.len() == rev_w@.len(),
                gb@.len() == ll - rev_b@.len(),
                gw@.len() == gb@.len(),
                ll == self.sizes@.len() - 1,
                forall|k: int|
                    0 <= k < rev_b@.len() ==> (#[trigger] rev_b@[k]).wf() && rev_b@[k].rows
                        == self.sizes@[ll - k] && rev_b@[k].cols == 1 && rev_b@[k]@ == self.gb_of(
                        *pic,
                        ll - 1 - k,
                    ),
                forall|k: int|
                    0 <= k < rev_w@.len() ==> (#[trigger] rev_w@[k]).wf() && rev_w@[k].rows
                        == self.sizes@[ll - k] && rev_w@[k].cols == self.sizes@[ll - 1 - k]
                        && rev_w@[k]@ == self.gw_of(*pic, ll - 1 - k),
                forall|k: int|
                    0 <= k < gb@.len() ==> (#[trigger] gb@[k]).wf() && gb@[k].rows
                        == self.sizes@[k + 1] && gb@[k].cols == 1 && gb@[k]@ == self.gb_of(*pic, k),
                forall|k: int|
                    0 <= k < gw@.len() ==> (#[trigger] gw@[k]).wf() && gw@[k].rows
                        == self.sizes@[k + 1] && gw@[k].cols == self.sizes@[k] && gw@[k]@
                        == self.gw_of(*pic, k),
            decreases rev_b@.len(),
        {
            let mb = rev_b.pop().unwrap();
            let mw = rev_w.pop().unwrap();
            gb.push(mb);
            gw.push(mw);
        }
        Ok((gb, gw))
    }

    /// One gradient step: sums the per-sample gradients over the batch and
    /// moves every parameter against the average, scaled by the learning
    /// rate `eta` over the batch length.  Fails exactly when some sample
    /// does not fit the network, reporting the first such sample's error and
    /// leaving every parameter untouched.
    pub fn update_mini_batch(&mut self, batch: &[Picture], eta: i64) -> (r: Result<(), Error>)
        requires
            old(self).wf(),
            1 <= batch@.len() < 0x8000_0000,
            0 <= eta <= FX_LIM as int,
        ensures
            final(self).wf(),
            final(self).sizes@ == old(self).sizes@,
            final(self).num_layers == old(self).num_layers,
            final(self).weights@.len() == old(self).weights@.len(),
            final(self).biases@.len() == old(self).biases@.len(),
            match r {
                Ok(()) => {
                    &&& old(self).batch_ok(batch@)
                    &&& forall|i: int|
                        0 <= i < old(self).weights@.len() ==> #[trigger] final(self).weights@[i]@
                            == msub_s(
                            old(self).weights@[i]@,
                            mscale_s(
                                eta as int / batch@.len() as int,
                                nw_sum(*old(self), batch@, i),
                            ),
                        )
                    &&& forall|i: int|
                        0 <= i < old(self).biases@.len() ==> #[trigger] final(self).biases@[i]@
                            == msub_s(
                            old(self).biases@[i]@,
                            mscale_s(
                                eta as int / batch@.len() as int,
                                nb_sum(*old(self), batch@, i),
                            ),
                        )
                },
                Err(e) => {
                    &&& exists|k: int|
                        0 <= k < batch@.len() && !old(self).pic_ok(#[trigger] batch@[k]) && e
                            == old(self).pic_err(batch@[k]) && (forall|q: int|
                            0 <= q < k ==> old(self).pic_ok(batch@[q]))
                    &&& forall|i: int|
                        0 <= i < old(self).weights@.len() ==> #[trigger] final(self).weights@[i]@
                            == old(self).weights@[i]@
                    &&& forall|i: int|
                        0 <= i < old(self).biases@.len() ==> #[trigger] final(self).biases@[i]@
                            == old(self).biases@[i]@
                },
            },
            eta == 0 ==> (forall|i: int|
                0 <= i < old(self).weights@.len() ==> #[trigger] final(self).weights@[i]@ == old(
                    self,
                ).weights@[i]@) && (forall|i: int|
                0 <= i < old(self).biases@.len() ==> #[trigger] final(self).biases@[i]@ == old(
                    self,
                ).biases@[i]@),
    {
        let ghost net0 = *self;
        let ll = self.num_layers - 1;
        let mut nb: Vec<Matrix> = Vec::new();
        let mut nw: Vec<Matrix> = Vec::new();
        let mut q: usize = 0;
        while q < ll
            invariant
                *self == net0,
                self.wf(),
                ll == self.sizes@.len() - 1,
                0 <= q <= ll,
                nb@.len() == q,
                nw@.len() == q,
                forall|p: int|
                    0 <= p < q as int ==> (#[trigger] nb@[p]).wf() && nb@[p].rows
                        == self.sizes@[p + 1] && nb@[p].cols == 1 && nb@[p]@ == zmat(
                        self.sizes@[p + 1] as nat,
                        1,
                    ),
                forall|p: int|
                    0 <= p < q as int ==> (#[trigger] nw@[p]).wf() && nw@[p].rows
                        == self.sizes@[p + 1] && nw@[p].cols == self.sizes@[p] && nw@[p]@ == zmat(
                        self.sizes@[p + 1] as nat,
                        self.sizes@[p] as nat,
                    ),
            decreases ll - q,
        {
            nb.push(Matrix::zeros(self.sizes[q + 1], 1));
            nw.push(Matrix::zeros(self.sizes[q + 1], self.sizes[q]));
            q += 1;
        }
        let mut k: usize = 0;
        proof {
            assert(batch@.take(0) =~= Seq::<Picture>::empty());
        }
        while k < batch.len()
            invariant
                *self == net0,
                self.wf(),
                ll == self.sizes@.len() - 1,
                0 <= k <= batch@.len(),
                nb@.len() == ll,
                nw@.len() == ll,
                forall|p: int|
                    0 <= p < ll as int ==> (#[trigger] nb@[p]).wf() && nb@[p].rows
                        == self.sizes@[p + 1] && nb@[p].cols == 1 && nb@[p]@ == nb_sum(
                        net0,
                        batch@.take(k as int),
                        p,
                    ),
                forall|p: int|
                    0 <= p < ll as int ==> (#[trigger] nw@[p]).wf() && nw@[p].rows
                        == self.sizes@[p + 1] && nw@[p].cols == self.sizes@[p] && nw@[p]@ == nw_sum(
                        net0,
                        batch@.take(k as int),
                        p,
                    ),
                forall|qq: int| 0 <= qq < k as int ==> net0.pic_ok(#[trigger] batch@[qq]),
            decreases batch@.len() - k,
        {
            let pic = slice_index_get(batch, k);
            let res = self.backprop(pic);
            match res {
                Ok((gb, gw)) => {
                    let mut nb2: Vec<Matrix> = Vec::new();
                    let mut nw2: Vec<Matrix> = Vec::new();
                    let mut p: usize = 0;
                    while p < ll
                        invariant
                            *self == net0,
                            self.wf(),
                            ll == self.sizes@.len() - 1,
                            0 <= k < batch@.len(),
                            0 <= p <= ll,
                            nb@.len() == ll,
                            nw@.len() == ll,
                            gb@.len() == ll,
                            gw@.len() == ll,
                            nb2@.len() == p,
                            nw2@.len() == p,
                            forall|i: int|
                                0 <= i < ll as int ==> (#[trigger] nb@[i]).wf() && nb@[i].rows
                                    == self.sizes@[i + 1] && nb@[i].cols == 1 && nb@[i]@ == nb_sum(
                                    net0,
                                    batch@.take(k as int),
                                    i,
                                ),
                            forall|i: int|
                                0 <= i < ll as int ==> (#[trigger] nw@[i]).wf() && nw@[i].rows
                                    == self.sizes@[i + 1] && nw@[i].cols == self.sizes@[i]
                                    && nw@[i]@ == nw_sum(net0, batch@.take(k as int), i),
                            forall|i: int|
                                0 <= i < ll as int ==> (#[trigger] gb@[i]).wf() && gb@[i].rows
                                    == self.sizes@[i + 1] && gb@[i].cols == 1 && gb@[i]@
                                    == net0.gb_of(batch@[k as int], i),
                            forall|i: int|
                                0 <= i < ll as int ==> (#[trigger] gw@[i]).wf() && gw@[i].rows
                                    == self.sizes@[i + 1] && gw@[i].cols == self.sizes@[i]
                                    && gw@[i]@ == net0.gw_of(batch@[k as int], i),
                            forall|pp: int|
                                0 <= pp < p as int ==> (#[trigger] nb2@[pp]).wf() && nb2@[pp].rows
                                    == self.sizes@[pp + 1] && nb2@[pp].cols == 1 && nb2@[pp]@
                                    == madd_s(
                                    nb_sum(net0, batch@.take(k as int), pp),
                                    net0.gb_of(batch@[k as int], pp),
                                ),
                            forall|pp: int|
                                0 <= pp < p as int ==> (#[trigger] nw2@[pp]).wf() && nw2@[pp].rows
                                    == self.sizes@[pp + 1] && nw2@[pp].cols == self.sizes@[pp]
                                    && nw2@[pp]@ == madd_s(
                                    nw_sum(net0, batch@.take(k as int), pp),
                                    net0.gw_of(batch@[k as int], pp),
                                ),
                        decreases ll - p,
                    {
                        nb2.push(madd(&nb[p], &gb[p]));
                        nw2.push(madd(&nw[p], &gw[p]));
                        p += 1;
                    }
                    nb = nb2;
                    nw = nw2;
                    proof {
                        assert(batch@.take(k + 1).drop_last() =~= batch@.take(k as int));
                        assert(batch@.take(k + 1).last() == batch@[k as int]);
                    }
                },
                Err(e) => {
                    return Err(e);
                },
            }
            k += 1;
        }
        proof {
            assert(batch@.take(batch@.len() as int) =~= batch@);
        }
        let lcount: i64 = batch.len() as i64;
        let sf: i64 = eta / lcount;
        proof {
            lemma_div_pos_is_pos(eta as int, lcount as int);
            lemma_div_nonincreasing(eta as int, lcount as int);
        }
        let mut newb: Vec<Matrix> = Vec::new();
        let mut neww: Vec<Matrix> = Vec::new();
        let mut p: usize = 0;
        while p < ll
            invariant
                *self == net0,
                self.wf(),
                ll == self.sizes@.len() - 1,
                0 <= p <= ll,
                newb@.len() == p,
                neww@.len() == p,
                fx_in_range(sf as int),
                sf as int == eta as int / batch@.len() as int,
                nb@.len() == ll,
                nw@.len() == ll,
                forall|i: int|
                    0 <= i < ll as int ==> (#[trigger] nb@[i]).wf() && nb@[i].rows
                        == self.sizes@[i + 1] && nb@[i].cols == 1 && nb@[i]@ == nb_sum(
                        net0,
                        batch@,
                        i,
                    ),
                forall|i: int|
                    0 <= i < ll as int ==> (#[trigger] nw@[i]).wf() && nw@[i].rows
                        == self.sizes@[i + 1] && nw@[i].cols == self.sizes@[i] && nw@[i]@ == nw_sum(
                        net0,
                        batch@,
                        i,
                    ),
                forall|pp: int|
                    0 <= pp < p as int ==> (#[trigger] newb@[pp]).wf() && newb@[pp].rows
                        == self.sizes@[pp + 1] && newb@[pp].cols == 1 && newb@[pp]@ == msub_s(
                        net0.biases@[pp]@,
                        mscale_s(sf as int, nb_sum(net0, batch@, pp)),
                    ),
                forall|pp: int|
                    0 <= pp < p as int ==> (#[trigger] neww@[pp]).wf() && neww@[pp].rows
                        == self.sizes@[pp + 1] && neww@[pp].cols == self.sizes@[pp] && neww@[pp]@
                        == msub_s(
                        net0.weights@[pp]@,
                        mscale_s(sf as int, nw_sum(net0, batch@, pp)),
                    ),
            decreases ll - p,
        {
            let sb = mscale(sf, &nb[p]);
            let sw = mscale(sf, &nw[p]);
            newb.push(msub(&self.biases[p], &sb));
            neww.push(msub(&self.weights[p], &sw));
            p += 1;
        }
        self.biases = newb;
        self.weights = neww;
        proof {
            if eta == 0 {
                lemma_div_of0(batch@.len() as int);
                assert forall|i: int|
                    0 <= i < net0.weights@.len() implies #[trigger] self.weights@[i]@
                    == net0.weights@[i]@ by {
                    lemma_sum_shape(net0, batch@, i);
                    lemma_msub_scale_zero(net0.weights@[i]@, nw_sum(net0, batch@, i));
                }
                assert forall|i: int|
                    0 <= i < net0.biases@.len() implies #[trigger] self.biases@[i]@
                    == net0.biases@[i]@ by {
                    lemma_sum_shape(net0, batch@, i);
                    lemma_msub_scale_zero(net0.biases@[i]@, nb_sum(net0, batch@, i));
                }
            }
        }
        Ok(())
    }

    /// Trains the network in place by mini-batch stochastic gradient
    /// descent: each epoch reshuffles the samples, splits them into
    /// consecutive full batches of `mini_batch_size` (a short trailing
    /// remainder is dropped), and applies one gradient step per batch.  A
    /// zero learning rate provably changes nothing.  A sample that does not
    /// fit the network aborts the run with that sample's error; the
    /// parameter shapes survive in every case.
    pub fn stochastic_gradient_descent(
        &mut self,
        training_data: Vec<Picture>,
        epochs: u32,
        mini_batch_size: usize,
        eta: i64,
    ) -> (r: Result<(), Error>)
        requires
            old(self).wf(),
            epochs >= 1,
            1 <= mini_batch_size <= training_data@.len(),
            training_data@.len() < 0x8000_0000,
            0 <= eta <= FX_LIM as int,
        ensures
            final(self).wf(),
            final(self).sizes@ == old(self).sizes@,
            final(self).num_layers == old(self).num_layers,
            final(self).weights@.len() == old(self).weights@.len(),
            final(self).biases@.len() == old(self).biases@.len(),
            eta == 0 ==> (forall|i: int|
                0 <= i < old(self).weights@.len() ==> #[trigger] final(self).weights@[i]@ == old(
                    self,
                ).weights@[i]@) && (forall|i: int|
                0 <= i < old(self).biases@.len() ==> #[trigger] final(self).biases@[i]@ == old(
                    self,
                ).biases@[i]@),
            old(self).batch_ok(training_data@) ==> r is Ok,
            r is Ok ==> exists|orders: Seq<Seq<Picture>>|
                #![trigger train_v(
                    old(self).wviews(),
                    old(self).bviews(),
                    orders,
                    mini_batch_size as int,
                    eta as int,
                )]
                {
                    &&& orders.len() == epochs
                    &&& forall|j: int|
                        0 <= j < orders.len() ==> (#[trigger] orders[j]).to_multiset()
                            == training_data@.to_multiset() && orders[j].len()
                            == training_data@.len()
                    &&& final(self).wviews() == train_v(
                        old(self).wviews(),
                        old(self).bviews(),
                        orders,
                        mini_batch_size as int,
                        eta as int,
                    ).0
                    &&& final(self).bviews() == train_v(
                        old(self).wviews(),
                        old(self).bviews(),
                        orders,
                        mini_batch_size as int,
                        eta as int,
                    ).1
                },
            match r {
                Ok(()) => true,
                Err(e) => exists|k: int|
                    0 <= k < training_data@.len() && !old(self).pic_ok(
                        #[trigger] training_data@[k],
                    ) && e == old(self).pic_err(training_data@[k]),
            },
    {
        broadcast use group_to_multiset_ensures;

        let mut data = training_data;
        let ghost orig = data@;
        let ghost net0 = *self;
        let ghost mut orders: Seq<Seq<Picture>> = Seq::empty();
        let n = data.len();
        let nbatches = n / mini_batch_size;
        let mut ep: u32 = 0;
        while ep < epochs
            invariant
                net0 == *old(self),
                orig == training_data@,
                0 <= ep <= epochs,
                orders.len() == ep,
                forall|j: int|
                    0 <= j < orders.len() ==> (#[trigger] orders[j]).to_multiset()
                        == orig.to_multiset() && orders[j].len() == n,
                self.wviews() == train_v(
                    net0.wviews(),
                    net0.bviews(),
                    orders,
                    mini_batch_size as int,
                    eta as int,
                ).0,
                self.bviews() == train_v(
                    net0.wviews(),
                    net0.bviews(),
                    orders,
                    mini_batch_size as int,
                    eta as int,
                ).1,
                self.wf(),
                self.sizes@ == net0.sizes@,
                self.num_layers == net0.num_layers,
                self.weights@.len() == net0.weights@.len(),
                self.biases@.len() == net0.biases@.len(),
                n == data@.len(),
                n == orig.len(),
                n < 0x8000_0000,
                1 <= mini_batch_size <= n,
                nbatches == n as int / mini_batch_size as int,
                0 <= eta <= FX_LIM as int,
                data@.to_multiset() == orig.to_multiset(),
                eta == 0 ==> (forall|i: int|
                    0 <= i < net0.weights@.len() ==> #[trigger] self.weights@[i]@
                        == net0.weights@[i]@) && (forall|i: int|
                    0 <= i < net0.biases@.len() ==> #[trigger] self.biases@[i]@
                        == net0.biases@[i]@),
            decreases epochs - ep,
        {
            shuffle_pictures(&mut data);
            proof {
                let prev_orders = orders;
                orders = orders.push(data@);
                assert(orders.drop_last() =~= prev_orders);
            }
            let ghost wse = self.wviews();
            let ghost bse = self.bviews();
            let mut k: usize = 0;
            while k < nbatches
                invariant
                    net0 == *old(self),
                    orig == training_data@,
                    orders.len() == ep + 1,
                    forall|j: int|
                        0 <= j < orders.len() ==> (#[trigger] orders[j]).to_multiset()
                            == orig.to_multiset() && orders[j].len() == n,
                    orders.last() == data@,
                    wse == train_v(
                        net0.wviews(),
                        net0.bviews(),
                        orders.drop_last(),
                        mini_batch_size as int,
                        eta as int,
                    ).0,
                    bse == train_v(
                        net0.wviews(),
                        net0.bviews(),
                        orders.drop_last(),
                        mini_batch_size as int,
                        eta as int,
                    ).1,
                    self.wviews() == epoch_v(
                        wse,
                        bse,
                        data@,
                        mini_batch_size as int,
                        eta as int,
                        k as int,
                    ).0,
                    self.bviews() == epoch_v(
                        wse,
                        bse,
                        data@,
                        mini_batch_size as int,
                        eta as int,
                        k as int,
                    ).1,
                    self.wf(),
                    self.sizes@ == net0.sizes@,
                    self.num_layers == net0.num_layers,
                    self.weights@.len() == net0.weights@.len(),
                    self.biases@.len() == net0.biases@.len(),
                    n == data@.len(),
                    n == orig.len(),
                    n < 0x8000_0000,
                    1 <= mini_batch_size <= n,
                    nbatches == n as int / mini_batch_size as int,
                    0 <= k <= nbatches,
                    0 <= eta <= FX_LIM as int,
                    data@.to_multiset() == orig.to_multiset(),
                    eta == 0 ==> (forall|i: int|
                        0 <= i < net0.weights@.len() ==> #[trigger] self.weights@[i]@
                            == net0.weights@[i]@) && (forall|i: int|
                        0 <= i < net0.biases@.len() ==> #[trigger] self.biases@[i]@
                            == net0.biases@[i]@),
                decreases nbatches - k,
            {
                proof {
                    lemma_chunk_bound(k as int, mini_batch_size as int, n as int);
                }
                let start = k * mini_batch_size;
                let batch = slice_subrange(data.as_slice(), start, start + mini_batch_size);
                let ghost scall = *self;
                let res = self.update_mini_batch(batch, eta);
                match res {
                    Ok(()) => {
                        proof {
                            lemma_update_views(scall, *self, batch@, eta as int);
                            assert((k as int + 1) * (mini_batch_size as int) == k as int
                                * (mini_batch_size as int) + mini_batch_size as int)
                                by (nonlinear_arith);
                            assert(batch@ == data@.subrange(
                                k as int * (mini_batch_size as int),
                                (k as int + 1) * (mini_batch_size as int),
                            ));
                        }
                    },
                    Err(e) => {
                        proof {
                            let bseq = batch@;
                            let kk = choose|kk: int|
                                0 <= kk < bseq.len() && !scall.pic_ok(#[trigger] bseq[kk]) && e
                                    == scall.pic_err(bseq[kk]);
                            let p = bseq[kk];
                            data@.to_multiset_ensures();
                            orig.to_multiset_ensures();
                            assert(data@[start + kk] == p);
                            assert(data@.contains(p));
                            assert(data@.to_multiset().count(p) > 0);
                            assert(orig.to_multiset().count(p) > 0);
                            assert(orig.contains(p));
                            let j = choose|j: int| 0 <= j < orig.len() && orig[j] == p;
                            assert(!net0.pic_ok(orig[j]));
                            assert(e == net0.pic_err(orig[j]));
                        }
                        return Err(e);
                    },
                }
                k += 1;
            }
            proof {
                assert(train_v(
                    net0.wviews(),
                    net0.bviews(),
                    orders,
                    mini_batch_size as int,
                    eta as int,
                ).0 == self.wviews());
                assert(train_v(
                    net0.wviews(),
                    net0.bviews(),
                    orders,
                    mini_batch_size as int,
                    eta as int,
                ).1 == self.bviews());
            }
            ep += 1;
        }
        proof {
            assert(self.wviews() == train_v(
                net0.wviews(),
                net0.bviews(),
                orders,
                mini_batch_size as int,
                eta as int,
            ).0);
            assert(self.bviews() == train_v(
                net0.wviews(),
                net0.bviews(),
                orders,
                mini_batch_size as int,
                eta as int,
            ).1);
        }
        Ok(())
    }
}

/// The one-hot target column of a sample, sized by the last weight layer.
pub open spec fn vy_of(ws: Seq<Seq<Seq<int>>>, pic: Picture) -> Seq<Seq<int>> {
    onehot_s(pic.value as int, ws.last().len())
}

/// The bias gradient of layer `i` for one sample, over bare parameter views.
pub open spec fn vgb(
    ws: Seq<Seq<Seq<int>>>,
    bs: Seq<Seq<Seq<int>>>,
    pic: Picture,
    i: int,
) -> Seq<Seq<int>> {
    delta_s(ws, bs, Network::a0_of(pic), vy_of(ws, pic), i)
}

/// The weight gradient of layer `i` for one sample, over bare parameter views.
pub open spec fn vgw(
    ws: Seq<Seq<Seq<int>>>,
    bs: Seq<Seq<Seq<int>>>,
    pic: Picture,
    i: int,
) -> Seq<Seq<int>> {
    mm_s(vgb(ws, bs, pic, i), tr_s(act_s(ws, bs, Network::a0_of(pic), i)))
}

/// The summed bias gradients of layer `i` over a batch, over bare views.
pub open spec fn vnb_sum(
    ws: Seq<Seq<Seq<int>>>,
    bs: Seq<Seq<Seq<int>>>,
    batch: Seq<Picture>,
    i: int,
) -> Seq<Seq<int>>
    decreases batch.len(),
{
    if batch.len() == 0 {
        zmat(ws[i].len(), 1)
    } else {
        madd_s(vnb_sum(ws, bs, batch.drop_last(), i), vgb(ws, bs, batch.last(), i))
    }
}

/// The summed weight gradients of layer `i` over a batch, over bare views.
pub open spec fn vnw_sum(
    ws: Seq<Seq<Seq<int>>>,
    bs: Seq<Seq<Seq<int>>>,
    batch: Seq<Picture>,
    i: int,
) -> Seq<Seq<int>>
    decreases batch.len(),
{
    if batch.len() == 0 {
        zmat(ws[i].len(), cols_of(ws[i]) as nat)
    } else {
        madd_s(vnw_sum(ws, bs, batch.drop_last(), i), vgw(ws, bs, batch.last(), i))
    }
}

/// The parameters after one gradient step on one batch.
pub open spec fn update_v(
    ws: Seq<Seq<Seq<int>>>,
    bs: Seq<Seq<Seq<int>>>,
    batch: Seq<Picture>,
    eta: int,
) -> (Seq<Seq<Seq<int>>>, Seq<Seq<Seq<int>>>) {
    let sf = eta / batch.len() as int;
    (
        Seq::new(ws.len(), |i: int| msub_s(ws[i], mscale_s(sf, vnw_sum(ws, bs, batch, i)))),
        Seq::new(bs.len(), |i: int| msub_s(bs[i], mscale_s(sf, vnb_sum(ws, bs, batch, i)))),
    )
}

/// The parameters after the first `k` consecutive batches of one epoch's
/// order, each of width `m`.
pub open spec fn epoch_v(
    ws: Seq<Seq<Seq<int>>>,
    bs: Seq<Seq<Seq<int>>>,
    order: Seq<Picture>,
    m: int,
    eta: int,
    k: int,
) -> (Seq<Seq<Seq<int>>>, Seq<Seq<Seq<int>>>)
    decreases k,
{
    if k <= 0 {
        (ws, bs)
    } else {
        let prev = epoch_v(ws, bs, order, m, eta, k - 1);
        update_v(prev.0, prev.1, order.subrange((k - 1) * m, k * m), eta)
    }
}

/// The parameters after a full training run: one epoch per order, each
/// epoch folding its order's full batches in turn.
pub open spec fn train_v(
    ws: Seq<Seq<Seq<int>>>,
    bs: Seq<Seq<Seq<int>>>,
    orders: Seq<Seq<Picture>>,
    m: int,
    eta: int,
) -> (Seq<Seq<Seq<int>>>, Seq<Seq<Seq<int>>>)
    decreases orders.len(),
{
    if orders.len() == 0 {
        (ws, bs)
    } else {
        let prev = train_v(ws, bs, orders.drop_last(), m, eta);
        epoch_v(prev.0, prev.1, orders.last(), m, eta, orders.last().len() as int / m)
    }
}

/// The gradients of a sample do not care whether the parameters come from a
/// network or stand alone.
proof fn lemma_g_views(net: Network, pic: Picture, i: int)
    requires
        net.wf(),
    ensures
        net.gb_of(pic, i) == vgb(net.wviews(), net.bviews(), pic, i),
        net.gw_of(pic, i) == vgw(net.wviews(), net.bviews(), pic, i),
{
    let l = net.weights@.len() as int;
    assert(net.wviews().last() == net.weights@[l - 1]@);
    assert(net.wviews().last().len() == net.sizes@[net.sizes@.len() - 1]);
    assert(net.y_of(pic) == vy_of(net.wviews(), pic));
}

/// The summed gradients agree with their bare-view form.
proof fn lemma_sum_views(net: Network, batch: Seq<Picture>, i: int)
    requires
        net.wf(),
        0 <= i < net.sizes@.len() - 1,
    ensures
        nb_sum(net, batch, i) == vnb_sum(net.wviews(), net.bviews(), batch, i),
        nw_sum(net, batch, i) == vnw_sum(net.wviews(), net.bviews(), batch, i),
    decreases batch.len(),
{
    if batch.len() == 0 {
        assert(net.wviews()[i].len() == net.sizes@[i + 1]);
        assert(crate::matrix::row_ok(net.weights@[i]@[0], net.sizes@[i] as int));
        assert(cols_of(net.wviews()[i]) == net.sizes@[i]);
    } else {
        lemma_sum_views(net, batch.drop_last(), i);
        lemma_g_views(net, batch.last(), i);
    }
}

/// A network whose parameters moved by the update equations lands exactly
/// on `update_v` of its old views.
proof fn lemma_update_views(pre: Network, post: Network, batch: Seq<Picture>, eta: int)
    requires
        pre.wf(),
        post.sizes@ == pre.sizes@,
        post.weights@.len() == pre.weights@.len(),
        post.biases@.len() == pre.biases@.len(),
        batch.len() >= 1,
        forall|i: int|
            0 <= i < pre.weights@.len() ==> #[trigger] post.weights@[i]@ == msub_s(
                pre.weights@[i]@,
                mscale_s(eta / batch.len() as int, nw_sum(pre, batch, i)),
            ),
        forall|i: int|
            0 <= i < pre.biases@.len() ==> #[trigger] post.biases@[i]@ == msub_s(
                pre.biases@[i]@,
                mscale_s(eta / batch.len() as int, nb_sum(pre, batch, i)),
            ),
    ensures
        post.wviews() == update_v(pre.wviews(), pre.bviews(), batch, eta).0,
        post.bviews() == update_v(pre.wviews(), pre.bviews(), batch, eta).1,
{
    assert forall|i: int| 0 <= i < pre.weights@.len() implies #[trigger] post.wviews()[i]
        == update_v(pre.wviews(), pre.bviews(), batch, eta).0[i] by {
        lemma_sum_views(pre, batch, i);
    }
    assert forall|i: int| 0 <= i < pre.biases@.len() implies #[trigger] post.bviews()[i]
        == update_v(pre.wviews(), pre.bviews(), batch, eta).1[i] by {
        lemma_sum_views(pre, batch, i);
    }
    assert(post.wviews() =~= update_v(pre.wviews(), pre.bviews(), batch, eta).0);
    assert(post.bviews() =~= update_v(pre.wviews(), pre.bviews(), batch, eta).1);
}

/// The summed bias gradients of layer `i` over a batch, sample by sample.
pub open spec fn nb_sum(net: Network, batch: Seq<Picture>, i: int) -> Seq<Seq<int>>
    decreases batch.len(),
{
    if batch.len() == 0 {
        zmat(net.sizes@[i + 1] as nat, 1)
    } else {
        madd_s(nb_sum(net, batch.drop_last(), i), net.gb_of(batch.last(), i))
    }
}

/// The summed weight gradients of layer `i` over a batch, sample by sample.
pub open spec fn nw_sum(net: Network, batch: Seq<Picture>, i: int) -> Seq<Seq<int>>
    decreases batch.len(),
{
    if batch.len() == 0 {
        zmat(net.sizes@[i + 1] as nat, net.sizes@[i] as nat)
    } else {
        madd_s(nw_sum(net, batch.drop_last(), i), net.gw_of(batch.last(), i))
    }
}

/// The gradient sums keep the shape of the parameters they mirror.
proof fn lemma_sum_shape(net: Network, batch: Seq<Picture>, i: int)
    requires
        net.wf(),
        0 <= i < net.sizes@.len() - 1,
    ensures
        nb_sum(net, batch, i).len() == net.sizes@[i + 1],
        forall|p: int|
            0 <= p < nb_sum(net, batch, i).len() ==> (#[trigger] nb_sum(net, batch, i)[p]).len()
                == 1,
        nw_sum(net, batch, i).len() == net.sizes@[i + 1],
        forall|p: int|
            0 <= p < nw_sum(net, batch, i).len() ==> (#[trigger] nw_sum(net, batch, i)[p]).len()
                == net.sizes@[i],
    decreases batch.len(),
{
    if batch.len() == 0 {
    } else {
        lemma_sum_shape(net, batch.drop_last(), i);
    }
}

/// Subtracting a zero-scaled matrix moves nothing: every entry of an
/// in-range matrix survives a gradient step with learning rate zero.
proof fn lemma_msub_scale_zero(w: Seq<Seq<int>>, n: Seq<Seq<int>>)
    requires
        forall|i: int|
            0 <= i < w.len() ==> crate::matrix::row_ok(#[trigger] w[i], w[i].len() as int),
        n.len() == w.len(),
        forall|i: int| 0 <= i < w.len() ==> (#[trigger] n[i]).len() == w[i].len(),
    ensures
        msub_s(w, mscale_s(0, n)) == w,
{
    assert forall|i: int| 0 <= i < w.len() implies msub_s(w, mscale_s(0, n))[i] =~= w[i] by {
        assert forall|j: int| 0 <= j < w[i].len() implies msub_s(w, mscale_s(0, n))[i][j]
            == w[i][j] by {
            assert(msub_s(w, mscale_s(0, n))[i][j] == fx_sub(w[i][j], mscale_s(0, n)[i][j]));
            assert(mscale_s(0, n)[i][j] == fx_mul(0, n[i][j]));
            assert(0 * n[i][j] == 0) by (nonlinear_arith);
            lemma_div_of0(FX_ONE as int);
            assert(fx_mul(0, n[i][j]) == 0);
            assert(fx_in_range(w[i][j]));
            assert(fx_sub(w[i][j], 0) == w[i][j]);
        }
    }
    assert(msub_s(w, mscale_s(0, n)) =~~= w);
}

/// Every chunk the trainer takes lies inside the data: chunk `k` of width
/// `m` ends at or before `n` whenever `k < n / m`.
proof fn lemma_chunk_bound(k: int, m: int, n: int)
    requires
        m >= 1,
        n >= 0,
        0 <= k < n / m,
    ensures
        0 <= k * m,
        k * m + m <= n,
{
    lemma_fundamental_div_mod(n, m);
    lemma_mod_division_less_than_divisor(n, m);
    lemma_mul_inequality(k + 1, n / m, m);
    assert((k + 1) * m == k * m + m) by (nonlinear_arith);
    assert(k * m >= 0) by (nonlinear_arith)
        requires
            k >= 0,
            m >= 1,
    ;
}

proof fn lemma_ff_step(ws: Seq<Seq<Seq<int>>>, bs: Seq<Seq<Seq<int>>>, a: Seq<Seq<int>>, i: int)
    requires
        0 <= i < ws.len(),
        i < bs.len(),
    ensures
        ff_s(ws.take(i + 1), bs.take(i + 1), a) == layer_out(
            ws[i],
            bs[i],
            ff_s(ws.take(i), bs.take(i), a),
        ),
{
    assert(ws.take(i + 1).drop_last() =~= ws.take(i));
    assert(bs.take(i + 1).drop_last() =~= bs.take(i));
    assert(ws.take(i + 1).last() == ws[i]);
    assert(bs.take(i + 1).last() == bs[i]);
}

proof fn lemma_delta_step(
    ws: Seq<Seq<Seq<int>>>,
    bs: Seq<Seq<Seq<int>>>,
    a0: Seq<Seq<int>>,
    y: Seq<Seq<int>>,
    i: int,
)
    requires
        0 <= i < ws.len() - 1,
    ensures
        delta_s(ws, bs, a0, y, i) == had_s(
            mm_s(tr_s(ws[i + 1]), delta_s(ws, bs, a0, y, i + 1)),
            sp_s(act_s(ws, bs, a0, i + 1)),
        ),
{
    let l = ws.len() as int;
    let d = (l - 1 - i) as nat;
    assert(d >= 1);
    assert(delta_s(ws, bs, a0, y, i) == delta_d(ws, bs, a0, y, d));
    assert(delta_d(ws, bs, a0, y, d) == had_s(
        mm_s(tr_s(ws[l - 1 - d + 1]), delta_d(ws, bs, a0, y, (d - 1) as nat)),
        sp_s(act_s(ws, bs, a0, l - 1 - d + 1)),
    ));
    assert((d - 1) as nat == (l - 1 - (i + 1)) as nat);
}

/// A matrix of the given shape with every entry drawn independently at
/// random from `[0, 1)` in fixed point.
pub fn random_mat(r: usize, c: usize) -> (m: Matrix)
    ensures
        m.wf(),
        m.rows == r,
        m.cols == c,
        forall|p: int, q: int|
            0 <= p < r as int && 0 <= q < c as int ==> 0 <= #[trigger] m@[p][q] < FX_ONE as int,
{
    let mut data: Vec<Vec<i64>> = Vec::new();
    let mut i: usize = 0;
    while i < r
        invariant
            0 <= i <= r,
            data@.len() == i,
            forall|p: int| 0 <= p < i as int ==> (#[trigger] data@[p])@.len() == c,
            forall|p: int, q: int|
                0 <= p < i as int && 0 <= q < c as int ==> 0 <= #[trigger] data@[p]@[q]
                    < FX_ONE as int,
        decreases r - i,
    {
        let mut row: Vec<i64> = Vec::new();
        let mut j: usize = 0;
        while j < c
            invariant
                0 <= j <= c,
                row@.len() == j,
                forall|q: int| 0 <= q < j as int ==> 0 <= #[trigger] row@[q] < FX_ONE as int,
            decreases c - j,
        {
            row.push(random_unit());
            j += 1;
        }
        data.push(row);
        i += 1;
    }
    Matrix { rows: r, cols: c, data }
}

/// An exact copy of a matrix.
fn clone_mat(m: &Matrix) -> (r: Matrix)
    requires
        m.wf(),
    ensures
        r.wf(),
        r.rows == m.rows,
        r.cols == m.cols,
        r@ == m@,
{
    let mut data: Vec<Vec<i64>> = Vec::new();
    let mut i: usize = 0;
    while i < m.rows
        invariant
            m.wf(),
            0 <= i <= m.rows,
            data@.len() == i,
            forall|p: int| 0 <= p < i as int ==> (#[trigger] data@[p])@.len() == m.cols,
            forall|p: int, q: int|
                0 <= p < i as int && 0 <= q < m.cols as int ==> data@[p]@[q] as int == m@[p][q],
        decreases m.rows - i,
    {
        let mut row: Vec<i64> = Vec::new();
        let mut j: usize = 0;
        while j < m.cols
            invariant
                m.wf(),
                i < m.rows,
                0 <= j <= m.cols,
                row@.len() == j,
                forall|q: int| 0 <= q < j as int ==> row@[q] as int == m@[i as int][q],
            decreases m.cols - j,
        {
            row.push(m.get(i, j));
            j += 1;
        }
        data.push(row);
        i += 1;
    }
    let r = Matrix { rows: m.rows, cols: m.cols, data };
    proof {
        assert(r@ =~~= m@);
    }
    r
}

/// The logistic derivative written over an activation column:
/// `s * (1 - s)` elementwise.
fn sigprime(a: &Matrix) -> (r: Matrix)
    requires
        a.wf(),
    ensures
        r.wf(),
        r.rows == a.rows,
        r.cols == a.cols,
        r@ == sp_s(a@),
{
    let mut data: Vec<Vec<i64>> = Vec::new();
    let mut i: usize = 0;
    while i < a.rows
        invariant
            a.wf(),
            0 <= i <= a.rows,
            data@.len() == i,
            forall|p: int| 0 <= p < i as int ==> (#[trigger] data@[p])@.len() == a.cols,
            forall|p: int, q: int|
                0 <= p < i as int && 0 <= q < a.cols as int ==> data@[p]@[q] as int == fx_mul(
                    a@[p][q],
                    fx_sub(FX_ONE as int, a@[p][q]),
                ),
        decreases a.rows - i,
    {
        let mut row: Vec<i64> = Vec::new();
        let mut j: usize = 0;
        while j < a.cols
            invariant
                a.wf(),
                i < a.rows,
                0 <= j <= a.cols,
                row@.len() == j,
                forall|q: int|
                    0 <= q < j as int ==> row@[q] as int == fx_mul(
                        a@[i as int][q],
                        fx_sub(FX_ONE as int, a@[i as int][q]),
                    ),
            decreases a.cols - j,
        {
            let e = a.get(i, j);
            row.push(mul_fx(e, sub_fx(FX_ONE, e)));
            j += 1;
        }
        data.push(row);
        i += 1;
    }
    let r = Matrix { rows: a.rows, cols: a.cols, data };
    proof {
        assert(r@ =~~= sp_s(a@));
    }
    r
}

/// The one-hot target column for a label, `FX_ONE` at the label's index.
fn onehot_mat(lab: u8, n: usize) -> (r: Matrix)
    requires
        (lab as int) < n as int,
        n >= 1,
    ensures
        r.wf(),
        r.rows == n,
        r.cols == 1,
        r@ == onehot_s(lab as int, n as nat),
{
    let mut data: Vec<Vec<i64>> = Vec::new();
    let mut i: usize = 0;
    while i < n
        invariant
            0 <= i <= n,
            data@.len() == i,
            forall|p: int| 0 <= p < i as int ==> (#[trigger] data@[p])@.len() == 1,
            forall|p: int|
                0 <= p < i as int ==> data@[p]@[0] as int == (if p == lab as int {
                    FX_ONE as int
                } else {
                    0int
                }),
        decreases n - i,
    {
        let mut row: Vec<i64> = Vec::new();
        if i == lab as usize {
            row.push(FX_ONE);
        } else {
            row.push(0);
        }
        data.push(row);
        i += 1;
    }
    let r = Matrix { rows: n, cols: 1, data };
    proof {
        assert(r@ =~~= onehot_s(lab as int, n as nat));
    }
    r
}

/// A sample's pixel grid flattened row-major into one normalized column.
fn flatten_pixels(pic: &Picture) -> (r: Vec<i64>)
    ensures
        vseq(r@) == flat_norm(pix_view(*pic)),
        forall|i: int| 0 <= i < r@.len() ==> 0 <= #[trigger] r@[i] as int <= FX_ONE as int,
{
    let mut flat: Vec<i64> = Vec::new();
    let ghost pv = pix_view(*pic);
    let mut i: usize = 0;
    proof {
        assert(vseq(flat@) =~= flat_norm(pv.take(0)));
    }
    while i < pic.pixels.len()
        invariant
            pv == pix_view(*pic),
            0 <= i <= pic.pixels@.len(),
            vseq(flat@) == flat_norm(pv.take(i as int)),
            forall|p: int| 0 <= p < flat@.len() ==> 0 <= #[trigger] flat@[p] as int <= FX_ONE as int,
        decreases pic.pixels@.len() - i,
    {
        let rowref = &pic.pixels[i];
        let mut j: usize = 0;
        while j < rowref.len()
            invariant
                pv == pix_view(*pic),
                i < pic.pixels@.len(),
                rowref@ == pic.pixels@[i as int]@,
                0 <= j <= rowref@.len(),
                vseq(flat@) == flat_norm(pv.take(i as int)) + norm_row(pv[i as int]).take(j as int),
                forall|p: int| 0 <= p < flat@.len() ==> 0 <= #[trigger] flat@[p] as int <= FX_ONE as int,
            decreases rowref@.len() - j,
        {
            proof {
                lemma_norm_px(rowref@[j as int]);
            }
            let px: i64 = (rowref[j] as i64) * FX_ONE / 255;
            let ghost prev = vseq(flat@);
            flat.push(px);
            proof {
                assert(vseq(flat@) =~= prev.push(px as int));
                assert(px as int == norm_px(pv[i as int][j as int]));
                assert(norm_row(pv[i as int]).take(j + 1) =~= norm_row(pv[i as int]).take(
                    j as int,
                ).push(norm_px(pv[i as int][j as int])));
                assert(vseq(flat@) =~= flat_norm(pv.take(i as int)) + norm_row(pv[i as int]).take(
                    j + 1,
                ));
            }
            j += 1;
        }
        proof {
            assert(norm_row(pv[i as int]).take(pv[i as int].len() as int) =~= norm_row(
                pv[i as int],
            ));
            assert(pv.take(i + 1).drop_last() =~= pv.take(i as int));
            assert(pv.take(i + 1).last() == pv[i as int]);
            assert(flat_norm(pv.take(i + 1)) == flat_norm(pv.take(i as int)) + norm_row(
                pv[i as int],
            ));
        }
        i += 1;
    }
    proof {
        assert(pv.take(pv.len() as int) =~= pv);
    }
    flat
}

proof fn lemma_norm_px(p: u8)
    ensures
        0 <= norm_px(p) <= FX_ONE as int,
{
    lemma_div_pos_is_pos((p as int) * (FX_ONE as int), 255);
    lemma_div_is_ordered((p as int) * (FX_ONE as int), 255 * (FX_ONE as int), 255);
    lemma_div_multiples_vanish(FX_ONE as int, 255);
}

} // verus!
