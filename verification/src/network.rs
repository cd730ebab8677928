//! The network engine: construction, forward inference, backpropagation and
//! online training over dense layers of scalar words.
//!
//! The engine owns the structure of every pass: which matrices are combined,
//! in which order, and what shapes they must have. The scalar arithmetic
//! itself — addition, multiply-accumulate, the activation function, its
//! derivative, and the learning-rate scaling — is supplied by the caller as
//! closures, and every contract pins the engine's output to those closures'
//! contracts through the relations of [`crate::matrix`].

use vstd::prelude::*;
use crate::activations::{Activation, ActivationType};
use crate::matrix::{Matrix, MatModel, map_rel, zip_rel, dot_rel};
use crate::codec::{
    DecodeError, bytes_of_words, decode, encode, le_byte, lemma_mats_words_snoc, mat_words,
    mats_words, parse_mat, parse_mats, parse_net, weight_shapes, bias_shapes, word_at,
    words_of_bytes, words_of_net,
};

verus! {

/// Appends the word encoding of every matrix of `ms`, in order.
fn push_mats_words(words: &mut Vec<u64>, ms: &Vec<Matrix>)
    ensures
        final(words)@ == old(words)@ + mats_words(ms@.map_values(|m: Matrix| m@)),
{
    let ghost base: Seq<u64> = words@;
    let mut i: usize = 0;
    while i < ms.len()
        invariant
            i <= ms@.len(),
            words@ == base + mats_words(ms@.subrange(0, i as int).map_values(|m: Matrix| m@)),
        decreases ms@.len() - i,
    {
        let ghost mats_prefix: Seq<MatModel> = ms@.subrange(0, i as int).map_values(|m: Matrix| m@);
        let ghost before: Seq<u64> = words@;
        words.push(ms[i].rows as u64);
        words.push(ms[i].cols as u64);
        let mut k: usize = 0;
        let dlen: usize = ms[i].data.len();
        while k < dlen
            invariant
                k <= dlen,
                i < ms@.len(),
                dlen == ms@[i as int]@.data.len(),
                words@ == before + seq![ms@[i as int]@.rows as u64, ms@[i as int]@.cols as u64]
                    + ms@[i as int]@.data.subrange(0, k as int),
            decreases dlen - k,
        {
            words.push(ms[i].data[k]);
            proof {
                assert(ms@[i as int]@.data.subrange(0, k + 1) =~= ms@[i as int]@.data.subrange(
                    0,
                    k as int,
                ).push(ms@[i as int]@.data[k as int]));
            }
            k += 1;
        }
        proof {
            assert(ms@[i as int]@.data.subrange(0, dlen as int) =~= ms@[i as int]@.data);
            assert(words@ == before + (seq![ms@[i as int]@.rows as u64, ms@[i as int]@.cols as u64]
                + ms@[i as int]@.data)) by {
                assert(before + seq![ms@[i as int]@.rows as u64, ms@[i as int]@.cols as u64] + ms@[
                    i as int
                ]@.data =~= before + (seq![ms@[i as int]@.rows as u64, ms@[i as int]@.cols as u64]
                    + ms@[i as int]@.data));
            }
            assert(words@ == before + mat_words(ms@[i as int]@));
            lemma_mats_words_snoc(mats_prefix, ms@[i as int]@);
            assert(ms@.subrange(0, i + 1).map_values(|m: Matrix| m@) =~= mats_prefix.push(
                ms@[i as int]@,
            ));
            assert(words@ == base + (mats_words(mats_prefix) + mat_words(ms@[i as int]@))) by {
                assert(base + mats_words(mats_prefix) + mat_words(ms@[i as int]@) =~= base + (
                mats_words(mats_prefix) + mat_words(ms@[i as int]@)));
            }
        }
        i += 1;
    }
    proof {
        assert(ms@.subrange(0, ms@.len() as int) =~= ms@);
    }
}

/// Appends the 8 little-endian bytes of every word of `ws`, in order.
fn push_word_bytes(bytes: &mut Vec<u8>, ws: &Vec<u64>)
    ensures
        final(bytes)@ == old(bytes)@ + bytes_of_words(ws@),
{
    let ghost base: Seq<u8> = bytes@;
    let mut i: usize = 0;
    while i < ws.len()
        invariant
            i <= ws@.len(),
            bytes@.len() == base.len() + 8 * i,
            forall|t: int| 0 <= t < base.len() ==> bytes@[t] == base[t],
            forall|t: int|
                0 <= t < 8 * i ==> #[trigger] bytes@[base.len() + t] == le_byte(ws@[t / 8], t % 8),
        decreases ws@.len() - i,
    {
        let w: u64 = ws[i];
        proof {
            assert(((w >> 0u64) & 0xFF) < 256 && ((w >> 8u64) & 0xFF) < 256 && ((w >> 16u64) & 0xFF)
                < 256 && ((w >> 24u64) & 0xFF) < 256 && ((w >> 32u64) & 0xFF) < 256 && ((w >> 40u64)
                & 0xFF) < 256 && ((w >> 48u64) & 0xFF) < 256 && ((w >> 56u64) & 0xFF) < 256)
                by (bit_vector);
        }
        bytes.push(((w >> 0u64) & 0xFF) as u8);
        bytes.push(((w >> 8u64) & 0xFF) as u8);
        bytes.push(((w >> 16u64) & 0xFF) as u8);
        bytes.push(((w >> 24u64) & 0xFF) as u8);
        bytes.push(((w >> 32u64) & 0xFF) as u8);
        bytes.push(((w >> 40u64) & 0xFF) as u8);
        bytes.push(((w >> 48u64) & 0xFF) as u8);
        bytes.push(((w >> 56u64) & 0xFF) as u8);
        proof {
            assert forall|t: int| 8 * i <= t < 8 * i + 8 implies #[trigger] (t / 8) == i && t % 8 == t
                - 8 * i by {
                assert(t / 8 == i && t % 8 == t - 8 * i) by (nonlinear_arith)
                    requires
                        8 * (i as int) <= t < 8 * (i as int) + 8,
                ;
            }
            assert(bytes@[base.len() + (8 * i + 0)] == le_byte(ws@[i as int], 0));
            assert(bytes@[base.len() + (8 * i + 1)] == le_byte(ws@[i as int], 1));
            assert(bytes@[base.len() + (8 * i + 2)] == le_byte(ws@[i as int], 2));
            assert(bytes@[base.len() + (8 * i + 3)] == le_byte(ws@[i as int], 3));
            assert(bytes@[base.len() + (8 * i + 4)] == le_byte(ws@[i as int], 4));
            assert(bytes@[base.len() + (8 * i + 5)] == le_byte(ws@[i as int], 5));
            assert(bytes@[base.len() + (8 * i + 6)] == le_byte(ws@[i as int], 6));
            assert(bytes@[base.len() + (8 * i + 7)] == le_byte(ws@[i as int], 7));
        }
        i += 1;
    }
    proof {
        reveal(bytes_of_words);
        assert(bytes_of_words(ws@).len() == ws@.len() * 8);
        assert forall|t: int| 0 <= t < bytes@.len() implies bytes@[t] == (base + bytes_of_words(
            ws@,
        ))[t] by {
            if t >= base.len() {
                let t2 = t - base.len();
                assert(bytes@[base.len() + t2] == le_byte(ws@[t2 / 8], t2 % 8));
                assert(bytes_of_words(ws@)[t2] == le_byte(ws@[t2 / 8], t2 % 8));
            }
        }
        assert(bytes@ =~= base + bytes_of_words(ws@));
    }
}

/// The mathematical value of a [`Network`]: the layer sizes, the per-layer
/// parameters, the activation cache left by the latest forward pass, the
/// activation descriptor and the learning-rate word.
#[verifier::ext_equal]
pub ghost struct NetModel {
    pub layers: Seq<usize>,
    pub weights: Seq<MatModel>,
    pub biases: Seq<MatModel>,
    pub cache: Seq<MatModel>,
    pub activation: Activation,
    pub learning_rate: u64,
}

impl NetModel {
    /// The number of layer transitions (one weight and one bias matrix per
    /// transition).
    pub open spec fn depth(self) -> int {
        self.layers.len() - 1
    }

    /// The structural invariant: at least an input layer and one downstream
    /// layer, one weight matrix of shape `(layers[i+1], layers[i])` and one
    /// bias column of shape `(layers[i+1], 1)` per transition.
    pub open spec fn wf(self) -> bool {
        &&& self.layers.len() >= 2
        &&& self.weights.len() == self.depth()
        &&& self.biases.len() == self.depth()
        &&& forall|i: int|
            0 <= i < self.depth() ==> {
                &&& (#[trigger] self.weights[i]).wf()
                &&& self.weights[i].rows == self.layers[i + 1]
                &&& self.weights[i].cols == self.layers[i]
            }
        &&& forall|i: int|
            0 <= i < self.depth() ==> {
                &&& (#[trigger] self.biases[i]).wf()
                &&& self.biases[i].rows == self.layers[i + 1]
                &&& self.biases[i].cols == 1
            }
    }

    /// The cache holds one well-formed column per layer, of that layer's
    /// size: the shape a completed forward pass leaves behind.
    pub open spec fn cache_wf(self) -> bool {
        &&& self.cache.len() == self.layers.len()
        &&& forall|i: int|
            0 <= i < self.cache.len() ==> {
                &&& (#[trigger] self.cache[i]).wf()
                &&& self.cache[i].rows == self.layers[i]
                &&& self.cache[i].cols == 1
            }
    }

    /// Equality of everything the forward pass reads: the transient cache is
    /// left free.
    pub open spec fn params_eq(self, other: NetModel) -> bool {
        &&& self.layers == other.layers
        &&& self.weights == other.weights
        &&& self.biases == other.biases
        &&& self.activation == other.activation
        &&& self.learning_rate == other.learning_rate
    }
}

/// One layer transition of the forward pass: `next` is the activation of
/// `w · cur + b`, each scalar step taken through the caller's closures.
pub open spec fn layer_rel<FM: Fn(u64, u64, u64) -> u64, FA: Fn(u64, u64) -> u64, FS: Fn(u64) -> u64>(
    mac: FM,
    addw: FA,
    act: FS,
    w: MatModel,
    b: MatModel,
    cur: MatModel,
    next: MatModel,
) -> bool {
    exists|z0: MatModel, z1: MatModel|
        #![trigger dot_rel(mac, w, cur, z0), zip_rel(addw, z0, b, z1)]
        {
            &&& dot_rel(mac, w, cur, z0)
            &&& zip_rel(addw, z0, b, z1)
            &&& map_rel(act, z1, next)
        }
}

/// A complete forward pass of `n` on `input`: `cache` records the input and
/// every layer's activation in order, each consecutive pair related by one
/// layer transition, and `out` is the final layer's activation.
pub open spec fn ff_rel<FM: Fn(u64, u64, u64) -> u64, FA: Fn(u64, u64) -> u64, FS: Fn(u64) -> u64>(
    mac: FM,
    addw: FA,
    act: FS,
    n: NetModel,
    input: MatModel,
    cache: Seq<MatModel>,
    out: MatModel,
) -> bool {
    &&& cache.len() == n.layers.len()
    &&& cache[0] == input
    &&& forall|i: int|
        0 <= i < n.depth() ==> layer_rel(mac, addw, act, n.weights[i], n.biases[i], cache[i], #[trigger] cache[i + 1])
    &&& out == cache[n.depth()]
}

/// The state of the backward pass between two layer updates: the error and
/// gradient columns about to be consumed, and the parameters as updated so
/// far.
#[verifier::ext_equal]
pub ghost struct BpState {
    pub errs: MatModel,
    pub grads: MatModel,
    pub weights: Seq<MatModel>,
    pub biases: Seq<MatModel>,
}

/// One backward step at layer transition `i`, exactly in the engine's
/// order: scale the error-weighted gradient, add the outer product with the
/// cached activation into the weights, add the scaled gradient into the
/// biases, then propagate the error through the *already updated* weight
/// matrix and take the next gradient from the cached activation.
pub open spec fn bp_step_rel<
    FMul: Fn(u64, u64) -> u64,
    FSc: Fn(u64) -> u64,
    FA: Fn(u64, u64) -> u64,
    FM: Fn(u64, u64, u64) -> u64,
    FD: Fn(u64) -> u64,
>(
    mulw: FMul,
    scale: FSc,
    addw: FA,
    mac: FM,
    deriv: FD,
    cache_i: MatModel,
    i: int,
    st: BpState,
    st2: BpState,
) -> bool {
    exists|g0: MatModel, g1: MatModel, wd: MatModel, nw: MatModel, nb: MatModel|
        #![trigger zip_rel(mulw, st.grads, st.errs, g0), map_rel(scale, g0, g1), dot_rel(mac, g1, cache_i.transpose_spec(), wd), zip_rel(addw, st.weights[i], wd, nw), zip_rel(addw, st.biases[i], g1, nb)]
        {
            &&& zip_rel(mulw, st.grads, st.errs, g0)
            &&& map_rel(scale, g0, g1)
            &&& dot_rel(mac, g1, cache_i.transpose_spec(), wd)
            &&& zip_rel(addw, st.weights[i], wd, nw)
            &&& zip_rel(addw, st.biases[i], g1, nb)
            &&& st2.weights == st.weights.update(i, nw)
            &&& st2.biases == st.biases.update(i, nb)
            &&& dot_rel(mac, nw.transpose_spec(), st.errs, st2.errs)
            &&& map_rel(deriv, cache_i, st2.grads)
        }
}

/// One complete backward-pass trace, written out: the initial error `e0` is
/// the element-wise difference `targets - outputs`, the initial gradient
/// `g0` is the derivative of `outputs`, and `hist` records the state after
/// each layer update, from the deepest transition down to the first, each
/// step as in [`bp_step_rel`]. `ws2`/`bs2` are the parameters after the
/// pass.
pub open spec fn bp_trace<
    FSub: Fn(u64, u64) -> u64,
    FMul: Fn(u64, u64) -> u64,
    FSc: Fn(u64) -> u64,
    FA: Fn(u64, u64) -> u64,
    FM: Fn(u64, u64, u64) -> u64,
    FD: Fn(u64) -> u64,
>(
    subw: FSub,
    mulw: FMul,
    scale: FSc,
    addw: FA,
    mac: FM,
    deriv: FD,
    cache: Seq<MatModel>,
    targets: MatModel,
    outputs: MatModel,
    ws0: Seq<MatModel>,
    bs0: Seq<MatModel>,
    ws2: Seq<MatModel>,
    bs2: Seq<MatModel>,
    e0: MatModel,
    g0: MatModel,
    hist: Seq<BpState>,
) -> bool {
    &&& zip_rel(subw, targets, outputs, e0)
    &&& map_rel(deriv, outputs, g0)
    &&& hist.len() == cache.len()
    &&& hist[0] == (BpState { errs: e0, grads: g0, weights: ws0, biases: bs0 })
    &&& hist.last().weights == ws2
    &&& hist.last().biases == bs2
    &&& forall|t: int|
        0 <= t < hist.len() - 1 ==> bp_step_rel(
            mulw,
            scale,
            addw,
            mac,
            deriv,
            cache[cache.len() - 2 - t],
            cache.len() - 2 - t,
            #[trigger] hist[t],
            hist[t + 1],
        )
}

/// A complete backward pass: some trace as in [`bp_trace`] takes the
/// parameters `ws0`/`bs0` to `ws2`/`bs2`.
pub open spec fn backprop_rel<
    FSub: Fn(u64, u64) -> u64,
    FMul: Fn(u64, u64) -> u64,
    FSc: Fn(u64) -> u64,
    FA: Fn(u64, u64) -> u64,
    FM: Fn(u64, u64, u64) -> u64,
    FD: Fn(u64) -> u64,
>(
    subw: FSub,
    mulw: FMul,
    scale: FSc,
    addw: FA,
    mac: FM,
    deriv: FD,
    cache: Seq<MatModel>,
    targets: MatModel,
    outputs: MatModel,
    ws0: Seq<MatModel>,
    bs0: Seq<MatModel>,
    ws2: Seq<MatModel>,
    bs2: Seq<MatModel>,
) -> bool {
    exists|e0: MatModel, g0: MatModel, hist: Seq<BpState>|
        #[trigger] bp_trace(
            subw,
            mulw,
            scale,
            addw,
            mac,
            deriv,
            cache,
            targets,
            outputs,
            ws0,
            bs0,
            ws2,
            bs2,
            e0,
            g0,
            hist,
        )
}

/// A marker that names a history sequence so an existential over it has a
/// stable trigger.
pub open spec fn trace_marker<T>(s: Seq<T>) -> bool {
    true
}

/// One online training step of `n` on the example `(x, t)`: a forward pass
/// on the column of `x` (leaving its cache in `n2`), then a backward pass
/// against the column of `t`.
pub open spec fn step_rel<
    FM: Fn(u64, u64, u64) -> u64,
    FA: Fn(u64, u64) -> u64,
    FS: Fn(u64) -> u64,
    FSub: Fn(u64, u64) -> u64,
    FMul: Fn(u64, u64) -> u64,
    FSc: Fn(u64) -> u64,
    FD: Fn(u64) -> u64,
>(
    mac: FM,
    addw: FA,
    act: FS,
    subw: FSub,
    mulw: FMul,
    scale: FSc,
    deriv: FD,
    n: NetModel,
    x: Seq<u64>,
    t: Seq<u64>,
    n2: NetModel,
) -> bool {
    exists|out: MatModel|
        {
            &&& #[trigger] ff_rel(mac, addw, act, n, MatModel::column(x), n2.cache, out)
            &&& n2.layers == n.layers
            &&& n2.activation == n.activation
            &&& n2.learning_rate == n.learning_rate
            &&& backprop_rel(
                subw,
                mulw,
                scale,
                addw,
                mac,
                deriv,
                n2.cache,
                MatModel::column(t),
                out,
                n.weights,
                n.biases,
                n2.weights,
                n2.biases,
            )
        }
}

/// A complete training run: `epochs` passes over the examples in their given
/// order, one [`step_rel`] per example per epoch, taking `n0` to `n1`.
pub open spec fn train_rel<
    FM: Fn(u64, u64, u64) -> u64,
    FA: Fn(u64, u64) -> u64,
    FS: Fn(u64) -> u64,
    FSub: Fn(u64, u64) -> u64,
    FMul: Fn(u64, u64) -> u64,
    FSc: Fn(u64) -> u64,
    FD: Fn(u64) -> u64,
>(
    mac: FM,
    addw: FA,
    act: FS,
    subw: FSub,
    mulw: FMul,
    scale: FSc,
    deriv: FD,
    inputs: Seq<Seq<u64>>,
    targets: Seq<Seq<u64>>,
    n0: NetModel,
    n1: NetModel,
    epochs: u32,
) -> bool {
    exists|hist: Seq<NetModel>|
        #[trigger] trace_marker(hist)
        && {
            &&& hist.len() == epochs as int * inputs.len() + 1
            &&& hist[0] == n0
            &&& hist.last() == n1
            &&& forall|t: int|
                0 <= t < hist.len() - 1 ==> step_rel(
                    mac,
                    addw,
                    act,
                    subw,
                    mulw,
                    scale,
                    deriv,
                    #[trigger] hist[t],
                    inputs[t % inputs.len() as int],
                    targets[t % inputs.len() as int],
                    hist[t + 1],
                )
        }
}

/// Parses a list of matrices against the expected shapes, mirroring
/// [`parse_mats`]: reports exactly when the spec parser fails, and returns
/// its matrices and end offset when it succeeds.
fn parse_mats_exec(words: &Vec<u64>, start: usize, shapes: &Vec<(usize, usize)>) -> (r: Result<
    (Vec<Matrix>, usize),
    DecodeError,
>)
    requires
        start <= words@.len(),
    ensures
        r matches Ok(p) ==> {
            &&& parse_mats(words@, start as int, shapes@) == Some(
                (p.0@.map_values(|m: Matrix| m@), p.1 as int),
            )
            &&& p.1 <= words@.len()
            &&& p.0@.len() == shapes@.len()
            &&& forall|t: int|
                0 <= t < p.0@.len() ==> {
                    &&& (#[trigger] p.0@[t])@.wf()
                    &&& p.0@[t]@.rows == shapes@[t].0
                    &&& p.0@[t]@.cols == shapes@[t].1
                }
        },
        r is Err ==> parse_mats(words@, start as int, shapes@) is None,
{
    let wl: usize = words.len();
    let mut mats: Vec<Matrix> = Vec::new();
    let mut pos: usize = start;
    let mut i: usize = 0;
    proof {
        assert(shapes@.subrange(0, shapes@.len() as int) =~= shapes@);
        assert(mats@.map_values(|m: Matrix| m@) =~= Seq::<MatModel>::empty());
        if parse_mats(words@, start as int, shapes@) is Some {
            let pr = parse_mats(words@, start as int, shapes@)->Some_0;
            assert(Seq::<MatModel>::empty() + pr.0 =~= pr.0);
        }
    }
    while i < shapes.len()
        invariant
            i <= shapes@.len(),
            pos <= words@.len(),
            wl == words@.len(),
            mats@.len() == i,
            forall|t: int|
                0 <= t < mats@.len() ==> {
                    &&& (#[trigger] mats@[t])@.wf()
                    &&& mats@[t]@.rows == shapes@[t].0
                    &&& mats@[t]@.cols == shapes@[t].1
                },
            ({
                let tail = parse_mats(
                    words@,
                    pos as int,
                    shapes@.subrange(i as int, shapes@.len() as int),
                );
                match tail {
                    Option::None => parse_mats(words@, start as int, shapes@) is None,
                    Option::Some(pr) => parse_mats(words@, start as int, shapes@) == Some(
                        (mats@.map_values(|m: Matrix| m@) + pr.0, pr.1),
                    ),
                }
            }),
        decreases shapes@.len() - i,
    {
        let ghost tail_i = shapes@.subrange(i as int, shapes@.len() as int);
        proof {
            assert(tail_i.len() != 0);
            assert(tail_i[0] == shapes@[i as int]);
            assert(tail_i.drop_first() =~= shapes@.subrange(i + 1, shapes@.len() as int));
        }
        let r: usize = shapes[i].0;
        let c: usize = shapes[i].1;
        if wl - pos < 2 {
            proof {
                assert(parse_mat(words@, pos as int, r, c) is None);
                assert(parse_mats(words@, pos as int, tail_i) is None);
            }
            return Err(DecodeError::Malformed);
        }
        if words[pos] != r as u64 || words[pos + 1] != c as u64 {
            proof {
                assert(parse_mat(words@, pos as int, r, c) is None);
                assert(parse_mats(words@, pos as int, tail_i) is None);
            }
            return Err(DecodeError::Malformed);
        }
        let n: usize = match r.checked_mul(c) {
            Some(n) => n,
            None => {
                proof {
                    assert(pos as int + 2 + r * c > words@.len());
                    assert(parse_mat(words@, pos as int, r, c) is None);
                    assert(parse_mats(words@, pos as int, tail_i) is None);
                }
                return Err(DecodeError::Malformed);
            },
        };
        if wl - (pos + 2) < n {
            proof {
                assert(parse_mat(words@, pos as int, r, c) is None);
                assert(parse_mats(words@, pos as int, tail_i) is None);
            }
            return Err(DecodeError::Malformed);
        }
        let mut buf: Vec<u64> = Vec::new();
        let mut k: usize = 0;
        while k < n
            invariant
                k <= n,
                pos + 2 + n <= words@.len(),
                wl == words@.len(),
                buf@ == words@.subrange(pos + 2, pos + 2 + k),
            decreases n - k,
        {
            buf.push(words[pos + 2 + k]);
            proof {
                assert(words@.subrange(pos + 2, pos + 2 + (k + 1)) =~= words@.subrange(
                    pos + 2,
                    pos + 2 + k,
                ).push(words@[pos + 2 + k]));
            }
            k += 1;
        }
        let m = Matrix::new(r, c, buf);
        let ghost mm: MatModel = m@;
        proof {
            assert(mm =~= MatModel {
                rows: r as nat,
                cols: c as nat,
                data: words@.subrange(pos + 2, pos + 2 + r * c),
            });
            assert(parse_mat(words@, pos as int, r, c) == Some((mm, pos + 2 + r * c)));
        }
        let ghost mats_old: Seq<MatModel> = mats@.map_values(|m2: Matrix| m2@);
        mats.push(m);
        pos = pos + 2 + n;
        proof {
            assert(mats@.map_values(|m2: Matrix| m2@) =~= mats_old.push(mm));
            let tail_next = shapes@.subrange(i + 1, shapes@.len() as int);
            assert(parse_mats(words@, pos - 2 - (r * c), tail_i) == (match parse_mats(
                words@,
                pos as int,
                tail_next,
            ) {
                Option::None => Option::<(Seq<MatModel>, int)>::None,
                Option::Some((rest, p)) => Option::Some((seq![mm] + rest, p)),
            }));
            if parse_mats(words@, pos as int, tail_next) is Some {
                let (rest, p) = parse_mats(words@, pos as int, tail_next)->Some_0;
                assert(mats_old + (seq![mm] + rest) =~= mats_old.push(mm) + rest);
            }
        }
        i += 1;
    }
    proof {
        assert(shapes@.subrange(shapes@.len() as int, shapes@.len() as int).len() == 0);
        assert(parse_mats(
            words@,
            pos as int,
            shapes@.subrange(shapes@.len() as int, shapes@.len() as int),
        ) == Some((Seq::<MatModel>::empty(), pos as int)));
        assert(mats@.map_values(|m: Matrix| m@) + Seq::<MatModel>::empty() =~= mats@.map_values(
            |m: Matrix| m@,
        ));
    }
    Ok((mats, pos))
}

/// A feedforward network: layer sizes, one weight matrix and one bias column
/// per layer transition, the activation cache of the latest forward pass,
/// the activation descriptor, and the learning-rate word (carried for
/// persistence; the caller folds it into the scaling closure it supplies to
/// the backward pass).
pub struct Network {
    layers: Vec<usize>,
    weights: Vec<Matrix>,
    biases: Vec<Matrix>,
    data: Vec<Matrix>,
    activation: Activation,
    learning_rate: u64,
}

impl View for Network {
    type V = NetModel;

    closed spec fn view(&self) -> NetModel {
        NetModel {
            layers: self.layers@,
            weights: self.weights@.map_values(|m: Matrix| m@),
            biases: self.biases@.map_values(|m: Matrix| m@),
            cache: self.data@.map_values(|m: Matrix| m@),
            activation: self.activation,
            learning_rate: self.learning_rate,
        }
    }
}

impl Network {
    /// Builds a network for the given layer sizes, drawing every initial
    /// weight and bias word from the caller's generator closure; the cache
    /// starts empty.
    pub fn new<G: Fn() -> u64 + Copy>(layers: Vec<usize>, activation: Activation, learning_rate: u64, gen: G) -> (r:
        Network)
        requires
            layers@.len() >= 2,
            forall|i: int|
                0 <= i < layers@.len() - 1 ==> #[trigger] (layers@[i + 1] * layers@[i]) <= usize::MAX,
            forall|x: ()| call_requires(gen, x),
        ensures
            r@.wf(),
            r@.layers == layers@,
            r@.cache.len() == 0,
            r@.activation == activation,
            r@.learning_rate == learning_rate,
            forall|i: int, k: int|
                0 <= i < r@.depth() && 0 <= k < r@.weights[i].data.len() ==> call_ensures(
                    gen,
                    (),
                    #[trigger] r@.weights[i].data[k],
                ),
            forall|i: int, k: int|
                0 <= i < r@.depth() && 0 <= k < r@.biases[i].data.len() ==> call_ensures(
                    gen,
                    (),
                    #[trigger] r@.biases[i].data[k],
                ),
    {
        let mut weights: Vec<Matrix> = Vec::new();
        let mut biases: Vec<Matrix> = Vec::new();
        let depth: usize = layers.len() - 1;
        let mut i: usize = 0;
        while i < depth
            invariant
                i <= depth,
                depth == layers@.len() - 1,
                layers@.len() >= 2,
                forall|t: int|
                    0 <= t < layers@.len() - 1 ==> #[trigger] (layers@[t + 1] * layers@[t]) <= usize::MAX,
                forall|x: ()| call_requires(gen, x),
                weights@.len() == i,
                biases@.len() == i,
                forall|t: int|
                    0 <= t < i ==> {
                        &&& (#[trigger] weights@[t])@.wf()
                        &&& weights@[t]@.rows == layers@[t + 1]
                        &&& weights@[t]@.cols == layers@[t]
                    },
                forall|t: int|
                    0 <= t < i ==> {
                        &&& (#[trigger] biases@[t])@.wf()
                        &&& biases@[t]@.rows == layers@[t + 1]
                        &&& biases@[t]@.cols == 1
                    },
                forall|t: int, k: int|
                    0 <= t < i && 0 <= k < weights@[t]@.data.len() ==> call_ensures(
                        gen,
                        (),
                        #[trigger] weights@[t]@.data[k],
                    ),
                forall|t: int, k: int|
                    0 <= t < i && 0 <= k < biases@[t]@.data.len() ==> call_ensures(
                        gen,
                        (),
                        #[trigger] biases@[t]@.data[k],
                    ),
            decreases depth - i,
        {
            let w = Matrix::random(layers[i + 1], layers[i], gen);
            let b = Matrix::random(layers[i + 1], 1, gen);
            weights.push(w);
            biases.push(b);
            i += 1;
        }
        let r = Network { layers, weights, biases, data: Vec::new(), activation, learning_rate };
        proof {
            assert(r@.weights.len() == r@.depth());
            assert(r@.biases.len() == r@.depth());
            assert(r@.wf());
        }
        r
    }

    /// The network's layer sizes.
    pub fn layer_sizes(&self) -> (r: &Vec<usize>)
        ensures
            r@ == self@.layers,
    {
        &self.layers
    }

    /// The learning-rate word the network was built with (or loaded from): the
    /// caller folds it into the scaling closure it hands the backward pass.
    pub fn learning_rate_word(&self) -> (r: u64)
        ensures
            r == self@.learning_rate,
    {
        self.learning_rate
    }

    /// Serializes the network into its binary form: the layer sizes, every
    /// weight and bias matrix, the activation tag and the learning-rate
    /// word, as little-endian 64-bit words. The transient cache is not
    /// saved.
    pub fn save(&self) -> (r: Vec<u8>)
        ensures
            r@ == encode(self@),
    {
        let mut words: Vec<u64> = Vec::new();
        words.push(self.layers.len() as u64);
        let mut i: usize = 0;
        while i < self.layers.len()
            invariant
                i <= self@.layers.len(),
                words@.len() == 1 + i,
                words@[0] == self@.layers.len() as u64,
                forall|t: int| 0 <= t < i ==> words@[1 + t] == (#[trigger] self@.layers[t]) as u64,
            decreases self@.layers.len() - i,
        {
            words.push(self.layers[i] as u64);
            i += 1;
        }
        proof {
            assert(words@ =~= seq![self@.layers.len() as u64] + Seq::new(
                self@.layers.len(),
                |t: int| self@.layers[t] as u64,
            ));
        }
        let ghost header: Seq<u64> = words@;
        push_mats_words(&mut words, &self.weights);
        let ghost with_w: Seq<u64> = words@;
        push_mats_words(&mut words, &self.biases);
        let ghost with_b: Seq<u64> = words@;
        let aw: u64 = match self.activation.activation_type {
            ActivationType::Sigmoid => 0u64,
        };
        words.push(aw);
        words.push(self.learning_rate);
        proof {
            assert(with_w == header + mats_words(self@.weights));
            assert(with_b == with_w + mats_words(self@.biases));
            assert(aw == crate::codec::act_word(self@.activation));
            assert(words@ =~= words_of_net(self@));
        }
        let mut bytes: Vec<u8> = Vec::new();
        push_word_bytes(&mut bytes, &words);
        proof {
            assert(bytes@ =~= encode(self@));
        }
        bytes
    }

    /// Replaces the whole network with the one a byte buffer encodes, all or
    /// nothing: on success every field is overwritten (with an empty cache)
    /// and the decoded network is well formed; on a malformed buffer the
    /// network is left exactly as it was.
    pub fn load(&mut self, data: &[u8]) -> (r: Result<(), DecodeError>)
        ensures
            r is Ok <==> decode(data@) is Some,
            r matches Ok(()) ==> decode(data@) == Some(final(self)@) && final(self)@.wf(),
            r is Err ==> *final(self) == *old(self),
            r matches Err(e) ==> e == DecodeError::Malformed,
    {
        let dlen: usize = data.len();
        if dlen % 8 != 0 {
            return Err(DecodeError::Malformed);
        }
        let nw: usize = dlen / 8;
        let mut words: Vec<u64> = Vec::new();
        let mut k: usize = 0;
        while k < nw
            invariant
                k <= nw,
                nw == data@.len() / 8,
                data@.len() % 8 == 0,
                dlen == data@.len(),
                words@.len() == k,
                forall|t: int| 0 <= t < k ==> words@[t] == word_at(data@, t),
            decreases nw - k,
        {
            proof {
                assert(8 * (k as int) + 8 <= data@.len()) by (nonlinear_arith)
                    requires
                        (k as int) < data@.len() / 8,
                        data@.len() % 8 == 0,
                ;
            }
            let w: u64 = (data[8 * k] as u64) | ((data[8 * k + 1] as u64) << 8u64) | ((data[8 * k
                + 2] as u64) << 16u64) | ((data[8 * k + 3] as u64) << 24u64) | ((data[8 * k
                + 4] as u64) << 32u64) | ((data[8 * k + 5] as u64) << 40u64) | ((data[8 * k
                + 6] as u64) << 48u64) | ((data[8 * k + 7] as u64) << 56u64);
            words.push(w);
            proof {
                assert(w == word_at(data@, k as int));
            }
            k += 1;
        }
        proof {
            reveal(words_of_bytes);
            assert(words@ =~= words_of_bytes(data@));
        }
        let ghost ws: Seq<u64> = words_of_bytes(data@);
        let wl: usize = words.len();
        if wl < 1 {
            proof {
                assert(parse_net(ws) is None);
            }
            return Err(DecodeError::Malformed);
        }
        let lw: u64 = words[0];
        if lw < 2 || lw > usize::MAX as u64 {
            proof {
                assert(ws[0] == lw);
                assert(parse_net(ws) is None);
            }
            return Err(DecodeError::Malformed);
        }
        let l: usize = lw as usize;
        if wl - 1 < l {
            proof {
                assert(ws.len() == wl);
                assert(ws[0] == lw);
                assert(ws.len() < 1 + ws[0] as int);
                assert(parse_net(ws) is None);
            }
            return Err(DecodeError::Malformed);
        }
        let mut layers: Vec<usize> = Vec::new();
        let mut i: usize = 0;
        while i < l
            invariant
                i <= l,
                l < wl,
                2 <= l,
                l as int == ws[0] as int,
                wl == ws.len(),
                words@ == ws,
                ws == words_of_bytes(data@),
                data@.len() % 8 == 0,
                layers@.len() == i,
                forall|t: int|
                    0 <= t < i ==> #[trigger] ws[1 + t] <= usize::MAX as u64 && layers@[t] == ws[1
                        + t] as usize,
            decreases l - i,
        {
            let w: u64 = words[1 + i];
            if w > usize::MAX as u64 {
                proof {
                    assert(ws[1 + i as int] > usize::MAX as u64);
                    assert(!crate::codec::layer_words_in_range(ws, ws[0] as int)) by {
                        if crate::codec::layer_words_in_range(ws, ws[0] as int) {
                            assert(ws[1 + (i as int)] <= usize::MAX as u64);
                        }
                    }
                    assert(parse_net(ws) is None);
                }
                return Err(DecodeError::Malformed);
            }
            layers.push(w as usize);
            i += 1;
        }
        let ghost slayers: Seq<usize> = Seq::new(l as nat, |q: int| ws[1 + q] as usize);
        proof {
            assert(crate::codec::layer_words_in_range(ws, ws[0] as int)) by {
                assert(forall|q: int|
                    0 <= q < ws[0] as int ==> #[trigger] ws[1 + q] <= usize::MAX as u64);
            }
            assert(layers@ =~= slayers);
        }
        let mut wshapes: Vec<(usize, usize)> = Vec::new();
        let mut bshapes: Vec<(usize, usize)> = Vec::new();
        let mut i2: usize = 0;
        while i2 < l - 1
            invariant
                l >= 2,
                i2 <= l - 1,
                layers@.len() == l,
                wshapes@.len() == i2,
                bshapes@.len() == i2,
                forall|t: int|
                    0 <= t < i2 ==> #[trigger] wshapes@[t] == (layers@[t + 1], layers@[t]),
                forall|t: int| 0 <= t < i2 ==> #[trigger] bshapes@[t] == (layers@[t + 1], 1usize),
            decreases l - 1 - i2,
        {
            wshapes.push((layers[i2 + 1], layers[i2]));
            bshapes.push((layers[i2 + 1], 1));
            i2 += 1;
        }
        proof {
            assert(wshapes@ =~= weight_shapes(slayers));
            assert(bshapes@ =~= bias_shapes(slayers));
        }
        let start: usize = 1 + l;
        let parsed_w = match parse_mats_exec(&words, start, &wshapes) {
            Ok(p) => p,
            Err(_) => {
                proof {
                    assert(parse_net(ws) is None);
                }
                return Err(DecodeError::Malformed);
            },
        };
        let (wmats, p2) = parsed_w;
        let parsed_b = match parse_mats_exec(&words, p2, &bshapes) {
            Ok(p) => p,
            Err(_) => {
                proof {
                    assert(parse_net(ws) is None);
                }
                return Err(DecodeError::Malformed);
            },
        };
        let (bmats, p3) = parsed_b;
        if wl - p3 != 2 {
            proof {
                assert(!(p3 + 2 == ws.len()));
                assert(parse_net(ws) is None);
            }
            return Err(DecodeError::Malformed);
        }
        if words[p3] != 0 {
            proof {
                assert(parse_net(ws) is None);
            }
            return Err(DecodeError::Malformed);
        }
        let lr: u64 = words[p3 + 1];
        self.layers = layers;
        self.weights = wmats;
        self.biases = bmats;
        self.data = Vec::new();
        self.activation = Activation { activation_type: ActivationType::Sigmoid };
        self.learning_rate = lr;
        proof {
            assert(self@.cache =~= Seq::<MatModel>::empty());
            assert(parse_net(ws) == Some(self@)) by {
                assert(self@ =~= NetModel {
                    layers: slayers,
                    weights: self.weights@.map_values(|m: Matrix| m@),
                    biases: self.biases@.map_values(|m: Matrix| m@),
                    cache: Seq::empty(),
                    activation: Activation { activation_type: ActivationType::Sigmoid },
                    learning_rate: ws[p3 + 1],
                });
            }
            assert(self@.wf()) by {
                assert(forall|t: int|
                    0 <= t < self@.depth() ==> (#[trigger] self@.weights[t]).wf()
                        && self@.weights[t].rows == self@.layers[t + 1] && self@.weights[t].cols
                        == self@.layers[t]);
                assert(forall|t: int|
                    0 <= t < self@.depth() ==> (#[trigger] self@.biases[t]).wf()
                        && self@.biases[t].rows == self@.layers[t + 1] && self@.biases[t].cols == 1);
            }
            assert(decode(data@) == Some(self@));
        }
        Ok(())
    }

    /// Runs the forward pass on a column of input words: seeds the cache with
    /// the input, then for every layer transition applies weights, bias and
    /// activation through the caller's closures, caching every layer's
    /// activation; returns the final layer's activation. The previous cache
    /// is discarded wholesale. The parameters are untouched.
    pub fn feed_forward<
        FM: Fn(u64, u64, u64) -> u64 + Copy,
        FA: Fn(u64, u64) -> u64 + Copy,
        FS: Fn(u64) -> u64 + Copy,
    >(&mut self, inputs: Matrix, mac: FM, addw: FA, act: FS) -> (r: Matrix)
        requires
            old(self)@.wf(),
            inputs@.wf(),
            inputs@.cols == 1,
            inputs@.rows == old(self)@.layers[0],
            forall|a: u64, b: u64, c: u64| call_requires(mac, (a, b, c)),
            forall|a: u64, b: u64| call_requires(addw, (a, b)),
            forall|a: u64| call_requires(act, (a,)),
        ensures
            final(self)@.params_eq(old(self)@),
            final(self)@.wf(),
            final(self)@.cache_wf(),
            ff_rel(mac, addw, act, old(self)@, inputs@, final(self)@.cache, r@),
            r@ == final(self)@.cache.last(),
    {
        let ghost input0: MatModel = inputs@;
        let mut current = inputs;
        self.data = Vec::new();
        self.data.push(current.clone());
        let depth: usize = self.layers.len() - 1;
        let mut i: usize = 0;
        while i < depth
            invariant
                i <= depth,
                depth == self@.layers.len() - 1,
                self@.params_eq(old(self)@),
                self@.wf(),
                forall|a: u64, b: u64, c: u64| call_requires(mac, (a, b, c)),
                forall|a: u64, b: u64| call_requires(addw, (a, b)),
                forall|a: u64| call_requires(act, (a,)),
                self@.cache.len() == i + 1,
                self@.cache[0] == input0,
                current@ == self@.cache[i as int],
                current@.wf(),
                current@.cols == 1,
                current@.rows == self@.layers[i as int],
                forall|t: int|
                    0 <= t < self@.cache.len() ==> {
                        &&& (#[trigger] self@.cache[t]).wf()
                        &&& self@.cache[t].rows == self@.layers[t]
                        &&& self@.cache[t].cols == 1
                    },
                forall|t: int|
                    0 <= t < i ==> layer_rel(
                        mac,
                        addw,
                        act,
                        self@.weights[t],
                        self@.biases[t],
                        self@.cache[t],
                        #[trigger] self@.cache[t + 1],
                    ),
            decreases depth - i,
        {
            let ghost prev_cache: Seq<MatModel> = self@.cache;
            let ghost w_model: MatModel = self@.weights[i as int];
            let ghost b_model: MatModel = self@.biases[i as int];
            proof {
                assert(w_model.rows * 1 == w_model.rows);
                assert(w_model == self.weights@[i as int]@);
                assert(b_model == self.biases@[i as int]@);
            }
            let z0 = match self.weights[i].dot_multiply(&current, mac) {
                Ok(m) => m,
                Err(_) => { proof { assert(false); } vstd::pervasive::unreached() },
            };
            let z1 = match z0.add(&self.biases[i], addw) {
                Ok(m) => m,
                Err(_) => { proof { assert(false); } vstd::pervasive::unreached() },
            };
            let next = z1.map(act);
            proof {
                assert(dot_rel(mac, w_model, current@, z0@));
                assert(zip_rel(addw, z0@, b_model, z1@));
                assert(map_rel(act, z1@, next@));
                assert(layer_rel(mac, addw, act, w_model, b_model, current@, next@));
            }
            self.data.push(next.clone());
            proof {
                assert(self@.cache =~= prev_cache.push(next@));
            }
            current = next;
            i += 1;
        }
        proof {
            assert(ff_rel(mac, addw, act, old(self)@, input0, self@.cache, current@));
        }
        current
    }

    /// Runs the backward pass against the latest forward pass: `outputs`
    /// must be exactly what that pass returned (its cache is read here, and
    /// this is not re-validated beyond shape), and `targets` a column of the
    /// output layer's size. Updates every weight and bias matrix in place,
    /// from the deepest transition down to the first, in the engine's exact
    /// order; the cache itself is left untouched.
    pub fn back_propogate<
        FSub: Fn(u64, u64) -> u64 + Copy,
        FMul: Fn(u64, u64) -> u64 + Copy,
        FSc: Fn(u64) -> u64 + Copy,
        FA: Fn(u64, u64) -> u64 + Copy,
        FM: Fn(u64, u64, u64) -> u64 + Copy,
        FD: Fn(u64) -> u64 + Copy,
    >(
        &mut self,
        outputs: Matrix,
        targets: Matrix,
        subw: FSub,
        mulw: FMul,
        scale: FSc,
        addw: FA,
        mac: FM,
        deriv: FD,
    )
        requires
            old(self)@.wf(),
            old(self)@.cache_wf(),
            outputs@ == old(self)@.cache.last(),
            targets@.wf(),
            targets@.rows == old(self)@.layers.last(),
            targets@.cols == 1,
            forall|a: u64, b: u64| call_requires(subw, (a, b)),
            forall|a: u64, b: u64| call_requires(mulw, (a, b)),
            forall|a: u64| call_requires(scale, (a,)),
            forall|a: u64, b: u64| call_requires(addw, (a, b)),
            forall|a: u64, b: u64, c: u64| call_requires(mac, (a, b, c)),
            forall|a: u64| call_requires(deriv, (a,)),
        ensures
            final(self)@.layers == old(self)@.layers,
            final(self)@.cache == old(self)@.cache,
            final(self)@.activation == old(self)@.activation,
            final(self)@.learning_rate == old(self)@.learning_rate,
            final(self)@.wf(),
            backprop_rel(
                subw,
                mulw,
                scale,
                addw,
                mac,
                deriv,
                old(self)@.cache,
                targets@,
                outputs@,
                old(self)@.weights,
                old(self)@.biases,
                final(self)@.weights,
                final(self)@.biases,
            ),
    {
        let ghost n0: NetModel = self@;
        proof {
            assert(n0.cache.last() == n0.cache[n0.cache.len() - 1]);
        }
        let mut errors = match targets.subtract(&outputs, subw) {
            Ok(m) => m,
            Err(_) => { proof { assert(false); } vstd::pervasive::unreached() },
        };
        let mut gradients = outputs.map(deriv);
        let ghost e0: MatModel = errors@;
        let ghost g0: MatModel = gradients@;
        let ghost mut hist: Seq<BpState> = seq![
            BpState { errs: e0, grads: g0, weights: n0.weights, biases: n0.biases },
        ];
        let depth: usize = self.layers.len() - 1;
        let mut i: usize = depth;
        while i > 0
            invariant
                i <= depth,
                depth == n0.layers.len() - 1,
                self@.layers == n0.layers,
                self@.cache == n0.cache,
                self@.activation == n0.activation,
                self@.learning_rate == n0.learning_rate,
                self@.wf(),
                n0.wf(),
                n0.cache_wf(),
                forall|a: u64, b: u64| call_requires(subw, (a, b)),
                forall|a: u64, b: u64| call_requires(mulw, (a, b)),
                forall|a: u64| call_requires(scale, (a,)),
                forall|a: u64, b: u64| call_requires(addw, (a, b)),
                forall|a: u64, b: u64, c: u64| call_requires(mac, (a, b, c)),
                forall|a: u64| call_requires(deriv, (a,)),
                errors@.wf(),
                errors@.rows == n0.layers[i as int],
                errors@.cols == 1,
                gradients@.wf(),
                gradients@.rows == n0.layers[i as int],
                gradients@.cols == 1,
                hist.len() == depth - i + 1,
                hist[0] == (BpState { errs: e0, grads: g0, weights: n0.weights, biases: n0.biases }),
                hist.last() == (BpState {
                    errs: errors@,
                    grads: gradients@,
                    weights: self@.weights,
                    biases: self@.biases,
                }),
                forall|t: int|
                    0 <= t < hist.len() - 1 ==> bp_step_rel(
                        mulw,
                        scale,
                        addw,
                        mac,
                        deriv,
                        n0.cache[depth - 1 - t],
                        depth - 1 - t,
                        #[trigger] hist[t],
                        hist[t + 1],
                    ),
            decreases i,
        {
            let idx: usize = i - 1;
            let ghost st: BpState = hist.last();
            let g0m = match gradients.elementwise_multiply(&errors, mulw) {
                Ok(m) => m,
                Err(_) => { proof { assert(false); } vstd::pervasive::unreached() },
            };
            let g1m = g0m.map(scale);
            proof {
                assert(self@.weights[idx as int] == self.weights@[idx as int]@);
                assert(self@.biases[idx as int] == self.biases@[idx as int]@);
                assert(self@.cache[idx as int] == self.data@[idx as int]@);
            }
            let cache_t = self.data[idx].transpose();
            let cap: usize = self.weights[idx].data.len();
            proof {
                assert(g1m@.rows * cache_t@.cols == cap);
            }
            let wd = match g1m.dot_multiply(&cache_t, mac) {
                Ok(m) => m,
                Err(_) => { proof { assert(false); } vstd::pervasive::unreached() },
            };
            let nw = match self.weights[idx].add(&wd, addw) {
                Ok(m) => m,
                Err(_) => { proof { assert(false); } vstd::pervasive::unreached() },
            };
            let ghost nwm: MatModel = nw@;
            self.weights.set(idx, nw);
            let nb = match self.biases[idx].add(&g1m, addw) {
                Ok(m) => m,
                Err(_) => { proof { assert(false); } vstd::pervasive::unreached() },
            };
            let ghost nbm: MatModel = nb@;
            self.biases.set(idx, nb);
            let wt = self.weights[idx].transpose();
            proof {
                assert(self@.weights[idx as int] == self.weights@[idx as int]@);
                assert(self@.weights[idx as int] == nwm);
                assert(wt@.rows * errors@.cols == wt@.rows * 1);
                assert(wt@.rows * 1 == wt@.rows);
            }
            errors = match wt.dot_multiply(&errors, mac) {
                Ok(m) => m,
                Err(_) => { proof { assert(false); } vstd::pervasive::unreached() },
            };
            gradients = self.data[idx].map(deriv);
            proof {
                let st2 = BpState {
                    errs: errors@,
                    grads: gradients@,
                    weights: self@.weights,
                    biases: self@.biases,
                };
                assert(self@.weights =~= st.weights.update(idx as int, nwm));
                assert(self@.biases =~= st.biases.update(idx as int, nbm));
                assert(st.weights[idx as int] == n0.weights[idx as int] || true);
                assert(zip_rel(mulw, st.grads, st.errs, g0m@));
                assert(map_rel(scale, g0m@, g1m@));
                assert(dot_rel(mac, g1m@, n0.cache[idx as int].transpose_spec(), wd@));
                assert(zip_rel(addw, st.weights[idx as int], wd@, nwm));
                assert(zip_rel(addw, st.biases[idx as int], g1m@, nbm));
                assert(dot_rel(mac, nwm.transpose_spec(), st.errs, st2.errs));
                assert(map_rel(deriv, n0.cache[idx as int], st2.grads));
                assert(bp_step_rel(mulw, scale, addw, mac, deriv, n0.cache[idx as int], idx as int, st, st2));
                hist = hist.push(st2);
                assert(hist.last() == st2);
                assert(forall|t: int|
                    0 <= t < hist.len() - 1 ==> bp_step_rel(
                        mulw,
                        scale,
                        addw,
                        mac,
                        deriv,
                        n0.cache[depth - 1 - t],
                        depth - 1 - t,
                        #[trigger] hist[t],
                        hist[t + 1],
                    ));
            }
            i -= 1;
        }
        proof {
            assert(hist.len() == n0.cache.len());
            assert(bp_trace(
                subw,
                mulw,
                scale,
                addw,
                mac,
                deriv,
                n0.cache,
                targets@,
                outputs@,
                n0.weights,
                n0.biases,
                self@.weights,
                self@.biases,
                e0,
                g0,
                hist,
            ));
            assert(backprop_rel(
                subw,
                mulw,
                scale,
                addw,
                mac,
                deriv,
                n0.cache,
                targets@,
                outputs@,
                n0.weights,
                n0.biases,
                self@.weights,
                self@.biases,
            ));
        }
    }

    /// Online training: for each of `epochs` passes over the examples in
    /// their given order, one forward pass on the example's input column
    /// followed by one backward pass against its target column. No
    /// shuffling, no batching, no convergence check.
    #[verifier::rlimit(100)]
    #[verifier::spinoff_prover]
    pub fn train<
        FM: Fn(u64, u64, u64) -> u64 + Copy,
        FA: Fn(u64, u64) -> u64 + Copy,
        FS: Fn(u64) -> u64 + Copy,
        FSub: Fn(u64, u64) -> u64 + Copy,
        FMul: Fn(u64, u64) -> u64 + Copy,
        FSc: Fn(u64) -> u64 + Copy,
        FD: Fn(u64) -> u64 + Copy,
    >(
        &mut self,
        inputs: Vec<Vec<u64>>,
        targets: Vec<Vec<u64>>,
        epochs: u32,
        mac: FM,
        addw: FA,
        act: FS,
        subw: FSub,
        mulw: FMul,
        scale: FSc,
        deriv: FD,
    )
        requires
            old(self)@.wf(),
            inputs@.len() == targets@.len(),
            forall|j: int|
                0 <= j < inputs@.len() ==> (#[trigger] inputs@[j])@.len() == old(self)@.layers[0],
            forall|j: int|
                0 <= j < targets@.len() ==> (#[trigger] targets@[j])@.len() == old(self)@.layers.last(),
            forall|a: u64, b: u64, c: u64| call_requires(mac, (a, b, c)),
            forall|a: u64, b: u64| call_requires(addw, (a, b)),
            forall|a: u64| call_requires(act, (a,)),
            forall|a: u64, b: u64| call_requires(subw, (a, b)),
            forall|a: u64, b: u64| call_requires(mulw, (a, b)),
            forall|a: u64| call_requires(scale, (a,)),
            forall|a: u64| call_requires(deriv, (a,)),
        ensures
            final(self)@.wf(),
            final(self)@.layers == old(self)@.layers,
            final(self)@.activation == old(self)@.activation,
            final(self)@.learning_rate == old(self)@.learning_rate,
            train_rel(
                mac,
                addw,
                act,
                subw,
                mulw,
                scale,
                deriv,
                inputs.deep_view(),
                targets.deep_view(),
                old(self)@,
                final(self)@,
                epochs,
            ),
    {
        let ghost ideep: Seq<Seq<u64>> = inputs.deep_view();
        let ghost tdeep: Seq<Seq<u64>> = targets.deep_view();
        let ghost n_start: NetModel = self@;
        let len: usize = inputs.len();
        let ghost mut hist: Seq<NetModel> = seq![n_start];
        let mut e: u32 = 0;
        while e < epochs
            invariant
                e <= epochs,
                len == inputs@.len(),
                inputs@.len() == targets@.len(),
                ideep == inputs.deep_view(),
                tdeep == targets.deep_view(),
                self@.wf(),
                self@.layers == n_start.layers,
                self@.activation == n_start.activation,
                self@.learning_rate == n_start.learning_rate,
                forall|j: int|
                    0 <= j < inputs@.len() ==> (#[trigger] inputs@[j])@.len() == n_start.layers[0],
                forall|j: int|
                    0 <= j < targets@.len() ==> (#[trigger] targets@[j])@.len() == n_start.layers.last(),
                forall|a: u64, b: u64, c: u64| call_requires(mac, (a, b, c)),
                forall|a: u64, b: u64| call_requires(addw, (a, b)),
                forall|a: u64| call_requires(act, (a,)),
                forall|a: u64, b: u64| call_requires(subw, (a, b)),
                forall|a: u64, b: u64| call_requires(mulw, (a, b)),
                forall|a: u64| call_requires(scale, (a,)),
                forall|a: u64| call_requires(deriv, (a,)),
                hist.len() == e as int * len + 1,
                hist[0] == n_start,
                hist.last() == self@,
                forall|t: int|
                    0 <= t < hist.len() - 1 ==> step_rel(
                        mac,
                        addw,
                        act,
                        subw,
                        mulw,
                        scale,
                        deriv,
                        #[trigger] hist[t],
                        ideep[t % len as int],
                        tdeep[t % len as int],
                        hist[t + 1],
                    ),
            decreases epochs - e,
        {
            let mut j: usize = 0;
            while j < len
                invariant
                    e < epochs,
                    j <= len,
                    len == inputs@.len(),
                    inputs@.len() == targets@.len(),
                    ideep == inputs.deep_view(),
                    tdeep == targets.deep_view(),
                    self@.wf(),
                    self@.layers == n_start.layers,
                    self@.activation == n_start.activation,
                    self@.learning_rate == n_start.learning_rate,
                    forall|j2: int|
                        0 <= j2 < inputs@.len() ==> (#[trigger] inputs@[j2])@.len() == n_start.layers[0],
                    forall|j2: int|
                        0 <= j2 < targets@.len() ==> (#[trigger] targets@[j2])@.len()
                            == n_start.layers.last(),
                    forall|a: u64, b: u64, c: u64| call_requires(mac, (a, b, c)),
                    forall|a: u64, b: u64| call_requires(addw, (a, b)),
                    forall|a: u64| call_requires(act, (a,)),
                    forall|a: u64, b: u64| call_requires(subw, (a, b)),
                    forall|a: u64, b: u64| call_requires(mulw, (a, b)),
                    forall|a: u64| call_requires(scale, (a,)),
                    forall|a: u64| call_requires(deriv, (a,)),
                    hist.len() == e as int * len + j + 1,
                    hist[0] == n_start,
                    hist.last() == self@,
                    forall|t: int|
                        0 <= t < hist.len() - 1 ==> step_rel(
                            mac,
                            addw,
                            act,
                            subw,
                            mulw,
                            scale,
                            deriv,
                            #[trigger] hist[t],
                            ideep[t % len as int],
                            tdeep[t % len as int],
                            hist[t + 1],
                        ),
                decreases len - j,
            {
                let x = Matrix::from(crate::matrix::copy_words(&inputs[j]));
                let ghost n_before: NetModel = self@;
                proof {
                    assert(x@ =~= MatModel::column(ideep[j as int]));
                    assert(n_start.layers.last() == n_start.layers[n_start.layers.len() - 1]);
                }
                let out = self.feed_forward(x, mac, addw, act);
                let ghost n_mid: NetModel = self@;
                let t = Matrix::from(crate::matrix::copy_words(&targets[j]));
                proof {
                    assert(t@ =~= MatModel::column(tdeep[j as int]));
                    assert(out@ == n_mid.cache.last());
                }
                self.back_propogate(out, t, subw, mulw, scale, addw, mac, deriv);
                proof {
                    let n_after = self@;
                    let tt: int = e as int * len + j;
                    vstd::arithmetic::div_mod::lemma_mod_multiples_vanish(e as int, j as int, len as int);
                    vstd::arithmetic::div_mod::lemma_small_mod(j as nat, len as nat);
                    assert(tt % len as int == j);
                    assert(n_after.cache == n_mid.cache);
                    assert(ff_rel(
                        mac,
                        addw,
                        act,
                        n_before,
                        MatModel::column(ideep[tt % len as int]),
                        n_after.cache,
                        out@,
                    ));
                    assert(backprop_rel(
                        subw,
                        mulw,
                        scale,
                        addw,
                        mac,
                        deriv,
                        n_after.cache,
                        MatModel::column(tdeep[tt % len as int]),
                        out@,
                        n_before.weights,
                        n_before.biases,
                        n_after.weights,
                        n_after.biases,
                    ));
                    assert(step_rel(
                        mac,
                        addw,
                        act,
                        subw,
                        mulw,
                        scale,
                        deriv,
                        n_before,
                        ideep[tt % len as int],
                        tdeep[tt % len as int],
                        n_after,
                    ));
                    hist = hist.push(n_after);
                }
                j += 1;
            }
            proof {
                assert((e as int + 1) * len == e as int * len + len) by (nonlinear_arith);
            }
            e += 1;
        }
        proof {
            assert(trace_marker(hist));
            assert(hist.len() == epochs as int * ideep.len() + 1);
            assert(train_rel(
                mac,
                addw,
                act,
                subw,
                mulw,
                scale,
                deriv,
                ideep,
                tdeep,
                n_start,
                self@,
                epochs,
            ));
        }
    }
}

} // verus!
