//! The engine's global laws, each proved once and for all: transposition is
//! an involution, the forward pass is deterministic whenever the supplied
//! scalar closures are, and persistence preserves inference.

use vstd::prelude::*;
use crate::matrix::{MatModel, map_rel, zip_rel, dot_rel, dot_entry_rel, is_mac_chain};
use crate::network::{NetModel, BpState, layer_rel, ff_rel, bp_step_rel, bp_trace, backprop_rel, step_rel, train_rel, trace_marker};
use crate::codec::{decode, encode, cleared, lemma_decode_encode};

verus! {

/// A unary scalar closure gives at most one output per input.
pub open spec fn unary_deterministic<F: Fn(u64) -> u64>(f: F) -> bool {
    forall|x: u64, r1: u64, r2: u64|
        call_ensures(f, (x,), r1) && call_ensures(f, (x,), r2) ==> r1 == r2
}

/// A binary scalar closure gives at most one output per input pair.
pub open spec fn binary_deterministic<F: Fn(u64, u64) -> u64>(f: F) -> bool {
    forall|x: u64, y: u64, r1: u64, r2: u64|
        call_ensures(f, (x, y), r1) && call_ensures(f, (x, y), r2) ==> r1 == r2
}

/// A multiply-accumulate closure gives at most one output per input triple.
pub open spec fn mac_deterministic<F: Fn(u64, u64, u64) -> u64>(f: F) -> bool {
    forall|p: u64, x: u64, y: u64, r1: u64, r2: u64|
        call_ensures(f, (p, x, y), r1) && call_ensures(f, (p, x, y), r2) ==> r1 == r2
}

/// Transposing twice gives the original matrix back.
pub proof fn lemma_transpose_involution(m: MatModel)
    requires
        m.wf(),
    ensures
        m.transpose_spec().transpose_spec() == m,
{
    let t = m.transpose_spec();
    let tt = t.transpose_spec();
    assert(tt.data.len() == m.rows * m.cols) by {
        assert(t.cols * t.rows == m.rows * m.cols) by (nonlinear_arith)
            requires t.cols == m.rows, t.rows == m.cols;
    }
    assert forall|k: int| 0 <= k < tt.data.len() implies tt.data[k] == m.data[k] by {
        assert(m.rows > 0 && m.cols > 0) by (nonlinear_arith)
            requires 0 <= k < m.rows * m.cols;
        let c = m.cols as int;
        let r = m.rows as int;
        let i = k / c;
        let j = k % c;
        vstd::arithmetic::div_mod::lemma_fundamental_div_mod(k, c);
        vstd::arithmetic::div_mod::lemma_mod_division_less_than_divisor(k, c);
        assert(k < c * r) by (nonlinear_arith)
            requires k < m.rows * m.cols, c == m.cols, r == m.rows;
        vstd::arithmetic::div_mod::lemma_multiply_divide_lt(k, c, r);
        assert(0 <= j < c && 0 <= i < r);
        assert(tt.data[k] == t.ent(j, i));
        let q = j * r + i;
        assert(0 <= q < c * r) by (nonlinear_arith)
            requires q == j * r + i, 0 <= j < c, 0 <= i < r;
        assert(t.ent(j, i) == t.data[q]);
        assert(t.data[q] == m.ent(q % r, q / r));
        assert(q % r == i && q / r == j) by (nonlinear_arith)
            requires q == j * r + i, 0 <= i < r, 0 <= j;
        assert(m.ent(i, j) == m.data[i * c + j]);
        assert(i * c + j == k) by (nonlinear_arith)
            requires k == c * i + j;
    }
    assert(tt =~= m);
}

/// An element-wise application under a deterministic closure has exactly one
/// result.
pub proof fn lemma_map_rel_deterministic<F: Fn(u64) -> u64>(f: F, a: MatModel, r1: MatModel, r2: MatModel)
    requires
        map_rel(f, a, r1),
        map_rel(f, a, r2),
        unary_deterministic(f),
    ensures
        r1 == r2,
{
    assert(r1.data =~= r2.data);
    assert(r1 =~= r2);
}

/// An element-wise combination under a deterministic closure has exactly one
/// result.
pub proof fn lemma_zip_rel_deterministic<F: Fn(u64, u64) -> u64>(
    f: F,
    a: MatModel,
    b: MatModel,
    r1: MatModel,
    r2: MatModel,
)
    requires
        zip_rel(f, a, b, r1),
        zip_rel(f, a, b, r2),
        binary_deterministic(f),
    ensures
        r1 == r2,
{
    assert(r1.data =~= r2.data);
    assert(r1 =~= r2);
}

/// Two complete accumulation runs of the same inner product agree at every
/// step when the closure is deterministic.
proof fn lemma_mac_chain_unique<F: Fn(u64, u64, u64) -> u64>(
    f: F,
    a: MatModel,
    b: MatModel,
    i: int,
    j: int,
    s1: Seq<u64>,
    s2: Seq<u64>,
    k: int,
)
    requires
        is_mac_chain(f, a, b, i, j, s1),
        is_mac_chain(f, a, b, i, j, s2),
        mac_deterministic(f),
        0 <= k <= a.cols,
    ensures
        s1[k] == s2[k],
    decreases k,
{
    if k > 0 {
        lemma_mac_chain_unique(f, a, b, i, j, s1, s2, k - 1);
        assert(s1[(k - 1) + 1] == s1[k]);
        assert(s2[(k - 1) + 1] == s2[k]);
        assert(call_ensures(f, (s1[k - 1], a.ent(i, k - 1), b.ent(k - 1, j)), s1[(k - 1) + 1]));
        assert(call_ensures(f, (s2[k - 1], a.ent(i, k - 1), b.ent(k - 1, j)), s2[(k - 1) + 1]));
    }
}

/// An inner-product entry under a deterministic closure has exactly one
/// value.
proof fn lemma_dot_entry_unique<F: Fn(u64, u64, u64) -> u64>(
    f: F,
    a: MatModel,
    b: MatModel,
    i: int,
    j: int,
    o1: u64,
    o2: u64,
)
    requires
        dot_entry_rel(f, a, b, i, j, o1),
        dot_entry_rel(f, a, b, i, j, o2),
        mac_deterministic(f),
    ensures
        o1 == o2,
{
    let s1 = choose|s: Seq<u64>| #[trigger] is_mac_chain(f, a, b, i, j, s) && o1 == s[a.cols as int];
    let s2 = choose|s: Seq<u64>| #[trigger] is_mac_chain(f, a, b, i, j, s) && o2 == s[a.cols as int];
    lemma_mac_chain_unique(f, a, b, i, j, s1, s2, a.cols as int);
}

/// A matrix product under a deterministic closure has exactly one result.
pub proof fn lemma_dot_rel_deterministic<F: Fn(u64, u64, u64) -> u64>(
    f: F,
    a: MatModel,
    b: MatModel,
    r1: MatModel,
    r2: MatModel,
)
    requires
        dot_rel(f, a, b, r1),
        dot_rel(f, a, b, r2),
        mac_deterministic(f),
    ensures
        r1 == r2,
{
    assert forall|k: int| 0 <= k < r1.data.len() implies r1.data[k] == r2.data[k] by {
        assert(r1.rows > 0 && r1.cols > 0) by (nonlinear_arith)
            requires 0 <= k < r1.rows * r1.cols;
        let c = r1.cols as int;
        let i = k / c;
        let j = k % c;
        vstd::arithmetic::div_mod::lemma_fundamental_div_mod(k, c);
        vstd::arithmetic::div_mod::lemma_mod_division_less_than_divisor(k, c);
        assert(k < c * r1.rows) by (nonlinear_arith)
            requires k < r1.rows * r1.cols, c == r1.cols;
        vstd::arithmetic::div_mod::lemma_multiply_divide_lt(k, c, r1.rows as int);
        assert(i * c + j == k) by (nonlinear_arith)
            requires k == c * i + j;
        assert(r1.ent(i, j) == r1.data[k]);
        assert(r2.ent(i, j) == r2.data[k]);
        lemma_dot_entry_unique(f, a, b, i, j, r1.ent(i, j), r2.ent(i, j));
    }
    assert(r1.data =~= r2.data);
    assert(r1 =~= r2);
}

/// One layer transition under deterministic closures has exactly one result.
proof fn lemma_layer_rel_deterministic<
    FM: Fn(u64, u64, u64) -> u64,
    FA: Fn(u64, u64) -> u64,
    FS: Fn(u64) -> u64,
>(
    mac: FM,
    addw: FA,
    act: FS,
    w: MatModel,
    b: MatModel,
    cur: MatModel,
    n1: MatModel,
    n2: MatModel,
)
    requires
        layer_rel(mac, addw, act, w, b, cur, n1),
        layer_rel(mac, addw, act, w, b, cur, n2),
        mac_deterministic(mac),
        binary_deterministic(addw),
        unary_deterministic(act),
    ensures
        n1 == n2,
{
    let (z01, z11): (MatModel, MatModel) = choose|z0: MatModel, z1: MatModel|
        #![trigger dot_rel(mac, w, cur, z0), zip_rel(addw, z0, b, z1)]
        dot_rel(mac, w, cur, z0) && zip_rel(addw, z0, b, z1) && map_rel(act, z1, n1);
    let (z02, z12): (MatModel, MatModel) = choose|z0: MatModel, z1: MatModel|
        #![trigger dot_rel(mac, w, cur, z0), zip_rel(addw, z0, b, z1)]
        dot_rel(mac, w, cur, z0) && zip_rel(addw, z0, b, z1) && map_rel(act, z1, n2);
    lemma_dot_rel_deterministic(mac, w, cur, z01, z02);
    lemma_zip_rel_deterministic(addw, z01, b, z11, z12);
    lemma_map_rel_deterministic(act, z11, n1, n2);
}

/// The first `idx + 1` cached activations of two forward passes of the same
/// network on the same input agree when the closures are deterministic.
proof fn lemma_ff_cache_prefix_unique<
    FM: Fn(u64, u64, u64) -> u64,
    FA: Fn(u64, u64) -> u64,
    FS: Fn(u64) -> u64,
>(
    mac: FM,
    addw: FA,
    act: FS,
    n: NetModel,
    input: MatModel,
    c1: Seq<MatModel>,
    o1: MatModel,
    c2: Seq<MatModel>,
    o2: MatModel,
    idx: int,
)
    requires
        ff_rel(mac, addw, act, n, input, c1, o1),
        ff_rel(mac, addw, act, n, input, c2, o2),
        mac_deterministic(mac),
        binary_deterministic(addw),
        unary_deterministic(act),
        0 <= idx < n.layers.len(),
    ensures
        c1[idx] == c2[idx],
    decreases idx,
{
    if idx > 0 {
        lemma_ff_cache_prefix_unique(mac, addw, act, n, input, c1, o1, c2, o2, idx - 1);
        assert(layer_rel(mac, addw, act, n.weights[idx - 1], n.biases[idx - 1], c1[idx - 1], c1[(idx
            - 1) + 1]));
        assert(layer_rel(mac, addw, act, n.weights[idx - 1], n.biases[idx - 1], c2[idx - 1], c2[(idx
            - 1) + 1]));
        lemma_layer_rel_deterministic(
            mac,
            addw,
            act,
            n.weights[idx - 1],
            n.biases[idx - 1],
            c1[idx - 1],
            c1[idx],
            c2[idx],
        );
    }
}

/// The forward pass is a pure function of the network's parameters and its
/// input: with the parameters held constant and deterministic scalar
/// closures, two passes on the same input leave the same cache and return
/// the same output.
pub proof fn lemma_feed_forward_deterministic<
    FM: Fn(u64, u64, u64) -> u64,
    FA: Fn(u64, u64) -> u64,
    FS: Fn(u64) -> u64,
>(
    mac: FM,
    addw: FA,
    act: FS,
    n: NetModel,
    input: MatModel,
    c1: Seq<MatModel>,
    o1: MatModel,
    c2: Seq<MatModel>,
    o2: MatModel,
)
    requires
        ff_rel(mac, addw, act, n, input, c1, o1),
        ff_rel(mac, addw, act, n, input, c2, o2),
        mac_deterministic(mac),
        binary_deterministic(addw),
        unary_deterministic(act),
    ensures
        c1 == c2,
        o1 == o2,
{
    assert forall|idx: int| 0 <= idx < c1.len() implies c1[idx] == c2[idx] by {
        lemma_ff_cache_prefix_unique(mac, addw, act, n, input, c1, o1, c2, o2, idx);
    }
    assert(c1 =~= c2);
}

/// Two networks with the same parameters run the forward pass identically:
/// the relation only reads the layer sizes, weights, biases and closures.
pub proof fn lemma_ff_rel_params_only<
    FM: Fn(u64, u64, u64) -> u64,
    FA: Fn(u64, u64) -> u64,
    FS: Fn(u64) -> u64,
>(
    mac: FM,
    addw: FA,
    act: FS,
    n1: NetModel,
    n2: NetModel,
    input: MatModel,
    cache: Seq<MatModel>,
    out: MatModel,
)
    requires
        n1.params_eq(n2),
    ensures
        ff_rel(mac, addw, act, n1, input, cache, out) == ff_rel(mac, addw, act, n2, input, cache, out),
{
}

/// One backward step under deterministic closures has exactly one result
/// state.
proof fn lemma_bp_step_deterministic<
    FMul: Fn(u64, u64) -> u64,
    FSc: Fn(u64) -> u64,
    FA: Fn(u64, u64) -> u64,
    FM: Fn(u64, u64, u64) -> u64,
    FD: Fn(u64) -> u64,
>(
    mulw: FMul,
    scale: FSc,
    addw: FA,
    mac: FM,
    deriv: FD,
    cache_i: MatModel,
    i: int,
    st: BpState,
    st2: BpState,
    st3: BpState,
)
    requires
        bp_step_rel(mulw, scale, addw, mac, deriv, cache_i, i, st, st2),
        bp_step_rel(mulw, scale, addw, mac, deriv, cache_i, i, st, st3),
        binary_deterministic(mulw),
        unary_deterministic(scale),
        binary_deterministic(addw),
        mac_deterministic(mac),
        unary_deterministic(deriv),
    ensures
        st2 == st3,
{
    let (g0a, g1a, wda, nwa, nba): (MatModel, MatModel, MatModel, MatModel, MatModel) = choose|
        g0: MatModel,
        g1: MatModel,
        wd: MatModel,
        nw: MatModel,
        nb: MatModel,
    |
        #![trigger zip_rel(mulw, st.grads, st.errs, g0), map_rel(scale, g0, g1), dot_rel(mac, g1, cache_i.transpose_spec(), wd), zip_rel(addw, st.weights[i], wd, nw), zip_rel(addw, st.biases[i], g1, nb)]
        {
            &&& zip_rel(mulw, st.grads, st.errs, g0)
            &&& map_rel(scale, g0, g1)
            &&& dot_rel(mac, g1, cache_i.transpose_spec(), wd)
            &&& zip_rel(addw, st.weights[i], wd, nw)
            &&& zip_rel(addw, st.biases[i], g1, nb)
            &&& st2.weights == st.weights.update(i, nw)
            &&& st2.biases == st.biases.update(i, nb)
            &&& dot_rel(mac, nw.transpose_spec(), st.errs, st2.errs)
            &&& map_rel(deriv, cache_i, st2.grads)
        };
    let (g0b, g1b, wdb, nwb, nbb): (MatModel, MatModel, MatModel, MatModel, MatModel) = choose|
        g0: MatModel,
        g1: MatModel,
        wd: MatModel,
        nw: MatModel,
        nb: MatModel,
    |
        #![trigger zip_rel(mulw, st.grads, st.errs, g0), map_rel(scale, g0, g1), dot_rel(mac, g1, cache_i.transpose_spec(), wd), zip_rel(addw, st.weights[i], wd, nw), zip_rel(addw, st.biases[i], g1, nb)]
        {
            &&& zip_rel(mulw, st.grads, st.errs, g0)
            &&& map_rel(scale, g0, g1)
            &&& dot_rel(mac, g1, cache_i.transpose_spec(), wd)
            &&& zip_rel(addw, st.weights[i], wd, nw)
            &&& zip_rel(addw, st.biases[i], g1, nb)
            &&& st3.weights == st.weights.update(i, nw)
            &&& st3.biases == st.biases.update(i, nb)
            &&& dot_rel(mac, nw.transpose_spec(), st.errs, st3.errs)
            &&& map_rel(deriv, cache_i, st3.grads)
        };
    lemma_zip_rel_deterministic(mulw, st.grads, st.errs, g0a, g0b);
    lemma_map_rel_deterministic(scale, g0a, g1a, g1b);
    lemma_dot_rel_deterministic(mac, g1a, cache_i.transpose_spec(), wda, wdb);
    lemma_zip_rel_deterministic(addw, st.weights[i], wda, nwa, nwb);
    lemma_zip_rel_deterministic(addw, st.biases[i], g1a, nba, nbb);
    lemma_dot_rel_deterministic(mac, nwa.transpose_spec(), st.errs, st2.errs, st3.errs);
    lemma_map_rel_deterministic(deriv, cache_i, st2.grads, st3.grads);
    assert(st2 =~= st3);
}

/// Two backward-pass traces from the same starting state agree step by
/// step when the closures are deterministic.
proof fn lemma_bp_hist_prefix_unique<
    FMul: Fn(u64, u64) -> u64,
    FSc: Fn(u64) -> u64,
    FA: Fn(u64, u64) -> u64,
    FM: Fn(u64, u64, u64) -> u64,
    FD: Fn(u64) -> u64,
>(
    mulw: FMul,
    scale: FSc,
    addw: FA,
    mac: FM,
    deriv: FD,
    cache: Seq<MatModel>,
    h1: Seq<BpState>,
    h2: Seq<BpState>,
    t: int,
)
    requires
        h1.len() == cache.len(),
        h2.len() == cache.len(),
        h1[0] == h2[0],
        forall|q: int|
            0 <= q < h1.len() - 1 ==> bp_step_rel(
                mulw,
                scale,
                addw,
                mac,
                deriv,
                cache[cache.len() - 2 - q],
                cache.len() - 2 - q,
                #[trigger] h1[q],
                h1[q + 1],
            ),
        forall|q: int|
            0 <= q < h2.len() - 1 ==> bp_step_rel(
                mulw,
                scale,
                addw,
                mac,
                deriv,
                cache[cache.len() - 2 - q],
                cache.len() - 2 - q,
                #[trigger] h2[q],
                h2[q + 1],
            ),
        binary_deterministic(mulw),
        unary_deterministic(scale),
        binary_deterministic(addw),
        mac_deterministic(mac),
        unary_deterministic(deriv),
        0 <= t < h1.len(),
    ensures
        h1[t] == h2[t],
    decreases t,
{
    if t > 0 {
        lemma_bp_hist_prefix_unique(mulw, scale, addw, mac, deriv, cache, h1, h2, t - 1);
        assert(bp_step_rel(
            mulw,
            scale,
            addw,
            mac,
            deriv,
            cache[cache.len() - 2 - (t - 1)],
            cache.len() - 2 - (t - 1),
            h1[t - 1],
            h1[(t - 1) + 1],
        ));
        assert(bp_step_rel(
            mulw,
            scale,
            addw,
            mac,
            deriv,
            cache[cache.len() - 2 - (t - 1)],
            cache.len() - 2 - (t - 1),
            h2[t - 1],
            h2[(t - 1) + 1],
        ));
        lemma_bp_step_deterministic(
            mulw,
            scale,
            addw,
            mac,
            deriv,
            cache[cache.len() - 2 - (t - 1)],
            cache.len() - 2 - (t - 1),
            h1[t - 1],
            h1[t],
            h2[t],
        );
    }
}

/// The backward pass is a pure function of the cache, the targets, the
/// outputs and the parameters, whenever the scalar closures are
/// deterministic.
pub proof fn lemma_back_propagation_deterministic<
    FSub: Fn(u64, u64) -> u64,
    FMul: Fn(u64, u64) -> u64,
    FSc: Fn(u64) -> u64,
    FA: Fn(u64, u64) -> u64,
    FM: Fn(u64, u64, u64) -> u64,
    FD: Fn(u64) -> u64,
>(
    subw: FSub,
    mulw: FMul,
    scale: FSc,
    addw: FA,
    mac: FM,
    deriv: FD,
    cache: Seq<MatModel>,
    targets: MatModel,
    outputs: MatModel,
    ws0: Seq<MatModel>,
    bs0: Seq<MatModel>,
    ws2: Seq<MatModel>,
    bs2: Seq<MatModel>,
    ws3: Seq<MatModel>,
    bs3: Seq<MatModel>,
)
    requires
        backprop_rel(subw, mulw, scale, addw, mac, deriv, cache, targets, outputs, ws0, bs0, ws2, bs2),
        backprop_rel(subw, mulw, scale, addw, mac, deriv, cache, targets, outputs, ws0, bs0, ws3, bs3),
        cache.len() > 0,
        binary_deterministic(subw),
        binary_deterministic(mulw),
        unary_deterministic(scale),
        binary_deterministic(addw),
        mac_deterministic(mac),
        unary_deterministic(deriv),
    ensures
        ws2 == ws3,
        bs2 == bs3,
{
    let (e1, g1, h1): (MatModel, MatModel, Seq<BpState>) = choose|
        e0: MatModel,
        g0: MatModel,
        hist: Seq<BpState>,
    |
        #[trigger] bp_trace(
            subw,
            mulw,
            scale,
            addw,
            mac,
            deriv,
            cache,
            targets,
            outputs,
            ws0,
            bs0,
            ws2,
            bs2,
            e0,
            g0,
            hist,
        );
    let (e2, g2, h2): (MatModel, MatModel, Seq<BpState>) = choose|
        e0: MatModel,
        g0: MatModel,
        hist: Seq<BpState>,
    |
        #[trigger] bp_trace(
            subw,
            mulw,
            scale,
            addw,
            mac,
            deriv,
            cache,
            targets,
            outputs,
            ws0,
            bs0,
            ws3,
            bs3,
            e0,
            g0,
            hist,
        );
    lemma_zip_rel_deterministic(subw, targets, outputs, e1, e2);
    lemma_map_rel_deterministic(deriv, outputs, g1, g2);
    assert(h1[0] == h2[0]);
    lemma_bp_hist_prefix_unique(mulw, scale, addw, mac, deriv, cache, h1, h2, cache.len() - 1);
    assert(h1.last() == h2.last());
}

/// One training step under deterministic closures has exactly one result
/// network.
proof fn lemma_step_rel_deterministic<
    FM: Fn(u64, u64, u64) -> u64,
    FA: Fn(u64, u64) -> u64,
    FS: Fn(u64) -> u64,
    FSub: Fn(u64, u64) -> u64,
    FMul: Fn(u64, u64) -> u64,
    FSc: Fn(u64) -> u64,
    FD: Fn(u64) -> u64,
>(
    mac: FM,
    addw: FA,
    act: FS,
    subw: FSub,
    mulw: FMul,
    scale: FSc,
    deriv: FD,
    n: NetModel,
    x: Seq<u64>,
    t: Seq<u64>,
    n2: NetModel,
    n3: NetModel,
)
    requires
        step_rel(mac, addw, act, subw, mulw, scale, deriv, n, x, t, n2),
        step_rel(mac, addw, act, subw, mulw, scale, deriv, n, x, t, n3),
        n.layers.len() > 0,
        mac_deterministic(mac),
        binary_deterministic(addw),
        unary_deterministic(act),
        binary_deterministic(subw),
        binary_deterministic(mulw),
        unary_deterministic(scale),
        unary_deterministic(deriv),
    ensures
        n2 == n3,
{
    let o2: MatModel = choose|out: MatModel|
        {
            &&& #[trigger] ff_rel(mac, addw, act, n, MatModel::column(x), n2.cache, out)
            &&& n2.layers == n.layers
            &&& n2.activation == n.activation
            &&& n2.learning_rate == n.learning_rate
            &&& backprop_rel(
                subw,
                mulw,
                scale,
                addw,
                mac,
                deriv,
                n2.cache,
                MatModel::column(t),
                out,
                n.weights,
                n.biases,
                n2.weights,
                n2.biases,
            )
        };
    let o3: MatModel = choose|out: MatModel|
        {
            &&& #[trigger] ff_rel(mac, addw, act, n, MatModel::column(x), n3.cache, out)
            &&& n3.layers == n.layers
            &&& n3.activation == n.activation
            &&& n3.learning_rate == n.learning_rate
            &&& backprop_rel(
                subw,
                mulw,
                scale,
                addw,
                mac,
                deriv,
                n3.cache,
                MatModel::column(t),
                out,
                n.weights,
                n.biases,
                n3.weights,
                n3.biases,
            )
        };
    lemma_feed_forward_deterministic(
        mac,
        addw,
        act,
        n,
        MatModel::column(x),
        n2.cache,
        o2,
        n3.cache,
        o3,
    );
    lemma_back_propagation_deterministic(
        subw,
        mulw,
        scale,
        addw,
        mac,
        deriv,
        n2.cache,
        MatModel::column(t),
        o2,
        n.weights,
        n.biases,
        n2.weights,
        n2.biases,
        n3.weights,
        n3.biases,
    );
    assert(n2 =~= n3);
}

/// Two training traces from the same starting network agree step by step
/// when the closures are deterministic.
proof fn lemma_train_hist_prefix_unique<
    FM: Fn(u64, u64, u64) -> u64,
    FA: Fn(u64, u64) -> u64,
    FS: Fn(u64) -> u64,
    FSub: Fn(u64, u64) -> u64,
    FMul: Fn(u64, u64) -> u64,
    FSc: Fn(u64) -> u64,
    FD: Fn(u64) -> u64,
>(
    mac: FM,
    addw: FA,
    act: FS,
    subw: FSub,
    mulw: FMul,
    scale: FSc,
    deriv: FD,
    inputs: Seq<Seq<u64>>,
    targets: Seq<Seq<u64>>,
    h1: Seq<NetModel>,
    h2: Seq<NetModel>,
    t: int,
)
    requires
        h1.len() == h2.len(),
        h1.len() > 0,
        h1[0] == h2[0],
        forall|q: int|
            0 <= q < h1.len() - 1 ==> step_rel(
                mac,
                addw,
                act,
                subw,
                mulw,
                scale,
                deriv,
                #[trigger] h1[q],
                inputs[q % inputs.len() as int],
                targets[q % inputs.len() as int],
                h1[q + 1],
            ),
        forall|q: int|
            0 <= q < h2.len() - 1 ==> step_rel(
                mac,
                addw,
                act,
                subw,
                mulw,
                scale,
                deriv,
                #[trigger] h2[q],
                inputs[q % inputs.len() as int],
                targets[q % inputs.len() as int],
                h2[q + 1],
            ),
        forall|q: int| 0 <= q < h1.len() ==> (#[trigger] h1[q]).layers.len() > 0,
        mac_deterministic(mac),
        binary_deterministic(addw),
        unary_deterministic(act),
        binary_deterministic(subw),
        binary_deterministic(mulw),
        unary_deterministic(scale),
        unary_deterministic(deriv),
        0 <= t < h1.len(),
    ensures
        h1[t] == h2[t],
    decreases t,
{
    if t > 0 {
        lemma_train_hist_prefix_unique(
            mac, addw, act, subw, mulw, scale, deriv, inputs, targets, h1, h2, t - 1,
        );
        assert(step_rel(
            mac,
            addw,
            act,
            subw,
            mulw,
            scale,
            deriv,
            h1[t - 1],
            inputs[(t - 1) % inputs.len() as int],
            targets[(t - 1) % inputs.len() as int],
            h1[(t - 1) + 1],
        ));
        assert(step_rel(
            mac,
            addw,
            act,
            subw,
            mulw,
            scale,
            deriv,
            h2[t - 1],
            inputs[(t - 1) % inputs.len() as int],
            targets[(t - 1) % inputs.len() as int],
            h2[(t - 1) + 1],
        ));
        lemma_step_rel_deterministic(
            mac,
            addw,
            act,
            subw,
            mulw,
            scale,
            deriv,
            h1[t - 1],
            inputs[(t - 1) % inputs.len() as int],
            targets[(t - 1) % inputs.len() as int],
            h1[t],
            h2[t],
        );
    }
}

/// Along a training trace the layer sizes never change.
proof fn lemma_train_hist_layers_constant<
    FM: Fn(u64, u64, u64) -> u64,
    FA: Fn(u64, u64) -> u64,
    FS: Fn(u64) -> u64,
    FSub: Fn(u64, u64) -> u64,
    FMul: Fn(u64, u64) -> u64,
    FSc: Fn(u64) -> u64,
    FD: Fn(u64) -> u64,
>(
    mac: FM,
    addw: FA,
    act: FS,
    subw: FSub,
    mulw: FMul,
    scale: FSc,
    deriv: FD,
    inputs: Seq<Seq<u64>>,
    targets: Seq<Seq<u64>>,
    h: Seq<NetModel>,
    t: int,
)
    requires
        forall|q: int|
            0 <= q < h.len() - 1 ==> step_rel(
                mac,
                addw,
                act,
                subw,
                mulw,
                scale,
                deriv,
                #[trigger] h[q],
                inputs[q % inputs.len() as int],
                targets[q % inputs.len() as int],
                h[q + 1],
            ),
        0 <= t < h.len(),
    ensures
        h[t].layers == h[0].layers,
    decreases t,
{
    if t > 0 {
        lemma_train_hist_layers_constant(
            mac, addw, act, subw, mulw, scale, deriv, inputs, targets, h, t - 1,
        );
        assert(step_rel(
            mac,
            addw,
            act,
            subw,
            mulw,
            scale,
            deriv,
            h[t - 1],
            inputs[(t - 1) % inputs.len() as int],
            targets[(t - 1) % inputs.len() as int],
            h[(t - 1) + 1],
        ));
        let n = h[t - 1];
        let n2 = h[t];
        let x = inputs[(t - 1) % inputs.len() as int];
        let tv = targets[(t - 1) % inputs.len() as int];
        let o: MatModel = choose|out: MatModel|
            {
                &&& #[trigger] ff_rel(mac, addw, act, n, MatModel::column(x), n2.cache, out)
                &&& n2.layers == n.layers
                &&& n2.activation == n.activation
                &&& n2.learning_rate == n.learning_rate
                &&& backprop_rel(
                    subw,
                    mulw,
                    scale,
                    addw,
                    mac,
                    deriv,
                    n2.cache,
                    MatModel::column(tv),
                    out,
                    n.weights,
                    n.biases,
                    n2.weights,
                    n2.biases,
                )
            };
        assert(n2.layers == n.layers);
    }
}

/// Training is a pure function of the starting network, the examples, the
/// epoch count and the scalar closures: two training runs with the same
/// deterministic closures end in the same network.
pub proof fn lemma_train_deterministic<
    FM: Fn(u64, u64, u64) -> u64,
    FA: Fn(u64, u64) -> u64,
    FS: Fn(u64) -> u64,
    FSub: Fn(u64, u64) -> u64,
    FMul: Fn(u64, u64) -> u64,
    FSc: Fn(u64) -> u64,
    FD: Fn(u64) -> u64,
>(
    mac: FM,
    addw: FA,
    act: FS,
    subw: FSub,
    mulw: FMul,
    scale: FSc,
    deriv: FD,
    inputs: Seq<Seq<u64>>,
    targets: Seq<Seq<u64>>,
    n0: NetModel,
    na: NetModel,
    nb: NetModel,
    epochs: u32,
)
    requires
        train_rel(mac, addw, act, subw, mulw, scale, deriv, inputs, targets, n0, na, epochs),
        train_rel(mac, addw, act, subw, mulw, scale, deriv, inputs, targets, n0, nb, epochs),
        n0.layers.len() > 0,
        mac_deterministic(mac),
        binary_deterministic(addw),
        unary_deterministic(act),
        binary_deterministic(subw),
        binary_deterministic(mulw),
        unary_deterministic(scale),
        unary_deterministic(deriv),
    ensures
        na == nb,
{
    let ha: Seq<NetModel> = choose|hist: Seq<NetModel>|
        #[trigger] trace_marker(hist)
        && {
            &&& hist.len() == epochs as int * inputs.len() + 1
            &&& hist[0] == n0
            &&& hist.last() == na
            &&& forall|t: int|
                0 <= t < hist.len() - 1 ==> step_rel(
                    mac,
                    addw,
                    act,
                    subw,
                    mulw,
                    scale,
                    deriv,
                    #[trigger] hist[t],
                    inputs[t % inputs.len() as int],
                    targets[t % inputs.len() as int],
                    hist[t + 1],
                )
        };
    let hb: Seq<NetModel> = choose|hist: Seq<NetModel>|
        #[trigger] trace_marker(hist)
        && {
            &&& hist.len() == epochs as int * inputs.len() + 1
            &&& hist[0] == n0
            &&& hist.last() == nb
            &&& forall|t: int|
                0 <= t < hist.len() - 1 ==> step_rel(
                    mac,
                    addw,
                    act,
                    subw,
                    mulw,
                    scale,
                    deriv,
                    #[trigger] hist[t],
                    inputs[t % inputs.len() as int],
                    targets[t % inputs.len() as int],
                    hist[t + 1],
                )
        };
    assert(epochs as int * inputs.len() >= 0) by (nonlinear_arith);
    assert forall|q: int| 0 <= q < ha.len() implies (#[trigger] ha[q]).layers.len() > 0 by {
        lemma_train_hist_layers_constant(
            mac, addw, act, subw, mulw, scale, deriv, inputs, targets, ha, q,
        );
    }
    lemma_train_hist_prefix_unique(
        mac,
        addw,
        act,
        subw,
        mulw,
        scale,
        deriv,
        inputs,
        targets,
        ha,
        hb,
        ha.len() - 1,
    );
    assert(ha.last() == hb.last());
}

/// Persistence preserves inference: a saved and re-loaded network decodes to
/// the original parameters (only the transient cache is dropped), so every
/// forward pass of the loaded network gives exactly what the original gives.
pub proof fn lemma_save_load_preserves_inference<
    FM: Fn(u64, u64, u64) -> u64,
    FA: Fn(u64, u64) -> u64,
    FS: Fn(u64) -> u64,
>(
    mac: FM,
    addw: FA,
    act: FS,
    n: NetModel,
    input: MatModel,
    cache: Seq<MatModel>,
    out: MatModel,
)
    requires
        n.wf(),
        n.layers.len() <= usize::MAX,
    ensures
        decode(encode(n)) == Some(cleared(n)),
        cleared(n).wf(),
        ff_rel(mac, addw, act, cleared(n), input, cache, out) == ff_rel(
            mac,
            addw,
            act,
            n,
            input,
            cache,
            out,
        ),
{
    lemma_decode_encode(n);
    lemma_ff_rel_params_only(mac, addw, act, cleared(n), n, input, cache, out);
}

} // verus!
