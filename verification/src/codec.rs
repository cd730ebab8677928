//! The binary persistence format: a self-describing little-endian encoding
//! of a network's layer sizes, weight and bias matrices, activation
//! descriptor and learning-rate word.
//!
//! The encoding is a sequence of 64-bit words, each laid out as 8 bytes
//! little-endian: the layer count, the layer sizes, one weight matrix per
//! layer transition as `rows, cols, data` (row-major), the bias matrices
//! likewise, the activation tag, and the learning-rate word. The
//! transient activation cache is not part of the format.

use vstd::prelude::*;
use crate::activations::{Activation, ActivationType};
use crate::matrix::MatModel;
use crate::network::NetModel;

verus! {

/// The error `load` reports when the byte buffer is not a well-formed
/// encoding of a network.
#[derive(Clone, Copy, Debug, PartialEq, Eq, Structural)]
pub enum DecodeError {
    Malformed,
}

/// Byte `r` (0-based, little-endian) of the word `w`.
pub open spec fn le_byte(w: u64, r: int) -> u8 {
    ((w >> ((8 * r) as u64)) & 0xFF) as u8
}

/// The little-endian byte stream of a word sequence.
#[verifier::opaque]
pub open spec fn bytes_of_words(ws: Seq<u64>) -> Seq<u8> {
    Seq::new(ws.len() * 8, |i: int| le_byte(ws[i / 8], i % 8))
}

/// The word starting at byte offset `8 * k` of `b`, read little-endian.
pub open spec fn word_at(b: Seq<u8>, k: int) -> u64 {
    (b[8 * k] as u64) | ((b[8 * k + 1] as u64) << 8u64) | ((b[8 * k + 2] as u64) << 16u64) | ((b[8
        * k + 3] as u64) << 24u64) | ((b[8 * k + 4] as u64) << 32u64) | ((b[8 * k + 5] as u64)
        << 40u64) | ((b[8 * k + 6] as u64) << 48u64) | ((b[8 * k + 7] as u64) << 56u64)
}

/// The word sequence a byte stream holds (whole words only).
#[verifier::opaque]
pub open spec fn words_of_bytes(b: Seq<u8>) -> Seq<u64> {
    Seq::new(b.len() / 8, |k: int| word_at(b, k))
}

/// The words of one matrix: its shape, then its row-major data.
pub open spec fn mat_words(m: MatModel) -> Seq<u64> {
    seq![m.rows as u64, m.cols as u64] + m.data
}

/// The words of a list of matrices, in order.
pub open spec fn mats_words(ms: Seq<MatModel>) -> Seq<u64>
    decreases ms.len(),
{
    if ms.len() == 0 {
        Seq::empty()
    } else {
        mat_words(ms[0]) + mats_words(ms.drop_first())
    }
}

/// The tag word of an activation descriptor.
pub open spec fn act_word(a: Activation) -> u64 {
    match a.activation_type {
        ActivationType::Sigmoid => 0u64,
    }
}

/// The full word sequence of a network: layer count, layer sizes, weight
/// matrices, bias matrices, activation tag, learning-rate word.
pub open spec fn words_of_net(n: NetModel) -> Seq<u64> {
    seq![n.layers.len() as u64] + Seq::new(n.layers.len(), |i: int| n.layers[i] as u64)
        + mats_words(n.weights) + mats_words(n.biases) + seq![act_word(n.activation), n.learning_rate]
}

/// The byte encoding of a network.
pub open spec fn encode(n: NetModel) -> Seq<u8> {
    bytes_of_words(words_of_net(n))
}

/// One matrix parsed at word offset `pos`, against the expected shape
/// `(r, c)`: the stored shape must match, and the data must be complete.
pub open spec fn parse_mat(ws: Seq<u64>, pos: int, r: usize, c: usize) -> Option<(MatModel, int)> {
    if pos + 2 > ws.len() {
        None
    } else if ws[pos] != r as u64 || ws[pos + 1] != c as u64 {
        None
    } else if pos + 2 + r * c > ws.len() {
        None
    } else {
        Some(
            (
                MatModel { rows: r as nat, cols: c as nat, data: ws.subrange(pos + 2, pos + 2 + r * c) },
                pos + 2 + r * c,
            ),
        )
    }
}

/// A list of matrices parsed in order from word offset `pos`, one per
/// expected shape.
pub open spec fn parse_mats(ws: Seq<u64>, pos: int, shapes: Seq<(usize, usize)>) -> Option<
    (Seq<MatModel>, int),
>
    decreases shapes.len(),
{
    if shapes.len() == 0 {
        Some((Seq::empty(), pos))
    } else {
        match parse_mat(ws, pos, shapes[0].0, shapes[0].1) {
            None => None,
            Some((m, p2)) => match parse_mats(ws, p2, shapes.drop_first()) {
                None => None,
                Some((rest, p3)) => Some((seq![m] + rest, p3)),
            },
        }
    }
}

/// The expected weight shapes for a layer-size list: `(layers[i+1], layers[i])`.
pub open spec fn weight_shapes(layers: Seq<usize>) -> Seq<(usize, usize)> {
    Seq::new((layers.len() - 1) as nat, |i: int| (layers[i + 1], layers[i]))
}

/// The expected bias shapes for a layer-size list: `(layers[i+1], 1)`.
pub open spec fn bias_shapes(layers: Seq<usize>) -> Seq<(usize, usize)> {
    Seq::new((layers.len() - 1) as nat, |i: int| (layers[i + 1], 1usize))
}

/// Every stored layer size fits the machine's `usize`.
pub open spec fn layer_words_in_range(ws: Seq<u64>, l: int) -> bool {
    forall|q: int| 0 <= q < l ==> #[trigger] ws[1 + q] <= usize::MAX as u64
}

/// The network a word sequence holds, if it is a complete well-formed
/// encoding: at least two layers, every layer size and shape in range, every
/// matrix complete and of the derived shape, the activation tag known, and
/// nothing after the learning-rate word. The decoded cache is empty.
pub open spec fn parse_net(ws: Seq<u64>) -> Option<NetModel> {
    if ws.len() < 1 {
        None
    } else if ws[0] < 2 || ws[0] > usize::MAX as u64 {
        None
    } else {
        let l = ws[0] as int;
        if ws.len() < 1 + l {
            None
        } else if !layer_words_in_range(ws, l) {
            None
        } else {
            let layers = Seq::new(l as nat, |i: int| ws[1 + i] as usize);
            match parse_mats(ws, 1 + l, weight_shapes(layers)) {
                None => None,
                Some((wmats, p2)) => match parse_mats(ws, p2, bias_shapes(layers)) {
                    None => None,
                    Some((bmats, p3)) => if p3 + 2 == ws.len() && ws[p3] == 0 {
                        Some(
                            NetModel {
                                layers,
                                weights: wmats,
                                biases: bmats,
                                cache: Seq::empty(),
                                activation: Activation { activation_type: ActivationType::Sigmoid },
                                learning_rate: ws[p3 + 1],
                            },
                        )
                    } else {
                        None
                    },
                },
            }
        }
    }
}

/// The network a byte buffer holds, if any: whole words only, then
/// [`parse_net`].
pub open spec fn decode(b: Seq<u8>) -> Option<NetModel> {
    if b.len() % 8 == 0 {
        parse_net(words_of_bytes(b))
    } else {
        None
    }
}

/// `n` with its transient cache dropped: what an encoding preserves.
pub open spec fn cleared(n: NetModel) -> NetModel {
    NetModel {
        layers: n.layers,
        weights: n.weights,
        biases: n.biases,
        cache: Seq::empty(),
        activation: n.activation,
        learning_rate: n.learning_rate,
    }
}

/// Reassembling the little-endian bytes of a word gives the word back.
proof fn lemma_word_reassemble(w: u64)
    ensures
        ((((w >> 0u64) & 0xFF) as u8) as u64) | (((((w >> 8u64) & 0xFF) as u8) as u64) << 8u64) | (((((w
            >> 16u64) & 0xFF) as u8) as u64) << 16u64) | (((((w >> 24u64) & 0xFF) as u8) as u64)
            << 24u64) | (((((w >> 32u64) & 0xFF) as u8) as u64) << 32u64) | (((((w >> 40u64) & 0xFF) as u8) as u64)
            << 40u64) | (((((w >> 48u64) & 0xFF) as u8) as u64) << 48u64) | (((((w >> 56u64) & 0xFF) as u8) as u64)
            << 56u64) == w,
{
    assert(((((w >> 0u64) & 0xFF) as u8) as u64) | (((((w >> 8u64) & 0xFF) as u8) as u64) << 8u64) | (((((w
        >> 16u64) & 0xFF) as u8) as u64) << 16u64) | (((((w >> 24u64) & 0xFF) as u8) as u64)
        << 24u64) | (((((w >> 32u64) & 0xFF) as u8) as u64) << 32u64) | (((((w >> 40u64) & 0xFF) as u8) as u64)
        << 40u64) | (((((w >> 48u64) & 0xFF) as u8) as u64) << 48u64) | (((((w >> 56u64) & 0xFF) as u8) as u64)
        << 56u64) == w) by (bit_vector);
}

/// A byte stream of whole words decodes back to exactly those words.
pub proof fn lemma_words_bytes_roundtrip(ws: Seq<u64>)
    ensures
        bytes_of_words(ws).len() == ws.len() * 8,
        bytes_of_words(ws).len() % 8 == 0,
        words_of_bytes(bytes_of_words(ws)) == ws,
{
    reveal(bytes_of_words);
    reveal(words_of_bytes);
    let b = bytes_of_words(ws);
    assert(b.len() % 8 == 0) by {
        vstd::arithmetic::div_mod::lemma_mod_multiples_basic(ws.len() as int, 8);
        assert(ws.len() * 8 == 8 * ws.len() as int) by (nonlinear_arith);
    }
    assert(b.len() / 8 == ws.len()) by {
        assert(ws.len() * 8 / 8 == ws.len()) by (nonlinear_arith);
    }
    assert forall|k: int| 0 <= k < ws.len() implies words_of_bytes(b)[k] == ws[k] by {
        assert forall|r: int| 0 <= r < 8 implies b[8 * k + r] == le_byte(ws[k], r) by {
            assert(0 <= 8 * k + r < ws.len() * 8) by (nonlinear_arith)
                requires 0 <= k < ws.len(), 0 <= r < 8;
            assert((8 * k + r) / 8 == k && (8 * k + r) % 8 == r) by (nonlinear_arith)
                requires 0 <= r < 8;
        }
        assert(b[8 * k] == le_byte(ws[k], 0));
        assert(b[8 * k + 1] == le_byte(ws[k], 1));
        assert(b[8 * k + 2] == le_byte(ws[k], 2));
        assert(b[8 * k + 3] == le_byte(ws[k], 3));
        assert(b[8 * k + 4] == le_byte(ws[k], 4));
        assert(b[8 * k + 5] == le_byte(ws[k], 5));
        assert(b[8 * k + 6] == le_byte(ws[k], 6));
        assert(b[8 * k + 7] == le_byte(ws[k], 7));
        lemma_word_reassemble(ws[k]);
        assert(word_at(b, k) == ws[k]);
    }
    assert(words_of_bytes(b) =~= ws);
}

/// Appending one matrix to a list appends its words to the list's words.
pub proof fn lemma_mats_words_snoc(ms: Seq<MatModel>, m: MatModel)
    ensures
        mats_words(ms.push(m)) == mats_words(ms) + mat_words(m),
    decreases ms.len(),
{
    if ms.len() == 0 {
        assert(ms.push(m)[0] == m);
        assert(ms.push(m).drop_first() =~= Seq::<MatModel>::empty());
        assert(mats_words(ms.push(m)) == mat_words(m) + mats_words(Seq::<MatModel>::empty()));
        assert(mats_words(Seq::<MatModel>::empty()) =~= Seq::<u64>::empty());
        assert(mats_words(ms) =~= Seq::<u64>::empty());
        assert(mats_words(ms.push(m)) =~= mats_words(ms) + mat_words(m));
    } else {
        assert(ms.push(m)[0] == ms[0]);
        assert(ms.push(m).drop_first() =~= ms.drop_first().push(m));
        lemma_mats_words_snoc(ms.drop_first(), m);
        assert(mats_words(ms.push(m)) == mat_words(ms[0]) + mats_words(ms.drop_first().push(m)));
        assert(mats_words(ms.push(m)) == mat_words(ms[0]) + (mats_words(ms.drop_first()) + mat_words(m)));
        assert(mat_words(ms[0]) + (mats_words(ms.drop_first()) + mat_words(m)) =~= (mat_words(ms[0])
            + mats_words(ms.drop_first())) + mat_words(m));
        assert(mats_words(ms) + mat_words(m) == (mat_words(ms[0]) + mats_words(ms.drop_first()))
            + mat_words(m));
    }
}

/// Parsing a list of matrices back out of any word sequence that carries
/// their words at `pos`, against their own shapes, recovers the list.
proof fn lemma_parse_mats_of_encoding(
    ws: Seq<u64>,
    pos: int,
    ms: Seq<MatModel>,
    shapes: Seq<(usize, usize)>,
)
    requires
        0 <= pos,
        pos + mats_words(ms).len() <= ws.len(),
        ws.subrange(pos, pos + mats_words(ms).len()) == mats_words(ms),
        shapes.len() == ms.len(),
        forall|i: int|
            0 <= i < ms.len() ==> {
                &&& (#[trigger] ms[i]).wf()
                &&& ms[i].rows == shapes[i].0
                &&& ms[i].cols == shapes[i].1
            },
    ensures
        parse_mats(ws, pos, shapes) == Some((ms, pos + mats_words(ms).len())),
    decreases ms.len(),
{
    if ms.len() == 0 {
        assert(parse_mats(ws, pos, shapes) == Some((Seq::<MatModel>::empty(), pos)));
        assert(ms =~= Seq::<MatModel>::empty());
    } else {
        let m = ms[0];
        let mw = mat_words(m);
        let total = mats_words(ms).len() as int;
        assert(mats_words(ms) == mat_words(m) + mats_words(ms.drop_first()));
        assert(mw.len() == 2 + m.data.len());
        let r = shapes[0].0;
        let c = shapes[0].1;
        assert(m.rows == r && m.cols == c);
        assert(m.data.len() == r * c) by {
            assert(m.data.len() == m.rows * m.cols);
        }
        assert(ws[pos] == ws.subrange(pos, pos + total)[0]);
        assert(ws[pos + 1] == ws.subrange(pos, pos + total)[1]);
        assert(mw[0] == m.rows as u64 && mw[1] == m.cols as u64);
        assert(ws[pos] == r as u64 && ws[pos + 1] == c as u64);
        assert(pos + 2 + r * c <= ws.len());
        let sub = ws.subrange(pos + 2, pos + 2 + r * c);
        assert forall|t: int| 0 <= t < m.data.len() implies sub[t] == m.data[t] by {
            assert(sub[t] == ws[pos + 2 + t]);
            assert(ws.subrange(pos, pos + total)[2 + t] == ws[pos + (2 + t)]);
            assert(ws[pos + 2 + t] == mats_words(ms)[2 + t]);
            assert(mats_words(ms)[2 + t] == mw[2 + t]);
            assert(mw[2 + t] == m.data[t]);
        }
        assert(sub =~= m.data);
        assert(parse_mat(ws, pos, r, c) == Some(
            (MatModel { rows: r as nat, cols: c as nat, data: sub }, pos + 2 + r * c),
        ));
        assert(MatModel { rows: r as nat, cols: c as nat, data: sub } =~= m);
        let p2 = pos + 2 + r * c;
        let rest = ms.drop_first();
        assert forall|t: int|
            0 <= t < mats_words(rest).len() implies ws.subrange(p2, p2 + mats_words(rest).len())[t]
            == mats_words(rest)[t] by {
            assert(ws.subrange(p2, p2 + mats_words(rest).len())[t] == ws[p2 + t]);
            assert(ws.subrange(pos, pos + total)[(mw.len() + t) as int] == ws[pos + (mw.len() + t)]);
            assert(ws[p2 + t] == mats_words(ms)[mw.len() + t]);
            assert(mats_words(ms)[mw.len() + t] == mats_words(rest)[t]);
        }
        assert(ws.subrange(p2, p2 + mats_words(rest).len()) =~= mats_words(rest));
        assert(forall|i: int|
            0 <= i < rest.len() ==> {
                &&& (#[trigger] rest[i]).wf()
                &&& rest[i].rows == shapes.drop_first()[i].0
                &&& rest[i].cols == shapes.drop_first()[i].1
            });
        lemma_parse_mats_of_encoding(ws, p2, rest, shapes.drop_first());
        assert(parse_mats(ws, p2, shapes.drop_first()) == Some((rest, p2 + mats_words(rest).len())));
        assert(seq![m] + rest =~= ms);
        assert(p2 + mats_words(rest).len() == pos + total);
    }
}

/// Round trip at the word level: a well-formed network's word encoding
/// parses back to the same network with an empty cache.
pub proof fn lemma_parse_words_of_net(n: NetModel)
    requires
        n.wf(),
        n.layers.len() <= usize::MAX,
    ensures
        parse_net(words_of_net(n)) == Some(cleared(n)),
{
    let ws = words_of_net(n);
    let l = n.layers.len() as int;
    let header = seq![n.layers.len() as u64] + Seq::new(n.layers.len(), |i: int| n.layers[i] as u64);
    assert(header.len() == 1 + l);
    assert(ws == header + mats_words(n.weights) + mats_words(n.biases) + seq![
        act_word(n.activation),
        n.learning_rate,
    ]);
    assert(ws[0] == n.layers.len() as u64);
    assert(2 <= ws[0] && ws[0] <= usize::MAX as u64);
    assert(forall|i: int| 0 <= i < l ==> ws[1 + i] == (#[trigger] n.layers[i]) as u64);
    assert(layer_words_in_range(ws, l)) by {
        assert(forall|q: int| 0 <= q < l ==> #[trigger] ws[1 + q] <= usize::MAX as u64);
    }
    let layers = Seq::new(l as nat, |i: int| ws[1 + i] as usize);
    assert(layers =~= n.layers);
    let wlen = mats_words(n.weights).len() as int;
    let blen = mats_words(n.biases).len() as int;
    assert(ws.len() == 1 + l + wlen + blen + 2);
    assert(ws.subrange(1 + l, 1 + l + wlen) =~= mats_words(n.weights));
    assert(forall|i: int|
        0 <= i < n.weights.len() ==> {
            &&& (#[trigger] n.weights[i]).wf()
            &&& n.weights[i].rows == weight_shapes(n.layers)[i].0
            &&& n.weights[i].cols == weight_shapes(n.layers)[i].1
        });
    lemma_parse_mats_of_encoding(ws, 1 + l, n.weights, weight_shapes(n.layers));
    assert(parse_mats(ws, 1 + l, weight_shapes(layers)) == Some((n.weights, 1 + l + wlen)));
    let p2 = 1 + l + wlen;
    assert(ws.subrange(p2, p2 + blen) =~= mats_words(n.biases));
    assert(forall|i: int|
        0 <= i < n.biases.len() ==> {
            &&& (#[trigger] n.biases[i]).wf()
            &&& n.biases[i].rows == bias_shapes(n.layers)[i].0
            &&& n.biases[i].cols == bias_shapes(n.layers)[i].1
        });
    lemma_parse_mats_of_encoding(ws, p2, n.biases, bias_shapes(n.layers));
    assert(parse_mats(ws, p2, bias_shapes(layers)) == Some((n.biases, p2 + blen)));
    let p3 = p2 + blen;
    assert(p3 + 2 == ws.len());
    assert(ws[p3] == act_word(n.activation));
    assert(ws[p3] == 0);
    assert(ws[p3 + 1] == n.learning_rate);
    assert(n.activation == (Activation { activation_type: ActivationType::Sigmoid }));
    assert(parse_net(ws) == Some(cleared(n))) by {
        assert(Some(
            NetModel {
                layers,
                weights: n.weights,
                biases: n.biases,
                cache: Seq::empty(),
                activation: Activation { activation_type: ActivationType::Sigmoid },
                learning_rate: ws[p3 + 1],
            },
        ) == Some(cleared(n))) by {
            assert(NetModel {
                layers,
                weights: n.weights,
                biases: n.biases,
                cache: Seq::empty(),
                activation: Activation { activation_type: ActivationType::Sigmoid },
                learning_rate: ws[p3 + 1],
            } =~= cleared(n));
        }
    }
}

/// Round trip at the byte level: a well-formed network's byte encoding
/// decodes to the same network with an empty cache.
#[verifier::rlimit(100)]
pub proof fn lemma_decode_encode(n: NetModel)
    requires
        n.wf(),
        n.layers.len() <= usize::MAX,
    ensures
        decode(encode(n)) == Some(cleared(n)),
        cleared(n).wf(),
        cleared(n).params_eq(n),
{
    let ws = words_of_net(n);
    lemma_words_bytes_roundtrip(ws);
    lemma_parse_words_of_net(n);
    assert(encode(n).len() % 8 == 0);
    assert(words_of_bytes(encode(n)) == ws);
    assert(decode(encode(n)) == Some(cleared(n)));
    assert(cleared(n).wf());
}

} // verus!
