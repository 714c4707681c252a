//! The model store: a stable byte layout for one trained genome.
//!
//! The layout is a sequence of 64-bit big-endian words: a version word, the
//! input and output bit widths, the layer count and the layer sizes, then for
//! every connection its six genes and for every neuron its threshold and
//! trait-swap genes, in network order.  Signed genes are stored biased by
//! `GENE_LIMIT` so every word is non-negative.  A loader accepts exactly the
//! byte strings this module writes: after parsing it re-serializes the genome
//! and rejects the input unless the bytes agree.

use vstd::prelude::*;

verus! {

use crate::network::{
    Conn, GENE_LIMIT, LayerMap, MAX_LAYER, MAX_LAYERS, NetV, Network, Neuron, NeuronV, neuron_ok,
    conn_ok,
};
use crate::rng::CHANCE_DENOM;

/// Version word at the head of every model byte string.
pub const MODEL_VERSION: u64 = 1;

/// Why a model byte string was rejected.
#[derive(Clone, Copy, PartialEq, Eq, Structural, Debug)]
pub enum PersistenceError {
    /// The bytes end before the layout is complete.
    Truncated,
    /// The version word is not one this module writes.
    BadVersion,
    /// The topology words are out of range.
    BadShape,
    /// A gene word is out of range.
    GeneOutOfRange,
    /// Bytes remain after the layout, or the layout is not canonical.
    Corrupt,
}

/// The eight big-endian bytes of one word.
pub open spec fn be8(v: u64) -> Seq<u8> {
    seq![
        ((v >> 56) & 0xFF) as u8,
        ((v >> 48) & 0xFF) as u8,
        ((v >> 40) & 0xFF) as u8,
        ((v >> 32) & 0xFF) as u8,
        ((v >> 24) & 0xFF) as u8,
        ((v >> 16) & 0xFF) as u8,
        ((v >> 8) & 0xFF) as u8,
        (v & 0xFF) as u8,
    ]
}

/// The bytes of a word sequence, in order.
pub open spec fn words_bytes(ws: Seq<u64>) -> Seq<u8>
    decreases ws.len(),
{
    if ws.len() == 0 {
        Seq::empty()
    } else {
        words_bytes(ws.drop_last()) + be8(ws.last())
    }
}

/// The six gene words of one connection, signed genes biased by `GENE_LIMIT`.
pub open spec fn conn_words(c: Conn) -> Seq<u64> {
    seq![
        (c.weight + GENE_LIMIT) as u64,
        (c.offset + GENE_LIMIT) as u64,
        c.weight_mutate_chance as u64,
        c.weight_mutate_amount as u64,
        c.offset_mutate_chance as u64,
        c.offset_mutate_amount as u64,
    ]
}

/// The words of the first `k` connections of one neuron.
pub open spec fn conns_words(conns: Seq<Conn>, k: int) -> Seq<u64>
    decreases k,
{
    if k <= 0 {
        Seq::empty()
    } else {
        conns_words(conns, k - 1) + conn_words(conns[k - 1])
    }
}

/// The words of one neuron: its connections, then threshold and swap gene.
pub open spec fn neuron_words(nr: NeuronV) -> Seq<u64> {
    conns_words(nr.conns, nr.conns.len() as int) + seq![
        (nr.activation_thresh + GENE_LIMIT) as u64,
        nr.trait_swap_chance as u64,
    ]
}

/// The words of the first `j` neurons of one map.
pub open spec fn neurons_words(m: Seq<NeuronV>, j: int) -> Seq<u64>
    decreases j,
{
    if j <= 0 {
        Seq::empty()
    } else {
        neurons_words(m, j - 1) + neuron_words(m[j - 1])
    }
}

/// The words of the first `i` maps of a genome.
pub open spec fn maps_words(n: NetV, i: int) -> Seq<u64>
    decreases i,
{
    if i <= 0 {
        Seq::empty()
    } else {
        maps_words(n, i - 1) + neurons_words(n.maps[i - 1], n.maps[i - 1].len() as int)
    }
}

/// The header words: version, widths, layer count, layer sizes.
pub open spec fn header_words(n: NetV) -> Seq<u64> {
    seq![
        MODEL_VERSION,
        n.num_inputs as u64,
        n.num_outputs as u64,
        n.layer_sizes.len() as u64,
    ] + n.layer_sizes.map_values(|z: usize| z as u64)
}

/// Every word of a genome's serialization, in order.
pub open spec fn serial_words(n: NetV) -> Seq<u64> {
    header_words(n) + maps_words(n, n.maps.len() as int)
}

/// The byte layout of one genome.
pub open spec fn serial_spec(n: NetV) -> Seq<u8> {
    words_bytes(serial_words(n))
}


/// The word whose eight big-endian bytes begin at position `p`.
pub open spec fn word_of(s: Seq<u8>, p: int) -> u64 {
    ((s[p] as u64) << 56) | ((s[p + 1] as u64) << 48) | ((s[p + 2] as u64) << 40) | ((s[p
        + 3] as u64) << 32) | ((s[p + 4] as u64) << 24) | ((s[p + 5] as u64) << 16) | ((s[p
        + 6] as u64) << 8) | (s[p + 7] as u64)
}

/// The words of `ws` sit at positions `p, p + 8, ...` of `s`.
pub open spec fn words_at(s: Seq<u8>, p: int, ws: Seq<u64>) -> bool {
    &&& 0 <= p
    &&& p + 8 * ws.len() <= s.len()
    &&& forall|d: int| 0 <= d < ws.len() ==> word_of(s, p + 8 * d) == ws[d]
}

/// A word sequence's byte layout takes eight bytes per word.
proof fn lemma_words_bytes_len(ws: Seq<u64>)
    ensures
        words_bytes(ws).len() == 8 * ws.len(),
    decreases ws.len(),
{
    if ws.len() > 0 {
        lemma_words_bytes_len(ws.drop_last());
    }
}

/// Reading back the eight bytes of one word yields the word.
proof fn lemma_word_of_be8(v: u64)
    ensures
        word_of(be8(v), 0) == v,
{
    assert((v >> 56) & 0xFF < 256 && (v >> 48) & 0xFF < 256 && (v >> 40) & 0xFF < 256 && (v >> 32)
        & 0xFF < 256 && (v >> 24) & 0xFF < 256 && (v >> 16) & 0xFF < 256 && (v >> 8) & 0xFF < 256
        && v & 0xFF < 256) by (bit_vector);
    assert(((((v >> 56) & 0xFF)) << 56) | (((v >> 48) & 0xFF) << 48) | (((v >> 40) & 0xFF) << 40)
        | (((v >> 32) & 0xFF) << 32) | (((v >> 24) & 0xFF) << 24) | (((v >> 16) & 0xFF) << 16) | (((
    v >> 8) & 0xFF) << 8) | (v & 0xFF) == v) by (bit_vector);
}

/// The `w`-th word of a layout sits at byte position `8 * w`.
proof fn lemma_word_at(ws: Seq<u64>, w: int)
    requires
        0 <= w < ws.len(),
    ensures
        word_of(words_bytes(ws), 8 * w) == ws[w],
    decreases ws.len(),
{
    lemma_words_bytes_len(ws);
    lemma_words_bytes_len(ws.drop_last());
    if w == ws.len() - 1 {
        lemma_word_of_be8(ws[w]);
        assert forall|d: int| 0 <= d < 8 implies #[trigger] words_bytes(ws)[8 * w + d] == be8(
            ws[w],
        )[d] by {
            assert(words_bytes(ws) == words_bytes(ws.drop_last()) + be8(ws.last()));
        }
        assert(word_of(words_bytes(ws), 8 * w) == word_of(be8(ws[w]), 0));
    } else {
        lemma_word_at(ws.drop_last(), w);
        assert forall|d: int| 0 <= d < 8 implies #[trigger] words_bytes(ws)[8 * w + d]
            == words_bytes(ws.drop_last())[8 * w + d] by {
            assert(words_bytes(ws) == words_bytes(ws.drop_last()) + be8(ws.last()));
        }
        assert(word_of(words_bytes(ws), 8 * w) == word_of(words_bytes(ws.drop_last()), 8 * w));
    }
}

/// Each connection takes six words.
proof fn lemma_conns_words_len(conns: Seq<Conn>, k: int)
    requires
        0 <= k,
    ensures
        conns_words(conns, k).len() == 6 * k,
    decreases k,
{
    if k > 0 {
        lemma_conns_words_len(conns, k - 1);
    }
}

/// A shorter connection layout is a prefix of a longer one.
proof fn lemma_conns_words_prefix(conns: Seq<Conn>, k: int, t: int)
    requires
        0 <= k <= t,
    ensures
        forall|q: int|
            0 <= q < conns_words(conns, k).len() ==> conns_words(conns, t)[q] == conns_words(
                conns,
                k,
            )[q],
        conns_words(conns, k).len() <= conns_words(conns, t).len(),
    decreases t,
{
    if t > k {
        lemma_conns_words_prefix(conns, k, t - 1);
    }
}

/// A shorter neuron layout is a prefix of a longer one.
proof fn lemma_neurons_words_prefix(m: Seq<NeuronV>, j: int, t: int)
    requires
        0 <= j <= t,
    ensures
        forall|q: int|
            0 <= q < neurons_words(m, j).len() ==> neurons_words(m, t)[q] == neurons_words(
                m,
                j,
            )[q],
        neurons_words(m, j).len() <= neurons_words(m, t).len(),
    decreases t,
{
    if t > j {
        lemma_neurons_words_prefix(m, j, t - 1);
    }
}

/// A shorter map layout is a prefix of a longer one.
proof fn lemma_maps_words_prefix(n: NetV, i: int, t: int)
    requires
        0 <= i <= t,
    ensures
        forall|q: int|
            0 <= q < maps_words(n, i).len() ==> maps_words(n, t)[q] == maps_words(n, i)[q],
        maps_words(n, i).len() <= maps_words(n, t).len(),
    decreases t,
{
    if t > i {
        lemma_maps_words_prefix(n, i, t - 1);
    }
}

/// The word position of connection `k` of neuron `j` of map `i`.
pub open spec fn gene_base(n: NetV, i: int, j: int, k: int) -> int {
    header_words(n).len() as int + maps_words(n, i).len() as int + neurons_words(
        n.maps[i],
        j,
    ).len() as int + conns_words(n.maps[i][j].conns, k).len() as int
}

/// The six words of one connection stand at `gene_base` in the full layout.
proof fn lemma_serial_conn_words(n: NetV, i: int, j: int, k: int)
    requires
        n.wf(),
        0 <= i < n.maps.len(),
        0 <= j < n.maps[i].len(),
        0 <= k < n.maps[i][j].conns.len(),
    ensures
        gene_base(n, i, j, k) + 6 <= serial_words(n).len(),
        forall|d: int|
            0 <= d < 6 ==> serial_words(n)[gene_base(n, i, j, k) + d] == conn_words(
                n.maps[i][j].conns[k],
            )[d],
{
    let mi = n.maps[i];
    let conns = mi[j].conns;
    let a = conns_words(conns, k).len() as int;
    lemma_conns_words_len(conns, k);
    assert(conns_words(conns, k + 1) == conns_words(conns, k) + conn_words(conns[k]));
    lemma_conns_words_prefix(conns, k + 1, conns.len() as int);
    let b = neurons_words(mi, j).len() as int;
    assert(neurons_words(mi, j + 1) == neurons_words(mi, j) + neuron_words(mi[j]));
    lemma_neurons_words_prefix(mi, j + 1, mi.len() as int);
    let c = maps_words(n, i).len() as int;
    assert(maps_words(n, i + 1) == maps_words(n, i) + neurons_words(mi, mi.len() as int));
    lemma_maps_words_prefix(n, i + 1, n.maps.len() as int);
    assert forall|d: int| 0 <= d < 6 implies serial_words(n)[gene_base(n, i, j, k) + d]
        == conn_words(conns[k])[d] by {
        assert(conns_words(conns, k + 1)[a + d] == conn_words(conns[k])[d]);
        assert(conns_words(conns, conns.len() as int)[a + d] == conn_words(conns[k])[d]);
        assert(neuron_words(mi[j])[a + d] == conn_words(conns[k])[d]);
        assert(neurons_words(mi, j + 1)[b + a + d] == conn_words(conns[k])[d]);
        assert(neurons_words(mi, mi.len() as int)[b + a + d] == conn_words(conns[k])[d]);
        assert(maps_words(n, i + 1)[c + b + a + d] == conn_words(conns[k])[d]);
        assert(maps_words(n, n.maps.len() as int)[c + b + a + d] == conn_words(conns[k])[d]);
        assert(serial_words(n)[header_words(n).len() as int + (c + b + a + d)] == conn_words(
            conns[k],
        )[d]);
    }
}

/// The threshold and swap words of one neuron stand after its connections.
proof fn lemma_serial_neuron_tail(n: NetV, i: int, j: int)
    requires
        n.wf(),
        0 <= i < n.maps.len(),
        0 <= j < n.maps[i].len(),
    ensures
        ({
            let base = gene_base(n, i, j, n.maps[i][j].conns.len() as int);
            &&& base + 2 <= serial_words(n).len()
            &&& serial_words(n)[base] == (n.maps[i][j].activation_thresh + GENE_LIMIT) as u64
            &&& serial_words(n)[base + 1] == n.maps[i][j].trait_swap_chance as u64
        }),
        neurons_words(n.maps[i], j + 1).len() == neurons_words(n.maps[i], j).len() + 6 * n.maps[i][j].conns.len() + 2,
{
    let mi = n.maps[i];
    let nr = mi[j];
    let conns = nr.conns;
    let a = conns_words(conns, conns.len() as int).len() as int;
    lemma_conns_words_len(conns, conns.len() as int);
    assert(neuron_words(nr)[a] == (nr.activation_thresh + GENE_LIMIT) as u64);
    assert(neuron_words(nr)[a + 1] == nr.trait_swap_chance as u64);
    let b = neurons_words(mi, j).len() as int;
    assert(neurons_words(mi, j + 1) == neurons_words(mi, j) + neuron_words(nr));
    lemma_neurons_words_prefix(mi, j + 1, mi.len() as int);
    let c = maps_words(n, i).len() as int;
    assert(maps_words(n, i + 1) == maps_words(n, i) + neurons_words(mi, mi.len() as int));
    lemma_maps_words_prefix(n, i + 1, n.maps.len() as int);
    assert(neurons_words(mi, j + 1)[b + a] == neuron_words(nr)[a]);
    assert(neurons_words(mi, mi.len() as int)[b + a] == neuron_words(nr)[a]);
    assert(maps_words(n, i + 1)[c + b + a] == neuron_words(nr)[a]);
    assert(maps_words(n, n.maps.len() as int)[c + b + a] == neuron_words(nr)[a]);
    assert(serial_words(n)[header_words(n).len() as int + (c + b + a)] == neuron_words(nr)[a]);
    assert(neurons_words(mi, j + 1)[b + a + 1] == neuron_words(nr)[a + 1]);
    assert(neurons_words(mi, mi.len() as int)[b + a + 1] == neuron_words(nr)[a + 1]);
    assert(maps_words(n, i + 1)[c + b + a + 1] == neuron_words(nr)[a + 1]);
    assert(maps_words(n, n.maps.len() as int)[c + b + a + 1] == neuron_words(nr)[a + 1]);
    assert(serial_words(n)[header_words(n).len() as int + (c + b + a + 1)] == neuron_words(nr)[a + 1]);
}

/// The header words of the full layout, by position.
proof fn lemma_serial_header(n: NetV)
    requires
        n.wf(),
    ensures
        header_words(n).len() == 4 + n.layer_sizes.len(),
        serial_words(n).len() >= header_words(n).len(),
        serial_words(n)[0] == MODEL_VERSION,
        serial_words(n)[1] == n.num_inputs as u64,
        serial_words(n)[2] == n.num_outputs as u64,
        serial_words(n)[3] == n.layer_sizes.len() as u64,
        forall|q: int|
            0 <= q < n.layer_sizes.len() ==> serial_words(n)[4 + q] == (
            #[trigger] n.layer_sizes[q]) as u64,
        maps_words(n, 0).len() == 0,
{
    assert forall|q: int| 0 <= q < n.layer_sizes.len() implies serial_words(n)[4 + q] == (
    #[trigger] n.layer_sizes[q]) as u64 by {
        assert(header_words(n)[4 + q] == n.layer_sizes.map_values(|z: usize| z as u64)[q]);
    }
}

/// Push one word's eight big-endian bytes.
fn push_word_bytes(out: &mut Vec<u8>, v: u64)
    ensures
        final(out)@ == old(out)@ + be8(v),
{
    out.push(((v >> 56) & 0xFF) as u8);
    out.push(((v >> 48) & 0xFF) as u8);
    out.push(((v >> 40) & 0xFF) as u8);
    out.push(((v >> 32) & 0xFF) as u8);
    out.push(((v >> 24) & 0xFF) as u8);
    out.push(((v >> 16) & 0xFF) as u8);
    out.push(((v >> 8) & 0xFF) as u8);
    out.push((v & 0xFF) as u8);
    proof {
        assert(out@ =~= old(out)@ + be8(v));
    }
}

/// Convert a word sequence to its byte layout.
#[verifier::loop_isolation(false)]
fn words_to_bytes(words: &Vec<u64>) -> (r: Vec<u8>)
    ensures
        r@ == words_bytes(words@),
{
    let n = words.len();
    let mut out: Vec<u8> = Vec::new();
    let mut i: usize = 0;
    while i < n
        invariant
            i <= n,
            out@ == words_bytes(words@.take(i as int)),
        decreases n - i,
    {
        push_word_bytes(&mut out, words[i]);
        proof {
            assert(words@.take(i + 1).drop_last() =~= words@.take(i as int));
            assert(words@.take(i + 1).last() == words@[i as int]);
        }
        i += 1;
    }
    assert(words@.take(n as int) =~= words@);
    out
}

/// Serialize one genome to its stable byte layout.
#[verifier::loop_isolation(false)]
#[verifier::rlimit(60)]
pub fn serialize_network(net: &Network) -> (r: Vec<u8>)
    requires
        net@.wf(),
    ensures
        r@ == serial_spec(net@),
{
    let mut words: Vec<u64> = Vec::new();
    words.push(MODEL_VERSION);
    words.push(net.num_inputs as u64);
    words.push(net.num_outputs as u64);
    words.push(net.layer_sizes.len() as u64);
    let nl = net.layer_sizes.len();
    let mut z: usize = 0;
    while z < nl
        invariant
            z <= nl,
            words@ =~= seq![
                MODEL_VERSION,
                net@.num_inputs as u64,
                net@.num_outputs as u64,
                net@.layer_sizes.len() as u64,
            ] + net@.layer_sizes.map_values(|q: usize| q as u64).take(z as int),
        decreases nl - z,
    {
        words.push(net.layer_sizes[z] as u64);
        proof {
            let mapped = net@.layer_sizes.map_values(|q: usize| q as u64);
            assert(mapped.take(z + 1) =~= mapped.take(z as int).push(mapped[z as int]));
        }
        z += 1;
    }
    proof {
        let mapped = net@.layer_sizes.map_values(|q: usize| q as u64);
        assert(mapped.take(nl as int) =~= mapped);
        assert(words@ =~= header_words(net@));
    }
    let nmaps = net.maps.len();
    let mut i: usize = 0;
    while i < nmaps
        invariant
            i <= nmaps,
            words@ =~= header_words(net@) + maps_words(net@, i as int),
        decreases nmaps - i,
    {
        let ghost before_map = words@;
        let ghost mv = net@.maps[i as int];
        assert(mv == net.maps@[i as int]@);
        let nneur = net.maps[i].neurons.len();
        let mut j: usize = 0;
        while j < nneur
            invariant
                j <= nneur,
                nneur == mv.len(),
                mv == net@.maps[i as int],
                i < nmaps,
                words@ =~= before_map + neurons_words(mv, j as int),
            decreases nneur - j,
        {
            let ghost before_neuron = words@;
            let ghost nv = mv[j as int];
            assert(nv == net.maps@[i as int]@[j as int]);
            let nconn = net.maps[i].neurons[j].conns.len();
            let mut k: usize = 0;
            while k < nconn
                invariant
                    k <= nconn,
                    nconn == nv.conns.len(),
                    nv == mv[j as int],
                    mv == net@.maps[i as int],
                    i < nmaps,
                    j < nneur,
                    nneur == mv.len(),
                    words@ =~= before_neuron + conns_words(nv.conns, k as int),
                decreases nconn - k,
            {
                let c = net.maps[i].neurons[j].conns[k];
                proof {
                    assert(c == nv.conns[k as int]);
                    assert(conn_ok(c));
                }
                words.push((c.weight + GENE_LIMIT) as u64);
                words.push((c.offset + GENE_LIMIT) as u64);
                words.push(c.weight_mutate_chance as u64);
                words.push(c.weight_mutate_amount as u64);
                words.push(c.offset_mutate_chance as u64);
                words.push(c.offset_mutate_amount as u64);
                proof {
                    assert(words@ =~= before_neuron + conns_words(nv.conns, k as int)
                        + conn_words(nv.conns[k as int]));
                    assert(words@ =~= before_neuron + conns_words(nv.conns, k + 1));
                }
                k += 1;
            }
            let thresh = net.maps[i].neurons[j].activation_thresh;
            let swap = net.maps[i].neurons[j].trait_swap_chance;
            proof {
                assert(thresh == nv.activation_thresh);
                assert(swap == nv.trait_swap_chance);
                assert(neuron_ok(nv, net@.in_size(i as int)));
            }
            words.push((thresh + GENE_LIMIT) as u64);
            words.push(swap as u64);
            proof {
                assert(words@ =~= before_neuron + neuron_words(nv));
                assert(neurons_words(mv, j + 1) =~= neurons_words(mv, j as int) + neuron_words(
                    mv[j as int],
                ));
                assert(words@ =~= before_map + neurons_words(mv, j + 1));
            }
            j += 1;
        }
        proof {
            assert(maps_words(net@, i + 1) =~= maps_words(net@, i as int) + neurons_words(
                mv,
                mv.len() as int,
            ));
            assert(words@ =~= header_words(net@) + maps_words(net@, i + 1));
        }
        i += 1;
    }
    words_to_bytes(&words)
}

/// Read the big-endian word at byte position `pos`.
fn read_word(bytes: &Vec<u8>, pos: usize) -> (r: u64)
    requires
        pos + 8 <= bytes@.len(),
    ensures
        r == word_of(bytes@, pos as int),
{
    let n = bytes.len();
    assert(pos + 8 <= n);
    ((bytes[pos] as u64) << 56) | ((bytes[pos + 1] as u64) << 48) | ((bytes[pos + 2] as u64) << 40)
        | ((bytes[pos + 3] as u64) << 32) | ((bytes[pos + 4] as u64) << 24) | ((bytes[pos
        + 5] as u64) << 16) | ((bytes[pos + 6] as u64) << 8) | (bytes[pos + 7] as u64)
}

/// Compare two byte vectors.
#[verifier::loop_isolation(false)]
fn bytes_equal(a: &Vec<u8>, b: &Vec<u8>) -> (r: bool)
    ensures
        r == (a@ =~= b@),
{
    if a.len() != b.len() {
        return false;
    }
    let n = a.len();
    let mut i: usize = 0;
    while i < n
        invariant
            i <= n,
            a@.len() == b@.len() == n,
            forall|k: int| 0 <= k < i ==> a@[k] == b@[k],
        decreases n - i,
    {
        if a[i] != b[i] {
            return false;
        }
        i += 1;
    }
    proof {
        assert(a@ =~= b@);
    }
    true
}

/// A cursor over the byte string, failing once the bytes run out.
struct Reader<'a> {
    bytes: &'a Vec<u8>,
    pos: usize,
}

impl<'a> Reader<'a> {
    /// Take the next word, or report truncation.
    fn next(&mut self) -> (r: Result<u64, PersistenceError>)
        requires
            old(self).pos <= old(self).bytes@.len(),
        ensures
            final(self).bytes == old(self).bytes,
            final(self).pos <= final(self).bytes@.len(),
            r is Ok ==> final(self).pos == old(self).pos + 8 && old(self).pos + 8 <= old(
                self,
            ).bytes@.len() && r->Ok_0 == word_of(old(self).bytes@, old(self).pos as int),
            r is Err ==> r->Err_0 == PersistenceError::Truncated && old(self).bytes@.len() < old(
                self,
            ).pos + 8 && final(self).pos == old(self).pos,
    {
        if self.bytes.len() - self.pos < 8 {
            return Err(PersistenceError::Truncated);
        }
        let v = read_word(self.bytes, self.pos);
        self.pos = self.pos + 8;
        Ok(v)
    }
}

/// Take a biased signed gene out of one word.
fn unbias(v: u64) -> (r: Result<i64, PersistenceError>)
    ensures
        r is Ok <==> v <= 2 * (GENE_LIMIT as u64),
        r is Ok ==> -GENE_LIMIT <= r->Ok_0 <= GENE_LIMIT && r->Ok_0 as int == v as int
            - GENE_LIMIT as int,
        r is Err ==> r->Err_0 == PersistenceError::GeneOutOfRange,
{
    if v > 2 * (GENE_LIMIT as u64) {
        return Err(PersistenceError::GeneOutOfRange);
    }
    Ok((v as i64) - GENE_LIMIT)
}

/// Take a probability gene out of one word.
fn chance_of(v: u64) -> (r: Result<u32, PersistenceError>)
    ensures
        r is Ok <==> v <= CHANCE_DENOM as u64,
        r is Ok ==> r->Ok_0 <= CHANCE_DENOM && r->Ok_0 as u64 == v,
        r is Err ==> r->Err_0 == PersistenceError::GeneOutOfRange,
{
    if v > CHANCE_DENOM as u64 {
        return Err(PersistenceError::GeneOutOfRange);
    }
    Ok(v as u32)
}

/// Take a non-negative amount gene out of one word.
fn amount_of(v: u64) -> (r: Result<i64, PersistenceError>)
    ensures
        r is Ok <==> v <= GENE_LIMIT as u64,
        r is Ok ==> 0 <= r->Ok_0 <= GENE_LIMIT && r->Ok_0 as u64 == v,
        r is Err ==> r->Err_0 == PersistenceError::GeneOutOfRange,
{
    if v > GENE_LIMIT as u64 {
        return Err(PersistenceError::GeneOutOfRange);
    }
    Ok(v as i64)
}

/// Take a layer width out of one word.
fn size_of_word(v: u64) -> (r: Result<usize, PersistenceError>)
    ensures
        r is Ok <==> (8 <= v <= MAX_LAYER as u64 && v % 8 == 0),
        r is Ok ==> NetV::size_ok(r->Ok_0 as int) && r->Ok_0 as u64 == v,
        r is Err ==> r->Err_0 == PersistenceError::BadShape,
{
    if v < 8 || v > MAX_LAYER as u64 || v % 8 != 0 {
        return Err(PersistenceError::BadShape);
    }
    Ok(v as usize)
}

/// A well-formed genome whose byte layout is exactly `bytes`.
pub open spec fn canon(n: NetV, bytes: Seq<u8>) -> bool {
    n.wf() && serial_spec(n) == bytes
}

/// Parse the six gene words of one connection.  Accepts exactly the words a
/// well-formed connection serializes to, and then yields that connection.
fn parse_conn(rd: &mut Reader) -> (r: Result<Conn, PersistenceError>)
    requires
        old(rd).pos <= old(rd).bytes@.len(),
    ensures
        final(rd).bytes == old(rd).bytes,
        final(rd).pos <= final(rd).bytes@.len(),
        r is Ok ==> conn_ok(r->Ok_0) && final(rd).pos == old(rd).pos + 48,
        forall|c0: Conn|
            conn_ok(c0) && words_at(old(rd).bytes@, old(rd).pos as int, conn_words(c0)) ==> r
                is Ok && r->Ok_0 == c0,
{
    let ghost bs = old(rd).bytes@;
    let ghost p0 = old(rd).pos as int;
    let v0 = match rd.next() {
        Ok(v) => v,
        Err(e) => {
            return Err(e);
        },
    };
    let v1 = match rd.next() {
        Ok(v) => v,
        Err(e) => {
            return Err(e);
        },
    };
    let v2 = match rd.next() {
        Ok(v) => v,
        Err(e) => {
            return Err(e);
        },
    };
    let v3 = match rd.next() {
        Ok(v) => v,
        Err(e) => {
            return Err(e);
        },
    };
    let v4 = match rd.next() {
        Ok(v) => v,
        Err(e) => {
            return Err(e);
        },
    };
    let v5 = match rd.next() {
        Ok(v) => v,
        Err(e) => {
            return Err(e);
        },
    };
    proof {
        assert forall|c0: Conn| conn_ok(c0) && words_at(bs, p0, conn_words(c0)) implies (v0 == (
        c0.weight + GENE_LIMIT) as u64 && v1 == (c0.offset + GENE_LIMIT) as u64 && v2
            == c0.weight_mutate_chance as u64 && v3 == c0.weight_mutate_amount as u64 && v4
            == c0.offset_mutate_chance as u64 && v5 == c0.offset_mutate_amount as u64) by {
            assert(word_of(bs, p0 + 8 * 0) == conn_words(c0)[0]);
            assert(word_of(bs, p0 + 8 * 1) == conn_words(c0)[1]);
            assert(word_of(bs, p0 + 8 * 2) == conn_words(c0)[2]);
            assert(word_of(bs, p0 + 8 * 3) == conn_words(c0)[3]);
            assert(word_of(bs, p0 + 8 * 4) == conn_words(c0)[4]);
            assert(word_of(bs, p0 + 8 * 5) == conn_words(c0)[5]);
        }
    }
    let weight = match unbias(v0) {
        Ok(x) => x,
        Err(e) => {
            return Err(e);
        },
    };
    let offset = match unbias(v1) {
        Ok(x) => x,
        Err(e) => {
            return Err(e);
        },
    };
    let wmc = match chance_of(v2) {
        Ok(x) => x,
        Err(e) => {
            return Err(e);
        },
    };
    let wma = match amount_of(v3) {
        Ok(x) => x,
        Err(e) => {
            return Err(e);
        },
    };
    let omc = match chance_of(v4) {
        Ok(x) => x,
        Err(e) => {
            return Err(e);
        },
    };
    let oma = match amount_of(v5) {
        Ok(x) => x,
        Err(e) => {
            return Err(e);
        },
    };
    let c = Conn {
        weight,
        offset,
        weight_mutate_chance: wmc,
        weight_mutate_amount: wma,
        offset_mutate_chance: omc,
        offset_mutate_amount: oma,
    };
    Ok(c)
}

/// The two tail words of one neuron: biased threshold and trait-swap gene.
pub open spec fn tail_words(t: i64, sw: u32) -> Seq<u64> {
    seq![(t + GENE_LIMIT) as u64, sw as u64]
}

/// Parse one neuron's threshold and trait-swap words.
fn parse_neuron_tail(rd: &mut Reader) -> (r: Result<(i64, u32), PersistenceError>)
    requires
        old(rd).pos <= old(rd).bytes@.len(),
    ensures
        final(rd).bytes == old(rd).bytes,
        final(rd).pos <= final(rd).bytes@.len(),
        r is Ok ==> final(rd).pos == old(rd).pos + 16 && -GENE_LIMIT <= r->Ok_0.0 <= GENE_LIMIT
            && r->Ok_0.1 <= CHANCE_DENOM,
        forall|t: i64, sw: u32|
            -GENE_LIMIT <= t <= GENE_LIMIT && sw <= CHANCE_DENOM && #[trigger] words_at(
                old(rd).bytes@,
                old(rd).pos as int,
                tail_words(t, sw),
            ) ==> r is Ok && r->Ok_0.0 == t && r->Ok_0.1 == sw,
{
    let ghost bs = old(rd).bytes@;
    let ghost p0 = old(rd).pos as int;
    let v0 = match rd.next() {
        Ok(v) => v,
        Err(e) => {
            return Err(e);
        },
    };
    let v1 = match rd.next() {
        Ok(v) => v,
        Err(e) => {
            return Err(e);
        },
    };
    proof {
        assert forall|t: i64, sw: u32|
            -GENE_LIMIT <= t <= GENE_LIMIT && sw <= CHANCE_DENOM && #[trigger] words_at(
                bs,
                p0,
                tail_words(t, sw),
            ) implies (v0 == (t + GENE_LIMIT) as u64 && v1 == sw as u64) by {
            assert(word_of(bs, p0 + 8 * 0) == tail_words(t, sw)[0]);
            assert(word_of(bs, p0 + 8 * 1) == tail_words(t, sw)[1]);
        }
    }
    let thresh = match unbias(v0) {
        Ok(x) => x,
        Err(e) => {
            return Err(e);
        },
    };
    let swap = match chance_of(v1) {
        Ok(x) => x,
        Err(e) => {
            return Err(e);
        },
    };
    Ok((thresh, swap))
}

/// Rebuild a genome from its byte layout.  Accepts exactly the canonical
/// layouts this module writes: on success the genome is well formed and its
/// own serialization is byte-for-byte the input; conversely, every byte
/// string some well-formed genome serializes to is accepted and yields
/// exactly that genome.
#[verifier::loop_isolation(false)]
#[verifier::rlimit(100)]
pub fn deserialize_network(bytes: &Vec<u8>) -> (r: Result<Network, PersistenceError>)
    ensures
        r is Ok ==> r->Ok_0@.wf(),
        r is Ok ==> serial_spec(r->Ok_0@) == bytes@,
        forall|n: NetV| #[trigger] canon(n, bytes@) ==> r is Ok && r->Ok_0@ == n,
{
    let ghost bs = bytes@;
    let mut rd = Reader { bytes, pos: 0 };
    proof {
        assert forall|n: NetV| #[trigger] canon(n, bs) implies (bs.len() == 8 * serial_words(
            n,
        ).len() && header_words(n).len() == 4 + n.layer_sizes.len() && serial_words(n).len()
            >= header_words(n).len() && 5 <= header_words(n).len()) by {
            lemma_words_bytes_len(serial_words(n));
            lemma_serial_header(n);
        }
    }
    let ver = match rd.next() {
        Ok(v) => v,
        Err(e) => {
            return Err(e);
        },
    };
    proof {
        assert forall|n: NetV| #[trigger] canon(n, bs) implies ver == MODEL_VERSION by {
            lemma_serial_header(n);
            lemma_word_at(serial_words(n), 0);
        }
    }
    if ver != MODEL_VERSION {
        return Err(PersistenceError::BadVersion);
    }
    let vin = match rd.next() {
        Ok(v) => v,
        Err(e) => {
            return Err(e);
        },
    };
    proof {
        assert forall|n: NetV| #[trigger] canon(n, bs) implies (vin == n.num_inputs as u64
            && NetV::size_ok(n.num_inputs as int) && n.num_inputs <= MAX_LAYER) by {
            lemma_serial_header(n);
            lemma_word_at(serial_words(n), 1);
        }
    }
    let num_inputs = match size_of_word(vin) {
        Ok(x) => x,
        Err(e) => {
            return Err(e);
        },
    };
    let vout = match rd.next() {
        Ok(v) => v,
        Err(e) => {
            return Err(e);
        },
    };
    proof {
        assert forall|n: NetV| #[trigger] canon(n, bs) implies (vout == n.num_outputs as u64
            && NetV::size_ok(n.num_outputs as int) && n.num_outputs <= MAX_LAYER) by {
            lemma_serial_header(n);
            lemma_word_at(serial_words(n), 2);
        }
    }
    let num_outputs = match size_of_word(vout) {
        Ok(x) => x,
        Err(e) => {
            return Err(e);
        },
    };
    let nl64 = match rd.next() {
        Ok(v) => v,
        Err(e) => {
            return Err(e);
        },
    };
    proof {
        assert forall|n: NetV| #[trigger] canon(n, bs) implies (nl64 == n.layer_sizes.len() as u64
            && 1 <= n.layer_sizes.len() <= MAX_LAYERS) by {
            lemma_serial_header(n);
            lemma_word_at(serial_words(n), 3);
        }
    }
    if nl64 < 1 || nl64 > MAX_LAYERS as u64 {
        return Err(PersistenceError::BadShape);
    }
    let num_layers = nl64 as usize;
    proof {
        assert(forall|n: NetV| #[trigger] canon(n, bs) ==> (n.layer_sizes.len() == num_layers
            && n.num_inputs == num_inputs && n.num_outputs == num_outputs));
    }
    let mut layer_sizes: Vec<usize> = Vec::new();
    let mut z: usize = 0;
    while z < num_layers
        invariant
            z <= num_layers,
            layer_sizes@.len() == z,
            rd.bytes == bytes,
            rd.pos == 8 * (4 + z),
            rd.pos <= rd.bytes@.len(),
            forall|q: int| 0 <= q < z ==> NetV::size_ok(#[trigger] layer_sizes@[q] as int),
            forall|n: NetV|
                #[trigger] canon(n, bs) ==> (n.layer_sizes.len() == num_layers && n.num_inputs
                    == num_inputs && n.num_outputs == num_outputs && forall|q: int|
                    0 <= q < z ==> #[trigger] layer_sizes@[q] == n.layer_sizes[q]),
        decreases num_layers - z,
    {
        let vz = match rd.next() {
            Ok(v) => v,
            Err(e) => {
                proof {
                    assert forall|n: NetV| !(#[trigger] canon(n, bs)) by {
                        if canon(n, bs) {
                            lemma_words_bytes_len(serial_words(n));
                            lemma_serial_header(n);
                        }
                    }
                }
                return Err(e);
            },
        };
        proof {
            assert forall|n: NetV| #[trigger] canon(n, bs) implies (vz == n.layer_sizes[
                z as int] as u64 && NetV::size_ok(n.layer_sizes[z as int] as int)
                && n.layer_sizes[z as int] <= MAX_LAYER) by {
                lemma_serial_header(n);
                lemma_word_at(serial_words(n), 4 + z);
            }
        }
        let sz = match size_of_word(vz) {
            Ok(x) => x,
            Err(e) => {
                return Err(e);
            },
        };
        layer_sizes.push(sz);
        z += 1;
    }
    let mut maps: Vec<LayerMap> = Vec::new();
    let mut i: usize = 0;
    while i <= num_layers
        invariant
            i <= num_layers + 1,
            layer_sizes@.len() == num_layers,
            forall|q: int|
                0 <= q < num_layers ==> NetV::size_ok(#[trigger] layer_sizes@[q] as int),
            NetV::size_ok(num_inputs as int),
            NetV::size_ok(num_outputs as int),
            maps@.len() == i,
            forall|ii: int|
                0 <= ii < i ==> (#[trigger] maps@[ii])@.len() == (if ii == num_layers {
                    num_outputs as int
                } else {
                    layer_sizes@[ii] as int
                }),
            forall|ii: int, j: int|
                0 <= ii < i && 0 <= j < maps@[ii]@.len() ==> neuron_ok(
                    #[trigger] maps@[ii]@[j],
                    if ii == 0 {
                        num_inputs as int
                    } else {
                        layer_sizes@[ii - 1] as int
                    },
                ),
            rd.bytes == bytes,
            rd.pos <= rd.bytes@.len(),
            forall|n: NetV|
                #[trigger] canon(n, bs) ==> (n.layer_sizes.len() == num_layers && n.num_inputs
                    == num_inputs && n.num_outputs == num_outputs && (forall|q: int|
                    0 <= q < num_layers ==> #[trigger] layer_sizes@[q] == n.layer_sizes[q]) && (
                forall|q: int| 0 <= q < i ==> #[trigger] maps@[q]@ == n.maps[q]) && rd.pos == 8 * (
                header_words(n).len() + maps_words(n, i as int).len())),
        decreases num_layers + 1 - i,
    {
        let out_sz = if i == num_layers {
            num_outputs
        } else {
            layer_sizes[i]
        };
        let in_sz = if i == 0 {
            num_inputs
        } else {
            layer_sizes[i - 1]
        };
        proof {
            assert forall|n: NetV| #[trigger] canon(n, bs) implies (i < n.maps.len()
                && n.maps[i as int].len() == out_sz && n.in_size(i as int) == in_sz) by {
                assert(n.maps[i as int].len() == n.out_size(i as int));
            }
        }
        let mut neurons: Vec<Neuron> = Vec::new();
        let mut j: usize = 0;
        while j < out_sz
            invariant
                j <= out_sz,
                neurons@.len() == j,
                forall|jj: int| 0 <= jj < j ==> neuron_ok(#[trigger] neurons@[jj]@, in_sz as int),
                rd.bytes == bytes,
                rd.pos <= rd.bytes@.len(),
                forall|n: NetV|
                    #[trigger] canon(n, bs) ==> (i < n.maps.len() && n.maps[i as int].len()
                        == out_sz && n.in_size(i as int) == in_sz && (forall|q: int|
                        0 <= q < j ==> #[trigger] neurons@[q]@ == n.maps[i as int][q]) && rd.pos
                        == 8 * (header_words(n).len() + maps_words(n, i as int).len()
                        + neurons_words(n.maps[i as int], j as int).len())),
            decreases out_sz - j,
        {
            let mut conns: Vec<Conn> = Vec::new();
            let mut k: usize = 0;
            while k < in_sz
                invariant
                    k <= in_sz,
                    conns@.len() == k,
                    forall|kk: int| 0 <= kk < k ==> conn_ok(#[trigger] conns@[kk]),
                    j < out_sz,
                    rd.bytes == bytes,
                    rd.pos <= rd.bytes@.len(),
                    forall|n: NetV|
                        #[trigger] canon(n, bs) ==> (i < n.maps.len() && n.maps[i as int].len()
                            == out_sz && n.in_size(i as int) == in_sz && (forall|q: int|
                            0 <= q < k ==> #[trigger] conns@[q] == n.maps[i as int][
                            j as int].conns[q]) && rd.pos == 8 * gene_base(
                            n,
                            i as int,
                            j as int,
                            k as int,
                        )),
                decreases in_sz - k,
            {
                proof {
                    assert forall|n: NetV| #[trigger] canon(n, bs) implies (words_at(
                        bs,
                        rd.pos as int,
                        conn_words(n.maps[i as int][j as int].conns[k as int]),
                    ) && conn_ok(n.maps[i as int][j as int].conns[k as int])) by {
                        let nr = n.maps[i as int][j as int];
                        assert(neuron_ok(nr, n.in_size(i as int)));
                        lemma_words_bytes_len(serial_words(n));
                        lemma_serial_conn_words(n, i as int, j as int, k as int);
                        let base = gene_base(n, i as int, j as int, k as int);
                        assert forall|d: int| 0 <= d < 6 implies word_of(bs, rd.pos as int + 8 * d)
                            == (#[trigger] conn_words(nr.conns[k as int])[d]) by {
                            lemma_word_at(serial_words(n), base + d);
                            assert(8 * (base + d) == rd.pos as int + 8 * d);
                        }
                    }
                }
                let ghost pos_before = rd.pos;
                let c = match parse_conn(&mut rd) {
                    Ok(c) => c,
                    Err(e) => {
                        proof {
                            assert forall|n: NetV| !(#[trigger] canon(n, bs)) by {
                                if canon(n, bs) {
                                    assert(conn_ok(n.maps[i as int][j as int].conns[k as int])
                                        && words_at(
                                        bs,
                                        pos_before as int,
                                        conn_words(n.maps[i as int][j as int].conns[k as int]),
                                    ));
                                }
                            }
                        }
                        return Err(e);
                    },
                };
                conns.push(c);
                proof {
                    assert forall|n: NetV| #[trigger] canon(n, bs) implies ((forall|q: int|
                        0 <= q < k + 1 ==> #[trigger] conns@[q] == n.maps[i as int][
                        j as int].conns[q]) && rd.pos == 8 * gene_base(
                        n,
                        i as int,
                        j as int,
                        k + 1,
                    )) by {
                        assert(c == n.maps[i as int][j as int].conns[k as int]);
                        lemma_conns_words_len(n.maps[i as int][j as int].conns, k as int);
                        lemma_conns_words_len(n.maps[i as int][j as int].conns, k + 1);
                    }
                }
                k += 1;
            }
            proof {
                assert forall|n: NetV| #[trigger] canon(n, bs) implies (words_at(
                    bs,
                    rd.pos as int,
                    tail_words(
                        n.maps[i as int][j as int].activation_thresh,
                        n.maps[i as int][j as int].trait_swap_chance,
                    ),
                ) && -GENE_LIMIT <= n.maps[i as int][j as int].activation_thresh <= GENE_LIMIT
                    && n.maps[i as int][j as int].trait_swap_chance <= CHANCE_DENOM) by {
                    let nr = n.maps[i as int][j as int];
                    assert(neuron_ok(nr, n.in_size(i as int)));
                    lemma_words_bytes_len(serial_words(n));
                    lemma_serial_neuron_tail(n, i as int, j as int);
                    let base = gene_base(n, i as int, j as int, nr.conns.len() as int);
                    assert forall|d: int| 0 <= d < 2 implies word_of(bs, rd.pos as int + 8 * d)
                        == (#[trigger] tail_words(nr.activation_thresh, nr.trait_swap_chance)[
                        d]) by {
                        lemma_word_at(serial_words(n), base + d);
                        assert(8 * (base + d) == rd.pos as int + 8 * d);
                    }
                }
            }
            let ghost pos_before_tail = rd.pos;
            let (thresh, swap) = match parse_neuron_tail(&mut rd) {
                Ok(x) => x,
                Err(e) => {
                    proof {
                        assert forall|n: NetV| !(#[trigger] canon(n, bs)) by {
                            if canon(n, bs) {
                                assert(words_at(
                                    bs,
                                    pos_before_tail as int,
                                    tail_words(
                                        n.maps[i as int][j as int].activation_thresh,
                                        n.maps[i as int][j as int].trait_swap_chance,
                                    ),
                                ));
                            }
                        }
                    }
                    return Err(e);
                },
            };
            let nr = Neuron { conns, activation_thresh: thresh, trait_swap_chance: swap };
            neurons.push(nr);
            proof {
                assert forall|n: NetV| #[trigger] canon(n, bs) implies ((forall|q: int|
                    0 <= q < j + 1 ==> #[trigger] neurons@[q]@ == n.maps[i as int][q]) && rd.pos
                    == 8 * (header_words(n).len() + maps_words(n, i as int).len() + neurons_words(
                    n.maps[i as int],
                    j + 1,
                ).len())) by {
                    let nv = n.maps[i as int][j as int];
                    assert(thresh == nv.activation_thresh && swap == nv.trait_swap_chance);
                    assert(neurons@[j as int]@.conns =~= nv.conns);
                    assert(neurons@[j as int]@ =~= nv);
                    lemma_serial_neuron_tail(n, i as int, j as int);
                    lemma_conns_words_len(nv.conns, nv.conns.len() as int);
                }
            }
            j += 1;
        }
        maps.push(LayerMap { neurons });
        proof {
            assert forall|n: NetV| #[trigger] canon(n, bs) implies ((forall|q: int|
                0 <= q < i + 1 ==> #[trigger] maps@[q]@ == n.maps[q]) && rd.pos == 8 * (
            header_words(n).len() + maps_words(n, i + 1).len())) by {
                let mv = n.maps[i as int];
                assert forall|q: int| 0 <= q < mv.len() implies maps@[i as int]@[q] == mv[q] by {
                    assert(maps@[i as int]@[q] == neurons@[q]@);
                }
                assert(maps@[i as int]@ =~= mv);
                assert(maps_words(n, i + 1) == maps_words(n, i as int) + neurons_words(
                    mv,
                    mv.len() as int,
                ));
            }
        }
        i += 1;
    }
    let net = Network { maps, layer_sizes, num_inputs, num_outputs };
    proof {
        assert forall|ii: int| 0 <= ii < net@.maps.len() implies (#[trigger] net@.maps[ii]).len()
            == net@.out_size(ii) by {
            assert(net@.maps[ii] == maps@[ii]@);
        }
        assert forall|ii: int, j: int|
            0 <= ii < net@.maps.len() && 0 <= j < net@.maps[ii].len() implies neuron_ok(
            #[trigger] net@.maps[ii][j],
            net@.in_size(ii),
        ) by {
            assert(net@.maps[ii] == maps@[ii]@);
        }
        assert forall|n: NetV| #[trigger] canon(n, bs) implies net@ == n by {
            assert(n.maps.len() == n.layer_sizes.len() + 1);
            assert forall|q: int| 0 <= q < net@.maps.len() implies #[trigger] net@.maps[q]
                == n.maps[q] by {
                assert(net@.maps[q] == maps@[q]@);
            }
            assert(net@.maps =~= n.maps);
            assert(net@.layer_sizes =~= n.layer_sizes);
            assert(net@ =~= n);
        }
    }
    let reserialized = serialize_network(&net);
    if !bytes_equal(&reserialized, bytes) {
        proof {
            assert forall|n: NetV| !(#[trigger] canon(n, bs)) by {
                if canon(n, bs) {
                    assert(net@ == n);
                    assert(reserialized@ =~= bs);
                }
            }
        }
        return Err(PersistenceError::Corrupt);
    }
    proof {
        assert(serial_spec(net@) =~= bytes@);
    }
    Ok(net)
}

/// A uniform map's layout length: each of `j` neurons takes six words per
/// connection plus two.
proof fn lemma_neurons_words_len_uniform(m: Seq<NeuronV>, j: int, insz: int)
    requires
        0 <= j <= m.len(),
        0 <= insz,
        forall|q: int| 0 <= q < m.len() ==> (#[trigger] m[q]).conns.len() == insz,
    ensures
        neurons_words(m, j).len() == j * (6 * insz + 2),
    decreases j,
{
    if j > 0 {
        lemma_neurons_words_len_uniform(m, j - 1, insz);
        lemma_conns_words_len(m[j - 1].conns, insz);
        assert(neuron_words(m[j - 1]).len() == 6 * insz + 2);
        assert(j * (6 * insz + 2) == (j - 1) * (6 * insz + 2) + (6 * insz + 2))
            by (nonlinear_arith);
    } else {
        assert(0 * (6 * insz + 2) == 0) by (nonlinear_arith);
    }
}

/// Two well-formed genomes of one topology have map layouts of equal length.
proof fn lemma_maps_words_len_topo(a: NetV, b: NetV, i: int)
    requires
        a.wf(),
        b.wf(),
        a.same_topology(b),
        0 <= i <= a.maps.len(),
    ensures
        maps_words(a, i).len() == maps_words(b, i).len(),
    decreases i,
{
    if i > 0 {
        lemma_maps_words_len_topo(a, b, i - 1);
        assert(a.maps[i - 1].len() == a.out_size(i - 1));
        assert(b.maps[i - 1].len() == b.out_size(i - 1));
        assert forall|q: int| 0 <= q < a.maps[i - 1].len() implies (#[trigger] a.maps[i - 1][
        q]).conns.len() == a.in_size(i - 1) by {
            assert(neuron_ok(a.maps[i - 1][q], a.in_size(i - 1)));
        }
        assert forall|q: int| 0 <= q < b.maps[i - 1].len() implies (#[trigger] b.maps[i - 1][
        q]).conns.len() == b.in_size(i - 1) by {
            assert(neuron_ok(b.maps[i - 1][q], b.in_size(i - 1)));
        }
        lemma_neurons_words_len_uniform(
            a.maps[i - 1],
            a.maps[i - 1].len() as int,
            a.in_size(i - 1),
        );
        lemma_neurons_words_len_uniform(
            b.maps[i - 1],
            b.maps[i - 1].len() as int,
            b.in_size(i - 1),
        );
        assert(a.in_size(i - 1) == b.in_size(i - 1));
        assert(a.out_size(i - 1) == b.out_size(i - 1));
    }
}

/// Two well-formed genomes of one topology have layouts of equal length.
proof fn lemma_serial_len_topo(a: NetV, b: NetV)
    requires
        a.wf(),
        b.wf(),
        a.same_topology(b),
    ensures
        serial_words(a).len() == serial_words(b).len(),
{
    lemma_serial_header(a);
    lemma_serial_header(b);
    assert(a.maps.len() == b.maps.len());
    lemma_maps_words_len_topo(a, b, a.maps.len() as int);
}

/// No truncation of a genome's byte layout is the layout of any genome: a
/// cut-short model is always rejected, never read as a partial network.
pub proof fn lemma_truncated_layout_rejected(n: NetV, cut: int)
    requires
        n.wf(),
        0 <= cut < serial_spec(n).len(),
    ensures
        forall|n2: NetV| !(#[trigger] canon(n2, serial_spec(n).take(cut))),
{
    let b = serial_spec(n).take(cut);
    assert forall|n2: NetV| !(#[trigger] canon(n2, b)) by {
        if canon(n2, b) {
            lemma_words_bytes_len(serial_words(n));
            lemma_words_bytes_len(serial_words(n2));
            lemma_serial_header(n);
            lemma_serial_header(n2);
            assert(cut == 8 * serial_words(n2).len());
            assert(8 * (4 + n2.layer_sizes.len()) <= cut);
            assert forall|w: int| 0 <= w < 4 + n2.layer_sizes.len() implies #[trigger] serial_words(
                n2,
            )[w] == serial_words(n)[w] by {
                lemma_word_at(serial_words(n2), w);
                lemma_word_at(serial_words(n), w);
                assert forall|d: int| 0 <= d < 8 implies b[8 * w + d] == #[trigger] serial_spec(
                    n,
                )[8 * w + d] by {
                }
                assert(word_of(b, 8 * w) == word_of(serial_spec(n), 8 * w));
            }
            assert(serial_words(n2)[3] == n2.layer_sizes.len() as u64);
            assert(serial_words(n)[3] == n.layer_sizes.len() as u64);
            assert(n2.layer_sizes.len() == n.layer_sizes.len());
            assert(n2.num_inputs == n.num_inputs && n2.num_outputs == n.num_outputs);
            assert forall|q: int| 0 <= q < n.layer_sizes.len() implies #[trigger] n2.layer_sizes[q]
                == n.layer_sizes[q] by {
                assert(serial_words(n2)[4 + q] == n2.layer_sizes[q] as u64);
                assert(serial_words(n)[4 + q] == n.layer_sizes[q] as u64);
            }
            assert(n2.layer_sizes =~= n.layer_sizes);
            assert(n2.same_topology(n));
            lemma_serial_len_topo(n2, n);
            assert(false);
        }
    }
}

} // verus!
