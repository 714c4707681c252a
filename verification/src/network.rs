//! A feed-forward bit network and its genetic operators.
//!
//! Every scalar gene is a fixed-point integer in millionths (so `1_000_000`
//! stands for one), and every probability gene is in parts per million.  A
//! neuron fires when the weighted sum of its incoming bits plus per-connection
//! offsets exceeds its activation threshold; a layer's firing pattern is the
//! bit string handed to the next layer.

use vstd::prelude::*;

verus! {

use crate::bits::{bits_of, byte_bit, pack_bits, unpack_bits};
use crate::rng::{CHANCE_DENOM, Rng};

/// Largest magnitude any weight, offset, threshold or mutation amount may
/// take: four thousand in fixed-point millionths.
pub const GENE_LIMIT: i64 = 4_000_000_000;

/// One in fixed-point millionths: the half-width of the initial weight range.
pub const GENE_SCALE: i64 = 1_000_000;

/// Most neurons a single layer may hold.
pub const MAX_LAYER: usize = 65536;

/// Most entries `layer_sizes` may hold.
pub const MAX_LAYERS: usize = 64;

/// One connection into a neuron: its weight, its additive offset, and the
/// four mutation-rate genes that govern how the pair mutates.
#[derive(Clone, Copy, PartialEq, Eq, Structural, Debug)]
pub struct Conn {
    pub weight: i64,
    pub offset: i64,
    pub weight_mutate_chance: u32,
    pub weight_mutate_amount: i64,
    pub offset_mutate_chance: u32,
    pub offset_mutate_amount: i64,
}

/// One neuron: a connection per input bit, an activation threshold, and the
/// chance that crossover takes an allele from the second parent.
pub struct Neuron {
    pub conns: Vec<Conn>,
    pub activation_thresh: i64,
    pub trait_swap_chance: u32,
}

/// The connections from one layer's bits into the next layer's neurons.
pub struct LayerMap {
    pub neurons: Vec<Neuron>,
}

/// One genome: the layer shape and every gene of every connection.
pub struct Network {
    pub maps: Vec<LayerMap>,
    pub layer_sizes: Vec<usize>,
    pub num_inputs: usize,
    pub num_outputs: usize,
}

/// The mathematical value of one neuron.
#[verifier::ext_equal]
pub ghost struct NeuronV {
    pub conns: Seq<Conn>,
    pub activation_thresh: i64,
    pub trait_swap_chance: u32,
}

/// The mathematical value of one genome.
#[verifier::ext_equal]
pub ghost struct NetV {
    pub maps: Seq<Seq<NeuronV>>,
    pub layer_sizes: Seq<usize>,
    pub num_inputs: usize,
    pub num_outputs: usize,
}

impl View for Neuron {
    type V = NeuronV;

    open spec fn view(&self) -> NeuronV {
        NeuronV {
            conns: self.conns@,
            activation_thresh: self.activation_thresh,
            trait_swap_chance: self.trait_swap_chance,
        }
    }
}

impl View for LayerMap {
    type V = Seq<NeuronV>;

    open spec fn view(&self) -> Seq<NeuronV> {
        self.neurons@.map_values(|n: Neuron| n@)
    }
}

impl View for Network {
    type V = NetV;

    open spec fn view(&self) -> NetV {
        NetV {
            maps: self.maps@.map_values(|m: LayerMap| m@),
            layer_sizes: self.layer_sizes@,
            num_inputs: self.num_inputs,
            num_outputs: self.num_outputs,
        }
    }
}

/// Bounds every gene of a connection must respect.
pub open spec fn conn_ok(c: Conn) -> bool {
    &&& -GENE_LIMIT <= c.weight <= GENE_LIMIT
    &&& -GENE_LIMIT <= c.offset <= GENE_LIMIT
    &&& c.weight_mutate_chance <= CHANCE_DENOM
    &&& 0 <= c.weight_mutate_amount <= GENE_LIMIT
    &&& c.offset_mutate_chance <= CHANCE_DENOM
    &&& 0 <= c.offset_mutate_amount <= GENE_LIMIT
}

/// A well-formed neuron with one connection per input bit.
pub open spec fn neuron_ok(n: NeuronV, in_size: int) -> bool {
    &&& n.conns.len() == in_size
    &&& forall|k: int| 0 <= k < n.conns.len() ==> conn_ok(#[trigger] n.conns[k])
    &&& -GENE_LIMIT <= n.activation_thresh <= GENE_LIMIT
    &&& n.trait_swap_chance <= CHANCE_DENOM
}

impl NetV {
    /// How many bits feed the map at position `i`.
    pub open spec fn in_size(self, i: int) -> int {
        if i == 0 {
            self.num_inputs as int
        } else {
            self.layer_sizes[i - 1] as int
        }
    }

    /// How many neurons the map at position `i` drives.
    pub open spec fn out_size(self, i: int) -> int {
        if i == self.layer_sizes.len() {
            self.num_outputs as int
        } else {
            self.layer_sizes[i] as int
        }
    }

    /// A valid bit width: a positive multiple of eight, at most `MAX_LAYER`.
    pub open spec fn size_ok(n: int) -> bool {
        8 <= n <= MAX_LAYER && n % 8 == 0
    }

    /// The topology alone: shape, without gene values.
    pub open spec fn same_topology(self, other: NetV) -> bool {
        &&& self.layer_sizes == other.layer_sizes
        &&& self.num_inputs == other.num_inputs
        &&& self.num_outputs == other.num_outputs
    }

    /// Well-formedness: every size is valid and every map has exactly the
    /// shape the topology prescribes, with every gene in bounds.
    pub open spec fn wf(self) -> bool {
        &&& 1 <= self.layer_sizes.len() <= MAX_LAYERS
        &&& self.maps.len() == self.layer_sizes.len() + 1
        &&& Self::size_ok(self.num_inputs as int)
        &&& Self::size_ok(self.num_outputs as int)
        &&& forall|i: int|
            0 <= i < self.layer_sizes.len() ==> Self::size_ok(#[trigger] self.layer_sizes[i] as int)
        &&& forall|i: int|
            0 <= i < self.maps.len() ==> (#[trigger] self.maps[i]).len() == self.out_size(i)
        &&& forall|i: int, j: int|
            0 <= i < self.maps.len() && 0 <= j < self.maps[i].len() ==> neuron_ok(
                #[trigger] self.maps[i][j],
                self.in_size(i),
            )
    }
}

/// The weighted sum of the first `k` connections of a neuron over an input
/// bit string: weight where the bit is set, plus the offset always.
pub open spec fn neuron_sum(conns: Seq<Conn>, input: Seq<bool>, k: int) -> int
    decreases k,
{
    if k <= 0 {
        0
    } else {
        neuron_sum(conns, input, k - 1) + (if input[k - 1] {
            conns[k - 1].weight as int
        } else {
            0int
        }) + conns[k - 1].offset as int
    }
}

/// Whether a neuron fires on an input bit string.
pub open spec fn neuron_fires(n: NeuronV, input: Seq<bool>) -> bool {
    neuron_sum(n.conns, input, n.conns.len() as int) > n.activation_thresh
}

/// The firing pattern of one whole map.
pub open spec fn map_out(m: Seq<NeuronV>, input: Seq<bool>) -> Seq<bool> {
    Seq::new(m.len(), |j: int| neuron_fires(m[j], input))
}

/// The bit string after the first `i` maps have run.
pub open spec fn stage_out(net: NetV, input: Seq<bool>, i: int) -> Seq<bool>
    decreases i,
{
    if i <= 0 {
        input
    } else {
        map_out(net.maps[i - 1], stage_out(net, input, i - 1))
    }
}

/// The network's output bit string on an input bit string.
pub open spec fn net_out(net: NetV, input: Seq<bool>) -> Seq<bool> {
    stage_out(net, input, net.maps.len() as int)
}

impl Clone for Neuron {
    /// Cloning a neuron preserves its mathematical value.
    fn clone(&self) -> (r: Self)
        ensures
            r@ == self@,
    {
        let conns = self.conns.clone();
        proof {
            assert(conns@ =~= self.conns@);
        }
        Neuron {
            conns,
            activation_thresh: self.activation_thresh,
            trait_swap_chance: self.trait_swap_chance,
        }
    }
}

impl Clone for LayerMap {
    /// Cloning a map preserves its mathematical value.
    fn clone(&self) -> (r: Self)
        ensures
            r@ == self@,
    {
        let neurons = self.neurons.clone();
        proof {
            assert forall|i: int| 0 <= i < neurons@.len() implies (#[trigger] neurons@[i])@
                == self.neurons@[i]@ by {
            }
            assert(neurons@.map_values(|n: Neuron| n@) =~= self.neurons@.map_values(
                |n: Neuron| n@,
            ));
        }
        LayerMap { neurons }
    }
}

impl Clone for Network {
    /// Cloning a network preserves its mathematical value.
    fn clone(&self) -> (r: Self)
        ensures
            r@ == self@,
    {
        let maps = self.maps.clone();
        let layer_sizes = self.layer_sizes.clone();
        proof {
            assert forall|i: int| 0 <= i < maps@.len() implies (#[trigger] maps@[i])@
                == self.maps@[i]@ by {
            }
            assert(maps@.map_values(|m: LayerMap| m@) =~= self.maps@.map_values(
                |m: LayerMap| m@,
            ));
            assert(layer_sizes@ =~= self.layer_sizes@);
        }
        Network { maps, layer_sizes, num_inputs: self.num_inputs, num_outputs: self.num_outputs }
    }
}

/// Why two genomes, or a genome and an input, cannot be combined.
#[derive(Clone, Copy, PartialEq, Eq, Structural, Debug)]
pub enum TopologyMismatchError {
    /// The input bit width differs from the genome's configured width.
    InputWidth,
    /// Two genomes disagree in layer count or some layer size.
    Shape,
}

/// Sum one neuron's connections over an input bit string and compare the
/// total against the activation threshold.
#[verifier::loop_isolation(false)]
fn eval_neuron(n: &Neuron, input: &Vec<bool>) -> (fires: bool)
    requires
        neuron_ok(n@, n.conns@.len() as int),
        n.conns@.len() <= input@.len(),
        n.conns@.len() <= MAX_LAYER,
    ensures
        fires == neuron_fires(n@, input@),
{
    let m = n.conns.len();
    let mut acc: i64 = 0;
    let mut k: usize = 0;
    while k < m
        invariant
            k <= m,
            acc == neuron_sum(n@.conns, input@, k as int),
            -(k as int) * (2 * GENE_LIMIT) <= acc <= (k as int) * (2 * GENE_LIMIT),
        decreases m - k,
    {
        let c = n.conns[k];
        proof {
            assert(conn_ok(n@.conns[k as int]));
            vstd::arithmetic::mul::lemma_mul_inequality(k as int, MAX_LAYER as int, 2 * GENE_LIMIT);
            vstd::arithmetic::mul::lemma_mul_inequality(-(k as int), 0, 2 * GENE_LIMIT);
            assert((k as int) * (2 * GENE_LIMIT) <= 524288000000000);
            assert(-(k as int) * (2 * GENE_LIMIT) == -((k as int) * (2 * GENE_LIMIT)))
                by (nonlinear_arith);
            assert(-524288000000000 <= acc <= 524288000000000);
            assert(((k + 1) as int) * (2 * GENE_LIMIT) == (k as int) * (2 * GENE_LIMIT) + 2
                * GENE_LIMIT) by (nonlinear_arith);
        }
        if input[k] {
            acc = acc + c.weight;
        }
        acc = acc + c.offset;
        k += 1;
    }
    assert(neuron_sum(n@.conns, input@, n@.conns.len() as int)
        == neuron_sum(n@.conns, input@, m as int));
    acc > n.activation_thresh
}

/// Compute the firing pattern of one map over an input bit string.
#[verifier::loop_isolation(false)]
fn eval_map(m: &LayerMap, input: &Vec<bool>) -> (r: Vec<bool>)
    requires
        forall|j: int| 0 <= j < m@.len() ==> neuron_ok(#[trigger] m@[j], input@.len() as int),
        input@.len() <= MAX_LAYER,
    ensures
        r@ == map_out(m@, input@),
{
    let count = m.neurons.len();
    let mut r: Vec<bool> = Vec::new();
    let mut j: usize = 0;
    while j < count
        invariant
            j <= count,
            r@ =~= map_out(m@, input@).take(j as int),
        decreases count - j,
    {
        assert(m@[j as int] == m.neurons@[j as int]@);
        r.push(eval_neuron(&m.neurons[j], input));
        proof {
            assert(r@ =~= map_out(m@, input@).take(j + 1));
        }
        j += 1;
    }
    assert(r@ =~= map_out(m@, input@));
    r
}


/// The five genetic-operator settings handed to every fresh gene.
struct GeneSettings {
    activation_thresh: i64,
    trait_swap_chance: u32,
    weight_mutate_chance: u32,
    weight_mutate_amount: i64,
    offset_mutate_chance: u32,
    offset_mutate_amount: i64,
}

/// The five genetic-operator genes are stored on a neuron itself: the
/// threshold and trait-swap gene on the neuron, and the four mutation-rate
/// genes on every one of its connections.
pub open spec fn neuron_carries_genes(
    nr: NeuronV,
    activation_thresh: i64,
    trait_swap_chance: u32,
    weight_mutate_chance: u32,
    weight_mutate_amount: i64,
    offset_mutate_chance: u32,
    offset_mutate_amount: i64,
) -> bool {
    &&& nr.activation_thresh == activation_thresh
    &&& nr.trait_swap_chance == trait_swap_chance
    &&& forall|k: int|
        0 <= k < nr.conns.len() ==> {
            &&& (#[trigger] nr.conns[k]).weight_mutate_chance == weight_mutate_chance
            &&& nr.conns[k].weight_mutate_amount == weight_mutate_amount
            &&& nr.conns[k].offset_mutate_chance == offset_mutate_chance
            &&& nr.conns[k].offset_mutate_amount == offset_mutate_amount
        }
}

/// Bounds the settings must respect.
spec fn genes_ok(g: GeneSettings) -> bool {
    &&& -GENE_LIMIT <= g.activation_thresh <= GENE_LIMIT
    &&& g.trait_swap_chance <= CHANCE_DENOM
    &&& g.weight_mutate_chance <= CHANCE_DENOM
    &&& 0 <= g.weight_mutate_amount <= GENE_LIMIT
    &&& g.offset_mutate_chance <= CHANCE_DENOM
    &&& 0 <= g.offset_mutate_amount <= GENE_LIMIT
}

/// Draw one neuron with `in_sz` randomized connections.
#[verifier::loop_isolation(false)]
fn random_neuron(in_sz: usize, genes: &GeneSettings, rng: &mut Rng) -> (r: Neuron)
    requires
        genes_ok(*genes),
    ensures
        neuron_ok(r@, in_sz as int),
        neuron_carries_genes(
            r@,
            genes.activation_thresh,
            genes.trait_swap_chance,
            genes.weight_mutate_chance,
            genes.weight_mutate_amount,
            genes.offset_mutate_chance,
            genes.offset_mutate_amount,
        ),
{
    let mut conns: Vec<Conn> = Vec::new();
    let mut k: usize = 0;
    while k < in_sz
        invariant
            k <= in_sz,
            conns@.len() == k,
            forall|kk: int| 0 <= kk < k ==> conn_ok(#[trigger] conns@[kk]),
            forall|kk: int|
                0 <= kk < k ==> {
                    &&& (#[trigger] conns@[kk]).weight_mutate_chance == genes.weight_mutate_chance
                    &&& conns@[kk].weight_mutate_amount == genes.weight_mutate_amount
                    &&& conns@[kk].offset_mutate_chance == genes.offset_mutate_chance
                    &&& conns@[kk].offset_mutate_amount == genes.offset_mutate_amount
                },
        decreases in_sz - k,
    {
        let weight = rng.gen_range_i64(-GENE_SCALE, GENE_SCALE);
        let offset = rng.gen_range_i64(-(GENE_SCALE / 2), GENE_SCALE / 2);
        conns.push(
            Conn {
                weight,
                offset,
                weight_mutate_chance: genes.weight_mutate_chance,
                weight_mutate_amount: genes.weight_mutate_amount,
                offset_mutate_chance: genes.offset_mutate_chance,
                offset_mutate_amount: genes.offset_mutate_amount,
            },
        );
        k += 1;
    }
    Neuron {
        conns,
        activation_thresh: genes.activation_thresh,
        trait_swap_chance: genes.trait_swap_chance,
    }
}

/// Draw one map of `out_sz` neurons, each with `in_sz` connections.
#[verifier::loop_isolation(false)]
fn random_map(out_sz: usize, in_sz: usize, genes: &GeneSettings, rng: &mut Rng) -> (r: LayerMap)
    requires
        genes_ok(*genes),
    ensures
        r@.len() == out_sz,
        forall|j: int| 0 <= j < r@.len() ==> neuron_ok(#[trigger] r@[j], in_sz as int),
        forall|j: int|
            0 <= j < r@.len() ==> neuron_carries_genes(
                #[trigger] r@[j],
                genes.activation_thresh,
                genes.trait_swap_chance,
                genes.weight_mutate_chance,
                genes.weight_mutate_amount,
                genes.offset_mutate_chance,
                genes.offset_mutate_amount,
            ),
{
    let mut neurons: Vec<Neuron> = Vec::new();
    let mut j: usize = 0;
    while j < out_sz
        invariant
            j <= out_sz,
            neurons@.len() == j,
            forall|jj: int| 0 <= jj < j ==> neuron_ok(#[trigger] neurons@[jj]@, in_sz as int),
            forall|jj: int|
                0 <= jj < j ==> neuron_carries_genes(
                    #[trigger] neurons@[jj]@,
                    genes.activation_thresh,
                    genes.trait_swap_chance,
                    genes.weight_mutate_chance,
                    genes.weight_mutate_amount,
                    genes.offset_mutate_chance,
                    genes.offset_mutate_amount,
                ),
        decreases out_sz - j,
    {
        neurons.push(random_neuron(in_sz, genes, rng));
        j += 1;
    }
    let r = LayerMap { neurons };
    proof {
        assert(forall|j: int| 0 <= j < r@.len() ==> r@[j] == neurons@[j]@);
    }
    r
}

impl Network {
    /// One forward pass: propagate the input bits through every map and
    /// pack the final firing pattern into bytes.  A pure function of the
    /// genome and the input; fails exactly when the input width is wrong.
    #[verifier::loop_isolation(false)]
    pub fn forward(&self, input: &Vec<u8>) -> (r: Result<Vec<u8>, TopologyMismatchError>)
        requires
            self@.wf(),
        ensures
            r is Ok <==> input@.len() * 8 == self@.num_inputs,
            r is Err ==> r->Err_0 == TopologyMismatchError::InputWidth,
            r is Ok ==> r->Ok_0@.len() * 8 == self@.num_outputs,
            r is Ok ==> bits_of(r->Ok_0@) == net_out(self@, bits_of(input@)),
    {
        if input.len() != self.num_inputs / 8 {
            return Err(TopologyMismatchError::InputWidth);
        }
        let ghost inbits = bits_of(input@);
        let mut cur = unpack_bits(input);
        let n = self.maps.len();
        let mut i: usize = 0;
        while i < n
            invariant
                i <= n,
                cur@ == stage_out(self@, inbits, i as int),
                cur@.len() == (if i < n { self@.in_size(i as int) } else { self@.num_outputs as int }),
            decreases n - i,
        {
            assert(self@.maps[i as int] == self.maps@[i as int]@);
            assert(forall|j: int|
                0 <= j < self@.maps[i as int].len() ==> neuron_ok(
                    #[trigger] self@.maps[i as int][j],
                    self@.in_size(i as int),
                ));
            cur = eval_map(&self.maps[i], &cur);
            assert(cur@ == stage_out(self@, inbits, i + 1));
            i += 1;
        }
        assert(cur@.len() == self@.num_outputs);
        let out = pack_bits(&cur);
        Ok(out)
    }

    /// Build a genome of the given topology with every weight drawn from
    /// `-GENE_SCALE ..= GENE_SCALE`, every offset from half that range, and
    /// the five genetic-operator genes stored on every connection and neuron.
    #[verifier::loop_isolation(false)]
    pub fn new_random(
        layer_sizes: &Vec<usize>,
        num_inputs: usize,
        num_outputs: usize,
        activation_thresh: i64,
        trait_swap_chance: u32,
        weight_mutate_chance: u32,
        weight_mutate_amount: i64,
        offset_mutate_chance: u32,
        offset_mutate_amount: i64,
        rng: &mut Rng,
    ) -> (r: Network)
        requires
            1 <= layer_sizes@.len() <= MAX_LAYERS,
            NetV::size_ok(num_inputs as int),
            NetV::size_ok(num_outputs as int),
            forall|i: int|
                0 <= i < layer_sizes@.len() ==> NetV::size_ok(#[trigger] layer_sizes@[i] as int),
            -GENE_LIMIT <= activation_thresh <= GENE_LIMIT,
            trait_swap_chance <= CHANCE_DENOM,
            weight_mutate_chance <= CHANCE_DENOM,
            0 <= weight_mutate_amount <= GENE_LIMIT,
            offset_mutate_chance <= CHANCE_DENOM,
            0 <= offset_mutate_amount <= GENE_LIMIT,
        ensures
            r@.wf(),
            r@.layer_sizes == layer_sizes@,
            r@.num_inputs == num_inputs,
            r@.num_outputs == num_outputs,
            forall|i: int, j: int|
                0 <= i < r@.maps.len() && 0 <= j < r@.maps[i].len() ==> neuron_carries_genes(
                    #[trigger] r@.maps[i][j],
                    activation_thresh,
                    trait_swap_chance,
                    weight_mutate_chance,
                    weight_mutate_amount,
                    offset_mutate_chance,
                    offset_mutate_amount,
                ),
    {
        let genes = GeneSettings {
            activation_thresh,
            trait_swap_chance,
            weight_mutate_chance,
            weight_mutate_amount,
            offset_mutate_chance,
            offset_mutate_amount,
        };
        let num_layers = layer_sizes.len();
        let mut maps: Vec<LayerMap> = Vec::new();
        let mut i: usize = 0;
        while i <= num_layers
            invariant
                i <= num_layers + 1,
                maps@.len() == i,
                forall|ii: int|
                    0 <= ii < i ==> (#[trigger] maps@[ii])@.len() == (if ii == num_layers {
                        num_outputs as int
                    } else {
                        layer_sizes@[ii] as int
                    }),
                forall|ii: int, j: int|
                    0 <= ii < i && 0 <= j < maps@[ii]@.len() ==> neuron_ok(
                        #[trigger] maps@[ii]@[j],
                        if ii == 0 {
                            num_inputs as int
                        } else {
                            layer_sizes@[ii - 1] as int
                        },
                    ),
                forall|ii: int, j: int|
                    0 <= ii < i && 0 <= j < maps@[ii]@.len() ==> neuron_carries_genes(
                        #[trigger] maps@[ii]@[j],
                        activation_thresh,
                        trait_swap_chance,
                        weight_mutate_chance,
                        weight_mutate_amount,
                        offset_mutate_chance,
                        offset_mutate_amount,
                    ),
            decreases num_layers + 1 - i,
        {
            let out_sz = if i == num_layers {
                num_outputs
            } else {
                layer_sizes[i]
            };
            let in_sz = if i == 0 {
                num_inputs
            } else {
                layer_sizes[i - 1]
            };
            maps.push(random_map(out_sz, in_sz, &genes, rng));
            i += 1;
        }
        let sizes = layer_sizes.clone();
        proof {
            assert(sizes@ =~= layer_sizes@);
        }
        let r = Network { maps, layer_sizes: sizes, num_inputs, num_outputs };
        proof {
            assert forall|ii: int| 0 <= ii < r@.maps.len() implies (#[trigger] r@.maps[ii]).len()
                == r@.out_size(ii) by {
                assert(r@.maps[ii] == maps@[ii]@);
            }
            assert forall|ii: int, j: int|
                0 <= ii < r@.maps.len() && 0 <= j < r@.maps[ii].len() implies neuron_ok(
                #[trigger] r@.maps[ii][j],
                r@.in_size(ii),
            ) by {
                assert(r@.maps[ii] == maps@[ii]@);
            }
            assert forall|ii: int, j: int|
                0 <= ii < r@.maps.len() && 0 <= j < r@.maps[ii].len()
                implies neuron_carries_genes(
                #[trigger] r@.maps[ii][j],
                activation_thresh,
                trait_swap_chance,
                weight_mutate_chance,
                weight_mutate_amount,
                offset_mutate_chance,
                offset_mutate_amount,
            ) by {
                assert(r@.maps[ii] == maps@[ii]@);
            }
        }
        r
    }
}

/// One byte is determined by its eight bits.
proof fn lemma_byte_eq(a: u8, b: u8)
    requires
        forall|j: int| 0 <= j < 8 ==> byte_bit(a, j) == byte_bit(b, j),
    ensures
        a == b,
{
    assert(byte_bit(a, 0) == byte_bit(b, 0));
    assert(byte_bit(a, 1) == byte_bit(b, 1));
    assert(byte_bit(a, 2) == byte_bit(b, 2));
    assert(byte_bit(a, 3) == byte_bit(b, 3));
    assert(byte_bit(a, 4) == byte_bit(b, 4));
    assert(byte_bit(a, 5) == byte_bit(b, 5));
    assert(byte_bit(a, 6) == byte_bit(b, 6));
    assert(byte_bit(a, 7) == byte_bit(b, 7));
    assert(a == b) by (bit_vector)
        requires
            ((a >> 7u8) & 1 == 1) == ((b >> 7u8) & 1 == 1),
            ((a >> 6u8) & 1 == 1) == ((b >> 6u8) & 1 == 1),
            ((a >> 5u8) & 1 == 1) == ((b >> 5u8) & 1 == 1),
            ((a >> 4u8) & 1 == 1) == ((b >> 4u8) & 1 == 1),
            ((a >> 3u8) & 1 == 1) == ((b >> 3u8) & 1 == 1),
            ((a >> 2u8) & 1 == 1) == ((b >> 2u8) & 1 == 1),
            ((a >> 1u8) & 1 == 1) == ((b >> 1u8) & 1 == 1),
            ((a >> 0u8) & 1 == 1) == ((b >> 0u8) & 1 == 1),
    ;
}

/// A byte string is determined by its bit string.
pub proof fn lemma_bits_of_injective(x: Seq<u8>, y: Seq<u8>)
    requires
        x.len() == y.len(),
        bits_of(x) == bits_of(y),
    ensures
        x == y,
{
    assert forall|i: int| 0 <= i < x.len() implies x[i] == y[i] by {
        assert forall|j: int| 0 <= j < 8 implies byte_bit(x[i], j) == byte_bit(y[i], j) by {
            let p = 8 * i + j;
            assert(p / 8 == i && p % 8 == j) by (nonlinear_arith)
                requires
                    0 <= j < 8,
                    0 <= i,
                    p == 8 * i + j,
            ;
            assert(0 <= p < x.len() * 8);
            assert(bits_of(x)[p] == byte_bit(x[p / 8], p % 8));
            assert(bits_of(y)[p] == byte_bit(y[p / 8], p % 8));
            assert(bits_of(x)[p] == bits_of(y)[p]);
        }
        lemma_byte_eq(x[i], y[i]);
    }
    assert(x =~= y);
}

/// `forward` is a pure function of genome and input: any two byte outputs
/// meeting its contract for the same genome and input are bit-identical.
pub proof fn lemma_forward_pure(net: NetV, input: Seq<u8>, r1: Seq<u8>, r2: Seq<u8>)
    requires
        r1.len() * 8 == net.num_outputs,
        bits_of(r1) == net_out(net, bits_of(input)),
        r2.len() * 8 == net.num_outputs,
        bits_of(r2) == net_out(net, bits_of(input)),
    ensures
        r1 == r2,
{
    lemma_bits_of_injective(r1, r2);
}

/// How a child pair may relate to a parent pair of neurons: every connection
/// allele and the threshold allele come from one parent each, complementary
/// between the two children; the crossover gene itself is not traded.
pub open spec fn mixed_neurons(na: NeuronV, nb: NeuronV, ca: NeuronV, cb: NeuronV) -> bool {
    &&& ca.conns.len() == na.conns.len()
    &&& cb.conns.len() == na.conns.len()
    &&& forall|k: int|
        #![trigger ca.conns[k]]
        #![trigger cb.conns[k]]
        0 <= k < na.conns.len() ==> ((ca.conns[k] == na.conns[k] && cb.conns[k] == nb.conns[k])
            || (ca.conns[k] == nb.conns[k] && cb.conns[k] == na.conns[k]))
    &&& ((ca.activation_thresh == na.activation_thresh && cb.activation_thresh
        == nb.activation_thresh) || (ca.activation_thresh == nb.activation_thresh
        && cb.activation_thresh == na.activation_thresh))
    &&& ca.trait_swap_chance == na.trait_swap_chance
    &&& cb.trait_swap_chance == nb.trait_swap_chance
}

/// Cross one pair of neurons: per connection, with the first parent's
/// trait-swap chance, the children receive the alleles exchanged.
#[verifier::loop_isolation(false)]
fn cross_neuron(a: &Neuron, b: &Neuron, rng: &mut Rng) -> (r: (Neuron, Neuron))
    requires
        a.conns@.len() == b.conns@.len(),
        a.trait_swap_chance <= CHANCE_DENOM,
    ensures
        mixed_neurons(a@, b@, r.0@, r.1@),
{
    let m = a.conns.len();
    let mut ca: Vec<Conn> = Vec::new();
    let mut cb: Vec<Conn> = Vec::new();
    let mut k: usize = 0;
    while k < m
        invariant
            k <= m,
            ca@.len() == k,
            cb@.len() == k,
            forall|kk: int|
                0 <= kk < k ==> ((#[trigger] ca@[kk] == a.conns@[kk] && cb@[kk] == b.conns@[kk])
                    || (ca@[kk] == b.conns@[kk] && cb@[kk] == a.conns@[kk])),
        decreases m - k,
    {
        if rng.chance(a.trait_swap_chance) {
            ca.push(b.conns[k]);
            cb.push(a.conns[k]);
        } else {
            ca.push(a.conns[k]);
            cb.push(b.conns[k]);
        }
        k += 1;
    }
    let (ta, tb) = if rng.chance(a.trait_swap_chance) {
        (b.activation_thresh, a.activation_thresh)
    } else {
        (a.activation_thresh, b.activation_thresh)
    };
    (
        Neuron { conns: ca, activation_thresh: ta, trait_swap_chance: a.trait_swap_chance },
        Neuron { conns: cb, activation_thresh: tb, trait_swap_chance: b.trait_swap_chance },
    )
}

/// Cross every neuron pair of one map pair.
#[verifier::loop_isolation(false)]
fn cross_map(a: &LayerMap, b: &LayerMap, rng: &mut Rng) -> (r: (LayerMap, LayerMap))
    requires
        a@.len() == b@.len(),
        forall|j: int| 0 <= j < a@.len() ==> (#[trigger] a@[j]).trait_swap_chance <= CHANCE_DENOM,
        forall|j: int| 0 <= j < a@.len() ==> (#[trigger] a@[j]).conns.len() == b@[j].conns.len(),
    ensures
        r.0@.len() == a@.len(),
        r.1@.len() == a@.len(),
        forall|j: int|
            0 <= j < a@.len() ==> mixed_neurons(a@[j], b@[j], #[trigger] r.0@[j], r.1@[j]),
{
    let count = a.neurons.len();
    let mut ca: Vec<Neuron> = Vec::new();
    let mut cb: Vec<Neuron> = Vec::new();
    let mut j: usize = 0;
    while j < count
        invariant
            j <= count,
            ca@.len() == j,
            cb@.len() == j,
            forall|jj: int|
                0 <= jj < j ==> mixed_neurons(a@[jj], b@[jj], #[trigger] ca@[jj]@, cb@[jj]@),
        decreases count - j,
    {
        assert(a@[j as int] == a.neurons@[j as int]@);
        assert(b@[j as int] == b.neurons@[j as int]@);
        let (na, nb) = cross_neuron(&a.neurons[j], &b.neurons[j], rng);
        ca.push(na);
        cb.push(nb);
        j += 1;
    }
    let r = (LayerMap { neurons: ca }, LayerMap { neurons: cb });
    proof {
        assert(forall|jj: int| 0 <= jj < count ==> r.0@[jj] == ca@[jj]@);
        assert(forall|jj: int| 0 <= jj < count ==> r.1@[jj] == cb@[jj]@);
    }
    r
}

/// Compare two genomes' topologies.
#[verifier::loop_isolation(false)]
pub fn same_topology_exec(a: &Network, b: &Network) -> (r: bool)
    ensures
        r == a@.same_topology(b@),
{
    if a.num_inputs != b.num_inputs || a.num_outputs != b.num_outputs {
        return false;
    }
    if a.layer_sizes.len() != b.layer_sizes.len() {
        assert(a@.layer_sizes != b@.layer_sizes);
        return false;
    }
    let n = a.layer_sizes.len();
    let mut i: usize = 0;
    while i < n
        invariant
            i <= n,
            forall|k: int| 0 <= k < i ==> a.layer_sizes@[k] == b.layer_sizes@[k],
        decreases n - i,
    {
        if a.layer_sizes[i] != b.layer_sizes[i] {
            assert(a@.layer_sizes != b@.layer_sizes);
            return false;
        }
        i += 1;
    }
    proof {
        assert(a@.layer_sizes =~= b@.layer_sizes);
    }
    true
}

/// How one connection may change under mutation: the four mutation-rate
/// genes are kept, and weight and offset move at most their mutation amount.
pub open spec fn mutated_conn(oldc: Conn, newc: Conn) -> bool {
    &&& newc.weight_mutate_chance == oldc.weight_mutate_chance
    &&& newc.weight_mutate_amount == oldc.weight_mutate_amount
    &&& newc.offset_mutate_chance == oldc.offset_mutate_chance
    &&& newc.offset_mutate_amount == oldc.offset_mutate_amount
    &&& oldc.weight - oldc.weight_mutate_amount <= newc.weight <= oldc.weight
        + oldc.weight_mutate_amount
    &&& oldc.offset - oldc.offset_mutate_amount <= newc.offset <= oldc.offset
        + oldc.offset_mutate_amount
}

/// How one neuron may change under mutation: threshold, crossover gene and
/// shape are kept; every connection changes only as `mutated_conn` allows.
pub open spec fn mutated_neuron(oldn: NeuronV, newn: NeuronV) -> bool {
    &&& newn.conns.len() == oldn.conns.len()
    &&& newn.activation_thresh == oldn.activation_thresh
    &&& newn.trait_swap_chance == oldn.trait_swap_chance
    &&& forall|k: int|
        0 <= k < oldn.conns.len() ==> mutated_conn(oldn.conns[k], #[trigger] newn.conns[k])
}

/// Mutate one connection: with its own chance genes, redraw weight and
/// offset within their mutation amounts, clamped to the gene limit.
fn mut_conn(c: Conn, rng: &mut Rng) -> (r: Conn)
    requires
        conn_ok(c),
    ensures
        conn_ok(r),
        mutated_conn(c, r),
{
    let mut out = c;
    if rng.chance(c.weight_mutate_chance) {
        let lo = if c.weight - c.weight_mutate_amount < -GENE_LIMIT {
            -GENE_LIMIT
        } else {
            c.weight - c.weight_mutate_amount
        };
        let hi = if c.weight + c.weight_mutate_amount > GENE_LIMIT {
            GENE_LIMIT
        } else {
            c.weight + c.weight_mutate_amount
        };
        out.weight = rng.gen_range_i64(lo, hi);
    }
    if rng.chance(c.offset_mutate_chance) {
        let lo = if c.offset - c.offset_mutate_amount < -GENE_LIMIT {
            -GENE_LIMIT
        } else {
            c.offset - c.offset_mutate_amount
        };
        let hi = if c.offset + c.offset_mutate_amount > GENE_LIMIT {
            GENE_LIMIT
        } else {
            c.offset + c.offset_mutate_amount
        };
        out.offset = rng.gen_range_i64(lo, hi);
    }
    out
}

/// Mutate every connection of one neuron.
#[verifier::loop_isolation(false)]
fn mut_neuron(n: &Neuron, rng: &mut Rng) -> (r: Neuron)
    requires
        forall|k: int| 0 <= k < n.conns@.len() ==> conn_ok(#[trigger] n.conns@[k]),
    ensures
        mutated_neuron(n@, r@),
        forall|k: int| 0 <= k < r@.conns.len() ==> conn_ok(#[trigger] r@.conns[k]),
{
    let m = n.conns.len();
    let mut conns: Vec<Conn> = Vec::new();
    let mut k: usize = 0;
    while k < m
        invariant
            k <= m,
            conns@.len() == k,
            forall|kk: int| 0 <= kk < k ==> conn_ok(#[trigger] conns@[kk]),
            forall|kk: int| 0 <= kk < k ==> mutated_conn(n.conns@[kk], #[trigger] conns@[kk]),
        decreases m - k,
    {
        conns.push(mut_conn(n.conns[k], rng));
        k += 1;
    }
    Neuron {
        conns,
        activation_thresh: n.activation_thresh,
        trait_swap_chance: n.trait_swap_chance,
    }
}

/// Mutate every neuron of one map.
#[verifier::loop_isolation(false)]
fn mut_map(m: &LayerMap, rng: &mut Rng) -> (r: LayerMap)
    requires
        forall|j: int, k: int|
            0 <= j < m@.len() && 0 <= k < m@[j].conns.len() ==> conn_ok(
                #[trigger] m@[j].conns[k],
            ),
    ensures
        r@.len() == m@.len(),
        forall|j: int| 0 <= j < m@.len() ==> mutated_neuron(m@[j], #[trigger] r@[j]),
        forall|j: int, k: int|
            0 <= j < r@.len() && 0 <= k < r@[j].conns.len() ==> conn_ok(
                #[trigger] r@[j].conns[k],
            ),
{
    let count = m.neurons.len();
    let mut neurons: Vec<Neuron> = Vec::new();
    let mut j: usize = 0;
    while j < count
        invariant
            j <= count,
            neurons@.len() == j,
            forall|jj: int| 0 <= jj < j ==> mutated_neuron(m@[jj], #[trigger] neurons@[jj]@),
            forall|jj: int, k: int|
                0 <= jj < j && 0 <= k < neurons@[jj]@.conns.len() ==> conn_ok(
                    #[trigger] neurons@[jj]@.conns[k],
                ),
        decreases count - j,
    {
        proof {
            assert(m@[j as int] == m.neurons@[j as int]@);
            assert forall|k: int| 0 <= k < m.neurons@[j as int]@.conns.len() implies conn_ok(
                #[trigger] m.neurons@[j as int]@.conns[k],
            ) by {
                assert(conn_ok(m@[j as int].conns[k]));
            }
        }
        neurons.push(mut_neuron(&m.neurons[j], rng));
        j += 1;
    }
    let r = LayerMap { neurons };
    proof {
        assert(forall|jj: int| 0 <= jj < count ==> r@[jj] == neurons@[jj]@);
    }
    r
}

impl Network {
    /// Cross two parents into two complementary children.  Fails exactly
    /// when the parents' topologies differ; both children keep the shared
    /// topology, and every allele of every child comes from one parent.
    #[verifier::loop_isolation(false)]
    pub fn crossover(parent_a: &Network, parent_b: &Network, rng: &mut Rng) -> (r: Result<
        (Network, Network),
        TopologyMismatchError,
    >)
        requires
            parent_a@.wf(),
            parent_b@.wf(),
        ensures
            r is Ok <==> parent_a@.same_topology(parent_b@),
            r is Err ==> r->Err_0 == TopologyMismatchError::Shape,
            r is Ok ==> {
                let (ca, cb) = r->Ok_0;
                &&& ca@.wf()
                &&& cb@.wf()
                &&& ca@.same_topology(parent_a@)
                &&& cb@.same_topology(parent_a@)
                &&& forall|i: int, j: int|
                    0 <= i < parent_a@.maps.len() && 0 <= j < parent_a@.maps[i].len()
                        ==> mixed_neurons(
                        parent_a@.maps[i][j],
                        parent_b@.maps[i][j],
                        #[trigger] ca@.maps[i][j],
                        cb@.maps[i][j],
                    )
            },
    {
        if !same_topology_exec(parent_a, parent_b) {
            return Err(TopologyMismatchError::Shape);
        }
        let n = parent_a.maps.len();
        let mut ma: Vec<LayerMap> = Vec::new();
        let mut mb: Vec<LayerMap> = Vec::new();
        let mut i: usize = 0;
        while i < n
            invariant
                i <= n,
                ma@.len() == i,
                mb@.len() == i,
                forall|ii: int, j: int|
                    0 <= ii < i && 0 <= j < parent_a@.maps[ii].len() ==> mixed_neurons(
                        parent_a@.maps[ii][j],
                        parent_b@.maps[ii][j],
                        #[trigger] ma@[ii]@[j],
                        mb@[ii]@[j],
                    ),
                forall|ii: int| 0 <= ii < i ==> (#[trigger] ma@[ii])@.len()
                    == parent_a@.maps[ii].len(),
                forall|ii: int| 0 <= ii < i ==> (#[trigger] mb@[ii])@.len()
                    == parent_a@.maps[ii].len(),
            decreases n - i,
        {
            assert(parent_a@.maps[i as int] == parent_a.maps@[i as int]@);
            assert(parent_b@.maps[i as int] == parent_b.maps@[i as int]@);
            assert(parent_a@.out_size(i as int) == parent_b@.out_size(i as int));
            assert(parent_a@.in_size(i as int) == parent_b@.in_size(i as int));
            let (xa, xb) = cross_map(&parent_a.maps[i], &parent_b.maps[i], rng);
            ma.push(xa);
            mb.push(xb);
            i += 1;
        }
        let la = parent_a.layer_sizes.clone();
        let lb = parent_a.layer_sizes.clone();
        proof {
            assert(la@ =~= parent_a.layer_sizes@);
            assert(lb@ =~= parent_a.layer_sizes@);
        }
        let ca = Network {
            maps: ma,
            layer_sizes: la,
            num_inputs: parent_a.num_inputs,
            num_outputs: parent_a.num_outputs,
        };
        let cb = Network {
            maps: mb,
            layer_sizes: lb,
            num_inputs: parent_a.num_inputs,
            num_outputs: parent_a.num_outputs,
        };
        proof {
            assert(forall|ii: int| 0 <= ii < n ==> ca@.maps[ii] == ma@[ii]@);
            assert(forall|ii: int| 0 <= ii < n ==> cb@.maps[ii] == mb@[ii]@);
            assert forall|ii: int, j: int|
                0 <= ii < ca@.maps.len() && 0 <= j < ca@.maps[ii].len() implies neuron_ok(
                #[trigger] ca@.maps[ii][j],
                ca@.in_size(ii),
            ) by {
                assert(ca@.maps[ii] == ma@[ii]@);
                assert(cb@.maps[ii] == mb@[ii]@);
                assert(mixed_neurons(
                    parent_a@.maps[ii][j],
                    parent_b@.maps[ii][j],
                    ma@[ii]@[j],
                    mb@[ii]@[j],
                ));
                assert(neuron_ok(parent_a@.maps[ii][j], parent_a@.in_size(ii)));
                assert(neuron_ok(parent_b@.maps[ii][j], parent_b@.in_size(ii)));
            }
            assert forall|ii: int, j: int|
                0 <= ii < cb@.maps.len() && 0 <= j < cb@.maps[ii].len() implies neuron_ok(
                #[trigger] cb@.maps[ii][j],
                cb@.in_size(ii),
            ) by {
                assert(ca@.maps[ii] == ma@[ii]@);
                assert(cb@.maps[ii] == mb@[ii]@);
                assert(mixed_neurons(
                    parent_a@.maps[ii][j],
                    parent_b@.maps[ii][j],
                    ma@[ii]@[j],
                    mb@[ii]@[j],
                ));
                assert(neuron_ok(parent_a@.maps[ii][j], parent_a@.in_size(ii)));
                assert(neuron_ok(parent_b@.maps[ii][j], parent_b@.in_size(ii)));
            }
        }
        Ok((ca, cb))
    }

    /// Mutate every weight and offset in place, each with its connection's
    /// own chance and amount genes; shape and every other gene are kept.
    #[verifier::loop_isolation(false)]
    pub fn mutate(&mut self, rng: &mut Rng)
        requires
            old(self)@.wf(),
        ensures
            final(self)@.wf(),
            final(self)@.same_topology(old(self)@),
            final(self)@.maps.len() == old(self)@.maps.len(),
            forall|i: int|
                0 <= i < old(self)@.maps.len() ==> (#[trigger] final(self)@.maps[i]).len()
                    == old(self)@.maps[i].len(),
            forall|i: int, j: int|
                0 <= i < old(self)@.maps.len() && 0 <= j < old(self)@.maps[i].len()
                    ==> mutated_neuron(old(self)@.maps[i][j], #[trigger] final(self)@.maps[i][j]),
    {
        let n = self.maps.len();
        let mut maps: Vec<LayerMap> = Vec::new();
        let mut i: usize = 0;
        while i < n
            invariant
                i <= n,
                maps@.len() == i,
                forall|ii: int| 0 <= ii < i ==> (#[trigger] maps@[ii])@.len()
                    == old(self)@.maps[ii].len(),
                forall|ii: int, j: int|
                    0 <= ii < i && 0 <= j < old(self)@.maps[ii].len() ==> mutated_neuron(
                        old(self)@.maps[ii][j],
                        #[trigger] maps@[ii]@[j],
                    ),
                forall|ii: int, j: int, k: int|
                    0 <= ii < i && 0 <= j < maps@[ii]@.len() && 0 <= k
                        < maps@[ii]@[j].conns.len() ==> conn_ok(#[trigger] maps@[ii]@[j].conns[k]),
                self@ == old(self)@,
            decreases n - i,
        {
            assert(self@.maps[i as int] == self.maps@[i as int]@);
            maps.push(mut_map(&self.maps[i], rng));
            i += 1;
        }
        self.maps = maps;
        proof {
            assert(forall|ii: int| 0 <= ii < n ==> self@.maps[ii] == maps@[ii]@);
            assert forall|ii: int, j: int|
                0 <= ii < self@.maps.len() && 0 <= j < self@.maps[ii].len() implies {
                &&& neuron_ok(#[trigger] self@.maps[ii][j], self@.in_size(ii))
                &&& mutated_neuron(old(self)@.maps[ii][j], self@.maps[ii][j])
            } by {
                assert(self@.maps[ii] == maps@[ii]@);
                assert(mutated_neuron(old(self)@.maps[ii][j], maps@[ii]@[j]));
                assert(neuron_ok(old(self)@.maps[ii][j], old(self)@.in_size(ii)));
                assert(forall|k: int|
                    0 <= k < maps@[ii]@[j].conns.len() ==> conn_ok(
                        #[trigger] maps@[ii]@[j].conns[k],
                    ));
            }
        }
    }
}

/// A connection that mutating one of two alleles could have produced.
pub open spec fn derived_conn(c: Conn, x: Conn, y: Conn) -> bool {
    mutated_conn(x, c) || mutated_conn(y, c)
}

/// A neuron that crossover of two parent neurons followed by mutation could
/// have produced: every gene descends from one parent's allele.
pub open spec fn offspring_neuron(nn: NeuronV, na: NeuronV, nb: NeuronV) -> bool {
    &&& nn.conns.len() == na.conns.len()
    &&& nb.conns.len() == na.conns.len()
    &&& forall|k: int|
        0 <= k < nn.conns.len() ==> derived_conn(#[trigger] nn.conns[k], na.conns[k], nb.conns[k])
    &&& (nn.activation_thresh == na.activation_thresh || nn.activation_thresh
        == nb.activation_thresh)
    &&& (nn.trait_swap_chance == na.trait_swap_chance || nn.trait_swap_chance
        == nb.trait_swap_chance)
}

/// A genome that crossover of the two parents followed by mutation could
/// have produced: the parents' shared topology, with gene-wise descent.
pub open spec fn offspring_of(c: NetV, pa: NetV, pb: NetV) -> bool {
    &&& c.same_topology(pa)
    &&& c.maps.len() == pa.maps.len()
    &&& pb.maps.len() == pa.maps.len()
    &&& forall|i: int|
        0 <= i < c.maps.len() ==> (#[trigger] c.maps[i]).len() == pa.maps[i].len()
            && pb.maps[i].len() == pa.maps[i].len()
    &&& forall|i: int, j: int|
        0 <= i < c.maps.len() && 0 <= j < c.maps[i].len() ==> offspring_neuron(
            #[trigger] c.maps[i][j],
            pa.maps[i][j],
            pb.maps[i][j],
        )
}

/// Crossing two well-formed parents and then mutating the child yields an
/// offspring in the sense of `offspring_of`.
pub proof fn lemma_offspring_of(pa: NetV, pb: NetV, mid: NetV, sib: NetV, fin: NetV)
    requires
        pa.wf(),
        pb.wf(),
        pa.same_topology(pb),
        mid.wf(),
        mid.same_topology(pa),
        forall|i: int, j: int|
            0 <= i < pa.maps.len() && 0 <= j < pa.maps[i].len() ==> mixed_neurons(
                pa.maps[i][j],
                pb.maps[i][j],
                #[trigger] mid.maps[i][j],
                sib.maps[i][j],
            ),
        fin.same_topology(mid),
        fin.maps.len() == mid.maps.len(),
        forall|i: int|
            0 <= i < mid.maps.len() ==> (#[trigger] fin.maps[i]).len() == mid.maps[i].len(),
        forall|i: int, j: int|
            0 <= i < mid.maps.len() && 0 <= j < mid.maps[i].len() ==> mutated_neuron(
                mid.maps[i][j],
                #[trigger] fin.maps[i][j],
            ),
    ensures
        offspring_of(fin, pa, pb),
{
    assert(fin.maps.len() == pa.maps.len());
    assert forall|i: int| 0 <= i < fin.maps.len() implies (#[trigger] fin.maps[i]).len()
        == pa.maps[i].len() && pb.maps[i].len() == pa.maps[i].len() by {
        assert(mid.maps[i].len() == mid.out_size(i));
        assert(pa.maps[i].len() == pa.out_size(i));
        assert(pb.maps[i].len() == pb.out_size(i));
    }
    assert forall|i: int, j: int|
        0 <= i < fin.maps.len() && 0 <= j < fin.maps[i].len() implies offspring_neuron(
        #[trigger] fin.maps[i][j],
        pa.maps[i][j],
        pb.maps[i][j],
    ) by {
        let na = pa.maps[i][j];
        let nb = pb.maps[i][j];
        let nm = mid.maps[i][j];
        let nf = fin.maps[i][j];
        assert(mixed_neurons(na, nb, nm, sib.maps[i][j]));
        assert(mutated_neuron(nm, nf));
        assert(neuron_ok(na, pa.in_size(i)));
        assert(neuron_ok(nb, pb.in_size(i)));
        assert forall|k: int| 0 <= k < nf.conns.len() implies derived_conn(
            #[trigger] nf.conns[k],
            na.conns[k],
            nb.conns[k],
        ) by {
            assert(mutated_conn(nm.conns[k], nf.conns[k]));
            assert(nm.conns[k] == na.conns[k] || nm.conns[k] == nb.conns[k]);
        }
    }
}

} // verus!
