//! A population of networks and the generational loop.
//!
//! Each generation scores every network against the full training corpus
//! (bits of predicted output agreeing with the target), sorts the population
//! by descending fitness, and replaces it: the top half survives as the
//! breeding pool, and consecutive pool pairs contribute two clones and two
//! mutated crossover children until the population is full again.

use vstd::prelude::*;

verus! {

use crate::bits::{bits_of, count_eq, count_matching_bits, lemma_count_eq_bound};
use crate::network::{offspring_of, GENE_LIMIT, MAX_LAYER, MAX_LAYERS, NetV, Network, lemma_offspring_of, mixed_neurons, neuron_carries_genes};
use crate::rng::{CHANCE_DENOM, Rng};

/// One network together with its last-measured fitness.
pub struct Scored {
    pub net: Network,
    pub fitness: u64,
}

/// An ordered population of scored networks.
pub struct Population {
    pub members: Vec<Scored>,
}

/// Every member is well formed.
pub open spec fn pop_wf(s: Seq<Scored>) -> bool {
    forall|i: int| 0 <= i < s.len() ==> (#[trigger] s[i]).net@.wf()
}

/// Every member shares the first member's topology.
pub open spec fn pop_uniform(s: Seq<Scored>) -> bool {
    forall|i: int| 0 <= i < s.len() ==> (#[trigger] s[i]).net@.same_topology(s[0].net@)
}

/// An example is compatible with a genome: its input encodes exactly the
/// genome's input width, and both sides are modestly sized.
pub open spec fn example_ok(ex: (Vec<u8>, Vec<u8>), net: NetV) -> bool {
    &&& ex.0@.len() * 8 == net.num_inputs
    &&& ex.1@.len() <= 0x1000_0000
}

/// The fitness one example contributes: agreeing bit positions between the
/// network's output and the target encoding, over the shorter of the two.
pub open spec fn example_score(net: NetV, ex: (Vec<u8>, Vec<u8>)) -> int {
    count_eq(
        crate::network::net_out(net, bits_of(ex.0@)),
        bits_of(ex.1@),
        if net.num_outputs <= ex.1@.len() * 8 {
            net.num_outputs as int
        } else {
            (ex.1@.len() * 8) as int
        },
    )
}

/// Total fitness over the first `k` examples.
pub open spec fn score_spec(net: NetV, exs: Seq<(Vec<u8>, Vec<u8>)>, k: int) -> int
    decreases k,
{
    if k <= 0 {
        0
    } else {
        score_spec(net, exs, k - 1) + example_score(net, exs[k - 1])
    }
}

/// One example contributes between 0 and `MAX_LAYER` fitness.
proof fn lemma_example_score_bound(net: NetV, ex: (Vec<u8>, Vec<u8>))
    requires
        net.wf(),
    ensures
        0 <= example_score(net, ex) <= MAX_LAYER,
{
    let m = if net.num_outputs <= ex.1@.len() * 8 {
        net.num_outputs as int
    } else {
        (ex.1@.len() * 8) as int
    };
    lemma_count_eq_bound(crate::network::net_out(net, bits_of(ex.0@)), bits_of(ex.1@), m);
}

/// Score one network over the whole corpus.
#[verifier::loop_isolation(false)]
pub fn score_network(net: &Network, examples: &Vec<(Vec<u8>, Vec<u8>)>) -> (r: u64)
    requires
        net@.wf(),
        examples@.len() <= 0x100_0000_0000,
        forall|i: int| 0 <= i < examples@.len() ==> example_ok(#[trigger] examples@[i], net@),
    ensures
        r == score_spec(net@, examples@, examples@.len() as int),
{
    let n = examples.len();
    let mut sum: u64 = 0;
    let mut i: usize = 0;
    while i < n
        invariant
            i <= n,
            sum == score_spec(net@, examples@, i as int),
            sum <= (i as int) * (MAX_LAYER as int),
        decreases n - i,
    {
        proof {
            lemma_example_score_bound(net@, examples@[i as int]);
            vstd::arithmetic::mul::lemma_mul_inequality(
                i as int,
                0x100_0000_0000,
                MAX_LAYER as int,
            );
            assert(((i + 1) as int) * (MAX_LAYER as int) == (i as int) * (MAX_LAYER as int)
                + MAX_LAYER) by (nonlinear_arith);
        }
        let out = match net.forward(&examples[i].0) {
            Ok(o) => o,
            Err(_) => {
                proof {
                    assert(false);
                }
                Vec::new()
            },
        };
        let s = count_matching_bits(&out, &examples[i].1);
        proof {
            assert(s == example_score(net@, examples@[i as int]));
        }
        sum = sum + s;
        i += 1;
    }
    sum
}

/// Generate a population of independently randomized genomes of one
/// topology, fitness unset (zero counts as lowest until the first scoring).
#[verifier::loop_isolation(false)]
pub fn gen_pop(
    pop_size: usize,
    layer_sizes: &Vec<usize>,
    num_inputs: usize,
    num_outputs: usize,
    activation_thresh: i64,
    trait_swap_chance: u32,
    weight_mutate_chance: u32,
    weight_mutate_amount: i64,
    offset_mutate_chance: u32,
    offset_mutate_amount: i64,
    rng: &mut Rng,
) -> (r: Population)
    requires
        1 <= layer_sizes@.len() <= MAX_LAYERS,
        NetV::size_ok(num_inputs as int),
        NetV::size_ok(num_outputs as int),
        forall|i: int|
            0 <= i < layer_sizes@.len() ==> NetV::size_ok(#[trigger] layer_sizes@[i] as int),
        -GENE_LIMIT <= activation_thresh <= GENE_LIMIT,
        trait_swap_chance <= CHANCE_DENOM,
        weight_mutate_chance <= CHANCE_DENOM,
        0 <= weight_mutate_amount <= GENE_LIMIT,
        offset_mutate_chance <= CHANCE_DENOM,
        0 <= offset_mutate_amount <= GENE_LIMIT,
    ensures
        r.members@.len() == pop_size,
        pop_wf(r.members@),
        pop_uniform(r.members@),
        forall|i: int|
            0 <= i < pop_size ==> (#[trigger] r.members@[i]).net@.layer_sizes == layer_sizes@
                && r.members@[i].net@.num_inputs == num_inputs && r.members@[i].net@.num_outputs
                == num_outputs && r.members@[i].fitness == 0,
        forall|m: int, i: int, j: int|
            0 <= m < pop_size && 0 <= i < r.members@[m].net@.maps.len() && 0 <= j
                < r.members@[m].net@.maps[i].len() ==> neuron_carries_genes(
                #[trigger] r.members@[m].net@.maps[i][j],
                activation_thresh,
                trait_swap_chance,
                weight_mutate_chance,
                weight_mutate_amount,
                offset_mutate_chance,
                offset_mutate_amount,
            ),
{
    let mut members: Vec<Scored> = Vec::new();
    let mut i: usize = 0;
    while i < pop_size
        invariant
            i <= pop_size,
            members@.len() == i,
            forall|k: int|
                0 <= k < i ==> (#[trigger] members@[k]).net@.wf() && members@[k].net@.layer_sizes
                    == layer_sizes@ && members@[k].net@.num_inputs == num_inputs
                    && members@[k].net@.num_outputs == num_outputs && members@[k].fitness == 0,
            forall|m: int, ii: int, j: int|
                0 <= m < i && 0 <= ii < members@[m].net@.maps.len() && 0 <= j
                    < members@[m].net@.maps[ii].len() ==> neuron_carries_genes(
                    #[trigger] members@[m].net@.maps[ii][j],
                    activation_thresh,
                    trait_swap_chance,
                    weight_mutate_chance,
                    weight_mutate_amount,
                    offset_mutate_chance,
                    offset_mutate_amount,
                ),
        decreases pop_size - i,
    {
        let net = Network::new_random(
            layer_sizes,
            num_inputs,
            num_outputs,
            activation_thresh,
            trait_swap_chance,
            weight_mutate_chance,
            weight_mutate_amount,
            offset_mutate_chance,
            offset_mutate_amount,
            rng,
        );
        members.push(Scored { net, fitness: 0 });
        i += 1;
    }
    Population { members }
}

/// Fitness is non-increasing along the sequence.
pub open spec fn sorted_desc(s: Seq<Scored>) -> bool {
    forall|i: int, j: int| 0 <= i <= j < s.len() ==> (#[trigger] s[i]).fitness >= (#[trigger] s[j]).fitness
}

/// The genome a member carries.
pub open spec fn net_of(s: Scored) -> NetV {
    s.net@
}

/// The multiset of genomes a member sequence holds.
pub open spec fn nets_multiset(s: Seq<Scored>) -> vstd::multiset::Multiset<NetV> {
    s.map_values(|x: Scored| net_of(x)).to_multiset()
}

/// Removing position `i` by a swap with the last element removes exactly one
/// occurrence of that genome from the multiset of genomes.
proof fn lemma_swap_remove_multiset(s: Seq<Scored>, i: int)
    requires
        0 <= i < s.len(),
    ensures
        nets_multiset(s.update(i, s.last()).drop_last()) =~= nets_multiset(s).remove(net_of(s[i])),
{
    broadcast use vstd::seq_lib::group_to_multiset_ensures;

    let f = |x: Scored| net_of(x);
    let sm = s.map_values(f);
    let t = s.update(i, s.last());
    let tm = t.map_values(f);
    assert(tm =~= sm.update(i, f(s.last())));
    assert(tm.to_multiset() =~= sm.to_multiset().insert(f(s.last())).remove(f(s[i])));
    let um = t.drop_last().map_values(f);
    assert(um =~= tm.drop_last());
    assert(tm.drop_last() =~= tm.remove(tm.len() - 1));
    assert(tm.remove(tm.len() - 1).to_multiset() =~= tm.to_multiset().remove(tm[tm.len() - 1]));
    assert(tm[tm.len() - 1] == f(s.last()));
    assert(sm.to_multiset().contains(f(s[i])));
    assert(um.to_multiset() =~= sm.to_multiset().remove(f(s[i])));
}

/// The position of a member with maximal fitness.
#[verifier::loop_isolation(false)]
fn find_max_index(v: &Vec<Scored>) -> (idx: usize)
    requires
        v@.len() > 0,
    ensures
        0 <= idx < v@.len(),
        forall|i: int| 0 <= i < v@.len() ==> v@[idx as int].fitness >= (#[trigger] v@[i]).fitness,
{
    let mut idx: usize = 0;
    let mut i: usize = 1;
    while i < v.len()
        invariant
            0 <= idx < i <= v@.len(),
            forall|k: int| 0 <= k < i ==> v@[idx as int].fitness >= (#[trigger] v@[k]).fitness,
        decreases v@.len() - i,
    {
        if v[i].fitness > v[idx].fitness {
            idx = i;
        }
        i += 1;
    }
    idx
}

/// Score every member against the corpus, then sort by descending fitness.
/// The population afterwards holds exactly the genomes it held before, each
/// paired with precisely its corpus score.
#[verifier::loop_isolation(false)]
#[verifier::rlimit(60)]
pub fn test_and_sort(pop: &mut Population, examples: &Vec<(Vec<u8>, Vec<u8>)>)
    requires
        pop_wf(old(pop).members@),
        pop_uniform(old(pop).members@),
        examples@.len() <= 0x100_0000_0000,
        forall|i: int, m: int|
            0 <= i < examples@.len() && 0 <= m < old(pop).members@.len() ==> example_ok(
                #[trigger] examples@[i],
                (#[trigger] old(pop).members@[m]).net@,
            ),
    ensures
        final(pop).members@.len() == old(pop).members@.len(),
        sorted_desc(final(pop).members@),
        pop_wf(final(pop).members@),
        pop_uniform(final(pop).members@),
        old(pop).members@.len() > 0 ==> forall|i: int|
            0 <= i < final(pop).members@.len() ==> (#[trigger] final(pop).members@[i]).net@
                .same_topology(old(pop).members@[0].net@),
        forall|i: int|
            0 <= i < final(pop).members@.len() ==> (#[trigger] final(pop).members@[i]).fitness
                == score_spec(final(pop).members@[i].net@, examples@, examples@.len() as int),
        nets_multiset(final(pop).members@) =~= nets_multiset(old(pop).members@),
{
    let n = pop.members.len();
    let ghost orig = old(pop).members@;
    let ghost exs = examples@;
    let ghost t0 = if orig.len() > 0 {
        orig[0].net@
    } else {
        arbitrary()
    };

    // Scoring pass: rebuild the members with their measured fitness.
    let mut src: Vec<Scored> = Vec::new();
    let mut i: usize = 0;
    while i < n
        invariant
            i <= n,
            src@.len() == i,
            forall|k: int| 0 <= k < i ==> (#[trigger] src@[k]).net@ == orig[k].net@,
            forall|k: int|
                0 <= k < i ==> (#[trigger] src@[k]).fitness == score_spec(
                    src@[k].net@,
                    exs,
                    exs.len() as int,
                ),
        decreases n - i,
    {
        let net = pop.members[i].net.clone();
        let fitness = score_network(&net, examples);
        src.push(Scored { net, fitness });
        i += 1;
    }
    proof {
        assert(src@.map_values(|x: Scored| net_of(x)) =~= orig.map_values(|x: Scored| net_of(x)));
        assert(nets_multiset(src@) =~= nets_multiset(orig));
    }

    // Selection pass: repeatedly move a maximal-fitness member across.
    let mut out: Vec<Scored> = Vec::new();
    proof {
        broadcast use vstd::multiset::group_multiset_axioms;
        broadcast use vstd::seq_lib::group_to_multiset_ensures;

        assert(out@.map_values(|x: Scored| net_of(x)) =~= Seq::<NetV>::empty());
        assert(Seq::<NetV>::empty().to_multiset() =~= vstd::multiset::Multiset::<NetV>::empty())
            by {
            assert(Seq::<NetV>::empty().to_multiset().len() == 0);
            assert forall|a: NetV| Seq::<NetV>::empty().to_multiset().count(a) == 0 by {
                if Seq::<NetV>::empty().to_multiset().count(a) > 0 {
                    assert(Seq::<NetV>::empty().contains(a));
                }
            }
        }
        assert(nets_multiset(out@).add(nets_multiset(src@)) =~= nets_multiset(orig));
    }
    while src.len() > 0
        invariant
            out@.len() + src@.len() == n,
            nets_multiset(out@).add(nets_multiset(src@)) =~= nets_multiset(orig),
            sorted_desc(out@),
            forall|a: int, b: int|
                0 <= a < out@.len() && 0 <= b < src@.len() ==> (#[trigger] out@[a]).fitness
                    >= (#[trigger] src@[b]).fitness,
            forall|k: int|
                0 <= k < out@.len() ==> (#[trigger] out@[k]).fitness == score_spec(
                    out@[k].net@,
                    exs,
                    exs.len() as int,
                ),
            forall|k: int|
                0 <= k < src@.len() ==> (#[trigger] src@[k]).fitness == score_spec(
                    src@[k].net@,
                    exs,
                    exs.len() as int,
                ),
            forall|k: int|
                0 <= k < out@.len() ==> (#[trigger] out@[k]).net@.wf() && (orig.len() > 0
                    ==> out@[k].net@.same_topology(t0)),
            forall|k: int|
                0 <= k < src@.len() ==> (#[trigger] src@[k]).net@.wf() && (orig.len() > 0
                    ==> src@[k].net@.same_topology(t0)),
        decreases src@.len(),
    {
        let idx = find_max_index(&src);
        let ghost src_before = src@;
        let x = src.swap_remove(idx);
        proof {
            lemma_swap_remove_multiset(src_before, idx as int);
            assert(nets_multiset(src_before).contains(net_of(src_before[idx as int]))) by {
                broadcast use vstd::seq_lib::group_to_multiset_ensures;

                assert(src_before.map_values(|q: Scored| net_of(q))[idx as int] == net_of(
                    src_before[idx as int],
                ));
            }
            assert(nets_multiset(out@.push(x)) =~= nets_multiset(out@).insert(net_of(x))) by {
                broadcast use vstd::seq_lib::group_to_multiset_ensures;

                assert(out@.push(x).map_values(|q: Scored| net_of(q)) =~= out@.map_values(
                    |q: Scored| net_of(q),
                ).push(net_of(x)));
            }
            assert(nets_multiset(out@.push(x)).add(nets_multiset(src@)) =~= nets_multiset(orig));
        }
        out.push(x);
    }
    proof {
        broadcast use vstd::multiset::group_multiset_axioms;
        broadcast use vstd::seq_lib::group_to_multiset_ensures;

        assert(src@.map_values(|x: Scored| net_of(x)) =~= Seq::<NetV>::empty());
        assert forall|a: NetV| nets_multiset(src@).count(a) == 0 by {
            if nets_multiset(src@).count(a) > 0 {
                assert(src@.map_values(|x: Scored| net_of(x)).contains(a));
            }
        }
        assert(nets_multiset(out@) =~= nets_multiset(out@).add(nets_multiset(src@)));
        assert(nets_multiset(out@) =~= nets_multiset(orig));
    }
    pop.members = out;
}

/// How many members of a ranked population form the breeding pool: the top
/// half, and at least one.
pub open spec fn pool_count(len: int) -> int {
    if len / 2 >= 1 {
        len / 2
    } else {
        1
    }
}

/// A genome the reproduction step may place in the next generation: a clone
/// of a breeding-pool member, or a mutated crossover child of two of them.
pub open spec fn from_pool(c: NetV, before: Seq<Scored>, pool: int) -> bool {
    ||| exists|p: int| 0 <= p < pool && c == (#[trigger] before[p]).net@
    ||| exists|pa: int, pb: int|
        0 <= pa < pool && 0 <= pb < pool && offspring_of(
            c,
            (#[trigger] before[pa]).net@,
            (#[trigger] before[pb]).net@,
        )
}

/// Replace a fitness-sorted population with the next generation: the top
/// half (at least one member) is the breeding pool; the new population takes,
/// pair by pair through the pool, both parents unchanged and two mutated
/// crossover children, truncated to the old size.  Index 0 keeps the best
/// genome, and fitness is reset to zero throughout.
#[verifier::loop_isolation(false)]
#[verifier::rlimit(60)]
pub fn reproduce(pop: &mut Population, rng: &mut Rng)
    requires
        old(pop).members@.len() >= 1,
        pop_wf(old(pop).members@),
        pop_uniform(old(pop).members@),
    ensures
        final(pop).members@.len() == old(pop).members@.len(),
        pop_wf(final(pop).members@),
        pop_uniform(final(pop).members@),
        forall|i: int|
            0 <= i < final(pop).members@.len() ==> (#[trigger] final(pop).members@[i]).net@
                .same_topology(old(pop).members@[0].net@) && final(pop).members@[i].fitness == 0,
        final(pop).members@[0].net@ == old(pop).members@[0].net@,
        forall|x: int|
            0 <= x < final(pop).members@.len() ==> from_pool(
                (#[trigger] final(pop).members@[x]).net@,
                old(pop).members@,
                pool_count(old(pop).members@.len() as int),
            ),
{
    let size = pop.members.len();
    let pool = if size / 2 >= 1 {
        size / 2
    } else {
        1
    };
    let ghost t0 = old(pop).members@[0].net@;
    let mut out: Vec<Scored> = Vec::new();
    let mut cursor: usize = 0;
    while out.len() < size
        invariant
            1 <= pool <= size,
            pool == pool_count(size as int),
            pool <= pop.members@.len(),
            cursor < pool,
            out@.len() <= size,
            pop.members@ == old(pop).members@,
            forall|i: int|
                0 <= i < out@.len() ==> (#[trigger] out@[i]).net@.wf() && out@[i].net@
                    .same_topology(t0) && out@[i].fitness == 0,
            forall|i: int|
                0 <= i < out@.len() ==> from_pool(
                    (#[trigger] out@[i]).net@,
                    old(pop).members@,
                    pool as int,
                ),
            out@.len() == 0 ==> cursor == 0,
            out@.len() > 0 ==> out@[0].net@ == t0,
        decreases size - out@.len(),
    {
        let ia = cursor;
        let ib = if cursor + 1 < pool {
            cursor + 1
        } else {
            0
        };
        cursor = if cursor + 2 < pool {
            cursor + 2
        } else {
            0
        };
        let pa = pop.members[ia].net.clone();
        let pb = pop.members[ib].net.clone();
        proof {
            assert(pa@ == pop.members@[ia as int].net@);
            assert(pb@ == pop.members@[ib as int].net@);
            assert(pa@.same_topology(t0) && pb@.same_topology(t0));
            assert(pa@.same_topology(pb@));
            if out@.len() == 0 {
                assert(ia == 0 && pa@ == t0);
            }
        }
        match Network::crossover(&pa, &pb, rng) {
            Ok((mut ca, mut cb)) => {
                let ghost ca0 = ca@;
                let ghost cb0 = cb@;
                ca.mutate(rng);
                cb.mutate(rng);
                proof {
                    lemma_offspring_of(pa@, pb@, ca0, cb0, ca@);
                    assert forall|i: int, j: int|
                        0 <= i < pb@.maps.len() && 0 <= j < pb@.maps[i].len()
                        implies mixed_neurons(
                        pb@.maps[i][j],
                        pa@.maps[i][j],
                        #[trigger] cb0.maps[i][j],
                        ca0.maps[i][j],
                    ) by {
                        assert(mixed_neurons(
                            pa@.maps[i][j],
                            pb@.maps[i][j],
                            ca0.maps[i][j],
                            cb0.maps[i][j],
                        ));
                    }
                    lemma_offspring_of(pb@, pa@, cb0, ca0, cb@);
                    assert(from_pool(pa@, old(pop).members@, pool as int));
                    assert(from_pool(pb@, old(pop).members@, pool as int));
                    assert(offspring_of(ca@, old(pop).members@[ia as int].net@, old(
                        pop,
                    ).members@[ib as int].net@));
                    assert(from_pool(ca@, old(pop).members@, pool as int));
                    assert(offspring_of(cb@, old(pop).members@[ib as int].net@, old(
                        pop,
                    ).members@[ia as int].net@));
                    assert(from_pool(cb@, old(pop).members@, pool as int));
                }
                out.push(Scored { net: pa, fitness: 0 });
                if out.len() < size {
                    out.push(Scored { net: pb, fitness: 0 });
                }
                if out.len() < size {
                    out.push(Scored { net: ca, fitness: 0 });
                }
                if out.len() < size {
                    out.push(Scored { net: cb, fitness: 0 });
                }
            },
            Err(_) => {
                proof {
                    assert(false);
                }
            },
        }
    }
    pop.members = out;
}


/// A ranking of a population: same genomes (as a multiset), each paired with
/// exactly its corpus score, in non-increasing fitness order.
pub open spec fn ranked_of(
    before: Seq<Scored>,
    ranked: Seq<Scored>,
    exs: Seq<(Vec<u8>, Vec<u8>)>,
) -> bool {
    &&& ranked.len() == before.len()
    &&& sorted_desc(ranked)
    &&& forall|i: int|
        0 <= i < ranked.len() ==> (#[trigger] ranked[i]).fitness == score_spec(
            ranked[i].net@,
            exs,
            exs.len() as int,
        )
    &&& nets_multiset(ranked) == nets_multiset(before)
}

/// A generational replacement of a ranked population: same size, fitness
/// reset, the top genome kept at index 0, and every member either a clone of
/// a breeding-pool member or a mutated crossover child of two of them.
pub open spec fn replaced_of(ranked: Seq<Scored>, after: Seq<Scored>) -> bool {
    &&& after.len() == ranked.len()
    &&& ranked.len() > 0 ==> after[0].net@ == ranked[0].net@
    &&& forall|x: int|
        0 <= x < after.len() ==> from_pool(
            (#[trigger] after[x]).net@,
            ranked,
            pool_count(ranked.len() as int),
        ) && after[x].fitness == 0
}

/// One full generation: the population is scored and ranked, then replaced.
pub open spec fn one_generation(
    before: Seq<Scored>,
    after: Seq<Scored>,
    exs: Seq<(Vec<u8>, Vec<u8>)>,
) -> bool {
    exists|ranked: Seq<Scored>| #[trigger] ranked_of(before, ranked, exs) && replaced_of(ranked, after)
}

/// `after` is reachable from `before` by exactly `gens` full generations.
pub open spec fn evolves(
    before: Seq<Scored>,
    after: Seq<Scored>,
    exs: Seq<(Vec<u8>, Vec<u8>)>,
    gens: nat,
) -> bool
    decreases gens,
{
    if gens == 0 {
        after == before
    } else {
        exists|mid: Seq<Scored>|
            #[trigger] one_generation(before, mid, exs) && evolves(mid, after, exs, (gens - 1) as nat)
    }
}

/// One further generation extends an evolution chain at its end.
pub proof fn lemma_evolves_extend(
    before: Seq<Scored>,
    mid: Seq<Scored>,
    after: Seq<Scored>,
    exs: Seq<(Vec<u8>, Vec<u8>)>,
    gens: nat,
)
    requires
        evolves(before, mid, exs, gens),
        one_generation(mid, after, exs),
    ensures
        evolves(before, after, exs, (gens + 1) as nat),
    decreases gens,
{
    if gens == 0 {
        assert(mid == before);
        assert(evolves(after, after, exs, 0));
        assert(one_generation(before, after, exs) && evolves(after, after, exs, 0));
    } else {
        let m1 = choose|m1: Seq<Scored>|
            #[trigger] one_generation(before, m1, exs) && evolves(m1, mid, exs, (gens - 1) as nat);
        lemma_evolves_extend(m1, mid, after, exs, (gens - 1) as nat);
        assert(one_generation(before, m1, exs) && evolves(m1, after, exs, gens));
    }
}

/// Run the generational loop: score and sort, then reproduce, a fixed number
/// of times.  Zero generations leave the population untouched; afterwards the
/// population still holds well-formed genomes of the starting topology.
#[verifier::loop_isolation(false)]
pub fn train_generations(
    pop: &mut Population,
    examples: &Vec<(Vec<u8>, Vec<u8>)>,
    num_gens: usize,
    rng: &mut Rng,
)
    requires
        old(pop).members@.len() >= 1,
        pop_wf(old(pop).members@),
        pop_uniform(old(pop).members@),
        examples@.len() <= 0x100_0000_0000,
        forall|i: int, m: int|
            0 <= i < examples@.len() && 0 <= m < old(pop).members@.len() ==> example_ok(
                #[trigger] examples@[i],
                (#[trigger] old(pop).members@[m]).net@,
            ),
    ensures
        num_gens == 0 ==> *final(pop) == *old(pop),
        evolves(old(pop).members@, final(pop).members@, examples@, num_gens as nat),
        final(pop).members@.len() == old(pop).members@.len(),
        pop_wf(final(pop).members@),
        pop_uniform(final(pop).members@),
        forall|i: int|
            0 <= i < final(pop).members@.len() ==> (#[trigger] final(pop).members@[i]).net@
                .same_topology(old(pop).members@[0].net@),
{
    let ghost t0 = old(pop).members@[0].net@;
    let mut g: usize = 0;
    while g < num_gens
        invariant
            g <= num_gens,
            num_gens > 0 ==> g <= num_gens,
            pop.members@.len() == old(pop).members@.len(),
            pop_wf(pop.members@),
            pop_uniform(pop.members@),
            forall|i: int|
                0 <= i < pop.members@.len() ==> (#[trigger] pop.members@[i]).net@.same_topology(
                    t0,
                ),
            g == 0 ==> *pop == *old(pop),
            evolves(old(pop).members@, pop.members@, examples@, g as nat),
        decreases num_gens - g,
    {
        let ghost before_g = pop.members@;
        test_and_sort(pop, examples);
        let ghost ranked = pop.members@;
        reproduce(pop, rng);
        proof {
            assert(ranked_of(before_g, ranked, examples@));
            assert(replaced_of(ranked, pop.members@));
            assert(one_generation(before_g, pop.members@, examples@));
            lemma_evolves_extend(
                old(pop).members@,
                before_g,
                pop.members@,
                examples@,
                g as nat,
            );
        }
        g += 1;
    }
}

} // verus!
