//! End-to-end tests of the evolutionary engine.

use shakespeare_gen::bits::count_matching_bits;
use shakespeare_gen::encoding::{collection_from_file, encode_line, from_table_entry, mask_to_ascii};
use shakespeare_gen::model::{deserialize_network, serialize_network, PersistenceError};
use shakespeare_gen::network::{Conn, LayerMap, Network, Neuron, TopologyMismatchError};
use shakespeare_gen::population::{gen_pop, reproduce, score_network, test_and_sort, train_generations};
use shakespeare_gen::rng::Rng;
use shakespeare_gen::TableEntry;

// The original application's operator settings, in fixed-point millionths.
const THRESH: i64 = 600_000;
const SWAP: u32 = 800_000;
const WMC: u32 = 650_000;
const WMA: i64 = 500_000;
const OMC: u32 = 250_000;
const OMA: i64 = 50_000;

fn small_layers() -> Vec<usize> {
    vec![8, 16]
}

fn small_net(seed: u64) -> Network {
    let mut rng = Rng::new(seed);
    Network::new_random(&small_layers(), 16, 8, THRESH, SWAP, WMC, WMA, OMC, OMA, &mut rng)
}

#[test]
fn encode_scenario_right_aligned_lowercase() {
    let out = encode_line("To Be or Not to Be");
    assert_eq!(out.len(), 100);
    for i in 0..82 {
        assert_eq!(out[i], 0x20, "byte {} should be space", i);
    }
    assert_eq!(&out[82..], "to be or not to be".as_bytes());
}

#[test]
fn encode_is_idempotent() {
    let once = encode_line("Shall I compare thee");
    let text = String::from_utf8(once.clone()).unwrap();
    let twice = encode_line(&text);
    assert_eq!(once, twice);
}

#[test]
fn encode_truncates_long_lines() {
    let long: String = std::iter::repeat('A').take(150).collect();
    let out = encode_line(&long);
    assert_eq!(out.len(), 100);
    assert!(out.iter().all(|&b| b == b'a'));
}

#[test]
fn from_table_entry_encodes_both_lines() {
    let entry = TableEntry {
        initial_line: String::from("First Line"),
        following_line: String::from("Second Line"),
    };
    let (a, b) = from_table_entry(&entry);
    assert_eq!(a, encode_line("first line"));
    assert_eq!(b, encode_line("second line"));
}

#[test]
fn collection_encodes_every_row() {
    let table = vec![
        TableEntry {
            initial_line: String::from("one"),
            following_line: String::from("two"),
        },
        TableEntry {
            initial_line: String::from("three"),
            following_line: String::from("four"),
        },
    ];
    let rows = collection_from_file(&table);
    assert_eq!(rows.len(), 2);
    assert_eq!(rows[0].0, encode_line("one"));
    assert_eq!(rows[1].1, encode_line("four"));
}

#[test]
fn mask_forces_seven_bit_ascii() {
    let mut bytes = vec![0xFFu8, 0x80, 0x41, 0x00];
    mask_to_ascii(&mut bytes);
    assert_eq!(bytes, vec![0x7F, 0x00, 0x41, 0x00]);
    assert!(std::str::from_utf8(&bytes).is_ok());
}

#[test]
fn forward_is_pure() {
    let net = small_net(7);
    let input = vec![0xA5u8, 0x3C];
    let a = net.forward(&input).unwrap();
    let b = net.forward(&input).unwrap();
    assert_eq!(a, b);
    assert_eq!(a.len(), 1);
}

#[test]
fn forward_rejects_wrong_width() {
    let net = small_net(7);
    let input = vec![0u8; 3];
    assert!(matches!(net.forward(&input), Err(TopologyMismatchError::InputWidth)));
}

#[test]
fn forward_all_fire_network() {
    // Every neuron has zero weights and a strongly positive offset, so every
    // neuron fires regardless of the input: the output is all ones.
    let conn = Conn {
        weight: 0,
        offset: 1_000_000,
        weight_mutate_chance: 0,
        weight_mutate_amount: 0,
        offset_mutate_chance: 0,
        offset_mutate_amount: 0,
    };
    let neuron = |count: usize| Neuron {
        conns: vec![conn; count],
        activation_thresh: 0,
        trait_swap_chance: 0,
    };
    let net = Network {
        maps: vec![
            LayerMap { neurons: vec![neuron(8); 8] },
            LayerMap { neurons: vec![neuron(8); 8] },
        ],
        layer_sizes: vec![8],
        num_inputs: 8,
        num_outputs: 8,
    };
    let out = net.forward(&vec![0x00u8]).unwrap();
    assert_eq!(out, vec![0xFFu8]);
    // Against an all-ones target, every one of the eight bits agrees.
    assert_eq!(count_matching_bits(&out, &vec![0xFFu8]), 8);
    assert_eq!(count_matching_bits(&out, &vec![0x0Fu8]), 4);
    assert_eq!(score_network(&net, &vec![(vec![0u8], vec![0xFFu8])]), 8);
}

#[test]
fn crossover_keeps_topology() {
    let a = small_net(1);
    let b = small_net(2);
    let mut rng = Rng::new(3);
    let (ca, cb) = Network::crossover(&a, &b, &mut rng).unwrap();
    assert_eq!(ca.layer_sizes, a.layer_sizes);
    assert_eq!(cb.layer_sizes, a.layer_sizes);
    assert_eq!(ca.num_inputs, 16);
    assert_eq!(cb.num_outputs, 8);
    // The children still run on the same input width.
    let input = vec![0x12u8, 0x34];
    assert!(ca.forward(&input).is_ok());
    assert!(cb.forward(&input).is_ok());
}

#[test]
fn crossover_rejects_mismatched_topology() {
    let a = small_net(1);
    let mut rng = Rng::new(9);
    let b = Network::new_random(&vec![8], 16, 8, THRESH, SWAP, WMC, WMA, OMC, OMA, &mut rng);
    assert!(matches!(
        Network::crossover(&a, &b, &mut rng),
        Err(TopologyMismatchError::Shape)
    ));
}

#[test]
fn mutate_keeps_shape() {
    let mut net = small_net(11);
    let before_sizes = net.layer_sizes.clone();
    let mut rng = Rng::new(12);
    net.mutate(&mut rng);
    assert_eq!(net.layer_sizes, before_sizes);
    assert!(net.forward(&vec![0u8, 0u8]).is_ok());
}

#[test]
fn gen_pop_sizes_and_unset_fitness() {
    let mut rng = Rng::new(5);
    let pop = gen_pop(6, &small_layers(), 16, 8, THRESH, SWAP, WMC, WMA, OMC, OMA, &mut rng);
    assert_eq!(pop.members.len(), 6);
    assert!(pop.members.iter().all(|m| m.fitness == 0));
}

fn tiny_examples() -> Vec<(Vec<u8>, Vec<u8>)> {
    vec![
        (vec![0xFFu8, 0x00], vec![0xAAu8]),
        (vec![0x0Fu8, 0xF0], vec![0x55u8]),
        (vec![0x81u8, 0x42], vec![0xFFu8]),
    ]
}

#[test]
fn test_and_sort_orders_by_descending_fitness() {
    let mut rng = Rng::new(21);
    let mut pop = gen_pop(8, &small_layers(), 16, 8, THRESH, SWAP, WMC, WMA, OMC, OMA, &mut rng);
    let examples = tiny_examples();
    test_and_sort(&mut pop, &examples);
    assert_eq!(pop.members.len(), 8);
    for w in pop.members.windows(2) {
        assert!(w[0].fitness >= w[1].fitness);
    }
    for m in &pop.members {
        assert_eq!(m.fitness, score_network(&m.net, &examples));
    }
}

#[test]
fn reproduce_keeps_size_and_topology() {
    let mut rng = Rng::new(31);
    let mut pop = gen_pop(4, &small_layers(), 16, 8, THRESH, SWAP, WMC, WMA, OMC, OMA, &mut rng);
    let examples = tiny_examples();
    test_and_sort(&mut pop, &examples);
    let best = serialize_network(&pop.members[0].net);
    reproduce(&mut pop, &mut rng);
    assert_eq!(pop.members.len(), 4);
    for m in &pop.members {
        assert_eq!(m.net.layer_sizes, small_layers());
        assert_eq!(m.net.num_inputs, 16);
        assert_eq!(m.net.num_outputs, 8);
        assert_eq!(m.fitness, 0);
    }
    // Elitism: the best genome survives unchanged at index 0.
    assert_eq!(serialize_network(&pop.members[0].net), best);
}

#[test]
fn zero_generations_leave_population_untouched() {
    let mut rng = Rng::new(41);
    let mut pop = gen_pop(3, &small_layers(), 16, 8, THRESH, SWAP, WMC, WMA, OMC, OMA, &mut rng);
    let before: Vec<Vec<u8>> = pop.members.iter().map(|m| serialize_network(&m.net)).collect();
    let examples = tiny_examples();
    train_generations(&mut pop, &examples, 0, &mut rng);
    let after: Vec<Vec<u8>> = pop.members.iter().map(|m| serialize_network(&m.net)).collect();
    assert_eq!(before, after);
}

#[test]
fn training_runs_generations() {
    let mut rng = Rng::new(51);
    let mut pop = gen_pop(4, &small_layers(), 16, 8, THRESH, SWAP, WMC, WMA, OMC, OMA, &mut rng);
    let examples = tiny_examples();
    train_generations(&mut pop, &examples, 2, &mut rng);
    assert_eq!(pop.members.len(), 4);
}

#[test]
fn model_round_trip_preserves_behaviour() {
    let net = small_net(61);
    let bytes = serialize_network(&net);
    let loaded = deserialize_network(&bytes).unwrap();
    assert_eq!(serialize_network(&loaded), bytes);
    let input = vec![0xC3u8, 0x5A];
    assert_eq!(net.forward(&input).unwrap(), loaded.forward(&input).unwrap());
}

#[test]
fn truncated_model_is_rejected() {
    let net = small_net(71);
    let mut bytes = serialize_network(&net);
    // Cut into the weight section.
    bytes.truncate(bytes.len() - 13);
    assert!(matches!(deserialize_network(&bytes), Err(PersistenceError::Truncated)));
}

#[test]
fn trailing_bytes_are_rejected() {
    let net = small_net(81);
    let mut bytes = serialize_network(&net);
    bytes.push(0);
    assert!(deserialize_network(&bytes).is_err());
}

#[test]
fn bad_version_is_rejected() {
    let net = small_net(91);
    let mut bytes = serialize_network(&net);
    bytes[7] = 2;
    assert!(matches!(deserialize_network(&bytes), Err(PersistenceError::BadVersion)));
}

#[test]
fn bad_shape_is_rejected() {
    let net = small_net(92);
    let mut bytes = serialize_network(&net);
    // The input width word becomes 9: not a multiple of eight.
    bytes[15] = 9;
    assert!(matches!(deserialize_network(&bytes), Err(PersistenceError::BadShape)));
}

#[test]
fn out_of_range_gene_is_rejected() {
    let net = small_net(93);
    let mut bytes = serialize_network(&net);
    // First gene word (after version, widths, count, and two layer sizes):
    // overwrite with a value far beyond twice the gene limit.
    let gene_pos = 8 * 6;
    for k in 0..8 {
        bytes[gene_pos + k] = 0xFF;
    }
    assert!(matches!(
        deserialize_network(&bytes),
        Err(PersistenceError::GeneOutOfRange)
    ));
}

#[test]
fn rng_is_deterministic() {
    let mut a = Rng::new(123);
    let mut b = Rng::new(123);
    assert_eq!(a.next_u64(), b.next_u64());
    assert_eq!(a.gen_range_i64(-5, 5), b.gen_range_i64(-5, 5));
    let r = a.gen_range_i64(-1_000_000, 1_000_000);
    assert!((-1_000_000..=1_000_000).contains(&r));
}

#[test]
fn one_generation_keeps_best_at_front() {
    let mut rng = Rng::new(77);
    let mut pop = gen_pop(6, &small_layers(), 16, 8, THRESH, SWAP, WMC, WMA, OMC, OMA, &mut rng);
    let examples = tiny_examples();
    // The first member with the highest corpus score must survive at index 0.
    let mut best_idx = 0;
    let mut best_score = 0;
    for (i, m) in pop.members.iter().enumerate() {
        let s = score_network(&m.net, &examples);
        if s > best_score {
            best_score = s;
            best_idx = i;
        }
    }
    let best = serialize_network(&pop.members[best_idx].net);
    train_generations(&mut pop, &examples, 1, &mut rng);
    assert_eq!(pop.members.len(), 6);
    assert_eq!(serialize_network(&pop.members[0].net), best);
    assert!(pop.members.iter().all(|m| m.fitness == 0));
}
