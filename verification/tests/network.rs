use patzer::board::{Position, BLACK, WHITE};
use patzer::dataset::{check_forward, check_reference};
use patzer::gates::{check_games, check_updates, same_acc};
use patzer::nnue::{
    acc_from, acc_update, eval_scratch, forward, forward_scalar, load, load_global, net, LoadError, NetSlot, NetUse,
    Network, ACC, FT_Q, HALFKP, HIDDEN,
};
use patzer::policy;
use patzer::policy::{activations, logit, move_class, policy_lines, Policy, PolicyError, PolicySlot, PolicyUse};
use patzer::records::pack_board;
use patzer::search::Searcher;
use patzer::tt::TT;
use std::sync::Arc;

fn xorshift(seed: &mut u64) -> u64 {
    *seed ^= *seed << 13;
    *seed ^= *seed >> 7;
    *seed ^= *seed << 17;
    *seed
}

/// A net whose weights and biases span the full quantized ranges.
fn random_net(seed: &mut u64, input_dim: usize) -> Network {
    let n = |s: &mut u64, lo: i32, hi: i32| lo + (xorshift(s) % (hi - lo + 1) as u64) as i32;
    Network {
        ft: (0..input_dim * ACC).map(|_| n(seed, -512, 512) as i16).collect(),
        ft_bias: (0..ACC).map(|_| n(seed, -127, 127) as i16).collect(),
        w1: (0..HIDDEN * 2 * ACC).map(|_| n(seed, -128, 127) as i8).collect(),
        b1: (0..HIDDEN).map(|_| n(seed, -8128, 8128)).collect(),
        w2: (0..HIDDEN).map(|_| n(seed, -128, 127)).collect(),
        b2: n(seed, -8128, 8128),
        input_dim,
    }
}

/// The bytes of a network's file.
fn file_of(n: &Network) -> Vec<u8> {
    let mut d = Vec::new();
    if n.input_dim == 768 {
        d.extend_from_slice(b"PZR1");
        d.extend_from_slice(&256u32.to_le_bytes());
    } else {
        d.extend_from_slice(b"PZRH");
        d.extend_from_slice(&256u32.to_le_bytes());
        d.extend_from_slice(&(n.input_dim as u32).to_le_bytes());
    }
    n.ft.iter().for_each(|x| d.extend_from_slice(&x.to_le_bytes()));
    n.ft_bias.iter().for_each(|x| d.extend_from_slice(&x.to_le_bytes()));
    n.w1.iter().for_each(|x| d.push(*x as u8));
    n.b1.iter().for_each(|x| d.extend_from_slice(&x.to_le_bytes()));
    n.w2.iter().for_each(|x| d.push(*x as i8 as u8));
    d.extend_from_slice(&n.b2.to_le_bytes());
    d
}

#[test]
fn avx2_matches_scalar_on_random_nets() {
    let mut seed = 0x243F_6A88_85A3_08D3u64;
    for _ in 0..8 {
        let net = random_net(&mut seed, 64);
        for _ in 0..256 {
            let mut w = [0i16; ACC];
            let mut b = [0i16; ACC];
            for i in 0..ACC {
                w[i] = (xorshift(&mut seed) % 700) as i16 - 300;
                b[i] = (xorshift(&mut seed) % 700) as i16 - 300;
            }
            for stm in [WHITE, BLACK] {
                assert_eq!(
                    forward_scalar(&net, &w, &b, stm),
                    forward(&net, &w, &b, stm),
                    "AVX2 forward disagrees with the reference"
                );
            }
        }
    }
}

#[test]
fn worst_case_pair_does_not_saturate() {
    let mut seed = 1;
    let mut net = random_net(&mut seed, 8);
    for w in net.w1.iter_mut() {
        *w = i8::MIN;
    }
    let sat = [i16::MAX; ACC];
    assert_eq!(forward_scalar(&net, &sat, &sat, WHITE), forward(&net, &sat, &sat, WHITE));
    net.w1.iter_mut().for_each(|w| *w = i8::MAX);
    assert_eq!(forward_scalar(&net, &sat, &sat, WHITE), forward(&net, &sat, &sat, WHITE));
    assert!(2 * (FT_Q as i32) * 128 < i16::MAX as i32 + 1, "saturation bound broken");
}

#[test]
fn a_network_by_hand() {
    // one hidden value of weight one, fed by the bias alone: 64 * 5 / 64 = 5, then 5 * 2 * 400 / 8128
    let mut net = Network {
        ft: vec![0; 768 * ACC],
        ft_bias: vec![0; ACC],
        w1: vec![0; HIDDEN * 2 * ACC],
        b1: vec![0; HIDDEN],
        w2: vec![0; HIDDEN],
        b2: 0,
        input_dim: 768,
    };
    net.b1[3] = 64 * 100;
    net.w2[3] = 20;
    assert_eq!(eval_scratch(&net, &Position::start()), 100 * 20 * 400 / 8128);
    net.w2[3] = -20;
    assert_eq!(eval_scratch(&net, &Position::start()), -(100 * 20 * 400 / 8128));
    // an input that the mover's own accumulator feeds
    net.ft_bias[7] = 50;
    net.b1[3] = 0;
    net.w1[3 * 512 + 7] = 64;
    net.w2[3] = 64;
    assert_eq!(eval_scratch(&net, &Position::start()), 50 * 64 * 400 / 8128);
}

#[test]
fn games_are_covered_one_after_another() {
    let net = random_net(&mut 7, 768);
    let (mut one, mut all) = (0xACC0_1234u64, 0xACC0_1234u64);
    let (mut moves, mut castles, mut eps, mut promotions) = (0, 0, 0, 0);
    for _ in 0..5 {
        let c = check_updates(&net, 100, &mut one).unwrap_or_else(|_| panic!("mismatch"));
        moves += c.moves;
        castles += c.castles;
        eps += c.en_passants;
        promotions += c.promotions;
    }
    let c = check_games(&net, 5, 100, &mut all).unwrap_or_else(|_| panic!("mismatch"));
    assert_eq!((c.moves, c.castles, c.en_passants, c.promotions, all), (moves, castles, eps, promotions, one));
}

#[test]
fn updates_equal_rebuilds() {
    let mut seed = 7;
    for dim in [768, HALFKP] {
        let net = random_net(&mut seed, dim);
        let mut rng = 0xACC0_1234u64;
        let mut castles = 0;
        let mut promotions = 0;
        for _ in 0..(if dim == 768 { 40 } else { 10 }) {
            let c = check_updates(&net, 200, &mut rng).unwrap_or_else(|_| panic!("mismatch"));
            assert!(c.moves > 0 && c.moves <= 200);
            castles += c.castles;
            promotions += c.promotions;
        }
        assert!(dim == HALFKP || castles > 0);
        assert!(dim == HALFKP || promotions > 0);
    }
    let net = random_net(&mut seed, 768);
    let b = Position::start();
    let acc = acc_from(&net, &b);
    let mv = b.moves()[0];
    assert!(!same_acc(&acc, &acc_update(&net, &acc, &b, mv)));
}

#[test]
fn a_network_file_loads_and_is_checked() {
    let mut seed = 3;
    for dim in [768, HALFKP] {
        let net = random_net(&mut seed, dim);
        let d = file_of(&net);
        let got = load(&d).unwrap();
        assert_eq!(got.input_dim, dim);
        assert_eq!(got.ft, net.ft);
        assert_eq!(got.ft_bias, net.ft_bias);
        assert_eq!(got.w1, net.w1);
        assert_eq!(got.b1, net.b1);
        assert_eq!(got.w2, net.w2);
        assert_eq!(got.b2, net.b2);
        assert!(matches!(load(&d[..d.len() - 1]), Err(LoadError::Size(_, _))));
        let mut bad = d.clone();
        bad[0] = b'X';
        assert!(matches!(load(&bad), Err(LoadError::BadMagic)));
        let mut bad = d.clone();
        bad[4] = 1;
        assert!(matches!(load(&bad), Err(LoadError::Width(w)) if w == 257));
    }
    assert!(matches!(load(b"PZR"), Err(LoadError::TooShort)));
}

#[test]
fn a_network_is_taken_into_use_once() {
    let mut seed = 5;
    let d = file_of(&random_net(&mut seed, 768));
    let mut slot = NetSlot { net: None };
    assert!(net(&slot).is_none());
    assert!(matches!(load_global(&mut slot, b"nonsense"), Err(NetUse::Refused(LoadError::TooShort))));
    assert!(load_global(&mut slot, &d).is_ok());
    assert!(net(&slot).is_some());
    assert!(matches!(load_global(&mut slot, &d), Err(NetUse::AlreadyLoaded)));
}

#[test]
fn both_ways_agree_on_records_and_a_reference_is_compared() {
    let mut seed = 11;
    let net = random_net(&mut seed, 768);
    let b = Position::start();
    let n = b.play(b.moves()[3]);
    let mut data = Vec::new();
    for p in [&b, &n] {
        data.extend_from_slice(&pack_board(p));
        data.extend_from_slice(&[0; 5]);
    }
    let a = check_forward(&net, &data, 100);
    assert_eq!((a.total, a.mismatches), (2, 0));
    assert_eq!(check_forward(&net, &data, 1).total, 1);
    let want = eval_scratch(&net, &n);
    let mut refs = Vec::new();
    refs.extend_from_slice(&eval_scratch(&net, &b).to_le_bytes());
    refs.extend_from_slice(&(want + 1).to_le_bytes());
    let a = check_reference(&net, &data, &refs).unwrap();
    assert_eq!((a.total, a.mismatches, a.first), (2, 1, Some((1, want, want + 1))));
    let mut broken = data.clone();
    broken[32] = 0;
    assert_eq!(check_reference(&net, &broken, &refs).err(), Some(1));
}

#[test]
fn a_search_uses_its_network() {
    let mut seed = 13;
    let mut s = Searcher::<TT>::new(1);
    let network = Arc::new(random_net(&mut seed, 768));
    s.net = Some(network.clone());
    let b = Position::start();
    let acc = acc_from(&network, &b);
    assert_eq!(s.eval_node(&b, Some(&acc)), eval_scratch(&network, &b));
    assert_eq!(s.eval_node(&b, None), patzer::eval::evaluate(&b));
    let m = s
        .think(&b, &patzer::time::Limits { depth: Some(3), ..Default::default() })
        .unwrap();
    assert!(b.is_legal(m));
}

fn policy_file() -> Vec<u8> {
    let mut d = b"PZP1".to_vec();
    d.extend_from_slice(&24576u32.to_le_bytes());
    d.extend_from_slice(&512u32.to_le_bytes());
    d.extend((0..24576usize * 512).map(|i| (i % 251) as u8));
    d
}

#[test]
fn a_policy_file_loads_and_is_checked() {
    let d = policy_file();
    let p = policy::load(&d).unwrap();
    assert_eq!(p.w[200], 200u8 as i8);
    assert!(matches!(policy::load(&d[..d.len() - 1]), Err(PolicyError::BadSize)));
    let mut bad = d.clone();
    bad[3] = b'2';
    assert!(matches!(policy::load(&bad), Err(PolicyError::BadMagic)));
    let mut bad = d.clone();
    bad[4] = 1;
    assert!(matches!(policy::load(&bad), Err(PolicyError::Shape(24577, 512))));
    let mut slot = PolicySlot { policy: None };
    assert!(policy::policy(&slot).is_none());
    assert!(matches!(policy::load_global(&mut slot, &bad), Err(PolicyUse::Refused(PolicyError::Shape(24577, 512)))));
    assert!(policy::load_global(&mut slot, &d).is_ok());
    assert!(policy::policy(&slot).is_some());
    assert!(matches!(policy::load_global(&mut slot, &d), Err(PolicyUse::AlreadyLoaded)));
}

#[test]
fn policy_scores_by_mover_origin_and_destination() {
    let mut seed = 17;
    let net = random_net(&mut seed, 768);
    let mut pol = Policy { w: vec![0; 24576 * 512] };
    let b = Position::start();
    let mv = b.moves().into_iter().find(|&m| b.display_uci(m) == "g1f3").unwrap();
    let c = move_class(&b, mv);
    assert_eq!(c, 1 * 4096 + 6 * 64 + 21);
    pol.w[c * 512 + 2] = 3;
    pol.w[c * 512 + 258] = -2;
    let acc = acc_from(&net, &b);
    let act = activations(&acc, WHITE);
    let clip = |x: i16| x.clamp(0, 127) as i32;
    assert_eq!(act[2], clip(acc.w[2]));
    assert_eq!(act[258], clip(acc.b[2]));
    assert_eq!(logit(&pol, &act, c), 3 * clip(acc.w[2]) - 2 * clip(acc.b[2]));
    let text = policy_lines(&net, &pol, &b, 5);
    assert_eq!(text.lines().count(), 20);
    assert!(text.contains(&format!("5 {c} {}\n", 3 * clip(acc.w[2]) - 2 * clip(acc.b[2]))));
}
