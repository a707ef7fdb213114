use selfplay_lab::games::connect_k::ConnectK;
use selfplay_lab::search::Wdl;
use selfplay_lab::training::{build_exact_dataset, splitmix64, Example};

#[test]
fn dataset_split_is_disjoint_and_complete() {
    let game = ConnectK::new(3, 3, 3, true).unwrap();
    let ds = build_exact_dataset(&game);
    let total = ds.train.len() + ds.val.len() + ds.test.len();
    assert_eq!(total, 505); // Phase 1 measured state count
    assert!(ds.max_features <= 9);
    // Every example's optimal set is non-empty and within legal.
    for e in ds.train.iter().chain(&ds.val).chain(&ds.test) {
        let optimal = e.optimal_indices();
        assert!(!optimal.is_empty());
        assert_eq!(e.legal.len(), e.child_wdl.len());
    }
    // Splits are roughly 80/10/10.
    assert!(ds.train.len() > 350 && ds.train.len() < 450);
}

#[test]
fn optimal_indices_pick_the_value_matching_children() {
    let e = Example {
        features: vec![],
        legal: vec![3, 5, 7],
        child_wdl: vec![Wdl::Draw, Wdl::Win, Wdl::Win],
        wdl: Wdl::Win,
        ply: 0,
    };
    assert_eq!(e.optimal_indices(), vec![1, 2]);
}

#[test]
fn splitmix64_known_values() {
    assert_eq!(splitmix64(0), 0xe220_a839_7b1d_cdaf);
    assert_eq!(splitmix64(1), 0x910a_2dec_8902_5cc1);
}
