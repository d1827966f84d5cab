use recommend::Core;
use recommend::Example;
use recommend::FeatureList;
use recommend::MemStore;
use recommend::PartConfig;
use recommend::RecommendError;
use recommend::Request;

fn fl(pairs: Vec<(u64, i64)>) -> FeatureList {
    FeatureList { pairs }
}

fn example(id: u128, pairs: Vec<(u64, i64)>) -> Example {
    Example { item_id: id, features: fl(pairs) }
}

fn store_with_default(model: Vec<(u64, i64)>) -> MemStore {
    MemStore {
        model_list: Vec::new(),
        fallback_model: Some(fl(model)),
        activity_log: Vec::new(),
        fail_reads: false,
        fail_writes: false,
    }
}

fn core_of(store: MemStore, chance: u32) -> Core<MemStore> {
    Core::of(store, Vec::new(), PartConfig { upgrade_chance: chance })
}

fn request(count: usize, current: Option<Example>, candidates: Option<Vec<Example>>) -> Request {
    Request { part: String::from("front"), count, current, candidates }
}

#[test]
fn combine_joins_on_shared_ids() {
    let a = fl(vec![(1, 10), (2, 20), (3, 30)]);
    let b = fl(vec![(2, 5), (4, 7)]);
    assert_eq!(a.combine(&b), vec![(2, 20, 5)]);
    assert_eq!(b.combine(&a), vec![(2, 5, 20)]);
}

#[test]
fn combine_of_disjoint_lists_is_empty() {
    let a = fl(vec![(1, 10)]);
    let b = fl(vec![(2, 5)]);
    assert_eq!(a.combine(&b), Vec::new());
}

#[test]
fn predictor_neutral_on_empty_input() {
    // An empty alignment scores zero, the pre-image of one half under the
    // logistic transform.
    assert_eq!(recommend::predict::predict(&Vec::new()), 0);
}

#[test]
fn predictor_sums_products() {
    // 2.0 * 1.0 + (-1.0) * 1.0 == 1.0 in fixed point squared units.
    let pairs = vec![(2_000_000, 1_000_000), (-1_000_000, 1_000_000)];
    assert_eq!(recommend::predict::predict(&pairs), 1_000_000_000_000);
}

#[test]
fn scenario_scores_and_serves_the_best_candidate() {
    // Model {f1: 2.0, f2: -1.0}; candidate A has {f1: 1.0, f3: 5.0} and
    // scores 2.0; candidate B has {f2: 1.0} and scores -1.0.  With no
    // exploration and one slot, A alone is served.
    let store = store_with_default(vec![(1, 2_000_000), (2, -1_000_000)]);
    let mut core = core_of(store, 0);
    let req = request(
        1,
        Some(example(100, vec![(1, 1_000_000)])),
        Some(vec![
            example(101, vec![(1, 1_000_000), (3, 5_000_000)]),
            example(102, vec![(2, 1_000_000)]),
        ]),
    );
    let resp = core.recommend(&req).unwrap();
    assert_eq!(resp.items, vec![(101, 2_000_000_000_000)]);
    assert_eq!(core.storage.activity_log.len(), 1);
    let act = &core.storage.activity_log[0];
    assert_eq!(act.id, resp.id);
    assert_eq!(act.part, String::from("front"));
    assert_eq!(act.current.item_id, 100);
    assert_eq!(act.visible.len(), 1);
    assert_eq!(act.visible[0].item_id, 101);
    assert!(act.chosen.is_none());
}

#[test]
fn ranking_is_deterministic_without_exploration() {
    let model = vec![(1, 1_000_000)];
    let cands = vec![
        example(1, vec![(1, 1_000_000)]),
        example(2, vec![(1, 3_000_000)]),
        example(3, vec![(1, 2_000_000)]),
    ];
    let mut first: Option<Vec<(u128, i128)>> = None;
    for _ in 0..5 {
        let mut core = core_of(store_with_default(model.clone()), 0);
        let req = request(3, Some(example(9, Vec::new())), Some(cands.clone()));
        let resp = core.recommend(&req).unwrap();
        assert_eq!(
            resp.items,
            vec![(2, 3_000_000_000_000), (3, 2_000_000_000_000), (1, 1_000_000_000_000)]
        );
        match &first {
            Some(items) => assert_eq!(items, &resp.items),
            None => first = Some(resp.items),
        }
    }
}

#[test]
fn equal_scores_keep_candidate_order() {
    let model = vec![(1, 1_000_000)];
    let cands = vec![
        example(7, vec![(1, 1_000_000)]),
        example(8, vec![(1, 1_000_000)]),
        example(9, vec![(1, 2_000_000)]),
    ];
    let mut core = core_of(store_with_default(model), 0);
    let req = request(3, Some(example(1, Vec::new())), Some(cands));
    let resp = core.recommend(&req).unwrap();
    assert_eq!(
        resp.items,
        vec![(9, 2_000_000_000_000), (7, 1_000_000_000_000), (8, 1_000_000_000_000)]
    );
}

#[test]
fn exploration_always_swaps_when_certain() {
    // With upgrade_chance at the full scale and one visible slot out of
    // three, the served item is always a previously hidden candidate: the
    // top-ranked item never survives at position zero.
    let model = vec![(1, 1_000_000)];
    for _ in 0..20 {
        let mut core = core_of(store_with_default(model.clone()), 1_000_000);
        let cands = vec![
            example(1, vec![(1, 3_000_000)]),
            example(2, vec![(1, 2_000_000)]),
            example(3, vec![(1, 1_000_000)]),
        ];
        let req = request(1, Some(example(9, Vec::new())), Some(cands));
        let resp = core.recommend(&req).unwrap();
        assert_eq!(resp.items.len(), 1);
        let (id, _) = resp.items[0];
        assert!(id == 2 || id == 3, "a hidden candidate must have been promoted");
    }
}

#[test]
fn exploration_never_swaps_when_window_covers_everything() {
    // Even with certain exploration there is nothing hidden to promote.
    let model = vec![(1, 1_000_000)];
    let mut core = core_of(store_with_default(model), 1_000_000);
    let cands = vec![example(1, vec![(1, 2_000_000)]), example(2, vec![(1, 1_000_000)])];
    let req = request(2, Some(example(9, Vec::new())), Some(cands));
    let resp = core.recommend(&req).unwrap();
    assert_eq!(resp.items, vec![(1, 2_000_000_000_000), (2, 1_000_000_000_000)]);
}

#[test]
fn truncation_serves_min_of_count_and_candidates() {
    let model = vec![(1, 1_000_000)];
    let cands = vec![
        example(1, vec![(1, 4_000_000)]),
        example(2, vec![(1, 3_000_000)]),
        example(3, vec![(1, 2_000_000)]),
        example(4, vec![(1, 1_000_000)]),
    ];
    let mut core = core_of(store_with_default(model.clone()), 0);
    let req = request(2, Some(example(9, Vec::new())), Some(cands.clone()));
    let resp = core.recommend(&req).unwrap();
    assert_eq!(resp.items.len(), 2);
    let act = &core.storage.activity_log[0];
    assert_eq!(act.visible.len(), resp.items.len());
    for (slot, (id, _)) in act.visible.iter().zip(resp.items.iter()) {
        assert_eq!(slot.item_id, *id);
    }

    let mut core = core_of(store_with_default(model), 0);
    let req = request(10, Some(example(9, Vec::new())), Some(cands));
    let resp = core.recommend(&req).unwrap();
    assert_eq!(resp.items.len(), 4);
}

#[test]
fn default_model_fallback_scores_identically() {
    let weights = vec![(1, 2_000_000), (2, -1_000_000)];
    let cands = vec![example(1, vec![(1, 1_000_000)]), example(2, vec![(2, 1_000_000)])];

    let mut with_default = core_of(store_with_default(weights.clone()), 0);
    let req = request(2, Some(example(9, Vec::new())), Some(cands.clone()));
    let served_by_default = with_default.recommend(&req).unwrap();

    let part_specific = MemStore {
        model_list: vec![(String::from("front"), fl(weights))],
        fallback_model: None,
        activity_log: Vec::new(),
        fail_reads: false,
        fail_writes: false,
    };
    let mut with_part_model = core_of(part_specific, 0);
    let req = request(2, Some(example(9, Vec::new())), Some(cands));
    let served_by_part = with_part_model.recommend(&req).unwrap();

    assert_eq!(served_by_default.items, served_by_part.items);
}

#[test]
fn missing_current_item_fails_the_request() {
    let mut core = core_of(store_with_default(vec![(1, 1_000_000)]), 0);
    let req = request(1, None, Some(Vec::new()));
    assert!(matches!(core.recommend(&req), Err(RecommendError::ItemNotFound)));
    assert!(core.storage.activity_log.is_empty());
}

#[test]
fn missing_candidates_fail_the_request() {
    let mut core = core_of(store_with_default(vec![(1, 1_000_000)]), 0);
    let req = request(1, Some(example(9, Vec::new())), None);
    assert!(matches!(core.recommend(&req), Err(RecommendError::CandidateEnumerationFailed)));
}

#[test]
fn missing_models_fail_the_request() {
    let mut core = core_of(MemStore::new(), 0);
    let req = request(1, Some(example(9, Vec::new())), Some(Vec::new()));
    assert!(matches!(core.recommend(&req), Err(RecommendError::ModelUnavailable)));
}

#[test]
fn failed_write_fails_the_request() {
    let mut store = store_with_default(vec![(1, 1_000_000)]);
    store.fail_writes = true;
    let mut core = core_of(store, 0);
    let req = request(1, Some(example(9, Vec::new())), Some(Vec::new()));
    assert!(matches!(core.recommend(&req), Err(RecommendError::PersistenceFailed)));
    assert!(core.storage.activity_log.is_empty());
}

#[test]
fn backend_failure_passes_through() {
    let mut store = store_with_default(vec![(1, 1_000_000)]);
    store.fail_reads = true;
    let mut core = core_of(store, 0);
    let req = request(1, Some(example(9, Vec::new())), Some(Vec::new()));
    assert!(matches!(core.recommend(&req), Err(RecommendError::StorageError)));
}

#[test]
fn empty_candidate_list_serves_nothing() {
    let mut core = core_of(store_with_default(vec![(1, 1_000_000)]), 0);
    let req = request(5, Some(example(9, Vec::new())), Some(Vec::new()));
    let resp = core.recommend(&req).unwrap();
    assert!(resp.items.is_empty());
    assert_eq!(core.storage.activity_log.len(), 1);
    assert!(core.storage.activity_log[0].visible.is_empty());
}

#[test]
fn config_for_prefers_the_part_entry() {
    let parts = vec![
        (String::from("front"), PartConfig { upgrade_chance: 250_000 }),
        (String::from("side"), PartConfig { upgrade_chance: 500_000 }),
    ];
    let core = Core::of(MemStore::new(), parts, PartConfig { upgrade_chance: 0 });
    assert_eq!(core.config_for(&String::from("side")).upgrade_chance, 500_000);
    assert_eq!(core.config_for(&String::from("other")).upgrade_chance, 0);
}

#[test]
fn pluck_model_prefers_the_part_model() {
    let store = MemStore {
        model_list: vec![(String::from("front"), fl(vec![(1, 5)]))],
        fallback_model: Some(fl(vec![(1, 7)])),
        activity_log: Vec::new(),
        fail_reads: false,
        fail_writes: false,
    };
    let part = recommend::pluck_model(&store, &String::from("front")).unwrap();
    assert_eq!(part.pairs, vec![(1, 5)]);
    let other = recommend::pluck_model(&store, &String::from("other")).unwrap();
    assert_eq!(other.pairs, vec![(1, 7)]);
}

#[test]
fn feature_list_get_finds_values() {
    let a = fl(vec![(1, 10), (2, 20)]);
    assert_eq!(a.get(2), Some(20));
    assert_eq!(a.get(3), None);
}
