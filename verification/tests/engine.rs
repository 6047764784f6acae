use recommender::engine::{similarity, Recommender};

fn strings(words: &[&str]) -> Vec<String> {
    words.iter().map(|w| w.to_string()).collect()
}

#[test]
fn similarity_of_identical_sets() {
    let a = strings(&["transportation", "ground"]);
    // shared = 2, countA = 2, countB = 2, denominator = 2: 2000 * 2 / 2
    assert_eq!(similarity(&a, &a), 2000);
}

#[test]
fn similarity_partial_overlap() {
    let query = strings(&["transportation", "ground"]);
    let cand = strings(&["transportation", "air"]);
    // shared = 1, denominator = 2 + 2 - 1 = 3: 2000 / 3 truncates to 666
    assert_eq!(similarity(&query, &cand), 666);
}

#[test]
fn similarity_disjoint_is_zero() {
    let query = strings(&["water", "sky"]);
    let cand = strings(&["ground", "air"]);
    assert_eq!(similarity(&query, &cand), 0);
}

#[test]
fn similarity_of_empty_sets_is_zero() {
    let none: Vec<String> = Vec::new();
    assert_eq!(similarity(&none, &none), 0);
}

#[test]
fn similarity_counts_duplicate_query_labels() {
    let query = strings(&["x", "x"]);
    let cand = strings(&["x"]);
    // shared = 2, denominator = 2 + 1 - 2 = 1: 2000 * 2 / 1
    assert_eq!(similarity(&query, &cand), 4000);
}

#[test]
fn index_lookup_both_directions() {
    let mut rec = Recommender::new();
    rec.ingest("trains".to_string(), strings(&["transportation", "ground"]));
    rec.ingest("plane".to_string(), strings(&["transportation", "air"]));

    let mut items = rec.items_for_label(&"transportation".to_string());
    items.sort();
    assert_eq!(items, strings(&["plane", "trains"]));
    assert_eq!(rec.items_for_label(&"air".to_string()), strings(&["plane"]));
    assert!(rec.items_for_label(&"unknown".to_string()).is_empty());

    let mut labels = rec.labels_for_item(&"trains".to_string());
    labels.sort();
    assert_eq!(labels, strings(&["ground", "transportation"]));
    assert!(rec.labels_for_item(&"unknown".to_string()).is_empty());
}

#[test]
fn ingest_merges_repeated_items_and_labels() {
    let mut rec = Recommender::new();
    rec.ingest("trains".to_string(), strings(&["ground", "ground"]));
    rec.ingest("trains".to_string(), strings(&["rail"]));

    let mut labels = rec.labels_for_item(&"trains".to_string());
    labels.sort();
    assert_eq!(labels, strings(&["ground", "rail"]));
    assert_eq!(rec.items_for_label(&"ground".to_string()), strings(&["trains"]));
}

#[test]
fn consistency_after_ingests() {
    let mut rec = Recommender::new();
    rec.ingest("trains".to_string(), strings(&["transportation", "ground"]));
    rec.ingest("cars".to_string(), strings(&["transportation", "ground"]));
    rec.ingest("plane".to_string(), strings(&["transportation", "air"]));
    for label in ["transportation", "ground", "air"] {
        for item in rec.items_for_label(&label.to_string()) {
            assert!(rec.labels_for_item(&item).contains(&label.to_string()));
        }
    }
    for item in ["trains", "cars", "plane"] {
        for label in rec.labels_for_item(&item.to_string()) {
            assert!(rec.items_for_label(&label).contains(&item.to_string()));
        }
    }
}

#[test]
fn ranking_scenario() {
    let mut rec = Recommender::new();
    rec.ingest("trains".to_string(), strings(&["transportation", "ground"]));
    rec.ingest("cars".to_string(), strings(&["transportation", "ground"]));
    rec.ingest("plane".to_string(), strings(&["transportation", "air"]));

    let res = rec.recommend(strings(&["transportation", "ground"]));
    // plane shares one label (score 666); trains and cars fully overlap
    // (score 2000); the sort is ascending, so plane comes first and the
    // two full-overlap items sit together behind it, in either order.
    assert_eq!(res.len(), 3);
    assert_eq!(res[0], "plane");
    let tail: Vec<&str> = vec![res[1].as_str(), res[2].as_str()];
    assert!(tail == vec!["trains", "cars"] || tail == vec!["cars", "trains"]);
}

#[test]
fn ranking_same_query_twice_is_identical() {
    let mut rec = Recommender::new();
    rec.ingest("trains".to_string(), strings(&["transportation", "ground"]));
    rec.ingest("cars".to_string(), strings(&["transportation", "ground"]));
    rec.ingest("plane".to_string(), strings(&["transportation", "air"]));
    rec.ingest("boat".to_string(), strings(&["transportation", "water"]));

    let query = strings(&["transportation", "ground", "water"]);
    let first = rec.recommend(query.clone());
    let second = rec.recommend(query);
    assert_eq!(first, second);
}

#[test]
fn ranking_empty_query_and_unknown_labels() {
    let mut rec = Recommender::new();
    rec.ingest("trains".to_string(), strings(&["ground"]));

    assert!(rec.recommend(Vec::new()).is_empty());
    assert!(rec.recommend(strings(&["nosuchlabel"])).is_empty());
}

#[test]
fn ranking_excludes_zero_overlap_items() {
    let mut rec = Recommender::new();
    rec.ingest("trains".to_string(), strings(&["ground"]));
    rec.ingest("plane".to_string(), strings(&["air"]));

    let res = rec.recommend(strings(&["air"]));
    assert_eq!(res, strings(&["plane"]));
}

#[test]
fn ranking_on_empty_index() {
    let rec = Recommender::new();
    assert!(rec.recommend(strings(&["anything"])).is_empty());
}
