use microgpt::state_dict::StateDict;

#[test]
fn get_returns_inserted_matrix() {
    let mut sd = StateDict::new();
    sd.insert("wte", vec![vec![0, 1], vec![2, 3]]);
    sd.insert("wpe", vec![vec![4, 5, 6]]);
    assert_eq!(sd.get("wte"), &vec![vec![0, 1], vec![2, 3]]);
    assert_eq!(sd.get("wpe"), &vec![vec![4, 5, 6]]);
}

#[test]
fn first_entry_of_a_name_wins() {
    let mut sd = StateDict::new();
    sd.insert("layer0.attn_wq", vec![vec![1]]);
    sd.insert("layer0.attn_wq", vec![vec![2]]);
    assert_eq!(sd.get("layer0.attn_wq"), &vec![vec![1]]);
    assert_eq!(sd.entries().len(), 2);
}

#[test]
fn param_indices_flatten_in_order() {
    let mut sd = StateDict::new();
    sd.insert("a", vec![vec![0, 1, 2], vec![3, 4, 5]]);
    sd.insert("b", vec![]);
    sd.insert("c", vec![vec![], vec![6]]);
    sd.insert("d", vec![vec![7, 8]]);
    assert_eq!(sd.param_indices(), vec![0, 1, 2, 3, 4, 5, 6, 7, 8]);
}

#[test]
fn empty_store_has_no_params() {
    let sd = StateDict::new();
    assert!(sd.param_indices().is_empty());
    assert!(sd.entries().is_empty());
}

#[test]
fn entries_keep_names_and_order() {
    let mut sd = StateDict::new();
    sd.insert("x", vec![vec![3]]);
    sd.insert("y", vec![vec![4]]);
    let names: Vec<&str> = sd.entries().iter().map(|(k, _)| k.as_str()).collect();
    assert_eq!(names, vec!["x", "y"]);
}
