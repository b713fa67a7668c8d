use icu_tool::inputs::order_input_paths;

#[test]
fn input_paths_are_sorted_and_unique() {
    let paths = vec!["b".to_string(), "a/2.png".to_string(), "a/10.png".to_string(), "b".to_string(), "a".to_string()];
    assert_eq!(
        order_input_paths(paths),
        vec!["a".to_string(), "a/10.png".to_string(), "a/2.png".to_string(), "b".to_string()]
    );
    assert!(order_input_paths(vec![]).is_empty());
}

#[test]
fn input_paths_compare_by_characters() {
    let paths = vec!["é.png".to_string(), "z.png".to_string(), "Z.png".to_string()];
    assert_eq!(order_input_paths(paths), vec!["Z.png".to_string(), "z.png".to_string(), "é.png".to_string()]);
}
