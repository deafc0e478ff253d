use runner::product::{
    cartesian_product, longest_length, ordered_combinations, partial_cartesian, zip_lists,
};

fn strings(items: &[&str]) -> Vec<String> {
    items.iter().map(|s| s.to_string()).collect()
}

#[test]
fn partial_cartesian_extends_every_row_by_every_item() {
    let partial_product = vec![vec![1, 4], vec![1, 5], vec![2, 4], vec![2, 5]];
    let items = [6, 7];
    let next_product = partial_cartesian(partial_product, &items);
    assert_eq!(
        next_product,
        vec![
            vec![1, 4, 6],
            vec![1, 4, 7],
            vec![1, 5, 6],
            vec![1, 5, 7],
            vec![2, 4, 6],
            vec![2, 4, 7],
            vec![2, 5, 6],
            vec![2, 5, 7]
        ]
    );
}

#[test]
fn partial_cartesian_of_nothing_is_nothing() {
    let none: Vec<Vec<u8>> = Vec::new();
    assert_eq!(partial_cartesian(none, &[1, 2]), Vec::<Vec<u8>>::new());
    assert_eq!(partial_cartesian(vec![vec![1u8]], &[]), Vec::<Vec<u8>>::new());
}

#[test]
fn cartesian_product_varies_the_first_list_slowest() {
    let lists = vec![strings(&["a", "b"]), strings(&["1", "2"])];
    assert_eq!(
        cartesian_product(&lists),
        vec![
            strings(&["a", "1"]),
            strings(&["a", "2"]),
            strings(&["b", "1"]),
            strings(&["b", "2"])
        ]
    );
}

#[test]
fn cartesian_product_has_the_product_of_the_lengths() {
    let lists = vec![vec![1, 2, 3], vec![4, 5], vec![6, 7, 8, 9]];
    let product = cartesian_product(&lists);
    assert_eq!(product.len(), 3 * 2 * 4);
    assert_eq!(product[0], vec![1, 4, 6]);
    assert_eq!(product[23], vec![3, 5, 9]);
    assert_eq!(product[5], vec![1, 5, 7]);
}

#[test]
fn cartesian_product_of_no_list_is_empty() {
    let lists: Vec<Vec<u32>> = Vec::new();
    assert_eq!(cartesian_product(&lists), Vec::<Vec<u32>>::new());
}

#[test]
fn cartesian_product_with_an_empty_list_is_empty() {
    let lists = vec![vec![1, 2], vec![], vec![3]];
    assert_eq!(cartesian_product(&lists), Vec::<Vec<i32>>::new());
}

#[test]
fn cartesian_product_of_one_list_is_its_singletons() {
    let lists = vec![vec![7, 8, 9]];
    assert_eq!(cartesian_product(&lists), vec![vec![7], vec![8], vec![9]]);
}

#[test]
fn ordered_combinations_take_items_position_for_position() {
    let lists = vec![strings(&["a", "b", "c"]), strings(&["1", "2", "3"])];
    assert_eq!(
        ordered_combinations(&lists),
        vec![strings(&["a", "1"]), strings(&["b", "2"]), strings(&["c", "3"])]
    );
}

#[test]
fn ordered_combinations_fall_back_to_the_first_item_of_a_short_list() {
    let lists = vec![vec![1, 2, 3], vec![10], vec![20, 21]];
    assert_eq!(
        ordered_combinations(&lists),
        vec![vec![1, 10, 20], vec![2, 10, 21], vec![3, 10, 20]]
    );
}

#[test]
fn ordered_combinations_are_as_many_as_the_longest_list_has_items() {
    let lists = vec![vec![1], vec![10, 11, 12]];
    assert_eq!(ordered_combinations(&lists), vec![vec![1, 10], vec![1, 11], vec![1, 12]]);
    let lists = vec![strings(&["1"]), strings(&["a", "b", "c"])];
    assert_eq!(
        ordered_combinations(&lists),
        vec![strings(&["1", "a"]), strings(&["1", "b"]), strings(&["1", "c"])]
    );
    let lists = vec![vec![1, 2], vec![7], vec![3, 4], vec![8]];
    assert_eq!(ordered_combinations(&lists), vec![vec![1, 7, 3, 8], vec![2, 7, 4, 8]]);
}

#[test]
fn ordered_combinations_of_single_items_are_one() {
    let lists = vec![vec![1], vec![2], vec![3]];
    assert_eq!(ordered_combinations(&lists), vec![vec![1, 2, 3]]);
}

#[test]
fn ordered_combinations_of_no_list_are_none() {
    let lists: Vec<Vec<u8>> = Vec::new();
    assert_eq!(ordered_combinations(&lists), Vec::<Vec<u8>>::new());
}

#[test]
fn longest_length_is_the_greatest_length() {
    assert_eq!(longest_length(&[vec![1], vec![1, 2, 3], vec![1, 2]]), 3);
    assert_eq!(longest_length(&[Vec::<u8>::new()]), 0);
    assert_eq!(longest_length::<u8>(&[]), 0);
}

#[test]
fn zip_lists_recycles_single_values() {
    let lists = vec![strings(&["x"]), strings(&["1", "2", "3"])];
    assert_eq!(
        zip_lists(&lists, 3),
        vec![strings(&["x", "1"]), strings(&["x", "2"]), strings(&["x", "3"])]
    );
    let empty: Vec<Vec<String>> = Vec::new();
    assert_eq!(zip_lists(&empty, 1), vec![Vec::<String>::new()]);
}
