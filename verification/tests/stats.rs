use mdrag::stats::embed_stats;

fn dir(parts: &[&str]) -> Option<Vec<Vec<u8>>> {
    Some(parts.iter().map(|p| p.as_bytes().to_vec()).collect())
}

#[test]
fn one_directory_four_files() {
    let parents = vec![dir(&["vault"]), dir(&["vault"]), dir(&["vault"]), dir(&["vault"])];
    let tokens = vec![4000, 3000, 2929, 1000];
    assert_eq!(embed_stats(&parents, &tokens), Some((1, 4, 10929)));
}

#[test]
fn directories_are_counted_once_each() {
    let parents = vec![
        dir(&["vault", "a"]),
        dir(&["vault"]),
        dir(&["vault", "a"]),
        dir(&["vault", "b"]),
        dir(&["vault"]),
    ];
    let tokens = vec![1, 2, 3, 4, 5];
    assert_eq!(embed_stats(&parents, &tokens), Some((3, 5, 15)));
}

#[test]
fn paths_differ_by_components_not_concatenation() {
    let parents = vec![dir(&["ab", "c"]), dir(&["a", "bc"])];
    assert_eq!(embed_stats(&parents, &vec![0, 0]), Some((2, 2, 0)));
}

#[test]
fn files_without_a_parent_add_no_directory() {
    let parents = vec![None, dir(&["x"]), None];
    assert_eq!(embed_stats(&parents, &vec![7, 0, 3]), Some((1, 3, 10)));
}

#[test]
fn no_files() {
    assert_eq!(embed_stats(&vec![], &vec![]), Some((0, 0, 0)));
}

#[test]
fn token_total_overflow() {
    let parents = vec![dir(&["x"]), dir(&["x"])];
    assert_eq!(embed_stats(&parents, &vec![usize::MAX, 1]), None);
    assert_eq!(embed_stats(&parents, &vec![usize::MAX, 0]), Some((1, 2, usize::MAX)));
}
