use loom_cli::hierarchy::{character_ancestor, dynamic_ancestor};

#[test]
fn the_nearest_dynamic_ancestor_is_the_body() {
    // 0 Ship (dynamic) <- 1 Hull (dynamic) <- 2 Deck <- 3 Plate
    let parents = vec![None, Some(0), Some(1), Some(2)];
    let dynamic = vec![true, true, false, false];
    assert_eq!(dynamic_ancestor(&parents, &dynamic, 3), Some(1));
    assert_eq!(dynamic_ancestor(&parents, &dynamic, 1), Some(0));
    assert_eq!(dynamic_ancestor(&parents, &dynamic, 0), None);
}

#[test]
fn a_node_is_not_its_own_ancestor() {
    let parents = vec![None, Some(0)];
    let dynamic = vec![false, true];
    assert_eq!(dynamic_ancestor(&parents, &dynamic, 1), None);
}

#[test]
fn a_cycle_ends_the_walk_instead_of_hanging() {
    let parents = vec![Some(1), Some(0)];
    let marks = vec![false, false];
    assert_eq!(dynamic_ancestor(&parents, &marks, 0), None);
    assert!(!character_ancestor(&parents, &marks, 1));
}

#[test]
fn the_walk_gives_up_past_sixty_four_links() {
    // A chain of 70 nodes, each the parent of the next, with only the top marked.
    let mut parents = vec![None];
    for i in 0..69usize {
        parents.push(Some(i));
    }
    let mut marks = vec![false; 70];
    marks[0] = true;
    assert_eq!(dynamic_ancestor(&parents, &marks, 64), Some(0));
    assert_eq!(dynamic_ancestor(&parents, &marks, 65), None);
}

#[test]
fn a_part_under_a_character_is_his_body() {
    let parents = vec![None, Some(0), Some(1), None];
    let character = vec![false, true, false, false];
    assert!(character_ancestor(&parents, &character, 2));
    assert!(!character_ancestor(&parents, &character, 1));
    assert!(!character_ancestor(&parents, &character, 3));
}
