use qtree::qtree::get_char;
use qtree::qtree::Qtree;

#[test]
pub fn test_can_create_tree_with_initial_properties() {
    let t = Qtree::new();

    assert_eq!(t.node_count(), 1);
    assert_eq!(t.query_count(), 0);

    let root_key = t.root_key();
    let curr_key = t.cursor_key();

    assert_eq!(root_key, curr_key);
}

#[test]
pub fn test_can_add_query_to_tree_when_query_not_exists_in_tree() {
    let mut t = Qtree::new();
    assert_eq!(t.node_count(), 1);
    assert_eq!(t.query_count(), 0);

    t.add("foo".to_string());

    assert_eq!(t.node_count(), 4);
    assert_eq!(t.query_count(), 1);
}

#[test]
pub fn test_can_get_query_from_tree_when_query_exists_in_tree() {
    let mut t = Qtree::new();
    t.add("foo".to_string());

    assert_eq!(t.node_count(), 4);
    assert_eq!(t.query_count(), 1);

    let path = t.get("foo".to_string());

    assert_eq!(path, "foo".to_string().into_bytes().to_vec());
}

#[test]
pub fn test_can_add_multiple_queries_to_graph_and_only_the_marginal_difference_is_added_to_tree() {
    let mut t = Qtree::new();
    assert_eq!(t.node_count(), 1);
    assert_eq!(t.query_count(), 0);

    t.add("foo".to_string());
    t.add("bar".to_string());
    t.add("foozo".to_string());

    // (3)foo + (3)bar (2)foozo + (1)root = 9
    assert_eq!(t.node_count(), 9);
    assert_eq!(t.query_count(), 3);
}

#[test]
pub fn test_contains_returns_whether_query_is_in_tree() {
    let mut t = Qtree::new();
    assert_eq!(t.node_count(), 1);
    assert_eq!(t.query_count(), 0);

    t.add("foo".to_string());
    t.add("bar".to_string());

    assert_eq!(t.contains("foo".to_string()), true);
    assert_eq!(t.contains("bar".to_string()), true);
    assert_eq!(t.contains("zoo".to_string()), false);
}

#[test]
fn test_get_char_returns_char_at_index() {
    let v = vec![1, 2, 3];
    assert_eq!(Some(1), get_char(&v, 0));
}

#[test]
fn test_get_char_returns_none_when_index_out_of_bounds() {
    let v = vec![1, 2, 3];
    assert_eq!(None, get_char(&v, 3));
}

#[test]
fn test_prefix_sharing_in_spec_order() {
    // root + 3 for "foo" + 2 more for the "zo" of "foozo" + 3 for "bar"
    let mut t = Qtree::new();
    t.add("foo".to_string());
    t.add("foozo".to_string());
    t.add("bar".to_string());

    assert_eq!(t.node_count(), 9);
    assert_eq!(t.query_count(), 3);
}

#[test]
fn test_adding_the_same_query_twice_adds_no_node_but_counts_the_call() {
    let mut t = Qtree::new();
    t.add("foo".to_string());
    let nodes_after_first = t.node_count();
    assert_eq!(t.query_count(), 1);

    t.add("foo".to_string());
    assert_eq!(t.node_count(), nodes_after_first);
    assert_eq!(t.query_count(), 2);
}

#[test]
fn test_query_count_counts_every_call_regardless_of_content() {
    let mut t = Qtree::new();
    t.add("foo".to_string());
    t.add("foo".to_string());
    t.add("".to_string());
    t.add("bar".to_string());

    assert_eq!(t.query_count(), 4);
}

#[test]
fn test_empty_query_is_contained_and_adds_no_node() {
    let mut t = Qtree::new();
    assert_eq!(t.contains("".to_string()), true);

    t.add("".to_string());
    assert_eq!(t.node_count(), 1);
    assert_eq!(t.query_count(), 1);
    assert_eq!(t.contains("".to_string()), true);

    t.add("foo".to_string());
    t.add("bar".to_string());
    assert_eq!(t.contains("".to_string()), true);
}

#[test]
fn test_prefixes_of_an_inserted_query_are_contained() {
    // the trie has no terminal markers: every prefix of "foo" is a path
    let mut t = Qtree::new();
    t.add("foo".to_string());

    assert_eq!(t.contains("f".to_string()), true);
    assert_eq!(t.contains("fo".to_string()), true);
    assert_eq!(t.contains("foo".to_string()), true);
    assert_eq!(t.contains("fooo".to_string()), false);
}

#[test]
fn test_longest_matching_path_stops_at_the_first_unmatched_byte() {
    let mut t = Qtree::new();
    t.add("foo".to_string());

    let path = t.get("foobar".to_string());
    assert_eq!(path, "foo".to_string().into_bytes().to_vec());

    let empty = t.get("zoo".to_string());
    assert_eq!(empty, Vec::<u8>::new());
}

#[test]
fn test_traverse_appends_from_the_given_position() {
    let mut t = Qtree::new();
    t.add("foo".to_string());

    let mut path = Vec::new();
    t.traverse("foo".to_string().into_bytes().to_vec(), &mut path);
    assert_eq!(path, "foo".to_string().into_bytes().to_vec());

    // a walk always starts over from the root: with a pre-filled path it
    // matches the query from position path.len() onward against the root
    let mut seeded = vec![b'f'];
    t.traverse("ff".to_string().into_bytes().to_vec(), &mut seeded);
    assert_eq!(seeded, vec![b'f', b'f']);
}

#[test]
fn test_cursor_statelessness_across_interleaved_calls() {
    // every operation starts over from the root: no state leaks between calls
    let mut t = Qtree::new();
    t.add("foo".to_string());
    assert_eq!(t.contains("foo".to_string()), true);
    let _ = t.get("foobar".to_string());
    t.add("bar".to_string());
    assert_eq!(t.contains("bar".to_string()), true);
    assert_eq!(t.contains("foo".to_string()), true);
    assert_eq!(t.contains("zoo".to_string()), false);
    assert_eq!(t.get("foozo".to_string()), "foo".to_string().into_bytes().to_vec());
    assert_eq!(t.node_count(), 7);
    assert_eq!(t.query_count(), 2);
    assert_eq!(t.root_key(), t.cursor_key());
}
