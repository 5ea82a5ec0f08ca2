use text_ingest::directory::records::Record;
use text_ingest::directory::tree::DirectoryTree;
use text_ingest::fuzzy::filter::{chars_of, filter, get_node_display_path};
use text_ingest::fuzzy::matcher::{best_match, greedy_from};
use text_ingest::fuzzy::ranking::{ranked_before, sort_ranked, Ranked};

fn dir(parent: Option<usize>, name: &str) -> Record {
    Record { parent, name: name.to_string(), is_directory: true, size: None }
}

fn file(parent: Option<usize>, name: &str, size: u64) -> Record {
    Record { parent, name: name.to_string(), is_directory: false, size: Some(size) }
}

fn project() -> DirectoryTree {
    let records = vec![
        dir(None, "proj"),
        dir(Some(0), "src"),
        file(Some(0), "README.md", 100),
        file(Some(1), "main.rs", 200),
        file(Some(1), "lib.rs", 300),
        dir(Some(0), "docs"),
        file(Some(5), "guide.md", 50),
    ];
    DirectoryTree::from_records(&records).unwrap()
}

fn chars(s: &str) -> Vec<char> {
    s.chars().collect()
}

fn quality(query: &str, path: &str) -> Option<(usize, usize)> {
    best_match(&chars(query), &chars(path))
}

#[test]
fn display_path_joins_names_from_the_root_down() {
    let tree = project();
    assert_eq!(get_node_display_path(&tree, 0), "proj");
    assert_eq!(get_node_display_path(&tree, 1), "proj/src");
    assert_eq!(get_node_display_path(&tree, 3), "proj/src/main.rs");
    assert_eq!(get_node_display_path(&tree, 6), "proj/docs/guide.md");
}

#[test]
fn display_path_is_empty_out_of_range() {
    let tree = project();
    assert_eq!(get_node_display_path(&tree, 7), "");
}

#[test]
fn chars_of_lists_every_character() {
    assert_eq!(chars_of("a/Ω✓"), vec!['a', '/', 'Ω', '✓']);
    assert_eq!(chars_of(""), Vec::<char>::new());
}

#[test]
fn a_scan_finds_each_character_at_the_first_chance() {
    assert_eq!(greedy_from(&chars("ab"), &chars("xaxbxb"), 0, 0), Some(4));
    assert_eq!(greedy_from(&chars("ab"), &chars("xaxbxb"), 0, 2), None);
    assert_eq!(greedy_from(&chars("ab"), &chars("xaxbxb"), 1, 4), Some(6));
    assert_eq!(greedy_from(&chars("ab"), &chars("xaxbxb"), 2, 3), Some(3));
    assert_eq!(greedy_from(&chars("ab"), &chars("ba"), 0, 0), None);
}

#[test]
fn the_best_match_is_the_tightest_one() {
    assert_eq!(quality("main", "src/machine/main.rs"), Some((4, 12)));
    assert_eq!(quality("ab", "a_ab"), Some((2, 2)));
    assert_eq!(quality("ab", "a_b"), Some((3, 0)));
    assert_eq!(quality("rs", "proj/src/main.rs"), Some((2, 14)));
}

#[test]
fn among_equally_tight_matches_the_earliest_wins() {
    assert_eq!(quality("ab", "ab_ab"), Some((2, 0)));
    assert_eq!(quality("a", "banana"), Some((1, 1)));
}

#[test]
fn the_matcher_compares_characters_as_they_are() {
    assert_eq!(quality("main", "src/main.rs"), Some((4, 4)));
    assert_eq!(quality("MAIN", "src/main.rs"), None);
    assert_eq!(quality("main", "SRC/MAIN.RS"), None);
    assert_eq!(quality("é", "cafe"), None);
    assert_eq!(quality("é", "café"), Some((1, 3)));
}

#[test]
fn characters_out_of_order_do_not_match() {
    assert_eq!(quality("ba", "ab"), None);
    assert_eq!(quality("abc", "ab"), None);
    assert_eq!(quality("a", ""), None);
    assert_eq!(quality("aa", "a"), None);
}

#[test]
fn ranked_before_compares_span_start_length_and_position_in_turn() {
    let base = Ranked { span: 2, start: 3, length: 10, position: 4, node: 9 };
    assert!(ranked_before(&Ranked { span: 1, start: 9, length: 99, position: 99, ..base }, &base));
    assert!(ranked_before(&Ranked { start: 2, length: 99, position: 99, ..base }, &base));
    assert!(ranked_before(&Ranked { length: 9, position: 99, ..base }, &base));
    assert!(ranked_before(&Ranked { position: 3, ..base }, &base));
    assert!(!ranked_before(&base, &base));
    assert!(!ranked_before(&Ranked { node: 0, ..base }, &base));
    assert!(!ranked_before(&Ranked { span: 3, start: 0, length: 0, position: 0, ..base }, &base));
}

#[test]
fn sort_ranked_orders_every_entry() {
    let mut entries = Vec::new();
    let mut seed: u32 = 12345;
    for position in 0..300usize {
        seed = seed.wrapping_mul(1664525).wrapping_add(1013904223);
        let span = (seed >> 28) as usize;
        let start = ((seed >> 20) & 3) as usize;
        let length = ((seed >> 10) & 3) as usize;
        entries.push(Ranked { span, start, length, position, node: 1000 + position });
    }
    let sorted = sort_ranked(&entries);
    assert_eq!(sorted.len(), entries.len());
    for pair in sorted.windows(2) {
        assert!(ranked_before(&pair[0], &pair[1]));
    }
    let mut nodes: Vec<usize> = sorted.iter().map(|e| e.node).collect();
    nodes.sort();
    assert_eq!(nodes, (1000..1300).collect::<Vec<usize>>());
    for entry in &sorted {
        assert_eq!(entry.node, 1000 + entry.position);
    }
}

#[test]
fn sort_ranked_of_nothing_is_nothing() {
    assert!(sort_ranked(&Vec::new()).is_empty());
}

#[test]
fn the_empty_query_shows_every_node_in_preorder() {
    let tree = project();
    assert_eq!(filter("", &tree), vec![0, 1, 3, 4, 2, 5, 6]);
}

#[test]
fn the_empty_query_shows_every_node_exactly_once() {
    let tree = project();
    let mut shown = filter("", &tree);
    shown.sort();
    assert_eq!(shown, vec![0, 1, 2, 3, 4, 5, 6]);
}

#[test]
fn a_query_shows_the_matching_nodes_best_first() {
    let tree = project();
    assert_eq!(filter("rs", &tree), vec![4, 3, 1, 5, 6]);
}

#[test]
fn a_query_matches_against_the_whole_path() {
    let tree = project();
    assert_eq!(filter("src/l", &tree), vec![4]);
    assert_eq!(filter("pmd", &tree), vec![2, 6]);
}

#[test]
fn a_query_in_capitals_shows_the_same_nodes() {
    let tree = project();
    assert_eq!(filter("MAIN", &tree), vec![3]);
    assert_eq!(filter("readme", &tree), vec![2]);
    assert_eq!(filter("RS", &tree), filter("rs", &tree));
}

#[test]
fn a_directory_is_shown_only_when_its_own_path_matches() {
    let tree = project();
    assert_eq!(filter("guide", &tree), vec![6]);
    assert_eq!(filter("docs", &tree), vec![5, 6]);
}

#[test]
fn a_query_that_matches_nothing_shows_nothing() {
    let tree = project();
    assert_eq!(filter("zzz", &tree), Vec::<usize>::new());
}

#[test]
fn equal_matches_keep_their_preorder() {
    let records = vec![dir(None, "x"), file(Some(0), "ba", 1), file(Some(0), "ab", 1), file(Some(0), "cc", 1)];
    let tree = DirectoryTree::from_records(&records).unwrap();
    assert_eq!(filter("x", &tree), vec![0, 1, 2, 3]);
    assert_eq!(filter("/", &tree), vec![1, 2, 3]);
}

#[test]
fn a_shorter_path_comes_first_among_equal_matches() {
    let records = vec![dir(None, "x"), file(Some(0), "long_name", 1), file(Some(0), "n", 1)];
    let tree = DirectoryTree::from_records(&records).unwrap();
    assert_eq!(filter("x/", &tree), vec![2, 1]);
}

#[test]
fn the_filter_gives_the_same_list_each_time() {
    let tree = project();
    for query in ["", "r", "rs", "o", "proj", "m", "zzz"] {
        assert_eq!(filter(query, &tree), filter(query, &tree));
    }
}

#[test]
fn the_filter_does_not_depend_on_selection() {
    let mut tree = project();
    let before = filter("rs", &tree);
    tree.toggle(1);
    tree.toggle(6);
    assert_eq!(filter("rs", &tree), before);
    assert_eq!(filter("", &tree), vec![0, 1, 3, 4, 2, 5, 6]);
}

#[test]
fn the_filter_of_an_empty_tree_is_empty() {
    let tree = DirectoryTree::from_records(&Vec::new()).unwrap();
    assert_eq!(filter("", &tree), Vec::<usize>::new());
    assert_eq!(filter("a", &tree), Vec::<usize>::new());
}

#[test]
fn a_path_in_capitals_is_found_by_a_query_in_small_letters() {
    let records = vec![dir(None, "SRC"), file(Some(0), "Main.RS", 1), file(Some(0), "notes.txt", 1)];
    let tree = DirectoryTree::from_records(&records).unwrap();
    assert_eq!(filter("main", &tree), vec![1]);
    assert_eq!(filter("src/main.rs", &tree), vec![1]);
    assert_eq!(filter("SRC", &tree), vec![0, 1, 2]);
    assert_eq!(filter("src", &tree), vec![0, 1, 2]);
}

#[test]
fn case_is_ignored_beyond_the_latin_alphabet() {
    let records = vec![
        dir(None, "Übung"),
        file(Some(0), "ÄRGER.txt", 1),
        file(Some(0), "ärger.md", 1),
        file(Some(0), "Ωmega", 1),
        file(Some(0), "ЖУК", 1),
    ];
    let tree = DirectoryTree::from_records(&records).unwrap();
    assert_eq!(filter("ärger", &tree), vec![2, 1]);
    assert_eq!(filter("ÄRGER", &tree), vec![2, 1]);
    assert_eq!(filter("übung", &tree), vec![0, 4, 3, 2, 1]);
    assert_eq!(filter("ω", &tree), vec![3]);
    assert_eq!(filter("Ω", &tree), vec![3]);
    assert_eq!(filter("жук", &tree), vec![4]);
    assert_eq!(filter("Жук", &tree), vec![4]);
}

#[test]
fn the_path_length_that_ranks_is_the_one_displayed() {
    let records = vec![dir(None, "x"), file(Some(0), "İİİ", 1), file(Some(0), "aaaa", 1)];
    let tree = DirectoryTree::from_records(&records).unwrap();
    assert_eq!(filter("x", &tree), vec![0, 1, 2]);
    assert_eq!(filter("x/", &tree), vec![1, 2]);
}
