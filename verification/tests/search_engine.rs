use rankless::engine::SearchEngine;
use rankless::search::extend_sorted;

const TEST_SIZE: usize = 16;

fn engine_of(haystacks: &[&str]) -> SearchEngine<TEST_SIZE> {
    SearchEngine::new(haystacks.iter().map(|s| s.to_string()).collect())
}

fn get_test_engine() -> SearchEngine<TEST_SIZE> {
    engine_of(&["abc", "xyz", "man woo", "axa", "mewixalion", "bumble rumble"])
}

#[test]
fn test_extend_sorted() {
    let mut v1 = vec![1, 2, 3];
    let v2 = vec![2, 3, 4];
    extend_sorted(&mut v1, v2);
    assert_eq!(v1, vec![1, 2, 3, 4]);
}

#[test]
fn gets_empty() {
    let engine = get_test_engine();
    assert_eq!(engine.query("").len(), 6);
}

#[test]
fn gets_starts() {
    let engine = get_test_engine();
    for (q, r0) in vec![
        ("a", 0),
        ("x", 1),
        ("ma", 2),
        ("w", 2),
        ("ax", 3),
        ("mewix", 4),
    ]
    .iter()
    {
        let result = engine.query(q);
        assert_eq!(result[0], *r0);
    }
    assert_eq!(engine.query("a")[1], 3);
    assert_eq!(engine.query("q").len(), 0);
}

#[test]
fn gets_innards() {
    let engine = get_test_engine();
    for (q, r0) in vec![
        ("y", 1),
        ("an", 2),
        ("xa", 3),
        ("ion", 4),
        ("wix", 4),
        ("ix", 4),
    ]
    .iter()
    {
        let result = engine.query(q);
        assert_eq!(result[0], *r0);
    }
    assert_eq!(engine.query("x")[1], 3);
    assert_eq!(engine.query("x").len(), 3);
    assert_eq!(engine.query("c").len(), 0);
}

#[test]
fn no_multiplied_result() {
    let engine = engine_of(&["aba aba aba", "xxx", "zzz"]);
    assert_eq!(engine.query("ab").len(), 1);
    let engine = engine_of(&["abas abazz abaxy", "tabaxi", "zzz"]);
    assert_eq!(engine.query("ab").len(), 2);
}

#[test]
fn multi_word_query() {
    let engine = engine_of(&["aba cdx", "aba", "cdx", "crum brabn", "udx crtasba"]);
    assert_eq!(engine.query("ab cd"), vec![0]);
    assert_eq!(engine.query("ru ra"), vec![3]);
    assert_eq!(engine.query("dx ba"), vec![0, 4]);
}

#[test]
fn optimized_array() {
    let engine = engine_of(&["ababc", "xaabc", "wuabc"]);
    assert_eq!(engine.tree.char_array.len(), 3);
}

#[test]
fn gets_long() {
    let engine = engine_of(&["Hiroyasa Hidaka", "Manuel Hidalgo", "Hisao Hidaka"]);
    assert_eq!(engine.query("hidalgo")[0], 1);
}

#[test]
fn gets_ch() {
    let engine = engine_of(&["China", "Chile", "Chad"]);
    assert_eq!(engine.query("ch")[0], 0);
}

#[test]
fn perfect_match() {
    let mut haystacks: Vec<String> = (0..30).map(|_| "Wes".to_string()).collect();
    haystacks.push("West".to_string());
    let engine: SearchEngine<TEST_SIZE> = SearchEngine::new(haystacks);
    assert_eq!(engine.query("west")[0], 30);
}

#[test]
fn lincoln() {
    let engine = engine_of(&[
        "MIT",
        "MITb",
        "MITc",
        "MIT Lincoln Laboratory",
        "GlaxoSmithKline",
        "MITc",
        "MITc",
        "MITc",
        "MITc",
    ]);
    assert_eq!(engine.query("mit linc")[0], 3);
}

#[test]
fn a_query_gives_at_most_the_engine_size_without_repeats() {
    let haystacks: Vec<String> = (0..40).map(|i| format!("alpha{}", i % 7)).collect();
    let engine: SearchEngine<4> = SearchEngine::new(haystacks);
    let res = engine.query("alpha");
    assert_eq!(res, vec![0, 1, 2, 3]);
}

#[test]
fn serialization_roundtrip() {
    let engine = get_test_engine();
    let queries = [
        "", "a", "x", "ma", "w", "ax", "mewix", "y", "an", "xa", "ion", "wix", "ix", "ab cd",
        "man woo", "bumble", "rumble", "q",
    ];
    let expected: Vec<Vec<u32>> = queries.iter().map(|q| engine.query(q)).collect();
    let mut buf = Vec::new();
    engine.save(&mut buf);
    let loaded: SearchEngine<TEST_SIZE> = SearchEngine::try_load(&buf[..]).expect("load failed");
    for (i, q) in queries.iter().enumerate() {
        assert_eq!(loaded.query(q), expected[i], "mismatch for query '{}'", q);
    }
}

#[test]
fn serialization_rejects_bad_magic() {
    let buf = vec![0u8; 200];
    assert!(SearchEngine::<TEST_SIZE>::try_load(&buf[..]).is_none());
}

#[test]
fn serialization_rejects_truncated() {
    let engine = get_test_engine();
    let mut buf = Vec::new();
    engine.save(&mut buf);
    buf.truncate(buf.len() / 2);
    assert!(SearchEngine::<TEST_SIZE>::try_load(&buf[..]).is_none());
}

#[test]
fn serialization_rejects_wrong_s() {
    let engine = get_test_engine();
    let mut buf = Vec::new();
    engine.save(&mut buf);
    assert!(SearchEngine::<4>::try_load(&buf[..]).is_none());
}

#[test]
fn a_saved_engine_starts_with_its_magic_and_size() {
    let engine = get_test_engine();
    let mut buf = vec![9u8];
    engine.save(&mut buf);
    assert_eq!(&buf[..9], &[9, 77, 87, 83, 1, 16, 0, 0, 0]);
    assert!(SearchEngine::<TEST_SIZE>::try_load(&buf[1..]).is_some());
}

#[test]
fn a_load_rejects_a_leaf_outside_the_letters() {
    let engine = get_test_engine();
    let mut buf = Vec::new();
    engine.save(&mut buf);
    let ca_len = engine.tree.char_array.len();
    // the first letter array length lives at byte 8
    let mut bad = buf.clone();
    bad[8] = 0;
    bad[9] = 0;
    assert!(ca_len > 0);
    assert!(SearchEngine::<TEST_SIZE>::try_load(&bad[..]).is_none());
}

#[test]
fn each_word_of_each_haystack_is_indexed_under_its_haystack() {
    let hs = vec!["Ab cd".to_string(), "e".to_string()];
    let ws = rankless::engine::get_idxed_words(&hs);
    let got: Vec<(Vec<u8>, usize)> = ws.iter().map(|w| (w.word.clone(), w.outer_idx)).collect();
    assert_eq!(got, vec![(vec![0, 1], 0), (vec![2, 3], 0), (vec![4], 1)]);
}

#[test]
fn a_built_engine_holds_each_word_under_its_letters() {
    let engine = SearchEngine::<4>::new(vec!["ab cd".to_string(), "ax".to_string(), "cab".to_string()]);
    let prefix = &engine.tree.prefix_tree;
    assert_eq!(prefix.rel_inds(), vec![0, 1, 2]);
    // words starting with 'a' (letter 0) and with 'c' (letter 2)
    assert_eq!(prefix.children[0].rel_inds(), vec![0, 1]);
    assert_eq!(prefix.children[2].rel_inds(), vec![0, 2]);
    assert_eq!(prefix.children[1].rel_inds(), Vec::<u32>::new());
    // "cab" is entered in the inner trie from its 'a' on
    let inner = &engine.tree.inner_tree;
    assert_eq!(inner.rel_inds(), vec![2]);
    assert_eq!(inner.children[0].rel_inds(), vec![2]);
}

#[test]
fn a_built_engine_keeps_the_smallest_ids_of_a_letter() {
    let hs: Vec<String> = (0..7).map(|i| if i % 2 == 0 { "bee".to_string() } else { "ant".to_string() }).collect();
    let engine = SearchEngine::<2>::new(hs);
    assert_eq!(engine.tree.prefix_tree.rel_inds(), vec![0, 1]);
    assert_eq!(engine.tree.prefix_tree.children[1].rel_inds(), vec![0, 2]);
    assert_eq!(engine.tree.prefix_tree.children[0].rel_inds(), vec![1, 3]);
}

#[test]
fn small_haystack_sets_are_indexable() {
    assert!(SearchEngine::<TEST_SIZE>::indexable(&vec!["abc".to_string(), "de fg".to_string()]));
    assert!(SearchEngine::<TEST_SIZE>::indexable(&Vec::new()));
}

#[test]
fn longer_words_that_start_with_the_query_are_found() {
    let engine = engine_of(&["xyz", "xyzab", "xyzq", "axyzc", "bb"]);
    let mut got = engine.query("xyz");
    got.sort();
    // "xyz" itself, the longer words starting with it, and "axyzc" holding it inside
    assert_eq!(got, vec![0, 1, 2, 3]);
}

#[test]
fn a_short_leaf_before_the_stretch_lets_a_neighbour_in() {
    // the tail "a" of "xya" is a proper prefix of the query's tail "ac": the binary search
    // over the leaves under "xy" then keeps "xyabz" in its stretch
    let engine = engine_of(&["xy", "xya", "xyabz", "xyacq", "xyacr", "xyacs", "xyact"]);
    assert_eq!(engine.query("xyac"), vec![2, 3, 4, 5, 6]);
}
