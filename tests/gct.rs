use prompt::GraphemeClusterTrie;

#[test]
fn basic() {
    let trie = GraphemeClusterTrie::from_iter(&["aa", "ab", "ac"]);

    assert_eq!(trie.shortest_unique_prefix("ad").as_deref(), Some("ad"));
    assert_eq!(trie.shortest_unique_prefix("b").as_deref(), Some("b"));
    assert_eq!(trie.shortest_unique_prefix("a").as_deref(), None);
    assert_eq!(trie.shortest_unique_prefix("aa").as_deref(), None);
}

#[test]
fn realworld() {
    let trie = GraphemeClusterTrie::from_iter(&[
        "a1",
        "c",
        // "c++",
        "Desktop",
        "Documents",
        "Downloads",
        "fa2019",
        "julia",
        "latex",
        "miniconda3",
        "Music",
        "Pictures",
        "Public",
        "python",
        "repos",
        // "rust",
        "Templates",
        "Videos",
    ]);

    assert_eq!(trie.shortest_unique_prefix("c++").as_deref(), Some("c+"));
    assert_eq!(trie.shortest_unique_prefix("rust").as_deref(), Some("ru"));
}

#[test]
fn empty_trie_takes_one_cluster() {
    let trie = GraphemeClusterTrie::from_iter(&[]);
    assert_eq!(trie.shortest_unique_prefix("alpha").as_deref(), Some("a"));
    assert_eq!(trie.shortest_unique_prefix("").as_deref(), None);
}

#[test]
fn equal_name_has_no_unique_prefix() {
    let trie = GraphemeClusterTrie::from_iter(&["docs", "docs"]);
    assert_eq!(trie.shortest_unique_prefix("docs").as_deref(), None);
    assert_eq!(trie.shortest_unique_prefix("doc").as_deref(), None);
    assert_eq!(trie.shortest_unique_prefix("docx").as_deref(), Some("docx"));
}

#[test]
fn clusters_are_not_split() {
    // "e" followed by a combining acute accent is one cluster.
    let trie = GraphemeClusterTrie::from_iter(&["e\u{301}"]);
    assert_eq!(trie.shortest_unique_prefix("e").as_deref(), Some("e"));
    assert_eq!(trie.shortest_unique_prefix("e\u{301}").as_deref(), None);
    let trie = GraphemeClusterTrie::from_iter(&["e"]);
    assert_eq!(
        trie.shortest_unique_prefix("e\u{301}x").as_deref(),
        Some("e\u{301}")
    );
}
