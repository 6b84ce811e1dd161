use parchmint::text::{
    fnv1a, normalize_markdown, subtree_counts, text_statistics, CountNode, TextStatistics,
};

#[test]
fn unicode_word_rules_are_platform_independent() {
    assert_eq!(
        text_statistics("Café—東京 can't 42"),
        TextStatistics {
            words: 4,
            characters: 16
        }
    );
    assert_eq!(
        text_statistics("  --  "),
        TextStatistics {
            words: 0,
            characters: 6
        }
    );
}

#[test]
fn joiners_continue_words_only_between_letters() {
    assert_eq!(text_statistics("well-known rock’n’roll").words, 2);
    assert_eq!(text_statistics("- leading and trailing -").words, 3);
    assert_eq!(text_statistics("").words, 0);
    assert_eq!(text_statistics("a--b").words, 1);
}

#[test]
fn markdown_normalization_keeps_words_and_replaces_syntax() {
    let (normalized, stats) = normalize_markdown("# Title *bold* [link](x)", &|| false).unwrap();
    assert_eq!(normalized, "  Title  bold   link  x ");
    assert_eq!(stats, text_statistics("# Title *bold* [link](x)"));
    assert!(normalize_markdown("text", &|| true).is_none());
    assert!(normalize_markdown("", &|| true).is_some());
}

#[test]
fn fnv1a_matches_the_reference_vectors() {
    assert_eq!(fnv1a(""), 0xcbf2_9ce4_8422_2325_u64 as i64);
    assert_eq!(fnv1a("a"), 0xaf63_dc4c_8601_ec8c_u64 as i64);
    assert_eq!(fnv1a("foobar"), 0x8594_4171_f739_67e8_u64 as i64);
}

fn counts(words: u64, characters: u64) -> TextStatistics {
    TextStatistics { words, characters }
}

#[test]
fn subtree_counts_roll_children_into_parents() {
    let nodes = vec![
        CountNode {
            parent: None,
            direct: counts(0, 0),
        },
        CountNode {
            parent: Some(0),
            direct: counts(3, 10),
        },
        CountNode {
            parent: Some(0),
            direct: counts(0, 0),
        },
        CountNode {
            parent: Some(2),
            direct: counts(2, 5),
        },
    ];
    let totals = subtree_counts(&nodes, &vec![0, 2, 3, 1]);
    assert_eq!(
        totals,
        vec![counts(5, 15), counts(3, 10), counts(2, 5), counts(2, 5)]
    );
    let unlisted = subtree_counts(&nodes, &vec![0, 1]);
    assert_eq!(unlisted[0], counts(3, 10));
    assert_eq!(unlisted[2], counts(0, 0));
}

#[test]
fn subtree_counts_saturate() {
    let nodes = vec![
        CountNode {
            parent: None,
            direct: counts(1, 1),
        },
        CountNode {
            parent: Some(0),
            direct: counts(u64::MAX, 2),
        },
        CountNode {
            parent: Some(0),
            direct: counts(u64::MAX, 3),
        },
    ];
    let totals = subtree_counts(&nodes, &vec![0, 1, 2]);
    assert_eq!(totals[0], counts(u64::MAX, 6));
}

#[test]
fn joining_texts_with_a_space_adds_their_statistics() {
    let pairs = [("can't-", "stop"), ("Café", "東京 42"), ("", ""), ("end-", "-start"), ("x", "")];
    for (a, b) in pairs {
        let joined = text_statistics(&format!("{a} {b}"));
        let left = text_statistics(a);
        let right = text_statistics(b);
        assert_eq!(joined.words, left.words + right.words);
        assert_eq!(joined.characters, left.characters + right.characters + 1);
    }
}

#[test]
fn whitespace_is_exactly_the_unicode_white_space_property() {
    for code in 0..=0x10ffffu32 {
        if let Some(c) = char::from_u32(code) {
            assert_eq!(parchmint::chars::char_is_whitespace(c), c.is_whitespace(), "{code:#x}");
        }
    }
}
