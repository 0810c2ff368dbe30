use mt_train::features::{classify_codepoint, count_buckets, emit_tokens, murmurhash2, Feature, SEED};

#[test]
fn murmurhash2_known_values() {
    assert_eq!(murmurhash2(0, SEED), 800413918);
    assert_eq!(murmurhash2(0x2061, SEED), 1192909038);
    assert_eq!(murmurhash2(1, SEED ^ 2), 2982106587);
}

#[test]
fn feature_hash_uses_kind_seed() {
    assert_eq!(Feature::AsciiNGram(0x2061).to_hash(), 1192909038);
    // 'é' (233) lies in coarse block 1
    assert_eq!(Feature::Unicode('é').to_hash(), 2982106587);
    assert_eq!(Feature::UnicodeClass('é').to_hash(), murmurhash2(24, SEED ^ 4));
}

#[test]
fn classify_codepoint_ranks() {
    assert_eq!(classify_codepoint('a'), 0);
    assert_eq!(classify_codepoint('\u{a0}'), 0);
    assert_eq!(classify_codepoint('\u{a1}'), 1);
    assert_eq!(classify_codepoint('é'), 24);
    assert_eq!(classify_codepoint('あ'), 45);
    assert_eq!(classify_codepoint('\u{10000}'), 52);
}

#[test]
fn emit_tokens_empty_text() {
    assert!(emit_tokens("").is_empty());
}

#[test]
fn emit_tokens_two_letters() {
    assert_eq!(
        emit_tokens("ab"),
        vec![
            Feature::AsciiNGram(0x2061),
            Feature::AsciiNGram(0x6162),
            Feature::AsciiNGram(0x20_6162),
        ]
    );
}

#[test]
fn emit_tokens_lowercases_and_steady_state() {
    let f = emit_tokens("ABc");
    assert_eq!(
        f,
        vec![
            Feature::AsciiNGram(0x2061),
            Feature::AsciiNGram(0x6162),
            Feature::AsciiNGram(0x20_6162),
            Feature::AsciiNGram(0x6263),
            Feature::AsciiNGram(0x61_6263),
            Feature::AsciiNGram(0x2061_6263),
        ]
    );
}

#[test]
fn emit_tokens_word_boundary_resets_window() {
    // after the space the window restarts from a single blank
    let f = emit_tokens("a b");
    assert_eq!(
        f,
        vec![
            Feature::AsciiNGram(0x2061),
            Feature::AsciiNGram(0x6120),
            Feature::AsciiNGram(0x20_6120),
            Feature::AsciiNGram(0x2062),
            Feature::AsciiNGram(0x2062),
            Feature::AsciiNGram(0x2062),
        ]
    );
}

#[test]
fn emit_tokens_non_ascii_resets_run() {
    let f = emit_tokens("éa");
    assert_eq!(f, vec![Feature::Unicode('é'), Feature::UnicodeClass('é')]);
    let g = emit_tokens("éab");
    assert_eq!(
        g,
        vec![Feature::Unicode('é'), Feature::UnicodeClass('é'), Feature::AsciiNGram(0x6162)]
    );
}

#[test]
fn count_buckets_empty_text() {
    let c = count_buckets("", 4096);
    assert!(c.entries.is_empty());
    assert_eq!(c.total, 0);
}

#[test]
fn count_buckets_two_letters() {
    let c = count_buckets("ab", 4096);
    assert_eq!(c.total, 3);
    let mut e = c.entries.clone();
    e.sort();
    assert_eq!(e, vec![(1852, 1), (2286, 1), (3824, 1)]);
}

#[test]
fn count_buckets_in_range_and_sum_to_total() {
    let text = "The quick brown fox — déjà vu, ひらがな and カタカナ 123";
    for dim in [1u32, 7, 64, 4096] {
        let c = count_buckets(text, dim);
        assert!(c.entries.iter().all(|&(b, n)| b < dim && n > 0));
        assert_eq!(c.entries.iter().map(|&(_, n)| n).sum::<usize>(), c.total);
        assert_eq!(c.total, emit_tokens(text).len());
    }
    let one = count_buckets(text, 1);
    assert_eq!(one.entries, vec![(0, one.total)]);
}

#[test]
fn count_buckets_deterministic() {
    let text = "le chat est sur la table, the cat is on the table";
    let mut a = count_buckets(text, 4096).entries;
    let mut b = count_buckets(text, 4096).entries;
    a.sort();
    b.sort();
    assert_eq!(a, b);
}

#[test]
fn count_buckets_repeated_feature_counts_twice() {
    let c = count_buckets("abab", 4096);
    let tokens = emit_tokens("abab");
    assert_eq!(c.total, tokens.len());
    let ab = Feature::AsciiNGram(0x6162).to_hash() % 4096;
    let hits = c.entries.iter().find(|&&(b, _)| b == ab).map(|&(_, n)| n).unwrap();
    let expected = tokens.iter().filter(|f| f.to_hash() % 4096 == ab).count();
    assert_eq!(hits, expected);
    assert!(hits >= 2);
}
