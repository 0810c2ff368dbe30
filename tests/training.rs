use mt_train::training::{capitalized_with, class_index, first_max_index, scoreable_examples, lang_code_to_cpp_enum, should_evaluate, EarlyStopping, POSITIVE_INFINITY_BITS};

fn codes(list: &[&str]) -> Vec<String> {
    list.iter().map(|s| s.to_string()).collect()
}

#[test]
fn class_index_finds_known_codes() {
    let c = codes(&["de", "en", "fr"]);
    assert_eq!(class_index(&c, &"en".to_string()), Some(1));
    assert_eq!(class_index(&c, &"de".to_string()), Some(0));
    assert_eq!(class_index(&c, &"fr".to_string()), Some(2));
}

#[test]
fn class_index_unknown_code_is_none() {
    let c = codes(&["en", "fr"]);
    assert_eq!(class_index(&c, &"zz".to_string()), None);
    assert_eq!(class_index(&Vec::new(), &"en".to_string()), None);
}

#[test]
fn evaluation_schedule() {
    assert!(should_evaluate(0, 200));
    assert!(should_evaluate(10, 200));
    assert!(!should_evaluate(11, 200));
    assert!(should_evaluate(199, 200));
    assert!(!should_evaluate(198, 200));
    assert!(should_evaluate(4, 5));
}

#[test]
fn early_stopping_tracks_best_and_patience() {
    let mut s = EarlyStopping::new(2);
    assert_eq!(s.best_bits, POSITIVE_INFINITY_BITS);
    assert_eq!(f32::from_bits(s.best_bits), f32::INFINITY);
    assert!(!s.observe(1.0f32.to_bits()));
    assert_eq!(f32::from_bits(s.best_bits), 1.0);
    assert!(!s.observe(0.5f32.to_bits()));
    assert_eq!(s.idle, 0);
    assert!(!s.observe(0.5f32.to_bits()));
    assert_eq!(s.idle, 1);
    assert!(!s.observe(0.25f32.to_bits()));
    assert_eq!(s.idle, 0);
    assert!(!s.observe(0.3f32.to_bits()));
    assert!(s.observe(0.9f32.to_bits()));
    assert_eq!(f32::from_bits(s.best_bits), 0.25);
}

#[test]
fn early_stopping_zero_patience_stops_on_first_stall() {
    let mut s = EarlyStopping::new(0);
    assert!(!s.observe(2.0f32.to_bits()));
    assert!(s.observe(2.0f32.to_bits()));
}

#[test]
fn early_stopping_orders_like_floats() {
    let values = [
        f32::NEG_INFINITY, -3.5, -1.0, -0.0, 0.0, 1e-10, 0.5, 1.0, 7.25, f32::INFINITY, f32::NAN,
    ];
    for &best in &values {
        if best.is_nan() {
            continue;
        }
        for &loss in &values {
            let mut s = EarlyStopping::new(5);
            s.best_bits = best.to_bits();
            s.observe(loss.to_bits());
            let improved = loss < best;
            assert_eq!(s.idle == 0, improved, "loss {} best {}", loss, best);
            let expected = if improved { loss } else { best };
            assert_eq!(s.best_bits, expected.to_bits());
        }
    }
}

#[test]
fn best_loss_never_rises() {
    let mut s = EarlyStopping::new(100);
    let mut best = f32::INFINITY;
    for l in [3.0f32, 2.0, 2.5, 1.0, 4.0, f32::NAN, 0.5, 0.75] {
        s.observe(l.to_bits());
        let now = f32::from_bits(s.best_bits);
        assert!(now <= best);
        best = now;
    }
    assert_eq!(best, 0.5);
}

#[test]
fn enum_names_capitalise_first_char() {
    assert_eq!(lang_code_to_cpp_enum("en"), "En");
    assert_eq!(lang_code_to_cpp_enum("zh_hant"), "Zh_hant");
    assert_eq!(lang_code_to_cpp_enum(""), "");
    assert_eq!(lang_code_to_cpp_enum("ß"), "SS");
    assert_eq!(lang_code_to_cpp_enum("éa"), "Éa");
}

fn bits(v: &[f32]) -> Vec<u32> {
    v.iter().map(|x| x.to_bits()).collect()
}

#[test]
fn first_max_index_picks_first_highest() {
    assert_eq!(first_max_index(&bits(&[0.1, 0.7, 0.2])), 1);
    assert_eq!(first_max_index(&bits(&[0.5, 0.9, 0.9, 0.1])), 1);
    assert_eq!(first_max_index(&bits(&[-2.0, -1.0, -3.0])), 1);
    assert_eq!(first_max_index(&bits(&[-0.0, 0.0])), 0);
    assert_eq!(first_max_index(&bits(&[3.0])), 0);
    assert_eq!(first_max_index(&Vec::new()), 0);
}

fn example(id: u32, code: &str, text: &str) -> mt_train::balance::TrainingExample {
    mt_train::balance::TrainingExample { id, lan_code: code.to_string(), sentence: text.to_string() }
}

#[test]
fn scoreable_examples_skip_unknown_code() {
    let c = codes(&["en", "fr"]);
    let batch = vec![example(1, "xx", "hello world"), example(2, "fr", "bonjour le monde")];
    let r = scoreable_examples(&c, &batch, 4096);
    assert_eq!(r.len(), 1);
    assert_eq!(r[0].position, 1);
    assert_eq!(r[0].class, 1);
    assert_eq!(r[0].counts.total, mt_train::features::emit_tokens("bonjour le monde").len());
}

#[test]
fn scoreable_examples_skip_text_without_features() {
    let c = codes(&["en"]);
    let batch = vec![example(1, "en", ""), example(2, "en", "a"), example(3, "en", "hi")];
    let r = scoreable_examples(&c, &batch, 64);
    assert_eq!(r.iter().map(|s| s.position).collect::<Vec<_>>(), vec![1, 2]);
    assert!(r.iter().all(|s| s.class == 0));
    assert!(r.iter().all(|s| s.counts.entries.iter().all(|&(b, _)| b < 64)));
}

#[test]
fn capitalized_with_joins_rest() {
    assert_eq!(capitalized_with("X".to_string(), "abc"), "Xbc");
    assert_eq!(capitalized_with("SS".to_string(), "ßa"), "SSa");
    assert_eq!(capitalized_with("Q".to_string(), ""), "");
}
