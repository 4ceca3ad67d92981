use crosswords_rs::dict::Dict;

fn cv(s: &str) -> Vec<char> {
    s.chars().collect()
}

#[test]
fn test() {
    let words_vec = vec!["FOO", "FOOBAR", "FOE", "TOE"];
    let words = Dict::to_cvec_set(words_vec.into_iter().map(|s| s.to_string()).collect());
    let dict = Dict::new(&words);
    assert_eq!(2, dict.matching_words("#OE".chars().collect()).count());
    assert_eq!(1, dict.matching_words("F#E".chars().collect()).count());
    assert_eq!(0, dict.matching_words("T#O".chars().collect()).count());
    assert_eq!(0, dict.matching_words("F###".chars().collect()).count());
    assert_eq!(0, dict.matching_words("##".chars().collect()).count());
}

#[test]
fn every_input_word_is_found_again() {
    let inputs = vec!["FOO", "FOOBAR", "FOE", "TOE"];
    let words = Dict::to_cvec_set(inputs.iter().map(|s| s.to_string()).collect());
    let dict = Dict::new(&words);
    for w in inputs {
        assert!(dict.contains(&cv(w)), "missing {}", w);
    }
    assert!(!dict.contains(&cv("BAR")));
}

#[test]
fn matches_are_exactly_the_fitting_words() {
    let inputs = vec!["FOO", "FOOBAR", "FOE", "TOE", "TOO"];
    let words = Dict::to_cvec_set(inputs.iter().map(|s| s.to_string()).collect());
    let dict = Dict::new(&words);
    let mut it = dict.matching_words(cv("#O#"));
    let mut found: Vec<String> = Vec::new();
    loop {
        match it.next() {
            Some(w) => {
                // Every yielded word fits the pattern.
                assert_eq!(3, w.len());
                assert_eq!('O', w[1]);
                found.push(w.iter().collect());
            }
            None => break,
        }
    }
    found.sort();
    assert_eq!(vec!["FOE".to_string(), "FOO".into(), "TOE".into(), "TOO".into()], found);
}

#[test]
fn shuffled_words_are_the_input_words() {
    let inputs = vec!["ALPHA", "BETA", "GAMMA"];
    let words = Dict::to_cvec_set(inputs.iter().map(|s| s.to_string()).collect());
    let dict = Dict::new(&words);
    let mut stored: Vec<String> = dict.all_words().iter().map(|w| w.iter().collect()).collect();
    stored.sort();
    assert_eq!(vec!["ALPHA".to_string(), "BETA".into(), "GAMMA".into()], stored);
}

#[test]
fn normalization_expands_umlauts_and_drops_junk() {
    let inputs = vec!["Straße", "SIEß", "zoo", "hi!", "a"];
    let words = Dict::to_cvec_set(inputs.iter().map(|s| s.to_string()).collect());
    let mut seen: Vec<String> = words.iter().map(|w| w.iter().collect()).collect();
    seen.sort();
    assert_eq!(vec!["SIESS".to_string(), "STRASSE".into(), "ZOO".into()], seen);
}

#[test]
fn normalization_trims_uppercases_and_deduplicates() {
    let inputs = vec![" foo ", "FOO", "f\u{fc}r", "\u{e4}\u{f6}"];
    let words = Dict::to_cvec_set(inputs.iter().map(|s| s.to_string()).collect());
    let mut seen: Vec<String> = words.iter().map(|w| w.iter().collect()).collect();
    seen.sort();
    assert_eq!(vec!["AEOE".to_string(), "FOO".into(), "FUER".into()], seen);
}

#[test]
fn seeded_construction_is_reproducible() {
    let inputs = vec!["ALPHA", "BETA", "GAMMA", "DELTA", "EPSILON"];
    let words = Dict::to_cvec_set(inputs.iter().map(|s| s.to_string()).collect());
    let d1 = Dict::new_seeded(&words, 42);
    let d2 = Dict::new_seeded(&words, 42);
    assert_eq!(d1.all_words(), d2.all_words());
    for w in d1.all_words() {
        assert!(d2.contains(w));
    }
}
