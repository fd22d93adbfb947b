use markov_text::{MarkovError, RandomNumberGenerator, StringBasedMarkovTextGenerator};

struct Always(u32);

impl RandomNumberGenerator for Always {
    fn next_u32(&mut self) -> u32 {
        self.0
    }
}

fn pair(a: &str, b: &str) -> (String, String) {
    (a.to_string(), b.to_string())
}

#[test]
fn end_to_end_two_sentences() {
    let mut g = StringBasedMarkovTextGenerator::new();
    assert_eq!(g.build_markov_model("a b c. a b d.", 2), Ok(()));
    assert_eq!(g.order(), 2);
    assert_eq!(g.starter_phrases(), &vec!["a b".to_string(), "a b".to_string()]);
    let ts = g.transitions_for_phrase(&"a b".to_string()).unwrap();
    assert_eq!(ts, &vec![pair("b c.", "c."), pair("b d.", "d.")]);
    assert!(g.transitions_for_phrase(&"b c.".to_string()).is_none());
    assert_eq!(g.generate_sentence(Always(0)), Ok("a b c.".to_string()));
    assert_eq!(g.generate_sentence(Always(1)), Ok("a b d.".to_string()));
}

#[test]
fn generate_before_build_fails() {
    let g = StringBasedMarkovTextGenerator::new();
    assert_eq!(g.generate_sentence(Always(0)), Err(MarkovError::NoModel));
}

#[test]
fn order_zero_is_rejected() {
    let mut g = StringBasedMarkovTextGenerator::new();
    assert_eq!(g.build_markov_model("a b c.", 0), Err(MarkovError::InvalidBufferSize));
}

#[test]
fn short_sentences_give_no_starters() {
    let mut g = StringBasedMarkovTextGenerator::new();
    let r = g.build_markov_model("a b. c d. e, f!", 3);
    assert_eq!(r, Err(MarkovError::NoStarterPhrases));
    assert!(g.starter_phrases().is_empty());
    assert_eq!(g.generate_sentence(Always(0)), Err(MarkovError::NoModel));
}

#[test]
fn single_windows_give_no_phrases() {
    let mut g = StringBasedMarkovTextGenerator::new();
    assert_eq!(g.build_markov_model("a b. c d.", 2), Err(MarkovError::NoPhrasesFound));
    assert!(g.starter_phrases().is_empty());
}

#[test]
fn starter_without_transitions_is_returned_unchanged() {
    let mut g = StringBasedMarkovTextGenerator::new();
    assert_eq!(g.build_markov_model("a b. c d e.", 2), Ok(()));
    assert_eq!(g.starter_phrases(), &vec!["a b.".to_string(), "c d".to_string()]);
    assert_eq!(g.generate_sentence(Always(0)), Ok("a b.".to_string()));
    assert_eq!(g.generate_sentence(Always(1)), Ok("c d e.".to_string()));
}

#[test]
fn cycle_reaches_word_limit() {
    let mut g = StringBasedMarkovTextGenerator::new();
    assert_eq!(g.build_markov_model("a b a b a b.", 2), Ok(()));
    match g.generate_sentence(Always(0)) {
        Err(MarkovError::WordLimitExceeded { word_count, partial }) => {
            assert_eq!(word_count, 1000);
            assert_eq!(partial.split(' ').count(), 999);
            assert!(partial.starts_with("a b a b"));
        }
        other => panic!("unexpected {:?}", other),
    }
}

#[test]
fn acyclic_walk_ends_before_limit() {
    let mut g = StringBasedMarkovTextGenerator::new();
    assert_eq!(g.build_markov_model("one two three four five six.", 1), Ok(()));
    assert_eq!(
        g.generate_sentence(Always(7)),
        Ok("one two three four five six.".to_string())
    );
}

#[test]
fn build_replaces_earlier_model() {
    let mut g = StringBasedMarkovTextGenerator::new();
    assert_eq!(g.build_markov_model("a b c.", 2), Ok(()));
    assert_eq!(g.build_markov_model("x y z.", 2), Ok(()));
    assert_eq!(g.starter_phrases(), &vec!["x y".to_string()]);
    assert!(g.transitions_for_phrase(&"a b".to_string()).is_none());
}

#[test]
fn annotations_do_not_reach_phrases() {
    let mut g = StringBasedMarkovTextGenerator::new();
    let corpus = "The [1] cat\nsat (quietly) on the_mat.";
    assert_eq!(g.build_markov_model(corpus, 2), Ok(()));
    assert_eq!(g.starter_phrases(), &vec!["The cat".to_string()]);
    assert_eq!(
        g.generate_sentence(Always(0)),
        Ok("The cat sat quietly on themat.".to_string())
    );
}

#[test]
fn build_from_normalized_text() {
    let mut g = StringBasedMarkovTextGenerator::new();
    assert_eq!(g.build_from_normalized("p q r s.", 3), Ok(()));
    assert_eq!(g.starter_phrases(), &vec!["p q r".to_string()]);
    let ts = g.transitions_for_phrase(&"p q r".to_string()).unwrap();
    assert_eq!(ts, &vec![pair("q r s.", "s.")]);
}

#[test]
fn analyze_corpus_uses_current_order() {
    let mut g = StringBasedMarkovTextGenerator::new();
    assert_eq!(g.analyze_corpus("a b c."), Err(MarkovError::InvalidBufferSize));
}

#[test]
fn draws_pick_first_or_last_transition() {
    let mut g = StringBasedMarkovTextGenerator::new();
    assert_eq!(g.build_markov_model("a b c. a b d.", 2), Ok(()));
    assert_eq!(g.generate_sentence_from_draws(&vec![0, 0]), Ok("a b c.".to_string()));
    assert_eq!(g.generate_sentence_from_draws(&vec![1, 1]), Ok("a b d.".to_string()));
    assert_eq!(g.generate_sentence_from_draws(&vec![5, 3]), Ok("a b d.".to_string()));
    assert_eq!(g.generate_sentence_from_draws(&Vec::new()), Ok("a b c.".to_string()));
}

#[test]
fn draws_before_build_fail() {
    let g = StringBasedMarkovTextGenerator::new();
    assert_eq!(g.generate_sentence_from_draws(&vec![0]), Err(MarkovError::NoModel));
}

#[test]
fn draws_through_cycle_reach_limit() {
    let mut g = StringBasedMarkovTextGenerator::new();
    assert_eq!(g.build_markov_model("a b a b a b.", 2), Ok(()));
    match g.generate_sentence_from_draws(&vec![0]) {
        Err(MarkovError::WordLimitExceeded { word_count, partial }) => {
            assert_eq!(word_count, 1000);
            assert_eq!(partial.split(' ').count(), 999);
        }
        other => panic!("unexpected {:?}", other),
    }
    assert_eq!(
        g.generate_sentence_from_draws(&vec![0, 0, 1, 1]),
        Ok("a b a b.".to_string())
    );
}

#[test]
fn single_sentence_without_follower_gives_no_phrases() {
    let mut g = StringBasedMarkovTextGenerator::new();
    assert_eq!(g.build_markov_model("a b.", 2), Err(MarkovError::NoPhrasesFound));
}

#[test]
fn trailing_run_without_terminator_forms_phrases() {
    let mut g = StringBasedMarkovTextGenerator::new();
    assert_eq!(g.build_markov_model("a b c", 2), Ok(()));
    assert_eq!(g.starter_phrases(), &vec!["a b".to_string()]);
    let ts = g.transitions_for_phrase(&"a b".to_string()).unwrap();
    assert_eq!(ts, &vec![pair("b c", "c")]);
}

#[test]
fn abbreviation_ends_a_sentence() {
    let mut g = StringBasedMarkovTextGenerator::new();
    assert_eq!(g.build_markov_model("Mr. Smith went home.", 2), Ok(()));
    assert_eq!(g.starter_phrases(), &vec!["Smith went".to_string()]);
    let ts = g.transitions_for_phrase(&"Smith went".to_string()).unwrap();
    assert_eq!(ts, &vec![pair("went home.", "home.")]);
}

#[test]
fn bracketed_annotation_is_removed() {
    let mut g = StringBasedMarkovTextGenerator::new();
    assert_eq!(g.build_markov_model("x [note 1] y z.", 2), Ok(()));
    assert_eq!(g.starter_phrases(), &vec!["x y".to_string()]);
    let ts = g.transitions_for_phrase(&"x y".to_string()).unwrap();
    assert_eq!(ts, &vec![pair("y z.", "z.")]);
}

#[test]
fn rebuild_matches_fresh_build() {
    let mut g = StringBasedMarkovTextGenerator::new();
    assert_eq!(g.build_markov_model("p q r s. p q t.", 2), Ok(()));
    let mut h = StringBasedMarkovTextGenerator::new();
    let corpus = "a b c. a b d.";
    assert_eq!(g.build_markov_model(corpus, 2), h.build_markov_model(corpus, 2));
    assert_eq!(g.starter_phrases(), h.starter_phrases());
    for p in ["a b", "b c.", "p q", "q r"] {
        let p = p.to_string();
        assert_eq!(g.transitions_for_phrase(&p), h.transitions_for_phrase(&p));
    }
    assert!(g.transitions_for_phrase(&"p q".to_string()).is_none());
}

#[test]
fn order_zero_on_analyze_leaves_empty_model() {
    let mut g = StringBasedMarkovTextGenerator::new();
    assert_eq!(g.analyze_corpus("a b c. d e f."), Err(MarkovError::InvalidBufferSize));
    assert!(g.starter_phrases().is_empty());
}
