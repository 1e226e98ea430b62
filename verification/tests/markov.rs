use markov_text::generator::MarkovGenerator;
use markov_text::MarkovError;

fn toks(words: &[&str]) -> Vec<String> {
    words.iter().map(|w| w.to_string()).collect()
}

fn s(w: &str) -> String {
    w.to_string()
}

#[test]
fn train_records_exact_counts() {
    let mut g: MarkovGenerator<String> = MarkovGenerator::with_seed(1);
    let input = toks(&["a", "b", "a", "c", "a", "b"]);
    assert_eq!(g.process_all(&input), Ok(()));
    assert!(g.contains_state(&s("a")));
    assert!(g.contains_state(&s("b")));
    assert!(g.contains_state(&s("c")));
    assert!(!g.contains_state(&s("d")));
    assert_eq!(g.state_count(), 3);
    assert_eq!(g.transition_count(&s("a"), &s("b")), 2);
    assert_eq!(g.transition_count(&s("a"), &s("c")), 1);
    assert_eq!(g.transition_count(&s("b"), &s("a")), 1);
    assert_eq!(g.transition_count(&s("c"), &s("a")), 1);
    assert_eq!(g.transition_count(&s("a"), &s("a")), 0);
    assert_eq!(g.successor_count(&s("a")), 2);
    assert_eq!(g.successor_count(&s("b")), 1);
    assert_eq!(g.successor_count(&s("c")), 1);
    assert_eq!(g.total_transitions(), 5);
}

#[test]
fn generation_stays_within_trained_states() {
    for seed in 0..20u64 {
        let mut g: MarkovGenerator<String> = MarkovGenerator::with_seed(seed);
        let input = toks(&["a", "b", "a", "c", "a", "b"]);
        assert_eq!(g.process_all(&input), Ok(()));
        let out = g.generate(4).unwrap();
        assert_eq!(out.len(), 4);
        for w in &out {
            assert!(w == "a" || w == "b" || w == "c");
        }
    }
}

#[test]
fn every_training_token_becomes_a_state() {
    let mut g: MarkovGenerator<String> = MarkovGenerator::with_seed(3);
    let input = toks(&["u", "v", "w", "v", "z"]);
    assert_eq!(g.process_all(&input), Ok(()));
    for w in &input {
        assert!(g.contains_state(w));
    }
}

#[test]
fn total_transitions_is_length_minus_one() {
    let cases: Vec<Vec<String>> = vec![
        toks(&["x"]),
        toks(&["x", "y"]),
        toks(&["a", "b", "a", "c", "a", "b"]),
        toks(&["r", "r", "r", "r", "r", "r", "r"]),
    ];
    for input in cases {
        let mut g: MarkovGenerator<String> = MarkovGenerator::with_seed(5);
        assert_eq!(g.process_all(&input), Ok(()));
        assert_eq!(g.total_transitions() as usize, input.len() - 1);
    }
}

#[test]
fn total_transitions_accumulates_over_passes() {
    let mut g: MarkovGenerator<String> = MarkovGenerator::with_seed(5);
    assert_eq!(g.process_all(&toks(&["a", "b"])), Ok(()));
    assert_eq!(g.process_all(&toks(&["b", "c"])), Ok(()));
    assert_eq!(g.total_transitions(), 2);
    assert_eq!(g.transition_count(&s("a"), &s("b")), 1);
    assert_eq!(g.transition_count(&s("b"), &s("c")), 1);
}

#[test]
fn single_repeated_token_always_steps_to_itself() {
    let mut g: MarkovGenerator<String> = MarkovGenerator::with_seed(11);
    let input = toks(&["x", "x", "x", "x", "x"]);
    assert_eq!(g.process_all(&input), Ok(()));
    assert_eq!(g.transition_count(&s("x"), &s("x")), 4);
    for _ in 0..50 {
        assert_eq!(g.get(&s("x")), Ok(s("x")));
    }
}

#[test]
fn start_samples_are_states_and_roughly_uniform() {
    let mut g: MarkovGenerator<String> = MarkovGenerator::with_seed(17);
    let input = toks(&["a", "b", "c", "a"]);
    assert_eq!(g.process_all(&input), Ok(()));
    let mut counts = [0usize; 3];
    let trials = 3000;
    for _ in 0..trials {
        let w = g.get_random().unwrap();
        assert!(g.contains_state(&w));
        match w.as_str() {
            "a" => counts[0] += 1,
            "b" => counts[1] += 1,
            "c" => counts[2] += 1,
            _ => panic!("sampled a value outside the state set"),
        }
    }
    for c in counts {
        // each state should be near a third of the draws
        assert!(c > trials / 5, "state drawn too rarely: {}", c);
        assert!(c < trials / 2, "state drawn too often: {}", c);
    }
}

#[test]
fn single_recorded_successor_is_always_returned() {
    let mut g: MarkovGenerator<String> = MarkovGenerator::with_seed(23);
    let input = toks(&["p", "q", "p", "q", "p"]);
    assert_eq!(g.process_all(&input), Ok(()));
    for _ in 0..50 {
        assert_eq!(g.get(&s("p")), Ok(s("q")));
        assert_eq!(g.get(&s("q")), Ok(s("p")));
    }
}

#[test]
fn unknown_state_is_reported() {
    let mut g: MarkovGenerator<String> = MarkovGenerator::with_seed(29);
    assert_eq!(g.get(&s("anything")), Err(MarkovError::UnknownState));
    assert_eq!(g.process_all(&toks(&["a", "b"])), Ok(()));
    assert_eq!(g.get(&s("zzz")), Err(MarkovError::UnknownState));
}

#[test]
fn single_token_training_makes_a_dead_end() {
    let mut g: MarkovGenerator<String> = MarkovGenerator::with_seed(31);
    assert_eq!(g.process_all(&toks(&["x"])), Ok(()));
    assert_eq!(g.total_transitions(), 0);
    assert!(g.contains_state(&s("x")));
    assert_eq!(g.successor_count(&s("x")), 0);
    assert_eq!(g.get(&s("x")), Err(MarkovError::DeadEnd));
}

#[test]
fn empty_input_is_rejected() {
    let mut g: MarkovGenerator<String> = MarkovGenerator::with_seed(37);
    let empty: Vec<String> = Vec::new();
    assert_eq!(g.process_all(&empty), Err(MarkovError::EmptyInput));
    assert_eq!(g.state_count(), 0);
    assert_eq!(g.total_transitions(), 0);
}

#[test]
fn empty_model_cannot_be_sampled() {
    let mut g: MarkovGenerator<String> = MarkovGenerator::with_seed(41);
    assert_eq!(g.get_random(), Err(MarkovError::EmptyModel));
    assert_eq!(g.generate(3), Err(MarkovError::EmptyModel));
}

#[test]
fn zero_tokens_requested_gives_empty_output() {
    let mut g: MarkovGenerator<String> = MarkovGenerator::with_seed(43);
    assert_eq!(g.generate(0), Ok(Vec::new()));
    assert_eq!(g.process_all(&toks(&["a", "b"])), Ok(()));
    assert_eq!(g.generate(0), Ok(Vec::new()));
}

#[test]
fn generation_passes_dead_ends_by_restarting() {
    // "b" is a dead end; a long walk must restart there and still emit
    // exactly the requested number of tokens.
    for seed in 0..10u64 {
        let mut g: MarkovGenerator<String> = MarkovGenerator::with_seed(seed);
        assert_eq!(g.process_all(&toks(&["a", "b"])), Ok(()));
        let out = g.generate(25).unwrap();
        assert_eq!(out.len(), 25);
        for w in &out {
            assert!(w == "a" || w == "b");
        }
        // "a" has exactly one successor, so it must always step to "b";
        // only the dead end "b" restarts freely
        for pair in out.windows(2) {
            if pair[0] == "a" {
                assert_eq!(pair[1], "b");
            }
        }
    }
}

#[test]
fn walks_follow_recorded_transitions() {
    // every state has exactly one successor, so the walk is forced into
    // the cycle a -> b -> c -> a
    for seed in 0..10u64 {
        let mut g: MarkovGenerator<String> = MarkovGenerator::with_seed(seed);
        assert_eq!(g.process_all(&toks(&["a", "b", "c", "a"])), Ok(()));
        let out = g.generate(9).unwrap();
        assert_eq!(out.len(), 9);
        for pair in out.windows(2) {
            match pair[0].as_str() {
                "a" => assert_eq!(pair[1], "b"),
                "b" => assert_eq!(pair[1], "c"),
                "c" => assert_eq!(pair[1], "a"),
                other => panic!("unexpected token {}", other),
            }
        }
    }
}

#[test]
fn same_seed_generates_the_same_walk() {
    let input = toks(&["a", "b", "a", "c", "a", "b"]);
    let mut g1: MarkovGenerator<String> = MarkovGenerator::with_seed(7);
    let mut g2: MarkovGenerator<String> = MarkovGenerator::with_seed(7);
    assert_eq!(g1.process_all(&input), Ok(()));
    assert_eq!(g2.process_all(&input), Ok(()));
    assert_eq!(g1.generate(20).unwrap(), g2.generate(20).unwrap());
}

#[test]
fn render_lists_states_and_counts() {
    let mut g: MarkovGenerator<String> = MarkovGenerator::with_seed(47);
    assert_eq!(g.process_all(&toks(&["a", "b"])), Ok(()));
    let text = g.render();
    assert_eq!(
        text,
        "MarkovGenerator: {\n  \"a\" => {\n    \"b\" : 1,\n  },\n  \"b\" => {\n  },\n}"
    );
}

#[test]
fn render_writes_counts_in_decimal() {
    let mut g: MarkovGenerator<String> = MarkovGenerator::with_seed(53);
    let input: Vec<String> = std::iter::repeat(s("a")).take(13).collect();
    assert_eq!(g.process_all(&input), Ok(()));
    let text = g.render();
    assert_eq!(text, "MarkovGenerator: {\n  \"a\" => {\n    \"a\" : 12,\n  },\n}");
}

#[test]
fn integer_tokens_are_supported() {
    let mut g: MarkovGenerator<u64> = MarkovGenerator::with_seed(59);
    let input: Vec<u64> = vec![1, 2, 1, 3];
    assert_eq!(g.process_all(&input), Ok(()));
    assert!(g.contains_state(&1));
    assert!(g.contains_state(&2));
    assert!(g.contains_state(&3));
    assert_eq!(g.transition_count(&1, &2), 1);
    assert_eq!(g.transition_count(&2, &1), 1);
    assert_eq!(g.transition_count(&1, &3), 1);
    assert_eq!(g.total_transitions(), 3);
    assert_eq!(g.get(&2), Ok(1));
}

#[test]
fn fresh_generator_has_an_empty_model() {
    let g: MarkovGenerator<String> = MarkovGenerator::new();
    assert_eq!(g.state_count(), 0);
    assert_eq!(g.total_transitions(), 0);
    assert!(!g.contains_state(&s("a")));
}
