use mastermind::{
    all_codes, all_sequences, evaluate, partition_counts, DummyGuesser, Entry, Evaluation,
    Guess, SimpleGuesser, Universe,
};

fn entry(guess: Vec<u32>, correct_color: u32, exact: u32) -> Entry {
    Entry {
        guess: Guess(guess),
        evaluation: Evaluation {
            correct_color,
            exact,
        },
    }
}

fn guesser(universe: Universe) -> SimpleGuesser {
    SimpleGuesser {
        fields: 3,
        colors: 4,
        universe,
    }
}

#[test]
fn dummy_guesser() {
    let guess = DummyGuesser { fields: 4 }.guess(&[]);
    assert_eq!(guess.0, vec![0, 0, 0, 0]);
}

#[test]
fn dummy_guesser_ignores_history() {
    let history = vec![entry(vec![1, 2, 3, 4], 1, 2), entry(vec![0, 0, 0, 0], 0, 1)];
    let guess = DummyGuesser { fields: 4 }.guess(&history);
    assert_eq!(guess, Guess(vec![0, 0, 0, 0]));
}

#[test]
fn consistency_with_history() {
    let g = guesser(Universe::ValidCodes);
    let history = vec![entry(vec![0, 1, 2], 1, 1)];
    assert!(g.code_is_valid(&history, &Guess(vec![0, 3, 1])));
    assert!(!g.code_is_valid(&history, &Guess(vec![0, 1, 3])));
    assert!(g.code_is_valid(&[], &Guess(vec![0, 1, 3])));
}

#[test]
fn valid_codes_without_history() {
    let g = guesser(Universe::ValidCodes);
    let codes = g.generate_valid_codes(&[]);
    assert_eq!(codes.len(), 24);
    assert_eq!(codes[0], Guess(vec![2, 1, 0]));
}

#[test]
fn valid_codes_shrink_with_history() {
    let g = guesser(Universe::ValidCodes);
    let first = vec![entry(vec![0, 1, 2], 1, 1)];
    let codes = g.generate_valid_codes(&first);
    let expected: Vec<Guess> = vec![
        vec![3, 1, 0],
        vec![0, 3, 1],
        vec![3, 0, 2],
        vec![1, 3, 2],
        vec![2, 1, 3],
        vec![0, 2, 3],
    ]
    .into_iter()
    .map(Guess)
    .collect();
    assert_eq!(codes, expected);
    let mut second = first.clone();
    second.push(entry(vec![3, 1, 0], 3, 0));
    let fewer = g.generate_valid_codes(&second);
    assert_eq!(fewer, vec![Guess(vec![0, 3, 1])]);
    for c in fewer.iter() {
        assert!(codes.contains(c));
    }
}

#[test]
fn contradictory_history_leaves_nothing() {
    let g = guesser(Universe::ValidCodes);
    let history = vec![entry(vec![0, 1, 2], 1, 1), entry(vec![1, 0, 3], 2, 0)];
    assert!(g.generate_valid_codes(&history).is_empty());
    assert_eq!(g.minimax_guess(&history), None);
}

#[test]
fn candidate_lists() {
    assert_eq!(all_sequences(3, 4).len(), 64);
    assert_eq!(all_codes(3, 4).len(), 24);
    assert_eq!(guesser(Universe::AllSequences).candidate_guesses().len(), 64);
    assert_eq!(guesser(Universe::ValidCodes).candidate_guesses().len(), 24);
}

#[test]
fn partition_of_all_codes() {
    let codes = all_codes(3, 4);
    let counts = partition_counts(&codes, &Guess(vec![0, 1, 2]), 3);
    assert_eq!(counts, vec![0, 0, 9, 2, 0, 6, 3, 3, 0, 1]);
}

#[test]
fn partition_table_matches_single_counts() {
    let g = guesser(Universe::ValidCodes);
    let codes = g.generate_valid_codes(&[]);
    let guesses = g.candidate_guesses();
    let table = g.partition_table(&codes, &guesses);
    assert_eq!(table.len(), guesses.len());
    for (row, guess) in table.iter().zip(guesses.iter()) {
        assert_eq!(row, &partition_counts(&codes, guess, 3));
        assert_eq!(row.iter().sum::<usize>(), 24);
    }
}

#[test]
fn minimax_on_empty_history() {
    assert_eq!(
        guesser(Universe::ValidCodes).minimax_guess(&[]),
        Some((Guess(vec![2, 1, 0]), 9))
    );
    assert_eq!(
        guesser(Universe::AllSequences).minimax_guess(&[]),
        Some((Guess(vec![1, 0, 0]), 4))
    );
    let small = SimpleGuesser {
        fields: 2,
        colors: 3,
        universe: Universe::ValidCodes,
    };
    assert_eq!(small.minimax_guess(&[]), Some((Guess(vec![1, 0]), 2)));
}

#[test]
fn minimax_after_one_round() {
    let history = vec![entry(vec![0, 1, 2], 1, 1)];
    assert_eq!(
        guesser(Universe::ValidCodes).minimax_guess(&history),
        Some((Guess(vec![3, 1, 0]), 2))
    );
    assert_eq!(
        guesser(Universe::AllSequences).minimax_guess(&history),
        Some((Guess(vec![3, 1, 0]), 1))
    );
}

#[test]
fn minimax_commits_to_the_last_code() {
    let history = vec![entry(vec![0, 1, 2], 1, 1), entry(vec![3, 1, 0], 3, 0)];
    assert_eq!(
        guesser(Universe::ValidCodes).minimax_guess(&history),
        Some((Guess(vec![0, 3, 1]), 1))
    );
}

#[test]
fn minimax_game_finds_secret() {
    let g = guesser(Universe::ValidCodes);
    let secret = Guess(vec![1, 3, 2]);
    let mut history: Vec<Entry> = Vec::new();
    for _ in 0..10 {
        let (guess, _) = g.minimax_guess(&history).unwrap();
        let evaluation = evaluate(&secret, &guess);
        if guess == secret {
            return;
        }
        history.push(Entry { guess, evaluation });
    }
    panic!("secret not found");
}
