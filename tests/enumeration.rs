use mastermind::{CodeIterator, Guess, GuessIterator};

#[test]
fn generate_guess_iterator() {
    let mut iter = GuessIterator::new(3, 4);
    assert_eq!(iter.next(), Some(Guess(vec![0, 0, 0])));
    assert_eq!(iter.next(), Some(Guess(vec![1, 0, 0])));
    assert_eq!(iter.next(), Some(Guess(vec![2, 0, 0])));
    assert_eq!(iter.next(), Some(Guess(vec![3, 0, 0])));
    assert_eq!(iter.next(), Some(Guess(vec![0, 1, 0])));
    assert_eq!(iter.next(), Some(Guess(vec![1, 1, 0])));
    assert_eq!(iter.next(), Some(Guess(vec![2, 1, 0])));
    assert_eq!(iter.next(), Some(Guess(vec![3, 1, 0])));
    iter.skip(55);
    assert_eq!(iter.next(), Some(Guess(vec![3, 3, 3])));
    assert_eq!(iter.next(), None);
}

#[test]
fn generate_code_iterator() {
    let mut iter = CodeIterator::new(3, 4);
    assert_eq!(iter.next(), Some(Guess(vec![2, 1, 0])));
    assert_eq!(iter.next(), Some(Guess(vec![3, 1, 0])));
    assert_eq!(iter.next(), Some(Guess(vec![1, 2, 0])));
    assert_eq!(iter.next(), Some(Guess(vec![3, 2, 0])));
    assert_eq!(iter.next(), Some(Guess(vec![1, 3, 0])));
    assert_eq!(iter.next(), Some(Guess(vec![2, 3, 0])));
    assert_eq!(iter.next(), Some(Guess(vec![2, 0, 1])));
}

fn drain_guesses(mut iter: GuessIterator) -> Vec<Guess> {
    let mut out = Vec::new();
    while let Some(g) = iter.next() {
        out.push(g);
    }
    out
}

fn drain_codes(mut iter: CodeIterator) -> Vec<Guess> {
    let mut out = Vec::new();
    while let Some(g) = iter.next() {
        out.push(g);
    }
    out
}

#[test]
fn sequence_space_yields_each_sequence_once() {
    let all = drain_guesses(GuessIterator::new(3, 4));
    assert_eq!(all.len(), 64);
    for i in 0..all.len() {
        for j in (i + 1)..all.len() {
            assert_ne!(all[i], all[j]);
        }
        assert!(all[i].0.iter().all(|c| *c < 4));
    }
}

#[test]
fn sequence_space_stays_exhausted() {
    let mut iter = GuessIterator::new(2, 2);
    for _ in 0..4 {
        assert!(iter.next().is_some());
    }
    assert_eq!(iter.next(), None);
    assert_eq!(iter.next(), None);
}

#[test]
fn sequence_space_edges() {
    assert_eq!(drain_guesses(GuessIterator::new(0, 5)), vec![Guess(vec![])]);
    assert_eq!(drain_guesses(GuessIterator::new(2, 0)), Vec::<Guess>::new());
    assert_eq!(
        drain_guesses(GuessIterator::new(1, 3)),
        vec![Guess(vec![0]), Guess(vec![1]), Guess(vec![2])]
    );
}

#[test]
fn skip_past_end_exhausts() {
    let mut iter = GuessIterator::new(2, 3);
    iter.skip(100);
    assert_eq!(iter.next(), None);
}

#[test]
fn iteration_from_a_sequence() {
    let start = Guess(vec![3, 2, 0]);
    let mut iter = start.iter(4);
    assert_eq!(iter.next(), Some(Guess(vec![3, 2, 0])));
    assert_eq!(iter.next(), Some(Guess(vec![0, 3, 0])));
}

#[test]
fn code_filter_counts_permutations() {
    let codes = drain_codes(CodeIterator::new(3, 4));
    assert_eq!(codes.len(), 24);
    for g in codes.iter() {
        assert!(g.is_valid_code());
    }
    assert_eq!(drain_codes(CodeIterator::new(4, 6)).len(), 360);
    assert_eq!(drain_codes(CodeIterator::new(5, 4)).len(), 0);
}

#[test]
fn code_filter_includes_single_field_zero() {
    let codes = drain_codes(CodeIterator::new(1, 3));
    assert_eq!(codes, vec![Guess(vec![0]), Guess(vec![1]), Guess(vec![2])]);
}

#[test]
fn code_filter_keeps_sequence_order() {
    let codes = drain_codes(CodeIterator::new(3, 4));
    let all: Vec<Guess> = drain_guesses(GuessIterator::new(3, 4))
        .into_iter()
        .filter(|g| g.is_valid_code())
        .collect();
    assert_eq!(codes, all);
}

#[test]
fn valid_code_detection() {
    assert!(Guess(vec![3, 2, 1, 0, 6, 5]).is_valid_code());
    assert!(!Guess(vec![1, 2, 1]).is_valid_code());
    assert!(Guess(vec![]).is_valid_code());
    assert!(Guess(vec![31, 0]).is_valid_code());
}
