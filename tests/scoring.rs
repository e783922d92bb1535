use mastermind::{evaluate, max_gauss, ColorBitmask, Evaluation, Guess, NUM_COLORS, NUM_FIELDS};

fn eval(correct_color: u32, exact: u32) -> Evaluation {
    Evaluation { correct_color, exact }
}

#[test]
fn evaluate_guess() {
    let code = Guess(vec![1, 2, 3, 4]);
    let guess = Guess(vec![1, 3, 3, 5]);
    let result = evaluate(&code, &guess);
    assert_eq!(
        result,
        Evaluation {
            correct_color: 1,
            exact: 2
        }
    );
}

#[test]
fn evaluate_guess_six_element_guess() {
    let code = Guess(vec![1, 2, 3, 4, 6, 7]);
    let guess = Guess(vec![1, 3, 6, 6, 6, 5]);
    let result = evaluate(&code, &guess);
    assert_eq!(
        result,
        Evaluation {
            correct_color: 3,
            exact: 2
        }
    );
}

#[test]
fn test_color_bitmask() {
    assert!(NUM_COLORS as usize <= std::mem::size_of::<ColorBitmask>() * 8);
}

#[test]
fn test_color_fields() {
    assert!(NUM_COLORS >= NUM_FIELDS);
}

// Ranks group the evaluations by exact count, in blocks of `fields - exact + 1`
// ordered by color count; the all-exact evaluation takes the last index.

#[test]
fn evaluation_to_u32_one_zero() {
    let evaluation = eval(1, 0);
    assert_eq!(evaluation.to_u32(3), 1);
}

#[test]
fn evaluation_to_u32_zero_zero() {
    let evaluation = eval(0, 0);
    assert_eq!(evaluation.to_u32(3), 0);
}

#[test]
fn evaluation_to_u32_zero_one() {
    let evaluation = eval(0, 1);
    assert_eq!(evaluation.to_u32(3), 4);
}

#[test]
fn evaluation_to_u32_one_two() {
    let evaluation = eval(1, 2);
    assert_eq!(evaluation.to_u32(3), 8);
}

#[test]
fn evaluation_to_u32_two_one() {
    let evaluation = eval(2, 1);
    assert_eq!(evaluation.to_u32(3), 6);
}

#[test]
fn evaluation_to_u32_three_zero() {
    let evaluation = eval(3, 0);
    assert_eq!(evaluation.to_u32(3), 3);
}

#[test]
fn evaluation_to_u32_four_fields_one_three() {
    let evaluation = eval(1, 3);
    assert_eq!(evaluation.to_u32(4), 13);
}

#[test]
fn all_exact_takes_last_rank() {
    for fields in 0..8u32 {
        let last = max_gauss(fields as usize) as u32 - 1;
        assert_eq!(eval(0, fields).to_u32(fields), last);
    }
}

#[test]
fn ranks_cover_range_once() {
    for fields in 0..7u32 {
        let size = max_gauss(fields as usize);
        let mut seen = vec![false; size];
        for exact in 0..=fields {
            for correct_color in 0..=(fields - exact) {
                let r = eval(correct_color, exact).to_u32(fields) as usize;
                assert!(r < size);
                assert!(!seen[r]);
                seen[r] = true;
            }
        }
        assert!(seen.iter().all(|s| *s));
    }
}

#[test]
fn max_gauss_values() {
    assert_eq!(max_gauss(0), 1);
    assert_eq!(max_gauss(3), 10);
    assert_eq!(max_gauss(4), 15);
    assert_eq!(max_gauss(6), 28);
}

#[test]
fn evaluate_self_is_all_exact() {
    let code = Guess(vec![3, 2, 1, 0, 6, 5]);
    assert_eq!(evaluate(&code, &code), eval(0, 6));
    let empty = Guess(vec![]);
    assert_eq!(evaluate(&empty, &empty), eval(0, 0));
}

#[test]
fn evaluate_counts_agreeing_positions() {
    let code = Guess(vec![0, 1, 2, 3]);
    let guess = Guess(vec![0, 5, 2, 7]);
    assert_eq!(evaluate(&code, &guess).exact, 2);
    let code = Guess(vec![3, 2, 1, 0]);
    let guess = Guess(vec![0, 1, 2, 3]);
    assert_eq!(evaluate(&code, &guess), eval(4, 0));
}

#[test]
fn evaluate_credits_repeated_guess_color_per_position() {
    let code = Guess(vec![0, 1, 2, 3]);
    let guess = Guess(vec![0, 0, 0, 0]);
    assert_eq!(evaluate(&code, &guess), eval(3, 1));
}

#[test]
fn evaluate_uses_top_mask_color() {
    let code = Guess(vec![31, 0]);
    let guess = Guess(vec![0, 31]);
    assert_eq!(evaluate(&code, &guess), eval(2, 0));
}
