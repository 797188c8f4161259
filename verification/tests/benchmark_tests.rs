use shabti::benchmark::{match_answer, AnswerMatch};

fn score(actual: &str, expected: &str) -> f32 {
    match match_answer(actual, expected) {
        AnswerMatch::Exact => 1.0,
        AnswerMatch::Contains { expected_bytes, actual_bytes } => expected_bytes as f32 / actual_bytes as f32,
        AnswerMatch::Miss => 0.0,
    }
}

#[test]
fn benchmark_runner_evaluate_exact_match() {
    assert!((score("Paris", "Paris") - 1.0).abs() < f32::EPSILON);

    assert!((score("paris", "Paris") - 1.0).abs() < f32::EPSILON);

    let s = score("The capital is Paris", "Paris");
    assert!(s > 0.0);
    assert!(s < 1.0);

    assert!((score("London", "Paris")).abs() < f32::EPSILON);
}

#[test]
fn answer_match_reports_lowercased_byte_lengths() {
    assert_eq!(
        match_answer("The capital is Paris", "PARIS"),
        AnswerMatch::Contains { expected_bytes: 5, actual_bytes: 20 }
    );
    assert_eq!(match_answer("ÉTÉ", "été"), AnswerMatch::Exact);
    assert_eq!(
        match_answer("un été chaud", "ÉTÉ"),
        AnswerMatch::Contains { expected_bytes: 5, actual_bytes: 14 }
    );
    assert_eq!(match_answer("abc", ""), AnswerMatch::Contains { expected_bytes: 0, actual_bytes: 3 });
    assert_eq!(match_answer("ab", "abc"), AnswerMatch::Miss);
}
