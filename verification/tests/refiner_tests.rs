use riff::constants::{
    error_color_str, inverse_video_str, new_color_str, no_eof_newline_color_str,
    no_eof_newline_marker_str, normal_str, not_inverse_video_str, old_color_str,
};
use riff::refiner::{simple_format, to_highlighted_tokens};
use riff::token_collector::Style;
use riff::tokenizer::tokenize;

fn simple_format_merged(old_text: &str, new_text: &str) -> Vec<String> {
    let (old_lines, new_lines) = simple_format(old_text, new_text);

    return riff::refiner::concat(old_lines, new_lines);
}

#[test]
fn test_simple_format_adds_and_removes() {
    let empty: Vec<String> = Vec::new();
    assert_eq!(simple_format_merged(&"".to_string(), &"".to_string()), empty);

    // Test adds-only
    assert_eq!(
        simple_format_merged(&"".to_string(), &"a\n".to_string()),
        ["".to_string() + new_color_str() + "+a" + normal_str()]
    );
    assert_eq!(
        simple_format_merged(&"".to_string(), &"a\nb\n".to_string()),
        [
            "".to_string() + new_color_str() + "+a" + normal_str(),
            "".to_string() + new_color_str() + "+b" + normal_str(),
        ]
    );

    // Test removes-only
    assert_eq!(
        simple_format_merged(&"a\n".to_string(), &"".to_string()),
        ["".to_string() + old_color_str() + "-a" + normal_str()]
    );
    assert_eq!(
        simple_format_merged(&"a\nb\n".to_string(), &"".to_string()),
        [
            "".to_string() + old_color_str() + "-a" + normal_str(),
            "".to_string() + old_color_str() + "-b" + normal_str(),
        ]
    );
}

#[test]
fn test_quote_change() {
    let result = riff::refiner::format(&"<quotes>\n".to_string(), &"[quotes]\n".to_string());
    assert_eq!(
        result,
        [
            format!(
                "{}-{}<{}quotes{}>{}",
                old_color_str(),
                inverse_video_str(),
                not_inverse_video_str(),
                inverse_video_str(),
                normal_str()
            ),
            format!(
                "{}+{}[{}quotes{}]{}",
                new_color_str(),
                inverse_video_str(),
                not_inverse_video_str(),
                inverse_video_str(),
                normal_str()
            ),
        ]
    )
}

#[test]
fn test_almost_empty_changes() {
    let result = riff::refiner::format(&"x\n".to_string(), &"".to_string());
    assert_eq!(result, [format!("{}-x{}", old_color_str(), normal_str()),]);

    let result = riff::refiner::format(&"".to_string(), &"x\n".to_string());
    assert_eq!(result, [format!("{}+x{}", new_color_str(), normal_str()),]);
}

#[test]
fn test_simple_format_no_trailing_newline() {
    // A side that does not end in a newline gets the dim synthesized marker
    // line appended.
    let result = riff::refiner::format("x", "");
    assert_eq!(
        result,
        [
            format!("{}-x{}", old_color_str(), normal_str()),
            format!(
                "{}{}{}",
                no_eof_newline_color_str(),
                no_eof_newline_marker_str(),
                normal_str()
            ),
        ]
    );
}

#[test]
fn test_tokenize_words_and_punctuation() {
    let tokens = tokenize("hi, there\n");
    assert_eq!(tokens, vec!["hi", ",", " ", "there", "\n"]);

    // The tokens always concatenate back to the input.
    assert_eq!(tokenize("a+b").concat(), "a+b");
    let empty: Vec<String> = Vec::new();
    assert_eq!(tokenize(""), empty);
}

#[test]
fn test_copy_count_symmetry() {
    // One word changed: both sides receive the same three copied tokens
    // ("a", the space and the newline) at their base style.
    let (old_tokens, new_tokens) = to_highlighted_tokens("a b\n", "a c\n");
    let old_copies = old_tokens.iter().filter(|t| t.style() == Style::Old).count();
    let new_copies = new_tokens.iter().filter(|t| t.style() == Style::New).count();
    assert_eq!(old_copies, 3);
    assert_eq!(new_copies, 3);
    assert_eq!(
        old_tokens.iter().filter(|t| t.style() == Style::OldInverse).count(),
        1
    );
    assert_eq!(
        new_tokens.iter().filter(|t| t.style() == Style::NewInverse).count(),
        1
    );
}

#[test]
fn test_suppression_threshold() {
    // Both lines changed entirely: each run touches two line boundaries, so
    // word-level highlighting is suppressed and no inverse escape appears.
    let result = riff::refiner::format("a\nb\n", "x\ny\n");
    for line in &result {
        assert!(!line.contains(inverse_video_str()));
    }
    assert_eq!(
        result,
        [
            format!("{}-a{}", old_color_str(), normal_str()),
            format!("{}-b{}", old_color_str(), normal_str()),
            format!("{}+x{}", new_color_str(), normal_str()),
            format!("{}+y{}", new_color_str(), normal_str()),
        ]
    );

    // A change inside one line touches at most one boundary and keeps its
    // inverse highlighting.
    let result = riff::refiner::format("a b\n", "a c\n");
    assert!(result[0].contains(inverse_video_str()));
    assert!(result[1].contains(inverse_video_str()));
}

#[test]
fn test_added_trailing_whitespace_renders_error() {
    // On the added side, trailing whitespace renders in the error color
    // (red), still inverse-marked as an insertion.
    let result = riff::refiner::format("x\n", "x \n");
    assert_eq!(
        result,
        [
            format!("{}-x{}", old_color_str(), normal_str()),
            format!(
                "{}+x{}{} {}",
                new_color_str(),
                inverse_video_str(),
                error_color_str(),
                normal_str()
            ),
        ]
    );
}

#[test]
fn test_added_nonleading_tab_renders_error() {
    // An added tab after other content renders in the error color.
    let result = riff::refiner::format("x\n", "x\t\n");
    assert_eq!(
        result,
        [
            format!("{}-x{}", old_color_str(), normal_str()),
            format!(
                "{}+x{}{}\t{}",
                new_color_str(),
                inverse_video_str(),
                error_color_str(),
                normal_str()
            ),
        ]
    );
}

#[test]
fn test_added_leading_tab_keeps_base_color() {
    // A leading tab on the added side is not an error: it renders inverse
    // (it was inserted) but keeps the added-side green.
    let result = riff::refiner::format("x\n", "\tx\n");
    assert_eq!(
        result,
        [
            format!("{}-x{}", old_color_str(), normal_str()),
            format!(
                "{}+{}\t{}x{}",
                new_color_str(),
                inverse_video_str(),
                not_inverse_video_str(),
                normal_str()
            ),
        ]
    );
}
