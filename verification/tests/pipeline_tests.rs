use riff::constants::{
    bold_str, faint_str, hunk_header_color_str, inverse_video_str, new_color_str,
    newline_glyph_str, no_eof_newline_color_str, normal_str, old_color_str,
};
use riff::line_collector::highlight_lines;

fn old_line(text: &str) -> String {
    return format!("{}{}{}", old_color_str(), text, normal_str());
}

fn new_line(text: &str) -> String {
    return format!("{}{}{}", new_color_str(), text, normal_str());
}

fn lines_of(text: &str) -> Vec<String> {
    text.lines().map(|l| l.to_string()).collect()
}

#[test]
fn test_remove_trailing_newline() {
    let input = lines_of(
        "-hej\n\
         +hej\n\
         \\ No newline at end of file\n",
    );

    let expected = format!(
        "{}\n{}\n{}\n",
        old_line(&format!("-hej{}{}", inverse_video_str(), newline_glyph_str())),
        new_line("+hej"),
        format!(
            "{}\\ No newline at end of file{}",
            no_eof_newline_color_str(),
            normal_str()
        )
    );

    let output = highlight_lines(&input).unwrap();
    assert_eq!(output, expected);
}

#[test]
fn test_trailing_newline_context() {
    let input = lines_of("+bepa\n apa\n\\ No newline at end of file\n");

    let expected = format!(
        "{}\n{}\n{}\n",
        new_line("+bepa"),
        " apa",
        format!(
            "{}\\ No newline at end of file{}",
            no_eof_newline_color_str(),
            normal_str()
        )
    );

    let output = highlight_lines(&input).unwrap();
    assert_eq!(output, expected);
}

#[test]
fn test_captured_marker_wording() {
    // The marker wording is captured from the input and reused for the
    // synthesized line, whatever its language.
    let input = lines_of("-hej\n+hej\n\\ Pas de saut de ligne en fin de fichier\n");

    let expected = format!(
        "{}\n{}\n{}\n",
        old_line(&format!("-hej{}{}", inverse_video_str(), newline_glyph_str())),
        new_line("+hej"),
        format!(
            "{}\\ Pas de saut de ligne en fin de fichier{}",
            no_eof_newline_color_str(),
            normal_str()
        )
    );

    let output = highlight_lines(&input).unwrap();
    assert_eq!(output, expected);
}

#[test]
fn test_block_order_is_input_order() {
    // Interleaved plain and diff blocks come out in exactly the order they
    // went in, however the diff blocks are rendered.
    let input = lines_of("context one\n-a\n+x\ncontext two\n-b\n+y\ncontext three\n");
    let expected = format!(
        "context one\n{}\n{}\ncontext two\n{}\n{}\ncontext three\n",
        old_line("-a"),
        new_line("+x"),
        old_line("-b"),
        new_line("+y"),
    );
    let output = highlight_lines(&input).unwrap();
    assert_eq!(output, expected);
}

#[test]
fn test_hunk_header_function_name() {
    let input = lines_of("@@ -1,2 +3,4 @@ fn main\n");
    let expected = format!(
        "{}{}@@ -1,2 +3,4 @@ {}fn main{}\n",
        hunk_header_color_str(),
        faint_str(),
        bold_str(),
        normal_str()
    );
    let output = highlight_lines(&input).unwrap();
    assert_eq!(output, expected);
}

#[test]
fn test_fixed_header_lines() {
    let input = lines_of("diff --git a/x b/x\nindex 1234..5678 100644\n");
    let expected = format!(
        "{}diff --git a/x b/x{}\n{}index 1234..5678 100644{}\n",
        faint_str(),
        normal_str(),
        faint_str(),
        normal_str()
    );
    let output = highlight_lines(&input).unwrap();
    assert_eq!(output, expected);
}

#[test]
fn test_dev_null_header_pair() {
    let input = lines_of("--- /dev/null\n+++ b/new.txt\n");
    let expected = format!(
        "{}--- /dev/null{}\n{}+++ b/new.txt{}\n",
        faint_str(),
        normal_str(),
        bold_str(),
        normal_str()
    );
    let output = highlight_lines(&input).unwrap();
    assert_eq!(output, expected);
}

#[test]
fn test_unpaired_plusplus_header_is_dropped() {
    // A +++ header with no preceding --- header produces no output.
    let input = lines_of("+++ b/x.txt\n");
    let output = highlight_lines(&input).unwrap();
    assert_eq!(output, "");
}

#[test]
fn test_marker_after_bare_header_is_refused() {
    // A marker line arriving while the popped buffer does not end in a
    // newline breaks the accumulator's invariant and is refused.
    let input = lines_of("--- a/x\n\\ No newline at end of file\n");
    assert!(highlight_lines(&input).is_none());
}
