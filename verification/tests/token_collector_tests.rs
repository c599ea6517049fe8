use riff::constants::{inverse_video_str, new_color_str, normal_str, old_color_str};
use riff::token_collector::{
    highlight_nonleading_tab, highlight_space_between_words, highlight_trailing_whitespace, Style,
    StyledToken, TokenCollector,
};

#[test]
fn test_basic() {
    let mut test_me = TokenCollector::create(StyledToken::new("+".to_string(), Style::New));

    test_me.push(StyledToken::new("hej".to_string(), Style::New));

    test_me.push(StyledToken::new("\n".to_string(), Style::New));

    let rendered = test_me.render();
    assert_eq!(rendered, format!("{}+hej{}\n", new_color_str(), normal_str()));
}

#[test]
fn test_add_trailing_whitespace() {
    // Just a whitespace
    let mut row = vec![StyledToken::new(" ".to_string(), Style::New)];
    highlight_trailing_whitespace(&mut row);
    assert_eq!(row, vec![StyledToken::new(" ".to_string(), Style::Error)]);

    // Trailing whitespace
    let mut row = vec![
        StyledToken::new("x".to_string(), Style::New),
        StyledToken::new(" ".to_string(), Style::New),
    ];
    highlight_trailing_whitespace(&mut row);
    assert_eq!(
        row,
        vec![
            StyledToken::new("x".to_string(), Style::New),
            StyledToken::new(" ".to_string(), Style::Error),
        ]
    );

    // Leading whitespace
    let mut row = vec![
        StyledToken::new(" ".to_string(), Style::New),
        StyledToken::new("x".to_string(), Style::New),
    ];
    highlight_trailing_whitespace(&mut row);
    assert_eq!(
        row,
        vec![
            StyledToken::new(" ".to_string(), Style::New),
            StyledToken::new("x".to_string(), Style::New),
        ]
    );
}

#[test]
fn test_removed_trailing_whitespace() {
    // It shouldn't be highlighted, just added ones should
    let mut test_me = TokenCollector::create(StyledToken::new("-".to_string(), Style::Old));
    test_me.push(StyledToken::new(" ".to_string(), Style::Old));
    let actual = test_me.render();

    assert_eq!(actual, format!("{}- {}", old_color_str(), normal_str()));
}

#[test]
fn test_add_nonleading_tab() {
    // Trailing TAB
    let mut row = vec![
        StyledToken::new("x".to_string(), Style::New),
        StyledToken::new("\t".to_string(), Style::New),
    ];
    highlight_nonleading_tab(&mut row);
    assert_eq!(
        row,
        vec![
            StyledToken::new("x".to_string(), Style::New),
            StyledToken::new("\t".to_string(), Style::Error),
        ]
    );

    // Middle TAB
    let mut row = vec![
        StyledToken::new("x".to_string(), Style::New),
        StyledToken::new("\t".to_string(), Style::New),
        StyledToken::new("y".to_string(), Style::New),
    ];
    highlight_nonleading_tab(&mut row);
    assert_eq!(
        row,
        vec![
            StyledToken::new("x".to_string(), Style::New),
            StyledToken::new("\t".to_string(), Style::Error),
            StyledToken::new("y".to_string(), Style::New),
        ]
    );

    // Leading TAB (don't highlight)
    let mut row = vec![
        StyledToken::new("\t".to_string(), Style::New),
        StyledToken::new("x".to_string(), Style::New),
    ];
    highlight_nonleading_tab(&mut row);
    assert_eq!(
        row,
        vec![
            StyledToken::new("\t".to_string(), Style::New),
            StyledToken::new("x".to_string(), Style::New),
        ]
    );

    // Single TAB (don't highlight because it is leading)
    let mut row = vec![StyledToken::new("\t".to_string(), Style::New)];
    highlight_nonleading_tab(&mut row);
    assert_eq!(row, vec![StyledToken::new("\t".to_string(), Style::New)]);
}

#[test]
fn test_removed_nonleading_tab() {
    // It shouldn't be highlighted, just added ones should
    let mut test_me = TokenCollector::create(StyledToken::new("-".to_string(), Style::Old));
    test_me.push(StyledToken::new("x".to_string(), Style::Old));
    test_me.push(StyledToken::new("\t".to_string(), Style::Old));
    let actual = test_me.render();

    assert_eq!(actual, format!("{}-x\t{}", old_color_str(), normal_str()));
}

#[test]
fn test_highlight_space_between_words() {
    let mut row = vec![
        StyledToken::new("Monkey".to_string(), Style::NewInverse),
        StyledToken::new(" ".to_string(), Style::New),
        StyledToken::new("Dance".to_string(), Style::NewInverse),
    ];

    highlight_space_between_words(&mut row);

    assert_eq!(
        row,
        vec![
            StyledToken::new("Monkey".to_string(), Style::NewInverse),
            StyledToken::new(" ".to_string(), Style::NewInverse),
            StyledToken::new("Dance".to_string(), Style::NewInverse),
        ]
    );
}

#[test]
fn test_render_counts() {
    let mut test_me = TokenCollector::create(StyledToken::new("+".to_string(), Style::New));
    test_me.push(StyledToken::new("hej".to_string(), Style::New));
    test_me.push(StyledToken::new("!".to_string(), Style::NewInverse));
    test_me.push(StyledToken::new("\n".to_string(), Style::New));
    let _ = test_me.render();
    assert_eq!(test_me.chars_count(), 5);
    assert_eq!(test_me.highlighted_chars_count(), 1);
}

#[test]
fn test_render_word_join() {
    // Two highlighted words with a space between render as one highlighted
    // phrase: the space comes out inverse too.
    let mut test_me = TokenCollector::create(StyledToken::new("+".to_string(), Style::New));
    test_me.push(StyledToken::new("Monkey".to_string(), Style::NewInverse));
    test_me.push(StyledToken::new(" ".to_string(), Style::New));
    test_me.push(StyledToken::new("Dance".to_string(), Style::NewInverse));
    test_me.push(StyledToken::new("\n".to_string(), Style::New));
    let rendered = test_me.render();
    assert_eq!(
        rendered,
        format!("{}+{}Monkey Dance{}\n", new_color_str(), inverse_video_str(), normal_str())
    );
}
