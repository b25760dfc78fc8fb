use quickfind::tui::app::{editor_candidates, App, Effect, Focus, Key, KeyCode};
use quickfind::tui::color::{parse_color, Color};
use quickfind::tui::highlight::{char_boundaries, create_highlighted_spans};
use quickfind::tui::input::{
    copy_selection_to_clipboard, current_selection_range, cut_selection_to_clipboard,
    delete_previous_word, delete_selection_if_any, next_word_boundary, paste_from_clipboard,
    previous_word_boundary, type_char, InputLine,
};
use quickfind::tui::screen::{highlight_color, ui};
use quickfind::tui::span::{create_input_spans, Span, SpanStyle};

fn line(text: &str, cursor: usize, anchor: Option<usize>) -> InputLine {
    InputLine { text: text.to_string(), cursor, anchor }
}

fn plain(code: KeyCode) -> Key {
    Key { code, shift: false, control: false, alt: false }
}

fn shift(code: KeyCode) -> Key {
    Key { code, shift: true, control: false, alt: false }
}

fn control(code: KeyCode) -> Key {
    Key { code, shift: false, control: true, alt: false }
}

fn press(app: &mut App, key: Key) -> Effect {
    assert!(app.can_handle(key));
    app.handle_key(key)
}

fn type_text(app: &mut App, text: &str) {
    for c in text.chars() {
        match press(app, plain(KeyCode::Char(c))) {
            Effect::Search { term, entered: false } => assert_eq!(term, app.line.text),
            _ => panic!("typing searches"),
        }
    }
}

fn with_results(paths: &[&str]) -> App {
    let (mut app, _) = App::new(Some("term".to_string()), Some("hx".to_string()));
    let list: Vec<String> = paths.iter().map(|p| p.to_string()).collect();
    app.searched(Some(list), false);
    press(&mut app, plain(KeyCode::Tab));
    app
}

fn texts(spans: &[Span]) -> Vec<(&str, SpanStyle)> {
    spans.iter().map(|s| (s.text.as_str(), s.style)).collect()
}

#[test]
fn every_color_has_a_name() {
    let named = [
        ("black", Color::Black),
        ("RED", Color::Red),
        ("Green", Color::Green),
        ("yellow", Color::Yellow),
        ("blue", Color::Blue),
        ("magenta", Color::Magenta),
        ("cyan", Color::Cyan),
        ("white", Color::White),
        ("gray", Color::Gray),
        ("darkgray", Color::DarkGray),
        ("lightred", Color::LightRed),
        ("lightgreen", Color::LightGreen),
        ("lightyellow", Color::LightYellow),
        ("LightBlue", Color::LightBlue),
        ("lightmagenta", Color::LightMagenta),
        ("lightcyan", Color::LightCyan),
    ];
    for (name, color) in named {
        assert_eq!(parse_color(name), Some(color));
    }
    assert_eq!(parse_color("purple"), None);
    assert_eq!(highlight_color(&Some("LIGHTBLUE".to_string())), Color::LightBlue);
    assert_eq!(highlight_color(&Some("purple".to_string())), Color::DarkGray);
    assert_eq!(highlight_color(&None), Color::DarkGray);
}

#[test]
fn a_selection_lies_between_anchor_and_cursor() {
    assert_eq!(current_selection_range(3, None), None);
    assert_eq!(current_selection_range(3, Some(3)), None);
    assert_eq!(current_selection_range(3, Some(1)), Some((1, 3)));
    assert_eq!(current_selection_range(1, Some(3)), Some((1, 3)));
}

#[test]
fn a_selection_is_deleted() {
    let mut l = line("hello world", 5, Some(11));
    assert!(delete_selection_if_any(&mut l));
    assert_eq!((l.text.as_str(), l.cursor, l.anchor), ("hello", 5, None));
    assert!(!delete_selection_if_any(&mut l));
    assert_eq!(l.text, "hello");
}

#[test]
fn a_word_is_deleted_backwards() {
    let mut l = line("one two  ", 9, None);
    delete_previous_word(&mut l);
    assert_eq!((l.text.as_str(), l.cursor), ("one ", 4));
    delete_previous_word(&mut l);
    assert_eq!((l.text.as_str(), l.cursor), ("", 0));
    delete_previous_word(&mut l);
    assert_eq!(l.text, "");
    let mut selected = line("one two", 7, Some(3));
    delete_previous_word(&mut selected);
    assert_eq!((selected.text.as_str(), selected.cursor), ("one", 3));
}

#[test]
fn word_boundaries() {
    let text = "one  two\tthree";
    assert_eq!(previous_word_boundary(text, 14), 9);
    assert_eq!(previous_word_boundary(text, 9), 5);
    assert_eq!(previous_word_boundary(text, 7), 5);
    assert_eq!(previous_word_boundary(text, 5), 0);
    assert_eq!(previous_word_boundary(text, 100), 9);
    assert_eq!(previous_word_boundary(text, 0), 0);
    assert_eq!(next_word_boundary(text, 0), 5);
    assert_eq!(next_word_boundary(text, 3), 5);
    assert_eq!(next_word_boundary(text, 6), 9);
    assert_eq!(next_word_boundary(text, 9), 14);
    assert_eq!(next_word_boundary(text, 100), 14);
    assert_eq!(next_word_boundary("é  x", 0), 4);
}

#[test]
fn copying_leaves_the_line_and_an_empty_selection_the_clipboard() {
    let l = line("hello", 4, Some(1));
    let mut clipboard = None;
    copy_selection_to_clipboard(&l, &mut clipboard);
    assert_eq!(clipboard, Some("ell".to_string()));
    copy_selection_to_clipboard(&line("hello", 2, Some(2)), &mut clipboard);
    assert_eq!(clipboard, Some("ell".to_string()));
    assert_eq!(l.text, "hello");
}

#[test]
fn cutting_and_pasting_restore_the_line() {
    let mut l = line("hello world", 2, Some(7));
    let mut clipboard = None;
    assert!(cut_selection_to_clipboard(&mut l, &mut clipboard));
    assert_eq!((l.text.as_str(), l.cursor, l.anchor), ("heorld", 2, None));
    assert!(!cut_selection_to_clipboard(&mut l, &mut clipboard));
    assert!(paste_from_clipboard(&mut l, &clipboard));
    assert_eq!((l.text.as_str(), l.cursor, l.anchor), ("hello world", 7, None));
}

#[test]
fn line_ends_are_pasted_as_blanks() {
    let mut l = line("ab", 1, Some(2));
    assert!(!paste_from_clipboard(&mut l, &None));
    assert!(!paste_from_clipboard(&mut l, &Some(String::new())));
    assert_eq!(l.anchor, Some(2));
    assert!(paste_from_clipboard(&mut l, &Some("x\r\ny".to_string())));
    assert_eq!((l.text.as_str(), l.cursor, l.anchor), ("ax  y", 5, None));
}

#[test]
fn typing_replaces_the_selection_and_moves_on_by_a_byte() {
    let mut l = line("abc", 1, Some(3));
    type_char(&mut l, 'x');
    assert_eq!((l.text.as_str(), l.cursor, l.anchor), ("ax", 2, None));
    type_char(&mut l, 'é');
    assert_eq!((l.text.as_str(), l.cursor), ("axé", 3));
}

#[test]
fn the_selection_has_its_own_span() {
    assert_eq!(texts(&create_input_spans("abc", None)), [("abc", SpanStyle::Raw)]);
    assert_eq!(
        texts(&create_input_spans("abcdef", Some((2, 4)))),
        [("ab", SpanStyle::Raw), ("cd", SpanStyle::Selected), ("ef", SpanStyle::Raw)]
    );
    assert_eq!(
        texts(&create_input_spans("abc", Some((0, 3)))),
        [("abc", SpanStyle::Selected)]
    );
}

#[test]
fn words_are_highlighted_in_any_case() {
    let on = SpanStyle::Highlighted(Color::Red);
    let spans = create_highlighted_spans("/Src/main_SRC.rs", "src", Color::Red)
        .expect("an ASCII path can be shown");
    assert_eq!(
        texts(&spans),
        [
            ("/", SpanStyle::Raw),
            ("Src", on),
            ("/main_", SpanStyle::Raw),
            ("SRC", on),
            (".rs", SpanStyle::Raw)
        ]
    );
}

#[test]
fn wildcards_are_highlighted_in_the_file_name() {
    let on = SpanStyle::Highlighted(Color::Blue);
    let spans = create_highlighted_spans("/a.tsx/b.tsx", ".ts?", Color::Blue)
        .expect("an ASCII path can be shown");
    assert_eq!(texts(&spans), [("/a.tsx/b", SpanStyle::Raw), (".tsx", on)]);
    let starred = create_highlighted_spans("/a/b.tsx", "*.ts?", Color::Blue)
        .expect("an ASCII path can be shown");
    assert_eq!(texts(&starred), [("/a/b", SpanStyle::Raw), (".tsx", on)]);
    let scoped = create_highlighted_spans("/src/b.rs", "/src/*.rs", Color::Blue)
        .expect("an ASCII path can be shown");
    assert_eq!(texts(&scoped), [("/src/b.rs", on)]);
}

#[test]
fn overlapping_words_are_highlighted_once() {
    let on = SpanStyle::Highlighted(Color::Cyan);
    let spans =
        create_highlighted_spans("abcd", "bc abc", Color::Cyan).expect("an ASCII path can be shown");
    assert_eq!(texts(&spans), [("abc", on), ("d", SpanStyle::Raw)]);
    let none = create_highlighted_spans("abcd", " ", Color::Cyan).expect("nothing is highlighted");
    assert_eq!(texts(&none), [("abcd", SpanStyle::Raw)]);
    let broken = create_highlighted_spans("ab[c", "[b", Color::Cyan).expect("nothing is highlighted");
    assert_eq!(texts(&broken), [("ab[c", SpanStyle::Raw)]);
    let star = create_highlighted_spans("ab", "**", Color::Cyan).expect("nothing is highlighted");
    assert_eq!(texts(&star), [("ab", SpanStyle::Raw)]);
}

#[test]
fn a_highlight_that_parts_a_character_cannot_be_shown() {
    assert!(create_highlighted_spans("İé", "é", Color::Red).is_none());
    let spans = create_highlighted_spans("éa", "A", Color::Red).expect("the offsets agree");
    assert_eq!(
        texts(&spans),
        [("é", SpanStyle::Raw), ("a", SpanStyle::Highlighted(Color::Red))]
    );
}

#[test]
fn offsets_of_characters() {
    assert_eq!(char_boundaries(&"aé€".chars().collect()), [0, 1, 3, 6]);
    assert_eq!(char_boundaries(&vec![]), [0]);
}

#[test]
fn the_editor_list() {
    assert_eq!(editor_candidates(&None), ["nvim", "vim", "vi"]);
    assert_eq!(editor_candidates(&Some("hx".to_string())), ["hx", "nvim", "vim", "vi"]);
}

#[test]
fn a_search_starts_with_its_term() {
    let (app, effect) = App::new(Some("abc".to_string()), None);
    assert_eq!((app.line.text.as_str(), app.line.cursor), ("abc", 3));
    assert!(matches!(effect, Effect::Search { term, entered: false } if term == "abc"));
    let (empty, effect) = App::new(None, None);
    assert_eq!(empty.line.text, "");
    assert!(matches!(effect, Effect::Idle));
    assert_eq!(empty.focus, Focus::Search);
}

#[test]
fn typing_and_backspace() {
    let (mut app, _) = App::new(None, None);
    type_text(&mut app, "abc");
    assert_eq!((app.line.text.as_str(), app.line.cursor), ("abc", 3));
    press(&mut app, plain(KeyCode::Left));
    type_text(&mut app, "x");
    assert_eq!(app.line.text, "abxc");
    press(&mut app, plain(KeyCode::Backspace));
    assert_eq!((app.line.text.as_str(), app.line.cursor), ("abc", 2));
    press(&mut app, plain(KeyCode::Delete));
    assert_eq!(app.line.text, "ab");
    assert!(matches!(press(&mut app, plain(KeyCode::Delete)), Effect::Idle));
    press(&mut app, plain(KeyCode::Home));
    assert!(matches!(press(&mut app, plain(KeyCode::Backspace)), Effect::Idle));
    press(&mut app, plain(KeyCode::End));
    assert_eq!(app.line.cursor, 2);
}

#[test]
fn a_wide_character_is_typed_and_taken_back() {
    let (mut app, _) = App::new(None, None);
    type_text(&mut app, "é");
    assert_eq!((app.line.text.as_str(), app.line.cursor), ("é", 1));
    assert!(!app.can_handle(plain(KeyCode::Char('x'))));
    assert!(!app.can_handle(plain(KeyCode::Delete)));
    press(&mut app, plain(KeyCode::Backspace));
    assert_eq!((app.line.text.as_str(), app.line.cursor), ("", 0));
}

#[test]
fn shift_selects_and_control_moves_by_words() {
    let (mut app, _) = App::new(Some("one two".to_string()), None);
    let both = |code: KeyCode| Key { code, shift: true, control: true, alt: false };
    press(&mut app, both(KeyCode::Left));
    assert_eq!((app.line.cursor, app.line.anchor), (4, Some(7)));
    press(&mut app, control(KeyCode::Char('x')));
    assert_eq!((app.line.text.as_str(), app.clipboard.as_deref()), ("one ", Some("two")));
    press(&mut app, plain(KeyCode::Home));
    press(&mut app, control(KeyCode::Char('V')));
    assert_eq!((app.line.text.as_str(), app.line.cursor), ("twoone ", 3));
    press(&mut app, shift(KeyCode::End));
    assert_eq!((app.line.cursor, app.line.anchor), (7, Some(3)));
    assert!(matches!(press(&mut app, control(KeyCode::Char('c'))), Effect::Idle));
    assert_eq!(app.clipboard.as_deref(), Some("one "));
    press(&mut app, shift(KeyCode::Home));
    assert_eq!((app.line.cursor, app.line.anchor), (0, Some(3)));
    press(&mut app, shift(KeyCode::Right));
    assert_eq!((app.line.cursor, app.line.anchor), (1, Some(3)));
    press(&mut app, control(KeyCode::Right));
    assert_eq!((app.line.cursor, app.line.anchor), (7, None));
    assert!(matches!(press(&mut app, control(KeyCode::Char('q'))), Effect::Idle));
}

#[test]
fn alt_backspace_deletes_a_word() {
    let (mut app, _) = App::new(Some("one two".to_string()), None);
    let key = Key { code: KeyCode::Backspace, shift: false, control: false, alt: true };
    assert!(matches!(press(&mut app, key), Effect::Search { term, entered: false } if term == "one "));
    press(&mut app, key);
    assert_eq!(app.line.text, "");
    assert!(matches!(press(&mut app, key), Effect::Idle));
}

#[test]
fn enter_searches_and_opens_the_first_result() {
    let (mut app, _) = App::new(Some("x".to_string()), None);
    let effect = press(&mut app, plain(KeyCode::Enter));
    assert!(matches!(effect, Effect::Search { term, entered: true } if term == "x"));
    let effect = app.searched(Some(vec!["/x".to_string(), "/y".to_string()]), true);
    assert!(matches!(effect, Effect::Open { path, clears: true } if path == "/x"));
    assert_eq!((app.focus, app.selected), (Focus::Results, Some(0)));
    app.opened("/x", true, false);
    assert_eq!(app.error_message.as_deref(), Some("Error opening file: /x"));
    app.opened("/x", false, true);
    assert_eq!(app.error_message.as_deref(), Some("Error opening file: /x"));
    app.opened("/x", true, true);
    assert_eq!(app.error_message, None);
    let (mut empty, _) = App::new(None, None);
    assert!(matches!(press(&mut empty, plain(KeyCode::Enter)), Effect::Idle));
    assert!(matches!(empty.searched(None, true), Effect::Idle));
    assert_eq!((empty.focus, empty.selected), (Focus::Results, None));
}

#[test]
fn moving_among_the_results() {
    let many: Vec<String> = (0..25).map(|i| format!("/f{i}")).collect();
    let refs: Vec<&str> = many.iter().map(|s| s.as_str()).collect();
    let mut app = with_results(&refs);
    assert_eq!((app.focus, app.selected), (Focus::Results, Some(0)));
    press(&mut app, plain(KeyCode::Down));
    assert_eq!(app.selected, Some(1));
    press(&mut app, plain(KeyCode::Up));
    assert_eq!((app.focus, app.selected), (Focus::Results, Some(0)));
    press(&mut app, plain(KeyCode::PageDown));
    press(&mut app, plain(KeyCode::PageDown));
    assert_eq!(app.selected, Some(20));
    press(&mut app, plain(KeyCode::PageDown));
    assert_eq!(app.selected, Some(24));
    press(&mut app, plain(KeyCode::Down));
    assert_eq!(app.selected, Some(0));
    press(&mut app, plain(KeyCode::End));
    assert_eq!(app.selected, Some(24));
    press(&mut app, plain(KeyCode::PageUp));
    assert_eq!(app.selected, Some(14));
    press(&mut app, plain(KeyCode::PageUp));
    press(&mut app, plain(KeyCode::PageUp));
    assert_eq!(app.selected, Some(0));
    press(&mut app, plain(KeyCode::Up));
    assert_eq!((app.focus, app.selected), (Focus::Search, Some(0)));
    press(&mut app, plain(KeyCode::Down));
    assert_eq!(app.focus, Focus::Results);
    press(&mut app, plain(KeyCode::Home));
    press(&mut app, plain(KeyCode::Tab));
    assert_eq!(app.focus, Focus::Search);
    assert!(matches!(press(&mut app, plain(KeyCode::Esc)), Effect::Quit));
}

#[test]
fn keys_on_a_result() {
    let mut app = with_results(&["/a/b.rs"]);
    assert!(matches!(
        press(&mut app, plain(KeyCode::Enter)),
        Effect::Open { path, clears: false } if path == "/a/b.rs"
    ));
    assert!(matches!(
        press(&mut app, plain(KeyCode::Char('o'))),
        Effect::Open { path, clears: true } if path == "/a/b.rs"
    ));
    assert!(matches!(
        press(&mut app, plain(KeyCode::Char('e'))),
        Effect::Edit { path, editor, others }
            if path == "/a/b.rs" && editor == "hx" && others == ["nvim", "vim", "vi"]
    ));
    assert!(matches!(
        press(&mut app, plain(KeyCode::Char('v'))),
        Effect::Edit { path, editor, others }
            if path == "/a/b.rs" && editor == "vim" && others == ["nvim", "vim", "vi"]
    ));
    assert!(matches!(
        press(&mut app, plain(KeyCode::Char('d'))),
        Effect::OpenDirectory { path } if path == "/a"
    ));
    assert!(matches!(press(&mut app, plain(KeyCode::Char('z'))), Effect::Idle));
    assert!(matches!(press(&mut app, plain(KeyCode::Left)), Effect::Idle));
    let two = vec!["vim".to_string(), "vi".to_string()];
    assert!(matches!(app.editor_closed("/a".to_string(), two.clone(), true), Effect::Idle));
    assert!(matches!(
        app.editor_closed("/a".to_string(), two, false),
        Effect::Edit { path, editor, others } if path == "/a" && editor == "vim" && others == ["vi"]
    ));
    assert_eq!(app.error_message, None);
    assert!(matches!(app.editor_closed("/a".to_string(), vec![], false), Effect::Idle));
    assert_eq!(
        app.error_message.as_deref(),
        Some("Error opening file: Could not open file with any editor: nvim, vim, or vi.")
    );
    let mut root = with_results(&["/"]);
    assert!(matches!(press(&mut root, plain(KeyCode::Char('d'))), Effect::Idle));
    let mut bare = with_results(&[]);
    assert_eq!(bare.focus, Focus::Search);
    bare.focus = Focus::Results;
    for code in [KeyCode::Enter, KeyCode::Char('o'), KeyCode::Down, KeyCode::Up, KeyCode::End] {
        assert!(matches!(press(&mut bare, plain(code)), Effect::Idle));
    }
}

#[test]
fn the_screen_shows_counts_and_shortcuts() {
    let mut app = with_results(&["/a/term", "/b/Term"]);
    press(&mut app, plain(KeyCode::Down));
    let screen = ui(&app, Color::Green).expect("an ASCII state can be shown");
    assert_eq!(
        screen.summary,
        "2/2 items | Enter/o: Open | e: Edit | d: Dir | PgUp/PgDn/Home/End: Navigate | Tab: Search | Esc: Quit"
    );
    assert_eq!(screen.cursor, None);
    assert_eq!(screen.results.len(), 2);
    assert_eq!(
        texts(&screen.results[1]),
        [("/b/", SpanStyle::Raw), ("Term", SpanStyle::Highlighted(Color::Green))]
    );
    assert_eq!(texts(&screen.input), [("term", SpanStyle::Raw)]);
    let (empty, _) = App::new(None, None);
    let screen = ui(&empty, Color::Green).expect("an empty state can be shown");
    assert_eq!(
        screen.summary,
        "0 items | Ctrl+C/X/V: Clipboard | Ctrl+Shift+←/→: Select Word | Alt+Backspace: Del Word | Shift+Home/End: Select | Esc: Quit"
    );
    assert_eq!(screen.cursor, Some(1));
    assert_eq!(screen.error, None);
}

#[test]
fn a_state_that_parts_a_character_cannot_be_shown() {
    let (mut app, _) = App::new(Some("éé".to_string()), None);
    press(&mut app, shift(KeyCode::Left));
    assert!(ui(&app, Color::Red).is_none());
    press(&mut app, shift(KeyCode::Left));
    let screen = ui(&app, Color::Red).expect("the selection lies between characters");
    assert_eq!(texts(&screen.input), [("é", SpanStyle::Raw), ("é", SpanStyle::Selected)]);
    assert_eq!(screen.cursor, Some(3));
}

#[test]
fn everything_that_is_shown_reads_as_the_text() {
    let whole = |spans: &[Span]| spans.iter().map(|s| s.text.clone()).collect::<String>();
    for (text, range) in [("abc", None), ("abc", Some((1, 2))), ("aéb", Some((1, 3))), ("", None)] {
        assert_eq!(whole(&create_input_spans(text, range)), text);
    }
    for text in ["/src/Main.rs", "/a/b/c", "", "aaaa", "/É/é.rs"] {
        for term in ["a", "main rs", "*.r?", "/src/*", "", "[m]ain", "é", "***"] {
            if let Some(spans) = create_highlighted_spans(text, term, Color::Red) {
                assert_eq!(whole(&spans), text);
            } else {
                panic!("the offsets of {} agree in lower case", text);
            }
        }
    }
}

#[test]
fn highlighted_parts_are_the_word_and_the_rest_is_not() {
    for (text, word) in [("/aXa/xax.rs", "xa"), ("aaaa", "aa"), ("/src/SRC", "Src"), ("abc", "z")] {
        let spans = create_highlighted_spans(text, word, Color::Red).expect("ASCII can be shown");
        let low = word.to_lowercase();
        for span in &spans {
            match span.style {
                SpanStyle::Highlighted(_) => assert_eq!(span.text.to_lowercase(), low),
                _ => assert!(!span.text.to_lowercase().contains(&low)),
            }
        }
        assert!(spans.windows(2).all(|w| w[0].style != SpanStyle::Raw || w[1].style != SpanStyle::Raw));
    }
}

#[test]
fn order_case_and_repetition_of_words_do_not_matter() {
    let same = ["rs main *.r?", "MAIN rs *.R?", "*.r? *.r? rs Main rs", " main\t*.r?  RS main "];
    for text in ["/src/Main.rs", "/main/rs/x.rx", "nothing"] {
        let first = create_highlighted_spans(text, same[0], Color::Red).expect("ASCII can be shown");
        for term in same {
            let spans = create_highlighted_spans(text, term, Color::Red).expect("ASCII can be shown");
            assert_eq!(texts(&spans), texts(&first));
        }
    }
}
