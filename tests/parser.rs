use dashboard::locate::{get_block_positions, line_positions, locate};
use dashboard::section::{replace_lines, replace_section};
use dashboard::{CommentBlock, ErrorColor, Marker, ParserError, PrinterError};

const INITIAL_CONTENT: &str = r#"# README Test

This is a dashboard to display all users projects.

<!--START_SECTION:tag_1-->
<!--END_SECTION:tag_1-->

# LICENSE

Lorem ipsum dolor sit amet, qui minim labore adipisicing minim sint cillum sint consectetur cupidatat."#;

const TO_UPDATE_WITH: &str = r#"* [d](...) - ...
 * [e](...) - ...
 * [a](...) - ...
 * [b](...) - ...
 * [a](...) - ...
 * [f](...) - ..."#;

fn text_of(bytes: Vec<u8>) -> String {
    String::from_utf8(bytes).unwrap()
}

#[test]
fn should_replace() {
    let block = CommentBlock::new("tag_1".to_string());
    let result = replace_section(INITIAL_CONTENT, TO_UPDATE_WITH, &block);
    assert_eq!(result.is_ok(), true, "Should replace text with `parser::findrepl`");
    let buf = text_of(result.unwrap());
    assert_eq!(buf.contains(TO_UPDATE_WITH), true);
}

#[test]
fn should_get_section_positions() {
    let block = CommentBlock::new("tag_1".to_string());
    let buf: &str = r#"<!--START_SECTION:tag_1-->
* [lorem](https://github.com/username/username) — username's GitHub profile.
* [foobar](https://github.com/username/foobar)
* [bar](https://github.com/username/bar) — Lorem ipsum dolor sit amet, qui minim labore
  adipisicing minim sint cillum sint consectetur cupidatat. ...
<!--END_SECTION:tag_1-->"#;

    let re_start = block.start_marker();
    let re_end = block.end_marker();
    assert_eq!(re_start, "<!--START_SECTION:tag_1-->");
    assert_eq!(re_end, "<!--END_SECTION:tag_1-->");

    let (start, end) = get_block_positions(buf, &re_start, &re_end).expect(
        "Should returns the line positions of start and end markers for the given buffer.",
    );
    assert!(start < end);
    assert_eq!((start, end), (0, 5));
}

#[test]
fn quickcheck_get_section_positions() {
    // A fixed spread of generated bodies: a few lines of varied text each.
    let words = ["", "a", "* [x](y)", "é ü", "<!--", "-->", "tag_1", "  \t ", "line with spaces"];
    let mut seed: u64 = 7;
    for _ in 0..200 {
        seed = seed.wrapping_mul(6364136223846793005).wrapping_add(1442695040888963407);
        let n_lines = 1 + (seed >> 33) as usize % 8;
        let mut lines = Vec::new();
        for k in 0..n_lines {
            let w = words[((seed >> (k * 4)) as usize) % words.len()];
            lines.push(w.to_string());
        }
        let quick_fuzz = lines.join("\n");
        let block = CommentBlock::new("tag_1".to_string());
        let buf = format!("<!--START_SECTION:tag_1-->\n{quick_fuzz}\n<!--END_SECTION:tag_1-->");
        let (start, end) = get_block_positions(&buf, &block.start_marker(), &block.end_marker())
            .expect("Should returns the line positions of start and end markers for the given buffer.");
        assert!(start < end);
    }
}

#[test]
fn should_log_logicbug() {
    fn parse_input() -> Result<(), ParserError> {
        Err(ParserError::LogicBug("error in logic".to_owned()))
    }
    if let Err(e) = parse_input() {
        let err = format!("Parsing failed: {e:?}");
        assert_eq!(err, r#"Parsing failed: LogicBug("error in logic")"#);
    }
}

#[test]
fn should_log_printererror() {
    fn parse_input() -> Result<(), ParserError> {
        Err(ParserError::PrinterError(PrinterError::InvalidColor(ErrorColor::Red)))
    }
    if let Err(e) = parse_input() {
        let err = format!("Parsing failed: {e:?}");
        assert_eq!(err, r#"Parsing failed: PrinterError(InvalidColor(Red))"#);
    }
}

#[test]
fn locate_finds_marker_lines() {
    let block = CommentBlock::new("tag_1".to_string());
    let buf = "<!--START_SECTION:tag_1-->\nline A\nline B\n<!--END_SECTION:tag_1-->";
    assert_eq!(locate(buf, &block).unwrap(), (0, 3));
}

#[test]
fn locate_counts_lines_before_the_section() {
    let block = CommentBlock::new("tag_1".to_string());
    let buf = "# Title\n\ntext <!--START_SECTION:tag_1-->\nx\n<!--END_SECTION:tag_1--> tail\n";
    assert_eq!(locate(buf, &block).unwrap(), (2, 4));
}

#[test]
fn locate_reports_missing_start_marker() {
    let block = CommentBlock::new("tag_1".to_string());
    let r = locate("no markers\n<!--END_SECTION:tag_1-->", &block);
    assert!(matches!(r, Err(ParserError::MarkerNotFound(Marker::Start))));
}

#[test]
fn locate_reports_missing_end_marker() {
    let block = CommentBlock::new("tag_1".to_string());
    let r = locate("<!--START_SECTION:tag_1-->\nbody\n", &block);
    assert!(matches!(r, Err(ParserError::MarkerNotFound(Marker::End))));
}

#[test]
fn locate_reports_end_before_start() {
    let block = CommentBlock::new("tag_1".to_string());
    let r = locate("<!--END_SECTION:tag_1-->\n<!--START_SECTION:tag_1-->\n", &block);
    assert!(matches!(r, Err(ParserError::LogicBug(_))));
}

#[test]
fn markers_are_matched_literally() {
    // A dot in the name matches only a dot, not any character.
    let buf = "<!--START_SECTION:axb-->\n<!--START_SECTION:a.b-->\nx\n<!--END_SECTION:a.b-->\n";
    let r = get_block_positions(buf, "<!--START_SECTION:a.b-->", "<!--END_SECTION:a.b-->");
    assert_eq!(r.unwrap(), (1, 3));
}

#[test]
fn oversized_marker_is_a_regex_error() {
    let huge = "a".repeat(4 << 20);
    let r = get_block_positions("text", &huge, "end");
    assert!(matches!(r, Err(ParserError::RegexError(_))));
}

#[test]
fn line_positions_from_offsets() {
    let buf = "ab\ncd\nef";
    assert_eq!(line_positions(buf, Some(1), Some(4)).unwrap(), (0, 1));
    assert!(matches!(line_positions(buf, None, Some(4)), Err(ParserError::MarkerNotFound(Marker::Start))));
    assert!(matches!(line_positions(buf, Some(1), None), Err(ParserError::MarkerNotFound(Marker::End))));
    assert!(matches!(line_positions(buf, Some(4), Some(1)), Err(ParserError::LogicBug(_))));
    assert!(matches!(line_positions(buf, Some(1), Some(8)), Err(ParserError::LogicBug(_))));
}

#[test]
fn replace_keeps_markers_and_ends_with_newline() {
    let block = CommentBlock::new("tag_1".to_string());
    let buf = "head\n<!--START_SECTION:tag_1-->\nold 1\nold 2\n<!--END_SECTION:tag_1-->\ntail";
    let out = text_of(replace_section(buf, "new 1\nnew 2", &block).unwrap());
    assert_eq!(out, "head\n<!--START_SECTION:tag_1-->\nnew 1\nnew 2\n<!--END_SECTION:tag_1-->\ntail\n");
    assert_eq!(out.matches("<!--START_SECTION:tag_1-->").count(), 1);
    assert_eq!(out.matches("<!--END_SECTION:tag_1-->").count(), 1);
}

#[test]
fn replace_twice_gives_the_same_content() {
    let block = CommentBlock::new("tag_1".to_string());
    let first = text_of(replace_section(INITIAL_CONTENT, TO_UPDATE_WITH, &block).unwrap());
    let second = text_of(replace_section(&first, TO_UPDATE_WITH, &block).unwrap());
    assert_eq!(first, second);
}

#[test]
fn replace_with_empty_body_empties_the_section() {
    let block = CommentBlock::new("s".to_string());
    let buf = "<!--START_SECTION:s-->\nx\n<!--END_SECTION:s-->\n";
    let out = text_of(replace_section(buf, "", &block).unwrap());
    assert_eq!(out, "<!--START_SECTION:s-->\n<!--END_SECTION:s-->\n");
}

#[test]
fn replace_reports_missing_marker() {
    let block = CommentBlock::new("tag_1".to_string());
    let r = replace_section("nothing here", "x", &block);
    assert!(matches!(r, Err(ParserError::MarkerNotFound(Marker::Start))));
}

#[test]
fn replace_lines_by_line_numbers() {
    let out = replace_lines(b"a\nb\nc\nd", b"X\nY\n", 0, 3).unwrap();
    assert_eq!(out, b"a\nX\nY\nd\n".to_vec());
    let same_line = replace_lines(b"a\nb", b"X", 1, 1).unwrap();
    assert_eq!(same_line, b"a\nb\nX\nb\n".to_vec());
    assert!(replace_lines(b"a\nb", b"X", 1, 2).is_none());
    assert!(replace_lines(b"a\nb", b"X", 1, 0).is_none());
}

#[test]
fn comment_block_trims_its_name() {
    let block = CommentBlock::new("  tag_1 \n".to_string());
    assert_eq!(block.section_name(), "tag_1");
    assert_eq!(block.start_marker(), "<!--START_SECTION:tag_1-->");
    assert_eq!(block.end_marker(), "<!--END_SECTION:tag_1-->");
    let inner = CommentBlock::new("\u{3000}a b\u{a0}".to_string());
    assert_eq!(inner.section_name(), "a b");
}

#[test]
fn marker_labels() {
    assert_eq!(Marker::Start.label(), "START");
    assert_eq!(Marker::End.label(), "END");
}

#[test]
fn channel_errors_are_recognised() {
    assert!(ParserError::ChannelError("x".to_string()).is_channel_error());
    assert!(!ParserError::LogicBug("x".to_string()).is_channel_error());
}
