use mdbook_compile_output::book::{Book, BookItem, Chapter, RunError};
use mdbook_compile_output::cli::{dispatch, unknown_argument_message, Invocation};
use mdbook_compile_output::marker::extract_step_name;
use mdbook_compile_output::rewrite::{process_compile, steps_in};
use mdbook_compile_output::step::{compile_output, fenced, step_dir};
use mdbook_compile_output::text::char_is_whitespace;
use mdbook_compile_output::CompileOutputPreprocessor;

fn chapter(content: &str, draft: bool, sub_items: Vec<BookItem>) -> BookItem {
    BookItem::Chapter(Chapter { content: content.to_string(), draft, sub_items })
}

fn content_of(item: &BookItem) -> &str {
    match item {
        BookItem::Chapter(ch) => ch.content.as_str(),
        _ => panic!("not a chapter"),
    }
}

#[test]
fn extracts_plain_marker() {
    assert_eq!(extract_step_name("{{#compile_output: demo}}"), Some("demo".to_string()));
}

#[test]
fn extracts_indented_marker_with_spacing() {
    assert_eq!(extract_step_name("  \t{{#compile_output:   stage_1 \t}}"), Some("stage_1".to_string()));
}

#[test]
fn extracts_empty_step_name() {
    assert_eq!(extract_step_name("{{#compile_output:}}"), Some(String::new()));
}

#[test]
fn prefix_without_suffix_is_no_marker() {
    assert_eq!(extract_step_name("{{#compile_output: demo"), None);
    assert_eq!(extract_step_name("{{#compile_output: demo}"), None);
    assert_eq!(extract_step_name("{{#compile_output:}"), None);
}

#[test]
fn text_before_prefix_is_no_marker() {
    assert_eq!(extract_step_name("see {{#compile_output: demo}}"), None);
    assert_eq!(extract_step_name("{{#include: demo}}"), None);
    assert_eq!(extract_step_name(""), None);
}

#[test]
fn trailing_text_after_suffix_is_no_marker() {
    assert_eq!(extract_step_name("{{#compile_output: demo}} "), None);
}

#[test]
fn plain_lines_pass_through() {
    let out = process_compile("# Title\n\nsome text", &vec![]).unwrap();
    assert_eq!(out, "# Title\n\nsome text\n");
}

#[test]
fn line_endings_are_normalised() {
    let out = process_compile("a\r\nb\r\n\r\nc", &vec![]).unwrap();
    assert_eq!(out, "a\nb\n\nc\n");
}

#[test]
fn lone_carriage_return_stays() {
    assert_eq!(process_compile("a\r", &vec![]).unwrap(), "a\r\n");
    assert_eq!(process_compile("a\rb\n", &vec![]).unwrap(), "a\rb\n");
}

#[test]
fn empty_content_stays_empty() {
    assert_eq!(process_compile("", &vec![]).unwrap(), "");
    assert_eq!(process_compile("\n", &vec![]).unwrap(), "\n");
    assert_eq!(process_compile("\n\n", &vec![]).unwrap(), "\n\n");
}

#[test]
fn markers_take_outputs_in_order() {
    let content = "intro\n{{#compile_output: one}}\nmiddle\n  {{#compile_output: two }}\nend\n";
    assert_eq!(steps_in(content), vec!["one".to_string(), "two".to_string()]);
    let outputs = vec!["FIRST".to_string(), "SECOND".to_string()];
    let out = process_compile(content, &outputs).unwrap();
    assert_eq!(out, "intro\nFIRST\nmiddle\nSECOND\nend\n");
}

#[test]
fn unclosed_marker_passes_through() {
    let out = process_compile("{{#compile_output: demo", &vec![]).unwrap();
    assert_eq!(out, "{{#compile_output: demo\n");
}

#[test]
fn output_count_must_match_markers() {
    assert_eq!(process_compile("{{#compile_output: a}}", &vec![]), None);
    let two = vec!["x".to_string(), "y".to_string()];
    assert_eq!(process_compile("{{#compile_output: a}}", &two), None);
    assert_eq!(process_compile("plain", &two), None);
}

#[test]
fn step_dir_joins_trimmed_name() {
    assert_eq!(step_dir("demo"), "rust_stages/demo");
    assert_eq!(step_dir("  stage_2 \t"), "rust_stages/stage_2");
}

#[test]
fn fenced_wraps_text() {
    assert_eq!(fenced("hello"), "```text\nhello\n```");
    assert_eq!(fenced(""), "```text\n\n```");
}

#[test]
fn success_keeps_standard_output() {
    let r = compile_output(true, b"all tests passed", b"warning: noise");
    assert_eq!(r, "```text\nall tests passed\n```");
}

#[test]
fn failure_keeps_standard_error() {
    let r = compile_output(false, b"partial stdout", b"error[E0308]: mismatched types");
    assert_eq!(r, "```text\nerror[E0308]: mismatched types\n```");
}

#[test]
fn invalid_bytes_are_replaced() {
    let r = compile_output(true, &[b'o', b'k', 0xff, b'!'], b"");
    assert_eq!(r, "```text\nok\u{FFFD}!\n```");
}

#[test]
fn end_to_end_single_marker() {
    let book = Book { sections: vec![chapter("{{#compile_output: demo}}", false, vec![])] };
    let steps = book.steps();
    assert_eq!(steps, vec!["demo".to_string()]);
    assert_eq!(step_dir(&steps[0]), "rust_stages/demo");
    let outputs = vec![compile_output(true, b"A\n", b"")];
    let pre = CompileOutputPreprocessor;
    let out = pre.run(book, &outputs).ok().unwrap();
    assert_eq!(content_of(&out.sections[0]), "```text\nA\n\n```\n");
}

#[test]
fn draft_chapters_are_untouched() {
    let text = "{{#compile_output: demo}}\r\nno newline at end";
    let book = Book { sections: vec![chapter(text, true, vec![]), BookItem::Separator] };
    assert!(book.steps().is_empty());
    let out = CompileOutputPreprocessor.run(book, &vec![]).ok().unwrap();
    assert_eq!(content_of(&out.sections[0]), text);
    assert!(matches!(out.sections[1], BookItem::Separator));
}

#[test]
fn chapters_come_before_their_nested_chapters() {
    let inner = chapter("{{#compile_output: inner}}", false, vec![]);
    let outer = chapter("{{#compile_output: outer}}", false, vec![inner]);
    let last = chapter("{{#compile_output: last}}", false, vec![]);
    let book = Book { sections: vec![outer, BookItem::PartTitle("Part".to_string()), last] };
    let steps = book.steps();
    assert_eq!(steps, vec!["outer".to_string(), "inner".to_string(), "last".to_string()]);
    let outputs = vec!["O".to_string(), "I".to_string(), "L".to_string()];
    let out = CompileOutputPreprocessor.run(book, &outputs).ok().unwrap();
    match &out.sections[0] {
        BookItem::Chapter(ch) => {
            assert_eq!(ch.content, "O\n");
            assert_eq!(content_of(&ch.sub_items[0]), "I\n");
        }
        _ => panic!("not a chapter"),
    }
    assert!(matches!(&out.sections[1], BookItem::PartTitle(t) if t == "Part"));
    assert_eq!(content_of(&out.sections[2]), "L\n");
}

#[test]
fn drafts_nested_in_chapters_keep_their_markers() {
    let draft = chapter("{{#compile_output: skipped}}", true, vec![]);
    let book = Book { sections: vec![chapter("{{#compile_output: kept}}", false, vec![draft])] };
    assert_eq!(book.steps(), vec!["kept".to_string()]);
    let out = CompileOutputPreprocessor.run(book, &vec!["K".to_string()]).ok().unwrap();
    match &out.sections[0] {
        BookItem::Chapter(ch) => {
            assert_eq!(ch.content, "K\n");
            assert_eq!(content_of(&ch.sub_items[0]), "{{#compile_output: skipped}}");
        }
        _ => panic!("not a chapter"),
    }
}

#[test]
fn book_without_markers_round_trips() {
    let book = Book {
        sections: vec![
            chapter("line one\r\nline two", false, vec![chapter("sub\n", false, vec![])]),
            BookItem::Separator,
        ],
    };
    let out = CompileOutputPreprocessor.run(book, &vec![]).ok().unwrap();
    match &out.sections[0] {
        BookItem::Chapter(ch) => {
            assert_eq!(ch.content, "line one\nline two\n");
            assert_eq!(content_of(&ch.sub_items[0]), "sub\n");
        }
        _ => panic!("not a chapter"),
    }
}

#[test]
fn run_reports_output_count_mismatch() {
    let book = Book { sections: vec![chapter("{{#compile_output: a}}", false, vec![])] };
    match CompileOutputPreprocessor.run(book, &vec![]) {
        Err(RunError::OutputCountMismatch { markers, outputs }) => {
            assert_eq!(markers, 1);
            assert_eq!(outputs, 0);
        }
        Ok(_) => panic!("expected an error"),
    }
}

#[test]
fn preprocessor_name() {
    assert_eq!(CompileOutputPreprocessor.name(), "compile-output-preprocessor");
}

#[test]
fn supports_argument_selects_supports_mode() {
    assert!(matches!(dispatch(Some("supports")), Invocation::Supports));
}

#[test]
fn no_argument_selects_processing() {
    assert!(matches!(dispatch(None), Invocation::Process));
}

#[test]
fn unknown_argument_is_reported() {
    match dispatch(Some("foo")) {
        Invocation::UnknownArgument(a) => {
            assert_eq!(a, "foo");
            let msg = unknown_argument_message(&a);
            assert_eq!(msg, "unknown argument: foo");
            assert!(msg.contains("foo"));
        }
        _ => panic!("expected an unknown argument"),
    }
}

#[test]
fn whitespace_agrees_with_std_on_every_char() {
    for c in (0u32..=0x10FFFF).filter_map(char::from_u32) {
        assert_eq!(char_is_whitespace(c), c.is_whitespace(), "U+{:04X}", c as u32);
    }
}
