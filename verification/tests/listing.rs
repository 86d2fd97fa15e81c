use std::io::BufRead;

use edit_rename::collector::collect;
use edit_rename::listing::{names_path, parse_listing, render_listing};

fn lines(items: &[&str]) -> Vec<String> {
    items.iter().map(|s| s.to_string()).collect()
}

/// The entries of `text` as a reader of lines finds them.
fn entries_by_reader(text: &str) -> Vec<String> {
    let mut found = Vec::new();
    for line in text.as_bytes().lines() {
        let line = line.unwrap();
        if line.is_empty() || line.starts_with("//") {
            continue;
        }
        found.push(line);
    }
    found
}

#[test]
fn listing_starts_with_header() {
    let list = collect(&lines(&["b", "a"])).unwrap();
    assert_eq!(
        render_listing(&list),
        "// empty lines and coments are ignored\n\
         // do not remove or reorder any lines\n\
         // do not edit anything other than file stems\n\
         \n\
         a\n\
         b\n"
    );
}

#[test]
fn parse_skips_comments_and_blank_lines() {
    let text = "// note\n\nfirst\n\n// more\nsecond\n";
    assert_eq!(parse_listing(text), lines(&["first", "second"]));
}

#[test]
fn parse_keeps_lines_verbatim() {
    let text = "  padded  \n\tx\n/ one slash\n / space first\n";
    assert_eq!(parse_listing(text), lines(&["  padded  ", "\tx", "/ one slash", " / space first"]));
}

#[test]
fn parse_of_empty_text_is_empty() {
    assert_eq!(parse_listing(""), Vec::<String>::new());
    assert_eq!(parse_listing("\n\n\n"), Vec::<String>::new());
    assert_eq!(parse_listing("// only a comment"), Vec::<String>::new());
}

#[test]
fn parse_takes_last_line_without_line_end() {
    assert_eq!(parse_listing("a\nb"), lines(&["a", "b"]));
}

#[test]
fn parse_drops_return_before_line_feed() {
    assert_eq!(parse_listing("a\r\nb\r\n"), lines(&["a", "b"]));
    assert_eq!(parse_listing("\r\n\r\n"), Vec::<String>::new());
}

#[test]
fn parse_keeps_other_returns() {
    assert_eq!(parse_listing("a\rb\n"), lines(&["a\rb"]));
    assert_eq!(parse_listing("a\r\r\n"), lines(&["a\r"]));
    assert_eq!(parse_listing("a\r"), lines(&["a\r"]));
    assert_eq!(parse_listing("\r"), lines(&["\r"]));
    assert_eq!(parse_listing("\rx\n"), lines(&["\rx"]));
}

#[test]
fn parse_treats_comment_after_return_rule() {
    assert_eq!(parse_listing("//\r\n/\r\n"), lines(&["/"]));
    assert_eq!(parse_listing("/\r/\n"), lines(&["/\r/"]));
}

#[test]
fn parse_agrees_with_line_reader() {
    let samples = [
        "",
        "\n",
        "a",
        "a\n",
        "a\nb\n",
        "a\r\nb\r\n",
        "a\r\r\nb",
        "\r",
        "\r\r",
        "\r\n",
        "x\r",
        "// c\n//\n/\n/ /\n\n\nend",
        "//\r\n/\r\n\r\n",
        "é\nüber/straße\n日本語\r\n",
        "one\n\n\ntwo\n// three\nfour",
        "a\n\r\nb\n\r",
    ];
    for text in samples {
        assert_eq!(parse_listing(text), entries_by_reader(text), "text {text:?}");
    }
}

#[test]
fn unedited_listing_reads_back() {
    let list = collect(&lines(&["dir/c.txt", "a.txt", "b.txt", "ünï/cödé"])).unwrap();
    let text = render_listing(&list);
    assert_eq!(&parse_listing(&text), list.paths());
}

#[test]
fn names_path_tells_entries_from_the_rest() {
    assert!(names_path("a"));
    assert!(names_path("/"));
    assert!(names_path("/a/"));
    assert!(names_path(" //"));
    assert!(!names_path(""));
    assert!(!names_path("//"));
    assert!(!names_path("// text"));
    assert!(!names_path("///"));
}
