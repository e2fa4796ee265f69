use tk::document::{
    compose_document, extract_title, fits_as_header, fits_as_title, render_document,
    split_document,
};
use tk::error::{Error, Malformed};
use tk::storage::Storage;

#[test]
fn title_and_body_are_told_apart() {
    let (title, body) = Storage::extract_title("# Hello\n\nBody text");
    assert_eq!(title, "Hello");
    assert_eq!(body, "Body text");
}

#[test]
fn text_without_heading_is_untitled() {
    let (title, body) = Storage::extract_title("no heading here");
    assert_eq!(title, "Untitled");
    assert_eq!(body, "no heading here");
}

#[test]
fn blank_lines_before_the_heading_are_passed_over() {
    let (title, body) = extract_title("\n  \n\t\n#  Spaced title  \nfirst\nsecond\n");
    assert_eq!(title, "Spaced title");
    assert_eq!(body, "first\nsecond\n");
}

#[test]
fn a_heading_after_text_is_no_title() {
    let text = "intro\n# Late\nbody";
    let (title, body) = extract_title(text);
    assert_eq!(title, "Untitled");
    assert_eq!(body, text);
}

#[test]
fn a_heading_needs_the_mark_a_space_and_a_title() {
    for text in ["#", "# ", "#  \nbody", "#Title", "## Title", ""] {
        let (title, body) = extract_title(text);
        assert_eq!(title, "Untitled");
        assert_eq!(body, text);
    }
}

#[test]
fn an_indented_heading_counts() {
    let (title, body) = extract_title("   # Indented\nbody");
    assert_eq!(title, "Indented");
    assert_eq!(body, "body");
}

#[test]
fn only_line_breaks_are_dropped_before_the_text() {
    let (title, body) = extract_title("# T\n\n\n  indented\n");
    assert_eq!(title, "T");
    assert_eq!(body, "  indented\n");
    let (title, body) = extract_title("# T");
    assert_eq!(title, "T");
    assert_eq!(body, "");
}

#[test]
fn a_carriage_return_stays_with_the_line_break() {
    let (title, body) = extract_title("# T\r\nbody");
    assert_eq!(title, "T");
    assert_eq!(body, "\r\nbody");
}

#[test]
fn a_document_is_split_at_the_delimiters() {
    let doc = "---\nid: tk-a1b2\nstatus: open\n---\n\n# Title\n\nBody\n";
    let (header, body) = split_document(doc).unwrap();
    assert_eq!(header, "id: tk-a1b2\nstatus: open");
    assert_eq!(body, "# Title\n\nBody");
}

#[test]
fn white_space_around_a_document_is_dropped() {
    let doc = "\n\n  ---\nid: x\n---\n# T\n   \n";
    let (header, body) = split_document(doc).unwrap();
    assert_eq!(header, "id: x");
    assert_eq!(body, "# T");
}

#[test]
fn a_document_without_text_has_an_empty_body() {
    let (header, body) = split_document("---\nid: x\n---").unwrap();
    assert_eq!(header, "id: x");
    assert_eq!(body, "");
}

#[test]
fn the_header_ends_at_the_first_closing_delimiter() {
    let (header, body) = split_document("---\na: 1\n---\nmiddle\n---\nend").unwrap();
    assert_eq!(header, "a: 1");
    assert_eq!(body, "middle\n---\nend");
}

#[test]
fn a_document_must_begin_with_the_delimiter() {
    assert_eq!(
        split_document("# Title\n\nBody"),
        Err(Error::Parse(Malformed::MissingHeader))
    );
    assert_eq!(split_document(""), Err(Error::Parse(Malformed::MissingHeader)));
    assert_eq!(split_document("--\nid: x\n---"), Err(Error::Parse(Malformed::MissingHeader)));
}

#[test]
fn a_header_must_be_closed() {
    assert_eq!(
        split_document("---\nid: x\nstatus: open\n"),
        Err(Error::Parse(Malformed::UnclosedHeader))
    );
    assert_eq!(split_document("---"), Err(Error::Parse(Malformed::UnclosedHeader)));
    assert_eq!(split_document("--- ---"), Err(Error::Parse(Malformed::UnclosedHeader)));
}

#[test]
fn a_document_is_laid_out_in_lines() {
    assert_eq!(
        render_document("id: x\n", "Title", "Body"),
        "---\nid: x\n---\n\n# Title\n\nBody\n"
    );
    assert_eq!(
        render_document("id: x\n", "Title", "Body\n"),
        "---\nid: x\n---\n\n# Title\n\nBody\n"
    );
    assert_eq!(render_document("id: x\n", "Title", ""), "---\nid: x\n---\n\n# Title\n");
}

#[test]
fn what_is_written_is_read_back() {
    let header = "id: tk-a1b2\nstatus: open\ndeps:\n- tk-c3d4\n";
    for body in ["", "One line", "Two\nlines\n", "  indented\n\nwith gaps"] {
        let doc = render_document(header, "A title: with marks #1", body);
        let (read_header, text) = split_document(&doc).unwrap();
        assert_eq!(read_header, header.trim());
        let (title, read_body) = extract_title(&text);
        assert_eq!(title, "A title: with marks #1");
        assert_eq!(read_body, body.trim_end());
    }
}

#[test]
fn a_body_is_read_back_without_the_space_around_it() {
    let doc = render_document("id: x\n", "T", "\n\nbody \n\n");
    let (_, text) = split_document(&doc).unwrap();
    let (title, body) = extract_title(&text);
    assert_eq!(title, "T");
    assert_eq!(body, "body");
    let doc = render_document("id: x\n", "T", "  \n ");
    let (_, text) = split_document(&doc).unwrap();
    let (title, body) = extract_title(&text);
    assert_eq!(title, "T");
    assert_eq!(body, "");
}

#[test]
fn a_header_fits_if_it_closes_only_at_its_end() {
    for header in ["", "id: x\n", "id: x\ndeps:\n- a\n- b\n", "a: '---'\n", "--\n", " ---\n", "\n"] {
        assert!(fits_as_header(header), "{:?}", header);
    }
    for header in ["id: x", "id: x\n---\n", "---\n", "a\n---", "a\n--- b\n", "-\n---x\n"] {
        assert!(!fits_as_header(header), "{:?}", header);
    }
}

#[test]
fn a_title_fits_on_one_line() {
    for title in ["T", "A title", "# odd but fine", "a\tb", "Untitled"] {
        assert!(fits_as_title(title), "{:?}", title);
    }
    for title in ["", " ", " T", "T ", "two\nlines", "T\n", "\u{a0}T", "T\r"] {
        assert!(!fits_as_title(title), "{:?}", title);
    }
}

#[test]
fn a_composed_document_is_read_back() {
    let header = "id: tk-a1b2\nstatus: open\n";
    let doc = compose_document(header, "Title", "Body\n\n").unwrap();
    assert_eq!(doc, "---\nid: tk-a1b2\nstatus: open\n---\n\n# Title\n\nBody\n\n");
    let (read_header, text) = split_document(&doc).unwrap();
    assert_eq!(read_header, "id: tk-a1b2\nstatus: open");
    assert_eq!(extract_title(&text), ("Title".to_string(), "Body"));
}

#[test]
fn what_cannot_be_read_back_is_not_composed() {
    assert_eq!(
        compose_document("id: x\n---\nmore: y\n", "Title", ""),
        Err(Error::Parse(Malformed::UnfitHeader))
    );
    assert_eq!(compose_document("id: x", "Title", ""), Err(Error::Parse(Malformed::UnfitHeader)));
    assert_eq!(compose_document("id: x\n", "", ""), Err(Error::Parse(Malformed::UnfitTitle)));
    assert_eq!(
        compose_document("id: x\n", "two\nlines", ""),
        Err(Error::Parse(Malformed::UnfitTitle))
    );
    assert_eq!(
        compose_document("id: x", "two\nlines", ""),
        Err(Error::Parse(Malformed::UnfitHeader))
    );
}

#[test]
fn an_extracted_title_fits() {
    for text in ["# A\n", "no heading", "  #   spaced   \nbody", "#\tnot a heading", "# a # b"] {
        let (title, _) = extract_title(text);
        assert!(fits_as_title(&title), "{:?}", text);
    }
}
