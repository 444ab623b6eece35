//! End-to-end tests of classification and rendering.

use asmfmt::classify::{classify, classify_line, is_label};
use asmfmt::line::{Line, ScanState, Section};
use asmfmt::render::{reformat, render, RenderError};

fn strings(v: &[&str]) -> Vec<String> {
    v.iter().map(|s| s.to_string()).collect()
}

fn code_state() -> ScanState {
    ScanState { section: Section::Code, current_indent: 1 }
}

fn data_state() -> ScanState {
    ScanState { section: Section::Data, current_indent: 1 }
}

#[test]
fn full_listing_is_aligned() {
    let input = strings(&[
        "; header comment",
        ".data",
        "count dw 0 ; counter",
        "x dd 1",
        ".code",
        "main PROC",
        "_loop: ; top",
        "  mov eax, 1 ; init",
        "  add eax, ebx",
        "main ENDP",
        "END main",
    ]);
    let out = reformat(&input).unwrap();
    let expected = vec![
        "; header comment".to_string(),
        ".data".to_string(),
        "  count       ; counter".to_string(),
        "  x       dd 1".to_string(),
        ".code".to_string(),
        "main PROC".to_string(),
        "_loop:        ; top".to_string(),
        "  mov   eax, 1; init".to_string(),
        "  add   eax, ebx".to_string(),
        "main ENDP".to_string(),
        "END main".to_string(),
    ];
    assert_eq!(out, expected);
}

#[test]
fn order_and_count_are_preserved() {
    let input = strings(&[
        ".data",
        "a db 1",
        ".code",
        "  mov ax, bx",
        "  ret",
    ]);
    let records = classify(&input);
    assert_eq!(records.len(), input.len());
    let out = render(&records).unwrap();
    assert_eq!(out.len(), records.len());
    // relative order: the data line comes out before the two code lines
    assert!(out[1].contains("a"));
    assert!(out[3].contains("mov"));
    assert!(out[4].contains("ret"));
}

#[test]
fn instruction_line_with_comment() {
    // a code line while scanning in the code section at indent one
    let (rec, st) = classify_line("  mov eax, 1 ; init", code_state());
    assert_eq!(rec.elements, vec!["mov".to_string(), "eax,".to_string(), "1".to_string()]);
    assert_eq!(rec.comment, Some("; init".to_string()));
    assert_eq!(rec.indent_level, 1);
    assert_eq!(rec.section, Section::Code);
    assert_eq!(st.section, Section::Code);
    assert_eq!(st.current_indent, 1);
}

#[test]
fn label_line_with_comment() {
    let (rec, _) = classify_line("_loop: ; top", code_state());
    assert_eq!(rec.section, Section::CodeLabel);
    assert_eq!(rec.elements, vec!["_loop:".to_string()]);
    assert_eq!(rec.comment, Some("; top".to_string()));
    assert_eq!(rec.indent_level, 0);
}

#[test]
fn empty_data_line_renders_blank() {
    let (rec, _) = classify_line("", data_state());
    assert_eq!(rec.section, Section::Data);
    assert!(rec.elements.is_empty());
    assert_eq!(rec.comment, None);
    assert_eq!(rec.indent_level, 1);

    let input = strings(&[".data", "x dw 1", "", ".code", "  mov ax, 1"]);
    let out = reformat(&input).unwrap();
    assert_eq!(out[2], "");
}

#[test]
fn comment_only_lines_pass_through_verbatim() {
    let input = strings(&[
        "; kept exactly  as-is",
        "\"quoted line\"",
        ".data",
        "v db 2",
        ".code",
        "  inc ax",
    ]);
    let out = reformat(&input).unwrap();
    assert_eq!(out[0], "; kept exactly  as-is");
    assert_eq!(out[1], "\"quoted line\"");
}

#[test]
fn data_comment_keeps_only_first_token() {
    let (rec, _) = classify_line("count dw 0 ; counter", data_state());
    assert_eq!(rec.elements, vec!["count".to_string()]);
    assert_eq!(rec.comment, Some("; counter".to_string()));

    // without a comment every token is kept
    let (rec, _) = classify_line("count dw 0", data_state());
    assert_eq!(
        rec.elements,
        vec!["count".to_string(), "dw".to_string(), "0".to_string()]
    );
    assert_eq!(rec.comment, None);
}

#[test]
fn delimiter_inside_first_token_splits_it() {
    let (rec, _) = classify_line("x;y", data_state());
    assert_eq!(rec.elements, vec!["x".to_string()]);
    assert_eq!(rec.comment, Some(";y".to_string()));
}

#[test]
fn label_recognition() {
    assert!(is_label("_loop:"));
    assert!(is_label("  _a1:"));
    assert!(is_label("_loop: ; top"));
    assert!(is_label("_x: anything after"));
    assert!(!is_label("loop:"));
    assert!(!is_label("_:"));
    assert!(!is_label("_loop"));
    assert!(!is_label("  mov eax, 1"));
    assert!(!is_label(""));
}

#[test]
fn directives_and_boundaries_switch_state() {
    let st = ScanState { section: Section::Skip, current_indent: 0 };
    let (rec, st) = classify_line(".data", st);
    assert_eq!(rec.section, Section::Skip);
    assert_eq!(rec.elements, vec![".data".to_string()]);
    assert_eq!(st.section, Section::Data);
    assert_eq!(st.current_indent, 1);

    let (rec, st) = classify_line(".code", st);
    assert_eq!(rec.section, Section::Skip);
    assert_eq!(st.section, Section::Code);
    assert_eq!(st.current_indent, 1);

    let (rec, st2) = classify_line("main PROC", st);
    assert_eq!(rec.section, Section::Skip);
    assert_eq!(rec.elements, vec!["main PROC".to_string()]);
    assert_eq!(st2.section, Section::Code);
}

#[test]
fn lines_before_any_directive_pass_through() {
    let st = ScanState { section: Section::Skip, current_indent: 0 };
    let (rec, st2) = classify_line("TITLE something", st);
    assert_eq!(rec.section, Section::Skip);
    assert_eq!(rec.elements, vec!["TITLE something".to_string()]);
    assert_eq!(rec.indent_level, 0);
    assert_eq!(st2.section, Section::Skip);
}

#[test]
fn missing_code_section_is_reported() {
    let input = strings(&[".data", "x dw 1"]);
    assert_eq!(reformat(&input), Err(RenderError::NoCode));
}

#[test]
fn empty_input_is_reported() {
    assert_eq!(reformat(&Vec::new()), Err(RenderError::NoCode));
}

#[test]
fn missing_data_section_is_reported() {
    let input = strings(&[".code", "  mov ax, 1"]);
    assert_eq!(reformat(&input), Err(RenderError::NoData));
}

#[test]
fn code_alignment_shares_one_column() {
    let input = strings(&[
        ".data",
        "v db 9",
        ".code",
        "  mov eax, 1",
        "  cmpxchg ebx, ecx",
        "  ret",
    ]);
    let out = reformat(&input).unwrap();
    // widest first element is "cmpxchg" (7), widened to 8; operands start
    // after the pad plus one two-space indent unit, at column 2 + 8 + 2
    assert_eq!(out[3], "  mov       eax, 1");
    assert_eq!(out[4], "  cmpxchg   ebx, ecx");
    assert_eq!(out[5], "  ret");
    let col = "  mov       ".len();
    assert_eq!(&out[3][col..col + 4], "eax,");
    assert_eq!(&out[4][col..col + 4], "ebx,");
}

#[test]
fn comments_share_one_column() {
    let input = strings(&[
        ".data",
        "value dw 1 ; first",
        ".code",
        "  mov ax, 1 ; second",
        "  ret ; third",
    ]);
    let out = reformat(&input).unwrap();
    let c1 = out[1].find(';').unwrap();
    let c2 = out[3].find(';').unwrap();
    let c3 = out[4].find(';').unwrap();
    assert_eq!(c1, c2);
    assert_eq!(c2, c3);
}

#[test]
fn create_builds_a_record() {
    let rec = Line::create(
        vec!["mov".to_string(), "ax,".to_string()],
        1,
        Section::Code,
        Some("; c".to_string()),
    );
    assert_eq!(rec.elements, vec!["mov".to_string(), "ax,".to_string()]);
    assert_eq!(rec.indent_level, 1);
    assert_eq!(rec.section, Section::Code);
    assert_eq!(rec.comment, Some("; c".to_string()));
}

#[test]
fn formatting_preserves_tokens() {
    let input = strings(&[
        ".data",
        "nums  dd   1,2,3",
        ".code",
        "  imul   ebx,  eax,   6",
    ]);
    let records = classify(&input);
    let out = render(&records).unwrap();
    for (rec, line) in records.iter().zip(out.iter()) {
        if rec.section == Section::Data || rec.section == Section::Code {
            let body_tokens: Vec<&str> = line.split_whitespace().collect();
            let elements: Vec<&str> = rec.elements.iter().map(|e| e.as_str()).collect();
            assert_eq!(body_tokens, elements);
        }
    }
}

#[test]
fn label_line_may_carry_extra_text_as_one_element() {
    // everything before the delimiter stays one element of the label record
    let (rec, _) = classify_line("_x: mov ; c", code_state());
    assert_eq!(rec.section, Section::CodeLabel);
    assert_eq!(rec.elements, vec!["_x: mov".to_string()]);
    assert_eq!(rec.comment, Some("; c".to_string()));
}

#[test]
fn blank_comment_after_delimiterless_trimming_is_kept_verbatim() {
    // a Skip record's comment is appended without padding
    let input = strings(&[
        "; lead",
        ".data",
        "x dw 1",
        ".code",
        "  nop",
    ]);
    let out = reformat(&input).unwrap();
    assert_eq!(out[0], "; lead");
}
