//! The classifier: consumes raw lines one at a time, together with the
//! scanning state, and produces one `Line` record per input line.

use vstd::prelude::*;

use crate::line::{initial_state, Line, LineModel, ScanState, Section};
use crate::text::{
    contains_seq, contains_str, find_char, find_char_in, is_word_char_exec, lemma_run_bounds,
    lemma_run_chars, lemma_tokens_nonempty, lemma_word_run_is, space_prefix_end, space_run,
    tokenize, tokens_of, trim_str, trimmed, word_run,
};

verus! {

/// The marker of a data-section directive.
pub open spec fn data_marker() -> Seq<char> {
    seq!['.', 'd', 'a', 't', 'a']
}

/// The marker of a code-section directive.
pub open spec fn code_marker() -> Seq<char> {
    seq!['.', 'c', 'o', 'd', 'e']
}

/// The procedure-begin keyword.
pub open spec fn proc_marker() -> Seq<char> {
    seq!['P', 'R', 'O', 'C']
}

/// The procedure-end keyword.
pub open spec fn endp_marker() -> Seq<char> {
    seq!['E', 'N', 'D', 'P']
}

/// The program-end marker.
pub open spec fn end_main_marker() -> Seq<char> {
    seq!['E', 'N', 'D', ' ', 'm', 'a', 'i', 'n']
}

/// The label pattern: optional whitespace, an underscore, at least one more
/// word character, then a colon; anything may follow.
pub open spec fn is_label_line(s: Seq<char>) -> bool {
    let a = space_run(s);
    &&& a < s.len()
    &&& s[a] == '_'
    &&& {
        let w = word_run(s.subrange(a + 1, s.len() as int));
        &&& w >= 1
        &&& a + 1 + w < s.len()
        &&& s[a + 1 + w] == ':'
    }
}

/// A comment-only or quote-led line: after trimming, it starts with `;` or `"`.
pub open spec fn is_comment_only(line: Seq<char>) -> bool {
    let t = trimmed(line);
    t.len() > 0 && (t[0] == ';' || t[0] == '"')
}

/// A procedure or program boundary line.
pub open spec fn is_boundary(line: Seq<char>) -> bool {
    ||| contains_seq(line, proc_marker())
    ||| contains_seq(line, endp_marker())
    ||| contains_seq(line, end_main_marker())
}

/// The record for a line in the data section.
pub open spec fn data_line_model(line: Seq<char>, ind: int) -> LineModel {
    if line.len() == 0 {
        LineModel { elements: seq![], indent_level: ind, section: Section::Data, comment: None }
    } else {
        match find_char(line, ';') {
            Some(p) => LineModel {
                elements: seq![tokens_of(line.subrange(0, p))[0]],
                indent_level: ind,
                section: Section::Data,
                comment: Some(line.subrange(p, line.len() as int)),
            },
            None => LineModel {
                elements: tokens_of(line),
                indent_level: ind,
                section: Section::Data,
                comment: None,
            },
        }
    }
}

/// The record for a line in the code section.
pub open spec fn code_line_model(line: Seq<char>, ind: int) -> LineModel {
    if is_label_line(line) {
        match find_char(line, ';') {
            Some(p) => LineModel {
                elements: seq![trimmed(line.subrange(0, p))],
                indent_level: ind - 1,
                section: Section::CodeLabel,
                comment: Some(line.subrange(p, line.len() as int)),
            },
            None => LineModel {
                elements: seq![trimmed(line)],
                indent_level: ind - 1,
                section: Section::CodeLabel,
                comment: None,
            },
        }
    } else {
        match find_char(line, ';') {
            Some(p) => LineModel {
                elements: tokens_of(line.subrange(0, p)),
                indent_level: ind,
                section: Section::Code,
                comment: Some(line.subrange(p, line.len() as int)),
            },
            None => LineModel {
                elements: tokens_of(line),
                indent_level: ind,
                section: Section::Code,
                comment: None,
            },
        }
    }
}

/// The record for one line and the scanning state after it, in rule priority
/// order: comment-only lines, the two section directives, boundary markers,
/// then dispatch on the current section.
pub open spec fn classify_line_model(line: Seq<char>, st: ScanState) -> (LineModel, ScanState) {
    if is_comment_only(line) {
        (
            LineModel {
                elements: seq![],
                indent_level: 0,
                section: Section::Skip,
                comment: Some(line),
            },
            st,
        )
    } else if contains_seq(line, data_marker()) {
        (
            LineModel { elements: seq![line], indent_level: 0, section: Section::Skip, comment: None },
            ScanState { section: Section::Data, current_indent: 1 },
        )
    } else if contains_seq(line, code_marker()) {
        (
            LineModel { elements: seq![line], indent_level: 0, section: Section::Skip, comment: None },
            ScanState { section: Section::Code, current_indent: 1 },
        )
    } else if is_boundary(line) {
        (
            LineModel { elements: seq![line], indent_level: 0, section: Section::Skip, comment: None },
            st,
        )
    } else if st.section == Section::Data {
        (data_line_model(line, st.current_indent as int), st)
    } else if st.section == Section::Skip {
        (
            LineModel {
                elements: seq![line],
                indent_level: st.current_indent as int,
                section: Section::Skip,
                comment: None,
            },
            st,
        )
    } else {
        (code_line_model(line, st.current_indent as int), st)
    }
}

/// The records for a whole input, threading the state through the scan.
pub open spec fn classify_all(lines: Seq<Seq<char>>, st: ScanState) -> Seq<LineModel>
    decreases lines.len(),
{
    if lines.len() == 0 {
        Seq::empty()
    } else {
        let r = classify_line_model(lines[0], st);
        seq![r.0] + classify_all(lines.subrange(1, lines.len() as int), r.1)
    }
}

/// Executable test for the label pattern: optional whitespace, an
/// underscore-led word of at least two characters, then a colon.
pub fn is_label(line: &str) -> (r: bool)
    ensures
        r == is_label_line(line@),
{
    let n = line.unicode_len();
    let a = space_prefix_end(line);
    proof {
        lemma_run_bounds(line@);
    }
    if a == n {
        return false;
    }
    if line.get_char(a) != '_' {
        return false;
    }
    let ghost tail = line@.subrange(a + 1, n as int);
    let mut j: usize = a + 1;
    while j < n && is_word_char_exec(line.get_char(j))
        invariant
            a + 1 <= j <= n,
            n == line@.len(),
            forall|k: int| a + 1 <= k < j ==> crate::text::is_word_char(#[trigger] line@[k]),
        decreases n - j,
    {
        j = j + 1;
    }
    proof {
        assert(forall|y: int| 0 <= y < tail.len() ==> tail[y] == line@[a + 1 + y]);
        lemma_word_run_is(tail, j - (a + 1));
    }
    if j == a + 1 {
        return false;
    }
    j < n && line.get_char(j) == ':'
}

/// Classifies one line given the scanning state, returning the record and the
/// state for the next line.
pub fn classify_line(line: &str, st: ScanState) -> (r: (Line, ScanState))
    requires
        st.wf(),
    ensures
        r.0@ == classify_line_model(line@, st).0,
        r.1 == classify_line_model(line@, st).1,
        r.1.wf(),
{
    let t = trim_str(line);
    let t_len = t.unicode_len();
    if t_len > 0 && (t.get_char(0) == ';' || t.get_char(0) == '"') {
        let rec = Line {
            elements: Vec::new(),
            indent_level: 0,
            section: Section::Skip,
            comment: Some(line.to_owned()),
        };
        proof {
            assert(rec@.elements =~= classify_line_model(line@, st).0.elements);
        }
        return (rec, st);
    }
    proof {
        assert(!is_comment_only(line@));
    }
    if contains_str(line, ".data") {
        proof {
            reveal_strlit(".data");
            assert(".data"@ =~= data_marker());
        }
        let elements = one_element(line.to_owned());
        let rec = Line { elements, indent_level: 0, section: Section::Skip, comment: None };
        let st2 = ScanState { section: Section::Data, current_indent: 1 };
        return (rec, st2);
    }
    proof {
        reveal_strlit(".data");
        assert(".data"@ =~= data_marker());
    }
    if contains_str(line, ".code") {
        proof {
            reveal_strlit(".code");
            assert(".code"@ =~= code_marker());
        }
        let elements = one_element(line.to_owned());
        let rec = Line { elements, indent_level: 0, section: Section::Skip, comment: None };
        let st2 = ScanState { section: Section::Code, current_indent: 1 };
        return (rec, st2);
    }
    proof {
        reveal_strlit(".code");
        assert(".code"@ =~= code_marker());
    }
    if contains_str(line, "PROC") || contains_str(line, "ENDP") || contains_str(line, "END main") {
        proof {
            reveal_strlit("PROC");
            reveal_strlit("ENDP");
            reveal_strlit("END main");
            assert("PROC"@ =~= proc_marker());
            assert("ENDP"@ =~= endp_marker());
            assert("END main"@ =~= end_main_marker());
        }
        let elements = one_element(line.to_owned());
        let rec = Line { elements, indent_level: 0, section: Section::Skip, comment: None };
        return (rec, st);
    }
    proof {
        reveal_strlit("PROC");
        reveal_strlit("ENDP");
        reveal_strlit("END main");
        assert("PROC"@ =~= proc_marker());
        assert("ENDP"@ =~= endp_marker());
        assert("END main"@ =~= end_main_marker());
        assert(!is_boundary(line@));
    }
    match st.section {
        Section::Data => (classify_data_line(line, st), st),
        Section::Skip => {
            let elements = one_element(line.to_owned());
            let rec = Line {
                elements,
                indent_level: st.current_indent,
                section: Section::Skip,
                comment: None,
            };
            (rec, st)
        },
        _ => {
            proof {
                assert(st.section == Section::Code);
            }
            (classify_code_line(line, st), st)
        },
    }
}

/// A vector holding one string.
fn one_element(s: String) -> (r: Vec<String>)
    ensures
        r.deep_view() == seq![s@],
{
    let ghost v = s@;
    let mut r: Vec<String> = Vec::new();
    r.push(s);
    proof {
        assert(r.deep_view() =~= seq![v]);
    }
    r
}

/// Classifies a non-directive line while scanning in the data section.
fn classify_data_line(line: &str, st: ScanState) -> (r: Line)
    requires
        !is_comment_only(line@),
    ensures
        r@ == data_line_model(line@, st.current_indent as int),
{
    let n = line.unicode_len();
    if n == 0 {
        let rec = Line {
            elements: Vec::new(),
            indent_level: st.current_indent,
            section: Section::Data,
            comment: None,
        };
        proof {
            assert(rec@.elements =~= data_line_model(line@, st.current_indent as int).elements);
        }
        return rec;
    }
    match find_char_in(line, ';') {
        Some(p) => {
            proof {
                crate::text::lemma_find_from_props(line@, ';', 0);
                lemma_head_token_exists(line@, p as int);
            }
            let pre = line.substring_char(0, p);
            let toks = tokenize(pre);
            let first = toks[0].clone();
            let elements = one_element(first);
            let comment = line.substring_char(p, n).to_owned();
            let rec = Line {
                elements,
                indent_level: st.current_indent,
                section: Section::Data,
                comment: Some(comment),
            };
            proof {
                assert(toks.deep_view()[0] == toks@[0]@);
                assert(rec@.elements =~= seq![tokens_of(line@.subrange(0, p as int))[0]]);
            }
            rec
        },
        None => {
            let elements = tokenize(line);
            Line {
                elements,
                indent_level: st.current_indent,
                section: Section::Data,
                comment: None,
            }
        },
    }
}

/// The trimmed text starts at the first non-space character.
pub proof fn lemma_trim_first(line: Seq<char>)
    requires
        space_run(line) < line.len(),
    ensures
        trimmed(line).len() > 0,
        trimmed(line)[0] == line[space_run(line)],
{
    lemma_run_bounds(line);
    lemma_run_chars(line);
    crate::text::lemma_trail_chars(line);
    let a = space_run(line);
    let b = crate::text::trail_start(line);
    assert(!crate::text::is_space(line[a]));
    assert(a < b);
    crate::text::lemma_trimmed_is(line, a, b);
    assert(trimmed(line) == line.subrange(a, b));
}

/// In the data section, a line that carries a comment has a non-whitespace
/// character strictly before the comment delimiter, so a head token exists.
pub proof fn lemma_head_token_exists(line: Seq<char>, p: int)
    requires
        !is_comment_only(line),
        find_char(line, ';') == Some(p),
    ensures
        0 <= p <= line.len(),
        tokens_of(line.subrange(0, p)).len() >= 1,
{
    lemma_run_bounds(line);
    lemma_run_chars(line);
    crate::text::lemma_find_from_props(line, ';', 0);
    let a = space_run(line);
    // the line is not all spaces, else it would hold no ';'
    assert(a < line.len());
    assert(!crate::text::is_space(line[a]));
    lemma_trim_first(line);
    assert(trimmed(line)[0] == line[a]);
    assert(line[a] != ';');
    // the first ';' does not precede the first non-space position
    assert(p > a);
    let pre = line.subrange(0, p);
    assert(!crate::text::is_space(pre[a]));
    lemma_tokens_nonempty(pre, a);
}

/// Classifies a non-directive line while scanning in the code section.
fn classify_code_line(line: &str, st: ScanState) -> (r: Line)
    requires
        st.current_indent >= 1,
    ensures
        r@ == code_line_model(line@, st.current_indent as int),
{
    let n = line.unicode_len();
    if is_label(line) {
        match find_char_in(line, ';') {
            Some(p) => {
                proof {
                    crate::text::lemma_find_from_props(line@, ';', 0);
                }
                let head = trim_str(line.substring_char(0, p)).to_owned();
                let elements = one_element(head);
                let comment = line.substring_char(p, n).to_owned();
                let rec = Line {
                    elements,
                    indent_level: st.current_indent - 1,
                    section: Section::CodeLabel,
                    comment: Some(comment),
                };
                proof {
                    assert(rec@.elements =~= seq![trimmed(line@.subrange(0, p as int))]);
                }
                rec
            },
            None => {
                let head = trim_str(line).to_owned();
                let elements = one_element(head);
                let rec = Line {
                    elements,
                    indent_level: st.current_indent - 1,
                    section: Section::CodeLabel,
                    comment: None,
                };
                proof {
                    assert(rec@.elements =~= seq![trimmed(line@)]);
                }
                rec
            },
        }
    } else {
        match find_char_in(line, ';') {
            Some(p) => {
                proof {
                    crate::text::lemma_find_from_props(line@, ';', 0);
                }
                let pre = line.substring_char(0, p);
                let elements = tokenize(pre);
                let comment = line.substring_char(p, n).to_owned();
                Line {
                    elements,
                    indent_level: st.current_indent,
                    section: Section::Code,
                    comment: Some(comment),
                }
            },
            None => {
                let elements = tokenize(line);
                Line {
                    elements,
                    indent_level: st.current_indent,
                    section: Section::Code,
                    comment: None,
                }
            },
        }
    }
}

/// A record's first element is never longer than the line it came from.
pub proof fn lemma_classified_width(line: Seq<char>, st: ScanState)
    ensures
        ({
            let rec = classify_line_model(line, st).0;
            rec.elements.len() > 0 ==> rec.elements[0].len() <= line.len()
        }),
{
    let rec = classify_line_model(line, st).0;
    crate::text::lemma_trimmed_len(line);
    crate::text::lemma_tokens_len_bound(line);
    crate::text::lemma_find_from_props(line, ';', 0);
    if is_comment_only(line) || contains_seq(line, data_marker()) || contains_seq(
        line,
        code_marker(),
    ) || is_boundary(line) || st.section == Section::Skip {
    } else if st.section == Section::Data {
        if line.len() > 0 {
            match find_char(line, ';') {
                Some(p) => {
                    lemma_head_token_exists(line, p);
                    let pre = line.subrange(0, p);
                    crate::text::lemma_tokens_len_bound(pre);
                },
                None => {},
            }
        }
    } else {
        match find_char(line, ';') {
            Some(p) => {
                let pre = line.subrange(0, p);
                crate::text::lemma_trimmed_len(pre);
                crate::text::lemma_tokens_len_bound(pre);
            },
            None => {},
        }
    }
}

/// Every record's first element stays within the longest line's length.
pub proof fn lemma_classify_all_width(lines: Seq<Seq<char>>, st: ScanState, bound: int)
    requires
        forall|j: int| 0 <= j < lines.len() ==> (#[trigger] lines[j]).len() <= bound,
        bound >= 0,
    ensures
        classify_all(lines, st).len() == lines.len(),
        forall|i: int|
            0 <= i < lines.len() ==> ((#[trigger] classify_all(lines, st)[i]).elements.len() > 0
                ==> classify_all(lines, st)[i].elements[0].len() <= bound),
    decreases lines.len(),
{
    if lines.len() > 0 {
        let step = classify_line_model(lines[0], st);
        let tail = lines.subrange(1, lines.len() as int);
        lemma_classified_width(lines[0], st);
        lemma_classify_all_width(tail, step.1, bound);
        let all = classify_all(lines, st);
        assert forall|i: int|
            0 <= i < lines.len() implies ((#[trigger] all[i]).elements.len() > 0
            ==> all[i].elements[0].len() <= bound) by {
            if i > 0 {
                assert(all[i] == classify_all(tail, step.1)[i - 1]);
            } else {
                assert(all[0] == step.0);
            }
        }
    }
}

/// Classifies the whole input, one record per line, from the initial state.
pub fn classify(lines: &Vec<String>) -> (r: Vec<Line>)
    ensures
        r.deep_view() == classify_all(lines.deep_view(), initial_state()),
        r@.len() == lines@.len(),
{
    let ghost all = lines.deep_view();
    let mut out: Vec<Line> = Vec::new();
    let mut st = ScanState::start();
    let mut i: usize = 0;
    proof {
        assert(all.subrange(0, all.len() as int) =~= all);
        assert(out.deep_view() =~= Seq::<LineModel>::empty());
    }
    while i < lines.len()
        invariant
            0 <= i <= lines@.len(),
            all == lines.deep_view(),
            all.len() == lines@.len(),
            st.wf(),
            out@.len() == i,
            classify_all(all, initial_state()) == out.deep_view() + classify_all(
                all.subrange(i as int, all.len() as int),
                st,
            ),
        decreases lines@.len() - i,
    {
        let ghost pre = out.deep_view();
        let ghost st0 = st;
        let ghost tail = all.subrange(i as int, all.len() as int);
        proof {
            assert(tail[0] == all[i as int]);
            assert(all[i as int] == lines@[i as int]@);
        }
        let (rec, st2) = classify_line(lines[i].as_str(), st);
        out.push(rec);
        st = st2;
        proof {
            let step = classify_line_model(tail[0], st0);
            assert(rec@ == step.0 && st == step.1);
            assert(classify_all(tail, st0) == seq![step.0] + classify_all(
                tail.subrange(1, tail.len() as int),
                step.1,
            ));
            assert(tail.subrange(1, tail.len() as int) =~= all.subrange(
                i + 1,
                all.len() as int,
            ));
            assert(out.deep_view() =~= pre.push(rec@));
            assert(pre + classify_all(tail, st0) =~= out.deep_view() + classify_all(
                all.subrange(i + 1, all.len() as int),
                st,
            ));
        }
        i = i + 1;
    }
    proof {
        assert(all.subrange(all.len() as int, all.len() as int) =~= Seq::<Seq<char>>::empty());
        assert(classify_all(all, initial_state()) =~= out.deep_view());
    }
    out
}

} // verus!
