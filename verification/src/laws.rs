//! Global properties of the pipeline, stated and proved over the
//! classification and rendering models.

use vstd::prelude::*;

use crate::classify::{
    classify_all, classify_line_model, code_marker, data_marker, is_boundary, is_comment_only,
    lemma_head_token_exists,
};
use crate::line::{LineModel, ScanState, Section};
use crate::render::{
    body_of, first_width, indent_of, pad_base, raw_body, rendered_line, rest_render,
};
use crate::text::{
    contains_seq, find_char, is_solid, is_space, lemma_tokens_concat, lemma_tokens_solid,
    lemma_tokens_space_prefix, lemma_tokens_trim, lemma_trail_chars, lemma_trimmed_is,
    lemma_trimmed_snoc_space, spaces, tokens_of, trail_start, trimmed,
};

verus! {

/// Passthrough fidelity: a comment-only line is emitted exactly as it was
/// read; a directive or boundary line is emitted as its own trimmed text, so
/// it is fully intact whenever it carries no surrounding whitespace.
pub proof fn lemma_passthrough_fidelity(
    line: Seq<char>,
    st: ScanState,
    cw: int,
    dw: int,
    cpad: int,
)
    requires
        is_comment_only(line) || contains_seq(line, data_marker()) || contains_seq(
            line,
            code_marker(),
        ) || is_boundary(line),
    ensures
        is_comment_only(line) ==> rendered_line(
            classify_line_model(line, st).0,
            cw,
            dw,
            cpad,
        ) == line,
        !is_comment_only(line) ==> rendered_line(
            classify_line_model(line, st).0,
            cw,
            dw,
            cpad,
        ) == trimmed(line),
        !is_comment_only(line) && trimmed(line) == line ==> rendered_line(
            classify_line_model(line, st).0,
            cw,
            dw,
            cpad,
        ) == line,
{
    let rec = classify_line_model(line, st).0;
    if is_comment_only(line) {
        assert(rec.elements =~= Seq::<Seq<char>>::empty());
        assert(raw_body(rec, cw, dw) =~= Seq::<char>::empty());
        assert(trimmed(Seq::<char>::empty()) == Seq::<char>::empty());
        assert(body_of(rec, cw, dw).len() == 0);
        assert(indent_of(rec) =~= Seq::<char>::empty());
        assert(rendered_line(rec, cw, dw, cpad) =~= line);
    } else {
        assert(rec.elements == seq![line] && rec.section == Section::Skip && rec.comment
            is None && rec.indent_level == 0);
        assert(rec.elements[0] == line);
        if line.len() == 0 {
            assert(raw_body(rec, cw, dw) =~= Seq::<char>::empty());
            assert(trimmed(Seq::<char>::empty()) == Seq::<char>::empty());
            assert(trimmed(line) =~= Seq::<char>::empty());
            assert(rendered_line(rec, cw, dw, cpad) =~= trimmed(line));
        } else {
            let tail = rec.elements.subrange(1, 1);
            assert(tail =~= Seq::<Seq<char>>::empty());
            assert(rest_render(tail) == Seq::<char>::empty());
            assert(raw_body(rec, cw, dw) =~= line + spaces(1));
            assert(line + spaces(1) =~= line.push(' '));
            lemma_trimmed_snoc_space(line, ' ');
            assert(body_of(rec, cw, dw) == trimmed(line));
            assert(indent_of(rec) =~= Seq::<char>::empty());
            // an empty body falls under the blank-line rule, which also
            // yields the (then empty) trimmed text
            assert(rendered_line(rec, cw, dw, cpad) =~= trimmed(line));
        }
    }
}

/// Re-tokenizing the rendering of solid elements gives the elements back.
pub proof fn lemma_rest_tokens(elems: Seq<Seq<char>>)
    requires
        forall|i: int| 0 <= i < elems.len() ==> is_solid(#[trigger] elems[i]),
    ensures
        tokens_of(rest_render(elems)) == elems,
    decreases elems.len(),
{
    if elems.len() == 0 {
        assert(tokens_of(rest_render(elems)) =~= elems);
    } else {
        let e0 = elems[0];
        let tail = elems.subrange(1, elems.len() as int);
        assert(is_solid(e0));
        assert(rest_render(elems) == (e0 + spaces(1)) + rest_render(tail));
        assert((e0 + spaces(1)) + rest_render(tail) =~= e0 + (spaces(1) + rest_render(tail)));
        assert(is_space((spaces(1) + rest_render(tail))[0]));
        lemma_tokens_concat(e0, spaces(1) + rest_render(tail));
        lemma_tokens_space_prefix(1, rest_render(tail));
        lemma_rest_tokens(tail);
        assert(tokens_of(rest_render(elems)) =~= elems);
    }
}

/// Idempotent token content over the model: for a non-`Skip` record whose
/// elements are non-empty and whitespace-free (a label record holds a single
/// element), tokenizing the rendered body returns exactly the elements, so
/// formatting neither adds, drops, nor reorders tokens.
pub proof fn lemma_body_tokens(r: LineModel, cw: int, dw: int)
    requires
        r.section != Section::Skip,
        forall|i: int| 0 <= i < r.elements.len() ==> is_solid(#[trigger] r.elements[i]),
        r.section == Section::Code ==> cw >= first_width(r),
        r.section == Section::Data ==> dw >= first_width(r),
        r.section == Section::CodeLabel ==> r.elements.len() <= 1,
    ensures
        tokens_of(body_of(r, cw, dw)) == r.elements,
{
    lemma_tokens_trim(raw_body(r, cw, dw));
    if r.elements.len() == 0 {
        assert(raw_body(r, cw, dw) =~= Seq::<char>::empty());
        assert(tokens_of(body_of(r, cw, dw)) =~= r.elements);
    } else {
        let e0 = r.elements[0];
        let tail = r.elements.subrange(1, r.elements.len() as int);
        assert(is_solid(e0));
        match r.section {
            Section::Code => {
                let k = cw - e0.len() + 2;
                assert(k >= 2);
                assert(raw_body(r, cw, dw) == (e0 + spaces(cw - e0.len()) + spaces(2))
                    + rest_render(tail));
                assert(raw_body(r, cw, dw) =~= e0 + (spaces(k) + rest_render(tail)));
                assert(is_space((spaces(k) + rest_render(tail))[0]));
                lemma_tokens_concat(e0, spaces(k) + rest_render(tail));
                lemma_tokens_space_prefix(k, rest_render(tail));
                lemma_rest_tokens(tail);
                assert(tokens_of(raw_body(r, cw, dw)) =~= r.elements);
            },
            Section::Data => {
                let k = dw - e0.len() + 2;
                assert(k >= 2);
                assert(raw_body(r, cw, dw) == (e0 + spaces(dw - e0.len()) + spaces(2))
                    + rest_render(tail));
                assert(raw_body(r, cw, dw) =~= e0 + (spaces(k) + rest_render(tail)));
                assert(is_space((spaces(k) + rest_render(tail))[0]));
                lemma_tokens_concat(e0, spaces(k) + rest_render(tail));
                lemma_tokens_space_prefix(k, rest_render(tail));
                lemma_rest_tokens(tail);
                assert(tokens_of(raw_body(r, cw, dw)) =~= r.elements);
            },
            Section::CodeLabel => {
                assert(tail =~= Seq::<Seq<char>>::empty());
                assert(rest_render(tail) == Seq::<char>::empty());
                assert(raw_body(r, cw, dw) =~= e0 + Seq::<char>::empty());
                lemma_tokens_concat(e0, Seq::<char>::empty());
                assert(tokens_of(raw_body(r, cw, dw)) =~= r.elements);
            },
            Section::Skip => {},
        }
    }
}

/// The classifier only extracts solid tokens for `Code` and `Data` records,
/// and exactly one element for a label record.
pub proof fn lemma_classified_solid(line: Seq<char>, st: ScanState)
    ensures
        ({
            let rec = classify_line_model(line, st).0;
            &&& (rec.section == Section::Code || rec.section == Section::Data) ==> forall|i: int|
                0 <= i < rec.elements.len() ==> is_solid(#[trigger] rec.elements[i])
            &&& rec.section == Section::CodeLabel ==> rec.elements.len() == 1
        }),
{
    let rec = classify_line_model(line, st).0;
    if !is_comment_only(line) && !contains_seq(line, data_marker()) && !contains_seq(
        line,
        code_marker(),
    ) && !is_boundary(line) {
        if st.section == Section::Data {
            if line.len() > 0 {
                crate::text::lemma_find_from_props(line, ';', 0);
                match find_char(line, ';') {
                    Some(p) => {
                        lemma_head_token_exists(line, p);
                        lemma_tokens_solid(line.subrange(0, p));
                    },
                    None => {
                        lemma_tokens_solid(line);
                    },
                }
            }
        } else if st.section != Section::Skip {
            crate::text::lemma_find_from_props(line, ';', 0);
            match find_char(line, ';') {
                Some(p) => {
                    lemma_tokens_solid(line.subrange(0, p));
                },
                None => {
                    lemma_tokens_solid(line);
                },
            }
        }
    }
}

/// Idempotent token content for classified records: rendering a `Code` or
/// `Data` record and tokenizing the result gives back exactly the elements
/// the classifier extracted; the same holds for a label record whose label
/// text is whitespace-free.
pub proof fn lemma_token_content_preserved(line: Seq<char>, st: ScanState, cw: int, dw: int)
    requires
        ({
            let rec = classify_line_model(line, st).0;
            &&& rec.section != Section::Skip
            &&& rec.section == Section::Code ==> cw >= first_width(rec)
            &&& rec.section == Section::Data ==> dw >= first_width(rec)
            &&& rec.section == Section::CodeLabel ==> is_solid(rec.elements[0])
        }),
    ensures
        ({
            let rec = classify_line_model(line, st).0;
            tokens_of(body_of(rec, cw, dw)) == rec.elements
        }),
{
    let rec = classify_line_model(line, st).0;
    lemma_classified_solid(line, st);
    lemma_body_tokens(rec, cw, dw);
}

/// The alignment invariant carried to the emitted line: each element column
/// of the body sits right after the record's indent prefix.
pub proof fn lemma_rendered_columns(r: LineModel, cw: int, dw: int, cpad: int)
    requires
        r.section == Section::Code || r.section == Section::Data,
        r.elements.len() > 0,
        forall|i: int| 0 <= i < r.elements.len() ==> is_solid(#[trigger] r.elements[i]),
        r.section == Section::Code ==> cw >= r.elements[0].len(),
        r.section == Section::Data ==> dw >= r.elements[0].len(),
        r.indent_level >= 0,
    ensures
        ({
            let w = if r.section == Section::Code {
                cw
            } else {
                dw
            };
            let out = rendered_line(r, cw, dw, cpad);
            let base = 2 * r.indent_level;
            let e0 = r.elements[0];
            &&& out.len() >= base + e0.len()
            &&& out.subrange(base, base + e0.len()) == e0
            &&& r.elements.len() >= 2 ==> out.len() >= base + w + 2 + r.elements[1].len()
                && out.subrange(base + w + 2, base + w + 2 + r.elements[1].len())
                == r.elements[1]
        }),
{
    lemma_aligned_columns(r, cw, dw);
    let w = if r.section == Section::Code {
        cw
    } else {
        dw
    };
    let b = body_of(r, cw, dw);
    let ind = indent_of(r);
    let out = rendered_line(r, cw, dw, cpad);
    let base = 2 * r.indent_level;
    let e0 = r.elements[0];
    assert(ind.len() == base);
    assert(b.len() > 0);
    match r.comment {
        None => {
            assert(out == ind + b);
            assert(forall|j: int| 0 <= j < b.len() ==> out[base + j] == b[j]);
        },
        Some(c) => {
            if r.section == Section::Skip || trimmed(c).len() == 0 {
                assert(out == ind + b + c);
                assert(forall|j: int| 0 <= j < b.len() ==> out[base + j] == b[j]);
            } else {
                assert(out == ind + b + spaces(cpad - (ind.len() + b.len())) + c);
                assert(forall|j: int| 0 <= j < b.len() ==> out[base + j] == b[j]);
            }
        },
    }
    assert(out.subrange(base, base + e0.len()) =~= b.subrange(0, e0.len() as int));
    if r.elements.len() >= 2 {
        let e1 = r.elements[1];
        assert(out.subrange(base + w + 2, base + w + 2 + e1.len()) =~= b.subrange(
            w + 2,
            w + 2 + e1.len(),
        ));
    }
}

/// In a scan from the initial state, `Code` and `Data` records always sit at
/// indent one, label records at indent zero, and passthrough records at
/// indent zero: first elements of a section all start at the same column.
pub proof fn lemma_scan_canonical(line: Seq<char>, st: ScanState)
    requires
        st.canonical(),
    ensures
        classify_line_model(line, st).1.canonical(),
        ({
            let rec = classify_line_model(line, st).0;
            &&& rec.section == Section::Code ==> rec.indent_level == 1
            &&& rec.section == Section::Data ==> rec.indent_level == 1
            &&& rec.section == Section::CodeLabel ==> rec.indent_level == 0
            &&& rec.section == Section::Skip ==> rec.indent_level == 0
        }),
{
}

/// Alignment invariant: in the body of a `Code` record the first element
/// starts at column zero and the second element starts at the shared column
/// `cw + 2`; likewise for `Data` records with `dw`. Since all records of one
/// section share the same indent, first and second elements line up across
/// the whole output.
pub proof fn lemma_aligned_columns(r: LineModel, cw: int, dw: int)
    requires
        r.section == Section::Code || r.section == Section::Data,
        r.elements.len() > 0,
        forall|i: int| 0 <= i < r.elements.len() ==> is_solid(#[trigger] r.elements[i]),
        r.section == Section::Code ==> cw >= r.elements[0].len(),
        r.section == Section::Data ==> dw >= r.elements[0].len(),
    ensures
        ({
            let w = if r.section == Section::Code {
                cw
            } else {
                dw
            };
            let b = body_of(r, cw, dw);
            let e0 = r.elements[0];
            &&& b.len() >= e0.len()
            &&& b.subrange(0, e0.len() as int) == e0
            &&& r.elements.len() >= 2 ==> b.len() >= w + 2 + r.elements[1].len()
                && b.subrange(w + 2, w + 2 + r.elements[1].len()) == r.elements[1]
        }),
{
    let w = if r.section == Section::Code {
        cw
    } else {
        dw
    };
    let e0 = r.elements[0];
    let l0 = e0.len() as int;
    assert(l0 >= 1);
    let tail = r.elements.subrange(1, r.elements.len() as int);
    let rr = rest_render(tail);
    let raw = raw_body(r, cw, dw);
    let lead = e0 + spaces(w - l0) + spaces(2);
    assert(raw == lead + rr);
    assert(lead.len() == w + 2);
    assert(forall|j: int| 0 <= j < l0 ==> raw[j] == e0[j]);
    assert(forall|t: int| l0 <= t < w + 2 ==> is_space(#[trigger] raw[t]));
    assert(forall|j: int| 0 <= j < rr.len() ==> raw[w + 2 + j] == rr[j]);
    lemma_trail_chars(raw);
    let ts = trail_start(raw);
    if tail.len() == 0 {
        assert(rr =~= Seq::<char>::empty());
        assert(raw.len() == w + 2);
        assert(!is_space(raw[l0 - 1]));
        assert(ts >= l0);
        assert(ts <= l0) by {
            if ts > l0 {
                assert(is_space(raw[ts - 1]));
            }
        }
        lemma_trimmed_is(raw, 0, l0);
        assert(body_of(r, cw, dw) == raw.subrange(0, l0));
        assert(raw.subrange(0, l0) =~= e0);
    } else {
        let e1 = tail[0];
        let l1 = e1.len() as int;
        assert(is_solid(e1));
        let tail2 = tail.subrange(1, tail.len() as int);
        assert(rr == (e1 + spaces(1)) + rest_render(tail2));
        assert(forall|j: int| 0 <= j < l1 ==> rr[j] == e1[j]);
        assert(!is_space(raw[w + 2 + l1 - 1]));
        assert(ts >= w + 2 + l1) by {
            if ts < w + 2 + l1 {
                assert(is_space(raw[w + 2 + l1 - 1]));
            }
        }
        assert(ts > 0);
        assert(!is_space(raw[0]));
        assert(!is_space(raw[ts - 1]));
        lemma_trimmed_is(raw, 0, ts);
        let b = body_of(r, cw, dw);
        assert(b == raw.subrange(0, ts));
        assert(b.len() == ts >= w + 2 + l1);
        assert(w + 2 + l1 > l0);
        assert(b.subrange(0, l0) =~= e0);
        assert(b.subrange(w + 2, w + 2 + l1) =~= e1);
    }
}

/// Comment column invariant: a non-`Skip` record with a non-blank comment has
/// the comment start exactly at the shared column `cpad`, which is at least
/// the widest indent-plus-body among all commented records.
pub proof fn lemma_comment_column(r: LineModel, c: Seq<char>, cw: int, dw: int, cpad: int)
    requires
        r.comment == Some(c),
        r.section != Section::Skip,
        trimmed(c).len() > 0,
        r.indent_level >= 0,
        cpad >= pad_base(r, cw, dw),
    ensures
        rendered_line(r, cw, dw, cpad).len() == cpad + c.len(),
        rendered_line(r, cw, dw, cpad).subrange(cpad, cpad + c.len()) == c,
{
    let b = body_of(r, cw, dw);
    let ind = indent_of(r);
    let gap = spaces(cpad - (ind.len() + b.len()));
    let out = rendered_line(r, cw, dw, cpad);
    assert(out == ind + b + gap + c);
    assert(ind.len() + b.len() + gap.len() == cpad);
    assert(out.subrange(cpad, cpad + c.len()) =~= c);
}

/// Indent uniformity over a whole scan from the initial state.
pub proof fn lemma_indent_uniform(lines: Seq<Seq<char>>, st: ScanState)
    requires
        st.canonical(),
    ensures
        forall|i: int|
            0 <= i < classify_all(lines, st).len() ==> {
                let rec = #[trigger] classify_all(lines, st)[i];
                &&& rec.section == Section::Code ==> rec.indent_level == 1
                &&& rec.section == Section::Data ==> rec.indent_level == 1
                &&& rec.section == Section::CodeLabel ==> rec.indent_level == 0
                &&& rec.section == Section::Skip ==> rec.indent_level == 0
            },
    decreases lines.len(),
{
    if lines.len() > 0 {
        let step = classify_line_model(lines[0], st);
        let tail = lines.subrange(1, lines.len() as int);
        lemma_scan_canonical(lines[0], st);
        lemma_indent_uniform(tail, step.1);
        let all = classify_all(lines, st);
        assert forall|i: int| 0 <= i < all.len() implies {
            let rec = #[trigger] all[i];
            &&& rec.section == Section::Code ==> rec.indent_level == 1
            &&& rec.section == Section::Data ==> rec.indent_level == 1
            &&& rec.section == Section::CodeLabel ==> rec.indent_level == 0
            &&& rec.section == Section::Skip ==> rec.indent_level == 0
        } by {
            if i > 0 {
                assert(all[i] == classify_all(tail, step.1)[i - 1]);
            } else {
                assert(all[0] == step.0);
            }
        }
    }
}

/// Comment column invariant over a whole sequence: every non-`Skip` record
/// with a non-blank comment has its comment begin exactly at the shared
/// column `comment_width`, which is at least the widest indent-plus-body
/// among all commented records.
pub proof fn lemma_comment_column_invariant(
    recs: Seq<LineModel>,
    i: int,
    c: Seq<char>,
    cw: int,
    dw: int,
)
    requires
        0 <= i < recs.len(),
        recs[i].comment == Some(c),
        recs[i].section != Section::Skip,
        trimmed(c).len() > 0,
        recs[i].indent_level >= 0,
    ensures
        ({
            let cpad = crate::render::comment_width(recs, cw, dw);
            &&& cpad >= pad_base(recs[i], cw, dw)
            &&& rendered_line(recs[i], cw, dw, cpad).len() == cpad + c.len()
            &&& rendered_line(recs[i], cw, dw, cpad).subrange(cpad, cpad + c.len() as int) == c
        }),
{
    crate::render::lemma_comment_width_ge(recs, cw, dw);
    lemma_comment_column(recs[i], c, cw, dw, crate::render::comment_width(recs, cw, dw));
}

/// Element solidity over a whole scan: every `Code` and `Data` record holds
/// only non-empty, whitespace-free tokens, and every label record holds
/// exactly one element.
pub proof fn lemma_solid_uniform(lines: Seq<Seq<char>>, st: ScanState)
    ensures
        forall|i: int|
            0 <= i < classify_all(lines, st).len() ==> {
                let rec = #[trigger] classify_all(lines, st)[i];
                &&& (rec.section == Section::Code || rec.section == Section::Data)
                    ==> forall|e: int|
                    0 <= e < rec.elements.len() ==> is_solid(#[trigger] rec.elements[e])
                &&& rec.section == Section::CodeLabel ==> rec.elements.len() == 1
            },
    decreases lines.len(),
{
    if lines.len() > 0 {
        let step = classify_line_model(lines[0], st);
        let tail = lines.subrange(1, lines.len() as int);
        lemma_classified_solid(lines[0], st);
        lemma_solid_uniform(tail, step.1);
        let all = classify_all(lines, st);
        assert forall|i: int| 0 <= i < all.len() implies {
            let rec = #[trigger] all[i];
            &&& (rec.section == Section::Code || rec.section == Section::Data) ==> forall|e: int|
                0 <= e < rec.elements.len() ==> is_solid(#[trigger] rec.elements[e])
            &&& rec.section == Section::CodeLabel ==> rec.elements.len() == 1
        } by {
            if i > 0 {
                assert(all[i] == classify_all(tail, step.1)[i - 1]);
            } else {
                assert(all[0] == step.0);
            }
        }
    }
}

/// Alignment invariant over a whole run: in the output of a scan from the
/// initial state, the first elements of any two `Code` records start at the
/// same column (two, after the shared one-level indent), and their second
/// elements start at the same column `2 + cw + 2`; the same holds for `Data`
/// records with `dw`.
pub proof fn lemma_alignment_invariant(
    lines: Seq<Seq<char>>,
    i: int,
    j: int,
    cw: int,
    dw: int,
    cpad: int,
)
    requires
        ({
            let recs = classify_all(lines, crate::line::initial_state());
            &&& 0 <= i < recs.len()
            &&& 0 <= j < recs.len()
            &&& recs[i].section == recs[j].section
            &&& recs[i].section == Section::Code || recs[i].section == Section::Data
            &&& recs[i].elements.len() > 0
            &&& recs[j].elements.len() > 0
            &&& cw == crate::render::code_width(recs)
            &&& dw == crate::render::data_width(recs)
        }),
    ensures
        ({
            let recs = classify_all(lines, crate::line::initial_state());
            let w = if recs[i].section == Section::Code {
                cw
            } else {
                dw
            };
            let out_i = rendered_line(recs[i], cw, dw, cpad);
            let out_j = rendered_line(recs[j], cw, dw, cpad);
            &&& out_i.subrange(2, 2 + recs[i].elements[0].len() as int) == recs[i].elements[0]
            &&& out_j.subrange(2, 2 + recs[j].elements[0].len() as int) == recs[j].elements[0]
            &&& recs[i].elements.len() >= 2 && recs[j].elements.len() >= 2 ==> out_i.subrange(
                2 + w + 2,
                2 + w + 2 + recs[i].elements[1].len() as int,
            ) == recs[i].elements[1] && out_j.subrange(
                2 + w + 2,
                2 + w + 2 + recs[j].elements[1].len() as int,
            ) == recs[j].elements[1]
        }),
{
    let recs = classify_all(lines, crate::line::initial_state());
    lemma_solid_uniform(lines, crate::line::initial_state());
    lemma_indent_uniform(lines, crate::line::initial_state());
    crate::render::lemma_max_first_ge(recs, Section::Code);
    crate::render::lemma_max_first_ge(recs, Section::Data);
    assert(crate::render::max_first_width(recs, Section::Code) % 2 >= 0);
    assert(crate::render::max_first_width(recs, Section::Data) % 2 >= 0);
    if recs[i].section == Section::Code {
        assert(crate::render::max_first_width(recs, Section::Code) >= first_width(recs[i]));
        assert(crate::render::max_first_width(recs, Section::Code) >= first_width(recs[j]));
        assert(cw >= recs[i].elements[0].len());
        assert(cw >= recs[j].elements[0].len());
    } else {
        assert(crate::render::max_first_width(recs, Section::Data) >= first_width(recs[i]));
        assert(crate::render::max_first_width(recs, Section::Data) >= first_width(recs[j]));
        assert(dw >= recs[i].elements[0].len());
        assert(dw >= recs[j].elements[0].len());
    }
    lemma_rendered_columns(recs[i], cw, dw, cpad);
    lemma_rendered_columns(recs[j], cw, dw, cpad);
    assert(2 * recs[i].indent_level == 2);
    assert(2 * recs[j].indent_level == 2);
}

} // verus!
