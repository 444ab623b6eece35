//! The layout renderer: computes the shared column widths from the whole
//! record sequence, then emits one formatted text line per record, in order.

use vstd::prelude::*;

use crate::classify::{classify, classify_all, lemma_classify_all_width};
use crate::line::{initial_state, Line, LineModel, Section};
use crate::text::{make_spaces, spaces, trim_str, trimmed};

verus! {

/// A rendering failure: alignment needs at least one `Code` record and one
/// `Data` record with a non-empty first element.
#[derive(Clone, Copy, PartialEq, Eq, Structural, Debug)]
pub enum RenderError {
    NoCode,
    NoData,
}

/// Width of a record's first element, or zero without one.
pub open spec fn first_width(r: LineModel) -> int {
    if r.elements.len() > 0 {
        r.elements[0].len() as int
    } else {
        0
    }
}

/// The widest first element among records of the given section.
pub open spec fn max_first_width(recs: Seq<LineModel>, sec: Section) -> int
    decreases recs.len(),
{
    if recs.len() == 0 {
        0
    } else {
        let h = if recs[0].section == sec {
            first_width(recs[0])
        } else {
            0
        };
        let t = max_first_width(recs.subrange(1, recs.len() as int), sec);
        if h >= t {
            h
        } else {
            t
        }
    }
}

/// Some record of the given section has a non-empty first element.
pub open spec fn has_sized_head(recs: Seq<LineModel>, sec: Section) -> bool {
    exists|i: int|
        0 <= i < recs.len() && (#[trigger] recs[i]).section == sec && recs[i].elements.len() > 0
            && recs[i].elements[0].len() > 0
}

/// The widening rule: a pad grows by its remainder modulo the indent unit.
pub open spec fn widened(w: int) -> int {
    w + w % 2
}

/// The operand column width shared by all `Code` records.
pub open spec fn code_width(recs: Seq<LineModel>) -> int {
    widened(max_first_width(recs, Section::Code))
}

/// The operand column width shared by all `Data` records.
pub open spec fn data_width(recs: Seq<LineModel>) -> int {
    widened(max_first_width(recs, Section::Data))
}

/// Rendering of the elements after the first: each non-empty element is
/// followed by a single space.
pub open spec fn rest_render(elems: Seq<Seq<char>>) -> Seq<char>
    decreases elems.len(),
{
    if elems.len() == 0 {
        Seq::empty()
    } else {
        (if elems[0].len() == 0 {
            Seq::<char>::empty()
        } else {
            elems[0] + spaces(1)
        }) + rest_render(elems.subrange(1, elems.len() as int))
    }
}

/// The body before trimming: the first element is padded to the section's
/// column width plus one indent unit (`Code`/`Data`), kept as-is
/// (`CodeLabel`), or treated like any other element (`Skip`).
pub open spec fn raw_body(r: LineModel, cw: int, dw: int) -> Seq<char> {
    if r.elements.len() == 0 {
        Seq::empty()
    } else {
        let head = r.elements[0];
        let lead = match r.section {
            Section::Code => head + spaces(cw - head.len()) + spaces(2),
            Section::Data => head + spaces(dw - head.len()) + spaces(2),
            Section::CodeLabel => head,
            Section::Skip => if head.len() == 0 {
                Seq::<char>::empty()
            } else {
                head + spaces(1)
            },
        };
        lead + rest_render(r.elements.subrange(1, r.elements.len() as int))
    }
}

/// A record's body: the concatenated element renderings, trimmed.
pub open spec fn body_of(r: LineModel, cw: int, dw: int) -> Seq<char> {
    trimmed(raw_body(r, cw, dw))
}

/// A record's indent prefix: two spaces per indent level.
pub open spec fn indent_of(r: LineModel) -> Seq<char> {
    spaces(2 * r.indent_level)
}

/// The width of a record's indent prefix plus body.
pub open spec fn pad_base(r: LineModel, cw: int, dw: int) -> int {
    indent_of(r).len() as int + body_of(r, cw, dw).len() as int
}

/// The comment column: the largest indent-plus-body width among records that
/// carry a comment.
pub open spec fn comment_width(recs: Seq<LineModel>, cw: int, dw: int) -> int
    decreases recs.len(),
{
    if recs.len() == 0 {
        0
    } else {
        let h = if recs[0].comment is Some {
            pad_base(recs[0], cw, dw)
        } else {
            0
        };
        let t = comment_width(recs.subrange(1, recs.len() as int), cw, dw);
        if h >= t {
            h
        } else {
            t
        }
    }
}

/// The comment column computed over the whole sequence with its own widths.
pub open spec fn comment_col(recs: Seq<LineModel>) -> int {
    comment_width(recs, code_width(recs), data_width(recs))
}

/// The final text line of a record: indent, body, then the comment. A `Skip`
/// comment, or a blank one, is appended verbatim; any other comment is pushed
/// out to the shared comment column. A record with no body and no comment
/// emits a blank line.
pub open spec fn rendered_line(r: LineModel, cw: int, dw: int, cpad: int) -> Seq<char> {
    let b = body_of(r, cw, dw);
    let ind = indent_of(r);
    match r.comment {
        None => if b.len() == 0 {
            Seq::<char>::empty()
        } else {
            ind + b
        },
        Some(c) => if r.section == Section::Skip || trimmed(c).len() == 0 {
            ind + b + c
        } else {
            ind + b + spaces(cpad - (ind.len() + b.len())) + c
        },
    }
}

/// Extending the sequence by one record updates the maximal width as the
/// larger of the old maximum and the new record's contribution.
pub proof fn lemma_max_first_snoc(recs: Seq<LineModel>, x: LineModel, sec: Section)
    ensures
        max_first_width(recs.push(x), sec) == {
            let h = if x.section == sec {
                first_width(x)
            } else {
                0
            };
            if h >= max_first_width(recs, sec) {
                h
            } else {
                max_first_width(recs, sec)
            }
        },
    decreases recs.len(),
{
    let u = recs.push(x);
    assert(u[recs.len() as int] == x);
    if recs.len() == 0 {
        assert(u[0] == x);
        assert(u.subrange(1, u.len() as int) =~= Seq::<LineModel>::empty());
        assert(max_first_width(Seq::<LineModel>::empty(), sec) == 0);
        assert(max_first_width(recs, sec) == 0);
        assert(max_first_width(u.subrange(1, u.len() as int), sec) == 0);
    } else {
        assert(u[0] == recs[0]);
        assert(u.subrange(1, u.len() as int) =~= recs.subrange(1, recs.len() as int).push(x));
        lemma_max_first_snoc(recs.subrange(1, recs.len() as int), x, sec);
    }
}

/// Same step rule for the comment column.
pub proof fn lemma_comment_width_snoc(recs: Seq<LineModel>, x: LineModel, cw: int, dw: int)
    ensures
        comment_width(recs.push(x), cw, dw) == {
            let h = if x.comment is Some {
                pad_base(x, cw, dw)
            } else {
                0
            };
            if h >= comment_width(recs, cw, dw) {
                h
            } else {
                comment_width(recs, cw, dw)
            }
        },
    decreases recs.len(),
{
    let u = recs.push(x);
    assert(u[recs.len() as int] == x);
    if recs.len() == 0 {
        assert(u[0] == x);
        assert(u.subrange(1, u.len() as int) =~= Seq::<LineModel>::empty());
        assert(comment_width(Seq::<LineModel>::empty(), cw, dw) == 0);
        assert(comment_width(recs, cw, dw) == 0);
        assert(comment_width(u.subrange(1, u.len() as int), cw, dw) == 0);
    } else {
        assert(u[0] == recs[0]);
        assert(u.subrange(1, u.len() as int) =~= recs.subrange(1, recs.len() as int).push(x));
        lemma_comment_width_snoc(recs.subrange(1, recs.len() as int), x, cw, dw);
    }
}

/// The maximal width is an upper bound for every record of the section, and
/// it is non-negative.
pub proof fn lemma_max_first_ge(recs: Seq<LineModel>, sec: Section)
    ensures
        max_first_width(recs, sec) >= 0,
        forall|i: int|
            0 <= i < recs.len() && (#[trigger] recs[i]).section == sec ==> max_first_width(
                recs,
                sec,
            ) >= first_width(recs[i]),
    decreases recs.len(),
{
    if recs.len() > 0 {
        let t = recs.subrange(1, recs.len() as int);
        lemma_max_first_ge(t, sec);
        assert forall|i: int|
            0 <= i < recs.len() && (#[trigger] recs[i]).section == sec implies max_first_width(
            recs,
            sec,
        ) >= first_width(recs[i]) by {
            if i > 0 {
                assert(recs[i] == t[i - 1]);
            }
        }
    }
}

/// The maximal width is zero or the width of some record of the section.
pub proof fn lemma_max_first_is(recs: Seq<LineModel>, sec: Section)
    ensures
        max_first_width(recs, sec) == 0 || exists|i: int|
            0 <= i < recs.len() && (#[trigger] recs[i]).section == sec && max_first_width(
                recs,
                sec,
            ) == first_width(recs[i]),
    decreases recs.len(),
{
    if recs.len() > 0 {
        let t = recs.subrange(1, recs.len() as int);
        lemma_max_first_is(t, sec);
        let m = max_first_width(recs, sec);
        if m != 0 {
            if recs[0].section == sec && m == first_width(recs[0]) {
                assert(0 <= 0 < recs.len() && recs[0].section == sec && m == first_width(
                    recs[0],
                ));
            } else {
                let j = choose|j: int|
                    0 <= j < t.len() && (#[trigger] t[j]).section == sec && max_first_width(
                        t,
                        sec,
                    ) == first_width(t[j]);
                assert(recs[j + 1] == t[j]);
            }
        }
    }
}

/// The comment column is an upper bound for every commented record.
pub proof fn lemma_comment_width_ge(recs: Seq<LineModel>, cw: int, dw: int)
    ensures
        comment_width(recs, cw, dw) >= 0,
        forall|i: int|
            0 <= i < recs.len() && (#[trigger] recs[i]).comment is Some ==> comment_width(
                recs,
                cw,
                dw,
            ) >= pad_base(recs[i], cw, dw),
    decreases recs.len(),
{
    if recs.len() > 0 {
        let t = recs.subrange(1, recs.len() as int);
        lemma_comment_width_ge(t, cw, dw);
        assert forall|i: int|
            0 <= i < recs.len() && (#[trigger] recs[i]).comment is Some implies comment_width(
            recs,
            cw,
            dw,
        ) >= pad_base(recs[i], cw, dw) by {
            if i > 0 {
                assert(recs[i] == t[i - 1]);
            }
        }
    }
}

/// Extending by a matching record turns `has_sized_head` on and keeps it.
pub proof fn lemma_has_sized_snoc(recs: Seq<LineModel>, x: LineModel, sec: Section)
    ensures
        has_sized_head(recs.push(x), sec) == (has_sized_head(recs, sec) || (x.section == sec
            && x.elements.len() > 0 && x.elements[0].len() > 0)),
{
    let u = recs.push(x);
    if has_sized_head(recs, sec) {
        let i = choose|i: int|
            0 <= i < recs.len() && (#[trigger] recs[i]).section == sec && recs[i].elements.len()
                > 0 && recs[i].elements[0].len() > 0;
        assert(u[i] == recs[i]);
        assert(has_sized_head(u, sec));
    }
    if x.section == sec && x.elements.len() > 0 && x.elements[0].len() > 0 {
        assert(u[recs.len() as int] == x);
        assert(has_sized_head(u, sec));
    }
    if has_sized_head(u, sec) {
        let i = choose|i: int|
            0 <= i < u.len() && (#[trigger] u[i]).section == sec && u[i].elements.len() > 0
                && u[i].elements[0].len() > 0;
        if i < recs.len() {
            assert(recs[i] == u[i]);
            assert(has_sized_head(recs, sec));
        } else {
            assert(u[i] == x);
        }
    }
}

/// Appending one more element extends the rendering of the rest.
pub proof fn lemma_rest_render_snoc(elems: Seq<Seq<char>>, x: Seq<char>)
    ensures
        rest_render(elems.push(x)) == rest_render(elems) + (if x.len() == 0 {
            Seq::<char>::empty()
        } else {
            x + spaces(1)
        }),
    decreases elems.len(),
{
    let u = elems.push(x);
    let item = if x.len() == 0 {
        Seq::<char>::empty()
    } else {
        x + spaces(1)
    };
    assert(u[elems.len() as int] == x);
    if elems.len() == 0 {
        assert(u[0] == x);
        assert(u.subrange(1, u.len() as int) =~= Seq::<Seq<char>>::empty());
        assert(rest_render(Seq::<Seq<char>>::empty()) == Seq::<char>::empty());
        assert(rest_render(u.subrange(1, u.len() as int)) == Seq::<char>::empty());
        assert(rest_render(u) == item + Seq::<char>::empty());
        assert(rest_render(elems) == Seq::<char>::empty());
        assert(rest_render(u) =~= rest_render(elems) + item);
    } else {
        assert(u[0] == elems[0]);
        let tail = elems.subrange(1, elems.len() as int);
        assert(u.subrange(1, u.len() as int) =~= tail.push(x));
        lemma_rest_render_snoc(tail, x);
        let head = if elems[0].len() == 0 {
            Seq::<char>::empty()
        } else {
            elems[0] + spaces(1)
        };
        assert(rest_render(u) == head + (rest_render(tail) + item));
        assert(rest_render(elems) + item == (head + rest_render(tail)) + item);
        assert(head + (rest_render(tail) + item) =~= (head + rest_render(tail)) + item);
    }
}

/// The indent prefix: two spaces per indent level.
pub fn make_indent(level: usize) -> (r: String)
    ensures
        r@ == spaces(2 * (level as int)),
{
    let mut r = String::new();
    let mut i: usize = 0;
    proof {
        reveal_strlit("  ");
        assert(r@ =~= spaces(0));
    }
    while i < level
        invariant
            0 <= i <= level,
            r@ == spaces(2 * (i as int)),
            "  "@.len() == 2 && "  "@[0] == ' ' && "  "@[1] == ' ',
        decreases level - i,
    {
        r.append("  ");
        i = i + 1;
        proof {
            assert(r@ =~= spaces(2 * (i as int)));
        }
    }
    r
}

/// Builds one record's body: the elements rendered in order, then trimmed.
fn build_body(rec: &Line, cw: usize, dw: usize) -> (b: String)
    requires
        rec@.section == Section::Code && rec@.elements.len() > 0 ==> cw as int
            >= rec@.elements[0].len(),
        rec@.section == Section::Data && rec@.elements.len() > 0 ==> dw as int
            >= rec@.elements[0].len(),
    ensures
        b@ == body_of(rec@, cw as int, dw as int),
{
    let ghost m = rec@;
    let k = rec.elements.len();
    if k == 0 {
        proof {
            assert(raw_body(m, cw as int, dw as int) =~= Seq::<char>::empty());
            assert(trimmed(Seq::<char>::empty()) =~= Seq::<char>::empty());
        }
        return String::new();
    }
    proof {
        assert(m.elements[0] == rec.elements@[0]@);
    }
    let mut s = String::new();
    let head = &rec.elements[0];
    let hlen = head.unicode_len();
    match rec.section {
        Section::Code => {
            s.append(head.as_str());
            let pad = make_spaces(cw - hlen);
            s.append(pad.as_str());
            s.append("  ");
            proof {
                reveal_strlit("  ");
                assert("  "@ =~= spaces(2));
            }
        },
        Section::Data => {
            s.append(head.as_str());
            let pad = make_spaces(dw - hlen);
            s.append(pad.as_str());
            s.append("  ");
            proof {
                reveal_strlit("  ");
                assert("  "@ =~= spaces(2));
            }
        },
        Section::CodeLabel => {
            s.append(head.as_str());
        },
        Section::Skip => {
            if hlen > 0 {
                s.append(head.as_str());
                s.append(" ");
                proof {
                    reveal_strlit(" ");
                    assert(" "@ =~= spaces(1));
                }
            }
        },
    }
    let ghost lead = s@;
    proof {
        assert(raw_body(m, cw as int, dw as int) == lead + rest_render(
            m.elements.subrange(1, m.elements.len() as int),
        ));
        assert(m.elements.subrange(1, 1) =~= Seq::<Seq<char>>::empty());
        assert(rest_render(m.elements.subrange(1, 1)) == Seq::<char>::empty());
        assert(s@ =~= lead + rest_render(m.elements.subrange(1, 1)));
    }
    let mut i: usize = 1;
    while i < k
        invariant
            1 <= i <= k,
            k == rec.elements@.len(),
            m == rec@,
            s@ == lead + rest_render(m.elements.subrange(1, i as int)),
        decreases k - i,
    {
        let ghost done = m.elements.subrange(1, i as int);
        proof {
            assert(m.elements[i as int] == rec.elements@[i as int]@);
            assert(m.elements.subrange(1, i + 1) =~= done.push(m.elements[i as int]));
            lemma_rest_render_snoc(done, m.elements[i as int]);
        }
        let el = &rec.elements[i];
        if el.unicode_len() > 0 {
            s.append(el.as_str());
            s.append(" ");
            proof {
                reveal_strlit(" ");
                assert(" "@ =~= spaces(1));
                assert(s@ =~= lead + rest_render(m.elements.subrange(1, i + 1)));
            }
        } else {
            proof {
                assert(s@ =~= lead + rest_render(m.elements.subrange(1, i + 1)));
            }
        }
        i = i + 1;
    }
    proof {
        assert(m.elements.subrange(1, k as int) =~= m.elements.subrange(
            1,
            m.elements.len() as int,
        ));
        assert(s@ == raw_body(m, cw as int, dw as int));
    }
    let b = trim_str(s.as_str()).to_owned();
    b
}

/// Renders the whole record sequence: discovers the column widths, checks the
/// alignment precondition, and emits one line per record, in order. Returns
/// an error naming the missing section when no `Code` (or `Data`) record has
/// a non-empty first element.
pub fn render(records: &Vec<Line>) -> (res: Result<Vec<String>, RenderError>)
    requires
        forall|i: int|
            0 <= i < records@.len() ==> first_width(#[trigger] records.deep_view()[i])
                < usize::MAX,
    ensures
        match res {
            Ok(out) => {
                let models = records.deep_view();
                &&& has_sized_head(models, Section::Code)
                &&& has_sized_head(models, Section::Data)
                &&& out@.len() == models.len()
                &&& forall|i: int|
                    0 <= i < models.len() ==> out.deep_view()[i] == rendered_line(
                        models[i],
                        code_width(models),
                        data_width(models),
                        comment_col(models),
                    )
            },
            Err(e) => {
                let models = records.deep_view();
                &&& (e == RenderError::NoCode <==> !has_sized_head(models, Section::Code))
                &&& (e == RenderError::NoData <==> has_sized_head(models, Section::Code)
                    && !has_sized_head(models, Section::Data))
            },
        },
{
    let ghost models = records.deep_view();
    let n = records.len();
    proof {
        assert(models.len() == records@.len());
        assert(models.subrange(0, 0) =~= Seq::<LineModel>::empty());
    }
    // first pass: column widths and the alignment precondition
    let mut cw_raw: usize = 0;
    let mut dw_raw: usize = 0;
    let mut has_c = false;
    let mut has_d = false;
    let mut i: usize = 0;
    while i < n
        invariant
            0 <= i <= n,
            n == records@.len(),
            models == records.deep_view(),
            models.len() == n,
            cw_raw as int == max_first_width(models.subrange(0, i as int), Section::Code),
            dw_raw as int == max_first_width(models.subrange(0, i as int), Section::Data),
            has_c == has_sized_head(models.subrange(0, i as int), Section::Code),
            has_d == has_sized_head(models.subrange(0, i as int), Section::Data),
            forall|j: int|
                0 <= j < records@.len() ==> first_width(#[trigger] records.deep_view()[j])
                    < usize::MAX,
        decreases n - i,
    {
        let ghost seen = models.subrange(0, i as int);
        proof {
            assert(models[i as int] == records@[i as int]@);
            assert(models.subrange(0, i + 1) =~= seen.push(models[i as int]));
            lemma_max_first_snoc(seen, models[i as int], Section::Code);
            lemma_max_first_snoc(seen, models[i as int], Section::Data);
            lemma_has_sized_snoc(seen, models[i as int], Section::Code);
            lemma_has_sized_snoc(seen, models[i as int], Section::Data);
        }
        let rec = &records[i];
        let w = if rec.elements.len() > 0 {
            rec.elements[0].unicode_len()
        } else {
            0
        };
        proof {
            if rec.elements.len() > 0 {
                assert(models[i as int].elements[0] == rec.elements@[0]@);
            }
            assert(w as int == first_width(models[i as int]));
        }
        match rec.section {
            Section::Code => {
                if w > cw_raw {
                    cw_raw = w;
                }
                if w > 0 {
                    has_c = true;
                }
            },
            Section::Data => {
                if w > dw_raw {
                    dw_raw = w;
                }
                if w > 0 {
                    has_d = true;
                }
            },
            _ => {},
        }
        i = i + 1;
    }
    proof {
        assert(models.subrange(0, n as int) =~= models);
    }
    if !has_c {
        return Err(RenderError::NoCode);
    }
    if !has_d {
        return Err(RenderError::NoData);
    }
    proof {
        lemma_max_first_is(models, Section::Code);
        lemma_max_first_is(models, Section::Data);
        lemma_max_first_ge(models, Section::Code);
        lemma_max_first_ge(models, Section::Data);
    }
    let cw = cw_raw + cw_raw % 2;
    let dw = dw_raw + dw_raw % 2;
    proof {
        assert(cw as int == code_width(models));
        assert(dw as int == data_width(models));
    }
    // second pass: per-record indent and body
    let mut prefixes: Vec<String> = Vec::new();
    let mut bodies: Vec<String> = Vec::new();
    let mut i2: usize = 0;
    while i2 < n
        invariant
            0 <= i2 <= n,
            n == records@.len(),
            models == records.deep_view(),
            models.len() == n,
            cw as int == code_width(models),
            dw as int == data_width(models),
            bodies@.len() == i2,
            prefixes@.len() == i2,
            forall|j: int|
                0 <= j < i2 ==> bodies@[j]@ == body_of(
                    #[trigger] models[j],
                    cw as int,
                    dw as int,
                ),
            forall|j: int|
                0 <= j < i2 ==> prefixes@[j]@ == indent_of(#[trigger] models[j]) + body_of(
                    models[j],
                    cw as int,
                    dw as int,
                ),
        decreases n - i2,
    {
        proof {
            assert(models[i2 as int] == records@[i2 as int]@);
            lemma_max_first_ge(models, Section::Code);
            lemma_max_first_ge(models, Section::Data);
            if models[i2 as int].section == Section::Code && models[i2 as int].elements.len()
                > 0 {
                assert(max_first_width(models, Section::Code) >= first_width(
                    models[i2 as int],
                ));
            }
            if models[i2 as int].section == Section::Data && models[i2 as int].elements.len()
                > 0 {
                assert(max_first_width(models, Section::Data) >= first_width(
                    models[i2 as int],
                ));
            }
        }
        let rec = &records[i2];
        let b = build_body(rec, cw, dw);
        let mut pre = make_indent(rec.indent_level);
        pre.append(b.as_str());
        prefixes.push(pre);
        bodies.push(b);
        i2 = i2 + 1;
    }
    // third pass: the comment column
    let mut cpad: usize = 0;
    let mut i3: usize = 0;
    while i3 < n
        invariant
            0 <= i3 <= n,
            n == records@.len(),
            models == records.deep_view(),
            models.len() == n,
            prefixes@.len() == n,
            forall|j: int|
                0 <= j < n ==> prefixes@[j]@ == indent_of(#[trigger] models[j]) + body_of(
                    models[j],
                    cw as int,
                    dw as int,
                ),
            cpad as int == comment_width(models.subrange(0, i3 as int), cw as int, dw as int),
        decreases n - i3,
    {
        let ghost seen = models.subrange(0, i3 as int);
        proof {
            assert(models[i3 as int] == records@[i3 as int]@);
            assert(models.subrange(0, i3 + 1) =~= seen.push(models[i3 as int]));
            lemma_comment_width_snoc(seen, models[i3 as int], cw as int, dw as int);
        }
        if records[i3].comment.is_some() {
            let l = prefixes[i3].unicode_len();
            proof {
                assert(l as int == pad_base(models[i3 as int], cw as int, dw as int));
            }
            if l > cpad {
                cpad = l;
            }
        }
        i3 = i3 + 1;
    }
    proof {
        assert(models.subrange(0, n as int) =~= models);
        assert(cpad as int == comment_width(models, cw as int, dw as int));
        lemma_comment_width_ge(models, cw as int, dw as int);
    }
    // final pass: emission
    let mut out: Vec<String> = Vec::new();
    let mut i4: usize = 0;
    while i4 < n
        invariant
            0 <= i4 <= n,
            n == records@.len(),
            models == records.deep_view(),
            models.len() == n,
            prefixes@.len() == n,
            bodies@.len() == n,
            forall|j: int|
                0 <= j < n ==> bodies@[j]@ == body_of(
                    #[trigger] models[j],
                    cw as int,
                    dw as int,
                ),
            forall|j: int|
                0 <= j < n ==> prefixes@[j]@ == indent_of(#[trigger] models[j]) + body_of(
                    models[j],
                    cw as int,
                    dw as int,
                ),
            cpad as int == comment_width(models, cw as int, dw as int),
            forall|j: int|
                0 <= j < models.len() && (#[trigger] models[j]).comment is Some ==> cpad as int
                    >= pad_base(models[j], cw as int, dw as int),
            out@.len() == i4,
            forall|j: int|
                0 <= j < i4 ==> out@[j]@ == rendered_line(
                    #[trigger] models[j],
                    cw as int,
                    dw as int,
                    cpad as int,
                ),
        decreases n - i4,
    {
        let rec = &records[i4];
        proof {
            assert(models[i4 as int] == records@[i4 as int]@);
        }
        match &rec.comment {
            Option::None => {
                if bodies[i4].as_str().unicode_len() == 0 {
                    out.push(String::new());
                } else {
                    let line = prefixes[i4].clone();
                    out.push(line);
                }
            },
            Option::Some(c) => {
                let verbatim = match rec.section {
                    Section::Skip => true,
                    _ => trim_str(c.as_str()).unicode_len() == 0,
                };
                if verbatim {
                    let mut line = prefixes[i4].clone();
                    line.append(c.as_str());
                    out.push(line);
                } else {
                    let plen = prefixes[i4].as_str().unicode_len();
                    let mut line = prefixes[i4].clone();
                    let gap = make_spaces(cpad - plen);
                    line.append(gap.as_str());
                    line.append(c.as_str());
                    out.push(line);
                }
            },
        }
        i4 = i4 + 1;
    }
    Ok(out)
}

/// Reformats a whole listing: classification of every line followed by
/// rendering with the discovered column widths.
pub fn reformat(lines: &Vec<String>) -> (res: Result<Vec<String>, RenderError>)
    requires
        forall|i: int|
            0 <= i < lines@.len() ==> (#[trigger] lines.deep_view()[i]).len() < usize::MAX,
    ensures
        ({
            let models = classify_all(lines.deep_view(), initial_state());
            match res {
                Ok(out) => {
                    &&& has_sized_head(models, Section::Code)
                    &&& has_sized_head(models, Section::Data)
                    &&& out@.len() == lines@.len()
                    &&& forall|i: int|
                        0 <= i < models.len() ==> out.deep_view()[i] == rendered_line(
                            models[i],
                            code_width(models),
                            data_width(models),
                            comment_col(models),
                        )
                },
                Err(e) => {
                    &&& (e == RenderError::NoCode <==> !has_sized_head(models, Section::Code))
                    &&& (e == RenderError::NoData <==> has_sized_head(models, Section::Code)
                        && !has_sized_head(models, Section::Data))
                },
            }
        }),
{
    let records = classify(lines);
    proof {
        let models = classify_all(lines.deep_view(), initial_state());
        lemma_classify_all_width(
            lines.deep_view(),
            initial_state(),
            usize::MAX - 1,
        );
        assert(records.deep_view() == models);
        assert forall|i: int|
            0 <= i < records@.len() implies first_width(#[trigger] records.deep_view()[i])
            < usize::MAX by {
            assert(models[i].elements.len() > 0 ==> models[i].elements[0].len() <= usize::MAX
                - 1);
        }
    }
    render(&records)
}

} // verus!
