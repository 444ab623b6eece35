//! The structured record produced for each input line, and the scanning state
//! threaded through classification.

use vstd::prelude::*;

verus! {

/// The structural role of a line, and the scanning state over file sections.
#[derive(Clone, Copy, PartialEq, Eq, Structural, Debug)]
pub enum Section {
    Data,
    Code,
    Skip,
    CodeLabel,
}

/// The mathematical content of a `Line` record.
pub ghost struct LineModel {
    pub elements: Seq<Seq<char>>,
    pub indent_level: int,
    pub section: Section,
    pub comment: Option<Seq<char>>,
}

/// One structural unit of output: the substantive tokens of an input line,
/// its indentation depth, its role, and its trailing comment, if any.
#[derive(Debug)]
pub struct Line {
    pub elements: Vec<String>,
    pub indent_level: usize,
    pub section: Section,
    pub comment: Option<String>,
}

impl View for Line {
    type V = LineModel;

    open spec fn view(&self) -> LineModel {
        LineModel {
            elements: self.elements.deep_view(),
            indent_level: self.indent_level as int,
            section: self.section,
            comment: match self.comment {
                Option::Some(c) => Option::Some(c@),
                Option::None => Option::None,
            },
        }
    }
}

impl DeepView for Line {
    type V = LineModel;

    open spec fn deep_view(&self) -> LineModel {
        self@
    }
}

impl Line {
    /// Builds a record from its parts.
    pub fn create(
        elements: Vec<String>,
        indent_level: usize,
        section: Section,
        comment: Option<String>,
    ) -> (r: Line)
        ensures
            r@.elements == elements.deep_view(),
            r@.indent_level == indent_level as int,
            r@.section == section,
            r@.comment == (match comment {
                Option::Some(c) => Option::Some(c@),
                Option::None => Option::<Seq<char>>::None,
            }),
    {
        Line { elements, indent_level, section, comment }
    }
}

/// The scanning state: the current section and the current indent depth.
#[derive(Clone, Copy)]
pub struct ScanState {
    pub section: Section,
    pub current_indent: usize,
}

/// The state at the start of a scan: no section seen, no indentation.
pub open spec fn initial_state() -> ScanState {
    ScanState { section: Section::Skip, current_indent: 0 }
}

impl ScanState {
    /// `CodeLabel` is a per-line tag, never a scanning state, and code lines
    /// are only scanned after a code directive has set the indent to one.
    pub open spec fn wf(self) -> bool {
        &&& self.section != Section::CodeLabel
        &&& (self.section == Section::Code ==> self.current_indent >= 1)
    }

    /// In a scan from the initial state the indent is zero before any
    /// directive and exactly one afterwards.
    pub open spec fn canonical(self) -> bool {
        &&& self.wf()
        &&& self.current_indent <= 1
        &&& (self.section == Section::Skip ==> self.current_indent == 0)
        &&& (self.section == Section::Data ==> self.current_indent == 1)
        &&& (self.section == Section::Code ==> self.current_indent == 1)
    }

    /// The initial scanning state.
    pub fn start() -> (r: ScanState)
        ensures
            r == initial_state(),
    {
        ScanState { section: Section::Skip, current_indent: 0 }
    }
}

} // verus!
