use vstd::prelude::*;

verus! {

/// What went wrong while compiling a template.
pub enum ErrorKind {
    /// A code or expression block is never closed.
    Unclosed,
    /// A directive's content does not follow the directive grammar.
    Malformed(Seq<char>),
    /// A boolean directive parameter is neither `true` nor `false`.
    BadBool(Seq<char>),
}

/// The mathematical value of a directive: its name and its parameters in order.
pub struct DirectiveView {
    pub name: Seq<char>,
    pub params: Seq<(Seq<char>, Seq<char>)>,
}

/// The mathematical value of a segment.
pub enum PartView {
    Text(Seq<char>),
    Code(Seq<char>),
    Expr(Seq<char>),
    Directive(DirectiveView),
}

/// The mathematical value of the compiler state.
pub struct InfoView {
    pub debug_print: bool,
    pub clean_whitespace: bool,
    pub print_postprocessor: Seq<char>,
}

pub open spec fn default_info() -> InfoView {
    InfoView { debug_print: false, clean_whitespace: false, print_postprocessor: Seq::empty() }
}

/// An error that stops the compilation of a template.
pub struct TemplateError {
    pub reason: String,
    pub index: usize,
    pub kind: Ghost<ErrorKind>,
}

/// A directive: a name and `key="value"` parameters, in the order written.
#[derive(Debug, Clone, PartialEq, Eq)]
pub struct TemplateDirective {
    pub name: String,
    pub params: Vec<(String, String)>,
}

impl View for TemplateDirective {
    type V = DirectiveView;

    open spec fn view(&self) -> DirectiveView {
        DirectiveView {
            name: self.name@,
            params: params_view(self.params@),
        }
    }
}

pub open spec fn params_view(ps: Seq<(String, String)>) -> Seq<(Seq<char>, Seq<char>)> {
    ps.map_values(|p: (String, String)| (p.0@, p.1@))
}

/// One classified unit of a template.
#[derive(Debug, Clone, PartialEq, Eq)]
pub enum TemplatePart {
    Text(String),
    Code(String),
    Expr(String),
    Directive(TemplateDirective),
}

impl View for TemplatePart {
    type V = PartView;

    open spec fn view(&self) -> PartView {
        match self {
            TemplatePart::Text(s) => PartView::Text(s@),
            TemplatePart::Code(s) => PartView::Code(s@),
            TemplatePart::Expr(s) => PartView::Expr(s@),
            TemplatePart::Directive(d) => PartView::Directive(d@),
        }
    }
}

pub open spec fn parts_view(v: Seq<TemplatePart>) -> Seq<PartView> {
    v.map_values(|p: TemplatePart| p@)
}

impl TemplatePart {
    pub fn is_text(&self) -> (r: bool)
        ensures
            r == (self@ is Text),
    {
        matches!(self, TemplatePart::Text(_))
    }

    /// Whitespace is trimmed around code and directive blocks only: an
    /// expression usually stands inline with the text around it.
    pub fn should_trim_whitespace(&self) -> (r: bool)
        ensures
            r == (self@ is Code || self@ is Directive),
    {
        matches!(self, TemplatePart::Code(_) | TemplatePart::Directive(_))
    }
}

/// The state that directives change: a debug flag, a whitespace-cleaning flag
/// and the name of a function that rendered expressions go through (empty for
/// none).
#[derive(Debug, Clone, PartialEq, Eq)]
pub struct TemplateInfo {
    pub debug_print: bool,
    pub clean_whitespace: bool,
    pub print_postprocessor: String,
}

impl View for TemplateInfo {
    type V = InfoView;

    open spec fn view(&self) -> InfoView {
        InfoView {
            debug_print: self.debug_print,
            clean_whitespace: self.clean_whitespace,
            print_postprocessor: self.print_postprocessor@,
        }
    }
}

impl TemplateInfo {
    pub fn new() -> (r: TemplateInfo)
        ensures
            r@ == default_info(),
    {
        TemplateInfo { debug_print: false, clean_whitespace: false, print_postprocessor: String::new() }
    }
}

} // verus!
