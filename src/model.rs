//! The document model: what the parser produces and the renderer consumes.
use vstd::prelude::*;

verus! {

/// The mathematical value of a document node.
pub enum NodeView {
    Variable(Seq<char>, Seq<char>),
    Rule(Seq<Seq<char>>, Seq<(Seq<char>, Seq<char>)>),
}

/// One node of a parsed document.
#[derive(Debug, Clone, PartialEq, Eq)]
pub enum ASTNode {
    /// A variable declaration `@name: value;`: its name (with the marker) and value.
    Variable(String, String),
    /// A rule: its selector path, outermost segment first, and its own
    /// properties in first-insertion order, each name once.
    Rule(Vec<String>, Vec<(String, String)>),
}

impl DeepView for ASTNode {
    type V = NodeView;

    open spec fn deep_view(&self) -> NodeView {
        match self {
            ASTNode::Variable(name, value) => NodeView::Variable(name@, value@),
            ASTNode::Rule(path, props) => NodeView::Rule(path.deep_view(), props.deep_view()),
        }
    }
}

/// A source that an `@import` line can name: its path and its text.
#[derive(Debug, Clone, PartialEq, Eq)]
pub struct Source {
    pub path: String,
    pub text: String,
}

impl DeepView for Source {
    type V = (Seq<char>, Seq<char>);

    open spec fn deep_view(&self) -> (Seq<char>, Seq<char>) {
        (self.path@, self.text@)
    }
}

/// A parsed document: its nodes, and the paths of the imports that were
/// skipped because no source could be had for them.
#[derive(Debug, Clone, PartialEq, Eq)]
pub struct Document {
    pub nodes: Vec<ASTNode>,
    pub skipped_imports: Vec<String>,
}

/// The structural error of a parse.
#[derive(Debug, Clone, Copy, PartialEq, Eq)]
pub enum ParseError {
    /// The input ended inside a block, before its closing line.
    UnclosedBlock,
}

} // verus!
