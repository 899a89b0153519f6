//! What a language backend offers: the file extensions it reads and the
//! named graphs it builds from the contents of those files.
use vstd::prelude::*;
use crate::graph::Graph;
use crate::lexer::PatternError;

verus! {

/// The kinds of graph a backend may build.
#[derive(PartialEq, Eq, Clone, Copy, Debug)]
pub enum GraphType {
    /// Declarations linked by the names their bodies mention.
    Reference,
    /// Declarations linked by what they derive from.
    Inheritance,
}

/// A graph with a label, handed to renderers.
pub struct GraphInfo {
    pub name: String,
    pub graph: Graph<String, ()>,
}

/// A language the analysis knows how to read.
pub trait LanguageBackend {
    /// The extensions (without the dot) of the files this backend reads.
    fn get_extensions(&self) -> Vec<String>;

    /// The kinds of graph this backend builds.
    fn get_graph_types(&self) -> Vec<GraphType>;

    /// The graphs of a set of files, given by their contents.
    fn build_graphs(&self, files: &Vec<String>) -> Result<Vec<GraphInfo>, PatternError>;
}

} // verus!
