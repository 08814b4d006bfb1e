//! The command-line surface of the tool, as plain data: the embedding
//! application parses its arguments into this shape.

use vstd::prelude::*;

verus! {

/// The tool's arguments: the files to highlight, and whether messages are
/// reduced to their front matter.
#[derive(Debug)]
pub struct Args {
    /// The files to apply syntax highlighting to.
    pub files: Vec<String>,
    /// Reduce messages to show only their front matter.
    pub frontmatter: bool,
}

} // verus!
