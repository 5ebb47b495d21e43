//! Nodes on their own.

use vstd::prelude::*;
use vstd::string::StringExecFns;

verus! {

/// A node with a title and content.
#[derive(Clone, Debug)]
pub struct Node {
    pub title: String,
    pub content: String,
}

impl Node {
    /// Render a node in heading-and-content format.
    pub fn to_string(&self) -> (out: String)
        ensures
            out@ == "# "@ + self.title@ + "\n\n"@ + self.content@,
    {
        let mut out = String::new();
        out.append("# ");
        out.append(self.title.as_str());
        out.append("\n\n");
        out.append(self.content.as_str());
        proof {
            assert(out@ =~= "# "@ + self.title@ + "\n\n"@ + self.content@);
        }
        out
    }
}

} // verus!
