//! Indented textual rendering of logical plans.

use vstd::prelude::*;
use vstd::string::StringExecFns;
use crate::plan::PlanNode;

verus! {

/// A run of two-space indents.
pub open spec fn indent_chars(depth: nat) -> Seq<char>
    decreases depth,
{
    if depth == 0 {
        Seq::empty()
    } else {
        indent_chars((depth - 1) as nat) + seq![' ', ' ']
    }
}

/// Builds the indented text of a plan, line by line.
#[derive(Debug)]
pub struct PlanStringBuilder {
    pub output: String,
    pub depth: usize,
}

impl PlanStringBuilder {
    /// An empty rendering at depth zero.
    pub fn new() -> (r: PlanStringBuilder)
        ensures
            r.output@ == Seq::<char>::empty(),
            r.depth == 0,
    {
        PlanStringBuilder { output: String::new(), depth: 0 }
    }

    /// Appends one line at the current indentation.
    pub fn add_line(&mut self, text: &str)
        ensures
            final(self).output@ == old(self).output@ + indent_chars(old(self).depth as nat)
                + text@ + seq!['\n'],
            final(self).depth == old(self).depth,
    {
        let mut i: usize = 0;
        while i < self.depth
            invariant
                i <= self.depth,
                self.output@ == old(self).output@ + indent_chars(i as nat),
                self.depth == old(self).depth,
            decreases self.depth - i,
        {
            self.output.append("  ");
            i = i + 1;
            proof {
                reveal_strlit("  ");
                assert(self.output@ =~= old(self).output@ + indent_chars(i as nat));
            }
        }
        self.output.append(text);
        self.output.append("\n");
        proof {
            reveal_strlit("\n");
            assert("\n"@ =~= seq!['\n']);
            assert(self.output@ =~= old(self).output@ + indent_chars(old(self).depth as nat)
                + text@ + seq!['\n']);
        }
    }

    /// Steps one level deeper.
    pub fn increase_depth(&mut self)
        requires
            old(self).depth < usize::MAX,
        ensures
            final(self).depth == old(self).depth + 1,
            final(self).output@ == old(self).output@,
    {
        self.depth = self.depth + 1;
    }

    /// Steps one level back out, stopping at the top.
    pub fn decrease_depth(&mut self)
        ensures
            final(self).depth == if old(self).depth > 0 {
                (old(self).depth - 1) as usize
            } else {
                0
            },
            final(self).output@ == old(self).output@,
    {
        if self.depth > 0 {
            self.depth = self.depth - 1;
        }
    }

    /// Hands the rendered text out.
    pub fn get_output(self) -> (r: String)
        ensures
            r@ == self.output@,
    {
        self.output
    }
}

/// The label a plan node is rendered under.
pub open spec fn node_label(p: crate::plan::PlanV) -> Seq<char> {
    match p {
        crate::plan::PlanV::Projection { .. } => "PROJECTION"@,
        crate::plan::PlanV::Join { .. } => "JOIN"@,
        crate::plan::PlanV::TableScan { table_name, .. } => "TABLE_SCAN: "@ + table_name,
        _ => "NODE"@,
    }
}

impl PlanNode {
    /// The label this node is rendered under.
    pub fn label(&self) -> (r: String)
        ensures
            r@ == node_label(self@),
    {
        match self {
            PlanNode::Projection { .. } => String::from_str("PROJECTION"),
            PlanNode::Join { .. } => String::from_str("JOIN"),
            PlanNode::TableScan { table_name, .. } => {
                let mut s = String::from_str("TABLE_SCAN: ");
                s.append(table_name.as_str());
                s
            },
            _ => String::from_str("NODE"),
        }
    }

    /// Renders this plan tree, one indented line per node.
    pub fn render_into(&self, builder: &mut PlanStringBuilder)
        decreases *self,
    {
        let label = self.label();
        builder.add_line(label.as_str());
        if builder.depth < usize::MAX {
            builder.increase_depth();
            match self {
                PlanNode::Projection { input, .. } => input.render_into(builder),
                PlanNode::Filter { input, .. } => input.render_into(builder),
                PlanNode::Join { left, right, .. } => {
                    left.render_into(builder);
                    right.render_into(builder);
                },
                PlanNode::Sort { input } => input.render_into(builder),
                PlanNode::Limit { input } => input.render_into(builder),
                PlanNode::Aggregate { input, .. } => input.render_into(builder),
                _ => {},
            }
            builder.decrease_depth();
        }
    }
}

/// Renders a whole plan tree as indented text.
pub fn custom_print(plan: &PlanNode) -> (r: String) {
    let mut builder = PlanStringBuilder::new();
    plan.render_into(&mut builder);
    builder.get_output()
}

} // verus!
