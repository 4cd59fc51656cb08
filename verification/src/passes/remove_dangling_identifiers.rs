//! Removing useless statements that consist of a lone identifier, e.g. `x;`.
//! A block's trailing `x`, without a semicolon, is the block's value and stays.

use vstd::prelude::*;
use crate::retain::{kept_items, retain_marked, lemma_kept_items_from_marked};

verus! {

/// What the pass reads of a statement of a block.
pub enum StatementShape {
    /// An expression statement whose expression is a path.
    PathExpression {
        /// Whether the statement ends with a semicolon; a block's trailing
        /// expression does not.
        semicolon: bool,
        /// How many attributes the expression carries.
        attributes: usize,
        /// Whether the path has a qualified self type, as in `<T as Tr>::x`.
        qualified_self: bool,
        /// Whether the path starts with `::`.
        leading_colon: bool,
        /// How many segments the path has.
        segments: usize,
        /// Whether the first segment carries generic arguments.
        first_segment_has_arguments: bool,
    },
    /// Any other statement.
    Other,
}

/// Whether the statement is a useless lone identifier such as `x;`.
pub open spec fn is_dangling(shape: StatementShape) -> bool {
    match shape {
        StatementShape::PathExpression {
            semicolon,
            attributes,
            qualified_self,
            leading_colon,
            segments,
            first_segment_has_arguments,
        } => semicolon && attributes == 0 && !qualified_self && !leading_colon && segments == 1
            && !first_segment_has_arguments,
        StatementShape::Other => false,
    }
}

/// The marks that keep every statement that is not a lone identifier.
pub open spec fn keep_marks(shapes: Seq<StatementShape>) -> Seq<bool> {
    Seq::new(shapes.len(), |i: int| !is_dangling(shapes[i]))
}

/// The pass that removes lone identifier statements from blocks.
pub struct IdentifierExpressionRemover;

impl Default for IdentifierExpressionRemover {
    fn default() -> (r: Self)
        ensures
            r == IdentifierExpressionRemover,
    {
        IdentifierExpressionRemover
    }
}

impl IdentifierExpressionRemover {
    /// Whether the statement is a lone identifier that the pass removes.
    pub fn is_dangling_identifier(&self, shape: &StatementShape) -> (r: bool)
        ensures
            r == is_dangling(*shape),
    {
        match shape {
            StatementShape::PathExpression {
                semicolon,
                attributes,
                qualified_self,
                leading_colon,
                segments,
                first_segment_has_arguments,
            } => *semicolon && *attributes == 0 && !*qualified_self && !*leading_colon && *segments == 1
                && !*first_segment_has_arguments,
            StatementShape::Other => false,
        }
    }

    /// The statements of a block with the lone identifier statements taken
    /// out; `shapes[i]` describes `stmts[i]`. The pass then visits what is
    /// left.
    pub fn remove_dangling<T>(&self, stmts: Vec<T>, shapes: &Vec<StatementShape>) -> (r: Vec<T>)
        requires
            stmts@.len() == shapes@.len(),
        ensures
            r@ == kept_items(stmts@, keep_marks(shapes@)),
    {
        let mut keep: Vec<bool> = Vec::new();
        let mut i: usize = 0;
        while i < shapes.len()
            invariant
                i <= shapes@.len(),
                keep@ =~= keep_marks(shapes@).take(i as int),
            decreases shapes@.len() - i,
        {
            let dangling = self.is_dangling_identifier(&shapes[i]);
            keep.push(!dangling);
            i = i + 1;
        }
        assert(keep@ =~= keep_marks(shapes@));
        retain_marked(stmts, &keep)
    }
}

/// No statement that the pass keeps is a lone identifier.
pub proof fn lemma_no_dangling_left(shapes: Seq<StatementShape>, k: int)
    requires
        0 <= k < kept_items(shapes, keep_marks(shapes)).len(),
    ensures
        !is_dangling(kept_items(shapes, keep_marks(shapes))[k]),
{
    lemma_kept_items_from_marked(shapes, keep_marks(shapes), k);
}

/// Running the pass on a block it has already cleaned removes nothing more.
pub proof fn lemma_removal_idempotent<T>(stmts: Seq<T>, shapes: Seq<StatementShape>)
    requires
        stmts.len() == shapes.len(),
    ensures
        ({
            let kept_stmts = kept_items(stmts, keep_marks(shapes));
            let kept_shapes = kept_items(shapes, keep_marks(shapes));
            &&& kept_stmts.len() == kept_shapes.len()
            &&& kept_items(kept_stmts, keep_marks(kept_shapes)) == kept_stmts
        }),
    decreases stmts.len(),
{
    let n = stmts.len() as int;
    if n > 0 {
        let marks = keep_marks(shapes);
        lemma_removal_idempotent(stmts.drop_last(), shapes.drop_last());
        assert(keep_marks(shapes.drop_last()) =~= marks.take(n - 1));
        let ks = kept_items(stmts.drop_last(), marks.take(n - 1));
        let kh = kept_items(shapes.drop_last(), marks.take(n - 1));
        assert(kept_items(ks, keep_marks(kh)) == ks);
        if marks[n - 1] {
            let ks2 = ks.push(stmts.last());
            let kh2 = kh.push(shapes.last());
            assert(ks2.drop_last() =~= ks);
            assert(kh2.drop_last() =~= kh);
            assert(keep_marks(kh2).take(ks2.len() - 1) =~= keep_marks(kh));
            assert(keep_marks(kh2)[ks2.len() - 1]);
        }
    }
}

} // verus!
