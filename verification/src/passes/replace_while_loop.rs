//! Lowering counting `while` loops into `for` loops over ranges.

use vstd::prelude::*;
use crate::name_map::NameMap;
use crate::retain::{kept_items, lemma_kept_items_from_marked};
use crate::syntax::{parse_expr, parsed_expr};
use crate::text::{decimal_text, format_i32, parse_i32, i32_text_value};

verus! {

/// What the pass reads of an assignment statement in a loop body, `x = e`
/// or a compound assignment `x op= e`, with or without a semicolon.
pub struct AssignmentShape {
    /// The first segment of the assigned path, when the left side is a path.
    pub target: Option<String>,
    /// What the statement assigns.
    pub value: AssignedValue,
}

/// What an assignment statement assigns to its target.
pub enum AssignedValue {
    /// `x = base + literal`: the first segment of the path `base`.
    PathPlusLiteral(String),
    /// `x += literal`.
    PlusLiteral,
    /// Any other assignment, such as `x = x - 1` or `x *= 2`.
    Other,
}

/// What the pass reads of a statement.
pub enum LoopStatement {
    /// A `let` statement.
    Local {
        /// The identifier when the pattern is `name: Type`.
        binding: Option<String>,
        /// The base-10 digits of `n` when the initializer is `n as T` for an
        /// integer literal `n`.
        cast_literal: Option<String>,
    },
    /// An expression statement whose expression is a `while` loop.
    While {
        /// When the condition is a binary expression between two paths, the
        /// first segments of the left and the right path.
        condition: Option<(String, String)>,
        /// For each statement of the loop body, its shape when it is an
        /// assignment.
        body: Vec<Option<AssignmentShape>>,
    },
    /// Any other statement.
    Other,
}

/// The upper end of the range of a lowered loop.
pub enum LoopBound {
    /// A literal: the recorded initial value of the bounding variable.
    Literal(i32),
    /// The bounding variable itself.
    Variable(String),
}

/// What the pass does with a statement.
pub enum LoopRewrite {
    /// Keep the statement; do not visit inside it.
    Leave,
    /// Keep the statement and visit the statements inside it.
    Visit,
    /// Put `for var in lower..upper { kept body }` in place of the `while`
    /// loop, without a semicolon, and visit inside it. `keep[i]` tells
    /// whether statement `i` of the body stays.
    ForLoop { var: String, lower: i32, upper: LoopBound, keep: Vec<bool> },
}

/// Whether a body statement steps the loop variable up: `var = var + literal`
/// or `var += literal`.
pub open spec fn is_increment(shape: Option<AssignmentShape>, var: Seq<char>) -> bool {
    match shape {
        Some(a) => match a.target {
            Some(t) => t@ == var && match a.value {
                AssignedValue::PathPlusLiteral(b) => b@ == var,
                AssignedValue::PlusLiteral => true,
                AssignedValue::Other => false,
            },
            None => false,
        },
        None => false,
    }
}

/// The marks that keep every body statement that does not step `var`.
pub open spec fn body_marks(body: Seq<Option<AssignmentShape>>, var: Seq<char>) -> Seq<bool> {
    Seq::new(body.len(), |i: int| !is_increment(body[i], var))
}

/// The name a `let` statement records its initial value under: the bound
/// identifier, or the empty name when the pattern is not `name: Type`.
pub open spec fn recorded_name(binding: Option<String>) -> Seq<char> {
    match binding {
        Some(name) => name@,
        None => Seq::empty(),
    }
}

/// The pass that lowers counting `while` loops into `for` loops.
pub struct WhileLoopReplacer {
    /// Variables initialised by `let v: T = n as T;` and their values.
    loop_vars: NameMap<i32>,
}

impl Default for WhileLoopReplacer {
    fn default() -> (r: Self)
        ensures
            r.wf(),
            r.loop_vars() == Map::<Seq<char>, i32>::empty(),
    {
        WhileLoopReplacer { loop_vars: NameMap::new() }
    }
}

impl WhileLoopReplacer {
    /// The invariant of the pass state.
    pub closed spec fn wf(&self) -> bool {
        self.loop_vars.wf()
    }

    /// The recorded variables and their initial values.
    pub closed spec fn loop_vars(&self) -> Map<Seq<char>, i32> {
        self.loop_vars@
    }

    /// Whether a body statement steps `var` up, as `var = var + 1` and
    /// `var += 1` do.
    pub fn is_increment_stmt(&self, shape: &Option<AssignmentShape>, var: &String) -> (r: bool)
        ensures
            r == is_increment(*shape, var@),
    {
        match shape {
            Some(a) => match &a.target {
                Some(t) => *t == *var && match &a.value {
                    AssignedValue::PathPlusLiteral(b) => *b == *var,
                    AssignedValue::PlusLiteral => true,
                    AssignedValue::Other => false,
                },
                None => false,
            },
            None => false,
        }
    }

    /// The recorded initial value of a variable, if any.
    pub fn initial_value(&self, name: &String) -> (r: Option<i32>)
        requires
            self.wf(),
        ensures
            match r {
                Some(v) => self.loop_vars().contains_key(name@) && self.loop_vars()[name@] == v,
                None => !self.loop_vars().contains_key(name@),
            },
    {
        match self.loop_vars.get(name) {
            Some(v) => Some(*v),
            None => None,
        }
    }

    /// Decides what the pass does with a statement, and records the initial
    /// value of a variable declared by `let v: T = n as T;`.
    ///
    /// A `while l op r { .. }` whose left operand `l` has a recorded value
    /// becomes `for l in <value of l>..<value of r, or r> { .. }`, without the
    /// body statements that step `l`. A `let` statement is left as it is; any
    /// other statement, other `while` loops included, is visited, so that
    /// loops nested in it are lowered too.
    pub fn visit_stmt(&mut self, stmt: &LoopStatement) -> (r: LoopRewrite)
        requires
            old(self).wf(),
            stmt matches LoopStatement::Local { cast_literal: Some(digits), .. } ==> i32_text_value(
                digits@,
            ) is Some,
        ensures
            final(self).wf(),
            match *stmt {
                LoopStatement::Local { binding, cast_literal } => {
                    &&& r is Leave
                    &&& final(self).loop_vars() == match cast_literal {
                        Some(digits) => old(self).loop_vars().insert(
                            recorded_name(binding),
                            i32_text_value(digits@).unwrap(),
                        ),
                        None => old(self).loop_vars(),
                    }
                },
                LoopStatement::While { condition, body } => {
                    &&& final(self).loop_vars() == old(self).loop_vars()
                    &&& match condition {
                        Some((l, rv)) if old(self).loop_vars().contains_key(l@) => {
                            &&& r matches LoopRewrite::ForLoop { var, lower, upper, keep }
                            &&& r->var@ == l@
                            &&& r->lower == old(self).loop_vars()[l@]
                            &&& if old(self).loop_vars().contains_key(rv@) {
                                r->upper == LoopBound::Literal(old(self).loop_vars()[rv@])
                            } else {
                                r->upper matches LoopBound::Variable(u) && u@ == rv@
                            }
                            &&& r->keep@ == body_marks(body@, l@)
                        },
                        _ => r is Visit,
                    }
                },
                LoopStatement::Other => {
                    &&& r is Visit
                    &&& final(self).loop_vars() == old(self).loop_vars()
                },
            },
    {
        match stmt {
            LoopStatement::Local { binding, cast_literal } => {
                match cast_literal {
                    Some(digits) => {
                        let name = match binding {
                            Some(name) => name.clone(),
                            None => String::new(),
                        };
                        let value = parse_i32(digits.as_str()).unwrap();
                        self.loop_vars.insert(name, value);
                    },
                    None => {},
                }
                LoopRewrite::Leave
            },
            LoopStatement::While { condition, body } => {
                match condition {
                    Some((l_var, r_var)) => {
                        match self.initial_value(l_var) {
                            Some(lower) => {
                                let upper = match self.initial_value(r_var) {
                                    Some(v) => LoopBound::Literal(v),
                                    None => LoopBound::Variable(r_var.clone()),
                                };
                                let mut keep: Vec<bool> = Vec::new();
                                let mut i: usize = 0;
                                while i < body.len()
                                    invariant
                                        i <= body@.len(),
                                        keep@ =~= body_marks(body@, l_var@).take(i as int),
                                    decreases body@.len() - i,
                                {
                                    let stepping = self.is_increment_stmt(&body[i], l_var);
                                    keep.push(!stepping);
                                    i = i + 1;
                                }
                                assert(keep@ =~= body_marks(body@, l_var@));
                                LoopRewrite::ForLoop { var: l_var.clone(), lower, upper, keep }
                            },
                            None => LoopRewrite::Visit,
                        }
                    },
                    None => LoopRewrite::Visit,
                }
            },
            LoopStatement::Other => LoopRewrite::Visit,
        }
    }
}

/// The expression of a literal bound: `value` written in decimal and parsed.
pub fn literal_bound(value: i32) -> (r: Option<syn::Expr>)
    ensures
        r == parsed_expr(decimal_text(value as int)),
{
    parse_expr(format_i32(value).as_str())
}

/// A lowered loop drops from its body exactly the statements that step the
/// loop variable up, `var = var + literal` and `var += literal`: every other
/// statement, an assignment to another variable or any other step of `var`
/// included, stays, and the body keeps its length in marks.
pub proof fn lemma_lowered_body_keeps_other_statements(body: Seq<Option<AssignmentShape>>, var: Seq<char>)
    ensures
        body_marks(body, var).len() == body.len(),
        forall|k: int| 0 <= k < body.len() ==> #[trigger] body_marks(body, var)[k] == !(
            body[k] matches Some(a) && (a.target matches Some(t) && t@ == var && (
                a.value is PlusLiteral || (a.value matches AssignedValue::PathPlusLiteral(b) && b@ == var)
            ))
        ),
        forall|k: int| 0 <= k < body.len() && (body[k] is None || !(body[k]->0.target matches Some(t) && t@ == var))
            ==> #[trigger] body_marks(body, var)[k],
{
}

/// The body of a lowered loop holds no statement that steps the loop
/// variable: the `for` loop does the stepping.
pub proof fn lemma_lowered_body_does_not_step(
    body: Seq<Option<AssignmentShape>>,
    var: Seq<char>,
    k: int,
)
    requires
        0 <= k < kept_items(body, body_marks(body, var)).len(),
    ensures
        !is_increment(kept_items(body, body_marks(body, var))[k], var),
{
    lemma_kept_items_from_marked(body, body_marks(body, var), k);
}

} // verus!
