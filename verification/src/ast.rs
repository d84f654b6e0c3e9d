//! Syntax trees of the circuit description language.

use crate::number::BigNumber;
use vstd::prelude::*;

verus! {

/// The binary operators of the language.
#[derive(Clone, Copy, Debug, PartialEq, Eq)]
pub enum ExpressionInfixOpcode {
    Mul,
    Div,
    Add,
    Sub,
    Pow,
    IntDiv,
    Mod,
    ShiftL,
    ShiftR,
    LesserEq,
    GreaterEq,
    Lesser,
    Greater,
    Eq,
    NotEq,
    BoolOr,
    BoolAnd,
    BitOr,
    BitAnd,
    BitXor,
}

/// The three spellings of an assignment: `=`, `<--` and `<==`.
#[derive(Clone, Copy, Debug, PartialEq, Eq)]
pub enum AssignOp {
    AssignVar,
    AssignSignal,
    AssignConstraintSignal,
}

/// What a declaration introduces.
#[derive(Clone, Copy, Debug, PartialEq, Eq)]
pub enum DataType {
    Signal,
    Variable,
    Component,
}

/// One step of an access chain, as written in the source.
#[derive(Debug)]
pub enum Access {
    ArrayAccess(Expression),
    ComponentAccess(String),
}

/// An expression. The forms without fields are recognised and evaluate to the
/// empty access.
#[derive(Debug)]
pub enum Expression {
    InfixOp { lhe: Box<Expression>, infix_op: ExpressionInfixOpcode, rhe: Box<Expression> },
    Number(BigNumber),
    Variable { name: String, access: Vec<Access> },
    Call { id: String, args: Vec<Expression> },
    PrefixOp,
    InlineSwitchOp,
    ParallelOp,
    AnonymousComp,
    ArrayInLine,
    Tuple,
    UniformArray,
}

/// A statement. The forms without fields are recognised and do nothing.
#[derive(Debug)]
pub enum Statement {
    IfThenElse { cond: Expression, if_case: Box<Statement>, else_case: Option<Box<Statement>> },
    While { cond: Expression, stmt: Box<Statement> },
    Return { value: Expression },
    InitializationBlock { initializations: Vec<Statement> },
    Declaration { xtype: DataType, name: String, dimensions: Vec<Expression> },
    Substitution { var: String, access: Vec<Access>, op: AssignOp, rhe: Expression },
    Block { stmts: Vec<Statement> },
    MultSubstitution,
    UnderscoreSubstitution,
    ConstraintEquality,
    LogCall,
    Assert,
}

} // verus!
