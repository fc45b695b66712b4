use vstd::prelude::*;

use crate::token::Token;

verus! {

/// A literal value written in the program. A number keeps the text of its literal.
#[derive(Clone, Debug, PartialEq, Eq)]
pub enum Literal {
    Number(String),
    String(String),
    Bool(bool),
    Nil,
}

/// `name = value`.
#[derive(Debug)]
pub struct AssignExprData {
    pub name: Token,
    pub value: Box<Expr>,
}

/// `left operator right` for arithmetic, comparison and equality.
#[derive(Debug)]
pub struct BinaryExprData {
    pub operator: Token,
    pub left: Box<Expr>,
    pub right: Box<Expr>,
}

/// `callee(arguments)`; `operator` is the closing parenthesis.
#[derive(Debug)]
pub struct CallExprData {
    pub operator: Token,
    pub callee: Box<Expr>,
    pub arguments: Vec<Expr>,
}

/// `object.name`.
#[derive(Debug)]
pub struct GetExprData {
    pub name: Token,
    pub object: Box<Expr>,
}

/// `(expression)`.
#[derive(Debug)]
pub struct GroupingExprData {
    pub expression: Box<Expr>,
}

/// A literal.
#[derive(Debug)]
pub struct LiteralExprData {
    pub value: Literal,
}

/// `left and right`, `left or right`.
#[derive(Debug)]
pub struct LogicalExprData {
    pub left: Box<Expr>,
    pub right: Box<Expr>,
    pub operator: Token,
}

/// `object.name = value`.
#[derive(Debug)]
pub struct SetExprData {
    pub name: Token,
    pub object: Box<Expr>,
    pub value: Box<Expr>,
}

/// `super.method`.
#[derive(Debug)]
pub struct SuperExprData {
    pub keyword: Token,
    pub method: Token,
}

/// `this`.
#[derive(Debug)]
pub struct ThisExprData {
    pub keyword: Token,
}

/// `operator right`.
#[derive(Debug)]
pub struct UnaryExprData {
    pub operator: Token,
    pub right: Box<Expr>,
}

/// A variable read.
#[derive(Debug)]
pub struct VariableExprData {
    pub name: Token,
}

/// An expression.
#[derive(Debug)]
pub enum Expr {
    Assign(AssignExprData),
    Binary(BinaryExprData),
    Call(CallExprData),
    Get(GetExprData),
    Grouping(GroupingExprData),
    Literal(LiteralExprData),
    Logical(LogicalExprData),
    SetField(SetExprData),
    Super(SuperExprData),
    This(ThisExprData),
    Unary(UnaryExprData),
    Variable(VariableExprData),
}

impl Expr {
    pub fn assign(name: Token, value: Expr) -> (res: Expr)
        ensures
            res == Expr::Assign(AssignExprData { name, value: Box::new(value) }),
    {
        Expr::Assign(AssignExprData { name, value: Box::new(value) })
    }

    pub fn binary(op: Token, left: Expr, right: Expr) -> (res: Expr)
        ensures
            res == Expr::Binary(BinaryExprData { operator: op, left: Box::new(left), right: Box::new(right) }),
    {
        Expr::Binary(BinaryExprData { operator: op, left: Box::new(left), right: Box::new(right) })
    }

    pub fn call(op: Token, callee: Expr, arguments: Vec<Expr>) -> (res: Expr)
        ensures
            res == Expr::Call(CallExprData { operator: op, callee: Box::new(callee), arguments }),
    {
        Expr::Call(CallExprData { operator: op, callee: Box::new(callee), arguments })
    }

    pub fn get(name: Token, object: Expr) -> (res: Expr)
        ensures
            res == Expr::Get(GetExprData { name, object: Box::new(object) }),
    {
        Expr::Get(GetExprData { name, object: Box::new(object) })
    }

    pub fn grouping(expr: Expr) -> (res: Expr)
        ensures
            res == Expr::Grouping(GroupingExprData { expression: Box::new(expr) }),
    {
        Expr::Grouping(GroupingExprData { expression: Box::new(expr) })
    }

    pub fn literal(value: Literal) -> (res: Expr)
        ensures
            res == Expr::Literal(LiteralExprData { value }),
    {
        Expr::Literal(LiteralExprData { value })
    }

    pub fn logical(op: Token, left: Expr, right: Expr) -> (res: Expr)
        ensures
            res == Expr::Logical(LogicalExprData { left: Box::new(left), right: Box::new(right), operator: op }),
    {
        Expr::Logical(LogicalExprData { left: Box::new(left), right: Box::new(right), operator: op })
    }

    pub fn set(name: Token, object: Expr, value: Expr) -> (res: Expr)
        ensures
            res == Expr::SetField(SetExprData { name, object: Box::new(object), value: Box::new(value) }),
    {
        Expr::SetField(SetExprData { name, object: Box::new(object), value: Box::new(value) })
    }

    pub fn super_(keyword: Token, method: Token) -> (res: Expr)
        ensures
            res == Expr::Super(SuperExprData { keyword, method }),
    {
        Expr::Super(SuperExprData { keyword, method })
    }

    pub fn this(keyword: Token) -> (res: Expr)
        ensures
            res == Expr::This(ThisExprData { keyword }),
    {
        Expr::This(ThisExprData { keyword })
    }

    pub fn unary(op: Token, right: Expr) -> (res: Expr)
        ensures
            res == Expr::Unary(UnaryExprData { right: Box::new(right), operator: op }),
    {
        Expr::Unary(UnaryExprData { right: Box::new(right), operator: op })
    }

    pub fn variable(name: Token) -> (res: Expr)
        ensures
            res == Expr::Variable(VariableExprData { name }),
    {
        Expr::Variable(VariableExprData { name })
    }
}

/// `{ statements }`.
#[derive(Debug)]
pub struct BlockStmtData {
    pub statements: Vec<Stmt>,
}

/// `class name { methods }`.
#[derive(Debug)]
pub struct ClassStmtData {
    pub name: Token,
    pub superclass: Expr,
    pub methods: Vec<Stmt>,
}

/// `expression;`.
#[derive(Debug)]
pub struct ExpressionStmtData {
    pub expression: Expr,
}

/// `fun name(params) body`; the body is a block.
#[derive(Debug)]
pub struct FunctionStmtData {
    pub name: Token,
    pub params: Vec<Token>,
    pub body: Box<Stmt>,
}

/// `if (condition) then_branch else else_branch`; a branch that did not parse is missing.
#[derive(Debug)]
pub struct IfStmtData {
    pub condition: Expr,
    pub then_branch: Option<Box<Stmt>>,
    pub else_branch: Option<Box<Stmt>>,
}

/// `print expression;`.
#[derive(Debug)]
pub struct PrintStmtData {
    pub expression: Expr,
}

/// `return value;`.
#[derive(Debug)]
pub struct ReturnStmtData {
    pub keyword: Token,
    pub value: Option<Expr>,
}

/// `var name = initializer;`.
#[derive(Debug)]
pub struct VariableStmtData {
    pub name: Token,
    pub initializer: Option<Expr>,
}

/// `while (condition) body`; a body that did not parse is missing.
#[derive(Debug)]
pub struct WhileStmtData {
    pub condition: Expr,
    pub body: Option<Box<Stmt>>,
}

/// A statement.
#[derive(Debug)]
pub enum Stmt {
    Block(BlockStmtData),
    Class(ClassStmtData),
    Expression(ExpressionStmtData),
    Function(FunctionStmtData),
    If(IfStmtData),
    Print(PrintStmtData),
    Return(ReturnStmtData),
    Variable(VariableStmtData),
    While(WhileStmtData),
}

impl Stmt {
    pub fn block(statements: Vec<Stmt>) -> (res: Stmt)
        ensures
            res == Stmt::Block(BlockStmtData { statements }),
    {
        Stmt::Block(BlockStmtData { statements })
    }

    pub fn class(name: Token, superclass: Expr, methods: Vec<Stmt>) -> (res: Stmt)
        ensures
            res == Stmt::Class(ClassStmtData { name, superclass, methods }),
    {
        Stmt::Class(ClassStmtData { name, superclass, methods })
    }

    pub fn expression(expression: Expr) -> (res: Stmt)
        ensures
            res == Stmt::Expression(ExpressionStmtData { expression }),
    {
        Stmt::Expression(ExpressionStmtData { expression })
    }

    pub fn function(name: Token, params: Vec<Token>, body: Stmt) -> (res: Stmt)
        ensures
            res == Stmt::Function(FunctionStmtData { name, params, body: Box::new(body) }),
    {
        Stmt::Function(FunctionStmtData { name, params, body: Box::new(body) })
    }

    pub fn if_(condition: Expr, then_branch: Option<Stmt>, else_branch: Option<Stmt>) -> (res: Stmt)
        ensures
            res == Stmt::If(IfStmtData {
                condition,
                then_branch: match then_branch { Some(s) => Some(Box::new(s)), None => None },
                else_branch: match else_branch { Some(s) => Some(Box::new(s)), None => None },
            }),
    {
        let then_branch = match then_branch {
            Some(s) => Some(Box::new(s)),
            None => None,
        };
        let else_branch = match else_branch {
            Some(s) => Some(Box::new(s)),
            None => None,
        };
        Stmt::If(IfStmtData { condition, then_branch, else_branch })
    }

    pub fn print(expression: Expr) -> (res: Stmt)
        ensures
            res == Stmt::Print(PrintStmtData { expression }),
    {
        Stmt::Print(PrintStmtData { expression })
    }

    pub fn return_(keyword: Token, value: Option<Expr>) -> (res: Stmt)
        ensures
            res == Stmt::Return(ReturnStmtData { keyword, value }),
    {
        Stmt::Return(ReturnStmtData { keyword, value })
    }

    pub fn variable(name: Token, initializer: Option<Expr>) -> (res: Stmt)
        ensures
            res == Stmt::Variable(VariableStmtData { name, initializer }),
    {
        Stmt::Variable(VariableStmtData { name, initializer })
    }

    pub fn while_(condition: Expr, body: Option<Stmt>) -> (res: Stmt)
        ensures
            res == Stmt::While(WhileStmtData {
                condition,
                body: match body { Some(s) => Some(Box::new(s)), None => None },
            }),
    {
        let body = match body {
            Some(s) => Some(Box::new(s)),
            None => None,
        };
        Stmt::While(WhileStmtData { condition, body })
    }
}

} // verus!
