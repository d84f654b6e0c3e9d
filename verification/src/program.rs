//! Errors of the interpreter, and the program it runs.

use crate::ast::Statement;
use crate::circuit::CircuitError;
use crate::runtime::RuntimeError;
use vstd::prelude::*;
use vstd::string::*;

verus! {

/// Why the interpreter stopped.
#[derive(Debug, PartialEq, Eq)]
pub enum ProgramError {
    /// The circuit refused an operation.
    CircuitError(CircuitError),
    /// The run-time refused an operation.
    RuntimeError(RuntimeError),
    /// A value was needed of a variable that has none yet.
    EmptyDataItem,
    /// An arithmetic fault, with its message.
    OperationError(String),
    /// The operator cannot be applied to an item of this type.
    OperationNotSupported,
    /// A number literal does not fit in 32 bits.
    ParsingError,
    /// A call names neither a function nor a template.
    UndefinedFunctionOrTemplate,
    /// Calls nest deeper, or a loop runs longer, than the run-time allows.
    LimitExceeded,
}

/// A `ProgramError` as a mathematical value.
pub enum Failure {
    CircuitError(CircuitError),
    RuntimeError(RuntimeError),
    EmptyDataItem,
    OperationError(Seq<char>),
    OperationNotSupported,
    ParsingError,
    UndefinedFunctionOrTemplate,
    LimitExceeded,
}

impl View for ProgramError {
    type V = Failure;

    open spec fn view(&self) -> Failure {
        match self {
            ProgramError::CircuitError(e) => Failure::CircuitError(*e),
            ProgramError::RuntimeError(e) => Failure::RuntimeError(*e),
            ProgramError::EmptyDataItem => Failure::EmptyDataItem,
            ProgramError::OperationError(m) => Failure::OperationError(m@),
            ProgramError::OperationNotSupported => Failure::OperationNotSupported,
            ProgramError::ParsingError => Failure::ParsingError,
            ProgramError::UndefinedFunctionOrTemplate => Failure::UndefinedFunctionOrTemplate,
            ProgramError::LimitExceeded => Failure::LimitExceeded,
        }
    }
}

/// A function: its name, the names of its parameters and its body.
#[derive(Debug)]
pub struct FunctionData {
    pub name: String,
    pub params: Vec<String>,
    pub body: Vec<Statement>,
}

/// A template: its name, the names of its parameters, its body, and the
/// names of its input and output signals.
#[derive(Debug)]
pub struct TemplateData {
    pub name: String,
    pub params: Vec<String>,
    pub body: Vec<Statement>,
    pub inputs: Vec<String>,
    pub outputs: Vec<String>,
}

/// The functions and templates of a program. Where two definitions of a kind
/// share a name, the first one counts.
#[derive(Debug)]
pub struct ProgramArchive {
    pub functions: Vec<FunctionData>,
    pub templates: Vec<TemplateData>,
}

/// The position of the first function at or after `from` that is called
/// `name`.
pub open spec fn find_function(functions: Seq<FunctionData>, name: Seq<char>, from: int) -> Option<
    int,
>
    decreases functions.len() - from,
{
    if from < 0 || from >= functions.len() {
        None
    } else if functions[from].name@ == name {
        Some(from)
    } else {
        find_function(functions, name, from + 1)
    }
}

/// The position of the first template at or after `from` that is called
/// `name`.
pub open spec fn find_template(templates: Seq<TemplateData>, name: Seq<char>, from: int) -> Option<
    int,
>
    decreases templates.len() - from,
{
    if from < 0 || from >= templates.len() {
        None
    } else if templates[from].name@ == name {
        Some(from)
    } else {
        find_template(templates, name, from + 1)
    }
}

impl ProgramArchive {
    /// A program of the given functions and templates.
    pub fn new(functions: Vec<FunctionData>, templates: Vec<TemplateData>) -> (p: ProgramArchive)
        ensures
            p.functions == functions,
            p.templates == templates,
    {
        ProgramArchive { functions, templates }
    }

    /// The position of the function called `id`.
    pub fn function_index(&self, id: &str) -> (r: Option<usize>)
        ensures
            match r {
                Some(i) => i < self.functions.len() && find_function(self.functions@, id@, 0)
                    == Some(i as int),
                None => find_function(self.functions@, id@, 0) is None,
            },
    {
        let key = String::from_str(id);
        let mut i: usize = 0;
        while i < self.functions.len()
            invariant
                i <= self.functions.len(),
                key@ == id@,
                find_function(self.functions@, id@, 0) == find_function(
                    self.functions@,
                    id@,
                    i as int,
                ),
            decreases self.functions.len() - i,
        {
            if self.functions[i].name == key {
                return Some(i);
            }
            i += 1;
        }
        None
    }

    /// The position of the template called `id`.
    pub fn template_index(&self, id: &str) -> (r: Option<usize>)
        ensures
            match r {
                Some(i) => i < self.templates.len() && find_template(self.templates@, id@, 0)
                    == Some(i as int),
                None => find_template(self.templates@, id@, 0) is None,
            },
    {
        let key = String::from_str(id);
        let mut i: usize = 0;
        while i < self.templates.len()
            invariant
                i <= self.templates.len(),
                key@ == id@,
                find_template(self.templates@, id@, 0) == find_template(
                    self.templates@,
                    id@,
                    i as int,
                ),
            decreases self.templates.len() - i,
        {
            if self.templates[i].name == key {
                return Some(i);
            }
            i += 1;
        }
        None
    }

    /// Whether the program has a function called `id`.
    pub fn contains_function(&self, id: &str) -> (r: bool)
        ensures
            r == find_function(self.functions@, id@, 0) is Some,
    {
        self.function_index(id).is_some()
    }

    /// Whether the program has a template called `id`.
    pub fn contains_template(&self, id: &str) -> (r: bool)
        ensures
            r == find_template(self.templates@, id@, 0) is Some,
    {
        self.template_index(id).is_some()
    }
}

} // verus!
