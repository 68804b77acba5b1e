//! The program model that the analyses read: modules, functions, basic blocks,
//! terminators and call sites, reduced to what the analyses look at.

use vstd::prelude::*;

verus! {

/// The name of a basic block: either a string or a number.
#[derive(Clone, Debug, PartialEq, Eq, PartialOrd, Ord, Hash)]
pub enum Name {
    /// A name written out
    Name(String),
    /// A sequential number
    Number(usize),
}

/// What a `Name` is, mathematically.
pub enum NameView {
    Name(Seq<char>),
    Number(usize),
}

impl View for Name {
    type V = NameView;

    open spec fn view(&self) -> NameView {
        match self {
            Name::Name(s) => NameView::Name(s@),
            Name::Number(n) => NameView::Number(*n),
        }
    }
}

impl From<usize> for Name {
    fn from(number: usize) -> (name: Name) {
        Name::Number(number)
    }
}

impl vstd::std_specs::convert::FromSpecImpl<usize> for Name {
    open spec fn obeys_from_spec() -> bool {
        true
    }

    open spec fn from_spec(number: usize) -> Name {
        Name::Number(number)
    }
}

impl Name {
    /// The name with the given text.
    pub fn named(text: &str) -> (name: Name)
        ensures
            name@ == NameView::Name(text@),
    {
        Name::Name(text.to_owned())
    }

    /// Whether two names are the same name.
    pub fn same(&self, other: &Name) -> (r: bool)
        ensures
            r == (self@ == other@),
    {
        match self {
            Name::Name(a) => match other {
                Name::Name(b) => *a == *b,
                Name::Number(_) => false,
            },
            Name::Number(a) => match other {
                Name::Name(_) => false,
                Name::Number(b) => *a == *b,
            },
        }
    }

    /// A copy of the name.
    pub fn duplicate(&self) -> (r: Name)
        ensures
            r@ == self@,
    {
        match self {
            Name::Name(s) => Name::Name(s.clone()),
            Name::Number(n) => Name::Number(*n),
        }
    }
}

/// The formal type of a function: its return type, its parameter types and
/// whether it takes a variable number of arguments. Each type is held in its
/// textual form.
#[derive(Clone, Debug, PartialEq, Eq, PartialOrd, Ord, Hash)]
pub struct FunctionType {
    pub result_type: String,
    pub param_types: Vec<String>,
    pub is_var_arg: bool,
}

/// What a `FunctionType` is, mathematically.
pub struct FunctionTypeView {
    pub result_type: Seq<char>,
    pub param_types: Seq<Seq<char>>,
    pub is_var_arg: bool,
}

impl View for FunctionType {
    type V = FunctionTypeView;

    open spec fn view(&self) -> FunctionTypeView {
        FunctionTypeView {
            result_type: self.result_type@,
            param_types: Seq::new(self.param_types@.len(), |i: int| self.param_types@[i]@),
            is_var_arg: self.is_var_arg,
        }
    }
}

impl FunctionType {
    /// A copy of the function type.
    pub fn duplicate(&self) -> (r: FunctionType)
        ensures
            r@ == self@,
    {
        let mut param_types: Vec<String> = Vec::new();
        let mut i: usize = 0;
        while i < self.param_types.len()
            invariant
                i <= self.param_types@.len(),
                param_types@.len() == i,
                forall|k: int| 0 <= k < i ==> param_types@[k]@ == self.param_types@[k]@,
            decreases self.param_types@.len() - i,
        {
            param_types.push(self.param_types[i].clone());
            i += 1;
        }
        let r = FunctionType {
            result_type: self.result_type.clone(),
            param_types,
            is_var_arg: self.is_var_arg,
        };
        assert(r@.param_types =~= self@.param_types);
        r
    }

    /// Whether two function types are exactly the same type.
    pub fn same(&self, other: &FunctionType) -> (r: bool)
        ensures
            r == (self@ == other@),
    {
        if self.is_var_arg != other.is_var_arg {
            return false;
        }
        if !(self.result_type == other.result_type) {
            return false;
        }
        if self.param_types.len() != other.param_types.len() {
            assert(self@.param_types.len() != other@.param_types.len());
            return false;
        }
        let mut i: usize = 0;
        while i < self.param_types.len()
            invariant
                i <= self.param_types.len(),
                self.param_types.len() == other.param_types.len(),
                forall|k: int| 0 <= k < i ==> self.param_types@[k]@ == other.param_types@[k]@,
            decreases self.param_types.len() - i,
        {
            if !(self.param_types[i] == other.param_types[i]) {
                assert(self@.param_types[i as int] != other@.param_types[i as int]);
                return false;
            }
            i += 1;
        }
        assert(self@.param_types =~= other@.param_types);
        true
    }
}

/// What a call site calls.
#[derive(Clone, Debug, PartialEq, Eq, PartialOrd, Ord, Hash)]
pub enum Callee {
    /// A direct reference to the function with this name
    Function(String),
    /// A constant that is not a direct reference to a function
    Constant,
    /// A value computed at run time
    Value,
    /// Inline assembly
    InlineAssembly,
}

/// A call site: a call instruction, or the call that an invoke terminator
/// makes.
#[derive(Clone, Debug, PartialEq, Eq, PartialOrd, Ord, Hash)]
pub struct Call {
    /// What is called
    pub callee: Callee,
    /// The function type that the callee is known to have
    pub callee_ty: FunctionType,
}

/// The instruction that ends a basic block.
#[derive(Clone, Debug, PartialEq, Eq, PartialOrd, Ord, Hash)]
pub enum Terminator {
    Ret,
    Br { dest: Name },
    CondBr { true_dest: Name, false_dest: Name },
    Switch { dests: Vec<Name>, default_dest: Name },
    IndirectBr { possible_dests: Vec<Name> },
    Invoke { call: Call, return_label: Name, exception_label: Name },
    Resume,
    Unreachable,
    CleanupRet { unwind_dest: Option<Name> },
    CatchRet { successor: Name },
    CatchSwitch { catch_handlers: Vec<Name>, default_unwind_dest: Option<Name> },
    CallBr,
}

/// A straight-line sequence of instructions ending in one terminator. Of the
/// instructions only the calls are held.
#[derive(Clone, Debug, PartialEq, Eq, PartialOrd, Ord, Hash)]
pub struct BasicBlock {
    pub name: Name,
    pub calls: Vec<Call>,
    pub term: Terminator,
}

/// A function definition.
#[derive(Clone, Debug, PartialEq, Eq, PartialOrd, Ord, Hash)]
pub struct Function {
    pub name: String,
    pub ty: FunctionType,
    pub basic_blocks: Vec<BasicBlock>,
}

/// A module: an ordered list of function definitions.
#[derive(Clone, Debug, PartialEq, Eq, PartialOrd, Ord, Hash)]
pub struct Module {
    pub name: String,
    pub functions: Vec<Function>,
}

/// Whether the module defines a function of the given name.
pub open spec fn module_defines(module: Module, name: Seq<char>) -> bool {
    exists|f: int| 0 <= f < module.functions@.len() && (#[trigger] module.functions@[f]).name@ == name
}

impl Module {
    /// Get the first function of the module with the given name, if there
    /// is one.
    pub fn get_func_by_name(&self, name: &str) -> (r: Option<&Function>)
        ensures
            r.is_some() == module_defines(*self, name@),
            r matches Some(func) ==> exists|f: int|
                0 <= f < self.functions@.len() && *func == #[trigger] self.functions@[f] && func.name@
                    == name@ && forall|g: int| 0 <= g < f ==> (#[trigger] self.functions@[g]).name@ != name@,
    {
        let owned = name.to_owned();
        let mut i: usize = 0;
        while i < self.functions.len()
            invariant
                i <= self.functions@.len(),
                owned@ == name@,
                forall|g: int| 0 <= g < i ==> (#[trigger] self.functions@[g]).name@ != name@,
            decreases self.functions@.len() - i,
        {
            if self.functions[i].name == owned {
                return Some(&self.functions[i]);
            }
            i += 1;
        }
        None
    }
}

/// The views of a list of strings, in order.
pub open spec fn string_views(strings: Seq<String>) -> Seq<Seq<char>> {
    Seq::new(strings.len(), |i: int| strings[i]@)
}

/// Whether one of the modules defines a function of the given name.
pub open spec fn defines_function(modules: Seq<&Module>, name: Seq<char>) -> bool {
    exists|m: int, f: int|
        0 <= m < modules.len() && 0 <= f < modules[m].functions@.len()
            && #[trigger] modules[m].functions@[f].name@ == name
}

/// Whether one of the modules defines a function of the given name and
/// type.
pub open spec fn defines_function_of_type(
    modules: Seq<&Module>,
    ty: FunctionTypeView,
    name: Seq<char>,
) -> bool {
    exists|m: int, f: int|
        0 <= m < modules.len() && 0 <= f < modules[m].functions@.len()
            && (#[trigger] modules[m].functions@[f]).ty@ == ty && modules[m].functions@[f].name@
            == name
}

/// The views of a list of names, in order.
pub open spec fn name_views(names: Seq<Name>) -> Seq<NameView> {
    Seq::new(names.len(), |i: int| names[i]@)
}

} // verus!
