//! The functions of the analyzed modules, found by their type.

use crate::ir::defines_function_of_type;
use crate::ir::string_views;
use crate::ir::Function;
use crate::ir::FunctionType;
use crate::ir::FunctionTypeView;
use crate::ir::Module;
use vstd::prelude::*;

verus! {

/// Allows you to get all the functions in the analyzed `Module`(s) that have
/// a specified type.
pub struct FunctionsByType {
    /// Each function's type and name; no pair occurs twice
    pub(crate) entries: Vec<(FunctionType, String)>,
}

/// Whether the function is one of the first `f` functions of module `m`, or
/// a function of an earlier module, and has the given type and name.
pub open spec fn defined_before(
    modules: Seq<&Module>,
    m: int,
    f: int,
    ty: FunctionTypeView,
    name: Seq<char>,
) -> bool {
    exists|m2: int, f2: int|
        0 <= m2 < modules.len() && 0 <= f2 < modules[m2].functions@.len() && (m2 < m || (m2 == m
            && f2 < f)) && (#[trigger] modules[m2].functions@[f2]).ty@ == ty
            && modules[m2].functions@[f2].name@ == name
}

/// Whether the list holds the pair of the type and the name.
pub open spec fn listed(
    entries: Seq<(FunctionType, String)>,
    ty: FunctionTypeView,
    name: Seq<char>,
) -> bool {
    exists|i: int|
        0 <= i < entries.len() && (#[trigger] entries[i]).0@ == ty && entries[i].1@ == name
}

impl FunctionsByType {
    /// No pair of a type and a name occurs twice.
    #[verifier::type_invariant]
    pub open(crate) spec fn wf(&self) -> bool {
        forall|i: int, j: int|
            0 <= i < j < self.entries@.len() ==> !(self.entries@[i].0@ == self.entries@[j].0@
                && self.entries@[i].1@ == self.entries@[j].1@)
    }

    /// Whether a function of the given name has the given type.
    pub open(crate) spec fn holds(&self, ty: FunctionTypeView, name: Seq<char>) -> bool {
        listed(self.entries@, ty, name)
    }

    /// Whether this holds exactly the functions that the modules define.
    pub open spec fn is_for(&self, modules: Seq<&Module>) -> bool {
        forall|ty: FunctionTypeView, name: Seq<char>|
            self.holds(ty, name) <==> defines_function_of_type(modules, ty, name)
    }

    /// Files every function of the modules under its type.
    pub(crate) fn new(modules: &Vec<&Module>) -> (r: Self)
        ensures
            r.is_for(modules@),
    {
        let mut entries: Vec<(FunctionType, String)> = Vec::new();
        let mut m: usize = 0;
        while m < modules.len()
            invariant
                m <= modules@.len(),
                forall|i: int, j: int|
                    0 <= i < j < entries@.len() ==> !(entries@[i].0@ == entries@[j].0@
                        && entries@[i].1@ == entries@[j].1@),
                forall|ty: FunctionTypeView, name: Seq<char>|
                    listed(entries@, ty, name) <==> defined_before(
                        modules@,
                        m as int,
                        0,
                        ty,
                        name,
                    ),
            decreases modules@.len() - m,
        {
            let module = modules[m];
            let mut f: usize = 0;
            while f < module.functions.len()
                invariant
                    m < modules@.len(),
                    module == modules@[m as int],
                    f <= module.functions@.len(),
                    forall|i: int, j: int|
                        0 <= i < j < entries@.len() ==> !(entries@[i].0@ == entries@[j].0@
                            && entries@[i].1@ == entries@[j].1@),
                    forall|ty: FunctionTypeView, name: Seq<char>|
                        listed(entries@, ty, name) <==> defined_before(
                            modules@,
                            m as int,
                            f as int,
                            ty,
                            name,
                        ),
                decreases module.functions@.len() - f,
            {
                let func = &module.functions[f];
                let ghost before = entries@;
                if !Self::contains(&entries, &func.ty, &func.name) {
                    entries.push((func.ty.duplicate(), func.name.clone()));
                }
                proof {
                    assert forall|ty: FunctionTypeView, name: Seq<char>|
                        listed(entries@, ty, name) <==> defined_before(
                            modules@,
                            m as int,
                            f + 1,
                            ty,
                            name,
                        ) by {
                        let here = func.ty@ == ty && func.name@ == name;
                        let was = listed(before, ty, name);
                        if listed(entries@, ty, name) {
                            let i = choose|i: int|
                                0 <= i < entries@.len() && (#[trigger] entries@[i]).0@ == ty
                                    && entries@[i].1@ == name;
                            if i < before.len() {
                                assert(before[i].0@ == ty && before[i].1@ == name);
                                assert(was);
                            } else {
                                assert(here);
                            }
                        }
                        if was {
                            let i = choose|i: int|
                                0 <= i < before.len() && (#[trigger] before[i]).0@ == ty
                                    && before[i].1@ == name;
                            assert(entries@[i].0@ == ty && entries@[i].1@ == name);
                            assert(defined_before(modules@, m as int, f as int, ty, name));
                            let (m2, f2) = choose|m2: int, f2: int|
                                0 <= m2 < modules@.len() && 0 <= f2
                                    < modules@[m2].functions@.len() && (m2 < m || (m2 == m && f2
                                    < f)) && (#[trigger] modules@[m2].functions@[f2]).ty@ == ty
                                    && modules@[m2].functions@[f2].name@ == name;
                            assert(0 <= m2 < modules@.len() && 0 <= f2
                                < modules@[m2].functions@.len() && (m2 < m || (m2 == m && f2 < f
                                + 1)) && modules@[m2].functions@[f2].ty@ == ty
                                && modules@[m2].functions@[f2].name@ == name);
                        }
                        if here {
                            assert(modules@[m as int].functions@[f as int].ty@ == ty);
                            if !was {
                                assert(entries@[entries@.len() - 1].0@ == ty);
                            }
                        }
                        if defined_before(modules@, m as int, f + 1, ty, name) {
                            let (m2, f2) = choose|m2: int, f2: int|
                                0 <= m2 < modules@.len() && 0 <= f2
                                    < modules@[m2].functions@.len() && (m2 < m || (m2 == m && f2
                                    < f + 1)) && (#[trigger] modules@[m2].functions@[f2]).ty@
                                    == ty && modules@[m2].functions@[f2].name@ == name;
                            if !(m2 == m && f2 == f) {
                                assert(defined_before(modules@, m as int, f as int, ty, name));
                            }
                        }
                    }
                }
                f += 1;
            }
            proof {
                assert forall|ty: FunctionTypeView, name: Seq<char>|
                    defined_before(modules@, m as int, f as int, ty, name) <==> defined_before(
                        modules@,
                        m + 1,
                        0,
                        ty,
                        name,
                    ) by {
                    if defined_before(modules@, m as int, f as int, ty, name) {
                        let (m2, f2) = choose|m2: int, f2: int|
                            0 <= m2 < modules@.len() && 0 <= f2 < modules@[m2].functions@.len()
                                && (m2 < m || (m2 == m && f2 < f))
                                && (#[trigger] modules@[m2].functions@[f2]).ty@ == ty
                                && modules@[m2].functions@[f2].name@ == name;
                        assert(m2 < m + 1 && modules@[m2].functions@[f2].ty@ == ty);
                    }
                    if defined_before(modules@, m + 1, 0, ty, name) {
                        let (m2, f2) = choose|m2: int, f2: int|
                            0 <= m2 < modules@.len() && 0 <= f2 < modules@[m2].functions@.len()
                                && (m2 < m + 1 || (m2 == m + 1 && f2 < 0))
                                && (#[trigger] modules@[m2].functions@[f2]).ty@ == ty
                                && modules@[m2].functions@[f2].name@ == name;
                        assert((m2 < m || (m2 == m && f2 < f)) && modules@[m2].functions@[f2].ty@
                            == ty);
                    }
                }
            }
            m += 1;
        }
        let r = FunctionsByType { entries };
        proof {
            assert forall|ty: FunctionTypeView, name: Seq<char>|
                r.holds(ty, name) <==> defines_function_of_type(modules@, ty, name) by {
                if defined_before(modules@, m as int, 0, ty, name) {
                    let (m2, f2) = choose|m2: int, f2: int|
                        0 <= m2 < modules@.len() && 0 <= f2 < modules@[m2].functions@.len() && (
                        m2 < m || (m2 == m && f2 < 0))
                            && (#[trigger] modules@[m2].functions@[f2]).ty@ == ty
                            && modules@[m2].functions@[f2].name@ == name;
                    assert(modules@[m2].functions@[f2].ty@ == ty);
                }
                if defines_function_of_type(modules@, ty, name) {
                    let (m2, f2) = choose|m2: int, f2: int|
                        0 <= m2 < modules@.len() && 0 <= f2 < modules@[m2].functions@.len()
                            && (#[trigger] modules@[m2].functions@[f2]).ty@ == ty
                            && modules@[m2].functions@[f2].name@ == name;
                    assert(m2 < m && modules@[m2].functions@[f2].ty@ == ty);
                }
            }
        }
        r
    }

    /// Whether the list holds the pair of the type and the name.
    fn contains(entries: &Vec<(FunctionType, String)>, ty: &FunctionType, name: &String) -> (r:
        bool)
        ensures
            r == listed(entries@, ty@, name@),
    {
        let mut i: usize = 0;
        while i < entries.len()
            invariant
                i <= entries@.len(),
                forall|k: int|
                    0 <= k < i ==> !((#[trigger] entries@[k]).0@ == ty@ && entries@[k].1@
                        == name@),
            decreases entries@.len() - i,
        {
            if entries[i].0.same(ty) && entries[i].1 == *name {
                return true;
            }
            i += 1;
        }
        false
    }

    /// Get all of the functions in the analyzed `Module`(s) that have the
    /// specified type, each once. A type that no function has gives the
    /// empty list.
    pub fn functions_with_type(&self, ty: &FunctionType) -> (names: Vec<String>)
        ensures
            string_views(names@).no_duplicates(),
            forall|name: Seq<char>|
                string_views(names@).contains(name) <==> self.holds(ty@, name),
    {
        proof {
            use_type_invariant(self);
        }
        let mut names: Vec<String> = Vec::new();
        let ghost mut picked: Seq<int> = Seq::empty();
        let mut i: usize = 0;
        while i < self.entries.len()
            invariant
                self.wf(),
                i <= self.entries@.len(),
                picked.len() == names@.len(),
                forall|k: int|
                    0 <= k < picked.len() ==> 0 <= #[trigger] picked[k] < i
                        && self.entries@[picked[k]].0@ == ty@ && self.entries@[picked[k]].1@
                        == names@[k]@,
                forall|k: int, l: int| 0 <= k < l < picked.len() ==> picked[k] < picked[l],
                forall|j: int|
                    0 <= j < i && (#[trigger] self.entries@[j]).0@ == ty@ ==> exists|k: int|
                        0 <= k < picked.len() && picked[k] == j,
            decreases self.entries@.len() - i,
        {
            if self.entries[i].0.same(ty) {
                names.push(self.entries[i].1.clone());
                proof {
                    let before = picked;
                    picked = picked.push(i as int);
                    assert forall|j: int|
                        0 <= j < i + 1 && (#[trigger] self.entries@[j]).0@
                            == ty@ implies exists|k: int|
                        0 <= k < picked.len() && picked[k] == j by {
                        if j < i {
                            let k = choose|k: int| 0 <= k < before.len() && before[k] == j;
                            assert(picked[k] == j);
                        } else {
                            assert(picked[picked.len() - 1] == j);
                        }
                    }
                }
            }
            i += 1;
        }
        proof {
            let views = string_views(names@);
            assert forall|k: int, l: int| 0 <= k < l < views.len() implies views[k]
                != views[l] by {
                assert(picked[k] < picked[l]);
            }
            assert forall|name: Seq<char>| views.contains(name) <==> self.holds(ty@, name) by {
                if views.contains(name) {
                    let k = choose|k: int| 0 <= k < views.len() && views[k] == name;
                    assert(self.entries@[picked[k]].0@ == ty@);
                }
                if self.holds(ty@, name) {
                    let j = choose|j: int|
                        0 <= j < self.entries@.len() && (#[trigger] self.entries@[j]).0@ == ty@
                            && self.entries@[j].1@ == name;
                    let k = choose|k: int| 0 <= k < picked.len() && picked[k] == j;
                    assert(views[k] == name);
                }
            }
        }
        names
    }
}

} // verus!
