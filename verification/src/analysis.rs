//! Analyses of functions and modules, each computed when it is first asked
//! for and kept from then on.
//!
//! An analysis object is for use from one thread: the first request for an
//! analysis computes and stores it, and takes the object by `&mut` to do
//! so.

use crate::call_graph::CallGraph;
use crate::control_dep_graph::ControlDependenceGraph;
use crate::control_flow_graph::function_edges;
use crate::control_flow_graph::function_has_block;
use crate::control_flow_graph::function_is_supported;
use crate::control_flow_graph::ControlFlowGraph;
use crate::dominator_tree::DominatorTree;
use crate::dominator_tree::PostDominatorTree;
use crate::error::AnalysisError;
use crate::functions_by_type::FunctionsByType;
use crate::ir::Function;
use crate::ir::module_defines;
use crate::ir::Module;
use crate::ir::NameView;
use vstd::prelude::*;

verus! {

/// Holds a value that is computed at most once.
pub struct SimpleCache<T> {
    /// `None` if not computed yet
    pub data: Option<T>,
}

impl<T> SimpleCache<T> {
    /// A cache that holds nothing yet.
    pub fn new() -> (c: Self)
        ensures
            c.data.is_none(),
    {
        Self { data: None }
    }

    /// Get the cached value, or if no value is cached, compute the value
    /// using the given closure, then cache that result and return it
    pub fn get_or_insert_with<F: FnOnce() -> T>(&mut self, f: F) -> (r: &T)
        requires
            old(self).data.is_none() ==> f.requires(()),
        ensures
            final(self).data == Some(*r),
            old(self).data.is_some() ==> final(self).data == old(self).data,
            old(self).data.is_none() ==> f.ensures((), *r),
    {
        if self.data.is_none() {
            self.data = Some(f());
        }
        self.data.as_ref().unwrap()
    }
}

/// The control flow graph of a function, or why it has none.
pub type CfgResult = Result<ControlFlowGraph, AnalysisError>;

/// Whether `r` is what building the control flow graph of the function
/// gives: the graph, or `Unsupported` where it cannot be built.
pub open spec fn is_cfg_of(f: Function, r: Result<ControlFlowGraph, AnalysisError>) -> bool {
    &&& r.is_ok() == function_is_supported(f)
    &&& r matches Err(e) ==> e == AnalysisError::Unsupported
    &&& r matches Ok(cfg) ==> {
        &&& cfg.wf()
        &&& cfg.edges() == function_edges(f)
        &&& forall|name: NameView| cfg.has_block(name) == function_has_block(f, name)
        &&& cfg.entry_name() == f.basic_blocks@[0].name@
    }
}

/// Computes (and caches the results of) various analyses on a given
/// `Function`
pub struct FunctionAnalysis<'m> {
    /// Reference to the `Function`
    function: &'m Function,
    /// Control flow graph for the function
    control_flow_graph: SimpleCache<Result<ControlFlowGraph, AnalysisError>>,
    /// Dominator tree for the function
    dominator_tree: SimpleCache<DominatorTree>,
    /// Postdominator tree for the function
    postdominator_tree: SimpleCache<PostDominatorTree>,
    /// Control dependence graph for the function
    control_dep_graph: SimpleCache<ControlDependenceGraph>,
}

impl<'m> FunctionAnalysis<'m> {
    /// Each analysis that is stored is the analysis of the function, made
    /// from the stored analyses that it rests on.
    #[verifier::type_invariant]
    pub closed spec fn wf(&self) -> bool {
        &&& self.control_flow_graph.data matches Some(r) ==> is_cfg_of(*self.function, r)
        &&& self.dominator_tree.data matches Some(tree) ==> self.control_flow_graph.data matches Some(
            Ok(cfg),
        ) && tree.wf() && tree.is_for(cfg)
        &&& self.postdominator_tree.data matches Some(tree)
            ==> self.control_flow_graph.data matches Some(Ok(cfg)) && tree.wf() && tree.is_for(cfg)
        &&& self.control_dep_graph.data matches Some(cdg)
            ==> self.control_flow_graph.data matches Some(Ok(cfg))
            && self.postdominator_tree.data matches Some(tree) && cdg.wf() && cdg.is_for(cfg, tree)
    }

    /// The function that is analyzed.
    pub closed spec fn subject(&self) -> Function {
        *self.function
    }

    /// The control flow graph, if it has been asked for.
    pub closed spec fn cached_control_flow_graph(&self) -> Option<
        Result<ControlFlowGraph, AnalysisError>,
    > {
        self.control_flow_graph.data
    }

    /// The dominator tree, if it has been computed.
    pub closed spec fn cached_dominator_tree(&self) -> Option<DominatorTree> {
        self.dominator_tree.data
    }

    /// The postdominator tree, if it has been computed.
    pub closed spec fn cached_postdominator_tree(&self) -> Option<PostDominatorTree> {
        self.postdominator_tree.data
    }

    /// The control dependence graph, if it has been computed.
    pub closed spec fn cached_control_dependence_graph(&self) -> Option<ControlDependenceGraph> {
        self.control_dep_graph.data
    }

    /// Whether everything that `before` had stored is still stored, as it
    /// was.
    pub open spec fn keeps(&self, before: Self) -> bool {
        &&& self.subject() == before.subject()
        &&& before.cached_control_flow_graph().is_some() ==> self.cached_control_flow_graph()
            == before.cached_control_flow_graph()
        &&& before.cached_dominator_tree().is_some() ==> self.cached_dominator_tree()
            == before.cached_dominator_tree()
        &&& before.cached_postdominator_tree().is_some() ==> self.cached_postdominator_tree()
            == before.cached_postdominator_tree()
        &&& before.cached_control_dependence_graph().is_some()
            ==> self.cached_control_dependence_graph() == before.cached_control_dependence_graph()
    }

    /// Create a new `FunctionAnalysis` for the given `Function`.
    ///
    /// This method itself is cheap; individual analyses will be computed
    /// lazily on demand.
    pub fn new(function: &'m Function) -> (a: Self)
        ensures
            a.subject() == *function,
            a.cached_control_flow_graph().is_none(),
            a.cached_dominator_tree().is_none(),
            a.cached_postdominator_tree().is_none(),
            a.cached_control_dependence_graph().is_none(),
    {
        Self {
            function,
            control_flow_graph: SimpleCache::new(),
            dominator_tree: SimpleCache::new(),
            postdominator_tree: SimpleCache::new(),
            control_dep_graph: SimpleCache::new(),
        }
    }

    /// Get a reference to the `Function` which the `FunctionAnalysis` was
    /// created with.
    pub fn function(&self) -> (f: &'m Function)
        ensures
            *f == self.subject(),
    {
        self.function
    }

    /// Get the `ControlFlowGraph` for the function. Fails with `Unsupported`
    /// exactly when the function has no block or a terminator whose
    /// successors are not modelled.
    pub fn control_flow_graph(&mut self) -> (r: Result<&ControlFlowGraph, AnalysisError>)
        ensures
            final(self).keeps(*old(self)),
            r.is_ok() == function_is_supported(old(self).subject()),
            r matches Err(e) ==> e == AnalysisError::Unsupported,
            r matches Ok(cfg) ==> final(self).cached_control_flow_graph() == Some(
                Ok::<ControlFlowGraph, AnalysisError>(*cfg),
            ) && cfg.edges() == function_edges(old(self).subject()) && (forall|name: NameView|
                cfg.has_block(name) == function_has_block(old(self).subject(), name))
                && cfg.entry_name() == old(self).subject().basic_blocks@[0].name@,
    {
        proof {
            use_type_invariant(&*self);
        }
        if self.control_flow_graph.data.is_none() {
            self.control_flow_graph.data = Some(ControlFlowGraph::new(self.function));
        }
        match self.control_flow_graph.data.as_ref().unwrap() {
            Ok(cfg) => Ok(cfg),
            Err(e) => Err(*e),
        }
    }

    /// Get the `DominatorTree` for the function. Fails exactly when the
    /// control flow graph cannot be built.
    pub fn dominator_tree(&mut self) -> (r: Result<&DominatorTree, AnalysisError>)
        ensures
            final(self).keeps(*old(self)),
            r.is_ok() == function_is_supported(old(self).subject()),
            r matches Err(e) ==> e == AnalysisError::Unsupported,
            r matches Ok(tree) ==> {
                &&& final(self).cached_dominator_tree() == Some(*tree)
                &&& final(self).cached_control_flow_graph() matches Some(Ok(cfg)) && tree.is_for(
                    cfg,
                )
            },
    {
        proof {
            use_type_invariant(&*self);
        }
        if self.control_flow_graph.data.is_none() {
            self.control_flow_graph.data = Some(ControlFlowGraph::new(self.function));
        }
        let cfg = match self.control_flow_graph.data.as_ref().unwrap() {
            Ok(cfg) => cfg,
            Err(e) => {
                return Err(*e);
            },
        };
        if self.dominator_tree.data.is_none() {
            self.dominator_tree.data = Some(DominatorTree::new(cfg));
        }
        Ok(self.dominator_tree.data.as_ref().unwrap())
    }

    /// Get the `PostDominatorTree` for the function. Fails exactly when the
    /// control flow graph cannot be built.
    pub fn postdominator_tree(&mut self) -> (r: Result<&PostDominatorTree, AnalysisError>)
        ensures
            final(self).keeps(*old(self)),
            r.is_ok() == function_is_supported(old(self).subject()),
            r matches Err(e) ==> e == AnalysisError::Unsupported,
            r matches Ok(tree) ==> {
                &&& final(self).cached_postdominator_tree() == Some(*tree)
                &&& final(self).cached_control_flow_graph() matches Some(Ok(cfg)) && tree.is_for(
                    cfg,
                )
            },
    {
        proof {
            use_type_invariant(&*self);
        }
        if self.control_flow_graph.data.is_none() {
            self.control_flow_graph.data = Some(ControlFlowGraph::new(self.function));
        }
        let cfg = match self.control_flow_graph.data.as_ref().unwrap() {
            Ok(cfg) => cfg,
            Err(e) => {
                return Err(*e);
            },
        };
        if self.postdominator_tree.data.is_none() {
            self.postdominator_tree.data = Some(PostDominatorTree::new(cfg));
        }
        Ok(self.postdominator_tree.data.as_ref().unwrap())
    }

    /// Get the `ControlDependenceGraph` for the function. Fails exactly when
    /// the control flow graph cannot be built.
    pub fn control_dependence_graph(&mut self) -> (r: Result<
        &ControlDependenceGraph,
        AnalysisError,
    >)
        ensures
            final(self).keeps(*old(self)),
            r.is_ok() == function_is_supported(old(self).subject()),
            r matches Err(e) ==> e == AnalysisError::Unsupported,
            r matches Ok(cdg) ==> {
                &&& final(self).cached_control_dependence_graph() == Some(*cdg)
                &&& final(self).cached_control_flow_graph() matches Some(Ok(cfg))
                    && final(self).cached_postdominator_tree() matches Some(tree) && cdg.is_for(
                    cfg,
                    tree,
                )
            },
    {
        proof {
            use_type_invariant(&*self);
        }
        if self.control_flow_graph.data.is_none() {
            self.control_flow_graph.data = Some(ControlFlowGraph::new(self.function));
        }
        let cfg = match self.control_flow_graph.data.as_ref().unwrap() {
            Ok(cfg) => cfg,
            Err(e) => {
                return Err(*e);
            },
        };
        if self.postdominator_tree.data.is_none() {
            self.postdominator_tree.data = Some(PostDominatorTree::new(cfg));
        }
        let postdomtree = self.postdominator_tree.data.as_ref().unwrap();
        if self.control_dep_graph.data.is_none() {
            self.control_dep_graph.data = Some(ControlDependenceGraph::new(cfg, postdomtree));
        }
        Ok(self.control_dep_graph.data.as_ref().unwrap())
    }
}

/// Computes (and caches the results of) various analyses on a given `Module`
pub struct ModuleAnalysis<'m> {
    /// Reference to the `Module`
    module: &'m Module,
    /// Call graph for the module
    call_graph: SimpleCache<CallGraph>,
    /// `FunctionsByType`, which allows you to get the module's functions by
    /// type
    functions_by_type: SimpleCache<FunctionsByType>,
    /// The `FunctionAnalysis` for each function of the module, in the
    /// module's order
    fn_analyses: Vec<FunctionAnalysis<'m>>,
}

impl<'m> ModuleAnalysis<'m> {
    /// Each analysis that is stored is the analysis of the module.
    #[verifier::type_invariant]
    pub closed spec fn wf(&self) -> bool {
        &&& self.functions_by_type.data matches Some(fbt) ==> fbt.is_for(seq![self.module])
        &&& self.call_graph.data matches Some(graph) ==> graph.is_for(seq![self.module])
    }

    /// The module that is analyzed.
    pub closed spec fn subject(&self) -> &'m Module {
        self.module
    }

    /// The analyses of the module's functions.
    pub closed spec fn analyses(&self) -> Seq<FunctionAnalysis<'m>> {
        self.fn_analyses@
    }

    /// The call graph, if it has been computed.
    pub closed spec fn cached_call_graph(&self) -> Option<CallGraph> {
        self.call_graph.data
    }

    /// The functions by type, if they have been computed.
    pub closed spec fn cached_functions_by_type(&self) -> Option<FunctionsByType> {
        self.functions_by_type.data
    }

    /// Whether there is one analysis for each function of the module, in the
    /// module's order.
    pub open spec fn covers_module(&self) -> bool {
        &&& self.analyses().len() == self.subject().functions@.len()
        &&& forall|i: int|
            0 <= i < self.analyses().len() ==> (#[trigger] self.analyses()[i]).subject()
                == self.subject().functions@[i]
    }

    /// Whether everything that `before` had stored is still stored, as it
    /// was.
    pub open spec fn keeps(&self, before: Self) -> bool {
        &&& self.subject() == before.subject()
        &&& self.analyses() == before.analyses()
        &&& before.cached_call_graph().is_some() ==> self.cached_call_graph()
            == before.cached_call_graph()
        &&& before.cached_functions_by_type().is_some() ==> self.cached_functions_by_type()
            == before.cached_functions_by_type()
    }

    /// Create a new `ModuleAnalysis` for the given `Module`.
    ///
    /// This method itself is cheap; individual analyses will be computed
    /// lazily on demand.
    pub fn new(module: &'m Module) -> (a: Self)
        ensures
            a.subject() == module,
            a.covers_module(),
            a.cached_call_graph().is_none(),
            a.cached_functions_by_type().is_none(),
    {
        let mut fn_analyses: Vec<FunctionAnalysis<'m>> = Vec::new();
        let mut i: usize = 0;
        while i < module.functions.len()
            invariant
                i <= module.functions@.len(),
                fn_analyses@.len() == i,
                forall|k: int|
                    0 <= k < i ==> (#[trigger] fn_analyses@[k]).subject() == module.functions@[k],
            decreases module.functions@.len() - i,
        {
            fn_analyses.push(FunctionAnalysis::new(&module.functions[i]));
            i += 1;
        }
        Self {
            module,
            call_graph: SimpleCache::new(),
            functions_by_type: SimpleCache::new(),
            fn_analyses,
        }
    }

    /// Get a reference to the `Module` which the `ModuleAnalysis` was created
    /// with.
    pub fn module(&self) -> (m: &'m Module)
        ensures
            m == self.subject(),
    {
        self.module
    }

    /// Get the `CallGraph` for the `Module`.
    pub fn call_graph(&mut self) -> (graph: &CallGraph)
        ensures
            final(self).keeps(*old(self)),
            final(self).cached_call_graph() == Some(*graph),
            graph.is_for(seq![old(self).subject()]),
    {
        proof {
            use_type_invariant(&*self);
        }
        let mut modules: Vec<&Module> = Vec::new();
        modules.push(self.module);
        assert(modules@ =~= seq![self.module]);
        if self.functions_by_type.data.is_none() {
            self.functions_by_type.data = Some(FunctionsByType::new(&modules));
        }
        let functions_by_type = self.functions_by_type.data.as_ref().unwrap();
        if self.call_graph.data.is_none() {
            self.call_graph.data = Some(CallGraph::new(&modules, functions_by_type));
        }
        self.call_graph.data.as_ref().unwrap()
    }

    /// Get the `FunctionsByType` for the `Module`.
    pub fn functions_by_type(&mut self) -> (fbt: &FunctionsByType)
        ensures
            final(self).keeps(*old(self)),
            final(self).cached_functions_by_type() == Some(*fbt),
            fbt.is_for(seq![old(self).subject()]),
    {
        proof {
            use_type_invariant(&*self);
        }
        if self.functions_by_type.data.is_none() {
            let mut modules: Vec<&Module> = Vec::new();
            modules.push(self.module);
            assert(modules@ =~= seq![self.module]);
            self.functions_by_type.data = Some(FunctionsByType::new(&modules));
        }
        self.functions_by_type.data.as_ref().unwrap()
    }

    /// Get the `FunctionAnalysis` for the function with the given name: the
    /// last of the analyses whose function has that name.
    ///
    /// Fails with `NotFound` exactly when none of the analyses is that of a
    /// function of that name; with one analysis for each function of the
    /// module, that is when no function of that name exists in the `Module`
    /// which the `ModuleAnalysis` was created with.
    pub fn fn_analysis(&mut self, func_name: &str) -> (r: Result<
        &mut FunctionAnalysis<'m>,
        AnalysisError,
    >)
        ensures
            final(self).subject() == old(self).subject(),
            final(self).cached_call_graph() == old(self).cached_call_graph(),
            final(self).cached_functions_by_type() == old(self).cached_functions_by_type(),
            r.is_ok() == exists|i: int|
                0 <= i < old(self).analyses().len() && (#[trigger] old(self).analyses()[i]).subject().name@
                    == func_name@,
            old(self).covers_module() ==> r.is_ok() == module_defines(
                *old(self).subject(),
                func_name@,
            ),
            r matches Err(e) ==> e == AnalysisError::NotFound && final(self).analyses() == old(
                self,
            ).analyses(),
            r matches Ok(analysis) ==> exists|i: int|
                0 <= i < old(self).analyses().len() && *analysis == #[trigger] old(
                    self,
                ).analyses()[i] && analysis.subject().name@ == func_name@ && final(self).analyses()
                    == old(self).analyses().update(i, *final(analysis)),
    {
        proof {
            use_type_invariant(&*self);
            if self.covers_module() {
                if module_defines(*self.subject(), func_name@) {
                    let f = choose|f: int|
                        0 <= f < self.module.functions@.len() && (
                        #[trigger] self.module.functions@[f]).name@ == func_name@;
                    assert(self.analyses()[f].subject().name@ == func_name@);
                }
                if exists|i: int|
                    0 <= i < self.analyses().len() && (#[trigger] self.analyses()[i]).subject().name@
                        == func_name@ {
                    let i = choose|i: int|
                        0 <= i < self.analyses().len() && (
                        #[trigger] self.analyses()[i]).subject().name@ == func_name@;
                    assert(self.module.functions@[i].name@ == func_name@);
                }
            }
        }
        let name = func_name.to_owned();
        let mut i: usize = self.fn_analyses.len();
        while i > 0
            invariant
                self.wf(),
                *self == *old(self),
                name@ == func_name@,
                i <= self.fn_analyses@.len(),
                forall|k: int|
                    i <= k < self.fn_analyses@.len() ==> (#[trigger] self.fn_analyses@[k]).subject().name@
                        != func_name@,
            decreases i,
        {
            i -= 1;
            if self.fn_analyses[i].function().name == name {
                proof {
                    let found = old(self).analyses()[i as int];
                    assert(found.subject().name@ == func_name@);
                }
                return Ok(&mut self.fn_analyses[i]);
            }
        }
        Err(AnalysisError::NotFound)
    }
}

/// The functions of the first `n` modules, in order.
pub open spec fn functions_of(modules: Seq<&Module>, n: int) -> Seq<Function>
    decreases n,
{
    if n <= 0 {
        Seq::empty()
    } else {
        functions_of(modules, n - 1) + modules[n - 1].functions@
    }
}

/// Analyzes multiple `Module`s, providing a `ModuleAnalysis` for each; and
/// also provides a few additional cross-module analyses (e.g., a
/// cross-module call graph)
pub struct CrossModuleAnalysis<'m> {
    /// Reference to the `Module`s
    modules: Vec<&'m Module>,
    /// Cross-module call graph
    call_graph: SimpleCache<CallGraph>,
    /// `FunctionsByType`, which allows you to get functions by type
    functions_by_type: SimpleCache<FunctionsByType>,
    /// The `ModuleAnalysis` for each module, in the modules' order
    module_analyses: Vec<ModuleAnalysis<'m>>,
}

impl<'m> CrossModuleAnalysis<'m> {
    /// Each analysis that is stored is the analysis of the modules.
    #[verifier::type_invariant]
    pub closed spec fn wf(&self) -> bool {
        &&& self.functions_by_type.data matches Some(fbt) ==> fbt.is_for(self.modules@)
        &&& self.call_graph.data matches Some(graph) ==> graph.is_for(self.modules@)
    }

    /// The modules that are analyzed.
    pub closed spec fn subjects(&self) -> Seq<&'m Module> {
        self.modules@
    }

    /// The analyses of the modules.
    pub closed spec fn analyses(&self) -> Seq<ModuleAnalysis<'m>> {
        self.module_analyses@
    }

    /// The call graph, if it has been computed.
    pub closed spec fn cached_call_graph(&self) -> Option<CallGraph> {
        self.call_graph.data
    }

    /// The functions by type, if they have been computed.
    pub closed spec fn cached_functions_by_type(&self) -> Option<FunctionsByType> {
        self.functions_by_type.data
    }

    /// Whether there is one analysis for each module, in the modules' order.
    pub open spec fn covers_modules(&self) -> bool {
        &&& self.analyses().len() == self.subjects().len()
        &&& forall|i: int|
            0 <= i < self.analyses().len() ==> (#[trigger] self.analyses()[i]).subject()
                == self.subjects()[i]
    }

    /// Whether everything that `before` had stored is still stored, as it
    /// was.
    pub open spec fn keeps(&self, before: Self) -> bool {
        &&& self.subjects() == before.subjects()
        &&& self.analyses() == before.analyses()
        &&& before.cached_call_graph().is_some() ==> self.cached_call_graph()
            == before.cached_call_graph()
        &&& before.cached_functions_by_type().is_some() ==> self.cached_functions_by_type()
            == before.cached_functions_by_type()
    }

    /// Create a new `CrossModuleAnalysis` for the given set of `Module`s.
    ///
    /// This method itself is cheap; individual analyses will be computed
    /// lazily on demand.
    pub fn new(modules: Vec<&'m Module>) -> (a: Self)
        ensures
            a.subjects() == modules@,
            a.covers_modules(),
            a.cached_call_graph().is_none(),
            a.cached_functions_by_type().is_none(),
    {
        let mut module_analyses: Vec<ModuleAnalysis<'m>> = Vec::new();
        let mut i: usize = 0;
        while i < modules.len()
            invariant
                i <= modules@.len(),
                module_analyses@.len() == i,
                forall|k: int|
                    0 <= k < i ==> (#[trigger] module_analyses@[k]).subject() == modules@[k],
            decreases modules@.len() - i,
        {
            module_analyses.push(ModuleAnalysis::new(modules[i]));
            i += 1;
        }
        Self {
            modules,
            call_graph: SimpleCache::new(),
            functions_by_type: SimpleCache::new(),
            module_analyses,
        }
    }

    /// Get the analyzed `Module`(s).
    pub fn modules(&self) -> (m: &Vec<&'m Module>)
        ensures
            m@ == self.subjects(),
    {
        &self.modules
    }

    /// Get all the `Function`s in the analyzed `Module`(s), module by
    /// module.
    pub fn functions(&self) -> (fs: Vec<&'m Function>)
        ensures
            Seq::new(fs@.len(), |k: int| *fs@[k]) == functions_of(
                self.subjects(),
                self.subjects().len() as int,
            ),
    {
        let mut out: Vec<&'m Function> = Vec::new();
        let mut m: usize = 0;
        assert(Seq::new(out@.len(), |k: int| *out@[k]) =~= functions_of(self.modules@, 0));
        while m < self.modules.len()
            invariant
                m <= self.modules@.len(),
                Seq::new(out@.len(), |k: int| *out@[k]) == functions_of(self.modules@, m as int),
            decreases self.modules@.len() - m,
        {
            let module = self.modules[m];
            let ghost before = Seq::new(out@.len(), |k: int| *out@[k]);
            let mut f: usize = 0;
            while f < module.functions.len()
                invariant
                    f <= module.functions@.len(),
                    Seq::new(out@.len(), |k: int| *out@[k]) == before + module.functions@.take(
                        f as int,
                    ),
                decreases module.functions@.len() - f,
            {
                let ghost so_far = Seq::new(out@.len(), |k: int| *out@[k]);
                out.push(&module.functions[f]);
                assert(module.functions@.take(f + 1) =~= module.functions@.take(f as int).push(
                    module.functions@[f as int],
                ));
                assert(Seq::new(out@.len(), |k: int| *out@[k]) =~= so_far.push(
                    module.functions@[f as int],
                ));
                f += 1;
            }
            assert(module.functions@.take(module.functions@.len() as int) =~= module.functions@);
            m += 1;
        }
        out
    }

    /// Get the full `CallGraph` for the `Module`(s).
    ///
    /// This will include both cross-module and within-module calls.
    pub fn call_graph(&mut self) -> (graph: &CallGraph)
        ensures
            final(self).keeps(*old(self)),
            final(self).cached_call_graph() == Some(*graph),
            graph.is_for(old(self).subjects()),
    {
        proof {
            use_type_invariant(&*self);
        }
        if self.functions_by_type.data.is_none() {
            self.functions_by_type.data = Some(FunctionsByType::new(&self.modules));
        }
        let functions_by_type = self.functions_by_type.data.as_ref().unwrap();
        if self.call_graph.data.is_none() {
            self.call_graph.data = Some(CallGraph::new(&self.modules, functions_by_type));
        }
        self.call_graph.data.as_ref().unwrap()
    }

    /// Get the `FunctionsByType` for the `Module`(s).
    pub fn functions_by_type(&mut self) -> (fbt: &FunctionsByType)
        ensures
            final(self).keeps(*old(self)),
            final(self).cached_functions_by_type() == Some(*fbt),
            fbt.is_for(old(self).subjects()),
    {
        proof {
            use_type_invariant(&*self);
        }
        if self.functions_by_type.data.is_none() {
            self.functions_by_type.data = Some(FunctionsByType::new(&self.modules));
        }
        self.functions_by_type.data.as_ref().unwrap()
    }

    /// Get the `ModuleAnalysis` for the module with the given name: the last
    /// of the analyses whose module has that name.
    ///
    /// Fails with `NotFound` exactly when none of the analyses is that of a
    /// module of that name.
    pub fn module_analysis(&mut self, mod_name: &str) -> (r: Result<
        &mut ModuleAnalysis<'m>,
        AnalysisError,
    >)
        ensures
            final(self).subjects() == old(self).subjects(),
            final(self).cached_call_graph() == old(self).cached_call_graph(),
            final(self).cached_functions_by_type() == old(self).cached_functions_by_type(),
            r.is_ok() == exists|i: int|
                0 <= i < old(self).analyses().len() && (#[trigger] old(self).analyses()[i]).subject().name@
                    == mod_name@,
            r matches Err(e) ==> e == AnalysisError::NotFound && final(self).analyses() == old(
                self,
            ).analyses(),
            r matches Ok(analysis) ==> exists|i: int|
                0 <= i < old(self).analyses().len() && *analysis == #[trigger] old(
                    self,
                ).analyses()[i] && analysis.subject().name@ == mod_name@ && final(self).analyses()
                    == old(self).analyses().update(i, *final(analysis)),
    {
        proof {
            use_type_invariant(&*self);
        }
        let name = mod_name.to_owned();
        let mut i: usize = self.module_analyses.len();
        while i > 0
            invariant
                self.wf(),
                *self == *old(self),
                name@ == mod_name@,
                i <= self.module_analyses@.len(),
                forall|k: int|
                    i <= k < self.module_analyses@.len() ==> (
                    #[trigger] self.module_analyses@[k]).subject().name@ != mod_name@,
            decreases i,
        {
            i -= 1;
            if self.module_analyses[i].module().name == name {
                proof {
                    let found = old(self).analyses()[i as int];
                    assert(found.subject().name@ == mod_name@);
                }
                return Ok(&mut self.module_analyses[i]);
            }
        }
        Err(AnalysisError::NotFound)
    }

    /// Get the `Function` with the given name from the analyzed `Module`(s).
    ///
    /// Returns both the `Function` and the `Module` it was found in, or
    /// `None` if no function was found with that name. Fails with
    /// `Ambiguous` exactly when more than one module defines a function of
    /// that name.
    pub fn get_func_by_name(&self, func_name: &str) -> (r: Result<
        Option<(&'m Function, &'m Module)>,
        AnalysisError,
    >)
        ensures
            r.is_err() == exists|i: int, j: int|
                0 <= i < j < self.subjects().len() && module_defines(
                    *#[trigger] self.subjects()[i],
                    func_name@,
                ) && module_defines(*#[trigger] self.subjects()[j], func_name@),
            r matches Err(e) ==> e == AnalysisError::Ambiguous,
            r matches Ok(None) ==> forall|i: int|
                0 <= i < self.subjects().len() ==> !module_defines(
                    *#[trigger] self.subjects()[i],
                    func_name@,
                ),
            r matches Ok(Some(found)) ==> found.0.name@ == func_name@ && exists|i: int, f: int|
                0 <= i < self.subjects().len() && found.1 == #[trigger] self.subjects()[i] && 0
                    <= f < found.1.functions@.len() && *found.0 == #[trigger] found.1.functions@[f]
                    && forall|g: int|
                    0 <= g < f ==> (#[trigger] found.1.functions@[g]).name@ != func_name@,
    {
        let mut retval: Option<(&'m Function, &'m Module)> = None;
        let ghost mut at: int = 0;
        let ghost mut index: int = 0;
        let mut m: usize = 0;
        while m < self.modules.len()
            invariant
                m <= self.modules@.len(),
                retval.is_none() ==> forall|i: int|
                    0 <= i < m ==> !module_defines(*#[trigger] self.modules@[i], func_name@),
                retval.is_some() ==> 0 <= at < m,
                retval matches Some(found) ==> found.1 == self.modules@[at],
                retval.is_some() ==> module_defines(*self.modules@[at], func_name@),
                retval matches Some(found) ==> found.0.name@ == func_name@,
                retval matches Some(found) ==> 0 <= index < found.1.functions@.len() && *found.0
                    == found.1.functions@[index] && forall|g: int|
                    0 <= g < index ==> (#[trigger] found.1.functions@[g]).name@ != func_name@,
                retval.is_some() ==> forall|i: int|
                    0 <= i < m && i != at ==> !module_defines(
                        *#[trigger] self.modules@[i],
                        func_name@,
                    ),
            decreases self.modules@.len() - m,
        {
            let module = self.modules[m];
            match module.get_func_by_name(func_name) {
                Some(func) => {
                    match retval {
                        None => {
                            retval = Some((func, module));
                            proof {
                                at = m as int;
                                index = choose|f: int|
                                    0 <= f < module.functions@.len() && *func
                                        == #[trigger] module.functions@[f] && func.name@
                                        == func_name@ && forall|g: int|
                                        0 <= g < f ==> (#[trigger] module.functions@[g]).name@
                                            != func_name@;
                            }
                        },
                        Some(_) => {
                            proof {
                                let first = self.subjects()[at];
                                let second = self.subjects()[m as int];
                                assert(module_defines(*first, func_name@) && module_defines(
                                    *second,
                                    func_name@,
                                ));
                            }
                            return Err(AnalysisError::Ambiguous);
                        },
                    }
                },
                None => {},
            }
            m += 1;
        }
        proof {
            if exists|i: int, j: int|
                0 <= i < j < self.subjects().len() && module_defines(
                    *#[trigger] self.subjects()[i],
                    func_name@,
                ) && module_defines(*#[trigger] self.subjects()[j], func_name@) {
                let (i, j) = choose|i: int, j: int|
                    0 <= i < j < self.subjects().len() && module_defines(
                        *#[trigger] self.subjects()[i],
                        func_name@,
                    ) && module_defines(*#[trigger] self.subjects()[j], func_name@);
                assert(false);
            }
            match retval {
                Some(found) => {
                    let module = self.subjects()[at];
                    assert(found.1 == module && *found.0 == found.1.functions@[index]);
                },
                None => {},
            }
        }
        Ok(retval)
    }
}

} // verus!
