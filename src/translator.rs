use vstd::prelude::*;

use crate::item::{ItemSort, ParsedItem, TypeSort};
use crate::names::{Replacement, Span, function_name, function_name_of, nominal_name, nominal_name_of};
use crate::result::{Rendering, TranslationResult};
use crate::schedule::Scheduler;
use crate::strset::TextSet;
use crate::text::{join_lines, joined, views, trim, trimmed};

verus! {

/// Switches of the engine.
#[derive(Clone, Copy, Debug)]
pub struct Config {
    pub try_multiple_signatures: bool,
    pub provide_signatures: bool,
    pub fix_errors: bool,
}

impl Config {
    /// How many candidate signatures the model is asked for: three when signatures are
    /// explored, else one.
    pub fn signature_requests(&self) -> (r: usize)
        ensures
            r == if self.try_multiple_signatures { 3usize } else { 1usize },
    {
        if self.try_multiple_signatures {
            3
        } else {
            1
        }
    }
}

/// A reference to a declaration of the program by its index, at a span of the source.
#[derive(Clone, Copy, Debug)]
pub struct Ref {
    pub id: usize,
    pub span: Span,
}

/// A C nominal type: its name, kind, the types it mentions, and whether it is a typedef
/// that only names a struct (its first dependency).
#[derive(Clone, Debug)]
pub struct TypeDecl {
    pub name: String,
    pub sort: TypeSort,
    pub deps: Vec<Ref>,
    pub struct_alias: bool,
    pub ident: Span,
}

/// A C global: its name, the types it mentions and the globals it reads.
#[derive(Clone, Debug)]
pub struct VariableDecl {
    pub name: String,
    pub type_deps: Vec<Ref>,
    pub deps: Vec<Ref>,
    pub ident: Span,
}

/// A C function: its name, the types, globals and functions it mentions, and its
/// parameter count.
#[derive(Clone, Debug)]
pub struct FunctionDecl {
    pub name: String,
    pub type_deps: Vec<Ref>,
    pub deps: Vec<Ref>,
    pub callees: Vec<Ref>,
    pub params: usize,
    pub ident: Span,
}

/// The declarations of a parsed C program, by kind.
#[derive(Clone, Debug)]
pub struct Program {
    pub types: Vec<TypeDecl>,
    pub variables: Vec<VariableDecl>,
    pub functions: Vec<FunctionDecl>,
}

/// The three kinds of declaration, translated in this order.
#[derive(Clone, Copy, Debug, PartialEq, Eq, Structural)]
pub enum Kind {
    Type,
    Variable,
    Function,
}

/// What has been translated so far: per kind, the committed results in commit order with
/// the index of their declaration, the names they define, and the global imports.
#[derive(Debug)]
pub struct TranslatorInner {
    pub translated_type_names: TextSet,
    pub translated_term_names: TextSet,
    pub translated_types: Vec<(usize, TranslationResult)>,
    pub translated_variables: Vec<(usize, TranslationResult)>,
    pub translated_functions: Vec<(usize, TranslationResult)>,
    pub uses: TextSet,
}

/// The engine's state: the program, a scheduler per kind, the names settled for every
/// declaration, and what has been translated.
#[derive(Debug)]
pub struct Translator {
    pub program: Program,
    pub types: Scheduler,
    pub variables: Scheduler,
    pub functions: Scheduler,
    pub new_type_names: Vec<String>,
    pub new_variable_names: Vec<String>,
    pub new_function_names: Vec<String>,
    pub inner: TranslatorInner,
    pub config: Config,
}

/// The indices of `refs`.
pub open spec fn ids(refs: Seq<Ref>) -> Seq<usize> {
    refs.map_values(|r: Ref| r.id)
}

fn ref_ids(refs: &Vec<Ref>) -> (r: Vec<usize>)
    ensures
        r@ == ids(refs@),
{
    let mut r: Vec<usize> = Vec::new();
    let mut k: usize = 0;
    while k < refs.len()
        invariant
            k <= refs@.len(),
            r@ == ids(refs@.subrange(0, k as int)),
        decreases refs@.len() - k,
    {
        r.push(refs[k].id);
        proof {
            assert(ids(refs@.subrange(0, k + 1)) =~= ids(refs@.subrange(0, k as int)).push(refs@[k as int].id));
        }
        k = k + 1;
    }
    proof {
        assert(refs@.subrange(0, refs@.len() as int) =~= refs@);
    }
    r
}

/// The dependency lists of the types of `p`, by index.
pub open spec fn type_graph(p: Program) -> Seq<Seq<usize>> {
    p.types@.map_values(|t: TypeDecl| ids(t.deps@))
}

/// The globals each global of `p` reads.
pub open spec fn variable_graph(p: Program) -> Seq<Seq<usize>> {
    p.variables@.map_values(|v: VariableDecl| ids(v.deps@))
}

/// The functions each function of `p` calls.
pub open spec fn function_graph(p: Program) -> Seq<Seq<usize>> {
    p.functions@.map_values(|f: FunctionDecl| ids(f.callees@))
}

/// The views of a list of dependency lists.
pub open spec fn graph_view(g: Seq<Vec<usize>>) -> Seq<Seq<usize>> {
    g.map_values(|v: Vec<usize>| v@)
}

/// Every result of `log` that contributes text, in the given rendering.
pub open spec fn log_texts(log: Seq<(usize, TranslationResult)>, mode: Rendering) -> Seq<Seq<char>>
    decreases log.len(),
{
    if log.len() == 0 {
        Seq::empty()
    } else if log.last().1.copied {
        log_texts(log.drop_last(), mode)
    } else {
        log_texts(log.drop_last(), mode).push(log.last().1.text(mode))
    }
}

/// The sum of the residual error counts of `log`.
pub open spec fn log_errors(log: Seq<(usize, TranslationResult)>) -> nat
    decreases log.len(),
{
    if log.len() == 0 {
        0
    } else {
        log_errors(log.drop_last()) + log.last().1.errors as nat
    }
}

/// The indices of the results of `log` that hold only a signature.
pub open spec fn log_signature_only(log: Seq<(usize, TranslationResult)>) -> Seq<usize>
    decreases log.len(),
{
    if log.len() == 0 {
        Seq::empty()
    } else if log.last().1.signature_only {
        log_signature_only(log.drop_last()).push(log.last().0)
    } else {
        log_signature_only(log.drop_last())
    }
}

/// The empty entry point that ends every emitted program.
pub open spec fn entry_stub() -> Seq<char> {
    "fn main() {}"@
}

impl TranslatorInner {
    /// The emitted program in the given rendering: the imports, every non-copied type,
    /// global and function in commit order, and the empty entry point, one per line.
    pub open spec fn program_text(&self, mode: Rendering) -> Seq<char> {
        joined(self.uses.view_seq() + log_texts(self.translated_types@, mode)
            + log_texts(self.translated_variables@, mode) + log_texts(self.translated_functions@, mode)
            + seq![entry_stub()])
    }

    pub open spec fn total_errors(&self) -> nat {
        log_errors(self.translated_types@) + log_errors(self.translated_variables@)
            + log_errors(self.translated_functions@)
    }
}

fn log_texts_exec(log: &Vec<(usize, TranslationResult)>, mode: Rendering, out: &mut Vec<String>)
    ensures
        views(final(out)@) == views(old(out)@) + log_texts(log@, mode),
{
    let ghost o = views(out@);
    let mut k: usize = 0;
    while k < log.len()
        invariant
            k <= log@.len(),
            views(out@) == o + log_texts(log@.subrange(0, k as int), mode),
        decreases log@.len() - k,
    {
        proof {
            assert(log@.subrange(0, k + 1).drop_last() =~= log@.subrange(0, k as int));
        }
        if !log[k].1.copied {
            let t = log[k].1.mk_code(mode);
            let ghost before = out@;
            out.push(t);
            proof {
                assert(views(out@) =~= views(before).push(t@));
            }
        }
        k = k + 1;
    }
    proof {
        assert(log@.subrange(0, log@.len() as int) =~= log@);
    }
}

fn log_errors_exec(log: &Vec<(usize, TranslationResult)>, acc: usize) -> (r: usize)
    ensures
        r == if acc + log_errors(log@) > usize::MAX { usize::MAX as int } else { acc + log_errors(log@) },
{
    let mut sum = acc;
    let mut k: usize = 0;
    while k < log.len()
        invariant
            k <= log@.len(),
            sum == if acc + log_errors(log@.subrange(0, k as int)) > usize::MAX { usize::MAX as int } else {
                acc + log_errors(log@.subrange(0, k as int))
            },
        decreases log@.len() - k,
    {
        proof {
            assert(log@.subrange(0, k + 1).drop_last() =~= log@.subrange(0, k as int));
        }
        sum = sum.saturating_add(log[k].1.errors);
        k = k + 1;
    }
    proof {
        assert(log@.subrange(0, log@.len() as int) =~= log@);
    }
    sum
}

fn log_signature_only_exec(log: &Vec<(usize, TranslationResult)>, out: &mut Vec<usize>)
    ensures
        final(out)@ == old(out)@ + log_signature_only(log@),
{
    let ghost o = out@;
    let mut k: usize = 0;
    while k < log.len()
        invariant
            k <= log@.len(),
            out@ == o + log_signature_only(log@.subrange(0, k as int)),
        decreases log@.len() - k,
    {
        proof {
            assert(log@.subrange(0, k + 1).drop_last() =~= log@.subrange(0, k as int));
        }
        if log[k].1.signature_only {
            out.push(log[k].0);
            proof {
                assert(out@ =~= o + log_signature_only(log@.subrange(0, k + 1)));
            }
        }
        k = k + 1;
    }
    proof {
        assert(log@.subrange(0, log@.len() as int) =~= log@);
    }
}

impl Translator {
    /// A translator for `program` with the global imports `uses`, nothing translated yet
    /// and no names settled: every kind is scheduled over its own dependency graph.
    pub fn new(program: Program, config: Config, uses: Vec<String>) -> (r: Translator)
        ensures
            r.wf(),
            r.program == program,
            r.config == config,
            graph_view(r.types.deps@) == type_graph(program),
            graph_view(r.variables.deps@) == variable_graph(program),
            graph_view(r.functions.deps@) == function_graph(program),
            r.types.wf() && r.variables.wf() && r.functions.wf(),
            forall|i: int| 0 <= i < r.types.len() ==> !#[trigger] r.types.started@[i],
            forall|i: int| 0 <= i < r.variables.len() ==> !#[trigger] r.variables.started@[i],
            forall|i: int| 0 <= i < r.functions.len() ==> !#[trigger] r.functions.started@[i],
            r.inner.uses.wf(),
            r.inner.uses.view_set() == views(uses@).to_set(),
            r.inner.translated_type_names.wf() && r.inner.translated_term_names.wf(),
            r.inner.translated_type_names.view_seq().len() == 0,
            r.inner.translated_term_names.view_seq().len() == 0,
            r.inner.translated_types@.len() == 0,
            r.inner.translated_variables@.len() == 0,
            r.inner.translated_functions@.len() == 0,
            r.new_type_names@.len() == 0,
            r.new_variable_names@.len() == 0,
            r.new_function_names@.len() == 0,
    {
        let mut tg: Vec<Vec<usize>> = Vec::new();
        let mut k: usize = 0;
        while k < program.types.len()
            invariant
                k <= program.types@.len(),
                graph_view(tg@) == type_graph(program).subrange(0, k as int),
            decreases program.types@.len() - k,
        {
            let ghost before = tg@;
            let d = ref_ids(&program.types[k].deps);
            let ghost dv = d@;
            tg.push(d);
            proof {
                assert(graph_view(tg@) =~= graph_view(before).push(dv));
                assert(type_graph(program)[k as int] == dv);
                assert(type_graph(program).subrange(0, k + 1) =~= type_graph(program).subrange(0, k as int).push(dv));
            }
            k = k + 1;
        }
        let mut vg: Vec<Vec<usize>> = Vec::new();
        let mut k: usize = 0;
        while k < program.variables.len()
            invariant
                k <= program.variables@.len(),
                graph_view(vg@) == variable_graph(program).subrange(0, k as int),
            decreases program.variables@.len() - k,
        {
            let ghost before = vg@;
            let d = ref_ids(&program.variables[k].deps);
            let ghost dv = d@;
            vg.push(d);
            proof {
                assert(graph_view(vg@) =~= graph_view(before).push(dv));
                assert(variable_graph(program)[k as int] == dv);
                assert(variable_graph(program).subrange(0, k + 1) =~= variable_graph(program).subrange(0, k as int).push(dv));
            }
            k = k + 1;
        }
        let mut fg: Vec<Vec<usize>> = Vec::new();
        let mut k: usize = 0;
        while k < program.functions.len()
            invariant
                k <= program.functions@.len(),
                graph_view(fg@) == function_graph(program).subrange(0, k as int),
            decreases program.functions@.len() - k,
        {
            let ghost before = fg@;
            let d = ref_ids(&program.functions[k].callees);
            let ghost dv = d@;
            fg.push(d);
            proof {
                assert(graph_view(fg@) =~= graph_view(before).push(dv));
                assert(function_graph(program)[k as int] == dv);
                assert(function_graph(program).subrange(0, k + 1) =~= function_graph(program).subrange(0, k as int).push(dv));
            }
            k = k + 1;
        }
        proof {
            assert(type_graph(program).subrange(0, program.types@.len() as int) =~= type_graph(program));
            assert(variable_graph(program).subrange(0, program.variables@.len() as int) =~= variable_graph(program));
            assert(function_graph(program).subrange(0, program.functions@.len() as int) =~= function_graph(program));
        }
        let mut set = TextSet::new();
        let mut k: usize = 0;
        while k < uses.len()
            invariant
                k <= uses@.len(),
                set.wf(),
                set.view_set() == views(uses@.subrange(0, k as int)).to_set(),
            decreases uses@.len() - k,
        {
            set.insert(uses[k].clone());
            proof {
                assert(views(uses@.subrange(0, k + 1)) =~= views(uses@.subrange(0, k as int)).push(uses@[k as int]@));
                views(uses@.subrange(0, k as int)).lemma_push_to_set_commute(uses@[k as int]@);
            }
            k = k + 1;
        }
        proof {
            assert(uses@.subrange(0, uses@.len() as int) =~= uses@);
        }
        let inner = TranslatorInner {
            translated_type_names: TextSet::new(),
            translated_term_names: TextSet::new(),
            translated_types: Vec::new(),
            translated_variables: Vec::new(),
            translated_functions: Vec::new(),
            uses: set,
        };
        Translator {
            program,
            types: Scheduler::new(tg),
            variables: Scheduler::new(vg),
            functions: Scheduler::new(fg),
            new_type_names: Vec::new(),
            new_variable_names: Vec::new(),
            new_function_names: Vec::new(),
            inner,
            config,
        }
    }

    /// The C names of the globals, then of the functions, whose translation holds only a
    /// signature; each part in ascending name order, without repeats.
    pub fn signature_only(&self) -> (r: Vec<String>)
        requires
            self.wf(),
        ensures
            exists|vs: Seq<Seq<char>>, fs: Seq<Seq<char>>|
                crate::strset::sorted(vs) && vs.to_set() == names_at(log_signature_only(self.inner.translated_variables@), variable_names(self.program))
                && crate::strset::sorted(fs) && fs.to_set() == names_at(log_signature_only(self.inner.translated_functions@), function_names(self.program))
                && views(r@) == vs + fs,
    {
        let mut vi: Vec<usize> = Vec::new();
        log_signature_only_exec(&self.inner.translated_variables, &mut vi);
        let mut fi: Vec<usize> = Vec::new();
        log_signature_only_exec(&self.inner.translated_functions, &mut fi);
        proof {
            assert(vi@ =~= log_signature_only(self.inner.translated_variables@));
            assert(fi@ =~= log_signature_only(self.inner.translated_functions@));
        }
        let vn = variable_name_list(&self.program.variables);
        let fnn = function_name_list(&self.program.functions);
        let vs = name_set(&vi, &vn);
        let fs = name_set(&fi, &fnn);
        let mut r: Vec<String> = vs.items;
        let mut tail: Vec<String> = fs.items;
        let ghost a = views(r@);
        let ghost b = views(tail@);
        r.append(&mut tail);
        proof {
            assert(views(r@) =~= a + b);
        }
        r
    }

    /// The residual error count summed over every committed result (saturating at the
    /// largest `usize`).
    pub fn errors(&self) -> (r: usize)
        ensures
            r == if self.inner.total_errors() > usize::MAX { usize::MAX as int } else { self.inner.total_errors() as int },
    {
        let a = log_errors_exec(&self.inner.translated_types, 0);
        let b = log_errors_exec(&self.inner.translated_variables, a);
        log_errors_exec(&self.inner.translated_functions, b)
    }

    /// The emitted program in the given rendering.
    pub fn mk_code(&self, mode: Rendering) -> (r: String)
        ensures
            r@ == self.inner.program_text(mode),
    {
        let mut parts: Vec<String> = Vec::new();
        let mut k: usize = 0;
        while k < self.inner.uses.items.len()
            invariant
                k <= self.inner.uses.items@.len(),
                views(parts@) == self.inner.uses.view_seq().subrange(0, k as int),
            decreases self.inner.uses.items@.len() - k,
        {
            let ghost before = parts@;
            parts.push(self.inner.uses.items[k].clone());
            proof {
                assert(views(parts@) =~= views(before).push(self.inner.uses.items@[k as int]@));
                assert(self.inner.uses.view_seq().subrange(0, k + 1) =~= self.inner.uses.view_seq().subrange(0, k as int).push(self.inner.uses.items@[k as int]@));
            }
            k = k + 1;
        }
        proof {
            assert(self.inner.uses.view_seq().subrange(0, self.inner.uses.view_seq().len() as int) =~= self.inner.uses.view_seq());
        }
        log_texts_exec(&self.inner.translated_types, mode, &mut parts);
        log_texts_exec(&self.inner.translated_variables, mode, &mut parts);
        log_texts_exec(&self.inner.translated_functions, mode, &mut parts);
        let ghost before = parts@;
        proof {
            reveal_strlit("fn main() {}");
        }
        parts.push(String::from_str("fn main() {}"));
        proof {
            assert(views(parts@) =~= views(before).push(entry_stub()));
            assert(views(parts@) =~= self.inner.uses.view_seq() + log_texts(self.inner.translated_types@, mode)
                + log_texts(self.inner.translated_variables@, mode) + log_texts(self.inner.translated_functions@, mode)
                + seq![entry_stub()]);
        }
        join_lines(&parts)
    }

    /// The emitted program.
    pub fn code(&self) -> (r: String)
        ensures
            r@ == self.inner.program_text(Rendering::Full),
    {
        self.mk_code(Rendering::Full)
    }

    /// The program as context for compiling the next translation.
    pub fn checking_code(&self) -> (r: String)
        ensures
            r@ == self.inner.program_text(Rendering::Checking),
    {
        self.mk_code(Rendering::Checking)
    }
}

/// Why a step of the translator is refused.
#[derive(Debug, Clone, Copy, PartialEq, Eq, Structural)]
pub enum TranslateError {
    /// A list of proposed names does not have one name per declaration.
    NameCount,
    /// The node was not started, or was committed already.
    NotInFlight,
    /// The translation lost the item that defines the declaration's own name.
    MissingItem,
    /// A derive rejection names no type of the result.
    UnknownItem,
}

/// The trimmed forms of the texts of `s`.
pub open spec fn trimmed_all(s: Set<Seq<char>>) -> Set<Seq<char>> {
    Set::new(|v: Seq<char>| exists|w: Seq<char>| s.contains(w) && trimmed(w) == v)
}

/// Whether `log` holds each node at most once, every one of them committed in `s`, and
/// every committed node of `s`.
pub open spec fn log_matches(log: Seq<(usize, TranslationResult)>, s: Scheduler) -> bool {
    &&& forall|k: int| 0 <= k < log.len() ==> (#[trigger] log[k]).0 < s.len() && s.committed@[log[k].0 as int]
    &&& forall|a: int, b: int| 0 <= a < b < log.len() ==> (#[trigger] log[a]).0 != (#[trigger] log[b]).0
    &&& forall|i: int| 0 <= i < s.len() && #[trigger] s.committed@[i] ==> exists|k: int| 0 <= k < log.len() && log[k].0 == i
}

/// The names of the type items of `items`, or of the others.
pub open spec fn item_names(items: Seq<ParsedItem>, types: bool) -> Set<Seq<char>> {
    Set::new(|n: Seq<char>| exists|k: int| 0 <= k < items.len() && items[k].name@ == n && items[k].is_type() == types)
}

impl Translator {
    pub open spec fn wf(&self) -> bool {
        &&& self.types.wf() && self.variables.wf() && self.functions.wf()
        &&& graph_view(self.types.deps@) == type_graph(self.program)
        &&& graph_view(self.variables.deps@) == variable_graph(self.program)
        &&& graph_view(self.functions.deps@) == function_graph(self.program)
        &&& self.types.len() == self.program.types@.len()
        &&& self.variables.len() == self.program.variables@.len()
        &&& self.functions.len() == self.program.functions@.len()
        &&& log_matches(self.inner.translated_types@, self.types)
        &&& log_matches(self.inner.translated_variables@, self.variables)
        &&& log_matches(self.inner.translated_functions@, self.functions)
        &&& self.inner.uses.wf()
        &&& self.inner.translated_type_names.wf() && self.inner.translated_term_names.wf()
    }

    /// The log of one kind.
    pub open spec fn log(&self, kind: Kind) -> Seq<(usize, TranslationResult)> {
        match kind {
            Kind::Type => self.inner.translated_types@,
            Kind::Variable => self.inner.translated_variables@,
            Kind::Function => self.inner.translated_functions@,
        }
    }

    /// The scheduler of one kind.
    pub open spec fn sched(&self, kind: Kind) -> Scheduler {
        match kind {
            Kind::Type => self.types,
            Kind::Variable => self.variables,
            Kind::Function => self.functions,
        }
    }

    /// Settles the names proposed for every type, global and function, in declaration
    /// order: a type proposed as the standard option type and a function proposed as the
    /// entry point are renamed (see `nominal_name_of`, `function_name_of`).
    pub fn translate_names(&mut self, types: Vec<String>, variables: Vec<String>, functions: Vec<String>) -> (r: Result<(), TranslateError>)
        ensures
            r is Ok <==> (types@.len() == old(self).program.types@.len()
                && variables@.len() == old(self).program.variables@.len()
                && functions@.len() == old(self).program.functions@.len()),
            r is Ok ==> views(final(self).new_type_names@) == views(types@).map_values(|p: Seq<char>| nominal_name_of(p)),
            r is Ok ==> views(final(self).new_variable_names@) == views(variables@),
            r is Ok ==> views(final(self).new_function_names@) == views(functions@).map_values(|p: Seq<char>| function_name_of(p)),
            final(self).program == old(self).program,
            final(self).types == old(self).types,
            final(self).variables == old(self).variables,
            final(self).functions == old(self).functions,
            final(self).inner == old(self).inner,
            r is Err ==> *final(self) == *old(self),
    {
        if types.len() != self.program.types.len() || variables.len() != self.program.variables.len()
            || functions.len() != self.program.functions.len() {
            return Err(TranslateError::NameCount);
        }
        let ghost tv = views(types@);
        let ghost fv = views(functions@);
        let nt = types.len();
        let nf = functions.len();
        let mut tn: Vec<String> = Vec::new();
        let mut rest = types;
        let mut k: usize = 0;
        while rest.len() > 0
            invariant
                k + rest@.len() == tv.len(),
                tv.len() == nt,
                views(rest@) == tv.subrange(k as int, tv.len() as int),
                views(tn@) == tv.subrange(0, k as int).map_values(|p: Seq<char>| nominal_name_of(p)),
            decreases rest@.len(),
        {
            let ghost r0 = rest@;
            let p = rest.remove(0);
            proof {
                assert(views(r0)[0] == tv[k as int]);
            }
            let ghost before = tn@;
            let n = nominal_name(p);
            tn.push(n);
            proof {
                assert(views(rest@) =~= views(r0).drop_first());
                assert(views(tn@) =~= views(before).push(nominal_name_of(tv[k as int])));
                assert(tv.subrange(0, k + 1) =~= tv.subrange(0, k as int).push(tv[k as int]));
                assert(tv.subrange(0, k + 1).map_values(|p: Seq<char>| nominal_name_of(p)) =~=
                    tv.subrange(0, k as int).map_values(|p: Seq<char>| nominal_name_of(p)).push(nominal_name_of(tv[k as int])));
            }
            k = k + 1;
        }
        proof {
            assert(tv.subrange(0, k as int) =~= tv);
        }
        let mut fnames: Vec<String> = Vec::new();
        let mut rest = functions;
        let mut k: usize = 0;
        while rest.len() > 0
            invariant
                k + rest@.len() == fv.len(),
                fv.len() == nf,
                views(rest@) == fv.subrange(k as int, fv.len() as int),
                views(fnames@) == fv.subrange(0, k as int).map_values(|p: Seq<char>| function_name_of(p)),
            decreases rest@.len(),
        {
            let ghost r0 = rest@;
            let p = rest.remove(0);
            proof {
                assert(views(r0)[0] == fv[k as int]);
            }
            let ghost before = fnames@;
            let n = function_name(p);
            fnames.push(n);
            proof {
                assert(views(rest@) =~= views(r0).drop_first());
                assert(views(fnames@) =~= views(before).push(function_name_of(fv[k as int])));
                assert(fv.subrange(0, k + 1) =~= fv.subrange(0, k as int).push(fv[k as int]));
                assert(fv.subrange(0, k + 1).map_values(|p: Seq<char>| function_name_of(p)) =~=
                    fv.subrange(0, k as int).map_values(|p: Seq<char>| function_name_of(p)).push(function_name_of(fv[k as int])));
            }
            k = k + 1;
        }
        proof {
            assert(fv.subrange(0, k as int) =~= fv);
        }
        self.new_type_names = tn;
        self.new_variable_names = variables;
        self.new_function_names = fnames;
        Ok(())
    }

    /// Starts every node of `kind` whose dependencies are all committed, and returns them.
    pub fn ready(&mut self, kind: Kind) -> (r: Vec<usize>)
        requires
            old(self).wf(),
        ensures
            final(self).wf(),
            final(self).program == old(self).program,
            final(self).inner == old(self).inner,
            forall|i: int| 0 <= i < old(self).sched(kind).len() ==> (r@.contains(i as usize) <==> crate::schedule::is_ready(
                old(self).sched(kind).deps@, old(self).sched(kind).started@, old(self).sched(kind).committed@, i)),
            final(self).sched(kind).committed == old(self).sched(kind).committed,
            final(self).sched(kind).deps == old(self).sched(kind).deps,
            forall|k: int| 0 <= k < r@.len() ==> #[trigger] r@[k] < old(self).sched(kind).len(),
            forall|k2: Kind| k2 != kind ==> final(self).sched(k2) == old(self).sched(k2),
            final(self).new_type_names == old(self).new_type_names,
            final(self).new_variable_names == old(self).new_variable_names,
            final(self).new_function_names == old(self).new_function_names,
            final(self).config == old(self).config,
    {
        match kind {
            Kind::Type => self.types.ready(),
            Kind::Variable => self.variables.ready(),
            Kind::Function => self.functions.ready(),
        }
    }

    /// Whether every node of `kind` has been committed.
    pub fn finished(&self, kind: Kind) -> (r: bool)
        requires
            self.wf(),
        ensures
            r == self.sched(kind).all_committed(),
    {
        match kind {
            Kind::Type => self.types.finished(),
            Kind::Variable => self.variables.finished(),
            Kind::Function => self.functions.finished(),
        }
    }

    /// Whether some node of `kind` is being translated. When nothing is in flight, nothing
    /// is ready and the kind is not finished, its nodes depend on each other in a cycle.
    pub fn in_flight(&self, kind: Kind) -> (r: bool)
        requires
            self.wf(),
        ensures
            r == exists|i: int| 0 <= i < self.sched(kind).len() && self.sched(kind).started@[i]
                && !self.sched(kind).committed@[i],
    {
        let s = match kind {
            Kind::Type => &self.types,
            Kind::Variable => &self.variables,
            Kind::Function => &self.functions,
        };
        proof {
            assert(*s == self.sched(kind));
        }
        s.in_flight()
    }

    /// Commits the translation of node `id` of `kind`: the result joins the kind's log, the
    /// names it defines join the translated names, and its imports, trimmed, join the
    /// global imports. Only a node in flight can be committed, so each is committed once.
    pub fn commit(&mut self, kind: Kind, id: usize, result: TranslationResult) -> (r: Result<(), TranslateError>)
        requires
            old(self).wf(),
        ensures
            final(self).wf(),
            r is Ok <==> (id < old(self).sched(kind).len() && old(self).sched(kind).started@[id as int]
                && !old(self).sched(kind).committed@[id as int]),
            r is Err ==> *final(self) == *old(self),
            r is Ok ==> final(self).log(kind) == old(self).log(kind).push((id, result)),
            r is Ok ==> final(self).sched(kind).committed@ == old(self).sched(kind).committed@.update(id as int, true),
            r is Ok ==> final(self).inner.translated_type_names.view_set() == old(self).inner.translated_type_names.view_set().union(
                item_names(result.items@, true)),
            r is Ok ==> final(self).inner.translated_term_names.view_set() == old(self).inner.translated_term_names.view_set().union(
                item_names(result.items@, false)),
            r is Ok ==> final(self).inner.uses.view_set() == old(self).inner.uses.view_set().union(
                trimmed_all(result.uses.view_set())),
            final(self).program == old(self).program,
            final(self).config == old(self).config,
            final(self).new_type_names == old(self).new_type_names,
            final(self).new_variable_names == old(self).new_variable_names,
            final(self).new_function_names == old(self).new_function_names,
            final(self).sched(kind).deps == old(self).sched(kind).deps,
            final(self).sched(kind).started == old(self).sched(kind).started,
            forall|k2: Kind| k2 != kind ==> final(self).sched(k2) == old(self).sched(k2) && final(self).log(k2) == old(self).log(k2),
    {
        let ok = match kind {
            Kind::Type => self.types.commit(id),
            Kind::Variable => self.variables.commit(id),
            Kind::Function => self.functions.commit(id),
        };
        if ok.is_err() {
            return Err(TranslateError::NotInFlight);
        }
        proof {
            let lg = self.log(kind);
            let sc = self.sched(kind);
            assert forall|k: int| 0 <= k < lg.len() implies (#[trigger] lg[k]).0 != id by {
                assert(old(self).sched(kind).committed@[lg[k].0 as int]);
            }
        }
        let ghost ts1 = self.types;
        let ghost vs1 = self.variables;
        let ghost fs1 = self.functions;
        let ghost tn0 = self.inner.translated_type_names.view_set();
        let ghost mn0 = self.inner.translated_term_names.view_set();
        let mut k: usize = 0;
        while k < result.items.len()
            invariant
                k <= result.items@.len(),
                self.inner.translated_type_names.wf(),
                self.inner.translated_term_names.wf(),
                self.inner.translated_type_names.view_set() == tn0.union(item_names(result.items@.subrange(0, k as int), true)),
                self.inner.translated_term_names.view_set() == mn0.union(item_names(result.items@.subrange(0, k as int), false)),
                self.inner.uses == old(self).inner.uses,
                self.inner.translated_types == old(self).inner.translated_types,
                self.inner.translated_variables == old(self).inner.translated_variables,
                self.inner.translated_functions == old(self).inner.translated_functions,
                self.types == ts1,
                self.variables == vs1,
                self.functions == fs1,
                self.program == old(self).program,
                self.config == old(self).config,
                self.new_type_names == old(self).new_type_names,
                self.new_variable_names == old(self).new_variable_names,
                self.new_function_names == old(self).new_function_names,
            decreases result.items@.len() - k,
        {
            let it = &result.items[k];
            let is_type = match it.sort {
                ItemSort::Type(_) => true,
                _ => false,
            };
            if is_type {
                self.inner.translated_type_names.insert(it.name.clone());
            } else {
                self.inner.translated_term_names.insert(it.name.clone());
            }
            proof {
                let p = result.items@.subrange(0, k as int);
                let q = result.items@.subrange(0, k + 1);
                assert(q =~= p.push(result.items@[k as int]));
                assert(item_names(q, true) =~= if is_type { item_names(p, true).insert(it.name@) } else { item_names(p, true) }) by {
                    assert forall|n: Seq<char>| item_names(q, true).contains(n) implies
                        (if is_type { item_names(p, true).insert(it.name@) } else { item_names(p, true) }).contains(n) by {
                        let j = choose|j: int| 0 <= j < q.len() && q[j].name@ == n && q[j].is_type() == true;
                        if j < k {
                            assert(p[j] == q[j]);
                        }
                    }
                    assert forall|n: Seq<char>| item_names(p, true).contains(n) implies item_names(q, true).contains(n) by {
                        let j = choose|j: int| 0 <= j < p.len() && p[j].name@ == n && p[j].is_type() == true;
                        assert(q[j] == p[j]);
                    }
                    if is_type {
                        assert(q[k as int].name@ == it.name@);
                    }
                }
                assert(item_names(q, false) =~= if !is_type { item_names(p, false).insert(it.name@) } else { item_names(p, false) }) by {
                    assert forall|n: Seq<char>| item_names(q, false).contains(n) implies
                        (if !is_type { item_names(p, false).insert(it.name@) } else { item_names(p, false) }).contains(n) by {
                        let j = choose|j: int| 0 <= j < q.len() && q[j].name@ == n && q[j].is_type() == false;
                        if j < k {
                            assert(p[j] == q[j]);
                        }
                    }
                    assert forall|n: Seq<char>| item_names(p, false).contains(n) implies item_names(q, false).contains(n) by {
                        let j = choose|j: int| 0 <= j < p.len() && p[j].name@ == n && p[j].is_type() == false;
                        assert(q[j] == p[j]);
                    }
                    if !is_type {
                        assert(q[k as int].name@ == it.name@);
                    }
                }
                assert(self.inner.translated_type_names.view_set() =~= tn0.union(item_names(q, true)));
                assert(self.inner.translated_term_names.view_set() =~= mn0.union(item_names(q, false)));
            }
            k = k + 1;
        }
        proof {
            assert(result.items@.subrange(0, result.items@.len() as int) =~= result.items@);
        }
        let ghost u0 = self.inner.uses.view_set();
        let ghost names1 = self.inner.translated_type_names;
        let ghost terms1 = self.inner.translated_term_names;
        let ghost rs = result.uses.view_seq();
        let mut k: usize = 0;
        while k < result.uses.items.len()
            invariant
                k <= rs.len(),
                rs == result.uses.view_seq(),
                self.inner.uses.wf(),
                self.inner.translated_types == old(self).inner.translated_types,
                self.inner.translated_variables == old(self).inner.translated_variables,
                self.inner.translated_functions == old(self).inner.translated_functions,
                self.inner.translated_type_names == names1,
                self.inner.translated_term_names == terms1,
                self.types == ts1,
                self.variables == vs1,
                self.functions == fs1,
                self.program == old(self).program,
                self.config == old(self).config,
                self.new_type_names == old(self).new_type_names,
                self.new_variable_names == old(self).new_variable_names,
                self.new_function_names == old(self).new_function_names,
                self.inner.uses.view_set() == u0.union(trimmed_all(rs.subrange(0, k as int).to_set())),
            decreases rs.len() - k,
        {
            let t = trim(result.uses.items[k].as_str());
            let ghost tv = t@;
            self.inner.uses.insert(t);
            proof {
                let p = rs.subrange(0, k as int);
                assert(rs.subrange(0, k + 1) =~= p.push(rs[k as int]));
                p.lemma_push_to_set_commute(rs[k as int]);
                let pk = p.push(rs[k as int]).to_set();
                assert(trimmed_all(pk) =~= trimmed_all(p.to_set()).insert(trimmed(rs[k as int]))) by {
                    assert forall|v: Seq<char>| #[trigger] trimmed_all(pk).contains(v) implies
                        trimmed_all(p.to_set()).insert(trimmed(rs[k as int])).contains(v) by {
                        let w = choose|w: Seq<char>| pk.contains(w) && trimmed(w) == v;
                        if w != rs[k as int] {
                            assert(p.to_set().contains(w));
                        }
                    }
                    assert forall|v: Seq<char>| #[trigger] trimmed_all(p.to_set()).contains(v) implies
                        trimmed_all(pk).contains(v) by {
                        let w = choose|w: Seq<char>| p.to_set().contains(w) && trimmed(w) == v;
                        assert(pk.contains(w));
                    }
                    assert(pk.contains(rs[k as int]));
                }
                assert(self.inner.uses.view_set() =~= u0.union(trimmed_all(rs.subrange(0, k + 1).to_set())));
            }
            k = k + 1;
        }
        proof {
            assert(rs.subrange(0, rs.len() as int) =~= rs);
        }
        let ghost res = result;
        match kind {
            Kind::Type => self.inner.translated_types.push((id, result)),
            Kind::Variable => self.inner.translated_variables.push((id, result)),
            Kind::Function => self.inner.translated_functions.push((id, result)),
        }
        proof {
            let lg = self.log(kind);
            let sc = self.sched(kind);
            assert(lg =~= old(self).log(kind).push((id, res)));
            assert(lg[lg.len() - 1].0 == id);
            assert(log_matches(old(self).log(kind), old(self).sched(kind)));
            assert forall|i: int| 0 <= i < sc.len() && #[trigger] sc.committed@[i] implies
                exists|k: int| 0 <= k < lg.len() && lg[k].0 == i by {
                if i != id {
                    assert(old(self).sched(kind).committed@[i]);
                    let k = choose|k: int| 0 <= k < old(self).log(kind).len() && old(self).log(kind)[k].0 == i;
                    assert(lg[k] == old(self).log(kind)[k]);
                }
            }
        }
        Ok(())
    }
}

/// Whether an item is new: no translated item of its kind (type or term) has its name.
pub open spec fn is_fresh(i: ParsedItem, types: Set<Seq<char>>, terms: Set<Seq<char>>) -> bool {
    if i.is_type() {
        !types.contains(i.name@)
    } else {
        !terms.contains(i.name@)
    }
}

/// The items of `items` that are new, in order.
pub open spec fn fresh_items(items: Seq<ParsedItem>, types: Set<Seq<char>>, terms: Set<Seq<char>>) -> Seq<ParsedItem>
    decreases items.len(),
{
    if items.len() == 0 {
        Seq::empty()
    } else if is_fresh(items[0], types, terms) {
        seq![items[0]] + fresh_items(items.drop_first(), types, terms)
    } else {
        fresh_items(items.drop_first(), types, terms)
    }
}

/// The items of `items` that are not imports, in order.
pub open spec fn non_uses(items: Seq<ParsedItem>) -> Seq<ParsedItem>
    decreases items.len(),
{
    if items.len() == 0 {
        Seq::empty()
    } else if items[0].is_use() {
        non_uses(items.drop_first())
    } else {
        seq![items[0]] + non_uses(items.drop_first())
    }
}

/// The trimmed code of the imports among `items`, in order.
pub open spec fn use_lines(items: Seq<ParsedItem>) -> Seq<Seq<char>>
    decreases items.len(),
{
    if items.len() == 0 {
        Seq::empty()
    } else if items[0].is_use() {
        seq![trimmed(items[0].code@)] + use_lines(items.drop_first())
    } else {
        use_lines(items.drop_first())
    }
}

/// The lines of `lines` whose probe passed.
pub open spec fn probed(lines: Seq<Seq<char>>, passed: Seq<bool>) -> Set<Seq<char>> {
    probed_before(lines, passed, lines.len() as int)
}

/// The lines among the first `n` of `lines` whose probe passed.
pub open spec fn probed_before(lines: Seq<Seq<char>>, passed: Seq<bool>, n: int) -> Set<Seq<char>> {
    Set::new(|l: Seq<char>| exists|k: int| 0 <= k < n && k < passed.len() && passed[k] && lines[k] == l)
}

impl Translator {
    /// Drops the items whose name a committed item of the same kind (type or term) already
    /// defines, and checks that the declaration's own item, `new_name`, is still there.
    pub fn dedup_and_check(&self, items: Vec<ParsedItem>, new_name: &str) -> (r: Result<Vec<ParsedItem>, TranslateError>)
        requires
            self.wf(),
        ensures
            ({
                let f = fresh_items(items@, self.inner.translated_type_names.view_set(), self.inner.translated_term_names.view_set());
                &&& r is Ok <==> crate::repair::has_name(f, new_name@)
                &&& r matches Ok(v) ==> v@ == f
            }),
    {
        let ghost tys = self.inner.translated_type_names.view_set();
        let ghost tms = self.inner.translated_term_names.view_set();
        let ghost all = items@;
        let mut rest = items;
        let mut out: Vec<ParsedItem> = Vec::new();
        while rest.len() > 0
            invariant
                out@ + fresh_items(rest@, tys, tms) == fresh_items(all, tys, tms),
                tys == self.inner.translated_type_names.view_set(),
                tms == self.inner.translated_term_names.view_set(),
            decreases rest@.len(),
        {
            let ghost before = rest@;
            let it = rest.remove(0);
            proof {
                assert(rest@ =~= before.drop_first());
            }
            let is_type = match it.sort {
                ItemSort::Type(_) => true,
                _ => false,
            };
            let seen = if is_type {
                self.inner.translated_type_names.contains(it.name.as_str())
            } else {
                self.inner.translated_term_names.contains(it.name.as_str())
            };
            if !seen {
                let ghost o = out@;
                out.push(it);
                proof {
                    assert(out@ + fresh_items(rest@, tys, tms) =~= o + fresh_items(before, tys, tms));
                }
            }
        }
        proof {
            assert(out@ =~= fresh_items(all, tys, tms));
        }
        let mut k: usize = 0;
        while k < out.len()
            invariant
                k <= out@.len(),
                forall|j: int| 0 <= j < k ==> out@[j].name@ != new_name@,
                out@ == fresh_items(all, tys, tms),
                all == items@,
                tys == self.inner.translated_type_names.view_set(),
                tms == self.inner.translated_term_names.view_set(),
            decreases out@.len() - k,
        {
            if crate::strset::text_eq(out[k].name.as_str(), new_name) {
                proof {
                    assert(crate::repair::has_name(out@, new_name@));
                }
                return Ok(out);
            }
            k = k + 1;
        }
        Err(TranslateError::MissingItem)
    }

    /// Lifts the imports out of `items`: returns the other items, and the trimmed code of
    /// each import, in order. Each line still has to pass a compile of its own (see
    /// `accepted_uses`).
    pub fn take_uses(items: Vec<ParsedItem>) -> (r: (Vec<ParsedItem>, Vec<String>))
        ensures
            r.0@ == non_uses(items@),
            views(r.1@) == use_lines(items@),
    {
        let ghost all = items@;
        let mut rest = items;
        let mut out: Vec<ParsedItem> = Vec::new();
        let mut lines: Vec<String> = Vec::new();
        while rest.len() > 0
            invariant
                out@ + non_uses(rest@) == non_uses(all),
                views(lines@) + use_lines(rest@) == use_lines(all),
            decreases rest@.len(),
        {
            let ghost before = rest@;
            let it = rest.remove(0);
            proof {
                assert(rest@ =~= before.drop_first());
            }
            match it.sort {
                ItemSort::Use => {
                    let ghost l = views(lines@);
                    let t = trim(it.code.as_str());
                    lines.push(t);
                    proof {
                        assert(views(lines@) =~= l.push(trimmed(it.code@)));
                        assert(views(lines@) + use_lines(rest@) =~= l + use_lines(before));
                    }
                },
                _ => {
                    let ghost o = out@;
                    out.push(it);
                    proof {
                        assert(out@ + non_uses(rest@) =~= o + non_uses(before));
                    }
                },
            }
        }
        proof {
            assert(out@ =~= non_uses(all));
            assert(views(lines@) =~= use_lines(all));
        }
        (out, lines)
    }

    /// The import lines whose stand-alone compile passed (`passed[k]` for `lines[k]`).
    pub fn accepted_uses(lines: Vec<String>, passed: &Vec<bool>) -> (r: TextSet)
        ensures
            r.wf(),
            r.view_set() == probed(views(lines@), passed@),
    {
        let ghost lv = views(lines@);
        let mut r = TextSet::new();
        let mut k: usize = 0;
        while k < lines.len()
            invariant
                k <= lines@.len(),
                lv == views(lines@),
                r.wf(),
                r.view_set() == probed_before(lv, passed@, k as int),
            decreases lines@.len() - k,
        {
            let ghost cur = r.view_set();
            if k < passed.len() && passed[k] {
                r.insert(lines[k].clone());
            }
            proof {
                let p0 = probed_before(lv, passed@, k as int);
                let p1 = probed_before(lv, passed@, k + 1);
                assert forall|l: Seq<char>| r.view_set().contains(l) <==> p1.contains(l) by {
                    if p0.contains(l) {
                        let q = choose|q: int| 0 <= q < k && q < passed@.len() && passed@[q] && lv[q] == l;
                        assert(p1.contains(l));
                    }
                    if p1.contains(l) {
                        let q = choose|q: int| 0 <= q < k + 1 && q < passed@.len() && passed@[q] && lv[q] == l;
                        if q < k {
                            assert(p0.contains(l));
                        }
                    }
                    if k < passed@.len() && passed@[k as int] && l == lv[k as int] {
                        assert(p1.contains(l));
                    }
                }
                assert(r.view_set() =~= p1);
            }
            k = k + 1;
        }
        proof {
            assert(r.view_set() =~= probed(lv, passed@));
        }
        r
    }
}

/// The result that `log` holds for node `id`, the latest if several.
pub open spec fn log_find(log: Seq<(usize, TranslationResult)>, id: usize) -> Option<TranslationResult>
    decreases log.len(),
{
    if log.len() == 0 {
        None
    } else if log.last().0 == id {
        Some(log.last().1)
    } else {
        log_find(log.drop_last(), id)
    }
}

fn find<'a>(log: &'a Vec<(usize, TranslationResult)>, id: usize) -> (r: Option<&'a TranslationResult>)
    ensures
        r matches Some(x) ==> log_find(log@, id) == Some(*x),
        r is None ==> log_find(log@, id) is None,
{
    let mut k: usize = log.len();
    proof {
        assert(log@.subrange(0, k as int) =~= log@);
    }
    while k > 0
        invariant
            k <= log@.len(),
            log_find(log@, id) == log_find(log@.subrange(0, k as int), id),
        decreases k,
    {
        proof {
            assert(log@.subrange(0, k as int).drop_last() =~= log@.subrange(0, k - 1));
        }
        if log[k - 1].0 == id {
            return Some(&log[k - 1].1);
        }
        k = k - 1;
    }
    None
}

/// A copied result adds nothing to the emitted program: the log's texts stay as they were.
pub proof fn lemma_copied_adds_no_text(log: Seq<(usize, TranslationResult)>, id: usize, c: TranslationResult, mode: Rendering)
    requires
        c.copied,
    ensures
        log_texts(log.push((id, c)), mode) == log_texts(log, mode),
{
    assert(log.push((id, c)).drop_last() =~= log);
}

/// The substitutions for the references `refs` whose declarations have settled names.
pub open spec fn renames(refs: Seq<Ref>, names: Seq<String>) -> Seq<(Span, Seq<char>)>
    decreases refs.len(),
{
    if refs.len() == 0 {
        Seq::empty()
    } else if refs.last().id < names.len() {
        renames(refs.drop_last(), names).push((refs.last().span, names[refs.last().id as int]@))
    } else {
        renames(refs.drop_last(), names)
    }
}

/// The span and text of each substitution.
pub open spec fn rep_views(v: Seq<Replacement>) -> Seq<(Span, Seq<char>)> {
    v.map_values(|r: Replacement| (r.span, r.text@))
}

fn push_renames(out: &mut Vec<Replacement>, refs: &Vec<Ref>, names: &Vec<String>)
    ensures
        rep_views(final(out)@) == rep_views(old(out)@) + renames(refs@, names@),
{
    let ghost o = rep_views(out@);
    let mut k: usize = 0;
    while k < refs.len()
        invariant
            k <= refs@.len(),
            rep_views(out@) == o + renames(refs@.subrange(0, k as int), names@),
        decreases refs@.len() - k,
    {
        proof {
            assert(refs@.subrange(0, k + 1).drop_last() =~= refs@.subrange(0, k as int));
        }
        let r = refs[k];
        if r.id < names.len() {
            let ghost before = out@;
            out.push(Replacement { span: r.span, text: names[r.id].clone() });
            proof {
                assert(rep_views(out@) =~= rep_views(before).push((r.span, names@[r.id as int]@)));
            }
        }
        k = k + 1;
    }
    proof {
        assert(refs@.subrange(0, refs@.len() as int) =~= refs@);
    }
}

/// Marks the nodes among `n` that `refs` mention.
pub open spec fn mentioned(refs: Seq<Ref>, n: nat) -> Seq<bool> {
    Seq::new(n, |i: int| exists|k: int| 0 <= k < refs.len() && refs[k].id == i)
}

fn mark(refs: &Vec<Ref>, n: usize) -> (r: Vec<bool>)
    ensures
        r@ == mentioned(refs@, n as nat),
{
    let mut r: Vec<bool> = Vec::new();
    let mut i: usize = 0;
    while i < n
        invariant
            i <= n,
            r@.len() == i,
            forall|q: int| 0 <= q < i ==> !r@[q],
        decreases n - i,
    {
        r.push(false);
        i = i + 1;
    }
    let mut k: usize = 0;
    while k < refs.len()
        invariant
            k <= refs@.len(),
            r@.len() == n,
            forall|q: int| 0 <= q < n ==> r@[q] == exists|j: int| 0 <= j < k && refs@[j].id == q,
        decreases refs@.len() - k,
    {
        let d = refs[k].id;
        if d < n {
            r.set(d, true);
        }
        proof {
            assert forall|q: int| 0 <= q < n implies r@[q] == exists|j: int| 0 <= j < k + 1 && refs@[j].id == q by {
                if exists|j: int| 0 <= j < k + 1 && refs@[j].id == q {
                    let j = choose|j: int| 0 <= j < k + 1 && refs@[j].id == q;
                    if j < k {
                        assert(exists|j: int| 0 <= j < k && refs@[j].id == q);
                    }
                }
            }
        }
        k = k + 1;
    }
    proof {
        assert(r@ =~= mentioned(refs@, n as nat));
    }
    r
}

/// The names of the globals of `p`, by index.
pub open spec fn variable_names(p: Program) -> Seq<Seq<char>> {
    p.variables@.map_values(|v: VariableDecl| v.name@)
}

/// The names of the functions of `p`, by index.
pub open spec fn function_names(p: Program) -> Seq<Seq<char>> {
    p.functions@.map_values(|f: FunctionDecl| f.name@)
}

fn variable_name_list(v: &Vec<VariableDecl>) -> (r: Vec<String>)
    ensures
        views(r@) == v@.map_values(|d: VariableDecl| d.name@),
{
    let mut r: Vec<String> = Vec::new();
    let mut k: usize = 0;
    while k < v.len()
        invariant
            k <= v@.len(),
            views(r@) == v@.subrange(0, k as int).map_values(|d: VariableDecl| d.name@),
        decreases v@.len() - k,
    {
        let ghost before = views(r@);
        r.push(v[k].name.clone());
        proof {
            assert(views(r@) =~= before.push(v@[k as int].name@));
            assert(v@.subrange(0, k + 1).map_values(|d: VariableDecl| d.name@) =~= v@.subrange(0, k as int).map_values(|d: VariableDecl| d.name@).push(v@[k as int].name@));
        }
        k = k + 1;
    }
    proof {
        assert(v@.subrange(0, v@.len() as int) =~= v@);
    }
    r
}

fn function_name_list(v: &Vec<FunctionDecl>) -> (r: Vec<String>)
    ensures
        views(r@) == v@.map_values(|d: FunctionDecl| d.name@),
{
    let mut r: Vec<String> = Vec::new();
    let mut k: usize = 0;
    while k < v.len()
        invariant
            k <= v@.len(),
            views(r@) == v@.subrange(0, k as int).map_values(|d: FunctionDecl| d.name@),
        decreases v@.len() - k,
    {
        let ghost before = views(r@);
        r.push(v[k].name.clone());
        proof {
            assert(views(r@) =~= before.push(v@[k as int].name@));
            assert(v@.subrange(0, k + 1).map_values(|d: FunctionDecl| d.name@) =~= v@.subrange(0, k as int).map_values(|d: FunctionDecl| d.name@).push(v@[k as int].name@));
        }
        k = k + 1;
    }
    proof {
        assert(v@.subrange(0, v@.len() as int) =~= v@);
    }
    r
}

/// The names, among `dn`, of the declarations at the indices `ids`.
pub open spec fn names_at(ids: Seq<usize>, dn: Seq<Seq<char>>) -> Set<Seq<char>> {
    Set::new(|n: Seq<char>| exists|k: int| 0 <= k < ids.len() && ids[k] < dn.len() && dn[ids[k] as int] == n)
}

fn name_set(ids: &Vec<usize>, dn: &Vec<String>) -> (r: TextSet)
    ensures
        r.wf(),
        r.view_set() == names_at(ids@, views(dn@)),
{
    let ghost d = views(dn@);
    let mut r = TextSet::new();
    let mut k: usize = 0;
    while k < ids.len()
        invariant
            k <= ids@.len(),
            d == views(dn@),
            r.wf(),
            r.view_set() == names_at(ids@.subrange(0, k as int), d),
        decreases ids@.len() - k,
    {
        let ghost cur = r.view_set();
        let i = ids[k];
        if i < dn.len() {
            r.insert(dn[i].clone());
        }
        proof {
            let p0 = ids@.subrange(0, k as int);
            let p1 = ids@.subrange(0, k + 1);
            assert forall|n: Seq<char>| r.view_set().contains(n) <==> names_at(p1, d).contains(n) by {
                if names_at(p0, d).contains(n) {
                    let q = choose|q: int| 0 <= q < p0.len() && p0[q] < d.len() && d[p0[q] as int] == n;
                    assert(p1[q] == p0[q]);
                }
                if names_at(p1, d).contains(n) {
                    let q = choose|q: int| 0 <= q < p1.len() && p1[q] < d.len() && d[p1[q] as int] == n;
                    if q < k {
                        assert(p0[q] == p1[q]);
                        assert(names_at(p0, d).contains(n));
                    }
                }
                if i < dn@.len() && n == d[i as int] {
                    assert(p1[k as int] == i);
                }
            }
            assert(r.view_set() =~= names_at(p1, d));
        }
        k = k + 1;
    }
    proof {
        assert(ids@.subrange(0, ids@.len() as int) =~= ids@);
    }
    r
}

/// The latest result of `log` whose declaration (named by `dn`) is called `n`.
pub open spec fn log_find_named(log: Seq<(usize, TranslationResult)>, dn: Seq<Seq<char>>, n: Seq<char>) -> Option<TranslationResult>
    decreases log.len(),
{
    if log.len() == 0 {
        None
    } else if log.last().0 < dn.len() && dn[log.last().0 as int] == n {
        Some(log.last().1)
    } else {
        log_find_named(log.drop_last(), dn, n)
    }
}

fn find_named<'a>(log: &'a Vec<(usize, TranslationResult)>, dn: &Vec<String>, n: &str) -> (r: Option<&'a TranslationResult>)
    ensures
        r matches Some(x) ==> log_find_named(log@, views(dn@), n@) == Some(*x),
        r is None ==> log_find_named(log@, views(dn@), n@) is None,
{
    let mut k: usize = log.len();
    proof {
        assert(log@.subrange(0, k as int) =~= log@);
    }
    while k > 0
        invariant
            k <= log@.len(),
            log_find_named(log@, views(dn@), n@) == log_find_named(log@.subrange(0, k as int), views(dn@), n@),
        decreases k,
    {
        proof {
            assert(log@.subrange(0, k as int).drop_last() =~= log@.subrange(0, k - 1));
        }
        let i = log[k - 1].0;
        if i < dn.len() && crate::strset::text_eq(dn[i].as_str(), n) {
            return Some(&log[k - 1].1);
        }
        k = k - 1;
    }
    None
}

/// For each name of `names` in turn, the simple text of its result where there is one.
pub open spec fn named_texts(log: Seq<(usize, TranslationResult)>, dn: Seq<Seq<char>>, names: Seq<Seq<char>>) -> Seq<Seq<char>>
    decreases names.len(),
{
    if names.len() == 0 {
        Seq::empty()
    } else {
        match log_find_named(log, dn, names.last()) {
            Some(r) => named_texts(log, dn, names.drop_last()).push(r.text(Rendering::Simple)),
            None => named_texts(log, dn, names.drop_last()),
        }
    }
}

fn push_named(out: &mut Vec<String>, log: &Vec<(usize, TranslationResult)>, dn: &Vec<String>, names: &TextSet)
    ensures
        views(final(out)@) == views(old(out)@) + named_texts(log@, views(dn@), names.view_seq()),
{
    let ghost o = views(out@);
    let mut k: usize = 0;
    while k < names.items.len()
        invariant
            k <= names.items@.len(),
            views(out@) == o + named_texts(log@, views(dn@), names.view_seq().subrange(0, k as int)),
        decreases names.items@.len() - k,
    {
        proof {
            assert(names.view_seq().subrange(0, k + 1).drop_last() =~= names.view_seq().subrange(0, k as int));
        }
        match find_named(log, dn, names.items[k].as_str()) {
            Some(res) => {
                let ghost before = views(out@);
                out.push(res.simple_code());
                proof {
                    assert(views(out@) =~= before.push(res.text(Rendering::Simple)));
                }
            },
            None => {},
        }
        k = k + 1;
    }
    proof {
        assert(names.view_seq().subrange(0, names.view_seq().len() as int) =~= names.view_seq());
    }
}

/// The simple texts of the types that `marks` selects and that have been translated.
pub open spec fn type_texts(log: Seq<(usize, TranslationResult)>, marks: Seq<bool>) -> Set<Seq<char>> {
    Set::new(|t: Seq<char>| exists|i: int| 0 <= i < marks.len() && marks[i] && log_find(log, i as usize) is Some
        && log_find(log, i as usize)->Some_0.text(Rendering::Simple) == t)
}

impl Translator {
    /// When type `id` is a typedef that only names a translated struct, a copy of that
    /// struct's result marked `copied`; otherwise `None`.
    pub fn copy_alias(&self, id: usize) -> (r: Option<TranslationResult>)
        ensures
            r is Some <==> (id < self.program.types@.len() && self.program.types@[id as int].struct_alias
                && self.program.types@[id as int].deps@.len() > 0
                && log_find(self.inner.translated_types@, self.program.types@[id as int].deps@[0].id) is Some),
            r matches Some(c) ==> ({
                let a = log_find(self.inner.translated_types@, self.program.types@[id as int].deps@[0].id)->Some_0;
                &&& c.copied
                &&& forall|m: Rendering| #[trigger] c.text(m) == a.text(m)
                &&& c.errors == a.errors
                &&& c.uses.view_seq() == a.uses.view_seq()
                &&& c.signature_only == a.signature_only
                &&& c.items@.len() == a.items@.len()
                &&& forall|k: int| 0 <= k < a.items@.len() ==> crate::item::same_item(a.items@[k], #[trigger] c.items@[k])
            }),
    {
        if id >= self.program.types.len() {
            return None;
        }
        let t = &self.program.types[id];
        if !t.struct_alias || t.deps.len() == 0 {
            return None;
        }
        match find(&self.inner.translated_types, t.deps[0].id) {
            Some(res) => Some(res.duplicate(true)),
            None => None,
        }
    }

    /// The substitutions that rename the types, globals and callees mentioned at the given
    /// references, for those whose names are settled.
    pub fn make_replace_vec(&self, types: &Vec<Ref>, vars: &Vec<Ref>, callees: &Vec<Ref>) -> (r: Vec<Replacement>)
        ensures
            rep_views(r@) == renames(types@, self.new_type_names@) + renames(vars@, self.new_variable_names@)
                + renames(callees@, self.new_function_names@),
    {
        let mut r: Vec<Replacement> = Vec::new();
        proof {
            assert(rep_views(r@) =~= Seq::<(Span, Seq<char>)>::empty());
        }
        push_renames(&mut r, types, &self.new_type_names);
        push_renames(&mut r, vars, &self.new_variable_names);
        push_renames(&mut r, callees, &self.new_function_names);
        proof {
            assert(rep_views(r@) =~= renames(types@, self.new_type_names@) + renames(vars@, self.new_variable_names@)
                + renames(callees@, self.new_function_names@));
        }
        r
    }

    /// The context given to the model: the simple texts of the translated types among
    /// `types` (with everything they reach when `transitive`), as an ordered set; then those
    /// of the translated globals among `vars` and functions among `callees`, in index order.
    pub fn make_translation_prefix(&self, types: &Vec<Ref>, vars: &Vec<Ref>, callees: &Vec<Ref>, transitive: bool) -> (r: Vec<String>)
        requires
            self.wf(),
        ensures
            ({
                let roots = mentioned(types@, self.types.len());
                let marks = if transitive { crate::schedule::reach(self.types.deps@, roots, self.types.len()) } else { roots };
                exists|ts: Seq<Seq<char>>, vs: Seq<Seq<char>>, fs: Seq<Seq<char>>|
                    crate::strset::sorted(ts) && ts.to_set() == type_texts(self.inner.translated_types@, marks)
                    && crate::strset::sorted(vs) && vs.to_set() == names_at(ids(vars@), variable_names(self.program))
                    && crate::strset::sorted(fs) && fs.to_set() == names_at(ids(callees@), function_names(self.program))
                    && views(r@) == ts + named_texts(self.inner.translated_variables@, variable_names(self.program), vs)
                    + named_texts(self.inner.translated_functions@, function_names(self.program), fs)
            }),
    {
        let roots = mark(types, self.types.deps.len());
        let marks = if transitive { crate::schedule::closure(&self.types.deps, roots) } else { roots };
        let mut set = TextSet::new();
        let mut i: usize = 0;
        while i < marks.len()
            invariant
                i <= marks@.len(),
                set.wf(),
                set.view_set() == Set::new(|t: Seq<char>| exists|q: int| 0 <= q < i && marks@[q]
                    && log_find(self.inner.translated_types@, q as usize) is Some
                    && log_find(self.inner.translated_types@, q as usize)->Some_0.text(Rendering::Simple) == t),
            decreases marks@.len() - i,
        {
            let ghost cur = set.view_set();
            if marks[i] {
                match find(&self.inner.translated_types, i) {
                    Some(res) => {
                        set.insert(res.simple_code());
                    },
                    None => {},
                }
            }
            proof {
                assert forall|t: Seq<char>| set.view_set().contains(t) <==> (exists|q: int| 0 <= q < i + 1 && marks@[q]
                    && log_find(self.inner.translated_types@, q as usize) is Some
                    && log_find(self.inner.translated_types@, q as usize)->Some_0.text(Rendering::Simple) == t) by {
                    if exists|q: int| 0 <= q < i + 1 && marks@[q]
                        && log_find(self.inner.translated_types@, q as usize) is Some
                        && log_find(self.inner.translated_types@, q as usize)->Some_0.text(Rendering::Simple) == t {
                        let q = choose|q: int| 0 <= q < i + 1 && marks@[q]
                            && log_find(self.inner.translated_types@, q as usize) is Some
                            && log_find(self.inner.translated_types@, q as usize)->Some_0.text(Rendering::Simple) == t;
                        if q < i {
                            assert(cur.contains(t));
                        }
                    }
                    if set.view_set().contains(t) && !cur.contains(t) {
                        assert(marks@[i as int] && log_find(self.inner.translated_types@, i) is Some
                            && log_find(self.inner.translated_types@, i)->Some_0.text(Rendering::Simple) == t);
                    }
                }
                assert(set.view_set() =~= Set::new(|t: Seq<char>| exists|q: int| 0 <= q < i + 1 && marks@[q]
                    && log_find(self.inner.translated_types@, q as usize) is Some
                    && log_find(self.inner.translated_types@, q as usize)->Some_0.text(Rendering::Simple) == t));
            }
            i = i + 1;
        }
        let ghost ts = set.view_seq();
        proof {
            assert(set.view_set() =~= type_texts(self.inner.translated_types@, marks@));
        }
        let mut out: Vec<String> = set.items;
        let vn = variable_name_list(&self.program.variables);
        let fnn = function_name_list(&self.program.functions);
        let vs = name_set(&ref_ids(vars), &vn);
        let fs = name_set(&ref_ids(callees), &fnn);
        push_named(&mut out, &self.inner.translated_variables, &vn, &vs);
        push_named(&mut out, &self.inner.translated_functions, &fnn, &fs);
        proof {
            assert(views(vn@) == variable_names(self.program));
            assert(views(fnn@) == function_names(self.program));
            assert(views(out@) =~= ts + named_texts(self.inner.translated_variables@, variable_names(self.program), vs.view_seq())
                + named_texts(self.inner.translated_functions@, function_names(self.program), fs.view_seq()));
        }
        out
    }
}

impl Translator {
    /// The context for translating function `id`: the prefix of its types, globals and
    /// callees (types transitively) when dependency signatures are provided, else nothing.
    pub fn function_context(&self, id: usize) -> (r: Vec<String>)
        requires
            self.wf(),
            id < self.program.functions@.len(),
        ensures
            !self.config.provide_signatures ==> r@.len() == 0,
            self.config.provide_signatures ==> ({
                let f = self.program.functions@[id as int];
                let roots = mentioned(f.type_deps@, self.types.len());
                let marks = crate::schedule::reach(self.types.deps@, roots, self.types.len());
                exists|ts: Seq<Seq<char>>, vs: Seq<Seq<char>>, fs: Seq<Seq<char>>|
                    crate::strset::sorted(ts) && ts.to_set() == type_texts(self.inner.translated_types@, marks)
                    && crate::strset::sorted(vs) && vs.to_set() == names_at(ids(f.deps@), variable_names(self.program))
                    && crate::strset::sorted(fs) && fs.to_set() == names_at(ids(f.callees@), function_names(self.program))
                    && views(r@) == ts + named_texts(self.inner.translated_variables@, variable_names(self.program), vs)
                    + named_texts(self.inner.translated_functions@, function_names(self.program), fs)
            }),
    {
        if !self.config.provide_signatures {
            return Vec::new();
        }
        let f = &self.program.functions[id];
        self.make_translation_prefix(&f.type_deps, &f.deps, &f.callees, true)
    }
}

/// Two results committed in the same kind belong to different declarations; where the
/// program declares each name once per kind, they carry different names.
pub proof fn lemma_committed_names_distinct(t: Translator, kind: Kind, a: int, b: int)
    requires
        t.wf(),
        0 <= a < b < t.log(kind).len(),
        kind == Kind::Type ==> forall|i: int, j: int| 0 <= i < j < t.program.types@.len() ==>
            !(#[trigger] t.program.types@[i].name@ == #[trigger] t.program.types@[j].name@
            && t.program.types@[i].sort == t.program.types@[j].sort),
        kind == Kind::Variable ==> forall|i: int, j: int| 0 <= i < j < t.program.variables@.len() ==>
            #[trigger] t.program.variables@[i].name@ != #[trigger] t.program.variables@[j].name@,
        kind == Kind::Function ==> forall|i: int, j: int| 0 <= i < j < t.program.functions@.len() ==>
            #[trigger] t.program.functions@[i].name@ != #[trigger] t.program.functions@[j].name@,
    ensures
        t.log(kind)[a].0 != t.log(kind)[b].0,
        kind == Kind::Type ==> {
            let x = t.program.types@[t.log(kind)[a].0 as int];
            let y = t.program.types@[t.log(kind)[b].0 as int];
            !(x.name@ == y.name@ && x.sort == y.sort)
        },
        kind == Kind::Variable ==> t.program.variables@[t.log(kind)[a].0 as int].name@
            != t.program.variables@[t.log(kind)[b].0 as int].name@,
        kind == Kind::Function ==> t.program.functions@[t.log(kind)[a].0 as int].name@
            != t.program.functions@[t.log(kind)[b].0 as int].name@,
{
    let x = t.log(kind)[a].0 as int;
    let y = t.log(kind)[b].0 as int;
    assert(x != y);
    if kind == Kind::Type {
        if x < y {
            assert(!(t.program.types@[x].name@ == t.program.types@[y].name@ && t.program.types@[x].sort == t.program.types@[y].sort));
        } else {
            assert(!(t.program.types@[y].name@ == t.program.types@[x].name@ && t.program.types@[y].sort == t.program.types@[x].sort));
        }
    } else if kind == Kind::Variable {
        if x < y {
            assert(t.program.variables@[x].name@ != t.program.variables@[y].name@);
        } else {
            assert(t.program.variables@[y].name@ != t.program.variables@[x].name@);
        }
    } else {
        if x < y {
            assert(t.program.functions@[x].name@ != t.program.functions@[y].name@);
        } else {
            assert(t.program.functions@[y].name@ != t.program.functions@[x].name@);
        }
    }
}

/// With no imports and nothing committed, the emitted program is the empty entry point.
pub proof fn lemma_nothing_translated_emits_entry_point(inner: TranslatorInner, mode: Rendering)
    requires
        inner.uses.view_seq().len() == 0,
        inner.translated_types@.len() == 0,
        inner.translated_variables@.len() == 0,
        inner.translated_functions@.len() == 0,
    ensures
        inner.program_text(mode) == entry_stub(),
{
    assert(inner.uses.view_seq() + log_texts(inner.translated_types@, mode) + log_texts(inner.translated_variables@, mode)
        + log_texts(inner.translated_functions@, mode) + seq![entry_stub()] =~= seq![entry_stub()]);
}

/// Once a kind is finished, its log holds every node exactly once.
pub proof fn lemma_finished_log_is_exact(t: Translator, kind: Kind, i: int)
    requires
        t.wf(),
        t.sched(kind).all_committed(),
        0 <= i < t.sched(kind).len(),
    ensures
        exists|k: int| 0 <= k < t.log(kind).len() && t.log(kind)[k].0 == i,
        forall|k1: int, k2: int| 0 <= k1 < k2 < t.log(kind).len() ==> t.log(kind)[k1].0 != t.log(kind)[k2].0,
{
    assert(log_matches(t.log(kind), t.sched(kind)));
    assert(t.sched(kind).committed@[i]);
}

} // verus!
