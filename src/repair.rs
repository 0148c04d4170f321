use vstd::prelude::*;

use crate::item::ParsedItem;
use crate::result::{Rendering, TranslationResult, item_texts};
use crate::strset::{TextSet, contains_str, text_eq};
use crate::text::{joined, line_count, count_lines, join_lines, views, starts_with, strip_prefix};

verus! {

/// `rustfix::Error`: why suggestions could not be applied, carried as is.
#[verifier::external_type_specification]
#[verifier::external_body]
pub struct ExFixError(rustfix::Error);

/// One replacement of a suggestion: the byte range `start..end` of the program becomes `text`.
#[derive(Debug, Clone)]
pub struct Edit {
    pub start: usize,
    pub end: usize,
    pub text: String,
}

/// A machine-applicable suggestion of the compiler: its solutions, each a list of edits.
#[derive(Debug, Clone)]
pub struct Suggestion {
    pub solutions: Vec<Vec<Edit>>,
}

/// The ranges and texts of the edits of each solution of each suggestion.
pub open spec fn fixes_view(v: Seq<Suggestion>) -> Seq<Seq<Seq<(usize, usize, Seq<char>)>>> {
    v.map_values(|f: Suggestion| f.solutions@.map_values(
        |sol: Vec<Edit>| sol@.map_values(|e: Edit| (e.start, e.end, e.text@)),
    ))
}

/// The program that `rustfix::apply_suggestions` makes of `code` with the given edits;
/// `None` where it reports an error. It depends on its arguments alone.
pub uninterp spec fn fixed_text(code: Seq<char>, fixes: Seq<Seq<Seq<(usize, usize, Seq<char>)>>>) -> Option<Seq<char>>;

/// Relies on `rustfix::apply_suggestions`: applies every edit of `fixes` to `code`. It reads
/// only each edit's range and text, so the fields it never reads (messages, file name, line
/// positions, snippets) are left empty.
#[verifier::external_body]
fn apply_suggestions(code: &str, fixes: &Vec<Suggestion>) -> (r: Result<String, rustfix::Error>)
    ensures
        r is Ok <==> fixed_text(code@, fixes_view(fixes@)) is Some,
        r matches Ok(t) ==> fixed_text(code@, fixes_view(fixes@)) == Some(t@),
{
    let p = rustfix::LinePosition { line: 0, column: 0 };
    let s: Vec<rustfix::Suggestion> = fixes.iter().map(|f| rustfix::Suggestion {
        message: String::new(), snippets: Vec::new(),
        solutions: f.solutions.iter().map(|sol| rustfix::Solution {
            message: String::new(),
            replacements: sol.iter().map(|e| rustfix::Replacement {
                snippet: rustfix::Snippet { file_name: String::new(), line_range: rustfix::LineRange { start: p, end: p }, range: e.start..e.end },
                replacement: e.text.clone(),
            }).collect(),
        }).collect(),
    }).collect();
    rustfix::apply_suggestions(code, &s)
}

/// One compiler diagnostic: the line it points at and its message.
#[derive(Debug, Clone)]
pub struct Diagnostic {
    pub line: usize,
    pub message: String,
}

/// What one compile of a program reports: its errors, the imports it proposes, its
/// machine-applicable suggestions, and whether it passed.
#[derive(Debug, Clone)]
pub struct TypeCheckingResult {
    pub errors: Vec<Diagnostic>,
    pub uses: Vec<String>,
    pub suggestions: Vec<Suggestion>,
    pub passed: bool,
}

/// Why repair cannot go on.
#[derive(Debug, Clone)]
pub enum RepairError {
    /// A diagnostic points into the prefix, which is known to compile.
    DiagnosticInPrefix { line: usize, message: String },
    /// The program that came back no longer starts with the imports and the prefix.
    PrefixChanged,
    /// The compiler's suggestions could not be applied.
    SuggestionFailed,
}

/// What the driver of the repair loop does next.
#[derive(Debug, Clone, Copy, PartialEq, Eq, Structural)]
pub enum CompilerStep {
    /// Compile `code()` again and hand the result to `record`.
    Check,
    /// Suggestions and imports have reached their fixed point.
    Done,
}

/// The state of the repair of one candidate: its imports, the prefix it is compiled
/// against, the code under repair, the names that code must define, and the last compile.
#[derive(Debug, Clone)]
pub struct FixContext {
    pub uses: TextSet,
    pub prefix: String,
    pub code: String,
    pub names: TextSet,
    pub result: Option<TypeCheckingResult>,
}

/// The position of the last `::` that starts before position `k`, or -1.
pub open spec fn last_sep(s: Seq<char>, k: nat) -> int
    decreases k,
{
    if k == 0 {
        -1
    } else if k < s.len() && s[k - 1] == ':' && s[k as int] == ':' {
        k - 1
    } else {
        last_sep(s, (k - 1) as nat)
    }
}

/// The name an import line brings in: what follows its last `::`, without the closing `;`.
pub open spec fn import_tail(s: Seq<char>) -> Option<Seq<char>> {
    let i = last_sep(s, s.len());
    if i < 0 {
        None
    } else {
        let t = s.subrange(i + 2, s.len() as int);
        if t.len() > 0 && t.last() == ';' {
            Some(t.drop_last())
        } else {
            None
        }
    }
}

/// The names that the import lines of `uses` bring in.
pub open spec fn import_names(uses: Set<Seq<char>>) -> Set<Seq<char>> {
    Set::new(|n: Seq<char>| exists|u: Seq<char>| uses.contains(u) && import_tail(u) == Some(n))
}

/// Whether an import line is a glob: it ends in `*`, or in `*;`.
pub open spec fn is_glob(u: Seq<char>) -> bool {
    (u.len() > 0 && u.last() == '*') || (u.len() > 1 && u[u.len() - 2] == '*' && u.last() == ';')
}

/// Whether a proposed import is taken: it is no glob, no brace group, and no import
/// among `names` already brings in its name.
pub open spec fn admissible(u: Seq<char>, names: Set<Seq<char>>) -> bool {
    &&& !is_glob(u)
    &&& !u.contains('{')
    &&& import_tail(u) matches Some(n) && !names.contains(n)
}

/// The imports of `hints` that are taken beside the imports `uses`.
pub open spec fn taken_imports(hints: Seq<Seq<char>>, uses: Set<Seq<char>>) -> Set<Seq<char>> {
    Set::new(|u: Seq<char>| hints.contains(u) && admissible(u, import_names(uses)))
}

/// Computes `import_tail`.
pub fn import_name(s: &str) -> (r: Option<String>)
    ensures
        r matches Some(t) ==> import_tail(s@) == Some(t@),
        r is None ==> import_tail(s@) is None,
{
    let n = s.unicode_len();
    let mut k: usize = n;
    while k > 0 && !(k < n && s.get_char(k - 1) == ':' && s.get_char(k) == ':')
        invariant
            n == s@.len(),
            k <= n,
            last_sep(s@, n as nat) == last_sep(s@, k as nat),
        decreases k,
    {
        k = k - 1;
    }
    if k == 0 {
        return None;
    }
    let i = k - 1;
    if i + 2 < n && s.get_char(n - 1) == ';' {
        let t = s.substring_char(i + 2, n - 1);
        proof {
            assert(t@ =~= s@.subrange(i + 2, n as int).drop_last());
        }
        Some(String::from_str(t))
    } else {
        None
    }
}

fn is_glob_or_group(s: &str) -> (r: bool)
    ensures
        r == (is_glob(s@) || s@.contains('{')),
{
    let n = s.unicode_len();
    if n > 0 && s.get_char(n - 1) == '*' {
        return true;
    }
    if n > 1 && s.get_char(n - 2) == '*' && s.get_char(n - 1) == ';' {
        return true;
    }
    let mut i: usize = 0;
    while i < n
        invariant
            n == s@.len(),
            i <= n,
            forall|j: int| 0 <= j < i ==> s@[j] != '{',
        decreases n - i,
    {
        if s.get_char(i) == '{' {
            return true;
        }
        i = i + 1;
    }
    false
}

impl FixContext {
    /// Whether `c` repairs the same thing as `self`: the same prefix and protected names,
    /// and at least the same imports.
    pub open spec fn keeps(&self, c: FixContext) -> bool {
        &&& c.prefix@ == self.prefix@
        &&& c.names.view_set() == self.names.view_set()
        &&& self.uses.view_set().subset_of(c.uses.view_set())
        &&& c.wf()
    }

    /// A context for another candidate `code` of the same item: same imports, prefix and
    /// protected names, not compiled yet.
    pub fn fork(&self, code: String) -> (r: FixContext)
        requires
            self.wf(),
        ensures
            self.keeps(r),
            r.uses.view_seq() == self.uses.view_seq(),
            r.code == code,
            r.result is None,
    {
        FixContext {
            uses: self.uses.copy(),
            prefix: self.prefix.clone(),
            code,
            names: self.names.copy(),
            result: None,
        }
    }

    /// The import lines, one per line.
    pub open spec fn uses_text(&self) -> Seq<char> {
        joined(self.uses.view_seq())
    }

    /// The imports followed by the prefix.
    pub open spec fn head(&self) -> Seq<char> {
        self.uses_text() + self.prefix@
    }

    /// The whole program that is compiled: the head, a newline, and the code under repair.
    pub open spec fn whole(&self) -> Seq<char> {
        self.head() + seq!['\n'] + self.code@
    }

    pub open spec fn wf(&self) -> bool {
        self.uses.wf() && self.names.wf()
    }

    /// A context for `code`, not compiled yet: the driver compiles `code()` and hands the
    /// outcome to `record`.
    pub fn new(uses: TextSet, prefix: String, code: String, names: TextSet) -> (r: FixContext)
        ensures
            r.uses == uses,
            r.prefix == prefix,
            r.code == code,
            r.names == names,
            r.result is None,
    {
        FixContext { uses, prefix, code, names, result: None }
    }

    /// The import lines joined by newlines.
    pub fn uses_str(&self) -> (r: String)
        ensures
            r@ == self.uses_text(),
    {
        join_lines(&self.uses.items)
    }

    /// The imports followed by the prefix.
    pub fn uses_and_prefix(&self) -> (r: String)
        ensures
            r@ == self.head(),
    {
        let u = self.uses_str();
        u.concat(self.prefix.as_str())
    }

    /// The whole program to compile.
    pub fn code(&self) -> (r: String)
        ensures
            r@ == self.whole(),
    {
        let h = self.uses_and_prefix();
        proof {
            reveal_strlit("\n");
        }
        let h = h.concat("\n");
        h.concat(self.code.as_str())
    }

    /// The number of lines that the imports and the prefix take.
    pub fn prefix_lines(&self) -> (r: usize)
        requires
            self.head().len() < usize::MAX,
        ensures
            r == line_count(self.head()),
    {
        let h = self.uses_and_prefix();
        count_lines(h.as_str())
    }

    /// Stores a compile result of `code()`. A diagnostic inside the imports and the prefix
    /// breaks the invariant that the prefix is clean: it is reported and nothing is stored.
    pub fn record(&mut self, res: Option<TypeCheckingResult>) -> (r: Result<(), RepairError>)
        requires
            old(self).head().len() < usize::MAX,
        ensures
            r is Ok <==> (res matches Some(c) ==> forall|k: int| 0 <= k < c.errors@.len()
                ==> c.errors@[k].line > line_count(old(self).head())),
            r is Ok ==> *final(self) == (FixContext { result: res, ..*old(self) }),
            r is Err ==> *final(self) == *old(self),
    {
        if let Some(c) = &res {
            let lines = self.prefix_lines();
            let mut k: usize = 0;
            while k < c.errors.len()
                invariant
                    lines == line_count(self.head()),
                    *self == *old(self),
                    res is Some,
                    res->Some_0 == *c,
                    k <= c.errors@.len(),
                    forall|j: int| 0 <= j < k ==> c.errors@[j].line > lines,
                decreases c.errors@.len() - k,
            {
                if c.errors[k].line <= lines {
                    proof {
                        assert(!(res->Some_0.errors@[k as int].line > line_count(old(self).head())));
                    }
                    return Err(
                        RepairError::DiagnosticInPrefix {
                            line: c.errors[k].line,
                            message: c.errors[k].message.clone(),
                        },
                    );
                }
                k = k + 1;
            }
        }
        self.result = res;
        Ok(())
    }

    /// Replaces the code under repair; the context then needs a compile.
    pub fn update(&mut self, code: String)
        ensures
            *final(self) == (FixContext { code, result: None, ..*old(self) }),
    {
        self.code = code;
        self.result = None;
    }

    /// Takes a whole program whose head is unchanged and keeps what follows the head and
    /// its newline as the code under repair.
    pub fn update_whole(&mut self, whole: &str) -> (r: Result<(), RepairError>)
        ensures
            r is Ok <==> starts_with(whole@, old(self).head() + seq!['\n']),
            r is Ok ==> *final(self) == (FixContext {
                code: final(self).code,
                result: None,
                ..*old(self)
            }),
            r is Ok ==> final(self).code@ == whole@.subrange(old(self).head().len() as int + 1, whole@.len() as int),
            r is Err ==> *final(self) == *old(self),
    {
        let h = self.uses_and_prefix();
        proof {
            reveal_strlit("\n");
        }
        let h = h.concat("\n");
        proof {
            assert(h@ == old(self).head() + seq!['\n']);
        }
        match strip_prefix(whole, h.as_str()) {
            Some(rest) => {
                self.update(rest);
                Ok(())
            },
            None => Err(RepairError::PrefixChanged),
        }
    }

    /// Merges the imports that the last compile proposed (see `admissible`) and empties that
    /// list. Returns whether the import set grew; if it did, the context needs a compile.
    pub fn add_uses(&mut self) -> (r: bool)
        requires
            old(self).wf(),
            old(self).result is Some,
        ensures
            final(self).wf(),
            final(self).uses.view_set() == old(self).uses.view_set().union(
                taken_imports(views(old(self).result->Some_0.uses@), old(self).uses.view_set()),
            ),
            r == (final(self).uses.view_set() != old(self).uses.view_set()),
            final(self).prefix == old(self).prefix,
            final(self).code == old(self).code,
            final(self).names == old(self).names,
            r ==> final(self).result is None,
            !r ==> final(self).uses.view_seq() == old(self).uses.view_seq(),
            !r ==> (final(self).result matches Some(c) && c.uses@.len() == 0
                && c.errors == old(self).result->Some_0.errors
                && c.suggestions == old(self).result->Some_0.suggestions
                && c.passed == old(self).result->Some_0.passed),
    {
        let ghost old_set = self.uses.view_set();
        let ghost old_seq = self.uses.view_seq();
        let mut res = self.result.take().unwrap();
        proof {
            assert(res == old(self).result->Some_0);
        }
        let mut hints: Vec<String> = Vec::new();
        std::mem::swap(&mut hints, &mut res.uses);
        let ghost hv = views(hints@);
        let mut names: Vec<String> = Vec::new();
        let mut i: usize = 0;
        while i < self.uses.items.len()
            invariant
                self.uses.view_set() == old_set,
                self.uses == old(self).uses,
                self.prefix == old(self).prefix,
                self.code == old(self).code,
                self.names == old(self).names,
                i <= self.uses.items@.len(),
                forall|n: Seq<char>| views(names@).contains(n) <==> exists|j: int| 0 <= j < i
                    && import_tail(self.uses.view_seq()[j]) == Some(n),
            decreases self.uses.items@.len() - i,
        {
            let ghost before = names@;
            match import_name(self.uses.items[i].as_str()) {
                Some(t) => {
                    names.push(t);
                    proof {
                        assert(views(names@) =~= views(before).push(names@.last()@));
                    }
                },
                None => {},
            }
            proof {
                assert forall|n: Seq<char>| views(names@).contains(n) <==> exists|j: int| 0 <= j < i + 1
                    && import_tail(self.uses.view_seq()[j]) == Some(n) by {
                    if views(names@).contains(n) && !views(before).contains(n) {
                        assert(import_tail(self.uses.view_seq()[i as int]) == Some(n));
                    }
                    if exists|j: int| 0 <= j < i + 1 && import_tail(self.uses.view_seq()[j]) == Some(n) {
                        let j = choose|j: int| 0 <= j < i + 1 && import_tail(self.uses.view_seq()[j]) == Some(n);
                        if j == i {
                            assert(views(names@)[views(names@).len() - 1] == n);
                        } else {
                            assert(views(before).contains(n));
                            let q = choose|q: int| 0 <= q < views(before).len() && views(before)[q] == n;
                            assert(views(names@)[q] == n);
                        }
                    }
                }
            }
            i = i + 1;
        }
        proof {
            assert forall|n: Seq<char>| views(names@).contains(n) <==> import_names(old_set).contains(n) by {
                if views(names@).contains(n) {
                    let j = choose|j: int| 0 <= j < i && import_tail(self.uses.view_seq()[j]) == Some(n);
                    assert(old_set.contains(self.uses.view_seq()[j]));
                }
                if import_names(old_set).contains(n) {
                    let u = choose|u: Seq<char>| old_set.contains(u) && import_tail(u) == Some(n);
                    let j = choose|j: int| 0 <= j < self.uses.view_seq().len() && self.uses.view_seq()[j] == u;
                    assert(exists|j: int| 0 <= j < i && import_tail(self.uses.view_seq()[j]) == Some(n));
                }
            }
        }
        let mut updated = false;
        let mut k: usize = 0;
        while k < hints.len()
            invariant
                self.uses.wf(),
                self.names == old(self).names,
                self.prefix == old(self).prefix,
                self.code == old(self).code,
                old(self).wf(),
                res.errors == old(self).result->Some_0.errors,
                res.suggestions == old(self).result->Some_0.suggestions,
                res.passed == old(self).result->Some_0.passed,
                hv == views(hints@),
                k <= hints@.len(),
                forall|n: Seq<char>| views(names@).contains(n) <==> import_names(old_set).contains(n),
                self.uses.view_set() == old_set.union(taken_imports(hv.subrange(0, k as int), old_set)),
                updated == (self.uses.view_set() != old_set),
                !updated ==> self.uses.view_seq() == old_seq,
                res.uses@.len() == 0,
            decreases hints@.len() - k,
        {
            let u = &hints[k];
            let skip = if is_glob_or_group(u.as_str()) {
                true
            } else {
                match import_name(u.as_str()) {
                    Some(t) => contains_str(&names, t.as_str()),
                    None => true,
                }
            };
            proof {
                assert(skip == !admissible(hv[k as int], import_names(old_set)));
                assert(hv.subrange(0, k + 1) =~= hv.subrange(0, k as int).push(hv[k as int]));
                let p = hv.subrange(0, k as int);
                let x = hv[k as int];
                assert forall|u: Seq<char>| #[trigger] p.push(x).contains(u) <==> (p.contains(u) || u == x) by {
                    if p.push(x).contains(u) && u != x {
                        let j = choose|j: int| 0 <= j < p.push(x).len() && p.push(x)[j] == u;
                        assert(p[j] == u);
                    }
                    if p.contains(u) {
                        let j = choose|j: int| 0 <= j < p.len() && p[j] == u;
                        assert(p.push(x)[j] == u);
                    }
                    if u == x {
                        assert(p.push(x)[k as int] == x);
                    }
                }
                if skip {
                    assert(taken_imports(hv.subrange(0, k + 1), old_set) =~= taken_imports(hv.subrange(0, k as int), old_set));
                } else {
                    assert(taken_imports(hv.subrange(0, k + 1), old_set) =~= taken_imports(hv.subrange(0, k as int), old_set).insert(hv[k as int]));
                }
            }
            if !skip {
                let ghost cur = self.uses.view_set();
                let grew = self.uses.insert(u.clone());
                proof {
                    assert(self.uses.view_set() =~= old_set.union(taken_imports(hv.subrange(0, k + 1), old_set)));
                    if grew {
                        assert(!cur.contains(hv[k as int]));
                        assert(!old_set.contains(hv[k as int]));
                        assert(self.uses.view_set().contains(hv[k as int]));
                    }
                }
                if grew {
                    updated = true;
                }
            } else {
                proof {
                    assert(self.uses.view_set() =~= old_set.union(taken_imports(hv.subrange(0, k + 1), old_set)));
                }
            }
            k = k + 1;
        }
        proof {
            assert(hv.subrange(0, hints@.len() as int) =~= hv);
        }
        if updated {
            self.result = None;
        } else {
            self.result = Some(res);
        }
        updated
    }

    /// One move of the two compiler tiers: apply the compiler's suggestions while it has
    /// some, else merge the imports it proposes. `Check` asks the driver to compile again.
    pub fn fix_by_compiler(&mut self) -> (r: Result<CompilerStep, RepairError>)
        requires
            old(self).wf(),
        ensures
            final(self).wf(),
            final(self).prefix == old(self).prefix,
            final(self).names == old(self).names,
            old(self).result is None ==> r == Ok::<CompilerStep, RepairError>(CompilerStep::Done)
                && *final(self) == *old(self),
            (old(self).result matches Some(c) && c.suggestions@.len() == 0 && c.uses@.len() == 0)
                ==> r == Ok::<CompilerStep, RepairError>(CompilerStep::Done) && *final(self) == *old(self),
            (old(self).result matches Some(c) && c.suggestions@.len() > 0) ==> ({
                let fixed = fixed_text(old(self).whole(), fixes_view(old(self).result->Some_0.suggestions@));
                &&& (r is Err <==> (fixed is None || !starts_with(fixed->Some_0, old(self).head() + seq!['\n'])))
                &&& (r is Ok ==> r == Ok::<CompilerStep, RepairError>(CompilerStep::Check)
                    && final(self).result is None && final(self).uses == old(self).uses
                    && final(self).code@ == fixed->Some_0.subrange(old(self).head().len() as int + 1, fixed->Some_0.len() as int))
                &&& (r is Err ==> *final(self) == *old(self))
            }),
            (old(self).result matches Some(c) && c.suggestions@.len() == 0 && c.uses@.len() > 0) ==> (
                r is Ok
                && final(self).code == old(self).code
                && final(self).uses.view_set() == old(self).uses.view_set().union(
                    taken_imports(views(old(self).result->Some_0.uses@), old(self).uses.view_set()))
                && (r == Ok::<CompilerStep, RepairError>(CompilerStep::Check)
                    <==> final(self).uses.view_set() != old(self).uses.view_set())),
    {
        match &self.result {
            None => Ok(CompilerStep::Done),
            Some(c) => {
                if c.suggestions.len() > 0 {
                    let whole = self.code();
                    match apply_suggestions(whole.as_str(), &c.suggestions) {
                        Ok(fixed) => {
                            match self.update_whole(fixed.as_str()) {
                                Ok(()) => Ok(CompilerStep::Check),
                                Err(e) => Err(e),
                            }
                        },
                        Err(_) => Err(RepairError::SuggestionFailed),
                    }
                } else if c.uses.len() > 0 {
                    if self.add_uses() {
                        Ok(CompilerStep::Check)
                    } else {
                        Ok(CompilerStep::Done)
                    }
                } else {
                    Ok(CompilerStep::Done)
                }
            },
        }
    }

    /// The residual error count, once compiled.
    pub fn error_count(&self) -> (r: Option<usize>)
        ensures
            r == (match self.result {
                Some(c) => Some(c.errors@.len() as usize),
                None => None::<usize>,
            }),
    {
        match &self.result {
            Some(c) => Some(c.errors.len()),
            None => None,
        }
    }

    /// The distinct messages of the remaining errors that no earlier attempt failed on:
    /// those the model is asked to fix next. Empty where nothing is left to ask.
    pub fn pending_messages(&self, failed: &TextSet) -> (r: TextSet)
        ensures
            r.wf(),
            r.view_set() == pending(self.result, failed.view_set()),
    {
        let mut r = TextSet::new();
        match &self.result {
            None => {
                proof {
                    assert(r.view_set() =~= pending(self.result, failed.view_set()));
                }
                r
            },
            Some(c) => {
                let mut k: usize = 0;
                while k < c.errors.len()
                    invariant
                        r.wf(),
                        self.result == Some(*c),
                        k <= c.errors@.len(),
                        r.view_set() =~= Set::new(|m: Seq<char>| exists|j: int| 0 <= j < k
                            && c.errors@[j].message@ == m && !failed.view_set().contains(m)),
                    decreases c.errors@.len() - k,
                {
                    let ghost cur = r.view_set();
                    let m = &c.errors[k].message;
                    if !failed.contains(m.as_str()) {
                        r.insert(m.clone());
                    }
                    proof {
                        assert(r.view_set() =~= Set::new(|m: Seq<char>| exists|j: int| 0 <= j < k + 1
                            && c.errors@[j].message@ == m && !failed.view_set().contains(m))) by {
                            assert forall|x: Seq<char>| r.view_set().contains(x) implies (exists|j: int| 0 <= j < k + 1
                                && c.errors@[j].message@ == x && !failed.view_set().contains(x)) by {
                                if !cur.contains(x) {
                                    assert(c.errors@[k as int].message@ == x);
                                }
                            }
                        }
                    }
                    k = k + 1;
                }
                proof {
                    assert(r.view_set() =~= pending(self.result, failed.view_set()));
                }
                r
            },
        }
    }

    /// Turns the items of a model's fix into the new code under repair: only items that
    /// define a protected name are kept, every protected name must be among them, and the
    /// code must differ from the current one. `None` drops the fix.
    pub fn accept_fix(&self, items: Vec<ParsedItem>) -> (r: Option<String>)
        requires
            self.names.wf(),
        ensures
            r is Some <==> (kept(items@, self.names.view_set()).len() == self.names.view_seq().len()
                && defines_all(kept(items@, self.names.view_set()), self.names.view_set())
                && joined(item_texts(kept(items@, self.names.view_set()), Rendering::Full, 0)) != self.code@),
            r matches Some(t) ==> t@ == joined(item_texts(kept(items@, self.names.view_set()), Rendering::Full, 0)),
    {
        let ghost ns = self.names.view_set();
        let ghost all = items@;
        let mut rest = items;
        let mut out: Vec<ParsedItem> = Vec::new();
        while rest.len() > 0
            invariant
                out@ + kept(rest@, ns) == kept(all, ns),
                ns == self.names.view_set(),
            decreases rest@.len(),
        {
            let ghost before = rest@;
            let it = rest.remove(0);
            proof {
                assert(rest@ =~= before.drop_first());
            }
            if self.names.contains(it.name.as_str()) {
                let ghost o = out@;
                out.push(it);
                proof {
                    assert(out@ + kept(rest@, ns) =~= o + kept(before, ns));
                }
            }
        }
        proof {
            assert(out@ =~= kept(all, ns));
        }
        if out.len() != self.names.len() {
            return None;
        }
        let mut j: usize = 0;
        while j < self.names.items.len()
            invariant
                j <= self.names.items@.len(),
                ns == self.names.view_set(),
                out@ == kept(all, ns),
                all == items@,
                forall|q: int| 0 <= q < j ==> has_name(out@, #[trigger] self.names.view_seq()[q]),
            decreases self.names.items@.len() - j,
        {
            if !defines(&out, self.names.items[j].as_str()) {
                proof {
                    let n = self.names.view_seq()[j as int];
                    assert(ns.contains(n));
                    assert(!has_name(out@, n));
                    assert(!defines_all(kept(all, ns), ns));
                }
                return None;
            }
            j = j + 1;
        }
        proof {
            assert forall|n: Seq<char>| ns.contains(n) implies has_name(out@, n) by {
                let q = choose|q: int| 0 <= q < self.names.view_seq().len() && self.names.view_seq()[q] == n;
            }
        }
        let fixed = TranslationResult::of_items(out, false);
        let code = fixed.code();
        if text_eq(code.as_str(), self.code.as_str()) {
            None
        } else {
            Some(code)
        }
    }
}

/// The error count a repaired attempt reports, if it was compiled.
pub open spec fn attempt_errors(a: Option<FixContext>) -> Option<usize> {
    match a {
        Some(c) => match c.result {
            Some(res) => Some(res.errors@.len() as usize),
            None => None,
        },
        None => None,
    }
}

/// The messages whose attempt did not lower the error count below `current`.
pub open spec fn failed_messages(msgs: Seq<Seq<char>>, attempts: Seq<Option<FixContext>>, current: usize) -> Set<Seq<char>> {
    failed_before(msgs, attempts, current, msgs.len() as int)
}

/// The messages among the first `n` whose attempt did not lower the error count.
pub open spec fn failed_before(msgs: Seq<Seq<char>>, attempts: Seq<Option<FixContext>>, current: usize, n: int) -> Set<Seq<char>> {
    Set::new(|m: Seq<char>| exists|k: int| 0 <= k < n && msgs[k] == m
        && outcome(attempt_errors(attempts[k]), current) >= current)
}

/// Whether a compile left nothing for any tier to do.
pub open spec fn settled(c: TypeCheckingResult) -> bool {
    c.errors@.len() == 0 && c.suggestions@.len() == 0 && c.uses@.len() == 0
}

/// A candidate that compiles cleanly at once is left as it is: the compiler tiers stop at
/// once without touching it, and no message is left for the model.
pub proof fn lemma_clean_candidate_is_fixed_point(ctxt: FixContext, failed: Set<Seq<char>>)
    requires
        ctxt.result matches Some(c) && settled(c),
    ensures
        pending(ctxt.result, failed) == Set::<Seq<char>>::empty(),
        ctxt.result->Some_0.suggestions@.len() == 0,
        ctxt.result->Some_0.uses@.len() == 0,
{
    assert(pending(ctxt.result, failed) =~= Set::<Seq<char>>::empty());
}

impl FixContext {
    /// Closes one round of the model-assisted tier. `attempts[k]` is what the fix for
    /// `msgs[k]` led to after the compiler tiers, if anything. Messages whose attempt did not
    /// lower the error count join `failed`; the attempt with the fewest errors, if any
    /// lowered it, becomes the context. Returns whether one did (and the loop goes on).
    pub fn finish_llm_round(
        &mut self,
        failed: &mut TextSet,
        msgs: &TextSet,
        attempts: Vec<Option<FixContext>>,
    ) -> (r: bool)
        requires
            old(self).result is Some,
            old(failed).wf(),
            attempts@.len() == msgs.view_seq().len(),
            forall|k: int| 0 <= k < attempts@.len() ==> (#[trigger] attempts@[k] matches Some(c)
                ==> old(self).keeps(c)),
        ensures
            final(failed).wf(),
            final(failed).view_set() == old(failed).view_set().union(
                failed_messages(msgs.view_seq(), attempts@, old(self).result->Some_0.errors@.len() as usize),
            ),
            r == exists|k: int| 0 <= k < attempts@.len()
                && outcome(attempt_errors(#[trigger] attempts@[k]), old(self).result->Some_0.errors@.len() as usize)
                < old(self).result->Some_0.errors@.len(),
            r ==> old(self).keeps(*final(self)),
            r ==> (final(self).result matches Some(res) && res.errors@.len() < old(self).result->Some_0.errors@.len()),
            r ==> exists|b: int| 0 <= b < attempts@.len() && attempts@[b] == Some(*final(self))
                && forall|k: int| 0 <= k < attempts@.len() ==> outcome(attempt_errors(#[trigger] attempts@[k]),
                    old(self).result->Some_0.errors@.len() as usize) >= attempt_errors(attempts@[b])->Some_0,
            !r ==> *final(self) == *old(self),
    {
        let current = match &self.result {
            Some(c) => c.errors.len(),
            None => 0,
        };
        let mut outs: Vec<Option<usize>> = Vec::new();
        let mut k: usize = 0;
        while k < attempts.len()
            invariant
                k <= attempts@.len(),
                outs@.len() == k,
                forall|j: int| 0 <= j < k ==> outs@[j] == attempt_errors(#[trigger] attempts@[j]),
                forall|j: int| 0 <= j < k ==> (#[trigger] attempts@[j] matches Some(c) ==> (c.result matches Some(res)
                    ==> res.errors@.len() <= usize::MAX)),
            decreases attempts@.len() - k,
        {
            let o = match &attempts[k] {
                Some(c) => match &c.result {
                    Some(res) => Some(res.errors.len()),
                    None => None,
                },
                None => None,
            };
            outs.push(o);
            k = k + 1;
        }
        let ghost f0 = failed.view_set();
        let ghost fm = failed_messages(msgs.view_seq(), attempts@, current);
        let mut i: usize = 0;
        while i < outs.len()
            invariant
                i <= outs@.len(),
                outs@.len() == attempts@.len(),
                attempts@.len() == msgs.view_seq().len(),
                forall|j: int| 0 <= j < outs@.len() ==> outs@[j] == attempt_errors(#[trigger] attempts@[j]),
                fm == failed_messages(msgs.view_seq(), attempts@, current),
                forall|j: int| 0 <= j < attempts@.len() ==> (#[trigger] attempts@[j] matches Some(c) ==> (c.result matches Some(res)
                    ==> res.errors@.len() <= usize::MAX)),
                failed.wf(),
                failed.view_set() == f0.union(failed_before(msgs.view_seq(), attempts@, current, i as int)),
            decreases outs@.len() - i,
        {
            let ghost cur = failed.view_set();
            let e = match outs[i] {
                Some(n) => n,
                None => current,
            };
            if e >= current {
                failed.insert(msgs.items[i].clone());
            }
            proof {
                let fb0 = failed_before(msgs.view_seq(), attempts@, current, i as int);
                let fb1 = failed_before(msgs.view_seq(), attempts@, current, i + 1);
                assert(outs@[i as int] == attempt_errors(attempts@[i as int]));
                assert forall|m: Seq<char>| failed.view_set().contains(m) <==> f0.union(fb1).contains(m) by {
                    if fb0.contains(m) {
                        let k = choose|k: int| 0 <= k < i && msgs.view_seq()[k] == m
                            && outcome(attempt_errors(attempts@[k]), current) >= current;
                        assert(fb1.contains(m));
                    }
                    if fb1.contains(m) {
                        let k = choose|k: int| 0 <= k < i + 1 && msgs.view_seq()[k] == m
                            && outcome(attempt_errors(attempts@[k]), current) >= current;
                        if k < i {
                            assert(fb0.contains(m));
                        }
                    }
                    if e >= current && m == msgs.view_seq()[i as int] {
                        assert(fb1.contains(m));
                    }
                }
                assert(failed.view_set() =~= f0.union(fb1));
            }
            i = i + 1;
        }
        proof {
            assert(failed.view_set() =~= f0.union(fm));
        }
        match select_fix(current, &outs) {
            Some(b) => {
                let ghost a0 = attempts@;
                let mut pool = attempts;
                let chosen = pool.swap_remove(b);
                match chosen {
                    Some(c) => {
                        proof {
                            assert(a0[b as int] == Some(c));
                            assert(old(self).keeps(c));
                            assert(outs@[b as int] == attempt_errors(Some(c)));
                            assert(current == old(self).result->Some_0.errors@.len());
                        }
                        *self = c;
                        true
                    },
                    None => {
                        proof {
                            assert(outcome(outs@[b as int], current) == current);
                        }
                        false
                    },
                }
            },
            None => {
                proof {
                    assert forall|k: int| 0 <= k < attempts@.len() implies
                        outcome(attempt_errors(#[trigger] attempts@[k]), current) >= current by {
                        assert(outs@[k] == attempt_errors(attempts@[k]));
                    }
                }
                false
            },
        }
    }
}

/// The messages of the errors in `res` that are not in `failed`.
pub open spec fn pending(res: Option<TypeCheckingResult>, failed: Set<Seq<char>>) -> Set<Seq<char>> {
    match res {
        None => Set::empty(),
        Some(c) => Set::new(|m: Seq<char>| exists|j: int| 0 <= j < c.errors@.len()
            && c.errors@[j].message@ == m && !failed.contains(m)),
    }
}

/// The items of `items` whose names lie in `names`, in order.
pub open spec fn kept(items: Seq<ParsedItem>, names: Set<Seq<char>>) -> Seq<ParsedItem>
    decreases items.len(),
{
    if items.len() == 0 {
        Seq::empty()
    } else if names.contains(items[0].name@) {
        seq![items[0]] + kept(items.drop_first(), names)
    } else {
        kept(items.drop_first(), names)
    }
}

/// Whether one of `items` is named `n`.
pub open spec fn has_name(items: Seq<ParsedItem>, n: Seq<char>) -> bool {
    exists|k: int| 0 <= k < items.len() && items[k].name@ == n
}

/// Whether every name of `names` is defined by one of `items`.
pub open spec fn defines_all(items: Seq<ParsedItem>, names: Set<Seq<char>>) -> bool {
    forall|n: Seq<char>| names.contains(n) ==> has_name(items, n)
}

fn defines(items: &Vec<ParsedItem>, n: &str) -> (r: bool)
    ensures
        r == has_name(items@, n@),
{
    let mut k: usize = 0;
    while k < items.len()
        invariant
            k <= items@.len(),
            forall|j: int| 0 <= j < k ==> items@[j].name@ != n@,
        decreases items@.len() - k,
    {
        if text_eq(items[k].name.as_str(), n) {
            return true;
        }
        k = k + 1;
    }
    false
}

/// The error count a fix attempt ended with; one that produced nothing counts as no change.
pub open spec fn outcome(o: Option<usize>, current: usize) -> usize {
    match o {
        Some(n) => n,
        None => current,
    }
}

/// Picks, among the fix attempts that strictly lowered the error count below `current`,
/// the first with the fewest errors; `None` where none lowered it.
pub fn select_fix(current: usize, outcomes: &Vec<Option<usize>>) -> (r: Option<usize>)
    ensures
        r is None <==> forall|k: int| 0 <= k < outcomes@.len() ==> outcome(#[trigger] outcomes@[k], current) >= current,
        r matches Some(b) ==> b < outcomes@.len()
            && outcome(outcomes@[b as int], current) < current
            && (forall|k: int| 0 <= k < outcomes@.len() ==> outcome(#[trigger] outcomes@[k], current) >= outcome(outcomes@[b as int], current))
            && (forall|k: int| 0 <= k < b ==> outcome(#[trigger] outcomes@[k], current) > outcome(outcomes@[b as int], current)),
{
    let mut best: Option<usize> = None;
    let mut k: usize = 0;
    while k < outcomes.len()
        invariant
            k <= outcomes@.len(),
            best is None ==> forall|j: int| 0 <= j < k ==> outcome(#[trigger] outcomes@[j], current) >= current,
            best matches Some(b) ==> b < k
                && outcome(outcomes@[b as int], current) < current
                && (forall|j: int| 0 <= j < k ==> outcome(#[trigger] outcomes@[j], current) >= outcome(outcomes@[b as int], current))
                && (forall|j: int| 0 <= j < b ==> outcome(#[trigger] outcomes@[j], current) > outcome(outcomes@[b as int], current)),
        decreases outcomes@.len() - k,
    {
        let e = match outcomes[k] {
            Some(n) => n,
            None => current,
        };
        if e < current {
            match best {
                None => {
                    best = Some(k);
                },
                Some(b) => {
                    let eb = match outcomes[b] {
                        Some(n) => n,
                        None => current,
                    };
                    if e < eb {
                        best = Some(k);
                    }
                },
            }
        }
        k = k + 1;
    }
    best
}

} // verus!
