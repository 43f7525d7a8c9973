//! What project resolution concluded about each import: exact targets,
//! inferred targets, ambiguous and unresolved references.

use vstd::prelude::*;

use crate::analyzer::{DependencyReference, ImportRequirement, ImportScope, ImportUsage};
use crate::analysis::RepositoryAnalysis;
use crate::analyzer::{language_key, language_key_exec, strictly_sorted_languages};
use crate::order::{
    compare_keys, covers_key, key_compare, key_view, keys_view, lemma_key_facts, lemma_key_trans,
    text_chars, unique_sorted_order, AtomView, KeyAtom,
};
use crate::report::LanguageId;
use crate::text::{copy_string, push_text};

verus! {

pub const DEPENDENCY_GRAPH_DEFINITION_VERSION: &'static str = "dependency-graph-v2";

pub const DEPENDENCY_FAN_IN_DEFINITION_VERSION: &'static str = "dependency-fan-in-v2";

pub const DEPENDENCY_FAN_OUT_DEFINITION_VERSION: &'static str = "dependency-fan-out-v2";

pub const DEPENDENCY_SCC_DEFINITION_VERSION: &'static str = "dependency-scc-v2";

pub const DEPENDENCY_CYCLE_DEFINITION_VERSION: &'static str = "dependency-cycle-v2";

#[derive(Debug, Clone, Copy, PartialEq, Eq, Structural, PartialOrd, Ord, Hash)]
pub enum DependencyUnitKind {
    Module,
    File,
}

impl DependencyUnitKind {
    /// The stable name.
    pub fn as_str(self) -> (r: &'static str)
        ensures
            r@ == match self {
                DependencyUnitKind::Module => "module"@,
                DependencyUnitKind::File => "file"@,
            },
    {
        match self {
            DependencyUnitKind::Module => "module",
            DependencyUnitKind::File => "file",
        }
    }
}

#[derive(Debug, Clone, Copy, PartialEq, Eq, Structural, PartialOrd, Ord, Hash)]
pub enum DependencyTargetKind {
    LocalModule,
    StandardLibrary,
    InstalledDistribution,
    SystemHeader,
    ExternalHeader,
}

impl DependencyTargetKind {
    /// The stable name.
    pub fn as_str(self) -> (r: &'static str)
        ensures
            r@ == match self {
                DependencyTargetKind::LocalModule => "local-module"@,
                DependencyTargetKind::StandardLibrary => "standard-library"@,
                DependencyTargetKind::InstalledDistribution => "installed-distribution"@,
                DependencyTargetKind::SystemHeader => "system-header"@,
                DependencyTargetKind::ExternalHeader => "external-header"@,
            },
    {
        match self {
            DependencyTargetKind::LocalModule => "local-module",
            DependencyTargetKind::StandardLibrary => "standard-library",
            DependencyTargetKind::InstalledDistribution => "installed-distribution",
            DependencyTargetKind::SystemHeader => "system-header",
            DependencyTargetKind::ExternalHeader => "external-header",
        }
    }
}

#[derive(Debug, Clone, Copy, PartialEq, Eq, Structural, PartialOrd, Ord, Hash)]
pub enum UnresolvedDependencyReason {
    ModuleNotFound,
    RelativeImportBeyondRoot,
    MissingPackageContext,
    EnvironmentUnavailable,
    BuildContextUnavailable,
    HeaderNotFound,
    MacroInclude,
    UnsupportedCompileCommand,
    ImplicitSearchPathUnavailable,
}

impl UnresolvedDependencyReason {
    /// The stable name.
    pub fn as_str(self) -> (r: &'static str)
        ensures
            r@ == match self {
                UnresolvedDependencyReason::ModuleNotFound => "module-not-found"@,
                UnresolvedDependencyReason::RelativeImportBeyondRoot => "relative-import-beyond-root"@,
                UnresolvedDependencyReason::MissingPackageContext => "missing-package-context"@,
                UnresolvedDependencyReason::EnvironmentUnavailable => "environment-unavailable"@,
                UnresolvedDependencyReason::BuildContextUnavailable => "build-context-unavailable"@,
                UnresolvedDependencyReason::HeaderNotFound => "header-not-found"@,
                UnresolvedDependencyReason::MacroInclude => "macro-include"@,
                UnresolvedDependencyReason::UnsupportedCompileCommand => "unsupported-compile-command"@,
                UnresolvedDependencyReason::ImplicitSearchPathUnavailable => "implicit-search-path-unavailable"@,
            },
    {
        match self {
            UnresolvedDependencyReason::ModuleNotFound => "module-not-found",
            UnresolvedDependencyReason::RelativeImportBeyondRoot => "relative-import-beyond-root",
            UnresolvedDependencyReason::MissingPackageContext => "missing-package-context",
            UnresolvedDependencyReason::EnvironmentUnavailable => "environment-unavailable",
            UnresolvedDependencyReason::BuildContextUnavailable => "build-context-unavailable",
            UnresolvedDependencyReason::HeaderNotFound => "header-not-found",
            UnresolvedDependencyReason::MacroInclude => "macro-include",
            UnresolvedDependencyReason::UnsupportedCompileCommand => "unsupported-compile-command",
            UnresolvedDependencyReason::ImplicitSearchPathUnavailable => "implicit-search-path-unavailable",
        }
    }

    /// Position in the declaration order.
    pub fn rank(self) -> (r: u64)
        ensures
            r == reason_rank(self),
    {
        match self {
            UnresolvedDependencyReason::ModuleNotFound => 0,
            UnresolvedDependencyReason::RelativeImportBeyondRoot => 1,
            UnresolvedDependencyReason::MissingPackageContext => 2,
            UnresolvedDependencyReason::EnvironmentUnavailable => 3,
            UnresolvedDependencyReason::BuildContextUnavailable => 4,
            UnresolvedDependencyReason::HeaderNotFound => 5,
            UnresolvedDependencyReason::MacroInclude => 6,
            UnresolvedDependencyReason::UnsupportedCompileCommand => 7,
            UnresolvedDependencyReason::ImplicitSearchPathUnavailable => 8,
        }
    }
}

#[derive(Debug, Clone, Copy, PartialEq, Eq, Structural, PartialOrd, Ord, Hash)]
pub enum InferredDependencyBasis {
    UniqueRepositorySuffix,
}

impl InferredDependencyBasis {
    /// The stable name.
    pub fn as_str(self) -> (r: &'static str)
        ensures
            r@ == match self {
                InferredDependencyBasis::UniqueRepositorySuffix => "unique-repository-suffix"@,
            },
    {
        match self {
            InferredDependencyBasis::UniqueRepositorySuffix => "unique-repository-suffix",
        }
    }
}

pub open spec fn reason_rank(r: UnresolvedDependencyReason) -> u64 {
    match r {
        UnresolvedDependencyReason::ModuleNotFound => 0,
        UnresolvedDependencyReason::RelativeImportBeyondRoot => 1,
        UnresolvedDependencyReason::MissingPackageContext => 2,
        UnresolvedDependencyReason::EnvironmentUnavailable => 3,
        UnresolvedDependencyReason::BuildContextUnavailable => 4,
        UnresolvedDependencyReason::HeaderNotFound => 5,
        UnresolvedDependencyReason::MacroInclude => 6,
        UnresolvedDependencyReason::UnsupportedCompileCommand => 7,
        UnresolvedDependencyReason::ImplicitSearchPathUnavailable => 8,
    }
}

#[derive(Debug)]
pub struct DependencyResolverDescriptor {
    pub id: String,
    pub language: LanguageId,
    pub version: String,
    pub definition_version: String,
    pub local_unit_kind: DependencyUnitKind,
    pub hierarchy_behavior: String,
    pub resolution_capabilities: Vec<String>,
    pub limitations: Vec<String>,
}

#[derive(Debug)]
pub struct DependencyResolutionContextCoverage {
    pub kind: String,
    pub selected: bool,
    pub total: usize,
    pub supported: usize,
    pub unsupported: usize,
}

#[derive(Debug)]
pub struct ResolvedProjectDependencies {
    pub local_units: Vec<LocalModule>,
    pub resolutions: Vec<ProjectDependencyResolution>,
    pub context_coverage: Vec<DependencyResolutionContextCoverage>,
    pub summary_lines: Vec<String>,
    pub metadata: Vec<(String, String)>,
    pub diagnostics: Vec<String>,
}

#[derive(Debug)]
pub struct DependencyResolverError {
    message: String,
}

impl DependencyResolverError {
    pub fn new(message: &str) -> (r: DependencyResolverError)
        ensures
            r.message()@ == message@,
    {
        DependencyResolverError { message: message.to_owned() }
    }

    pub closed spec fn message(&self) -> String {
        self.message
    }

    /// The error text.
    pub fn text(&self) -> (r: &str)
        ensures
            r@ == self.message()@,
    {
        self.message.as_str()
    }
}

#[derive(Debug)]
pub enum DependencyResolverRegistryError {
    DuplicateLanguage(LanguageId),
    UnavailableLanguage(LanguageId),
}

/// A dependency resolver for one language, supplied by the caller.
pub trait DependencyResolver {
    /// The descriptor that the resolver gives.
    spec fn descriptor_value(&self) -> DependencyResolverDescriptor;

    fn descriptor(&self) -> (d: &DependencyResolverDescriptor)
        ensures
            *d == self.descriptor_value(),
    ;

    /// Whether `result` is what the resolver may give for `analysis`.
    /// Without a resolver's own statement, any result may be given.
    open spec fn gives(&self, analysis: RepositoryAnalysis, result: Result<ResolvedProjectDependencies, DependencyResolverError>) -> bool {
        true
    }

    fn resolve(&self, analysis: &RepositoryAnalysis) -> (r: Result<ResolvedProjectDependencies, DependencyResolverError>)
        ensures
            self.gives(*analysis, r),
    ;
}

/// The text `{:?}` gives for a string: quoted, with special characters
/// escaped.
pub uninterp spec fn debug_text(s: Seq<char>) -> Seq<char>;

/// Formats a string as `{:?}` does.
#[verifier::external_body]
pub(crate) fn debug_quoted(s: &str) -> (r: String)
    ensures
        r@ == debug_text(s@),
{
    format!("{:?}", s)
}

impl DependencyResolverRegistryError {
    /// The error text.
    pub fn message(&self) -> (r: String)
        ensures
            r@ == match self {
                DependencyResolverRegistryError::DuplicateLanguage(l) => "dependency resolver for language "@
                    + debug_text(l@) + " is already registered"@,
                DependencyResolverRegistryError::UnavailableLanguage(l) => "dependency resolver for language "@
                    + debug_text(l@) + " is not installed"@,
            },
    {
        let mut text = String::new();
        push_text(&mut text, "dependency resolver for language ");
        match self {
            DependencyResolverRegistryError::DuplicateLanguage(l) => {
                let q = debug_quoted(l.as_str());
                push_text(&mut text, q.as_str());
                push_text(&mut text, " is already registered");
            },
            DependencyResolverRegistryError::UnavailableLanguage(l) => {
                let q = debug_quoted(l.as_str());
                push_text(&mut text, q.as_str());
                push_text(&mut text, " is not installed");
            },
        }
        text
    }
}

/// Dependency resolvers by language; each language has at most one
/// resolver, and the languages are kept in increasing order.
pub struct DependencyResolverRegistry<R: DependencyResolver> {
    languages: Vec<LanguageId>,
    resolvers: Vec<R>,
}

impl<R: DependencyResolver> View for DependencyResolverRegistry<R> {
    type V = Seq<Seq<char>>;

    closed spec fn view(&self) -> Seq<Seq<char>> {
        self.languages@.map_values(|l: LanguageId| l@)
    }
}

impl<R: DependencyResolver> DependencyResolverRegistry<R> {
    pub closed spec fn well_formed(&self) -> bool {
        &&& strictly_sorted_languages(self@)
        &&& self.languages.len() == self.resolvers.len()
        &&& forall|i: int| 0 <= i < self.resolvers.len() ==> (#[trigger] self.resolvers[i]).descriptor_value().language@
            == self.languages[i]@
    }

    /// The `i`-th resolver in language order.
    pub closed spec fn resolver_at(&self, i: int) -> R {
        self.resolvers[i]
    }

    pub fn new() -> (r: DependencyResolverRegistry<R>)
        ensures
            r@ == Seq::<Seq<char>>::empty(),
            r.well_formed(),
    {
        let r = DependencyResolverRegistry { languages: Vec::new(), resolvers: Vec::new() };
        assert(r@ =~= Seq::<Seq<char>>::empty());
        r
    }

    fn position(&self, language: &LanguageId) -> (r: Option<usize>)
        ensures
            match r {
                Some(i) => i < self@.len() && self@[i as int] == language@,
                None => !self@.contains(language@),
            },
    {
        let mut i: usize = 0;
        while i < self.languages.len()
            invariant
                i <= self.languages.len(),
                self@.len() == self.languages.len(),
                forall|j: int| 0 <= j < i ==> self@[j] != language@,
            decreases self.languages.len() - i,
        {
            if self.languages[i].same(language) {
                return Some(i);
            }
            i = i + 1;
        }
        None
    }

    /// Registers a resolver for the language its descriptor names. Fails,
    /// leaving the registry unchanged, when that language already has a
    /// resolver.
    pub fn register(&mut self, resolver: R) -> (r: Result<(), DependencyResolverRegistryError>)
        requires
            old(self).well_formed(),
        ensures
            final(self).well_formed(),
            match r {
                Ok(()) => {
                    let l = resolver.descriptor_value().language@;
                    &&& !old(self)@.contains(l)
                    &&& final(self)@.to_set() == old(self)@.to_set().insert(l)
                    &&& final(self)@.len() == old(self)@.len() + 1
                    &&& exists|p: int|
                        0 <= p <= old(self)@.len() && final(self)@ == old(self)@.insert(p, l) && final(self).resolver_at(p)
                            == resolver && (forall|j: int| 0 <= j < p ==> #[trigger] final(self).resolver_at(j) == old(self).resolver_at(j))
                            && (forall|j: int| p <= j < old(self)@.len() ==> #[trigger] final(self).resolver_at(j + 1) == old(self).resolver_at(j))
                },
                Err(DependencyResolverRegistryError::DuplicateLanguage(l)) => l@ == resolver.descriptor_value().language@
                    && old(self)@.contains(l@) && final(self)@ == old(self)@ && *final(self) == *old(self),
                Err(DependencyResolverRegistryError::UnavailableLanguage(_)) => false,
            },
    {
        let language = resolver.descriptor().language.copy();
        if let Some(_) = self.position(&language) {
            return Err(DependencyResolverRegistryError::DuplicateLanguage(language));
        }
        let key = language_key_exec(&language);
        let mut p: usize = 0;
        let mut stop = false;
        let ghost old_view = self@;
        while !stop && p < self.languages.len()
            invariant
                p <= self.languages.len(),
                self.languages.len() == self.resolvers.len(),
                self@ == old_view,
                self@.len() == self.languages.len(),
                key_view(key@) == language_key(language@),
                !old_view.contains(language@),
                forall|i: int| 0 <= i < p ==> key_compare(language_key(old_view[i]), language_key(language@)) == -1,
                stop ==> p < self.languages.len() && key_compare(language_key(old_view[p as int]), language_key(language@)) == 1,
            decreases (self.languages.len() - p) * 2 + (if stop { 0int } else { 1int }),
        {
            let k = language_key_exec(&self.languages[p]);
            let c = compare_keys(&k, &key);
            proof {
                lemma_key_facts(language_key(old_view[p as int]), language_key(language@));
                assert(self@[p as int] == self.languages@[p as int]@);
                if c == 0 {
                    assert(language_key(old_view[p as int])[0] == language_key(language@)[0]);
                    assert(old_view[p as int] == language@);
                }
            }
            if c > 0 {
                stop = true;
            } else {
                p = p + 1;
            }
        }
        let ghost l = language@;
        let ghost old_an = self.languages@;
        let ghost old_rs = self.resolvers@;
        let ghost the = resolver;
        self.languages.insert(p, language);
        self.resolvers.insert(p, resolver);
        proof {
            assert(self.resolvers@ == old_rs.insert(p as int, the));
            assert(self.resolver_at(p as int) == the);
            assert forall|j: int| 0 <= j < p implies #[trigger] self.resolver_at(j) == old_rs[j] by {}
            assert forall|j: int| p <= j < old_rs.len() implies #[trigger] self.resolver_at(j + 1) == old_rs[j] by {}
        }
        proof {
            let nv = self@;
            assert forall|i: int| 0 <= i < nv.len() implies nv[i] == old_view.insert(p as int, l)[i] by {
                if i < p {
                    assert(self.languages@[i] == old_an[i]);
                } else if i > p {
                    assert(self.languages@[i] == old_an[i - 1]);
                }
            }
            assert(nv =~= old_view.insert(p as int, l));
            assert forall|i: int, j: int| 0 <= i < j < nv.len() implies key_compare(
                language_key(nv[i]),
                language_key(nv[j]),
            ) == -1 by {
                if i < p && j > p {
                    lemma_key_facts(language_key(l), language_key(old_view[j - 1]));
                    if j - 1 > p {
                        lemma_key_trans(language_key(l), language_key(old_view[p as int]), language_key(old_view[j - 1]));
                    }
                    lemma_key_trans(language_key(nv[i]), language_key(l), language_key(nv[j]));
                    lemma_key_facts(language_key(nv[i]), language_key(nv[j]));
                } else if i == p && j > p {
                    lemma_key_facts(language_key(l), language_key(old_view[p as int]));
                    if j - 1 > p {
                        lemma_key_trans(language_key(l), language_key(old_view[p as int]), language_key(old_view[j - 1]));
                    }
                    lemma_key_facts(language_key(l), language_key(old_view[j - 1]));
                } else if i > p {
                    assert(nv[i] == old_view[i - 1]);
                    assert(nv[j] == old_view[j - 1]);
                } else {
                }
            }
            assert(nv.to_set() =~= old_view.to_set().insert(l)) by {
                assert forall|x: Seq<char>| nv.to_set().contains(x) <==> old_view.to_set().insert(l).contains(x) by {
                    if nv.contains(x) {
                        let i = choose|i: int| 0 <= i < nv.len() && nv[i] == x;
                        if i < p {
                            assert(old_view[i] == x);
                        } else if i > p {
                            assert(old_view[i - 1] == x);
                        }
                    }
                    if old_view.contains(x) {
                        let i = choose|i: int| 0 <= i < old_view.len() && old_view[i] == x;
                        if i < p {
                            assert(nv[i] == x);
                        } else {
                            assert(nv[i + 1] == x);
                        }
                    }
                    if x == l {
                        assert(nv[p as int] == x);
                    }
                }
            }
        }
        Ok(())
    }

    /// The registered languages, in increasing order.
    pub fn languages(&self) -> (r: Vec<&LanguageId>)
        ensures
            r.len() == self@.len(),
            forall|i: int| 0 <= i < r.len() ==> #[trigger] r[i]@ == self@[i],
    {
        let mut out: Vec<&LanguageId> = Vec::new();
        let mut i: usize = 0;
        while i < self.languages.len()
            invariant
                i <= self.languages.len(),
                self@.len() == self.languages.len(),
                out.len() == i,
                forall|j: int| 0 <= j < i ==> #[trigger] out[j]@ == self@[j],
            decreases self.languages.len() - i,
        {
            out.push(&self.languages[i]);
            assert(self@[i as int] == self.languages@[i as int]@);
            i = i + 1;
        }
        out
    }

    /// The resolver of a language, if it has one.
    pub fn get(&self, language: &LanguageId) -> (r: Option<&R>)
        requires
            self.well_formed(),
        ensures
            r is Some <==> self@.contains(language@),
    {
        match self.position(language) {
            Some(i) => Some(&self.resolvers[i]),
            None => None,
        }
    }

    /// Runs the resolver of a language on an analysis. A language without a
    /// resolver is an error naming it; otherwise the result is the
    /// resolver's.
    pub fn resolve(&self, language: &LanguageId, analysis: &RepositoryAnalysis) -> (r: Result<
        ResolvedProjectDependencies,
        DependencyResolverError,
    >)
        requires
            self.well_formed(),
        ensures
            !self@.contains(language@) ==> (r matches Err(e) && e.message()@ == "dependency resolver for language "@
                + debug_text(language@) + " is not installed"@),
            self@.contains(language@) ==> exists|i: int|
                0 <= i < self@.len() && self@[i] == language@ && self.resolver_at(i).gives(*analysis, r)
                    && call_ensures(R::resolve, (&self.resolver_at(i), analysis), r),
    {
        match self.position(language) {
            Some(i) => {
                let run = R::resolve;
                run(&self.resolvers[i], analysis)
            },
            None => {
                let e = DependencyResolverRegistryError::UnavailableLanguage(language.copy());
                let text = e.message();
                Err(DependencyResolverError::new(text.as_str()))
            },
        }
    }
}

/// Which import contexts a graph leaves out.
#[derive(Debug, Clone, Copy, PartialEq, Eq, Structural)]
pub struct DependencyGraphInputExclusions {
    pub type_only: bool,
    pub optional: bool,
    pub callable_local: bool,
    pub conditional: bool,
}

impl Default for DependencyGraphInputExclusions {
    /// Leaves nothing out.
    fn default() -> (r: DependencyGraphInputExclusions)
        ensures
            !r.type_only,
            !r.optional,
            !r.callable_local,
            !r.conditional,
    {
        DependencyGraphInputExclusions { type_only: false, optional: false, callable_local: false, conditional: false }
    }
}

impl DependencyGraphInputExclusions {
    pub open spec fn spec_retains(self, reference: DependencyReference) -> bool {
        !(self.type_only && reference.context.usage == ImportUsage::TypeCheckingOnly
            || self.optional && reference.context.requirement == ImportRequirement::Optional
            || self.callable_local && reference.context.scope == ImportScope::Callable
            || self.conditional && reference.context.conditional)
    }

    /// Whether the graph keeps a reference.
    pub fn retains(self, reference: &DependencyReference) -> (r: bool)
        ensures
            r == self.spec_retains(*reference),
    {
        !(self.type_only && reference.context.usage == ImportUsage::TypeCheckingOnly
            || self.optional && reference.context.requirement == ImportRequirement::Optional
            || self.callable_local && reference.context.scope == ImportScope::Callable
            || self.conditional && reference.context.conditional)
    }
}

/// A module identity: its language and its qualified name, such as
/// `shop.models`.
#[derive(Debug)]
pub struct ModuleId {
    language: LanguageId,
    qualified_name: String,
}

impl View for ModuleId {
    type V = (Seq<char>, Seq<char>);

    closed spec fn view(&self) -> (Seq<char>, Seq<char>) {
        (self.language@, self.qualified_name@)
    }
}

pub open spec fn module_key(m: (Seq<char>, Seq<char>)) -> Seq<AtomView> {
    seq![AtomView::Text(m.0), AtomView::Text(m.1)]
}

pub fn push_atom(out: &mut Vec<KeyAtom>, a: KeyAtom)
    ensures
        key_view(final(out)@) == key_view(old(out)@).push(a@),
{
    let ghost before = out@;
    out.push(a);
    assert(key_view(out@) =~= key_view(before).push(a@));
}

pub fn push_text_atom(out: &mut Vec<KeyAtom>, s: &str)
    ensures
        key_view(final(out)@) == key_view(old(out)@).push(AtomView::Text(s@)),
{
    push_atom(out, KeyAtom::Text(text_chars(s)));
}

pub fn push_num_atom(out: &mut Vec<KeyAtom>, n: u64)
    ensures
        key_view(final(out)@) == key_view(old(out)@).push(AtomView::Num(n as int)),
{
    push_atom(out, KeyAtom::Num(n));
}

impl ModuleId {
    pub fn new(language: LanguageId, qualified_name: &str) -> (r: ModuleId)
        ensures
            r@ == (language@, qualified_name@),
    {
        ModuleId { language, qualified_name: qualified_name.to_owned() }
    }

    pub fn language(&self) -> (r: &LanguageId)
        ensures
            r@ == self@.0,
    {
        &self.language
    }

    pub fn qualified_name(&self) -> (r: &str)
        ensures
            r@ == self@.1,
    {
        self.qualified_name.as_str()
    }

    pub fn copy(&self) -> (r: ModuleId)
        ensures
            r@ == self@,
    {
        ModuleId { language: self.language.copy(), qualified_name: copy_string(&self.qualified_name) }
    }

    pub fn push_key(&self, out: &mut Vec<KeyAtom>)
        ensures
            key_view(final(out)@) == key_view(old(out)@) + module_key(self@),
    {
        let ghost before = key_view(out@);
        push_text_atom(out, self.language.as_str());
        push_text_atom(out, self.qualified_name.as_str());
        assert(key_view(out@) =~= before + module_key(self@));
    }
}

/// A local module identity and its repository-relative source path.
#[derive(Debug)]
pub struct LocalModule {
    pub id: ModuleId,
    pub path: String,
    pub outgoing_dependencies_analyzed: bool,
}

/// The order key of a local module: its identity, its path by components,
/// then whether its own dependencies were analyzed.
pub open spec fn local_key(m: LocalModule) -> Seq<AtomView> {
    module_key(m.id@) + crate::documentation::path_order_key(m.path@) + seq![
        AtomView::Num(if m.outgoing_dependencies_analyzed { 1 } else { 0 }),
    ]
}

impl LocalModule {
    pub fn new(id: ModuleId, path: &str) -> (r: LocalModule)
        ensures
            r.id@ == id@,
            r.path@ == path@,
            r.outgoing_dependencies_analyzed,
    {
        LocalModule { id, path: path.to_owned(), outgoing_dependencies_analyzed: true }
    }

    pub fn with_outgoing_dependencies_analyzed(self, analyzed: bool) -> (r: LocalModule)
        ensures
            r.id@ == self.id@,
            r.path@ == self.path@,
            r.outgoing_dependencies_analyzed == analyzed,
    {
        let mut m = self;
        m.outgoing_dependencies_analyzed = analyzed;
        m
    }

    pub fn copy(&self) -> (r: LocalModule)
        ensures
            r.id@ == self.id@,
            r.path@ == self.path@,
            r.outgoing_dependencies_analyzed == self.outgoing_dependencies_analyzed,
            local_key(r) == local_key(*self),
    {
        LocalModule {
            id: self.id.copy(),
            path: copy_string(&self.path),
            outgoing_dependencies_analyzed: self.outgoing_dependencies_analyzed,
        }
    }

    pub fn push_key(&self, out: &mut Vec<KeyAtom>)
        ensures
            key_view(final(out)@) == key_view(old(out)@) + local_key(*self),
    {
        let ghost before = key_view(out@);
        self.id.push_key(out);
        let ghost mid = key_view(out@);
        let comps = crate::documentation::path_order_key_exec(self.path.as_str());
        let mut i: usize = 0;
        while i < comps.len()
            invariant
                i <= comps.len(),
                key_view(out@) == mid + key_view(comps@).take(i as int),
            decreases comps.len() - i,
        {
            let ghost b = out@;
            match &comps[i] {
                KeyAtom::Num(n) => out.push(KeyAtom::Num(*n)),
                KeyAtom::Text(t) => out.push(KeyAtom::Text(t.clone())),
            }
            proof {
                assert(key_view(out@) =~= key_view(b).push(key_view(comps@)[i as int]));
                assert(key_view(comps@).take(i + 1) =~= key_view(comps@).take(i as int).push(key_view(comps@)[i as int]));
            }
            i = i + 1;
        }
        assert(key_view(comps@).take(comps.len() as int) =~= key_view(comps@));
        push_num_atom(out, if self.outgoing_dependencies_analyzed { 1 } else { 0 });
        assert(key_view(out@) =~= before + local_key(*self));
    }
}

/// An exact dependency target.
#[derive(Debug)]
pub enum DependencyTarget {
    LocalModule(LocalModule),
    StandardLibrary(ModuleId),
    InstalledDistribution {
        import_module: ModuleId,
        distribution_name: String,
        distribution_display_name: String,
        version: Option<String>,
    },
    SystemHeader { language: LanguageId, name: String },
    ExternalHeader { language: LanguageId, name: String },
}

pub open spec fn opt_text_key(o: Option<String>) -> Seq<AtomView> {
    match o {
        None => seq![AtomView::Num(0)],
        Some(s) => seq![AtomView::Num(1), AtomView::Text(s@)],
    }
}

pub fn push_opt_text_key(out: &mut Vec<KeyAtom>, o: &Option<String>)
    ensures
        key_view(final(out)@) == key_view(old(out)@) + opt_text_key(*o),
{
    let ghost before = key_view(out@);
    match o {
        None => {
            push_num_atom(out, 0);
        },
        Some(s) => {
            push_num_atom(out, 1);
            push_text_atom(out, s.as_str());
        },
    }
    assert(key_view(out@) =~= before + opt_text_key(*o));
}

pub open spec fn target_key(t: DependencyTarget) -> Seq<AtomView> {
    match t {
        DependencyTarget::LocalModule(m) => seq![AtomView::Num(0)] + local_key(m),
        DependencyTarget::StandardLibrary(m) => seq![AtomView::Num(1)] + module_key(m@),
        DependencyTarget::InstalledDistribution {
            import_module,
            distribution_name,
            distribution_display_name,
            version,
        } => seq![AtomView::Num(2)] + module_key(import_module@) + seq![
            AtomView::Text(distribution_name@),
            AtomView::Text(distribution_display_name@),
        ] + opt_text_key(version),
        DependencyTarget::SystemHeader { language, name } => seq![
            AtomView::Num(3),
            AtomView::Text(language@),
            AtomView::Text(name@),
        ],
        DependencyTarget::ExternalHeader { language, name } => seq![
            AtomView::Num(4),
            AtomView::Text(language@),
            AtomView::Text(name@),
        ],
    }
}

/// Key of a list: each element behind a 1, then a closing 0.
pub open spec fn targets_body(ts: Seq<DependencyTarget>) -> Seq<AtomView>
    decreases ts.len(),
{
    if ts.len() == 0 {
        Seq::empty()
    } else {
        targets_body(ts.drop_last()) + seq![AtomView::Num(1)] + target_key(ts.last())
    }
}

pub open spec fn targets_key(ts: Seq<DependencyTarget>) -> Seq<AtomView> {
    targets_body(ts) + seq![AtomView::Num(0)]
}

pub open spec fn reasons_body(rs: Seq<UnresolvedDependencyReason>) -> Seq<AtomView>
    decreases rs.len(),
{
    if rs.len() == 0 {
        Seq::empty()
    } else {
        reasons_body(rs.drop_last()) + seq![AtomView::Num(1), AtomView::Num(reason_rank(rs.last()) as int)]
    }
}

pub open spec fn reasons_key(rs: Seq<UnresolvedDependencyReason>) -> Seq<AtomView> {
    reasons_body(rs) + seq![AtomView::Num(0)]
}

pub fn push_reasons_key(out: &mut Vec<KeyAtom>, rs: &Vec<UnresolvedDependencyReason>)
    ensures
        key_view(final(out)@) == key_view(old(out)@) + reasons_key(rs@),
{
    let ghost before = key_view(out@);
    let mut i: usize = 0;
    while i < rs.len()
        invariant
            i <= rs.len(),
            key_view(out@) == before + reasons_body(rs@.take(i as int)),
        decreases rs.len() - i,
    {
        push_num_atom(out, 1);
        push_num_atom(out, rs[i].rank());
        assert(rs@.take(i + 1).drop_last() =~= rs@.take(i as int));
        i = i + 1;
        assert(key_view(out@) =~= before + reasons_body(rs@.take(i as int)));
    }
    assert(rs@.take(rs.len() as int) =~= rs@);
    push_num_atom(out, 0);
    assert(key_view(out@) =~= before + reasons_key(rs@));
}

impl DependencyTarget {
    pub fn kind(&self) -> (r: DependencyTargetKind)
        ensures
            r == match self {
                DependencyTarget::LocalModule(_) => DependencyTargetKind::LocalModule,
                DependencyTarget::StandardLibrary(_) => DependencyTargetKind::StandardLibrary,
                DependencyTarget::InstalledDistribution { .. } => DependencyTargetKind::InstalledDistribution,
                DependencyTarget::SystemHeader { .. } => DependencyTargetKind::SystemHeader,
                DependencyTarget::ExternalHeader { .. } => DependencyTargetKind::ExternalHeader,
            },
    {
        match self {
            DependencyTarget::LocalModule(_) => DependencyTargetKind::LocalModule,
            DependencyTarget::StandardLibrary(_) => DependencyTargetKind::StandardLibrary,
            DependencyTarget::InstalledDistribution { .. } => DependencyTargetKind::InstalledDistribution,
            DependencyTarget::SystemHeader { .. } => DependencyTargetKind::SystemHeader,
            DependencyTarget::ExternalHeader { .. } => DependencyTargetKind::ExternalHeader,
        }
    }

    pub fn copy(&self) -> (r: DependencyTarget)
        ensures
            target_key(r) == target_key(*self),
    {
        match self {
            DependencyTarget::LocalModule(m) => DependencyTarget::LocalModule(m.copy()),
            DependencyTarget::StandardLibrary(m) => DependencyTarget::StandardLibrary(m.copy()),
            DependencyTarget::InstalledDistribution {
                import_module,
                distribution_name,
                distribution_display_name,
                version,
            } => {
                let v = copy_opt_text(version);
                DependencyTarget::InstalledDistribution {
                    import_module: import_module.copy(),
                    distribution_name: copy_string(distribution_name),
                    distribution_display_name: copy_string(distribution_display_name),
                    version: v,
                }
            },
            DependencyTarget::SystemHeader { language, name } => DependencyTarget::SystemHeader {
                language: language.copy(),
                name: copy_string(name),
            },
            DependencyTarget::ExternalHeader { language, name } => DependencyTarget::ExternalHeader {
                language: language.copy(),
                name: copy_string(name),
            },
        }
    }

    pub fn push_key(&self, out: &mut Vec<KeyAtom>)
        ensures
            key_view(final(out)@) == key_view(old(out)@) + target_key(*self),
    {
        let ghost before = key_view(out@);
        match self {
            DependencyTarget::LocalModule(m) => {
                push_num_atom(out, 0);
                m.push_key(out);
            },
            DependencyTarget::StandardLibrary(m) => {
                push_num_atom(out, 1);
                m.push_key(out);
            },
            DependencyTarget::InstalledDistribution {
                import_module,
                distribution_name,
                distribution_display_name,
                version,
            } => {
                push_num_atom(out, 2);
                import_module.push_key(out);
                push_text_atom(out, distribution_name.as_str());
                push_text_atom(out, distribution_display_name.as_str());
                push_opt_text_key(out, version);
            },
            DependencyTarget::SystemHeader { language, name } => {
                push_num_atom(out, 3);
                push_text_atom(out, language.as_str());
                push_text_atom(out, name.as_str());
            },
            DependencyTarget::ExternalHeader { language, name } => {
                push_num_atom(out, 4);
                push_text_atom(out, language.as_str());
                push_text_atom(out, name.as_str());
            },
        }
        assert(key_view(out@) =~= before + target_key(*self));
    }

    /// The key of this target alone.
    pub fn key(&self) -> (k: Vec<KeyAtom>)
        ensures
            key_view(k@) == target_key(*self),
    {
        let mut k: Vec<KeyAtom> = Vec::new();
        self.push_key(&mut k);
        assert(key_view(k@) =~= Seq::<AtomView>::empty() + target_key(*self));
        k
    }
}

pub fn copy_opt_text(o: &Option<String>) -> (r: Option<String>)
    ensures
        opt_text_key(r) == opt_text_key(*o),
        r is Some <==> o is Some,
{
    match o {
        Some(s) => Some(copy_string(s)),
        None => None,
    }
}

pub fn push_targets_key(out: &mut Vec<KeyAtom>, ts: &Vec<DependencyTarget>)
    ensures
        key_view(final(out)@) == key_view(old(out)@) + targets_key(ts@),
{
    let ghost before = key_view(out@);
    let mut i: usize = 0;
    while i < ts.len()
        invariant
            i <= ts.len(),
            key_view(out@) == before + targets_body(ts@.take(i as int)),
        decreases ts.len() - i,
    {
        push_num_atom(out, 1);
        ts[i].push_key(out);
        assert(ts@.take(i + 1).drop_last() =~= ts@.take(i as int));
        i = i + 1;
        assert(key_view(out@) =~= before + targets_body(ts@.take(i as int)));
    }
    assert(ts@.take(ts.len() as int) =~= ts@);
    push_num_atom(out, 0);
    assert(key_view(out@) =~= before + targets_key(ts@));
}

/// The set of keys of a sequence of targets.
pub open spec fn target_keys(s: Seq<DependencyTarget>) -> Set<Seq<AtomView>> {
    Set::new(|k: Seq<AtomView>| exists|i: int| 0 <= i < s.len() && target_key(s[i]) == k)
}

/// Targets in strictly increasing key order (so no key occurs twice).
pub open spec fn strictly_sorted_targets(s: Seq<DependencyTarget>) -> bool {
    forall|i: int, j: int|
        0 <= i < j < s.len() ==> key_compare(target_key(s[i]), target_key(s[j])) == -1
}

/// `c` holds the targets of `src`, each key once, in increasing key order.
pub open spec fn canonical_targets(c: Seq<DependencyTarget>, src: Seq<DependencyTarget>) -> bool {
    strictly_sorted_targets(c) && target_keys(c) == target_keys(src)
}

proof fn lemma_canonical_from_order(
    targets: Seq<DependencyTarget>,
    keys: &Vec<Vec<KeyAtom>>,
    order: &Vec<usize>,
    out: Seq<DependencyTarget>,
)
    requires
        keys.len() == targets.len(),
        forall|j: int| 0 <= j < keys.len() ==> #[trigger] key_view(keys[j]@) == target_key(targets[j]),
        forall|i: int| 0 <= i < order.len() ==> #[trigger] order[i] < keys.len(),
        forall|i: int, j: int|
            0 <= i < j < order.len() ==> key_compare(
                keys_view(keys@)[order[i] as int],
                keys_view(keys@)[order[j] as int],
            ) == -1,
        forall|k: int| 0 <= k < keys.len() ==> #[trigger] covers_key(keys_view(keys@), order@, k),
        out.len() == order.len(),
        forall|j: int| 0 <= j < out.len() ==> #[trigger] target_key(out[j]) == target_key(targets[order[j] as int]),
    ensures
        canonical_targets(out, targets),
{
    let kv = keys_view(keys@);
    assert forall|j: int| 0 <= j < keys.len() implies #[trigger] kv[j] == target_key(targets[j]) by {
        assert(kv[j] == key_view(keys[j]@));
    }
    assert forall|i: int, j: int| 0 <= i < j < out.len() implies key_compare(
        target_key(out[i]),
        target_key(out[j]),
    ) == -1 by {
        assert(kv[order[i] as int] == target_key(targets[order[i] as int]));
        assert(kv[order[j] as int] == target_key(targets[order[j] as int]));
    }
    assert forall|key: Seq<AtomView>| target_keys(out).contains(key) <==> target_keys(targets).contains(key) by {
        if target_keys(out).contains(key) {
            let i = choose|i: int| 0 <= i < out.len() && target_key(out[i]) == key;
            assert(target_key(out[i]) == target_key(targets[order[i] as int]));
        }
        if target_keys(targets).contains(key) {
            let k = choose|k: int| 0 <= k < targets.len() && target_key(targets[k]) == key;
            assert(kv[k] == target_key(targets[k]));
            assert(covers_key(kv, order@, k));
            let i = choose|i: int| 0 <= i < order.len() && kv[order[i] as int] == kv[k];
            assert(kv[order[i] as int] == target_key(targets[order[i] as int]));
            assert(target_key(out[i]) == target_key(targets[order[i] as int]));
        }
    }
    assert(target_keys(out) =~= target_keys(targets));
}

/// The targets with distinct keys in increasing key order.
pub fn sorted_unique_targets(targets: &Vec<DependencyTarget>) -> (r: Vec<DependencyTarget>)
    ensures
        canonical_targets(r@, targets@),
{
    let mut keys: Vec<Vec<KeyAtom>> = Vec::new();
    let mut i: usize = 0;
    while i < targets.len()
        invariant
            i <= targets.len(),
            keys.len() == i,
            forall|j: int| 0 <= j < i ==> #[trigger] key_view(keys[j]@) == target_key(targets[j]),
        decreases targets.len() - i,
    {
        keys.push(targets[i].key());
        i = i + 1;
    }
    let order = unique_sorted_order(&keys);
    let mut out: Vec<DependencyTarget> = Vec::new();
    let mut p: usize = 0;
    while p < order.len()
        invariant
            p <= order.len(),
            out.len() == p,
            keys.len() == targets.len(),
            forall|j: int| 0 <= j < order.len() ==> #[trigger] order[j] < keys.len(),
            forall|j: int| 0 <= j < p ==> #[trigger] target_key(out[j]) == target_key(targets[order[j] as int]),
        decreases order.len() - p,
    {
        out.push(targets[order[p]].copy());
        p = p + 1;
    }
    proof {
        lemma_canonical_from_order(targets@, &keys, &order, out@);
    }
    out
}

/// `u` holds the reasons of `src`, each once, in declaration order.
pub open spec fn canonical_reasons(u: Seq<UnresolvedDependencyReason>, src: Seq<UnresolvedDependencyReason>) -> bool {
    &&& forall|i: int, j: int| 0 <= i < j < u.len() ==> reason_rank(u[i]) < reason_rank(u[j])
    &&& forall|x: UnresolvedDependencyReason| u.contains(x) <==> src.contains(x)
}

/// The reasons without repeats, in declaration order.
pub fn sorted_unique_reasons(reasons: &Vec<UnresolvedDependencyReason>) -> (r: Vec<UnresolvedDependencyReason>)
    ensures
        canonical_reasons(r@, reasons@),
{
    let mut out: Vec<UnresolvedDependencyReason> = Vec::new();
    let mut rank: u64 = 0;
    while rank < 9
        invariant
            rank <= 9,
            forall|i: int, j: int| 0 <= i < j < out.len() ==> reason_rank(out[i]) < reason_rank(out[j]),
            forall|i: int| 0 <= i < out.len() ==> reason_rank(#[trigger] out[i]) < rank,
            forall|x: UnresolvedDependencyReason| reason_rank(x) < rank ==> (out@.contains(x) <==> reasons@.contains(x)),
            forall|x: UnresolvedDependencyReason| out@.contains(x) ==> reason_rank(x) < rank,
        decreases 9 - rank,
    {
        let mut present = false;
        let mut k: usize = 0;
        let mut found: UnresolvedDependencyReason = UnresolvedDependencyReason::ModuleNotFound;
        while k < reasons.len()
            invariant
                k <= reasons.len(),
                present ==> reasons@.contains(found) && reason_rank(found) == rank,
                !present ==> forall|j: int| 0 <= j < k ==> reason_rank(#[trigger] reasons@[j]) != rank,
            decreases reasons.len() - k,
        {
            if !present && reasons[k].rank() == rank {
                present = true;
                found = reasons[k];
            }
            k = k + 1;
        }
        let ghost before = out@;
        if present {
            out.push(found);
        }
        proof {
            assert forall|x: UnresolvedDependencyReason| reason_rank(x) < rank + 1 implies (out@.contains(x) <==> reasons@.contains(x)) by {
                if reason_rank(x) == rank {
                    if reasons@.contains(x) {
                        let j = choose|j: int| 0 <= j < reasons.len() && reasons@[j] == x;
                        assert(reason_rank(reasons@[j]) == rank);
                        assert(present);
                        assert(found == x);
                        assert(out@[out.len() - 1] == x);
                    }
                    if out@.contains(x) {
                        let j = choose|j: int| 0 <= j < out.len() && out@[j] == x;
                        if j < before.len() {
                            assert(before[j] == x);
                        } else {
                            assert(x == found);
                        }
                    }
                } else {
                    if out@.contains(x) {
                        let j = choose|j: int| 0 <= j < out.len() && out@[j] == x;
                        if j < before.len() {
                            assert(before.contains(x));
                        } else {
                            assert(reason_rank(x) == rank);
                        }
                    }
                    if before.contains(x) {
                        let j = choose|j: int| 0 <= j < before.len() && before[j] == x;
                        assert(out@[j] == x);
                    }
                }
            }
            assert forall|x: UnresolvedDependencyReason| out@.contains(x) implies reason_rank(x) < rank + 1 by {
                let j = choose|j: int| 0 <= j < out.len() && out@[j] == x;
                if j < before.len() {
                    assert(before[j] == x);
                    assert(before.contains(x));
                }
            }
        }
        rank = rank + 1;
    }
    proof {
        assert forall|x: UnresolvedDependencyReason| reason_rank(x) < 9 by {}
    }
    out
}

/// The result of resolving one import.
#[derive(Debug)]
pub enum DependencyResolutionOutcome {
    Exact(DependencyTarget),
    Inferred { target: DependencyTarget, basis: InferredDependencyBasis },
    Ambiguous { requested: String, candidates: Vec<DependencyTarget> },
    Unresolved { requested: String, reason: UnresolvedDependencyReason },
    ContextDependent {
        requested: String,
        candidates: Vec<DependencyTarget>,
        unresolved_reasons: Vec<UnresolvedDependencyReason>,
    },
}

pub open spec fn outcome_kind_name(o: DependencyResolutionOutcome) -> Seq<char> {
    match o {
        DependencyResolutionOutcome::Exact(_) => "exact"@,
        DependencyResolutionOutcome::Inferred { .. } => "inferred"@,
        DependencyResolutionOutcome::Ambiguous { .. } => "ambiguous"@,
        DependencyResolutionOutcome::Unresolved { .. } => "unresolved"@,
        DependencyResolutionOutcome::ContextDependent { .. } => "context-dependent"@,
    }
}

impl DependencyResolutionOutcome {
    pub fn exact(target: DependencyTarget) -> (r: DependencyResolutionOutcome)
        ensures
            r == DependencyResolutionOutcome::Exact(target),
    {
        DependencyResolutionOutcome::Exact(target)
    }

    pub fn inferred(target: DependencyTarget, basis: InferredDependencyBasis) -> (r: DependencyResolutionOutcome)
        ensures
            r == (DependencyResolutionOutcome::Inferred { target, basis }),
    {
        DependencyResolutionOutcome::Inferred { target, basis }
    }

    /// An ambiguous outcome; the candidates are sorted and repeats dropped.
    pub fn ambiguous(requested: &str, candidates: Vec<DependencyTarget>) -> (r: DependencyResolutionOutcome)
        ensures
            r is Ambiguous,
            r->Ambiguous_requested@ == requested@,
            canonical_targets(r->Ambiguous_candidates@, candidates@),
    {
        let sorted = sorted_unique_targets(&candidates);
        DependencyResolutionOutcome::Ambiguous { requested: requested.to_owned(), candidates: sorted }
    }

    pub fn unresolved(requested: &str, reason: UnresolvedDependencyReason) -> (r: DependencyResolutionOutcome)
        ensures
            match r {
                DependencyResolutionOutcome::Unresolved { requested: q, reason: x } => q@ == requested@ && x == reason,
                _ => false,
            },
    {
        DependencyResolutionOutcome::Unresolved { requested: requested.to_owned(), reason }
    }

    /// An outcome that depends on context; candidates and reasons are sorted
    /// and repeats dropped.
    pub fn context_dependent(
        requested: &str,
        candidates: Vec<DependencyTarget>,
        unresolved_reasons: Vec<UnresolvedDependencyReason>,
    ) -> (r: DependencyResolutionOutcome)
        ensures
            r is ContextDependent,
            r->ContextDependent_requested@ == requested@,
            canonical_targets(r->ContextDependent_candidates@, candidates@),
            canonical_reasons(r->ContextDependent_unresolved_reasons@, unresolved_reasons@),
    {
        let sorted = sorted_unique_targets(&candidates);
        let reasons = sorted_unique_reasons(&unresolved_reasons);
        DependencyResolutionOutcome::ContextDependent {
            requested: requested.to_owned(),
            candidates: sorted,
            unresolved_reasons: reasons,
        }
    }

    pub fn is_exact(&self) -> (r: bool)
        ensures
            r == (self is Exact),
    {
        match self {
            DependencyResolutionOutcome::Exact(_) => true,
            _ => false,
        }
    }

    pub fn kind(&self) -> (r: &'static str)
        ensures
            r@ == outcome_kind_name(*self),
    {
        match self {
            DependencyResolutionOutcome::Exact(_) => "exact",
            DependencyResolutionOutcome::Inferred { .. } => "inferred",
            DependencyResolutionOutcome::Ambiguous { .. } => "ambiguous",
            DependencyResolutionOutcome::Unresolved { .. } => "unresolved",
            DependencyResolutionOutcome::ContextDependent { .. } => "context-dependent",
        }
    }
}

/// The project-resolution result for one import reference.
#[derive(Debug)]
pub struct ProjectDependencyResolution {
    pub source_path: String,
    pub source_module: ModuleId,
    pub reference: DependencyReference,
    pub outcome: DependencyResolutionOutcome,
}

impl ProjectDependencyResolution {
    pub fn new(
        source_path: &str,
        source_module: ModuleId,
        reference: DependencyReference,
        outcome: DependencyResolutionOutcome,
    ) -> (r: ProjectDependencyResolution)
        ensures
            r.source_path@ == source_path@,
            r.source_module == source_module,
            r.reference == reference,
            r.outcome == outcome,
    {
        ProjectDependencyResolution { source_path: source_path.to_owned(), source_module, reference, outcome }
    }
}

} // verus!
