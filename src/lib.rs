//! Flattens a source tree whose modules are declared by name or by explicit path into a
//! single syntax tree, as if every module had been written inline.

pub mod mod_path;
pub mod resolver;
pub mod syntax;
pub mod visitor;

pub use mod_path::{is_mod_file, ModContext, ModSegment};
pub use resolver::{FileResolver, TestResolver};
pub use syntax::{Attr, ModDecl, Node, SourceFile};
pub use visitor::Visitor;

use proc_macro2::Span;
use mod_path::{encodes_path, location_encodes};
use syntax::items_fresh;
use visitor::MAX_FILE_NESTING;
use visitor::{
    error_names, failures, loaded_attrs, located, node_expanded, nodes_expanded, probe_trace,
    records_fit, unresolved, walk_probes,
};
use vstd::prelude::*;
use vstd::slice::slice_subrange;

verus! {

/// An error met while reading, parsing or inlining a module.
///
/// Only an error on the file a walk starts from is fatal; an error on a nested module is
/// recorded and the walk goes on.
#[derive(Debug)]
pub enum LoadError {
    /// The file could not be opened or read.
    Io(std::io::Error),
    /// The file could not be parsed.
    Parse(syn::Error),
    /// Files were nested deeper than a walk follows, which is what a module that includes
    /// itself leads to.
    NestingLimit,
    /// The location's bytes do not encode a path on this platform.
    InvalidPath,
}

impl LoadError {
    /// A short description of the kind of error.
    pub fn to_string(&self) -> (r: String)
        ensures
            self is Io ==> r@ == "IO error"@,
            self is Parse ==> r@ == "parse error"@,
            self is NestingLimit ==> r@ == "nesting limit reached"@,
            self is InvalidPath ==> r@ == "invalid path"@,
    {
        match self {
            LoadError::Io(_) => "IO error".to_owned(),
            LoadError::Parse(_) => "parse error".to_owned(),
            LoadError::NestingLimit => "nesting limit reached".to_owned(),
            LoadError::InvalidPath => "invalid path".to_owned(),
        }
    }
}

/// What a record of a failed inlining holds, as plain values.
pub ghost struct InlineErrorView {
    pub src_path: Seq<u8>,
    pub module_name: Seq<char>,
    pub path: Seq<u8>,
}

/// An error that happened while trying to inline one module.
pub struct InlineError {
    src_path: Vec<u8>,
    module_name: String,
    src_span: Span,
    path: Vec<u8>,
    kind: LoadError,
}

impl View for InlineError {
    type V = InlineErrorView;

    closed spec fn view(&self) -> InlineErrorView {
        InlineErrorView {
            src_path: self.src_path@,
            module_name: self.module_name@,
            path: self.path@,
        }
    }
}

impl InlineError {
    /// The error that `kind` caused for the declaration `decl` in the file `src_path`, whose
    /// body was looked for at `path`.
    pub fn new(src_path: &Vec<u8>, decl: &ModDecl, path: &Vec<u8>, kind: LoadError) -> (r: Self)
        ensures
            r@ == (InlineErrorView {
                src_path: src_path@,
                module_name: decl.ident@,
                path: path@,
            }),
            r.spec_kind() == kind,
            r.spec_span() == decl.span,
    {
        InlineError {
            src_path: src_path.clone(),
            module_name: decl.ident.clone(),
            src_span: decl.span,
            path: path.clone(),
            kind,
        }
    }

    pub closed spec fn spec_kind(&self) -> LoadError {
        self.kind
    }

    pub closed spec fn spec_span(&self) -> Span {
        self.src_span
    }

    /// The file the error comes from: it parsed, and it declared the module.
    pub fn src_path(&self) -> (r: &[u8])
        ensures
            r@ == self@.src_path,
    {
        self.src_path.as_slice()
    }

    /// The name of the module that could not be inlined.
    pub fn module_name(&self) -> (r: &str)
        ensures
            r@ == self@.module_name,
    {
        self.module_name.as_str()
    }

    /// The span, in the source file, of the declaration that caused `path` to be read.
    pub fn src_span(&self) -> (r: Span)
        ensures
            r == self.spec_span(),
    {
        self.src_span
    }

    /// The location where the error happened.
    pub fn path(&self) -> (r: &[u8])
        ensures
            r@ == self@.path,
    {
        self.path.as_slice()
    }

    /// Why the module could not be inlined.
    pub fn kind(&self) -> (r: &LoadError)
        ensures
            *r == self.spec_kind(),
    {
        &self.kind
    }
}

/// The position of the first provenance marker among `attrs[i..]`.
pub open spec fn marker_from(attrs: Seq<Attr>, i: int) -> Option<int>
    decreases attrs.len() - i,
{
    if i < 0 || i >= attrs.len() {
        None
    } else if attrs[i].mod_path is Some {
        Some(i)
    } else {
        marker_from(attrs, i + 1)
    }
}

/// The position of the first provenance marker in `attrs`.
pub open spec fn marker_position(attrs: Seq<Attr>) -> Option<int> {
    marker_from(attrs, 0)
}

proof fn lemma_marker_skip(a: Seq<Attr>, b: Seq<Attr>, i: int)
    requires
        0 <= i <= a.len() <= b.len(),
        b.subrange(0, a.len() as int) == a,
        marker_from(a, i) is None,
    ensures
        marker_from(b, i) == marker_from(b, a.len() as int),
    decreases a.len() - i,
{
    if i < a.len() {
        assert(b[i] == b.subrange(0, a.len() as int)[i]);
        lemma_marker_skip(a, b, i + 1);
    }
}

/// Provenance round trip: when markers are asked for, a module that the walk inlined from
/// a file carries, as its first marker, exactly the location it was loaded from, provided
/// its declaration carried no marker of its own. `find_mod_path` therefore reads that
/// location back byte for byte.
pub proof fn lemma_provenance_round_trip(
    m: ModDecl,
    n: ModDecl,
    ctx: Seq<ModSegment>,
    base: Seq<u8>,
    root: bool,
    depth: nat,
)
    requires
        node_expanded(Node::Mod(m), Node::Mod(n), ctx, base, root, true, depth),
        m.content is None,
        n.content is Some,
        marker_position(m.attrs@) is None,
    ensures
        n.location matches Some(p) && {
            &&& marker_position(n.attrs@) == Some(m.attrs@.len() as int)
            &&& n.attrs@[m.attrs@.len() as int].mod_path matches Some(b) && b@ == p@
        },
{
    let p = n.location->0;
    assert(loaded_attrs(m.attrs@, n.attrs@, p@, true));
    lemma_marker_skip(m.attrs@, n.attrs@, 0);
}

/// A module's recorded location, split out of its attributes by `find_mod_path`.
pub struct InlineModPath<'a> {
    /// The location the module was loaded from, as it was given to the walk.
    pub path: Vec<u8>,
    /// The attributes before the marker: those written where the module was declared.
    pub outer_attributes: &'a [Attr],
    /// The attributes after the marker: the inner attributes of the loaded file.
    pub inner_attributes: &'a [Attr],
}

/// Finds the first provenance marker in the attributes of an inlined module and returns
/// the location it records, with the attributes before and after it.
pub fn find_mod_path<'a>(attrs: &'a [Attr]) -> (r: Option<InlineModPath<'a>>)
    ensures
        match marker_position(attrs@) {
            None => r is None,
            Some(k) => r matches Some(found) && {
                &&& attrs@[k].mod_path matches Some(b) && found.path@ == b@
                &&& found.outer_attributes@ == attrs@.subrange(0, k)
                &&& found.inner_attributes@ == attrs@.subrange(k + 1, attrs@.len() as int)
            },
        },
{
    let mut i: usize = 0;
    while i < attrs.len()
        invariant
            i <= attrs@.len(),
            marker_position(attrs@) == marker_from(attrs@, i as int),
        decreases attrs@.len() - i,
    {
        match &attrs[i].mod_path {
            Some(b) => {
                let path = b.clone();
                assert(path@ =~= b@);
                return Some(
                    InlineModPath {
                        path,
                        outer_attributes: slice_subrange(attrs, 0, i),
                        inner_attributes: slice_subrange(attrs, i + 1, attrs.len()),
                    },
                );
            },
            None => {},
        }
        i = i + 1;
    }
    None
}

/// Configures how modules are inlined.
pub struct InlinerBuilder {
    root: bool,
    annotate_paths: bool,
}

impl Default for InlinerBuilder {
    fn default() -> (r: Self)
        ensures
            r.is_root() && !r.annotates(),
    {
        InlinerBuilder { root: true, annotate_paths: false }
    }
}

impl InlinerBuilder {
    pub closed spec fn is_root(&self) -> bool {
        self.root
    }

    pub closed spec fn annotates(&self) -> bool {
        self.annotate_paths
    }

    /// A builder with the default options: the file is a root, and no markers are added.
    pub fn new() -> (r: Self)
        ensures
            r.is_root() && !r.annotates(),
    {
        InlinerBuilder { root: true, annotate_paths: false }
    }

    /// Sets whether the file a walk starts from is a root: one handed to the compiler
    /// directly, rather than one included through a `mod` item. Default: `true`.
    pub fn root(&mut self, root: bool)
        ensures
            final(self).is_root() == root,
            final(self).annotates() == old(self).annotates(),
    {
        self.root = root;
    }

    /// Sets whether each inlined module gets a marker `#[syn_inline_mod_path(b"...")]`
    /// recording the location it was loaded from, which `find_mod_path` reads back.
    /// Default: `false`.
    pub fn annotate_paths(&mut self, annotate: bool)
        ensures
            final(self).annotates() == annotate,
            final(self).is_root() == old(self).is_root(),
    {
        self.annotate_paths = annotate;
    }

    /// Loads the file at `src_file` through `resolver` and inlines every module it declares,
    /// recursively.
    ///
    /// Fails only when `src_file` itself cannot be loaded: with `InvalidPath` when its bytes
    /// encode no path, else with the resolver's own error (see `inline_loaded`). Every module
    /// that could not be inlined is left as a forward declaration and listed in the result's
    /// errors.
    pub fn inline_with_resolver<R: FileResolver>(
        &self,
        src_file: &Vec<u8>,
        resolver: &mut R,
    ) -> (r: Result<InliningResult, LoadError>)
        ensures
            !encodes_path(src_file@) ==> (r matches Err(LoadError::InvalidPath)),
            r matches Ok(res) ==> {
                &&& inlined_from(res, src_file@, self.is_root(), self.annotates())
                &&& res.spec_loads() == seq![(src_file@, true)] + located(
                    res.spec_output().items@,
                )
            },
    {
        if !location_encodes(src_file) {
            return Err(LoadError::InvalidPath);
        }
        let loaded = match resolver.resolve(src_file) {
            Ok(syntax) => Ok(SourceFile::from_syn(syntax)),
            Err(e) => Err(e),
        };
        match self.inline_loaded(src_file, loaded, resolver) {
            Ok(res) => {
                let mut res = res;
                res.loads = Ghost(seq![(src_file@, true)] + res.loads@);
                Ok(res)
            },
            Err(e) => Err(e),
        }
    }

    /// Inlines every module declared by the file the resolver gave for `src_file`, or passes
    /// on the resolver's error: the result is `Err(e)` exactly when `loaded` is `Err(e)`.
    ///
    /// The output keeps the loaded file's shebang and inner attributes, and its items are
    /// the loaded ones, walked. The errors name, in order, the declarations left without a
    /// body. For a freshly read file, the result also records the locations handed to the
    /// resolver during the walk, each with whether it gave the declaration its body, and the
    /// existence checks made, each with its answer.
    pub fn inline_loaded<R: FileResolver>(
        &self,
        src_file: &Vec<u8>,
        loaded: Result<SourceFile, LoadError>,
        resolver: &mut R,
    ) -> (r: Result<InliningResult, LoadError>)
        requires
            encodes_path(src_file@),
        ensures
            loaded matches Err(e) ==> r == Err::<InliningResult, LoadError>(e),
            loaded matches Ok(f) ==> (r matches Ok(res) && {
                &&& res.spec_output().shebang == f.shebang
                &&& res.spec_output().attrs == f.attrs
                &&& nodes_expanded(
                    f.items@,
                    res.spec_output().items@,
                    Seq::empty(),
                    src_file@,
                    self.is_root(),
                    self.annotates(),
                    MAX_FILE_NESTING as nat,
                )
                &&& error_names(res.spec_errors()) == unresolved(res.spec_output().items@)
                &&& res.spec_paths_annotated() == self.annotates()
                &&& res.spec_probes() == walk_probes(f.items@, res.spec_output().items@)
                &&& items_fresh(f.items@) ==> {
                    &&& inlined_from(res, src_file@, self.is_root(), self.annotates())
                    &&& res.spec_loads() == located(res.spec_output().items@)
                }
            }),
    {
        let ghost loaded_view = loaded;
        let mut errors: Option<Vec<InlineError>> = Some(Vec::new());
        let mut visitor = Visitor::new(src_file, self.root, self.annotate_paths);
        let output = match visitor.visit_loaded(loaded, resolver, &mut errors) {
            Ok(f) => f,
            Err(e) => return Err(e),
        };
        let errors = match errors {
            Some(v) => v,
            None => Vec::new(),
        };
        proof {
            assert(errors@.subrange(0, 0) =~= Seq::<InlineError>::empty());
            assert(errors@.subrange(0, errors@.len() as int) =~= errors@);
            if loaded_view is Ok {
                assert(visitor.probes() =~= Seq::empty() + walk_probes(
                    loaded_view->Ok_0.items@,
                    output.items@,
                ));
            }
            if loaded_view is Ok && items_fresh(loaded_view->Ok_0.items@) {
                assert(visitor.loads() =~= Seq::empty() + located(output.items@));
                assert(visitor.probes() =~= Seq::empty() + probe_trace(output.items@));
            }
        }
        Ok(
            InliningResult {
                output,
                errors,
                paths_annotated: self.annotate_paths,
                loads: Ghost(visitor.loads()),
                probes: Ghost(visitor.probes()),
            },
        )
    }
}

/// `res` is a walk of a freshly read file at `src`: its output is the walked items, its
/// errors name, in order, the declarations left without a body, each record carrying the
/// file that declared it, its span, the location it was looked for at (or the nesting
/// limit as its kind when it was not sent to the resolver), it tells whether markers were
/// added, and the existence checks it records are those recorded on its declarations.
pub open spec fn inlined_from(res: InliningResult, src: Seq<u8>, root: bool, annotate: bool) -> bool {
    &&& exists|orig: Seq<Node>|
        #[trigger] items_fresh(orig) && nodes_expanded(
            orig,
            res.spec_output().items@,
            Seq::empty(),
            src,
            root,
            annotate,
            MAX_FILE_NESTING as nat,
        )
    &&& error_names(res.spec_errors()) == unresolved(res.spec_output().items@)
    &&& res.spec_paths_annotated() == annotate
    &&& res.spec_probes() == probe_trace(res.spec_output().items@)
    &&& records_fit(res.spec_errors(), failures(res.spec_output().items@, src))
}

/// The result of a best-effort inlining: the file a walk started from was loaded, but the
/// errors tell whether every module could be inlined.
pub struct InliningResult {
    output: SourceFile,
    errors: Vec<InlineError>,
    paths_annotated: bool,
    /// The locations handed to the resolver, in order, each with whether it gave a file.
    loads: Ghost<Seq<(Seq<u8>, bool)>>,
    /// The existence checks made during the walk, in order, each with its answer.
    probes: Ghost<Seq<(Seq<u8>, bool)>>,
}

impl InliningResult {
    pub closed spec fn spec_output(&self) -> SourceFile {
        self.output
    }

    pub closed spec fn spec_errors(&self) -> Seq<InlineError> {
        self.errors@
    }

    pub closed spec fn spec_paths_annotated(&self) -> bool {
        self.paths_annotated
    }

    /// The locations handed to the resolver, in order, each with whether it gave a file.
    pub closed spec fn spec_loads(&self) -> Seq<(Seq<u8>, bool)> {
        self.loads@
    }

    /// The existence checks made during the walk, in order, each with its answer.
    pub closed spec fn spec_probes(&self) -> Seq<(Seq<u8>, bool)> {
        self.probes@
    }

    /// The best-effort result of inlining.
    pub fn output(&self) -> (r: &SourceFile)
        ensures
            *r == self.spec_output(),
    {
        &self.output
    }

    /// The errors that kept the inlining from completing, in source order.
    pub fn errors(&self) -> (r: &[InlineError])
        ensures
            r@ == self.spec_errors(),
    {
        self.errors.as_slice()
    }

    /// Whether any module could not be inlined.
    pub fn has_errors(&self) -> (r: bool)
        ensures
            r == (self.spec_errors().len() > 0),
    {
        self.errors.len() > 0
    }

    /// Whether modules were marked with the location they were loaded from.
    pub fn paths_annotated(&self) -> (r: bool)
        ensures
            r == self.spec_paths_annotated(),
    {
        self.paths_annotated
    }

    /// Splits the result into the best-effort output and the errors.
    pub fn into_output_and_errors(self) -> (r: (SourceFile, Vec<InlineError>))
        ensures
            r.0 == self.spec_output(),
            r.1@ == self.spec_errors(),
    {
        (self.output, self.errors)
    }
}

} // verus!
