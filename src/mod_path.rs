//! Path vocabulary and the stack of module segments that candidate locations are computed from.
#![allow(deprecated)]

use os_str_bytes::OsStringBytes;
use std::path::PathBuf;
use vstd::prelude::*;

verus! {

// ---------------------------------------------------------------------------------------------
// Locations are byte strings: the raw bytes of a platform path.
// ---------------------------------------------------------------------------------------------

/// Whether `OsStringBytes::from_raw_vec` accepts the bytes as the encoding of a platform path.
pub uninterp spec fn encodes_path(p: Seq<u8>) -> bool;

/// The bytes `OsStringBytes::into_raw_vec` gives for the path a string names.
pub uninterp spec fn str_location(s: Seq<char>) -> Seq<u8>;

/// What `PathBuf::pop` leaves of a location: its parent, or the location itself when it has none.
pub uninterp spec fn parent_of(p: Seq<u8>) -> Seq<u8>;

/// What `Path::join` returns for a base and a relative part.
pub uninterp spec fn joined_with(base: Seq<u8>, rel: Seq<u8>) -> Seq<u8>;

/// What `Path::file_name` returns for a location.
pub uninterp spec fn file_name_of(p: Seq<u8>) -> Option<Seq<u8>>;

/// What `Path::file_stem` returns for a location.
pub uninterp spec fn file_stem_of(p: Seq<u8>) -> Option<Seq<u8>>;

/// What `Path::with_extension` returns for a location and the extension `rs`.
pub uninterp spec fn with_source_extension(p: Seq<u8>) -> Seq<u8>;

/// Relies on `OsStringBytes::from_raw_vec`: whether the bytes encode a platform path.
#[verifier::external_body]
pub(crate) fn location_encodes(p: &Vec<u8>) -> (r: bool)
    ensures
        r == encodes_path(p@),
{
    PathBuf::from_raw_vec(p.clone()).is_ok()
}

/// Relies on `OsStringBytes::into_raw_vec`: the bytes of the path a string names, which
/// `from_raw_vec` accepts back.
#[verifier::external_body]
pub(crate) fn string_location(s: &str) -> (r: Vec<u8>)
    ensures
        r@ == str_location(s@),
        encodes_path(r@),
{
    PathBuf::from(s).into_raw_vec()
}

/// Relies on `PathBuf::pop`, with `os_str_bytes` converting between bytes and paths.
#[verifier::external_body]
fn path_parent(p: &Vec<u8>) -> (r: Vec<u8>)
    requires
        encodes_path(p@),
    ensures
        r@ == parent_of(p@),
        encodes_path(r@),
{
    let mut buf = PathBuf::assert_from_raw_vec(p.clone());
    buf.pop();
    buf.into_raw_vec()
}

/// Relies on `Path::join`, with `os_str_bytes` converting between bytes and paths.
#[verifier::external_body]
fn path_join(base: &Vec<u8>, rel: &Vec<u8>) -> (r: Vec<u8>)
    requires
        encodes_path(base@),
        encodes_path(rel@),
    ensures
        r@ == joined_with(base@, rel@),
        encodes_path(r@),
{
    let base = PathBuf::assert_from_raw_vec(base.clone());
    let rel = PathBuf::assert_from_raw_vec(rel.clone());
    base.join(rel).into_raw_vec()
}

/// Relies on `Path::file_name`, with `os_str_bytes` converting between bytes and paths.
#[verifier::external_body]
fn path_file_name(p: &Vec<u8>) -> (r: Option<Vec<u8>>)
    requires
        encodes_path(p@),
    ensures
        r matches Some(n) ==> file_name_of(p@) == Some(n@) && encodes_path(n@),
        r is None ==> file_name_of(p@) is None,
{
    let buf = PathBuf::assert_from_raw_vec(p.clone());
    buf.file_name().map(|n| PathBuf::from(n).into_raw_vec())
}

/// Relies on `Path::file_stem`, with `os_str_bytes` converting between bytes and paths.
#[verifier::external_body]
fn path_file_stem(p: &Vec<u8>) -> (r: Option<Vec<u8>>)
    requires
        encodes_path(p@),
    ensures
        r matches Some(n) ==> file_stem_of(p@) == Some(n@) && encodes_path(n@),
        r is None ==> file_stem_of(p@) is None,
{
    let buf = PathBuf::assert_from_raw_vec(p.clone());
    buf.file_stem().map(|n| PathBuf::from(n).into_raw_vec())
}

/// Relies on `Path::with_extension` with the extension `rs`, with `os_str_bytes` converting
/// between bytes and paths.
#[verifier::external_body]
fn path_with_source_extension(p: &Vec<u8>) -> (r: Vec<u8>)
    requires
        encodes_path(p@),
    ensures
        r@ == with_source_extension(p@),
        encodes_path(r@),
{
    let buf = PathBuf::assert_from_raw_vec(p.clone());
    buf.with_extension("rs").into_raw_vec()
}

/// The byte strings held by a list of locations.
pub open spec fn views_of(v: Seq<Vec<u8>>) -> Seq<Seq<u8>> {
    v.map_values(|b: Vec<u8>| b@)
}

/// The file name `mod.rs`, which marks a file whose directory holds its children.
pub open spec fn mod_file_name() -> Seq<u8> {
    str_location("mod.rs"@)
}

fn mod_file_name_bytes() -> (r: Vec<u8>)
    ensures
        r@ == mod_file_name(),
        encodes_path(r@),
{
    string_location("mod.rs")
}

/// Compares two byte strings.
pub fn bytes_equal(a: &[u8], b: &[u8]) -> (r: bool)
    ensures
        r == (a@ == b@),
{
    if a.len() != b.len() {
        return false;
    }
    let mut i: usize = 0;
    while i < a.len()
        invariant
            a@.len() == b@.len(),
            i <= a@.len(),
            forall|j: int| 0 <= j < i ==> a@[j] == b@[j],
        decreases a@.len() - i,
    {
        if a[i] != b[i] {
            return false;
        }
        i = i + 1;
    }
    assert(a@ =~= b@);
    true
}

/// A file whose directory is the base for its children by its name alone (`mod.rs`).
pub open spec fn marks_implicit_root(p: Seq<u8>) -> bool {
    file_name_of(p) == Some(mod_file_name())
}

/// A file whose children resolve in its own directory: the entry point of a walk, or a
/// `mod.rs` file.
pub open spec fn is_root_like(p: Seq<u8>, root: bool) -> bool {
    root || marks_implicit_root(p)
}

/// Checks whether `path` names a `mod.rs` file.
pub fn is_mod_file(path: &Vec<u8>) -> (r: bool)
    requires
        encodes_path(path@),
    ensures
        r == marks_implicit_root(path@),
{
    match path_file_name(path) {
        Some(name) => {
            let m = mod_file_name_bytes();
            bytes_equal(name.as_slice(), m.as_slice())
        },
        None => false,
    }
}

// ---------------------------------------------------------------------------------------------
// Segments and the resolution context
// ---------------------------------------------------------------------------------------------

/// One step of a module path: the module's name, or the explicit path given for it.
#[derive(Clone, Debug, PartialEq, Eq)]
pub enum ModSegment {
    Ident(String),
    Path(String),
}

/// The relative location that one segment contributes.
pub open spec fn segment_location(s: ModSegment) -> Seq<u8> {
    match s {
        ModSegment::Ident(name) => str_location(name@),
        ModSegment::Path(p) => str_location(p@),
    }
}

impl ModSegment {
    /// Checks if the segment was taken from the module's name.
    pub fn is_ident(&self) -> (r: bool)
        ensures
            r == (*self is Ident),
    {
        match self {
            ModSegment::Ident(_) => true,
            ModSegment::Path(_) => false,
        }
    }

    /// Checks if the segment was taken from an explicit path.
    pub fn is_path(&self) -> (r: bool)
        ensures
            r == (*self is Path),
    {
        !self.is_ident()
    }

    /// The relative location this segment contributes.
    pub fn location(&self) -> (r: Vec<u8>)
        ensures
            r@ == segment_location(*self),
            encodes_path(r@),
    {
        match self {
            ModSegment::Ident(name) => string_location(name.as_str()),
            ModSegment::Path(p) => string_location(p.as_str()),
        }
    }
}

/// The segments joined in order into one relative location: each one is pushed onto what
/// the earlier ones made.
pub open spec fn joined_segments(segs: Seq<ModSegment>) -> Seq<u8>
    decreases segs.len(),
{
    if segs.len() == 0 {
        str_location(""@)
    } else {
        joined_with(joined_segments(segs.drop_last()), segment_location(segs.last()))
    }
}

/// The relative locations a context may resolve to, in the order they are tried.
pub open spec fn relative_locations(segs: Seq<ModSegment>) -> Seq<Seq<u8>> {
    let rel = joined_segments(segs);
    if segs.len() > 0 && segs.last() is Ident {
        seq![with_source_extension(rel), joined_with(rel, mod_file_name())]
    } else {
        seq![rel]
    }
}

/// The directory that a file's children resolve in.
pub open spec fn base_directory(base: Seq<u8>, root: bool) -> Seq<u8> {
    let parent = parent_of(base);
    if is_root_like(base, root) {
        parent
    } else {
        match file_stem_of(base) {
            Some(stem) => joined_with(parent, stem),
            None => parent,
        }
    }
}

/// The candidate locations of the module a context names, relative to the file it is
/// declared in, in the order they are tried.
pub open spec fn candidate_locations(segs: Seq<ModSegment>, base: Seq<u8>, root: bool) -> Seq<
    Seq<u8>,
> {
    let dir = base_directory(base, root);
    relative_locations(segs).map_values(|rel: Seq<u8>| joined_with(dir, rel))
}

/// The current module path, from the file root to the declaration being expanded.
#[derive(Clone, Debug)]
pub struct ModContext(Vec<ModSegment>);

impl Default for ModContext {
    fn default() -> (r: Self)
        ensures
            r@ == Seq::<ModSegment>::empty(),
    {
        ModContext::new()
    }
}

impl View for ModContext {
    type V = Seq<ModSegment>;

    closed spec fn view(&self) -> Seq<ModSegment> {
        self.0@
    }
}

impl From<Vec<ModSegment>> for ModContext {
    fn from(segments: Vec<ModSegment>) -> (r: Self)
        ensures
            r@ == segments@,
    {
        ModContext(segments)
    }
}

impl vstd::std_specs::convert::FromSpecImpl<Vec<ModSegment>> for ModContext {
    open spec fn obeys_from_spec() -> bool {
        true
    }

    closed spec fn from_spec(v: Vec<ModSegment>) -> Self {
        ModContext(v)
    }
}

impl ModContext {
    /// An empty context.
    pub fn new() -> (r: Self)
        ensures
            r@ == Seq::<ModSegment>::empty(),
    {
        ModContext(Vec::new())
    }

    pub fn push(&mut self, value: ModSegment)
        ensures
            final(self)@ == old(self)@.push(value),
    {
        self.0.push(value);
    }

    pub fn pop(&mut self) -> (r: Option<ModSegment>)
        ensures
            old(self)@.len() == 0 ==> r is None && final(self)@ == old(self)@,
            old(self)@.len() > 0 ==> r == Some(old(self)@.last()) && final(self)@
                == old(self)@.drop_last(),
    {
        self.0.pop()
    }

    /// Checks if the last segment was taken from a module's name rather than from an
    /// explicit path.
    fn is_last_ident(&self) -> (r: bool)
        ensures
            r == (self@.len() > 0 && self@.last() is Ident),
    {
        if self.0.len() == 0 {
            false
        } else {
            self.0[self.0.len() - 1].is_ident()
        }
    }

    /// The relative locations this context may resolve to, in the order they are tried.
    fn to_path_bufs(&self) -> (r: Vec<Vec<u8>>)
        ensures
            forall|j: int| 0 <= j < r@.len() ==> encodes_path(#[trigger] r@[j]@),
            views_of(r@) == relative_locations(self@),
    {
        let mut buf: Vec<u8> = string_location("");
        let mut i: usize = 0;
        assert(self@.take(0) =~= Seq::<ModSegment>::empty());
        while i < self.0.len()
            invariant
                i <= self@.len(),
                buf@ == joined_segments(self@.take(i as int)),
                encodes_path(buf@),
            decreases self@.len() - i,
        {
            let part = self.0[i].location();
            buf = path_join(&buf, &part);
            assert(self@.take(i + 1).drop_last() =~= self@.take(i as int));
            i = i + 1;
        }
        assert(self@.take(self@.len() as int) =~= self@);
        if !self.is_last_ident() {
            let r = vec![buf];
            assert(views_of(r@) =~= relative_locations(self@));
            return r;
        }
        let inline = path_with_source_extension(&buf);
        let marker = mod_file_name_bytes();
        let nested = path_join(&buf, &marker);
        let r = vec![inline, nested];
        assert(views_of(r@) =~= relative_locations(self@));
        r
    }

    /// The places a module's source may be found relative to the file `base`, in the order
    /// they are tried. `root` tells whether `base` is the entry point of the walk.
    pub fn relative_to(&self, base: &Vec<u8>, root: bool) -> (r: Vec<Vec<u8>>)
        requires
            self@.len() > 0,
            encodes_path(base@),
        ensures
            forall|j: int| 0 <= j < r@.len() ==> encodes_path(#[trigger] r@[j]@),
            views_of(r@) == candidate_locations(self@, base@, root),
            r@.len() >= 1,
    {
        let mut dir = path_parent(base);
        if !(root || is_mod_file(base)) {
            match path_file_stem(base) {
                Some(stem) => {
                    dir = path_join(&dir, &stem);
                },
                None => {},
            }
        }
        let ends = self.to_path_bufs();
        let mut r: Vec<Vec<u8>> = Vec::new();
        let mut i: usize = 0;
        while i < ends.len()
            invariant
                i <= ends@.len(),
                dir@ == base_directory(base@, root),
                encodes_path(dir@),
                forall|j: int| 0 <= j < ends@.len() ==> encodes_path(#[trigger] ends@[j]@),
                forall|j: int| 0 <= j < i ==> encodes_path(#[trigger] r@[j]@),
                views_of(ends@) == relative_locations(self@),
                r@.len() == i,
                forall|j: int| 0 <= j < i ==> #[trigger] r@[j]@ == joined_with(dir@, ends@[j]@),
            decreases ends@.len() - i,
        {
            let c = path_join(&dir, &ends[i]);
            r.push(c);
            i = i + 1;
        }
        assert(views_of(r@) =~= candidate_locations(self@, base@, root));
        r
    }
}

/// A context with at least one segment always yields at least one candidate location.
pub proof fn lemma_candidates_non_empty(segs: Seq<ModSegment>, base: Seq<u8>, root: bool)
    requires
        segs.len() > 0,
    ensures
        candidate_locations(segs, base, root).len() >= 1,
{
}

/// When the last segment is a module name, the single-file form `dir/path.rs` comes before
/// the directory form `dir/path/mod.rs`, and nothing else is tried.
pub proof fn lemma_file_before_directory(segs: Seq<ModSegment>, base: Seq<u8>, root: bool)
    requires
        segs.len() > 0,
        segs.last() is Ident,
    ensures
        ({
            let dir = base_directory(base, root);
            let rel = joined_segments(segs);
            candidate_locations(segs, base, root) == seq![
                joined_with(dir, with_source_extension(rel)),
                joined_with(dir, joined_with(rel, mod_file_name())),
            ]
        }),
{
    let dir = base_directory(base, root);
    let rel = joined_segments(segs);
    assert(candidate_locations(segs, base, root) =~= seq![
        joined_with(dir, with_source_extension(rel)),
        joined_with(dir, joined_with(rel, mod_file_name())),
    ]);
}

/// When the last segment is an explicit path, exactly one candidate is produced: the base
/// directory joined with the joined path, with no extension put on it.
pub proof fn lemma_explicit_path_exclusive(segs: Seq<ModSegment>, base: Seq<u8>, root: bool)
    requires
        segs.len() > 0,
        segs.last() is Path,
    ensures
        candidate_locations(segs, base, root) == seq![
            joined_with(base_directory(base, root), joined_segments(segs)),
        ],
{
    assert(candidate_locations(segs, base, root) =~= seq![
        joined_with(base_directory(base, root), joined_segments(segs)),
    ]);
}

} // verus!
