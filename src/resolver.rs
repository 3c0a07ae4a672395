//! Where the walk gets a module's source from.

use crate::syntax::SourceFile;
use crate::LoadError;
use vstd::prelude::*;
use crate::mod_path::{str_location, string_location};
use crate::syntax::parses_as_file;

verus! {

#[verifier::external_type_specification]
#[verifier::external_body]
pub struct ExIoError(std::io::Error);

/// Relies on `std::io::Error::new`: an error of kind `NotFound` carrying `message`.
#[verifier::external_body]
fn not_found_error(message: &str) -> std::io::Error {
    std::io::Error::new(std::io::ErrorKind::NotFound, message.to_owned())
}

/// Turns locations into parsed files.
pub trait FileResolver {
    /// Checks if `path` exists in the backing store.
    fn path_exists(&self, path: &Vec<u8>) -> bool;

    /// Loads the file at `path` and parses it, or says why it could not. Nothing is promised
    /// of the answer: it may depend on what is on disk.
    fn resolve(&mut self, path: &Vec<u8>) -> Result<syn::File, LoadError>;
}

/// A resolver over files held in memory, keyed by their locations.
pub struct TestResolver {
    files: Vec<(Vec<u8>, String)>,
}

/// The contents registered last for `path` among the first `n` entries.
pub open spec fn registered_upto(files: Seq<(Vec<u8>, String)>, path: Seq<u8>, n: int) -> Option<
    String,
>
    decreases n,
{
    if n <= 0 || n > files.len() {
        None
    } else if files[n - 1].0@ == path {
        Some(files[n - 1].1)
    } else {
        registered_upto(files, path, n - 1)
    }
}

proof fn lemma_registered_push(files: Seq<(Vec<u8>, String)>, e: (Vec<u8>, String), path: Seq<u8>, n: int)
    requires
        0 <= n <= files.len(),
    ensures
        registered_upto(files.push(e), path, n) == registered_upto(files, path, n),
    decreases n,
{
    if n > 0 {
        assert(files.push(e)[n - 1] == files[n - 1]);
        lemma_registered_push(files, e, path, n - 1);
    }
}

impl TestResolver {
    /// The contents registered for `path`, if any: a later registration replaces an
    /// earlier one.
    pub closed spec fn registered(&self, path: Seq<u8>) -> Option<String> {
        registered_upto(self.files@, path, self.files@.len() as int)
    }

    /// A resolver with no files.
    pub fn new() -> (r: Self)
        ensures
            forall|p: Seq<u8>| #[trigger] r.registered(p) is None,
    {
        TestResolver { files: Vec::new() }
    }

    /// Registers `contents` as the file at `path`, keyed by the same bytes a walk builds its
    /// candidate locations from.
    ///
    /// Entries are kept in a `Vec` searched from the end, not a `HashMap`: with `String`
    /// keys Verus proves nothing of a map's lookups, while this search is proved to give the
    /// last registration for a location.
    pub fn register(&mut self, path: &str, contents: &str)
        ensures
            final(self).registered(str_location(path@)) matches Some(s) && s@ == contents@,
            forall|p: Seq<u8>|
                p != str_location(path@) ==> #[trigger] final(self).registered(p) == old(
                    self,
                ).registered(p),
    {
        let key = string_location(path);
        let entry = (key, contents.to_owned());
        let ghost before = self.files@;
        self.files.push(entry);
        proof {
            assert forall|p: Seq<u8>| p != str_location(path@) implies #[trigger] self.registered(p)
                == registered_upto(before, p, before.len() as int) by {
                lemma_registered_push(before, entry, p, before.len() as int);
            }
        }
    }

    fn lookup(&self, path: &Vec<u8>) -> (r: Option<&String>)
        ensures
            r matches Some(s) ==> self.registered(path@) == Some(*s),
            r is None ==> self.registered(path@) is None,
    {
        let mut i = self.files.len();
        while i > 0
            invariant
                i <= self.files@.len(),
                self.registered(path@) == registered_upto(self.files@, path@, i as int),
            decreases i,
        {
            let entry = &self.files[i - 1];
            if crate::mod_path::bytes_equal(entry.0.as_slice(), path.as_slice()) {
                return Some(&entry.1);
            }
            i = i - 1;
        }
        None
    }
}

impl FileResolver for TestResolver {
    fn path_exists(&self, path: &Vec<u8>) -> (r: bool)
        ensures
            r == self.registered(path@) is Some,
    {
        self.lookup(path).is_some()
    }

    fn resolve(&mut self, path: &Vec<u8>) -> (r: Result<syn::File, LoadError>)
        ensures
            old(self).registered(path@) is None <==> r matches Err(LoadError::Io(_)),
            old(self).registered(path@) is Some ==> r is Ok || r matches Err(LoadError::Parse(_)),
            old(self).registered(path@) matches Some(s) ==> (r is Ok == parses_as_file(s@)),
            forall|p: Seq<u8>| #[trigger] final(self).registered(p) == old(self).registered(p),
    {
        match self.lookup(path) {
            Some(src) => match crate::syntax::parse_syntax(src.as_str()) {
                Ok(f) => Ok(f),
                Err(e) => Err(LoadError::Parse(e)),
            },
            None => Err(LoadError::Io(not_found_error("path not registered in the resolver"))),
        }
    }
}

} // verus!
