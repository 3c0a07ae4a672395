//! The walk that replaces each forward module declaration with the inlined contents of the
//! file it names.

use crate::mod_path::{candidate_locations, encodes_path, ModContext, ModSegment};
use crate::resolver::FileResolver;
use crate::syntax::{item_fresh, items_fresh, reversed, Attr, ModDecl, Node, SourceFile};
use crate::{InlineError, InlineErrorView, LoadError};
use proc_macro2::Span;
use vstd::prelude::*;

verus! {

/// How many files deep a walk follows declarations, each file loaded from a declaration in
/// the one before. It bounds the walk on a module that includes itself.
pub const MAX_FILE_NESTING: usize = 64;

// ---------------------------------------------------------------------------------------------
// What a walk does, as spec functions
// ---------------------------------------------------------------------------------------------

/// The value of the first `#[path = "..."]` among `attrs[i..]`.
pub open spec fn path_override_from(attrs: Seq<Attr>, i: int) -> Option<String>
    decreases attrs.len() - i,
{
    if i < 0 || i >= attrs.len() {
        None
    } else if attrs[i].path_value is Some {
        attrs[i].path_value
    } else {
        path_override_from(attrs, i + 1)
    }
}

/// The segment a declaration adds to the module path: its explicit path if it has one,
/// else its name.
pub open spec fn decl_segment(m: ModDecl) -> ModSegment {
    match path_override_from(m.attrs@, 0) {
        Some(v) => ModSegment::Path(v),
        None => ModSegment::Ident(m.ident),
    }
}

/// The names of the forward declarations among `s[..i]` and inside their bodies, in source
/// order.
pub open spec fn unresolved_upto(s: Seq<Node>, i: int) -> Seq<Seq<char>>
    decreases s, i,
{
    if i <= 0 || i > s.len() {
        seq![]
    } else {
        unresolved_upto(s, i - 1) + unresolved_in(s[i - 1])
    }
}

/// The names of the forward declarations in a node, in source order.
pub open spec fn unresolved_in(n: Node) -> Seq<Seq<char>>
    decreases n, 0int,
{
    match n {
        Node::Other(_) => seq![],
        Node::Mod(m) => match m.content {
            None => seq![m.ident@],
            Some(c) => unresolved_upto(c@, c@.len() as int),
        },
    }
}

/// The names of the forward declarations in a list of items, in source order.
pub open spec fn unresolved(s: Seq<Node>) -> Seq<Seq<char>> {
    unresolved_upto(s, s.len() as int)
}

/// The locations recorded on the declarations among `s[..i]` and inside them, in source
/// order, each with whether the declaration got a body from it.
pub open spec fn located_upto(s: Seq<Node>, i: int) -> Seq<(Seq<u8>, bool)>
    decreases s, i,
{
    if i <= 0 || i > s.len() {
        seq![]
    } else {
        located_upto(s, i - 1) + located_in(s[i - 1])
    }
}

/// The locations recorded on the declarations in a node, in source order, each with whether
/// the declaration got a body from it.
pub open spec fn located_in(n: Node) -> Seq<(Seq<u8>, bool)>
    decreases n, 0int,
{
    match n {
        Node::Other(_) => seq![],
        Node::Mod(m) => {
            let own = match m.location {
                Some(p) => seq![(p@, m.content is Some)],
                None => seq![],
            };
            match m.content {
                Some(c) => own + located_upto(c@, c@.len() as int),
                None => own,
            }
        },
    }
}

/// The locations recorded on the declarations in a list of items, in source order, each
/// with whether the declaration got a body from it.
pub open spec fn located(s: Seq<Node>) -> Seq<(Seq<u8>, bool)> {
    located_upto(s, s.len() as int)
}

/// The existence checks recorded on the declarations among `s[..i]` and inside them, in
/// source order.
pub open spec fn probe_trace_upto(s: Seq<Node>, i: int) -> Seq<(Seq<u8>, bool)>
    decreases s, i,
{
    if i <= 0 || i > s.len() {
        seq![]
    } else {
        probe_trace_upto(s, i - 1) + probe_trace_in(s[i - 1])
    }
}

/// The existence checks recorded on the declarations in a node, in source order.
pub open spec fn probe_trace_in(n: Node) -> Seq<(Seq<u8>, bool)>
    decreases n, 0int,
{
    match n {
        Node::Other(_) => seq![],
        Node::Mod(m) => match m.content {
            Some(c) => m.probed@ + probe_trace_upto(c@, c@.len() as int),
            None => m.probed@,
        },
    }
}

/// The existence checks recorded on the declarations in a list of items, in source order.
pub open spec fn probe_trace(s: Seq<Node>) -> Seq<(Seq<u8>, bool)> {
    probe_trace_upto(s, s.len() as int)
}

/// The existence checks a walk made while turning `old[..i]` into `new[..i]`, in source
/// order: those recorded on each forward declaration it visited, followed by those of the
/// file loaded for it. Inline modules add none of their own.
pub open spec fn walk_probes_upto(old: Seq<Node>, new: Seq<Node>, i: int) -> Seq<(Seq<u8>, bool)>
    decreases old, i,
{
    if i <= 0 || i > old.len() || i > new.len() {
        seq![]
    } else {
        walk_probes_upto(old, new, i - 1) + walk_probes_in(old[i - 1], new[i - 1])
    }
}

/// The existence checks a walk made while turning the node `old` into `new`.
pub open spec fn walk_probes_in(old: Node, new: Node) -> Seq<(Seq<u8>, bool)>
    decreases old, 0int,
{
    match (old, new) {
        (Node::Mod(m), Node::Mod(n)) => match m.content {
            Some(c) => match n.content {
                Some(nc) => walk_probes_upto(c@, nc@, c@.len() as int),
                None => seq![],
            },
            None => match n.content {
                Some(nc) => n.probed@ + probe_trace(nc@),
                None => n.probed@,
            },
        },
        _ => seq![],
    }
}

/// The existence checks a walk made while turning the items `old` into `new`.
pub open spec fn walk_probes(old: Seq<Node>, new: Seq<Node>) -> Seq<(Seq<u8>, bool)> {
    walk_probes_upto(old, new, old.len() as int)
}

/// The attributes of a declaration whose body was loaded from `p` start with the
/// declaration-site ones, followed by the provenance marker for `p` when markers are asked
/// for. What follows comes from the loaded file and is not fixed here (see `spliced_attrs`).
pub open spec fn loaded_attrs(old: Seq<Attr>, new: Seq<Attr>, p: Seq<u8>, annotate: bool) -> bool {
    &&& new.len() >= old.len() + (if annotate { 1int } else { 0int })
    &&& new.subrange(0, old.len() as int) == old
    &&& annotate ==> {
        &&& new[old.len() as int].mod_path matches Some(b) && b@ == p
        &&& new[old.len() as int].path_value is None
    }
}

/// The attributes of a declaration whose body was loaded from `p`, exactly: the
/// declaration-site ones `old`, then the provenance marker for `p` when markers are asked
/// for, then the file's inner attributes `file`.
pub open spec fn spliced_attrs(
    old: Seq<Attr>,
    new: Seq<Attr>,
    file: Seq<Attr>,
    p: Seq<u8>,
    annotate: bool,
) -> bool {
    let k = if annotate { 1int } else { 0int };
    &&& new.len() == old.len() + k + file.len()
    &&& new.subrange(0, old.len() as int) == old
    &&& new.subrange(old.len() + k, new.len() as int) == file
    &&& annotate ==> {
        &&& new[old.len() as int].mod_path matches Some(b) && b@ == p
        &&& new[old.len() as int].path_value is None
    }
}

/// `new` is the log `old` with one record appended: the failure `kind` of the declaration
/// `decl` in the file `src`, whose body was looked for at `path`. A log that is not kept
/// stays absent.
pub open spec fn log_pushed(
    old: Option<Vec<InlineError>>,
    new: Option<Vec<InlineError>>,
    src: Seq<u8>,
    decl: ModDecl,
    path: Seq<u8>,
    kind: LoadError,
) -> bool {
    match old {
        None => new is None,
        Some(o) => match new {
            None => false,
            Some(n) => {
                &&& n@.len() == o@.len() + 1
                &&& n@.subrange(0, o@.len() as int) == o@
                &&& n@.last()@ == (InlineErrorView {
                    src_path: src,
                    module_name: decl.ident@,
                    path,
                })
                &&& n@.last().spec_kind() == kind
                &&& n@.last().spec_span() == decl.span
            },
        },
    }
}

/// `new` is what a walk makes of the items `old`, found under the module path `ctx` in the
/// file `base`.
pub open spec fn nodes_expanded(
    old: Seq<Node>,
    new: Seq<Node>,
    ctx: Seq<ModSegment>,
    base: Seq<u8>,
    root: bool,
    annotate: bool,
    depth: nat,
) -> bool
    decreases new, 1int,
{
    &&& old.len() == new.len()
    &&& forall|j: int|
        0 <= j < new.len() ==> node_expanded(
            old[j],
            #[trigger] new[j],
            ctx,
            base,
            root,
            annotate,
            depth,
        )
}

/// `new` is what a walk makes of the item `old`, found under the module path `ctx` in the
/// file `base`, when `depth` more files may be nested below `base`.
///
/// Other items stay as they are. An inline module keeps its attributes, location and
/// existence checks, and has its body walked under its own segment. A forward declaration
/// records the existence checks made for its candidates: in order, stopping at the first
/// that exists. When no more files may be nested it otherwise stays as it is. Else it
/// records as its location the first candidate found to exist, else the last one, and
/// either stays a forward declaration with its attributes, or gets as its body the walked
/// items of a freshly parsed file, walked from that location; its attributes are then the
/// declaration-site ones, the provenance marker when markers are asked for, and that file's
/// inner attributes, nothing more.
pub open spec fn node_expanded(
    old: Node,
    new: Node,
    ctx: Seq<ModSegment>,
    base: Seq<u8>,
    root: bool,
    annotate: bool,
    depth: nat,
) -> bool
    decreases new, 0int,
{
    match old {
        Node::Other(o) => new == Node::Other(o),
        Node::Mod(m) => match new {
            Node::Other(_) => false,
            Node::Mod(n) => {
                let inner = ctx.push(decl_segment(m));
                let cands = candidate_locations(inner, base, root);
                let found = answers(n.probed@);
                &&& n.ident == m.ident
                &&& n.span == m.span
                &&& n.syntax == m.syntax
                &&& match m.content {
                    Some(c) => {
                        &&& n.attrs == m.attrs
                        &&& n.location == m.location
                        &&& n.probed@ == m.probed@
                        &&& n.content matches Some(nc) && nodes_expanded(
                            c@,
                            nc@,
                            inner,
                            base,
                            root,
                            annotate,
                            depth,
                        )
                    },
                    None => {
                        &&& probe_run(cands, found)
                        &&& n.probed@ == probe_log(cands, found)
                        &&& if depth == 0 {
                            &&& n.content is None
                            &&& n.location is None
                            &&& n.attrs == m.attrs
                        } else {
                            match n.location {
                                None => false,
                                Some(p) => {
                                    &&& p@ == cands[chosen_candidate(found, cands.len() as int)]
                                    &&& match n.content {
                                        None => n.attrs == m.attrs,
                                        Some(nc) => exists|fa: Seq<Attr>, f: Seq<Node>|
                                            #![trigger items_fresh(f), spliced_attrs(m.attrs@, n.attrs@, fa, p@, annotate)]
                                            items_fresh(f) && spliced_attrs(
                                                m.attrs@,
                                                n.attrs@,
                                                fa,
                                                p@,
                                                annotate,
                                            ) && nodes_expanded(
                                                f,
                                                nc@,
                                                Seq::empty(),
                                                p@,
                                                false,
                                                annotate,
                                                (depth - 1) as nat,
                                            ),
                                    }
                                },
                            }
                        }
                    },
                }
            },
        },
    }
}

/// The record a walk owes for a forward declaration left without a body: the file that
/// declared it, its name and span, and the location it was sent to the resolver for, if
/// it was.
pub ghost struct Failure {
    pub src: Seq<u8>,
    pub name: Seq<char>,
    pub span: Span,
    pub location: Option<Seq<u8>>,
}

/// The records owed for the declarations among `s[..i]`, declared in the file `base`, and
/// inside them, in source order. A body loaded from a file is declared in that file.
pub open spec fn failures_upto(s: Seq<Node>, base: Seq<u8>, i: int) -> Seq<Failure>
    decreases s, i,
{
    if i <= 0 || i > s.len() {
        seq![]
    } else {
        failures_upto(s, base, i - 1) + failures_in(s[i - 1], base)
    }
}

/// The records owed for the declarations in a node declared in the file `base`.
pub open spec fn failures_in(n: Node, base: Seq<u8>) -> Seq<Failure>
    decreases n, 0int,
{
    match n {
        Node::Other(_) => seq![],
        Node::Mod(m) => match m.content {
            None => seq![
                Failure {
                    src: base,
                    name: m.ident@,
                    span: m.span,
                    location: match m.location {
                        Some(p) => Some(p@),
                        None => None,
                    },
                },
            ],
            Some(c) => failures_upto(
                c@,
                match m.location {
                    Some(p) => p@,
                    None => base,
                },
                c@.len() as int,
            ),
        },
    }
}

/// The records owed for the declarations in a list of items declared in the file `base`.
pub open spec fn failures(s: Seq<Node>, base: Seq<u8>) -> Seq<Failure> {
    failures_upto(s, base, s.len() as int)
}

/// The error record `e` is the one owed as `f`: same file, name, span and location; a
/// declaration never sent to the resolver failed on the nesting limit.
pub open spec fn record_fits(e: InlineError, f: Failure) -> bool {
    &&& e@.src_path == f.src
    &&& e@.module_name == f.name
    &&& e.spec_span() == f.span
    &&& match f.location {
        Some(p) => e@.path == p,
        None => e.spec_kind() is NestingLimit,
    }
}

/// Each record of `e` is the one owed at the same place in `f`.
pub open spec fn records_fit(e: Seq<InlineError>, f: Seq<Failure>) -> bool {
    &&& e.len() == f.len()
    &&& forall|j: int| 0 <= j < e.len() ==> record_fits(#[trigger] e[j], f[j])
}

/// `new` is the log `old` with the records owed as `f` appended; a log that is not kept
/// stays absent.
pub open spec fn log_recorded(
    old: Option<Vec<InlineError>>,
    new: Option<Vec<InlineError>>,
    f: Seq<Failure>,
) -> bool {
    match old {
        None => new is None,
        Some(o) => match new {
            None => false,
            Some(n) => {
                &&& n@.len() >= o@.len()
                &&& n@.subrange(0, o@.len() as int) == o@
                &&& records_fit(n@.subrange(o@.len() as int, n@.len() as int), f)
            },
        },
    }
}

/// The module names of a list of errors.
pub open spec fn error_names(e: Seq<InlineError>) -> Seq<Seq<char>> {
    e.map_values(|x: InlineError| x@.module_name)
}

/// `new` is the log `old` with errors for the declarations `names` appended, in order; a
/// log that is not kept stays absent.
pub open spec fn log_extended(
    old: Option<Vec<InlineError>>,
    new: Option<Vec<InlineError>>,
    names: Seq<Seq<char>>,
) -> bool {
    match old {
        None => new is None,
        Some(o) => match new {
            None => false,
            Some(n) => {
                &&& n@.len() == o@.len() + names.len()
                &&& n@.subrange(0, o@.len() as int) == o@
                &&& error_names(n@.subrange(o@.len() as int, n@.len() as int)) == names
            },
        },
    }
}

/// The position of the first `true` among `found[i..]`.
pub open spec fn first_found_from(found: Seq<bool>, i: int) -> Option<int>
    decreases found.len() - i,
{
    if i < 0 || i >= found.len() {
        None
    } else if found[i] {
        Some(i)
    } else {
        first_found_from(found, i + 1)
    }
}

/// Which of `count` candidates to load, given what was found of the first ones in order:
/// the first that exists, else the last one, so that a definite location is reported.
pub open spec fn chosen_candidate(found: Seq<bool>, count: int) -> int {
    match first_found_from(found, 0) {
        Some(i) => i,
        None => count - 1,
    }
}

/// Picks which of `count` candidates to load, from whether each of the first ones exists.
pub fn select_candidate(found: &Vec<bool>, count: usize) -> (r: usize)
    requires
        0 < count,
        found@.len() <= count,
    ensures
        r == chosen_candidate(found@, count as int),
        r < count,
{
    let mut i: usize = 0;
    while i < found.len()
        invariant
            i <= found@.len() <= count,
            first_found_from(found@, 0) == first_found_from(found@, i as int),
        decreases found@.len() - i,
    {
        if found[i] {
            return i;
        }
        i = i + 1;
    }
    count - 1
}

// ---------------------------------------------------------------------------------------------
// Lemmas
// ---------------------------------------------------------------------------------------------

proof fn lemma_unresolved_prefix(s: Seq<Node>, t: Seq<Node>, i: int)
    requires
        0 <= i <= s.len(),
        i <= t.len(),
        forall|k: int| 0 <= k < i ==> s[k] == t[k],
    ensures
        unresolved_upto(s, i) == unresolved_upto(t, i),
    decreases i,
{
    if i > 0 {
        lemma_unresolved_prefix(s, t, i - 1);
    }
}

proof fn lemma_located_prefix(s: Seq<Node>, t: Seq<Node>, i: int)
    requires
        0 <= i <= s.len(),
        i <= t.len(),
        forall|k: int| 0 <= k < i ==> s[k] == t[k],
    ensures
        located_upto(s, i) == located_upto(t, i),
    decreases i,
{
    if i > 0 {
        lemma_located_prefix(s, t, i - 1);
    }
}

proof fn lemma_failures_prefix(s: Seq<Node>, t: Seq<Node>, base: Seq<u8>, i: int)
    requires
        0 <= i <= s.len(),
        i <= t.len(),
        forall|k: int| 0 <= k < i ==> s[k] == t[k],
    ensures
        failures_upto(s, base, i) == failures_upto(t, base, i),
    decreases i,
{
    if i > 0 {
        lemma_failures_prefix(s, t, base, i - 1);
    }
}

proof fn lemma_failures_push(s: Seq<Node>, x: Node, base: Seq<u8>)
    ensures
        failures(s.push(x), base) == failures(s, base) + failures_in(x, base),
{
    lemma_failures_prefix(s.push(x), s, base, s.len() as int);
    assert(s.push(x)[s.len() as int] == x);
}

proof fn lemma_recorded_same(a: Option<Vec<InlineError>>)
    ensures
        log_recorded(a, a, seq![]),
{
    if let Some(av) = a {
        assert(av@.subrange(0, av@.len() as int) =~= av@);
    }
}

proof fn lemma_recorded_compose(
    a: Option<Vec<InlineError>>,
    b: Option<Vec<InlineError>>,
    c: Option<Vec<InlineError>>,
    x: Seq<Failure>,
    y: Seq<Failure>,
)
    requires
        log_recorded(a, b, x),
        log_recorded(b, c, y),
    ensures
        log_recorded(a, c, x + y),
{
    if let Some(av) = a {
        let bv = b.unwrap();
        let cv = c.unwrap();
        let (la, lb, lc) = (av@.len() as int, bv@.len() as int, cv@.len() as int);
        assert(cv@.subrange(0, la) =~= av@) by {
            assert forall|k: int| 0 <= k < la implies cv@[k] == av@[k] by {
                assert(cv@.subrange(0, lb)[k] == bv@[k]);
                assert(bv@.subrange(0, la)[k] == av@[k]);
            }
        }
        let tail = cv@.subrange(la, lc);
        assert forall|k: int| 0 <= k < tail.len() implies record_fits(#[trigger] tail[k], (x + y)[k]) by {
            if k < lb - la {
                assert(tail[k] == cv@.subrange(0, lb)[la + k]);
                assert(bv@.subrange(la, lb)[k] == bv@[la + k]);
                assert(record_fits(bv@.subrange(la, lb)[k], x[k]));
            } else {
                assert(tail[k] == cv@.subrange(lb, lc)[k - (lb - la)]);
                assert(record_fits(cv@.subrange(lb, lc)[k - (lb - la)], y[k - (lb - la)]));
            }
        }
    }
}

proof fn lemma_recorded_push(
    old: Option<Vec<InlineError>>,
    new: Option<Vec<InlineError>>,
    src: Seq<u8>,
    decl: ModDecl,
    path: Seq<u8>,
    kind: LoadError,
    f: Failure,
)
    requires
        log_pushed(old, new, src, decl, path, kind),
        f.src == src,
        f.name == decl.ident@,
        f.span == decl.span,
        f.location matches Some(p) ==> p == path,
        f.location is None ==> kind is NestingLimit,
    ensures
        log_recorded(old, new, seq![f]),
{
    if let Some(o) = old {
        let n = new->0;
        let tail = n@.subrange(o@.len() as int, n@.len() as int);
        assert(tail[0] == n@.last());
        assert(records_fit(tail, seq![f]));
    }
}

proof fn lemma_walk_probes_prefix(s: Seq<Node>, t: Seq<Node>, u: Seq<Node>, v: Seq<Node>, i: int)
    requires
        0 <= i <= s.len(),
        i <= t.len(),
        i <= u.len(),
        i <= v.len(),
        forall|k: int| 0 <= k < i ==> s[k] == t[k] && u[k] == v[k],
    ensures
        walk_probes_upto(s, u, i) == walk_probes_upto(t, v, i),
    decreases i,
{
    if i > 0 {
        lemma_walk_probes_prefix(s, t, u, v, i - 1);
    }
}

proof fn lemma_walk_probes_push(s: Seq<Node>, u: Seq<Node>, x: Node, y: Node)
    requires
        s.len() == u.len(),
    ensures
        walk_probes(s.push(x), u.push(y)) == walk_probes(s, u) + walk_probes_in(x, y),
{
    lemma_walk_probes_prefix(s.push(x), s, u.push(y), u, s.len() as int);
    assert(s.push(x)[s.len() as int] == x);
    assert(u.push(y)[s.len() as int] == y);
}

proof fn lemma_probe_prefix(s: Seq<Node>, t: Seq<Node>, i: int)
    requires
        0 <= i <= s.len(),
        i <= t.len(),
        forall|k: int| 0 <= k < i ==> s[k] == t[k],
    ensures
        probe_trace_upto(s, i) == probe_trace_upto(t, i),
    decreases i,
{
    if i > 0 {
        lemma_probe_prefix(s, t, i - 1);
    }
}

/// Appending an item appends its forward declarations, its locations and its checks.
proof fn lemma_push(s: Seq<Node>, x: Node)
    ensures
        unresolved(s.push(x)) == unresolved(s) + unresolved_in(x),
        located(s.push(x)) == located(s) + located_in(x),
        probe_trace(s.push(x)) == probe_trace(s) + probe_trace_in(x),
{
    let t = s.push(x);
    lemma_unresolved_prefix(t, s, s.len() as int);
    lemma_located_prefix(t, s, s.len() as int);
    lemma_probe_prefix(t, s, s.len() as int);
    assert(t[s.len() as int] == x);
}

proof fn lemma_log_compose(
    a: Option<Vec<InlineError>>,
    b: Option<Vec<InlineError>>,
    c: Option<Vec<InlineError>>,
    x: Seq<Seq<char>>,
    y: Seq<Seq<char>>,
)
    requires
        log_extended(a, b, x),
        log_extended(b, c, y),
    ensures
        log_extended(a, c, x + y),
{
    if let Some(av) = a {
        let bv = b.unwrap();
        let cv = c.unwrap();
        let (la, lb, lc) = (av@.len() as int, bv@.len() as int, cv@.len() as int);
        assert(cv@.subrange(0, la) =~= bv@.subrange(0, la)) by {
            assert forall|k: int| 0 <= k < la implies cv@[k] == bv@[k] by {
                assert(cv@.subrange(0, lb)[k] == bv@[k]);
            }
        }
        assert(error_names(cv@.subrange(la, lc)) =~= x + y) by {
            assert forall|k: int| 0 <= k < lc - la implies #[trigger] error_names(
                cv@.subrange(la, lc),
            )[k] == (x + y)[k] by {
                if k < lb - la {
                    assert(cv@[la + k] == cv@.subrange(0, lb)[la + k]);
                    assert(error_names(bv@.subrange(la, lb))[k] == x[k]);
                } else {
                    assert(error_names(cv@.subrange(lb, lc))[k - (lb - la)] == y[k - (lb - la)]);
                }
            }
        }
    }
}

proof fn lemma_answers(cands: Seq<Seq<u8>>, found: Seq<bool>)
    requires
        found.len() <= cands.len(),
    ensures
        answers(probe_log(cands, found)) == found,
{
    assert(answers(probe_log(cands, found)) =~= found);
}

proof fn lemma_loaded_expanded(
    m: ModDecl,
    n: ModDecl,
    ctx: Seq<ModSegment>,
    base: Seq<u8>,
    root: bool,
    annotate: bool,
    depth: nat,
    fa: Seq<Attr>,
    w: Seq<Node>,
)
    requires
        depth > 0,
        m.content is None,
        n.content is Some,
        n.location is Some,
        n.ident == m.ident,
        n.span == m.span,
        n.syntax == m.syntax,
        probe_run(
            candidate_locations(ctx.push(decl_segment(m)), base, root),
            answers(n.probed@),
        ),
        n.probed@ == probe_log(
            candidate_locations(ctx.push(decl_segment(m)), base, root),
            answers(n.probed@),
        ),
        n.location->0@ == candidate_locations(ctx.push(decl_segment(m)), base, root)[chosen_candidate(
            answers(n.probed@),
            candidate_locations(ctx.push(decl_segment(m)), base, root).len() as int,
        )],
        spliced_attrs(m.attrs@, n.attrs@, fa, n.location->0@, annotate),
        items_fresh(w),
        nodes_expanded(
            w,
            n.content->0@,
            Seq::empty(),
            n.location->0@,
            false,
            annotate,
            (depth - 1) as nat,
        ),
    ensures
        node_expanded(Node::Mod(m), Node::Mod(n), ctx, base, root, annotate, depth),
{
}

proof fn lemma_log_same(a: Option<Vec<InlineError>>)
    ensures
        log_extended(a, a, seq![]),
{
    if let Some(av) = a {
        assert(av@.subrange(0, av@.len() as int) =~= av@);
        assert(error_names(av@.subrange(av@.len() as int, av@.len() as int)) =~= seq![]);
    }
}

proof fn lemma_log_push(a: Option<Vec<InlineError>>, b: Option<Vec<InlineError>>, e: InlineError)
    requires
        a is Some,
        b matches Some(bv) && bv@ == a->0@.push(e),
    ensures
        log_extended(a, b, seq![e@.module_name]),
{
    let av = a->0;
    let bv = b->0;
    assert(bv@.subrange(0, av@.len() as int) =~= av@);
    assert(error_names(bv@.subrange(av@.len() as int, bv@.len() as int)) =~= seq![
        e@.module_name,
    ]);
}

// ---------------------------------------------------------------------------------------------
// The walk
// ---------------------------------------------------------------------------------------------

/// What becomes of a forward declaration `decl` of the file `src` once the walk has asked
/// for its body at `path` and got `loaded`.
///
/// A loaded (and already walked) file becomes the declaration's body: its inner attributes
/// follow the declaration-site ones and, when `annotate` is set, the provenance marker for
/// `path`. A failure leaves the declaration as it was and, when `log` is kept, appends one
/// record of it. Either way the declaration records `path` as where it was looked for.
pub fn splice_loaded(
    decl: ModDecl,
    path: Vec<u8>,
    loaded: Result<SourceFile, LoadError>,
    annotate: bool,
    src: &Vec<u8>,
    log: &mut Option<Vec<InlineError>>,
) -> (r: ModDecl)
    ensures
        r.ident == decl.ident,
        r.span == decl.span,
        r.syntax == decl.syntax,
        r.probed@ == decl.probed@,
        r.location == Some(path),
        match loaded {
            Ok(f) => {
                &&& r.content == Some(f.items)
                &&& spliced_attrs(decl.attrs@, r.attrs@, f.attrs@, path@, annotate)
                &&& *final(log) == *old(log)
            },
            Err(kind) => {
                &&& r.content is None
                &&& r.attrs == decl.attrs
                &&& log_pushed(*old(log), *final(log), src@, decl, path@, kind)
            },
        },
{
    match loaded {
        Ok(file) => {
            let SourceFile { attrs: file_attrs, items, .. } = file;
            let ModDecl { attrs, ident, span, syntax, probed, .. } = decl;
            let mut attrs = attrs;
            let ghost old_attrs = attrs@;
            if annotate {
                attrs.push(Attr::mod_path_marker(&path));
            }
            let ghost marked = attrs@;
            let ghost file_view = file_attrs@;
            let mut file_attrs = file_attrs;
            attrs.append(&mut file_attrs);
            proof {
                let k = if annotate { 1int } else { 0int };
                assert(attrs@.subrange(0, old_attrs.len() as int) =~= old_attrs);
                assert(attrs@.subrange(old_attrs.len() + k, attrs@.len() as int) =~= file_view);
                if annotate {
                    assert(attrs@[old_attrs.len() as int] == marked[old_attrs.len() as int]);
                }
            }
            ModDecl {
                attrs,
                ident,
                content: Some(items),
                location: Some(path),
                probed,
                span,
                syntax,
            }
        },
        Err(kind) => {
            let ghost log0 = *log;
            let ghost kind0 = kind;
            if let Some(errors) = log {
                errors.push(InlineError::new(src, &decl, &path, kind));
                proof {
                    assert(errors@.subrange(0, log0->0@.len() as int) =~= log0->0@);
                }
            }
            let ModDecl { attrs, ident, span, syntax, probed, .. } = decl;
            ModDecl { attrs, ident, content: None, location: Some(path), probed, span, syntax }
        },
    }
}

/// Walks one file, inlining the modules it declares.
///
/// When several declarations name the same module under different conditional-compilation
/// attributes, the attributes are not evaluated: each declaration is resolved and inlined on
/// its own, in source order.
pub struct Visitor {
    /// The current file's location.
    path: Vec<u8>,
    /// Whether this is the file the walk started from.
    root: bool,
    /// Whether to mark inlined modules with the location they were loaded from.
    annotate_paths: bool,
    /// The module declarations the walk is inside of, within the current file.
    mod_context: ModContext,
    /// How many more files deep the walk may go.
    depth: usize,
    /// The locations handed to the resolver so far, in order, each with whether it gave a
    /// file.
    loads: Ghost<Seq<(Seq<u8>, bool)>>,
    /// The existence checks made so far, in order, each with its answer.
    probes: Ghost<Seq<(Seq<u8>, bool)>>,
}

/// `found` is a run of existence checks over `cands` that stops at the first hit: every
/// answer but the last is negative, and it stops early only on a positive one.
pub open spec fn probe_run(cands: Seq<Seq<u8>>, found: Seq<bool>) -> bool {
    &&& 1 <= found.len() <= cands.len()
    &&& forall|j: int| 0 <= j < found.len() - 1 ==> !#[trigger] found[j]
    &&& found.len() < cands.len() ==> found.last()
}

/// The answers of a log of existence checks.
pub open spec fn answers(log: Seq<(Seq<u8>, bool)>) -> Seq<bool> {
    log.map_values(|e: (Seq<u8>, bool)| e.1)
}

/// The existence checks `found` over `cands`, as a log of location and answer.
pub open spec fn probe_log(cands: Seq<Seq<u8>>, found: Seq<bool>) -> Seq<(Seq<u8>, bool)> {
    Seq::new(found.len(), |j: int| (cands[j], found[j]))
}

/// The candidate locations of the declaration `m` under the module path `ctx` in `base`.
pub open spec fn mod_candidates(ctx: Seq<ModSegment>, m: ModDecl, base: Seq<u8>, root: bool) -> Seq<
    Seq<u8>,
> {
    candidate_locations(ctx.push(decl_segment(m)), base, root)
}

/// A declaration with candidates `cands` was looked for with the existence checks `found`:
/// they are the first checks made after `before`, they stop at the first hit, and, when more
/// files may be nested (`depth > 0`, so the declaration was sent to the resolver), its
/// recorded location is the first candidate found to exist, else the last one.
pub open spec fn looked_for(
    cands: Seq<Seq<u8>>,
    found: Seq<bool>,
    before: Seq<(Seq<u8>, bool)>,
    after: Seq<(Seq<u8>, bool)>,
    depth: nat,
    location: Option<Vec<u8>>,
) -> bool {
    &&& probe_run(cands, found)
    &&& after.len() >= before.len() + found.len()
    &&& probe_log(cands, found) == after.subrange(
        before.len() as int,
        (before.len() + found.len()) as int,
    )
    &&& depth > 0 ==> (location matches Some(p) && p@ == cands[chosen_candidate(
        found,
        cands.len() as int,
    )])
}

impl Visitor {
    pub closed spec fn location(&self) -> Seq<u8> {
        self.path@
    }

    pub closed spec fn is_root(&self) -> bool {
        self.root
    }

    pub closed spec fn annotates(&self) -> bool {
        self.annotate_paths
    }

    pub closed spec fn context(&self) -> Seq<ModSegment> {
        self.mod_context@
    }

    pub closed spec fn depth_left(&self) -> nat {
        self.depth as nat
    }

    /// The locations this visitor has handed to the resolver, in order, each with whether
    /// the resolver gave a file.
    pub closed spec fn loads(&self) -> Seq<(Seq<u8>, bool)> {
        self.loads@
    }

    /// The existence checks this visitor has made, in order, each with its answer.
    pub closed spec fn probes(&self) -> Seq<(Seq<u8>, bool)> {
        self.probes@
    }

    /// Same file, same options, same module path.
    pub open spec fn same_place(&self, other: &Visitor) -> bool {
        &&& self.location() == other.location()
        &&& self.is_root() == other.is_root()
        &&& self.annotates() == other.annotates()
        &&& self.context() == other.context()
        &&& self.depth_left() == other.depth_left()
    }

    /// A visitor for the file at `path`. `root` tells whether the file is the entry point
    /// of the walk.
    pub fn new(path: &Vec<u8>, root: bool, annotate_paths: bool) -> (r: Self)
        ensures
            r.location() == path@,
            r.is_root() == root,
            r.annotates() == annotate_paths,
            r.context() == Seq::<ModSegment>::empty(),
            r.depth_left() == MAX_FILE_NESTING,
            r.loads() == Seq::<(Seq<u8>, bool)>::empty(),
            r.probes() == Seq::<(Seq<u8>, bool)>::empty(),
    {
        Visitor::nested(path, root, annotate_paths, MAX_FILE_NESTING)
    }

    fn nested(path: &Vec<u8>, root: bool, annotate_paths: bool, depth: usize) -> (r: Self)
        ensures
            r.location() == path@,
            r.is_root() == root,
            r.annotates() == annotate_paths,
            r.context() == Seq::<ModSegment>::empty(),
            r.depth_left() == depth,
            r.loads() == Seq::<(Seq<u8>, bool)>::empty(),
            r.probes() == Seq::<(Seq<u8>, bool)>::empty(),
    {
        let p = path.clone();
        assert(p@ =~= path@);
        Visitor {
            path: p,
            root,
            annotate_paths,
            mod_context: ModContext::new(),
            depth,
            loads: Ghost(Seq::empty()),
            probes: Ghost(Seq::empty()),
        }
    }

    /// Loads this visitor's file and inlines the modules it declares.
    ///
    /// The result is what `visit_loaded` makes of the resolver's answer, read with
    /// `SourceFile::from_syn`: the resolver's own error when it gives one, else the walked
    /// file. The load is recorded with its outcome.
    pub fn visit<R: FileResolver>(
        &mut self,
        resolver: &mut R,
        error_log: &mut Option<Vec<InlineError>>,
    ) -> (r: Result<SourceFile, LoadError>)
        requires
            old(self).context() == Seq::<ModSegment>::empty(),
            encodes_path(old(self).location()),
        ensures
            final(self).same_place(old(self)),
            r matches Ok(f) ==> exists|orig: Seq<Node>|
                #[trigger] items_fresh(orig) && nodes_expanded(
                    orig,
                    f.items@,
                    Seq::empty(),
                    old(self).location(),
                    old(self).is_root(),
                    old(self).annotates(),
                    old(self).depth_left(),
                ),
            r matches Ok(f) ==> log_extended(
                *old(error_log),
                *final(error_log),
                unresolved(f.items@),
            ),
            r matches Ok(f) ==> final(self).loads() == old(self).loads().push(
                (old(self).location(), true),
            ) + located(f.items@),
            r matches Ok(f) ==> final(self).probes() == old(self).probes() + probe_trace(
                f.items@,
            ),
            r matches Ok(f) ==> log_recorded(
                *old(error_log),
                *final(error_log),
                failures(f.items@, old(self).location()),
            ),
            r is Err ==> *final(error_log) == *old(error_log),
            r is Err ==> final(self).loads() == old(self).loads().push(
                (old(self).location(), false),
            ),
            r is Err ==> final(self).probes() == old(self).probes(),
        decreases old(self).depth_left(), 3int, *old(self),
    {
        let resolved = resolver.resolve(&self.path);
        proof {
            self.loads@ = self.loads@.push((self.path@, resolved is Ok));
        }
        let loaded = match resolved {
            Ok(syntax) => Ok(SourceFile::from_syn(syntax)),
            Err(e) => Err(e),
        };
        let ghost loaded_view = loaded;
        let r = self.visit_loaded(loaded, resolver, error_log);
        proof {
            if loaded_view is Ok {
                let orig = loaded_view->Ok_0.items@;
                assert(items_fresh(orig));
            }
        }
        r
    }

    /// Walks the file the resolver gave for this visitor's location, or passes on its error:
    /// the result is `Err(e)` exactly when `loaded` is `Err(e)`. A walked file keeps its
    /// shebang and inner attributes, and its items are related one for one to the loaded
    /// ones.
    pub fn visit_loaded<R: FileResolver>(
        &mut self,
        loaded: Result<SourceFile, LoadError>,
        resolver: &mut R,
        error_log: &mut Option<Vec<InlineError>>,
    ) -> (r: Result<SourceFile, LoadError>)
        requires
            old(self).context() == Seq::<ModSegment>::empty(),
            encodes_path(old(self).location()),
        ensures
            final(self).same_place(old(self)),
            loaded matches Err(e) ==> {
                &&& r == Err::<SourceFile, LoadError>(e)
                &&& *final(error_log) == *old(error_log)
                &&& final(self).loads() == old(self).loads()
                &&& final(self).probes() == old(self).probes()
            },
            loaded matches Ok(f) ==> (r matches Ok(g) && {
                &&& g.shebang == f.shebang
                &&& g.attrs == f.attrs
                &&& nodes_expanded(
                    f.items@,
                    g.items@,
                    Seq::empty(),
                    old(self).location(),
                    old(self).is_root(),
                    old(self).annotates(),
                    old(self).depth_left(),
                )
                &&& log_extended(*old(error_log), *final(error_log), unresolved(g.items@))
                &&& final(self).probes() == old(self).probes() + walk_probes(f.items@, g.items@)
                &&& items_fresh(f.items@) ==> {
                    &&& final(self).loads() == old(self).loads() + located(g.items@)
                    &&& final(self).probes() == old(self).probes() + probe_trace(g.items@)
                    &&& log_recorded(
                        *old(error_log),
                        *final(error_log),
                        failures(g.items@, old(self).location()),
                    )
                }
            }),
        decreases old(self).depth_left(), 2int, *old(self),
    {
        match loaded {
            Ok(file) => {
                let mut file = file;
                self.visit_file_mut(&mut file, resolver, error_log);
                Ok(file)
            },
            Err(e) => Err(e),
        }
    }

    /// Inlines the modules that `file` declares, which lies at this visitor's location.
    ///
    /// Declarations are visited in source order, depth first: on a freshly parsed file, the
    /// locations handed to the resolver are, in order, the locations recorded on the
    /// declarations of the result, each with whether it gave the declaration its body; so
    /// each declaration is loaded before its own children, and those before its next
    /// sibling, whether or not loading succeeded. A module that is already inline is never
    /// looked for: the existence checks made are, in order, those recorded on the forward
    /// declarations visited and in the files loaded for them (`walk_probes`), whatever the
    /// input. On a file with no forward declaration no existence check is made, nothing is
    /// loaded and no error is recorded.
    pub fn visit_file_mut<R: FileResolver>(
        &mut self,
        file: &mut SourceFile,
        resolver: &mut R,
        error_log: &mut Option<Vec<InlineError>>,
    )
        requires
            encodes_path(old(self).location()),
        ensures
            final(self).same_place(old(self)),
            final(file).shebang == old(file).shebang,
            final(file).attrs == old(file).attrs,
            nodes_expanded(
                old(file).items@,
                final(file).items@,
                old(self).context(),
                old(self).location(),
                old(self).is_root(),
                old(self).annotates(),
                old(self).depth_left(),
            ),
            log_extended(*old(error_log), *final(error_log), unresolved(final(file).items@)),
            items_fresh(old(file).items@) ==> final(self).loads() == old(self).loads() + located(
                final(file).items@,
            ),
            items_fresh(old(file).items@) ==> final(self).probes() == old(self).probes()
                + probe_trace(final(file).items@),
            final(self).probes() == old(self).probes() + walk_probes(
                old(file).items@,
                final(file).items@,
            ),
            items_fresh(old(file).items@) ==> log_recorded(
                *old(error_log),
                *final(error_log),
                failures(final(file).items@, old(self).location()),
            ),
            unresolved(old(file).items@) == Seq::<Seq<char>>::empty() ==> {
                &&& final(self).loads() == old(self).loads()
                &&& final(self).probes() == old(self).probes()
                &&& unresolved(final(file).items@) == Seq::<Seq<char>>::empty()
            },
        decreases old(self).depth_left(), 1int, *old(self),
    {
        let mut items: Vec<Node> = Vec::new();
        std::mem::swap(&mut items, &mut file.items);
        let items = self.visit_nodes(items, resolver, error_log);
        file.items = items;
    }

    fn visit_nodes<R: FileResolver>(
        &mut self,
        items: Vec<Node>,
        resolver: &mut R,
        error_log: &mut Option<Vec<InlineError>>,
    ) -> (r: Vec<Node>)
        requires
            encodes_path(old(self).location()),
        ensures
            final(self).same_place(old(self)),
            nodes_expanded(
                items@,
                r@,
                old(self).context(),
                old(self).location(),
                old(self).is_root(),
                old(self).annotates(),
                old(self).depth_left(),
            ),
            log_extended(*old(error_log), *final(error_log), unresolved(r@)),
            items_fresh(items@) ==> final(self).loads() == old(self).loads() + located(r@),
            items_fresh(items@) ==> final(self).probes() == old(self).probes() + probe_trace(r@),
            final(self).probes() == old(self).probes() + walk_probes(items@, r@),
            items_fresh(items@) ==> log_recorded(
                *old(error_log),
                *final(error_log),
                failures(r@, old(self).location()),
            ),
            unresolved(items@) == Seq::<Seq<char>>::empty() ==> {
                &&& final(self).loads() == old(self).loads()
                &&& final(self).probes() == old(self).probes()
                &&& unresolved(r@) == Seq::<Seq<char>>::empty()
            },
        decreases old(self).depth, 0int, items,
    {
        let ghost orig = items@;
        let ghost start = *self;
        let ghost log0 = *error_log;
        let n = items.len();
        let mut rest = reversed(items);
        let mut out: Vec<Node> = Vec::new();
        proof {
            lemma_log_same(*error_log);
            lemma_recorded_same(*error_log);
            assert(failures(out@, start.location()) =~= Seq::<Failure>::empty());
            assert(orig.take(0) =~= Seq::<Node>::empty());
            assert(out@ =~= Seq::<Node>::empty());
        }
        while rest.len() > 0
            invariant
                orig.len() == n,
                items@ == orig,
                start.depth == old(self).depth,
                encodes_path(start.location()),
                out@.len() + rest@.len() == n,
                forall|k: int| 0 <= k < rest@.len() ==> rest@[k] == orig[n - 1 - k],
                self.same_place(&start),
                nodes_expanded(
                    orig.take(out@.len() as int),
                    out@,
                    start.context(),
                    start.location(),
                    start.is_root(),
                    start.annotates(),
                    start.depth_left(),
                ),
                log_extended(log0, *error_log, unresolved(out@)),
                items_fresh(orig) ==> self.loads() == start.loads() + located(out@),
                items_fresh(orig) ==> self.probes() == start.probes() + probe_trace(out@),
                self.probes() == start.probes() + walk_probes(orig.take(out@.len() as int), out@),
                items_fresh(orig) ==> log_recorded(log0, *error_log, failures(out@, start.location())),
                unresolved(orig.take(out@.len() as int)) == Seq::<Seq<char>>::empty() ==> {
                    &&& self.loads() == start.loads()
                    &&& self.probes() == start.probes()
                    &&& unresolved(out@) == Seq::<Seq<char>>::empty()
                },
            decreases rest@.len(),
        {
            let ghost k = out@.len() as int;
            let ghost before = *self;
            let ghost log1 = *error_log;
            let ghost out0 = out@;
            let node = rest.pop().unwrap();
            proof {
                assert(0 <= k < orig.len());
                assert(node == orig[k]);
                assert(decreases_to!(items => items[k]));
            }
            let new_node = self.visit_node(node, resolver, error_log);
            out.push(new_node);
            proof {
                let taken = orig.take(k + 1);
                assert(taken =~= orig.take(k).push(orig[k]));
                lemma_walk_probes_push(orig.take(k), out0, orig[k], new_node);
                assert(self.probes() =~= start.probes() + walk_probes(taken, out@));
                lemma_push(orig.take(k), orig[k]);
                lemma_push(out0, new_node);
                assert(out@ == out0.push(new_node));
                lemma_log_compose(log0, log1, *error_log, unresolved(out0), unresolved_in(new_node));
                if items_fresh(orig) {
                    assert(item_fresh(orig[k]));
                    assert(self.loads() =~= start.loads() + located(out@));
                    assert(self.probes() =~= start.probes() + probe_trace(out@));
                    lemma_failures_push(out0, new_node, start.location());
                    lemma_recorded_compose(
                        log0,
                        log1,
                        *error_log,
                        failures(out0, start.location()),
                        failures_in(new_node, start.location()),
                    );
                }
                if unresolved(taken) == Seq::<Seq<char>>::empty() {
                    assert(unresolved(orig.take(k)) + unresolved_in(orig[k]) =~= Seq::<Seq<char>>::empty());
                    assert(unresolved(orig.take(k)) =~= Seq::<Seq<char>>::empty());
                    assert(unresolved_in(orig[k]) =~= Seq::<Seq<char>>::empty());
                    assert(unresolved(out@) =~= Seq::<Seq<char>>::empty());
                }
                assert forall|j: int| 0 <= j < out@.len() implies node_expanded(
                    #[trigger] taken[j],
                    out@[j],
                    start.context(),
                    start.location(),
                    start.is_root(),
                    start.annotates(),
                    start.depth_left(),
                ) by {
                    if j < k {
                        assert(taken[j] == orig.take(k)[j]);
                        assert(out@[j] == out0[j]);
                    }
                }
            }
        }
        proof {
            assert(orig.take(n as int) =~= orig);
        }
        out
    }

    fn visit_node<R: FileResolver>(
        &mut self,
        node: Node,
        resolver: &mut R,
        error_log: &mut Option<Vec<InlineError>>,
    ) -> (r: Node)
        requires
            encodes_path(old(self).location()),
        ensures
            final(self).same_place(old(self)),
            node_expanded(
                node,
                r,
                old(self).context(),
                old(self).location(),
                old(self).is_root(),
                old(self).annotates(),
                old(self).depth_left(),
            ),
            log_extended(*old(error_log), *final(error_log), unresolved_in(r)),
            item_fresh(node) ==> final(self).loads() == old(self).loads() + located_in(r),
            item_fresh(node) ==> final(self).probes() == old(self).probes() + probe_trace_in(r),
            final(self).probes() == old(self).probes() + walk_probes_in(node, r),
            item_fresh(node) ==> log_recorded(
                *old(error_log),
                *final(error_log),
                failures_in(r, old(self).location()),
            ),
            unresolved_in(node) == Seq::<Seq<char>>::empty() ==> {
                &&& final(self).loads() == old(self).loads()
                &&& final(self).probes() == old(self).probes()
                &&& unresolved_in(r) == Seq::<Seq<char>>::empty()
            },
        decreases old(self).depth, 0int, node,
    {
        match node {
            Node::Mod(m) => Node::Mod(self.visit_mod(m, resolver, error_log)),
            Node::Other(o) => {
                proof {
                    lemma_log_same(*error_log);
                    assert(self.loads() =~= self.loads() + located_in(Node::Other(o)));
                    assert(self.probes() =~= self.probes() + probe_trace_in(Node::Other(o)));
                    assert(self.probes() =~= self.probes() + walk_probes_in(Node::Other(o), Node::Other(o)));
                    lemma_recorded_same(*error_log);
                    assert(failures_in(Node::Other(o), self.location()) =~= Seq::<Failure>::empty());
                }
                Node::Other(o)
            },
        }
    }

    /// The segment that `m` adds to the module path.
    fn segment_of(m: &ModDecl) -> (r: ModSegment)
        ensures
            r == decl_segment(*m),
    {
        let mut i: usize = 0;
        while i < m.attrs.len()
            invariant
                i <= m.attrs@.len(),
                path_override_from(m.attrs@, 0) == path_override_from(m.attrs@, i as int),
            decreases m.attrs@.len() - i,
        {
            match &m.attrs[i].path_value {
                Some(v) => {
                    return ModSegment::Path(v.clone());
                },
                None => {},
            }
            i = i + 1;
        }
        ModSegment::Ident(m.ident.clone())
    }

    /// Asks the resolver about the candidates in order, stopping at the first that exists,
    /// and picks the location to load: that one, else the last candidate.
    fn choose_location<R: FileResolver>(&mut self, candidates: &Vec<Vec<u8>>, resolver: &R) -> (r:
        usize)
        requires
            candidates@.len() > 0,
        ensures
            final(self).same_place(old(self)),
            final(self).loads() == old(self).loads(),
            final(self).probes().len() >= old(self).probes().len(),
            r < candidates@.len(),
            exists|found: Seq<bool>|
                {
                    &&& probe_run(crate::mod_path::views_of(candidates@), found)
                    &&& final(self).probes() == old(self).probes() + #[trigger] probe_log(
                        crate::mod_path::views_of(candidates@),
                        found,
                    )
                    &&& r == chosen_candidate(found, candidates@.len() as int)
                },
    {
        let ghost cands = crate::mod_path::views_of(candidates@);
        let ghost p0 = self.probes@;
        let mut found: Vec<bool> = Vec::new();
        let mut done = false;
        while !done && found.len() < candidates.len()
            invariant
                found@.len() <= candidates@.len(),
                cands == crate::mod_path::views_of(candidates@),
                self.probes@ == p0 + probe_log(cands, found@),
                forall|j: int| 0 <= j < found@.len() - 1 ==> !#[trigger] found@[j],
                !done ==> forall|j: int| 0 <= j < found@.len() ==> !#[trigger] found@[j],
                done ==> found@.len() >= 1 && found@.last(),
                self.same_place(old(self)),
                self.loads() == old(self).loads(),
            decreases candidates@.len() - found@.len(),
        {
            let exists = resolver.path_exists(&candidates[found.len()]);
            let ghost fo = found@;
            proof {
                self.probes@ = self.probes@.push((candidates@[found@.len() as int]@, exists));
            }
            found.push(exists);
            proof {
                assert(cands[fo.len() as int] == candidates@[fo.len() as int]@);
                assert(probe_log(cands, found@) =~= probe_log(cands, fo).push(
                    (cands[fo.len() as int], exists),
                ));
                assert(self.probes@ =~= p0 + probe_log(cands, found@));
            }
            if exists {
                done = true;
            }
        }
        let chosen = select_candidate(&found, candidates.len());
        proof {
            assert(self.probes@.subrange(p0.len() as int, self.probes@.len() as int) =~= probe_log(
                cands,
                found@,
            ));
            assert(probe_run(cands, found@));
        }
        chosen
    }

    fn visit_mod<R: FileResolver>(
        &mut self,
        m: ModDecl,
        resolver: &mut R,
        error_log: &mut Option<Vec<InlineError>>,
    ) -> (r: ModDecl)
        requires
            encodes_path(old(self).location()),
        ensures
            final(self).same_place(old(self)),
            node_expanded(
                Node::Mod(m),
                Node::Mod(r),
                old(self).context(),
                old(self).location(),
                old(self).is_root(),
                old(self).annotates(),
                old(self).depth_left(),
            ),
            log_extended(*old(error_log), *final(error_log), unresolved_in(Node::Mod(r))),
            item_fresh(Node::Mod(m)) ==> final(self).loads() == old(self).loads() + located_in(
                Node::Mod(r),
            ),
            item_fresh(Node::Mod(m)) ==> final(self).probes() == old(self).probes()
                + probe_trace_in(Node::Mod(r)),
            final(self).probes() == old(self).probes() + walk_probes_in(Node::Mod(m), Node::Mod(r)),
            item_fresh(Node::Mod(m)) ==> log_recorded(
                *old(error_log),
                *final(error_log),
                failures_in(Node::Mod(r), old(self).location()),
            ),
            unresolved_in(Node::Mod(m)) == Seq::<Seq<char>>::empty() ==> {
                &&& final(self).loads() == old(self).loads()
                &&& final(self).probes() == old(self).probes()
                &&& unresolved_in(Node::Mod(r)) == Seq::<Seq<char>>::empty()
            },
            // A forward declaration is looked for at the first candidate that exists, else
            // the last one: the existence checks made for it come first among the new ones.
            // A forward declaration that stays one has exactly one new record: of the nesting
            // limit when no more files may be nested, else of the resolver's failure at its
            // location.
            m.content is None && old(self).depth_left() == 0 ==> exists|p: Seq<u8>|
                #[trigger] log_pushed(
                    *old(error_log),
                    *final(error_log),
                    old(self).location(),
                    m,
                    p,
                    LoadError::NestingLimit,
                ),
            m.content is None && old(self).depth_left() > 0 && r.content is None ==> exists|
                kind: LoadError,
            |
                #[trigger] log_pushed(
                    *old(error_log),
                    *final(error_log),
                    old(self).location(),
                    m,
                    r.location->0@,
                    kind,
                ),
            m.content is None ==> exists|found: Seq<bool>|
                #[trigger] looked_for(
                    mod_candidates(
                        old(self).context(),
                        m,
                        old(self).location(),
                        old(self).is_root(),
                    ),
                    found,
                    old(self).probes(),
                    final(self).probes(),
                    old(self).depth_left(),
                    r.location,
                ),
        decreases old(self).depth, 0int, m,
    {
        let ghost start = *self;
        let ghost log0 = *error_log;
        let ghost mut found_out: Seq<bool> = Seq::empty();
        let seg = Visitor::segment_of(&m);
        self.mod_context.push(seg);
        let ghost inner = self.mod_context@;
        let ModDecl { attrs, ident, content, location, probed, span, syntax } = m;
        let result = match content {
            Some(items) => {
                proof {
                    assert(decreases_to!(m => items));
                    if item_fresh(Node::Mod(m)) {
                        assert(items_fresh(items@));
                    }
                }
                let items = self.visit_nodes(items, resolver, error_log);
                let r = ModDecl { attrs, ident, content: Some(items), location, probed, span, syntax };
                proof {
                    if item_fresh(Node::Mod(m)) {
                        assert(located_in(Node::Mod(r)) =~= located(items@));
                        assert(probe_trace_in(Node::Mod(r)) =~= probe_trace(items@));
                        assert(failures_in(Node::Mod(r), start.location()) == failures(items@, start.location()));
                    }
                    assert(unresolved_in(Node::Mod(m)) == unresolved(m.content->0@));
                    assert(unresolved_in(Node::Mod(r)) == unresolved(items@));
                }
                r
            },
            None => {
                let mut decl = ModDecl {
                    attrs,
                    ident,
                    content: None,
                    location: None,
                    probed: Ghost(Seq::empty()),
                    span,
                    syntax,
                };
                proof {
                    assert(unresolved_in(Node::Mod(m)) =~= seq![m.ident@]);
                }
                let candidates = self.mod_context.relative_to(&self.path, self.root);
                let ghost cands = candidate_locations(inner, start.location(), start.is_root());
                let ghost probes_before = self.probes@;
                let chosen = self.choose_location(&candidates, resolver);
                let ghost probes_chosen = self.probes@;
                let ghost found_w = choose|found: Seq<bool>|
                    {
                        &&& probe_run(crate::mod_path::views_of(candidates@), found)
                        &&& probes_chosen == probes_before + #[trigger] probe_log(
                            crate::mod_path::views_of(candidates@),
                            found,
                        )
                        &&& chosen == chosen_candidate(found, candidates@.len() as int)
                    };
                proof {
                    found_out = found_w;
                    assert(inner == start.context().push(decl_segment(m)));
                    assert(cands == mod_candidates(start.context(), m, start.location(), start.is_root()));
                    assert(crate::mod_path::views_of(candidates@) == cands);
                    assert(probe_log(cands, found_w).len() == found_w.len());
                    lemma_answers(cands, found_w);
                }
                decl.probed = Ghost(probe_log(cands, found_w));
                let path = candidates[chosen].clone();
                proof {
                    assert(path@ =~= candidates@[chosen as int]@);
                    assert(crate::mod_path::views_of(candidates@)[chosen as int] == path@);
                    assert(cands[chosen as int] == path@);
                }
                if self.depth == 0 {
                    let ghost log1 = *error_log;
                    if let Some(errors) = error_log {
                        errors.push(InlineError::new(&self.path, &decl, &path, LoadError::NestingLimit));
                    }
                    proof {
                        if log1 is Some {
                            lemma_log_push(log1, *error_log, error_log->0@.last());
                            assert(error_log->0@.subrange(0, log1->0@.len() as int) =~= log1->0@);
                        }
                        assert(log_pushed(log0, *error_log, start.location(), m, path@, LoadError::NestingLimit));
                        assert(located_in(Node::Mod(decl)) =~= Seq::<(Seq<u8>, bool)>::empty());
                        assert(self.probes() =~= start.probes() + probe_trace_in(Node::Mod(decl)));
                        lemma_recorded_push(
                            log0,
                            *error_log,
                            start.location(),
                            m,
                            path@,
                            LoadError::NestingLimit,
                            failures_in(Node::Mod(decl), start.location())[0],
                        );
                        assert(failures_in(Node::Mod(decl), start.location()) =~= seq![
                            failures_in(Node::Mod(decl), start.location())[0],
                        ]);
                        assert(self.probes().subrange(start.probes().len() as int, (start.probes().len() + found_w.len()) as int) =~= probe_log(cands, found_w));
                        assert(looked_for(mod_candidates(start.context(), m, start.location(), start.is_root()), found_w, start.probes(), self.probes(), start.depth_left(), decl.location));
                    }
                    decl
                } else {
                    let mut child = Visitor::nested(&path, false, self.annotate_paths, self.depth - 1);
                    let ghost log1 = *error_log;
                    assert(log1 == log0);
                    let loaded = child.visit(resolver, error_log);
                    proof {
                        self.loads@ = self.loads@ + child.loads@;
                        self.probes@ = self.probes@ + child.probes@;
                    }
                    let ghost loaded_view = loaded;
                    let ghost log2 = *error_log;
                    let ghost w = choose|o: Seq<Node>|
                        #[trigger] items_fresh(o) && nodes_expanded(
                            o,
                            loaded_view->Ok_0.items@,
                            Seq::empty(),
                            path@,
                            false,
                            start.annotates(),
                            (start.depth_left() - 1) as nat,
                        );
                    let src = &self.path;
                    let r = splice_loaded(decl, path, loaded, self.annotate_paths, src, error_log);
                    proof {
                        if loaded_view is Ok {
                            let f = loaded_view->Ok_0;
                            assert(r.content == Some(f.items));
                            lemma_log_same(log2);
                            lemma_log_compose(log0, log2, *error_log, unresolved(f.items@), seq![]);
                            assert(unresolved(f.items@) + seq![] =~= unresolved(f.items@));
                            assert(located_in(Node::Mod(r)) =~= seq![(r.location->0@, true)] + located(f.items@));
                            assert(self.loads() =~= start.loads() + located_in(Node::Mod(r)));
                            assert(self.probes() =~= start.probes() + probe_trace_in(Node::Mod(r)));
                            lemma_recorded_same(log2);
                            lemma_recorded_compose(log0, log2, *error_log, failures(f.items@, path@), seq![]);
                            assert(failures(f.items@, path@) + seq![] =~= failures(f.items@, path@));
                            assert(failures_in(Node::Mod(r), start.location()) == failures(f.items@, r.location->0@));
                            lemma_loaded_expanded(
                                m,
                                r,
                                start.context(),
                                start.location(),
                                start.is_root(),
                                start.annotates(),
                                start.depth_left(),
                                f.attrs@,
                                w,
                            );
                        } else {
                            let e = error_log->0@.last();
                            if log1 is Some {
                                assert(error_log->0@ =~= log2->0@.push(e));
                                lemma_log_push(log1, *error_log, e);
                            }
                            assert(log_pushed(log0, *error_log, start.location(), m, r.location->0@, loaded_view->Err_0));
                            assert(located_in(Node::Mod(r)) =~= seq![(r.location->0@, false)]);
                            assert(self.loads() =~= start.loads() + located_in(Node::Mod(r)));
                            assert(self.probes() =~= start.probes() + probe_trace_in(Node::Mod(r)));
                            lemma_recorded_push(
                                log0,
                                *error_log,
                                start.location(),
                                m,
                                r.location->0@,
                                loaded_view->Err_0,
                                failures_in(Node::Mod(r), start.location())[0],
                            );
                            assert(failures_in(Node::Mod(r), start.location()) =~= seq![
                                failures_in(Node::Mod(r), start.location())[0],
                            ]);
                        }
                        assert(self.probes@ == probes_chosen + child.probes@);
                        assert(self.probes().subrange(start.probes().len() as int, (start.probes().len() + found_w.len()) as int) =~= probe_log(cands, found_w));
                        assert(looked_for(mod_candidates(start.context(), m, start.location(), start.is_root()), found_w, start.probes(), self.probes(), start.depth_left(), r.location));
                    }
                    r
                }
            },
        };
        self.mod_context.pop();
        assert(self.mod_context@ =~= start.mod_context@);
        assert(m.content is None ==> looked_for(
            mod_candidates(start.context(), m, start.location(), start.is_root()),
            found_out,
            start.probes(),
            self.probes(),
            start.depth_left(),
            result.location,
        ));
        result
    }
}

} // verus!
