//! The syntax tree as the walk sees it: module declarations with their attributes and bodies,
//! and every other item carried through untouched.

use proc_macro2::Span;
use syn::spanned::Spanned;
use vstd::prelude::*;

verus! {

#[verifier::external_type_specification]
#[verifier::external_body]
pub struct ExSynFile(syn::File);

#[verifier::external_type_specification]
#[verifier::external_body]
pub struct ExSynItem(syn::Item);

#[verifier::external_type_specification]
#[verifier::external_body]
pub struct ExSynItemMod(syn::ItemMod);

#[verifier::external_type_specification]
#[verifier::external_body]
pub struct ExSynAttribute(syn::Attribute);

#[verifier::external_type_specification]
#[verifier::external_body]
pub struct ExSynError(syn::Error);

#[verifier::external_type_specification]
#[verifier::external_body]
pub struct ExSpan(proc_macro2::Span);

/// Whether `syn::parse_file` accepts the text as a whole source file.
pub uninterp spec fn parses_as_file(src: Seq<char>) -> bool;

/// Relies on `syn::parse_file`: the syntax tree of a whole source file, or the parse error.
#[verifier::external_body]
pub(crate) fn parse_syntax(src: &str) -> (r: Result<syn::File, syn::Error>)
    ensures
        r is Ok == parses_as_file(src@),
{
    syn::parse_file(src)
}

/// Takes a `syn::File` apart into its shebang line, inner attributes and items.
#[verifier::external_body]
fn file_parts(f: syn::File) -> (Option<String>, Vec<syn::Attribute>, Vec<syn::Item>) {
    (f.shebang, f.attrs, f.items)
}

/// Builds a `syn::File` from its shebang line, inner attributes and items.
#[verifier::external_body]
fn file_from_parts(
    shebang: Option<String>,
    attrs: Vec<syn::Attribute>,
    items: Vec<syn::Item>,
) -> syn::File {
    syn::File { shebang, attrs, items }
}

/// Tells a `syn::Item::Mod` apart from the other kinds of item.
#[verifier::external_body]
fn syntax_as_mod(item: syn::Item) -> (r: Result<syn::ItemMod, syn::Item>)
    ensures
        r matches Err(other) ==> other == item,
{
    match item {
        syn::Item::Mod(m) => Ok(m),
        other => Err(other),
    }
}

/// Wraps a module declaration as a `syn::Item`.
#[verifier::external_body]
fn syntax_from_mod(m: syn::ItemMod) -> syn::Item {
    syn::Item::Mod(m)
}

/// Relies on the `Display` of `proc_macro2::Ident`: the module's name as written.
#[verifier::external_body]
fn syntax_mod_name(m: &syn::ItemMod) -> String {
    m.ident.to_string()
}

/// Relies on `syn::spanned::Spanned`: the span that the whole declaration covers.
#[verifier::external_body]
fn syntax_mod_span(m: &syn::ItemMod) -> Span {
    m.span()
}

/// Moves the attributes and the item list of the body out of a `syn::ItemMod`.
#[verifier::external_body]
fn syntax_take_mod_parts(m: &mut syn::ItemMod) -> (Vec<syn::Attribute>, Option<Vec<syn::Item>>) {
    let attrs = std::mem::take(&mut m.attrs);
    let content = m.content.take().map(|(_, items)| items);
    (attrs, content)
}

/// Puts attributes and a body back into a `syn::ItemMod`.
#[verifier::external_body]
fn syntax_put_mod_parts(
    m: &mut syn::ItemMod,
    attrs: Vec<syn::Attribute>,
    content: Option<Vec<syn::Item>>,
) {
    m.attrs = attrs;
    m.content = content.map(|items| (syn::token::Brace::default(), items));
}

/// Relies on `syn::Path::get_ident`: the attribute's name when it is a single identifier.
#[verifier::external_body]
fn syntax_attr_name(a: &syn::Attribute) -> Option<String> {
    a.path().get_ident().map(|i| i.to_string())
}

/// Relies on `syn::LitStr::value`: the string of an attribute of the form `name = "..."`.
#[verifier::external_body]
fn syntax_attr_str_value(a: &syn::Attribute) -> Option<String> {
    match &a.meta {
        syn::Meta::NameValue(nv) => match &nv.value {
            syn::Expr::Lit(syn::ExprLit { lit: syn::Lit::Str(s), .. }) => Some(s.value()),
            _ => None,
        },
        _ => None,
    }
}

/// Relies on `syn::Attribute::parse_args`: the bytes of an attribute of the form
/// `name(b"...")`.
#[verifier::external_body]
fn syntax_attr_byte_str_arg(a: &syn::Attribute) -> Option<Vec<u8>> {
    a.parse_args::<syn::LitByteStr>().ok().map(|lit| lit.value())
}

/// Relies on `proc_macro2::Literal::byte_string`: builds the attribute `#[name(b"...")]`.
/// `proc_macro2::Ident::new` panics on a name that is not an identifier, so only the
/// provenance marker's name is taken.
#[verifier::external_body]
fn syntax_byte_str_attr(name: &str, bytes: &[u8]) -> syn::Attribute
    requires
        name@ == MOD_PATH_ATTRIBUTE@,
{
    let lit = proc_macro2::Literal::byte_string(bytes);
    syn::Attribute {
        pound_token: Default::default(),
        style: syn::AttrStyle::Outer,
        bracket_token: Default::default(),
        meta: syn::Meta::List(syn::MetaList {
            path: syn::Ident::new(name, Span::call_site()).into(),
            delimiter: syn::MacroDelimiter::Paren(Default::default()),
            tokens: proc_macro2::TokenTree::Literal(lit).into(),
        }),
    }
}

/// The name of the attribute that overrides where a module's file is found.
pub const PATH_ATTRIBUTE: &'static str = "path";

/// The name of the attribute that records which file an inlined module was loaded from.
pub const MOD_PATH_ATTRIBUTE: &'static str = "syn_inline_mod_path";

/// How deep inline modules may nest within one file before their contents are carried
/// through as plain items.
pub const MAX_INLINE_NESTING: usize = 256;

/// An attribute, with what the walk reads of it.
pub struct Attr {
    /// The attribute as written.
    pub syntax: syn::Attribute,
    /// `Some(v)` for an explicit path override `#[path = "v"]`.
    pub path_value: Option<String>,
    /// `Some(b)` for a provenance marker `#[syn_inline_mod_path(b"...")]`.
    pub mod_path: Option<Vec<u8>>,
}

/// An item of a file or of a module body.
pub enum Node {
    /// A module declaration, inline or forward.
    Mod(ModDecl),
    /// Any other item, carried through as it was parsed.
    Other(syn::Item),
}

/// A module declaration.
pub struct ModDecl {
    /// The declaration-site attributes, followed by the body's inner attributes once the
    /// body was loaded from a file.
    pub attrs: Vec<Attr>,
    /// The module's name.
    pub ident: String,
    /// The body's items; `None` for a forward declaration `mod name;`.
    pub content: Option<Vec<Node>>,
    /// The file a walk looked for the body in, when it sent the declaration to a resolver.
    pub location: Option<Vec<u8>>,
    /// The existence checks a walk made for the declaration's candidate locations, in order,
    /// each with its answer.
    pub probed: Ghost<Seq<(Seq<u8>, bool)>>,
    /// The span of the declaration in the file it was parsed from.
    pub span: Span,
    /// The rest of the declaration's syntax: visibility, keyword and name.
    pub syntax: syn::ItemMod,
}

/// A parsed source file.
pub struct SourceFile {
    pub shebang: Option<String>,
    /// The file's inner attributes.
    pub attrs: Vec<Attr>,
    pub items: Vec<Node>,
}

/// No module declaration in the item has been looked for or sent to a resolver yet.
pub open spec fn item_fresh(i: Node) -> bool
    decreases i,
{
    match i {
        Node::Other(_) => true,
        Node::Mod(m) => {
            &&& m.location is None
            &&& m.probed@.len() == 0
            &&& match m.content {
                Some(c) => forall|j: int| 0 <= j < c@.len() ==> item_fresh(#[trigger] c@[j]),
                None => true,
            }
        },
    }
}

/// No module declaration in the items has been sent to a resolver yet.
pub open spec fn items_fresh(s: Seq<Node>) -> bool {
    forall|j: int| 0 <= j < s.len() ==> item_fresh(#[trigger] s[j])
}

/// The items in reverse order.
pub(crate) fn reversed<T>(v: Vec<T>) -> (r: Vec<T>)
    ensures
        r@ == v@.reverse(),
{
    let mut v = v;
    let mut r: Vec<T> = Vec::new();
    let ghost orig = v@;
    while v.len() > 0
        invariant
            orig == v@ + r@.reverse(),
        decreases v@.len(),
    {
        let x = v.pop().unwrap();
        proof {
            assert(r@.push(x).reverse() =~= seq![x] + r@.reverse());
        }
        r.push(x);
        proof {
            assert(orig =~= v@ + r@.reverse());
        }
    }
    assert(r@.reverse().reverse() =~= r@);
    assert(r@ =~= orig.reverse());
    r
}

impl Attr {
    /// Reads what the walk needs of an attribute.
    pub fn from_syn(syntax: syn::Attribute) -> (r: Attr)
        ensures
            r.syntax == syntax,
    {
        let name = syntax_attr_name(&syntax);
        let str_value = syntax_attr_str_value(&syntax);
        let byte_str_arg = syntax_attr_byte_str_arg(&syntax);
        Attr::from_parts(syntax, name, str_value, byte_str_arg)
    }

    /// An attribute from its syntax and what was read of it: `name`, its name when that is
    /// a single identifier; `str_value`, its string when it has the form `name = "..."`;
    /// `byte_str_arg`, its bytes when it has the form `name(b"...")`.
    pub fn from_parts(
        syntax: syn::Attribute,
        name: Option<String>,
        str_value: Option<String>,
        byte_str_arg: Option<Vec<u8>>,
    ) -> (r: Attr)
        ensures
            r.syntax == syntax,
            r.path_value == (if name matches Some(n) && n@ == PATH_ATTRIBUTE@ {
                str_value
            } else {
                None
            }),
            r.mod_path == (if name matches Some(n) && n@ == MOD_PATH_ATTRIBUTE@ {
                byte_str_arg
            } else {
                None
            }),
    {
        let mut path_value: Option<String> = None;
        let mut mod_path: Option<Vec<u8>> = None;
        if let Some(n) = name {
            proof {
                reveal_strlit("path");
                reveal_strlit("syn_inline_mod_path");
                assert(PATH_ATTRIBUTE@.len() != MOD_PATH_ATTRIBUTE@.len());
            }
            if n == PATH_ATTRIBUTE.to_owned() {
                path_value = str_value;
            } else if n == MOD_PATH_ATTRIBUTE.to_owned() {
                mod_path = byte_str_arg;
            }
        }
        Attr { syntax, path_value, mod_path }
    }

    /// The provenance marker that records `location` as the file a module was loaded from.
    pub fn mod_path_marker(location: &Vec<u8>) -> (r: Attr)
        ensures
            r.mod_path matches Some(b) && b@ == location@,
            r.path_value is None,
    {
        let syntax = syntax_byte_str_attr(MOD_PATH_ATTRIBUTE, location.as_slice());
        let bytes = location.clone();
        assert(bytes@ =~= location@);
        Attr { syntax, path_value: None, mod_path: Some(bytes) }
    }
}

fn attrs_from_syn(v: Vec<syn::Attribute>) -> (r: Vec<Attr>)
    ensures
        r@.len() == v@.len(),
        forall|j: int| 0 <= j < r@.len() ==> (#[trigger] r@[j]).syntax == v@[j],
{
    let ghost orig = v@;
    let n = v.len();
    let mut rest = reversed(v);
    let mut r: Vec<Attr> = Vec::new();
    while rest.len() > 0
        invariant
            orig.len() == n,
            r@.len() + rest@.len() == n,
            forall|k: int| 0 <= k < rest@.len() ==> rest@[k] == orig[n - 1 - k],
            forall|j: int| 0 <= j < r@.len() ==> (#[trigger] r@[j]).syntax == orig[j],
        decreases rest@.len(),
    {
        let ghost k = rest@.len() - 1;
        let a = rest.pop().unwrap();
        proof {
            assert(a == orig[n - 1 - k]);
        }
        r.push(Attr::from_syn(a));
    }
    r
}

fn attrs_into_syn(v: Vec<Attr>) -> (r: Vec<syn::Attribute>)
    ensures
        r@.len() == v@.len(),
{
    let mut rest = reversed(v);
    let mut r: Vec<syn::Attribute> = Vec::new();
    let ghost n = rest@.len();
    while rest.len() > 0
        invariant
            r@.len() + rest@.len() == n,
        decreases rest@.len(),
    {
        let a = rest.pop().unwrap();
        r.push(a.syntax);
    }
    r
}

fn items_from_syn(v: Vec<syn::Item>, depth: usize) -> (r: Vec<Node>)
    ensures
        r@.len() == v@.len(),
        items_fresh(r@),
        forall|j: int| 0 <= j < r@.len() ==> ((#[trigger] r@[j]) matches Node::Other(o) ==> o == v@[j]),
    decreases depth, 1usize,
{
    let ghost orig = v@;
    let n = v.len();
    let mut rest = reversed(v);
    let mut r: Vec<Node> = Vec::new();
    while rest.len() > 0
        invariant
            orig.len() == n,
            r@.len() + rest@.len() == n,
            forall|k: int| 0 <= k < rest@.len() ==> rest@[k] == orig[n - 1 - k],
            items_fresh(r@),
            forall|j: int| 0 <= j < r@.len() ==> ((#[trigger] r@[j]) matches Node::Other(o) ==> o == orig[j]),
        decreases rest@.len(),
    {
        let ghost k = rest@.len() - 1;
        let i = rest.pop().unwrap();
        proof {
            assert(i == orig[n - 1 - k]);
        }
        let item = item_from_syn(i, depth);
        r.push(item);
        assert(item_fresh(r@[r@.len() - 1]));
    }
    r
}

fn item_from_syn(i: syn::Item, depth: usize) -> (r: Node)
    ensures
        item_fresh(r),
        r matches Node::Other(o) ==> o == i,
    decreases depth, 0usize,
{
    if depth == 0 {
        return Node::Other(i);
    }
    match syntax_as_mod(i) {
        Ok(m) => Node::Mod(ModDecl::from_syn(m, depth - 1)),
        Err(other) => Node::Other(other),
    }
}

impl ModDecl {
    fn from_syn(m: syn::ItemMod, depth: usize) -> (r: ModDecl)
        ensures
            item_fresh(Node::Mod(r)),
        decreases depth, 2usize,
    {
        let mut m = m;
        let ident = syntax_mod_name(&m);
        let span = syntax_mod_span(&m);
        let (attrs, content) = syntax_take_mod_parts(&mut m);
        let attrs = attrs_from_syn(attrs);
        let content = match content {
            Some(items) => Some(items_from_syn(items, depth)),
            None => None,
        };
        ModDecl { attrs, ident, content, location: None, probed: Ghost(Seq::empty()), span, syntax: m }
    }

    /// The declaration as a `syn::ItemMod`.
    pub fn into_syn(self) -> syn::ItemMod
        decreases self,
    {
        let ModDecl { attrs, content, syntax, .. } = self;
        let mut syntax = syntax;
        let attrs = attrs_into_syn(attrs);
        let content = match content {
            Some(items) => Some(items_into_syn(items)),
            None => None,
        };
        syntax_put_mod_parts(&mut syntax, attrs, content);
        syntax
    }
}

impl Node {
    /// The item as a `syn::Item`.
    pub fn into_syn(self) -> syn::Item
        decreases self,
    {
        match self {
            Node::Mod(m) => syntax_from_mod(m.into_syn()),
            Node::Other(i) => i,
        }
    }
}

fn items_into_syn(v: Vec<Node>) -> (r: Vec<syn::Item>)
    ensures
        r@.len() == v@.len(),
    decreases v,
{
    let ghost orig = v@;
    let n = v.len();
    let mut rest = reversed(v);
    let mut r: Vec<syn::Item> = Vec::new();
    while rest.len() > 0
        invariant
            orig.len() == n,
            v@ == orig,
            r@.len() + rest@.len() == n,
            forall|k: int| 0 <= k < rest@.len() ==> rest@[k] == orig[n - 1 - k],
        decreases rest@.len(),
    {
        let ghost k = rest@.len() - 1;
        let item = rest.pop().unwrap();
        proof {
            assert(0 <= n - 1 - k < orig.len());
            assert(item == orig[n - 1 - k]);
            assert(decreases_to!(v => v[n - 1 - k]));
        }
        r.push(item.into_syn());
    }
    r
}

impl SourceFile {
    /// Reads what the walk needs of a parsed file: its inner attributes, one for one, and
    /// its items, one for one, every item that is not a module carried as it is.
    ///
    /// Inline modules nested more than `MAX_INLINE_NESTING` deep are carried through as
    /// plain items: the declarations inside them are neither loaded nor reported.
    pub fn from_syn(f: syn::File) -> (r: SourceFile)
        ensures
            items_fresh(r.items@),
    {
        let (shebang, attrs, items) = file_parts(f);
        let attrs = attrs_from_syn(attrs);
        let items = items_from_syn(items, MAX_INLINE_NESTING);
        SourceFile { shebang, attrs, items }
    }

    /// Parses source text.
    pub fn parse(src: &str) -> (r: Result<SourceFile, syn::Error>)
        ensures
            r is Ok == parses_as_file(src@),
            r matches Ok(f) ==> items_fresh(f.items@),
    {
        match parse_syntax(src) {
            Ok(f) => Ok(SourceFile::from_syn(f)),
            Err(e) => Err(e),
        }
    }

    /// The file as a `syn::File`.
    pub fn into_syn(self) -> syn::File {
        let SourceFile { shebang, attrs, items } = self;
        let attrs = attrs_into_syn(attrs);
        let items = items_into_syn(items);
        file_from_parts(shebang, attrs, items)
    }
}

} // verus!
