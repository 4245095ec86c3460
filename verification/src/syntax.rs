//! The trusted boundary to the `syn` parser: the top-level items of a
//! source file, reduced to plain values (variant, identifier, rendered
//! types, line span, and attribute paths with their lines). What the index
//! makes of them — the doc-comment rule, the attribute-macro
//! classification, the `impl` naming — is verified code in the index
//! builder.
#![allow(unused_imports)]
use crate::ItemType;
use quote::ToTokens;
use syn::spanned::Spanned;
use vstd::prelude::*;

verus! {

/// Abstract value of a [`RawAttr`].
pub struct RawAttrView {
    pub path: Seq<char>,
    pub line: usize,
}

/// One attribute of an item, as plain values: its path when that is a
/// single identifier (empty otherwise), and its 1-based start line.
#[derive(Debug, Clone)]
pub struct RawAttr {
    /// The attribute's path when it is a single identifier, else empty.
    pub path: String,
    /// The 1-based line the attribute starts on.
    pub line: usize,
}

impl View for RawAttr {
    type V = RawAttrView;

    open spec fn view(&self) -> RawAttrView {
        RawAttrView { path: self.path@, line: self.line }
    }
}

impl DeepView for RawAttr {
    type V = RawAttrView;

    open spec fn deep_view(&self) -> RawAttrView {
        self.view()
    }
}

/// Abstract value of a [`RawItem`].
pub struct RawItemView {
    pub tag: ItemType,
    pub name: Seq<char>,
    pub trait_name: Seq<char>,
    pub item_start: usize,
    pub item_end: usize,
    pub attrs: Seq<RawAttrView>,
}

/// One top-level item of a parsed source file, as plain values: which
/// declaration variant it is, its identifier (for an `impl` block, the
/// rendered self type and trait path), its 1-based line span, and its
/// attributes.
#[derive(Debug, Clone)]
pub struct RawItem {
    /// The declaration variant, as the parser reports it: `Function` for
    /// every free function, `ImplType` or `ImplTraitForType` by the
    /// presence of a trait.
    pub tag: ItemType,
    /// The declared identifier; for an `impl` block, the self type in
    /// canonical source rendering.
    pub name: String,
    /// For a trait implementation, the trait path in canonical source
    /// rendering; empty otherwise.
    pub trait_name: String,
    /// First line of the item, 1-based, its attributes included.
    pub item_start: usize,
    /// Last line of the item, 1-based.
    pub item_end: usize,
    /// The item's attributes.
    pub attrs: Vec<RawAttr>,
}

impl View for RawItem {
    type V = RawItemView;

    open spec fn view(&self) -> RawItemView {
        RawItemView {
            tag: self.tag,
            name: self.name@,
            trait_name: self.trait_name@,
            item_start: self.item_start,
            item_end: self.item_end,
            attrs: self.attrs.deep_view(),
        }
    }
}

impl DeepView for RawItem {
    type V = RawItemView;

    open spec fn deep_view(&self) -> RawItemView {
        self.view()
    }
}

#[verifier::external_type_specification]
#[verifier::external_body]
pub struct ExSynFile(syn::File);

#[verifier::external_type_specification]
#[verifier::external_body]
pub struct ExSynAttribute(syn::Attribute);

#[verifier::external_type_specification]
#[verifier::external_body]
pub struct ExSpan(proc_macro2::Span);

/// The recognized top-level items of `content` in file order, as plain
/// values, or `None` when the content does not parse as a source file; the
/// result of `syn::parse_file` and the items' spans, a function of the
/// content alone. Only the file's own top level is walked: declarations
/// inside inline modules are not indexed.
pub uninterp spec fn decls_of(content: Seq<char>) -> Option<Seq<RawItemView>>;

/// Relies on `proc_macro2::Span` (`start`, `end`, 1-based lines) and
/// `syn::Attribute` (`path`, `get_ident`): packs an item's plain values.
#[verifier::external_body]
fn mk_item(
    tag: ItemType,
    name: String,
    trait_name: String,
    span: proc_macro2::Span,
    attrs: &[syn::Attribute],
) -> (r: RawItem)
{
    let mut plain = Vec::new();
    for a in attrs {
        let path = a.path().get_ident().map(|i| i.to_string()).unwrap_or_default();
        plain.push(RawAttr { path, line: a.span().start().line });
    }
    RawItem { tag, name, trait_name, item_start: span.start().line, item_end: span.end().line, attrs: plain }
}

/// Relies on the `syn` item enum: tells the struct, enum and trait
/// variants of top-level item `i` apart; `None` for other variants or an
/// index past the items.
#[verifier::external_body]
fn type_item_at(f: &syn::File, i: usize) -> (r: Option<RawItem>)
{
    match f.items.get(i) {
        Some(syn::Item::Struct(x)) => Some(mk_item(ItemType::Struct, x.ident.to_string(), String::new(), x.span(), &x.attrs)),
        Some(syn::Item::Enum(x)) => Some(mk_item(ItemType::Enum, x.ident.to_string(), String::new(), x.span(), &x.attrs)),
        Some(syn::Item::Trait(x)) => Some(mk_item(ItemType::Trait, x.ident.to_string(), String::new(), x.span(), &x.attrs)),
        _ => None,
    }
}

/// Relies on the `syn` item enum: a type alias or a named declarative
/// macro at top-level item `i`; `None` for other variants.
#[verifier::external_body]
fn alias_macro_item_at(f: &syn::File, i: usize) -> (r: Option<RawItem>)
{
    match f.items.get(i) {
        Some(syn::Item::Type(x)) => Some(mk_item(ItemType::TypeAlias, x.ident.to_string(), String::new(), x.span(), &x.attrs)),
        Some(syn::Item::Macro(x)) => x.ident.as_ref().map(|id| mk_item(ItemType::Macro, id.to_string(), String::new(), x.span(), &x.attrs)),
        _ => None,
    }
}

/// Relies on the `syn` item enum and `quote::ToTokens`: a free function
/// (always tagged `Function`; the index decides the attribute-macro
/// classification) or an `impl` block (tagged by the presence of a trait,
/// with the self type and trait path rendered); `None` for other variants.
#[verifier::external_body]
fn fn_impl_item_at(f: &syn::File, i: usize) -> (r: Option<RawItem>)
{
    match f.items.get(i) {
        Some(syn::Item::Fn(x)) => Some(mk_item(ItemType::Function, x.sig.ident.to_string(), String::new(), x.span(), &x.attrs)),
        Some(syn::Item::Impl(x)) => {
            let tag = if x.trait_.is_some() { ItemType::ImplTraitForType } else { ItemType::ImplType };
            let tr = x.trait_.as_ref().map(|(_, p, _)| p.to_token_stream().to_string()).unwrap_or_default();
            Some(mk_item(tag, x.self_ty.to_token_stream().to_string(), tr, x.span(), &x.attrs))
        },
        _ => None,
    }
}

/// Relies on `syn::parse_file` and `syn::File`: parses the content and
/// hands out its recognized top-level items in file order, reduced to
/// plain values; `None` exactly when the content does not parse. The
/// result depends on the content alone.
#[verifier::external_body]
pub fn parse_decls(content: &str) -> (r: Option<Vec<RawItem>>)
    ensures
        r.deep_view() == decls_of(content@),
{
    let f = match syn::parse_file(content) { Ok(f) => f, Err(_) => return None };
    let mut out = Vec::new();
    for i in 0..f.items.len() {
        if let Some(x) = type_item_at(&f, i) {
            out.push(x);
        } else if let Some(x) = alias_macro_item_at(&f, i) {
            out.push(x);
        } else if let Some(x) = fn_impl_item_at(&f, i) {
            out.push(x);
        }
    }
    Some(out)
}

} // verus!
