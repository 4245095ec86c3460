//! The declaration index: nine per-kind buckets of items keyed by
//! lowercased name, the exact search over them, and the builder that fills
//! them from parsed source files.
#![allow(unused_imports)]
use vstd::prelude::*;

use crate::syntax::{decls_of, parse_decls, RawAttr, RawAttrView, RawItem, RawItemView};
use crate::text::{contains_seq, lower_of, lowercase, path_starts_with, path_prefix_matches, str_contains};
use crate::{Item, ItemQuery, ItemType, LineRange};

verus! {

/// One indexed declaration: the search key (the lowercased name) and the
/// item itself.
#[derive(Debug, Clone)]
pub struct IndexEntry {
    /// The lowercased declaration name, the key the query is matched
    /// against.
    pub key: String,
    /// The indexed declaration.
    pub item: Item,
}

/// An entry is well-formed for a bucket of kind `kind` when its key is the
/// lowercased name, its line range is ordered, and its item is of the
/// bucket's kind.
pub open spec fn entry_wf(e: IndexEntry, kind: ItemType) -> bool {
    &&& e.key@ == lower_of(e.item.name@)
    &&& e.item.wf()
    &&& e.item.type_ == kind
}

/// All entries of a bucket are well-formed for its kind.
pub open spec fn bucket_wf(b: Seq<IndexEntry>, kind: ItemType) -> bool {
    forall|i: int| 0 <= i < b.len() ==> entry_wf(#[trigger] b[i], kind)
}

/// The declaration index: one bucket per declaration kind, in the fixed
/// order searches merge them.
#[derive(Debug, Clone)]
pub struct SearchIndexMut {
    /// Struct declarations.
    pub structs: Vec<IndexEntry>,
    /// Enum declarations.
    pub enums: Vec<IndexEntry>,
    /// Trait declarations.
    pub traits: Vec<IndexEntry>,
    /// Bare `impl` blocks.
    pub impl_types: Vec<IndexEntry>,
    /// `impl Trait for Type` blocks.
    pub impl_trait_for_types: Vec<IndexEntry>,
    /// Declarative macros.
    pub macros: Vec<IndexEntry>,
    /// Procedural attribute macros.
    pub attribute_macros: Vec<IndexEntry>,
    /// Free functions.
    pub functions: Vec<IndexEntry>,
    /// Type aliases.
    pub type_aliases: Vec<IndexEntry>,
}

/// A frozen declaration index.
pub type SearchIndex = SearchIndexMut;

/// A query matches an entry when the lowercased query is a substring of
/// the key, and the entry's file lies under the query's path, if one is
/// given.
pub open spec fn entry_matches(e: IndexEntry, q: Seq<char>, path: Option<Seq<char>>) -> bool {
    &&& contains_seq(e.key@, q)
    &&& match path {
        Option::None => true,
        Option::Some(p) => path_starts_with(e.item.file@, p),
    }
}

/// The items of `b` that match, in bucket order.
pub open spec fn filter_spec(b: Seq<IndexEntry>, q: Seq<char>, path: Option<Seq<char>>) -> Seq<
    Item,
>
    decreases b.len(),
{
    if b.len() == 0 {
        Seq::empty()
    } else {
        let rest = filter_spec(b.drop_last(), q, path);
        if entry_matches(b.last(), q, path) {
            rest.push(b.last().item)
        } else {
            rest
        }
    }
}

/// An exact copy of an item.
pub fn clone_item(it: &Item) -> (r: Item)
    ensures
        r == *it,
{
    Item {
        name: it.name.clone(),
        type_: it.type_,
        file: it.file.clone(),
        line_range: it.line_range,
    }
}

/// The items of `items` whose key holds `q` and whose file lies under
/// `path`, in bucket order.
pub fn filter_items(q: &String, items: &Vec<IndexEntry>, path: &Option<String>) -> (r: Vec<Item>)
    ensures
        r@ == filter_spec(items@, q@, path.deep_view()),
{
    let mut out: Vec<Item> = Vec::new();
    let mut i: usize = 0;
    while i < items.len()
        invariant
            0 <= i <= items@.len(),
            out@ == filter_spec(items@.subrange(0, i as int), q@, path.deep_view()),
        decreases items@.len() - i,
    {
        let e = &items[i];
        let hit = str_contains(e.key.as_str(), q.as_str());
        let pass = match path {
            Option::None => true,
            Option::Some(p) => path_prefix_matches(e.item.file.as_str(), p.as_str()),
        };
        if hit && pass {
            out.push(clone_item(&e.item));
        }
        i += 1;
        proof {
            let pre = items@.subrange(0, i as int);
            assert(pre.drop_last() =~= items@.subrange(0, i - 1));
            assert(pre.last() == items@[i - 1]);
        }
    }
    proof {
        assert(items@.subrange(0, items@.len() as int) =~= items@);
    }
    out
}

/// Some attribute has exactly the path `name`.
pub open spec fn has_attr(attrs: Seq<RawAttrView>, name: Seq<char>) -> bool {
    exists|i: int| 0 <= i < attrs.len() && (#[trigger] attrs[i]).path == name
}

/// The kind a declaration is indexed under: a free function whose
/// attributes carry the procedural attribute-macro marker becomes an
/// attribute macro; every other declaration keeps its variant.
pub open spec fn decl_kind(d: RawItemView) -> ItemType {
    if d.tag == ItemType::Function && has_attr(d.attrs, "proc_macro_attribute"@) {
        ItemType::AttributeMacro
    } else {
        d.tag
    }
}

/// The name a declaration is indexed under: `impl <type>` for a bare
/// implementation, `impl <trait> for <type>` for a trait implementation,
/// else the declared identifier.
pub open spec fn decl_name(d: RawItemView) -> Seq<char> {
    if d.tag == ItemType::ImplType {
        "impl "@ + d.name
    } else if d.tag == ItemType::ImplTraitForType {
        "impl "@ + d.trait_name + " for "@ + d.name
    } else {
        d.name
    }
}

/// The smallest line among `base` and the start lines of the documentation
/// attributes.
pub open spec fn doc_min(attrs: Seq<RawAttrView>, base: usize) -> usize
    decreases attrs.len(),
{
    if attrs.len() == 0 {
        base
    } else {
        let rest = doc_min(attrs.drop_last(), base);
        if attrs.last().path == "doc"@ && attrs.last().line < rest {
            attrs.last().line
        } else {
            rest
        }
    }
}

/// The recorded start line: the declaration's own start extended leftward
/// over its documentation comments, clamped to stay 1-based.
pub open spec fn decl_start(d: RawItemView) -> usize {
    let m = doc_min(d.attrs, d.item_start);
    if m == 0 {
        1
    } else {
        m
    }
}

/// The recorded end line: the declaration's last line, clamped so the
/// range stays ordered.
pub open spec fn decl_end(d: RawItemView) -> usize {
    if d.item_end < decl_start(d) {
        decl_start(d)
    } else {
        d.item_end
    }
}

/// The index entry records declaration `d` of file `file`: the rendered
/// name in original case, the lowercased key, the classified kind, and the
/// doc-extended line range.
pub open spec fn entry_of_decl(e: IndexEntry, d: RawItemView, file: Seq<char>) -> bool {
    &&& e.item.name@ == decl_name(d)
    &&& e.key@ == lower_of(decl_name(d))
    &&& e.item.type_ == decl_kind(d)
    &&& e.item.file@ == file
    &&& e.item.line_range.start == decl_start(d)
    &&& e.item.line_range.end == decl_end(d)
}

/// The declarations of `ds` that are indexed under `kind`, in order.
pub open spec fn decls_for(ds: Seq<RawItemView>, kind: ItemType) -> Seq<RawItemView>
    decreases ds.len(),
{
    if ds.len() == 0 {
        Seq::empty()
    } else {
        let rest = decls_for(ds.drop_last(), kind);
        if decl_kind(ds.last()) == kind {
            rest.push(ds.last())
        } else {
            rest
        }
    }
}

/// `new` is `old` extended with exactly one entry per declaration of `ds`,
/// in order, each recording its declaration for the file `file`.
pub open spec fn bucket_filled(
    old: Seq<IndexEntry>,
    new: Seq<IndexEntry>,
    ds: Seq<RawItemView>,
    file: Seq<char>,
) -> bool {
    &&& new.len() == old.len() + ds.len()
    &&& forall|j: int| 0 <= j < old.len() ==> new[j] == old[j]
    &&& forall|j: int|
        0 <= j < ds.len() ==> entry_of_decl(#[trigger] new[old.len() + j], ds[j], file)
}

/// Every bucket of `new` is the matching bucket of `old` filled with
/// exactly the declarations of `ds` indexed under its kind.
pub open spec fn index_filled(
    old: SearchIndexMut,
    new: SearchIndexMut,
    ds: Seq<RawItemView>,
    file: Seq<char>,
) -> bool {
    &&& bucket_filled(old.structs@, new.structs@, decls_for(ds, ItemType::Struct), file)
    &&& bucket_filled(old.enums@, new.enums@, decls_for(ds, ItemType::Enum), file)
    &&& bucket_filled(old.traits@, new.traits@, decls_for(ds, ItemType::Trait), file)
    &&& bucket_filled(old.impl_types@, new.impl_types@, decls_for(ds, ItemType::ImplType), file)
    &&& bucket_filled(
        old.impl_trait_for_types@,
        new.impl_trait_for_types@,
        decls_for(ds, ItemType::ImplTraitForType),
        file,
    )
    &&& bucket_filled(old.macros@, new.macros@, decls_for(ds, ItemType::Macro), file)
    &&& bucket_filled(
        old.attribute_macros@,
        new.attribute_macros@,
        decls_for(ds, ItemType::AttributeMacro),
        file,
    )
    &&& bucket_filled(old.functions@, new.functions@, decls_for(ds, ItemType::Function), file)
    &&& bucket_filled(old.type_aliases@, new.type_aliases@, decls_for(ds, ItemType::TypeAlias), file)
}

/// Indexing a single declaration lands it in exactly its kind's bucket.
proof fn lemma_decls_for_single(d: RawItemView, kind: ItemType)
    ensures
        decls_for(seq![d], kind) == if decl_kind(d) == kind {
            seq![d]
        } else {
            Seq::<RawItemView>::empty()
        },
{
    assert(seq![d].drop_last() =~= Seq::<RawItemView>::empty());
    assert(decls_for(Seq::<RawItemView>::empty(), kind) == Seq::<RawItemView>::empty());
    assert(seq![d].last() == d);
    if decl_kind(d) == kind {
        assert(decls_for(seq![d], kind) =~= seq![d]);
    } else {
        assert(decls_for(seq![d], kind) =~= Seq::<RawItemView>::empty());
    }
}

/// An index is trivially filled with no declarations.
pub proof fn lemma_index_filled_refl(x: SearchIndexMut, file: Seq<char>)
    ensures
        index_filled(x, x, Seq::<RawItemView>::empty(), file),
{
    assert(decls_for(Seq::<RawItemView>::empty(), ItemType::Struct) == Seq::<RawItemView>::empty());
    assert(decls_for(Seq::<RawItemView>::empty(), ItemType::Enum) == Seq::<RawItemView>::empty());
    assert(decls_for(Seq::<RawItemView>::empty(), ItemType::Trait) == Seq::<RawItemView>::empty());
    assert(decls_for(Seq::<RawItemView>::empty(), ItemType::ImplType) == Seq::<
        RawItemView,
    >::empty());
    assert(decls_for(Seq::<RawItemView>::empty(), ItemType::ImplTraitForType) == Seq::<
        RawItemView,
    >::empty());
    assert(decls_for(Seq::<RawItemView>::empty(), ItemType::Macro) == Seq::<RawItemView>::empty());
    assert(decls_for(Seq::<RawItemView>::empty(), ItemType::AttributeMacro) == Seq::<
        RawItemView,
    >::empty());
    assert(decls_for(Seq::<RawItemView>::empty(), ItemType::Function) == Seq::<
        RawItemView,
    >::empty());
    assert(decls_for(Seq::<RawItemView>::empty(), ItemType::TypeAlias) == Seq::<
        RawItemView,
    >::empty());
}

proof fn lemma_bucket_filled_concat(
    o: Seq<IndexEntry>,
    m: Seq<IndexEntry>,
    n: Seq<IndexEntry>,
    f1: Seq<RawItemView>,
    f2: Seq<RawItemView>,
    file: Seq<char>,
)
    requires
        bucket_filled(o, m, f1, file),
        bucket_filled(m, n, f2, file),
    ensures
        bucket_filled(o, n, f1 + f2, file),
{
    assert forall|j: int| 0 <= j < (f1 + f2).len() implies entry_of_decl(
        #[trigger] n[o.len() + j],
        (f1 + f2)[j],
        file,
    ) by {
        if j < f1.len() {
            assert(n[o.len() + j] == m[o.len() + j]);
            assert((f1 + f2)[j] == f1[j]);
            assert(entry_of_decl(m[o.len() + j], f1[j], file));
        } else {
            assert((f1 + f2)[j] == f2[j - f1.len()]);
            assert(entry_of_decl(n[m.len() + (j - f1.len())], f2[j - f1.len()], file));
            assert(m.len() + (j - f1.len()) == o.len() + j);
        }
    }
}

/// Indexing one more declaration extends the filled prefix by one.
proof fn lemma_index_filled_step(
    o: SearchIndexMut,
    m: SearchIndexMut,
    n: SearchIndexMut,
    ds: Seq<RawItemView>,
    i: int,
    file: Seq<char>,
)
    requires
        0 <= i < ds.len(),
        index_filled(o, m, ds.subrange(0, i), file),
        index_filled(m, n, seq![ds[i]], file),
    ensures
        index_filled(o, n, ds.subrange(0, i + 1), file),
{
    let pre = ds.subrange(0, i);
    let nxt = ds.subrange(0, i + 1);
    assert(nxt.drop_last() =~= pre);
    assert(nxt.last() == ds[i]);
    assert(seq![ds[i]].drop_last() =~= Seq::<RawItemView>::empty());
    assert(seq![ds[i]].last() == ds[i]);
    assert forall|kind: ItemType| true implies #[trigger] decls_for(nxt, kind) == decls_for(
        pre,
        kind,
    ) + decls_for(seq![ds[i]], kind) by {
        lemma_decls_for_single(ds[i], kind);
        if decl_kind(ds[i]) == kind {
            assert(decls_for(nxt, kind) =~= decls_for(pre, kind) + decls_for(seq![ds[i]], kind));
        } else {
            assert(decls_for(nxt, kind) =~= decls_for(pre, kind) + decls_for(seq![ds[i]], kind));
        }
    }
    lemma_bucket_filled_concat(
        o.structs@,
        m.structs@,
        n.structs@,
        decls_for(pre, ItemType::Struct),
        decls_for(seq![ds[i]], ItemType::Struct),
        file,
    );
    lemma_bucket_filled_concat(
        o.enums@,
        m.enums@,
        n.enums@,
        decls_for(pre, ItemType::Enum),
        decls_for(seq![ds[i]], ItemType::Enum),
        file,
    );
    lemma_bucket_filled_concat(
        o.traits@,
        m.traits@,
        n.traits@,
        decls_for(pre, ItemType::Trait),
        decls_for(seq![ds[i]], ItemType::Trait),
        file,
    );
    lemma_bucket_filled_concat(
        o.impl_types@,
        m.impl_types@,
        n.impl_types@,
        decls_for(pre, ItemType::ImplType),
        decls_for(seq![ds[i]], ItemType::ImplType),
        file,
    );
    lemma_bucket_filled_concat(
        o.impl_trait_for_types@,
        m.impl_trait_for_types@,
        n.impl_trait_for_types@,
        decls_for(pre, ItemType::ImplTraitForType),
        decls_for(seq![ds[i]], ItemType::ImplTraitForType),
        file,
    );
    lemma_bucket_filled_concat(
        o.macros@,
        m.macros@,
        n.macros@,
        decls_for(pre, ItemType::Macro),
        decls_for(seq![ds[i]], ItemType::Macro),
        file,
    );
    lemma_bucket_filled_concat(
        o.attribute_macros@,
        m.attribute_macros@,
        n.attribute_macros@,
        decls_for(pre, ItemType::AttributeMacro),
        decls_for(seq![ds[i]], ItemType::AttributeMacro),
        file,
    );
    lemma_bucket_filled_concat(
        o.functions@,
        m.functions@,
        n.functions@,
        decls_for(pre, ItemType::Function),
        decls_for(seq![ds[i]], ItemType::Function),
        file,
    );
    lemma_bucket_filled_concat(
        o.type_aliases@,
        m.type_aliases@,
        n.type_aliases@,
        decls_for(pre, ItemType::TypeAlias),
        decls_for(seq![ds[i]], ItemType::TypeAlias),
        file,
    );
}

impl SearchIndexMut {
    /// Every bucket holds only well-formed entries of its kind.
    pub open spec fn wf(&self) -> bool {
        &&& bucket_wf(self.structs@, ItemType::Struct)
        &&& bucket_wf(self.enums@, ItemType::Enum)
        &&& bucket_wf(self.traits@, ItemType::Trait)
        &&& bucket_wf(self.impl_types@, ItemType::ImplType)
        &&& bucket_wf(self.impl_trait_for_types@, ItemType::ImplTraitForType)
        &&& bucket_wf(self.macros@, ItemType::Macro)
        &&& bucket_wf(self.attribute_macros@, ItemType::AttributeMacro)
        &&& bucket_wf(self.functions@, ItemType::Function)
        &&& bucket_wf(self.type_aliases@, ItemType::TypeAlias)
    }

    /// An empty index.
    pub fn new() -> (r: SearchIndexMut)
        ensures
            r.wf(),
            r.structs@.len() == 0,
            r.enums@.len() == 0,
            r.traits@.len() == 0,
            r.impl_types@.len() == 0,
            r.impl_trait_for_types@.len() == 0,
            r.macros@.len() == 0,
            r.attribute_macros@.len() == 0,
            r.functions@.len() == 0,
            r.type_aliases@.len() == 0,
    {
        SearchIndexMut {
            structs: Vec::new(),
            enums: Vec::new(),
            traits: Vec::new(),
            impl_types: Vec::new(),
            impl_trait_for_types: Vec::new(),
            macros: Vec::new(),
            attribute_macros: Vec::new(),
            functions: Vec::new(),
            type_aliases: Vec::new(),
        }
    }

    /// The result a search yields: the matching items of the queried kind's
    /// bucket, or of all nine buckets appended in the fixed order.
    pub open spec fn search_spec(&self, type_: ItemType, q: Seq<char>, path: Option<Seq<char>>) -> Seq<
        Item,
    > {
        match type_ {
            ItemType::All => filter_spec(self.structs@, q, path) + filter_spec(self.enums@, q, path)
                + filter_spec(self.traits@, q, path) + filter_spec(self.impl_types@, q, path)
                + filter_spec(self.impl_trait_for_types@, q, path) + filter_spec(
                self.macros@,
                q,
                path,
            ) + filter_spec(self.attribute_macros@, q, path) + filter_spec(self.functions@, q, path)
                + filter_spec(self.type_aliases@, q, path),
            ItemType::Struct => filter_spec(self.structs@, q, path),
            ItemType::Enum => filter_spec(self.enums@, q, path),
            ItemType::Trait => filter_spec(self.traits@, q, path),
            ItemType::ImplType => filter_spec(self.impl_types@, q, path),
            ItemType::ImplTraitForType => filter_spec(self.impl_trait_for_types@, q, path),
            ItemType::Macro => filter_spec(self.macros@, q, path),
            ItemType::AttributeMacro => filter_spec(self.attribute_macros@, q, path),
            ItemType::Function => filter_spec(self.functions@, q, path),
            ItemType::TypeAlias => filter_spec(self.type_aliases@, q, path),
        }
    }

    /// Search the index: the query string is lowercased and matched as a
    /// substring of each key.
    pub fn search(&self, query: &ItemQuery) -> (r: Vec<Item>)
        ensures
            r@ == self.search_spec(query.type_, lower_of(query.query@), query.path.deep_view()),
    {
        let q = lowercase(query.query.as_str());
        let path = &query.path;
        match query.type_ {
            ItemType::All => {
                let mut all = filter_items(&q, &self.structs, path);
                let mut part = filter_items(&q, &self.enums, path);
                all.append(&mut part);
                let mut part = filter_items(&q, &self.traits, path);
                all.append(&mut part);
                let mut part = filter_items(&q, &self.impl_types, path);
                all.append(&mut part);
                let mut part = filter_items(&q, &self.impl_trait_for_types, path);
                all.append(&mut part);
                let mut part = filter_items(&q, &self.macros, path);
                all.append(&mut part);
                let mut part = filter_items(&q, &self.attribute_macros, path);
                all.append(&mut part);
                let mut part = filter_items(&q, &self.functions, path);
                all.append(&mut part);
                let mut part = filter_items(&q, &self.type_aliases, path);
                all.append(&mut part);
                all
            },
            ItemType::Struct => filter_items(&q, &self.structs, path),
            ItemType::Enum => filter_items(&q, &self.enums, path),
            ItemType::Trait => filter_items(&q, &self.traits, path),
            ItemType::ImplType => filter_items(&q, &self.impl_types, path),
            ItemType::ImplTraitForType => filter_items(&q, &self.impl_trait_for_types, path),
            ItemType::Macro => filter_items(&q, &self.macros, path),
            ItemType::AttributeMacro => filter_items(&q, &self.attribute_macros, path),
            ItemType::Function => filter_items(&q, &self.functions, path),
            ItemType::TypeAlias => filter_items(&q, &self.type_aliases, path),
        }
    }

    /// Freeze the index.
    pub fn freeze(self) -> (r: SearchIndex)
        ensures
            r == self,
    {
        self
    }
}

/// Whether any attribute of `attrs` has exactly the path `name`.
fn has_attr_exec(attrs: &Vec<RawAttr>, name: &str) -> (r: bool)
    ensures
        r == has_attr(attrs.deep_view(), name@),
{
    let mut i: usize = 0;
    while i < attrs.len()
        invariant
            0 <= i <= attrs@.len(),
            forall|j: int| 0 <= j < i ==> (#[trigger] attrs.deep_view()[j]).path != name@,
        decreases attrs@.len() - i,
    {
        proof {
            assert(attrs.deep_view()[i as int] == attrs@[i as int]@);
        }
        if crate::text::str_eq(attrs[i].path.as_str(), name) {
            proof {
                assert(attrs.deep_view()[i as int].path == name@);
            }
            return true;
        }
        i += 1;
    }
    false
}

/// The smallest line among `base` and the start lines of the documentation
/// attributes.
fn doc_min_exec(attrs: &Vec<RawAttr>, base: usize) -> (r: usize)
    ensures
        r == doc_min(attrs.deep_view(), base),
{
    let mut cur = base;
    let mut i: usize = 0;
    while i < attrs.len()
        invariant
            0 <= i <= attrs@.len(),
            cur == doc_min(attrs.deep_view().subrange(0, i as int), base),
        decreases attrs@.len() - i,
    {
        proof {
            assert(attrs.deep_view()[i as int] == attrs@[i as int]@);
        }
        let is_doc = crate::text::str_eq(attrs[i].path.as_str(), "doc");
        if is_doc && attrs[i].line < cur {
            cur = attrs[i].line;
        }
        i += 1;
        proof {
            let pre = attrs.deep_view().subrange(0, i as int);
            assert(pre.drop_last() =~= attrs.deep_view().subrange(0, i - 1));
            assert(pre.last() == attrs.deep_view()[i - 1]);
        }
    }
    proof {
        assert(attrs.deep_view().subrange(0, attrs.deep_view().len() as int) =~= attrs.deep_view());
    }
    cur
}

/// The name a declaration is indexed under.
fn decl_name_exec(raw: &RawItem) -> (r: String)
    ensures
        r@ == decl_name(raw@),
{
    if raw.tag == ItemType::ImplType {
        let mut s = String::from_str("impl ");
        s.append(raw.name.as_str());
        proof {
            assert(s@ =~= "impl "@ + raw.name@);
        }
        s
    } else if raw.tag == ItemType::ImplTraitForType {
        let mut s = String::from_str("impl ");
        s.append(raw.trait_name.as_str());
        s.append(" for ");
        s.append(raw.name.as_str());
        proof {
            assert(s@ =~= "impl "@ + raw.trait_name@ + " for "@ + raw.name@);
        }
        s
    } else {
        raw.name.clone()
    }
}

/// Builds the declaration index file by file.
#[derive(Debug)]
pub struct SearchIndexBuilder {
    /// The index under construction.
    pub index: SearchIndexMut,
}

impl SearchIndexBuilder {
    /// An empty builder.
    pub fn new() -> (r: SearchIndexBuilder)
        ensures
            r.index.wf(),
            r.index.structs@.len() == 0,
            r.index.enums@.len() == 0,
            r.index.traits@.len() == 0,
            r.index.impl_types@.len() == 0,
            r.index.impl_trait_for_types@.len() == 0,
            r.index.macros@.len() == 0,
            r.index.attribute_macros@.len() == 0,
            r.index.functions@.len() == 0,
            r.index.type_aliases@.len() == 0,
    {
        SearchIndexBuilder { index: SearchIndexMut::new() }
    }

    /// Index one declaration of the file `file`: classify its kind, render
    /// its name, extend its start line leftward over documentation
    /// attributes, and file it under its kind with a lowercased key.
    fn add(&mut self, file: &str, raw: &RawItem)
        requires
            old(self).index.wf(),
        ensures
            final(self).index.wf(),
            index_filled(old(self).index, final(self).index, seq![raw@], file@),
    {
        let marked = has_attr_exec(&raw.attrs, "proc_macro_attribute");
        let kind = if marked && raw.tag == ItemType::Function {
            ItemType::AttributeMacro
        } else {
            raw.tag
        };
        proof {
            assert(kind == decl_kind(raw@));
        }
        let name = decl_name_exec(raw);
        let mut start = doc_min_exec(&raw.attrs, raw.item_start);
        if start == 0 {
            start = 1;
        }
        let end = if raw.item_end < start {
            start
        } else {
            raw.item_end
        };
        proof {
            assert(start == decl_start(raw@));
            assert(end == decl_end(raw@));
        }
        let key = lowercase(name.as_str());
        let item = Item { name, type_: kind, file: file.to_owned(), line_range: LineRange { start, end } };
        let entry = IndexEntry { key, item };
        let ghost ge = entry;
        let ghost d = raw@;
        proof {
            assert(entry_of_decl(ge, d, file@));
            assert(entry_wf(ge, kind));
            assert(seq![d].drop_last() =~= Seq::<RawItemView>::empty());
            assert(seq![d].last() == d);
        }
        match kind {
            ItemType::Struct => {
                self.index.structs.push(entry);
                proof {
                    assert(self.index.structs@.drop_last() =~= old(self).index.structs@);
                    assert(self.index.structs@.last() == ge);
                }
            },
            ItemType::Enum => {
                self.index.enums.push(entry);
                proof {
                    assert(self.index.enums@.drop_last() =~= old(self).index.enums@);
                    assert(self.index.enums@.last() == ge);
                }
            },
            ItemType::Trait => {
                self.index.traits.push(entry);
                proof {
                    assert(self.index.traits@.drop_last() =~= old(self).index.traits@);
                    assert(self.index.traits@.last() == ge);
                }
            },
            ItemType::ImplType => {
                self.index.impl_types.push(entry);
                proof {
                    assert(self.index.impl_types@.drop_last() =~= old(self).index.impl_types@);
                    assert(self.index.impl_types@.last() == ge);
                }
            },
            ItemType::ImplTraitForType => {
                self.index.impl_trait_for_types.push(entry);
                proof {
                    assert(self.index.impl_trait_for_types@.drop_last() =~= old(
                        self,
                    ).index.impl_trait_for_types@);
                    assert(self.index.impl_trait_for_types@.last() == ge);
                }
            },
            ItemType::Macro => {
                self.index.macros.push(entry);
                proof {
                    assert(self.index.macros@.drop_last() =~= old(self).index.macros@);
                    assert(self.index.macros@.last() == ge);
                }
            },
            ItemType::AttributeMacro => {
                self.index.attribute_macros.push(entry);
                proof {
                    assert(self.index.attribute_macros@.drop_last() =~= old(
                        self,
                    ).index.attribute_macros@);
                    assert(self.index.attribute_macros@.last() == ge);
                }
            },
            ItemType::Function => {
                self.index.functions.push(entry);
                proof {
                    assert(self.index.functions@.drop_last() =~= old(self).index.functions@);
                    assert(self.index.functions@.last() == ge);
                }
            },
            ItemType::TypeAlias => {
                self.index.type_aliases.push(entry);
                proof {
                    assert(self.index.type_aliases@.drop_last() =~= old(self).index.type_aliases@);
                    assert(self.index.type_aliases@.last() == ge);
                }
            },
            ItemType::All => (),
        }
        proof {
            lemma_decls_for_single(d, ItemType::Struct);
            lemma_decls_for_single(d, ItemType::Enum);
            lemma_decls_for_single(d, ItemType::Trait);
            lemma_decls_for_single(d, ItemType::ImplType);
            lemma_decls_for_single(d, ItemType::ImplTraitForType);
            lemma_decls_for_single(d, ItemType::Macro);
            lemma_decls_for_single(d, ItemType::AttributeMacro);
            lemma_decls_for_single(d, ItemType::Function);
            lemma_decls_for_single(d, ItemType::TypeAlias);
            assert(index_filled(old(self).index, self.index, seq![d], file@));
        }
    }

    /// Parse `content` as a source file and index its top-level
    /// declarations under the path `file`: exactly one entry per recognized
    /// declaration, in its kind's bucket, with the classified kind, the
    /// rendered name, and the doc-extended line range. `false`, with the
    /// index unchanged, exactly when the content does not parse.
    /// Declarations inside inline modules are not walked.
    pub fn update(&mut self, file: &str, content: &str) -> (r: bool)
        requires
            old(self).index.wf(),
        ensures
            final(self).index.wf(),
            r == (decls_of(content@) is Some),
            !r ==> final(self).index == old(self).index,
            decls_of(content@) matches Some(ds) ==> index_filled(
                old(self).index,
                final(self).index,
                ds,
                file@,
            ),
    {
        match parse_decls(content) {
            Option::None => false,
            Option::Some(items) => {
                let ghost ds = items.deep_view();
                proof {
                    assert(decls_of(content@) == Option::Some(ds));
                }
                let mut i: usize = 0;
                while i < items.len()
                    invariant
                        self.index.wf(),
                        ds == items.deep_view(),
                        ds.len() == items@.len(),
                        0 <= i <= items@.len(),
                        index_filled(old(self).index, self.index, ds.subrange(0, i as int), file@),
                    decreases items@.len() - i,
                {
                    let ghost mid = self.index;
                    proof {
                        assert(ds[i as int] == items@[i as int]@);
                    }
                    self.add(file, &items[i]);
                    proof {
                        lemma_index_filled_step(
                            old(self).index,
                            mid,
                            self.index,
                            ds,
                            i as int,
                            file@,
                        );
                    }
                    i += 1;
                }
                proof {
                    assert(ds.subrange(0, ds.len() as int) =~= ds);
                }
                true
            },
        }
    }

    /// Hand out the finished index.
    pub fn finish(self) -> (r: SearchIndex)
        ensures
            r == self.index,
    {
        self.index
    }
}

} // verus!
