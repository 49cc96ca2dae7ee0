//! The parts of a Rust source file that the documentation rules look at.
//!
//! [`parse_source`] reads them off the syntax tree of the `syn` crate into
//! plain values, on which the rules then work.

use crate::patterns::opt_views;
use crate::shape::is_name;
use crate::text::opt_view;
use vstd::prelude::*;

verus! {

// ---------------------------------------------------------------------------
// Plain values
// ---------------------------------------------------------------------------

/// An attribute of a function, field or variant: its path, where that is a single identifier,
/// and the string literal that stands behind `=`, where there is one.
pub struct Attr {
    pub name: Option<String>,
    pub text: Option<String>,
}

/// A function in an `impl` block.
pub struct FnItem {
    /// Whether it is `pub`.
    pub public: bool,
    pub name: String,
    /// The line of its name.
    pub line: usize,
    /// The number of its parameters, a receiver among them.
    pub inputs: usize,
    /// Whether it has a return type.
    pub returns_value: bool,
    pub attrs: Vec<Attr>,
}

/// A named field of a struct, or a variant of an enum.
pub struct Member {
    pub name: String,
    /// The line of its name.
    pub line: usize,
    pub attrs: Vec<Attr>,
}

/// The fields of a struct.
pub enum FieldList {
    Named(Vec<Member>),
    /// The attributes of each unnamed field.
    Unnamed(Vec<Vec<Attr>>),
    Unit,
}

/// A top-level item of a source file.
pub enum SourceItem {
    /// An `impl` block; what stands in it and is not a function is `None`.
    Impl { attrs: Vec<Option<String>>, members: Vec<Option<FnItem>> },
    Struct { attrs: Vec<Option<String>>, name: String, fields: FieldList },
    Enum { attrs: Vec<Option<String>>, name: String, variants: Vec<Member> },
    Other,
}

// ---------------------------------------------------------------------------
// Their models
// ---------------------------------------------------------------------------

/// The model of an [`Attr`].
pub struct AttrView {
    pub name: Option<Seq<char>>,
    pub text: Option<Seq<char>>,
}

/// The model of a [`FnItem`].
pub struct FnView {
    pub public: bool,
    pub name: Seq<char>,
    pub line: nat,
    pub inputs: nat,
    pub returns_value: bool,
    pub attrs: Seq<AttrView>,
}

/// The paths of a list of attributes.
pub type Paths = Seq<Option<Seq<char>>>;

/// The model of a [`Member`].
pub struct MemberView {
    pub name: Seq<char>,
    pub line: nat,
    pub attrs: Seq<AttrView>,
}

/// The model of a [`FieldList`].
pub enum FieldListView {
    Named(Seq<MemberView>),
    Unnamed(Seq<Seq<AttrView>>),
    Unit,
}

/// The model of a [`SourceItem`].
pub enum ItemView {
    Impl { attrs: Paths, members: Seq<Option<FnView>> },
    Struct { attrs: Paths, name: Seq<char>, fields: FieldListView },
    Enum { attrs: Paths, name: Seq<char>, variants: Seq<MemberView> },
    Other,
}

impl View for Attr {
    type V = AttrView;

    open spec fn view(&self) -> AttrView {
        AttrView { name: opt_view(self.name), text: opt_view(self.text) }
    }
}

/// The models of a list of attributes.
pub open spec fn attr_views(list: Seq<Attr>) -> Seq<AttrView> {
    list.map_values(|a: Attr| a@)
}

impl View for FnItem {
    type V = FnView;

    open spec fn view(&self) -> FnView {
        FnView {
            public: self.public,
            name: self.name@,
            line: self.line as nat,
            inputs: self.inputs as nat,
            returns_value: self.returns_value,
            attrs: attr_views(self.attrs@),
        }
    }
}

/// The model of a member of an `impl` block.
pub open spec fn impl_member_view(member: Option<FnItem>) -> Option<FnView> {
    match member {
        Some(func) => Some(func@),
        None => None,
    }
}

/// The models of the members of an `impl` block.
pub open spec fn impl_member_views(list: Seq<Option<FnItem>>) -> Seq<Option<FnView>> {
    list.map_values(|m: Option<FnItem>| impl_member_view(m))
}

impl View for Member {
    type V = MemberView;

    open spec fn view(&self) -> MemberView {
        MemberView { name: self.name@, line: self.line as nat, attrs: attr_views(self.attrs@) }
    }
}

/// The models of a list of members.
pub open spec fn member_views(list: Seq<Member>) -> Seq<MemberView> {
    list.map_values(|m: Member| m@)
}

/// The models of the attributes of a list of unnamed fields.
pub open spec fn unnamed_views(list: Seq<Vec<Attr>>) -> Seq<Seq<AttrView>> {
    list.map_values(|attrs: Vec<Attr>| attr_views(attrs@))
}

impl View for FieldList {
    type V = FieldListView;

    open spec fn view(&self) -> FieldListView {
        match self {
            FieldList::Named(list) => FieldListView::Named(member_views(list@)),
            FieldList::Unnamed(list) => FieldListView::Unnamed(unnamed_views(list@)),
            FieldList::Unit => FieldListView::Unit,
        }
    }
}

impl View for SourceItem {
    type V = ItemView;

    open spec fn view(&self) -> ItemView {
        match self {
            SourceItem::Impl { attrs, members } => ItemView::Impl {
                attrs: opt_views(attrs@),
                members: impl_member_views(members@),
            },
            SourceItem::Struct { attrs, name, fields } => ItemView::Struct {
                attrs: opt_views(attrs@),
                name: name@,
                fields: fields@,
            },
            SourceItem::Enum { attrs, name, variants } => ItemView::Enum {
                attrs: opt_views(attrs@),
                name: name@,
                variants: member_views(variants@),
            },
            SourceItem::Other => ItemView::Other,
        }
    }
}

/// The models of a list of items.
pub open spec fn item_views(list: Seq<SourceItem>) -> Seq<ItemView> {
    list.map_values(|item: SourceItem| item@)
}

/// The members have names that are identifiers.
pub open spec fn are_named_members(members: Seq<MemberView>) -> bool {
    forall|i: int| 0 <= i < members.len() ==> is_name(#[trigger] members[i].name)
}

/// The item and its members have names that are identifiers.
pub open spec fn is_named(item: ItemView) -> bool {
    match item {
        ItemView::Impl { members, .. } => forall|i: int|
            0 <= i < members.len() && (#[trigger] members[i]) is Some ==> is_name(
                members[i]->0.name,
            ),
        ItemView::Struct { name, fields, .. } => is_name(name) && (fields is Named
            ==> are_named_members(fields->Named_0)),
        ItemView::Enum { name, variants, .. } => is_name(name) && are_named_members(variants),
        ItemView::Other => true,
    }
}

/// All items have names that are identifiers.
pub open spec fn are_named(items: Seq<ItemView>) -> bool {
    forall|i: int| 0 <= i < items.len() ==> is_named(#[trigger] items[i])
}

// ---------------------------------------------------------------------------
// The outside calls
// ---------------------------------------------------------------------------

/// The syntax tree of a source file: an opaque collection of items.
#[verifier::external_type_specification]
#[verifier::external_body]
pub struct ExFile(syn::File);

/// The items that a syntax tree holds, each as far as the rules look at it.
pub uninterp spec fn file_items(file: syn::File) -> Seq<ItemView>;

/// The items that `syn::parse_file` finds in a source text, or `None` where
/// it rejects the text.
pub uninterp spec fn parsed_items(content: Seq<char>) -> Option<Seq<ItemView>>;

/// `syn::parse_file` accepts or rejects a text, and what the tree it returns
/// holds depends on the text alone. The names in it are identifiers, so they
/// hold neither a colon nor a space. Nothing is said of a text that exhausts
/// the machine: the parser recurses into nested code, and the line numbers of
/// all texts that a thread has parsed share one range of 32 bits.
#[verifier::external_body]
fn parse_file(content: &str) -> (file: Option<syn::File>)
    ensures
        match file {
            Some(tree) => parsed_items(content@) == Some(file_items(tree)),
            None => parsed_items(content@) is None,
        },
        file is Some ==> are_named(file_items(file->0)),
{
    syn::parse_file(content).ok()
}

/// The number of items in `syn::File::items`.
#[verifier::external_body]
fn item_count(file: &syn::File) -> (count: usize)
    ensures
        count == file_items(*file).len(),
{
    file.items.len()
}

/// What kind of item stands at a position, with its name and the number of
/// its members.
enum Head {
    Impl(usize),
    NamedStruct(String, usize),
    TupleStruct(String, usize),
    UnitStruct(String),
    Enum(String, usize),
    Other,
}

spec fn is_head(head: Head, item: ItemView) -> bool {
    match head {
        Head::Impl(n) => item is Impl && item->Impl_members.len() == n,
        Head::NamedStruct(name, n) => {
            &&& item is Struct && item->Struct_name == name@
            &&& item->Struct_fields is Named && item->Struct_fields->Named_0.len() == n
        },
        Head::TupleStruct(name, n) => {
            &&& item is Struct && item->Struct_name == name@
            &&& item->Struct_fields is Unnamed && item->Struct_fields->Unnamed_0.len() == n
        },
        Head::UnitStruct(name) => {
            &&& item is Struct && item->Struct_name == name@
            &&& item->Struct_fields is Unit
        },
        Head::Enum(name, n) => {
            &&& item is Enum && item->Enum_name == name@
            &&& item->Enum_variants.len() == n
        },
        Head::Other => item is Other,
    }
}

/// Tells the variants of `syn::Item` apart, and for a struct those of
/// `syn::Fields`.
#[verifier::external_body]
fn item_head(file: &syn::File, item: usize) -> (head: Head)
    requires
        item < file_items(*file).len(),
    ensures
        is_head(head, file_items(*file)[item as int]),
{
    match &file.items[item] {
        syn::Item::Impl(x) => Head::Impl(x.items.len()),
        syn::Item::Struct(x) => match &x.fields {
            syn::Fields::Named(f) => Head::NamedStruct(x.ident.to_string(), f.named.len()),
            syn::Fields::Unnamed(f) => Head::TupleStruct(x.ident.to_string(), f.unnamed.len()),
            syn::Fields::Unit => Head::UnitStruct(x.ident.to_string()),
        },
        syn::Item::Enum(x) => Head::Enum(x.ident.to_string(), x.variants.len()),
        _ => Head::Other,
    }
}

spec fn item_paths(item: ItemView) -> Paths {
    match item {
        ItemView::Impl { attrs, .. } => attrs,
        ItemView::Struct { attrs, .. } => attrs,
        ItemView::Enum { attrs, .. } => attrs,
        ItemView::Other => Seq::empty(),
    }
}

/// The path of each attribute of an item, by `syn::Path::get_ident`.
#[verifier::external_body]
fn item_attrs(file: &syn::File, item: usize) -> (attrs: Vec<Option<String>>)
    requires
        item < file_items(*file).len(),
    ensures
        opt_views(attrs@) == item_paths(file_items(*file)[item as int]),
{
    let attrs = match &file.items[item] {
        syn::Item::Impl(x) => &x.attrs,
        syn::Item::Struct(x) => &x.attrs,
        syn::Item::Enum(x) => &x.attrs,
        _ => return Vec::new(),
    };
    attrs.iter().map(|a| a.path().get_ident().map(|i| i.to_string())).collect()
}

/// A member of an `impl` block, if it is a `syn::ImplItem::Fn`: its
/// visibility, name, line, parameters and return type. The line is that of
/// `proc_macro2::Span::start`. Its attributes are left out.
#[verifier::external_body]
fn fn_head(file: &syn::File, item: usize, member: usize) -> (func: Option<FnItem>)
    requires
        item < file_items(*file).len(),
        file_items(*file)[item as int] is Impl,
        member < file_items(*file)[item as int]->Impl_members.len(),
    ensures
        match file_items(*file)[item as int]->Impl_members[member as int] {
            Some(view) => func matches Some(head) && view == (FnView {
                attrs: view.attrs,
                ..head@
            }),
            None => func is None,
        },
{
    let syn::Item::Impl(block) = &file.items[item] else { return None };
    let syn::ImplItem::Fn(func) = &block.items[member] else { return None };
    Some(FnItem {
        public: matches!(func.vis, syn::Visibility::Public(_)),
        name: func.sig.ident.to_string(),
        line: func.sig.ident.span().start().line,
        inputs: func.sig.inputs.len(),
        returns_value: !matches!(func.sig.output, syn::ReturnType::Default),
        attrs: Vec::new(),
    })
}

/// The attributes of a function in an `impl` block: the path of each by
/// `syn::Path::get_ident`, and `syn::LitStr::value` of the string literal
/// behind `=`.
#[verifier::external_body]
fn fn_attrs(file: &syn::File, item: usize, member: usize) -> (attrs: Vec<Attr>)
    requires
        item < file_items(*file).len(),
        file_items(*file)[item as int] is Impl,
        member < file_items(*file)[item as int]->Impl_members.len(),
    ensures
        file_items(*file)[item as int]->Impl_members[member as int] matches Some(func)
            ==> attr_views(attrs@) == func.attrs,
{
    let syn::Item::Impl(block) = &file.items[item] else { return Vec::new() };
    let syn::ImplItem::Fn(func) = &block.items[member] else { return Vec::new() };
    func.attrs.iter().map(|a| Attr {
        name: a.path().get_ident().map(|i| i.to_string()),
        text: match &a.meta {
            syn::Meta::NameValue(syn::MetaNameValue {
                value: syn::Expr::Lit(syn::ExprLit { lit: syn::Lit::Str(s), .. }), ..
            }) => Some(s.value()),
            _ => None,
        },
    }).collect()
}

/// The attributes of a field or variant.
spec fn member_attrs(item: ItemView, member: int) -> Seq<AttrView> {
    match item {
        ItemView::Struct { fields: FieldListView::Named(list), .. } => list[member].attrs,
        ItemView::Struct { fields: FieldListView::Unnamed(list), .. } => list[member],
        ItemView::Enum { variants, .. } => variants[member].attrs,
        _ => Seq::empty(),
    }
}

/// The item has a field or variant at that position.
spec fn has_member(item: ItemView, member: int) -> bool {
    match item {
        ItemView::Struct { fields: FieldListView::Named(list), .. } => 0 <= member < list.len(),
        ItemView::Struct { fields: FieldListView::Unnamed(list), .. } => 0 <= member < list.len(),
        ItemView::Enum { variants, .. } => 0 <= member < variants.len(),
        _ => false,
    }
}

/// The attributes of a field or variant, in the same way as [`fn_attrs`].
#[verifier::external_body]
fn field_attrs(file: &syn::File, item: usize, member: usize) -> (attrs: Vec<Attr>)
    requires
        item < file_items(*file).len(),
        has_member(file_items(*file)[item as int], member as int),
    ensures
        attr_views(attrs@) == member_attrs(file_items(*file)[item as int], member as int),
{
    let attrs = match &file.items[item] {
        syn::Item::Struct(x) => &x.fields.iter().nth(member).unwrap().attrs,
        syn::Item::Enum(x) => &x.variants[member].attrs,
        _ => return Vec::new(),
    };
    attrs.iter().map(|a| Attr {
        name: a.path().get_ident().map(|i| i.to_string()),
        text: match &a.meta {
            syn::Meta::NameValue(syn::MetaNameValue {
                value: syn::Expr::Lit(syn::ExprLit { lit: syn::Lit::Str(s), .. }), ..
            }) => Some(s.value()),
            _ => None,
        },
    }).collect()
}

/// A field of a struct with named fields: its name and line. In such a struct
/// `syn::Field::ident` is always there. Its attributes are left out.
#[verifier::external_body]
fn field_head(file: &syn::File, item: usize, member: usize) -> (field: Option<Member>)
    requires
        item < file_items(*file).len(),
        file_items(*file)[item as int] is Struct,
        file_items(*file)[item as int]->Struct_fields is Named,
        member < file_items(*file)[item as int]->Struct_fields->Named_0.len(),
    ensures
        field is Some,
        field->0@.name
            == file_items(*file)[item as int]->Struct_fields->Named_0[member as int].name,
        field->0@.line
            == file_items(*file)[item as int]->Struct_fields->Named_0[member as int].line,
{
    let syn::Item::Struct(x) = &file.items[item] else { return None };
    let name = x.fields.iter().nth(member)?.ident.as_ref()?;
    Some(Member { name: name.to_string(), line: name.span().start().line, attrs: Vec::new() })
}

/// A variant of an enum: its name and line. Its attributes are left out.
#[verifier::external_body]
fn variant_head(file: &syn::File, item: usize, member: usize) -> (variant: Option<Member>)
    requires
        item < file_items(*file).len(),
        file_items(*file)[item as int] is Enum,
        member < file_items(*file)[item as int]->Enum_variants.len(),
    ensures
        variant is Some,
        variant->0@.name
            == file_items(*file)[item as int]->Enum_variants[member as int].name,
        variant->0@.line
            == file_items(*file)[item as int]->Enum_variants[member as int].line,
{
    let syn::Item::Enum(x) = &file.items[item] else { return None };
    let name = &x.variants[member].ident;
    Some(Member { name: name.to_string(), line: name.span().start().line, attrs: Vec::new() })
}

// ---------------------------------------------------------------------------
// Reading a syntax tree
// ---------------------------------------------------------------------------

/// The members of an `impl` block.
fn impl_members(file: &syn::File, item: usize, count: usize) -> (members: Vec<Option<FnItem>>)
    requires
        item < file_items(*file).len(),
        file_items(*file)[item as int] is Impl,
        count == file_items(*file)[item as int]->Impl_members.len(),
    ensures
        impl_member_views(members@) == file_items(*file)[item as int]->Impl_members,
{
    let mut members: Vec<Option<FnItem>> = Vec::new();
    let mut j: usize = 0;
    let ghost all = file_items(*file)[item as int]->Impl_members;
    while j < count
        invariant
            item < file_items(*file).len(),
            file_items(*file)[item as int] is Impl,
            all == file_items(*file)[item as int]->Impl_members,
            count == all.len(),
            j <= count,
            impl_member_views(members@) =~= all.take(j as int),
        decreases count - j,
    {
        let ghost before = impl_member_views(members@);
        match fn_head(file, item, j) {
            Some(mut func) => {
                func.attrs = fn_attrs(file, item, j);
                assert(func@ == all[j as int]->0);
                members.push(Some(func));
            },
            None => {
                members.push(None);
            },
        }
        assert(impl_member_views(members@) =~= before.push(all[j as int]));
        j = j + 1;
    }
    assert(all.take(count as int) =~= all);
    members
}

/// The fields of a struct with named fields.
fn named_fields(file: &syn::File, item: usize, count: usize) -> (fields: Vec<Member>)
    requires
        item < file_items(*file).len(),
        file_items(*file)[item as int] is Struct,
        file_items(*file)[item as int]->Struct_fields is Named,
        count == file_items(*file)[item as int]->Struct_fields->Named_0.len(),
    ensures
        member_views(fields@) == file_items(*file)[item as int]->Struct_fields->Named_0,
{
    let mut fields: Vec<Member> = Vec::new();
    let mut j: usize = 0;
    let ghost all = file_items(*file)[item as int]->Struct_fields->Named_0;
    while j < count
        invariant
            item < file_items(*file).len(),
            file_items(*file)[item as int] is Struct,
            file_items(*file)[item as int]->Struct_fields is Named,
            all == file_items(*file)[item as int]->Struct_fields->Named_0,
            count == all.len(),
            j <= count,
            member_views(fields@) =~= all.take(j as int),
        decreases count - j,
    {
        let ghost before = member_views(fields@);
        if let Some(mut field) = field_head(file, item, j) {
            field.attrs = field_attrs(file, item, j);
            assert(field@ == all[j as int]);
            fields.push(field);
        }
        assert(member_views(fields@) =~= before.push(all[j as int]));
        j = j + 1;
    }
    assert(all.take(count as int) =~= all);
    fields
}

/// The attributes of the fields of a tuple struct.
fn unnamed_fields(file: &syn::File, item: usize, count: usize) -> (fields: Vec<Vec<Attr>>)
    requires
        item < file_items(*file).len(),
        file_items(*file)[item as int] is Struct,
        file_items(*file)[item as int]->Struct_fields is Unnamed,
        count == file_items(*file)[item as int]->Struct_fields->Unnamed_0.len(),
    ensures
        unnamed_views(fields@) == file_items(*file)[item as int]->Struct_fields->Unnamed_0,
{
    let mut fields: Vec<Vec<Attr>> = Vec::new();
    let mut j: usize = 0;
    let ghost all = file_items(*file)[item as int]->Struct_fields->Unnamed_0;
    while j < count
        invariant
            item < file_items(*file).len(),
            file_items(*file)[item as int] is Struct,
            file_items(*file)[item as int]->Struct_fields is Unnamed,
            all == file_items(*file)[item as int]->Struct_fields->Unnamed_0,
            count == all.len(),
            j <= count,
            unnamed_views(fields@) =~= all.take(j as int),
        decreases count - j,
    {
        let ghost before = unnamed_views(fields@);
        fields.push(field_attrs(file, item, j));
        assert(unnamed_views(fields@) =~= before.push(all[j as int]));
        j = j + 1;
    }
    assert(all.take(count as int) =~= all);
    fields
}

/// The variants of an enum.
fn enum_variants(file: &syn::File, item: usize, count: usize) -> (variants: Vec<Member>)
    requires
        item < file_items(*file).len(),
        file_items(*file)[item as int] is Enum,
        count == file_items(*file)[item as int]->Enum_variants.len(),
    ensures
        member_views(variants@) == file_items(*file)[item as int]->Enum_variants,
{
    let mut variants: Vec<Member> = Vec::new();
    let mut j: usize = 0;
    let ghost all = file_items(*file)[item as int]->Enum_variants;
    while j < count
        invariant
            item < file_items(*file).len(),
            file_items(*file)[item as int] is Enum,
            all == file_items(*file)[item as int]->Enum_variants,
            count == all.len(),
            j <= count,
            member_views(variants@) =~= all.take(j as int),
        decreases count - j,
    {
        let ghost before = member_views(variants@);
        if let Some(mut variant) = variant_head(file, item, j) {
            variant.attrs = field_attrs(file, item, j);
            assert(variant@ == all[j as int]);
            variants.push(variant);
        }
        assert(member_views(variants@) =~= before.push(all[j as int]));
        j = j + 1;
    }
    assert(all.take(count as int) =~= all);
    variants
}

/// The item of a syntax tree at a position.
fn read_item(file: &syn::File, item: usize) -> (found: SourceItem)
    requires
        item < file_items(*file).len(),
    ensures
        found@ == file_items(*file)[item as int],
{
    let attrs: Vec<Option<String>> = item_attrs(file, item);
    match item_head(file, item) {
        Head::Impl(count) => SourceItem::Impl { attrs, members: impl_members(file, item, count) },
        Head::NamedStruct(name, count) => SourceItem::Struct {
            attrs,
            name,
            fields: FieldList::Named(named_fields(file, item, count)),
        },
        Head::TupleStruct(name, count) => SourceItem::Struct {
            attrs,
            name,
            fields: FieldList::Unnamed(unnamed_fields(file, item, count)),
        },
        Head::UnitStruct(name) => SourceItem::Struct { attrs, name, fields: FieldList::Unit },
        Head::Enum(name, count) => SourceItem::Enum {
            attrs,
            name,
            variants: enum_variants(file, item, count),
        },
        Head::Other => SourceItem::Other,
    }
}

/// Parses a Rust source text into the items that the rules look at. A text
/// that is not valid Rust has none.
pub fn parse_source(content: &str) -> (items: Option<Vec<SourceItem>>)
    ensures
        match items {
            Some(list) => parsed_items(content@) == Some(item_views(list@)) && are_named(
                item_views(list@),
            ),
            None => parsed_items(content@) is None,
        },
{
    match parse_file(content) {
        None => None,
        Some(file) => {
            let count: usize = item_count(&file);
            let mut list: Vec<SourceItem> = Vec::new();
            let mut i: usize = 0;
            let ghost all = file_items(file);
            while i < count
                invariant
                    all == file_items(file),
                    count == all.len(),
                    i <= count,
                    item_views(list@) =~= all.take(i as int),
                decreases count - i,
            {
                let ghost before = item_views(list@);
                list.push(read_item(&file, i));
                assert(item_views(list@) =~= before.push(all[i as int]));
                i = i + 1;
            }
            assert(all.take(count as int) =~= all);
            Some(list)
        },
    }
}

} // verus!
