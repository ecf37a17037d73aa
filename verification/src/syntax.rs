//! What the parser makes of Rust source text: the parts of an `impl` block and of its attributes,
//! as plain values.

use quote::ToTokens;
use syn::parse::Parser;
use syn::punctuated::Punctuated;
use syn::token::Comma;
use syn::{
    AttrStyle, Attribute, Error, Expr, ExprLit, FnArg, ImplItem, ItemImpl, Lit, Meta, Pat, Type,
};
use vstd::prelude::*;

verus! {

/// The characters of a name.
pub open spec fn name_view(name: Option<String>) -> Option<Seq<char>> {
    match name {
        Some(name) => Some(name@),
        None => None,
    }
}

/// The characters of names.
pub open spec fn names_view(names: Seq<Option<String>>) -> Seq<Option<Seq<char>>> {
    names.map_values(|name: Option<String>| name_view(name))
}

/// The characters of texts.
pub open spec fn texts_view(texts: Seq<String>) -> Seq<Seq<char>> {
    texts.map_values(|text: String| text@)
}

/// The value of an argument `name = value`.
pub enum MetaValue {
    /// An integer literal, by its digits in base 10, with a minus before them where it is negative.
    Int(String),
    /// Anything else.
    Other,
}

/// What a [`MetaValue`] says.
pub enum MetaValueView {
    Int(Seq<char>),
    Other,
}

impl View for MetaValue {
    type V = MetaValueView;

    open spec fn view(&self) -> MetaValueView {
        match *self {
            MetaValue::Int(digits) => MetaValueView::Int(digits@),
            MetaValue::Other => MetaValueView::Other,
        }
    }
}

/// What stands in an attribute, or in the arguments of one. A path that is no single identifier is
/// no name.
pub enum MetaArg {
    /// `name`
    Path(Option<String>),
    /// `name = value`
    NameValue { name: Option<String>, value: MetaValue },
    /// `name(..)`
    List(Option<String>),
}

/// What a [`MetaArg`] says.
pub enum MetaArgView {
    Path(Option<Seq<char>>),
    NameValue { name: Option<Seq<char>>, value: MetaValueView },
    List(Option<Seq<char>>),
}

impl View for MetaArg {
    type V = MetaArgView;

    open spec fn view(&self) -> MetaArgView {
        match *self {
            MetaArg::Path(name) => MetaArgView::Path(name_view(name)),
            MetaArg::NameValue { name, value } => MetaArgView::NameValue {
                name: name_view(name),
                value: value@,
            },
            MetaArg::List(name) => MetaArgView::List(name_view(name)),
        }
    }
}

impl MetaArgView {
    /// The name that comes first.
    pub open spec fn name(self) -> Option<Seq<char>> {
        match self {
            MetaArgView::Path(name) => name,
            MetaArgView::NameValue { name, value } => name,
            MetaArgView::List(name) => name,
        }
    }
}

impl MetaArg {
    /// The name that comes first.
    pub fn name(self) -> (r: Option<String>)
        ensures
            name_view(r) == self@.name(),
    {
        match self {
            MetaArg::Path(name) => name,
            MetaArg::NameValue { name, value: _ } => name,
            MetaArg::List(name) => name,
        }
    }
}

/// What arguments say.
pub open spec fn metas_view(metas: Seq<MetaArg>) -> Seq<MetaArgView> {
    metas.map_values(|meta: MetaArg| meta@)
}

/// A parameter of a method.
pub enum ArgDecl {
    Receiver,
    /// A plain identifier.
    Ident(String),
    /// Any other pattern.
    Pattern,
}

/// What an [`ArgDecl`] says.
pub enum ArgView {
    Receiver,
    Ident(Seq<char>),
    Pattern,
}

impl View for ArgDecl {
    type V = ArgView;

    open spec fn view(&self) -> ArgView {
        match *self {
            ArgDecl::Receiver => ArgView::Receiver,
            ArgDecl::Ident(name) => ArgView::Ident(name@),
            ArgDecl::Pattern => ArgView::Pattern,
        }
    }
}

/// What parameters say.
pub open spec fn args_view(args: Seq<ArgDecl>) -> Seq<ArgView> {
    args.map_values(|arg: ArgDecl| arg@)
}

/// A method. Of each attribute it holds the text between the brackets.
pub struct MethodSyntax {
    pub name: String,
    pub attrs: Vec<String>,
    pub args: Vec<ArgDecl>,
    pub is_async: bool,
}

/// What a [`MethodSyntax`] says.
pub struct MethodSyntaxView {
    pub name: Seq<char>,
    pub attrs: Seq<Seq<char>>,
    pub args: Seq<ArgView>,
    pub is_async: bool,
}

impl View for MethodSyntax {
    type V = MethodSyntaxView;

    open spec fn view(&self) -> MethodSyntaxView {
        MethodSyntaxView {
            name: self.name@,
            attrs: texts_view(self.attrs@),
            args: args_view(self.args@),
            is_async: self.is_async,
        }
    }
}

/// An item of an `impl` block.
pub enum ItemSyntax {
    Fn(MethodSyntax),
    Other,
}

/// What an [`ItemSyntax`] says.
pub enum ItemSyntaxView {
    Fn(MethodSyntaxView),
    Other,
}

impl View for ItemSyntax {
    type V = ItemSyntaxView;

    open spec fn view(&self) -> ItemSyntaxView {
        match *self {
            ItemSyntax::Fn(method) => ItemSyntaxView::Fn(method@),
            ItemSyntax::Other => ItemSyntaxView::Other,
        }
    }
}

/// An `impl` block: the last name in the path of its type, where that is a path, and the texts of
/// its items.
pub struct BlockSyntax {
    pub self_ident: Option<String>,
    pub items: Vec<String>,
}

/// What a [`BlockSyntax`] says.
pub struct BlockSyntaxView {
    pub self_ident: Option<Seq<char>>,
    pub items: Seq<Seq<char>>,
}

impl View for BlockSyntax {
    type V = BlockSyntaxView;

    open spec fn view(&self) -> BlockSyntaxView {
        BlockSyntaxView { self_ident: name_view(self.self_ident), items: texts_view(self.items@) }
    }
}

/// What the parser makes of the text of an `impl` block, or what it says against it.
pub uninterp spec fn parsed_block(text: Seq<char>) -> Result<BlockSyntaxView, Seq<char>>;

/// What the parser makes of the text of an item of an `impl` block, or what it says against it.
pub uninterp spec fn parsed_item(text: Seq<char>) -> Result<ItemSyntaxView, Seq<char>>;

/// What the parser makes of the text of an attribute, or of an argument of one, or what it says
/// against it.
pub uninterp spec fn parsed_meta(text: Seq<char>) -> Result<MetaArgView, Seq<char>>;

/// The texts of the arguments that the parser finds in the text of an attribute, or what it says
/// against it.
pub uninterp spec fn attribute_arguments(text: Seq<char>) -> Result<Seq<Seq<char>>, Seq<char>>;

/// The texts of the arguments that the parser finds in a list of arguments, or what it says against
/// it.
pub uninterp spec fn parsed_arguments(text: Seq<char>) -> Result<Seq<Seq<char>>, Seq<char>>;

/// `syn::parse_str`, for a `syn::ItemImpl`: what comes out depends on the text alone, and is only
/// named.
#[verifier::external_body]
pub(crate) fn parse_block(text: &str) -> (r: Result<BlockSyntax, String>)
    ensures
        match r {
            Ok(block) => parsed_block(text@) == Ok::<BlockSyntaxView, Seq<char>>(block@),
            Err(e) => parsed_block(text@) == Err::<BlockSyntaxView, Seq<char>>(e@),
        },
{
    let block: ItemImpl = syn::parse_str(text).map_err(|e: Error| e.to_string())?;
    let self_ident = match *block.self_ty {
        Type::Path(p) => p.path.segments.last().map(|s| s.ident.to_string()),
        _ => None,
    };
    let items = block.items.iter().map(|item| item.to_token_stream().to_string()).collect();
    Ok(BlockSyntax { self_ident, items })
}

/// `syn::parse_str`, for a `syn::ImplItem`: what comes out depends on the text alone, and is only
/// named.
#[verifier::external_body]
pub(crate) fn parse_item(text: &str) -> (r: Result<ItemSyntax, String>)
    ensures
        match r {
            Ok(item) => parsed_item(text@) == Ok::<ItemSyntaxView, Seq<char>>(item@),
            Err(e) => parsed_item(text@) == Err::<ItemSyntaxView, Seq<char>>(e@),
        },
{
    let ImplItem::Fn(m) = syn::parse_str(text).map_err(|e: Error| e.to_string())? else {
        return Ok(ItemSyntax::Other);
    };
    let args = m.sig.inputs.iter().map(|arg| match arg {
        FnArg::Receiver(_) => ArgDecl::Receiver,
        FnArg::Typed(t) => match &*t.pat {
            Pat::Ident(p) => ArgDecl::Ident(p.ident.to_string()),
            _ => ArgDecl::Pattern,
        },
    }).collect();
    let attrs = m.attrs.iter().map(|a| a.meta.to_token_stream().to_string()).collect();
    let is_async = m.sig.asyncness.is_some();
    Ok(ItemSyntax::Fn(MethodSyntax { name: m.sig.ident.to_string(), attrs, args, is_async }))
}

/// `syn::parse_str`, for a `syn::Meta`: what comes out depends on the text alone, and is only
/// named.
#[verifier::external_body]
pub(crate) fn parse_meta(text: &str) -> (r: Result<MetaArg, String>)
    ensures
        match r {
            Ok(meta) => parsed_meta(text@) == Ok::<MetaArgView, Seq<char>>(meta@),
            Err(e) => parsed_meta(text@) == Err::<MetaArgView, Seq<char>>(e@),
        },
{
    let meta: Meta = syn::parse_str(text).map_err(|e: Error| e.to_string())?;
    let name = meta.path().get_ident().map(|ident| ident.to_string());
    Ok(match meta {
        Meta::Path(_) => MetaArg::Path(name),
        Meta::List(_) => MetaArg::List(name),
        Meta::NameValue(nv) => match nv.value {
            Expr::Lit(ExprLit { lit: Lit::Int(i), .. }) => {
                MetaArg::NameValue { name, value: MetaValue::Int(i.base10_digits().to_owned()) }
            },
            _ => MetaArg::NameValue { name, value: MetaValue::Other },
        },
    })
}

/// `syn::Attribute::parse_args_with`, on the attribute with this text between its brackets, and for
/// a list of `syn::Meta`: what comes out depends on the text alone, and is only named.
#[verifier::external_body]
pub(crate) fn parse_attribute_arguments(text: &str) -> (r: Result<Vec<String>, String>)
    ensures
        match r {
            Ok(metas) => attribute_arguments(text@) == Ok::<Seq<Seq<char>>, Seq<char>>(
                texts_view(metas@),
            ),
            Err(e) => attribute_arguments(text@) == Err::<Seq<Seq<char>>, Seq<char>>(e@),
        },
{
    let attr = Attribute {
        pound_token: Default::default(),
        style: AttrStyle::Outer,
        bracket_token: Default::default(),
        meta: syn::parse_str(text).map_err(|e: Error| e.to_string())?,
    };
    let metas = attr.parse_args_with(Punctuated::<Meta, Comma>::parse_terminated);
    let metas = metas.map_err(|e| e.to_string())?;
    Ok(metas.iter().map(|meta| meta.to_token_stream().to_string()).collect())
}

/// `syn::parse::Parser::parse_str`, for a list of `syn::Meta`: what comes out depends on the text
/// alone, and is only named.
#[verifier::external_body]
pub(crate) fn parse_arguments(text: &str) -> (r: Result<Vec<String>, String>)
    ensures
        match r {
            Ok(metas) => parsed_arguments(text@) == Ok::<Seq<Seq<char>>, Seq<char>>(
                texts_view(metas@),
            ),
            Err(e) => parsed_arguments(text@) == Err::<Seq<Seq<char>>, Seq<char>>(e@),
        },
{
    let metas = Punctuated::<Meta, Comma>::parse_terminated.parse_str(text);
    let metas = metas.map_err(|e| e.to_string())?;
    Ok(metas.iter().map(|meta| meta.to_token_stream().to_string()).collect())
}

} // verus!
