//! Endpoints: what is generated for the methods of an `impl` block that are marked as endpoints.
//!
//! The block comes as source text. What comes out says which items to generate, under which names
//! and numbers.

use crate::syntax::{
    args_view, attribute_arguments, metas_view, name_view, names_view, parse_arguments,
    parse_attribute_arguments, parse_block, parse_item, parse_meta, parsed_arguments, parsed_block,
    parsed_item, parsed_meta, texts_view, ArgDecl, ArgView, ItemSyntax, ItemSyntaxView, MetaArg,
    MetaArgView, MetaValue, MetaValueView, MethodSyntax,
};
use vstd::prelude::*;
use vstd::string::{StrSliceExecFns, StringExecFns};

verus! {

/// `String::push` appends a character.
pub assume_specification[ String::push ](s: &mut String, c: char)
    ensures
        final(s)@ == old(s)@.push(c),
;

/// The uppercase of a character beyond ASCII, which may be several.
pub uninterp spec fn uppercase(c: char) -> Seq<char>;

/// A character as it stands at the beginning of a word.
pub open spec fn capital(c: char) -> Seq<char> {
    if 'a' <= c <= 'z' {
        seq![((c as u32) - 32) as char]
    } else if (c as u32) < 128 {
        seq![c]
    } else {
        uppercase(c)
    }
}

/// `char::to_uppercase` yields the uppercase of a character, as one or more characters. A lower
/// case letter of ASCII has the letter as its uppercase that stands 32 places before it; every
/// other character of ASCII is its own uppercase. For characters beyond ASCII the result is only
/// named; the Unicode tables that it is taken from give no character an uppercase with an
/// underscore in it.
#[verifier::external_body]
fn to_uppercase(c: char) -> (r: String)
    ensures
        'a' <= c <= 'z' ==> r@ == seq![((c as u32) - 32) as char],
        (c as u32) < 128 && !('a' <= c <= 'z') ==> r@ == seq![c],
        (c as u32) >= 128 ==> r@ == uppercase(c) && !r@.contains('_'),
{
    c.to_uppercase().to_string()
}

/// A name in which words stand apart by underscores, as a name in which they begin with a capital.
/// Underscores go; what stands first, or after an underscore, becomes uppercase.
pub open spec fn pascal(name: Seq<char>) -> Seq<char>
    decreases name.len(),
{
    if name.len() == 0 {
        Seq::empty()
    } else {
        let before = name.drop_last();
        let c = name.last();
        if c == '_' {
            pascal(before)
        } else if before.len() == 0 || before.last() == '_' {
            pascal(before) + capital(c)
        } else {
            pascal(before).push(c)
        }
    }
}

/// Whether every character of a text is one of ASCII.
pub open spec fn is_ascii(text: Seq<char>) -> bool {
    forall|i: int| 0 <= i < text.len() ==> (#[trigger] text[i] as u32) < 128
}

/// Words that are joined by an underscore become what each of them becomes, one after the other.
/// Of nothing comes nothing.
pub proof fn words_are_joined(a: Seq<char>, b: Seq<char>)
    ensures
        pascal(a + seq!['_'] + b) == pascal(a) + pascal(b),
        pascal(Seq::empty()) == Seq::<char>::empty(),
    decreases b.len(),
{
    let joined = a + seq!['_'] + b;
    if b.len() == 0 {
        assert(joined.drop_last() =~= a);
        assert(pascal(a) + pascal(b) =~= pascal(a));
    } else {
        let c = b.last();
        let before = b.drop_last();
        words_are_joined(a, before);
        assert(joined.drop_last() =~= a + seq!['_'] + before);
        assert(joined.last() == c);
        if before.len() == 0 {
            assert(joined.drop_last().last() == '_');
        } else {
            assert(joined.drop_last().last() == before.last());
        }
        assert(pascal(a) + pascal(before) + capital(c) =~= pascal(a) + (pascal(before) + capital(
            c,
        )));
        assert((pascal(a) + pascal(before)).push(c) =~= pascal(a) + pascal(before).push(c));
    }
}

/// No underscore of a name is left, unless it is the uppercase of a character beyond ASCII that
/// brings one in. In a name of ASCII no such character stands.
pub proof fn underscores_go(name: Seq<char>)
    ensures
        (forall|c: char| name.contains(c) && (c as u32) >= 128 ==> !(#[trigger] uppercase(
            c,
        )).contains('_')) ==> !pascal(name).contains('_'),
        is_ascii(name) ==> !pascal(name).contains('_'),
    decreases name.len(),
{
    if name.len() > 0 {
        let before = name.drop_last();
        let c = name.last();
        let added = if before.len() == 0 || before.last() == '_' {
            capital(c)
        } else {
            seq![c]
        };
        underscores_go(before);
        assert(name[name.len() - 1] == c);
        assert forall|d: char| before.contains(d) implies name.contains(d) by {
            let i = choose|i: int| 0 <= i < before.len() && before[i] == d;
            assert(name[i] == d);
        }
        if is_ascii(name) {
            assert forall|d: char| #[trigger] name.contains(d) implies (d as u32) < 128 by {
                let i = choose|i: int| 0 <= i < name.len() && name[i] == d;
                assert((name[i] as u32) < 128);
            }
        }
        if c != '_' {
            assert(pascal(name) =~= pascal(before) + added);
            if pascal(name).contains('_') {
                let i = choose|i: int| 0 <= i < pascal(name).len() && pascal(name)[i] == '_';
                if i < pascal(before).len() {
                    assert(pascal(before)[i] == '_');
                } else {
                    assert(added[i - pascal(before).len()] == '_');
                    assert(added.contains('_'));
                }
            }
        }
    }
}

/// A name of ASCII becomes shorter by its underscores.
pub proof fn only_underscores_go(name: Seq<char>)
    requires
        is_ascii(name),
    ensures
        pascal(name).len() + name.filter(|c: char| c == '_').len() == name.len(),
    decreases name.len(),
{
    reveal(Seq::filter);
    if name.len() > 0 {
        let before = name.drop_last();
        assert((name[name.len() - 1] as u32) < 128);
        assert forall|i: int| 0 <= i < before.len() implies (#[trigger] before[i] as u32) < 128 by {
            assert(before[i] == name[i]);
        }
        only_underscores_go(before);
    }
}

/// What a name of ASCII becomes, stays as it is when it is turned into the name of a type again.
pub proof fn pascal_is_stable(name: Seq<char>)
    requires
        is_ascii(name),
    ensures
        pascal(pascal(name)) == pascal(name),
{
    underscores_go(name);
    lemma_begins_with_capital(name);
    lemma_kept(pascal(name));
}

proof fn lemma_begins_with_capital(name: Seq<char>)
    requires
        is_ascii(name),
    ensures
        pascal(name).len() > 0 ==> capital(pascal(name)[0]) == seq![pascal(name)[0]],
    decreases name.len(),
{
    if name.len() > 0 {
        let before = name.drop_last();
        let c = name.last();
        assert((name[name.len() - 1] as u32) < 128);
        assert forall|i: int| 0 <= i < before.len() implies (#[trigger] before[i] as u32) < 128 by {
            assert(before[i] == name[i]);
        }
        lemma_begins_with_capital(before);
        only_underscores_go(before);
        if c != '_' {
            if pascal(before).len() == 0 {
                if before.len() > 0 {
                    assert((before[before.len() - 1] as u32) < 128);
                }
                assert(pascal(name) =~= capital(c));
                assert(capital(capital(c)[0]) =~= capital(c));
            } else {
                assert(pascal(name)[0] == pascal(before)[0]);
            }
        }
    }
}

proof fn lemma_kept(text: Seq<char>)
    requires
        !text.contains('_'),
        text.len() > 0 ==> capital(text[0]) == seq![text[0]],
    ensures
        pascal(text) == text,
    decreases text.len(),
{
    if text.len() > 0 {
        let before = text.drop_last();
        assert forall|i: int| 0 <= i < before.len() implies #[trigger] before[i] != '_' by {
            assert(text.contains(text[i]));
        }
        lemma_kept(before);
        assert(text.contains(text[text.len() - 1]));
        assert(text =~= before.push(text.last()));
        if before.len() == 0 {
            assert(before + seq![text.last()] =~= text);
        }
    } else {
        assert(pascal(text) =~= text);
    }
}

/// Turns the name of a method into the name of a type, in which no underscore is left.
pub fn snake_to_pascal(name: &str) -> (r: String)
    ensures
        r@ == pascal(name@),
        !r@.contains('_'),
{
    let mut out = String::new();
    let len: usize = name.unicode_len();
    let mut starts = true;
    for i in 0..len
        invariant
            len == name@.len(),
            out@ == pascal(name@.take(i as int)),
            forall|j: int| 0 <= j < out@.len() ==> #[trigger] out@[j] != '_',
            starts == (i == 0 || name@[i - 1] == '_'),
    {
        proof {
            assert(name@.take(i + 1).drop_last() =~= name@.take(i as int));
            assert(name@.take(i + 1).last() == name@[i as int]);
            if i > 0 {
                assert(name@.take(i as int).last() == name@[i - 1]);
            }
        }
        let c = name.get_char(i);
        if c == '_' {
            starts = true;
        } else if starts {
            let upper = to_uppercase(c);
            assert forall|j: int| 0 <= j < upper@.len() implies #[trigger] upper@[j] != '_' by {
                assert(upper@.contains(upper@[j]));
            }
            out.append(&upper);
            starts = false;
        } else {
            out.push(c);
        }
    }
    assert(name@.take(len as int) =~= name@);
    out
}

/// The value of decimal digits.
pub open spec fn digits_value(digits: Seq<char>) -> int
    decreases digits.len(),
{
    if digits.len() == 0 {
        0
    } else {
        digits_value(digits.drop_last()) * 10 + ((digits.last() as u32) - ('0' as u32))
    }
}

/// Whether a text is made of decimal digits, and of one at least.
pub open spec fn is_digits(text: Seq<char>) -> bool {
    text.len() > 0 && forall|i: int| 0 <= i < text.len() ==> '0' <= #[trigger] text[i] <= '9'
}

/// Whether a text is the base 10 form of an integer: decimal digits, with a minus before them where
/// it is negative.
pub open spec fn is_integer(text: Seq<char>) -> bool {
    is_digits(text) || text.len() > 0 && text[0] == '-' && is_digits(text.skip(1))
}

/// What is said of an integer that is no number of the wanted size.
pub uninterp spec fn literal_error(digits: Seq<char>) -> Seq<char>;

/// `syn::LitInt::base10_parse`, on the literal with these digits, returns their value where it
/// fits in 16 bits. Elsewhere, and where a minus stands before the digits, it fails with a text
/// that is only named. `syn::LitInt::new` makes the literal; it panics where the text is no integer
/// literal.
#[verifier::external_body]
fn base10_parse(digits: &str) -> (r: Result<u16, String>)
    requires
        is_integer(digits@),
    ensures
        r is Ok <==> (is_digits(digits@) && digits_value(digits@) <= u16::MAX),
        r matches Ok(value) ==> value == digits_value(digits@),
        r matches Err(text) ==> text@ == literal_error(digits@),
{
    let literal = syn::LitInt::new(digits, proc_macro2::Span::call_site());
    literal.base10_parse::<u16>().map_err(|e| e.to_string())
}

fn digits_from(text: &str, from: usize) -> (r: bool)
    requires
        from <= text@.len(),
    ensures
        r == is_digits(text@.skip(from as int)),
{
    let len: usize = text.unicode_len();
    for i in from..len
        invariant
            from <= len == text@.len(),
            forall|j: int|
                0 <= j < i - from ==> '0' <= #[trigger] text@.skip(from as int)[j] <= '9',
    {
        let c = text.get_char(i);
        assert(text@.skip(from as int)[i - from] == c);
        if !('0' <= c && c <= '9') {
            return false;
        }
    }
    len > from
}

fn integer(text: &str) -> (r: bool)
    ensures
        r == is_integer(text@),
{
    let len: usize = text.unicode_len();
    if len == 0 {
        return false;
    }
    assert(text@.skip(0) =~= text@);
    if text.get_char(0) == '-' {
        assert(!is_digits(text@)) by {
            assert(text@[0] == '-');
        }
        digits_from(text, 1)
    } else {
        digits_from(text, 0)
    }
}

/// The mark of an endpoint: the place of the attribute, and its arguments, or why they could not be
/// parsed.
pub struct Mark {
    pub attr: usize,
    pub metas: Result<Vec<MetaArg>, String>,
}

/// What a [`Mark`] says.
pub struct MarkView {
    pub attr: int,
    pub metas: Result<Seq<MetaArgView>, Seq<char>>,
}

impl View for Mark {
    type V = MarkView;

    open spec fn view(&self) -> MarkView {
        MarkView {
            attr: self.attr as int,
            metas: match self.metas {
                Ok(metas) => Ok(metas_view(metas@)),
                Err(text) => Err(text@),
            },
        }
    }
}

/// A method, with its mark where it is an endpoint.
pub struct MethodDecl {
    pub name: String,
    pub mark: Option<Mark>,
    pub args: Vec<ArgDecl>,
    pub is_async: bool,
}

/// What a [`MethodDecl`] says.
pub struct MethodView {
    pub name: Seq<char>,
    pub mark: Option<MarkView>,
    pub args: Seq<ArgView>,
    pub is_async: bool,
}

impl View for MethodDecl {
    type V = MethodView;

    open spec fn view(&self) -> MethodView {
        MethodView {
            name: self.name@,
            mark: match self.mark {
                Some(mark) => Some(mark@),
                None => None,
            },
            args: args_view(self.args@),
            is_async: self.is_async,
        }
    }
}

/// An item of an `impl` block.
pub enum ItemDecl {
    Fn(MethodDecl),
    Other,
}

/// What an [`ItemDecl`] says.
pub enum ItemView {
    Fn(MethodView),
    Other,
}

impl View for ItemDecl {
    type V = ItemView;

    open spec fn view(&self) -> ItemView {
        match *self {
            ItemDecl::Fn(method) => ItemView::Fn(method@),
            ItemDecl::Other => ItemView::Other,
        }
    }
}

/// What items say.
pub open spec fn items_view(items: Seq<ItemDecl>) -> Seq<ItemView> {
    items.map_values(|item: ItemDecl| item@)
}

/// Why `name = <int>` was not found.
pub enum IntError {
    /// The argument has another name than this one.
    Unexpected(String),
    NotAnInteger,
    /// The literal is no number of 16 bits.
    OutOfRange(String),
}

/// What an [`IntError`] says.
pub enum IntErrorView {
    Unexpected(Seq<char>),
    NotAnInteger,
    OutOfRange(Seq<char>),
}

impl View for IntError {
    type V = IntErrorView;

    open spec fn view(&self) -> IntErrorView {
        match *self {
            IntError::Unexpected(expected) => IntErrorView::Unexpected(expected@),
            IntError::NotAnInteger => IntErrorView::NotAnInteger,
            IntError::OutOfRange(text) => IntErrorView::OutOfRange(text@),
        }
    }
}

impl IntErrorView {
    /// The text of the error.
    pub open spec fn text(self) -> Seq<char> {
        match self {
            IntErrorView::Unexpected(expected) => "expected `"@ + expected + " = <int>`"@,
            IntErrorView::NotAnInteger => "expected integer literal"@,
            IntErrorView::OutOfRange(text) => text,
        }
    }
}

impl IntError {
    /// The text of the error.
    pub fn text(self) -> (r: String)
        ensures
            r@ == self@.text(),
    {
        match self {
            IntError::Unexpected(expected) => {
                let mut text = "expected `".to_owned();
                text.append(&expected);
                text.append(" = <int>`");
                text
            },
            IntError::NotAnInteger => "expected integer literal".to_owned(),
            IntError::OutOfRange(text) => text,
        }
    }
}

/// Whether a path is this one identifier.
pub open spec fn is_named(path: Option<Seq<char>>, ident: Seq<char>) -> bool {
    path == Some(ident)
}

fn is_ident(path: &Option<String>, ident: &String) -> (r: bool)
    ensures
        r == is_named(name_view(*path), ident@),
{
    match path {
        Some(name) => *name == *ident,
        None => false,
    }
}

/// The result of [`int_value`].
pub open spec fn spec_int_value(
    name: Option<Seq<char>>,
    value: MetaValueView,
    expected: Seq<char>,
) -> Result<u16, IntErrorView> {
    if !is_named(name, expected) {
        Err(IntErrorView::Unexpected(expected))
    } else {
        match value {
            MetaValueView::Int(digits) => if !is_integer(digits) {
                Err(IntErrorView::NotAnInteger)
            } else if is_digits(digits) && digits_value(digits) <= u16::MAX {
                Ok(digits_value(digits) as u16)
            } else {
                Err(IntErrorView::OutOfRange(literal_error(digits)))
            },
            MetaValueView::Other => Err(IntErrorView::NotAnInteger),
        }
    }
}

/// The value of the argument `expected = <int>`.
pub fn int_value(name: &Option<String>, value: &MetaValue, expected: &String) -> (r: Result<
    u16,
    IntError,
>)
    ensures
        match r {
            Ok(v) => spec_int_value(name_view(*name), value@, expected@) == Ok::<
                u16,
                IntErrorView,
            >(v),
            Err(e) => spec_int_value(name_view(*name), value@, expected@) == Err::<
                u16,
                IntErrorView,
            >(e@),
        },
{
    if !is_ident(name, expected) {
        return Err(IntError::Unexpected(expected.clone()));
    }
    match value {
        MetaValue::Int(digits) => {
            if !integer(digits) {
                return Err(IntError::NotAnInteger);
            }
            match base10_parse(digits) {
                Ok(v) => Ok(v),
                Err(text) => Err(IntError::OutOfRange(text)),
            }
        },
        MetaValue::Other => Err(IntError::NotAnInteger),
    }
}

/// The first argument `key = ..`, if there is one: its place and its value.
pub open spec fn spec_find_int(metas: Seq<MetaArgView>, key: Seq<char>) -> Option<
    (int, Result<u16, IntErrorView>),
>
    decreases metas.len(),
{
    if metas.len() == 0 {
        None
    } else {
        let earlier = spec_find_int(metas.drop_last(), key);
        match (earlier, metas.last()) {
            (Some(_), _) => earlier,
            (None, MetaArgView::NameValue { name, value }) => if is_named(name, key) {
                Some((metas.len() - 1, spec_int_value(name, value, key)))
            } else {
                None
            },
            (None, _) => None,
        }
    }
}

fn find_int(metas: &Vec<MetaArg>, key: &String) -> (r: Option<(usize, Result<u16, IntError>)>)
    ensures
        match r {
            None => spec_find_int(metas_view(metas@), key@) is None,
            Some((i, Ok(v))) => spec_find_int(metas_view(metas@), key@) == Some(
                (i as int, Ok::<u16, IntErrorView>(v)),
            ),
            Some((i, Err(e))) => spec_find_int(metas_view(metas@), key@) == Some(
                (i as int, Err::<u16, IntErrorView>(e@)),
            ),
        },
{
    let ghost all = metas_view(metas@);
    let mut i: usize = 0;
    while i < metas.len()
        invariant
            all == metas_view(metas@),
            i <= metas@.len(),
            spec_find_int(all.take(i as int), key@) is None,
        decreases metas@.len() - i,
    {
        proof {
            assert(all.take(i + 1).drop_last() =~= all.take(i as int));
            assert(all.take(i + 1).last() == metas@[i as int]@);
        }
        if let MetaArg::NameValue { name, value } = &metas[i] {
            if is_ident(name, key) {
                proof {
                    lemma_find_first(all, i + 1, key@);
                }
                return Some((i, int_value(name, value, key)));
            }
        }
        i += 1;
    }
    assert(all.take(all.len() as int) =~= all);
    None
}

proof fn lemma_find_first(metas: Seq<MetaArgView>, n: int, key: Seq<char>)
    requires
        0 <= n <= metas.len(),
        spec_find_int(metas.take(n), key) is Some,
    ensures
        spec_find_int(metas, key) == spec_find_int(metas.take(n), key),
    decreases metas.len() - n,
{
    if n < metas.len() {
        assert(metas.take(n + 1).drop_last() =~= metas.take(n));
        lemma_find_first(metas, n + 1, key);
    } else {
        assert(metas.take(n) =~= metas);
    }
}

/// Why a block has no namespace.
pub enum NamespaceError {
    Missing,
    /// `arg` is the place of the argument.
    Bad { arg: usize, error: IntError },
}

/// What a [`NamespaceError`] says.
pub enum NamespaceErrorView {
    Missing,
    Bad { arg: int, error: IntErrorView },
}

impl View for NamespaceError {
    type V = NamespaceErrorView;

    open spec fn view(&self) -> NamespaceErrorView {
        match *self {
            NamespaceError::Missing => NamespaceErrorView::Missing,
            NamespaceError::Bad { arg, error } => NamespaceErrorView::Bad {
                arg: arg as int,
                error: error@,
            },
        }
    }
}

impl NamespaceErrorView {
    /// The text of the error.
    pub open spec fn text(self) -> Seq<char> {
        match self {
            NamespaceErrorView::Missing => "missing `ns = <int>` argument"@,
            NamespaceErrorView::Bad { arg, error } => error.text(),
        }
    }
}

impl NamespaceError {
    /// The text of the error.
    pub fn text(self) -> (r: String)
        ensures
            r@ == self@.text(),
    {
        match self {
            NamespaceError::Missing => "missing `ns = <int>` argument".to_owned(),
            NamespaceError::Bad { arg: _, error } => error.text(),
        }
    }
}

/// The result of [`namespace`].
pub open spec fn spec_namespace(metas: Seq<MetaArgView>) -> Result<u16, NamespaceErrorView> {
    match spec_find_int(metas, "ns"@) {
        None => Err(NamespaceErrorView::Missing),
        Some((_, Ok(ns))) => Ok(ns),
        Some((arg, Err(error))) => Err(NamespaceErrorView::Bad { arg, error }),
    }
}

/// The namespace that the arguments of a block name.
pub fn namespace(metas: &Vec<MetaArg>) -> (r: Result<u16, NamespaceError>)
    ensures
        match r {
            Ok(ns) => spec_namespace(metas_view(metas@)) == Ok::<u16, NamespaceErrorView>(ns),
            Err(e) => spec_namespace(metas_view(metas@)) == Err::<u16, NamespaceErrorView>(e@),
        },
{
    match find_int(metas, &"ns".to_owned()) {
        None => Err(NamespaceError::Missing),
        Some((_, Ok(ns))) => Ok(ns),
        Some((arg, Err(error))) => Err(NamespaceError::Bad { arg, error }),
    }
}

/// Whether an argument is the bare word `key`.
pub open spec fn has_word(metas: Seq<MetaArgView>, key: Seq<char>) -> bool {
    metas.contains(MetaArgView::Path(Some(key)))
}

fn finds_word(metas: &Vec<MetaArg>, key: &String) -> (r: bool)
    ensures
        r == has_word(metas_view(metas@), key@),
{
    for i in 0..metas.len()
        invariant
            forall|j: int|
                0 <= j < i ==> (#[trigger] metas@[j])@ != MetaArgView::Path(Some(key@)),
    {
        if let MetaArg::Path(path) = &metas[i] {
            if is_ident(path, key) {
                assert(metas_view(metas@)[i as int] == MetaArgView::Path(Some(key@)));
                return true;
            }
        }
    }
    assert forall|j: int| 0 <= j < metas@.len() implies #[trigger] metas_view(metas@)[j]
        != MetaArgView::Path(Some(key@)) by {
        assert(metas_view(metas@)[j] == metas@[j]@);
    }
    false
}

/// Why nothing can be generated. `item` is the place of the method in the block, `attr` that of
/// the attribute of the method, and `arg` that of the argument of the attribute or of the method.
pub enum ExpandError {
    NotANamedType,
    Arguments { item: usize, attr: usize, text: String },
    MissingId { item: usize, attr: usize },
    BadId { item: usize, attr: usize, arg: usize, error: IntError },
    PatternArgument { item: usize, arg: usize },
}

/// What an [`ExpandError`] says.
pub enum ExpandErrorView {
    NotANamedType,
    Arguments { item: int, attr: int, text: Seq<char> },
    MissingId { item: int, attr: int },
    BadId { item: int, attr: int, arg: int, error: IntErrorView },
    PatternArgument { item: int, arg: int },
}

impl View for ExpandError {
    type V = ExpandErrorView;

    open spec fn view(&self) -> ExpandErrorView {
        match *self {
            ExpandError::NotANamedType => ExpandErrorView::NotANamedType,
            ExpandError::Arguments { item, attr, text } => ExpandErrorView::Arguments {
                item: item as int,
                attr: attr as int,
                text: text@,
            },
            ExpandError::MissingId { item, attr } => ExpandErrorView::MissingId {
                item: item as int,
                attr: attr as int,
            },
            ExpandError::BadId { item, attr, arg, error } => ExpandErrorView::BadId {
                item: item as int,
                attr: attr as int,
                arg: arg as int,
                error: error@,
            },
            ExpandError::PatternArgument { item, arg } => ExpandErrorView::PatternArgument {
                item: item as int,
                arg: arg as int,
            },
        }
    }
}

impl ExpandErrorView {
    /// The text of the error.
    pub open spec fn text(self) -> Seq<char> {
        match self {
            ExpandErrorView::NotANamedType => "expected a named type"@,
            ExpandErrorView::Arguments { item, attr, text } => text,
            ExpandErrorView::MissingId { item, attr } => "missing `id = <int>` argument"@,
            ExpandErrorView::BadId { item, attr, arg, error } => error.text(),
            ExpandErrorView::PatternArgument { item, arg } =>
                "endpoint arguments must be plain identifiers"@,
        }
    }
}

impl ExpandError {
    /// The text of the error.
    pub fn text(self) -> (r: String)
        ensures
            r@ == self@.text(),
    {
        match self {
            ExpandError::NotANamedType => "expected a named type".to_owned(),
            ExpandError::Arguments { item: _, attr: _, text } => text,
            ExpandError::MissingId { item: _, attr: _ } => {
                "missing `id = <int>` argument".to_owned()
            },
            ExpandError::BadId { item: _, attr: _, arg: _, error } => error.text(),
            ExpandError::PatternArgument { item: _, arg: _ } =>
                "endpoint arguments must be plain identifiers".to_owned(),
        }
    }
}

/// A field of a generated request: its name, and the place of the parameter that it stands for.
pub struct Field {
    pub name: String,
    pub arg: usize,
}

/// What is generated for one endpoint.
pub struct Endpoint {
    /// The place of the method in the block.
    pub item: usize,
    pub method_name: String,
    pub request_ident: String,
    pub response_ident: String,
    pub endpoint_id: u16,
    pub cancellable: bool,
    pub fields: Vec<Field>,
    /// Whether the result of the method is awaited.
    pub awaited: bool,
}

/// What an [`Endpoint`] says.
pub struct EndpointView {
    pub item: int,
    pub method_name: Seq<char>,
    pub request_ident: Seq<char>,
    pub response_ident: Seq<char>,
    pub endpoint_id: u16,
    pub cancellable: bool,
    pub fields: Seq<(Seq<char>, int)>,
    pub awaited: bool,
}

/// The names and places of fields.
pub open spec fn fields_view(fields: Seq<Field>) -> Seq<(Seq<char>, int)> {
    fields.map_values(|field: Field| (field.name@, field.arg as int))
}

impl View for Endpoint {
    type V = EndpointView;

    open spec fn view(&self) -> EndpointView {
        EndpointView {
            item: self.item as int,
            method_name: self.method_name@,
            request_ident: self.request_ident@,
            response_ident: self.response_ident@,
            endpoint_id: self.endpoint_id,
            cancellable: self.cancellable,
            fields: fields_view(self.fields@),
            awaited: self.awaited,
        }
    }
}

/// The number of an endpoint in a namespace.
pub open spec fn spec_endpoint_id(ns: u16, id: u16) -> u16 {
    (ns << 8) | id
}

/// The number of an endpoint in a namespace.
pub fn endpoint_id(ns: u16, id: u16) -> (r: u16)
    ensures
        r == spec_endpoint_id(ns, id),
{
    (ns << 8) | id
}

/// Where both fit in eight bits, the namespace is the high byte of the number of an endpoint, and
/// its number in the namespace the low one.
pub proof fn endpoint_ids_hold_the_namespace(ns: u16, id: u16)
    requires
        ns < 0x100,
        id < 0x100,
    ensures
        spec_endpoint_id(ns, id) == ns * 0x100 + id,
{
    assert((ns << 8) | id == ns * 0x100 + id) by (bit_vector)
        requires
            ns < 0x100,
            id < 0x100,
    ;
}

/// Where namespaces and numbers in them fit in eight bits, endpoints of different namespaces, or
/// with different numbers, have different numbers.
pub proof fn endpoint_ids_are_unique(ns: u16, id: u16, other_ns: u16, other_id: u16)
    requires
        ns < 0x100,
        id < 0x100,
        other_ns < 0x100,
        other_id < 0x100,
        spec_endpoint_id(ns, id) == spec_endpoint_id(other_ns, other_id),
    ensures
        ns == other_ns,
        id == other_id,
{
    assert((ns << 8) | id == (other_ns << 8) | other_id ==> ns == other_ns && id == other_id)
        by (bit_vector)
        requires
            ns < 0x100,
            id < 0x100,
            other_ns < 0x100,
            other_id < 0x100,
    ;
}

/// The fields that parameters become, or the place of the first one that is no plain identifier.
/// The receiver becomes none.
pub open spec fn fields_of(args: Seq<ArgView>) -> Result<Seq<(Seq<char>, int)>, int>
    decreases args.len(),
{
    if args.len() == 0 {
        Ok(Seq::empty())
    } else {
        match (fields_of(args.drop_last()), args.last()) {
            (Err(i), _) => Err(i),
            (Ok(fields), ArgView::Receiver) => Ok(fields),
            (Ok(fields), ArgView::Ident(name)) => Ok(fields.push((name, args.len() - 1))),
            (Ok(_), ArgView::Pattern) => Err(args.len() - 1),
        }
    }
}

fn fields(args: &Vec<ArgDecl>) -> (r: Result<Vec<Field>, usize>)
    ensures
        match r {
            Ok(fields) => fields_of(args_view(args@)) == Ok::<Seq<(Seq<char>, int)>, int>(
                fields_view(fields@),
            ),
            Err(i) => fields_of(args_view(args@)) == Err::<Seq<(Seq<char>, int)>, int>(i as int),
        },
{
    let ghost all = args_view(args@);
    let mut fields: Vec<Field> = Vec::new();
    assert(fields_view(fields@) =~= Seq::empty());
    for i in 0..args.len()
        invariant
            all == args_view(args@),
            fields_of(all.take(i as int)) == Ok::<Seq<(Seq<char>, int)>, int>(
                fields_view(fields@),
            ),
    {
        proof {
            assert(all.take(i + 1).drop_last() =~= all.take(i as int));
            assert(all.take(i + 1).last() == args@[i as int]@);
        }
        match &args[i] {
            ArgDecl::Receiver => {},
            ArgDecl::Ident(name) => {
                let ghost before = fields@;
                fields.push(Field { name: name.clone(), arg: i });
                assert(fields_view(fields@) =~= fields_view(before).push((name@, i as int)));
            },
            ArgDecl::Pattern => {
                proof {
                    lemma_first_pattern(all, i + 1);
                }
                return Err(i);
            },
        }
    }
    assert(all.take(all.len() as int) =~= all);
    Ok(fields)
}

proof fn lemma_first_pattern(args: Seq<ArgView>, n: int)
    requires
        0 <= n <= args.len(),
        fields_of(args.take(n)) is Err,
    ensures
        fields_of(args) == fields_of(args.take(n)),
    decreases args.len() - n,
{
    if n < args.len() {
        assert(args.take(n + 1).drop_last() =~= args.take(n));
        lemma_first_pattern(args, n + 1);
    } else {
        assert(args.take(n) =~= args);
    }
}

/// What is generated for a method, if it is marked as an endpoint.
pub open spec fn endpoint_of(ns: u16, item: int, method: MethodView) -> Option<
    Result<EndpointView, ExpandErrorView>,
> {
    match method.mark {
        None => None,
        Some(MarkView { attr, metas }) => Some(
            match metas {
                Err(text) => Err(ExpandErrorView::Arguments { item, attr, text }),
                Ok(metas) => match spec_find_int(metas, "id"@) {
                    None => Err(ExpandErrorView::MissingId { item, attr }),
                    Some((arg, Err(error))) => Err(
                        ExpandErrorView::BadId { item, attr, arg, error },
                    ),
                    Some((_, Ok(id))) => match fields_of(method.args) {
                        Err(arg) => Err(ExpandErrorView::PatternArgument { item, arg }),
                        Ok(fields) => Ok(
                            EndpointView {
                                item,
                                method_name: method.name,
                                request_ident: pascal(method.name),
                                response_ident: pascal(method.name) + "Response"@,
                                endpoint_id: spec_endpoint_id(ns, id),
                                cancellable: has_word(metas, "cancel"@),
                                fields,
                                awaited: method.is_async,
                            },
                        ),
                    },
                },
            },
        ),
    }
}

fn plan_endpoint(ns: u16, item: usize, method: &MethodDecl) -> (r: Option<
    Result<Endpoint, ExpandError>,
>)
    ensures
        match r {
            None => endpoint_of(ns, item as int, method@) is None,
            Some(Ok(e)) => endpoint_of(ns, item as int, method@) == Some(
                Ok::<EndpointView, ExpandErrorView>(e@),
            ),
            Some(Err(e)) => endpoint_of(ns, item as int, method@) == Some(
                Err::<EndpointView, ExpandErrorView>(e@),
            ),
        },
{
    let mark = match &method.mark {
        None => {
            return None;
        },
        Some(mark) => mark,
    };
    let attr: usize = mark.attr;
    let metas = match &mark.metas {
        Err(text) => {
            return Some(Err(ExpandError::Arguments { item, attr, text: text.clone() }));
        },
        Ok(metas) => metas,
    };
    let id: u16 = match find_int(metas, &"id".to_owned()) {
        None => {
            return Some(Err(ExpandError::MissingId { item, attr }));
        },
        Some((arg, Err(error))) => {
            return Some(Err(ExpandError::BadId { item, attr, arg, error }));
        },
        Some((_, Ok(id))) => id,
    };
    let cancellable = finds_word(metas, &"cancel".to_owned());
    let request_ident = snake_to_pascal(&method.name);
    let mut response_ident = request_ident.clone();
    response_ident.append("Response");
    match fields(&method.args) {
        Err(arg) => Some(Err(ExpandError::PatternArgument { item, arg })),
        Ok(fields) => Some(
            Ok(
                Endpoint {
                    item,
                    method_name: method.name.clone(),
                    request_ident,
                    response_ident,
                    endpoint_id: endpoint_id(ns, id),
                    cancellable,
                    fields,
                    awaited: method.is_async,
                },
            ),
        ),
    }
}

/// What is generated for the items of a block: the endpoints in their order, or the first error.
pub open spec fn endpoints_of(ns: u16, items: Seq<ItemView>) -> Result<
    Seq<EndpointView>,
    ExpandErrorView,
>
    decreases items.len(),
{
    if items.len() == 0 {
        Ok(Seq::empty())
    } else {
        match (endpoints_of(ns, items.drop_last()), items.last()) {
            (Err(e), _) => Err(e),
            (Ok(before), ItemView::Other) => Ok(before),
            (Ok(before), ItemView::Fn(method)) => match endpoint_of(
                ns,
                items.len() - 1,
                method,
            ) {
                None => Ok(before),
                Some(Err(e)) => Err(e),
                Some(Ok(endpoint)) => Ok(before.push(endpoint)),
            },
        }
    }
}

/// What is generated for a block.
pub struct Expansion {
    pub client_ident: String,
    pub endpoints: Vec<Endpoint>,
}

/// What an [`Expansion`] says.
pub struct ExpansionView {
    pub client_ident: Seq<char>,
    pub endpoints: Seq<EndpointView>,
}

/// What endpoints say.
pub open spec fn endpoints_view(endpoints: Seq<Endpoint>) -> Seq<EndpointView> {
    endpoints.map_values(|endpoint: Endpoint| endpoint@)
}

impl View for Expansion {
    type V = ExpansionView;

    open spec fn view(&self) -> ExpansionView {
        ExpansionView {
            client_ident: self.client_ident@,
            endpoints: endpoints_view(self.endpoints@),
        }
    }
}

/// The result of [`expand`].
pub open spec fn spec_expand(
    ns: u16,
    self_ident: Option<Seq<char>>,
    items: Seq<ItemView>,
) -> Result<ExpansionView, ExpandErrorView> {
    match self_ident {
        None => Err(ExpandErrorView::NotANamedType),
        Some(ident) => match endpoints_of(ns, items) {
            Err(e) => Err(e),
            Ok(endpoints) => Ok(ExpansionView { client_ident: ident + "Client"@, endpoints }),
        },
    }
}

/// Says what to generate for a block of the type with the name `self_ident`; a type that is no
/// path has none.
pub fn expand(ns: u16, self_ident: &Option<String>, items: &Vec<ItemDecl>) -> (r: Result<
    Expansion,
    ExpandError,
>)
    ensures
        match r {
            Ok(e) => spec_expand(ns, name_view(*self_ident), items_view(items@)) == Ok::<
                ExpansionView,
                ExpandErrorView,
            >(e@),
            Err(e) => spec_expand(ns, name_view(*self_ident), items_view(items@)) == Err::<
                ExpansionView,
                ExpandErrorView,
            >(e@),
        },
{
    let ghost all = items_view(items@);
    let mut client_ident = match self_ident {
        None => {
            return Err(ExpandError::NotANamedType);
        },
        Some(ident) => ident.clone(),
    };
    client_ident.append("Client");
    let mut endpoints: Vec<Endpoint> = Vec::new();
    assert(endpoints_view(endpoints@) =~= Seq::empty());
    for i in 0..items.len()
        invariant
            all == items_view(items@),
            self_ident is Some,
            client_ident@ == self_ident->0@ + "Client"@,
            endpoints_of(ns, all.take(i as int)) == Ok::<Seq<EndpointView>, ExpandErrorView>(
                endpoints_view(endpoints@),
            ),
    {
        proof {
            assert(all.take(i + 1).drop_last() =~= all.take(i as int));
            assert(all.take(i + 1).last() == items@[i as int]@);
        }
        if let ItemDecl::Fn(method) = &items[i] {
            match plan_endpoint(ns, i, method) {
                None => {},
                Some(Err(e)) => {
                    proof {
                        lemma_first_error(ns, all, i + 1);
                    }
                    return Err(e);
                },
                Some(Ok(endpoint)) => {
                    let ghost before = endpoints@;
                    endpoints.push(endpoint);
                    assert(endpoints_view(endpoints@) =~= endpoints_view(before).push(endpoint@));
                },
            }
        }
    }
    assert(all.take(all.len() as int) =~= all);
    Ok(Expansion { client_ident, endpoints })
}

proof fn lemma_first_error(ns: u16, items: Seq<ItemView>, n: int)
    requires
        0 <= n <= items.len(),
        endpoints_of(ns, items.take(n)) is Err,
    ensures
        endpoints_of(ns, items) == endpoints_of(ns, items.take(n)),
    decreases items.len() - n,
{
    if n < items.len() {
        assert(items.take(n + 1).drop_last() =~= items.take(n));
        lemma_first_error(ns, items, n + 1);
    } else {
        assert(items.take(n) =~= items);
    }
}

/// What the parser makes of the texts of arguments, or what it says against the first one that it
/// rejects.
pub open spec fn metas_of(texts: Seq<Seq<char>>) -> Result<Seq<MetaArgView>, Seq<char>>
    decreases texts.len(),
{
    if texts.len() == 0 {
        Ok(Seq::empty())
    } else {
        match (metas_of(texts.drop_last()), parsed_meta(texts.last())) {
            (Err(e), _) => Err(e),
            (Ok(_), Err(e)) => Err(e),
            (Ok(metas), Ok(meta)) => Ok(metas.push(meta)),
        }
    }
}

/// What the parser makes of arguments that it cut into texts.
pub open spec fn arguments_of(cut: Result<Seq<Seq<char>>, Seq<char>>) -> Result<
    Seq<MetaArgView>,
    Seq<char>,
> {
    match cut {
        Ok(texts) => metas_of(texts),
        Err(e) => Err(e),
    }
}

fn read_metas(cut: Result<Vec<String>, String>) -> (r: Result<Vec<MetaArg>, String>)
    ensures
        ({
            let arguments = arguments_of(
                match cut {
                    Ok(texts) => Ok(texts_view(texts@)),
                    Err(e) => Err(e@),
                },
            );
            match r {
                Ok(metas) => arguments == Ok::<Seq<MetaArgView>, Seq<char>>(metas_view(metas@)),
                Err(e) => arguments == Err::<Seq<MetaArgView>, Seq<char>>(e@),
            }
        }),
{
    let texts = match cut {
        Ok(texts) => texts,
        Err(e) => {
            return Err(e);
        },
    };
    let ghost all = texts_view(texts@);
    let mut metas: Vec<MetaArg> = Vec::new();
    assert(metas_view(metas@) =~= Seq::empty());
    for i in 0..texts.len()
        invariant
            cut == Ok::<Vec<String>, String>(texts),
            all == texts_view(texts@),
            metas_of(all.take(i as int)) == Ok::<Seq<MetaArgView>, Seq<char>>(
                metas_view(metas@),
            ),
    {
        proof {
            assert(all.take(i + 1).drop_last() =~= all.take(i as int));
            assert(all.take(i + 1).last() == texts@[i as int]@);
        }
        match parse_meta(&texts[i]) {
            Ok(meta) => {
                let ghost before = metas@;
                metas.push(meta);
                assert(metas_view(metas@) =~= metas_view(before).push(meta@));
            },
            Err(e) => {
                proof {
                    lemma_first_bad_meta(all, i + 1);
                }
                return Err(e);
            },
        }
    }
    assert(all.take(all.len() as int) =~= all);
    Ok(metas)
}

proof fn lemma_first_bad_meta(texts: Seq<Seq<char>>, n: int)
    requires
        0 <= n <= texts.len(),
        metas_of(texts.take(n)) is Err,
    ensures
        metas_of(texts) == metas_of(texts.take(n)),
    decreases texts.len() - n,
{
    if n < texts.len() {
        assert(texts.take(n + 1).drop_last() =~= texts.take(n));
        lemma_first_bad_meta(texts, n + 1);
    } else {
        assert(texts.take(n) =~= texts);
    }
}

/// Whether an attribute with this path marks a method as an endpoint.
pub fn is_marker(path: &Option<String>) -> (r: bool)
    ensures
        r == is_named(name_view(*path), "endpoints"@),
{
    is_ident(path, &"endpoints".to_owned())
}

/// The place of the first attribute that marks a method as an endpoint, by the names of the
/// attributes.
pub open spec fn spec_first_mark(names: Seq<Option<Seq<char>>>) -> Option<int>
    decreases names.len(),
{
    if names.len() == 0 {
        None
    } else {
        match spec_first_mark(names.drop_last()) {
            Some(i) => Some(i),
            None => if is_named(names.last(), "endpoints"@) {
                Some(names.len() - 1)
            } else {
                None
            },
        }
    }
}

/// The place of the first attribute that marks a method as an endpoint, by the names of the
/// attributes.
pub fn first_mark(names: &Vec<Option<String>>) -> (r: Option<usize>)
    ensures
        match r {
            Some(i) => i < names@.len() && spec_first_mark(names_view(names@)) == Some(i as int),
            None => spec_first_mark(names_view(names@)) is None,
        },
{
    let ghost all = names_view(names@);
    let mut i: usize = 0;
    while i < names.len()
        invariant
            all == names_view(names@),
            i <= names@.len(),
            spec_first_mark(all.take(i as int)) is None,
        decreases names@.len() - i,
    {
        proof {
            assert(all.take(i + 1).drop_last() =~= all.take(i as int));
            assert(all.take(i + 1).last() == name_view(names@[i as int]));
        }
        if is_marker(&names[i]) {
            proof {
                lemma_first_mark(all, i + 1);
            }
            return Some(i);
        }
        i += 1;
    }
    assert(all.take(all.len() as int) =~= all);
    None
}

proof fn lemma_first_mark(names: Seq<Option<Seq<char>>>, n: int)
    requires
        0 <= n <= names.len(),
        spec_first_mark(names.take(n)) is Some,
    ensures
        spec_first_mark(names) == spec_first_mark(names.take(n)),
    decreases names.len() - n,
{
    if n < names.len() {
        assert(names.take(n + 1).drop_last() =~= names.take(n));
        lemma_first_mark(names, n + 1);
    } else {
        assert(names.take(n) =~= names);
    }
}

/// The name that the parser finds in the text of an attribute.
pub open spec fn attribute_name(attr: Seq<char>) -> Option<Seq<char>> {
    match parsed_meta(attr) {
        Ok(meta) => meta.name(),
        Err(_) => None,
    }
}

/// The names that the parser finds in the texts of attributes.
pub open spec fn attribute_names(attrs: Seq<Seq<char>>) -> Seq<Option<Seq<char>>> {
    attrs.map_values(|attr: Seq<char>| attribute_name(attr))
}

fn read_names(attrs: &Vec<String>) -> (r: Vec<Option<String>>)
    ensures
        names_view(r@) == attribute_names(texts_view(attrs@)),
{
    let mut names: Vec<Option<String>> = Vec::new();
    for i in 0..attrs.len()
        invariant
            names@.len() == i,
            forall|j: int|
                0 <= j < i ==> name_view(#[trigger] names@[j]) == attribute_name(attrs@[j]@),
    {
        let name = match parse_meta(&attrs[i]) {
            Ok(meta) => meta.name(),
            Err(_) => None,
        };
        names.push(name);
    }
    assert(names_view(names@) =~= attribute_names(texts_view(attrs@)));
    names
}

/// The first attribute that marks a method as an endpoint, with what the parser makes of its
/// arguments.
pub open spec fn mark_of(attrs: Seq<Seq<char>>) -> Option<MarkView> {
    match spec_first_mark(attribute_names(attrs)) {
        Some(attr) => Some(
            MarkView { attr, metas: arguments_of(attribute_arguments(attrs[attr])) },
        ),
        None => None,
    }
}

fn read_mark(attrs: &Vec<String>) -> (r: Option<Mark>)
    ensures
        match r {
            Some(mark) => mark_of(texts_view(attrs@)) == Some(mark@),
            None => mark_of(texts_view(attrs@)) is None,
        },
{
    let names = read_names(attrs);
    assert(names_view(names@).len() == attrs@.len());
    match first_mark(&names) {
        Some(attr) => {
            assert(texts_view(attrs@)[attr as int] == attrs@[attr as int]@);
            let metas = read_metas(parse_attribute_arguments(&attrs[attr]));
            Some(Mark { attr, metas })
        },
        None => None,
    }
}

/// An item with its mark, where it is a method that has one.
pub open spec fn item_of(item: ItemSyntaxView) -> ItemView {
    match item {
        ItemSyntaxView::Fn(method) => ItemView::Fn(
            MethodView {
                name: method.name,
                mark: mark_of(method.attrs),
                args: method.args,
                is_async: method.is_async,
            },
        ),
        ItemSyntaxView::Other => ItemView::Other,
    }
}

fn read_item(item: ItemSyntax) -> (r: ItemDecl)
    ensures
        r@ == item_of(item@),
{
    match item {
        ItemSyntax::Fn(method) => {
            let mark = read_mark(&method.attrs);
            let MethodSyntax { name, attrs: _, args, is_async } = method;
            ItemDecl::Fn(MethodDecl { name, mark, args, is_async })
        },
        ItemSyntax::Other => ItemDecl::Other,
    }
}

/// What the parser makes of the texts of items, or what it says against the first one that it
/// rejects.
pub open spec fn items_of(texts: Seq<Seq<char>>) -> Result<Seq<ItemView>, Seq<char>>
    decreases texts.len(),
{
    if texts.len() == 0 {
        Ok(Seq::empty())
    } else {
        match (items_of(texts.drop_last()), parsed_item(texts.last())) {
            (Err(e), _) => Err(e),
            (Ok(_), Err(e)) => Err(e),
            (Ok(items), Ok(item)) => Ok(items.push(item_of(item))),
        }
    }
}

fn read_items(texts: &Vec<String>) -> (r: Result<Vec<ItemDecl>, String>)
    ensures
        match r {
            Ok(items) => items_of(texts_view(texts@)) == Ok::<Seq<ItemView>, Seq<char>>(
                items_view(items@),
            ),
            Err(e) => items_of(texts_view(texts@)) == Err::<Seq<ItemView>, Seq<char>>(e@),
        },
{
    let ghost all = texts_view(texts@);
    let mut items: Vec<ItemDecl> = Vec::new();
    assert(items_view(items@) =~= Seq::empty());
    for i in 0..texts.len()
        invariant
            all == texts_view(texts@),
            items_of(all.take(i as int)) == Ok::<Seq<ItemView>, Seq<char>>(items_view(items@)),
    {
        proof {
            assert(all.take(i + 1).drop_last() =~= all.take(i as int));
            assert(all.take(i + 1).last() == texts@[i as int]@);
        }
        match parse_item(&texts[i]) {
            Ok(item) => {
                let ghost before = items@;
                items.push(read_item(item));
                assert(items_view(items@) =~= items_view(before).push(item_of(item@)));
            },
            Err(e) => {
                proof {
                    lemma_first_bad_item(all, i + 1);
                }
                return Err(e);
            },
        }
    }
    assert(all.take(all.len() as int) =~= all);
    Ok(items)
}

proof fn lemma_first_bad_item(texts: Seq<Seq<char>>, n: int)
    requires
        0 <= n <= texts.len(),
        items_of(texts.take(n)) is Err,
    ensures
        items_of(texts) == items_of(texts.take(n)),
    decreases texts.len() - n,
{
    if n < texts.len() {
        assert(texts.take(n + 1).drop_last() =~= texts.take(n));
        lemma_first_bad_item(texts, n + 1);
    } else {
        assert(texts.take(n) =~= texts);
    }
}

/// Why nothing can be generated for a block.
pub enum EndpointsError {
    /// The block could not be parsed.
    Block(String),
    /// The arguments of the block's attribute could not be parsed.
    Arguments(String),
    Namespace(NamespaceError),
    Expand(ExpandError),
}

/// What an [`EndpointsError`] says.
pub enum EndpointsErrorView {
    Block(Seq<char>),
    Arguments(Seq<char>),
    Namespace(NamespaceErrorView),
    Expand(ExpandErrorView),
}

impl View for EndpointsError {
    type V = EndpointsErrorView;

    open spec fn view(&self) -> EndpointsErrorView {
        match *self {
            EndpointsError::Block(text) => EndpointsErrorView::Block(text@),
            EndpointsError::Arguments(text) => EndpointsErrorView::Arguments(text@),
            EndpointsError::Namespace(e) => EndpointsErrorView::Namespace(e@),
            EndpointsError::Expand(e) => EndpointsErrorView::Expand(e@),
        }
    }
}

impl EndpointsErrorView {
    /// The text of the error.
    pub open spec fn text(self) -> Seq<char> {
        match self {
            EndpointsErrorView::Block(text) => text,
            EndpointsErrorView::Arguments(text) => text,
            EndpointsErrorView::Namespace(e) => e.text(),
            EndpointsErrorView::Expand(e) => e.text(),
        }
    }
}

impl EndpointsError {
    /// The text of the error.
    pub fn text(self) -> (r: String)
        ensures
            r@ == self@.text(),
    {
        match self {
            EndpointsError::Block(text) => text,
            EndpointsError::Arguments(text) => text,
            EndpointsError::Namespace(e) => e.text(),
            EndpointsError::Expand(e) => e.text(),
        }
    }
}

/// What the parser makes of a block: the name of its type, and its items.
pub open spec fn block_of(body: Seq<char>) -> Result<
    (Option<Seq<char>>, Seq<ItemView>),
    Seq<char>,
> {
    match parsed_block(body) {
        Err(e) => Err(e),
        Ok(block) => match items_of(block.items) {
            Err(e) => Err(e),
            Ok(items) => Ok((block.self_ident, items)),
        },
    }
}

/// The result of [`endpoints`]. What is wrong with the block comes before what is wrong with the
/// arguments of its attribute, that before what is wrong with the namespace, and that before what
/// is wrong with the endpoints.
pub open spec fn spec_endpoints(attrs: Seq<char>, body: Seq<char>) -> Result<
    ExpansionView,
    EndpointsErrorView,
> {
    match block_of(body) {
        Err(e) => Err(EndpointsErrorView::Block(e)),
        Ok((self_ident, items)) => match arguments_of(parsed_arguments(attrs)) {
            Err(e) => Err(EndpointsErrorView::Arguments(e)),
            Ok(metas) => match spec_namespace(metas) {
                Err(e) => Err(EndpointsErrorView::Namespace(e)),
                Ok(ns) => match spec_expand(ns, self_ident, items) {
                    Err(e) => Err(EndpointsErrorView::Expand(e)),
                    Ok(expansion) => Ok(expansion),
                },
            },
        },
    }
}

/// Says what to generate for the `impl` block with the text `body`, whose attribute has the
/// arguments with the text `attrs`.
pub fn endpoints(attrs: &str, body: &str) -> (r: Result<Expansion, EndpointsError>)
    ensures
        match r {
            Ok(e) => spec_endpoints(attrs@, body@) == Ok::<ExpansionView, EndpointsErrorView>(e@),
            Err(e) => spec_endpoints(attrs@, body@) == Err::<ExpansionView, EndpointsErrorView>(
                e@,
            ),
        },
{
    let block = match parse_block(body) {
        Ok(block) => block,
        Err(e) => {
            return Err(EndpointsError::Block(e));
        },
    };
    let items = match read_items(&block.items) {
        Ok(items) => items,
        Err(e) => {
            return Err(EndpointsError::Block(e));
        },
    };
    let metas = match read_metas(parse_arguments(attrs)) {
        Ok(metas) => metas,
        Err(e) => {
            return Err(EndpointsError::Arguments(e));
        },
    };
    let ns: u16 = match namespace(&metas) {
        Ok(ns) => ns,
        Err(e) => {
            return Err(EndpointsError::Namespace(e));
        },
    };
    match expand(ns, &block.self_ident, &items) {
        Ok(expansion) => Ok(expansion),
        Err(e) => Err(EndpointsError::Expand(e)),
    }
}

} // verus!
