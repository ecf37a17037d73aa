//! What is generated for a block, said of its items and of their arguments.

use crate::endpoints::{
    attribute_name, attribute_names, capital, digits_value, endpoint_of, endpoints_of, fields_of,
    is_digits, is_integer, items_of, literal_error, mark_of, metas_of, pascal, spec_endpoints,
    spec_expand, spec_find_int, spec_first_mark, spec_int_value, spec_namespace, uppercase,
    EndpointView, EndpointsErrorView, ExpandErrorView, ExpansionView, IntErrorView, ItemView,
    MethodView, NamespaceErrorView,
};
use crate::node::decimal;
use crate::syntax::{
    attribute_arguments, parsed_arguments, parsed_block, parsed_item, parsed_meta, ArgView,
    ItemSyntaxView, MetaArgView, MetaValueView,
};
use vstd::prelude::*;

verus! {

/// A word without underscores becomes the word with a capital at its beginning. With
/// `words_are_joined` this says what every name becomes.
pub proof fn words_begin_with_a_capital(word: Seq<char>)
    requires
        !word.contains('_'),
        word.len() > 0,
    ensures
        pascal(word) == capital(word[0]) + word.skip(1),
    decreases word.len(),
{
    let before = word.drop_last();
    let c = word.last();
    assert(word.contains(word[word.len() - 1]));
    if before.len() > 0 {
        assert forall|i: int| 0 <= i < before.len() implies #[trigger] before[i] != '_' by {
            assert(word.contains(word[i]));
        }
        words_begin_with_a_capital(before);
        assert(pascal(word) =~= capital(word[0]) + word.skip(1));
    } else {
        assert(pascal(before) + capital(c) =~= capital(word[0]) + word.skip(1));
    }
}

/// The capital of a small letter of ASCII is the big one; other characters of ASCII are their own
/// capitals; of other characters it is their uppercase.
pub proof fn capitals_are_big_letters(c: char, d: char)
    ensures
        'a' <= c <= 'z' && d as int == c as int - 32 ==> capital(c) == seq![d],
        (c as int) < 128 && !('a' <= c <= 'z') ==> capital(c) == seq![c],
        c as int >= 128 ==> capital(c) == uppercase(c),
{
}

/// A number is read back from its decimal digits, which are digits, and begin with none too many.
pub proof fn decimal_digits_are_read_back(n: nat)
    ensures
        digits_value(decimal(n)) == n,
        is_digits(decimal(n)),
        n > 0 ==> decimal(n)[0] != '0',
        n == 0 ==> decimal(n).len() == 1,
    decreases n,
{
    if n >= 10 {
        decimal_digits_are_read_back(n / 10);
        assert(decimal(n).drop_last() =~= decimal(n / 10));
        assert(decimal(n)[0] == decimal(n / 10)[0]);
    } else {
        assert(decimal(n).drop_last() =~= Seq::empty());
        assert(digits_value(Seq::empty()) == 0);
    }
}

/// Zeros before digits do not change their value, and each further digit counts ten times less than
/// the one before.
pub proof fn digits_count_by_place(digits: Seq<char>, c: char)
    ensures
        digits_value(digits.push(c)) == digits_value(digits) * 10 + (c as int - '0' as int),
        digits_value(seq!['0'] + digits) == digits_value(digits),
    decreases digits.len(),
{
    assert(digits.push(c).drop_last() =~= digits);
    if digits.len() == 0 {
        assert(seq!['0'] + digits =~= seq!['0']);
        assert((seq!['0']).drop_last() =~= Seq::empty());
        assert(digits_value(Seq::empty()) == 0);
    } else {
        digits_count_by_place(digits.drop_last(), c);
        assert((seq!['0'] + digits).drop_last() =~= seq!['0'] + digits.drop_last());
    }
}

/// An argument has a value exactly where it has the wanted name and is an integer that is not
/// negative and fits in 16 bits: that number. Elsewhere it says what is wrong, the name before the
/// value.
pub proof fn integers_are_read_as_they_stand(
    name: Option<Seq<char>>,
    value: MetaValueView,
    expected: Seq<char>,
    n: u16,
)
    ensures
        ({
            let r = spec_int_value(name, value, expected);
            &&& r == Ok::<u16, IntErrorView>(n) <==> name == Some(expected) && (
            value matches MetaValueView::Int(digits) && is_digits(digits) && digits_value(digits)
                == n)
            &&& r == Err::<u16, IntErrorView>(IntErrorView::Unexpected(expected)) <==> name != Some(
                expected,
            )
            &&& r == Err::<u16, IntErrorView>(IntErrorView::NotAnInteger) <==> name == Some(
                expected,
            ) && (value is Other || (value matches MetaValueView::Int(digits) && !is_integer(
                digits,
            )))
            &&& r matches Err(IntErrorView::OutOfRange(text)) ==> {
                &&& value matches MetaValueView::Int(digits)
                &&& text == literal_error(digits)
                &&& is_integer(digits)
                &&& !is_digits(digits) || digits_value(digits) > u16::MAX
            }
        }),
{
    if let MetaValueView::Int(digits) = value {
        if is_digits(digits) {
            lemma_digits_count(digits);
        }
    }
}

proof fn lemma_digits_count(digits: Seq<char>)
    requires
        forall|i: int| 0 <= i < digits.len() ==> '0' <= #[trigger] digits[i] <= '9',
    ensures
        digits_value(digits) >= 0,
    decreases digits.len(),
{
    if digits.len() > 0 {
        assert(digits[digits.len() - 1] == digits.last());
        assert(forall|i: int|
            0 <= i < digits.drop_last().len() ==> #[trigger] digits.drop_last()[i] == digits[i]);
        lemma_digits_count(digits.drop_last());
    }
}

/// The argument that is taken is the first one with that name and a value, wherever it stands.
pub proof fn the_first_argument_of_a_name_is_taken(metas: Seq<MetaArgView>, key: Seq<char>)
    ensures
        match spec_find_int(metas, key) {
            None => forall|i: int|
                0 <= i < metas.len() ==> !(#[trigger] metas[i] matches MetaArgView::NameValue {
                    name,
                    value,
                } && name == Some(key)),
            Some((k, r)) => {
                &&& 0 <= k < metas.len()
                &&& metas[k] matches MetaArgView::NameValue { name, value }
                &&& name == Some(key)
                &&& r == spec_int_value(Some(key), value, key)
                &&& forall|i: int|
                    0 <= i < k ==> !(#[trigger] metas[i] matches MetaArgView::NameValue {
                        name,
                        value,
                    } && name == Some(key))
            },
        },
    decreases metas.len(),
{
    if metas.len() > 0 {
        let before = metas.drop_last();
        the_first_argument_of_a_name_is_taken(before, key);
        assert(metas[metas.len() - 1] == metas.last());
        assert(forall|i: int| 0 <= i < before.len() ==> #[trigger] metas[i] == before[i]);
    }
}

/// The namespace of a block is the value of the first argument `ns = ..`.
pub proof fn namespaces_are_found(metas: Seq<MetaArgView>)
    ensures
        match spec_find_int(metas, "ns"@) {
            None => spec_namespace(metas) == Err::<u16, NamespaceErrorView>(
                NamespaceErrorView::Missing,
            ),
            Some((arg, Ok(ns))) => spec_namespace(metas) == Ok::<u16, NamespaceErrorView>(ns),
            Some((arg, Err(error))) => spec_namespace(metas) == Err::<u16, NamespaceErrorView>(
                NamespaceErrorView::Bad { arg, error },
            ),
        },
{
}

/// Every parameter that is a plain identifier becomes a field of its name, in the order of the
/// parameters; a receiver becomes none. Where a parameter is any other pattern, the first such one
/// is named instead.
pub proof fn parameters_become_fields(args: Seq<ArgView>, i: int)
    ensures
        match fields_of(args) {
            Err(k) => {
                &&& 0 <= k < args.len()
                &&& args[k] is Pattern
                &&& 0 <= i < k ==> args[i] !is Pattern
            },
            Ok(fields) => {
                &&& 0 <= i < args.len() ==> args[i] !is Pattern
                &&& 0 <= i < args.len() ==> (args[i] matches ArgView::Ident(name)
                    ==> fields.contains((name, i)))
                &&& forall|k: int|
                    0 <= k < fields.len() ==> {
                        &&& 0 <= (#[trigger] fields[k]).1 < args.len()
                        &&& args[fields[k].1] == ArgView::Ident(fields[k].0)
                    }
                &&& forall|k: int, l: int|
                    0 <= k < l < fields.len() ==> (#[trigger] fields[k]).1 < (
                    #[trigger] fields[l]).1
            },
        },
    decreases args.len(),
{
    if args.len() > 0 {
        let before = args.drop_last();
        let n = before.len() as int;
        assert(args[n] == args.last());
        assert(forall|k: int| 0 <= k < n ==> #[trigger] args[k] == before[k]);
        parameters_become_fields(before, i);
        if let Ok(was) = fields_of(before) {
            if let Ok(fields) = fields_of(args) {
                if 0 <= i < args.len() && args[i] is Ident {
                    let field = (args[i]->Ident_0, i);
                    if i < n {
                        let k = choose|k: int| 0 <= k < was.len() && was[k] == field;
                        assert(fields[k] == field);
                    } else {
                        assert(fields[was.len() as int] == field);
                    }
                }
            }
        }
    }
}

/// A method is an endpoint exactly where it has a mark. It is generated where the mark's arguments
/// were parsed, the first `id = ..` among them is a number, and every parameter is a plain
/// identifier or the receiver; otherwise the first of these that fails is reported. It bears the
/// names that its name becomes, the number of its namespace and of its id, and the fields of its
/// parameters; it can be cancelled exactly where some argument of the mark, at whatever place, is
/// the bare word `cancel`; and it is awaited where the method is async.
pub proof fn endpoints_are_what_their_marks_say(ns: u16, item: int, method: MethodView)
    ensures
        endpoint_of(ns, item, method) is None <==> method.mark is None,
        method.mark matches Some(mark) ==> {
            let r = endpoint_of(ns, item, method)->0;
            let attr = mark.attr;
            match mark.metas {
                Err(text) => r == Err::<EndpointView, ExpandErrorView>(
                    ExpandErrorView::Arguments { item, attr, text },
                ),
                Ok(metas) => match (spec_find_int(metas, "id"@), fields_of(method.args)) {
                    (None, _) => r == Err::<EndpointView, ExpandErrorView>(
                        ExpandErrorView::MissingId { item, attr },
                    ),
                    (Some((arg, Err(error))), _) => r == Err::<EndpointView, ExpandErrorView>(
                        ExpandErrorView::BadId { item, attr, arg, error },
                    ),
                    (Some((_, Ok(id))), Err(arg)) => r == Err::<EndpointView, ExpandErrorView>(
                        ExpandErrorView::PatternArgument { item, arg },
                    ),
                    (Some((_, Ok(id))), Ok(fields)) => {
                        &&& r matches Ok(e)
                        &&& e.item == item
                        &&& e.method_name == method.name
                        &&& e.request_ident == pascal(method.name)
                        &&& e.response_ident == pascal(method.name) + "Response"@
                        &&& e.endpoint_id == (ns << 8u16) | id
                        &&& e.fields == fields
                        &&& e.awaited == method.is_async
                        &&& e.cancellable <==> exists|i: int|
                            0 <= i < metas.len() && #[trigger] metas[i] == MetaArgView::Path(
                                Some("cancel"@),
                            )
                    },
                },
            }
        },
{
}

/// A block has an endpoint for each of its methods that has a mark, in their order, and none for
/// anything else; where one cannot be generated, the first such one is reported.
pub proof fn every_marked_method_is_an_endpoint(ns: u16, items: Seq<ItemView>, i: int)
    ensures
        match endpoints_of(ns, items) {
            Ok(endpoints) => {
                &&& forall|k: int|
                    0 <= k < endpoints.len() ==> {
                        &&& 0 <= (#[trigger] endpoints[k]).item < items.len()
                        &&& items[endpoints[k].item] matches ItemView::Fn(method)
                        &&& endpoint_of(ns, endpoints[k].item, method) == Some(
                            Ok::<EndpointView, ExpandErrorView>(endpoints[k]),
                        )
                    }
                &&& forall|k: int, l: int|
                    0 <= k < l < endpoints.len() ==> (#[trigger] endpoints[k]).item < (
                    #[trigger] endpoints[l]).item
                &&& 0 <= i < items.len() ==> (items[i] matches ItemView::Fn(method) ==> {
                    ||| method.mark is None
                    ||| exists|k: int| 0 <= k < endpoints.len() && (#[trigger] endpoints[k]).item
                        == i
                })
            },
            Err(e) => exists|k: int|
                {
                    &&& 0 <= k < items.len()
                    &&& (#[trigger] items[k]) matches ItemView::Fn(method)
                    &&& endpoint_of(ns, k, method) == Some(Err::<EndpointView, ExpandErrorView>(e))
                    &&& 0 <= i < k ==> (items[i] matches ItemView::Fn(other) ==> !(endpoint_of(
                        ns,
                        i,
                        other,
                    ) matches Some(Err(_))))
                },
        },
    decreases items.len(),
{
    if items.len() > 0 {
        let before = items.drop_last();
        let n = before.len() as int;
        assert(items[n] == items.last());
        assert(forall|k: int| 0 <= k < n ==> #[trigger] items[k] == before[k]);
        assert(forall|k: int| 0 <= k < n ==> #[trigger] before[k] == items[k]);
        every_marked_method_is_an_endpoint(ns, before, i);
        match endpoints_of(ns, before) {
            Err(e) => {
                let k = choose|k: int|
                    {
                        &&& 0 <= k < before.len()
                        &&& (#[trigger] before[k]) matches ItemView::Fn(method)
                        &&& endpoint_of(ns, k, method) == Some(
                            Err::<EndpointView, ExpandErrorView>(e),
                        )
                        &&& 0 <= i < k ==> (before[i] matches ItemView::Fn(other)
                            ==> !(endpoint_of(ns, i, other) matches Some(Err(_))))
                    };
                assert(items[k] == before[k]);
            },
            Ok(was) => {
                if 0 <= i < n {
                    lemma_no_error(ns, before, i);
                }
                match endpoints_of(ns, items) {
                    Err(e) => {
                        assert(items[n] is Fn);
                    },
                    Ok(endpoints) => {
                        assert(forall|k: int|
                            0 <= k < was.len() ==> #[trigger] endpoints[k] == was[k]);
                        if 0 <= i < n && items[i] is Fn && items[i]->Fn_0.mark is Some {
                            let k = choose|k: int|
                                0 <= k < was.len() && (#[trigger] was[k]).item == i;
                            assert(endpoints[k].item == i);
                        }
                        if i == n && items[n] is Fn && items[n]->Fn_0.mark is Some {
                            assert(endpoints[was.len() as int].item == n);
                        }
                    },
                }
            },
        }
    }
}

proof fn lemma_no_error(ns: u16, items: Seq<ItemView>, i: int)
    requires
        endpoints_of(ns, items) is Ok,
        0 <= i < items.len(),
    ensures
        items[i] matches ItemView::Fn(method) ==> !(endpoint_of(ns, i, method) matches Some(Err(_))),
    decreases items.len(),
{
    let before = items.drop_last();
    if i < before.len() {
        assert(before[i] == items[i]);
        lemma_no_error(ns, before, i);
    } else {
        assert(items[i] == items.last());
    }
}

/// The client of a block is named after its type. A type without a name is reported before what is
/// wrong with the endpoints.
pub proof fn blocks_become_clients(ns: u16, self_ident: Option<Seq<char>>, items: Seq<ItemView>)
    ensures
        match (self_ident, endpoints_of(ns, items)) {
            (None, _) => spec_expand(ns, self_ident, items) == Err::<
                ExpansionView,
                ExpandErrorView,
            >(ExpandErrorView::NotANamedType),
            (Some(_), Err(e)) => spec_expand(ns, self_ident, items) == Err::<
                ExpansionView,
                ExpandErrorView,
            >(e),
            (Some(ident), Ok(endpoints)) => {
                &&& spec_expand(ns, self_ident, items) matches Ok(expansion)
                &&& expansion.client_ident == ident + "Client"@
                &&& expansion.endpoints == endpoints
            },
        },
{
}

/// The mark of a method is the first of its attributes that has the name of the mark, wherever it
/// stands.
pub proof fn the_first_mark_counts(names: Seq<Option<Seq<char>>>)
    ensures
        match spec_first_mark(names) {
            None => forall|i: int|
                0 <= i < names.len() ==> #[trigger] names[i] != Some("endpoints"@),
            Some(k) => {
                &&& 0 <= k < names.len()
                &&& names[k] == Some("endpoints"@)
                &&& forall|i: int| 0 <= i < k ==> #[trigger] names[i] != Some("endpoints"@)
            },
        },
    decreases names.len(),
{
    if names.len() > 0 {
        let before = names.drop_last();
        the_first_mark_counts(before);
        assert(names[names.len() - 1] == names.last());
        assert(forall|i: int| 0 <= i < before.len() ==> #[trigger] names[i] == before[i]);
    }
}

/// A method's mark is that of the first attribute in which the parser finds the name of the mark,
/// with the arguments that the parser finds in that attribute.
pub proof fn marks_are_read_from_attributes(attrs: Seq<Seq<char>>)
    ensures
        match mark_of(attrs) {
            None => forall|i: int|
                0 <= i < attrs.len() ==> !(parsed_meta(#[trigger] attrs[i]) matches Ok(meta)
                    && meta.name() == Some("endpoints"@)),
            Some(mark) => {
                &&& 0 <= mark.attr < attrs.len()
                &&& parsed_meta(attrs[mark.attr]) matches Ok(meta)
                &&& meta.name() == Some("endpoints"@)
                &&& mark.metas == match attribute_arguments(attrs[mark.attr]) {
                    Ok(texts) => metas_of(texts),
                    Err(e) => Err(e),
                }
                &&& forall|i: int|
                    0 <= i < mark.attr ==> !(parsed_meta(#[trigger] attrs[i]) matches Ok(meta)
                        && meta.name() == Some("endpoints"@))
            },
        },
{
    let names = attribute_names(attrs);
    the_first_mark_counts(names);
    assert(forall|i: int|
        0 <= i < attrs.len() ==> names[i] == attribute_name(#[trigger] attrs[i]));
}

/// The name of what stands in an attribute is the one that comes first, whatever follows it.
pub proof fn attributes_are_named_by_what_comes_first(
    name: Option<Seq<char>>,
    value: MetaValueView,
)
    ensures
        MetaArgView::Path(name).name() == name,
        (MetaArgView::NameValue { name, value }).name() == name,
        MetaArgView::List(name).name() == name,
{
}

/// What is made of arguments is what the parser makes of each of them, in their order; where it
/// rejects one, what it says against the first of those.
pub proof fn arguments_are_read_one_by_one(texts: Seq<Seq<char>>)
    ensures
        match metas_of(texts) {
            Ok(metas) => {
                &&& metas.len() == texts.len()
                &&& forall|i: int|
                    0 <= i < texts.len() ==> parsed_meta(#[trigger] texts[i]) == Ok::<
                        MetaArgView,
                        Seq<char>,
                    >(metas[i])
            },
            Err(e) => exists|k: int|
                {
                    &&& 0 <= k < texts.len()
                    &&& parsed_meta(#[trigger] texts[k]) == Err::<MetaArgView, Seq<char>>(e)
                    &&& forall|i: int| 0 <= i < k ==> parsed_meta(#[trigger] texts[i]) is Ok
                },
        },
    decreases texts.len(),
{
    if texts.len() > 0 {
        let before = texts.drop_last();
        let n = before.len() as int;
        arguments_are_read_one_by_one(before);
        assert(texts[n] == texts.last());
        assert(forall|i: int| 0 <= i < n ==> #[trigger] texts[i] == before[i]);
        if let Err(e) = metas_of(before) {
            let k = choose|k: int|
                {
                    &&& 0 <= k < before.len()
                    &&& parsed_meta(#[trigger] before[k]) == Err::<MetaArgView, Seq<char>>(e)
                    &&& forall|i: int| 0 <= i < k ==> parsed_meta(#[trigger] before[i]) is Ok
                };
            assert(texts[k] == before[k]);
            assert forall|i: int| 0 <= i < k implies parsed_meta(#[trigger] texts[i]) is Ok by {
                assert(parsed_meta(before[i]) is Ok);
            }
        }
    }
}

/// What is made of the items of a block is what the parser makes of each of them, in their order,
/// with the marks of the methods; where it rejects one, what it says against the first of those.
pub proof fn items_are_read_one_by_one(texts: Seq<Seq<char>>)
    ensures
        match items_of(texts) {
            Ok(items) => {
                &&& items.len() == texts.len()
                &&& forall|i: int|
                    0 <= i < texts.len() ==> match parsed_item(#[trigger] texts[i]) {
                        Ok(ItemSyntaxView::Fn(method)) => items[i] == ItemView::Fn(
                            MethodView {
                                name: method.name,
                                mark: mark_of(method.attrs),
                                args: method.args,
                                is_async: method.is_async,
                            },
                        ),
                        Ok(ItemSyntaxView::Other) => items[i] is Other,
                        Err(_) => false,
                    }
            },
            Err(e) => exists|k: int|
                {
                    &&& 0 <= k < texts.len()
                    &&& parsed_item(#[trigger] texts[k]) == Err::<ItemSyntaxView, Seq<char>>(e)
                    &&& forall|i: int| 0 <= i < k ==> parsed_item(#[trigger] texts[i]) is Ok
                },
        },
    decreases texts.len(),
{
    if texts.len() > 0 {
        let before = texts.drop_last();
        let n = before.len() as int;
        items_are_read_one_by_one(before);
        assert(texts[n] == texts.last());
        assert(forall|i: int| 0 <= i < n ==> #[trigger] texts[i] == before[i]);
        match items_of(before) {
            Err(e) => {
                let k = choose|k: int|
                    {
                        &&& 0 <= k < before.len()
                        &&& parsed_item(#[trigger] before[k]) == Err::<ItemSyntaxView, Seq<char>>(e)
                        &&& forall|i: int| 0 <= i < k ==> parsed_item(#[trigger] before[i]) is Ok
                    };
                assert(texts[k] == before[k]);
                assert forall|i: int| 0 <= i < k implies parsed_item(#[trigger] texts[i]) is Ok by {
                    assert(parsed_item(before[i]) is Ok);
                }
            },
            Ok(was) => {
                assert forall|i: int| 0 <= i < n implies parsed_item(#[trigger] texts[i]) is Ok by {
                    assert(parsed_item(before[i]) is Ok);
                }
            },
        }
    }
}

/// The text of a block and that of its arguments become what the parser, the namespace and the
/// expansion make of them. What is wrong is reported in this order: the block, the arguments, the
/// namespace, the endpoints.
pub proof fn source_text_becomes_its_endpoints(attrs: Seq<char>, body: Seq<char>)
    ensures
        ({
            let r = spec_endpoints(attrs, body);
            let arguments = match parsed_arguments(attrs) {
                Ok(texts) => metas_of(texts),
                Err(e) => Err(e),
            };
            match parsed_block(body) {
                Err(e) => r == Err::<ExpansionView, EndpointsErrorView>(
                    EndpointsErrorView::Block(e),
                ),
                Ok(block) => match (items_of(block.items), arguments) {
                    (Err(e), _) => r == Err::<ExpansionView, EndpointsErrorView>(
                        EndpointsErrorView::Block(e),
                    ),
                    (Ok(_), Err(e)) => r == Err::<ExpansionView, EndpointsErrorView>(
                        EndpointsErrorView::Arguments(e),
                    ),
                    (Ok(items), Ok(metas)) => match spec_namespace(metas) {
                        Err(e) => r == Err::<ExpansionView, EndpointsErrorView>(
                            EndpointsErrorView::Namespace(e),
                        ),
                        Ok(ns) => match spec_expand(ns, block.self_ident, items) {
                            Err(e) => r == Err::<ExpansionView, EndpointsErrorView>(
                                EndpointsErrorView::Expand(e),
                            ),
                            Ok(expansion) => r == Ok::<ExpansionView, EndpointsErrorView>(
                                expansion,
                            ),
                        },
                    },
                },
            }
        }),
{
}

/// What an error says of the thing that it is about.
pub proof fn errors_say_what_is_wrong(
    expected: Seq<char>,
    text: Seq<char>,
    item: int,
    attr: int,
    arg: int,
    error: IntErrorView,
    namespace: NamespaceErrorView,
    expand: ExpandErrorView,
)
    ensures
        IntErrorView::Unexpected(expected).text() == "expected `"@ + expected + " = <int>`"@,
        IntErrorView::OutOfRange(text).text() == text,
        (NamespaceErrorView::Bad { arg, error }).text() == error.text(),
        (ExpandErrorView::Arguments { item, attr, text }).text() == text,
        (ExpandErrorView::BadId { item, attr, arg, error }).text() == error.text(),
        EndpointsErrorView::Block(text).text() == text,
        EndpointsErrorView::Arguments(text).text() == text,
        EndpointsErrorView::Namespace(namespace).text() == namespace.text(),
        EndpointsErrorView::Expand(expand).text() == expand.text(),
{
}

/// An integer in base 10 is made of digits, with a minus before them where it is negative; digits
/// are the characters from zero to nine, and there is one at least.
pub proof fn integers_are_made_of_digits(text: Seq<char>, c: char)
    ensures
        is_digits(seq![c]) <==> 48 <= c as int <= 57,
        text.len() > 0 ==> (is_digits(text.push(c)) <==> is_digits(text) && is_digits(seq![c])),
        !is_digits(Seq::empty()),
        is_integer(text) <==> is_digits(text) || is_digits(text.skip(1)) && text[0] == '-'
            && text.len() > 0,
{
    assert(seq![c][0] == c);
    if is_digits(text.push(c)) && text.len() > 0 {
        assert forall|i: int| 0 <= i < text.len() implies '0' <= #[trigger] text[i] <= '9' by {
            assert(text.push(c)[i] == text[i]);
        }
        assert(text.push(c)[text.len() as int] == c);
    }
    if is_digits(text) && is_digits(seq![c]) {
        assert forall|i: int| 0 <= i < text.push(c).len() implies '0' <= #[trigger] text.push(c)[i]
            <= '9' by {
            if i < text.len() {
                assert(text.push(c)[i] == text[i]);
            } else {
                assert(text.push(c)[i] == seq![c][0]);
            }
        }
    }
}

} // verus!
