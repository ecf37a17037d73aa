use bifrostlink::endpoints::{
    endpoint_id, endpoints, expand, first_mark, int_value, is_marker, namespace, snake_to_pascal,
    EndpointsError, ExpandError, IntError, ItemDecl, Mark, MethodDecl, NamespaceError,
};
use bifrostlink::syntax::{ArgDecl, MetaArg, MetaValue};

fn name_value(name: &str, digits: &str) -> MetaArg {
    MetaArg::NameValue {
        name: Some(name.to_string()),
        value: MetaValue::Int(digits.to_string()),
    }
}

fn word(name: &str) -> MetaArg {
    MetaArg::Path(Some(name.to_string()))
}

fn marked(attr: usize, metas: Vec<MetaArg>) -> Option<Mark> {
    Some(Mark { attr, metas: Ok(metas) })
}

fn method(name: &str, mark: Option<Mark>, args: Vec<ArgDecl>) -> ItemDecl {
    ItemDecl::Fn(MethodDecl { name: name.to_string(), mark, args, is_async: false })
}

fn self_ident() -> Option<String> {
    Some("Files".to_string())
}

fn expand_error(items: Vec<ItemDecl>) -> ExpandError {
    match expand(1, &self_ident(), &items) {
        Err(e) => e,
        Ok(_) => panic!("expected an error"),
    }
}

fn endpoints_error(attrs: &str, body: &str) -> EndpointsError {
    match endpoints(attrs, body) {
        Err(e) => e,
        Ok(_) => panic!("expected an error"),
    }
}

#[test]
fn names_become_pascal_case() {
    assert_eq!(snake_to_pascal("read_file"), "ReadFile");
    assert_eq!(snake_to_pascal("__read__file_"), "ReadFile");
    assert_eq!(snake_to_pascal("readFILE"), "ReadFILE");
    assert_eq!(snake_to_pascal("v2_3d"), "V23d");
    assert_eq!(snake_to_pascal(""), "");
    assert_eq!(snake_to_pascal("_"), "");
    assert_eq!(snake_to_pascal("\u{df}_\u{e9}t\u{e9}"), "SS\u{c9}t\u{e9}");
}

#[test]
fn pascal_case_goes_word_by_word() {
    for (a, b) in [("read", "file"), ("", "x_y"), ("a_", "_b"), ("\u{e9}t\u{e9}", "q")] {
        assert_eq!(
            snake_to_pascal(&format!("{}_{}", a, b)),
            snake_to_pascal(a) + &snake_to_pascal(b)
        );
    }
}

#[test]
fn pascal_case_loses_underscores_only() {
    for name in ["read_file", "__x__1_", "_9_a", "A_b_C", "___", ""] {
        let once = snake_to_pascal(name);
        assert!(!once.contains('_'));
        assert_eq!(once.len(), name.len() - name.matches('_').count());
        assert_eq!(snake_to_pascal(&once), once);
    }
}

#[test]
fn integers_are_read() {
    let value = |digits: &str| {
        int_value(
            &Some("id".to_string()),
            &MetaValue::Int(digits.to_string()),
            &"id".to_string(),
        )
    };
    assert!(matches!(value("7"), Ok(7)));
    assert!(matches!(value("007"), Ok(7)));
    assert!(matches!(value("000"), Ok(0)));
    assert!(matches!(value(""), Err(IntError::NotAnInteger)));
    assert!(matches!(value("65535"), Ok(65535)));
    match value("65536") {
        Err(e @ IntError::OutOfRange(_)) => {
            assert_eq!(e.text(), "number too large to fit in target type")
        }
        _ => panic!("expected an error"),
    }
    match value("-5") {
        Err(e @ IntError::OutOfRange(_)) => {
            assert_eq!(e.text(), "invalid digit found in string")
        }
        _ => panic!("expected an error"),
    }
    assert!(matches!(value("-0"), Err(IntError::OutOfRange(_))));
    assert!(matches!(value("-"), Err(IntError::NotAnInteger)));
    match value("7x") {
        Err(e @ IntError::NotAnInteger) => assert_eq!(e.text(), "expected integer literal"),
        _ => panic!("expected an error"),
    }
    match int_value(&Some("id".to_string()), &MetaValue::Other, &"id".to_string()) {
        Err(e @ IntError::NotAnInteger) => assert_eq!(e.text(), "expected integer literal"),
        _ => panic!("expected an error"),
    }
    match int_value(&Some("no".to_string()), &MetaValue::Int("7".to_string()), &"id".to_string()) {
        Err(e @ IntError::Unexpected(_)) => assert_eq!(e.text(), "expected `id = <int>`"),
        _ => panic!("expected an error"),
    }
    assert!(int_value(&None, &MetaValue::Int("7".to_string()), &"id".to_string()).is_err());
}

#[test]
fn namespaces_are_found() {
    let metas = vec![word("ns"), MetaArg::List(Some("ns".to_string())), name_value("ns", "3"), name_value("ns", "4")];
    assert!(matches!(namespace(&metas), Ok(3)));
    match namespace(&vec![name_value("id", "3")]) {
        Err(e @ NamespaceError::Missing) => {
            assert_eq!(e.text(), "missing `ns = <int>` argument")
        }
        _ => panic!("expected an error"),
    }
    match namespace(&vec![word("x"), name_value("ns", "70000")]) {
        Err(NamespaceError::Bad { arg, error }) => {
            assert_eq!(arg, 1);
            assert_eq!(
                NamespaceError::Bad { arg, error }.text(),
                "number too large to fit in target type"
            );
        }
        _ => panic!("expected an error"),
    }
}

#[test]
fn numbers_of_endpoints_hold_the_namespace() {
    assert_eq!(endpoint_id(0x12, 0x34), 0x1234);
    assert_eq!(endpoint_id(0, 5), 5);
    assert_eq!(endpoint_id(0x112, 0x34), 0x1234);
    assert_eq!(endpoint_id(1, 0x134), 0x0134);
}

#[test]
fn numbers_of_endpoints_differ() {
    let mut seen = vec![false; 0x10000];
    for ns in 0..0x100 {
        for id in 0..0x100 {
            let n = endpoint_id(ns, id) as usize;
            assert!(!seen[n]);
            seen[n] = true;
        }
    }
}

#[test]
fn blocks_are_expanded() {
    let items = vec![
        ItemDecl::Other,
        method("helper", None, vec![ArgDecl::Pattern]),
        method(
            "read_file",
            marked(1, vec![word("cancel"), name_value("id", "7")]),
            vec![
                ArgDecl::Receiver,
                ArgDecl::Ident("path".to_string()),
                ArgDecl::Ident("offset".to_string()),
            ],
        ),
        ItemDecl::Fn(MethodDecl {
            name: "close".to_string(),
            mark: marked(0, vec![name_value("id", "8")]),
            args: vec![ArgDecl::Receiver],
            is_async: true,
        }),
    ];
    let expansion = match expand(0x12, &self_ident(), &items) {
        Ok(expansion) => expansion,
        Err(e) => panic!("{}", e.text()),
    };
    assert_eq!(expansion.client_ident, "FilesClient");
    assert_eq!(expansion.endpoints.len(), 2);
    let read = &expansion.endpoints[0];
    assert_eq!(read.item, 2);
    assert_eq!(read.method_name, "read_file");
    assert_eq!(read.request_ident, "ReadFile");
    assert_eq!(read.response_ident, "ReadFileResponse");
    assert_eq!(read.endpoint_id, 0x1207);
    assert!(read.cancellable);
    assert!(!read.awaited);
    let fields: Vec<(&str, usize)> =
        read.fields.iter().map(|field| (field.name.as_str(), field.arg)).collect();
    assert_eq!(fields, [("path", 1), ("offset", 2)]);
    let close = &expansion.endpoints[1];
    assert_eq!(close.item, 3);
    assert_eq!(close.request_ident, "Close");
    assert_eq!(close.endpoint_id, 0x1208);
    assert!(!close.cancellable);
    assert!(close.awaited);
    assert!(close.fields.is_empty());
}

#[test]
fn only_named_types_are_expanded() {
    match expand(1, &None, &vec![method("m", marked(0, vec![]), vec![])]) {
        Err(e @ ExpandError::NotANamedType) => assert_eq!(e.text(), "expected a named type"),
        _ => panic!("expected an error"),
    }
}

#[test]
fn bad_arguments_are_reported() {
    let bad = Some(Mark { attr: 1, metas: Err("expected identifier".to_string()) });
    match expand_error(vec![ItemDecl::Other, method("m", bad, vec![])]) {
        ExpandError::Arguments { item, attr, text } => {
            assert_eq!((item, attr), (1, 1));
            let e = ExpandError::Arguments { item, attr, text };
            assert_eq!(e.text(), "expected identifier");
        }
        _ => panic!("wrong error"),
    }
}

#[test]
fn missing_ids_are_reported() {
    let items = vec![method("m", marked(0, vec![word("id"), name_value("ns", "1")]), vec![])];
    match expand_error(items) {
        e @ ExpandError::MissingId { item: 0, attr: 0 } => {
            assert_eq!(e.text(), "missing `id = <int>` argument")
        }
        _ => panic!("wrong error"),
    }
}

#[test]
fn bad_ids_are_reported() {
    let other = MetaArg::NameValue { name: Some("id".to_string()), value: MetaValue::Other };
    let items = vec![method(
        "m",
        marked(0, vec![word("cancel"), other, name_value("id", "1")]),
        vec![ArgDecl::Pattern],
    )];
    match expand_error(items) {
        e @ ExpandError::BadId { item: 0, attr: 0, arg: 1, .. } => {
            assert_eq!(e.text(), "expected integer literal")
        }
        _ => panic!("wrong error"),
    }
}

#[test]
fn pattern_arguments_are_reported() {
    let items = vec![
        method("m", marked(0, vec![name_value("id", "1")]), vec![ArgDecl::Receiver]),
        method(
            "n",
            marked(0, vec![name_value("id", "2")]),
            vec![ArgDecl::Receiver, ArgDecl::Ident("a".to_string()), ArgDecl::Pattern],
        ),
    ];
    match expand_error(items) {
        e @ ExpandError::PatternArgument { item: 1, arg: 2 } => {
            assert_eq!(e.text(), "endpoint arguments must be plain identifiers")
        }
        _ => panic!("wrong error"),
    }
}

#[test]
fn markers_are_told_apart() {
    assert!(is_marker(&Some("endpoints".to_string())));
    assert!(!is_marker(&Some("endpoint".to_string())));
    assert!(!is_marker(&None));
    let name = |text: &str| Some(text.to_string());
    let names = vec![name("inline"), None, name("endpoints"), name("endpoints")];
    assert_eq!(first_mark(&names), Some(2));
    assert_eq!(first_mark(&vec![None, name("doc")]), None);
    assert_eq!(word("a").name(), name("a"));
    assert_eq!(name_value("b", "1").name(), name("b"));
    assert_eq!(MetaArg::List(name("c")).name(), name("c"));
}

#[test]
fn no_character_becomes_an_underscore() {
    for c in (0..=0x10ffff).filter_map(char::from_u32) {
        assert!(!snake_to_pascal(&c.to_string()).contains('_'));
    }
}

#[test]
fn source_text_is_expanded() {
    let body = "impl<T> crate::files::Files<T> where T: Send {
        const LIMIT: u32 = 3;
        /// Reads.
        #[inline]
        #[endpoints(cancel, id = 0x07)]
        #[endpoints(nonsense +)]
        pub async fn read_file(&self, path: String, mut offset: u64) -> Vec<u8> { todo!() }
        fn helper((a, b): (u8, u8)) {}
        #[endpoints(id = 8_u16)]
        fn close(self: Arc<Self>) {}
    }";
    let expansion = match endpoints("other(x), ns = 0x12", body) {
        Ok(expansion) => expansion,
        Err(e) => panic!("{}", e.text()),
    };
    assert_eq!(expansion.client_ident, "FilesClient");
    assert_eq!(expansion.endpoints.len(), 2);
    let read = &expansion.endpoints[0];
    assert_eq!((read.item, read.endpoint_id), (1, 0x1207));
    assert_eq!(read.method_name, "read_file");
    assert_eq!(read.request_ident, "ReadFile");
    assert_eq!(read.response_ident, "ReadFileResponse");
    assert!(read.cancellable && read.awaited);
    let fields: Vec<(&str, usize)> =
        read.fields.iter().map(|field| (field.name.as_str(), field.arg)).collect();
    assert_eq!(fields, [("path", 1), ("offset", 2)]);
    let close = &expansion.endpoints[1];
    assert_eq!((close.item, close.endpoint_id), (3, 0x1208));
    assert!(!close.cancellable && !close.awaited && close.fields.is_empty());
}

#[test]
fn errors_in_source_text_come_in_order() {
    let marked = |mark: &str, args: &str| format!("impl A {{ {} fn m({}) {{}} }}", mark, args);
    let good = marked("#[endpoints(id = 1)]", "&self");
    // The block comes first.
    assert!(matches!(endpoints_error("+", "struct A;"), EndpointsError::Block(_)));
    assert!(matches!(endpoints_error("+", "impl A { fn }"), EndpointsError::Block(_)));
    // Then the arguments of its attribute.
    assert!(matches!(endpoints_error("+", &good), EndpointsError::Arguments(_)));
    // Then the namespace.
    let bad = marked("#[endpoints]", "&self");
    match endpoints_error("id = 1", &bad) {
        e @ EndpointsError::Namespace(NamespaceError::Missing) => {
            assert_eq!(e.text(), "missing `ns = <int>` argument")
        }
        _ => panic!("wrong error"),
    }
    match endpoints_error("x, ns = \"1\"", &bad) {
        e @ EndpointsError::Namespace(NamespaceError::Bad { arg: 1, .. }) => {
            assert_eq!(e.text(), "expected integer literal")
        }
        _ => panic!("wrong error"),
    }
    // Then the type, and then the methods.
    match endpoints_error("ns = 1", "impl (u8, u8) { #[endpoints] fn m() {} }") {
        e @ EndpointsError::Expand(ExpandError::NotANamedType) => {
            assert_eq!(e.text(), "expected a named type")
        }
        _ => panic!("wrong error"),
    }
    match endpoints_error("ns = 1", &bad) {
        e @ EndpointsError::Expand(ExpandError::Arguments { item: 0, attr: 0, .. }) => {
            assert_eq!(
                e.text(),
                "expected attribute arguments in parentheses: #[endpoints(...)]"
            )
        }
        _ => panic!("wrong error"),
    }
    match endpoints_error("ns = 1", &marked("#[a] #[endpoints(cancel)]", "&self")) {
        e @ EndpointsError::Expand(ExpandError::MissingId { item: 0, attr: 1 }) => {
            assert_eq!(e.text(), "missing `id = <int>` argument")
        }
        _ => panic!("wrong error"),
    }
    match endpoints_error("ns = 1", &marked("#[endpoints(id = -1)]", "&self")) {
        e @ EndpointsError::Expand(ExpandError::BadId { item: 0, attr: 0, arg: 0, .. }) => {
            assert_eq!(e.text(), "invalid digit found in string")
        }
        _ => panic!("wrong error"),
    }
    match endpoints_error("ns = 1", &marked("#[endpoints(id = 1)]", "&self, (a, b): (u8, u8)")) {
        e @ EndpointsError::Expand(ExpandError::PatternArgument { item: 0, arg: 1 }) => {
            assert_eq!(e.text(), "endpoint arguments must be plain identifiers")
        }
        _ => panic!("wrong error"),
    }
}
