//! Types of several source files.
use edr_eip712::collector::{check_root, CollectError};
use edr_eip712::names::NameMap;
use edr_eip712::provider::{collect_root, Eip712Provider, SourceName};
use edr_eip712::resolver::{is_relative_import, ImportResolver, ImportTarget};
use edr_eip712::solidity::{CompilationUnit, Definition, StructDefinition, StructMember, Type};
use edr_eip712::{collect_eip712_types_from_compilation_unit, Eip712Collection};

fn source(path: &str) -> SourceName {
    SourceName { key: path.to_string(), display: path.to_string() }
}

fn def(name: &str, members: Vec<(Type, &str)>) -> Definition {
    Definition::Struct(StructDefinition {
        name: name.to_string(),
        file_id: "root.sol".to_string(),
        members: members
            .into_iter()
            .map(|(ty, name)| StructMember { name: name.to_string(), ty: Some(ty) })
            .collect(),
    })
}

fn strukt(name: &str) -> Type {
    Type::Struct(Some(name.to_string()))
}

fn collect(definitions: Vec<Definition>) -> Eip712Collection {
    collect_eip712_types_from_compilation_unit(&CompilationUnit::new(definitions).unwrap())
}

fn person() -> Definition {
    def("Person", vec![(Type::Address, "wallet"), (Type::String, "name")])
}

fn mail() -> Definition {
    def(
        "Mail",
        vec![(strukt("Person"), "from"), (strukt("Person"), "to"), (Type::String, "contents")],
    )
}

fn mail_canonical() -> &'static str {
    "Mail(Person from,Person to,string contents)Person(address wallet,string name)"
}

fn missing() -> Result<Eip712Collection, CollectError> {
    match check_root("gone.sol", Err("not there".to_string())) {
        Err(error) => Err(error),
        Ok(()) => unreachable!(),
    }
}

#[test]
fn sync_provider_collects_and_queries_by_scope() {
    let provider = Eip712Provider::collect(vec![(
        source("relative/Root.sol"),
        Ok(collect(vec![mail(), person()])),
    )]);

    assert_eq!(
        provider.get(&source("relative/Root.sol"), "Mail").unwrap().canonical_definition(),
        mail_canonical()
    );
    assert!(provider.get(&source("relative/Root.sol"), "DoesNotExist").is_err());
    // A scope that was never collected reports as much.
    assert!(provider.get(&source("never/collected.sol"), "Mail").is_err());
    assert_eq!(
        provider.get(&source("never/collected.sol"), "Mail").unwrap_err(),
        "no EIP-712 types were collected for source 'never/collected.sol'"
    );
    assert_eq!(
        provider.get(&source("relative/Root.sol"), "DoesNotExist").unwrap_err(),
        "EIP-712 type 'DoesNotExist' not found in the test contract's sources"
    );
}

#[test]
fn sync_provider_resolves_mapped_imports() {
    let mut import_map: NameMap<String> = NameMap::new();
    import_map.insert("@lib/Token.sol".to_string(), "mapped/lib/Token.sol".to_string());
    let resolver = ImportResolver::new(import_map);
    assert!(matches!(
        resolver.resolve_import("@lib/Token.sol"),
        Ok(ImportTarget::Mapped(path)) if path == "mapped/lib/Token.sol"
    ));

    let token = def(
        "Token",
        vec![(Type::Address, "addr"), (Type::Integer { signed: false, bits: 8 }, "decimals")],
    );
    let payment = def(
        "Payment",
        vec![(strukt("Token"), "token"), (Type::Integer { signed: false, bits: 256 }, "amount")],
    );
    let provider = Eip712Provider::collect(vec![(
        source("mapped/Root.sol"),
        Ok(collect(vec![payment, token])),
    )]);
    assert_eq!(
        provider.get(&source("mapped/Root.sol"), "Payment").unwrap().canonical_definition(),
        "Payment(Token token,uint256 amount)Token(address addr,uint8 decimals)"
    );
}

#[test]
fn failures_are_replayed_for_their_own_scope_only() {
    let provider = Eip712Provider::collect(vec![
        (source("gone.sol"), missing()),
        (source("there.sol"), Ok(collect(vec![person()]))),
    ]);
    assert_eq!(
        provider.get(&source("gone.sol"), "Person").unwrap_err(),
        "could not read EIP-712 root source gone.sol: not there"
    );
    assert_eq!(provider.get(&source("there.sol"), "Person").unwrap().name(), "Person");
}

#[test]
fn the_last_outcome_of_a_source_counts() {
    let provider = Eip712Provider::collect(vec![
        (source("a.sol"), missing()),
        (source("b.sol"), Ok(collect(vec![]))),
        (source("a.sol"), Ok(collect(vec![person()]))),
    ]);
    assert!(provider.get(&source("a.sol"), "Person").is_ok());
    assert!(provider.get(&source("b.sol"), "Person").is_err());
    let clone = provider.clone();
    assert!(clone.get(&source("a.sol"), "Person").is_ok());
}

#[test]
fn sources_are_told_apart_by_key() {
    let provider = Eip712Provider::collect(vec![(
        SourceName { key: "key".to_string(), display: "shown".to_string() },
        Ok(collect(vec![person()])),
    )]);
    let same = SourceName { key: "key".to_string(), display: "otherwise".to_string() };
    let other = SourceName { key: "other".to_string(), display: "shown".to_string() };
    assert!(provider.get(&same, "Person").is_ok());
    assert_eq!(
        provider.get(&other, "Person").unwrap_err(),
        "no EIP-712 types were collected for source 'shown'"
    );
}

#[test]
fn an_empty_provider_has_no_types() {
    assert!(Eip712Provider::empty().get(&source("a.sol"), "Person").is_err());
    assert!(Eip712Provider::default().get(&source("a.sol"), "Person").is_err());
}

#[test]
fn errors_are_stringified() {
    assert_eq!(
        collect_root(missing()).unwrap_err(),
        "could not read EIP-712 root source gone.sol: not there"
    );
    assert_eq!(collect_root(Ok(collect(vec![person()]))).unwrap().len(), 1);
}

#[test]
fn relative_imports_are_told_from_mapped_ones() {
    assert!(is_relative_import("./a.sol"));
    assert!(is_relative_import("../a.sol"));
    assert!(!is_relative_import("a.sol"));
    assert!(!is_relative_import(".a.sol"));
    assert!(!is_relative_import("/a.sol"));
    assert!(!is_relative_import("..."));
    assert!(!is_relative_import(""));
}

#[test]
fn imports_lead_where_the_map_says() {
    let mut import_map: NameMap<String> = NameMap::new();
    import_map.insert("lib/A.sol".to_string(), "/abs/A.sol".to_string());
    import_map.insert("./B.sol".to_string(), "/abs/B.sol".to_string());
    let resolver = ImportResolver::new(import_map).clone();
    assert!(matches!(
        resolver.resolve_import("lib/A.sol"),
        Ok(ImportTarget::Mapped(path)) if path == "/abs/A.sol"
    ));
    // The map has no say in relative imports.
    assert!(matches!(resolver.resolve_import("./B.sol"), Ok(ImportTarget::Relative)));
    assert!(matches!(
        ImportResolver::default().resolve_import("./B.sol"),
        Ok(ImportTarget::Relative)
    ));
    assert_eq!(
        resolver.resolve_import("lib/C.sol").unwrap_err(),
        "import 'lib/C.sol' not found in import mappings"
    );
}
