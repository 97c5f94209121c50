//! Collecting EIP-712 types from compilation units.
use edr_eip712::collector::{check_root, CollectError, Eip712Collection, LookupError};
use edr_eip712::collect_eip712_types_from_compilation_unit;
use edr_eip712::names::NameMap;
use edr_eip712::reject::RejectReason;
use edr_eip712::resolver::{ImportResolver, ImportTarget};
use edr_eip712::solidity::{CompilationUnit, Definition, StructDefinition, StructMember, Type};
use edr_eip712::types::Eip712TypeDef;

fn unsigned(bits: u32) -> Type {
    Type::Integer { signed: false, bits }
}

fn signed(bits: u32) -> Type {
    Type::Integer { signed: true, bits }
}

fn strukt(name: &str) -> Type {
    Type::Struct(Some(name.to_string()))
}

fn array(element: Type) -> Type {
    Type::Array(Box::new(element))
}

fn fixed(element: Type, size: usize) -> Type {
    Type::FixedSizeArray { element_type: Box::new(element), size }
}

fn value_type(target: Type) -> Type {
    Type::UserDefinedValue(Some(Box::new(target)))
}

fn member(ty: Option<Type>, name: &str) -> StructMember {
    StructMember { name: name.to_string(), ty }
}

fn def_in(file_id: &str, name: &str, members: Vec<(Type, &str)>) -> Definition {
    Definition::Struct(StructDefinition {
        name: name.to_string(),
        file_id: file_id.to_string(),
        members: members.into_iter().map(|(ty, name)| member(Some(ty), name)).collect(),
    })
}

fn def(name: &str, members: Vec<(Type, &str)>) -> Definition {
    def_in("root.sol", name, members)
}

fn collect(definitions: Vec<Definition>) -> Eip712Collection {
    let unit = CompilationUnit::new(definitions).expect("all names are identifiers");
    collect_eip712_types_from_compilation_unit(&unit)
}

fn canonical<'a>(collection: &'a Eip712Collection, name: &str) -> &'a str {
    match collection.get(name) {
        Ok(def) => {
            assert_eq!(def.name(), name);
            def.canonical_definition()
        }
        Err(error) => panic!("expected '{}': {}", name, error.message()),
    }
}

fn reason(collection: &Eip712Collection, name: &str) -> String {
    match collection.get(name) {
        Err(LookupError::Rejected { name: rejected, reason }) => {
            assert_eq!(rejected, name);
            reason
        }
        other => panic!("expected '{}' to be rejected: {:?}", name, other),
    }
}

#[test]
fn eip712_spec_mail_person() {
    let collection = collect(vec![
        def("Person", vec![(Type::Address, "wallet"), (Type::String, "name")]),
        def(
            "Mail",
            vec![(strukt("Person"), "from"), (strukt("Person"), "to"), (Type::String, "contents")],
        ),
    ]);
    assert_eq!(
        canonical(&collection, "Mail"),
        "Mail(Person from,Person to,string contents)Person(address wallet,string name)"
    );
    assert_eq!(canonical(&collection, "Person"), "Person(address wallet,string name)");
    assert_eq!(collection.len(), 2);
    assert!(!collection.is_empty());
}

#[test]
fn dependencies_sorted_alphabetically() {
    let collection = collect(vec![
        def("Person", vec![(Type::Address, "wallet"), (Type::String, "name")]),
        def("Asset", vec![(Type::Address, "token"), (unsigned(256), "amount")]),
        def("Transaction", vec![(strukt("Person"), "from"), (strukt("Asset"), "payload")]),
    ]);
    // Asset sorts before Person regardless of member order.
    assert_eq!(
        canonical(&collection, "Transaction"),
        "Transaction(Person from,Asset payload)\
         Asset(address token,uint256 amount)\
         Person(address wallet,string name)"
    );
}

#[test]
fn transitive_dependencies_included_once() {
    let collection = collect(vec![
        def("C", vec![(unsigned(256), "v")]),
        def("B", vec![(strukt("C"), "c")]),
        def("A", vec![(strukt("B"), "b"), (strukt("C"), "c")]),
    ]);
    assert_eq!(canonical(&collection, "A"), "A(B b,C c)B(C c)C(uint256 v)");
}

#[test]
fn self_recursive_struct_is_rejected() {
    // EIP-712's type system is acyclic: a struct that references itself has no
    // finite type hash, so canonicalization rejects it.
    let collection = collect(vec![def(
        "Node",
        vec![(unsigned(256), "value"), (array(strukt("Node")), "children")],
    )]);
    assert!(
        matches!(collection.get("Node"), Err(LookupError::Rejected { .. })),
        "recursive struct should be rejected"
    );
}

#[test]
fn mutually_recursive_structs_are_rejected() {
    // Same as self-recursion: a cycle (A -> B -> A) has no finite hash.
    let collection = collect(vec![
        def("A", vec![(strukt("B"), "b")]),
        def("B", vec![(strukt("A"), "a")]),
    ]);
    assert!(matches!(collection.get("A"), Err(LookupError::Rejected { .. })));
    assert!(matches!(collection.get("B"), Err(LookupError::Rejected { .. })));
}

#[test]
fn enum_member_is_uint8() {
    let collection =
        collect(vec![Definition::Other, def("S", vec![(Type::Enum, "color")])]);
    assert_eq!(canonical(&collection, "S"), "S(uint8 color)");
}

#[test]
fn contract_interface_library_members_are_address() {
    let collection = collect(vec![
        Definition::Other,
        Definition::Other,
        Definition::Other,
        def("S", vec![(Type::Contract, "c"), (Type::Interface, "i")]),
    ]);
    assert_eq!(canonical(&collection, "S"), "S(address c,address i)");
}

#[test]
fn user_defined_value_type_resolves_to_underlying() {
    let collection =
        collect(vec![Definition::Other, def("S", vec![(value_type(unsigned(256)), "amount")])]);
    assert_eq!(canonical(&collection, "S"), "S(uint256 amount)");
}

#[test]
fn user_defined_value_type_resolves_across_files() {
    let collection =
        collect(vec![def("S", vec![(value_type(unsigned(128)), "amount")]), Definition::Other]);
    assert_eq!(canonical(&collection, "S"), "S(uint128 amount)");
}

#[test]
fn address_payable_is_address() {
    let collection = collect(vec![def("S", vec![(Type::Address, "recipient")])]);
    assert_eq!(canonical(&collection, "S"), "S(address recipient)");
}

#[test]
fn integer_aliases_are_normalized() {
    let collection = collect(vec![def("S", vec![(unsigned(256), "a"), (signed(256), "b")])]);
    assert_eq!(canonical(&collection, "S"), "S(uint256 a,int256 b)");
}

#[test]
fn byte_and_string_types() {
    let collection = collect(vec![def(
        "S",
        vec![
            (Type::Bytes, "data"),
            (Type::String, "text"),
            (Type::ByteArray { width: 17 }, "fixed_bytes"),
        ],
    )]);
    assert_eq!(
        canonical(&collection, "S"),
        "S(bytes data,string text,bytes17 fixed_bytes)"
    );
}

#[test]
fn arrays_dynamic_fixed_and_nested() {
    let collection = collect(vec![def(
        "S",
        vec![
            (array(unsigned(256)), "dynamic"),
            (fixed(unsigned(256), 3), "fixed_size"),
            (fixed(fixed(unsigned(256), 3), 2), "nested"),
        ],
    )]);
    assert_eq!(
        canonical(&collection, "S"),
        "S(uint256[] dynamic,uint256[3] fixed_size,uint256[3][2] nested)"
    );
}

#[test]
fn array_of_structs() {
    let collection = collect(vec![
        def("Person", vec![(Type::Address, "wallet"), (Type::String, "name")]),
        def("Group", vec![(array(strukt("Person")), "members")]),
    ]);
    assert_eq!(
        canonical(&collection, "Group"),
        "Group(Person[] members)Person(address wallet,string name)"
    );
}

#[test]
fn mapping_member_makes_struct_non_encodable() {
    let collection = collect(vec![def("S", vec![(Type::Mapping, "balances")])]);
    assert!(matches!(collection.get("S"), Err(LookupError::Rejected { .. })));
    assert_eq!(reason(&collection, "S"), "Struct has non-encodable member: 'balances'");
    assert!(collection.is_empty());
}

#[test]
fn non_encodability_propagates_to_dependents() {
    let collection = collect(vec![
        def("Inner", vec![(Type::Mapping, "m")]),
        def("Outer", vec![(strukt("Inner"), "inner")]),
    ]);
    assert!(matches!(collection.get("Inner"), Err(LookupError::Rejected { .. })));
    let outer = collection.get("Outer").unwrap_err();
    assert!(
        matches!(&outer, LookupError::Rejected { reason, .. } if reason.contains("Inner")),
        "unexpected: {}",
        outer.message()
    );
}

#[test]
fn function_typed_member_is_non_encodable() {
    let collection = collect(vec![def("S", vec![(Type::Function, "fn")])]);
    assert!(matches!(collection.get("S"), Err(LookupError::Rejected { .. })));
}

#[test]
fn file_level_and_contract_nested_structs_both_collected() {
    let collection = collect(vec![
        def("TopLevel", vec![(unsigned(256), "a")]),
        Definition::Other,
        def("Nested", vec![(unsigned(256), "b")]),
    ]);
    assert_eq!(canonical(&collection, "TopLevel"), "TopLevel(uint256 a)");
    assert_eq!(canonical(&collection, "Nested"), "Nested(uint256 b)");
}

#[test]
fn identical_duplicate_definitions_dedupe() {
    let collection = collect(vec![
        def_in("root.sol", "S", vec![(unsigned(256), "a")]),
        def_in("other.sol", "S", vec![(unsigned(256), "a")]),
    ]);
    assert_eq!(canonical(&collection, "S"), "S(uint256 a)");
    assert_eq!(collection.len(), 1);
}

#[test]
fn conflicting_definitions_are_rejected_others_unaffected() {
    let collection = collect(vec![
        def("S", vec![(unsigned(256), "a")]),
        Definition::Other,
        def("S", vec![(unsigned(256), "b")]),
        def("Ok", vec![(unsigned(256), "c")]),
    ]);
    assert!(matches!(collection.get("S"), Err(LookupError::Rejected { .. })));
    // An unrelated struct is still usable.
    assert_eq!(canonical(&collection, "Ok"), "Ok(uint256 c)");
}

#[test]
fn dependent_of_conflicting_struct_is_rejected() {
    let collection = collect(vec![
        def("S", vec![(unsigned(256), "a")]),
        Definition::Other,
        def("S", vec![(unsigned(256), "b")]),
        def("Uses", vec![(strukt("S"), "s")]),
    ]);
    let uses = collection.get("Uses").unwrap_err();
    assert!(
        matches!(&uses, LookupError::Rejected { reason, .. } if reason.contains('S')),
        "unexpected: {}",
        uses.message()
    );
    assert_eq!(reason(&collection, "Uses"), "Struct has non-encodable member: 'S'");
}

#[test]
fn import_aliasing_uses_definition_name() {
    let collection = collect(vec![
        def_in("root.sol", "Wallet", vec![(strukt("Person"), "owner")]),
        def_in("person.sol", "Person", vec![(Type::Address, "addr"), (Type::String, "handle")]),
    ]);
    // The dependency is encoded under its definition name, not the alias.
    assert_eq!(
        canonical(&collection, "Wallet"),
        "Wallet(Person owner)Person(address addr,string handle)"
    );
}

#[test]
fn unknown_type_is_not_found() {
    let collection = collect(vec![def("S", vec![(unsigned(256), "a")])]);
    assert!(matches!(collection.get("DoesNotExist"), Err(LookupError::NotFound(_))));
    assert_eq!(
        collection.get("DoesNotExist").unwrap_err().message(),
        "EIP-712 type 'DoesNotExist' not found in the test contract's sources"
    );
}

#[test]
fn resolves_relative_imports() {
    assert!(matches!(
        ImportResolver::default().resolve_import("./Dep.sol"),
        Ok(ImportTarget::Relative)
    ));
    let collection = collect(vec![
        def_in(
            "relative/Root.sol",
            "Mail",
            vec![(strukt("Person"), "from"), (strukt("Person"), "to"), (Type::String, "contents")],
        ),
        def_in(
            "relative/Dep.sol",
            "Person",
            vec![(Type::Address, "wallet"), (Type::String, "name")],
        ),
    ]);
    assert_eq!(
        collection.get("Mail").unwrap().canonical_definition(),
        "Mail(Person from,Person to,string contents)Person(address wallet,string name)"
    );
}

#[test]
fn resolves_mapped_imports() {
    let mut import_map: NameMap<String> = NameMap::new();
    import_map.insert("@lib/Token.sol".to_string(), "mapped/lib/Token.sol".to_string());
    assert!(matches!(
        ImportResolver::new(import_map).resolve_import("@lib/Token.sol"),
        Ok(ImportTarget::Mapped(path)) if path == "mapped/lib/Token.sol"
    ));
    let collection = collect(vec![
        def_in(
            "mapped/Root.sol",
            "Payment",
            vec![(strukt("Token"), "token"), (unsigned(256), "amount")],
        ),
        def_in(
            "mapped/lib/Token.sol",
            "Token",
            vec![(Type::Address, "addr"), (unsigned(8), "decimals")],
        ),
    ]);
    assert_eq!(
        collection.get("Payment").unwrap().canonical_definition(),
        "Payment(Token token,uint256 amount)Token(address addr,uint8 decimals)"
    );
}

#[test]
fn unmapped_import_leaves_dependency_unresolved_but_unit_builds() {
    // The import is not mapped, so the type of `token` does not resolve. `Payment`
    // is not usable, but collection itself still succeeds.
    assert!(ImportResolver::default().resolve_import("@lib/Token.sol").is_err());
    let collection = collect(vec![Definition::Struct(StructDefinition {
        name: "Payment".to_string(),
        file_id: "mapped/Root.sol".to_string(),
        members: vec![member(None, "token"), member(Some(unsigned(256)), "amount")],
    })]);
    assert!(matches!(collection.get("Token"), Err(LookupError::NotFound(_))));
    assert_eq!(reason(&collection, "Payment"), "Struct has non-encodable member: 'token'");
}

#[test]
fn missing_root_file_is_an_error() {
    let error = check_root("does/not/exist.sol", Err("No such file".to_string())).unwrap_err();
    assert!(matches!(error, CollectError::RootFileNotFound { .. }));
    assert_eq!(
        error.message(),
        "could not read EIP-712 root source does/not/exist.sol: No such file"
    );
    assert!(check_root("exists.sol", Ok(())).is_ok());
}

#[test]
fn conflict_names_all_files_in_any_order() {
    let one = || def_in("one.sol", "S", vec![(unsigned(256), "a")]);
    let two = || def_in("two.sol", "S", vec![(unsigned(8), "a")]);
    assert_eq!(
        reason(&collect(vec![one(), two(), one()]), "S"),
        "Conflicting definitions of struct 'S' in: one.sol, two.sol, one.sol"
    );
    assert_eq!(
        reason(&collect(vec![two(), one()]), "S"),
        "Conflicting definitions of struct 'S' in: two.sol, one.sol"
    );
}

#[test]
fn all_non_encodable_members_are_listed() {
    let collection = collect(vec![def(
        "S",
        vec![
            (Type::Mapping, "m"),
            (unsigned(8), "ok"),
            (Type::FixedPointNumber, "f"),
            (array(Type::Tuple), "t"),
            (Type::Struct(None), "s"),
            (Type::UserDefinedValue(None), "u"),
        ],
    )]);
    assert_eq!(
        reason(&collection, "S"),
        "Struct has non-encodable members: 'm, f, t, s, u'"
    );
}

#[test]
fn rejection_travels_over_several_steps() {
    let collection = collect(vec![
        def("A", vec![(strukt("B"), "b")]),
        def("B", vec![(array(strukt("C")), "c")]),
        def("C", vec![(strukt("D"), "d"), (unsigned(8), "n"), (strukt("E"), "e")]),
        def("D", vec![(Type::Mapping, "m")]),
        def("E", vec![(Type::Function, "f")]),
        def("F", vec![(unsigned(8), "n")]),
    ]);
    assert_eq!(reason(&collection, "A"), "Struct has non-encodable member: 'B'");
    assert_eq!(reason(&collection, "B"), "Struct has non-encodable member: 'C'");
    assert_eq!(reason(&collection, "C"), "Struct has non-encodable members: 'D, E'");
    assert_eq!(
        collection.get("C").unwrap_err().message(),
        "EIP-712 type 'C' cannot be used: Struct has non-encodable members: 'D, E'"
    );
    assert_eq!(canonical(&collection, "F"), "F(uint8 n)");
    assert_eq!(collection.len(), 1);
}

#[test]
fn dependent_of_a_cycle_is_rejected() {
    let collection = collect(vec![
        def("Root", vec![(strukt("A"), "a")]),
        def("A", vec![(strukt("B"), "b")]),
        def("B", vec![(strukt("A"), "a")]),
        def("Leaf", vec![(unsigned(8), "n")]),
    ]);
    assert!(reason(&collection, "Root").starts_with("failed to canonicalize: "));
    assert!(reason(&collection, "A").starts_with(
        "failed to canonicalize: failed to canonicalize EIP-712 type A(B b)B(A a): "
    ));
    assert_eq!(canonical(&collection, "Leaf"), "Leaf(uint8 n)");
}

#[test]
fn empty_arrays_are_not_canonical() {
    let collection = collect(vec![
        def("S", vec![(fixed(unsigned(8), 0), "none")]),
        def("Uses", vec![(strukt("S"), "s")]),
    ]);
    assert_eq!(
        reason(&collection, "S"),
        "failed to canonicalize: failed to parse EIP-712 canonical type \
         S(uint8[0] none): no parseable type definition found"
    );
    assert!(reason(&collection, "Uses").starts_with("failed to canonicalize: "));
}

#[test]
fn struct_without_members_is_usable() {
    let collection = collect(vec![def("Empty", vec![])]);
    assert_eq!(canonical(&collection, "Empty"), "Empty()");
}

#[test]
fn heads_are_sorted_as_texts() {
    // `$` comes before the parenthesis behind the shorter name.
    let collection = collect(vec![
        def("Root", vec![(strukt("A"), "a"), (strukt("A$"), "b"), (strukt("A0"), "c")]),
        def("A0", vec![(unsigned(8), "n")]),
        def("A$", vec![(unsigned(8), "n")]),
        def("A", vec![(unsigned(8), "n")]),
    ]);
    assert_eq!(
        canonical(&collection, "Root"),
        "Root(A a,A$ b,A0 c)A$(uint8 n)A(uint8 n)A0(uint8 n)"
    );
}

#[test]
fn shared_dependencies_of_a_diamond_occur_once() {
    let collection = collect(vec![
        def("Top", vec![(strukt("Left"), "l"), (strukt("Right"), "r")]),
        def("Right", vec![(strukt("Bottom"), "b")]),
        def("Left", vec![(fixed(strukt("Bottom"), 2), "b"), (strukt("Right"), "r")]),
        def("Bottom", vec![(signed(8), "n"), (Type::Library, "l")]),
    ]);
    assert_eq!(
        canonical(&collection, "Top"),
        "Top(Left l,Right r)Bottom(int8 n,address l)Left(Bottom[2] b,Right r)Right(Bottom b)"
    );
}

#[test]
fn an_empty_unit_has_no_types() {
    let collection = collect(vec![]);
    assert!(collection.is_empty());
    assert_eq!(collection.len(), 0);
    assert!(Eip712Collection::default().is_empty());
}

#[test]
fn names_must_be_identifiers() {
    assert!(CompilationUnit::new(vec![def("S", vec![(unsigned(8), "a")])]).is_some());
    assert!(CompilationUnit::new(vec![def("", vec![])]).is_none());
    assert!(CompilationUnit::new(vec![def("1S", vec![])]).is_none());
    assert!(CompilationUnit::new(vec![def("S(", vec![])]).is_none());
    assert!(CompilationUnit::new(vec![def("S", vec![(unsigned(8), "a b")])]).is_none());
    assert!(CompilationUnit::new(vec![def("S", vec![(array(strukt("T,")), "t")])]).is_none());
    assert_eq!(
        CompilationUnit::new(vec![Definition::Other]).unwrap().all_definitions().len(),
        1
    );
}

#[test]
fn clones_hold_the_same_types() {
    let collection = collect(vec![
        def("S", vec![(unsigned(8), "a")]),
        def("T", vec![(Type::Mapping, "m")]),
    ]);
    let clone = collection.clone();
    assert_eq!(canonical(&clone, "S"), "S(uint8 a)");
    assert_eq!(reason(&clone, "T"), reason(&collection, "T"));
    assert_eq!(clone.len(), 1);
}

#[test]
fn outcomes_are_recorded() {
    let mut rejected: NameMap<RejectReason> = NameMap::new();
    rejected.insert(
        "Bad".to_string(),
        RejectReason::NonEncodableMembers { members: vec!["m".to_string()] },
    );
    let mut collection = Eip712Collection::rejecting(&rejected);
    collection.record("S".to_string(), "S(uint8 a)", Eip712TypeDef::parse("S(uint8 a)"));
    collection.record("T".to_string(), "", Eip712TypeDef::parse(""));
    collection.record("U".to_string(), "U(uint8 a)", Eip712TypeDef::parse("V(uint8 a)"));
    assert_eq!(
        reason(&collection, "U"),
        "failed to canonicalize: U(uint8 a) is not in canonical form"
    );
    assert_eq!(canonical(&collection, "S"), "S(uint8 a)");
    assert_eq!(
        reason(&collection, "T"),
        "failed to canonicalize: failed to parse EIP-712 canonical type : \
         no parseable type definition found"
    );
    assert_eq!(reason(&collection, "Bad"), "Struct has non-encodable member: 'm'");
}

#[test]
fn types_bear_their_names() {
    // `Z` cannot be read, so `P` is the only struct that none refers to. Its
    // definition is not that of `R`.
    let collection = collect(vec![
        def("R", vec![(strukt("Q"), "q"), (strukt("Z"), "z")]),
        def("Q", vec![(strukt("R"), "r")]),
        def("Z", vec![(strukt("P"), "p"), (fixed(unsigned(256), 0), "x")]),
        def("P", vec![(Type::Address, "a")]),
    ]);
    assert_eq!(
        reason(&collection, "R"),
        "failed to canonicalize: R(Q q,Z z)P(address a)Q(R r)Z(P p,uint256[0] x) \
         is not in canonical form"
    );
    assert!(collection.get("Q").is_err());
    assert!(collection.get("Z").is_err());
    assert_eq!(canonical(&collection, "P"), "P(address a)");

    let collection = collect(vec![
        def("A", vec![(array(strukt("A")), "a"), (strukt("U"), "u")]),
        def("D", vec![(Type::Boolean, "x")]),
        def("U", vec![(strukt("D"), "d"), (fixed(Type::Boolean, 0), "z")]),
    ]);
    assert!(reason(&collection, "A").ends_with(" is not in canonical form"));
    assert_eq!(canonical(&collection, "D"), "D(bool x)");
}

#[test]
fn ill_named_definitions_are_left_out() {
    let unit = CompilationUnit::with_well_named(vec![
        def("S", vec![(unsigned(8), "a")]),
        def("", vec![(Type::Mapping, "m")]),
        Definition::Other,
        def("T", vec![(array(strukt("U,")), "u")]),
    ]);
    assert_eq!(unit.all_definitions().len(), 2);
    let collection = collect_eip712_types_from_compilation_unit(&unit);
    assert_eq!(canonical(&collection, "S"), "S(uint8 a)");
    assert!(matches!(collection.get("T"), Err(LookupError::NotFound(_))));
}

#[test]
fn definitions_are_closed() {
    let collection = collect(vec![
        def("A", vec![(strukt("B"), "b"), (fixed(strukt("C"), 2), "c")]),
        def("B", vec![(array(strukt("C")), "c")]),
        def("C", vec![(Type::Boolean, "d")]),
        def("Unrelated", vec![(strukt("A"), "a")]),
    ]);
    assert_eq!(canonical(&collection, "A"), "A(B b,C[2] c)B(C[] c)C(bool d)");
    for name in ["A", "B", "C", "Unrelated"] {
        assert!(collection.get(name).is_ok());
    }
}
