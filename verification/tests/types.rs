//! Parsing EIP-712 type definitions.
use edr_eip712::types::{
    components_are_named, text_is_identifier, text_is_type_name, type_def_parts, Component,
};
use edr_eip712::{Eip712Error, Eip712TypeDef};

fn component(span: &str) -> Component {
    Component { span: span.to_string(), members: vec![] }
}

const SIMPLE_MAIL_CANONICAL: &str = "Mail(address from,address to,string contents)";

#[test]
fn parses_canonical_definition() {
    let def = Eip712TypeDef::parse(SIMPLE_MAIL_CANONICAL).unwrap();
    assert_eq!(def.name(), "Mail");
    assert_eq!(def.canonical_definition(), SIMPLE_MAIL_CANONICAL);
}

#[test]
fn normalizes_whitespace() {
    // Extra whitespace after commas: not canonical per EIP-712.
    let noisy = "Mail(address from, address to, string contents)";
    let def = Eip712TypeDef::parse(noisy).unwrap();
    assert_eq!(def.canonical_definition(), SIMPLE_MAIL_CANONICAL);
}

#[test]
fn sorts_referenced_types_alphabetically() {
    // EIP-712: "the set of referenced struct types is collected, sorted by name
    // and appended to the encoding". Input here has Person before Asset;
    // canonical output must swap them.
    let non_canonical = "Transaction(Person from,Person to,Asset tx)\
                         Person(address wallet,string name)\
                         Asset(address token,uint256 amount)";
    let expected = "Transaction(Person from,Person to,Asset tx)\
                    Asset(address token,uint256 amount)\
                    Person(address wallet,string name)";

    let def = Eip712TypeDef::parse(non_canonical).unwrap();
    assert_eq!(def.name(), "Transaction");
    assert_eq!(def.canonical_definition(), expected);
}

#[test]
fn rejects_empty_input() {
    let err = Eip712TypeDef::parse("").unwrap_err();
    assert!(matches!(
        &err,
        Eip712Error::Parse { reason, .. }
            if reason == "no parseable type definition found"
    ));
}

#[test]
fn rejects_unparseable_input() {
    let err = Eip712TypeDef::parse("not a type definition").unwrap_err();
    assert!(matches!(&err, Eip712Error::Parse { .. }));
}

#[test]
fn rejects_unresolved_nested_types() {
    // Mail references Person but does not inline its definition.
    // Canonicalization must resolve every referenced type.
    let err = Eip712TypeDef::parse("Mail(Person from,Person to,string contents)").unwrap_err();
    assert!(matches!(&err, Eip712Error::Canonicalize { .. }));
}

#[test]
fn primary_type_is_the_leftmost_of_the_canonical_definition() {
    let def = Eip712TypeDef::parse("Person(address wallet)Mail(Person to)").unwrap();
    assert_eq!(def.canonical_definition(), "Mail(Person to)Person(address wallet)");
    assert_eq!(def.name(), "Mail");
}

#[test]
fn canonical_definitions_stay_as_they_are() {
    for text in [
        "Empty()",
        "A(B b,C c)B(C c)C(uint256 v)",
        "S(uint256[] dynamic,uint256[3] fixed_size,uint256[3][2] nested)",
        "S(bytes32 a,int8 b,address c,bool d,string e,bytes f)",
    ] {
        let def = Eip712TypeDef::parse(text).unwrap();
        assert_eq!(def.canonical_definition(), text);
        assert_eq!(Eip712TypeDef::parse(def.canonical_definition()).unwrap(), def);
        assert_eq!(def.clone(), def);
    }
}

#[test]
fn definitions_that_depend_on_themselves_are_rejected() {
    for text in ["A(A[] a)", "A(B b)B(A a)", "A(B b)B(C c)C(B b)"] {
        assert!(matches!(
            Eip712TypeDef::parse(text),
            Err(Eip712Error::Canonicalize { input, .. }) if input == text
        ));
    }
}

#[test]
fn struct_of_an_unknown_type_is_rejected() {
    for text in ["S(uint7 a)", "S(bytes33 a)", "S(int0 a)"] {
        assert!(matches!(
            Eip712TypeDef::parse(text),
            Err(Eip712Error::Canonicalize { .. })
        ));
    }
}

#[test]
fn checked_parsing_turns_down_names_that_can_name_no_type() {
    assert!(Eip712TypeDef::parse_checked("1Mail(address from)").is_none());
    assert!(Eip712TypeDef::parse_checked("(address from)").is_none());
    assert!(Eip712TypeDef::parse_checked("Ma-il(address from)").is_none());
    let def = Eip712TypeDef::parse_checked("  Mail(address from)").unwrap().unwrap();
    assert_eq!(def.name(), "Mail");
    assert_eq!(def.canonical_definition(), "Mail(address from)");
    let namespaced = Eip712TypeDef::parse_checked("H:Mail(address from)").unwrap().unwrap();
    assert_eq!(namespaced.name(), "H:Mail");
    assert!(Eip712TypeDef::parse_checked("").unwrap().is_err());
}

#[test]
fn heads_are_found_up_to_the_first_unreadable_one() {
    // The second head is unreadable, so the third is not found either.
    assert!(Eip712TypeDef::parse_checked("A(C c)B(uint8[0] x)C(uint8 y)").unwrap().is_err());
    assert_eq!(
        Eip712TypeDef::parse("A(uint8 y)B(uint8[0] x)").unwrap().canonical_definition(),
        "A(uint8 y)"
    );
}

#[test]
fn parts_follow_from_what_was_found() {
    let spans = Ok(vec![component("P(address w)"), component("M(P to)")]);
    let canonical = Ok("M(P to)P(address w)".to_string());
    assert_eq!(
        type_def_parts("in", &spans, &canonical, true).unwrap(),
        ("M".to_string(), "M(P to)P(address w)".to_string())
    );
    assert_eq!(
        type_def_parts("in", &spans, &canonical, false).unwrap_err().message(),
        "failed to canonicalize EIP-712 type in: conflicting definitions of a type"
    );
    let unresolved = Err("missing type P".to_string());
    assert_eq!(
        type_def_parts("in", &spans, &unresolved, true).unwrap_err().message(),
        "failed to canonicalize EIP-712 type in: missing type P"
    );
    let nothing = Ok(vec![]);
    assert_eq!(
        type_def_parts("in", &nothing, &canonical, true).unwrap_err().message(),
        "failed to parse EIP-712 canonical type in: no parseable type definition found"
    );
    let unreadable = Err("why".to_string());
    assert_eq!(
        type_def_parts("in", &unreadable, &canonical, true).unwrap_err().message(),
        "failed to parse EIP-712 canonical type in: why"
    );
}

#[test]
fn duplicate_type_definitions_have_a_message() {
    let error = Eip712Error::DuplicateTypeDef { name: "Mail".to_string() };
    assert_eq!(error.message(), "duplicate EIP-712 type definition Mail");
}

#[test]
fn identifiers_and_type_names_are_told_apart() {
    assert!(text_is_identifier("_a$9"));
    assert!(!text_is_identifier(""));
    assert!(!text_is_identifier("9a"));
    assert!(!text_is_identifier("a:b"));
    assert!(text_is_type_name("a:b"));
    assert!(text_is_type_name("a.b"));
    assert!(text_is_type_name("a."));
    assert!(!text_is_type_name(".a"));
    assert!(!text_is_type_name("a.b.c"));
    assert!(!text_is_type_name("a b"));
    assert!(components_are_named(&vec![component(" A (x)"), component("B()")]));
    assert!(!components_are_named(&vec![component("A(x)"), component("()")]));
}

#[test]
fn canonical_definitions_are_fixed_points() {
    for text in [
        "Mail(address from, address to, string contents)",
        "Person(address wallet)Mail(Person to)",
        "\n  Person ( address  wallet,\tstring name)",
        "B(uint8 f(x,y))A(B b)",
        "A(uint8 x",
        "A(E.F e)",
        "H:A(H:B b)H:B(uint8 )",
    ] {
        let def = Eip712TypeDef::parse(text).unwrap();
        let again = Eip712TypeDef::parse(def.canonical_definition()).unwrap();
        assert_eq!(again, def);
        assert!(def.canonical_definition().starts_with(def.name()));
    }
    assert_eq!(
        Eip712TypeDef::parse("A(uint8 x").unwrap().canonical_definition(),
        "A()"
    );
    assert_eq!(
        Eip712TypeDef::parse("B(uint8 f(x,y))A(B b)").unwrap().canonical_definition(),
        "A(B b)B(uint8 f(x,y))"
    );
}

#[test]
fn a_type_that_is_defined_in_two_ways_is_rejected() {
    assert!(matches!(
        Eip712TypeDef::parse("S(A a)S(uint256 x)A(bool b)"),
        Err(Eip712Error::Canonicalize { reason, .. })
            if reason == "conflicting definitions of a type"
    ));
    // Defined twice in the same way, it counts once.
    let def = Eip712TypeDef::parse("S(A a)A(bool b)S( A  a)").unwrap();
    assert_eq!(def.canonical_definition(), "S(A a)A(bool b)");
    assert_eq!(Eip712TypeDef::parse("S(A a)A(bool b)").unwrap(), def);
}

#[test]
fn heads_in_any_order_and_with_white_space_are_canonicalized() {
    let spaced = "\n  C(uint8 n)\n  A (B b, C[] c)\n B( C  c)\n";
    let def = Eip712TypeDef::parse(spaced).unwrap();
    assert_eq!(def.name(), "A");
    assert_eq!(def.canonical_definition(), "A(B b,C[] c)B(C c)C(uint8 n)");
}

#[test]
fn two_types_that_nothing_refers_to_are_rejected() {
    assert!(matches!(
        Eip712TypeDef::parse("A(uint8 a)B(uint8 b)"),
        Err(Eip712Error::Canonicalize { .. })
    ));
    // A cycle beside the primary type does no harm: it is left out.
    let def = Eip712TypeDef::parse("A(uint8 a)B(C c)C(B b,Missing m)").unwrap();
    assert_eq!(def.canonical_definition(), "A(uint8 a)");
}

#[test]
fn basic_types_are_known() {
    for ty in [
        "address", "bool", "string", "bytes", "uint", "int", "function", "bytes1", "bytes32",
        "bytes032", "int8", "int256", "uint08", "uint248", "E.F", "E.",
    ] {
        let text = format!("S({} m)", ty);
        let def = Eip712TypeDef::parse(&text).unwrap();
        assert_eq!(def.canonical_definition(), text);
    }
    for ty in [
        "bytes0", "bytes33", "int0", "int7", "int264", "uint12", "Bytes1", "uuint8", "fixed",
    ] {
        let text = format!("S({} m)", ty);
        assert!(matches!(
            Eip712TypeDef::parse(&text),
            Err(Eip712Error::Canonicalize { .. })
        ));
    }
}

#[test]
fn array_sizes_must_not_be_zero() {
    for ty in ["uint8[1]", "uint8[03]", "uint8[][2][]", "uint8[18446744073709551615]"] {
        let text = format!("S({} m)", ty);
        assert_eq!(Eip712TypeDef::parse(&text).unwrap().canonical_definition(), text);
    }
    for ty in ["uint8[0]", "uint8[00]", "uint8[2][0]", "uint8[", "uint8]", "uint8[a]", "uint8[]x"] {
        let text = format!("S({} m)", ty);
        assert!(matches!(Eip712TypeDef::parse(&text), Err(Eip712Error::Parse { .. })));
    }
}
