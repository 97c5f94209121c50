//! Struct definitions, tables of names, and text.
use edr_eip712::canonical::{canonical_string, transitive_struct_deps};
use edr_eip712::dedup::dedup_by_name;
use edr_eip712::names::{NameMap, NameSet};
use edr_eip712::reject::{reject_non_encodable, RejectReason};
use edr_eip712::solidity::{encode_member_type, Type};
use edr_eip712::structs::{
    base_type_name, direct_struct_deps, make_fingerprint, struct_head, CollectedMember,
    CollectedStruct, EncodableStruct,
};
use edr_eip712::text::{
    concat_texts, decimal_text, join, sort_texts, text_before, text_eq, text_le, text_starts_with,
    text_trim,
};

fn collected(file_id: &str, name: &str, members: Vec<(Option<&str>, &str)>) -> CollectedStruct {
    CollectedStruct {
        name: name.to_string(),
        file_id: file_id.to_string(),
        members: members
            .into_iter()
            .map(|(ty, name)| CollectedMember {
                name: name.to_string(),
                encoded_type: ty.map(|ty| ty.to_string()),
            })
            .collect(),
    }
}

fn encodable(name: &str, members: Vec<(&str, &str)>) -> EncodableStruct {
    let members = members.into_iter().map(|(ty, name)| (Some(ty), name)).collect();
    EncodableStruct::try_from(collected("root.sol", name, members)).unwrap()
}

fn strings(items: &[&str]) -> Vec<String> {
    items.iter().map(|item| item.to_string()).collect()
}

fn set(items: &[&str]) -> NameSet {
    let mut names = NameSet::new();
    for item in items {
        names.insert(item.to_string());
    }
    names
}

#[test]
fn member_types_are_encoded() {
    let encode = |ty: Type| encode_member_type(&ty);
    let text = |text: &str| Some(text.to_string());
    let uint256 = || Box::new(Type::Integer { signed: false, bits: 256 });
    assert_eq!(encode(Type::Address), text("address"));
    assert_eq!(encode(Type::Contract), text("address"));
    assert_eq!(encode(Type::Interface), text("address"));
    assert_eq!(encode(Type::Library), text("address"));
    assert_eq!(encode(Type::Boolean), text("bool"));
    assert_eq!(encode(Type::Integer { signed: true, bits: 128 }), text("int128"));
    assert_eq!(encode(*uint256()), text("uint256"));
    assert_eq!(encode(Type::ByteArray { width: 32 }), text("bytes32"));
    assert_eq!(encode(Type::Bytes), text("bytes"));
    assert_eq!(encode(Type::String), text("string"));
    assert_eq!(encode(Type::Enum), text("uint8"));
    assert_eq!(encode(Type::Struct(Some("S".to_string()))), text("S"));
    assert_eq!(encode(Type::Struct(None)), None);
    assert_eq!(encode(Type::UserDefinedValue(Some(uint256()))), text("uint256"));
    assert_eq!(encode(Type::UserDefinedValue(None)), None);
    assert_eq!(encode(Type::Array(uint256())), text("uint256[]"));
    assert_eq!(
        encode(Type::FixedSizeArray { element_type: uint256(), size: 10 }),
        text("uint256[10]")
    );
    assert_eq!(encode(Type::Array(Box::new(Type::Mapping))), None);
    assert_eq!(
        encode(Type::FixedSizeArray { element_type: Box::new(Type::Void), size: 1 }),
        None
    );
    for ty in [
        Type::Mapping,
        Type::Function,
        Type::FixedPointNumber,
        Type::Tuple,
        Type::Literal,
        Type::Void,
    ] {
        assert_eq!(encode(ty), None);
    }
}

#[test]
fn arrays_have_the_base_name_of_their_elements() {
    assert_eq!(base_type_name("Person[3][2]"), "Person");
    assert_eq!(base_type_name("Person[]"), "Person");
    assert_eq!(base_type_name("Person"), "Person");
}

#[test]
fn fingerprints_show_unsupported_members() {
    let s = collected("a.sol", "S", vec![(Some("uint8"), "a"), (None, "b")]);
    assert_eq!(make_fingerprint(&s), "S(uint8 a,<unsupported> b)");
    assert_eq!(make_fingerprint(&s.clone()), make_fingerprint(&s));
    let other = collected("b.sol", "S", vec![(Some("uint8"), "a")]);
    assert_eq!(make_fingerprint(&other), "S(uint8 a)");
    // Of an encodable struct, the fingerprint is the head.
    assert_eq!(struct_head(&EncodableStruct::try_from(other).unwrap()), "S(uint8 a)");
}

#[test]
fn structs_with_unsupported_members_are_not_encodable() {
    let s = collected("a.sol", "S", vec![(None, "a"), (Some("uint8"), "b"), (None, "c")]);
    match EncodableStruct::try_from(s) {
        Err(RejectReason::NonEncodableMembers { members }) => {
            assert_eq!(members, strings(&["a", "c"]));
        }
        other => panic!("unexpected: {:?}", other),
    }
}

#[test]
fn direct_dependencies_follow_the_members() {
    let s = encodable("S", vec![("B[]", "b"), ("A", "a"), ("S", "s"), ("X", "x"), ("B", "c")]);
    assert_eq!(direct_struct_deps(&s, &set(&["A", "B", "S"])), strings(&["B", "A", "B"]));
}

#[test]
fn transitive_dependencies_leave_out_the_root() {
    let mut all: NameMap<EncodableStruct> = NameMap::new();
    all.insert("A".to_string(), encodable("A", vec![("B", "b"), ("C[]", "c")]));
    all.insert("B".to_string(), encodable("B", vec![("C", "c"), ("A", "a")]));
    all.insert("C".to_string(), encodable("C", vec![("uint8", "n")]));
    all.insert("D".to_string(), encodable("D", vec![("A", "a")]));
    let names = set(&["A", "B", "C", "D"]);
    let root = all.get("A").unwrap();
    assert_eq!(
        sort_texts(transitive_struct_deps(root, &all, &names)),
        strings(&["B", "C"])
    );
    assert_eq!(
        canonical_string(root, &all, &names),
        "A(B b,C[] c)B(C c,A a)C(uint8 n)"
    );
}

#[test]
fn the_root_need_not_be_in_the_table() {
    let mut all: NameMap<EncodableStruct> = NameMap::new();
    all.insert("B".to_string(), encodable("B", vec![("A", "a")]));
    all.insert("D".to_string(), encodable("D", vec![("Missing", "m")]));
    let names = set(&["A", "B", "D", "Missing"]);
    let root = encodable("A", vec![("B", "b")]);
    assert_eq!(transitive_struct_deps(&root, &all, &names), strings(&["B"]));
}

#[test]
fn fingerprints_differ_where_names_or_members_do() {
    let s = || collected("a.sol", "S", vec![(Some("uint8"), "a"), (None, "b")]);
    let fingerprint = make_fingerprint(&s());
    let mut other = s();
    other.file_id = "b.sol".to_string();
    assert_eq!(make_fingerprint(&other), fingerprint);
    other.name = "T".to_string();
    assert_ne!(make_fingerprint(&other), fingerprint);
    let mut other = s();
    other.members[1].encoded_type = Some("uint8".to_string());
    assert_ne!(make_fingerprint(&other), fingerprint);
    let mut other = s();
    other.members.pop();
    assert_ne!(make_fingerprint(&other), fingerprint);
}

#[test]
fn structs_are_deduplicated_by_name() {
    let deduped = dedup_by_name(vec![
        collected("1.sol", "S", vec![(Some("uint8"), "a")]),
        collected("2.sol", "T", vec![(None, "a")]),
        collected("3.sol", "S", vec![(Some("uint8"), "a")]),
        collected("4.sol", "T", vec![(Some("uint8"), "a")]),
    ]);
    assert_eq!(deduped.unique.len(), 1);
    assert_eq!(deduped.unique.get("S").unwrap().file_id, "1.sol");
    assert_eq!(deduped.duplicates.len(), 1);
    assert_eq!(
        deduped.duplicates.get("T").unwrap().message(),
        "Conflicting definitions of struct 'T' in: 2.sol, 4.sol"
    );
}

#[test]
fn dependents_of_rejected_structs_are_rejected() {
    let mut structs: NameMap<CollectedStruct> = NameMap::new();
    structs.insert("A".to_string(), collected("f", "A", vec![(Some("B"), "b")]));
    structs.insert("B".to_string(), collected("f", "B", vec![(Some("Dup[2]"), "d")]));
    structs.insert("C".to_string(), collected("f", "C", vec![(Some("uint8"), "n")]));
    let mut rejected: NameMap<RejectReason> = NameMap::new();
    rejected.insert(
        "Dup".to_string(),
        RejectReason::Duplicate { name: "Dup".to_string(), file_ids: strings(&["x", "y"]) },
    );
    let names = set(&["A", "B", "C", "Dup"]);
    let usable = reject_non_encodable(structs, &names, &mut rejected);
    assert_eq!(usable.len(), 1);
    assert!(usable.contains_key("C"));
    assert_eq!(rejected.len(), 3);
    assert_eq!(
        rejected.get("A").unwrap().message(),
        "Struct has non-encodable member: 'B'"
    );
    assert_eq!(
        rejected.get("B").unwrap().message(),
        "Struct has non-encodable member: 'Dup'"
    );
}

#[test]
fn rejected_names_stay_usable_on_their_own_merits() {
    let mut structs: NameMap<CollectedStruct> = NameMap::new();
    structs.insert("A".to_string(), collected("f", "A", vec![(Some("uint8"), "n")]));
    structs.insert("B".to_string(), collected("f", "B", vec![(Some("A"), "a")]));
    let mut rejected: NameMap<RejectReason> = NameMap::new();
    rejected.insert(
        "A".to_string(),
        RejectReason::Duplicate { name: "A".to_string(), file_ids: strings(&["x", "y"]) },
    );
    let usable = reject_non_encodable(structs, &set(&["A", "B"]), &mut rejected);
    assert!(usable.contains_key("A"));
    assert!(!usable.contains_key("B"));
    assert_eq!(rejected.len(), 2);
}

#[test]
fn tables_hold_one_value_for_each_name() {
    let mut table: NameMap<String> = NameMap::new();
    assert!(table.is_empty());
    table.insert("b".to_string(), "1".to_string());
    table.insert("a".to_string(), "2".to_string());
    table.insert("b".to_string(), "3".to_string());
    assert_eq!(table.len(), 2);
    assert_eq!(table.get("b"), Some(&"3".to_string()));
    assert_eq!(table.name_at(0), "b");
    assert_eq!(table.value_at(1), "2");
    let mut other: NameMap<String> = NameMap::new();
    other.insert("a".to_string(), "4".to_string());
    other.insert("c".to_string(), "5".to_string());
    table.extend(other);
    assert_eq!(table.len(), 3);
    assert_eq!(table.get("a"), Some(&"4".to_string()));
    let copy = table.duplicate();
    table.remove("b");
    table.remove("z");
    assert_eq!(table.get("b"), None);
    assert_eq!(table.len(), 2);
    assert_eq!(copy.get("b"), Some(&"3".to_string()));
}

#[test]
fn sets_hold_each_name_once() {
    let names = set(&["b", "a", "b"]);
    assert!(names.contains("a"));
    assert!(!names.contains("c"));
    assert_eq!(names.into_names(), strings(&["b", "a"]));
}

#[test]
fn texts_are_taken_apart_and_put_together() {
    assert!(text_eq("aé", "aé"));
    assert!(!text_eq("a", "aé"));
    assert_eq!(text_before("aé[b[", '['), "aé");
    assert_eq!(text_before("ab", '['), "ab");
    assert_eq!(text_trim("\u{3000} a b\t\n"), "a b");
    assert_eq!(text_trim("  "), "");
    assert!(text_starts_with("./a", "./"));
    assert!(!text_starts_with(".", "./"));
    assert_eq!(join(&strings(&[]), ", "), "");
    assert_eq!(join(&strings(&["a"]), ", "), "a");
    assert_eq!(join(&strings(&["a", "", "c"]), ", "), "a, , c");
    assert_eq!(concat_texts(&strings(&["a", "bc"])), "abc");
    assert_eq!(decimal_text(0), "0");
    assert_eq!(decimal_text(1090), "1090");
    assert_eq!(decimal_text(u64::MAX), "18446744073709551615");
}

#[test]
fn texts_are_sorted_by_code_point() {
    assert!(text_le("", ""));
    assert!(text_le("A", "A("));
    assert!(text_le("A$(", "A("));
    assert!(!text_le("b", "a"));
    assert_eq!(
        sort_texts(strings(&["b", "é", "a", "B", "a", ""])),
        strings(&["", "B", "a", "a", "b", "é"])
    );
}
