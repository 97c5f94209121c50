//! What the operations of the library are for, stated over their inputs and
//! results.
use crate::canonical::{
    canonical_text, dependencies, dependency_heads, is_chain, lemma_chain_is_part,
    lemma_dependencies_are_finite, lemma_leads_to_a_struct, lemma_part_step, lemma_reached_step,
    lemma_to_seq_has_no_duplicates, reached, refers,
};
use crate::collector::{
    CollectError, CollectionModel, LookupError, LookupModel, collection_of,
    law_every_struct_is_a_type_or_rejected, lemma_unique_is_finite, usable_structs,
};
use crate::dedup::{
    definitions_of, duplicates_of, law_every_name_is_unique_or_duplicate, lemma_definitions,
    unique_of,
};
use crate::evm::{opcode_name, outcome_of};
use crate::heads::lemma_decimal_is_number;
use crate::provider::{SourceName, outcomes_by_source, scoped_lookup};
use crate::reject::{
    ReasonModel, RejectReason, is_dep_chain, law_rejection_propagates_to_dependents,
};
use crate::resolver::{ImportTarget, TargetModel, import_target, is_relative};
use crate::solidity::{
    Definition, StructDefinition, Type, encoded, is_well_named, well_named,
};
use crate::structs::{
    CollectedStruct, EncodableStruct, MemberModel, StructModel, law_fingerprint_is_the_head, models,
    struct_names, structs_of,
};
use crate::text::{
    before, decimal, is_white_space, joined, law_lex_order_is_total, lex_le, lex_order, texts,
    trimmed, trimmed_end, trimmed_start,
};
use crate::trace::{
    CallTrace, CallTraceArena, CallTraceStep, EntryModel, ExitReason, StepModel, TraceEntry,
    TracingMessage, TracingMessageResult, TracingStep, U256, big_ints, big_of_u256, big_of_u64,
    ends_within, entry_models, law_walkable_is_exact, member_traces, message_of, reason_of,
    reason_of_outcome, result_of, step_of,
};
use crate::types::{
    Eip712Error, ErrorModel, TypeDefModel, canonical_encode_type, component_name,
    encode_type_components, is_eip712_identifier, is_id_continue, is_identifier, is_type_name,
    parseable, parsed,
};
use crate::version::{
    FromSemverError, LanguageVersion, build_text, is_offer, is_release, language_version_for,
    prerelease_text,
};
use revm::context::result::{HaltReason, SuccessReason};
use revm::interpreter::{InstructionResult, SuccessOrHalt};
use revm_inspectors::tracing::types::TraceMemberOrder;
use semver::Version;
use vstd::prelude::*;
use vstd::relations::sorted_by;

verus! {

// Text.

/// What stands in front of the first `c` is the longest part of the front of a
/// text that does not hold `c`.
pub proof fn law_front_ends_at_the_first_separator(s: Seq<char>, c: char)
    ensures
        before(s, c).is_prefix_of(s),
        !before(s, c).contains(c),
        before(s, c).len() < s.len() ==> s[before(s, c).len() as int] == c,
        !s.contains(c) ==> before(s, c) == s,
{
    s.index_of_first_ensures(c);
    if before(s, c).contains(c) {
        let i = before(s, c).index_of(c);
        assert(s[i] == c);
    }
}

/// Joining lists one after the other puts one separator between them. A single
/// part stands as it is.
pub proof fn law_joining_puts_separators_between(
    a: Seq<Seq<char>>,
    b: Seq<Seq<char>>,
    part: Seq<char>,
    sep: Seq<char>,
)
    ensures
        joined(Seq::empty(), sep).len() == 0,
        joined(seq![part], sep) == part,
        a.len() > 0 && b.len() > 0 ==> joined(a + b, sep) == joined(a, sep) + sep + joined(b, sep),
    decreases b.len(),
{
    if a.len() > 0 && b.len() > 0 {
        assert((a + b).drop_last() =~= a + b.drop_last());
        if b.len() == 1 {
            assert(a + b.drop_last() =~= a);
        } else {
            law_joining_puts_separators_between(a, b.drop_last(), part, sep);
            assert(joined(a + b, sep) =~= joined(a, sep) + sep + joined(b, sep));
        }
    }
}

/// Decimal notation appends a digit for each factor of ten, has no leading zero,
/// and tells numbers apart.
pub proof fn law_decimal_notation(n: nat, d: nat, other: nat)
    requires
        d < 10,
    ensures
        decimal(d).len() == 1 && decimal(d)[0] as int == 48 + d,
        n > 0 ==> decimal(10 * n + d) == decimal(n) + decimal(d),
        n > 0 ==> decimal(n)[0] as int != 48,
        forall|i: int| 0 <= i < decimal(n).len() ==> 48 <= #[trigger] decimal(n)[i] as int <= 57,
        decimal(n) == decimal(other) ==> n == other,
{
    lemma_decimal_is_number(n);
    lemma_decimal_is_number(other);
    lemma_no_leading_zero(n);
    if n > 0 {
        assert((10 * n + d) / 10 == n && (10 * n + d) % 10 == d);
        assert(decimal(10 * n + d) =~= decimal(n) + decimal(d));
    }
}

proof fn lemma_no_leading_zero(n: nat)
    ensures
        decimal(n).len() > 0,
        n > 0 ==> decimal(n)[0] as int != 48,
    decreases n,
{
    if n >= 10 {
        lemma_no_leading_zero(n / 10);
    }
}

/// Texts are ordered by the first character in which they differ, and a text
/// comes in front of what continues it.
pub proof fn law_order_is_decided_by_the_first_difference(
    front: Seq<char>,
    a: Seq<char>,
    b: Seq<char>,
)
    ensures
        lex_le(front, front + a),
        a.len() > 0 ==> !lex_le(front + a, front),
        a.len() > 0 && b.len() > 0 && (a[0] as int) < (b[0] as int) ==> lex_le(
            front + a,
            front + b,
        ) && !lex_le(front + b, front + a),
        lex_order()(a, b) == lex_le(a, b),
    decreases front.len(),
{
    if front.len() > 0 {
        law_order_is_decided_by_the_first_difference(front.drop_first(), a, b);
        assert((front + a).drop_first() =~= front.drop_first() + a);
        assert((front + b).drop_first() =~= front.drop_first() + b);
    } else {
        assert(front + a =~= a);
        assert(front + b =~= b);
    }
}

/// White space is what Unicode calls so, by code point.
pub proof fn law_white_space(c: char)
    ensures
        is_white_space(c) <==> {
            let n = c as int;
            9 <= n <= 13 || n == 32 || n == 133 || n == 160 || n == 5760 || 8192 <= n <= 8202 || n
                == 8232 || n == 8233 || n == 8239 || n == 8287 || n == 12288
        },
{
}

/// Trimming takes away the white space around a text, and nothing else.
pub proof fn law_trimming_takes_white_space_away(front: Seq<char>, s: Seq<char>, back: Seq<char>)
    requires
        forall|i: int| 0 <= i < front.len() ==> is_white_space(#[trigger] front[i]),
        forall|i: int| 0 <= i < back.len() ==> is_white_space(#[trigger] back[i]),
        s.len() > 0 ==> !is_white_space(s[0]) && !is_white_space(s.last()),
    ensures
        trimmed(front + s + back) == s,
{
    let rest = s + back;
    assert(front + s + back =~= front + rest);
    lemma_trim_front(front, rest);
    if s.len() > 0 {
        assert(rest[0] == s[0]);
        assert(trimmed_start(rest) == rest);
        lemma_trim_back(s, back);
    } else {
        assert(rest =~= back);
        lemma_trim_front(back, Seq::empty());
        assert(back + Seq::<char>::empty() =~= back);
    }
}

proof fn lemma_trim_front(front: Seq<char>, rest: Seq<char>)
    requires
        forall|i: int| 0 <= i < front.len() ==> is_white_space(#[trigger] front[i]),
    ensures
        trimmed_start(front + rest) == trimmed_start(rest),
    decreases front.len(),
{
    if front.len() == 0 {
        assert(front + rest =~= rest);
    } else {
        assert((front + rest)[0] == front[0]);
        assert((front + rest).drop_first() =~= front.drop_first() + rest);
        assert forall|i: int| 0 <= i < front.len() - 1 implies is_white_space(
            #[trigger] front.drop_first()[i],
        ) by {
            assert(front.drop_first()[i] == front[i + 1]);
        }
        lemma_trim_front(front.drop_first(), rest);
    }
}

proof fn lemma_trim_back(s: Seq<char>, back: Seq<char>)
    requires
        forall|i: int| 0 <= i < back.len() ==> is_white_space(#[trigger] back[i]),
        s.len() > 0,
        !is_white_space(s.last()),
    ensures
        trimmed_end(s + back) == s,
    decreases back.len(),
{
    if back.len() == 0 {
        assert(s + back =~= s);
    } else {
        assert((s + back).last() == back.last());
        assert((s + back).drop_last() =~= s + back.drop_last());
        assert forall|i: int| 0 <= i < back.len() - 1 implies is_white_space(
            #[trigger] back.drop_last()[i],
        ) by {
            assert(back.drop_last()[i] == back[i]);
        }
        lemma_trim_back(s, back.drop_last());
    }
}

/// A list of strings is seen as their texts, one for one.
pub proof fn law_texts_are_one_for_one(v: Seq<String>)
    ensures
        texts(v).len() == v.len(),
        forall|i: int| 0 <= i < v.len() ==> texts(v)[i] == (#[trigger] v[i])@,
{
}

/// Whether `c` is an ASCII letter, an underscore or a dollar sign.
pub open spec fn is_letter(c: char) -> bool {
    let n = c as int;
    65 <= n <= 90 || 97 <= n <= 122 || n == 95 || n == 36
}

/// Whether `c` is an ASCII digit.
pub open spec fn is_decimal_digit(c: char) -> bool {
    48 <= c as int <= 57
}

/// A letter, an underscore or a dollar sign is an identifier. An identifier goes on
/// with these and with digits, however long it is.
pub proof fn law_identifiers(s: Seq<char>, c: char)
    ensures
        !is_identifier(Seq::empty()),
        is_identifier(seq![c]) <==> is_letter(c),
        s.len() > 0 ==> (is_identifier(s.push(c)) <==> is_identifier(s) && (is_letter(c)
            || is_decimal_digit(c))),
{
    assert(seq![c][0] == c);
    if s.len() > 0 {
        assert(s.push(c)[s.len() as int] == c);
        assert forall|i: int| 0 <= i < s.len() implies s.push(c)[i] == #[trigger] s[i] by {}
        assert(s.push(c)[0] == s[0]);
        if is_identifier(s) && (is_letter(c) || is_decimal_digit(c)) {
            assert forall|i: int| 0 <= i < s.push(c).len() implies is_id_continue(
                #[trigger] s.push(c)[i],
            ) by {
                if i < s.len() {
                    assert(s.push(c)[i] == s[i]);
                }
            }
        }
        if is_identifier(s.push(c)) {
            assert forall|i: int| 0 <= i < s.len() implies is_id_continue(
                #[trigger] s[i],
            ) by {
                assert(s.push(c)[i] == s[i]);
            }
        }
    }
}

// Member types.

/// The encoding of an integer type says its sign and its width: it is `int` or
/// `uint`, and behind it the width. Types that differ in one of the two have
/// different encodings.
pub proof fn law_integers_keep_sign_and_width(
    signed: bool,
    bits: u32,
    other_signed: bool,
    other_bits: u32,
)
    ensures
        encoded(Type::Integer { signed, bits }) matches Some(text) && {
            &&& text[0] as int == 117 <==> !signed
            &&& signed ==> text.len() > 3 && text.take(3) == seq!['i', 'n', 't'] && text.skip(3)
                == decimal(bits as nat)
            &&& !signed ==> text.len() > 4 && text.take(4) == seq!['u', 'i', 'n', 't']
                && text.skip(4) == decimal(bits as nat)
        },
        encoded(Type::Integer { signed, bits }) == encoded(
            Type::Integer { signed: other_signed, bits: other_bits },
        ) ==> signed == other_signed && bits == other_bits,
{
    reveal_strlit("int");
    reveal_strlit("uint");
    lemma_decimal_is_number(bits as nat);
    lemma_decimal_is_number(other_bits as nat);
    lemma_integer_text(signed, bits);
    lemma_integer_text(other_signed, other_bits);
}

proof fn lemma_integer_text(signed: bool, bits: u32)
    ensures
        encoded(Type::Integer { signed, bits }) is Some,
        ({
            let text = encoded(Type::Integer { signed, bits })->0;
            let n: int = if signed {
                3
            } else {
                4
            };
            &&& text.len() > n
            &&& text.skip(n) == decimal(bits as nat)
            &&& signed ==> text.take(n) == seq!['i', 'n', 't']
            &&& !signed ==> text.take(n) == seq!['u', 'i', 'n', 't']
            &&& signed ==> text[0] == 'i'
            &&& !signed ==> text[0] == 'u'
        }),
{
    reveal_strlit("int");
    reveal_strlit("uint");
    lemma_decimal_is_number(bits as nat);
    let text = encoded(Type::Integer { signed, bits })->0;
    if signed {
        assert(text.skip(3) =~= decimal(bits as nat));
        assert(text.take(3) =~= seq!['i', 'n', 't']);
    } else {
        assert(text.skip(4) =~= decimal(bits as nat));
        assert(text.take(4) =~= seq!['u', 'i', 'n', 't']);
    }
}

/// The encoding of a byte array type is `bytes`, and behind it the width. The one
/// of a dynamic one has no width.
pub proof fn law_byte_arrays_keep_their_width(width: u32, other: u32)
    ensures
        encoded(Type::ByteArray { width }) matches Some(text) && text.len() > 5 && text.take(5)
            == seq!['b', 'y', 't', 'e', 's'] && text.skip(5) == decimal(width as nat),
        encoded(Type::Bytes) == Some(seq!['b', 'y', 't', 'e', 's']),
        encoded(Type::ByteArray { width }) == encoded(Type::ByteArray { width: other }) ==> width
            == other,
        encoded(Type::ByteArray { width }) != encoded(Type::Bytes),
{
    reveal_strlit("bytes");
    lemma_decimal_is_number(width as nat);
    lemma_decimal_is_number(other as nat);
    let text = encoded(Type::ByteArray { width })->0;
    let same = encoded(Type::ByteArray { width: other })->0;
    assert(text.take(5) =~= seq!['b', 'y', 't', 'e', 's']);
    assert(text.skip(5) =~= decimal(width as nat));
    assert(same.skip(5) =~= decimal(other as nat));
    assert("bytes"@ =~= seq!['b', 'y', 't', 'e', 's']);
}

/// Contracts, interfaces and libraries are encoded as addresses, an enum as an
/// unsigned integer of 8 bits, a struct by its own name, and a user-defined value
/// type as what it stands for.
pub proof fn law_types_stand_for_others(name: String, target: Type)
    ensures
        encoded(Type::Address) == Some(seq!['a', 'd', 'd', 'r', 'e', 's', 's']),
        encoded(Type::Contract) == encoded(Type::Address),
        encoded(Type::Interface) == encoded(Type::Address),
        encoded(Type::Library) == encoded(Type::Address),
        encoded(Type::Boolean) == Some(seq!['b', 'o', 'o', 'l']),
        encoded(Type::String) == Some(seq!['s', 't', 'r', 'i', 'n', 'g']),
        encoded(Type::Enum) == encoded(Type::Integer { signed: false, bits: 8 }),
        encoded(Type::Struct(Some(name))) == Some(name@),
        encoded(Type::UserDefinedValue(Some(Box::new(target)))) == encoded(target),
{
    reveal_strlit("address");
    reveal_strlit("bool");
    reveal_strlit("string");
    reveal_strlit("uint8");
    reveal_strlit("uint");
    assert("address"@ =~= seq!['a', 'd', 'd', 'r', 'e', 's', 's']);
    assert("bool"@ =~= seq!['b', 'o', 'o', 'l']);
    assert("string"@ =~= seq!['s', 't', 'r', 'i', 'n', 'g']);
    assert(decimal(8) =~= seq!['8']);
    assert("uint8"@ =~= "uint"@ + decimal(8));
}

/// An array is encoded as its elements, with brackets behind them, around the size
/// if it is fixed. It is encodable if and only if its elements are.
pub proof fn law_arrays_are_encoded_as_their_elements(element: Type, size: usize)
    ensures
        match encoded(element) {
            Some(base) => {
                &&& encoded(Type::Array(Box::new(element))) == Some(base + seq!['[', ']'])
                &&& encoded(Type::FixedSizeArray { element_type: Box::new(element), size }) == Some(
                    base + seq!['['] + decimal(size as nat) + seq![']'],
                )
            },
            None => {
                &&& encoded(Type::Array(Box::new(element))) is None
                &&& encoded(
                    Type::FixedSizeArray { element_type: Box::new(element), size },
                ) is None
            },
        },
{
    reveal_strlit("[]");
    reveal_strlit("[");
    reveal_strlit("]");
    assert("[]"@ =~= seq!['[', ']']);
    assert("["@ =~= seq!['[']);
    assert("]"@ =~= seq![']']);
}

/// What has no EIP-712 form: mappings, functions, fixed-point numbers and what is
/// no type of a member, and names that do not resolve.
pub proof fn law_types_without_a_form(ty: Type)
    requires
        ty is Mapping || ty is Function || ty is FixedPointNumber || ty is Tuple || ty is Literal
            || ty is Void || ty == Type::Struct(None) || ty == Type::UserDefinedValue(None),
    ensures
        encoded(ty) is None,
        encoded(Type::Array(Box::new(ty))) is None,
        encoded(Type::UserDefinedValue(Some(Box::new(ty)))) is None,
{
}

// Compilation units.

/// Definitions are collected one by one, in order.
pub proof fn law_definitions_are_collected_in_order(a: Seq<Definition>, b: Seq<Definition>)
    ensures
        structs_of(a + b) == structs_of(a) + structs_of(b),
        structs_of(Seq::empty()).len() == 0,
    decreases b.len(),
{
    reveal_with_fuel(Seq::filter_map, 2);
    if b.len() == 0 {
        assert(a + b =~= a);
        assert(structs_of(a) + structs_of(b) =~= structs_of(a));
    } else {
        assert((a + b).drop_last() =~= a + b.drop_last());
        law_definitions_are_collected_in_order(a, b.drop_last());
        assert(structs_of(a + b) =~= structs_of(a) + structs_of(b));
    }
}

/// A struct definition is collected whatever its name, its file and its members
/// are, with all of them. No other definition is.
pub proof fn law_a_definition_is_collected_as_it_is(def: StructDefinition)
    ensures
        structs_of(seq![Definition::Other]).len() == 0,
        structs_of(seq![Definition::Struct(def)]).len() == 1,
        ({
            let s = structs_of(seq![Definition::Struct(def)])[0];
            &&& s.name == def.name@
            &&& s.file_id == def.file_id@
            &&& s.members.len() == def.members@.len()
            &&& forall|i: int|
                0 <= i < def.members@.len() ==> {
                    &&& (#[trigger] s.members[i]).name == def.members@[i].name@
                    &&& match def.members@[i].ty {
                        Some(ty) => s.members[i].encoded_type == encoded(ty),
                        None => s.members[i].encoded_type is None,
                    }
                }
        }),
{
    reveal_with_fuel(Seq::filter_map, 2);
    assert(seq![Definition::Other].drop_last() =~= Seq::<Definition>::empty());
    assert(seq![Definition::Struct(def)].drop_last() =~= Seq::<Definition>::empty());
}

/// Every struct definition of a unit is among the collected structs, and there are
/// as many of these as there are struct definitions.
pub proof fn law_every_struct_is_collected(definitions: Seq<Definition>, i: int)
    requires
        0 <= i < definitions.len(),
    ensures
        definitions[i] matches Definition::Struct(def) ==> {
            &&& struct_names(structs_of(definitions)).contains(def.name@)
            &&& exists|k: int|
                {
                    &&& 0 <= k < structs_of(definitions).len()
                    &&& (#[trigger] structs_of(definitions)[k]).name == def.name@
                    &&& structs_of(definitions)[k].file_id == def.file_id@
                    &&& structs_of(definitions)[k].members.len() == def.members@.len()
                }
            &&& !(collection_of(structs_of(definitions)).lookup(def.name@) matches Err(error)
                && error is NotFound)
        },
        structs_of(definitions).len() == definitions.filter(|d: Definition| d is Struct).len(),
{
    if let Definition::Struct(def) = definitions[i] {
        let front = definitions.take(i);
        let one = seq![definitions[i]];
        let back = definitions.skip(i + 1);
        assert(definitions =~= front + (one + back));
        law_definitions_are_collected_in_order(front, one + back);
        law_definitions_are_collected_in_order(one, back);
        law_a_definition_is_collected_as_it_is(def);
        let all = structs_of(definitions);
        let k = structs_of(front).len() as int;
        assert(all[k] == structs_of(one)[0]);
        let names = all.map_values(|s: StructModel| s.name);
        assert(names[k] == def.name@);
        assert(names.contains(def.name@));
        law_every_struct_is_a_type_or_rejected(all, def.name@);
    }
    lemma_struct_count(definitions);
}

proof fn lemma_struct_count(definitions: Seq<Definition>)
    ensures
        structs_of(definitions).len() == definitions.filter(|d: Definition| d is Struct).len(),
    decreases definitions.len(),
{
    reveal(Seq::filter);
    reveal_with_fuel(Seq::filter_map, 2);
    if definitions.len() > 0 {
        lemma_struct_count(definitions.drop_last());
    }
}

/// A collected struct is seen with its own name, file and members.
pub proof fn law_structs_are_seen_as_they_are(v: Seq<CollectedStruct>, k: int, i: int)
    requires
        0 <= k < v.len(),
        0 <= i < v[k].members@.len(),
    ensures
        models(v).len() == v.len(),
        models(v)[k].name == v[k].name@,
        models(v)[k].file_id == v[k].file_id@,
        models(v)[k].members.len() == v[k].members@.len(),
        models(v)[k].members[i].name == v[k].members@[i].name@,
        match v[k].members@[i].encoded_type {
            Some(ty) => models(v)[k].members[i].encoded_type == Some(ty@),
            None => models(v)[k].members[i].encoded_type is None,
        },
{
}

/// An encodable struct is seen with its own name, file and members.
pub proof fn law_encodable_structs_are_seen_as_they_are(s: EncodableStruct, i: int)
    requires
        0 <= i < s.members@.len(),
    ensures
        s@.name == s.name@,
        s@.file_id == s.file_id@,
        s@.members.len() == s.members@.len(),
        s@.members[i].name == s.members@[i].name@,
        s@.members[i].encoded_type == Some(s.members@[i].encoded_type@),
        s@.encodable(),
{
}

// Structs.

/// A struct with one more member.
pub open spec fn with_member(s: StructModel, m: MemberModel) -> StructModel {
    StructModel { members: s.members.push(m), ..s }
}

/// The head of a struct lists its members in order, each with its type, a space
/// and its name, with commas between them.
pub proof fn law_heads_list_the_members(s: StructModel, name: Seq<char>, ty: Seq<char>)
    requires
        s.encodable(),
    ensures
        s.members.len() == 0 ==> s.head().text() == s.name + seq!['(', ')'],
        ({
            let more = with_member(s, MemberModel { name, encoded_type: Some(ty) });
            let text = s.head().text();
            &&& text.len() > 0 && text.last() == ')'
            &&& more.encodable()
            &&& s.members.len() == 0 ==> more.head().text() == text.drop_last() + ty + seq![' ']
                + name + seq![')']
            &&& s.members.len() > 0 ==> more.head().text() == text.drop_last() + seq![','] + ty
                + seq![' '] + name + seq![')']
        }),
{
    lemma_fingerprint_grows(s, MemberModel { name, encoded_type: Some(ty) });
    let more = with_member(s, MemberModel { name, encoded_type: Some(ty) });
    assert forall|i: int| 0 <= i < more.members.len() implies (
    #[trigger] more.members[i]).encoded_type is Some by {
        if i < s.members.len() {
            assert(more.members[i] == s.members[i]);
        }
    }
    law_fingerprint_is_the_head(s);
    law_fingerprint_is_the_head(more);
}

/// A fingerprint lists the members in order, with a word of its own for the type
/// of one that is not encodable.
pub proof fn law_fingerprints_list_the_members(s: StructModel, m: MemberModel)
    ensures
        s.members.len() == 0 ==> s.fingerprint() == s.name + seq!['(', ')'],
        ({
            let more = with_member(s, m).fingerprint();
            let text = s.fingerprint();
            let ty = match m.encoded_type {
                Some(ty) => ty,
                None => "<unsupported>"@,
            };
            &&& text.len() > 0 && text.last() == ')'
            &&& s.members.len() == 0 ==> more == text.drop_last() + ty + seq![' '] + m.name + seq![
                ')',
            ]
            &&& s.members.len() > 0 ==> more == text.drop_last() + seq![','] + ty + seq![' ']
                + m.name + seq![')']
        }),
{
    lemma_fingerprint_grows(s, m);
}

proof fn lemma_fingerprint_grows(s: StructModel, m: MemberModel)
    ensures
        s.members.len() == 0 ==> s.fingerprint() == s.name + seq!['(', ')'],
        s.fingerprint().len() > 0 && s.fingerprint().last() == ')',
        ({
            let more = with_member(s, m).fingerprint();
            let text = s.fingerprint();
            let ty = match m.encoded_type {
                Some(ty) => ty,
                None => "<unsupported>"@,
            };
            &&& s.members.len() == 0 ==> more == text.drop_last() + ty + seq![' '] + m.name + seq![
                ')',
            ]
            &&& s.members.len() > 0 ==> more == text.drop_last() + seq![','] + ty + seq![' ']
                + m.name + seq![')']
        }),
{
    reveal_strlit("(");
    reveal_strlit(")");
    reveal_strlit(",");
    reveal_strlit(" ");
    let parts = s.members.map_values(|m: MemberModel| m.text());
    let all = s.members.push(m).map_values(|m: MemberModel| m.text());
    assert(all =~= parts.push(m.text()));
    assert(all.drop_last() =~= parts);
    assert("("@ =~= seq!['(']);
    assert(","@ =~= seq![',']);
    assert(" "@ =~= seq![' ']);
    assert(")"@ =~= seq![')']);
    let ty = match m.encoded_type {
        Some(ty) => ty,
        None => "<unsupported>"@,
    };
    let text = s.fingerprint();
    let more = with_member(s, m).fingerprint();
    assert(m.text() =~= ty + seq![' '] + m.name);
    assert(text.drop_last() =~= s.name + seq!['('] + joined(parts, ","@));
    if s.members.len() == 0 {
        assert(text =~= s.name + seq!['(', ')']);
        assert(more =~= text.drop_last() + ty + seq![' '] + m.name + seq![')']);
    } else {
        assert(more =~= text.drop_last() + seq![','] + ty + seq![' '] + m.name + seq![')']);
    }
}

/// A struct is encodable if and only if all its members are. Those that are not
/// are listed by name, in order.
pub proof fn law_members_decide_encodability(s: StructModel, m: MemberModel)
    ensures
        s.members.len() == 0 ==> s.encodable() && s.non_encodable_members().len() == 0,
        with_member(s, m).encodable() <==> s.encodable() && m.encoded_type is Some,
        with_member(s, m).non_encodable_members() == (if m.encoded_type is None {
            s.non_encodable_members().push(m.name)
        } else {
            s.non_encodable_members()
        }),
{
    reveal_with_fuel(Seq::filter_map, 2);
    let more = with_member(s, m);
    assert(more.members.drop_last() =~= s.members);
    assert(more.members[s.members.len() as int] == m);
    assert(forall|i: int| 0 <= i < s.members.len() ==> more.members[i] == #[trigger] s.members[i]);
    if more.encodable() {
        assert forall|i: int| 0 <= i < s.members.len() implies (
        #[trigger] s.members[i]).encoded_type is Some by {
            assert(more.members[i].encoded_type is Some);
        }
    }
    assert(more.non_encodable_members() =~= (if m.encoded_type is None {
        s.non_encodable_members().push(m.name)
    } else {
        s.non_encodable_members()
    }));
}

/// A struct depends directly on the structs that its members are of, or are arrays
/// of, in order, but not on itself.
pub proof fn law_members_decide_dependencies(
    s: StructModel,
    m: MemberModel,
    names: Set<Seq<char>>,
)
    ensures
        s.members.len() == 0 ==> s.deps(names).len() == 0,
        m.encoded_type is None ==> with_member(s, m).deps(names) == s.deps(names),
        m.encoded_type matches Some(ty) ==> {
            forall|base: Seq<char>|
                base == ty.take(base.len() as int) && !base.contains('[') && (base.len() < ty.len()
                    ==> ty[base.len() as int] == '[') && base.len() <= ty.len()
                    ==> #[trigger] with_member(s, m).deps(names) == (if base != s.name
                    && names.contains(base) {
                    s.deps(names).push(base)
                } else {
                    s.deps(names)
                })
        },
{
    reveal_with_fuel(Seq::filter_map, 2);
    let more = with_member(s, m);
    assert(more.members.drop_last() =~= s.members);
    lemma_filter_map_same(
        s.members,
        |m: MemberModel| more.member_dep(m, names),
        |m: MemberModel| s.member_dep(m, names),
    );
    if let Some(ty) = m.encoded_type {
        let front = before(ty, '[');
        law_front_ends_at_the_first_separator(ty, '[');
        assert(more.deps(names) =~= (if front != s.name && names.contains(front) {
            s.deps(names).push(front)
        } else {
            s.deps(names)
        }));
        assert forall|base: Seq<char>|
            base == ty.take(base.len() as int) && !base.contains('[') && (base.len() < ty.len()
                ==> ty[base.len() as int] == '[') && base.len() <= ty.len() implies base
            == front by {
            if base.len() < front.len() {
                assert(front[base.len() as int] == ty[base.len() as int]);
                assert(front.contains('['));
            }
            if front.len() < base.len() {
                assert(base[front.len() as int] == ty[front.len() as int]);
                assert(base.contains('['));
            }
            assert(base =~= front);
        }
    } else {
        assert(more.deps(names) =~= s.deps(names));
    }
}

proof fn lemma_filter_map_same(
    members: Seq<MemberModel>,
    f: spec_fn(MemberModel) -> Option<Seq<char>>,
    g: spec_fn(MemberModel) -> Option<Seq<char>>,
)
    requires
        forall|m: MemberModel| f(m) == #[trigger] g(m),
    ensures
        members.filter_map(f) == members.filter_map(g),
    decreases members.len(),
{
    if members.len() > 0 {
        lemma_filter_map_same(members.drop_last(), f, g);
        assert(f(members.last()) == g(members.last()));
    }
}

// Structs of the same name.

/// Of structs of the same name whose definitions agree, the first is kept.
pub proof fn law_the_first_definition_is_kept(all: Seq<StructModel>, name: Seq<char>) -> (i: int)
    requires
        unique_of(all).contains_key(name),
    ensures
        0 <= i < all.len(),
        all[i] == unique_of(all)[name],
        all[i].name == name,
        forall|j: int| 0 <= j < i ==> (#[trigger] all[j]).name != name,
{
    lemma_definitions(all, name);
    lemma_first_of_name(all, name)
}

proof fn lemma_first_of_name(all: Seq<StructModel>, name: Seq<char>) -> (i: int)
    requires
        definitions_of(all, name).len() > 0,
    ensures
        0 <= i < all.len(),
        all[i] == definitions_of(all, name)[0],
        all[i].name == name,
        forall|j: int| 0 <= j < i ==> (#[trigger] all[j]).name != name,
    decreases all.len(),
{
    reveal(Seq::filter);
    let rest = all.drop_last();
    if definitions_of(rest, name).len() > 0 {
        let i = lemma_first_of_name(rest, name);
        assert(definitions_of(all, name)[0] == definitions_of(rest, name)[0]);
        assert forall|j: int| 0 <= j < i implies (#[trigger] all[j]).name != name by {
            assert(rest[j] == all[j]);
        }
        i
    } else {
        lemma_definitions(rest, name);
        assert forall|j: int| 0 <= j < rest.len() implies (#[trigger] all[j]).name != name by {
            assert(rest[j] == all[j]);
            if rest[j].name == name {
                assert(definitions_of(rest, name).contains(rest[j]));
            }
        }
        all.len() - 1
    }
}

/// A conflict says the name, and the file of every definition, in order.
pub proof fn law_conflicts_list_all_files(all: Seq<StructModel>, name: Seq<char>, s: StructModel)
    requires
        duplicates_of(all).contains_key(name),
    ensures
        duplicates_of(all)[name] == (ReasonModel::Duplicate {
            name,
            file_ids: all.filter(|d: StructModel| d.name == name).map_values(
                |d: StructModel| d.file_id,
            ),
        }),
        duplicates_of(all.push(s)).contains_key(name),
        duplicates_of(all)[name] matches ReasonModel::Duplicate { name: n, file_ids } && n == name
            && duplicates_of(all.push(s))[name] == (ReasonModel::Duplicate {
            name,
            file_ids: if s.name == name {
                file_ids.push(s.file_id)
            } else {
                file_ids
            },
        }),
{
    let pred = |d: StructModel| d.name == name;
    all.lemma_filter_push(s, pred);
    let found = definitions_of(all, name);
    let more = definitions_of(all.push(s), name);
    let k = choose|k: int|
        0 <= k < found.len() && (#[trigger] found[k]).fingerprint() != found[0].fingerprint();
    assert(more[k] == found[k] && more[0] == found[0]);
    assert(more.map_values(|d: StructModel| d.file_id) =~= (if s.name == name {
        found.map_values(|d: StructModel| d.file_id).push(s.file_id)
    } else {
        found.map_values(|d: StructModel| d.file_id)
    }));
}

/// The names of structs are those that one of them has.
pub proof fn law_names_of_structs(all: Seq<StructModel>, name: Seq<char>)
    ensures
        struct_names(all).contains(name) <==> exists|i: int|
            0 <= i < all.len() && (#[trigger] all[i]).name == name,
{
    let names = all.map_values(|s: StructModel| s.name);
    if struct_names(all).contains(name) {
        let i = names.index_of(name);
        assert(names.contains(name));
        assert(all[i].name == name);
    }
    if exists|i: int| 0 <= i < all.len() && (#[trigger] all[i]).name == name {
        let i = choose|i: int| 0 <= i < all.len() && (#[trigger] all[i]).name == name;
        assert(names[i] == name);
    }
}

// Dependencies.

/// What is reached from a struct is closed: what the struct or a reached one
/// depends on directly is reached. And it is no more than needed: each reached
/// struct is one that the struct or a reached one depends on directly.
pub proof fn law_reached_structs_are_closed(
    structs: Map<Seq<char>, StructModel>,
    names: Set<Seq<char>>,
    root: StructModel,
    a: Seq<char>,
    b: Seq<char>,
)
    ensures
        !reached(structs, names, root).contains(root.name),
        root.deps(names).contains(b) && b != root.name ==> reached(structs, names, root).contains(
            b,
        ),
        reached(structs, names, root).contains(a) && structs.contains_key(a)
            && structs[a].deps(names).contains(b) && b != root.name ==> reached(
            structs,
            names,
            root,
        ).contains(b),
        reached(structs, names, root).contains(b) ==> root.deps(names).contains(b) || exists|
            from: Seq<char>,
        |
            reached(structs, names, root).contains(from) && structs.contains_key(from)
                && #[trigger] structs[from].deps(names).contains(b),
{
    let all = structs.insert(root.name, root);
    lemma_reached_step(structs, names, root, root.name);
    if reached(structs, names, root).contains(a) && structs.contains_key(a) {
        lemma_reached_step(structs, names, root, a);
        assert(all[a] == structs[a]);
    }
    if reached(structs, names, root).contains(b) {
        let chain = choose|chain: Seq<Seq<char>>| #[trigger]
            is_dep_chain(all, names, chain) && chain[0] == root.name && chain.last() == b;
        let k = chain.len() - 2;
        assert(chain.len() > 1);
        let from = chain[k];
        assert(all.contains_key(chain[k]) && all[chain[k]].deps(names).contains(chain[k + 1]));
        if from != root.name {
            let front = chain.take(k + 1);
            assert forall|i: int| 0 <= i < front.len() - 1 implies all.contains_key(
                #[trigger] front[i],
            ) && all[front[i]].deps(names).contains(front[i + 1]) by {
                assert(front[i] == chain[i] && front[i + 1] == chain[i + 1]);
            }
            assert(is_dep_chain(all, names, front) && front[0] == root.name && front.last()
                == from);
            assert(structs[from].deps(names).contains(b));
        }
    }
}

/// Whether a member of the struct `a` is of the struct `b`, or of an array of it.
pub open spec fn has_member_of(
    structs: Map<Seq<char>, StructModel>,
    a: Seq<char>,
    b: Seq<char>,
) -> bool {
    exists|i: int|
        0 <= i < structs[a].members.len() && before(
            (#[trigger] structs[a].members[i]).encoded_type->0,
            '[',
        ) == b
}

/// The dependencies of a struct are closed: what the struct or one of them refers
/// to is one of them. And they are no more than needed: each is referred to by the
/// struct or by one of them.
pub proof fn law_dependencies_are_closed(
    structs: Map<Seq<char>, StructModel>,
    root: Seq<char>,
    a: Seq<char>,
    b: Seq<char>,
)
    requires
        structs.contains_key(root),
    ensures
        !dependencies(structs, root).contains(root),
        structs.contains_key(b) && b != root && has_member_of(structs, a, b) && (a == root
            || dependencies(structs, root).contains(a)) ==> dependencies(structs, root).contains(b),
        dependencies(structs, root).contains(b) ==> structs.contains_key(b) && exists|from: Seq<
            char,
        >|
            (from == root || dependencies(structs, root).contains(from))
                && #[trigger] has_member_of(structs, from, b),
{
    if dependencies(structs, root).contains(a) {
        lemma_leads_to_a_struct(structs, root, a);
    }
    if structs.contains_key(b) && b != root && has_member_of(structs, a, b) && (a == root
        || dependencies(structs, root).contains(a)) {
        let i = choose|i: int|
            0 <= i < structs[a].members.len() && before(
                (#[trigger] structs[a].members[i]).encoded_type->0,
                '[',
            ) == b;
        assert(before(structs[a].head().members[i].0, '[') == b);
        assert(refers(structs, a, b));
        lemma_part_step(structs, root, a, b);
    }
    if dependencies(structs, root).contains(b) {
        lemma_leads_to_a_struct(structs, root, b);
        let chain = choose|chain: Seq<Seq<char>>|
            #[trigger] is_chain(structs, chain) && chain[0] == root && chain.last() == b;
        let k = chain.len() - 2;
        let from = chain[k];
        assert(refers(structs, chain[k], chain[k + 1]));
        lemma_chain_is_part(structs, root, chain, k);
        let i = choose|i: int|
            0 <= i < structs[from].head().members.len() && before(
                (#[trigger] structs[from].head().members[i]).0,
                '[',
            ) == b;
        assert(before(structs[from].members[i].encoded_type->0, '[') == b);
        assert(has_member_of(structs, from, b));
    }
}

/// The heads of dependencies are sorted, and there is one for each dependency.
pub proof fn law_there_is_a_head_for_each_dependency(
    structs: Map<Seq<char>, StructModel>,
    root: Seq<char>,
    text: Seq<char>,
)
    requires
        structs.dom().finite(),
    ensures
        sorted_by(dependency_heads(structs, root), lex_order()),
        dependency_heads(structs, root).len() == dependencies(structs, root).len(),
        dependency_heads(structs, root).contains(text) <==> exists|name: Seq<char>| #[trigger]
            dependencies(structs, root).contains(name) && structs[name].head().text() == text,
{
    broadcast use vstd::seq_lib::group_to_multiset_ensures;

    let deps = dependencies(structs, root);
    let head_of = |name: Seq<char>| structs[name].head().text();
    let unsorted = deps.to_seq().map_values(head_of);
    let sorted = dependency_heads(structs, root);
    lemma_dependencies_are_finite(structs, root);
    deps.lemma_to_seq_to_set_id();
    lemma_to_seq_has_no_duplicates(deps);
    deps.to_seq().unique_seq_to_set();
    law_lex_order_is_total();
    unsorted.lemma_sort_by_ensures(lex_order());
    assert(unsorted.to_multiset().len() == unsorted.len());
    assert(sorted.to_multiset().len() == sorted.len());
    if sorted.contains(text) {
        assert(unsorted.contains(text));
        let k = unsorted.index_of(text);
        let name = deps.to_seq()[k];
        assert(deps.to_seq().contains(name));
        assert(deps.to_seq().to_set().contains(name));
    }
    if exists|name: Seq<char>| #[trigger]
        deps.contains(name) && structs[name].head().text() == text {
        let name = choose|name: Seq<char>| #[trigger]
            deps.contains(name) && structs[name].head().text() == text;
        assert(deps.to_seq().to_set().contains(name));
        let k = deps.to_seq().index_of(name);
        assert(unsorted[k] == text);
        assert(unsorted.contains(text));
        assert(unsorted.to_multiset().count(text) > 0);
    }
}

/// A canonical text begins with the head of its struct. Behind it stand the heads
/// of its dependencies, and it is as long as these together.
pub proof fn law_canonical_texts_consist_of_heads(
    structs: Map<Seq<char>, StructModel>,
    root: Seq<char>,
)
    ensures
        structs[root].head().text().is_prefix_of(canonical_text(structs, root)),
        canonical_text(structs, root).skip(structs[root].head().text().len() as int)
            == dependency_heads(structs, root).flatten(),
{
    let head = structs[root].head().text();
    let rest = dependency_heads(structs, root).flatten();
    assert((head + rest).skip(head.len() as int) =~= rest);
}

/// Whether a text is a name in which colons may separate namespaces: it begins with
/// a letter, and goes on with letters, digits and colons.
pub open spec fn is_namespaced(s: Seq<char>) -> bool {
    &&& s.len() > 0
    &&& is_letter(s[0])
    &&& forall|i: int|
        0 <= i < s.len() ==> is_letter(#[trigger] s[i]) || is_decimal_digit(s[i]) || s[i] as int
            == 58
}

/// A namespaced name can name a type, and so can one with a dot behind it and
/// another one, or nothing, behind the dot. Without a dot, nothing else can.
pub proof fn law_type_names(a: Seq<char>, b: Seq<char>)
    requires
        !a.contains('.'),
    ensures
        is_type_name(a) <==> is_namespaced(a),
        is_type_name(a + seq!['.'] + b) <==> is_namespaced(a) && (b.len() == 0 || is_namespaced(b)),
{
    assert(forall|s: Seq<char>| #[trigger] is_namespaced(s) <==> is_eip712_identifier(s)) by {
        assert forall|s: Seq<char>| #[trigger] is_namespaced(s) <==> is_eip712_identifier(s) by {
            if is_eip712_identifier(s) {
                assert forall|i: int| 0 <= i < s.len() implies is_letter(#[trigger] s[i])
                    || is_decimal_digit(s[i]) || s[i] as int == 58 by {
                    assert(is_id_continue(s[i]) || s[i] == ':');
                }
            }
            if is_namespaced(s) {
                assert forall|i: int| 0 <= i < s.len() implies is_id_continue(#[trigger] s[i])
                    || s[i] == ':' by {
                    assert(is_letter(s[i]) || is_decimal_digit(s[i]) || s[i] as int == 58);
                }
            }
        }
    }
    law_front_ends_at_the_first_separator(a, '.');
    assert(a.skip(a.len() as int).len() == 0);
    let all = a + seq!['.'] + b;
    law_front_ends_at_the_first_separator(all, '.');
    let front = before(all, '.');
    if front.len() < a.len() {
        assert(all[front.len() as int] == a[front.len() as int]);
        assert(a.contains('.'));
    }
    if front.len() > a.len() {
        assert(front[a.len() as int] == all[a.len() as int]);
        assert(front.contains('.'));
    }
    assert(front =~= a);
    assert(all.skip(a.len() as int).skip(1) =~= b);
}

/// The name of a component is what stands in front of its first parenthesis,
/// without the white space around it.
pub proof fn law_component_names(
    front: Seq<char>,
    name: Seq<char>,
    back: Seq<char>,
    rest: Seq<char>,
)
    requires
        forall|i: int| 0 <= i < front.len() ==> is_white_space(#[trigger] front[i]),
        forall|i: int| 0 <= i < back.len() ==> is_white_space(#[trigger] back[i]),
        name.len() > 0 ==> !is_white_space(name[0]) && !is_white_space(name.last()),
        !name.contains('('),
    ensures
        component_name(front + name + back + seq!['('] + rest) == name,
{
    let title = front + name + back;
    let all = title + seq!['('] + rest;
    law_front_ends_at_the_first_separator(all, '(');
    let found = before(all, '(');
    assert forall|i: int| 0 <= i < title.len() implies title[i] != '(' by {
        if i < front.len() {
            assert(title[i] == front[i]);
        } else if i < front.len() + name.len() {
            assert(title[i] == name[i - front.len()]);
            assert(name.contains(name[i - front.len()]));
        } else {
            assert(title[i] == back[i - front.len() - name.len()]);
        }
    }
    if found.len() < title.len() {
        assert(all[found.len() as int] == title[found.len() as int]);
    }
    if found.len() > title.len() {
        assert(found[title.len() as int] == all[title.len() as int]);
        assert(found.contains('('));
    }
    assert(found =~= title);
    law_trimming_takes_white_space_away(front, name, back);
}

// Parsing.

/// Parsing fails with the reason that reading gave, or because nothing was read,
/// or with the reason that canonicalizing gave, or because what came out is not
/// its own canonical definition. Else it gives the canonical definition, under the
/// name in front of its first parenthesis.
pub proof fn law_parsing(input: Seq<char>)
    ensures
        match encode_type_components(input) {
            Err(reason) => parsed(input) == Err::<TypeDefModel, ErrorModel>(
                ErrorModel::Parse { input, reason },
            ),
            Ok(components) => if components.len() == 0 {
                parsed(input) matches Err(ErrorModel::Parse { input: i, reason }) && i == input
                    && reason == "no parseable type definition found"@
            } else {
                match canonical_encode_type(input) {
                    Err(reason) => parsed(input) == Err::<TypeDefModel, ErrorModel>(
                        ErrorModel::Canonicalize { input, reason },
                    ),
                    Ok(c) => if canonical_encode_type(c) == Ok::<Seq<char>, Seq<char>>(c)
                        && encode_type_components(c) is Ok && encode_type_components(c)->Ok_0.len()
                        > 0 && parseable(c) {
                        parsed(input) matches Ok(def) && def.canonical_definition == c
                            && !def.name.contains('(') && def.name.is_prefix_of(c) && (
                        def.name.len() < c.len() ==> c[def.name.len() as int] == '(')
                    } else {
                        parsed(input) matches Err(ErrorModel::Canonicalize { input: i, reason })
                            && i == input
                    },
                }
            },
        },
{
    if let Ok(c) = canonical_encode_type(input) {
        law_front_ends_at_the_first_separator(c, '(');
    }
}

/// A text can be parsed if and only if each component that is found in it has a
/// name that can name a type.
pub proof fn law_parseable_texts(input: Seq<char>)
    ensures
        parseable(input) <==> (encode_type_components(input) matches Ok(components) ==> forall|
            i: int,
        |
            0 <= i < components.len() ==> is_type_name(
                component_name((#[trigger] components[i]).0),
            )),
{
}

// Errors.

/// What errors of parsing say.
pub proof fn law_parse_errors_say_what_failed(error: Eip712Error)
    ensures
        match error {
            Eip712Error::Parse { input, reason } => error@.message()
                == "failed to parse EIP-712 canonical type "@ + input@ + ": "@ + reason@,
            Eip712Error::Canonicalize { input, reason } => error@.message()
                == "failed to canonicalize EIP-712 type "@ + input@ + ": "@ + reason@,
            Eip712Error::DuplicateTypeDef { name } => error@.message()
                == "duplicate EIP-712 type definition "@ + name@,
        },
{
}

/// What errors of looking up a type say.
pub proof fn law_lookup_errors_say_the_name(error: LookupError)
    ensures
        match error {
            LookupError::NotFound(name) => error@.message() == "EIP-712 type '"@ + name@
                + "' not found in the test contract's sources"@,
            LookupError::Rejected { name, reason } => error@.message() == "EIP-712 type '"@ + name@
                + "' cannot be used: "@ + reason@,
        },
{
}

/// What errors of collecting say: that of the version as it is, or the path and why
/// it could not be read.
pub proof fn law_collect_errors_say_what_failed(error: CollectError)
    ensures
        match error {
            CollectError::InvalidSolcVersion(FromSemverError::UnsupportedVersion { message })
                => error@.message() == message@,
            CollectError::InvalidSolcVersion(FromSemverError::Other { message })
                => error@.message() == message@,
            CollectError::RootFileNotFound { path, reason } => error@.message()
                == "could not read EIP-712 root source "@ + path@ + ": "@ + reason@,
        },
{
}

/// Reasons are seen as they are.
pub proof fn law_rejections_are_seen_as_they_are(reason: RejectReason)
    ensures
        match reason {
            RejectReason::Duplicate { name, file_ids } => reason@ == (ReasonModel::Duplicate {
                name: name@,
                file_ids: texts(file_ids@),
            }),
            RejectReason::NonEncodableMembers { members } => reason@
                == (ReasonModel::NonEncodableMembers { members: texts(members@) }),
        },
{
}

/// A conflict says the name and all files, with commas between them.
pub proof fn law_conflicts_say_all_files(
    name: Seq<char>,
    first: Seq<char>,
    items: Seq<Seq<char>>,
    item: Seq<char>,
)
    requires
        items.len() > 0,
    ensures
        (ReasonModel::Duplicate { name, file_ids: seq![first] }).message()
            == "Conflicting definitions of struct '"@ + name + "' in: "@ + first,
        (ReasonModel::Duplicate { name, file_ids: items.push(item) }).message() == (
        ReasonModel::Duplicate { name, file_ids: items }).message() + ", "@ + item,
{
    let some = (ReasonModel::Duplicate { name, file_ids: items }).message();
    let front = "Conflicting definitions of struct '"@ + name + "' in: "@;
    law_joining_puts_separators_between(items, seq![item], first, ", "@);
    law_joining_puts_separators_between(items, seq![item], item, ", "@);
    assert(items + seq![item] =~= items.push(item));
    assert((front + (joined(items, ", "@) + ", "@ + item)) =~= (front + joined(items, ", "@))
        + ", "@ + item);
}

/// A struct with members that are not encodable says all of them, with commas
/// between them, and speaks of one as of one.
pub proof fn law_rejections_say_all_members(
    first: Seq<char>,
    items: Seq<Seq<char>>,
    item: Seq<char>,
)
    requires
        items.len() > 0,
    ensures
        (ReasonModel::NonEncodableMembers { members: seq![first] }).message()
            == "Struct has non-encodable "@ + "member"@ + ": '"@ + first + "'"@,
        (ReasonModel::NonEncodableMembers { members: items.push(item) }).message()
            == "Struct has non-encodable "@ + "members"@ + ": '"@ + (joined(items, ", "@) + ", "@
            + item) + "'"@,
{
    law_joining_puts_separators_between(items, seq![item], first, ", "@);
    law_joining_puts_separators_between(items, seq![item], item, ", "@);
    assert(items + seq![item] =~= items.push(item));
}

// Collections.

/// Looking up a name gives the type of that name, or else why it is rejected, or
/// else that there is none.
pub proof fn law_lookups(collection: CollectionModel, name: Seq<char>)
    ensures
        collection.types.contains_key(name) ==> collection.lookup(name) == Ok::<
            TypeDefModel,
            LookupModel,
        >(collection.types[name]),
        !collection.types.contains_key(name) && collection.rejected.contains_key(name)
            ==> collection.lookup(name) == Err::<TypeDefModel, LookupModel>(
            LookupModel::Rejected { name, reason: collection.rejected[name] },
        ),
        !collection.types.contains_key(name) && !collection.rejected.contains_key(name)
            ==> collection.lookup(name) == Err::<TypeDefModel, LookupModel>(
            LookupModel::NotFound(name),
        ),
        CollectionModel::empty().lookup(name) == Err::<TypeDefModel, LookupModel>(
            LookupModel::NotFound(name),
        ),
{
}

/// A recorded outcome is a type if it is a definition with the struct's name and
/// text, and else a rejection. What was recorded of other structs stays.
pub proof fn law_recorded_outcomes(
    collection: CollectionModel,
    name: Seq<char>,
    text: Seq<char>,
    outcome: Result<TypeDefModel, ErrorModel>,
    other: Seq<char>,
)
    requires
        !collection.types.contains_key(name),
    ensures
        match outcome {
            Ok(def) => if def.name == name && def.canonical_definition == text {
                collection.with_outcome(name, text, outcome).lookup(name) == Ok::<
                    TypeDefModel,
                    LookupModel,
                >(def)
            } else {
                collection.with_outcome(name, text, outcome).lookup(name) == Err::<
                    TypeDefModel,
                    LookupModel,
                >(
                    LookupModel::Rejected {
                        name,
                        reason: "failed to canonicalize: "@ + (text + " is not in canonical form"@),
                    },
                )
            },
            Err(error) => collection.with_outcome(name, text, outcome).lookup(name) == Err::<
                TypeDefModel,
                LookupModel,
            >(
                LookupModel::Rejected {
                    name,
                    reason: "failed to canonicalize: "@ + error.message(),
                },
            ),
        },
        other != name ==> collection.with_outcome(name, text, outcome).lookup(other)
            == collection.lookup(other),
{
}

/// A usable struct is a type if parsing its canonical text gives that text under
/// the struct's name. Else it is rejected, and the reason says what parsing said,
/// or shows the text.
pub proof fn law_usable_structs_are_parsed(all: Seq<StructModel>, name: Seq<char>)
    requires
        usable_structs(all).contains_key(name),
    ensures
        ({
            let text = canonical_text(usable_structs(all), name);
            match parsed(text) {
                Ok(def) => if def.name == name && def.canonical_definition == text {
                    collection_of(all).lookup(name) == Ok::<TypeDefModel, LookupModel>(def)
                } else {
                    collection_of(all).lookup(name) == Err::<TypeDefModel, LookupModel>(
                        LookupModel::Rejected {
                            name,
                            reason: "failed to canonicalize: "@ + text
                                + " is not in canonical form"@,
                        },
                    )
                },
                Err(error) => collection_of(all).lookup(name) == Err::<TypeDefModel, LookupModel>(
                    LookupModel::Rejected {
                        name,
                        reason: "failed to canonicalize: "@ + error.message(),
                    },
                ),
            }
        }),
{
    let text = canonical_text(usable_structs(all), name);
    assert("failed to canonicalize: "@ + text + " is not in canonical form"@
        =~= "failed to canonicalize: "@ + (text + " is not in canonical form"@));
}

/// A struct is usable if its definitions agree and no chain of dependencies leads
/// from it to one with conflicting definitions or a member that is not encodable.
/// What is used of it is its first definition.
pub proof fn law_usable_structs(all: Seq<StructModel>, name: Seq<char>)
    requires
        struct_names(all).contains(name),
    ensures
        usable_structs(all).contains_key(name) <==> !exists|chain: Seq<Seq<char>>| #[trigger]
            is_dep_chain(unique_of(all), struct_names(all), chain) && chain[0] == name && (
            duplicates_of(all).contains_key(chain.last()) || (unique_of(all).contains_key(
                chain.last(),
            ) && !unique_of(all)[chain.last()].encodable())),
        usable_structs(all).contains_key(name) ==> unique_of(all).contains_key(name)
            && usable_structs(all)[name] == unique_of(all)[name],
{
    lemma_unique_is_finite(all);
    law_every_name_is_unique_or_duplicate(all, name);
    law_rejection_propagates_to_dependents(
        unique_of(all),
        struct_names(all),
        duplicates_of(all),
        name,
    );
}

// Sources.

/// A source file that was not collected has no types, and the message shows it.
/// Without source files there is none that was.
pub proof fn law_other_sources_have_no_types(
    by_source: Map<Seq<char>, Result<CollectionModel, Seq<char>>>,
    source: SourceName,
    name: Seq<char>,
)
    ensures
        !by_source.contains_key(source.key@) ==> scoped_lookup(by_source, source, name) == Err::<
            TypeDefModel,
            Seq<char>,
        >("no EIP-712 types were collected for source '"@ + source.display@ + "'"@),
        outcomes_by_source(Seq::empty()) == Map::<
            Seq<char>,
            Result<CollectionModel, Seq<char>>,
        >::empty(),
{
}

/// A path is relative if and only if its first segment is a dot or two dots, and a
/// slash follows, whatever comes behind. It then leads to the importer's
/// directory, whatever the map holds. Any other path leads where the map says, and
/// nowhere if it is not in the map.
pub proof fn law_imports(
    import_map: Map<Seq<char>, Seq<char>>,
    rest: Seq<char>,
    path: Seq<char>,
)
    ensures
        import_target(import_map, seq!['.', '/'] + rest) == Ok::<TargetModel, Seq<char>>(
            TargetModel::Relative,
        ),
        import_target(import_map, seq!['.', '.', '/'] + rest) == Ok::<TargetModel, Seq<char>>(
            TargetModel::Relative,
        ),
        is_relative(path) <==> (path.len() >= 2 && path[0] == '.' && path[1] == '/') || (path.len()
            >= 3 && path[0] == '.' && path[1] == '.' && path[2] == '/'),
        !((path.len() >= 2 && path[0] == '.' && path[1] == '/') || (path.len() >= 3 && path[0]
            == '.' && path[1] == '.' && path[2] == '/')) ==> import_target(import_map, path) == (
        if import_map.contains_key(path) {
            Ok::<TargetModel, Seq<char>>(TargetModel::Mapped(import_map[path]))
        } else {
            Err("import '"@ + path + "' not found in import mappings"@)
        }),
{
    reveal_strlit("./");
    reveal_strlit("../");
    lemma_relative(path);
    lemma_relative(seq!['.', '/'] + rest);
    lemma_relative(seq!['.', '.', '/'] + rest);
}

proof fn lemma_relative(path: Seq<char>)
    ensures
        is_relative(path) <==> (path.len() >= 2 && path[0] == '.' && path[1] == '/') || (path.len()
            >= 3 && path[0] == '.' && path[1] == '.' && path[2] == '/'),
{
    reveal_strlit("./");
    reveal_strlit("../");
    if path.len() >= 2 && path[0] == '.' && path[1] == '/' {
        assert("./"@ =~= path.take(2));
    }
    if path.len() >= 3 && path[0] == '.' && path[1] == '.' && path[2] == '/' {
        assert("../"@ =~= path.take(3));
    }
    if "./"@.is_prefix_of(path) {
        assert("./"@[0] == path[0] && "./"@[1] == path[1]);
    }
    if "../"@.is_prefix_of(path) {
        assert("../"@[0] == path[0] && "../"@[1] == path[1] && "../"@[2] == path[2]);
    }
}

/// Where an import leads is seen as it is.
pub proof fn law_targets_are_seen_as_they_are(target: ImportTarget)
    ensures
        match target {
            ImportTarget::Relative => target@ is Relative,
            ImportTarget::Mapped(path) => target@ == TargetModel::Mapped(path@),
        },
{
}

// Versions.

/// A version for which there is a grammar is kept, whatever it is. One for which
/// there is none becomes the latest if its numbers are behind those of the latest,
/// and stays unsupported if they are in front. Any other error stays.
pub proof fn law_versions(
    solc: Version,
    version: LanguageVersion,
    latest: LanguageVersion,
    message: String,
)
    ensures
        language_version_for(solc, Ok(version), latest) == Ok::<LanguageVersion, FromSemverError>(
            version,
        ),
        language_version_for(solc, Err(FromSemverError::Other { message }), latest) == Err::<
            LanguageVersion,
            FromSemverError,
        >(FromSemverError::Other { message }),
        solc.major > latest.major || (solc.major == latest.major && (solc.minor > latest.minor || (
        solc.minor == latest.minor && solc.patch > latest.patch))) ==> language_version_for(
            solc,
            Err(FromSemverError::UnsupportedVersion { message }),
            latest,
        ) == Ok::<LanguageVersion, FromSemverError>(latest),
        solc.major < latest.major || (solc.major == latest.major && (solc.minor < latest.minor || (
        solc.minor == latest.minor && solc.patch < latest.patch))) ==> language_version_for(
            solc,
            Err(FromSemverError::UnsupportedVersion { message }),
            latest,
        ) == Err::<LanguageVersion, FromSemverError>(
            FromSemverError::UnsupportedVersion { message },
        ),
        solc.major == latest.major && solc.minor == latest.minor && solc.patch == latest.patch
            ==> language_version_for(
            solc,
            Err(FromSemverError::UnsupportedVersion { message }),
            latest,
        ) == (if prerelease_text(solc.pre).len() == 0 && build_text(solc.build).len() > 0 {
            Ok::<LanguageVersion, FromSemverError>(latest)
        } else {
            Err(FromSemverError::UnsupportedVersion { message })
        }),
{
}

/// Where there are grammars for all versions from 0.8.0 to the latest, each of these
/// keeps its numbers.
pub proof fn law_supported_versions_keep_their_numbers(
    solc: Version,
    found: Result<LanguageVersion, FromSemverError>,
    latest: LanguageVersion,
)
    requires
        is_offer(found, solc, latest),
        solc.major == 0 && solc.minor == 8,
        latest.major == 0 && latest.minor == 8 && solc.patch <= latest.patch,
    ensures
        language_version_for(solc, found, latest) matches Ok(version) && version.major == 0
            && version.minor == 8 && version.patch == solc.patch,
{
}

/// A release has the numbers it is said to have, and nothing behind them.
pub proof fn law_releases(v: Version, major: u64, minor: u64, patch: u64)
    ensures
        is_release(v, major, minor, patch) <==> v.major == major && v.minor == minor && v.patch
            == patch && prerelease_text(v.pre).len() == 0 && build_text(v.build).len() == 0,
{
}

// Names in compilation units.

/// Definitions are well named if and only if each of them is.
pub proof fn law_definitions_are_named_one_by_one(a: Seq<Definition>, b: Seq<Definition>)
    ensures
        well_named(Seq::empty()),
        well_named(seq![Definition::Other]),
        well_named(a + b) <==> well_named(a) && well_named(b),
{
    let all = a + b;
    if well_named(all) {
        assert forall|i: int| 0 <= i < a.len() implies (#[trigger] a[i] matches Definition::Struct(
            def,
        ) ==> def.well_named()) by {
            assert(all[i] == a[i]);
        }
        assert forall|i: int| 0 <= i < b.len() implies (#[trigger] b[i] matches Definition::Struct(
            def,
        ) ==> def.well_named()) by {
            assert(all[a.len() + i] == b[i]);
        }
    }
    if well_named(a) && well_named(b) {
        assert forall|i: int| 0 <= i < all.len() implies (
        #[trigger] all[i] matches Definition::Struct(def) ==> def.well_named()) by {
            if i < a.len() {
                assert(all[i] == a[i]);
            } else {
                assert(all[i] == b[i - a.len()]);
            }
        }
    }
}

/// A struct is well named if and only if its name, the names of its members and
/// those of the structs that these are of are identifiers.
pub proof fn law_structs_are_named_by_identifiers(def: StructDefinition)
    ensures
        is_well_named(Definition::Struct(def)) <==> well_named(seq![Definition::Struct(def)]),
        is_well_named(Definition::Other),
        well_named(seq![Definition::Struct(def)]) <==> is_identifier(def.name@) && forall|i: int|
            0 <= i < def.members@.len() ==> is_identifier((#[trigger] def.members@[i]).name@) && (
            def.members@[i].ty matches Some(ty) ==> ty.well_named()),
{
    assert(seq![Definition::Struct(def)][0] == Definition::Struct(def));
}

/// A type is well named if and only if the struct that it is of, or is made of, is
/// named by an identifier.
pub proof fn law_types_are_named_by_identifiers(name: String, element: Type, size: usize)
    ensures
        Type::Struct(Some(name)).well_named() <==> is_identifier(name@),
        Type::Array(Box::new(element)).well_named() <==> element.well_named(),
        (Type::FixedSizeArray { element_type: Box::new(element), size }).well_named()
            <==> element.well_named(),
        Type::UserDefinedValue(Some(Box::new(element))).well_named() <==> element.well_named(),
        !(element is Struct) && !(element is Array) && !(element is FixedSizeArray) && !(
        element is UserDefinedValue) ==> element.well_named(),
        Type::Struct(None).well_named() && Type::UserDefinedValue(None).well_named(),
{
}

// Traces.

/// The value of the words of an integer, least significant first.
pub open spec fn words_value(words: Seq<u64>) -> int
    decreases words.len(),
{
    if words.len() == 0 {
        0
    } else {
        words[0] + 0x1_0000_0000_0000_0000 * words_value(words.drop_first())
    }
}

/// Integers keep their value, and are not negative.
pub proof fn law_integers_keep_their_value(v: U256, n: u64)
    ensures
        !big_of_u256(v).sign_bit,
        big_of_u256(v).words.len() == 4,
        forall|i: int| 0 <= i < 4 ==> #[trigger] big_of_u256(v).words[i] == v.limbs@[i],
        words_value(big_of_u256(v).words) == v.limbs@[0] + 0x1_0000_0000_0000_0000 * (v.limbs@[1]
            + 0x1_0000_0000_0000_0000 * (v.limbs@[2] + 0x1_0000_0000_0000_0000 * v.limbs@[3])),
        !big_of_u64(n).sign_bit,
        words_value(big_of_u64(n).words) == n,
{
    reveal_with_fuel(words_value, 5);
    let w = v.limbs@;
    assert(w.drop_first()[0] == w[1]);
    assert(w.drop_first().drop_first()[0] == w[2]);
    assert(w.drop_first().drop_first().drop_first()[0] == w[3]);
    assert(seq![n].drop_first().len() == 0);
}

/// What a message shows of a call.
pub proof fn law_messages_show_the_call(trace: CallTrace, m: TracingMessage)
    requires
        m@ == message_of(trace),
    ensures
        m.caller@ == trace.caller@,
        trace.kind is Create || trace.kind is Create2 ==> m.to is None && m.code_address is None,
        !(trace.kind is Create) && !(trace.kind is Create2) ==> (m.to matches Some(to) && to@
            == trace.address@) && (m.code_address matches Some(code) && code@ == trace.address@),
        !m.value.sign_bit && m.value.words@ == trace.value.limbs@,
        m.data@ == trace.data@,
        !m.gas_limit.sign_bit && m.gas_limit.words@ == seq![trace.gas_limit],
        m.is_static_call == (trace.kind is StaticCall),
{
}

/// What a step shows of an instruction: where it stands, the depth of its call, the
/// name of its opcode, the whole stack that was recorded, bottom first, and, in a
/// verbose trace, the memory.
pub proof fn law_steps_show_the_instruction(
    step: CallTraceStep,
    depth: usize,
    verbose: bool,
    s: TracingStep,
)
    requires
        s@ == step_of(step, depth, verbose),
    ensures
        s.pc as int == step.pc as int % 0x1_0000_0000,
        s.depth as int == depth as int % 0x1_0000_0000,
        s.opcode.name@ == opcode_name(step.op),
        match step.stack {
            Some(stack) => {
                &&& s.stack@.len() == stack@.len()
                &&& forall|i: int|
                    0 <= i < stack@.len() ==> !(#[trigger] s.stack@[i]).sign_bit
                        && s.stack@[i].words@ == stack@[i].limbs@
            },
            None => s.stack@.len() == 0,
        },
        match step.memory {
            Some(memory) => verbose ==> (s.memory matches Some(shown) && shown@ == memory@),
            None => s.memory is None,
        },
        !verbose ==> s.memory is None,
{
    let shown = big_ints(s.stack@);
    assert(shown.len() == s.stack@.len());
    if let Some(stack) = step.stack {
        assert forall|i: int| 0 <= i < stack@.len() implies !(#[trigger] s.stack@[i]).sign_bit
            && s.stack@[i].words@ == stack@[i].limbs@ by {
            assert(shown[i] == s.stack@[i]@);
            assert(shown[i] == big_of_u256(stack@[i]));
        }
    }
}

/// What a result shows of a call.
pub proof fn law_results_show_the_call(trace: CallTrace, r: TracingMessageResult)
    requires
        r@ == result_of(trace),
    ensures
        r.exec_result.success == trace.success,
        !r.exec_result.execution_gas_used.sign_bit,
        r.exec_result.execution_gas_used.words@ == seq![trace.gas_used],
        (trace.kind is Create || trace.kind is Create2) && trace.success ==> (
        r.exec_result.contract_address matches Some(address) && address@ == trace.address@),
        !((trace.kind is Create || trace.kind is Create2) && trace.success)
            ==> r.exec_result.contract_address is None,
        r.exec_result.output matches Some(output) && output@ == trace.output@,
        r.exec_result.reason == reason_of(trace.status),
{
}

/// The reason for the end of a call is that of the success or of the halt, and
/// there is none where a call reverted, failed outside of the EVM, or has no status.
pub proof fn law_reasons_for_the_end(
    success: SuccessReason,
    halt: HaltReason,
    outcome: SuccessOrHalt<HaltReason>,
    status: InstructionResult,
)
    ensures
        reason_of_outcome(SuccessOrHalt::Success(success)) == Some(ExitReason::Success(success)),
        reason_of_outcome(SuccessOrHalt::Halt(halt)) == Some(ExitReason::Halt(halt)),
        outcome is Revert || outcome is FatalExternalError || outcome is Internal
            ==> reason_of_outcome(outcome) is None,
        reason_of(None) is None,
        reason_of(Some(status)) == reason_of_outcome(outcome_of(status)),
{
}

/// Entries are seen as they are.
pub proof fn law_entries_are_seen_as_they_are(entries: Seq<TraceEntry>, i: int)
    requires
        0 <= i < entries.len(),
    ensures
        entry_models(entries).len() == entries.len(),
        match entries[i] {
            TraceEntry::Message(m) => entry_models(entries)[i] == EntryModel::Message(m@),
            TraceEntry::Step(s) => entry_models(entries)[i] == EntryModel::Step(s@),
            TraceEntry::Result(r) => entry_models(entries)[i] == EntryModel::Result(r@),
        },
{
}

/// What the `j`th thing that a call did adds to its flat trace: a step is one
/// entry, a call its whole flat trace, at whatever depth, and a log nothing.
pub open spec fn is_part_of_trace(
    arena: CallTraceArena,
    idx: int,
    verbose: bool,
    j: int,
    part: Seq<EntryModel>,
) -> bool {
    let node = arena.nodes@[idx];
    match node.ordering@[j] {
        TraceMemberOrder::Step(i) => part == seq![
            EntryModel::Step(step_of(node.trace.steps@[i as int], node.trace.depth, verbose)),
        ],
        TraceMemberOrder::Call(i) => part == arena.trace_of(
            node.children@[i as int] as int,
            verbose,
        ),
        TraceMemberOrder::Log(_) => part.len() == 0,
    }
}

/// The flat trace of a call holds everything that the call did, in order: between
/// its message and its result stand its steps and the whole flat traces of the
/// calls that it made, and nothing else.
pub proof fn law_traces_leave_nothing_out(
    arena: CallTraceArena,
    idx: int,
    verbose: bool,
) -> (parts: Seq<Seq<EntryModel>>)
    requires
        arena.walkable_from(idx),
    ensures
        parts.len() == arena.nodes@[idx].ordering@.len(),
        forall|j: int|
            0 <= j < parts.len() ==> is_part_of_trace(
                arena,
                idx,
                verbose,
                j,
                #[trigger] parts[j],
            ),
        arena.trace_of(idx, verbose) == seq![
            EntryModel::Message(message_of(arena.nodes@[idx].trace)),
        ] + parts.flatten() + seq![EntryModel::Result(result_of(arena.nodes@[idx].trace))],
{
    let nodes = arena.nodes@;
    let parts = member_traces(nodes, idx, verbose, nodes.len());
    let node = nodes[idx];
    assert forall|j: int| 0 <= j < parts.len() implies is_part_of_trace(
        arena,
        idx,
        verbose,
        j,
        #[trigger] parts[j],
    ) by {
        if let TraceMemberOrder::Call(i) = node.ordering@[j] {
            law_walkable_is_exact(
                arena,
                node.children@[i as int] as int,
                verbose,
                (nodes.len() - 1) as nat,
            );
        }
    }
    parts
}

/// How many entries of a kind a flat trace holds.
pub open spec fn count_of(t: Seq<EntryModel>, kind: spec_fn(EntryModel) -> bool) -> nat {
    t.filter(kind).len()
}

/// The sum of numbers.
pub open spec fn sum(n: Seq<nat>) -> nat
    decreases n.len(),
{
    if n.len() == 0 {
        0
    } else {
        sum(n.drop_last()) + n.last()
    }
}

/// A flat trace has one message more than the calls that the call made have
/// together, as many results as messages, and as many steps as the call executed
/// itself and those calls together.
pub proof fn law_traces_have_all_entries(arena: CallTraceArena, idx: int, verbose: bool)
    requires
        arena.walkable_from(idx),
    ensures
        ({
            let node = arena.nodes@[idx];
            let messages = |e: EntryModel| e is Message;
            let steps = |e: EntryModel| e is Step;
            let results = |e: EntryModel| e is Result;
            let t = arena.trace_of(idx, verbose);
            &&& count_of(t, messages) == 1 + sum(
                Seq::new(
                    node.ordering@.len(),
                    |j: int|
                        match node.ordering@[j] {
                            TraceMemberOrder::Call(i) => count_of(
                                arena.trace_of(node.children@[i as int] as int, verbose),
                                messages,
                            ),
                            _ => 0,
                        },
                ),
            )
            &&& count_of(t, results) == 1 + sum(
                Seq::new(
                    node.ordering@.len(),
                    |j: int|
                        match node.ordering@[j] {
                            TraceMemberOrder::Call(i) => count_of(
                                arena.trace_of(node.children@[i as int] as int, verbose),
                                results,
                            ),
                            _ => 0,
                        },
                ),
            )
            &&& count_of(t, steps) == sum(
                Seq::new(
                    node.ordering@.len(),
                    |j: int|
                        match node.ordering@[j] {
                            TraceMemberOrder::Call(i) => count_of(
                                arena.trace_of(node.children@[i as int] as int, verbose),
                                steps,
                            ),
                            TraceMemberOrder::Step(_) => 1,
                            TraceMemberOrder::Log(_) => 0,
                        },
                ),
            )
        }),
{
    let parts = law_traces_leave_nothing_out(arena, idx, verbose);
    lemma_count(arena, idx, verbose, parts, |e: EntryModel| e is Message, 0);
    lemma_count(arena, idx, verbose, parts, |e: EntryModel| e is Result, 0);
    lemma_count(arena, idx, verbose, parts, |e: EntryModel| e is Step, 1);
    let node = arena.nodes@[idx];
    let messages = |e: EntryModel| e is Message;
    let steps = |e: EntryModel| e is Step;
    let results = |e: EntryModel| e is Result;
    assert(Seq::new(
        node.ordering@.len(),
        |j: int|
            match node.ordering@[j] {
                TraceMemberOrder::Call(i) => count_of(
                    arena.trace_of(node.children@[i as int] as int, verbose),
                    messages,
                ),
                _ => 0,
            },
    ) =~= part_counts(arena, idx, verbose, messages, 0));
    assert(Seq::new(
        node.ordering@.len(),
        |j: int|
            match node.ordering@[j] {
                TraceMemberOrder::Call(i) => count_of(
                    arena.trace_of(node.children@[i as int] as int, verbose),
                    results,
                ),
                _ => 0,
            },
    ) =~= part_counts(arena, idx, verbose, results, 0));
    assert(Seq::new(
        node.ordering@.len(),
        |j: int|
            match node.ordering@[j] {
                TraceMemberOrder::Call(i) => count_of(
                    arena.trace_of(node.children@[i as int] as int, verbose),
                    steps,
                ),
                TraceMemberOrder::Step(_) => 1,
                TraceMemberOrder::Log(_) => 0,
            },
    ) =~= part_counts(arena, idx, verbose, steps, 1));
}

/// How many entries of a kind each thing that a call did adds, where `own` is how
/// many a step counts.
spec fn part_counts(
    arena: CallTraceArena,
    idx: int,
    verbose: bool,
    kind: spec_fn(EntryModel) -> bool,
    own: nat,
) -> Seq<nat> {
    let node = arena.nodes@[idx];
    Seq::new(
        node.ordering@.len(),
        |j: int|
            match node.ordering@[j] {
                TraceMemberOrder::Call(i) => count_of(
                    arena.trace_of(node.children@[i as int] as int, verbose),
                    kind,
                ),
                TraceMemberOrder::Step(_) => own,
                TraceMemberOrder::Log(_) => 0,
            },
    )
}

proof fn lemma_count(
    arena: CallTraceArena,
    idx: int,
    verbose: bool,
    parts: Seq<Seq<EntryModel>>,
    kind: spec_fn(EntryModel) -> bool,
    own: nat,
)
    requires
        parts.len() == arena.nodes@[idx].ordering@.len(),
        forall|j: int|
            0 <= j < parts.len() ==> is_part_of_trace(
                arena,
                idx,
                verbose,
                j,
                #[trigger] parts[j],
            ),
        arena.trace_of(idx, verbose) == seq![
            EntryModel::Message(message_of(arena.nodes@[idx].trace)),
        ] + parts.flatten() + seq![EntryModel::Result(result_of(arena.nodes@[idx].trace))],
        forall|s: StepModel| #[trigger] kind(EntryModel::Step(s)) == (own == 1),
        own <= 1,
    ensures
        count_of(arena.trace_of(idx, verbose), kind) == sum(
            part_counts(arena, idx, verbose, kind, own),
        ) + (if kind(EntryModel::Message(message_of(arena.nodes@[idx].trace))) {
            1int
        } else {
            0
        }) + (if kind(EntryModel::Result(result_of(arena.nodes@[idx].trace))) {
            1int
        } else {
            0
        }),
{
    let node = arena.nodes@[idx];
    let message = seq![EntryModel::Message(message_of(node.trace))];
    let result = seq![EntryModel::Result(result_of(node.trace))];
    let inner = parts.flatten();
    Seq::filter_distributes_over_add(message, inner, kind);
    Seq::filter_distributes_over_add(message + inner, result, kind);
    lemma_count_one(message[0], kind);
    lemma_count_one(result[0], kind);
    assert(message =~= seq![message[0]]);
    assert(result =~= seq![result[0]]);
    let counts = part_counts(arena, idx, verbose, kind, own);
    assert forall|j: int| 0 <= j < parts.len() implies count_of(#[trigger] parts[j], kind)
        == counts[j] by {
        assert(is_part_of_trace(arena, idx, verbose, j, parts[j]));
        match node.ordering@[j] {
            TraceMemberOrder::Step(i) => {
                lemma_count_one(parts[j][0], kind);
                assert(parts[j] =~= seq![parts[j][0]]);
            },
            TraceMemberOrder::Log(_) => {
                reveal(Seq::filter);
            },
            TraceMemberOrder::Call(_) => {},
        }
    }
    lemma_count_flatten(parts, counts, kind);
}

proof fn lemma_count_one(e: EntryModel, kind: spec_fn(EntryModel) -> bool)
    ensures
        count_of(seq![e], kind) == (if kind(e) {
            1int
        } else {
            0
        }),
{
    reveal(Seq::filter);
    assert(seq![e].drop_last().filter(kind).len() == 0);
}

proof fn lemma_count_flatten(
    parts: Seq<Seq<EntryModel>>,
    counts: Seq<nat>,
    kind: spec_fn(EntryModel) -> bool,
)
    requires
        parts.len() == counts.len(),
        forall|j: int| 0 <= j < parts.len() ==> count_of(#[trigger] parts[j], kind) == counts[j],
    ensures
        count_of(parts.flatten(), kind) == sum(counts),
    decreases parts.len(),
{
    if parts.len() == 0 {
        reveal(Seq::filter);
    } else {
        let rest = parts.drop_last();
        assert forall|j: int| 0 <= j < rest.len() implies count_of(#[trigger] rest[j], kind)
            == counts.drop_last()[j] by {
            assert(rest[j] == parts[j]);
        }
        lemma_count_flatten(rest, counts.drop_last(), kind);
        rest.lemma_flatten_push(parts.last());
        assert(rest.push(parts.last()) =~= parts);
        Seq::filter_distributes_over_add(rest.flatten(), parts.last(), kind);
        assert(parts.last() == parts[parts.len() - 1]);
    }
}

/// A call can be walked if and only if it is on record, the steps and calls that it
/// refers to are, and these calls can be walked.
pub proof fn law_walkable_calls(arena: CallTraceArena, idx: int)
    ensures
        arena.walkable_from(idx) <==> 0 <= idx < arena.nodes@.len() && forall|j: int|
            0 <= j < arena.nodes@[idx].ordering@.len() ==> match
            #[trigger] arena.nodes@[idx].ordering@[j] {
                TraceMemberOrder::Step(i) => i < arena.nodes@[idx].trace.steps@.len(),
                TraceMemberOrder::Call(i) => i < arena.nodes@[idx].children@.len()
                    && arena.walkable_from(arena.nodes@[idx].children@[i as int] as int),
                TraceMemberOrder::Log(_) => true,
            },
        arena.nodes@.len() == 0 ==> arena.walkable() && arena.flattened(true).len() == 0
            && arena.flattened(false).len() == 0,
        arena.nodes@.len() > 0 ==> (arena.walkable() <==> arena.walkable_from(0))
            && arena.flattened(true) == arena.trace_of(0, true) && arena.flattened(false)
            == arena.trace_of(0, false),
{
    let nodes = arena.nodes@;
    if arena.walkable_from(idx) {
        let node = nodes[idx];
        assert forall|j: int| 0 <= j < node.ordering@.len() implies match
        #[trigger] node.ordering@[j] {
            TraceMemberOrder::Step(i) => i < node.trace.steps@.len(),
            TraceMemberOrder::Call(i) => i < node.children@.len() && arena.walkable_from(
                node.children@[i as int] as int,
            ),
            TraceMemberOrder::Log(_) => true,
        } by {
            if let TraceMemberOrder::Call(i) = node.ordering@[j] {
                law_walkable_is_exact(
                    arena,
                    node.children@[i as int] as int,
                    true,
                    (nodes.len() - 1) as nat,
                );
            }
        }
    }
    if 0 <= idx < nodes.len() && forall|j: int|
        0 <= j < nodes[idx].ordering@.len() ==> match #[trigger] nodes[idx].ordering@[j] {
            TraceMemberOrder::Step(i) => i < nodes[idx].trace.steps@.len(),
            TraceMemberOrder::Call(i) => i < nodes[idx].children@.len() && arena.walkable_from(
                nodes[idx].children@[i as int] as int,
            ),
            TraceMemberOrder::Log(_) => true,
        } {
        assert(ends_within(nodes, idx, nodes.len() + 1));
        law_walkable_is_exact(arena, idx, true, nodes.len() + 1);
    }
}

} // verus!
