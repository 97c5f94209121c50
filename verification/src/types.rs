//! EIP-712 canonical type definitions, parsed and canonicalized by
//! `alloy_dyn_abi`.
use crate::heads::{
    HeadModel, canonical_form, canonicalizes, head_span, head_texts, heads_acyclic, heads_readable,
    heads_resolve, heads_text, heads_well_formed, in_canonical_order, is_canonicalizable,
    is_primary, lemma_canonical_form_begins, lemma_canonical_form_heads, lemma_canonical_order,
    lemma_more_heads_are_longer, lemma_texts_spell_heads, lemma_without_repeats, names_differ,
    spells_head, spells_heads, spells_member, without_repeats,
};
use crate::text::{
    before, chars_of, is_white_space, joined, text_before, text_eq, text_trim, trimmed, trimmed_end,
    trimmed_start,
};
use alloy_dyn_abi::eip712_parser::EncodeType;
use vstd::prelude::*;
use vstd::string::StringExecFns;

verus! {

/// Errors that can occur while parsing or canonicalizing an EIP-712 type
/// definition.
#[derive(Debug)]
pub enum Eip712Error {
    /// The input could not be parsed as an EIP-712 `encodeType` string.
    Parse {
        /// The offending input.
        input: String,
        /// Why parsing failed.
        reason: String,
    },
    /// The parsed type could not be canonicalized (e.g. a referenced struct
    /// type was not inlined).
    Canonicalize {
        /// The offending input.
        input: String,
        /// Why canonicalization failed.
        reason: String,
    },
    /// Two type definitions share the same primary-type name.
    DuplicateTypeDef {
        /// The conflicting primary-type name.
        name: String,
    },
}

/// The contents of an [`Eip712Error`].
pub ghost enum ErrorModel {
    Parse { input: Seq<char>, reason: Seq<char> },
    Canonicalize { input: Seq<char>, reason: Seq<char> },
    DuplicateTypeDef { name: Seq<char> },
}

impl View for Eip712Error {
    type V = ErrorModel;

    open spec fn view(&self) -> ErrorModel {
        match self {
            Eip712Error::Parse { input, reason } => ErrorModel::Parse {
                input: input@,
                reason: reason@,
            },
            Eip712Error::Canonicalize { input, reason } => ErrorModel::Canonicalize {
                input: input@,
                reason: reason@,
            },
            Eip712Error::DuplicateTypeDef { name } => ErrorModel::DuplicateTypeDef { name: name@ },
        }
    }
}

impl ErrorModel {
    /// What the error says to a reader.
    pub open spec fn message(self) -> Seq<char> {
        match self {
            ErrorModel::Parse { input, reason } => "failed to parse EIP-712 canonical type "@
                + input + ": "@ + reason,
            ErrorModel::Canonicalize { input, reason } => "failed to canonicalize EIP-712 type "@
                + input + ": "@ + reason,
            ErrorModel::DuplicateTypeDef { name } => "duplicate EIP-712 type definition "@ + name,
        }
    }
}

impl Eip712Error {
    /// What the error says to a reader.
    pub fn message(&self) -> (r: String)
        ensures
            r@ == self@.message(),
    {
        match self {
            Eip712Error::Parse { input, reason } => {
                "failed to parse EIP-712 canonical type ".to_owned().concat(input.as_str()).concat(
                    ": ",
                ).concat(reason.as_str())
            },
            Eip712Error::Canonicalize { input, reason } => {
                "failed to canonicalize EIP-712 type ".to_owned().concat(input.as_str()).concat(
                    ": ",
                ).concat(reason.as_str())
            },
            Eip712Error::DuplicateTypeDef { name } => {
                "duplicate EIP-712 type definition ".to_owned().concat(name.as_str())
            },
        }
    }
}

/// Whether `c` can begin an identifier.
pub open spec fn is_id_start(c: char) -> bool {
    'a' <= c <= 'z' || 'A' <= c <= 'Z' || c == '_' || c == '$'
}

/// Whether `c` can stand in an identifier behind its first character.
pub open spec fn is_id_continue(c: char) -> bool {
    is_id_start(c) || '0' <= c <= '9'
}

/// Whether `s` is a Solidity identifier.
pub open spec fn is_identifier(s: Seq<char>) -> bool {
    &&& s.len() > 0
    &&& is_id_start(s[0])
    &&& forall|i: int| 0 <= i < s.len() ==> is_id_continue(#[trigger] s[i])
}

/// Whether `s` is an EIP-712 identifier: one of Solidity, in which colons may
/// separate namespaces.
pub open spec fn is_eip712_identifier(s: Seq<char>) -> bool {
    &&& s.len() > 0
    &&& is_id_start(s[0])
    &&& forall|i: int| 0 <= i < s.len() ==> is_id_continue(#[trigger] s[i]) || s[i] == ':'
}

/// Whether `s` can name a type: an EIP-712 identifier, which a dot and another
/// one may follow. What follows the dot may be missing.
pub open spec fn is_type_name(s: Seq<char>) -> bool {
    let stem = before(s, '.');
    let rest = s.skip(stem.len() as int);
    &&& is_eip712_identifier(stem)
    &&& rest.len() <= 1 || is_eip712_identifier(rest.skip(1))
}

/// A component of an `encodeType` text: the text itself, and the type and the name
/// of each member.
#[derive(Debug)]
pub struct Component {
    pub span: String,
    pub members: Vec<(String, String)>,
}

impl View for Component {
    type V = (Seq<char>, Seq<(Seq<char>, Seq<char>)>);

    open spec fn view(&self) -> (Seq<char>, Seq<(Seq<char>, Seq<char>)>) {
        (self.span@, self.members@.map_values(|m: (String, String)| (m.0@, m.1@)))
    }
}

/// Components by their contents, or the text of the error that came in their
/// place.
pub open spec fn components_or_reason(r: Result<Vec<Component>, String>) -> Result<
    Seq<(Seq<char>, Seq<(Seq<char>, Seq<char>)>)>,
    Seq<char>,
> {
    match r {
        Ok(v) => Ok(v@.map_values(|c: Component| c@)),
        Err(e) => Err(e@),
    }
}

/// A text, or the text of the error that came in its place.
pub open spec fn text_or_reason(r: Result<String, String>) -> Result<Seq<char>, Seq<char>> {
    match r {
        Ok(s) => Ok(s@),
        Err(e) => Err(e@),
    }
}

/// The name of the type that a component of an `encodeType` string defines:
/// what stands in front of its first parenthesis, without white space around it.
pub open spec fn component_name(span: Seq<char>) -> Seq<char> {
    trimmed(before(span, '('))
}

/// The heads that components show.
pub open spec fn heads_of(components: Seq<(Seq<char>, Seq<(Seq<char>, Seq<char>)>)>) -> Seq<
    HeadModel,
> {
    components.map_values(
        |c: (Seq<char>, Seq<(Seq<char>, Seq<char>)>)|
            HeadModel { name: component_name(c.0), members: c.1 },
    )
}

/// The types that components define, each once: one that is defined twice in the
/// same way counts once.
pub open spec fn types_of(components: Seq<(Seq<char>, Seq<(Seq<char>, Seq<char>)>)>) -> Seq<
    HeadModel,
> {
    without_repeats(heads_of(components))
}

/// The components that `EncodeType::parse` finds in a text, in order, with the
/// types and the names of their members, or the text of its error.
pub uninterp spec fn encode_type_components(input: Seq<char>) -> Result<
    Seq<(Seq<char>, Seq<(Seq<char>, Seq<char>)>)>,
    Seq<char>,
>;

/// What `EncodeType::canonicalize` makes of the types that `EncodeType::parse`
/// finds in a text: the canonical definition, or the text of its error.
pub uninterp spec fn canonical_encode_type(input: Seq<char>) -> Result<Seq<char>, Seq<char>>;

/// Whether `components` are the first `k` of `heads`, and those are the heads in
/// front of the first that is not readable.
pub open spec fn are_first_readable(
    components: Result<Seq<(Seq<char>, Seq<(Seq<char>, Seq<char>)>)>, Seq<char>>,
    spans: Seq<Seq<char>>,
    heads: Seq<HeadModel>,
    k: int,
) -> bool {
    &&& 0 <= k <= heads.len()
    &&& components == Ok::<Seq<(Seq<char>, Seq<(Seq<char>, Seq<char>)>)>, Seq<char>>(
        Seq::new(k as nat, |j: int| (spans[j], heads[j].members)),
    )
    &&& forall|j: int| 0 <= j < k ==> (#[trigger] heads[j]).readable()
    &&& k < heads.len() ==> !heads[k].readable()
}

/// Whether a reading of `input` finds struct heads one by one: where `input`
/// spells well-formed heads, it finds those in front of the first that is not
/// readable, and nothing else.
pub open spec fn finds_heads(
    input: Seq<char>,
    components: Result<Seq<(Seq<char>, Seq<(Seq<char>, Seq<char>)>)>, Seq<char>>,
) -> bool {
    forall|spans: Seq<Seq<char>>, rest: Seq<char>, heads: Seq<HeadModel>| #[trigger]
        spells_heads(input, spans, rest, heads) ==> exists|k: int| #[trigger]
            are_first_readable(components, spans, heads, k)
}

/// Whether a canonical definition of `components` begins with one of the types
/// that they define.
pub open spec fn begins_with_a_type(
    components: Seq<(Seq<char>, Seq<(Seq<char>, Seq<char>)>)>,
    canonical: Seq<char>,
) -> bool {
    exists|i: int|
        0 <= i < components.len() && (component_name((#[trigger] components[i]).0)
            + "("@).is_prefix_of(canonical)
}

/// Whether every component has a name that can name a type.
pub open spec fn are_named(components: Seq<(Seq<char>, Seq<(Seq<char>, Seq<char>)>)>) -> bool {
    forall|i: int|
        0 <= i < components.len() ==> is_type_name(component_name((#[trigger] components[i]).0))
}

/// Whether `c` is its own canonical definition.
pub open spec fn is_own_canonical_definition(c: Seq<char>) -> bool {
    &&& encode_type_components(c) matches Ok(components)
    &&& components.len() > 0
    &&& are_named(components)
    &&& canonical_encode_type(c) == Ok::<Seq<char>, Seq<char>>(c)
}

/// The components that `EncodeType::parse` finds in `input`. How it reads a
/// text is left to it, with one exception: in a text that spells struct heads, it
/// finds the structs one by one, up to the first whose members it cannot read. It
/// can read a member if its type is an identifier with array suffixes behind it,
/// none of them of size zero.
#[verifier::external_body]
fn parse_encode_type(input: &str) -> (r: Result<Vec<Component>, String>)
    ensures
        components_or_reason(r) == encode_type_components(input@),
        finds_heads(input@, components_or_reason(r)),
{
    match EncodeType::parse(input) {
        Ok(parsed) => Ok(parsed.types.iter().map(|component| Component {
            span: component.span.to_string(),
            members: component.props.iter().map(|prop| {
                (prop.ty.span.to_string(), prop.name.to_string())
            }).collect(),
        }).collect()),
        Err(error) => Err(error.to_string()),
    }
}

/// The canonical definition that `EncodeType::canonicalize` makes of the types
/// in `input`. It panics on a component whose name can name no type, hence the
/// precondition. The definition begins with the name of one of the types and a
/// parenthesis. Where no type is defined in two ways, it is the canonical form of
/// the types, and its own canonical definition; there is none where they have no
/// canonical form. Which definition of a type counts that is defined in two ways,
/// and what errors say, is left to that function.
#[verifier::external_body]
fn canonicalize_encode_type(input: &str) -> (r: Result<String, String>)
    requires
        encode_type_components(input@) is Ok,
        are_named(encode_type_components(input@)->Ok_0),
    ensures
        text_or_reason(r) == canonical_encode_type(input@),
        r matches Ok(c) ==> begins_with_a_type(encode_type_components(input@)->Ok_0, c@),
        canonicalizes(types_of(encode_type_components(input@)->Ok_0), text_or_reason(r)),
        r matches Ok(c) ==> names_differ(types_of(encode_type_components(input@)->Ok_0))
            ==> is_own_canonical_definition(c@),
{
    match EncodeType::parse(input).and_then(|parsed| parsed.canonicalize()) {
        Ok(canonical) => Ok(canonical),
        Err(error) => Err(error.to_string()),
    }
}

/// Whether `c` can begin an identifier.
fn char_is_id_start(c: char) -> (r: bool)
    ensures
        r == is_id_start(c),
{
    ('a' <= c && c <= 'z') || ('A' <= c && c <= 'Z') || c == '_' || c == '$'
}

/// Whether `c` can stand in an identifier behind its first character.
fn char_is_id_continue(c: char) -> (r: bool)
    ensures
        r == is_id_continue(c),
{
    char_is_id_start(c) || ('0' <= c && c <= '9')
}

/// Whether `s` is a Solidity identifier.
pub fn text_is_identifier(s: &str) -> (r: bool)
    ensures
        r == is_identifier(s@),
{
    let chars = chars_of(s);
    if chars.len() == 0 || !char_is_id_start(chars[0]) {
        return false;
    }
    let mut i: usize = 0;
    while i < chars.len()
        invariant
            chars@ == s@,
            i <= chars@.len(),
            forall|k: int| 0 <= k < i ==> is_id_continue(#[trigger] s@[k]),
        decreases chars@.len() - i,
    {
        if !char_is_id_continue(chars[i]) {
            return false;
        }
        i = i + 1;
    }
    true
}

/// Whether the characters from `from` up to `to` form an EIP-712 identifier.
fn range_is_eip712_identifier(chars: &Vec<char>, from: usize, to: usize) -> (r: bool)
    requires
        from <= to <= chars@.len(),
    ensures
        r == is_eip712_identifier(chars@.subrange(from as int, to as int)),
{
    let ghost part = chars@.subrange(from as int, to as int);
    if from == to || !char_is_id_start(chars[from]) {
        return false;
    }
    let mut i: usize = from;
    while i < to
        invariant
            part == chars@.subrange(from as int, to as int),
            from <= i <= to <= chars@.len(),
            forall|k: int|
                0 <= k < i - from ==> is_id_continue(#[trigger] part[k]) || part[k] == ':',
        decreases to - i,
    {
        if !char_is_id_continue(chars[i]) && chars[i] != ':' {
            assert(part[i - from] == chars@[i as int]);
            return false;
        }
        i = i + 1;
    }
    true
}

/// Whether `s` can name a type.
pub fn text_is_type_name(s: &str) -> (r: bool)
    ensures
        r == is_type_name(s@),
{
    let chars = chars_of(s);
    let mut dot: usize = 0;
    while dot < chars.len() && chars[dot] != '.'
        invariant
            chars@ == s@,
            dot <= chars@.len(),
            forall|k: int| 0 <= k < dot ==> s@[k] != '.',
        decreases chars@.len() - dot,
    {
        dot = dot + 1;
    }
    proof {
        s@.index_of_first_ensures('.');
        assert(before(s@, '.') =~= s@.take(dot as int));
        assert(s@.subrange(0, dot as int) =~= s@.take(dot as int));
    }
    if !range_is_eip712_identifier(&chars, 0, dot) {
        return false;
    }
    if chars.len() - dot <= 1 {
        return true;
    }
    proof {
        assert(s@.skip(dot as int).skip(1) =~= s@.subrange(dot + 1, s@.len() as int));
    }
    range_is_eip712_identifier(&chars, dot + 1, chars.len())
}

/// Whether every component has a name that can name a type.
pub fn components_are_named(components: &Vec<Component>) -> (r: bool)
    ensures
        r == are_named(components@.map_values(|c: Component| c@)),
{
    let ghost all = components@.map_values(|c: Component| c@);
    let mut i: usize = 0;
    while i < components.len()
        invariant
            i <= components@.len(),
            all == components@.map_values(|c: Component| c@),
            forall|k: int| 0 <= k < i ==> is_type_name(component_name((#[trigger] all[k]).0)),
        decreases components@.len() - i,
    {
        let name = text_trim(text_before(components[i].span.as_str(), '('));
        if !text_is_type_name(name) {
            assert(!is_type_name(component_name(all[i as int].0)));
            return false;
        }
        i = i + 1;
    }
    true
}

/// An EIP-712 type definition in canonical form, paired with its primary-type
/// name.
///
/// Only [`Eip712TypeDef::parse`] can construct one, which guarantees the
/// canonical-form invariant.
#[derive(Debug, PartialEq, Eq)]
pub struct Eip712TypeDef {
    name: String,
    canonical_definition: String,
}

/// The contents of an [`Eip712TypeDef`].
pub ghost struct TypeDefModel {
    pub name: Seq<char>,
    pub canonical_definition: Seq<char>,
}

impl View for Eip712TypeDef {
    type V = TypeDefModel;

    closed spec fn view(&self) -> TypeDefModel {
        TypeDefModel { name: self.name@, canonical_definition: self.canonical_definition@ }
    }
}

/// What parsing `input` gives, where `components` are what was found in it,
/// `canonical` is their canonical form, and `settled` says whether that is its own
/// canonical form. The primary type is the leftmost one of the canonical form.
pub open spec fn parse_outcome(
    input: Seq<char>,
    components: Result<Seq<(Seq<char>, Seq<(Seq<char>, Seq<char>)>)>, Seq<char>>,
    canonical: Result<Seq<char>, Seq<char>>,
    settled: bool,
) -> Result<TypeDefModel, ErrorModel> {
    match components {
        Err(reason) => Err(ErrorModel::Parse { input, reason }),
        Ok(found) => if found.len() == 0 {
            Err(ErrorModel::Parse { input, reason: "no parseable type definition found"@ })
        } else {
            match canonical {
                Err(reason) => Err(ErrorModel::Canonicalize { input, reason }),
                Ok(c) => if settled {
                    Ok(TypeDefModel { name: before(c, '('), canonical_definition: c })
                } else {
                    Err(
                        ErrorModel::Canonicalize {
                            input,
                            reason: "conflicting definitions of a type"@,
                        },
                    )
                },
            }
        },
    }
}

/// What parsing `input` gives.
pub open spec fn parsed(input: Seq<char>) -> Result<TypeDefModel, ErrorModel> {
    parse_outcome(
        input,
        encode_type_components(input),
        canonical_encode_type(input),
        canonical_encode_type(input) matches Ok(c) && is_own_canonical_definition(c),
    )
}

/// Whether `input` can be parsed: every component that is found in it has a
/// name that can name a type.
pub open spec fn parseable(input: Seq<char>) -> bool {
    encode_type_components(input) matches Ok(components) ==> are_named(components)
}

/// Whether parsing gives `input` the canonical form of what is found in it,
/// provided that no type is defined in two ways: the definition, and an error if
/// it has none.
pub open spec fn parses_to_canonical_form(input: Seq<char>) -> bool {
    encode_type_components(input) matches Ok(components) ==> are_named(components) && names_differ(
        types_of(components),
    ) ==> {
        &&& parsed(input) is Ok ==> exists|p: int| #[trigger]
            is_canonicalizable(types_of(components), p)
        &&& forall|p: int| #[trigger]
            is_canonicalizable(types_of(components), p) ==> parsed(input) == Ok::<
                TypeDefModel,
                ErrorModel,
            >(
                TypeDefModel {
                    name: types_of(components)[p].name,
                    canonical_definition: canonical_form(types_of(components), p),
                },
            )
    }
}

/// Whether a definition is in canonical form: it begins with its primary type, and
/// parsing it gives the same again.
pub open spec fn is_canonical(def: TypeDefModel) -> bool {
    &&& (def.name + "("@).is_prefix_of(def.canonical_definition)
    &&& parseable(def.canonical_definition)
    &&& parsed(def.canonical_definition) == Ok::<TypeDefModel, ErrorModel>(def)
}

/// Whether parsing settles a text that consists of heads in canonical order. It
/// can be parsed. If the heads are readable, it is its own definition, that of
/// the first struct, if and only if no struct depends on itself and all types are
/// known; else it is an error. It is its own definition only if the heads are
/// readable.
pub open spec fn settles_canonical_order(input: Seq<char>) -> bool {
    forall|heads: Seq<HeadModel>|
        in_canonical_order(heads) && #[trigger] heads_text(heads) == input ==> {
            &&& parseable(input)
            &&& heads_readable(heads) ==> (parsed(input) is Ok <==> heads_acyclic(heads)
                && heads_resolve(heads))
            &&& heads_readable(heads) && parsed(input) is Ok ==> parsed(input) == Ok::<
                TypeDefModel,
                ErrorModel,
            >(TypeDefModel { name: heads[0].name, canonical_definition: input })
            &&& (parsed(input) matches Ok(def) && def.canonical_definition == input)
                ==> heads_readable(heads)
        }
}

/// The contents of the outcome of parsing.
pub open spec fn def_or_error(r: Result<Eip712TypeDef, Eip712Error>) -> Result<
    TypeDefModel,
    ErrorModel,
> {
    match r {
        Ok(def) => Ok(def@),
        Err(e) => Err(e@),
    }
}

/// Name and canonical form of the type definition `input`, where `components` are
/// what was found in it, `canonical` is their canonical form, and `settled` says
/// whether that is its own canonical form.
pub fn type_def_parts(
    input: &str,
    components: &Result<Vec<Component>, String>,
    canonical: &Result<String, String>,
    settled: bool,
) -> (r: Result<(String, String), Eip712Error>)
    ensures
        match (
            r,
            parse_outcome(
                input@,
                components_or_reason(*components),
                text_or_reason(*canonical),
                settled,
            ),
        ) {
            (Ok(parts), Ok(def)) => parts.0@ == def.name && parts.1@ == def.canonical_definition,
            (Err(e), Err(error)) => e@ == error,
            _ => false,
        },
{
    let found = match components {
        Ok(found) => found,
        Err(reason) => {
            return Err(Eip712Error::Parse { input: input.to_owned(), reason: reason.clone() });
        },
    };
    if found.len() == 0 {
        return Err(
            Eip712Error::Parse {
                input: input.to_owned(),
                reason: "no parseable type definition found".to_owned(),
            },
        );
    }
    match canonical {
        Ok(c) => if settled {
            Ok((text_before(c.as_str(), '(').to_owned(), c.clone()))
        } else {
            Err(
                Eip712Error::Canonicalize {
                    input: input.to_owned(),
                    reason: "conflicting definitions of a type".to_owned(),
                },
            )
        },
        Err(reason) => Err(
            Eip712Error::Canonicalize { input: input.to_owned(), reason: reason.clone() },
        ),
    }
}

/// Whether `c` is its own canonical definition.
fn definition_is_settled(c: &str) -> (r: bool)
    ensures
        r == is_own_canonical_definition(c@),
{
    let named = match parse_encode_type(c) {
        Ok(components) => components.len() > 0 && components_are_named(&components),
        Err(_) => false,
    };
    if !named {
        return false;
    }
    match canonicalize_encode_type(c) {
        Ok(again) => text_eq(again.as_str(), c),
        Err(_) => false,
    }
}

impl Clone for Eip712TypeDef {
    fn clone(&self) -> (r: Self)
        ensures
            r@ == self@,
    {
        proof {
            use_type_invariant(self);
        }
        Eip712TypeDef {
            name: self.name.clone(),
            canonical_definition: self.canonical_definition.clone(),
        }
    }
}

impl Eip712TypeDef {
    #[verifier::type_invariant]
    spec fn canonical_form(self) -> bool {
        is_canonical(self@)
    }

    /// Parses and canonicalizes an EIP-712 type definition, extracting its
    /// primary-type name. Every component that is found in `input` must have a
    /// name that can name a type; see [`Eip712TypeDef::parse_checked`].
    pub fn parse(input: &str) -> (r: Result<Self, Eip712Error>)
        requires
            parseable(input@),
        ensures
            def_or_error(r) == parsed(input@),
            parsed(input@) matches Ok(def) ==> is_canonical(def),
            finds_heads(input@, encode_type_components(input@)),
            parses_to_canonical_form(input@),
            settles_canonical_order(input@),
    {
        let components = parse_encode_type(input);
        let empty = match &components {
            Ok(found) => found.len() == 0,
            Err(_) => true,
        };
        let canonical: Result<String, String> = if empty {
            Ok(String::new())
        } else {
            canonicalize_encode_type(input)
        };
        let settled = match &canonical {
            Ok(c) => !empty && definition_is_settled(c.as_str()),
            Err(_) => false,
        };
        proof {
            lemma_parses_to_canonical_form(input@);
            lemma_canonical_order_is_settled(input@);
        }
        match type_def_parts(input, &components, &canonical, settled) {
            Ok((name, canonical_definition)) => {
                proof {
                    lemma_definition_begins(input@, canonical_definition@);
                }
                Ok(Eip712TypeDef { name, canonical_definition })
            },
            Err(e) => Err(e),
        }
    }

    /// Parses any text: `None` where it holds a component whose name can name
    /// no type, else what [`Eip712TypeDef::parse`] gives.
    pub fn parse_checked(input: &str) -> (r: Option<Result<Self, Eip712Error>>)
        ensures
            r is None <==> !parseable(input@),
            r matches Some(outcome) ==> def_or_error(outcome) == parsed(input@),
            finds_heads(input@, encode_type_components(input@)),
            parseable(input@) ==> parses_to_canonical_form(input@),
            parsed(input@) matches Ok(def) ==> parseable(input@) ==> is_canonical(def),
            settles_canonical_order(input@),
    {
        let named = match parse_encode_type(input) {
            Ok(components) => components_are_named(&components),
            Err(_) => true,
        };
        if named {
            Some(Self::parse(input))
        } else {
            proof {
                assert forall|heads: Seq<HeadModel>|
                    in_canonical_order(heads) && #[trigger] heads_text(heads)
                        == input@ implies false by {
                    lemma_texts_spell_heads(heads);
                    lemma_spelled_heads(input@, head_texts(heads), Seq::empty(), heads);
                }
            }
            None
        }
    }

    /// Primary type name (the leftmost type in the canonical definition).
    pub fn name(&self) -> (r: &str)
        ensures
            r@ == self@.name,
            (r@ + "("@).is_prefix_of(self@.canonical_definition),
    {
        proof {
            use_type_invariant(self);
        }
        self.name.as_str()
    }

    /// Canonical EIP-712 type definition.
    pub fn canonical_definition(&self) -> (r: &str)
        ensures
            r@ == self@.canonical_definition,
            is_canonical(self@),
    {
        proof {
            use_type_invariant(self);
        }
        self.canonical_definition.as_str()
    }
}

/// A type name holds no parenthesis, so in a text that begins with one and a
/// parenthesis, it is what stands in front of the first.
proof fn lemma_type_name_in_front(name: Seq<char>, text: Seq<char>)
    requires
        is_type_name(name),
        (name + "("@).is_prefix_of(text),
    ensures
        before(text, '(') == name,
{
    reveal_strlit("(");
    let stem = before(name, '.');
    let rest = name.skip(stem.len() as int);
    name.index_of_first_ensures('.');
    assert forall|k: int| 0 <= k < name.len() implies text[k] != '(' by {
        assert(text[k] == (name + "("@)[k]);
        if k < stem.len() {
            assert(stem[k] == name[k]);
        } else if k > stem.len() {
            assert(rest.skip(1)[k - stem.len() - 1] == name[k]);
        } else {
            assert(name[k] == '.');
        }
    }
    assert(text[name.len() as int] == (name + "("@)[name.len() as int]);
    text.index_of_first_ensures('(');
    assert(before(text, '(') =~= name);
}

/// In a text that spells well-formed heads, every component has the name of its
/// struct, and so the text can be parsed.
proof fn lemma_spelled_heads(
    input: Seq<char>,
    spans: Seq<Seq<char>>,
    rest: Seq<char>,
    heads: Seq<HeadModel>,
) -> (k: int)
    requires
        finds_heads(input, encode_type_components(input)),
        spells_heads(input, spans, rest, heads),
    ensures
        are_first_readable(encode_type_components(input), spans, heads, k),
        heads_of(encode_type_components(input)->Ok_0) == heads.take(k),
        parseable(input),
{
    let k = choose|k: int| #[trigger]
        are_first_readable(encode_type_components(input), spans, heads, k);
    let components = encode_type_components(input)->Ok_0;
    assert forall|i: int| 0 <= i < k implies is_type_name(
        component_name((#[trigger] components[i]).0),
    ) && component_name(components[i].0) == heads[i].name by {
        assert(components[i].0 == spans[i]);
        lemma_spelled_name(spans[i], heads[i]);
    }
    assert(heads_of(components) =~= heads.take(k));
    k
}

/// A span that spells a well-formed head has the name of its struct.
proof fn lemma_spelled_name(span: Seq<char>, head: HeadModel)
    requires
        spells_head(span, head),
        head.well_formed(),
    ensures
        is_type_name(head.name),
        component_name(span) == head.name,
{
    reveal_strlit("(");
    lemma_identifier_is_type_name(head.name);
    let (title, pieces) = choose|title: Seq<char>, pieces: Seq<Seq<char>>|
        {
            &&& span == #[trigger] head_span(title, pieces)
            &&& trimmed(title) == head.name
            &&& pieces.len() == head.members.len()
            &&& forall|i: int|
                0 <= i < pieces.len() ==> spells_member(#[trigger] pieces[i], head.members[i])
        };
    assert(!title.contains('(')) by {
        if title.contains('(') {
            lemma_trimmed_keeps(title, '(');
            let i = head.name.index_of('(');
            assert(is_id_continue(head.name[i]));
        }
    }
    span.index_of_first_ensures('(');
    assert(span[title.len() as int] == '(');
    assert forall|i: int| 0 <= i < title.len() implies span[i] != '(' by {
        assert(span[i] == title[i]);
        assert(title.contains(title[i]));
    }
    assert(before(span, '(') =~= title);
}

/// Trimming takes white space away and nothing else.
proof fn lemma_trimmed_keeps(s: Seq<char>, c: char)
    requires
        !is_white_space(c),
        s.contains(c),
    ensures
        trimmed(s).contains(c),
{
    lemma_trimmed_start_keeps(s, c);
    lemma_trimmed_end_keeps(trimmed_start(s), c);
}

proof fn lemma_trimmed_start_keeps(s: Seq<char>, c: char)
    requires
        !is_white_space(c),
        s.contains(c),
    ensures
        trimmed_start(s).contains(c),
    decreases s.len(),
{
    if is_white_space(s[0]) {
        let i = s.index_of(c);
        assert(s.drop_first()[i - 1] == c);
        lemma_trimmed_start_keeps(s.drop_first(), c);
    }
}

proof fn lemma_trimmed_end_keeps(s: Seq<char>, c: char)
    requires
        !is_white_space(c),
        s.contains(c),
    ensures
        trimmed_end(s).contains(c),
    decreases s.len(),
{
    if is_white_space(s.last()) {
        let i = s.index_of(c);
        assert(s.drop_last()[i] == c);
        lemma_trimmed_end_keeps(s.drop_last(), c);
    }
}

/// The text of a well-formed head has the name of its struct in front of its
/// first parenthesis.
pub proof fn lemma_head_name(head: HeadModel)
    requires
        head.well_formed(),
    ensures
        before(head.text(), '(') == head.name,
{
    lemma_identifier_is_type_name(head.name);
    let body = joined(head.member_texts(), ","@);
    assert((head.name + "("@).is_prefix_of(head.text())) by {
        assert(head.text() =~= head.name + "("@ + (body + ")"@));
    }
    lemma_type_name_in_front(head.name, head.text());
}

/// An identifier can name a type, and has no white space to trim.
pub proof fn lemma_identifier_is_type_name(name: Seq<char>)
    requires
        is_identifier(name),
    ensures
        is_type_name(name),
        trimmed(name) == name,
{
    name.index_of_first_ensures('.');
    assert(before(name, '.') == name);
    assert(name.skip(name.len() as int).len() == 0);
    assert(is_id_continue(name.last()));
}

/// A definition begins with its name and a parenthesis.
proof fn lemma_definition_begins(input: Seq<char>, c: Seq<char>)
    requires
        encode_type_components(input) is Ok,
        are_named(encode_type_components(input)->Ok_0),
        begins_with_a_type(encode_type_components(input)->Ok_0, c),
    ensures
        (before(c, '(') + "("@).is_prefix_of(c),
{
    let found = encode_type_components(input)->Ok_0;
    let i = choose|i: int|
        0 <= i < found.len() && (component_name((#[trigger] found[i]).0) + "("@).is_prefix_of(c);
    lemma_type_name_in_front(component_name(found[i].0), c);
}

proof fn lemma_parses_to_canonical_form(input: Seq<char>)
    requires
        parseable(input),
        encode_type_components(input) matches Ok(components) ==> components.len() > 0
            ==> canonicalizes(types_of(components), canonical_encode_type(input)) && (names_differ(
            types_of(components),
        ) ==> (canonical_encode_type(input) matches Ok(c) ==> is_own_canonical_definition(c))),
    ensures
        parses_to_canonical_form(input),
{
    if encode_type_components(input) is Ok {
        let components = encode_type_components(input)->Ok_0;
        let heads = types_of(components);
        if are_named(components) && names_differ(heads) {
            assert forall|p: int| #[trigger] is_canonicalizable(heads, p) implies parsed(input)
                == Ok::<TypeDefModel, ErrorModel>(
                TypeDefModel {
                    name: heads[p].name,
                    canonical_definition: canonical_form(heads, p),
                },
            ) by {
                assert(is_primary(heads, p));
                lemma_types_are_components(heads_of(components), p);
                let i = heads_of(components).index_of(heads[p]);
                assert(is_type_name(component_name(components[i].0)));
                lemma_canonical_form_begins(heads, p);
                lemma_type_name_in_front(heads[p].name, canonical_form(heads, p));
            }
        }
    }
}

/// Leaving repeats out adds nothing.
proof fn lemma_types_are_components(heads: Seq<HeadModel>, p: int)
    requires
        0 <= p < without_repeats(heads).len(),
    ensures
        heads.contains(without_repeats(heads)[p]),
    decreases heads.len(),
{
    let rest = heads.drop_last();
    if p < without_repeats(rest).len() {
        lemma_types_are_components(rest, p);
        let i = rest.index_of(without_repeats(rest)[p]);
        assert(heads[i] == without_repeats(rest)[p]);
    } else {
        assert(heads[heads.len() - 1] == heads.last());
    }
}

/// What reading and canonicalizing come to for a text in canonical order.
proof fn lemma_canonical_order_is_settled(input: Seq<char>)
    requires
        finds_heads(input, encode_type_components(input)),
        parseable(input),
        parses_to_canonical_form(input),
    ensures
        settles_canonical_order(input),
{
    assert forall|heads: Seq<HeadModel>|
        in_canonical_order(heads) && #[trigger] heads_text(heads) == input implies {
        &&& heads_readable(heads) ==> (parsed(input) is Ok <==> heads_acyclic(heads)
            && heads_resolve(heads))
        &&& heads_readable(heads) && parsed(input) is Ok ==> parsed(input) == Ok::<
            TypeDefModel,
            ErrorModel,
        >(TypeDefModel { name: heads[0].name, canonical_definition: input })
        &&& (parsed(input) matches Ok(def) && def.canonical_definition == input)
            ==> heads_readable(heads)
    } by {
        lemma_texts_spell_heads(heads);
        let k = lemma_spelled_heads(input, head_texts(heads), Seq::empty(), heads);
        let found = heads.take(k);
        lemma_canonical_order(heads);
        assert(names_differ(found));
        lemma_without_repeats(found);
        if k == heads.len() {
            assert(found =~= heads);
            assert(heads_readable(heads));
            assert(is_canonicalizable(heads, 0) <==> heads_acyclic(heads) && heads_resolve(heads));
        } else {
            assert(!heads[k].readable());
            if parsed(input) is Ok && parsed(input)->Ok_0.canonical_definition == input {
                let p = choose|p: int| #[trigger] is_canonicalizable(found, p);
                assert(is_primary(found, p));
                lemma_all_heads_were_read(input, heads, k, p);
            }
        }
    }
}

/// A text that holds more heads than were found in it is not their canonical
/// form.
proof fn lemma_all_heads_were_read(input: Seq<char>, heads: Seq<HeadModel>, k: int, p: int)
    requires
        finds_heads(input, encode_type_components(input)),
        heads_well_formed(heads),
        heads_text(heads) == input,
        0 <= p < k < heads.len(),
        are_first_readable(encode_type_components(input), head_texts(heads), heads, k),
    ensures
        canonical_form(heads.take(k), p) != input,
{
    let found = heads.take(k);
    if canonical_form(found, p) == input {
        let parts = lemma_canonical_form_heads(found, p);
        assert forall|i: int| 0 <= i < parts.len() implies (#[trigger] parts[i]).well_formed()
            && parts[i].readable() by {
            let j = found.index_of(parts[i]);
            assert(found.contains(parts[i]));
            assert(parts[i] == heads[j]);
        }
        lemma_texts_spell_heads(parts);
        let n = lemma_spelled_heads(input, head_texts(parts), Seq::empty(), parts);
        assert(n == parts.len());
        let components = encode_type_components(input)->Ok_0;
        assert(components.len() == k && components.len() == n);
        assert forall|j: int| 0 <= j < k implies head_texts(parts)[j] == head_texts(found)[j] by {
            assert(components[j].0 == head_texts(parts)[j]);
            assert(components[j].0 == head_texts(heads)[j]);
        }
        assert(head_texts(parts) =~= head_texts(found));
        lemma_more_heads_are_longer(heads, k);
    }
}

} // verus!
