//! Collects EIP-712 canonical type definitions from the structs of a Solidity
//! compilation unit: members are encoded, conflicting and non-encodable structs
//! rejected, and the others brought into canonical form.
use crate::canonical::{
    canonical_heads, canonical_string, canonical_text, dependencies, dependency_heads, have_heads,
    is_acyclic, is_part, is_readable, is_resolved, law_dependencies_are_sorted_and_occur_once,
    leads_to, lemma_canonical_heads, lemma_leads_to_a_struct, lemma_part_of_part, lemma_part_step,
    refers, self_contained,
};
use crate::dedup::{
    DedupedCollection, dedup_by_name, duplicates_of, law_every_name_is_unique_or_duplicate,
    law_identical_duplicate_is_ignored, unique_of,
};
use crate::heads::{heads_text, in_canonical_order, is_basic, is_member_type};
use crate::names::{NameMap, NameSet};
use crate::reject::{
    ReasonModel, RejectReason, all_found, all_rejected, is_culprit, is_dep_chain,
    law_reasons_are_true, law_rejection_propagates_to_dependents, law_usable_structs_are_encodable,
    law_usable_structs_refer_to_no_rejected_one, lemma_stays_rejected, reject_non_encodable,
};
use crate::solidity::{CompilationUnit, Definition, well_named, well_typed};
use crate::structs::{
    CollectedStruct, EncodableStruct, StructModel, collect_structs, lemma_deps,
    lemma_structs_are_well_named, lemma_valid_types_are_known, models, struct_names, structs_of,
};
use crate::text::{before, lex_order, text_eq};
use crate::types::{
    Eip712Error, Eip712TypeDef, ErrorModel, TypeDefModel, def_or_error, parsed,
    settles_canonical_order,
};
use crate::version::FromSemverError;
use vstd::prelude::*;
use vstd::relations::sorted_by;
use vstd::string::StringExecFns;

verus! {

/// A set of EIP-712 canonical type definitions collected from a compilation
/// unit, keyed by primary type name.
///
/// Names that were seen but cannot be used (a same-name conflict between two
/// files, a non-EIP-712-encodable member, or a transitively non-encodable
/// dependency) are recorded separately so a lookup can explain *why* a type is
/// unavailable rather than reporting a bare "not found".
#[derive(Debug)]
pub struct Eip712Collection {
    types: NameMap<Eip712TypeDef>,
    rejected: NameMap<String>,
}

/// The contents of an [`Eip712Collection`].
#[verifier::ext_equal]
pub ghost struct CollectionModel {
    pub types: Map<Seq<char>, TypeDefModel>,
    pub rejected: Map<Seq<char>, Seq<char>>,
}

impl View for Eip712Collection {
    type V = CollectionModel;

    closed spec fn view(&self) -> CollectionModel {
        CollectionModel { types: self.types@, rejected: self.rejected@ }
    }
}

/// Why a [`Eip712Collection::get`] lookup did not return a type.
#[derive(Clone, Debug)]
pub enum LookupError {
    /// No struct with this name exists in the compilation unit.
    NotFound(String),
    /// A struct with this name exists but cannot be used as an EIP-712 type.
    Rejected {
        /// The requested type name.
        name: String,
        /// Why the type was rejected.
        reason: String,
    },
}

/// The contents of a [`LookupError`].
pub ghost enum LookupModel {
    NotFound(Seq<char>),
    Rejected { name: Seq<char>, reason: Seq<char> },
}

impl View for LookupError {
    type V = LookupModel;

    open spec fn view(&self) -> LookupModel {
        match self {
            LookupError::NotFound(name) => LookupModel::NotFound(name@),
            LookupError::Rejected { name, reason } => LookupModel::Rejected {
                name: name@,
                reason: reason@,
            },
        }
    }
}

impl LookupModel {
    /// What the error says to a reader.
    pub open spec fn message(self) -> Seq<char> {
        match self {
            LookupModel::NotFound(name) => "EIP-712 type '"@ + name
                + "' not found in the test contract's sources"@,
            LookupModel::Rejected { name, reason } => "EIP-712 type '"@ + name
                + "' cannot be used: "@ + reason,
        }
    }
}

impl LookupError {
    /// What the error says to a reader.
    pub fn message(&self) -> (r: String)
        ensures
            r@ == self@.message(),
    {
        match self {
            LookupError::NotFound(name) => {
                "EIP-712 type '".to_owned().concat(name.as_str()).concat(
                    "' not found in the test contract's sources",
                )
            },
            LookupError::Rejected { name, reason } => {
                "EIP-712 type '".to_owned().concat(name.as_str()).concat(
                    "' cannot be used: ",
                ).concat(reason.as_str())
            },
        }
    }
}

/// Errors that prevent collection from running at all (as opposed to per-type
/// rejections, which are surfaced lazily via [`Eip712Collection::get`]).
#[derive(Debug)]
pub enum CollectError {
    /// The provided solc version is invalid.
    InvalidSolcVersion(FromSemverError),
    /// The root source file could not be read.
    RootFileNotFound {
        /// The root source path.
        path: String,
        /// Why it could not be read.
        reason: String,
    },
}

/// The contents of a [`CollectError`].
pub ghost enum CollectErrorModel {
    InvalidSolcVersion(FromSemverError),
    RootFileNotFound { path: Seq<char>, reason: Seq<char> },
}

impl View for CollectError {
    type V = CollectErrorModel;

    open spec fn view(&self) -> CollectErrorModel {
        match self {
            CollectError::InvalidSolcVersion(error) => CollectErrorModel::InvalidSolcVersion(
                *error,
            ),
            CollectError::RootFileNotFound { path, reason } => CollectErrorModel::RootFileNotFound {
                path: path@,
                reason: reason@,
            },
        }
    }
}

impl CollectErrorModel {
    /// What the error says to a reader.
    pub open spec fn message(self) -> Seq<char> {
        match self {
            CollectErrorModel::InvalidSolcVersion(error) => error.text(),
            CollectErrorModel::RootFileNotFound { path, reason } =>
                "could not read EIP-712 root source "@ + path + ": "@ + reason,
        }
    }
}

impl CollectError {
    /// What the error says to a reader.
    pub fn message(&self) -> (r: String)
        ensures
            r@ == self@.message(),
    {
        match self {
            CollectError::InvalidSolcVersion(error) => error.message(),
            CollectError::RootFileNotFound { path, reason } => {
                "could not read EIP-712 root source ".to_owned().concat(path.as_str()).concat(
                    ": ",
                ).concat(reason.as_str())
            },
        }
    }
}

impl From<FromSemverError> for CollectError {
    fn from(error: FromSemverError) -> (r: Self) {
        CollectError::InvalidSolcVersion(error)
    }
}

impl vstd::std_specs::convert::FromSpecImpl<FromSemverError> for CollectError {
    open spec fn obeys_from_spec() -> bool {
        true
    }

    open spec fn from_spec(error: FromSemverError) -> Self {
        CollectError::InvalidSolcVersion(error)
    }
}

/// Checks that the root source `path` was found, of which `metadata` is what the
/// file system said. A build over a missing root would only yield an empty unit,
/// which could be mistaken for "no types".
pub fn check_root(path: &str, metadata: Result<(), String>) -> (r: Result<(), CollectError>)
    ensures
        match metadata {
            Ok(_) => r is Ok,
            Err(reason) => r matches Err(error) && error@ == (CollectErrorModel::RootFileNotFound {
                path: path@,
                reason: reason@,
            }),
        },
{
    match metadata {
        Ok(_) => Ok(()),
        Err(reason) => Err(CollectError::RootFileNotFound { path: path.to_owned(), reason }),
    }
}

impl CollectionModel {
    /// The collection without any types.
    pub open spec fn empty() -> CollectionModel {
        CollectionModel { types: Map::empty(), rejected: Map::empty() }
    }

    /// What looking up a name gives.
    pub open spec fn lookup(self, name: Seq<char>) -> Result<TypeDefModel, LookupModel> {
        if self.types.contains_key(name) {
            Ok(self.types[name])
        } else if self.rejected.contains_key(name) {
            Err(LookupModel::Rejected { name, reason: self.rejected[name] })
        } else {
            Err(LookupModel::NotFound(name))
        }
    }

    /// The collection with the outcome of parsing `text`, the canonical text of
    /// the struct `name`.
    pub open spec fn with_outcome(
        self,
        name: Seq<char>,
        text: Seq<char>,
        outcome: Result<TypeDefModel, ErrorModel>,
    ) -> CollectionModel {
        if is_definition_of(outcome, name, text) {
            CollectionModel { types: self.types.insert(name, outcome->Ok_0), ..self }
        } else {
            CollectionModel {
                rejected: self.rejected.insert(name, parse_failure(text, outcome)),
                ..self
            }
        }
    }
}

/// Whether parsing `text`, the canonical text of the struct `name`, gave the
/// definition of that struct: it bears its name, and the text stands as it is.
pub open spec fn is_definition_of(
    outcome: Result<TypeDefModel, ErrorModel>,
    name: Seq<char>,
    text: Seq<char>,
) -> bool {
    outcome matches Ok(def) && def.name == name && def.canonical_definition == text
}

/// Why a struct is rejected whose canonical text could not be parsed, or gave
/// another definition.
pub open spec fn parse_failure(
    text: Seq<char>,
    outcome: Result<TypeDefModel, ErrorModel>,
) -> Seq<char> {
    "failed to canonicalize: "@ + (match outcome {
        Ok(def) => text + " is not in canonical form"@,
        Err(error) => error.message(),
    })
}

impl Eip712Collection {
    /// A collection without types, in which the given structs are rejected.
    pub fn rejecting(rejected: &NameMap<RejectReason>) -> (r: Self)
        ensures
            r@.types == Map::<Seq<char>, TypeDefModel>::empty(),
            r@.rejected == rejected@.map_values(|reason: ReasonModel| reason.message()),
    {
        let mut messages: NameMap<String> = NameMap::new();
        let n: usize = rejected.len();
        let ghost names = rejected.names();
        let ghost wanted = rejected@.map_values(|reason: ReasonModel| reason.message());
        let mut i: usize = 0;
        while i < n
            invariant
                i <= n,
                names == rejected.names(),
                names.len() == n,
                wanted == rejected@.map_values(|reason: ReasonModel| reason.message()),
                forall|name: Seq<char>| #[trigger]
                    messages@.contains_key(name) <==> names.take(i as int).contains(name),
                forall|name: Seq<char>| #[trigger]
                    messages@.contains_key(name) ==> messages@[name] == wanted[name],
            decreases n - i,
        {
            let ghost more = names.take(i + 1);
            proof {
                assert(more =~= names.take(i as int).push(names[i as int]));
                assert(forall|name: Seq<char>| #[trigger]
                    more.contains(name) <==> names.take(i as int).contains(name) || name
                        == names[i as int]) by {
                    broadcast use vstd::seq_lib::group_seq_properties;

                }
            }
            messages.insert(rejected.name_at(i).clone(), rejected.value_at(i).message());
            i = i + 1;
        }
        proof {
            assert(names.take(i as int) =~= names);
            assert(forall|name: Seq<char>| #[trigger]
                names.contains(name) <==> names.to_set().contains(name));
            assert(messages@ =~= wanted);
        }
        Eip712Collection { types: NameMap::new(), rejected: messages }
    }

    /// Records the outcome of parsing `text`, the canonical text of the struct
    /// `name`. It is a type only if the definition is that of the struct.
    pub fn record(
        &mut self,
        name: String,
        text: &str,
        outcome: Result<Eip712TypeDef, Eip712Error>,
    )
        ensures
            final(self)@ == old(self)@.with_outcome(name@, text@, def_or_error(outcome)),
    {
        let reason = match outcome {
            Ok(type_def) => {
                if text_eq(type_def.name(), name.as_str()) && text_eq(
                    type_def.canonical_definition(),
                    text,
                ) {
                    self.types.insert(name, type_def);
                    return;
                }
                text.to_owned().concat(" is not in canonical form")
            },
            Err(error) => error.message(),
        };
        self.rejected.insert(name, "failed to canonicalize: ".to_owned().concat(reason.as_str()));
    }

    /// Looks up a canonical type definition by primary type name.
    pub fn get(&self, name: &str) -> (r: Result<&Eip712TypeDef, LookupError>)
        ensures
            match r {
                Ok(def) => self@.lookup(name@) == Ok::<TypeDefModel, LookupModel>(def@),
                Err(error) => self@.lookup(name@) == Err::<TypeDefModel, LookupModel>(error@),
            },
    {
        if let Some(def) = self.types.get(name) {
            Ok(def)
        } else if let Some(reason) = self.rejected.get(name) {
            Err(LookupError::Rejected { name: name.to_owned(), reason: reason.clone() })
        } else {
            Err(LookupError::NotFound(name.to_owned()))
        }
    }

    /// Number of usable (encodable) type definitions.
    pub fn len(&self) -> (r: usize)
        ensures
            r == self@.types.len(),
            self@.types.dom().finite(),
    {
        self.types.len()
    }

    /// Whether there are no usable type definitions.
    pub fn is_empty(&self) -> (r: bool)
        ensures
            r == (self@.types == Map::<Seq<char>, TypeDefModel>::empty()),
    {
        self.types.is_empty()
    }
}

impl Default for Eip712Collection {
    fn default() -> (r: Self)
        ensures
            r@ == CollectionModel::empty(),
    {
        Eip712Collection { types: NameMap::new(), rejected: NameMap::new() }
    }
}

impl Clone for Eip712Collection {
    fn clone(&self) -> (r: Self)
        ensures
            r@ == self@,
    {
        Eip712Collection { types: self.types.duplicate(), rejected: self.rejected.duplicate() }
    }
}

/// The structs that cannot be used, and why.
pub open spec fn rejected_structs(all: Seq<StructModel>) -> Map<Seq<char>, ReasonModel> {
    all_rejected(unique_of(all), struct_names(all), duplicates_of(all))
}

/// The structs that are encodable, as are those that they depend on.
pub open spec fn usable_structs(all: Seq<StructModel>) -> Map<Seq<char>, StructModel> {
    unique_of(all).remove_keys(
        all_found(unique_of(all), struct_names(all), duplicates_of(all)).dom(),
    )
}

/// The outcome of parsing the canonical text of a struct.
pub open spec fn outcome_for(
    structs: Map<Seq<char>, StructModel>,
    name: Seq<char>,
) -> Result<TypeDefModel, ErrorModel> {
    parsed(canonical_text(structs, name))
}

/// Whether parsing the canonical text of a struct gives its definition.
pub open spec fn is_defined(structs: Map<Seq<char>, StructModel>, name: Seq<char>) -> bool {
    is_definition_of(outcome_for(structs, name), name, canonical_text(structs, name))
}

/// The collection in which each of `structs` is a type if parsing its canonical
/// text gives its definition, and else rejected, as are the structs in `rejected`.
pub open spec fn canonicalized(
    structs: Map<Seq<char>, StructModel>,
    rejected: Map<Seq<char>, ReasonModel>,
) -> CollectionModel {
    CollectionModel {
        types: Map::new(
            |name: Seq<char>| structs.contains_key(name) && is_defined(structs, name),
            |name: Seq<char>| outcome_for(structs, name)->Ok_0,
        ),
        rejected: rejected.map_values(
            |reason: ReasonModel| reason.message(),
        ).union_prefer_right(
            Map::new(
                |name: Seq<char>| structs.contains_key(name) && !is_defined(structs, name),
                |name: Seq<char>|
                    parse_failure(canonical_text(structs, name), outcome_for(structs, name)),
            ),
        ),
    }
}

/// The EIP-712 types of a list of structs.
pub open spec fn collection_of(all: Seq<StructModel>) -> CollectionModel {
    canonicalized(usable_structs(all), rejected_structs(all))
}

/// Whether a collection defines a struct as EIP-712 says: it is a type if and only
/// if neither it nor a struct that it depends on has an array of size zero among
/// its members or depends on itself, and all their types are known. Its definition
/// is then its canonical text, under its own name.
pub open spec fn defines_canonically(
    structs: Map<Seq<char>, StructModel>,
    collection: CollectionModel,
    name: Seq<char>,
) -> bool {
    &&& collection.types.contains_key(name) <==> is_readable(structs, name) && is_acyclic(
        structs,
        name,
    ) && is_resolved(structs, name)
    &&& collection.types.contains_key(name) ==> collection.types[name] == (TypeDefModel {
        name,
        canonical_definition: canonical_text(structs, name),
    })
}

/// Whether a collection defines all structs as EIP-712 says.
pub open spec fn defines_all_canonically(
    structs: Map<Seq<char>, StructModel>,
    collection: CollectionModel,
) -> bool {
    forall|name: Seq<char>| #[trigger]
        structs.contains_key(name) ==> defines_canonically(structs, collection, name)
}

/// Emits canonical strings for every encodable struct and parses them into
/// [`Eip712TypeDef`]s (which re-validates the canonical-form invariant).
pub fn canonicalize(
    encodables: &NameMap<EncodableStruct>,
    all_struct_names: &NameSet,
    rejected: &NameMap<RejectReason>,
) -> (r: Eip712Collection)
    requires
        self_contained(encodables@, all_struct_names@),
        have_heads(encodables@),
    ensures
        r@ == canonicalized(encodables@, rejected@),
        defines_all_canonically(encodables@, r@),
{
    let mut collection = Eip712Collection::rejecting(rejected);
    let n: usize = encodables.len();
    let ghost structs = encodables@;
    let ghost names = encodables.names();
    let ghost first = collection@;
    let ghost wanted = canonicalized(structs, rejected@);
    let mut i: usize = 0;
    while i < n
        invariant
            i <= n,
            structs == encodables@,
            structs.dom().finite(),
            names == encodables.names(),
            names.len() == n,
            names.no_duplicates(),
            self_contained(structs, all_struct_names@),
            have_heads(structs),
            wanted == canonicalized(structs, rejected@),
            first.types == Map::<Seq<char>, TypeDefModel>::empty(),
            first.rejected == rejected@.map_values(|reason: ReasonModel| reason.message()),
            forall|name: Seq<char>| #[trigger]
                collection@.types.contains_key(name) <==> names.take(i as int).contains(name)
                    && wanted.types.contains_key(name),
            forall|name: Seq<char>| #[trigger]
                collection@.types.contains_key(name) ==> collection@.types[name]
                    == wanted.types[name],
            forall|name: Seq<char>| #[trigger]
                collection@.rejected.contains_key(name) <==> first.rejected.contains_key(name) || (
                names.take(i as int).contains(name) && structs.contains_key(name) && !is_defined(
                    structs,
                    name,
                )),
            forall|name: Seq<char>| #[trigger]
                collection@.rejected.contains_key(name) ==> collection@.rejected[name] == (
                if names.take(i as int).contains(name) {
                    wanted.rejected[name]
                } else {
                    first.rejected[name]
                }),
            forall|name: Seq<char>| #[trigger]
                names.take(i as int).contains(name) ==> settles_canonical_order(
                    canonical_text(structs, name),
                ),
        decreases n - i,
    {
        let name = encodables.name_at(i);
        let ghost more = names.take(i + 1);
        proof {
            assert(more =~= names.take(i as int).push(names[i as int]));
            assert(forall|other: Seq<char>| #[trigger]
                more.contains(other) <==> names.take(i as int).contains(other) || other
                    == names[i as int]) by {
                broadcast use vstd::seq_lib::group_seq_properties;

            }
            assert(structs.contains_key(name@));
            lemma_canonical_heads(structs, name@);
        }
        let canonical = canonical_string(encodables.value_at(i), encodables, all_struct_names);
        let outcome = Eip712TypeDef::parse_checked(canonical.as_str());
        proof {
            let heads = canonical_heads(structs, name@);
            assert(in_canonical_order(heads) && heads_text(heads) == canonical@);
        }
        collection.record(name.clone(), canonical.as_str(), outcome.unwrap());
        i = i + 1;
    }
    proof {
        assert(names.take(i as int) =~= names);
        assert(forall|name: Seq<char>| #[trigger]
            names.contains(name) <==> names.to_set().contains(name));
        assert(collection@.types =~= wanted.types);
        assert(collection@.rejected =~= wanted.rejected);
        assert forall|name: Seq<char>| #[trigger]
            structs.contains_key(name) implies defines_canonically(structs, wanted, name) by {
            assert(names.to_set().contains(name));
            lemma_canonical_heads(structs, name);
            let heads = canonical_heads(structs, name);
            assert(in_canonical_order(heads) && heads_text(heads) == canonical_text(structs, name));
            assert(settles_canonical_order(canonical_text(structs, name)));
        }
    }
    collection
}

/// Collects EIP-712 types from a compilation unit.
pub fn collect_eip712_types_from_compilation_unit(unit: &CompilationUnit) -> (r: Eip712Collection)
    ensures
        r@ == collection_of(structs_of(unit@)),
        defines_all_canonically(usable_structs(structs_of(unit@)), r@),
{
    let collected = collect_structs(unit);
    let all_struct_names = names_of(&collected);
    proof {
        lemma_usable_structs_of(unit@);
    }
    let DedupedCollection { unique, duplicates } = dedup_by_name(collected);
    let mut rejected = duplicates;
    let encodable = reject_non_encodable(unique, &all_struct_names, &mut rejected);
    canonicalize(&encodable, &all_struct_names, &rejected)
}

/// The names of the structs.
fn names_of(collected: &Vec<CollectedStruct>) -> (r: NameSet)
    ensures
        r@ == struct_names(models(collected@)),
{
    let ghost all = models(collected@).map_values(|s: StructModel| s.name);
    let mut names = NameSet::new();
    let mut i: usize = 0;
    assert(all.take(0).to_set() =~= Set::<Seq<char>>::empty());
    while i < collected.len()
        invariant
            i <= collected@.len(),
            all == models(collected@).map_values(|s: StructModel| s.name),
            names@ =~= all.take(i as int).to_set(),
        decreases collected@.len() - i,
    {
        proof {
            assert(all.take(i + 1) =~= all.take(i as int).push(all[i as int]));
            all.take(i as int).lemma_push_to_set_commute(all[i as int]);
        }
        names.insert(collected[i].name.clone());
        i = i + 1;
    }
    assert(all.take(i as int) =~= all);
    names
}

/// Usable structs can stand by themselves.
proof fn lemma_usable_structs(all: Seq<StructModel>)
    requires
        forall|i: int| 0 <= i < all.len() ==> (#[trigger] all[i]).encodable()
            ==> all[i].head().well_formed(),
    ensures
        usable_structs(all).dom().finite(),
        self_contained(usable_structs(all), struct_names(all)),
        have_heads(usable_structs(all)),
{
    let unique = unique_of(all);
    let names = struct_names(all);
    let duplicates = duplicates_of(all);
    let rejected = rejected_structs(all);
    let usable = usable_structs(all);
    lemma_unique_is_finite(all);
    vstd::set_lib::lemma_len_subset(usable.dom(), unique.dom());
    assert forall|name: Seq<char>| #[trigger] usable.contains_key(name) implies {
        &&& usable[name].encodable()
        &&& usable[name].name == name
        &&& names.contains(name)
        &&& usable[name].head().well_formed()
    } by {
        law_every_name_is_unique_or_duplicate(all, name);
        law_usable_structs_are_encodable(unique, names, duplicates, name);
        let k = all.index_of(unique[name]);
        assert(all[k] == usable[name]);
    }
    assert forall|name: Seq<char>, dep: Seq<char>|
        usable.contains_key(name) && #[trigger] usable[name].deps(names).contains(
            dep,
        ) implies usable.contains_key(dep) by {
        lemma_deps(usable[name], names, dep);
        law_every_name_is_unique_or_duplicate(all, dep);
        if duplicates.contains_key(dep) {
            lemma_stays_rejected(unique, names, duplicates, unique.len(), dep);
        }
        if rejected.contains_key(dep) {
            law_usable_structs_refer_to_no_rejected_one(unique, names, duplicates, name, dep);
        }
    }
}

/// The name of every struct of the unit is either that of a type or rejected, and
/// never both; no other name is either. So looking a name up finds nothing if and
/// only if there is no struct of that name.
pub proof fn law_every_struct_is_a_type_or_rejected(all: Seq<StructModel>, name: Seq<char>)
    ensures
        struct_names(all).contains(name) <==> collection_of(all).types.contains_key(name)
            || collection_of(all).rejected.contains_key(name),
        !(collection_of(all).types.contains_key(name) && collection_of(all).rejected.contains_key(
            name,
        )),
        collection_of(all).lookup(name) == Err::<TypeDefModel, LookupModel>(
            LookupModel::NotFound(name),
        ) <==> !struct_names(all).contains(name),
{
    let unique = unique_of(all);
    let duplicates = duplicates_of(all);
    law_every_name_is_unique_or_duplicate(all, name);
    if rejected_structs(all).contains_key(name) {
        law_reasons_are_true(unique, struct_names(all), duplicates, name);
    }
    if duplicates.contains_key(name) {
        lemma_stays_rejected(unique, struct_names(all), duplicates, unique.len(), name);
    }
}

/// A struct is found to be rejected if a chain of dependencies leads from it to a
/// struct with conflicting definitions or with a member that is not encodable; it
/// may be that one itself. The reason is then the one that was found for it.
pub proof fn law_lookup_tells_of_rejection(
    all: Seq<StructModel>,
    chain: Seq<Seq<char>>,
)
    requires
        is_dep_chain(unique_of(all), struct_names(all), chain),
        is_culprit(unique_of(all), duplicates_of(all), chain.last()),
    ensures
        rejected_structs(all).contains_key(chain[0]),
        collection_of(all).lookup(chain[0]) == Err::<TypeDefModel, LookupModel>(
            LookupModel::Rejected {
                name: chain[0],
                reason: rejected_structs(all)[chain[0]].message(),
            },
        ),
{
    let unique = unique_of(all);
    let names = struct_names(all);
    lemma_unique_is_finite(all);
    law_rejection_propagates_to_dependents(unique, names, duplicates_of(all), chain[0]);
}

/// There are finitely many unique structs.
pub proof fn lemma_unique_is_finite(all: Seq<StructModel>)
    ensures
        unique_of(all).dom().finite(),
{
    let unique = unique_of(all);
    let names = struct_names(all);
    vstd::seq_lib::seq_to_set_is_finite(all.map_values(|s: StructModel| s.name));
    assert forall|name: Seq<char>| #[trigger] unique.dom().contains(name) implies names.contains(
        name,
    ) by {
        law_every_name_is_unique_or_duplicate(all, name);
    }
    vstd::set_lib::lemma_len_subset(unique.dom(), names);
}

/// A second definition with the fingerprint of the first does not change the
/// collection.
pub proof fn law_identical_duplicate_does_not_matter(all: Seq<StructModel>, again: StructModel)
    requires
        unique_of(all).contains_key(again.name),
        again.fingerprint() == unique_of(all)[again.name].fingerprint(),
    ensures
        collection_of(all.push(again)) == collection_of(all),
{
    law_identical_duplicate_is_ignored(all, again);
    law_every_name_is_unique_or_duplicate(all, again.name);
    let names = all.map_values(|s: StructModel| s.name);
    assert(all.push(again).map_values(|s: StructModel| s.name) =~= names.push(again.name));
    names.lemma_push_to_set_commute(again.name);
    assert(struct_names(all.push(again)) =~= struct_names(all));
}

/// In a unit whose member types can all be written in Solidity, a usable struct
/// is a type if and only if neither it nor a struct that it depends on depends on
/// itself. Its definition is then its head, followed by the sorted heads of all
/// structs that it depends on, each once.
pub proof fn law_types_are_the_acyclic_structs(
    definitions: Seq<Definition>,
    collection: CollectionModel,
    name: Seq<char>,
)
    requires
        well_named(definitions),
        well_typed(definitions, struct_names(structs_of(definitions))),
        collection == collection_of(structs_of(definitions)),
        defines_all_canonically(usable_structs(structs_of(definitions)), collection),
        usable_structs(structs_of(definitions)).contains_key(name),
    ensures
        collection.types.contains_key(name) <==> is_acyclic(
            usable_structs(structs_of(definitions)),
            name,
        ),
        collection.types.contains_key(name) ==> collection.types[name] == (TypeDefModel {
            name,
            canonical_definition: canonical_text(usable_structs(structs_of(definitions)), name),
        }),
{
    let all = structs_of(definitions);
    let usable = usable_structs(all);
    let names = struct_names(all);
    lemma_usable_structs_of(definitions);
    assert forall|part: Seq<char>| #[trigger] usable.contains_key(part) implies {
        &&& usable[part].head().readable()
        &&& forall|i: int|
            0 <= i < usable[part].head().members.len() ==> {
                let base = before((#[trigger] usable[part].head().members[i]).0, '[');
                is_basic(base) || usable.contains_key(base)
            }
    } by {
        let s = usable[part];
        law_every_name_is_unique_or_duplicate(all, part);
        assert(all.contains(s));
        assert forall|i: int| 0 <= i < s.head().members.len() implies {
            let base = before((#[trigger] s.head().members[i]).0, '[');
            &&& is_member_type(s.head().members[i].0)
            &&& is_basic(base) || usable.contains_key(base)
        } by {
            lemma_valid_types_are_known(definitions, s, i);
            let base = before(s.head().members[i].0, '[');
            if !is_basic(base) && base != part {
                lemma_deps(s, names, base);
                assert(s.deps(names).contains(base));
            }
        }
    }
    assert forall|part: Seq<char>| #[trigger]
        is_part(usable, name, part) implies usable.contains_key(part) by {
        if part != name {
            lemma_leads_to_a_struct(usable, name, part);
        }
    }
    assert(is_readable(usable, name));
    assert(is_resolved(usable, name));
}

/// The usable structs of well-named definitions can stand by themselves.
proof fn lemma_usable_structs_of(definitions: Seq<Definition>)
    requires
        well_named(definitions),
    ensures
        usable_structs(structs_of(definitions)).dom().finite(),
        self_contained(
            usable_structs(structs_of(definitions)),
            struct_names(structs_of(definitions)),
        ),
        have_heads(usable_structs(structs_of(definitions))),
{
    let all = structs_of(definitions);
    assert forall|i: int|
        0 <= i < all.len() && (#[trigger] all[i]).encodable() implies all[i].head()
        .well_formed() by {
        assert(all.contains(all[i]));
        lemma_structs_are_well_named(definitions, all[i]);
    }
    lemma_usable_structs(all);
}

/// A definition is closed and minimal. It is the head of its struct and behind it,
/// sorted and each once, the heads of the structs that the struct depends on, and
/// no others. Every struct of the unit that a member in it refers to is defined
/// in it, and is a type itself. No struct in it depends on itself.
pub proof fn law_definitions_are_closed_and_minimal(
    definitions: Seq<Definition>,
    collection: CollectionModel,
    name: Seq<char>,
)
    requires
        well_named(definitions),
        collection == collection_of(structs_of(definitions)),
        defines_all_canonically(usable_structs(structs_of(definitions)), collection),
        collection.types.contains_key(name),
    ensures
        ({
            let structs = usable_structs(structs_of(definitions));
            let heads = dependency_heads(structs, name);
            &&& structs.contains_key(name)
            &&& collection.types[name].name == name
            &&& collection.types[name].canonical_definition == structs[name].head().text()
                + heads.flatten()
            &&& sorted_by(heads, lex_order())
            &&& heads.no_duplicates()
            &&& forall|text: Seq<char>| #[trigger]
                heads.contains(text) <==> exists|dep: Seq<char>| #[trigger]
                    dependencies(structs, name).contains(dep) && structs[dep].head().text() == text
            &&& forall|part: Seq<char>| #[trigger]
                is_part(structs, name, part) ==> collection.types.contains_key(part) && !leads_to(
                    structs,
                    part,
                    part,
                )
            &&& forall|part: Seq<char>, dep: Seq<char>|
                is_part(structs, name, part) && struct_names(structs_of(definitions)).contains(dep)
                    && #[trigger] structs[part].head().refers_to(dep) ==> dependencies(
                    structs,
                    name,
                ).contains(dep)
        }),
{
    let all = structs_of(definitions);
    let structs = usable_structs(all);
    let names = struct_names(all);
    lemma_usable_structs_of(definitions);
    assert(structs.contains_key(name));
    assert(defines_canonically(structs, collection, name));
    assert(is_readable(structs, name));
    law_dependencies_are_sorted_and_occur_once(structs, name);
    assert forall|part: Seq<char>| #[trigger] is_part(structs, name, part) implies {
        &&& structs.contains_key(part)
        &&& collection.types.contains_key(part)
        &&& !leads_to(structs, part, part)
    } by {
        if part != name {
            lemma_leads_to_a_struct(structs, name, part);
        }
        assert forall|inner: Seq<char>| #[trigger] is_part(structs, part, inner) implies is_part(
            structs,
            name,
            inner,
        ) by {
            lemma_part_of_part(structs, name, part, inner);
        }
        assert(is_readable(structs, part));
        assert(is_acyclic(structs, part));
        assert(is_resolved(structs, part));
        assert(defines_canonically(structs, collection, part));
    }
    assert forall|part: Seq<char>, dep: Seq<char>|
        is_part(structs, name, part) && names.contains(dep)
            && #[trigger] structs[part].head().refers_to(dep) implies dependencies(
        structs,
        name,
    ).contains(dep) by {
        if dep != part {
            lemma_deps(structs[part], names, dep);
            assert(structs[part].deps(names).contains(dep));
        }
        assert(refers(structs, part, dep));
        lemma_part_step(structs, name, part, dep);
        assert(is_part(structs, name, name));
    }
}

/// What is found under a name bears that name: a collection is keyed by primary
/// type name.
pub proof fn law_types_bear_their_names(all: Seq<StructModel>, name: Seq<char>)
    requires
        collection_of(all).lookup(name) is Ok,
    ensures
        collection_of(all).lookup(name)->Ok_0.name == name,
        struct_names(all).contains(name),
{
    law_every_struct_is_a_type_or_rejected(all, name);
}

/// A struct that depends on itself, or on one that does, is rejected.
pub proof fn law_recursive_structs_are_rejected(
    definitions: Seq<Definition>,
    collection: CollectionModel,
    name: Seq<char>,
    part: Seq<char>,
)
    requires
        well_named(definitions),
        collection == collection_of(structs_of(definitions)),
        defines_all_canonically(usable_structs(structs_of(definitions)), collection),
        struct_names(structs_of(definitions)).contains(name),
        is_part(usable_structs(structs_of(definitions)), name, part),
        leads_to(usable_structs(structs_of(definitions)), part, part),
    ensures
        collection.lookup(name) matches Err(error) && error is Rejected,
{
    law_every_struct_is_a_type_or_rejected(structs_of(definitions), name);
    let structs = usable_structs(structs_of(definitions));
    if structs.contains_key(name) {
        assert(defines_canonically(structs, collection, name));
    }
}

} // verus!
