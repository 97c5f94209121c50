//! Structs that cannot be used as EIP-712 types, and why.
use crate::names::{NameMap, NameSet};
use crate::structs::{
    CollectedStruct, EncodableStruct, StructModel, direct_struct_deps, lemma_lists_non_encodable,
};
use crate::text::{join, joined, texts};
use vstd::prelude::*;
use vstd::string::StringExecFns;

verus! {

/// Why a struct cannot be used as an EIP-712 type.
#[derive(Debug)]
pub enum RejectReason {
    /// Structs of the same name have different definitions.
    Duplicate { name: String, file_ids: Vec<String> },
    /// Members have no EIP-712 form, or are of a struct that is rejected itself.
    NonEncodableMembers { members: Vec<String> },
}

/// The contents of a [`RejectReason`].
#[verifier::ext_equal]
pub ghost enum ReasonModel {
    Duplicate { name: Seq<char>, file_ids: Seq<Seq<char>> },
    NonEncodableMembers { members: Seq<Seq<char>> },
}

impl View for RejectReason {
    type V = ReasonModel;

    open spec fn view(&self) -> ReasonModel {
        match self {
            RejectReason::Duplicate { name, file_ids } => ReasonModel::Duplicate {
                name: name@,
                file_ids: texts(file_ids@),
            },
            RejectReason::NonEncodableMembers { members } => ReasonModel::NonEncodableMembers {
                members: texts(members@),
            },
        }
    }
}

impl ReasonModel {
    /// What the reason says to a reader.
    pub open spec fn message(self) -> Seq<char> {
        match self {
            ReasonModel::Duplicate { name, file_ids } => "Conflicting definitions of struct '"@
                + name + "' in: "@ + joined(file_ids, ", "@),
            ReasonModel::NonEncodableMembers { members } => "Struct has non-encodable "@ + (
            if members.len() == 1 {
                "member"@
            } else {
                "members"@
            }) + ": '"@ + joined(members, ", "@) + "'"@,
        }
    }
}

impl RejectReason {
    /// What the reason says to a reader.
    pub fn message(&self) -> (r: String)
        ensures
            r@ == self@.message(),
    {
        match self {
            RejectReason::Duplicate { name, file_ids } => {
                "Conflicting definitions of struct '".to_owned().concat(name.as_str()).concat(
                    "' in: ",
                ).concat(join(file_ids, ", ").as_str())
            },
            RejectReason::NonEncodableMembers { members } => {
                let noun = if members.len() == 1 {
                    "member"
                } else {
                    "members"
                };
                "Struct has non-encodable ".to_owned().concat(noun).concat(": '").concat(
                    join(members, ", ").as_str(),
                ).concat("'")
            },
        }
    }
}

/// The structs that a struct refers to and that are rejected.
pub open spec fn rejected_deps(
    s: StructModel,
    names: Set<Seq<char>>,
    rejected: Map<Seq<char>, ReasonModel>,
) -> Seq<Seq<char>> {
    s.deps(names).filter(|dep: Seq<char>| rejected.contains_key(dep))
}

/// The structs that are rejected because a member is not encodable.
pub open spec fn non_encodable(structs: Map<Seq<char>, StructModel>) -> Map<
    Seq<char>,
    ReasonModel,
> {
    Map::new(
        |name: Seq<char>| structs.contains_key(name) && !structs[name].encodable(),
        |name: Seq<char>|
            ReasonModel::NonEncodableMembers { members: structs[name].non_encodable_members() },
    )
}

/// The structs that are rejected because they refer to structs that are
/// rejected already.
pub open spec fn blocked(
    structs: Map<Seq<char>, StructModel>,
    names: Set<Seq<char>>,
    rejected: Map<Seq<char>, ReasonModel>,
) -> Map<Seq<char>, ReasonModel> {
    Map::new(
        |name: Seq<char>|
            structs.contains_key(name) && rejected_deps(structs[name], names, rejected).len() > 0,
        |name: Seq<char>|
            ReasonModel::NonEncodableMembers {
                members: rejected_deps(structs[name], names, rejected),
            },
    )
}

/// The structs that are found to be unusable after `rounds` rounds. At first these
/// are those with a member that is not encodable. Each round adds the structs that
/// refer to one in `duplicates` or to one that was found in an earlier round.
pub open spec fn found_after(
    structs: Map<Seq<char>, StructModel>,
    names: Set<Seq<char>>,
    duplicates: Map<Seq<char>, ReasonModel>,
    rounds: nat,
) -> Map<Seq<char>, ReasonModel>
    decreases rounds,
{
    if rounds == 0 {
        non_encodable(structs)
    } else {
        let found = found_after(structs, names, duplicates, (rounds - 1) as nat);
        found.union_prefer_right(
            blocked(
                structs.remove_keys(found.dom()),
                names,
                duplicates.union_prefer_right(found),
            ),
        )
    }
}

/// The structs that are rejected after `rounds` rounds: those in `duplicates`, and
/// those that were found to be unusable.
pub open spec fn rejected_after(
    structs: Map<Seq<char>, StructModel>,
    names: Set<Seq<char>>,
    duplicates: Map<Seq<char>, ReasonModel>,
    rounds: nat,
) -> Map<Seq<char>, ReasonModel> {
    duplicates.union_prefer_right(found_after(structs, names, duplicates, rounds))
}

/// The structs that are found to be unusable in the end. There are no more rounds
/// than structs in which one is added.
pub open spec fn all_found(
    structs: Map<Seq<char>, StructModel>,
    names: Set<Seq<char>>,
    duplicates: Map<Seq<char>, ReasonModel>,
) -> Map<Seq<char>, ReasonModel> {
    found_after(structs, names, duplicates, structs.len())
}

/// The structs that are rejected in the end.
pub open spec fn all_rejected(
    structs: Map<Seq<char>, StructModel>,
    names: Set<Seq<char>>,
    duplicates: Map<Seq<char>, ReasonModel>,
) -> Map<Seq<char>, ReasonModel> {
    rejected_after(structs, names, duplicates, structs.len())
}

/// Rejects structs with non-encodable members, and any struct that depends on
/// them, or on one that is rejected already, transitively.
pub fn reject_non_encodable(
    collected: NameMap<CollectedStruct>,
    all_struct_names: &NameSet,
    rejected: &mut NameMap<RejectReason>,
) -> (r: NameMap<EncodableStruct>)
    ensures
        final(rejected)@ == all_rejected(collected@, all_struct_names@, old(rejected)@),
        r@ == collected@.remove_keys(
            all_found(collected@, all_struct_names@, old(rejected)@).dom(),
        ),
{
    let ghost structs = collected@;
    let ghost names = all_struct_names@;
    let ghost duplicates = rejected@;
    let ghost mut rounds: nat = 0;
    let ghost mut found = non_encodable(structs);
    let (mut encodables, non_encodables) = split_encodable(&collected);
    rejected.extend(non_encodables);
    let mut blocked_structs = find_blocked(&encodables, all_struct_names, rejected);
    while !blocked_structs.is_empty()
        invariant
            structs.dom().finite(),
            names == all_struct_names@,
            found == found_after(structs, names, duplicates, rounds),
            rejected@ == duplicates.union_prefer_right(found),
            encodables@ == structs.remove_keys(found.dom()),
            encodables@.dom().finite(),
            blocked_structs@ == blocked(encodables@, names, rejected@),
        decreases encodables@.len(),
    {
        let ghost earlier = encodables@;
        let ghost more = blocked_structs@;
        proof {
            assert(!(more =~= Map::<Seq<char>, ReasonModel>::empty()));
            let name = choose|name: Seq<char>| #[trigger] more.contains_key(name);
            assert(more.dom().contains(name) && earlier.contains_key(name));
            lemma_fewer(earlier, more.dom());
        }
        remove_all(&mut encodables, &blocked_structs);
        rejected.extend(blocked_structs);
        proof {
            rounds = rounds + 1;
            assert(duplicates.union_prefer_right(found.union_prefer_right(more))
                =~= duplicates.union_prefer_right(found).union_prefer_right(more));
            found = found.union_prefer_right(more);
            assert(encodables@ =~= structs.remove_keys(found.dom()));
        }
        blocked_structs = find_blocked(&encodables, all_struct_names, rejected);
    }
    proof {
        lemma_settled(structs, names, duplicates, rounds, structs.len());
    }
    encodables
}

/// The structs whose members are all encodable, and why the others are not.
fn split_encodable(collected: &NameMap<CollectedStruct>) -> (r: (
    NameMap<EncodableStruct>,
    NameMap<RejectReason>,
))
    ensures
        r.0@ == collected@.remove_keys(non_encodable(collected@).dom()),
        r.1@ == non_encodable(collected@),
        collected@.dom().finite(),
{
    let mut encodables: NameMap<EncodableStruct> = NameMap::new();
    let mut non_encodables: NameMap<RejectReason> = NameMap::new();
    let n: usize = collected.len();
    let ghost names = collected.names();
    let mut i: usize = 0;
    while i < n
        invariant
            i <= n,
            names == collected.names(),
            names.len() == n,
            forall|k: int| 0 <= k < n ==> collected@.contains_key(#[trigger] names[k]),
            names.no_duplicates(),
            forall|name: Seq<char>| #[trigger]
                encodables@.contains_key(name) <==> names.take(i as int).contains(name)
                    && collected@[name].encodable(),
            forall|name: Seq<char>| #[trigger]
                non_encodables@.contains_key(name) <==> names.take(i as int).contains(name)
                    && !collected@[name].encodable(),
            forall|name: Seq<char>| #[trigger]
                encodables@.contains_key(name) ==> encodables@[name] == collected@[name],
            forall|name: Seq<char>| #[trigger]
                non_encodables@.contains_key(name) ==> non_encodables@[name] == non_encodable(
                    collected@,
                )[name],
        decreases n - i,
    {
        let name = collected.name_at(i);
        proof {
            lemma_take_contains(names, i as int);
        }
        match EncodableStruct::try_from(collected.value_at(i).clone()) {
            Ok(encodable) => {
                encodables.insert(name.clone(), encodable);
            },
            Err(reason) => {
                non_encodables.insert(name.clone(), reason);
            },
        }
        i = i + 1;
    }
    proof {
        assert(names.take(i as int) =~= names);
        assert(forall|name: Seq<char>| #[trigger]
            names.contains(name) <==> names.to_set().contains(name));
        assert(non_encodables@ =~= non_encodable(collected@));
        assert(encodables@ =~= collected@.remove_keys(non_encodable(collected@).dom()));
    }
    (encodables, non_encodables)
}

/// Takes the rejected structs out of a table.
fn remove_all(structs: &mut NameMap<EncodableStruct>, rejected: &NameMap<RejectReason>)
    ensures
        final(structs)@ == old(structs)@.remove_keys(rejected@.dom()),
{
    let n: usize = rejected.len();
    let ghost names = rejected.names();
    let ghost all = structs@;
    let mut i: usize = 0;
    assert(all.remove_keys(names.take(0).to_set()) =~= all);
    while i < n
        invariant
            i <= n,
            names == rejected.names(),
            names.len() == n,
            names.to_set() == rejected@.dom(),
            structs@ =~= all.remove_keys(names.take(i as int).to_set()),
        decreases n - i,
    {
        structs.remove(rejected.name_at(i).as_str());
        proof {
            assert(names.take(i + 1) =~= names.take(i as int).push(names[i as int]));
            names.take(i as int).lemma_push_to_set_commute(names[i as int]);
        }
        i = i + 1;
    }
    assert(names.take(i as int) =~= names);
}

/// The structs that refer to a rejected one.
fn find_blocked(
    structs: &NameMap<EncodableStruct>,
    all_struct_names: &NameSet,
    rejected: &NameMap<RejectReason>,
) -> (r: NameMap<RejectReason>)
    ensures
        r@ == blocked(structs@, all_struct_names@, rejected@),
        structs@.dom().finite(),
{
    let mut found: NameMap<RejectReason> = NameMap::new();
    let n: usize = structs.len();
    let ghost names = structs.names();
    let ghost wanted = blocked(structs@, all_struct_names@, rejected@);
    let mut i: usize = 0;
    while i < n
        invariant
            i <= n,
            names == structs.names(),
            names.len() == n,
            names.no_duplicates(),
            wanted == blocked(structs@, all_struct_names@, rejected@),
            forall|name: Seq<char>| #[trigger]
                found@.contains_key(name) <==> names.take(i as int).contains(name)
                    && wanted.contains_key(name),
            forall|name: Seq<char>| #[trigger]
                found@.contains_key(name) ==> found@[name] == wanted[name],
        decreases n - i,
    {
        let name = structs.name_at(i);
        proof {
            lemma_take_contains(names, i as int);
        }
        let deps = direct_struct_deps(structs.value_at(i), all_struct_names);
        let members = only_rejected(&deps, rejected);
        if members.len() > 0 {
            found.insert(name.clone(), RejectReason::NonEncodableMembers { members });
        }
        i = i + 1;
    }
    proof {
        assert(names.take(i as int) =~= names);
        assert(forall|name: Seq<char>| #[trigger]
            names.contains(name) <==> names.to_set().contains(name));
        assert(found@ =~= wanted);
    }
    found
}

/// Those of `deps` that are rejected.
fn only_rejected(deps: &Vec<String>, rejected: &NameMap<RejectReason>) -> (r: Vec<String>)
    ensures
        texts(r@) == texts(deps@).filter(|dep: Seq<char>| rejected@.contains_key(dep)),
{
    let ghost all = texts(deps@);
    let ghost pred = |dep: Seq<char>| rejected@.contains_key(dep);
    let mut out: Vec<String> = Vec::new();
    let mut i: usize = 0;
    assert(texts(out@) =~= all.take(0).filter(pred)) by {
        assert(all.take(0).filter(pred).len() == 0);
    }
    while i < deps.len()
        invariant
            i <= deps@.len(),
            all == texts(deps@),
            pred == (|dep: Seq<char>| rejected@.contains_key(dep)),
            texts(out@) =~= all.take(i as int).filter(pred),
        decreases deps@.len() - i,
    {
        let ghost before_step = texts(out@);
        proof {
            assert(all.take(i + 1) =~= all.take(i as int).push(deps@[i as int]@));
            all.take(i as int).lemma_filter_push(deps@[i as int]@, pred);
        }
        if rejected.contains_key(deps[i].as_str()) {
            out.push(deps[i].clone());
            assert(texts(out@) =~= before_step.push(deps@[i as int]@));
        }
        i = i + 1;
    }
    assert(all.take(i as int) =~= all);
    out
}

proof fn lemma_take_contains(names: Seq<Seq<char>>, i: int)
    requires
        0 <= i < names.len(),
    ensures
        forall|name: Seq<char>| #[trigger]
            names.take(i + 1).contains(name) <==> names.take(i).contains(name) || name == names[i],
{
    assert forall|name: Seq<char>| #[trigger]
        names.take(i + 1).contains(name) <==> names.take(i).contains(name) || name == names[i] by {
        let more = names.take(i + 1);
        let less = names.take(i);
        if less.contains(name) {
            let k = less.index_of(name);
            assert(more[k] == name);
        }
        if more.contains(name) {
            let k = more.index_of(name);
            assert(more[k] == name);
            if k < i {
                assert(less[k] == name);
            }
        }
        assert(more[i] == names[i]);
    }
}

/// Taking keys out of a finite map leaves a finite map that is no larger.
proof fn lemma_remaining(structs: Map<Seq<char>, StructModel>, gone: Set<Seq<char>>)
    requires
        structs.dom().finite(),
    ensures
        structs.remove_keys(gone).dom().finite(),
        structs.remove_keys(gone).len() <= structs.len(),
{
    vstd::set_lib::lemma_len_subset(structs.remove_keys(gone).dom(), structs.dom());
}

/// Taking a key out of a finite map makes it smaller.
proof fn lemma_fewer(structs: Map<Seq<char>, StructModel>, gone: Set<Seq<char>>)
    requires
        structs.dom().finite(),
        exists|name: Seq<char>| gone.contains(name) && #[trigger] structs.contains_key(name),
    ensures
        structs.remove_keys(gone).dom().finite(),
        structs.remove_keys(gone).len() < structs.len(),
{
    let name = choose|name: Seq<char>| gone.contains(name) && #[trigger] structs.contains_key(name);
    vstd::set_lib::lemma_len_subset(
        structs.remove_keys(gone).dom(),
        structs.dom().remove(name),
    );
}

/// Once a round adds nothing, no later one does.
proof fn lemma_stays_settled(
    structs: Map<Seq<char>, StructModel>,
    names: Set<Seq<char>>,
    duplicates: Map<Seq<char>, ReasonModel>,
    rounds: nat,
    later: nat,
)
    requires
        rounds <= later,
        adds_nothing(structs, names, duplicates, rounds),
    ensures
        found_after(structs, names, duplicates, later) == found_after(
            structs,
            names,
            duplicates,
            rounds,
        ),
    decreases later,
{
    if rounds < later {
        lemma_stays_settled(structs, names, duplicates, rounds, (later - 1) as nat);
        assert(found_after(structs, names, duplicates, later) =~= found_after(
            structs,
            names,
            duplicates,
            rounds,
        ));
    }
}

/// Whether the round behind `rounds` rounds adds nothing.
spec fn adds_nothing(
    structs: Map<Seq<char>, StructModel>,
    names: Set<Seq<char>>,
    duplicates: Map<Seq<char>, ReasonModel>,
    rounds: nat,
) -> bool {
    let found = found_after(structs, names, duplicates, rounds);
    blocked(
        structs.remove_keys(found.dom()),
        names,
        duplicates.union_prefer_right(found),
    ) == Map::<Seq<char>, ReasonModel>::empty()
}

/// Either nothing is added any more, or each round has taken at least one
/// struct.
proof fn lemma_rounds(
    structs: Map<Seq<char>, StructModel>,
    names: Set<Seq<char>>,
    duplicates: Map<Seq<char>, ReasonModel>,
    rounds: nat,
)
    requires
        structs.dom().finite(),
    ensures
        adds_nothing(structs, names, duplicates, rounds) || structs.remove_keys(
            found_after(structs, names, duplicates, rounds).dom(),
        ).len() + rounds <= structs.len(),
        structs.remove_keys(found_after(structs, names, duplicates, rounds).dom()).dom().finite(),
    decreases rounds,
{
    let found = found_after(structs, names, duplicates, rounds);
    lemma_remaining(structs, found.dom());
    if rounds > 0 {
        let fewer = (rounds - 1) as nat;
        let earlier = found_after(structs, names, duplicates, fewer);
        lemma_rounds(structs, names, duplicates, fewer);
        if adds_nothing(structs, names, duplicates, fewer) {
            lemma_stays_settled(structs, names, duplicates, fewer, rounds);
        } else {
            let left = structs.remove_keys(earlier.dom());
            let added = blocked(left, names, duplicates.union_prefer_right(earlier));
            assert(!(added =~= Map::<Seq<char>, ReasonModel>::empty()));
            let name = choose|name: Seq<char>| #[trigger] added.contains_key(name);
            assert(left.contains_key(name) && added.dom().contains(name));
            lemma_fewer(left, added.dom());
            assert(structs.remove_keys(found.dom()) =~= left.remove_keys(added.dom()));
        }
    }
}

/// After as many rounds as there are structs, nothing is added any more.
proof fn lemma_all_found_is_settled(
    structs: Map<Seq<char>, StructModel>,
    names: Set<Seq<char>>,
    duplicates: Map<Seq<char>, ReasonModel>,
)
    requires
        structs.dom().finite(),
    ensures
        adds_nothing(structs, names, duplicates, structs.len()),
{
    let found = all_found(structs, names, duplicates);
    let left = structs.remove_keys(found.dom());
    lemma_rounds(structs, names, duplicates, structs.len());
    if left.len() == 0 {
        assert(blocked(left, names, duplicates.union_prefer_right(found)) =~= Map::<
            Seq<char>,
            ReasonModel,
        >::empty());
    }
}

proof fn lemma_settled(
    structs: Map<Seq<char>, StructModel>,
    names: Set<Seq<char>>,
    duplicates: Map<Seq<char>, ReasonModel>,
    rounds: nat,
    enough: nat,
)
    requires
        structs.dom().finite(),
        adds_nothing(structs, names, duplicates, rounds),
        enough == structs.len(),
    ensures
        found_after(structs, names, duplicates, rounds) == all_found(structs, names, duplicates),
{
    if rounds <= enough {
        lemma_stays_settled(structs, names, duplicates, rounds, enough);
    } else {
        lemma_all_found_is_settled(structs, names, duplicates);
        lemma_stays_settled(structs, names, duplicates, enough, rounds);
    }
}

/// Whether each struct on `chain` refers to the next one.
pub open spec fn is_dep_chain(
    structs: Map<Seq<char>, StructModel>,
    names: Set<Seq<char>>,
    chain: Seq<Seq<char>>,
) -> bool {
    &&& chain.len() > 0
    &&& forall|i: int|
        0 <= i < chain.len() - 1 ==> structs.contains_key(#[trigger] chain[i])
            && structs[chain[i]].deps(names).contains(chain[i + 1])
}

/// Whether a struct is unusable for itself, and not for what it depends on.
pub open spec fn is_culprit(
    structs: Map<Seq<char>, StructModel>,
    duplicates: Map<Seq<char>, ReasonModel>,
    name: Seq<char>,
) -> bool {
    duplicates.contains_key(name) || (structs.contains_key(name) && !structs[name].encodable())
}

/// A struct is rejected if and only if a chain of dependencies leads from it to
/// one that is in conflict or has a member that is not encodable; it may be that
/// one itself.
pub proof fn law_rejection_propagates_to_dependents(
    structs: Map<Seq<char>, StructModel>,
    names: Set<Seq<char>>,
    duplicates: Map<Seq<char>, ReasonModel>,
    name: Seq<char>,
)
    requires
        structs.dom().finite(),
    ensures
        all_rejected(structs, names, duplicates).contains_key(name) <==> exists|
            chain: Seq<Seq<char>>,
        | #[trigger]
            is_dep_chain(structs, names, chain) && chain[0] == name && is_culprit(
                structs,
                duplicates,
                chain.last(),
            ),
{
    if all_rejected(structs, names, duplicates).contains_key(name) {
        lemma_rejected_has_chain(structs, names, duplicates, structs.len(), name);
    }
    if exists|chain: Seq<Seq<char>>| #[trigger]
        is_dep_chain(structs, names, chain) && chain[0] == name && is_culprit(
            structs,
            duplicates,
            chain.last(),
        ) {
        let chain = choose|chain: Seq<Seq<char>>| #[trigger]
            is_dep_chain(structs, names, chain) && chain[0] == name && is_culprit(
                structs,
                duplicates,
                chain.last(),
            );
        lemma_chain_is_rejected(structs, names, duplicates, chain);
    }
}

proof fn lemma_rejected_has_chain(
    structs: Map<Seq<char>, StructModel>,
    names: Set<Seq<char>>,
    duplicates: Map<Seq<char>, ReasonModel>,
    rounds: nat,
    name: Seq<char>,
)
    requires
        rejected_after(structs, names, duplicates, rounds).contains_key(name),
    ensures
        exists|chain: Seq<Seq<char>>| #[trigger]
            is_dep_chain(structs, names, chain) && chain[0] == name && is_culprit(
                structs,
                duplicates,
                chain.last(),
            ),
    decreases rounds,
{
    if rounds == 0 {
        let chain = seq![name];
        assert(is_dep_chain(structs, names, chain) && chain[0] == name && chain.last() == name);
    } else {
        let earlier = rejected_after(structs, names, duplicates, (rounds - 1) as nat);
        if earlier.contains_key(name) {
            lemma_rejected_has_chain(structs, names, duplicates, (rounds - 1) as nat, name);
        } else {
            let dep = rejected_deps(structs[name], names, earlier)[0];
            lemma_rejected_deps(structs[name], names, earlier, dep);
            lemma_rejected_has_chain(structs, names, duplicates, (rounds - 1) as nat, dep);
            let chain = choose|chain: Seq<Seq<char>>| #[trigger]
                is_dep_chain(structs, names, chain) && chain[0] == dep && is_culprit(
                    structs,
                    duplicates,
                    chain.last(),
                );
            let longer = seq![name] + chain;
            assert forall|i: int| 0 <= i < longer.len() - 1 implies structs.contains_key(
                #[trigger] longer[i],
            ) && structs[longer[i]].deps(names).contains(longer[i + 1]) by {
                if i > 0 {
                    assert(longer[i] == chain[i - 1]);
                    assert(longer[i + 1] == chain[i]);
                }
            }
            assert(is_dep_chain(structs, names, longer) && longer[0] == name && longer.last()
                == chain.last());
        }
    }
}

proof fn lemma_rejected_deps(
    s: StructModel,
    names: Set<Seq<char>>,
    rejected: Map<Seq<char>, ReasonModel>,
    dep: Seq<char>,
)
    ensures
        rejected_deps(s, names, rejected).contains(dep) <==> s.deps(names).contains(dep)
            && rejected.contains_key(dep),
{
    broadcast use {Seq::lemma_filter_contains_rev, vstd::seq_lib::group_filter_ensures};

    let pred = |dep: Seq<char>| rejected.contains_key(dep);
    let all = s.deps(names);
    let found = rejected_deps(s, names, rejected);
    if found.contains(dep) {
        let k = found.index_of(dep);
        assert(pred(found[k]));
    }
    if all.contains(dep) && rejected.contains_key(dep) {
        let k = all.index_of(dep);
        assert(pred(all[k]));
    }
}

proof fn lemma_chain_is_rejected(
    structs: Map<Seq<char>, StructModel>,
    names: Set<Seq<char>>,
    duplicates: Map<Seq<char>, ReasonModel>,
    chain: Seq<Seq<char>>,
)
    requires
        structs.dom().finite(),
        is_dep_chain(structs, names, chain),
        is_culprit(structs, duplicates, chain.last()),
    ensures
        all_rejected(structs, names, duplicates).contains_key(chain[0]),
    decreases chain.len(),
{
    let rejected = all_rejected(structs, names, duplicates);
    if chain.len() == 1 {
        lemma_stays_rejected(structs, names, duplicates, structs.len(), chain[0]);
    } else {
        let rest = chain.drop_first();
        assert forall|i: int| 0 <= i < rest.len() - 1 implies structs.contains_key(
            #[trigger] rest[i],
        ) && structs[rest[i]].deps(names).contains(rest[i + 1]) by {
            assert(rest[i] == chain[i + 1]);
            assert(rest[i + 1] == chain[i + 2]);
        }
        lemma_chain_is_rejected(structs, names, duplicates, rest);
        law_usable_structs_refer_to_no_rejected_one(structs, names, duplicates, chain[0], chain[1]);
    }
}

/// What is rejected at first stays rejected.
pub proof fn lemma_stays_rejected(
    structs: Map<Seq<char>, StructModel>,
    names: Set<Seq<char>>,
    duplicates: Map<Seq<char>, ReasonModel>,
    rounds: nat,
    name: Seq<char>,
)
    requires
        is_culprit(structs, duplicates, name),
    ensures
        rejected_after(structs, names, duplicates, rounds).contains_key(name),
{
    if !duplicates.contains_key(name) {
        lemma_stays_found(structs, names, duplicates, rounds, name);
    }
}

/// A struct with a member that is not encodable stays found.
proof fn lemma_stays_found(
    structs: Map<Seq<char>, StructModel>,
    names: Set<Seq<char>>,
    duplicates: Map<Seq<char>, ReasonModel>,
    rounds: nat,
    name: Seq<char>,
)
    requires
        structs.contains_key(name),
        !structs[name].encodable(),
    ensures
        found_after(structs, names, duplicates, rounds).contains_key(name),
    decreases rounds,
{
    if rounds > 0 {
        lemma_stays_found(structs, names, duplicates, (rounds - 1) as nat, name);
    }
}

/// What a usable struct refers to is not rejected: a struct that refers to a
/// rejected one is found to be unusable.
pub proof fn law_usable_structs_refer_to_no_rejected_one(
    structs: Map<Seq<char>, StructModel>,
    names: Set<Seq<char>>,
    duplicates: Map<Seq<char>, ReasonModel>,
    name: Seq<char>,
    dep: Seq<char>,
)
    requires
        structs.dom().finite(),
        structs.contains_key(name),
        structs[name].deps(names).contains(dep),
        all_rejected(structs, names, duplicates).contains_key(dep),
    ensures
        all_found(structs, names, duplicates).contains_key(name),
{
    let rejected = all_rejected(structs, names, duplicates);
    let found = all_found(structs, names, duplicates);
    lemma_all_found_is_settled(structs, names, duplicates);
    if !found.contains_key(name) {
        let left = structs.remove_keys(found.dom());
        lemma_rejected_deps(structs[name], names, rejected, dep);
        assert(rejected_deps(left[name], names, rejected).len() > 0);
        assert(blocked(left, names, rejected).contains_key(name));
        assert(false);
    }
}

/// Structs that are usable have encodable members only.
pub proof fn law_usable_structs_are_encodable(
    structs: Map<Seq<char>, StructModel>,
    names: Set<Seq<char>>,
    duplicates: Map<Seq<char>, ReasonModel>,
    name: Seq<char>,
)
    requires
        structs.contains_key(name),
        !all_found(structs, names, duplicates).contains_key(name),
    ensures
        structs[name].encodable(),
{
    if !structs[name].encodable() {
        lemma_stays_found(structs, names, duplicates, structs.len(), name);
    }
}

/// The reason why a struct is rejected is true: a conflict is one that was
/// found; else the members that it lists are those that are not encodable, or
/// structs that the struct refers to and that are rejected themselves, and it
/// lists at least one.
pub proof fn law_reasons_are_true(
    structs: Map<Seq<char>, StructModel>,
    names: Set<Seq<char>>,
    duplicates: Map<Seq<char>, ReasonModel>,
    name: Seq<char>,
)
    requires
        all_rejected(structs, names, duplicates).contains_key(name),
        !(structs.contains_key(name) && duplicates.contains_key(name)),
    ensures
        duplicates.contains_key(name) ==> all_rejected(structs, names, duplicates)[name]
            == duplicates[name],
        structs.contains_key(name) ==> {
            &&& all_rejected(structs, names, duplicates)[name] matches
                ReasonModel::NonEncodableMembers { members }
            &&& members.len() > 0
            &&& !structs[name].encodable() ==> members == structs[name].non_encodable_members()
            &&& structs[name].encodable() ==> forall|dep: Seq<char>| #[trigger]
                members.contains(dep) ==> structs[name].deps(names).contains(dep) && all_rejected(
                    structs,
                    names,
                    duplicates,
                ).contains_key(dep)
        },
        structs.contains_key(name) || duplicates.contains_key(name),
{
    lemma_reason(structs, names, duplicates, structs.len(), name);
}

proof fn lemma_reason(
    structs: Map<Seq<char>, StructModel>,
    names: Set<Seq<char>>,
    duplicates: Map<Seq<char>, ReasonModel>,
    rounds: nat,
    name: Seq<char>,
)
    requires
        rejected_after(structs, names, duplicates, rounds).contains_key(name),
        !(structs.contains_key(name) && duplicates.contains_key(name)),
    ensures
        duplicates.contains_key(name) ==> rejected_after(structs, names, duplicates, rounds)[name]
            == duplicates[name],
        structs.contains_key(name) ==> {
            &&& rejected_after(structs, names, duplicates, rounds)[name] matches
                ReasonModel::NonEncodableMembers { members }
            &&& members.len() > 0
            &&& !structs[name].encodable() ==> members == structs[name].non_encodable_members()
            &&& structs[name].encodable() ==> forall|dep: Seq<char>| #[trigger]
                members.contains(dep) ==> structs[name].deps(names).contains(dep) && rejected_after(
                    structs,
                    names,
                    duplicates,
                    rounds,
                ).contains_key(dep)
        },
        structs.contains_key(name) || duplicates.contains_key(name),
    decreases rounds,
{
    if rounds == 0 {
        if structs.contains_key(name) {
            let s = structs[name];
            let i = choose|i: int|
                0 <= i < s.members.len() && (#[trigger] s.members[i]).encoded_type is None;
            lemma_lists_non_encodable(s, i);
        }
    } else {
        let earlier = rejected_after(structs, names, duplicates, (rounds - 1) as nat);
        if earlier.contains_key(name) {
            lemma_reason(structs, names, duplicates, (rounds - 1) as nat, name);
        } else {
            if is_culprit(structs, duplicates, name) {
                lemma_stays_rejected(structs, names, duplicates, (rounds - 1) as nat, name);
            }
            assert forall|dep: Seq<char>| #[trigger]
                rejected_deps(structs[name], names, earlier).contains(
                    dep,
                ) implies structs[name].deps(names).contains(dep) && earlier.contains_key(dep) by {
                lemma_rejected_deps(structs[name], names, earlier, dep);
            }
        }
    }
}

/// Whether a chain of at most `n` structs leads from a struct to one that is
/// unusable for itself.
pub open spec fn has_chain_within(
    structs: Map<Seq<char>, StructModel>,
    names: Set<Seq<char>>,
    duplicates: Map<Seq<char>, ReasonModel>,
    name: Seq<char>,
    n: nat,
) -> bool {
    exists|chain: Seq<Seq<char>>|
        {
            &&& #[trigger] is_dep_chain(structs, names, chain)
            &&& chain[0] == name
            &&& is_culprit(structs, duplicates, chain.last())
            &&& chain.len() <= n
        }
}

/// Each round reaches one struct further.
proof fn lemma_rounds_are_chain_lengths(
    structs: Map<Seq<char>, StructModel>,
    names: Set<Seq<char>>,
    duplicates: Map<Seq<char>, ReasonModel>,
    rounds: nat,
    name: Seq<char>,
)
    ensures
        rejected_after(structs, names, duplicates, rounds).contains_key(name) <==> has_chain_within(
            structs,
            names,
            duplicates,
            name,
            rounds + 1,
        ),
    decreases rounds,
{
    let rejected = rejected_after(structs, names, duplicates, rounds);
    if rounds == 0 {
        if rejected.contains_key(name) {
            let chain = seq![name];
            assert(is_dep_chain(structs, names, chain) && chain[0] == name && chain.last() == name);
        }
        if has_chain_within(structs, names, duplicates, name, 1) {
            let chain = choose|chain: Seq<Seq<char>>|
                {
                    &&& #[trigger] is_dep_chain(structs, names, chain)
                    &&& chain[0] == name
                    &&& is_culprit(structs, duplicates, chain.last())
                    &&& chain.len() <= 1
                };
            assert(chain.last() == name);
        }
    } else {
        let fewer = (rounds - 1) as nat;
        let earlier = rejected_after(structs, names, duplicates, fewer);
        let found = found_after(structs, names, duplicates, fewer);
        lemma_rounds_are_chain_lengths(structs, names, duplicates, fewer, name);
        if rejected.contains_key(name) {
            if earlier.contains_key(name) {
                let chain = choose|chain: Seq<Seq<char>>|
                    {
                        &&& #[trigger] is_dep_chain(structs, names, chain)
                        &&& chain[0] == name
                        &&& is_culprit(structs, duplicates, chain.last())
                        &&& chain.len() <= fewer + 1
                    };
                assert(chain.len() <= rounds + 1);
            } else {
                let dep = rejected_deps(structs[name], names, earlier)[0];
                assert(rejected_deps(structs[name], names, earlier).contains(dep));
                lemma_rejected_deps(structs[name], names, earlier, dep);
                lemma_rounds_are_chain_lengths(structs, names, duplicates, fewer, dep);
                let chain = choose|chain: Seq<Seq<char>>|
                    {
                        &&& #[trigger] is_dep_chain(structs, names, chain)
                        &&& chain[0] == dep
                        &&& is_culprit(structs, duplicates, chain.last())
                        &&& chain.len() <= fewer + 1
                    };
                let longer = seq![name] + chain;
                assert forall|i: int| 0 <= i < longer.len() - 1 implies structs.contains_key(
                    #[trigger] longer[i],
                ) && structs[longer[i]].deps(names).contains(longer[i + 1]) by {
                    if i > 0 {
                        assert(longer[i] == chain[i - 1]);
                        assert(longer[i + 1] == chain[i]);
                    }
                }
                assert(is_dep_chain(structs, names, longer) && longer[0] == name && longer.last()
                    == chain.last());
            }
        }
        if has_chain_within(structs, names, duplicates, name, rounds + 1) {
            let chain = choose|chain: Seq<Seq<char>>|
                {
                    &&& #[trigger] is_dep_chain(structs, names, chain)
                    &&& chain[0] == name
                    &&& is_culprit(structs, duplicates, chain.last())
                    &&& chain.len() <= rounds + 1
                };
            if chain.len() == 1 {
                assert(chain.last() == name);
                lemma_stays_rejected(structs, names, duplicates, rounds, name);
            } else {
                let rest = chain.drop_first();
                assert forall|i: int| 0 <= i < rest.len() - 1 implies structs.contains_key(
                    #[trigger] rest[i],
                ) && structs[rest[i]].deps(names).contains(rest[i + 1]) by {
                    assert(rest[i] == chain[i + 1]);
                    assert(rest[i + 1] == chain[i + 2]);
                }
                let dep = rest[0];
                assert(is_dep_chain(structs, names, rest) && rest.last() == chain.last());
                assert(has_chain_within(structs, names, duplicates, dep, fewer + 1));
                lemma_rounds_are_chain_lengths(structs, names, duplicates, fewer, dep);
                let first: int = 0;
                assert(structs[chain[first]].deps(names).contains(chain[first + 1]));
                if !found.contains_key(name) {
                    lemma_rejected_deps(structs[name], names, earlier, dep);
                    assert(rejected_deps(structs[name], names, earlier).len() > 0);
                }
            }
        }
    }
}

/// The reason why an encodable struct is rejected names exactly those of its
/// dependencies through which the shortest chains lead to a struct that is
/// unusable for itself, in the order of its members.
pub proof fn law_reasons_name_the_nearest_culprits(
    structs: Map<Seq<char>, StructModel>,
    names: Set<Seq<char>>,
    duplicates: Map<Seq<char>, ReasonModel>,
    name: Seq<char>,
) -> (n: nat)
    requires
        structs.contains_key(name),
        structs[name].encodable(),
        !duplicates.contains_key(name),
        all_rejected(structs, names, duplicates).contains_key(name),
    ensures
        !has_chain_within(structs, names, duplicates, name, n),
        has_chain_within(structs, names, duplicates, name, n + 1),
        all_rejected(structs, names, duplicates)[name] == (ReasonModel::NonEncodableMembers {
            members: structs[name].deps(names).filter(
                |dep: Seq<char>| has_chain_within(structs, names, duplicates, dep, n),
            ),
        }),
{
    lemma_first_round(structs, names, duplicates, structs.len(), name)
}

proof fn lemma_first_round(
    structs: Map<Seq<char>, StructModel>,
    names: Set<Seq<char>>,
    duplicates: Map<Seq<char>, ReasonModel>,
    rounds: nat,
    name: Seq<char>,
) -> (n: nat)
    requires
        structs.contains_key(name),
        structs[name].encodable(),
        !duplicates.contains_key(name),
        rejected_after(structs, names, duplicates, rounds).contains_key(name),
    ensures
        !has_chain_within(structs, names, duplicates, name, n),
        has_chain_within(structs, names, duplicates, name, n + 1),
        rejected_after(structs, names, duplicates, rounds)[name] == (
        ReasonModel::NonEncodableMembers {
            members: structs[name].deps(names).filter(
                |dep: Seq<char>| has_chain_within(structs, names, duplicates, dep, n),
            ),
        }),
    decreases rounds,
{
    let fewer = (rounds - 1) as nat;
    let earlier = rejected_after(structs, names, duplicates, fewer);
    if earlier.contains_key(name) {
        lemma_first_round(structs, names, duplicates, fewer, name)
    } else {
        lemma_rounds_are_chain_lengths(structs, names, duplicates, fewer, name);
        lemma_rounds_are_chain_lengths(structs, names, duplicates, rounds, name);
        let near = |dep: Seq<char>| has_chain_within(structs, names, duplicates, dep, rounds);
        let rejected = |dep: Seq<char>| earlier.contains_key(dep);
        assert forall|dep: Seq<char>| #[trigger] near(dep) == rejected(dep) by {
            lemma_rounds_are_chain_lengths(structs, names, duplicates, fewer, dep);
        }
        lemma_filter_same(structs[name].deps(names), near, rejected);
        rounds
    }
}

proof fn lemma_filter_same(
    s: Seq<Seq<char>>,
    f: spec_fn(Seq<char>) -> bool,
    g: spec_fn(Seq<char>) -> bool,
)
    requires
        forall|x: Seq<char>| #[trigger] f(x) == g(x),
    ensures
        s.filter(f) == s.filter(g),
    decreases s.len(),
{
    reveal(Seq::filter);
    if s.len() > 0 {
        lemma_filter_same(s.drop_last(), f, g);
        assert(f(s.last()) == g(s.last()));
    }
}

} // verus!
