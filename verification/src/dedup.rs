//! Structs that share a name.
use crate::names::NameMap;
use crate::reject::{ReasonModel, RejectReason};
use crate::structs::{CollectedStruct, StructModel, make_fingerprint, models, struct_names};
use crate::text::{text_eq, texts};
use vstd::prelude::*;

verus! {

/// Structs by name: those whose definitions agree, and why the others are
/// unusable.
#[derive(Debug)]
pub struct DedupedCollection {
    pub unique: NameMap<CollectedStruct>,
    pub duplicates: NameMap<RejectReason>,
}

/// The definitions of the structs called `name`, in order.
pub open spec fn definitions_of(all: Seq<StructModel>, name: Seq<char>) -> Seq<StructModel> {
    all.filter(|s: StructModel| s.name == name)
}

/// Whether all definitions have the fingerprint of the first.
pub open spec fn definitions_agree(definitions: Seq<StructModel>) -> bool {
    forall|i: int|
        0 <= i < definitions.len() ==> (#[trigger] definitions[i]).fingerprint()
            == definitions[0].fingerprint()
}

/// The first definition of each struct whose definitions agree.
pub open spec fn unique_of(all: Seq<StructModel>) -> Map<Seq<char>, StructModel> {
    Map::new(
        |name: Seq<char>|
            definitions_of(all, name).len() > 0 && definitions_agree(definitions_of(all, name)),
        |name: Seq<char>| definitions_of(all, name)[0],
    )
}

/// The conflict about each struct whose definitions do not agree, with the file
/// of each definition.
pub open spec fn duplicates_of(all: Seq<StructModel>) -> Map<Seq<char>, ReasonModel> {
    Map::new(
        |name: Seq<char>| !definitions_agree(definitions_of(all, name)),
        |name: Seq<char>|
            ReasonModel::Duplicate {
                name,
                file_ids: definitions_of(all, name).map_values(|s: StructModel| s.file_id),
            },
    )
}

/// Deduplicates structs with the same name: of those with the same definition
/// the first is kept; those with different definitions are all rejected as
/// unusable.
pub fn dedup_by_name(collected: Vec<CollectedStruct>) -> (r: DedupedCollection)
    ensures
        r.unique@ == unique_of(models(collected@)),
        r.duplicates@ == duplicates_of(models(collected@)),
{
    let ghost all = models(collected@);
    let mut unique: NameMap<CollectedStruct> = NameMap::new();
    let mut duplicates: NameMap<RejectReason> = NameMap::new();
    let mut i: usize = 0;
    while i < collected.len()
        invariant
            i <= collected@.len(),
            all == models(collected@),
            forall|n: Seq<char>| #[trigger]
                unique@.contains_key(n) <==> unique_of(all).contains_key(n) && struct_names(
                    all.take(i as int),
                ).contains(n),
            forall|n: Seq<char>| #[trigger]
                duplicates@.contains_key(n) <==> duplicates_of(all).contains_key(n) && struct_names(
                    all.take(i as int),
                ).contains(n),
            forall|n: Seq<char>|
                unique@.contains_key(n) ==> #[trigger] unique@[n] == unique_of(all)[n],
            forall|n: Seq<char>|
                duplicates@.contains_key(n) ==> #[trigger] duplicates@[n] == duplicates_of(all)[n],
        decreases collected@.len() - i,
    {
        let name = collected[i].name.as_str();
        proof {
            lemma_struct_names_take(all, i as int);
            lemma_definitions(all, name@);
            assert(all[i as int].name == name@);
        }
        if !unique.contains_key(name) && !duplicates.contains_key(name) {
            let definitions = named(&collected, name);
            if same_fingerprints(&definitions) {
                unique.insert(name.to_owned(), definitions[0].clone());
            } else {
                let file_ids = file_ids_of(&definitions);
                duplicates.insert(
                    name.to_owned(),
                    RejectReason::Duplicate { name: name.to_owned(), file_ids },
                );
            }
        }
        i = i + 1;
    }
    proof {
        assert(all.take(i as int) =~= all);
        assert forall|n: Seq<char>| #![auto]
            unique_of(all).contains_key(n) || duplicates_of(all).contains_key(
                n,
            ) implies struct_names(all).contains(n) by {
            lemma_definitions(all, n);
        }
        assert(unique@ =~= unique_of(all));
        assert(duplicates@ =~= duplicates_of(all));
    }
    DedupedCollection { unique, duplicates }
}

/// The structs called `name`.
fn named(collected: &Vec<CollectedStruct>, name: &str) -> (r: Vec<CollectedStruct>)
    ensures
        models(r@) == definitions_of(models(collected@), name@),
{
    let ghost all = models(collected@);
    let ghost pred = |s: StructModel| s.name == name@;
    let mut out: Vec<CollectedStruct> = Vec::new();
    let mut i: usize = 0;
    assert(models(out@) =~= all.take(0).filter(pred));
    while i < collected.len()
        invariant
            i <= collected@.len(),
            all == models(collected@),
            pred == (|s: StructModel| s.name == name@),
            models(out@) =~= all.take(i as int).filter(pred),
        decreases collected@.len() - i,
    {
        let ghost before_step = models(out@);
        proof {
            assert(all.take(i + 1) =~= all.take(i as int).push(collected@[i as int]@));
            all.take(i as int).lemma_filter_push(collected@[i as int]@, pred);
        }
        if text_eq(collected[i].name.as_str(), name) {
            out.push(collected[i].clone());
            assert(models(out@) =~= before_step.push(collected@[i as int]@));
        }
        i = i + 1;
    }
    assert(all.take(i as int) =~= all);
    out
}

/// Whether all structs have the fingerprint of the first.
fn same_fingerprints(definitions: &Vec<CollectedStruct>) -> (r: bool)
    ensures
        r == definitions_agree(models(definitions@)),
{
    if definitions.len() == 0 {
        return true;
    }
    let ghost all = models(definitions@);
    let fingerprint = make_fingerprint(&definitions[0]);
    let mut i: usize = 1;
    while i < definitions.len()
        invariant
            1 <= i <= definitions@.len(),
            all == models(definitions@),
            fingerprint@ == all[0].fingerprint(),
            forall|k: int| 0 <= k < i ==> (#[trigger] all[k]).fingerprint() == all[0].fingerprint(),
        decreases definitions@.len() - i,
    {
        let other = make_fingerprint(&definitions[i]);
        if !text_eq(other.as_str(), fingerprint.as_str()) {
            assert(all[i as int].fingerprint() != all[0].fingerprint());
            return false;
        }
        i = i + 1;
    }
    true
}

/// The file of each struct.
fn file_ids_of(definitions: &Vec<CollectedStruct>) -> (r: Vec<String>)
    ensures
        texts(r@) == models(definitions@).map_values(|s: StructModel| s.file_id),
{
    let mut out: Vec<String> = Vec::new();
    let mut i: usize = 0;
    while i < definitions.len()
        invariant
            i <= definitions@.len(),
            out@.len() == i,
            forall|k: int| 0 <= k < i ==> (#[trigger] out@[k])@ == definitions@[k]@.file_id,
        decreases definitions@.len() - i,
    {
        out.push(definitions[i].file_id.clone());
        i = i + 1;
    }
    assert(texts(out@) =~= models(definitions@).map_values(|s: StructModel| s.file_id));
    out
}

proof fn lemma_struct_names_take(all: Seq<StructModel>, i: int)
    requires
        0 <= i < all.len(),
    ensures
        struct_names(all.take(i + 1)) == struct_names(all.take(i)).insert(all[i].name),
{
    let names = all.take(i).map_values(|s: StructModel| s.name);
    assert(all.take(i + 1).map_values(|s: StructModel| s.name) =~= names.push(all[i].name));
    names.lemma_push_to_set_commute(all[i].name);
}

/// A struct has a definition if and only if it occurs, and its definitions bear
/// its name.
pub proof fn lemma_definitions(all: Seq<StructModel>, name: Seq<char>)
    ensures
        definitions_of(all, name).len() > 0 <==> struct_names(all).contains(name),
        forall|i: int|
            0 <= i < definitions_of(all, name).len() ==> (#[trigger] definitions_of(
                all,
                name,
            )[i]).name == name && all.contains(definitions_of(all, name)[i]),
        forall|i: int|
            0 <= i < all.len() && (#[trigger] all[i]).name == name ==> definitions_of(
                all,
                name,
            ).contains(all[i]),
{
    broadcast use {Seq::lemma_filter_contains_rev, vstd::seq_lib::group_filter_ensures};

    let pred = |s: StructModel| s.name == name;
    let names = all.map_values(|s: StructModel| s.name);
    let found = definitions_of(all, name);
    assert forall|i: int| 0 <= i < found.len() implies (#[trigger] found[i]).name == name
        && all.contains(found[i]) by {
        assert(found.contains(found[i]));
    }
    if struct_names(all).contains(name) {
        let k = names.index_of(name);
        assert(names.contains(name));
        assert(names[k] == name);
        assert(pred(all[k]));
        assert(found.contains(all[k]));
    }
    if found.len() > 0 {
        let k = all.index_of(found[0]);
        assert(all.contains(found[0]));
        assert(names[k] == name);
        assert(names.contains(name));
    }
    assert forall|i: int|
        0 <= i < all.len() && (#[trigger] all[i]).name == name implies found.contains(all[i]) by {
        assert(pred(all[i]));
    }
}

/// The name of every struct is either usable or in conflict, never both, and no
/// other name is either.
pub proof fn law_every_name_is_unique_or_duplicate(all: Seq<StructModel>, name: Seq<char>)
    ensures
        struct_names(all).contains(name) <==> unique_of(all).contains_key(name)
            || duplicates_of(all).contains_key(name),
        !(unique_of(all).contains_key(name) && duplicates_of(all).contains_key(name)),
        unique_of(all).contains_key(name) ==> unique_of(all)[name].name == name && all.contains(
            unique_of(all)[name],
        ),
{
    lemma_definitions(all, name);
}

/// Two definitions conflict no matter in which order they come: a struct is in
/// conflict if and only if two of its definitions have different fingerprints.
pub proof fn law_conflict_does_not_depend_on_order(all: Seq<StructModel>, name: Seq<char>)
    ensures
        duplicates_of(all).contains_key(name) <==> exists|i: int, j: int|
            {
                &&& 0 <= i < all.len()
                &&& 0 <= j < all.len()
                &&& (#[trigger] all[i]).name == name
                &&& (#[trigger] all[j]).name == name
                &&& all[i].fingerprint() != all[j].fingerprint()
            },
{
    lemma_definitions(all, name);
    let found = definitions_of(all, name);
    if !definitions_agree(found) {
        let k = choose|k: int|
            0 <= k < found.len() && (#[trigger] found[k]).fingerprint() != found[0].fingerprint();
        let i = all.index_of(found[k]);
        let j = all.index_of(found[0]);
        assert(all[i] == found[k]);
        assert(all[j] == found[0]);
    }
    if exists|i: int, j: int|
        {
            &&& 0 <= i < all.len()
            &&& 0 <= j < all.len()
            &&& (#[trigger] all[i]).name == name
            &&& (#[trigger] all[j]).name == name
            &&& all[i].fingerprint() != all[j].fingerprint()
        } {
        let (i, j) = choose|i: int, j: int|
            {
                &&& 0 <= i < all.len()
                &&& 0 <= j < all.len()
                &&& (#[trigger] all[i]).name == name
                &&& (#[trigger] all[j]).name == name
                &&& all[i].fingerprint() != all[j].fingerprint()
            };
        let a = found.index_of(all[i]);
        let b = found.index_of(all[j]);
        assert(found[a] == all[i]);
        assert(found[b] == all[j]);
    }
}

/// A second definition with the fingerprint of the first changes nothing, of
/// this struct or of another.
pub proof fn law_identical_duplicate_is_ignored(all: Seq<StructModel>, again: StructModel)
    requires
        unique_of(all).contains_key(again.name),
        again.fingerprint() == unique_of(all)[again.name].fingerprint(),
    ensures
        unique_of(all.push(again)) == unique_of(all),
        duplicates_of(all.push(again)) == duplicates_of(all),
{
    assert forall|name: Seq<char>| #[trigger]
        definitions_of(all.push(again), name) == if name == again.name {
            definitions_of(all, name).push(again)
        } else {
            definitions_of(all, name)
        } by {
        all.lemma_filter_push(again, |s: StructModel| s.name == name);
    }
    assert forall|name: Seq<char>| #[trigger]
        definitions_agree(definitions_of(all.push(again), name)) == definitions_agree(
            definitions_of(all, name),
        ) by {
        let found = definitions_of(all, name);
        if name == again.name {
            let more = found.push(again);
            assert(definitions_of(all.push(again), name) == more);
            assert forall|i: int| 0 <= i < more.len() implies (#[trigger] more[i]).fingerprint()
                == more[0].fingerprint() by {
                if i < found.len() {
                    assert(more[i] == found[i]);
                }
            }
        }
    }
    assert(unique_of(all.push(again)) =~= unique_of(all));
    assert(duplicates_of(all.push(again)) =~= duplicates_of(all));
}

} // verus!
