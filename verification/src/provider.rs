//! EIP-712 canonical types of several source files, looked up by name within the
//! scope of one of them.
use crate::collector::{CollectError, CollectionModel, Eip712Collection};
use crate::names::NameMap;
use crate::types::{Eip712TypeDef, TypeDefModel};
use vstd::prelude::*;
use vstd::string::StringExecFns;

verus! {

/// The identity of a source file: two source files with the same `key` are the
/// same one. `display` is how it is shown to a reader.
#[derive(Clone, Debug)]
pub struct SourceName {
    pub key: String,
    pub display: String,
}

/// What collecting the types of one source file came to.
#[derive(Debug)]
enum Scope {
    Collected(Eip712Collection),
    Failed(String),
}

impl View for Scope {
    type V = Result<CollectionModel, Seq<char>>;

    closed spec fn view(&self) -> Result<CollectionModel, Seq<char>> {
        match self {
            Scope::Collected(collection) => Ok(collection@),
            Scope::Failed(reason) => Err(reason@),
        }
    }
}

impl Clone for Scope {
    fn clone(&self) -> (r: Self)
        ensures
            r@ == self@,
    {
        match self {
            Scope::Collected(collection) => Scope::Collected(collection.clone()),
            Scope::Failed(reason) => Scope::Failed(reason.clone()),
        }
    }
}

/// EIP-712 canonical types collected per source file, queryable by type name.
///
/// The per-root collection result is retained even on failure so a query can
/// report *why* a scope has no types.
#[derive(Debug)]
pub struct Eip712Provider {
    by_source: NameMap<Scope>,
}

impl View for Eip712Provider {
    type V = Map<Seq<char>, Result<CollectionModel, Seq<char>>>;

    closed spec fn view(&self) -> Map<Seq<char>, Result<CollectionModel, Seq<char>>> {
        self.by_source@
    }
}

/// A collection, or what the error says that came in its place.
pub open spec fn replayed(outcome: Result<Eip712Collection, CollectError>) -> Result<
    CollectionModel,
    Seq<char>,
> {
    match outcome {
        Ok(collection) => Ok(collection@),
        Err(error) => Err(error@.message()),
    }
}

/// The outcome of each source file; where one occurs more than once, the last.
pub open spec fn outcomes_by_source(
    roots: Seq<(SourceName, Result<Eip712Collection, CollectError>)>,
) -> Map<Seq<char>, Result<CollectionModel, Seq<char>>>
    decreases roots.len(),
{
    if roots.len() == 0 {
        Map::empty()
    } else {
        outcomes_by_source(roots.drop_last()).insert(
            roots.last().0.key@,
            replayed(roots.last().1),
        )
    }
}

/// What looking up the type `name` within the scope of `source` gives.
pub open spec fn scoped_lookup(
    by_source: Map<Seq<char>, Result<CollectionModel, Seq<char>>>,
    source: SourceName,
    name: Seq<char>,
) -> Result<TypeDefModel, Seq<char>> {
    if by_source.contains_key(source.key@) {
        match by_source[source.key@] {
            Ok(collection) => match collection.lookup(name) {
                Ok(def) => Ok(def),
                Err(error) => Err(error.message()),
            },
            Err(reason) => Err(reason),
        }
    } else {
        Err("no EIP-712 types were collected for source '"@ + source.display@ + "'"@)
    }
}

/// Stringifies a collection error so it can be stored and replayed at query
/// time.
pub fn collect_root(outcome: Result<Eip712Collection, CollectError>) -> (r: Result<
    Eip712Collection,
    String,
>)
    ensures
        match r {
            Ok(collection) => replayed(outcome) == Ok::<CollectionModel, Seq<char>>(collection@),
            Err(reason) => replayed(outcome) == Err::<CollectionModel, Seq<char>>(reason@),
        },
{
    match outcome {
        Ok(collection) => Ok(collection),
        Err(error) => Err(error.message()),
    }
}

impl Eip712Provider {
    /// The provider for every root, given what collecting its types came to.
    pub fn collect(roots: Vec<(SourceName, Result<Eip712Collection, CollectError>)>) -> (r: Self)
        ensures
            r@ == outcomes_by_source(roots@),
    {
        let ghost all = roots@;
        let mut by_source: NameMap<Scope> = NameMap::new();
        let mut rest = roots;
        let ghost mut done: int = 0;
        assert(all.take(0) =~= Seq::empty());
        while rest.len() > 0
            invariant
                0 <= done <= all.len(),
                rest@ =~= all.skip(done),
                by_source@ == outcomes_by_source(all.take(done)),
            decreases rest@.len(),
        {
            let (source, outcome) = rest.remove(0);
            proof {
                assert(all.take(done + 1).drop_last() =~= all.take(done));
                assert(all.take(done + 1).last() == all[done]);
                done = done + 1;
            }
            let scope = match collect_root(outcome) {
                Ok(collection) => Scope::Collected(collection),
                Err(reason) => Scope::Failed(reason),
            };
            by_source.insert(source.key, scope);
        }
        assert(all.take(done) =~= all);
        Eip712Provider { by_source }
    }

    /// An empty provider with no collected types.
    pub fn empty() -> (r: Self)
        ensures
            r@ == Map::<Seq<char>, Result<CollectionModel, Seq<char>>>::empty(),
    {
        Eip712Provider { by_source: NameMap::new() }
    }

    /// Looks up a canonical type by name within the scope of `source`.
    pub fn get(&self, source: &SourceName, name: &str) -> (r: Result<Eip712TypeDef, String>)
        ensures
            match r {
                Ok(def) => scoped_lookup(self@, *source, name@) == Ok::<TypeDefModel, Seq<char>>(
                    def@,
                ),
                Err(message) => scoped_lookup(self@, *source, name@) == Err::<
                    TypeDefModel,
                    Seq<char>,
                >(message@),
            },
    {
        match self.by_source.get(source.key.as_str()) {
            Some(Scope::Collected(collection)) => match collection.get(name) {
                Ok(def) => Ok(def.clone()),
                Err(error) => Err(error.message()),
            },
            Some(Scope::Failed(reason)) => Err(reason.clone()),
            None => Err(
                "no EIP-712 types were collected for source '".to_owned().concat(
                    source.display.as_str(),
                ).concat("'"),
            ),
        }
    }
}

impl Clone for Eip712Provider {
    fn clone(&self) -> (r: Self)
        ensures
            r@ == self@,
    {
        Eip712Provider { by_source: self.by_source.duplicate() }
    }
}

impl Default for Eip712Provider {
    fn default() -> (r: Self)
        ensures
            r@ == Map::<Seq<char>, Result<CollectionModel, Seq<char>>>::empty(),
    {
        Eip712Provider::empty()
    }
}

/// Another source file does not change what a lookup gives within the scope of
/// this one.
pub proof fn law_scopes_are_separate(
    roots: Seq<(SourceName, Result<Eip712Collection, CollectError>)>,
    other: (SourceName, Result<Eip712Collection, CollectError>),
    source: SourceName,
    name: Seq<char>,
)
    requires
        other.0.key@ != source.key@,
    ensures
        scoped_lookup(outcomes_by_source(roots.push(other)), source, name) == scoped_lookup(
            outcomes_by_source(roots),
            source,
            name,
        ),
{
    assert(roots.push(other).drop_last() =~= roots);
}

/// Within the scope of a source file that was collected last, a lookup gives what
/// its own collection gives, or repeats why there is none.
pub proof fn law_a_scope_is_its_own_collection(
    roots: Seq<(SourceName, Result<Eip712Collection, CollectError>)>,
    source: SourceName,
    outcome: Result<Eip712Collection, CollectError>,
    name: Seq<char>,
)
    ensures
        scoped_lookup(outcomes_by_source(roots.push((source, outcome))), source, name)
            == match outcome {
            Ok(collection) => match collection@.lookup(name) {
                Ok(def) => Ok(def),
                Err(error) => Err(error.message()),
            },
            Err(error) => Err(error@.message()),
        },
{
    assert(roots.push((source, outcome)).drop_last() =~= roots);
}

} // verus!
