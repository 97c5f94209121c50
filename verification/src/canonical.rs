//! What a struct depends on, and its canonical text.
use crate::heads::{
    HeadModel, head_leads_to, head_resolves, head_texts, heads_acyclic, heads_readable,
    heads_resolve, heads_text, in_canonical_order, is_basic, is_head_path,
};
use crate::names::{NameMap, NameSet};
use crate::reject::is_dep_chain;
use crate::structs::{
    EncodableStruct, StructModel, direct_struct_deps, lemma_deps, lemma_deps_are_named, struct_head,
};
use crate::text::{
    before, concat_texts, law_lex_order_is_total, lex_order, sort_texts, text_eq, texts,
};
use crate::types::lemma_head_name;
use vstd::prelude::*;
use vstd::relations::sorted_by;
use vstd::string::StringExecFns;

verus! {

/// Whether the struct `a` has a member that refers to the struct `b`.
pub open spec fn refers(
    structs: Map<Seq<char>, StructModel>,
    a: Seq<char>,
    b: Seq<char>,
) -> bool {
    structs.contains_key(a) && structs.contains_key(b) && structs[a].head().refers_to(b)
}

/// Whether each struct on `chain` refers to the next one. There is at least one
/// step.
pub open spec fn is_chain(
    structs: Map<Seq<char>, StructModel>,
    chain: Seq<Seq<char>>,
) -> bool {
    &&& chain.len() >= 2
    &&& forall|i: int|
        0 <= i < chain.len() - 1 ==> refers(structs, #[trigger] chain[i], chain[i + 1])
}

/// Whether the struct `a` depends on the struct `b`, by one step or more.
pub open spec fn leads_to(
    structs: Map<Seq<char>, StructModel>,
    a: Seq<char>,
    b: Seq<char>,
) -> bool {
    exists|chain: Seq<Seq<char>>|
        #[trigger] is_chain(structs, chain) && chain[0] == a && chain.last() == b
}

/// The other structs that `root` depends on.
pub open spec fn dependencies(
    structs: Map<Seq<char>, StructModel>,
    root: Seq<char>,
) -> Set<Seq<char>> {
    Set::new(|name: Seq<char>| name != root && leads_to(structs, root, name))
}

/// Whether `structs` can stand by themselves: each is encodable, bears its own
/// name, and refers to no other struct among `names` than these.
pub open spec fn self_contained(
    structs: Map<Seq<char>, StructModel>,
    names: Set<Seq<char>>,
) -> bool {
    &&& forall|name: Seq<char>| #[trigger]
        structs.contains_key(name) ==> structs[name].encodable() && structs[name].name == name
            && names.contains(name)
    &&& forall|name: Seq<char>, dep: Seq<char>|
        structs.contains_key(name) && #[trigger] structs[name].deps(names).contains(dep)
            ==> structs.contains_key(dep)
}

/// The heads of the structs that `root` depends on, sorted.
pub open spec fn dependency_heads(
    structs: Map<Seq<char>, StructModel>,
    root: Seq<char>,
) -> Seq<Seq<char>> {
    dependencies(structs, root).to_seq().map_values(
        |name: Seq<char>| structs[name].head().text(),
    ).sort_by(lex_order())
}

/// The head of `root`, followed by the heads of the structs that it depends on,
/// sorted.
pub open spec fn canonical_text(
    structs: Map<Seq<char>, StructModel>,
    root: Seq<char>,
) -> Seq<char> {
    structs[root].head().text() + dependency_heads(structs, root).flatten()
}

/// The canonical text of `root`.
pub fn canonical_string(
    root: &EncodableStruct,
    encodable: &NameMap<EncodableStruct>,
    all_struct_names: &NameSet,
) -> (r: String)
    requires
        self_contained(encodable@, all_struct_names@),
        encodable@.contains_key(root@.name),
        encodable@[root@.name] == root@,
    ensures
        r@ == canonical_text(encodable@, root@.name),
{
    proof {
        lemma_reached_are_dependencies(encodable@, all_struct_names@, root@.name);
    }
    let deps = transitive_struct_deps(root, encodable, all_struct_names);
    let ghost structs = encodable@;
    let ghost names = texts(deps@);
    let ghost head_of = |name: Seq<char>| structs[name].head().text();
    let mut heads: Vec<String> = Vec::new();
    let mut i: usize = 0;
    while i < deps.len()
        invariant
            i <= deps@.len(),
            structs == encodable@,
            names == texts(deps@),
            names.to_set() == dependencies(structs, root@.name),
            heads@.len() == i,
            forall|k: int|
                0 <= k < i ==> (#[trigger] heads@[k])@ == structs[names[k]].head().text(),
        decreases deps@.len() - i,
    {
        proof {
            assert(names.contains(names[i as int]));
            assert(dependencies(structs, root@.name).contains(names[i as int]));
            lemma_leads_to_a_struct(structs, root@.name, names[i as int]);
        }
        let dependency = encodable.get(deps[i].as_str()).unwrap();
        heads.push(struct_head(dependency));
        i = i + 1;
    }
    proof {
        assert(texts(heads@) =~= names.map_values(head_of));
        vstd::seq_lib::seq_to_set_is_finite(names);
        lemma_same_items(names, dependencies(structs, root@.name), head_of);
        lemma_same_order(
            names.map_values(head_of),
            dependencies(structs, root@.name).to_seq().map_values(head_of),
        );
    }
    let heads = sort_texts(heads);
    struct_head(root).concat(concat_texts(&heads).as_str())
}

/// A list that holds each item of a set once, and the set as a list, give the
/// same values in some order.
proof fn lemma_same_items(
    list: Seq<Seq<char>>,
    items: Set<Seq<char>>,
    f: spec_fn(Seq<char>) -> Seq<char>,
)
    requires
        items.finite(),
        list.no_duplicates(),
        list.to_set() == items,
    ensures
        list.map_values(f).to_multiset() == items.to_seq().map_values(f).to_multiset(),
    decreases items.len(),
{
    broadcast use {vstd::multiset::group_multiset_axioms, vstd::seq_lib::group_to_multiset_ensures};

    if items.len() == 0 {
        if list.len() > 0 {
            assert(list.contains(list[0]));
            assert(items.contains(list[0]));
        }
        assert(list.map_values(f) =~= items.to_seq().map_values(f));
    } else {
        let x = items.choose();
        let fewer = items.remove(x);
        assert(list.contains(x));
        let k = list.index_of(x);
        let shorter = list.remove(k);
        assert forall|y: Seq<char>| #[trigger] shorter.contains(y) <==> fewer.contains(y) by {
            if shorter.contains(y) {
                let j = shorter.index_of(y);
                let at = if j < k {
                    j
                } else {
                    j + 1
                };
                assert(list[at] == y);
                assert(list.contains(y));
            }
            if fewer.contains(y) {
                assert(list.contains(y));
                let at = list.index_of(y);
                let j = if at < k {
                    at
                } else {
                    at - 1
                };
                assert(shorter[j] == y);
            }
        }
        assert(shorter.to_set() =~= fewer);
        lemma_same_items(shorter, fewer, f);
        let rest = fewer.to_seq().map_values(f);
        assert(list.map_values(f).remove(k) =~= shorter.map_values(f));
        vstd::seq_lib::to_multiset_remove(list.map_values(f), k);
        assert(items.to_seq().map_values(f) =~= rest.insert(0, f(x)));
        vstd::seq_lib::to_multiset_insert(rest, 0, f(x));
        assert(list.map_values(f)[k] == f(x));
        assert(list.map_values(f).contains(f(x)));
        assert(list.map_values(f).to_multiset().remove(f(x)).insert(f(x)) =~= list.map_values(
            f,
        ).to_multiset());
    }
}

/// Lists of the same texts are the same when sorted.
proof fn lemma_same_order(a: Seq<Seq<char>>, b: Seq<Seq<char>>)
    requires
        a.to_multiset() == b.to_multiset(),
    ensures
        a.sort_by(lex_order()) == b.sort_by(lex_order()),
{
    law_lex_order_is_total();
    a.lemma_sort_by_ensures(lex_order());
    b.lemma_sort_by_ensures(lex_order());
    vstd::seq_lib::lemma_sorted_unique(a.sort_by(lex_order()), b.sort_by(lex_order()), lex_order());
}

/// The names other than that of `root` that a chain of direct dependencies leads
/// to from `root`, where the others are looked up in `structs`.
pub open spec fn reached(
    structs: Map<Seq<char>, StructModel>,
    names: Set<Seq<char>>,
    root: StructModel,
) -> Set<Seq<char>> {
    Set::new(
        |name: Seq<char>|
            name != root.name && exists|chain: Seq<Seq<char>>| #[trigger]
                is_dep_chain(structs.insert(root.name, root), names, chain) && chain[0] == root.name
                    && chain.last() == name,
    )
}

/// All structs transitively referenced by `root` (excluding `root` itself). Each
/// of them must be in `encodable`.
pub fn transitive_struct_deps(
    root: &EncodableStruct,
    encodable: &NameMap<EncodableStruct>,
    all_struct_names: &NameSet,
) -> (r: Vec<String>)
    requires
        forall|name: Seq<char>| #[trigger]
            reached(encodable@, all_struct_names@, root@).contains(name)
                ==> encodable@.contains_key(name),
    ensures
        texts(r@).no_duplicates(),
        texts(r@).to_set() == reached(encodable@, all_struct_names@, root@),
{
    let ghost names = all_struct_names@;
    let ghost start = root@.name;
    let ghost structs = encodable@.insert(start, root@);
    let ghost goal = reached(encodable@, names, root@);
    let mut visited = NameSet::new();
    let mut stack = direct_struct_deps(root, all_struct_names);
    proof {
        all_struct_names.lemma_finite();
        lemma_reached_step(encodable@, names, root@, start);
        assert(texts(stack@) == structs[start].deps(names));
        vstd::set_lib::lemma_len_subset(visited@, names);
    }
    while stack.len() > 0
        invariant
            names == all_struct_names@,
            names.finite(),
            start == root@.name,
            structs == encodable@.insert(start, root@),
            goal == reached(encodable@, names, root@),
            forall|name: Seq<char>| #[trigger]
                goal.contains(name) ==> encodable@.contains_key(name),
            visited@.subset_of(names),
            visited@.subset_of(goal),
            forall|d: Seq<char>| #[trigger]
                texts(stack@).contains(d) ==> names.contains(d) && (d == start || goal.contains(d)),
            forall|v: Seq<char>, d: Seq<char>|
                (visited@.contains(v) || v == start) && #[trigger] structs[v].deps(names).contains(
                    d,
                ) ==> d == start || visited@.contains(d) || texts(stack@).contains(d),
        decreases names.len() - visited@.len(), stack@.len(),
    {
        let ghost whole = texts(stack@);
        let next = stack.pop().unwrap();
        let ghost dep = next@;
        proof {
            vstd::set_lib::lemma_len_subset(visited@, names);
            assert(texts(stack@) =~= whole.drop_last());
            assert(whole.last() == dep);
            assert(whole.contains(dep));
            assert forall|d: Seq<char>| #[trigger] whole.contains(d) implies d == dep || texts(
                stack@,
            ).contains(d) by {
                let k = whole.index_of(d);
                if k < whole.len() - 1 {
                    assert(texts(stack@)[k] == d);
                }
            }
            assert forall|d: Seq<char>| #[trigger] texts(stack@).contains(d) implies whole.contains(
                d,
            ) by {
                let k = texts(stack@).index_of(d);
                assert(whole[k] == d);
            }
        }
        if !text_eq(next.as_str(), root.name.as_str()) && !visited.contains(next.as_str()) {
            let dependency = encodable.get(next.as_str()).unwrap();
            let mut further = direct_struct_deps(dependency, all_struct_names);
            let ghost before_visit = visited@;
            let ghost rest = texts(stack@);
            let ghost added = texts(further@);
            visited.insert(next);
            stack.append(&mut further);
            proof {
                let all = texts(stack@);
                assert(all =~= rest + added);
                assert(visited@ == before_visit.insert(dep));
                vstd::set_lib::lemma_len_subset(visited@, names);
                assert forall|d: Seq<char>| #[trigger] all.contains(d) <==> rest.contains(d)
                    || added.contains(d) by {
                    if rest.contains(d) {
                        let k = rest.index_of(d);
                        assert(all[k] == d);
                    }
                    if added.contains(d) {
                        let k = added.index_of(d);
                        assert(all[rest.len() + k] == d);
                    }
                }
                assert(added == structs[dep].deps(names));
                lemma_reached_step(encodable@, names, root@, dep);
            }
        }
    }
    proof {
        assert(texts(stack@).len() == 0);
        assert forall|d: Seq<char>| #[trigger] goal.contains(d) implies visited@.contains(d) by {
            let chain = choose|chain: Seq<Seq<char>>| #[trigger]
                is_dep_chain(structs, names, chain) && chain[0] == start && chain.last() == d;
            lemma_dep_chain_stays(structs, names, start, visited@, chain, chain.len() - 1);
        }
        assert(visited@ =~= goal);
    }
    visited.into_names()
}

/// What a reached struct refers to directly is reached, or is the root.
pub proof fn lemma_reached_step(
    structs: Map<Seq<char>, StructModel>,
    names: Set<Seq<char>>,
    root: StructModel,
    step: Seq<char>,
)
    requires
        step == root.name || (reached(structs, names, root).contains(step) && structs.contains_key(
            step,
        )),
    ensures
        forall|d: Seq<char>| #[trigger]
            structs.insert(root.name, root)[step].deps(names).contains(d) ==> names.contains(d) && (
            d == root.name || reached(structs, names, root).contains(d)),
{
    let all = structs.insert(root.name, root);
    let s = all[step];
    assert forall|d: Seq<char>| #[trigger] s.deps(names).contains(d) implies names.contains(d) && (d
        == root.name || reached(structs, names, root).contains(d)) by {
        lemma_deps_are_named(s, names, d);
        let chain = if step == root.name {
            seq![step]
        } else {
            choose|chain: Seq<Seq<char>>| #[trigger]
                is_dep_chain(all, names, chain) && chain[0] == root.name && chain.last() == step
        };
        let longer = chain.push(d);
        assert forall|i: int| 0 <= i < longer.len() - 1 implies all.contains_key(
            #[trigger] longer[i],
        ) && all[longer[i]].deps(names).contains(longer[i + 1]) by {
            assert(longer[i] == chain[i]);
            if i + 1 < chain.len() {
                assert(longer[i + 1] == chain[i + 1]);
            }
        }
        assert(is_dep_chain(all, names, longer) && longer[0] == root.name && longer.last() == d);
    }
}

/// A chain that begins inside a set that no dependency leaves ends inside it.
proof fn lemma_dep_chain_stays(
    structs: Map<Seq<char>, StructModel>,
    names: Set<Seq<char>>,
    start: Seq<char>,
    inside: Set<Seq<char>>,
    chain: Seq<Seq<char>>,
    i: int,
)
    requires
        is_dep_chain(structs, names, chain),
        chain[0] == start,
        0 <= i < chain.len(),
        forall|v: Seq<char>, d: Seq<char>|
            (inside.contains(v) || v == start) && #[trigger] structs[v].deps(names).contains(d)
                ==> d == start || inside.contains(d),
    ensures
        chain[i] == start || inside.contains(chain[i]),
    decreases i,
{
    if i > 0 {
        lemma_dep_chain_stays(structs, names, start, inside, chain, i - 1);
        assert(structs[chain[i - 1]].deps(names).contains(chain[i - 1 + 1]));
    }
}

/// Where structs can stand by themselves, chains of direct dependencies lead to
/// the structs that a struct depends on.
proof fn lemma_reached_are_dependencies(
    structs: Map<Seq<char>, StructModel>,
    names: Set<Seq<char>>,
    root: Seq<char>,
)
    requires
        self_contained(structs, names),
        structs.contains_key(root),
    ensures
        reached(structs, names, structs[root]) == dependencies(structs, root),
        forall|name: Seq<char>| #[trigger]
            reached(structs, names, structs[root]).contains(name) ==> structs.contains_key(name),
{
    let goal = reached(structs, names, structs[root]);
    let deps = dependencies(structs, root);
    assert(structs.insert(root, structs[root]) =~= structs);
    assert forall|v: Seq<char>, d: Seq<char>|
        (deps.contains(v) || v == root) && #[trigger] structs[v].deps(names).contains(d) implies d
        == root || deps.contains(d) by {
        if v != root {
            lemma_leads_to_a_struct(structs, root, v);
        }
        lemma_deps(structs[v], names, d);
        assert(refers(structs, v, d));
        lemma_part_step(structs, root, v, d);
    }
    assert forall|v: Seq<char>, d: Seq<char>|
        (goal.contains(v) || v == root) && #[trigger] refers(structs, v, d) implies d == root
        || goal.contains(d) by {
        lemma_deps(structs[v], names, d);
        lemma_reached_step(structs, names, structs[root], v);
    }
    assert forall|d: Seq<char>| #[trigger] goal.contains(d) <==> deps.contains(d) by {
        if goal.contains(d) {
            let chain = choose|chain: Seq<Seq<char>>| #[trigger]
                is_dep_chain(structs, names, chain) && chain[0] == root && chain.last() == d;
            lemma_dep_chain_stays(structs, names, root, deps, chain, chain.len() - 1);
        }
        if deps.contains(d) {
            let chain = choose|chain: Seq<Seq<char>>|
                #[trigger] is_chain(structs, chain) && chain[0] == root && chain.last() == d;
            lemma_chain_stays(structs, root, goal, chain, chain.len() - 1);
        }
    }
    assert(goal =~= deps);
    assert forall|name: Seq<char>| #[trigger] goal.contains(name) implies structs.contains_key(
        name,
    ) by {
        lemma_leads_to_a_struct(structs, root, name);
    }
}

proof fn lemma_one_step(structs: Map<Seq<char>, StructModel>, a: Seq<char>, b: Seq<char>)
    requires
        refers(structs, a, b),
    ensures
        leads_to(structs, a, b),
{
    let chain = seq![a, b];
    assert(is_chain(structs, chain) && chain[0] == a && chain.last() == b);
}

proof fn lemma_one_step_more(
    structs: Map<Seq<char>, StructModel>,
    a: Seq<char>,
    b: Seq<char>,
    c: Seq<char>,
)
    requires
        leads_to(structs, a, b),
        refers(structs, b, c),
    ensures
        leads_to(structs, a, c),
{
    let chain = choose|chain: Seq<Seq<char>>|
        #[trigger] is_chain(structs, chain) && chain[0] == a && chain.last() == b;
    let longer = chain.push(c);
    assert forall|i: int| 0 <= i < longer.len() - 1 implies refers(
        structs,
        #[trigger] longer[i],
        longer[i + 1],
    ) by {
        assert(longer[i] == chain[i]);
        if i < chain.len() - 1 {
            assert(longer[i + 1] == chain[i + 1]);
        }
    }
    assert(is_chain(structs, longer) && longer[0] == a && longer.last() == c);
}

/// What a struct depends on is a struct.
pub proof fn lemma_leads_to_a_struct(
    structs: Map<Seq<char>, StructModel>,
    a: Seq<char>,
    b: Seq<char>,
)
    requires
        leads_to(structs, a, b),
    ensures
        structs.contains_key(b),
{
    let chain = choose|chain: Seq<Seq<char>>|
        #[trigger] is_chain(structs, chain) && chain[0] == a && chain.last() == b;
    assert(refers(structs, chain[chain.len() - 2], chain[chain.len() - 1]));
}

/// A chain that begins inside a set that no reference leaves ends inside it.
proof fn lemma_chain_stays(
    structs: Map<Seq<char>, StructModel>,
    start: Seq<char>,
    inside: Set<Seq<char>>,
    chain: Seq<Seq<char>>,
    i: int,
)
    requires
        is_chain(structs, chain),
        chain[0] == start,
        0 <= i < chain.len(),
        forall|v: Seq<char>, d: Seq<char>|
            (inside.contains(v) || v == start) && #[trigger] refers(structs, v, d) ==> d == start
                || inside.contains(d),
    ensures
        chain[i] == start || inside.contains(chain[i]),
    decreases i,
{
    if i > 0 {
        lemma_chain_stays(structs, start, inside, chain, i - 1);
        assert(refers(structs, chain[i - 1], chain[i]));
    }
}

/// Whether `name` is `root` or a struct that it depends on.
pub open spec fn is_part(
    structs: Map<Seq<char>, StructModel>,
    root: Seq<char>,
    name: Seq<char>,
) -> bool {
    name == root || leads_to(structs, root, name)
}

/// Whether neither `root` nor a struct that it depends on depends on itself.
pub open spec fn is_acyclic(structs: Map<Seq<char>, StructModel>, root: Seq<char>) -> bool {
    forall|name: Seq<char>| #[trigger]
        is_part(structs, root, name) ==> !leads_to(structs, name, name)
}

/// Whether all members of `root` and of the structs that it depends on are of
/// member types: no array among them has the size zero.
pub open spec fn is_readable(structs: Map<Seq<char>, StructModel>, root: Seq<char>) -> bool {
    forall|name: Seq<char>| #[trigger]
        is_part(structs, root, name) ==> structs[name].head().readable()
}

/// Whether all members of `root` and of the structs that it depends on are of
/// basic types, of structs, or of arrays of these.
pub open spec fn is_resolved(structs: Map<Seq<char>, StructModel>, root: Seq<char>) -> bool {
    forall|name: Seq<char>, i: int|
        is_part(structs, root, name) && 0 <= i < structs[name].head().members.len() ==> {
            let base = before((#[trigger] structs[name].head().members[i]).0, '[');
            is_basic(base) || structs.contains_key(base)
        }
}

/// Whether each struct bears its own name, and has a well-formed head.
pub open spec fn have_heads(structs: Map<Seq<char>, StructModel>) -> bool {
    forall|name: Seq<char>| #[trigger]
        structs.contains_key(name) ==> structs[name].name == name
            && structs[name].head().well_formed()
}

/// The heads that the canonical text of `root` consists of.
pub open spec fn canonical_heads(
    structs: Map<Seq<char>, StructModel>,
    root: Seq<char>,
) -> Seq<HeadModel> {
    seq![structs[root].head()] + dependency_heads(structs, root).map_values(
        |text: Seq<char>| structs[before(text, '(')].head(),
    )
}

/// Whether `heads` are those of `root` and of the structs that it depends on,
/// each once and `root` first.
spec fn heads_match(
    structs: Map<Seq<char>, StructModel>,
    root: Seq<char>,
    heads: Seq<HeadModel>,
) -> bool {
    &&& heads.len() > 0
    &&& heads[0].name == root
    &&& forall|i: int|
        0 <= i < heads.len() ==> {
            &&& is_part(structs, root, (#[trigger] heads[i]).name)
            &&& structs.contains_key(heads[i].name)
            &&& heads[i] == structs[heads[i].name].head()
        }
    &&& forall|i: int, j: int|
        0 <= i < j < heads.len() ==> (#[trigger] heads[i]).name != (#[trigger] heads[j]).name
    &&& forall|name: Seq<char>| #[trigger]
        is_part(structs, root, name) ==> exists|i: int|
            0 <= i < heads.len() && (#[trigger] heads[i]).name == name
}

/// The position of a struct among heads.
spec fn position(heads: Seq<HeadModel>, name: Seq<char>) -> int {
    choose|i: int| 0 <= i < heads.len() && (#[trigger] heads[i]).name == name
}

proof fn lemma_chain_gives_path(
    structs: Map<Seq<char>, StructModel>,
    root: Seq<char>,
    heads: Seq<HeadModel>,
    chain: Seq<Seq<char>>,
)
    requires
        heads_match(structs, root, heads),
        is_chain(structs, chain),
        is_part(structs, root, chain[0]),
    ensures
        head_leads_to(heads, position(heads, chain[0]), position(heads, chain.last())),
{
    let path = chain.map_values(|name: Seq<char>| position(heads, name));
    assert forall|i: int| 0 <= i < chain.len() implies is_part(
        structs,
        root,
        #[trigger] chain[i],
    ) by {
        lemma_chain_is_part(structs, root, chain, i);
    }
    assert forall|i: int| 0 <= i < path.len() implies 0 <= #[trigger] path[i] < heads.len()
        && heads[path[i]].name == chain[i] by {
        assert(is_part(structs, root, chain[i]));
    }
    assert forall|i: int| 0 <= i < path.len() - 1 implies heads[#[trigger] path[i]].refers_to(
        heads[path[i + 1]].name,
    ) by {
        assert(refers(structs, chain[i], chain[i + 1]));
        assert(heads[path[i]].name == chain[i]);
        assert(heads[path[i + 1]].name == chain[i + 1]);
    }
    assert(is_head_path(heads, path) && path[0] == position(heads, chain[0]) && path.last()
        == position(heads, chain.last()));
}

/// A chain that begins with a part consists of parts.
pub proof fn lemma_chain_is_part(
    structs: Map<Seq<char>, StructModel>,
    root: Seq<char>,
    chain: Seq<Seq<char>>,
    i: int,
)
    requires
        is_chain(structs, chain),
        is_part(structs, root, chain[0]),
        0 <= i < chain.len(),
    ensures
        is_part(structs, root, chain[i]),
    decreases i,
{
    if i > 0 {
        lemma_chain_is_part(structs, root, chain, i - 1);
        assert(refers(structs, chain[i - 1], chain[i]));
        if chain[i - 1] == root {
            lemma_one_step(structs, root, chain[i]);
        } else {
            lemma_one_step_more(structs, root, chain[i - 1], chain[i]);
        }
    }
}

proof fn lemma_path_gives_chain(
    structs: Map<Seq<char>, StructModel>,
    root: Seq<char>,
    heads: Seq<HeadModel>,
    from: int,
    to: int,
)
    requires
        heads_match(structs, root, heads),
        head_leads_to(heads, from, to),
    ensures
        0 <= from < heads.len(),
        0 <= to < heads.len(),
        leads_to(structs, heads[from].name, heads[to].name),
{
    let path = choose|path: Seq<int>|
        #[trigger] is_head_path(heads, path) && path[0] == from && path.last() == to;
    let chain = path.map_values(|i: int| heads[i].name);
    assert forall|i: int| 0 <= i < chain.len() - 1 implies refers(
        structs,
        #[trigger] chain[i],
        chain[i + 1],
    ) by {
        assert(0 <= path[i] < heads.len());
        assert(0 <= path[i + 1] < heads.len());
        assert(heads[path[i]].refers_to(heads[path[i + 1]].name));
    }
    assert(is_chain(structs, chain) && chain[0] == heads[from].name && chain.last()
        == heads[to].name);
}

/// The heads of a canonical text stand in canonical order, and the structs have
/// the properties that their heads have.
pub proof fn lemma_canonical_heads(structs: Map<Seq<char>, StructModel>, root: Seq<char>)
    requires
        structs.dom().finite(),
        have_heads(structs),
        structs.contains_key(root),
    ensures
        heads_text(canonical_heads(structs, root)) == canonical_text(structs, root),
        in_canonical_order(canonical_heads(structs, root)),
        canonical_heads(structs, root)[0].name == root,
        is_readable(structs, root) <==> heads_readable(canonical_heads(structs, root)),
        is_acyclic(structs, root) <==> heads_acyclic(canonical_heads(structs, root)),
        is_resolved(structs, root) <==> heads_resolve(canonical_heads(structs, root)),
{
    let heads = canonical_heads(structs, root);
    let tail = dependency_heads(structs, root);
    lemma_heads_match(structs, root);
    assert(head_texts(heads) =~= seq![structs[root].head().text()] + tail) by {
        assert forall|i: int| 0 <= i < tail.len() implies head_texts(heads)[i + 1] == tail[i] by {
            lemma_dependency_head(structs, root, i);
        }
    }
    assert(head_texts(heads).skip(1) =~= tail);
    assert(head_texts(heads).drop_first() =~= tail);
    law_lex_order_is_total();
    dependencies(structs, root).to_seq().map_values(
        |name: Seq<char>| structs[name].head().text(),
    ).lemma_sort_by_ensures(lex_order());
    assert(heads_text(heads) =~= canonical_text(structs, root));
    assert forall|i: int| 1 <= i < heads.len() implies #[trigger] head_leads_to(heads, 0, i) by {
        let name = heads[i].name;
        assert(is_part(structs, root, name));
        assert(heads[0].name != name);
        let chain = choose|chain: Seq<Seq<char>>|
            #[trigger] is_chain(structs, chain) && chain[0] == root && chain.last() == name;
        lemma_chain_gives_path(structs, root, heads, chain);
        assert(position(heads, root) == 0);
        assert(position(heads, name) == i);
    }
    if is_acyclic(structs, root) {
        assert forall|i: int| 0 <= i < heads.len() implies !#[trigger] head_leads_to(
            heads,
            i,
            i,
        ) by {
            assert(is_part(structs, root, heads[i].name));
            if head_leads_to(heads, i, i) {
                lemma_path_gives_chain(structs, root, heads, i, i);
            }
        }
    }
    if heads_acyclic(heads) {
        assert forall|name: Seq<char>| #[trigger] is_part(structs, root, name) implies !leads_to(
            structs,
            name,
            name,
        ) by {
            if leads_to(structs, name, name) {
                let chain = choose|chain: Seq<Seq<char>>|
                    #[trigger] is_chain(structs, chain) && chain[0] == name && chain.last() == name;
                lemma_chain_gives_path(structs, root, heads, chain);
            }
        }
    }
    if is_readable(structs, root) {
        assert forall|i: int| 0 <= i < heads.len() implies (#[trigger] heads[i]).readable() by {
            assert(is_part(structs, root, heads[i].name));
        }
    }
    if heads_readable(heads) {
        assert forall|name: Seq<char>| #[trigger]
            is_part(structs, root, name) implies structs[name].head().readable() by {
            let i = choose|i: int| 0 <= i < heads.len() && (#[trigger] heads[i]).name == name;
            assert(heads[i].readable());
        }
    }
    if is_resolved(structs, root) {
        assert forall|i: int| 0 <= i < heads.len() implies #[trigger] head_resolves(heads, i) by {
            let name = heads[i].name;
            assert(is_part(structs, root, name));
            assert forall|j: int| 0 <= j < heads[i].members.len() implies {
                let base = before((#[trigger] heads[i].members[j]).0, '[');
                is_basic(base) || exists|k: int|
                    0 <= k < heads.len() && (#[trigger] heads[k]).name == base
            } by {
                let base = before(heads[i].members[j].0, '[');
                assert(structs[name].head().members[j] == heads[i].members[j]);
                if !is_basic(base) {
                    assert(structs.contains_key(base));
                    assert(refers(structs, name, base));
                    lemma_part_step(structs, root, name, base);
                }
            }
        }
    }
    if heads_resolve(heads) {
        assert forall|name: Seq<char>, j: int|
            is_part(structs, root, name) && 0 <= j < structs[name].head().members.len() implies {
            let base = before((#[trigger] structs[name].head().members[j]).0, '[');
            is_basic(base) || structs.contains_key(base)
        } by {
            let i = choose|i: int| 0 <= i < heads.len() && (#[trigger] heads[i]).name == name;
            assert(head_resolves(heads, i));
            assert(structs[name].head().members[j] == heads[i].members[j]);
        }
    }
}

/// What a part refers to is a part.
pub proof fn lemma_part_step(
    structs: Map<Seq<char>, StructModel>,
    root: Seq<char>,
    part: Seq<char>,
    name: Seq<char>,
)
    requires
        is_part(structs, root, part),
        refers(structs, part, name),
    ensures
        is_part(structs, root, name),
        leads_to(structs, root, name),
{
    if part == root {
        lemma_one_step(structs, root, name);
    } else {
        lemma_one_step_more(structs, root, part, name);
    }
}

/// A part of a part is a part.
pub proof fn lemma_part_of_part(
    structs: Map<Seq<char>, StructModel>,
    root: Seq<char>,
    part: Seq<char>,
    name: Seq<char>,
)
    requires
        is_part(structs, root, part),
        is_part(structs, part, name),
    ensures
        is_part(structs, root, name),
{
    if name != part {
        let chain = choose|chain: Seq<Seq<char>>|
            #[trigger] is_chain(structs, chain) && chain[0] == part && chain.last() == name;
        lemma_chain_is_part(structs, root, chain, chain.len() - 1);
    }
}

/// The text of a head begins with its name.
proof fn lemma_name_in_front(structs: Map<Seq<char>, StructModel>, name: Seq<char>)
    requires
        have_heads(structs),
        structs.contains_key(name),
    ensures
        before(structs[name].head().text(), '(') == name,
{
    lemma_head_name(structs[name].head());
}

/// What the heads of dependencies are made of.
proof fn lemma_dependency_head(structs: Map<Seq<char>, StructModel>, root: Seq<char>, i: int)
    requires
        structs.dom().finite(),
        have_heads(structs),
        0 <= i < dependency_heads(structs, root).len(),
    ensures
        dependencies(structs, root).contains(before(dependency_heads(structs, root)[i], '(')),
        structs.contains_key(before(dependency_heads(structs, root)[i], '(')),
        structs[before(dependency_heads(structs, root)[i], '(')].head().text() == dependency_heads(
            structs,
            root,
        )[i],
{
    let deps = dependencies(structs, root);
    let head_of = |name: Seq<char>| structs[name].head().text();
    let unsorted = deps.to_seq().map_values(head_of);
    let tail = dependency_heads(structs, root);
    law_lex_order_is_total();
    unsorted.lemma_sort_by_ensures(lex_order());
    assert(tail.contains(tail[i]));
    assert(unsorted.contains(tail[i]));
    let k = unsorted.index_of(tail[i]);
    let name = deps.to_seq()[k];
    lemma_dependencies_are_finite(structs, root);
    deps.lemma_to_seq_to_set_id();
    assert(deps.to_seq().contains(name));
    assert(deps.to_seq().to_set().contains(name));
    lemma_leads_to_a_struct(structs, root, name);
    lemma_name_in_front(structs, name);
}

/// A struct depends on finitely many others.
pub proof fn lemma_dependencies_are_finite(structs: Map<Seq<char>, StructModel>, root: Seq<char>)
    requires
        structs.dom().finite(),
    ensures
        dependencies(structs, root).finite(),
{
    let deps = dependencies(structs, root);
    assert forall|name: Seq<char>| #[trigger] deps.contains(name) implies structs.dom().contains(
        name,
    ) by {
        lemma_leads_to_a_struct(structs, root, name);
    }
    vstd::set_lib::lemma_len_subset(deps, structs.dom());
}

/// A set as a list holds each item once.
pub proof fn lemma_to_seq_has_no_duplicates(items: Set<Seq<char>>)
    requires
        items.finite(),
    ensures
        items.to_seq().no_duplicates(),
    decreases items.len(),
{
    if items.len() > 0 {
        let x = items.choose();
        let fewer = items.remove(x);
        lemma_to_seq_has_no_duplicates(fewer);
        fewer.lemma_to_seq_to_set_id();
        let rest = fewer.to_seq();
        let all = items.to_seq();
        assert(all =~= seq![x] + rest);
        assert forall|i: int, j: int| 0 <= i < j < all.len() implies all[i] != all[j] by {
            assert(rest[j - 1] == all[j]);
            if i == 0 {
                assert(rest.contains(rest[j - 1]));
                assert(rest.to_set().contains(rest[j - 1]));
            } else {
                assert(rest[i - 1] == all[i]);
            }
        }
    }
}

proof fn lemma_heads_match(structs: Map<Seq<char>, StructModel>, root: Seq<char>)
    requires
        structs.dom().finite(),
        have_heads(structs),
        structs.contains_key(root),
    ensures
        heads_match(structs, root, canonical_heads(structs, root)),
{
    let heads = canonical_heads(structs, root);
    let deps = dependencies(structs, root);
    let tail = dependency_heads(structs, root);
    let head_of = |name: Seq<char>| structs[name].head().text();
    let unsorted = deps.to_seq().map_values(head_of);
    lemma_dependencies_are_finite(structs, root);
    lemma_to_seq_has_no_duplicates(deps);
    deps.lemma_to_seq_to_set_id();
    law_lex_order_is_total();
    unsorted.lemma_sort_by_ensures(lex_order());
    assert forall|i: int| 0 <= i < heads.len() implies {
        &&& is_part(structs, root, (#[trigger] heads[i]).name)
        &&& structs.contains_key(heads[i].name)
        &&& heads[i] == structs[heads[i].name].head()
        &&& i > 0 ==> heads[i].name == before(tail[i - 1], '(') && heads[i].name != root
    } by {
        if i > 0 {
            lemma_dependency_head(structs, root, i - 1);
        }
    }
    assert(unsorted.no_duplicates()) by {
        assert forall|i: int, j: int|
            0 <= i < unsorted.len() && 0 <= j < unsorted.len() && i != j implies unsorted[i]
            != unsorted[j] by {
            let a = deps.to_seq()[i];
            let b = deps.to_seq()[j];
            assert(deps.to_seq().contains(a) && deps.to_seq().contains(b));
            assert(deps.to_seq().to_set().contains(a) && deps.to_seq().to_set().contains(b));
            lemma_leads_to_a_struct(structs, root, a);
            lemma_leads_to_a_struct(structs, root, b);
            lemma_name_in_front(structs, a);
            lemma_name_in_front(structs, b);
        }
    }
    unsorted.lemma_multiset_has_no_duplicates();
    tail.lemma_multiset_has_no_duplicates_conv();
    assert forall|i: int, j: int| 0 <= i < j < heads.len() implies (#[trigger] heads[i]).name != (
    #[trigger] heads[j]).name by {
        lemma_dependency_head(structs, root, j - 1);
        if i > 0 {
            lemma_dependency_head(structs, root, i - 1);
            assert(tail[i - 1] != tail[j - 1]);
        }
    }
    assert forall|name: Seq<char>| #[trigger] is_part(structs, root, name) implies exists|i: int|
        0 <= i < heads.len() && (#[trigger] heads[i]).name == name by {
        if name == root {
            assert(heads[0].name == name);
        } else {
            assert(deps.contains(name));
            assert(deps.to_seq().to_set().contains(name));
            let k = deps.to_seq().index_of(name);
            assert(unsorted[k] == head_of(name));
            assert(unsorted.contains(head_of(name)));
            lemma_same_contents(unsorted, tail, head_of(name));
            let i = tail.index_of(head_of(name));
            lemma_leads_to_a_struct(structs, root, name);
            lemma_name_in_front(structs, name);
            assert(heads[i + 1].name == name);
        }
    }
}

/// Lists with the same items, counted, hold the same items.
proof fn lemma_same_contents(a: Seq<Seq<char>>, b: Seq<Seq<char>>, x: Seq<char>)
    requires
        a.to_multiset() == b.to_multiset(),
        a.contains(x),
    ensures
        b.contains(x),
{
    broadcast use vstd::seq_lib::group_to_multiset_ensures;

    assert(a.to_multiset().count(x) > 0);
}

/// The heads behind the first in a canonical text are sorted, and are those of
/// the structs that `root` depends on, each once.
pub proof fn law_dependencies_are_sorted_and_occur_once(
    structs: Map<Seq<char>, StructModel>,
    root: Seq<char>,
)
    requires
        structs.dom().finite(),
        have_heads(structs),
        structs.contains_key(root),
    ensures
        sorted_by(dependency_heads(structs, root), lex_order()),
        dependency_heads(structs, root).no_duplicates(),
        forall|text: Seq<char>| #[trigger]
            dependency_heads(structs, root).contains(text) <==> exists|name: Seq<char>| #[trigger]
                dependencies(structs, root).contains(name) && structs[name].head().text() == text,
{
    let deps = dependencies(structs, root);
    let tail = dependency_heads(structs, root);
    let heads = canonical_heads(structs, root);
    let head_of = |name: Seq<char>| structs[name].head().text();
    lemma_heads_match(structs, root);
    law_lex_order_is_total();
    deps.to_seq().map_values(head_of).lemma_sort_by_ensures(lex_order());
    assert forall|i: int, j: int|
        0 <= i < tail.len() && 0 <= j < tail.len() && i != j implies tail[i] != tail[j] by {
        lemma_dependency_head(structs, root, i);
        lemma_dependency_head(structs, root, j);
        assert(heads[i + 1].name != heads[j + 1].name);
    }
    assert forall|text: Seq<char>| #[trigger] tail.contains(text) <==> exists|name: Seq<char>|
        #[trigger] deps.contains(name) && structs[name].head().text() == text by {
        if tail.contains(text) {
            let i = tail.index_of(text);
            lemma_dependency_head(structs, root, i);
            assert(deps.contains(before(text, '(')));
        }
        if exists|name: Seq<char>| #[trigger]
            deps.contains(name) && structs[name].head().text() == text {
            let name = choose|name: Seq<char>| #[trigger]
                deps.contains(name) && structs[name].head().text() == text;
            assert(is_part(structs, root, name));
            let i = choose|i: int| 0 <= i < heads.len() && (#[trigger] heads[i]).name == name;
            lemma_dependency_head(structs, root, i - 1);
            assert(tail[i - 1] == text);
        }
    }
}

} // verus!
