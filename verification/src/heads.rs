//! Struct heads, `Name(type member,...)`, as `encodeType` texts are made of them:
//! how they are spelled, what they refer to, and the canonical form that EIP-712
//! gives to a list of them.
use crate::text::{before, decimal, digit, joined, lex_order, trimmed};
use crate::types::{is_id_continue, is_identifier, is_type_name, lemma_identifier_is_type_name};
use vstd::prelude::*;
use vstd::relations::sorted_by;

verus! {

/// Whether `s` is made of the characters that encoded member types and member
/// names are made of.
pub open spec fn is_token(s: Seq<char>) -> bool {
    &&& s.len() > 0
    &&& forall|i: int|
        0 <= i < s.len() ==> is_id_continue(#[trigger] s[i]) || s[i] == '[' || s[i] == ']'
}

/// Whether `s` is made of decimal digits.
pub open spec fn is_digits(s: Seq<char>) -> bool {
    &&& s.len() > 0
    &&& forall|i: int| 0 <= i < s.len() ==> '0' <= #[trigger] s[i] <= '9'
}

/// The number that decimal digits stand for.
pub open spec fn number(s: Seq<char>) -> int
    decreases s.len(),
{
    if s.len() == 0 {
        0
    } else {
        10 * number(s.drop_last()) + (s.last() as int - '0' as int)
    }
}

/// Whether `s` can stand between the brackets of an array type: nothing, or a
/// size that is not zero and fits in a `usize`.
pub open spec fn is_array_size(s: Seq<char>) -> bool {
    s.len() == 0 || (is_digits(s) && 1 <= number(s) <= usize::MAX)
}

/// Whether `s` consists of array sizes, each in brackets.
pub open spec fn are_array_suffixes(s: Seq<char>) -> bool
    decreases s.len(),
{
    s.len() == 0 || {
        let size = before(s.skip(1), ']');
        &&& s[0] == '['
        &&& size.len() + 1 < s.len()
        &&& is_array_size(size)
        &&& are_array_suffixes(s.skip(size.len() as int + 2))
    }
}

/// Whether `s` is a member type: an identifier, and behind it the suffixes of
/// arrays that are not empty.
pub open spec fn is_member_type(s: Seq<char>) -> bool {
    let base = before(s, '[');
    is_identifier(base) && are_array_suffixes(s.skip(base.len() as int))
}

/// Whether `s` is `stem`, followed by digits that stand for a number from `least`
/// to `most`, a multiple of `step`.
pub open spec fn is_sized(s: Seq<char>, stem: Seq<char>, least: int, most: int, step: int) -> bool {
    let digits = s.skip(stem.len() as int);
    &&& stem.is_prefix_of(s)
    &&& is_digits(digits)
    &&& least <= number(digits) <= most
    &&& number(digits) % step == 0
}

/// Whether `s` names a type that is not a struct: one that is built into
/// Solidity, or a qualified name, which stands for an enum.
pub open spec fn is_basic(s: Seq<char>) -> bool {
    ||| s == "address"@
    ||| s == "bool"@
    ||| s == "string"@
    ||| s == "bytes"@
    ||| s == "uint"@
    ||| s == "int"@
    ||| s == "function"@
    ||| is_sized(s, "bytes"@, 1, 32, 1)
    ||| is_sized(s, "int"@, 8, 256, 8)
    ||| is_sized(s, "uint"@, 8, 256, 8)
    ||| is_type_name(s) && s.contains('.')
}

/// A struct as an `encodeType` string shows it: its name and, for each member,
/// the encoded type and the name.
pub ghost struct HeadModel {
    pub name: Seq<char>,
    pub members: Seq<(Seq<char>, Seq<char>)>,
}

impl HeadModel {
    /// Whether name and members are made of the characters that they may be
    /// made of.
    pub open spec fn well_formed(self) -> bool {
        &&& is_identifier(self.name)
        &&& forall|i: int|
            0 <= i < self.members.len() ==> is_token((#[trigger] self.members[i]).0) && is_token(
                self.members[i].1,
            )
    }

    /// Whether the types of all members are member types.
    pub open spec fn readable(self) -> bool {
        forall|i: int|
            0 <= i < self.members.len() ==> is_member_type((#[trigger] self.members[i]).0)
    }

    /// `type member` for each member.
    pub open spec fn member_texts(self) -> Seq<Seq<char>> {
        self.members.map_values(|m: (Seq<char>, Seq<char>)| m.0 + " "@ + m.1)
    }

    /// `Name(type member,...)`
    pub open spec fn text(self) -> Seq<char> {
        head_span(self.name, self.member_texts())
    }

    /// Whether a member is of type `name`, or of an array of it.
    pub open spec fn refers_to(self, name: Seq<char>) -> bool {
        exists|i: int|
            0 <= i < self.members.len() && before((#[trigger] self.members[i]).0, '[') == name
    }
}

/// `title` and, in parentheses, `pieces` with commas between them.
pub open spec fn head_span(title: Seq<char>, pieces: Seq<Seq<char>>) -> Seq<char> {
    title + "("@ + joined(pieces, ","@) + ")"@
}

/// Whether `piece` spells a member: its type and its name, with a space between
/// them. There may be more white space around the two.
pub open spec fn spells_member(piece: Seq<char>, member: (Seq<char>, Seq<char>)) -> bool {
    exists|i: int|
        {
            &&& 0 <= i < piece.len()
            &&& #[trigger] piece[i] == ' '
            &&& !piece.skip(i + 1).contains(' ')
            &&& trimmed(piece.take(i)) == member.0
            &&& trimmed(piece.skip(i + 1)) == member.1
        }
}

/// Whether `span` spells a head. There may be white space around the name, and
/// around the types and names of members.
pub open spec fn spells_head(span: Seq<char>, head: HeadModel) -> bool {
    exists|title: Seq<char>, pieces: Seq<Seq<char>>|
        {
            &&& span == #[trigger] head_span(title, pieces)
            &&& trimmed(title) == head.name
            &&& pieces.len() == head.members.len()
            &&& forall|i: int|
                0 <= i < pieces.len() ==> spells_member(#[trigger] pieces[i], head.members[i])
        }
}

/// Whether `input` spells well-formed heads, one span for each. Behind the last
/// there may be a rest without a parenthesis.
pub open spec fn spells_heads(
    input: Seq<char>,
    spans: Seq<Seq<char>>,
    rest: Seq<char>,
    heads: Seq<HeadModel>,
) -> bool {
    &&& heads_well_formed(heads)
    &&& spans.len() == heads.len()
    &&& forall|j: int| 0 <= j < spans.len() ==> spells_head(#[trigger] spans[j], heads[j])
    &&& !rest.contains('(')
    &&& input == spans.flatten() + rest
}

/// The texts of `heads`, one after the other.
pub open spec fn heads_text(heads: Seq<HeadModel>) -> Seq<char> {
    head_texts(heads).flatten()
}

/// Whether all of `heads` are well formed.
pub open spec fn heads_well_formed(heads: Seq<HeadModel>) -> bool {
    forall|i: int| 0 <= i < heads.len() ==> (#[trigger] heads[i]).well_formed()
}

/// The text of each of `heads`.
pub open spec fn head_texts(heads: Seq<HeadModel>) -> Seq<Seq<char>> {
    heads.map_values(|h: HeadModel| h.text())
}

/// Whether the types of all members of all structs are member types.
pub open spec fn heads_readable(heads: Seq<HeadModel>) -> bool {
    forall|i: int| 0 <= i < heads.len() ==> (#[trigger] heads[i]).readable()
}

/// Whether no two structs have the same name.
pub open spec fn names_differ(heads: Seq<HeadModel>) -> bool {
    forall|i: int, j: int|
        0 <= i < j < heads.len() ==> (#[trigger] heads[i]).name != (#[trigger] heads[j]).name
}

/// `heads`, each once: one that is the same as an earlier one is left out.
pub open spec fn without_repeats(heads: Seq<HeadModel>) -> Seq<HeadModel>
    decreases heads.len(),
{
    if heads.len() == 0 {
        heads
    } else {
        let rest = without_repeats(heads.drop_last());
        if rest.contains(heads.last()) {
            rest
        } else {
            rest.push(heads.last())
        }
    }
}

/// Whether `path` leads from struct to struct: each refers to the next. There is
/// at least one step.
pub open spec fn is_head_path(heads: Seq<HeadModel>, path: Seq<int>) -> bool {
    &&& path.len() >= 2
    &&& forall|i: int| 0 <= i < path.len() ==> 0 <= #[trigger] path[i] < heads.len()
    &&& forall|i: int|
        0 <= i < path.len() - 1 ==> heads[#[trigger] path[i]].refers_to(heads[path[i + 1]].name)
}

/// Whether the struct at `from` depends on the one at `to`, by one step or more.
pub open spec fn head_leads_to(heads: Seq<HeadModel>, from: int, to: int) -> bool {
    exists|path: Seq<int>|
        #[trigger] is_head_path(heads, path) && path[0] == from && path.last() == to
}

/// Whether `i` is `from`, or a struct that it depends on.
pub open spec fn is_head_part(heads: Seq<HeadModel>, from: int, i: int) -> bool {
    i == from || head_leads_to(heads, from, i)
}

/// Whether no struct depends on itself.
pub open spec fn heads_acyclic(heads: Seq<HeadModel>) -> bool {
    forall|i: int| 0 <= i < heads.len() ==> !#[trigger] head_leads_to(heads, i, i)
}

/// Whether all members of a struct are of basic types, of one of the structs, or
/// of arrays of these.
pub open spec fn head_resolves(heads: Seq<HeadModel>, i: int) -> bool {
    forall|j: int|
        0 <= j < heads[i].members.len() ==> {
            let base = before((#[trigger] heads[i].members[j]).0, '[');
            is_basic(base) || exists|k: int|
                0 <= k < heads.len() && (#[trigger] heads[k]).name == base
        }
}

/// Whether all members of all structs are of known types.
pub open spec fn heads_resolve(heads: Seq<HeadModel>) -> bool {
    forall|i: int| 0 <= i < heads.len() ==> #[trigger] head_resolves(heads, i)
}

/// Whether no struct refers to the one at `p`.
pub open spec fn is_primary(heads: Seq<HeadModel>, p: int) -> bool {
    &&& 0 <= p < heads.len()
    &&& forall|j: int|
        0 <= j < heads.len() ==> !(#[trigger] heads[j]).refers_to(heads[p].name)
}

/// Whether `heads` have a canonical form, with the struct at `p` as the primary
/// type: it is the only one that no struct refers to, no struct that it depends
/// on depends on itself, and all types that they refer to are known.
pub open spec fn is_canonicalizable(heads: Seq<HeadModel>, p: int) -> bool {
    &&& is_primary(heads, p)
    &&& forall|q: int| #[trigger] is_primary(heads, q) ==> q == p
    &&& forall|i: int|
        0 <= i < heads.len() && #[trigger] is_head_part(heads, p, i) ==> !head_leads_to(heads, i, i)
            && head_resolves(heads, i)
}

/// Whether `head` is one that the struct at `p` depends on.
pub open spec fn is_other_part(heads: Seq<HeadModel>, p: int, head: HeadModel) -> bool {
    head != heads[p] && head_leads_to(heads, p, heads.index_of(head))
}

/// The canonical form with the struct at `p` as the primary type: its head, and
/// behind it, sorted, those of the structs that it depends on.
pub open spec fn canonical_form(heads: Seq<HeadModel>, p: int) -> Seq<char> {
    heads[p].text() + head_texts(
        heads.filter(|h: HeadModel| is_other_part(heads, p, h)),
    ).sort_by(lex_order()).flatten()
}

/// Whether `canonical` is what EIP-712 makes of `heads`, provided that no two of
/// them have the same name: their canonical form, and an error if they have none.
pub open spec fn canonicalizes(
    heads: Seq<HeadModel>,
    canonical: Result<Seq<char>, Seq<char>>,
) -> bool {
    names_differ(heads) ==> {
        &&& canonical is Ok ==> exists|p: int| #[trigger] is_canonicalizable(heads, p)
        &&& forall|p: int| #[trigger]
            is_canonicalizable(heads, p) ==> canonical == Ok::<Seq<char>, Seq<char>>(
                canonical_form(heads, p),
            )
    }
}

/// Whether `heads` stand as EIP-712 orders them: the primary type, and behind
/// it, in the order of their texts, the structs that it depends on.
pub open spec fn in_canonical_order(heads: Seq<HeadModel>) -> bool {
    &&& heads.len() > 0
    &&& heads_well_formed(heads)
    &&& names_differ(heads)
    &&& forall|i: int| 1 <= i < heads.len() ==> #[trigger] head_leads_to(heads, 0, i)
    &&& sorted_by(head_texts(heads).skip(1), lex_order())
}

/// Structs with different names do not repeat.
pub proof fn lemma_without_repeats(heads: Seq<HeadModel>)
    requires
        names_differ(heads),
    ensures
        without_repeats(heads) == heads,
    decreases heads.len(),
{
    if heads.len() > 0 {
        let rest = heads.drop_last();
        lemma_without_repeats(rest);
        if rest.contains(heads.last()) {
            let i = rest.index_of(heads.last());
            assert(heads[i].name != heads[heads.len() - 1].name);
        }
        assert(heads =~= rest.push(heads.last()));
    }
}

/// A token has no white space in it.
pub proof fn lemma_token_is_trimmed(s: Seq<char>)
    requires
        is_token(s),
    ensures
        trimmed(s) == s,
        !s.contains(' '),
{
    assert(is_id_continue(s[0]) || s[0] == '[' || s[0] == ']');
    assert(is_id_continue(s.last()) || s.last() == '[' || s.last() == ']');
}

/// The text of a well-formed head spells it.
pub proof fn lemma_text_spells_head(head: HeadModel)
    requires
        head.well_formed(),
    ensures
        spells_head(head.text(), head),
{
    reveal_strlit(" ");
    lemma_identifier_is_type_name(head.name);
    let pieces = head.member_texts();
    assert forall|i: int| 0 <= i < pieces.len() implies spells_member(
        #[trigger] pieces[i],
        head.members[i],
    ) by {
        let (ty, name) = head.members[i];
        lemma_token_is_trimmed(ty);
        lemma_token_is_trimmed(name);
        let at = ty.len() as int;
        assert(pieces[i][at] == ' ');
        assert(pieces[i].take(at) =~= ty);
        assert(pieces[i].skip(at + 1) =~= name);
    }
    assert(head.text() == head_span(head.name, pieces));
}

/// The texts of well-formed heads spell them.
pub proof fn lemma_texts_spell_heads(heads: Seq<HeadModel>)
    requires
        heads_well_formed(heads),
    ensures
        spells_heads(heads_text(heads), head_texts(heads), Seq::empty(), heads),
{
    assert forall|j: int| 0 <= j < heads.len() implies spells_head(
        #[trigger] head_texts(heads)[j],
        heads[j],
    ) by {
        lemma_text_spells_head(heads[j]);
    }
    assert(head_texts(heads).flatten() + Seq::<char>::empty() =~= head_texts(heads).flatten());
}

/// A path can be continued by a step.
pub proof fn lemma_head_step(heads: Seq<HeadModel>, from: int, via: int, to: int)
    requires
        is_head_part(heads, from, via),
        0 <= from < heads.len(),
        0 <= via < heads.len(),
        0 <= to < heads.len(),
        heads[via].refers_to(heads[to].name),
    ensures
        head_leads_to(heads, from, to),
{
    if via == from {
        let path = seq![from, to];
        assert(is_head_path(heads, path) && path[0] == from && path.last() == to);
    } else {
        let path = choose|path: Seq<int>|
            #[trigger] is_head_path(heads, path) && path[0] == from && path.last() == via;
        let longer = path.push(to);
        assert forall|i: int| 0 <= i < longer.len() implies 0 <= #[trigger] longer[i]
            < heads.len() by {
            if i < path.len() {
                assert(longer[i] == path[i]);
            }
        }
        assert forall|i: int|
            0 <= i < longer.len() - 1 implies heads[#[trigger] longer[i]].refers_to(
            heads[longer[i + 1]].name,
        ) by {
            assert(longer[i] == path[i]);
            if i + 1 < path.len() {
                assert(longer[i + 1] == path[i + 1]);
            }
        }
        assert(is_head_path(heads, longer) && longer[0] == from && longer.last() == to);
    }
}

/// Of heads in canonical order, only the first can be the primary type.
proof fn lemma_first_is_primary(heads: Seq<HeadModel>, p: int)
    requires
        in_canonical_order(heads),
        is_primary(heads, p),
    ensures
        p == 0,
{
    if p != 0 {
        assert(head_leads_to(heads, 0, p));
        let path = choose|path: Seq<int>|
            #[trigger] is_head_path(heads, path) && path[0] == 0 && path.last() == p;
        let i = path.len() - 2;
        assert(0 <= path[i] < heads.len());
        assert(heads[path[i]].refers_to(heads[path[i + 1]].name));
    }
}

/// Heads in canonical order have a canonical form if and only if no struct
/// depends on itself and all types are known. It is their text.
pub proof fn lemma_canonical_order(heads: Seq<HeadModel>)
    requires
        in_canonical_order(heads),
    ensures
        forall|p: int| #[trigger]
            is_canonicalizable(heads, p) <==> p == 0 && heads_acyclic(heads) && heads_resolve(
                heads,
            ),
        canonical_form(heads, 0) == heads_text(heads),
{
    assert forall|p: int| #[trigger] is_canonicalizable(heads, p) <==> p == 0 && heads_acyclic(
        heads,
    ) && heads_resolve(heads) by {
        if is_canonicalizable(heads, p) {
            lemma_first_is_primary(heads, p);
            assert forall|i: int| 0 <= i < heads.len() implies is_head_part(heads, 0, i) by {
                if i != 0 {
                    assert(head_leads_to(heads, 0, i));
                }
            }
            assert forall|i: int| 0 <= i < heads.len() implies !#[trigger] head_leads_to(
                heads,
                i,
                i,
            ) by {
                assert(is_head_part(heads, 0, i));
            }
            assert forall|i: int| 0 <= i < heads.len() implies #[trigger] head_resolves(
                heads,
                i,
            ) by {
                assert(is_head_part(heads, 0, i));
            }
        }
        if heads_acyclic(heads) && heads_resolve(heads) && p == 0 {
            lemma_unreferred(heads);
            assert forall|q: int| #[trigger] is_primary(heads, q) implies q == 0 by {
                lemma_first_is_primary(heads, q);
            }
        }
    }
    let pred = |h: HeadModel| is_other_part(heads, 0, h);
    assert forall|i: int| 0 <= i < heads.len() implies pred(#[trigger] heads[i]) == (i > 0) by {
        let at = heads.index_of(heads[i]);
        assert(heads.contains(heads[i]));
        assert(heads[at] == heads[i]);
        if at < i {
            assert(heads[at].name != heads[i].name);
        }
        if i < at {
            assert(heads[i].name != heads[at].name);
        }
        if i > 0 {
            assert(heads[0].name != heads[i].name);
            assert(head_leads_to(heads, 0, i));
        }
    }
    lemma_filter_all_but_first(heads, pred);
    let tail = head_texts(heads).skip(1);
    assert(head_texts(heads.skip(1)) =~= tail);
    crate::text::law_lex_order_is_total();
    tail.lemma_sort_by_ensures(lex_order());
    vstd::seq_lib::lemma_sorted_unique(tail, tail.sort_by(lex_order()), lex_order());
    assert(head_texts(heads).drop_first() =~= tail);
    assert(heads_text(heads) =~= heads[0].text() + tail.flatten());
}

/// Where no struct depends on itself, none of those that the first depends on
/// refers to it.
proof fn lemma_unreferred(heads: Seq<HeadModel>)
    requires
        in_canonical_order(heads),
        heads_acyclic(heads),
    ensures
        is_primary(heads, 0),
{
    assert forall|j: int| 0 <= j < heads.len() implies !(#[trigger] heads[j]).refers_to(
        heads[0].name,
    ) by {
        if heads[j].refers_to(heads[0].name) {
            if j != 0 {
                assert(head_leads_to(heads, 0, j));
            }
            lemma_head_step(heads, 0, j, 0);
        }
    }
}

proof fn lemma_filter_all_but_first(s: Seq<HeadModel>, pred: spec_fn(HeadModel) -> bool)
    requires
        s.len() > 0,
        forall|i: int| 0 <= i < s.len() ==> pred(#[trigger] s[i]) == (i > 0),
    ensures
        s.filter(pred) == s.skip(1),
    decreases s.len(),
{
    reveal(Seq::filter);
    if s.len() == 1 {
        assert(s.drop_last().filter(pred) =~= Seq::<HeadModel>::empty());
        assert(s.skip(1) =~= Seq::<HeadModel>::empty());
        assert(pred(s[0]) == false);
    } else {
        let rest = s.drop_last();
        assert forall|i: int| 0 <= i < rest.len() implies pred(#[trigger] rest[i]) == (i > 0) by {
            assert(rest[i] == s[i]);
        }
        lemma_filter_all_but_first(rest, pred);
        assert(pred(s[s.len() - 1]));
        assert(s.skip(1) =~= rest.skip(1).push(s.last()));
    }
}

/// The heads that a canonical form consists of.
pub proof fn lemma_canonical_form_heads(heads: Seq<HeadModel>, p: int) -> (parts: Seq<HeadModel>)
    requires
        0 <= p < heads.len(),
    ensures
        heads_text(parts) == canonical_form(heads, p),
        forall|i: int| 0 <= i < parts.len() ==> heads.contains(#[trigger] parts[i]),
{
    broadcast use {Seq::lemma_filter_contains_rev, vstd::seq_lib::group_to_multiset_ensures};

    let others = heads.filter(|h: HeadModel| is_other_part(heads, p, h));
    let unsorted = head_texts(others);
    let sorted = unsorted.sort_by(lex_order());
    crate::text::law_lex_order_is_total();
    unsorted.lemma_sort_by_ensures(lex_order());
    let tail = sorted.map_values(
        |text: Seq<char>| choose|h: HeadModel| #[trigger] others.contains(h) && h.text() == text,
    );
    assert forall|i: int| 0 <= i < tail.len() implies others.contains(#[trigger] tail[i])
        && tail[i].text() == sorted[i] by {
        assert(sorted.contains(sorted[i]));
        assert(unsorted.contains(sorted[i]));
        let k = unsorted.index_of(sorted[i]);
        assert(others.contains(others[k]) && others[k].text() == sorted[i]);
    }
    let parts = seq![heads[p]] + tail;
    assert(head_texts(parts).drop_first() =~= sorted);
    assert(heads_text(parts) =~= heads[p].text() + sorted.flatten());
    assert forall|i: int| 0 <= i < parts.len() implies heads.contains(#[trigger] parts[i]) by {
        if i == 0 {
            assert(heads[p] == parts[0]);
        } else {
            assert(parts[i] == tail[i - 1]);
            assert(others.contains(tail[i - 1]));
        }
    }
    parts
}

/// Heads behind others make a text longer.
pub proof fn lemma_more_heads_are_longer(heads: Seq<HeadModel>, k: int)
    requires
        0 <= k < heads.len(),
    ensures
        heads_text(heads.take(k)).len() < heads_text(heads).len(),
    decreases heads.len(),
{
    reveal_strlit("(");
    let rest = heads.drop_last();
    let texts = head_texts(heads);
    assert(texts.drop_last() =~= head_texts(rest));
    assert(texts =~= texts.drop_last().push(texts.last()));
    texts.drop_last().lemma_flatten_push(texts.last());
    assert(texts.last() == heads.last().text());
    assert(texts.last().len() > 0);
    if k < rest.len() {
        lemma_more_heads_are_longer(rest, k);
        assert(rest.take(k) =~= heads.take(k));
    } else {
        assert(heads.take(k) =~= rest);
    }
}

/// The canonical form begins with the name of the primary type.
pub proof fn lemma_canonical_form_begins(heads: Seq<HeadModel>, p: int)
    ensures
        (heads[p].name + "("@).is_prefix_of(canonical_form(heads, p)),
{
    let head = heads[p];
    let rest = head_texts(
        heads.filter(|h: HeadModel| is_other_part(heads, p, h)),
    ).sort_by(lex_order()).flatten();
    assert(canonical_form(heads, p) =~= head.name + "("@ + (joined(head.member_texts(), ","@)
        + ")"@ + rest));
}

/// Decimal notation is made of digits, and they stand for the number.
pub proof fn lemma_decimal_is_number(n: nat)
    ensures
        is_digits(decimal(n)),
        number(decimal(n)) == n,
    decreases n,
{
    reveal_with_fuel(number, 2);
    if n < 10 {
        assert(decimal(n).drop_last() =~= Seq::<char>::empty());
        assert(decimal(n).last() == digit(n));
    } else {
        lemma_decimal_is_number(n / 10);
        assert(decimal(n).drop_last() =~= decimal(n / 10));
        assert(decimal(n).last() == digit(n % 10));
    }
}

/// What an array suffix in front of others adds.
pub proof fn lemma_array_suffix(size: Seq<char>, rest: Seq<char>)
    requires
        size.len() == 0 || is_digits(size),
    ensures
        are_array_suffixes("["@ + size + "]"@ + rest) <==> is_array_size(size)
            && are_array_suffixes(rest),
{
    reveal_strlit("[");
    reveal_strlit("]");
    let all = "["@ + size + "]"@ + rest;
    let inner = all.skip(1);
    inner.index_of_first_ensures(']');
    assert(inner[size.len() as int] == ']');
    assert forall|i: int| 0 <= i < size.len() implies inner[i] != ']' by {
        assert(inner[i] == size[i]);
    }
    assert(before(inner, ']') =~= size);
    assert(all.skip(size.len() as int + 2) =~= rest);
}

} // verus!
