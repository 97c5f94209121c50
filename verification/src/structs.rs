//! Struct definitions with the EIP-712 form of their members.
use crate::heads::{HeadModel, is_basic, is_member_type, is_token};
use crate::names::NameSet;
use crate::reject::{ReasonModel, RejectReason};
use crate::solidity::{
    CompilationUnit, Definition, StructDefinition, StructMember, encode_member_type, encoded,
    law_encoded_type_has_base_and_suffixes, lemma_valid_type_is_known, well_named, well_typed,
};
use crate::text::{
    before, join, joined, law_joined_parts_can_be_told_apart, text_before, text_eq, texts,
};
use crate::types::{is_id_continue, is_identifier};
use vstd::prelude::*;
use vstd::string::StringExecFns;

verus! {

/// A struct definition collected from a compilation unit, with each member's type
/// already encoded to its EIP-712 form.
#[derive(Debug)]
pub struct CollectedStruct {
    pub name: String,
    pub file_id: String,
    pub members: Vec<CollectedMember>,
}

/// A struct definition whose members all have an EIP-712 form.
#[derive(Debug)]
pub struct EncodableStruct {
    pub name: String,
    pub file_id: String,
    pub members: Vec<EncodableMember>,
}

/// A member of a [`CollectedStruct`].
#[derive(Debug)]
pub struct CollectedMember {
    pub name: String,
    /// EIP-712 encoded member type, or `None` if not encodable (mapping,
    /// function, fixed-point, unresolved, ...).
    pub encoded_type: Option<String>,
}

/// A member of an [`EncodableStruct`].
#[derive(Debug)]
pub struct EncodableMember {
    pub name: String,
    pub encoded_type: String,
}

/// A member: its name and its encoded type, if it has one.
pub ghost struct MemberModel {
    pub name: Seq<char>,
    pub encoded_type: Option<Seq<char>>,
}

/// A struct definition: its name, the file that it stands in, and its members.
#[verifier::ext_equal]
pub ghost struct StructModel {
    pub name: Seq<char>,
    pub file_id: Seq<char>,
    pub members: Seq<MemberModel>,
}

/// The text of an optional string.
pub open spec fn optional_text(s: Option<String>) -> Option<Seq<char>> {
    match s {
        Some(text) => Some(text@),
        None => None,
    }
}

impl View for CollectedMember {
    type V = MemberModel;

    open spec fn view(&self) -> MemberModel {
        MemberModel { name: self.name@, encoded_type: optional_text(self.encoded_type) }
    }
}

impl View for EncodableMember {
    type V = MemberModel;

    open spec fn view(&self) -> MemberModel {
        MemberModel { name: self.name@, encoded_type: Some(self.encoded_type@) }
    }
}

impl View for CollectedStruct {
    type V = StructModel;

    open spec fn view(&self) -> StructModel {
        StructModel {
            name: self.name@,
            file_id: self.file_id@,
            members: self.members@.map_values(|m: CollectedMember| m@),
        }
    }
}

impl View for EncodableStruct {
    type V = StructModel;

    open spec fn view(&self) -> StructModel {
        StructModel {
            name: self.name@,
            file_id: self.file_id@,
            members: self.members@.map_values(|m: EncodableMember| m@),
        }
    }
}

impl MemberModel {
    /// `type name`, where a type that is not encodable stands as
    /// `<unsupported>`.
    pub open spec fn text(self) -> Seq<char> {
        (match self.encoded_type {
            Some(ty) => ty,
            None => "<unsupported>"@,
        }) + " "@ + self.name
    }
}

impl StructModel {
    /// Whether all members are encodable.
    pub open spec fn encodable(self) -> bool {
        forall|i: int|
            0 <= i < self.members.len() ==> (#[trigger] self.members[i]).encoded_type is Some
    }

    /// The names of the members that are not encodable, in order.
    pub open spec fn non_encodable_members(self) -> Seq<Seq<char>> {
        self.members.filter_map(
            |m: MemberModel|
                if m.encoded_type is None {
                    Some(m.name)
                } else {
                    None
                },
        )
    }

    /// `Name(type member,...)`, with `<unsupported>` for a type that is not
    /// encodable.
    pub open spec fn fingerprint(self) -> Seq<char> {
        self.name + "("@ + joined(self.members.map_values(|m: MemberModel| m.text()), ","@) + ")"@
    }

    /// The head of the struct; of interest where it is encodable.
    pub open spec fn head(self) -> HeadModel {
        HeadModel {
            name: self.name,
            members: self.members.map_values(|m: MemberModel| (m.encoded_type->0, m.name)),
        }
    }

    /// Whether the struct and its members are named by identifiers, and the types
    /// of the members are made of the characters that encoded types are made of.
    pub open spec fn well_named(self) -> bool {
        &&& is_identifier(self.name)
        &&& forall|i: int|
            0 <= i < self.members.len() ==> {
                &&& is_identifier((#[trigger] self.members[i]).name)
                &&& self.members[i].encoded_type matches Some(ty) ==> is_token(ty)
            }
    }

    /// The struct that a member refers to, if it is another one of `names`.
    pub open spec fn member_dep(self, m: MemberModel, names: Set<Seq<char>>) -> Option<Seq<char>> {
        match m.encoded_type {
            Some(ty) => {
                let base = before(ty, '[');
                if base != self.name && names.contains(base) {
                    Some(base)
                } else {
                    None
                }
            },
            None => None,
        }
    }

    /// The names of the other structs among `names` that the members refer to,
    /// in the order of the members.
    pub open spec fn deps(self, names: Set<Seq<char>>) -> Seq<Seq<char>> {
        self.members.filter_map(|m: MemberModel| self.member_dep(m, names))
    }
}

/// A list of structs by their contents.
pub open spec fn models(v: Seq<CollectedStruct>) -> Seq<StructModel> {
    v.map_values(|s: CollectedStruct| s@)
}

/// The names of a list of structs.
pub open spec fn struct_names(all: Seq<StructModel>) -> Set<Seq<char>> {
    all.map_values(|s: StructModel| s.name).to_set()
}

/// A member with its type in EIP-712 form.
pub open spec fn member_of(m: StructMember) -> MemberModel {
    MemberModel {
        name: m.name@,
        encoded_type: match m.ty {
            Some(ty) => encoded(ty),
            None => None,
        },
    }
}

/// A struct definition with its members in EIP-712 form.
pub open spec fn struct_of(def: StructDefinition) -> StructModel {
    StructModel {
        name: def.name@,
        file_id: def.file_id@,
        members: def.members@.map_values(|m: StructMember| member_of(m)),
    }
}

/// A definition's struct with its members in EIP-712 form, if it is one.
pub open spec fn struct_in(d: Definition) -> Option<StructModel> {
    match d {
        Definition::Struct(def) => Some(struct_of(def)),
        Definition::Other => None,
    }
}

/// The structs among a unit's definitions, with their members in EIP-712 form.
pub open spec fn structs_of(definitions: Seq<Definition>) -> Seq<StructModel> {
    definitions.filter_map(|d: Definition| struct_in(d))
}

/// Walks every struct definition in the unit and encodes its members.
pub fn collect_structs(unit: &CompilationUnit) -> (r: Vec<CollectedStruct>)
    ensures
        models(r@) == structs_of(unit@),
        well_named(unit@),
{
    let definitions = unit.all_definitions();
    let mut collected: Vec<CollectedStruct> = Vec::new();
    let mut i: usize = 0;
    let ghost select = |d: Definition| struct_in(d);
    assert(definitions@.take(0) =~= Seq::<Definition>::empty());
    assert(structs_of(definitions@.take(0)) =~= Seq::<StructModel>::empty());
    while i < definitions.len()
        invariant
            i <= definitions@.len(),
            select == (|d: Definition| struct_in(d)),
            models(collected@) =~= structs_of(definitions@.take(i as int)),
        decreases definitions@.len() - i,
    {
        let ghost before_step = models(collected@);
        proof {
            definitions@.lemma_filter_map_take_succ(select, i as int);
        }
        match &definitions[i] {
            Definition::Struct(def) => {
                let members = collect_members(&def.members);
                let collected_struct = CollectedStruct {
                    name: def.name.clone(),
                    file_id: def.file_id.clone(),
                    members,
                };
                assert(collected_struct@ =~= struct_of(*def));
                let ghost model = collected_struct@;
                collected.push(collected_struct);
                assert(models(collected@) =~= before_step.push(model));
            },
            Definition::Other => {},
        }
        i = i + 1;
    }
    assert(definitions@.take(i as int) =~= definitions@);
    collected
}

fn collect_members(members: &Vec<StructMember>) -> (r: Vec<CollectedMember>)
    ensures
        r@.map_values(|m: CollectedMember| m@) =~= members@.map_values(
            |m: StructMember| member_of(m),
        ),
{
    let mut out: Vec<CollectedMember> = Vec::new();
    let mut i: usize = 0;
    while i < members.len()
        invariant
            i <= members@.len(),
            out@.len() == i,
            forall|k: int| 0 <= k < i ==> (#[trigger] out@[k])@ == member_of(members@[k]),
        decreases members@.len() - i,
    {
        let encoded_type = match &members[i].ty {
            Some(ty) => encode_member_type(ty),
            None => None,
        };
        out.push(CollectedMember { name: members[i].name.clone(), encoded_type });
        i = i + 1;
    }
    out
}

impl Clone for CollectedStruct {
    fn clone(&self) -> (r: Self)
        ensures
            r@ == self@,
    {
        let mut members: Vec<CollectedMember> = Vec::new();
        let mut i: usize = 0;
        while i < self.members.len()
            invariant
                i <= self.members@.len(),
                members@.len() == i,
                forall|k: int| 0 <= k < i ==> (#[trigger] members@[k])@ == self.members@[k]@,
            decreases self.members@.len() - i,
        {
            let encoded_type = match &self.members[i].encoded_type {
                Some(ty) => Some(ty.clone()),
                None => None,
            };
            members.push(CollectedMember { name: self.members[i].name.clone(), encoded_type });
            i = i + 1;
        }
        let r = CollectedStruct { name: self.name.clone(), file_id: self.file_id.clone(), members };
        assert(r@ =~= self@);
        r
    }
}

/// A deterministic fingerprint of a struct's name and members (including
/// non-encodable members as `<unsupported>`), used to tell identical
/// re-definitions apart from genuine conflicts.
pub fn make_fingerprint(struct_def: &CollectedStruct) -> (r: String)
    ensures
        r@ == struct_def@.fingerprint(),
{
    let mut members: Vec<String> = Vec::new();
    let mut i: usize = 0;
    while i < struct_def.members.len()
        invariant
            i <= struct_def.members@.len(),
            members@.len() == i,
            forall|k: int|
                0 <= k < i ==> (#[trigger] members@[k])@ == struct_def.members@[k]@.text(),
        decreases struct_def.members@.len() - i,
    {
        let ty = match &struct_def.members[i].encoded_type {
            Some(ty) => ty.as_str(),
            None => "<unsupported>",
        };
        members.push(
            ty.to_owned().concat(" ").concat(struct_def.members[i].name.as_str()),
        );
        i = i + 1;
    }
    assert(texts(members@) =~= struct_def@.members.map_values(|m: MemberModel| m.text()));
    struct_def.name.clone().concat("(").concat(join(&members, ",").as_str()).concat(")")
}

/// The `Name(type member,...)` head of a single struct.
pub fn struct_head(struct_def: &EncodableStruct) -> (r: String)
    ensures
        r@ == struct_def@.head().text(),
{
    let mut members: Vec<String> = Vec::new();
    let mut i: usize = 0;
    let ghost head = struct_def@.head();
    while i < struct_def.members.len()
        invariant
            i <= struct_def.members@.len(),
            members@.len() == i,
            head == struct_def@.head(),
            forall|k: int|
                0 <= k < i ==> (#[trigger] members@[k])@ == head.members[k].0 + " "@
                    + head.members[k].1,
        decreases struct_def.members@.len() - i,
    {
        members.push(
            struct_def.members[i].encoded_type.clone().concat(" ").concat(
                struct_def.members[i].name.as_str(),
            ),
        );
        i = i + 1;
    }
    assert(texts(members@) =~= head.members.map_values(
        |m: (Seq<char>, Seq<char>)| m.0 + " "@ + m.1,
    ));
    struct_def.name.clone().concat("(").concat(join(&members, ",").as_str()).concat(")")
}

/// Strips array suffixes from an encoded type to get its base name
/// (`Person[3][2]` -> `Person`).
pub fn base_type_name(encoded_type: &str) -> (r: &str)
    ensures
        r@ == before(encoded_type@, '['),
{
    text_before(encoded_type, '[')
}

/// The names of structs directly referenced by a struct's members (array
/// suffixes stripped, self-references excluded).
pub fn direct_struct_deps(struct_def: &EncodableStruct, all_struct_names: &NameSet) -> (r: Vec<
    String,
>)
    ensures
        texts(r@) == struct_def@.deps(all_struct_names@),
{
    let mut deps: Vec<String> = Vec::new();
    let mut i: usize = 0;
    let ghost model = struct_def@;
    let ghost names = all_struct_names@;
    let ghost select = |m: MemberModel| model.member_dep(m, names);
    proof {
        assert(model.members.take(0) =~= Seq::<MemberModel>::empty());
        assert(model.members.take(0).filter_map(select) =~= Seq::<Seq<char>>::empty());
        assert(texts(deps@) =~= Seq::<Seq<char>>::empty());
    }
    while i < struct_def.members.len()
        invariant
            i <= struct_def.members@.len(),
            model == struct_def@,
            names == all_struct_names@,
            select == (|m: MemberModel| model.member_dep(m, names)),
            texts(deps@) =~= model.members.take(i as int).filter_map(select),
        decreases struct_def.members@.len() - i,
    {
        let ghost before_step = texts(deps@);
        proof {
            model.members.lemma_filter_map_take_succ(select, i as int);
        }
        let base = base_type_name(struct_def.members[i].encoded_type.as_str());
        if !text_eq(base, struct_def.name.as_str()) && all_struct_names.contains(base) {
            deps.push(base.to_owned());
            assert(texts(deps@) =~= before_step.push(base@));
        }
        i = i + 1;
    }
    assert(model.members.take(i as int) =~= model.members);
    deps
}

impl EncodableStruct {
    /// The struct with its members, if all of them are encodable; else the names
    /// of those that are not.
    pub fn try_from(value: CollectedStruct) -> (r: Result<EncodableStruct, RejectReason>)
        ensures
            match r {
                Ok(encodable) => value@.encodable() && encodable@ == value@,
                Err(reason) => !value@.encodable() && reason@ == (ReasonModel::NonEncodableMembers {
                    members: value@.non_encodable_members(),
                }),
            },
    {
        let mut members: Vec<EncodableMember> = Vec::new();
        let mut non_encodable_members: Vec<String> = Vec::new();
        let mut i: usize = 0;
        let ghost model = value@;
        let ghost select = |m: MemberModel|
            if m.encoded_type is None {
                Some(m.name)
            } else {
                None
            };
        proof {
            assert(model.members.take(0) =~= Seq::<MemberModel>::empty());
            assert(model.members.take(0).filter_map(select) =~= Seq::<Seq<char>>::empty());
        }
        while i < value.members.len()
            invariant
                i <= value.members@.len(),
                model == value@,
                select == (|m: MemberModel|
                    if m.encoded_type is None {
                        Some(m.name)
                    } else {
                        None
                    }),
                texts(non_encodable_members@) =~= model.members.take(i as int).filter_map(select),
                non_encodable_members@.len() == 0 ==> {
                    &&& members@.len() == i
                    &&& forall|k: int| 0 <= k < i ==> (#[trigger] members@[k])@ == model.members[k]
                },
                non_encodable_members@.len() > 0 ==> !model.encodable(),
            decreases value.members@.len() - i,
        {
            let ghost before_step = texts(non_encodable_members@);
            proof {
                model.members.lemma_filter_map_take_succ(select, i as int);
                assert(model.members[i as int] == value.members@[i as int]@);
            }
            let member = &value.members[i];
            match &member.encoded_type {
                Some(encoded_type) => {
                    members.push(
                        EncodableMember {
                            name: member.name.clone(),
                            encoded_type: encoded_type.clone(),
                        },
                    );
                },
                None => {
                    non_encodable_members.push(member.name.clone());
                    assert(texts(non_encodable_members@) =~= before_step.push(member.name@));
                },
            }
            i = i + 1;
        }
        assert(model.members.take(i as int) =~= model.members);
        if non_encodable_members.len() > 0 {
            return Err(RejectReason::NonEncodableMembers { members: non_encodable_members });
        }
        let encodable = EncodableStruct {
            name: value.name.clone(),
            file_id: value.file_id.clone(),
            members,
        };
        assert(encodable@ =~= value@);
        assert forall|k: int| 0 <= k < model.members.len() implies (
        #[trigger] model.members[k]).encoded_type is Some by {
            assert(model.members[k] == members@[k]@);
        }
        Ok(encodable)
    }
}

/// The fingerprint of an encodable struct is its head.
pub proof fn law_fingerprint_is_the_head(s: StructModel)
    requires
        s.encodable(),
    ensures
        s.fingerprint() == s.head().text(),
{
    assert(s.members.map_values(|m: MemberModel| m.text()) =~= s.head().members.map_values(
        |m: (Seq<char>, Seq<char>)| m.0 + " "@ + m.1,
    ));
}

/// Whether a member can be told from others in a fingerprint: its type has no
/// space or comma and is not the word for an unsupported one, and its name has no
/// comma.
pub open spec fn is_plain_member(m: MemberModel) -> bool {
    &&& m.encoded_type matches Some(ty) ==> !ty.contains(' ') && !ty.contains(',') && ty
        != "<unsupported>"@
    &&& !m.name.contains(',')
}

/// Whether a struct can be told from others by its fingerprint: its name has no
/// parenthesis, and its members can be told apart.
pub open spec fn is_plain(s: StructModel) -> bool {
    &&& !s.name.contains('(')
    &&& forall|i: int| 0 <= i < s.members.len() ==> is_plain_member(#[trigger] s.members[i])
}

/// Fingerprints are equal if and only if name and members are. The file makes no
/// difference.
pub proof fn law_fingerprints_tell_structs_apart(a: StructModel, b: StructModel)
    requires
        is_plain(a),
        is_plain(b),
    ensures
        a.fingerprint() == b.fingerprint() <==> a.name == b.name && a.members == b.members,
{
    reveal_strlit("(");
    reveal_strlit(")");
    reveal_strlit(",");
    if a.fingerprint() == b.fingerprint() {
        let left = a.members.map_values(|m: MemberModel| m.text());
        let right = b.members.map_values(|m: MemberModel| m.text());
        let text = a.fingerprint();
        lemma_fingerprint_name(a);
        lemma_fingerprint_name(b);
        assert(a.name == b.name);
        let n = a.name.len() as int;
        assert(text.subrange(n + 1, text.len() - 1) =~= joined(left, ","@));
        assert(text.subrange(n + 1, text.len() - 1) =~= joined(right, ","@));
        assert forall|i: int| 0 <= i < left.len() implies !(#[trigger] left[i]).contains(',')
            && left[i].len() > 0 by {
            lemma_member_text(a.members[i]);
        }
        assert forall|i: int| 0 <= i < right.len() implies !(#[trigger] right[i]).contains(',')
            && right[i].len() > 0 by {
            lemma_member_text(b.members[i]);
        }
        assert(","@ =~= seq![',']);
        law_joined_parts_can_be_told_apart(left, right, ',');
        assert(a.members.len() == b.members.len());
        assert forall|i: int| 0 <= i < a.members.len() implies a.members[i] == b.members[i] by {
            assert(left[i] == right[i]);
            lemma_member_texts_differ(a.members[i], b.members[i]);
        }
        assert(a.members =~= b.members);
    }
}

/// Well-named structs can be told apart by their fingerprints.
pub proof fn law_well_named_structs_are_plain(s: StructModel)
    requires
        s.well_named(),
    ensures
        is_plain(s),
{
    reveal_strlit("<unsupported>");
    if s.name.contains('(') {
        assert(is_id_continue(s.name[s.name.index_of('(')]));
    }
    assert forall|i: int| 0 <= i < s.members.len() implies is_plain_member(
        #[trigger] s.members[i],
    ) by {
        let m = s.members[i];
        if m.name.contains(',') {
            assert(is_id_continue(m.name[m.name.index_of(',')]));
        }
        if let Some(ty) = m.encoded_type {
            assert(is_id_continue(ty[0]) || ty[0] == '[' || ty[0] == ']');
        }
    }
}

/// The name of a struct stands in front of the first parenthesis of its
/// fingerprint.
proof fn lemma_fingerprint_name(s: StructModel)
    requires
        !s.name.contains('('),
    ensures
        before(s.fingerprint(), '(') == s.name,
{
    reveal_strlit("(");
    let text = s.fingerprint();
    text.index_of_first_ensures('(');
    assert(text[s.name.len() as int] == '(');
    assert forall|i: int| 0 <= i < s.name.len() implies text[i] != '(' by {
        assert(text[i] == s.name[i]);
        assert(s.name.contains(s.name[i]));
    }
    assert(before(text, '(') =~= s.name);
}

/// The text of a member is not empty and has no comma, and its first space is in
/// front of its name.
proof fn lemma_member_text(m: MemberModel)
    requires
        is_plain_member(m),
    ensures
        m.text().len() > 0,
        !m.text().contains(','),
        before(m.text(), ' ') + " "@ + m.name == m.text(),
        m.encoded_type matches Some(ty) ==> before(m.text(), ' ') == ty,
        m.encoded_type is None ==> before(m.text(), ' ') == "<unsupported>"@,
{
    reveal_strlit(" ");
    reveal_strlit("<unsupported>");
    let ty = match m.encoded_type {
        Some(ty) => ty,
        None => "<unsupported>"@,
    };
    let text = m.text();
    text.index_of_first_ensures(' ');
    assert(text[ty.len() as int] == ' ');
    assert forall|i: int| 0 <= i < text.len() implies text[i] != ',' && (i < ty.len() ==> text[i]
        != ' ') by {
        if i < ty.len() {
            assert(text[i] == ty[i]);
            assert(ty.contains(ty[i]));
        } else if i > ty.len() {
            assert(text[i] == m.name[i - ty.len() - 1]);
            assert(m.name.contains(m.name[i - ty.len() - 1]));
        }
    }
    assert(before(text, ' ') =~= ty);
}

/// Members with the same text are the same.
proof fn lemma_member_texts_differ(a: MemberModel, b: MemberModel)
    requires
        is_plain_member(a),
        is_plain_member(b),
        a.text() == b.text(),
    ensures
        a == b,
{
    lemma_member_text(a);
    lemma_member_text(b);
    let n = before(a.text(), ' ').len() as int;
    reveal_strlit(" ");
    assert(a.text().skip(n + 1) =~= a.name);
    assert(b.text().skip(n + 1) =~= b.name);
}

/// What a mapping that may drop elements keeps of each element.
proof fn lemma_filter_map_keeps<A, B>(s: Seq<A>, f: spec_fn(A) -> Option<B>, i: int)
    requires
        0 <= i < s.len(),
        f(s[i]) is Some,
    ensures
        s.filter_map(f).contains(f(s[i])->0),
    decreases s.len(),
{
    let rest = s.drop_last().filter_map(f);
    let all = s.filter_map(f);
    let wanted = f(s[i])->0;
    if i == s.len() - 1 {
        assert(all[rest.len() as int] == wanted);
    } else {
        lemma_filter_map_keeps(s.drop_last(), f, i);
        let k = rest.index_of(wanted);
        assert(all[k] == wanted);
    }
}

/// A member that is not encodable is listed as such.
pub proof fn lemma_lists_non_encodable(s: StructModel, i: int)
    requires
        0 <= i < s.members.len(),
        s.members[i].encoded_type is None,
    ensures
        s.non_encodable_members().contains(s.members[i].name),
{
    let f = |m: MemberModel|
        if m.encoded_type is None {
            Some(m.name)
        } else {
            None
        };
    lemma_filter_map_keeps(s.members, f, i);
}

/// What a struct depends on directly is one of `names`.
pub proof fn lemma_deps_are_named(s: StructModel, names: Set<Seq<char>>, dep: Seq<char>)
    requires
        s.deps(names).contains(dep),
    ensures
        names.contains(dep),
        dep != s.name,
{
    let f = |m: MemberModel| s.member_dep(m, names);
    s.members.lemma_filter_map_contains(f, dep);
}

/// An encodable struct depends directly on those of `names` that a member refers
/// to, except itself.
pub proof fn lemma_deps(s: StructModel, names: Set<Seq<char>>, dep: Seq<char>)
    requires
        s.encodable(),
    ensures
        s.deps(names).contains(dep) <==> dep != s.name && names.contains(dep) && s.head().refers_to(
            dep,
        ),
{
    let f = |m: MemberModel| s.member_dep(m, names);
    if s.deps(names).contains(dep) {
        s.members.lemma_filter_map_contains(f, dep);
        let m = choose|m: MemberModel| #[trigger] s.members.contains(m) && f(m) == Some(dep);
        let i = s.members.index_of(m);
        assert(s.members[i] == m);
        assert(before(s.head().members[i].0, '[') == dep);
    }
    if dep != s.name && names.contains(dep) && s.head().refers_to(dep) {
        let i = choose|i: int|
            0 <= i < s.head().members.len() && before((#[trigger] s.head().members[i]).0, '[')
                == dep;
        assert(s.members[i].encoded_type is Some);
        assert(f(s.members[i]) == Some(dep));
        lemma_filter_map_keeps(s.members, f, i);
    }
}

/// The structs of well-named definitions are well named.
pub proof fn lemma_structs_are_well_named(definitions: Seq<Definition>, s: StructModel)
    requires
        well_named(definitions),
        structs_of(definitions).contains(s),
    ensures
        s.well_named(),
        s.encodable() ==> s.head().well_formed(),
{
    let f = |d: Definition| struct_in(d);
    definitions.lemma_filter_map_contains(f, s);
    let d = choose|d: Definition| #[trigger] definitions.contains(d) && f(d) == Some(s);
    let k = definitions.index_of(d);
    assert(definitions[k] == d);
    if let Definition::Struct(def) = d {
        assert forall|i: int| 0 <= i < s.members.len() implies {
            &&& is_identifier((#[trigger] s.members[i]).name)
            &&& s.members[i].encoded_type matches Some(ty) ==> is_token(ty)
        } by {
            assert(s.members[i] == member_of(def.members@[i]));
            if let Some(ty) = def.members@[i].ty {
                law_encoded_type_has_base_and_suffixes(ty);
            }
        }
        if s.encodable() {
            assert forall|i: int| 0 <= i < s.head().members.len() implies is_token(
                (#[trigger] s.head().members[i]).0,
            ) && is_token(s.head().members[i].1) by {
                assert(s.members[i].encoded_type is Some);
                let name = s.members[i].name;
                assert(forall|j: int| 0 <= j < name.len() ==> is_id_continue(#[trigger] name[j]));
            }
        }
    }
}

/// Where the types of all members can be written in Solidity, the head of each
/// encodable struct is readable, and each member is of a basic type or of a
/// struct of the unit, or of an array of these.
pub proof fn lemma_valid_types_are_known(definitions: Seq<Definition>, s: StructModel, i: int)
    requires
        well_named(definitions),
        well_typed(definitions, struct_names(structs_of(definitions))),
        structs_of(definitions).contains(s),
        s.encodable(),
        0 <= i < s.members.len(),
    ensures
        is_member_type(s.head().members[i].0),
        is_basic(before(s.head().members[i].0, '[')) || struct_names(
            structs_of(definitions),
        ).contains(before(s.head().members[i].0, '[')),
{
    let f = |d: Definition| struct_in(d);
    definitions.lemma_filter_map_contains(f, s);
    let d = choose|d: Definition| #[trigger] definitions.contains(d) && f(d) == Some(s);
    let k = definitions.index_of(d);
    assert(definitions[k] == d);
    if let Definition::Struct(def) = d {
        assert(s.members[i] == member_of(def.members@[i]));
        assert(s.members[i].encoded_type is Some);
        if let Some(ty) = def.members@[i].ty {
            law_encoded_type_has_base_and_suffixes(ty);
            lemma_valid_type_is_known(ty, struct_names(structs_of(definitions)));
        }
    }
}

} // verus!
