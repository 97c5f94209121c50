//! What the collector reads of a resolved Solidity compilation unit: its
//! definitions, and of each struct the members with their types.
use crate::heads::{
    are_array_suffixes, is_basic, is_member_type, is_token, lemma_array_suffix,
    lemma_decimal_is_number,
};
use crate::text::{before, decimal, decimal_text};
use crate::types::{is_id_continue, is_identifier, text_is_identifier};
use vstd::prelude::*;
use vstd::string::StringExecFns;

verus! {

/// A resolved Solidity type.
#[derive(Debug)]
pub enum Type {
    Address,
    Contract,
    Interface,
    Library,
    Boolean,
    Integer {
        /// Whether the type holds negative numbers.
        signed: bool,
        /// The width in bits.
        bits: u32,
    },
    ByteArray {
        /// The width in bytes.
        width: u32,
    },
    Bytes,
    String,
    Enum,
    /// The name of the struct's definition; `None` if it resolves to something
    /// that is not a struct.
    Struct(Option<String>),
    /// The underlying type, if it resolves.
    UserDefinedValue(Option<Box<Type>>),
    Array(Box<Type>),
    FixedSizeArray { element_type: Box<Type>, size: usize },
    Mapping,
    Function,
    FixedPointNumber,
    Tuple,
    Literal,
    Void,
}

/// A member of a struct. The type is missing if it does not resolve.
#[derive(Debug)]
pub struct StructMember {
    pub name: String,
    pub ty: Option<Type>,
}

/// A struct definition and the file that it stands in.
#[derive(Debug)]
pub struct StructDefinition {
    pub name: String,
    pub file_id: String,
    pub members: Vec<StructMember>,
}

/// A definition of a compilation unit.
#[derive(Debug)]
pub enum Definition {
    Struct(StructDefinition),
    /// A contract, a function, an enum, or anything else that is not a struct.
    Other,
}

/// The definitions of a compilation unit, in the order in which it lists them.
/// All names in it are Solidity identifiers.
#[derive(Debug)]
pub struct CompilationUnit {
    definitions: Vec<Definition>,
}

impl Type {
    /// Whether the names of all structs in the type are identifiers.
    pub open spec fn well_named(self) -> bool
        decreases self,
    {
        match self {
            Type::Struct(Some(name)) => is_identifier(name@),
            Type::UserDefinedValue(Some(target)) => target.well_named(),
            Type::Array(element) => element.well_named(),
            Type::FixedSizeArray { element_type, size } => element_type.well_named(),
            _ => true,
        }
    }

    /// Whether no array in the type has the size zero.
    pub open spec fn well_sized(self) -> bool
        decreases self,
    {
        match self {
            Type::UserDefinedValue(Some(target)) => target.well_sized(),
            Type::Array(element) => element.well_sized(),
            Type::FixedSizeArray { element_type, size } => size > 0 && element_type.well_sized(),
            _ => true,
        }
    }

    /// Whether the type can be written in Solidity, in a unit that defines the
    /// structs `names`: integers and byte arrays have a width that exists, structs
    /// are defined, and no array has the size zero.
    pub open spec fn valid(self, names: Set<Seq<char>>) -> bool
        decreases self,
    {
        match self {
            Type::Integer { signed, bits } => 8 <= bits <= 256 && bits % 8 == 0,
            Type::ByteArray { width } => 1 <= width <= 32,
            Type::Struct(Some(name)) => names.contains(name@),
            Type::UserDefinedValue(Some(target)) => target.valid(names),
            Type::Array(element) => element.valid(names),
            Type::FixedSizeArray { element_type, size } => size > 0 && element_type.valid(names),
            _ => true,
        }
    }

    /// Whether the names of all structs in the type are identifiers.
    fn is_well_named(&self) -> (r: bool)
        ensures
            r == self.well_named(),
        decreases self,
    {
        match self {
            Type::Struct(Some(name)) => text_is_identifier(name.as_str()),
            Type::UserDefinedValue(Some(target)) => target.is_well_named(),
            Type::Array(element) => element.is_well_named(),
            Type::FixedSizeArray { element_type, size: _ } => element_type.is_well_named(),
            _ => true,
        }
    }
}

impl StructDefinition {
    /// Whether the struct, its members and the structs that these refer to are
    /// all named by identifiers.
    pub open spec fn well_named(self) -> bool {
        &&& is_identifier(self.name@)
        &&& forall|i: int|
            0 <= i < self.members@.len() ==> {
                &&& is_identifier((#[trigger] self.members@[i]).name@)
                &&& self.members@[i].ty matches Some(ty) ==> ty.well_named()
            }
    }

    /// Whether the types of all members can be written in Solidity, in a unit
    /// that defines the structs `names`.
    pub open spec fn well_typed(self, names: Set<Seq<char>>) -> bool {
        forall|i: int|
            0 <= i < self.members@.len() ==> ((#[trigger] self.members@[i]).ty matches Some(ty)
                ==> ty.valid(names))
    }

    fn is_well_named(&self) -> (r: bool)
        ensures
            r == self.well_named(),
    {
        if !text_is_identifier(self.name.as_str()) {
            return false;
        }
        let mut i: usize = 0;
        while i < self.members.len()
            invariant
                i <= self.members@.len(),
                forall|k: int|
                    0 <= k < i ==> {
                        &&& is_identifier((#[trigger] self.members@[k]).name@)
                        &&& self.members@[k].ty matches Some(ty) ==> ty.well_named()
                    },
            decreases self.members@.len() - i,
        {
            if !text_is_identifier(self.members[i].name.as_str()) {
                return false;
            }
            if let Some(ty) = &self.members[i].ty {
                if !ty.is_well_named() {
                    return false;
                }
            }
            i = i + 1;
        }
        true
    }
}

/// Whether a definition is well named, if it is a struct.
pub open spec fn is_well_named(definition: Definition) -> bool {
    definition matches Definition::Struct(def) ==> def.well_named()
}

/// Whether all structs among `definitions` are well named.
pub open spec fn well_named(definitions: Seq<Definition>) -> bool {
    forall|i: int|
        0 <= i < definitions.len() ==> (#[trigger] definitions[i] matches Definition::Struct(def)
            ==> def.well_named())
}

/// Whether the types of all members of structs can be written in Solidity, in a
/// unit that defines the structs `names`.
pub open spec fn well_typed(definitions: Seq<Definition>, names: Set<Seq<char>>) -> bool {
    forall|i: int|
        0 <= i < definitions.len() ==> (#[trigger] definitions[i] matches Definition::Struct(def)
            ==> def.well_typed(names))
}

impl View for CompilationUnit {
    type V = Seq<Definition>;

    closed spec fn view(&self) -> Seq<Definition> {
        self.definitions@
    }
}

impl CompilationUnit {
    #[verifier::type_invariant]
    spec fn names_are_identifiers(self) -> bool {
        well_named(self.definitions@)
    }

    /// The unit with these definitions; `None` if a struct, a member or a struct
    /// that a member refers to has a name that is not an identifier.
    pub fn new(definitions: Vec<Definition>) -> (r: Option<Self>)
        ensures
            r is Some <==> well_named(definitions@),
            r matches Some(unit) ==> unit@ == definitions@,
    {
        let mut i: usize = 0;
        while i < definitions.len()
            invariant
                i <= definitions@.len(),
                forall|k: int|
                    0 <= k < i ==> (#[trigger] definitions@[k] matches Definition::Struct(def)
                        ==> def.well_named()),
            decreases definitions@.len() - i,
        {
            if let Definition::Struct(def) = &definitions[i] {
                if !def.is_well_named() {
                    return None;
                }
            }
            i = i + 1;
        }
        Some(CompilationUnit { definitions })
    }

    /// The unit with those of the definitions in which all names are
    /// identifiers. The others are left out.
    pub fn with_well_named(definitions: Vec<Definition>) -> (r: Self)
        ensures
            r@ == definitions@.filter(|d: Definition| is_well_named(d)),
    {
        let ghost all = definitions@;
        let ghost pred = |d: Definition| is_well_named(d);
        let ghost mut done: int = 0;
        let mut rest = definitions;
        let mut kept: Vec<Definition> = Vec::new();
        assert(all.take(0).filter(pred).len() == 0);
        assert(kept@ =~= all.take(0).filter(pred));
        while rest.len() > 0
            invariant
                0 <= done <= all.len(),
                rest@ =~= all.skip(done),
                pred == (|d: Definition| is_well_named(d)),
                kept@ =~= all.take(done).filter(pred),
                well_named(kept@),
            decreases rest@.len(),
        {
            let definition = rest.remove(0);
            proof {
                assert(all.take(done + 1) =~= all.take(done).push(all[done]));
                all.take(done).lemma_filter_push(all[done], pred);
                done = done + 1;
            }
            let named = match &definition {
                Definition::Struct(def) => def.is_well_named(),
                Definition::Other => true,
            };
            if named {
                kept.push(definition);
            }
        }
        assert(all.take(done) =~= all);
        CompilationUnit { definitions: kept }
    }

    /// All definitions of the unit.
    pub fn all_definitions(&self) -> (r: &Vec<Definition>)
        ensures
            r@ == self@,
            well_named(r@),
    {
        proof {
            use_type_invariant(self);
        }
        &self.definitions
    }
}

/// The EIP-712 form of a member type; `None` if it has none.
///
/// Enums are `uint8`, contracts and addresses `address`, user-defined value types
/// what they stand for, and structs their bare name.
pub open spec fn encoded(ty: Type) -> Option<Seq<char>>
    decreases ty,
{
    match ty {
        Type::Address | Type::Contract | Type::Interface | Type::Library => Some("address"@),
        Type::Boolean => Some("bool"@),
        Type::Integer { signed, bits } => Some(
            (if signed {
                "int"@
            } else {
                "uint"@
            }) + decimal(bits as nat),
        ),
        Type::ByteArray { width } => Some("bytes"@ + decimal(width as nat)),
        Type::Bytes => Some("bytes"@),
        Type::String => Some("string"@),
        Type::Enum => Some("uint8"@),
        Type::Struct(Some(name)) => Some(name@),
        Type::Struct(None) => None,
        Type::UserDefinedValue(Some(target)) => encoded(*target),
        Type::UserDefinedValue(None) => None,
        Type::Array(element) => match encoded(*element) {
            Some(base) => Some(base + "[]"@),
            None => None,
        },
        Type::FixedSizeArray { element_type, size } => match encoded(*element_type) {
            Some(base) => Some(base + "["@ + decimal(size as nat) + "]"@),
            None => None,
        },
        Type::Mapping | Type::Function | Type::FixedPointNumber | Type::Tuple | Type::Literal
        | Type::Void => None,
    }
}

/// Encodes a resolved member type to its EIP-712 form: enums become `uint8`,
/// contracts and addresses become `address`, user-defined value types resolve to
/// their underlying elementary type, structs become their bare name (a
/// dependency), and non-encodable types (mappings, functions, fixed-point) yield
/// `None`.
pub fn encode_member_type(ty: &Type) -> (r: Option<String>)
    ensures
        match r {
            Some(text) => encoded(*ty) == Some(text@),
            None => encoded(*ty) is None,
        },
    decreases ty,
{
    match ty {
        Type::Address | Type::Contract | Type::Interface | Type::Library => Some(
            "address".to_owned(),
        ),
        Type::Boolean => Some("bool".to_owned()),
        Type::Integer { signed, bits } => {
            let stem = if *signed {
                "int"
            } else {
                "uint"
            };
            Some(stem.to_owned().concat(decimal_text(*bits as u64).as_str()))
        },
        Type::ByteArray { width } => Some(
            "bytes".to_owned().concat(decimal_text(*width as u64).as_str()),
        ),
        Type::Bytes => Some("bytes".to_owned()),
        Type::String => Some("string".to_owned()),
        Type::Enum => Some("uint8".to_owned()),
        Type::Struct(definition) => match definition {
            Some(name) => Some(name.clone()),
            None => None,
        },
        Type::UserDefinedValue(target_type) => match target_type {
            Some(target) => encode_member_type(target),
            None => None,
        },
        Type::Array(element) => match encode_member_type(element) {
            Some(base) => Some(base.concat("[]")),
            None => None,
        },
        Type::FixedSizeArray { element_type, size } => match encode_member_type(element_type) {
            Some(base) => Some(
                base.concat("[").concat(decimal_text(*size as u64).as_str()).concat("]"),
            ),
            None => None,
        },
        Type::Mapping | Type::Function | Type::FixedPointNumber | Type::Tuple | Type::Literal
        | Type::Void => None,
    }
}

/// The suffix of an array type: `[]` where the size is open, else the size in
/// brackets.
pub open spec fn array_suffix(size: Option<nat>) -> Seq<char> {
    match size {
        None => "[]"@,
        Some(n) => "["@ + decimal(n) + "]"@,
    }
}

/// The suffixes of nested array types, the innermost first.
pub open spec fn array_suffixes(sizes: Seq<Option<nat>>) -> Seq<char> {
    sizes.map_values(|size: Option<nat>| array_suffix(size)).flatten()
}

/// Whether `sizes` are sizes that an array can have.
spec fn are_array_sizes(sizes: Seq<Option<nat>>) -> bool {
    forall|i: int|
        0 <= i < sizes.len() ==> (#[trigger] sizes[i] matches Some(n) ==> 1 <= n <= usize::MAX)
}

/// What an encoded type is without its array suffixes.
pub open spec fn encoded_base(ty: Type) -> Option<Seq<char>>
    decreases ty,
{
    match ty {
        Type::UserDefinedValue(Some(target)) => encoded_base(*target),
        Type::Array(element) => encoded_base(*element),
        Type::FixedSizeArray { element_type, size } => encoded_base(*element_type),
        _ => encoded(ty),
    }
}

/// The sizes of the arrays that a type consists of, the innermost first.
pub open spec fn encoded_sizes(ty: Type) -> Seq<Option<nat>>
    decreases ty,
{
    match ty {
        Type::UserDefinedValue(Some(target)) => encoded_sizes(*target),
        Type::Array(element) => encoded_sizes(*element).push(None),
        Type::FixedSizeArray { element_type, size } => encoded_sizes(*element_type).push(
            Some(size as nat),
        ),
        _ => Seq::empty(),
    }
}

/// An encoded type consists of its base, an identifier, and the suffixes of its
/// arrays. It is a member type if and only if no array has the size zero.
pub proof fn law_encoded_type_has_base_and_suffixes(ty: Type)
    requires
        ty.well_named(),
    ensures
        encoded(ty) is Some <==> encoded_base(ty) is Some,
        encoded(ty) matches Some(text) ==> {
            &&& text == encoded_base(ty)->0 + array_suffixes(encoded_sizes(ty))
            &&& is_identifier(encoded_base(ty)->0)
            &&& is_token(text)
            &&& before(text, '[') == encoded_base(ty)->0
            &&& is_member_type(text) <==> ty.well_sized()
        },
{
    lemma_base_and_sizes(ty);
    if encoded(ty) is Some {
        let base = encoded_base(ty)->0;
        let sizes = encoded_sizes(ty);
        let text = encoded(ty)->0;
        lemma_suffixes(sizes);
        let suffixes = array_suffixes(sizes);
        assert forall|i: int| 0 <= i < text.len() implies is_id_continue(#[trigger] text[i])
            || text[i] == '[' || text[i] == ']' by {
            if i < base.len() {
                assert(text[i] == base[i]);
            } else {
                assert(text[i] == suffixes[i - base.len()]);
            }
        }
        assert(forall|i: int| 0 <= i < base.len() ==> is_id_continue(#[trigger] base[i]));
        text.index_of_first_ensures('[');
        if suffixes.len() > 0 {
            assert(text[base.len() as int] == suffixes[0]);
            assert(text.contains('['));
        } else {
            assert(text =~= base);
        }
        assert forall|i: int| 0 <= i < base.len() implies text[i] != '[' by {
            assert(text[i] == base[i]);
        }
        assert(before(text, '[') =~= base);
        assert(text.skip(base.len() as int) =~= suffixes);
        lemma_sizes_of_suffixes(sizes);
    }
}

/// Array suffixes can be read if and only if the sizes are such that an array can
/// have them.
proof fn lemma_sizes_of_suffixes(sizes: Seq<Option<nat>>)
    ensures
        are_array_suffixes(array_suffixes(sizes)) <==> are_array_sizes(sizes),
    decreases sizes.len(),
{
    if sizes.len() == 0 {
        assert(sizes =~= Seq::empty());
        lemma_no_suffixes();
    } else {
        let rest = sizes.drop_first();
        let parts = sizes.map_values(|size: Option<nat>| array_suffix(size));
        assert(parts.drop_first() =~= rest.map_values(|size: Option<nat>| array_suffix(size)));
        let size = match sizes[0] {
            None => Seq::<char>::empty(),
            Some(n) => decimal(n),
        };
        reveal_strlit("[]");
        reveal_strlit("[");
        reveal_strlit("]");
        assert(array_suffix(sizes[0]) =~= "["@ + size + "]"@);
        assert(array_suffixes(sizes) =~= "["@ + size + "]"@ + array_suffixes(rest));
        if let Some(n) = sizes[0] {
            lemma_decimal_is_number(n);
        }
        lemma_array_suffix(size, array_suffixes(rest));
        lemma_sizes_of_suffixes(rest);
        if are_array_sizes(rest) && (sizes[0] matches Some(n) ==> 1 <= n <= usize::MAX) {
            assert forall|i: int| 0 <= i < sizes.len() implies (#[trigger] sizes[i] matches Some(n)
                ==> 1 <= n <= usize::MAX) by {
                if i > 0 {
                    assert(rest[i - 1] == sizes[i]);
                }
            }
        }
        if are_array_sizes(sizes) {
            assert forall|i: int| 0 <= i < rest.len() implies (#[trigger] rest[i] matches Some(n)
                ==> 1 <= n <= usize::MAX) by {
                assert(rest[i] == sizes[i + 1]);
            }
        }
    }
}

proof fn lemma_base_and_sizes(ty: Type)
    requires
        ty.well_named(),
    ensures
        encoded(ty) is Some <==> encoded_base(ty) is Some,
        encoded(ty) matches Some(text) ==> {
            &&& text == encoded_base(ty)->0 + array_suffixes(encoded_sizes(ty))
            &&& is_identifier(encoded_base(ty)->0)
            &&& are_array_sizes(encoded_sizes(ty)) <==> ty.well_sized()
        },
    decreases ty,
{
    match ty {
        Type::UserDefinedValue(Some(target)) => {
            lemma_base_and_sizes(*target);
        },
        Type::Array(element) => {
            lemma_base_and_sizes(*element);
            lemma_suffixes_push(encoded_sizes(*element), None);
            lemma_sizes_push(encoded_sizes(*element), None);
        },
        Type::FixedSizeArray { element_type, size } => {
            lemma_base_and_sizes(*element_type);
            lemma_suffixes_push(encoded_sizes(*element_type), Some(size as nat));
            lemma_sizes_push(encoded_sizes(*element_type), Some(size as nat));
            assert(encoded(ty) is Some ==> encoded(ty)->0 =~= encoded_base(ty)->0 + array_suffixes(
                encoded_sizes(ty),
            ));
        },
        _ => {
            lemma_no_suffixes();
            reveal_strlit("address");
            reveal_strlit("bool");
            reveal_strlit("bytes");
            reveal_strlit("string");
            reveal_strlit("uint8");
            reveal_strlit("int");
            reveal_strlit("uint");
            if let Type::Integer { signed, bits } = ty {
                lemma_decimal_is_number(bits as nat);
            }
            if let Type::ByteArray { width } = ty {
                lemma_decimal_is_number(width as nat);
            }
            assert(encoded(ty) is Some ==> encoded(ty)->0 =~= encoded_base(ty)->0 + array_suffixes(
                encoded_sizes(ty),
            ));
        },
    }
}

proof fn lemma_sizes_push(sizes: Seq<Option<nat>>, size: Option<nat>)
    ensures
        are_array_sizes(sizes.push(size)) <==> are_array_sizes(sizes) && (size matches Some(n)
            ==> 1 <= n <= usize::MAX),
{
    let all = sizes.push(size);
    if are_array_sizes(all) {
        assert(all[sizes.len() as int] == size);
        assert forall|i: int| 0 <= i < sizes.len() implies (#[trigger] sizes[i] matches Some(n)
            ==> 1 <= n <= usize::MAX) by {
            assert(all[i] == sizes[i]);
        }
    }
}

proof fn lemma_no_suffixes()
    ensures
        array_suffixes(Seq::empty()) == Seq::<char>::empty(),
{
    assert(Seq::<Option<nat>>::empty().map_values(|size: Option<nat>| array_suffix(size))
        =~= Seq::<Seq<char>>::empty());
}

proof fn lemma_suffixes_push(sizes: Seq<Option<nat>>, size: Option<nat>)
    ensures
        array_suffixes(sizes.push(size)) == array_suffixes(sizes) + array_suffix(size),
{
    let parts = sizes.map_values(|size: Option<nat>| array_suffix(size));
    assert(sizes.push(size).map_values(|size: Option<nat>| array_suffix(size)) =~= parts.push(
        array_suffix(size),
    ));
    parts.lemma_flatten_push(array_suffix(size));
}

/// Array suffixes are made of digits and brackets, and begin with a bracket.
proof fn lemma_suffixes(sizes: Seq<Option<nat>>)
    ensures
        forall|i: int|
            0 <= i < array_suffixes(sizes).len() ==> is_id_continue(
                #[trigger] array_suffixes(sizes)[i],
            ) || array_suffixes(sizes)[i] == '[' || array_suffixes(sizes)[i] == ']',
        array_suffixes(sizes).len() > 0 ==> array_suffixes(sizes)[0] == '[',
    decreases sizes.len(),
{
    reveal_strlit("[]");
    reveal_strlit("[");
    reveal_strlit("]");
    if sizes.len() == 0 {
        lemma_no_suffixes();
        assert(sizes =~= Seq::empty());
    } else {
        let rest = sizes.drop_last();
        let size = sizes.last();
        lemma_suffixes(rest);
        lemma_suffixes_push(rest, size);
        assert(sizes =~= rest.push(size));
        if let Some(n) = size {
            lemma_decimal_is_number(n);
        }
        let all = array_suffixes(sizes);
        let front = array_suffixes(rest);
        assert forall|i: int| 0 <= i < all.len() implies is_id_continue(#[trigger] all[i]) || all[i]
            == '[' || all[i] == ']' by {
            if i < front.len() {
                assert(all[i] == front[i]);
            } else {
                assert(all[i] == array_suffix(size)[i - front.len()]);
            }
        }
    }
}

/// An array has the base name of its elements, so a member of a struct type and
/// one of an array of it refer to the same struct.
pub proof fn law_arrays_keep_the_base_name(element: Type, size: usize)
    requires
        encoded(element) is Some,
    ensures
        encoded(Type::Array(Box::new(element))) is Some,
        encoded(Type::FixedSizeArray { element_type: Box::new(element), size }) is Some,
        before(encoded(Type::Array(Box::new(element)))->0, '[') == before(
            encoded(element)->0,
            '[',
        ),
        before(
            encoded(Type::FixedSizeArray { element_type: Box::new(element), size })->0,
            '[',
        ) == before(encoded(element)->0, '['),
{
    reveal_strlit("[]");
    reveal_strlit("[");
    let text = encoded(element)->0;
    lemma_before_suffix(text, "[]"@);
    lemma_before_suffix(text, "["@ + decimal(size as nat) + "]"@);
    assert(text + "["@ + decimal(size as nat) + "]"@ =~= text + ("["@ + decimal(size as nat)
        + "]"@));
}

/// A suffix that begins with a bracket does not change what stands in front of
/// the first bracket.
proof fn lemma_before_suffix(text: Seq<char>, suffix: Seq<char>)
    requires
        suffix.len() > 0,
        suffix[0] == '[',
    ensures
        before(text + suffix, '[') == before(text, '['),
{
    let all = text + suffix;
    text.index_of_first_ensures('[');
    all.index_of_first_ensures('[');
    assert(all[text.len() as int] == '[');
    assert forall|i: int| 0 <= i < text.len() implies all[i] == text[i] by {}
    match text.index_of_first('[') {
        Some(i) => {
            assert(all[i] == '[');
        },
        None => {
            assert(forall|i: int| 0 <= i < text.len() ==> text[i] != '[');
        },
    }
    assert(before(all, '[') =~= before(text, '['));
}

/// The base of a type that can be written in Solidity is known.
pub proof fn lemma_valid_type_is_known(ty: Type, names: Set<Seq<char>>)
    requires
        ty.valid(names),
        encoded_base(ty) is Some,
    ensures
        ty.well_sized(),
        is_basic(encoded_base(ty)->0) || names.contains(encoded_base(ty)->0),
    decreases ty,
{
    match ty {
        Type::UserDefinedValue(Some(target)) => {
            lemma_valid_type_is_known(*target, names);
        },
        Type::Array(element) => {
            lemma_valid_type_is_known(*element, names);
        },
        Type::FixedSizeArray { element_type, size } => {
            lemma_valid_type_is_known(*element_type, names);
        },
        Type::Enum => {
            reveal_strlit("uint8");
            reveal_strlit("uint");
            lemma_decimal_is_number(8);
            assert("uint8"@ =~= "uint"@ + decimal(8));
            lemma_sized("uint"@, 8);
        },
        Type::Integer { signed, bits } => {
            lemma_decimal_is_number(bits as nat);
            lemma_sized("int"@, bits as nat);
            lemma_sized("uint"@, bits as nat);
        },
        Type::ByteArray { width } => {
            lemma_decimal_is_number(width as nat);
            lemma_sized("bytes"@, width as nat);
        },
        _ => {},
    }
}

/// What stands behind the stem of a sized type.
proof fn lemma_sized(stem: Seq<char>, n: nat)
    ensures
        stem.is_prefix_of(stem + decimal(n)),
        (stem + decimal(n)).skip(stem.len() as int) == decimal(n),
{
    assert((stem + decimal(n)).skip(stem.len() as int) =~= decimal(n));
}

} // verus!
