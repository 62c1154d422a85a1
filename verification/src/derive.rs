//! What the derived implementations of `Trace` and `MapAs` consist of.
//!
//! The items that the traits are derived for are described by plain values, as
//! are the implementations. Types, expressions and bounds are given by their
//! source text.

use vstd::prelude::*;

verus! {

/// The derives only apply to structs and enums.
pub const NOT_DERIVABLE: &'static str = "Collectable can only derived on structs and enums";

/// A mapping without a target means nothing.
pub const MISSING_TARGET: &'static str = "target must be specified when map is provided";

/// What kind of item a trait is derived for.
#[derive(Clone, Copy, PartialEq, Eq, Structural, Debug)]
pub enum ItemKind {
    Struct,
    Enum,
    Other,
}

/// A field of a struct or of a variant.
pub struct Field {
    pub ident: Option<String>,
    pub ty: String,
    /// The field is annotated not to be traced.
    pub ignore: bool,
}

/// How a field is accessed.
pub enum Accessor {
    Named(String),
    Index(usize),
}

/// What an [`Accessor`] says.
pub ghost enum AccessorView {
    Named(Seq<char>),
    Index(int),
}

impl View for Accessor {
    type V = AccessorView;

    open spec fn view(&self) -> AccessorView {
        match self {
            Accessor::Named(name) => AccessorView::Named(name@),
            Accessor::Index(index) => AccessorView::Index(*index as int),
        }
    }
}

/// How the field at the index is accessed: by its name if it has one.
pub open spec fn accessor_of(field: Field, index: int) -> AccessorView {
    match field.ident {
        Some(name) => AccessorView::Named(name@),
        None => AccessorView::Index(index),
    }
}

/// Returns how the field at the index is accessed.
pub fn field_accessor(field: &Field, index: usize) -> (accessor: Accessor)
    ensures
        accessor@ == accessor_of(*field, index as int),
{
    match &field.ident {
        Some(ident) => Accessor::Named(ident.clone()),
        None => Accessor::Index(index),
    }
}

/// How the fields that are traced are accessed, in order.
pub open spec fn traced_fields(fields: Seq<Field>) -> Seq<AccessorView>
    decreases fields.len(),
{
    if fields.len() == 0 {
        Seq::empty()
    } else {
        let rest = traced_fields(fields.drop_last());
        if fields.last().ignore {
            rest
        } else {
            rest.push(accessor_of(fields.last(), fields.len() - 1))
        }
    }
}

/// The types of the fields that are traced.
pub open spec fn traced_types(fields: Seq<Field>) -> Set<Seq<char>> {
    Set::new(
        |ty: Seq<char>|
            exists|i: int|
                0 <= i < fields.len() && !(#[trigger] fields[i]).ignore && fields[i].ty@ == ty,
    )
}

/// The texts of the strings.
pub open spec fn texts(strings: Seq<String>) -> Seq<Seq<char>> {
    Seq::new(strings.len(), |i: int| strings[i]@)
}

/// `strings` holds exactly the texts of `set`, each once.
pub open spec fn lists_once(strings: Seq<String>, set: Set<Seq<char>>) -> bool {
    &&& texts(strings).no_duplicates()
    &&& forall|text: Seq<char>| #[trigger] texts(strings).contains(text) <==> set.contains(text)
}

/// Adds a type unless it is there already.
fn add_type(types: &mut Vec<String>, ty: &String)
    requires
        texts(old(types)@).no_duplicates(),
    ensures
        texts(final(types)@).no_duplicates(),
        forall|text: Seq<char>| #[trigger]
            texts(final(types)@).contains(text) <==> texts(old(types)@).contains(text) || text == ty@,
{
    let ghost before = types@;
    let mut i: usize = 0;
    while i < types.len()
        invariant
            types@ == before,
            before == old(types)@,
            texts(before).no_duplicates(),
            i <= types@.len(),
            forall|j: int| 0 <= j < i ==> (#[trigger] types@[j])@ != ty@,
        decreases types@.len() - i,
    {
        if types[i] == *ty {
            assert(texts(before)[i as int] == ty@);
            return ;
        }
        i = i + 1;
    }
    types.push(ty.clone());
    proof {
        let after = texts(types@);
        assert forall|j: int| 0 <= j < before.len() implies after[j] == texts(before)[j] by {}
        assert forall|text: Seq<char>| #[trigger]
            after.contains(text) <==> texts(before).contains(text) || text == ty@ by {
            if after.contains(text) {
                let j = choose|j: int| 0 <= j < after.len() && after[j] == text;
                if j < before.len() {
                    assert(texts(before)[j] == text);
                }
            }
            if texts(before).contains(text) {
                let j = choose|j: int| 0 <= j < before.len() && texts(before)[j] == text;
                assert(after[j] == text);
            }
            if text == ty@ {
                assert(after[before.len() as int] == text);
            }
        }
        assert forall|a: int, b: int| 0 <= a < after.len() && 0 <= b < after.len() && a != b implies after[a]
            != after[b] by {
            if a < before.len() && b < before.len() {
                assert(texts(before)[a] != texts(before)[b]);
            }
        }
    }
}

/// The derived implementation of `Trace` for a struct.
pub struct StructTrace {
    /// The fields that are traced, in order.
    pub fields: Vec<Accessor>,
    /// The types that decide whether the struct may contain references.
    pub types: Vec<String>,
}

/// What the accessors say.
pub open spec fn accessors(fields: Seq<Accessor>) -> Seq<AccessorView> {
    Seq::new(fields.len(), |i: int| fields[i]@)
}

/// Derives `Trace` for a struct: every field that is not ignored is traced, and
/// the struct may contain references if the type of such a field may.
pub fn derive_struct_trace(fields: &Vec<Field>) -> (derived: StructTrace)
    ensures
        accessors(derived.fields@) == traced_fields(fields@),
        lists_once(derived.types@, traced_types(fields@)),
{
    let mut traced: Vec<Accessor> = Vec::new();
    let mut types: Vec<String> = Vec::new();
    let mut index: usize = 0;
    proof {
        assert(accessors(traced@) =~= traced_fields(fields@.take(0)));
        assert(texts(types@) =~= Seq::<Seq<char>>::empty());
    }
    while index < fields.len()
        invariant
            index <= fields@.len(),
            accessors(traced@) == traced_fields(fields@.take(index as int)),
            lists_once(types@, traced_types(fields@.take(index as int))),
        decreases fields@.len() - index,
    {
        let ghost seen = fields@.take(index as int);
        let ghost next = fields@.take(index + 1);
        let ghost traced_before = traced@;
        let ghost types_before = types@;
        proof {
            assert(next.drop_last() =~= seen);
            assert(next.last() == fields@[index as int]);
        }
        if !fields[index].ignore {
            traced.push(field_accessor(&fields[index], index));
            add_type(&mut types, &fields[index].ty);
            assert(accessors(traced@) =~= accessors(traced_before).push(
                accessor_of(fields@[index as int], index as int),
            ));
        }
        proof {
            lemma_next_types(fields@, index as int);
        }
        index = index + 1;
    }
    assert(fields@.take(index as int) =~= fields@);
    StructTrace { fields: traced, types }
}

/// One more field adds its type if it is traced.
proof fn lemma_next_types(fields: Seq<Field>, index: int)
    requires
        0 <= index < fields.len(),
    ensures
        forall|ty: Seq<char>| #[trigger]
            traced_types(fields.take(index + 1)).contains(ty) <==> traced_types(
                fields.take(index),
            ).contains(ty) || (!fields[index].ignore && fields[index].ty@ == ty),
{
    let seen = fields.take(index);
    let next = fields.take(index + 1);
    assert forall|ty: Seq<char>| #[trigger]
        traced_types(next).contains(ty) <==> traced_types(seen).contains(ty) || (
        !fields[index].ignore && fields[index].ty@ == ty) by {
        if traced_types(next).contains(ty) {
            let i = choose|i: int|
                0 <= i < next.len() && !(#[trigger] next[i]).ignore && next[i].ty@ == ty;
            if i < index {
                assert(seen[i] == next[i]);
            }
        }
        if traced_types(seen).contains(ty) {
            let i = choose|i: int|
                0 <= i < seen.len() && !(#[trigger] seen[i]).ignore && seen[i].ty@ == ty;
            assert(next[i] == seen[i]);
        }
        if !fields[index].ignore && fields[index].ty@ == ty {
            assert(next[index] == fields[index]);
        }
    }
}

/// The fields of a variant.
pub enum VariantFields {
    Named(Vec<Field>),
    Unnamed(Vec<Field>),
    Unit,
}

/// A variant of an enum.
pub struct Variant {
    pub ident: String,
    pub fields: VariantFields,
    /// The variant is annotated not to be traced.
    pub ignore: bool,
}

/// What is done with a variant.
pub enum Arm {
    /// The fields of a variant with named fields are not looked at.
    IgnoreNamed,
    /// The fields of a variant with unnamed fields are not looked at.
    IgnoreUnnamed,
    /// The variant has no fields.
    Unit,
    /// The named fields are traced. If other fields are left out, the pattern
    /// needs a rest.
    TraceNamed(Vec<Accessor>, bool),
    /// The fields at the positions are traced. For each field it is said whether
    /// the pattern binds it or skips it.
    TraceUnnamed(Vec<Accessor>, Vec<bool>),
}

/// What an [`Arm`] says.
pub ghost enum ArmView {
    IgnoreNamed,
    IgnoreUnnamed,
    Unit,
    TraceNamed(Seq<AccessorView>, bool),
    TraceUnnamed(Seq<AccessorView>, Seq<bool>),
}

impl View for Arm {
    type V = ArmView;

    open spec fn view(&self) -> ArmView {
        match self {
            Arm::IgnoreNamed => ArmView::IgnoreNamed,
            Arm::IgnoreUnnamed => ArmView::IgnoreUnnamed,
            Arm::Unit => ArmView::Unit,
            Arm::TraceNamed(fields, rest) => ArmView::TraceNamed(accessors(fields@), *rest),
            Arm::TraceUnnamed(fields, bound) => ArmView::TraceUnnamed(
                accessors(fields@),
                bound@,
            ),
        }
    }
}

/// Some field is not traced.
pub open spec fn leaves_out(fields: Seq<Field>) -> bool {
    exists|i: int| 0 <= i < fields.len() && (#[trigger] fields[i]).ignore
}

/// Whether each field is traced.
pub open spec fn bound_fields(fields: Seq<Field>) -> Seq<bool> {
    Seq::new(fields.len(), |i: int| !fields[i].ignore)
}

/// Returns whether each field is traced.
fn bindings(fields: &Vec<Field>) -> (bound: Vec<bool>)
    ensures
        bound@ == bound_fields(fields@),
{
    let mut bound: Vec<bool> = Vec::new();
    let mut index: usize = 0;
    while index < fields.len()
        invariant
            index <= fields@.len(),
            bound@.len() == index,
            forall|i: int| 0 <= i < index ==> #[trigger] bound@[i] == !fields@[i].ignore,
        decreases fields@.len() - index,
    {
        bound.push(!fields[index].ignore);
        index = index + 1;
    }
    assert(bound@ =~= bound_fields(fields@));
    bound
}

/// Returns true if some field is not traced.
fn needs_rest(fields: &Vec<Field>) -> (rest: bool)
    ensures
        rest == leaves_out(fields@),
{
    let mut index: usize = 0;
    while index < fields.len()
        invariant
            index <= fields@.len(),
            forall|i: int| 0 <= i < index ==> !(#[trigger] fields@[i]).ignore,
        decreases fields@.len() - index,
    {
        if fields[index].ignore {
            assert(fields@[index as int].ignore);
            return true;
        }
        index = index + 1;
    }
    false
}

/// What is done with the variant.
pub open spec fn arm_of(variant: Variant) -> ArmView {
    match variant.fields {
        VariantFields::Named(fields) => if variant.ignore {
            ArmView::IgnoreNamed
        } else {
            ArmView::TraceNamed(traced_fields(fields@), leaves_out(fields@))
        },
        VariantFields::Unnamed(fields) => if variant.ignore {
            ArmView::IgnoreUnnamed
        } else {
            ArmView::TraceUnnamed(traced_fields(fields@), bound_fields(fields@))
        },
        VariantFields::Unit => ArmView::Unit,
    }
}

/// The types of the variant's fields that are traced.
pub open spec fn variant_types(variant: Variant) -> Set<Seq<char>> {
    if variant.ignore {
        Set::empty()
    } else {
        match variant.fields {
            VariantFields::Named(fields) => traced_types(fields@),
            VariantFields::Unnamed(fields) => traced_types(fields@),
            VariantFields::Unit => Set::empty(),
        }
    }
}

/// The types of all fields that are traced.
pub open spec fn all_types(variants: Seq<Variant>) -> Set<Seq<char>> {
    Set::new(
        |ty: Seq<char>|
            exists|i: int|
                0 <= i < variants.len() && variant_types(#[trigger] variants[i]).contains(ty),
    )
}

/// The derived implementation of `Trace` for an enum.
pub struct EnumTrace {
    /// What is done with each variant, in order. An enum without variants has
    /// nothing to match on.
    pub arms: Vec<Arm>,
    /// The types that decide whether the enum may contain references.
    pub types: Vec<String>,
}

/// What the arms say.
pub open spec fn arm_views(arms: Seq<Arm>) -> Seq<ArmView> {
    Seq::new(arms.len(), |i: int| arms[i]@)
}

/// Adds types unless they are there already.
fn add_types(types: &mut Vec<String>, added: &Vec<String>)
    requires
        texts(old(types)@).no_duplicates(),
    ensures
        texts(final(types)@).no_duplicates(),
        forall|text: Seq<char>| #[trigger]
            texts(final(types)@).contains(text) <==> texts(old(types)@).contains(text) || texts(
                added@,
            ).contains(text),
{
    let ghost before = types@;
    let mut i: usize = 0;
    while i < added.len()
        invariant
            i <= added@.len(),
            texts(types@).no_duplicates(),
            forall|text: Seq<char>| #[trigger]
                texts(types@).contains(text) <==> texts(before).contains(text) || (exists|j: int|
                    0 <= j < i && (#[trigger] added@[j])@ == text),
        decreases added@.len() - i,
    {
        let ghost middle = types@;
        add_type(types, &added[i]);
        proof {
            assert forall|text: Seq<char>| #[trigger]
                texts(types@).contains(text) <==> texts(before).contains(text) || (exists|j: int|
                    0 <= j < i + 1 && (#[trigger] added@[j])@ == text) by {
                if exists|j: int| 0 <= j < i + 1 && (#[trigger] added@[j])@ == text {
                    let j = choose|j: int| 0 <= j < i + 1 && (#[trigger] added@[j])@ == text;
                    if j < i {
                        assert(texts(middle).contains(text));
                    }
                }
                if text == added@[i as int]@ {
                    assert(added@[i as int]@ == text);
                }
            }
        }
        i = i + 1;
    }
    proof {
        assert forall|text: Seq<char>| #[trigger]
            texts(types@).contains(text) <==> texts(before).contains(text) || texts(added@).contains(
                text,
            ) by {
            if texts(added@).contains(text) {
                let j = choose|j: int| 0 <= j < added@.len() && texts(added@)[j] == text;
                assert(added@[j]@ == text);
            }
            if exists|j: int| 0 <= j < added@.len() && (#[trigger] added@[j])@ == text {
                let j = choose|j: int| 0 <= j < added@.len() && (#[trigger] added@[j])@ == text;
                assert(texts(added@)[j] == text);
            }
        }
    }
}

/// Returns what is done with the variant, and the types of its fields that are
/// traced.
fn derive_arm(variant: &Variant) -> (result: (Arm, Vec<String>))
    ensures
        result.0@ == arm_of(*variant),
        lists_once(result.1@, variant_types(*variant)),
{
    let none: Vec<String> = Vec::new();
    assert(texts(none@) =~= Seq::<Seq<char>>::empty());
    match &variant.fields {
        VariantFields::Named(fields) => if variant.ignore {
            (Arm::IgnoreNamed, none)
        } else {
            let derived = derive_struct_trace(fields);
            (Arm::TraceNamed(derived.fields, needs_rest(fields)), derived.types)
        },
        VariantFields::Unnamed(fields) => if variant.ignore {
            (Arm::IgnoreUnnamed, none)
        } else {
            let derived = derive_struct_trace(fields);
            (Arm::TraceUnnamed(derived.fields, bindings(fields)), derived.types)
        },
        VariantFields::Unit => (Arm::Unit, none),
    }
}

/// Derives `Trace` for an enum: in every variant that is not ignored, every
/// field that is not ignored is traced, and the enum may contain references if
/// the type of such a field may.
pub fn derive_enum_trace(variants: &Vec<Variant>) -> (derived: EnumTrace)
    ensures
        arm_views(derived.arms@) == Seq::new(variants@.len(), |i: int| arm_of(variants@[i])),
        lists_once(derived.types@, all_types(variants@)),
{
    let mut arms: Vec<Arm> = Vec::new();
    let mut types: Vec<String> = Vec::new();
    let mut index: usize = 0;
    assert(texts(types@) =~= Seq::<Seq<char>>::empty());
    while index < variants.len()
        invariant
            index <= variants@.len(),
            arms@.len() == index,
            forall|i: int| 0 <= i < index ==> (#[trigger] arms@[i])@ == arm_of(variants@[i]),
            texts(types@).no_duplicates(),
            forall|ty: Seq<char>| #[trigger]
                texts(types@).contains(ty) <==> (exists|i: int|
                    0 <= i < index && variant_types(#[trigger] variants@[i]).contains(ty)),
        decreases variants@.len() - index,
    {
        let ghost before = types@;
        let (arm, arm_types): (Arm, Vec<String>) = derive_arm(&variants[index]);
        arms.push(arm);
        add_types(&mut types, &arm_types);
        proof {
            assert forall|ty: Seq<char>| #[trigger]
                texts(types@).contains(ty) <==> (exists|i: int|
                    0 <= i < index + 1 && variant_types(#[trigger] variants@[i]).contains(ty)) by {
                if texts(before).contains(ty) {
                    let i = choose|i: int|
                        0 <= i < index && variant_types(#[trigger] variants@[i]).contains(ty);
                    assert(variant_types(variants@[i]).contains(ty));
                }
                if texts(arm_types@).contains(ty) {
                    assert(variant_types(variants@[index as int]).contains(ty));
                }
                if exists|i: int|
                    0 <= i < index + 1 && variant_types(#[trigger] variants@[i]).contains(ty) {
                    let i = choose|i: int|
                        0 <= i < index + 1 && variant_types(#[trigger] variants@[i]).contains(ty);
                    if i < index {
                        assert(texts(before).contains(ty));
                    } else {
                        assert(texts(arm_types@).contains(ty));
                    }
                }
            }
        }
        index = index + 1;
    }
    proof {
        assert(arm_views(arms@) =~= Seq::new(variants@.len(), |i: int| arm_of(variants@[i])));
        assert forall|ty: Seq<char>| #[trigger]
            texts(types@).contains(ty) <==> all_types(variants@).contains(ty) by {}
    }
    EnumTrace { arms, types }
}

/// The derived implementation of `MapAs`.
pub enum MapAsDerive {
    /// The target, and what is mapped to; without that, the value itself is.
    Mapped(String, String),
    /// There is no mapping.
    NoMapping,
}

/// What `MapAs` is derived to from the annotated target and mapping: a mapping
/// needs a target, and a target without a mapping is the value itself.
pub open spec fn map_as_derived(
    target: Option<String>,
    map: Option<String>,
    derived: Result<MapAsDerive, &'static str>,
) -> bool {
    match (target, map) {
        (Some(target), map) => {
            &&& derived matches Ok(MapAsDerive::Mapped(derived_target, mapped))
            &&& derived_target == target
            &&& mapped@ == (match map {
                Some(map) => map@,
                None => "self"@,
            })
        },
        (None, None) => derived matches Ok(MapAsDerive::NoMapping),
        (None, Some(_)) => derived matches Err(message) && message@ == MISSING_TARGET@,
    }
}

/// Derives `MapAs` for a struct or an enum.
pub fn derive_map_as(kind: ItemKind, target: Option<String>, map: Option<String>) -> (derived: Result<
    MapAsDerive,
    &'static str,
>)
    ensures
        if kind is Other {
            derived matches Err(message) && message@ == NOT_DERIVABLE@
        } else {
            map_as_derived(target, map, derived)
        },
{
    match kind {
        ItemKind::Struct => derive_map_as_inner(target, map),
        ItemKind::Enum => derive_map_as_inner(target, map),
        ItemKind::Other => Err(NOT_DERIVABLE),
    }
}

/// An item that `Trace` is derived for.
pub enum Item {
    Struct(Vec<Field>),
    Enum(Vec<Variant>),
    Other,
}

/// The derived implementation of `Trace`.
pub enum TraceDerive {
    Struct(StructTrace),
    Enum(EnumTrace),
}

/// Derives `Trace` for a struct or an enum.
pub fn derive_trace(item: &Item) -> (derived: Result<TraceDerive, &'static str>)
    ensures
        match *item {
            Item::Struct(fields) => {
                &&& derived matches Ok(TraceDerive::Struct(trace))
                &&& accessors(trace.fields@) == traced_fields(fields@)
                &&& lists_once(trace.types@, traced_types(fields@))
            },
            Item::Enum(variants) => {
                &&& derived matches Ok(TraceDerive::Enum(trace))
                &&& arm_views(trace.arms@) == Seq::new(
                    variants@.len(),
                    |i: int| arm_of(variants@[i]),
                )
                &&& lists_once(trace.types@, all_types(variants@))
            },
            Item::Other => derived matches Err(message) && message@ == NOT_DERIVABLE@,
        },
{
    match item {
        Item::Struct(fields) => Ok(TraceDerive::Struct(derive_struct_trace(fields))),
        Item::Enum(variants) => Ok(TraceDerive::Enum(derive_enum_trace(variants))),
        Item::Other => Err(NOT_DERIVABLE),
    }
}

/// Derives `MapAs` from the annotated target and mapping.
pub fn derive_map_as_inner(target: Option<String>, map: Option<String>) -> (derived: Result<
    MapAsDerive,
    &'static str,
>)
    ensures
        map_as_derived(target, map, derived),
{
    match (target, map) {
        (Some(target), Some(map)) => Ok(MapAsDerive::Mapped(target, map)),
        (Some(target), None) => Ok(MapAsDerive::Mapped(target, "self".to_owned())),
        (None, None) => Ok(MapAsDerive::NoMapping),
        (None, Some(_)) => Err(MISSING_TARGET),
    }
}

/// A parameter of a generic item.
#[derive(Clone, Copy, PartialEq, Eq, Structural, Debug)]
pub enum GenericParam {
    Type,
    Lifetime,
    Const,
}

/// A bound that a type parameter gets.
#[derive(Clone, Copy, PartialEq, Eq, Structural, Debug)]
pub enum Bound {
    Trace,
    Send,
    Sync,
    Static,
}

/// The bounds that the parameter gets: a traced type can be traced, can be sent
/// to and shared with other threads, and borrows nothing.
pub open spec fn bounds_of(param: GenericParam) -> Seq<Bound> {
    if param is Type {
        seq![Bound::Trace, Bound::Send, Bound::Sync, Bound::Static]
    } else {
        Seq::empty()
    }
}

/// Returns the bounds that each parameter of a traced item gets.
pub fn require_trace_for_generics(params: &Vec<GenericParam>) -> (bounds: Vec<Vec<Bound>>)
    ensures
        bounds@.len() == params@.len(),
        forall|i: int| 0 <= i < params@.len() ==> (#[trigger] bounds@[i])@ == bounds_of(params@[i]),
{
    let mut bounds: Vec<Vec<Bound>> = Vec::new();
    let mut i: usize = 0;
    while i < params.len()
        invariant
            i <= params@.len(),
            bounds@.len() == i,
            forall|j: int| 0 <= j < i ==> (#[trigger] bounds@[j])@ == bounds_of(params@[j]),
        decreases params@.len() - i,
    {
        let mut param_bounds: Vec<Bound> = Vec::new();
        if let GenericParam::Type = params[i] {
            param_bounds.push(Bound::Trace);
            param_bounds.push(Bound::Send);
            param_bounds.push(Bound::Sync);
            param_bounds.push(Bound::Static);
        }
        assert(param_bounds@ =~= bounds_of(params@[i as int]));
        bounds.push(param_bounds);
        i = i + 1;
    }
    bounds
}

} // verus!
