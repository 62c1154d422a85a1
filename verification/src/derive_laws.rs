//! What the derived implementations do.

use vstd::prelude::*;

use crate::derive::{
    accessor_of, accessors, all_types, arm_of, arm_views, bounds_of, lists_once, map_as_derived,
    texts, traced_fields, traced_types, variant_types, Accessor, Bound, EnumTrace, Field,
    GenericParam, MapAsDerive, StructTrace, Variant, VariantFields, MISSING_TARGET,
    NOT_DERIVABLE,
};

verus! {

/// The accessor is the name of the field, or its index if it has no name.
pub open spec fn accesses(accessor: Accessor, field: Field, index: int) -> bool {
    match (accessor, field.ident) {
        (Accessor::Named(name), Some(ident)) => name@ == ident@,
        (Accessor::Index(number), None) => number == index,
        _ => false,
    }
}

/// `positions` are the indexes of the fields that are not ignored, in order.
pub open spec fn kept_positions(fields: Seq<Field>, positions: Seq<int>) -> bool {
    &&& forall|a: int, b: int| 0 <= a < b < positions.len() ==> positions[a] < positions[b]
    &&& forall|a: int|
        0 <= a < positions.len() ==> 0 <= #[trigger] positions[a] < fields.len()
            && !fields[positions[a]].ignore
    &&& forall|i: int|
        0 <= i < fields.len() && !(#[trigger] fields[i]).ignore ==> positions.contains(i)
}

/// The traced fields are those that are not ignored, in their order.
proof fn lemma_traced_positions(fields: Seq<Field>) -> (positions: Seq<int>)
    ensures
        kept_positions(fields, positions),
        traced_fields(fields).len() == positions.len(),
        forall|a: int|
            0 <= a < positions.len() ==> traced_fields(fields)[a] == accessor_of(
                fields[#[trigger] positions[a]],
                positions[a],
            ),
        positions.len() == fields.filter(|field: Field| !field.ignore).len(),
    decreases fields.len(),
{
    reveal(Seq::filter);
    if fields.len() == 0 {
        Seq::empty()
    } else {
        let shorter = fields.drop_last();
        let last = fields.len() - 1;
        let earlier = lemma_traced_positions(shorter);
        assert forall|a: int| 0 <= a < earlier.len() implies 0 <= #[trigger] earlier[a] < last
            && shorter[earlier[a]] == fields[earlier[a]] by {}
        if fields.last().ignore {
            assert forall|i: int| 0 <= i < fields.len() && !(#[trigger] fields[i]).ignore implies
                earlier.contains(i) by {
                assert(shorter[i] == fields[i]);
            }
            earlier
        } else {
            let positions = earlier.push(last);
            assert forall|i: int| 0 <= i < fields.len() && !(#[trigger] fields[i]).ignore implies
                positions.contains(i) by {
                if i < last {
                    assert(shorter[i] == fields[i]);
                    let k = choose|k: int| 0 <= k < earlier.len() && earlier[k] == i;
                    assert(positions[k] == i);
                } else {
                    assert(positions[earlier.len() as int] == i);
                }
            }
            assert forall|a: int| 0 <= a < positions.len() implies traced_fields(fields)[a]
                == accessor_of(fields[#[trigger] positions[a]], positions[a]) by {
                if a < earlier.len() {
                    assert(positions[a] == earlier[a]);
                }
            }
            positions
        }
    }
}

/// The accessors that say what the traced fields are access the fields that are
/// not ignored, one each, in their order.
proof fn lemma_accessors(fields: Seq<Field>, traced: Seq<Accessor>) -> (positions: Seq<int>)
    requires
        accessors(traced) == traced_fields(fields),
    ensures
        kept_positions(fields, positions),
        traced.len() == positions.len(),
        traced.len() == fields.filter(|field: Field| !field.ignore).len(),
        forall|a: int|
            0 <= a < traced.len() ==> accesses(
                #[trigger] traced[a],
                fields[positions[a]],
                positions[a],
            ),
{
    let positions = lemma_traced_positions(fields);
    assert forall|a: int| 0 <= a < traced.len() implies accesses(
        #[trigger] traced[a],
        fields[positions[a]],
        positions[a],
    ) by {
        assert(accessors(traced)[a] == traced[a]@);
        assert(traced_fields(fields)[a] == accessor_of(fields[positions[a]], positions[a]));
    }
    positions
}

/// A field is accessed by its name, or by its index if it has none.
pub proof fn law_fields_are_accessed_by_name(field: Field, index: usize, accessor: Accessor)
    requires
        accessor@ == accessor_of(field, index as int),
    ensures
        field.ident is Some ==> accessor is Named && accessor->Named_0@ == field.ident.unwrap()@,
        field.ident is None ==> accessor is Index && accessor->Index_0 == index,
{
}

/// The derived implementation for a struct traces every field that is not ignored,
/// once and in the order of the fields, and no other.
pub proof fn law_struct_traces_every_field(fields: Seq<Field>, derived: StructTrace) -> (positions: Seq<
    int,
>)
    requires
        accessors(derived.fields@) == traced_fields(fields),
    ensures
        forall|a: int, b: int| 0 <= a < b < positions.len() ==> positions[a] < positions[b],
        forall|a: int|
            0 <= a < positions.len() ==> 0 <= #[trigger] positions[a] < fields.len()
                && !fields[positions[a]].ignore,
        forall|i: int|
            0 <= i < fields.len() && !(#[trigger] fields[i]).ignore ==> positions.contains(i),
        derived.fields@.len() == positions.len(),
        derived.fields@.len() == fields.filter(|field: Field| !field.ignore).len(),
        forall|a: int|
            0 <= a < positions.len() ==> match #[trigger] derived.fields@[a] {
                Accessor::Named(name) => fields[positions[a]].ident is Some && name@
                    == fields[positions[a]].ident.unwrap()@,
                Accessor::Index(index) => fields[positions[a]].ident is None && index
                    == positions[a],
            },
{
    let positions = lemma_accessors(fields, derived.fields@);
    assert forall|a: int| 0 <= a < positions.len() implies accesses(
        #[trigger] derived.fields@[a],
        fields[positions[a]],
        positions[a],
    ) by {}
    positions
}

/// A listed text is at some index, and what is at an index is listed.
proof fn lemma_listed(strings: Seq<String>, text: Seq<char>)
    ensures
        texts(strings).contains(text) <==> exists|k: int|
            0 <= k < strings.len() && (#[trigger] strings[k])@ == text,
{
    if texts(strings).contains(text) {
        let k = choose|k: int| 0 <= k < texts(strings).len() && texts(strings)[k] == text;
        assert(strings[k]@ == text);
    }
    if exists|k: int| 0 <= k < strings.len() && (#[trigger] strings[k])@ == text {
        let k = choose|k: int| 0 <= k < strings.len() && (#[trigger] strings[k])@ == text;
        assert(texts(strings)[k] == text);
    }
}

/// The types that decide whether a struct may contain references are those of the
/// fields that are not ignored, each once.
pub proof fn law_struct_lists_the_types_of_its_fields(fields: Seq<Field>, derived: StructTrace)
    requires
        lists_once(derived.types@, traced_types(fields)),
    ensures
        forall|ty: Seq<char>|
            (exists|k: int| 0 <= k < derived.types@.len() && (#[trigger] derived.types@[k])@ == ty)
                <==> #[trigger] is_type_of_kept(fields, ty),
        forall|a: int, b: int|
            0 <= a < b < derived.types@.len() ==> (#[trigger] derived.types@[a])@ != (
            #[trigger] derived.types@[b])@,
{
    assert forall|ty: Seq<char>|
        (exists|k: int| 0 <= k < derived.types@.len() && (#[trigger] derived.types@[k])@ == ty)
            <==> #[trigger] is_type_of_kept(fields, ty) by {
        lemma_listed(derived.types@, ty);
        lemma_traced_type(fields, ty);
    }
    lemma_distinct(derived.types@);
}

/// Some field that is not ignored has the type.
pub open spec fn is_type_of_kept(fields: Seq<Field>, ty: Seq<char>) -> bool {
    exists|i: int| 0 <= i < fields.len() && !(#[trigger] fields[i]).ignore && fields[i].ty@ == ty
}

proof fn lemma_traced_type(fields: Seq<Field>, ty: Seq<char>)
    ensures
        traced_types(fields).contains(ty) <==> is_type_of_kept(fields, ty),
{
}

proof fn lemma_distinct(strings: Seq<String>)
    requires
        texts(strings).no_duplicates(),
    ensures
        forall|a: int, b: int|
            0 <= a < b < strings.len() ==> (#[trigger] strings[a])@ != (#[trigger] strings[b])@,
{
    assert forall|a: int, b: int| 0 <= a < b < strings.len() implies (#[trigger] strings[a])@ != (
    #[trigger] strings[b])@ by {
        assert(texts(strings)[a] != texts(strings)[b]);
    }
}

/// The derived implementation for an enum has one arm for each variant, in order,
/// of the variant's shape. An ignored variant is not looked at.
pub proof fn law_enum_has_an_arm_for_each_variant(
    variants: Seq<Variant>,
    derived: EnumTrace,
    i: int,
)
    requires
        arm_views(derived.arms@) == Seq::new(variants.len(), |i: int| arm_of(variants[i])),
        0 <= i < variants.len(),
    ensures
        derived.arms@.len() == variants.len(),
        derived.arms@[i] is Unit <==> variants[i].fields is Unit,
        derived.arms@[i] is IgnoreNamed <==> variants[i].fields is Named && variants[i].ignore,
        derived.arms@[i] is IgnoreUnnamed <==> variants[i].fields is Unnamed && variants[i].ignore,
        derived.arms@[i] is TraceNamed <==> variants[i].fields is Named && !variants[i].ignore,
        derived.arms@[i] is TraceUnnamed <==> variants[i].fields is Unnamed && !variants[i].ignore,
{
    assert(arm_views(derived.arms@).len() == variants.len());
    assert(arm_views(derived.arms@)[i] == derived.arms@[i]@);
    assert(arm_views(derived.arms@)[i] == arm_of(variants[i]));
}

/// An arm for named fields traces every field that is not ignored, once and in
/// order, and no other; its pattern has a rest exactly if a field is ignored.
pub proof fn law_named_variant_traces_every_field(
    variants: Seq<Variant>,
    derived: EnumTrace,
    i: int,
) -> (positions: Seq<int>)
    requires
        arm_views(derived.arms@) == Seq::new(variants.len(), |i: int| arm_of(variants[i])),
        0 <= i < variants.len(),
        variants[i].fields is Named,
        !variants[i].ignore,
    ensures
        ({
            let fields = variants[i].fields->Named_0@;
            let traced = derived.arms@[i]->TraceNamed_0@;
            &&& derived.arms@[i] is TraceNamed
            &&& forall|a: int, b: int| 0 <= a < b < positions.len() ==> positions[a] < positions[b]
            &&& forall|a: int|
                0 <= a < positions.len() ==> 0 <= #[trigger] positions[a] < fields.len()
                    && !fields[positions[a]].ignore
            &&& forall|j: int|
                0 <= j < fields.len() && !(#[trigger] fields[j]).ignore ==> positions.contains(j)
            &&& traced.len() == positions.len()
            &&& forall|a: int|
                0 <= a < positions.len() ==> accesses(
                    #[trigger] traced[a],
                    fields[positions[a]],
                    positions[a],
                )
            &&& derived.arms@[i]->TraceNamed_1 <==> exists|j: int|
                0 <= j < fields.len() && (#[trigger] fields[j]).ignore
        }),
{
    law_enum_has_an_arm_for_each_variant(variants, derived, i);
    assert(arm_views(derived.arms@)[i] == derived.arms@[i]@);
    assert(arm_views(derived.arms@)[i] == arm_of(variants[i]));
    lemma_accessors(variants[i].fields->Named_0@, derived.arms@[i]->TraceNamed_0@)
}

/// An arm for unnamed fields traces every field that is not ignored, once and in
/// order, and no other; its pattern binds exactly these.
pub proof fn law_unnamed_variant_traces_every_field(
    variants: Seq<Variant>,
    derived: EnumTrace,
    i: int,
) -> (positions: Seq<int>)
    requires
        arm_views(derived.arms@) == Seq::new(variants.len(), |i: int| arm_of(variants[i])),
        0 <= i < variants.len(),
        variants[i].fields is Unnamed,
        !variants[i].ignore,
    ensures
        ({
            let fields = variants[i].fields->Unnamed_0@;
            let traced = derived.arms@[i]->TraceUnnamed_0@;
            let bound = derived.arms@[i]->TraceUnnamed_1@;
            &&& derived.arms@[i] is TraceUnnamed
            &&& forall|a: int, b: int| 0 <= a < b < positions.len() ==> positions[a] < positions[b]
            &&& forall|a: int|
                0 <= a < positions.len() ==> 0 <= #[trigger] positions[a] < fields.len()
                    && !fields[positions[a]].ignore
            &&& forall|j: int|
                0 <= j < fields.len() && !(#[trigger] fields[j]).ignore ==> positions.contains(j)
            &&& traced.len() == positions.len()
            &&& forall|a: int|
                0 <= a < positions.len() ==> accesses(
                    #[trigger] traced[a],
                    fields[positions[a]],
                    positions[a],
                )
            &&& bound.len() == fields.len()
            &&& forall|j: int|
                0 <= j < fields.len() ==> #[trigger] bound[j] == !fields[j].ignore
        }),
{
    law_enum_has_an_arm_for_each_variant(variants, derived, i);
    assert(arm_views(derived.arms@)[i] == derived.arms@[i]@);
    assert(arm_views(derived.arms@)[i] == arm_of(variants[i]));
    lemma_accessors(variants[i].fields->Unnamed_0@, derived.arms@[i]->TraceUnnamed_0@)
}

/// Some field that is not ignored, of a variant that is not ignored, has the type.
pub open spec fn is_type_of_kept_variant(variant: Variant, ty: Seq<char>) -> bool {
    !variant.ignore && match variant.fields {
        VariantFields::Named(fields) => is_type_of_kept(fields@, ty),
        VariantFields::Unnamed(fields) => is_type_of_kept(fields@, ty),
        VariantFields::Unit => false,
    }
}

/// Some variant that is not ignored has a field that is not ignored of the type.
pub open spec fn is_type_of_some(variants: Seq<Variant>, ty: Seq<char>) -> bool {
    exists|i: int| 0 <= i < variants.len() && is_type_of_kept_variant(#[trigger] variants[i], ty)
}

/// The types that decide whether an enum may contain references are those of the
/// fields that are traced, each once.
pub proof fn law_enum_lists_the_types_of_its_fields(variants: Seq<Variant>, derived: EnumTrace)
    requires
        lists_once(derived.types@, all_types(variants)),
    ensures
        forall|i: int, ty: Seq<char>|
            0 <= i < variants.len() && #[trigger] is_type_of_kept_variant(variants[i], ty)
                ==> exists|k: int|
                0 <= k < derived.types@.len() && (#[trigger] derived.types@[k])@ == ty,
        forall|k: int|
            0 <= k < derived.types@.len() ==> is_type_of_some(
                variants,
                (#[trigger] derived.types@[k])@,
            ),
        forall|a: int, b: int|
            0 <= a < b < derived.types@.len() ==> (#[trigger] derived.types@[a])@ != (
            #[trigger] derived.types@[b])@,
{
    assert forall|i: int, ty: Seq<char>|
        0 <= i < variants.len() && #[trigger] is_type_of_kept_variant(variants[i], ty) implies exists|
        k: int,
    | 0 <= k < derived.types@.len() && (#[trigger] derived.types@[k])@ == ty by {
        assert(variant_types(variants[i]).contains(ty));
        assert(all_types(variants).contains(ty));
        lemma_listed(derived.types@, ty);
    }
    assert forall|k: int| 0 <= k < derived.types@.len() implies is_type_of_some(
        variants,
        (#[trigger] derived.types@[k])@,
    ) by {
        let ty = derived.types@[k]@;
        lemma_listed(derived.types@, ty);
        assert(all_types(variants).contains(ty));
        let i = choose|i: int|
            0 <= i < variants.len() && variant_types(#[trigger] variants[i]).contains(ty);
        assert(is_type_of_kept_variant(variants[i], ty));
    }
    lemma_distinct(derived.types@);
}

/// A target that is annotated is the target, and what is annotated as mapped is
/// mapped to; without that, the value itself is. Without both there is no mapping,
/// and without a target nothing can be mapped.
pub proof fn law_map_as_follows_the_annotations(
    target: Option<String>,
    map: Option<String>,
    derived: Result<MapAsDerive, &'static str>,
)
    requires
        map_as_derived(target, map, derived),
    ensures
        derived is Ok <==> target is Some || map is None,
        target is Some ==> derived->Ok_0 is Mapped && derived->Ok_0->Mapped_0@ == target.unwrap()@,
        target is Some && map is Some ==> derived->Ok_0->Mapped_1@ == map.unwrap()@,
        target is Some && map is None ==> derived->Ok_0->Mapped_1@ == "self"@,
        target is None && map is None ==> derived->Ok_0 is NoMapping,
        target is None && map is Some ==> derived->Err_0@
            == "target must be specified when map is provided"@,
        NOT_DERIVABLE@ == "Collectable can only derived on structs and enums"@,
        MISSING_TARGET@ == "target must be specified when map is provided"@,
{
}

/// Every type parameter of a traced item can be traced, sent and shared, and
/// borrows nothing; other parameters get no bounds.
pub proof fn law_type_parameters_are_bounded(param: GenericParam, bound: Bound)
    ensures
        bounds_of(param).contains(bound) <==> param is Type,
        bounds_of(param).no_duplicates(),
        !(param is Type) ==> bounds_of(param).len() == 0,
        param is Type ==> bounds_of(param).len() == 4,
{
    if param is Type {
        let bounds = bounds_of(param);
        assert(bounds[0] == Bound::Trace);
        assert(bounds[1] == Bound::Send);
        assert(bounds[2] == Bound::Sync);
        assert(bounds[3] == Bound::Static);
    }
}

} // verus!
