use crate::json::{
    find_entry, json_equals_const, json_fits_const_kind, json_kind, lemma_view_entries_index, view_entries, JsonValue,
    find_key, json_is_const, json_kind_fits, jsize, kind_of, lemma_entry_removed, lemma_entry_smaller,
    lemma_item_smaller, sum_entries, sum_items, JModel, JsonKind,
};
use crate::registry::{contains_name, has_name, EEnumData, EEnumVariant, EItemInfo, EObject, EStructField, ETypesRegistry, EnumPattern, Tagged};
use crate::types::{const_value, view_value, EValue, EDataType, EEnumVariantId, EListId, EMapId, ETypeConst, ETypeId, VModel};
use vstd::prelude::*;

verus! {

/// Why a JSON tree does not decode, or a value does not encode.
#[derive(Debug, Clone, Copy, PartialEq, Eq, Structural)]
pub enum DecodeError {
    UnknownType(ETypeId),
    UnknownList(EListId),
    UnknownMap(EMapId),
    /// Decoding passed through the same named types without consuming input.
    RecursiveType(ETypeId),
    /// The JSON node is of the wrong kind; the kind found is given.
    WrongKind(JsonKind),
    /// The JSON node is of the constant's kind but not the constant.
    ConstMismatch,
    /// The declared field at this position is absent.
    MissingField(usize),
    /// A tagged enum was given something other than an object.
    NotAnObject,
    /// An externally tagged enum was given more than one key.
    TooManyKeys,
    /// An externally tagged enum was given an empty object.
    EmptyObject,
    MissingTag,
    MissingContent,
    /// An adjacently tagged enum was given keys besides tag and content.
    UnknownKeys,
    NoMatchingVariant,
    /// A map key did not encode to a JSON string.
    KeyNotString,
    /// An enum value names a variant that its type does not have.
    UnknownVariant(EEnumVariantId),
}

/// The type of a payload; a parameter that was never instantiated reads as null.
pub open spec fn item_type(item: EItemInfo) -> EDataType {
    match item {
        EItemInfo::Specific { ty, .. } => ty,
        EItemInfo::Generic { .. } => EDataType::Const { value: ETypeConst::Null },
    }
}

/// A variant's pattern accepts the JSON node.
pub open spec fn pattern_matches(pat: EnumPattern, j: JModel) -> bool {
    match pat {
        EnumPattern::StructField(f, c) => j is Object && match find_key(j->Object_0, f@) {
            Some(k) => json_is_const(j->Object_0[k].1, c),
            None => false,
        },
        EnumPattern::Boolean => j is Bool,
        EnumPattern::Number => j is Number,
        EnumPattern::String => j is String,
        EnumPattern::Const(c) => json_is_const(j, c),
        EnumPattern::Fields(ns) => {
            &&& j is Object
            &&& forall|i: int| 0 <= i < j->Object_0.len() ==> has_name(ns@, (#[trigger] j->Object_0[i]).0)
            &&& forall|i: int| 0 <= i < ns@.len() ==> find_key(j->Object_0, (#[trigger] ns@[i])@) is Some
        },
        EnumPattern::Tagged { repr, tag } => j is Object && match repr {
            Tagged::External => find_key(j->Object_0, tag@) is Some,
            Tagged::Internal { tag_field } => match find_key(j->Object_0, tag_field@) {
                Some(k) => j->Object_0[k].1 == JModel::String(tag@),
                None => false,
            },
            Tagged::Adjacent { tag_field, .. } => match find_key(j->Object_0, tag_field@) {
                Some(k) => j->Object_0[k].1 == JModel::String(tag@),
                None => false,
            },
        },
    }
}

/// Position of the first of the first `n` variants whose pattern accepts `j`.
pub open spec fn first_match(vs: Seq<EEnumVariant>, j: JModel, n: nat) -> Option<int>
    decreases n,
{
    if n == 0 || n > vs.len() {
        None
    } else {
        match first_match(vs, j, (n - 1) as nat) {
            Some(k) => Some(k),
            None => if pattern_matches(vs[n - 1].pat, j) { Some(n - 1) } else { None },
        }
    }
}

/// The checks that a tagging mode makes on the whole JSON node before any
/// variant is tried.
pub open spec fn tag_check(repr: Option<Tagged>, j: JModel, inline: bool) -> Option<DecodeError> {
    match repr {
        None => None,
        Some(r) => match j {
            JModel::Object(es) => match r {
                Tagged::External => if !inline && es.len() > 1 {
                    Some(DecodeError::TooManyKeys)
                } else if es.len() == 0 {
                    Some(DecodeError::EmptyObject)
                } else {
                    None
                },
                Tagged::Internal { tag_field } => if find_key(es, tag_field@) is None {
                    Some(DecodeError::MissingTag)
                } else {
                    None
                },
                Tagged::Adjacent { tag_field, content_field } => if find_key(es, tag_field@) is None {
                    Some(DecodeError::MissingTag)
                } else if !inline && exists|i: int| 0 <= i < es.len() && (#[trigger] es[i]).0 != tag_field@
                    && es[i].0 != content_field@ {
                    Some(DecodeError::UnknownKeys)
                } else {
                    None
                },
            },
            _ => Some(DecodeError::NotAnObject),
        },
    }
}

/// Decodes `j` as a value of type `ty`. `fuel` bounds how many named
/// types decoding may pass through without consuming part of the input; a
/// registry of `n` types never needs more than `n`.
pub open spec fn spec_parse(reg: ETypesRegistry, ty: EDataType, j: JModel, inline: bool, fuel: nat) -> Result<VModel, DecodeError>
    decreases jsize(j), fuel, 1nat, 0nat,
{
    match ty {
        EDataType::Boolean => match j {
            JModel::Bool(b) => Ok(VModel::Boolean(b)),
            _ => Err(DecodeError::WrongKind(kind_of(j))),
        },
        EDataType::Number => match j {
            JModel::Number(n) => Ok(VModel::Number(n)),
            _ => Err(DecodeError::WrongKind(kind_of(j))),
        },
        EDataType::String => match j {
            JModel::String(s) => Ok(VModel::String(s)),
            _ => Err(DecodeError::WrongKind(kind_of(j))),
        },
        EDataType::Const { value } => if !json_kind_fits(j, value) {
            Err(DecodeError::WrongKind(kind_of(j)))
        } else if !json_is_const(j, value) {
            Err(DecodeError::ConstMismatch)
        } else {
            Ok(view_value(const_value(value)))
        },
        EDataType::Object { ident } => if ident.0 >= reg.objects().len() {
            Err(DecodeError::UnknownType(ident))
        } else if fuel == 0 {
            Err(DecodeError::RecursiveType(ident))
        } else {
            match reg.objects()[ident.0 as int] {
                EObject::Struct(s) => match j {
                    JModel::Object(es) => match parse_fields(reg, s.fields@, es, s.fields@.len(), (fuel - 1) as nat) {
                        Ok(fs) => Ok(VModel::Struct(ident.0, fs)),
                        Err(e) => Err(e),
                    },
                    _ => Err(DecodeError::WrongKind(kind_of(j))),
                },
                EObject::Enum(e) => parse_enum(reg, e, ident, j, inline, (fuel - 1) as nat),
            }
        },
        EDataType::List { id } => if id.0 >= reg.lists().len() {
            Err(DecodeError::UnknownList(id))
        } else {
            match j {
                JModel::Array(items) => match parse_items(reg, reg.lists()[id.0 as int], items, items.len(), fuel) {
                    Ok(vs) => Ok(VModel::List(id.0, vs)),
                    Err(e) => Err(e),
                },
                _ => Err(DecodeError::WrongKind(kind_of(j))),
            }
        },
        EDataType::Dict { id } => if id.0 >= reg.maps().len() {
            Err(DecodeError::UnknownMap(id))
        } else {
            match j {
                JModel::Object(es) => match parse_entries(reg, reg.maps()[id.0 as int].0, reg.maps()[id.0 as int].1, es, es.len(), fuel) {
                    Ok(ps) => Ok(VModel::Dict(id.0, ps)),
                    Err(e) => Err(e),
                },
                _ => Err(DecodeError::WrongKind(kind_of(j))),
            }
        },
    }
}

/// Decodes the first `n` declared fields from the object entries `es`.
pub open spec fn parse_fields(reg: ETypesRegistry, fs: Seq<EStructField>, es: Seq<(Seq<char>, JModel)>, n: nat, fuel: nat) -> Result<
    Seq<(Seq<char>, VModel)>,
    DecodeError,
>
    decreases 1 + sum_entries(es, es.len()), fuel, 0nat, n,
{
    if n == 0 || n > fs.len() {
        Ok(Seq::empty())
    } else {
        match parse_fields(reg, fs, es, (n - 1) as nat, fuel) {
            Err(e) => Err(e),
            Ok(prefix) => match find_key(es, fs[n - 1].name@) {
                None => Err(DecodeError::MissingField((n - 1) as usize)),
                Some(k) => if 0 <= k < es.len() {
                    proof {
                        lemma_entry_smaller(es, k, es.len());
                    }
                    match spec_parse(reg, item_type(fs[n - 1].ty), es[k].1, false, reg.objects().len()) {
                        Err(e) => Err(e),
                        Ok(v) => Ok(prefix.push((fs[n - 1].name@, v))),
                    }
                } else {
                    Err(DecodeError::MissingField((n - 1) as usize))
                },
            },
        }
    }
}

/// Decodes the first `n` items of an array.
pub open spec fn parse_items(reg: ETypesRegistry, elem: EDataType, items: Seq<JModel>, n: nat, fuel: nat) -> Result<Seq<VModel>, DecodeError>
    decreases 1 + sum_items(items, items.len()), fuel, 0nat, n,
{
    if n == 0 || n > items.len() {
        Ok(Seq::empty())
    } else {
        match parse_items(reg, elem, items, (n - 1) as nat, fuel) {
            Err(e) => Err(e),
            Ok(prefix) => {
                proof {
                    lemma_item_smaller(items, n - 1, items.len());
                }
                match spec_parse(reg, elem, items[n - 1], false, reg.objects().len()) {
                Err(e) => Err(e),
                Ok(v) => Ok(prefix.push(v)),
            }},
        }
    }
}

/// Decodes the first `n` entries of an object as map entries: each key,
/// as a JSON string, by the key type, each value by the value type.
pub open spec fn parse_entries(
    reg: ETypesRegistry,
    kty: EDataType,
    vty: EDataType,
    es: Seq<(Seq<char>, JModel)>,
    n: nat,
    fuel: nat,
) -> Result<Seq<(VModel, VModel)>, DecodeError>
    decreases 1 + sum_entries(es, es.len()), fuel, 0nat, n,
{
    if n == 0 || n > es.len() {
        Ok(Seq::empty())
    } else {
        match parse_entries(reg, kty, vty, es, (n - 1) as nat, fuel) {
            Err(e) => Err(e),
            Ok(prefix) => {
                proof {
                    lemma_entry_smaller(es, n - 1, es.len());
                }
                match spec_parse(reg, kty, JModel::String(es[n - 1].0), false, reg.objects().len()) {
                Err(e) => Err(e),
                Ok(k) => match spec_parse(reg, vty, es[n - 1].1, false, reg.objects().len()) {
                    Err(e) => Err(e),
                    Ok(v) => Ok(prefix.push((k, v))),
                },
            }},
        }
    }
}

/// Decodes `j` as a value of enum `e`: the tagging mode's checks, then the
/// first variant whose pattern accepts `j`, with its payload decoded from
/// the part of `j` that the pattern designates.
pub open spec fn parse_enum(reg: ETypesRegistry, e: EEnumData, ident: ETypeId, j: JModel, inline: bool, fuel: nat) -> Result<VModel, DecodeError>
    decreases jsize(j), fuel, 2nat, 0nat,
{
    match tag_check(e.tagged_repr, j, inline) {
        Some(err) => Err(err),
        None => match first_match(e.variants@, j, e.variants@.len()) {
            None => Err(DecodeError::NoMatchingVariant),
            Some(i) => if 0 <= i < e.variants@.len() {
                let v = e.variants@[i];
                let ty = item_type(v.data);
                let vid = EEnumVariantId { ident, variant: i as usize };
                let full = reg.objects().len();
                let payload = match v.pat {
                    EnumPattern::Tagged { repr, tag } => match j {
                        JModel::Object(es) => match repr {
                            Tagged::External => match find_key(es, tag@) {
                                Some(k) => if 0 <= k < es.len() {
                                    proof {
                                        lemma_entry_smaller(es, k, es.len());
                                    }
                                    spec_parse(reg, ty, es[k].1, false, full)
                                } else {
                                    Err(DecodeError::MissingTag)
                                },
                                None => Err(DecodeError::MissingTag),
                            },
                            Tagged::Internal { tag_field } => match find_key(es, tag_field@) {
                                Some(k) => if 0 <= k < es.len() {
                                    proof {
                                        lemma_entry_removed(es, k, es.len());
                                    }
                                    spec_parse(reg, ty, JModel::Object(es.remove(k)), false, full)
                                } else {
                                    Err(DecodeError::MissingTag)
                                },
                                None => Err(DecodeError::MissingTag),
                            },
                            Tagged::Adjacent { content_field, .. } => match find_key(es, content_field@) {
                                Some(k) => if 0 <= k < es.len() {
                                    proof {
                                        lemma_entry_smaller(es, k, es.len());
                                    }
                                    spec_parse(reg, ty, es[k].1, false, full)
                                } else {
                                    Err(DecodeError::MissingContent)
                                },
                                None => Err(DecodeError::MissingContent),
                            },
                        },
                        _ => Err(DecodeError::NotAnObject),
                    },
                    _ => spec_parse(reg, ty, j, false, fuel),
                };
                match payload {
                    Ok(d) => Ok(VModel::Enum(vid, Box::new(d))),
                    Err(x) => Err(x),
                }
            } else {
                Err(DecodeError::NoMatchingVariant)
            },
        },
    }
}

} // verus!

verus! {

/// Whether a variant's pattern accepts the JSON node.
pub fn matches_pattern(pat: &EnumPattern, j: &JsonValue) -> (r: bool)
    ensures
        r == pattern_matches(*pat, j@),
{
    match j {
        JsonValue::Object(es) => {
            proof {
                lemma_view_entries_index(es@, es@.len());
            }
            let ghost m = view_entries(es@, es@.len());
            assert(j@ == JModel::Object(m));
            match pat {
                EnumPattern::StructField(f, c) => match find_entry(es, f) {
                    Some(k) => json_equals_const(&es[k].1, c),
                    None => false,
                },
                EnumPattern::Fields(ns) => {
                    let mut i: usize = 0;
                    while i < es.len()
                        invariant
                            i <= es@.len(),
                            m == view_entries(es@, es@.len()),
                            m.len() == es@.len(),
                            forall|q: int| 0 <= q < es@.len() ==> #[trigger] m[q] == (es@[q].0@, es@[q].1@),
                            forall|q: int| 0 <= q < i ==> has_name(ns@, (#[trigger] m[q]).0),
                            j@ == JModel::Object(m),
                            *pat == EnumPattern::Fields(*ns),
                        decreases es.len() - i,
                    {
                        if !contains_name(ns, &es[i].0) {
                            assert(m[i as int] == (es@[i as int].0@, es@[i as int].1@));
                            assert(!has_name(ns@, m[i as int].0));
                            return false;
                        }
                        i = i + 1;
                    }
                    let mut k: usize = 0;
                    while k < ns.len()
                        invariant
                            k <= ns@.len(),
                            m == view_entries(es@, es@.len()),
                            forall|q: int| 0 <= q < k ==> find_key(m, (#[trigger] ns@[q])@) is Some,
                            forall|q: int| 0 <= q < m.len() ==> has_name(ns@, (#[trigger] m[q]).0),
                            j@ == JModel::Object(m),
                            *pat == EnumPattern::Fields(*ns),
                        decreases ns.len() - k,
                    {
                        if find_entry(es, &ns[k]).is_none() {
                            return false;
                        }
                        k = k + 1;
                    }
                    true
                },
                EnumPattern::Tagged { repr, tag } => match repr {
                    Tagged::External => find_entry(es, tag).is_some(),
                    Tagged::Internal { tag_field } => match find_entry(es, tag_field) {
                        Some(k) => match &es[k].1 {
                            JsonValue::String(t) => *t == *tag,
                            _ => false,
                        },
                        None => false,
                    },
                    Tagged::Adjacent { tag_field, .. } => match find_entry(es, tag_field) {
                        Some(k) => match &es[k].1 {
                            JsonValue::String(t) => *t == *tag,
                            _ => false,
                        },
                        None => false,
                    },
                },
                EnumPattern::Const(c) => json_equals_const(j, c),
                _ => false,
            }
        },
        _ => match pat {
            EnumPattern::Boolean => matches!(j, JsonValue::Bool(_)),
            EnumPattern::Number => matches!(j, JsonValue::Number(_)),
            EnumPattern::String => matches!(j, JsonValue::String(_)),
            EnumPattern::Const(c) => json_equals_const(j, c),
            _ => false,
        },
    }
}

/// The checks of a tagging mode on the whole JSON node.
fn check_tag(repr: &Option<Tagged>, j: &JsonValue, inline: bool) -> (r: Option<DecodeError>)
    ensures
        r == tag_check(*repr, j@, inline),
{
    match repr {
        None => None,
        Some(t) => match j {
            JsonValue::Object(es) => {
                proof {
                    lemma_view_entries_index(es@, es@.len());
                }
                let ghost m = view_entries(es@, es@.len());
                assert(j@ == JModel::Object(m));
                match t {
                    Tagged::External => {
                        if !inline && es.len() > 1 {
                            Some(DecodeError::TooManyKeys)
                        } else if es.len() == 0 {
                            Some(DecodeError::EmptyObject)
                        } else {
                            None
                        }
                    },
                    Tagged::Internal { tag_field } => {
                        if find_entry(es, tag_field).is_none() {
                            Some(DecodeError::MissingTag)
                        } else {
                            None
                        }
                    },
                    Tagged::Adjacent { tag_field, content_field } => {
                        if find_entry(es, tag_field).is_none() {
                            return Some(DecodeError::MissingTag);
                        }
                        if inline {
                            return None;
                        }
                        let mut i: usize = 0;
                        while i < es.len()
                            invariant
                                i <= es@.len(),
                                m == view_entries(es@, es@.len()),
                                m.len() == es@.len(),
                                forall|q: int| 0 <= q < es@.len() ==> #[trigger] m[q] == (es@[q].0@, es@[q].1@),
                                forall|q: int| 0 <= q < i ==> !((#[trigger] m[q]).0 != tag_field@ && m[q].0 != content_field@),
                                j@ == JModel::Object(m),
                                *repr == Some(*t),
                                *t == (Tagged::Adjacent { tag_field: *tag_field, content_field: *content_field }),
                                !inline,
                                find_key(m, tag_field@) is Some,
                            decreases es.len() - i,
                        {
                            if !(es[i].0 == *tag_field) && !(es[i].0 == *content_field) {
                                assert(m[i as int].0 != tag_field@ && m[i as int].0 != content_field@);
                                return Some(DecodeError::UnknownKeys);
                            }
                            i = i + 1;
                        }
                        None
                    },
                }
            },
            _ => Some(DecodeError::NotAnObject),
        },
    }
}

/// Position of the first variant whose pattern accepts the JSON node.
fn first_matching_variant(vs: &Vec<EEnumVariant>, j: &JsonValue) -> (r: Option<usize>)
    ensures
        r matches Some(i) ==> first_match(vs@, j@, vs@.len()) == Some(i as int) && i < vs@.len(),
        r is None ==> first_match(vs@, j@, vs@.len()) is None,
{
    let mut i: usize = 0;
    while i < vs.len()
        invariant
            i <= vs@.len(),
            first_match(vs@, j@, i as nat) is None,
        decreases vs.len() - i,
    {
        if matches_pattern(&vs[i].pat, j) {
            proof {
                lemma_first_match_stable(vs@, j@, (i + 1) as nat, vs@.len());
            }
            return Some(i);
        }
        i = i + 1;
    }
    None
}

proof fn lemma_first_match_stable(vs: Seq<EEnumVariant>, j: JModel, k: nat, n: nat)
    requires
        k <= n <= vs.len(),
        first_match(vs, j, k) is Some,
    ensures
        first_match(vs, j, n) == first_match(vs, j, k),
    decreases n - k,
{
    if n > k {
        lemma_first_match_stable(vs, j, k, (n - 1) as nat);
    }
}

} // verus!

verus! {

/// One step of the path at which decoding failed: an array position, a
/// declared field's position, a map entry's position, or the variant
/// being decoded.
#[derive(Debug, Clone, Copy, PartialEq, Eq, Structural)]
pub enum PathSegment {
    Index(usize),
    Field(usize),
    Entry(usize),
    Variant(usize),
}

/// A decoding or encoding failure with the path to it, innermost step first.
#[derive(Debug)]
pub struct CodecError {
    pub kind: DecodeError,
    pub path: Vec<PathSegment>,
}

fn fail(kind: DecodeError) -> (r: CodecError)
    ensures
        r.kind == kind,
        r.path@.len() == 0,
{
    CodecError { kind, path: Vec::new() }
}

fn within(e: CodecError, seg: PathSegment) -> (r: CodecError)
    ensures
        r.kind == e.kind,
        r.path@ == e.path@.push(seg),
{
    let mut e = e;
    e.path.push(seg);
    e
}

/// Relates an executable decoding result to the model's.
pub open spec fn parse_models(r: Result<EValue, CodecError>, m: Result<VModel, DecodeError>) -> bool {
    match r {
        Ok(v) => m == Ok::<VModel, DecodeError>(v@),
        Err(e) => m == Err::<VModel, DecodeError>(e.kind),
    }
}

/// The first of the first `n` items that fails to decode is `i`.
pub open spec fn first_bad_item(reg: ETypesRegistry, elem: EDataType, items: Seq<JModel>, i: int) -> bool {
    &&& 0 <= i < items.len()
    &&& spec_parse(reg, elem, items[i], false, reg.objects().len()) is Err
    &&& forall|q: int| 0 <= q < i ==> spec_parse(reg, elem, #[trigger] items[q], false, reg.objects().len()) is Ok
}

/// The first entry whose key or value fails to decode is `i`.
pub open spec fn first_bad_entry(reg: ETypesRegistry, kty: EDataType, vty: EDataType, es: Seq<(Seq<char>, JModel)>, i: int) -> bool {
    &&& 0 <= i < es.len()
    &&& !entry_decodes(reg, kty, vty, es[i])
    &&& forall|q: int| 0 <= q < i ==> entry_decodes(reg, kty, vty, #[trigger] es[q])
}

pub open spec fn entry_decodes(reg: ETypesRegistry, kty: EDataType, vty: EDataType, e: (Seq<char>, JModel)) -> bool {
    spec_parse(reg, kty, JModel::String(e.0), false, reg.objects().len()) is Ok && spec_parse(
        reg,
        vty,
        e.1,
        false,
        reg.objects().len(),
    ) is Ok
}

/// Where decoding a list or map failed: a failing item or entry puts its
/// position last on the error's path.
pub open spec fn error_position(reg: ETypesRegistry, ty: EDataType, j: JModel, path: Seq<PathSegment>) -> bool {
    &&& (ty matches EDataType::List { id } && id.0 < reg.lists().len() && j is Array) ==> forall|i: int| #[trigger] first_bad_item(
        reg,
        reg.lists()[ty->List_id.0 as int],
        j->Array_0,
        i,
    ) ==> path.len() > 0 && path.last() == PathSegment::Index(i as usize)
    &&& (ty matches EDataType::Dict { id } && id.0 < reg.maps().len() && j is Object) ==> forall|i: int| #[trigger] first_bad_entry(
        reg,
        reg.maps()[ty->Dict_id.0 as int].0,
        reg.maps()[ty->Dict_id.0 as int].1,
        j->Object_0,
        i,
    ) ==> path.len() > 0 && path.last() == PathSegment::Entry(i as usize)
}

proof fn lemma_parse_items_prefix(reg: ETypesRegistry, elem: EDataType, items: Seq<JModel>, n: nat, fuel: nat)
    requires
        n <= items.len(),
        parse_items(reg, elem, items, n, fuel) is Ok,
    ensures
        forall|q: int| 0 <= q < n ==> spec_parse(reg, elem, #[trigger] items[q], false, reg.objects().len()) is Ok,
    decreases n,
{
    if n > 0 {
        lemma_parse_items_prefix(reg, elem, items, (n - 1) as nat, fuel);
    }
}

proof fn lemma_parse_entries_prefix(reg: ETypesRegistry, kty: EDataType, vty: EDataType, es: Seq<(Seq<char>, JModel)>, n: nat, fuel: nat)
    requires
        n <= es.len(),
        parse_entries(reg, kty, vty, es, n, fuel) is Ok,
    ensures
        forall|q: int| 0 <= q < n ==> entry_decodes(reg, kty, vty, #[trigger] es[q]),
    decreases n,
{
    if n > 0 {
        lemma_parse_entries_prefix(reg, kty, vty, es, (n - 1) as nat, fuel);
    }
}

/// The type of a payload.
pub fn payload_type(item: &EItemInfo) -> (r: EDataType)
    ensures
        r == item_type(*item),
{
    match item {
        EItemInfo::Specific { ty, .. } => ty.duplicate(),
        EItemInfo::Generic { .. } => EDataType::Const { value: ETypeConst::Null },
    }
}

impl EItemInfo {
    /// The payload type; a parameter that was never instantiated reads as
    /// the null type.
    pub fn ty(&self) -> (r: EDataType)
        ensures
            r == item_type(*self),
    {
        payload_type(self)
    }

    /// The extra properties attached to the payload.
    pub fn extra_properties(&self) -> (r: &Vec<(String, ETypeConst)>)
        ensures
            *self is Specific ==> *r == self->Specific_extra_properties,
            *self is Generic ==> *r == self->Generic_extra_properties,
    {
        match self {
            EItemInfo::Specific { extra_properties, .. } => extra_properties,
            EItemInfo::Generic { extra_properties, .. } => extra_properties,
        }
    }
}

proof fn lemma_parse_fields_err(reg: ETypesRegistry, fs: Seq<EStructField>, es: Seq<(Seq<char>, JModel)>, k: nat, n: nat, fuel: nat)
    requires
        0 < k <= n <= fs.len(),
        parse_fields(reg, fs, es, k, fuel) is Err,
    ensures
        parse_fields(reg, fs, es, n, fuel) == parse_fields(reg, fs, es, k, fuel),
    decreases n - k,
{
    if n > k {
        lemma_parse_fields_err(reg, fs, es, k, (n - 1) as nat, fuel);
    }
}

proof fn lemma_parse_items_err(reg: ETypesRegistry, elem: EDataType, items: Seq<JModel>, k: nat, n: nat, fuel: nat)
    requires
        0 < k <= n <= items.len(),
        parse_items(reg, elem, items, k, fuel) is Err,
    ensures
        parse_items(reg, elem, items, n, fuel) == parse_items(reg, elem, items, k, fuel),
    decreases n - k,
{
    if n > k {
        lemma_parse_items_err(reg, elem, items, k, (n - 1) as nat, fuel);
    }
}

proof fn lemma_parse_entries_err(
    reg: ETypesRegistry,
    kty: EDataType,
    vty: EDataType,
    es: Seq<(Seq<char>, JModel)>,
    k: nat,
    n: nat,
    fuel: nat,
)
    requires
        0 < k <= n <= es.len(),
        parse_entries(reg, kty, vty, es, k, fuel) is Err,
    ensures
        parse_entries(reg, kty, vty, es, n, fuel) == parse_entries(reg, kty, vty, es, k, fuel),
    decreases n - k,
{
    if n > k {
        lemma_parse_entries_err(reg, kty, vty, es, k, (n - 1) as nat, fuel);
    }
}

/// The entries without the one at position `k`.
fn without_entry(es: &Vec<(String, JsonValue)>, k: usize) -> (r: Vec<(String, JsonValue)>)
    requires
        k < es@.len(),
    ensures
        view_entries(r@, r@.len()) == view_entries(es@, es@.len()).remove(k as int),
{
    proof {
        lemma_view_entries_index(es@, es@.len());
    }
    let ghost m = view_entries(es@, es@.len());
    let mut out: Vec<(String, JsonValue)> = Vec::new();
    let mut i: usize = 0;
    while i < es.len()
        invariant
            i <= es@.len(),
            k < es@.len(),
            m == view_entries(es@, es@.len()),
            m.len() == es@.len(),
            forall|q: int| 0 <= q < es@.len() ==> #[trigger] m[q] == (es@[q].0@, es@[q].1@),
            out@.len() == if i <= k { i as int } else { i - 1 },
            forall|q: int| 0 <= q < out@.len() ==> (#[trigger] out@[q]).0@ == m.remove(k as int)[q].0
                && out@[q].1@ == m.remove(k as int)[q].1,
        decreases es.len() - i,
    {
        if i != k {
            let v = es[i].1.duplicate();
            out.push((es[i].0.clone(), v));
        }
        i = i + 1;
    }
    proof {
        lemma_view_entries_index(out@, out@.len());
        assert(view_entries(out@, out@.len()) =~= m.remove(k as int));
    }
    out
}

fn parse_inner(reg: &ETypesRegistry, ty: &EDataType, j: &JsonValue, inline: bool, fuel: usize) -> (r: Result<EValue, CodecError>)
    ensures
        parse_models(r, spec_parse(*reg, *ty, j@, inline, fuel as nat)),
        r matches Err(e) ==> error_position(*reg, *ty, j@, e.path@),
    decreases jsize(j@), fuel, 1nat, 0nat,
{
    match ty {
        EDataType::Boolean => match j {
            JsonValue::Bool(b) => Ok(EValue::Boolean { value: *b }),
            _ => Err(fail(DecodeError::WrongKind(json_kind(j)))),
        },
        EDataType::Number => match j {
            JsonValue::Number(n) => Ok(EValue::Number { value: *n }),
            _ => Err(fail(DecodeError::WrongKind(json_kind(j)))),
        },
        EDataType::String => match j {
            JsonValue::String(s) => Ok(EValue::String { value: s.clone() }),
            _ => Err(fail(DecodeError::WrongKind(json_kind(j)))),
        },
        EDataType::Const { value } => {
            if !json_fits_const_kind(j, value) {
                Err(fail(DecodeError::WrongKind(json_kind(j))))
            } else if !json_equals_const(j, value) {
                Err(fail(DecodeError::ConstMismatch))
            } else {
                Ok(value.default_value())
            }
        },
        EDataType::Object { ident } => {
            let obj = match reg.get_object(*ident) {
                Ok(o) => o,
                Err(_) => {
                    return Err(fail(DecodeError::UnknownType(*ident)));
                },
            };
            if fuel == 0 {
                return Err(fail(DecodeError::RecursiveType(*ident)));
            }
            match obj {
                EObject::Struct(s) => match j {
                    JsonValue::Object(es) => {
                        proof {
                            lemma_view_entries_index(es@, es@.len());
                        }
                        let ghost m = view_entries(es@, es@.len());
                        let mut out: Vec<(String, EValue)> = Vec::new();
                        let mut i: usize = 0;
                        while i < s.fields.len()
                            invariant
                                i <= s.fields@.len(),
                                out@.len() == i,
                                fuel > 0,
                                m == view_entries(es@, es@.len()),
                                m.len() == es@.len(),
                                forall|q: int| 0 <= q < es@.len() ==> #[trigger] m[q] == (es@[q].0@, es@[q].1@),
                                j@ == JModel::Object(m),
                                ident.0 < reg.objects().len(),
                                *ty == (EDataType::Object { ident: *ident }),
                                reg.objects()[ident.0 as int] == EObject::Struct(*s),
                                parse_fields(*reg, s.fields@, m, i as nat, (fuel - 1) as nat) == Ok::<
                                    Seq<(Seq<char>, VModel)>,
                                    DecodeError,
                                >(crate::types::view_fields(out@, i as nat)),
                            decreases s.fields.len() - i,
                        {
                            let k = match find_entry(es, &s.fields[i].name) {
                                Some(k) => k,
                                None => {
                                    proof {
                                        lemma_parse_fields_err(*reg, s.fields@, m, (i + 1) as nat, s.fields@.len(), (fuel - 1) as nat);
                                    }
                                    return Err(fail(DecodeError::MissingField(i)));
                                },
                            };
                            let fty = payload_type(&s.fields[i].ty);
                            proof {
                                crate::json::lemma_entry_smaller(m, k as int, m.len());
                            }
                            match parse_inner(reg, &fty, &es[k].1, false, reg.object_count()) {
                                Err(e) => {
                                    proof {
                                        lemma_parse_fields_err(*reg, s.fields@, m, (i + 1) as nat, s.fields@.len(), (fuel - 1) as nat);
                                    }
                                    return Err(within(e, PathSegment::Field(i)));
                                },
                                Ok(v) => {
                                    let ghost before = out@;
                                    out.push((s.fields[i].name.clone(), v));
                                    proof {
                                        assert(out@.subrange(0, i as int) =~= before.subrange(0, i as int));
                                        crate::types::lemma_view_fields_prefix(out@, before, i as nat);
                                    }
                                    i = i + 1;
                                },
                            }
                        }
                        Ok(EValue::Struct { ident: *ident, fields: out })
                    },
                    _ => Err(fail(DecodeError::WrongKind(json_kind(j)))),
                },
                EObject::Enum(e) => parse_enum_inner(reg, e, *ident, j, inline, fuel - 1),
            }
        },
        EDataType::List { id } => {
            let elem = match reg.get_list(*id) {
                Ok(t) => t,
                Err(_) => {
                    return Err(fail(DecodeError::UnknownList(*id)));
                },
            };
            match j {
                JsonValue::Array(items) => {
                    proof {
                        crate::json::lemma_view_items_index(items@, items@.len());
                    }
                    let ghost m = crate::json::view_items(items@, items@.len());
                    let mut out: Vec<EValue> = Vec::new();
                    let mut i: usize = 0;
                    while i < items.len()
                        invariant
                            i <= items@.len(),
                            out@.len() == i,
                            m == crate::json::view_items(items@, items@.len()),
                            m.len() == items@.len(),
                            forall|q: int| 0 <= q < items@.len() ==> #[trigger] m[q] == items@[q]@,
                            j@ == JModel::Array(m),
                            id.0 < reg.lists().len(),
                            *ty == (EDataType::List { id: *id }),
                            *elem == reg.lists()[id.0 as int],
                            parse_items(*reg, *elem, m, i as nat, fuel as nat) == Ok::<Seq<VModel>, DecodeError>(
                                crate::types::view_values(out@, i as nat),
                            ),
                        decreases items.len() - i,
                    {
                        proof {
                            crate::json::lemma_item_smaller(m, i as int, m.len());
                        }
                        match parse_inner(reg, elem, &items[i], false, reg.object_count()) {
                            Err(e) => {
                                proof {
                                    lemma_parse_items_err(*reg, *elem, m, (i + 1) as nat, m.len(), fuel as nat);
                                }
                                proof {
                                    lemma_parse_items_prefix(*reg, *elem, m, i as nat, fuel as nat);
                                    assert forall|i2: int| #[trigger] first_bad_item(*reg, *elem, m, i2) implies i2 == i by {
                                        if i2 < i {
                                            assert(spec_parse(*reg, *elem, m[i2], false, reg.objects().len()) is Ok);
                                        } else if i2 > i {
                                            assert(spec_parse(*reg, *elem, m[i as int], false, reg.objects().len()) is Ok);
                                        }
                                    }
                                }
                                return Err(within(e, PathSegment::Index(i)));
                            },
                            Ok(v) => {
                                let ghost before = out@;
                                out.push(v);
                                proof {
                                    assert(out@.subrange(0, i as int) =~= before.subrange(0, i as int));
                                    crate::types::lemma_view_values_prefix(out@, before, i as nat);
                                }
                                i = i + 1;
                            },
                        }
                    }
                    Ok(EValue::List { id: *id, values: out })
                },
                _ => Err(fail(DecodeError::WrongKind(json_kind(j)))),
            }
        },
        EDataType::Dict { id } => {
            let kv = match reg.get_map(*id) {
                Ok(t) => t,
                Err(_) => {
                    return Err(fail(DecodeError::UnknownMap(*id)));
                },
            };
            match j {
                JsonValue::Object(es) => {
                    proof {
                        lemma_view_entries_index(es@, es@.len());
                    }
                    let ghost m = view_entries(es@, es@.len());
                    let mut out: Vec<(EValue, EValue)> = Vec::new();
                    let mut i: usize = 0;
                    while i < es.len()
                        invariant
                            i <= es@.len(),
                            out@.len() == i,
                            m == view_entries(es@, es@.len()),
                            m.len() == es@.len(),
                            forall|q: int| 0 <= q < es@.len() ==> #[trigger] m[q] == (es@[q].0@, es@[q].1@),
                            j@ == JModel::Object(m),
                            id.0 < reg.maps().len(),
                            *ty == (EDataType::Dict { id: *id }),
                            *kv == reg.maps()[id.0 as int],
                            parse_entries(*reg, kv.0, kv.1, m, i as nat, fuel as nat) == Ok::<Seq<(VModel, VModel)>, DecodeError>(
                                crate::types::view_pairs(out@, i as nat),
                            ),
                        decreases es.len() - i,
                    {
                        proof {
                            crate::json::lemma_entry_smaller(m, i as int, m.len());
                        }
                        let key_json = JsonValue::String(es[i].0.clone());
                        assert(key_json@ == JModel::String(m[i as int].0));
                        let key = match parse_inner(reg, &kv.0, &key_json, false, reg.object_count()) {
                            Err(e) => {
                                proof {
                                    lemma_parse_entries_err(*reg, kv.0, kv.1, m, (i + 1) as nat, m.len(), fuel as nat);
                                }
                                proof {
                                    lemma_parse_entries_prefix(*reg, kv.0, kv.1, m, i as nat, fuel as nat);
                                    assert(!entry_decodes(*reg, kv.0, kv.1, m[i as int]));
                                    assert forall|i2: int| #[trigger] first_bad_entry(*reg, kv.0, kv.1, m, i2) implies i2 == i by {
                                        if i2 < i {
                                            assert(entry_decodes(*reg, kv.0, kv.1, m[i2]));
                                        } else if i2 > i {
                                            assert(entry_decodes(*reg, kv.0, kv.1, m[i as int]));
                                        }
                                    }
                                }
                                return Err(within(e, PathSegment::Entry(i)));
                            },
                            Ok(k) => k,
                        };
                        match parse_inner(reg, &kv.1, &es[i].1, false, reg.object_count()) {
                            Err(e) => {
                                proof {
                                    lemma_parse_entries_err(*reg, kv.0, kv.1, m, (i + 1) as nat, m.len(), fuel as nat);
                                }
                                proof {
                                    lemma_parse_entries_prefix(*reg, kv.0, kv.1, m, i as nat, fuel as nat);
                                    assert(!entry_decodes(*reg, kv.0, kv.1, m[i as int]));
                                    assert forall|i2: int| #[trigger] first_bad_entry(*reg, kv.0, kv.1, m, i2) implies i2 == i by {
                                        if i2 < i {
                                            assert(entry_decodes(*reg, kv.0, kv.1, m[i2]));
                                        } else if i2 > i {
                                            assert(entry_decodes(*reg, kv.0, kv.1, m[i as int]));
                                        }
                                    }
                                }
                                return Err(within(e, PathSegment::Entry(i)));
                            },
                            Ok(v) => {
                                let ghost before = out@;
                                out.push((key, v));
                                proof {
                                    assert(out@.subrange(0, i as int) =~= before.subrange(0, i as int));
                                    crate::types::lemma_view_pairs_prefix(out@, before, i as nat);
                                }
                                i = i + 1;
                            },
                        }
                    }
                    Ok(EValue::Dict { id: *id, values: out })
                },
                _ => Err(fail(DecodeError::WrongKind(json_kind(j)))),
            }
        },
    }
}

fn parse_enum_inner(reg: &ETypesRegistry, e: &EEnumData, ident: ETypeId, j: &JsonValue, inline: bool, fuel: usize) -> (r: Result<
    EValue,
    CodecError,
>)
    ensures
        parse_models(r, parse_enum(*reg, *e, ident, j@, inline, fuel as nat)),
    decreases jsize(j@), fuel, 2nat, 0nat,
{
    if let Some(err) = check_tag(&e.tagged_repr, j, inline) {
        return Err(fail(err));
    }
    let i = match first_matching_variant(&e.variants, j) {
        Some(i) => i,
        None => {
            return Err(fail(DecodeError::NoMatchingVariant));
        },
    };
    let v = &e.variants[i];
    let ty = payload_type(&v.data);
    let full = reg.object_count();
    let payload = match &v.pat {
        EnumPattern::Tagged { repr, tag } => match j {
            JsonValue::Object(es) => {
                proof {
                    lemma_view_entries_index(es@, es@.len());
                }
                let ghost m = view_entries(es@, es@.len());
                match repr {
                    Tagged::External => match find_entry(es, tag) {
                        Some(k) => {
                            proof {
                                crate::json::lemma_entry_smaller(m, k as int, m.len());
                            }
                            parse_inner(reg, &ty, &es[k].1, false, full)
                        },
                        None => Err(fail(DecodeError::MissingTag)),
                    },
                    Tagged::Internal { tag_field } => match find_entry(es, tag_field) {
                        Some(k) => {
                            let rest = without_entry(es, k);
                            let obj = JsonValue::Object(rest);
                            proof {
                                crate::json::lemma_entry_removed(m, k as int, m.len());
                            }
                            parse_inner(reg, &ty, &obj, false, full)
                        },
                        None => Err(fail(DecodeError::MissingTag)),
                    },
                    Tagged::Adjacent { content_field, .. } => match find_entry(es, content_field) {
                        Some(k) => {
                            proof {
                                crate::json::lemma_entry_smaller(m, k as int, m.len());
                            }
                            parse_inner(reg, &ty, &es[k].1, false, full)
                        },
                        None => Err(fail(DecodeError::MissingContent)),
                    },
                }
            },
            _ => Err(fail(DecodeError::NotAnObject)),
        },
        _ => parse_inner(reg, &ty, j, false, fuel),
    };
    match payload {
        Ok(d) => Ok(EValue::Enum { variant: EEnumVariantId { ident, variant: i }, data: Box::new(d) }),
        Err(x) => Err(within(x, PathSegment::Variant(i))),
    }
}

/// Decodes `j` as a value of type `ty`.
pub open spec fn parse_of(reg: ETypesRegistry, ty: EDataType, j: JModel, inline: bool) -> Result<VModel, DecodeError> {
    spec_parse(reg, ty, j, inline, reg.objects().len())
}

impl EDataType {
    /// Decodes a JSON tree as a value of this type. Primitive types want a
    /// node of their kind, a constant type the constant itself; structs
    /// take each declared field by name; enums go by their tagging mode,
    /// else by the first variant whose pattern accepts the node; lists and
    /// maps decode item by item. `inline` relaxes the checks on extra keys
    /// that tagged enums make.
    pub fn parse_json(&self, registry: &ETypesRegistry, data: &JsonValue, inline: bool) -> (r: Result<
        EValue,
        CodecError,
    >)
        ensures
            parse_models(r, parse_of(*registry, *self, data@, inline)),
            r matches Err(e) ==> error_position(*registry, *self, data@, e.path@),
    {
        parse_inner(registry, self, data, inline, registry.object_count())
    }
}

} // verus!

verus! {

/// The tag that names a variant in JSON: the tag of its pattern under a
/// tagging mode, else its name.
pub open spec fn tag_of(v: EEnumVariant) -> Seq<char> {
    match v.pat {
        EnumPattern::Tagged { tag, .. } => tag@,
        _ => v.name@,
    }
}

/// Encodes a value as JSON, the inverse of decoding.
pub open spec fn spec_write(reg: ETypesRegistry, v: VModel) -> Result<JModel, DecodeError>
    decreases v, 0nat,
{
    match v {
        VModel::Null => Ok(JModel::Null),
        VModel::Boolean(b) => Ok(JModel::Bool(b)),
        VModel::Number(n) => Ok(JModel::Number(n)),
        VModel::String(s) => Ok(JModel::String(s)),
        VModel::Struct(_, fs) => match write_fields(reg, fs, fs.len()) {
            Ok(es) => Ok(JModel::Object(es)),
            Err(e) => Err(e),
        },
        VModel::Enum(vid, d) => {
            if vid.ident.0 >= reg.objects().len() || !(reg.objects()[vid.ident.0 as int] is Enum)
                || vid.variant >= reg.objects()[vid.ident.0 as int]->Enum_0.variants@.len() {
                Err(DecodeError::UnknownVariant(vid))
            } else {
                let e = reg.objects()[vid.ident.0 as int]->Enum_0;
                let tag = tag_of(e.variants@[vid.variant as int]);
                match spec_write(reg, *d) {
                    Err(x) => Err(x),
                    Ok(c) => match e.tagged_repr {
                        None => Ok(c),
                        Some(Tagged::External) => Ok(JModel::Object(seq![(tag, c)])),
                        Some(Tagged::Internal { tag_field }) => match c {
                            JModel::Object(es) => Ok(JModel::Object(seq![(tag_field@, JModel::String(tag))] + es)),
                            _ => Err(DecodeError::NotAnObject),
                        },
                        Some(Tagged::Adjacent { tag_field, content_field }) => Ok(
                            JModel::Object(seq![(tag_field@, JModel::String(tag)), (content_field@, c)]),
                        ),
                    },
                }
            }
        },
        VModel::List(_, items) => match write_items(reg, items, items.len()) {
            Ok(js) => Ok(JModel::Array(js)),
            Err(e) => Err(e),
        },
        VModel::Dict(_, ps) => match write_pairs(reg, ps, ps.len()) {
            Ok(es) => Ok(JModel::Object(es)),
            Err(e) => Err(e),
        },
    }
}

pub open spec fn write_fields(reg: ETypesRegistry, fs: Seq<(Seq<char>, VModel)>, n: nat) -> Result<Seq<(Seq<char>, JModel)>, DecodeError>
    decreases fs, n,
{
    if n == 0 || n > fs.len() {
        Ok(Seq::empty())
    } else {
        match write_fields(reg, fs, (n - 1) as nat) {
            Err(e) => Err(e),
            Ok(prefix) => match spec_write(reg, fs[n - 1].1) {
                Err(e) => Err(e),
                Ok(j) => Ok(prefix.push((fs[n - 1].0, j))),
            },
        }
    }
}

pub open spec fn write_items(reg: ETypesRegistry, items: Seq<VModel>, n: nat) -> Result<Seq<JModel>, DecodeError>
    decreases items, n,
{
    if n == 0 || n > items.len() {
        Ok(Seq::empty())
    } else {
        match write_items(reg, items, (n - 1) as nat) {
            Err(e) => Err(e),
            Ok(prefix) => match spec_write(reg, items[n - 1]) {
                Err(e) => Err(e),
                Ok(j) => Ok(prefix.push(j)),
            },
        }
    }
}

/// Map entries: each key must encode to a JSON string, which becomes the
/// object key.
pub open spec fn write_pairs(reg: ETypesRegistry, ps: Seq<(VModel, VModel)>, n: nat) -> Result<Seq<(Seq<char>, JModel)>, DecodeError>
    decreases ps, n,
{
    if n == 0 || n > ps.len() {
        Ok(Seq::empty())
    } else {
        match write_pairs(reg, ps, (n - 1) as nat) {
            Err(e) => Err(e),
            Ok(prefix) => match spec_write(reg, ps[n - 1].0) {
                Err(e) => Err(e),
                Ok(JModel::String(k)) => match spec_write(reg, ps[n - 1].1) {
                    Err(e) => Err(e),
                    Ok(j) => Ok(prefix.push((k, j))),
                },
                Ok(_) => Err(DecodeError::KeyNotString),
            },
        }
    }
}

/// Relates an executable encoding result to the model's.
pub open spec fn write_models(r: Result<JsonValue, CodecError>, m: Result<JModel, DecodeError>) -> bool {
    match r {
        Ok(j) => m == Ok::<JModel, DecodeError>(j@),
        Err(e) => m == Err::<JModel, DecodeError>(e.kind),
    }
}

proof fn lemma_write_fields_err(reg: ETypesRegistry, fs: Seq<(Seq<char>, VModel)>, k: nat, n: nat)
    requires
        0 < k <= n <= fs.len(),
        write_fields(reg, fs, k) is Err,
    ensures
        write_fields(reg, fs, n) == write_fields(reg, fs, k),
    decreases n - k,
{
    if n > k {
        lemma_write_fields_err(reg, fs, k, (n - 1) as nat);
    }
}

proof fn lemma_write_items_err(reg: ETypesRegistry, items: Seq<VModel>, k: nat, n: nat)
    requires
        0 < k <= n <= items.len(),
        write_items(reg, items, k) is Err,
    ensures
        write_items(reg, items, n) == write_items(reg, items, k),
    decreases n - k,
{
    if n > k {
        lemma_write_items_err(reg, items, k, (n - 1) as nat);
    }
}

proof fn lemma_write_pairs_err(reg: ETypesRegistry, ps: Seq<(VModel, VModel)>, k: nat, n: nat)
    requires
        0 < k <= n <= ps.len(),
        write_pairs(reg, ps, k) is Err,
    ensures
        write_pairs(reg, ps, n) == write_pairs(reg, ps, k),
    decreases n - k,
{
    if n > k {
        lemma_write_pairs_err(reg, ps, k, (n - 1) as nat);
    }
}

/// The JSON tag of a variant.
fn variant_tag(v: &EEnumVariant) -> (r: String)
    ensures
        r@ == tag_of(*v),
{
    match &v.pat {
        EnumPattern::Tagged { tag, .. } => tag.clone(),
        _ => v.name.clone(),
    }
}

fn write_inner(reg: &ETypesRegistry, v: &EValue) -> (r: Result<JsonValue, CodecError>)
    ensures
        write_models(r, spec_write(*reg, v@)),
    decreases v,
{
    match v {
        EValue::Null => Ok(JsonValue::Null),
        EValue::Boolean { value } => Ok(JsonValue::Bool(*value)),
        EValue::Number { value } => Ok(JsonValue::Number(*value)),
        EValue::String { value } => Ok(JsonValue::String(value.clone())),
        EValue::Struct { ident, fields } => {
            proof {
                crate::types::lemma_view_fields_index(fields@, fields@.len());
            }
            let ghost vf = crate::types::view_fields(fields@, fields@.len());
            let mut out: Vec<(String, JsonValue)> = Vec::new();
            let mut i: usize = 0;
            while i < fields.len()
                invariant
                    i <= fields@.len(),
                    out@.len() == i,
                    vf == crate::types::view_fields(fields@, fields@.len()),
                    vf.len() == fields@.len(),
                    forall|q: int| 0 <= q < fields@.len() ==> #[trigger] vf[q] == (fields@[q].0@, fields@[q].1@),
                    v@ == VModel::Struct(ident.0, vf),
                    *v is Struct,
                    *fields == v->fields,
                    write_fields(*reg, vf, i as nat) == Ok::<Seq<(Seq<char>, JModel)>, DecodeError>(
                        view_entries(out@, i as nat),
                    ),
                decreases fields.len() - i,
            {
                proof {
                    assert(decreases_to!(*v => v->fields));
                    assert(decreases_to!(*fields => fields[i as int]));
                }
                match write_inner(reg, &fields[i].1) {
                    Err(e) => {
                        proof {
                            lemma_write_fields_err(*reg, vf, (i + 1) as nat, vf.len());
                        }
                        return Err(within(e, PathSegment::Field(i)));
                    },
                    Ok(j) => {
                        let ghost before = out@;
                        out.push((fields[i].0.clone(), j));
                        proof {
                            assert(out@.subrange(0, i as int) =~= before.subrange(0, i as int));
                            crate::json::lemma_view_entries_prefix(out@, before, i as nat);
                        }
                        i = i + 1;
                    },
                }
            }
            Ok(JsonValue::Object(out))
        },
        EValue::Enum { variant, data } => {
            let ident = variant.ident;
            let obj = match reg.get_object(ident) {
                Ok(o) => o,
                Err(_) => {
                    return Err(fail(DecodeError::UnknownVariant(*variant)));
                },
            };
            let e = match obj {
                EObject::Enum(e) => e,
                EObject::Struct(_) => {
                    return Err(fail(DecodeError::UnknownVariant(*variant)));
                },
            };
            if variant.variant >= e.variants.len() {
                return Err(fail(DecodeError::UnknownVariant(*variant)));
            }
            let tag = variant_tag(&e.variants[variant.variant]);
            let c = match write_inner(reg, data) {
                Ok(c) => c,
                Err(x) => {
                    return Err(within(x, PathSegment::Variant(variant.variant)));
                },
            };
            match &e.tagged_repr {
                None => Ok(c),
                Some(Tagged::External) => {
                    let mut out: Vec<(String, JsonValue)> = Vec::new();
                    out.push((tag, c));
                    proof {
                        lemma_view_entries_index(out@, 1);
                    }
                    assert(view_entries(out@, 1) =~= seq![(tag_of(e.variants@[variant.variant as int]), c@)]);
                    Ok(JsonValue::Object(out))
                },
                Some(Tagged::Internal { tag_field }) => match c {
                    JsonValue::Object(es) => {
                        proof {
                            lemma_view_entries_index(es@, es@.len());
                        }
                        let ghost m = view_entries(es@, es@.len());
                        let mut out: Vec<(String, JsonValue)> = Vec::new();
                        out.push((tag_field.clone(), JsonValue::String(tag)));
                        let mut i: usize = 0;
                        while i < es.len()
                            invariant
                                i <= es@.len(),
                                out@.len() == i + 1,
                                m == view_entries(es@, es@.len()),
                                m.len() == es@.len(),
                                forall|q: int| 0 <= q < es@.len() ==> #[trigger] m[q] == (es@[q].0@, es@[q].1@),
                                out@[0].0@ == tag_field@,
                                out@[0].1@ == JModel::String(tag_of(e.variants@[variant.variant as int])),
                                forall|q: int| 1 <= q < out@.len() ==> (#[trigger] out@[q]).0@ == m[q - 1].0
                                    && out@[q].1@ == m[q - 1].1,
                            decreases es.len() - i,
                        {
                            let d = es[i].1.duplicate();
                            out.push((es[i].0.clone(), d));
                            i = i + 1;
                        }
                        proof {
                            lemma_view_entries_index(out@, out@.len());
                            assert(view_entries(out@, out@.len()) =~= seq![
                                (tag_field@, JModel::String(tag_of(e.variants@[variant.variant as int]))),
                            ] + m);
                        }
                        Ok(JsonValue::Object(out))
                    },
                    _ => Err(fail(DecodeError::NotAnObject)),
                },
                Some(Tagged::Adjacent { tag_field, content_field }) => {
                    let mut out: Vec<(String, JsonValue)> = Vec::new();
                    out.push((tag_field.clone(), JsonValue::String(tag)));
                    out.push((content_field.clone(), c));
                    proof {
                        lemma_view_entries_index(out@, 2);
                    }
                    assert(view_entries(out@, 2) =~= seq![
                        (tag_field@, JModel::String(tag_of(e.variants@[variant.variant as int]))),
                        (content_field@, c@),
                    ]);
                    Ok(JsonValue::Object(out))
                },
            }
        },
        EValue::List { id, values } => {
            proof {
                crate::types::lemma_view_values_index(values@, values@.len());
            }
            let ghost vs = crate::types::view_values(values@, values@.len());
            let mut out: Vec<JsonValue> = Vec::new();
            let mut i: usize = 0;
            while i < values.len()
                invariant
                    i <= values@.len(),
                    out@.len() == i,
                    vs == crate::types::view_values(values@, values@.len()),
                    vs.len() == values@.len(),
                    forall|q: int| 0 <= q < values@.len() ==> #[trigger] vs[q] == values@[q]@,
                    v@ == VModel::List(id.0, vs),
                    *v is List,
                    *values == v->List_values,
                    write_items(*reg, vs, i as nat) == Ok::<Seq<JModel>, DecodeError>(crate::json::view_items(out@, i as nat)),
                decreases values.len() - i,
            {
                proof {
                    assert(decreases_to!(*v => v->List_values));
                    assert(decreases_to!(*values => values[i as int]));
                }
                match write_inner(reg, &values[i]) {
                    Err(e) => {
                        proof {
                            lemma_write_items_err(*reg, vs, (i + 1) as nat, vs.len());
                        }
                        return Err(within(e, PathSegment::Index(i)));
                    },
                    Ok(j) => {
                        let ghost before = out@;
                        out.push(j);
                        proof {
                            assert(out@.subrange(0, i as int) =~= before.subrange(0, i as int));
                            crate::json::lemma_view_items_prefix(out@, before, i as nat);
                        }
                        i = i + 1;
                    },
                }
            }
            Ok(JsonValue::Array(out))
        },
        EValue::Dict { id, values } => {
            proof {
                crate::types::lemma_view_pairs_index(values@, values@.len());
            }
            let ghost ps = crate::types::view_pairs(values@, values@.len());
            let mut out: Vec<(String, JsonValue)> = Vec::new();
            let mut i: usize = 0;
            while i < values.len()
                invariant
                    i <= values@.len(),
                    out@.len() == i,
                    ps == crate::types::view_pairs(values@, values@.len()),
                    ps.len() == values@.len(),
                    forall|q: int| 0 <= q < values@.len() ==> #[trigger] ps[q] == (values@[q].0@, values@[q].1@),
                    v@ == VModel::Dict(id.0, ps),
                    *v is Dict,
                    *values == v->Dict_values,
                    write_pairs(*reg, ps, i as nat) == Ok::<Seq<(Seq<char>, JModel)>, DecodeError>(
                        view_entries(out@, i as nat),
                    ),
                decreases values.len() - i,
            {
                proof {
                    assert(decreases_to!(*v => v->Dict_values));
                    assert(decreases_to!(*values => values[i as int]));
                }
                let key = match write_inner(reg, &values[i].0) {
                    Err(e) => {
                        proof {
                            lemma_write_pairs_err(*reg, ps, (i + 1) as nat, ps.len());
                        }
                        return Err(within(e, PathSegment::Entry(i)));
                    },
                    Ok(JsonValue::String(k)) => k,
                    Ok(_) => {
                        proof {
                            lemma_write_pairs_err(*reg, ps, (i + 1) as nat, ps.len());
                        }
                        return Err(fail(DecodeError::KeyNotString));
                    },
                };
                match write_inner(reg, &values[i].1) {
                    Err(e) => {
                        proof {
                            lemma_write_pairs_err(*reg, ps, (i + 1) as nat, ps.len());
                        }
                        return Err(within(e, PathSegment::Entry(i)));
                    },
                    Ok(j) => {
                        let ghost before = out@;
                        out.push((key, j));
                        proof {
                            assert(out@.subrange(0, i as int) =~= before.subrange(0, i as int));
                            crate::json::lemma_view_entries_prefix(out@, before, i as nat);
                        }
                        i = i + 1;
                    },
                }
            }
            Ok(JsonValue::Object(out))
        },
    }
}

impl EValue {
    /// Encodes the value as JSON: the structural inverse of
    /// [EDataType::parse_json]. Struct fields become object entries, lists
    /// arrays, map entries object entries keyed by the key's string; an
    /// enum payload is wrapped as its type's tagging mode says.
    pub fn write_json(&self, registry: &ETypesRegistry) -> (r: Result<JsonValue, CodecError>)
        ensures
            write_models(r, spec_write(*registry, self@)),
    {
        write_inner(registry, self)
    }
}

} // verus!
