use crate::registry::{EEnumData, EItemInfo, EObject, EStructData, EStructField, ETypesRegistry, RegistryError};
use crate::codec::parse_of;
use crate::json::{JModel, JsonValue};
use crate::types::{const_value, view_value, EDataType, EEnumVariantId, ETypeConst, ETypeId, EValue, VModel};
use vstd::prelude::*;

verus! {

/// The canonical value of a type. `fuel` bounds how many named types the
/// construction may pass through on one path; a registry of `n` types
/// never needs more than `n`, so running out means that the type's
/// default would contain itself.
pub open spec fn spec_default(reg: ETypesRegistry, ty: EDataType, fuel: nat) -> Result<VModel, RegistryError>
    decreases fuel, 0nat,
{
    match ty {
        EDataType::Boolean => Ok(VModel::Boolean(false)),
        EDataType::Number => Ok(VModel::Number(0)),
        EDataType::String => Ok(VModel::String(Seq::empty())),
        EDataType::Const { value } => Ok(view_value(const_value(value))),
        EDataType::List { id } => Ok(VModel::List(id.0, Seq::empty())),
        EDataType::Dict { id } => Ok(VModel::Dict(id.0, Seq::empty())),
        EDataType::Object { ident } => {
            if ident.0 >= reg.objects().len() {
                Err(RegistryError::UnknownType(ident))
            } else if fuel == 0 {
                Err(RegistryError::RecursiveType(ident))
            } else {
                match reg.objects()[ident.0 as int] {
                    EObject::Struct(s) => match default_fields(reg, s.fields@, s.fields@.len(), (fuel - 1) as nat) {
                        Ok(fs) => Ok(VModel::Struct(ident.0, fs)),
                        Err(e) => Err(e),
                    },
                    EObject::Enum(e) => {
                        if e.variants@.len() == 0 {
                            Err(RegistryError::EmptyEnum)
                        } else {
                            match item_default(reg, e.variants@[0].data, (fuel - 1) as nat) {
                                Ok(d) => Ok(VModel::Enum(EEnumVariantId { ident, variant: 0 }, Box::new(d))),
                                Err(x) => Err(x),
                            }
                        }
                    },
                }
            }
        },
    }
}

/// Position of the first of the first `n` extra properties named `default`.
pub open spec fn default_prop(props: Seq<(String, ETypeConst)>, n: nat) -> Option<int>
    decreases n,
{
    if n == 0 || n > props.len() {
        None
    } else {
        match default_prop(props, (n - 1) as nat) {
            Some(k) => Some(k),
            None => if props[n - 1].0@ == "default"@ { Some(n - 1) } else { None },
        }
    }
}

/// A constant as a JSON node.
pub open spec fn const_json(c: ETypeConst) -> JModel {
    match c {
        ETypeConst::Null => JModel::Null,
        ETypeConst::Boolean(b) => JModel::Bool(b),
        ETypeConst::Number(n) => JModel::Number(n.bits),
        ETypeConst::String(t) => JModel::String(t@),
    }
}

/// The default of a field or variant payload: its `default` extra property
/// decoded as its type when that succeeds, else the type's default; a
/// generic parameter that was never instantiated defaults to null.
pub open spec fn item_default(reg: ETypesRegistry, item: EItemInfo, fuel: nat) -> Result<VModel, RegistryError>
    decreases fuel, 1nat,
{
    match item {
        EItemInfo::Specific { ty, extra_properties } => match default_prop(extra_properties@, extra_properties@.len()) {
            Some(k) => if 0 <= k < extra_properties@.len() {
                match parse_of(reg, ty, const_json(extra_properties@[k].1), false) {
                    Ok(v) => Ok(v),
                    Err(_) => spec_default(reg, ty, fuel),
                }
            } else {
                spec_default(reg, ty, fuel)
            },
            None => spec_default(reg, ty, fuel),
        },
        EItemInfo::Generic { .. } => Ok(VModel::Null),
    }
}

/// The defaults of the first `n` fields, in order; the first failure wins.
pub open spec fn default_fields(reg: ETypesRegistry, fs: Seq<EStructField>, n: nat, fuel: nat) -> Result<
    Seq<(Seq<char>, VModel)>,
    RegistryError,
>
    decreases fuel, n + 2,
{
    if n == 0 || n > fs.len() {
        Ok(Seq::empty())
    } else {
        match default_fields(reg, fs, (n - 1) as nat, fuel) {
            Err(e) => Err(e),
            Ok(prefix) => match item_default(reg, fs[n - 1].ty, fuel) {
                Err(e) => Err(e),
                Ok(v) => Ok(prefix.push((fs[n - 1].name@, v))),
            },
        }
    }
}

/// Once a prefix of the fields fails, every longer prefix fails the same way.
proof fn lemma_default_fields_err(reg: ETypesRegistry, fs: Seq<EStructField>, k: nat, n: nat, fuel: nat)
    requires
        0 < k <= n <= fs.len(),
        default_fields(reg, fs, k, fuel) is Err,
    ensures
        default_fields(reg, fs, n, fuel) == default_fields(reg, fs, k, fuel),
    decreases n - k,
{
    if n > k {
        lemma_default_fields_err(reg, fs, k, (n - 1) as nat, fuel);
    }
}

/// The canonical value of a type in a registry.
pub open spec fn default_of(reg: ETypesRegistry, ty: EDataType) -> Result<VModel, RegistryError> {
    spec_default(reg, ty, reg.objects().len())
}

/// Relates an executable result to a result of the model.
pub open spec fn result_models(r: Result<EValue, RegistryError>, m: Result<VModel, RegistryError>) -> bool {
    match r {
        Ok(v) => m == Ok::<VModel, RegistryError>(v@),
        Err(e) => m == Err::<VModel, RegistryError>(e),
    }
}

fn default_inner(ty: &EDataType, reg: &ETypesRegistry, fuel: usize) -> (r: Result<EValue, RegistryError>)
    ensures
        result_models(r, spec_default(*reg, *ty, fuel as nat)),
    decreases fuel, 0nat,
{
    match ty {
        EDataType::Boolean => Ok(EValue::Boolean { value: false }),
        EDataType::Number => Ok(EValue::Number { value: crate::types::ENumber { bits: 0 } }),
        EDataType::String => Ok(EValue::String { value: String::new() }),
        EDataType::Const { value } => Ok(value.default_value()),
        EDataType::List { id } => {
            let values: Vec<EValue> = Vec::new();
            assert(crate::types::view_values(values@, 0) =~= Seq::<VModel>::empty());
            Ok(EValue::List { id: *id, values })
        },
        EDataType::Dict { id } => {
            let values: Vec<(EValue, EValue)> = Vec::new();
            assert(crate::types::view_pairs(values@, 0) =~= Seq::<(VModel, VModel)>::empty());
            Ok(EValue::Dict { id: *id, values })
        },
        EDataType::Object { ident } => {
            let obj = reg.get_object(*ident)?;
            if fuel == 0 {
                return Err(RegistryError::RecursiveType(*ident));
            }
            match obj {
                EObject::Struct(s) => {
                    let mut out: Vec<(String, EValue)> = Vec::new();
                    let mut i: usize = 0;
                    while i < s.fields.len()
                        invariant
                            i <= s.fields@.len(),
                            out@.len() == i,
                            fuel > 0,
                            ident.0 < reg.objects().len(),
                            *ty == (EDataType::Object { ident: *ident }),
                            reg.objects()[ident.0 as int] == EObject::Struct(*s),
                            default_fields(*reg, s.fields@, i as nat, (fuel - 1) as nat) == Ok::<
                                Seq<(Seq<char>, VModel)>,
                                RegistryError,
                            >(crate::types::view_fields(out@, i as nat)),
                        decreases s.fields.len() - i,
                    {
                        let v = item_default_inner(&s.fields[i].ty, reg, fuel - 1);
                        match v {
                            Err(e) => {
                                proof {
                                    lemma_default_fields_err(*reg, s.fields@, (i + 1) as nat, s.fields@.len(), (fuel - 1) as nat);
                                }
                                return Err(e);
                            },
                            Ok(v) => {
                                let ghost before = out@;
                                out.push((s.fields[i].name.clone(), v));
                                proof {
                                    assert(out@.subrange(0, i as int) =~= before.subrange(0, i as int));
                                    crate::types::lemma_view_fields_prefix(out@, before, i as nat);
                                }
                                i = i + 1;
                            },
                        }
                    }
                    Ok(EValue::Struct { ident: *ident, fields: out })
                },
                EObject::Enum(e) => {
                    if e.variants.len() == 0 {
                        return Err(RegistryError::EmptyEnum);
                    }
                    let d = item_default_inner(&e.variants[0].data, reg, fuel - 1)?;
                    Ok(EValue::Enum { variant: EEnumVariantId { ident: *ident, variant: 0 }, data: Box::new(d) })
                },
            }
        },
    }
}

/// Position of the `default` extra property.
fn find_default_prop(props: &Vec<(String, ETypeConst)>) -> (r: Option<usize>)
    ensures
        r matches Some(k) ==> default_prop(props@, props@.len()) == Some(k as int) && k < props@.len(),
        r is None ==> default_prop(props@, props@.len()) is None,
{
    let key = String::from_str("default");
    let mut i: usize = 0;
    while i < props.len()
        invariant
            i <= props@.len(),
            key@ == "default"@,
            default_prop(props@, i as nat) is None,
        decreases props.len() - i,
    {
        if props[i].0 == key {
            proof {
                lemma_default_prop_stable(props@, (i + 1) as nat, props@.len());
            }
            return Some(i);
        }
        i = i + 1;
    }
    None
}

proof fn lemma_default_prop_stable(props: Seq<(String, ETypeConst)>, k: nat, n: nat)
    requires
        k <= n <= props.len(),
        default_prop(props, k) is Some,
    ensures
        default_prop(props, n) == default_prop(props, k),
    decreases n - k,
{
    if n > k {
        lemma_default_prop_stable(props, k, (n - 1) as nat);
    }
}

/// A constant as a JSON node.
pub fn const_to_json(c: &ETypeConst) -> (r: JsonValue)
    ensures
        r@ == const_json(*c),
{
    match c {
        ETypeConst::Null => JsonValue::Null,
        ETypeConst::Boolean(b) => JsonValue::Bool(*b),
        ETypeConst::Number(n) => JsonValue::Number(*n),
        ETypeConst::String(t) => JsonValue::String(t.clone()),
    }
}

fn item_default_inner(item: &EItemInfo, reg: &ETypesRegistry, fuel: usize) -> (r: Result<EValue, RegistryError>)
    ensures
        result_models(r, item_default(*reg, *item, fuel as nat)),
    decreases fuel, 1nat,
{
    match item {
        EItemInfo::Specific { ty, extra_properties } => {
            if let Some(k) = find_default_prop(extra_properties) {
                let j = const_to_json(&extra_properties[k].1);
                if let Ok(v) = ty.parse_json(reg, &j, false) {
                    return Ok(v);
                }
            }
            default_inner(ty, reg, fuel)
        },
        EItemInfo::Generic { .. } => Ok(EValue::Null),
    }
}

impl EDataType {
    /// The canonical value of the type: `false`, `0`, the empty string, the
    /// constant itself, an empty list or map; for a struct the defaults of
    /// its fields, for an enum its first variant with a default payload.
    pub fn default_value(&self, reg: &ETypesRegistry) -> (r: Result<EValue, RegistryError>)
        ensures
            result_models(r, default_of(*reg, *self)),
    {
        default_inner(self, reg, reg.object_count())
    }
}

impl EItemInfo {
    /// The default of a field or variant payload.
    pub fn default_value(&self, reg: &ETypesRegistry) -> (r: Result<EValue, RegistryError>)
        ensures
            result_models(r, item_default(*reg, *self, reg.objects().len())),
    {
        item_default_inner(self, reg, reg.object_count())
    }
}

} // verus!
