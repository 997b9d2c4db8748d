use dbe_core::{
    CodecError, DecodeError, EDataType, EEnumData, EEnumVariant, EEnumVariantId, EItemInfo, ENumber, EStructData,
    EStructField, ETypeConst, ETypeId, ETypesRegistry, EValue, EnumPattern, JsonKind, JsonValue, RegistryError, Tagged,
};

fn s(x: &str) -> String {
    x.to_string()
}

fn num(x: f64) -> ENumber {
    ENumber { bits: x.to_bits() }
}

fn jnum(x: f64) -> JsonValue {
    JsonValue::Number(num(x))
}

fn obj(entries: Vec<(&str, JsonValue)>) -> JsonValue {
    JsonValue::Object(entries.into_iter().map(|(k, v)| (k.to_string(), v)).collect())
}

fn specific(ty: EDataType) -> EItemInfo {
    EItemInfo::Specific { ty, extra_properties: vec![] }
}

fn field(name: &str, ty: EDataType) -> EStructField {
    EStructField { name: s(name), ty: specific(ty), is_id: false }
}

fn register_struct(reg: &mut ETypesRegistry, fields: Vec<EStructField>) -> ETypeId {
    let ident = reg.next_id();
    reg.register_struct(EStructData { generic_arguments: vec![], ident, fields }).unwrap()
}

fn variant(name: &str, pat: EnumPattern, ty: EDataType) -> EEnumVariant {
    EEnumVariant { name: s(name), pat, data: specific(ty) }
}

fn register_enum(reg: &mut ETypesRegistry, tagged: Option<Tagged>, variants: Vec<EEnumVariant>) -> Result<ETypeId, RegistryError> {
    let ident = reg.next_id();
    reg.register_enum(EEnumData { generic_arguments: vec![], ident, tagged_repr: tagged, variants })
}

/// Circle{radius: number}, Square{side: number} and the untagged enum Shape of both.
fn shapes(reg: &mut ETypesRegistry) -> (ETypeId, ETypeId, ETypeId) {
    let circle = register_struct(reg, vec![field("radius", EDataType::Number)]);
    let square = register_struct(reg, vec![field("side", EDataType::Number)]);
    let shape = register_enum(
        reg,
        None,
        vec![
            variant("Circle", EnumPattern::Fields(vec![s("radius")]), EDataType::Object { ident: circle }),
            variant("Square", EnumPattern::Fields(vec![s("side")]), EDataType::Object { ident: square }),
        ],
    )
    .unwrap();
    (circle, square, shape)
}

fn kind(r: Result<EValue, CodecError>) -> DecodeError {
    match r {
        Err(e) => e.kind,
        Ok(v) => panic!("expected an error, got {:?}", v),
    }
}

fn round_trip(reg: &ETypesRegistry, ty: &EDataType, v: &EValue) {
    let json = v.write_json(reg).unwrap();
    let back = ty.parse_json(reg, &json, false).unwrap();
    assert_eq!(&back, v);
}

#[test]
fn untagged_shape_selects_circle() {
    let mut reg = ETypesRegistry::new();
    let (circle, _, shape) = shapes(&mut reg);
    let ty = EDataType::Object { ident: shape };
    let v = ty.parse_json(&reg, &obj(vec![("radius", jnum(2.0))]), false).unwrap();
    assert_eq!(
        v,
        EValue::Enum {
            variant: EEnumVariantId { ident: shape, variant: 0 },
            data: Box::new(EValue::Struct {
                ident: circle,
                fields: vec![(s("radius"), EValue::Number { value: num(2.0) })],
            }),
        }
    );
}

#[test]
fn untagged_shape_with_both_fields_matches_no_variant() {
    let mut reg = ETypesRegistry::new();
    let (_, _, shape) = shapes(&mut reg);
    let ty = EDataType::Object { ident: shape };
    let r = ty.parse_json(&reg, &obj(vec![("side", jnum(1.0)), ("radius", jnum(2.0))]), false);
    assert_eq!(kind(r), DecodeError::NoMatchingVariant);
}

#[test]
fn untagged_shape_selects_square() {
    let mut reg = ETypesRegistry::new();
    let (_, square, shape) = shapes(&mut reg);
    let ty = EDataType::Object { ident: shape };
    let v = ty.parse_json(&reg, &obj(vec![("side", jnum(1.5))]), false).unwrap();
    match v {
        EValue::Enum { variant, data } => {
            assert_eq!(variant, EEnumVariantId { ident: shape, variant: 1 });
            assert_eq!(*data, EValue::Struct { ident: square, fields: vec![(s("side"), EValue::Number { value: num(1.5) })] });
        },
        other => panic!("unexpected {:?}", other),
    }
}

#[test]
fn primitives_decode_by_kind() {
    let reg = ETypesRegistry::new();
    assert_eq!(EDataType::Boolean.parse_json(&reg, &JsonValue::Bool(true), false).unwrap(), EValue::Boolean { value: true });
    assert_eq!(EDataType::Number.parse_json(&reg, &jnum(4.25), false).unwrap(), EValue::Number { value: num(4.25) });
    assert_eq!(
        EDataType::String.parse_json(&reg, &JsonValue::String(s("hi")), false).unwrap(),
        EValue::String { value: s("hi") }
    );
    assert_eq!(kind(EDataType::Boolean.parse_json(&reg, &jnum(1.0), false)), DecodeError::WrongKind(JsonKind::Number));
    assert_eq!(kind(EDataType::Number.parse_json(&reg, &JsonValue::Null, false)), DecodeError::WrongKind(JsonKind::Null));
    assert_eq!(
        kind(EDataType::String.parse_json(&reg, &JsonValue::Array(vec![]), false)),
        DecodeError::WrongKind(JsonKind::Array)
    );
}

#[test]
fn constants_need_kind_and_value() {
    let reg = ETypesRegistry::new();
    let ty = EDataType::Const { value: ETypeConst::String(s("circle")) };
    assert_eq!(ty.parse_json(&reg, &JsonValue::String(s("circle")), false).unwrap(), EValue::String { value: s("circle") });
    assert_eq!(kind(ty.parse_json(&reg, &JsonValue::String(s("square")), false)), DecodeError::ConstMismatch);
    assert_eq!(kind(ty.parse_json(&reg, &JsonValue::Bool(true), false)), DecodeError::WrongKind(JsonKind::Boolean));
    let null = EDataType::null();
    assert_eq!(null.parse_json(&reg, &JsonValue::Null, false).unwrap(), EValue::Null);
}

#[test]
fn struct_missing_field_is_reported_with_its_position() {
    let mut reg = ETypesRegistry::new();
    let point = register_struct(&mut reg, vec![field("x", EDataType::Number), field("y", EDataType::Number)]);
    let ty = EDataType::Object { ident: point };
    assert_eq!(kind(ty.parse_json(&reg, &obj(vec![("x", jnum(1.0))]), false)), DecodeError::MissingField(1));
    assert_eq!(kind(ty.parse_json(&reg, &jnum(1.0), false)), DecodeError::WrongKind(JsonKind::Number));
    let err = ty.parse_json(&reg, &obj(vec![("x", jnum(1.0)), ("y", JsonValue::Bool(false))]), false).unwrap_err();
    assert_eq!(err.kind, DecodeError::WrongKind(JsonKind::Boolean));
    assert_eq!(err.path, vec![dbe_core::PathSegment::Field(1)]);
}

#[test]
fn unknown_identifiers_are_errors() {
    let reg = ETypesRegistry::new();
    assert_eq!(
        kind(EDataType::Object { ident: ETypeId(7) }.parse_json(&reg, &JsonValue::Null, false)),
        DecodeError::UnknownType(ETypeId(7))
    );
    assert_eq!(
        kind(EDataType::List { id: dbe_core::EListId(3) }.parse_json(&reg, &JsonValue::Array(vec![]), false)),
        DecodeError::UnknownList(dbe_core::EListId(3))
    );
    assert_eq!(
        kind(EDataType::Dict { id: dbe_core::EMapId(2) }.parse_json(&reg, &obj(vec![]), false)),
        DecodeError::UnknownMap(dbe_core::EMapId(2))
    );
}

#[test]
fn lists_and_maps_decode_item_by_item() {
    let mut reg = ETypesRegistry::new();
    let list = reg.list_of(&EDataType::Number);
    let map = reg.map_of(&EDataType::String, &EDataType::Boolean);
    let lty = EDataType::List { id: list };
    let v = lty.parse_json(&reg, &JsonValue::Array(vec![jnum(1.0), jnum(2.0)]), false).unwrap();
    assert_eq!(v, EValue::List { id: list, values: vec![EValue::Number { value: num(1.0) }, EValue::Number { value: num(2.0) }] });
    let err = lty.parse_json(&reg, &JsonValue::Array(vec![jnum(1.0), JsonValue::Null]), false).unwrap_err();
    assert_eq!(err.kind, DecodeError::WrongKind(JsonKind::Null));
    assert_eq!(err.path, vec![dbe_core::PathSegment::Index(1)]);
    let mty = EDataType::Dict { id: map };
    let v = mty.parse_json(&reg, &obj(vec![("a", JsonValue::Bool(true))]), false).unwrap();
    assert_eq!(
        v,
        EValue::Dict { id: map, values: vec![(EValue::String { value: s("a") }, EValue::Boolean { value: true })] }
    );
    assert_eq!(kind(mty.parse_json(&reg, &JsonValue::Array(vec![]), false)), DecodeError::WrongKind(JsonKind::Array));
}

#[test]
fn map_keys_must_encode_to_strings() {
    let mut reg = ETypesRegistry::new();
    let map = reg.map_of(&EDataType::Number, &EDataType::Boolean);
    let v = EValue::Dict { id: map, values: vec![(EValue::Number { value: num(1.0) }, EValue::Boolean { value: true })] };
    assert_eq!(v.write_json(&reg).unwrap_err().kind, DecodeError::KeyNotString);
}

fn tagged_shapes(reg: &mut ETypesRegistry, repr: Tagged) -> (ETypeId, ETypeId) {
    let circle = register_struct(reg, vec![field("radius", EDataType::Number)]);
    let shape = register_enum(
        reg,
        Some(repr.clone()),
        vec![
            variant("Circle", EnumPattern::Tagged { repr: repr.clone(), tag: s("circle") }, EDataType::Object { ident: circle }),
            variant("Empty", EnumPattern::Tagged { repr, tag: s("empty") }, EDataType::null()),
        ],
    )
    .unwrap();
    (circle, shape)
}

#[test]
fn externally_tagged_enum() {
    let mut reg = ETypesRegistry::new();
    let (circle, shape) = tagged_shapes(&mut reg, Tagged::External);
    let ty = EDataType::Object { ident: shape };
    let v = ty.parse_json(&reg, &obj(vec![("circle", obj(vec![("radius", jnum(3.0))]))]), false).unwrap();
    assert_eq!(
        v,
        EValue::Enum {
            variant: EEnumVariantId { ident: shape, variant: 0 },
            data: Box::new(EValue::Struct { ident: circle, fields: vec![(s("radius"), EValue::Number { value: num(3.0) })] }),
        }
    );
    let two = obj(vec![("circle", obj(vec![("radius", jnum(3.0))])), ("empty", JsonValue::Null)]);
    assert_eq!(kind(ty.parse_json(&reg, &two, false)), DecodeError::TooManyKeys);
    assert!(ty.parse_json(&reg, &two, true).is_ok());
    assert_eq!(kind(ty.parse_json(&reg, &obj(vec![]), false)), DecodeError::EmptyObject);
    assert_eq!(kind(ty.parse_json(&reg, &jnum(1.0), false)), DecodeError::NotAnObject);
    round_trip(&reg, &ty, &v);
}

#[test]
fn internally_tagged_enum() {
    let mut reg = ETypesRegistry::new();
    let (circle, shape) = tagged_shapes(&mut reg, Tagged::Internal { tag_field: s("type") });
    let ty = EDataType::Object { ident: shape };
    let v = ty.parse_json(&reg, &obj(vec![("type", JsonValue::String(s("circle"))), ("radius", jnum(3.0))]), false).unwrap();
    assert_eq!(
        v,
        EValue::Enum {
            variant: EEnumVariantId { ident: shape, variant: 0 },
            data: Box::new(EValue::Struct { ident: circle, fields: vec![(s("radius"), EValue::Number { value: num(3.0) })] }),
        }
    );
    assert_eq!(kind(ty.parse_json(&reg, &obj(vec![("radius", jnum(3.0))]), false)), DecodeError::MissingTag);
    assert_eq!(
        kind(ty.parse_json(&reg, &obj(vec![("type", JsonValue::String(s("square")))]), false)),
        DecodeError::NoMatchingVariant
    );
    round_trip(&reg, &ty, &v);
    let json = v.write_json(&reg).unwrap();
    assert!(matches!(&json, JsonValue::Object(es) if es.len() == 2 && es[0].0 == "type"));
}

#[test]
fn adjacently_tagged_enum() {
    let mut reg = ETypesRegistry::new();
    let (_, shape) = tagged_shapes(&mut reg, Tagged::Adjacent { tag_field: s("t"), content_field: s("c") });
    let ty = EDataType::Object { ident: shape };
    let good = obj(vec![("t", JsonValue::String(s("circle"))), ("c", obj(vec![("radius", jnum(1.0))]))]);
    let v = ty.parse_json(&reg, &good, false).unwrap();
    round_trip(&reg, &ty, &v);
    let extra = obj(vec![("t", JsonValue::String(s("circle"))), ("c", obj(vec![("radius", jnum(1.0))])), ("x", JsonValue::Null)]);
    assert_eq!(kind(ty.parse_json(&reg, &extra, false)), DecodeError::UnknownKeys);
    assert!(ty.parse_json(&reg, &extra, true).is_ok());
    assert_eq!(kind(ty.parse_json(&reg, &obj(vec![("t", JsonValue::String(s("circle")))]), false)), DecodeError::MissingContent);
    assert_eq!(kind(ty.parse_json(&reg, &obj(vec![("c", JsonValue::Null)]), false)), DecodeError::MissingTag);
}

#[test]
fn defaults_round_trip() {
    let mut reg = ETypesRegistry::new();
    let (_, _, shape) = shapes(&mut reg);
    let list = reg.list_of(&EDataType::String);
    let map = reg.map_of(&EDataType::String, &EDataType::Number);
    let holder = register_struct(
        &mut reg,
        vec![
            field("shape", EDataType::Object { ident: shape }),
            field("names", EDataType::List { id: list }),
            field("scores", EDataType::Dict { id: map }),
            field("flag", EDataType::Boolean),
        ],
    );
    for ty in [
        EDataType::Boolean,
        EDataType::Number,
        EDataType::String,
        EDataType::Object { ident: shape },
        EDataType::Object { ident: holder },
        EDataType::List { id: list },
        EDataType::Dict { id: map },
        EDataType::Const { value: ETypeConst::Boolean(true) },
    ] {
        let v = ty.default_value(&reg).unwrap();
        round_trip(&reg, &ty, &v);
    }
}

#[test]
fn parsed_values_round_trip() {
    let mut reg = ETypesRegistry::new();
    let (_, _, shape) = shapes(&mut reg);
    let list = reg.list_of(&EDataType::Object { ident: shape });
    let map = reg.map_of(&EDataType::String, &EDataType::List { id: list });
    let ty = EDataType::Dict { id: map };
    let json = obj(vec![
        ("a", JsonValue::Array(vec![obj(vec![("radius", jnum(1.0))]), obj(vec![("side", jnum(2.0))])])),
        ("b", JsonValue::Array(vec![])),
    ]);
    let v = ty.parse_json(&reg, &json, false).unwrap();
    round_trip(&reg, &ty, &v);
    assert_eq!(v.write_json(&reg).unwrap(), json);
}

#[test]
fn encoding_of_primitives_and_structs() {
    let mut reg = ETypesRegistry::new();
    let (circle, _, _) = shapes(&mut reg);
    let v = EValue::Struct { ident: circle, fields: vec![(s("radius"), EValue::Number { value: num(0.5) })] };
    assert_eq!(v.write_json(&reg).unwrap(), obj(vec![("radius", jnum(0.5))]));
    assert_eq!(EValue::Null.write_json(&reg).unwrap(), JsonValue::Null);
    assert_eq!(EValue::Boolean { value: false }.write_json(&reg).unwrap(), JsonValue::Bool(false));
    let bad = EValue::Enum { variant: EEnumVariantId { ident: circle, variant: 0 }, data: Box::new(EValue::Null) };
    assert_eq!(
        bad.write_json(&reg).unwrap_err().kind,
        DecodeError::UnknownVariant(EEnumVariantId { ident: circle, variant: 0 })
    );
}

#[test]
fn json_copies_are_equal() {
    let j = obj(vec![("a", JsonValue::Array(vec![jnum(1.0), JsonValue::String(s("x"))]))]);
    assert_eq!(j.duplicate(), j);
    assert_eq!(dbe_core::json::json_kind(&j), JsonKind::Object);
}

#[test]
fn map_entry_errors_carry_the_entry_position() {
    let mut reg = ETypesRegistry::new();
    let map = reg.map_of(&EDataType::String, &EDataType::Number);
    let ty = EDataType::Dict { id: map };
    let err = ty.parse_json(&reg, &obj(vec![("a", jnum(1.0)), ("b", JsonValue::Null)]), false).unwrap_err();
    assert_eq!(err.kind, DecodeError::WrongKind(JsonKind::Null));
    assert_eq!(err.path, vec![dbe_core::PathSegment::Entry(1)]);
}
