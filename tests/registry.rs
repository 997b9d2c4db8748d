use dbe_core::{
    get_snarl_node, Config, EDataType, EEnumData, EEnumVariant, EItemInfo, EStructData, EStructField, ETypeConst, ETypeId,
    ETypesRegistry, EValue, EditorResponse, EditorSize, EnumPattern, ErrorEditor, GraphNode, ListNodeFactory, RegistryError,
    RgbEditor, SelectedDocs, TypesConfig,
};

fn s(x: &str) -> String {
    x.to_string()
}

fn specific(ty: EDataType) -> EItemInfo {
    EItemInfo::Specific { ty, extra_properties: vec![] }
}

fn field(name: &str, ty: EDataType) -> EStructField {
    EStructField { name: s(name), ty: specific(ty), is_id: false }
}

fn enum_data(reg: &ETypesRegistry, variants: Vec<EEnumVariant>) -> EEnumData {
    EEnumData { generic_arguments: vec![], ident: reg.next_id(), tagged_repr: None, variants }
}

#[test]
fn duplicate_patterns_fail_at_registration() {
    let mut reg = ETypesRegistry::new();
    let data = enum_data(
        &reg,
        vec![
            EEnumVariant { name: s("a"), pat: EnumPattern::Number, data: specific(EDataType::Number) },
            EEnumVariant { name: s("b"), pat: EnumPattern::Number, data: specific(EDataType::Number) },
        ],
    );
    assert!(matches!(reg.register_enum(data), Err(RegistryError::DuplicatePattern(0, 1))));
    assert_eq!(reg.object_count(), 0);
}

#[test]
fn field_patterns_compare_as_sets() {
    let mut reg = ETypesRegistry::new();
    let data = enum_data(
        &reg,
        vec![
            EEnumVariant { name: s("a"), pat: EnumPattern::Fields(vec![s("x"), s("y")]), data: specific(EDataType::Boolean) },
            EEnumVariant { name: s("b"), pat: EnumPattern::Fields(vec![s("y"), s("x")]), data: specific(EDataType::Boolean) },
        ],
    );
    assert!(matches!(reg.register_enum(data), Err(RegistryError::DuplicatePattern(0, 1))));
}

#[test]
fn distinct_patterns_register() {
    let mut reg = ETypesRegistry::new();
    let data = enum_data(
        &reg,
        vec![
            EEnumVariant { name: s("n"), pat: EnumPattern::Number, data: specific(EDataType::Number) },
            EEnumVariant { name: s("s"), pat: EnumPattern::String, data: specific(EDataType::String) },
        ],
    );
    assert_eq!(reg.register_enum(data).unwrap(), ETypeId(0));
}

#[test]
fn empty_enum_is_rejected() {
    let mut reg = ETypesRegistry::new();
    let data = enum_data(&reg, vec![]);
    assert!(matches!(reg.register_enum(data), Err(RegistryError::EmptyEnum)));
}

#[test]
fn identity_field_rules() {
    let mut reg = ETypesRegistry::new();
    let own = EStructField { name: s("id"), ty: specific(EDataType::Object { ident: ETypeId(0) }), is_id: true };
    let ok = EStructData { generic_arguments: vec![], ident: reg.next_id(), fields: vec![own.clone(), field("v", EDataType::Number)] };
    assert_eq!(reg.register_struct(ok).unwrap(), ETypeId(0));
    let other = EStructField { name: s("id"), ty: specific(EDataType::Object { ident: ETypeId(0) }), is_id: true };
    let bad = EStructData { generic_arguments: vec![], ident: reg.next_id(), fields: vec![other] };
    assert!(matches!(reg.register_struct(bad), Err(RegistryError::IdFieldTypeMismatch)));
    let two = EStructData {
        generic_arguments: vec![],
        ident: reg.next_id(),
        fields: vec![
            EStructField { name: s("a"), ty: specific(EDataType::Object { ident: ETypeId(1) }), is_id: true },
            EStructField { name: s("b"), ty: specific(EDataType::Object { ident: ETypeId(1) }), is_id: true },
        ],
    };
    assert!(matches!(reg.register_struct(two), Err(RegistryError::DuplicateIdField)));
    assert_eq!(reg.object_count(), 1);
}

#[test]
fn collection_types_are_deduplicated() {
    let mut reg = ETypesRegistry::new();
    let a = reg.list_of(&EDataType::Number);
    let b = reg.list_of(&EDataType::String);
    let c = reg.list_of(&EDataType::Number);
    assert_eq!(a, c);
    assert_ne!(a, b);
    let m1 = reg.map_of(&EDataType::String, &EDataType::Number);
    let m2 = reg.map_of(&EDataType::String, &EDataType::Boolean);
    let m3 = reg.map_of(&EDataType::String, &EDataType::Number);
    assert_eq!(m1, m3);
    assert_ne!(m1, m2);
    let k1 = reg.list_of(&EDataType::Const { value: ETypeConst::String(s("x")) });
    let k2 = reg.list_of(&EDataType::Const { value: ETypeConst::String(s("x")) });
    assert_eq!(k1, k2);
}

fn wrapper(reg: &mut ETypesRegistry) -> ETypeId {
    let generic = EStructField {
        name: s("value"),
        ty: EItemInfo::Generic { argument_name: s("T"), extra_properties: vec![] },
        is_id: false,
    };
    let data = EStructData { generic_arguments: vec![s("T")], ident: reg.next_id(), fields: vec![generic, field("n", EDataType::Number)] };
    reg.register_struct(data).unwrap()
}

#[test]
fn instantiation_is_memoized() {
    let mut reg = ETypesRegistry::new();
    let w = wrapper(&mut reg);
    let first = reg.instantiate_generic(w, &vec![(s("T"), EDataType::String)]).unwrap();
    let count = reg.object_count();
    let second = reg.instantiate_generic(w, &vec![(s("T"), EDataType::String)]).unwrap();
    assert_eq!(first, second);
    assert_eq!(reg.object_count(), count);
    let other = reg.instantiate_generic(w, &vec![(s("T"), EDataType::Boolean)]).unwrap();
    assert_ne!(first, other);
    let v = EDataType::Object { ident: first }.default_value(&reg).unwrap();
    assert_eq!(
        v,
        EValue::Struct {
            ident: first,
            fields: vec![(s("value"), EValue::String { value: s("") }), (s("n"), EValue::Number { value: dbe_core::ENumber { bits: 0 } })],
        }
    );
}

#[test]
fn instantiation_needs_every_argument() {
    let mut reg = ETypesRegistry::new();
    let w = wrapper(&mut reg);
    assert!(matches!(
        reg.instantiate_generic(w, &vec![(s("U"), EDataType::String)]),
        Err(RegistryError::MissingGenericArgument(name)) if name == "T"
    ));
    assert!(matches!(reg.instantiate_generic(ETypeId(9), &vec![]), Err(RegistryError::UnknownType(ETypeId(9)))));
}

#[test]
fn generic_enum_variant_gets_a_pattern() {
    let mut reg = ETypesRegistry::new();
    let data = EEnumData {
        generic_arguments: vec![s("T")],
        ident: reg.next_id(),
        tagged_repr: None,
        variants: vec![
            EEnumVariant { name: s("none"), pat: EnumPattern::Const(ETypeConst::Null), data: specific(EDataType::null()) },
            EEnumVariant {
                name: s("some"),
                pat: EnumPattern::Boolean,
                data: EItemInfo::Generic { argument_name: s("T"), extra_properties: vec![] },
            },
        ],
    };
    let opt = reg.register_enum(data).unwrap();
    let inst = reg.instantiate_generic(opt, &vec![(s("T"), EDataType::Number)]).unwrap();
    let ty = EDataType::Object { ident: inst };
    let v = ty.parse_json(&reg, &dbe_core::JsonValue::Number(dbe_core::ENumber { bits: 7.0f64.to_bits() }), false).unwrap();
    assert!(matches!(v, EValue::Enum { variant, .. } if variant.variant == 1));
    assert_eq!(ty.default_value(&reg).unwrap(), EValue::Enum {
        variant: dbe_core::EEnumVariantId { ident: inst, variant: 0 },
        data: Box::new(EValue::Null),
    });
}

#[test]
fn defaults_of_primitives() {
    let reg = ETypesRegistry::new();
    assert_eq!(EDataType::Boolean.default_value(&reg).unwrap(), EValue::Boolean { value: false });
    assert_eq!(EDataType::Number.default_value(&reg).unwrap(), EValue::Number { value: dbe_core::ENumber { bits: 0 } });
    assert_eq!(EDataType::String.default_value(&reg).unwrap(), EValue::String { value: s("") });
    assert_eq!(
        EDataType::Const { value: ETypeConst::String(s("k")) }.default_value(&reg).unwrap(),
        EValue::String { value: s("k") }
    );
    assert!(matches!(EDataType::Object { ident: ETypeId(0) }.default_value(&reg), Err(RegistryError::UnknownType(ETypeId(0)))));
}

#[test]
fn enum_default_is_first_variant() {
    let mut reg = ETypesRegistry::new();
    let data = enum_data(
        &reg,
        vec![
            EEnumVariant { name: s("s"), pat: EnumPattern::String, data: specific(EDataType::String) },
            EEnumVariant { name: s("n"), pat: EnumPattern::Number, data: specific(EDataType::Number) },
        ],
    );
    let e = reg.register_enum(data).unwrap();
    assert_eq!(
        EDataType::Object { ident: e }.default_value(&reg).unwrap(),
        EValue::Enum {
            variant: dbe_core::EEnumVariantId { ident: e, variant: 0 },
            data: Box::new(EValue::String { value: s("") }),
        }
    );
}

#[test]
fn self_containing_struct_has_no_default() {
    let mut reg = ETypesRegistry::new();
    let data = EStructData { generic_arguments: vec![], ident: reg.next_id(), fields: vec![field("next", EDataType::Object { ident: ETypeId(0) })] };
    let id = reg.register_struct(data).unwrap();
    assert!(matches!(EDataType::Object { ident: id }.default_value(&reg), Err(RegistryError::RecursiveType(_))));
}

#[test]
fn editor_sizes_and_responses() {
    assert!(EditorSize::Inline.is_inline());
    assert!(!EditorSize::Block.is_inline());
    assert!(EditorSize::SingleLine.is_single_line());
    assert!(EditorSize::Block.is_block());
    assert!(EditorSize::Empty < EditorSize::Block);
    assert!(EditorResponse::changed().changed);
    assert!(!EditorResponse::unchanged().changed);
    assert!(EditorResponse::new(false).or(EditorResponse::changed()).changed);
    assert!(RgbEditor::new(true).has_alpha());
    assert_eq!(RgbEditor::new(false).size(), EditorSize::Block);
    assert_eq!(ErrorEditor.size(), EditorSize::Inline);
    assert!(matches!(SelectedDocs::default(), SelectedDocs::Empty));
}

#[test]
fn node_factories_by_id() {
    assert_eq!(ListNodeFactory.id(), "list");
    assert!(matches!(get_snarl_node(&s("list")), Some(GraphNode::List(l)) if l.count() == 0));
    assert!(get_snarl_node(&s("missing")).is_none());
    assert_eq!(GraphNode::Reroute { ty: EDataType::Number }.id(), "reroute");
}

#[test]
fn project_config_holds_its_parts() {
    let t = TypesConfig::new(s("types"), ETypeId(3));
    let c = Config::new(t);
    assert_eq!(c.types_config().root(), "types");
    assert_eq!(c.types_config().import, ETypeId(3));
}

#[test]
fn type_names() {
    assert_eq!(EDataType::Boolean.name(), "boolean");
    assert_eq!(EDataType::Number.name(), "number");
    assert_eq!(EDataType::String.name(), "string");
    assert_eq!(EDataType::null().name(), "null");
    assert_eq!(EDataType::Const { value: ETypeConst::Boolean(true) }.name(), "true");
    assert_eq!(EDataType::Const { value: ETypeConst::String(s("tag")) }.name(), "tag");
    assert_eq!(EDataType::Object { ident: ETypeId(1) }.name(), "object");
}

#[test]
fn struct_builder_checks_identity_fields() {
    let mut data = EStructData::new(ETypeId(4), vec![]);
    data.add_field(field("v", EDataType::Number)).unwrap();
    assert!(data.id_field().is_none());
    let own = EStructField { name: s("id"), ty: specific(EDataType::Object { ident: ETypeId(4) }), is_id: true };
    data.add_field(own).unwrap();
    assert_eq!(data.id_field().map(|f| f.name.clone()), Some(s("id")));
    let again = EStructField { name: s("id2"), ty: specific(EDataType::Object { ident: ETypeId(4) }), is_id: true };
    assert!(matches!(data.add_field(again), Err(RegistryError::DuplicateIdField)));
    let mut other = EStructData::new(ETypeId(5), vec![]);
    let foreign = EStructField { name: s("id"), ty: specific(EDataType::Object { ident: ETypeId(4) }), is_id: true };
    assert!(matches!(other.add_field(foreign), Err(RegistryError::IdFieldTypeMismatch)));
    assert_eq!(data.fields.len(), 2);
    assert!(other.fields.is_empty());
}

#[test]
fn enum_builder_and_null_variant() {
    let mut reg = ETypesRegistry::new();
    let mut data = EEnumData::new(reg.next_id(), vec![], None);
    data.add_variant(EEnumVariant::null());
    data.add_variant(EEnumVariant::new(s("n"), EnumPattern::Number, specific(EDataType::Number)));
    let id = reg.register_enum(data).unwrap();
    assert_eq!(
        EDataType::Object { ident: id }.default_value(&reg).unwrap(),
        EValue::Enum { variant: dbe_core::EEnumVariantId { ident: id, variant: 0 }, data: Box::new(EValue::Null) }
    );
}

#[test]
fn default_property_overrides_type_default() {
    let mut reg = ETypesRegistry::new();
    let five = dbe_core::ENumber { bits: 5.0f64.to_bits() };
    let with_default = EStructField {
        name: s("n"),
        ty: EItemInfo::Specific { ty: EDataType::Number, extra_properties: vec![(s("default"), ETypeConst::Number(five))] },
        is_id: false,
    };
    let bad_default = EStructField {
        name: s("m"),
        ty: EItemInfo::Specific { ty: EDataType::Number, extra_properties: vec![(s("default"), ETypeConst::String(s("x")))] },
        is_id: false,
    };
    let data = EStructData { generic_arguments: vec![], ident: reg.next_id(), fields: vec![with_default, bad_default] };
    let id = reg.register_struct(data).unwrap();
    assert_eq!(
        EDataType::Object { ident: id }.default_value(&reg).unwrap(),
        EValue::Struct {
            ident: id,
            fields: vec![
                (s("n"), EValue::Number { value: five }),
                (s("m"), EValue::Number { value: dbe_core::ENumber { bits: 0 } }),
            ],
        }
    );
}
