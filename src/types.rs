use vstd::prelude::*;

verus! {

/// Identifier of a named struct or enum definition in a registry.
#[derive(Debug, Clone, Copy, PartialEq, Eq, Hash, Structural)]
pub struct ETypeId(pub usize);

/// Identifier of a deduplicated list type in a registry.
#[derive(Debug, Clone, Copy, PartialEq, Eq, Hash, Structural)]
pub struct EListId(pub usize);

/// Identifier of a deduplicated map type in a registry.
#[derive(Debug, Clone, Copy, PartialEq, Eq, Hash, Structural)]
pub struct EMapId(pub usize);

/// A 64-bit floating point number, held as its IEEE-754 bit pattern.
///
/// The library never computes with numbers: it stores, compares and
/// copies them, and two numbers are equal when their bit patterns are.
#[derive(Debug, Clone, Copy, PartialEq, Eq, Hash, Structural)]
pub struct ENumber {
    pub bits: u64,
}

/// A literal used as its own singleton type.
#[derive(Debug, Clone)]
pub enum ETypeConst {
    Null,
    Boolean(bool),
    Number(ENumber),
    String(String),
}

/// Structural type descriptor of a value.
#[derive(Debug, Clone)]
pub enum EDataType {
    /// Primitive boolean type
    Boolean,
    /// Primitive numeric type
    Number,
    /// Primitive string type
    String,
    /// Named struct or enum type
    Object { ident: ETypeId },
    /// Constant type
    Const { value: ETypeConst },
    List { id: EListId },
    Dict { id: EMapId },
}

/// Identifies an enum variant: the owning enum type and the variant's
/// position in its declaration.
#[derive(Debug, Clone, Copy, PartialEq, Eq, Hash, Structural)]
pub struct EEnumVariantId {
    pub ident: ETypeId,
    pub variant: usize,
}

/// Runtime value, mirroring [EDataType].
#[derive(Debug, PartialEq)]
pub enum EValue {
    Null,
    Boolean { value: bool },
    Number { value: ENumber },
    String { value: String },
    Struct { ident: ETypeId, fields: Vec<(String, EValue)> },
    Enum { variant: EEnumVariantId, data: Box<EValue> },
    List { id: EListId, values: Vec<EValue> },
    Dict { id: EMapId, values: Vec<(EValue, EValue)> },
}

/// Two constants are the same when they are of the same kind and hold the
/// same boolean, bit pattern or characters.
pub open spec fn const_eq(a: ETypeConst, b: ETypeConst) -> bool {
    match (a, b) {
        (ETypeConst::Null, ETypeConst::Null) => true,
        (ETypeConst::Boolean(x), ETypeConst::Boolean(y)) => x == y,
        (ETypeConst::Number(x), ETypeConst::Number(y)) => x == y,
        (ETypeConst::String(x), ETypeConst::String(y)) => x@ == y@,
        _ => false,
    }
}

/// Structural equality of data types.
pub open spec fn type_eq(a: EDataType, b: EDataType) -> bool {
    match (a, b) {
        (EDataType::Boolean, EDataType::Boolean) => true,
        (EDataType::Number, EDataType::Number) => true,
        (EDataType::String, EDataType::String) => true,
        (EDataType::Object { ident: x }, EDataType::Object { ident: y }) => x == y,
        (EDataType::Const { value: x }, EDataType::Const { value: y }) => const_eq(x, y),
        (EDataType::List { id: x }, EDataType::List { id: y }) => x == y,
        (EDataType::Dict { id: x }, EDataType::Dict { id: y }) => x == y,
        _ => false,
    }
}

/// The value of a constant type: the constant itself as a value.
pub open spec fn const_value(c: ETypeConst) -> EValue {
    match c {
        ETypeConst::Null => EValue::Null,
        ETypeConst::Boolean(b) => EValue::Boolean { value: b },
        ETypeConst::Number(n) => EValue::Number { value: n },
        ETypeConst::String(s) => EValue::String { value: s },
    }
}

impl ETypeConst {
    /// Compares two constants by kind and content.
    pub fn same_as(&self, other: &ETypeConst) -> (r: bool)
        ensures
            r == const_eq(*self, *other),
    {
        match (self, other) {
            (ETypeConst::Null, ETypeConst::Null) => true,
            (ETypeConst::Boolean(x), ETypeConst::Boolean(y)) => *x == *y,
            (ETypeConst::Number(x), ETypeConst::Number(y)) => x.bits == y.bits,
            (ETypeConst::String(x), ETypeConst::String(y)) => *x == *y,
            _ => false,
        }
    }

    /// A copy of the constant.
    pub fn duplicate(&self) -> (r: ETypeConst)
        ensures
            r == *self,
    {
        match self {
            ETypeConst::Null => ETypeConst::Null,
            ETypeConst::Boolean(b) => ETypeConst::Boolean(*b),
            ETypeConst::Number(n) => ETypeConst::Number(*n),
            ETypeConst::String(s) => ETypeConst::String(s.clone()),
        }
    }

    /// The constant as a value.
    pub fn default_value(&self) -> (r: EValue)
        ensures
            r == const_value(*self),
    {
        match self {
            ETypeConst::Null => EValue::Null,
            ETypeConst::Boolean(b) => EValue::Boolean { value: *b },
            ETypeConst::Number(n) => EValue::Number { value: *n },
            ETypeConst::String(s) => EValue::String { value: s.clone() },
        }
    }
}

impl EDataType {
    /// The constant null type.
    pub fn null() -> (r: EDataType)
        ensures
            r == (EDataType::Const { value: ETypeConst::Null }),
    {
        EDataType::Const { value: ETypeConst::Null }
    }

    /// A copy of the type.
    pub fn duplicate(&self) -> (r: EDataType)
        ensures
            r == *self,
    {
        match self {
            EDataType::Boolean => EDataType::Boolean,
            EDataType::Number => EDataType::Number,
            EDataType::String => EDataType::String,
            EDataType::Object { ident } => EDataType::Object { ident: *ident },
            EDataType::Const { value } => EDataType::Const { value: value.duplicate() },
            EDataType::List { id } => EDataType::List { id: *id },
            EDataType::Dict { id } => EDataType::Dict { id: *id },
        }
    }

    /// A short name of the type: its kind, or for a constant its text.
    pub fn name(&self) -> (r: String)
        ensures
            *self is Boolean ==> r@ == "boolean"@,
            *self is Number ==> r@ == "number"@,
            *self is String ==> r@ == "string"@,
            *self is Object ==> r@ == "object"@,
            *self is List ==> r@ == "list"@,
            *self is Dict ==> r@ == "map"@,
            *self == (EDataType::Const { value: ETypeConst::Null }) ==> r@ == "null"@,
            *self == (EDataType::Const { value: ETypeConst::Boolean(true) }) ==> r@ == "true"@,
            *self == (EDataType::Const { value: ETypeConst::Boolean(false) }) ==> r@ == "false"@,
            *self matches EDataType::Const { value: ETypeConst::Number(_) } ==> r@ == "number"@,
            *self matches EDataType::Const { value: ETypeConst::String(t) } ==> r@ == t@,
    {
        match self {
            EDataType::Boolean => String::from_str("boolean"),
            EDataType::Number => String::from_str("number"),
            EDataType::String => String::from_str("string"),
            EDataType::Object { .. } => String::from_str("object"),
            EDataType::List { .. } => String::from_str("list"),
            EDataType::Dict { .. } => String::from_str("map"),
            EDataType::Const { value } => match value {
                ETypeConst::Null => String::from_str("null"),
                ETypeConst::Boolean(true) => String::from_str("true"),
                ETypeConst::Boolean(false) => String::from_str("false"),
                ETypeConst::Number(_) => String::from_str("number"),
                ETypeConst::String(t) => t.clone(),
            },
        }
    }

    /// Compares two data types structurally.
    pub fn same_as(&self, other: &EDataType) -> (r: bool)
        ensures
            r == type_eq(*self, *other),
    {
        match (self, other) {
            (EDataType::Boolean, EDataType::Boolean) => true,
            (EDataType::Number, EDataType::Number) => true,
            (EDataType::String, EDataType::String) => true,
            (EDataType::Object { ident: x }, EDataType::Object { ident: y }) => x.0 == y.0,
            (EDataType::Const { value: x }, EDataType::Const { value: y }) => x.same_as(y),
            (EDataType::List { id: x }, EDataType::List { id: y }) => x.0 == y.0,
            (EDataType::Dict { id: x }, EDataType::Dict { id: y }) => x.0 == y.0,
            _ => false,
        }
    }
}

} // verus!

verus! {

/// Mathematical model of a value: strings become character sequences and
/// vectors become sequences.
pub enum VModel {
    Null,
    Boolean(bool),
    Number(u64),
    String(Seq<char>),
    Struct(usize, Seq<(Seq<char>, VModel)>),
    Enum(EEnumVariantId, Box<VModel>),
    List(usize, Seq<VModel>),
    Dict(usize, Seq<(VModel, VModel)>),
}

pub open spec fn view_value(v: EValue) -> VModel
    decreases v, 0nat,
{
    match v {
        EValue::Null => VModel::Null,
        EValue::Boolean { value } => VModel::Boolean(value),
        EValue::Number { value } => VModel::Number(value.bits),
        EValue::String { value } => VModel::String(value@),
        EValue::Struct { ident, fields } => VModel::Struct(ident.0, view_fields(fields@, fields@.len())),
        EValue::Enum { variant, data } => VModel::Enum(variant, Box::new(view_value(*data))),
        EValue::List { id, values } => VModel::List(id.0, view_values(values@, values@.len())),
        EValue::Dict { id, values } => VModel::Dict(id.0, view_pairs(values@, values@.len())),
    }
}

pub open spec fn view_fields(s: Seq<(String, EValue)>, n: nat) -> Seq<(Seq<char>, VModel)>
    decreases s, n,
{
    if n == 0 || n > s.len() {
        Seq::empty()
    } else {
        view_fields(s, (n - 1) as nat).push((s[n - 1].0@, view_value(s[n - 1].1)))
    }
}

pub open spec fn view_values(s: Seq<EValue>, n: nat) -> Seq<VModel>
    decreases s, n,
{
    if n == 0 || n > s.len() {
        Seq::empty()
    } else {
        view_values(s, (n - 1) as nat).push(view_value(s[n - 1]))
    }
}

pub open spec fn view_pairs(s: Seq<(EValue, EValue)>, n: nat) -> Seq<(VModel, VModel)>
    decreases s, n,
{
    if n == 0 || n > s.len() {
        Seq::empty()
    } else {
        view_pairs(s, (n - 1) as nat).push((view_value(s[n - 1].0), view_value(s[n - 1].1)))
    }
}

impl View for EValue {
    type V = VModel;

    open spec fn view(&self) -> VModel {
        view_value(*self)
    }
}

impl EValue {
    /// A deep copy of the value.
    pub fn duplicate(&self) -> (r: EValue)
        ensures
            r@ == self@,
        decreases self,
    {
        match self {
            EValue::Null => EValue::Null,
            EValue::Boolean { value } => EValue::Boolean { value: *value },
            EValue::Number { value } => EValue::Number { value: *value },
            EValue::String { value } => EValue::String { value: value.clone() },
            EValue::Struct { ident, fields } => {
                let mut out: Vec<(String, EValue)> = Vec::new();
                let mut i: usize = 0;
                while i < fields.len()
                    invariant
                        i <= fields.len(),
                        view_fields(out@, out@.len()) == view_fields(fields@, i as nat),
                        *self is Struct,
                        *fields == self->fields,
                        out@.len() == i,
                    decreases fields.len() - i,
                {
                    proof {
                        assert(decreases_to!(*self => self->fields));
                        assert(decreases_to!(*fields => fields[i as int]));
                    }
                    let v = fields[i].1.duplicate();
                    let ghost before = out@;
                    out.push((fields[i].0.clone(), v));
                    proof {
                        assert(out@.subrange(0, i as int) =~= before.subrange(0, i as int));
                        lemma_view_fields_prefix(out@, before, i as nat);
                    }
                    i = i + 1;
                }
                EValue::Struct { ident: *ident, fields: out }
            },
            EValue::Enum { variant, data } => {
                let d = data.duplicate();
                EValue::Enum { variant: *variant, data: Box::new(d) }
            },
            EValue::List { id, values } => {
                let mut out: Vec<EValue> = Vec::new();
                let mut i: usize = 0;
                while i < values.len()
                    invariant
                        i <= values.len(),
                        view_values(out@, out@.len()) == view_values(values@, i as nat),
                        *self is List,
                        *values == self->List_values,
                        out@.len() == i,
                    decreases values.len() - i,
                {
                    proof {
                        assert(decreases_to!(*self => self->List_values));
                        assert(decreases_to!(*values => values[i as int]));
                    }
                    let v = values[i].duplicate();
                    let ghost before = out@;
                    out.push(v);
                    proof {
                        assert(out@.subrange(0, i as int) =~= before.subrange(0, i as int));
                        lemma_view_values_prefix(out@, before, i as nat);
                    }
                    i = i + 1;
                }
                EValue::List { id: *id, values: out }
            },
            EValue::Dict { id, values } => {
                let mut out: Vec<(EValue, EValue)> = Vec::new();
                let mut i: usize = 0;
                while i < values.len()
                    invariant
                        i <= values.len(),
                        view_pairs(out@, out@.len()) == view_pairs(values@, i as nat),
                        *self is Dict,
                        *values == self->Dict_values,
                        out@.len() == i,
                    decreases values.len() - i,
                {
                    proof {
                        assert(decreases_to!(*self => self->Dict_values));
                        assert(decreases_to!(*values => values[i as int]));
                    }
                    let k = values[i].0.duplicate();
                    let v = values[i].1.duplicate();
                    let ghost before = out@;
                    out.push((k, v));
                    proof {
                        assert(out@.subrange(0, i as int) =~= before.subrange(0, i as int));
                        lemma_view_pairs_prefix(out@, before, i as nat);
                    }
                    i = i + 1;
                }
                EValue::Dict { id: *id, values: out }
            },
        }
    }
}

/// The view of a prefix depends on the prefix alone.
pub proof fn lemma_view_fields_prefix(s: Seq<(String, EValue)>, t: Seq<(String, EValue)>, n: nat)
    requires
        n <= t.len(),
        n <= s.len(),
        s.subrange(0, n as int) == t.subrange(0, n as int),
    ensures
        view_fields(s, n) == view_fields(t, n),
    decreases n,
{
    if n > 0 {
        assert(s[n - 1] == s.subrange(0, n as int)[n - 1]);
        assert(t[n - 1] == t.subrange(0, n as int)[n - 1]);
        assert(s.subrange(0, n - 1) == s.subrange(0, n as int).subrange(0, n - 1));
        assert(t.subrange(0, n - 1) == t.subrange(0, n as int).subrange(0, n - 1));
        lemma_view_fields_prefix(s, t, (n - 1) as nat);
    }
}

/// The view of a prefix depends on the prefix alone.
pub proof fn lemma_view_values_prefix(s: Seq<EValue>, t: Seq<EValue>, n: nat)
    requires
        n <= t.len(),
        n <= s.len(),
        s.subrange(0, n as int) == t.subrange(0, n as int),
    ensures
        view_values(s, n) == view_values(t, n),
    decreases n,
{
    if n > 0 {
        assert(s[n - 1] == s.subrange(0, n as int)[n - 1]);
        assert(t[n - 1] == t.subrange(0, n as int)[n - 1]);
        assert(s.subrange(0, n - 1) == s.subrange(0, n as int).subrange(0, n - 1));
        assert(t.subrange(0, n - 1) == t.subrange(0, n as int).subrange(0, n - 1));
        lemma_view_values_prefix(s, t, (n - 1) as nat);
    }
}

/// The view of a prefix depends on the prefix alone.
pub proof fn lemma_view_pairs_prefix(s: Seq<(EValue, EValue)>, t: Seq<(EValue, EValue)>, n: nat)
    requires
        n <= t.len(),
        n <= s.len(),
        s.subrange(0, n as int) == t.subrange(0, n as int),
    ensures
        view_pairs(s, n) == view_pairs(t, n),
    decreases n,
{
    if n > 0 {
        assert(s[n - 1] == s.subrange(0, n as int)[n - 1]);
        assert(t[n - 1] == t.subrange(0, n as int)[n - 1]);
        assert(s.subrange(0, n - 1) == s.subrange(0, n as int).subrange(0, n - 1));
        assert(t.subrange(0, n - 1) == t.subrange(0, n as int).subrange(0, n - 1));
        lemma_view_pairs_prefix(s, t, (n - 1) as nat);
    }
}

/// The view of a struct's fields, field by field.
pub proof fn lemma_view_fields_index(s: Seq<(String, EValue)>, n: nat)
    requires
        n <= s.len(),
    ensures
        view_fields(s, n).len() == n,
        forall|i: int| 0 <= i < n ==> #[trigger] view_fields(s, n)[i] == (s[i].0@, view_value(s[i].1)),
    decreases n,
{
    if n > 0 {
        lemma_view_fields_index(s, (n - 1) as nat);
    }
}

/// The view of a list's items, item by item.
pub proof fn lemma_view_values_index(s: Seq<EValue>, n: nat)
    requires
        n <= s.len(),
    ensures
        view_values(s, n).len() == n,
        forall|i: int| 0 <= i < n ==> #[trigger] view_values(s, n)[i] == view_value(s[i]),
    decreases n,
{
    if n > 0 {
        lemma_view_values_index(s, (n - 1) as nat);
    }
}

/// The view of a map's entries, entry by entry.
pub proof fn lemma_view_pairs_index(s: Seq<(EValue, EValue)>, n: nat)
    requires
        n <= s.len(),
    ensures
        view_pairs(s, n).len() == n,
        forall|i: int| 0 <= i < n ==> #[trigger] view_pairs(s, n)[i] == (view_value(s[i].0), view_value(s[i].1)),
    decreases n,
{
    if n > 0 {
        lemma_view_pairs_index(s, (n - 1) as nat);
    }
}

} // verus!
