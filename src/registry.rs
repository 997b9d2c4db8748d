use crate::types::{
    const_eq, const_value, type_eq, EDataType, EEnumVariantId, EListId, EMapId, ETypeConst, ETypeId,
    EValue, VModel,
};
use vstd::prelude::*;

verus! {

/// Type of a struct field or enum variant payload: a concrete type, or a
/// named generic parameter awaiting instantiation.
#[derive(Debug, Clone)]
pub enum EItemInfo {
    Specific { ty: EDataType, extra_properties: Vec<(String, ETypeConst)> },
    Generic { argument_name: String, extra_properties: Vec<(String, ETypeConst)> },
}

/// How the variant of an enum is recovered from JSON.
#[derive(Debug, Clone)]
pub enum Tagged {
    /// The variant is the single key of the object.
    External,
    /// A field of the object names the variant.
    Internal { tag_field: String },
    /// One field names the variant, a sibling field holds the content.
    Adjacent { tag_field: String, content_field: String },
}

/// Discriminator used to pick an enum variant when decoding.
#[derive(Debug, Clone)]
pub enum EnumPattern {
    /// An object whose field holds the given constant.
    StructField(String, ETypeConst),
    Boolean,
    Number,
    String,
    /// Exactly the given constant.
    Const(ETypeConst),
    /// An object whose keys are exactly the given names.
    Fields(Vec<String>),
    /// Under a tagging mode: the variant's tag.
    Tagged { repr: Tagged, tag: String },
}

#[derive(Debug, Clone)]
pub struct EStructField {
    pub name: String,
    pub ty: EItemInfo,
    /// Marks the identity field, which must be of the struct's own type.
    pub is_id: bool,
}

#[derive(Debug, Clone)]
pub struct EStructData {
    pub generic_arguments: Vec<String>,
    pub ident: ETypeId,
    pub fields: Vec<EStructField>,
}

#[derive(Debug, Clone)]
pub struct EEnumVariant {
    pub name: String,
    pub pat: EnumPattern,
    pub data: EItemInfo,
}

#[derive(Debug, Clone)]
pub struct EEnumData {
    pub generic_arguments: Vec<String>,
    pub ident: ETypeId,
    pub tagged_repr: Option<Tagged>,
    pub variants: Vec<EEnumVariant>,
}

/// A named definition held by the registry.
#[derive(Debug, Clone)]
pub enum EObject {
    Struct(EStructData),
    Enum(EEnumData),
}

/// Failures of registration, resolution and instantiation.
#[derive(Debug, Clone)]
pub enum RegistryError {
    UnknownType(ETypeId),
    UnknownList(EListId),
    UnknownMap(EMapId),
    /// The default value of the type would contain itself.
    RecursiveType(ETypeId),
    MissingGenericArgument(String),
    EmptyEnum,
    /// Two variants, by position, share an equal pattern.
    DuplicatePattern(usize, usize),
    DuplicateIdField,
    IdFieldTypeMismatch,
    /// The variant payload admits no pattern without a tagging mode.
    NoPatternForVariant(usize),
}

/// Owns all named type definitions and the deduplicated collection types.
pub struct ETypesRegistry {
    objects: Vec<EObject>,
    lists: Vec<EDataType>,
    maps: Vec<(EDataType, EDataType)>,
    instances: Vec<(ETypeId, Vec<(String, EDataType)>, ETypeId)>,
}

pub open spec fn obj_ident(o: EObject) -> ETypeId {
    match o {
        EObject::Struct(s) => s.ident,
        EObject::Enum(e) => e.ident,
    }
}

pub open spec fn tagged_eq(a: Tagged, b: Tagged) -> bool {
    match (a, b) {
        (Tagged::External, Tagged::External) => true,
        (Tagged::Internal { tag_field: x }, Tagged::Internal { tag_field: y }) => x@ == y@,
        (
            Tagged::Adjacent { tag_field: x1, content_field: x2 },
            Tagged::Adjacent { tag_field: y1, content_field: y2 },
        ) => x1@ == y1@ && x2@ == y2@,
        _ => false,
    }
}

/// A name list holds the name.
pub open spec fn has_name(s: Seq<String>, n: Seq<char>) -> bool {
    exists|j: int| 0 <= j < s.len() && #[trigger] s[j]@ == n
}

/// Every name of `a` occurs in `b`.
pub open spec fn names_in(a: Seq<String>, b: Seq<String>) -> bool {
    forall|i: int| 0 <= i < a.len() ==> has_name(b, #[trigger] a[i]@)
}

/// Two name lists hold the same names.
pub open spec fn same_names(a: Seq<String>, b: Seq<String>) -> bool {
    names_in(a, b) && names_in(b, a)
}

/// Equality of patterns; a field-name pattern is compared as a set of names.
pub open spec fn pattern_eq(a: EnumPattern, b: EnumPattern) -> bool {
    match (a, b) {
        (EnumPattern::StructField(f, c), EnumPattern::StructField(g, d)) => f@ == g@ && const_eq(c, d),
        (EnumPattern::Boolean, EnumPattern::Boolean) => true,
        (EnumPattern::Number, EnumPattern::Number) => true,
        (EnumPattern::String, EnumPattern::String) => true,
        (EnumPattern::Const(c), EnumPattern::Const(d)) => const_eq(c, d),
        (EnumPattern::Fields(x), EnumPattern::Fields(y)) => same_names(x@, y@),
        (EnumPattern::Tagged { repr: r1, tag: t1 }, EnumPattern::Tagged { repr: r2, tag: t2 }) =>
            tagged_eq(r1, r2) && t1@ == t2@,
        _ => false,
    }
}

/// No two variants share an equal pattern.
pub open spec fn patterns_unique(vs: Seq<EEnumVariant>) -> bool {
    forall|i: int, j: int| 0 <= i < j < vs.len() ==> !pattern_eq(#[trigger] vs[i].pat, #[trigger] vs[j].pat)
}

/// The positions of the identity fields.
pub open spec fn id_fields_valid(s: EStructData) -> bool {
    forall|i: int| 0 <= i < s.fields@.len() && (#[trigger] s.fields@[i]).is_id ==> {
        &&& s.fields@[i].ty == (EItemInfo::Specific {
            ty: EDataType::Object { ident: s.ident },
            extra_properties: s.fields@[i].ty->Specific_extra_properties,
        })
        &&& forall|j: int| 0 <= j < s.fields@.len() && j != i ==> !(#[trigger] s.fields@[j]).is_id
    }
}

pub open spec fn object_wf(o: EObject) -> bool {
    match o {
        EObject::Struct(s) => id_fields_valid(s),
        EObject::Enum(e) => e.variants@.len() > 0 && patterns_unique(e.variants@),
    }
}

impl ETypesRegistry {
    /// Every definition carries its own identifier and is well formed.
    pub open spec fn wf(&self) -> bool {
        &&& forall|k: int| 0 <= k < self.objects().len() ==> {
            &&& obj_ident(#[trigger] self.objects()[k]) == ETypeId(k as usize)
            &&& object_wf(self.objects()[k])
        }
        &&& forall|k: int| 0 <= k < self.instances().len() ==> (#[trigger] self.instances()[k]).2.0 < self.objects().len()
    }

    pub closed spec fn objects(&self) -> Seq<EObject> {
        self.objects@
    }

    pub closed spec fn lists(&self) -> Seq<EDataType> {
        self.lists@
    }

    pub closed spec fn maps(&self) -> Seq<(EDataType, EDataType)> {
        self.maps@
    }

    pub closed spec fn instances(&self) -> Seq<(ETypeId, Vec<(String, EDataType)>, ETypeId)> {
        self.instances@
    }

    /// An empty registry.
    pub fn new() -> (r: ETypesRegistry)
        ensures
            r.wf(),
            r.objects().len() == 0,
            r.lists().len() == 0,
            r.maps().len() == 0,
            r.instances().len() == 0,
    {
        ETypesRegistry { objects: Vec::new(), lists: Vec::new(), maps: Vec::new(), instances: Vec::new() }
    }

    /// The number of registered definitions.
    pub fn object_count(&self) -> (r: usize)
        ensures
            r == self.objects().len(),
    {
        self.objects.len()
    }

    /// Adds a checked definition under the next identifier.
    pub(crate) fn push_object(&mut self, obj: EObject)
        requires
            old(self).wf(),
            obj_ident(obj) == ETypeId(old(self).objects().len() as usize),
            object_wf(obj),
        ensures
            final(self).wf(),
            final(self).objects() == old(self).objects().push(obj),
            final(self).lists() == old(self).lists(),
            final(self).maps() == old(self).maps(),
            final(self).instances() == old(self).instances(),
    {
        self.objects.push(obj);
        assert(self.instances() == old(self).instances());
        proof {
            assert forall|k: int| 0 <= k < self.objects().len() implies {
                &&& obj_ident(#[trigger] self.objects()[k]) == ETypeId(k as usize)
                &&& object_wf(self.objects()[k])
            } by {
                if k < old(self).objects().len() {
                    assert(self.objects()[k] == old(self).objects()[k]);
                }
            }
        }
    }

    /// Records an instantiation.
    pub(crate) fn push_instance(&mut self, def: ETypeId, args: Vec<(String, EDataType)>, id: ETypeId)
        requires
            old(self).wf(),
            id.0 < old(self).objects().len(),
        ensures
            final(self).wf(),
            final(self).objects() == old(self).objects(),
            final(self).lists() == old(self).lists(),
            final(self).maps() == old(self).maps(),
            final(self).instances() == old(self).instances().push((def, args, id)),
    {
        self.instances.push((def, args, id));
        assert(self.objects() == old(self).objects());
        assert forall|k: int| 0 <= k < self.instances().len() implies (#[trigger] self.instances()[k]).2.0 < self.objects().len() by {
            if k < old(self).instances().len() {
                assert(self.instances()[k] == old(self).instances()[k]);
            }
        }
    }

    /// The memoized instantiations.
    pub(crate) fn instance_entries(&self) -> (r: &Vec<(ETypeId, Vec<(String, EDataType)>, ETypeId)>)
        ensures
            r@ == self.instances(),
    {
        &self.instances
    }

    /// The identifier that the next registered definition receives.
    pub fn next_id(&self) -> (r: ETypeId)
        ensures
            r.0 == self.objects().len(),
    {
        ETypeId(self.objects.len())
    }

    /// Resolves an identifier to its definition.
    pub fn get_object(&self, id: ETypeId) -> (r: Result<&EObject, RegistryError>)
        ensures
            id.0 < self.objects().len() ==> r == Ok::<&EObject, RegistryError>(&self.objects()[id.0 as int]),
            id.0 >= self.objects().len() ==> r == Err::<&EObject, RegistryError>(RegistryError::UnknownType(id)),
    {
        if id.0 < self.objects.len() {
            Ok(&self.objects[id.0])
        } else {
            Err(RegistryError::UnknownType(id))
        }
    }
}


/// Whether a name list holds a name.
pub(crate) fn contains_name(names: &Vec<String>, name: &String) -> (r: bool)
    ensures
        r == has_name(names@, name@),
{
    let mut j: usize = 0;
    while j < names.len()
        invariant
            j <= names.len(),
            forall|k: int| 0 <= k < j ==> #[trigger] names@[k]@ != name@,
        decreases names.len() - j,
    {
        if names[j] == *name {
            return true;
        }
        j = j + 1;
    }
    false
}

/// Whether every name of `a` occurs in `b`.
fn names_included(a: &Vec<String>, b: &Vec<String>) -> (r: bool)
    ensures
        r == names_in(a@, b@),
{
    let mut i: usize = 0;
    while i < a.len()
        invariant
            i <= a.len(),
            forall|k: int| 0 <= k < i ==> has_name(b@, #[trigger] a@[k]@),
        decreases a.len() - i,
    {
        if !contains_name(b, &a[i]) {
            return false;
        }
        i = i + 1;
    }
    true
}

impl Tagged {
    /// A copy of the tagging mode.
    pub fn duplicate(&self) -> (r: Tagged)
        ensures
            r == *self,
    {
        match self {
            Tagged::External => Tagged::External,
            Tagged::Internal { tag_field } => Tagged::Internal { tag_field: tag_field.clone() },
            Tagged::Adjacent { tag_field, content_field } => Tagged::Adjacent {
                tag_field: tag_field.clone(),
                content_field: content_field.clone(),
            },
        }
    }

    /// Compares two tagging modes.
    pub fn same_as(&self, other: &Tagged) -> (r: bool)
        ensures
            r == tagged_eq(*self, *other),
    {
        match (self, other) {
            (Tagged::External, Tagged::External) => true,
            (Tagged::Internal { tag_field: x }, Tagged::Internal { tag_field: y }) => *x == *y,
            (
                Tagged::Adjacent { tag_field: x1, content_field: x2 },
                Tagged::Adjacent { tag_field: y1, content_field: y2 },
            ) => *x1 == *y1 && *x2 == *y2,
            _ => false,
        }
    }
}

/// Copies a name list.
pub(crate) fn copy_names(a: &Vec<String>) -> (r: Vec<String>)
    ensures
        r@ == a@,
{
    let mut out: Vec<String> = Vec::new();
    let mut i: usize = 0;
    while i < a.len()
        invariant
            i <= a@.len(),
            out@ == a@.subrange(0, i as int),
        decreases a.len() - i,
    {
        out.push(a[i].clone());
        assert(out@ =~= a@.subrange(0, i + 1));
        i = i + 1;
    }
    assert(out@ =~= a@);
    out
}

impl EnumPattern {
    /// A copy of the pattern.
    pub fn duplicate(&self) -> (r: EnumPattern)
        ensures
            pattern_eq(r, *self),
            r is Fields <==> self is Fields,
            r is Fields ==> r->Fields_0@ == self->Fields_0@,
            !(r is Fields) ==> r == *self,
    {
        match self {
            EnumPattern::StructField(f, c) => EnumPattern::StructField(f.clone(), c.duplicate()),
            EnumPattern::Boolean => EnumPattern::Boolean,
            EnumPattern::Number => EnumPattern::Number,
            EnumPattern::String => EnumPattern::String,
            EnumPattern::Const(c) => EnumPattern::Const(c.duplicate()),
            EnumPattern::Fields(ns) => {
                let r = copy_names(ns);
                assert(names_in(r@, ns@)) by {
                    assert forall|i: int| 0 <= i < r@.len() implies has_name(ns@, #[trigger] r@[i]@) by {
                        assert(ns@[i]@ == r@[i]@);
                    }
                }
                EnumPattern::Fields(r)
            },
            EnumPattern::Tagged { repr, tag } => EnumPattern::Tagged { repr: repr.duplicate(), tag: tag.clone() },
        }
    }

    /// Compares two patterns; field-name patterns compare as sets of names.
    pub fn same_as(&self, other: &EnumPattern) -> (r: bool)
        ensures
            r == pattern_eq(*self, *other),
    {
        match (self, other) {
            (EnumPattern::StructField(f, c), EnumPattern::StructField(g, d)) => *f == *g && c.same_as(d),
            (EnumPattern::Boolean, EnumPattern::Boolean) => true,
            (EnumPattern::Number, EnumPattern::Number) => true,
            (EnumPattern::String, EnumPattern::String) => true,
            (EnumPattern::Const(c), EnumPattern::Const(d)) => c.same_as(d),
            (EnumPattern::Fields(x), EnumPattern::Fields(y)) => names_included(x, y) && names_included(y, x),
            (EnumPattern::Tagged { repr: r1, tag: t1 }, EnumPattern::Tagged { repr: r2, tag: t2 }) =>
                r1.same_as(r2) && *t1 == *t2,
            _ => false,
        }
    }
}

/// Finds the first pair of variants, in order, whose patterns are equal.
pub(crate) fn find_duplicate_pattern(vs: &Vec<EEnumVariant>) -> (r: Option<(usize, usize)>)
    ensures
        r is None <==> patterns_unique(vs@),
        r matches Some((i, j)) ==> i < j < vs@.len() && pattern_eq(vs@[i as int].pat, vs@[j as int].pat),
{
    let mut j: usize = 1;
    while j < vs.len()
        invariant
            1 <= j,
            forall|a: int, b: int| 0 <= a < b < vs@.len() && b < j ==> !pattern_eq(#[trigger] vs@[a].pat, #[trigger] vs@[b].pat),
        decreases vs.len() - j,
    {
        let mut i: usize = 0;
        while i < j
            invariant
                i <= j < vs.len(),
                forall|a: int, b: int| 0 <= a < b < vs@.len() && b < j ==> !pattern_eq(#[trigger] vs@[a].pat, #[trigger] vs@[b].pat),
                forall|a: int| 0 <= a < i ==> !pattern_eq(#[trigger] vs@[a].pat, vs@[j as int].pat),
            decreases j - i,
        {
            if vs[i].pat.same_as(&vs[j].pat) {
                return Some((i, j));
            }
            i = i + 1;
        }
        j = j + 1;
    }
    None
}

/// Finds the identity fields: `Ok(None)` when there is none, `Ok(Some(i))`
/// when field `i` is the only one, an error when there are several.
fn find_id_field(fields: &Vec<EStructField>) -> (r: Result<Option<usize>, RegistryError>)
    ensures
        r matches Ok(None) ==> forall|i: int| 0 <= i < fields@.len() ==> !(#[trigger] fields@[i]).is_id,
        r matches Ok(Some(i)) ==> i < fields@.len() && fields@[i as int].is_id
            && forall|j: int| 0 <= j < fields@.len() && j != i ==> !(#[trigger] fields@[j]).is_id,
        r matches Err(e) ==> e == RegistryError::DuplicateIdField
            && exists|i: int, j: int| 0 <= i < j < fields@.len() && (#[trigger] fields@[i]).is_id && (#[trigger] fields@[j]).is_id,
{
    let mut found: Option<usize> = None;
    let mut i: usize = 0;
    while i < fields.len()
        invariant
            i <= fields.len(),
            found is None ==> forall|k: int| 0 <= k < i ==> !(#[trigger] fields@[k]).is_id,
            found matches Some(f) ==> f < i && fields@[f as int].is_id
                && forall|k: int| 0 <= k < i && k != f ==> !(#[trigger] fields@[k]).is_id,
        decreases fields.len() - i,
    {
        if fields[i].is_id {
            match found {
                Some(f) => {
                    assert(fields@[f as int].is_id && fields@[i as int].is_id);
                    return Err(RegistryError::DuplicateIdField);
                },
                None => {
                    found = Some(i);
                },
            }
        }
        i = i + 1;
    }
    Ok(found)
}

impl ETypesRegistry {
    /// Registers a struct under the next identifier, after checking that it
    /// has at most one identity field and that this field is of the
    /// struct's own type.
    pub fn register_struct(&mut self, data: EStructData) -> (r: Result<ETypeId, RegistryError>)
        requires
            old(self).wf(),
        ensures
            final(self).wf(),
            r is Ok ==> {
                &&& r == Ok::<ETypeId, RegistryError>(ETypeId(old(self).objects().len() as usize))
                &&& final(self).objects() == old(self).objects().push(
                    EObject::Struct(EStructData { ident: ETypeId(old(self).objects().len() as usize), ..data }))
                &&& final(self).lists() == old(self).lists()
                &&& final(self).maps() == old(self).maps()
                &&& final(self).instances() == old(self).instances()
            },
            r is Ok <==> id_fields_valid(EStructData { ident: ETypeId(old(self).objects().len() as usize), ..data }),
            r matches Err(e) ==> *final(self) == *old(self) && (e == RegistryError::DuplicateIdField
                || e == RegistryError::IdFieldTypeMismatch),
    {
        let mut data = data;
        data.ident = ETypeId(self.objects.len());
        let id = find_id_field(&data.fields)?;
        if let Some(i) = id {
            let ok = match &data.fields[i].ty {
                EItemInfo::Specific { ty: EDataType::Object { ident }, .. } => ident.0 == data.ident.0,
                _ => false,
            };
            if !ok {
                return Err(RegistryError::IdFieldTypeMismatch);
            }
        }
        let ident = data.ident;
        self.objects.push(EObject::Struct(data));
        assert(self.instances() == old(self).instances());
        proof {
            assert forall|k: int| 0 <= k < self.objects().len() implies {
                &&& obj_ident(#[trigger] self.objects()[k]) == ETypeId(k as usize)
                &&& object_wf(self.objects()[k])
            } by {
                if k < old(self).objects().len() {
                    assert(self.objects()[k] == old(self).objects()[k]);
                }
            }
        }
        Ok(ident)
    }

    /// Registers an enum under the next identifier, after checking that it
    /// has variants and that no two of them share an equal pattern.
    pub fn register_enum(&mut self, data: EEnumData) -> (r: Result<ETypeId, RegistryError>)
        requires
            old(self).wf(),
        ensures
            final(self).wf(),
            r is Ok ==> {
                &&& r == Ok::<ETypeId, RegistryError>(ETypeId(old(self).objects().len() as usize))
                &&& final(self).objects() == old(self).objects().push(
                    EObject::Enum(EEnumData { ident: ETypeId(old(self).objects().len() as usize), ..data }))
                &&& final(self).lists() == old(self).lists()
                &&& final(self).maps() == old(self).maps()
                &&& final(self).instances() == old(self).instances()
            },
            r is Ok <==> data.variants@.len() > 0 && patterns_unique(data.variants@),
            r is Err ==> *final(self) == *old(self),
            data.variants@.len() == 0 ==> r == Err::<ETypeId, RegistryError>(RegistryError::EmptyEnum),
            r matches Err(RegistryError::DuplicatePattern(i, j)) ==> i < j < data.variants@.len()
                && pattern_eq(data.variants@[i as int].pat, data.variants@[j as int].pat),
            data.variants@.len() > 0 && r is Err ==> r->Err_0 is DuplicatePattern,
    {
        if data.variants.len() == 0 {
            return Err(RegistryError::EmptyEnum);
        }
        if let Some((i, j)) = find_duplicate_pattern(&data.variants) {
            return Err(RegistryError::DuplicatePattern(i, j));
        }
        let mut data = data;
        data.ident = ETypeId(self.objects.len());
        let ident = data.ident;
        self.objects.push(EObject::Enum(data));
        assert(self.instances() == old(self).instances());
        proof {
            assert forall|k: int| 0 <= k < self.objects().len() implies {
                &&& obj_ident(#[trigger] self.objects()[k]) == ETypeId(k as usize)
                &&& object_wf(self.objects()[k])
            } by {
                if k < old(self).objects().len() {
                    assert(self.objects()[k] == old(self).objects()[k]);
                }
            }
        }
        Ok(ident)
    }
}


impl ETypesRegistry {
    /// The list type of the given element type. Structurally equal element
    /// types share one identifier: an existing entry is returned, and only
    /// a new element type adds an entry.
    pub fn list_of(&mut self, ty: &EDataType) -> (r: EListId)
        requires
            old(self).wf(),
        ensures
            final(self).wf(),
            r.0 < final(self).lists().len(),
            type_eq(final(self).lists()[r.0 as int], *ty),
            forall|k: int| 0 <= k < r.0 ==> !type_eq(#[trigger] final(self).lists()[k], *ty),
            list_type_of(*final(self), *ty) == Some(r.0 as int),
            final(self).lists() == old(self).lists() || (final(self).lists() == old(self).lists().push(*ty)
                && list_type_of(*old(self), *ty) is None),
            (exists|k: int| 0 <= k < old(self).lists().len() && type_eq(#[trigger] old(self).lists()[k], *ty))
                ==> *final(self) == *old(self),
            !(exists|k: int| 0 <= k < old(self).lists().len() && type_eq(#[trigger] old(self).lists()[k], *ty))
                ==> final(self).lists() == old(self).lists().push(*ty)
                && final(self).objects() == old(self).objects() && final(self).maps() == old(self).maps()
                && final(self).instances() == old(self).instances(),
    {
        let mut k: usize = 0;
        while k < self.lists.len()
            invariant
                k <= self.lists@.len(),
                *self == *old(self),
                self.wf(),
                forall|j: int| 0 <= j < k ==> !type_eq(#[trigger] self.lists@[j], *ty),
            decreases self.lists.len() - k,
        {
            if self.lists[k].same_as(ty) {
                proof {
                    lemma_find_list_none_prefix(self.lists@, *ty, k as nat);
                    lemma_find_list_stable(self.lists@, *ty, (k + 1) as nat, self.lists@.len());
                }
                return EListId(k);
            }
            k = k + 1;
        }
        proof {
            lemma_find_list_none_prefix(self.lists@, *ty, self.lists@.len());
        }
        let id = EListId(self.lists.len());
        self.lists.push(ty.duplicate());
        proof {
            lemma_find_list_push(old(self).lists(), *ty, *ty, old(self).lists().len());
            assert(self.lists() == old(self).lists().push(*ty));
        }
        assert(self.objects() == old(self).objects());
        assert(self.instances() == old(self).instances());
        id
    }

    /// The map type of the given key and value types, deduplicated as
    /// [ETypesRegistry::list_of] does.
    pub fn map_of(&mut self, key: &EDataType, value: &EDataType) -> (r: EMapId)
        requires
            old(self).wf(),
        ensures
            final(self).wf(),
            r.0 < final(self).maps().len(),
            type_eq(final(self).maps()[r.0 as int].0, *key) && type_eq(final(self).maps()[r.0 as int].1, *value),
            forall|k: int| 0 <= k < r.0 ==> !(type_eq((#[trigger] final(self).maps()[k]).0, *key)
                && type_eq(final(self).maps()[k].1, *value)),
            (exists|k: int| 0 <= k < old(self).maps().len() && type_eq((#[trigger] old(self).maps()[k]).0, *key)
                && type_eq(old(self).maps()[k].1, *value)) ==> *final(self) == *old(self),
            !(exists|k: int| 0 <= k < old(self).maps().len() && type_eq((#[trigger] old(self).maps()[k]).0, *key)
                && type_eq(old(self).maps()[k].1, *value))
                ==> final(self).maps() == old(self).maps().push((*key, *value))
                && final(self).objects() == old(self).objects() && final(self).lists() == old(self).lists()
                && final(self).instances() == old(self).instances(),
    {
        let mut k: usize = 0;
        while k < self.maps.len()
            invariant
                k <= self.maps@.len(),
                *self == *old(self),
                self.wf(),
                forall|j: int| 0 <= j < k ==> !(type_eq((#[trigger] self.maps@[j]).0, *key) && type_eq(self.maps@[j].1, *value)),
            decreases self.maps.len() - k,
        {
            if self.maps[k].0.same_as(key) && self.maps[k].1.same_as(value) {
                return EMapId(k);
            }
            k = k + 1;
        }
        let id = EMapId(self.maps.len());
        self.maps.push((key.duplicate(), value.duplicate()));
        assert(self.objects() == old(self).objects());
        assert(self.instances() == old(self).instances());
        id
    }

    /// The element type of a list type.
    pub fn get_list(&self, id: EListId) -> (r: Result<&EDataType, RegistryError>)
        ensures
            id.0 < self.lists().len() ==> r == Ok::<&EDataType, RegistryError>(&self.lists()[id.0 as int]),
            id.0 >= self.lists().len() ==> r == Err::<&EDataType, RegistryError>(RegistryError::UnknownList(id)),
    {
        if id.0 < self.lists.len() {
            Ok(&self.lists[id.0])
        } else {
            Err(RegistryError::UnknownList(id))
        }
    }

    /// The key and value types of a map type.
    pub fn get_map(&self, id: EMapId) -> (r: Result<&(EDataType, EDataType), RegistryError>)
        ensures
            id.0 < self.maps().len() ==> r == Ok::<&(EDataType, EDataType), RegistryError>(&self.maps()[id.0 as int]),
            id.0 >= self.maps().len() ==> r == Err::<&(EDataType, EDataType), RegistryError>(RegistryError::UnknownMap(id)),
    {
        if id.0 < self.maps.len() {
            Ok(&self.maps[id.0])
        } else {
            Err(RegistryError::UnknownMap(id))
        }
    }
}

/// The field is of the struct type `ident`.
pub open spec fn own_type_field(field: EStructField, ident: ETypeId) -> bool {
    field.ty is Specific && field.ty->Specific_ty == (EDataType::Object { ident })
}

impl EStructData {
    /// A struct definition without fields.
    pub fn new(ident: ETypeId, generic_arguments: Vec<String>) -> (r: EStructData)
        ensures
            r.ident == ident,
            r.generic_arguments == generic_arguments,
            r.fields@.len() == 0,
    {
        EStructData { generic_arguments, ident, fields: Vec::new() }
    }

    /// Appends a field. An identity field must be the only one and of the
    /// struct's own type; otherwise the field is refused and the struct
    /// stays as it was.
    pub fn add_field(&mut self, field: EStructField) -> (r: Result<(), RegistryError>)
        ensures
            final(self).ident == old(self).ident,
            final(self).generic_arguments == old(self).generic_arguments,
            !field.is_id ==> r is Ok,
            field.is_id && (exists|i: int| 0 <= i < old(self).fields@.len() && (#[trigger] old(self).fields@[i]).is_id) ==> r
                == Err::<(), RegistryError>(RegistryError::DuplicateIdField),
            field.is_id && !(exists|i: int| 0 <= i < old(self).fields@.len() && (#[trigger] old(self).fields@[i]).is_id) ==> (
            r is Ok <==> own_type_field(field, old(self).ident)),
            r is Ok ==> final(self).fields@ == old(self).fields@.push(field),
            r is Err ==> *final(self) == *old(self),
    {
        if field.is_id {
            let mut i: usize = 0;
            while i < self.fields.len()
                invariant
                    i <= self.fields@.len(),
                    forall|q: int| 0 <= q < i ==> !(#[trigger] self.fields@[q]).is_id,
                    field.is_id,
                    *self == *old(self),
                decreases self.fields.len() - i,
            {
                if self.fields[i].is_id {
                    return Err(RegistryError::DuplicateIdField);
                }
                i = i + 1;
            }
            let own = match &field.ty {
                EItemInfo::Specific { ty: EDataType::Object { ident }, .. } => ident.0 == self.ident.0,
                _ => false,
            };
            if !own {
                return Err(RegistryError::IdFieldTypeMismatch);
            }
        }
        self.fields.push(field);
        Ok(())
    }

    /// The identity field, if the struct has one.
    pub fn id_field(&self) -> (r: Option<&EStructField>)
        ensures
            r matches Some(f) ==> exists|i: int| 0 <= i < self.fields@.len() && self.fields@[i] == *f && f.is_id,
            r is None ==> forall|i: int| 0 <= i < self.fields@.len() ==> !(#[trigger] self.fields@[i]).is_id,
    {
        let mut i: usize = 0;
        while i < self.fields.len()
            invariant
                i <= self.fields@.len(),
                forall|q: int| 0 <= q < i ==> !(#[trigger] self.fields@[q]).is_id,
            decreases self.fields.len() - i,
        {
            if self.fields[i].is_id {
                return Some(&self.fields[i]);
            }
            i = i + 1;
        }
        None
    }
}

impl EEnumVariant {
    pub fn new(name: String, pat: EnumPattern, data: EItemInfo) -> (r: EEnumVariant)
        ensures
            r.name == name,
            r.pat == pat,
            r.data == data,
    {
        EEnumVariant { name, pat, data }
    }

    /// The variant `null`, matched by and holding the null constant.
    pub fn null() -> (r: EEnumVariant)
        ensures
            r.name@ == "null"@,
            r.pat == EnumPattern::Const(ETypeConst::Null),
            r.data matches EItemInfo::Specific { ty: EDataType::Const { value: ETypeConst::Null }, .. },
    {
        EEnumVariant {
            name: String::from_str("null"),
            pat: EnumPattern::Const(ETypeConst::Null),
            data: EItemInfo::Specific { ty: EDataType::Const { value: ETypeConst::Null }, extra_properties: Vec::new() },
        }
    }
}

impl EEnumData {
    /// An enum definition without variants.
    pub fn new(ident: ETypeId, generic_arguments: Vec<String>, tagged_repr: Option<Tagged>) -> (r: EEnumData)
        ensures
            r.ident == ident,
            r.generic_arguments == generic_arguments,
            r.tagged_repr == tagged_repr,
            r.variants@.len() == 0,
    {
        EEnumData { generic_arguments, ident, tagged_repr, variants: Vec::new() }
    }

    /// Appends a variant; patterns are checked when the enum is registered.
    pub fn add_variant(&mut self, variant: EEnumVariant)
        ensures
            final(self).variants@ == old(self).variants@.push(variant),
            final(self).ident == old(self).ident,
            final(self).tagged_repr == old(self).tagged_repr,
            final(self).generic_arguments == old(self).generic_arguments,
    {
        self.variants.push(variant);
    }
}

/// Position of the first of the first `n` list types whose item type equals `item`.
pub open spec fn find_list_in(lists: Seq<EDataType>, item: EDataType, n: nat) -> Option<int>
    decreases n,
{
    if n == 0 || n > lists.len() {
        None
    } else {
        match find_list_in(lists, item, (n - 1) as nat) {
            Some(k) => Some(k),
            None => if type_eq(lists[n - 1], item) { Some(n - 1) } else { None },
        }
    }
}

proof fn lemma_find_list_none_prefix(lists: Seq<EDataType>, item: EDataType, n: nat)
    requires
        n <= lists.len(),
        forall|q: int| 0 <= q < n ==> !type_eq(#[trigger] lists[q], item),
    ensures
        find_list_in(lists, item, n) is None,
    decreases n,
{
    if n > 0 {
        lemma_find_list_none_prefix(lists, item, (n - 1) as nat);
    }
}

/// The registered list type of an item type, if any.
pub open spec fn list_type_of(reg: ETypesRegistry, item: EDataType) -> Option<int> {
    find_list_in(reg.lists(), item, reg.lists().len())
}

pub proof fn lemma_find_list_stable(lists: Seq<EDataType>, item: EDataType, k: nat, n: nat)
    requires
        k <= n <= lists.len(),
        find_list_in(lists, item, k) is Some,
    ensures
        find_list_in(lists, item, n) == find_list_in(lists, item, k),
    decreases n - k,
{
    if n > k {
        lemma_find_list_stable(lists, item, k, (n - 1) as nat);
    }
}

/// A found list type stays found at the same place when lists are appended.
pub proof fn lemma_find_list_push(lists: Seq<EDataType>, t: EDataType, item: EDataType, n: nat)
    requires
        n <= lists.len(),
    ensures
        find_list_in(lists.push(t), item, n) == find_list_in(lists, item, n),
    decreases n,
{
    if n > 0 {
        lemma_find_list_push(lists, t, item, (n - 1) as nat);
        assert(lists.push(t)[n - 1] == lists[n - 1]);
    }
}

impl ETypesRegistry {
    /// The list type of an item type, when one is registered.
    pub fn find_list(&self, item: &EDataType) -> (r: Option<EListId>)
        ensures
            match list_type_of(*self, *item) {
                Some(k) => r == Some(EListId(k as usize)) && 0 <= k < self.lists().len(),
                None => r is None,
            },
    {
        let mut k: usize = 0;
        while k < self.lists.len()
            invariant
                k <= self.lists@.len(),
                find_list_in(self.lists@, *item, k as nat) is None,
            decreases self.lists.len() - k,
        {
            if self.lists[k].same_as(item) {
                proof {
                    lemma_find_list_stable(self.lists@, *item, (k + 1) as nat, self.lists@.len());
                }
                return Some(EListId(k));
            }
            k = k + 1;
        }
        None
    }

    /// After registering a list type, every list type found before is
    /// found at the same place, and the item's own is found.
    pub proof fn lemma_list_of_keeps(old: ETypesRegistry, new: ETypesRegistry, added: EDataType, item: EDataType)
        requires
            new.lists() == old.lists() || new.lists() == old.lists().push(added),
            new.lists() == old.lists().push(added) ==> list_type_of(old, added) is None,
        ensures
            list_type_of(old, item) is Some ==> list_type_of(new, item) == list_type_of(old, item),
    {
        if new.lists() == old.lists().push(added) && list_type_of(old, item) is Some {
            lemma_find_list_push(old.lists(), added, item, old.lists().len());
            lemma_find_list_stable(new.lists(), item, old.lists().len(), new.lists().len());
        }
    }
}

} // verus!
