use crate::registry::{
    object_wf, obj_ident, patterns_unique, tagged_eq, EEnumData, EEnumVariant, EItemInfo, EObject,
    EStructData, EStructField, ETypesRegistry, EnumPattern, RegistryError, Tagged,
};
use crate::types::{type_eq, EDataType, ETypeConst, ETypeId};
use vstd::prelude::*;

verus! {

/// Position of the first argument named `name` among the first `n`.
pub open spec fn find_arg(args: Seq<(String, EDataType)>, name: Seq<char>, n: nat) -> Option<int>
    decreases n,
{
    if n == 0 || n > args.len() {
        None
    } else {
        match find_arg(args, name, (n - 1) as nat) {
            Some(k) => Some(k),
            None => if args[n - 1].0@ == name { Some(n - 1) } else { None },
        }
    }
}

pub open spec fn arg_of(args: Seq<(String, EDataType)>, name: Seq<char>) -> Option<int> {
    find_arg(args, name, args.len())
}

/// Two argument lists name the same parameters, in order, with
/// structurally equal types.
pub open spec fn args_eq(a: Seq<(String, EDataType)>, b: Seq<(String, EDataType)>) -> bool {
    &&& a.len() == b.len()
    &&& forall|i: int| 0 <= i < a.len() ==> (#[trigger] a[i]).0@ == b[i].0@ && type_eq(a[i].1, b[i].1)
}

/// Position of the first memoized instantiation of `def` with arguments
/// equal to `args`, among the first `n` entries.
pub open spec fn find_instance(
    insts: Seq<(ETypeId, Vec<(String, EDataType)>, ETypeId)>,
    def: ETypeId,
    args: Seq<(String, EDataType)>,
    n: nat,
) -> Option<int>
    decreases n,
{
    if n == 0 || n > insts.len() {
        None
    } else {
        match find_instance(insts, def, args, (n - 1) as nat) {
            Some(k) => Some(k),
            None => if insts[n - 1].0 == def && args_eq(insts[n - 1].1@, args) {
                Some(n - 1)
            } else {
                None
            },
        }
    }
}

/// The memoized instance of `def` for `args`, if any.
pub open spec fn instance_lookup(reg: ETypesRegistry, def: ETypeId, args: Seq<(String, EDataType)>) -> Option<ETypeId> {
    match find_instance(reg.instances(), def, args, reg.instances().len()) {
        Some(k) => Some(reg.instances()[k].2),
        None => None,
    }
}

/// A payload type can be instantiated: it is concrete, or its parameter is
/// among the arguments.
pub open spec fn item_resolves(item: EItemInfo, args: Seq<(String, EDataType)>) -> bool {
    match item {
        EItemInfo::Specific { .. } => true,
        EItemInfo::Generic { argument_name, .. } => arg_of(args, argument_name@) is Some,
    }
}

/// `new` is `old` with its parameter, if any, replaced by its argument.
/// The extra properties of a payload type.
pub open spec fn props_of(item: EItemInfo) -> Seq<(String, ETypeConst)> {
    match item {
        EItemInfo::Specific { extra_properties, .. } => extra_properties@,
        EItemInfo::Generic { extra_properties, .. } => extra_properties@,
    }
}

pub open spec fn item_subst(old: EItemInfo, args: Seq<(String, EDataType)>, new: EItemInfo) -> bool {
    &&& new is Specific
    &&& props_of(new) == props_of(old)
    &&& match old {
        EItemInfo::Specific { ty, .. } => type_eq(new->Specific_ty, ty),
        EItemInfo::Generic { argument_name, .. } => match arg_of(args, argument_name@) {
            Some(k) => type_eq(new->Specific_ty, args[k].1),
            None => false,
        },
    }
}

/// `pat` is the pattern that selects a variant named `name` with payload
/// type `ty`: its tag under a tagging mode, else the shape of the type.
pub open spec fn pattern_fits(reg: ETypesRegistry, repr: Option<Tagged>, name: String, ty: EDataType, pat: EnumPattern) -> bool {
    match repr {
        Some(r) => pat is Tagged && tagged_eq(pat->repr, r) && pat->tag@ == name@,
        None => match ty {
            EDataType::Boolean => pat is Boolean,
            EDataType::Number => pat is Number,
            EDataType::String => pat is String,
            EDataType::Const { value } => pat is Const && crate::types::const_eq(pat->Const_0, value),
            EDataType::Object { ident } => {
                &&& ident.0 < reg.objects().len()
                &&& reg.objects()[ident.0 as int] is Struct
                &&& pat is Fields
                &&& pat->Fields_0@.len() == reg.objects()[ident.0 as int]->Struct_0.fields@.len()
                &&& forall|i: int| 0 <= i < pat->Fields_0@.len() ==> (#[trigger] pat->Fields_0@[i])@
                    == reg.objects()[ident.0 as int]->Struct_0.fields@[i].name@
            },
            _ => false,
        },
    }
}

/// `new` is the instance of definition `old` for `args` under identifier
/// `id`: every parameter is replaced by its argument, names, order and
/// identity markers are kept, and a variant whose payload was a parameter
/// gets the pattern of its new payload.
pub open spec fn instance_of(reg: ETypesRegistry, old: EObject, args: Seq<(String, EDataType)>, new: EObject, id: ETypeId) -> bool {
    match (old, new) {
        (EObject::Struct(s), EObject::Struct(t)) => {
            &&& t.ident == id
            &&& t.generic_arguments@.len() == 0
            &&& t.fields@.len() == s.fields@.len()
            &&& forall|i: int| 0 <= i < s.fields@.len() ==> {
                &&& (#[trigger] t.fields@[i]).name@ == s.fields@[i].name@
                &&& t.fields@[i].is_id == s.fields@[i].is_id
                &&& if s.fields@[i].is_id {
                    t.fields@[i].ty is Specific && t.fields@[i].ty->Specific_ty == (EDataType::Object { ident: id })
                        && props_of(t.fields@[i].ty) == props_of(s.fields@[i].ty)
                } else {
                    item_subst(s.fields@[i].ty, args, t.fields@[i].ty)
                }
            }
        },
        (EObject::Enum(e), EObject::Enum(f)) => {
            &&& f.ident == id
            &&& f.generic_arguments@.len() == 0
            &&& f.tagged_repr == e.tagged_repr
            &&& f.variants@.len() == e.variants@.len()
            &&& forall|i: int| 0 <= i < e.variants@.len() ==> {
                &&& (#[trigger] f.variants@[i]).name == e.variants@[i].name
                &&& item_subst(e.variants@[i].data, args, f.variants@[i].data)
                &&& if e.variants@[i].data is Generic {
                    pattern_fits(reg, e.tagged_repr, f.variants@[i].name, f.variants@[i].data->Specific_ty, f.variants@[i].pat)
                } else {
                    crate::registry::pattern_eq(f.variants@[i].pat, e.variants@[i].pat)
                }
            }
        },
        _ => false,
    }
}

/// Field `i` is the first whose parameter has no argument.
pub open spec fn first_failing_field(s: EStructData, args: Seq<(String, EDataType)>, i: int) -> bool {
    &&& 0 <= i < s.fields@.len()
    &&& !item_resolves(s.fields@[i].ty, args)
    &&& forall|j: int| 0 <= j < i ==> item_resolves((#[trigger] s.fields@[j]).ty, args)
}

/// A pattern can be given to a variant of payload type `ty`.
pub open spec fn pattern_computable(reg: ETypesRegistry, repr: Option<Tagged>, ty: EDataType) -> bool {
    repr is Some || ty is Boolean || ty is Number || ty is String || ty is Const || (ty is Object && ty->ident.0
        < reg.objects().len() && reg.objects()[ty->ident.0 as int] is Struct)
}

/// Variant `i` can be instantiated: its parameter has an argument, of a type
/// that a pattern can be given for.
pub open spec fn variant_ok(reg: ETypesRegistry, e: EEnumData, args: Seq<(String, EDataType)>, i: int) -> bool {
    &&& item_resolves(e.variants@[i].data, args)
    &&& e.variants@[i].data is Generic ==> pattern_computable(
        reg,
        e.tagged_repr,
        args[arg_of(args, e.variants@[i].data->argument_name@)->Some_0].1,
    )
}

/// Variant `i` is the first that cannot be instantiated.
pub open spec fn first_failing_variant(reg: ETypesRegistry, e: EEnumData, args: Seq<(String, EDataType)>, i: int) -> bool {
    &&& 0 <= i < e.variants@.len()
    &&& !variant_ok(reg, e, args, i)
    &&& forall|j: int| 0 <= j < i ==> #[trigger] variant_ok(reg, e, args, j)
}

/// Position of the argument named `name`.
fn lookup_arg(args: &Vec<(String, EDataType)>, name: &String) -> (r: Option<usize>)
    ensures
        r matches Some(k) ==> arg_of(args@, name@) == Some(k as int) && k < args@.len(),
        r is None ==> arg_of(args@, name@) is None,
{
    let mut i: usize = 0;
    while i < args.len()
        invariant
            i <= args@.len(),
            find_arg(args@, name@, i as nat) is None,
        decreases args.len() - i,
    {
        if args[i].0 == *name {
            proof {
                lemma_find_arg_stable(args@, name@, (i + 1) as nat, args@.len());
            }
            return Some(i);
        }
        i = i + 1;
    }
    None
}

proof fn lemma_find_arg_stable(args: Seq<(String, EDataType)>, name: Seq<char>, k: nat, n: nat)
    requires
        k <= n <= args.len(),
        find_arg(args, name, k) is Some,
    ensures
        find_arg(args, name, n) == find_arg(args, name, k),
    decreases n - k,
{
    if n > k {
        lemma_find_arg_stable(args, name, k, (n - 1) as nat);
    }
}

proof fn lemma_find_instance_stable(
    insts: Seq<(ETypeId, Vec<(String, EDataType)>, ETypeId)>,
    def: ETypeId,
    args: Seq<(String, EDataType)>,
    k: nat,
    n: nat,
)
    requires
        k <= n <= insts.len(),
        find_instance(insts, def, args, k) is Some,
    ensures
        find_instance(insts, def, args, n) == find_instance(insts, def, args, k),
    decreases n - k,
{
    if n > k {
        lemma_find_instance_stable(insts, def, args, k, (n - 1) as nat);
    }
}

/// Whether two argument lists are equal.
fn same_args(a: &Vec<(String, EDataType)>, b: &Vec<(String, EDataType)>) -> (r: bool)
    ensures
        r == args_eq(a@, b@),
{
    if a.len() != b.len() {
        return false;
    }
    let mut i: usize = 0;
    while i < a.len()
        invariant
            i <= a@.len() == b@.len(),
            forall|j: int| 0 <= j < i ==> (#[trigger] a@[j]).0@ == b@[j].0@ && type_eq(a@[j].1, b@[j].1),
        decreases a.len() - i,
    {
        if !(a[i].0 == b[i].0 && a[i].1.same_as(&b[i].1)) {
            return false;
        }
        i = i + 1;
    }
    true
}

/// Copies an argument list.
fn copy_args(a: &Vec<(String, EDataType)>) -> (r: Vec<(String, EDataType)>)
    ensures
        r@ == a@,
{
    let mut out: Vec<(String, EDataType)> = Vec::new();
    let mut i: usize = 0;
    while i < a.len()
        invariant
            i <= a@.len(),
            out@ == a@.subrange(0, i as int),
        decreases a.len() - i,
    {
        out.push((a[i].0.clone(), a[i].1.duplicate()));
        assert(out@ =~= a@.subrange(0, i + 1));
        i = i + 1;
    }
    assert(out@ =~= a@);
    out
}

/// Copies a list of extra properties.
fn copy_props(a: &Vec<(String, ETypeConst)>) -> (r: Vec<(String, ETypeConst)>)
    ensures
        r@ == a@,
{
    let mut out: Vec<(String, ETypeConst)> = Vec::new();
    let mut i: usize = 0;
    while i < a.len()
        invariant
            i <= a@.len(),
            out@ == a@.subrange(0, i as int),
        decreases a.len() - i,
    {
        out.push((a[i].0.clone(), a[i].1.duplicate()));
        assert(out@ =~= a@.subrange(0, i + 1));
        i = i + 1;
    }
    assert(out@ =~= a@);
    out
}

/// Replaces the parameter of a payload type by its argument.
fn subst_item(item: &EItemInfo, args: &Vec<(String, EDataType)>) -> (r: Result<EItemInfo, RegistryError>)
    ensures
        r is Ok <==> item_resolves(*item, args@),
        r matches Ok(n) ==> item_subst(*item, args@, n),
        r matches Err(e) ==> item is Generic && e == RegistryError::MissingGenericArgument(item->argument_name),
        item is Generic ==> (r matches Ok(n) ==> n->Specific_ty == args@[arg_of(args@, item->argument_name@)->Some_0].1),
{
    match item {
        EItemInfo::Specific { ty, extra_properties } => Ok(EItemInfo::Specific {
            ty: ty.duplicate(),
            extra_properties: copy_props(extra_properties),
        }),
        EItemInfo::Generic { argument_name, extra_properties } => match lookup_arg(args, argument_name) {
            Some(k) => Ok(EItemInfo::Specific { ty: args[k].1.duplicate(), extra_properties: copy_props(extra_properties) }),
            None => Err(RegistryError::MissingGenericArgument(argument_name.clone())),
        },
    }
}

} // verus!

verus! {

/// The pattern of a variant with the given name and payload type.
fn pattern_for(reg: &ETypesRegistry, repr: &Option<Tagged>, name: &String, ty: &EDataType, index: usize) -> (r: Result<EnumPattern, RegistryError>)
    ensures
        r matches Ok(p) ==> pattern_fits(*reg, *repr, *name, *ty, p),
        r matches Err(e) ==> e == RegistryError::NoPatternForVariant(index),
        r is Err <==> repr is None && !(ty is Boolean || ty is Number || ty is String || ty is Const
            || (ty is Object && ty->ident.0 < reg.objects().len() && reg.objects()[ty->ident.0 as int] is Struct)),
{
    if let Some(t) = repr {
        let t2 = match t {
            Tagged::External => Tagged::External,
            Tagged::Internal { tag_field } => Tagged::Internal { tag_field: tag_field.clone() },
            Tagged::Adjacent { tag_field, content_field } => Tagged::Adjacent {
                tag_field: tag_field.clone(),
                content_field: content_field.clone(),
            },
        };
        return Ok(EnumPattern::Tagged { repr: t2, tag: name.clone() });
    }
    match ty {
        EDataType::Boolean => Ok(EnumPattern::Boolean),
        EDataType::Number => Ok(EnumPattern::Number),
        EDataType::String => Ok(EnumPattern::String),
        EDataType::Const { value } => Ok(EnumPattern::Const(value.duplicate())),
        EDataType::Object { ident } => {
            if ident.0 >= reg.object_count() {
                return Err(RegistryError::NoPatternForVariant(index));
            }
            match reg.get_object(*ident) {
                Ok(EObject::Struct(s)) => {
                    let mut names: Vec<String> = Vec::new();
                    let mut i: usize = 0;
                    while i < s.fields.len()
                        invariant
                            i <= s.fields@.len(),
                            names@.len() == i,
                            forall|k: int| 0 <= k < i ==> (#[trigger] names@[k])@ == s.fields@[k].name@,
                        decreases s.fields.len() - i,
                    {
                        names.push(s.fields[i].name.clone());
                        i = i + 1;
                    }
                    Ok(EnumPattern::Fields(names))
                },
                _ => Err(RegistryError::NoPatternForVariant(index)),
            }
        },
        _ => Err(RegistryError::NoPatternForVariant(index)),
    }
}

} // verus!

verus! {

proof fn lemma_find_instance_push(
    insts: Seq<(ETypeId, Vec<(String, EDataType)>, ETypeId)>,
    x: (ETypeId, Vec<(String, EDataType)>, ETypeId),
    def: ETypeId,
    args: Seq<(String, EDataType)>,
    n: nat,
)
    requires
        n <= insts.len(),
    ensures
        find_instance(insts.push(x), def, args, n) == find_instance(insts, def, args, n),
    decreases n,
{
    if n > 0 {
        lemma_find_instance_push(insts, x, def, args, (n - 1) as nat);
        assert(insts.push(x)[n - 1] == insts[n - 1]);
    }
}

/// Type equality is reflexive.
pub proof fn lemma_type_eq_refl(t: EDataType)
    ensures
        type_eq(t, t),
{
}

impl ETypesRegistry {
    /// Instantiates a generic definition with concrete arguments. The result
    /// is memoized by definition and arguments: asking again with equal
    /// arguments returns the same identifier and changes nothing.
    pub fn instantiate_generic(&mut self, def: ETypeId, args: &Vec<(String, EDataType)>) -> (r: Result<ETypeId, RegistryError>)
        requires
            old(self).wf(),
        ensures
            final(self).wf(),
            instance_lookup(*old(self), def, args@) matches Some(id) ==> r == Ok::<ETypeId, RegistryError>(id)
                && *final(self) == *old(self),
            r matches Ok(id) ==> instance_lookup(*final(self), def, args@) == Some(id)
                && id.0 < final(self).objects().len(),
            instance_lookup(*old(self), def, args@) is None && r is Ok ==> {
                &&& r->Ok_0.0 == old(self).objects().len()
                &&& final(self).objects() == old(self).objects().push(final(self).objects()[r->Ok_0.0 as int])
                &&& instance_of(*old(self), old(self).objects()[def.0 as int], args@, final(self).objects()[r->Ok_0.0 as int], r->Ok_0)
                &&& final(self).lists() == old(self).lists()
                &&& final(self).maps() == old(self).maps()
            },
            instance_lookup(*old(self), def, args@) is None && def.0 >= old(self).objects().len()
                ==> r == Err::<ETypeId, RegistryError>(RegistryError::UnknownType(def)),
            instance_lookup(*old(self), def, args@) is None && def.0 < old(self).objects().len()
                && old(self).objects()[def.0 as int] is Struct ==> (r is Ok <==> forall|i: int|
                    0 <= i < old(self).objects()[def.0 as int]->Struct_0.fields@.len()
                    ==> item_resolves((#[trigger] old(self).objects()[def.0 as int]->Struct_0.fields@[i]).ty, args@)),
            r matches Err(RegistryError::MissingGenericArgument(name)) ==> arg_of(args@, name@) is None,
            r is Err ==> *final(self) == *old(self),
            instance_lookup(*old(self), def, args@) is None && def.0 < old(self).objects().len()
                && old(self).objects()[def.0 as int] is Struct ==> forall|i: int| first_failing_field(
                old(self).objects()[def.0 as int]->Struct_0,
                args@,
                i,
            ) ==> r == Err::<ETypeId, RegistryError>(
                RegistryError::MissingGenericArgument(old(self).objects()[def.0 as int]->Struct_0.fields@[i].ty->argument_name),
            ),
            instance_lookup(*old(self), def, args@) is None && def.0 < old(self).objects().len()
                && old(self).objects()[def.0 as int] is Enum ==> {
                let e = old(self).objects()[def.0 as int]->Enum_0;
                &&& forall|i: int| first_failing_variant(*old(self), e, args@, i) ==> r == Err::<ETypeId, RegistryError>(
                    if item_resolves(e.variants@[i].data, args@) {
                        RegistryError::NoPatternForVariant(i as usize)
                    } else {
                        RegistryError::MissingGenericArgument(e.variants@[i].data->argument_name)
                    },
                )
                &&& (forall|i: int| 0 <= i < e.variants@.len() ==> variant_ok(*old(self), e, args@, i)) ==> (r is Ok
                    || r matches Err(RegistryError::DuplicatePattern(_, _)))
            },
    {
        let insts = self.instance_entries();
        let mut i: usize = 0;
        while i < insts.len()
            invariant
                i <= insts@.len(),
                insts@ == self.instances(),
                find_instance(insts@, def, args@, i as nat) is None,
                *self == *old(self),
                self.wf(),
            decreases insts.len() - i,
        {
            if insts[i].0.0 == def.0 && same_args(&insts[i].1, args) {
                proof {
                    lemma_find_instance_stable(insts@, def, args@, (i + 1) as nat, insts@.len());
                }
                return Ok(insts[i].2);
            }
            i = i + 1;
        }
        let new_id = self.next_id();
        let obj = self.get_object(def)?;
        let new_obj = match obj {
            EObject::Struct(s) => {
                let mut fields: Vec<EStructField> = Vec::new();
                let mut k: usize = 0;
                while k < s.fields.len()
                    invariant
                        k <= s.fields@.len(),
                        fields@.len() == k,
                        *obj == EObject::Struct(*s),
                        *self == *old(self),
                        self.wf(),
                        instance_lookup(*old(self), def, args@) is None,
                        def.0 < self.objects().len(),
                        *obj == self.objects()[def.0 as int],
                        new_id.0 == self.objects().len(),

                        forall|j: int| 0 <= j < k ==> {
                            &&& (#[trigger] fields@[j]).name@ == s.fields@[j].name@
                            &&& fields@[j].is_id == s.fields@[j].is_id
                            &&& if s.fields@[j].is_id {
                                fields@[j].ty is Specific && fields@[j].ty->Specific_ty == (EDataType::Object { ident: new_id })
                                    && props_of(fields@[j].ty) == props_of(s.fields@[j].ty)
                            } else {
                                item_subst(s.fields@[j].ty, args@, fields@[j].ty)
                            }
                        },
                        forall|j: int| 0 <= j < k ==> item_resolves((#[trigger] s.fields@[j]).ty, args@),
                    decreases s.fields.len() - k,
                {
                    let f = &s.fields[k];
                    let ty = if f.is_id {
                        match subst_item(&f.ty, args) {
                            Ok(_) => {},
                            Err(e) => {
                                return Err(e);
                            },
                        }
                        EItemInfo::Specific { ty: EDataType::Object { ident: new_id }, extra_properties: copy_props(f.ty.extra_properties()) }
                    } else {
                        match subst_item(&f.ty, args) {
                            Ok(t) => t,
                            Err(e) => {
                                return Err(e);
                            },
                        }
                    };
                    fields.push(EStructField { name: f.name.clone(), ty, is_id: f.is_id });
                    k = k + 1;
                }
                EObject::Struct(EStructData { generic_arguments: Vec::new(), ident: new_id, fields })
            },
            EObject::Enum(e) => {
                let mut variants: Vec<EEnumVariant> = Vec::new();
                let mut k: usize = 0;
                while k < e.variants.len()
                    invariant
                        k <= e.variants@.len(),
                        variants@.len() == k,
                        forall|j: int| 0 <= j < k ==> #[trigger] variant_ok(*self, *e, args@, j),
                        *obj == EObject::Enum(*e),
                        *self == *old(self),
                        self.wf(),
                        instance_lookup(*old(self), def, args@) is None,
                        def.0 < self.objects().len(),
                        *obj == self.objects()[def.0 as int],
                        new_id.0 == self.objects().len(),

                        forall|j: int| 0 <= j < k ==> {
                            &&& (#[trigger] variants@[j]).name == e.variants@[j].name
                            &&& item_subst(e.variants@[j].data, args@, variants@[j].data)
                            &&& if e.variants@[j].data is Generic {
                                pattern_fits(*self, e.tagged_repr, variants@[j].name, variants@[j].data->Specific_ty, variants@[j].pat)
                            } else {
                                crate::registry::pattern_eq(variants@[j].pat, e.variants@[j].pat)
                            }
                        },
                    decreases e.variants.len() - k,
                {
                    let v = &e.variants[k];
                    let data = match subst_item(&v.data, args) {
                        Ok(t) => t,
                        Err(x) => {
                            proof {
                                assert(!variant_ok(*self, *e, args@, k as int));
                                assert forall|i: int| first_failing_variant(*old(self), *e, args@, i) implies i == k by {
                                    if i < k {
                                        assert(variant_ok(*self, *e, args@, i));
                                    } else if i > k {
                                        assert(variant_ok(*old(self), *e, args@, k as int));
                                    }
                                }
                            }
                            return Err(x);
                        },
                    };
                    let pat = match &v.data {
                        EItemInfo::Generic { .. } => {
                            let ty = match &data {
                                EItemInfo::Specific { ty, .. } => ty,
                                EItemInfo::Generic { .. } => {
                                    return Err(RegistryError::NoPatternForVariant(k));
                                },
                            };
                            match pattern_for(self, &e.tagged_repr, &v.name, ty, k) {
                                Ok(p) => p,
                                Err(x) => {
                                    proof {
                                        assert(!variant_ok(*self, *e, args@, k as int));
                                        assert forall|i: int| first_failing_variant(*old(self), *e, args@, i) implies i == k by {
                                            if i < k {
                                                assert(variant_ok(*self, *e, args@, i));
                                            } else if i > k {
                                                assert(variant_ok(*old(self), *e, args@, k as int));
                                            }
                                        }
                                    }
                                    return Err(x);
                                },
                            }
                        },
                        EItemInfo::Specific { .. } => v.pat.duplicate(),
                    };
                    variants.push(EEnumVariant { name: v.name.clone(), pat, data });
                    k = k + 1;
                }
                if let Some((a, b)) = crate::registry::find_duplicate_pattern(&variants) {
                    return Err(RegistryError::DuplicatePattern(a, b));
                }
                let repr = match &e.tagged_repr {
                    Some(t) => Some(t.duplicate()),
                    None => None,
                };
                EObject::Enum(EEnumData { generic_arguments: Vec::new(), ident: new_id, tagged_repr: repr, variants })
            },
        };
        self.push_object(new_obj);
        let saved = copy_args(args);
        self.push_instance(def, saved, new_id);
        proof {
            let old_insts = old(self).instances();
            lemma_find_instance_push(old_insts, (def, saved, new_id), def, args@, old_insts.len());
            assert forall|j: int| 0 <= j < args@.len() implies (#[trigger] saved@[j]).0@ == args@[j].0@
                && type_eq(saved@[j].1, args@[j].1) by {
                lemma_type_eq_refl(args@[j].1);
            }
            assert(self.instances() =~= old_insts.push((def, saved, new_id)));
        }
        Ok(new_id)
    }
}

} // verus!

verus! {

proof fn lemma_args_eq_swap(e: Seq<(String, EDataType)>, a1: Seq<(String, EDataType)>, a2: Seq<(String, EDataType)>)
    requires
        args_eq(a1, a2),
    ensures
        args_eq(e, a1) <==> args_eq(e, a2),
{
    if args_eq(e, a1) {
        assert forall|i: int| 0 <= i < e.len() implies (#[trigger] e[i]).0@ == a2[i].0@ && type_eq(e[i].1, a2[i].1) by {
            assert(a1[i].0@ == a2[i].0@ && type_eq(a1[i].1, a2[i].1));
        }
    }
    if args_eq(e, a2) {
        assert forall|i: int| 0 <= i < e.len() implies (#[trigger] e[i]).0@ == a1[i].0@ && type_eq(e[i].1, a1[i].1) by {
            assert(a1[i].0@ == a2[i].0@ && type_eq(a1[i].1, a2[i].1));
        }
    }
}

proof fn lemma_find_instance_args(
    insts: Seq<(ETypeId, Vec<(String, EDataType)>, ETypeId)>,
    def: ETypeId,
    a1: Seq<(String, EDataType)>,
    a2: Seq<(String, EDataType)>,
    n: nat,
)
    requires
        args_eq(a1, a2),
    ensures
        find_instance(insts, def, a1, n) == find_instance(insts, def, a2, n),
    decreases n,
{
    if n > 0 && n <= insts.len() {
        lemma_find_instance_args(insts, def, a1, a2, (n - 1) as nat);
        lemma_args_eq_swap(insts[n - 1].1@, a1, a2);
    }
}

/// Generic instantiation is idempotent: once a definition was instantiated
/// with some arguments, the memo answers every structurally equal argument
/// list with the same identifier, and
/// [ETypesRegistry::instantiate_generic] returns what the memo answers.
pub proof fn lemma_instantiation_idempotent(
    reg: ETypesRegistry,
    def: ETypeId,
    a1: Seq<(String, EDataType)>,
    a2: Seq<(String, EDataType)>,
    id: ETypeId,
)
    requires
        args_eq(a1, a2),
        instance_lookup(reg, def, a1) == Some(id),
    ensures
        instance_lookup(reg, def, a2) == Some(id),
{
    lemma_find_instance_args(reg.instances(), def, a1, a2, reg.instances().len());
}

} // verus!
