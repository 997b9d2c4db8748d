//! Encoding then decoding gives the value back.

use crate::codec::{
    first_match, item_type, parse_entries, parse_enum, parse_fields, parse_items, parse_of, spec_parse, spec_write,
    tag_check, tag_of, write_fields, write_items, write_pairs, DecodeError,
};
use crate::json::{find_key, find_key_in, JModel};
use crate::registry::{tagged_eq, EObject, EStructField, ETypesRegistry, EnumPattern, Tagged};
use crate::types::{const_value, view_value, EDataType, VModel};
use vstd::prelude::*;

verus! {

/// The enum type is decoded by patterns alone.
pub open spec fn untagged_enum(reg: ETypesRegistry, id: usize) -> bool {
    id < reg.objects().len() && reg.objects()[id as int] is Enum && reg.objects()[id as int]->Enum_0.tagged_repr is None
}

/// How many named types decoding passes through on one level of the JSON
/// tree for this value: one per struct or enum, and an untagged enum's
/// payload shares its level.
pub open spec fn level_depth(reg: ETypesRegistry, v: VModel) -> nat
    decreases v,
{
    match v {
        VModel::Struct(..) => 1,
        VModel::Enum(vid, d) => if untagged_enum(reg, vid.ident.0) {
            1 + level_depth(reg, *d)
        } else {
            1
        },
        _ => 0,
    }
}

pub open spec fn names_distinct(fs: Seq<EStructField>) -> bool {
    forall|i: int, j: int| 0 <= i < fs.len() && 0 <= j < fs.len() && i != j ==> (#[trigger] fs[i]).name@ != (#[trigger] fs[j]).name@
}

/// The value has the shape of the type, struct field names are distinct,
/// every enum value is decoded by its own variant (no earlier variant's
/// pattern accepts its encoding), and a tagged enum's patterns are tags of
/// its own mode.
pub open spec fn conforms(reg: ETypesRegistry, ty: EDataType, v: VModel) -> bool
    decreases v, 0nat,
{
    match ty {
        EDataType::Boolean => v is Boolean,
        EDataType::Number => v is Number,
        EDataType::String => v is String,
        EDataType::Const { value } => v == view_value(const_value(value)),
        EDataType::Object { ident } => ident.0 < reg.objects().len() && match reg.objects()[ident.0 as int] {
            EObject::Struct(s) => match v {
                VModel::Struct(id, fs) => {
                    &&& id == ident.0
                    &&& names_distinct(s.fields@)
                    &&& fs.len() == s.fields@.len()
                    &&& fields_conform(reg, s.fields@, fs, fs.len())
                },
                _ => false,
            },
            EObject::Enum(e) => match v {
                VModel::Enum(vid, d) => {
                    &&& vid.ident == ident
                    &&& vid.variant < e.variants@.len()
                    &&& conforms(reg, item_type(e.variants@[vid.variant as int].data), *d)
                    &&& spec_write(reg, v) is Ok
                    &&& first_match(e.variants@, spec_write(reg, v)->Ok_0, e.variants@.len()) == Some(vid.variant as int)
                    &&& match e.tagged_repr {
                        None => !(e.variants@[vid.variant as int].pat is Tagged),
                        Some(r) => {
                            &&& e.variants@[vid.variant as int].pat is Tagged
                            &&& tagged_eq(e.variants@[vid.variant as int].pat->repr, r)
                            &&& level_depth(reg, *d) <= reg.objects().len()
                            &&& (r matches Tagged::Adjacent { tag_field, content_field } ==> tag_field@ != content_field@)
                        },
                    }
                },
                _ => false,
            },
        },
        EDataType::List { id } => id.0 < reg.lists().len() && match v {
            VModel::List(lid, items) => lid == id.0 && items_conform(reg, reg.lists()[id.0 as int], items, items.len()),
            _ => false,
        },
        EDataType::Dict { id } => id.0 < reg.maps().len() && match v {
            VModel::Dict(mid, ps) => mid == id.0 && pairs_conform(reg, reg.maps()[id.0 as int].0, reg.maps()[id.0 as int].1, ps, ps.len()),
            _ => false,
        },
    }
}

pub open spec fn fields_conform(reg: ETypesRegistry, defs: Seq<EStructField>, fs: Seq<(Seq<char>, VModel)>, n: nat) -> bool
    decreases fs, n,
{
    if n == 0 || n > fs.len() || n > defs.len() {
        n == 0
    } else {
        &&& fields_conform(reg, defs, fs, (n - 1) as nat)
        &&& fs[n - 1].0 == defs[n - 1].name@
        &&& conforms(reg, item_type(defs[n - 1].ty), fs[n - 1].1)
        &&& level_depth(reg, fs[n - 1].1) <= reg.objects().len()
    }
}

pub open spec fn items_conform(reg: ETypesRegistry, elem: EDataType, items: Seq<VModel>, n: nat) -> bool
    decreases items, n,
{
    if n == 0 || n > items.len() {
        n == 0
    } else {
        &&& items_conform(reg, elem, items, (n - 1) as nat)
        &&& conforms(reg, elem, items[n - 1])
        &&& level_depth(reg, items[n - 1]) <= reg.objects().len()
    }
}

pub open spec fn pairs_conform(reg: ETypesRegistry, kty: EDataType, vty: EDataType, ps: Seq<(VModel, VModel)>, n: nat) -> bool
    decreases ps, n,
{
    if n == 0 || n > ps.len() {
        n == 0
    } else {
        &&& pairs_conform(reg, kty, vty, ps, (n - 1) as nat)
        &&& conforms(reg, kty, ps[n - 1].0)
        &&& conforms(reg, vty, ps[n - 1].1)
        &&& level_depth(reg, ps[n - 1].0) <= reg.objects().len()
        &&& level_depth(reg, ps[n - 1].1) <= reg.objects().len()
    }
}

/// The first entry with a key is the only one with it.
proof fn lemma_find_key_at(es: Seq<(Seq<char>, JModel)>, key: Seq<char>, i: int, n: nat)
    requires
        0 <= i < n <= es.len(),
        es[i].0 == key,
        forall|j: int| 0 <= j < es.len() && j != i ==> (#[trigger] es[j]).0 != key,
    ensures
        find_key_in(es, key, n) == Some(i),
    decreases n,
{
    if n - 1 > i {
        lemma_find_key_at(es, key, i, (n - 1) as nat);
    } else {
        lemma_find_key_none(es, key, i as nat);
    }
}

proof fn lemma_find_key_none(es: Seq<(Seq<char>, JModel)>, key: Seq<char>, n: nat)
    requires
        n <= es.len(),
        forall|j: int| 0 <= j < n ==> (#[trigger] es[j]).0 != key,
    ensures
        find_key_in(es, key, n) is None,
    decreases n,
{
    if n > 0 {
        lemma_find_key_none(es, key, (n - 1) as nat);
    }
}

proof fn lemma_write_fields_ok(reg: ETypesRegistry, fs: Seq<(Seq<char>, VModel)>, n: nat)
    requires
        n <= fs.len(),
        write_fields(reg, fs, n) is Ok,
    ensures
        write_fields(reg, fs, n)->Ok_0.len() == n,
        forall|i: int| 0 <= i < n ==> spec_write(reg, (#[trigger] fs[i]).1) is Ok
            && write_fields(reg, fs, n)->Ok_0[i] == (fs[i].0, spec_write(reg, fs[i].1)->Ok_0),
    decreases n,
{
    if n > 0 {
        lemma_write_fields_ok(reg, fs, (n - 1) as nat);
    }
}

proof fn lemma_write_items_ok(reg: ETypesRegistry, items: Seq<VModel>, n: nat)
    requires
        n <= items.len(),
        write_items(reg, items, n) is Ok,
    ensures
        write_items(reg, items, n)->Ok_0.len() == n,
        forall|i: int| 0 <= i < n ==> spec_write(reg, #[trigger] items[i]) is Ok
            && write_items(reg, items, n)->Ok_0[i] == spec_write(reg, items[i])->Ok_0,
    decreases n,
{
    if n > 0 {
        lemma_write_items_ok(reg, items, (n - 1) as nat);
    }
}

proof fn lemma_write_pairs_ok(reg: ETypesRegistry, ps: Seq<(VModel, VModel)>, n: nat)
    requires
        n <= ps.len(),
        write_pairs(reg, ps, n) is Ok,
    ensures
        write_pairs(reg, ps, n)->Ok_0.len() == n,
        forall|i: int| 0 <= i < n ==> {
            &&& spec_write(reg, (#[trigger] ps[i]).0) matches Ok(JModel::String(k)) && write_pairs(reg, ps, n)->Ok_0[i].0 == k
            &&& spec_write(reg, ps[i].1) is Ok
            &&& write_pairs(reg, ps, n)->Ok_0[i].1 == spec_write(reg, ps[i].1)->Ok_0
        },
    decreases n,
{
    if n > 0 {
        lemma_write_pairs_ok(reg, ps, (n - 1) as nat);
    }
}

proof fn lemma_fields_conform_index(reg: ETypesRegistry, defs: Seq<EStructField>, fs: Seq<(Seq<char>, VModel)>, n: nat, i: int)
    requires
        fields_conform(reg, defs, fs, n),
        0 <= i < n,
    ensures
        n <= fs.len() && n <= defs.len(),
        fs[i].0 == defs[i].name@,
        conforms(reg, item_type(defs[i].ty), fs[i].1),
        level_depth(reg, fs[i].1) <= reg.objects().len(),
    decreases n,
{
    if i < n - 1 {
        lemma_fields_conform_index(reg, defs, fs, (n - 1) as nat, i);
    }
}

proof fn lemma_items_conform_index(reg: ETypesRegistry, elem: EDataType, items: Seq<VModel>, n: nat, i: int)
    requires
        items_conform(reg, elem, items, n),
        0 <= i < n,
    ensures
        n <= items.len(),
        conforms(reg, elem, items[i]),
        level_depth(reg, items[i]) <= reg.objects().len(),
    decreases n,
{
    if i < n - 1 {
        lemma_items_conform_index(reg, elem, items, (n - 1) as nat, i);
    }
}

proof fn lemma_pairs_conform_index(reg: ETypesRegistry, kty: EDataType, vty: EDataType, ps: Seq<(VModel, VModel)>, n: nat, i: int)
    requires
        pairs_conform(reg, kty, vty, ps, n),
        0 <= i < n,
    ensures
        n <= ps.len(),
        conforms(reg, kty, ps[i].0),
        conforms(reg, vty, ps[i].1),
        level_depth(reg, ps[i].0) <= reg.objects().len(),
        level_depth(reg, ps[i].1) <= reg.objects().len(),
    decreases n,
{
    if i < n - 1 {
        lemma_pairs_conform_index(reg, kty, vty, ps, (n - 1) as nat, i);
    }
}

proof fn lemma_rt(reg: ETypesRegistry, ty: EDataType, v: VModel, fuel: nat)
    requires
        conforms(reg, ty, v),
        spec_write(reg, v) is Ok,
        level_depth(reg, v) <= fuel,
    ensures
        spec_parse(reg, ty, spec_write(reg, v)->Ok_0, false, fuel) == Ok::<VModel, DecodeError>(v),
    decreases v, 0nat,
{
    let full = reg.objects().len();
    match ty {
        EDataType::Const { value } => {
            match value {
                crate::types::ETypeConst::Null => {},
                crate::types::ETypeConst::Boolean(b) => {},
                crate::types::ETypeConst::Number(n) => {},
                crate::types::ETypeConst::String(t) => {},
            }
        },
        EDataType::Object { ident } => {
            match reg.objects()[ident.0 as int] {
                EObject::Struct(s) => {
                    let fs = v->Struct_1;
                    let es = write_fields(reg, fs, fs.len())->Ok_0;
                    lemma_write_fields_ok(reg, fs, fs.len());
                    lemma_rt_fields(reg, s.fields@, fs, es, fs.len(), (fuel - 1) as nat);
                    assert(fs.take(fs.len() as int) =~= fs);
                },
                EObject::Enum(e) => {
                    let vid = v->Enum_0;
                    let d = *v->Enum_1;
                    let k = vid.variant as int;
                    let var = e.variants@[k];
                    let c = spec_write(reg, d)->Ok_0;
                    let w = spec_write(reg, v)->Ok_0;
                    let pty = item_type(var.data);
                    assert(spec_write(reg, d) is Ok);
                    match e.tagged_repr {
                        None => {
                            assert(w == c);
                            assert(tag_check(e.tagged_repr, w, false) is None);
                            lemma_rt(reg, pty, d, (fuel - 1) as nat);
                            assert(parse_enum(reg, e, ident, w, false, (fuel - 1) as nat) == Ok::<VModel, DecodeError>(v));
                        },
                        Some(r) => {
                            lemma_rt(reg, pty, d, full);
                            let tag = tag_of(var);
                            match r {
                                Tagged::External => {
                                    let wes = seq![(tag, c)];
                                    assert(w == JModel::Object(wes));
                                    lemma_find_key_at(wes, var.pat->tag@, 0, 1);
                                    assert(parse_enum(reg, e, ident, w, false, (fuel - 1) as nat) == Ok::<VModel, DecodeError>(v));
                                },
                                Tagged::Internal { tag_field } => {
                                    let es = c->Object_0;
                                    let wes = seq![(tag_field@, JModel::String(tag))] + es;
                                    assert(w == JModel::Object(wes));
                                    assert(wes[0].0 == tag_field@);
                                    lemma_find_key_first(wes, tag_field@);
                                    let pr = var.pat->repr;
                                    assert(pr->Internal_tag_field@ == tag_field@);
                                    assert(wes.remove(0) =~= es);
                                    assert(parse_enum(reg, e, ident, w, false, (fuel - 1) as nat) == Ok::<VModel, DecodeError>(v));
                                },
                                Tagged::Adjacent { tag_field, content_field } => {
                                    let wes = seq![(tag_field@, JModel::String(tag)), (content_field@, c)];
                                    assert(w == JModel::Object(wes));
                                    lemma_find_key_first(wes, tag_field@);
                                    let pr = var.pat->repr;
                                    assert(pr->Adjacent_content_field@ == content_field@);
                                    lemma_find_key_at(wes, content_field@, 1, 2);
                                    assert(!(exists|i: int| 0 <= i < wes.len() && (#[trigger] wes[i]).0 != tag_field@
                                        && wes[i].0 != content_field@));
                                    assert(parse_enum(reg, e, ident, w, false, (fuel - 1) as nat) == Ok::<VModel, DecodeError>(v));
                                },
                            }
                        },
                    }
                },
            }
        },
        EDataType::List { id } => {
            let items = v->List_1;
            let js = write_items(reg, items, items.len())->Ok_0;
            lemma_write_items_ok(reg, items, items.len());
            lemma_rt_items(reg, reg.lists()[id.0 as int], items, js, items.len(), fuel);
            assert(items.take(items.len() as int) =~= items);
        },
        EDataType::Dict { id } => {
            let ps = v->Dict_1;
            let es = write_pairs(reg, ps, ps.len())->Ok_0;
            lemma_write_pairs_ok(reg, ps, ps.len());
            lemma_rt_pairs(reg, reg.maps()[id.0 as int].0, reg.maps()[id.0 as int].1, ps, es, ps.len(), fuel);
            assert(ps.take(ps.len() as int) =~= ps);
        },
        _ => {},
    }
}

proof fn lemma_find_key_first(es: Seq<(Seq<char>, JModel)>, key: Seq<char>)
    requires
        es.len() > 0,
        es[0].0 == key,
    ensures
        find_key(es, key) == Some(0int),
{
    lemma_find_key_first_n(es, key, es.len());
}

proof fn lemma_find_key_first_n(es: Seq<(Seq<char>, JModel)>, key: Seq<char>, n: nat)
    requires
        0 < n <= es.len(),
        es[0].0 == key,
    ensures
        find_key_in(es, key, n) == Some(0int),
    decreases n,
{
    if n > 1 {
        lemma_find_key_first_n(es, key, (n - 1) as nat);
    } else {
        assert(find_key_in(es, key, 0) is None);
    }
}

proof fn lemma_rt_fields(
    reg: ETypesRegistry,
    defs: Seq<EStructField>,
    fs: Seq<(Seq<char>, VModel)>,
    es: Seq<(Seq<char>, JModel)>,
    n: nat,
    f: nat,
)
    requires
        n <= fs.len(),
        fs.len() == defs.len(),
        es.len() == fs.len(),
        names_distinct(defs),
        fields_conform(reg, defs, fs, fs.len()),
        forall|i: int| 0 <= i < fs.len() ==> spec_write(reg, (#[trigger] fs[i]).1) is Ok
            && es[i] == (fs[i].0, spec_write(reg, fs[i].1)->Ok_0),
    ensures
        parse_fields(reg, defs, es, n, f) == Ok::<Seq<(Seq<char>, VModel)>, DecodeError>(fs.take(n as int)),
    decreases fs, n,
{
    if n == 0 {
        assert(fs.take(0) =~= Seq::<(Seq<char>, VModel)>::empty());
    } else {
        lemma_rt_fields(reg, defs, fs, es, (n - 1) as nat, f);
        let i = n - 1;
        lemma_fields_conform_index(reg, defs, fs, fs.len(), i);
        assert forall|j: int| 0 <= j < es.len() && j != i implies (#[trigger] es[j]).0 != defs[i].name@ by {
            lemma_fields_conform_index(reg, defs, fs, fs.len(), j);
        }
        lemma_find_key_at(es, defs[i].name@, i, es.len());
        lemma_rt(reg, item_type(defs[i].ty), fs[i].1, reg.objects().len());
        assert(fs.take(n as int) =~= fs.take(i).push((defs[i].name@, fs[i].1)));
    }
}

proof fn lemma_rt_items(reg: ETypesRegistry, elem: EDataType, items: Seq<VModel>, js: Seq<JModel>, n: nat, f: nat)
    requires
        n <= items.len(),
        js.len() == items.len(),
        items_conform(reg, elem, items, items.len()),
        forall|i: int| 0 <= i < items.len() ==> spec_write(reg, #[trigger] items[i]) is Ok && js[i] == spec_write(reg, items[i])->Ok_0,
    ensures
        parse_items(reg, elem, js, n, f) == Ok::<Seq<VModel>, DecodeError>(items.take(n as int)),
    decreases items, n,
{
    if n == 0 {
        assert(items.take(0) =~= Seq::<VModel>::empty());
    } else {
        lemma_rt_items(reg, elem, items, js, (n - 1) as nat, f);
        let i = n - 1;
        lemma_items_conform_index(reg, elem, items, items.len(), i);
        lemma_rt(reg, elem, items[i], reg.objects().len());
        assert(items.take(n as int) =~= items.take(i).push(items[i]));
    }
}

proof fn lemma_rt_pairs(
    reg: ETypesRegistry,
    kty: EDataType,
    vty: EDataType,
    ps: Seq<(VModel, VModel)>,
    es: Seq<(Seq<char>, JModel)>,
    n: nat,
    f: nat,
)
    requires
        n <= ps.len(),
        es.len() == ps.len(),
        pairs_conform(reg, kty, vty, ps, ps.len()),
        forall|i: int| 0 <= i < ps.len() ==> {
            &&& spec_write(reg, (#[trigger] ps[i]).0) matches Ok(JModel::String(k)) && es[i].0 == k
            &&& spec_write(reg, ps[i].1) is Ok
            &&& es[i].1 == spec_write(reg, ps[i].1)->Ok_0
        },
    ensures
        parse_entries(reg, kty, vty, es, n, f) == Ok::<Seq<(VModel, VModel)>, DecodeError>(ps.take(n as int)),
    decreases ps, n,
{
    if n == 0 {
        assert(ps.take(0) =~= Seq::<(VModel, VModel)>::empty());
    } else {
        lemma_rt_pairs(reg, kty, vty, ps, es, (n - 1) as nat, f);
        let i = n - 1;
        lemma_pairs_conform_index(reg, kty, vty, ps, ps.len(), i);
        lemma_rt(reg, kty, ps[i].0, reg.objects().len());
        lemma_rt(reg, vty, ps[i].1, reg.objects().len());
        assert(ps.take(n as int) =~= ps.take(i).push(ps[i]));
    }
}

/// Round trip: encoding a value and decoding the result as the value's type
/// gives the value back, for every value of the type's shape whose enum
/// values are each decoded by their own variant and whose chains of
/// untagged enums on one JSON node pass through no more types than the
/// registry holds.
pub proof fn lemma_round_trip(reg: ETypesRegistry, ty: EDataType, v: VModel)
    requires
        conforms(reg, ty, v),
        spec_write(reg, v) is Ok,
        level_depth(reg, v) <= reg.objects().len(),
    ensures
        parse_of(reg, ty, spec_write(reg, v)->Ok_0, false) == Ok::<VModel, DecodeError>(v),
{
    lemma_rt(reg, ty, v, reg.objects().len());
}

} // verus!
