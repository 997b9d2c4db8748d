use crate::types::{ETypeConst, ENumber};
use vstd::prelude::*;

verus! {

/// A JSON tree. Objects keep their entries in order; a well-formed object
/// holds each key once.
#[derive(Debug, PartialEq)]
pub enum JsonValue {
    Null,
    Bool(bool),
    Number(ENumber),
    String(String),
    Array(Vec<JsonValue>),
    Object(Vec<(String, JsonValue)>),
}

/// Mathematical model of a JSON tree.
pub enum JModel {
    Null,
    Bool(bool),
    Number(u64),
    String(Seq<char>),
    Array(Seq<JModel>),
    Object(Seq<(Seq<char>, JModel)>),
}

pub open spec fn view_json(j: JsonValue) -> JModel
    decreases j, 0nat,
{
    match j {
        JsonValue::Null => JModel::Null,
        JsonValue::Bool(b) => JModel::Bool(b),
        JsonValue::Number(n) => JModel::Number(n.bits),
        JsonValue::String(s) => JModel::String(s@),
        JsonValue::Array(items) => JModel::Array(view_items(items@, items@.len())),
        JsonValue::Object(entries) => JModel::Object(view_entries(entries@, entries@.len())),
    }
}

pub open spec fn view_items(s: Seq<JsonValue>, n: nat) -> Seq<JModel>
    decreases s, n,
{
    if n == 0 || n > s.len() {
        Seq::empty()
    } else {
        view_items(s, (n - 1) as nat).push(view_json(s[n - 1]))
    }
}

pub open spec fn view_entries(s: Seq<(String, JsonValue)>, n: nat) -> Seq<(Seq<char>, JModel)>
    decreases s, n,
{
    if n == 0 || n > s.len() {
        Seq::empty()
    } else {
        view_entries(s, (n - 1) as nat).push((s[n - 1].0@, view_json(s[n - 1].1)))
    }
}


impl View for JsonValue {
    type V = JModel;

    open spec fn view(&self) -> JModel {
        view_json(*self)
    }
}

/// The kind of a JSON node.
#[derive(Debug, Clone, Copy, PartialEq, Eq, Structural)]
pub enum JsonKind {
    Null,
    Boolean,
    Number,
    String,
    Array,
    Object,
}

pub open spec fn kind_of(j: JModel) -> JsonKind {
    match j {
        JModel::Null => JsonKind::Null,
        JModel::Bool(_) => JsonKind::Boolean,
        JModel::Number(_) => JsonKind::Number,
        JModel::String(_) => JsonKind::String,
        JModel::Array(_) => JsonKind::Array,
        JModel::Object(_) => JsonKind::Object,
    }
}

/// The number of nodes of a JSON tree.
pub open spec fn jsize(j: JModel) -> nat
    decreases j, 0nat,
{
    match j {
        JModel::Array(items) => 1 + sum_items(items, items.len()),
        JModel::Object(es) => 1 + sum_entries(es, es.len()),
        _ => 1,
    }
}

pub open spec fn sum_items(s: Seq<JModel>, n: nat) -> nat
    decreases s, n,
{
    if n == 0 || n > s.len() {
        0
    } else {
        sum_items(s, (n - 1) as nat) + jsize(s[n - 1])
    }
}

pub open spec fn sum_entries(s: Seq<(Seq<char>, JModel)>, n: nat) -> nat
    decreases s, n,
{
    if n == 0 || n > s.len() {
        0
    } else {
        sum_entries(s, (n - 1) as nat) + jsize(s[n - 1].1)
    }
}

pub proof fn lemma_item_smaller(s: Seq<JModel>, k: int, n: nat)
    requires
        0 <= k < n <= s.len(),
    ensures
        jsize(s[k]) <= sum_items(s, n),
    decreases n,
{
    if k < n - 1 {
        lemma_item_smaller(s, k, (n - 1) as nat);
    }
}

pub proof fn lemma_entry_smaller(s: Seq<(Seq<char>, JModel)>, k: int, n: nat)
    requires
        0 <= k < n <= s.len(),
    ensures
        jsize(s[k].1) <= sum_entries(s, n),
    decreases n,
{
    if k < n - 1 {
        lemma_entry_smaller(s, k, (n - 1) as nat);
    }
}

/// Removing an entry takes its size off the sum.
pub proof fn lemma_entry_removed(s: Seq<(Seq<char>, JModel)>, k: int, n: nat)
    requires
        0 <= k < n <= s.len(),
    ensures
        sum_entries(s.remove(k), (n - 1) as nat) + jsize(s[k].1) == sum_entries(s, n),
    decreases n,
{
    if n - 1 > k {
        lemma_entry_removed(s, k, (n - 1) as nat);
        assert(s.remove(k)[n - 2] == s[n - 1]);
    } else {
        lemma_entries_prefix(s.remove(k), s, k as nat);
    }
}

proof fn lemma_entries_prefix(s: Seq<(Seq<char>, JModel)>, t: Seq<(Seq<char>, JModel)>, n: nat)
    requires
        n <= s.len(),
        n <= t.len(),
        forall|i: int| 0 <= i < n ==> s[i] == t[i],
    ensures
        sum_entries(s, n) == sum_entries(t, n),
    decreases n,
{
    if n > 0 {
        lemma_entries_prefix(s, t, (n - 1) as nat);
    }
}

/// Position of the first entry with the given key.
pub open spec fn find_key_in(es: Seq<(Seq<char>, JModel)>, key: Seq<char>, n: nat) -> Option<int>
    decreases n,
{
    if n == 0 || n > es.len() {
        None
    } else {
        match find_key_in(es, key, (n - 1) as nat) {
            Some(k) => Some(k),
            None => if es[n - 1].0 == key { Some(n - 1) } else { None },
        }
    }
}

pub open spec fn find_key(es: Seq<(Seq<char>, JModel)>, key: Seq<char>) -> Option<int> {
    find_key_in(es, key, es.len())
}

proof fn lemma_find_key_stable(es: Seq<(Seq<char>, JModel)>, key: Seq<char>, k: nat, n: nat)
    requires
        k <= n <= es.len(),
        find_key_in(es, key, k) is Some,
    ensures
        find_key_in(es, key, n) == find_key_in(es, key, k),
    decreases n - k,
{
    if n > k {
        lemma_find_key_stable(es, key, k, (n - 1) as nat);
    }
}

/// A JSON node equals a constant.
pub open spec fn json_is_const(j: JModel, c: ETypeConst) -> bool {
    match (j, c) {
        (JModel::Null, ETypeConst::Null) => true,
        (JModel::Bool(a), ETypeConst::Boolean(b)) => a == b,
        (JModel::Number(a), ETypeConst::Number(b)) => a == b.bits,
        (JModel::String(a), ETypeConst::String(b)) => a == b@,
        _ => false,
    }
}

/// A JSON node is of the constant's kind.
pub open spec fn json_kind_fits(j: JModel, c: ETypeConst) -> bool {
    match (j, c) {
        (JModel::Null, ETypeConst::Null) => true,
        (JModel::Bool(_), ETypeConst::Boolean(_)) => true,
        (JModel::Number(_), ETypeConst::Number(_)) => true,
        (JModel::String(_), ETypeConst::String(_)) => true,
        _ => false,
    }
}

/// The kind of a JSON node.
pub fn json_kind(value: &JsonValue) -> (r: JsonKind)
    ensures
        r == kind_of(value@),
{
    match value {
        JsonValue::Null => JsonKind::Null,
        JsonValue::Bool(_) => JsonKind::Boolean,
        JsonValue::Number(_) => JsonKind::Number,
        JsonValue::String(_) => JsonKind::String,
        JsonValue::Array(_) => JsonKind::Array,
        JsonValue::Object(_) => JsonKind::Object,
    }
}

/// The view of an object's entries, entry by entry.
pub proof fn lemma_view_entries_index(s: Seq<(String, JsonValue)>, n: nat)
    requires
        n <= s.len(),
    ensures
        view_entries(s, n).len() == n,
        forall|i: int| 0 <= i < n ==> #[trigger] view_entries(s, n)[i] == (s[i].0@, view_json(s[i].1)),
    decreases n,
{
    if n > 0 {
        lemma_view_entries_index(s, (n - 1) as nat);
    }
}

/// The view of an array's items, item by item.
pub proof fn lemma_view_items_index(s: Seq<JsonValue>, n: nat)
    requires
        n <= s.len(),
    ensures
        view_items(s, n).len() == n,
        forall|i: int| 0 <= i < n ==> #[trigger] view_items(s, n)[i] == view_json(s[i]),
    decreases n,
{
    if n > 0 {
        lemma_view_items_index(s, (n - 1) as nat);
    }
}

/// Position of the first entry with the given key.
pub fn find_entry(es: &Vec<(String, JsonValue)>, key: &String) -> (r: Option<usize>)
    ensures
        ({
            let m = view_entries(es@, es@.len());
            &&& r matches Some(k) ==> find_key(m, key@) == Some(k as int) && k < es@.len()
            &&& r is None ==> find_key(m, key@) is None
        }),
{
    proof {
        lemma_view_entries_index(es@, es@.len());
    }
    let ghost m = view_entries(es@, es@.len());
    let mut i: usize = 0;
    while i < es.len()
        invariant
            i <= es@.len(),
            m == view_entries(es@, es@.len()),
            m.len() == es@.len(),
            forall|q: int| 0 <= q < es@.len() ==> #[trigger] m[q] == (es@[q].0@, view_json(es@[q].1)),
            find_key_in(m, key@, i as nat) is None,
        decreases es.len() - i,
    {
        if es[i].0 == *key {
            proof {
                lemma_find_key_stable(m, key@, (i + 1) as nat, m.len());
            }
            return Some(i);
        }
        i = i + 1;
    }
    None
}


/// The view of a prefix of entries depends on that prefix alone.
pub proof fn lemma_view_entries_prefix(s: Seq<(String, JsonValue)>, t: Seq<(String, JsonValue)>, n: nat)
    requires
        n <= t.len(),
        n <= s.len(),
        s.subrange(0, n as int) == t.subrange(0, n as int),
    ensures
        view_entries(s, n) == view_entries(t, n),
    decreases n,
{
    if n > 0 {
        assert(s[n - 1] == s.subrange(0, n as int)[n - 1]);
        assert(t[n - 1] == t.subrange(0, n as int)[n - 1]);
        assert(s.subrange(0, n - 1) == s.subrange(0, n as int).subrange(0, n - 1));
        assert(t.subrange(0, n - 1) == t.subrange(0, n as int).subrange(0, n - 1));
        lemma_view_entries_prefix(s, t, (n - 1) as nat);
    }
}

/// The view of a prefix of items depends on that prefix alone.
pub proof fn lemma_view_items_prefix(s: Seq<JsonValue>, t: Seq<JsonValue>, n: nat)
    requires
        n <= t.len(),
        n <= s.len(),
        s.subrange(0, n as int) == t.subrange(0, n as int),
    ensures
        view_items(s, n) == view_items(t, n),
    decreases n,
{
    if n > 0 {
        assert(s[n - 1] == s.subrange(0, n as int)[n - 1]);
        assert(t[n - 1] == t.subrange(0, n as int)[n - 1]);
        assert(s.subrange(0, n - 1) == s.subrange(0, n as int).subrange(0, n - 1));
        assert(t.subrange(0, n - 1) == t.subrange(0, n as int).subrange(0, n - 1));
        lemma_view_items_prefix(s, t, (n - 1) as nat);
    }
}

impl JsonValue {
    /// A deep copy of the tree.
    pub fn duplicate(&self) -> (r: JsonValue)
        ensures
            r@ == self@,
        decreases self,
    {
        match self {
            JsonValue::Null => JsonValue::Null,
            JsonValue::Bool(b) => JsonValue::Bool(*b),
            JsonValue::Number(n) => JsonValue::Number(*n),
            JsonValue::String(s) => JsonValue::String(s.clone()),
            JsonValue::Array(items) => {
                let mut out: Vec<JsonValue> = Vec::new();
                let mut i: usize = 0;
                while i < items.len()
                    invariant
                        i <= items.len(),
                        out@.len() == i,
                        view_items(out@, out@.len()) == view_items(items@, i as nat),
                        *self is Array,
                        *items == self->Array_0,
                    decreases items.len() - i,
                {
                    proof {
                        assert(decreases_to!(*self => self->Array_0));
                        assert(decreases_to!(*items => items[i as int]));
                    }
                    let v = items[i].duplicate();
                    let ghost before = out@;
                    out.push(v);
                    proof {
                        assert(out@.subrange(0, i as int) =~= before.subrange(0, i as int));
                        lemma_view_items_prefix(out@, before, i as nat);
                    }
                    i = i + 1;
                }
                JsonValue::Array(out)
            },
            JsonValue::Object(es) => {
                let mut out: Vec<(String, JsonValue)> = Vec::new();
                let mut i: usize = 0;
                while i < es.len()
                    invariant
                        i <= es.len(),
                        out@.len() == i,
                        view_entries(out@, out@.len()) == view_entries(es@, i as nat),
                        *self is Object,
                        *es == self->Object_0,
                    decreases es.len() - i,
                {
                    proof {
                        assert(decreases_to!(*self => self->Object_0));
                        assert(decreases_to!(*es => es[i as int]));
                    }
                    let v = es[i].1.duplicate();
                    let ghost before = out@;
                    out.push((es[i].0.clone(), v));
                    proof {
                        assert(out@.subrange(0, i as int) =~= before.subrange(0, i as int));
                        lemma_view_entries_prefix(out@, before, i as nat);
                    }
                    i = i + 1;
                }
                JsonValue::Object(out)
            },
        }
    }
}

/// Whether a JSON node equals a constant.
pub fn json_equals_const(j: &JsonValue, c: &ETypeConst) -> (r: bool)
    ensures
        r == json_is_const(j@, *c),
{
    match (j, c) {
        (JsonValue::Null, ETypeConst::Null) => true,
        (JsonValue::Bool(a), ETypeConst::Boolean(b)) => *a == *b,
        (JsonValue::Number(a), ETypeConst::Number(b)) => a.bits == b.bits,
        (JsonValue::String(a), ETypeConst::String(b)) => *a == *b,
        _ => false,
    }
}

/// Whether a JSON node is of a constant's kind.
pub fn json_fits_const_kind(j: &JsonValue, c: &ETypeConst) -> (r: bool)
    ensures
        r == json_kind_fits(j@, *c),
{
    match (j, c) {
        (JsonValue::Null, ETypeConst::Null) => true,
        (JsonValue::Bool(_), ETypeConst::Boolean(_)) => true,
        (JsonValue::Number(_), ETypeConst::Number(_)) => true,
        (JsonValue::String(_), ETypeConst::String(_)) => true,
        _ => false,
    }
}

} // verus!
