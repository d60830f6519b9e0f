//! The field dictionary: a bijection between field identifiers and field
//! names, backed by `bimap::BiHashMap`.
//!
//! A batch and an index each carry one. Identifiers are handed out densely:
//! the dictionary's well-formedness says the assigned identifiers are
//! exactly those below its length, and no two identifiers share a name.
//! Iteration order is unspecified; callers that need an order sort.

use vstd::prelude::*;

use crate::FieldId;

verus! {

#[verifier::external_type_specification]
#[verifier::external_body]
#[verifier::reject_recursive_types(L)]
#[verifier::reject_recursive_types(R)]
#[verifier::reject_recursive_types(LS)]
#[verifier::reject_recursive_types(RS)]
pub struct ExBiHashMap<L, R, LS, RS>(bimap::BiHashMap<L, R, LS, RS>);

/// The dictionary type: field identifier to field name, both ways.
pub type FieldsIds = bimap::BiHashMap<FieldId, String>;

/// The contents of a field dictionary, as a map from identifier to name.
pub uninterp spec fn fields_map(m: FieldsIds) -> Map<FieldId, Seq<char>>;

/// The contents of a dictionary with nothing in it.
pub open spec fn empty_fields() -> Map<FieldId, Seq<char>> {
    Map::empty()
}

/// No two identifiers share a name.
pub open spec fn fields_injective(v: Map<FieldId, Seq<char>>) -> bool {
    forall|a: FieldId, b: FieldId|
        v.dom().contains(a) && v.dom().contains(b) && v[a] == v[b] ==> a == b
}

/// Identifiers are assigned densely from zero, and names are unique.
pub open spec fn fields_wf(v: Map<FieldId, Seq<char>>) -> bool {
    &&& v.dom().finite()
    &&& forall|a: FieldId| v.dom().contains(a) <==> (a as nat) < v.dom().len()
    &&& fields_injective(v)
}

/// Relies on `BiHashMap::new`: the new dictionary is empty.
#[verifier::external_body]
pub fn bm_new() -> (r: FieldsIds)
    ensures
        fields_map(r) == empty_fields(),
{
    bimap::BiHashMap::new()
}

/// Relies on `BiHashMap::len`: the number of pairs.
#[verifier::external_body]
pub fn bm_len(m: &FieldsIds) -> (r: usize)
    ensures
        r as nat == fields_map(*m).dom().len(),
{
    m.len()
}

/// Relies on `BiHashMap::get_by_left`: the name of an identifier.
#[verifier::external_body]
pub fn bm_get_by_left(m: &FieldsIds, l: FieldId) -> (r: Option<String>)
    ensures
        match r {
            Some(name) => fields_map(*m).dom().contains(l) && name@ == fields_map(*m)[l],
            None => !fields_map(*m).dom().contains(l),
        },
{
    m.get_by_left(&l).cloned()
}

/// Relies on `BiHashMap::get_by_right`: the identifier of a name.
#[verifier::external_body]
pub fn bm_get_by_right(m: &FieldsIds, name: &String) -> (r: Option<FieldId>)
    ensures
        match r {
            Some(l) => fields_map(*m).dom().contains(l) && fields_map(*m)[l] == name@,
            None => forall|l: FieldId|
                fields_map(*m).dom().contains(l) ==> fields_map(*m)[l] != name@,
        },
{
    m.get_by_right(name).copied()
}

/// Relies on `BiHashMap::insert_no_overwrite`: inserts the pair unless
/// either side is already present, and reports which happened.
#[verifier::external_body]
pub fn bm_insert_no_overwrite(
    m: &mut FieldsIds,
    l: FieldId,
    name: String,
) -> (r: bool)
    ensures
        r == !(fields_map(*old(m)).dom().contains(l) || (exists|l2: FieldId|
            fields_map(*old(m)).dom().contains(l2) && fields_map(*old(m))[l2] == name@)),
        r ==> fields_map(*final(m)) == fields_map(*old(m)).insert(l, name@),
        !r ==> fields_map(*final(m)) == fields_map(*old(m)),
{
    m.insert_no_overwrite(l, name).is_ok()
}



/// Returns the identifier of `name`, assigning the next free one if the
/// name is new. `None` means the dictionary is full.
pub fn insert_or_get(m: &mut FieldsIds, name: &String) -> (r: Option<
    FieldId,
>)
    requires
        fields_wf(fields_map(*old(m))),
    ensures
        fields_wf(fields_map(*final(m))),
        match r {
            Some(f) => {
                &&& fields_map(*final(m)) == fields_map(*old(m)).insert(f, name@)
                &&& fields_map(*final(m)).dom().contains(f)
                &&& fields_map(*final(m))[f] == name@
                &&& !fields_map(*old(m)).dom().contains(f) || fields_map(*old(m))[f] == name@
                &&& fields_map(*old(m)).dom().contains(f) || f as nat == fields_map(
                    *old(m),
                ).dom().len()
            },
            None => {
                &&& fields_map(*final(m)) == fields_map(*old(m))
                &&& fields_map(*old(m)).dom().len() >= 0x10000
                &&& forall|l: FieldId|
                    fields_map(*old(m)).dom().contains(l) ==> fields_map(*old(m))[l] != name@
            },
        },
{
    let ghost v0 = fields_map(*m);
    match bm_get_by_right(m, name) {
        Some(f) => {
            proof {
                assert(v0.insert(f, name@) =~= v0);
            }
            Some(f)
        },
        None => {
            let n = bm_len(m);
            if n >= 0x10000 {
                return None;
            }
            let f: FieldId = n as u16;
            let ok = bm_insert_no_overwrite(m, f, name.clone());
            assert(ok);
            proof {
                let v1 = fields_map(*m);
                assert(v1.dom() =~= v0.dom().insert(f));
                vstd::set::axiom_set_insert_len(v0.dom(), f);
                assert forall|a: FieldId| v1.dom().contains(a) <==> (a as nat) < v1.dom().len() by {
                    if v1.dom().contains(a) {
                        if a != f {
                            assert(v0.dom().contains(a));
                        }
                    }
                    if (a as nat) < v1.dom().len() {
                        if (a as nat) < v0.dom().len() {
                            assert(v0.dom().contains(a));
                        } else {
                            assert(a == f);
                        }
                    }
                }
            }
            Some(f)
        },
    }
}

} // verus!
