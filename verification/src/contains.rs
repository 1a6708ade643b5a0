//! Schema compatibility matcher.
//!
//! Decides whether a record batch with one schema may be accepted into a
//! table declared with another. Containment is weaker than equality: it
//! tolerates nullability relaxation, one integer widening (a declared
//! 64-bit signed integer accepts an unsigned one), metadata supersets, and
//! differences of column-name convention. A name holding a `.` is treated
//! as table-qualified; if it additionally has the shape of a one-argument
//! call (a `(` and no `,`), the qualifier inside the call is stripped, so
//! that `sum(t1.amount)` matches `sum(amount)`; otherwise the qualifier
//! before the first `.` is stripped, so that `t1.amount` matches `amount`.
//! The shape test is a deliberate string heuristic, not an expression
//! parser: callers depend on exactly this matching behavior.

use vstd::prelude::*;

use crate::bytes::{bytes_eq, contains_byte, find_byte, spec_contains_byte, spec_find_byte, subvec};
use crate::schema::{
    metadata_superset, spec_metadata_superset, DataType, Field, FieldV, Schema, SchemaV,
};

verus! {

/// `.`
pub const DOT: u8 = 46;

/// `(`
pub const LPAREN: u8 = 40;

/// `)`
pub const RPAREN: u8 = 41;

/// `,`
pub const COMMA: u8 = 44;

/// A name holding a `.` is treated as table-qualified.
pub open spec fn spec_is_qualified(name: Seq<u8>) -> bool {
    spec_contains_byte(name, DOT)
}

/// A name holding a `(` and no `,` has the shape of a one-argument call.
pub open spec fn spec_is_call(name: Seq<u8>) -> bool {
    spec_contains_byte(name, LPAREN) && !spec_contains_byte(name, COMMA)
}

/// The part of a call-shaped name before its first `(`.
pub open spec fn spec_fun(name: Seq<u8>) -> Seq<u8>
    recommends
        spec_contains_byte(name, LPAREN),
{
    name.take(spec_find_byte(name, LPAREN).unwrap())
}

/// The unqualified argument of a call-shaped name: what stands between the
/// first `.` after the first `(` and the first `)` after that, if each of
/// the three is present.
pub open spec fn spec_call_arg(name: Seq<u8>) -> Option<Seq<u8>> {
    match spec_find_byte(name, LPAREN) {
        None => None,
        Some(i) => {
            let rest = name.skip(i + 1);
            match spec_find_byte(rest, DOT) {
                None => None,
                Some(j) => {
                    let tail = rest.skip(j + 1);
                    match spec_find_byte(tail, RPAREN) {
                        None => None,
                        Some(k) => Some(tail.take(k)),
                    }
                },
            }
        },
    }
}

/// The suffix of a qualified name after its first `.`.
pub open spec fn spec_unqualified(name: Seq<u8>) -> Seq<u8>
    recommends
        spec_contains_byte(name, DOT),
{
    name.skip(spec_find_byte(name, DOT).unwrap() + 1)
}

/// Whether normalization is defined for `name`: a qualified call shape
/// must have a `.` after its `(` and a `)` after that `.`.
pub open spec fn spec_name_ok(name: Seq<u8>) -> bool {
    spec_is_qualified(name) && spec_is_call(name) ==> spec_call_arg(name) is Some
}

/// The normalized form of a column name: qualifiers are stripped, either
/// inside the call parentheses or at the front of the name.
pub open spec fn spec_normalized(name: Seq<u8>) -> Seq<u8>
    recommends
        spec_name_ok(name),
{
    if spec_is_qualified(name) {
        if spec_is_call(name) {
            spec_fun(name) + seq![LPAREN] + spec_call_arg(name).unwrap() + seq![RPAREN]
        } else {
            spec_unqualified(name)
        }
    } else {
        name
    }
}

/// Whether `name` is table-qualified (holds a `.`).
pub fn is_qualified(name: &Vec<u8>) -> (r: bool)
    ensures
        r == spec_is_qualified(name@),
{
    contains_byte(name, DOT)
}

/// Whether `name` has the shape of a one-argument call.
pub fn is_call(name: &Vec<u8>) -> (r: bool)
    ensures
        r == spec_is_call(name@),
{
    contains_byte(name, LPAREN) && !contains_byte(name, COMMA)
}

/// The part of `name` before its first `(`.
pub fn fun(name: &Vec<u8>) -> (r: Vec<u8>)
    requires
        spec_contains_byte(name@, LPAREN),
    ensures
        r@ == spec_fun(name@),
{
    match find_byte(name, LPAREN) {
        Some(i) => subvec(name, 0, i),
        None => vstd::pervasive::unreached(),
    }
}

/// The unqualified argument of a call-shaped qualified `name`.
pub fn arg(name: &Vec<u8>) -> (r: Vec<u8>)
    requires
        spec_call_arg(name@) is Some,
    ensures
        Some(r@) == spec_call_arg(name@),
{
    let n = name.len();
    match find_byte(name, LPAREN) {
        Some(i) => {
            proof {
                assert(i < n);
            }
            let rest = subvec(name, i + 1, n);
            proof {
                assert(rest@ =~= name@.skip(i + 1));
            }
            match find_byte(&rest, DOT) {
                Some(j) => {
                    let m = rest.len();
                    proof {
                        assert(j < m);
                    }
                    let tail = subvec(&rest, j + 1, m);
                    proof {
                        assert(tail@ =~= rest@.skip(j + 1));
                    }
                    match find_byte(&tail, RPAREN) {
                        Some(k) => subvec(&tail, 0, k),
                        None => vstd::pervasive::unreached(),
                    }
                },
                None => vstd::pervasive::unreached(),
            }
        },
        None => vstd::pervasive::unreached(),
    }
}

/// The suffix of a qualified `name` after its first `.`.
pub fn unqualifify(name: &Vec<u8>) -> (r: Vec<u8>)
    requires
        spec_contains_byte(name@, DOT),
    ensures
        r@ == spec_unqualified(name@),
{
    let n = name.len();
    match find_byte(name, DOT) {
        Some(i) => {
            proof {
                assert(i < n);
            }
            subvec(name, i + 1, n)
        },
        None => vstd::pervasive::unreached(),
    }
}

/// The normalized form of `name`.
pub fn normalized(name: &Vec<u8>) -> (r: Vec<u8>)
    requires
        spec_name_ok(name@),
    ensures
        r@ == spec_normalized(name@),
{
    if is_qualified(name) {
        if is_call(name) {
            let a = arg(name);
            let mut r = fun(name);
            r.push(LPAREN);
            proof {
                assert(r@ =~= spec_fun(name@) + seq![LPAREN] + a@.take(0));
            }
            let mut i: usize = 0;
            while i < a.len()
                invariant
                    i <= a.len(),
                    r@ == spec_fun(name@) + seq![LPAREN] + a@.take(i as int),
                    a@ == spec_call_arg(name@).unwrap(),
                decreases a.len() - i,
            {
                r.push(a[i]);
                i = i + 1;
                proof {
                    assert(r@ =~= spec_fun(name@) + seq![LPAREN] + a@.take(i as int));
                }
            }
            r.push(RPAREN);
            proof {
                assert(r@ =~= spec_fun(name@) + seq![LPAREN] + spec_call_arg(name@).unwrap()
                    + seq![RPAREN]);
            }
            r
        } else {
            unqualifify(name)
        }
    } else {
        let mut r: Vec<u8> = Vec::new();
        let mut i: usize = 0;
        while i < name.len()
            invariant
                i <= name.len(),
                r@ == name@.take(i as int),
            decreases name.len() - i,
        {
            r.push(name[i]);
            i = i + 1;
            proof {
                assert(r@ =~= name@.take(i as int));
            }
        }
        proof {
            assert(name@.take(name@.len() as int) =~= name@);
        }
        r
    }
}

/// Field-level containment: names match after normalization, dictionary
/// identity and ordering flags match, types match or a declared 64-bit
/// signed integer accepts an unsigned one, a declared nullable field
/// accepts any candidate while a non-nullable one rejects a nullable
/// candidate, and the declared metadata is a superset of the candidate's.
pub open spec fn spec_field_contains(me: FieldV, other: FieldV) -> bool {
    &&& spec_normalized(me.name) == spec_normalized(other.name)
    &&& me.dict_id == other.dict_id
    &&& me.dict_is_ordered == other.dict_is_ordered
    &&& (me.data_type == other.data_type || (me.data_type == DataType::Int64
        && other.data_type == DataType::UInt64))
    &&& (me.nullable || !other.nullable)
    &&& spec_metadata_superset(me.metadata, other.metadata)
}

/// Whether the declared field `me` accepts the candidate field `other`.
pub fn field_contains(me: &Field, other: &Field) -> (r: bool)
    requires
        spec_name_ok(me@.name),
        spec_name_ok(other@.name),
    ensures
        r == spec_field_contains(me@, other@),
{
    let me_name = normalized(&me.name);
    let other_name = normalized(&other.name);

    let mut res = bytes_eq(&me_name, &other_name);
    res = res && me.dict_id == other.dict_id;
    res = res && (me.dict_is_ordered == other.dict_is_ordered);
    res = res && (me.data_type.eq_type(&other.data_type) || (me.data_type.eq_type(&DataType::Int64)
        && other.data_type.eq_type(&DataType::UInt64)));
    res = res && (me.nullable || !other.nullable);
    res = res && metadata_superset(&me.metadata, &other.metadata);
    res
}

/// Normalization is defined for the name of every field of `s`.
pub open spec fn spec_schema_names_ok(s: SchemaV) -> bool {
    forall|i: int| 0 <= i < s.fields.len() ==> spec_name_ok(#[trigger] s.fields[i].name)
}

/// Schema-level containment: equal field counts, pairwise field
/// containment by position, and schema metadata superset.
pub open spec fn spec_schema_contains(me: SchemaV, other: SchemaV) -> bool {
    &&& me.fields.len() == other.fields.len()
    &&& forall|i: int|
        0 <= i < me.fields.len() ==> spec_field_contains(
            #[trigger] me.fields[i],
            other.fields[i],
        )
    &&& spec_metadata_superset(me.metadata, other.metadata)
}

/// Whether the declared schema `me` accepts a batch of schema `other`.
pub fn schema_contains(me: &Schema, other: &Schema) -> (r: bool)
    requires
        spec_schema_names_ok(me@),
        spec_schema_names_ok(other@),
    ensures
        r == spec_schema_contains(me@, other@),
{
    if me.fields.len() != other.fields.len() {
        return false;
    }
    let mut i: usize = 0;
    while i < me.fields.len()
        invariant
            i <= me.fields.len(),
            me@.fields.len() == other@.fields.len(),
            me.fields.len() == me@.fields.len(),
            other.fields.len() == other@.fields.len(),
            spec_schema_names_ok(me@),
            spec_schema_names_ok(other@),
            forall|j: int|
                0 <= j < i ==> spec_field_contains(#[trigger] me@.fields[j], other@.fields[j]),
        decreases me.fields.len() - i,
    {
        proof {
            assert(me@.fields[i as int] == me.fields@[i as int]@);
            assert(other@.fields[i as int] == other.fields@[i as int]@);
        }
        if !field_contains(&me.fields[i], &other.fields[i]) {
            proof {
                assert(!spec_field_contains(me@.fields[i as int], other@.fields[i as int]));
            }
            return false;
        }
        i = i + 1;
    }
    metadata_superset(&me.metadata, &other.metadata)
}

} // verus!
