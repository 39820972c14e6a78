//! The fields of a table constructor, by kind.

use vstd::prelude::*;
use vstd::std_specs::cmp::PartialEqSpec;

verus! {

/// One field of a table constructor. `E` is whatever stands for an
/// expression.
#[derive(Debug)]
pub enum Field<E> {
    /// `[key] = value`.
    ExpressionKey { key: E, value: E },
    /// `key = value`; the key is kept as written.
    NameKey { key: String, value: E },
    /// `value`, without a key.
    NoKey(E),
}

/// A table constructor: its fields in source order.
#[derive(Debug)]
pub struct TableConstructor<E> {
    pub fields: Vec<Field<E>>,
}

/// The key and value of each named field among the first `n` fields, in
/// order.
pub open spec fn named_upto<E>(fields: Seq<Field<E>>, n: nat) -> Seq<(Seq<char>, E)>
    decreases n,
{
    if n == 0 || n > fields.len() {
        Seq::empty()
    } else {
        match fields[n - 1] {
            Field::NameKey { key, value } => named_upto(fields, (n - 1) as nat).push((key@, value)),
            _ => named_upto(fields, (n - 1) as nat),
        }
    }
}

/// The value of each field without a key among the first `n` fields, in
/// order.
pub open spec fn unkeyed_upto<E>(fields: Seq<Field<E>>, n: nat) -> Seq<E>
    decreases n,
{
    if n == 0 || n > fields.len() {
        Seq::empty()
    } else {
        match fields[n - 1] {
            Field::NoKey(value) => unkeyed_upto(fields, (n - 1) as nat).push(value),
            _ => unkeyed_upto(fields, (n - 1) as nat),
        }
    }
}

/// The key and value of each field with a key expression among the first
/// `n` fields, in order.
pub open spec fn keyed_upto<E>(fields: Seq<Field<E>>, n: nat) -> Seq<(E, E)>
    decreases n,
{
    if n == 0 || n > fields.len() {
        Seq::empty()
    } else {
        match fields[n - 1] {
            Field::ExpressionKey { key, value } => keyed_upto(fields, (n - 1) as nat).push(
                (key, value),
            ),
            _ => keyed_upto(fields, (n - 1) as nat),
        }
    }
}

/// The value of the first field named `name`, from position `from` on.
pub open spec fn first_named<E>(fields: Seq<Field<E>>, name: Seq<char>, from: nat) -> Option<E>
    decreases fields.len() - from,
{
    if from >= fields.len() {
        None
    } else {
        match fields[from as int] {
            Field::NameKey { key, value } => if key@ == name {
                Some(value)
            } else {
                first_named(fields, name, from + 1)
            },
            _ => first_named(fields, name, from + 1),
        }
    }
}

/// The value of the first field whose key expression equals `index`, from
/// position `from` on.
pub open spec fn first_keyed<E: PartialEq>(fields: Seq<Field<E>>, index: E, from: nat) -> Option<E>
    decreases fields.len() - from,
{
    if from >= fields.len() {
        None
    } else {
        match fields[from as int] {
            Field::ExpressionKey { key, value } => if key.eq_spec(&index) {
                Some(value)
            } else {
                first_keyed(fields, index, from + 1)
            },
            _ => first_keyed(fields, index, from + 1),
        }
    }
}

/// What contracts say of a list of named fields.
pub open spec fn named_views<E>(named: Seq<(String, &E)>) -> Seq<(Seq<char>, E)> {
    named.map_values(|f: (String, &E)| (f.0@, *f.1))
}

/// What contracts say of a list of values.
pub open spec fn value_views<E>(values: Seq<&E>) -> Seq<E> {
    values.map_values(|v: &E| *v)
}

/// What contracts say of a list of keyed fields.
pub open spec fn keyed_views<E>(keyed: Seq<(&E, &E)>) -> Seq<(E, E)> {
    keyed.map_values(|f: (&E, &E)| (*f.0, *f.1))
}

/// The fields of a table constructor, told apart by the kind of their key.
pub trait Fields<E: PartialEq> {
    /// The fields, in source order.
    spec fn fields(&self) -> Seq<Field<E>>;

    /// The key and value of every named field, in order.
    fn named_fields(&self) -> (named: Vec<(String, &E)>)
        ensures
            named_views(named@) == named_upto(self.fields(), self.fields().len()),
    ;

    /// The value of the first field named `name`.
    fn named_field(&self, name: String) -> (found: Option<&E>)
        ensures
            match found {
                Some(value) => first_named(self.fields(), name@, 0) == Some(*value),
                None => first_named(self.fields(), name@, 0) is None,
            },
    ;

    /// The value of every field without a key, in order.
    fn indexed_fields(&self) -> (values: Vec<&E>)
        ensures
            value_views(values@) == unkeyed_upto(self.fields(), self.fields().len()),
    ;

    /// The value of the field without a key that has `index` such fields
    /// before it.
    fn indexed_field(&self, index: usize) -> (found: Option<&E>)
        ensures
            match found {
                Some(value) => index < unkeyed_upto(self.fields(), self.fields().len()).len()
                    && unkeyed_upto(self.fields(), self.fields().len())[index as int] == *value,
                None => index >= unkeyed_upto(self.fields(), self.fields().len()).len(),
            },
    ;

    /// The key and value of every field with a key expression, in order.
    fn expr_fields(&self) -> (keyed: Vec<(&E, &E)>)
        ensures
            keyed_views(keyed@) == keyed_upto(self.fields(), self.fields().len()),
    ;

    /// The value of the first field whose key expression equals `index`.
    /// What equal means is up to `E`.
    fn expr_field(&self, index: &E) -> (found: Option<&E>)
        ensures
            E::obeys_eq_spec() ==> (match found {
                Some(value) => first_keyed(self.fields(), *index, 0) == Some(*value),
                None => first_keyed(self.fields(), *index, 0) is None,
            }),
            found is Some ==> exists|i: int|
                0 <= i < self.fields().len() && (#[trigger] self.fields()[i]) is ExpressionKey
                    && self.fields()[i]->ExpressionKey_value == *found->0,
    ;
}

impl<E: PartialEq> Fields<E> for TableConstructor<E> {
    open spec fn fields(&self) -> Seq<Field<E>> {
        self.fields@
    }

    fn named_fields(&self) -> (named: Vec<(String, &E)>) {
        let mut named: Vec<(String, &E)> = Vec::new();
        let mut i: usize = 0;
        while i < self.fields.len()
            invariant
                i <= self.fields.len(),
                named_views(named@) == named_upto(self.fields@, i as nat),
            decreases self.fields.len() - i,
        {
            let ghost before = named@;
            match &self.fields[i] {
                Field::NameKey { key, value } => {
                    named.push((key.clone(), value));
                    assert(named_views(named@) =~= named_views(before).push((key@, *value)));
                },
                _ => {},
            }
            i += 1;
        }
        named
    }

    fn named_field(&self, name: String) -> (found: Option<&E>) {
        let mut i: usize = 0;
        while i < self.fields.len()
            invariant
                i <= self.fields.len(),
                first_named(self.fields@, name@, 0) == first_named(self.fields@, name@, i as nat),
            decreases self.fields.len() - i,
        {
            match &self.fields[i] {
                Field::NameKey { key, value } => {
                    if *key == name {
                        return Some(value);
                    }
                },
                _ => {},
            }
            i += 1;
        }
        None
    }

    fn indexed_fields(&self) -> (values: Vec<&E>) {
        let mut values: Vec<&E> = Vec::new();
        let mut i: usize = 0;
        while i < self.fields.len()
            invariant
                i <= self.fields.len(),
                value_views(values@) == unkeyed_upto(self.fields@, i as nat),
            decreases self.fields.len() - i,
        {
            let ghost before = values@;
            match &self.fields[i] {
                Field::NoKey(value) => {
                    values.push(value);
                    assert(value_views(values@) =~= value_views(before).push(*value));
                },
                _ => {},
            }
            i += 1;
        }
        values
    }

    fn indexed_field(&self, index: usize) -> (found: Option<&E>) {
        let mut seen: usize = 0;
        let mut i: usize = 0;
        while i < self.fields.len()
            invariant
                i <= self.fields.len(),
                seen == unkeyed_upto(self.fields@, i as nat).len(),
                seen <= i,
                seen <= index,
            decreases self.fields.len() - i,
        {
            match &self.fields[i] {
                Field::NoKey(value) => {
                    if seen == index {
                        proof {
                            lemma_unkeyed_stays(self.fields@, (i + 1) as nat, self.fields@.len());
                        }
                        return Some(value);
                    }
                    seen += 1;
                },
                _ => {},
            }
            i += 1;
        }
        None
    }

    fn expr_fields(&self) -> (keyed: Vec<(&E, &E)>) {
        let mut keyed: Vec<(&E, &E)> = Vec::new();
        let mut i: usize = 0;
        while i < self.fields.len()
            invariant
                i <= self.fields.len(),
                keyed_views(keyed@) == keyed_upto(self.fields@, i as nat),
            decreases self.fields.len() - i,
        {
            let ghost before = keyed@;
            match &self.fields[i] {
                Field::ExpressionKey { key, value } => {
                    keyed.push((key, value));
                    assert(keyed_views(keyed@) =~= keyed_views(before).push((*key, *value)));
                },
                _ => {},
            }
            i += 1;
        }
        keyed
    }

    fn expr_field(&self, index: &E) -> (found: Option<&E>) {
        let mut i: usize = 0;
        while i < self.fields.len()
            invariant
                i <= self.fields.len(),
                E::obeys_eq_spec() ==> first_keyed(self.fields@, *index, 0) == first_keyed(
                    self.fields@,
                    *index,
                    i as nat,
                ),
            decreases self.fields.len() - i,
        {
            match &self.fields[i] {
                Field::ExpressionKey { key, value } => {
                    if *key == *index {
                        assert(self.fields@[i as int] is ExpressionKey);
                        return Some(value);
                    }
                },
                _ => {},
            }
            i += 1;
        }
        None
    }
}

/// The values without a key among more fields begin with those among
/// fewer.
pub proof fn lemma_unkeyed_stays<E>(fields: Seq<Field<E>>, k: nat, n: nat)
    requires
        k <= n <= fields.len(),
    ensures
        unkeyed_upto(fields, k).len() <= unkeyed_upto(fields, n).len(),
        forall|i: int|
            0 <= i < unkeyed_upto(fields, k).len() ==> unkeyed_upto(fields, n)[i] == unkeyed_upto(
                fields,
                k,
            )[i],
    decreases n,
{
    if k < n {
        lemma_unkeyed_stays(fields, k, (n - 1) as nat);
    }
}

} // verus!
