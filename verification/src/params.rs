//! The opaque structured parameter values handed to node factories: a
//! small value model with scalar fields and one level of named fields,
//! enough for every factory contract while staying plain data.

use vstd::prelude::*;

verus! {

/// A scalar parameter field.
#[derive(Clone, Debug, PartialEq)]
pub enum ParamScalar {
    Null,
    Bool(bool),
    Int(i64),
    Text(String),
}

/// The model of a scalar parameter field.
pub enum ParamScalarView {
    Null,
    Bool(bool),
    Int(int),
    Text(Seq<char>),
}

impl View for ParamScalar {
    type V = ParamScalarView;

    open spec fn view(&self) -> ParamScalarView {
        match self {
            ParamScalar::Null => ParamScalarView::Null,
            ParamScalar::Bool(b) => ParamScalarView::Bool(*b),
            ParamScalar::Int(v) => ParamScalarView::Int(*v as int),
            ParamScalar::Text(s) => ParamScalarView::Text(s@),
        }
    }
}

/// A parameter value: a scalar, or named scalar fields.
#[derive(Clone, Debug, PartialEq)]
pub enum ParamValue {
    Null,
    Bool(bool),
    Int(i64),
    Text(String),
    Object(Vec<(String, ParamScalar)>),
}

/// The model of a parameter value.
pub enum ParamValueView {
    Null,
    Bool(bool),
    Int(int),
    Text(Seq<char>),
    Object(Seq<(Seq<char>, ParamScalarView)>),
}

impl View for ParamValue {
    type V = ParamValueView;

    open spec fn view(&self) -> ParamValueView {
        match self {
            ParamValue::Null => ParamValueView::Null,
            ParamValue::Bool(b) => ParamValueView::Bool(*b),
            ParamValue::Int(v) => ParamValueView::Int(*v as int),
            ParamValue::Text(s) => ParamValueView::Text(s@),
            ParamValue::Object(fields) => ParamValueView::Object(
                fields@.map_values(|f: (String, ParamScalar)| (f.0@, f.1@)),
            ),
        }
    }
}

/// The first field with the given name, if any.
pub open spec fn spec_object_get(
    fields: Seq<(Seq<char>, ParamScalarView)>,
    key: Seq<char>,
) -> Option<ParamScalarView>
    decreases fields.len(),
{
    if fields.len() == 0 {
        None
    } else if fields[0].0 == key {
        Some(fields[0].1)
    } else {
        spec_object_get(fields.drop_first(), key)
    }
}

/// What looking a key up in a parameter value yields: a field of an
/// object, nothing otherwise.
pub open spec fn spec_param_get(v: ParamValueView, key: Seq<char>) -> Option<ParamScalarView> {
    match v {
        ParamValueView::Object(fields) => spec_object_get(fields, key),
        _ => None,
    }
}

impl ParamScalar {
    /// A copy whose model equals this scalar's, unlike the derived `Clone`.
    pub fn clone_scalar(&self) -> (r: ParamScalar)
        ensures
            r@ == self@,
    {
        match self {
            ParamScalar::Null => ParamScalar::Null,
            ParamScalar::Bool(b) => ParamScalar::Bool(*b),
            ParamScalar::Int(v) => ParamScalar::Int(*v),
            ParamScalar::Text(s) => ParamScalar::Text(s.clone()),
        }
    }
}

impl ParamValue {
    /// A copy whose model equals this value's, unlike the derived `Clone`.
    pub fn clone_value(&self) -> (r: ParamValue)
        ensures
            r@ == self@,
    {
        match self {
            ParamValue::Null => ParamValue::Null,
            ParamValue::Bool(b) => ParamValue::Bool(*b),
            ParamValue::Int(v) => ParamValue::Int(*v),
            ParamValue::Text(s) => ParamValue::Text(s.clone()),
            ParamValue::Object(fields) => {
                let n = fields.len();
                let mut copied: Vec<(String, ParamScalar)> = Vec::new();
                let mut i: usize = 0;
                let ghost mapped = fields@.map_values(|f: (String, ParamScalar)| (f.0@, f.1@));
                while i < n
                    invariant
                        n == fields@.len(),
                        i <= n,
                        mapped == fields@.map_values(|f: (String, ParamScalar)| (f.0@, f.1@)),
                        copied@.len() == i,
                        forall|j: int|
                            0 <= j < i ==> ((#[trigger] copied@[j]).0@, copied@[j].1@) == mapped[j],
                    decreases n - i,
                {
                    proof {
                        assert(mapped[i as int] == (fields@[i as int].0@, fields@[i as int].1@));
                    }
                    let name = fields[i].0.clone();
                    let scalar = fields[i].1.clone_scalar();
                    copied.push((name, scalar));
                    i = i + 1;
                }
                let r = ParamValue::Object(copied);
                proof {
                    assert(copied@.map_values(|f: (String, ParamScalar)| (f.0@, f.1@)) =~= mapped);
                }
                r
            },
        }
    }

    /// Looks a named field up; only objects have fields.
    pub fn get(&self, key: &str) -> (r: Option<&ParamScalar>)
        ensures
            match r {
                Some(p) => spec_param_get(self@, key@) == Some(p@),
                None => spec_param_get(self@, key@) is None,
            },
    {
        match self {
            ParamValue::Object(fields) => {
                let key_string = key.to_owned();
                let n = fields.len();
                let mut i: usize = 0;
                proof {
                    let mapped = fields@.map_values(|f: (String, ParamScalar)| (f.0@, f.1@));
                    assert(mapped.skip(0) =~= mapped);
                }
                while i < n
                    invariant
                        n == fields@.len(),
                        i <= n,
                        key_string@ == key@,
                        spec_param_get(self@, key@) == spec_object_get(
                            fields@.map_values(|f: (String, ParamScalar)| (f.0@, f.1@)).skip(
                                i as int,
                            ),
                            key@,
                        ),
                    decreases n - i,
                {
                    let ghost mapped = fields@.map_values(|f: (String, ParamScalar)| (f.0@, f.1@));
                    if fields[i].0 == key_string {
                        proof {
                            assert(mapped.skip(i as int)[0] == (fields@[i as int].0@, fields@[
                                i as int].1@));
                        }
                        return Some(&fields[i].1);
                    }
                    proof {
                        assert(mapped.skip(i as int)[0] == (fields@[i as int].0@, fields@[
                            i as int].1@));
                        assert(mapped.skip(i as int).drop_first() =~= mapped.skip(i as int + 1));
                    }
                    i = i + 1;
                }
                proof {
                    let mapped = fields@.map_values(|f: (String, ParamScalar)| (f.0@, f.1@));
                    assert(mapped.skip(n as int) =~= Seq::<(Seq<char>, ParamScalarView)>::empty());
                }
                None
            },
            _ => None,
        }
    }
}

} // verus!
