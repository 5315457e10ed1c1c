//! The types of the values handled by modules and stored in the database.
use vstd::prelude::*;
use crate::numeric::{Numeric, canonical_number};

verus! {

/// Errors when reading a type name or a value of a type.
#[derive(Debug, PartialEq, Eq)]
pub enum ValueTypeError {
    /// Could not parse "{0}" as a valid type.
    UnknownType(String),
    /// Could not parse the value "{1}" into a {0} type.
    ParseImpossible(ValueType, String),
}

/// All types that can be returned by functions.
#[derive(Debug, Clone, Copy, PartialEq, Eq, Structural)]
pub enum ValueType {
    /// Real numbers.
    Numeric,
    /// String values.
    String,
    /// Boolean values.
    Bool,
    /// Simple undirected graphs written in Nauty's g6 format.
    Graph,
}

/// All values that can be given to a function or returned by it.
#[derive(Debug, PartialEq, Eq)]
pub enum ConstantValue {
    /// A real value.
    Numeric(Numeric),
    /// A string value.
    String(String),
    /// A string referring to a column or a value of an SQL query.
    Identifier(String),
    /// A boolean value.
    Bool(bool),
}

impl ConstantValue {
    pub fn copy(&self) -> (r: ConstantValue)
        ensures
            r == *self,
    {
        match self {
            ConstantValue::Numeric(n) => ConstantValue::Numeric(n.copy()),
            ConstantValue::String(s) => ConstantValue::String(s.clone()),
            ConstantValue::Identifier(s) => ConstantValue::Identifier(s.clone()),
            ConstantValue::Bool(b) => ConstantValue::Bool(*b),
        }
    }
}

impl Clone for ConstantValue {
    fn clone(&self) -> (r: Self)
        ensures
            r == *self,
    {
        self.copy()
    }
}

/// The name of a value type, as it is displayed.
pub open spec fn value_type_name(t: ValueType) -> Seq<char> {
    match t {
        ValueType::Numeric => "Numeric"@,
        ValueType::String => "String"@,
        ValueType::Bool => "Bool"@,
        ValueType::Graph => "Graph"@,
    }
}

/// The boolean written as `s`, in the syntax `true` / `false`.
pub open spec fn bool_of(s: Seq<char>) -> Option<bool> {
    if s == "true"@ {
        Some(true)
    } else if s == "false"@ {
        Some(false)
    } else {
        None
    }
}

/// `r` is the value of type `t` written as `s`, or the error that reading it gives.
pub open spec fn is_value_of(t: ValueType, s: String, r: Result<ConstantValue, ValueTypeError>) -> bool {
    match t {
        ValueType::Numeric => match canonical_number(s@) {
            Some(c) => r matches Ok(ConstantValue::Numeric(n)) && n@ == c,
            None => r == Err::<ConstantValue, ValueTypeError>(ValueTypeError::ParseImpossible(t, s)),
        },
        ValueType::Bool => match bool_of(s@) {
            Some(b) => r == Ok::<ConstantValue, ValueTypeError>(ConstantValue::Bool(b)),
            None => r == Err::<ConstantValue, ValueTypeError>(ValueTypeError::ParseImpossible(t, s)),
        },
        ValueType::String | ValueType::Graph => r == Ok::<ConstantValue, ValueTypeError>(ConstantValue::String(s)),
    }
}

/// The lowercase version of a string, as `str::to_lowercase` computes it.
pub uninterp spec fn spec_to_lowercase(s: Seq<char>) -> Seq<char>;

pub open spec fn ascii_lower(s: Seq<char>) -> Seq<char> {
    Seq::new(s.len(), |i: int| crate::numeric::lower_char(s[i]))
}

/// `str::to_lowercase`: the lowercase version of `s`. On ASCII text this is
/// the ASCII lowercase; on other text the result is named, not stated.
#[verifier::external_body]
pub(crate) fn to_lowercase(s: &str) -> (r: String)
    ensures
        r@ == spec_to_lowercase(s@),
        vstd::string::is_ascii(s) ==> r@ == ascii_lower(s@),
{
    s.to_lowercase()
}

/// The type named `n` (a lowercase name).
pub open spec fn type_of_name(n: Seq<char>) -> Option<ValueType> {
    if n == "numeric"@ {
        Some(ValueType::Numeric)
    } else if n == "graph"@ {
        Some(ValueType::Graph)
    } else if n == "string"@ {
        Some(ValueType::String)
    } else if n == "bool"@ {
        Some(ValueType::Bool)
    } else {
        None
    }
}

impl ValueType {
    /// The name of this type.
    pub fn name(&self) -> (r: String)
        ensures
            r@ == value_type_name(*self),
    {
        proof {
            reveal_strlit("Numeric");
            reveal_strlit("String");
            reveal_strlit("Bool");
            reveal_strlit("Graph");
        }
        String::from_str(
            match self {
                ValueType::Numeric => "Numeric",
                ValueType::String => "String",
                ValueType::Bool => "Bool",
                ValueType::Graph => "Graph",
            },
        )
    }

    /// Reads the value `str` as a value of this type.
    /// # Errors
    /// [`ValueTypeError::ParseImpossible`] if `str` is not a writing of such a value.
    pub fn translate_into_const(&self, str: String) -> (r: Result<ConstantValue, ValueTypeError>)
        ensures
            is_value_of(*self, str, r),
    {
        proof {
            reveal_strlit("true");
            reveal_strlit("false");
        }
        match self {
            ValueType::Numeric => match Numeric::parse(str.as_str()) {
                Some(n) => Ok(ConstantValue::Numeric(n)),
                None => Err(ValueTypeError::ParseImpossible(*self, str)),
            },
            ValueType::Bool => {
                let t = String::from_str("true");
                let f = String::from_str("false");
                if str == t {
                    Ok(ConstantValue::Bool(true))
                } else if str == f {
                    Ok(ConstantValue::Bool(false))
                } else {
                    Err(ValueTypeError::ParseImpossible(*self, str))
                }
            },
            ValueType::String | ValueType::Graph => Ok(ConstantValue::String(str)),
        }
    }

    /// Reads a type name, whatever its case.
    /// # Errors
    /// [`ValueTypeError::UnknownType`] (holding the lowercase name) if the name is unknown.
    pub fn try_from_name(value: String) -> (r: Result<ValueType, ValueTypeError>)
        ensures
            ({
                let low = spec_to_lowercase(value@);
                match type_of_name(low) {
                    Some(t) => r == Ok::<ValueType, ValueTypeError>(t),
                    None => r matches Err(ValueTypeError::UnknownType(n)) && n@ == low,
                }
            }),
    {
        proof {
            reveal_strlit("numeric");
            reveal_strlit("graph");
            reveal_strlit("string");
            reveal_strlit("bool");
        }
        let low = to_lowercase(value.as_str());
        if low == String::from_str("numeric") {
            Ok(ValueType::Numeric)
        } else if low == String::from_str("graph") {
            Ok(ValueType::Graph)
        } else if low == String::from_str("string") {
            Ok(ValueType::String)
        } else if low == String::from_str("bool") {
            Ok(ValueType::Bool)
        } else {
            Err(ValueTypeError::UnknownType(low))
        }
    }
}

} // verus!
