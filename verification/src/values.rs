use vstd::prelude::*;

verus! {

/// The mathematical value that a `LocalDBValue` stands for: an unbounded
/// integer or a sequence of characters, tagged exactly as the executable
/// value is.
pub enum ValueModel {
    Int(int),
    Text(Seq<char>),
    Uuid(Seq<char>),
}

/// A typed scalar field value.  The tag fully determines the interpretation:
/// a 64-bit signed integer, a text string, or a UUID-like identifier token
/// (held as a string, not validated as a true UUID).
#[derive(Debug)]
pub enum LocalDBValue {
    INT(i64),
    TEXT(String),
    UUID(String),
}

impl View for LocalDBValue {
    type V = ValueModel;

    open spec fn view(&self) -> ValueModel {
        match self {
            LocalDBValue::INT(n) => ValueModel::Int(*n as int),
            LocalDBValue::TEXT(s) => ValueModel::Text(s@),
            LocalDBValue::UUID(s) => ValueModel::Uuid(s@),
        }
    }
}

impl Clone for LocalDBValue {
    fn clone(&self) -> (r: Self)
        ensures
            r == *self,
    {
        match self {
            LocalDBValue::INT(n) => LocalDBValue::INT(*n),
            LocalDBValue::TEXT(s) => LocalDBValue::TEXT(s.clone()),
            LocalDBValue::UUID(s) => LocalDBValue::UUID(s.clone()),
        }
    }
}

} // verus!
