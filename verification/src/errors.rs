use vstd::prelude::*;

verus! {

/// The mathematical shape of an error: its kind and its message text.
pub enum ErrModel {
    Io(Seq<char>),
    Sql(Seq<char>),
}

/// The error taxonomy: I/O failures around the persisted document, and
/// statement failures (unsupported or malformed statements).
#[derive(Debug)]
pub enum LocalDBError {
    IoError(String),
    SqlError(String),
}

impl View for LocalDBError {
    type V = ErrModel;

    open spec fn view(&self) -> ErrModel {
        match self {
            LocalDBError::IoError(m) => ErrModel::Io(m@),
            LocalDBError::SqlError(m) => ErrModel::Sql(m@),
        }
    }
}

impl Clone for LocalDBError {
    fn clone(&self) -> (r: Self)
        ensures
            r == *self,
    {
        match self {
            LocalDBError::IoError(m) => LocalDBError::IoError(m.clone()),
            LocalDBError::SqlError(m) => LocalDBError::SqlError(m.clone()),
        }
    }
}

impl LocalDBError {
    /// The message text carried by the error.
    pub fn message(&self) -> (r: &str)
        ensures
            match self@ {
                ErrModel::Io(m) => r@ == m,
                ErrModel::Sql(m) => r@ == m,
            },
    {
        match self {
            LocalDBError::IoError(m) => m.as_str(),
            LocalDBError::SqlError(m) => m.as_str(),
        }
    }
}

} // verus!
