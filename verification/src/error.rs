//! Errors of the metadata store.

use vstd::prelude::*;

verus! {

/// Why a metadata operation did not come to its end.
#[derive(Debug, PartialEq, Eq)]
pub enum MetaError {
    /// Something is wrong; the text says what.
    Internal(String),
    /// A concurrent change got in the way: the operation is to be tried again.
    ContinueRetry,
    /// A concurrent change got in the way, and nobody is to try again.
    TxnConflict,
}

/// A [`MetaError`] with its text as characters.
pub enum MetaErrorView {
    Internal(Seq<char>),
    ContinueRetry,
    TxnConflict,
}

impl View for MetaError {
    type V = MetaErrorView;

    open spec fn view(&self) -> MetaErrorView {
        match self {
            MetaError::Internal(text) => MetaErrorView::Internal(text@),
            MetaError::ContinueRetry => MetaErrorView::ContinueRetry,
            MetaError::TxnConflict => MetaErrorView::TxnConflict,
        }
    }
}

impl MetaError {
    /// An internal error whose text is `what` followed by `detail`.
    pub fn internal(what: &str, detail: &str) -> (res: MetaError)
        ensures
            res@ == MetaErrorView::Internal(what@ + detail@),
            res matches MetaError::Internal(text) && text@ == what@ + detail@,
    {
        let mut text = what.to_owned();
        text.append(detail);
        MetaError::Internal(text)
    }
}

/// The view of an error tells its kind and, of an internal error, the whole text.
pub proof fn lemma_error_view(e: MetaError, text: Seq<char>)
    ensures
        e@ == MetaErrorView::Internal(text) <==> (e matches MetaError::Internal(own) && own@
            == text),
        e@ == MetaErrorView::ContinueRetry <==> e == MetaError::ContinueRetry,
        e@ == MetaErrorView::TxnConflict <==> e == MetaError::TxnConflict,
{
}

} // verus!
