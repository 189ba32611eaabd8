use vstd::prelude::*;

use crate::ar_type::{ArType, TyView};

verus! {

/// `Err`, or a nullable `Err?`.
pub open spec fn spec_is_err_type(t: TyView) -> bool {
    match t {
        TyView::ErrType => true,
        TyView::Nullable(inner) => *inner is ErrType,
        _ => false,
    }
}

/// The type that the `?` operator yields on a value of type `t`, if it
/// applies: the success type of a `Result`, the payload of an `Option`, the
/// payload of a nullable type other than `Err?`.
pub open spec fn spec_try_ok_type(t: TyView) -> Option<TyView> {
    match t {
        TyView::Result(ok, _) => Some(*ok),
        TyView::Option(inner) => Some(*inner),
        TyView::Nullable(inner) => if *inner is ErrType {
            None
        } else {
            Some(*inner)
        },
        _ => None,
    }
}

pub fn is_err_type(ty: &ArType) -> (r: bool)
    ensures
        r == spec_is_err_type(ty@),
{
    match ty {
        ArType::ErrType => true,
        ArType::Nullable(inner) => {
            assert(ty@ == TyView::Nullable(Box::new((**inner)@)));
            match &**inner {
                ArType::ErrType => true,
                _ => false,
            }
        },
        _ => false,
    }
}

/// The success and error types of a `Result` type.
pub fn result_ok_err(ty: &ArType) -> (r: Option<(ArType, ArType)>)
    ensures
        match r {
            Some((ok, err)) => ty@ == TyView::Result(Box::new(ok@), Box::new(err@)),
            None => !(ty@ is Result),
        },
{
    match ty {
        ArType::Result(ok, err) => Some(((**ok).duplicate(), (**err).duplicate())),
        _ => None,
    }
}

pub fn is_result_type(ty: &ArType) -> (r: bool)
    ensures
        r == (ty@ is Result),
{
    result_ok_err(ty).is_some()
}

pub fn is_option_type(ty: &ArType) -> (r: bool)
    ensures
        r == (ty@ is Option),
{
    match ty {
        ArType::Option(_) => true,
        _ => false,
    }
}

/// The type that `?` yields on `ty`; `None` where `?` does not apply.
pub fn try_ok_type(ty: &ArType) -> (r: Option<ArType>)
    ensures
        match r {
            Some(t) => spec_try_ok_type(ty@) == Some(t@),
            None => spec_try_ok_type(ty@) is None,
        },
{
    if let Some((ok, _)) = result_ok_err(ty) {
        return Some(ok);
    }
    match ty {
        ArType::Option(inner) => Some((**inner).duplicate()),
        ArType::Nullable(inner) => {
            if is_err_type(ty) {
                None
            } else {
                Some((**inner).duplicate())
            }
        },
        _ => None,
    }
}

pub fn is_tryable_type(ty: &ArType) -> (r: bool)
    ensures
        r == (spec_try_ok_type(ty@) is Some),
{
    try_ok_type(ty).is_some()
}

} // verus!
