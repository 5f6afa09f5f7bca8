use vstd::prelude::*;

verus! {

use vstd::string::StringExecFns;
use crate::afs::FNode;
use crate::afs::FSError;
use crate::afs::FType;
use crate::afs::FTypeView;
use crate::utils::ext_of;
use crate::utils::extract_extension;

/// Relies on `uuid::Uuid::new_v4` and its `Display` impl: a random
/// version-4 identifier rendered in the hyphenated form, 36 characters.
#[verifier::external_body]
fn fresh_token() -> (r: String)
    ensures
        r@.len() == 36,
{
    uuid::Uuid::new_v4().to_string()
}

/// Decide what entry a create request makes, from the canonicalized path
/// and the request payload alone: a non-empty payload makes a file stored
/// under `token` with the path's extension, an empty one makes a folder.
/// An empty path would overwrite the root and is rejected.
pub fn plan_entry(pa: &[String], has_payload: bool, token: &String) -> (r: Result<FNode, FSError>)
    ensures
        match r {
            Ok(n) => {
                &&& pa@.len() > 0
                &&& n@.name == pa.deep_view().last()
                &&& (has_payload ==> n@.f_type == FTypeView::File(
                    "upload/"@ + token@ + ext_of(pa.deep_view().last()),
                ))
                &&& (!has_payload ==> n@.f_type is Folder)
            },
            Err(e) => {
                &&& pa@.len() == 0
                &&& e matches FSError::OperationFailed(m) && m@ == "Cannot overwrite root folder"@
            },
        },
{
    if pa.len() == 0 {
        return Err(FSError::OperationFailed(String::from_str("Cannot overwrite root folder")));
    }
    let name = pa[pa.len() - 1].clone();
    let f_type = if has_payload {
        let ext = extract_extension(name.as_str());
        let content_ref = String::from_str("upload/").concat(token.as_str()).concat(ext.as_str());
        FType::File(content_ref)
    } else {
        FType::Folder
    };
    Ok(FNode { name, f_type })
}

/// Classify a create request as the network interface does, generating the
/// content reference for a file from a fresh random token.
pub fn make_entry_node(pa: &[String], has_payload: bool) -> (r: Result<FNode, FSError>)
    ensures
        match r {
            Ok(n) => {
                &&& pa@.len() > 0
                &&& n@.name == pa.deep_view().last()
                &&& (has_payload ==> exists|tok: Seq<char>|
                    tok.len() == 36 && n@.f_type == FTypeView::File(
                        "upload/"@ + tok + ext_of(pa.deep_view().last()),
                    ))
                &&& (!has_payload ==> n@.f_type is Folder)
            },
            Err(e) => {
                &&& pa@.len() == 0
                &&& e matches FSError::OperationFailed(m) && m@ == "Cannot overwrite root folder"@
            },
        },
{
    let token = fresh_token();
    plan_entry(pa, has_payload, &token)
}

/// The content reference a raw read streams from: only a file has one; a
/// folder read over the raw interface reports `PathNotFound`.
pub fn raw_ref(n: FNode) -> (r: Result<String, FSError>)
    ensures
        match r {
            Ok(x) => n@.f_type == FTypeView::File(x@),
            Err(e) => e is PathNotFound && n@.f_type is Folder,
        },
{
    match n.f_type {
        FType::File(x) => Ok(x),
        FType::Folder => Err(FSError::PathNotFound),
    }
}

} // verus!
