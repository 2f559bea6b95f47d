//! The envelope every HTTP response of the note application carries:
//! a success flag, a human-readable message, and the data of a
//! successful response.

use vstd::prelude::*;

verus! {

/// The response envelope.
pub struct ApiResponse<T> {
    pub success: bool,
    pub message: String,
    pub data: Option<T>,
}

impl<T> ApiResponse<T> {
    /// A successful envelope holding `data`.
    pub fn success(data: T, message: &str) -> (r: ApiResponse<T>)
        ensures
            r.success == true,
            r.message@ == message@,
            r.data == Some(data),
    {
        ApiResponse { success: true, message: message.to_owned(), data: Some(data) }
    }
}

impl ApiResponse<()> {
    /// A failed envelope: no data.
    pub fn error(message: &str) -> (r: ApiResponse<()>)
        ensures
            r.success == false,
            r.message@ == message@,
            r.data is None,
    {
        ApiResponse { success: false, message: message.to_owned(), data: None }
    }
}

} // verus!
