//! The data shapes exchanged with the paste service. Their on-the-wire
//! encoding lives with the surrounding program.

use vstd::prelude::*;

verus! {

/// Body of an upload that asks the service for a particular slug.
#[derive(Debug)]
pub struct UploadRequest {
    pub slug: String,
    pub content: String,
}

/// The service's answer to an upload.
#[derive(Debug)]
pub struct UploadResponse {
    pub is_url: bool,
    pub key: String,
}

/// The service's answer when a call fails.
pub struct ErrMesg {
    pub message: String,
}

/// One stored document as the service describes it.
pub struct Document {
    pub slug: String,
    pub is_url: bool,
    pub content: String,
    pub viewcount: usize,
}

/// One row of the document listing.
#[derive(Debug)]
pub struct ListItem {
    pub slug: String,
    pub created: String,
    pub doctype: String,
}

impl ListItem {
    /// The listing line printed for this row.
    pub fn render(&self) -> (r: String)
        ensures
            r@ == self.slug@ + " ("@ + self.doctype@ + ")\ncreated: "@ + self.created@ + "\n"@,
    {
        let mut out = self.slug.clone();
        out.append(" (");
        out.append(self.doctype.as_str());
        out.append(")\ncreated: ");
        out.append(self.created.as_str());
        out.append("\n");
        out
    }
}

} // verus!
