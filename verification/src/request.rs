//! The parsed request: its textual fields, header/cookie/parameter tables,
//! form data and raw body.
use crate::table::Table;
use vstd::prelude::*;

verus! {

/// An uploaded file from a multipart form body.
#[derive(Debug, Clone)]
pub struct FormFile {
    pub filename: String,
    pub content_type: String,
    pub data: Vec<u8>,
}

/// The mathematical image of a [`FormFile`].
pub ghost struct FileView {
    pub filename: Seq<char>,
    pub content_type: Seq<char>,
    pub data: Seq<u8>,
}

impl View for FormFile {
    type V = FileView;

    open spec fn view(&self) -> FileView {
        FileView {
            filename: self.filename@,
            content_type: self.content_type@,
            data: self.data@,
        }
    }
}

/// A parsed HTTP/1.1 request.
#[derive(Debug)]
pub struct HttpRequest {
    pub method: String,
    pub path: String,
    pub query_string: Option<String>,
    pub version: String,
    pub headers: Table<String>,
    pub cookies: Table<String>,
    pub query_params: Table<String>,
    pub form_fields: Table<String>,
    pub form_files: Table<FormFile>,
    pub body: Vec<u8>,
}

/// The mathematical image of an [`HttpRequest`].
pub ghost struct ReqView {
    pub method: Seq<char>,
    pub path: Seq<char>,
    pub query_string: Option<Seq<char>>,
    pub version: Seq<char>,
    pub headers: Seq<(Seq<char>, Seq<char>)>,
    pub cookies: Seq<(Seq<char>, Seq<char>)>,
    pub query_params: Seq<(Seq<char>, Seq<char>)>,
    pub form_fields: Seq<(Seq<char>, Seq<char>)>,
    pub form_files: Seq<(Seq<char>, FileView)>,
    pub body: Seq<u8>,
}

impl View for HttpRequest {
    type V = ReqView;

    open spec fn view(&self) -> ReqView {
        ReqView {
            method: self.method@,
            path: self.path@,
            query_string: match self.query_string {
                Some(q) => Some(q@),
                None => None,
            },
            version: self.version@,
            headers: self.headers@,
            cookies: self.cookies@,
            query_params: self.query_params@,
            form_fields: self.form_fields@,
            form_files: self.form_files@,
            body: self.body@,
        }
    }
}

impl HttpRequest {
    /// All tables of the request have distinct keys.
    pub open spec fn wf(&self) -> bool {
        self.headers.wf() && self.cookies.wf() && self.query_params.wf()
            && self.form_fields.wf() && self.form_files.wf()
    }
}

} // verus!
