//! Step-wise construction of a `PemMessage`: label, headers and content each
//! default to empty.
use crate::headers::{empty_header, HeaderModel, PemHeader};
use crate::{MessageModel, PemMessage};
use vstd::prelude::*;

verus! {

/// Collects the parts of a `PemMessage` one at a time.
pub struct PemBuilder {
    label: Option<String>,
    headers: Option<PemHeader>,
    content: Vec<u8>,
}

pub struct BuilderModel {
    pub label: Option<Seq<char>>,
    pub headers: Option<HeaderModel>,
    pub content: Seq<u8>,
}

impl View for PemBuilder {
    type V = BuilderModel;

    closed spec fn view(&self) -> BuilderModel {
        BuilderModel {
            label: match self.label {
                Some(s) => Some(s@),
                None => None,
            },
            headers: match self.headers {
                Some(h) => Some(h@),
                None => None,
            },
            content: self.content@,
        }
    }
}

impl Default for PemBuilder {
    fn default() -> (r: Self)
        ensures
            r@ == (BuilderModel { label: None, headers: None, content: Seq::empty() }),
    {
        let r = PemBuilder { label: None, headers: None, content: Vec::new() };
        assert(r@.content =~= Seq::<u8>::empty());
        r
    }
}

impl PemBuilder {
    pub fn label(&mut self, label_str: &str) -> (r: &mut Self)
        ensures
            (*r)@ == (BuilderModel {
                label: Some(label_str@),
                headers: old(self)@.headers,
                content: old(self)@.content,
            }),
            *final(self) == *final(r),
    {
        self.label = Some(label_str.to_owned());
        self
    }

    pub fn headers(&mut self, headers: PemHeader) -> (r: &mut Self)
        ensures
            (*r)@ == (BuilderModel {
                label: old(self)@.label,
                headers: Some(headers@),
                content: old(self)@.content,
            }),
            *final(self) == *final(r),
    {
        self.headers = Some(headers);
        self
    }

    pub fn content(&mut self, data: Vec<u8>) -> (r: &mut Self)
        ensures
            (*r)@ == (BuilderModel {
                label: old(self)@.label,
                headers: old(self)@.headers,
                content: data@,
            }),
            *final(self) == *final(r),
    {
        self.content = data;
        self
    }

    /// The message; a part never given is empty.
    pub fn build(self) -> (r: PemMessage)
        ensures
            r@ == (MessageModel {
                label: match self@.label {
                    Some(l) => l,
                    None => Seq::empty(),
                },
                headers: match self@.headers {
                    Some(h) => h,
                    None => empty_header(),
                },
                content: self@.content,
            }),
    {
        let label = match self.label {
            Some(s) => s,
            None => String::new(),
        };
        let headers = match self.headers {
            Some(h) => h,
            None => PemHeader { proc_type: None, content_domain: None, dek_info: None },
        };
        PemMessage { label, headers, content: self.content }
    }
}

} // verus!
