use vstd::prelude::*;

verus! {

/// A single stored fact: identity, ownership, categorical and free-text
/// fields, and a timestamp.
///
/// `created_at` is an order-preserving encoding of the record's
/// epoch-seconds timestamp: callers that start from a fractional timestamp
/// map it to this key through any monotone encoding before it reaches the
/// engine, so every comparison the engine makes is a plain integer
/// comparison under the same total order.
pub struct Record {
    pub id: String,
    pub owner: String,
    pub kind: String,
    pub subjects: Vec<String>,
    pub objects: Vec<String>,
    pub keywords: Vec<String>,
    pub tags: Vec<String>,
    pub importance: u8,
    pub confidence: u8,
    pub created_at: u64,
    pub access_count: u32,
    pub chat_id: Option<String>,
    pub content_preview: Option<String>,
}

/// The mathematical shape of a record: every string is a character sequence.
pub struct RecordModel {
    pub id: Seq<char>,
    pub owner: Seq<char>,
    pub kind: Seq<char>,
    pub subjects: Seq<Seq<char>>,
    pub objects: Seq<Seq<char>>,
    pub keywords: Seq<Seq<char>>,
    pub tags: Seq<Seq<char>>,
    pub importance: u8,
    pub confidence: u8,
    pub created_at: u64,
    pub access_count: u32,
    pub chat_id: Option<Seq<char>>,
    pub content_preview: Option<Seq<char>>,
}

impl View for Record {
    type V = RecordModel;

    open spec fn view(&self) -> RecordModel {
        RecordModel {
            id: self.id@,
            owner: self.owner@,
            kind: self.kind@,
            subjects: self.subjects.deep_view(),
            objects: self.objects.deep_view(),
            keywords: self.keywords.deep_view(),
            tags: self.tags.deep_view(),
            importance: self.importance,
            confidence: self.confidence,
            created_at: self.created_at,
            access_count: self.access_count,
            chat_id: self.chat_id.deep_view(),
            content_preview: self.content_preview.deep_view(),
        }
    }
}

impl DeepView for Record {
    type V = RecordModel;

    open spec fn deep_view(&self) -> RecordModel {
        self.view()
    }
}

/// Clones a vector of strings, keeping every element's characters.
pub(crate) fn clone_strings(v: &Vec<String>) -> (r: Vec<String>)
    ensures
        r@ == v@,
{
    let r = v.clone();
    assert(forall|i: int| 0 <= i < v@.len() ==> r@[i] == v@[i]);
    assert(r@ =~= v@);
    r
}

/// Clones an optional string, keeping its characters.
pub(crate) fn clone_opt_string(v: &Option<String>) -> (r: Option<String>)
    ensures
        r == v,
{
    match v {
        Some(s) => Some(s.clone()),
        None => None,
    }
}

impl Record {
    /// A fresh copy of the record with the same model.
    pub fn duplicate(&self) -> (r: Record)
        ensures
            r@ == self@,
    {
        let r = Record {
            id: self.id.clone(),
            owner: self.owner.clone(),
            kind: self.kind.clone(),
            subjects: clone_strings(&self.subjects),
            objects: clone_strings(&self.objects),
            keywords: clone_strings(&self.keywords),
            tags: clone_strings(&self.tags),
            importance: self.importance,
            confidence: self.confidence,
            created_at: self.created_at,
            access_count: self.access_count,
            chat_id: clone_opt_string(&self.chat_id),
            content_preview: clone_opt_string(&self.content_preview),
        };
        r
    }
}

} // verus!
