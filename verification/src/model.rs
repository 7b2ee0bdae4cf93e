//! The output document model and the engine's error type.

use vstd::prelude::*;

use crate::json::JsonValue;
use crate::json::SpecJson;

verus! {

/// A table block: rows with optional columns and title, plus open
/// per-entry metadata fields.
#[derive(Debug, PartialEq, Eq)]
pub struct TableModel {
    pub title: JsonValue,
    pub rows: JsonValue,
    pub columns: JsonValue,
    pub metadata: Vec<(String, JsonValue)>,
}

/// A free-content block: an array of data values with an optional
/// title, plus open per-entry metadata fields.
#[derive(Debug, PartialEq, Eq)]
pub struct ContentModel {
    pub title: JsonValue,
    pub data: JsonValue,
    pub metadata: Vec<(String, JsonValue)>,
}

/// One assembled content element.
#[derive(Debug, PartialEq, Eq)]
pub enum ContentData {
    ContentModel(ContentModel),
    TableModel(TableModel),
}

/// One transformed record: only the keys whose mapping entry resolved
/// are present.
#[derive(Debug, PartialEq, Eq)]
pub struct DocumentModel {
    pub id: Option<JsonValue>,
    pub name: Option<JsonValue>,
    pub metadata: Option<JsonValue>,
    pub content: Option<Vec<ContentData>>,
}

/// What went wrong: a defect of the mapping, or of the data.
#[derive(Debug, PartialEq, Eq)]
pub enum TransformError {
    Configuration(String),
    Data(String),
}

/// The model of a `TableModel`.
#[verifier::ext_equal]
pub struct SpecTableModel {
    pub title: SpecJson,
    pub rows: SpecJson,
    pub columns: SpecJson,
    pub metadata: Seq<(Seq<char>, SpecJson)>,
}

/// The model of a `ContentModel`.
#[verifier::ext_equal]
pub struct SpecContentModel {
    pub title: SpecJson,
    pub data: SpecJson,
    pub metadata: Seq<(Seq<char>, SpecJson)>,
}

/// The model of a `ContentData`.
#[verifier::ext_equal]
pub enum SpecContentData {
    ContentModel(SpecContentModel),
    TableModel(SpecTableModel),
}

/// The model of a `DocumentModel`.
#[verifier::ext_equal]
pub struct SpecDocumentModel {
    pub id: Option<SpecJson>,
    pub name: Option<SpecJson>,
    pub metadata: Option<SpecJson>,
    pub content: Option<Seq<SpecContentData>>,
}

/// The model of a `TransformError`.
#[verifier::ext_equal]
pub enum SpecError {
    Configuration(Seq<char>),
    Data(Seq<char>),
}

impl View for TableModel {
    type V = SpecTableModel;

    open spec fn view(&self) -> SpecTableModel {
        SpecTableModel {
            title: self.title@,
            rows: self.rows@,
            columns: self.columns@,
            metadata: crate::json::json_fields_view(self.metadata@),
        }
    }
}

impl View for ContentModel {
    type V = SpecContentModel;

    open spec fn view(&self) -> SpecContentModel {
        SpecContentModel {
            title: self.title@,
            data: self.data@,
            metadata: crate::json::json_fields_view(self.metadata@),
        }
    }
}

impl View for ContentData {
    type V = SpecContentData;

    open spec fn view(&self) -> SpecContentData {
        match self {
            ContentData::ContentModel(c) => SpecContentData::ContentModel(c@),
            ContentData::TableModel(t) => SpecContentData::TableModel(t@),
        }
    }
}

impl DeepView for ContentData {
    type V = SpecContentData;

    open spec fn deep_view(&self) -> SpecContentData {
        self.view()
    }
}

impl View for DocumentModel {
    type V = SpecDocumentModel;

    open spec fn view(&self) -> SpecDocumentModel {
        SpecDocumentModel {
            id: match self.id {
                Some(v) => Some(v@),
                None => None,
            },
            name: match self.name {
                Some(v) => Some(v@),
                None => None,
            },
            metadata: match self.metadata {
                Some(v) => Some(v@),
                None => None,
            },
            content: match self.content {
                Some(c) => Some(c.deep_view()),
                None => None,
            },
        }
    }
}

impl DeepView for DocumentModel {
    type V = SpecDocumentModel;

    open spec fn deep_view(&self) -> SpecDocumentModel {
        self.view()
    }
}

impl View for TransformError {
    type V = SpecError;

    open spec fn view(&self) -> SpecError {
        match self {
            TransformError::Configuration(s) => SpecError::Configuration(s@),
            TransformError::Data(s) => SpecError::Data(s@),
        }
    }
}

impl TransformError {
    /// A readable description of the error.
    pub fn message(&self) -> (r: &String)
        ensures
            match self {
                TransformError::Configuration(s) => r@ == s@,
                TransformError::Data(s) => r@ == s@,
            },
    {
        match self {
            TransformError::Configuration(s) => s,
            TransformError::Data(s) => s,
        }
    }

    /// Whether this is a configuration error, a defect of the mapping
    /// rather than of the data.
    pub fn is_configuration(&self) -> (r: bool)
        ensures
            r == (self@ is Configuration),
    {
        match self {
            TransformError::Configuration(_) => true,
            TransformError::Data(_) => false,
        }
    }
}

} // verus!
