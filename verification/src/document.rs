//! The document that a successful parse builds.
use vstd::prelude::*;

verus! {

/// A value of the grammar, in specifications.
pub enum Document {
    String(Seq<char>),
    Number(int),
    Array(Seq<Document>),
    True,
    False,
    Null,
    /// The members in the order of the text. A key may occur more than once.
    Object(Seq<Field>),
}

/// A member of an object, in specifications.
pub struct Field {
    pub key: Seq<char>,
    pub value: Document,
}

/// The members of an object, in the order in which the text gives them.
/// Members with equal keys are kept apart.
#[derive(Debug, PartialEq, Eq)]
pub struct JsonObject {
    pub members: Vec<Member>,
}

/// A key and its value.
#[derive(Debug, PartialEq, Eq)]
pub struct Member {
    pub identifier: String,
    pub value: JsonValue,
}

/// A parsed value. A string holds the text between its quotes as written,
/// escape sequences included.
#[derive(Debug, PartialEq, Eq)]
pub enum JsonValue {
    String(String),
    Number(isize),
    Array(Vec<JsonValue>),
    True,
    False,
    Null,
    Object(JsonObject),
}

impl View for JsonValue {
    type V = Document;

    open spec fn view(&self) -> Document
        decreases self,
    {
        match self {
            JsonValue::String(text) => Document::String(text@),
            JsonValue::Number(n) => Document::Number(*n as int),
            JsonValue::Array(items) => Document::Array(
                Seq::new(
                    items.len() as nat,
                    |i: int|
                        if 0 <= i < items.len() {
                            items[i].view()
                        } else {
                            Document::Null
                        },
                ),
            ),
            JsonValue::True => Document::True,
            JsonValue::False => Document::False,
            JsonValue::Null => Document::Null,
            JsonValue::Object(object) => Document::Object(
                Seq::new(
                    object.members.len() as nat,
                    |i: int|
                        if 0 <= i < object.members.len() {
                            Field {
                                key: object.members[i].identifier@,
                                value: object.members[i].value.view(),
                            }
                        } else {
                            Field { key: Seq::empty(), value: Document::Null }
                        },
                ),
            ),
        }
    }
}

impl DeepView for JsonValue {
    type V = Document;

    open spec fn deep_view(&self) -> Document {
        self@
    }
}

impl View for Member {
    type V = Field;

    open spec fn view(&self) -> Field {
        Field { key: self.identifier@, value: self.value@ }
    }
}

impl DeepView for Member {
    type V = Field;

    open spec fn deep_view(&self) -> Field {
        self@
    }
}

impl View for JsonObject {
    type V = Seq<Field>;

    open spec fn view(&self) -> Seq<Field> {
        self.members.deep_view()
    }
}

impl DeepView for JsonObject {
    type V = Seq<Field>;

    open spec fn deep_view(&self) -> Seq<Field> {
        self@
    }
}

impl Member {
    /// The member with this key and this value.
    pub fn new(identifier: String, value: JsonValue) -> (m: Member)
        ensures
            m.identifier == identifier,
            m.value == value,
    {
        Self { identifier, value }
    }
}

impl JsonValue {
    /// The view of an array is the sequence of the views of its items.
    pub proof fn lemma_array_view(items: Vec<JsonValue>)
        ensures
            JsonValue::Array(items)@ == Document::Array(items.deep_view()),
    {
        assert(JsonValue::Array(items)@->Array_0 =~= items.deep_view());
    }

    /// The view of an object is the sequence of the views of its members.
    pub proof fn lemma_object_view(object: JsonObject)
        ensures
            JsonValue::Object(object)@ == Document::Object(object@),
    {
        assert(JsonValue::Object(object)@->Object_0 =~= object@);
    }
}

} // verus!
