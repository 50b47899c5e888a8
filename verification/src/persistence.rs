//! The persisted form of the index: how each of its parts is written as a
//! JSON value and read back from one.

use crate::document::{Document, Term};
use crate::index_storage::Index;
use crate::json::{
    array_value, field_of, items_of, json_view, json_views, number_of, number_value, object_value,
    parse, parsed_json, render, rendered_json, text_of, text_value, with_field, JsonView,
};
use crate::json_serialization::{
    collected, collected_inverted, deserialize_inverted_index, deserialize_vec_to_hashmap,
    lemma_collected_inverted_table, lemma_collected_inverted_unique, lemma_collected_table,
    lemma_collected_unique,
};
use crate::model::{unique_keys, IndexView};
use crate::weight::{NormPart, Weight};
use vstd::prelude::*;

verus! {

/// A part of the index that has a JSON form.
pub trait Json: DeepView + Sized {
    /// The JSON form of a value.
    spec fn encoded(view: Self::V) -> JsonView;

    /// The value that a JSON form stands for, if it stands for one.
    spec fn decoded(json: JsonView) -> Option<Self::V>;

    /// What is written can be read, and gives what was written.
    proof fn lemma_decoded_encoded(view: Self::V)
        ensures
            Self::decoded(Self::encoded(view)) == Some(view),
    ;

    /// Writes the value as JSON.
    fn encode(&self) -> (value: serde_json::Value)
        ensures
            json_view(value) == Self::encoded(self.deep_view()),
    ;

    /// Reads a value from JSON, where the JSON stands for one.
    fn decode(value: &serde_json::Value) -> (made: Option<Self>)
        ensures
            made.deep_view() == Self::decoded(json_view(*value)),
    ;
}

impl Json for u64 {
    open spec fn encoded(view: u64) -> JsonView {
        JsonView::Number(view)
    }

    open spec fn decoded(json: JsonView) -> Option<u64> {
        match json {
            JsonView::Number(n) => Some(n),
            _ => None,
        }
    }

    proof fn lemma_decoded_encoded(view: u64) {
    }

    fn encode(&self) -> (value: serde_json::Value) {
        number_value(*self)
    }

    fn decode(value: &serde_json::Value) -> (made: Option<u64>) {
        number_of(value)
    }
}

impl Json for u32 {
    open spec fn encoded(view: u32) -> JsonView {
        JsonView::Number(view as u64)
    }

    open spec fn decoded(json: JsonView) -> Option<u32> {
        match json {
            JsonView::Number(n) => if n <= u32::MAX {
                Some(n as u32)
            } else {
                None
            },
            _ => None,
        }
    }

    proof fn lemma_decoded_encoded(view: u32) {
    }

    fn encode(&self) -> (value: serde_json::Value) {
        number_value(*self as u64)
    }

    fn decode(value: &serde_json::Value) -> (made: Option<u32>) {
        match number_of(value) {
            Some(n) => if n <= u32::MAX as u64 {
                Some(n as u32)
            } else {
                None
            },
            None => None,
        }
    }
}

impl Json for Term {
    open spec fn encoded(view: Seq<char>) -> JsonView {
        JsonView::Text(view)
    }

    open spec fn decoded(json: JsonView) -> Option<Seq<char>> {
        match json {
            JsonView::Text(text) => Some(text),
            _ => None,
        }
    }

    proof fn lemma_decoded_encoded(view: Seq<char>) {
    }

    fn encode(&self) -> (value: serde_json::Value) {
        text_value(self.0.as_str())
    }

    fn decode(value: &serde_json::Value) -> (made: Option<Term>) {
        match text_of(value) {
            Some(text) => Some(Term(text.to_owned())),
            None => None,
        }
    }
}

impl Json for Document {
    open spec fn encoded(view: Seq<char>) -> JsonView {
        JsonView::Object(Map::empty().insert("path"@, JsonView::Text(view)))
    }

    /// A document is read from an object that holds its path as a string
    /// under `path`, whatever else the object holds, or from an array of that
    /// one string.
    open spec fn decoded(json: JsonView) -> Option<Seq<char>> {
        match json {
            JsonView::Object(fields) => if fields.contains_key("path"@) {
                match fields["path"@] {
                    JsonView::Text(path) => Some(path),
                    _ => None,
                }
            } else {
                None
            },
            JsonView::Array(items) => if items.len() == 1 {
                match items[0] {
                    JsonView::Text(path) => Some(path),
                    _ => None,
                }
            } else {
                None
            },
            _ => None,
        }
    }

    proof fn lemma_decoded_encoded(view: Seq<char>) {
    }

    fn encode(&self) -> (value: serde_json::Value) {
        with_field(object_value(), "path", text_value(self.path.as_str()))
    }

    fn decode(value: &serde_json::Value) -> (made: Option<Document>) {
        match field_of(value, "path") {
            Some(held) => match text_of(held) {
                Some(path) => Some(Document { path: path.to_owned() }),
                None => None,
            },
            None => match items_of(value) {
                Some(items) => {
                    if items.len() == 1 {
                        assert(json_views(items@)[0] == json_view(items@[0]));
                        match text_of(&items[0]) {
                            Some(path) => Some(Document { path: path.to_owned() }),
                            None => None,
                        }
                    } else {
                        None
                    }
                },
                None => None,
            },
        }
    }
}

impl<A: Json, B: Json> Json for (A, B) {
    open spec fn encoded(view: (A::V, B::V)) -> JsonView {
        JsonView::Array(seq![A::encoded(view.0), B::encoded(view.1)])
    }

    open spec fn decoded(json: JsonView) -> Option<(A::V, B::V)> {
        match json {
            JsonView::Array(items) => if items.len() == 2 {
                match (A::decoded(items[0]), B::decoded(items[1])) {
                    (Some(first), Some(second)) => Some((first, second)),
                    _ => None,
                }
            } else {
                None
            },
            _ => None,
        }
    }

    proof fn lemma_decoded_encoded(view: (A::V, B::V)) {
        A::lemma_decoded_encoded(view.0);
        B::lemma_decoded_encoded(view.1);
    }

    fn encode(&self) -> (value: serde_json::Value) {
        let mut items: Vec<serde_json::Value> = Vec::new();
        items.push(self.0.encode());
        items.push(self.1.encode());
        assert(json_views(items@) =~= seq![
            A::encoded(self.0.deep_view()),
            B::encoded(self.1.deep_view()),
        ]);
        array_value(items)
    }

    fn decode(value: &serde_json::Value) -> (made: Option<(A, B)>) {
        match items_of(value) {
            Some(items) => {
                if items.len() == 2 {
                    assert(json_views(items@)[0] == json_view(items@[0]));
                    assert(json_views(items@)[1] == json_view(items@[1]));
                    match A::decode(&items[0]) {
                        Some(first) => match B::decode(&items[1]) {
                            Some(second) => Some((first, second)),
                            None => None,
                        },
                        None => None,
                    }
                } else {
                    None
                }
            },
            None => None,
        }
    }
}

/// The values that the JSON forms stand for, in order, if each stands for
/// one.
pub open spec fn decoded_list<T>(
    items: Seq<JsonView>,
    decode: spec_fn(JsonView) -> Option<T>,
) -> Option<Seq<T>>
    decreases items.len(),
{
    if items.len() == 0 {
        Some(Seq::<T>::empty())
    } else {
        match (decoded_list(items.drop_last(), decode), decode(items.last())) {
            (Some(front), Some(last)) => Some(front.push(last)),
            _ => None,
        }
    }
}

/// A list of written values gives, read, the values.
pub proof fn lemma_decoded_list<T>(
    values: Seq<T>,
    encode: spec_fn(T) -> JsonView,
    decode: spec_fn(JsonView) -> Option<T>,
)
    requires
        forall|i: int| 0 <= i < values.len() ==> decode(encode(#[trigger] values[i])) == Some(
            values[i],
        ),
    ensures
        decoded_list(values.map_values(encode), decode) == Some(values),
    decreases values.len(),
{
    let items = values.map_values(encode);
    if values.len() > 0 {
        let front = values.drop_last();
        assert(forall|i: int| 0 <= i < front.len() ==> front[i] == values[i]);
        lemma_decoded_list(front, encode, decode);
        assert(items.drop_last() =~= front.map_values(encode));
        assert(items.last() == encode(values.last()));
        assert(front.push(values.last()) =~= values);
    } else {
        assert(Seq::<T>::empty() =~= values);
    }
}

impl<T: Json> Json for Vec<T> {
    open spec fn encoded(view: Seq<T::V>) -> JsonView {
        JsonView::Array(view.map_values(|item: T::V| T::encoded(item)))
    }

    open spec fn decoded(json: JsonView) -> Option<Seq<T::V>> {
        match json {
            JsonView::Array(items) => decoded_list(items, |item: JsonView| T::decoded(item)),
            _ => None,
        }
    }

    proof fn lemma_decoded_encoded(view: Seq<T::V>) {
        assert forall|i: int| 0 <= i < view.len() implies T::decoded(
            T::encoded(#[trigger] view[i]),
        ) == Some(view[i]) by {
            T::lemma_decoded_encoded(view[i]);
        }
        lemma_decoded_list(
            view,
            |item: T::V| T::encoded(item),
            |item: JsonView| T::decoded(item),
        );
    }

    fn encode(&self) -> (value: serde_json::Value) {
        let mut items: Vec<serde_json::Value> = Vec::new();
        let mut i: usize = 0;
        while i < self.len()
            invariant
                i <= self.len(),
                json_views(items@) == self.deep_view().subrange(0, i as int).map_values(
                    |item: T::V| T::encoded(item),
                ),
            decreases self.len() - i,
        {
            let ghost before = json_views(items@);
            let item = self[i].encode();
            items.push(item);
            assert(json_views(items@) =~= before.push(json_view(item)));
            assert(self.deep_view().subrange(0, i + 1).map_values(|item: T::V| T::encoded(item))
                =~= before.push(T::encoded(self[i as int].deep_view())));
            i += 1;
        }
        assert(self.deep_view().subrange(0, i as int) =~= self.deep_view());
        array_value(items)
    }

    fn decode(value: &serde_json::Value) -> (made: Option<Vec<T>>) {
        match items_of(value) {
            Some(items) => {
                let ghost views = json_views(items@);
                let ghost decode = |item: JsonView| T::decoded(item);
                let mut made: Vec<T> = Vec::new();
                let mut i: usize = 0;
                assert(made.deep_view() =~= Seq::empty());
                while i < items.len()
                    invariant
                        i <= items.len(),
                        views == json_views(items@),
                        json_view(*value) == JsonView::Array(views),
                        decode == |item: JsonView| T::decoded(item),
                        decoded_list(views.subrange(0, i as int), decode) == Some(made.deep_view()),
                    decreases items.len() - i,
                {
                    proof {
                        let next = views.subrange(0, i + 1);
                        assert(next.drop_last() =~= views.subrange(0, i as int));
                        assert(next.last() == json_view(items@[i as int]));
                    }
                    match T::decode(&items[i]) {
                        Some(item) => {
                            let ghost before = made.deep_view();
                            made.push(item);
                            assert(made.deep_view() =~= before.push(item.deep_view()));
                        },
                        None => {
                            proof {
                                assert(views[i as int] == json_view(items@[i as int]));
                                assert(T::decoded(views[i as int]) is None);
                                assert(decode(views[i as int]) is None);
                                lemma_decoded_list_fails(views, decode, i as int);
                            }
                            return None;
                        },
                    }
                    i += 1;
                }
                assert(views.subrange(0, i as int) =~= views);
                Some(made)
            },
            None => None,
        }
    }
}

/// A list does not read where one of its items does not.
pub proof fn lemma_decoded_list_fails<T>(
    items: Seq<JsonView>,
    decode: spec_fn(JsonView) -> Option<T>,
    at: int,
)
    requires
        0 <= at < items.len(),
        decode(items[at]) is None,
    ensures
        decoded_list(items, decode) is None,
    decreases items.len(),
{
    if at < items.len() - 1 {
        assert(items.drop_last()[at] == items[at]);
        lemma_decoded_list_fails(items.drop_last(), decode, at);
    }
}

impl Json for Weight {
    open spec fn encoded(view: Weight) -> JsonView {
        <(u64, u64)>::encoded((view.num, view.den))
    }

    open spec fn decoded(json: JsonView) -> Option<Weight> {
        match <(u64, u64)>::decoded(json) {
            Some(pair) => Some(Weight { num: pair.0, den: pair.1 }),
            None => None,
        }
    }

    proof fn lemma_decoded_encoded(view: Weight) {
        <(u64, u64)>::lemma_decoded_encoded((view.num, view.den));
    }

    fn encode(&self) -> (value: serde_json::Value) {
        (self.num, self.den).encode()
    }

    fn decode(value: &serde_json::Value) -> (made: Option<Weight>) {
        match <(u64, u64)>::decode(value) {
            Some(pair) => Some(Weight { num: pair.0, den: pair.1 }),
            None => None,
        }
    }
}

impl Json for NormPart {
    open spec fn encoded(view: NormPart) -> JsonView {
        <(u32, Weight)>::encoded((view.frequency, view.weight))
    }

    open spec fn decoded(json: JsonView) -> Option<NormPart> {
        match <(u32, Weight)>::decoded(json) {
            Some(pair) => Some(NormPart { frequency: pair.0, weight: pair.1 }),
            None => None,
        }
    }

    proof fn lemma_decoded_encoded(view: NormPart) {
        <(u32, Weight)>::lemma_decoded_encoded((view.frequency, view.weight));
    }

    fn encode(&self) -> (value: serde_json::Value) {
        (self.frequency, self.weight).encode()
    }

    fn decode(value: &serde_json::Value) -> (made: Option<NormPart>) {
        match <(u32, Weight)>::decode(value) {
            Some(pair) => Some(NormPart { frequency: pair.0, weight: pair.1 }),
            None => None,
        }
    }
}

/// The four fields of a persisted index.
#[derive(Clone, Copy, Debug, PartialEq, Eq, Structural)]
pub enum Field {
    InvertedIndex,
    Idf,
    DocumentNorms,
    NumDocs,
}

/// Why a persisted index could not be loaded.
#[derive(Clone, Copy, Debug, PartialEq, Eq, Structural)]
pub enum LoadError {
    /// The text is no JSON.
    NotJson,
    /// The field is missing or of the wrong type: three of the fields are
    /// arrays, `num_docs` is a non-negative integer that fits the machine.
    Invalid(Field),
    /// An entry of the field is not of the persisted form.
    Malformed(Field),
}

impl Field {
    /// The name of the field in the persisted index.
    pub fn name(&self) -> (name: &'static str)
        ensures
            name@ == field_name(*self),
    {
        match self {
            Field::InvertedIndex => "inverted_index",
            Field::Idf => "idf",
            Field::DocumentNorms => "document_norms",
            Field::NumDocs => "num_docs",
        }
    }
}

/// What an error says.
pub open spec fn error_text(error: LoadError) -> Seq<char> {
    match error {
        LoadError::NotJson => "Invalid JSON"@,
        LoadError::Invalid(field) => "Invalid '"@ + field_name(field) + "' value in JSON"@,
        LoadError::Malformed(field) => "Invalid entry in '"@ + field_name(field) + "' in JSON"@,
    }
}

impl LoadError {
    /// What the error says.
    pub fn message(&self) -> (text: String)
        ensures
            text@ == error_text(*self),
    {
        match self {
            LoadError::NotJson => "Invalid JSON".to_owned(),
            LoadError::Invalid(field) => {
                let mut text = "Invalid '".to_owned();
                text.append(field.name());
                text.append("' value in JSON");
                text
            },
            LoadError::Malformed(field) => {
                let mut text = "Invalid entry in '".to_owned();
                text.append(field.name());
                text.append("' in JSON");
                text
            },
        }
    }
}

/// The name of a field in the persisted index.
pub open spec fn field_name(field: Field) -> Seq<char> {
    match field {
        Field::InvertedIndex => "inverted_index"@,
        Field::Idf => "idf"@,
        Field::DocumentNorms => "document_norms"@,
        Field::NumDocs => "num_docs"@,
    }
}

/// The four names differ.
pub proof fn lemma_field_names_differ(a: Field, b: Field)
    ensures
        field_name(a) == field_name(b) ==> a == b,
{
    reveal_strlit("inverted_index");
    reveal_strlit("idf");
    reveal_strlit("document_norms");
    reveal_strlit("num_docs");
    if field_name(a) == field_name(b) {
        assert(field_name(a).len() == field_name(b).len());
        assert(field_name(a)[0] == field_name(b)[0]);
    }
}

/// The value under a name in an object.
pub open spec fn field_value(json: JsonView, field: Field) -> Option<JsonView> {
    match json {
        JsonView::Object(fields) => if fields.contains_key(field_name(field)) {
            Some(fields[field_name(field)])
        } else {
            None
        },
        _ => None,
    }
}

/// Whether the field is there and is an array.
pub open spec fn is_array_field(json: JsonView, field: Field) -> bool {
    match field_value(json, field) {
        Some(value) => value is Array,
        None => false,
    }
}

/// The count of documents that a persisted index holds, where it holds one
/// that fits the machine.
pub open spec fn count_field(json: JsonView) -> Option<u64> {
    match field_value(json, Field::NumDocs) {
        Some(JsonView::Number(n)) => if n <= usize::MAX {
            Some(n)
        } else {
            None
        },
        _ => None,
    }
}

/// The JSON form of an index: an object of four fields.
pub open spec fn index_json(index: IndexView) -> JsonView {
    JsonView::Object(
        Map::empty().insert(
            field_name(Field::InvertedIndex),
            <Vec<(Term, Vec<(Document, u32)>)>>::encoded(index.postings),
        ).insert(field_name(Field::Idf), <Vec<(Term, Weight)>>::encoded(index.weights)).insert(
            field_name(Field::DocumentNorms),
            <Vec<(Document, Vec<NormPart>)>>::encoded(index.norms),
        ).insert(field_name(Field::NumDocs), JsonView::Number(index.documents as u64)),
    )
}

/// The index that a JSON value stands for, or why it stands for none. The
/// four fields are checked first, in order; then the entries of the three
/// tables are read, in order; then the tables are collected, a later pair
/// replacing an earlier one of the same key. Nothing else is asked of the
/// tables: whether they are a well-formed index is for the caller to ask.
pub open spec fn loaded(json: JsonView) -> Result<IndexView, LoadError> {
    if !is_array_field(json, Field::InvertedIndex) {
        Err(LoadError::Invalid(Field::InvertedIndex))
    } else if !is_array_field(json, Field::Idf) {
        Err(LoadError::Invalid(Field::Idf))
    } else if !is_array_field(json, Field::DocumentNorms) {
        Err(LoadError::Invalid(Field::DocumentNorms))
    } else if count_field(json) is None {
        Err(LoadError::Invalid(Field::NumDocs))
    } else {
        match <Vec<(Term, Vec<(Document, u32)>)>>::decoded(
            field_value(json, Field::InvertedIndex)->0,
        ) {
            None => Err(LoadError::Malformed(Field::InvertedIndex)),
            Some(postings) => match <Vec<(Term, Weight)>>::decoded(
                field_value(json, Field::Idf)->0,
            ) {
                None => Err(LoadError::Malformed(Field::Idf)),
                Some(weights) => match <Vec<(Document, Vec<NormPart>)>>::decoded(
                    field_value(json, Field::DocumentNorms)->0,
                ) {
                    None => Err(LoadError::Malformed(Field::DocumentNorms)),
                    Some(norms) => Ok(
                        IndexView {
                            postings: collected_inverted(postings),
                            weights: collected(weights),
                            norms: collected(norms),
                            documents: count_field(json)->0 as nat,
                        },
                    ),
                },
            },
        }
    }
}

/// What is loaded lists no key twice: no term, within a term no document,
/// and no key of the weight table or of the norm table.
pub proof fn lemma_loaded_tables(json: JsonView)
    requires
        loaded(json) is Ok,
    ensures
        unique_keys(loaded(json)->Ok_0.postings),
        forall|i: int|
            0 <= i < loaded(json)->Ok_0.postings.len() ==> unique_keys(
                (#[trigger] loaded(json)->Ok_0.postings[i]).1,
            ),
        unique_keys(loaded(json)->Ok_0.weights),
        unique_keys(loaded(json)->Ok_0.norms),
{
    lemma_collected_inverted_unique(
        <Vec<(Term, Vec<(Document, u32)>)>>::decoded(field_value(json, Field::InvertedIndex)->0)->0,
    );
    lemma_collected_unique(<Vec<(Term, Weight)>>::decoded(field_value(json, Field::Idf)->0)->0);
    lemma_collected_unique(
        <Vec<(Document, Vec<NormPart>)>>::decoded(field_value(json, Field::DocumentNorms)->0)->0,
    );
}

/// An index whose tables list no key twice, written as JSON and loaded, is
/// the index.
pub proof fn lemma_loaded_index_json(index: IndexView)
    requires
        unique_keys(index.postings),
        forall|i: int|
            0 <= i < index.postings.len() ==> unique_keys((#[trigger] index.postings[i]).1),
        unique_keys(index.weights),
        unique_keys(index.norms),
        index.documents <= usize::MAX,
    ensures
        loaded(index_json(index)) == Ok::<IndexView, LoadError>(index),
{
    let json = index_json(index);
    lemma_field_names_differ(Field::InvertedIndex, Field::Idf);
    lemma_field_names_differ(Field::InvertedIndex, Field::DocumentNorms);
    lemma_field_names_differ(Field::InvertedIndex, Field::NumDocs);
    lemma_field_names_differ(Field::Idf, Field::DocumentNorms);
    lemma_field_names_differ(Field::Idf, Field::NumDocs);
    lemma_field_names_differ(Field::DocumentNorms, Field::NumDocs);
    assert(field_value(json, Field::InvertedIndex) == Some(
        <Vec<(Term, Vec<(Document, u32)>)>>::encoded(index.postings),
    ));
    assert(field_value(json, Field::Idf) == Some(<Vec<(Term, Weight)>>::encoded(index.weights)));
    assert(field_value(json, Field::DocumentNorms) == Some(
        <Vec<(Document, Vec<NormPart>)>>::encoded(index.norms),
    ));
    assert(field_value(json, Field::NumDocs) == Some(JsonView::Number(index.documents as u64)));
    <Vec<(Term, Vec<(Document, u32)>)>>::lemma_decoded_encoded(index.postings);
    <Vec<(Term, Weight)>>::lemma_decoded_encoded(index.weights);
    <Vec<(Document, Vec<NormPart>)>>::lemma_decoded_encoded(index.norms);
    lemma_collected_inverted_table(index.postings);
    lemma_collected_table(index.weights);
    lemma_collected_table(index.norms);
}

impl Index {
    /// The JSON form of the index.
    pub fn to_json(&self) -> (value: serde_json::Value)
        ensures
            json_view(value) == index_json(self@),
    {
        let value = object_value();
        let value = with_field(
            value,
            Field::InvertedIndex.name(),
            self.inverted_index.encode(),
        );
        let value = with_field(value, Field::Idf.name(), self.idf.encode());
        let value = with_field(value, Field::DocumentNorms.name(), self.document_norms.encode());
        with_field(value, Field::NumDocs.name(), number_value(self.num_docs as u64))
    }

    /// The index that a JSON value stands for, or why it stands for none.
    /// What is read is taken as it stands: `is_well_formed` tells whether it
    /// can be ingested into.
    pub fn from_json(value: &serde_json::Value) -> (made: Result<Index, LoadError>)
        ensures
            match made {
                Ok(index) => loaded(json_view(*value)) == Ok::<IndexView, LoadError>(index@),
                Err(error) => loaded(json_view(*value)) == Err::<IndexView, LoadError>(error),
            },
    {
        let ghost json = json_view(*value);
        let postings_field = match field_of(value, Field::InvertedIndex.name()) {
            Some(field) => field,
            None => {
                return Err(LoadError::Invalid(Field::InvertedIndex));
            },
        };
        if items_of(postings_field).is_none() {
            return Err(LoadError::Invalid(Field::InvertedIndex));
        }
        let weights_field = match field_of(value, Field::Idf.name()) {
            Some(field) => field,
            None => {
                return Err(LoadError::Invalid(Field::Idf));
            },
        };
        if items_of(weights_field).is_none() {
            return Err(LoadError::Invalid(Field::Idf));
        }
        let norms_field = match field_of(value, Field::DocumentNorms.name()) {
            Some(field) => field,
            None => {
                return Err(LoadError::Invalid(Field::DocumentNorms));
            },
        };
        if items_of(norms_field).is_none() {
            return Err(LoadError::Invalid(Field::DocumentNorms));
        }
        let count = match field_of(value, Field::NumDocs.name()) {
            Some(field) => match number_of(field) {
                Some(count) => count,
                None => {
                    return Err(LoadError::Invalid(Field::NumDocs));
                },
            },
            None => {
                return Err(LoadError::Invalid(Field::NumDocs));
            },
        };
        if count > usize::MAX as u64 {
            return Err(LoadError::Invalid(Field::NumDocs));
        }
        let postings = match <Vec<(Term, Vec<(Document, u32)>)>>::decode(postings_field) {
            Some(pairs) => pairs,
            None => {
                return Err(LoadError::Malformed(Field::InvertedIndex));
            },
        };
        let weights = match <Vec<(Term, Weight)>>::decode(weights_field) {
            Some(pairs) => pairs,
            None => {
                return Err(LoadError::Malformed(Field::Idf));
            },
        };
        let norms = match <Vec<(Document, Vec<NormPart>)>>::decode(norms_field) {
            Some(pairs) => pairs,
            None => {
                return Err(LoadError::Malformed(Field::DocumentNorms));
            },
        };
        let index = Index {
            inverted_index: deserialize_inverted_index(&postings),
            idf: deserialize_vec_to_hashmap(&weights),
            document_norms: deserialize_vec_to_hashmap(&norms),
            num_docs: count as usize,
        };
        Ok(index)
    }

    /// The index as JSON text.
    pub fn save_index_to_json(&self) -> (text: String)
        ensures
            text@ == rendered_json(index_json(self@)),
    {
        render(&self.to_json())
    }

    /// The index that a JSON text stands for, or why it stands for none.
    /// What is read is taken as it stands: `is_well_formed` tells whether it
    /// can be ingested into.
    pub fn load_index_from_json(text: &str) -> (made: Result<Index, LoadError>)
        ensures
            match parsed_json(text@) {
                None => made == Err::<Index, LoadError>(LoadError::NotJson),
                Some(json) => match made {
                    Ok(index) => loaded(json) == Ok::<IndexView, LoadError>(index@),
                    Err(error) => loaded(json) == Err::<IndexView, LoadError>(error),
                },
            },
    {
        match parse(text) {
            Some(value) => Index::from_json(&value),
            None => Err(LoadError::NotJson),
        }
    }
}

} // verus!
