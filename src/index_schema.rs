//! The index-schema projection of a media record: the fixed table from field
//! name to the type that the search engine gives the field.
use vstd::prelude::*;

verus! {

/// The type that the search engine gives an indexed field.
#[derive(Clone, Copy, Debug, PartialEq, Eq, Structural)]
pub enum IndexFieldType {
    /// An exact-match keyword.
    Keyword,
    /// A floating-point number.
    Float,
    /// A structured object.
    Object,
    /// An object kept with the record but not indexed.
    ObjectDisabled,
}

/// One row of the index schema.
#[derive(Debug)]
pub struct IndexField {
    pub name: String,
    pub kind: IndexFieldType,
}

/// The name and type of each row.
pub open spec fn rows_view(fs: Seq<IndexField>) -> Seq<(Seq<char>, IndexFieldType)> {
    fs.map_values(|f: IndexField| (f.name@, f.kind))
}

/// The index schema of a media record, in the order in which it is written.
pub open spec fn media_index_schema() -> Seq<(Seq<char>, IndexFieldType)> {
    seq![
        ("transcript"@, IndexFieldType::ObjectDisabled),
        ("contentUrl"@, IndexFieldType::Keyword),
        ("duration"@, IndexFieldType::Float),
        ("contentSize"@, IndexFieldType::Float),
        ("encodingFormat"@, IndexFieldType::Keyword),
        ("nlp"@, IndexFieldType::Object),
        ("posts"@, IndexFieldType::Keyword),
        ("feeds"@, IndexFieldType::Keyword),
    ]
}

/// The index schema of a media record as a mapping from field name to type.
pub open spec fn media_index_map() -> Map<Seq<char>, IndexFieldType> {
    map![
        "transcript"@ => IndexFieldType::ObjectDisabled,
        "contentUrl"@ => IndexFieldType::Keyword,
        "duration"@ => IndexFieldType::Float,
        "contentSize"@ => IndexFieldType::Float,
        "encodingFormat"@ => IndexFieldType::Keyword,
        "nlp"@ => IndexFieldType::Object,
        "posts"@ => IndexFieldType::Keyword,
        "feeds"@ => IndexFieldType::Keyword,
    ]
}

/// The index schema names eight distinct fields, exactly the keys of the
/// mapping, and gives each the type that the mapping gives it: the table
/// does not depend on the order of its rows.
pub proof fn lemma_media_index_schema_is_map()
    ensures
        media_index_schema().len() == 8,
        forall|i: int, j: int|
            0 <= i < j < 8 ==> #[trigger] media_index_schema()[i].0 != #[trigger] media_index_schema()[j].0,
        forall|i: int|
            0 <= i < 8 ==> #[trigger] media_index_map().contains_key(media_index_schema()[i].0)
                && media_index_map()[media_index_schema()[i].0] == media_index_schema()[i].1,
        forall|k: Seq<char>|
            #[trigger] media_index_map().contains_key(k) ==> exists|i: int|
                0 <= i < 8 && media_index_schema()[i].0 == k,
{
    reveal_strlit("transcript");
    reveal_strlit("contentUrl");
    reveal_strlit("duration");
    reveal_strlit("contentSize");
    reveal_strlit("encodingFormat");
    reveal_strlit("nlp");
    reveal_strlit("posts");
    reveal_strlit("feeds");
    let t = media_index_schema();
    let m = media_index_map();
    assert(t[0].0.len() == 10 && t[0].0[0] == 't');
    assert(t[1].0.len() == 10 && t[1].0[0] == 'c');
    assert(t[2].0.len() == 8);
    assert(t[3].0.len() == 11);
    assert(t[4].0.len() == 14);
    assert(t[5].0.len() == 3);
    assert(t[6].0.len() == 5 && t[6].0[0] == 'p');
    assert(t[7].0.len() == 5 && t[7].0[0] == 'f');
    assert forall|k: Seq<char>| #[trigger] m.contains_key(k) implies exists|i: int|
        0 <= i < 8 && t[i].0 == k by {
        if k == t[0].0 {
        } else if k == t[1].0 {
            assert(t[1].0 == k);
        } else if k == t[2].0 {
            assert(t[2].0 == k);
        } else if k == t[3].0 {
            assert(t[3].0 == k);
        } else if k == t[4].0 {
            assert(t[4].0 == k);
        } else if k == t[5].0 {
            assert(t[5].0 == k);
        } else if k == t[6].0 {
            assert(t[6].0 == k);
        } else {
            assert(t[7].0 == k);
        }
    }
    assert(m.dom() =~= set![t[0].0, t[1].0, t[2].0, t[3].0, t[4].0, t[5].0, t[6].0, t[7].0]);
}

impl IndexField {
    fn new(name: &str, kind: IndexFieldType) -> (r: IndexField)
        ensures
            r.name@ == name@,
            r.kind == kind,
    {
        IndexField { name: name.to_owned(), kind }
    }
}

/// The index schema of a media record: the same eight rows on every call,
/// built without any record.
pub fn media_index_fields() -> (r: Vec<IndexField>)
    ensures
        rows_view(r@) == media_index_schema(),
{
    let mut r: Vec<IndexField> = Vec::new();
    r.push(IndexField::new("transcript", IndexFieldType::ObjectDisabled));
    r.push(IndexField::new("contentUrl", IndexFieldType::Keyword));
    r.push(IndexField::new("duration", IndexFieldType::Float));
    r.push(IndexField::new("contentSize", IndexFieldType::Float));
    r.push(IndexField::new("encodingFormat", IndexFieldType::Keyword));
    r.push(IndexField::new("nlp", IndexFieldType::Object));
    r.push(IndexField::new("posts", IndexFieldType::Keyword));
    r.push(IndexField::new("feeds", IndexFieldType::Keyword));
    assert(rows_view(r@) =~= media_index_schema());
    r
}

/// The type that the index schema gives the field `name`, or `None` when
/// the field is not indexed.
pub fn index_field_type(name: &str) -> (r: Option<IndexFieldType>)
    ensures
        r == (if media_index_map().contains_key(name@) {
            Some(media_index_map()[name@])
        } else {
            None
        }),
{
    proof {
        lemma_media_index_schema_is_map();
    }
    let rows = media_index_fields();
    let key = name.to_owned();
    let mut i: usize = 0;
    while i < rows.len()
        invariant
            rows_view(rows@) == media_index_schema(),
            rows.len() == 8,
            key@ == name@,
            i <= rows.len(),
            forall|j: int| 0 <= j < i ==> media_index_schema()[j].0 != name@,
        decreases rows.len() - i,
    {
        assert(rows_view(rows@)[i as int] == (rows@[i as int].name@, rows@[i as int].kind));
        if rows[i].name == key {
            proof {
                lemma_media_index_schema_is_map();
                assert(media_index_map().contains_key(media_index_schema()[i as int].0));
            }
            return Some(rows[i].kind);
        }
        i = i + 1;
    }
    None
}

} // verus!
