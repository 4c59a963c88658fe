//! # TOML side
//!
//! The edited document as plain values the fold-back reads, and the TOML
//! spelling the projection writes a value in.
//!
//! Parsing a document and quoting a value are `toml_edit`'s work; what the
//! library reads out of a parsed document it reads from [`Toml`], a tree of
//! its own.

use vstd::prelude::*;

use crate::number::{parse_i64, spec_parse_i64};
use crate::text::{chars_of, chars_eq, string_of};

verus! {

/// A TOML date.
#[derive(Clone, Copy, Debug, PartialEq, Eq)]
pub struct TomlDate {
    pub year: u16,
    pub month: u8,
    pub day: u8,
}

/// A TOML time of day.
#[derive(Clone, Copy, Debug, PartialEq, Eq)]
pub struct TomlTime {
    pub hour: u8,
    pub minute: u8,
    pub second: Option<u8>,
    pub nanosecond: Option<u32>,
}

/// A TOML offset: UTC written `Z`, or a number of minutes.
#[derive(Clone, Copy, Debug, PartialEq, Eq)]
pub enum TomlOffset {
    Z,
    Custom { minutes: i16 },
}

/// A TOML date, time or date-time, with an optional offset.
#[derive(Clone, Copy, Debug, PartialEq, Eq)]
pub struct TomlDatetime {
    pub date: Option<TomlDate>,
    pub time: Option<TomlTime>,
    pub offset: Option<TomlOffset>,
}

/// One TOML value, as the fold-back reads it.
pub enum Toml {
    /// A string.
    Text(String),
    /// An integer.
    Integer(i64),
    /// A date, time or date-time.
    Datetime(TomlDatetime),
    /// An inline array.
    Array(Vec<Toml>),
    /// A table, inline or not, dotted keys included, its entries in order.
    Table(Vec<(String, Toml)>),
    /// An array of tables (`[[key]]`).
    TableArray(Vec<Vec<(String, Toml)>>),
    /// Anything the fold-back never reads (a boolean, a float).
    Other,
}

/// A parsed TOML document: its root table's entries, in order.
pub struct TomlDoc {
    pub entries: Vec<(String, Toml)>,
}

/// Whether a date-time's offset is one `toml_datetime` can write: its
/// `Display` negates a negative number of minutes, which overflows for the
/// least `i16`. Every offset its parser reads is within a day.
pub open spec fn writable(dtm: TomlDatetime) -> bool {
    match dtm.offset {
        Some(TomlOffset::Custom { minutes }) => minutes > i16::MIN,
        _ => true,
    }
}

/// Whether every date-time a value holds, at any depth, is writable.
pub open spec fn toml_writable(value: Toml) -> bool
    decreases value,
{
    match value {
        Toml::Datetime(d) => writable(d),
        Toml::Array(items) => forall|i: int| 0 <= i < items@.len() ==> toml_writable(#[trigger] items@[i]),
        Toml::Table(entries) => entries_writable(entries@),
        Toml::TableArray(tables) => forall|i: int|
            0 <= i < tables@.len() ==> entries_writable(#[trigger] tables@[i]@),
        _ => true,
    }
}

/// Whether every date-time a table holds, at any depth, is writable.
pub open spec fn entries_writable(entries: Seq<(String, Toml)>) -> bool
    decreases entries,
{
    forall|i: int| 0 <= i < entries.len() ==> toml_writable(#[trigger] entries[i].1)
}

/// The document `toml_edit` parses out of a text, `None` where it refuses it.
pub uninterp spec fn toml_document(text: Seq<char>) -> Option<TomlDoc>;

/// How `toml_edit` writes a string as a TOML value.
pub uninterp spec fn toml_quoted(text: Seq<char>) -> Seq<char>;

/// How `toml_edit` writes an inline array of strings.
pub uninterp spec fn toml_text_array(items: Seq<Seq<char>>) -> Seq<char>;

/// How `toml_edit` writes an inline array of integers.
pub uninterp spec fn toml_integer_array(items: Seq<i64>) -> Seq<char>;

/// How `toml_edit` writes a date-time.
pub uninterp spec fn toml_datetime_text(dtm: TomlDatetime) -> Seq<char>;

/// `toml_edit`'s table, read only by the conversion below.
#[verifier::external_type_specification]
#[verifier::external_body]
pub struct ExTable(toml_edit::Table);

/// `toml_edit`'s item, read only by the conversion below.
#[verifier::external_type_specification]
#[verifier::external_body]
pub struct ExItem(toml_edit::Item);

/// `toml_edit`'s value, read only by the conversion below.
#[verifier::external_type_specification]
#[verifier::external_body]
pub struct ExValue(toml_edit::Value);

/// `toml_edit`'s date-time, converted to and from [`TomlDatetime`].
#[verifier::external_type_specification]
#[verifier::external_body]
pub struct ExDatetime(toml_edit::Datetime);

/// A `toml_edit` value as the library's [`Toml`], variant for variant; a
/// float or a boolean, which no field reads, is [`Toml::Other`].
#[verifier::external_body]
fn convert_value(value: &toml_edit::Value) -> Toml {
    match value {
        toml_edit::Value::String(text) => Toml::Text(text.value().clone()),
        toml_edit::Value::Integer(number) => Toml::Integer(*number.value()),
        toml_edit::Value::Datetime(dtm) => Toml::Datetime(convert_datetime(dtm.value())),
        toml_edit::Value::Array(array) => Toml::Array(array.iter().map(convert_value).collect()),
        toml_edit::Value::InlineTable(table) => Toml::Table(
            table.iter().map(|(key, value)| (key.to_owned(), convert_value(value))).collect(),
        ),
        toml_edit::Value::Float(_) | toml_edit::Value::Boolean(_) => Toml::Other,
    }
}

/// A `toml_edit` table's entries in order, each value converted.
#[verifier::external_body]
fn convert_table(table: &toml_edit::Table) -> Vec<(String, Toml)> {
    table.iter().map(|(key, item)| (key.to_owned(), convert_item(item))).collect()
}

/// A `toml_edit` item as the library's [`Toml`], variant for variant.
#[verifier::external_body]
fn convert_item(item: &toml_edit::Item) -> Toml {
    match item {
        toml_edit::Item::None => Toml::Other,
        toml_edit::Item::Value(value) => convert_value(value),
        toml_edit::Item::Table(table) => Toml::Table(convert_table(table)),
        toml_edit::Item::ArrayOfTables(array) => Toml::TableArray(array.iter().map(convert_table).collect()),
    }
}

/// A `toml_edit` date-time as the library's [`TomlDatetime`], field for field.
#[verifier::external_body]
fn convert_datetime(dtm: &toml_edit::Datetime) -> TomlDatetime {
    TomlDatetime {
        date: dtm.date.map(|d| TomlDate { year: d.year, month: d.month, day: d.day }),
        time: dtm.time.map(
            |t| TomlTime { hour: t.hour, minute: t.minute, second: t.second, nanosecond: t.nanosecond },
        ),
        offset: dtm.offset.map(|o| match o {
            toml_edit::Offset::Z => TomlOffset::Z,
            toml_edit::Offset::Custom { minutes } => TomlOffset::Custom { minutes },
        }),
    }
}

/// The library's [`TomlDatetime`] as a `toml_edit` date-time, field for field.
#[verifier::external_body]
fn to_toml_datetime(dtm: &TomlDatetime) -> toml_edit::Datetime {
    toml_edit::Datetime {
        date: dtm.date.map(|d| toml_edit::Date { year: d.year, month: d.month, day: d.day }),
        time: dtm.time.map(|t| toml_edit::Time {
            hour: t.hour,
            minute: t.minute,
            second: t.second,
            nanosecond: t.nanosecond,
        }),
        offset: dtm.offset.map(|o| match o {
            TomlOffset::Z => toml_edit::Offset::Z,
            TomlOffset::Custom { minutes } => toml_edit::Offset::Custom { minutes },
        }),
    }
}

/// What `toml_edit` says of a text it refuses: its `TomlError::message`, and
/// the byte offset at which its `TomlError::span` starts, where it has one.
pub uninterp spec fn toml_refusal(text: Seq<char>) -> (Seq<char>, Option<usize>);

/// How `toml_edit` renders its refusal of a text for a reader, through
/// `TomlError`'s `Display`: the position, the offending line and the message.
pub uninterp spec fn toml_refusal_text(text: Seq<char>) -> Seq<char>;

/// A text `toml_edit` refused: its own error, with the message, the start of
/// the span and the rendering it carries as plain values.
#[derive(Debug)]
pub struct TomlRefusal {
    pub error: toml_edit::TomlError,
    pub message: String,
    pub start: Option<usize>,
    pub rendered: String,
}

/// Whether a refusal is the one `toml_edit` gives for a text.
pub open spec fn refusal_of(e: TomlRefusal, text: Seq<char>) -> bool {
    &&& (e.message@, e.start) == toml_refusal(text)
    &&& e.rendered@ == toml_refusal_text(text)
}

/// Parse an edited document with `toml_edit::DocumentMut`'s `FromStr`,
/// refusing what it refuses with its own error, whose message, span start
/// and `Display` rendering are read off it.
///
/// The document, and the refusal, are functions of the text alone, named
/// [`toml_document`], [`toml_refusal`] and [`toml_refusal_text`]; nothing is claimed of which texts
/// parse. Every offset the parser reads is within a day, so every date-time
/// of a parsed document is writable.
#[verifier::external_body]
pub(crate) fn parse_document(text: &str) -> (res: Result<TomlDoc, TomlRefusal>)
    ensures
        match res {
            Ok(doc) => toml_document(text@) == Some(doc) && entries_writable(doc.entries@),
            Err(e) => toml_document(text@) is None && (e.message@, e.start) == toml_refusal(text@)
                && e.rendered@ == toml_refusal_text(text@),
        },
{
    match text.parse::<toml_edit::DocumentMut>() {
        Ok(doc) => Ok(TomlDoc { entries: convert_table(doc.as_table()) }),
        Err(err) => {
            let message = err.message().to_owned();
            let start = err.span().map(|span| span.start);
            let rendered = err.to_string();
            Err(TomlRefusal { error: err, message, start, rendered })
        },
    }
}

/// Render a string as a quoted, escaped TOML scalar: `toml_edit::Value`'s
/// `From<&str>` and `Display`, trimmed, which is the repr `toml_edit` picks
/// for that string. The spelling is named [`toml_quoted`].
#[verifier::external_body]
pub fn toml_str(value: &str) -> (out: String)
    ensures
        out@ == toml_quoted(value@),
{
    toml_edit::Value::from(value).to_string().trim().to_string()
}

/// Render strings as an inline TOML array, through `toml_edit::Array`'s
/// `push` and `Display`, trimmed. The spelling is named [`toml_text_array`].
#[verifier::external_body]
pub fn toml_array(items: &Vec<Vec<char>>) -> (out: String)
    ensures
        out@ == toml_text_array(items@.map_values(|item: Vec<char>| item@)),
{
    let mut array = toml_edit::Array::new();
    for item in items {
        array.push(item.iter().collect::<String>());
    }
    array.to_string().trim().to_string()
}

/// Render integers as an inline TOML array, through `toml_edit::Array`.
/// The spelling is named [`toml_integer_array`].
#[verifier::external_body]
pub fn toml_int_array(items: &Vec<i64>) -> (out: String)
    ensures
        out@ == toml_integer_array(items@),
{
    let mut array = toml_edit::Array::new();
    for item in items {
        array.push(*item);
    }
    array.to_string().trim().to_string()
}

/// Render a date-time the way `toml_edit::Datetime`'s `Display` writes it,
/// named [`toml_datetime_text`].
#[verifier::external_body]
pub(crate) fn datetime_string(dtm: &TomlDatetime) -> (out: String)
    requires
        writable(*dtm),
    ensures
        out@ == toml_datetime_text(*dtm),
{
    to_toml_datetime(dtm).to_string()
}

/// The first entry of a table under that key.
pub open spec fn entry_of(entries: Seq<(String, Toml)>, key: Seq<char>) -> Option<Toml>
    decreases entries.len(),
{
    if entries.len() == 0 {
        None
    } else if entries[0].0@ == key {
        Some(entries[0].1)
    } else {
        entry_of(entries.drop_first(), key)
    }
}

/// The value a table holds under a key.
pub fn table_get<'a>(entries: &'a Vec<(String, Toml)>, key: &[char]) -> (r: Option<&'a Toml>)
    ensures
        match r {
            Some(v) => entry_of(entries@, key@) == Some(*v),
            None => entry_of(entries@, key@) is None,
        },
{
    let mut i: usize = 0;
    proof {
        assert(entries@.skip(0) =~= entries@);
    }
    while i < entries.len()
        invariant
            i <= entries.len(),
            entry_of(entries@, key@) == entry_of(entries@.skip(i as int), key@),
        decreases entries.len() - i,
    {
        let ghost rest = entries@.skip(i as int);
        proof {
            assert(rest[0] == entries@[i as int]);
            assert(rest.drop_first() =~= entries@.skip(i + 1));
        }
        if chars_eq(&chars_of(entries[i].0.as_str()), key) {
            return Some(&entries[i].1);
        }
        i = i + 1;
    }
    proof {
        assert(entries@.skip(i as int) =~= Seq::<(String, Toml)>::empty());
    }
    None
}

/// The tables an item addresses: an array of tables (`[[key]]`), or the
/// inline tables of an inline array.
pub open spec fn spec_tables(item: Toml) -> Seq<Seq<(String, Toml)>> {
    match item {
        Toml::TableArray(tables) => tables@.map_values(|t: Vec<(String, Toml)>| t@),
        Toml::Array(values) => inline_tables(values@),
        _ => Seq::empty(),
    }
}

/// The inline tables among some values, in order.
pub open spec fn inline_tables(values: Seq<Toml>) -> Seq<Seq<(String, Toml)>>
    decreases values.len(),
{
    if values.len() == 0 {
        Seq::empty()
    } else {
        match values[0] {
            Toml::Table(t) => seq![t@] + inline_tables(values.drop_first()),
            _ => inline_tables(values.drop_first()),
        }
    }
}

/// The tables an item addresses, as references into it.
pub fn tables<'a>(item: &'a Toml) -> (out: Vec<&'a Vec<(String, Toml)>>)
    ensures
        out@.map_values(|t: &Vec<(String, Toml)>| t@) == spec_tables(*item),
{
    let mut out: Vec<&'a Vec<(String, Toml)>> = Vec::new();
    match item {
        Toml::TableArray(all) => {
            let mut i: usize = 0;
            while i < all.len()
                invariant
                    i <= all.len(),
                    out@.len() == i,
                    forall|j: int| 0 <= j < i ==> *(#[trigger] out@[j]) == all@[j],
                decreases all.len() - i,
            {
                out.push(&all[i]);
                i = i + 1;
            }
            proof {
                assert(out@.map_values(|t: &Vec<(String, Toml)>| t@) =~= all@.map_values(
                    |t: Vec<(String, Toml)>| t@,
                ));
            }
        },
        Toml::Array(values) => {
            let mut i: usize = values.len();
            proof {
                assert(values@.skip(i as int) =~= Seq::<Toml>::empty());
            }
            while i > 0
                invariant
                    i <= values.len(),
                    out@.map_values(|t: &Vec<(String, Toml)>| t@) == inline_tables(
                        values@.skip(i as int),
                    ),
                decreases i,
            {
                i = i - 1;
                let ghost rest = values@.skip(i as int);
                proof {
                    assert(rest[0] == values@[i as int]);
                    assert(rest.drop_first() =~= values@.skip(i + 1));
                }
                if let Toml::Table(t) = &values[i] {
                    let ghost before = out@;
                    out.insert(0, t);
                    proof {
                        assert(out@.map_values(|t: &Vec<(String, Toml)>| t@) =~= seq![t@]
                            + before.map_values(|t: &Vec<(String, Toml)>| t@));
                    }
                }
            }
            proof {
                assert(values@.skip(0) =~= values@);
            }
        },
        _ => {
            proof {
                assert(out@.map_values(|t: &Vec<(String, Toml)>| t@) =~= Seq::<
                    Seq<(String, Toml)>,
                >::empty());
            }
        },
    }
    out
}


/// How an integer string is shown: a bare TOML number where it parses as
/// one, `""` when blank (which a fold-back ignores), quoted otherwise.
pub open spec fn spec_toml_number(value: Seq<char>) -> Seq<char> {
    if value.len() == 0 {
        seq!['"', '"']
    } else if spec_parse_i64(value) is Some {
        value
    } else {
        toml_quoted(value)
    }
}

/// Render an integer string as a bare TOML number, `""` when blank, or a
/// quoted fallback when not a plain integer.
pub fn toml_number(value: &str) -> (out: String)
    ensures
        out@ == spec_toml_number(value@),
{
    let v = chars_of(value);
    if v.len() == 0 {
        let q = vec!['"', '"'];
        proof {
            assert(q@ =~= seq!['"', '"']);
        }
        string_of(&q)
    } else if parse_i64(&v).is_some() {
        string_of(&v)
    } else {
        toml_str(value)
    }
}


/// A text written as a quoted TOML string.
pub fn quoted(value: &[char]) -> (out: Vec<char>)
    ensures
        out@ == toml_quoted(value@),
{
    let text = string_of(value);
    chars_of(toml_str(text.as_str()).as_str())
}


/// A value a writable table holds under a key is writable.
pub proof fn lemma_entry_of_writable(entries: Seq<(String, Toml)>, key: Seq<char>)
    requires
        entries_writable(entries),
    ensures
        entry_of(entries, key) matches Some(v) ==> toml_writable(v),
    decreases entries.len(),
{
    if entries.len() > 0 {
        assert(toml_writable(entries[0].1));
        if entries[0].0@ != key {
            assert forall|i: int| 0 <= i < entries.drop_first().len() implies toml_writable(
                #[trigger] entries.drop_first()[i].1,
            ) by {
                assert(entries.drop_first()[i] == entries[i + 1]);
            }
            lemma_entry_of_writable(entries.drop_first(), key);
        }
    }
}

proof fn lemma_inline_tables_writable(values: Seq<Toml>)
    requires
        forall|i: int| 0 <= i < values.len() ==> toml_writable(#[trigger] values[i]),
    ensures
        forall|i: int| 0 <= i < inline_tables(values).len() ==> entries_writable(#[trigger] inline_tables(values)[i]),
    decreases values.len(),
{
    if values.len() > 0 {
        assert forall|i: int| 0 <= i < values.drop_first().len() implies toml_writable(
            #[trigger] values.drop_first()[i],
        ) by {
            assert(values.drop_first()[i] == values[i + 1]);
        }
        lemma_inline_tables_writable(values.drop_first());
        assert(toml_writable(values[0]));
        match values[0] {
            Toml::Table(t) => {
                assert forall|i: int| 0 <= i < inline_tables(values).len() implies entries_writable(
                    #[trigger] inline_tables(values)[i],
                ) by {
                    if i > 0 {
                        assert(inline_tables(values)[i] == inline_tables(values.drop_first())[i - 1]);
                    }
                }
            },
            _ => {},
        }
    }
}

/// The tables a writable value holds are writable.
pub proof fn lemma_tables_writable(item: Toml)
    requires
        toml_writable(item),
    ensures
        forall|i: int| 0 <= i < spec_tables(item).len() ==> entries_writable(#[trigger] spec_tables(item)[i]),
{
    match item {
        Toml::TableArray(tables) => {
            assert forall|i: int| 0 <= i < spec_tables(item).len() implies entries_writable(
                #[trigger] spec_tables(item)[i],
            ) by {
                assert(spec_tables(item)[i] == tables@[i]@);
            }
        },
        Toml::Array(values) => {
            lemma_inline_tables_writable(values@);
        },
        _ => {},
    }
}

} // verus!
