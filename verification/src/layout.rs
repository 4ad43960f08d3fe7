//! Record layouts: the description of a record as its author wrote it, and
//! the layout that is generated from it.
//!
//! A description lists named, typed fields and attributes of the form
//! `key = "value"`. Generation checks it and fixes, for each field, its
//! type, its byte order and its place in the record's bytes. Fields follow
//! one another without padding.
//!
//! What an attribute's text means as Rust syntax is left to `syn`; which
//! keys and values a record understands is decided here.

use vstd::prelude::*;
use vstd::utf8::encode_utf8;
use crate::endian::{ByteOrder, Endian, native_order};

verus! {

/// Whether an attribute stands before its item or inside it.
#[derive(Clone, Copy, Debug, PartialEq, Eq, Structural)]
pub enum AttributeStyle {
    /// `#[...]`, before the item.
    Outer,
    /// `#![...]`, inside the item.
    Inner,
}

/// What the text of an attribute holds.
#[derive(Debug, PartialEq, Eq)]
pub enum AttributeMeta {
    /// `key = "value"`, the value a string literal.
    NameValue { key: String, value: String },
    /// Any other shape, or no attribute syntax at all.
    Other,
}

impl View for AttributeMeta {
    type V = Option<(Seq<char>, Seq<char>)>;

    /// The key and the value, where there are such.
    open spec fn view(&self) -> Option<(Seq<char>, Seq<char>)> {
        match self {
            AttributeMeta::NameValue { key, value } => Some((key@, value@)),
            AttributeMeta::Other => None,
        }
    }
}

/// One attribute of a record or of a field.
#[derive(Debug, PartialEq, Eq)]
pub struct Attribute {
    /// Where the attribute stands.
    pub style: AttributeStyle,
    /// What stands between the attribute's brackets, as it was written.
    pub text: String,
}

/// The type of a field as it was written.
#[derive(Debug, PartialEq, Eq)]
pub enum TypeDescription {
    /// A type given by its name, such as `u16`.
    Named(String),
    /// A fixed-size array `[element; len]`.
    Array { element: String, len: usize },
    /// Anything else: a reference, a pointer, a tuple, a slice.
    Other,
}

/// One field of a described record.
#[derive(Debug, PartialEq, Eq)]
pub struct FieldDescription {
    /// The field's name, if it has one.
    pub name: Option<String>,
    /// The field's type.
    pub ty: TypeDescription,
    /// The field's attributes, in the order in which they were written.
    pub attrs: Vec<Attribute>,
}

/// The kind of item that a description was taken from.
#[derive(Clone, Copy, Debug, PartialEq, Eq, Structural)]
pub enum RecordKind {
    /// A struct with named fields.
    Struct,
    /// A struct whose fields have no names.
    TupleStruct,
    /// A struct without fields or braces.
    UnitStruct,
    /// An enum.
    Enum,
    /// A union.
    Union,
}

/// A record as its author described it.
#[derive(Debug, PartialEq, Eq)]
pub struct RecordDescription {
    /// The record's name.
    pub name: String,
    /// The kind of item that the record is.
    pub kind: RecordKind,
    /// The record's attributes, in the order in which they were written.
    pub attrs: Vec<Attribute>,
    /// The record's fields, in their order.
    pub fields: Vec<FieldDescription>,
}

/// Why no layout was generated.
#[derive(Clone, Copy, Debug, PartialEq, Eq, Structural)]
pub enum GenerateError {
    /// The description is of an enum or a union.
    NotAStruct,
    /// The struct is a tuple struct or a unit struct.
    FieldsNotNamed,
    /// A field has no name.
    UnnamedField,
    /// An attribute is an inner attribute.
    InnerAttribute,
    /// An attribute is not of the form `key = "value"`.
    MalformedAttribute,
    /// An attribute's key is not one that is understood where it stands.
    UnknownAttributeKey,
    /// The value of `endian` is neither `big` nor `little`.
    InvalidEndian,
    /// A field's type is neither an integer nor an array of bytes.
    UnsupportedFieldType,
    /// The record's size does not fit the machine's address range.
    RecordTooLarge,
}

/// The types a field can have. Every bit pattern of each is a value.
#[derive(Clone, Copy, Debug, PartialEq, Eq, Structural)]
pub enum FieldType {
    U8,
    U16,
    U32,
    U64,
    U128,
    I8,
    I16,
    I32,
    I64,
    I128,
    /// `[u8; n]`.
    Bytes(usize),
}

impl FieldType {
    /// The number of bytes a field of this type takes.
    pub open spec fn width(self) -> nat {
        match self {
            FieldType::U8 | FieldType::I8 => 1,
            FieldType::U16 | FieldType::I16 => 2,
            FieldType::U32 | FieldType::I32 => 4,
            FieldType::U64 | FieldType::I64 => 8,
            FieldType::U128 | FieldType::I128 => 16,
            FieldType::Bytes(n) => n as nat,
        }
    }

    /// Whether this is an integer type, of either sign.
    pub open spec fn is_integer(self) -> bool {
        !(self is Bytes)
    }

    /// Whether this is a signed integer type.
    pub open spec fn is_signed(self) -> bool {
        match self {
            FieldType::I8 | FieldType::I16 | FieldType::I32 | FieldType::I64 | FieldType::I128 => true,
            _ => false,
        }
    }

    /// Computes [`FieldType::width`].
    pub fn byte_width(&self) -> (n: usize)
        ensures
            n == self.width(),
            self.is_integer() ==> n <= 16,
    {
        match self {
            FieldType::U8 | FieldType::I8 => 1,
            FieldType::U16 | FieldType::I16 => 2,
            FieldType::U32 | FieldType::I32 => 4,
            FieldType::U64 | FieldType::I64 => 8,
            FieldType::U128 | FieldType::I128 => 16,
            FieldType::Bytes(n) => *n,
        }
    }
}

/// What one well-formed attribute sets.
#[derive(Debug, PartialEq, Eq)]
pub enum Setting {
    /// `name = "..."`: the name of the generated view type.
    Name(String),
    /// `endian = "big"` or `endian = "little"`.
    Endian(Endian),
}

/// What one well-formed attribute sets, as contracts see it.
pub enum SettingSpec {
    /// The name of the generated view type.
    Name(Seq<char>),
    /// A byte order directive.
    Endian(Endian),
}

impl View for Setting {
    type V = SettingSpec;

    open spec fn view(&self) -> SettingSpec {
        match self {
            Setting::Name(name) => SettingSpec::Name(name@),
            Setting::Endian(endian) => SettingSpec::Endian(*endian),
        }
    }
}

/// What a list of attributes sets, taken together.
#[derive(Debug, PartialEq, Eq)]
pub struct Settings {
    /// The value of the last `name` attribute, if there is one.
    pub name: Option<String>,
    /// The value of the last `endian` attribute, if there is one.
    pub endian: Option<Endian>,
}

/// Whether a byte is a backslash or opens a bracket: `\`, `(`, `[` or `{`.
pub open spec fn spec_is_special(byte: u8) -> bool {
    byte == 0x5C || byte == 0x28 || byte == 0x5B || byte == 0x7B
}

/// Whether a text is plain: none of its bytes is a backslash or opens a
/// bracket. The keys and values that a record understands need neither,
/// and a plain text holds no escape and no nesting for a parser to follow.
pub open spec fn spec_is_plain(text: Seq<char>) -> bool {
    forall|i: int|
        0 <= i < encode_utf8(text).len() ==> !spec_is_special(#[trigger] encode_utf8(text)[i])
}

/// Computes [`spec_is_plain`].
pub fn is_plain(text: &str) -> (plain: bool)
    ensures
        plain == spec_is_plain(text@),
{
    let bytes = text.as_bytes();
    let mut i: usize = 0;
    while i < bytes.len()
        invariant
            i <= bytes.len(),
            bytes@ == encode_utf8(text@),
            forall|k: int| 0 <= k < i ==> !spec_is_special(#[trigger] bytes@[k]),
        decreases bytes.len() - i,
    {
        let byte = bytes[i];
        if byte == 0x5C || byte == 0x28 || byte == 0x5B || byte == 0x7B {
            return false;
        }
        i = i + 1;
    }
    true
}

/// What `syn` reads in the text of an attribute: the key and the value if
/// the text is an identifier, `=` and a string literal, and nothing
/// otherwise.
pub uninterp spec fn spec_interpret_meta(text: Seq<char>) -> Option<(Seq<char>, Seq<char>)>;

/// Parses the text of an attribute with `syn::parse_str` as a `syn::Meta`.
/// The contract gives the outcome a name and claims no more of it than
/// that it depends on the text alone. A name-value pair whose value is a
/// string literal comes back as such, with the identifier's text and the
/// literal's value; every other outcome, a parse error too, as
/// [`AttributeMeta::Other`]. Only plain texts are handed over: `syn`
/// panics on some escapes in a string literal when it is asked for the
/// literal's value, and follows nested brackets as deep as they go.
#[verifier::external_body]
fn interpret_meta(text: &str) -> (meta: AttributeMeta)
    requires
        spec_is_plain(text@),
    ensures
        meta@ == spec_interpret_meta(text@),
{
    match syn::parse_str::<syn::Meta>(text) {
        Ok(syn::Meta::NameValue(syn::MetaNameValue { ident, lit: syn::Lit::Str(value), .. })) => {
            AttributeMeta::NameValue { key: ident.to_string(), value: value.value() }
        },
        _ => AttributeMeta::Other,
    }
}

/// The reading of `endian`'s value.
pub open spec fn spec_endian_value(value: Seq<char>) -> Option<Endian> {
    if value == "big"@ {
        Some(Endian::Big)
    } else if value == "little"@ {
        Some(Endian::Little)
    } else {
        None
    }
}

/// The reading of one attribute from its style and from what its text
/// holds. A record understands the keys `name` and `endian`, a field only
/// `endian`. The checks come in this order: the style, the shape, the key,
/// the value.
pub open spec fn spec_read_meta(
    style: AttributeStyle,
    meta: Option<(Seq<char>, Seq<char>)>,
    of_record: bool,
) -> Result<SettingSpec, GenerateError> {
    if style == AttributeStyle::Inner {
        Err(GenerateError::InnerAttribute)
    } else {
        match meta {
            None => Err(GenerateError::MalformedAttribute),
            Some((key, value)) => {
                if key == "endian"@ {
                    match spec_endian_value(value) {
                        Some(endian) => Ok(SettingSpec::Endian(endian)),
                        None => Err(GenerateError::InvalidEndian),
                    }
                } else if of_record && key == "name"@ {
                    Ok(SettingSpec::Name(value))
                } else {
                    Err(GenerateError::UnknownAttributeKey)
                }
            },
        }
    }
}

/// The reading of one attribute. An inner attribute is refused whatever
/// its text is, and a text that is not plain counts as malformed.
pub open spec fn spec_read_attribute(attr: Attribute, of_record: bool) -> Result<
    SettingSpec,
    GenerateError,
> {
    if attr.style == AttributeStyle::Inner {
        Err(GenerateError::InnerAttribute)
    } else if !spec_is_plain(attr.text@) {
        Err(GenerateError::MalformedAttribute)
    } else {
        spec_read_meta(attr.style, spec_interpret_meta(attr.text@), of_record)
    }
}

/// The error of the first attribute in the list that cannot be read, if
/// there is one.
pub open spec fn spec_first_error(attrs: Seq<Attribute>, of_record: bool) -> Option<GenerateError>
    decreases attrs.len(),
{
    if attrs.len() == 0 {
        None
    } else {
        match spec_read_attribute(attrs[0], of_record) {
            Err(e) => Some(e),
            Ok(_) => spec_first_error(attrs.drop_first(), of_record),
        }
    }
}

/// The value of the last `name` attribute in the list, if there is one.
pub open spec fn spec_last_name(attrs: Seq<Attribute>) -> Option<Seq<char>>
    decreases attrs.len(),
{
    if attrs.len() == 0 {
        None
    } else {
        match spec_read_attribute(attrs.last(), true) {
            Ok(SettingSpec::Name(name)) => Some(name),
            _ => spec_last_name(attrs.drop_last()),
        }
    }
}

/// The value of the last `endian` attribute in the list, if there is one.
pub open spec fn spec_last_endian(attrs: Seq<Attribute>) -> Option<Endian>
    decreases attrs.len(),
{
    if attrs.len() == 0 {
        None
    } else {
        match spec_read_attribute(attrs.last(), true) {
            Ok(SettingSpec::Endian(endian)) => Some(endian),
            _ => spec_last_endian(attrs.drop_last()),
        }
    }
}

/// Whether two texts are the same.
fn same_text(text: &String, literal: &str) -> (same: bool)
    ensures
        same == (text@ == literal@),
{
    let other = literal.to_owned();
    *text == other
}

/// Reads `endian`'s value.
fn endian_value(value: &String) -> (endian: Option<Endian>)
    ensures
        endian == spec_endian_value(value@),
{
    if same_text(value, "big") {
        Some(Endian::Big)
    } else if same_text(value, "little") {
        Some(Endian::Little)
    } else {
        None
    }
}

/// Reads one attribute of a record (`of_record`) or of a field from its
/// style and from what its text holds.
pub fn read_meta(style: AttributeStyle, meta: &AttributeMeta, of_record: bool) -> (setting: Result<
    Setting,
    GenerateError,
>)
    ensures
        match setting {
            Ok(found) => spec_read_meta(style, meta@, of_record) == Ok::<
                SettingSpec,
                GenerateError,
            >(found@),
            Err(e) => spec_read_meta(style, meta@, of_record) == Err::<
                SettingSpec,
                GenerateError,
            >(e),
        },
{
    match style {
        AttributeStyle::Inner => { return Err(GenerateError::InnerAttribute); },
        AttributeStyle::Outer => {},
    }
    match meta {
        AttributeMeta::Other => Err(GenerateError::MalformedAttribute),
        AttributeMeta::NameValue { key, value } => {
            if same_text(key, "endian") {
                match endian_value(value) {
                    Some(endian) => Ok(Setting::Endian(endian)),
                    None => Err(GenerateError::InvalidEndian),
                }
            } else if of_record && same_text(key, "name") {
                Ok(Setting::Name(value.clone()))
            } else {
                Err(GenerateError::UnknownAttributeKey)
            }
        },
    }
}

/// Reads one attribute of a record (`of_record`) or of a field. The text
/// of an inner attribute is not looked at, and only a plain text is
/// parsed.
pub fn read_attribute(attr: &Attribute, of_record: bool) -> (setting: Result<Setting, GenerateError>)
    ensures
        match setting {
            Ok(found) => spec_read_attribute(*attr, of_record) == Ok::<SettingSpec, GenerateError>(
                found@,
            ),
            Err(e) => spec_read_attribute(*attr, of_record) == Err::<SettingSpec, GenerateError>(e),
        },
{
    match attr.style {
        AttributeStyle::Inner => Err(GenerateError::InnerAttribute),
        AttributeStyle::Outer => {
            if is_plain(attr.text.as_str()) {
                let meta = interpret_meta(attr.text.as_str());
                read_meta(attr.style, &meta, of_record)
            } else {
                Err(GenerateError::MalformedAttribute)
            }
        },
    }
}

/// Reads a list of attributes, of a record (`of_record`) or of a field.
/// The first attribute that cannot be read decides the error; otherwise
/// the last `name` and the last `endian` are the ones that count.
pub fn read_attributes(attrs: &Vec<Attribute>, of_record: bool) -> (settings: Result<
    Settings,
    GenerateError,
>)
    ensures
        match settings {
            Err(e) => spec_first_error(attrs@, of_record) == Some(e),
            Ok(found) => {
                &&& spec_first_error(attrs@, of_record) is None
                &&& match found.name {
                    Some(name) => spec_last_name(attrs@) == Some(name@),
                    None => spec_last_name(attrs@) is None,
                }
                &&& found.endian == spec_last_endian(attrs@)
            },
        },
{
    let mut name: Option<String> = None;
    let mut endian: Option<Endian> = None;
    let mut i: usize = 0;
    assert(attrs@.subrange(0, attrs@.len() as int) == attrs@);
    while i < attrs.len()
        invariant
            i <= attrs.len(),
            spec_first_error(attrs@, of_record) == spec_first_error(
                attrs@.subrange(i as int, attrs@.len() as int),
                of_record,
            ),
            match name {
                Some(text) => spec_last_name(attrs@.subrange(0, i as int)) == Some(text@),
                None => spec_last_name(attrs@.subrange(0, i as int)) is None,
            },
            endian == spec_last_endian(attrs@.subrange(0, i as int)),
        decreases attrs.len() - i,
    {
        let ghost rest = attrs@.subrange(i as int, attrs@.len() as int);
        let ghost seen = attrs@.subrange(0, i + 1);
        assert(rest[0] == attrs@[i as int]);
        assert(rest.drop_first() == attrs@.subrange(i + 1, attrs@.len() as int));
        assert(seen.last() == attrs@[i as int]);
        assert(seen.drop_last() == attrs@.subrange(0, i as int));
        match read_attribute(&attrs[i], of_record) {
            Err(e) => { return Err(e); },
            Ok(Setting::Name(text)) => { name = Some(text); },
            Ok(Setting::Endian(order)) => { endian = Some(order); },
        }
        i = i + 1;
    }
    assert(attrs@.subrange(0, i as int) == attrs@);
    Ok(Settings { name, endian })
}

/// The name of the view type that a description asks for: the value of its
/// last `name` attribute, or else the record's name followed by `Buffer`.
pub open spec fn spec_view_name(desc: RecordDescription) -> Seq<char> {
    match spec_last_name(desc.attrs@) {
        Some(name) => name,
        None => desc.name@ + "Buffer"@,
    }
}

/// Reads the record's attributes for the name of the view type. Fails with
/// the error of the first attribute that cannot be read.
pub fn extract_attr_name(desc: &RecordDescription) -> (name: Result<String, GenerateError>)
    ensures
        match name {
            Err(e) => spec_first_error(desc.attrs@, true) == Some(e),
            Ok(text) => spec_first_error(desc.attrs@, true) is None && text@ == spec_view_name(
                *desc,
            ),
        },
{
    match read_attributes(&desc.attrs, true) {
        Err(e) => Err(e),
        Ok(found) => match found.name {
            Some(text) => Ok(text),
            None => Ok(desc.name.clone().concat("Buffer")),
        },
    }
}

/// The byte order directive that holds for a field: its own last `endian`
/// attribute, or else the record's. A field without a name is refused
/// before its attributes are read.
pub open spec fn spec_match_endian(field: FieldDescription, record_endian: Endian) -> Result<
    Endian,
    GenerateError,
> {
    if field.name is None {
        Err(GenerateError::UnnamedField)
    } else {
        match spec_first_error(field.attrs@, false) {
            Some(e) => Err(e),
            None => match spec_last_endian(field.attrs@) {
                Some(endian) => Ok(endian),
                None => Ok(record_endian),
            },
        }
    }
}

/// Decides the byte order directive of one field.
pub fn match_endian(field: &FieldDescription, record_endian: Endian) -> (endian: Result<
    Endian,
    GenerateError,
>)
    ensures
        endian == spec_match_endian(*field, record_endian),
{
    if field.name.is_none() {
        return Err(GenerateError::UnnamedField);
    }
    match read_attributes(&field.attrs, false) {
        Err(e) => Err(e),
        Ok(found) => match found.endian {
            Some(endian) => Ok(endian),
            None => Ok(record_endian),
        },
    }
}

/// The field type that a written type stands for, if it is a supported one:
/// an integer of 8 to 128 bits, or an array of `u8`.
pub open spec fn spec_field_type(ty: TypeDescription) -> Option<FieldType> {
    match ty {
        TypeDescription::Named(name) => {
            if name@ == "u8"@ {
                Some(FieldType::U8)
            } else if name@ == "u16"@ {
                Some(FieldType::U16)
            } else if name@ == "u32"@ {
                Some(FieldType::U32)
            } else if name@ == "u64"@ {
                Some(FieldType::U64)
            } else if name@ == "u128"@ {
                Some(FieldType::U128)
            } else if name@ == "i8"@ {
                Some(FieldType::I8)
            } else if name@ == "i16"@ {
                Some(FieldType::I16)
            } else if name@ == "i32"@ {
                Some(FieldType::I32)
            } else if name@ == "i64"@ {
                Some(FieldType::I64)
            } else if name@ == "i128"@ {
                Some(FieldType::I128)
            } else {
                None
            }
        },
        TypeDescription::Array { element, len } => {
            if element@ == "u8"@ {
                Some(FieldType::Bytes(len))
            } else {
                None
            }
        },
        TypeDescription::Other => None,
    }
}

/// Computes [`spec_field_type`].
pub fn field_type(ty: &TypeDescription) -> (found: Option<FieldType>)
    ensures
        found == spec_field_type(*ty),
{
    match ty {
        TypeDescription::Named(name) => {
            if same_text(name, "u8") {
                Some(FieldType::U8)
            } else if same_text(name, "u16") {
                Some(FieldType::U16)
            } else if same_text(name, "u32") {
                Some(FieldType::U32)
            } else if same_text(name, "u64") {
                Some(FieldType::U64)
            } else if same_text(name, "u128") {
                Some(FieldType::U128)
            } else if same_text(name, "i8") {
                Some(FieldType::I8)
            } else if same_text(name, "i16") {
                Some(FieldType::I16)
            } else if same_text(name, "i32") {
                Some(FieldType::I32)
            } else if same_text(name, "i64") {
                Some(FieldType::I64)
            } else if same_text(name, "i128") {
                Some(FieldType::I128)
            } else {
                None
            }
        },
        TypeDescription::Array { element, len } => {
            if same_text(element, "u8") {
                Some(FieldType::Bytes(*len))
            } else {
                None
            }
        },
        TypeDescription::Other => None,
    }
}

/// One field of a generated layout, as contracts see it.
pub struct FieldSpec {
    /// The field's name.
    pub name: Seq<char>,
    /// The field's type.
    pub ty: FieldType,
    /// The directive that holds for the field.
    pub endian: Endian,
    /// The order its bytes are read and written in.
    pub order: ByteOrder,
    /// The index of its first byte in the record's bytes.
    pub offset: nat,
}

/// A generated layout, as contracts see it.
pub struct LayoutSpec {
    /// The name of the view type.
    pub name: Seq<char>,
    /// The fields, in the record's order.
    pub fields: Seq<FieldSpec>,
    /// The number of bytes of the record.
    pub size: nat,
}

/// The index after the last byte of the last of `fields`; 0 if there is
/// none.
pub open spec fn spec_end(fields: Seq<FieldSpec>) -> nat {
    if fields.len() == 0 {
        0
    } else {
        fields.last().offset + fields.last().ty.width()
    }
}

/// Whether the field at `index` begins where the one before it ends, or at
/// index 0 if it is the first.
pub open spec fn spec_follows(fields: Seq<FieldSpec>, index: int) -> bool {
    fields[index].offset == if index == 0 {
        0
    } else {
        fields[index - 1].offset + fields[index - 1].ty.width()
    }
}

impl LayoutSpec {
    /// The fields lie in the record's bytes one after the other, from index
    /// 0 on and without gaps, and the size is where the last one ends.
    pub open spec fn wf(self) -> bool {
        &&& forall|i: int| 0 <= i < self.fields.len() ==> #[trigger] spec_follows(self.fields, i)
        &&& self.size == spec_end(self.fields)
        &&& self.size <= usize::MAX
    }

    /// The index of the first field called `name`, if there is one.
    pub open spec fn index_of(self, name: Seq<char>) -> Option<int> {
        if exists|i: int| 0 <= i < self.fields.len() && self.fields[i].name == name {
            Some(
                choose|i: int|
                    0 <= i < self.fields.len() && self.fields[i].name == name && forall|j: int|
                        0 <= j < i ==> self.fields[j].name != name,
            )
        } else {
            None
        }
    }
}

/// One field of a generated layout.
#[derive(Debug, PartialEq, Eq)]
pub struct FieldLayout {
    /// The field's name.
    pub name: String,
    /// The field's type.
    pub ty: FieldType,
    /// The directive that holds for the field.
    pub endian: Endian,
    /// The order its bytes are read and written in.
    pub order: ByteOrder,
    /// The index of its first byte in the record's bytes.
    pub offset: usize,
}

impl View for FieldLayout {
    type V = FieldSpec;

    open spec fn view(&self) -> FieldSpec {
        FieldSpec {
            name: self.name@,
            ty: self.ty,
            endian: self.endian,
            order: self.order,
            offset: self.offset as nat,
        }
    }
}

impl FieldLayout {
    /// The name of the accessor that reads the field: `get_` and the
    /// field's name.
    pub fn getter(&self) -> (name: String)
        ensures
            name@ == "get_"@ + self.name@,
    {
        "get_".to_owned().concat(self.name.as_str())
    }

    /// The name of the accessor that writes the field: `set_` and the
    /// field's name.
    pub fn setter(&self) -> (name: String)
        ensures
            name@ == "set_"@ + self.name@,
    {
        "set_".to_owned().concat(self.name.as_str())
    }
}

/// The layout of one field: its directive from [`spec_match_endian`], its
/// type from [`spec_field_type`], its first byte at `offset`. The checks
/// come in this order: the name, the attributes, the type, the room.
pub open spec fn spec_field_layout(
    field: FieldDescription,
    record_endian: Endian,
    native: ByteOrder,
    offset: nat,
) -> Result<FieldSpec, GenerateError> {
    match spec_match_endian(field, record_endian) {
        Err(e) => Err(e),
        Ok(endian) => match spec_field_type(field.ty) {
            None => Err(GenerateError::UnsupportedFieldType),
            Some(ty) => if offset + ty.width() > usize::MAX {
                Err(GenerateError::RecordTooLarge)
            } else {
                Ok(
                    FieldSpec {
                        name: field.name->Some_0@,
                        ty,
                        endian,
                        order: endian.resolve(native),
                        offset,
                    },
                )
            },
        },
    }
}

/// The layouts of the fields in their order, each one starting where the
/// one before it ends. The first field that is refused decides the error.
pub open spec fn spec_field_layouts(
    fields: Seq<FieldDescription>,
    record_endian: Endian,
    native: ByteOrder,
) -> Result<Seq<FieldSpec>, GenerateError>
    decreases fields.len(),
{
    if fields.len() == 0 {
        Ok(Seq::empty())
    } else {
        match spec_field_layouts(fields.drop_last(), record_endian, native) {
            Err(e) => Err(e),
            Ok(placed) => match spec_field_layout(
                fields.last(),
                record_endian,
                native,
                spec_end(placed),
            ) {
                Err(e) => Err(e),
                Ok(next) => Ok(placed.push(next)),
            },
        }
    }
}

/// The layout generated from a description on a machine whose byte order
/// is `native`. The checks come in this order: the record's attributes, the
/// kind of item, then the fields one by one.
pub open spec fn spec_no_copy(desc: RecordDescription, native: ByteOrder) -> Result<
    LayoutSpec,
    GenerateError,
> {
    match spec_first_error(desc.attrs@, true) {
        Some(e) => Err(e),
        None => match desc.kind {
            RecordKind::Enum | RecordKind::Union => Err(GenerateError::NotAStruct),
            RecordKind::TupleStruct | RecordKind::UnitStruct => Err(GenerateError::FieldsNotNamed),
            RecordKind::Struct => {
                let record_endian = match spec_last_endian(desc.attrs@) {
                    Some(endian) => endian,
                    None => Endian::Default,
                };
                match spec_field_layouts(desc.fields@, record_endian, native) {
                    Err(e) => Err(e),
                    Ok(fields) => Ok(
                        LayoutSpec { name: spec_view_name(desc), fields, size: spec_end(fields) },
                    ),
                }
            },
        },
    }
}

/// Once a field is refused, the fields after it do not matter.
proof fn lemma_field_error_persists(
    fields: Seq<FieldDescription>,
    record_endian: Endian,
    native: ByteOrder,
    n: int,
)
    requires
        0 <= n <= fields.len(),
        spec_field_layouts(fields.subrange(0, n), record_endian, native) is Err,
    ensures
        spec_field_layouts(fields, record_endian, native) == spec_field_layouts(
            fields.subrange(0, n),
            record_endian,
            native,
        ),
    decreases fields.len() - n,
{
    if n < fields.len() {
        assert(fields.subrange(0, n + 1).drop_last() == fields.subrange(0, n));
        lemma_field_error_persists(fields, record_endian, native, n + 1);
    } else {
        assert(fields.subrange(0, n) == fields);
    }
}

/// A generated layout: the view type's name and, for each field of the
/// record, its name, type, byte order and place.
#[derive(Debug, PartialEq, Eq)]
pub struct RecordLayout {
    name: String,
    fields: Vec<FieldLayout>,
    size: usize,
}

impl View for RecordLayout {
    type V = LayoutSpec;

    closed spec fn view(&self) -> LayoutSpec {
        LayoutSpec {
            name: self.name@,
            fields: Seq::new(self.fields@.len(), |i: int| self.fields@[i]@),
            size: self.size as nat,
        }
    }
}

impl RecordLayout {
    #[verifier::type_invariant]
    spec fn well_formed(self) -> bool {
        self@.wf()
    }

    /// The name of the view type.
    pub fn name(&self) -> (name: &str)
        ensures
            name@ == self@.name,
    {
        self.name.as_str()
    }

    /// The number of bytes of the record.
    pub fn size(&self) -> (size: usize)
        ensures
            size == self@.size,
            self@.wf(),
    {
        proof {
            use_type_invariant(self);
        }
        self.size
    }

    /// The number of fields.
    pub fn field_count(&self) -> (count: usize)
        ensures
            count == self@.fields.len(),
    {
        self.fields.len()
    }

    /// The field at `index`, if there are that many.
    pub fn field(&self, index: usize) -> (field: Option<&FieldLayout>)
        ensures
            self@.wf(),
            match field {
                Some(found) => index < self@.fields.len() && found@ == self@.fields[index as int],
                None => index >= self@.fields.len(),
            },
    {
        proof {
            use_type_invariant(self);
        }
        if index < self.fields.len() {
            Some(&self.fields[index])
        } else {
            None
        }
    }

    /// The index of the first field called `name`, if there is one.
    pub fn field_index(&self, name: &str) -> (index: Option<usize>)
        ensures
            match index {
                Some(i) => i < self@.fields.len() && self@.index_of(name@) == Some(i as int),
                None => self@.index_of(name@) is None,
            },
    {
        let wanted = name.to_owned();
        let mut i: usize = 0;
        while i < self.fields.len()
            invariant
                i <= self.fields.len(),
                wanted@ == name@,
                forall|j: int| 0 <= j < i ==> self@.fields[j].name != name@,
            decreases self.fields.len() - i,
        {
            if self.fields[i].name == wanted {
                assert(self@.fields[i as int].name == name@);
                return Some(i);
            }
            i = i + 1;
        }
        None
    }
}

/// Generates the layout of a described record for a machine whose byte
/// order is `native`.
pub fn no_copy_for(desc: &RecordDescription, native: ByteOrder) -> (layout: Result<
    RecordLayout,
    GenerateError,
>)
    ensures
        match layout {
            Ok(made) => spec_no_copy(*desc, native) == Ok::<LayoutSpec, GenerateError>(made@)
                && made@.wf(),
            Err(e) => spec_no_copy(*desc, native) == Err::<LayoutSpec, GenerateError>(e),
        },
{
    let name = match extract_attr_name(desc) {
        Err(e) => { return Err(e); },
        Ok(name) => name,
    };
    match desc.kind {
        RecordKind::Enum | RecordKind::Union => { return Err(GenerateError::NotAStruct); },
        RecordKind::TupleStruct | RecordKind::UnitStruct => {
            return Err(GenerateError::FieldsNotNamed);
        },
        RecordKind::Struct => {},
    }
    let record_endian = match read_attributes(&desc.attrs, true) {
        Err(e) => { return Err(e); },
        Ok(found) => match found.endian {
            Some(endian) => endian,
            None => Endian::Default,
        },
    };
    let mut fields: Vec<FieldLayout> = Vec::new();
    let mut offset: usize = 0;
    let mut i: usize = 0;
    let ghost mut placed: Seq<FieldSpec> = Seq::empty();
    assert(desc.fields@.subrange(0, 0) == Seq::<FieldDescription>::empty());
    while i < desc.fields.len()
        invariant
            i <= desc.fields.len(),
            fields@.len() == i,
            spec_first_error(desc.attrs@, true) is None,
            desc.kind == RecordKind::Struct,
            record_endian == match spec_last_endian(desc.attrs@) {
                Some(endian) => endian,
                None => Endian::Default,
            },
            placed == Seq::new(fields@.len(), |k: int| fields@[k]@),
            spec_field_layouts(desc.fields@.subrange(0, i as int), record_endian, native) == Ok::<
                Seq<FieldSpec>,
                GenerateError,
            >(placed),
            offset == spec_end(placed),
            forall|k: int|
                0 <= k < placed.len() ==> (#[trigger] placed[k]).offset == spec_end(
                    placed.subrange(0, k),
                ),
        decreases desc.fields.len() - i,
    {
        let field = &desc.fields[i];
        let ghost upto = desc.fields@.subrange(0, i + 1);
        assert(upto.drop_last() == desc.fields@.subrange(0, i as int));
        assert(upto.last() == *field);
        let endian = match match_endian(field, record_endian) {
            Err(e) => {
                proof {
                    lemma_field_error_persists(desc.fields@, record_endian, native, i + 1);
                }
                return Err(e);
            },
            Ok(endian) => endian,
        };
        let ty = match field_type(&field.ty) {
            None => {
                proof {
                    lemma_field_error_persists(desc.fields@, record_endian, native, i + 1);
                }
                return Err(GenerateError::UnsupportedFieldType);
            },
            Some(ty) => ty,
        };
        let end = match offset.checked_add(ty.byte_width()) {
            None => {
                proof {
                    lemma_field_error_persists(desc.fields@, record_endian, native, i + 1);
                }
                return Err(GenerateError::RecordTooLarge);
            },
            Some(end) => end,
        };
        let next = FieldLayout {
            name: field.name.as_ref().unwrap().clone(),
            ty,
            endian,
            order: endian.byte_order(native),
            offset,
        };
        proof {
            let grown = placed.push(next@);
            assert forall|k: int| 0 <= k < grown.len() implies #[trigger] spec_follows(
                grown,
                k,
            ) by {
                if k < placed.len() {
                    assert(spec_follows(placed, k));
                }
            }
            placed = grown;
        }
        fields.push(next);
        assert(placed =~= Seq::new(fields@.len(), |k: int| fields@[k]@));
        offset = end;
        i = i + 1;
    }
    assert(desc.fields@.subrange(0, i as int) == desc.fields@);
    Ok(RecordLayout { name, fields, size: offset })
}

/// Generates the layout of a described record for the machine that
/// runs this code. What it returns is what [`RecordLayout::no_copy_for`]
/// returns for one of the two byte orders; whether the description is
/// refused, and why, does not depend on the machine.
pub fn no_copy(desc: &RecordDescription) -> (layout: Result<RecordLayout, GenerateError>)
    ensures
        match layout {
            Ok(made) => made@.wf() && exists|native: ByteOrder|
                spec_no_copy(*desc, native) == Ok::<LayoutSpec, GenerateError>(made@),
            Err(e) => forall|native: ByteOrder|
                spec_no_copy(*desc, native) == Err::<LayoutSpec, GenerateError>(e),
        },
{
    let layout = no_copy_for(desc, native_order());
    proof {
        lemma_refusal_is_portable(*desc, ByteOrder::Big, ByteOrder::Little);
        lemma_refusal_is_portable(*desc, ByteOrder::Little, ByteOrder::Big);
    }
    layout
}

/// Each field that was placed is the layout of the described field at the
/// same index, at the place it was given.
proof fn lemma_placed_as_described(
    fields: Seq<FieldDescription>,
    record_endian: Endian,
    native: ByteOrder,
    i: int,
)
    requires
        spec_field_layouts(fields, record_endian, native) is Ok,
        0 <= i < fields.len(),
    ensures
        spec_field_layouts(fields, record_endian, native)->Ok_0.len() == fields.len(),
        spec_field_layout(
            fields[i],
            record_endian,
            native,
            spec_field_layouts(fields, record_endian, native)->Ok_0[i].offset,
        ) == Ok::<FieldSpec, GenerateError>(
            spec_field_layouts(fields, record_endian, native)->Ok_0[i],
        ),
    decreases fields.len(),
{
    lemma_placed_in_order(fields, record_endian, native);
    lemma_placed_in_order(fields.drop_last(), record_endian, native);
    if i < fields.len() - 1 {
        lemma_placed_as_described(fields.drop_last(), record_endian, native, i);
    }
}

/// A generated layout keeps the fields of the description in their order,
/// each with its name and its type. The directive of a field is its own
/// last `endian` attribute, or else the record's, or else the default; its
/// byte order is what the directive stands for on the machine.
pub proof fn lemma_generated_fields(desc: RecordDescription, native: ByteOrder, i: int)
    requires
        spec_no_copy(desc, native) is Ok,
        0 <= i < desc.fields@.len(),
    ensures
        ({
            let layout = spec_no_copy(desc, native)->Ok_0;
            let field = desc.fields@[i];
            &&& layout.name == spec_view_name(desc)
            &&& layout.fields.len() == desc.fields@.len()
            &&& field.name is Some
            &&& layout.fields[i].name == field.name->Some_0@
            &&& spec_field_type(field.ty) == Some(layout.fields[i].ty)
            &&& layout.fields[i].endian == match spec_last_endian(field.attrs@) {
                Some(endian) => endian,
                None => match spec_last_endian(desc.attrs@) {
                    Some(endian) => endian,
                    None => Endian::Default,
                },
            }
            &&& layout.fields[i].order == layout.fields[i].endian.resolve(native)
        }),
{
    let record_endian = match spec_last_endian(desc.attrs@) {
        Some(endian) => endian,
        None => Endian::Default,
    };
    lemma_placed_as_described(desc.fields@, record_endian, native, i);
}

/// What is generated from a description is a well-formed layout.
pub proof fn lemma_generated_is_well_formed(desc: RecordDescription, native: ByteOrder)
    requires
        spec_no_copy(desc, native) is Ok,
    ensures
        spec_no_copy(desc, native)->Ok_0.wf(),
{
    let record_endian = match spec_last_endian(desc.attrs@) {
        Some(endian) => endian,
        None => Endian::Default,
    };
    lemma_placed_in_order(desc.fields@, record_endian, native);
}

/// Fields that were placed follow one another and end within the address
/// range.
proof fn lemma_placed_in_order(
    fields: Seq<FieldDescription>,
    record_endian: Endian,
    native: ByteOrder,
)
    requires
        spec_field_layouts(fields, record_endian, native) is Ok,
    ensures
        spec_field_layouts(fields, record_endian, native)->Ok_0.len() == fields.len(),
        spec_end(spec_field_layouts(fields, record_endian, native)->Ok_0) <= usize::MAX,
        forall|k: int|
            0 <= k < fields.len() ==> #[trigger] spec_follows(
                spec_field_layouts(fields, record_endian, native)->Ok_0,
                k,
            ),
    decreases fields.len(),
{
    if fields.len() > 0 {
        let front = spec_field_layouts(fields.drop_last(), record_endian, native)->Ok_0;
        let placed = spec_field_layouts(fields, record_endian, native)->Ok_0;
        lemma_placed_in_order(fields.drop_last(), record_endian, native);
        assert forall|k: int| 0 <= k < fields.len() implies #[trigger] spec_follows(placed, k) by {
            if k < front.len() {
                assert(spec_follows(front, k));
            }
        }
    }
}

/// Whether a description is refused, and with which error, is the same for
/// every byte order of the machine.
pub proof fn lemma_refusal_is_portable(desc: RecordDescription, a: ByteOrder, b: ByteOrder)
    ensures
        spec_no_copy(desc, a) is Err == spec_no_copy(desc, b) is Err,
        spec_no_copy(desc, a) is Err ==> spec_no_copy(desc, a)->Err_0 == spec_no_copy(
            desc,
            b,
        )->Err_0,
{
    let record_endian = match spec_last_endian(desc.attrs@) {
        Some(endian) => endian,
        None => Endian::Default,
    };
    lemma_fields_portable(desc.fields@, record_endian, a, b);
}

/// The fields are placed alike for every byte order of the machine.
proof fn lemma_fields_portable(
    fields: Seq<FieldDescription>,
    record_endian: Endian,
    a: ByteOrder,
    b: ByteOrder,
)
    ensures
        match spec_field_layouts(fields, record_endian, a) {
            Err(e) => spec_field_layouts(fields, record_endian, b) == Err::<
                Seq<FieldSpec>,
                GenerateError,
            >(e),
            Ok(placed) => spec_field_layouts(fields, record_endian, b) is Ok && spec_end(
                spec_field_layouts(fields, record_endian, b)->Ok_0,
            ) == spec_end(placed),
        },
    decreases fields.len(),
{
    if fields.len() > 0 {
        lemma_fields_portable(fields.drop_last(), record_endian, a, b);
    }
}

/// In a well-formed layout every field begins where the fields before it
/// end.
pub proof fn lemma_field_start(layout: LayoutSpec, i: int)
    requires
        layout.wf(),
        0 <= i < layout.fields.len(),
    ensures
        layout.fields[i].offset == spec_end(layout.fields.subrange(0, i)),
{
    assert(spec_follows(layout.fields, i));
    if i > 0 {
        assert(layout.fields.subrange(0, i).last() == layout.fields[i - 1]);
    }
}

/// In a well-formed layout every field ends within the record.
proof fn lemma_fields_in_record(layout: LayoutSpec, j: int)
    requires
        layout.wf(),
        0 < j <= layout.fields.len(),
    ensures
        spec_end(layout.fields.subrange(0, j)) <= layout.size,
    decreases layout.fields.len() - j,
{
    let fields = layout.fields;
    assert(fields.subrange(0, j).last() == fields[j - 1]);
    if j < fields.len() {
        assert(spec_follows(fields, j));
        assert(fields.subrange(0, j + 1).last() == fields[j]);
        lemma_fields_in_record(layout, j + 1);
    } else {
        assert(fields.subrange(0, j) == fields);
    }
}

/// In a well-formed layout the fields lie in their order: none begins
/// before the one ahead of it ends, and all end within the record.
pub proof fn lemma_fields_in_order(layout: LayoutSpec, i: int, j: int)
    requires
        layout.wf(),
        0 <= i < j <= layout.fields.len(),
    ensures
        layout.fields[i].offset + layout.fields[i].ty.width() <= spec_end(
            layout.fields.subrange(0, j),
        ),
        j < layout.fields.len() ==> layout.fields[i].offset + layout.fields[i].ty.width()
            <= layout.fields[j].offset,
        layout.fields[i].offset + layout.fields[i].ty.width() <= layout.size,
    decreases j - i,
{
    let fields = layout.fields;
    assert(fields.subrange(0, j).last() == fields[j - 1]);
    lemma_fields_in_record(layout, j);
    if j < fields.len() {
        assert(spec_follows(fields, j));
    }
    if i + 1 < j {
        lemma_fields_in_order(layout, i, j - 1);
    }
}

} // verus!
