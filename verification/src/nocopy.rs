//! Views of records: one byte buffer read and written field by field.
//!
//! A view holds the bytes of one record and the layout that says where
//! each field lies. Reading a field decodes its bytes in the field's byte
//! order; writing a field encodes the value into the same bytes. Nothing
//! else is stored, so the bytes and the fields are always two readings of
//! the same memory.

use vstd::prelude::*;
use vstd::arithmetic::div_mod::{lemma_mod_add_multiples_vanish, lemma_small_mod};
use crate::endian::{
    bytes_of, decode, encode, lemma_decode_encode, lemma_encode_decode, lemma_pow256_positive,
    lemma_pow256_values, lemma_value_bound, overlay, overwrite, pow256, value_of,
};
use crate::layout::{
    FieldLayout, FieldSpec, FieldType, LayoutSpec, RecordLayout, lemma_field_start,
    lemma_fields_in_order, spec_end,
};

verus! {

/// The value of one field: an integer of one of the ten integer types, or
/// the bytes of a byte array.
#[derive(Debug, PartialEq, Eq)]
pub enum FieldValue {
    U8(u8),
    U16(u16),
    U32(u32),
    U64(u64),
    U128(u128),
    I8(i8),
    I16(i16),
    I32(i32),
    I64(i64),
    I128(i128),
    Bytes(Vec<u8>),
}

/// The value of one field, as contracts see it.
pub enum Value {
    /// An integer of the given type.
    Int { ty: FieldType, value: int },
    /// The bytes of a byte array.
    Bytes(Seq<u8>),
}

impl View for FieldValue {
    type V = Value;

    open spec fn view(&self) -> Value {
        match self {
            FieldValue::U8(v) => Value::Int { ty: FieldType::U8, value: *v as int },
            FieldValue::U16(v) => Value::Int { ty: FieldType::U16, value: *v as int },
            FieldValue::U32(v) => Value::Int { ty: FieldType::U32, value: *v as int },
            FieldValue::U64(v) => Value::Int { ty: FieldType::U64, value: *v as int },
            FieldValue::U128(v) => Value::Int { ty: FieldType::U128, value: *v as int },
            FieldValue::I8(v) => Value::Int { ty: FieldType::I8, value: *v as int },
            FieldValue::I16(v) => Value::Int { ty: FieldType::I16, value: *v as int },
            FieldValue::I32(v) => Value::Int { ty: FieldType::I32, value: *v as int },
            FieldValue::I64(v) => Value::Int { ty: FieldType::I64, value: *v as int },
            FieldValue::I128(v) => Value::Int { ty: FieldType::I128, value: *v as int },
            FieldValue::Bytes(b) => Value::Bytes(b@),
        }
    }
}

/// Why a view was not made or a field not written.
#[derive(Clone, Copy, Debug, PartialEq, Eq, Structural)]
pub enum AccessError {
    /// The buffer's length is not the record's size.
    SizeMismatch,
    /// The number of values is not the number of fields.
    FieldCountMismatch,
    /// The record has no such field.
    NoSuchField,
    /// The value is not of the field's type.
    TypeMismatch,
}

/// Whether `value` is a number that the integer type `ty` can hold.
pub open spec fn spec_in_range(ty: FieldType, value: int) -> bool {
    if ty.is_signed() {
        -(pow256(ty.width()) as int) <= 2 * value < pow256(ty.width())
    } else {
        0 <= value < pow256(ty.width())
    }
}

/// Whether `value` is a value of the type `ty`.
pub open spec fn spec_admits(ty: FieldType, value: Value) -> bool {
    match value {
        Value::Int { ty: own, value } => own == ty && ty.is_integer() && spec_in_range(ty, value),
        Value::Bytes(bytes) => ty == FieldType::Bytes(bytes.len() as usize) && bytes.len()
            <= usize::MAX,
    }
}

/// The bit pattern of an integer in `width` bytes, read as an unsigned
/// number: the integer itself, or for a negative one its two's complement.
pub open spec fn spec_raw(value: int, width: nat) -> nat {
    (value % (pow256(width) as int)) as nat
}

/// The integer of type `ty` with the bit pattern `raw`.
pub open spec fn spec_int(ty: FieldType, raw: nat) -> int {
    if ty.is_signed() && 2 * raw >= pow256(ty.width()) {
        raw - pow256(ty.width())
    } else {
        raw as int
    }
}

/// The value that the bytes of a field spell.
pub open spec fn spec_decode_field(field: FieldSpec, bytes: Seq<u8>) -> Value {
    if field.ty.is_integer() {
        Value::Int { ty: field.ty, value: spec_int(field.ty, value_of(bytes, field.order)) }
    } else {
        Value::Bytes(bytes)
    }
}

/// The bytes that spell a value in a field.
pub open spec fn spec_encode_field(field: FieldSpec, value: Value) -> Seq<u8> {
    match value {
        Value::Int { ty, value } => bytes_of(
            spec_raw(value, field.ty.width()),
            field.ty.width(),
            field.order,
        ),
        Value::Bytes(bytes) => bytes,
    }
}

impl LayoutSpec {
    /// The bytes of the field at `index` in a record's bytes.
    pub open spec fn field_bytes(self, bytes: Seq<u8>, index: int) -> Seq<u8> {
        bytes.subrange(
            self.fields[index].offset as int,
            (self.fields[index].offset + self.fields[index].ty.width()) as int,
        )
    }

    /// The value of the field at `index` in a record's bytes.
    pub open spec fn get(self, bytes: Seq<u8>, index: int) -> Value {
        spec_decode_field(self.fields[index], self.field_bytes(bytes, index))
    }

    /// A record's bytes after `value` was written into the field at `index`.
    pub open spec fn set(self, bytes: Seq<u8>, index: int, value: Value) -> Seq<u8> {
        overlay(
            bytes,
            self.fields[index].offset as int,
            spec_encode_field(self.fields[index], value),
        )
    }

    /// The values of all fields in a record's bytes, in the fields' order.
    pub open spec fn values(self, bytes: Seq<u8>) -> Seq<Value> {
        Seq::new(self.fields.len(), |i: int| self.get(bytes, i))
    }

    /// Whether `values` holds one value for each field, of the field's type.
    pub open spec fn admits(self, values: Seq<Value>) -> bool {
        &&& values.len() == self.fields.len()
        &&& forall|i: int|
            0 <= i < self.fields.len() ==> spec_admits(self.fields[i].ty, #[trigger] values[i])
    }

    /// The bytes of the record whose fields have the given values: the
    /// fields' encodings, one after the other.
    pub open spec fn image(self, values: Seq<Value>) -> Seq<u8> {
        spec_image(self.fields, values)
    }
}

/// The encodings of `values` in `fields`, one after the other.
pub open spec fn spec_image(fields: Seq<FieldSpec>, values: Seq<Value>) -> Seq<u8>
    decreases fields.len(),
{
    if fields.len() == 0 || values.len() == 0 {
        Seq::empty()
    } else {
        spec_image(fields.drop_last(), values.drop_last()) + spec_encode_field(
            fields.last(),
            values.last(),
        )
    }
}

/// An integer that its type can hold is the integer of its own bit pattern.
pub proof fn lemma_int_of_raw(ty: FieldType, value: int)
    requires
        ty.is_integer(),
        spec_in_range(ty, value),
    ensures
        spec_raw(value, ty.width()) < pow256(ty.width()),
        spec_int(ty, spec_raw(value, ty.width())) == value,
{
    let modulus = pow256(ty.width());
    lemma_pow256_positive(ty.width());
    if value >= 0 {
        lemma_small_mod(value as nat, modulus);
    } else {
        lemma_mod_add_multiples_vanish(value, modulus as int);
        lemma_small_mod((value + modulus) as nat, modulus);
    }
}

/// A bit pattern that fits the type is the bit pattern of its integer, and
/// the type can hold that integer.
pub proof fn lemma_raw_of_int(ty: FieldType, raw: nat)
    requires
        ty.is_integer(),
        raw < pow256(ty.width()),
    ensures
        spec_in_range(ty, spec_int(ty, raw)),
        spec_raw(spec_int(ty, raw), ty.width()) == raw,
{
    let modulus = pow256(ty.width());
    let value = spec_int(ty, raw);
    lemma_pow256_values();
    if value >= 0 {
        lemma_small_mod(raw, modulus);
    } else {
        lemma_mod_add_multiples_vanish(value, modulus as int);
        lemma_small_mod(raw, modulus);
    }
}

/// A value of a field's type survives being written to the field and read
/// back, and takes as many bytes as the field is wide.
pub proof fn lemma_field_round_trip(field: FieldSpec, value: Value)
    requires
        spec_admits(field.ty, value),
    ensures
        spec_encode_field(field, value).len() == field.ty.width(),
        spec_decode_field(field, spec_encode_field(field, value)) == value,
{
    match value {
        Value::Int { ty, value } => {
            lemma_int_of_raw(ty, value);
            lemma_decode_encode(spec_raw(value, ty.width()), ty.width(), field.order);
        },
        Value::Bytes(bytes) => {},
    }
}

/// Bytes of a field's width are the encoding of the value they spell, and
/// that value is of the field's type.
pub proof fn lemma_field_bytes_round_trip(field: FieldSpec, bytes: Seq<u8>)
    requires
        bytes.len() == field.ty.width(),
    ensures
        spec_admits(field.ty, spec_decode_field(field, bytes)),
        spec_encode_field(field, spec_decode_field(field, bytes)) == bytes,
{
    if field.ty.is_integer() {
        lemma_value_bound(bytes, field.order);
        lemma_raw_of_int(field.ty, value_of(bytes, field.order));
        lemma_encode_decode(bytes, field.order);
    }
}

/// The image of the first `n` fields is as long as those fields are wide.
proof fn lemma_image_len(layout: LayoutSpec, values: Seq<Value>, n: int)
    requires
        layout.wf(),
        layout.admits(values),
        0 <= n <= layout.fields.len(),
    ensures
        spec_image(layout.fields.subrange(0, n), values.subrange(0, n)).len() == spec_end(
            layout.fields.subrange(0, n),
        ),
    decreases n,
{
    if n > 0 {
        let fields = layout.fields.subrange(0, n);
        let given = values.subrange(0, n);
        assert(fields.drop_last() == layout.fields.subrange(0, n - 1));
        assert(given.drop_last() == values.subrange(0, n - 1));
        assert(fields.last() == layout.fields[n - 1]);
        assert(given.last() == values[n - 1]);
        lemma_image_len(layout, values, n - 1);
        lemma_field_round_trip(layout.fields[n - 1], values[n - 1]);
        lemma_field_start(layout, n - 1);
    }
}

/// In the image of the first `n` fields, each of them finds the encoding
/// of its own value at its own place.
proof fn lemma_image_field(layout: LayoutSpec, values: Seq<Value>, n: int, i: int)
    requires
        layout.wf(),
        layout.admits(values),
        0 <= i < n <= layout.fields.len(),
    ensures
        layout.field_bytes(
            spec_image(layout.fields.subrange(0, n), values.subrange(0, n)),
            i,
        ) == spec_encode_field(layout.fields[i], values[i]),
    decreases n,
{
    let fields = layout.fields.subrange(0, n);
    let given = values.subrange(0, n);
    let front = spec_image(layout.fields.subrange(0, n - 1), values.subrange(0, n - 1));
    let last = spec_encode_field(layout.fields[n - 1], values[n - 1]);
    assert(fields.drop_last() == layout.fields.subrange(0, n - 1));
    assert(given.drop_last() == values.subrange(0, n - 1));
    assert(fields.last() == layout.fields[n - 1]);
    assert(given.last() == values[n - 1]);
    lemma_image_len(layout, values, n - 1);
    lemma_field_round_trip(layout.fields[n - 1], values[n - 1]);
    lemma_field_start(layout, n - 1);
    let start = layout.fields[i].offset as int;
    let end = start + layout.fields[i].ty.width();
    if i == n - 1 {
        assert((front + last).subrange(start, end) =~= last);
    } else {
        lemma_image_field(layout, values, n - 1, i);
        lemma_fields_in_order(layout, i, n - 1);
        assert((front + last).subrange(start, end) =~= front.subrange(start, end));
    }
}

/// Round trip: the bytes of a record value have the record's size, and
/// reading every field back from them gives the values that went in.
pub proof fn lemma_round_trip(layout: LayoutSpec, values: Seq<Value>)
    requires
        layout.wf(),
        layout.admits(values),
    ensures
        layout.image(values).len() == layout.size,
        layout.values(layout.image(values)) == values,
{
    let n = layout.fields.len() as int;
    assert(layout.fields.subrange(0, n) == layout.fields);
    assert(values.subrange(0, n) == values);
    lemma_image_len(layout, values, n);
    assert forall|i: int| 0 <= i < n implies layout.get(layout.image(values), i) == values[i] by {
        lemma_image_field(layout, values, n, i);
        lemma_field_round_trip(layout.fields[i], values[i]);
    }
    assert(layout.values(layout.image(values)) =~= values);
}

/// The values read from the first `n` fields of a record's bytes have, as
/// their image, the bytes of those fields.
proof fn lemma_values_image(layout: LayoutSpec, bytes: Seq<u8>, n: int)
    requires
        layout.wf(),
        bytes.len() == layout.size,
        0 <= n <= layout.fields.len(),
    ensures
        spec_image(layout.fields.subrange(0, n), layout.values(bytes).subrange(0, n))
            == bytes.subrange(0, spec_end(layout.fields.subrange(0, n)) as int),
    decreases n,
{
    let fields = layout.fields.subrange(0, n);
    let read = layout.values(bytes).subrange(0, n);
    if n > 0 {
        let field = layout.fields[n - 1];
        let start = field.offset as int;
        let stop = start + field.ty.width();
        let front = spec_image(layout.fields.subrange(0, n - 1), layout.values(bytes).subrange(0, n - 1));
        assert(fields.drop_last() == layout.fields.subrange(0, n - 1));
        assert(read.drop_last() == layout.values(bytes).subrange(0, n - 1));
        assert(fields.last() == field);
        assert(read.last() == layout.get(bytes, n - 1));
        assert(spec_image(fields, read) == front + spec_encode_field(field, layout.get(bytes, n - 1)));
        lemma_values_image(layout, bytes, n - 1);
        lemma_field_start(layout, n - 1);
        assert(front == bytes.subrange(0, start));
        lemma_fields_in_order(layout, n - 1, n);
        assert(stop <= bytes.len());
        assert(layout.field_bytes(bytes, n - 1) == bytes.subrange(start, stop));
        lemma_field_bytes_round_trip(field, bytes.subrange(start, stop));
        assert(spec_encode_field(field, layout.get(bytes, n - 1)) == bytes.subrange(start, stop));
        assert(spec_end(fields) == stop);
        assert(bytes.subrange(0, start) + bytes.subrange(start, stop) =~= bytes.subrange(0, stop));
    } else {
        assert(spec_image(fields, read) =~= bytes.subrange(0, 0));
    }
}

/// Every buffer of the record's size is the image of the values that its
/// fields hold, and each of those values is of its field's type.
pub proof fn lemma_image_of_values(layout: LayoutSpec, bytes: Seq<u8>)
    requires
        layout.wf(),
        bytes.len() == layout.size,
    ensures
        layout.admits(layout.values(bytes)),
        layout.image(layout.values(bytes)) == bytes,
{
    let n = layout.fields.len() as int;
    assert(layout.fields.subrange(0, n) == layout.fields);
    assert(layout.values(bytes).subrange(0, n) == layout.values(bytes));
    assert(bytes.subrange(0, layout.size as int) == bytes);
    lemma_values_image(layout, bytes, n);
    assert forall|i: int| 0 <= i < n implies spec_admits(
        layout.fields[i].ty,
        #[trigger] layout.values(bytes)[i],
    ) by {
        lemma_fields_in_order(layout, i, n);
        lemma_field_bytes_round_trip(layout.fields[i], layout.field_bytes(bytes, i));
    }
}

/// Writing a field changes that field to the value written and no other
/// field, and keeps the record's size.
pub proof fn lemma_get_after_set(layout: LayoutSpec, bytes: Seq<u8>, i: int, j: int, value: Value)
    requires
        layout.wf(),
        bytes.len() == layout.size,
        0 <= i < layout.fields.len(),
        0 <= j < layout.fields.len(),
        spec_admits(layout.fields[i].ty, value),
    ensures
        layout.set(bytes, i, value).len() == bytes.len(),
        layout.get(layout.set(bytes, i, value), i) == value,
        i != j ==> layout.get(layout.set(bytes, i, value), j) == layout.get(bytes, j),
{
    let n = layout.fields.len() as int;
    let written = layout.set(bytes, i, value);
    lemma_field_round_trip(layout.fields[i], value);
    lemma_fields_in_order(layout, i, n);
    assert(layout.field_bytes(written, i) =~= spec_encode_field(layout.fields[i], value));
    if i < j {
        lemma_fields_in_order(layout, i, j);
        lemma_fields_in_order(layout, j, n);
        assert(layout.field_bytes(written, j) =~= layout.field_bytes(bytes, j));
    } else if j < i {
        lemma_fields_in_order(layout, j, i);
        assert(layout.field_bytes(written, j) =~= layout.field_bytes(bytes, j));
    }
}

impl Value {
    /// The type that this is a value of.
    pub open spec fn ty(self) -> FieldType {
        match self {
            Value::Int { ty, value } => ty,
            Value::Bytes(bytes) => FieldType::Bytes(bytes.len() as usize),
        }
    }
}

impl FieldValue {
    /// The type that this is a value of. A value is admitted by that type
    /// and by no other.
    pub fn field_type(&self) -> (ty: FieldType)
        ensures
            ty == self@.ty(),
            forall|other: FieldType| spec_admits(other, self@) <==> other == ty,
    {
        proof {
            lemma_pow256_values();
        }
        match self {
            FieldValue::U8(_) => FieldType::U8,
            FieldValue::U16(_) => FieldType::U16,
            FieldValue::U32(_) => FieldType::U32,
            FieldValue::U64(_) => FieldType::U64,
            FieldValue::U128(_) => FieldType::U128,
            FieldValue::I8(_) => FieldType::I8,
            FieldValue::I16(_) => FieldType::I16,
            FieldValue::I32(_) => FieldType::I32,
            FieldValue::I64(_) => FieldType::I64,
            FieldValue::I128(_) => FieldType::I128,
            FieldValue::Bytes(bytes) => FieldType::Bytes(bytes.len()),
        }
    }
}

/// The bit pattern of a signed integer of at most 64 bits, whose patterns
/// number `modulus`.
fn raw_of_signed(value: i128, modulus: i128) -> (raw: u128)
    requires
        0 < modulus <= 0x1_0000_0000_0000_0000,
        -modulus <= 2 * value < modulus,
    ensures
        raw == value as int % modulus as int,
        raw < modulus,
{
    if value >= 0 {
        proof {
            lemma_small_mod(value as nat, modulus as nat);
        }
        value as u128
    } else {
        proof {
            lemma_mod_add_multiples_vanish(value as int, modulus as int);
            lemma_small_mod((value + modulus) as nat, modulus as nat);
        }
        (value + modulus) as u128
    }
}

/// The signed integer of at most 64 bits with the bit pattern `raw`, where
/// the patterns number `modulus`.
fn signed_of_raw(raw: u128, modulus: i128) -> (value: i128)
    requires
        0 < modulus <= 0x1_0000_0000_0000_0000,
        raw < modulus,
    ensures
        value == if 2 * raw >= modulus {
            raw - modulus
        } else {
            raw as int
        },
        -modulus <= 2 * value < modulus,
{
    if 2 * raw >= modulus as u128 {
        raw as i128 - modulus
    } else {
        raw as i128
    }
}

/// Half of `256^16`: the bit pattern of the least 128-bit integer.
const SIGN_BIT_128: u128 = 0x8000_0000_0000_0000_0000_0000_0000_0000;

/// Reads the value of one field from a record's bytes.
fn read_value(bytes: &[u8], field: &FieldLayout) -> (value: FieldValue)
    requires
        field.offset + field.ty.width() <= bytes@.len(),
    ensures
        value@ == spec_decode_field(
            field@,
            bytes@.subrange(field.offset as int, field.offset + field.ty.width()),
        ),
{
    proof {
        lemma_pow256_values();
    }
    let at = field.offset;
    let order = field.order;
    match field.ty {
        FieldType::U8 => FieldValue::U8(decode(bytes, at, 1, order) as u8),
        FieldType::U16 => FieldValue::U16(decode(bytes, at, 2, order) as u16),
        FieldType::U32 => FieldValue::U32(decode(bytes, at, 4, order) as u32),
        FieldType::U64 => FieldValue::U64(decode(bytes, at, 8, order) as u64),
        FieldType::U128 => FieldValue::U128(decode(bytes, at, 16, order)),
        FieldType::I8 => FieldValue::I8(signed_of_raw(decode(bytes, at, 1, order), 0x100) as i8),
        FieldType::I16 => FieldValue::I16(
            signed_of_raw(decode(bytes, at, 2, order), 0x1_0000) as i16,
        ),
        FieldType::I32 => FieldValue::I32(
            signed_of_raw(decode(bytes, at, 4, order), 0x1_0000_0000) as i32,
        ),
        FieldType::I64 => FieldValue::I64(
            signed_of_raw(decode(bytes, at, 8, order), 0x1_0000_0000_0000_0000) as i64,
        ),
        FieldType::I128 => {
            let raw = decode(bytes, at, 16, order);
            if raw >= SIGN_BIT_128 {
                FieldValue::I128((raw - SIGN_BIT_128) as i128 + i128::MIN)
            } else {
                FieldValue::I128(raw as i128)
            }
        },
        FieldType::Bytes(n) => {
            assert(bytes@.len() == bytes.len());
            let part = vstd::slice::slice_subrange(bytes, at, at + n);
            FieldValue::Bytes(vstd::slice::slice_to_vec(part))
        },
    }
}

/// Writes a value of the field's type into the field's bytes.
fn write_value(bytes: &mut [u8], field: &FieldLayout, value: &FieldValue)
    requires
        field.offset + field.ty.width() <= old(bytes)@.len(),
        spec_admits(field.ty, value@),
    ensures
        final(bytes)@ == overlay(
            old(bytes)@,
            field.offset as int,
            spec_encode_field(field@, value@),
        ),
        final(bytes)@.len() == old(bytes)@.len(),
{
    proof {
        lemma_pow256_values();
    }
    let at = field.offset;
    let order = field.order;
    match value {
        FieldValue::U8(v) => {
            proof {
                lemma_small_mod(*v as nat, pow256(1));
            }
            encode(bytes, at, 1, *v as u128, order)
        },
        FieldValue::U16(v) => {
            proof {
                lemma_small_mod(*v as nat, pow256(2));
            }
            encode(bytes, at, 2, *v as u128, order)
        },
        FieldValue::U32(v) => {
            proof {
                lemma_small_mod(*v as nat, pow256(4));
            }
            encode(bytes, at, 4, *v as u128, order)
        },
        FieldValue::U64(v) => {
            proof {
                lemma_small_mod(*v as nat, pow256(8));
            }
            encode(bytes, at, 8, *v as u128, order)
        },
        FieldValue::U128(v) => {
            proof {
                lemma_small_mod(*v as nat, pow256(16));
            }
            encode(bytes, at, 16, *v, order)
        },
        FieldValue::I8(v) => encode(bytes, at, 1, raw_of_signed(*v as i128, 0x100), order),
        FieldValue::I16(v) => encode(bytes, at, 2, raw_of_signed(*v as i128, 0x1_0000), order),
        FieldValue::I32(v) => encode(
            bytes,
            at,
            4,
            raw_of_signed(*v as i128, 0x1_0000_0000),
            order,
        ),
        FieldValue::I64(v) => encode(
            bytes,
            at,
            8,
            raw_of_signed(*v as i128, 0x1_0000_0000_0000_0000),
            order,
        ),
        FieldValue::I128(v) => {
            if *v >= 0 {
                proof {
                    lemma_small_mod(*v as nat, pow256(16));
                }
                encode(bytes, at, 16, *v as u128, order)
            } else {
                proof {
                    lemma_mod_add_multiples_vanish(*v as int, pow256(16) as int);
                    lemma_small_mod((*v + pow256(16)) as nat, pow256(16));
                }
                encode(bytes, at, 16, (*v - i128::MIN) as u128 + SIGN_BIT_128, order)
            }
        },
        FieldValue::Bytes(source) => overwrite(bytes, at, source.as_slice()),
    }
}

/// A view of a record, as contracts see it: the layout and the bytes.
pub struct RecordState {
    /// The layout that the bytes are read through.
    pub layout: LayoutSpec,
    /// The record's bytes.
    pub bytes: Seq<u8>,
}

impl RecordState {
    /// The layout is well formed and the bytes are as many as the record
    /// is large.
    pub open spec fn wf(self) -> bool {
        self.layout.wf() && self.bytes.len() == self.layout.size
    }
}

/// The values in `values`, as contracts see them.
pub open spec fn spec_values(values: Seq<FieldValue>) -> Seq<Value> {
    Seq::new(values.len(), |i: int| values[i]@)
}

/// A view of one record: its bytes, read and written through its layout.
#[derive(Debug, PartialEq, Eq)]
pub struct RecordView<'a> {
    layout: &'a RecordLayout,
    buffer: Vec<u8>,
}

impl<'a> View for RecordView<'a> {
    type V = RecordState;

    closed spec fn view(&self) -> RecordState {
        RecordState { layout: self.layout@, bytes: self.buffer@ }
    }
}

impl<'a> RecordView<'a> {
    /// A view of the given bytes. The buffer must have the record's size;
    /// what it holds does not matter, since every bit pattern of every
    /// field is a value.
    pub fn new_buffer(layout: &'a RecordLayout, buffer: Vec<u8>) -> (view: Result<
        Self,
        AccessError,
    >)
        ensures
            match view {
                Ok(made) => made@.wf() && made@ == (RecordState { layout: layout@, bytes: buffer@ }),
                Err(e) => buffer@.len() != layout@.size && e == AccessError::SizeMismatch,
            },
    {
        if buffer.len() == layout.size() {
            Ok(RecordView { layout, buffer })
        } else {
            Err(AccessError::SizeMismatch)
        }
    }

    /// A view of the record whose fields have the given values, in the
    /// fields' order. Fails if the values are not as many as the fields, or
    /// if one of them is not of its field's type.
    pub fn new_struct(layout: &'a RecordLayout, values: &[FieldValue]) -> (view: Result<
        Self,
        AccessError,
    >)
        ensures
            match view {
                Ok(made) => made@.wf() && layout@.admits(spec_values(values@)) && made@ == (
                RecordState { layout: layout@, bytes: layout@.image(spec_values(values@)) }),
                Err(e) => !layout@.admits(spec_values(values@)) && e == if values@.len()
                    != layout@.fields.len() {
                    AccessError::FieldCountMismatch
                } else {
                    AccessError::TypeMismatch
                },
            },
    {
        let size = layout.size();
        let count = layout.field_count();
        if values.len() != count {
            return Err(AccessError::FieldCountMismatch);
        }
        let ghost given = spec_values(values@);
        let mut buffer: Vec<u8> = vec![0u8; size];
        let mut i: usize = 0;
        assert(layout@.fields.subrange(0, 0) =~= Seq::<FieldSpec>::empty());
        assert(buffer@.subrange(0, 0) =~= Seq::<u8>::empty());
        while i < count
            invariant
                i <= count,
                count == layout@.fields.len(),
                count == values@.len(),
                size == layout@.size,
                layout@.wf(),
                given == spec_values(values@),
                buffer@.len() == size,
                forall|k: int| 0 <= k < i ==> spec_admits(layout@.fields[k].ty, #[trigger] given[k]),
                buffer@.subrange(0, spec_end(layout@.fields.subrange(0, i as int)) as int)
                    == spec_image(layout@.fields.subrange(0, i as int), given.subrange(0, i as int)),
            decreases count - i,
        {
            let field = layout.field(i).unwrap();
            let value = &values[i];
            if value.field_type() != field.ty {
                assert(!spec_admits(layout@.fields[i as int].ty, given[i as int]));
                return Err(AccessError::TypeMismatch);
            }
            proof {
                lemma_fields_in_order(layout@, i as int, i + 1);
                lemma_field_start(layout@, i as int);
                lemma_field_round_trip(field@, value@);
                let upto = layout@.fields.subrange(0, i + 1);
                let vals = given.subrange(0, i + 1);
                assert(upto.drop_last() == layout@.fields.subrange(0, i as int));
                assert(vals.drop_last() == given.subrange(0, i as int));
                assert(upto.last() == field@);
                assert(vals.last() == value@);
            }
            let ghost before = buffer@;
            write_value(buffer.as_mut_slice(), field, value);
            proof {
                let start = field.offset as int;
                let stop = start + field.ty.width();
                assert(buffer@.subrange(0, stop) =~= before.subrange(0, start) + spec_encode_field(
                    field@,
                    value@,
                ));
            }
            i = i + 1;
        }
        proof {
            assert(layout@.fields.subrange(0, count as int) == layout@.fields);
            assert(given.subrange(0, count as int) == given);
            assert(buffer@.subrange(0, size as int) == buffer@);
        }
        Ok(RecordView { layout, buffer })
    }

    /// The record's bytes.
    pub fn as_buffer(&self) -> (bytes: &[u8])
        ensures
            bytes@ == self@.bytes,
            self@.wf() ==> bytes@.len() == self@.layout.size,
    {
        self.buffer.as_slice()
    }

    /// The layout that the record is read through.
    pub fn layout(&self) -> (layout: &'a RecordLayout)
        ensures
            layout@ == self@.layout,
    {
        self.layout
    }

    /// The value of the field at `index`, if there are that many fields.
    pub fn get_field(&self, index: usize) -> (value: Option<FieldValue>)
        requires
            self@.wf(),
        ensures
            match value {
                Some(found) => index < self@.layout.fields.len() && found@ == self@.layout.get(
                    self@.bytes,
                    index as int,
                ),
                None => index >= self@.layout.fields.len(),
            },
    {
        match self.layout.field(index) {
            None => None,
            Some(field) => {
                proof {
                    lemma_fields_in_order(
                        self.layout@,
                        index as int,
                        self.layout@.fields.len() as int,
                    );
                }
                Some(read_value(self.buffer.as_slice(), field))
            },
        }
    }

    /// Writes `value` into the field at `index`. Fails, and changes
    /// nothing, if there is no such field or the value is not of its type.
    pub fn set_field(&mut self, index: usize, value: FieldValue) -> (done: Result<
        (),
        AccessError,
    >)
        requires
            old(self)@.wf(),
        ensures
            final(self)@.wf(),
            final(self)@.layout == old(self)@.layout,
            match done {
                Ok(()) => {
                    &&& index < old(self)@.layout.fields.len()
                    &&& spec_admits(old(self)@.layout.fields[index as int].ty, value@)
                    &&& final(self)@.bytes == old(self)@.layout.set(
                        old(self)@.bytes,
                        index as int,
                        value@,
                    )
                },
                Err(e) => {
                    &&& final(self)@ == old(self)@
                    &&& e == if index >= old(self)@.layout.fields.len() {
                        AccessError::NoSuchField
                    } else {
                        AccessError::TypeMismatch
                    }
                    &&& index < old(self)@.layout.fields.len() ==> !spec_admits(
                        old(self)@.layout.fields[index as int].ty,
                        value@,
                    )
                },
            },
    {
        let field = match self.layout.field(index) {
            None => { return Err(AccessError::NoSuchField); },
            Some(field) => field,
        };
        if value.field_type() != field.ty {
            return Err(AccessError::TypeMismatch);
        }
        proof {
            lemma_fields_in_order(self.layout@, index as int, self.layout@.fields.len() as int);
            lemma_field_round_trip(field@, value@);
        }
        write_value(self.buffer.as_mut_slice(), field, &value);
        Ok(())
    }

    /// The value of the first field called `name`, if there is one.
    pub fn get(&self, name: &str) -> (value: Option<FieldValue>)
        requires
            self@.wf(),
        ensures
            match value {
                Some(found) => self@.layout.index_of(name@) is Some && found@ == self@.layout.get(
                    self@.bytes,
                    self@.layout.index_of(name@)->Some_0,
                ),
                None => self@.layout.index_of(name@) is None,
            },
    {
        match self.layout.field_index(name) {
            None => None,
            Some(index) => self.get_field(index),
        }
    }

    /// Writes `value` into the first field called `name`. Fails, and
    /// changes nothing, if there is no such field or the value is not of
    /// its type.
    pub fn set(&mut self, name: &str, value: FieldValue) -> (done: Result<(), AccessError>)
        requires
            old(self)@.wf(),
        ensures
            final(self)@.wf(),
            final(self)@.layout == old(self)@.layout,
            match done {
                Ok(()) => {
                    &&& old(self)@.layout.index_of(name@) matches Some(index)
                    &&& spec_admits(old(self)@.layout.fields[index].ty, value@)
                    &&& final(self)@.bytes == old(self)@.layout.set(old(self)@.bytes, index, value@)
                },
                Err(e) => {
                    &&& final(self)@ == old(self)@
                    &&& e == if old(self)@.layout.index_of(name@) is None {
                        AccessError::NoSuchField
                    } else {
                        AccessError::TypeMismatch
                    }
                    &&& old(self)@.layout.index_of(name@) matches Some(index) ==> !spec_admits(
                        old(self)@.layout.fields[index].ty,
                        value@,
                    )
                },
            },
    {
        match self.layout.field_index(name) {
            None => Err(AccessError::NoSuchField),
            Some(index) => self.set_field(index, value),
        }
    }

    /// The values of all fields, in the fields' order.
    pub fn get_struct(&self) -> (values: Vec<FieldValue>)
        requires
            self@.wf(),
        ensures
            spec_values(values@) == self@.layout.values(self@.bytes),
    {
        let count = self.layout.field_count();
        let mut values: Vec<FieldValue> = Vec::new();
        let mut i: usize = 0;
        while i < count
            invariant
                self@.wf(),
                i <= count,
                count == self@.layout.fields.len(),
                values@.len() == i,
                forall|k: int| 0 <= k < i ==> (#[trigger] values@[k])@ == self@.layout.get(self@.bytes, k),
            decreases count - i,
        {
            values.push(self.get_field(i).unwrap());
            i = i + 1;
        }
        assert(spec_values(values@) =~= self@.layout.values(self@.bytes));
        values
    }
}

} // verus!
