use vstd::prelude::*;

use crate::ledger::Block;

use arrow_format::ipc::planus::Builder;

verus! {

/// A schema in the flatbuffer form that the IPC format embeds.
#[verifier::external_type_specification]
#[verifier::external_body]
pub struct ExSchema(arrow_format::ipc::Schema);

/// The flatbuffer bytes of a message of the given metadata version whose
/// header is the schema.
pub uninterp spec fn schema_message_of(version: i16, schema: arrow_format::ipc::Schema) -> Seq<u8>;

/// The flatbuffer bytes of a footer of the given metadata version with the
/// schema and the blocks.
pub uninterp spec fn footer_of(
    version: i16,
    schema: arrow_format::ipc::Schema,
    dictionaries: Seq<Block>,
    records: Seq<Block>,
) -> Seq<u8>;

/// Relies on the derived `Clone` of `arrow_format::ipc::Schema`: an equal copy.
#[verifier::external_body]
pub(crate) fn clone_schema(schema: &arrow_format::ipc::Schema) -> (r: arrow_format::ipc::Schema)
    ensures
        r == *schema,
{
    schema.clone()
}

/// Relies on `arrow_format::ipc::Message`, the `TryFrom<i16>` of
/// `MetadataVersion` (tags 0 to 4 are versions 1 to 5) and
/// `planus::Builder::finish`: the flatbuffer bytes of a message of metadata
/// version `version` whose header is `schema` and whose body is empty; the
/// bytes depend on the arguments alone.
#[verifier::external_body]
pub(crate) fn schema_message(version: i16, schema: &arrow_format::ipc::Schema) -> (r: Vec<u8>)
    requires
        0 <= version <= 4,
    ensures
        r@ == schema_message_of(version, *schema),
{
    let message = arrow_format::ipc::Message {
        version: arrow_format::ipc::MetadataVersion::try_from(version).unwrap(),
        header: Some(arrow_format::ipc::MessageHeader::Schema(Box::new(schema.clone()))),
        body_length: 0,
        custom_metadata: None,
    };
    let mut builder = Builder::new();
    builder.finish(&message, None).to_vec()
}

/// Relies on `arrow_format::ipc::Footer`, the `TryFrom<i16>` of
/// `MetadataVersion` and `planus::Builder::finish`: the flatbuffer bytes of a
/// footer of metadata version `version` with `schema`, the dictionary
/// blocks and the record-batch blocks in the order given, and no custom
/// metadata; the bytes depend on the arguments alone.
#[verifier::external_body]
pub(crate) fn footer_bytes(
    version: i16,
    schema: &arrow_format::ipc::Schema,
    dictionaries: &Vec<Block>,
    records: &Vec<Block>,
) -> (r: Vec<u8>)
    requires
        0 <= version <= 4,
    ensures
        r@ == footer_of(version, *schema, dictionaries@, records@),
{
    let convert = |b: &Block| arrow_format::ipc::Block {
        offset: b.offset,
        meta_data_length: b.meta_data_length,
        body_length: b.body_length,
    };
    let footer = arrow_format::ipc::Footer {
        version: arrow_format::ipc::MetadataVersion::try_from(version).unwrap(),
        schema: Some(Box::new(schema.clone())),
        dictionaries: Some(dictionaries.iter().map(convert).collect()),
        record_batches: Some(records.iter().map(convert).collect()),
        custom_metadata: None,
    };
    let mut builder = Builder::new();
    builder.finish(&footer, None).to_vec()
}

} // verus!
