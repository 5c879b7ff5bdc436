//! What holds of the library as a whole.

use crate::qpdf::document::{header_version, load, load_by_scan, load_by_table, LoadedModel};
use crate::qpdf::error::ErrorKind;
use crate::qpdf::filters::recoding_of;
use crate::qpdf::graph::{refs_of, walk_limit, WalkKind};
use crate::qpdf::info::{info_value, trailer_dictionary, with_info};
use crate::qpdf::inverse::file::{law_reading_inverts_writing, written_objects};
use crate::qpdf::inverse::sound::law_what_is_written_is_sound;
use crate::qpdf::inverse::unpacking::{
    law_reading_inverts_packing, law_what_is_packed_is_sound, packed_objects,
};
use crate::qpdf::keys::{encrypt_key, info_key};
use crate::qpdf::layout::{is_name_text, trailer_out, write_plan};
use crate::qpdf::object::types::ObjectRef;
use crate::qpdf::object::value::{
    entries_wf, has_key, key_index, lemma_key_index, value_at_key, EntryModel, Value,
};
use crate::qpdf::object::{
    entries_with_key, lemma_entries_with_key, lemma_entries_without_key, Target,
};
use crate::qpdf::packed::stream_trailer;
use crate::qpdf::reach::walk_need;
use crate::qpdf::store::{
    holds, lemma_recoded_store_wf, recoded_store, resolve, store_wf, StoreModel, MAX_OBJECT_ID,
};
use crate::qpdf::streams::trailer_of_stream;
use crate::qpdf::version::lemma_with_declaration_wf;

use crate::qpdf::DocumentModel;
use vstd::prelude::*;
use vstd::utf8::encode_utf8;

verus! {

/// Computing the list of pages anew a second time, with nothing changed
/// in between, gives the list again that the first time gave.
pub proof fn law_page_list_update_is_idempotent(d: DocumentModel)
    ensures
        d.pages_updated().pages_updated() == d.pages_updated(),
        d.pages_updated().pages == d.pages_updated().pages_updated().pages,
{
}

/// Where the list of pages is the one that the page tree gives, as it
/// is after a page was added or taken out, computing the list anew
/// changes nothing.
pub proof fn law_agreeing_list_needs_no_update(d: DocumentModel)
    requires
        d.pages_agree(),
    ensures
        d.pages_updated() == d,
{
}

/// No page is found at a place that is not below the number of pages.
pub proof fn law_no_page_beyond_the_list(d: DocumentModel, at: int)
    requires
        at >= d.pages.len(),
    ensures
        d.page_at(at) is None,
{
}

/// The item at a place that is not below the number of items of an array
/// is null; and so is every item of a value that is no array.
pub proof fn law_no_item_beyond_the_array(v: Value, at: int)
    requires
        at >= v.item_count(),
    ensures
        v.item_at(at) == Value::Null,
{
}

/// A conversion fails on every value whose variant is not the one that
/// the target reads. On a value of that variant it succeeds where the
/// target can hold the value; the targets for booleans, 64-bit integers,
/// real numbers, names and bytes can hold every value of their variant.
pub proof fn law_conversions_are_type_safe(v: Value, target: Target)
    ensures
        !v.tag_matches(target) ==> !v.converts(target),
        v.tag_matches(target) && v.fits(target) ==> v.converts(target),
        v.tag_matches(target) && (target is Bool || target is I64 || target is Real || target is Name
            || target is Bytes) ==> v.converts(target),
{
}

/// Putting null under a key with the operation that removes on null takes
/// the key out where the dictionary holds it and changes nothing where it
/// does not; the dictionary does not hold the key afterwards.
pub proof fn law_null_removes_the_key(entries: Seq<EntryModel>, key: Seq<char>)
    requires
        entries_wf(entries),
    ensures
        !Value::Dictionary(entries).with_key_removed(key).holds_key(key),
        !has_key(entries, key) ==> Value::Dictionary(entries).with_key_removed(key)
            == Value::Dictionary(entries),
        has_key(entries, key) ==> Value::Dictionary(entries).with_key_removed(key)
            != Value::Dictionary(entries),
{
    lemma_entries_without_key(entries, key);
    lemma_key_index(entries, key);
    if has_key(entries, key) {
        let after = Value::Dictionary(entries).with_key_removed(key)->Dictionary_0;
        assert(after.len() == entries.len() - 1);
    }
}

/// The text that is put under a key of the information dictionary is
/// the text that is read under that key afterwards. This holds of every
/// key with a leading slash, where the trailer names an information
/// dictionary or the store has room for one.
pub proof fn law_info_that_is_set_is_read(
    objects: StoreModel,
    trailer: Seq<EntryModel>,
    key: Seq<char>,
    text: Seq<char>,
)
    requires
        store_wf(objects),
        entries_wf(trailer),
        is_name_text(key),
        trailer_dictionary(objects, trailer, info_key()) is Some || objects.len() < MAX_OBJECT_ID,
    ensures
        info_value(
            with_info(objects, trailer, key, text).0,
            with_info(objects, trailer, key, text).1,
            key,
        ) == Some(text),
{
    let value = Value::String(encode_utf8(text));
    let after = with_info(objects, trailer, key, text);
    vstd::utf8::encode_utf8_valid_utf8(text);
    vstd::utf8::encode_utf8_decode_utf8(text);
    lemma_key_index(trailer, info_key());
    match value_at_key(trailer, info_key()) {
        Value::Dictionary(entries) => {
            let under = value_at_key(trailer, info_key());
            assert(trailer[key_index(trailer, info_key())].1.wf());
            assert(under->Dictionary_0 == entries);
            lemma_entries_with_key(entries, key, value);
            let whole = Value::Dictionary(entries_with_key(entries, key, value));
            assert(whole->Dictionary_0 == entries_with_key(
                entries,
                key,
                value,
            ));
            lemma_entries_with_key(trailer, info_key(), whole);
        },
        other => {
            if other matches Value::Indirect(r) && holds(objects, r) && r.id <= MAX_OBJECT_ID
                && resolve(objects, r) is Dictionary {
                let r = other->Indirect_0;
                let held = resolve(objects, r);
                let entries = held->Dictionary_0;
                assert(objects[r.id - 1] is Some);
                assert(held.wf());
                lemma_entries_with_key(entries, key, value);
                assert(holds(after.0, r));
            } else {
                let single = seq![(key, value)];
                assert(single[0].0 == key);
                assert(value_at_key(single, key) == value);
                let new = ObjectRef {
                    id: (objects.len() + 1) as i32,
                    generation: 0,
                };
                lemma_entries_with_key(trailer, info_key(), Value::Indirect(new));
                assert(holds(after.0, new));
            }
        },
    }
}

/// Where a file has a header and its cross-reference data cannot be
/// used, reading it without recovery is refused for its cross-reference
/// data; reading it with recovery gives what the scan of the file finds,
/// marked as recovered, where the scan finds a trailer that names a root
/// and no encryption.
pub proof fn law_recovery_is_what_reads_damaged_tables(b: Seq<u8>, ignore_streams: bool)
    requires
        header_version(b) is Some,
        load_by_table(b, ignore_streams) is None,
    ensures
        load(b, false, ignore_streams) == Err::<LoadedModel, ErrorKind>(
            ErrorKind::XrefCorruption,
        ),
        match load_by_scan(b) {
            Some((objects, trailer)) => !has_key(trailer, encrypt_key()) ==> load(
                b,
                true,
                ignore_streams,
            ) == Ok::<LoadedModel, ErrorKind>(
                LoadedModel { version: header_version(b)->0, objects, trailer, recovered: true },
            ),
            None => true,
        },
        load_by_scan(b) is None ==> load(b, true, ignore_streams) == Err::<
            LoadedModel,
            ErrorKind,
        >(ErrorKind::ParseError),
{
}

impl DocumentModel {
    /// The objects that are read back from what the document writes:
    /// those that are written, under their new numbers, with generation
    /// 0 and their values as they are written; where the options ask
    /// for object streams to be made, the object stream and the
    /// cross-reference stream after them.
    pub open spec fn read_back_objects(self) -> StoreModel {
        let preserve = self.write_params.preserve_unreferenced_objects;
        if self.write_params.packs() {
            packed_objects(
                self.out_version,
                self.written_store(),
                self.trailer,
                preserve,
                self.write_params.static_id,
            )
        } else {
            written_objects(
                self.written_store(),
                write_plan(self.written_store(), self.trailer, preserve),
            )
        }
    }

    /// The trailer that is read back from what the document writes: the
    /// trailer as it is written; where the options ask for object
    /// streams to be made, the one that the dictionary of the
    /// cross-reference stream stands for.
    pub open spec fn read_back_trailer(self) -> Seq<EntryModel> {
        let plan = write_plan(
            self.written_store(),
            self.trailer,
            self.write_params.preserve_unreferenced_objects,
        );
        if self.write_params.packs() {
            trailer_of_stream(stream_trailer(self.trailer, plan, self.write_params.static_id))
        } else {
            trailer_out(self.trailer, plan, self.write_params.static_id)
        }
    }
}

/// What a document writes is read back, without any recovery and with
/// cross-reference streams heeded, as the document that was written: the
/// version that the file declares, the objects that are written, equal
/// to those of the document up to their new numbers and the generation
/// 0, and the trailer as it is written. This holds of every document
/// for which bytes are written, whatever the options of writing.
pub proof fn law_written_document_is_read_back(d: DocumentModel, attempt_recovery: bool)
    requires
        d.wf(),
        d.written_bytes() is Some,
    ensures
        load(d.written_bytes()->0, attempt_recovery, false) == Ok::<LoadedModel, ErrorKind>(
            LoadedModel {
                version: d.out_version,
                objects: d.read_back_objects(),
                trailer: d.read_back_trailer(),
                recovered: false,
            },
        ),
{
    let rc = recoding_of(d.write_params);
    lemma_recoded_store_wf(d.objects, rc);
    lemma_with_declaration_wf(
        recoded_store(d.objects, rc),
        d.trailer,
        d.out_version,
        d.out_extension,
    );
    if d.write_params.packs() {
        law_reading_inverts_packing(
            d.out_version,
            d.written_store(),
            d.trailer,
            d.write_params.preserve_unreferenced_objects,
            d.write_params.static_id,
            attempt_recovery,
        );
    } else {
        law_reading_inverts_writing(
            d.out_version,
            d.written_store(),
            d.trailer,
            d.write_params.preserve_unreferenced_objects,
            d.write_params.static_id,
            attempt_recovery,
            false,
        );
    }
}

/// What a document writes is read back as a sound document: read into
/// a document that holds nothing yet, with or without a recovery, it
/// passes the check. This holds of every document for which bytes are
/// written, whatever the options of writing, where a walk over what is
/// written needs no more steps than a walk is long.
pub proof fn law_written_document_is_read_back_sound(
    d: DocumentModel,
    fresh: DocumentModel,
    filename: Seq<char>,
    recovered: bool,
)
    requires
        d.wf(),
        d.written_bytes() is Some,
        walk_need(
            d.read_back_objects(),
            WalkKind::References,
            refs_of(Value::Dictionary(d.read_back_trailer())),
        ) <= walk_limit(),
    ensures
        fresh.opened(
            filename,
            LoadedModel {
                version: d.out_version,
                objects: d.read_back_objects(),
                trailer: d.read_back_trailer(),
                recovered,
            },
        ).sound(),
{
    let rc = recoding_of(d.write_params);
    lemma_recoded_store_wf(d.objects, rc);
    lemma_with_declaration_wf(
        recoded_store(d.objects, rc),
        d.trailer,
        d.out_version,
        d.out_extension,
    );
    if d.write_params.packs() {
        law_what_is_packed_is_sound(
            d.out_version,
            d.written_store(),
            d.trailer,
            d.write_params.preserve_unreferenced_objects,
            d.write_params.static_id,
        );
    } else {
        law_what_is_written_is_sound(
            d.written_store(),
            d.trailer,
            d.write_params.preserve_unreferenced_objects,
            d.write_params.static_id,
        );
    }
}

} // verus!
