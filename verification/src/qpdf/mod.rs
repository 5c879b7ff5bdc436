//! The document: its state, its objects and trailer, its pages, the errors
//! and warnings it records, and reading and writing it.

pub mod blank;
pub mod document;
pub mod error;
pub mod filters;
pub mod flat;
pub mod graph;
pub mod info;
pub mod inverse;
pub mod keys;
pub mod laws;
pub mod layout;
pub mod object;
pub mod packed;
pub mod pages;
pub mod reach;
pub mod read;
pub mod reader;
pub mod store;
pub mod streams;
pub mod syntax;
pub mod version;
pub mod write;
pub mod writer;

use crate::qpdf::blank::{
    blank_objects, blank_trailer, blank_version, blank_version_string, make_blank,
};
use crate::qpdf::document::{load, load_document, Loaded, LoadedModel};
use crate::qpdf::info::{
    allows, check_allows, check_encrypted, check_linearized, extension_of, find_extension,
    get_info, info_value, is_encrypted, is_linearized, set_info, with_info, ACCESSIBILITY,
    EXTRACT, MODIFY_ANNOTATION, MODIFY_ASSEMBLY, MODIFY_FORM, MODIFY_OTHER, PRINT_HIGH_RES,
    PRINT_LOW_RES,
};
use crate::qpdf::layout::{can_write, check_can_write, file_text, make_plan, write_file};
use crate::qpdf::keys::root_key;
use crate::qpdf::object::value::value_at_key;
use crate::qpdf::flat::{
    check_page_listing, is_page_listing, law_flat_tree_lists_its_pages, lemma_listing_changed,
};
use crate::qpdf::graph::walk_limit;
use crate::qpdf::pages::{
    check_is_page, find_index, find_page_list, find_pages_root, index_of, is_page,
    lemma_page_list_held, lemma_pages_root_valid, page_list, pages_root, set_pages, with_pages,
};
use crate::qpdf::store::{with_object, without_object, StoredModel};
use crate::qpdf::version::{declare_version, declared_version};
use crate::qpdf::error::{
    make_record, record_of, ErrorKind, ErrorRecord, ErrorRecordView, QPDFErrors,
    QPDFInternalError, QPDFInternalErrorCode,
};
use crate::qpdf::object::types::{Generation, ObjectId, ObjectRef};
use crate::qpdf::object::value::{
    duplicate_entries, entries_view, entries_wf, lemma_view_members, Entry, EntryModel,
    ObjectValue, Value,
};
use crate::qpdf::object::{HandleModel, QPDFObjectHandler};
use crate::qpdf::pages::all_valid;
use crate::qpdf::read::QPDFReadParams;
use crate::qpdf::store::{holds, resolve, store_wf, ObjectStore, StoreModel, MAX_OBJECT_ID};
use crate::qpdf::write::{
    QPDFWriteDecodeLevel, QPDFWriteObjectStream, QPDFWriteParams, QPDFWriteStreamData,
    QPDFWriteVersion,
};
use vstd::prelude::*;

verus! {

/// Where a document stands in its life.
#[derive(Debug, Clone, Copy, PartialEq, Eq, Structural)]
pub enum DocState {
    /// Nothing was read or made yet.
    Uninitialized,
    /// A document is held and can be read, changed and written.
    Loaded,
    /// The document was written.
    Written,
}

/// A document.
#[derive(Debug)]
pub struct QPDF {
    state: DocState,
    filename: String,
    version: String,
    extension_level: i32,
    objects: ObjectStore,
    trailer: Vec<Entry>,
    pages: Vec<ObjectRef>,
    error: Option<ErrorRecord>,
    warnings: Vec<ErrorRecord>,
    shown: Option<ErrorRecord>,
    serial: u64,
    suppress_warnings: bool,
    silenced: bool,
    attempt_recovery: bool,
    ignore_xref_streams: bool,
    target: Option<String>,
    write_params: QPDFWriteParams,
    out_version: String,
    out_extension: i32,
    output: Vec<u8>,
}

/// The model of a document.
pub struct DocumentModel {
    pub state: DocState,
    /// The name of the file that was read or is to be written.
    pub filename: Seq<char>,
    pub version: Seq<char>,
    pub extension_level: int,
    pub objects: StoreModel,
    pub trailer: Seq<EntryModel>,
    /// The list of pages as it was last computed.
    pub pages: Seq<ObjectRef>,
    /// The error that no handle was given out for yet.
    pub error: Option<ErrorRecordView>,
    /// The warnings that no handle was given out for yet, the oldest
    /// first.
    pub warnings: Seq<ErrorRecordView>,
    /// The record of the last handle given out.
    pub shown: Option<ErrorRecordView>,
    /// The serial number of the last handle given out.
    pub serial: nat,
    pub suppress_warnings: bool,
    pub silenced: bool,
    pub attempt_recovery: bool,
    pub ignore_xref_streams: bool,
    /// The name of the file to write, between `write_init` and `write`.
    pub target: Option<Seq<char>>,
    pub write_params: QPDFWriteParams,
    /// The version and extension level that the written file declares.
    pub out_version: Seq<char>,
    pub out_extension: int,
    /// The bytes last written.
    pub output: Seq<u8>,
}

/// The models of the records.
pub open spec fn records_view(records: Seq<ErrorRecord>) -> Seq<ErrorRecordView> {
    Seq::new(records.len(), |i: int| records[i]@)
}

/// The model of a record that may be absent.
pub open spec fn record_view(record: Option<ErrorRecord>) -> Option<ErrorRecordView> {
    match record {
        Some(r) => Some(r@),
        None => None,
    }
}

/// The model of a handle that may be absent.
pub open spec fn handle_view(handle: Option<QPDFObjectHandler>) -> Option<HandleModel> {
    match handle {
        Some(h) => Some(h@),
        None => None,
    }
}

/// The view of a name that may be absent.
pub open spec fn name_view(name: Option<String>) -> Option<Seq<char>> {
    match name {
        Some(n) => Some(n@),
        None => None,
    }
}

impl DocumentModel {
    /// The document before anything is read or made.
    pub open spec fn initial() -> DocumentModel {
        DocumentModel {
            state: DocState::Uninitialized,
            filename: Seq::empty(),
            version: Seq::empty(),
            extension_level: 0,
            objects: Seq::empty(),
            trailer: Seq::empty(),
            pages: Seq::empty(),
            error: None,
            warnings: Seq::empty(),
            shown: None,
            serial: 0,
            suppress_warnings: false,
            silenced: false,
            attempt_recovery: false,
            ignore_xref_streams: false,
            target: None,
            write_params: QPDFWriteParams {
                object_stream: QPDFWriteObjectStream::Disable,
                stream_data: QPDFWriteStreamData::Uncompress,
                compress_stream: false,
                decode_level: QPDFWriteDecodeLevel::Disabled,
                preserve_unreferenced_objects: false,
                newline_before_endstream: false,
                content_normalization: false,
                qdf_mode: false,
                static_id: false,
                suppress_original_object_ids: false,
                preserve_encryption: false,
                linearization: false,
                version: QPDFWriteVersion::Unset,
            },
            out_version: Seq::empty(),
            out_extension: 0,
            output: Seq::empty(),
        }
    }

    /// The objects and the trailer are well formed, the pages are valid
    /// references, and the serial number fits.
    pub open spec fn wf(self) -> bool {
        &&& store_wf(self.objects)
        &&& entries_wf(self.trailer)
        &&& all_valid(self.pages)
        &&& self.serial <= u64::MAX
        &&& i32::MIN <= self.extension_level <= i32::MAX
        &&& i32::MIN <= self.out_extension <= i32::MAX
    }

    /// Whether a document is held.
    pub open spec fn loaded(self) -> bool {
        self.state != DocState::Uninitialized
    }

    /// The document once the file `filename` was read into it: it holds
    /// what was read, its pages are listed, and a warning is recorded
    /// where the cross-reference data had to be rebuilt.
    pub open spec fn opened(self, filename: Seq<char>, read: LoadedModel) -> DocumentModel {
        let held = DocumentModel {
            state: DocState::Loaded,
            filename,
            version: read.version,
            extension_level: extension_of(read.objects, read.trailer),
            objects: read.objects,
            trailer: read.trailer,
            pages: page_list(read.objects, read.trailer),
            out_version: read.version,
            out_extension: extension_of(read.objects, read.trailer),
            ..self
        };
        if read.recovered {
            held.warned(ErrorKind::XrefCorruption)
        } else {
            held
        }
    }

    /// The document once it was made without a file: it holds a catalog
    /// and a page tree without pages.
    pub open spec fn blank(self) -> DocumentModel {
        DocumentModel {
            state: DocState::Loaded,
            version: blank_version(),
            extension_level: 0,
            objects: blank_objects(),
            trailer: blank_trailer(),
            pages: Seq::empty(),
            out_version: blank_version(),
            out_extension: 0,
            ..self
        }
    }

    /// Whether the document is sound: it holds a document that can be
    /// written, whose root is a dictionary that the trailer names.
    pub open spec fn sound(self) -> bool {
        self.loaded() && can_write(self.objects, self.trailer, false)
    }

    /// The document with a warning of the kind `kind` added to the record;
    /// the document itself where warnings are dropped.
    pub open spec fn warned(self, kind: ErrorKind) -> DocumentModel {
        if self.suppress_warnings {
            self
        } else {
            DocumentModel {
                warnings: self.warnings.push(
                    record_of(QPDFInternalErrorCode::Warnings, kind, self.filename),
                ),
                ..self
            }
        }
    }

    /// The document with an error of the kind `kind` recorded, in place of
    /// an error recorded before.
    pub open spec fn failed(self, kind: ErrorKind) -> DocumentModel {
        DocumentModel {
            error: Some(record_of(QPDFInternalErrorCode::Errors, kind, self.filename)),
            ..self
        }
    }
}

impl DocumentModel {
    /// Whether the page tree and the list of pages are in order: a
    /// document is held; the root of its page tree is held as a
    /// dictionary with an array under `/Kids`; the list names pages that
    /// are held as pages, none of them that root and none twice; and the
    /// list is shorter than the store can be long. Where the list went
    /// stale, computing it anew makes it name what the tree holds.
    pub open spec fn tree_in_order(self) -> bool {
        &&& self.loaded()
        &&& pages_root(self.objects, self.trailer) is Some
        &&& resolve(self.objects, pages_root(self.objects, self.trailer)->0) is Dictionary
        &&& !is_page(resolve(self.objects, pages_root(self.objects, self.trailer)->0))
        &&& is_page_listing(
            self.objects,
            pages_root(self.objects, self.trailer)->0,
            self.pages,
        )
        &&& self.pages.len() < MAX_OBJECT_ID
    }

    /// Whether `new` can become a page: the page tree and the list of
    /// pages are in order, and `new` is an indirect object, held as a
    /// page, that is neither the root of the tree nor in the list of
    /// pages.
    pub open spec fn can_add(self, new: HandleModel) -> bool {
        &&& self.tree_in_order()
        &&& new.reference matches Some(r)
        &&& is_page(resolve(self.objects, r))
        &&& r != pages_root(self.objects, self.trailer)->0
        &&& index_of(self.pages, r) >= self.pages.len()
    }

    /// Whether the object of `h` can be taken out of the pages: the page
    /// tree and the list of pages are in order, and the list holds the
    /// object.
    pub open spec fn can_remove(self, h: HandleModel) -> bool {
        &&& self.tree_in_order()
        &&& h.reference matches Some(r)
        &&& index_of(self.pages, r) < self.pages.len()
    }

    /// Whether the list of pages is the one that the page tree gives.
    pub open spec fn pages_agree(self) -> bool {
        self.pages == page_list(self.objects, self.trailer)
    }

    /// The document whose pages are `list`: the list of pages is `list`,
    /// and the page tree is rebuilt flat from it.
    pub open spec fn with_page_list(self, list: Seq<ObjectRef>) -> DocumentModel {
        DocumentModel {
            pages: list,
            objects: with_pages(
                self.objects,
                pages_root(self.objects, self.trailer)->0,
                list,
            ),
            ..self
        }
    }

    /// The document with its list of pages computed anew from the page
    /// tree.
    pub open spec fn pages_updated(self) -> DocumentModel {
        DocumentModel { pages: page_list(self.objects, self.trailer), ..self }
    }

    /// The page at `at` of the list of pages: a handle on the object that
    /// the list names there, with the value it resolves to; `None` where
    /// `at` is not a place of the list.
    pub open spec fn page_at(self, at: int) -> Option<HandleModel> {
        if 0 <= at < self.pages.len() {
            Some(
                HandleModel {
                    value: resolve(self.objects, self.pages[at]),
                    reference: Some(self.pages[at]),
                },
            )
        } else {
            None
        }
    }

    /// The kind of the error recorded where a page cannot be added or
    /// removed: for the state where no document is held, for what is
    /// missing otherwise.
    pub open spec fn page_error(self) -> ErrorKind {
        if self.loaded() {
            ErrorKind::NotFound
        } else {
            ErrorKind::InvalidState
        }
    }
}

impl DocumentModel {
    /// The document with the options of writing `params` taken over: the
    /// options are kept, and the version that the written file declares
    /// is chosen from the document's, the wanted one, and what object
    /// streams need where they are asked for.
    pub open spec fn configured(self, params: QPDFWriteParams) -> DocumentModel {
        let declared = declared_version(
            self.version,
            self.extension_level,
            params.version,
            params.packs(),
        );
        DocumentModel {
            write_params: params,
            out_version: declared.0,
            out_extension: declared.1,
            ..self
        }
    }

    /// The objects that writing the document starts from: those of the
    /// document, with the data of their streams as the options of
    /// writing ask for it, and with the root declaring the extension
    /// level that the written file has.
    pub open spec fn written_store(self) -> StoreModel {
        crate::qpdf::version::with_declaration(
            crate::qpdf::store::recoded_store(
                self.objects,
                crate::qpdf::filters::recoding_of(self.write_params),
            ),
            self.trailer,
            self.out_version,
            self.out_extension,
        )
    }

    /// The bytes that writing the document gives: the file for the
    /// objects that writing starts from; the packed file where the
    /// options ask for object streams to be made.
    pub open spec fn written_bytes(self) -> Option<Seq<u8>> {
        if self.write_params.packs() {
            crate::qpdf::packed::packed_file_text(
                self.out_version,
                self.written_store(),
                self.trailer,
                self.write_params.preserve_unreferenced_objects,
                self.write_params.static_id,
            )
        } else {
            file_text(
                self.out_version,
                self.written_store(),
                self.trailer,
                self.write_params.preserve_unreferenced_objects,
                self.write_params.static_id,
            )
        }
    }

    /// Whether the document is ready to be written: a document is held
    /// and a file to write is named.
    pub open spec fn ready(self) -> bool {
        self.loaded() && self.target is Some
    }
}

impl View for QPDF {
    type V = DocumentModel;

    closed spec fn view(&self) -> DocumentModel {
        DocumentModel {
            state: self.state,
            filename: self.filename@,
            version: self.version@,
            extension_level: self.extension_level as int,
            objects: self.objects@,
            trailer: entries_view(self.trailer@),
            pages: self.pages@,
            error: record_view(self.error),
            warnings: records_view(self.warnings@),
            shown: record_view(self.shown),
            serial: self.serial as nat,
            suppress_warnings: self.suppress_warnings,
            silenced: self.silenced,
            attempt_recovery: self.attempt_recovery,
            ignore_xref_streams: self.ignore_xref_streams,
            target: name_view(self.target),
            write_params: self.write_params,
            out_version: self.out_version@,
            out_extension: self.out_extension as int,
            output: self.output@,
        }
    }
}

impl Default for QPDF {
    fn default() -> (r: Self)
        ensures
            r@ == DocumentModel::initial(),
            r.wf(),
    {
        let r = QPDF {
            state: DocState::Uninitialized,
            filename: String::new(),
            version: String::new(),
            extension_level: 0,
            objects: ObjectStore::new(),
            trailer: Vec::new(),
            pages: Vec::new(),
            error: None,
            warnings: Vec::new(),
            shown: None,
            serial: 0,
            suppress_warnings: false,
            silenced: false,
            attempt_recovery: false,
            ignore_xref_streams: false,
            target: None,
            write_params: QPDFWriteParams {
                object_stream: QPDFWriteObjectStream::Disable,
                stream_data: QPDFWriteStreamData::Uncompress,
                compress_stream: false,
                decode_level: QPDFWriteDecodeLevel::Disabled,
                preserve_unreferenced_objects: false,
                newline_before_endstream: false,
                content_normalization: false,
                qdf_mode: false,
                static_id: false,
                suppress_original_object_ids: false,
                preserve_encryption: false,
                linearization: false,
                version: QPDFWriteVersion::Unset,
            },
            out_version: String::new(),
            out_extension: 0,
            output: Vec::new(),
        };
        proof {
            assert(r@.objects =~= Seq::empty());
            assert(r@.trailer =~= Seq::empty());
            assert(r@.warnings =~= Seq::empty());
        }
        r
    }
}

// Base
impl QPDF {
    /// A document is valid when its model is well formed.
    pub open spec fn wf(&self) -> bool {
        self@.wf()
    }

    /// The first character of the version of this library.
    pub fn version(&self) -> (r: i8)
        ensures
            r == 49,
    {
        49
    }

    /// The serial number of the last error handle given out.
    pub fn error_serial(&self) -> (r: u64)
        ensures
            r as nat == self@.serial,
    {
        self.serial
    }

    /// Where the document stands in its life.
    pub fn state(&self) -> (r: DocState)
        ensures
            r == self@.state,
    {
        self.state
    }

    /// Records an error of the kind `kind`.
    fn fail(&mut self, kind: ErrorKind) -> (r: QPDFInternalErrorCode)
        ensures
            r == QPDFInternalErrorCode::Errors,
            final(self)@ == old(self)@.failed(kind),
    {
        self.error = Some(make_record(QPDFInternalErrorCode::Errors, kind, &self.filename));
        QPDFInternalErrorCode::Errors
    }
}

// Error reporting
impl QPDF {
    /// Asks that errors be kept silent. Errors are recorded all the same.
    pub fn silence_errors(&mut self)
        ensures
            final(self)@ == (DocumentModel { silenced: true, ..old(self)@ }),
    {
        self.silenced = true;
    }

    /// Whether errors are to be kept silent.
    pub fn is_silenced(&self) -> (r: bool)
        ensures
            r == self@.silenced,
    {
        self.silenced
    }

    /// Whether an error is recorded that no handle was given out for.
    pub fn has_error(&self) -> (r: bool)
        ensures
            r == self@.error is Some,
    {
        self.error.is_some()
    }

    /// Gives out a handle on the recorded error. The handle is current
    /// until the next handle is given out. Where no error is recorded, or
    /// the serial numbers are used up, the handle refers to nothing and
    /// the document does not change.
    pub fn get_error(&mut self) -> (r: QPDFInternalError)
        requires
            old(self).wf(),
        ensures
            final(self).wf(),
            old(self)@.error is Some && old(self)@.serial < u64::MAX ==> {
                &&& final(self)@ == (DocumentModel {
                    error: None,
                    shown: old(self)@.error,
                    serial: old(self)@.serial + 1,
                    ..old(self)@
                })
                &&& r@.serial == old(self)@.serial + 1
                &&& r@.record == old(self)@.error
                &&& r@.current(final(self)@.serial)
            },
            old(self)@.error is None || old(self)@.serial >= u64::MAX ==> {
                &&& final(self)@ == old(self)@
                &&& !r@.present()
            },
    {
        if self.error.is_none() || self.serial == u64::MAX {
            return QPDFInternalError::new(0, None);
        }
        let record: Option<ErrorRecord> = self.error.take();
        let copy: Option<ErrorRecord> = match &record {
            Some(x) => Some(x.duplicate()),
            None => None,
        };
        self.shown = record;
        self.serial = self.serial + 1;
        QPDFInternalError::new(self.serial, copy)
    }

    /// Has warnings dropped instead of recorded.
    pub fn enable_warning_supression(&mut self)
        ensures
            final(self)@ == (DocumentModel { suppress_warnings: true, ..old(self)@ }),
    {
        self.suppress_warnings = true;
    }

    /// Has warnings recorded.
    pub fn disable_warning_supression(&mut self)
        ensures
            final(self)@ == (DocumentModel { suppress_warnings: false, ..old(self)@ }),
    {
        self.suppress_warnings = false;
    }

    /// Whether a warning is recorded that no handle was given out for.
    pub fn has_warnings(&self) -> (r: bool)
        ensures
            r == (self@.warnings.len() > 0),
    {
        self.warnings.len() > 0
    }

    /// Gives out a handle on the oldest recorded warning and takes the
    /// warning off the record. Where no warning is recorded, or the
    /// serial numbers are used up, the handle refers to nothing and the
    /// document does not change.
    pub fn get_next_warning(&mut self) -> (r: QPDFInternalError)
        requires
            old(self).wf(),
        ensures
            final(self).wf(),
            old(self)@.warnings.len() > 0 && old(self)@.serial < u64::MAX ==> {
                &&& final(self)@ == (DocumentModel {
                    warnings: old(self)@.warnings.drop_first(),
                    shown: Some(old(self)@.warnings[0]),
                    serial: old(self)@.serial + 1,
                    ..old(self)@
                })
                &&& r@.serial == old(self)@.serial + 1
                &&& r@.record == Some(old(self)@.warnings[0])
                &&& r@.current(final(self)@.serial)
            },
            old(self)@.warnings.len() == 0 || old(self)@.serial >= u64::MAX ==> {
                &&& final(self)@ == old(self)@
                &&& !r@.present()
            },
    {
        if self.warnings.len() == 0 || self.serial == u64::MAX {
            return QPDFInternalError::new(0, None);
        }
        let ghost before = self.warnings@;
        let record: ErrorRecord = self.warnings.remove(0);
        assert(records_view(self.warnings@) =~= records_view(before).drop_first());
        let copy: ErrorRecord = record.duplicate();
        self.shown = Some(record);
        self.serial = self.serial + 1;
        QPDFInternalError::new(self.serial, Some(copy))
    }

    /// Records a warning of the kind `kind`, unless warnings are dropped.
    fn warn(&mut self, kind: ErrorKind)
        ensures
            final(self)@ == old(self)@.warned(kind),
    {
        if !self.suppress_warnings {
            let ghost before = self.warnings@;
            let record: ErrorRecord = make_record(
                QPDFInternalErrorCode::Warnings,
                kind,
                &self.filename,
            );
            self.warnings.push(record);
            assert(records_view(self.warnings@) =~= records_view(before).push(record@));
        }
    }
}

// Read parameters
impl QPDF {
    /// Sets whether damaged cross-reference data is rebuilt.
    pub fn attempt_recovery(&mut self, value: bool)
        ensures
            final(self)@ == (DocumentModel { attempt_recovery: value, ..old(self)@ }),
    {
        self.attempt_recovery = value;
    }

    /// Sets whether cross-reference streams are left aside.
    pub fn ignore_xref_streams(&mut self, value: bool)
        ensures
            final(self)@ == (DocumentModel { ignore_xref_streams: value, ..old(self)@ }),
    {
        self.ignore_xref_streams = value;
    }

    /// Takes over the options of reading.
    pub fn process_read_params(&mut self, params: QPDFReadParams)
        ensures
            final(self)@ == (DocumentModel {
                attempt_recovery: params.attempt_recovery,
                ignore_xref_streams: params.ignore_xref,
                ..old(self)@
            }),
    {
        self.attempt_recovery(params.attempt_recovery);
        self.ignore_xref_streams(params.ignore_xref);
    }
}

// Reading and checking
impl QPDF {
    /// Reads the file `filename`, whose bytes are `data`, with the
    /// options `params`. A document that holds something already records
    /// an error for its state and keeps what it holds. An encrypted file
    /// is refused, whatever the password.
    pub fn process_file(
        &mut self,
        filename: String,
        data: Vec<u8>,
        params: QPDFReadParams,
        password: Option<String>,
    ) -> (r: QPDFInternalErrorCode)
        requires
            old(self).wf(),
        ensures
            final(self).wf(),
            old(self)@.loaded() ==> r == QPDFInternalErrorCode::Errors && final(self)@ == old(self)@.failed(ErrorKind::InvalidState),
            !old(self)@.loaded() ==> match load(data@, params.attempt_recovery, params.ignore_xref) {
                Ok(read) => {
                    &&& r == if read.recovered {
                        QPDFInternalErrorCode::Warnings
                    } else {
                        QPDFInternalErrorCode::Success
                    }
                    &&& final(self)@ == (DocumentModel {
                        attempt_recovery: params.attempt_recovery,
                        ignore_xref_streams: params.ignore_xref,
                        ..old(self)@
                    }).opened(filename@, read)
                },
                Err(kind) => {
                    &&& r == QPDFInternalErrorCode::Errors
                    &&& final(self)@ == (DocumentModel {
                        attempt_recovery: params.attempt_recovery,
                        ignore_xref_streams: params.ignore_xref,
                        filename: filename@,
                        ..old(self)@
                    }).failed(kind)
                },
            },
    {
        if self.state != DocState::Uninitialized {
            return self.fail(ErrorKind::InvalidState);
        }
        self.process_read_params(params);
        self.filename = filename;
        match load_document(&data, self.attempt_recovery, self.ignore_xref_streams) {
            Ok(read) => {
                let Loaded { version, objects, trailer, recovered } = read;
                proof {
                    lemma_page_list_held(objects@, entries_view(trailer@));
                }
                self.state = DocState::Loaded;
                self.extension_level = find_extension(&objects, &trailer);
                self.out_extension = self.extension_level;
                self.pages = find_page_list(&objects, &trailer);
                self.out_version = version.clone();
                self.version = version;
                self.objects = objects;
                self.trailer = trailer;
                if recovered {
                    self.warn(ErrorKind::XrefCorruption);
                    QPDFInternalErrorCode::Warnings
                } else {
                    QPDFInternalErrorCode::Success
                }
            },
            Err(kind) => self.fail(kind),
        }
    }

    /// Makes the document one without pages. A document that holds
    /// something already records an error for its state and keeps what it
    /// holds.
    pub fn empty(&mut self) -> (r: QPDFInternalErrorCode)
        requires
            old(self).wf(),
        ensures
            final(self).wf(),
            old(self)@.loaded() ==> r == QPDFInternalErrorCode::Errors && final(self)@ == old(self)@.failed(ErrorKind::InvalidState),
            !old(self)@.loaded() ==> r == QPDFInternalErrorCode::Success && final(self)@ == old(self)@.blank(),
    {
        if self.state != DocState::Uninitialized {
            return self.fail(ErrorKind::InvalidState);
        }
        let (objects, trailer) = make_blank();
        self.state = DocState::Loaded;
        self.version = blank_version_string();
        self.out_version = blank_version_string();
        self.extension_level = 0;
        self.out_extension = 0;
        self.objects = objects;
        self.trailer = trailer;
        self.pages = Vec::new();
        assert(self@.pages =~= Seq::empty());
        QPDFInternalErrorCode::Success
    }

    /// Checks the document: success where it is sound. Otherwise an error
    /// is recorded: for the state where nothing is held, for the content
    /// where what is held cannot be written.
    pub fn check_pdf(&mut self) -> (r: QPDFInternalErrorCode)
        requires
            old(self).wf(),
        ensures
            final(self).wf(),
            old(self)@.sound() ==> r == QPDFInternalErrorCode::Success && final(self)@ == old(self)@,
            !old(self)@.sound() ==> r == QPDFInternalErrorCode::Errors && final(self)@ == old(self)@.failed(
                if old(self)@.loaded() {
                    ErrorKind::ParseError
                } else {
                    ErrorKind::InvalidState
                },
            ),
    {
        if self.state == DocState::Uninitialized {
            return self.fail(ErrorKind::InvalidState);
        }
        let plan: Vec<ObjectRef> = make_plan(&self.objects, &self.trailer, false);
        if !check_can_write(&self.objects, &self.trailer, &plan) {
            return self.fail(ErrorKind::ParseError);
        }
        QPDFInternalErrorCode::Success
    }
}

// Reading what the document says about itself
impl QPDF {
    /// The version of the document.
    pub fn pdf_version(&self) -> (r: String)
        ensures
            r@ == self@.version,
    {
        self.version.clone()
    }

    /// The extension level of the document.
    pub fn pdf_extension_level(&self) -> (r: i32)
        ensures
            r as int == self@.extension_level,
    {
        self.extension_level
    }

    /// The text under `key` of the information dictionary. The key is not
    /// found where the dictionary or the key is missing or the key holds
    /// no string. Bytes that are not valid UTF-8 are read lossily.
    pub fn pdf_get_info_key(&self, key: String) -> (r: Result<String, QPDFErrors>)
        ensures
            r matches Ok(text) ==> info_value(self@.objects, self@.trailer, key@) == Some(
                text@,
            ),
            r matches Err(e) ==> e == QPDFErrors::KeyNotFound && info_value(
                self@.objects,
                self@.trailer,
                key@,
            ) is None,
    {
        match get_info(&self.objects, &self.trailer, &key) {
            Some(text) => Ok(text),
            None => Err(QPDFErrors::KeyNotFound),
        }
    }

    /// Puts the text `val` under `key` of the information dictionary. A
    /// document that holds nothing does not change.
    pub fn pdf_set_info_key(&mut self, key: String, val: String)
        requires
            old(self).wf(),
        ensures
            final(self).wf(),
            !old(self)@.loaded() ==> final(self)@ == old(self)@,
            old(self)@.loaded() ==> final(self)@ == (DocumentModel {
                objects: with_info(old(self)@.objects, old(self)@.trailer, key@, val@).0,
                trailer: with_info(old(self)@.objects, old(self)@.trailer, key@, val@).1,
                ..old(self)@
            }),
    {
        if self.state == DocState::Uninitialized {
            return;
        }
        set_info(&mut self.objects, &mut self.trailer, key, val);
    }

    /// Whether the document is linearized: one of its objects is a
    /// dictionary that holds `/Linearized`.
    pub fn pdf_is_linearized(&self) -> (r: bool)
        ensures
            r == is_linearized(self@.objects, self@.objects.len()),
    {
        check_linearized(&self.objects)
    }

    /// Whether the document is encrypted: its trailer names an encryption
    /// dictionary.
    pub fn pdf_is_encrypted(&self) -> (r: bool)
        ensures
            r == is_encrypted(self@.trailer),
    {
        check_encrypted(&self.trailer)
    }

    /// Whether the content may be taken out for accessibility.
    pub fn pdf_allow_accessibility(&self) -> (r: bool)
        ensures
            r == allows(self@.objects, self@.trailer, ACCESSIBILITY as int),
    {
        check_allows(&self.objects, &self.trailer, ACCESSIBILITY)
    }

    /// Whether text and graphics may be taken out.
    pub fn pdf_allow_extract_all(&self) -> (r: bool)
        ensures
            r == allows(self@.objects, self@.trailer, EXTRACT as int),
    {
        check_allows(&self.objects, &self.trailer, EXTRACT)
    }

    /// Whether the document may be printed.
    pub fn pdf_allow_print_low_res(&self) -> (r: bool)
        ensures
            r == allows(self@.objects, self@.trailer, PRINT_LOW_RES as int),
    {
        check_allows(&self.objects, &self.trailer, PRINT_LOW_RES)
    }

    /// Printing in high resolution needs the permission to print and the
    /// permission for high resolution.
    pub fn pdf_allow_print_high_res(&self) -> (r: bool)
        ensures
            r == (allows(self@.objects, self@.trailer, PRINT_LOW_RES as int) && allows(
                self@.objects,
                self@.trailer,
                PRINT_HIGH_RES as int,
            )),
    {
        check_allows(&self.objects, &self.trailer, PRINT_LOW_RES) && check_allows(
            &self.objects,
            &self.trailer,
            PRINT_HIGH_RES,
        )
    }

    /// Whether pages may be inserted, turned and taken out.
    pub fn pdf_allow_modify_assembly(&self) -> (r: bool)
        ensures
            r == allows(self@.objects, self@.trailer, MODIFY_ASSEMBLY as int),
    {
        check_allows(&self.objects, &self.trailer, MODIFY_ASSEMBLY)
    }

    /// Whether the fields of forms may be filled in.
    pub fn pdf_allow_modify_form(&self) -> (r: bool)
        ensures
            r == allows(self@.objects, self@.trailer, MODIFY_FORM as int),
    {
        check_allows(&self.objects, &self.trailer, MODIFY_FORM)
    }

    /// Whether annotations may be added and changed.
    pub fn pdf_allow_modify_annotation(&self) -> (r: bool)
        ensures
            r == allows(self@.objects, self@.trailer, MODIFY_ANNOTATION as int),
    {
        check_allows(&self.objects, &self.trailer, MODIFY_ANNOTATION)
    }

    /// Whether the content may be changed otherwise.
    pub fn pdf_allow_modify_other(&self) -> (r: bool)
        ensures
            r == allows(self@.objects, self@.trailer, MODIFY_OTHER as int),
    {
        check_allows(&self.objects, &self.trailer, MODIFY_OTHER)
    }

    /// Every modification is allowed where each kind of it is.
    pub fn pdf_allow_modify_all(&self) -> (r: bool)
        ensures
            r == (allows(self@.objects, self@.trailer, MODIFY_ASSEMBLY as int) && allows(
                self@.objects,
                self@.trailer,
                MODIFY_FORM as int,
            ) && allows(self@.objects, self@.trailer, MODIFY_ANNOTATION as int) && allows(
                self@.objects,
                self@.trailer,
                MODIFY_OTHER as int,
            )),
    {
        check_allows(&self.objects, &self.trailer, MODIFY_ASSEMBLY) && check_allows(
            &self.objects,
            &self.trailer,
            MODIFY_FORM,
        ) && check_allows(&self.objects, &self.trailer, MODIFY_ANNOTATION) && check_allows(
            &self.objects,
            &self.trailer,
            MODIFY_OTHER,
        )
    }
}

/// A number as a 32-bit index: itself where it fits, the largest index
/// where it does not.
pub open spec fn as_index(i: int) -> int {
    if i <= i32::MAX {
        i
    } else {
        i32::MAX as int
    }
}

fn to_index(i: usize) -> (r: i32)
    ensures
        r as int == as_index(i as int),
{
    if i <= 2147483647 {
        i as i32
    } else {
        2147483647
    }
}

// Objects
impl QPDF {
    /// A handle on the trailer, as a direct dictionary; `None` where no
    /// document is held.
    pub fn get_object_trailer(&self) -> (r: Option<QPDFObjectHandler>)
        requires
            self.wf(),
        ensures
            r is Some <==> self@.loaded(),
            r matches Some(h) ==> h.wf() && h@ == (HandleModel {
                value: Value::Dictionary(self@.trailer),
                reference: None,
            }),
    {
        if self.state == DocState::Uninitialized {
            return None;
        }
        let value = ObjectValue::Dictionary(duplicate_entries(&self.trailer));
        proof {
            lemma_view_members(value);
            assert(value@->Dictionary_0 == self@.trailer);
        }
        Some(QPDFObjectHandler::new(value))
    }

    /// A handle on the root of the document: the object that the trailer
    /// names under `/Root`. `None` where no document is held, the trailer
    /// names no root, or the store does not hold it.
    pub fn get_object_root(&self) -> (r: Option<QPDFObjectHandler>)
        requires
            self.wf(),
        ensures
            r is Some <==> self@.loaded() && value_at_key(self@.trailer, root_key())
                is Indirect && holds(
                self@.objects,
                value_at_key(self@.trailer, root_key())->Indirect_0,
            ),
            r matches Some(h) ==> h.wf() && h@ == (HandleModel {
                value: resolve(
                    self@.objects,
                    value_at_key(self@.trailer, root_key())->Indirect_0,
                ),
                reference: Some(value_at_key(self@.trailer, root_key())->Indirect_0),
            }),
    {
        if self.state == DocState::Uninitialized {
            return None;
        }
        let at: usize = crate::qpdf::object::find_key(
            &self.trailer,
            &crate::qpdf::keys::root_key_string(),
        );
        if at >= self.trailer.len() {
            return None;
        }
        match &self.trailer[at].1 {
            ObjectValue::Indirect(root) => self.get_object_id(root.id, root.generation),
            _ => None,
        }
    }

    /// A handle on the object `obj_id`, `generation`; `None` where no
    /// document is held or the store does not hold the object.
    pub fn get_object_id(&self, obj_id: ObjectId, generation: Generation) -> (r: Option<
        QPDFObjectHandler,
    >)
        requires
            self.wf(),
        ensures
            r is Some <==> self@.loaded() && holds(
                self@.objects,
                ObjectRef { id: obj_id, generation },
            ),
            r matches Some(h) ==> h.wf() && h@ == (HandleModel {
                value: resolve(self@.objects, ObjectRef { id: obj_id, generation }),
                reference: Some(ObjectRef { id: obj_id, generation }),
            }),
    {
        if self.state == DocState::Uninitialized {
            return None;
        }
        match self.objects.get(obj_id, generation) {
            Some(value) => Some(
                QPDFObjectHandler::indirect(value, ObjectRef { id: obj_id, generation }),
            ),
            None => None,
        }
    }

    /// Makes the dictionary of `handler` the trailer. Where no document
    /// is held or `handler` holds no dictionary, an error is recorded and
    /// nothing else changes.
    pub fn replace_trailer(&mut self, handler: &QPDFObjectHandler) -> (r: QPDFInternalErrorCode)
        requires
            old(self).wf(),
            handler.wf(),
        ensures
            final(self).wf(),
            old(self)@.loaded() && handler@.value is Dictionary ==> r
                == QPDFInternalErrorCode::Success && final(self)@ == (DocumentModel {
                trailer: handler@.value->Dictionary_0,
                ..old(self)@
            }),
            !(old(self)@.loaded() && handler@.value is Dictionary) ==> r
                == QPDFInternalErrorCode::Errors && final(self)@ == old(self)@.failed(
                old(self)@.page_error(),
            ),
    {
        if self.state == DocState::Uninitialized {
            return self.fail(ErrorKind::InvalidState);
        }
        let value: &ObjectValue = handler.value();
        proof {
            lemma_view_members(*value);
        }
        match value {
            ObjectValue::Dictionary(entries) => {
                assert(value@->Dictionary_0 == entries_view(entries@));
                self.trailer = duplicate_entries(entries);
                QPDFInternalErrorCode::Success
            },
            _ => self.fail(ErrorKind::NotFound),
        }
    }

    /// How many references to the object `id`, `generation` the trailer
    /// and the objects of the document hold.
    pub fn reference_count(&self, id: ObjectId, generation: Generation) -> (r: usize)
        ensures
            r as nat == crate::qpdf::graph::reference_count(
                self@.objects,
                self@.trailer,
                ObjectRef { id, generation },
            ),
    {
        crate::qpdf::graph::count_references(
            &self.objects,
            &self.trailer,
            ObjectRef { id, generation },
        )
    }

    /// Whether the object `id`, `generation` is live: the document holds
    /// it and the trailer reaches it.
    pub fn is_live(&self, id: ObjectId, generation: Generation) -> (r: bool)
        requires
            self.wf(),
        ensures
            r == (index_of(
                crate::qpdf::layout::write_plan(self@.objects, self@.trailer, false),
                ObjectRef { id, generation },
            ) < crate::qpdf::layout::write_plan(self@.objects, self@.trailer, false).len()),
    {
        let plan: Vec<ObjectRef> = make_plan(&self.objects, &self.trailer, false);
        find_index(&plan, ObjectRef { id, generation }) < plan.len()
    }

    /// Gives up the numbers at the end of the store that are not in use,
    /// so that they are given out again.
    pub fn compact(&mut self)
        requires
            old(self).wf(),
        ensures
            final(self).wf(),
            final(self)@ == (DocumentModel {
                objects: crate::qpdf::store::compacted(old(self)@.objects),
                ..old(self)@
            }),
    {
        self.objects.compact();
    }

    /// A copy of the value that `r` resolves to: null for a reference
    /// that the document does not hold.
    pub fn resolve(&self, r: ObjectRef) -> (v: ObjectValue)
        requires
            self.wf(),
        ensures
            v@ == resolve(self@.objects, r),
            v@.wf(),
    {
        self.objects.resolved(r)
    }

    /// A copy of the value of the object `id`, `generation`; `None` where
    /// the number is unknown or the generation is another.
    pub fn get(&self, id: ObjectId, generation: Generation) -> (v: Option<ObjectValue>)
        requires
            self.wf(),
        ensures
            v is Some <==> holds(self@.objects, ObjectRef { id, generation }),
            v matches Some(value) ==> value@ == resolve(
                self@.objects,
                ObjectRef { id, generation },
            ) && value@.wf(),
    {
        self.objects.get(id, generation)
    }

    /// Takes a number that no object has had and makes it a null object
    /// of generation 0. `None`, with an error recorded, where no document
    /// is held or the store is full.
    pub fn allocate(&mut self) -> (r: Option<ObjectId>)
        requires
            old(self).wf(),
        ensures
            final(self).wf(),
            r is Some <==> old(self)@.loaded() && old(self)@.objects.len() < MAX_OBJECT_ID,
            r matches Some(id) ==> id == old(self)@.objects.len() + 1 && final(self)@ == (
            DocumentModel {
                objects: old(self)@.objects.push(
                    Some(StoredModel { generation: 0, value: Value::Null }),
                ),
                ..old(self)@
            }),
            r is None ==> final(self)@ == old(self)@.failed(
                if old(self)@.loaded() {
                    ErrorKind::NotFound
                } else {
                    ErrorKind::InvalidState
                },
            ),
    {
        if self.state == DocState::Uninitialized {
            self.fail(ErrorKind::InvalidState);
            return None;
        }
        match self.objects.allocate() {
            Some(id) => Some(id),
            None => {
                self.fail(ErrorKind::NotFound);
                None
            },
        }
    }

    /// Stores `value` as the object `id`, `generation`, in place of what
    /// the number held. Returns whether it was stored; where not, an
    /// error is recorded: no document is held, or the reference is not
    /// valid or beyond the largest number.
    pub fn put(&mut self, id: ObjectId, generation: Generation, value: ObjectValue) -> (done:
        bool)
        requires
            old(self).wf(),
            value@.wf(),
        ensures
            final(self).wf(),
            done == (old(self)@.loaded() && (ObjectRef { id, generation }).valid() && id
                <= MAX_OBJECT_ID),
            done ==> final(self)@ == (DocumentModel {
                objects: with_object(old(self)@.objects, ObjectRef { id, generation }, value@),
                ..old(self)@
            }),
            !done ==> final(self)@ == old(self)@.failed(
                if old(self)@.loaded() {
                    ErrorKind::NotFound
                } else {
                    ErrorKind::InvalidState
                },
            ),
    {
        if self.state == DocState::Uninitialized {
            self.fail(ErrorKind::InvalidState);
            return false;
        }
        if self.objects.put(ObjectRef { id, generation }, value) {
            true
        } else {
            self.fail(ErrorKind::NotFound);
            false
        }
    }

    /// Takes the object `id`, `generation` out of the store. What refers
    /// to it then resolves to null. Returns whether the store held it;
    /// where not, an error is recorded.
    pub fn remove(&mut self, id: ObjectId, generation: Generation) -> (done: bool)
        requires
            old(self).wf(),
        ensures
            final(self).wf(),
            done == (old(self)@.loaded() && holds(
                old(self)@.objects,
                ObjectRef { id, generation },
            )),
            done ==> final(self)@ == (DocumentModel {
                objects: without_object(old(self)@.objects, ObjectRef { id, generation }),
                ..old(self)@
            }),
            !done ==> final(self)@ == old(self)@.failed(
                if old(self)@.loaded() {
                    ErrorKind::NotFound
                } else {
                    ErrorKind::InvalidState
                },
            ),
    {
        if self.state == DocState::Uninitialized {
            self.fail(ErrorKind::InvalidState);
            return false;
        }
        if self.objects.remove(ObjectRef { id, generation }) {
            true
        } else {
            self.fail(ErrorKind::NotFound);
            false
        }
    }
}

// Writing
impl QPDF {
    /// Takes over the options of writing.
    pub fn process_write_params(&mut self, params: QPDFWriteParams)
        requires
            old(self).wf(),
        ensures
            final(self).wf(),
            final(self)@ == old(self)@.configured(params),
    {
        let (version, level) = declare_version(
            &self.version,
            self.extension_level,
            &params.version,
            params.is_packing(),
        );
        self.out_version = version;
        self.out_extension = level;
        self.write_params = params;
    }

    /// Names the file to write and takes over the options of writing.
    /// Where no document is held, an error is recorded and nothing else
    /// changes.
    pub fn write_init(&mut self, file: String, params: QPDFWriteParams) -> (r:
        QPDFInternalErrorCode)
        requires
            old(self).wf(),
        ensures
            final(self).wf(),
            old(self)@.loaded() ==> r == QPDFInternalErrorCode::Success && final(self)@ == (
            DocumentModel { target: Some(file@), ..old(self)@ }).configured(params),
            !old(self)@.loaded() ==> r == QPDFInternalErrorCode::Errors && final(self)@ == old(self)@.failed(ErrorKind::InvalidState),
    {
        if self.state == DocState::Uninitialized {
            return self.fail(ErrorKind::InvalidState);
        }
        self.target = Some(file);
        self.process_write_params(params);
        QPDFInternalErrorCode::Success
    }

    /// Writes the document: its bytes become the output, the document is
    /// written, and the file to write is named no longer. Where the
    /// document is not ready, an error is recorded for its state; where
    /// it cannot be written, for its content; nothing else changes then.
    pub fn write(&mut self) -> (r: QPDFInternalErrorCode)
        requires
            old(self).wf(),
        ensures
            final(self).wf(),
            !old(self)@.ready() ==> r == QPDFInternalErrorCode::Errors && final(self)@ == old(self)@.failed(ErrorKind::InvalidState),
            old(self)@.ready() ==> match old(self)@.written_bytes() {
                Some(bytes) => r == QPDFInternalErrorCode::Success && final(self)@ == (
                DocumentModel {
                    state: DocState::Written,
                    target: None,
                    output: bytes,
                    ..old(self)@
                }),
                None => r == QPDFInternalErrorCode::Errors && final(self)@ == old(self)@.failed(ErrorKind::ParseError),
            },
    {
        if self.state == DocState::Uninitialized || self.target.is_none() {
            return self.fail(ErrorKind::InvalidState);
        }
        let recoding = crate::qpdf::filters::make_recoding(&self.write_params);
        let mut objects: ObjectStore = self.objects.recoded(&recoding);
        crate::qpdf::version::declare(
            &mut objects,
            &self.trailer,
            &self.out_version,
            self.out_extension,
        );
        let written: Option<Vec<u8>> = if self.write_params.is_packing() {
            crate::qpdf::packed::write_packed(
                &self.out_version,
                &objects,
                &self.trailer,
                self.write_params.preserve_unreferenced_objects,
                self.write_params.static_id,
            )
        } else {
            write_file(
                &self.out_version,
                &objects,
                &self.trailer,
                self.write_params.preserve_unreferenced_objects,
                self.write_params.static_id,
            )
        };
        match written {
            Some(bytes) => {
                self.output = bytes;
                self.state = DocState::Written;
                self.target = None;
                QPDFInternalErrorCode::Success
            },
            None => self.fail(ErrorKind::ParseError),
        }
    }

    /// The bytes last written.
    pub fn output(&self) -> (r: &Vec<u8>)
        ensures
            r@ == self@.output,
    {
        &self.output
    }

    /// The name of the file to write, between `write_init` and `write`.
    pub fn target(&self) -> (r: Option<String>)
        ensures
            name_view(r) == self@.target,
    {
        match &self.target {
            Some(name) => Some(name.clone()),
            None => None,
        }
    }

    /// The name of the file that was read.
    pub fn filename(&self) -> (r: String)
        ensures
            r@ == self@.filename,
    {
        self.filename.clone()
    }
}

// Pages
impl QPDF {
    /// The number of pages in the list of pages.
    pub fn len_pages(&self) -> (r: i32)
        ensures
            r as int == as_index(self@.pages.len() as int),
    {
        to_index(self.pages.len())
    }

    /// A handle on the page at `at` of the list of pages; `None` where
    /// `at` is not below the number of pages.
    pub fn get_page(&self, at: usize) -> (r: Option<QPDFObjectHandler>)
        requires
            self.wf(),
        ensures
            handle_view(r) == self@.page_at(at as int),
            r matches Some(h) ==> h.wf(),
    {
        if at >= self.pages.len() {
            return None;
        }
        let page: ObjectRef = self.pages[at];
        assert(self@.pages[at as int].valid());
        Some(QPDFObjectHandler::indirect(self.objects.resolved(page), page))
    }

    /// The place of the object `obj_id`, `generation` in the list of
    /// pages, or -1 where the list does not hold it.
    pub fn find_page_by_id(&self, obj_id: ObjectId, generation: Generation) -> (r: i32)
        ensures
            r as int == if index_of(self@.pages, ObjectRef { id: obj_id, generation })
                < self@.pages.len() {
                as_index(index_of(self@.pages, ObjectRef { id: obj_id, generation }))
            } else {
                -1
            },
    {
        let at: usize = find_index(&self.pages, ObjectRef { id: obj_id, generation });
        if at < self.pages.len() {
            to_index(at)
        } else {
            -1
        }
    }

    /// The place of the object of `handler` in the list of pages, or -1
    /// where the list does not hold it or the object is direct.
    pub fn find_page_by_handler(&self, handler: QPDFObjectHandler) -> (r: i32)
        ensures
            r as int == match handler@.reference {
                Some(page) => if index_of(self@.pages, page) < self@.pages.len() {
                    as_index(index_of(self@.pages, page))
                } else {
                    -1
                },
                None => -1,
            },
    {
        match handler.reference() {
            Some(page) => self.find_page_by_id(page.id, page.generation),
            None => -1,
        }
    }

    /// Computes the list of pages anew from the page tree. Where no
    /// document is held, an error is recorded.
    pub fn update_page_cache(&mut self) -> (r: QPDFInternalErrorCode)
        requires
            old(self).wf(),
        ensures
            final(self).wf(),
            old(self)@.loaded() ==> r == QPDFInternalErrorCode::Success && final(self)@ == old(self)@.pages_updated(),
            !old(self)@.loaded() ==> r == QPDFInternalErrorCode::Errors && final(self)@ == old(self)@.failed(ErrorKind::InvalidState),
    {
        if self.state == DocState::Uninitialized {
            return self.fail(ErrorKind::InvalidState);
        }
        proof {
            lemma_page_list_held(self@.objects, self@.trailer);
        }
        self.pages = find_page_list(&self.objects, &self.trailer);
        QPDFInternalErrorCode::Success
    }

    /// Whether the page tree and the list of pages are in order.
    fn check_tree(&self) -> (r: bool)
        ensures
            r == self@.tree_in_order(),
    {
        if self.state == DocState::Uninitialized {
            return false;
        }
        let root: ObjectRef = match find_pages_root(&self.objects, &self.trailer) {
            Some(root) => root,
            None => {
                return false;
            },
        };
        let node: bool = match self.objects.peek(root) {
            Some(v) => matches!(v, ObjectValue::Dictionary(_)) && !check_is_page(v),
            None => false,
        };
        node && self.pages.len() < 8388607 && check_page_listing(
            &self.objects,
            root,
            &self.pages,
        )
    }

    /// Whether `new` can become a page.
    fn check_can_add(&self, new: &QPDFObjectHandler) -> (r: bool)
        ensures
            r == self@.can_add(new@),
    {
        if !self.check_tree() {
            return false;
        }
        let root: ObjectRef = match find_pages_root(&self.objects, &self.trailer) {
            Some(root) => root,
            None => {
                return false;
            },
        };
        match new.reference() {
            Some(page) => {
                let held: bool = match self.objects.peek(page) {
                    Some(v) => check_is_page(v),
                    None => false,
                };
                held && !(page.id == root.id && page.generation == root.generation)
                    && find_index(&self.pages, page) >= self.pages.len()
            },
            None => false,
        }
    }

    /// Makes `list` the list of pages and rebuilds the page tree flat
    /// from it.
    fn set_page_list(&mut self, list: Vec<ObjectRef>)
        requires
            old(self).wf(),
            all_valid(list@),
            list@.len() < walk_limit(),
            old(self)@.tree_in_order(),
            is_page_listing(
                old(self)@.objects,
                pages_root(old(self)@.objects, old(self)@.trailer)->0,
                list@,
            ),
        ensures
            final(self).wf(),
            final(self)@ == old(self)@.with_page_list(list@),
            final(self)@.pages_agree(),
    {
        let root: ObjectRef = match find_pages_root(&self.objects, &self.trailer) {
            Some(root) => root,
            None => {
                return;
            },
        };
        proof {
            lemma_pages_root_valid(self@.objects, self@.trailer);
            law_flat_tree_lists_its_pages(self@.objects, self@.trailer, list@);
        }
        set_pages(&mut self.objects, root, &list);
        self.pages = list;
    }

    /// Puts the page `page` at `at` of the list of pages and rebuilds the
    /// page tree.
    fn insert_page(&mut self, page: ObjectRef, at: usize)
        requires
            old(self).wf(),
            at <= old(self)@.pages.len(),
            old(self)@.tree_in_order(),
            is_page(resolve(old(self)@.objects, page)),
            page != pages_root(old(self)@.objects, old(self)@.trailer)->0,
            index_of(old(self)@.pages, page) >= old(self)@.pages.len(),
        ensures
            final(self).wf(),
            final(self)@ == old(self)@.with_page_list(old(self)@.pages.insert(at as int, page)),
            final(self)@.pages_agree(),
    {
        let mut list: Vec<ObjectRef> = self.pages.clone();
        assert(list@ =~= self@.pages);
        list.insert(at, page);
        proof {
            let root = pages_root(self@.objects, self@.trailer)->0;
            lemma_listing_changed(self@.objects, root, self@.pages, page, at as int);
            assert(holds(self@.objects, page));
            assert forall|i: int| 0 <= i < list@.len() implies (#[trigger] list@[i]).valid() by {
                if i < at {
                    assert(list@[i] == self@.pages[i]);
                } else if i > at {
                    assert(list@[i] == self@.pages[i - 1]);
                }
            }
        }
        self.set_page_list(list);
    }

    /// Makes `new` the first or the last page. The page tree is rebuilt
    /// flat from the new list of pages, so that the tree and the list
    /// agree. Where `new` cannot become a page, an error is recorded and
    /// nothing else changes.
    pub fn add_page(&mut self, new: QPDFObjectHandler, first: bool) -> (r: QPDFInternalErrorCode)
        requires
            old(self).wf(),
            new.wf(),
        ensures
            final(self).wf(),
            old(self)@.can_add(new@) ==> r == QPDFInternalErrorCode::Success && final(self)@
                == old(self)@.with_page_list(
                old(self)@.pages.insert(
                    if first {
                        0
                    } else {
                        old(self)@.pages.len() as int
                    },
                    new@.reference->0,
                ),
            ) && final(self)@.pages_agree(),
            !old(self)@.can_add(new@) ==> r == QPDFInternalErrorCode::Errors && final(self)@
                == old(self)@.failed(old(self)@.page_error()),
    {
        if !self.check_can_add(&new) {
            let kind: ErrorKind = if self.state == DocState::Uninitialized {
                ErrorKind::InvalidState
            } else {
                ErrorKind::NotFound
            };
            return self.fail(kind);
        }
        let page: ObjectRef = new.reference().unwrap();
        let at: usize = if first {
            0
        } else {
            self.pages.len()
        };
        self.insert_page(page, at);
        QPDFInternalErrorCode::Success
    }

    /// Makes `new` the page before or after the page `prev`; the tree
    /// and the list agree afterwards. Where `new` cannot become a page
    /// or `prev` is no page of the list, an error is recorded and nothing
    /// else changes.
    pub fn add_page_at(&mut self, new: QPDFObjectHandler, prev: QPDFObjectHandler, before: bool)
        -> (r: QPDFInternalErrorCode)
        requires
            old(self).wf(),
            new.wf(),
        ensures
            final(self).wf(),
            old(self)@.can_add(new@) && old(self)@.can_remove(prev@) ==> r
                == QPDFInternalErrorCode::Success && final(self)@ == old(self)@.with_page_list(
                old(self)@.pages.insert(
                    if before {
                        index_of(old(self)@.pages, prev@.reference->0)
                    } else {
                        index_of(old(self)@.pages, prev@.reference->0) + 1
                    },
                    new@.reference->0,
                ),
            ) && final(self)@.pages_agree(),
            !(old(self)@.can_add(new@) && old(self)@.can_remove(prev@)) ==> r
                == QPDFInternalErrorCode::Errors && final(self)@ == old(self)@.failed(
                old(self)@.page_error(),
            ),
    {
        let found: usize = match prev.reference() {
            Some(page) => find_index(&self.pages, page),
            None => self.pages.len(),
        };
        if !self.check_can_add(&new) || found >= self.pages.len() {
            let kind: ErrorKind = if self.state == DocState::Uninitialized {
                ErrorKind::InvalidState
            } else {
                ErrorKind::NotFound
            };
            return self.fail(kind);
        }
        let page: ObjectRef = new.reference().unwrap();
        let at: usize = if before {
            found
        } else {
            found + 1
        };
        self.insert_page(page, at);
        QPDFInternalErrorCode::Success
    }

    /// Takes the page of `handler` out of the list of pages. The page
    /// tree is rebuilt flat from the new list, so that the tree and the
    /// list agree. Where the page cannot be taken out, an error is
    /// recorded and nothing else changes.
    pub fn remove_page(&mut self, handler: QPDFObjectHandler) -> (r: QPDFInternalErrorCode)
        requires
            old(self).wf(),
        ensures
            final(self).wf(),
            old(self)@.can_remove(handler@) ==> r == QPDFInternalErrorCode::Success && final(self)@ == old(self)@.with_page_list(
                old(self)@.pages.remove(index_of(old(self)@.pages, handler@.reference->0)),
            ) && final(self)@.pages_agree(),
            !old(self)@.can_remove(handler@) ==> r == QPDFInternalErrorCode::Errors && final(self)@ == old(self)@.failed(old(self)@.page_error()),
    {
        let found: usize = match handler.reference() {
            Some(page) => find_index(&self.pages, page),
            None => self.pages.len(),
        };
        if !self.check_tree() || found >= self.pages.len() {
            let kind: ErrorKind = if self.state == DocState::Uninitialized {
                ErrorKind::InvalidState
            } else {
                ErrorKind::NotFound
            };
            return self.fail(kind);
        }
        let mut list: Vec<ObjectRef> = self.pages.clone();
        assert(list@ =~= self@.pages);
        let _ = list.remove(found);
        proof {
            let root = pages_root(self@.objects, self@.trailer)->0;
            lemma_listing_changed(self@.objects, root, self@.pages, self@.pages[0], found as int);
            assert forall|i: int| 0 <= i < list@.len() implies (#[trigger] list@[i]).valid() by {
                if i < found {
                    assert(list@[i] == self@.pages[i]);
                } else {
                    assert(list@[i] == self@.pages[i + 1]);
                }
            }
        }
        self.set_page_list(list);
        QPDFInternalErrorCode::Success
    }
}

} // verus!
