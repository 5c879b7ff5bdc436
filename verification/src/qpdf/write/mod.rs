//! The options of writing a document.

use vstd::prelude::*;

verus! {

/// Whether objects are packed into object streams.
#[derive(Debug, Clone, Copy, PartialEq, Eq, Structural)]
pub enum QPDFWriteObjectStream {
    Disable,
    Preserve,
    Generate,
}

/// What becomes of the data of streams.
#[derive(Debug, Clone, Copy, PartialEq, Eq, Structural)]
pub enum QPDFWriteStreamData {
    Uncompress,
    Preserve,
    Compress,
}

/// Which stream filters are undone before writing.
#[derive(Debug, Clone, Copy, PartialEq, Eq, Structural)]
pub enum QPDFWriteDecodeLevel {
    Disabled,
    Generalized,
    Specialized,
    ALl,
}

/// The version that the written file declares.
#[derive(Debug)]
pub enum QPDFWriteVersion {
    /// The version of the document.
    Unset,
    /// At least this version.
    MinVersion(String),
    /// At least this version and extension level.
    MinVersionAndExtension(String, i32),
    /// This version, whatever the document's.
    ForceVersion(String),
    /// This version and extension level, whatever the document's.
    ForceVersionAndExtension(String, i32),
}

impl Default for QPDFWriteObjectStream {
    fn default() -> (r: Self)
        ensures
            r == QPDFWriteObjectStream::Disable,
    {
        QPDFWriteObjectStream::Disable
    }
}

impl Default for QPDFWriteStreamData {
    fn default() -> (r: Self)
        ensures
            r == QPDFWriteStreamData::Uncompress,
    {
        QPDFWriteStreamData::Uncompress
    }
}

impl Default for QPDFWriteDecodeLevel {
    fn default() -> (r: Self)
        ensures
            r == QPDFWriteDecodeLevel::Disabled,
    {
        QPDFWriteDecodeLevel::Disabled
    }
}

impl Default for QPDFWriteVersion {
    fn default() -> (r: Self)
        ensures
            r == QPDFWriteVersion::Unset,
    {
        QPDFWriteVersion::Unset
    }
}

/// How a document is written.
///
/// These decide what is written:
/// - `object_stream`: `Generate` packs the objects that are no streams
///   into one object stream and writes the cross-reference data as a
///   stream; `Disable` and `Preserve` write every object by itself and a
///   cross-reference table.
/// - `stream_data`, `compress_stream` and `decode_level`: whether the
///   data of streams is encoded, left as it is, or decoded, and how far.
/// - `preserve_unreferenced_objects`: whether objects that the trailer
///   does not reach are written too.
/// - `static_id`: whether the trailer gets the fixed identifier. Without
///   it no identifier is written.
/// - `qdf_mode`: a layout to be read and compared by eye: no object
///   stream is made, and the data of streams is written without
///   compression, decoded at the general level at least.
/// - `version`: the version that the file declares.
///
/// These are kept and handed back, and change nothing that is written:
/// - `newline_before_endstream`: a line feed stands before `endstream`
///   always.
/// - `content_normalization`: content streams are not interpreted.
/// - `suppress_original_object_ids`: no original numbers are written.
/// - `preserve_encryption`: no encrypted document is held.
/// - `linearization`: the objects are written in the order of their
///   numbers.
#[derive(Debug)]
pub struct QPDFWriteParams {
    pub object_stream: QPDFWriteObjectStream,
    pub stream_data: QPDFWriteStreamData,
    pub compress_stream: bool,
    pub decode_level: QPDFWriteDecodeLevel,
    pub preserve_unreferenced_objects: bool,
    pub newline_before_endstream: bool,
    pub content_normalization: bool,
    pub qdf_mode: bool,
    pub static_id: bool,
    pub suppress_original_object_ids: bool,
    pub preserve_encryption: bool,
    pub linearization: bool,
    pub version: QPDFWriteVersion,
}

impl QPDFWriteParams {
    /// Whether an object stream is made: where the options ask for one
    /// and not for the layout to be read by eye.
    pub open spec fn packs(self) -> bool {
        self.object_stream == QPDFWriteObjectStream::Generate && !self.qdf_mode
    }

    /// Whether an object stream is made.
    pub fn is_packing(&self) -> (r: bool)
        ensures
            r == self.packs(),
    {
        matches!(self.object_stream, QPDFWriteObjectStream::Generate) && !self.qdf_mode
    }
}

impl Default for QPDFWriteParams {
    fn default() -> (r: Self)
        ensures
            r == (QPDFWriteParams {
                object_stream: QPDFWriteObjectStream::Disable,
                stream_data: QPDFWriteStreamData::Uncompress,
                compress_stream: false,
                decode_level: QPDFWriteDecodeLevel::Disabled,
                preserve_unreferenced_objects: false,
                newline_before_endstream: false,
                content_normalization: false,
                qdf_mode: false,
                static_id: false,
                suppress_original_object_ids: false,
                preserve_encryption: false,
                linearization: false,
                version: QPDFWriteVersion::Unset,
            }),
    {
        QPDFWriteParams {
            object_stream: QPDFWriteObjectStream::Disable,
            stream_data: QPDFWriteStreamData::Uncompress,
            compress_stream: false,
            decode_level: QPDFWriteDecodeLevel::Disabled,
            preserve_unreferenced_objects: false,
            newline_before_endstream: false,
            content_normalization: false,
            qdf_mode: false,
            static_id: false,
            suppress_original_object_ids: false,
            preserve_encryption: false,
            linearization: false,
            version: QPDFWriteVersion::Unset,
        }
    }
}

impl QPDFWriteParams {
    pub fn with_object_stream(self, obj: QPDFWriteObjectStream) -> (r: Self)
        ensures
            r == (QPDFWriteParams { object_stream: obj, ..self }),
    {
        let mut p = self;
        p.object_stream = obj;
        p
    }

    pub fn with_stream_data(self, str: QPDFWriteStreamData) -> (r: Self)
        ensures
            r == (QPDFWriteParams { stream_data: str, ..self }),
    {
        let mut p = self;
        p.stream_data = str;
        p
    }

    pub fn with_compress_stream(self) -> (r: Self)
        ensures
            r == (QPDFWriteParams { compress_stream: true, ..self }),
    {
        let mut p = self;
        p.compress_stream = true;
        p
    }

    pub fn with_decode_level(self, lvl: QPDFWriteDecodeLevel) -> (r: Self)
        ensures
            r == (QPDFWriteParams { decode_level: lvl, ..self }),
    {
        let mut p = self;
        p.decode_level = lvl;
        p
    }

    pub fn with_preserve_unreferenced_objects(self) -> (r: Self)
        ensures
            r == (QPDFWriteParams { preserve_unreferenced_objects: true, ..self }),
    {
        let mut p = self;
        p.preserve_unreferenced_objects = true;
        p
    }

    pub fn with_newline_before_endstream(self) -> (r: Self)
        ensures
            r == (QPDFWriteParams { newline_before_endstream: true, ..self }),
    {
        let mut p = self;
        p.newline_before_endstream = true;
        p
    }

    pub fn with_content_normalization(self) -> (r: Self)
        ensures
            r == (QPDFWriteParams { content_normalization: true, ..self }),
    {
        let mut p = self;
        p.content_normalization = true;
        p
    }

    pub fn with_qdf_mode(self) -> (r: Self)
        ensures
            r == (QPDFWriteParams { qdf_mode: true, ..self }),
    {
        let mut p = self;
        p.qdf_mode = true;
        p
    }

    pub fn with_static_id(self) -> (r: Self)
        ensures
            r == (QPDFWriteParams { static_id: true, ..self }),
    {
        let mut p = self;
        p.static_id = true;
        p
    }

    pub fn with_suppress_original_object_ids(self) -> (r: Self)
        ensures
            r == (QPDFWriteParams { suppress_original_object_ids: true, ..self }),
    {
        let mut p = self;
        p.suppress_original_object_ids = true;
        p
    }

    pub fn with_preserve_encryption(self) -> (r: Self)
        ensures
            r == (QPDFWriteParams { preserve_encryption: true, ..self }),
    {
        let mut p = self;
        p.preserve_encryption = true;
        p
    }

    pub fn with_linearization(self) -> (r: Self)
        ensures
            r == (QPDFWriteParams { linearization: true, ..self }),
    {
        let mut p = self;
        p.linearization = true;
        p
    }

    pub fn with_version(self, ver: QPDFWriteVersion) -> (r: Self)
        ensures
            r == (QPDFWriteParams { version: ver, ..self }),
    {
        let mut p = self;
        p.version = ver;
        p
    }
}

} // verus!
