pub mod advanced_content_encryption;
pub mod advanced_mutual_exclusion;
pub mod bandwidth_sharing;
pub mod bitrate_mutual_exclusion;
pub mod codec_list;
pub mod compatibility;
pub mod content_branding;
pub mod content_description;
pub mod content_encryption;
pub mod digital_signature;
pub mod error_correction;
pub mod extended_content_description;
pub mod extended_content_encryption;
pub mod extended_stream_properties;
pub mod file_properties;
pub mod group_mutual_exclusion;
pub mod header_extension;
pub mod index_parameters;
pub mod language_list;
pub mod marker;
pub mod media_object_index_parameters;
pub mod metadata;
pub mod metadata_library;
pub mod script_command;
pub mod stream_bitrate_properties;
pub mod stream_prioritization;
pub mod stream_properties;
pub mod timecode_index_parameters;

use vstd::prelude::*;
use vstd::bytes::*;
use vstd::seq_lib::lemma_concat_associative;

use crate::error::{Context, Error, ErrorKind, WriteError};
use crate::guid::{guid_from_wire, guid_to_wire, lemma_guid_value_round_trip, tag, write_guid, Guid, BITRATE_MUTUAL_EXCLUSION_OBJECT, CODEC_LIST_OBJECT, CONTENT_BRANDING_OBJECT, CONTENT_DESCRIPTION_OBJECT, CONTENT_ENCRYPTION_OBJECT, DIGITAL_SIGNATURE_OBJECT, ERROR_CORRECTION_OBJECT, EXTENDED_CONTENT_DESCRIPTION_OBJECT, EXTENDED_CONTENT_ENCRYPTION_OBJECT, FILE_PROPERTIES_OBJECT, HEADER_EXTENSION_OBJECT, HEADER_OBJECT, MARKER_OBJECT, PADDING_OBJECT, SCRIPT_COMMAND_OBJECT, STREAM_BITRATE_PROPERTIES_OBJECT, STREAM_PROPERTIES_OBJECT};
use crate::object::{frame_bytes, frame_size, tag_error_kind, tagged_frame_ok, frames_bytes, lemma_seq_bytes_within_frames, object, object_frame_ok, Object};
use crate::span::{lemma_splits_chain, splits, within, Span};
use crate::wire::{all_writable, decodable, encodes, lemma_int_bytes_len, read_u32, read_u64, read_u8, seq_bytes, size_of_seq, take_u64, write_bytes, write_seq, write_u32, write_u64, write_u8, write_zeros, Parse, Wire};
use self::header_extension::lemma_header_extension_round_trip;
use self::file_properties::FilePropertiesData;
use self::stream_properties::StreamPropertiesData;
use self::header_extension::HeaderExtensionData;
use self::codec_list::CodecListData;
use self::script_command::ScriptCommandData;
use self::marker::MarkerData;
use self::bitrate_mutual_exclusion::BitrateMutualExclusionData;
use self::error_correction::ErrorCorrectionData;
use self::content_description::ContentDescriptionData;
use self::extended_content_description::ExtendedContentDescriptionData;
use self::stream_bitrate_properties::StreamBitratePropertiesData;
use self::content_branding::ContentBrandingData;
use self::content_encryption::ContentEncryptionData;
use self::extended_content_encryption::ExtendedContentEncryptionData;
use self::digital_signature::DigitalSignatureData;

verus! {

/// A header object, decoded by its GUID.
#[derive(Debug, PartialEq, Eq)]
pub enum HeaderObject<'a> {
    FileProperties(FilePropertiesData),
    StreamProperties(StreamPropertiesData<'a>),
    HeaderExtension(HeaderExtensionData<'a>),
    CodecList(CodecListData<'a>),
    ScriptCommand(ScriptCommandData),
    Marker(MarkerData),
    BitrateMutualExclusion(BitrateMutualExclusionData),
    ErrorCorrection(ErrorCorrectionData<'a>),
    ContentDescription(ContentDescriptionData),
    ExtendedContentDescription(ExtendedContentDescriptionData<'a>),
    StreamBitrateProperties(StreamBitratePropertiesData),
    ContentBranding(ContentBrandingData<'a>),
    ContentEncryption(ContentEncryptionData<'a>),
    ExtendedContentEncryption(ExtendedContentEncryptionData<'a>),
    DigitalSignature(DigitalSignatureData<'a>),
    /// A padding object; only the size of its body is kept.
    Padding(usize),
    Unknown(Object<'a>),
}

/// The GUIDs that decode to a typed variant of `HeaderObject`.
pub open spec fn known_header_guid(g: u128) -> bool {
    g == FILE_PROPERTIES_OBJECT
        || g == STREAM_PROPERTIES_OBJECT
        || g == HEADER_EXTENSION_OBJECT
        || g == CODEC_LIST_OBJECT
        || g == SCRIPT_COMMAND_OBJECT
        || g == MARKER_OBJECT
        || g == BITRATE_MUTUAL_EXCLUSION_OBJECT
        || g == ERROR_CORRECTION_OBJECT
        || g == CONTENT_DESCRIPTION_OBJECT
        || g == EXTENDED_CONTENT_DESCRIPTION_OBJECT
        || g == STREAM_BITRATE_PROPERTIES_OBJECT
        || g == CONTENT_BRANDING_OBJECT
        || g == CONTENT_ENCRYPTION_OBJECT
        || g == EXTENDED_CONTENT_ENCRYPTION_OBJECT
        || g == DIGITAL_SIGNATURE_OBJECT
        || g == PADDING_OBJECT
}

/// `input` is the whole frames `frames`, decoding to `objs`, then `rest`.
pub open spec fn header_object_list_decodes(objs: Seq<HeaderObject>, frames: Seq<Seq<u8>>, input: Span, rest: Span) -> bool {
    &&& frames.len() == objs.len()
    &&& forall|i: int| 0 <= i < frames.len() ==> (#[trigger] objs[i]).frame_matches(frames[i])
    &&& splits(input, frames_bytes(frames), rest)
}

impl<'a> HeaderObject<'a> {
    /// The GUID the object is framed with.
    pub open spec fn spec_guid(&self) -> u128 {
        match self {
            HeaderObject::FileProperties(_) => FILE_PROPERTIES_OBJECT,
            HeaderObject::StreamProperties(_) => STREAM_PROPERTIES_OBJECT,
            HeaderObject::HeaderExtension(_) => HEADER_EXTENSION_OBJECT,
            HeaderObject::CodecList(_) => CODEC_LIST_OBJECT,
            HeaderObject::ScriptCommand(_) => SCRIPT_COMMAND_OBJECT,
            HeaderObject::Marker(_) => MARKER_OBJECT,
            HeaderObject::BitrateMutualExclusion(_) => BITRATE_MUTUAL_EXCLUSION_OBJECT,
            HeaderObject::ErrorCorrection(_) => ERROR_CORRECTION_OBJECT,
            HeaderObject::ContentDescription(_) => CONTENT_DESCRIPTION_OBJECT,
            HeaderObject::ExtendedContentDescription(_) => EXTENDED_CONTENT_DESCRIPTION_OBJECT,
            HeaderObject::StreamBitrateProperties(_) => STREAM_BITRATE_PROPERTIES_OBJECT,
            HeaderObject::ContentBranding(_) => CONTENT_BRANDING_OBJECT,
            HeaderObject::ContentEncryption(_) => CONTENT_ENCRYPTION_OBJECT,
            HeaderObject::ExtendedContentEncryption(_) => EXTENDED_CONTENT_ENCRYPTION_OBJECT,
            HeaderObject::DigitalSignature(_) => DIGITAL_SIGNATURE_OBJECT,
            HeaderObject::Padding(_) => PADDING_OBJECT,
            HeaderObject::Unknown(o) => o.guid.0,
        }
    }

    /// The body `write` emits after the frame.
    pub open spec fn body_bytes(&self) -> Seq<u8> {
        match self {
            HeaderObject::FileProperties(d) => d.spec_bytes(),
            HeaderObject::StreamProperties(d) => d.spec_bytes(),
            HeaderObject::HeaderExtension(d) => d.spec_bytes(),
            HeaderObject::CodecList(d) => d.spec_bytes(),
            HeaderObject::ScriptCommand(d) => d.spec_bytes(),
            HeaderObject::Marker(d) => d.spec_bytes(),
            HeaderObject::BitrateMutualExclusion(d) => d.spec_bytes(),
            HeaderObject::ErrorCorrection(d) => d.spec_bytes(),
            HeaderObject::ContentDescription(d) => d.spec_bytes(),
            HeaderObject::ExtendedContentDescription(d) => d.spec_bytes(),
            HeaderObject::StreamBitrateProperties(d) => d.spec_bytes(),
            HeaderObject::ContentBranding(d) => d.spec_bytes(),
            HeaderObject::ContentEncryption(d) => d.spec_bytes(),
            HeaderObject::ExtendedContentEncryption(d) => d.spec_bytes(),
            HeaderObject::DigitalSignature(d) => d.spec_bytes(),
            HeaderObject::Padding(n) => Seq::new(*n as nat, |i: int| 0u8),
            HeaderObject::Unknown(o) => o.data.bytes(),
        }
    }

    pub open spec fn body_writable(&self) -> bool {
        match self {
            HeaderObject::FileProperties(d) => d.writable(),
            HeaderObject::StreamProperties(d) => d.writable(),
            HeaderObject::HeaderExtension(d) => d.writable(),
            HeaderObject::CodecList(d) => d.writable(),
            HeaderObject::ScriptCommand(d) => d.writable(),
            HeaderObject::Marker(d) => d.writable(),
            HeaderObject::BitrateMutualExclusion(d) => d.writable(),
            HeaderObject::ErrorCorrection(d) => d.writable(),
            HeaderObject::ContentDescription(d) => d.writable(),
            HeaderObject::ExtendedContentDescription(d) => d.writable(),
            HeaderObject::StreamBitrateProperties(d) => d.writable(),
            HeaderObject::ContentBranding(d) => d.writable(),
            HeaderObject::ContentEncryption(d) => d.writable(),
            HeaderObject::ExtendedContentEncryption(d) => d.writable(),
            HeaderObject::DigitalSignature(d) => d.writable(),
            HeaderObject::Padding(_) => true,
            HeaderObject::Unknown(_) => true,
        }
    }

    /// How the decoded value relates to the body it was decoded from: a
    /// typed body decoder may leave bytes at the end of the body unread.
    pub open spec fn body_matches(&self, body: Seq<u8>) -> bool {
        match self {
            HeaderObject::FileProperties(d) => d.spec_bytes().is_prefix_of(body),
            HeaderObject::StreamProperties(d) => d.spec_bytes().is_prefix_of(body),
            HeaderObject::HeaderExtension(d) => d.decodes(body),
            HeaderObject::CodecList(d) => d.spec_bytes().is_prefix_of(body),
            HeaderObject::ScriptCommand(d) => d.spec_bytes().is_prefix_of(body),
            HeaderObject::Marker(d) => d.spec_bytes().is_prefix_of(body),
            HeaderObject::BitrateMutualExclusion(d) => d.spec_bytes().is_prefix_of(body),
            HeaderObject::ErrorCorrection(d) => d.spec_bytes().is_prefix_of(body),
            HeaderObject::ContentDescription(d) => d.spec_bytes().is_prefix_of(body),
            HeaderObject::ExtendedContentDescription(d) => d.spec_bytes().is_prefix_of(body),
            HeaderObject::StreamBitrateProperties(d) => d.spec_bytes().is_prefix_of(body),
            HeaderObject::ContentBranding(d) => d.spec_bytes().is_prefix_of(body),
            HeaderObject::ContentEncryption(d) => d.spec_bytes().is_prefix_of(body),
            HeaderObject::ExtendedContentEncryption(d) => d.spec_bytes().is_prefix_of(body),
            HeaderObject::DigitalSignature(d) => d.spec_bytes().is_prefix_of(body),
            HeaderObject::Padding(n) => body.len() == *n,
            HeaderObject::Unknown(o) => body == o.data.bytes(),
        }
    }

    /// The body is all the decoder read, its padding is zeros and a nested
    /// stream properties object carries its own GUID: then `write` gives it back.
    pub open spec fn body_exact(&self, body: Seq<u8>) -> bool {
        &&& body.len() == self.body_bytes().len()
        &&& (self is Padding ==> forall|i: int| 0 <= i < body.len() ==> body[i] == 0)
        &&& (self matches HeaderObject::HeaderExtension(d) ==> forall|frames: Seq<Seq<u8>>| #[trigger] d.decodes_with(body, frames) ==> d.exact_with(body, frames))
    }

    /// `frame` is a whole object that decodes to this value.
    pub open spec fn frame_matches(&self, frame: Seq<u8>) -> bool {
        &&& object_frame_ok(frame)
        &&& frame_size(frame) == frame.len()
        &&& frame.take(16) == guid_to_wire(self.spec_guid())
        &&& (self is Unknown <==> !known_header_guid(self.spec_guid()))
        &&& self.body_matches(frame.skip(24))
        &&& self.writable()
        &&& self.spec_bytes().len() <= frame.len()
    }

    /// Frames one object and decodes its body by its GUID; an unknown GUID
    /// gives `Unknown` with the body as it stands.
    #[verifier::rlimit(80)]
    pub fn parse(input: Span<'a>) -> (r: Result<(Span<'a>, HeaderObject<'a>), Error>)
        ensures
            r matches Ok((rest, v)) ==> splits(input, input.bytes().take(input.bytes().len() - rest.bytes().len()), rest)
                && v.frame_matches(input.bytes().take(input.bytes().len() - rest.bytes().len())),
            r matches Err(e) ==> e.kind == ErrorKind::Eof,
            !object_frame_ok(input.bytes()) ==> r is Err,
            object_frame_ok(input.bytes()) && !known_header_guid(guid_from_wire(input.bytes().take(16))) ==> r is Ok,
            object_frame_ok(input.bytes()) && guid_from_wire(input.bytes().take(16)) == FILE_PROPERTIES_OBJECT
                && decodable::<FilePropertiesData>(input.bytes().subrange(24, frame_size(input.bytes()))) ==> r is Ok,
            object_frame_ok(input.bytes()) && guid_from_wire(input.bytes().take(16)) == STREAM_PROPERTIES_OBJECT
                && decodable::<StreamPropertiesData<'a>>(input.bytes().subrange(24, frame_size(input.bytes()))) ==> r is Ok,
            object_frame_ok(input.bytes()) && guid_from_wire(input.bytes().take(16)) == CODEC_LIST_OBJECT
                && decodable::<CodecListData<'a>>(input.bytes().subrange(24, frame_size(input.bytes()))) ==> r is Ok,
            object_frame_ok(input.bytes()) && guid_from_wire(input.bytes().take(16)) == SCRIPT_COMMAND_OBJECT
                && decodable::<ScriptCommandData>(input.bytes().subrange(24, frame_size(input.bytes()))) ==> r is Ok,
            object_frame_ok(input.bytes()) && guid_from_wire(input.bytes().take(16)) == MARKER_OBJECT
                && decodable::<MarkerData>(input.bytes().subrange(24, frame_size(input.bytes()))) ==> r is Ok,
            object_frame_ok(input.bytes()) && guid_from_wire(input.bytes().take(16)) == BITRATE_MUTUAL_EXCLUSION_OBJECT
                && decodable::<BitrateMutualExclusionData>(input.bytes().subrange(24, frame_size(input.bytes()))) ==> r is Ok,
            object_frame_ok(input.bytes()) && guid_from_wire(input.bytes().take(16)) == ERROR_CORRECTION_OBJECT
                && decodable::<ErrorCorrectionData<'a>>(input.bytes().subrange(24, frame_size(input.bytes()))) ==> r is Ok,
            object_frame_ok(input.bytes()) && guid_from_wire(input.bytes().take(16)) == CONTENT_DESCRIPTION_OBJECT
                && decodable::<ContentDescriptionData>(input.bytes().subrange(24, frame_size(input.bytes()))) ==> r is Ok,
            object_frame_ok(input.bytes()) && guid_from_wire(input.bytes().take(16)) == EXTENDED_CONTENT_DESCRIPTION_OBJECT
                && decodable::<ExtendedContentDescriptionData<'a>>(input.bytes().subrange(24, frame_size(input.bytes()))) ==> r is Ok,
            object_frame_ok(input.bytes()) && guid_from_wire(input.bytes().take(16)) == STREAM_BITRATE_PROPERTIES_OBJECT
                && decodable::<StreamBitratePropertiesData>(input.bytes().subrange(24, frame_size(input.bytes()))) ==> r is Ok,
            object_frame_ok(input.bytes()) && guid_from_wire(input.bytes().take(16)) == CONTENT_BRANDING_OBJECT
                && decodable::<ContentBrandingData<'a>>(input.bytes().subrange(24, frame_size(input.bytes()))) ==> r is Ok,
            object_frame_ok(input.bytes()) && guid_from_wire(input.bytes().take(16)) == CONTENT_ENCRYPTION_OBJECT
                && decodable::<ContentEncryptionData<'a>>(input.bytes().subrange(24, frame_size(input.bytes()))) ==> r is Ok,
            object_frame_ok(input.bytes()) && guid_from_wire(input.bytes().take(16)) == EXTENDED_CONTENT_ENCRYPTION_OBJECT
                && decodable::<ExtendedContentEncryptionData<'a>>(input.bytes().subrange(24, frame_size(input.bytes()))) ==> r is Ok,
            object_frame_ok(input.bytes()) && guid_from_wire(input.bytes().take(16)) == DIGITAL_SIGNATURE_OBJECT
                && decodable::<DigitalSignatureData<'a>>(input.bytes().subrange(24, frame_size(input.bytes()))) ==> r is Ok,
            r matches Ok((rest, v)) ==> (v matches HeaderObject::Unknown(o) ==> within(o.data, input)
                && o.data.start() == input.start() + 24),
    {
        let (rest, o) = object(input)?;
        let ghost frame = input.bytes().take(input.bytes().len() - rest.bytes().len());
        proof {
            lemma_int_bytes_len();
            lemma_guid_value_round_trip(o.guid.0);
            assert(frame =~= o.spec_bytes());
            assert(frame.skip(24) =~= o.data.bytes());
            assert(frame.take(16) =~= guid_to_wire(o.guid.0));
            assert(frame.subrange(16, 24) =~= input.bytes().subrange(16, 24));
            assert(input.bytes().take(16) =~= frame.take(16));
            assert(input.bytes().subrange(24, frame_size(input.bytes())) =~= o.data.bytes());
        }
        let g = o.guid.0;
        if g == FILE_PROPERTIES_OBJECT {
            let (_, d) = match FilePropertiesData::parse(o.data) {
                Ok(x) => x,
                Err(e) => {
                    proof {
                        if decodable::<FilePropertiesData>(o.data.bytes()) {
                            let (w, t) = choose|w: FilePropertiesData, t: Seq<u8>| #[trigger] encodes(o.data.bytes(), w, t);
                            assert(encodes(o.data.bytes(), w, t));
                        }
                    }
                    return Err(e.add_context(Context::HeaderObject));
                },
            };
            proof {
                assert(o.data.bytes().take(d.spec_bytes().len() as int) =~= d.spec_bytes());
            }
            Ok((rest, HeaderObject::FileProperties(d)))
        } else if g == STREAM_PROPERTIES_OBJECT {
            let (_, d) = match StreamPropertiesData::parse(o.data) {
                Ok(x) => x,
                Err(e) => {
                    proof {
                        if decodable::<StreamPropertiesData<'a>>(o.data.bytes()) {
                            let (w, t) = choose|w: StreamPropertiesData<'a>, t: Seq<u8>| #[trigger] encodes(o.data.bytes(), w, t);
                            assert(encodes(o.data.bytes(), w, t));
                        }
                    }
                    return Err(e.add_context(Context::HeaderObject));
                },
            };
            proof {
                assert(o.data.bytes().take(d.spec_bytes().len() as int) =~= d.spec_bytes());
            }
            Ok((rest, HeaderObject::StreamProperties(d)))
        } else if g == HEADER_EXTENSION_OBJECT {
            let (_, d) = match HeaderExtensionData::parse(o.data) {
                Ok(x) => x,
                Err(e) => { return Err(e.add_context(Context::HeaderObject)); },
            };
            proof {
                let fr = choose|fr: Seq<Seq<u8>>| d.decodes_with(o.data.bytes(), fr);
                assert(d.decodes_with(o.data.bytes(), fr));
            }
            Ok((rest, HeaderObject::HeaderExtension(d)))
        } else if g == CODEC_LIST_OBJECT {
            let (_, d) = match CodecListData::parse(o.data) {
                Ok(x) => x,
                Err(e) => {
                    proof {
                        if decodable::<CodecListData<'a>>(o.data.bytes()) {
                            let (w, t) = choose|w: CodecListData<'a>, t: Seq<u8>| #[trigger] encodes(o.data.bytes(), w, t);
                            assert(encodes(o.data.bytes(), w, t));
                        }
                    }
                    return Err(e.add_context(Context::HeaderObject));
                },
            };
            proof {
                assert(o.data.bytes().take(d.spec_bytes().len() as int) =~= d.spec_bytes());
            }
            Ok((rest, HeaderObject::CodecList(d)))
        } else if g == SCRIPT_COMMAND_OBJECT {
            let (_, d) = match ScriptCommandData::parse(o.data) {
                Ok(x) => x,
                Err(e) => {
                    proof {
                        if decodable::<ScriptCommandData>(o.data.bytes()) {
                            let (w, t) = choose|w: ScriptCommandData, t: Seq<u8>| #[trigger] encodes(o.data.bytes(), w, t);
                            assert(encodes(o.data.bytes(), w, t));
                        }
                    }
                    return Err(e.add_context(Context::HeaderObject));
                },
            };
            proof {
                assert(o.data.bytes().take(d.spec_bytes().len() as int) =~= d.spec_bytes());
            }
            Ok((rest, HeaderObject::ScriptCommand(d)))
        } else if g == MARKER_OBJECT {
            let (_, d) = match MarkerData::parse(o.data) {
                Ok(x) => x,
                Err(e) => {
                    proof {
                        if decodable::<MarkerData>(o.data.bytes()) {
                            let (w, t) = choose|w: MarkerData, t: Seq<u8>| #[trigger] encodes(o.data.bytes(), w, t);
                            assert(encodes(o.data.bytes(), w, t));
                        }
                    }
                    return Err(e.add_context(Context::HeaderObject));
                },
            };
            proof {
                assert(o.data.bytes().take(d.spec_bytes().len() as int) =~= d.spec_bytes());
            }
            Ok((rest, HeaderObject::Marker(d)))
        } else if g == BITRATE_MUTUAL_EXCLUSION_OBJECT {
            let (_, d) = match BitrateMutualExclusionData::parse(o.data) {
                Ok(x) => x,
                Err(e) => {
                    proof {
                        if decodable::<BitrateMutualExclusionData>(o.data.bytes()) {
                            let (w, t) = choose|w: BitrateMutualExclusionData, t: Seq<u8>| #[trigger] encodes(o.data.bytes(), w, t);
                            assert(encodes(o.data.bytes(), w, t));
                        }
                    }
                    return Err(e.add_context(Context::HeaderObject));
                },
            };
            proof {
                assert(o.data.bytes().take(d.spec_bytes().len() as int) =~= d.spec_bytes());
            }
            Ok((rest, HeaderObject::BitrateMutualExclusion(d)))
        } else if g == ERROR_CORRECTION_OBJECT {
            let (_, d) = match ErrorCorrectionData::parse(o.data) {
                Ok(x) => x,
                Err(e) => {
                    proof {
                        if decodable::<ErrorCorrectionData<'a>>(o.data.bytes()) {
                            let (w, t) = choose|w: ErrorCorrectionData<'a>, t: Seq<u8>| #[trigger] encodes(o.data.bytes(), w, t);
                            assert(encodes(o.data.bytes(), w, t));
                        }
                    }
                    return Err(e.add_context(Context::HeaderObject));
                },
            };
            proof {
                assert(o.data.bytes().take(d.spec_bytes().len() as int) =~= d.spec_bytes());
            }
            Ok((rest, HeaderObject::ErrorCorrection(d)))
        } else if g == CONTENT_DESCRIPTION_OBJECT {
            let (_, d) = match ContentDescriptionData::parse(o.data) {
                Ok(x) => x,
                Err(e) => {
                    proof {
                        if decodable::<ContentDescriptionData>(o.data.bytes()) {
                            let (w, t) = choose|w: ContentDescriptionData, t: Seq<u8>| #[trigger] encodes(o.data.bytes(), w, t);
                            assert(encodes(o.data.bytes(), w, t));
                        }
                    }
                    return Err(e.add_context(Context::HeaderObject));
                },
            };
            proof {
                assert(o.data.bytes().take(d.spec_bytes().len() as int) =~= d.spec_bytes());
            }
            Ok((rest, HeaderObject::ContentDescription(d)))
        } else if g == EXTENDED_CONTENT_DESCRIPTION_OBJECT {
            let (_, d) = match ExtendedContentDescriptionData::parse(o.data) {
                Ok(x) => x,
                Err(e) => {
                    proof {
                        if decodable::<ExtendedContentDescriptionData<'a>>(o.data.bytes()) {
                            let (w, t) = choose|w: ExtendedContentDescriptionData<'a>, t: Seq<u8>| #[trigger] encodes(o.data.bytes(), w, t);
                            assert(encodes(o.data.bytes(), w, t));
                        }
                    }
                    return Err(e.add_context(Context::HeaderObject));
                },
            };
            proof {
                assert(o.data.bytes().take(d.spec_bytes().len() as int) =~= d.spec_bytes());
            }
            Ok((rest, HeaderObject::ExtendedContentDescription(d)))
        } else if g == STREAM_BITRATE_PROPERTIES_OBJECT {
            let (_, d) = match StreamBitratePropertiesData::parse(o.data) {
                Ok(x) => x,
                Err(e) => {
                    proof {
                        if decodable::<StreamBitratePropertiesData>(o.data.bytes()) {
                            let (w, t) = choose|w: StreamBitratePropertiesData, t: Seq<u8>| #[trigger] encodes(o.data.bytes(), w, t);
                            assert(encodes(o.data.bytes(), w, t));
                        }
                    }
                    return Err(e.add_context(Context::HeaderObject));
                },
            };
            proof {
                assert(o.data.bytes().take(d.spec_bytes().len() as int) =~= d.spec_bytes());
            }
            Ok((rest, HeaderObject::StreamBitrateProperties(d)))
        } else if g == CONTENT_BRANDING_OBJECT {
            let (_, d) = match ContentBrandingData::parse(o.data) {
                Ok(x) => x,
                Err(e) => {
                    proof {
                        if decodable::<ContentBrandingData<'a>>(o.data.bytes()) {
                            let (w, t) = choose|w: ContentBrandingData<'a>, t: Seq<u8>| #[trigger] encodes(o.data.bytes(), w, t);
                            assert(encodes(o.data.bytes(), w, t));
                        }
                    }
                    return Err(e.add_context(Context::HeaderObject));
                },
            };
            proof {
                assert(o.data.bytes().take(d.spec_bytes().len() as int) =~= d.spec_bytes());
            }
            Ok((rest, HeaderObject::ContentBranding(d)))
        } else if g == CONTENT_ENCRYPTION_OBJECT {
            let (_, d) = match ContentEncryptionData::parse(o.data) {
                Ok(x) => x,
                Err(e) => {
                    proof {
                        if decodable::<ContentEncryptionData<'a>>(o.data.bytes()) {
                            let (w, t) = choose|w: ContentEncryptionData<'a>, t: Seq<u8>| #[trigger] encodes(o.data.bytes(), w, t);
                            assert(encodes(o.data.bytes(), w, t));
                        }
                    }
                    return Err(e.add_context(Context::HeaderObject));
                },
            };
            proof {
                assert(o.data.bytes().take(d.spec_bytes().len() as int) =~= d.spec_bytes());
            }
            Ok((rest, HeaderObject::ContentEncryption(d)))
        } else if g == EXTENDED_CONTENT_ENCRYPTION_OBJECT {
            let (_, d) = match ExtendedContentEncryptionData::parse(o.data) {
                Ok(x) => x,
                Err(e) => {
                    proof {
                        if decodable::<ExtendedContentEncryptionData<'a>>(o.data.bytes()) {
                            let (w, t) = choose|w: ExtendedContentEncryptionData<'a>, t: Seq<u8>| #[trigger] encodes(o.data.bytes(), w, t);
                            assert(encodes(o.data.bytes(), w, t));
                        }
                    }
                    return Err(e.add_context(Context::HeaderObject));
                },
            };
            proof {
                assert(o.data.bytes().take(d.spec_bytes().len() as int) =~= d.spec_bytes());
            }
            Ok((rest, HeaderObject::ExtendedContentEncryption(d)))
        } else if g == DIGITAL_SIGNATURE_OBJECT {
            let (_, d) = match DigitalSignatureData::parse(o.data) {
                Ok(x) => x,
                Err(e) => {
                    proof {
                        if decodable::<DigitalSignatureData<'a>>(o.data.bytes()) {
                            let (w, t) = choose|w: DigitalSignatureData<'a>, t: Seq<u8>| #[trigger] encodes(o.data.bytes(), w, t);
                            assert(encodes(o.data.bytes(), w, t));
                        }
                    }
                    return Err(e.add_context(Context::HeaderObject));
                },
            };
            proof {
                assert(o.data.bytes().take(d.spec_bytes().len() as int) =~= d.spec_bytes());
            }
            Ok((rest, HeaderObject::DigitalSignature(d)))
        } else if g == PADDING_OBJECT {
            Ok((rest, HeaderObject::Padding(o.data.len())))
        } else {
            Ok((rest, HeaderObject::Unknown(o)))
        }
    }

    /// Decodes objects one after another until one does not decode; what is
    /// left is returned.
    pub fn parse_many(input: Span<'a>) -> (r: (Span<'a>, Vec<HeaderObject<'a>>))
        ensures
            exists|frames: Seq<Seq<u8>>| #[trigger] header_object_list_decodes(r.1@, frames, input, r.0),
            object_frame_ok(r.0.bytes()) ==> known_header_guid(guid_from_wire(r.0.bytes().take(16))),
    {
        let mut objects: Vec<HeaderObject<'a>> = Vec::new();
        let mut cur = input;
        let ghost mut frames: Seq<Seq<u8>> = Seq::empty();
        proof {
            assert(input.bytes() =~= frames_bytes(frames) + cur.bytes());
        }
        loop
            invariant
                frames.len() == objects@.len(),
                forall|i: int| 0 <= i < frames.len() ==> (#[trigger] objects@[i]).frame_matches(frames[i]),
                splits(input, frames_bytes(frames), cur),
            decreases cur.bytes().len(),
        {
            match Self::parse(cur) {
                Ok((next, v)) => {
                    let ghost frame = cur.bytes().take(cur.bytes().len() - next.bytes().len());
                    proof {
                        lemma_splits_chain(input, frames_bytes(frames), cur, frame, next);
                        assert(frames.push(frame).drop_last() =~= frames);
                        assert(frame.len() >= 24);
                    }
                    objects.push(v);
                    proof {
                        frames = frames.push(frame);
                    }
                    cur = next;
                },
                Err(_) => {
                    let r = (cur, objects);
                    proof {
                        assert(header_object_list_decodes(r.1@, frames, input, r.0));
                    }
                    return r;
                },
            }
        }
    }
}

impl<'a> HeaderObject<'a> {
    /// The number of bytes `write` emits, computed without writing.
    pub fn size_of(&self) -> (r: usize)
        requires
            self.spec_bytes().len() <= usize::MAX,
        ensures
            r == self.spec_bytes().len(),
    {
        proof {
            lemma_int_bytes_len();
            lemma_guid_value_round_trip(self.spec_guid());
        }
        let body: usize = match self {
            HeaderObject::FileProperties(d) => d.size_of(),
            HeaderObject::StreamProperties(d) => d.size_of(),
            HeaderObject::HeaderExtension(d) => d.size_of(),
            HeaderObject::CodecList(d) => d.size_of(),
            HeaderObject::ScriptCommand(d) => d.size_of(),
            HeaderObject::Marker(d) => d.size_of(),
            HeaderObject::BitrateMutualExclusion(d) => d.size_of(),
            HeaderObject::ErrorCorrection(d) => d.size_of(),
            HeaderObject::ContentDescription(d) => d.size_of(),
            HeaderObject::ExtendedContentDescription(d) => d.size_of(),
            HeaderObject::StreamBitrateProperties(d) => d.size_of(),
            HeaderObject::ContentBranding(d) => d.size_of(),
            HeaderObject::ContentEncryption(d) => d.size_of(),
            HeaderObject::ExtendedContentEncryption(d) => d.size_of(),
            HeaderObject::DigitalSignature(d) => d.size_of(),
            HeaderObject::Padding(n) => *n,
            HeaderObject::Unknown(o) => o.data.len(),
        };
        24 + body
    }

    /// Appends the wire form to `w`; fails when a length overflows its prefix.
    pub fn write(&self, w: &mut Vec<u8>) -> (r: Result<(), WriteError>)
        requires
            self.spec_bytes().len() <= usize::MAX,
        ensures
            r is Ok <==> self.writable(),
            r is Ok ==> final(w)@ == old(w)@ + self.spec_bytes(),
    {
        proof {
            lemma_int_bytes_len();
            lemma_guid_value_round_trip(self.spec_guid());
        }
        let body_len = self.size_of() - 24;
        if body_len as u64 > u64::MAX - 24 {
            return Err(WriteError::FieldTooLarge);
        }
        let ghost frame = frame_bytes(self.spec_guid(), self.body_bytes().len());
        match self {
            HeaderObject::FileProperties(d) => {
                write_guid(w, Guid(FILE_PROPERTIES_OBJECT));
                write_u64(w, 24 + body_len as u64);
                proof {
                    lemma_concat_associative(old(w)@, guid_to_wire(self.spec_guid()), spec_u64_to_le_bytes((24 + body_len) as u64));
                }
                d.write(w)?;
            },
            HeaderObject::StreamProperties(d) => {
                write_guid(w, Guid(STREAM_PROPERTIES_OBJECT));
                write_u64(w, 24 + body_len as u64);
                proof {
                    lemma_concat_associative(old(w)@, guid_to_wire(self.spec_guid()), spec_u64_to_le_bytes((24 + body_len) as u64));
                }
                d.write(w)?;
            },
            HeaderObject::HeaderExtension(d) => {
                write_guid(w, Guid(HEADER_EXTENSION_OBJECT));
                write_u64(w, 24 + body_len as u64);
                proof {
                    lemma_concat_associative(old(w)@, guid_to_wire(self.spec_guid()), spec_u64_to_le_bytes((24 + body_len) as u64));
                }
                d.write(w)?;
            },
            HeaderObject::CodecList(d) => {
                write_guid(w, Guid(CODEC_LIST_OBJECT));
                write_u64(w, 24 + body_len as u64);
                proof {
                    lemma_concat_associative(old(w)@, guid_to_wire(self.spec_guid()), spec_u64_to_le_bytes((24 + body_len) as u64));
                }
                d.write(w)?;
            },
            HeaderObject::ScriptCommand(d) => {
                write_guid(w, Guid(SCRIPT_COMMAND_OBJECT));
                write_u64(w, 24 + body_len as u64);
                proof {
                    lemma_concat_associative(old(w)@, guid_to_wire(self.spec_guid()), spec_u64_to_le_bytes((24 + body_len) as u64));
                }
                d.write(w)?;
            },
            HeaderObject::Marker(d) => {
                write_guid(w, Guid(MARKER_OBJECT));
                write_u64(w, 24 + body_len as u64);
                proof {
                    lemma_concat_associative(old(w)@, guid_to_wire(self.spec_guid()), spec_u64_to_le_bytes((24 + body_len) as u64));
                }
                d.write(w)?;
            },
            HeaderObject::BitrateMutualExclusion(d) => {
                write_guid(w, Guid(BITRATE_MUTUAL_EXCLUSION_OBJECT));
                write_u64(w, 24 + body_len as u64);
                proof {
                    lemma_concat_associative(old(w)@, guid_to_wire(self.spec_guid()), spec_u64_to_le_bytes((24 + body_len) as u64));
                }
                d.write(w)?;
            },
            HeaderObject::ErrorCorrection(d) => {
                write_guid(w, Guid(ERROR_CORRECTION_OBJECT));
                write_u64(w, 24 + body_len as u64);
                proof {
                    lemma_concat_associative(old(w)@, guid_to_wire(self.spec_guid()), spec_u64_to_le_bytes((24 + body_len) as u64));
                }
                d.write(w)?;
            },
            HeaderObject::ContentDescription(d) => {
                write_guid(w, Guid(CONTENT_DESCRIPTION_OBJECT));
                write_u64(w, 24 + body_len as u64);
                proof {
                    lemma_concat_associative(old(w)@, guid_to_wire(self.spec_guid()), spec_u64_to_le_bytes((24 + body_len) as u64));
                }
                d.write(w)?;
            },
            HeaderObject::ExtendedContentDescription(d) => {
                write_guid(w, Guid(EXTENDED_CONTENT_DESCRIPTION_OBJECT));
                write_u64(w, 24 + body_len as u64);
                proof {
                    lemma_concat_associative(old(w)@, guid_to_wire(self.spec_guid()), spec_u64_to_le_bytes((24 + body_len) as u64));
                }
                d.write(w)?;
            },
            HeaderObject::StreamBitrateProperties(d) => {
                write_guid(w, Guid(STREAM_BITRATE_PROPERTIES_OBJECT));
                write_u64(w, 24 + body_len as u64);
                proof {
                    lemma_concat_associative(old(w)@, guid_to_wire(self.spec_guid()), spec_u64_to_le_bytes((24 + body_len) as u64));
                }
                d.write(w)?;
            },
            HeaderObject::ContentBranding(d) => {
                write_guid(w, Guid(CONTENT_BRANDING_OBJECT));
                write_u64(w, 24 + body_len as u64);
                proof {
                    lemma_concat_associative(old(w)@, guid_to_wire(self.spec_guid()), spec_u64_to_le_bytes((24 + body_len) as u64));
                }
                d.write(w)?;
            },
            HeaderObject::ContentEncryption(d) => {
                write_guid(w, Guid(CONTENT_ENCRYPTION_OBJECT));
                write_u64(w, 24 + body_len as u64);
                proof {
                    lemma_concat_associative(old(w)@, guid_to_wire(self.spec_guid()), spec_u64_to_le_bytes((24 + body_len) as u64));
                }
                d.write(w)?;
            },
            HeaderObject::ExtendedContentEncryption(d) => {
                write_guid(w, Guid(EXTENDED_CONTENT_ENCRYPTION_OBJECT));
                write_u64(w, 24 + body_len as u64);
                proof {
                    lemma_concat_associative(old(w)@, guid_to_wire(self.spec_guid()), spec_u64_to_le_bytes((24 + body_len) as u64));
                }
                d.write(w)?;
            },
            HeaderObject::DigitalSignature(d) => {
                write_guid(w, Guid(DIGITAL_SIGNATURE_OBJECT));
                write_u64(w, 24 + body_len as u64);
                proof {
                    lemma_concat_associative(old(w)@, guid_to_wire(self.spec_guid()), spec_u64_to_le_bytes((24 + body_len) as u64));
                }
                d.write(w)?;
            },
            HeaderObject::Padding(n) => {
                write_guid(w, Guid(PADDING_OBJECT));
                write_u64(w, 24 + body_len as u64);
                proof {
                    lemma_concat_associative(old(w)@, guid_to_wire(self.spec_guid()), spec_u64_to_le_bytes((24 + body_len) as u64));
                }
                write_zeros(w, *n);
            },
            HeaderObject::Unknown(o) => {
                write_guid(w, o.guid);
                write_u64(w, 24 + body_len as u64);
                proof {
                    lemma_concat_associative(old(w)@, guid_to_wire(self.spec_guid()), spec_u64_to_le_bytes((24 + body_len) as u64));
                }
                write_bytes(w, o.data.fragment());
            },
        }
        proof {
            lemma_concat_associative(old(w)@, frame, self.body_bytes());
        }
        Ok(())
    }
}

impl<'a> Wire for HeaderObject<'a> {
    open spec fn spec_bytes(&self) -> Seq<u8> {
        frame_bytes(self.spec_guid(), self.body_bytes().len()) + self.body_bytes()
    }

    open spec fn writable(&self) -> bool {
        self.body_writable() && 24 + self.body_bytes().len() <= u64::MAX
    }

    fn size_of(&self) -> (r: usize) {
        Self::size_of(self)
    }

    fn write(&self, w: &mut Vec<u8>) -> (r: Result<(), WriteError>) {
        Self::write(self, w)
    }
}

/// Writing a value decoded from a whole object frame gives the frame back,
/// when the body decoder read the whole body, padding is zeros and a nested
/// stream properties object carries its own GUID.
pub proof fn lemma_header_object_round_trip(frame: Seq<u8>, v: HeaderObject)
    requires
        v.frame_matches(frame),
        v.body_exact(frame.skip(24)),
    ensures
        v.spec_bytes() == frame,
{
    lemma_int_bytes_len();
    lemma_guid_value_round_trip(v.spec_guid());
    vstd::bytes::lemma_auto_spec_u64_to_from_le_bytes();
    let body = frame.skip(24);
    assert(body =~= v.body_bytes()) by {
        match v {
            HeaderObject::FileProperties(d) => {
                assert(d.spec_bytes() =~= body.take(d.spec_bytes().len() as int));
            },
            HeaderObject::StreamProperties(d) => {
                assert(d.spec_bytes() =~= body.take(d.spec_bytes().len() as int));
            },
            HeaderObject::HeaderExtension(d) => {
                let fr = choose|fr: Seq<Seq<u8>>| d.decodes_with(body, fr);
                lemma_header_extension_round_trip(d, body, fr);
            },
            HeaderObject::CodecList(d) => {
                assert(d.spec_bytes() =~= body.take(d.spec_bytes().len() as int));
            },
            HeaderObject::ScriptCommand(d) => {
                assert(d.spec_bytes() =~= body.take(d.spec_bytes().len() as int));
            },
            HeaderObject::Marker(d) => {
                assert(d.spec_bytes() =~= body.take(d.spec_bytes().len() as int));
            },
            HeaderObject::BitrateMutualExclusion(d) => {
                assert(d.spec_bytes() =~= body.take(d.spec_bytes().len() as int));
            },
            HeaderObject::ErrorCorrection(d) => {
                assert(d.spec_bytes() =~= body.take(d.spec_bytes().len() as int));
            },
            HeaderObject::ContentDescription(d) => {
                assert(d.spec_bytes() =~= body.take(d.spec_bytes().len() as int));
            },
            HeaderObject::ExtendedContentDescription(d) => {
                assert(d.spec_bytes() =~= body.take(d.spec_bytes().len() as int));
            },
            HeaderObject::StreamBitrateProperties(d) => {
                assert(d.spec_bytes() =~= body.take(d.spec_bytes().len() as int));
            },
            HeaderObject::ContentBranding(d) => {
                assert(d.spec_bytes() =~= body.take(d.spec_bytes().len() as int));
            },
            HeaderObject::ContentEncryption(d) => {
                assert(d.spec_bytes() =~= body.take(d.spec_bytes().len() as int));
            },
            HeaderObject::ExtendedContentEncryption(d) => {
                assert(d.spec_bytes() =~= body.take(d.spec_bytes().len() as int));
            },
            HeaderObject::DigitalSignature(d) => {
                assert(d.spec_bytes() =~= body.take(d.spec_bytes().len() as int));
            },
            HeaderObject::Padding(n) => {},
            _ => {},
        }
    }
    assert(frame.subrange(16, 24) =~= spec_u64_to_le_bytes(frame.len() as u64));
    assert(frame =~= frame.take(16) + frame.subrange(16, 24) + body);
}
/// Writing objects decoded from whole frames, each read in full, gives the
/// frames back one after the other.
pub proof fn lemma_header_object_list_round_trip(objs: Seq<HeaderObject>, frames: Seq<Seq<u8>>)
    requires
        objs.len() == frames.len(),
        forall|i: int| 0 <= i < objs.len() ==> (#[trigger] objs[i]).frame_matches(frames[i]),
        forall|i: int| 0 <= i < objs.len() ==> (#[trigger] objs[i]).body_exact(frames[i].skip(24)),
    ensures
        seq_bytes(objs) == frames_bytes(frames),
    decreases objs.len(),
{
    if objs.len() > 0 {
        let n = objs.len() - 1;
        lemma_header_object_list_round_trip(objs.drop_last(), frames.drop_last());
        lemma_header_object_round_trip(frames[n], objs[n]);
    }
}
/// The header object: two reserved bytes and the header objects. The object
/// count on the wire is not checked against the objects; `write` emits the
/// actual count.
#[derive(Debug, PartialEq, Eq)]
pub struct HeaderObjects<'a> {
    pub reserved1: u8,
    pub reserved2: u8,
    pub objects: Vec<HeaderObject<'a>>,
}

impl<'a> HeaderObjects<'a> {
    /// `b` is a whole header object that decodes to this value, its objects
    /// coming from the whole frames `frames`.
    pub open spec fn decodes_with(&self, b: Seq<u8>, frames: Seq<Seq<u8>>) -> bool {
        &&& 30 <= b.len()
        &&& b.take(16) == guid_to_wire(HEADER_OBJECT)
        &&& frame_size(b) == b.len()
        &&& b[24] == self.reserved1
        &&& b[25] == self.reserved2
        &&& frames.len() == self.objects@.len()
        &&& forall|i: int| 0 <= i < frames.len() ==> (#[trigger] self.objects@[i]).frame_matches(frames[i])
        &&& frames_bytes(frames).is_prefix_of(b.skip(30))
        &&& all_writable(self.objects@)
        &&& seq_bytes(self.objects@).len() + 30 <= b.len()
    }

    pub open spec fn decodes(&self, b: Seq<u8>) -> bool {
        exists|frames: Seq<Seq<u8>>| #[trigger] self.decodes_with(b, frames)
    }

    /// Every byte was read, by this decoder and the nested ones, and the
    /// object count on the wire is the number of objects.
    pub open spec fn exact_with(&self, b: Seq<u8>, frames: Seq<Seq<u8>>) -> bool {
        &&& frames_bytes(frames).len() == b.len() - 30
        &&& b.subrange(26, 30) == spec_u32_to_le_bytes(self.objects@.len() as u32)
        &&& forall|i: int| 0 <= i < frames.len() ==> (#[trigger] self.objects@[i]).body_exact(frames[i].skip(24))
    }

    /// Decodes the header object: its GUID, size, reserved bytes and object
    /// count, then header objects until one does not decode. Bytes left in
    /// the header after them are skipped.
    pub fn parse(input: Span<'a>) -> (r: Result<(Span<'a>, HeaderObjects<'a>), Error>)
        ensures
            r matches Ok((rest, h)) ==> {
                &&& splits(input, input.bytes().take(input.bytes().len() - rest.bytes().len()), rest)
                &&& h.decodes(input.bytes().take(input.bytes().len() - rest.bytes().len()))
            },
            r matches Err(e) ==> e.kind == tag_error_kind(input.bytes(), HEADER_OBJECT),
            r is Ok <==> tagged_frame_ok(input.bytes(), HEADER_OBJECT, 30),
            r matches Ok((rest, h)) ==> rest.bytes() == input.bytes().skip(frame_size(input.bytes())),
    {
        match Self::parse_fields(input) {
            Ok(x) => Ok(x),
            Err(e) => Err(e.add_context(Context::HeaderObjects)),
        }
    }

    fn parse_fields(input: Span<'a>) -> (r: Result<(Span<'a>, HeaderObjects<'a>), Error>)
        ensures
            r matches Ok((rest, h)) ==> {
                &&& splits(input, input.bytes().take(input.bytes().len() - rest.bytes().len()), rest)
                &&& h.decodes(input.bytes().take(input.bytes().len() - rest.bytes().len()))
            },
            r matches Err(e) ==> e.kind == tag_error_kind(input.bytes(), HEADER_OBJECT),
            r is Ok <==> tagged_frame_ok(input.bytes(), HEADER_OBJECT, 30),
            r matches Ok((rest, h)) ==> rest.bytes() == input.bytes().skip(frame_size(input.bytes())),
    {
        proof {
            lemma_int_bytes_len();
            lemma_guid_value_round_trip(HEADER_OBJECT);
            vstd::bytes::lemma_auto_spec_u64_to_from_le_bytes();
        }
        let i1 = tag(input, Guid(HEADER_OBJECT))?;
        let (i2, size) = read_u64(i1)?;
        proof {
            lemma_splits_chain(input, guid_to_wire(HEADER_OBJECT), i1, spec_u64_to_le_bytes(size), i2);
            assert(input.bytes().subrange(16, 24) =~= spec_u64_to_le_bytes(size));
        }
        let (i3, reserved1) = read_u8(i2)?;
        let (i4, reserved2) = read_u8(i3)?;
        let (i5, num) = read_u32(i4)?;
        if size < 30 {
            return Err(Error::new(ErrorKind::Eof, i1.location_offset()));
        }
        let (rest, data) = take_u64(i5, size - 30)?;
        let (mrest, objects) = HeaderObject::parse_many(data);
        let h = HeaderObjects { reserved1, reserved2, objects };
        proof {
            lemma_int_bytes_len();
            lemma_guid_value_round_trip(HEADER_OBJECT);
            vstd::bytes::lemma_auto_spec_u64_to_from_le_bytes();
            let part1 = guid_to_wire(HEADER_OBJECT);
            let part2 = part1 + spec_u64_to_le_bytes(size);
            let part3 = part2 + seq![reserved1];
            let part4 = part3 + seq![reserved2];
            let part5 = part4 + spec_u32_to_le_bytes(num);
            lemma_splits_chain(input, part1, i1, spec_u64_to_le_bytes(size), i2);
            lemma_splits_chain(input, part2, i2, seq![reserved1], i3);
            lemma_splits_chain(input, part3, i3, seq![reserved2], i4);
            lemma_splits_chain(input, part4, i4, spec_u32_to_le_bytes(num), i5);
            lemma_splits_chain(input, part5, i5, data.bytes(), rest);
            assert(rest.bytes() =~= input.bytes().skip(frame_size(input.bytes())));
            let b = input.bytes().take(input.bytes().len() - rest.bytes().len());
            assert(b =~= part5 + data.bytes());
            assert(b.take(16) =~= part1);
            assert(b.subrange(16, 24) =~= spec_u64_to_le_bytes(size));
            assert(b.skip(30) =~= data.bytes());
            let frames = choose|frames: Seq<Seq<u8>>| header_object_list_decodes(h.objects@, frames, data, mrest);
            assert(frames_bytes(frames) =~= data.bytes().take(frames_bytes(frames).len() as int));
            lemma_seq_bytes_within_frames(h.objects@, frames);
            assert(h.decodes_with(b, frames));
        }
        Ok((rest, h))
    }
}

impl<'a> HeaderObjects<'a> {
    /// The number of bytes `write` emits, computed without writing.
    pub fn size_of(&self) -> (r: usize)
        requires
            self.spec_bytes().len() <= usize::MAX,
        ensures
            r == self.spec_bytes().len(),
    {
        proof {
            lemma_int_bytes_len();
            lemma_guid_value_round_trip(HEADER_OBJECT);
        }
        30 + size_of_seq(&self.objects)
    }

    /// Appends the wire form to `w`; fails when a length overflows its prefix.
    pub fn write(&self, w: &mut Vec<u8>) -> (r: Result<(), WriteError>)
        requires
            self.spec_bytes().len() <= usize::MAX,
        ensures
            r is Ok <==> self.writable(),
            r is Ok ==> final(w)@ == old(w)@ + self.spec_bytes(),
    {
        proof {
            lemma_int_bytes_len();
            lemma_guid_value_round_trip(HEADER_OBJECT);
        }
        let body = size_of_seq(&self.objects);
        if body as u64 > u64::MAX - 30 || self.objects.len() > 0xffff_ffff {
            return Err(WriteError::FieldTooLarge);
        }
        let ghost part1 = guid_to_wire(HEADER_OBJECT);
        let ghost part2 = part1 + spec_u64_to_le_bytes((30 + body) as u64);
        let ghost part3 = part2 + seq![self.reserved1];
        let ghost part4 = part3 + seq![self.reserved2];
        let ghost part5 = part4 + spec_u32_to_le_bytes(self.objects@.len() as u32);
        write_guid(w, Guid(HEADER_OBJECT));
        write_u64(w, 30 + body as u64);
        proof {
            lemma_concat_associative(old(w)@, part1, spec_u64_to_le_bytes((30 + body) as u64));
        }
        write_u8(w, self.reserved1);
        proof {
            lemma_concat_associative(old(w)@, part2, seq![self.reserved1]);
        }
        write_u8(w, self.reserved2);
        proof {
            lemma_concat_associative(old(w)@, part3, seq![self.reserved2]);
        }
        write_u32(w, self.objects.len() as u32);
        proof {
            lemma_concat_associative(old(w)@, part4, spec_u32_to_le_bytes(self.objects@.len() as u32));
        }
        write_seq(&self.objects, w)?;
        proof {
            lemma_concat_associative(old(w)@, part5, seq_bytes(self.objects@));
        }
        Ok(())
    }
}

impl<'a> Wire for HeaderObjects<'a> {
    /// The frame, the reserved bytes, the object count, then the objects.
    open spec fn spec_bytes(&self) -> Seq<u8> {
        guid_to_wire(HEADER_OBJECT)
            + spec_u64_to_le_bytes((30 + seq_bytes(self.objects@).len()) as u64)
            + seq![self.reserved1]
            + seq![self.reserved2]
            + spec_u32_to_le_bytes(self.objects@.len() as u32)
            + seq_bytes(self.objects@)
    }

    open spec fn writable(&self) -> bool {
        &&& all_writable(self.objects@)
        &&& self.objects@.len() <= 0xffff_ffff
        &&& 30 + seq_bytes(self.objects@).len() <= u64::MAX
    }

    fn size_of(&self) -> (r: usize) {
        Self::size_of(self)
    }

    fn write(&self, w: &mut Vec<u8>) -> (r: Result<(), WriteError>) {
        Self::write(self, w)
    }
}

/// Writing the header objects decoded from a whole header object gives it
/// back, when every byte was read and the count on the wire is the number of
/// objects.
pub proof fn lemma_header_objects_round_trip(h: HeaderObjects, b: Seq<u8>, frames: Seq<Seq<u8>>)
    requires
        h.decodes_with(b, frames),
        h.exact_with(b, frames),
    ensures
        h.spec_bytes() == b,
{
    lemma_int_bytes_len();
    lemma_guid_value_round_trip(HEADER_OBJECT);
    vstd::bytes::lemma_auto_spec_u64_to_from_le_bytes();
    lemma_header_object_list_round_trip(h.objects@, frames);
    assert(frames_bytes(frames) =~= b.skip(30));
    assert(b.subrange(16, 24) =~= spec_u64_to_le_bytes(b.len() as u64));
    assert(b =~= b.take(16) + b.subrange(16, 24) + seq![b[24]] + seq![b[25]] + b.subrange(26, 30) + b.skip(30));
}

} // verus!
