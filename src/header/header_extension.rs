use vstd::prelude::*;
use vstd::bytes::*;
use vstd::seq_lib::lemma_concat_associative;

use crate::error::{Context, Error, ErrorKind, WriteError};
use crate::guid::{guid, guid_from_wire, guid_to_wire, lemma_guid_value_round_trip, write_guid, Guid, ADVANCED_CONTENT_ENCRYPTION_OBJECT, ADVANCED_MUTUAL_EXCLUSION_OBJECT, BANDWIDTH_SHARING_OBJECT, COMPATIBILITY_OBJECT, EXTENDED_STREAM_PROPERTIES_OBJECT, GROUP_MUTUAL_EXCLUSION_OBJECT, INDEX_PARAMETERS_OBJECT, LANGUAGE_LIST_OBJECT, MEDIA_OBJECT_INDEX_PARAMETERS_OBJECT, METADATA_LIBRARY_OBJECT, METADATA_OBJECT, STREAM_PRIORITIZATION_OBJECT, STREAM_PROPERTIES_OBJECT, TIMECODE_INDEX_PARAMETERS_OBJECT};
use crate::object::{frame_bytes, frame_size, frames_bytes, lemma_seq_bytes_within_frames, object, object_frame_ok, Object};
use crate::span::{lemma_splits_chain, splits, within, Span};
use crate::wire::{all_writable, decodable, encodes, lemma_int_bytes_len, read_u16, read_u32, seq_bytes, size_of_seq, take, write_bytes, write_seq, write_u16, write_u32, write_u64, write_zeros, Parse, Wire};
use super::advanced_content_encryption::AdvancedContentEncryptionData;
use super::advanced_mutual_exclusion::AdvancedMutualExclusionData;
use super::bandwidth_sharing::BandwidthSharingData;
use super::compatibility::CompatibilityData;
use super::extended_stream_properties::ExtendedStreamPropertiesData;
use super::group_mutual_exclusion::GroupMutualExclusionData;
use super::index_parameters::IndexParametersData;
use super::language_list::LanguageListData;
use super::media_object_index_parameters::MediaObjectIndexParametersData;
use super::metadata::MetadataData;
use super::metadata_library::MetadataLibraryData;
use super::stream_prioritization::StreamPrioritizationData;
use super::timecode_index_parameters::TimecodeIndexParametersData;

verus! {

/// An object inside the header extension, decoded by its GUID.
#[derive(Debug, PartialEq, Eq)]
pub enum ExtensionHeaderObject<'a> {
    ExtendedStreamProperties(ExtendedStreamPropertiesData<'a>),
    AdvancedMutualExclusion(AdvancedMutualExclusionData),
    GroupMutualExclusion(GroupMutualExclusionData),
    StreamPrioritization(StreamPrioritizationData),
    BandwidthSharing(BandwidthSharingData),
    LanguageList(LanguageListData),
    Metadata(MetadataData<'a>),
    MetadataLibrary(MetadataLibraryData<'a>),
    IndexParameters(IndexParametersData),
    MediaObjectIndexParameters(MediaObjectIndexParametersData),
    TimecodeIndexParameters(TimecodeIndexParametersData),
    Compatibility(CompatibilityData),
    AdvancedContentEncryption(AdvancedContentEncryptionData<'a>),
    Unknown(Object<'a>),
}

/// The GUIDs that decode to a typed variant of `ExtensionHeaderObject`.
pub open spec fn known_extension_guid(g: u128) -> bool {
    g == EXTENDED_STREAM_PROPERTIES_OBJECT
        || g == ADVANCED_MUTUAL_EXCLUSION_OBJECT
        || g == GROUP_MUTUAL_EXCLUSION_OBJECT
        || g == STREAM_PRIORITIZATION_OBJECT
        || g == BANDWIDTH_SHARING_OBJECT
        || g == LANGUAGE_LIST_OBJECT
        || g == METADATA_OBJECT
        || g == METADATA_LIBRARY_OBJECT
        || g == INDEX_PARAMETERS_OBJECT
        || g == MEDIA_OBJECT_INDEX_PARAMETERS_OBJECT
        || g == TIMECODE_INDEX_PARAMETERS_OBJECT
        || g == COMPATIBILITY_OBJECT
        || g == ADVANCED_CONTENT_ENCRYPTION_OBJECT
}

/// `input` is the whole frames `frames`, decoding to `objs`, then `rest`.
pub open spec fn extension_header_object_list_decodes(objs: Seq<ExtensionHeaderObject>, frames: Seq<Seq<u8>>, input: Span, rest: Span) -> bool {
    &&& frames.len() == objs.len()
    &&& forall|i: int| 0 <= i < frames.len() ==> (#[trigger] objs[i]).frame_matches(frames[i])
    &&& splits(input, frames_bytes(frames), rest)
}

impl<'a> ExtensionHeaderObject<'a> {
    /// The GUID the object is framed with.
    pub open spec fn spec_guid(&self) -> u128 {
        match self {
            ExtensionHeaderObject::ExtendedStreamProperties(_) => EXTENDED_STREAM_PROPERTIES_OBJECT,
            ExtensionHeaderObject::AdvancedMutualExclusion(_) => ADVANCED_MUTUAL_EXCLUSION_OBJECT,
            ExtensionHeaderObject::GroupMutualExclusion(_) => GROUP_MUTUAL_EXCLUSION_OBJECT,
            ExtensionHeaderObject::StreamPrioritization(_) => STREAM_PRIORITIZATION_OBJECT,
            ExtensionHeaderObject::BandwidthSharing(_) => BANDWIDTH_SHARING_OBJECT,
            ExtensionHeaderObject::LanguageList(_) => LANGUAGE_LIST_OBJECT,
            ExtensionHeaderObject::Metadata(_) => METADATA_OBJECT,
            ExtensionHeaderObject::MetadataLibrary(_) => METADATA_LIBRARY_OBJECT,
            ExtensionHeaderObject::IndexParameters(_) => INDEX_PARAMETERS_OBJECT,
            ExtensionHeaderObject::MediaObjectIndexParameters(_) => MEDIA_OBJECT_INDEX_PARAMETERS_OBJECT,
            ExtensionHeaderObject::TimecodeIndexParameters(_) => TIMECODE_INDEX_PARAMETERS_OBJECT,
            ExtensionHeaderObject::Compatibility(_) => COMPATIBILITY_OBJECT,
            ExtensionHeaderObject::AdvancedContentEncryption(_) => ADVANCED_CONTENT_ENCRYPTION_OBJECT,
            ExtensionHeaderObject::Unknown(o) => o.guid.0,
        }
    }

    /// The body `write` emits after the frame.
    pub open spec fn body_bytes(&self) -> Seq<u8> {
        match self {
            ExtensionHeaderObject::ExtendedStreamProperties(d) => d.spec_bytes(),
            ExtensionHeaderObject::AdvancedMutualExclusion(d) => d.spec_bytes(),
            ExtensionHeaderObject::GroupMutualExclusion(d) => d.spec_bytes(),
            ExtensionHeaderObject::StreamPrioritization(d) => d.spec_bytes(),
            ExtensionHeaderObject::BandwidthSharing(d) => d.spec_bytes(),
            ExtensionHeaderObject::LanguageList(d) => d.spec_bytes(),
            ExtensionHeaderObject::Metadata(d) => d.spec_bytes(),
            ExtensionHeaderObject::MetadataLibrary(d) => d.spec_bytes(),
            ExtensionHeaderObject::IndexParameters(d) => d.spec_bytes(),
            ExtensionHeaderObject::MediaObjectIndexParameters(d) => d.spec_bytes(),
            ExtensionHeaderObject::TimecodeIndexParameters(d) => d.spec_bytes(),
            ExtensionHeaderObject::Compatibility(d) => d.spec_bytes(),
            ExtensionHeaderObject::AdvancedContentEncryption(d) => d.spec_bytes(),
            ExtensionHeaderObject::Unknown(o) => o.data.bytes(),
        }
    }

    pub open spec fn body_writable(&self) -> bool {
        match self {
            ExtensionHeaderObject::ExtendedStreamProperties(d) => d.writable(),
            ExtensionHeaderObject::AdvancedMutualExclusion(d) => d.writable(),
            ExtensionHeaderObject::GroupMutualExclusion(d) => d.writable(),
            ExtensionHeaderObject::StreamPrioritization(d) => d.writable(),
            ExtensionHeaderObject::BandwidthSharing(d) => d.writable(),
            ExtensionHeaderObject::LanguageList(d) => d.writable(),
            ExtensionHeaderObject::Metadata(d) => d.writable(),
            ExtensionHeaderObject::MetadataLibrary(d) => d.writable(),
            ExtensionHeaderObject::IndexParameters(d) => d.writable(),
            ExtensionHeaderObject::MediaObjectIndexParameters(d) => d.writable(),
            ExtensionHeaderObject::TimecodeIndexParameters(d) => d.writable(),
            ExtensionHeaderObject::Compatibility(d) => d.writable(),
            ExtensionHeaderObject::AdvancedContentEncryption(d) => d.writable(),
            ExtensionHeaderObject::Unknown(_) => true,
        }
    }

    /// How the decoded value relates to the body it was decoded from: a
    /// typed body decoder may leave bytes at the end of the body unread.
    pub open spec fn body_matches(&self, body: Seq<u8>) -> bool {
        match self {
            ExtensionHeaderObject::ExtendedStreamProperties(d) => d.head_bytes().is_prefix_of(body)
                && (d.stream_properties_object is None ==> body == d.spec_bytes())
                && (body.len() == d.spec_bytes().len()
                    && body.skip(d.head_bytes().len() as int).take(16) == guid_to_wire(STREAM_PROPERTIES_OBJECT)
                    ==> body == d.spec_bytes()),
            ExtensionHeaderObject::AdvancedMutualExclusion(d) => d.spec_bytes().is_prefix_of(body),
            ExtensionHeaderObject::GroupMutualExclusion(d) => d.spec_bytes().is_prefix_of(body),
            ExtensionHeaderObject::StreamPrioritization(d) => d.spec_bytes().is_prefix_of(body),
            ExtensionHeaderObject::BandwidthSharing(d) => d.spec_bytes().is_prefix_of(body),
            ExtensionHeaderObject::LanguageList(d) => d.spec_bytes().is_prefix_of(body),
            ExtensionHeaderObject::Metadata(d) => d.spec_bytes().is_prefix_of(body),
            ExtensionHeaderObject::MetadataLibrary(d) => d.spec_bytes().is_prefix_of(body),
            ExtensionHeaderObject::IndexParameters(d) => d.spec_bytes().is_prefix_of(body),
            ExtensionHeaderObject::MediaObjectIndexParameters(d) => d.spec_bytes().is_prefix_of(body),
            ExtensionHeaderObject::TimecodeIndexParameters(d) => d.spec_bytes().is_prefix_of(body),
            ExtensionHeaderObject::Compatibility(d) => d.spec_bytes().is_prefix_of(body),
            ExtensionHeaderObject::AdvancedContentEncryption(d) => d.spec_bytes().is_prefix_of(body),
            ExtensionHeaderObject::Unknown(o) => body == o.data.bytes(),
        }
    }

    /// The body is all the decoder read, its padding is zeros and a nested
    /// stream properties object carries its own GUID: then `write` gives it back.
    pub open spec fn body_exact(&self, body: Seq<u8>) -> bool {
        &&& body.len() == self.body_bytes().len()
        &&& (self matches ExtensionHeaderObject::ExtendedStreamProperties(d) ==> body.skip(d.head_bytes().len() as int).take(16) == guid_to_wire(STREAM_PROPERTIES_OBJECT))
    }

    /// `frame` is a whole object that decodes to this value.
    pub open spec fn frame_matches(&self, frame: Seq<u8>) -> bool {
        &&& object_frame_ok(frame)
        &&& frame_size(frame) == frame.len()
        &&& frame.take(16) == guid_to_wire(self.spec_guid())
        &&& (self is Unknown <==> !known_extension_guid(self.spec_guid()))
        &&& self.body_matches(frame.skip(24))
        &&& self.writable()
        &&& self.spec_bytes().len() <= frame.len()
    }

    /// Frames one object and decodes its body by its GUID; an unknown GUID
    /// gives `Unknown` with the body as it stands.
    #[verifier::rlimit(80)]
    pub fn parse(input: Span<'a>) -> (r: Result<(Span<'a>, ExtensionHeaderObject<'a>), Error>)
        ensures
            r matches Ok((rest, v)) ==> splits(input, input.bytes().take(input.bytes().len() - rest.bytes().len()), rest)
                && v.frame_matches(input.bytes().take(input.bytes().len() - rest.bytes().len())),
            r matches Err(e) ==> e.kind == ErrorKind::Eof,
            !object_frame_ok(input.bytes()) ==> r is Err,
            object_frame_ok(input.bytes()) && !known_extension_guid(guid_from_wire(input.bytes().take(16))) ==> r is Ok,
            object_frame_ok(input.bytes()) && guid_from_wire(input.bytes().take(16)) == ADVANCED_MUTUAL_EXCLUSION_OBJECT
                && decodable::<AdvancedMutualExclusionData>(input.bytes().subrange(24, frame_size(input.bytes()))) ==> r is Ok,
            object_frame_ok(input.bytes()) && guid_from_wire(input.bytes().take(16)) == GROUP_MUTUAL_EXCLUSION_OBJECT
                && decodable::<GroupMutualExclusionData>(input.bytes().subrange(24, frame_size(input.bytes()))) ==> r is Ok,
            object_frame_ok(input.bytes()) && guid_from_wire(input.bytes().take(16)) == STREAM_PRIORITIZATION_OBJECT
                && decodable::<StreamPrioritizationData>(input.bytes().subrange(24, frame_size(input.bytes()))) ==> r is Ok,
            object_frame_ok(input.bytes()) && guid_from_wire(input.bytes().take(16)) == BANDWIDTH_SHARING_OBJECT
                && decodable::<BandwidthSharingData>(input.bytes().subrange(24, frame_size(input.bytes()))) ==> r is Ok,
            object_frame_ok(input.bytes()) && guid_from_wire(input.bytes().take(16)) == LANGUAGE_LIST_OBJECT
                && decodable::<LanguageListData>(input.bytes().subrange(24, frame_size(input.bytes()))) ==> r is Ok,
            object_frame_ok(input.bytes()) && guid_from_wire(input.bytes().take(16)) == METADATA_OBJECT
                && decodable::<MetadataData<'a>>(input.bytes().subrange(24, frame_size(input.bytes()))) ==> r is Ok,
            object_frame_ok(input.bytes()) && guid_from_wire(input.bytes().take(16)) == METADATA_LIBRARY_OBJECT
                && decodable::<MetadataLibraryData<'a>>(input.bytes().subrange(24, frame_size(input.bytes()))) ==> r is Ok,
            object_frame_ok(input.bytes()) && guid_from_wire(input.bytes().take(16)) == INDEX_PARAMETERS_OBJECT
                && decodable::<IndexParametersData>(input.bytes().subrange(24, frame_size(input.bytes()))) ==> r is Ok,
            object_frame_ok(input.bytes()) && guid_from_wire(input.bytes().take(16)) == MEDIA_OBJECT_INDEX_PARAMETERS_OBJECT
                && decodable::<MediaObjectIndexParametersData>(input.bytes().subrange(24, frame_size(input.bytes()))) ==> r is Ok,
            object_frame_ok(input.bytes()) && guid_from_wire(input.bytes().take(16)) == TIMECODE_INDEX_PARAMETERS_OBJECT
                && decodable::<TimecodeIndexParametersData>(input.bytes().subrange(24, frame_size(input.bytes()))) ==> r is Ok,
            object_frame_ok(input.bytes()) && guid_from_wire(input.bytes().take(16)) == COMPATIBILITY_OBJECT
                && decodable::<CompatibilityData>(input.bytes().subrange(24, frame_size(input.bytes()))) ==> r is Ok,
            object_frame_ok(input.bytes()) && guid_from_wire(input.bytes().take(16)) == ADVANCED_CONTENT_ENCRYPTION_OBJECT
                && decodable::<AdvancedContentEncryptionData<'a>>(input.bytes().subrange(24, frame_size(input.bytes()))) ==> r is Ok,
            r matches Ok((rest, v)) ==> (v matches ExtensionHeaderObject::Unknown(o) ==> within(o.data, input)
                && o.data.start() == input.start() + 24),
    {
        let (rest, o) = object(input)?;
        let ghost frame = input.bytes().take(input.bytes().len() - rest.bytes().len());
        proof {
            lemma_int_bytes_len();
            lemma_guid_value_round_trip(o.guid.0);
            assert(frame =~= o.spec_bytes());
            assert(frame.skip(24) =~= o.data.bytes());
            assert(frame.take(16) =~= guid_to_wire(o.guid.0));
            assert(frame.subrange(16, 24) =~= input.bytes().subrange(16, 24));
            assert(input.bytes().take(16) =~= frame.take(16));
            assert(input.bytes().subrange(24, frame_size(input.bytes())) =~= o.data.bytes());
        }
        let g = o.guid.0;
        if g == EXTENDED_STREAM_PROPERTIES_OBJECT {
            let (_, d) = match ExtendedStreamPropertiesData::parse(o.data) {
                Ok(x) => x,
                Err(e) => { return Err(e.add_context(Context::ExtensionHeaderObject)); },
            };
            proof {
                assert(o.data.bytes().take(d.head_bytes().len() as int) =~= d.head_bytes());
                lemma_guid_value_round_trip(STREAM_PROPERTIES_OBJECT);
                if d.stream_properties_object is None {
                    assert(d.spec_bytes() =~= d.head_bytes());
                }
            }
            Ok((rest, ExtensionHeaderObject::ExtendedStreamProperties(d)))
        } else if g == ADVANCED_MUTUAL_EXCLUSION_OBJECT {
            let (_, d) = match AdvancedMutualExclusionData::parse(o.data) {
                Ok(x) => x,
                Err(e) => {
                    proof {
                        if decodable::<AdvancedMutualExclusionData>(o.data.bytes()) {
                            let (w, t) = choose|w: AdvancedMutualExclusionData, t: Seq<u8>| #[trigger] encodes(o.data.bytes(), w, t);
                            assert(encodes(o.data.bytes(), w, t));
                        }
                    }
                    return Err(e.add_context(Context::ExtensionHeaderObject));
                },
            };
            proof {
                assert(o.data.bytes().take(d.spec_bytes().len() as int) =~= d.spec_bytes());
            }
            Ok((rest, ExtensionHeaderObject::AdvancedMutualExclusion(d)))
        } else if g == GROUP_MUTUAL_EXCLUSION_OBJECT {
            let (_, d) = match GroupMutualExclusionData::parse(o.data) {
                Ok(x) => x,
                Err(e) => {
                    proof {
                        if decodable::<GroupMutualExclusionData>(o.data.bytes()) {
                            let (w, t) = choose|w: GroupMutualExclusionData, t: Seq<u8>| #[trigger] encodes(o.data.bytes(), w, t);
                            assert(encodes(o.data.bytes(), w, t));
                        }
                    }
                    return Err(e.add_context(Context::ExtensionHeaderObject));
                },
            };
            proof {
                assert(o.data.bytes().take(d.spec_bytes().len() as int) =~= d.spec_bytes());
            }
            Ok((rest, ExtensionHeaderObject::GroupMutualExclusion(d)))
        } else if g == STREAM_PRIORITIZATION_OBJECT {
            let (_, d) = match StreamPrioritizationData::parse(o.data) {
                Ok(x) => x,
                Err(e) => {
                    proof {
                        if decodable::<StreamPrioritizationData>(o.data.bytes()) {
                            let (w, t) = choose|w: StreamPrioritizationData, t: Seq<u8>| #[trigger] encodes(o.data.bytes(), w, t);
                            assert(encodes(o.data.bytes(), w, t));
                        }
                    }
                    return Err(e.add_context(Context::ExtensionHeaderObject));
                },
            };
            proof {
                assert(o.data.bytes().take(d.spec_bytes().len() as int) =~= d.spec_bytes());
            }
            Ok((rest, ExtensionHeaderObject::StreamPrioritization(d)))
        } else if g == BANDWIDTH_SHARING_OBJECT {
            let (_, d) = match BandwidthSharingData::parse(o.data) {
                Ok(x) => x,
                Err(e) => {
                    proof {
                        if decodable::<BandwidthSharingData>(o.data.bytes()) {
                            let (w, t) = choose|w: BandwidthSharingData, t: Seq<u8>| #[trigger] encodes(o.data.bytes(), w, t);
                            assert(encodes(o.data.bytes(), w, t));
                        }
                    }
                    return Err(e.add_context(Context::ExtensionHeaderObject));
                },
            };
            proof {
                assert(o.data.bytes().take(d.spec_bytes().len() as int) =~= d.spec_bytes());
            }
            Ok((rest, ExtensionHeaderObject::BandwidthSharing(d)))
        } else if g == LANGUAGE_LIST_OBJECT {
            let (_, d) = match LanguageListData::parse(o.data) {
                Ok(x) => x,
                Err(e) => {
                    proof {
                        if decodable::<LanguageListData>(o.data.bytes()) {
                            let (w, t) = choose|w: LanguageListData, t: Seq<u8>| #[trigger] encodes(o.data.bytes(), w, t);
                            assert(encodes(o.data.bytes(), w, t));
                        }
                    }
                    return Err(e.add_context(Context::ExtensionHeaderObject));
                },
            };
            proof {
                assert(o.data.bytes().take(d.spec_bytes().len() as int) =~= d.spec_bytes());
            }
            Ok((rest, ExtensionHeaderObject::LanguageList(d)))
        } else if g == METADATA_OBJECT {
            let (_, d) = match MetadataData::parse(o.data) {
                Ok(x) => x,
                Err(e) => {
                    proof {
                        if decodable::<MetadataData<'a>>(o.data.bytes()) {
                            let (w, t) = choose|w: MetadataData<'a>, t: Seq<u8>| #[trigger] encodes(o.data.bytes(), w, t);
                            assert(encodes(o.data.bytes(), w, t));
                        }
                    }
                    return Err(e.add_context(Context::ExtensionHeaderObject));
                },
            };
            proof {
                assert(o.data.bytes().take(d.spec_bytes().len() as int) =~= d.spec_bytes());
            }
            Ok((rest, ExtensionHeaderObject::Metadata(d)))
        } else if g == METADATA_LIBRARY_OBJECT {
            let (_, d) = match MetadataLibraryData::parse(o.data) {
                Ok(x) => x,
                Err(e) => {
                    proof {
                        if decodable::<MetadataLibraryData<'a>>(o.data.bytes()) {
                            let (w, t) = choose|w: MetadataLibraryData<'a>, t: Seq<u8>| #[trigger] encodes(o.data.bytes(), w, t);
                            assert(encodes(o.data.bytes(), w, t));
                        }
                    }
                    return Err(e.add_context(Context::ExtensionHeaderObject));
                },
            };
            proof {
                assert(o.data.bytes().take(d.spec_bytes().len() as int) =~= d.spec_bytes());
            }
            Ok((rest, ExtensionHeaderObject::MetadataLibrary(d)))
        } else if g == INDEX_PARAMETERS_OBJECT {
            let (_, d) = match IndexParametersData::parse(o.data) {
                Ok(x) => x,
                Err(e) => {
                    proof {
                        if decodable::<IndexParametersData>(o.data.bytes()) {
                            let (w, t) = choose|w: IndexParametersData, t: Seq<u8>| #[trigger] encodes(o.data.bytes(), w, t);
                            assert(encodes(o.data.bytes(), w, t));
                        }
                    }
                    return Err(e.add_context(Context::ExtensionHeaderObject));
                },
            };
            proof {
                assert(o.data.bytes().take(d.spec_bytes().len() as int) =~= d.spec_bytes());
            }
            Ok((rest, ExtensionHeaderObject::IndexParameters(d)))
        } else if g == MEDIA_OBJECT_INDEX_PARAMETERS_OBJECT {
            let (_, d) = match MediaObjectIndexParametersData::parse(o.data) {
                Ok(x) => x,
                Err(e) => {
                    proof {
                        if decodable::<MediaObjectIndexParametersData>(o.data.bytes()) {
                            let (w, t) = choose|w: MediaObjectIndexParametersData, t: Seq<u8>| #[trigger] encodes(o.data.bytes(), w, t);
                            assert(encodes(o.data.bytes(), w, t));
                        }
                    }
                    return Err(e.add_context(Context::ExtensionHeaderObject));
                },
            };
            proof {
                assert(o.data.bytes().take(d.spec_bytes().len() as int) =~= d.spec_bytes());
            }
            Ok((rest, ExtensionHeaderObject::MediaObjectIndexParameters(d)))
        } else if g == TIMECODE_INDEX_PARAMETERS_OBJECT {
            let (_, d) = match TimecodeIndexParametersData::parse(o.data) {
                Ok(x) => x,
                Err(e) => {
                    proof {
                        if decodable::<TimecodeIndexParametersData>(o.data.bytes()) {
                            let (w, t) = choose|w: TimecodeIndexParametersData, t: Seq<u8>| #[trigger] encodes(o.data.bytes(), w, t);
                            assert(encodes(o.data.bytes(), w, t));
                        }
                    }
                    return Err(e.add_context(Context::ExtensionHeaderObject));
                },
            };
            proof {
                assert(o.data.bytes().take(d.spec_bytes().len() as int) =~= d.spec_bytes());
            }
            Ok((rest, ExtensionHeaderObject::TimecodeIndexParameters(d)))
        } else if g == COMPATIBILITY_OBJECT {
            let (_, d) = match CompatibilityData::parse(o.data) {
                Ok(x) => x,
                Err(e) => {
                    proof {
                        if decodable::<CompatibilityData>(o.data.bytes()) {
                            let (w, t) = choose|w: CompatibilityData, t: Seq<u8>| #[trigger] encodes(o.data.bytes(), w, t);
                            assert(encodes(o.data.bytes(), w, t));
                        }
                    }
                    return Err(e.add_context(Context::ExtensionHeaderObject));
                },
            };
            proof {
                assert(o.data.bytes().take(d.spec_bytes().len() as int) =~= d.spec_bytes());
            }
            Ok((rest, ExtensionHeaderObject::Compatibility(d)))
        } else if g == ADVANCED_CONTENT_ENCRYPTION_OBJECT {
            let (_, d) = match AdvancedContentEncryptionData::parse(o.data) {
                Ok(x) => x,
                Err(e) => {
                    proof {
                        if decodable::<AdvancedContentEncryptionData<'a>>(o.data.bytes()) {
                            let (w, t) = choose|w: AdvancedContentEncryptionData<'a>, t: Seq<u8>| #[trigger] encodes(o.data.bytes(), w, t);
                            assert(encodes(o.data.bytes(), w, t));
                        }
                    }
                    return Err(e.add_context(Context::ExtensionHeaderObject));
                },
            };
            proof {
                assert(o.data.bytes().take(d.spec_bytes().len() as int) =~= d.spec_bytes());
            }
            Ok((rest, ExtensionHeaderObject::AdvancedContentEncryption(d)))
        } else {
            Ok((rest, ExtensionHeaderObject::Unknown(o)))
        }
    }

    /// Decodes objects one after another until one does not decode; what is
    /// left is returned.
    pub fn parse_many(input: Span<'a>) -> (r: (Span<'a>, Vec<ExtensionHeaderObject<'a>>))
        ensures
            exists|frames: Seq<Seq<u8>>| #[trigger] extension_header_object_list_decodes(r.1@, frames, input, r.0),
            object_frame_ok(r.0.bytes()) ==> known_extension_guid(guid_from_wire(r.0.bytes().take(16))),
    {
        let mut objects: Vec<ExtensionHeaderObject<'a>> = Vec::new();
        let mut cur = input;
        let ghost mut frames: Seq<Seq<u8>> = Seq::empty();
        proof {
            assert(input.bytes() =~= frames_bytes(frames) + cur.bytes());
        }
        loop
            invariant
                frames.len() == objects@.len(),
                forall|i: int| 0 <= i < frames.len() ==> (#[trigger] objects@[i]).frame_matches(frames[i]),
                splits(input, frames_bytes(frames), cur),
            decreases cur.bytes().len(),
        {
            match Self::parse(cur) {
                Ok((next, v)) => {
                    let ghost frame = cur.bytes().take(cur.bytes().len() - next.bytes().len());
                    proof {
                        lemma_splits_chain(input, frames_bytes(frames), cur, frame, next);
                        assert(frames.push(frame).drop_last() =~= frames);
                        assert(frame.len() >= 24);
                    }
                    objects.push(v);
                    proof {
                        frames = frames.push(frame);
                    }
                    cur = next;
                },
                Err(_) => {
                    let r = (cur, objects);
                    proof {
                        assert(extension_header_object_list_decodes(r.1@, frames, input, r.0));
                    }
                    return r;
                },
            }
        }
    }
}

impl<'a> ExtensionHeaderObject<'a> {
    /// The number of bytes `write` emits, computed without writing.
    pub fn size_of(&self) -> (r: usize)
        requires
            self.spec_bytes().len() <= usize::MAX,
        ensures
            r == self.spec_bytes().len(),
    {
        proof {
            lemma_int_bytes_len();
            lemma_guid_value_round_trip(self.spec_guid());
        }
        let body: usize = match self {
            ExtensionHeaderObject::ExtendedStreamProperties(d) => d.size_of(),
            ExtensionHeaderObject::AdvancedMutualExclusion(d) => d.size_of(),
            ExtensionHeaderObject::GroupMutualExclusion(d) => d.size_of(),
            ExtensionHeaderObject::StreamPrioritization(d) => d.size_of(),
            ExtensionHeaderObject::BandwidthSharing(d) => d.size_of(),
            ExtensionHeaderObject::LanguageList(d) => d.size_of(),
            ExtensionHeaderObject::Metadata(d) => d.size_of(),
            ExtensionHeaderObject::MetadataLibrary(d) => d.size_of(),
            ExtensionHeaderObject::IndexParameters(d) => d.size_of(),
            ExtensionHeaderObject::MediaObjectIndexParameters(d) => d.size_of(),
            ExtensionHeaderObject::TimecodeIndexParameters(d) => d.size_of(),
            ExtensionHeaderObject::Compatibility(d) => d.size_of(),
            ExtensionHeaderObject::AdvancedContentEncryption(d) => d.size_of(),
            ExtensionHeaderObject::Unknown(o) => o.data.len(),
        };
        24 + body
    }

    /// Appends the wire form to `w`; fails when a length overflows its prefix.
    pub fn write(&self, w: &mut Vec<u8>) -> (r: Result<(), WriteError>)
        requires
            self.spec_bytes().len() <= usize::MAX,
        ensures
            r is Ok <==> self.writable(),
            r is Ok ==> final(w)@ == old(w)@ + self.spec_bytes(),
    {
        proof {
            lemma_int_bytes_len();
            lemma_guid_value_round_trip(self.spec_guid());
        }
        let body_len = self.size_of() - 24;
        if body_len as u64 > u64::MAX - 24 {
            return Err(WriteError::FieldTooLarge);
        }
        let ghost frame = frame_bytes(self.spec_guid(), self.body_bytes().len());
        match self {
            ExtensionHeaderObject::ExtendedStreamProperties(d) => {
                write_guid(w, Guid(EXTENDED_STREAM_PROPERTIES_OBJECT));
                write_u64(w, 24 + body_len as u64);
                proof {
                    lemma_concat_associative(old(w)@, guid_to_wire(self.spec_guid()), spec_u64_to_le_bytes((24 + body_len) as u64));
                }
                d.write(w)?;
            },
            ExtensionHeaderObject::AdvancedMutualExclusion(d) => {
                write_guid(w, Guid(ADVANCED_MUTUAL_EXCLUSION_OBJECT));
                write_u64(w, 24 + body_len as u64);
                proof {
                    lemma_concat_associative(old(w)@, guid_to_wire(self.spec_guid()), spec_u64_to_le_bytes((24 + body_len) as u64));
                }
                d.write(w)?;
            },
            ExtensionHeaderObject::GroupMutualExclusion(d) => {
                write_guid(w, Guid(GROUP_MUTUAL_EXCLUSION_OBJECT));
                write_u64(w, 24 + body_len as u64);
                proof {
                    lemma_concat_associative(old(w)@, guid_to_wire(self.spec_guid()), spec_u64_to_le_bytes((24 + body_len) as u64));
                }
                d.write(w)?;
            },
            ExtensionHeaderObject::StreamPrioritization(d) => {
                write_guid(w, Guid(STREAM_PRIORITIZATION_OBJECT));
                write_u64(w, 24 + body_len as u64);
                proof {
                    lemma_concat_associative(old(w)@, guid_to_wire(self.spec_guid()), spec_u64_to_le_bytes((24 + body_len) as u64));
                }
                d.write(w)?;
            },
            ExtensionHeaderObject::BandwidthSharing(d) => {
                write_guid(w, Guid(BANDWIDTH_SHARING_OBJECT));
                write_u64(w, 24 + body_len as u64);
                proof {
                    lemma_concat_associative(old(w)@, guid_to_wire(self.spec_guid()), spec_u64_to_le_bytes((24 + body_len) as u64));
                }
                d.write(w)?;
            },
            ExtensionHeaderObject::LanguageList(d) => {
                write_guid(w, Guid(LANGUAGE_LIST_OBJECT));
                write_u64(w, 24 + body_len as u64);
                proof {
                    lemma_concat_associative(old(w)@, guid_to_wire(self.spec_guid()), spec_u64_to_le_bytes((24 + body_len) as u64));
                }
                d.write(w)?;
            },
            ExtensionHeaderObject::Metadata(d) => {
                write_guid(w, Guid(METADATA_OBJECT));
                write_u64(w, 24 + body_len as u64);
                proof {
                    lemma_concat_associative(old(w)@, guid_to_wire(self.spec_guid()), spec_u64_to_le_bytes((24 + body_len) as u64));
                }
                d.write(w)?;
            },
            ExtensionHeaderObject::MetadataLibrary(d) => {
                write_guid(w, Guid(METADATA_LIBRARY_OBJECT));
                write_u64(w, 24 + body_len as u64);
                proof {
                    lemma_concat_associative(old(w)@, guid_to_wire(self.spec_guid()), spec_u64_to_le_bytes((24 + body_len) as u64));
                }
                d.write(w)?;
            },
            ExtensionHeaderObject::IndexParameters(d) => {
                write_guid(w, Guid(INDEX_PARAMETERS_OBJECT));
                write_u64(w, 24 + body_len as u64);
                proof {
                    lemma_concat_associative(old(w)@, guid_to_wire(self.spec_guid()), spec_u64_to_le_bytes((24 + body_len) as u64));
                }
                d.write(w)?;
            },
            ExtensionHeaderObject::MediaObjectIndexParameters(d) => {
                write_guid(w, Guid(MEDIA_OBJECT_INDEX_PARAMETERS_OBJECT));
                write_u64(w, 24 + body_len as u64);
                proof {
                    lemma_concat_associative(old(w)@, guid_to_wire(self.spec_guid()), spec_u64_to_le_bytes((24 + body_len) as u64));
                }
                d.write(w)?;
            },
            ExtensionHeaderObject::TimecodeIndexParameters(d) => {
                write_guid(w, Guid(TIMECODE_INDEX_PARAMETERS_OBJECT));
                write_u64(w, 24 + body_len as u64);
                proof {
                    lemma_concat_associative(old(w)@, guid_to_wire(self.spec_guid()), spec_u64_to_le_bytes((24 + body_len) as u64));
                }
                d.write(w)?;
            },
            ExtensionHeaderObject::Compatibility(d) => {
                write_guid(w, Guid(COMPATIBILITY_OBJECT));
                write_u64(w, 24 + body_len as u64);
                proof {
                    lemma_concat_associative(old(w)@, guid_to_wire(self.spec_guid()), spec_u64_to_le_bytes((24 + body_len) as u64));
                }
                d.write(w)?;
            },
            ExtensionHeaderObject::AdvancedContentEncryption(d) => {
                write_guid(w, Guid(ADVANCED_CONTENT_ENCRYPTION_OBJECT));
                write_u64(w, 24 + body_len as u64);
                proof {
                    lemma_concat_associative(old(w)@, guid_to_wire(self.spec_guid()), spec_u64_to_le_bytes((24 + body_len) as u64));
                }
                d.write(w)?;
            },
            ExtensionHeaderObject::Unknown(o) => {
                write_guid(w, o.guid);
                write_u64(w, 24 + body_len as u64);
                proof {
                    lemma_concat_associative(old(w)@, guid_to_wire(self.spec_guid()), spec_u64_to_le_bytes((24 + body_len) as u64));
                }
                write_bytes(w, o.data.fragment());
            },
        }
        proof {
            lemma_concat_associative(old(w)@, frame, self.body_bytes());
        }
        Ok(())
    }
}

impl<'a> Wire for ExtensionHeaderObject<'a> {
    open spec fn spec_bytes(&self) -> Seq<u8> {
        frame_bytes(self.spec_guid(), self.body_bytes().len()) + self.body_bytes()
    }

    open spec fn writable(&self) -> bool {
        self.body_writable() && 24 + self.body_bytes().len() <= u64::MAX
    }

    fn size_of(&self) -> (r: usize) {
        Self::size_of(self)
    }

    fn write(&self, w: &mut Vec<u8>) -> (r: Result<(), WriteError>) {
        Self::write(self, w)
    }
}

/// Writing a value decoded from a whole object frame gives the frame back,
/// when the body decoder read the whole body, padding is zeros and a nested
/// stream properties object carries its own GUID.
pub proof fn lemma_extension_header_object_round_trip(frame: Seq<u8>, v: ExtensionHeaderObject)
    requires
        v.frame_matches(frame),
        v.body_exact(frame.skip(24)),
    ensures
        v.spec_bytes() == frame,
{
    lemma_int_bytes_len();
    lemma_guid_value_round_trip(v.spec_guid());
    vstd::bytes::lemma_auto_spec_u64_to_from_le_bytes();
    let body = frame.skip(24);
    assert(body =~= v.body_bytes()) by {
        match v {
            ExtensionHeaderObject::AdvancedMutualExclusion(d) => {
                assert(d.spec_bytes() =~= body.take(d.spec_bytes().len() as int));
            },
            ExtensionHeaderObject::GroupMutualExclusion(d) => {
                assert(d.spec_bytes() =~= body.take(d.spec_bytes().len() as int));
            },
            ExtensionHeaderObject::StreamPrioritization(d) => {
                assert(d.spec_bytes() =~= body.take(d.spec_bytes().len() as int));
            },
            ExtensionHeaderObject::BandwidthSharing(d) => {
                assert(d.spec_bytes() =~= body.take(d.spec_bytes().len() as int));
            },
            ExtensionHeaderObject::LanguageList(d) => {
                assert(d.spec_bytes() =~= body.take(d.spec_bytes().len() as int));
            },
            ExtensionHeaderObject::Metadata(d) => {
                assert(d.spec_bytes() =~= body.take(d.spec_bytes().len() as int));
            },
            ExtensionHeaderObject::MetadataLibrary(d) => {
                assert(d.spec_bytes() =~= body.take(d.spec_bytes().len() as int));
            },
            ExtensionHeaderObject::IndexParameters(d) => {
                assert(d.spec_bytes() =~= body.take(d.spec_bytes().len() as int));
            },
            ExtensionHeaderObject::MediaObjectIndexParameters(d) => {
                assert(d.spec_bytes() =~= body.take(d.spec_bytes().len() as int));
            },
            ExtensionHeaderObject::TimecodeIndexParameters(d) => {
                assert(d.spec_bytes() =~= body.take(d.spec_bytes().len() as int));
            },
            ExtensionHeaderObject::Compatibility(d) => {
                assert(d.spec_bytes() =~= body.take(d.spec_bytes().len() as int));
            },
            ExtensionHeaderObject::AdvancedContentEncryption(d) => {
                assert(d.spec_bytes() =~= body.take(d.spec_bytes().len() as int));
            },
            _ => {},
        }
    }
    assert(frame.subrange(16, 24) =~= spec_u64_to_le_bytes(frame.len() as u64));
    assert(frame =~= frame.take(16) + frame.subrange(16, 24) + body);
}
/// Writing objects decoded from whole frames, each read in full, gives the
/// frames back one after the other.
pub proof fn lemma_extension_header_object_list_round_trip(objs: Seq<ExtensionHeaderObject>, frames: Seq<Seq<u8>>)
    requires
        objs.len() == frames.len(),
        forall|i: int| 0 <= i < objs.len() ==> (#[trigger] objs[i]).frame_matches(frames[i]),
        forall|i: int| 0 <= i < objs.len() ==> (#[trigger] objs[i]).body_exact(frames[i].skip(24)),
    ensures
        seq_bytes(objs) == frames_bytes(frames),
    decreases objs.len(),
{
    if objs.len() > 0 {
        let n = objs.len() - 1;
        lemma_extension_header_object_list_round_trip(objs.drop_last(), frames.drop_last());
        lemma_extension_header_object_round_trip(frames[n], objs[n]);
    }
}
/// The header extension object: two reserved fields, then the extension
/// objects, behind a 32-bit byte count.
#[derive(Debug, PartialEq, Eq)]
pub struct HeaderExtensionData<'a> {
    pub reserved_1: Guid,
    pub reserved_2: u16,
    pub extension_objects: Vec<ExtensionHeaderObject<'a>>,
}

/// The byte count a header extension body declares for its objects.
pub open spec fn declared_extension_size(b: Seq<u8>) -> int {
    spec_u32_from_le_bytes(b.subrange(18, 22)) as int
}

impl<'a> HeaderExtensionData<'a> {
    /// `b` is a body that decodes to this value, the extension objects coming
    /// from the whole frames `frames`.
    pub open spec fn decodes_with(&self, b: Seq<u8>, frames: Seq<Seq<u8>>) -> bool {
        &&& 22 <= b.len()
        &&& b.take(16) == guid_to_wire(self.reserved_1.0)
        &&& b.subrange(16, 18) == spec_u16_to_le_bytes(self.reserved_2)
        &&& 22 + declared_extension_size(b) <= b.len()
        &&& frames.len() == self.extension_objects@.len()
        &&& forall|i: int| 0 <= i < frames.len() ==> (#[trigger] self.extension_objects@[i]).frame_matches(frames[i])
        &&& frames_bytes(frames).is_prefix_of(b.subrange(22, 22 + declared_extension_size(b)))
        &&& self.writable()
        &&& self.spec_bytes().len() <= b.len()
    }

    pub open spec fn decodes(&self, b: Seq<u8>) -> bool {
        exists|frames: Seq<Seq<u8>>| #[trigger] self.decodes_with(b, frames)
    }

    /// Every byte of the body was read, by this decoder and the nested ones.
    pub open spec fn exact_with(&self, b: Seq<u8>, frames: Seq<Seq<u8>>) -> bool {
        &&& b.len() == 22 + declared_extension_size(b)
        &&& frames_bytes(frames).len() == declared_extension_size(b)
        &&& forall|i: int| 0 <= i < frames.len() ==> (#[trigger] self.extension_objects@[i]).body_exact(frames[i].skip(24))
    }

    /// Decodes the reserved fields, then the extension objects in the
    /// declared number of bytes; bytes after them are left unread.
    pub fn parse(input: Span<'a>) -> (r: Result<(Span<'a>, HeaderExtensionData<'a>), Error>)
        ensures
            r matches Ok((rest, d)) ==> {
                &&& splits(input, input.bytes().take(input.bytes().len() - rest.bytes().len()), rest)
                &&& d.decodes(input.bytes())
            },
            r matches Err(e) ==> e.kind == ErrorKind::Eof,
            r is Ok <==> 22 <= input.bytes().len() && 22 + declared_extension_size(input.bytes()) <= input.bytes().len(),
    {
        proof {
            lemma_int_bytes_len();
            vstd::bytes::lemma_auto_spec_u32_to_from_le_bytes();
        }
        let (i1, reserved_1) = guid(input)?;
        proof {
            lemma_guid_value_round_trip(reserved_1.0);
        }
        let (i2, reserved_2) = read_u16(i1)?;
        let (i3, size) = read_u32(i2)?;
        proof {
            lemma_splits_chain(input, guid_to_wire(reserved_1.0), i1, spec_u16_to_le_bytes(reserved_2), i2);
            lemma_splits_chain(input, guid_to_wire(reserved_1.0) + spec_u16_to_le_bytes(reserved_2), i2, spec_u32_to_le_bytes(size), i3);
            assert(input.bytes().subrange(18, 22) =~= spec_u32_to_le_bytes(size));
        }
        let (i4, data) = take(i3, size as usize)?;
        let (mrest, extension_objects) = ExtensionHeaderObject::parse_many(data);
        let d = HeaderExtensionData { reserved_1, reserved_2, extension_objects };
        proof {
            lemma_int_bytes_len();
            lemma_guid_value_round_trip(reserved_1.0);
            vstd::bytes::lemma_auto_spec_u32_to_from_le_bytes();
            let b = input.bytes();
            lemma_splits_chain(input, guid_to_wire(reserved_1.0), i1, spec_u16_to_le_bytes(reserved_2), i2);
            lemma_splits_chain(input, guid_to_wire(reserved_1.0) + spec_u16_to_le_bytes(reserved_2), i2, spec_u32_to_le_bytes(size), i3);
            lemma_splits_chain(input, guid_to_wire(reserved_1.0) + spec_u16_to_le_bytes(reserved_2) + spec_u32_to_le_bytes(size), i3, data.bytes(), i4);
            assert(b.take(b.len() - i4.bytes().len()) =~= guid_to_wire(reserved_1.0) + spec_u16_to_le_bytes(reserved_2)
                + spec_u32_to_le_bytes(size) + data.bytes());
            assert(b.take(16) =~= guid_to_wire(reserved_1.0));
            assert(b.subrange(16, 18) =~= spec_u16_to_le_bytes(reserved_2));
            assert(b.subrange(18, 22) =~= spec_u32_to_le_bytes(size));
            assert(b.subrange(22, 22 + size) =~= data.bytes());
            let frames = choose|frames: Seq<Seq<u8>>| extension_header_object_list_decodes(d.extension_objects@, frames, data, mrest);
            assert(frames_bytes(frames) =~= data.bytes().take(frames_bytes(frames).len() as int));
            lemma_seq_bytes_within_frames(d.extension_objects@, frames);
            assert(all_writable(d.extension_objects@));
            assert(d.decodes_with(b, frames));
        }
        Ok((i4, d))
    }
}

impl<'a> HeaderExtensionData<'a> {
    /// The number of bytes `write` emits, computed without writing.
    pub fn size_of(&self) -> (r: usize)
        requires
            self.spec_bytes().len() <= usize::MAX,
        ensures
            r == self.spec_bytes().len(),
    {
        proof {
            lemma_int_bytes_len();
            lemma_guid_value_round_trip(self.reserved_1.0);
        }
        22 + size_of_seq(&self.extension_objects)
    }

    /// Appends the wire form to `w`; fails when a length overflows its prefix.
    pub fn write(&self, w: &mut Vec<u8>) -> (r: Result<(), WriteError>)
        requires
            self.spec_bytes().len() <= usize::MAX,
        ensures
            r is Ok <==> self.writable(),
            r is Ok ==> final(w)@ == old(w)@ + self.spec_bytes(),
    {
        proof {
            lemma_int_bytes_len();
            lemma_guid_value_round_trip(self.reserved_1.0);
        }
        let size = size_of_seq(&self.extension_objects);
        if size > 0xffff_ffff {
            return Err(WriteError::FieldTooLarge);
        }
        write_guid(w, self.reserved_1);
        write_u16(w, self.reserved_2);
        proof {
            lemma_concat_associative(old(w)@, guid_to_wire(self.reserved_1.0), spec_u16_to_le_bytes(self.reserved_2));
        }
        write_u32(w, size as u32);
        proof {
            lemma_concat_associative(old(w)@, guid_to_wire(self.reserved_1.0) + spec_u16_to_le_bytes(self.reserved_2), spec_u32_to_le_bytes(size as u32));
        }
        write_seq(&self.extension_objects, w)?;
        proof {
            lemma_concat_associative(old(w)@, guid_to_wire(self.reserved_1.0) + spec_u16_to_le_bytes(self.reserved_2)
                + spec_u32_to_le_bytes(size as u32), seq_bytes(self.extension_objects@));
        }
        Ok(())
    }
}

impl<'a> Wire for HeaderExtensionData<'a> {
    open spec fn spec_bytes(&self) -> Seq<u8> {
        guid_to_wire(self.reserved_1.0)
            + spec_u16_to_le_bytes(self.reserved_2)
            + spec_u32_to_le_bytes(seq_bytes(self.extension_objects@).len() as u32)
            + seq_bytes(self.extension_objects@)
    }

    open spec fn writable(&self) -> bool {
        &&& all_writable(self.extension_objects@)
        &&& seq_bytes(self.extension_objects@).len() <= 0xffff_ffff
    }

    fn size_of(&self) -> (r: usize) {
        Self::size_of(self)
    }

    fn write(&self, w: &mut Vec<u8>) -> (r: Result<(), WriteError>) {
        Self::write(self, w)
    }
}

/// Writing a header extension decoded from a body that was read in full,
/// nested objects included, gives the body back.
pub proof fn lemma_header_extension_round_trip(d: HeaderExtensionData, b: Seq<u8>, frames: Seq<Seq<u8>>)
    requires
        d.decodes_with(b, frames),
        d.exact_with(b, frames),
    ensures
        d.spec_bytes() == b,
{
    lemma_int_bytes_len();
    lemma_guid_value_round_trip(d.reserved_1.0);
    vstd::bytes::lemma_auto_spec_u32_to_from_le_bytes();
    lemma_extension_header_object_list_round_trip(d.extension_objects@, frames);
    let n = declared_extension_size(b);
    assert(frames_bytes(frames) =~= b.subrange(22, 22 + n));
    assert(spec_u32_to_le_bytes(n as u32) == b.subrange(18, 22));
    assert(b =~= b.take(16) + b.subrange(16, 18) + b.subrange(18, 22) + b.subrange(22, 22 + n));
}

} // verus!
