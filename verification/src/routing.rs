//! Reading the names a client asks for: a track resource such as `video_<id>`,
//! and the start time a media segment's file name carries.

use vstd::prelude::*;

use crate::charseq::{
    chars_of, concat, copy_range, decimal, find_last, last_index, parse_u64, parse_u64_spec,
    push_decimal, spells, string_of,
};
use crate::cmaf::{fits_until, range_starting_at, segment_range, ByteRange, CmafHeader};
use crate::error::ServerError;

verus! {

/// The kind of track a resource names.
#[derive(Debug, Clone, Copy, PartialEq, Eq, Structural)]
pub enum ContentType {
    Video,
    Audio,
    Text,
    Image,
}

/// The content type `name` stands for.
pub open spec fn content_type_named(name: Seq<char>) -> Option<ContentType> {
    if name == "video"@ {
        Some(ContentType::Video)
    } else if name == "audio"@ {
        Some(ContentType::Audio)
    } else if name == "text"@ {
        Some(ContentType::Text)
    } else if name == "image"@ {
        Some(ContentType::Image)
    } else {
        None
    }
}

/// What `track_resource` reads out of `resource`: split at its last `_`, a known
/// content type before it and a non-empty track id after it.
pub open spec fn track_resource_of(resource: Seq<char>) -> Option<(ContentType, Seq<char>)> {
    match last_index(resource, '_') {
        None => None,
        Some(i) => match content_type_named(resource.take(i)) {
            None => None,
            Some(kind) => if resource.skip(i + 1).len() > 0 {
                Some((kind, resource.skip(i + 1)))
            } else {
                None
            },
        },
    }
}

fn content_type(name: &[char]) -> (r: Option<ContentType>)
    ensures
        r == content_type_named(name@),
{
    if spells(name, "video") {
        Some(ContentType::Video)
    } else if spells(name, "audio") {
        Some(ContentType::Audio)
    } else if spells(name, "text") {
        Some(ContentType::Text)
    } else if spells(name, "image") {
        Some(ContentType::Image)
    } else {
        None
    }
}

/// The content type and track id of a resource named `<type>_<id>`, split at the
/// last `_`. `None` where there is no `_`, the type is unknown or the id empty.
pub fn track_resource(resource: &str) -> (r: Option<(ContentType, String)>)
    ensures
        r matches Some((kind, id)) ==> track_resource_of(resource@) == Some((kind, id@)),
        r is None ==> track_resource_of(resource@) is None,
{
    let chars = chars_of(resource);
    let split = match find_last(chars.as_slice(), '_') {
        Some(i) => i,
        None => return None,
    };
    let name = copy_range(chars.as_slice(), 0, split);
    let kind = match content_type(name.as_slice()) {
        Some(kind) => kind,
        None => {
            proof {
                assert(name@ =~= resource@.take(split as int));
            }
            return None;
        },
    };
    proof {
        assert(split < chars@.len());
        assert(chars@.len() == chars.len());
    }
    let id = copy_range(chars.as_slice(), split + 1, chars.len());
    proof {
        assert(name@ =~= resource@.take(split as int));
        assert(id@ =~= resource@.skip(split + 1));
    }
    if id.len() == 0 {
        return None;
    }
    Some((kind, string_of(id.as_slice())))
}

/// The start time a media segment's file name carries: `name` as a `u64` in
/// decimal, or [`ServerError::NotFound`] naming `file` where it is not one.
pub fn segment_time(name: &str, file: &str) -> (r: Result<u64, ServerError>)
    ensures
        parse_u64_spec(name@) matches Some(t) ==> r matches Ok(v) && v == t,
        parse_u64_spec(name@) is None ==> (r matches Err(ServerError::NotFound(m)) && m@ == file@),
{
    let chars = chars_of(name);
    match parse_u64(chars.as_slice()) {
        Some(t) => Ok(t),
        None => {
            let named = chars_of(file);
            Err(ServerError::NotFound(string_of(named.as_slice())))
        },
    }
}

/// `name` split at its last `.`: the stem and the extension.
pub open spec fn extension_split(name: Seq<char>) -> Option<(Seq<char>, Seq<char>)> {
    match last_index(name, '.') {
        None => None,
        Some(i) => Some((name.take(i), name.skip(i + 1))),
    }
}

/// Splits a file name at its last `.` into its stem and extension; `None` where
/// it has no `.`.
pub fn split_extension(name: &str) -> (r: Option<(String, String)>)
    ensures
        r matches Some((stem, ext)) ==> extension_split(name@) == Some((stem@, ext@)),
        r is None ==> extension_split(name@) is None,
{
    let chars = chars_of(name);
    match find_last(chars.as_slice(), '.') {
        None => None,
        Some(i) => {
            proof {
                assert(chars@.len() == chars.len());
            }
            let stem = copy_range(chars.as_slice(), 0, i);
            let ext = copy_range(chars.as_slice(), i + 1, chars.len());
            proof {
                assert(stem@ =~= name@.take(i as int));
                assert(ext@ =~= name@.skip(i + 1));
            }
            Some((string_of(stem.as_slice()), string_of(ext.as_slice())))
        },
    }
}

/// What a manifest request asks for.
#[derive(Debug, Clone, PartialEq, Eq)]
pub enum ManifestRoute {
    /// The DASH manifest, `index.mpd`.
    Dash,
    /// The HLS master playlist, `master.m3u8`.
    HlsMaster,
    /// The HLS playlist of an image track, by its id.
    HlsImages(String),
    /// The HLS playlist of a video, audio or text track, by its id.
    HlsMedia(String),
}

/// What a manifest route is.
pub enum ManifestRouteView {
    Dash,
    HlsMaster,
    HlsImages(Seq<char>),
    HlsMedia(Seq<char>),
}

impl View for ManifestRoute {
    type V = ManifestRouteView;

    open spec fn view(&self) -> ManifestRouteView {
        match self {
            ManifestRoute::Dash => ManifestRouteView::Dash,
            ManifestRoute::HlsMaster => ManifestRouteView::HlsMaster,
            ManifestRoute::HlsImages(id) => ManifestRouteView::HlsImages(id@),
            ManifestRoute::HlsMedia(id) => ManifestRouteView::HlsMedia(id@),
        }
    }
}

/// The manifest a resource `<stem>.<extension>` names: `index.mpd`,
/// `master.m3u8`, or `<type>_<id>.m3u8` for one track.
pub open spec fn manifest_route_of(stem: Seq<char>, extension: Seq<char>) -> Option<ManifestRouteView> {
    if stem == "index"@ && extension == "mpd"@ {
        Some(ManifestRouteView::Dash)
    } else if stem == "master"@ && extension == "m3u8"@ {
        Some(ManifestRouteView::HlsMaster)
    } else if extension == "m3u8"@ {
        match track_resource_of(stem) {
            None => None,
            Some((ContentType::Image, id)) => Some(ManifestRouteView::HlsImages(id)),
            Some((_, id)) => Some(ManifestRouteView::HlsMedia(id)),
        }
    } else {
        None
    }
}

/// The manifest a resource `<stem>.<extension>` asks for, or `None` where it
/// names none.
pub fn manifest_route(stem: &str, extension: &str) -> (r: Option<ManifestRoute>)
    ensures
        r matches Some(route) ==> manifest_route_of(stem@, extension@) == Some(route@),
        r is None ==> manifest_route_of(stem@, extension@) is None,
{
    let s = chars_of(stem);
    let e = chars_of(extension);
    if spells(s.as_slice(), "index") && spells(e.as_slice(), "mpd") {
        return Some(ManifestRoute::Dash);
    }
    if spells(s.as_slice(), "master") && spells(e.as_slice(), "m3u8") {
        return Some(ManifestRoute::HlsMaster);
    }
    if !spells(e.as_slice(), "m3u8") {
        return None;
    }
    match track_resource(stem) {
        None => None,
        Some((ContentType::Image, id)) => Some(ManifestRoute::HlsImages(id)),
        Some((_, id)) => Some(ManifestRoute::HlsMedia(id)),
    }
}

/// What a track file request asks for.
#[derive(Debug, Clone, PartialEq, Eq)]
pub enum TrackFileRoute {
    /// The initialization segment, `init.mp4`.
    Initialization,
    /// The media segment starting at a time, `<time>.m4s`.
    Media(u64),
    /// A text track's cues starting at a time, as WebVTT, `<time>.vtt`.
    Text(u64),
    /// The thumbnail of a video track at a time, `<time>.jpg`.
    Thumbnail(u64),
}

/// A video, audio or text track.
pub open spec fn is_media(kind: ContentType) -> bool {
    kind is Video || kind is Audio || kind is Text
}

/// What a file `<stem>.<extension>` of a track of `kind` asks for, or why it
/// names nothing: a time that is not a decimal `u64`, or a file the track does not
/// have, both [`ServerError::NotFound`] naming `file`.
pub open spec fn track_file_route_of(kind: ContentType, stem: Seq<char>, extension: Seq<char>) -> Option<
    TrackFileRoute,
> {
    if is_media(kind) && stem == "init"@ && extension == "mp4"@ {
        Some(TrackFileRoute::Initialization)
    } else if is_media(kind) && extension == "m4s"@ {
        match parse_u64_spec(stem) {
            Some(t) => Some(TrackFileRoute::Media(t)),
            None => None,
        }
    } else if kind is Text && extension == "vtt"@ {
        match parse_u64_spec(stem) {
            Some(t) => Some(TrackFileRoute::Text(t)),
            None => None,
        }
    } else if kind is Video && extension == "jpg"@ {
        match parse_u64_spec(stem) {
            Some(t) => Some(TrackFileRoute::Thumbnail(t)),
            None => None,
        }
    } else {
        None
    }
}

/// The file `<stem>.<extension>` of a track of `kind` asks for: its
/// initialization segment, or the media segment, cues or thumbnail starting at
/// the time its stem gives. Anything else is [`ServerError::NotFound`] naming
/// `file`.
pub fn track_file_route(kind: ContentType, stem: &str, extension: &str, file: &str) -> (r: Result<
    TrackFileRoute,
    ServerError,
>)
    ensures
        track_file_route_of(kind, stem@, extension@) matches Some(route) ==> r == Ok::<
            TrackFileRoute,
            ServerError,
        >(route),
        track_file_route_of(kind, stem@, extension@) is None ==> (r matches Err(
            ServerError::NotFound(m),
        ) && m@ == file@),
{
    let s = chars_of(stem);
    let e = chars_of(extension);
    let media = match kind {
        ContentType::Video | ContentType::Audio | ContentType::Text => true,
        ContentType::Image => false,
    };
    let route = if media && spells(s.as_slice(), "init") && spells(e.as_slice(), "mp4") {
        Some(TrackFileRoute::Initialization)
    } else if media && spells(e.as_slice(), "m4s") {
        match segment_time(stem, file) {
            Ok(t) => Some(TrackFileRoute::Media(t)),
            Err(_) => None,
        }
    } else if kind == ContentType::Text && spells(e.as_slice(), "vtt") {
        match segment_time(stem, file) {
            Ok(t) => Some(TrackFileRoute::Text(t)),
            Err(_) => None,
        }
    } else if kind == ContentType::Video && spells(e.as_slice(), "jpg") {
        match segment_time(stem, file) {
            Ok(t) => Some(TrackFileRoute::Thumbnail(t)),
            Err(_) => None,
        }
    } else {
        None
    };
    match route {
        Some(route) => Ok(route),
        None => {
            let named = chars_of(file);
            Err(ServerError::NotFound(string_of(named.as_slice())))
        },
    }
}

/// The time a media segment file `<time>.m4s` names, if that is what `segment`
/// is.
pub open spec fn media_segment_time(segment: Seq<char>) -> Option<u64> {
    if segment.len() >= 4 && segment.skip(segment.len() - 4) == ".m4s"@ {
        parse_u64_spec(segment.take(segment.len() - 4))
    } else {
        None
    }
}

/// The bytes of a CMAF track the segment file `segment` resolves to:
/// `init.mp4` is the initialization data, `<time>.m4s` the media segment starting
/// at `time`. A time that does not parse is a [`ServerError::BadRequest`]; a time
/// no segment starts at, or any other name, a [`ServerError::NotFound`].
pub fn segment_file_range(segment: &str, header: &CmafHeader) -> (r: Result<ByteRange, ServerError>)
    requires
        media_segment_time(segment@) matches Some(t) ==> fits_until(
            header.segments@,
            header.earliest_presentation_time as int,
            t,
        ),
    ensures
        segment@ == "init.mp4"@ ==> r == Ok::<ByteRange, ServerError>(header.init_range),
        segment@ != "init.mp4"@ && segment@.len() >= 4 && segment@.skip(segment@.len() - 4)
            == ".m4s"@ ==> match parse_u64_spec(segment@.take(segment@.len() - 4)) {
            None => r matches Err(ServerError::BadRequest(m)) && m@ == "invalid segment time: "@
                + segment@,
            Some(t) => match range_starting_at(
                header.segments@,
                header.earliest_presentation_time as int,
                t,
            ) {
                Some(range) => r == Ok::<ByteRange, ServerError>(range),
                None => r matches Err(ServerError::NotFound(m)) && m@ == "no segment at time "@
                    + crate::charseq::decimal(t as nat),
            },
        },
        segment@ != "init.mp4"@ && !(segment@.len() >= 4 && segment@.skip(segment@.len() - 4)
            == ".m4s"@) ==> (r matches Err(ServerError::NotFound(m)) && m@ == "unknown segment: "@
            + segment@),
{
    let chars = chars_of(segment);
    if spells(chars.as_slice(), "init.mp4") {
        return Ok(header.init_range);
    }
    let n = chars.len();
    let suffix = if n >= 4 {
        copy_range(chars.as_slice(), n - 4, n)
    } else {
        Vec::new()
    };
    if n >= 4 && spells(suffix.as_slice(), ".m4s") {
        let stem = copy_range(chars.as_slice(), 0, n - 4);
        proof {
            assert(suffix@ =~= segment@.skip(segment@.len() - 4));
            assert(stem@ =~= segment@.take(segment@.len() - 4));
        }
        match parse_u64(stem.as_slice()) {
            None => Err(ServerError::BadRequest(concat("invalid segment time: ", segment))),
            Some(time) => match segment_range(header, time) {
                Some(range) => Ok(range),
                None => {
                    let mut message = chars_of("no segment at time ");
                    let ghost front = message@;
                    push_decimal(&mut message, time);
                    Err(ServerError::NotFound(string_of(message.as_slice())))
                },
            },
        }
    } else {
        proof {
            if n >= 4 {
                assert(suffix@ =~= segment@.skip(segment@.len() - 4));
            }
        }
        Err(ServerError::NotFound(concat("unknown segment: ", segment)))
    }
}

/// A name with no `_` in it names no track resource.
proof fn lemma_no_underscore(s: Seq<char>)
    requires
        forall|k: int| 0 <= k < s.len() ==> #[trigger] s[k] != '_',
    ensures
        last_index(s, '_') is None,
    decreases s.len(),
{
    if s.len() > 0 {
        assert(s.last() == s[s.len() - 1]);
        assert forall|k: int| 0 <= k < s.drop_last().len() implies #[trigger] s.drop_last()[k]
            != '_' by {
            assert(s.drop_last()[k] == s[k]);
        }
        lemma_no_underscore(s.drop_last());
    }
}

/// A track's playlist `<type>_<id>.m3u8` is the image playlist of track `id`
/// exactly when the type is `image`, and the media playlist of track `id` when
/// it is `video`, `audio` or `text`; a stem that names no track resource names
/// no playlist.
pub proof fn track_playlists_follow_the_track_type(stem: Seq<char>)
    ensures
        track_resource_of(stem) matches Some((ContentType::Image, id)) ==> manifest_route_of(
            stem,
            "m3u8"@,
        ) == Some(ManifestRouteView::HlsImages(id)),
        track_resource_of(stem) matches Some((kind, id)) ==> (kind is Video || kind is Audio
            || kind is Text) ==> manifest_route_of(stem, "m3u8"@) == Some(
            ManifestRouteView::HlsMedia(id),
        ),
        manifest_route_of(stem, "m3u8"@) matches Some(ManifestRouteView::HlsImages(id))
            ==> track_resource_of(stem) == Some((ContentType::Image, id)),
        manifest_route_of(stem, "m3u8"@) matches Some(ManifestRouteView::HlsMedia(id))
            ==> track_resource_of(stem) matches Some((kind, i)) && kind !is Image && i == id,
        stem != "master"@ && track_resource_of(stem) is None ==> manifest_route_of(stem, "m3u8"@)
            is None,
{
    reveal_strlit("master");
    reveal_strlit("index");
    reveal_strlit("m3u8");
    reveal_strlit("mpd");
    assert("m3u8"@.len() != "mpd"@.len());
    assert forall|k: int| 0 <= k < "master"@.len() implies #[trigger] "master"@[k] != '_' by {}
    lemma_no_underscore("master"@);
}

/// Every video, audio and text track serves `<time>.m4s`, the media segment
/// starting at `time`, for every time written as a decimal `u64`, and
/// `init.mp4`, its initialization segment; a text track serves `<time>.vtt`, its
/// cues, and a video track `<time>.jpg`, its thumbnail; an image track serves
/// no file.
pub proof fn media_tracks_serve_their_segments(kind: ContentType, stem: Seq<char>, extension: Seq<char>)
    ensures
        kind !is Image ==> track_file_route_of(kind, stem, "m4s"@) == match parse_u64_spec(
            stem,
        ) {
            Some(t) => Some(TrackFileRoute::Media(t)),
            None => None,
        },
        kind !is Image ==> track_file_route_of(kind, "init"@, "mp4"@) == Some(
            TrackFileRoute::Initialization,
        ),
        kind is Text ==> track_file_route_of(kind, stem, "vtt"@) == match parse_u64_spec(stem) {
            Some(t) => Some(TrackFileRoute::Text(t)),
            None => None,
        },
        kind is Video ==> track_file_route_of(kind, stem, "jpg"@) == match parse_u64_spec(stem) {
            Some(t) => Some(TrackFileRoute::Thumbnail(t)),
            None => None,
        },
        kind is Image ==> track_file_route_of(kind, stem, extension) is None,
{
    reveal_strlit("m4s");
    reveal_strlit("mp4");
    reveal_strlit("vtt");
    reveal_strlit("jpg");
    assert("m4s"@[1] != "mp4"@[1]);
    assert("vtt"@[0] != "mp4"@[0] && "vtt"@[0] != "m4s"@[0]);
    assert("jpg"@[0] != "mp4"@[0] && "jpg"@[0] != "m4s"@[0] && "jpg"@[0] != "vtt"@[0]);
}

/// The last `_` of `prefix`, an `_` and then a text with no `_` in it is the one
/// after `prefix`.
proof fn lemma_last_underscore(prefix: Seq<char>, id: Seq<char>)
    requires
        forall|k: int| 0 <= k < id.len() ==> #[trigger] id[k] != '_',
    ensures
        last_index(prefix + seq!['_'] + id, '_') == Some(prefix.len() as int),
    decreases id.len(),
{
    let s = prefix + seq!['_'] + id;
    if id.len() == 0 {
        assert(s.last() == '_');
    } else {
        assert(s.last() == id[id.len() - 1]);
        assert(s.drop_last() =~= prefix + seq!['_'] + id.drop_last());
        assert forall|k: int| 0 <= k < id.drop_last().len() implies #[trigger] id.drop_last()[k]
            != '_' by {
            assert(id.drop_last()[k] == id[k]);
        }
        lemma_last_underscore(prefix, id.drop_last());
    }
}

/// Each content type answers to its own name and to no other, and a resource
/// `<type>_<id>` whose id is not empty and holds no `_` reads back as the track
/// `id` of that type.
pub proof fn track_resources_read_back(name: Seq<char>, id: Seq<char>)
    ensures
        content_type_named(name) == Some(ContentType::Video) <==> name == "video"@,
        content_type_named(name) == Some(ContentType::Audio) <==> name == "audio"@,
        content_type_named(name) == Some(ContentType::Text) <==> name == "text"@,
        content_type_named(name) == Some(ContentType::Image) <==> name == "image"@,
        id.len() > 0 && (forall|k: int| 0 <= k < id.len() ==> #[trigger] id[k] != '_') ==> {
            &&& track_resource_of("video"@ + "_"@ + id) == Some((ContentType::Video, id))
            &&& track_resource_of("audio"@ + "_"@ + id) == Some((ContentType::Audio, id))
            &&& track_resource_of("text"@ + "_"@ + id) == Some((ContentType::Text, id))
            &&& track_resource_of("image"@ + "_"@ + id) == Some((ContentType::Image, id))
        },
{
    reveal_strlit("video");
    reveal_strlit("audio");
    reveal_strlit("text");
    reveal_strlit("image");
    reveal_strlit("_");
    assert("video"@[0] != "audio"@[0] && "video"@[0] != "image"@[0] && "audio"@[0]
        != "image"@[0]);
    assert("text"@.len() == 4 && "video"@.len() == 5 && "audio"@.len() == 5 && "image"@.len()
        == 5);
    assert("_"@ =~= seq!['_']);
    if id.len() > 0 && (forall|k: int| 0 <= k < id.len() ==> #[trigger] id[k] != '_') {
        lemma_last_underscore("video"@, id);
        lemma_last_underscore("audio"@, id);
        lemma_last_underscore("text"@, id);
        lemma_last_underscore("image"@, id);
        assert(("video"@ + "_"@ + id).take(5) =~= "video"@);
        assert(("video"@ + "_"@ + id).skip(6) =~= id);
        assert(("audio"@ + "_"@ + id).take(5) =~= "audio"@);
        assert(("audio"@ + "_"@ + id).skip(6) =~= id);
        assert(("text"@ + "_"@ + id).take(4) =~= "text"@);
        assert(("text"@ + "_"@ + id).skip(5) =~= id);
        assert(("image"@ + "_"@ + id).take(5) =~= "image"@);
        assert(("image"@ + "_"@ + id).skip(6) =~= id);
    }
}

} // verus!
