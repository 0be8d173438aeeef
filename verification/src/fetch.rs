//! The steps of fetching a video's danmakus, subtitles and audio: each takes
//! what a request brought back and says what to request next, or how the
//! fetch ends. The caller makes the requests.

use crate::api::{
    choose_audio, choose_subtitle, chosen_audio_spec, chosen_subtitle_spec, code_ok, info_failure,
    info_failure_spec, player_url, player_url_spec, playurl_url, playurl_url_spec,
    playurl_warning, playurl_warning_spec, reply_ok, segment_url, segment_url_spec,
    subtitle_full_url, subtitle_full_url_spec, tracks_view, view_url, view_url_spec, AudioStream,
    SubtitleTrack, VideoInfo,
};
use crate::danmaku::{seg_danmakus, seg_parses, try_parse_seg_so, DanmakuData};
use vstd::prelude::*;

verus! {

/// An HTTP GET that a fetch asks for.
pub struct Request {
    pub url: String,
    /// Send "Referer: https://www.bilibili.com/".
    pub site_referer: bool,
    /// Send "Accept: application/octet-stream".
    pub accept_octet_stream: bool,
    /// Send an empty "Cookie" header.
    pub empty_cookie: bool,
}

/// The request for `url` with the given headers.
pub open spec fn request_is(
    r: Request,
    url: Seq<char>,
    site_referer: bool,
    accept_octet_stream: bool,
    empty_cookie: bool,
) -> bool {
    &&& r.url@ == url
    &&& r.site_referer == site_referer
    &&& r.accept_octet_stream == accept_octet_stream
    &&& r.empty_cookie == empty_cookie
}

/// The error that a failed video-information reply gives when subtitles or
/// audio are fetched.
pub open spec fn info_failed() -> Seq<char> {
    "Failed to fetch video info"@
}

fn info_failed_message() -> (res: String)
    ensures
        res@ == info_failed(),
{
    String::from_str("Failed to fetch video info")
}

/// The number of danmaku segments that are fetched at most.
pub open spec fn segment_count() -> u64 {
    2
}

/// Where a danmaku fetch stands.
pub enum DanmakuFetch {
    /// Waiting for the video-information reply.
    AwaitInfo,
    /// Waiting for segment `index` of the video part `cid`, with the
    /// danmakus of the segments before it.
    AwaitSegment { cid: i64, index: u64, found: Vec<DanmakuData> },
    /// Over.
    Finished,
}

/// What a danmaku fetch does next.
pub enum DanmakuStep {
    Get(Request),
    /// The fetch ends with the danmakus, or with an error.
    Done(Result<Vec<DanmakuData>, String>),
    /// A segment's offsets overflow a `usize`.
    Overflow,
}

/// The first request of a danmaku fetch: the video information, with the
/// site as referer.
pub fn danmaku_fetch_start(bvid: &str) -> (res: (DanmakuFetch, Request))
    ensures
        res.0 is AwaitInfo,
        request_is(res.1, view_url_spec(bvid@), true, false, false),
{
    (
        DanmakuFetch::AwaitInfo,
        Request {
            url: view_url(bvid),
            site_referer: true,
            accept_octet_stream: false,
            empty_cookie: false,
        },
    )
}

/// The step after the video-information reply: a failed reply ends the
/// fetch with its message; otherwise the first segment of the video part is
/// requested, as an octet stream with the site as referer.
pub fn danmaku_on_info(info: &VideoInfo) -> (res: (DanmakuFetch, DanmakuStep))
    requires
        code_ok(info.code) ==> info.cid is Some,
    ensures
        !code_ok(info.code) ==> res.0 is Finished && (res.1 matches DanmakuStep::Done(Err(m))
            && m@ == info_failure_spec(info.message)),
        code_ok(info.code) ==> {
            &&& res.0 matches DanmakuFetch::AwaitSegment { cid, index, found } && cid
                == info.cid.unwrap() && index == 1 && found@.len() == 0
            &&& res.1 matches DanmakuStep::Get(r) && request_is(
                r,
                segment_url_spec(info.cid.unwrap() as int, 1),
                true,
                true,
                false,
            )
        },
{
    if !reply_ok(info.code) {
        return (DanmakuFetch::Finished, DanmakuStep::Done(Err(info_failure(&info.message))));
    }
    let cid = match info.cid {
        Some(c) => c,
        None => 0,
    };
    (
        DanmakuFetch::AwaitSegment { cid, index: 1, found: Vec::new() },
        DanmakuStep::Get(
            Request {
                url: segment_url(cid, 1),
                site_referer: true,
                accept_octet_stream: true,
                empty_cookie: false,
            },
        ),
    )
}

/// The step after segment `index` came back as `bytes`: an empty segment
/// ends the fetch with the danmakus so far; otherwise its danmakus are added,
/// and the next segment is requested, or the fetch ends after the last one.
pub fn danmaku_on_segment(state: DanmakuFetch, bytes: &[u8]) -> (res: (DanmakuFetch, DanmakuStep))
    requires
        state is AwaitSegment,
    ensures
        state matches DanmakuFetch::AwaitSegment { cid, index, found } ==> ({
            let all = found.deep_view() + seg_danmakus(bytes@);
            if bytes@.len() == 0 {
                res.0 is Finished && (res.1 matches DanmakuStep::Done(Ok(v)) && v.deep_view()
                    == found.deep_view())
            } else if !seg_parses(bytes@) {
                res.0 is Finished && res.1 is Overflow
            } else if index >= segment_count() {
                res.0 is Finished && (res.1 matches DanmakuStep::Done(Ok(v)) && v.deep_view() == all)
            } else {
                &&& res.0 matches DanmakuFetch::AwaitSegment { cid: c, index: i, found: f } && c
                    == cid && i == index + 1 && f.deep_view() == all
                &&& res.1 matches DanmakuStep::Get(r) && request_is(
                    r,
                    segment_url_spec(cid as int, (index + 1) as nat),
                    true,
                    true,
                    false,
                )
            }
        }),
{
    match state {
        DanmakuFetch::AwaitSegment { cid, index, mut found } => {
            if bytes.len() == 0 {
                return (DanmakuFetch::Finished, DanmakuStep::Done(Ok(found)));
            }
            if !try_parse_seg_so(bytes, &mut found) {
                return (DanmakuFetch::Finished, DanmakuStep::Overflow);
            }
            if index >= 2 {
                return (DanmakuFetch::Finished, DanmakuStep::Done(Ok(found)));
            }
            let next = index + 1;
            (
                DanmakuFetch::AwaitSegment { cid, index: next, found },
                DanmakuStep::Get(
                    Request {
                        url: segment_url(cid, next),
                        site_referer: true,
                        accept_octet_stream: true,
                        empty_cookie: false,
                    },
                ),
            )
        },
        _ => (DanmakuFetch::Finished, DanmakuStep::Done(Ok(Vec::new()))),
    }
}

/// What a subtitle fetch does next.
pub enum SubtitleStep {
    Get(Request),
    /// Load the subtitle file at this address.
    LoadFile(String),
    /// The video has no subtitle to load.
    NoSubtitles,
    Fail(String),
}

/// The first request of a subtitle fetch: the video information, with no
/// header of its own.
pub fn subtitle_fetch_start(bvid: &str) -> (res: Request)
    ensures
        request_is(res, view_url_spec(bvid@), false, false, false),
{
    Request { url: view_url(bvid), site_referer: false, accept_octet_stream: false, empty_cookie: false }
}

/// The step after the video-information reply: a failed reply fails the
/// fetch; otherwise the player reply of the video and its part is requested,
/// with the site as referer and an empty cookie.
pub fn subtitles_on_info(info: &VideoInfo) -> (res: SubtitleStep)
    requires
        code_ok(info.code) ==> info.aid is Some && info.cid is Some,
    ensures
        !code_ok(info.code) ==> (res matches SubtitleStep::Fail(m) && m@ == info_failed()),
        code_ok(info.code) ==> (res matches SubtitleStep::Get(r) && request_is(
            r,
            player_url_spec(info.aid.unwrap() as int, info.cid.unwrap() as int),
            true,
            false,
            true,
        )),
{
    if !reply_ok(info.code) {
        return SubtitleStep::Fail(info_failed_message());
    }
    let aid = match info.aid {
        Some(a) => a,
        None => 0,
    };
    let cid = match info.cid {
        Some(c) => c,
        None => 0,
    };
    SubtitleStep::Get(
        Request {
            url: player_url(aid, cid),
            site_referer: true,
            accept_octet_stream: false,
            empty_cookie: true,
        },
    )
}

/// The step after the player reply, given its code and its tracks: the
/// chosen subtitle file is loaded from its full address, if there is one.
pub fn subtitles_on_player(code: Option<i64>, tracks: &Option<Vec<SubtitleTrack>>) -> (res:
    SubtitleStep)
    ensures
        match chosen_subtitle_spec(code, tracks_view(*tracks)) {
            Some(u) => res matches SubtitleStep::LoadFile(f) && f@ == subtitle_full_url_spec(u),
            None => res is NoSubtitles,
        },
{
    match choose_subtitle(code, tracks) {
        Some(u) => SubtitleStep::LoadFile(subtitle_full_url(u.as_str())),
        None => SubtitleStep::NoSubtitles,
    }
}

/// What an audio fetch does next.
pub enum AudioStep {
    Get(Request),
    /// Download the audio at this address.
    Download(String),
    /// There is no audio to play; the warning, if any, is to be shown.
    NoAudio(Option<String>),
    Fail(String),
}

/// The first request of an audio fetch: the video information, with no
/// header of its own.
pub fn audio_fetch_start(bvid: &str) -> (res: Request)
    ensures
        request_is(res, view_url_spec(bvid@), false, false, false),
{
    Request { url: view_url(bvid), site_referer: false, accept_octet_stream: false, empty_cookie: false }
}

/// The step after the video-information reply: a failed reply fails the
/// fetch; otherwise the stream reply of the video and its part is requested,
/// with the site as referer.
pub fn audio_on_info(bvid: &str, info: &VideoInfo) -> (res: AudioStep)
    requires
        code_ok(info.code) ==> info.cid is Some,
    ensures
        !code_ok(info.code) ==> (res matches AudioStep::Fail(m) && m@ == info_failed()),
        code_ok(info.code) ==> (res matches AudioStep::Get(r) && request_is(
            r,
            playurl_url_spec(bvid@, info.cid.unwrap() as int),
            true,
            false,
            false,
        )),
{
    if !reply_ok(info.code) {
        return AudioStep::Fail(info_failed_message());
    }
    let cid = match info.cid {
        Some(c) => c,
        None => 0,
    };
    AudioStep::Get(
        Request {
            url: playurl_url(bvid, cid),
            site_referer: true,
            accept_octet_stream: false,
            empty_cookie: false,
        },
    )
}

/// The streams of an optional list.
pub open spec fn streams_view(o: Option<Vec<AudioStream>>) -> Option<Seq<AudioStream>> {
    match o {
        Some(v) => Some(v@),
        None => None,
    }
}

/// The step after the stream reply, given its code, message and streams: a
/// failed reply gives no audio and a warning; otherwise the chosen stream is
/// downloaded, if the reply lists streams and the chosen one has an address.
pub fn audio_on_streams(
    code: Option<i64>,
    message: &Option<String>,
    streams: &Option<Vec<AudioStream>>,
) -> (res: AudioStep)
    ensures
        !code_ok(code) ==> (res matches AudioStep::NoAudio(Some(w)) && w@ == playurl_warning_spec(
            *message,
        )),
        code_ok(code) ==> match streams_view(*streams) {
            Some(s) => match chosen_audio_spec(s) {
                Some(u) => res matches AudioStep::Download(d) && d@ == u,
                None => res matches AudioStep::NoAudio(None),
            },
            None => res matches AudioStep::NoAudio(None),
        },
{
    if !reply_ok(code) {
        return AudioStep::NoAudio(Some(playurl_warning(message)));
    }
    match streams {
        Some(s) => match choose_audio(s) {
            Some(u) => AudioStep::Download(u),
            None => AudioStep::NoAudio(None),
        },
        None => AudioStep::NoAudio(None),
    }
}

} // verus!
