//! The Bilibili web API as the viewer uses it: the addresses it asks for,
//! the replies it reads, and what it picks from them.

use crate::text::{
    decimal, has_prefix, lemma_read_decimal, lemma_read_signed_decimal, push_decimal,
    push_signed_decimal, read_digits, read_signed, signed_decimal, starts_with,
};
use vstd::prelude::*;

verus! {

/// The address of the video-information reply for the video `bvid`.
pub open spec fn view_url_spec(bvid: Seq<char>) -> Seq<char> {
    "https://api.bilibili.com/x/web-interface/view?bvid="@ + bvid
}

/// The address of the video-information reply for the video `bvid`.
pub fn view_url(bvid: &str) -> (res: String)
    ensures
        res@ == view_url_spec(bvid@),
{
    let mut s = String::from_str("https://api.bilibili.com/x/web-interface/view?bvid=");
    s.append(bvid);
    s
}

/// The page of the video `bvid`, which requests name as their referer.
pub open spec fn video_page_spec(bvid: Seq<char>) -> Seq<char> {
    "https://www.bilibili.com/video/"@ + bvid
}

/// The page of the video `bvid`, which requests name as their referer.
pub fn video_page(bvid: &str) -> (res: String)
    ensures
        res@ == video_page_spec(bvid@),
{
    let mut s = String::from_str("https://www.bilibili.com/video/");
    s.append(bvid);
    s
}

/// The address of danmaku segment `index` of the video part `cid`.
pub open spec fn segment_url_spec(cid: int, index: nat) -> Seq<char> {
    "https://api.bilibili.com/x/v2/dm/web/seg.so?type=1&oid="@ + signed_decimal(cid)
        + "&segment_index="@ + decimal(index)
}

/// The address of danmaku segment `index` of the video part `cid`.
pub fn segment_url(cid: i64, index: u64) -> (res: String)
    ensures
        res@ == segment_url_spec(cid as int, index as nat),
{
    let mut s = String::from_str("https://api.bilibili.com/x/v2/dm/web/seg.so?type=1&oid=");
    push_signed_decimal(&mut s, cid);
    s.append("&segment_index=");
    push_decimal(&mut s, index);
    s
}

/// The address of the player reply, which lists the subtitles, of the video
/// `aid` and its part `cid`.
pub open spec fn player_url_spec(aid: int, cid: int) -> Seq<char> {
    "https://api.bilibili.com/x/player/wbi/v2?aid="@ + signed_decimal(aid) + "&cid="@
        + signed_decimal(cid)
}

/// The address of the player reply, which lists the subtitles, of the video
/// `aid` and its part `cid`.
pub fn player_url(aid: i64, cid: i64) -> (res: String)
    ensures
        res@ == player_url_spec(aid as int, cid as int),
{
    let mut s = String::from_str("https://api.bilibili.com/x/player/wbi/v2?aid=");
    push_signed_decimal(&mut s, aid);
    s.append("&cid=");
    push_signed_decimal(&mut s, cid);
    s
}

/// The address of the stream reply, which lists the audio streams, of the
/// video `bvid` and its part `cid`.
pub open spec fn playurl_url_spec(bvid: Seq<char>, cid: int) -> Seq<char> {
    "https://api.bilibili.com/x/player/playurl?bvid="@ + bvid + "&cid="@ + signed_decimal(cid)
        + "&fnval=16"@
}

/// The address of the stream reply, which lists the audio streams, of the
/// video `bvid` and its part `cid`.
pub fn playurl_url(bvid: &str, cid: i64) -> (res: String)
    ensures
        res@ == playurl_url_spec(bvid@, cid as int),
{
    let mut s = String::from_str("https://api.bilibili.com/x/player/playurl?bvid=");
    s.append(bvid);
    s.append("&cid=");
    push_signed_decimal(&mut s, cid);
    s.append("&fnval=16");
    s
}

/// The full address of a subtitle file: one that starts with "//" gets
/// "https:" in front.
pub open spec fn subtitle_full_url_spec(url: Seq<char>) -> Seq<char> {
    if starts_with(url, "//"@) {
        "https:"@ + url
    } else {
        url
    }
}

/// The full address of a subtitle file: one that starts with "//" gets
/// "https:" in front.
pub fn subtitle_full_url(url: &str) -> (res: String)
    ensures
        res@ == subtitle_full_url_spec(url@),
{
    if has_prefix(url, "//") {
        let mut s = String::from_str("https:");
        s.append(url);
        s
    } else {
        String::from_str(url)
    }
}

/// The text of an optional string field; empty when the field is missing.
pub open spec fn text_or_empty(o: Option<String>) -> Seq<char> {
    match o {
        Some(s) => s@,
        None => Seq::empty(),
    }
}

/// The fields of the video-information reply that the viewer reads: the
/// status code, the message, and the ids of the video and of its part.
#[derive(Clone, Debug)]
pub struct VideoInfo {
    pub code: Option<i64>,
    pub message: Option<String>,
    pub aid: Option<i64>,
    pub cid: Option<i64>,
}

/// A reply reports success: its code is present and 0.
pub open spec fn code_ok(code: Option<i64>) -> bool {
    code == Some(0i64)
}

/// Whether a reply's code reports success.
pub fn reply_ok(code: Option<i64>) -> (res: bool)
    ensures
        res == code_ok(code),
{
    match code {
        Some(c) => c == 0,
        None => false,
    }
}

/// The error of a failed video-information reply when danmakus are fetched:
/// its message, or "Unknown error" when it has none.
pub open spec fn info_failure_spec(message: Option<String>) -> Seq<char> {
    "Failed to fetch video info: "@ + match message {
        Some(m) => m@,
        None => "Unknown error"@,
    }
}

/// The error of a failed video-information reply when danmakus are fetched.
pub fn info_failure(message: &Option<String>) -> (res: String)
    ensures
        res@ == info_failure_spec(*message),
{
    let mut s = String::from_str("Failed to fetch video info: ");
    match message {
        Some(m) => s.append(m.as_str()),
        None => s.append("Unknown error"),
    }
    s
}

/// One subtitle track that the player reply lists: its language and the
/// address of its file.
#[derive(Clone, Debug)]
pub struct SubtitleTrack {
    pub lan: Option<String>,
    pub subtitle_url: Option<String>,
}

/// The track is generated by AI: its language starts with "ai-".
pub open spec fn is_ai_track(t: SubtitleTrack) -> bool {
    starts_with(text_or_empty(t.lan), "ai-"@)
}

/// The track has a file address.
pub open spec fn has_file(t: SubtitleTrack) -> bool {
    text_or_empty(t.subtitle_url).len() > 0
}

/// The position of the first track in `tracks`, at or after `i`, that has
/// a file and is AI-generated exactly when `ai` is.
pub open spec fn first_track_from(tracks: Seq<SubtitleTrack>, ai: bool, i: int) -> Option<int>
    decreases tracks.len() - i,
{
    if i < 0 || i >= tracks.len() {
        None
    } else if has_file(tracks[i]) && is_ai_track(tracks[i]) == ai {
        Some(i)
    } else {
        first_track_from(tracks, ai, i + 1)
    }
}

/// The position of the first track in `tracks` that has a file and is
/// AI-generated exactly when `ai` is.
pub open spec fn first_track(tracks: Seq<SubtitleTrack>, ai: bool) -> Option<int> {
    first_track_from(tracks, ai, 0)
}

/// The address of the subtitle file that the viewer loads, when the player
/// reply succeeded and lists tracks: that of the first track with a file
/// that is not AI-generated, or else that of the first AI-generated one.
pub open spec fn chosen_subtitle_spec(code: Option<i64>, tracks: Option<Seq<SubtitleTrack>>) -> Option<
    Seq<char>,
> {
    if !code_ok(code) {
        None
    } else {
        match tracks {
            None => None,
            Some(ts) => match first_track(ts, false) {
                Some(i) => Some(text_or_empty(ts[i].subtitle_url)),
                None => match first_track(ts, true) {
                    Some(i) => Some(text_or_empty(ts[i].subtitle_url)),
                    None => None,
                },
            },
        }
    }
}

/// The tracks of an optional list.
pub open spec fn tracks_view(o: Option<Vec<SubtitleTrack>>) -> Option<Seq<SubtitleTrack>> {
    match o {
        Some(v) => Some(v@),
        None => None,
    }
}

/// The text of an optional string, and the empty string for none.
fn str_or_empty(o: &Option<String>) -> (res: &str)
    ensures
        res@ == text_or_empty(*o),
{
    match o {
        Some(s) => s.as_str(),
        None => {
            proof {
                reveal_strlit("");
            }
            ""
        },
    }
}

/// The first track in `tracks` that has a file and is AI-generated exactly
/// when `ai` is.
fn find_track(tracks: &Vec<SubtitleTrack>, ai: bool) -> (res: Option<usize>)
    ensures
        match res {
            Some(i) => first_track(tracks@, ai) == Some(i as int) && i < tracks@.len(),
            None => first_track(tracks@, ai) is None,
        },
{
    let n = tracks.len();
    for i in 0..n
        invariant
            n == tracks@.len(),
            first_track(tracks@, ai) == first_track_from(tracks@, ai, i as int),
    {
        let t = &tracks[i];
        let lan = str_or_empty(&t.lan);
        let url = str_or_empty(&t.subtitle_url);
        if has_prefix(lan, "ai-") == ai && !url.is_empty() {
            return Some(i);
        }
    }
    None
}

/// The address of the subtitle file that the viewer loads, from the player
/// reply's code and its list of tracks (`None` when the reply holds no list).
pub fn choose_subtitle(code: Option<i64>, tracks: &Option<Vec<SubtitleTrack>>) -> (res: Option<
    String,
>)
    ensures
        match res {
            Some(u) => chosen_subtitle_spec(code, tracks_view(*tracks)) == Some(u@),
            None => chosen_subtitle_spec(code, tracks_view(*tracks)) is None,
        },
{
    if !reply_ok(code) {
        return None;
    }
    match tracks {
        None => None,
        Some(ts) => {
            let i = match find_track(ts, false) {
                Some(i) => i,
                None => match find_track(ts, true) {
                    Some(i) => i,
                    None => return None,
                },
            };
            Some(String::from_str(str_or_empty(&ts[i].subtitle_url)))
        },
    }
}

/// One audio stream that the stream reply lists: its quality id and its
/// address, which the reply spells "baseUrl" or "base_url".
#[derive(Clone, Debug)]
pub struct AudioStream {
    pub id: Option<i64>,
    pub base_url_camel: Option<String>,
    pub base_url_snake: Option<String>,
}

/// The quality by which streams are ranked: the id, or 0 without one.
pub open spec fn audio_rank(a: AudioStream) -> i64 {
    match a.id {
        Some(x) => x,
        None => 0,
    }
}

/// The position of the stream that the viewer plays: the last of those with
/// the highest rank.
pub open spec fn best_audio(s: Seq<AudioStream>) -> Option<int>
    decreases s.len(),
{
    if s.len() == 0 {
        None
    } else {
        match best_audio(s.drop_last()) {
            None => Some(s.len() - 1),
            Some(b) => if audio_rank(s.last()) >= audio_rank(s[b]) {
                Some(s.len() - 1)
            } else {
                Some(b)
            },
        }
    }
}

/// The address of a stream: "baseUrl", or else "base_url".
pub open spec fn audio_url(a: AudioStream) -> Option<Seq<char>> {
    match a.base_url_camel {
        Some(u) => Some(u@),
        None => match a.base_url_snake {
            Some(u) => Some(u@),
            None => None,
        },
    }
}

/// The address of the audio that the viewer plays: that of the last of the
/// streams with the highest rank, if it has one.
pub open spec fn chosen_audio_spec(s: Seq<AudioStream>) -> Option<Seq<char>> {
    match best_audio(s) {
        Some(b) => audio_url(s[b]),
        None => None,
    }
}

/// The address of the audio that the viewer plays from `streams`.
pub fn choose_audio(streams: &Vec<AudioStream>) -> (res: Option<String>)
    ensures
        match res {
            Some(u) => chosen_audio_spec(streams@) == Some(u@),
            None => chosen_audio_spec(streams@) is None,
        },
{
    let n = streams.len();
    let mut best: Option<usize> = None;
    for i in 0..n
        invariant
            n == streams@.len(),
            match best {
                Some(b) => best_audio(streams@.take(i as int)) == Some(b as int) && b < i,
                None => best_audio(streams@.take(i as int)) is None && i == 0,
            },
    {
        proof {
            assert(streams@.take(i + 1).drop_last() =~= streams@.take(i as int));
        }
        let rank = match streams[i].id {
            Some(x) => x,
            None => 0,
        };
        match best {
            None => {
                best = Some(i);
            },
            Some(b) => {
                let best_rank = match streams[b].id {
                    Some(x) => x,
                    None => 0,
                };
                if rank >= best_rank {
                    best = Some(i);
                }
            },
        }
    }
    assert(streams@.take(n as int) =~= streams@);
    match best {
        None => None,
        Some(b) => match &streams[b].base_url_camel {
            Some(u) => Some(u.clone()),
            None => match &streams[b].base_url_snake {
                Some(u) => Some(u.clone()),
                None => None,
            },
        },
    }
}

/// The warning that a failed stream reply gives, with its message (empty
/// when it has none).
pub open spec fn playurl_warning_spec(message: Option<String>) -> Seq<char> {
    "警告：获取 playurl 失败: "@ + text_or_empty(message)
}

/// The warning that a failed stream reply gives.
pub fn playurl_warning(message: &Option<String>) -> (res: String)
    ensures
        res@ == playurl_warning_spec(*message),
{
    let mut s = String::from_str("警告：获取 playurl 失败: ");
    s.append(str_or_empty(message));
    s
}

/// The warning that a failed audio download gives, with the status that
/// the server answered.
pub open spec fn download_warning_spec(status: Seq<char>) -> Seq<char> {
    "警告：下载音频流失败，CDN 返回状态码 "@ + status
}

/// The warning that a failed audio download gives, with the status that
/// the server answered.
pub fn download_warning(status: &str) -> (res: String)
    ensures
        res@ == download_warning_spec(status@),
{
    let mut s = String::from_str("警告：下载音频流失败，CDN 返回状态码 ");
    s.append(status);
    s
}

/// The search from `k` finds a track of the wanted kind with a file at or
/// after `k`, with none before it from `k` on, or finds none because there
/// is none.
pub proof fn lemma_first_track_from(tracks: Seq<SubtitleTrack>, ai: bool, k: int)
    requires
        0 <= k,
    ensures
        first_track_from(tracks, ai, k) matches Some(i) ==> {
            &&& k <= i < tracks.len()
            &&& has_file(tracks[i]) && is_ai_track(tracks[i]) == ai
            &&& forall|j: int|
                k <= j < i ==> !(has_file(#[trigger] tracks[j]) && is_ai_track(tracks[j]) == ai)
        },
        first_track_from(tracks, ai, k) is None ==> forall|j: int|
            k <= j < tracks.len() ==> !(has_file(#[trigger] tracks[j]) && is_ai_track(tracks[j])
                == ai),
    decreases tracks.len() - k,
{
    if k < tracks.len() {
        lemma_first_track_from(tracks, ai, k + 1);
    }
}

/// The subtitle chosen is that of a track with a file; an AI-generated
/// track is chosen only when no other track has a file; and no track of the
/// same kind with a file comes before the chosen one.
pub proof fn lemma_chosen_subtitle(code: Option<i64>, tracks: Seq<SubtitleTrack>)
    ensures
        chosen_subtitle_spec(code, Some(tracks)) matches Some(u) ==> exists|i: int|
            {
                &&& 0 <= i < tracks.len()
                &&& has_file(tracks[i])
                &&& u == text_or_empty(tracks[i].subtitle_url)
                &&& is_ai_track(tracks[i]) ==> forall|j: int|
                    0 <= j < tracks.len() && has_file(#[trigger] tracks[j]) ==> is_ai_track(
                        tracks[j],
                    )
                &&& forall|j: int|
                    0 <= j < i && has_file(#[trigger] tracks[j]) ==> is_ai_track(tracks[j])
                        != is_ai_track(tracks[i])
            },
        code_ok(code) && (exists|j: int| 0 <= j < tracks.len() && has_file(#[trigger] tracks[j]))
            ==> chosen_subtitle_spec(code, Some(tracks)) is Some,
{
    lemma_first_track_from(tracks, false, 0);
    lemma_first_track_from(tracks, true, 0);
    if code_ok(code) {
        if exists|j: int| 0 <= j < tracks.len() && has_file(#[trigger] tracks[j]) {
            let j = choose|j: int| 0 <= j < tracks.len() && has_file(#[trigger] tracks[j]);
            if is_ai_track(tracks[j]) {
                assert(first_track(tracks, true) is Some);
            } else {
                assert(first_track(tracks, false) is Some);
            }
        }
    }
}

/// The stream played ranks highest, and every stream after it ranks lower.
pub proof fn lemma_best_audio(s: Seq<AudioStream>)
    ensures
        best_audio(s) matches Some(b) ==> {
            &&& 0 <= b < s.len()
            &&& forall|j: int| 0 <= j < s.len() ==> audio_rank(#[trigger] s[j]) <= audio_rank(s[b])
            &&& forall|j: int| b < j < s.len() ==> audio_rank(#[trigger] s[j]) < audio_rank(s[b])
        },
        s.len() > 0 ==> best_audio(s) is Some,
    decreases s.len(),
{
    if s.len() > 0 {
        let t = s.drop_last();
        lemma_best_audio(t);
        let n = s.len() - 1;
        assert forall|j: int| 0 <= j < t.len() implies #[trigger] t[j] == s[j] by {}
        match best_audio(t) {
            None => {
                assert(t.len() == 0);
            },
            Some(bt) => {
                if audio_rank(s.last()) >= audio_rank(s[bt]) {
                    assert forall|j: int| 0 <= j < s.len() implies audio_rank(#[trigger] s[j])
                        <= audio_rank(s[n]) by {
                        if j < n {
                            assert(audio_rank(t[j]) <= audio_rank(t[bt]));
                        }
                    }
                } else {
                    assert forall|j: int| 0 <= j < s.len() implies audio_rank(#[trigger] s[j])
                        <= audio_rank(s[bt]) by {
                        if j < n {
                            assert(audio_rank(t[j]) <= audio_rank(t[bt]));
                        }
                    }
                    assert forall|j: int| bt < j < s.len() implies audio_rank(#[trigger] s[j])
                        < audio_rank(s[bt]) by {
                        if j < n {
                            assert(audio_rank(t[j]) < audio_rank(t[bt]));
                        }
                    }
                }
            },
        }
    }
}

/// The segment address names the video part and the segment in full:
/// after its fixed beginning come the decimal numeral of `cid`, then
/// "&segment_index=" and the decimal numeral of `index`.
pub proof fn lemma_segment_url_names_ids(cid: i64, index: u64)
    ensures
        exists|n: Seq<char>, m: Seq<char>|
            {
                &&& segment_url_spec(cid as int, index as nat)
                    == "https://api.bilibili.com/x/v2/dm/web/seg.so?type=1&oid="@ + n
                    + "&segment_index="@ + m
                &&& read_signed(n) == Some(cid as int)
                &&& read_digits(m) == Some(index as nat)
            },
{
    let n = signed_decimal(cid as int);
    let m = decimal(index as nat);
    lemma_read_signed_decimal(cid as int);
    lemma_read_decimal(index as nat);
    assert(segment_url_spec(cid as int, index as nat)
        == "https://api.bilibili.com/x/v2/dm/web/seg.so?type=1&oid="@ + n + "&segment_index="@ + m);
}

/// The player address names the video and its part in full: after its
/// fixed beginning come the decimal numeral of `aid`, then "&cid=" and the
/// decimal numeral of `cid`.
pub proof fn lemma_player_url_names_ids(aid: i64, cid: i64)
    ensures
        exists|n: Seq<char>, m: Seq<char>|
            {
                &&& player_url_spec(aid as int, cid as int)
                    == "https://api.bilibili.com/x/player/wbi/v2?aid="@ + n + "&cid="@ + m
                &&& read_signed(n) == Some(aid as int)
                &&& read_signed(m) == Some(cid as int)
            },
{
    let n = signed_decimal(aid as int);
    let m = signed_decimal(cid as int);
    lemma_read_signed_decimal(aid as int);
    lemma_read_signed_decimal(cid as int);
    assert(player_url_spec(aid as int, cid as int) == "https://api.bilibili.com/x/player/wbi/v2?aid="@
        + n + "&cid="@ + m);
}

/// The stream address names the video and its part in full: after its
/// fixed beginning come `bvid`, then "&cid=", the decimal numeral of `cid`,
/// and "&fnval=16".
pub proof fn lemma_playurl_url_names_ids(bvid: Seq<char>, cid: i64)
    ensures
        exists|n: Seq<char>|
            {
                &&& playurl_url_spec(bvid, cid as int)
                    == "https://api.bilibili.com/x/player/playurl?bvid="@ + bvid + "&cid="@ + n
                    + "&fnval=16"@
                &&& read_signed(n) == Some(cid as int)
            },
{
    let n = signed_decimal(cid as int);
    lemma_read_signed_decimal(cid as int);
    assert(playurl_url_spec(bvid, cid as int) == "https://api.bilibili.com/x/player/playurl?bvid="@
        + bvid + "&cid="@ + n + "&fnval=16"@);
}

/// A track has a file exactly when its address is not empty: when the
/// reply succeeds and some track has a non-empty address, a subtitle is
/// chosen; and the first track with a non-empty address whose language does
/// not start with "ai-" is chosen, whatever its address starts with, when
/// no such track comes before it.
pub proof fn lemma_subtitle_with_address_is_chosen(code: Option<i64>, tracks: Seq<SubtitleTrack>)
    ensures
        code_ok(code) && (exists|j: int|
            0 <= j < tracks.len() && text_or_empty(#[trigger] tracks[j].subtitle_url).len() > 0)
            ==> chosen_subtitle_spec(code, Some(tracks)) is Some,
        forall|i: int|
            #![trigger tracks[i]]
            code_ok(code) && 0 <= i < tracks.len() && text_or_empty(tracks[i].subtitle_url).len() > 0
                && !starts_with(text_or_empty(tracks[i].lan), "ai-"@) && (forall|j: int|
                0 <= j < i ==> text_or_empty(#[trigger] tracks[j].subtitle_url).len() == 0
                    || starts_with(text_or_empty(tracks[j].lan), "ai-"@)) ==> chosen_subtitle_spec(
                code,
                Some(tracks),
            ) == Some(text_or_empty(tracks[i].subtitle_url)),
{
    lemma_chosen_subtitle(code, tracks);
    assert forall|i: int|
        #![trigger tracks[i]]
        code_ok(code) && 0 <= i < tracks.len() && text_or_empty(tracks[i].subtitle_url).len() > 0
            && !starts_with(text_or_empty(tracks[i].lan), "ai-"@) && (forall|j: int|
            0 <= j < i ==> text_or_empty(#[trigger] tracks[j].subtitle_url).len() == 0
                || starts_with(text_or_empty(tracks[j].lan), "ai-"@)) implies chosen_subtitle_spec(
        code,
        Some(tracks),
    ) == Some(text_or_empty(tracks[i].subtitle_url)) by {
        lemma_first_track_at(tracks, false, 0, i);
    }
}

/// When no track whose language does not start with "ai-" has a non-empty
/// address, the first track with a non-empty address is chosen, whatever its
/// address starts with.
pub proof fn lemma_ai_subtitle_chosen_when_alone(code: Option<i64>, tracks: Seq<SubtitleTrack>)
    ensures
        forall|i: int|
            #![trigger tracks[i]]
            code_ok(code) && 0 <= i < tracks.len() && text_or_empty(tracks[i].subtitle_url).len() > 0
                && (forall|j: int|
                0 <= j < tracks.len() && text_or_empty(#[trigger] tracks[j].subtitle_url).len() > 0
                    ==> starts_with(text_or_empty(tracks[j].lan), "ai-"@)) && (forall|j: int|
                0 <= j < i ==> text_or_empty(#[trigger] tracks[j].subtitle_url).len() == 0)
                ==> chosen_subtitle_spec(code, Some(tracks)) == Some(
                text_or_empty(tracks[i].subtitle_url),
            ),
{
    assert forall|i: int|
        #![trigger tracks[i]]
        code_ok(code) && 0 <= i < tracks.len() && text_or_empty(tracks[i].subtitle_url).len() > 0
            && (forall|j: int|
            0 <= j < tracks.len() && text_or_empty(#[trigger] tracks[j].subtitle_url).len() > 0
                ==> starts_with(text_or_empty(tracks[j].lan), "ai-"@)) && (forall|j: int|
            0 <= j < i ==> text_or_empty(#[trigger] tracks[j].subtitle_url).len() == 0)
            implies chosen_subtitle_spec(code, Some(tracks)) == Some(
        text_or_empty(tracks[i].subtitle_url),
    ) by {
        lemma_first_track_from(tracks, false, 0);
        assert(first_track(tracks, false) is None) by {
            if let Some(k) = first_track(tracks, false) {
                assert(has_file(tracks[k]));
            }
        }
        lemma_first_track_at(tracks, true, 0, i);
    }
}

/// The search from `k` finds the track at `i` when it is of the wanted kind
/// with a file and no track between `k` and it is.
proof fn lemma_first_track_at(tracks: Seq<SubtitleTrack>, ai: bool, k: int, i: int)
    requires
        0 <= k <= i < tracks.len(),
        has_file(tracks[i]) && is_ai_track(tracks[i]) == ai,
        forall|j: int| k <= j < i ==> !(has_file(#[trigger] tracks[j]) && is_ai_track(tracks[j]) == ai),
    ensures
        first_track_from(tracks, ai, k) == Some(i),
    decreases i - k,
{
    if k < i {
        assert(!(has_file(tracks[k]) && is_ai_track(tracks[k]) == ai));
        lemma_first_track_at(tracks, ai, k + 1, i);
    }
}

/// The audio played comes from a stream whose id (0 when it has none) is
/// the highest of all, with no stream after it as high; its address is its
/// "baseUrl", or else its "base_url"; without streams there is no audio.
pub proof fn lemma_chosen_audio_is_last_highest_id(s: Seq<AudioStream>)
    ensures
        s.len() == 0 ==> chosen_audio_spec(s) is None,
        s.len() > 0 ==> exists|b: int|
            #![trigger s[b]]
            {
                &&& 0 <= b < s.len()
                &&& forall|j: int|
                    0 <= j < s.len() ==> (match #[trigger] s[j].id {
                        Some(x) => x,
                        None => 0,
                    }) <= (match s[b].id {
                        Some(x) => x,
                        None => 0,
                    })
                &&& forall|j: int|
                    b < j < s.len() ==> (match #[trigger] s[j].id {
                        Some(x) => x,
                        None => 0,
                    }) < (match s[b].id {
                        Some(x) => x,
                        None => 0,
                    })
                &&& chosen_audio_spec(s) == match s[b].base_url_camel {
                    Some(u) => Some(u@),
                    None => match s[b].base_url_snake {
                        Some(u) => Some(u@),
                        None => None,
                    },
                }
            },
{
    lemma_best_audio(s);
    if s.len() > 0 {
        let b = best_audio(s).unwrap();
        assert(forall|j: int| 0 <= j < s.len() ==> audio_rank(#[trigger] s[j]) == (match s[j].id {
            Some(x) => x,
            None => 0,
        }));
    }
}

} // verus!
