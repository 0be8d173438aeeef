use bilidm::api::{
    choose_audio, choose_subtitle, download_warning, info_failure, player_url, playurl_url,
    playurl_warning, reply_ok, segment_url, subtitle_full_url, video_page, view_url, AudioStream,
    SubtitleTrack,
};

#[test]
fn addresses() {
    assert_eq!(
        view_url("BV1WYXDB7EPm"),
        "https://api.bilibili.com/x/web-interface/view?bvid=BV1WYXDB7EPm"
    );
    assert_eq!(video_page("BV1WYXDB7EPm"), "https://www.bilibili.com/video/BV1WYXDB7EPm");
    assert_eq!(
        segment_url(123456, 2),
        "https://api.bilibili.com/x/v2/dm/web/seg.so?type=1&oid=123456&segment_index=2"
    );
    assert_eq!(
        player_url(-5, 42),
        "https://api.bilibili.com/x/player/wbi/v2?aid=-5&cid=42"
    );
    assert_eq!(
        playurl_url("BV1xx411c7mD", 99),
        "https://api.bilibili.com/x/player/playurl?bvid=BV1xx411c7mD&cid=99&fnval=16"
    );
}

#[test]
fn subtitle_addresses() {
    assert_eq!(
        subtitle_full_url("//i0.hdslb.com/sub.json"),
        "https:" .to_string() + "//i0.hdslb.com/sub.json"
    );
    assert_eq!(subtitle_full_url("https://x/y.json"), "https://x/y.json");
    assert_eq!(subtitle_full_url("/"), "/");
}

#[test]
fn codes() {
    assert!(reply_ok(Some(0)));
    assert!(!reply_ok(Some(-404)));
    assert!(!reply_ok(None));
}

#[test]
fn messages() {
    assert_eq!(info_failure(&Some("啥都木有".to_string())), "Failed to fetch video info: 啥都木有");
    assert_eq!(info_failure(&None), "Failed to fetch video info: Unknown error");
    assert_eq!(playurl_warning(&Some("bad".to_string())), "警告：获取 playurl 失败: bad");
    assert_eq!(playurl_warning(&None), "警告：获取 playurl 失败: ");
    assert_eq!(download_warning("403 Forbidden"), "警告：下载音频流失败，CDN 返回状态码 403 Forbidden");
}

fn track(lan: Option<&str>, url: Option<&str>) -> SubtitleTrack {
    SubtitleTrack { lan: lan.map(String::from), subtitle_url: url.map(String::from) }
}

#[test]
fn subtitles_prefer_human_tracks() {
    let tracks = vec![
        track(Some("ai-zh"), Some("//ai")),
        track(Some("zh-CN"), Some("")),
        track(Some("en-US"), Some("//en")),
        track(Some("zh-Hant"), Some("//hant")),
    ];
    assert_eq!(choose_subtitle(Some(0), &Some(tracks)).as_deref(), Some("//en"));
}

#[test]
fn subtitles_fall_back_to_ai() {
    let tracks = vec![
        track(None, None),
        track(Some("ai-zh"), Some("")),
        track(Some("ai-en"), Some("//ai-en")),
        track(Some("ai-zh"), Some("//ai-zh")),
    ];
    assert_eq!(choose_subtitle(Some(0), &Some(tracks)).as_deref(), Some("//ai-en"));
    let tracks = vec![track(None, Some("//nolan"))];
    assert_eq!(choose_subtitle(Some(0), &Some(tracks)).as_deref(), Some("//nolan"));
}

#[test]
fn subtitles_none() {
    let tracks = vec![track(Some("zh"), Some("//x"))];
    assert_eq!(choose_subtitle(Some(1), &Some(tracks.clone())), None);
    assert_eq!(choose_subtitle(None, &Some(tracks)), None);
    assert_eq!(choose_subtitle(Some(0), &None), None);
    assert_eq!(choose_subtitle(Some(0), &Some(vec![])), None);
}

fn stream(id: Option<i64>, camel: Option<&str>, snake: Option<&str>) -> AudioStream {
    AudioStream {
        id,
        base_url_camel: camel.map(String::from),
        base_url_snake: snake.map(String::from),
    }
}

#[test]
fn audio_highest_id_last_of_ties() {
    let streams = vec![
        stream(Some(30216), Some("low"), None),
        stream(Some(30280), Some("high-1"), None),
        stream(Some(30232), Some("mid"), None),
        stream(Some(30280), None, Some("high-2")),
    ];
    assert_eq!(choose_audio(&streams).as_deref(), Some("high-2"));
}

#[test]
fn audio_missing_ids_rank_zero() {
    let streams = vec![stream(None, Some("a"), None), stream(Some(-1), Some("b"), None)];
    assert_eq!(choose_audio(&streams).as_deref(), Some("a"));
    let streams = vec![stream(Some(5), None, None), stream(Some(1), Some("b"), None)];
    assert_eq!(choose_audio(&streams), None);
    assert_eq!(choose_audio(&vec![]), None);
}
