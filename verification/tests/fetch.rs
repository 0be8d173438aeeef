use bilidm::api::{AudioStream, SubtitleTrack, VideoInfo};
use bilidm::fetch::{
    audio_fetch_start, audio_on_info, audio_on_streams, danmaku_fetch_start, danmaku_on_info,
    danmaku_on_segment, subtitle_fetch_start, subtitles_on_info, subtitles_on_player, AudioStep,
    DanmakuFetch, DanmakuStep, SubtitleStep,
};

fn info(code: Option<i64>, message: Option<&str>, aid: Option<i64>, cid: Option<i64>) -> VideoInfo {
    VideoInfo { code, message: message.map(String::from), aid, cid }
}

fn one_danmaku_segment(text: &str) -> Vec<u8> {
    let mut e = vec![0x10u8, 0xE8, 0x07, 0x3A, text.len() as u8];
    e.extend_from_slice(text.as_bytes());
    let mut s = vec![0x0Au8, e.len() as u8];
    s.extend_from_slice(&e);
    s
}

#[test]
fn danmaku_fetch_runs_two_segments() {
    let (state, req) = danmaku_fetch_start("BV1WYXDB7EPm");
    assert_eq!(req.url, "https://api.bilibili.com/x/web-interface/view?bvid=BV1WYXDB7EPm");
    assert!(req.site_referer && !req.accept_octet_stream && !req.empty_cookie);
    assert!(matches!(state, DanmakuFetch::AwaitInfo));
    let (state, step) = danmaku_on_info(&info(Some(0), None, Some(1), Some(777)));
    match step {
        DanmakuStep::Get(r) => {
            assert_eq!(
                r.url,
                "https://api.bilibili.com/x/v2/dm/web/seg.so?type=1&oid=777&segment_index=1"
            );
            assert!(r.site_referer && r.accept_octet_stream && !r.empty_cookie);
        }
        _ => panic!("expected a request"),
    }
    let (state, step) = danmaku_on_segment(state, &one_danmaku_segment("one"));
    match step {
        DanmakuStep::Get(r) => assert_eq!(
            r.url,
            "https://api.bilibili.com/x/v2/dm/web/seg.so?type=1&oid=777&segment_index=2"
        ),
        _ => panic!("expected a request"),
    }
    let (state, step) = danmaku_on_segment(state, &one_danmaku_segment("two"));
    assert!(matches!(state, DanmakuFetch::Finished));
    match step {
        DanmakuStep::Done(Ok(v)) => {
            let texts: Vec<&str> = v.iter().map(|d| d.text.as_str()).collect();
            assert_eq!(texts, vec!["one", "two"]);
            assert_eq!(v[0].progress_ms, 1000);
        }
        _ => panic!("expected the danmakus"),
    }
}

#[test]
fn danmaku_fetch_stops_at_empty_segment() {
    let (state, _) = danmaku_on_info(&info(Some(0), None, None, Some(5)));
    let (state, step) = danmaku_on_segment(state, &[]);
    assert!(matches!(state, DanmakuFetch::Finished));
    assert!(matches!(step, DanmakuStep::Done(Ok(ref v)) if v.is_empty()));
}

#[test]
fn danmaku_fetch_fails_on_bad_info() {
    let (state, step) = danmaku_on_info(&info(Some(-404), Some("啥都木有"), None, None));
    assert!(matches!(state, DanmakuFetch::Finished));
    match step {
        DanmakuStep::Done(Err(m)) => assert_eq!(m, "Failed to fetch video info: 啥都木有"),
        _ => panic!("expected an error"),
    }
    let (_, step) = danmaku_on_info(&info(None, None, None, None));
    assert!(matches!(step, DanmakuStep::Done(Err(ref m)) if m == "Failed to fetch video info: Unknown error"));
}

#[test]
fn danmaku_fetch_reports_overflow() {
    let (state, _) = danmaku_on_info(&info(Some(0), None, None, Some(5)));
    let mut seg = vec![0x0Au8];
    seg.extend_from_slice(&[0xFF; 9]);
    seg.push(0x01);
    let (state, step) = danmaku_on_segment(state, &seg);
    assert!(matches!(state, DanmakuFetch::Finished));
    assert!(matches!(step, DanmakuStep::Overflow));
}

#[test]
fn subtitle_fetch_steps() {
    let req = subtitle_fetch_start("BV1WYXDB7EPm");
    assert_eq!(req.url, "https://api.bilibili.com/x/web-interface/view?bvid=BV1WYXDB7EPm");
    assert!(!req.site_referer && !req.empty_cookie);
    match subtitles_on_info(&info(Some(0), None, Some(11), Some(22))) {
        SubtitleStep::Get(r) => {
            assert_eq!(r.url, "https://api.bilibili.com/x/player/wbi/v2?aid=11&cid=22");
            assert!(r.site_referer && r.empty_cookie && !r.accept_octet_stream);
        }
        _ => panic!("expected a request"),
    }
    assert!(matches!(
        subtitles_on_info(&info(Some(1), None, None, None)),
        SubtitleStep::Fail(ref m) if m == "Failed to fetch video info"
    ));
    let tracks = vec![SubtitleTrack {
        lan: Some("ai-zh".to_string()),
        subtitle_url: Some("//x/s.json".to_string()),
    }];
    assert!(matches!(
        subtitles_on_player(Some(0), &Some(tracks)),
        SubtitleStep::LoadFile(ref u) if u == "https://x/s.json"
    ));
    assert!(matches!(subtitles_on_player(Some(0), &None), SubtitleStep::NoSubtitles));
}

#[test]
fn audio_fetch_steps() {
    let req = audio_fetch_start("BV1WYXDB7EPm");
    assert_eq!(req.url, "https://api.bilibili.com/x/web-interface/view?bvid=BV1WYXDB7EPm");
    assert!(!req.site_referer);
    match audio_on_info("BV1WYXDB7EPm", &info(Some(0), None, None, Some(22))) {
        AudioStep::Get(r) => {
            assert_eq!(
                r.url,
                "https://api.bilibili.com/x/player/playurl?bvid=BV1WYXDB7EPm&cid=22&fnval=16"
            );
            assert!(r.site_referer && !r.empty_cookie);
        }
        _ => panic!("expected a request"),
    }
    assert!(matches!(
        audio_on_info("BV1", &info(None, None, None, None)),
        AudioStep::Fail(ref m) if m == "Failed to fetch video info"
    ));
    let streams = vec![AudioStream {
        id: Some(1),
        base_url_camel: None,
        base_url_snake: Some("https://cdn/a.m4s".to_string()),
    }];
    assert!(matches!(
        audio_on_streams(Some(0), &None, &Some(streams)),
        AudioStep::Download(ref u) if u == "https://cdn/a.m4s"
    ));
    assert!(matches!(audio_on_streams(Some(0), &None, &None), AudioStep::NoAudio(None)));
    assert!(matches!(
        audio_on_streams(Some(-1), &Some("no".to_string()), &None),
        AudioStep::NoAudio(Some(ref w)) if w == "警告：获取 playurl 失败: no"
    ));
}
