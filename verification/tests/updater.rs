use synapse::preferences::AppLanguage;
use synapse::updater::{
    classify_release, json_named_assets, json_string_field, parse_latest_release,
    preferred_download_url, release_from_response, should_prompt_for_update, update_prompt, update_check_outcome, AppVersion,
    AvailableUpdate, UpdateCheckOrigin, UpdateCheckState, UpdateNotice, UpdatePlatform,
    APP_VERSION,
};

const SAMPLE_RELEASE: &str = r#"{
  "tag_name": "v0.2.0",
  "html_url": "https://github.com/08820048/Synapse/releases/tag/v0.2.0",
  "assets": [
    {
      "name": "Synapse-0.2.0-macos-universal.dmg",
      "url": "https://api.github.com/repos/08820048/Synapse/releases/assets/1",
      "browser_download_url": "https://github.com/08820048/Synapse/releases/download/v0.2.0/Synapse-0.2.0-macos-universal.dmg"
    },
    {
      "name": "Synapse-0.2.0-windows-x64.exe",
      "browser_download_url": "https://github.com/08820048/Synapse/releases/download/v0.2.0/Synapse-0.2.0-windows-x64.exe"
    }
  ]
}"#;

#[test]
fn parses_prefixed_and_plain_versions() {
    assert_eq!(
        AppVersion::parse("v0.1.2"),
        Some(AppVersion {
            major: 0,
            minor: 1,
            patch: 2
        })
    );
    assert_eq!(AppVersion::parse("0.1.2"), AppVersion::parse("v0.1.2"));
    assert_eq!(
        AppVersion::parse("1.0"),
        Some(AppVersion {
            major: 1,
            minor: 0,
            patch: 0
        })
    );
    assert!(AppVersion::parse("nope").is_none());
}

#[test]
fn newer_releases_sort_after_the_running_version() {
    let current = AppVersion::parse("0.1.2").unwrap();
    let latest = AppVersion::parse("0.2.0").unwrap();
    assert!(latest > current);
    assert!(AppVersion::parse("0.1.2").unwrap() == current);
}

#[test]
fn selects_platform_installers_and_ignores_api_asset_urls() {
    let release = parse_latest_release(SAMPLE_RELEASE, UpdatePlatform::Macos).unwrap();
    assert_eq!(release.version, "0.2.0");
    assert!(release.download_url.ends_with(".dmg"));
    assert!(!release.download_url.contains("/assets/"));

    let windows = parse_latest_release(SAMPLE_RELEASE, UpdatePlatform::Windows).unwrap();
    assert!(windows.download_url.ends_with(".exe"));
}

#[test]
fn classify_release_only_prompts_when_newer() {
    let latest = parse_latest_release(SAMPLE_RELEASE, UpdatePlatform::Macos).unwrap();
    let current = AppVersion::parse("0.1.2").unwrap();
    assert!(classify_release(latest.clone(), current).is_ok());
    assert_eq!(
        classify_release(latest, AppVersion::parse("0.2.0").unwrap()),
        Err(UpdateCheckState::Current)
    );
}

#[test]
fn dismissed_versions_suppress_the_startup_prompt() {
    let latest = AvailableUpdate {
        version: "0.2.0".to_owned(),
        release_url: "https://example.com".to_owned(),
        download_url: "https://example.com/app.dmg".to_owned(),
    };
    assert!(should_prompt_for_update(&latest, None));
    assert!(!should_prompt_for_update(&latest, Some("0.2.0")));
    assert!(should_prompt_for_update(&latest, Some("0.1.9")));
}

#[test]
fn version_parsing_trims_strips_suffixes_and_rejects_extra_parts() {
    assert_eq!(
        AppVersion::parse("  V1.2.3-beta+7 \n"),
        Some(AppVersion { major: 1, minor: 2, patch: 3 })
    );
    assert_eq!(
        AppVersion::parse("7"),
        Some(AppVersion { major: 7, minor: 0, patch: 0 })
    );
    assert_eq!(AppVersion::parse("1.2.3.4"), None);
    assert_eq!(AppVersion::parse("1..3"), None);
    assert_eq!(AppVersion::parse("4294967296.0.0"), None);
    assert_eq!(AppVersion::parse("+4294967295.1.0"), None);
    assert_eq!(
        AppVersion::parse("4294967295.+1"),
        None
    );
    assert_eq!(
        AppVersion::parse("4294967295.01"),
        Some(AppVersion { major: 4294967295, minor: 1, patch: 0 })
    );
    assert_eq!(AppVersion::parse(""), None);
    assert_eq!(AppVersion::current(), AppVersion::parse(APP_VERSION));
    assert_eq!(
        AppVersion::current(),
        Some(AppVersion { major: 0, minor: 1, patch: 0 })
    );
}

#[test]
fn release_errors_name_the_missing_or_invalid_tag() {
    assert_eq!(
        parse_latest_release("{}", UpdatePlatform::Macos),
        Err("missing tag_name".to_owned())
    );
    assert_eq!(
        parse_latest_release(r#"{"tag_name": "next"}"#, UpdatePlatform::Macos),
        Err("invalid tag next".to_owned())
    );
    let release =
        parse_latest_release(r#"{"tag_name": "v1.2"}"#, UpdatePlatform::Other).unwrap();
    assert_eq!(release.version, "1.2.0");
    assert_eq!(
        release.release_url,
        "https://github.com/08820048/Synapse/releases/tag/v1.2"
    );
    assert_eq!(release.download_url, release.release_url);
}

#[test]
fn classify_reports_unreadable_versions() {
    let latest = AvailableUpdate {
        version: "latest".to_owned(),
        release_url: String::new(),
        download_url: String::new(),
    };
    assert_eq!(
        classify_release(latest, AppVersion { major: 0, minor: 1, patch: 0 }),
        Err(UpdateCheckState::Failed("invalid latest version".to_owned()))
    );
}

#[test]
fn json_helpers_decode_escapes_and_list_named_assets() {
    assert_eq!(
        json_string_field(r#"{"k" :  "a\"b\\c\nd"}"#, "k"),
        Some("a\"b\\c\nd".to_owned())
    );
    assert_eq!(json_string_field(r#"{"k": 3}"#, "k"), None);
    assert_eq!(json_string_field(r#"{"k": "open"#, "k"), None);
    let assets = json_named_assets(SAMPLE_RELEASE);
    assert_eq!(assets.len(), 2);
    assert_eq!(assets[0].0, "Synapse-0.2.0-macos-universal.dmg");
    assert_eq!(assets[1].0, "Synapse-0.2.0-windows-x64.exe");
    assert!(json_named_assets(r#"{"name": "x"}"#).is_empty());
    let upper = vec![("SYNAPSE-MACOS.DMG".to_owned(), "u".to_owned())];
    assert_eq!(preferred_download_url(&upper, UpdatePlatform::Macos), Some("u"));
    assert_eq!(preferred_download_url(&upper, UpdatePlatform::Windows), None);
    assert_eq!(preferred_download_url(&upper, UpdatePlatform::Other), None);
}

fn release(version: &str) -> AvailableUpdate {
    AvailableUpdate {
        version: version.to_owned(),
        release_url: "https://example.com".to_owned(),
        download_url: "https://example.com/app.dmg".to_owned(),
    }
}

#[test]
fn update_outcomes_prompt_report_or_stay_silent() {
    let current = AppVersion::parse("0.1.2");
    assert_eq!(
        update_check_outcome(
            UpdateCheckOrigin::Startup,
            Ok(release("0.2.0")),
            current,
            None,
            AppLanguage::English
        ),
        (
            UpdateCheckState::Available(release("0.2.0")),
            UpdateNotice::Prompt(release("0.2.0"))
        )
    );
    assert_eq!(
        update_check_outcome(
            UpdateCheckOrigin::Startup,
            Ok(release("0.2.0")),
            current,
            Some("0.2.0"),
            AppLanguage::English
        ),
        (UpdateCheckState::Available(release("0.2.0")), UpdateNotice::Silent)
    );
    assert_eq!(
        update_check_outcome(
            UpdateCheckOrigin::Manual,
            Ok(release("0.2.0")),
            current,
            Some("0.2.0"),
            AppLanguage::English
        ),
        (
            UpdateCheckState::Available(release("0.2.0")),
            UpdateNotice::Prompt(release("0.2.0"))
        )
    );
    assert_eq!(
        update_check_outcome(
            UpdateCheckOrigin::Manual,
            Ok(release("0.1.2")),
            current,
            None,
            AppLanguage::English
        ),
        (UpdateCheckState::Current, UpdateNotice::UpToDate)
    );
    assert_eq!(
        update_check_outcome(
            UpdateCheckOrigin::Startup,
            Ok(release("0.1.0")),
            current,
            None,
            AppLanguage::English
        ),
        (UpdateCheckState::Current, UpdateNotice::Silent)
    );
    assert_eq!(
        update_check_outcome(
            UpdateCheckOrigin::Manual,
            Err("offline".to_owned()),
            current,
            None,
            AppLanguage::English
        ),
        (
            UpdateCheckState::Failed("offline".to_owned()),
            UpdateNotice::CheckFailed("offline".to_owned())
        )
    );
    assert_eq!(
        update_check_outcome(
            UpdateCheckOrigin::Startup,
            Ok(release("nope")),
            current,
            None,
            AppLanguage::English
        ),
        (
            UpdateCheckState::Failed("invalid latest version".to_owned()),
            UpdateNotice::Silent
        )
    );
    assert_eq!(
        update_check_outcome(
            UpdateCheckOrigin::Manual,
            Ok(release("0.2.0")),
            None,
            None,
            AppLanguage::SimplifiedChinese
        ),
        (
            UpdateCheckState::Failed("无法读取当前版本".to_owned()),
            UpdateNotice::Silent
        )
    );
}

#[test]
fn release_responses_map_status_codes_before_reading_the_body() {
    assert_eq!(
        release_from_response(404, SAMPLE_RELEASE, UpdatePlatform::Macos),
        Err("no published release".to_owned())
    );
    assert_eq!(
        release_from_response(503, SAMPLE_RELEASE, UpdatePlatform::Macos),
        Err("HTTP 503".to_owned())
    );
    assert_eq!(
        release_from_response(302, "", UpdatePlatform::Macos),
        Err("HTTP 302".to_owned())
    );
    assert_eq!(
        release_from_response(200, "{}", UpdatePlatform::Macos),
        Err("missing tag_name".to_owned())
    );
    let release = release_from_response(204, SAMPLE_RELEASE, UpdatePlatform::Windows).unwrap();
    assert_eq!(release.version, "0.2.0");
    assert!(release.download_url.ends_with(".exe"));
}

#[test]
fn the_update_dialog_names_both_versions() {
    let update = parse_latest_release(SAMPLE_RELEASE, UpdatePlatform::Macos).unwrap();
    let (title, message, download, later) = update_prompt(&update, AppLanguage::English);
    assert_eq!(title, "Update available");
    assert_eq!(message, format!("Synapse 0.2.0 is available. You're on {APP_VERSION}."));
    assert_eq!((download.as_str(), later.as_str()), ("Download", "Later"));

    let (title, message, download, later) = update_prompt(&update, AppLanguage::SimplifiedChinese);
    assert_eq!(title, "发现新版本");
    assert_eq!(
        message,
        format!("Synapse 0.2.0 已发布，当前版本是 {APP_VERSION}。下载后安装即可完成更新。")
    );
    assert_eq!((download.as_str(), later.as_str()), ("下载更新", "稍后"));
}

#[test]
fn formatted_versions_read_back() {
    let v = AppVersion { major: 12, minor: 0, patch: 7 };
    for prefix in ["", "v", "V"] {
        for suffix in ["", "-rc.1", "+build.7"] {
            let text = format!(" {prefix}12.0.7{suffix}\t");
            assert_eq!(AppVersion::parse(&text), Some(v));
        }
    }
    assert_eq!(
        AppVersion::parse("4.5"),
        Some(AppVersion { major: 4, minor: 5, patch: 0 })
    );
    assert_eq!(AppVersion::parse("1.2.3.0"), None);
}
