use onedrive_davfs::calendar::{civil_from_days, days_from_civil};
use onedrive_davfs::timestamp::parse_iso8601_to_unix;
use onedrive_davfs::xml::{http_date, multistatus, pct_decode, pct_encode, xml_escape, DavEntry};

#[test]
fn http_date_epoch() {
    assert_eq!(http_date(0), "Thu, 01 Jan 1970 00:00:00 GMT");
}

#[test]
fn http_date_known_value() {
    // 2026-01-12T08:30:00Z
    let unix = 1768206600;
    assert_eq!(http_date(unix), "Mon, 12 Jan 2026 08:30:00 GMT");
}

#[test]
fn xml_escape_special_chars() {
    assert_eq!(xml_escape(r#"a<b>c&d"e'f"#), "a&lt;b&gt;c&amp;d&quot;e&apos;f");
}

#[test]
fn pct_encode_preserves_slashes() {
    assert_eq!(pct_encode("/a b/c#d"), "/a%20b/c%23d");
}

#[test]
fn multistatus_file_has_empty_resourcetype_and_length() {
    let entries = vec![DavEntry {
        href: "/report.docx".to_string(),
        is_dir: false,
        size: 42,
        last_modified: 0,
        etag: "abc123".to_string(),
    }];
    let xml = multistatus(&entries);
    assert!(xml.contains("207") == false); // the status text is not part of the body
    assert!(xml.contains("<D:resourcetype></D:resourcetype>"));
    assert!(xml.contains("<D:getcontentlength>42</D:getcontentlength>"));
    assert!(xml.contains("Thu, 01 Jan 1970 00:00:00 GMT"));
    assert!(!xml.ends_with('/'));
}

#[test]
fn multistatus_folder_has_collection_resourcetype_and_trailing_slash_href() {
    let entries = vec![DavEntry {
        href: "/Documents".to_string(),
        is_dir: true,
        size: 0,
        last_modified: 0,
        etag: "xyz".to_string(),
    }];
    let xml = multistatus(&entries);
    assert!(xml.contains("<D:resourcetype><D:collection/></D:resourcetype>"));
    assert!(xml.contains("<D:href>/Documents/</D:href>"));
    assert!(!xml.contains("getcontentlength"));
}

#[test]
fn multistatus_is_well_formed_multistatus_root() {
    let xml = multistatus(&[]);
    assert!(xml.contains("<D:multistatus xmlns:D=\"DAV:\">"));
    assert!(xml.trim_end().ends_with("</D:multistatus>"));
}

#[test]
fn multistatus_exact_text() {
    let entries = vec![
        DavEntry {
            href: "/".to_string(),
            is_dir: true,
            size: 0,
            last_modified: 1768206600,
            etag: "a\"b".to_string(),
        },
        DavEntry {
            href: "/x y".to_string(),
            is_dir: false,
            size: 7,
            last_modified: 0,
            etag: String::new(),
        },
    ];
    let want = "<?xml version=\"1.0\" encoding=\"utf-8\"?>
<D:multistatus xmlns:D=\"DAV:\">
<D:response>
  <D:href>/</D:href>
  <D:propstat>
    <D:prop>
      <D:resourcetype><D:collection/></D:resourcetype>
      <D:getlastmodified>Mon, 12 Jan 2026 08:30:00 GMT</D:getlastmodified>
      <D:getetag>&quot;a&quot;b&quot;</D:getetag>
      
    </D:prop>
    <D:status>HTTP/1.1 200 OK</D:status>
  </D:propstat>
</D:response>
<D:response>
  <D:href>/x%20y</D:href>
  <D:propstat>
    <D:prop>
      <D:resourcetype></D:resourcetype>
      <D:getlastmodified>Thu, 01 Jan 1970 00:00:00 GMT</D:getlastmodified>
      <D:getetag>&quot;&quot;</D:getetag>
      <D:getcontentlength>7</D:getcontentlength>
    </D:prop>
    <D:status>HTTP/1.1 200 OK</D:status>
  </D:propstat>
</D:response>
</D:multistatus>";
    assert_eq!(multistatus(&entries), want);
}

#[test]
fn http_dates_over_leap_days_and_far_years() {
    assert_eq!(http_date(951782399), "Mon, 28 Feb 2000 23:59:59 GMT");
    assert_eq!(http_date(951782400), "Tue, 29 Feb 2000 00:00:00 GMT");
    assert_eq!(http_date(4107542400), "Mon, 01 Mar 2100 00:00:00 GMT");
    assert_eq!(http_date(1735689599), "Tue, 31 Dec 2024 23:59:59 GMT");
    assert_eq!(http_date(u64::MAX), "Thu, 09 Nov 584554051223 07:00:15 GMT");
}

#[test]
fn civil_dates_go_both_ways() {
    assert_eq!(civil_from_days(0), (1970, 1, 1));
    assert_eq!(civil_from_days(-1), (1969, 12, 31));
    assert_eq!(civil_from_days(-719468), (0, 3, 1));
    assert_eq!(civil_from_days(11016), (2000, 2, 29));
    for z in (-800_000..800_000).step_by(37) {
        let (y, m, d) = civil_from_days(z);
        assert_eq!(days_from_civil(y, m, d), z);
    }
}

#[test]
fn percent_coding_round_trip() {
    for s in ["", "/a b/c#d", "é/ü%", "100%25", "a+b", "\u{1F600}"] {
        assert_eq!(pct_decode(&pct_encode(s)).as_deref(), Some(s));
    }
    assert_eq!(pct_encode("é"), "%C3%A9");
    assert_eq!(pct_decode("%c3%a9").as_deref(), Some("é"));
    assert_eq!(pct_decode("%"), None);
    assert_eq!(pct_decode("%4"), None);
    assert_eq!(pct_decode("%zz"), None);
    assert_eq!(pct_decode("%ff"), None);
}

#[test]
fn parses_iso8601_utc() {
    assert_eq!(parse_iso8601_to_unix("2026-01-12T08:30:00Z"), 1768206600);
}

#[test]
fn parses_iso8601_with_fractional_seconds() {
    assert_eq!(parse_iso8601_to_unix("2026-01-12T08:30:00.1234567Z"), 1768206600);
}

#[test]
fn tolerates_garbage_by_returning_zero() {
    assert_eq!(parse_iso8601_to_unix("not-a-date"), 0);
}

#[test]
fn days_from_civil_matches_epoch() {
    assert_eq!(days_from_civil(1970, 1, 1), 0);
    assert_eq!(days_from_civil(2026, 1, 12), 20465);
}

#[test]
fn times_before_1970_are_zero() {
    assert_eq!(parse_iso8601_to_unix("1969-12-31T23:59:59Z"), 0);
    assert_eq!(parse_iso8601_to_unix("1970-01-01T00:00:01Z"), 1);
    assert_eq!(parse_iso8601_to_unix("1970-01-01T00:00:01"), 1);
    assert_eq!(parse_iso8601_to_unix("0000-01-01T00:00:00Z"), 0);
}

#[test]
fn texts_that_are_no_timestamps_are_zero() {
    for text in [
        "",
        "2026-01-12T08:30",
        "2026-03-00T00:00:00Z",
        "2026-00-01T00:00:00Z",
        "2026-13-01T00:00:00Z",
        "2026-04-31T00:00:00Z",
        "2025-02-29T00:00:00Z",
        "2100-02-29T00:00:00Z",
        "2026-01-12T24:00:01Z",
        "2026-01-12T24:30:00Z",
        "2026-01-12T25:00:00Z",
        "2026-01-12T08:60:00Z",
        "2026-01-12T08:30:61Z",
        "2026-01-12_08:30:00Z",
        "2026-01-12T08:30:00.Z",
        "2026-01-12T08:30:00Zulu",
        "2026-01-12T08:30:00+24:00",
        "2026-01-12T08:30:00+2",
        "x2026-01-12T08:30:00Z",
        "2026/01/12T08:30:00Z",
        "20260112T083000Z",
        "1 1 1970 1 1 1",
    ] {
        assert_eq!(parse_iso8601_to_unix(text), 0, "{text}");
    }
}

#[test]
fn zones_and_fractions() {
    assert_eq!(parse_iso8601_to_unix("2026-01-12T08:30:00+00:00"), 1768206600);
    assert_eq!(parse_iso8601_to_unix("2026-01-12T10:30:00+02:00"), 1768206600);
    assert_eq!(parse_iso8601_to_unix("2026-01-12T03:00:00.5-05:30"), 1768206600);
    assert_eq!(parse_iso8601_to_unix("2026-01-12T09:30:00,25+01"), 1768206600);
    assert_eq!(parse_iso8601_to_unix("2024-02-29T00:00:00Z"), 1709164800);
}

#[test]
fn the_ends_of_minutes_and_days() {
    assert_eq!(parse_iso8601_to_unix("2016-12-31T23:59:60Z"), 1483228800);
    assert_eq!(parse_iso8601_to_unix("2017-01-01T00:00:00Z"), 1483228800);
    assert_eq!(parse_iso8601_to_unix("2017-01-01T00:59:60+01:00"), 1483228800);
    assert_eq!(parse_iso8601_to_unix("2026-01-12T08:30:60Z"), 1768206660);
    assert_eq!(parse_iso8601_to_unix("2026-01-12T24:00:00Z"), 1768262400);
    assert_eq!(parse_iso8601_to_unix("2026-01-13T00:00:00Z"), 1768262400);
}

#[test]
fn other_ways_to_write_a_timestamp() {
    assert_eq!(parse_iso8601_to_unix("2026-01-12 08:30:00Z"), 1768206600);
    assert_eq!(parse_iso8601_to_unix("2026-01-12 08:30:00"), 1768206600);
    assert_eq!(parse_iso8601_to_unix("2026-01-12t08:30:00z"), 1768206600);
    assert_eq!(parse_iso8601_to_unix("2026-01-12T10:00:00+0130"), 1768206600);
}

#[test]
fn timestamps_give_back_the_date() {
    for (text, date) in [
        ("1970-01-01T00:00:00Z", "Thu, 01 Jan 1970 00:00:00 GMT"),
        ("2000-02-29T23:59:59Z", "Tue, 29 Feb 2000 23:59:59 GMT"),
        ("2026-01-12T08:30:00Z", "Mon, 12 Jan 2026 08:30:00 GMT"),
        ("9999-12-31T23:59:59Z", "Fri, 31 Dec 9999 23:59:59 GMT"),
    ] {
        assert_eq!(http_date(parse_iso8601_to_unix(text)), date);
    }
}

#[test]
fn escaped_text_has_no_markup() {
    let text = xml_escape("<a href=\"x\">'&'</a>");
    assert!(!text.contains(|c| "<>\"'".contains(c)));
    assert_eq!(text, "&lt;a href=&quot;x&quot;&gt;&apos;&amp;&apos;&lt;/a&gt;");
    assert_eq!(xml_escape("plain"), "plain");
}
