use trmnl::api_key::{ApiKeyPair, ParsedToken};
use trmnl::display::{image_file_name, image_url_text, refresh_rate, DisplayResponse, SpecialFunction};
use trmnl::extractor::{
    ApiKeyExtractor, DeviceId, DeviceIdErr, HeaderText, LookupFailed, Rejection, TokenExtractor,
};
use trmnl::todos::{top_tasks, top_todos, todo_line, todo_text, Date, Task};
use trmnl::text::{join_strings, split_whitespace};
use trmnl::weather::{after_fetch, initial_report, weather_block, PollStep};

fn text(s: &str) -> HeaderText {
    HeaderText::Text(s.to_string())
}

#[test]
fn device_ids_from_headers() {
    let id = DeviceId::from_header(text("12:34:56:78:9A:BC")).unwrap();
    assert_eq!(id.as_bytes(), &[0x12, 0x34, 0x56, 0x78, 0x9a, 0xbc]);
    let id = DeviceId::from_header(text("12-34-56-78-9a-bc-de-f0")).unwrap();
    assert_eq!(id.as_bytes().len(), 8);
    assert!(matches!(DeviceId::from_header(HeaderText::Missing), Err(DeviceIdErr::MissingHeader)));
    assert!(matches!(DeviceId::from_header(HeaderText::NotText), Err(DeviceIdErr::HeaderValue)));
    assert!(matches!(DeviceId::from_header(text("not a mac")), Err(DeviceIdErr::ParseErr)));
    assert!(DeviceId::from_bytes(&[1, 2, 3, 4, 5, 6]).is_some());
    assert!(DeviceId::from_bytes(&[1, 2, 3]).is_none());
}

#[test]
fn token_headers() {
    assert!(matches!(TokenExtractor::from_header(HeaderText::Missing), Err(Rejection::Unauthorized)));
    assert!(matches!(TokenExtractor::from_header(HeaderText::NotText), Err(Rejection::BadRequest)));
    assert!(matches!(TokenExtractor::from_header(text("TRMV1")), Err(Rejection::Unauthorized)));
    let pair = ApiKeyPair::from_parts((), b"x", [5u8; 16], [6u8; 32]);
    let t = TokenExtractor::from_header(text(pair.token.as_str())).unwrap();
    assert_eq!(ApiKeyExtractor::key_id(&t), [5u8; 16]);
    assert_eq!(Rejection::BadRequest.status_code(), 400);
    assert_eq!(Rejection::Unauthorized.status_code(), 401);
    assert_eq!(Rejection::InternalServerError.status_code(), 500);
}

fn issued(device: &DeviceId) -> (TokenExtractor, trmnl::api_key::ApiKey<DeviceId>) {
    let owner = DeviceId::from_bytes(device.as_bytes()).unwrap();
    let pair = ApiKeyPair::new(owner, device.as_bytes());
    let token = TokenExtractor::from_header(text(pair.token.as_str())).unwrap();
    (token, pair.api_key)
}

#[test]
fn the_stored_key_decides() {
    let device = DeviceId::from_bytes(&[1, 2, 3, 4, 5, 6]).unwrap();
    let (token, key) = issued(&device);
    let accepted = ApiKeyExtractor::from_record(token, device, Ok(Some(key))).unwrap();
    assert_eq!(accepted.parsed_token.version(), 1);
    assert_eq!(accepted.parsed_token.uuid(), &accepted.api_key.id);

    let device = DeviceId::from_bytes(&[1, 2, 3, 4, 5, 6]).unwrap();
    let other = DeviceId::from_bytes(&[9, 9, 9, 9, 9, 9]).unwrap();
    let (token, key) = issued(&device);
    assert!(matches!(
        ApiKeyExtractor::from_record(token, other, Ok(Some(key))),
        Err(Rejection::Unauthorized)
    ));

    let (token, _) = issued(&device);
    assert!(matches!(
        ApiKeyExtractor::from_record(token, DeviceId::from_bytes(&[1, 2, 3, 4, 5, 6]).unwrap(), Ok(None)),
        Err(Rejection::Unauthorized)
    ));
    let (token, _) = issued(&device);
    assert!(matches!(
        ApiKeyExtractor::from_record(token, device, Err(LookupFailed)),
        Err(Rejection::InternalServerError)
    ));
}

#[test]
fn request_rejections() {
    let device = DeviceId::from_bytes(&[1, 2, 3, 4, 5, 6]).unwrap();
    assert!(matches!(
        ApiKeyExtractor::request(Err(Rejection::Unauthorized), Ok(device)),
        Err(Rejection::Unauthorized)
    ));
    let (token, _) = issued(&DeviceId::from_bytes(&[1, 2, 3, 4, 5, 6]).unwrap());
    assert!(matches!(
        ApiKeyExtractor::request(Ok(token), Err(DeviceIdErr::ParseErr)),
        Err(Rejection::BadRequest)
    ));
}

#[test]
fn display_texts() {
    assert_eq!(refresh_rate(0), 60);
    assert_eq!(refresh_rate(59), 1);
    assert_eq!(image_file_name("abc"), "abc.bmp");
    assert_eq!(image_url_text("mira", Some(2300), "abc"), "http://mira:2300/app/abc.bmp");
    assert_eq!(image_url_text("mira", Some(7), "x"), "http://mira:7/app/x.bmp");
    assert_eq!(image_url_text("example.com", None, "abc"), "http://example.com/app/abc.bmp");
}

#[test]
fn display_answers() {
    let id = [
        0x01, 0x8f, 0x3a, 0x4b, 0x5c, 0x6d, 0x7e, 0x8f, 0x9a, 0xab, 0xbc, 0xcd, 0xde, 0xef, 0xf0, 0x12,
    ];
    let r = DisplayResponse::new(id, 45, "mira", Some(2300)).unwrap();
    assert_eq!(r.filename, "018f3a4b-5c6d-7e8f-9aab-bccddeeff012.bmp");
    assert_eq!(r.image_url, "http://mira:2300/app/018f3a4b-5c6d-7e8f-9aab-bccddeeff012.bmp");
    assert_eq!(r.refresh_rate, 15);
    assert_eq!(r.image_url_timeout, 0);
    assert!(r.firmware_url.is_none() && !r.reset_firmware && !r.update_firmware);
    assert_eq!(r.special_function, SpecialFunction::NoFunction);
    // The URL parser lowercases the host.
    let r = DisplayResponse::new([0; 16], 0, "MIRA", None).unwrap();
    assert_eq!(r.image_url, "http://mira/app/00000000-0000-0000-0000-000000000000.bmp");
    assert_eq!(r.refresh_rate, 60);
    assert!(matches!(DisplayResponse::new([0; 16], 0, "a b", None), Err(Rejection::BadRequest)));
    assert!(matches!(DisplayResponse::with_url("x", None, 3), Err(Rejection::BadRequest)));
    let r = DisplayResponse::with_url("x", Some("u".to_string()), 3).unwrap();
    assert_eq!((r.filename.as_str(), r.image_url.as_str(), r.refresh_rate), ("x.bmp", "u", 57));
    let r = DisplayResponse::for_poll(30, "mira", None).unwrap();
    assert_eq!(r.filename.len(), 40);
    assert_eq!(&r.filename[14..15], "7");
    assert_eq!(r.image_url, format!("http://mira/app/{}", r.filename));
}

fn task(completed: bool, priority: Option<char>, due: Option<Date>, contexts: &[&str], description: &str) -> Task {
    Task {
        completed,
        priority,
        due,
        contexts: contexts.iter().map(|c| c.to_string()).collect(),
        description: description.to_string(),
    }
}

fn date(year: i32, month: u32, day: u32) -> Date {
    Date { year, month, day }
}

#[test]
fn tasks_in_display_order() {
    let cutoff = date(2024, 5, 4);
    let tasks = vec![
        task(false, Some('B'), None, &["home"], "b"),
        task(true, Some('A'), None, &["home"], "done"),
        task(false, None, Some(date(2024, 5, 3)), &["home"], "due soon"),
        task(false, Some('A'), None, &["work"], "work"),
        task(false, Some('A'), Some(date(2024, 6, 1)), &["home"], "a later"),
        task(false, None, None, &["home"], "none"),
        task(false, Some('B'), None, &["home", "x"], "b2"),
        task(false, None, Some(date(2024, 5, 1)), &["home"], "due sooner"),
    ];
    let shown: Vec<String> = top_tasks(tasks, cutoff, 10).into_iter().map(|t| t.description).collect();
    assert_eq!(shown, vec!["due sooner", "due soon", "a later", "b", "b2", "none", "done"]);
}

#[test]
fn tasks_are_cut_to_the_limit() {
    let cutoff = date(2024, 1, 1);
    let tasks = vec![
        task(false, Some('C'), None, &["home"], "c"),
        task(false, Some('A'), None, &["home"], "a"),
        task(false, Some('B'), None, &["home"], "b"),
    ];
    let shown: Vec<String> = top_tasks(tasks, cutoff, 2).into_iter().map(|t| t.description).collect();
    assert_eq!(shown, vec!["a", "b"]);
    assert!(top_tasks(vec![], cutoff, 5).is_empty());
}

#[test]
fn tasks_due_within_three_days_lead() {
    let tasks = || {
        vec![
            task(false, Some('A'), None, &["home"], "a"),
            task(false, None, Some(date(2024, 3, 1)), &["home"], "march"),
            task(false, None, Some(date(2024, 2, 29)), &["home"], "leap day"),
        ]
    };
    let shown: Vec<String> =
        top_todos(tasks(), date(2024, 2, 27), 5).unwrap().into_iter().map(|t| t.description).collect();
    assert_eq!(shown, vec!["leap day", "a", "march"]);
    let shown: Vec<String> =
        top_todos(tasks(), date(2024, 2, 27), 1).unwrap().into_iter().map(|t| t.description).collect();
    assert_eq!(shown, vec!["leap day"]);
    let shown: Vec<String> =
        top_todos(tasks(), date(2024, 2, 26), 5).unwrap().into_iter().map(|t| t.description).collect();
    assert_eq!(shown, vec!["a", "march", "leap day"]);
    let shown: Vec<String> =
        top_todos(tasks(), date(2024, 2, 25), 5).unwrap().into_iter().map(|t| t.description).collect();
    assert_eq!(shown, vec!["a", "march", "leap day"]);
    assert!(top_todos(tasks(), date(2023, 2, 29), 5).is_none());
}

#[test]
fn task_lines() {
    let t = task(false, Some('A'), None, &["home"], "  water   the @home plants ");
    assert_eq!(todo_line(&t), "[ ] (A) water the plants");
    let t = task(true, None, None, &["home"], "@home");
    assert_eq!(todo_line(&t), "[x] ");
    let ts = vec![task(false, None, None, &[], "a"), task(true, Some('B'), None, &[], "b\tc")];
    assert_eq!(todo_text(&ts), "[ ] a\n[x] (B) b c");
    assert_eq!(todo_text(&vec![]), "");
}

#[test]
fn words_and_joins() {
    assert_eq!(split_whitespace(" a\u{3000}b  c\n"), vec!["a", "b", "c"]);
    assert!(split_whitespace(" \t ").is_empty());
    assert_eq!(join_strings(&vec!["x".to_string(), "y".to_string()], ", "), "x, y");
}

#[test]
fn weather_layout() {
    let raw = "Weather report\n\n    \\  /   Sunny  \r\n  .-.    20 °C\n   ―   \n\n \n";
    let block = weather_block(raw);
    assert_eq!(
        block.lines,
        vec!["Weather report", "", "    \\  /   Sunny", "  .-.    20 °C", "   ―"]
    );
    assert_eq!(block.width, 16);
    assert_eq!(block.height, 5);
    let block = weather_block("    \\  /   Sunny  \r\n  .-.    20 °C\n   ―   \n\n \n");
    assert_eq!(block.lines, vec!["  \\  /   Sunny", ".-.    20 °C", " ―"]);
    assert_eq!((block.width, block.height), (14, 3));
    assert_eq!(block.text, block.lines.join("\n"));
}

#[test]
fn weather_layout_dedents_by_the_smallest_indent() {
    let block = weather_block("    a\n  b\n      c\n");
    assert_eq!(block.lines, vec!["  a", "b", "    c"]);
    assert_eq!(block.width, 5);
    let block = weather_block("\n\n  \n");
    assert!(block.lines.is_empty());
    assert_eq!((block.width, block.height), (0, 0));
    // A two-byte indent that falls inside a character leaves that line empty.
    let block = weather_block("\u{a0}x\n  y");
    assert_eq!(block.lines, vec!["x", "y"]);
    let block = weather_block("\u{3000}x\n  y");
    assert_eq!(block.lines, vec!["", "y"]);
}

#[test]
fn weather_fallback() {
    assert_eq!(initial_report(Some("sun".to_string())), "sun");
    assert_eq!(initial_report(None), "Weather unavailable");
}

#[test]
fn parsed_token_from_extractor() {
    let pair = ApiKeyPair::from_parts((), b"x", [5u8; 16], [6u8; 32]);
    let t = TokenExtractor::from_header(text(pair.token.as_str())).unwrap();
    assert_eq!(t.parsed().uuid(), ParsedToken::parse(&pair.token).unwrap().uuid());
    assert_eq!(t.into_parsed().version(), 1);
}

#[test]
fn a_failed_fetch_keeps_the_report() {
    assert!(matches!(after_fetch(None), PollStep::KeepPrevious));
    match after_fetch(Some("rain".to_string())) {
        PollStep::Publish(t) => assert_eq!(t, "rain"),
        PollStep::KeepPrevious => panic!("a fetched report is published"),
    }
}
