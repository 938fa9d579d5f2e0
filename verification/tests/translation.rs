use chunk_translate::chunker::divide_into_chunks;
use chunk_translate::gemma::{build_gemma_model, ConfigError, GemmaModel};
use chunk_translate::orchestrator::{
    build_fixer_request, build_translation_request, Action, Event, Phase, Translation,
};

struct Record {
    requests: Vec<String>,
    output: String,
    steps: usize,
}

fn drive(translation: Translation, document: &str, client: &dyn Fn(&str) -> String) -> Record {
    let mut record = Record { requests: Vec::new(), output: String::new(), steps: 0 };
    let (mut translation, mut action) = translation.step(Event::Start(document.to_string()));
    loop {
        record.steps += 1;
        let event = match action {
            Some(Action::Ask(request)) => {
                let reply = client(&request);
                record.requests.push(request);
                Event::Reply(reply)
            }
            Some(Action::Append(text)) => {
                record.output.push_str(&text);
                Event::Appended
            }
            Some(Action::Finish) => break,
            None => panic!("the machine refused an event that it asked for"),
        };
        let next = translation.step(event);
        translation = next.0;
        action = next.1;
    }
    assert!(translation.is_done());
    assert_eq!(translation.phase(), Phase::Done);
    assert_eq!(translation.position(), translation.chunk_count());
    record
}

fn drive_with_settings(
    _settings: GemmaModel,
    translation: Translation,
    document: &str,
    client: &dyn Fn(&str) -> String,
) -> Record {
    drive(translation, document, client)
}

fn echo(request: &str) -> String {
    format!("<output>{}</output>", request)
}

fn numbered_lines(n: usize) -> Vec<String> {
    (0..n).map(|i| format!("line {}", i)).collect()
}

#[test]
fn request_for_a_translation() {
    assert_eq!(
        build_translation_request("Translate:\n", "a\nb\n"),
        "Translate:\n<document>\na\nb\n</document>"
    );
    assert_eq!(build_translation_request("", ""), "<document>\n</document>");
}

#[test]
fn request_for_a_correction() {
    assert_eq!(
        build_fixer_request("Fix:\n", "a\nb\n", "x\ny\n"),
        "Fix:\n<document>\na\nb\n</document>\n<translated>\nx\ny\n</translated>"
    );
    assert_eq!(build_fixer_request("", "", ""), "<document>\n</document>\n<translated>\n</translated>");
}

#[test]
fn new_translation_is_idle() {
    let translation = Translation::new("p".to_string(), None, 20);
    assert_eq!(translation.phase(), Phase::Idle);
    assert_eq!(translation.position(), 0);
    assert_eq!(translation.chunk_count(), 0);
    assert!(!translation.is_done());
}

#[test]
fn forty_five_lines_through_an_echoing_model() {
    let lines = numbered_lines(45);
    let document = lines.join("\n");
    let translation = Translation::new("Translate:\n".to_string(), None, 20);
    let record = drive(translation, &document, &echo);

    assert_eq!(record.requests.len(), 3);
    let chunks = divide_into_chunks(document.clone(), 20);
    let expected: Vec<String> =
        chunks.iter().map(|chunk| format!("Translate:\n<document>\n{}</document>", chunk)).collect();
    assert_eq!(record.requests, expected);
    assert_eq!(record.output, expected.concat());

    let bare = record.output.replace("Translate:\n<document>\n", "").replace("</document>", "");
    assert_eq!(bare, format!("{}\n", document));
    let written: Vec<&str> = bare.lines().collect();
    assert_eq!(written, lines);
    for line in &lines {
        assert_eq!(record.output.matches(&format!("{}\n", line)).count(), 1);
    }
}

#[test]
fn replies_are_reduced_to_their_answers_in_chunk_order() {
    let translation = Translation::new("T:".to_string(), None, 1);
    let client = |request: &str| {
        let n = request.matches('\n').count();
        format!("thinking...<output>[{}]</output>done", n)
    };
    let record = drive(translation, "a\nb\nc\nd", &client);
    assert_eq!(
        record.requests,
        vec![
            "T:<document>\na\nb\n</document>".to_string(),
            "T:<document>\nc\n</document>".to_string(),
            "T:<document>\nd\n</document>".to_string(),
        ]
    );
    assert_eq!(record.output, "[3][2][2]");
}

#[test]
fn second_pass_sends_chunk_and_translation() {
    let translation = Translation::new("T:".to_string(), Some("F:".to_string()), 1);
    let client = |request: &str| {
        if request.starts_with("T:") {
            "<output>draft</output>".to_string()
        } else {
            "<output>final</output>".to_string()
        }
    };
    let record = drive(translation, "a\nb\nc", &client);
    assert_eq!(
        record.requests,
        vec![
            "T:<document>\na\nb\n</document>".to_string(),
            "F:<document>\na\nb\n</document>\n<translated>\ndraft</translated>".to_string(),
            "T:<document>\nc\n</document>".to_string(),
            "F:<document>\nc\n</document>\n<translated>\ndraft</translated>".to_string(),
        ]
    );
    assert_eq!(record.output, "finalfinal");
    assert_eq!(record.steps, 7);
}

#[test]
fn steps_per_chunk() {
    let document = numbered_lines(45).join("\n");
    let record = drive(Translation::new(String::new(), None, 20), &document, &echo);
    assert_eq!(record.steps, 2 * 3 + 1);
    let record = drive(Translation::new(String::new(), Some(String::new()), 20), &document, &echo);
    assert_eq!(record.steps, 3 * 3 + 1);
}

#[test]
fn reply_without_an_answer_writes_nothing() {
    let translation = Translation::new("T:".to_string(), None, 5);
    let client = |_: &str| "Chat error: HTTP error: connection refused".to_string();
    let record = drive(translation, "a\nb", &client);
    assert_eq!(record.requests.len(), 1);
    assert_eq!(record.output, "");
}

#[test]
fn document_without_line_feed_is_one_request() {
    let record = drive(Translation::new("T:".to_string(), None, 3), "single line", &echo);
    assert_eq!(record.requests, vec!["T:<document>\nsingle line</document>".to_string()]);
    assert_eq!(record.output, "T:<document>\nsingle line</document>");
}

#[test]
fn empty_document_is_one_empty_chunk() {
    let record = drive(Translation::new("T:".to_string(), None, 3), "", &echo);
    assert_eq!(record.requests, vec!["T:<document>\n</document>".to_string()]);
}

#[test]
fn event_that_does_not_fit_is_refused() {
    let translation = Translation::new("T:".to_string(), None, 1);
    let (translation, action) = translation.step(Event::Reply("<output>x</output>".to_string()));
    assert_eq!(action, None);
    assert_eq!(translation.phase(), Phase::Idle);
    let (translation, action) = translation.step(Event::Appended);
    assert_eq!(action, None);
    assert_eq!(translation.phase(), Phase::Idle);

    let (translation, action) = translation.step(Event::Start("a\nb\nc".to_string()));
    assert_eq!(action, Some(Action::Ask("T:<document>\na\nb\n</document>".to_string())));
    assert_eq!(translation.phase(), Phase::Translating);
    assert_eq!(translation.chunk_count(), 2);
    let (translation, action) = translation.step(Event::Start("other".to_string()));
    assert_eq!(action, None);
    assert_eq!(translation.chunk_count(), 2);
    let (translation, action) = translation.step(Event::Appended);
    assert_eq!(action, None);
    assert_eq!(translation.phase(), Phase::Translating);

    let (translation, action) = translation.step(Event::Reply("<output>x</output>".to_string()));
    assert_eq!(action, Some(Action::Append("x".to_string())));
    assert_eq!(translation.phase(), Phase::Appending);
    assert_eq!(translation.position(), 0);
    let (translation, action) = translation.step(Event::Reply("<output>y</output>".to_string()));
    assert_eq!(action, None);
    assert_eq!(translation.phase(), Phase::Appending);

    let (translation, action) = translation.step(Event::Appended);
    assert_eq!(action, Some(Action::Ask("T:<document>\nc\n</document>".to_string())));
    assert_eq!(translation.position(), 1);
    let (translation, _) = translation.step(Event::Reply(String::new()));
    let (translation, action) = translation.step(Event::Appended);
    assert_eq!(action, Some(Action::Finish));
    assert!(translation.is_done());
    assert_eq!(translation.position(), 2);

    let (translation, action) = translation.step(Event::Start("again".to_string()));
    assert_eq!(action, None);
    let (translation, action) = translation.step(Event::Appended);
    assert_eq!(action, None);
    assert!(translation.is_done());
}

#[test]
fn second_pass_phase_takes_only_a_reply() {
    let translation = Translation::new("T:".to_string(), Some("F:".to_string()), 1);
    let (translation, _) = translation.step(Event::Start("a".to_string()));
    let (translation, action) = translation.step(Event::Reply("<output>d</output>".to_string()));
    assert_eq!(
        action,
        Some(Action::Ask("F:<document>\na</document>\n<translated>\nd</translated>".to_string()))
    );
    assert_eq!(translation.phase(), Phase::Fixing);
    let (translation, action) = translation.step(Event::Appended);
    assert_eq!(action, None);
    assert_eq!(translation.phase(), Phase::Fixing);
    let (translation, action) = translation.step(Event::Reply("no tags".to_string()));
    assert_eq!(action, Some(Action::Append(String::new())));
    assert_eq!(translation.phase(), Phase::Appending);
}

#[test]
fn no_credential_no_run() {
    let mut output = String::new();
    let mut asked = 0usize;
    match build_gemma_model("You translate.".to_string(), None) {
        Ok(settings) => {
            let translation = Translation::new("T:".to_string(), None, 20);
            let record = drive_with_settings(settings, translation, "a\nb", &echo);
            asked = record.requests.len();
            output = record.output;
        }
        Err(error) => assert_eq!(error, ConfigError::MissingCredential),
    }
    assert_eq!(asked, 0);
    assert_eq!(output, "");
}
