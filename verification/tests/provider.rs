use codex_ide::provider::{Run, RunAction, RunEvent};

fn show(action: RunAction) -> String {
    match action {
        RunAction::HoldSession => "session".to_owned(),
        RunAction::Forget => "forget".to_owned(),
        RunAction::Tell(status) => {
            assert!(!status.available && !status.succeeded);
            format!("tell {:?}", status.error)
        }
        RunAction::Wait(millis) => format!("wait {millis}"),
        RunAction::Return => "return".to_owned(),
    }
}

#[test]
fn one_status_follows_each_session() {
    let (mut run, first) = Run::new();
    assert_eq!(show(first), "session");
    let mut actions = vec![];
    for event in [
        RunEvent::Ended(Some("broken pipe".to_owned())),
        RunEvent::Forgotten,
        RunEvent::Told(true),
        RunEvent::Waited,
        RunEvent::Ended(None),
        RunEvent::Forgotten,
        RunEvent::Told(false),
    ] {
        actions.push(show(run.decide(event)));
    }
    assert_eq!(
        actions,
        [
            "forget",
            r#"tell Some("broken pipe")"#,
            "wait 1000",
            "session",
            "forget",
            "tell None",
            "return",
        ]
    );
}
