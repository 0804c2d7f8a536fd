use varde::debug::{Answer, Breakpoint, Held, Hovered, Phase, Watch};
use varde::json::{parse, to_text, Json};
use varde::debug::{Frame, Pause, Step};
use varde::debug::Gone;
use varde::session::{
    choose_frame, gone, hovered, launches, restart, watch, watch_hovered, received, resume, start, started, step, stop, Adapter, Ask, Asking, Heard, Launch, Refusal,
    Session,
};
use varde::Effect;

fn session(phase: Phase) -> Session {
    Session {
        adapter: "lldb".to_string(),
        command: "lldb-dap".to_string(),
        phase,
        request: "launch".to_string(),
        args: vec![("program".to_string(), Json::Text("a.out".to_string()))],
        seq: 4,
        asked: Vec::new(),
        pausing: false,
        can_set: false,
        can_cancel: false,
        previous: None,
    }
}

fn asking() -> Asking {
    Asking { watches: Vec::new(), hovered: None, ran: None }
}

fn sent(effect: &Effect) -> serde_json::Value {
    match effect {
        Effect::DapSend { json } => serde_json::from_str(json).expect("the message is JSON"),
        other => panic!("not a message: {other:?}"),
    }
}

#[test]
fn run_in_terminal_gets_the_debug_group_terminal() {
    let mut debugging = Some(session(Phase::Running(None)));
    let mut asked = asking();
    let message = r#"{"seq":7,"type":"request","command":"runInTerminal","arguments":{"args":["prog","a\u001b b",3],"cwd":"/w","env":{"A":"1","B":2}}}"#;
    let (effects, heard) = received(&mut debugging, message, &[], &mut asked);
    assert_eq!(heard, Heard::Quiet);
    assert_eq!(effects.len(), 2);
    let reply = sent(&effects[0]);
    assert_eq!(reply["seq"], 5);
    assert_eq!(reply["type"], "response");
    assert_eq!(reply["request_seq"], 7);
    assert_eq!(reply["success"], true);
    assert_eq!(reply["command"], "runInTerminal");
    assert_eq!(
        effects[1],
        Effect::RunProgram {
            argv: vec!["prog".to_string(), "a b".to_string()],
            cwd: Some("/w".to_string()),
            env: vec![("A".to_string(), "1".to_string())],
        }
    );
    assert_eq!(debugging.unwrap().seq, 5);
}

#[test]
fn a_reverse_request_nothing_answers_is_refused_out_loud() {
    let mut debugging = Some(session(Phase::Running(None)));
    let mut asked = asking();
    let (effects, _) = received(&mut debugging, r#"{"seq":2,"type":"request","command":"startDebugging"}"#, &[], &mut asked);
    assert_eq!(effects.len(), 1);
    let reply = sent(&effects[0]);
    assert_eq!(reply["success"], false);
    assert_eq!(reply["message"], "Varde does not answer startDebugging");
    let (effects, _) = received(&mut debugging, r#"{"seq":3,"type":"request","command":"runInTerminal","arguments":{"args":[]}}"#, &[], &mut asked);
    assert_eq!(sent(&effects[0])["message"], "runInTerminal named no program");
    assert_eq!(effects.len(), 1);
}

#[test]
fn initialize_answered_sends_the_launch() {
    let mut s = session(Phase::Initializing);
    s.asked.push((4, Ask { command: "initialize".to_string(), arguments: Json::Null }));
    let mut debugging = Some(s);
    let mut asked = asking();
    let (effects, heard) = received(
        &mut debugging,
        r#"{"type":"response","request_seq":4,"success":true,"body":{"supportsSetVariable":true}}"#,
        &[],
        &mut asked,
    );
    assert_eq!(heard, Heard::Quiet);
    let s = debugging.unwrap();
    assert!(s.can_set);
    assert!(!s.can_cancel);
    assert_eq!(s.phase, Phase::Starting);
    assert_eq!(s.asked.len(), 1);
    assert_eq!(s.asked[0].0, 5);
    assert_eq!(s.asked[0].1.command, "launch");
    let launch = sent(&effects[0]);
    assert_eq!(launch["command"], "launch");
    assert_eq!(launch["seq"], 5);
    assert_eq!(launch["arguments"]["program"], "a.out");
}

#[test]
fn initialized_sends_the_breakpoints_file_by_file() {
    let mut debugging = Some(session(Phase::Starting));
    let mut asked = asking();
    let breakpoints = vec![
        Breakpoint { file: "/w/b.rs".to_string(), line: 9, text: String::new(), stale: false },
        Breakpoint { file: "/w/a.rs".to_string(), line: 3, text: String::new(), stale: false },
        Breakpoint { file: "/w/b.rs".to_string(), line: 2, text: String::new(), stale: false },
    ];
    let (effects, _) = received(&mut debugging, r#"{"type":"event","event":"initialized"}"#, &breakpoints, &mut asked);
    assert_eq!(effects.len(), 4);
    let first = sent(&effects[0]);
    assert_eq!(first["command"], "setBreakpoints");
    assert_eq!(first["arguments"]["source"]["path"], "/w/a.rs");
    assert_eq!(first["arguments"]["breakpoints"][0]["line"], 3);
    let second = sent(&effects[1]);
    assert_eq!(second["arguments"]["source"]["path"], "/w/b.rs");
    assert_eq!(second["arguments"]["breakpoints"][0]["line"], 9);
    assert_eq!(second["arguments"]["breakpoints"][1]["line"], 2);
    assert_eq!(sent(&effects[2])["command"], "setExceptionBreakpoints");
    assert_eq!(sent(&effects[3])["command"], "configurationDone");
    assert_eq!(debugging.unwrap().phase, Phase::Running(None));
}

#[test]
fn a_stop_pauses_and_asks_for_the_stack() {
    let mut debugging = Some(session(Phase::Running(None)));
    let mut asked = asking();
    let (effects, heard) = received(
        &mut debugging,
        r#"{"type":"event","event":"stopped","body":{"threadId":3,"reason":"exception","text":"boom"}}"#,
        &[],
        &mut asked,
    );
    assert_eq!(heard, Heard::Paused);
    let request = sent(&effects[0]);
    assert_eq!(request["command"], "stackTrace");
    assert_eq!(request["arguments"]["threadId"], 3);
    match debugging.unwrap().phase {
        Phase::Paused(pause) => {
            assert_eq!(pause.thread, 3);
            assert_eq!(pause.exception, Some("boom".to_string()));
        },
        other => panic!("not paused: {other:?}"),
    }
}

#[test]
fn a_launch_refused_ends_the_session_with_the_adapter_reason() {
    let mut s = session(Phase::Starting);
    s.asked.push((5, Ask { command: "launch".to_string(), arguments: Json::Null }));
    let mut debugging = Some(s);
    let mut asked = asking();
    let (effects, heard) = received(
        &mut debugging,
        r#"{"type":"response","request_seq":5,"success":false,"message":"no\u001b program"}"#,
        &[],
        &mut asked,
    );
    assert!(debugging.is_none());
    assert_eq!(heard, Heard::Ended { failed: Some("no program".to_string()) });
    assert_eq!(
        effects,
        vec![Effect::NotifyAbout { slug: "launch-failed", about: "no program".to_string() }, Effect::StopDap]
    );
}

#[test]
fn an_evaluate_answer_is_filed_under_its_watch() {
    let mut s = session(Phase::Running(None));
    s.asked.push((9, Ask { command: "evaluate".to_string(), arguments: parse(r#"{"expression":"x","context":"watch"}"#).unwrap() }));
    let mut debugging = Some(s);
    let mut asked = asking();
    asked.watches.push(Watch { expression: "x".to_string(), answer: Answer::Waiting });
    let (effects, heard) = received(&mut debugging, r#"{"type":"response","request_seq":9,"success":true,"body":{"result":"42"}}"#, &[], &mut asked);
    assert!(effects.is_empty());
    assert_eq!(heard, Heard::Quiet);
    assert_eq!(asked.watches[0].answer, Answer::Value("42".to_string()));
    assert!(debugging.unwrap().asked.is_empty());
}

#[test]
fn what_is_not_json_or_has_no_session_is_dropped() {
    let mut debugging = Some(session(Phase::Running(None)));
    let mut asked = asking();
    let (effects, heard) = received(&mut debugging, "not json", &[], &mut asked);
    assert!(effects.is_empty());
    assert_eq!(heard, Heard::Quiet);
    let mut none: Option<Session> = None;
    let (effects, _) = received(&mut none, r#"{"type":"event","event":"terminated"}"#, &[], &mut asked);
    assert!(effects.is_empty());
    assert!(none.is_none());
}

#[test]
fn json_reads_and_writes_back() {
    let value = parse(r#"{"b":[1,true,null,"x"],"a":1.5}"#).expect("JSON");
    assert_eq!(
        value,
        Json::Object(vec![
            ("a".to_string(), Json::Number("1.5".to_string())),
            (
                "b".to_string(),
                Json::List(vec![Json::Int(1), Json::Bool(true), Json::Null, Json::Text("x".to_string())])
            ),
        ])
    );
    assert_eq!(to_text(&value), r#"{"a":1.5,"b":[1,true,null,"x"]}"#);
    assert_eq!(parse("{"), None);
}

fn paused(thread: i64, frames: Vec<Frame>) -> Phase {
    Phase::Paused(Pause {
        thread,
        why: varde::debug::Why::Paused,
        exception: None,
        frames,
        chosen: 0,
        scopes: Vec::new(),
        children: Default::default(),
        open: Default::default(),
        fetched: Default::default(),
    })
}

#[test]
fn a_started_adapter_is_introduced_to() {
    let mut s = session(Phase::Spawning);
    let effects = started(&mut s);
    assert_eq!(s.phase, Phase::Initializing);
    let initialize = sent(&effects[0]);
    assert_eq!(initialize["command"], "initialize");
    assert_eq!(initialize["arguments"]["adapterID"], "lldb");
    assert_eq!(initialize["arguments"]["linesStartAt1"], true);
    assert!(started(&mut s).is_empty());
}

#[test]
fn resume_continues_a_pause_and_asks_for_threads_while_running() {
    let mut s = session(paused(2, Vec::new()));
    let effects = resume(&mut s);
    assert_eq!(sent(&effects[0])["command"], "continue");
    assert_eq!(sent(&effects[0])["arguments"]["threadId"], 2);
    assert!(matches!(s.phase, Phase::Running(Some(_))));
    let effects = resume(&mut s);
    assert_eq!(sent(&effects[0])["command"], "threads");
    assert!(s.pausing);
    assert!(resume(&mut s).is_empty());
}

#[test]
fn a_step_is_named_for_the_protocol() {
    let mut s = session(paused(5, Vec::new()));
    let effects = step(&mut s, Step::Into);
    assert_eq!(sent(&effects[0])["command"], "stepIn");
    assert!(step(&mut s, Step::Over).is_empty());
}

#[test]
fn stopping_terminates_a_launch_and_lets_a_spawning_session_go() {
    let mut debugging = Some(session(Phase::Running(None)));
    let (effects, heard) = stop(&mut debugging);
    assert_eq!(heard, Heard::Quiet);
    assert_eq!(sent(&effects[0])["arguments"]["terminateDebuggee"], true);
    let (effects, heard) = stop(&mut debugging);
    assert_eq!(effects, vec![Effect::StopDap]);
    assert_eq!(heard, Heard::Ended { failed: None });
    assert!(debugging.is_none());
}

#[test]
fn choosing_a_frame_asks_its_scopes_and_the_watches() {
    let frames = vec![
        Frame { id: 10, name: "inner".to_string(), file: None, line: 1 },
        Frame { id: 11, name: "outer".to_string(), file: None, line: 2 },
    ];
    let mut s = session(paused(1, frames));
    let mut watches = vec![Watch { expression: "x".to_string(), answer: Answer::Value("1".to_string()) }];
    let (effects, heard) = choose_frame(&mut s, &mut watches, 1);
    assert_eq!(heard, Heard::Framed);
    assert_eq!(sent(&effects[0])["arguments"]["frameId"], 11);
    assert_eq!(sent(&effects[1])["arguments"]["expression"], "x");
    assert_eq!(sent(&effects[1])["arguments"]["context"], "watch");
    assert_eq!(watches[0].answer, Answer::Waiting);
    assert_eq!(choose_frame(&mut s, &mut watches, 2).1, Heard::Quiet);
}

fn configured() -> (Vec<(String, Launch)>, Vec<(String, Adapter)>) {
    let launches = vec![
        ("app".to_string(), Launch { adapter: "lldb".to_string(), request: "launch".to_string(), args: Vec::new() }),
        ("py".to_string(), Launch { adapter: "debugpy".to_string(), request: "attach".to_string(), args: Vec::new() }),
    ];
    let adapters = vec![("lldb".to_string(), Adapter { command: "lldb-dap".to_string(), args: vec!["--x".to_string()] })];
    (launches, adapters)
}

#[test]
fn starting_spawns_the_adapter_or_says_why_not() {
    let (configs, adapters) = configured();
    assert_eq!(launches(&configs), vec!["app".to_string(), "py".to_string()]);
    let mut debugging: Option<Session> = None;
    let (effects, refusal) = start(&mut debugging, &configs, &adapters, "py");
    assert!(effects.is_empty());
    assert_eq!(refusal, Some(Refusal::NoDebugAdapter("debugpy".to_string())));
    assert!(debugging.is_none());
    let (effects, refusal) = start(&mut debugging, &configs, &adapters, "nothing");
    assert!(effects.is_empty() && refusal.is_none());
    let (effects, refusal) = start(&mut debugging, &configs, &adapters, "app");
    assert_eq!(refusal, None);
    assert_eq!(effects, vec![Effect::StartDap { command: "lldb-dap".to_string(), args: vec!["--x".to_string()] }]);
    assert_eq!(debugging.as_ref().unwrap().phase, Phase::Spawning);
    let (_, refusal) = start(&mut debugging, &configs, &adapters, "app");
    assert_eq!(refusal, Some(Refusal::SessionRunning));
}

#[test]
fn an_adapter_that_goes_ends_the_session_and_says_why() {
    let mut debugging = Some(session(Phase::Running(None)));
    let (effects, refusal) = gone(&mut debugging, Gone::Missing);
    assert!(debugging.is_none());
    assert_eq!(refusal, Some(Refusal::NoDebugAdapter("lldb-dap".to_string())));
    assert_eq!(effects, vec![Effect::NotifyAbout { slug: "no-debug-adapter", about: "lldb-dap".to_string() }]);
    let mut stopping = Some(session(Phase::Stopping));
    let (effects, refusal) = gone(&mut stopping, Gone::Exited);
    assert!(stopping.is_none() && effects.is_empty() && refusal.is_none());
    let mut exited = Some(session(Phase::Starting));
    assert_eq!(gone(&mut exited, Gone::Exited), (vec![Effect::Notify("debug-adapter-exited")], Some(Refusal::DebugAdapterExited)));
}

#[test]
fn a_new_watch_is_asked_of_the_inspected_frame_only() {
    let frames = vec![Frame { id: 21, name: "f".to_string(), file: None, line: 3 }];
    let mut debugging = Some(session(paused(1, frames)));
    let mut watches = vec![Watch { expression: "a".to_string(), answer: Answer::Value("1".to_string()) }];
    let effects = watch(&mut debugging, &mut watches, "b".to_string());
    assert_eq!(watches.len(), 2);
    assert_eq!(watches[0].answer, Answer::Value("1".to_string()));
    assert_eq!(watches[1].answer, Answer::Waiting);
    assert_eq!(effects.len(), 1);
    let request = sent(&effects[0]);
    assert_eq!(request["arguments"]["expression"], "b");
    assert_eq!(request["arguments"]["frameId"], 21);
    assert!(watch(&mut debugging, &mut watches, "b".to_string()).is_empty());
    assert!(watch(&mut debugging, &mut watches, String::new()).is_empty());
    let mut running = Some(session(Phase::Running(None)));
    assert!(watch(&mut running, &mut watches, "c".to_string()).is_empty());
    assert_eq!(watches.len(), 3);
}

#[test]
fn restart_reruns_the_last_configuration_or_says_there_is_none() {
    let (configs, adapters) = configured();
    let mut debugging: Option<Session> = None;
    assert_eq!(restart(&mut debugging, None, &configs, &adapters), (Vec::new(), Some(Refusal::NoLastSession)));
    let (effects, refusal) = restart(&mut debugging, Some("app"), &configs, &adapters);
    assert_eq!(refusal, None);
    assert_eq!(effects.len(), 1);
    assert!(debugging.is_some());
}

/// The Watch Chip on the Hover watches the expression the box describes,
/// and does nothing without a Hover value.
#[test]
fn the_hovers_watch_chip_watches_its_expression() {
    let frames = vec![Frame { id: 21, name: "f".to_string(), file: None, line: 3 }];
    let mut debugging = Some(session(paused(1, frames)));
    let mut watches: Vec<Watch> = Vec::new();
    let hovered = Hovered { expression: "total".to_string(), at: varde::Place { line: 2, column: 9 }, held: Held::Waiting };
    let effects = watch_hovered(&mut debugging, &mut watches, Some(&hovered));
    assert_eq!(watches.len(), 1);
    assert_eq!(watches[0].expression, "total");
    assert_eq!(sent(&effects[0])["arguments"]["expression"], "total");
    assert!(watch_hovered(&mut debugging, &mut watches, None).is_empty());
    assert_eq!(watches.len(), 1);
}

/// A Hover over a name while paused asks the adapter about it in the hover
/// context; over a call it asks nothing; outside a pause, or off a name, there
/// is no value section at all.
#[test]
fn a_hover_asks_about_a_name_and_never_runs_a_call() {
    let frames = vec![Frame { id: 21, name: "f".to_string(), file: None, line: 3 }];
    let mut debugging = Some(session(paused(1, frames)));
    let (shown, effects) = hovered(&mut debugging, Some("let total = 1;"), varde::Place { line: 4, column: 7 }, "a.rs");
    let shown = shown.expect("a name under the pointer");
    assert_eq!(shown.expression, "total");
    assert_eq!(shown.at, varde::Place { line: 4, column: 5 });
    assert_eq!(shown.held, Held::Waiting);
    assert_eq!(sent(&effects[0])["arguments"]["context"], "hover");
    let (off, none) = hovered(&mut debugging, Some("let total = 1;"), varde::Place { line: 4, column: 4 }, "a.rs");
    assert_eq!((off, none.len()), (None, 0));
    let (call, unasked) = hovered(&mut debugging, Some("f(x)"), varde::Place { line: 1, column: 1 }, "main.rs");
    assert_eq!(call.map(|h| h.held), Some(Held::NeedsEvaluate));
    assert!(unasked.is_empty());
    let mut running = Some(session(Phase::Running(None)));
    let (quiet, nothing) = hovered(&mut running, Some("let total = 1;"), varde::Place { line: 4, column: 7 }, "a.rs");
    assert_eq!((quiet, nothing.len()), (None, 0));
}
