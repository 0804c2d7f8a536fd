//! The Debug session's conversation: requests numbered and remembered, and
//! the adapter's replies, events and reverse requests read as the Debug
//! Adapter Protocol words them.

use crate::debug::Phase;
use crate::json::{parse, parsed, to_text, written, Json, JsonView};
use crate::{control, printable, Effect, Place};
use vstd::prelude::*;

verus! {

broadcast use vstd::std_specs::vec::group_vec_axioms;

/// A request waiting for its answer: the command, which is how the response
/// is read, and the arguments it went out with.
#[derive(Debug)]
pub struct Ask {
    pub command: String,
    pub arguments: Json,
}

/// A Debug session: the adapter it talks to, where it has got to, the
/// request it was started with, and the conversation so far.
#[derive(Debug)]
pub struct Session {
    /// The adapter's row name, which `initialize` names it by, and the
    /// command that runs it, which a refusal names.
    pub adapter: String,
    pub command: String,
    pub phase: Phase,
    /// `launch` or `attach`, and what that request carries.
    pub request: String,
    pub args: Vec<(String, Json)>,
    /// The `seq` the last message went out with, and every request still
    /// unanswered with the `seq` it went out with, oldest first.
    pub seq: i64,
    pub asked: Vec<(i64, Ask)>,
    /// A pause asked for before any thread was known.
    pub pausing: bool,
    /// Whether the adapter said it can write a member back, and whether a
    /// request can be taken back.
    pub can_set: bool,
    pub can_cancel: bool,
    /// What the locals held at the pause before this one, by name, under the
    /// name of the Frame they belong to; nothing until a pause has been left.
    pub previous: Option<(String, Vec<(String, String)>)>,
}

/// What a message changed beyond the session and its requests, for the
/// editor to carry out.
#[derive(Debug, Clone, PartialEq, Eq)]
pub enum Heard {
    /// Nothing more.
    Quiet,
    /// The session is over: what it borrowed is given back. A launch the
    /// adapter refused carries the adapter's reason.
    Ended { failed: Option<String> },
    /// The program paused: the Frames and the Debug group come forward.
    Paused,
    /// The call stack arrived and the top Frame is inspected: the Frames'
    /// selection goes back to it, and its file comes on screen unless it is
    /// there already.
    Framed,
    /// The adapter would not write a value back, in its own words.
    SetFailed(String),
}

/// What the adapter's answers are filed against besides the session: the
/// Watches, the Hover's value and the Evaluator's run.
#[derive(Debug)]
pub struct Asking {
    pub watches: Vec<crate::debug::Watch>,
    pub hovered: Option<crate::debug::Hovered>,
    pub ran: Option<crate::debug::Run>,
}

pub open spec fn asked_view(asked: Seq<(i64, Ask)>) -> Seq<(i64, Seq<char>, JsonView)> {
    asked.map_values(|a: (i64, Ask)| (a.0, a.1.command@, a.1.arguments@))
}

pub open spec fn entries_view(entries: Seq<(String, Json)>) -> Seq<(Seq<char>, JsonView)> {
    entries.map_values(|e: (String, Json)| (e.0@, e.1@))
}

/// The value under `key` in an object: its first entry of that name; nothing
/// for a value that is no object or has no such entry.
pub open spec fn lookup(entries: Seq<(Seq<char>, JsonView)>, key: Seq<char>) -> Option<JsonView>
    decreases entries.len(),
{
    if entries.len() == 0 {
        None
    } else if entries[0].0 == key {
        Some(entries[0].1)
    } else {
        lookup(entries.drop_first(), key)
    }
}

/// A value's field, or JSON's null where it has none, as indexing a
/// `serde_json::Value` reads one.
pub open spec fn field(j: JsonView, key: Seq<char>) -> JsonView {
    match j {
        JsonView::Object(entries) => match lookup(entries, key) {
            Some(v) => v,
            None => JsonView::Null,
        },
        _ => JsonView::Null,
    }
}

pub open spec fn text_of(j: JsonView) -> Option<Seq<char>> {
    match j {
        JsonView::Text(t) => Some(t),
        _ => None,
    }
}

pub open spec fn int_of(j: JsonView) -> Option<int> {
    match j {
        JsonView::Int(n) => Some(n),
        _ => None,
    }
}

/// A value as the text it holds, or nothing at all where it holds none.
pub open spec fn text_or_empty(j: JsonView) -> Seq<char> {
    match text_of(j) {
        Some(t) => t,
        None => Seq::empty(),
    }
}

/// The value a copy of `j` holds.
pub fn copy_json(j: &Json) -> (c: Json)
    ensures
        c@ == j@,
    decreases j,
{
    match j {
        Json::Null => Json::Null,
        Json::Bool(b) => Json::Bool(*b),
        Json::Int(n) => Json::Int(*n),
        Json::Number(t) => Json::Number(t.clone()),
        Json::Text(t) => Json::Text(t.clone()),
        Json::List(items) => {
            let mut out: Vec<Json> = Vec::new();
            let mut i: usize = 0;
            while i < items.len()
                invariant
                    i <= items.len(),
                    *j == Json::List(*items),
                    out@.len() == i,
                    forall|k: int| 0 <= k < i ==> (#[trigger] out@[k])@ == items@[k]@,
                decreases items.len() - i,
            {
                proof {
                    assert(decreases_to!(*items => items[i as int]));
                    assert(decreases_to!(*j => (*j)->List_0));
                }
                let c = copy_json(&items[i]);
                out.push(c);
                i = i + 1;
            }
            let r = Json::List(out);
            assert(view_list(r) =~= view_list(*j));
            r
        },
        Json::Object(entries) => {
            let mut out: Vec<(String, Json)> = Vec::new();
            let mut i: usize = 0;
            while i < entries.len()
                invariant
                    i <= entries.len(),
                    *j == Json::Object(*entries),
                    out@.len() == i,
                    forall|k: int| 0 <= k < i ==> (#[trigger] out@[k]).0@ == entries@[k].0@ && out@[k].1@ == entries@[k].1@,
                decreases entries.len() - i,
            {
                proof {
                    assert(decreases_to!(*entries => entries[i as int]));
                    assert(decreases_to!(*j => (*j)->Object_0));
                }
                let c = copy_json(&entries[i].1);
                out.push((entries[i].0.clone(), c));
                i = i + 1;
            }
            let r = Json::Object(out);
            assert(view_entries(r) =~= view_entries(*j));
            r
        },
    }
}

spec fn view_list(j: Json) -> Seq<JsonView> {
    match j@ {
        JsonView::List(items) => items,
        _ => Seq::empty(),
    }
}

spec fn view_entries(j: Json) -> Seq<(Seq<char>, JsonView)> {
    match j@ {
        JsonView::Object(entries) => entries,
        _ => Seq::empty(),
    }
}


/// The fields that only the start of a session sets.
pub open spec fn kept(a: Session, b: Session) -> bool {
    &&& a.adapter == b.adapter
    &&& a.command == b.command
    &&& a.request == b.request
    &&& a.args == b.args
}

/// The fields a message leaves alone: everything but the conversation.
pub open spec fn same_but_talk(a: Session, b: Session) -> bool {
    &&& a.adapter == b.adapter
    &&& a.command == b.command
    &&& a.phase == b.phase
    &&& a.request == b.request
    &&& a.args == b.args
    &&& a.pausing == b.pausing
    &&& a.can_set == b.can_set
    &&& a.can_cancel == b.can_cancel
    &&& a.previous == b.previous
}

/// A request as it goes to the adapter.
pub open spec fn request_json(seq: int, command: Seq<char>, arguments: JsonView) -> JsonView {
    JsonView::Object(seq![
        ("seq"@, JsonView::Int(seq)),
        ("type"@, JsonView::Text("request"@)),
        ("command"@, JsonView::Text(command)),
        ("arguments"@, arguments),
    ])
}

/// A message sent: the effect carrying its text.
pub open spec fn sends(e: Effect, message: JsonView) -> bool {
    e matches Effect::DapSend { json } && json@ == written(message)
}

/// The number the next message goes out with: one past the last, wrapping
/// round at the end of `i64` as the protocol's counter does in a release
/// build.
pub open spec fn next_seq(seq: i64) -> i64 {
    if seq == i64::MAX { i64::MIN } else { (seq + 1) as i64 }
}

fn advance(seq: i64) -> (next: i64)
    ensures
        next == next_seq(seq),
{
    if seq == i64::MAX { i64::MIN } else { seq + 1 }
}

/// `session` after asking `command` with `arguments`: numbered one past the
/// last message and remembered until its answer.
pub open spec fn asked_after(before: Session, after: Session, command: Seq<char>, arguments: JsonView) -> bool {
    &&& same_but_talk(before, after)
    &&& after.seq == next_seq(before.seq)
    &&& asked_view(after.asked@) == asked_view(before.asked@).push((after.seq, command, arguments))
}

fn text(t: &str) -> (j: Json)
    ensures
        j@ == JsonView::Text(t@),
{
    Json::Text(crate::text::owned(t))
}

fn entry(key: &str, value: Json) -> (e: (String, Json))
    ensures
        e.0@ == key@,
        e.1@ == value@,
{
    (crate::text::owned(key), value)
}

/// One request, numbered and remembered until its answer arrives.
pub fn ask(session: &mut Session, command: &str, arguments: Json) -> (e: Effect)
    ensures
        asked_after(*old(session), *final(session), command@, arguments@),
        sends(e, request_json(final(session).seq as int, command@, arguments@)),
{
    session.seq = advance(session.seq);
    let kept = copy_json(&arguments);
    let ghost before = asked_view(session.asked@);
    session.asked.push((session.seq, Ask { command: crate::text::owned(command), arguments: kept }));
    assert(asked_view(session.asked@) =~= before.push((session.seq, command@, arguments@)));
    let mut entries: Vec<(String, Json)> = Vec::new();
    entries.push(entry("seq", Json::Int(session.seq)));
    entries.push(entry("type", text("request")));
    entries.push(entry("command", text(command)));
    entries.push(entry("arguments", arguments));
    let message = Json::Object(entries);
    assert(message@ == request_json(session.seq as int, command@, arguments@)) by {
        assert(view_entries(message) =~= seq![
            ("seq"@, JsonView::Int(session.seq as int)),
            ("type"@, JsonView::Text("request"@)),
            ("command"@, JsonView::Text(command@)),
            ("arguments"@, arguments@),
        ]);
    }
    Effect::DapSend { json: to_text(&message) }
}

/// An answer to a request the adapter made: the answer's own fields, then
/// its number, its type and the request it answers.
pub open spec fn reply_json(seq: int, request: JsonView, answer: Seq<(Seq<char>, JsonView)>) -> JsonView {
    JsonView::Object(answer + seq![
        ("seq"@, JsonView::Int(seq)),
        ("type"@, JsonView::Text("response"@)),
        ("request_seq"@, field(request, "seq"@)),
    ])
}

/// The answer to a request the adapter made of the editor.
fn reply(session: &mut Session, request: &Json, answer: Vec<(String, Json)>) -> (e: Effect)
    ensures
        same_but_talk(*old(session), *final(session)),
        final(session).seq == next_seq(old(session).seq),
        asked_view(final(session).asked@) == asked_view(old(session).asked@),
        sends(e, reply_json(final(session).seq as int, request@, entries_view(answer@))),
{
    session.seq = advance(session.seq);
    let mut entries = answer;
    let ghost first = entries_view(entries@);
    let asked = match get(request, "seq") {
        Some(v) => copy_json(v),
        None => Json::Null,
    };
    entries.push(entry("seq", Json::Int(session.seq)));
    entries.push(entry("type", text("response")));
    entries.push(entry("request_seq", asked));
    let message = Json::Object(entries);
    assert(view_entries(message) =~= first + seq![
        ("seq"@, JsonView::Int(session.seq as int)),
        ("type"@, JsonView::Text("response"@)),
        ("request_seq"@, field(request@, "seq"@)),
    ]);
    Effect::DapSend { json: to_text(&message) }
}

/// The value under `key`, where `j` is an object holding one.
pub fn get<'a>(j: &'a Json, key: &str) -> (r: Option<&'a Json>)
    ensures
        match r {
            Some(v) => field(j@, key@) == v@ && (j@ matches JsonView::Object(e) && lookup(e, key@) == Some(v@)),
            None => field(j@, key@) == JsonView::Null && (j@ matches JsonView::Object(e) ==> lookup(e, key@) is None),
        },
{
    match j {
        Json::Object(entries) => {
            let ghost e = view_entries(*j);
            assert(e.skip(0) =~= e);
            let mut i: usize = 0;
            while i < entries.len()
                invariant
                    i <= entries.len(),
                    *j == Json::Object(*entries),
                    e == view_entries(*j),
                    e.len() == entries.len(),
                    forall|k: int| 0 <= k < e.len() ==> (#[trigger] e[k]) == (entries@[k].0@, entries@[k].1@),
                    lookup(e, key@) == lookup(e.skip(i as int), key@),
                decreases entries.len() - i,
            {
                let name = crate::text::chars_of(entries[i].0.as_str());
                let wanted = crate::text::chars_of(key);
                assert(e.skip(i as int)[0] == e[i as int]);
                assert(e.skip(i as int).drop_first() =~= e.skip(i + 1));
                if crate::text::same_chars(&name, &wanted) {
                    return Some(&entries[i].1);
                }
                i = i + 1;
            }
            assert(e.skip(i as int) =~= Seq::<(Seq<char>, JsonView)>::empty());
            None
        },
        _ => None,
    }
}

/// The text under `key`, where there is one.
pub fn text_field<'a>(j: &'a Json, key: &str) -> (r: Option<&'a str>)
    ensures
        match r {
            Some(t) => text_of(field(j@, key@)) == Some(t@),
            None => text_of(field(j@, key@)) is None,
        },
{
    match get(j, key) {
        Some(Json::Text(t)) => Some(t.as_str()),
        _ => None,
    }
}

/// The adapter's words with nothing left in them that could drive the
/// terminal they are drawn on.
pub fn printable_of(text: &str) -> (r: String)
    ensures
        r@ == printable(text@),
{
    let chars = crate::text::chars_of(text);
    let mut kept: Vec<char> = Vec::new();
    let mut i: usize = 0;
    while i < chars.len()
        invariant
            i <= chars.len(),
            kept@ == printable(chars@.take(i as int)),
        decreases chars.len() - i,
    {
        let c = chars[i];
        assert(chars@.take(i + 1).drop_last() == chars@.take(i as int));
        assert(chars@.take(i + 1).last() == c);
        let code = c as u32;
        if !(code <= 0x1f || (0x7f <= code && code <= 0x9f)) {
            kept.push(c);
        }
        i = i + 1;
    }
    assert(chars@.take(chars.len() as int) == chars@);
    crate::text::string_of(kept.as_slice())
}


/// The strings among `items`, each made printable, in order.
pub open spec fn strings_in(items: Seq<JsonView>) -> Seq<Seq<char>>
    decreases items.len(),
{
    if items.len() == 0 {
        Seq::empty()
    } else {
        let rest = strings_in(items.drop_last());
        match text_of(items.last()) {
            Some(t) => rest.push(printable(t)),
            None => rest,
        }
    }
}

/// The entries among `entries` whose value is a string, name and value made
/// printable, in order.
pub open spec fn string_entries(entries: Seq<(Seq<char>, JsonView)>) -> Seq<(Seq<char>, Seq<char>)>
    decreases entries.len(),
{
    if entries.len() == 0 {
        Seq::empty()
    } else {
        let rest = string_entries(entries.drop_last());
        match text_of(entries.last().1) {
            Some(t) => rest.push((printable(entries.last().0), printable(t))),
            None => rest,
        }
    }
}

/// The program a `runInTerminal` names: its argv, from the strings of
/// `args`.
pub open spec fn argv_of(arguments: JsonView) -> Seq<Seq<char>> {
    match field(arguments, "args"@) {
        JsonView::List(items) => strings_in(items),
        _ => Seq::empty(),
    }
}

/// Its environment: the string entries of `env`.
pub open spec fn env_of(arguments: JsonView) -> Seq<(Seq<char>, Seq<char>)> {
    match field(arguments, "env"@) {
        JsonView::Object(entries) => string_entries(entries),
        _ => Seq::empty(),
    }
}

/// Where to run it: `cwd`, where it is a string.
pub open spec fn cwd_of(arguments: JsonView) -> Option<Seq<char>> {
    match text_of(field(arguments, "cwd"@)) {
        Some(t) => Some(printable(t)),
        None => None,
    }
}

/// Whether a reverse request is a `runInTerminal` that names a program.
pub open spec fn runs(message: JsonView) -> bool {
    text_or_empty(field(message, "command"@)) == "runInTerminal"@ && argv_of(field(message, "arguments"@)).len() > 0
}

/// What the editor answers a request the adapter made of it: a terminal for
/// the program where `runInTerminal` names one, and a refusal said out loud
/// otherwise, since an adapter left waiting on a reply is a session that
/// hangs.
pub open spec fn request_answer(message: JsonView) -> Seq<(Seq<char>, JsonView)> {
    let command = text_or_empty(field(message, "command"@));
    if command == "runInTerminal"@ {
        if runs(message) {
            seq![
                ("success"@, JsonView::Bool(true)),
                ("command"@, JsonView::Text(command)),
                ("body"@, JsonView::Object(Seq::empty())),
            ]
        } else {
            seq![
                ("success"@, JsonView::Bool(false)),
                ("command"@, JsonView::Text(command)),
                ("message"@, JsonView::Text("runInTerminal named no program"@)),
            ]
        }
    } else {
        seq![
            ("success"@, JsonView::Bool(false)),
            ("command"@, JsonView::Text(command)),
            ("message"@, JsonView::Text("Varde does not answer "@ + command)),
        ]
    }
}

/// The program a `runInTerminal` asks for, as the effect that runs it.
pub open spec fn runs_program(e: Effect, arguments: JsonView) -> bool {
    e matches Effect::RunProgram { argv, cwd, env }
        && argv@.map_values(|a: String| a@) == argv_of(arguments)
        && env@.map_values(|p: (String, String)| (p.0@, p.1@)) == env_of(arguments)
        && match cwd {
            Some(c) => cwd_of(arguments) == Some(c@),
            None => cwd_of(arguments) is None,
        }
}

fn strings(items: &Vec<Json>) -> (argv: Vec<String>)
    ensures
        argv@.map_values(|a: String| a@) == strings_in(Seq::new(items.len() as nat, |i: int| items@[i]@)),
{
    let ghost view = Seq::new(items.len() as nat, |i: int| items@[i]@);
    let mut argv: Vec<String> = Vec::new();
    let mut i: usize = 0;
    while i < items.len()
        invariant
            i <= items.len(),
            view == Seq::new(items.len() as nat, |i: int| items@[i]@),
            argv@.map_values(|a: String| a@) == strings_in(view.take(i as int)),
        decreases items.len() - i,
    {
        let ghost before = argv@.map_values(|a: String| a@);
        assert(view.take(i + 1).drop_last() =~= view.take(i as int));
        assert(view.take(i + 1).last() == items@[i as int]@);
        match &items[i] {
            Json::Text(t) => {
                let p = printable_of(t.as_str());
                argv.push(p);
                assert(argv@.map_values(|a: String| a@) =~= before.push(printable(t@)));
            },
            _ => {
                assert(argv@.map_values(|a: String| a@) =~= before);
            },
        }
        i = i + 1;
    }
    assert(view.take(items.len() as int) =~= view);
    argv
}

fn string_pairs(entries: &Vec<(String, Json)>) -> (env: Vec<(String, String)>)
    ensures
        env@.map_values(|p: (String, String)| (p.0@, p.1@)) == string_entries(
            Seq::new(entries.len() as nat, |i: int| (entries@[i].0@, entries@[i].1@)),
        ),
{
    let ghost view = Seq::new(entries.len() as nat, |i: int| (entries@[i].0@, entries@[i].1@));
    let mut env: Vec<(String, String)> = Vec::new();
    let mut i: usize = 0;
    while i < entries.len()
        invariant
            i <= entries.len(),
            view == Seq::new(entries.len() as nat, |i: int| (entries@[i].0@, entries@[i].1@)),
            env@.map_values(|p: (String, String)| (p.0@, p.1@)) == string_entries(view.take(i as int)),
        decreases entries.len() - i,
    {
        let ghost before = env@.map_values(|p: (String, String)| (p.0@, p.1@));
        assert(view.take(i + 1).drop_last() =~= view.take(i as int));
        assert(view.take(i + 1).last() == (entries@[i as int].0@, entries@[i as int].1@));
        match &entries[i].1 {
            Json::Text(t) => {
                let name = printable_of(entries[i].0.as_str());
                let value = printable_of(t.as_str());
                env.push((name, value));
                assert(env@.map_values(|p: (String, String)| (p.0@, p.1@)) =~= before.push((printable(entries@[i as int].0@), printable(t@))));
            },
            _ => {
                assert(env@.map_values(|p: (String, String)| (p.0@, p.1@)) =~= before);
            },
        }
        i = i + 1;
    }
    assert(view.take(entries.len() as int) =~= view);
    env
}

fn argv_in(arguments: &Json) -> (argv: Vec<String>)
    ensures
        argv@.map_values(|a: String| a@) == argv_of(arguments@),
{
    match get(arguments, "args") {
        Some(found) => match found {
            Json::List(items) => {
                assert(found@ == JsonView::List(Seq::new(items.len() as nat, |i: int| items@[i]@))) by {
                    assert(view_list(*found) =~= Seq::new(items.len() as nat, |i: int| items@[i]@));
                }
                strings(items)
            },
            _ => {
                let none: Vec<String> = Vec::new();
                assert(none@.map_values(|a: String| a@) =~= Seq::<Seq<char>>::empty());
                none
            },
        },
        None => {
            let none: Vec<String> = Vec::new();
            assert(none@.map_values(|a: String| a@) =~= Seq::<Seq<char>>::empty());
            none
        },
    }
}

fn env_in(arguments: &Json) -> (env: Vec<(String, String)>)
    ensures
        env@.map_values(|p: (String, String)| (p.0@, p.1@)) == env_of(arguments@),
{
    match get(arguments, "env") {
        Some(found) => match found {
            Json::Object(entries) => {
                assert(found@ == JsonView::Object(Seq::new(entries.len() as nat, |i: int| (entries@[i].0@, entries@[i].1@)))) by {
                    assert(view_entries(*found) =~= Seq::new(entries.len() as nat, |i: int| (entries@[i].0@, entries@[i].1@)));
                }
                string_pairs(entries)
            },
            _ => {
                let none: Vec<(String, String)> = Vec::new();
                assert(none@.map_values(|p: (String, String)| (p.0@, p.1@)) =~= Seq::<(Seq<char>, Seq<char>)>::empty());
                none
            },
        },
        None => {
            let none: Vec<(String, String)> = Vec::new();
            assert(none@.map_values(|p: (String, String)| (p.0@, p.1@)) =~= Seq::<(Seq<char>, Seq<char>)>::empty());
            none
        },
    }
}

fn bool_entry(key: &str, b: bool) -> (e: (String, Json))
    ensures
        e.0@ == key@,
        e.1@ == JsonView::Bool(b),
{
    entry(key, Json::Bool(b))
}

/// A request the adapter made of the editor, answered: one reply, and the
/// program run where the request asks for one.
pub open spec fn reverse_by(before: Session, after: Session, message: JsonView, effects: Seq<Effect>) -> bool {
    &&& same_but_talk(before, after)
    &&& after.seq == next_seq(before.seq)
    &&& asked_view(after.asked@) == asked_view(before.asked@)
    &&& effects.len() == (if runs(message) { 2int } else { 1int })
    &&& sends(effects[0], reply_json(after.seq as int, message, request_answer(message)))
    &&& runs(message) ==> runs_program(effects[1], field(message, "arguments"@))
}

/// A request the adapter made of the editor, answered.
fn reverse(session: &mut Session, message: &Json) -> (effects: Vec<Effect>)
    ensures
        reverse_by(*old(session), *final(session), message@, effects@),
{
    let command: &str = match text_field(message, "command") {
        Some(c) => c,
        None => "",
    };
    let ghost command_view = text_or_empty(field(message@, "command"@));
    proof {
        reveal_strlit("");
    }
    assert(command@ == command_view);
    let empty_args = Json::Null;
    let arguments: &Json = match get(message, "arguments") {
        Some(a) => a,
        None => &empty_args,
    };
    assert(arguments@ == field(message@, "arguments"@));
    let run_in_terminal = crate::text::same_chars(&crate::text::chars_of(command), &crate::text::chars_of("runInTerminal"));
    let mut answer: Vec<(String, Json)> = Vec::new();
    if run_in_terminal {
        let argv = argv_in(arguments);
        if argv.len() == 0 {
            answer.push(bool_entry("success", false));
            answer.push(entry("command", text(command)));
            answer.push(entry("message", text("runInTerminal named no program")));
            assert(entries_view(answer@) =~= request_answer(message@));
            let e = reply(session, message, answer);
            let mut effects: Vec<Effect> = Vec::new();
            effects.push(e);
            return effects;
        }
        let env = env_in(arguments);
        let cwd = match text_field(arguments, "cwd") {
            Some(c) => Some(printable_of(c)),
            None => None,
        };
        answer.push(bool_entry("success", true));
        answer.push(entry("command", text(command)));
        let nothing: Vec<(String, Json)> = Vec::new();
        let body = Json::Object(nothing);
        assert(view_entries(body) =~= Seq::<(Seq<char>, JsonView)>::empty());
        answer.push(entry("body", body));
        assert(entries_view(answer@) =~= request_answer(message@));
        let e = reply(session, message, answer);
        let mut effects: Vec<Effect> = Vec::new();
        effects.push(e);
        effects.push(Effect::RunProgram { argv, cwd, env });
        return effects;
    }
    let mut said = crate::text::owned("Varde does not answer ");
    crate::text::push_str(&mut said, command);
    answer.push(bool_entry("success", false));
    answer.push(entry("command", text(command)));
    answer.push(entry("message", Json::Text(said)));
    assert(entries_view(answer@) =~= request_answer(message@));
    let e = reply(session, message, answer);
    let mut effects: Vec<Effect> = Vec::new();
    effects.push(e);
    effects
}


/// The number the message `n` after one numbered `seq` goes out with.
pub open spec fn seq_after(seq: i64, n: nat) -> i64
    decreases n,
{
    if n == 0 { seq } else { next_seq(seq_after(seq, (n - 1) as nat)) }
}

/// `requests` asked in order, one effect each: numbered on from the last
/// message and remembered until their answers.
pub open spec fn asked_all(before: Session, after: Session, requests: Seq<(Seq<char>, JsonView)>, effects: Seq<Effect>) -> bool {
    &&& after.seq == seq_after(before.seq, requests.len())
    &&& asked_view(after.asked@) == asked_view(before.asked@) + Seq::new(
        requests.len(),
        |k: int| (seq_after(before.seq, (k + 1) as nat), requests[k].0, requests[k].1),
    )
    &&& effects.len() == requests.len()
    &&& forall|k: int| 0 <= k < requests.len() ==> sends(#[trigger] effects[k], request_json(seq_after(before.seq, (k + 1) as nat) as int, requests[k].0, requests[k].1))
}

proof fn lemma_asked_one_more(
    first: Session,
    mid: Session,
    last: Session,
    requests: Seq<(Seq<char>, JsonView)>,
    effects: Seq<Effect>,
    command: Seq<char>,
    arguments: JsonView,
    e: Effect,
)
    requires
        asked_all(first, mid, requests, effects),
        asked_after(mid, last, command, arguments),
        sends(e, request_json(last.seq as int, command, arguments)),
    ensures
        asked_all(first, last, requests.push((command, arguments)), effects.push(e)),
{
    let n = requests.len();
    assert(seq_after(first.seq, n + 1) == next_seq(seq_after(first.seq, n)));
    let r2 = requests.push((command, arguments));
    assert(asked_view(last.asked@) =~= asked_view(first.asked@) + Seq::new(
        r2.len(),
        |k: int| (seq_after(first.seq, (k + 1) as nat), r2[k].0, r2[k].1),
    ));
    assert forall|k: int| 0 <= k < r2.len() implies sends(#[trigger] effects.push(e)[k], request_json(seq_after(first.seq, (k + 1) as nat) as int, r2[k].0, r2[k].1)) by {
        if k < n {
            assert(effects.push(e)[k] == effects[k]);
        }
    }
}

proof fn lemma_asked_none(s: Session)
    ensures
        asked_all(s, s, Seq::empty(), Seq::empty()),
{
    assert(asked_view(s.asked@) =~= asked_view(s.asked@) + Seq::new(0, |k: int| (seq_after(s.seq, (k + 1) as nat), Seq::<char>::empty(), JsonView::Null)));
}

pub open spec fn bool_of(j: JsonView) -> Option<bool> {
    match j {
        JsonView::Bool(b) => Some(b),
        _ => None,
    }
}

/// The whole number under `key`, where there is one.
pub fn int_field(j: &Json, key: &str) -> (r: Option<i64>)
    ensures
        match r {
            Some(n) => int_of(field(j@, key@)) == Some(n as int),
            None => int_of(field(j@, key@)) is None,
        },
{
    match get(j, key) {
        Some(Json::Int(n)) => Some(*n),
        _ => None,
    }
}

/// The truth value under `key`, where there is one.
pub fn bool_field(j: &Json, key: &str) -> (r: Option<bool>)
    ensures
        r == bool_of(field(j@, key@)),
{
    match get(j, key) {
        Some(Json::Bool(b)) => Some(*b),
        _ => None,
    }
}

/// The value under `key`, or JSON's null where there is none.
pub fn at<'a>(j: &'a Json, key: &str, null: &'a Json) -> (r: &'a Json)
    requires
        null@ == JsonView::Null,
    ensures
        r@ == field(j@, key@),
{
    match get(j, key) {
        Some(v) => v,
        None => null,
    }
}


/// Paths in the order their components sort: a separator below every other
/// character, so a directory's files come before a sibling that merely
/// starts with its name.
pub open spec fn path_less(a: Seq<char>, b: Seq<char>) -> bool
    decreases a.len(),
{
    if b.len() == 0 {
        false
    } else if a.len() == 0 {
        true
    } else if a[0] != b[0] {
        rank(a[0]) < rank(b[0])
    } else {
        path_less(a.drop_first(), b.drop_first())
    }
}

pub open spec fn rank(c: char) -> int {
    if c == '/' { 0 } else { c as u32 + 1 }
}

/// `file` put among sorted distinct `files`, where it is not there already.
pub open spec fn with_file(files: Seq<Seq<char>>, file: Seq<char>) -> Seq<Seq<char>>
    decreases files.len(),
{
    if files.len() == 0 {
        seq![file]
    } else if files[0] == file {
        files
    } else if path_less(file, files[0]) {
        seq![file] + files
    } else {
        seq![files[0]] + with_file(files.drop_first(), file)
    }
}

/// The files the Breakpoints are in, each once, in path order.
pub open spec fn files_of(breakpoints: Seq<crate::debug::Breakpoint>) -> Seq<Seq<char>>
    decreases breakpoints.len(),
{
    if breakpoints.len() == 0 {
        Seq::empty()
    } else {
        with_file(files_of(breakpoints.drop_last()), breakpoints.last().file@)
    }
}

/// The lines of `file`'s Breakpoints, in the order they were set.
pub open spec fn lines_of(breakpoints: Seq<crate::debug::Breakpoint>, file: Seq<char>) -> Seq<usize>
    decreases breakpoints.len(),
{
    if breakpoints.len() == 0 {
        Seq::empty()
    } else {
        let rest = lines_of(breakpoints.drop_last(), file);
        if breakpoints.last().file@ == file { rest.push(breakpoints.last().line) } else { rest }
    }
}

/// A line number as JSON carries it: a whole number, kept as its digits
/// past the end of `i64`.
pub open spec fn number_json(n: usize) -> JsonView {
    if n <= i64::MAX { JsonView::Int(n as int) } else { JsonView::Number(crate::editor::decimal(n as nat)) }
}

pub open spec fn line_objects(lines: Seq<usize>) -> Seq<JsonView> {
    Seq::new(lines.len(), |k: int| JsonView::Object(seq![("line"@, number_json(lines[k]))]))
}

fn number(n: usize) -> (j: Json)
    ensures
        j@ == number_json(n),
{
    if n as u64 <= i64::MAX as u64 {
        Json::Int(n as i64)
    } else {
        let digits = crate::editor::decimal_of(n);
        Json::Number(crate::text::string_of(digits.as_slice()))
    }
}

/// One file's `setBreakpoints`.
pub open spec fn set_breakpoints(file: Seq<char>, lines: Seq<usize>) -> (Seq<char>, JsonView) {
    ("setBreakpoints"@, JsonView::Object(seq![
        ("source"@, JsonView::Object(seq![("path"@, JsonView::Text(file))])),
        ("breakpoints"@, JsonView::List(line_objects(lines))),
    ]))
}

/// `initialized`: the Breakpoints file by file, the Exception filters, and
/// `configurationDone`, in the protocol's order.
pub open spec fn configure_requests(breakpoints: Seq<crate::debug::Breakpoint>) -> Seq<(Seq<char>, JsonView)> {
    let files = files_of(breakpoints);
    Seq::new(files.len(), |k: int| set_breakpoints(files[k], lines_of(breakpoints, files[k])))
        + seq![
            ("setExceptionBreakpoints"@, JsonView::Object(seq![("filters"@, JsonView::List(Seq::empty()))])),
            ("configurationDone"@, JsonView::Object(Seq::empty())),
        ]
}

fn path_before(a: &Vec<char>, b: &Vec<char>) -> (r: bool)
    ensures
        r == path_less(a@, b@),
{
    let mut i: usize = 0;
    assert(a@.skip(0) == a@ && b@.skip(0) == b@);
    while i < a.len() && i < b.len() && a[i] == b[i]
        invariant
            i <= a.len() && i <= b.len(),
            path_less(a@, b@) == path_less(a@.skip(i as int), b@.skip(i as int)),
        decreases a.len() - i,
    {
        assert(a@.skip(i as int).drop_first() == a@.skip(i + 1));
        assert(b@.skip(i as int).drop_first() == b@.skip(i + 1));
        i = i + 1;
    }
    if i == b.len() {
        return false;
    }
    if i == a.len() {
        return true;
    }
    assert(a@.skip(i as int)[0] == a@[i as int]);
    assert(b@.skip(i as int)[0] == b@[i as int]);
    let ra: u64 = if a[i] == '/' { 0 } else { a[i] as u32 as u64 + 1 };
    let rb: u64 = if b[i] == '/' { 0 } else { b[i] as u32 as u64 + 1 };
    ra < rb
}

fn add_file(files: &mut Vec<Vec<char>>, file: Vec<char>)
    ensures
        final(files)@.map_values(|f: Vec<char>| f@) == with_file(old(files)@.map_values(|f: Vec<char>| f@), file@),
{
    let ghost view = files@.map_values(|f: Vec<char>| f@);
    assert(view.skip(0) =~= view);
    assert(view.take(0) + with_file(view, file@) =~= with_file(view, file@));
    let mut p: usize = 0;
    while p < files.len() && !crate::text::same_chars(&files[p], &file) && !path_before(&file, &files[p])
        invariant
            p <= files.len(),
            view == files@.map_values(|f: Vec<char>| f@),
            with_file(view, file@) == view.take(p as int) + with_file(view.skip(p as int), file@),
        decreases files.len() - p,
    {
        assert(view.skip(p as int)[0] == view[p as int]);
        assert(view.skip(p as int).drop_first() =~= view.skip(p + 1));
        assert(view.take(p + 1) =~= view.take(p as int) + seq![view[p as int]]);
        p = p + 1;
    }
    if p < files.len() && crate::text::same_chars(&files[p], &file) {
        assert(view.skip(p as int)[0] == view[p as int]);
        assert(view.take(p as int) + view.skip(p as int) =~= view);
        return;
    }
    let ghost fv = file@;
    files.insert(p, file);
    proof {
        if p < view.len() {
            assert(view.skip(p as int)[0] == view[p as int]);
        }
        assert(files@.map_values(|f: Vec<char>| f@) =~= view.take(p as int) + (seq![fv] + view.skip(p as int)));
    }
}

/// The lines set in `file`, in the order the Breakpoints were set.
fn lines_in(breakpoints: &[crate::debug::Breakpoint], file: &Vec<char>) -> (lines: Json)
    ensures
        lines@ == JsonView::List(line_objects(lines_of(breakpoints@, file@))),
{
    let mut items: Vec<Json> = Vec::new();
    let mut i: usize = 0;
    while i < breakpoints.len()
        invariant
            i <= breakpoints.len(),
            items@.len() == lines_of(breakpoints@.take(i as int), file@).len(),
            forall|k: int| 0 <= k < items@.len() ==> (#[trigger] items@[k])@ == line_objects(lines_of(breakpoints@.take(i as int), file@))[k],
        decreases breakpoints.len() - i,
    {
        assert(breakpoints@.take(i + 1).drop_last() =~= breakpoints@.take(i as int));
        assert(breakpoints@.take(i + 1).last() == breakpoints@[i as int]);
        let name = crate::text::chars_of(breakpoints[i].file.as_str());
        if crate::text::same_chars(&name, file) {
            let line = breakpoints[i].line;
            let mut one: Vec<(String, Json)> = Vec::new();
            one.push(entry("line", number(line)));
            let object = Json::Object(one);
            assert(view_entries(object) =~= seq![("line"@, number_json(line))]);
            items.push(object);
        }
        i = i + 1;
    }
    assert(breakpoints@.take(breakpoints.len() as int) =~= breakpoints@);
    let list = Json::List(items);
    assert(view_list(list) =~= line_objects(lines_of(breakpoints@, file@)));
    list
}


fn object1(k: &str, v: Json) -> (j: Json)
    ensures
        j@ == JsonView::Object(seq![(k@, v@)]),
{
    let mut e: Vec<(String, Json)> = Vec::new();
    e.push(entry(k, v));
    let j = Json::Object(e);
    assert(view_entries(j) =~= seq![(k@, v@)]);
    j
}

fn object2(k1: &str, v1: Json, k2: &str, v2: Json) -> (j: Json)
    ensures
        j@ == JsonView::Object(seq![(k1@, v1@), (k2@, v2@)]),
{
    let mut e: Vec<(String, Json)> = Vec::new();
    e.push(entry(k1, v1));
    e.push(entry(k2, v2));
    let j = Json::Object(e);
    assert(view_entries(j) =~= seq![(k1@, v1@), (k2@, v2@)]);
    j
}

fn object3(k1: &str, v1: Json, k2: &str, v2: Json, k3: &str, v3: Json) -> (j: Json)
    ensures
        j@ == JsonView::Object(seq![(k1@, v1@), (k2@, v2@), (k3@, v3@)]),
{
    let mut e: Vec<(String, Json)> = Vec::new();
    e.push(entry(k1, v1));
    e.push(entry(k2, v2));
    e.push(entry(k3, v3));
    let j = Json::Object(e);
    assert(view_entries(j) =~= seq![(k1@, v1@), (k2@, v2@), (k3@, v3@)]);
    j
}

fn empty_object() -> (j: Json)
    ensures
        j@ == JsonView::Object(Seq::empty()),
{
    let e: Vec<(String, Json)> = Vec::new();
    let j = Json::Object(e);
    assert(view_entries(j) =~= Seq::<(Seq<char>, JsonView)>::empty());
    j
}

fn empty_list() -> (j: Json)
    ensures
        j@ == JsonView::List(Seq::empty()),
{
    let e: Vec<Json> = Vec::new();
    let j = Json::List(e);
    assert(view_list(j) =~= Seq::<JsonView>::empty());
    j
}

/// `initialized`, while the session is starting: the Breakpoints, the
/// Exception filters and `configurationDone` go out, and the program runs.
/// At any other time it is ignored.
pub open spec fn configured_by(before: Session, after: Session, breakpoints: Seq<crate::debug::Breakpoint>, effects: Seq<Effect>) -> bool {
    if before.phase is Starting {
        &&& kept(before, after)
        &&& after.pausing == before.pausing
        &&& after.can_set == before.can_set
        &&& after.can_cancel == before.can_cancel
        &&& after.previous == before.previous
        &&& after.phase == Phase::Running(None)
        &&& asked_all(before, after, configure_requests(breakpoints), effects)
    } else {
        after == before && effects.len() == 0
    }
}

fn configured(session: &mut Session, breakpoints: &[crate::debug::Breakpoint]) -> (effects: Vec<Effect>)
    ensures
        configured_by(*old(session), *final(session), breakpoints@, effects@),
{
    match session.phase {
        Phase::Starting => {},
        _ => return Vec::new(),
    }
    let ghost first = *session;
    let mut files: Vec<Vec<char>> = Vec::new();
    let mut i: usize = 0;
    while i < breakpoints.len()
        invariant
            i <= breakpoints.len(),
            files@.map_values(|f: Vec<char>| f@) == files_of(breakpoints@.take(i as int)),
        decreases breakpoints.len() - i,
    {
        assert(breakpoints@.take(i + 1).drop_last() =~= breakpoints@.take(i as int));
        assert(breakpoints@.take(i + 1).last() == breakpoints@[i as int]);
        add_file(&mut files, crate::text::chars_of(breakpoints[i].file.as_str()));
        i = i + 1;
    }
    assert(breakpoints@.take(breakpoints.len() as int) =~= breakpoints@);
    let ghost fv = files@.map_values(|f: Vec<char>| f@);
    let ghost per_file = Seq::new(fv.len(), |k: int| set_breakpoints(fv[k], lines_of(breakpoints@, fv[k])));
    let mut effects: Vec<Effect> = Vec::new();
    proof {
        lemma_asked_none(*session);
        assert(per_file.take(0) =~= Seq::<(Seq<char>, JsonView)>::empty());
    }
    let mut k: usize = 0;
    while k < files.len()
        invariant
            k <= files.len(),
            fv == files@.map_values(|f: Vec<char>| f@),
            fv == files_of(breakpoints@),
            per_file == Seq::new(fv.len(), |k: int| set_breakpoints(fv[k], lines_of(breakpoints@, fv[k]))),
            kept(first, *session),
            session.pausing == first.pausing && session.can_set == first.can_set,
            session.can_cancel == first.can_cancel && session.previous == first.previous,
            session.phase == Phase::Starting,
            asked_all(first, *session, per_file.take(k as int), effects@),
        decreases files.len() - k,
    {
        let lines = lines_in(breakpoints, &files[k]);
        let path = Json::Text(crate::text::string_of(files[k].as_slice()));
        let source = object1("path", path);
        let arguments = object2("source", source, "breakpoints", lines);
        let ghost args_view = arguments@;
        assert((("setBreakpoints"@, args_view)) == per_file[k as int]);
        let ghost mid = *session;
        let e = ask(session, "setBreakpoints", arguments);
        proof {
            lemma_asked_one_more(first, mid, *session, per_file.take(k as int), effects@, "setBreakpoints"@, args_view, e);
            assert(per_file.take(k as int).push(("setBreakpoints"@, args_view)) =~= per_file.take(k + 1));
        }
        effects.push(e);
        k = k + 1;
    }
    assert(per_file.take(files.len() as int) =~= per_file);
    let filters = object1("filters", empty_list());
    let ghost f_view = filters@;
    let ghost mid = *session;
    let e = ask(session, "setExceptionBreakpoints", filters);
    proof {
        lemma_asked_one_more(first, mid, *session, per_file, effects@, "setExceptionBreakpoints"@, f_view, e);
    }
    effects.push(e);
    let done = empty_object();
    let ghost mid2 = *session;
    let e2 = ask(session, "configurationDone", done);
    proof {
        lemma_asked_one_more(first, mid2, *session, per_file.push(("setExceptionBreakpoints"@, f_view)), effects@, "configurationDone"@, JsonView::Object(Seq::empty()), e2);
        assert(per_file.push(("setExceptionBreakpoints"@, f_view)).push(("configurationDone"@, JsonView::Object(Seq::empty())))
            =~= configure_requests(breakpoints@));
    }
    effects.push(e2);
    session.phase = Phase::Running(None);
    effects
}


/// The number under `key`, or nothing at all where it holds none, as
/// `as_i64().unwrap_or_default()` reads one.
pub open spec fn int_or_zero(j: JsonView) -> int {
    match int_of(j) {
        Some(n) => n,
        None => 0,
    }
}

/// The inspected Frame's name, or nothing where no Frame is chosen.
pub open spec fn frame_name(pause: crate::debug::Pause) -> Seq<char> {
    if pause.chosen < pause.frames@.len() { pause.frames@[pause.chosen as int].name@ } else { Seq::empty() }
}

/// What the pause that is ending showed: the pause while paused, the last
/// one while running.
pub open spec fn ending(phase: Phase) -> Option<crate::debug::Pause> {
    match phase {
        Phase::Paused(p) => Some(p),
        Phase::Running(last) => last,
        _ => None,
    }
}

/// What a pause that is ending leaves for the one after it: the chosen
/// Frame's name and what its locals held.
pub open spec fn left_behind(previous: Option<(String, Vec<(String, String)>)>, ended: Option<crate::debug::Pause>) -> bool {
    match (previous, ended) {
        (Some((name, held)), Some(p)) => name@ == frame_name(p)
            && crate::debug::pairs_view(held@) == crate::debug::locals_spec(p, p.scopes@.len() as int),
        (None, None) => true,
        _ => false,
    }
}

/// A pause that has just begun, as the `stopped` event's body describes it:
/// nothing fetched yet.
pub open spec fn fresh_pause(p: crate::debug::Pause, body: JsonView) -> bool {
    &&& p.thread as int == int_or_zero(field(body, "threadId"@))
    &&& p.why == (if text_of(field(body, "reason"@)) == Some("exception"@) { crate::debug::Why::Exception } else { crate::debug::Why::Paused })
    &&& match p.exception {
        Some(t) => text_of(field(body, "text"@)) matches Some(x) && t@ == printable(x),
        None => text_of(field(body, "text"@)) is None,
    }
    &&& p.frames@.len() == 0
    &&& p.chosen == 0
    &&& p.scopes@.len() == 0
    &&& p.children@ == Map::<i64, Vec<crate::debug::Member>>::empty()
    &&& p.open@ == Set::<i64>::empty()
    &&& p.fetched@ == Map::<i64, usize>::empty()
}

/// Whether a `stopped` event moves the inspection: only a running program,
/// or the thread already being inspected, does.
pub open spec fn stops(phase: Phase, body: JsonView) -> bool {
    match phase {
        Phase::Running(_) => true,
        Phase::Paused(p) => p.thread as int == int_or_zero(field(body, "threadId"@)),
        _ => false,
    }
}

fn frame_named(pause: &crate::debug::Pause) -> (name: String)
    ensures
        name@ == frame_name(*pause),
{
    if pause.chosen < pause.frames.len() {
        pause.frames[pause.chosen].name.clone()
    } else {
        proof {
            reveal_strlit("");
        }
        crate::text::owned("")
    }
}

/// `stopped`: a running program, or the thread being inspected, pauses; what
/// the ending pause showed is kept for the one after it, and the call stack
/// is asked for. Any other thread pausing leaves the inspection where it is.
pub open spec fn stopped_by(before: Session, after: Session, body: JsonView, effects: Seq<Effect>) -> bool {
    if stops(before.phase, body) {
        &&& kept(before, after)
        &&& after.pausing == before.pausing
        &&& after.can_set == before.can_set
        &&& after.can_cancel == before.can_cancel
        &&& left_behind(after.previous, ending(before.phase))
        &&& after.phase matches Phase::Paused(p) && fresh_pause(p, body)
        &&& asked_all(before, after, seq![("stackTrace"@, JsonView::Object(seq![("threadId"@, JsonView::Int(int_or_zero(field(body, "threadId"@))))]))], effects)
    } else {
        after == before && effects.len() == 0
    }
}

fn stopped(session: &mut Session, body: &Json) -> (effects: Vec<Effect>)
    ensures
        stopped_by(*old(session), *final(session), body@, effects@),
{
    let thread: i64 = match int_field(body, "threadId") {
        Some(n) => n,
        None => 0,
    };
    let moves = match &session.phase {
        Phase::Running(_) => true,
        Phase::Paused(p) => p.thread == thread,
        _ => false,
    };
    if !moves {
        return Vec::new();
    }
    let previous = match &session.phase {
        Phase::Paused(p) => Some((frame_named(p), crate::debug::locals(p))),
        Phase::Running(Some(p)) => Some((frame_named(p), crate::debug::locals(p))),
        _ => None,
    };
    let why = match text_field(body, "reason") {
        Some(r) => if crate::text::same_chars(&crate::text::chars_of(r), &crate::text::chars_of("exception")) {
            crate::debug::Why::Exception
        } else {
            crate::debug::Why::Paused
        },
        None => crate::debug::Why::Paused,
    };
    let exception = match text_field(body, "text") {
        Some(t) => Some(printable_of(t)),
        None => None,
    };
    let ghost first = *session;
    session.previous = previous;
    session.phase = Phase::Paused(crate::debug::Pause {
        thread,
        why,
        exception,
        frames: Vec::new(),
        chosen: 0,
        scopes: Vec::new(),
        children: std::collections::BTreeMap::new(),
        open: std::collections::BTreeSet::new(),
        fetched: std::collections::BTreeMap::new(),
    });
    let ghost mid = *session;
    let arguments = object1("threadId", Json::Int(thread));
    let ghost a = arguments@;
    let e = ask(session, "stackTrace", arguments);
    proof {
        lemma_asked_none(mid);
        lemma_asked_one_more(mid, mid, *session, Seq::empty(), Seq::empty(), "stackTrace"@, a, e);
        assert(Seq::<(Seq<char>, JsonView)>::empty().push(("stackTrace"@, a)) =~= seq![("stackTrace"@, a)]);
        assert(Seq::<Effect>::empty().push(e) =~= seq![e]);
        assert(asked_view(mid.asked@) == asked_view(first.asked@));
    }
    let mut effects: Vec<Effect> = Vec::new();
    effects.push(e);
    assert(effects@ =~= seq![e]);
    effects
}


/// A text without the line breaks it ends with.
pub open spec fn without_breaks(t: Seq<char>) -> Seq<char>
    decreases t.len(),
{
    if t.len() > 0 && t.last() == '\n' { without_breaks(t.drop_last()) } else { t }
}

/// Whether the Evaluator has a run still in flight.
pub open spec fn in_flight(ran: Option<crate::debug::Run>) -> bool {
    ran matches Some(r) && r.answer is Running
}

/// `output`: what the program printed goes to the run in flight, its line
/// breaks at the end taken off, and nowhere while nothing runs.
pub open spec fn printed_by(before: Option<crate::debug::Run>, after: Option<crate::debug::Run>, body: JsonView) -> bool {
    if in_flight(before) {
        after matches Some(a) && before matches Some(b)
            && a.ran == b.ran && a.answer == b.answer
            && a.printed@.map_values(|t: String| t@) == b.printed@.map_values(|t: String| t@).push(
                printable(without_breaks(text_or_empty(field(body, "output"@)))),
            )
    } else {
        after == before
    }
}

fn printed(ran: &mut Option<crate::debug::Run>, body: &Json)
    ensures
        printed_by(*old(ran), *final(ran), body@),
{
    let text = match text_field(body, "output") {
        Some(t) => t,
        None => "",
    };
    proof {
        reveal_strlit("");
    }
    match ran {
        Some(r) => {
            match r.answer {
                crate::debug::Ran::Running(_) => {},
                _ => return,
            }
            let chars = crate::text::chars_of(text);
            let mut end = chars.len();
            assert(chars@.take(chars.len() as int) =~= chars@);
            while end > 0 && chars[end - 1] == '\n'
                invariant
                    end <= chars.len(),
                    without_breaks(chars@) == without_breaks(chars@.take(end as int)),
                decreases end,
            {
                assert(chars@.take(end as int).drop_last() =~= chars@.take(end - 1));
                end = end - 1;
            }
            let kept_text = crate::text::string_of(crate::text::slice_of(&chars, 0, end).as_slice());
            let line = printable_of(kept_text.as_str());
            let ghost before = r.printed@.map_values(|t: String| t@);
            r.printed.push(line);
            assert(r.printed@.map_values(|t: String| t@) =~= before.push(line@));
        },
        None => {},
    }
}

/// `capabilities`: what the adapter says it can do now, each where it says.
pub open spec fn capable_by(before: Session, after: Session, body: JsonView) -> bool {
    let caps = field(body, "capabilities"@);
    &&& after.can_set == (match bool_of(field(caps, "supportsSetVariable"@)) { Some(b) => b, None => before.can_set })
    &&& after.can_cancel == (match bool_of(field(caps, "supportsCancelRequest"@)) { Some(b) => b, None => before.can_cancel })
    &&& kept(before, after)
    &&& after.phase == before.phase
    &&& after.pausing == before.pausing
    &&& after.previous == before.previous
    &&& after.seq == before.seq
    &&& after.asked == before.asked
}

/// `continued`: a paused program runs on, keeping what the pause showed.
pub open spec fn continued_by(before: Session, after: Session) -> bool {
    match before.phase {
        Phase::Paused(p) => after.phase == Phase::Running(Some(p)) && {
            &&& kept(before, after)
            &&& after.pausing == before.pausing
            &&& after.can_set == before.can_set
            &&& after.can_cancel == before.can_cancel
            &&& after.previous == before.previous
            &&& after.seq == before.seq
            &&& after.asked == before.asked
        },
        _ => after == before,
    }
}

/// `terminated`: the program is gone, so the adapter is told the session is
/// over and let go once it answers; a session already stopping is left.
pub open spec fn terminated_by(before: Session, after: Session, effects: Seq<Effect>) -> bool {
    if before.phase is Stopping {
        after == before && effects.len() == 0
    } else {
        &&& kept(before, after)
        &&& after.pausing == before.pausing
        &&& after.can_set == before.can_set
        &&& after.can_cancel == before.can_cancel
        &&& after.previous == before.previous
        &&& after.phase == Phase::Stopping
        &&& asked_all(before, after, seq![("disconnect"@, JsonView::Object(Seq::empty()))], effects)
    }
}

fn one_ask(session: &mut Session, command: &str, arguments: Json) -> (effects: Vec<Effect>)
    ensures
        kept(*old(session), *final(session)),
        final(session).pausing == old(session).pausing,
        final(session).can_set == old(session).can_set,
        final(session).can_cancel == old(session).can_cancel,
        final(session).previous == old(session).previous,
        final(session).phase == old(session).phase,
        asked_all(*old(session), *final(session), seq![(command@, arguments@)], effects@),
{
    let ghost first = *session;
    let ghost a = arguments@;
    let e = ask(session, command, arguments);
    proof {
        lemma_asked_none(first);
        lemma_asked_one_more(first, first, *session, Seq::empty(), Seq::empty(), command@, a, e);
        assert(Seq::<(Seq<char>, JsonView)>::empty().push((command@, a)) =~= seq![(command@, a)]);
    }
    let mut effects: Vec<Effect> = Vec::new();
    effects.push(e);
    assert(effects@ =~= Seq::<Effect>::empty().push(e));
    effects
}

/// An event the adapter sent, read: what the session does with it, what it
/// asks in return, and what else it changes.
pub open spec fn told_by(
    before: Session,
    after: Session,
    event: JsonView,
    breakpoints: Seq<crate::debug::Breakpoint>,
    ran_before: Option<crate::debug::Run>,
    ran_after: Option<crate::debug::Run>,
    effects: Seq<Effect>,
    heard: Heard,
) -> bool {
    let name = text_of(field(event, "event"@));
    let body = field(event, "body"@);
    if name == Some("initialized"@) {
        configured_by(before, after, breakpoints, effects) && ran_after == ran_before && heard == Heard::Quiet
    } else if name == Some("stopped"@) {
        stopped_by(before, after, body, effects) && ran_after == ran_before
            && heard == (if stops(before.phase, body) { Heard::Paused } else { Heard::Quiet })
    } else if name == Some("capabilities"@) {
        capable_by(before, after, body) && effects.len() == 0 && ran_after == ran_before && heard == Heard::Quiet
    } else if name == Some("output"@) {
        after == before && effects.len() == 0 && printed_by(ran_before, ran_after, body) && heard == Heard::Quiet
    } else if name == Some("continued"@) {
        continued_by(before, after) && effects.len() == 0 && ran_after == ran_before && heard == Heard::Quiet
    } else if name == Some("terminated"@) {
        terminated_by(before, after, effects) && ran_after == ran_before && heard == Heard::Quiet
    } else {
        after == before && effects.len() == 0 && ran_after == ran_before && heard == Heard::Quiet
    }
}

fn named(t: Option<&str>, word: &str) -> (r: bool)
    ensures
        r == (t matches Some(x) && x@ == word@),
{
    match t {
        Some(x) => crate::text::same_chars(&crate::text::chars_of(x), &crate::text::chars_of(word)),
        None => false,
    }
}

/// An event the adapter sent.
pub fn told(
    session: &mut Session,
    event: &Json,
    breakpoints: &[crate::debug::Breakpoint],
    asking: &mut Asking,
) -> (r: (Vec<Effect>, Heard))
    ensures
        told_by(*old(session), *final(session), event@, breakpoints@, old(asking).ran, final(asking).ran, r.0@, r.1),
        final(asking).watches == old(asking).watches,
        final(asking).hovered == old(asking).hovered,
{
    let null = Json::Null;
    let body = at(event, "body", &null);
    let name = text_field(event, "event");
    if named(name, "initialized") {
        return (configured(session, breakpoints), Heard::Quiet);
    }
    if named(name, "stopped") {
        let effects = stopped(session, body);
        let heard = if effects.len() > 0 { Heard::Paused } else { Heard::Quiet };
        return (effects, heard);
    }
    if named(name, "capabilities") {
        let caps = at(body, "capabilities", &null);
        if let Some(b) = bool_field(caps, "supportsSetVariable") {
            session.can_set = b;
        }
        if let Some(b) = bool_field(caps, "supportsCancelRequest") {
            session.can_cancel = b;
        }
        return (Vec::new(), Heard::Quiet);
    }
    if named(name, "output") {
        printed(&mut asking.ran, body);
        return (Vec::new(), Heard::Quiet);
    }
    if named(name, "continued") {
        if let Phase::Paused(_) = session.phase {
            let mut phase = Phase::Stopping;
            std::mem::swap(&mut phase, &mut session.phase);
            if let Phase::Paused(p) = phase {
                session.phase = Phase::Running(Some(p));
            }
        }
        return (Vec::new(), Heard::Quiet);
    }
    if named(name, "terminated") {
        if let Phase::Stopping = session.phase {
            return (Vec::new(), Heard::Quiet);
        }
        session.phase = Phase::Stopping;
        let done = empty_object();
        return (one_ask(session, "disconnect", done), Heard::Quiet);
    }
    (Vec::new(), Heard::Quiet)
}


/// A count as `as_u64().unwrap_or_default() as usize` reads one: a whole
/// number that is not negative, and nothing otherwise.
pub open spec fn count_of(j: JsonView) -> usize {
    match j {
        JsonView::Int(n) => if n >= 0 { n as usize } else { 0 },
        _ => 0,
    }
}

/// Whether a list names `word` among its strings.
pub open spec fn names_word(j: JsonView, word: Seq<char>) -> bool {
    j matches JsonView::List(items) && exists|i: int| 0 <= i < items.len() && text_of(#[trigger] items[i]) == Some(word)
}

/// How a member is drawn, as the adapter's presentation hint says.
pub open spec fn hint_of(v: JsonView) -> crate::debug::Hint {
    let hint = field(v, "presentationHint"@);
    if field(hint, "visibility"@) == JsonView::Text("private"@) {
        crate::debug::Hint::Private
    } else if names_word(field(hint, "attributes"@), "lazy"@) {
        crate::debug::Hint::Lazy
    } else if names_word(field(hint, "attributes"@), "readOnly"@) {
        crate::debug::Hint::ReadOnly
    } else {
        crate::debug::Hint::Plain
    }
}

/// One member of the Variables as the adapter worded it, with nothing left in
/// its words that could drive the terminal.
pub open spec fn member_of(v: JsonView) -> crate::debug::MemberView {
    (
        printable(text_or_empty(field(v, "name"@))),
        printable(text_or_empty(field(v, "value"@))),
        int_or_zero(field(v, "variablesReference"@)) as i64,
        hint_of(v),
        count_of(field(v, "indexedVariables"@)),
    )
}

pub open spec fn list_items(j: JsonView) -> Seq<JsonView> {
    match j {
        JsonView::List(items) => items,
        _ => Seq::empty(),
    }
}

/// The members a list of them holds, one for each element.
pub open spec fn members_of(j: JsonView) -> Seq<crate::debug::MemberView> {
    list_items(j).map_values(|v: JsonView| member_of(v))
}

pub type FrameView = (i64, Seq<char>, Option<Seq<char>>, usize);

pub open spec fn frame_view(f: crate::debug::Frame) -> FrameView {
    (f.id, f.name@, match f.file { Some(p) => Some(p@), None => None }, f.line)
}

/// One call as the adapter names it.
pub open spec fn frame_of(v: JsonView) -> FrameView {
    (
        int_or_zero(field(v, "id"@)) as i64,
        printable(text_or_empty(field(v, "name"@))),
        match text_of(field(field(v, "source"@), "path"@)) {
            Some(p) => Some(printable(p)),
            None => None,
        },
        count_of(field(v, "line"@)),
    )
}

pub open spec fn frames_of(j: JsonView) -> Seq<FrameView> {
    list_items(j).map_values(|v: JsonView| frame_of(v))
}

fn int_or_zero_at(j: &Json, key: &str) -> (n: i64)
    ensures
        n as int == int_or_zero(field(j@, key@)),
{
    match int_field(j, key) {
        Some(n) => n,
        None => 0,
    }
}

fn count_at(j: &Json, key: &str) -> (n: usize)
    ensures
        n == count_of(field(j@, key@)),
{
    match get(j, key) {
        Some(Json::Int(n)) => if *n >= 0 { *n as usize } else { 0 },
        _ => 0,
    }
}

fn printable_at(j: &Json, key: &str) -> (t: String)
    ensures
        t@ == printable(text_or_empty(field(j@, key@))),
{
    match text_field(j, key) {
        Some(t) => printable_of(t),
        None => {
            proof {
                reveal_strlit("");
            }
            printable_of("")
        },
    }
}

fn has_word(j: &Json, word: &str) -> (r: bool)
    ensures
        r == names_word(j@, word@),
{
    match j {
        Json::List(items) => {
            assert(view_list(*j) =~= Seq::new(items.len() as nat, |i: int| items@[i]@));
            let mut i: usize = 0;
            while i < items.len()
                invariant
                    i <= items.len(),
                    j@ == JsonView::List(Seq::new(items.len() as nat, |i: int| items@[i]@)),
                    forall|k: int| 0 <= k < i ==> text_of(#[trigger] list_items(j@)[k]) != Some(word@),
                decreases items.len() - i,
            {
                assert(list_items(j@)[i as int] == items@[i as int]@);
                match &items[i] {
                    Json::Text(t) => {
                        if crate::text::same_chars(&crate::text::chars_of(t.as_str()), &crate::text::chars_of(word)) {
                            return true;
                        }
                    },
                    _ => {},
                }
                i = i + 1;
            }
            false
        },
        _ => false,
    }
}

fn member(v: &Json) -> (m: crate::debug::Member)
    ensures
        m@ == member_of(v@),
{
    let null = Json::Null;
    let hint = at(v, "presentationHint", &null);
    let attributes = at(hint, "attributes", &null);
    let private = match get(hint, "visibility") {
        Some(Json::Text(t)) => crate::text::same_chars(&crate::text::chars_of(t.as_str()), &crate::text::chars_of("private")),
        _ => false,
    };
    let kind = if private {
        crate::debug::Hint::Private
    } else if has_word(attributes, "lazy") {
        crate::debug::Hint::Lazy
    } else if has_word(attributes, "readOnly") {
        crate::debug::Hint::ReadOnly
    } else {
        crate::debug::Hint::Plain
    };
    crate::debug::Member {
        name: printable_at(v, "name"),
        value: printable_at(v, "value"),
        reference: int_or_zero_at(v, "variablesReference"),
        hint: kind,
        indexed: count_at(v, "indexedVariables"),
    }
}

fn frame(v: &Json) -> (f: crate::debug::Frame)
    ensures
        frame_view(f) == frame_of(v@),
{
    let null = Json::Null;
    let source = at(v, "source", &null);
    let file = match text_field(source, "path") {
        Some(p) => Some(printable_of(p)),
        None => None,
    };
    crate::debug::Frame {
        id: int_or_zero_at(v, "id"),
        name: printable_at(v, "name"),
        file,
        line: count_at(v, "line"),
    }
}

fn members(j: &Json) -> (ms: Vec<crate::debug::Member>)
    ensures
        crate::debug::members_view(ms@) == members_of(j@),
{
    let mut ms: Vec<crate::debug::Member> = Vec::new();
    match j {
        Json::List(items) => {
            assert(view_list(*j) =~= Seq::new(items.len() as nat, |i: int| items@[i]@));
            let mut i: usize = 0;
            while i < items.len()
                invariant
                    i <= items.len(),
                    j@ == JsonView::List(Seq::new(items.len() as nat, |i: int| items@[i]@)),
                    crate::debug::members_view(ms@) == members_of(j@).take(i as int),
                decreases items.len() - i,
            {
                let m = member(&items[i]);
                let ghost before = crate::debug::members_view(ms@);
                ms.push(m);
                assert(crate::debug::members_view(ms@) =~= before.push(m@));
                assert(members_of(j@).take(i + 1) =~= members_of(j@).take(i as int).push(member_of(items@[i as int]@)));
                i = i + 1;
            }
            assert(members_of(j@).take(items.len() as int) =~= members_of(j@));
        },
        _ => {
            assert(crate::debug::members_view(ms@) =~= members_of(j@));
        },
    }
    ms
}

fn frames(j: &Json) -> (fs: Vec<crate::debug::Frame>)
    ensures
        fs@.map_values(|f: crate::debug::Frame| frame_view(f)) == frames_of(j@),
{
    let mut fs: Vec<crate::debug::Frame> = Vec::new();
    match j {
        Json::List(items) => {
            assert(view_list(*j) =~= Seq::new(items.len() as nat, |i: int| items@[i]@));
            let mut i: usize = 0;
            while i < items.len()
                invariant
                    i <= items.len(),
                    j@ == JsonView::List(Seq::new(items.len() as nat, |i: int| items@[i]@)),
                    fs@.map_values(|f: crate::debug::Frame| frame_view(f)) == frames_of(j@).take(i as int),
                decreases items.len() - i,
            {
                let f = frame(&items[i]);
                let ghost before = fs@.map_values(|f: crate::debug::Frame| frame_view(f));
                let ghost fv = frame_view(f);
                fs.push(f);
                assert(fs@.map_values(|f: crate::debug::Frame| frame_view(f)) =~= before.push(fv));
                assert(frames_of(j@).take(i + 1) =~= frames_of(j@).take(i as int).push(frame_of(items@[i as int]@)));
                i = i + 1;
            }
            assert(frames_of(j@).take(items.len() as int) =~= frames_of(j@));
        },
        _ => {
            assert(fs@.map_values(|f: crate::debug::Frame| frame_view(f)) =~= frames_of(j@));
        },
    }
    fs
}


/// How many members of an indexed collection are asked for at a time.
pub const PAGE: usize = 100;

/// What an `evaluate` came back with: a value, the reference its children
/// are asked for by and how many indexed children it has; or the adapter's
/// reason.
pub type Outcome = Result<(Seq<char>, i64, usize), Seq<char>>;

/// Whether an `evaluate` was the Evaluator's run still in flight: asked in
/// the `repl` context, with the `seq` the run is waiting on.
pub open spec fn ran_claims(ran: Option<crate::debug::Run>, arguments: JsonView, seq: i64) -> bool {
    &&& field(arguments, "context"@) == JsonView::Text("repl"@)
    &&& ran matches Some(r) && r.answer == crate::debug::Ran::Running(seq)
}

/// Whether an `evaluate` was the Hover's: asked in the `hover` context, for
/// the expression the box still describes.
pub open spec fn hover_claims(hovered: Option<crate::debug::Hovered>, arguments: JsonView) -> bool {
    &&& field(arguments, "context"@) == JsonView::Text("hover"@)
    &&& text_of(field(arguments, "expression"@)) matches Some(e)
    &&& hovered matches Some(h) && h.expression@ == e
}

/// The first Watch on `expression`.
pub open spec fn watch_at(watches: Seq<crate::debug::Watch>, expression: Seq<char>, from: int) -> Option<int>
    decreases watches.len() - from,
{
    if from < 0 || from >= watches.len() {
        None
    } else if watches[from].expression@ == expression {
        Some(from)
    } else {
        watch_at(watches, expression, from + 1)
    }
}

/// An `evaluate`'s answer filed where it was asked from: the Evaluator's
/// run, else the Hover, else the Watch on that expression; nowhere where
/// none of them asked it.
pub open spec fn filed(before: Asking, after: Asking, arguments: JsonView, seq: i64, outcome: Outcome) -> bool {
    if ran_claims(before.ran, arguments, seq) {
        &&& after.watches == before.watches && after.hovered == before.hovered
        &&& (after.ran matches Some(a) && before.ran matches Some(b) && a.ran == b.ran && a.printed == b.printed
            && match outcome {
            Ok((v, r, i)) => a.answer matches crate::debug::Ran::Value { value, reference, indexed }
                && value@ == v && reference == r && indexed == i,
            Err(w) => a.answer matches crate::debug::Ran::Failed(t) && t@ == w,
        })
    } else if hover_claims(before.hovered, arguments) {
        &&& after.watches == before.watches && after.ran == before.ran
        &&& (after.hovered matches Some(a) && before.hovered matches Some(b) && a.expression == b.expression && a.at == b.at
            && match outcome {
            Ok((v, r, i)) => a.held matches crate::debug::Held::Value { value, reference, indexed }
                && value@ == v && reference == r && indexed == i,
            Err(w) => a.held matches crate::debug::Held::Failed(t) && t@ == w,
        })
    } else {
        match text_of(field(arguments, "expression"@)) {
            Some(e) => match watch_at(before.watches@, e, 0) {
                Some(k) => {
                    &&& after.hovered == before.hovered && after.ran == before.ran
                    &&& after.watches@.len() == before.watches@.len()
                    &&& forall|j: int| 0 <= j < before.watches@.len() && j != k ==> after.watches@[j] == before.watches@[j]
                    &&& after.watches@[k].expression == before.watches@[k].expression
                    &&& match outcome {
                        Ok((v, _, _)) => after.watches@[k].answer matches crate::debug::Answer::Value(t) && t@ == v,
                        Err(w) => after.watches@[k].answer matches crate::debug::Answer::Failed(t) && t@ == w,
                    }
                },
                None => after == before,
            },
            None => after == before,
        }
    }
}

fn find_watch(watches: &Vec<crate::debug::Watch>, expression: &str) -> (k: Option<usize>)
    ensures
        match k {
            Some(i) => watch_at(watches@, expression@, 0) == Some(i as int) && i < watches@.len(),
            None => watch_at(watches@, expression@, 0) is None,
        },
{
    let wanted = crate::text::chars_of(expression);
    let mut i: usize = 0;
    while i < watches.len()
        invariant
            i <= watches.len(),
            wanted@ == expression@,
            watch_at(watches@, expression@, 0) == watch_at(watches@, expression@, i as int),
        decreases watches.len() - i,
    {
        if crate::text::same_chars(&crate::text::chars_of(watches[i].expression.as_str()), &wanted) {
            return Some(i);
        }
        i = i + 1;
    }
    None
}

fn is_text(j: &Json, word: &str) -> (r: bool)
    ensures
        r == (j@ == JsonView::Text(word@)),
{
    match j {
        Json::Text(t) => crate::text::same_chars(&crate::text::chars_of(t.as_str()), &crate::text::chars_of(word)),
        _ => false,
    }
}

fn file_answer(asking: &mut Asking, arguments: &Json, seq: i64, outcome: Result<(String, i64, usize), String>)
    ensures
        filed(*old(asking), *final(asking), arguments@, seq, match outcome {
            Ok((v, r, i)) => Ok((v@, r, i)),
            Err(w) => Err(w@),
        }),
{
    let null = Json::Null;
    let context = at(arguments, "context", &null);
    let repl = is_text(context, "repl");
    let running = match &asking.ran {
        Some(r) => match r.answer {
            crate::debug::Ran::Running(n) => n == seq,
            _ => false,
        },
        None => false,
    };
    if repl && running {
        if let Some(r) = &mut asking.ran {
            r.answer = match outcome {
                Ok((value, reference, indexed)) => crate::debug::Ran::Value { value, reference, indexed },
                Err(why) => crate::debug::Ran::Failed(why),
            };
        }
        return;
    }
    let expression = text_field(arguments, "expression");
    if is_text(context, "hover") {
        if let Some(e) = expression {
            let same = match &asking.hovered {
                Some(h) => crate::text::same_chars(&crate::text::chars_of(h.expression.as_str()), &crate::text::chars_of(e)),
                None => false,
            };
            if same {
                if let Some(h) = &mut asking.hovered {
                    h.held = match outcome {
                        Ok((value, reference, indexed)) => crate::debug::Held::Value { value, reference, indexed },
                        Err(why) => crate::debug::Held::Failed(why),
                    };
                }
                return;
            }
        }
    }
    if let Some(e) = expression {
        if let Some(k) = find_watch(&asking.watches, e) {
            let answer = match outcome {
                Ok((value, _, _)) => crate::debug::Answer::Value(value),
                Err(why) => crate::debug::Answer::Failed(why),
            };
            let mut watch = asking.watches.remove(k);
            watch.answer = answer;
            asking.watches.insert(k, watch);
        }
    }
}

/// Why the adapter refused, in its own words: the error's `format` where it
/// sent one, else its `message`, else the command it answered.
pub open spec fn adapter_error(message: JsonView, command: Seq<char>) -> Seq<char> {
    printable(
        match text_of(field(field(field(message, "body"@), "error"@), "format"@)) {
            Some(f) => f,
            None => match text_of(field(message, "message"@)) {
                Some(m) => m,
                None => command,
            },
        },
    )
}

fn refused_because(message: &Json, command: &str) -> (why: String)
    ensures
        why@ == adapter_error(message@, command@),
{
    let null = Json::Null;
    let error = at(at(message, "body", &null), "error", &null);
    match text_field(error, "format") {
        Some(f) => printable_of(f),
        None => match text_field(message, "message") {
            Some(m) => printable_of(m),
            None => printable_of(command),
        },
    }
}

/// The first request still waiting with this `seq`.
pub open spec fn waiting_at(asked: Seq<(i64, Seq<char>, JsonView)>, seq: int, from: int) -> Option<int>
    decreases asked.len() - from,
{
    if from < 0 || from >= asked.len() {
        None
    } else if asked[from].0 as int == seq {
        Some(from)
    } else {
        waiting_at(asked, seq, from + 1)
    }
}

fn waiting(asked: &Vec<(i64, Ask)>, seq: i64) -> (k: Option<usize>)
    ensures
        match k {
            Some(i) => waiting_at(asked_view(asked@), seq as int, 0) == Some(i as int) && i < asked@.len(),
            None => waiting_at(asked_view(asked@), seq as int, 0) is None,
        },
{
    let ghost view = asked_view(asked@);
    let mut i: usize = 0;
    while i < asked.len()
        invariant
            i <= asked.len(),
            view == asked_view(asked@),
            waiting_at(view, seq as int, 0) == waiting_at(view, seq as int, i as int),
        decreases asked.len() - i,
    {
        if asked[i].0 == seq {
            return Some(i);
        }
        i = i + 1;
    }
    None
}


/// Every Watch back to waiting, expressions kept: their answers were about a
/// pause that has ended.
pub open spec fn all_waiting(before: Seq<crate::debug::Watch>, after: Seq<crate::debug::Watch>) -> bool {
    &&& after.len() == before.len()
    &&& forall|k: int| 0 <= k < before.len() ==> (#[trigger] after[k]).expression == before[k].expression
        && after[k].answer == crate::debug::Answer::Waiting
}

/// The Watches asked of the Frame numbered `frame`.
pub open spec fn watch_requests(watches: Seq<crate::debug::Watch>, frame: i64) -> Seq<(Seq<char>, JsonView)> {
    Seq::new(watches.len(), |k: int| ("evaluate"@, JsonView::Object(seq![
        ("expression"@, JsonView::Text(watches[k].expression@)),
        ("frameId"@, JsonView::Int(frame as int)),
        ("context"@, JsonView::Text("watch"@)),
    ])))
}

/// The inspection of the top Frame: its scopes, then every Watch, asked of
/// it; nothing where the stack is empty.
pub open spec fn inspect_requests(frames: Seq<FrameView>, watches: Seq<crate::debug::Watch>) -> Seq<(Seq<char>, JsonView)> {
    if frames.len() == 0 {
        Seq::empty()
    } else {
        seq![("scopes"@, JsonView::Object(seq![("frameId"@, JsonView::Int(frames[0].0 as int))]))]
            + watch_requests(watches, frames[0].0)
    }
}

/// Two pauses alike but for their Frames and the Frame chosen.
pub open spec fn same_but_frames(a: crate::debug::Pause, b: crate::debug::Pause) -> bool {
    &&& a.thread == b.thread && a.why == b.why && a.exception == b.exception
    &&& a.scopes == b.scopes && a.children == b.children && a.open == b.open && a.fetched == b.fetched
}

/// The session's fields besides its phase and conversation, alike.
pub open spec fn same_flags(a: Session, b: Session) -> bool {
    &&& kept(a, b)
    &&& a.pausing == b.pausing && a.can_set == b.can_set && a.can_cancel == b.can_cancel
    &&& a.previous == b.previous
}

/// `stackTrace` answered while paused: the Frames replace the ones before,
/// the top one is inspected, and every Watch goes back to waiting and is
/// asked of it. Answered at any other time it is dropped.
pub open spec fn framed_by(
    before: Session,
    after: Session,
    body: JsonView,
    watches_before: Seq<crate::debug::Watch>,
    watches_after: Seq<crate::debug::Watch>,
    effects: Seq<Effect>,
) -> bool {
    match before.phase {
        Phase::Paused(p) => {
            let frames = frames_of(field(body, "stackFrames"@));
            &&& same_flags(before, after)
            &&& (after.phase matches Phase::Paused(q) && same_but_frames(p, q) && q.chosen == 0
                && q.frames@.map_values(|f: crate::debug::Frame| frame_view(f)) == frames)
            &&& all_waiting(watches_before, watches_after)
            &&& asked_all(before, after, inspect_requests(frames, watches_before), effects)
        },
        _ => after == before && watches_after == watches_before && effects.len() == 0,
    }
}

fn watch_arguments(expression: &String, frame: i64) -> (j: Json)
    ensures
        j@ == JsonView::Object(seq![
            ("expression"@, JsonView::Text(expression@)),
            ("frameId"@, JsonView::Int(frame as int)),
            ("context"@, JsonView::Text("watch"@)),
        ]),
{
    object3("expression", Json::Text(expression.clone()), "frameId", Json::Int(frame), "context", text("watch"))
}

fn framed(session: &mut Session, body: &Json, watches: &mut Vec<crate::debug::Watch>) -> (effects: Vec<Effect>)
    ensures
        framed_by(*old(session), *final(session), body@, old(watches)@, final(watches)@, effects@),
{
    let null = Json::Null;
    let listed = frames(at(body, "stackFrames", &null));
    let ghost fv = listed@.map_values(|f: crate::debug::Frame| frame_view(f));
    let top: Option<i64> = if listed.len() > 0 { Some(listed[0].id) } else { None };
    match &mut session.phase {
        Phase::Paused(p) => {
            p.frames = listed;
            p.chosen = 0;
        },
        _ => return Vec::new(),
    }
    let ghost first = *old(session);
    let ghost mid = *session;
    let ghost old_watches = watches@;
    let mut effects: Vec<Effect> = Vec::new();
    proof {
        lemma_asked_none(mid);
        assert(asked_view(mid.asked@) == asked_view(first.asked@));
        assert(mid.seq == first.seq);
    }
    let ghost mut sent: Seq<(Seq<char>, JsonView)> = Seq::empty();
    if let Some(id) = top {
        let arguments = object1("frameId", Json::Int(id));
        let ghost a = arguments@;
        let ghost before_ask = *session;
        let e = ask(session, "scopes", arguments);
        proof {
            lemma_asked_one_more(first, before_ask, *session, sent, effects@, "scopes"@, a, e);
            sent = sent.push(("scopes"@, a));
        }
        effects.push(e);
    }
    // Every answer back to waiting, then each Watch asked of the top Frame.
    let mut k: usize = 0;
    while k < watches.len()
        invariant
            k <= watches.len(),
            watches@.len() == old_watches.len(),
            forall|j: int| 0 <= j < k ==> (#[trigger] watches@[j]).expression == old_watches[j].expression
                && watches@[j].answer == crate::debug::Answer::Waiting,
            forall|j: int| k <= j < watches@.len() ==> #[trigger] watches@[j] == old_watches[j],
        decreases watches.len() - k,
    {
        let mut w = watches.remove(k);
        w.answer = crate::debug::Answer::Waiting;
        watches.insert(k, w);
        k = k + 1;
    }
    if let Some(id) = top {
        let ghost base = sent;
        let mut k: usize = 0;
        while k < watches.len()
            invariant
                k <= watches.len(),
                all_waiting(old_watches, watches@),
                top == Some(id),
                fv.len() > 0 && fv[0].0 == id,
                base == seq![("scopes"@, JsonView::Object(seq![("frameId"@, JsonView::Int(id as int))]))],
                sent == base + watch_requests(old_watches, id).take(k as int),
                same_flags(first, *session),
                session.phase == mid.phase,
                asked_all(first, *session, sent, effects@),
            decreases watches.len() - k,
        {
            let arguments = watch_arguments(&watches[k].expression, id);
            let ghost a = arguments@;
            assert((("evaluate"@, a)) == watch_requests(old_watches, id)[k as int]);
            let ghost before_ask = *session;
            let e = ask(session, "evaluate", arguments);
            proof {
                lemma_asked_one_more(first, before_ask, *session, sent, effects@, "evaluate"@, a, e);
                assert(base + watch_requests(old_watches, id).take(k + 1) =~= sent.push(("evaluate"@, a)));
                sent = sent.push(("evaluate"@, a));
            }
            effects.push(e);
            k = k + 1;
        }
        assert(watch_requests(old_watches, id).take(watches.len() as int) =~= watch_requests(old_watches, id));
        assert(sent =~= inspect_requests(fv, old_watches));
    } else {
        assert(sent =~= inspect_requests(fv, old_watches));
    }
    effects
}


/// Two pauses alike but for what has been fetched of the Frame's tree.
pub open spec fn same_but_tree(a: crate::debug::Pause, b: crate::debug::Pause) -> bool {
    &&& a.thread == b.thread && a.why == b.why && a.exception == b.exception
    &&& a.frames == b.frames && a.chosen == b.chosen
}

/// The session unchanged but for the pause it holds.
pub open spec fn only_the_pause(before: Session, after: Session) -> bool {
    &&& same_flags(before, after)
    &&& after.seq == before.seq
    &&& after.asked == before.asked
}

/// `variables` answered while paused: one level of one reference, appended
/// to what arrived for it before, since the only second request for a
/// reference is its next page; how many have come is where the next page
/// starts.
pub open spec fn variables_by(before: Session, after: Session, arguments: JsonView, body: JsonView) -> bool {
    match before.phase {
        Phase::Paused(p) => {
            let reference = int_or_zero(field(arguments, "variablesReference"@)) as i64;
            let had = if p.children@.contains_key(reference) { crate::debug::members_view(p.children@[reference]@) } else { Seq::empty() };
            let held = had + members_of(field(body, "variables"@));
            &&& only_the_pause(before, after)
            &&& after.phase matches Phase::Paused(q) && same_but_tree(p, q)
                && q.scopes == p.scopes && q.open == p.open
                && q.children@.dom() == p.children@.dom().insert(reference)
                && (forall|r: i64| r != reference && p.children@.contains_key(r) ==> #[trigger] q.children@[r] == p.children@[r])
                && crate::debug::members_view(q.children@[reference]@) == held
                && q.fetched@ == p.fetched@.insert(reference, held.len() as usize)
        },
        _ => after == before,
    }
}

fn variables(session: &mut Session, arguments: &Json, body: &Json)
    ensures
        variables_by(*old(session), *final(session), arguments@, body@),
{
    let null = Json::Null;
    let arrived = members(at(body, "variables", &null));
    let reference = int_or_zero_at(arguments, "variablesReference");
    broadcast use vstd::std_specs::btree::group_btree_axioms;
    match &mut session.phase {
        Phase::Paused(p) => {
            let ghost before = p.children@;
            let mut held: Vec<crate::debug::Member> = match p.children.remove(&reference) {
                Some(v) => v,
                None => Vec::new(),
            };
            let ghost had = crate::debug::members_view(held@);
            assert(had == (if before.contains_key(reference) { crate::debug::members_view(before[reference]@) } else { Seq::empty() }));
            let mut arrived = arrived;
            let ghost got = arrived@;
            held.append(&mut arrived);
            assert(crate::debug::members_view(held@) =~= had + crate::debug::members_view(got));
            let count = held.len();
            let ghost hv = held;
            let ghost removed = p.children@;
            assert(removed == before.remove(reference));
            p.children.insert(reference, held);
            assert(p.children@ == removed.insert(reference, hv));
            assert(p.children@.dom() =~= before.dom().insert(reference));
            p.fetched.insert(reference, count);
        },
        _ => {},
    }
}


/// Whether the adapter called a scope expensive to read.
pub open spec fn expensive(v: JsonView) -> bool {
    field(v, "expensive"@) == JsonView::Bool(true)
}

/// What one level of a reference is asked with: the page from its start
/// where it is too big to come whole, and everything it holds otherwise.
pub open spec fn fetch_arguments(reference: i64, indexed: usize) -> JsonView {
    if indexed > PAGE {
        JsonView::Object(seq![
            ("variablesReference"@, JsonView::Int(reference as int)),
            ("start"@, JsonView::Int(0)),
            ("count"@, JsonView::Int(PAGE as int)),
        ])
    } else {
        JsonView::Object(seq![("variablesReference"@, JsonView::Int(reference as int))])
    }
}

/// The scopes that open as they arrive: every one the adapter did not call
/// expensive, in order.
pub open spec fn cheap_requests(items: Seq<JsonView>) -> Seq<(Seq<char>, JsonView)>
    decreases items.len(),
{
    if items.len() == 0 {
        Seq::empty()
    } else {
        let rest = cheap_requests(items.drop_last());
        let m = member_of(items.last());
        if expensive(items.last()) { rest } else { rest.push(("variables"@, fetch_arguments(m.2, m.4))) }
    }
}

pub open spec fn cheap_refs(items: Seq<JsonView>) -> Set<i64>
    decreases items.len(),
{
    if items.len() == 0 {
        Set::empty()
    } else {
        let rest = cheap_refs(items.drop_last());
        if expensive(items.last()) { rest } else { rest.insert(member_of(items.last()).2) }
    }
}

/// `scopes` answered while paused: the chosen Frame's scopes become the top
/// rows, nothing fetched under them yet, each open and asked for unless the
/// adapter called it expensive.
pub open spec fn scoped_by(before: Session, after: Session, body: JsonView, effects: Seq<Effect>) -> bool {
    match before.phase {
        Phase::Paused(p) => {
            let items = list_items(field(body, "scopes"@));
            &&& same_flags(before, after)
            &&& (after.phase matches Phase::Paused(q) && same_but_tree(p, q)
                && crate::debug::members_view(q.scopes@) == items.map_values(|v: JsonView| member_of(v))
                && q.children@ == Map::<i64, Vec<crate::debug::Member>>::empty()
                && q.fetched@ == Map::<i64, usize>::empty()
                && q.open@ == cheap_refs(items))
            &&& asked_all(before, after, cheap_requests(items), effects)
        },
        _ => after == before && effects.len() == 0,
    }
}

fn fetch_args(reference: i64, indexed: usize) -> (j: Json)
    ensures
        j@ == fetch_arguments(reference, indexed),
{
    if indexed > PAGE {
        object3("variablesReference", Json::Int(reference), "start", Json::Int(0), "count", Json::Int(PAGE as i64))
    } else {
        object1("variablesReference", Json::Int(reference))
    }
}

fn scoped(session: &mut Session, body: &Json) -> (effects: Vec<Effect>)
    ensures
        scoped_by(*old(session), *final(session), body@, effects@),
{
    broadcast use vstd::std_specs::btree::group_btree_axioms;
    match session.phase {
        Phase::Paused(_) => {},
        _ => return Vec::new(),
    }
    let null = Json::Null;
    let listed = at(body, "scopes", &null);
    let ghost items = list_items(listed@);
    let mut scopes: Vec<crate::debug::Member> = Vec::new();
    let mut open: std::collections::BTreeSet<i64> = std::collections::BTreeSet::new();
    let mut cheap: Vec<(i64, usize)> = Vec::new();
    match listed {
        Json::List(values) => {
            assert(view_list(*listed) =~= Seq::new(values.len() as nat, |i: int| values@[i]@));
            let mut i: usize = 0;
            while i < values.len()
                invariant
                    i <= values.len(),
                    items == Seq::new(values.len() as nat, |i: int| values@[i]@),
                    crate::debug::members_view(scopes@) == items.take(i as int).map_values(|v: JsonView| member_of(v)),
                    open@ == cheap_refs(items.take(i as int)),
                    cheap@.map_values(|c: (i64, usize)| ("variables"@, fetch_arguments(c.0, c.1))) == cheap_requests(items.take(i as int)),
                decreases values.len() - i,
            {
                assert(items.take(i + 1).drop_last() =~= items.take(i as int));
                assert(items.take(i + 1).last() == values@[i as int]@);
                let m = member(&values[i]);
                let reference = m.reference;
                let indexed = m.indexed;
                let ghost mv = m@;
                let ghost before_scopes = crate::debug::members_view(scopes@);
                scopes.push(m);
                assert(crate::debug::members_view(scopes@) =~= before_scopes.push(mv));
                assert(items.take(i + 1).map_values(|v: JsonView| member_of(v)) =~= items.take(i as int).map_values(|v: JsonView| member_of(v)).push(member_of(values@[i as int]@)));
                let costly = match get(&values[i], "expensive") {
                    Some(Json::Bool(true)) => true,
                    _ => false,
                };
                if !costly {
                    open.insert(reference);
                    let ghost before_cheap = cheap@.map_values(|c: (i64, usize)| ("variables"@, fetch_arguments(c.0, c.1)));
                    cheap.push((reference, indexed));
                    assert(cheap@.map_values(|c: (i64, usize)| ("variables"@, fetch_arguments(c.0, c.1))) =~= before_cheap.push(("variables"@, fetch_arguments(reference, indexed))));
                }
                i = i + 1;
            }
            assert(items.take(values.len() as int) =~= items);
        },
        _ => {
            assert(items =~= Seq::<JsonView>::empty());
            assert(items.take(0) =~= items);
            assert(crate::debug::members_view(scopes@) =~= items.map_values(|v: JsonView| member_of(v)));
            assert(cheap@.map_values(|c: (i64, usize)| ("variables"@, fetch_arguments(c.0, c.1))) =~= cheap_requests(items));
        },
    }
    let ghost first = *old(session);
    match &mut session.phase {
        Phase::Paused(p) => {
            p.scopes = scopes;
            p.children.clear();
            p.fetched.clear();
            p.open = open;
        },
        _ => {},
    }
    let ghost mid = *session;
    let ghost wanted = cheap@.map_values(|c: (i64, usize)| ("variables"@, fetch_arguments(c.0, c.1)));
    let mut effects: Vec<Effect> = Vec::new();
    proof {
        lemma_asked_none(mid);
    }
    let mut k: usize = 0;
    while k < cheap.len()
        invariant
            k <= cheap.len(),
            wanted == cheap@.map_values(|c: (i64, usize)| ("variables"@, fetch_arguments(c.0, c.1))),
            same_flags(first, *session),
            session.phase == mid.phase,
            mid.seq == first.seq && mid.asked == first.asked,
            asked_all(mid, *session, wanted.take(k as int), effects@),
        decreases cheap.len() - k,
    {
        let arguments = fetch_args(cheap[k].0, cheap[k].1);
        let ghost a = arguments@;
        let ghost before_ask = *session;
        let e = ask(session, "variables", arguments);
        proof {
            lemma_asked_one_more(mid, before_ask, *session, wanted.take(k as int), effects@, "variables"@, a, e);
            assert(wanted.take(k as int).push(("variables"@, a)) =~= wanted.take(k + 1));
        }
        effects.push(e);
        k = k + 1;
    }
    assert(wanted.take(cheap.len() as int) =~= wanted);
    effects
}


/// The first member named `name`.
pub open spec fn member_named(ms: Seq<crate::debug::MemberView>, name: Seq<char>, from: int) -> Option<int>
    decreases ms.len() - from,
{
    if from < 0 || from >= ms.len() {
        None
    } else if ms[from].0 == name {
        Some(from)
    } else {
        member_named(ms, name, from + 1)
    }
}

/// Members with the first one named `name` holding `value` now.
pub open spec fn rewritten(ms: Seq<crate::debug::MemberView>, name: Seq<char>, value: Seq<char>) -> Seq<crate::debug::MemberView> {
    match member_named(ms, name, 0) {
        Some(k) => ms.update(k, (ms[k].0, value, ms[k].2, ms[k].3, ms[k].4)),
        None => ms,
    }
}

/// `setVariable` answered while paused: the adapter's new value replaces
/// the member's, the member named in the container the request named —
/// the scopes where no opened reference is that container.
pub open spec fn set_by(before: Session, after: Session, arguments: JsonView, body: JsonView) -> bool {
    match before.phase {
        Phase::Paused(p) => {
            let value = printable(text_or_empty(field(body, "value"@)));
            let reference = int_or_zero(field(arguments, "variablesReference"@)) as i64;
            let name = text_or_empty(field(arguments, "name"@));
            &&& only_the_pause(before, after)
            &&& after.phase matches Phase::Paused(q) && same_but_tree(p, q) && q.open == p.open && q.fetched == p.fetched
                && if p.children@.contains_key(reference) {
                q.scopes == p.scopes
                    && q.children@.dom() == p.children@.dom()
                    && (forall|r: i64| r != reference && p.children@.contains_key(r) ==> #[trigger] q.children@[r] == p.children@[r])
                    && crate::debug::members_view(q.children@[reference]@) == rewritten(crate::debug::members_view(p.children@[reference]@), name, value)
            } else {
                q.children == p.children
                    && crate::debug::members_view(q.scopes@) == rewritten(crate::debug::members_view(p.scopes@), name, value)
            }
        },
        _ => after == before,
    }
}

fn rewrite(ms: &mut Vec<crate::debug::Member>, name: &str, value: String)
    ensures
        crate::debug::members_view(final(ms)@) == rewritten(crate::debug::members_view(old(ms)@), name@, value@),
{
    let ghost view = crate::debug::members_view(ms@);
    let wanted = crate::text::chars_of(name);
    let mut i: usize = 0;
    while i < ms.len()
        invariant
            i <= ms.len(),
            wanted@ == name@,
            view == crate::debug::members_view(ms@),
            ms@ == old(ms)@,
            member_named(view, name@, 0) == member_named(view, name@, i as int),
        decreases ms.len() - i,
    {
        if crate::text::same_chars(&crate::text::chars_of(ms[i].name.as_str()), &wanted) {
            let mut m = ms.remove(i);
            m.value = value;
            ms.insert(i, m);
            assert(crate::debug::members_view(ms@) =~= rewritten(view, name@, value@));
            return;
        }
        i = i + 1;
    }
    assert(crate::debug::members_view(ms@) =~= rewritten(view, name@, value@));
}

fn set_value(session: &mut Session, arguments: &Json, body: &Json)
    ensures
        set_by(*old(session), *final(session), arguments@, body@),
{
    broadcast use vstd::std_specs::btree::group_btree_axioms;
    let value = printable_at(body, "value");
    let reference = int_or_zero_at(arguments, "variablesReference");
    let name: &str = match text_field(arguments, "name") {
        Some(n) => n,
        None => "",
    };
    proof {
        reveal_strlit("");
    }
    match &mut session.phase {
        Phase::Paused(p) => {
            if p.children.contains_key(&reference) {
                let ghost before = p.children@;
                let mut list = match p.children.remove(&reference) {
                    Some(l) => l,
                    None => Vec::new(),
                };
                assert(list == before[reference]);
                assert(name@ == text_or_empty(field(arguments@, "name"@)));
                rewrite(&mut list, name, value);
                let ghost lv = list;
                p.children.insert(reference, list);
                assert(p.children@ == before.remove(reference).insert(reference, lv));
                assert(p.children@.dom() =~= before.dom());
            } else {
                assert(name@ == text_or_empty(field(arguments@, "name"@)));
                rewrite(&mut p.scopes, name, value);
            }
        },
        _ => {},
    }
}

/// The first thread a `threads` answer names.
pub open spec fn first_thread(body: JsonView) -> Option<int> {
    let threads = list_items(field(body, "threads"@));
    if threads.len() > 0 { int_of(field(threads[0], "id"@)) } else { None }
}

/// `threads` answered for a pause asked before any thread was known: the
/// pause is asked of the first thread named; the wait is over either way.
pub open spec fn threads_by(before: Session, after: Session, body: JsonView, effects: Seq<Effect>) -> bool {
    if before.pausing {
        &&& kept(before, after) && after.phase == before.phase && !after.pausing
        &&& after.can_set == before.can_set && after.can_cancel == before.can_cancel && after.previous == before.previous
        &&& asked_all(before, after, match first_thread(body) {
            Some(t) => seq![("pause"@, JsonView::Object(seq![("threadId"@, JsonView::Int(t))]))],
            None => Seq::empty(),
        }, effects)
    } else {
        after == before && effects.len() == 0
    }
}

fn threads(session: &mut Session, body: &Json) -> (effects: Vec<Effect>)
    ensures
        threads_by(*old(session), *final(session), body@, effects@),
{
    if !session.pausing {
        return Vec::new();
    }
    session.pausing = false;
    let null = Json::Null;
    let listed = at(body, "threads", &null);
    let first: Option<i64> = match listed {
        Json::List(items) => {
            assert(view_list(*listed) =~= Seq::new(items.len() as nat, |i: int| items@[i]@));
            if items.len() > 0 {
                assert(list_items(listed@)[0] == items@[0]@);
                int_field(&items[0], "id")
            } else {
                None
            }
        },
        _ => None,
    };
    match first {
        Some(t) => one_ask(session, "pause", object1("threadId", Json::Int(t))),
        None => {
            let ghost s = *session;
            proof {
                lemma_asked_none(s);
            }
            Vec::new()
        },
    }
}

fn copy_entries(entries: &Vec<(String, Json)>) -> (out: Vec<(String, Json)>)
    ensures
        entries_view(out@) == entries_view(entries@),
{
    let mut out: Vec<(String, Json)> = Vec::new();
    let mut i: usize = 0;
    while i < entries.len()
        invariant
            i <= entries.len(),
            entries_view(out@) == entries_view(entries@).take(i as int),
        decreases entries.len() - i,
    {
        let ghost before = entries_view(out@);
        let c = copy_json(&entries[i].1);
        out.push((entries[i].0.clone(), c));
        assert(entries_view(out@) =~= before.push((entries@[i as int].0@, entries@[i as int].1@)));
        assert(entries_view(entries@).take(i + 1) =~= entries_view(entries@).take(i as int).push((entries@[i as int].0@, entries@[i as int].1@)));
        i = i + 1;
    }
    assert(entries_view(entries@).take(entries.len() as int) =~= entries_view(entries@));
    out
}

/// `initialize` answered: what the adapter can do is noted, and the launch
/// or attach the session was started with goes out.
pub open spec fn initialized_by(before: Session, after: Session, body: JsonView, effects: Seq<Effect>) -> bool {
    &&& kept(before, after)
    &&& after.pausing == before.pausing && after.previous == before.previous
    &&& after.can_set == (field(body, "supportsSetVariable"@) == JsonView::Bool(true))
    &&& after.can_cancel == (field(body, "supportsCancelRequest"@) == JsonView::Bool(true))
    &&& after.phase == Phase::Starting
    &&& asked_all(before, after, seq![(before.request@, JsonView::Object(entries_view(before.args@)))], effects)
}

fn is_true(j: &Json, key: &str) -> (r: bool)
    ensures
        r == (field(j@, key@) == JsonView::Bool(true)),
{
    match get(j, key) {
        Some(Json::Bool(b)) => *b,
        _ => false,
    }
}

fn initialized(session: &mut Session, body: &Json) -> (effects: Vec<Effect>)
    ensures
        initialized_by(*old(session), *final(session), body@, effects@),
{
    session.can_set = is_true(body, "supportsSetVariable");
    session.can_cancel = is_true(body, "supportsCancelRequest");
    session.phase = Phase::Starting;
    let request = session.request.clone();
    let entries = copy_entries(&session.args);
    let arguments = Json::Object(entries);
    assert(view_entries(arguments) =~= entries_view(session.args@));
    one_ask(session, request.as_str(), arguments)
}


/// The session with the request at `k` of its waiting ones taken off, its
/// answer having come.
#[verifier::opaque]
pub open spec fn unanswered(before: Session, mid: Session, k: int) -> bool {
    &&& same_but_talk(before, mid)
    &&& mid.seq == before.seq
    &&& asked_view(mid.asked@) == asked_view(before.asked@).remove(k)
}

/// What a response does, once its request is taken off the waiting ones:
/// by the command it answers, and whether the adapter says it succeeded.
pub open spec fn answer_arm(
    mid: Session,
    after: Session,
    command: Seq<char>,
    arguments: JsonView,
    seq: i64,
    response: JsonView,
    asking_before: Asking,
    asking_after: Asking,
    effects: Seq<Effect>,
    heard: Heard,
) -> bool {
    let body = field(response, "body"@);
    let untouched = asking_after == asking_before;
    if field(response, "success"@) != JsonView::Bool(true) {
        let why = adapter_error(response, command);
        if command == "initialize"@ || command == "launch"@ || command == "attach"@ {
            &&& after == mid && untouched && effects.len() == 2
            &&& effects[0] matches Effect::NotifyAbout { slug, about } && slug@ == "launch-failed"@ && about@ == printable(why)
            &&& effects[1] == Effect::StopDap
            &&& heard matches Heard::Ended { failed: Some(w) } && w@ == why
        } else if command == "disconnect"@ {
            after == mid && untouched && effects == seq![Effect::StopDap] && heard == (Heard::Ended { failed: None })
        } else if command == "threads"@ {
            &&& kept(mid, after) && after.phase == mid.phase && !after.pausing
            &&& after.can_set == mid.can_set && after.can_cancel == mid.can_cancel && after.previous == mid.previous
            &&& after.seq == mid.seq && after.asked == mid.asked
            &&& untouched && effects.len() == 0 && heard == Heard::Quiet
        } else if command == "evaluate"@ {
            after == mid && effects.len() == 0 && heard == Heard::Quiet
                && filed(asking_before, asking_after, arguments, seq, Err(why))
        } else if command == "setVariable"@ {
            after == mid && untouched && effects.len() == 0 && (heard matches Heard::SetFailed(w) && w@ == why)
        } else {
            after == mid && untouched && effects.len() == 0 && heard == Heard::Quiet
        }
    } else if command == "initialize"@ {
        initialized_by(mid, after, body, effects) && untouched && heard == Heard::Quiet
    } else if command == "stackTrace"@ {
        &&& framed_by(mid, after, body, asking_before.watches@, asking_after.watches@, effects)
        &&& asking_after.hovered == asking_before.hovered && asking_after.ran == asking_before.ran
        &&& heard == (if mid.phase is Paused { Heard::Framed } else { Heard::Quiet })
    } else if command == "variables"@ {
        variables_by(mid, after, arguments, body) && untouched && effects.len() == 0 && heard == Heard::Quiet
    } else if command == "scopes"@ {
        scoped_by(mid, after, body, effects) && untouched && heard == Heard::Quiet
    } else if command == "evaluate"@ {
        after == mid && effects.len() == 0 && heard == Heard::Quiet && filed(asking_before, asking_after, arguments, seq, Ok((
            printable(text_or_empty(field(body, "result"@))),
            int_or_zero(field(body, "variablesReference"@)) as i64,
            count_of(field(body, "indexedVariables"@)),
        )))
    } else if command == "setVariable"@ {
        set_by(mid, after, arguments, body) && untouched && effects.len() == 0 && heard == Heard::Quiet
    } else if command == "threads"@ {
        threads_by(mid, after, body, effects) && untouched && heard == Heard::Quiet
    } else if command == "disconnect"@ {
        after == mid && untouched && effects == seq![Effect::StopDap] && heard == (Heard::Ended { failed: None })
    } else {
        after == mid && untouched && effects.len() == 0 && heard == Heard::Quiet
    }
}

/// A response the adapter sent: filed under the request it answers by that
/// request's number, and ignored where nothing is waiting with it.
pub open spec fn answered_by(
    before: Session,
    after: Session,
    response: JsonView,
    asking_before: Asking,
    asking_after: Asking,
    effects: Seq<Effect>,
    heard: Heard,
) -> bool {
    match waiting_at(asked_view(before.asked@), int_or_zero(field(response, "request_seq"@)), 0) {
        None => after == before && asking_after == asking_before && effects.len() == 0 && heard == Heard::Quiet,
        Some(k) => answered_at(before, after, response, k, asking_before, asking_after, effects, heard),
    }
}

/// The response answering the request at `k` of the waiting ones.
pub open spec fn answered_at(
    before: Session,
    after: Session,
    response: JsonView,
    k: int,
    asking_before: Asking,
    asking_after: Asking,
    effects: Seq<Effect>,
    heard: Heard,
) -> bool {
    let asked = asked_view(before.asked@)[k];
    exists|mid: Session| #[trigger] unanswered(before, mid, k)
        && answer_arm(mid, after, asked.1, asked.2, asked.0, response, asking_before, asking_after, effects, heard)
}

fn stop_only() -> (effects: Vec<Effect>)
    ensures
        effects@ == seq![Effect::StopDap],
{
    let mut effects: Vec<Effect> = Vec::new();
    effects.push(Effect::StopDap);
    assert(effects@ =~= seq![Effect::StopDap]);
    effects
}

/// What a response does once its request is off the waiting ones.
fn answer(session: &mut Session, response: &Json, command: &str, arguments: &Json, seq: i64, asking: &mut Asking) -> (r: (Vec<Effect>, Heard))
    ensures
        answer_arm(*old(session), *final(session), command@, arguments@, seq, response@, *old(asking), *final(asking), r.0@, r.1),
{
    let null = Json::Null;
    let body = at(response, "body", &null);
    let succeeded = is_true(response, "success");
    let some = Some(command);
    if !succeeded {
        let why = refused_because(response, command);
        if named(some, "initialize") || named(some, "launch") || named(some, "attach") {
            let mut effects: Vec<Effect> = Vec::new();
            effects.push(Effect::notify_about("launch-failed", why.as_str()));
            effects.push(Effect::StopDap);
            return (effects, Heard::Ended { failed: Some(why) });
        }
        if named(some, "disconnect") {
            return (stop_only(), Heard::Ended { failed: None });
        }
        if named(some, "threads") {
            session.pausing = false;
            return (Vec::new(), Heard::Quiet);
        }
        if named(some, "evaluate") {
            file_answer(asking, arguments, seq, Err(why));
            return (Vec::new(), Heard::Quiet);
        }
        if named(some, "setVariable") {
            return (Vec::new(), Heard::SetFailed(why));
        }
        return (Vec::new(), Heard::Quiet);
    }
    if named(some, "initialize") {
        return (initialized(session, body), Heard::Quiet);
    }
    if named(some, "stackTrace") {
        let paused = match session.phase {
            Phase::Paused(_) => true,
            _ => false,
        };
        let effects = framed(session, body, &mut asking.watches);
        return (effects, if paused { Heard::Framed } else { Heard::Quiet });
    }
    if named(some, "variables") {
        variables(session, arguments, body);
        return (Vec::new(), Heard::Quiet);
    }
    if named(some, "scopes") {
        return (scoped(session, body), Heard::Quiet);
    }
    if named(some, "evaluate") {
        let value = printable_at(body, "result");
        let reference = int_or_zero_at(body, "variablesReference");
        let indexed = count_at(body, "indexedVariables");
        file_answer(asking, arguments, seq, Ok((value, reference, indexed)));
        return (Vec::new(), Heard::Quiet);
    }
    if named(some, "setVariable") {
        set_value(session, arguments, body);
        return (Vec::new(), Heard::Quiet);
    }
    if named(some, "threads") {
        return (threads(session, body), Heard::Quiet);
    }
    if named(some, "disconnect") {
        return (stop_only(), Heard::Ended { failed: None });
    }
    (Vec::new(), Heard::Quiet)
}

/// A response the adapter sent.
pub fn answered(session: &mut Session, response: &Json, asking: &mut Asking) -> (r: (Vec<Effect>, Heard))
    ensures
        answered_by(*old(session), *final(session), response@, *old(asking), *final(asking), r.0@, r.1),
{
    let answering = int_or_zero_at(response, "request_seq");
    let k = match waiting(&session.asked, answering) {
        Some(k) => k,
        None => return (Vec::new(), Heard::Quiet),
    };
    let ghost waiting_view = asked_view(session.asked@);
    let (seq, asked) = session.asked.remove(k);
    let ghost mid = *session;
    assert(asked_view(mid.asked@) =~= waiting_view.remove(k as int));
    assert(unanswered(*old(session), mid, k as int)) by {
        reveal(unanswered);
    }
    assert(waiting_view[k as int] == (seq, asked.command@, asked.arguments@));
    let r = answer(session, response, asked.command.as_str(), &asked.arguments, seq, asking);
    assert(answer_arm(mid, *session, waiting_view[k as int].1, waiting_view[k as int].2, waiting_view[k as int].0, response@, *old(asking), *asking, r.0@, r.1));
    assert(waiting_view == asked_view(old(session).asked@));
    assert(waiting_at(waiting_view, int_or_zero(field(response@, "request_seq"@)), 0) == Some(k as int));
    assert(exists|m: Session| #[trigger] unanswered(*old(session), m, k as int)
        && answer_arm(m, *session, waiting_view[k as int].1, waiting_view[k as int].2, waiting_view[k as int].0, response@, *old(asking), *asking, r.0@, r.1));
    assert(answered_at(*old(session), *session, response@, k as int, *old(asking), *asking, r.0@, r.1));
    r
}


/// A response, and the session after it: gone where the response ended it.
pub open spec fn responded(
    before: Session,
    after: Option<Session>,
    response: JsonView,
    asking_before: Asking,
    asking_after: Asking,
    effects: Seq<Effect>,
    heard: Heard,
) -> bool {
    match after {
        Some(t) => !(heard is Ended) && answered_by(before, t, response, asking_before, asking_after, effects, heard),
        None => heard is Ended && exists|t: Session| #[trigger] answered_by(before, t, response, asking_before, asking_after, effects, heard),
    }
}

/// One message the adapter sent, exactly as the edge read it: a response, an
/// event or a request of its own, read where there is a session to read it;
/// anything that is not JSON, or comes with no session, is dropped.
pub open spec fn received_by(
    before: Option<Session>,
    after: Option<Session>,
    message: Option<JsonView>,
    breakpoints: Seq<crate::debug::Breakpoint>,
    asking_before: Asking,
    asking_after: Asking,
    effects: Seq<Effect>,
    heard: Heard,
) -> bool {
    let ignored = after == before && asking_after == asking_before && effects.len() == 0 && heard == Heard::Quiet;
    match (message, before) {
        (Some(m), Some(s)) => {
            let kind = text_of(field(m, "type"@));
            if kind == Some("response"@) {
                responded(s, after, m, asking_before, asking_after, effects, heard)
            } else if kind == Some("event"@) {
                &&& after matches Some(t) && told_by(s, t, m, breakpoints, asking_before.ran, asking_after.ran, effects, heard)
                &&& asking_after.watches == asking_before.watches && asking_after.hovered == asking_before.hovered
            } else if kind == Some("request"@) {
                after matches Some(t) && reverse_by(s, t, m, effects) && asking_after == asking_before && heard == Heard::Quiet
            } else {
                ignored
            }
        },
        _ => ignored,
    }
}

/// One message the adapter sent, exactly as the edge read it.
pub fn received(
    session: &mut Option<Session>,
    json: &str,
    breakpoints: &[crate::debug::Breakpoint],
    asking: &mut Asking,
) -> (r: (Vec<Effect>, Heard))
    ensures
        received_by(*old(session), *final(session), parsed(json@), breakpoints@, *old(asking), *final(asking), r.0@, r.1),
{
    let message = match parse(json) {
        Some(m) => m,
        None => return (Vec::new(), Heard::Quiet),
    };
    let kind = text_field(&message, "type");
    let ended: bool;
    let r = match session {
        Some(s) => {
            if named(kind, "response") {
                let r = answered(s, &message, asking);
                ended = match r.1 {
                    Heard::Ended { .. } => true,
                    _ => false,
                };
                r
            } else if named(kind, "event") {
                ended = false;
                told(s, &message, breakpoints, asking)
            } else if named(kind, "request") {
                ended = false;
                (reverse(s, &message), Heard::Quiet)
            } else {
                ended = false;
                (Vec::new(), Heard::Quiet)
            }
        },
        None => return (Vec::new(), Heard::Quiet),
    };
    if ended {
        let ghost t = session.unwrap();
        assert(answered_by(old(session).unwrap(), t, message@, *old(asking), *asking, r.0@, r.1));
        *session = None;
    }
    r
}


/// `initialize`, as the editor introduces itself to the adapter.
pub open spec fn introduction(adapter: Seq<char>) -> JsonView {
    JsonView::Object(seq![
        ("clientID"@, JsonView::Text("varde"@)),
        ("clientName"@, JsonView::Text("Varde"@)),
        ("adapterID"@, JsonView::Text(adapter)),
        ("pathFormat"@, JsonView::Text("path"@)),
        ("linesStartAt1"@, JsonView::Bool(true)),
        ("columnsStartAt1"@, JsonView::Bool(true)),
    ])
}

/// The edge holds the adapter now, so the conversation begins: a session
/// still spawning asks `initialize`; any other is left as it is.
pub open spec fn started_by(before: Session, after: Session, effects: Seq<Effect>) -> bool {
    if before.phase is Spawning {
        &&& same_flags(before, after)
        &&& after.phase == Phase::Initializing
        &&& asked_all(before, after, seq![("initialize"@, introduction(before.adapter@))], effects)
    } else {
        after == before && effects.len() == 0
    }
}

/// The edge holds the adapter now: see [`started_by`].
pub fn started(session: &mut Session) -> (effects: Vec<Effect>)
    ensures
        started_by(*old(session), *final(session), effects@),
{
    match session.phase {
        Phase::Spawning => {},
        _ => return Vec::new(),
    }
    session.phase = Phase::Initializing;
    let mut e: Vec<(String, Json)> = Vec::new();
    e.push(entry("clientID", text("varde")));
    e.push(entry("clientName", text("Varde")));
    e.push(entry("adapterID", Json::Text(session.adapter.clone())));
    e.push(entry("pathFormat", text("path")));
    e.push(bool_entry("linesStartAt1", true));
    e.push(bool_entry("columnsStartAt1", true));
    let arguments = Json::Object(e);
    assert(view_entries(arguments) =~= seq![
        ("clientID"@, JsonView::Text("varde"@)),
        ("clientName"@, JsonView::Text("Varde"@)),
        ("adapterID"@, JsonView::Text(session.adapter@)),
        ("pathFormat"@, JsonView::Text("path"@)),
        ("linesStartAt1"@, JsonView::Bool(true)),
        ("columnsStartAt1"@, JsonView::Bool(true)),
    ]);
    one_ask(session, "initialize", arguments)
}

pub open spec fn thread_json(thread: i64) -> JsonView {
    JsonView::Object(seq![("threadId"@, JsonView::Int(thread as int))])
}

/// F9: a paused program continues, keeping what the pause showed; a running
/// one is paused, which needs a thread, so the adapter is first asked for
/// them, once. Nothing while the session is neither.
pub open spec fn resumed_by(before: Session, after: Session, effects: Seq<Effect>) -> bool {
    match before.phase {
        Phase::Paused(p) => {
            &&& same_flags(before, after)
            &&& after.phase == Phase::Running(Some(p))
            &&& asked_all(before, after, seq![("continue"@, thread_json(p.thread))], effects)
        },
        Phase::Running(_) => if !before.pausing {
            &&& kept(before, after) && after.phase == before.phase && after.pausing
            &&& after.can_set == before.can_set && after.can_cancel == before.can_cancel && after.previous == before.previous
            &&& asked_all(before, after, seq![("threads"@, JsonView::Object(Seq::empty()))], effects)
        } else {
            after == before && effects.len() == 0
        },
        _ => after == before && effects.len() == 0,
    }
}

/// F9: see [`resumed_by`].
pub fn resume(session: &mut Session) -> (effects: Vec<Effect>)
    ensures
        resumed_by(*old(session), *final(session), effects@),
{
    let paused = match session.phase {
        Phase::Paused(_) => true,
        _ => false,
    };
    if paused {
        let mut phase = Phase::Stopping;
        std::mem::swap(&mut phase, &mut session.phase);
        match phase {
            Phase::Paused(p) => {
                let thread = p.thread;
                session.phase = Phase::Running(Some(p));
                return one_ask(session, "continue", object1("threadId", Json::Int(thread)));
            },
            _ => {
                session.phase = phase;
                return Vec::new();
            },
        }
    }
    let running = match session.phase {
        Phase::Running(_) => true,
        _ => false,
    };
    if running && !session.pausing {
        session.pausing = true;
        return one_ask(session, "threads", empty_object());
    }
    Vec::new()
}

/// The protocol's name for a step.
pub open spec fn step_command(step: crate::debug::Step) -> Seq<char> {
    match step {
        crate::debug::Step::Over => "next"@,
        crate::debug::Step::Into => "stepIn"@,
        crate::debug::Step::Out => "stepOut"@,
    }
}

/// F8, F7 and Shift+F8: the inspected thread runs on by one step, only while
/// paused; the program runs until the `stopped` event says where it got to.
pub open spec fn stepped_by(before: Session, after: Session, step: crate::debug::Step, effects: Seq<Effect>) -> bool {
    match before.phase {
        Phase::Paused(p) => {
            &&& same_flags(before, after)
            &&& after.phase == Phase::Running(Some(p))
            &&& asked_all(before, after, seq![(step_command(step), thread_json(p.thread))], effects)
        },
        _ => after == before && effects.len() == 0,
    }
}

/// One step of the inspected thread: see [`stepped_by`].
pub fn step(session: &mut Session, how: crate::debug::Step) -> (effects: Vec<Effect>)
    ensures
        stepped_by(*old(session), *final(session), how, effects@),
{
    match session.phase {
        Phase::Paused(_) => {},
        _ => return Vec::new(),
    }
    let mut phase = Phase::Stopping;
    std::mem::swap(&mut phase, &mut session.phase);
    match phase {
        Phase::Paused(p) => {
            let thread = p.thread;
            session.phase = Phase::Running(Some(p));
            let command = match how {
                crate::debug::Step::Over => "next",
                crate::debug::Step::Into => "stepIn",
                crate::debug::Step::Out => "stepOut",
            };
            one_ask(session, command, object1("threadId", Json::Int(thread)))
        },
        _ => {
            session.phase = phase;
            Vec::new()
        },
    }
}

/// Ctrl+F2: a launched program is terminated and an attached one left
/// running, the adapter let go once it answers; a session still spawning, or
/// already stopping, is let go at once and ends.
pub open spec fn stopped_session(before: Option<Session>, after: Option<Session>, effects: Seq<Effect>, heard: Heard) -> bool {
    match before {
        None => after == before && effects.len() == 0 && heard == Heard::Quiet,
        Some(s) => if s.phase is Stopping || s.phase is Spawning {
            after is None && effects == seq![Effect::StopDap] && heard == (Heard::Ended { failed: None })
        } else {
            &&& after matches Some(t) && kept(s, t) && t.phase == Phase::Stopping
                && t.pausing == s.pausing && t.can_set == s.can_set && t.can_cancel == s.can_cancel && t.previous == s.previous
                && asked_all(s, t, seq![("disconnect"@, JsonView::Object(seq![("terminateDebuggee"@, JsonView::Bool(s.request@ == "launch"@))]))], effects)
            &&& heard == Heard::Quiet
        },
    }
}

/// Ctrl+F2: see [`stopped_session`].
pub fn stop(session: &mut Option<Session>) -> (r: (Vec<Effect>, Heard))
    ensures
        stopped_session(*old(session), *final(session), r.0@, r.1),
{
    let ends = match session {
        Some(s) => match s.phase {
            Phase::Stopping | Phase::Spawning => true,
            _ => false,
        },
        None => return (Vec::new(), Heard::Quiet),
    };
    if ends {
        *session = None;
        return (stop_only(), Heard::Ended { failed: None });
    }
    match session {
        Some(s) => {
            let launched = crate::text::same_chars(&crate::text::chars_of(s.request.as_str()), &crate::text::chars_of("launch"));
            s.phase = Phase::Stopping;
            let arguments = object1("terminateDebuggee", Json::Bool(launched));
            (one_ask(s, "disconnect", arguments), Heard::Quiet)
        },
        None => (Vec::new(), Heard::Quiet),
    }
}


/// Two pauses alike but for the Frame chosen.
pub open spec fn same_but_chosen(a: crate::debug::Pause, b: crate::debug::Pause) -> bool {
    &&& a.thread == b.thread && a.why == b.why && a.exception == b.exception && a.frames == b.frames
    &&& a.scopes == b.scopes && a.children == b.children && a.open == b.open && a.fetched == b.fetched
}

/// The Frame at `index` of the Frames becomes the inspected one: its scopes
/// and every Watch are asked of it, the Watches back to waiting. Nothing
/// unless paused with a Frame there.
pub open spec fn chosen_by(
    before: Session,
    after: Session,
    index: usize,
    watches_before: Seq<crate::debug::Watch>,
    watches_after: Seq<crate::debug::Watch>,
    effects: Seq<Effect>,
) -> bool {
    match before.phase {
        Phase::Paused(p) => if index < p.frames@.len() {
            let id = p.frames@[index as int].id;
            &&& same_flags(before, after)
            &&& (after.phase matches Phase::Paused(q) && same_but_chosen(p, q) && q.chosen == index)
            &&& all_waiting(watches_before, watches_after)
            &&& asked_all(before, after, seq![("scopes"@, JsonView::Object(seq![("frameId"@, JsonView::Int(id as int))]))]
                + watch_requests(watches_before, id), effects)
        } else {
            after == before && watches_after == watches_before && effects.len() == 0
        },
        _ => after == before && watches_after == watches_before && effects.len() == 0,
    }
}

/// The Frame at `index` inspected: see [`chosen_by`].
pub fn choose_frame(session: &mut Session, watches: &mut Vec<crate::debug::Watch>, index: usize) -> (r: (Vec<Effect>, Heard))
    ensures
        chosen_by(*old(session), *final(session), index, old(watches)@, final(watches)@, r.0@),
        r.1 == (if old(session).phase matches Phase::Paused(p) && index < p.frames@.len() { Heard::Framed } else { Heard::Quiet }),
{
    let id = match &mut session.phase {
        Phase::Paused(p) => {
            if index >= p.frames.len() {
                return (Vec::new(), Heard::Quiet);
            }
            p.chosen = index;
            p.frames[index].id
        },
        _ => return (Vec::new(), Heard::Quiet),
    };
    let ghost first = *old(session);
    let ghost mid = *session;
    let ghost old_watches = watches@;
    let arguments = object1("frameId", Json::Int(id));
    let ghost a = arguments@;
    let ghost base = seq![("scopes"@, a)];
    let mut effects = one_ask(session, "scopes", arguments);
    let mut k: usize = 0;
    while k < watches.len()
        invariant
            k <= watches.len(),
            watches@.len() == old_watches.len(),
            forall|j: int| 0 <= j < k ==> (#[trigger] watches@[j]).expression == old_watches[j].expression
                && watches@[j].answer == crate::debug::Answer::Waiting,
            forall|j: int| k <= j < watches@.len() ==> #[trigger] watches@[j] == old_watches[j],
        decreases watches.len() - k,
    {
        let mut w = watches.remove(k);
        w.answer = crate::debug::Answer::Waiting;
        watches.insert(k, w);
        k = k + 1;
    }
    let ghost mut sent = base;
    let mut k: usize = 0;
    while k < watches.len()
        invariant
            k <= watches.len(),
            all_waiting(old_watches, watches@),
            sent == base + watch_requests(old_watches, id).take(k as int),
            same_flags(first, *session),
            session.phase == mid.phase,
            asked_all(first, *session, sent, effects@),
        decreases watches.len() - k,
    {
        let arguments = watch_arguments(&watches[k].expression, id);
        let ghost w = arguments@;
        assert((("evaluate"@, w)) == watch_requests(old_watches, id)[k as int]);
        let ghost before_ask = *session;
        let e = ask(session, "evaluate", arguments);
        proof {
            lemma_asked_one_more(first, before_ask, *session, sent, effects@, "evaluate"@, w, e);
            assert(base + watch_requests(old_watches, id).take(k + 1) =~= sent.push(("evaluate"@, w)));
            sent = sent.push(("evaluate"@, w));
        }
        effects.push(e);
        k = k + 1;
    }
    assert(watch_requests(old_watches, id).take(watches.len() as int) =~= watch_requests(old_watches, id));
    (effects, Heard::Framed)
}


/// A Launch configuration: the adapter it runs under, `launch` or `attach`,
/// and what that request carries.
#[derive(Debug)]
pub struct Launch {
    pub adapter: String,
    pub request: String,
    pub args: Vec<(String, Json)>,
}

/// A configured Debug adapter: the command that runs it and its arguments.
#[derive(Debug, Clone)]
pub struct Adapter {
    pub command: String,
    pub args: Vec<String>,
}

/// Why the debugger would not do what it was asked, said in the footer.
#[derive(Debug, Clone, PartialEq, Eq)]
pub enum Refusal {
    /// A session is running already.
    SessionRunning,
    /// The adapter a configuration names is not configured, or its command
    /// is not installed.
    NoDebugAdapter(String),
    DebugAdapterFailed,
    DebugAdapterExited,
    /// Restart asked with no configuration ever started.
    NoLastSession,
}

/// The first entry named `name`.
pub open spec fn named_at<T>(entries: Seq<(String, T)>, name: Seq<char>, from: int) -> Option<int>
    decreases entries.len() - from,
{
    if from < 0 || from >= entries.len() {
        None
    } else if entries[from].0@ == name {
        Some(from)
    } else {
        named_at(entries, name, from + 1)
    }
}

fn lookup_named<T>(entries: &[(String, T)], name: &str) -> (k: Option<usize>)
    ensures
        match k {
            Some(i) => named_at(entries@, name@, 0) == Some(i as int) && i < entries@.len(),
            None => named_at(entries@, name@, 0) is None,
        },
{
    let wanted = crate::text::chars_of(name);
    let mut i: usize = 0;
    while i < entries.len()
        invariant
            i <= entries.len(),
            wanted@ == name@,
            named_at(entries@, name@, 0) == named_at(entries@, name@, i as int),
        decreases entries.len() - i,
    {
        if crate::text::same_chars(&crate::text::chars_of(entries[i].0.as_str()), &wanted) {
            return Some(i);
        }
        i = i + 1;
    }
    None
}

/// A session just asked of the edge for `launch` under `adapter`: nothing
/// said yet, nothing asked.
pub open spec fn fresh_session(s: Session, launch: Launch, adapter: Adapter) -> bool {
    &&& s.adapter == launch.adapter && s.command == adapter.command && s.request == launch.request
    &&& entries_view(s.args@) == entries_view(launch.args@)
    &&& s.phase == Phase::Spawning && s.seq == 0 && s.asked@.len() == 0
    &&& !s.pausing && !s.can_set && !s.can_cancel && s.previous is None
}

/// Starting the Launch configuration `name`: refused while a session runs
/// and, by name, where it names no configured adapter; nothing for a name
/// that is no configuration; otherwise a spawn asked of the edge, whose
/// answer is the session's first fact.
pub open spec fn started_session(
    before: Option<Session>,
    after: Option<Session>,
    launches: Seq<(String, Launch)>,
    adapters: Seq<(String, Adapter)>,
    name: Seq<char>,
    effects: Seq<Effect>,
    refusal: Option<Refusal>,
) -> bool {
    if before is Some {
        after == before && effects.len() == 0 && refusal == Some(Refusal::SessionRunning)
    } else {
        match named_at(launches, name, 0) {
            None => after == before && effects.len() == 0 && refusal is None,
            Some(l) => {
                let launch = launches[l].1;
                match named_at(adapters, launch.adapter@, 0) {
                    None => after == before && effects.len() == 0
                        && (refusal matches Some(Refusal::NoDebugAdapter(a)) && a@ == launch.adapter@),
                    Some(a) => {
                        let adapter = adapters[a].1;
                        &&& after matches Some(s) && fresh_session(s, launch, adapter)
                        &&& refusal is None && effects.len() == 1
                        &&& (effects[0] matches Effect::StartDap { command, args } && command@ == adapter.command@
                            && args@.map_values(|x: String| x@) == adapter.args@.map_values(|x: String| x@))
                    },
                }
            },
        }
    }
}

fn copy_strings(v: &Vec<String>) -> (out: Vec<String>)
    ensures
        out@.map_values(|x: String| x@) == v@.map_values(|x: String| x@),
{
    let mut out: Vec<String> = Vec::new();
    let mut i: usize = 0;
    while i < v.len()
        invariant
            i <= v.len(),
            out@.map_values(|x: String| x@) == v@.map_values(|x: String| x@).take(i as int),
        decreases v.len() - i,
    {
        let ghost before = out@.map_values(|x: String| x@);
        out.push(v[i].clone());
        assert(out@.map_values(|x: String| x@) =~= before.push(v@[i as int]@));
        assert(v@.map_values(|x: String| x@).take(i + 1) =~= v@.map_values(|x: String| x@).take(i as int).push(v@[i as int]@));
        i = i + 1;
    }
    assert(v@.map_values(|x: String| x@).take(v.len() as int) =~= v@.map_values(|x: String| x@));
    out
}

/// Starting a Launch configuration by name: see [`started_session`].
pub fn start(
    session: &mut Option<Session>,
    launches: &[(String, Launch)],
    adapters: &[(String, Adapter)],
    name: &str,
) -> (r: (Vec<Effect>, Option<Refusal>))
    ensures
        started_session(*old(session), *final(session), launches@, adapters@, name@, r.0@, r.1),
{
    if session.is_some() {
        return (Vec::new(), Some(Refusal::SessionRunning));
    }
    let l = match lookup_named(launches, name) {
        Some(l) => l,
        None => return (Vec::new(), None),
    };
    let launch = &launches[l].1;
    let a = match lookup_named(adapters, launch.adapter.as_str()) {
        Some(a) => a,
        None => return (Vec::new(), Some(Refusal::NoDebugAdapter(launch.adapter.clone()))),
    };
    let adapter = &adapters[a].1;
    *session = Some(Session {
        adapter: launch.adapter.clone(),
        command: adapter.command.clone(),
        phase: Phase::Spawning,
        request: launch.request.clone(),
        args: copy_entries(&launch.args),
        seq: 0,
        asked: Vec::new(),
        pausing: false,
        can_set: false,
        can_cancel: false,
        previous: None,
    });
    let mut effects: Vec<Effect> = Vec::new();
    effects.push(Effect::StartDap { command: adapter.command.clone(), args: copy_strings(&adapter.args) });
    (effects, None)
}

/// The edge stopped holding the adapter: the session ends, and unless it was
/// being stopped, why is said twice — as a refusal, and as a notice that
/// stays in the status line.
pub open spec fn gone_by(before: Option<Session>, after: Option<Session>, why: crate::debug::Gone, effects: Seq<Effect>, refusal: Option<Refusal>) -> bool {
    match before {
        None => after == before && effects.len() == 0 && refusal is None,
        Some(s) => after is None && (if s.phase is Stopping {
            effects.len() == 0 && refusal is None
        } else {
            match why {
                crate::debug::Gone::Missing => effects.len() == 1
                    && (effects[0] matches Effect::NotifyAbout { slug, about } && slug@ == "no-debug-adapter"@ && about@ == printable(s.command@))
                    && (refusal matches Some(Refusal::NoDebugAdapter(c)) && c@ == s.command@),
                crate::debug::Gone::FailedToStart => effects == seq![Effect::Notify("debug-adapter-failed")]
                    && refusal == Some(Refusal::DebugAdapterFailed),
                crate::debug::Gone::Exited => effects == seq![Effect::Notify("debug-adapter-exited")]
                    && refusal == Some(Refusal::DebugAdapterExited),
            }
        }),
    }
}

/// The edge let the adapter go: see [`gone_by`].
pub fn gone(session: &mut Option<Session>, why: crate::debug::Gone) -> (r: (Vec<Effect>, Option<Refusal>))
    ensures
        gone_by(*old(session), *final(session), why, r.0@, r.1),
{
    let (stopping, command) = match session {
        Some(s) => (match s.phase {
            Phase::Stopping => true,
            _ => false,
        }, s.command.clone()),
        None => return (Vec::new(), None),
    };
    *session = None;
    let mut effects: Vec<Effect> = Vec::new();
    if stopping {
        return (effects, None);
    }
    match why {
        crate::debug::Gone::Missing => {
            effects.push(Effect::notify_about("no-debug-adapter", command.as_str()));
            (effects, Some(Refusal::NoDebugAdapter(command)))
        },
        crate::debug::Gone::FailedToStart => {
            effects.push(Effect::Notify("debug-adapter-failed"));
            assert(effects@ =~= seq![Effect::Notify("debug-adapter-failed")]);
            (effects, Some(Refusal::DebugAdapterFailed))
        },
        crate::debug::Gone::Exited => {
            effects.push(Effect::Notify("debug-adapter-exited"));
            assert(effects@ =~= seq![Effect::Notify("debug-adapter-exited")]);
            (effects, Some(Refusal::DebugAdapterExited))
        },
    }
}


/// The names the launch list offers, in the order it draws them.
pub fn launches(configured: &[(String, Launch)]) -> (names: Vec<String>)
    ensures
        names@.map_values(|n: String| n@) == configured@.map_values(|c: (String, Launch)| c.0@),
{
    let mut names: Vec<String> = Vec::new();
    let mut i: usize = 0;
    while i < configured.len()
        invariant
            i <= configured.len(),
            names@.map_values(|n: String| n@) == configured@.map_values(|c: (String, Launch)| c.0@).take(i as int),
        decreases configured.len() - i,
    {
        let ghost before = names@.map_values(|n: String| n@);
        names.push(configured[i].0.clone());
        assert(names@.map_values(|n: String| n@) =~= before.push(configured@[i as int].0@));
        assert(configured@.map_values(|c: (String, Launch)| c.0@).take(i + 1)
            =~= configured@.map_values(|c: (String, Launch)| c.0@).take(i as int).push(configured@[i as int].0@));
        i = i + 1;
    }
    assert(configured@.map_values(|c: (String, Launch)| c.0@).take(configured.len() as int)
        =~= configured@.map_values(|c: (String, Launch)| c.0@));
    names
}


/// One `evaluate` of `expression` in `context`, asked of the Frame being
/// inspected; nothing while the program is not stopped in one, since an
/// adapter asked to evaluate in a running Frame answers with an error.
pub open spec fn evaluated_by(before: Session, after: Session, expression: Seq<char>, context: Seq<char>, effects: Seq<Effect>) -> bool {
    match before.phase {
        Phase::Paused(p) => if p.chosen < p.frames@.len() {
            &&& same_flags(before, after) && after.phase == before.phase
            &&& asked_all(before, after, seq![("evaluate"@, JsonView::Object(seq![
                ("expression"@, JsonView::Text(expression)),
                ("frameId"@, JsonView::Int(p.frames@[p.chosen as int].id as int)),
                ("context"@, JsonView::Text(context)),
            ]))], effects)
        } else {
            after == before && effects.len() == 0
        },
        _ => after == before && effects.len() == 0,
    }
}

/// An expression asked of the inspected Frame: see [`evaluated_by`].
pub fn evaluate(session: &mut Session, expression: &str, context: &str) -> (effects: Vec<Effect>)
    ensures
        evaluated_by(*old(session), *final(session), expression@, context@, effects@),
{
    let id = match &session.phase {
        Phase::Paused(p) => if p.chosen < p.frames.len() { p.frames[p.chosen].id } else { return Vec::new() },
        _ => return Vec::new(),
    };
    let arguments = object3("expression", text(expression), "frameId", Json::Int(id), "context", text(context));
    one_ask(session, "evaluate", arguments)
}

/// A Watch added, from `before` to `after`: it joins the Watches unless its
/// expression is empty or already one of them, and only the one just added
/// is asked of the Frame being inspected, where there is one.
pub open spec fn watched(
    session: Option<Session>,
    after: Option<Session>,
    watches: Seq<crate::debug::Watch>,
    now: Seq<crate::debug::Watch>,
    expression: Seq<char>,
    effects: Seq<Effect>,
) -> bool {
    if !(expression.len() == 0 || exists|i: int| 0 <= i < watches.len() && (#[trigger] watches[i]).expression@ == expression) {
        &&& now.len() == watches.len() + 1
        &&& now.take(watches.len() as int) == watches
        &&& now.last().expression@ == expression
        &&& now.last().answer == crate::debug::Answer::Waiting
        &&& match session {
            Some(s) => after matches Some(t) && evaluated_by(s, t, expression, "watch"@, effects),
            None => after is None && effects.len() == 0,
        }
    } else {
        after == session && effects.len() == 0 && now == watches
    }
}

/// A Watch added: see [`watched`].
pub fn watch(session: &mut Option<Session>, watches: &mut Vec<crate::debug::Watch>, expression: String) -> (effects: Vec<Effect>)
    ensures
        watched(*old(session), *final(session), old(watches)@, final(watches)@, expression@, effects@),
{
    let asked = expression.clone();
    let joined = crate::debug::add_watch(watches, expression);
    if !joined {
        return Vec::new();
    }
    match session {
        Some(s) => evaluate(s, asked.as_str(), "watch"),
        None => Vec::new(),
    }
}

/// The Watch Chip on the Hover: the expression the box describes joins the
/// Watches, so a value worth a second look outlives the pointer that found
/// it; nothing without a Hover value.
pub fn watch_hovered(
    session: &mut Option<Session>,
    watches: &mut Vec<crate::debug::Watch>,
    hovered: Option<&crate::debug::Hovered>,
) -> (effects: Vec<Effect>)
    ensures
        match hovered {
            Some(h) => watched(*old(session), *final(session), old(watches)@, final(watches)@, h.expression@, effects@),
            None => *final(session) == *old(session) && final(watches)@ == old(watches)@ && effects@.len() == 0,
        },
{
    match hovered {
        Some(h) => watch(session, watches, h.expression.clone()),
        None => Vec::new(),
    }
}

/// The Hover's value section while Paused, and the `evaluate` that asks for
/// it, over the line under the pointer (`line`, none past the text) in the
/// file named `named`: the name the place stands in, unless it calls
/// something, which is never run unasked. Nothing outside a pause, nor off a
/// name.
pub fn hovered(session: &mut Option<Session>, line: Option<&str>, at: Place, named: &str) -> (r: (
    Option<crate::debug::Hovered>,
    Vec<Effect>,
))
    ensures
        ({
            let paused = *old(session) matches Some(s) && s.phase is Paused;
            let found = match line {
                Some(text) => crate::debug::expression_at_spec(text@, at.column as int),
                None => None,
            };
            if !paused || found is None {
                r.0 is None && r.1@.len() == 0 && *final(session) == *old(session)
            } else {
                let (expression, column) = found->0;
                &&& r.0 matches Some(h) && h.expression@ == expression && h.at == (Place { line: at.line, column: column as usize })
                &&& if crate::debug::has_call(crate::highlight::highlight_spec(named@, expression)) {
                    &&& r.0->0.held == crate::debug::Held::NeedsEvaluate
                    &&& r.1@.len() == 0 && *final(session) == *old(session)
                } else {
                    &&& r.0->0.held == crate::debug::Held::Waiting
                    &&& *final(session) matches Some(t) && evaluated_by(old(session)->0, t, expression, "hover"@, r.1@)
                }
            }
        }),
{
    let paused = match session {
        Some(s) => match &s.phase {
            Phase::Paused(_) => true,
            _ => false,
        },
        None => false,
    };
    if !paused {
        return (None, Vec::new());
    }
    let text = match line {
        Some(text) => text,
        None => return (None, Vec::new()),
    };
    let (expression, column) = match crate::debug::expression_at(text, at.column) {
        Some(found) => found,
        None => return (None, Vec::new()),
    };
    let place = Place { line: at.line, column };
    if crate::debug::calls(named, expression.as_str()) {
        return (Some(crate::debug::Hovered { expression, at: place, held: crate::debug::Held::NeedsEvaluate }), Vec::new());
    }
    let effects = match session {
        Some(s) => evaluate(s, expression.as_str(), "hover"),
        None => Vec::new(),
    };
    (Some(crate::debug::Hovered { expression, at: place, held: crate::debug::Held::Waiting }), effects)
}

/// Ctrl+F5 and the restart Chip: the last Launch configuration started
/// again, and refused by name where none has been.
pub fn restart(
    session: &mut Option<Session>,
    last_launch: Option<&str>,
    launches: &[(String, Launch)],
    adapters: &[(String, Adapter)],
) -> (r: (Vec<Effect>, Option<Refusal>))
    ensures
        match last_launch {
            Some(name) => started_session(*old(session), *final(session), launches@, adapters@, name@, r.0@, r.1),
            None => *final(session) == *old(session) && r.0@.len() == 0 && r.1 == Some(Refusal::NoLastSession),
        },
{
    match last_launch {
        Some(name) => start(session, launches, adapters, name),
        None => (Vec::new(), Some(Refusal::NoLastSession)),
    }
}

} // verus!
