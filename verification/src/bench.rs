//! Bodies of the ingest benchmark: batches of made-up log lines, one JSON document per line.

use rand::rngs::StdRng;
use rand::Rng;
use vstd::prelude::*;
use vstd::utf8::*;

use crate::text::decimal_string;
#[allow(unused_imports)]
use crate::text;

verus! {

/// The random number generator `rand::rngs::StdRng`.
#[verifier::external_type_specification]
#[verifier::external_body]
pub struct ExStdRng(StdRng);

/// `rand::Rng::gen_range` on a half-open range of `i32`: a number of the range. Which one it is,
/// and what becomes of the generator, is left to chance. It panics on an empty range.
#[verifier::external_body]
fn draw_i32(rng: &mut StdRng, low: i32, high: i32) -> (drawn: i32)
    requires
        low < high,
    ensures
        low <= drawn < high,
{
    rng.gen_range(low..high)
}

/// `rand::Rng::gen_range` on a half-open range of `u8`: a number of the range. Which one it is,
/// and what becomes of the generator, is left to chance. It panics on an empty range.
#[verifier::external_body]
fn draw_u8(rng: &mut StdRng, low: u8, high: u8) -> (drawn: u8)
    requires
        low < high,
    ensures
        low <= drawn < high,
{
    rng.gen_range(low..high)
}

/// `rand::Rng::gen_range` on a half-open range of `usize`: a number of the range. Which one it
/// is, and what becomes of the generator, is left to chance. It panics on an empty range.
#[verifier::external_body]
fn draw_usize(rng: &mut StdRng, low: usize, high: usize) -> (drawn: usize)
    requires
        low < high,
    ensures
        low <= drawn < high,
{
    rng.gen_range(low..high)
}

/// `String::push`: the text with the character behind it.
pub assume_specification[ std::string::String::push ](s: &mut std::string::String, c: char)
    ensures
        final(s)@ == old(s)@.push(c),
;

/// The level of a log line.
pub open spec fn level(choice: int) -> Seq<char> {
    if choice == 0 {
        "INFO"@
    } else if choice == 1 {
        "WARN"@
    } else if choice == 2 {
        "ERROR"@
    } else {
        "DEBUG"@
    }
}

/// The service that writes a log line.
pub open spec fn service(choice: int) -> Seq<char> {
    if choice == 0 {
        "api"@
    } else if choice == 1 {
        "auth"@
    } else if choice == 2 {
        "billing"@
    } else if choice == 3 {
        "search"@
    } else {
        "ingest"@
    }
}

/// What is made up about a log line.
pub struct LogLine {
    /// The text of the message.
    pub msg: String,
    /// Which of the four levels.
    pub level: usize,
    /// Which of the five services.
    pub service: usize,
    pub latency_ms: i32,
}

/// Whether a character occurs in messages: a letter from `a` to `z`, or a space.
pub open spec fn is_message_char(c: char) -> bool {
    ('a' <= c <= 'z') || c == ' '
}

/// Whether a log line is one of those that are made up.
pub open spec fn plausible(line: LogLine) -> bool {
    &&& 60 <= line.msg@.len() < 160
    &&& forall|i: int| 0 <= i < line.msg@.len() ==> is_message_char(#[trigger] line.msg@[i])
    &&& line.level < 4
    &&& line.service < 5
    &&& 1 <= line.latency_ms < 5000
}

/// A log line as a JSON document, with the newline that ends it.
pub open spec fn document(now_millis: u64, seq: nat, line: LogLine) -> Seq<char> {
    "{\"ts\": "@ + text::decimal(now_millis as nat) + ", \"seq\": "@ + text::decimal(seq)
        + ", \"level\": \""@ + level(line.level as int) + "\", \"service\": \""@ + service(
        line.service as int,
    ) + "\", \"msg\": \""@ + line.msg@ + "\", \"latency_ms\": "@ + text::decimal(
        line.latency_ms as nat,
    ) + "}\n"@
}

/// The documents of the first `n` lines, numbered from `base_seq` on, one behind the other.
pub open spec fn body(now_millis: u64, base_seq: u64, lines: Seq<LogLine>, n: nat) -> Seq<u8>
    decreases n,
{
    if n == 0 {
        seq![]
    } else {
        body(now_millis, base_seq, lines, (n - 1) as nat) + encode_utf8(
            document(now_millis, (base_seq + n - 1) as nat, lines[n - 1]),
        )
    }
}

/// The character that a draw among 27 stands for.
pub fn message_char(drawn: u8) -> (c: char)
    requires
        drawn < 27,
    ensures
        c == if drawn == 26 {
            ' '
        } else {
            ('a' as u8 + drawn) as char
        },
        is_message_char(c),
        drawn < 26 ==> c as int == 'a' as int + drawn,
        drawn == 26 ==> c == ' ',
{
    if drawn == 26 {
        ' '
    } else {
        (97u8 + drawn) as char
    }
}

fn level_name(choice: usize) -> (name: &'static str)
    requires
        choice < 4,
    ensures
        name@ == level(choice as int),
{
    if choice == 0 {
        "INFO"
    } else if choice == 1 {
        "WARN"
    } else if choice == 2 {
        "ERROR"
    } else {
        "DEBUG"
    }
}

fn service_name(choice: usize) -> (name: &'static str)
    requires
        choice < 5,
    ensures
        name@ == service(choice as int),
{
    if choice == 0 {
        "api"
    } else if choice == 1 {
        "auth"
    } else if choice == 2 {
        "billing"
    } else if choice == 3 {
        "search"
    } else {
        "ingest"
    }
}

/// Writes a log line as a JSON document.
pub fn write_document(now_millis: u64, seq: u64, line: &LogLine) -> (text: String)
    requires
        plausible(*line),
    ensures
        text@ == document(now_millis, seq as nat, *line),
{
    let mut text = "{\"ts\": ".to_owned();
    text.append(decimal_string(now_millis).as_str());
    text.append(", \"seq\": ");
    text.append(decimal_string(seq).as_str());
    text.append(", \"level\": \"");
    text.append(level_name(line.level));
    text.append("\", \"service\": \"");
    text.append(service_name(line.service));
    text.append("\", \"msg\": \"");
    text.append(line.msg.as_str());
    text.append("\", \"latency_ms\": ");
    text.append(decimal_string(line.latency_ms as u64).as_str());
    text.append("}\n");
    text
}

/// Makes up a log line.
pub fn draw_line(rng: &mut StdRng) -> (line: LogLine)
    ensures
        plausible(line),
{
    let msg_len: i32 = draw_i32(rng, 60, 160);
    let mut msg = String::new();
    let mut i: i32 = 0;
    while i < msg_len
        invariant
            0 <= i <= msg_len,
            msg@.len() == i,
            forall|j: int| 0 <= j < i ==> is_message_char(#[trigger] msg@[j]),
        decreases msg_len - i,
    {
        msg.push(message_char(draw_u8(rng, 0, 27)));
        i = i + 1;
    }
    let level: usize = draw_usize(rng, 0, 4);
    let service: usize = draw_usize(rng, 0, 5);
    let latency_ms: i32 = draw_i32(rng, 1, 5000);
    LogLine { msg, level, service, latency_ms }
}

/// The bytes of a batch of log lines.
pub fn write_body(now_millis: u64, base_seq: u64, lines: &Vec<LogLine>) -> (bytes: Vec<u8>)
    requires
        base_seq + lines@.len() <= u64::MAX,
        forall|i: int| 0 <= i < lines@.len() ==> plausible(#[trigger] lines@[i]),
    ensures
        bytes@ == body(now_millis, base_seq, lines@, lines@.len()),
{
    let mut bytes: Vec<u8> = Vec::new();
    for i in 0..lines.len()
        invariant
            bytes@ == body(now_millis, base_seq, lines@, i as nat),
            base_seq + lines@.len() <= u64::MAX,
            forall|i: int| 0 <= i < lines@.len() ==> plausible(#[trigger] lines@[i]),
    {
        let document = write_document(now_millis, base_seq + i as u64, &lines[i]);
        bytes.extend_from_slice(document.as_str().as_bytes());
    }
    bytes
}

/// A batch of made-up log lines, numbered from `base_seq` on.
pub fn make_body(rng: &mut StdRng, now_millis: u64, batch_docs: usize, base_seq: u64) -> (bytes: Vec<
    u8,
>)
    requires
        base_seq + batch_docs <= u64::MAX,
    ensures
        exists|lines: Seq<LogLine>|
            #![trigger body(now_millis, base_seq, lines, lines.len())]
            {
                &&& lines.len() == batch_docs
                &&& forall|i: int| 0 <= i < lines.len() ==> plausible(#[trigger] lines[i])
                &&& bytes@ == body(now_millis, base_seq, lines, lines.len())
            },
{
    let mut lines: Vec<LogLine> = Vec::new();
    for i in 0..batch_docs
        invariant
            lines@.len() == i,
            forall|j: int| 0 <= j < lines@.len() ==> plausible(#[trigger] lines@[j]),
    {
        lines.push(draw_line(rng));
    }
    write_body(now_millis, base_seq, &lines)
}

/// The levels and the services that lines are made up with differ from each other.
pub proof fn choices_have_names_of_their_own(i: int, j: int)
    requires
        0 <= i < j,
    ensures
        j < 4 ==> level(i) != level(j),
        j < 5 ==> service(i) != service(j),
{
    reveal_strlit("INFO");
    reveal_strlit("WARN");
    reveal_strlit("ERROR");
    reveal_strlit("DEBUG");
    reveal_strlit("api");
    reveal_strlit("auth");
    reveal_strlit("billing");
    reveal_strlit("search");
    reveal_strlit("ingest");
    assert("INFO"@[0] != "WARN"@[0]);
    assert("INFO"@.len() != "ERROR"@.len());
    assert("WARN"@.len() != "ERROR"@.len());
    assert("WARN"@.len() != "DEBUG"@.len());
    assert("ERROR"@[0] != "DEBUG"@[0]);
    assert("INFO"@.len() != "DEBUG"@.len());
    assert("search"@[0] != "ingest"@[0]);
    assert("api"@.len() != "auth"@.len());
    assert("billing"@.len() == 7);
    assert("api"@.len() == 3);
    assert("auth"@.len() == 4);
    assert("search"@.len() == 6 && "ingest"@.len() == 6);
}

/// A body is one document for each line, in order, and their sequence numbers go up one by one from the
/// first. Each document stands on a line of its own.
pub proof fn bodies_number_their_documents(
    now_millis: u64,
    base_seq: u64,
    lines: Seq<LogLine>,
    n: nat,
)
    requires
        n < lines.len(),
    ensures
        body(now_millis, base_seq, lines, 0).len() == 0,
        body(now_millis, base_seq, lines, n + 1) == body(now_millis, base_seq, lines, n)
            + encode_utf8(document(now_millis, (base_seq + n) as nat, lines[n as int])),
        document(now_millis, (base_seq + n) as nat, lines[n as int])[0] == '{',
        document(now_millis, (base_seq + n) as nat, lines[n as int]).last() == '\n',
{
    reveal_strlit("{\"ts\": ");
    reveal_strlit("}\n");
    let text = document(now_millis, (base_seq + n) as nat, lines[n as int]);
    assert("{\"ts\": "@[0] == '{');
    assert("}\n"@[1] == '\n');
    assert("}\n"@.len() == 2);
    assert(text.last() == "}\n"@[1]);
}

/// A plausible line has a message of sixty characters or more, all of them lower-case letters or blanks,
/// and a latency between a millisecond and five seconds.
pub proof fn plausible_lines_look_like_logs(line: LogLine, i: int)
    requires
        plausible(line),
    ensures
        60 <= line.msg@.len() < 160,
        0 <= i < line.msg@.len() ==> line.msg@[i] == ' ' || ('a' as int <= line.msg@[i] as int
            <= 'z' as int),
        1 <= line.latency_ms < 5000,
        line.level < 4,
        line.service < 5,
{
}

} // verus!
