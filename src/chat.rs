//! Chat-transcript detection and parsing (iOS and Android exports), and the
//! embedding inputs built from the parsed messages.
use vstd::prelude::*;
use crate::text::{
    blank, chars_of, is_blank, lemma_filter_empty, lemma_filter_push, lines_of, split_lines, string_of,
    views,
};

verus! {

/// An iOS time stamp, anywhere: `[DD/MM/YY, HH:MM:SS]`.
pub const IOS_STAMP: &'static str = "\\[\\d{1,2}/\\d{1,2}/\\d{2,4}, \\d{1,2}:\\d{2}:\\d{2}\\]";

/// An Android time stamp, anywhere: `DD/MM/YY, HH:MM -`.
pub const ANDROID_STAMP: &'static str = "\\d{1,2}/\\d{1,2}/\\d{2,4}, \\d{1,2}:\\d{2} -";

/// An iOS message header: date, sender and the start of the body.
pub const IOS_HEADER: &'static str = "^\\[(\\d{1,2}/\\d{1,2}/\\d{2,4}, \\d{1,2}:\\d{2}:\\d{2})\\] (.*?): (.*)";

/// An Android message header: date, sender and the start of the body.
pub const ANDROID_HEADER: &'static str = "^(\\d{1,2}/\\d{1,2}/\\d{2,4}, \\d{1,2}:\\d{2}) - (.*?): (.*)";

/// A line that starts like a date.
pub const DATE_PREFIX: &'static str = "^\\[?\\d{1,2}/\\d{1,2}/\\d{2,4}";

/// Number of leading characters looked at to recognise a chat export.
pub const DETECTION_WINDOW: usize = 500;

/// The first match of `pattern` in `hay`, as the `regex` crate finds it: the
/// text of each capture group in order (group 0 is the whole match, `None`
/// for a group that took no part); `None` when the pattern does not compile
/// or does not match.
pub uninterp spec fn regex_captures(pattern: Seq<char>, hay: Seq<char>) -> Option<
    Seq<Option<Seq<char>>>,
>;

pub open spec fn group_view(g: Option<String>) -> Option<Seq<char>> {
    match g {
        Some(s) => Some(s@),
        None => None,
    }
}

pub open spec fn captures_view(r: Option<Vec<Option<String>>>) -> Option<Seq<Option<Seq<char>>>> {
    match r {
        Some(v) => Some(v@.map_values(|g: Option<String>| group_view(g))),
        None => None,
    }
}

/// Relies on `regex::Regex::new` (compiling `pattern`) and
/// `regex::Regex::captures` (its first match in `hay`, with the text of each
/// group).
#[verifier::external_body]
fn captures(pattern: &str, hay: &str) -> (r: Option<Vec<Option<String>>>)
    ensures
        captures_view(r) == regex_captures(pattern@, hay@),
{
    let re = regex::Regex::new(pattern).ok()?;
    let caps = re.captures(hay)?;
    Some(caps.iter().map(|m| m.map(|m| m.as_str().to_string())).collect())
}

pub open spec fn found(pattern: Seq<char>, hay: Seq<char>) -> bool {
    regex_captures(pattern, hay) is Some
}

/// A chat export: at least 500 characters, and a time stamp of either
/// format within the first 500.
pub open spec fn is_chat_export(text: Seq<char>) -> bool {
    let preview = text.take(DETECTION_WINDOW as int);
    text.len() >= DETECTION_WINDOW && (found(IOS_STAMP@, preview) || found(
        ANDROID_STAMP@,
        preview,
    ))
}

/// A message as (date, sender, content).
pub type MessageSpec = (Seq<char>, Seq<char>, Seq<char>);

/// Groups 1 to 3 of a match, when they all took part.
pub open spec fn header_groups(c: Option<Seq<Option<Seq<char>>>>) -> Option<MessageSpec> {
    match c {
        Some(g) => if g.len() >= 4 && g[1] is Some && g[2] is Some && g[3] is Some {
            Some((g[1]->0, g[2]->0, g[3]->0))
        } else {
            None
        },
        None => None,
    }
}

/// The header of a line, iOS tried first.
pub open spec fn line_header(line: Seq<char>) -> Option<MessageSpec> {
    match header_groups(regex_captures(IOS_HEADER@, line)) {
        Some(h) => Some(h),
        None => header_groups(regex_captures(ANDROID_HEADER@, line)),
    }
}

/// One line of the fold: a header closes the open message and opens a new
/// one; a date-like line without a header is dropped; any other line
/// continues the open message.
pub open spec fn parse_step(
    st: (Seq<MessageSpec>, Option<MessageSpec>),
    line: Seq<char>,
) -> (Seq<MessageSpec>, Option<MessageSpec>) {
    match line_header(line) {
        Some(h) => (
            match st.1 {
                Some(m) => st.0.push(m),
                None => st.0,
            },
            Some(h),
        ),
        None => if found(DATE_PREFIX@, line) {
            st
        } else {
            match st.1 {
                Some(m) => (st.0, Some((m.0, m.1, m.2 + seq!['\n'] + line))),
                None => st,
            }
        },
    }
}

pub open spec fn parse_state(lines: Seq<Seq<char>>) -> (Seq<MessageSpec>, Option<MessageSpec>)
    decreases lines.len(),
{
    if lines.len() == 0 {
        (Seq::empty(), None)
    } else {
        parse_step(parse_state(lines.drop_last()), lines.last())
    }
}

pub open spec fn flush(st: (Seq<MessageSpec>, Option<MessageSpec>)) -> Seq<MessageSpec> {
    match st.1 {
        Some(m) => st.0.push(m),
        None => st.0,
    }
}

/// The messages of a chat export, in order.
pub open spec fn chat_messages(text: Seq<char>) -> Seq<MessageSpec> {
    flush(parse_state(lines_of(text)))
}

/// One chat message.
pub struct ChatMessage {
    pub date: String,
    pub sender: String,
    pub content: String,
}

impl ChatMessage {
    pub open spec fn view(&self) -> MessageSpec {
        (self.date@, self.sender@, self.content@)
    }
}

pub open spec fn message_views(v: Seq<ChatMessage>) -> Seq<MessageSpec> {
    v.map_values(|m: ChatMessage| m.view())
}

/// The first `n` characters of `cs`, as a string.
fn prefix_string(cs: &Vec<char>, n: usize) -> (r: String)
    requires
        n <= cs.len(),
    ensures
        r@ == cs@.take(n as int),
{
    let mut p: Vec<char> = Vec::new();
    let mut i: usize = 0;
    while i < n
        invariant
            i <= n <= cs.len(),
            p@ == cs@.take(i as int),
        decreases n - i,
    {
        p.push(cs[i]);
        assert(cs@.take(i + 1) =~= cs@.take(i as int).push(cs@[i as int]));
        i = i + 1;
    }
    string_of(p.as_slice())
}

/// Whether `text` looks like a chat export.
pub fn is_whatsapp_export(text: &str) -> (r: bool)
    ensures
        r == is_chat_export(text@),
{
    let cs = chars_of(text);
    if cs.len() < DETECTION_WINDOW {
        return false;
    }
    let preview = prefix_string(&cs, DETECTION_WINDOW);
    captures(IOS_STAMP, preview.as_str()).is_some() || captures(
        ANDROID_STAMP,
        preview.as_str(),
    ).is_some()
}

/// The header of `line`, if it has one (see `line_header`).
fn parse_header(line: &str) -> (r: Option<ChatMessage>)
    ensures
        match r {
            Some(m) => line_header(line@) == Some(m.view()),
            None => line_header(line@) is None,
        },
{
    let ios = captures(IOS_HEADER, line);
    if let Some(m) = header_of(ios) {
        return Some(m);
    }
    let android = captures(ANDROID_HEADER, line);
    header_of(android)
}

fn header_of(c: Option<Vec<Option<String>>>) -> (r: Option<ChatMessage>)
    ensures
        match r {
            Some(m) => header_groups(captures_view(c)) == Some(m.view()),
            None => header_groups(captures_view(c)) is None,
        },
{
    match c {
        Some(g) => {
            if g.len() >= 4 {
                match (&g[1], &g[2], &g[3]) {
                    (Some(d), Some(s), Some(b)) => {
                        assert(group_view(g@[1]) == Some(d@));
                        assert(group_view(g@[2]) == Some(s@));
                        assert(group_view(g@[3]) == Some(b@));
                        Some(ChatMessage { date: d.clone(), sender: s.clone(), content: b.clone() })
                    },
                    _ => {
                        assert(group_view(g@[1]) is None || group_view(g@[2]) is None
                            || group_view(g@[3]) is None);
                        None
                    },
                }
            } else {
                None
            }
        },
        None => None,
    }
}

/// The messages of a chat export: each header line opens a message, plain
/// lines continue it, date-like lines without a header are dropped.
pub fn parse_whatsapp(text: &str) -> (r: Vec<ChatMessage>)
    ensures
        message_views(r@) == chat_messages(text@),
{
    let lines = split_lines(text);
    let mut done: Vec<ChatMessage> = Vec::new();
    let mut current: Option<ChatMessage> = None;
    let mut i: usize = 0;
    while i < lines.len()
        invariant
            i <= lines.len(),
            views(lines@) == lines_of(text@),
            parse_state(views(lines@).take(i as int)) == (
                message_views(done@),
                match current {
                    Some(m) => Some(m.view()),
                    None => None::<MessageSpec>,
                },
            ),
        decreases lines.len() - i,
    {
        let ghost prev = views(lines@).take(i as int);
        assert(views(lines@).take(i + 1).drop_last() =~= prev);
        let line = &lines[i];
        let ghost old_done = done@;
        match parse_header(line.as_str()) {
            Some(h) => {
                match current {
                    Some(m) => {
                        done.push(m);
                        assert(message_views(done@) =~= message_views(old_done).push(m.view()));
                    },
                    None => {},
                }
                current = Some(h);
            },
            None => {
                if captures(DATE_PREFIX, line.as_str()).is_none() {
                    match current {
                        Some(m) => {
                            let ghost before = m.view();
                            let mut m = m;
                            proof {
                                reveal_strlit("\n");
                            }
                            m.content.append("\n");
                            m.content.append(line.as_str());
                            assert(m.content@ =~= before.2 + seq!['\n'] + line@);
                            current = Some(m);
                        },
                        None => {},
                    }
                }
            },
        }
        i = i + 1;
    }
    assert(views(lines@).take(lines.len() as int) =~= views(lines@));
    match current {
        Some(m) => {
            let ghost old_done = done@;
            done.push(m);
            assert(message_views(done@) =~= message_views(old_done).push(m.view()));
        },
        None => {},
    }
    done
}

pub open spec fn has_text(m: MessageSpec) -> bool {
    !is_blank(m.2)
}

/// The messages that are kept for indexing: those whose content is not
/// empty after trimming.
pub open spec fn valid_messages(text: Seq<char>) -> Seq<MessageSpec> {
    chat_messages(text).filter(|m: MessageSpec| has_text(m))
}

pub open spec fn space() -> Seq<char> {
    seq![' ']
}

/// The text embedded for message `i` of `cs`: the previous message before
/// it and the second-to-last message of the document after it, when those
/// exist.
pub open spec fn context_text(cs: Seq<Seq<char>>, i: int) -> Seq<char> {
    let n = cs.len();
    if i > 0 && i < n - 1 {
        cs[i - 1] + space() + cs[i] + space() + cs[n - 2]
    } else if i > 0 {
        cs[i - 1] + space() + cs[i]
    } else if i < n - 1 {
        cs[i] + space() + cs[n - 2]
    } else {
        cs[i]
    }
}

pub open spec fn contents(ms: Seq<MessageSpec>) -> Seq<Seq<char>> {
    ms.map_values(|m: MessageSpec| m.2)
}

/// A message ready to be embedded: the message, and the text to embed for it.
pub struct PlannedChunk {
    pub message: ChatMessage,
    pub embed_text: String,
}

pub open spec fn planned_messages(v: Seq<PlannedChunk>) -> Seq<MessageSpec> {
    v.map_values(|p: PlannedChunk| p.message.view())
}

/// Why a document cannot be indexed.
#[derive(Debug, PartialEq, Eq, Structural)]
pub enum DocumentError {
    /// The document is not recognised as a chat export.
    NotChatExport,
}

impl ChatMessage {
    pub fn copy(&self) -> (r: ChatMessage)
        ensures
            r.view() == self.view(),
    {
        ChatMessage {
            date: self.date.clone(),
            sender: self.sender.clone(),
            content: self.content.clone(),
        }
    }
}

/// The messages of `text` whose content is not blank.
pub fn non_blank_messages(text: &str) -> (r: Vec<ChatMessage>)
    ensures
        message_views(r@) == valid_messages(text@),
{
    let all = parse_whatsapp(text);
    let ghost whole = message_views(all@);
    let mut r: Vec<ChatMessage> = Vec::new();
    let mut k: usize = 0;
    proof {
        lemma_filter_empty(whole.take(0), |m: MessageSpec| has_text(m));
        assert(message_views(r@) =~= whole.take(0));
    }
    while k < all.len()
        invariant
            k <= all.len(),
            whole == message_views(all@),
            message_views(r@) == whole.take(k as int).filter(|m: MessageSpec| has_text(m)),
        decreases all.len() - k,
    {
        proof {
            assert(whole.take(k + 1) =~= whole.take(k as int).push(all@[k as int].view()));
            lemma_filter_push(whole.take(k as int), all@[k as int].view(), |m: MessageSpec| has_text(m));
        }
        let ghost old_r = r@;
        if !blank(all[k].content.as_str()) {
            let m = all[k].copy();
            r.push(m);
            assert(message_views(r@) =~= message_views(old_r).push(m.view()));
        }
        k = k + 1;
    }
    assert(whole.take(all.len() as int) =~= whole);
    r
}

/// `a`, a space, then `b`.
fn join_space(a: &String, b: &String) -> (r: String)
    ensures
        r@ == a@ + space() + b@,
{
    let mut t = a.clone();
    proof {
        reveal_strlit(" ");
    }
    t.append(" ");
    t.append(b.as_str());
    assert(t@ =~= a@ + space() + b@);
    t
}

/// The chunks to index for a document: its non-blank chat messages, each
/// with the context-augmented text to embed; an error when the document is
/// not a chat export.
pub fn plan_document(content: &str) -> (r: Result<Vec<PlannedChunk>, DocumentError>)
    ensures
        r is Err <==> !is_chat_export(content@),
        r is Ok ==> planned_messages(r->Ok_0@) == valid_messages(content@),
        r is Ok ==> forall|i: int|
            0 <= i < r->Ok_0@.len() ==> #[trigger] r->Ok_0@[i].embed_text@ == context_text(
                contents(valid_messages(content@)),
                i,
            ),
{
    if !is_whatsapp_export(content) {
        return Err(DocumentError::NotChatExport);
    }
    let valid = non_blank_messages(content);
    let ghost cs = contents(message_views(valid@));
    let n = valid.len();
    let mut out: Vec<PlannedChunk> = Vec::new();
    let mut i: usize = 0;
    while i < n
        invariant
            i <= n == valid.len(),
            cs == contents(message_views(valid@)),
            out.len() == i,
            forall|j: int| 0 <= j < i ==> (#[trigger] out@[j]).message.view() == valid@[j].view(),
            forall|j: int| 0 <= j < i ==> (#[trigger] out@[j]).embed_text@ == context_text(cs, j),
        decreases n - i,
    {
        let cur = &valid[i].content;
        assert(cs[i as int] == cur@);
        let embed_text = if i > 0 && i < n - 1 {
            let left = join_space(&valid[i - 1].content, cur);
            join_space(&left, &valid[n - 2].content)
        } else if i > 0 {
            join_space(&valid[i - 1].content, cur)
        } else if i < n - 1 {
            join_space(cur, &valid[n - 2].content)
        } else {
            cur.clone()
        };
        out.push(PlannedChunk { message: valid[i].copy(), embed_text });
        i = i + 1;
    }
    assert(planned_messages(out@) =~= message_views(valid@));
    Ok(out)
}

} // verus!
