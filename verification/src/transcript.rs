//! Conversation transcripts attached to AI checkpoints.

use vstd::prelude::*;

verus! {

/// What a message says, as plain values.
pub enum MessageView {
    User { text: Seq<char>, timestamp: Option<Seq<char>> },
    Assistant { text: Seq<char>, timestamp: Option<Seq<char>> },
}

/// The view of an optional string.
pub open spec fn opt_view(s: Option<String>) -> Option<Seq<char>> {
    match s {
        Some(t) => Some(t@),
        None => None,
    }
}

/// One message of a conversation with an AI agent.
#[derive(Clone, Debug, PartialEq, Eq)]
pub enum Message {
    User { text: String, timestamp: Option<String> },
    Assistant { text: String, timestamp: Option<String> },
}

impl View for Message {
    type V = MessageView;

    open spec fn view(&self) -> MessageView {
        match self {
            Message::User { text, timestamp } => MessageView::User { text: text@, timestamp: opt_view(*timestamp) },
            Message::Assistant { text, timestamp } => MessageView::Assistant {
                text: text@,
                timestamp: opt_view(*timestamp),
            },
        }
    }
}

/// The views of a list of messages.
pub open spec fn messages_view(ms: Seq<Message>) -> Seq<MessageView> {
    ms.map_values(|m: Message| m@)
}

impl Message {
    /// A message written by the user.
    pub fn user(text: String) -> (m: Message)
        ensures
            m@ == (MessageView::User { text: text@, timestamp: None }),
    {
        Message::User { text, timestamp: None }
    }

    /// A message written by the assistant.
    pub fn assistant(text: String) -> (m: Message)
        ensures
            m@ == (MessageView::Assistant { text: text@, timestamp: None }),
    {
        Message::Assistant { text, timestamp: None }
    }

    /// A copy of the message.
    pub fn duplicate(&self) -> (m: Message)
        ensures
            m@ == self@,
    {
        match self {
            Message::User { text, timestamp } => Message::User {
                text: text.clone(),
                timestamp: copy_opt_string(timestamp),
            },
            Message::Assistant { text, timestamp } => Message::Assistant {
                text: text.clone(),
                timestamp: copy_opt_string(timestamp),
            },
        }
    }
}

/// A copy of an optional string.
pub fn copy_opt_string(s: &Option<String>) -> (r: Option<String>)
    ensures
        opt_view(r) == opt_view(*s),
{
    match s {
        Some(t) => Some(t.clone()),
        None => None,
    }
}

/// A copy of a list of messages.
pub fn copy_messages(ms: &[Message]) -> (r: Vec<Message>)
    ensures
        messages_view(r@) == messages_view(ms@),
{
    let mut r: Vec<Message> = Vec::new();
    let mut i: usize = 0;
    while i < ms.len()
        invariant
            i <= ms.len(),
            r@.len() == i,
            forall|k: int| 0 <= k < i ==> (#[trigger] r@[k])@ == ms@[k]@,
        decreases ms.len() - i,
    {
        let m = ms[i].duplicate();
        r.push(m);
        i = i + 1;
    }
    assert(messages_view(r@) =~= messages_view(ms@));
    r
}

/// The messages exchanged in one AI session.
#[derive(Clone, Debug, PartialEq, Eq)]
pub struct AiTranscript {
    pub messages: Vec<Message>,
}

impl View for AiTranscript {
    type V = Seq<MessageView>;

    open spec fn view(&self) -> Seq<MessageView> {
        messages_view(self.messages@)
    }
}

impl AiTranscript {
    /// An empty transcript.
    pub fn new() -> (t: AiTranscript)
        ensures
            t@.len() == 0,
    {
        AiTranscript { messages: Vec::new() }
    }

    /// Appends a message.
    pub fn add_message(&mut self, message: Message)
        ensures
            final(self)@ == old(self)@.push(message@),
    {
        self.messages.push(message);
        proof {
            assert(self@ =~= old(self)@.push(message@));
        }
    }

    /// The messages, in order.
    pub fn messages(&self) -> (r: &[Message])
        ensures
            messages_view(r@) == self@,
    {
        self.messages.as_slice()
    }

    /// A copy of the transcript.
    pub fn duplicate(&self) -> (t: AiTranscript)
        ensures
            t@ == self@,
    {
        let messages = copy_messages(self.messages.as_slice());
        AiTranscript { messages }
    }
}

} // verus!
