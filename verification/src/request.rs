//! Chat completion requests and the canonical prompt they stand for.

use vstd::prelude::*;

verus! {

/// One chat message in the OpenAI request format.
#[derive(Debug, PartialEq, Eq)]
pub struct ChatMessage {
    /// `system`, `user`, or `assistant`.
    pub role: String,
    /// Message text.
    pub content: String,
}

/// What routing reads of an OpenAI-compatible chat completion request. Sampling
/// parameters and fields the router does not know travel beside it, untouched.
#[derive(Debug, PartialEq, Eq)]
pub struct ChatCompletionRequest {
    /// Model name, forwarded verbatim to the worker.
    pub model: String,
    /// Conversation so far; feeds the canonical prompt.
    pub messages: Vec<ChatMessage>,
    /// Generation budget, if the client set one.
    pub max_tokens: Option<u32>,
    /// Whether the client wants an SSE stream.
    pub stream: bool,
}

impl Clone for ChatMessage {
    fn clone(&self) -> (r: ChatMessage)
        ensures
            r == *self,
    {
        ChatMessage { role: self.role.clone(), content: self.content.clone() }
    }
}

impl Clone for ChatCompletionRequest {
    fn clone(&self) -> (r: ChatCompletionRequest)
        ensures
            r.model == self.model,
            r.messages@ == self.messages@,
            r.max_tokens == self.max_tokens,
            r.stream == self.stream,
    {
        let mut messages: Vec<ChatMessage> = Vec::new();
        while messages.len() < self.messages.len()
            invariant
                messages@.len() <= self.messages@.len(),
                messages@ == self.messages@.take(messages@.len() as int),
            decreases self.messages@.len() - messages@.len(),
        {
            messages.push(self.messages[messages.len()].clone());
            assert(messages@ =~= self.messages@.take(messages@.len() as int));
        }
        assert(messages@ =~= self.messages@);
        ChatCompletionRequest {
            model: self.model.clone(),
            messages,
            max_tokens: self.max_tokens,
            stream: self.stream,
        }
    }
}

/// The line a message contributes to the canonical prompt.
pub open spec fn prompt_line(message: ChatMessage) -> Seq<char> {
    message.role@ + ": "@ + message.content@
}

/// The canonical prompt of a conversation: its lines, joined by newlines.
pub open spec fn prompt_of(messages: Seq<ChatMessage>) -> Seq<char>
    decreases messages.len(),
{
    if messages.len() == 0 {
        seq![]
    } else if messages.len() == 1 {
        prompt_line(messages[0])
    } else {
        prompt_of(messages.drop_last()) + "\n"@ + prompt_line(messages.last())
    }
}

/// The same roles and contents, message by message.
pub open spec fn same_conversation(a: Seq<ChatMessage>, b: Seq<ChatMessage>) -> bool {
    &&& a.len() == b.len()
    &&& forall|i: int|
        0 <= i < a.len() ==> (#[trigger] a[i]).role@ == b[i].role@ && a[i].content@ == b[i].content@
}

impl ChatCompletionRequest {
    /// Canonical prompt serialization.
    ///
    /// Requests with the same messages give the same string, character for
    /// character, so their prefix-hash chains agree. The format is one
    /// `"role: content"` line per message, joined by newlines.
    pub fn canonical_prompt(&self) -> (prompt: String)
        ensures
            prompt@ == prompt_of(self.messages@),
    {
        let mut prompt = String::new();
        let mut index: usize = 0;
        while index < self.messages.len()
            invariant
                index <= self.messages@.len(),
                prompt@ == prompt_of(self.messages@.take(index as int)),
            decreases self.messages@.len() - index,
        {
            if index > 0 {
                prompt.append("\n");
            }
            prompt.append(self.messages[index].role.as_str());
            prompt.append(": ");
            prompt.append(self.messages[index].content.as_str());
            index += 1;
            proof {
                let done = self.messages@.take(index as int);
                assert(done.drop_last() =~= self.messages@.take(index - 1));
                assert(done.last() == self.messages@[index - 1]);
                assert(prompt@ =~= prompt_of(done));
            }
        }
        assert(self.messages@.take(index as int) =~= self.messages@);
        prompt
    }
}

/// Requests with the same messages have the same canonical prompt, whatever
/// else they carry.
pub proof fn law_same_messages_same_prompt(a: Seq<ChatMessage>, b: Seq<ChatMessage>)
    requires
        same_conversation(a, b),
    ensures
        prompt_of(a) == prompt_of(b),
    decreases a.len(),
{
    if a.len() == 1 {
        assert(a[0].role@ == b[0].role@);
    } else if a.len() > 1 {
        assert(a[a.len() - 1].role@ == b[b.len() - 1].role@);
        assert forall|i: int| 0 <= i < a.drop_last().len() implies (#[trigger]
        a.drop_last()[i]).role@ == b.drop_last()[i].role@ && a.drop_last()[i].content@
            == b.drop_last()[i].content@ by {
            assert(a[i].role@ == b[i].role@);
        }
        law_same_messages_same_prompt(a.drop_last(), b.drop_last());
    }
}

/// Appending messages to a conversation extends its canonical prompt: the
/// prompt of an earlier turn is a prefix of the prompt of every later one.
pub proof fn law_later_turns_extend_the_prompt(
    earlier: Seq<ChatMessage>,
    appended: Seq<ChatMessage>,
)
    ensures
        prompt_of(earlier).is_prefix_of(prompt_of(earlier + appended)),
    decreases appended.len(),
{
    if appended.len() == 0 {
        assert(earlier + appended =~= earlier);
    } else {
        let all = earlier + appended;
        law_later_turns_extend_the_prompt(earlier, appended.drop_last());
        assert(all.drop_last() =~= earlier + appended.drop_last());
        if earlier.len() > 0 {
            let head = prompt_of(all.drop_last());
            assert(prompt_of(all) == head + "\n"@ + prompt_line(all.last()));
            assert(head.is_prefix_of(prompt_of(all)));
        }
    }
}

/// One message is the line `role: content`, and an empty conversation is the
/// empty prompt.
pub proof fn law_one_message_is_one_line(message: ChatMessage)
    ensures
        prompt_of(seq![message]) == message.role@ + ": "@ + message.content@,
        prompt_of(seq![]) == Seq::<char>::empty(),
{
    assert(seq![message][0] == message);
}

/// Each further message adds a newline and its own line `role: content` to the
/// prompt of the conversation before it, however long that is.
pub proof fn law_each_message_adds_its_line(
    conversation: Seq<ChatMessage>,
    message: ChatMessage,
)
    requires
        conversation.len() > 0,
    ensures
        prompt_of(conversation.push(message)) == prompt_of(conversation) + "\n"@ + message.role@
            + ": "@ + message.content@,
{
    let all = conversation.push(message);
    assert(all.drop_last() =~= conversation);
    assert(all.last() == message);
    assert(prompt_of(all) =~= prompt_of(conversation) + "\n"@ + message.role@ + ": "@
        + message.content@);
}

/// Every message stands in the prompt as its line `role: content`: after the
/// prompt of the messages before it and before a newline or the end.
pub proof fn law_every_message_is_in_the_prompt(messages: Seq<ChatMessage>, i: int)
    requires
        0 <= i < messages.len(),
    ensures
        ({
            let line = messages[i].role@ + ": "@ + messages[i].content@;
            let start: int = if i == 0 {
                0
            } else {
                prompt_of(messages.take(i)).len() as int + 1
            };
            let prompt = prompt_of(messages);
            &&& start + line.len() <= prompt.len()
            &&& prompt.subrange(start, start + line.len()) == line
            &&& i > 0 ==> prompt[start - 1] == '\n'
            &&& if i + 1 < messages.len() {
                prompt[start + line.len()] == '\n'
            } else {
                prompt.len() == start + line.len()
            }
        }),
{
    reveal_strlit("\n");
    let upto = messages.take(i + 1);
    let line = messages[i].role@ + ": "@ + messages[i].content@;
    let head = prompt_of(messages.take(i));
    assert(upto =~= messages.take(i).push(messages[i]));
    if i == 0 {
        assert(messages.take(0) =~= seq![]);
        assert(upto =~= seq![messages[i]]);
        law_one_message_is_one_line(messages[i]);
    } else {
        law_each_message_adds_its_line(messages.take(i), messages[i]);
        assert(prompt_of(upto) =~= head + "\n"@ + line);
    }
    law_later_turns_extend_the_prompt(upto, messages.skip(i + 1));
    assert(upto + messages.skip(i + 1) =~= messages);
    let prompt = prompt_of(messages);
    let start: int = if i == 0 {
        0
    } else {
        head.len() as int + 1
    };
    assert(prompt_of(upto).subrange(start, start + line.len()) =~= line);
    assert(prompt.take(prompt_of(upto).len() as int) =~= prompt_of(upto));
    assert(prompt.subrange(start, start + line.len()) =~= prompt_of(upto).subrange(
        start,
        start + line.len(),
    ));
    if i > 0 {
        assert(prompt[start - 1] == prompt_of(upto)[start - 1]);
    }
    if i + 1 < messages.len() {
        let more = messages.take(i + 2);
        assert(more =~= upto.push(messages[i + 1]));
        law_each_message_adds_its_line(upto, messages[i + 1]);
        law_later_turns_extend_the_prompt(more, messages.skip(i + 2));
        assert(more + messages.skip(i + 2) =~= messages);
        assert(prompt[start + line.len()] == prompt_of(more)[start + line.len()]);
    } else {
        assert(upto =~= messages);
    }
}

/// The same words under another role are another prompt.
pub proof fn law_role_is_visible(a: ChatMessage, b: ChatMessage)
    requires
        a.content@ == b.content@,
        a.role@ != b.role@,
    ensures
        prompt_of(seq![a]) != prompt_of(seq![b]),
{
    if prompt_of(seq![a]) == prompt_of(seq![b]) {
        let tail = ": "@ + a.content@;
        assert(prompt_line(a) =~= a.role@ + tail);
        assert(prompt_line(b) =~= b.role@ + tail);
        assert(prompt_line(a).len() == prompt_line(b).len());
        assert(a.role@ =~= prompt_line(a).take(a.role@.len() as int));
        assert(b.role@ =~= prompt_line(b).take(b.role@.len() as int));
    }
}

} // verus!
