//! Reading `llama-server`'s streamed chat completion: server-sent-event
//! lines, and the tool calls that arrive in fragments.

use vstd::prelude::*;
use crate::chat::{ToolCallChunk, ToolCallFunction};
use crate::json::JsonValue;
use crate::text::{
    chars_of, push_str, starts_with, string_of_range, trim, trim_bounds, trim_str,
};

verus! {

// ---------------------------------------------------------------------------
// Server-sent-event lines
// ---------------------------------------------------------------------------
/// `s` holds no line break.
pub open spec fn no_newline(s: Seq<char>) -> bool {
    forall|k: int| 0 <= k < s.len() ==> #[trigger] s[k] != '\n'
}

/// The lines `ls`, each followed by a line break.
pub open spec fn join_lines(ls: Seq<Seq<char>>) -> Seq<char>
    decreases ls.len(),
{
    if ls.len() == 0 {
        Seq::empty()
    } else {
        join_lines(ls.drop_last()) + ls.last() + seq!['\n']
    }
}

/// The views of a list of strings.
pub open spec fn views(ls: Seq<String>) -> Seq<Seq<char>> {
    Seq::new(ls.len(), |k: int| ls[k]@)
}

/// Text received from the stream that has not yet formed a complete line.
pub struct SseLineBuffer {
    pending: Vec<char>,
}

impl SseLineBuffer {
    /// The incomplete line held.
    pub closed spec fn pending(&self) -> Seq<char> {
        self.pending@
    }

    /// The incomplete line holds no line break.
    pub closed spec fn wf(&self) -> bool {
        no_newline(self.pending@)
    }

    /// An empty buffer.
    pub fn new() -> (b: SseLineBuffer)
        ensures
            b.wf(),
            b.pending() == Seq::<char>::empty(),
    {
        SseLineBuffer { pending: Vec::new() }
    }

    /// Adds received text and returns the lines it completes, without their
    /// line breaks; what follows the last line break stays buffered.
    pub fn push_text(&mut self, text: &str) -> (lines: Vec<String>)
        requires
            old(self).wf(),
        ensures
            final(self).wf(),
            join_lines(views(lines@)) + final(self).pending() == old(self).pending() + text@,
            forall|k: int| 0 <= k < lines@.len() ==> no_newline(#[trigger] lines@[k]@),
    {
        let ghost all = self.pending@ + text@;
        let tv = chars_of(text);
        let mut buf: Vec<char> = Vec::new();
        std::mem::swap(&mut buf, &mut self.pending);
        let ghost old_pending = buf@;
        let mut k: usize = 0;
        while k < tv.len()
            invariant
                k <= tv.len(),
                tv@ == text@,
                buf@ == old_pending + tv@.take(k as int),
            decreases tv.len() - k,
        {
            buf.push(tv[k]);
            assert(tv@.take(k + 1) == tv@.take(k as int).push(tv@[k as int]));
            k += 1;
        }
        assert(tv@.take(tv@.len() as int) =~= tv@);
        assert(buf@ == all);

        let mut lines: Vec<String> = Vec::new();
        let mut start: usize = 0;
        let mut i: usize = 0;
        while i < buf.len()
            invariant
                buf@ == all,
                start <= i <= buf.len(),
                join_lines(views(lines@)) == all.take(start as int),
                no_newline(all.subrange(start as int, i as int)),
                forall|q: int| 0 <= q < lines@.len() ==> no_newline(#[trigger] lines@[q]@),
            decreases buf.len() - i,
        {
            if buf[i] == '\n' {
                let line = string_of_range(&buf, start, i);
                let ghost before = lines@;
                lines.push(line);
                proof {
                    assert(views(lines@).drop_last() =~= views(before));
                    assert(views(lines@).last() == line@);
                    assert(all.take(i + 1) =~= all.take(start as int) + all.subrange(
                        start as int,
                        i as int,
                    ) + seq!['\n']);
                }
                start = i + 1;
                assert(all.subrange(start as int, start as int) =~= Seq::<char>::empty());
            } else {
                assert(all.subrange(start as int, i + 1) =~= all.subrange(start as int, i as int).push(buf@[i as int]));
            }
            i += 1;
        }
        let mut rest: Vec<char> = Vec::new();
        let mut j = start;
        while j < buf.len()
            invariant
                buf@ == all,
                start <= j <= buf.len(),
                rest@ == all.subrange(start as int, j as int),
            decreases buf.len() - j,
        {
            rest.push(buf[j]);
            assert(all.subrange(start as int, j + 1) =~= all.subrange(start as int, j as int).push(buf@[j as int]));
            j += 1;
        }
        self.pending = rest;
        assert(all =~= all.take(start as int) + all.subrange(start as int, all.len() as int));
        lines
    }
}

/// Every line of `ls` is free of line breaks.
pub open spec fn all_single_lines(ls: Seq<Seq<char>>) -> bool {
    forall|k: int| 0 <= k < ls.len() ==> no_newline(#[trigger] ls[k])
}

/// A joined text that ends in a line break followed by `p`.
proof fn lemma_newline_before_tail(x: Seq<char>, p: Seq<char>)
    ensures
        (x + seq!['\n'] + p)[x.len() as int] == '\n',
        (x + seq!['\n'] + p).len() == x.len() + 1 + p.len(),
{
}

/// Text splits into complete lines and an unfinished rest in one way only.
pub proof fn lemma_line_split_unique(l1: Seq<Seq<char>>, p1: Seq<char>, l2: Seq<Seq<char>>, p2: Seq<char>)
    requires
        all_single_lines(l1),
        all_single_lines(l2),
        no_newline(p1),
        no_newline(p2),
        join_lines(l1) + p1 == join_lines(l2) + p2,
    ensures
        l1 == l2,
        p1 == p2,
    decreases l1.len() + l2.len(),
{
    let s = join_lines(l1) + p1;
    if l1.len() == 0 && l2.len() == 0 {
        assert(p1 =~= s);
        assert(p2 =~= s);
    } else if l1.len() == 0 {
        let x2 = join_lines(l2.drop_last()) + l2.last();
        lemma_newline_before_tail(x2, p2);
        assert(s =~= x2 + seq!['\n'] + p2);
        assert(s =~= p1);
        assert(p1[x2.len() as int] == '\n');
    } else if l2.len() == 0 {
        let x1 = join_lines(l1.drop_last()) + l1.last();
        lemma_newline_before_tail(x1, p1);
        assert(s =~= x1 + seq!['\n'] + p1);
        assert(s =~= p2);
        assert(p2[x1.len() as int] == '\n');
    } else {
        let x1 = join_lines(l1.drop_last()) + l1.last();
        let x2 = join_lines(l2.drop_last()) + l2.last();
        lemma_newline_before_tail(x1, p1);
        lemma_newline_before_tail(x2, p2);
        assert(s =~= x1 + seq!['\n'] + p1);
        assert(s =~= x2 + seq!['\n'] + p2);
        if p1.len() < p2.len() {
            let i = x1.len() as int;
            assert(s[i] == '\n');
            assert(s[i] == p2[i - x2.len() - 1]);
            assert(false);
        } else if p2.len() < p1.len() {
            let i = x2.len() as int;
            assert(s[i] == '\n');
            assert(s[i] == p1[i - x1.len() - 1]);
            assert(false);
        }
        assert(x1.len() == x2.len());
        assert(p1 =~= s.skip(x1.len() as int + 1));
        assert(p2 =~= s.skip(x2.len() as int + 1));
        assert(x1 =~= s.take(x1.len() as int));
        assert(x2 =~= s.take(x2.len() as int));
        assert(all_single_lines(l1.drop_last()));
        assert(all_single_lines(l2.drop_last()));
        assert(no_newline(l1.last()) && no_newline(l2.last())) by {
            assert(l1.last() == l1[l1.len() - 1]);
            assert(l2.last() == l2[l2.len() - 1]);
        }
        lemma_line_split_unique(l1.drop_last(), l1.last(), l2.drop_last(), l2.last());
        assert(l1 =~= l1.drop_last().push(l1.last()));
        assert(l2 =~= l2.drop_last().push(l2.last()));
    }
}

/// Joining two runs of lines is joining each.
pub proof fn lemma_join_lines_append(a: Seq<Seq<char>>, b: Seq<Seq<char>>)
    ensures
        join_lines(a + b) == join_lines(a) + join_lines(b),
    decreases b.len(),
{
    if b.len() == 0 {
        assert(a + b =~= a);
        assert(join_lines(b) =~= Seq::<char>::empty());
        assert(join_lines(a) + join_lines(b) =~= join_lines(a));
    } else {
        lemma_join_lines_append(a, b.drop_last());
        assert((a + b).drop_last() =~= a + b.drop_last());
        assert((a + b).last() == b.last());
        assert(join_lines(a) + join_lines(b) =~= join_lines(a) + join_lines(b.drop_last()) + b.last() + seq!['\n']);
    }
}

/// How the stream is cut into network reads does not change the lines:
/// feeding `a` and then `b` to a buffer holding `pending` releases the lines
/// `l1` and then `l2`, and leaves `p2`, exactly when feeding `a` and `b` in
/// one piece releases `l1 + l2` and leaves `p2`.
pub proof fn lemma_chunking_does_not_matter(
    pending: Seq<char>,
    a: Seq<char>,
    b: Seq<char>,
    l1: Seq<Seq<char>>,
    p1: Seq<char>,
    l2: Seq<Seq<char>>,
    p2: Seq<char>,
    l: Seq<Seq<char>>,
    p: Seq<char>,
)
    requires
        all_single_lines(l1),
        all_single_lines(l2),
        all_single_lines(l),
        no_newline(p1),
        no_newline(p2),
        no_newline(p),
        join_lines(l1) + p1 == pending + a,
        join_lines(l2) + p2 == p1 + b,
        join_lines(l) + p == pending + (a + b),
    ensures
        l == l1 + l2,
        p == p2,
{
    lemma_join_lines_append(l1, l2);
    let j1 = join_lines(l1);
    let j2 = join_lines(l2);
    assert(j1 + j2 + p2 =~= j1 + (j2 + p2));
    assert(j1 + (p1 + b) =~= (j1 + p1) + b);
    assert((pending + a) + b =~= pending + (a + b));
    assert(join_lines(l1 + l2) + p2 == pending + (a + b));
    assert(all_single_lines(l1 + l2)) by {
        assert forall|k: int| 0 <= k < (l1 + l2).len() implies no_newline(#[trigger] (l1 + l2)[k]) by {
            if k < l1.len() {
                assert((l1 + l2)[k] == l1[k]);
            } else {
                assert((l1 + l2)[k] == l2[k - l1.len()]);
            }
        }
    }
    lemma_line_split_unique(l, p, l1 + l2, p2);
}

/// What one line of the event stream says.
pub enum SseLine {
    /// Blank lines, comments and fields other than `data`.
    Ignore,
    /// The `[DONE]` marker that ends the stream.
    Done,
    /// The payload of a `data: ` line, trimmed.
    Data(String),
}

/// The meaning of one event-stream line, as `stream_chat_llama` reads it.
pub open spec fn sse_line_meaning(line: Seq<char>) -> (Option<bool>, Seq<char>) {
    let t = trim(line);
    if t.len() == 0 || starts_with(t, ":"@) || !starts_with(t, "data: "@) {
        (None, Seq::empty())
    } else {
        let d = trim(t.skip(6));
        if d == "[DONE]"@ {
            (Some(true), d)
        } else {
            (Some(false), d)
        }
    }
}

/// Classifies one line of the event stream: blank lines and `:` comments are
/// ignored, as is anything that is not a `data: ` line; `data: [DONE]` ends
/// the stream; any other `data: ` line carries a JSON payload.
pub fn classify_sse_line(line: &str) -> (r: SseLine)
    ensures
        match r {
            SseLine::Ignore => sse_line_meaning(line@).0 is None,
            SseLine::Done => sse_line_meaning(line@).0 == Some(true),
            SseLine::Data(d) => sse_line_meaning(line@).0 == Some(false) && d@
                == sse_line_meaning(line@).1,
        },
{
    let t = trim_str(line);
    let tv = chars_of(t.as_str());
    let colon = chars_of(":");
    let prefix = chars_of("data: ");
    if tv.len() == 0 || crate::text::matches_at(&tv, &colon, 0) || !crate::text::matches_at(&tv, &prefix, 0) {
        proof {
            assert(colon@.len() <= tv@.len() ==> tv@.subrange(0, colon@.len() as int) == tv@.take(colon@.len() as int));
            assert(prefix@.len() <= tv@.len() ==> tv@.subrange(0, prefix@.len() as int) == tv@.take(prefix@.len() as int));
        }
        return SseLine::Ignore;
    }
    proof {
        assert(tv@.subrange(0, prefix@.len() as int) == tv@.take(prefix@.len() as int));
        assert(colon@.len() <= tv@.len() ==> tv@.subrange(0, colon@.len() as int) == tv@.take(colon@.len() as int));
        assert(prefix@.len() == 6) by {
            reveal_strlit("data: ");
        }
    }
    let (a, b) = trim_bounds(&tv, 6, tv.len());
    let d = string_of_range(&tv, a, b);
    assert(tv@.subrange(6, tv@.len() as int) =~= tv@.skip(6));
    if crate::text::str_eq(d.as_str(), "[DONE]") {
        SseLine::Done
    } else {
        SseLine::Data(d)
    }
}

// ---------------------------------------------------------------------------
// Stream chunks
// ---------------------------------------------------------------------------
/// The function fragment of a streamed tool call.
pub struct StreamToolCallFunction {
    pub name: Option<String>,
    pub arguments: Option<String>,
}

/// A fragment of a tool call, keyed by `index`.
pub struct StreamToolCall {
    pub index: Option<usize>,
    pub id: Option<String>,
    pub function: Option<StreamToolCallFunction>,
}

/// What one streamed chunk adds to the reply.
pub struct StreamDelta {
    pub content: Option<String>,
    pub tool_calls: Option<Vec<StreamToolCall>>,
}

/// One choice of a streamed chunk.
pub struct StreamChoice {
    pub delta: StreamDelta,
}

/// One decoded `data: ` payload of the stream. The generation timings that
/// llama.cpp appends to the last chunk are read by the caller.
pub struct StreamChunk {
    pub choices: Vec<StreamChoice>,
}

/// Tool calls arrive as fragments keyed by `index`; the name lands in the first
/// fragment and the arguments accumulate one string piece at a time.
pub struct PartialToolCall {
    pub id: Option<String>,
    pub name: String,
    pub arguments: String,
}

/// A tool call being assembled: its id, name and arguments so far.
pub struct PartialView {
    pub id: Option<Seq<char>>,
    pub name: Seq<char>,
    pub arguments: Seq<char>,
}

impl View for PartialToolCall {
    type V = PartialView;

    open spec fn view(&self) -> PartialView {
        PartialView {
            id: match self.id {
                Some(s) => Some(s@),
                None => None,
            },
            name: self.name@,
            arguments: self.arguments@,
        }
    }
}

/// The views of the tool calls being assembled.
pub open spec fn partial_views(p: Seq<PartialToolCall>) -> Seq<PartialView> {
    Seq::new(p.len(), |k: int| p[k]@)
}

/// A tool call with nothing received yet.
pub open spec fn empty_partial() -> PartialView {
    PartialView { id: None, name: Seq::empty(), arguments: Seq::empty() }
}

/// The slot a fragment goes to.
pub open spec fn fragment_slot(tc: StreamToolCall) -> int {
    match tc.index {
        Some(i) => i as int,
        None => 0,
    }
}

/// The tool calls after applying one fragment: the list grows with empty
/// calls to reach the fragment's slot, the slot takes the fragment's id when
/// it has one, and the name and arguments pieces are appended.
pub open spec fn apply_fragment(p: Seq<PartialView>, tc: StreamToolCall) -> Seq<PartialView> {
    let idx = fragment_slot(tc);
    let grown = if p.len() <= idx {
        p + Seq::new((idx + 1 - p.len()) as nat, |k: int| empty_partial())
    } else {
        p
    };
    let slot = grown[idx];
    let name_piece = match tc.function {
        Some(f) => match f.name {
            Some(n) => n@,
            None => Seq::empty(),
        },
        None => Seq::empty(),
    };
    let args_piece = match tc.function {
        Some(f) => match f.arguments {
            Some(a) => a@,
            None => Seq::empty(),
        },
        None => Seq::empty(),
    };
    grown.update(
        idx,
        PartialView {
            id: match tc.id {
                Some(id) => Some(id@),
                None => slot.id,
            },
            name: slot.name + name_piece,
            arguments: slot.arguments + args_piece,
        },
    )
}

/// The tool calls after applying the fragments `tcs` in order.
pub open spec fn apply_fragments(p: Seq<PartialView>, tcs: Seq<StreamToolCall>) -> Seq<PartialView>
    decreases tcs.len(),
{
    if tcs.len() == 0 {
        p
    } else {
        apply_fragment(apply_fragments(p, tcs.drop_last()), tcs.last())
    }
}

/// The fragments a chunk carries: those of its first choice.
pub open spec fn chunk_fragments(chunk: StreamChunk) -> Seq<StreamToolCall> {
    if chunk.choices@.len() > 0 {
        match chunk.choices@[0].delta.tool_calls {
            Some(v) => v@,
            None => Seq::empty(),
        }
    } else {
        Seq::empty()
    }
}

/// No fragment of the chunk names the last possible slot.
pub open spec fn chunk_slots_in_range(chunk: StreamChunk) -> bool {
    forall|k: int|
        0 <= k < chunk_fragments(chunk).len() ==> fragment_slot(#[trigger] chunk_fragments(chunk)[k])
            < usize::MAX
}

/// The text a chunk adds to the reply: the content of its first choice.
pub open spec fn chunk_text(chunk: StreamChunk) -> Seq<char> {
    if chunk.choices@.len() > 0 {
        match chunk.choices@[0].delta.content {
            Some(c) => c@,
            None => Seq::empty(),
        }
    } else {
        Seq::empty()
    }
}

/// The chunk's first choice carries a `tool_calls` field.
pub open spec fn chunk_has_tool_calls(chunk: StreamChunk) -> bool {
    chunk.choices@.len() > 0 && chunk.choices@[0].delta.tool_calls is Some
}

/// What applying a chunk asks of the caller.
pub struct ChunkEffect {
    /// Text to forward to the frontend.
    pub delta: Option<String>,
    /// This chunk brought the first token of the reply: time it.
    pub first_token: bool,
}

/// The state of a streamed reply: tool calls being assembled, tokens
/// forwarded, and whether the first token has arrived.
pub struct StreamProgress {
    pub partial_tool_calls: Vec<PartialToolCall>,
    pub emitted_tokens: u64,
    pub first_token_seen: bool,
}

impl StreamProgress {
    /// The state before any chunk.
    pub fn new() -> (s: StreamProgress)
        ensures
            s.partial_tool_calls@.len() == 0,
            s.emitted_tokens == 0,
            !s.first_token_seen,
    {
        StreamProgress { partial_tool_calls: Vec::new(), emitted_tokens: 0, first_token_seen: false }
    }

    /// Applies one decoded chunk. Its first choice's tool-call fragments are
    /// merged into the calls being assembled; its text, when non-empty, is
    /// forwarded and counted as one token (llama-server emits one token per
    /// event); the first chunk with text or a `tool_calls` field marks the
    /// first token.
    pub fn apply_chunk(&mut self, chunk: &StreamChunk) -> (effect: ChunkEffect)
        requires
            chunk_slots_in_range(*chunk),
            chunk_text(*chunk).len() > 0 ==> old(self).emitted_tokens < u64::MAX,
        ensures
            partial_views(final(self).partial_tool_calls@) == apply_fragments(
                partial_views(old(self).partial_tool_calls@),
                chunk_fragments(*chunk),
            ),
            chunk_text(*chunk).len() > 0 ==> (effect.delta matches Some(d) && d@ == chunk_text(
                *chunk,
            ) && final(self).emitted_tokens == old(self).emitted_tokens + 1),
            chunk_text(*chunk).len() == 0 ==> (effect.delta is None && final(self).emitted_tokens
                == old(self).emitted_tokens),
            effect.first_token == (!old(self).first_token_seen && (chunk_text(*chunk).len() > 0
                || chunk_has_tool_calls(*chunk))),
            final(self).first_token_seen == (old(self).first_token_seen || effect.first_token),
    {
        if chunk.choices.len() == 0 {
            return ChunkEffect { delta: None, first_token: false };
        }
        let choice = &chunk.choices[0];
        let has_tool_calls = choice.delta.tool_calls.is_some();
        match &choice.delta.tool_calls {
            Some(tcs) => {
                let mut k: usize = 0;
                while k < tcs.len()
                    invariant
                        k <= tcs.len(),
                        tcs@ == chunk_fragments(*chunk),
                        chunk_slots_in_range(*chunk),
                        self.emitted_tokens == old(self).emitted_tokens,
                        self.first_token_seen == old(self).first_token_seen,
                        partial_views(self.partial_tool_calls@) == apply_fragments(
                            partial_views(old(self).partial_tool_calls@),
                            tcs@.take(k as int),
                        ),
                    decreases tcs.len() - k,
                {
                    assert(fragment_slot(tcs@[k as int]) < usize::MAX);
                    self.apply_fragment(&tcs[k]);
                    assert(tcs@.take(k + 1).drop_last() =~= tcs@.take(k as int));
                    k += 1;
                }
                assert(tcs@.take(tcs@.len() as int) =~= tcs@);
            },
            None => {},
        }
        let text_empty = match &choice.delta.content {
            Some(c) => c.as_str().is_empty(),
            None => true,
        };
        let first_token = !self.first_token_seen && (!text_empty || has_tool_calls);
        if first_token {
            self.first_token_seen = true;
        }
        if text_empty {
            ChunkEffect { delta: None, first_token }
        } else {
            self.emitted_tokens = self.emitted_tokens + 1;
            let delta = match &choice.delta.content {
                Some(c) => c.clone(),
                None => String::new(),
            };
            ChunkEffect { delta: Some(delta), first_token }
        }
    }

    /// Merges one tool-call fragment into the calls being assembled.
    fn apply_fragment(&mut self, tc: &StreamToolCall)
        requires
            fragment_slot(*tc) < usize::MAX,
        ensures
            partial_views(final(self).partial_tool_calls@) == apply_fragment(
                partial_views(old(self).partial_tool_calls@),
                *tc,
            ),
            final(self).emitted_tokens == old(self).emitted_tokens,
            final(self).first_token_seen == old(self).first_token_seen,
    {
        let idx: usize = match tc.index {
            Some(i) => i,
            None => 0,
        };
        let ghost p = partial_views(self.partial_tool_calls@);
        let ghost grown = if p.len() <= idx {
            p + Seq::new((idx + 1 - p.len()) as nat, |k: int| empty_partial())
        } else {
            p
        };
        while self.partial_tool_calls.len() <= idx
            invariant
                idx < usize::MAX,
                p.len() <= self.partial_tool_calls@.len(),
                self.partial_tool_calls@.len() <= idx + 1 || self.partial_tool_calls@.len() == p.len(),
                forall|k: int| 0 <= k < p.len() ==> #[trigger] partial_views(self.partial_tool_calls@)[k] == p[k],
                forall|k: int|
                    p.len() <= k < self.partial_tool_calls@.len() ==> #[trigger] partial_views(
                        self.partial_tool_calls@,
                    )[k] == empty_partial(),
                self.emitted_tokens == old(self).emitted_tokens,
                self.first_token_seen == old(self).first_token_seen,
            decreases idx + 1 - self.partial_tool_calls@.len(),
        {
            let ghost before = self.partial_tool_calls@;
            self.partial_tool_calls.push(
                PartialToolCall { id: None, name: String::new(), arguments: String::new() },
            );
            proof {
                assert forall|k: int| 0 <= k < before.len() implies #[trigger] partial_views(
                    self.partial_tool_calls@,
                )[k] == partial_views(before)[k] by {
                    assert(self.partial_tool_calls@[k] == before[k]);
                }
                assert(partial_views(self.partial_tool_calls@)[before.len() as int] == empty_partial());
            }
        }
        assert(partial_views(self.partial_tool_calls@) =~= grown);
        let ghost slot = grown[idx as int];
        let mut entry = self.partial_tool_calls.remove(idx);
        if let Some(id) = &tc.id {
            entry.id = Some(id.clone());
        }
        if let Some(f) = &tc.function {
            if let Some(name) = &f.name {
                push_str(&mut entry.name, name.as_str());
            }
            if let Some(args) = &f.arguments {
                push_str(&mut entry.arguments, args.as_str());
            }
        }
        proof {
            assert(entry@.name == slot.name + match tc.function {
                Some(f) => match f.name {
                    Some(n) => n@,
                    None => Seq::empty(),
                },
                None => Seq::empty(),
            });
        }
        self.partial_tool_calls.insert(idx, entry);
        assert(partial_views(self.partial_tool_calls@) =~= apply_fragment(p, *tc));
    }

    /// The tool calls that were given a name, in slot order.
    pub fn finished_tool_calls(self) -> (calls: Vec<PartialToolCall>)
        ensures
            partial_views(calls@) == partial_views(self.partial_tool_calls@).filter(
                |c: PartialView| c.name.len() > 0,
            ),
    {
        let ghost all = partial_views(self.partial_tool_calls@);
        assert(all.len() == self.partial_tool_calls.len());
        let mut rest = self.partial_tool_calls;
        let mut calls: Vec<PartialToolCall> = Vec::new();
        let mut n: usize = 0;
        while rest.len() > 0
            invariant
                n <= all.len() <= usize::MAX,
                partial_views(rest@) == all.skip(n as int),
                partial_views(calls@) == all.take(n as int).filter(|c: PartialView| c.name.len() > 0),
            decreases rest.len(),
        {
            let ghost old_rest = rest@;
            assert(partial_views(old_rest).len() == old_rest.len());
            assert(n < all.len());
            assert(partial_views(old_rest)[0] == old_rest[0]@);
            let c = rest.remove(0);
            assert(c@ == all[n as int]);
            assert(all.take(n + 1).drop_last() =~= all.take(n as int));
            reveal_with_fuel(Seq::filter, 1);
            if c.name.as_str().is_empty() {
            } else {
                calls.push(c);
                assert(partial_views(calls@) =~= partial_views(calls@).drop_last().push(c@));
            }
            assert forall|k: int| 0 <= k < rest@.len() implies #[trigger] partial_views(rest@)[k]
                == all.skip(n + 1)[k] by {
                assert(rest@[k] == old_rest[k + 1]);
                assert(partial_views(old_rest)[k + 1] == all.skip(n as int)[k + 1]);
            }
            assert(partial_views(rest@) =~= all.skip(n + 1));
            n += 1;
        }
        assert(all.take(n as int) =~= all);
        calls
    }
}

impl PartialToolCall {
    /// The accumulated arguments text with surrounding whitespace removed,
    /// which is what gets decoded as JSON.
    pub fn arguments_text(&self) -> (t: String)
        ensures
            t@ == trim(self.arguments@),
    {
        trim_str(self.arguments.as_str())
    }

    /// The finished tool call. `decoded` is the JSON decoding of
    /// `arguments_text()`, `None` when it is not valid JSON; undecodable
    /// arguments become the empty object.
    pub fn finish(self, decoded: Option<JsonValue>) -> (chunk: ToolCallChunk)
        ensures
            chunk.id == self.id,
            chunk.function.name == self.name,
            match decoded {
                Some(v) => chunk.function.arguments == v,
                None => chunk.function.arguments matches JsonValue::Object(m) && m@.len() == 0,
            },
    {
        let arguments = match decoded {
            Some(v) => v,
            None => JsonValue::Object(Vec::new()),
        };
        ToolCallChunk { id: self.id, function: ToolCallFunction { name: self.name, arguments } }
    }
}


// ---------------------------------------------------------------------------
// A whole streamed reply
// ---------------------------------------------------------------------------
/// What one line of the stream amounts to once its payload is decoded:
/// nothing (blank lines, comments, other fields, undecodable payloads), the
/// end marker, or a chunk.
pub enum StreamItem {
    Ignore,
    Done,
    Chunk(StreamChunk),
}

/// A chunk that carries a choice; one without any changes nothing.
pub open spec fn meaningful(c: StreamChunk) -> bool {
    c.choices@.len() > 0
}

/// The chunks that count, and whether the end marker has been seen, after
/// one more item: nothing counts after the end marker.
pub open spec fn count_step(state: (Seq<StreamChunk>, bool), item: StreamItem) -> (Seq<StreamChunk>, bool) {
    if state.1 {
        state
    } else {
        match item {
            StreamItem::Ignore => state,
            StreamItem::Done => (state.0, true),
            StreamItem::Chunk(c) => if meaningful(c) {
                (state.0.push(c), false)
            } else {
                state
            },
        }
    }
}

/// `count_step` over `items`, from `init`.
pub open spec fn counted_from(init: (Seq<StreamChunk>, bool), items: Seq<StreamItem>) -> (Seq<StreamChunk>, bool)
    decreases items.len(),
{
    if items.len() == 0 {
        init
    } else {
        count_step(counted_from(init, items.drop_last()), items.last())
    }
}

/// The chunks of a reply that count: those with a choice, before the end
/// marker.
pub open spec fn counted_chunks(items: Seq<StreamItem>) -> Seq<StreamChunk> {
    counted_from((Seq::empty(), false), items).0
}

/// The tool calls assembled and the text deltas forwarded, after one more
/// item, given whether the end marker has been seen.
pub open spec fn reply_step(
    state: (Seq<PartialView>, Seq<Seq<char>>, bool),
    item: StreamItem,
) -> (Seq<PartialView>, Seq<Seq<char>>, bool) {
    if state.2 {
        state
    } else {
        match item {
            StreamItem::Ignore => state,
            StreamItem::Done => (state.0, state.1, true),
            StreamItem::Chunk(c) => (
                apply_fragments(state.0, chunk_fragments(c)),
                if chunk_text(c).len() > 0 {
                    state.1.push(chunk_text(c))
                } else {
                    state.1
                },
                false,
            ),
        }
    }
}

/// The reply after `items`: the tool calls assembled, the text deltas sent
/// in order, and whether the end marker was seen.
pub open spec fn reply_of(items: Seq<StreamItem>) -> (Seq<PartialView>, Seq<Seq<char>>, bool)
    decreases items.len(),
{
    if items.len() == 0 {
        (Seq::empty(), Seq::empty(), false)
    } else {
        reply_step(reply_of(items.drop_last()), items.last())
    }
}

/// The tool calls and text deltas that the chunks `cs` give, in order.
pub open spec fn reply_of_chunks(cs: Seq<StreamChunk>) -> (Seq<PartialView>, Seq<Seq<char>>)
    decreases cs.len(),
{
    if cs.len() == 0 {
        (Seq::empty(), Seq::empty())
    } else {
        let r = reply_of_chunks(cs.drop_last());
        let c = cs.last();
        (
            apply_fragments(r.0, chunk_fragments(c)),
            if chunk_text(c).len() > 0 {
                r.1.push(chunk_text(c))
            } else {
                r.1
            },
        )
    }
}

/// A reply is made by the chunks that count alone.
pub proof fn lemma_reply_of_counted(items: Seq<StreamItem>)
    ensures
        reply_of(items).0 == reply_of_chunks(counted_chunks(items)).0,
        reply_of(items).1 == reply_of_chunks(counted_chunks(items)).1,
        reply_of(items).2 == counted_from((Seq::empty(), false), items).1,
    decreases items.len(),
{
    if items.len() > 0 {
        let rest = items.drop_last();
        lemma_reply_of_counted(rest);
        let st = counted_from((Seq::empty(), false), rest);
        if !st.1 {
            match items.last() {
                StreamItem::Chunk(c) => {
                    if meaningful(c) {
                        assert(st.0.push(c).drop_last() =~= st.0);
                    } else {
                        assert(chunk_fragments(c) =~= Seq::<StreamToolCall>::empty());
                        assert(apply_fragments(reply_of(rest).0, chunk_fragments(c)) == reply_of(rest).0);
                    }
                },
                _ => {},
            }
        }
    }
}

/// Running items in two runs is running them in one.
proof fn lemma_counted_from_concat(init: (Seq<StreamChunk>, bool), a: Seq<StreamItem>, b: Seq<StreamItem>)
    ensures
        counted_from(init, a + b) == counted_from(counted_from(init, a), b),
    decreases b.len(),
{
    if b.len() == 0 {
        assert(a + b =~= a);
    } else {
        lemma_counted_from_concat(init, a, b.drop_last());
        assert((a + b).drop_last() =~= a + b.drop_last());
        assert((a + b).last() == b.last());
    }
}

/// Nothing counts once the end marker has been seen.
proof fn lemma_counted_after_end(cs: Seq<StreamChunk>, rest: Seq<StreamItem>)
    ensures
        counted_from((cs, true), rest) == (cs, true),
    decreases rest.len(),
{
    if rest.len() > 0 {
        lemma_counted_after_end(cs, rest.drop_last());
    }
}

/// Two replies whose chunks that count agree send the same events: the
/// same text deltas in the same order and the same tool calls at the end.
pub proof fn lemma_same_counted_same_reply(a: Seq<StreamItem>, b: Seq<StreamItem>)
    requires
        counted_chunks(a) == counted_chunks(b),
    ensures
        reply_of(a).0 == reply_of(b).0,
        reply_of(a).1 == reply_of(b).1,
{
    lemma_reply_of_counted(a);
    lemma_reply_of_counted(b);
}

/// Extra lines that amount to nothing (blank lines, comments, other fields,
/// undecodable payloads, chunks without a choice) change no event, wherever
/// they stand; and whatever follows the end marker changes no event.
pub proof fn lemma_stream_ignores_extras(
    before: Seq<StreamItem>,
    after: Seq<StreamItem>,
    extra: StreamChunk,
    tail: Seq<StreamItem>,
)
    requires
        !meaningful(extra),
    ensures
        reply_of(before + seq![StreamItem::Ignore] + after).0 == reply_of(before + after).0,
        reply_of(before + seq![StreamItem::Ignore] + after).1 == reply_of(before + after).1,
        reply_of(before + seq![StreamItem::Chunk(extra)] + after).0 == reply_of(before + after).0,
        reply_of(before + seq![StreamItem::Chunk(extra)] + after).1 == reply_of(before + after).1,
        reply_of(before + seq![StreamItem::Done] + tail).0 == reply_of(before + seq![StreamItem::Done]).0,
        reply_of(before + seq![StreamItem::Done] + tail).1 == reply_of(before + seq![StreamItem::Done]).1,
{
    let z = (Seq::<StreamChunk>::empty(), false);
    let s = counted_from(z, before);
    lemma_counted_from_concat(z, before + seq![StreamItem::Ignore], after);
    lemma_counted_from_concat(z, before, seq![StreamItem::Ignore]);
    lemma_counted_from_concat(z, before, after);
    assert(seq![StreamItem::Ignore].drop_last() =~= Seq::<StreamItem>::empty());
    assert(seq![StreamItem::Ignore].last() == StreamItem::Ignore);
    assert(counted_from(s, Seq::<StreamItem>::empty()) == s);
    assert(counted_from(s, seq![StreamItem::Ignore]) == s);
    lemma_same_counted_same_reply(before + seq![StreamItem::Ignore] + after, before + after);

    lemma_counted_from_concat(z, before + seq![StreamItem::Chunk(extra)], after);
    lemma_counted_from_concat(z, before, seq![StreamItem::Chunk(extra)]);
    assert(seq![StreamItem::Chunk(extra)].drop_last() =~= Seq::<StreamItem>::empty());
    assert(seq![StreamItem::Chunk(extra)].last() == StreamItem::Chunk(extra));
    assert(counted_from(s, Seq::<StreamItem>::empty()) == s);
    assert(counted_from(s, seq![StreamItem::Chunk(extra)]) == s);
    lemma_same_counted_same_reply(before + seq![StreamItem::Chunk(extra)] + after, before + after);

    lemma_counted_from_concat(z, before + seq![StreamItem::Done], tail);
    lemma_counted_from_concat(z, before, seq![StreamItem::Done]);
    assert(seq![StreamItem::Done].drop_last() =~= Seq::<StreamItem>::empty());
    assert(seq![StreamItem::Done].last() == StreamItem::Done);
    assert(counted_from(s, Seq::<StreamItem>::empty()) == s);
    let e = counted_from(z, before + seq![StreamItem::Done]);
    assert(e.1);
    lemma_counted_after_end(e.0, tail);
    lemma_same_counted_same_reply(before + seq![StreamItem::Done] + tail, before + seq![StreamItem::Done]);
}

/// The line an item comes from: `Ignore` lines, the end marker, or a
/// decoded payload (`None` when it does not decode).
pub fn stream_item(line: SseLine, decoded: Option<StreamChunk>) -> (item: StreamItem)
    ensures
        match line {
            SseLine::Ignore => item is Ignore,
            SseLine::Done => item is Done,
            SseLine::Data(_) => match decoded {
                Some(c) => item == StreamItem::Chunk(c),
                None => item is Ignore,
            },
        },
{
    match line {
        SseLine::Ignore => StreamItem::Ignore,
        SseLine::Done => StreamItem::Done,
        SseLine::Data(_) => match decoded {
            Some(c) => StreamItem::Chunk(c),
            None => StreamItem::Ignore,
        },
    }
}

/// A reply being read: the chunks' progress, and whether the end marker
/// has been seen.
pub struct StreamSession {
    pub progress: StreamProgress,
    pub ended: bool,
}

/// A chunk item names no slot past the last possible one, and, when it
/// carries text, the token count can still grow.
pub open spec fn item_in_range(item: StreamItem, emitted: u64) -> bool {
    match item {
        StreamItem::Chunk(c) => chunk_slots_in_range(c) && (chunk_text(c).len() > 0 ==> emitted < u64::MAX),
        _ => true,
    }
}

/// A chunk item with text or a `tool_calls` field: the reply's first token.
pub open spec fn item_starts_reply(item: StreamItem) -> bool {
    match item {
        StreamItem::Chunk(c) => chunk_text(c).len() > 0 || chunk_has_tool_calls(c),
        _ => false,
    }
}

/// The reply state a session stands for.
pub open spec fn session_state(s: StreamSession, deltas: Seq<Seq<char>>) -> (Seq<PartialView>, Seq<Seq<char>>, bool) {
    (partial_views(s.progress.partial_tool_calls@), deltas, s.ended)
}

impl StreamSession {
    /// A session before any line.
    pub fn new() -> (s: StreamSession)
        ensures
            partial_views(s.progress.partial_tool_calls@) == Seq::<PartialView>::empty(),
            s.progress.emitted_tokens == 0,
            !s.progress.first_token_seen,
            !s.ended,
    {
        let progress = StreamProgress::new();
        assert(partial_views(progress.partial_tool_calls@) =~= Seq::<PartialView>::empty());
        StreamSession { progress, ended: false }
    }

    /// Takes one item: after the end marker nothing happens; the end marker
    /// ends the reply; a chunk is applied (see `StreamProgress::apply_chunk`).
    /// With `deltas` the text sent so far, the reply state moves as
    /// `reply_step` says, and the text delta returned is the one it adds.
    pub fn on_item(&mut self, item: &StreamItem) -> (effect: ChunkEffect)
        requires
            !old(self).ended ==> item_in_range(*item, old(self).progress.emitted_tokens),
        ensures
            forall|deltas: Seq<Seq<char>>|
                #![trigger reply_step(session_state(*old(self), deltas), *item)]
                session_state(*final(self), match effect.delta {
                    Some(d) => deltas.push(d@),
                    None => deltas,
                }) == reply_step(session_state(*old(self), deltas), *item),
            effect.first_token == (!old(self).ended && !old(self).progress.first_token_seen
                && item_starts_reply(*item)),
            final(self).progress.first_token_seen == (old(self).progress.first_token_seen
                || effect.first_token),
    {
        if self.ended {
            return ChunkEffect { delta: None, first_token: false };
        }
        match item {
            StreamItem::Ignore => ChunkEffect { delta: None, first_token: false },
            StreamItem::Done => {
                self.ended = true;
                ChunkEffect { delta: None, first_token: false }
            },
            StreamItem::Chunk(c) => self.progress.apply_chunk(c),
        }
    }

    /// The named tool calls assembled, in slot order.
    pub fn finish(self) -> (calls: Vec<PartialToolCall>)
        ensures
            partial_views(calls@) == partial_views(self.progress.partial_tool_calls@).filter(
                |c: PartialView| c.name.len() > 0,
            ),
    {
        self.progress.finished_tool_calls()
    }
}

/// `c` is `p` finished with `decoded` (see `PartialToolCall::finish`).
pub open spec fn finished_as(p: PartialToolCall, decoded: Option<JsonValue>, c: ToolCallChunk) -> bool {
    &&& c.id == p.id
    &&& c.function.name == p.name
    &&& match decoded {
        Some(v) => c.function.arguments == v,
        None => c.function.arguments matches JsonValue::Object(m) && m@.len() == 0,
    }
}

/// The tool calls reported when the reply ends: none when no call was
/// named, else each call finished with its decoded arguments (`decoded[k]`
/// for `calls[k]`).
pub fn final_tool_calls(calls: Vec<PartialToolCall>, decoded: Vec<Option<JsonValue>>) -> (r: Option<
    Vec<ToolCallChunk>,
>)
    requires
        calls@.len() == decoded@.len(),
    ensures
        calls@.len() == 0 ==> r is None,
        calls@.len() > 0 ==> (r matches Some(v) && v@.len() == calls@.len() && forall|k: int|
            0 <= k < calls@.len() ==> finished_as(calls@[k], decoded@[k], #[trigger] v@[k])),
{
    if calls.len() == 0 {
        return None;
    }
    let ghost cs = calls@;
    let ghost ds = decoded@;
    assert(cs.len() <= usize::MAX);
    let mut rest_c = calls;
    let mut rest_d = decoded;
    let mut out: Vec<ToolCallChunk> = Vec::new();
    let mut n: usize = 0;
    while rest_c.len() > 0
        invariant
            n + rest_c@.len() == cs.len(),
            rest_c@.len() == rest_d@.len(),
            rest_c@ == cs.skip(n as int),
            rest_d@ == ds.skip(n as int),
            out@.len() == n,
            cs.len() == ds.len(),
            cs.len() <= usize::MAX,
            forall|k: int| 0 <= k < n ==> finished_as(cs[k], ds[k], #[trigger] out@[k]),
        decreases rest_c.len(),
    {
        let ghost oc = rest_c@;
        let ghost od = rest_d@;
        let c = rest_c.remove(0);
        let d = rest_d.remove(0);
        assert(c == cs[n as int] && d == ds[n as int]);
        let done = c.finish(d);
        out.push(done);
        assert(rest_c@ =~= cs.skip(n + 1));
        assert(rest_d@ =~= ds.skip(n + 1));
        n += 1;
    }
    Some(out)
}

} // verus!
