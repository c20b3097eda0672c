use vstd::prelude::*;

use crate::json::{json_array, json_get, json_get_opt, json_str, parse_json, parsed_json, str_member, Json};
use crate::llm::{cli_command, spec_cli_command};
use crate::text::{joined, newline_pieces, signed_decimal, signed_decimal_text, split_newlines, trim, trimmed, views};

verus! {

/// The non-empty lines of a stream, each trimmed.
pub open spec fn stream_lines_from(pieces: Seq<Seq<char>>) -> Seq<Seq<char>>
    decreases pieces.len(),
{
    if pieces.len() == 0 {
        Seq::empty()
    } else {
        let prev = stream_lines_from(pieces.drop_last());
        let t = trimmed(pieces.last());
        if t.len() == 0 {
            prev
        } else {
            prev.push(t)
        }
    }
}

/// The trimmed non-empty lines of newline-delimited output.
pub fn stream_lines(stream: &str) -> (lines: Vec<String>)
    ensures
        views(lines@) == stream_lines_from(newline_pieces(stream@)),
{
    let pieces = split_newlines(stream);
    let ghost p = views(pieces@);
    let mut lines: Vec<String> = Vec::new();
    let mut k: usize = 0;
    while k < pieces.len()
        invariant
            k <= pieces.len(),
            p == views(pieces@),
            views(lines@) == stream_lines_from(p.take(k as int)),
        decreases pieces.len() - k,
    {
        assert(p.take(k + 1).drop_last() =~= p.take(k as int));
        let t = trim(pieces[k].as_str());
        if !t.as_str().is_empty() {
            let ghost prev = lines@;
            lines.push(t);
            assert(views(lines@) =~= views(prev).push(t@));
        }
        k = k + 1;
    }
    assert(p.take(pieces.len() as int) =~= p);
    lines
}

/// A message's type, as its `"type"` member says.
pub open spec fn message_type(m: Json) -> Option<Seq<char>> {
    json_str(json_get(m, "type"@))
}

/// The final reply that a `result` message carries.
pub open spec fn result_text(m: Json) -> Option<Seq<char>> {
    if message_type(m) == Some("result"@) {
        json_str(json_get(m, "result"@))
    } else {
        None
    }
}

/// The texts of the `text` blocks among `blocks`, in order.
pub open spec fn text_blocks(blocks: Seq<Json>) -> Seq<Seq<char>>
    decreases blocks.len(),
{
    if blocks.len() == 0 {
        Seq::empty()
    } else {
        let prev = text_blocks(blocks.drop_last());
        let b = blocks.last();
        if json_str(json_get(b, "type"@)) == Some("text"@) {
            match json_str(json_get(b, "text"@)) {
                Some(t) => prev.push(t),
                None => prev,
            }
        } else {
            prev
        }
    }
}

/// The text chunks an `assistant` message contributes.
pub open spec fn assistant_chunks(m: Json) -> Seq<Seq<char>> {
    if message_type(m) == Some("assistant"@) {
        match json_array(json_get_opt(json_get(m, "message"@), "content"@)) {
            Some(blocks) => text_blocks(blocks),
            None => Seq::empty(),
        }
    } else {
        Seq::empty()
    }
}

/// The reply in `msgs` (`None` for a line that is not JSON), given the chunks
/// gathered so far: the first `result` message's text wins; without one, the
/// concatenated assistant text, if there is any.
pub open spec fn reply_from(msgs: Seq<Option<Json>>, chunks: Seq<Seq<char>>) -> Option<Seq<char>>
    decreases msgs.len(),
{
    if msgs.len() == 0 {
        if chunks.len() == 0 {
            None
        } else {
            Some(joined(chunks, Seq::empty()))
        }
    } else {
        match msgs[0] {
            None => reply_from(msgs.drop_first(), chunks),
            Some(m) => match result_text(m) {
                Some(r) => Some(r),
                None => reply_from(msgs.drop_first(), chunks + assistant_chunks(m)),
            },
        }
    }
}

proof fn lemma_joined_empty_sep_push(parts: Seq<Seq<char>>, x: Seq<char>)
    ensures
        joined(parts.push(x), Seq::empty()) == joined(parts, Seq::empty()) + x,
{
    assert(parts.push(x).drop_last() =~= parts);
    if parts.len() == 0 {
        assert(joined(parts, Seq::empty()) + x =~= x);
    } else {
        assert(joined(parts, Seq::empty()) + Seq::empty() + x =~= joined(parts, Seq::empty()) + x);
    }
}

/// The texts of the `text` blocks of an array of content blocks.
fn collect_text_blocks(blocks: &Vec<Json>, chunks: &mut Vec<String>)
    ensures
        views(final(chunks)@) == views(old(chunks)@) + text_blocks(blocks@),
{
    let mut k: usize = 0;
    while k < blocks.len()
        invariant
            k <= blocks.len(),
            views(chunks@) == views(old(chunks)@) + text_blocks(blocks@.take(k as int)),
        decreases blocks.len() - k,
    {
        let b = &blocks[k];
        assert(blocks@.take(k + 1).drop_last() =~= blocks@.take(k as int));
        assert(blocks@.take(k + 1).last() == *b);
        let ty = str_member(Some(b), "type");
        let is_text = match &ty {
            Some(t) => crate::capture::str_equal(t.as_str(), "text"),
            None => false,
        };
        if is_text {
            match str_member(Some(b), "text") {
                Some(t) => {
                    let ghost prev = chunks@;
                    chunks.push(t);
                    assert(views(chunks@) =~= views(prev).push(t@));
                },
                None => {},
            }
        }
        k = k + 1;
    }
    assert(blocks@.take(blocks.len() as int) =~= blocks@);
}

/// Extracts the assistant's final reply from parsed stream-json lines
/// (`None` standing for a line that is not JSON): the first
/// `{"type":"result"}` message's `result` text, or else all assistant text
/// blocks concatenated, or `None` when there are none.
pub fn extract_reply_from_messages(msgs: &Vec<Option<Json>>) -> (r: Option<String>)
    ensures
        opt_string_view(r) == reply_from(msgs@, Seq::empty()),
{
    let mut chunks: Vec<String> = Vec::new();
    let mut k: usize = 0;
    assert(msgs@.skip(0) =~= msgs@);
    assert(views(chunks@) =~= Seq::<Seq<char>>::empty());
    while k < msgs.len()
        invariant
            k <= msgs.len(),
            reply_from(msgs@, Seq::empty()) == reply_from(msgs@.skip(k as int), views(chunks@)),
        decreases msgs.len() - k,
    {
        let ghost rest = msgs@.skip(k as int);
        assert(rest[0] == msgs@[k as int]);
        assert(rest.drop_first() =~= msgs@.skip(k + 1));
        match &msgs[k] {
            None => {},
            Some(m) => {
                let ty = str_member(Some(m), "type");
                let is_result = match &ty {
                    Some(t) => crate::capture::str_equal(t.as_str(), "result"),
                    None => false,
                };
                if is_result {
                    match str_member(Some(m), "result") {
                        Some(r) => {
                            return Some(r);
                        },
                        None => {},
                    }
                }
                let is_assistant = match &ty {
                    Some(t) => crate::capture::str_equal(t.as_str(), "assistant"),
                    None => false,
                };
                if is_assistant {
                    let message = m.get("message");
                    let content = match message {
                        Some(mm) => mm.get("content"),
                        None => None,
                    };
                    match content {
                        Some(c) => match c.as_array() {
                            Some(blocks) => {
                                collect_text_blocks(blocks, &mut chunks);
                            },
                            None => {},
                        },
                        None => {},
                    }
                }
            },
        }
        k = k + 1;
    }
    assert(msgs@.skip(msgs.len() as int) =~= Seq::<Option<Json>>::empty());
    if chunks.len() == 0 {
        None
    } else {
        let mut out = String::new();
        let mut j: usize = 0;
        while j < chunks.len()
            invariant
                j <= chunks.len(),
                out@ == joined(views(chunks@).take(j as int), Seq::empty()),
            decreases chunks.len() - j,
        {
            proof {
                lemma_joined_empty_sep_push(views(chunks@).take(j as int), chunks@[j as int]@);
            }
            assert(views(chunks@).take(j + 1) =~= views(chunks@).take(j as int).push(chunks@[j as int]@));
            out.append(chunks[j].as_str());
            j = j + 1;
        }
        assert(views(chunks@).take(chunks.len() as int) =~= views(chunks@));
        Some(out)
    }
}

/// The parsed lines of a stream, `None` standing for a line that is not JSON.
pub open spec fn parsed_lines(lines: Seq<Seq<char>>) -> Seq<Option<Json>> {
    lines.map_values(|l: Seq<char>| parsed_json(l))
}

/// The reply that the CLI's stream-json output carries.
pub open spec fn spec_stream_reply(stream: Seq<char>) -> Option<Seq<char>> {
    reply_from(parsed_lines(stream_lines_from(newline_pieces(stream))), Seq::empty())
}

/// Extracts the assistant's final reply from the CLI's newline-delimited
/// stream-json output: each trimmed non-empty line is parsed as JSON (a line
/// that does not parse is skipped), then the first `{"type":"result"}`
/// message's `result` text wins; without one, all assistant text blocks
/// concatenated; `None` when there are none.
pub fn extract_reply_from_stream_json(stream: &str) -> (r: Option<String>)
    ensures
        opt_string_view(r) == spec_stream_reply(stream@),
{
    let lines = stream_lines(stream);
    let mut msgs: Vec<Option<Json>> = Vec::new();
    let mut k: usize = 0;
    while k < lines.len()
        invariant
            k <= lines.len(),
            msgs@.len() == k,
            forall|i: int| 0 <= i < k ==> msgs@[i] == parsed_json(#[trigger] lines@[i]@),
        decreases lines.len() - k,
    {
        let m = parse_json(lines[k].as_str());
        msgs.push(m);
        k = k + 1;
    }
    assert(msgs@ =~= parsed_lines(views(lines@)));
    extract_reply_from_messages(&msgs)
}

/// The `Debug` text of an optional exit code: `Some(n)` or `None`.
pub open spec fn exit_code_debug(code: Option<i32>) -> Seq<char> {
    match code {
        Some(n) => "Some("@ + signed_decimal(n as int) + ")"@,
        None => "None"@,
    }
}

/// The message for a CLI run that exited without success.
pub open spec fn spec_cli_exit_error(code: Option<i32>, stderr: Seq<char>) -> Seq<char> {
    spec_cli_command() + " CLI exited with status "@ + exit_code_debug(code) + ": "@ + trimmed(stderr)
}

/// The message for a CLI run whose output holds no reply.
pub open spec fn spec_cli_no_output() -> Seq<char> {
    spec_cli_command() + " CLI produced no assistant output"@
}

/// What a finished CLI run gives back: the exit error when it did not
/// succeed, else the reply its stream-json output carries, or the no-output
/// error when there is none.
pub open spec fn spec_cli_outcome(success: bool, code: Option<i32>, stdout: Seq<char>, stderr: Seq<char>) -> Result<Seq<char>, Seq<char>> {
    if !success {
        Err(spec_cli_exit_error(code, stderr))
    } else {
        match spec_stream_reply(stdout) {
            Some(r) => Ok(r),
            None => Err(spec_cli_no_output()),
        }
    }
}

/// Turns a finished CLI run (whether it succeeded, its exit code, its stdout
/// and stderr) into the reply or the error message.
pub fn cli_outcome(success: bool, code: Option<i32>, stdout: &str, stderr: &str) -> (r: Result<String, String>)
    ensures
        match r {
            Ok(s) => spec_cli_outcome(success, code, stdout@, stderr@) == Ok::<Seq<char>, Seq<char>>(s@),
            Err(e) => spec_cli_outcome(success, code, stdout@, stderr@) == Err::<Seq<char>, Seq<char>>(e@),
        },
{
    if !success {
        let mut m = cli_command();
        m.append(" CLI exited with status ");
        match code {
            Some(n) => {
                m.append("Some(");
                let d = signed_decimal_text(n);
                m.append(d.as_str());
                m.append(")");
            },
            None => {
                m.append("None");
            },
        }
        m.append(": ");
        let t = trim(stderr);
        m.append(t.as_str());
        assert(m@ =~= spec_cli_exit_error(code, stderr@));
        return Err(m);
    }
    match extract_reply_from_stream_json(stdout) {
        Some(reply) => Ok(reply),
        None => {
            let mut m = cli_command();
            m.append(" CLI produced no assistant output");
            Err(m)
        },
    }
}

/// The view of an optional string.
pub open spec fn opt_string_view(o: Option<String>) -> Option<Seq<char>> {
    match o {
        Some(s) => Some(s@),
        None => None,
    }
}

/// The note added to a prompt when a screenshot was taken but cannot be sent to the CLI.
pub open spec fn screenshot_note() -> Seq<char> {
    "[Note: a screenshot was captured but cannot be attached via the "@
        + crate::llm::spec_cli_product_name() + " CLI; respond based on the text below.]"@
}

/// The note added to a prompt when a screenshot was taken but cannot be sent to the CLI.
pub fn screenshot_note_text() -> (n: String)
    ensures
        n@ == screenshot_note(),
{
    let mut n = String::from_str("[Note: a screenshot was captured but cannot be attached via the ");
    let name = crate::llm::cli_product_name();
    n.append(name.as_str());
    n.append(" CLI; respond based on the text below.]");
    n
}

/// The prompt fed to the local assistant CLI: the system prompt, then the
/// screenshot note when an image was captured, then the user prompt, parts
/// separated by blank lines.
pub open spec fn spec_full_prompt(prompt: Seq<char>, has_image: bool, system_prompt: Option<Seq<char>>) -> Seq<char> {
    let blank = seq!['\n', '\n'];
    match system_prompt {
        Some(sys) => if has_image {
            sys + blank + screenshot_note() + blank + prompt
        } else {
            sys + blank + prompt
        },
        None => if has_image {
            screenshot_note() + blank + prompt
        } else {
            prompt
        },
    }
}

/// Builds the prompt fed to the local assistant CLI on stdin.
pub fn claude_full_prompt(prompt: &str, has_image: bool, system_prompt: Option<&str>) -> (p: String)
    ensures
        p@ == spec_full_prompt(prompt@, has_image, match system_prompt { Some(s) => Some(s@), None => None }),
{
    let mut p = String::new();
    match system_prompt {
        Some(sys) => {
            p.append(sys);
            p.append("\n\n");
        },
        None => {},
    }
    if has_image {
        let note = screenshot_note_text();
        p.append(note.as_str());
        p.append("\n\n");
    }
    p.append(prompt);
    proof {
        reveal_strlit("\n\n");
    }
    assert(p@ =~= spec_full_prompt(prompt@, has_image, match system_prompt { Some(s) => Some(s@), None => None }));
    p
}

/// The path that the first line of a lookup command's output names, if any.
pub open spec fn spec_first_output_line(stdout: Seq<char>) -> Option<Seq<char>> {
    if stdout.len() == 0 {
        None
    } else {
        let t = trimmed(newline_pieces(stdout)[0]);
        if t.len() == 0 {
            None
        } else {
            Some(t)
        }
    }
}

/// The trimmed first line of `stdout`, when there is one and it is not empty.
pub fn first_output_line(stdout: &str) -> (r: Option<String>)
    ensures
        opt_string_view(r) == spec_first_output_line(stdout@),
{
    if stdout.is_empty() {
        return None;
    }
    let pieces = split_newlines(stdout);
    proof {
        crate::text::lemma_newline_pieces_nonempty(stdout@);
    }
    assert(views(pieces@)[0] == pieces@[0]@);
    let t = trim(pieces[0].as_str());
    if t.as_str().is_empty() {
        None
    } else {
        Some(t)
    }
}

} // verus!
