use vstd::prelude::*;
use vstd::utf8::{decode_utf8, encode_utf8, encode_utf8_decode_utf8, encode_utf8_valid_utf8, valid_utf8};

use crate::decimal::{
    format_i32, int_decimal, parse_i32, parse_i32_spec,
};
use crate::text::{
    chars_of, owned, push_str, split_whitespace, str_eq, string_from_chars, strings_view, trim,
    trim_end_newlines, trim_end_newlines_spec, trim_spec, words,
};

verus! {

const EXIT_CODE_PASTE: i32 = 10;

const EXIT_CODE_PASTE_AND_ENTER: i32 = 11;

const EXIT_CODE_PASTE_AND_SPACE: i32 = 12;

/// How the picker ended; the parent reads it back from the popup's exit status.
#[derive(Copy, Clone, Debug, PartialEq, Eq, Structural)]
pub enum ExitAction {
    Cancel,
    CopyOnly,
    Paste,
    PasteAndEnter,
    PasteAndSpace,
}

/// The key sent to the pane after pasting.
#[derive(Copy, Clone, Debug, PartialEq, Eq, Structural)]
pub enum ForwardKey {
    Enter,
    Space,
}

impl ExitAction {
    pub open spec fn code_of(self) -> i32 {
        match self {
            ExitAction::Cancel | ExitAction::CopyOnly => 0,
            ExitAction::Paste => 10,
            ExitAction::PasteAndEnter => 11,
            ExitAction::PasteAndSpace => 12,
        }
    }

    pub open spec fn pastes(self) -> bool {
        self is Paste || self is PasteAndEnter || self is PasteAndSpace
    }

    pub open spec fn key_of(self) -> Option<ForwardKey> {
        match self {
            ExitAction::PasteAndEnter => Some(ForwardKey::Enter),
            ExitAction::PasteAndSpace => Some(ForwardKey::Space),
            _ => None,
        }
    }

    pub open spec fn from_code(code: Option<i32>) -> ExitAction {
        match code {
            Some(10) => ExitAction::Paste,
            Some(11) => ExitAction::PasteAndEnter,
            Some(12) => ExitAction::PasteAndSpace,
            _ => ExitAction::CopyOnly,
        }
    }

    /// The process exit status that carries this action.
    pub fn exit_code(self) -> (c: i32)
        ensures
            c == self.code_of(),
    {
        match self {
            ExitAction::Cancel | ExitAction::CopyOnly => 0,
            ExitAction::Paste => EXIT_CODE_PASTE,
            ExitAction::PasteAndEnter => EXIT_CODE_PASTE_AND_ENTER,
            ExitAction::PasteAndSpace => EXIT_CODE_PASTE_AND_SPACE,
        }
    }

    /// Whether the text is pasted into the pane as well as copied.
    pub fn should_paste(self) -> (b: bool)
        ensures
            b == self.pastes(),
    {
        match self {
            ExitAction::Paste | ExitAction::PasteAndEnter | ExitAction::PasteAndSpace => true,
            _ => false,
        }
    }

    /// The key to send after pasting, if any.
    pub fn forward_key(self) -> (k: Option<ForwardKey>)
        ensures
            k == self.key_of(),
    {
        match self {
            ExitAction::PasteAndEnter => Some(ForwardKey::Enter),
            ExitAction::PasteAndSpace => Some(ForwardKey::Space),
            _ => None,
        }
    }

    /// The action that an exit status stands for; anything unknown (a killed
    /// popup included) copies only.
    pub fn from_exit_code(code: Option<i32>) -> (a: Self)
        ensures
            a == Self::from_code(code),
    {
        match code {
            Some(c) => {
                if c == EXIT_CODE_PASTE {
                    ExitAction::Paste
                } else if c == EXIT_CODE_PASTE_AND_ENTER {
                    ExitAction::PasteAndEnter
                } else if c == EXIT_CODE_PASTE_AND_SPACE {
                    ExitAction::PasteAndSpace
                } else {
                    ExitAction::CopyOnly
                }
            },
            None => ExitAction::CopyOnly,
        }
    }
}

/// An action survives the trip through the exit status, except that a cancel
/// reads back as copy-only (both exit with status 0).
pub proof fn lemma_exit_code_roundtrip(a: ExitAction)
    ensures
        ExitAction::from_code(Some(a.code_of())) == (if a is Cancel {
            ExitAction::CopyOnly
        } else {
            a
        }),
{
}

/// An action pastes exactly when its exit status is not 0, and only a pasting
/// action forwards a key.
pub proof fn lemma_exit_code_pastes(a: ExitAction)
    ensures
        a.pastes() <==> a.code_of() != 0,
        a.key_of() is Some ==> a.pastes(),
{
}

/// The geometry of a tmux pane, as `display-message` reports it.
#[derive(Clone, Copy, Debug)]
pub struct PaneDimensions {
    pub left: i32,
    pub top: i32,
    pub bottom: i32,
    pub width: i32,
    pub height: i32,
}

/// Where the popup goes: over the pane, or just below its top border when the
/// pane is not at the top of the window.
pub fn calculate_popup_position(dimensions: &PaneDimensions) -> (r: (i32, i32, i32, i32))
    requires
        dimensions.top != 0 ==> dimensions.bottom < i32::MAX,
    ensures
        r == (
            dimensions.left,
            if dimensions.top == 0 {
                dimensions.top as int
            } else {
                dimensions.bottom + 1
            } as i32,
            dimensions.width,
            dimensions.height,
        ),
{
    let y = if dimensions.top == 0 {
        dimensions.top
    } else {
        dimensions.bottom + 1
    };
    (dimensions.left, y, dimensions.width, dimensions.height)
}

/// A tmux invocation: the arguments that follow `tmux`.
pub struct TmuxCommand {
    pub args: Vec<String>,
}

impl TmuxCommand {
    pub open spec fn args_view(&self) -> Seq<Seq<char>> {
        strings_view(self.args@)
    }
}

/// How the output of a tmux command is trimmed.
#[derive(Copy, Clone, Debug, PartialEq, Eq, Structural)]
pub enum TrimMode {
    Trim,
    TrimNewlines,
    Untrimmed,
}

/// A tmux command whose output is read, and how that output is trimmed.
pub struct TmuxQuery {
    pub command: TmuxCommand,
    pub trim: TrimMode,
}

/// What running a tmux command gave: it could not be started, or it exited
/// with this success flag and standard output.
pub enum CommandOutcome {
    SpawnFailed,
    Exited { success: bool, stdout: Vec<u8> },
}

/// Why reading the output of a tmux command failed.
#[derive(Copy, Clone, Debug, PartialEq, Eq, Structural)]
pub enum TmuxError {
    /// The command could not be run.
    Io,
    /// tmux exited with a failure status.
    CommandFailed,
}

/// The text that `String::from_utf8_lossy` makes of `bytes`.
pub uninterp spec fn utf8_lossy(bytes: Seq<u8>) -> Seq<char>;

/// Calls `String::from_utf8_lossy`.  Trusted: the result is the function's
/// value on `bytes`, and valid UTF-8 decodes unchanged; how invalid sequences
/// are replaced is left unsaid.
#[verifier::external_body]
fn from_utf8_lossy(bytes: &[u8]) -> (s: String)
    ensures
        s@ == utf8_lossy(bytes@),
        valid_utf8(bytes@) ==> s@ == decode_utf8(bytes@),
{
    String::from_utf8_lossy(bytes).into_owned()
}

/// `text` trimmed as `trim` asks.
pub open spec fn trimmed(trim: TrimMode, text: Seq<char>) -> Seq<char> {
    match trim {
        TrimMode::Trim => trim_spec(text),
        TrimMode::TrimNewlines => trim_end_newlines_spec(text),
        TrimMode::Untrimmed => text,
    }
}

/// The text a query yields for an outcome.
pub open spec fn query_output(trim: TrimMode, outcome: CommandOutcome) -> Result<
    Seq<char>,
    TmuxError,
> {
    match outcome {
        CommandOutcome::SpawnFailed => Err(TmuxError::Io),
        CommandOutcome::Exited { success, stdout } => if !success {
            Err(TmuxError::CommandFailed)
        } else {
            Ok(trimmed(trim, utf8_lossy(stdout@)))
        },
    }
}

/// The output of a tmux command, trimmed as asked; an error when tmux could
/// not be run or failed.
pub fn tmux_output_trim(trim_mode: TrimMode, outcome: &CommandOutcome) -> (r: Result<
    String,
    TmuxError,
>)
    ensures
        match (r, query_output(trim_mode, *outcome)) {
            (Ok(s), Ok(t)) => s@ == t,
            (Err(e1), Err(e2)) => e1 == e2,
            _ => false,
        },
        match *outcome {
            CommandOutcome::Exited { success, stdout } => success && valid_utf8(stdout@)
                ==> (r matches Ok(s) && s@ == trimmed(trim_mode, decode_utf8(stdout@))),
            CommandOutcome::SpawnFailed => true,
        },
{
    match outcome {
        CommandOutcome::SpawnFailed => Err(TmuxError::Io),
        CommandOutcome::Exited { success, stdout } => {
            if !*success {
                return Err(TmuxError::CommandFailed);
            }
            let text = from_utf8_lossy(stdout.as_slice());
            match trim_mode {
                TrimMode::Trim => {
                    let cs = chars_of(text.as_str());
                    Ok(string_from_chars(&trim(&cs)))
                },
                TrimMode::TrimNewlines => {
                    let cs = chars_of(text.as_str());
                    Ok(string_from_chars(&trim_end_newlines(&cs)))
                },
                TrimMode::Untrimmed => Ok(text),
            }
        },
    }
}

/// Whether a command that is run for its effect succeeded.
pub fn tmux_run_quiet(outcome: &CommandOutcome) -> (b: bool)
    ensures
        b == (*outcome matches CommandOutcome::Exited { success, .. } && success),
{
    match outcome {
        CommandOutcome::SpawnFailed => false,
        CommandOutcome::Exited { success, .. } => *success,
    }
}

/// A command made of the given arguments.
fn command_from(parts: &[&str]) -> (c: TmuxCommand)
    ensures
        c.args_view() == parts@.map_values(|p: &str| p@),
{
    let mut args: Vec<String> = Vec::new();
    let n = parts.len();
    for i in 0..n
        invariant
            n == parts@.len(),
            args@.len() == i,
            strings_view(args@) == parts@.take(i as int).map_values(|p: &str| p@),
    {
        let ghost before = args@;
        args.push(owned(parts[i]));
        proof {
            let lhs = strings_view(args@);
            let rhs = parts@.take(i + 1).map_values(|p: &str| p@);
            assert forall|k: int| 0 <= k < lhs.len() implies lhs[k] == rhs[k] by {
                if k < i {
                    assert(args@[k] == before[k]);
                    assert(strings_view(before)[k] == parts@.take(i as int).map_values(|p: &str| p@)[k]);
                }
            }
            assert(lhs =~= rhs);
        }
    }
    proof {
        assert(parts@.take(n as int) =~= parts@);
    }
    TmuxCommand { args }
}

/// The query for the id of the current pane.
pub fn get_tmux_pane_id() -> (q: TmuxQuery)
    ensures
        q.command.args_view() == seq!["display-message"@, "-p"@, "#{pane_id}"@],
        q.trim == TrimMode::Trim,
{
    let c = command_from(&["display-message", "-p", "#{pane_id}"]);
    proof {
        assert(c.args_view() =~= seq!["display-message"@, "-p"@, "#{pane_id}"@]);
    }
    TmuxQuery { command: c, trim: TrimMode::Trim }
}

/// The query for the pane's scroll position and height in copy mode.
pub fn copy_mode_line_range_query(pane_id: &str) -> (q: TmuxQuery)
    ensures
        q.command.args_view() == seq![
            "display-message"@,
            "-t"@,
            pane_id@,
            "-p"@,
            "#{scroll_position} #{pane_height}"@,
        ],
        q.trim == TrimMode::Trim,
{
    let c = command_from(&["display-message", "-t", pane_id, "-p", "#{scroll_position} #{pane_height}"]);
    proof {
        assert(c.args_view() =~= seq![
            "display-message"@,
            "-t"@,
            pane_id@,
            "-p"@,
            "#{scroll_position} #{pane_height}"@,
        ]);
    }
    TmuxQuery { command: c, trim: TrimMode::Trim }
}

/// The first two words of the reply parsed as numbers: the scroll position and
/// the pane height.
pub open spec fn scroll_and_height_spec(out: Result<Seq<char>, TmuxError>) -> Option<(i32, i32)> {
    match out {
        Ok(s) => {
            let w = words(s);
            if w.len() >= 2 && parse_i32_spec(w[0]) is Some && parse_i32_spec(w[1]) is Some {
                Some((parse_i32_spec(w[0]).unwrap(), parse_i32_spec(w[1]).unwrap()))
            } else {
                None
            }
        },
        Err(_) => None,
    }
}

pub open spec fn result_view(out: Result<String, TmuxError>) -> Result<Seq<char>, TmuxError> {
    match out {
        Ok(s) => Ok(s@),
        Err(e) => Err(e),
    }
}

/// Reads the scroll position and pane height from the reply to
/// `copy_mode_line_range_query`.
pub fn scroll_and_height(out: &Result<String, TmuxError>) -> (r: Option<(i32, i32)>)
    ensures
        r == scroll_and_height_spec(result_view(*out)),
{
    match out {
        Ok(s) => {
            let cs = chars_of(s.as_str());
            let w = split_whitespace(&cs);
            if w.len() < 2 {
                return None;
            }
            let scroll = parse_i32(&w[0]);
            let height = parse_i32(&w[1]);
            match (scroll, height) {
                (Some(a), Some(b)) => Some((a, b)),
                _ => None,
            }
        },
        Err(_) => None,
    }
}

/// The visible part of the scrolled pane, as `capture-pane` start and end
/// lines: `-scroll` and `-scroll + height - 1`.
pub open spec fn line_range_spec(scroll: i32, height: i32) -> (Seq<char>, Seq<char>) {
    (int_decimal(-scroll), int_decimal(-scroll + height - 1))
}

/// The line range to capture in copy mode, from the reply to
/// `copy_mode_line_range_query`; `None` when the reply is not two numbers.
pub fn copy_mode_line_range(out: &Result<String, TmuxError>) -> (r: Option<(String, String)>)
    requires
        scroll_and_height_spec(result_view(*out)) matches Some((scroll, height)) ==> {
            &&& scroll != i32::MIN
            &&& i32::MIN <= -scroll + height - 1 <= i32::MAX
            &&& i32::MIN <= -scroll + height <= i32::MAX
        },
    ensures
        match scroll_and_height_spec(result_view(*out)) {
            Some((scroll, height)) => r matches Some((a, b)) && (a@, b@) == line_range_spec(
                scroll,
                height,
            ),
            None => r is None,
        },
{
    match scroll_and_height(out) {
        Some((scroll, height)) => {
            let start = -scroll;
            let end = -scroll + height - 1;
            Some((string_from_chars(&format_i32(start)), string_from_chars(&format_i32(end))))
        },
        None => None,
    }
}

/// The query that captures the pane's text: the visible lines of the scrolled
/// pane when a copy-mode range is known, the pane's current screen otherwise.
pub fn capture_pane(pane_id: &str, copy_mode: bool, range: Option<(String, String)>) -> (q: TmuxQuery)
    ensures
        q.trim == TrimMode::Untrimmed,
        match (copy_mode, range) {
            (true, Some((start, end))) => q.command.args_view() == seq![
                "capture-pane"@,
                "-p"@,
                "-J"@,
                "-S"@,
                start@,
                "-E"@,
                end@,
                "-t"@,
                pane_id@,
            ],
            _ => q.command.args_view() == seq!["capture-pane"@, "-p"@, "-J"@, "-t"@, pane_id@],
        },
{
    if copy_mode {
        if let Some((start, end)) = range {
            let c = command_from(
                &["capture-pane", "-p", "-J", "-S", start.as_str(), "-E", end.as_str(), "-t", pane_id],
            );
            proof {
                assert(c.args_view() =~= seq![
                    "capture-pane"@,
                    "-p"@,
                    "-J"@,
                    "-S"@,
                    start@,
                    "-E"@,
                    end@,
                    "-t"@,
                    pane_id@,
                ]);
            }
            return TmuxQuery { command: c, trim: TrimMode::Untrimmed };
        }
    }
    let c = command_from(&["capture-pane", "-p", "-J", "-t", pane_id]);
    proof {
        assert(c.args_view() =~= seq!["capture-pane"@, "-p"@, "-J"@, "-t"@, pane_id@]);
    }
    TmuxQuery { command: c, trim: TrimMode::Untrimmed }
}

/// The query for the pane's geometry.
pub fn get_pane_dimensions_query(pane_id: &str) -> (q: TmuxQuery)
    ensures
        q.command.args_view() == seq![
            "display-message"@,
            "-t"@,
            pane_id@,
            "-p"@,
            "#{pane_left} #{pane_top} #{pane_right} #{pane_bottom} #{pane_width} #{pane_height}"@,
        ],
        q.trim == TrimMode::Trim,
{
    let c = command_from(
        &[
            "display-message",
            "-t",
            pane_id,
            "-p",
            "#{pane_left} #{pane_top} #{pane_right} #{pane_bottom} #{pane_width} #{pane_height}",
        ],
    );
    proof {
        assert(c.args_view() =~= seq![
            "display-message"@,
            "-t"@,
            pane_id@,
            "-p"@,
            "#{pane_left} #{pane_top} #{pane_right} #{pane_bottom} #{pane_width} #{pane_height}"@,
        ]);
    }
    TmuxQuery { command: c, trim: TrimMode::Trim }
}

/// The numbers among `ws`, in order; words that do not parse are skipped.
pub open spec fn parsed_numbers(ws: Seq<Seq<char>>) -> Seq<i32>
    decreases ws.len(),
{
    if ws.len() == 0 {
        Seq::empty()
    } else {
        let rest = parsed_numbers(ws.drop_last());
        match parse_i32_spec(ws.last()) {
            Some(v) => rest.push(v),
            None => rest,
        }
    }
}

/// The pane geometry from the reply to `get_pane_dimensions_query`: exactly
/// six numbers are expected (left, top, right, bottom, width, height).
pub open spec fn pane_dimensions_spec(out: Result<Seq<char>, TmuxError>) -> Option<PaneDimensions> {
    match out {
        Ok(s) => {
            let p = parsed_numbers(words(s));
            if p.len() == 6 {
                Some(PaneDimensions { left: p[0], top: p[1], bottom: p[3], width: p[4], height: p[5] })
            } else {
                None
            }
        },
        Err(_) => None,
    }
}

/// Reads the pane geometry from the reply to `get_pane_dimensions_query`.
pub fn get_pane_dimensions(out: &Result<String, TmuxError>) -> (r: Option<PaneDimensions>)
    ensures
        r == pane_dimensions_spec(result_view(*out)),
{
    match out {
        Ok(s) => {
            let cs = chars_of(s.as_str());
            let w = split_whitespace(&cs);
            let ghost ws = words(cs@);
            let mut parts: Vec<i32> = Vec::new();
            let n = w.len();
            for i in 0..n
                invariant
                    n == w@.len() == ws.len(),
                    ws == words(s@),
                    forall|k: int| 0 <= k < n ==> (#[trigger] w@[k])@ == ws[k],
                    parts@ == parsed_numbers(ws.take(i as int)),
            {
                proof {
                    assert(ws.take(i + 1).drop_last() =~= ws.take(i as int));
                    assert(ws.take(i + 1).last() == ws[i as int]);
                }
                match parse_i32(&w[i]) {
                    Some(v) => parts.push(v),
                    None => {},
                }
            }
            proof {
                assert(ws.take(n as int) =~= ws);
            }
            if parts.len() != 6 {
                return None;
            }
            Some(
                PaneDimensions {
                    left: parts[0],
                    top: parts[1],
                    bottom: parts[3],
                    width: parts[4],
                    height: parts[5],
                },
            )
        },
        Err(_) => None,
    }
}

/// The query for the pane's mode.
pub fn is_in_copy_mode_query(pane_id: &str) -> (q: TmuxQuery)
    ensures
        q.command.args_view() == seq!["display-message"@, "-t"@, pane_id@, "-p"@, "#{pane_mode}"@],
        q.trim == TrimMode::Trim,
{
    let c = command_from(&["display-message", "-t", pane_id, "-p", "#{pane_mode}"]);
    proof {
        assert(c.args_view() =~= seq![
            "display-message"@,
            "-t"@,
            pane_id@,
            "-p"@,
            "#{pane_mode}"@,
        ]);
    }
    TmuxQuery { command: c, trim: TrimMode::Trim }
}

/// Whether the reply to `is_in_copy_mode_query` says copy mode; a failed
/// query says no.
pub fn is_in_copy_mode(out: &Result<String, TmuxError>) -> (b: bool)
    ensures
        b == (result_view(*out) matches Ok(s) && s == "copy-mode"@),
{
    match out {
        Ok(s) => str_eq(s.as_str(), "copy-mode"),
        Err(_) => false,
    }
}

/// The command that leaves copy mode.
pub fn exit_copy_mode(pane_id: &str) -> (c: TmuxCommand)
    ensures
        c.args_view() == seq!["copy-mode"@, "-q"@, "-t"@, pane_id@],
{
    let c = command_from(&["copy-mode", "-q", "-t", pane_id]);
    proof {
        assert(c.args_view() =~= seq!["copy-mode"@, "-q"@, "-t"@, pane_id@]);
    }
    c
}

pub open spec fn pane_content_buffer_name_spec(pane_id: Seq<char>) -> Seq<char> {
    "__flash_copy_pane_content_"@ + pane_id + "__"@
}

pub open spec fn result_buffer_name_spec(pane_id: Seq<char>) -> Seq<char> {
    "__flash_copy_result_"@ + pane_id + "__"@
}

fn pane_content_buffer_name(pane_id: &str) -> (s: String)
    ensures
        s@ == pane_content_buffer_name_spec(pane_id@),
{
    let mut s = owned("__flash_copy_pane_content_");
    push_str(&mut s, pane_id);
    push_str(&mut s, "__");
    s
}

fn result_buffer_name(pane_id: &str) -> (s: String)
    ensures
        s@ == result_buffer_name_spec(pane_id@),
{
    let mut s = owned("__flash_copy_result_");
    push_str(&mut s, pane_id);
    push_str(&mut s, "__");
    s
}

/// The query that reads a buffer as it is.
pub fn read_buffer_raw(buffer_name: &str) -> (q: TmuxQuery)
    ensures
        q.command.args_view() == seq!["show-buffer"@, "-b"@, buffer_name@],
        q.trim == TrimMode::Untrimmed,
{
    let c = command_from(&["show-buffer", "-b", buffer_name]);
    proof {
        assert(c.args_view() =~= seq!["show-buffer"@, "-b"@, buffer_name@]);
    }
    TmuxQuery { command: c, trim: TrimMode::Untrimmed }
}

/// The query that reads a buffer without its trailing line breaks.
fn read_buffer_trimmed(buffer_name: &str) -> (q: TmuxQuery)
    ensures
        q.command.args_view() == seq!["show-buffer"@, "-b"@, buffer_name@],
        q.trim == TrimMode::TrimNewlines,
{
    let c = command_from(&["show-buffer", "-b", buffer_name]);
    proof {
        assert(c.args_view() =~= seq!["show-buffer"@, "-b"@, buffer_name@]);
    }
    TmuxQuery { command: c, trim: TrimMode::TrimNewlines }
}

fn write_buffer(buffer_name: &str, text: &str) -> (c: TmuxCommand)
    ensures
        c.args_view() == seq!["set-buffer"@, "-b"@, buffer_name@, "--"@, text@],
{
    let c = command_from(&["set-buffer", "-b", buffer_name, "--", text]);
    proof {
        assert(c.args_view() =~= seq!["set-buffer"@, "-b"@, buffer_name@, "--"@, text@]);
    }
    c
}

fn delete_buffer(buffer_name: &str) -> (c: TmuxCommand)
    ensures
        c.args_view() == seq!["delete-buffer"@, "-b"@, buffer_name@],
{
    let c = command_from(&["delete-buffer", "-b", buffer_name]);
    proof {
        assert(c.args_view() =~= seq!["delete-buffer"@, "-b"@, buffer_name@]);
    }
    c
}

fn paste_buffer(buffer_name: &str, pane_id: &str) -> (c: TmuxCommand)
    ensures
        c.args_view() == seq!["paste-buffer"@, "-b"@, buffer_name@, "-t"@, pane_id@],
{
    let c = command_from(&["paste-buffer", "-b", buffer_name, "-t", pane_id]);
    proof {
        assert(c.args_view() =~= seq!["paste-buffer"@, "-b"@, buffer_name@, "-t"@, pane_id@]);
    }
    c
}

pub open spec fn key_name(key: ForwardKey) -> Seq<char> {
    match key {
        ForwardKey::Enter => "Enter"@,
        ForwardKey::Space => "Space"@,
    }
}

fn send_keys(pane_id: &str, key: ForwardKey) -> (c: TmuxCommand)
    ensures
        c.args_view() == seq!["send-keys"@, "-t"@, pane_id@, key_name(key)],
{
    let key_name = match key {
        ForwardKey::Enter => "Enter",
        ForwardKey::Space => "Space",
    };
    let c = command_from(&["send-keys", "-t", pane_id, key_name]);
    proof {
        assert(c.args_view() =~= seq!["send-keys"@, "-t"@, pane_id@, key_name@]);
    }
    c
}

/// The command that stores the captured pane text for the popup.
pub fn write_pane_content_buffer(pane_id: &str, content: &str) -> (c: TmuxCommand)
    ensures
        c.args_view() == seq![
            "set-buffer"@,
            "-b"@,
            pane_content_buffer_name_spec(pane_id@),
            "--"@,
            content@,
        ],
{
    let buffer = pane_content_buffer_name(pane_id);
    write_buffer(buffer.as_str(), content)
}

/// The query that reads the captured pane text back.
pub fn read_pane_content_buffer(pane_id: &str) -> (q: TmuxQuery)
    ensures
        q.command.args_view() == seq!["show-buffer"@, "-b"@, pane_content_buffer_name_spec(pane_id@)],
        q.trim == TrimMode::Untrimmed,
{
    let buffer = pane_content_buffer_name(pane_id);
    read_buffer_raw(buffer.as_str())
}

/// The command that stores the picked text for the parent process.
pub fn write_result_buffer(pane_id: &str, text: &str) -> (c: TmuxCommand)
    ensures
        c.args_view() == seq![
            "set-buffer"@,
            "-b"@,
            result_buffer_name_spec(pane_id@),
            "--"@,
            text@,
        ],
{
    let buffer = result_buffer_name(pane_id);
    write_buffer(buffer.as_str(), text)
}

/// The query that reads the picked text back, without trailing line breaks.
pub fn read_result_buffer(pane_id: &str) -> (q: TmuxQuery)
    ensures
        q.command.args_view() == seq!["show-buffer"@, "-b"@, result_buffer_name_spec(pane_id@)],
        q.trim == TrimMode::TrimNewlines,
{
    let buffer = result_buffer_name(pane_id);
    read_buffer_trimmed(buffer.as_str())
}

/// Text survives the trip through a tmux buffer.  `write_pane_content_buffer`
/// and `read_pane_content_buffer` name the same buffer, and so do
/// `write_result_buffer` and `read_result_buffer`.  When tmux prints back the
/// bytes that `set-buffer` stored, which are the UTF-8 encoding of the text,
/// `tmux_output_trim` reads them as valid UTF-8: the pane content comes back
/// unchanged (its query does not trim), and the picked text comes back
/// without its trailing line breaks (its query trims those only).
pub proof fn lemma_buffer_roundtrip(text: Seq<char>)
    ensures
        valid_utf8(encode_utf8(text)),
        trimmed(TrimMode::Untrimmed, decode_utf8(encode_utf8(text))) == text,
        trimmed(TrimMode::TrimNewlines, decode_utf8(encode_utf8(text)))
            == trim_end_newlines_spec(text),
{
    encode_utf8_valid_utf8(text);
    encode_utf8_decode_utf8(text);
}

/// What the picker handed back to the parent.
pub struct Pick {
    pub text: String,
    pub action: ExitAction,
    /// The pane is in copy mode and the text is pasted, so copy mode is left
    /// first.
    pub leave_copy_mode: bool,
}

/// Reads the picker's result once the popup has closed: nothing when the
/// result buffer could not be read or is empty; otherwise its text, the action
/// that the popup's exit status stands for, and whether copy mode is left
/// before pasting.
pub fn read_pick(result: &Result<String, TmuxError>, status: Option<i32>, in_copy_mode: bool) -> (r:
    Option<Pick>)
    ensures
        match result_view(*result) {
            Ok(text) => if text.len() > 0 {
                r matches Some(p) && p.text@ == text && p.action == ExitAction::from_code(status)
                    && p.leave_copy_mode == (in_copy_mode && p.action.pastes())
            } else {
                r is None
            },
            Err(_) => r is None,
        },
{
    match result {
        Ok(text) => {
            if text.as_str().is_empty() {
                return None;
            }
            let action = ExitAction::from_exit_code(status);
            let leave_copy_mode = in_copy_mode && action.should_paste();
            Some(Pick { text: text.clone(), action, leave_copy_mode })
        },
        Err(_) => None,
    }
}

/// The commands that delete the two buffers of a pane: the result buffer
/// first, then the pane-content buffer.  Both are run; the deletion succeeded
/// when both did.
pub fn delete_buffers(pane_id: &str) -> (r: (TmuxCommand, TmuxCommand))
    ensures
        r.0.args_view() == seq!["delete-buffer"@, "-b"@, result_buffer_name_spec(pane_id@)],
        r.1.args_view() == seq!["delete-buffer"@, "-b"@, pane_content_buffer_name_spec(pane_id@)],
{
    let result = delete_buffer(result_buffer_name(pane_id).as_str());
    let pane = delete_buffer(pane_content_buffer_name(pane_id).as_str());
    (result, pane)
}

/// The system clipboard, reached through tmux.
pub struct Clipboard;

impl Clipboard {
    /// The command that puts `text` in a tmux buffer and the clipboard (OSC 52).
    pub fn copy(text: &str) -> (c: TmuxCommand)
        ensures
            c.args_view() == seq!["set-buffer"@, "-w"@, "--"@, text@],
    {
        let c = command_from(&["set-buffer", "-w", "--", text]);
        proof {
            assert(c.args_view() =~= seq!["set-buffer"@, "-w"@, "--"@, text@]);
        }
        c
    }

    /// The message shown when copying failed.
    pub fn copy_failure_notice() -> (c: TmuxCommand)
        ensures
            c.args_view() == seq![
                "display-message"@,
                "flash.tmux: failed to copy to clipboard (OSC52)"@,
            ],
    {
        let c = command_from(&["display-message", "flash.tmux: failed to copy to clipboard (OSC52)"]);
        proof {
            assert(c.args_view() =~= seq![
                "display-message"@,
                "flash.tmux: failed to copy to clipboard (OSC52)"@,
            ]);
        }
        c
    }

    /// What follows the copy of `text`: nothing when the copy failed or no
    /// paste is wanted; otherwise the text goes to a paste buffer, is pasted
    /// into the pane, and the forwarded key, if any, is sent.
    pub fn copy_and_paste(
        text: &str,
        pane_id: &str,
        auto_paste: bool,
        forward_key: Option<ForwardKey>,
        copied: bool,
    ) -> (r: Vec<TmuxCommand>)
        ensures
            !copied || !auto_paste ==> r@.len() == 0,
            copied && auto_paste ==> {
                &&& r@.len() == if forward_key is Some {
                    3int
                } else {
                    2int
                }
                &&& r@[0].args_view() == seq!["set-buffer"@, "-b"@, "flash-paste"@, "--"@, text@]
                &&& r@[1].args_view() == seq!["paste-buffer"@, "-b"@, "flash-paste"@, "-t"@, pane_id@]
                &&& forward_key matches Some(k) ==> r@[2].args_view() == seq![
                    "send-keys"@,
                    "-t"@,
                    pane_id@,
                    key_name(k),
                ]
            },
    {
        let mut r: Vec<TmuxCommand> = Vec::new();
        if !copied {
            return r;
        }
        if auto_paste {
            r.push(write_buffer("flash-paste", text));
            r.push(paste_buffer("flash-paste", pane_id));
            if let Some(key) = forward_key {
                r.push(send_keys(pane_id, key));
            }
        }
        r
    }
}

/// The command that opens the picker in a popup over the pane: at the
/// position `calculate_popup_position` gives, running `exe` in interactive mode
/// for `pane_id`.
pub fn popup_command(dimensions: &PaneDimensions, exe: &str, pane_id: &str) -> (c: TmuxCommand)
    requires
        dimensions.top != 0 ==> dimensions.bottom < i32::MAX,
    ensures
        ({
            let y = if dimensions.top == 0 {
                dimensions.top as int
            } else {
                dimensions.bottom + 1
            };
            c.args_view() == seq![
                "display-popup"@,
                "-E"@,
                "-B"@,
                "-x"@,
                int_decimal(dimensions.left as int),
                "-y"@,
                int_decimal(y),
                "-w"@,
                int_decimal(dimensions.width as int),
                "-h"@,
                int_decimal(dimensions.height as int),
                exe@,
                "--interactive"@,
                "--pane-id"@,
                pane_id@,
            ]
        }),
{
    let (x, y, w, h) = calculate_popup_position(dimensions);
    let xs = string_from_chars(&format_i32(x));
    let ys = string_from_chars(&format_i32(y));
    let ws = string_from_chars(&format_i32(w));
    let hs = string_from_chars(&format_i32(h));
    let c = command_from(
        &[
            "display-popup",
            "-E",
            "-B",
            "-x",
            xs.as_str(),
            "-y",
            ys.as_str(),
            "-w",
            ws.as_str(),
            "-h",
            hs.as_str(),
            exe,
            "--interactive",
            "--pane-id",
            pane_id,
        ],
    );
    proof {
        assert(c.args_view() =~= seq![
            "display-popup"@,
            "-E"@,
            "-B"@,
            "-x"@,
            xs@,
            "-y"@,
            ys@,
            "-w"@,
            ws@,
            "-h"@,
            hs@,
            exe@,
            "--interactive"@,
            "--pane-id"@,
            pane_id@,
        ]);
    }
    c
}

} // verus!

verus! {

/// The key forwarded after a paste is sent by its own tmux name: Enter as
/// `Enter` and Space as `Space`, so the two never send the same key; and an
/// action forwards Enter exactly when it is paste-and-Enter, Space exactly
/// when it is paste-and-Space.
pub proof fn lemma_forwarded_key_names(key: ForwardKey, a: ExitAction)
    ensures
        key_name(key) == (if key is Enter {
            "Enter"@
        } else {
            "Space"@
        }),
        key_name(ForwardKey::Enter) != key_name(ForwardKey::Space),
        a.key_of() == Some(ForwardKey::Enter) <==> a is PasteAndEnter,
        a.key_of() == Some(ForwardKey::Space) <==> a is PasteAndSpace,
{
    reveal_strlit("Enter");
    reveal_strlit("Space");
    assert(key_name(ForwardKey::Enter)[0] != key_name(ForwardKey::Space)[0]);
}

} // verus!
