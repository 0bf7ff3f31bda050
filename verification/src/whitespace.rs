//! The separator that goes between two consecutive tokens of the output.
use vstd::prelude::*;
use vstd::string::StrSliceExecFns;

verus! {

/// Columns of indentation per nesting level.
pub const INDENT_WIDTH: usize = 2;

/// The widest indentation that is ever written, in columns.
pub const MAX_INDENT_WIDTH: usize = 120;

/// The line that follows `line`. Line numbers are 32-bit values, and the
/// line after the last one is line 0 again.
pub open spec fn next_line(line: u32) -> u32 {
    if line == u32::MAX {
        0
    } else {
        (line + 1) as u32
    }
}

/// `n` space characters.
pub open spec fn blanks(n: nat) -> Seq<char> {
    Seq::new(n, |i: int| ' ')
}

/// Columns of indentation at nesting level `indent`: two per level, and
/// never more than [`MAX_INDENT_WIDTH`].
pub open spec fn indent_columns(indent: nat) -> nat {
    if indent * 2 < 120 {
        indent * 2
    } else {
        120
    }
}

/// A line break followed by the indentation of level `indent`.
pub open spec fn line_break(indent: nat) -> Seq<char> {
    seq!['\n'] + blanks(indent_columns(indent))
}

/// A line break, one empty line, and the indentation of level `indent`.
pub open spec fn blank_line_break(indent: nat) -> Seq<char> {
    seq!['\n', '\n'] + blanks(indent_columns(indent))
}

/// Two tokens that both carry the force-break line number are never joined
/// by a space when the context asks for a break.
pub open spec fn must_break(current_line: u32, item_line: u32, break_new: bool) -> bool {
    break_new && current_line == item_line && current_line == u32::MAX
}

/// The separator between a token that ended on `current_line` and a token
/// that belongs on `item_line`, at nesting level `indent`.
///
/// - Both on the same line, which is not line 0: a single space, unless
///   [`must_break`] holds.
/// - Otherwise a line break with indentation, when the item sits on the
///   next line, or both lines are 0, or an empty line is not allowed.
/// - Otherwise an empty line in between.
pub open spec fn separator(
    current_line: u32,
    item_line: u32,
    indent: nat,
    break_new: bool,
    allow_empty_line: bool,
) -> Seq<char> {
    if current_line != 0 && current_line == item_line && !must_break(
        current_line,
        item_line,
        break_new,
    ) {
        seq![' ']
    } else if item_line == next_line(current_line) || (current_line == 0 && item_line == 0)
        || !allow_empty_line {
        line_break(indent)
    } else {
        blank_line_break(indent)
    }
}

/// The separator in front of a token on the line after `current_line` is a
/// plain line break, whatever the flags.
pub proof fn lemma_separator_next_line(
    current_line: u32,
    indent: nat,
    break_new: bool,
    allow_empty_line: bool,
)
    ensures
        separator(current_line, next_line(current_line), indent, break_new, allow_empty_line)
            == line_break(indent),
{
}

/// Every separator is a space, or starts with a line break; none is empty.
pub proof fn lemma_separator_head(
    current_line: u32,
    item_line: u32,
    indent: nat,
    break_new: bool,
    allow_empty_line: bool,
)
    ensures
        ({
            let s = separator(current_line, item_line, indent, break_new, allow_empty_line);
            s.len() > 0 && (s[0] == ' ' || s[0] == '\n')
        }),
{
}

/// Beyond the widest indentation a deeper level changes nothing.
pub proof fn lemma_separator_clamped(
    current_line: u32,
    item_line: u32,
    a: nat,
    b: nat,
    break_new: bool,
    allow_empty_line: bool,
)
    requires
        a >= 60,
        b >= 60,
    ensures
        separator(current_line, item_line, a, break_new, allow_empty_line) == separator(
            current_line,
            item_line,
            b,
            break_new,
            allow_empty_line,
        ),
{
}

/// Two line breaks followed by the widest indentation; every break with
/// indentation is a slice of it.
fn widest_break() -> (base: &'static str)
    ensures
        base@ == blank_line_break(60),
        base.is_ascii(),
{
    let base: &'static str =
        "\n\n                                                                                                                        ";
    proof {
        reveal_strlit(
            "\n\n                                                                                                                        ",
        );
        assert(base@.len() == 122);
        assert(base@[0] == '\n' && base@[1] == '\n');
        assert forall|i: int| 2 <= i < 122 implies base@[i] == ' ' by {}
        assert(base@ =~= blank_line_break(60));
    }
    base
}

/// Computes the whitespace between two tokens: see [`separator`].
pub fn make_whitespace(
    current_line: u32,
    item_line: u32,
    indent: usize,
    break_new: bool,
    allow_empty_line: bool,
) -> (ws: &'static str)
    ensures
        ws@ == separator(current_line, item_line, indent as nat, break_new, allow_empty_line),
{
    let must_break = break_new && current_line == item_line && current_line == u32::MAX;
    if current_line != 0 && current_line == item_line && !must_break {
        proof {
            reveal_strlit(" ");
        }
        let ws: &'static str = " ";
        assert(ws@ =~= seq![' ']);
        ws
    } else {
        let base = widest_break();
        let width = if indent < MAX_INDENT_WIDTH / INDENT_WIDTH {
            indent * INDENT_WIDTH
        } else {
            MAX_INDENT_WIDTH
        };
        assert(width == indent_columns(indent as nat));
        if current_line.wrapping_add(1) == item_line || (current_line == 0 && item_line == 0)
            || !allow_empty_line {
            let ws = base.substring_ascii(1, width + 2);
            assert(ws@ =~= line_break(indent as nat));
            ws
        } else {
            let ws = base.substring_ascii(0, width + 2);
            assert(ws@ =~= blank_line_break(indent as nat));
            ws
        }
    }
}

} // verus!
