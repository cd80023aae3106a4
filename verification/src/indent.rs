//! Laying a markup text out, one tag on each line.

use vstd::prelude::*;
use vstd::string::StringExecFns;
use crate::text::{push_char, to_chars};

verus! {

/// The indentation of depth `depth`: two spaces for each level, none below
/// the first.
pub open spec fn spaces(depth: int) -> Seq<char>
    decreases depth,
{
    if depth <= 0 {
        Seq::empty()
    } else {
        spaces(depth - 1) + "  "@
    }
}

/// The indented form of `s` from position `i` on, at depth `depth`. A `<`
/// that a `/` follows closes a tag: the depth falls by one, and the
/// indentation of the new depth stands before it. Any other `<` opens one:
/// the indentation stands before it, and the depth rises by one. A line
/// break follows every `>`.
pub open spec fn indent_from(s: Seq<char>, i: int, depth: int) -> Seq<char>
    decreases s.len() - i,
{
    if i < 0 || i >= s.len() {
        Seq::empty()
    } else if s[i] == '<' {
        if i + 1 < s.len() && s[i + 1] == '/' {
            spaces(depth - 1) + "</"@ + indent_from(s, i + 2, depth - 1)
        } else {
            spaces(depth) + "<"@ + indent_from(s, i + 1, depth + 1)
        }
    } else if s[i] == '>' {
        ">\n"@ + indent_from(s, i + 1, depth)
    } else {
        seq![s[i]] + indent_from(s, i + 1, depth)
    }
}

/// The indented form of a markup text.
pub open spec fn indented(s: Seq<char>) -> Seq<char> {
    indent_from(s, 0, 0)
}

/// Appends to `out` the indentation of depth `depth`.
fn write_spaces(out: &mut String, depth: i128)
    ensures
        final(out)@ == old(out)@ + spaces(depth as int),
{
    let ghost start = out@;
    let mut k: i128 = 0;
    assert(start + spaces(0) =~= start);
    if depth <= 0 {
        return ;
    }
    while k < depth
        invariant
            0 <= k <= depth,
            out@ == start + spaces(k as int),
        decreases depth - k,
    {
        out.append("  ");
        k += 1;
        assert(out@ =~= start + spaces(k as int));
    }
}

/// Lays a markup text out, one tag on each line: each tag is indented by
/// two spaces for each tag that is open around it, and a line break follows
/// every `>`.
pub fn indent(text: &str) -> (r: String)
    ensures
        r@ == indented(text@),
{
    let chars = to_chars(text);
    let mut r = String::new();
    let mut depth: i128 = 0;
    let mut i: usize = 0;
    assert(r@ + indent_from(chars@, 0, 0) =~= indented(text@));
    while i < chars.len()
        invariant
            chars@ == text@,
            0 <= i <= chars.len(),
            -(i as int) <= depth <= i as int,
            r@ + indent_from(chars@, i as int, depth as int) == indented(text@),
        decreases chars.len() - i,
    {
        let ghost held = r@;
        let c = chars[i];
        if c == '<' {
            if i + 1 < chars.len() && chars[i + 1] == '/' {
                depth -= 1;
                write_spaces(&mut r, depth);
                r.append("</");
                assert(r@ + indent_from(chars@, i + 2, depth as int) =~= held + indent_from(
                    chars@,
                    i as int,
                    depth + 1,
                ));
                i += 2;
            } else {
                write_spaces(&mut r, depth);
                r.append("<");
                depth += 1;
                assert(r@ + indent_from(chars@, i + 1, depth as int) =~= held + indent_from(
                    chars@,
                    i as int,
                    depth - 1,
                ));
                i += 1;
            }
        } else if c == '>' {
            r.append(">\n");
            assert(r@ + indent_from(chars@, i + 1, depth as int) =~= held + indent_from(
                chars@,
                i as int,
                depth as int,
            ));
            i += 1;
        } else {
            push_char(&mut r, c);
            assert(r@ + indent_from(chars@, i + 1, depth as int) =~= held + indent_from(
                chars@,
                i as int,
                depth as int,
            ));
            i += 1;
        }
    }
    assert(r@ + indent_from(chars@, i as int, depth as int) =~= r@);
    r
}

} // verus!
