//! Cleaning up language-model responses: reasoning sections are dropped,
//! and a JSON object is cut out of the surrounding text.
use vstd::prelude::*;
use crate::text::{chars_of, find_first, first_from, slice_exec, string_of, trim, trim_exec};
use crate::web::{remove_enclosed, strip_elements};

verus! {

/// `s` without one kind of enclosed section.
pub open spec fn without_section(s: Seq<char>, open: Seq<char>, close: Seq<char>) -> Seq<char> {
    strip_elements(s, open, close, s.len() + 1)
}

/// A response without its `<think>`, `<thinking>` and `<reasoning>`
/// sections, trimmed.
pub open spec fn without_reasoning(response: Seq<char>) -> Seq<char> {
    trim(
        without_section(
            without_section(
                without_section(response, "<think>"@, "</think>"@),
                "<thinking>"@,
                "</thinking>"@,
            ),
            "<reasoning>"@,
            "</reasoning>"@,
        ),
    )
}

/// Drops the reasoning sections of a response and trims it.
pub fn strip_thinking_tags(response: &str) -> (r: String)
    ensures
        r@ == without_reasoning(response@),
{
    let s = chars_of(response);
    let s = remove_enclosed(&s, &chars_of("<think>"), &chars_of("</think>"));
    let s = remove_enclosed(&s, &chars_of("<thinking>"), &chars_of("</thinking>"));
    let s = remove_enclosed(&s, &chars_of("<reasoning>"), &chars_of("</reasoning>"));
    string_of(&trim_exec(&s))
}

/// The end (exclusive) of the brace-balanced part that starts at `start`,
/// scanning from `j` with `depth` braces open.
pub open spec fn balanced_end(s: Seq<char>, j: int, depth: int) -> Option<int>
    decreases s.len() - j,
{
    if j < 0 || j >= s.len() {
        None
    } else {
        let d = if s[j] == '{' {
            depth + 1
        } else if s[j] == '}' {
            depth - 1
        } else {
            depth
        };
        if s[j] == '}' && d == 0 {
            Some(j + 1)
        } else {
            balanced_end(s, j + 1, d)
        }
    }
}

/// The JSON object of a response: from the first `{` to its matching `}`
/// once reasoning sections are dropped, or the whole cleaned response when
/// there is none.
pub open spec fn json_part(response: Seq<char>) -> Seq<char> {
    let c = without_reasoning(response);
    match first_from(c, "{"@, 0) {
        Some(a) => match balanced_end(c, a, 0) {
            Some(e) => c.subrange(a, e),
            None => c,
        },
        None => c,
    }
}

/// Cuts the JSON object out of a response.
pub fn extract_json_from_response(response: &str) -> (r: String)
    ensures
        r@ == json_part(response@),
{
    let cleaned = strip_thinking_tags(response);
    let c = chars_of(cleaned.as_str());
    proof {
        reveal_strlit("{");
    }
    match find_first(&c, &chars_of("{"), 0) {
        None => cleaned,
        Some(a) => {
            let mut depth: i128 = 0;
            let mut j: usize = a;
            while j < c.len()
                invariant
                    a <= j <= c.len(),
                    -(j as int) <= depth <= j as int,
                    c@ == without_reasoning(response@),
                    cleaned@ == c@,
                    first_from(c@, "{"@, 0) == Some(a as int),
                    balanced_end(c@, a as int, 0) == balanced_end(c@, j as int, depth as int),
                decreases c.len() - j,
            {
                let ch = c[j];
                if ch == '{' {
                    depth = depth + 1;
                } else if ch == '}' {
                    depth = depth - 1;
                    if depth == 0 {
                        assert(balanced_end(c@, j as int, depth as int + 1) == Some(j as int + 1));
                        assert(c@ == without_reasoning(response@));
                        let part = slice_exec(&c, a, j + 1);
                        return string_of(&part);
                    }
                }
                j += 1;
            }
            assert(balanced_end(c@, j as int, depth as int) is None);
            cleaned
        },
    }
}

} // verus!
