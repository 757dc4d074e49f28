//! The text form of a block state, `name[key=value,...]`, as the
//! palette-based container format uses it for the names of its palette.

use crate::block_state::{BlockState, BlockStateView};
use crate::string_map::StringMap;
use crate::text::{find_char, next_index, to_chars};
use vstd::prelude::*;

verus! {

/// Whether `c` is white space: one of the 25 characters that Unicode
/// gives the property `White_Space`.
pub open spec fn is_space(c: char) -> bool {
    c == '\u{9}' || c == '\u{a}' || c == '\u{b}' || c == '\u{c}' || c == '\u{d}' || c == ' ' || c
        == '\u{85}' || c == '\u{a0}' || c == '\u{1680}' || c == '\u{2000}' || c == '\u{2001}' || c
        == '\u{2002}' || c == '\u{2003}' || c == '\u{2004}' || c == '\u{2005}' || c == '\u{2006}'
        || c == '\u{2007}' || c == '\u{2008}' || c == '\u{2009}' || c == '\u{200a}' || c
        == '\u{2028}' || c == '\u{2029}' || c == '\u{202f}' || c == '\u{205f}' || c == '\u{3000}'
}

/// Whether `c` is white space.
pub fn is_whitespace(c: char) -> (r: bool)
    ensures
        r == is_space(c),
{
    c == '\u{9}' || c == '\u{a}' || c == '\u{b}' || c == '\u{c}' || c == '\u{d}' || c == ' ' || c
        == '\u{85}' || c == '\u{a0}' || c == '\u{1680}' || c == '\u{2000}' || c == '\u{2001}' || c
        == '\u{2002}' || c == '\u{2003}' || c == '\u{2004}' || c == '\u{2005}' || c == '\u{2006}'
        || c == '\u{2007}' || c == '\u{2008}' || c == '\u{2009}' || c == '\u{200a}' || c
        == '\u{2028}' || c == '\u{2029}' || c == '\u{202f}' || c == '\u{205f}' || c == '\u{3000}'
}

/// Where `s[from..to]` begins once the white space at its start is left
/// out.
pub open spec fn trim_start_index(s: Seq<char>, from: int, to: int) -> int
    decreases to - from,
{
    if from < to && is_space(s[from]) {
        trim_start_index(s, from + 1, to)
    } else {
        from
    }
}

/// Where `s[from..to]` ends once the white space at its end is left out.
pub open spec fn trim_end_index(s: Seq<char>, from: int, to: int) -> int
    decreases to - from,
{
    if from < to && is_space(s[to - 1]) {
        trim_end_index(s, from, to - 1)
    } else {
        to
    }
}

/// `s[from..to]` without the white space at its start and at its end.
pub open spec fn trimmed(s: Seq<char>, from: int, to: int) -> Seq<char> {
    s.subrange(
        trim_start_index(s, from, to),
        trim_end_index(s, trim_start_index(s, from, to), to),
    )
}

/// Where `s[from..to]` ends once every `c` at its end is left out.
pub open spec fn strip_end_index(s: Seq<char>, from: int, to: int, c: char) -> int
    decreases to - from,
{
    if from < to && s[to - 1] == c {
        strip_end_index(s, from, to - 1, c)
    } else {
        to
    }
}

/// The property that the piece `s[from..to]` gives: what stands before
/// its first `=` as the key and what stands after it as the value, both
/// trimmed; nothing when the piece holds no `=`.
pub open spec fn property_of(s: Seq<char>, from: int, to: int) -> Option<(Seq<char>, Seq<char>)> {
    let eq = next_index(s, from, to, '=');
    if eq >= to {
        None
    } else {
        Some((trimmed(s, from, eq), trimmed(s, eq + 1, to)))
    }
}

/// `properties` with the properties that the pieces of `s[from..to]`
/// give, the pieces being what stands between its commas; a later piece
/// replaces an earlier one with the same key.
pub open spec fn properties_of(
    s: Seq<char>,
    from: int,
    to: int,
    properties: Map<Seq<char>, Seq<char>>,
) -> Map<Seq<char>, Seq<char>>
    decreases to - from,
{
    if from > to {
        properties
    } else {
        let comma = next_index(s, from, to, ',');
        let with_piece = match property_of(s, from, comma) {
            Some((k, v)) => properties.insert(k, v),
            None => properties,
        };
        if comma >= to || comma < from {
            with_piece
        } else {
            properties_of(s, comma + 1, to, with_piece)
        }
    }
}

/// The block state that the text `s` stands for. Without a `[` the whole
/// text is the name. Otherwise the name is what stands before the first
/// `[`, and the properties are given by what follows it, without the `]`
/// at the end.
pub open spec fn block_state_of_text(s: Seq<char>) -> BlockStateView {
    let open = next_index(s, 0, s.len() as int, '[');
    if open >= s.len() {
        BlockStateView { name: s, properties: Map::empty() }
    } else {
        BlockStateView {
            name: s.subrange(0, open),
            properties: properties_of(
                s,
                open + 1,
                strip_end_index(s, open + 1, s.len() as int, ']'),
                Map::empty(),
            ),
        }
    }
}

/// The bounds of `chars[from..to]` without the white space at its start
/// and at its end.
pub fn trim_range(chars: &Vec<char>, from: usize, to: usize) -> (r: (usize, usize))
    requires
        from <= to <= chars.len(),
    ensures
        r.0 == trim_start_index(chars@, from as int, to as int),
        r.1 == trim_end_index(chars@, r.0 as int, to as int),
        from <= r.0 <= r.1 <= to,
{
    let mut start: usize = from;
    while start < to && is_whitespace(chars[start])
        invariant
            from <= start <= to,
            to <= chars.len(),
            trim_start_index(chars@, from as int, to as int) == trim_start_index(
                chars@,
                start as int,
                to as int,
            ),
        decreases to - start,
    {
        start += 1;
    }
    let mut end: usize = to;
    while start < end && is_whitespace(chars[end - 1])
        invariant
            start <= end <= to,
            to <= chars.len(),
            trim_end_index(chars@, start as int, to as int) == trim_end_index(
                chars@,
                start as int,
                end as int,
            ),
        decreases end - start,
    {
        end -= 1;
    }
    (start, end)
}

/// Where `chars[from..to]` ends once every `c` at its end is left out.
pub fn strip_end(chars: &Vec<char>, from: usize, to: usize, c: char) -> (r: usize)
    requires
        from <= to <= chars.len(),
    ensures
        r == strip_end_index(chars@, from as int, to as int, c),
        from <= r <= to,
{
    let mut end: usize = to;
    while from < end && chars[end - 1] == c
        invariant
            from <= end <= to,
            to <= chars.len(),
            strip_end_index(chars@, from as int, to as int, c) == strip_end_index(
                chars@,
                from as int,
                end as int,
                c,
            ),
        decreases end - from,
    {
        end -= 1;
    }
    end
}

/// The block state that the text `input` stands for.
pub fn parse_block_state(input: &str) -> (r: BlockState)
    ensures
        r@ == block_state_of_text(input@),
{
    let chars = to_chars(input);
    let n = chars.len();
    let open = find_char(&chars, 0, n, '[');
    if open >= n {
        return BlockState::new(input.to_string());
    }
    let name = input.substring_char(0, open).to_string();
    let end = strip_end(&chars, open + 1, n, ']');
    let mut properties = StringMap::new();
    let mut from: usize = open + 1;
    let mut done = false;
    while !done
        invariant
            open + 1 <= from <= end,
            end <= n,
            n == chars.len(),
            chars@ == input@,
            !done ==> properties_of(chars@, open + 1, end as int, Map::empty()) == properties_of(
                chars@,
                from as int,
                end as int,
                properties@,
            ),
            done ==> properties_of(chars@, open + 1, end as int, Map::empty()) == properties@,
        decreases
                if done {
                    0
                } else {
                    end + 1 - from
                },
    {
        let comma = find_char(&chars, from, end, ',');
        let eq = find_char(&chars, from, comma, '=');
        if eq < comma {
            let (key_from, key_to) = trim_range(&chars, from, eq);
            let (value_from, value_to) = trim_range(&chars, eq + 1, comma);
            properties.insert(
                input.substring_char(key_from, key_to).to_string(),
                input.substring_char(value_from, value_to).to_string(),
            );
        }
        if comma >= end {
            done = true;
        } else {
            from = comma + 1;
        }
    }
    BlockState { name, properties }
}

} // verus!
