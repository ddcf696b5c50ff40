//! The persistence codec: records as a pretty-printed JSON array of objects
//! with `command`, `description` and `tags` fields, and a parser for that
//! document, both specified exactly so that a save/load round trip is proved.

use vstd::prelude::*;
use vstd::string::*;

use crate::record::{Cmd, CmdView};
use crate::store::ConfigError;

verus! {

// ---------------------------------------------------------------------------
// Hexadecimal digits
// ---------------------------------------------------------------------------
/// The lower-case hexadecimal digit of a value below sixteen.
pub open spec fn hex_char(v: int) -> char {
    if v == 0 {
        '0'
    } else if v == 1 {
        '1'
    } else if v == 2 {
        '2'
    } else if v == 3 {
        '3'
    } else if v == 4 {
        '4'
    } else if v == 5 {
        '5'
    } else if v == 6 {
        '6'
    } else if v == 7 {
        '7'
    } else if v == 8 {
        '8'
    } else if v == 9 {
        '9'
    } else if v == 10 {
        'a'
    } else if v == 11 {
        'b'
    } else if v == 12 {
        'c'
    } else if v == 13 {
        'd'
    } else if v == 14 {
        'e'
    } else {
        'f'
    }
}

/// The value of a hexadecimal digit; sixteen for any other character.
pub open spec fn hex_val(c: char) -> int {
    if c == '0' {
        0
    } else if c == '1' {
        1
    } else if c == '2' {
        2
    } else if c == '3' {
        3
    } else if c == '4' {
        4
    } else if c == '5' {
        5
    } else if c == '6' {
        6
    } else if c == '7' {
        7
    } else if c == '8' {
        8
    } else if c == '9' {
        9
    } else if c == 'a' || c == 'A' {
        10
    } else if c == 'b' || c == 'B' {
        11
    } else if c == 'c' || c == 'C' {
        12
    } else if c == 'd' || c == 'D' {
        13
    } else if c == 'e' || c == 'E' {
        14
    } else if c == 'f' || c == 'F' {
        15
    } else {
        16
    }
}

pub open spec fn is_hex(c: char) -> bool {
    hex_val(c) < 16
}

// ---------------------------------------------------------------------------
// Escaping
// ---------------------------------------------------------------------------
/// How one character is written inside a JSON string: quote and backslash
/// get a backslash escape, control characters a `\u00XX` escape, anything
/// else stands as itself.
pub open spec fn esc_char(c: char) -> Seq<char> {
    if c == '"' {
        seq!['\\', '"']
    } else if c == '\\' {
        seq!['\\', '\\']
    } else if (c as u32) < 0x20 {
        seq!['\\', 'u', '0', '0', hex_char((c as u32) as int / 16), hex_char(
            (c as u32) as int % 16,
        )]
    } else {
        seq![c]
    }
}

/// A whole character sequence escaped.
pub open spec fn esc_str(s: Seq<char>) -> Seq<char>
    decreases s.len(),
{
    if s.len() == 0 {
        Seq::<char>::empty()
    } else {
        esc_char(s[0]) + esc_str(s.drop_first())
    }
}

/// A JSON string literal: the escaped content between double quotes.
pub open spec fn json_string(s: Seq<char>) -> Seq<char> {
    seq!['"'] + esc_str(s) + seq!['"']
}

// ---------------------------------------------------------------------------
// The document layout (two-space indent, fixed key order)
// ---------------------------------------------------------------------------
pub open spec fn lit_obj_head() -> Seq<char> {
    seq![' ', ' ', '{', '\n', ' ', ' ', ' ', ' ', '"', 'c', 'o', 'm', 'm', 'a', 'n', 'd', '"', ':', ' ']
}

pub open spec fn lit_desc_head() -> Seq<char> {
    seq![',', '\n', ' ', ' ', ' ', ' ', '"', 'd', 'e', 's', 'c', 'r', 'i', 'p', 't', 'i', 'o', 'n', '"', ':', ' ']
}

pub open spec fn lit_tags_head() -> Seq<char> {
    seq![',', '\n', ' ', ' ', ' ', ' ', '"', 't', 'a', 'g', 's', '"', ':', ' ']
}

pub open spec fn lit_obj_close() -> Seq<char> {
    seq!['\n', ' ', ' ', '}']
}

pub open spec fn lit_tag_indent() -> Seq<char> {
    seq![' ', ' ', ' ', ' ', ' ', ' ']
}

pub open spec fn lit_tags_close() -> Seq<char> {
    seq!['\n', ' ', ' ', ' ', ' ', ']']
}

pub open spec fn lit_comma_nl() -> Seq<char> {
    seq![',', '\n']
}

/// The tag array items, one per line, comma separated.
pub open spec fn tag_items(ts: Seq<Seq<char>>) -> Seq<char>
    decreases ts.len(),
{
    if ts.len() == 0 {
        Seq::<char>::empty()
    } else if ts.len() == 1 {
        lit_tag_indent() + json_string(ts[0])
    } else {
        lit_tag_indent() + json_string(ts[0]) + lit_comma_nl() + tag_items(ts.drop_first())
    }
}

/// The tag array: `[]` when empty, otherwise one item per line.
pub open spec fn json_tags(ts: Seq<Seq<char>>) -> Seq<char> {
    if ts.len() == 0 {
        seq!['[', ']']
    } else {
        seq!['[', '\n'] + tag_items(ts) + lit_tags_close()
    }
}

/// One record as a JSON object, keys in fixed order.
pub open spec fn json_obj(c: CmdView) -> Seq<char> {
    lit_obj_head() + json_string(c.command) + lit_desc_head() + json_string(c.description)
        + lit_tags_head() + json_tags(c.tags) + lit_obj_close()
}

/// The record objects, comma separated.
pub open spec fn json_objs(s: Seq<CmdView>) -> Seq<char>
    decreases s.len(),
{
    if s.len() == 0 {
        Seq::<char>::empty()
    } else if s.len() == 1 {
        json_obj(s[0])
    } else {
        json_obj(s[0]) + lit_comma_nl() + json_objs(s.drop_first())
    }
}

/// The persisted document: `[]` for an empty store, otherwise the record
/// objects between brackets, one per line.
pub open spec fn json_doc(s: Seq<CmdView>) -> Seq<char> {
    if s.len() == 0 {
        seq!['[', ']']
    } else {
        seq!['[', '\n'] + json_objs(s) + seq!['\n', ']']
    }
}

// ---------------------------------------------------------------------------
// Serialiser
// ---------------------------------------------------------------------------
/// Relies on String::push: appends exactly the one character.
#[verifier::external_body]
fn push_char(out: &mut String, c: char)
    ensures
        final(out)@ == old(out)@ + seq![c],
{
    out.push(c);
}

fn push_hex(out: &mut String, v: u32)
    requires
        v < 16,
    ensures
        final(out)@ == old(out)@ + seq![hex_char(v as int)],
{
    if v == 0 {
        push_char(out, '0')
    } else if v == 1 {
        push_char(out, '1')
    } else if v == 2 {
        push_char(out, '2')
    } else if v == 3 {
        push_char(out, '3')
    } else if v == 4 {
        push_char(out, '4')
    } else if v == 5 {
        push_char(out, '5')
    } else if v == 6 {
        push_char(out, '6')
    } else if v == 7 {
        push_char(out, '7')
    } else if v == 8 {
        push_char(out, '8')
    } else if v == 9 {
        push_char(out, '9')
    } else if v == 10 {
        push_char(out, 'a')
    } else if v == 11 {
        push_char(out, 'b')
    } else if v == 12 {
        push_char(out, 'c')
    } else if v == 13 {
        push_char(out, 'd')
    } else if v == 14 {
        push_char(out, 'e')
    } else {
        push_char(out, 'f')
    }
}

/// Appends the escaped form of the suffix of `s` that starts at `i`.
fn append_escaped_from(out: &mut String, s: &str, i: usize)
    requires
        i <= s@.len(),
    ensures
        final(out)@ == old(out)@ + esc_str(s@.subrange(i as int, s@.len() as int)),
    decreases s@.len() - i,
{
    let n = s.unicode_len();
    let ghost sfx = s@.subrange(i as int, s@.len() as int);
    if i == n {
        proof {
            assert(sfx.len() == 0);
            assert(old(out)@ + esc_str(sfx) =~= old(out)@);
        }
        return ;
    }
    let c = s.get_char(i);
    proof {
        assert(sfx[0] == c);
        assert(sfx.drop_first() =~= s@.subrange(i + 1 as int, s@.len() as int));
    }
    if c == '"' {
        push_char(out, '\\');
        push_char(out, '"');
    } else if c == '\\' {
        push_char(out, '\\');
        push_char(out, '\\');
    } else if (c as u32) < 0x20 {
        let v = c as u32;
        push_char(out, '\\');
        push_char(out, 'u');
        push_char(out, '0');
        push_char(out, '0');
        push_hex(out, v / 16);
        push_hex(out, v % 16);
    } else {
        push_char(out, c);
    }
    proof {
        assert(out@ =~= old(out)@ + esc_char(c));
    }
    append_escaped_from(out, s, i + 1);
    proof {
        assert(old(out)@ + esc_char(c) + esc_str(sfx.drop_first()) =~= old(out)@ + esc_str(sfx));
    }
}

/// Appends the JSON string literal for `s`.
fn append_json_string(out: &mut String, s: &str)
    ensures
        final(out)@ == old(out)@ + json_string(s@),
{
    push_char(out, '"');
    append_escaped_from(out, s, 0);
    push_char(out, '"');
    proof {
        assert(s@.subrange(0, s@.len() as int) =~= s@);
        assert(old(out)@ + seq!['"'] + esc_str(s@) + seq!['"'] =~= old(out)@ + json_string(s@));
    }
}

/// Appends the tag items of `tags` from index `i` on.
fn append_tag_items(out: &mut String, tags: &Vec<String>, i: usize)
    requires
        i < tags.len(),
    ensures
        final(out)@ == old(out)@ + tag_items(tags.deep_view().subrange(i as int, tags@.len() as int)),
    decreases tags.len() - i,
{
    let ghost sfx = tags.deep_view().subrange(i as int, tags@.len() as int);
    proof {
        assert(sfx[0] == tags.deep_view()[i as int]);
        assert(tags.deep_view()[i as int] == tags@[i as int]@);
        assert(sfx.drop_first() =~= tags.deep_view().subrange(i + 1 as int, tags@.len() as int));
    }
    push_char(out, ' ');
    push_char(out, ' ');
    push_char(out, ' ');
    push_char(out, ' ');
    push_char(out, ' ');
    push_char(out, ' ');
    proof {
        assert(out@ =~= old(out)@ + lit_tag_indent());
    }
    append_json_string(out, tags[i].as_str());
    if i + 1 == tags.len() {
        proof {
            assert(sfx.len() == 1);
            assert(out@ =~= old(out)@ + tag_items(sfx));
        }
    } else {
        push_char(out, ',');
        push_char(out, '\n');
        proof {
            assert(out@ =~= old(out)@ + lit_tag_indent() + json_string(tags@[i as int]@)
                + lit_comma_nl());
        }
        append_tag_items(out, tags, i + 1);
        proof {
            assert(old(out)@ + lit_tag_indent() + json_string(tags@[i as int]@) + lit_comma_nl()
                + tag_items(sfx.drop_first()) =~= old(out)@ + tag_items(sfx));
        }
    }
}

/// Appends the tag array of a record.
fn append_tags(out: &mut String, tags: &Vec<String>)
    ensures
        final(out)@ == old(out)@ + json_tags(tags.deep_view()),
{
    if tags.len() == 0 {
        push_char(out, '[');
        push_char(out, ']');
        proof {
            assert(out@ =~= old(out)@ + json_tags(tags.deep_view()));
        }
    } else {
        push_char(out, '[');
        push_char(out, '\n');
        proof {
            assert(out@ =~= old(out)@ + seq!['[', '\n']);
        }
        append_tag_items(out, tags, 0);
        proof {
            assert(tags.deep_view().subrange(0, tags@.len() as int) =~= tags.deep_view());
        }
        push_char(out, '\n');
        push_char(out, ' ');
        push_char(out, ' ');
        push_char(out, ' ');
        push_char(out, ' ');
        push_char(out, ']');
        proof {
            assert(out@ =~= old(out)@ + seq!['[', '\n'] + tag_items(tags.deep_view())
                + lit_tags_close());
            assert(old(out)@ + seq!['[', '\n'] + tag_items(tags.deep_view()) + lit_tags_close()
                =~= old(out)@ + json_tags(tags.deep_view()));
        }
    }
}

/// Appends one record object.
fn append_obj(out: &mut String, c: &Cmd)
    ensures
        final(out)@ == old(out)@ + json_obj(c@),
{
    out.append("  {\n    \"command\": ");
    proof {
        reveal_strlit("  {\n    \"command\": ");
        assert(("  {\n    \"command\": ")@ =~= lit_obj_head());
    }
    append_json_string(out, c.command.as_str());
    out.append(",\n    \"description\": ");
    proof {
        reveal_strlit(",\n    \"description\": ");
        assert((",\n    \"description\": ")@ =~= lit_desc_head());
    }
    append_json_string(out, c.description.as_str());
    out.append(",\n    \"tags\": ");
    proof {
        reveal_strlit(",\n    \"tags\": ");
        assert((",\n    \"tags\": ")@ =~= lit_tags_head());
    }
    append_tags(out, &c.tags);
    out.append("\n  }");
    proof {
        reveal_strlit("\n  }");
        assert(("\n  }")@ =~= lit_obj_close());
        assert(out@ =~= old(out)@ + json_obj(c@));
    }
}

/// Appends the record objects of `cmds` from index `i` on.
fn append_objs(out: &mut String, cmds: &Vec<Cmd>, i: usize)
    requires
        i < cmds.len(),
    ensures
        final(out)@ == old(out)@ + json_objs(cmds.deep_view().subrange(i as int, cmds@.len() as int)),
    decreases cmds.len() - i,
{
    let ghost sfx = cmds.deep_view().subrange(i as int, cmds@.len() as int);
    proof {
        assert(sfx[0] == cmds.deep_view()[i as int]);
        assert(cmds.deep_view()[i as int] == cmds@[i as int]@);
        assert(sfx.drop_first() =~= cmds.deep_view().subrange(i + 1 as int, cmds@.len() as int));
    }
    append_obj(out, &cmds[i]);
    if i + 1 == cmds.len() {
        proof {
            assert(sfx.len() == 1);
            assert(out@ =~= old(out)@ + json_objs(sfx));
        }
    } else {
        push_char(out, ',');
        push_char(out, '\n');
        proof {
            assert(out@ =~= old(out)@ + json_obj(cmds@[i as int]@) + lit_comma_nl());
        }
        append_objs(out, cmds, i + 1);
        proof {
            assert(old(out)@ + json_obj(cmds@[i as int]@) + lit_comma_nl() + json_objs(
                sfx.drop_first(),
            ) =~= old(out)@ + json_objs(sfx));
        }
    }
}

// ---------------------------------------------------------------------------
// Parser specification (consume style: each production returns what it
// recognised and the remaining input)
// ---------------------------------------------------------------------------
/// The insignificant whitespace JSON allows between tokens.
pub open spec fn is_json_ws(c: char) -> bool {
    c == ' ' || c == '\n' || c == '\r' || c == '\t'
}

/// The input with its leading insignificant whitespace removed.
pub open spec fn skip_ws(s: Seq<char>) -> Seq<char>
    decreases s.len(),
{
    if s.len() > 0 && is_json_ws(s[0]) {
        skip_ws(s.drop_first())
    } else {
        s
    }
}

/// The character a single-letter escape stands for, if the letter is one.
pub open spec fn unescape(c: char) -> Option<char> {
    if c == '"' {
        Some('"')
    } else if c == '\\' {
        Some('\\')
    } else if c == '/' {
        Some('/')
    } else if c == 'n' {
        Some('\n')
    } else if c == 't' {
        Some('\t')
    } else if c == 'r' {
        Some('\r')
    } else if c == 'b' {
        Some('\u{8}')
    } else if c == 'f' {
        Some('\u{c}')
    } else {
        None
    }
}

/// Whether a code point is a Unicode scalar value, hence a `char`.
pub open spec fn is_scalar_value(v: int) -> bool {
    (0 <= v < 0xD800) || (0xE000 <= v < 0x110000)
}

/// Recognises a string body after its opening quote, up to and including
/// the closing quote; yields the unescaped content and the remainder.
pub open spec fn parse_string_body(s: Seq<char>) -> Option<(Seq<char>, Seq<char>)>
    decreases s.len(),
{
    if s.len() == 0 {
        None
    } else if s[0] == '"' {
        Some((Seq::<char>::empty(), s.drop_first()))
    } else if s[0] == '\\' {
        if s.len() < 2 {
            None
        } else if s[1] == 'u' {
            if s.len() < 6 {
                None
            } else if is_hex(s[2]) && is_hex(s[3]) && is_hex(s[4]) && is_hex(s[5]) {
                let v = hex_val(s[2]) * 4096 + hex_val(s[3]) * 256 + hex_val(s[4]) * 16 + hex_val(
                    s[5],
                );
                if is_scalar_value(v) {
                    match parse_string_body(s.subrange(6, s.len() as int)) {
                        Some(p) => Some((seq![((v as u32) as char)] + p.0, p.1)),
                        None => None,
                    }
                } else {
                    None
                }
            } else {
                None
            }
        } else {
            match unescape(s[1]) {
                Some(c) => match parse_string_body(s.subrange(2, s.len() as int)) {
                    Some(p) => Some((seq![c] + p.0, p.1)),
                    None => None,
                },
                None => None,
            }
        }
    } else if (s[0] as u32) < 0x20 {
        None
    } else {
        match parse_string_body(s.drop_first()) {
            Some(p) => Some((seq![s[0]] + p.0, p.1)),
            None => None,
        }
    }
}

/// Recognises a quoted string where the input stands.
pub open spec fn parse_qstring(s: Seq<char>) -> Option<(Seq<char>, Seq<char>)> {
    if s.len() > 0 && s[0] == '"' {
        parse_string_body(s.drop_first())
    } else {
        None
    }
}

/// Consumes an exact literal at the head of the input.
pub open spec fn expect(s: Seq<char>, lit: Seq<char>) -> Option<Seq<char>> {
    if lit.len() <= s.len() && s.subrange(0, lit.len() as int) == lit {
        Some(s.subrange(lit.len() as int, s.len() as int))
    } else {
        None
    }
}

pub proof fn lemma_skip_ws_len(s: Seq<char>)
    ensures
        skip_ws(s).len() <= s.len(),
    decreases s.len(),
{
    if s.len() > 0 && is_json_ws(s[0]) {
        lemma_skip_ws_len(s.drop_first());
    }
}

pub proof fn lemma_psb_len(s: Seq<char>)
    ensures
        parse_string_body(s) matches Some(p) ==> p.1.len() < s.len(),
    decreases s.len(),
{
    if s.len() == 0 {
    } else if s[0] == '"' {
    } else if s[0] == '\\' {
        if s.len() >= 6 {
            lemma_psb_len(s.subrange(6, s.len() as int));
        }
        if s.len() >= 2 {
            lemma_psb_len(s.subrange(2, s.len() as int));
        }
    } else {
        lemma_psb_len(s.drop_first());
    }
}

/// The tag strings after the array's first element: either the closing
/// bracket, or a comma and a further string, repeatedly.
pub open spec fn parse_more_tags(s: Seq<char>) -> Option<(Seq<Seq<char>>, Seq<char>)>
    decreases s.len(),
    via parse_more_tags_dec
{
    let t = skip_ws(s);
    if t.len() == 0 {
        None
    } else if t[0] == ']' {
        Some((Seq::<Seq<char>>::empty(), t.drop_first()))
    } else if t[0] == ',' {
        match parse_qstring(skip_ws(t.drop_first())) {
            Some(p) => match parse_more_tags(p.1) {
                Some(q) => Some((seq![p.0] + q.0, q.1)),
                None => None,
            },
            None => None,
        }
    } else {
        None
    }
}

#[via_fn]
proof fn parse_more_tags_dec(s: Seq<char>) {
    lemma_skip_ws_len(s);
    let t = skip_ws(s);
    if t.len() > 0 && t[0] == ',' {
        lemma_skip_ws_len(t.drop_first());
        let u = skip_ws(t.drop_first());
        if u.len() > 0 && u[0] == '"' {
            lemma_psb_len(u.drop_first());
        }
    }
}

/// Recognises the contents of a tag array after its opening bracket.
pub open spec fn parse_tag_list(s: Seq<char>) -> Option<(Seq<Seq<char>>, Seq<char>)> {
    let t = skip_ws(s);
    if t.len() == 0 {
        None
    } else if t[0] == ']' {
        Some((Seq::<Seq<char>>::empty(), t.drop_first()))
    } else {
        match parse_qstring(t) {
            Some(p) => match parse_more_tags(p.1) {
                Some(q) => Some((seq![p.0] + q.0, q.1)),
                None => None,
            },
            None => None,
        }
    }
}

pub open spec fn lit_qcommand() -> Seq<char> {
    seq!['"', 'c', 'o', 'm', 'm', 'a', 'n', 'd', '"']
}

pub open spec fn lit_qdescription() -> Seq<char> {
    seq!['"', 'd', 'e', 's', 'c', 'r', 'i', 'p', 't', 'i', 'o', 'n', '"']
}

pub open spec fn lit_qtags() -> Seq<char> {
    seq!['"', 't', 'a', 'g', 's', '"']
}

/// Recognises one record object: braces around the three fields in fixed
/// key order, whitespace allowed between tokens.
pub open spec fn parse_obj(s: Seq<char>) -> Option<(CmdView, Seq<char>)> {
    match expect(skip_ws(s), seq!['{']) {
        Some(s1) => match expect(skip_ws(s1), lit_qcommand()) {
            Some(s2) => match expect(skip_ws(s2), seq![':']) {
                Some(s3) => match parse_qstring(skip_ws(s3)) {
                    Some(pc) => match expect(skip_ws(pc.1), seq![',']) {
                        Some(s4) => match expect(skip_ws(s4), lit_qdescription()) {
                            Some(s5) => match expect(skip_ws(s5), seq![':']) {
                                Some(s6) => match parse_qstring(skip_ws(s6)) {
                                    Some(pd) => match expect(skip_ws(pd.1), seq![',']) {
                                        Some(s7) => match expect(skip_ws(s7), lit_qtags()) {
                                            Some(s8) => match expect(skip_ws(s8), seq![':']) {
                                                Some(s9) => match expect(skip_ws(s9), seq!['[']) {
                                                    Some(s10) => match parse_tag_list(s10) {
                                                        Some(pt) => match expect(
                                                            skip_ws(pt.1),
                                                            seq!['}'],
                                                        ) {
                                                            Some(rest) => Some(
                                                                (
                                                                    CmdView {
                                                                        command: pc.0,
                                                                        description: pd.0,
                                                                        tags: pt.0,
                                                                    },
                                                                    rest,
                                                                ),
                                                            ),
                                                            None => None,
                                                        },
                                                        None => None,
                                                    },
                                                    None => None,
                                                },
                                                None => None,
                                            },
                                            None => None,
                                        },
                                        None => None,
                                    },
                                    None => None,
                                },
                                None => None,
                            },
                            None => None,
                        },
                        None => None,
                    },
                    None => None,
                },
                None => None,
            },
            None => None,
        },
        None => None,
    }
}

pub proof fn lemma_parse_tag_list_len(s: Seq<char>)
    ensures
        parse_tag_list(s) matches Some(p) ==> p.1.len() < s.len(),
{
    lemma_skip_ws_len(s);
    let t = skip_ws(s);
    if t.len() > 0 && t[0] == '"' {
        lemma_psb_len(t.drop_first());
        if let Some(p) = parse_qstring(t) {
            lemma_parse_more_tags_len(p.1);
        }
    }
}

pub proof fn lemma_parse_more_tags_len(s: Seq<char>)
    ensures
        parse_more_tags(s) matches Some(p) ==> p.1.len() <= s.len(),
    decreases s.len(),
{
    lemma_skip_ws_len(s);
    let t = skip_ws(s);
    if t.len() > 0 && t[0] == ',' {
        lemma_skip_ws_len(t.drop_first());
        let u = skip_ws(t.drop_first());
        if u.len() > 0 && u[0] == '"' {
            lemma_psb_len(u.drop_first());
            if let Some(p) = parse_qstring(u) {
                lemma_parse_more_tags_len(p.1);
            }
        }
    }
}

pub proof fn lemma_parse_obj_len(s: Seq<char>)
    ensures
        parse_obj(s) matches Some(p) ==> p.1.len() < s.len(),
{
    lemma_skip_ws_len(s);
    if let Some(s1) = expect(skip_ws(s), seq!['{']) {
        lemma_skip_ws_len(s1);
        if let Some(s2) = expect(skip_ws(s1), lit_qcommand()) {
            lemma_skip_ws_len(s2);
            if let Some(s3) = expect(skip_ws(s2), seq![':']) {
                lemma_skip_ws_len(s3);
                let t3 = skip_ws(s3);
                if t3.len() > 0 && t3[0] == '"' {
                    lemma_psb_len(t3.drop_first());
                    if let Some(pc) = parse_qstring(t3) {
                        lemma_skip_ws_len(pc.1);
                        if let Some(s4) = expect(skip_ws(pc.1), seq![',']) {
                            lemma_skip_ws_len(s4);
                            if let Some(s5) = expect(skip_ws(s4), lit_qdescription()) {
                                lemma_skip_ws_len(s5);
                                if let Some(s6) = expect(skip_ws(s5), seq![':']) {
                                    lemma_skip_ws_len(s6);
                                    let t6 = skip_ws(s6);
                                    if t6.len() > 0 && t6[0] == '"' {
                                        lemma_psb_len(t6.drop_first());
                                        if let Some(pd) = parse_qstring(t6) {
                                            lemma_skip_ws_len(pd.1);
                                            if let Some(s7) = expect(skip_ws(pd.1), seq![',']) {
                                                lemma_skip_ws_len(s7);
                                                if let Some(s8) = expect(skip_ws(s7), lit_qtags()) {
                                                    lemma_skip_ws_len(s8);
                                                    if let Some(s9) = expect(skip_ws(s8), seq![':']) {
                                                        lemma_skip_ws_len(s9);
                                                        if let Some(s10) = expect(skip_ws(s9), seq!['[']) {
                                                            lemma_parse_tag_list_len(s10);
                                                            if let Some(pt) = parse_tag_list(s10) {
                                                                lemma_skip_ws_len(pt.1);
                                                            }
                                                        }
                                                    }
                                                }
                                            }
                                        }
                                    }
                                }
                            }
                        }
                    }
                }
            }
        }
    }
}

/// The record objects after the array's first element: either the closing
/// bracket, or a comma and a further object, repeatedly.
pub open spec fn parse_more_objs(s: Seq<char>) -> Option<(Seq<CmdView>, Seq<char>)>
    decreases s.len(),
    via parse_more_objs_dec
{
    let t = skip_ws(s);
    if t.len() == 0 {
        None
    } else if t[0] == ']' {
        Some((Seq::<CmdView>::empty(), t.drop_first()))
    } else if t[0] == ',' {
        match parse_obj(t.drop_first()) {
            Some(p) => match parse_more_objs(p.1) {
                Some(q) => Some((seq![p.0] + q.0, q.1)),
                None => None,
            },
            None => None,
        }
    } else {
        None
    }
}

#[via_fn]
proof fn parse_more_objs_dec(s: Seq<char>) {
    lemma_skip_ws_len(s);
    let t = skip_ws(s);
    if t.len() > 0 && t[0] == ',' {
        lemma_parse_obj_len(t.drop_first());
    }
}

/// Recognises the whole persisted document: a JSON array of record objects
/// with nothing but whitespace after it.
pub open spec fn parse_doc(s: Seq<char>) -> Option<Seq<CmdView>> {
    match expect(skip_ws(s), seq!['[']) {
        Some(s1) => {
            let t = skip_ws(s1);
            if t.len() > 0 && t[0] == ']' {
                if skip_ws(t.drop_first()).len() == 0 {
                    Some(Seq::<CmdView>::empty())
                } else {
                    None
                }
            } else {
                match parse_obj(s1) {
                    Some(p) => match parse_more_objs(p.1) {
                        Some(q) => if skip_ws(q.1).len() == 0 {
                            Some(seq![p.0] + q.0)
                        } else {
                            None
                        },
                        None => None,
                    },
                    None => None,
                }
            }
        },
        None => None,
    }
}

// ---------------------------------------------------------------------------
// Executable parser
// ---------------------------------------------------------------------------
/// The suffix of a sequence from an index on.
pub open spec fn sfx(s: Seq<char>, i: int) -> Seq<char> {
    s.subrange(i, s.len() as int)
}

fn str_to_chars(s: &str) -> (v: Vec<char>)
    ensures
        v@ == s@,
{
    let n = s.unicode_len();
    let mut v: Vec<char> = Vec::new();
    let mut i: usize = 0;
    while i < n
        invariant
            i <= n,
            n == s@.len(),
            v@ == s@.subrange(0, i as int),
        decreases n - i,
    {
        v.push(s.get_char(i));
        proof {
            assert(v@ =~= s@.subrange(0, i + 1 as int));
        }
        i += 1;
    }
    proof {
        assert(v@ =~= s@);
    }
    v
}

fn is_json_ws_x(c: char) -> (b: bool)
    ensures
        b == is_json_ws(c),
{
    c == ' ' || c == '\n' || c == '\r' || c == '\t'
}

proof fn lemma_skip_ws_at(s: Seq<char>, k: int)
    requires
        0 <= k <= s.len(),
        forall|j: int| 0 <= j < k ==> is_json_ws(s[j]),
        k == s.len() || !is_json_ws(s[k]),
    ensures
        skip_ws(s) == s.subrange(k, s.len() as int),
    decreases k,
{
    if k == 0 {
        assert(s.subrange(0, s.len() as int) =~= s);
    } else {
        lemma_skip_ws_at(s.drop_first(), k - 1);
        assert(s.drop_first().subrange(k - 1, s.len() - 1) =~= s.subrange(k, s.len() as int));
    }
}

fn skip_ws_idx(v: &Vec<char>, i: usize) -> (j: usize)
    requires
        i <= v.len(),
    ensures
        i <= j <= v.len(),
        sfx(v@, j as int) == skip_ws(sfx(v@, i as int)),
        j == v.len() || !is_json_ws(v@[j as int]),
{
    let mut j = i;
    while j < v.len() && is_json_ws_x(v[j])
        invariant
            i <= j <= v.len(),
            forall|k: int| i <= k < j ==> is_json_ws(v@[k]),
        decreases v.len() - j,
    {
        j += 1;
    }
    proof {
        let s = sfx(v@, i as int);
        assert(forall|k: int| 0 <= k < j - i ==> is_json_ws(s[k]));
        lemma_skip_ws_at(s, j - i as int);
        assert(s.subrange(j - i as int, s.len() as int) =~= sfx(v@, j as int));
    }
    j
}

fn expect_ch(v: &Vec<char>, i: usize, c: char) -> (r: Option<usize>)
    requires
        i <= v.len(),
    ensures
        match r {
            Some(j) => j == i + 1 && j <= v.len() && expect(sfx(v@, i as int), seq![c]) == Some(
                sfx(v@, j as int),
            ),
            None => expect(sfx(v@, i as int), seq![c]) is None,
        },
{
    let ghost s = sfx(v@, i as int);
    if i < v.len() && v[i] == c {
        proof {
            assert(s.subrange(0, 1) =~= seq![c]);
            assert(s.subrange(1, s.len() as int) =~= sfx(v@, i + 1 as int));
        }
        Some(i + 1)
    } else {
        proof {
            if i < v.len() {
                assert(s.subrange(0, 1)[0] == v@[i as int]);
                assert(s.subrange(0, 1) != seq![c]);
            }
        }
        None
    }
}

fn expect_lit(v: &Vec<char>, i: usize, lit: &str) -> (r: Option<usize>)
    requires
        i <= v.len(),
    ensures
        match r {
            Some(j) => i <= j <= v.len() && expect(sfx(v@, i as int), lit@) == Some(
                sfx(v@, j as int),
            ),
            None => expect(sfx(v@, i as int), lit@) is None,
        },
{
    let ghost s = sfx(v@, i as int);
    let m = lit.unicode_len();
    if m > v.len() - i {
        return None;
    }
    let mut k: usize = 0;
    while k < m
        invariant
            k <= m,
            m == lit@.len(),
            i + m <= v.len(),
            i <= v.len(),
            s == sfx(v@, i as int),
            forall|q: int| 0 <= q < k ==> s[q] == lit@[q],
        decreases m - k,
    {
        if !(lit.get_char(k) == v[i + k]) {
            proof {
                assert(s[k as int] == v@[i + k as int]);
                assert(s.subrange(0, m as int)[k as int] != lit@[k as int]);
                assert(s.subrange(0, m as int) != lit@);
            }
            return None;
        }
        proof {
            assert(s[k as int] == v@[i + k as int]);
        }
        k += 1;
    }
    proof {
        assert(s.subrange(0, m as int) =~= lit@);
        assert(s.subrange(m as int, s.len() as int) =~= sfx(v@, i + m as int));
    }
    Some(i + m)
}

fn hex_val_x(c: char) -> (h: u32)
    ensures
        h as int == hex_val(c),
{
    if c == '0' {
        0
    } else if c == '1' {
        1
    } else if c == '2' {
        2
    } else if c == '3' {
        3
    } else if c == '4' {
        4
    } else if c == '5' {
        5
    } else if c == '6' {
        6
    } else if c == '7' {
        7
    } else if c == '8' {
        8
    } else if c == '9' {
        9
    } else if c == 'a' || c == 'A' {
        10
    } else if c == 'b' || c == 'B' {
        11
    } else if c == 'c' || c == 'C' {
        12
    } else if c == 'd' || c == 'D' {
        13
    } else if c == 'e' || c == 'E' {
        14
    } else if c == 'f' || c == 'F' {
        15
    } else {
        16
    }
}

fn unescape_x(c: char) -> (r: Option<char>)
    ensures
        r == unescape(c),
{
    if c == '"' {
        Some('"')
    } else if c == '\\' {
        Some('\\')
    } else if c == '/' {
        Some('/')
    } else if c == 'n' {
        Some('\n')
    } else if c == 't' {
        Some('\t')
    } else if c == 'r' {
        Some('\r')
    } else if c == 'b' {
        Some('\u{8}')
    } else if c == 'f' {
        Some('\u{c}')
    } else {
        None
    }
}

/// Relies on char::from_u32: `Some` exactly for Unicode scalar values, and
/// the character is the code point itself.
#[verifier::external_body]
fn char_from_u32(v: u32) -> (r: Option<char>)
    ensures
        r == (if is_scalar_value(v as int) {
            Some((v as char))
        } else {
            None::<char>
        }),
{
    char::from_u32(v)
}

fn psb_idx(v: &Vec<char>, i: usize) -> (r: Option<(String, usize)>)
    requires
        i <= v.len(),
    ensures
        match r {
            Some(p) => i < p.1 <= v.len() && parse_string_body(sfx(v@, i as int)) == Some(
                (p.0@, sfx(v@, p.1 as int)),
            ),
            None => parse_string_body(sfx(v@, i as int)) is None,
        },
    decreases v.len() - i,
{
    let ghost s = sfx(v@, i as int);
    if i == v.len() {
        proof {
            assert(s.len() == 0);
        }
        return None;
    }
    let c = v[i];
    proof {
        assert(s[0] == c);
        assert(s.drop_first() =~= sfx(v@, i + 1 as int));
    }
    if c == '"' {
        let outp = String::new();
        return Some((outp, i + 1));
    }
    if c == '\\' {
        if i + 1 == v.len() {
            proof {
                assert(s.len() < 2);
            }
            return None;
        }
        let e = v[i + 1];
        proof {
            assert(s[1] == e);
        }
        if e == 'u' {
            if v.len() - i < 6 {
                proof {
                    assert(s.len() < 6);
                }
                return None;
            }
            proof {
                assert(s[2] == v@[i + 2]);
                assert(s[3] == v@[i + 3]);
                assert(s[4] == v@[i + 4]);
                assert(s[5] == v@[i + 5]);
                assert(s.subrange(6, s.len() as int) =~= sfx(v@, i + 6 as int));
            }
            let h2 = hex_val_x(v[i + 2]);
            let h3 = hex_val_x(v[i + 3]);
            let h4 = hex_val_x(v[i + 4]);
            let h5 = hex_val_x(v[i + 5]);
            if h2 >= 16 || h3 >= 16 || h4 >= 16 || h5 >= 16 {
                return None;
            }
            let code: u32 = h2 * 4096 + h3 * 256 + h4 * 16 + h5;
            if code >= 0xD800 && code < 0xE000 {
                proof {
                    assert(!is_scalar_value(code as int));
                }
                return None;
            }
            proof {
                assert(is_scalar_value(code as int));
            }
            let ch = match char_from_u32(code) {
                Some(ch) => ch,
                None => {
                    proof {
                        assert(false);
                    }
                    return None;
                },
            };
            match psb_idx(v, i + 6) {
                Some((t, j)) => {
                    let mut outp = String::new();
                    push_char(&mut outp, ch);
                    outp.append(t.as_str());
                    proof {
                        assert(outp@ =~= seq![ch] + t@);
                    }
                    Some((outp, j))
                },
                None => None,
            }
        } else {
            match unescape_x(e) {
                Some(ch) => {
                    proof {
                        assert(s.subrange(2, s.len() as int) =~= sfx(v@, i + 2 as int));
                    }
                    match psb_idx(v, i + 2) {
                        Some((t, j)) => {
                            let mut outp = String::new();
                            push_char(&mut outp, ch);
                            outp.append(t.as_str());
                            proof {
                                assert(outp@ =~= seq![ch] + t@);
                            }
                            Some((outp, j))
                        },
                        None => None,
                    }
                },
                None => None,
            }
        }
    } else if (c as u32) < 0x20 {
        None
    } else {
        match psb_idx(v, i + 1) {
            Some((t, j)) => {
                let mut outp = String::new();
                push_char(&mut outp, c);
                outp.append(t.as_str());
                proof {
                    assert(outp@ =~= seq![c] + t@);
                }
                Some((outp, j))
            },
            None => None,
        }
    }
}

fn parse_qstring_idx(v: &Vec<char>, i: usize) -> (r: Option<(String, usize)>)
    requires
        i <= v.len(),
    ensures
        match r {
            Some(p) => i < p.1 <= v.len() && parse_qstring(sfx(v@, i as int)) == Some(
                (p.0@, sfx(v@, p.1 as int)),
            ),
            None => parse_qstring(sfx(v@, i as int)) is None,
        },
{
    let ghost s = sfx(v@, i as int);
    if i < v.len() && v[i] == '"' {
        proof {
            assert(s[0] == '"');
            assert(s.drop_first() =~= sfx(v@, i + 1 as int));
        }
        psb_idx(v, i + 1)
    } else {
        None
    }
}

fn parse_more_tags_idx(v: &Vec<char>, i: usize) -> (r: Option<(Vec<String>, usize)>)
    requires
        i <= v.len(),
    ensures
        match r {
            Some(p) => i <= p.1 <= v.len() && parse_more_tags(sfx(v@, i as int)) == Some(
                (p.0.deep_view(), sfx(v@, p.1 as int)),
            ),
            None => parse_more_tags(sfx(v@, i as int)) is None,
        },
    decreases v.len() - i,
{
    let ghost s = sfx(v@, i as int);
    let t = skip_ws_idx(v, i);
    if t == v.len() {
        return None;
    }
    let c = v[t];
    proof {
        assert(skip_ws(s)[0] == c);
    }
    if c == ']' {
        proof {
            assert(skip_ws(s).drop_first() =~= sfx(v@, t + 1 as int));
        }
        let empty_tags: Vec<String> = Vec::new();
        proof {
            assert(empty_tags.deep_view() =~= Seq::<Seq<char>>::empty());
        }
        return Some((empty_tags, t + 1));
    }
    if c == ',' {
        proof {
            assert(skip_ws(s).drop_first() =~= sfx(v@, t + 1 as int));
        }
        let u = skip_ws_idx(v, t + 1);
        match parse_qstring_idx(v, u) {
            Some((tag, j)) => {
                match parse_more_tags_idx(v, j) {
                    Some((mut rest, j2)) => {
                        let ghost prev = rest.deep_view();
                        rest.insert(0, tag);
                        proof {
                            assert(rest.deep_view() =~= seq![tag@] + prev);
                        }
                        Some((rest, j2))
                    },
                    None => None,
                }
            },
            None => None,
        }
    } else {
        None
    }
}

fn parse_tag_list_idx(v: &Vec<char>, i: usize) -> (r: Option<(Vec<String>, usize)>)
    requires
        i <= v.len(),
    ensures
        match r {
            Some(p) => i <= p.1 <= v.len() && parse_tag_list(sfx(v@, i as int)) == Some(
                (p.0.deep_view(), sfx(v@, p.1 as int)),
            ),
            None => parse_tag_list(sfx(v@, i as int)) is None,
        },
{
    let ghost s = sfx(v@, i as int);
    let t = skip_ws_idx(v, i);
    if t == v.len() {
        return None;
    }
    let c = v[t];
    proof {
        assert(skip_ws(s)[0] == c);
    }
    if c == ']' {
        proof {
            assert(skip_ws(s).drop_first() =~= sfx(v@, t + 1 as int));
        }
        let empty_tags: Vec<String> = Vec::new();
        proof {
            assert(empty_tags.deep_view() =~= Seq::<Seq<char>>::empty());
        }
        return Some((empty_tags, t + 1));
    }
    match parse_qstring_idx(v, t) {
        Some((tag, j)) => {
            match parse_more_tags_idx(v, j) {
                Some((mut rest, j2)) => {
                    let ghost prev = rest.deep_view();
                    rest.insert(0, tag);
                    proof {
                        assert(rest.deep_view() =~= seq![tag@] + prev);
                    }
                    Some((rest, j2))
                },
                None => None,
            }
        },
        None => None,
    }
}

fn parse_obj_idx(v: &Vec<char>, i: usize) -> (r: Option<(Cmd, usize)>)
    requires
        i <= v.len(),
    ensures
        match r {
            Some(p) => i <= p.1 <= v.len() && parse_obj(sfx(v@, i as int)) == Some(
                (p.0@, sfx(v@, p.1 as int)),
            ),
            None => parse_obj(sfx(v@, i as int)) is None,
        },
{
    let ghost s = sfx(v@, i as int);
    let a1 = skip_ws_idx(v, i);
    let a2 = match expect_ch(v, a1, '{') {
        Some(x) => x,
        None => {
            return None;
        },
    };
    let a3 = skip_ws_idx(v, a2);
    proof {
        reveal_strlit("\"command\"");
        assert(("\"command\"")@ =~= lit_qcommand());
    }
    let a4 = match expect_lit(v, a3, "\"command\"") {
        Some(x) => x,
        None => {
            return None;
        },
    };
    let a5 = skip_ws_idx(v, a4);
    let a6 = match expect_ch(v, a5, ':') {
        Some(x) => x,
        None => {
            return None;
        },
    };
    let a7 = skip_ws_idx(v, a6);
    let (command, a8) = match parse_qstring_idx(v, a7) {
        Some(p) => p,
        None => {
            return None;
        },
    };
    let a9 = skip_ws_idx(v, a8);
    let a10 = match expect_ch(v, a9, ',') {
        Some(x) => x,
        None => {
            return None;
        },
    };
    let a11 = skip_ws_idx(v, a10);
    proof {
        reveal_strlit("\"description\"");
        assert(("\"description\"")@ =~= lit_qdescription());
    }
    let a12 = match expect_lit(v, a11, "\"description\"") {
        Some(x) => x,
        None => {
            return None;
        },
    };
    let a13 = skip_ws_idx(v, a12);
    let a14 = match expect_ch(v, a13, ':') {
        Some(x) => x,
        None => {
            return None;
        },
    };
    let a15 = skip_ws_idx(v, a14);
    let (description, a16) = match parse_qstring_idx(v, a15) {
        Some(p) => p,
        None => {
            return None;
        },
    };
    let a17 = skip_ws_idx(v, a16);
    let a18 = match expect_ch(v, a17, ',') {
        Some(x) => x,
        None => {
            return None;
        },
    };
    let a19 = skip_ws_idx(v, a18);
    proof {
        reveal_strlit("\"tags\"");
        assert(("\"tags\"")@ =~= lit_qtags());
    }
    let a20 = match expect_lit(v, a19, "\"tags\"") {
        Some(x) => x,
        None => {
            return None;
        },
    };
    let a21 = skip_ws_idx(v, a20);
    let a22 = match expect_ch(v, a21, ':') {
        Some(x) => x,
        None => {
            return None;
        },
    };
    let a23 = skip_ws_idx(v, a22);
    let a24 = match expect_ch(v, a23, '[') {
        Some(x) => x,
        None => {
            return None;
        },
    };
    let (tags, a25) = match parse_tag_list_idx(v, a24) {
        Some(p) => p,
        None => {
            return None;
        },
    };
    let a26 = skip_ws_idx(v, a25);
    let a27 = match expect_ch(v, a26, '}') {
        Some(x) => x,
        None => {
            return None;
        },
    };
    let ghost cv = CmdView { command: command@, description: description@, tags: tags.deep_view() };
    let record = Cmd::new(command, description, tags);
    proof {
        assert(record@ == cv);
    }
    Some((record, a27))
}

fn parse_more_objs_idx(v: &Vec<char>, i: usize) -> (r: Option<(Vec<Cmd>, usize)>)
    requires
        i <= v.len(),
    ensures
        match r {
            Some(p) => i <= p.1 <= v.len() && parse_more_objs(sfx(v@, i as int)) == Some(
                (p.0.deep_view(), sfx(v@, p.1 as int)),
            ),
            None => parse_more_objs(sfx(v@, i as int)) is None,
        },
    decreases v.len() - i,
{
    let ghost s = sfx(v@, i as int);
    let t = skip_ws_idx(v, i);
    if t == v.len() {
        return None;
    }
    let c = v[t];
    proof {
        assert(skip_ws(s)[0] == c);
    }
    if c == ']' {
        proof {
            assert(skip_ws(s).drop_first() =~= sfx(v@, t + 1 as int));
        }
        let empty_cmds: Vec<Cmd> = Vec::new();
        proof {
            assert(empty_cmds.deep_view() =~= Seq::<CmdView>::empty());
        }
        return Some((empty_cmds, t + 1));
    }
    if c == ',' {
        proof {
            assert(skip_ws(s).drop_first() =~= sfx(v@, t + 1 as int));
        }
        match parse_obj_idx(v, t + 1) {
            Some((record, j)) => {
                proof {
                    lemma_parse_obj_len(sfx(v@, t + 1 as int));
                }
                match parse_more_objs_idx(v, j) {
                    Some((mut rest, j2)) => {
                        let ghost prev = rest.deep_view();
                        rest.insert(0, record);
                        proof {
                            assert(rest.deep_view() =~= seq![record@] + prev);
                        }
                        Some((rest, j2))
                    },
                    None => None,
                }
            },
            None => None,
        }
    } else {
        None
    }
}

/// Parses the persisted document back into records; any input outside the
/// recognised document form is rejected as malformed.
pub fn load_from_json(s: &str) -> (r: Result<Vec<Cmd>, ConfigError>)
    ensures
        match r {
            Ok(cmds) => parse_doc(s@) == Some(cmds.deep_view()),
            Err(e) => parse_doc(s@) is None && e == ConfigError::MalformedJson,
        },
{
    let v = str_to_chars(s);
    proof {
        assert(sfx(v@, 0) =~= s@);
    }
    let a1 = skip_ws_idx(&v, 0);
    let a2 = match expect_ch(&v, a1, '[') {
        Some(x) => x,
        None => {
            return Err(ConfigError::MalformedJson);
        },
    };
    let t = skip_ws_idx(&v, a2);
    if t < v.len() && v[t] == ']' {
        proof {
            assert(skip_ws(sfx(v@, a2 as int))[0] == ']');
            assert(skip_ws(sfx(v@, a2 as int)).drop_first() =~= sfx(v@, t + 1 as int));
        }
        let e = skip_ws_idx(&v, t + 1);
        if e == v.len() {
            let empty_cmds: Vec<Cmd> = Vec::new();
            proof {
                assert(empty_cmds.deep_view() =~= Seq::<CmdView>::empty());
            }
            return Ok(empty_cmds);
        } else {
            proof {
                assert(skip_ws(sfx(v@, t + 1 as int)).len() > 0);
            }
            return Err(ConfigError::MalformedJson);
        }
    }
    proof {
        let tsq = skip_ws(sfx(v@, a2 as int));
        assert(!(tsq.len() > 0 && tsq[0] == ']'));
    }
    let (c0, j) = match parse_obj_idx(&v, a2) {
        Some(p) => p,
        None => {
            return Err(ConfigError::MalformedJson);
        },
    };
    let (mut rest, j2) = match parse_more_objs_idx(&v, j) {
        Some(p) => p,
        None => {
            return Err(ConfigError::MalformedJson);
        },
    };
    let e = skip_ws_idx(&v, j2);
    if e != v.len() {
        proof {
            assert(skip_ws(sfx(v@, j2 as int)).len() > 0);
        }
        return Err(ConfigError::MalformedJson);
    }
    let ghost prev = rest.deep_view();
    rest.insert(0, c0);
    proof {
        assert(rest.deep_view() =~= seq![c0@] + prev);
    }
    Ok(rest)
}

// ---------------------------------------------------------------------------
// Round trip: parsing a serialised document yields the records back
// ---------------------------------------------------------------------------
proof fn lemma_skip_to(w: Seq<char>, b: Seq<char>)
    requires
        forall|k: int| 0 <= k < w.len() ==> is_json_ws(w[k]),
        b.len() == 0 || !is_json_ws(b[0]),
    ensures
        skip_ws(w + b) == b,
    decreases w.len(),
{
    if w.len() == 0 {
        assert(w + b =~= b);
    } else {
        assert((w + b)[0] == w[0]);
        assert((w + b).drop_first() =~= w.drop_first() + b);
        lemma_skip_to(w.drop_first(), b);
    }
}

proof fn lemma_expect_prefix(lit: Seq<char>, rest: Seq<char>)
    ensures
        expect(lit + rest, lit) == Some(rest),
{
    let s = lit + rest;
    assert(s.subrange(0, lit.len() as int) =~= lit);
    assert(s.subrange(lit.len() as int, s.len() as int) =~= rest);
}

proof fn lemma_skip_expect(w: Seq<char>, lit: Seq<char>, rest: Seq<char>)
    requires
        forall|k: int| 0 <= k < w.len() ==> is_json_ws(w[k]),
        lit.len() > 0,
        !is_json_ws(lit[0]),
    ensures
        expect(skip_ws(w + (lit + rest)), lit) == Some(rest),
{
    assert((lit + rest).len() == 0 || !is_json_ws((lit + rest)[0]));
    lemma_skip_to(w, lit + rest);
    lemma_expect_prefix(lit, rest);
}

proof fn lemma_hex_inverse(d: int)
    requires
        0 <= d < 16,
    ensures
        hex_val(hex_char(d)) == d,
{
}

/// Parsing undoes escaping: the body parser applied to an escaped string,
/// its closing quote and anything after yields the string and that remainder.
proof fn lemma_psb_escaped(s: Seq<char>, rest: Seq<char>)
    ensures
        parse_string_body(esc_str(s) + seq!['"'] + rest) == Some((s, rest)),
    decreases s.len(),
{
    let text = esc_str(s) + seq!['"'] + rest;
    if s.len() == 0 {
        assert(text =~= seq!['"'] + rest);
        assert(text[0] == '"');
        assert(text.drop_first() =~= rest);
        assert(s =~= Seq::<char>::empty());
    } else {
        let c = s[0];
        let s1 = s.drop_first();
        let tail = esc_str(s1) + seq!['"'] + rest;
        lemma_psb_escaped(s1, rest);
        assert(text =~= esc_char(c) + tail);
        if c == '"' {
            assert(text[0] == '\\');
            assert(text[1] == '"');
            assert(text.subrange(2, text.len() as int) =~= tail);
            assert(unescape('"') == Some('"'));
            assert(seq!['"'] + s1 =~= s);
        } else if c == '\\' {
            assert(text[0] == '\\');
            assert(text[1] == '\\');
            assert(text.subrange(2, text.len() as int) =~= tail);
            assert(seq!['\\'] + s1 =~= s);
        } else if (c as u32) < 0x20 {
            let vc = (c as u32) as int;
            assert(text[0] == '\\');
            assert(text[1] == 'u');
            assert(text[2] == '0');
            assert(text[3] == '0');
            assert(text[4] == hex_char(vc / 16));
            assert(text[5] == hex_char(vc % 16));
            assert(text.len() >= 6 + 1);
            assert(0 <= vc / 16 < 16 && 0 <= vc % 16 < 16);
            lemma_hex_inverse(vc / 16);
            lemma_hex_inverse(vc % 16);
            assert(hex_val('0') == 0);
            assert(is_hex(text[2]) && is_hex(text[3]) && is_hex(text[4]) && is_hex(text[5]));
            let v = hex_val(text[2]) * 4096 + hex_val(text[3]) * 256 + hex_val(text[4]) * 16
                + hex_val(text[5]);
            assert(v == (vc / 16) * 16 + (vc % 16));
            assert((vc / 16) * 16 + (vc % 16) == vc) by (nonlinear_arith)
                requires
                    0 <= vc,
            ;
            assert(is_scalar_value(v));
            assert(v as u32 == c as u32);
            vstd::utf8::char_u32_cast(c, v as u32);
            assert(((v as u32) as char) == c);
            assert(text.subrange(6, text.len() as int) =~= tail);
            assert(seq![c] + s1 =~= s);
        } else {
            assert(text[0] == c);
            assert(text.drop_first() =~= tail);
            assert(seq![c] + s1 =~= s);
        }
    }
}

proof fn lemma_skip_qstring(w: Seq<char>, content: Seq<char>, rest: Seq<char>)
    requires
        forall|k: int| 0 <= k < w.len() ==> is_json_ws(w[k]),
    ensures
        parse_qstring(skip_ws(w + (json_string(content) + rest))) == Some((content, rest)),
{
    let b = json_string(content) + rest;
    assert(b[0] == '"');
    lemma_skip_to(w, b);
    assert(b.drop_first() =~= esc_str(content) + seq!['"'] + rest);
    lemma_psb_escaped(content, rest);
}

/// The text that follows the first element of a serialised tag array.
pub open spec fn mt_text(ts: Seq<Seq<char>>) -> Seq<char> {
    if ts.len() == 0 {
        lit_tags_close()
    } else {
        lit_comma_nl() + tag_items(ts) + lit_tags_close()
    }
}

proof fn lemma_more_tags_rt(ts: Seq<Seq<char>>, rest: Seq<char>)
    ensures
        parse_more_tags(mt_text(ts) + rest) == Some((ts, rest)),
    decreases ts.len(),
{
    let text = mt_text(ts) + rest;
    if ts.len() == 0 {
        let w = seq!['\n', ' ', ' ', ' ', ' '];
        assert(text =~= w + (seq![']'] + rest));
        lemma_skip_to(w, seq![']'] + rest);
        let t = skip_ws(text);
        assert(t[0] == ']');
        assert(t.drop_first() =~= rest);
        assert(Seq::<Seq<char>>::empty() =~= ts);
    } else {
        assert(text[0] == ',');
        let t = text;
        assert(skip_ws(text) == text);
        let after = if ts.len() == 1 {
            lit_tags_close() + rest
        } else {
            lit_comma_nl() + tag_items(ts.drop_first()) + lit_tags_close() + rest
        };
        assert(after =~= mt_text(ts.drop_first()) + rest);
        let w = seq!['\n', ' ', ' ', ' ', ' ', ' ', ' '];
        assert(t.drop_first() =~= w + (json_string(ts[0]) + after));
        lemma_skip_qstring(w, ts[0], after);
        lemma_more_tags_rt(ts.drop_first(), rest);
        assert(seq![ts[0]] + ts.drop_first() =~= ts);
    }
}

/// The text of a serialised tag array after its opening bracket.
pub open spec fn tags_body(ts: Seq<Seq<char>>) -> Seq<char> {
    if ts.len() == 0 {
        seq![']']
    } else {
        seq!['\n'] + tag_items(ts) + lit_tags_close()
    }
}

proof fn lemma_tag_list_rt(ts: Seq<Seq<char>>, rest: Seq<char>)
    ensures
        parse_tag_list(tags_body(ts) + rest) == Some((ts, rest)),
{
    let text = tags_body(ts) + rest;
    if ts.len() == 0 {
        assert(text[0] == ']');
        assert(skip_ws(text) == text);
        assert(text.drop_first() =~= rest);
        assert(Seq::<Seq<char>>::empty() =~= ts);
    } else {
        let after = if ts.len() == 1 {
            lit_tags_close() + rest
        } else {
            lit_comma_nl() + tag_items(ts.drop_first()) + lit_tags_close() + rest
        };
        assert(after =~= mt_text(ts.drop_first()) + rest);
        let w = seq!['\n', ' ', ' ', ' ', ' ', ' ', ' '];
        assert(text =~= w + (json_string(ts[0]) + after));
        lemma_skip_to(w, json_string(ts[0]) + after);
        let t = skip_ws(text);
        assert(t == json_string(ts[0]) + after);
        assert(t[0] == '"');
        lemma_skip_qstring(Seq::<char>::empty(), ts[0], after);
        assert(Seq::<char>::empty() + (json_string(ts[0]) + after) =~= t);
        lemma_more_tags_rt(ts.drop_first(), rest);
        assert(seq![ts[0]] + ts.drop_first() =~= ts);
    }
}

/// Parsing undoes one serialised object, under any leading whitespace.
#[verifier::rlimit(100)]
#[verifier::spinoff_prover]
proof fn lemma_obj_rt(w: Seq<char>, c: CmdView, rest: Seq<char>)
    requires
        forall|k: int| 0 <= k < w.len() ==> is_json_ws(w[k]),
    ensures
        parse_obj(w + json_obj(c) + rest) == Some((c, rest)),
{
    let text = w + json_obj(c) + rest;
    let r3 = lit_obj_close() + rest;
    let r2 = lit_tags_head() + json_tags(c.tags) + r3;
    let r1 = lit_desc_head() + json_string(c.description) + r2;
    // '{'
    let w0 = w + seq![' ', ' '];
    let s1 = seq!['\n', ' ', ' ', ' ', ' '] + lit_qcommand() + seq![':'] + seq![' '] + json_string(
        c.command,
    ) + r1;
    assert(forall|k: int| 0 <= k < w0.len() ==> is_json_ws(w0[k]));
    assert(text =~= w0 + (seq!['{'] + s1));
    lemma_skip_expect(w0, seq!['{'], s1);
    // "command"
    let w1 = seq!['\n', ' ', ' ', ' ', ' '];
    let s2 = seq![':'] + seq![' '] + json_string(c.command) + r1;
    assert(forall|k: int| 0 <= k < w1.len() ==> is_json_ws(w1[k]));
    assert(s1 =~= w1 + (lit_qcommand() + s2));
    lemma_skip_expect(w1, lit_qcommand(), s2);
    // ':'
    let s3 = seq![' '] + json_string(c.command) + r1;
    assert(s2 =~= Seq::<char>::empty() + (seq![':'] + s3));
    lemma_skip_expect(Seq::<char>::empty(), seq![':'], s3);
    // the command string
    assert(s3 =~= seq![' '] + (json_string(c.command) + r1));
    lemma_skip_qstring(seq![' '], c.command, r1);
    // ','
    let s4 = seq!['\n', ' ', ' ', ' ', ' '] + lit_qdescription() + seq![':'] + seq![' ']
        + json_string(c.description) + r2;
    assert(r1 =~= Seq::<char>::empty() + (seq![','] + s4));
    lemma_skip_expect(Seq::<char>::empty(), seq![','], s4);
    // "description"
    let s5 = seq![':'] + seq![' '] + json_string(c.description) + r2;
    assert(s4 =~= w1 + (lit_qdescription() + s5));
    lemma_skip_expect(w1, lit_qdescription(), s5);
    // ':'
    let s6 = seq![' '] + json_string(c.description) + r2;
    assert(s5 =~= Seq::<char>::empty() + (seq![':'] + s6));
    lemma_skip_expect(Seq::<char>::empty(), seq![':'], s6);
    // the description string
    assert(s6 =~= seq![' '] + (json_string(c.description) + r2));
    lemma_skip_qstring(seq![' '], c.description, r2);
    // ','
    let s7 = seq!['\n', ' ', ' ', ' ', ' '] + lit_qtags() + seq![':'] + seq![' '] + json_tags(
        c.tags,
    ) + r3;
    assert(r2 =~= Seq::<char>::empty() + (seq![','] + s7));
    lemma_skip_expect(Seq::<char>::empty(), seq![','], s7);
    // "tags"
    let s8 = seq![':'] + seq![' '] + json_tags(c.tags) + r3;
    assert(s7 =~= w1 + (lit_qtags() + s8));
    lemma_skip_expect(w1, lit_qtags(), s8);
    // ':'
    let s9 = seq![' '] + json_tags(c.tags) + r3;
    assert(s8 =~= Seq::<char>::empty() + (seq![':'] + s9));
    lemma_skip_expect(Seq::<char>::empty(), seq![':'], s9);
    // '['
    let s10 = tags_body(c.tags) + r3;
    assert(json_tags(c.tags) =~= seq!['['] + tags_body(c.tags));
    assert(s9 =~= seq![' '] + (seq!['['] + s10));
    lemma_skip_expect(seq![' '], seq!['['], s10);
    // the tag array
    lemma_tag_list_rt(c.tags, r3);
    // '}'
    let w2 = seq!['\n', ' ', ' '];
    assert(forall|k: int| 0 <= k < w2.len() ==> is_json_ws(w2[k]));
    assert(r3 =~= w2 + (seq!['}'] + rest));
    lemma_skip_expect(w2, seq!['}'], rest);
    assert(CmdView { command: c.command, description: c.description, tags: c.tags } == c);
}

/// The text that follows the first element of a serialised record array.
pub open spec fn mo_text(cs: Seq<CmdView>) -> Seq<char> {
    if cs.len() == 0 {
        seq!['\n', ']']
    } else {
        lit_comma_nl() + json_objs(cs) + seq!['\n', ']']
    }
}

proof fn lemma_more_objs_rt(cs: Seq<CmdView>, rest: Seq<char>)
    ensures
        parse_more_objs(mo_text(cs) + rest) == Some((cs, rest)),
    decreases cs.len(),
{
    let text = mo_text(cs) + rest;
    if cs.len() == 0 {
        let w = seq!['\n'];
        assert(text =~= w + (seq![']'] + rest));
        lemma_skip_to(w, seq![']'] + rest);
        let t = skip_ws(text);
        assert(t[0] == ']');
        assert(t.drop_first() =~= rest);
        assert(Seq::<CmdView>::empty() =~= cs);
    } else {
        assert(text[0] == ',');
        assert(skip_ws(text) == text);
        let after = if cs.len() == 1 {
            seq!['\n', ']'] + rest
        } else {
            lit_comma_nl() + json_objs(cs.drop_first()) + seq!['\n', ']'] + rest
        };
        assert(after =~= mo_text(cs.drop_first()) + rest);
        assert(text.drop_first() =~= seq!['\n'] + json_obj(cs[0]) + after);
        lemma_obj_rt(seq!['\n'], cs[0], after);
        lemma_more_objs_rt(cs.drop_first(), rest);
        assert(seq![cs[0]] + cs.drop_first() =~= cs);
    }
}

/// The round trip: parsing a serialised store yields exactly the records
/// that were saved, for every well-formed sequence, the empty one included.
#[verifier::rlimit(100)]
#[verifier::spinoff_prover]
pub proof fn lemma_json_round_trip(records: Seq<CmdView>)
    ensures
        parse_doc(json_doc(records)) == Some(records),
{
    let doc = json_doc(records);
    if records.len() == 0 {
        assert(doc =~= seq!['['] + seq![']']);
        assert(doc[0] == '[');
        assert(skip_ws(doc) == doc);
        lemma_expect_prefix(seq!['['], seq![']']);
        assert(doc.subrange(1, 2) =~= seq![']']);
        let s1 = seq![']'];
        assert(expect(skip_ws(doc), seq!['[']) == Some(s1));
        assert(skip_ws(s1) == s1);
        assert(s1.drop_first() =~= Seq::<char>::empty());
        assert(Seq::<CmdView>::empty() =~= records);
    } else {
        let s1 = seq!['\n'] + json_objs(records) + seq!['\n', ']'];
        assert(doc =~= seq!['['] + s1);
        assert(doc[0] == '[');
        assert(skip_ws(doc) == doc);
        lemma_expect_prefix(seq!['['], s1);
        // the head after '[' skips to the first object's brace, not to ']'
        let w = seq!['\n', ' ', ' '];
        assert(forall|k: int| 0 <= k < w.len() ==> is_json_ws(w[k]));
        let after0 = if records.len() == 1 {
            seq!['\n', ']']
        } else {
            lit_comma_nl() + json_objs(records.drop_first()) + seq!['\n', ']']
        };
        assert(after0 =~= mo_text(records.drop_first()) + Seq::<char>::empty());
        assert(s1 =~= seq!['\n'] + json_obj(records[0]) + after0);
        let b = skip_ws(s1);
        assert(json_obj(records[0]) =~= seq![' ', ' ', '{'] + (json_obj(records[0]).subrange(
            3,
            json_obj(records[0]).len() as int,
        )));
        assert(s1 =~= w + (seq!['{'] + (json_obj(records[0]).subrange(
            3,
            json_obj(records[0]).len() as int,
        ) + after0)));
        lemma_skip_to(
            w,
            seq!['{'] + (json_obj(records[0]).subrange(3, json_obj(records[0]).len() as int)
                + after0),
        );
        assert(b[0] == '{');
        lemma_obj_rt(seq!['\n'], records[0], after0);
        lemma_more_objs_rt(records.drop_first(), Seq::<char>::empty());
        assert(skip_ws(Seq::<char>::empty()).len() == 0);
        assert(seq![records[0]] + records.drop_first() =~= records);
    }
}

/// Serialises the store to its pretty-printed JSON document.
pub fn save_to_json(cmds: &Vec<Cmd>) -> (r: String)
    ensures
        r@ == json_doc(cmds.deep_view()),
{
    let mut out = String::new();
    if cmds.len() == 0 {
        push_char(&mut out, '[');
        push_char(&mut out, ']');
        proof {
            assert(out@ =~= json_doc(cmds.deep_view()));
        }
        return out;
    }
    push_char(&mut out, '[');
    push_char(&mut out, '\n');
    let ghost head = out@;
    proof {
        assert(head =~= seq!['[', '\n']);
    }
    append_objs(&mut out, cmds, 0);
    proof {
        assert(cmds.deep_view().subrange(0, cmds@.len() as int) =~= cmds.deep_view());
    }
    push_char(&mut out, '\n');
    push_char(&mut out, ']');
    proof {
        assert(out@ =~= seq!['[', '\n'] + json_objs(cmds.deep_view()) + seq!['\n', ']']);
        assert(out@ =~= json_doc(cmds.deep_view()));
    }
    out
}

} // verus!
