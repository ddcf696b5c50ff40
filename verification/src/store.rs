//! Store operations: tag-filtered search, tag derivation, the mutation
//! operations (add, delete, modify), tag-syntax validation, and the mode
//! decoded from the command-line flag.

use vstd::prelude::*;
use vstd::string::*;

use crate::record::{Cmd, CmdView};
use crate::text::{is_space, is_space_char, split_on, split_spec, trim_spec, trim_str, ws_tokens_spec};

verus! {

/// The configuration failures the store can report; filesystem failures
/// stay with the caller that performs the I/O.
#[derive(Debug, PartialEq, Eq, Structural, Clone, Copy)]
pub enum ConfigError {
    /// A record may not hold an empty command line.
    EmptyCommand,
    /// The raw tag input failed the first-segment syntax check.
    InvalidTagSyntax,
    /// The persisted document is not a well-formed record array.
    MalformedJson,
    /// The command-line flag names no supported mode.
    InvalidFlag,
}

impl ConfigError {
    /// A human-readable description of the failure.
    pub fn message(&self) -> String {
        match self {
            ConfigError::EmptyCommand => String::from_str("You must provide a command"),
            ConfigError::InvalidTagSyntax => String::from_str("Tags must be comma-separated"),
            ConfigError::MalformedJson => String::from_str("The saved commands file holds malformed JSON"),
            ConfigError::InvalidFlag => String::from_str(
                "You must supply an argument either:\n-a for adding a command\n-s for searching a saved command",
            ),
        }
    }
}

/// The four supported invocation modes, decoded once at the boundary.
#[derive(Debug, PartialEq, Eq, Structural, Clone, Copy)]
pub enum Mode {
    Add,
    Search,
    Modify,
    Delete,
}

/// Which mode a (trimmed) command-line flag selects, if any.
pub open spec fn mode_of(flag: Seq<char>) -> Option<Mode> {
    if flag == "-a"@ {
        Some(Mode::Add)
    } else if flag == "-s"@ {
        Some(Mode::Search)
    } else if flag == "-m"@ {
        Some(Mode::Modify)
    } else if flag == "-d"@ {
        Some(Mode::Delete)
    } else {
        None
    }
}

/// Character-by-character string equality.
pub fn str_eq_str(a: &str, b: &str) -> (r: bool)
    ensures
        r == (a@ == b@),
{
    let na = a.unicode_len();
    let nb = b.unicode_len();
    if na != nb {
        return false;
    }
    let mut i: usize = 0;
    while i < na
        invariant
            i <= na,
            na == a@.len(),
            na == b@.len(),
            forall|k: int| 0 <= k < i ==> a@[k] == b@[k],
        decreases na - i,
    {
        if a.get_char(i) != b.get_char(i) {
            return false;
        }
        i += 1;
    }
    proof {
        assert(a@ =~= b@);
    }
    true
}

/// Decodes the mode flag, rejecting anything but the four supported flags.
pub fn parse_mode(flag: &str) -> (r: Result<Mode, ConfigError>)
    ensures
        r == (match mode_of(flag@) {
            Some(m) => Ok::<Mode, ConfigError>(m),
            None => Err::<Mode, ConfigError>(ConfigError::InvalidFlag),
        }),
{
    if str_eq_str(flag, "-a") {
        Ok(Mode::Add)
    } else if str_eq_str(flag, "-s") {
        Ok(Mode::Search)
    } else if str_eq_str(flag, "-m") {
        Ok(Mode::Modify)
    } else if str_eq_str(flag, "-d") {
        Ok(Mode::Delete)
    } else {
        Err(ConfigError::InvalidFlag)
    }
}

/// Whether a tag segment holds one of the characters the validation policy
/// forbids: a semicolon, a hyphen, or a tab.
pub open spec fn has_forbidden_char(seg: Seq<char>) -> bool {
    exists|i: int| 0 <= i < seg.len() && (seg[i] == ';' || seg[i] == '-' || seg[i] == '\t')
}

/// Whether a raw tag input passes validation: only the first comma-separated
/// segment is inspected, by design.
pub open spec fn tags_input_ok(raw: Seq<char>) -> bool {
    !has_forbidden_char(split_spec(raw, ',')[0])
}

/// Validates the raw tag input: accepts it exactly when the first
/// comma-separated segment is free of forbidden characters.
pub fn option_split(input: &str) -> (r: Option<()>)
    ensures
        r is Some <==> tags_input_ok(input@),
{
    let segs = split_on(input, ',');
    let first: &String = &segs[0];
    proof {
        assert(first@ == segs.deep_view()[0]);
    }
    let n = first.as_str().unicode_len();
    let mut i: usize = 0;
    while i < n
        invariant
            i <= n,
            n == first@.len(),
            first@ == split_spec(input@, ',')[0],
            forall|k: int| 0 <= k < i ==> !(first@[k] == ';' || first@[k] == '-' || first@[k] == '\t'),
        decreases n - i,
    {
        let c = first.as_str().get_char(i);
        if c == ';' || c == '-' || c == '\t' {
            return None;
        }
        i += 1;
    }
    Some(())
}

/// Whether a record carries at least one tag from the selection.
pub open spec fn cmd_matches(c: CmdView, tags: Seq<Seq<char>>) -> bool {
    exists|i: int| 0 <= i < c.tags.len() && tags.contains(c.tags[i])
}

/// The OR-filter: an empty selection keeps everything; otherwise exactly the
/// records sharing at least one tag with the selection, in original order.
pub open spec fn search_spec(s: Seq<CmdView>, tags: Seq<Seq<char>>) -> Seq<CmdView> {
    if tags.len() == 0 {
        s
    } else {
        s.filter(|c: CmdView| cmd_matches(c, tags))
    }
}

fn contains_string(v: &Vec<String>, x: &String) -> (b: bool)
    ensures
        b == v.deep_view().contains(x@),
{
    let mut i: usize = 0;
    while i < v.len()
        invariant
            i <= v.len(),
            forall|k: int| 0 <= k < i ==> v.deep_view()[k] != x@,
        decreases v.len() - i,
    {
        proof {
            assert(v.deep_view()[i as int] == v@[i as int]@);
        }
        if v[i] == *x {
            return true;
        }
        i += 1;
    }
    proof {
        assert(forall|k: int| 0 <= k < v.deep_view().len() ==> v.deep_view()[k] != x@);
    }
    false
}

fn has_matching_tag(c: &Cmd, tags: &Vec<String>) -> (b: bool)
    ensures
        b == cmd_matches(c.deep_view(), tags.deep_view()),
{
    let mut i: usize = 0;
    while i < c.tags.len()
        invariant
            i <= c.tags.len(),
            forall|k: int| 0 <= k < i ==> !tags.deep_view().contains(c.deep_view().tags[k]),
        decreases c.tags.len() - i,
    {
        if contains_string(tags, &c.tags[i]) {
            proof {
                assert(c.deep_view().tags[i as int] == c.tags@[i as int]@);
            }
            return true;
        }
        i += 1;
    }
    false
}

/// Filters the store by the selected tags, with OR-semantics across a
/// record's tags: an empty selection returns the store unchanged.
pub fn search(cmds: &[Cmd], search_tags: Vec<String>) -> (r: Vec<Cmd>)
    ensures
        r.deep_view() == search_spec(cmds.deep_view(), search_tags.deep_view()),
{
    if search_tags.is_empty() {
        let mut r: Vec<Cmd> = Vec::new();
        let mut i: usize = 0;
        while i < cmds.len()
            invariant
                i <= cmds.len(),
                r.deep_view() == cmds.deep_view().subrange(0, i as int),
            decreases cmds.len() - i,
        {
            let ghost prev = r.deep_view();
            r.push(cmds[i].clone());
            proof {
                assert(r.deep_view() =~= prev.push(cmds.deep_view()[i as int]));
                assert(r.deep_view() =~= cmds.deep_view().subrange(0, i + 1 as int));
            }
            i += 1;
        }
        proof {
            assert(cmds.deep_view().subrange(0, cmds.len() as int) =~= cmds.deep_view());
        }
        r
    } else {
        let ghost sel = search_tags.deep_view();
        let ghost pred = |c: CmdView| cmd_matches(c, sel);
        let mut r: Vec<Cmd> = Vec::new();
        let mut i: usize = 0;
        while i < cmds.len()
            invariant
                i <= cmds.len(),
                sel == search_tags.deep_view(),
                sel.len() > 0,
                pred == (|c: CmdView| cmd_matches(c, sel)),
                r.deep_view() == cmds.deep_view().subrange(0, i as int).filter(pred),
            decreases cmds.len() - i,
        {
            let ghost prefix = cmds.deep_view().subrange(0, i as int);
            let ghost prefix1 = cmds.deep_view().subrange(0, i + 1 as int);
            proof {
                reveal_with_fuel(Seq::<CmdView>::filter, 2);
                assert(cmds.deep_view()[i as int] == cmds@[i as int].deep_view());
                assert(prefix1.drop_last() =~= prefix);
                assert(prefix1.last() == cmds.deep_view()[i as int]);
            }
            if has_matching_tag(&cmds[i], &search_tags) {
                let ghost prev = r.deep_view();
                r.push(cmds[i].clone());
                proof {
                    reveal_with_fuel(Seq::<CmdView>::filter, 2);
                    assert(pred(prefix1.last()));
                    assert(r.deep_view() =~= prev.push(cmds.deep_view()[i as int]));
                    assert(r.deep_view() =~= prefix1.filter(pred));
                }
            } else {
                proof {
                    reveal_with_fuel(Seq::<CmdView>::filter, 2);
                    assert(!pred(prefix1.last()));
                    assert(r.deep_view() =~= prefix1.filter(pred));
                }
            }
            i += 1;
        }
        proof {
            assert(cmds.deep_view().subrange(0, cmds.len() as int) =~= cmds.deep_view());
        }
        r
    }
}

/// Delete-by-equality: what remains of a store after every record
/// structurally equal to the target is removed, order preserved.
pub open spec fn delete_spec(s: Seq<CmdView>, target: CmdView) -> Seq<CmdView> {
    s.filter(|c: CmdView| c != target)
}

/// Removes every record structurally equal to `cmd`, preserving the
/// relative order of the remainder.
pub fn delete(cmds: &mut Vec<Cmd>, cmd: Cmd)
    ensures
        final(cmds).deep_view() == delete_spec(old(cmds).deep_view(), cmd@),
{
    let mut kept: Vec<Cmd> = Vec::new();
    let mut i: usize = 0;
    while i < cmds.len()
        invariant
            i <= cmds.len(),
            kept.deep_view() == delete_spec(cmds.deep_view().subrange(0, i as int), cmd@),
        decreases cmds.len() - i,
    {
        let ghost prefix = cmds.deep_view().subrange(0, i as int);
        let ghost prefix1 = cmds.deep_view().subrange(0, i + 1 as int);
        proof {
            reveal_with_fuel(Seq::<CmdView>::filter, 2);
            assert(cmds.deep_view()[i as int] == cmds@[i as int].deep_view());
            assert(prefix1.drop_last() =~= prefix);
            assert(prefix1.last() == cmds.deep_view()[i as int]);
        }
        if !(cmds[i] == cmd) {
            let ghost prev = kept.deep_view();
            kept.push(cmds[i].clone());
            proof {
                reveal_with_fuel(Seq::<CmdView>::filter, 2);
                assert(kept.deep_view() =~= prev.push(cmds.deep_view()[i as int]));
                assert(kept.deep_view() =~= delete_spec(prefix1, cmd@));
            }
        } else {
            proof {
                reveal_with_fuel(Seq::<CmdView>::filter, 2);
                assert(kept.deep_view() =~= delete_spec(prefix1, cmd@));
            }
        }
        i += 1;
    }
    proof {
        assert(cmds.deep_view().subrange(0, cmds.len() as int) =~= cmds.deep_view());
    }
    *cmds = kept;
}

/// The tag list a raw comma-separated input ingests to: split on commas,
/// each piece trimmed.
pub open spec fn ingest_tags(raw: Seq<char>) -> Seq<Seq<char>> {
    split_spec(raw, ',').map_values(|t: Seq<char>| trim_spec(t))
}

/// The record an accepted add appends.
pub open spec fn added_record(command: Seq<char>, description: Seq<char>, raw: Seq<char>) -> CmdView {
    CmdView { command, description, tags: ingest_tags(raw) }
}

/// Splits the raw tag input on commas and trims each piece.
pub fn ingest_tag_list(raw: &str) -> (r: Vec<String>)
    ensures
        r.deep_view() == ingest_tags(raw@),
{
    let segs = split_on(raw, ',');
    let mut tags: Vec<String> = Vec::new();
    let mut i: usize = 0;
    while i < segs.len()
        invariant
            i <= segs.len(),
            segs.deep_view() == split_spec(raw@, ','),
            tags.len() == i,
            forall|k: int| 0 <= k < i ==> tags.deep_view()[k] == trim_spec(segs.deep_view()[k]),
        decreases segs.len() - i,
    {
        let t = trim_str(segs[i].as_str());
        proof {
            assert(segs@[i as int]@ == segs.deep_view()[i as int]);
        }
        let ghost prev = tags.deep_view();
        tags.push(t);
        proof {
            assert(tags.deep_view() =~= prev.push(t@));
        }
        i += 1;
    }
    proof {
        assert(tags.deep_view() =~= ingest_tags(raw@));
    }
    tags
}

/// Validates and appends a new record: the command must be non-empty and the
/// raw tag input must pass the first-segment syntax check; on any rejection
/// the store is left unchanged.
pub fn add(cmds: &mut Vec<Cmd>, command: String, description: String, raw_tags: String) -> (r:
    Result<(), ConfigError>)
    ensures
        r is Ok <==> (command@.len() > 0 && tags_input_ok(raw_tags@)),
        command@.len() == 0 ==> r == Err::<(), ConfigError>(ConfigError::EmptyCommand),
        command@.len() > 0 && !tags_input_ok(raw_tags@) ==> r == Err::<(), ConfigError>(
            ConfigError::InvalidTagSyntax,
        ),
        r is Ok ==> final(cmds).deep_view() == old(cmds).deep_view().push(
            added_record(command@, description@, raw_tags@),
        ),
        r is Err ==> final(cmds).deep_view() == old(cmds).deep_view(),
{
    if command.as_str().is_empty() {
        return Err(ConfigError::EmptyCommand);
    }
    if option_split(raw_tags.as_str()).is_none() {
        return Err(ConfigError::InvalidTagSyntax);
    }
    let tags = ingest_tag_list(raw_tags.as_str());
    let ghost prev = cmds.deep_view();
    let record = Cmd::new(command, description, tags);
    let ghost rv = record@;
    cmds.push(record);
    proof {
        assert(cmds.deep_view() =~= prev.push(rv));
    }
    Ok(())
}

/// Replaces a record: delete-by-equality of the target, then an add of the
/// newly collected record, validated up front so that a rejection leaves the
/// store untouched. The in-memory sequence always reflects the full
/// post-add state; there is no intermediate state to persist.
pub fn modify(cmds: &mut Vec<Cmd>, target: &Cmd, command: String, description: String,
    raw_tags: String) -> (r: Result<(), ConfigError>)
    ensures
        r is Ok <==> (command@.len() > 0 && tags_input_ok(raw_tags@)),
        command@.len() == 0 ==> r == Err::<(), ConfigError>(ConfigError::EmptyCommand),
        command@.len() > 0 && !tags_input_ok(raw_tags@) ==> r == Err::<(), ConfigError>(
            ConfigError::InvalidTagSyntax,
        ),
        r is Ok ==> final(cmds).deep_view() == delete_spec(old(cmds).deep_view(), target@).push(
            added_record(command@, description@, raw_tags@),
        ),
        r is Err ==> final(cmds).deep_view() == old(cmds).deep_view(),
{
    if command.as_str().is_empty() {
        return Err(ConfigError::EmptyCommand);
    }
    if option_split(raw_tags.as_str()).is_none() {
        return Err(ConfigError::InvalidTagSyntax);
    }
    delete(cmds, target.clone());
    crate::store::add(cmds, command, description, raw_tags)
}

/// The set of distinct trimmed tags across the whole store.
pub open spec fn tag_set_spec(s: Seq<CmdView>) -> Set<Seq<char>> {
    Set::new(
        |t: Seq<char>|
            exists|i: int, j: int|
                0 <= i < s.len() && 0 <= j < s[i].tags.len() && t == trim_spec(s[i].tags[j]),
    )
}

/// Derives the distinct trimmed tags of the store, each exactly once, in
/// first-occurrence order.
pub fn all_tags(cmds: &Vec<Cmd>) -> (r: Vec<String>)
    ensures
        forall|k: int| 0 <= k < r.deep_view().len() ==> tag_set_spec(cmds.deep_view()).contains(
            #[trigger] r.deep_view()[k],
        ),
        forall|t: Seq<char>|
            tag_set_spec(cmds.deep_view()).contains(t) ==> r.deep_view().contains(t),
        forall|k: int, l: int|
            0 <= k < l < r.deep_view().len() ==> r.deep_view()[k] != r.deep_view()[l],
{
    let ghost s = cmds.deep_view();
    let mut r: Vec<String> = Vec::new();
    let mut i: usize = 0;
    while i < cmds.len()
        invariant
            i <= cmds.len(),
            s == cmds.deep_view(),
            forall|k: int| 0 <= k < r.deep_view().len() ==> tag_set_spec(s).contains(
                #[trigger] r.deep_view()[k],
            ),
            forall|a: int, j: int|
                0 <= a < i && 0 <= j < s[a].tags.len() ==> r.deep_view().contains(
                    trim_spec(#[trigger] s[a].tags[j]),
                ),
            forall|k: int, l: int|
                0 <= k < l < r.deep_view().len() ==> r.deep_view()[k] != r.deep_view()[l],
        decreases cmds.len() - i,
    {
        let c: &Cmd = &cmds[i];
        let mut j: usize = 0;
        while j < c.tags.len()
            invariant
                i < cmds.len(),
                j <= c.tags.len(),
                s == cmds.deep_view(),
                c@ == s[i as int],
                forall|k: int| 0 <= k < r.deep_view().len() ==> tag_set_spec(s).contains(
                    #[trigger] r.deep_view()[k],
                ),
                forall|a: int, jj: int|
                    0 <= a < i && 0 <= jj < s[a].tags.len() ==> r.deep_view().contains(
                        trim_spec(#[trigger] s[a].tags[jj]),
                    ),
                forall|jj: int|
                    0 <= jj < j ==> r.deep_view().contains(trim_spec(#[trigger] s[i as int].tags[jj])),
                forall|k: int, l: int|
                    0 <= k < l < r.deep_view().len() ==> r.deep_view()[k] != r.deep_view()[l],
            decreases c.tags.len() - j,
        {
            let t = trim_str(c.tags[j].as_str());
            proof {
                assert(c.tags[j as int]@ == c@.tags[j as int]);
                assert(t@ == trim_spec(s[i as int].tags[j as int]));
                assert(tag_set_spec(s).contains(t@));
            }
            if !contains_string(&r, &t) {
                let ghost prev = r.deep_view();
                r.push(t);
                proof {
                    assert(r.deep_view() =~= prev.push(trim_spec(s[i as int].tags[j as int])));
                    assert forall|x: Seq<char>| prev.contains(x) implies r.deep_view().contains(
                        x,
                    ) by {
                        let k = choose|k: int| 0 <= k < prev.len() && prev[k] == x;
                        assert(r.deep_view()[k] == x);
                    }
                    assert(r.deep_view()[prev.len() as int] == trim_spec(
                        s[i as int].tags[j as int],
                    ));
                    assert(r.deep_view().contains(trim_spec(s[i as int].tags[j as int])));
                }
            }
            j += 1;
        }
        i += 1;
    }
    r
}

/// The whitespace tokens of a record's command line: the head is the
/// executable, the rest are its arguments; empty when the command line is
/// all whitespace.
pub fn command_parts(command: &str) -> (r: Option<(String, Vec<String>)>)
    ensures
        r is Some <==> ws_tokens_spec(command@).len() > 0,
        r matches Some(p) ==> p.0@ == ws_tokens_spec(command@)[0] && p.1.deep_view()
            == ws_tokens_spec(command@).drop_first(),
{
    let mut toks = whitespace_tokens(command);
    if toks.len() == 0 {
        return None;
    }
    let ghost all = toks.deep_view();
    let head = toks.remove(0);
    proof {
        assert(head@ == all[0]);
        assert(toks.deep_view() =~= all.drop_first());
    }
    Some((head, toks))
}

proof fn lemma_ws_tokens_all_space(s: Seq<char>)
    requires
        forall|k: int| 0 <= k < s.len() ==> is_space_char(s[k]),
    ensures
        ws_tokens_spec(s) == Seq::<Seq<char>>::empty(),
    decreases s.len(),
{
    if s.len() > 0 {
        lemma_ws_tokens_all_space(s.drop_first());
    }
}

/// Unfolds the tokenisation at its first token: leading whitespace, then a
/// maximal non-whitespace run, then the rest.
proof fn lemma_ws_tokens_at(s: Seq<char>, i: int, j: int)
    requires
        0 <= i < j <= s.len(),
        forall|k: int| 0 <= k < i ==> is_space_char(s[k]),
        forall|k: int| i <= k < j ==> !is_space_char(s[k]),
        j == s.len() || is_space_char(s[j]),
    ensures
        ws_tokens_spec(s) == seq![s.subrange(i, j)] + ws_tokens_spec(s.subrange(j, s.len() as int)),
    decreases s.len(),
{
    let d = s.drop_first();
    if i > 0 {
        lemma_ws_tokens_at(d, i - 1, j - 1);
        assert(d.subrange(i - 1, j - 1) =~= s.subrange(i, j));
        assert(d.subrange(j - 1, d.len() as int) =~= s.subrange(j, s.len() as int));
    } else {
        if j == 1 {
            assert(s.len() == 1 || is_space_char(s[1]));
            assert(d =~= s.subrange(1, s.len() as int));
            assert(seq![s[0]] =~= s.subrange(0, 1));
        } else {
            assert(!is_space_char(s[1]));
            lemma_ws_tokens_at(d, 0, j - 1);
            assert(d.subrange(0, j - 1) =~= s.subrange(1, j));
            assert(d.subrange(j - 1, d.len() as int) =~= s.subrange(j, s.len() as int));
            let rest = ws_tokens_spec(d);
            assert(rest == seq![s.subrange(1, j)] + ws_tokens_spec(s.subrange(j, s.len() as int)));
            assert(rest[0] == s.subrange(1, j));
            assert(ws_tokens_spec(s) == rest.update(0, seq![s[0]] + rest[0]));
            assert(seq![s[0]] + s.subrange(1, j) =~= s.subrange(0, j));
            assert(ws_tokens_spec(s) =~= seq![s.subrange(0, j)] + ws_tokens_spec(
                s.subrange(j, s.len() as int),
            ));
        }
    }
}

/// Splits a command line into its whitespace-separated tokens.
pub fn whitespace_tokens(s: &str) -> (r: Vec<String>)
    ensures
        r.deep_view() == ws_tokens_spec(s@),
{
    let n = s.unicode_len();
    let mut r: Vec<String> = Vec::new();
    let mut pos: usize = 0;
    proof {
        assert(s@.subrange(0, n as int) =~= s@);
        assert(r.deep_view() =~= Seq::<Seq<char>>::empty());
        assert(r.deep_view() + ws_tokens_spec(s@) =~= ws_tokens_spec(s@));
    }
    loop
        invariant
            pos <= n,
            n == s@.len(),
            ws_tokens_spec(s@) == r.deep_view() + ws_tokens_spec(s@.subrange(pos as int, n as int)),
        decreases n - pos,
    {
        let mut i: usize = pos;
        while i < n && is_space(s.get_char(i))
            invariant
                pos <= i <= n,
                n == s@.len(),
                forall|k: int| pos <= k < i ==> is_space_char(s@[k]),
            decreases n - i,
        {
            i += 1;
        }
        if i == n {
            proof {
                let suffix = s@.subrange(pos as int, n as int);
                assert(forall|k: int| 0 <= k < suffix.len() ==> is_space_char(suffix[k]));
                lemma_ws_tokens_all_space(suffix);
                assert(r.deep_view() + ws_tokens_spec(suffix) =~= r.deep_view());
            }
            return r;
        }
        let mut j: usize = i;
        while j < n && !is_space(s.get_char(j))
            invariant
                i <= j <= n,
                n == s@.len(),
                forall|k: int| i <= k < j ==> !is_space_char(s@[k]),
            decreases n - j,
        {
            j += 1;
        }
        let tok = s.substring_char(i, j).to_owned();
        proof {
            let suffix = s@.subrange(pos as int, n as int);
            lemma_ws_tokens_at(suffix, i - pos as int, j - pos as int);
            assert(suffix.subrange(i - pos as int, j - pos as int) =~= s@.subrange(
                i as int,
                j as int,
            ));
            assert(suffix.subrange(j - pos as int, suffix.len() as int) =~= s@.subrange(
                j as int,
                n as int,
            ));
            assert((r.deep_view().push(tok@)) + ws_tokens_spec(s@.subrange(j as int, n as int))
                =~= r.deep_view() + (seq![s@.subrange(i as int, j as int)] + ws_tokens_spec(
                s@.subrange(j as int, n as int),
            )));
        }
        let ghost prev = r.deep_view();
        r.push(tok);
        proof {
            assert(r.deep_view() =~= prev.push(s@.subrange(i as int, j as int)));
        }
        pos = j;
    }
}

} // verus!
