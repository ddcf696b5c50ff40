//! The record model: a saved command line with a description and tags.

use vstd::prelude::*;
use vstd::string::*;

verus! {

/// The tag list joined with a comma and a space, as the rendering shows it.
pub open spec fn join_tags(ts: Seq<Seq<char>>) -> Seq<char>
    decreases ts.len(),
{
    if ts.len() == 0 {
        Seq::<char>::empty()
    } else if ts.len() == 1 {
        ts[0]
    } else {
        ts[0] + seq![',', ' '] + join_tags(ts.drop_first())
    }
}

/// The canonical human-readable rendering of a record: the command, then
/// an indented description line, then an indented bracketed tag list.
pub open spec fn render_spec(c: CmdView) -> Seq<char> {
    c.command + seq!['\n', '\t', '-', ' ', 'd', 'e', 's', 'c', ':', ' '] + c.description + seq![
        '\n',
        '\t',
        '-',
        ' ',
        't',
        'a',
        'g',
        's',
        ':',
        ' ',
        '[',
    ] + join_tags(c.tags) + seq![']']
}

/// Mathematical model of a saved command: the command line, the description
/// and the tag list, each as a sequence of characters.
#[verifier::ext_equal]
pub ghost struct CmdView {
    pub command: Seq<char>,
    pub description: Seq<char>,
    pub tags: Seq<Seq<char>>,
}

/// One saved command-line entry: the literal command, free-text description,
/// and an ordered list of free-form tags.
#[derive(Debug)]
pub struct Cmd {
    pub command: String,
    pub description: String,
    pub tags: Vec<String>,
}

impl View for Cmd {
    type V = CmdView;

    open spec fn view(&self) -> CmdView {
        CmdView {
            command: self.command@,
            description: self.description@,
            tags: self.tags.deep_view(),
        }
    }
}

impl DeepView for Cmd {
    type V = CmdView;

    open spec fn deep_view(&self) -> CmdView {
        self.view()
    }
}

impl Cmd {
    /// Constructs a record from its three fields; validation of the command
    /// and the tags is the caller's business, before construction.
    pub fn new(command: String, description: String, tags: Vec<String>) -> (r: Self)
        ensures
            r@ == (CmdView { command: command@, description: description@, tags: tags.deep_view() }),
    {
        Self { command, description, tags }
    }

    /// Renders the record for display, exactly as [`render_spec`] describes.
    pub fn render(&self) -> (r: String)
        ensures
            r@ == render_spec(self@),
    {
        let mut out = String::new();
        out.append(self.command.as_str());
        out.append("\n\t- desc: ");
        proof {
            reveal_strlit("\n\t- desc: ");
            assert(("\n\t- desc: ")@ =~= seq!['\n', '\t', '-', ' ', 'd', 'e', 's', 'c', ':', ' ']);
        }
        out.append(self.description.as_str());
        out.append("\n\t- tags: [");
        proof {
            reveal_strlit("\n\t- tags: [");
            assert(("\n\t- tags: [")@ =~= seq![
                '\n',
                '\t',
                '-',
                ' ',
                't',
                'a',
                'g',
                's',
                ':',
                ' ',
                '[',
            ]);
        }
        if self.tags.len() > 0 {
            append_joined(&mut out, &self.tags, 0);
            proof {
                assert(self.tags.deep_view().subrange(0, self.tags@.len() as int)
                    =~= self.tags.deep_view());
            }
        } else {
            proof {
                assert(out@ + join_tags(self.tags.deep_view()) =~= out@);
            }
        }
        out.append("]");
        proof {
            reveal_strlit("]");
            assert(("]")@ =~= seq![']']);
            assert(out@ =~= render_spec(self@));
        }
        out
    }
}

/// Appends the tags from index `i` on, joined with a comma and a space.
fn append_joined(out: &mut String, tags: &Vec<String>, i: usize)
    requires
        i < tags.len(),
    ensures
        final(out)@ == old(out)@ + join_tags(
            tags.deep_view().subrange(i as int, tags@.len() as int),
        ),
    decreases tags.len() - i,
{
    let ghost sfx = tags.deep_view().subrange(i as int, tags@.len() as int);
    proof {
        assert(sfx[0] == tags.deep_view()[i as int]);
        assert(tags.deep_view()[i as int] == tags@[i as int]@);
        assert(sfx.drop_first() =~= tags.deep_view().subrange(i + 1 as int, tags@.len() as int));
    }
    out.append(tags[i].as_str());
    if i + 1 == tags.len() {
        proof {
            assert(sfx.len() == 1);
            assert(out@ =~= old(out)@ + join_tags(sfx));
        }
    } else {
        out.append(", ");
        proof {
            reveal_strlit(", ");
            assert((", ")@ =~= seq![',', ' ']);
        }
        append_joined(out, tags, i + 1);
        proof {
            assert(old(out)@ + tags@[i as int]@ + seq![',', ' '] + join_tags(sfx.drop_first())
                =~= old(out)@ + join_tags(sfx));
        }
    }
}

impl Clone for Cmd {
    fn clone(&self) -> (r: Self)
        ensures
            r@ == self@,
    {
        let mut tags: Vec<String> = Vec::new();
        let mut i: usize = 0;
        while i < self.tags.len()
            invariant
                i <= self.tags.len(),
                tags@ == self.tags@.subrange(0, i as int),
            decreases self.tags.len() - i,
        {
            tags.push(self.tags[i].clone());
            proof {
                assert(tags@ =~= self.tags@.subrange(0, i + 1 as int));
            }
            i += 1;
        }
        proof {
            assert(tags@ =~= self.tags@);
            assert(tags.deep_view() =~= self.tags.deep_view());
        }
        Self { command: self.command.clone(), description: self.description.clone(), tags }
    }
}

impl PartialEq for Cmd {
    /// Full structural equality: command, description and tags all equal.
    fn eq(&self, other: &Self) -> (r: bool) {
        if !(self.command == other.command) {
            return false;
        }
        if !(self.description == other.description) {
            return false;
        }
        if self.tags.len() != other.tags.len() {
            proof {
                assert(self@.tags.len() != other@.tags.len());
            }
            return false;
        }
        let mut i: usize = 0;
        while i < self.tags.len()
            invariant
                i <= self.tags.len(),
                self.tags.len() == other.tags.len(),
                self@.command == other@.command,
                self@.description == other@.description,
                forall|j: int| 0 <= j < i ==> self@.tags[j] == other@.tags[j],
            decreases self.tags.len() - i,
        {
            if !(self.tags[i] == other.tags[i]) {
                proof {
                    assert(self@.tags[i as int] == self.tags@[i as int]@);
                    assert(other@.tags[i as int] == other.tags@[i as int]@);
                }
                return false;
            }
            i += 1;
        }
        proof {
            assert(self@.tags =~= other@.tags);
            assert(self@ =~= other@);
        }
        true
    }
}

impl Eq for Cmd {

}

impl vstd::std_specs::cmp::PartialEqSpecImpl for Cmd {
    open spec fn obeys_eq_spec() -> bool {
        true
    }

    open spec fn eq_spec(&self, other: &Self) -> bool {
        self@ == other@
    }
}

} // verus!
