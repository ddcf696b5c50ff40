//! The library's laws: properties that relate several operations, stated
//! over the same models the operations' contracts use, and proved.

use vstd::prelude::*;

use crate::json::{json_doc, lemma_json_round_trip, parse_doc};
use crate::record::CmdView;
use crate::store::{cmd_matches, delete_spec, search_spec};

verus! {

/// Round trip: loading a saved store yields exactly the records that were
/// saved, for every well-formed sequence, the empty one included.
pub proof fn lemma_save_load_round_trip(records: Seq<CmdView>)
    ensures
        parse_doc(json_doc(records)) == Some(records),
{
    lemma_json_round_trip(records);
}

/// An empty tag selection is no filter: the search returns the store
/// unchanged, order preserved.
pub proof fn lemma_search_empty_selection(s: Seq<CmdView>)
    ensures
        search_spec(s, Seq::<Seq<char>>::empty()) == s,
{
}

/// OR-semantics of a non-empty selection: every returned record shares at
/// least one tag with the selection, and every record of the store that
/// shares one appears in the result.
pub proof fn lemma_search_or_semantics(s: Seq<CmdView>, tags: Seq<Seq<char>>)
    requires
        tags.len() > 0,
    ensures
        forall|k: int|
            0 <= k < search_spec(s, tags).len() ==> cmd_matches(
                #[trigger] search_spec(s, tags)[k],
                tags,
            ),
        forall|i: int|
            0 <= i < s.len() && cmd_matches(s[i], tags) ==> search_spec(s, tags).contains(
                #[trigger] s[i],
            ),
{
    broadcast use vstd::seq_lib::group_filter_ensures;

}

/// Delete-by-equality is set-like: nothing equal to the target survives,
/// however many structurally identical copies the store held, and every
/// record different from the target is kept.
pub proof fn lemma_delete_removes_all(s: Seq<CmdView>, target: CmdView)
    ensures
        forall|k: int|
            0 <= k < delete_spec(s, target).len() ==> #[trigger] delete_spec(s, target)[k]
                != target,
        forall|i: int|
            0 <= i < s.len() && s[i] != target ==> delete_spec(s, target).contains(
                #[trigger] s[i],
            ),
{
    broadcast use vstd::seq_lib::group_filter_ensures;

}

/// Modify atomicity in memory: the state a modify hands to the save is the
/// deleted store with the new record appended, so the new record is always
/// present there; no state missing both old and new record is ever saved.
pub proof fn lemma_modify_post_state(s: Seq<CmdView>, target: CmdView, fresh: CmdView)
    ensures
        delete_spec(s, target).push(fresh).last() == fresh,
        delete_spec(s, target).push(fresh).contains(fresh),
        forall|k: int|
            0 <= k < delete_spec(s, target).len() ==> #[trigger] delete_spec(s, target).push(
                fresh,
            )[k] == delete_spec(s, target)[k],
{
    let d = delete_spec(s, target);
    assert(d.push(fresh)[d.len() as int] == fresh);
}

} // verus!
