//! Properties of the picker core, stated and proved once over the
//! spec-level model that the executable contracts speak of.

use vstd::prelude::*;

use crate::store::available_spec;
use crate::store::keep_last;
use crate::store::not_chosen;
use crate::store::reset_kept;
use crate::text::views;

verus! {

/// A pick stays inside the configured list and never repeats an already
/// chosen item: the available set holds exactly the configured items absent
/// from the chosen history, and whenever some configured item is still
/// unchosen the available set is non-empty. `pick`'s own contract places the
/// returned item in the available set, so on a configured list with an
/// unchosen item it returns a configured, unchosen item.
pub proof fn lemma_available_characterization(configured: Seq<Seq<char>>, chosen: Seq<Seq<char>>)
    ensures
        forall|x: Seq<char>|
            #[trigger] available_spec(configured, chosen).contains(x) <==> (configured.contains(x)
                && !chosen.contains(x)),
        (exists|i: int| 0 <= i < configured.len() && !chosen.contains(configured[i]))
            ==> available_spec(configured, chosen).len() > 0,
{
    let pred = not_chosen(chosen);
    let avail = available_spec(configured, chosen);
    assert forall|x: Seq<char>| #[trigger]
        avail.contains(x) implies configured.contains(x) && !chosen.contains(x) by {
        configured.lemma_filter_contains_rev(pred, x);
        let i = choose|i: int| 0 <= i < avail.len() && avail[i] == x;
        configured.lemma_filter_pred(pred, i);
    }
    assert forall|x: Seq<char>|
        configured.contains(x) && !chosen.contains(x) implies #[trigger] avail.contains(x) by {
        let i = choose|i: int| 0 <= i < configured.len() && configured[i] == x;
        configured.lemma_filter_contains(pred, i);
    }
    if exists|i: int| 0 <= i < configured.len() && !chosen.contains(configured[i]) {
        let i = choose|i: int| 0 <= i < configured.len() && !chosen.contains(configured[i]);
        configured.lemma_filter_contains(pred, i);
        assert(avail.contains(configured[i]));
    }
}

/// Reads are idempotent: the available set is a function of the store's
/// configured list and chosen history alone, so two availability listings
/// without an intervening `pick` or `reset` return the same sequence.
pub proof fn lemma_reads_idempotent(
    configured: Seq<Seq<char>>,
    chosen: Seq<Seq<char>>,
    first: Seq<Seq<char>>,
    second: Seq<Seq<char>>,
)
    requires
        first == available_spec(configured, chosen),
        second == available_spec(configured, chosen),
    ensures
        first == second,
{
}

/// Exhaustion: on a non-empty configured list, the history that a
/// pick-triggered reset leaves behind always leaves a non-empty available
/// set, and with retention 0 the available set becomes the whole configured
/// list again.
pub proof fn lemma_reset_restores_progress(
    configured: Seq<Seq<char>>,
    chosen: Seq<String>,
    retention: int,
)
    requires
        configured.len() > 0,
    ensures
        available_spec(configured, views(reset_kept(configured, chosen, retention))).len() > 0,
        retention == 0 ==> available_spec(configured, views(reset_kept(configured, chosen, 0)))
            == configured,
{
    let kept = reset_kept(configured, chosen, retention);
    if available_spec(configured, views(keep_last(chosen, retention))).len() > 0 {
    } else {
        assert(kept =~= Seq::<String>::empty());
        lemma_available_of_empty(configured, kept);
    }
    if retention == 0 {
        let kept0 = reset_kept(configured, chosen, 0);
        assert(keep_last(chosen, 0) =~= Seq::<String>::empty());
        lemma_available_of_empty(configured, keep_last(chosen, 0));
        assert(kept0 == keep_last(chosen, 0));
        lemma_available_of_empty(configured, kept0);
    }
}

/// An empty chosen history leaves the whole configured list available.
proof fn lemma_available_of_empty(configured: Seq<Seq<char>>, chosen: Seq<String>)
    requires
        chosen.len() == 0,
    ensures
        available_spec(configured, views(chosen)) == configured,
{
    assert(views(chosen) =~= Seq::<Seq<char>>::empty());
    assert forall|i: int|
        0 <= i < configured.len() implies #[trigger] not_chosen(views(chosen))(configured[i]) by {}
    crate::store::lemma_filter_all_true(configured, not_chosen(views(chosen)));
}

/// Round trip: a pick appends exactly the item it returns, so the chosen
/// history afterwards (what `list_chosen` reports) ends with that item.
pub proof fn lemma_pick_then_list_chosen(pre: Seq<String>, post: Seq<String>, item: String)
    requires
        post == pre.push(item),
    ensures
        post.len() == pre.len() + 1,
        post.last() == item,
        views(post) == views(pre).push(item@),
{
    assert(views(post) =~= views(pre).push(item@));
}

} // verus!
