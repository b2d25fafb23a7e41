//! The picker core: one store per group, holding the configured item list,
//! the chosen history, and the retention count applied by a reset. A pick
//! draws a uniformly random item from the configured items not yet in the
//! history, appends it to the history, and resets the history first when
//! every configured item has already been chosen.

use vstd::prelude::*;

use crate::errors::PickError;
use crate::text::render_lines;
use crate::text::views;

verus! {

/// Membership test used by the availability filter: an item passes when the
/// chosen history does not contain it.
pub open spec fn not_chosen(chosen: Seq<Seq<char>>) -> spec_fn(Seq<char>) -> bool {
    |x: Seq<char>| !chosen.contains(x)
}

/// The available items: the configured items that the chosen history does
/// not contain, in configured order.
pub open spec fn available_spec(configured: Seq<Seq<char>>, chosen: Seq<Seq<char>>) -> Seq<
    Seq<char>,
> {
    configured.filter(not_chosen(chosen))
}

/// The last `r` entries of `s` (all of `s` when it is no longer than `r`).
pub open spec fn keep_last<A>(s: Seq<A>, r: int) -> Seq<A> {
    if s.len() <= r {
        s
    } else {
        s.subrange(s.len() - r, s.len() as int)
    }
}

/// The history that a pick-triggered reset leaves behind: the last `r`
/// chosen entries, unless even those would leave nothing available, in which
/// case the history is cleared completely so that a pick can always make
/// progress.
pub open spec fn reset_kept(configured: Seq<Seq<char>>, chosen: Seq<String>, r: int) -> Seq<
    String,
> {
    let kept = keep_last(chosen, r);
    if available_spec(configured, views(kept)).len() > 0 {
        kept
    } else {
        Seq::empty()
    }
}

pub(crate) proof fn lemma_filter_all_true<A>(s: Seq<A>, pred: spec_fn(A) -> bool)
    requires
        forall|i: int| 0 <= i < s.len() ==> pred(s[i]),
    ensures
        s.filter(pred) == s,
    decreases s.len(),
{
    reveal(Seq::filter);
    if s.len() > 0 {
        lemma_filter_all_true(s.drop_last(), pred);
        assert(s.drop_last().push(s.last()) =~= s);
        assert(s.filter(pred) =~= s);
    }
}

/// Relies on rand::random_range over `0..n`: a uniform sample from the
/// non-empty range, strictly below `n`.
#[verifier::external_body]
fn random_index(n: usize) -> (r: usize)
    requires
        n >= 1,
    ensures
        r < n,
{
    rand::random_range(0..n)
}

/// Whether some string in `items` has exactly the characters of `x`.
fn contains_string(items: &Vec<String>, x: &String) -> (r: bool)
    ensures
        r == views(items@).contains(x@),
{
    let n = items.len();
    let mut k: usize = 0;
    while k < n
        invariant
            k <= n,
            n == items@.len(),
            forall|j: int| 0 <= j < k ==> views(items@)[j] != x@,
        decreases n - k,
    {
        if x.eq(&items[k]) {
            proof {
                assert(views(items@)[k as int] == x@);
            }
            return true;
        }
        k = k + 1;
    }
    proof {
        assert forall|j: int| 0 <= j < views(items@).len() implies views(items@)[j] != x@ by {}
    }
    false
}

/// A copy of the entries of `items` between indices `a` and `b`.
fn clone_range(items: &Vec<String>, a: usize, b: usize) -> (r: Vec<String>)
    requires
        a <= b <= items@.len(),
    ensures
        r@ == items@.subrange(a as int, b as int),
{
    let mut out: Vec<String> = Vec::new();
    let mut k: usize = a;
    proof {
        assert(out@ =~= items@.subrange(a as int, a as int));
    }
    while k < b
        invariant
            a <= k <= b <= items@.len(),
            out@ == items@.subrange(a as int, k as int),
        decreases b - k,
    {
        let it = &items[k];
        out.push(it.clone());
        proof {
            assert(out@ =~= items@.subrange(a as int, k + 1));
        }
        k = k + 1;
    }
    out
}

/// The configured items that are not in the chosen history, in configured
/// order. Fails when the configured list itself is empty.
pub fn list_available_items(items: &Vec<String>, chosen: &Vec<String>) -> (r: Result<
    Vec<String>,
    PickError,
>)
    ensures
        r is Err <==> items@.len() == 0,
        r is Err ==> r->Err_0 == PickError::EmptyConfiguredList,
        r is Ok ==> views(r->Ok_0@) == available_spec(views(items@), views(chosen@)),
{
    if items.len() == 0 {
        return Err(PickError::EmptyConfiguredList);
    }
    let ghost pred = not_chosen(views(chosen@));
    let n = items.len();
    let mut out: Vec<String> = Vec::new();
    let mut k: usize = 0;
    proof {
        assert(views(items@).subrange(0, 0) =~= Seq::<Seq<char>>::empty());
        reveal(Seq::filter);
        assert(views(out@) =~= Seq::<Seq<char>>::empty().filter(pred));
    }
    while k < n
        invariant
            k <= n,
            n == items@.len(),
            pred == not_chosen(views(chosen@)),
            views(out@) == views(items@).subrange(0, k as int).filter(pred),
        decreases n - k,
    {
        let it = &items[k];
        let inchosen = contains_string(chosen, it);
        let ghost prev = out@;
        if !inchosen {
            out.push(it.clone());
        }
        proof {
            let all = views(items@);
            assert(all[k as int] == items@[k as int]@);
            assert(all.subrange(0, k + 1) =~= all.subrange(0, k as int).push(all[k as int]));
            all.subrange(0, k as int).lemma_filter_push(all[k as int], pred);
            if !inchosen {
                assert(out@.len() == prev.len() + 1);
                assert(out@.last() == items@[k as int]);
                assert(views(out@) =~= views(prev).push(all[k as int]));
            } else {
                assert(out@ == prev);
            }
        }
        k = k + 1;
    }
    proof {
        assert(views(items@).subrange(0, n as int) =~= views(items@));
    }
    Ok(out)
}

/// What a successful pick reports: the item drawn, and whether the chosen
/// history had to be reset first because every configured item was already
/// chosen.
#[derive(Debug)]
pub struct PickOutcome {
    pub item: String,
    pub did_reset: bool,
}

/// The picker state for one group: the configured items (read-only at run
/// time), the chosen history in insertion order, and the retention count
/// `retention` of most-recent history entries that a reset preserves.
pub struct PickerStore {
    pub configured: Vec<String>,
    pub chosen: Vec<String>,
    pub retention: usize,
}

impl PickerStore {
    /// A store over the given configured list and previously persisted
    /// chosen history.
    pub fn new(configured: Vec<String>, chosen: Vec<String>, retention: usize) -> (r: PickerStore)
        ensures
            r.configured == configured,
            r.chosen == chosen,
            r.retention == retention,
    {
        PickerStore { configured, chosen, retention }
    }

    /// The configured items, verbatim, in configured order.
    pub fn list_configured(&self) -> (r: Vec<String>)
        ensures
            r@ == self.configured@,
    {
        let n = self.configured.len();
        let r = clone_range(&self.configured, 0, n);
        proof {
            assert(self.configured@.subrange(0, n as int) =~= self.configured@);
        }
        r
    }

    /// The chosen history, in insertion order; empty when nothing has been
    /// chosen yet.
    pub fn list_chosen(&self) -> (r: Vec<String>)
        ensures
            r@ == self.chosen@,
    {
        let n = self.chosen.len();
        let r = clone_range(&self.chosen, 0, n);
        proof {
            assert(self.chosen@.subrange(0, n as int) =~= self.chosen@);
        }
        r
    }

    /// The configured items not yet chosen, in configured order. Fails when
    /// the configured list is empty.
    pub fn list_available(&self) -> (r: Result<Vec<String>, PickError>)
        ensures
            r is Err <==> self.configured@.len() == 0,
            r is Err ==> r->Err_0 == PickError::EmptyConfiguredList,
            r is Ok ==> views(r->Ok_0@) == available_spec(
                views(self.configured@),
                views(self.chosen@),
            ),
    {
        list_available_items(&self.configured, &self.chosen)
    }

    /// Truncates the chosen history to its last `retention` entries
    /// (`retention` 0 clears it completely). Resetting an already short
    /// history keeps it as it is; it is never an error.
    pub fn reset(&mut self)
        ensures
            final(self).configured == old(self).configured,
            final(self).retention == old(self).retention,
            final(self).chosen@ == keep_last(old(self).chosen@, old(self).retention as int),
    {
        let len = self.chosen.len();
        if len > self.retention {
            let start = len - self.retention;
            let kept = clone_range(&self.chosen, start, len);
            self.chosen = kept;
        }
    }

    /// Draws a uniformly random item from the available set, appending it to
    /// the chosen history. When every configured item has been chosen
    /// already, the history is first reset (keeping at most the last
    /// `retention` entries, or none if even those would block progress), so
    /// that a pick succeeds on every non-empty configured list. On an empty
    /// configured list it fails and changes nothing.
    pub fn pick(&mut self) -> (r: Result<PickOutcome, PickError>)
        ensures
            final(self).configured == old(self).configured,
            final(self).retention == old(self).retention,
            r is Err <==> old(self).configured@.len() == 0,
            r is Err ==> r->Err_0 == PickError::EmptyConfiguredList && *final(self) == *old(self),
            r is Ok ==> ({
                let out = r->Ok_0;
                let conf = views(old(self).configured@);
                let pre = views(old(self).chosen@);
                &&& final(self).chosen@.len() > 0
                &&& final(self).chosen@.last() == out.item
                &&& if available_spec(conf, pre).len() > 0 {
                    &&& !out.did_reset
                    &&& available_spec(conf, pre).contains(out.item@)
                    &&& final(self).chosen@ == old(self).chosen@.push(out.item)
                } else {
                    let kept = reset_kept(conf, old(self).chosen@, old(self).retention as int);
                    &&& out.did_reset
                    &&& available_spec(conf, views(kept)).contains(out.item@)
                    &&& final(self).chosen@ == kept.push(out.item)
                }
            }),
    {
        if self.configured.len() == 0 {
            return Err(PickError::EmptyConfiguredList);
        }
        let ghost conf = views(self.configured@);
        let mut did_reset = false;
        let mut avail = match list_available_items(&self.configured, &self.chosen) {
            Ok(v) => v,
            Err(e) => {
                return Err(e);
            },
        };
        if avail.len() == 0 {
            did_reset = true;
            self.reset();
            proof {
                assert(views(avail@).len() == 0);
            }
            let avail2 = match list_available_items(&self.configured, &self.chosen) {
                Ok(v) => v,
                Err(e) => {
                    return Err(e);
                },
            };
            if avail2.len() == 0 {
                proof {
                    assert(views(avail2@).len() == 0);
                }
                self.chosen = Vec::new();
                avail = match list_available_items(&self.configured, &self.chosen) {
                    Ok(v) => v,
                    Err(e) => {
                        return Err(e);
                    },
                };
                proof {
                    assert(views(self.chosen@) =~= Seq::<Seq<char>>::empty());
                    assert forall|i: int|
                        0 <= i < conf.len() implies not_chosen(views(self.chosen@))(
                        conf[i],
                    ) by {}
                    lemma_filter_all_true(conf, not_chosen(views(self.chosen@)));
                    assert(views(avail@) == conf);
                    assert(reset_kept(conf, old(self).chosen@, old(self).retention as int)
                        =~= Seq::<String>::empty());
                }
            } else {
                avail = avail2;
                proof {
                    assert(reset_kept(conf, old(self).chosen@, old(self).retention as int)
                        == keep_last(old(self).chosen@, old(self).retention as int));
                }
            }
        }
        proof {
            assert(avail@.len() == views(avail@).len());
            assert(views(avail@).len() > 0);
        }
        let idx = random_index(avail.len());
        let it = &avail[idx];
        let item = it.clone();
        self.chosen.push(item.clone());
        proof {
            assert(views(avail@)[idx as int] == item@);
            assert(views(avail@).contains(item@));
        }
        Ok(PickOutcome { item, did_reset })
    }

    /// The chosen history as the text to show the user: one item per line,
    /// or the sentinel line when nothing has been chosen yet.
    pub fn format_chosen(&self) -> (r: String)
        ensures
            r@ == if self.chosen@.len() == 0 {
                "No items have been chosen yet.\n"@
            } else {
                render_lines(views(self.chosen@))
            },
    {
        if self.chosen.len() == 0 {
            String::from_str("No items have been chosen yet.\n")
        } else {
            crate::text::render_items(&self.chosen)
        }
    }

    /// The available items as the text to show the user: one item per line,
    /// or the sentinel line when nothing is left unchosen. Fails when the
    /// configured list is empty.
    pub fn format_unchosen(&self) -> (r: Result<String, PickError>)
        ensures
            r is Err <==> self.configured@.len() == 0,
            r is Err ==> r->Err_0 == PickError::EmptyConfiguredList,
            r is Ok ==> r->Ok_0@ == ({
                let avail = available_spec(views(self.configured@), views(self.chosen@));
                if avail.len() == 0 {
                    "No items have been chosen yet.\n"@
                } else {
                    render_lines(avail)
                }
            }),
    {
        let avail = match self.list_available() {
            Ok(v) => v,
            Err(e) => {
                return Err(e);
            },
        };
        if avail.len() == 0 {
            proof {
                assert(views(avail@).len() == 0);
            }
            Ok(String::from_str("No items have been chosen yet.\n"))
        } else {
            proof {
                assert(views(avail@).len() > 0);
            }
            Ok(crate::text::render_items(&avail))
        }
    }
}

} // verus!
