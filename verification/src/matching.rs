//! Greedy pairing of the records of two snapshots under one rule.
//!
//! The older records are taken in order. Each is paired with the first newer
//! record, in order, that the rule pairs it with and that no earlier record
//! has taken. A record is paired at most once.

use vstd::prelude::*;
use vstd::multiset::Multiset;
use vstd::seq_lib::{
    lemma_multiset_commutative,
    to_multiset_build,
    to_multiset_contains,
    to_multiset_remove,
};
use crate::docs::{doc_views, Doc, DocView};
use crate::rules::{check_rule, rule_holds, Rule};

verus! {

/// The outcome of pairing two lists of records under one rule.
pub ghost struct Matching {
    /// The pairs, older record first, in the order in which they were made.
    pub pairs: Seq<(DocView, DocView)>,
    /// The older records that found no partner, in their order.
    pub olds_left: Seq<DocView>,
    /// The newer records that nobody took, in their order.
    pub news_left: Seq<DocView>,
}

/// The index of the first record of `news`, at or after `from`, that `rule`
/// pairs with `a`; `news.len()` where there is none.
pub open spec fn partner_from(rule: Rule, a: DocView, news: Seq<DocView>, from: int) -> int
    decreases news.len() - from,
{
    if from >= news.len() {
        news.len() as int
    } else if rule_holds(rule, a, news[from]) {
        from
    } else {
        partner_from(rule, a, news, from + 1)
    }
}

/// The pairing of `olds` with `news` under `rule`.
pub open spec fn pair_off(rule: Rule, olds: Seq<DocView>, news: Seq<DocView>) -> Matching
    decreases olds.len(),
{
    if olds.len() == 0 {
        Matching { pairs: Seq::empty(), olds_left: Seq::empty(), news_left: news }
    } else {
        let a = olds.first();
        let j = partner_from(rule, a, news, 0);
        if j < news.len() {
            let rest = pair_off(rule, olds.drop_first(), news.remove(j));
            Matching {
                pairs: seq![(a, news[j])] + rest.pairs,
                olds_left: rest.olds_left,
                news_left: rest.news_left,
            }
        } else {
            let rest = pair_off(rule, olds.drop_first(), news);
            Matching {
                pairs: rest.pairs,
                olds_left: seq![a] + rest.olds_left,
                news_left: rest.news_left,
            }
        }
    }
}

/// The older records of a list of pairs, in order.
pub open spec fn firsts(pairs: Seq<(DocView, DocView)>) -> Seq<DocView> {
    pairs.map_values(|p: (DocView, DocView)| p.0)
}

/// The newer records of a list of pairs, in order.
pub open spec fn seconds(pairs: Seq<(DocView, DocView)>) -> Seq<DocView> {
    pairs.map_values(|p: (DocView, DocView)| p.1)
}

/// Both records of every pair, the older before the newer, pair after pair.
pub open spec fn sides(pairs: Seq<(DocView, DocView)>) -> Seq<DocView> {
    Seq::new(2 * pairs.len(), |k: int| if k % 2 == 0 { pairs[k / 2].0 } else { pairs[k / 2].1 })
}

/// The views of a list of pairs of records, in order.
pub open spec fn pair_views(pairs: Seq<(Doc, Doc)>) -> Seq<(DocView, DocView)> {
    pairs.map_values(|p: (Doc, Doc)| (p.0@, p.1@))
}

/// What [`partner_from`] finds: the first partner at or after `from`.
pub proof fn lemma_partner_from(rule: Rule, a: DocView, news: Seq<DocView>, from: int)
    requires
        0 <= from <= news.len(),
    ensures
        from <= partner_from(rule, a, news, from) <= news.len(),
        partner_from(rule, a, news, from) < news.len() ==> rule_holds(
            rule,
            a,
            news[partner_from(rule, a, news, from)],
        ),
        forall|k: int|
            from <= k < partner_from(rule, a, news, from) ==> !rule_holds(rule, a, #[trigger] news[k]),
    decreases news.len() - from,
{
    if from < news.len() && !rule_holds(rule, a, news[from]) {
        lemma_partner_from(rule, a, news, from + 1);
    }
}

proof fn lemma_prepend_multiset<A>(x: A, rest: Seq<A>)
    ensures
        (seq![x] + rest).to_multiset() =~= rest.to_multiset().insert(x),
{
    lemma_multiset_commutative(seq![x], rest);
    to_multiset_build(Seq::<A>::empty(), x);
    assert(Seq::<A>::empty().push(x) =~= seq![x]);
    assert(Seq::<A>::empty().to_multiset() =~= Multiset::<A>::empty()) by {
        assert(Seq::<A>::empty().to_multiset().len() == 0) by {
            vstd::seq_lib::to_multiset_len(Seq::<A>::empty());
        }
        vstd::multiset::lemma_multiset_empty_len(Seq::<A>::empty().to_multiset());
    }
}

/// Every pair that [`pair_off`] makes falls under the rule.
pub proof fn lemma_pairs_fall_under_rule(rule: Rule, olds: Seq<DocView>, news: Seq<DocView>)
    ensures
        forall|k: int|
            0 <= k < pair_off(rule, olds, news).pairs.len() ==> rule_holds(
                rule,
                (#[trigger] pair_off(rule, olds, news).pairs[k]).0,
                pair_off(rule, olds, news).pairs[k].1,
            ),
    decreases olds.len(),
{
    if olds.len() > 0 {
        let a = olds.first();
        let j = partner_from(rule, a, news, 0);
        lemma_partner_from(rule, a, news, 0);
        if j < news.len() {
            lemma_pairs_fall_under_rule(rule, olds.drop_first(), news.remove(j));
            let rest = pair_off(rule, olds.drop_first(), news.remove(j));
            let whole = pair_off(rule, olds, news);
            assert forall|k: int| 0 <= k < whole.pairs.len() implies rule_holds(
                rule,
                (#[trigger] whole.pairs[k]).0,
                whole.pairs[k].1,
            ) by {
                if k > 0 {
                    assert(whole.pairs[k] == rest.pairs[k - 1]);
                }
            }
        } else {
            lemma_pairs_fall_under_rule(rule, olds.drop_first(), news);
            assert(pair_off(rule, olds, news).pairs == pair_off(
                rule,
                olds.drop_first(),
                news,
            ).pairs);
        }
    } else {
        assert(pair_off(rule, olds, news).pairs.len() == 0);
    }
}

/// [`pair_off`] loses no record and makes none: every older record is the
/// first of one pair or is left, every newer record is the second of one pair
/// or is left, each as often as it occurs.
pub proof fn lemma_pair_off_conserves(rule: Rule, olds: Seq<DocView>, news: Seq<DocView>)
    ensures
        olds.to_multiset() =~= firsts(pair_off(rule, olds, news).pairs).to_multiset().add(
            pair_off(rule, olds, news).olds_left.to_multiset(),
        ),
        news.to_multiset() =~= seconds(pair_off(rule, olds, news).pairs).to_multiset().add(
            pair_off(rule, olds, news).news_left.to_multiset(),
        ),
    decreases olds.len(),
{
    let whole = pair_off(rule, olds, news);
    if olds.len() == 0 {
        assert(olds =~= Seq::<DocView>::empty());
        assert(firsts(whole.pairs) =~= Seq::<DocView>::empty());
        assert(seconds(whole.pairs) =~= Seq::<DocView>::empty());
        lemma_multiset_commutative(Seq::<DocView>::empty(), Seq::<DocView>::empty());
        lemma_multiset_commutative(Seq::<DocView>::empty(), news);
        assert(Seq::<DocView>::empty() + news =~= news);
        assert(Seq::<DocView>::empty() + Seq::<DocView>::empty() =~= Seq::<DocView>::empty());
    } else {
        let a = olds.first();
        let tail = olds.drop_first();
        let j = partner_from(rule, a, news, 0);
        lemma_partner_from(rule, a, news, 0);
        assert(olds =~= seq![a] + tail);
        lemma_prepend_multiset(a, tail);
        if j < news.len() {
            let rest = pair_off(rule, tail, news.remove(j));
            lemma_pair_off_conserves(rule, tail, news.remove(j));
            assert(firsts(whole.pairs) =~= seq![a] + firsts(rest.pairs));
            assert(seconds(whole.pairs) =~= seq![news[j]] + seconds(rest.pairs));
            lemma_prepend_multiset(a, firsts(rest.pairs));
            lemma_prepend_multiset(news[j], seconds(rest.pairs));
            to_multiset_remove(news, j);
            to_multiset_contains(news, news[j]);
            assert(news.contains(news[j]));
            assert(news.to_multiset() =~= news.remove(j).to_multiset().insert(news[j]));
        } else {
            let rest = pair_off(rule, tail, news);
            lemma_pair_off_conserves(rule, tail, news);
            lemma_prepend_multiset(a, rest.olds_left);
        }
    }
}

/// [`pair_off`] goes on until nothing is left to pair: the rule pairs no
/// older record that is left with a newer record that is left.
pub proof fn lemma_pair_off_exhaustive(rule: Rule, olds: Seq<DocView>, news: Seq<DocView>)
    ensures
        forall|i: int, j: int|
            0 <= i < pair_off(rule, olds, news).olds_left.len() && 0 <= j < pair_off(
                rule,
                olds,
                news,
            ).news_left.len() ==> !rule_holds(
                rule,
                #[trigger] pair_off(rule, olds, news).olds_left[i],
                #[trigger] pair_off(rule, olds, news).news_left[j],
            ),
    decreases olds.len(),
{
    if olds.len() > 0 {
        let whole = pair_off(rule, olds, news);
        let a = olds.first();
        let tail = olds.drop_first();
        let p = partner_from(rule, a, news, 0);
        lemma_partner_from(rule, a, news, 0);
        if p < news.len() {
            lemma_pair_off_exhaustive(rule, tail, news.remove(p));
            let rest = pair_off(rule, tail, news.remove(p));
            assert(whole.olds_left == rest.olds_left && whole.news_left == rest.news_left);
        } else {
            let rest = pair_off(rule, tail, news);
            lemma_pair_off_exhaustive(rule, tail, news);
            lemma_pair_off_conserves(rule, tail, news);
            assert forall|i: int, j: int|
                0 <= i < whole.olds_left.len() && 0 <= j < whole.news_left.len() implies !rule_holds(
                rule,
                #[trigger] whole.olds_left[i],
                #[trigger] whole.news_left[j],
            ) by {
                let b = whole.news_left[j];
                if i == 0 {
                    assert(rest.news_left.contains(b));
                    to_multiset_contains(rest.news_left, b);
                    to_multiset_contains(news, b);
                    let k = choose|k: int| 0 <= k < news.len() && news[k] == b;
                    assert(!rule_holds(rule, a, news[k]));
                } else {
                    assert(whole.olds_left[i] == rest.olds_left[i - 1]);
                }
            }
        }
    } else {
        assert(pair_off(rule, olds, news).olds_left.len() == 0);
    }
}

/// The two sides of a list of pairs hold its older and its newer records,
/// each as often as it occurs.
pub proof fn lemma_sides(pairs: Seq<(DocView, DocView)>)
    ensures
        sides(pairs).to_multiset() =~= firsts(pairs).to_multiset().add(
            seconds(pairs).to_multiset(),
        ),
    decreases pairs.len(),
{
    if pairs.len() == 0 {
        assert(sides(pairs) =~= Seq::<DocView>::empty());
        assert(firsts(pairs) =~= Seq::<DocView>::empty());
        assert(seconds(pairs) =~= Seq::<DocView>::empty());
        lemma_multiset_commutative(Seq::<DocView>::empty(), Seq::<DocView>::empty());
        assert(Seq::<DocView>::empty() + Seq::<DocView>::empty() =~= Seq::<DocView>::empty());
    } else {
        let front = pairs.drop_last();
        let last = pairs.last();
        lemma_sides(front);
        assert(sides(pairs) =~= sides(front).push(last.0).push(last.1));
        assert(firsts(pairs) =~= firsts(front).push(last.0));
        assert(seconds(pairs) =~= seconds(front).push(last.1));
        to_multiset_build(sides(front), last.0);
        to_multiset_build(sides(front).push(last.0), last.1);
        to_multiset_build(firsts(front), last.0);
        to_multiset_build(seconds(front), last.1);
    }
}

/// The pairing of two lists of records under one rule, as values.
pub struct Paired {
    pub pairs: Vec<(Doc, Doc)>,
    pub olds_left: Vec<Doc>,
    pub news_left: Vec<Doc>,
}

impl View for Paired {
    type V = Matching;

    open spec fn view(&self) -> Matching {
        Matching {
            pairs: pair_views(self.pairs@),
            olds_left: doc_views(self.olds_left@),
            news_left: doc_views(self.news_left@),
        }
    }
}

/// Finds the first record of `news` that `rule` pairs with `a`.
pub fn find_partner(rule: Rule, a: &Doc, news: &Vec<Doc>) -> (j: usize)
    ensures
        j == partner_from(rule, a@, doc_views(news@), 0),
{
    let mut j: usize = 0;
    while j < news.len() && !check_rule(rule, a, &news[j])
        invariant
            0 <= j <= news.len(),
            partner_from(rule, a@, doc_views(news@), 0) == partner_from(
                rule,
                a@,
                doc_views(news@),
                j as int,
            ),
        decreases news.len() - j,
    {
        j += 1;
    }
    j
}

/// Pairs `olds` with `news` under `rule`.
pub fn pair_records(rule: Rule, olds: &Vec<Doc>, news: Vec<Doc>) -> (paired: Paired)
    ensures
        paired@ == pair_off(rule, doc_views(olds@), doc_views(news@)),
{
    let ghost all_olds = doc_views(olds@);
    let ghost whole = pair_off(rule, doc_views(olds@), doc_views(news@));
    let mut news = news;
    let mut pairs: Vec<(Doc, Doc)> = Vec::new();
    let mut olds_left: Vec<Doc> = Vec::new();
    let mut i: usize = 0;
    assert(all_olds.skip(0) =~= all_olds);
    while i < olds.len()
        invariant
            0 <= i <= olds.len(),
            all_olds == doc_views(olds@),
            whole.pairs == pair_views(pairs@) + pair_off(
                rule,
                all_olds.skip(i as int),
                doc_views(news@),
            ).pairs,
            whole.olds_left == doc_views(olds_left@) + pair_off(
                rule,
                all_olds.skip(i as int),
                doc_views(news@),
            ).olds_left,
            whole.news_left == pair_off(rule, all_olds.skip(i as int), doc_views(news@)).news_left,
        decreases olds.len() - i,
    {
        let ghost before = doc_views(news@);
        let ghost tail = all_olds.skip(i as int);
        let ghost done_pairs = pair_views(pairs@);
        let ghost done_left = doc_views(olds_left@);
        assert(tail.first() == olds@[i as int]@);
        assert(tail.drop_first() =~= all_olds.skip(i + 1));
        let a = olds[i].clone();
        let j = find_partner(rule, &a, &news);
        if j < news.len() {
            let b = news.remove(j);
            assert(doc_views(news@) =~= before.remove(j as int));
            let ghost rest = pair_off(rule, all_olds.skip(i + 1), doc_views(news@));
            pairs.push((a, b));
            assert(pair_views(pairs@) =~= done_pairs.push((a@, b@)));
            assert(pair_views(pairs@) + rest.pairs =~= done_pairs + (seq![(a@, b@)] + rest.pairs));
        } else {
            let ghost rest = pair_off(rule, all_olds.skip(i + 1), doc_views(news@));
            olds_left.push(a);
            assert(doc_views(olds_left@) =~= done_left.push(a@));
            assert(doc_views(olds_left@) + rest.olds_left =~= done_left + (seq![a@]
                + rest.olds_left));
        }
        i += 1;
    }
    assert(pair_views(pairs@) + Seq::<(DocView, DocView)>::empty() =~= pair_views(pairs@));
    assert(doc_views(olds_left@) + Seq::<DocView>::empty() =~= doc_views(olds_left@));
    Paired { pairs, olds_left, news_left: news }
}

} // verus!
