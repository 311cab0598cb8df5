//! The accumulators of an aggregation, one for each group.
use vstd::prelude::*;

use crate::batch::{LabelColumn, Sample, SeriesBatch};
use crate::group_key::{
    all_text, cells_at, group_signature, hashes_all, hashes_to, label_texts, labels_of,
    materialize_labels, names_first_other, signature_writes, Label, NotText,
};
use crate::sig_index::{new_index, position_of, positions, set_position, SigIndex};
use crate::text::texts;

verus! {

/// A group: its labels, and what its series have been folded into.
pub struct Group<A> {
    pub labels: Seq<(Seq<char>, Seq<char>)>,
    pub acc: A,
}

/// What one series adds to its group: the group's labels as this series has
/// them, and the samples to fold.
pub struct Contribution<V> {
    pub labels: Seq<(Seq<char>, Seq<char>)>,
    pub samples: Seq<Sample<V>>,
}

/// A group that has left its table.
pub struct GroupEntry<A> {
    pub sig: u64,
    pub labels: Vec<Label>,
    pub acc: A,
}

/// The items filed under that signature, in order.
pub open spec fn of_sig<T>(items: Seq<(u64, T)>, sig: u64) -> Seq<T>
    decreases items.len(),
{
    if items.len() == 0 {
        Seq::empty()
    } else {
        let rest = of_sig(items.drop_last(), sig);
        if items.last().0 == sig {
            rest.push(items.last().1)
        } else {
            rest
        }
    }
}

/// The signatures of the items, each where it first occurs.
pub open spec fn first_seen<T>(items: Seq<(u64, T)>) -> Seq<u64>
    decreases items.len(),
{
    if items.len() == 0 {
        Seq::empty()
    } else {
        let rest = first_seen(items.drop_last());
        if rest.contains(items.last().0) {
            rest
        } else {
            rest.push(items.last().0)
        }
    }
}

/// The signatures under which the groups of a table are filed.
pub open spec fn sigs_of<A>(groups: Seq<(u64, Group<A>)>) -> Seq<u64> {
    groups.map_values(|g: (u64, Group<A>)| g.0)
}

/// `acc` is a new accumulator into which these contributions were folded, one
/// after another.
pub open spec fn folded<V, A, N: Fn() -> A, F: Fn(A, &Vec<Sample<V>>) -> A>(
    new_acc: N,
    fold: F,
    contributions: Seq<Contribution<V>>,
    acc: A,
) -> bool
    decreases contributions.len(),
{
    if contributions.len() == 0 {
        call_ensures(new_acc, (), acc)
    } else {
        exists|before: A, samples: Vec<Sample<V>>|
            {
                &&& folded(new_acc, fold, contributions.drop_last(), before)
                &&& samples@ == contributions.last().samples
                &&& #[trigger] call_ensures(fold, (before, &samples), acc)
            }
    }
}

/// The table holds one group for each signature that was contributed to, in the
/// order of first contributions; a group has the labels of its first
/// contribution, and all its contributions are folded into its accumulator.
pub open spec fn groups_from<V, A, N: Fn() -> A, F: Fn(A, &Vec<Sample<V>>) -> A>(
    new_acc: N,
    fold: F,
    contributions: Seq<(u64, Contribution<V>)>,
    groups: Seq<(u64, Group<A>)>,
) -> bool {
    &&& sigs_of(groups) == first_seen(contributions)
    &&& forall|i: int|
        0 <= i < groups.len() ==> {
            let (sig, group) = #[trigger] groups[i];
            &&& of_sig(contributions, sig).len() > 0
            &&& group.labels == of_sig(contributions, sig)[0].labels
            &&& folded(new_acc, fold, of_sig(contributions, sig), group.acc)
        }
}

/// `acc` is the accumulator of the first of these groups into which those of the
/// others were merged, one after another.
pub open spec fn merged<A, M: Fn(A, A) -> A>(merge: M, groups: Seq<Group<A>>, acc: A) -> bool
    decreases groups.len(),
{
    if groups.len() == 0 {
        false
    } else if groups.len() == 1 {
        acc == groups[0].acc
    } else {
        exists|before: A|
            merged(merge, groups.drop_last(), before) && #[trigger] call_ensures(
                merge,
                (before, groups.last().acc),
                acc,
            )
    }
}

/// The table holds one group for each signature among `parts`, in the order of
/// first occurrence; it has the labels of the first part with that signature,
/// and the accumulators of all of them merged in order.
pub open spec fn groups_merged<A, M: Fn(A, A) -> A>(
    merge: M,
    parts: Seq<(u64, Group<A>)>,
    groups: Seq<(u64, Group<A>)>,
) -> bool {
    &&& sigs_of(groups) == first_seen(parts)
    &&& forall|i: int|
        0 <= i < groups.len() ==> {
            let (sig, group) = #[trigger] groups[i];
            &&& of_sig(parts, sig).len() > 0
            &&& group.labels == of_sig(parts, sig)[0].labels
            &&& merged(merge, of_sig(parts, sig), group.acc)
        }
}

/// One more item.
pub proof fn lemma_one_more<T>(items: Seq<(u64, T)>, sig: u64, item: T)
    ensures
        of_sig(items.push((sig, item)), sig) == of_sig(items, sig).push(item),
        forall|other: u64|
            other != sig ==> #[trigger] of_sig(items.push((sig, item)), other) == of_sig(
                items,
                other,
            ),
        first_seen(items.push((sig, item))) == if first_seen(items).contains(sig) {
            first_seen(items)
        } else {
            first_seen(items).push(sig)
        },
{
    let more = items.push((sig, item));
    assert(more.drop_last() =~= items);
}

/// A signature is seen where some item is filed under it, and nowhere twice.
pub proof fn lemma_first_seen<T>(items: Seq<(u64, T)>)
    ensures
        first_seen(items).no_duplicates(),
        forall|sig: u64| #[trigger]
            first_seen(items).contains(sig) <==> of_sig(items, sig).len() > 0,
    decreases items.len(),
{
    if items.len() > 0 {
        let rest = items.drop_last();
        lemma_first_seen(rest);
        let last = items.last().0;
        assert forall|sig: u64| #[trigger]
            first_seen(items).contains(sig) <==> of_sig(items, sig).len() > 0 by {
            let seen = first_seen(rest);
            if !seen.contains(last) {
                let now = seen.push(last);
                assert(now[seen.len() as int] == last);
                if seen.contains(sig) {
                    let k = choose|k: int| 0 <= k < seen.len() && seen[k] == sig;
                    assert(now[k] == sig);
                }
            }
            assert(seen.contains(sig) <==> of_sig(rest, sig).len() > 0);
        }
    }
}

/// The groups of a band, found by signature. They are kept in the order in
/// which they came up.
pub struct GroupAccs<A> {
    index: SigIndex,
    slots: Vec<Slot<A>>,
}

/// Where a group is kept. `acc` is missing only while it is being replaced.
struct Slot<A> {
    sig: u64,
    labels: Vec<Label>,
    acc: Option<A>,
}

impl<A> GroupAccs<A> {
    /// The groups, each under its signature.
    pub closed spec fn view(&self) -> Seq<(u64, Group<A>)> {
        self.slots@.map_values(
            |s: Slot<A>| (s.sig, Group { labels: label_texts(s.labels@), acc: s.acc->0 }),
        )
    }

    /// The index finds every group, and no two groups share a signature.
    pub closed spec fn wf(&self) -> bool {
        &&& forall|i: int| 0 <= i < self.slots@.len() ==> (#[trigger] self.slots@[i]).acc is Some
        &&& forall|i: int|
            0 <= i < self.slots@.len() ==> positions(self.index).contains_key(
                (#[trigger] self.slots@[i]).sig,
            ) && positions(self.index)[self.slots@[i].sig] == i
        &&& forall|sig: u64| #[trigger]
            positions(self.index).contains_key(sig) ==> {
                &&& positions(self.index)[sig] < self.slots@.len()
                &&& self.slots@[positions(self.index)[sig] as int].sig == sig
            }
    }

    /// An empty table.
    pub fn new() -> (groups: Self)
        ensures
            groups.wf(),
            groups@ == Seq::<(u64, Group<A>)>::empty(),
    {
        let groups = GroupAccs { index: new_index(), slots: Vec::new() };
        proof {
            assert forall|sig: u64| !(#[trigger] positions(groups.index).contains_key(sig)) by {
                assert(!positions(groups.index).dom().contains(sig));
            }
            assert(groups@ =~= Seq::<(u64, Group<A>)>::empty());
        }
        groups
    }

    /// How many groups there are.
    pub fn len(&self) -> (n: usize)
        ensures
            n == self@.len(),
    {
        self.slots.len()
    }

    fn find(&self, sig: u64) -> (position: Option<usize>)
        requires
            self.wf(),
        ensures
            match position {
                Some(p) => p < self@.len() && sigs_of(self@)[p as int] == sig && sigs_of(
                    self@,
                ).contains(sig),
                None => !sigs_of(self@).contains(sig),
            },
    {
        let position: Option<usize> = position_of(&self.index, sig);
        proof {
            match position {
                Some(p) => {
                    assert(positions(self.index).contains_key(sig));
                    assert(sigs_of(self@)[p as int] == sig);
                },
                None => {
                    assert(!positions(self.index).contains_key(sig));
                    if sigs_of(self@).contains(sig) {
                        let i = choose|i: int|
                            0 <= i < sigs_of(self@).len() && sigs_of(self@)[i] == sig;
                        assert(self.slots@[i].sig == sig);
                    }
                },
            }
        }
        position
    }

    /// Whether there is a group with that signature.
    pub fn contains_key(&self, sig: u64) -> (found: bool)
        requires
            self.wf(),
        ensures
            found == sigs_of(self@).contains(sig),
    {
        self.find(sig).is_some()
    }

    fn add_group(&mut self, sig: u64, labels: Vec<Label>, acc: A)
        requires
            old(self).wf(),
            !sigs_of(old(self)@).contains(sig),
        ensures
            final(self).wf(),
            final(self)@ == old(self)@.push((sig, Group { labels: label_texts(labels@), acc })),
    {
        let ghost before = self@;
        proof {
            assert(!positions(self.index).contains_key(sig)) by {
                if positions(self.index).contains_key(sig) {
                    assert(sigs_of(before)[positions(self.index)[sig] as int] == sig);
                }
            }
        }
        let position: usize = self.slots.len();
        set_position(&mut self.index, sig, position);
        self.slots.push(Slot { sig, labels, acc: Some(acc) });
        assert(self@ =~= before.push((sig, Group { labels: label_texts(labels@), acc })));
    }

    /// Folds a series into its group, which is made first where it is missing:
    /// with these labels and a new accumulator.
    pub fn fold_series<V, N: Fn() -> A, F: Fn(A, &Vec<Sample<V>>) -> A>(
        &mut self,
        sig: u64,
        labels: Option<Vec<Label>>,
        samples: &Vec<Sample<V>>,
        new_acc: &N,
        fold: &F,
    )
        requires
            old(self).wf(),
            makes_accs(*new_acc),
            folds_all(*fold),
        ensures
            final(self).wf(),
            table_folded(
                *new_acc,
                *fold,
                old(self)@,
                sig,
                match labels {
                    Some(l) => label_texts(l@),
                    None => Seq::empty(),
                },
                samples@,
                final(self)@,
            ),
    {
        let ghost before = self@;
        match self.find(sig) {
            Some(p) => {
                let ghost start = before[p as int].1.acc;
                assert(self.slots@[p as int].acc == Some(start));
                let taken: Option<A> = self.slots[p].acc.take();
                assert(taken == Some(start));
                if let Some(acc) = taken {
                    let folded_acc: A = fold(acc, samples);
                    self.slots[p].acc = Some(folded_acc);
                    proof {
                        assert(self@ =~= before.update(
                            p as int,
                            (sig, Group { acc: folded_acc, ..before[p as int].1 }),
                        ));
                        assert(call_ensures(
                            *fold,
                            (before[p as int].1.acc, samples),
                            folded_acc,
                        ));
                    }
                }
            },
            None => {
                let acc: A = new_acc();
                let folded_acc: A = fold(acc, samples);
                let own_labels: Vec<Label> = match labels {
                    Some(l) => l,
                    None => Vec::new(),
                };
                assert(labels is None ==> label_texts(own_labels@) =~= Seq::empty());
                self.add_group(sig, own_labels, folded_acc);
            },
        }
    }

    /// Takes in a group of another table: merges its accumulator into the group
    /// of its signature, or adds it at the end where there is none.
    pub fn absorb<M: Fn(A, A) -> A>(&mut self, entry: GroupEntry<A>, merge: &M)
        requires
            old(self).wf(),
            merges_all(*merge),
        ensures
            final(self).wf(),
            table_absorbed(*merge, old(self)@, entry@, final(self)@),
    {
        let ghost before = self@;
        match self.find(entry.sig) {
            Some(p) => {
                let ghost start = before[p as int].1.acc;
                assert(self.slots@[p as int].acc == Some(start));
                let taken: Option<A> = self.slots[p].acc.take();
                if let Some(acc) = taken {
                    let merged_acc: A = merge(acc, entry.acc);
                    self.slots[p].acc = Some(merged_acc);
                    proof {
                        assert(self@ =~= before.update(
                            p as int,
                            (entry.sig, Group { acc: merged_acc, ..before[p as int].1 }),
                        ));
                        assert(call_ensures(
                            *merge,
                            (before[p as int].1.acc, entry@.1.acc),
                            merged_acc,
                        ));
                    }
                }
            },
            None => {
                self.add_group(entry.sig, entry.labels, entry.acc);
            },
        }
    }

    /// The groups, in the order in which they came up.
    pub fn into_entries(self) -> (entries: Vec<GroupEntry<A>>)
        requires
            self.wf(),
        ensures
            entry_views(entries@) == self@,
    {
        let ghost groups = self@;
        let ghost slots = self.slots@;
        let mut entries: Vec<GroupEntry<A>> = Vec::new();
        for slot in it: self.slots
            invariant
                it.seq() == slots,
                groups == self@,
                slots == self.slots@,
                forall|i: int| 0 <= i < slots.len() ==> (#[trigger] slots[i]).acc is Some,
                entry_views(entries@) == groups.take(it.index() as int),
        {
            let ghost done = entry_views(entries@);
            assert(slot == slots[it.index() as int]);
            if let Some(acc) = slot.acc {
                entries.push(GroupEntry { sig: slot.sig, labels: slot.labels, acc });
                proof {
                    assert(entry_views(entries@) =~= done.push(groups[it.index() as int]));
                    assert(groups.take(it.index() + 1) =~= done.push(groups[it.index() as int]));
                }
            }
        }
        assert(groups.take(groups.len() as int) =~= groups);
        entries
    }
}

impl<A> GroupEntry<A> {
    /// The group and its signature.
    pub open spec fn view(&self) -> (u64, Group<A>) {
        (self.sig, Group { labels: label_texts(self.labels@), acc: self.acc })
    }
}

/// The groups of some entries.
pub open spec fn entry_views<A>(entries: Seq<GroupEntry<A>>) -> Seq<(u64, Group<A>)> {
    entries.map_values(|e: GroupEntry<A>| e@)
}

/// All accumulators can be merged.
pub open spec fn merges_all<A, M: Fn(A, A) -> A>(merge: M) -> bool {
    forall|a: A, b: A| #[trigger] call_requires(merge, (a, b))
}

/// A table took in a group of another one.
pub open spec fn table_absorbed<A, M: Fn(A, A) -> A>(
    merge: M,
    before: Seq<(u64, Group<A>)>,
    part: (u64, Group<A>),
    after: Seq<(u64, Group<A>)>,
) -> bool {
    if sigs_of(before).contains(part.0) {
        exists|p: int, acc: A|
            {
                &&& 0 <= p < before.len()
                &&& before[p].0 == part.0
                &&& #[trigger] call_ensures(merge, (before[p].1.acc, part.1.acc), acc)
                &&& after == before.update(p, (part.0, Group { acc, ..before[p].1 }))
            }
    } else {
        after == before.push(part)
    }
}

/// Accumulators can be made.
pub open spec fn makes_accs<A, N: Fn() -> A>(new_acc: N) -> bool {
    call_requires(new_acc, ())
}

/// All samples can be folded into all accumulators.
pub open spec fn folds_all<V, A, F: Fn(A, &Vec<Sample<V>>) -> A>(fold: F) -> bool {
    forall|acc: A, samples: Vec<Sample<V>>| #[trigger] call_requires(fold, (acc, &samples))
}

/// One series was folded into a table: into the group of its signature, or else
/// into a new group at the end.
pub open spec fn table_folded<V, A, N: Fn() -> A, F: Fn(A, &Vec<Sample<V>>) -> A>(
    new_acc: N,
    fold: F,
    before: Seq<(u64, Group<A>)>,
    sig: u64,
    labels: Seq<(Seq<char>, Seq<char>)>,
    samples: Seq<Sample<V>>,
    after: Seq<(u64, Group<A>)>,
) -> bool {
    if sigs_of(before).contains(sig) {
        exists|p: int, run: Vec<Sample<V>>, acc: A|
            {
                &&& 0 <= p < before.len()
                &&& before[p].0 == sig
                &&& run@ == samples
                &&& #[trigger] call_ensures(fold, (before[p].1.acc, &run), acc)
                &&& after == before.update(p, (sig, Group { acc, ..before[p].1 }))
            }
    } else {
        exists|start: A, run: Vec<Sample<V>>, acc: A|
            {
                &&& call_ensures(new_acc, (), start)
                &&& run@ == samples
                &&& #[trigger] call_ensures(fold, (start, &run), acc)
                &&& after == before.push((sig, Group { labels, acc }))
            }
    }
}

/// Folding one more contribution into a table keeps it in step with all
/// contributions.
pub proof fn lemma_contribute<V, A, N: Fn() -> A, F: Fn(A, &Vec<Sample<V>>) -> A>(
    new_acc: N,
    fold: F,
    contributions: Seq<(u64, Contribution<V>)>,
    before: Seq<(u64, Group<A>)>,
    sig: u64,
    labels: Seq<(Seq<char>, Seq<char>)>,
    contribution: Contribution<V>,
    after: Seq<(u64, Group<A>)>,
)
    requires
        groups_from(new_acc, fold, contributions, before),
        table_folded(new_acc, fold, before, sig, labels, contribution.samples, after),
        sigs_of(before).contains(sig) || labels == contribution.labels,
    ensures
        groups_from(new_acc, fold, contributions.push((sig, contribution)), after),
{
    let more = contributions.push((sig, contribution));
    let own = of_sig(contributions, sig);
    lemma_one_more(contributions, sig, contribution);
    lemma_first_seen(contributions);
    assert(own.push(contribution).drop_last() =~= own);
    if sigs_of(before).contains(sig) {
        let (p, run, acc) = choose|p: int, run: Vec<Sample<V>>, acc: A|
            {
                &&& 0 <= p < before.len()
                &&& before[p].0 == sig
                &&& run@ == contribution.samples
                &&& #[trigger] call_ensures(fold, (before[p].1.acc, &run), acc)
                &&& after == before.update(p, (sig, Group { acc, ..before[p].1 }))
            };
        assert(sigs_of(after) =~= sigs_of(before));
        assert forall|i: int| 0 <= i < after.len() implies {
            let (s, group) = #[trigger] after[i];
            &&& of_sig(more, s).len() > 0
            &&& group.labels == of_sig(more, s)[0].labels
            &&& folded(new_acc, fold, of_sig(more, s), group.acc)
        } by {
            let kept = before[i];
            if i == p {
                assert(folded(new_acc, fold, own, before[p].1.acc));
                assert(folded(new_acc, fold, own.push(contribution), acc));
            } else {
                assert(sigs_of(before)[i] == kept.0);
                assert(sigs_of(before)[p] == sig);
                assert(kept.0 != sig);
            }
        }
    } else {
        let (start, run, acc) = choose|start: A, run: Vec<Sample<V>>, acc: A|
            {
                &&& call_ensures(new_acc, (), start)
                &&& run@ == contribution.samples
                &&& #[trigger] call_ensures(fold, (start, &run), acc)
                &&& after == before.push((sig, Group { labels, acc }))
            };
        assert(sigs_of(after) =~= sigs_of(before).push(sig));
        assert(own.len() == 0);
        assert forall|i: int| 0 <= i < after.len() implies {
            let (s, group) = #[trigger] after[i];
            &&& of_sig(more, s).len() > 0
            &&& group.labels == of_sig(more, s)[0].labels
            &&& folded(new_acc, fold, of_sig(more, s), group.acc)
        } by {
            if i == before.len() {
                assert(folded(new_acc, fold, own, start));
                assert(folded(new_acc, fold, own.push(contribution), acc));
            } else {
                let kept = before[i];
                assert(sigs_of(before)[i] == kept.0);
                assert(kept.0 != sig);
            }
        }
    }
}

/// Taking in one more group keeps a table in step with all that it took in.
pub proof fn lemma_absorb<A, M: Fn(A, A) -> A>(
    merge: M,
    parts: Seq<(u64, Group<A>)>,
    before: Seq<(u64, Group<A>)>,
    part: (u64, Group<A>),
    after: Seq<(u64, Group<A>)>,
)
    requires
        groups_merged(merge, parts, before),
        table_absorbed(merge, before, part, after),
    ensures
        groups_merged(merge, parts.push(part), after),
{
    let more = parts.push(part);
    let sig = part.0;
    let own = of_sig(parts, sig);
    lemma_one_more(parts, sig, part.1);
    lemma_first_seen(parts);
    assert(own.push(part.1).drop_last() =~= own);
    if sigs_of(before).contains(sig) {
        let (p, acc) = choose|p: int, acc: A|
            {
                &&& 0 <= p < before.len()
                &&& before[p].0 == sig
                &&& #[trigger] call_ensures(merge, (before[p].1.acc, part.1.acc), acc)
                &&& after == before.update(p, (sig, Group { acc, ..before[p].1 }))
            };
        assert(sigs_of(after) =~= sigs_of(before));
        assert forall|i: int| 0 <= i < after.len() implies {
            let (s, group) = #[trigger] after[i];
            &&& of_sig(more, s).len() > 0
            &&& group.labels == of_sig(more, s)[0].labels
            &&& merged(merge, of_sig(more, s), group.acc)
        } by {
            let kept = before[i];
            if i == p {
                assert(merged(merge, own, before[p].1.acc));
                assert(own.push(part.1).last() == part.1);
                assert(call_ensures(
                    merge,
                    (before[p].1.acc, own.push(part.1).last().acc),
                    acc,
                ));
                assert(merged(merge, own.push(part.1).drop_last(), before[p].1.acc));
                assert(merged(merge, own.push(part.1), acc));
            } else {
                assert(sigs_of(before)[i] == kept.0);
                assert(sigs_of(before)[p] == sig);
                assert(kept.0 != sig);
            }
        }
    } else {
        assert(sigs_of(after) =~= sigs_of(before).push(sig));
        assert(own.len() == 0);
        assert forall|i: int| 0 <= i < after.len() implies {
            let (s, group) = #[trigger] after[i];
            &&& of_sig(more, s).len() > 0
            &&& group.labels == of_sig(more, s)[0].labels
            &&& merged(merge, of_sig(more, s), group.acc)
        } by {
            if i < before.len() {
                let kept = before[i];
                assert(sigs_of(before)[i] == kept.0);
                assert(kept.0 != sig);
            }
        }
    }
}

/// No two groups of a table share a signature.
pub proof fn lemma_table_is_distinct<A>(table: GroupAccs<A>)
    requires
        table.wf(),
    ensures
        sigs_of(table@).no_duplicates(),
{
    let sigs = sigs_of(table@);
    assert forall|i: int, j: int|
        0 <= i < sigs.len() && 0 <= j < sigs.len() && i != j implies sigs[i] != sigs[j] by {
        assert(sigs[i] == table.slots@[i].sig);
        assert(sigs[j] == table.slots@[j].sig);
    }
}

/// A table on its own is what its groups merge to.
pub proof fn lemma_alone<A, M: Fn(A, A) -> A>(merge: M, groups: Seq<(u64, Group<A>)>)
    requires
        sigs_of(groups).no_duplicates(),
    ensures
        groups_merged(merge, groups, groups),
    decreases groups.len(),
{
    if groups.len() == 0 {
        assert(sigs_of(groups) =~= first_seen(groups));
    } else {
        let rest = groups.drop_last();
        let last = groups.last();
        assert(sigs_of(rest) =~= sigs_of(groups).drop_last());
        lemma_alone(merge, rest);
        assert(!sigs_of(rest).contains(last.0)) by {
            if sigs_of(rest).contains(last.0) {
                let k = choose|k: int| 0 <= k < sigs_of(rest).len() && sigs_of(rest)[k] == last.0;
                assert(sigs_of(groups)[k] == sigs_of(groups)[groups.len() - 1]);
            }
        }
        assert(groups =~= rest.push(last));
        lemma_absorb(merge, rest, rest, last, groups);
    }
}

/// The group of the series whose first row stands at `row`: its signature, and
/// its labels unless the table has the group already. Fails where a group
/// column holds no text, and names the first such column.
pub fn group_key_at<V, A, H: Fn(&Vec<&[u8]>) -> u64>(
    batch: &SeriesBatch<V>,
    row: usize,
    group_cols: &Vec<String>,
    groups: &GroupAccs<A>,
    hash: &H,
) -> (key: Result<(u64, Option<Vec<Label>>), NotText>)
    requires
        batch.wf(),
        row < batch.hashes@.len(),
        batch.labels@.len() == group_cols@.len(),
        groups.wf(),
        hashes_all(*hash),
    ensures
        match key {
            Ok((sig, labels)) => {
                let own = labels_of(batch.row(row as int).cells, texts(group_cols@));
                &&& all_text(batch.row(row as int).cells)
                &&& hashes_to(*hash, signature_writes(own), sig)
                &&& match labels {
                    Some(l) => !sigs_of(groups@).contains(sig) && label_texts(l@) == own,
                    None => sigs_of(groups@).contains(sig),
                }
            },
            Err(e) => names_first_other(batch.row(row as int).cells, group_cols@, e),
        },
{
    let ghost cells = batch.row(row as int).cells;
    let mut c: usize = 0;
    while c < batch.labels.len()
        invariant
            c <= batch.labels@.len(),
            batch.labels@.len() == group_cols@.len(),
            cells == batch.row(row as int).cells,
            all_text(cells.take(c as int)),
        decreases batch.labels@.len() - c,
    {
        match &batch.labels[c] {
            LabelColumn::Other => {
                assert(cells[c as int] is Other);
                return Err(NotText { column: group_cols[c].clone() });
            },
            LabelColumn::Text(_) => {},
        }
        proof {
            assert(!(cells[c as int] is Other));
            assert(cells.take(c + 1) =~= cells.take(c as int).push(cells[c as int]));
        }
        c += 1;
    }
    proof {
        assert(cells.take(cells.len() as int) =~= cells);
        assert(cells =~= cells_at(batch.labels@, row as int));
        assert forall|k: int| 0 <= k < batch.labels@.len() implies (#[trigger] batch.labels@[k]
            matches LabelColumn::Text(values) ==> row < values@.len()) by {
            assert(batch.labels@[k].spans(batch.hashes@.len() as int));
        }
    }
    let sig: u64 = group_signature(&batch.labels, group_cols, row, hash);
    let labels: Option<Vec<Label>> = if groups.contains_key(sig) {
        None
    } else {
        Some(materialize_labels(&batch.labels, group_cols, row))
    };
    Ok((sig, labels))
}

/// The items filed under a signature are all those with that signature, in
/// order.
pub proof fn items_are_filed_by_signature<T>(items: Seq<(u64, T)>, sig: u64)
    ensures
        of_sig(items, sig) == items.filter(|item: (u64, T)| item.0 == sig).map_values(
            |item: (u64, T)| item.1,
        ),
    decreases items.len(),
{
    reveal(Seq::filter);
    let own = |item: (u64, T)| item.0 == sig;
    let second = |item: (u64, T)| item.1;
    if items.len() == 0 {
        assert(of_sig(items, sig) =~= items.filter(own).map_values(second));
    } else {
        let rest = items.drop_last();
        items_are_filed_by_signature(rest, sig);
        assert(of_sig(items, sig) =~= items.filter(own).map_values(second));
    }
}

/// Every signature of an item is seen, and no other, and each once; one that is
/// seen earlier has an item before all items of those seen later.
pub proof fn signatures_are_seen_in_order<T>(items: Seq<(u64, T)>)
    ensures
        first_seen(items).no_duplicates(),
        forall|i: int|
            0 <= i < items.len() ==> first_seen(items).contains((#[trigger] items[i]).0),
        forall|k: int|
            #![trigger first_seen(items)[k]]
            0 <= k < first_seen(items).len() ==> exists|i: int|
                0 <= i < items.len() && (#[trigger] items[i]).0 == first_seen(items)[k],
        forall|k: int, l: int|
            #![trigger first_seen(items)[k], first_seen(items)[l]]
            0 <= k < l < first_seen(items).len() ==> exists|i: int|
                {
                    &&& 0 <= i < items.len()
                    &&& (#[trigger] items[i]).0 == first_seen(items)[k]
                    &&& forall|j: int|
                        0 <= j <= i ==> (#[trigger] items[j]).0 != first_seen(items)[l]
                },
    decreases items.len(),
{
    lemma_first_seen(items);
    if items.len() > 0 {
        let rest = items.drop_last();
        let n = rest.len() as int;
        let seen = first_seen(rest);
        let now = first_seen(items);
        signatures_are_seen_in_order(rest);
        assert forall|i: int| 0 <= i < items.len() implies now.contains(
            (#[trigger] items[i]).0,
        ) by {
            if i < n {
                assert(rest[i] == items[i]);
                let k = choose|k: int| 0 <= k < seen.len() && seen[k] == items[i].0;
                assert(now[k] == items[i].0);
            } else {
                if !seen.contains(items[n].0) {
                    assert(now[seen.len() as int] == items[n].0);
                }
            }
        }
        assert forall|k: int|
            #![trigger now[k]]
            0 <= k < now.len() implies exists|i: int|
            0 <= i < items.len() && (#[trigger] items[i]).0 == now[k] by {
            if k < seen.len() {
                assert(now[k] == seen[k]);
                let i = choose|i: int| 0 <= i < rest.len() && (#[trigger] rest[i]).0 == seen[k];
                assert(items[i].0 == now[k]);
            } else {
                assert(items[n].0 == now[k]);
            }
        }
        assert forall|k: int, l: int|
            #![trigger now[k], now[l]]
            0 <= k < l < now.len() implies exists|i: int|
            {
                &&& 0 <= i < items.len()
                &&& (#[trigger] items[i]).0 == now[k]
                &&& forall|j: int| 0 <= j <= i ==> (#[trigger] items[j]).0 != now[l]
            } by {
            assert(now[k] == seen[k]);
            if l < seen.len() {
                assert(now[l] == seen[l]);
                let i = choose|i: int|
                    {
                        &&& 0 <= i < rest.len()
                        &&& (#[trigger] rest[i]).0 == seen[k]
                        &&& forall|j: int| 0 <= j <= i ==> (#[trigger] rest[j]).0 != seen[l]
                    };
                assert(items[i].0 == now[k]);
                assert forall|j: int| 0 <= j <= i implies (#[trigger] items[j]).0 != now[l] by {
                    assert(rest[j].0 != seen[l]);
                }
            } else {
                let i = choose|i: int| 0 <= i < rest.len() && (#[trigger] rest[i]).0 == seen[k];
                assert(items[i].0 == now[k]);
                assert forall|j: int| 0 <= j <= i implies (#[trigger] items[j]).0 != now[l] by {
                    assert(rest[j] == items[j]);
                    assert(seen.contains(rest[j].0));
                }
            }
        }
    }
}

/// Folding contributions is calling the fold once for each, in order, with all
/// its samples: `accs` begins with a new accumulator, each step takes it one
/// contribution further, and it ends with the accumulator folded into.
pub proof fn each_contribution_is_folded_once<
    V,
    A,
    N: Fn() -> A,
    F: Fn(A, &Vec<Sample<V>>) -> A,
>(new_acc: N, fold: F, contributions: Seq<Contribution<V>>, acc: A) -> (steps: (
    Seq<A>,
    Seq<Vec<Sample<V>>>,
))
    requires
        folded(new_acc, fold, contributions, acc),
    ensures
        ({
            let (accs, runs) = steps;
            &&& accs.len() == contributions.len() + 1
            &&& runs.len() == contributions.len()
            &&& call_ensures(new_acc, (), accs[0])
            &&& accs[contributions.len() as int] == acc
            &&& forall|k: int|
                #![trigger runs[k]]
                0 <= k < contributions.len() ==> runs[k]@ == contributions[k].samples
                    && call_ensures(fold, (accs[k], &runs[k]), accs[k + 1])
        }),
    decreases contributions.len(),
{
    if contributions.len() == 0 {
        (seq![acc], Seq::empty())
    } else {
        let n = contributions.len() - 1;
        let rest = contributions.drop_last();
        let (before, run) = choose|before: A, run: Vec<Sample<V>>|
            {
                &&& folded(new_acc, fold, rest, before)
                &&& run@ == contributions.last().samples
                &&& #[trigger] call_ensures(fold, (before, &run), acc)
            };
        let (a, r) = each_contribution_is_folded_once(new_acc, fold, rest, before);
        let accs = a.push(acc);
        let runs = r.push(run);
        assert forall|k: int|
            #![trigger runs[k]]
            0 <= k < contributions.len() implies runs[k]@ == contributions[k].samples
            && call_ensures(fold, (accs[k], &runs[k]), accs[k + 1]) by {
            if k < n {
                assert(runs[k] == r[k]);
                assert(accs[k] == a[k] && accs[k + 1] == a[k + 1]);
            }
        }
        (accs, runs)
    }
}

/// Merging groups is calling the merge once for each group after the first, in
/// order, beginning with the accumulator of the first.
pub proof fn each_group_is_merged_once<A, M: Fn(A, A) -> A>(
    merge: M,
    groups: Seq<Group<A>>,
    acc: A,
) -> (accs: Seq<A>)
    requires
        merged(merge, groups, acc),
    ensures
        groups.len() > 0,
        accs.len() == groups.len(),
        accs[0] == groups[0].acc,
        accs[groups.len() - 1] == acc,
        forall|k: int|
            0 < k < groups.len() ==> call_ensures(
                merge,
                (accs[k - 1], (#[trigger] groups[k]).acc),
                accs[k],
            ),
    decreases groups.len(),
{
    if groups.len() == 1 {
        seq![acc]
    } else {
        let n = groups.len() - 1;
        let rest = groups.drop_last();
        let before = choose|before: A|
            merged(merge, rest, before) && #[trigger] call_ensures(
                merge,
                (before, groups.last().acc),
                acc,
            );
        let a = each_group_is_merged_once(merge, rest, before);
        let accs = a.push(acc);
        assert forall|k: int| 0 < k < groups.len() implies call_ensures(
            merge,
            (accs[k - 1], (#[trigger] groups[k]).acc),
            accs[k],
        ) by {
            assert(accs[k - 1] == a[k - 1]);
            if k < n {
                assert(accs[k] == a[k]);
                assert(rest[k] == groups[k]);
            }
        }
        accs
    }
}

/// Folding one series into a table calls the fold once, with all its samples,
/// whatever these are. Where the table has a group of that signature, the fold
/// goes on from its accumulator, and nothing else in the table changes.
/// Otherwise a new group with these labels is added at the end, and the fold
/// goes on from a new accumulator.
pub proof fn a_series_goes_into_one_group<V, A, N: Fn() -> A, F: Fn(A, &Vec<Sample<V>>) -> A>(
    new_acc: N,
    fold: F,
    before: Seq<(u64, Group<A>)>,
    sig: u64,
    labels: Seq<(Seq<char>, Seq<char>)>,
    samples: Seq<Sample<V>>,
    after: Seq<(u64, Group<A>)>,
) -> (step: (int, A, Vec<Sample<V>>, A))
    requires
        table_folded(new_acc, fold, before, sig, labels, samples, after),
    ensures
        ({
            let (p, start, run, acc) = step;
            &&& run@ == samples
            &&& call_ensures(fold, (start, &run), acc)
            &&& if exists|q: int| 0 <= q < before.len() && (#[trigger] before[q]).0 == sig {
                &&& 0 <= p < before.len()
                &&& before[p].0 == sig
                &&& start == before[p].1.acc
                &&& after.len() == before.len()
                &&& after[p].0 == sig
                &&& after[p].1.labels == before[p].1.labels
                &&& after[p].1.acc == acc
                &&& forall|q: int|
                    0 <= q < before.len() && q != p ==> #[trigger] after[q] == before[q]
            } else {
                &&& call_ensures(new_acc, (), start)
                &&& after == before.push((sig, Group { labels, acc }))
            }
        }),
{
    if sigs_of(before).contains(sig) {
        let q = choose|q: int| 0 <= q < sigs_of(before).len() && sigs_of(before)[q] == sig;
        assert(before[q].0 == sig);
        let (p, run, acc) = choose|p: int, run: Vec<Sample<V>>, acc: A|
            {
                &&& 0 <= p < before.len()
                &&& before[p].0 == sig
                &&& run@ == samples
                &&& #[trigger] call_ensures(fold, (before[p].1.acc, &run), acc)
                &&& after == before.update(p, (sig, Group { acc, ..before[p].1 }))
            };
        (p, before[p].1.acc, run, acc)
    } else {
        assert forall|q: int| 0 <= q < before.len() implies (#[trigger] before[q]).0 != sig by {
            assert(sigs_of(before)[q] == before[q].0);
        }
        let (start, run, acc) = choose|start: A, run: Vec<Sample<V>>, acc: A|
            {
                &&& call_ensures(new_acc, (), start)
                &&& run@ == samples
                &&& #[trigger] call_ensures(fold, (start, &run), acc)
                &&& after == before.push((sig, Group { labels, acc }))
            };
        (0, start, run, acc)
    }
}

/// Taking in a group calls the merge once where the table has a group of that
/// signature, and nothing else in the table changes; otherwise the group is
/// added at the end as it is.
pub proof fn a_group_goes_into_one_group<A, M: Fn(A, A) -> A>(
    merge: M,
    before: Seq<(u64, Group<A>)>,
    part: (u64, Group<A>),
    after: Seq<(u64, Group<A>)>,
) -> (p: int)
    requires
        table_absorbed(merge, before, part, after),
    ensures
        if exists|q: int| 0 <= q < before.len() && (#[trigger] before[q]).0 == part.0 {
            &&& 0 <= p < before.len()
            &&& before[p].0 == part.0
            &&& after.len() == before.len()
            &&& after[p].0 == part.0
            &&& after[p].1.labels == before[p].1.labels
            &&& call_ensures(merge, (before[p].1.acc, part.1.acc), after[p].1.acc)
            &&& forall|q: int|
                0 <= q < before.len() && q != p ==> #[trigger] after[q] == before[q]
        } else {
            after == before.push(part)
        },
{
    if sigs_of(before).contains(part.0) {
        let q = choose|q: int| 0 <= q < sigs_of(before).len() && sigs_of(before)[q] == part.0;
        assert(before[q].0 == part.0);
        let (p, acc) = choose|p: int, acc: A|
            {
                &&& 0 <= p < before.len()
                &&& before[p].0 == part.0
                &&& #[trigger] call_ensures(merge, (before[p].1.acc, part.1.acc), acc)
                &&& after == before.update(p, (part.0, Group { acc, ..before[p].1 }))
            };
        p
    } else {
        assert forall|q: int| 0 <= q < before.len() implies (#[trigger] before[q]).0 != part.0 by {
            assert(sigs_of(before)[q] == before[q].0);
        }
        0
    }
}

/// The signatures of a table and the groups of its entries are taken over one
/// by one.
pub proof fn entries_are_taken_one_by_one<A>(
    groups: Seq<(u64, Group<A>)>,
    entries: Seq<GroupEntry<A>>,
)
    ensures
        sigs_of(groups).len() == groups.len(),
        forall|i: int| 0 <= i < groups.len() ==> #[trigger] sigs_of(groups)[i] == groups[i].0,
        entry_views(entries).len() == entries.len(),
        forall|i: int|
            0 <= i < entries.len() ==> {
                let (sig, group) = #[trigger] entry_views(entries)[i];
                &&& sig == entries[i].sig
                &&& group.acc == entries[i].acc
                &&& group.labels == label_texts(entries[i].labels@)
            },
{
}

/// All that is asked of a maker, a fold and a merge is that they can be called.
pub proof fn functions_need_only_be_callable<
    V,
    A,
    N: Fn() -> A,
    F: Fn(A, &Vec<Sample<V>>) -> A,
    M: Fn(A, A) -> A,
>(new_acc: N, fold: F, merge: M)
    ensures
        call_requires(new_acc, ()) ==> makes_accs(new_acc),
        (forall|acc: A, samples: Vec<Sample<V>>| #[trigger] call_requires(fold, (acc, &samples)))
            ==> folds_all(fold),
        (forall|a: A, b: A| #[trigger] call_requires(merge, (a, b))) ==> merges_all(merge),
{
}

} // verus!
