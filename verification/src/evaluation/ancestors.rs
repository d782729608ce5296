//! The ancestors of every snapshot of a tree, and how far those in one tree
//! agree with those in another.

use crate::evaluation::clusters::{lemma_name_node, name_forest, name_tree};
use crate::tree::{forest_view, Tree, TreeNode};
use vstd::prelude::*;
use vstd::string::StringExecFns;

verus! {

/// A set of names, as the sequence of its names in the order in which they
/// came.
pub type NameSet = Seq<Seq<char>>;

/// A name with the names of its ancestors.
pub type Entry = (Seq<char>, NameSet);

/// The names of a sequence of texts.
pub open spec fn names_view(names: Seq<String>) -> NameSet {
    Seq::new(names.len(), |i: int| names[i]@)
}

/// The name stands at place `at`, and at no place before.
pub open spec fn first_at(names: NameSet, name: Seq<char>, at: int) -> bool {
    &&& 0 <= at < names.len()
    &&& names[at] == name
    &&& forall|k: int| 0 <= k < at ==> names[k] != name
}

/// The first place of a name.
pub open spec fn place_of(names: NameSet, name: Seq<char>) -> int {
    choose|at: int| first_at(names, name, at)
}

/// The set with the name in it: the set itself where it has the name, else
/// the set with the name after the others.
pub open spec fn with_name(set: NameSet, name: Seq<char>) -> NameSet {
    if set.contains(name) {
        set
    } else {
        set.push(name)
    }
}

/// The names that have entries.
pub open spec fn keys_of(entries: Seq<Entry>) -> NameSet {
    entries.map_values(|e: Entry| e.0)
}

/// The entries with `ancestors` under `name`: in the place of the first
/// entry of that name, or, where there is none, after the others.
pub open spec fn put(entries: Seq<Entry>, name: Seq<char>, ancestors: NameSet) -> Seq<Entry> {
    if keys_of(entries).contains(name) {
        entries.update(place_of(keys_of(entries), name), (name, ancestors))
    } else {
        entries.push((name, ancestors))
    }
}

/// The entries once the first `k` children of a node have been gone
/// through, each with the node and the node's ancestors above it.
pub open spec fn entries_below(
    t: Tree<Seq<char>>,
    within: NameSet,
    so_far: Seq<Entry>,
    k: nat,
) -> Seq<Entry>
    decreases t, k,
{
    if k == 0 || k > t.children.len() {
        so_far
    } else {
        ancestor_entries(t.children[k - 1], within, entries_below(t, within, so_far, (k - 1) as nat))
    }
}

/// The entries once a tree has been gone through: the root is entered with
/// the names above it, then its children are gone through with the root's
/// name among the names above. A name that comes again takes the place of
/// its earlier entry.
pub open spec fn ancestor_entries(t: Tree<Seq<char>>, above: NameSet, so_far: Seq<Entry>) -> Seq<
    Entry,
>
    decreases t, t.children.len() + 1,
{
    entries_below(t, with_name(above, t.value), put(so_far, t.value, above), t.children.len())
}

/// For every name of a tree, the names of its ancestors.
pub struct AncestorSets {
    names: Vec<String>,
    sets: Vec<Vec<String>>,
}

/// Two sets of names side by side: how many names they share, and how many
/// each holds.
#[derive(Debug, Clone, Copy, PartialEq, Eq, Structural)]
pub struct Overlap {
    /// The number of names of the first set that the second holds too.
    pub common: usize,
    /// The number of names of the first set.
    pub ground: usize,
    /// The number of names of the second set.
    pub inferred: usize,
}

/// The names of a set that another set holds too.
pub open spec fn shared(first: NameSet, second: NameSet) -> NameSet {
    first.filter(|name: Seq<char>| second.contains(name))
}

/// How two sets of names stand side by side.
pub open spec fn overlap_of(first: NameSet, second: NameSet) -> Overlap {
    Overlap {
        common: shared(first, second).len() as usize,
        ground: first.len() as usize,
        inferred: second.len() as usize,
    }
}

/// The ancestors entered under a name.
pub open spec fn ancestors_of(entries: Seq<Entry>, name: Seq<char>) -> NameSet {
    entries[place_of(keys_of(entries), name)].1
}

/// Every name of the first entries has an entry among the second.
pub open spec fn covers(second: Seq<Entry>, first: Seq<Entry>) -> bool {
    forall|i: int| 0 <= i < first.len() ==> keys_of(second).contains((#[trigger] first[i]).0)
}

/// How the ancestors in the first entries stand beside those in the
/// second, name by name.
pub open spec fn overlaps_of(first: Seq<Entry>, second: Seq<Entry>) -> Seq<Overlap> {
    first.map_values(|e: Entry| overlap_of(e.1, ancestors_of(second, e.0)))
}

/// The entries without the name: without its entry, and without it among
/// the ancestors of the others.
pub open spec fn without(entries: Seq<Entry>, name: Seq<char>) -> Seq<Entry> {
    entries.filter(|e: Entry| e.0 != name).map_values(
        |e: Entry| (e.0, e.1.filter(|n: Seq<char>| n != name)),
    )
}

/// The first place of a name among the names, if it is among them.
fn find_name(names: &Vec<String>, name: &String) -> (found: Option<usize>)
    ensures
        found is Some <==> names_view(names@).contains(name@),
        found matches Some(at) ==> first_at(names_view(names@), name@, at as int) && at
            == place_of(names_view(names@), name@),
{
    let ghost all = names_view(names@);
    let mut i: usize = 0;
    while i < names.len()
        invariant
            all == names_view(names@),
            i <= names@.len(),
            forall|k: int| 0 <= k < i ==> all[k] != name@,
        decreases names@.len() - i,
    {
        if names[i] == *name {
            proof {
                assert(all[i as int] == name@);
                assert(first_at(all, name@, i as int));
                let chosen = place_of(all, name@);
                assert(first_at(all, name@, chosen));
            }
            return Some(i);
        }
        i = i + 1;
    }
    proof {
        if all.contains(name@) {
            let k = choose|k: int| 0 <= k < all.len() && all[k] == name@;
            assert(all[k] != name@);
        }
    }
    None
}

/// A copy of a set of names.
fn copy_names(names: &Vec<String>) -> (copy: Vec<String>)
    ensures
        names_view(copy@) == names_view(names@),
{
    let mut copy: Vec<String> = Vec::new();
    for i in 0..names.len()
        invariant
            names_view(copy@) == names_view(names@).take(i as int),
    {
        let ghost before = names_view(copy@);
        let name = names[i].clone();
        copy.push(name);
        assert(names_view(copy@) =~= before.push(name@));
        assert(names_view(names@).take(i + 1) =~= names_view(names@).take(i as int).push(
            names@[i as int]@,
        ));
    }
    assert(names_view(names@).take(names@.len() as int) =~= names_view(names@));
    copy
}

impl AncestorSets {
    /// The entries: each name with the names of its ancestors.
    pub closed spec fn entries(&self) -> Seq<Entry> {
        Seq::new(self.names@.len(), |i: int| (self.names@[i]@, names_view(self.sets@[i]@)))
    }

    /// Each name has its set of ancestors beside it.
    pub closed spec fn well_formed(&self) -> bool {
        self.names@.len() == self.sets@.len()
    }

    /// The number of names.
    pub fn len(&self) -> (n: usize)
        requires
            self.well_formed(),
        ensures
            n == self.entries().len(),
    {
        self.names.len()
    }

    /// The name at a place, with the names of its ancestors.
    pub fn entry(&self, i: usize) -> (entry: (&String, &Vec<String>))
        requires
            self.well_formed(),
            i < self.entries().len(),
        ensures
            (entry.0@, names_view(entry.1@)) == self.entries()[i as int],
    {
        (&self.names[i], &self.sets[i])
    }

    /// Enters the ancestors under the name.
    fn enter(&mut self, name: String, ancestors: Vec<String>)
        requires
            old(self).well_formed(),
        ensures
            final(self).well_formed(),
            final(self).entries() == put(old(self).entries(), name@, names_view(ancestors@)),
    {
        let ghost before = self.entries();
        assert(keys_of(before) =~= names_view(self.names@));
        match find_name(&self.names, &name) {
            Some(at) => {
                self.sets.set(at, ancestors);
                assert(self.entries() =~= before.update(
                    at as int,
                    (name@, names_view(ancestors@)),
                ));
            },
            None => {
                self.names.push(name);
                self.sets.push(ancestors);
                assert(self.entries() =~= before.push((name@, names_view(ancestors@))));
            },
        }
    }

    /// Goes through a tree and enters every name with the names above it.
    fn enter_tree(&mut self, node: &TreeNode<String>, ancestors: &Vec<String>)
        requires
            old(self).well_formed(),
        ensures
            final(self).well_formed(),
            final(self).entries() == ancestor_entries(
                name_tree(node@),
                names_view(ancestors@),
                old(self).entries(),
            ),
        decreases node,
    {
        let ghost t = name_tree(node@);
        let ghost above = names_view(ancestors@);
        let ghost before = self.entries();
        proof {
            lemma_name_node(*node);
        }
        self.enter(node.value.clone(), copy_names(ancestors));
        let ghost entered = self.entries();

        let mut including_self = copy_names(ancestors);
        if find_name(&including_self, &node.value).is_none() {
            including_self.push(node.value.clone());
            assert(names_view(including_self@) =~= above.push(t.value));
        }
        let ghost within = names_view(including_self@);
        assert(within == with_name(above, t.value));

        for i in 0..node.children.len()
            invariant
                t == name_tree(node@),
                t.children == name_forest(forest_view(node.children@)),
                within == names_view(including_self@),
                self.well_formed(),
                self.entries() == entries_below(t, within, entered, i as nat),
        {
            proof {
                assert(t.children[i as int] == name_tree(node.children@[i as int]@));
            }
            self.enter_tree(&node.children[i], &including_self);
        }
    }

    /// Takes the root of all trees, `Empty`, out of the entries: its own
    /// entry, and its name among the ancestors of the others.
    pub fn remove_empty(&mut self)
        requires
            old(self).well_formed(),
        ensures
            final(self).well_formed(),
            final(self).entries() == without(old(self).entries(), "Empty"@),
    {
        let ghost before = self.entries();
        let ghost keep = |e: Entry| e.0 != "Empty"@;
        let ghost strip = |e: Entry| (e.0, e.1.filter(|n: Seq<char>| n != "Empty"@));
        let empty = String::from_str("Empty");
        let mut names: Vec<String> = Vec::new();
        let mut sets: Vec<Vec<String>> = Vec::new();
        let ghost mut kept: Seq<Entry> = Seq::empty();
        proof {
            assert(before.take(0) =~= Seq::<Entry>::empty());
            assert(before.take(0).filter(keep) =~= Seq::<Entry>::empty()) by {
                reveal(Seq::filter);
            }
        }
        for i in 0..self.names.len()
            invariant
                *self == *old(self),
                self.well_formed(),
                before == self.entries(),
                empty@ == "Empty"@,
                keep == (|e: Entry| e.0 != "Empty"@),
                strip == (|e: Entry| (e.0, e.1.filter(|n: Seq<char>| n != "Empty"@))),
                names@.len() == sets@.len(),
                kept == Seq::new(names@.len(), |k: int| (names@[k]@, names_view(sets@[k]@))),
                kept == before.take(i as int).filter(keep).map_values(strip),
        {
            proof {
                assert(before.take(i + 1) =~= before.take(i as int).push(before[i as int]));
                crate::seqs::lemma_select_push(
                    before.take(i as int),
                    before[i as int],
                    keep,
                    strip,
                );
            }
            if !(self.names[i] == empty) {
                let stripped = strip_name(&self.sets[i], &empty);
                names.push(self.names[i].clone());
                sets.push(stripped);
                proof {
                    let more = Seq::new(
                        names@.len(),
                        |k: int| (names@[k]@, names_view(sets@[k]@)),
                    );
                    assert(more =~= kept.push(strip(before[i as int])));
                    kept = more;
                }
            }
        }
        proof {
            assert(before.take(before.len() as int) =~= before);
        }
        self.names = names;
        self.sets = sets;
        assert(self.entries() =~= kept);
    }
}

/// A set of names without one name.
fn strip_name(set: &Vec<String>, name: &String) -> (stripped: Vec<String>)
    ensures
        names_view(stripped@) == names_view(set@).filter(|n: Seq<char>| n != name@),
{
    let ghost all = names_view(set@);
    let ghost keep = |n: Seq<char>| n != name@;
    let mut stripped: Vec<String> = Vec::new();
    proof {
        assert(all.take(0) =~= Seq::<Seq<char>>::empty());
        assert(all.take(0).filter(keep) =~= Seq::<Seq<char>>::empty()) by {
            reveal(Seq::filter);
        }
    }
    for i in 0..set.len()
        invariant
            all == names_view(set@),
            keep == (|n: Seq<char>| n != name@),
            names_view(stripped@) == all.take(i as int).filter(keep),
    {
        let ghost before = names_view(stripped@);
        proof {
            assert(all.take(i + 1).drop_last() =~= all.take(i as int));
            assert(all.take(i + 1).last() == all[i as int]);
            reveal(Seq::filter);
        }
        if !(set[i] == *name) {
            stripped.push(set[i].clone());
            assert(names_view(stripped@) =~= before.push(all[i as int]));
        }
    }
    assert(all.take(all.len() as int) =~= all);
    stripped
}

/// Finds, for every name of a tree, the names of its ancestors. Of a name
/// that the tree holds more than once, the last one counts, in the order of
/// the tree: each node before its children.
pub fn make_ancestor_sets(tree: &TreeNode<String>) -> (sets: AncestorSets)
    ensures
        sets.well_formed(),
        sets.entries() == ancestor_entries(
            name_tree(tree@),
            Seq::<Seq<char>>::empty(),
            Seq::<Entry>::empty(),
        ),
{
    let mut ancestor_sets = AncestorSets { names: Vec::new(), sets: Vec::new() };
    assert(ancestor_sets.entries() =~= Seq::<Entry>::empty());
    let none: Vec<String> = Vec::new();
    assert(names_view(none@) =~= Seq::<Seq<char>>::empty());
    ancestor_sets.enter_tree(tree, &none);
    ancestor_sets
}

/// Counts how many names of the first set the second holds too.
fn count_shared(first: &Vec<String>, second: &Vec<String>) -> (count: usize)
    ensures
        count == shared(names_view(first@), names_view(second@)).len(),
{
    let ghost a = names_view(first@);
    let ghost b = names_view(second@);
    let ghost held = |name: Seq<char>| b.contains(name);
    let mut count: usize = 0;
    proof {
        assert(a.take(0) =~= Seq::<Seq<char>>::empty());
        assert(a.take(0).filter(held) =~= Seq::<Seq<char>>::empty()) by {
            reveal(Seq::filter);
        }
    }
    for i in 0..first.len()
        invariant
            a == names_view(first@),
            b == names_view(second@),
            held == (|name: Seq<char>| b.contains(name)),
            count == a.take(i as int).filter(held).len(),
            count <= i,
    {
        proof {
            assert(a.take(i + 1).drop_last() =~= a.take(i as int));
            assert(a.take(i + 1).last() == a[i as int]);
            reveal(Seq::filter);
        }
        if find_name(second, &first[i]).is_some() {
            count = count + 1;
        }
    }
    assert(a.take(a.len() as int) =~= a);
    count
}

/// Puts the ancestors that the true tree gives every name beside those
/// that the inferred tree gives it: for every name of the first sets, in
/// their order, how many of its ancestors the two share and how many each
/// has. There is no result where the second sets lack a name of the first.
pub fn compare_ancestor_sets(ground_sets: &AncestorSets, inferred_sets: &AncestorSets) -> (overlaps:
    Option<Vec<Overlap>>)
    requires
        ground_sets.well_formed(),
        inferred_sets.well_formed(),
    ensures
        overlaps is Some <==> covers(inferred_sets.entries(), ground_sets.entries()),
        overlaps matches Some(found) ==> found@ == overlaps_of(
            ground_sets.entries(),
            inferred_sets.entries(),
        ),
{
    let ghost first = ground_sets.entries();
    let ghost second = inferred_sets.entries();
    let ghost beside = |e: Entry| overlap_of(e.1, ancestors_of(second, e.0));
    let mut found: Vec<Overlap> = Vec::new();
    assert(keys_of(second) =~= names_view(inferred_sets.names@));
    for i in 0..ground_sets.names.len()
        invariant
            ground_sets.well_formed(),
            inferred_sets.well_formed(),
            first == ground_sets.entries(),
            second == inferred_sets.entries(),
            keys_of(second) == names_view(inferred_sets.names@),
            beside == (|e: Entry| overlap_of(e.1, ancestors_of(second, e.0))),
            found@ == first.take(i as int).map_values(beside),
            forall|k: int| 0 <= k < i ==> keys_of(second).contains((#[trigger] first[k]).0),
    {
        let ground_set = &ground_sets.sets[i];
        let Some(at) = find_name(&inferred_sets.names, &ground_sets.names[i]) else {
            assert(!keys_of(second).contains(first[i as int].0));
            return None;
        };
        let inferred_set = &inferred_sets.sets[at];
        let overlap = Overlap {
            common: count_shared(ground_set, inferred_set),
            ground: ground_set.len(),
            inferred: inferred_set.len(),
        };
        proof {
            assert(second[at as int].1 == names_view(inferred_set@));
            assert(overlap == beside(first[i as int]));
        }
        found.push(overlap);
        assert(found@ =~= first.take(i + 1).map_values(beside));
    }
    assert(first.take(first.len() as int) =~= first);
    Some(found)
}

} // verus!
