//! The call graph: merging per-file scan results under the tree-wide
//! known-symbol filter, and the reverse caller lookup.
//!
//! The build is two-pass: pass one collects every function name defined
//! anywhere in the tree; pass two scans each file's bodies and keeps only
//! call sites whose identifier is a member of that completed set. The merged
//! graph is keyed by bare function name; when two files define the same name,
//! the later-processed entry overwrites the earlier one.

use vstd::prelude::*;
use crate::bytes::{seq_views, entry_views, lex_lt, lemma_lex_trichotomy, lemma_lex_transitive,
    lemma_concat_contains, bytes_eq, bytes_lt, copy_bytes, copy_bytes_vec, contains_bytes};
use crate::scan::{def_names, file_entries, parse_functions, parse_functions_and_calls,
    lemma_file_entry_names};

verus! {

/// The function names defined anywhere in the given file contents, in file
/// order: the universe of the known-symbol filter.
pub open spec fn tree_names(files: Seq<Seq<u8>>) -> Seq<Seq<u8>>
    decreases files.len(),
{
    if files.len() == 0 {
        Seq::empty()
    } else {
        tree_names(files.drop_last()) + def_names(files.last())
    }
}

/// All (function name, raw call sites) pairs of the tree, in processing
/// order: file order first, definition discovery order within a file.
pub open spec fn all_entries(files: Seq<Seq<u8>>) -> Seq<(Seq<u8>, Seq<Seq<u8>>)>
    decreases files.len(),
{
    if files.len() == 0 {
        Seq::empty()
    } else {
        all_entries(files.drop_last()) + file_entries(files.last())
    }
}

/// The call sites among `calls` whose identifier is a member of `names`, in
/// order, duplicates kept.
pub open spec fn filter_known(calls: Seq<Seq<u8>>, names: Seq<Seq<u8>>) -> Seq<Seq<u8>>
    decreases calls.len(),
{
    if calls.len() == 0 {
        Seq::empty()
    } else {
        filter_known(calls.drop_last(), names) + (if names.contains(calls.last()) {
            seq![calls.last()]
        } else {
            Seq::empty()
        })
    }
}

/// Each entry with its call list restricted to `names`.
pub open spec fn filt(es: Seq<(Seq<u8>, Seq<Seq<u8>>)>, names: Seq<Seq<u8>>) -> Seq<
    (Seq<u8>, Seq<Seq<u8>>),
> {
    es.map_values(|e: (Seq<u8>, Seq<Seq<u8>>)| (e.0, filter_known(e.1, names)))
}

/// The tree's entries after the known-symbol filter, in processing order.
pub open spec fn filtered_entries(files: Seq<Seq<u8>>) -> Seq<(Seq<u8>, Seq<Seq<u8>>)> {
    filt(all_entries(files), tree_names(files))
}

/// An association list folded into a map, later entries overwriting earlier
/// ones: the merge policy of the graph.
pub open spec fn map_of_entries(es: Seq<(Seq<u8>, Seq<Seq<u8>>)>) -> Map<Seq<u8>, Seq<Seq<u8>>>
    decreases es.len(),
{
    if es.len() == 0 {
        Map::empty()
    } else {
        map_of_entries(es.drop_last()).insert(es.last().0, es.last().1)
    }
}

/// The call graph of a source tree, as a map from function name to its
/// filtered callee list.
pub open spec fn graph_map(files: Seq<Seq<u8>>) -> Map<Seq<u8>, Seq<Seq<u8>>> {
    map_of_entries(filtered_entries(files))
}

/// Whether the association list has an entry named `k`.
pub open spec fn has_key(es: Seq<(Seq<u8>, Seq<Seq<u8>>)>, k: Seq<u8>) -> bool {
    exists|i: int| 0 <= i < es.len() && es[i].0 == k
}

/// The value of the last entry named `k` (empty if there is none).
pub open spec fn lookup(es: Seq<(Seq<u8>, Seq<Seq<u8>>)>, k: Seq<u8>) -> Seq<Seq<u8>>
    decreases es.len(),
{
    if es.len() == 0 {
        Seq::empty()
    } else if es.last().0 == k {
        es.last().1
    } else {
        lookup(es.drop_last(), k)
    }
}

/// Keys strictly increasing in lexicographic order (hence unique).
pub open spec fn keys_sorted(es: Seq<(Seq<u8>, Seq<Seq<u8>>)>) -> bool {
    forall|i: int, j: int| 0 <= i < j < es.len() ==> lex_lt(es[i].0, es[j].0)
}

/// Insertion into a key-sorted association list: an entry with an equal key
/// is replaced, otherwise the new entry lands at its ordered position.
pub open spec fn sorted_insert(
    es: Seq<(Seq<u8>, Seq<Seq<u8>>)>,
    name: Seq<u8>,
    calls: Seq<Seq<u8>>,
) -> Seq<(Seq<u8>, Seq<Seq<u8>>)>
    decreases es.len(),
{
    if es.len() == 0 {
        seq![(name, calls)]
    } else if lex_lt(name, es[0].0) {
        seq![(name, calls)] + es
    } else if name == es[0].0 {
        seq![(name, calls)] + es.drop_first()
    } else {
        seq![es[0]] + sorted_insert(es.drop_first(), name, calls)
    }
}

/// The canonical (key-sorted, last-write-wins) form of an association list.
pub open spec fn sorted_entries(es: Seq<(Seq<u8>, Seq<Seq<u8>>)>) -> Seq<(Seq<u8>, Seq<Seq<u8>>)>
    decreases es.len(),
{
    if es.len() == 0 {
        Seq::empty()
    } else {
        sorted_insert(sorted_entries(es.drop_last()), es.last().0, es.last().1)
    }
}

/// The names of the entries whose callee list contains `target`, in entry
/// order: the caller index, computed by inverting the graph.
pub open spec fn callers_of(es: Seq<(Seq<u8>, Seq<Seq<u8>>)>, target: Seq<u8>) -> Seq<Seq<u8>>
    decreases es.len(),
{
    if es.len() == 0 {
        Seq::empty()
    } else {
        callers_of(es.drop_last(), target) + (if es.last().1.contains(target) {
            seq![es.last().0]
        } else {
            Seq::empty()
        })
    }
}

/// An association list's map ignores everything but the last entry per key.
pub proof fn lemma_map_lookup(es: Seq<(Seq<u8>, Seq<Seq<u8>>)>, k: Seq<u8>)
    ensures
        map_of_entries(es).dom().contains(k) <==> has_key(es, k),
        has_key(es, k) ==> map_of_entries(es)[k] == lookup(es, k),
    decreases es.len(),
{
    if es.len() > 0 {
        lemma_map_lookup(es.drop_last(), k);
        if es.last().0 == k {
            assert(es[es.len() - 1].0 == k);
        } else {
            if has_key(es, k) {
                let i = choose|i: int| 0 <= i < es.len() && es[i].0 == k;
                assert(es.drop_last()[i].0 == k);
            }
            if has_key(es.drop_last(), k) {
                let i = choose|i: int| 0 <= i < es.drop_last().len() && es.drop_last()[i].0 == k;
                assert(es[i].0 == k);
            }
        }
    }
}

/// Prepending an entry whose key occurs nowhere in the list inserts it into
/// the list's map.
pub proof fn lemma_prepend_fresh(
    e: (Seq<u8>, Seq<Seq<u8>>),
    es: Seq<(Seq<u8>, Seq<Seq<u8>>)>,
)
    requires
        !has_key(es, e.0),
    ensures
        map_of_entries(seq![e] + es) == map_of_entries(es).insert(e.0, e.1),
    decreases es.len(),
{
    reveal_with_fuel(map_of_entries, 3);
    if es.len() == 0 {
        assert((seq![e] + es) =~= seq![e]);
        assert((seq![e] + es).drop_last() =~= Seq::<(Seq<u8>, Seq<Seq<u8>>)>::empty());
        assert((seq![e] + es).last() == e);
        assert(map_of_entries(seq![e] + es) =~= map_of_entries(es).insert(e.0, e.1));
    } else {
        assert((seq![e] + es).drop_last() =~= seq![e] + es.drop_last());
        assert((seq![e] + es).last() == es.last());
        if has_key(es.drop_last(), e.0) {
            let i = choose|i: int|
                0 <= i < es.drop_last().len() && es.drop_last()[i].0 == e.0;
            assert(es[i].0 == e.0);
        }
        lemma_prepend_fresh(e, es.drop_last());
        assert(es[es.len() - 1].0 == es.last().0);
        assert(e.0 != es.last().0);
        assert(map_of_entries(seq![e] + es) == map_of_entries(seq![e] + es.drop_last()).insert(
            es.last().0,
            es.last().1,
        ));
        assert(map_of_entries(es) == map_of_entries(es.drop_last()).insert(
            es.last().0,
            es.last().1,
        ));
        assert(map_of_entries(es.drop_last()).insert(e.0, e.1).insert(es.last().0, es.last().1)
            =~= map_of_entries(es.drop_last()).insert(es.last().0, es.last().1).insert(e.0, e.1));
        assert(map_of_entries(seq![e] + es) =~= map_of_entries(es).insert(e.0, e.1));
    }
}

/// Sorted insertion keeps the keys sorted, adds exactly the new key, and acts
/// as map insertion.
pub proof fn lemma_sorted_insert(
    es: Seq<(Seq<u8>, Seq<Seq<u8>>)>,
    name: Seq<u8>,
    calls: Seq<Seq<u8>>,
)
    requires
        keys_sorted(es),
    ensures
        keys_sorted(sorted_insert(es, name, calls)),
        forall|k: Seq<u8>|
            #![trigger has_key(sorted_insert(es, name, calls), k)]
            #![trigger has_key(es, k)]
            has_key(sorted_insert(es, name, calls), k) <==> (has_key(es, k) || k == name),
        map_of_entries(sorted_insert(es, name, calls)) == map_of_entries(es).insert(name, calls),
    decreases es.len(),
{
    reveal_with_fuel(map_of_entries, 3);
    let r = sorted_insert(es, name, calls);
    if es.len() == 0 {
        assert forall|k: Seq<u8>| has_key(r, k) <==> (has_key(es, k) || k == name) by {
            if k == name {
                assert(r[0].0 == k);
            }
            if has_key(r, k) {
                let i = choose|i: int| 0 <= i < r.len() && r[i].0 == k;
                assert(i == 0);
            }
        }
        assert(seq![(name, calls)].drop_last() =~= Seq::<(Seq<u8>, Seq<Seq<u8>>)>::empty());
    } else if lex_lt(name, es[0].0) {
        assert forall|i: int, j: int| 0 <= i < j < r.len() implies lex_lt(r[i].0, r[j].0) by {
            if i == 0 {
                assert(r[j] == es[j - 1]);
                if j == 1 {
                    assert(lex_lt(name, es[0].0));
                } else {
                    lemma_lex_transitive(name, es[0].0, es[j - 1].0);
                }
            } else {
                assert(r[i] == es[i - 1] && r[j] == es[j - 1]);
            }
        }
        assert forall|k: Seq<u8>| has_key(r, k) <==> (has_key(es, k) || k == name) by {
            if k == name {
                assert(r[0].0 == k);
            }
            if has_key(es, k) {
                let i = choose|i: int| 0 <= i < es.len() && es[i].0 == k;
                assert(r[i + 1].0 == k);
            }
            if has_key(r, k) {
                let i = choose|i: int| 0 <= i < r.len() && r[i].0 == k;
                if i > 0 {
                    assert(es[i - 1].0 == k);
                }
            }
        }
        assert(!has_key(es, name)) by {
            if has_key(es, name) {
                let i = choose|i: int| 0 <= i < es.len() && es[i].0 == name;
                if i > 0 {
                    lemma_lex_transitive(name, es[0].0, es[i].0);
                }
                lemma_lex_trichotomy(name, es[i].0);
            }
        }
        lemma_prepend_fresh((name, calls), es);
    } else if name == es[0].0 {
        let tail = es.drop_first();
        assert(keys_sorted(tail)) by {
            assert(forall|i: int, j: int| 0 <= i < j < tail.len() ==> es[i + 1] == tail[i] && es[j
                + 1] == tail[j]);
        }
        assert forall|i: int, j: int| 0 <= i < j < r.len() implies lex_lt(r[i].0, r[j].0) by {
            if i == 0 {
                assert(r[j] == tail[j - 1]);
                assert(tail[j - 1] == es[j]);
            } else {
                assert(r[i] == es[i] && r[j] == es[j]);
            }
        }
        assert forall|k: Seq<u8>| has_key(r, k) <==> (has_key(es, k) || k == name) by {
            if k == name {
                assert(r[0].0 == k);
            }
            if has_key(es, k) {
                let i = choose|i: int| 0 <= i < es.len() && es[i].0 == k;
                if i == 0 {
                    assert(r[0].0 == k);
                } else {
                    assert(r[i].0 == tail[i - 1].0);
                    assert(r[i].0 == k);
                }
            }
            if has_key(r, k) {
                let i = choose|i: int| 0 <= i < r.len() && r[i].0 == k;
                if i > 0 {
                    assert(es[i].0 == k);
                }
            }
        }
        assert(!has_key(tail, name)) by {
            if has_key(tail, name) {
                let i = choose|i: int| 0 <= i < tail.len() && tail[i].0 == name;
                assert(tail[i] == es[i + 1]);
                assert(lex_lt(es[0].0, es[i + 1].0));
                lemma_lex_trichotomy(es[0].0, es[i + 1].0);
            }
        }
        lemma_prepend_fresh((name, calls), tail);
        assert(es =~= seq![es[0]] + tail);
        assert(!has_key(tail, es[0].0));
        lemma_prepend_fresh(es[0], tail);
        assert(map_of_entries(tail).insert(es[0].0, es[0].1).insert(name, calls)
            =~= map_of_entries(tail).insert(name, calls));
    } else {
        lemma_lex_trichotomy(name, es[0].0);
        assert(lex_lt(es[0].0, name));
        let tail = es.drop_first();
        assert(keys_sorted(tail)) by {
            assert(forall|i: int, j: int| 0 <= i < j < tail.len() ==> es[i + 1] == tail[i] && es[j
                + 1] == tail[j]);
        }
        lemma_sorted_insert(tail, name, calls);
        let rr = sorted_insert(tail, name, calls);
        assert(r == seq![es[0]] + rr);
        assert forall|j: int| 0 <= j < rr.len() implies lex_lt(es[0].0, rr[j].0) by {
            assert(rr[j].0 == rr[j].0 && has_key(rr, rr[j].0));
            if has_key(tail, rr[j].0) {
                let i = choose|i: int| 0 <= i < tail.len() && tail[i].0 == rr[j].0;
                assert(tail[i] == es[i + 1]);
                assert(lex_lt(es[0].0, es[i + 1].0));
            } else {
                assert(rr[j].0 == name);
            }
        }
        assert forall|i: int, j: int| 0 <= i < j < r.len() implies lex_lt(r[i].0, r[j].0) by {
            if i == 0 {
                assert(r[j] == rr[j - 1]);
            } else {
                assert(r[i] == rr[i - 1] && r[j] == rr[j - 1]);
            }
        }
        assert forall|k: Seq<u8>| has_key(r, k) <==> (has_key(es, k) || k == name) by {
            if has_key(r, k) {
                let i = choose|i: int| 0 <= i < r.len() && r[i].0 == k;
                if i == 0 {
                    assert(es[0].0 == k);
                } else {
                    assert(rr[i - 1].0 == k);
                    assert(has_key(rr, k));
                    if has_key(tail, k) {
                        let l = choose|l: int| 0 <= l < tail.len() && tail[l].0 == k;
                        assert(es[l + 1].0 == k);
                    }
                }
            }
            if k == name {
                assert(has_key(rr, k));
                let i = choose|i: int| 0 <= i < rr.len() && rr[i].0 == k;
                assert(r[i + 1].0 == k);
            }
            if has_key(es, k) {
                let i = choose|i: int| 0 <= i < es.len() && es[i].0 == k;
                if i == 0 {
                    assert(r[0].0 == k);
                } else {
                    assert(tail[i - 1].0 == k);
                    assert(has_key(tail, k));
                    assert(has_key(rr, k));
                    let l = choose|l: int| 0 <= l < rr.len() && rr[l].0 == k;
                    assert(r[l + 1].0 == k);
                }
            }
        }
        assert(!has_key(rr, es[0].0)) by {
            if has_key(rr, es[0].0) {
                if has_key(tail, es[0].0) {
                    let i = choose|i: int| 0 <= i < tail.len() && tail[i].0 == es[0].0;
                    assert(tail[i] == es[i + 1]);
                    assert(lex_lt(es[0].0, es[i + 1].0));
                    lemma_lex_trichotomy(es[0].0, es[i + 1].0);
                } else {
                    lemma_lex_trichotomy(es[0].0, name);
                }
            }
        }
        lemma_prepend_fresh(es[0], rr);
        assert(es =~= seq![es[0]] + tail);
        assert(!has_key(tail, es[0].0)) by {
            if has_key(tail, es[0].0) {
                let i = choose|i: int| 0 <= i < tail.len() && tail[i].0 == es[0].0;
                assert(tail[i] == es[i + 1]);
                assert(lex_lt(es[0].0, es[i + 1].0));
                lemma_lex_trichotomy(es[0].0, es[i + 1].0);
            }
        }
        lemma_prepend_fresh(es[0], tail);
        assert(map_of_entries(tail).insert(name, calls).insert(es[0].0, es[0].1)
            =~= map_of_entries(tail).insert(es[0].0, es[0].1).insert(name, calls));
    }
}

/// The canonical form is key-sorted, keeps exactly the original keys, and has
/// the same map (later duplicates winning).
pub proof fn lemma_sorted_entries(es: Seq<(Seq<u8>, Seq<Seq<u8>>)>)
    ensures
        keys_sorted(sorted_entries(es)),
        forall|k: Seq<u8>|
            #![trigger has_key(sorted_entries(es), k)]
            #![trigger has_key(es, k)]
            has_key(sorted_entries(es), k) <==> has_key(es, k),
        map_of_entries(sorted_entries(es)) == map_of_entries(es),
    decreases es.len(),
{
    if es.len() > 0 {
        lemma_sorted_entries(es.drop_last());
        lemma_sorted_insert(sorted_entries(es.drop_last()), es.last().0, es.last().1);
        assert forall|k: Seq<u8>| has_key(sorted_entries(es), k) <==> has_key(es, k) by {
            if has_key(es, k) {
                let i = choose|i: int| 0 <= i < es.len() && es[i].0 == k;
                if i < es.len() - 1 {
                    assert(es.drop_last()[i].0 == k);
                } else {
                    assert(es.last().0 == k);
                }
            }
            if has_key(sorted_entries(es), k) {
                if has_key(es.drop_last(), k) {
                    let i = choose|i: int|
                        0 <= i < es.drop_last().len() && es.drop_last()[i].0 == k;
                    assert(es[i].0 == k);
                } else {
                    assert(es[es.len() - 1].0 == k);
                }
            }
        }
    }
}

/// Positional form of sorted insertion: given the first index whose key is
/// not below the new name, the insertion is an update (equal key) or a splice.
pub proof fn lemma_sorted_insert_at(
    es: Seq<(Seq<u8>, Seq<Seq<u8>>)>,
    name: Seq<u8>,
    calls: Seq<Seq<u8>>,
    idx: int,
)
    requires
        keys_sorted(es),
        0 <= idx <= es.len(),
        forall|j: int| 0 <= j < idx ==> lex_lt(es[j].0, name),
        idx < es.len() ==> !lex_lt(es[idx].0, name),
    ensures
        idx < es.len() && es[idx].0 == name ==> sorted_insert(es, name, calls) == es.update(
            idx,
            (name, calls),
        ),
        !(idx < es.len() && es[idx].0 == name) ==> sorted_insert(es, name, calls) == es.take(idx)
            + seq![(name, calls)] + es.skip(idx),
    decreases es.len(),
{
    if es.len() == 0 {
        assert(sorted_insert(es, name, calls) =~= es.take(0) + seq![(name, calls)] + es.skip(0));
    } else if idx == 0 {
        lemma_lex_trichotomy(name, es[0].0);
        if es[0].0 == name {
            assert(seq![(name, calls)] + es.drop_first() =~= es.update(0, (name, calls)));
        } else {
            assert(lex_lt(name, es[0].0));
            assert(seq![(name, calls)] + es =~= es.take(0) + seq![(name, calls)] + es.skip(0));
        }
    } else {
        lemma_lex_trichotomy(name, es[0].0);
        assert(lex_lt(es[0].0, name));
        let tail = es.drop_first();
        assert(keys_sorted(tail)) by {
            assert(forall|i: int, j: int| 0 <= i < j < tail.len() ==> es[i + 1] == tail[i] && es[j
                + 1] == tail[j]);
        }
        assert(forall|j: int| 0 <= j < idx - 1 ==> tail[j] == es[j + 1]);
        if idx - 1 < tail.len() {
            assert(tail[idx - 1] == es[idx]);
        }
        lemma_sorted_insert_at(tail, name, calls, idx - 1);
        if idx < es.len() && es[idx].0 == name {
            assert(seq![es[0]] + tail.update(idx - 1, (name, calls)) =~= es.update(
                idx,
                (name, calls),
            ));
        } else {
            assert(seq![es[0]] + (tail.take(idx - 1) + seq![(name, calls)] + tail.skip(idx - 1))
                =~= es.take(idx) + seq![(name, calls)] + es.skip(idx));
        }
    }
}

/// A call graph: function names mapped to their filtered callee lists, held
/// as a key-sorted association list.
#[derive(Debug, PartialEq, Eq)]
pub struct CallGraph {
    pub entries: Vec<(Vec<u8>, Vec<Vec<u8>>)>,
}

impl CallGraph {
    /// The entries as mathematical sequences, in key order.
    pub open spec fn entries_view(self) -> Seq<(Seq<u8>, Seq<Seq<u8>>)> {
        entry_views(self.entries@)
    }

    /// The graph as a map from function name to callee list.
    pub open spec fn as_map(self) -> Map<Seq<u8>, Seq<Seq<u8>>> {
        map_of_entries(self.entries_view())
    }

    /// Keys strictly sorted, hence one entry per function name.
    pub open spec fn well_formed(self) -> bool {
        keys_sorted(self.entries_view())
    }

    /// An empty graph.
    pub fn new() -> (g: CallGraph)
        ensures
            g.well_formed(),
            g.entries_view() == Seq::<(Seq<u8>, Seq<Seq<u8>>)>::empty(),
    {
        let g = CallGraph { entries: Vec::new() };
        proof {
            assert(g.entries_view() =~= Seq::<(Seq<u8>, Seq<Seq<u8>>)>::empty());
        }
        g
    }

    /// The number of functions in the graph.
    pub fn len(&self) -> (n: usize)
        ensures
            n == self.entries_view().len(),
    {
        self.entries.len()
    }

    /// The function names in the graph, in key order.
    pub fn keys(&self) -> (ks: Vec<Vec<u8>>)
        ensures
            seq_views(ks@) == self.entries_view().map_values(
                |e: (Seq<u8>, Seq<Seq<u8>>)| e.0,
            ),
    {
        let mut ks: Vec<Vec<u8>> = Vec::new();
        let key_seq = Ghost(self.entries_view().map_values(|e: (Seq<u8>, Seq<Seq<u8>>)| e.0));
        let mut i: usize = 0;
        while i < self.entries.len()
            invariant
                i <= self.entries@.len(),
                key_seq@ == self.entries_view().map_values(|e: (Seq<u8>, Seq<Seq<u8>>)| e.0),
                seq_views(ks@) == key_seq@.take(i as int),
            decreases self.entries@.len() - i,
        {
            let k = copy_bytes(&self.entries[i].0);
            proof {
                assert(seq_views(ks@.push(k)) =~= seq_views(ks@).push(k@));
                assert(key_seq@.take(i + 1) =~= key_seq@.take(i as int).push(key_seq@[i as int]));
            }
            ks.push(k);
            i += 1;
        }
        proof {
            assert(key_seq@.take(i as int) =~= key_seq@);
        }
        ks
    }

    /// The callee list recorded for `name`, or `None` if the graph has no
    /// such function.
    pub fn get(&self, name: &Vec<u8>) -> (r: Option<Vec<Vec<u8>>>)
        ensures
            match r {
                Some(v) => has_key(self.entries_view(), name@) && seq_views(v@) == lookup(
                    self.entries_view(),
                    name@,
                ),
                None => !has_key(self.entries_view(), name@),
            },
    {
        let ghost ev = self.entries_view();
        let mut i: usize = self.entries.len();
        proof {
            assert(ev.take(i as int) =~= ev);
        }
        while i > 0
            invariant
                i <= self.entries@.len(),
                ev == self.entries_view(),
                lookup(ev, name@) == lookup(ev.take(i as int), name@),
                has_key(ev, name@) == has_key(ev.take(i as int), name@),
            decreases i,
        {
            i -= 1;
            if bytes_eq(&self.entries[i].0, name) {
                proof {
                    assert(ev.take(i + 1).last() == ev[i as int]);
                    assert(ev[i as int].0 == name@);
                }
                return Some(copy_bytes_vec(&self.entries[i].1));
            }
            proof {
                assert(ev.take(i + 1).last() == ev[i as int]);
                assert(ev.take(i + 1).drop_last() =~= ev.take(i as int));
                if has_key(ev.take(i as int), name@) {
                    let l = choose|l: int|
                        0 <= l < ev.take(i as int).len() && (#[trigger] ev.take(i as int)[l]).0
                            == name@;
                    assert(ev.take(i + 1)[l].0 == name@);
                }
                if has_key(ev.take(i + 1), name@) {
                    let l = choose|l: int|
                        0 <= l < ev.take(i + 1).len() && (#[trigger] ev.take(i + 1)[l]).0 == name@;
                    assert(l < i as int);
                    assert(ev.take(i as int)[l].0 == name@);
                }
            }
        }
        proof {
            assert(ev.take(0) =~= Seq::<(Seq<u8>, Seq<Seq<u8>>)>::empty());
            assert(!has_key(ev.take(0), name@));
        }
        None
    }

    /// Record `calls` for `name`, overwriting any entry with the same name
    /// and keeping the keys sorted.
    pub(crate) fn insert_entry(&mut self, name: Vec<u8>, calls: Vec<Vec<u8>>)
        requires
            old(self).well_formed(),
        ensures
            final(self).well_formed(),
            final(self).entries_view() == sorted_insert(
                old(self).entries_view(),
                name@,
                seq_views(calls@),
            ),
    {
        let ghost ev = old(self).entries_view();
        let mut idx: usize = 0;
        while idx < self.entries.len() && bytes_lt(&self.entries[idx].0, &name)
            invariant
                idx <= self.entries@.len(),
                self == old(self),
                ev == entry_views(self.entries@),
                forall|j: int| 0 <= j < idx ==> lex_lt(ev[j].0, name@),
            decreases self.entries@.len() - idx,
        {
            proof {
                assert(ev[idx as int].0 == self.entries@[idx as int].0@);
            }
            idx += 1;
        }
        proof {
            if idx < self.entries.len() {
                assert(ev[idx as int].0 == self.entries@[idx as int].0@);
            }
            lemma_sorted_insert(ev, name@, seq_views(calls@));
            lemma_sorted_insert_at(ev, name@, seq_views(calls@), idx as int);
        }
        if idx < self.entries.len() && bytes_eq(&self.entries[idx].0, &name) {
            self.entries[idx] = (name, calls);
            proof {
                assert(self.entries_view() =~= ev.update(idx as int, (name@, seq_views(calls@))));
            }
        } else {
            self.entries.insert(idx, (name, calls));
            proof {
                assert(self.entries_view() =~= ev.take(idx as int) + seq![
                    (name@, seq_views(calls@)),
                ] + ev.skip(idx as int));
            }
        }
    }
}

/// Build the call graph of a source tree. `files` holds the contents of
/// every source file, in processing order. Pass one collects the tree-wide
/// defined-name set; pass two scans, filters, and merges, later files
/// overwriting earlier entries with the same function name.
pub fn build_call_graph(files: &Vec<Vec<u8>>) -> (g: CallGraph)
    ensures
        g.well_formed(),
        g.entries_view() == sorted_entries(filtered_entries(seq_views(files@))),
        g.as_map() == graph_map(seq_views(files@)),
{
    let ghost fv = seq_views(files@);
    let mut all_names: Vec<Vec<u8>> = Vec::new();
    let mut fi: usize = 0;
    proof {
        assert(fv.take(0) =~= Seq::<Seq<u8>>::empty());
        assert(seq_views(all_names@) =~= tree_names(fv.take(0)));
    }
    while fi < files.len()
        invariant
            fi <= files@.len(),
            fv == seq_views(files@),
            seq_views(all_names@) == tree_names(fv.take(fi as int)),
        decreases files@.len() - fi,
    {
        let mut names = parse_functions(&files[fi]);
        proof {
            let prev = seq_views(all_names@);
            assert(seq_views(all_names@ + names@) =~= prev + seq_views(names@));
            assert(fv.take(fi + 1).drop_last() =~= fv.take(fi as int));
            assert(fv.take(fi + 1).last() == fv[fi as int]);
            assert(fv[fi as int] == files@[fi as int]@);
        }
        all_names.append(&mut names);
        fi += 1;
    }
    proof {
        assert(fv.take(fi as int) =~= fv);
    }
    let ghost nm = tree_names(fv);
    let mut g = CallGraph::new();
    let mut fi2: usize = 0;
    proof {
        assert(fv.take(0) =~= Seq::<Seq<u8>>::empty());
        assert(filt(all_entries(fv.take(0)), nm) =~= Seq::<(Seq<u8>, Seq<Seq<u8>>)>::empty());
    }
    while fi2 < files.len()
        invariant
            fi2 <= files@.len(),
            fv == seq_views(files@),
            seq_views(all_names@) == nm,
            nm == tree_names(fv),
            g.well_formed(),
            g.entries_view() == sorted_entries(filt(all_entries(fv.take(fi2 as int)), nm)),
        decreases files@.len() - fi2,
    {
        let entries = parse_functions_and_calls(&files[fi2]);
        let ghost fes = file_entries(fv[fi2 as int]);
        proof {
            assert(fv[fi2 as int] == files@[fi2 as int]@);
            assert(entry_views(entries@) == fes);
        }
        let mut ei: usize = 0;
        proof {
            assert(fes.take(0) =~= Seq::<(Seq<u8>, Seq<Seq<u8>>)>::empty());
            assert(all_entries(fv.take(fi2 as int)) + fes.take(0) =~= all_entries(
                fv.take(fi2 as int),
            ));
        }
        while ei < entries.len()
            invariant
                ei <= entries@.len(),
                fv == seq_views(files@),
                seq_views(all_names@) == nm,
                nm == tree_names(fv),
                entry_views(entries@) == fes,
                g.well_formed(),
                g.entries_view() == sorted_entries(
                    filt(all_entries(fv.take(fi2 as int)) + fes.take(ei as int), nm),
                ),
                fi2 < files@.len(),
            decreases entries@.len() - ei,
        {
            let name = copy_bytes(&entries[ei].0);
            let mut filtered: Vec<Vec<u8>> = Vec::new();
            let ghost raw = fes[ei as int].1;
            proof {
                assert(raw == seq_views(entries@[ei as int].1@));
                assert(raw.take(0) =~= Seq::<Seq<u8>>::empty());
                assert(seq_views(filtered@) =~= filter_known(raw.take(0), nm));
            }
            let mut ci: usize = 0;
            while ci < entries[ei].1.len()
                invariant
                    0 <= ei < entries@.len(),
                    ci <= entries@[ei as int].1@.len(),
                    raw == seq_views(entries@[ei as int].1@),
                    seq_views(all_names@) == nm,
                    seq_views(filtered@) == filter_known(raw.take(ci as int), nm),
                decreases entries@[ei as int].1@.len() - ci,
            {
                proof {
                    assert(raw.take(ci + 1).drop_last() =~= raw.take(ci as int));
                    assert(raw.take(ci + 1).last() == raw[ci as int]);
                    assert(raw[ci as int] == entries@[ei as int].1@[ci as int]@);
                }
                if contains_bytes(&all_names, &entries[ei].1[ci]) {
                    let c = copy_bytes(&entries[ei].1[ci]);
                    proof {
                        assert(seq_views(filtered@.push(c)) =~= seq_views(filtered@).push(c@));
                        assert(filter_known(raw.take(ci + 1), nm) =~= filter_known(
                            raw.take(ci as int),
                            nm,
                        ).push(raw[ci as int]));
                    }
                    filtered.push(c);
                } else {
                    proof {
                        assert(filter_known(raw.take(ci + 1), nm) =~= filter_known(
                            raw.take(ci as int),
                            nm,
                        ));
                    }
                }
                ci += 1;
            }
            proof {
                assert(raw.take(ci as int) =~= raw);
            }
            let ghost before = all_entries(fv.take(fi2 as int)) + fes.take(ei as int);
            proof {
                assert(fes.take(ei + 1).drop_last() =~= fes.take(ei as int));
                assert(fes.take(ei + 1).last() == fes[ei as int]);
                assert(all_entries(fv.take(fi2 as int)) + fes.take(ei + 1) =~= before.push(
                    fes[ei as int],
                ));
                assert(filt(before.push(fes[ei as int]), nm) =~= filt(before, nm).push(
                    (fes[ei as int].0, filter_known(fes[ei as int].1, nm)),
                ));
                let fb = filt(before, nm);
                let fe = (fes[ei as int].0, filter_known(fes[ei as int].1, nm));
                assert(fb.push(fe).drop_last() =~= fb);
                assert(fb.push(fe).last() == fe);
                assert(sorted_entries(fb.push(fe)) == sorted_insert(
                    sorted_entries(fb),
                    fe.0,
                    fe.1,
                ));
                assert(name@ == fe.0);
                assert(seq_views(filtered@) == fe.1);
            }
            g.insert_entry(name, filtered);
            ei += 1;
        }
        proof {
            assert(fes.take(ei as int) =~= fes);
            assert(fv.take(fi2 + 1).drop_last() =~= fv.take(fi2 as int));
            assert(fv.take(fi2 + 1).last() == fv[fi2 as int]);
            assert(all_entries(fv.take(fi2 + 1)) == all_entries(fv.take(fi2 as int)) + fes);
        }
        fi2 += 1;
    }
    proof {
        assert(fv.take(fi2 as int) =~= fv);
        lemma_sorted_entries(filtered_entries(fv));
    }
    g
}

/// Every function whose recorded callee list contains `function_name`, in
/// key order, together with nothing else: the reverse lookup over a graph.
/// An unknown or never-called name yields the empty list.
pub fn find_callers_of_function(function_name: &Vec<u8>, function_calls: &CallGraph) -> (callers:
    Vec<Vec<u8>>)
    ensures
        seq_views(callers@) == callers_of(function_calls.entries_view(), function_name@),
{
    let ghost ev = function_calls.entries_view();
    let mut callers: Vec<Vec<u8>> = Vec::new();
    let mut i: usize = 0;
    proof {
        assert(ev.take(0) =~= Seq::<(Seq<u8>, Seq<Seq<u8>>)>::empty());
        assert(seq_views(callers@) =~= callers_of(ev.take(0), function_name@));
    }
    while i < function_calls.entries.len()
        invariant
            i <= function_calls.entries@.len(),
            ev == function_calls.entries_view(),
            seq_views(callers@) == callers_of(ev.take(i as int), function_name@),
        decreases function_calls.entries@.len() - i,
    {
        proof {
            assert(ev.take(i + 1).drop_last() =~= ev.take(i as int));
            assert(ev.take(i + 1).last() == ev[i as int]);
        }
        if contains_bytes(&function_calls.entries[i].1, function_name) {
            let k = copy_bytes(&function_calls.entries[i].0);
            proof {
                assert(ev[i as int].1.contains(function_name@));
                assert(seq_views(callers@.push(k)) =~= seq_views(callers@).push(k@));
                assert(callers_of(ev.take(i + 1), function_name@) =~= callers_of(
                    ev.take(i as int),
                    function_name@,
                ).push(ev[i as int].0));
            }
            callers.push(k);
        } else {
            proof {
                assert(!ev[i as int].1.contains(function_name@));
                assert(callers_of(ev.take(i + 1), function_name@) =~= callers_of(
                    ev.take(i as int),
                    function_name@,
                ));
            }
        }
        i += 1;
    }
    proof {
        assert(ev.take(i as int) =~= ev);
    }
    callers
}

/// A call site survives the known-symbol filter exactly when it is a member
/// of the tree-wide defined-name set.
pub proof fn lemma_filter_known_contains(calls: Seq<Seq<u8>>, names: Seq<Seq<u8>>, x: Seq<u8>)
    ensures
        filter_known(calls, names).contains(x) <==> (calls.contains(x) && names.contains(x)),
    decreases calls.len(),
{
    if calls.len() > 0 {
        lemma_filter_known_contains(calls.drop_last(), names, x);
        let tail: Seq<Seq<u8>> = if names.contains(calls.last()) {
            seq![calls.last()]
        } else {
            Seq::empty()
        };
        lemma_concat_contains(filter_known(calls.drop_last(), names), tail, x);
        if calls.contains(x) && names.contains(x) {
            let i = choose|i: int| 0 <= i < calls.len() && calls[i] == x;
            if i < calls.len() - 1 {
                assert(calls.drop_last()[i] == x);
            } else {
                assert(calls.last() == x);
                assert(tail[0] == x);
            }
        }
        if calls.drop_last().contains(x) {
            let i = choose|i: int| 0 <= i < calls.drop_last().len() && calls.drop_last()[i] == x;
            assert(calls[i] == x);
        }
        if tail.contains(x) {
            assert(calls[calls.len() - 1] == x);
        }
    }
}

/// When index `j` holds the last entry with its name, the merged map maps
/// that name to that entry's value: last write wins.
pub proof fn lemma_lookup_at_last(es: Seq<(Seq<u8>, Seq<Seq<u8>>)>, j: int)
    requires
        0 <= j < es.len(),
        forall|l: int| j < l < es.len() ==> (#[trigger] es[l]).0 != es[j].0,
    ensures
        has_key(es, es[j].0),
        lookup(es, es[j].0) == es[j].1,
    decreases es.len(),
{
    assert(es[j].0 == es[j].0);
    if j == es.len() - 1 {
        assert(es.last() == es[j]);
    } else {
        assert(es.last() == es[es.len() - 1]);
        assert(es.last().0 != es[j].0);
        assert(forall|l: int| j < l < es.drop_last().len() ==> (#[trigger] es.drop_last()[l]).0
            != es.drop_last()[j].0);
        lemma_lookup_at_last(es.drop_last(), j);
    }
}

/// The known-symbol filter, stated on the finished graph: for the winning
/// definition of a function F (the entry at index `j`, not followed by
/// another entry of the same name), a name G is among F's recorded callees
/// exactly when F's body contains a call site G and G is defined somewhere
/// in the tree. In particular a call to an undefined (library) function is
/// never recorded, and a call to a defined one is never dropped.
pub proof fn lemma_known_symbol_filter(files: Seq<Seq<u8>>, j: int, g_name: Seq<u8>)
    requires
        0 <= j < all_entries(files).len(),
        forall|l: int| j < l < all_entries(files).len() ==> (#[trigger] all_entries(files)[l]).0
            != all_entries(files)[j].0,
    ensures
        graph_map(files).dom().contains(all_entries(files)[j].0),
        graph_map(files)[all_entries(files)[j].0].contains(g_name) <==> (all_entries(
            files,
        )[j].1.contains(g_name) && tree_names(files).contains(g_name)),
{
    let es = filtered_entries(files);
    let raw = all_entries(files);
    assert(es.len() == raw.len());
    assert(forall|l: int| 0 <= l < raw.len() ==> (#[trigger] es[l]) == (
        raw[l].0,
        filter_known(raw[l].1, tree_names(files)),
    ));
    assert(forall|l: int| j < l < es.len() ==> (#[trigger] es[l]).0 != es[j].0);
    lemma_lookup_at_last(es, j);
    lemma_map_lookup(es, es[j].0);
    lemma_filter_known_contains(raw[j].1, tree_names(files), g_name);
}

/// A source file in which the signature scanner finds nothing contributes
/// nothing: dropping it changes neither the defined-name set nor the graph.
pub proof fn lemma_empty_file_adds_nothing(files: Seq<Seq<u8>>, i: int)
    requires
        0 <= i < files.len(),
        def_names(files[i]).len() == 0,
    ensures
        tree_names(files) == tree_names(files.remove(i)),
        all_entries(files) == all_entries(files.remove(i)),
        graph_map(files) == graph_map(files.remove(i)),
        sorted_entries(filtered_entries(files)) == sorted_entries(
            filtered_entries(files.remove(i)),
        ),
    decreases files.len(),
{
    lemma_file_entry_names(files[i], 0);
    assert(file_entries(files[i]).len() == def_names(files[i]).len());
    assert(file_entries(files[i]) =~= Seq::<(Seq<u8>, Seq<Seq<u8>>)>::empty());
    if i == files.len() - 1 {
        assert(files.remove(i) =~= files.drop_last());
        assert(tree_names(files) =~= tree_names(files.drop_last()));
        assert(all_entries(files) =~= all_entries(files.drop_last()));
    } else {
        assert(files.remove(i).drop_last() =~= files.drop_last().remove(i));
        assert(files.remove(i).last() == files.last());
        assert(files.drop_last()[i] == files[i]);
        lemma_empty_file_adds_nothing(files.drop_last(), i);
        assert(tree_names(files.remove(i)) == tree_names(files.drop_last().remove(i))
            + def_names(files.last()));
        assert(all_entries(files.remove(i)) == all_entries(files.drop_last().remove(i))
            + file_entries(files.last()));
    }
    assert(filtered_entries(files) == filtered_entries(files.remove(i)));
}

/// Rebuilding from an unchanged source tree is deterministic: the graph, its
/// canonical entry order, and therefore its serialized form depend on the
/// file contents alone.
pub proof fn lemma_rebuild_identical(files1: Seq<Seq<u8>>, files2: Seq<Seq<u8>>)
    requires
        files1 == files2,
    ensures
        sorted_entries(filtered_entries(files1)) == sorted_entries(filtered_entries(files2)),
        graph_map(files1) == graph_map(files2),
{
}

/// A name is in the caller list exactly when some entry carries it as a
/// callee under that caller's name.
pub proof fn lemma_callers_membership(
    es: Seq<(Seq<u8>, Seq<Seq<u8>>)>,
    target: Seq<u8>,
    f: Seq<u8>,
)
    ensures
        callers_of(es, target).contains(f) <==> exists|i: int|
            0 <= i < es.len() && (#[trigger] es[i]).0 == f && es[i].1.contains(target),
    decreases es.len(),
{
    if es.len() > 0 {
        lemma_callers_membership(es.drop_last(), target, f);
        let tail: Seq<Seq<u8>> = if es.last().1.contains(target) {
            seq![es.last().0]
        } else {
            Seq::empty()
        };
        lemma_concat_contains(callers_of(es.drop_last(), target), tail, f);
        if callers_of(es.drop_last(), target).contains(f) {
            let i = choose|i: int|
                0 <= i < es.drop_last().len() && (#[trigger] es.drop_last()[i]).0 == f
                    && es.drop_last()[i].1.contains(target);
            assert(es[i].0 == f && es[i].1.contains(target));
        }
        if tail.contains(f) {
            assert(es[es.len() - 1].0 == f && es[es.len() - 1].1.contains(target));
        }
        if exists|i: int| 0 <= i < es.len() && (#[trigger] es[i]).0 == f && es[i].1.contains(
            target,
        ) {
            let i = choose|i: int|
                0 <= i < es.len() && (#[trigger] es[i]).0 == f && es[i].1.contains(target);
            if i < es.len() - 1 {
                assert(es.drop_last()[i].0 == f && es.drop_last()[i].1.contains(target));
            } else {
                assert(tail[0] == f);
            }
        }
    }
}

/// Round trip between the graph and its caller index: inverting a
/// well-formed graph recovers exactly the membership relation of its map.
/// `F` calls `G` according to the caller index if and only if the graph maps
/// `F` to a callee list containing `G`.
pub proof fn lemma_caller_index_inverts(g: CallGraph, target: Seq<u8>, f: Seq<u8>)
    requires
        g.well_formed(),
    ensures
        callers_of(g.entries_view(), target).contains(f) <==> (g.as_map().dom().contains(f)
            && g.as_map()[f].contains(target)),
{
    let es = g.entries_view();
    lemma_callers_membership(es, target, f);
    lemma_map_lookup(es, f);
    if callers_of(es, target).contains(f) {
        let i = choose|i: int|
            0 <= i < es.len() && (#[trigger] es[i]).0 == f && es[i].1.contains(target);
        assert(forall|l: int| i < l < es.len() ==> lex_lt(es[i].0, (#[trigger] es[l]).0));
        assert forall|l: int| i < l < es.len() implies (#[trigger] es[l]).0 != es[i].0 by {
            lemma_lex_trichotomy(es[i].0, es[l].0);
        }
        lemma_lookup_at_last(es, i);
    }
    if g.as_map().dom().contains(f) && g.as_map()[f].contains(target) {
        let i = choose|i: int| 0 <= i < es.len() && (#[trigger] es[i]).0 == f;
        assert forall|l: int| i < l < es.len() implies (#[trigger] es[l]).0 != es[i].0 by {
            lemma_lex_trichotomy(es[i].0, es[l].0);
        }
        lemma_lookup_at_last(es, i);
        assert(es[i].1 == lookup(es, f));
        assert(es[i].1.contains(target));
    }
}

/// Boundary: a name that no callee list contains has no callers at all, so
/// querying it yields the empty list (and a count of zero), not an error.
pub proof fn lemma_uncalled_name_has_no_callers(es: Seq<(Seq<u8>, Seq<Seq<u8>>)>, target: Seq<u8>)
    requires
        forall|i: int| 0 <= i < es.len() ==> !(#[trigger] es[i]).1.contains(target),
    ensures
        callers_of(es, target) == Seq::<Seq<u8>>::empty(),
    decreases es.len(),
{
    if es.len() > 0 {
        assert(es[es.len() - 1] == es.last());
        lemma_uncalled_name_has_no_callers(es.drop_last(), target);
        assert(callers_of(es, target) =~= Seq::<Seq<u8>>::empty());
    }
}

/// A list whose keys are already sorted is its own canonical form.
pub proof fn lemma_sorted_entries_of_sorted(es: Seq<(Seq<u8>, Seq<Seq<u8>>)>)
    requires
        keys_sorted(es),
    ensures
        sorted_entries(es) == es,
    decreases es.len(),
{
    if es.len() > 0 {
        let front = es.drop_last();
        assert(keys_sorted(front)) by {
            assert(forall|i: int, j: int| 0 <= i < j < front.len() ==> front[i] == es[i]
                && front[j] == es[j]);
        }
        lemma_sorted_entries_of_sorted(front);
        assert(es.last() == es[es.len() - 1]);
        assert(forall|j: int| 0 <= j < front.len() ==> (#[trigger] front[j]).0 == es[j].0);
        lemma_sorted_insert_at(front, es.last().0, es.last().1, front.len() as int);
        assert(front.take(front.len() as int) + seq![(es.last().0, es.last().1)] + front.skip(
            front.len() as int,
        ) =~= es);
    }
}

/// Every entry of a sorted insertion is the inserted entry or one of the
/// original entries.
pub proof fn lemma_sorted_insert_entries(
    es: Seq<(Seq<u8>, Seq<Seq<u8>>)>,
    name: Seq<u8>,
    calls: Seq<Seq<u8>>,
)
    ensures
        forall|k: int| 0 <= k < sorted_insert(es, name, calls).len() ==> ((#[trigger] sorted_insert(
            es,
            name,
            calls,
        )[k]) == (name, calls) || es.contains(sorted_insert(es, name, calls)[k])),
    decreases es.len(),
{
    let r = sorted_insert(es, name, calls);
    if es.len() == 0 {
    } else if lex_lt(name, es[0].0) {
        assert forall|k: int| 0 <= k < r.len() implies ((#[trigger] r[k]) == (name, calls)
            || es.contains(r[k])) by {
            if k > 0 {
                assert(r[k] == es[k - 1]);
            }
        }
    } else if name == es[0].0 {
        assert forall|k: int| 0 <= k < r.len() implies ((#[trigger] r[k]) == (name, calls)
            || es.contains(r[k])) by {
            if k > 0 {
                assert(r[k] == es.drop_first()[k - 1]);
                assert(es.drop_first()[k - 1] == es[k]);
            }
        }
    } else {
        lemma_sorted_insert_entries(es.drop_first(), name, calls);
        let rr = sorted_insert(es.drop_first(), name, calls);
        assert forall|k: int| 0 <= k < r.len() implies ((#[trigger] r[k]) == (name, calls)
            || es.contains(r[k])) by {
            if k == 0 {
                assert(r[0] == es[0]);
                assert(es[0] == es[0]);
            } else {
                assert(r[k] == rr[k - 1]);
                if rr[k - 1] != (name, calls) {
                    assert(es.drop_first().contains(rr[k - 1]));
                    let l = choose|l: int|
                        0 <= l < es.drop_first().len() && es.drop_first()[l] == rr[k - 1];
                    assert(es[l + 1] == rr[k - 1]);
                }
            }
        }
    }
}

/// The defined-name filter keeps identifier-byte call lists identifier-byte.
pub proof fn lemma_filter_known_word(calls: Seq<Seq<u8>>, names: Seq<Seq<u8>>)
    requires
        crate::scan::word_calls(calls),
    ensures
        crate::scan::word_calls(filter_known(calls, names)),
    decreases calls.len(),
{
    if calls.len() > 0 {
        assert(crate::scan::word_calls(calls.drop_last())) by {
            assert(forall|k: int| 0 <= k < calls.drop_last().len() ==> (#[trigger] calls.drop_last(
            )[k]) == calls[k]);
        }
        lemma_filter_known_word(calls.drop_last(), names);
        let r = filter_known(calls, names);
        let front = filter_known(calls.drop_last(), names);
        assert forall|k: int| 0 <= k < r.len() implies crate::scan::word_seq(#[trigger] r[k]) by {
            if k < front.len() {
                assert(r[k] == front[k]);
            } else {
                assert(r[k] == calls.last());
                assert(calls.last() == calls[calls.len() - 1]);
            }
        }
    }
}

/// Everything the whole pipeline puts into the canonical graph consists of
/// identifier bytes: names and callees come from the scanners, the filter
/// only removes, and sorted merging only rearranges and replaces.
pub proof fn lemma_built_graph_word(files: Seq<Seq<u8>>)
    ensures
        crate::scan::word_entries(all_entries(files)),
        crate::scan::word_entries(filtered_entries(files)),
        crate::scan::word_entries(sorted_entries(filtered_entries(files))),
    decreases files.len(),
{
    if files.len() == 0 {
    } else {
        lemma_built_graph_word(files.drop_last());
        crate::scan::lemma_file_entries_word(files.last(), 0);
        assert forall|i: int| 0 <= i < all_entries(files).len() implies crate::scan::word_seq(
            (#[trigger] all_entries(files)[i]).0,
        ) && crate::scan::word_calls(all_entries(files)[i].1) by {
            if i < all_entries(files.drop_last()).len() {
                assert(all_entries(files)[i] == all_entries(files.drop_last())[i]);
            } else {
                assert(all_entries(files)[i] == file_entries(files.last())[i - all_entries(
                    files.drop_last(),
                ).len()]);
            }
        }
    }
    assert forall|i: int| 0 <= i < filtered_entries(files).len() implies crate::scan::word_seq(
        (#[trigger] filtered_entries(files)[i]).0,
    ) && crate::scan::word_calls(filtered_entries(files)[i].1) by {
        assert(filtered_entries(files)[i] == (
            all_entries(files)[i].0,
            filter_known(all_entries(files)[i].1, tree_names(files)),
        ));
        lemma_filter_known_word(all_entries(files)[i].1, tree_names(files));
    }
    lemma_word_sorted_entries(filtered_entries(files));
}

/// The canonical form of an identifier-byte entry list is identifier-byte.
pub proof fn lemma_word_sorted_entries(es: Seq<(Seq<u8>, Seq<Seq<u8>>)>)
    requires
        crate::scan::word_entries(es),
    ensures
        crate::scan::word_entries(sorted_entries(es)),
    decreases es.len(),
{
    if es.len() > 0 {
        assert(crate::scan::word_entries(es.drop_last())) by {
            assert(forall|k: int| 0 <= k < es.drop_last().len() ==> (#[trigger] es.drop_last()[k])
                == es[k]);
        }
        lemma_word_sorted_entries(es.drop_last());
        lemma_sorted_insert_entries(sorted_entries(es.drop_last()), es.last().0, es.last().1);
        let r = sorted_entries(es);
        assert forall|i: int| 0 <= i < r.len() implies crate::scan::word_seq(
            (#[trigger] r[i]).0,
        ) && crate::scan::word_calls(r[i].1) by {
            assert(es.last() == es[es.len() - 1]);
            if r[i] != (es.last().0, es.last().1) {
                assert(sorted_entries(es.drop_last()).contains(r[i]));
                let l = choose|l: int|
                    0 <= l < sorted_entries(es.drop_last()).len() && sorted_entries(
                        es.drop_last(),
                    )[l] == r[i];
                assert(crate::scan::word_seq(sorted_entries(es.drop_last())[l].0));
            }
        }
    }
}

} // verus!
