//! The laws the library states about itself, proved over the same spec
//! functions its contracts use: when a decision continues, what a deny
//! message lists, and that fragment indirection is transparent to scope
//! resolution.

use vstd::prelude::*;
use crate::ast::{QueryDocument, Selection, string_views};
use crate::decision::missing_of;
use crate::resolver::{
    RequiredScopes, lemma_lookup_in_names, lemma_unvisited_insert, lookup_fragment_spec,
    unvisited_count, walk_selection, walk_selections,
};
use crate::text::{
    distinct, insert_sorted_spec, lemma_lex_total, lemma_lex_trans, lex_le, sort_spec, sorted,
};

verus! {

/// Nothing is missing exactly when the granted set covers every required
/// scope.  Together with the decision contract this says: a validated
/// claim set whose scopes are a superset of the required ones passes,
/// and one lacking any required scope is denied.
pub proof fn lemma_missing_empty_iff_covered(required: Seq<Seq<char>>, granted: Set<Seq<char>>)
    ensures
        missing_of(required, granted).len() == 0 <==> (forall|i: int|
            0 <= i < required.len() ==> granted.contains(required[i])),
    decreases required.len(),
{
    if required.len() > 0 {
        lemma_missing_empty_iff_covered(required.drop_last(), granted);
        assert(forall|i: int|
            0 <= i < required.len() - 1 ==> required.drop_last()[i] == required[i]);
        if missing_of(required, granted).len() == 0 {
            assert(granted.contains(required.last()));
        }
        if forall|i: int| 0 <= i < required.len() ==> granted.contains(required[i]) {
            assert(forall|i: int|
                0 <= i < required.drop_last().len() ==> granted.contains(required.drop_last()[i]));
            assert(granted.contains(required[required.len() - 1]));
        }
    }
}

/// The set a one-element sequence collects.
proof fn lemma_singleton_to_set(x: Seq<char>)
    ensures
        seq![x].to_set() == Set::<Seq<char>>::empty().insert(x),
{
    assert(seq![x][0] == x);
    assert(seq![x].contains(x));
    assert forall|e: Seq<char>| seq![x].to_set().contains(e) implies Set::<Seq<char>>::empty()
        .insert(x).contains(e) by {
        let i = choose|i: int| 0 <= i < seq![x].len() && seq![x][i] == e;
        assert(e == x);
    }
    assert(seq![x].to_set() =~= Set::<Seq<char>>::empty().insert(x));
}

/// The set the empty sequence collects.
proof fn lemma_empty_to_set()
    ensures
        Seq::<Seq<char>>::empty().to_set() == Set::<Seq<char>>::empty(),
{
    assert(Seq::<Seq<char>>::empty().to_set() =~= Set::<Seq<char>>::empty());
}

/// The missing scopes are the required set minus the granted set.
pub proof fn lemma_missing_to_set(required: Seq<Seq<char>>, granted: Set<Seq<char>>)
    ensures
        missing_of(required, granted).to_set() == required.to_set().difference(granted),
    decreases required.len(),
{
    if required.len() == 0 {
        assert(missing_of(required, granted).to_set() =~= required.to_set().difference(granted));
    } else {
        lemma_missing_to_set(required.drop_last(), granted);
        let m = missing_of(required, granted);
        let tail: Seq<Seq<char>> = if !granted.contains(required.last()) {
            seq![required.last()]
        } else {
            Seq::<Seq<char>>::empty()
        };
        let mdrop = missing_of(required.drop_last(), granted);
        assert(m == mdrop + tail);
        vstd::seq_lib::seq_to_set_distributes_over_add(mdrop, tail);
        assert(m.to_set() == mdrop.to_set().union(tail.to_set()));
        if granted.contains(required.last()) {
            lemma_empty_to_set();
        } else {
            lemma_singleton_to_set(required.last());
        }
        assert(required =~= required.drop_last().push(required.last()));
        required.drop_last().lemma_push_to_set_commute(required.last());
        assert(required.to_set() == required.drop_last().to_set().insert(required.last()));
        assert(m.to_set() =~= required.to_set().difference(granted));
    }
}

/// A sequence free of duplicates stays free of them after dropping the
/// scopes the granted set covers.
pub proof fn lemma_missing_distinct(required: Seq<Seq<char>>, granted: Set<Seq<char>>)
    requires
        distinct(required),
    ensures
        distinct(missing_of(required, granted)),
    decreases required.len(),
{
    if required.len() > 0 {
        let drop = required.drop_last();
        assert(distinct(drop)) by {
            assert(forall|i: int| 0 <= i < drop.len() ==> drop[i] == required[i]);
        }
        lemma_missing_distinct(drop, granted);
        lemma_missing_to_set(drop, granted);
        let m = missing_of(required, granted);
        let mdrop = missing_of(drop, granted);
        if !granted.contains(required.last()) {
            assert(!mdrop.to_set().contains(required.last())) by {
                if drop.to_set().contains(required.last()) {
                    let k = choose|k: int| 0 <= k < drop.len() && drop[k] == required.last();
                    assert(required[k] == required[required.len() - 1]);
                    assert(false);
                }
            }
            assert forall|i: int, j: int| 0 <= i < j < m.len() implies m[i] != m[j] by {
                if j < mdrop.len() {
                    assert(m[i] == mdrop[i] && m[j] == mdrop[j]);
                } else {
                    assert(m[j] == required.last());
                    assert(m[i] == mdrop[i]);
                    assert(mdrop.to_set().contains(mdrop[i]));
                }
            }
        } else {
            assert(m =~= mdrop);
        }
    }
}

/// Inserting into a sorted sequence keeps it sorted, adds exactly the
/// new element, and keeps distinctness when the element is fresh.
pub proof fn lemma_insert_sorted_props(s: Seq<Seq<char>>, x: Seq<char>)
    requires
        sorted(s),
    ensures
        sorted(insert_sorted_spec(s, x)),
        insert_sorted_spec(s, x).to_set() == s.to_set().insert(x),
        insert_sorted_spec(s, x).len() == s.len() + 1,
        distinct(s) && !s.contains(x) ==> distinct(insert_sorted_spec(s, x)),
    decreases s.len(),
{
    let r = insert_sorted_spec(s, x);
    if s.len() == 0 {
        assert(r =~= seq![x]);
        assert(s =~= Seq::<Seq<char>>::empty());
        lemma_empty_to_set();
        lemma_singleton_to_set(x);
        assert(r.to_set() =~= s.to_set().insert(x));
    } else if lex_le(s.last(), x) {
        assert(r == s.push(x));
        assert forall|i: int, j: int| 0 <= i < j < r.len() implies lex_le(r[i], r[j]) by {
            if j == s.len() {
                if i < s.len() - 1 {
                    lemma_lex_trans(s[i], s.last(), x);
                }
            }
        }
        s.lemma_push_to_set_commute(x);
        if distinct(s) && !s.contains(x) {
            assert forall|i: int, j: int| 0 <= i < j < r.len() implies r[i] != r[j] by {
                if j == s.len() {
                    assert(s.contains(s[i]));
                }
            }
        }
    } else {
        lemma_lex_total(s.last(), x);
        let drop = s.drop_last();
        assert(sorted(drop)) by {
            assert(forall|i: int| 0 <= i < drop.len() ==> drop[i] == s[i]);
        }
        lemma_insert_sorted_props(drop, x);
        let ins = insert_sorted_spec(drop, x);
        assert(r == ins.push(s.last()));
        ins.lemma_push_to_set_commute(s.last());
        assert(ins.to_set() == drop.to_set().insert(x));
        assert(r.to_set() == ins.to_set().insert(s.last()));
        assert(s =~= drop.push(s.last()));
        drop.lemma_push_to_set_commute(s.last());
        assert(s.to_set() == drop.to_set().insert(s.last()));
        assert(r.to_set() =~= s.to_set().insert(x));
        assert forall|i: int, j: int| 0 <= i < j < r.len() implies lex_le(r[i], r[j]) by {
            if j == ins.len() {
                assert(r[j] == s.last());
                assert(ins.to_set().contains(ins[i]));
                if ins[i] == x {
                    assert(lex_le(r[i], r[j]));
                } else {
                    assert(drop.to_set().contains(ins[i]));
                    let k = choose|k: int| 0 <= k < drop.len() && drop[k] == ins[i];
                    if k < s.len() - 1 {
                        assert(lex_le(s[k], s.last()));
                    }
                }
            }
        }
        if distinct(s) && !s.contains(x) {
            assert(distinct(drop) && !drop.contains(x)) by {
                assert(forall|i: int| 0 <= i < drop.len() ==> drop[i] == s[i]);
                if drop.contains(x) {
                    let k = choose|k: int| 0 <= k < drop.len() && drop[k] == x;
                    assert(s.contains(s[k]));
                    assert(false);
                }
            }
            assert(distinct(ins));
            assert(!ins.to_set().contains(s.last())) by {
                if drop.to_set().contains(s.last()) {
                    let k = choose|k: int| 0 <= k < drop.len() && drop[k] == s.last();
                    assert(s[k] == s[s.len() - 1]);
                    assert(false);
                }
                assert(s.contains(s.last()));
            }
            assert forall|i: int, j: int| 0 <= i < j < r.len() implies r[i] != r[j] by {
                if j == ins.len() {
                    assert(ins.to_set().contains(ins[i]));
                }
            }
        }
    }
}

/// Sorting keeps exactly the given scope names, free of duplicates when
/// they were, and orders them.
pub proof fn lemma_sort_props(s: Seq<Seq<char>>)
    ensures
        sorted(sort_spec(s)),
        sort_spec(s).to_set() == s.to_set(),
        sort_spec(s).len() == s.len(),
        distinct(s) ==> distinct(sort_spec(s)),
    decreases s.len(),
{
    if s.len() == 0 {
    } else {
        let drop = s.drop_last();
        lemma_sort_props(drop);
        lemma_insert_sorted_props(sort_spec(drop), s.last());
        assert(s =~= drop.push(s.last()));
        drop.lemma_push_to_set_commute(s.last());
        assert(sort_spec(s).to_set() =~= s.to_set());
        if distinct(s) {
            assert(distinct(drop)) by {
                assert(forall|i: int| 0 <= i < drop.len() ==> drop[i] == s[i]);
            }
            assert(!sort_spec(drop).contains(s.last())) by {
                if sort_spec(drop).to_set().contains(s.last()) {
                    let k = choose|k: int| 0 <= k < drop.len() && drop[k] == s.last();
                    assert(s[k] == s[s.len() - 1]);
                    assert(false);
                }
                if sort_spec(drop).contains(s.last()) {
                    assert(sort_spec(drop).to_set().contains(s.last()));
                }
            }
        }
    }
}

/// What a deny message lists: the sorted missing scopes are exactly the
/// required scopes the granted set lacks, each exactly once, in
/// lexicographic order — whatever duplicate scope declarations the
/// schema carried, since a well-formed model holds each scope once.
pub proof fn lemma_deny_message_lists_missing(model: RequiredScopes, granted: Set<Seq<char>>)
    requires
        model.wf(),
    ensures
        ({
            let listed = sort_spec(missing_of(string_views(model.scopes@), granted));
            &&& listed.to_set() == model.scope_set().difference(granted)
            &&& distinct(listed)
            &&& sorted(listed)
        }),
{
    let views = string_views(model.scopes@);
    assert(distinct(views)) by {
        assert(forall|i: int| 0 <= i < views.len() ==> views[i] == model.scopes@[i]@);
    }
    lemma_missing_to_set(views, granted);
    lemma_missing_distinct(views, granted);
    lemma_sort_props(missing_of(views, granted));
}

/// One walk result is covered by another: its scopes are a subset and
/// its authentication demand implies the other's.
pub open spec fn covered_by(a: (Set<Seq<char>>, bool), b: (Set<Seq<char>>, bool)) -> bool {
    a.0.subset_of(b.0) && (a.1 ==> b.1)
}

/// A union of two covered sets is covered by the union of their covers.
proof fn lemma_union_subset(
    a1: Set<Seq<char>>,
    b1: Set<Seq<char>>,
    a2: Set<Seq<char>>,
    b2: Set<Seq<char>>,
)
    requires
        a1.subset_of(a2),
        b1.subset_of(b2),
    ensures
        a1.union(b1).subset_of(a2.union(b2)),
{
    assert forall|e: Seq<char>| a1.union(b1).contains(e) implies a2.union(b2).contains(e) by {
        if a1.contains(e) {
        } else {
            assert(b1.contains(e));
        }
    }
}

/// Walking with a larger visited set contributes no more.
proof fn lemma_walk_monotone_sels(
    doc: QueryDocument,
    sels: Seq<Selection>,
    v1: Set<Seq<char>>,
    v2: Set<Seq<char>>,
)
    requires
        v2.subset_of(v1),
    ensures
        covered_by(walk_selections(doc, sels, v1), walk_selections(doc, sels, v2)),
    decreases unvisited_count(doc, v2), sels, 1int,
{
    if sels.len() > 0 {
        lemma_walk_monotone_sels(doc, sels.drop_last(), v1, v2);
        lemma_walk_monotone_sel(doc, sels.last(), v1, v2);
        let h1 = walk_selections(doc, sels.drop_last(), v1);
        let t1 = walk_selection(doc, sels.last(), v1);
        let h2 = walk_selections(doc, sels.drop_last(), v2);
        let t2 = walk_selection(doc, sels.last(), v2);
        lemma_union_subset(h1.0, t1.0, h2.0, t2.0);
    }
}

/// Walking one selection with a larger visited set contributes no more.
proof fn lemma_walk_monotone_sel(
    doc: QueryDocument,
    sel: Selection,
    v1: Set<Seq<char>>,
    v2: Set<Seq<char>>,
)
    requires
        v2.subset_of(v1),
    ensures
        covered_by(walk_selection(doc, sel, v1), walk_selection(doc, sel, v2)),
    decreases unvisited_count(doc, v2), sel, 0int,
{
    match sel {
        Selection::Field(f) => {
            lemma_walk_monotone_sels(doc, f.selections@, v1, v2);
            let s1 = walk_selections(doc, f.selections@, v1);
            let s2 = walk_selections(doc, f.selections@, v2);
            let own = match f.definition {
                Some(def) => (
                    crate::ast::field_scope_strings(def).to_set(),
                    crate::ast::field_requires_auth(def),
                ),
                None => (Set::<Seq<char>>::empty(), false),
            };
            lemma_union_subset(own.0, s1.0, own.0, s2.0);
        },
        Selection::FragmentSpread(name) => {
            if v2.contains(name@) {
            } else if v1.contains(name@) {
                assert(walk_selection(doc, sel, v1).0 =~= Set::<Seq<char>>::empty());
                assert(Set::<Seq<char>>::empty().subset_of(walk_selection(doc, sel, v2).0));
            } else {
                match lookup_fragment_spec(doc.fragments@, name@) {
                    Some(frag) => {
                        lemma_lookup_in_names(doc.fragments@, name@);
                        lemma_unvisited_insert(doc, v2, name@);
                        assert(v2.insert(name@).subset_of(v1.insert(name@)));
                        lemma_walk_monotone_sels(
                            doc,
                            frag.selections@,
                            v1.insert(name@),
                            v2.insert(name@),
                        );
                    },
                    None => {
                    },
                }
            }
        },
        Selection::InlineFragment(subs) => {
            lemma_walk_monotone_sels(doc, subs@, v1, v2);
        },
    }
}

/// Marking one resolving fragment visited loses at most what walking
/// that fragment's body, with its own name marked, contributes.
proof fn lemma_walk_cut_sels(
    doc: QueryDocument,
    sels: Seq<Selection>,
    v: Set<Seq<char>>,
    n: Seq<char>,
)
    requires
        lookup_fragment_spec(doc.fragments@, n) is Some,
    ensures
        ({
            let t = walk_selections(
                doc,
                lookup_fragment_spec(doc.fragments@, n)->Some_0.selections@,
                Set::<Seq<char>>::empty().insert(n),
            );
            let a = walk_selections(doc, sels, v);
            let b = walk_selections(doc, sels, v.insert(n));
            a.0.subset_of(b.0.union(t.0)) && (a.1 ==> b.1 || t.1)
        }),
    decreases unvisited_count(doc, v), sels, 1int,
{
    let t = walk_selections(
        doc,
        lookup_fragment_spec(doc.fragments@, n)->Some_0.selections@,
        Set::<Seq<char>>::empty().insert(n),
    );
    if sels.len() > 0 {
        lemma_walk_cut_sels(doc, sels.drop_last(), v, n);
        lemma_walk_cut_sel(doc, sels.last(), v, n);
        let h1 = walk_selections(doc, sels.drop_last(), v);
        let t1 = walk_selection(doc, sels.last(), v);
        let h2 = walk_selections(doc, sels.drop_last(), v.insert(n));
        let t2 = walk_selection(doc, sels.last(), v.insert(n));
        lemma_union_subset(h1.0, t1.0, h2.0.union(t.0), t2.0.union(t.0));
        assert(h2.0.union(t.0).union(t2.0.union(t.0)) =~= h2.0.union(t2.0).union(t.0));
    }
}

/// The same, for one selection.
proof fn lemma_walk_cut_sel(doc: QueryDocument, sel: Selection, v: Set<Seq<char>>, n: Seq<char>)
    requires
        lookup_fragment_spec(doc.fragments@, n) is Some,
    ensures
        ({
            let t = walk_selections(
                doc,
                lookup_fragment_spec(doc.fragments@, n)->Some_0.selections@,
                Set::<Seq<char>>::empty().insert(n),
            );
            let a = walk_selection(doc, sel, v);
            let b = walk_selection(doc, sel, v.insert(n));
            a.0.subset_of(b.0.union(t.0)) && (a.1 ==> b.1 || t.1)
        }),
    decreases unvisited_count(doc, v), sel, 0int,
{
    let t = walk_selections(
        doc,
        lookup_fragment_spec(doc.fragments@, n)->Some_0.selections@,
        Set::<Seq<char>>::empty().insert(n),
    );
    match sel {
        Selection::Field(f) => {
            lemma_walk_cut_sels(doc, f.selections@, v, n);
            let s1 = walk_selections(doc, f.selections@, v);
            let s2 = walk_selections(doc, f.selections@, v.insert(n));
            let own = match f.definition {
                Some(def) => (
                    crate::ast::field_scope_strings(def).to_set(),
                    crate::ast::field_requires_auth(def),
                ),
                None => (Set::<Seq<char>>::empty(), false),
            };
            lemma_union_subset(own.0, s1.0, own.0, s2.0.union(t.0));
            assert(own.0.union(s2.0.union(t.0)) =~= own.0.union(s2.0).union(t.0));
        },
        Selection::FragmentSpread(name) => {
            if v.contains(name@) {
            } else if name@ == n {
                lemma_lookup_in_names(doc.fragments@, n);
                let frag = lookup_fragment_spec(doc.fragments@, n)->Some_0;
                assert(Set::<Seq<char>>::empty().insert(n).subset_of(v.insert(n)));
                lemma_walk_monotone_sels(
                    doc,
                    frag.selections@,
                    v.insert(n),
                    Set::<Seq<char>>::empty().insert(n),
                );
                assert(walk_selection(doc, sel, v) == walk_selections(
                    doc,
                    frag.selections@,
                    v.insert(n),
                ));
            } else {
                match lookup_fragment_spec(doc.fragments@, name@) {
                    Some(frag) => {
                        lemma_lookup_in_names(doc.fragments@, name@);
                        lemma_unvisited_insert(doc, v, name@);
                        lemma_walk_cut_sels(doc, frag.selections@, v.insert(name@), n);
                        assert(v.insert(name@).insert(n) =~= v.insert(n).insert(name@));
                        assert(!v.insert(n).contains(name@));
                    },
                    None => {
                    },
                }
            }
        },
        Selection::InlineFragment(subs) => {
            lemma_walk_cut_sels(doc, subs@, v, n);
        },
    }
}

/// Entering a fragment is transparent: walking its body with its own
/// name already marked visited contributes exactly what walking it
/// fresh does.
pub proof fn lemma_fragment_transparent(doc: QueryDocument, n: Seq<char>)
    requires
        lookup_fragment_spec(doc.fragments@, n) is Some,
    ensures
        walk_selections(
            doc,
            lookup_fragment_spec(doc.fragments@, n)->Some_0.selections@,
            Set::<Seq<char>>::empty().insert(n),
        ).0 == walk_selections(
            doc,
            lookup_fragment_spec(doc.fragments@, n)->Some_0.selections@,
            Set::<Seq<char>>::empty(),
        ).0,
        walk_selections(
            doc,
            lookup_fragment_spec(doc.fragments@, n)->Some_0.selections@,
            Set::<Seq<char>>::empty().insert(n),
        ).1 == walk_selections(
            doc,
            lookup_fragment_spec(doc.fragments@, n)->Some_0.selections@,
            Set::<Seq<char>>::empty(),
        ).1,
{
    let body = lookup_fragment_spec(doc.fragments@, n)->Some_0.selections@;
    let e = Set::<Seq<char>>::empty();
    let marked = walk_selections(doc, body, e.insert(n));
    let fresh = walk_selections(doc, body, e);
    assert(e.subset_of(e.insert(n)));
    lemma_walk_monotone_sels(doc, body, e.insert(n), e);
    lemma_walk_cut_sels(doc, body, e, n);
    assert(fresh.0.subset_of(marked.0.union(marked.0)));
    assert(marked.0.union(marked.0) =~= marked.0);
    assert(marked.0 =~= fresh.0);
}

/// The bodies of a sequence of fragment spreads, inlined in order; a
/// spread that does not resolve, or a selection of another kind,
/// contributes nothing here.
pub open spec fn inlined_bodies(doc: QueryDocument, sels: Seq<Selection>) -> Seq<Selection>
    decreases sels.len(),
{
    if sels.len() == 0 {
        Seq::<Selection>::empty()
    } else {
        inlined_bodies(doc, sels.drop_last()) + (match sels.last() {
            Selection::FragmentSpread(name) => match lookup_fragment_spec(doc.fragments@, name@) {
                Some(frag) => frag.selections@,
                None => Seq::<Selection>::empty(),
            },
            _ => Seq::<Selection>::empty(),
        })
    }
}

/// Walking a concatenation contributes the union of the parts.
proof fn lemma_walk_concat(
    doc: QueryDocument,
    s1: Seq<Selection>,
    s2: Seq<Selection>,
    v: Set<Seq<char>>,
)
    ensures
        walk_selections(doc, s1 + s2, v).0 == walk_selections(doc, s1, v).0.union(
            walk_selections(doc, s2, v).0,
        ),
        walk_selections(doc, s1 + s2, v).1 == (walk_selections(doc, s1, v).1 || walk_selections(
            doc,
            s2,
            v,
        ).1),
    decreases s2.len(),
{
    if s2.len() == 0 {
        assert(s1 + s2 =~= s1);
        assert(walk_selections(doc, s2, v).0 =~= Set::<Seq<char>>::empty());
        assert(walk_selections(doc, s1, v).0.union(walk_selections(doc, s2, v).0)
            =~= walk_selections(doc, s1, v).0);
    } else {
        assert((s1 + s2).drop_last() =~= s1 + s2.drop_last());
        assert((s1 + s2).last() == s2.last());
        assert((s1 + s2).len() > 0);
        lemma_walk_concat(doc, s1, s2.drop_last(), v);
        let a = walk_selections(doc, s1, v);
        let b = walk_selections(doc, s2.drop_last(), v);
        let c = walk_selection(doc, s2.last(), v);
        assert(walk_selections(doc, s1 + s2, v).0 == a.0.union(b.0).union(c.0));
        assert(a.0.union(b.0).union(c.0) =~= a.0.union(b.0.union(c.0)));
    }
}

/// Fragment indirection is transparent to resolution: a selection set
/// made entirely of fragment spreads, each resolving against the
/// document, requires exactly the scopes — and demands authentication
/// exactly when — the spread fragments' bodies do when inlined in its
/// place.
pub proof fn lemma_spreads_equal_inline(doc: QueryDocument, sels: Seq<Selection>)
    requires
        forall|i: int| 0 <= i < sels.len() ==> sels[i] is FragmentSpread,
        forall|i: int|
            0 <= i < sels.len() ==> lookup_fragment_spec(
                doc.fragments@,
                sels[i]->FragmentSpread_0@,
            ) is Some,
    ensures
        walk_selections(doc, sels, Set::<Seq<char>>::empty()).0 == walk_selections(
            doc,
            inlined_bodies(doc, sels),
            Set::<Seq<char>>::empty(),
        ).0,
        walk_selections(doc, sels, Set::<Seq<char>>::empty()).1 == walk_selections(
            doc,
            inlined_bodies(doc, sels),
            Set::<Seq<char>>::empty(),
        ).1,
    decreases sels.len(),
{
    let e = Set::<Seq<char>>::empty();
    if sels.len() == 0 {
        assert(inlined_bodies(doc, sels) =~= Seq::<Selection>::empty());
    } else {
        let drop = sels.drop_last();
        assert(forall|i: int| 0 <= i < drop.len() ==> drop[i] == sels[i]);
        lemma_spreads_equal_inline(doc, drop);
        let name = sels.last()->FragmentSpread_0;
        assert(sels[sels.len() - 1] is FragmentSpread);
        let frag = lookup_fragment_spec(doc.fragments@, name@)->Some_0;
        assert(!e.contains(name@));
        assert(walk_selection(doc, sels.last(), e) == walk_selections(
            doc,
            frag.selections@,
            e.insert(name@),
        ));
        lemma_fragment_transparent(doc, name@);
        lemma_walk_concat(doc, inlined_bodies(doc, drop), frag.selections@, e);
        assert(inlined_bodies(doc, sels) == inlined_bodies(doc, drop) + frag.selections@);
        assert(walk_selections(doc, sels, e).0 =~= walk_selections(
            doc,
            inlined_bodies(doc, sels),
            e,
        ).0);
    }
}

} // verus!
