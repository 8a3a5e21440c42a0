//! The selection-tree walker: resolves which scopes an operation
//! requires.  The walk visits fields, inline fragments and fragment
//! spreads depth-first; a fragment is entered at most once per path, so
//! the traversal terminates even when fragments spread one another in a
//! cycle.

use vstd::prelude::*;
use crate::ast::{
    Fragment, FieldDefinition, Operation, QueryDocument, Selection,
    field_requires_auth, field_scope_strings, has_directive, string_argument_values, string_views,
};

verus! {

/// A structural failure: the request is malformed, which is not an
/// authorization answer.  Either the named operation cannot be resolved,
/// or the `Authorization` header's value is not text.
#[derive(Clone, Copy, Debug, PartialEq, Eq, Structural)]
pub enum AuthzError {
    OperationNotFound,
    HeaderEncoding,
}

/// What the walker produces: the set of required scope names (free of
/// duplicates) and whether any reachable field demands authentication.
#[derive(Debug)]
pub struct RequiredScopes {
    pub scopes: Vec<String>,
    pub requires_auth: bool,
}

impl RequiredScopes {
    /// The scope names as a set of character sequences.
    pub open spec fn scope_set(self) -> Set<Seq<char>> {
        string_views(self.scopes@).to_set()
    }

    /// Well-formed: no scope name occurs twice.
    pub open spec fn wf(self) -> bool {
        forall|i: int, j: int|
            0 <= i < j < self.scopes@.len() ==> self.scopes@[i]@ != self.scopes@[j]@
    }
}

/// The names of the document's fragments.
pub open spec fn fragment_names(doc: QueryDocument) -> Set<Seq<char>> {
    doc.fragments@.map_values(|f: Fragment| f.name@).to_set()
}

/// How many fragments of `doc` a walk with the given visited set may
/// still enter: the termination measure of the walk.
pub open spec fn unvisited_count(doc: QueryDocument, visited: Set<Seq<char>>) -> nat {
    fragment_names(doc).difference(visited).len()
}

/// The first fragment of `frags` bearing `name`, if any.
pub open spec fn lookup_fragment_spec(frags: Seq<Fragment>, name: Seq<char>) -> Option<Fragment>
    decreases frags.len(),
{
    if frags.len() == 0 {
        None::<Fragment>
    } else if frags[0].name@ == name {
        Some(frags[0])
    } else {
        lookup_fragment_spec(frags.drop_first(), name)
    }
}

/// A fragment that resolves is one of the document's fragments.
pub proof fn lemma_lookup_in_names(frags: Seq<Fragment>, name: Seq<char>)
    requires
        lookup_fragment_spec(frags, name) is Some,
    ensures
        frags.map_values(|f: Fragment| f.name@).to_set().contains(name),
    decreases frags.len(),
{
    if frags.len() > 0 {
        if frags[0].name@ == name {
            assert(frags.map_values(|f: Fragment| f.name@)[0] == name);
            assert(frags.map_values(|f: Fragment| f.name@).contains(name));
        } else {
            lemma_lookup_in_names(frags.drop_first(), name);
            let rest = frags.drop_first().map_values(|f: Fragment| f.name@);
            assert(rest.contains(name));
            let i = choose|i: int| 0 <= i < rest.len() && rest[i] == name;
            assert(frags.map_values(|f: Fragment| f.name@)[i + 1] == name);
            assert(frags.map_values(|f: Fragment| f.name@).contains(name));
        }
    }
}

/// Entering a fresh fragment strictly shrinks the termination measure.
pub proof fn lemma_unvisited_insert(doc: QueryDocument, visited: Set<Seq<char>>, name: Seq<char>)
    requires
        fragment_names(doc).contains(name),
        !visited.contains(name),
    ensures
        unvisited_count(doc, visited.insert(name)) < unvisited_count(doc, visited),
{
    vstd::seq_lib::seq_to_set_is_finite(doc.fragments@.map_values(|f: Fragment| f.name@));
    let d1 = fragment_names(doc).difference(visited);
    let d2 = fragment_names(doc).difference(visited.insert(name));
    assert(d1.finite());
    assert(d2 =~= d1.remove(name));
    assert(d1.contains(name));
    assert(d1.remove(name).len() == d1.len() - 1);
}

/// The contribution of a sequence of selections: the union of each
/// selection's scopes, and the disjunction of their authentication
/// demands.
pub open spec fn walk_selections(
    doc: QueryDocument,
    sels: Seq<Selection>,
    visited: Set<Seq<char>>,
) -> (Set<Seq<char>>, bool)
    decreases unvisited_count(doc, visited), sels, 1int,
{
    if sels.len() == 0 {
        (Set::<Seq<char>>::empty(), false)
    } else {
        let head = walk_selections(doc, sels.drop_last(), visited);
        let tail = walk_selection(doc, sels.last(), visited);
        (head.0.union(tail.0), head.1 || tail.1)
    }
}

/// The contribution of one selection.  A field contributes its backing
/// definition's scopes and marker, then its sub-selections; a fragment
/// spread resolves its fragment against the document and walks it with
/// the name added to the visited set, or contributes nothing if the name
/// was already visited or does not resolve; an inline fragment walks its
/// sub-selections directly.
pub open spec fn walk_selection(
    doc: QueryDocument,
    sel: Selection,
    visited: Set<Seq<char>>,
) -> (Set<Seq<char>>, bool)
    decreases unvisited_count(doc, visited), sel, 0int,
{
    match sel {
        Selection::Field(f) => {
            let own = match f.definition {
                Some(def) => (field_scope_strings(def).to_set(), field_requires_auth(def)),
                None => (Set::<Seq<char>>::empty(), false),
            };
            let sub = walk_selections(doc, f.selections@, visited);
            (own.0.union(sub.0), own.1 || sub.1)
        },
        Selection::FragmentSpread(name) => {
            if visited.contains(name@) {
                (Set::<Seq<char>>::empty(), false)
            } else {
                match lookup_fragment_spec(doc.fragments@, name@) {
                    Some(frag) => {
                        proof {
                            lemma_lookup_in_names(doc.fragments@, name@);
                            lemma_unvisited_insert(doc, visited, name@);
                        }
                        walk_selections(doc, frag.selections@, visited.insert(name@))
                    },
                    None => (Set::<Seq<char>>::empty(), false),
                }
            }
        },
        Selection::InlineFragment(subs) => walk_selections(doc, subs@, visited),
    }
}

/// The visited fragment names on the current path, as a set.
pub open spec fn visited_set(vs: Seq<String>) -> Set<Seq<char>> {
    string_views(vs).to_set()
}

/// Record one scope name, keeping the collection free of duplicates.
fn add_scope(acc: &mut RequiredScopes, s: String)
    requires
        old(acc).wf(),
    ensures
        final(acc).wf(),
        final(acc).scope_set() == old(acc).scope_set().insert(s@),
        final(acc).requires_auth == old(acc).requires_auth,
{
    let ghost sv = s@;
    let mut i: usize = 0;
    while i < acc.scopes.len()
        invariant
            i <= acc.scopes.len(),
            acc.wf(),
            acc.scopes@ == old(acc).scopes@,
            acc.requires_auth == old(acc).requires_auth,
            forall|j: int| 0 <= j < i ==> acc.scopes@[j]@ != sv,
            sv == s@,
        decreases acc.scopes.len() - i,
    {
        if acc.scopes[i] == s {
            proof {
                assert(string_views(acc.scopes@)[i as int] == sv);
                assert(string_views(acc.scopes@).contains(sv));
                assert(acc.scope_set().insert(sv) =~= acc.scope_set());
            }
            return ;
        }
        i += 1;
    }
    let ghost pre = acc.scopes@;
    acc.scopes.push(s);
    proof {
        assert(string_views(pre.push(s)) =~= string_views(pre).push(sv));
        string_views(pre).lemma_push_to_set_commute(sv);
        assert(acc.scope_set() == old(acc).scope_set().insert(sv));
    }
}

/// Feed one field definition to the accumulator: set the authentication
/// flag if the definition carries the `authz` marker, and add every
/// string value of an argument named `scope` on any of its directives.
fn collect_field_definition(def: &FieldDefinition, acc: &mut RequiredScopes)
    requires
        old(acc).wf(),
    ensures
        final(acc).wf(),
        final(acc).scope_set() == old(acc).scope_set().union(field_scope_strings(*def).to_set()),
        final(acc).requires_auth == (old(acc).requires_auth || field_requires_auth(*def)),
{
    if has_directive(def, "authz") {
        acc.requires_auth = true;
    }
    let ghost base = acc.scope_set();
    let mut i: usize = 0;
    while i < def.directives.len()
        invariant
            i <= def.directives.len(),
            acc.wf(),
            acc.scope_set() == base.union(
                crate::ast::directives_strings(
                    def.directives@.subrange(0, i as int),
                    "scope"@,
                ).to_set(),
            ),
            acc.requires_auth == (old(acc).requires_auth || field_requires_auth(*def)),
            base == old(acc).scope_set(),
        decreases def.directives.len() - i,
    {
        let ghost seen = crate::ast::directives_strings(
            def.directives@.subrange(0, i as int),
            "scope"@,
        );
        let vs = string_argument_values(&def.directives[i], "scope");
        let ghost dvs = crate::ast::directive_strings(def.directives@[i as int], "scope"@);
        let mut j: usize = 0;
        while j < vs.len()
            invariant
                j <= vs.len(),
                acc.wf(),
                string_views(vs@) == dvs,
                acc.scope_set() == base.union(seen.to_set()).union(
                    string_views(vs@).subrange(0, j as int).to_set(),
                ),
                acc.requires_auth == (old(acc).requires_auth || field_requires_auth(*def)),
            decreases vs.len() - j,
        {
            add_scope(acc, vs[j].clone());
            proof {
                let svs = string_views(vs@);
                assert(svs.subrange(0, j as int + 1) =~= svs.subrange(0, j as int).push(svs[j as int]));
                svs.subrange(0, j as int).lemma_push_to_set_commute(svs[j as int]);
                assert(base.union(seen.to_set()).union(svs.subrange(0, j as int).to_set()).insert(
                    svs[j as int],
                ) =~= base.union(seen.to_set()).union(svs.subrange(0, j as int + 1).to_set()));
            }
            j += 1;
        }
        proof {
            let svs = string_views(vs@);
            assert(svs.subrange(0, svs.len() as int) =~= svs);
            assert(def.directives@.subrange(0, i as int + 1).drop_last() =~= def.directives@.subrange(
                0,
                i as int,
            ));
            assert(def.directives@.subrange(0, i as int + 1).last() == def.directives@[i as int]);
            vstd::seq_lib::seq_to_set_distributes_over_add(seen, dvs);
            assert(base.union(seen.to_set()).union(dvs.to_set()) =~= base.union(
                (seen + dvs).to_set(),
            ));
        }
        i += 1;
    }
    proof {
        assert(def.directives@.subrange(0, def.directives@.len() as int) =~= def.directives@);
    }
}

/// If no fragment among the first `i` matches, resolution over the whole
/// sequence equals resolution over the remainder.
proof fn lemma_lookup_skip(frags: Seq<Fragment>, name: Seq<char>, i: int)
    requires
        0 <= i <= frags.len(),
        forall|j: int| 0 <= j < i ==> frags[j].name@ != name,
    ensures
        lookup_fragment_spec(frags, name) == lookup_fragment_spec(frags.skip(i), name),
    decreases i,
{
    if i > 0 {
        assert(frags.drop_first().skip(i - 1) =~= frags.skip(i));
        lemma_lookup_skip(frags.drop_first(), name, i - 1);
    } else {
        assert(frags.skip(0) =~= frags);
    }
}

/// Resolve a fragment spread against the document: the first fragment
/// bearing the name, as the external compiler's resolution does.
fn lookup_fragment<'a>(doc: &'a QueryDocument, name: &String) -> (r: Option<&'a Fragment>)
    ensures
        match r {
            Some(f) => lookup_fragment_spec(doc.fragments@, name@) == Some(*f),
            None => lookup_fragment_spec(doc.fragments@, name@) is None,
        },
{
    let mut i: usize = 0;
    while i < doc.fragments.len()
        invariant
            i <= doc.fragments.len(),
            forall|j: int| 0 <= j < i ==> doc.fragments@[j].name@ != name@,
        decreases doc.fragments.len() - i,
    {
        if doc.fragments[i].name == *name {
            proof {
                lemma_lookup_skip(doc.fragments@, name@, i as int);
                assert(doc.fragments@.skip(i as int)[0] == doc.fragments@[i as int]);
            }
            return Some(&doc.fragments[i]);
        }
        i += 1;
    }
    proof {
        lemma_lookup_skip(doc.fragments@, name@, doc.fragments@.len() as int);
        assert(doc.fragments@.skip(doc.fragments@.len() as int).len() == 0);
    }
    None
}

/// Depth-first traversal of one selection set.  `visited` is the stack of
/// fragment names already entered on the current path; it is restored
/// before returning.
fn recurse_selections(
    doc: &QueryDocument,
    sels: &Vec<Selection>,
    visited: &mut Vec<String>,
    acc: &mut RequiredScopes,
)
    requires
        old(acc).wf(),
    ensures
        final(acc).wf(),
        final(visited)@ == old(visited)@,
        final(acc).scope_set() == old(acc).scope_set().union(
            walk_selections(*doc, sels@, visited_set(old(visited)@)).0,
        ),
        final(acc).requires_auth == (old(acc).requires_auth || walk_selections(
            *doc,
            sels@,
            visited_set(old(visited)@),
        ).1),
    decreases unvisited_count(*doc, visited_set(old(visited)@)), sels@, 0int,
{
    let ghost vset = visited_set(old(visited)@);
    let mut i: usize = 0;
    while i < sels.len()
        invariant
            i <= sels.len(),
            acc.wf(),
            visited@ == old(visited)@,
            acc.scope_set() == old(acc).scope_set().union(
                walk_selections(*doc, sels@.subrange(0, i as int), vset).0,
            ),
            acc.requires_auth == (old(acc).requires_auth || walk_selections(
                *doc,
                sels@.subrange(0, i as int),
                vset,
            ).1),
            vset == visited_set(old(visited)@),
        decreases sels.len() - i,
    {
        let ghost seen = walk_selections(*doc, sels@.subrange(0, i as int), vset);
        let ghost step = walk_selection(*doc, sels@[i as int], vset);
        match &sels[i] {
            Selection::Field(f) => {
                if let Some(def) = &f.definition {
                    collect_field_definition(def, acc);
                }
                recurse_selections(doc, &f.selections, visited, acc);
            },
            Selection::FragmentSpread(name) => {
                if !crate::text::contains_string(visited, name) {
                    match lookup_fragment(doc, name) {
                        Some(frag) => {
                            proof {
                                lemma_lookup_in_names(doc.fragments@, name@);
                                lemma_unvisited_insert(*doc, vset, name@);
                            }
                            let ghost vpre = visited@;
                            visited.push(name.clone());
                            proof {
                                assert(string_views(vpre.push(*name)) =~= string_views(vpre).push(
                                    name@,
                                ));
                                string_views(vpre).lemma_push_to_set_commute(name@);
                                assert(visited_set(visited@) == vset.insert(name@));
                            }
                            recurse_selections(doc, &frag.selections, visited, acc);
                            let _ = visited.pop();
                            proof {
                                assert(vpre.push(*name).subrange(0, vpre.len() as int) =~= vpre);
                            }
                        },
                        None => {
                        },
                    }
                }
            },
            Selection::InlineFragment(subs) => {
                recurse_selections(doc, subs, visited, acc);
            },
        }
        proof {
            assert(sels@.subrange(0, i as int + 1).drop_last() =~= sels@.subrange(0, i as int));
            assert(sels@.subrange(0, i as int + 1).last() == sels@[i as int]);
            assert(walk_selections(*doc, sels@.subrange(0, i as int + 1), vset).0 =~= seen.0.union(
                step.0,
            ));
            assert(old(acc).scope_set().union(seen.0).union(step.0) =~= old(acc).scope_set().union(
                seen.0.union(step.0),
            ));
        }
        i += 1;
    }
    proof {
        assert(sels@.subrange(0, sels@.len() as int) =~= sels@);
    }
}

/// The name an operation answers to: its own name, or the empty string
/// when it has none.
pub open spec fn operation_label(op: Operation) -> Seq<char> {
    match op.name {
        Some(s) => s@,
        None => Seq::<char>::empty(),
    }
}

/// The first operation answering to `name`, if any.
pub open spec fn find_operation_spec(ops: Seq<Operation>, name: Seq<char>) -> Option<Operation>
    decreases ops.len(),
{
    if ops.len() == 0 {
        None::<Operation>
    } else if operation_label(ops[0]) == name {
        Some(ops[0])
    } else {
        find_operation_spec(ops.drop_first(), name)
    }
}

/// The operation a request selects: the first one answering to the
/// requested name, or the document's sole operation when no name is
/// given.  None when zero or several operations exist and no name picks
/// one out, or when the name matches nothing.
pub open spec fn selected_operation(doc: QueryDocument, name: Option<Seq<char>>) -> Option<
    Operation,
> {
    match name {
        Some(n) => find_operation_spec(doc.operations@, n),
        None => if doc.operations@.len() == 1 {
            Some(doc.operations@[0])
        } else {
            None::<Operation>
        },
    }
}

/// The view of a requested operation name.
pub open spec fn requested_name(name: Option<&str>) -> Option<Seq<char>> {
    match name {
        Some(s) => Some(s@),
        None => None::<Seq<char>>,
    }
}

/// If no operation among the first `i` answers to the name, search over
/// the whole sequence equals search over the remainder.
proof fn lemma_find_operation_skip(ops: Seq<Operation>, name: Seq<char>, i: int)
    requires
        0 <= i <= ops.len(),
        forall|j: int| 0 <= j < i ==> operation_label(ops[j]) != name,
    ensures
        find_operation_spec(ops, name) == find_operation_spec(ops.skip(i), name),
    decreases i,
{
    if i > 0 {
        assert(ops.drop_first().skip(i - 1) =~= ops.skip(i));
        lemma_find_operation_skip(ops.drop_first(), name, i - 1);
    } else {
        assert(ops.skip(0) =~= ops);
    }
}

impl QueryDocument {
    /// The operation the request names, or the document's sole operation
    /// when it names none; an unnamed operation answers to the empty
    /// name.
    pub fn operation_by_name(&self, operation_name: Option<&str>) -> (r: Option<&Operation>)
        ensures
            match r {
                Some(op) => selected_operation(*self, requested_name(operation_name)) == Some(*op),
                None => selected_operation(*self, requested_name(operation_name)) is None,
            },
    {
        match operation_name {
            Some(n) => {
                let wanted: String = n.to_owned();
                let mut i: usize = 0;
                while i < self.operations.len()
                    invariant
                        i <= self.operations.len(),
                        wanted@ == n@,
                        requested_name(operation_name) == Some(n@),
                        forall|j: int|
                            0 <= j < i ==> operation_label(self.operations@[j]) != n@,
                    decreases self.operations.len() - i,
                {
                    let matched: bool = match &self.operations[i].name {
                        Some(s) => *s == wanted,
                        None => wanted.as_str().is_empty(),
                    };
                    if matched {
                        proof {
                            let op = self.operations@[i as int];
                            if op.name is Some {
                                assert(operation_label(op) == n@);
                            } else {
                                assert(n@.len() == 0);
                                assert(operation_label(op) =~= n@);
                            }
                            lemma_find_operation_skip(self.operations@, n@, i as int);
                            assert(self.operations@.skip(i as int)[0] == op);
                        }
                        return Some(&self.operations[i]);
                    }
                    i += 1;
                }
                proof {
                    lemma_find_operation_skip(self.operations@, n@, self.operations@.len() as int);
                    assert(self.operations@.skip(self.operations@.len() as int).len() == 0);
                }
                None
            },
            None => {
                if self.operations.len() == 1 {
                    Some(&self.operations[0])
                } else {
                    None
                }
            },
        }
    }
}

/// Resolve the scopes the selected operation requires: the union of every
/// scope literal attached to a field definition reachable from the
/// operation root, and whether any reachable field definition carries the
/// `authz` marker.  Fails exactly when the operation cannot be resolved.
pub fn resolve_required_scopes(doc: &QueryDocument, operation_name: Option<&str>) -> (r: Result<
    RequiredScopes,
    AuthzError,
>)
    ensures
        match r {
            Ok(m) => {
                &&& selected_operation(*doc, requested_name(operation_name)) is Some
                &&& m.wf()
                &&& m.scope_set() == walk_selections(
                    *doc,
                    selected_operation(*doc, requested_name(operation_name))->Some_0.selections@,
                    Set::<Seq<char>>::empty(),
                ).0
                &&& m.requires_auth == walk_selections(
                    *doc,
                    selected_operation(*doc, requested_name(operation_name))->Some_0.selections@,
                    Set::<Seq<char>>::empty(),
                ).1
            },
            Err(e) => {
                &&& selected_operation(*doc, requested_name(operation_name)) is None
                &&& e == AuthzError::OperationNotFound
            },
        },
{
    match doc.operation_by_name(operation_name) {
        Some(op) => {
            let mut acc = RequiredScopes { scopes: Vec::new(), requires_auth: false };
            let mut visited: Vec<String> = Vec::new();
            proof {
                assert(string_views(Seq::<String>::empty()) =~= Seq::<Seq<char>>::empty());
                assert(visited_set(Seq::<String>::empty()) =~= Set::<Seq<char>>::empty());
                assert(acc.scope_set() =~= Set::<Seq<char>>::empty());
            }
            recurse_selections(doc, &op.selections, &mut visited, &mut acc);
            proof {
                let walked = walk_selections(*doc, op.selections@, Set::<Seq<char>>::empty());
                assert(acc.scope_set() =~= walked.0);
            }
            Ok(acc)
        },
        None => Err(AuthzError::OperationNotFound),
    }
}

} // verus!
