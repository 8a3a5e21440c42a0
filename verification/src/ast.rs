//! The query-side data model: a schema-bound selection tree, the
//! directives attached to field definitions, and the directive extractor
//! that reads scope names and the `authz` marker out of them.

use vstd::prelude::*;

verus! {

/// One directive argument value as the extractor sees it: a string
/// literal, a list of string literals, or anything else (numbers,
/// booleans, objects), which contributes no scope names.
pub enum ArgumentValue {
    Text(String),
    TextList(Vec<String>),
    Other,
}

/// A named argument of a directive.
pub struct Argument {
    pub name: String,
    pub value: ArgumentValue,
}

/// A directive attached to a field definition: a name plus its ordered
/// arguments.
pub struct Directive {
    pub name: String,
    pub arguments: Vec<Argument>,
}

/// The schema-side definition backing one field selection.  The
/// authorization logic only reads its directives.
pub struct FieldDefinition {
    pub directives: Vec<Directive>,
}

/// A field selection: the backing definition, if the schema resolves one,
/// and the field's own sub-selections.
pub struct FieldSelection {
    pub definition: Option<FieldDefinition>,
    pub selections: Vec<Selection>,
}

/// One selection in a selection set.
pub enum Selection {
    Field(FieldSelection),
    FragmentSpread(String),
    InlineFragment(Vec<Selection>),
}

/// A named fragment definition of the document.
pub struct Fragment {
    pub name: String,
    pub selections: Vec<Selection>,
}

/// One top-level operation of the document.
pub struct Operation {
    pub name: Option<String>,
    pub selections: Vec<Selection>,
}

/// A parsed, schema-bound query document: its operations and its named
/// fragments.
pub struct QueryDocument {
    pub operations: Vec<Operation>,
    pub fragments: Vec<Fragment>,
}

/// The views of a sequence of strings, as sequences of characters.
pub open spec fn string_views(ss: Seq<String>) -> Seq<Seq<char>> {
    ss.map_values(|s: String| s@)
}

/// The scope strings one argument value contributes, in order: a string
/// contributes itself, a list its string elements, any other value
/// nothing.
pub open spec fn value_strings_spec(v: ArgumentValue) -> Seq<Seq<char>> {
    match v {
        ArgumentValue::Text(s) => seq![s@],
        ArgumentValue::TextList(l) => string_views(l@),
        ArgumentValue::Other => Seq::<Seq<char>>::empty(),
    }
}

/// The string values of every argument in `args` named `name`, in order.
pub open spec fn argument_strings(args: Seq<Argument>, name: Seq<char>) -> Seq<Seq<char>>
    decreases args.len(),
{
    if args.len() == 0 {
        Seq::<Seq<char>>::empty()
    } else {
        argument_strings(args.drop_last(), name) + (if args.last().name@ == name {
            value_strings_spec(args.last().value)
        } else {
            Seq::<Seq<char>>::empty()
        })
    }
}

/// The string values of the arguments of one directive named `name`.
pub open spec fn directive_strings(d: Directive, name: Seq<char>) -> Seq<Seq<char>> {
    argument_strings(d.arguments@, name)
}

/// All argument string values named `name` over a sequence of directives.
pub open spec fn directives_strings(ds: Seq<Directive>, name: Seq<char>) -> Seq<Seq<char>>
    decreases ds.len(),
{
    if ds.len() == 0 {
        Seq::<Seq<char>>::empty()
    } else {
        directives_strings(ds.drop_last(), name) + directive_strings(ds.last(), name)
    }
}

/// Whether some directive in `ds` bears the name `name`.
pub open spec fn has_directive_named(ds: Seq<Directive>, name: Seq<char>) -> bool {
    exists|i: int| 0 <= i < ds.len() && ds[i].name@ == name
}

/// The scope names attached to one field definition, in declaration order:
/// every string value of an argument literally named `scope`, on any of
/// the definition's directives.
pub open spec fn field_scope_strings(def: FieldDefinition) -> Seq<Seq<char>> {
    directives_strings(def.directives@, "scope"@)
}

/// Whether a field definition carries the `authz` authentication marker.
pub open spec fn field_requires_auth(def: FieldDefinition) -> bool {
    has_directive_named(def.directives@, "authz"@)
}

/// Whether the field definition carries a directive with the given name.
pub fn has_directive(f: &FieldDefinition, name: &str) -> (r: bool)
    ensures
        r == has_directive_named(f.directives@, name@),
{
    let wanted: String = name.to_owned();
    let mut i: usize = 0;
    while i < f.directives.len()
        invariant
            i <= f.directives.len(),
            wanted@ == name@,
            forall|j: int| 0 <= j < i ==> f.directives@[j].name@ != name@,
        decreases f.directives.len() - i,
    {
        if f.directives[i].name == wanted {
            proof {
                assert(f.directives@[i as int].name@ == name@);
            }
            return true;
        }
        i += 1;
    }
    false
}

/// The scope strings one argument value contributes.
pub fn value_strings(v: &ArgumentValue) -> (r: Vec<String>)
    ensures
        string_views(r@) == value_strings_spec(*v),
{
    match v {
        ArgumentValue::Text(s) => {
            let mut out: Vec<String> = Vec::new();
            out.push(s.clone());
            proof {
                assert(string_views(out@) =~= value_strings_spec(*v));
            }
            out
        }
        ArgumentValue::TextList(l) => {
            let mut out: Vec<String> = Vec::new();
            let mut i: usize = 0;
            while i < l.len()
                invariant
                    i <= l.len(),
                    out@.len() == i,
                    string_views(out@) == string_views(l@).subrange(0, i as int),
                decreases l.len() - i,
            {
                let ghost pre = out@;
                out.push(l[i].clone());
                proof {
                    let target = string_views(l@).subrange(0, i as int + 1);
                    assert forall|j: int| 0 <= j < out@.len() implies string_views(out@)[j]
                        == target[j] by {
                        if j < i as int {
                            assert(string_views(pre)[j] == string_views(l@).subrange(
                                0,
                                i as int,
                            )[j]);
                        } else {
                            assert(out@[j] == l@[i as int]);
                        }
                    }
                    assert(string_views(out@) =~= target);
                }
                i += 1;
            }
            proof {
                assert(string_views(l@).subrange(0, l@.len() as int) =~= string_views(l@));
            }
            out
        }
        ArgumentValue::Other => {
            let out: Vec<String> = Vec::new();
            proof {
                assert(string_views(out@) =~= Seq::<Seq<char>>::empty());
            }
            out
        }
    }
}

/// The string values of the arguments of `d` named `name`, in order.
pub fn string_argument_values(d: &Directive, name: &str) -> (r: Vec<String>)
    ensures
        string_views(r@) == directive_strings(*d, name@),
{
    let mut out: Vec<String> = Vec::new();
    let wanted: String = name.to_owned();
    let mut i: usize = 0;
    while i < d.arguments.len()
        invariant
            i <= d.arguments.len(),
            wanted@ == name@,
            string_views(out@) == argument_strings(d.arguments@.subrange(0, i as int), name@),
        decreases d.arguments.len() - i,
    {
        let ghost pre = out@;
        if d.arguments[i].name == wanted {
            let mut vs = value_strings(&d.arguments[i].value);
            let ghost vs_snap = vs@;
            out.append(&mut vs);
            proof {
                assert(string_views(pre + vs_snap) =~= string_views(pre) + string_views(vs_snap));
            }
        }
        proof {
            let args = d.arguments@;
            assert(args.subrange(0, i as int + 1).drop_last() =~= args.subrange(0, i as int));
            assert(args.subrange(0, i as int + 1).last() == args[i as int]);
            if args[i as int].name@ != name@ {
                assert(string_views(out@) =~= argument_strings(args.subrange(0, i as int), name@)
                    + Seq::<Seq<char>>::empty());
            }
        }
        i += 1;
    }
    proof {
        assert(d.arguments@.subrange(0, d.arguments@.len() as int) =~= d.arguments@);
    }
    out
}

} // verus!
