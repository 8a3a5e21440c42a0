//! Text helpers for deny messages: lexicographic order on scope names,
//! sorting, joining, and membership tests.

use vstd::prelude::*;
use crate::ast::string_views;

verus! {

/// Lexicographic order on character sequences, by code point.  Missing
/// scopes are listed in this order in deny messages.
pub open spec fn lex_le(a: Seq<char>, b: Seq<char>) -> bool
    decreases a.len(),
{
    if a.len() == 0 {
        true
    } else if b.len() == 0 {
        false
    } else if a[0] == b[0] {
        lex_le(a.drop_first(), b.drop_first())
    } else {
        (a[0] as int) < (b[0] as int)
    }
}

/// The order is total.
pub proof fn lemma_lex_total(a: Seq<char>, b: Seq<char>)
    ensures
        lex_le(a, b) || lex_le(b, a),
    decreases a.len(),
{
    if a.len() == 0 {
        assert(lex_le(a, b));
    } else if b.len() == 0 {
        assert(lex_le(b, a));
    } else if a[0] == b[0] {
        lemma_lex_total(a.drop_first(), b.drop_first());
    } else if (a[0] as int) < (b[0] as int) {
        assert(lex_le(a, b));
    } else {
        assert((b[0] as int) < (a[0] as int));
        assert(lex_le(b, a));
    }
}

/// The order is transitive.
pub proof fn lemma_lex_trans(a: Seq<char>, b: Seq<char>, c: Seq<char>)
    requires
        lex_le(a, b),
        lex_le(b, c),
    ensures
        lex_le(a, c),
    decreases a.len(),
{
    if a.len() > 0 && b.len() > 0 && c.len() > 0 && a[0] == b[0] && b[0] == c[0] {
        lemma_lex_trans(a.drop_first(), b.drop_first(), c.drop_first());
    }
}

/// Two sequences that agree on a prefix are ordered as their suffixes
/// are.
proof fn lemma_lex_skip(a: Seq<char>, b: Seq<char>, i: int)
    requires
        0 <= i <= a.len(),
        i <= b.len(),
        forall|j: int| 0 <= j < i ==> a[j] == b[j],
    ensures
        lex_le(a, b) == lex_le(a.skip(i), b.skip(i)),
    decreases i,
{
    if i > 0 {
        assert(a[0] == b[0]);
        assert(a.drop_first().skip(i - 1) =~= a.skip(i));
        assert(b.drop_first().skip(i - 1) =~= b.skip(i));
        assert(forall|j: int| 0 <= j < i - 1 ==> a.drop_first()[j] == b.drop_first()[j]);
        lemma_lex_skip(a.drop_first(), b.drop_first(), i - 1);
    } else {
        assert(a.skip(0) =~= a);
        assert(b.skip(0) =~= b);
    }
}

/// Whether `a` precedes or equals `b` in the lexicographic order,
/// comparing character by character.
fn str_le(a: &String, b: &String) -> (r: bool)
    ensures
        r == lex_le(a@, b@),
{
    let an = a.as_str().unicode_len();
    let bn = b.as_str().unicode_len();
    let mut i: usize = 0;
    while i < an && i < bn
        invariant
            i <= an,
            i <= bn,
            an == a@.len(),
            bn == b@.len(),
            forall|j: int| 0 <= j < i ==> a@[j] == b@[j],
        decreases an - i,
    {
        let ca = a.as_str().get_char(i);
        let cb = b.as_str().get_char(i);
        if ca != cb {
            proof {
                lemma_lex_skip(a@, b@, i as int);
                assert(a@.skip(i as int)[0] == a@[i as int]);
                assert(b@.skip(i as int)[0] == b@[i as int]);
            }
            return (ca as u32) < (cb as u32);
        }
        i += 1;
    }
    proof {
        lemma_lex_skip(a@, b@, i as int);
    }
    if i == an {
        proof {
            assert(a@.skip(i as int).len() == 0);
        }
        true
    } else {
        proof {
            assert(b@.skip(i as int).len() == 0);
            assert(a@.skip(i as int).len() > 0);
        }
        false
    }
}

/// Insertion into a sorted sequence, from the back.
pub open spec fn insert_sorted_spec(s: Seq<Seq<char>>, x: Seq<char>) -> Seq<Seq<char>>
    decreases s.len(),
{
    if s.len() == 0 {
        seq![x]
    } else if lex_le(s.last(), x) {
        s.push(x)
    } else {
        insert_sorted_spec(s.drop_last(), x).push(s.last())
    }
}

/// Insertion sort, lexicographic.
pub open spec fn sort_spec(s: Seq<Seq<char>>) -> Seq<Seq<char>>
    decreases s.len(),
{
    if s.len() == 0 {
        s
    } else {
        insert_sorted_spec(sort_spec(s.drop_last()), s.last())
    }
}

/// Sorted in the lexicographic order.
pub open spec fn sorted(s: Seq<Seq<char>>) -> bool {
    forall|i: int, j: int| 0 <= i < j < s.len() ==> lex_le(s[i], s[j])
}

/// No element occurs twice.
pub open spec fn distinct(s: Seq<Seq<char>>) -> bool {
    forall|i: int, j: int| 0 <= i < j < s.len() ==> s[i] != s[j]
}

/// Insert one scope name into an already sorted list, mirroring
/// `insert_sorted_spec`.
fn insert_sorted(v: Vec<String>, x: String) -> (r: Vec<String>)
    ensures
        string_views(r@) == insert_sorted_spec(string_views(v@), x@),
    decreases v@.len(),
{
    let mut v = v;
    if v.len() == 0 {
        v.push(x);
        proof {
            assert(string_views(v@) =~= seq![x@]);
        }
        v
    } else if str_le(&v[v.len() - 1], &x) {
        let ghost pre = v@;
        v.push(x);
        proof {
            assert(string_views(v@) =~= string_views(pre).push(x@));
            assert(string_views(pre).last() == pre.last()@);
        }
        v
    } else {
        let ghost pre = v@;
        let last = v.pop().unwrap();
        proof {
            assert(string_views(v@) =~= string_views(pre).drop_last());
        }
        let mut r = insert_sorted(v, x);
        let ghost mid = r@;
        r.push(last);
        proof {
            assert(string_views(r@) =~= string_views(mid).push(last@));
            assert(string_views(pre).last() == pre.last()@);
        }
        r
    }
}

/// Sort scope names lexicographically, mirroring `sort_spec`.
pub fn sort_scope_names(v: Vec<String>) -> (r: Vec<String>)
    ensures
        string_views(r@) == sort_spec(string_views(v@)),
    decreases v@.len(),
{
    let mut v = v;
    if v.len() == 0 {
        proof {
            assert(string_views(v@) =~= sort_spec(string_views(v@)));
        }
        v
    } else {
        let ghost pre = v@;
        let last = v.pop().unwrap();
        proof {
            assert(string_views(v@) =~= string_views(pre).drop_last());
            assert(string_views(pre).last() == pre.last()@);
        }
        let rest = sort_scope_names(v);
        insert_sorted(rest, last)
    }
}

/// The strings of `items` joined with `sep` between neighbours.
pub open spec fn joined(items: Seq<Seq<char>>, sep: Seq<char>) -> Seq<char>
    decreases items.len(),
{
    if items.len() == 0 {
        Seq::<char>::empty()
    } else if items.len() == 1 {
        items[0]
    } else {
        joined(items.drop_last(), sep) + sep + items.last()
    }
}

/// Join scope names with the given separator.
pub fn join_strings(items: &Vec<String>, sep: &str) -> (r: String)
    ensures
        r@ == joined(string_views(items@), sep@),
{
    let mut out = String::new();
    let mut i: usize = 0;
    while i < items.len()
        invariant
            i <= items.len(),
            out@ == joined(string_views(items@).subrange(0, i as int), sep@),
        decreases items.len() - i,
    {
        if i > 0 {
            out.append(sep);
        }
        out.append(items[i].as_str());
        proof {
            let views = string_views(items@);
            assert(views.subrange(0, i as int + 1).drop_last() =~= views.subrange(0, i as int));
            assert(views.subrange(0, i as int + 1).last() == views[i as int]);
            if i == 0 {
                assert(out@ =~= joined(views.subrange(0, 1), sep@));
            }
        }
        i += 1;
    }
    proof {
        assert(string_views(items@).subrange(0, items@.len() as int) =~= string_views(items@));
    }
    out
}

/// Whether the collection holds a string with this text.
pub fn contains_string(v: &Vec<String>, s: &String) -> (r: bool)
    ensures
        r == string_views(v@).contains(s@),
{
    let mut i: usize = 0;
    while i < v.len()
        invariant
            i <= v.len(),
            forall|j: int| 0 <= j < i ==> v@[j]@ != s@,
        decreases v.len() - i,
    {
        if v[i] == *s {
            proof {
                assert(string_views(v@)[i as int] == s@);
            }
            return true;
        }
        i += 1;
    }
    proof {
        assert forall|k: int| 0 <= k < string_views(v@).len() implies string_views(v@)[k] != s@ by {
            assert(v@[k]@ != s@);
        }
    }
    false
}

} // verus!
