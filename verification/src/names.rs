//! Lists of names kept in ascending order, each name once: the form in which
//! the ballot box holds a set of names.
use vstd::prelude::*;
use crate::lists::{lemma_in_order_unique, lemma_insert_in_order};
use crate::text::{
    lemma_lex_asymmetric, lemma_lex_connected, lemma_lex_irreflexive, lemma_lex_transitive, lex_lt,
    text_less,
};

verus! {

/// Whether each name of `s` comes before those behind it.
pub open spec fn ascending(s: Seq<Seq<char>>) -> bool {
    forall|i: int, j: int| 0 <= i < j < s.len() ==> lex_lt(s[i], s[j])
}

/// Whether `s` lists the names of `set`, each once, in ascending order.
pub open spec fn enumerates(s: Seq<Seq<char>>, set: Set<Seq<char>>) -> bool {
    &&& ascending(s)
    &&& forall|x: Seq<char>| s.contains(x) <==> set.contains(x)
}

/// An ascending list holds no name twice.
pub proof fn lemma_ascending_distinct(s: Seq<Seq<char>>)
    requires
        ascending(s),
    ensures
        s.no_duplicates(),
{
    assert forall|i: int, j: int| 0 <= i < s.len() && 0 <= j < s.len() && i != j implies s[i] != s[j] by {
        lemma_lex_irreflexive(s[i]);
        if i < j {
            assert(lex_lt(s[i], s[j]));
        } else {
            assert(lex_lt(s[j], s[i]));
        }
    }
}

/// Two ascending lists of the same names are one list: a set of names has
/// one enumeration.
pub proof fn lemma_ascending_unique(x: Seq<Seq<char>>, y: Seq<Seq<char>>)
    requires
        ascending(x),
        ascending(y),
        forall|e: Seq<char>| x.contains(e) <==> y.contains(e),
    ensures
        x == y,
{
    let lt = |a: Seq<char>, b: Seq<char>| lex_lt(a, b);
    assert forall|a: Seq<char>, b: Seq<char>| #[trigger] lt(a, b) implies !lt(b, a) by {
        lemma_lex_asymmetric(a, b);
    }
    lemma_in_order_unique(x, y, lt);
}

/// In an ascending list the order of two names is the order of their places.
pub proof fn lemma_ascending_places(s: Seq<Seq<char>>, i: int, j: int)
    requires
        ascending(s),
        0 <= i < s.len(),
        0 <= j < s.len(),
    ensures
        lex_lt(s[i], s[j]) <==> i < j,
{
    if i == j {
        lemma_lex_irreflexive(s[i]);
    } else if j < i {
        assert(lex_lt(s[j], s[i]));
        if lex_lt(s[i], s[j]) {
            lemma_lex_asymmetric(s[i], s[j]);
        }
    }
}

/// The place of `name` in `names`, if it is there.
pub fn find_name(names: &Vec<String>, name: &String) -> (place: Option<usize>)
    ensures
        match place {
            Some(k) => k < names@.len() && names@[k as int]@ == name@,
            None => !names.deep_view().contains(name@),
        },
{
    let mut k: usize = 0;
    while k < names.len()
        invariant
            k <= names@.len(),
            forall|i: int| 0 <= i < k ==> names@[i]@ != name@,
        decreases names@.len() - k,
    {
        if names[k] == *name {
            return Some(k);
        }
        k = k + 1;
    }
    assert forall|i: int| 0 <= i < names.deep_view().len() implies names.deep_view()[i] != name@ by {
        assert(names.deep_view()[i] == names@[i]@);
    }
    None
}

/// Puts `name` at its place in the ascending list `names`, unless it is
/// there already. The result is the place at which it was put, if it was.
pub fn insert_name(names: &mut Vec<String>, name: String) -> (place: Option<usize>)
    requires
        ascending(old(names).deep_view()),
    ensures
        ascending(final(names).deep_view()),
        match place {
            Some(k) => {
                &&& k <= old(names)@.len()
                &&& !old(names).deep_view().contains(name@)
                &&& final(names).deep_view() == old(names).deep_view().insert(k as int, name@)
            },
            None => old(names).deep_view().contains(name@) && final(names)@ == old(names)@,
        },
        forall|x: Seq<char>|
            final(names).deep_view().contains(x) <==> old(names).deep_view().contains(x) || x == name@,
{
    let ghost before = names.deep_view();
    let mut k: usize = 0;
    while k < names.len() && text_less(names[k].as_str(), name.as_str())
        invariant
            names.deep_view() == before,
            k <= names@.len(),
            forall|i: int| 0 <= i < k ==> lex_lt(#[trigger] before[i], name@),
        decreases names@.len() - k,
    {
        assert(before[k as int] == names@[k as int]@);
        k = k + 1;
    }
    if k < names.len() && names[k] == name {
        assert(before[k as int] == names@[k as int]@);
        assert(before.contains(name@));
        return None;
    }
    proof {
        if k < names@.len() {
            assert(before[k as int] == names@[k as int]@);
            lemma_lex_connected(before[k as int], name@);
        }
        assert forall|t: int| k <= t < before.len() implies lex_lt(name@, #[trigger] before[t]) by {
            if t > k {
                assert(lex_lt(before[k as int], before[t]));
                lemma_lex_transitive(name@, before[k as int], before[t]);
            }
        }
        assert forall|i: int| 0 <= i < before.len() implies before[i] != name@ by {
            lemma_lex_irreflexive(name@);
        }
    }
    let ghost fresh = name@;
    names.insert(k, name);
    proof {
        let lt = |a: Seq<char>, b: Seq<char>| lex_lt(a, b);
        assert(names.deep_view() =~= before.insert(k as int, fresh));
        lemma_insert_in_order(before, k as int, fresh, lt);
    }
    Some(k)
}

/// The names of `items`, each once, in ascending order.
pub fn sorted_names(items: &Vec<String>) -> (names: Vec<String>)
    ensures
        ascending(names.deep_view()),
        forall|x: Seq<char>| names.deep_view().contains(x) <==> items.deep_view().contains(x),
{
    let mut names: Vec<String> = Vec::new();
    let mut k: usize = 0;
    while k < items.len()
        invariant
            k <= items@.len(),
            ascending(names.deep_view()),
            forall|x: Seq<char>|
                names.deep_view().contains(x) <==> items.deep_view().take(k as int).contains(x),
        decreases items@.len() - k,
    {
        let item = items[k].clone();
        insert_name(&mut names, item);
        proof {
            let shorter = items.deep_view().take(k as int);
            let longer = items.deep_view().take(k as int + 1);
            assert(longer =~= shorter.push(items@[k as int]@));
            assert forall|x: Seq<char>| names.deep_view().contains(x) <==> longer.contains(x) by {
                if longer.contains(x) {
                    let i = choose|i: int| 0 <= i < longer.len() && longer[i] == x;
                    if i < k {
                        assert(shorter[i] == x);
                    }
                }
                if shorter.contains(x) {
                    let i = choose|i: int| 0 <= i < shorter.len() && shorter[i] == x;
                    assert(longer[i] == x);
                }
                assert(longer[k as int] == items@[k as int]@);
            }
        }
        k = k + 1;
    }
    assert(items.deep_view().take(k as int) =~= items.deep_view());
    names
}

/// A copy of a list of names.
pub fn clone_names(names: &Vec<String>) -> (copy: Vec<String>)
    ensures
        copy@ == names@,
        copy.deep_view() == names.deep_view(),
{
    let mut copy: Vec<String> = Vec::new();
    let mut k: usize = 0;
    while k < names.len()
        invariant
            k <= names@.len(),
            copy@ == names@.take(k as int),
        decreases names@.len() - k,
    {
        copy.push(names[k].clone());
        assert(names@.take(k as int).push(names@[k as int]) =~= names@.take(k as int + 1));
        k = k + 1;
    }
    assert(names@.take(k as int) =~= names@);
    assert(copy.deep_view() =~= names.deep_view());
    copy
}

} // verus!
