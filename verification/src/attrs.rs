//! Attribute lists as handed back by the page driver: a flat list of
//! alternating names and values. `from` pairs them up; `search_from` looks a
//! name up, the last complete pair winning as in a map built from the pairs.

use vstd::prelude::*;

verus! {

/// Consecutive pairs of a flat attribute list; a trailing name without a
/// value is dropped.
pub open spec fn pairs_of(s: Seq<Seq<char>>) -> Seq<(Seq<char>, Seq<char>)>
    decreases s.len(),
{
    if s.len() < 2 {
        Seq::empty()
    } else {
        Seq::empty().push((s[0], s[1])) + pairs_of(s.skip(2))
    }
}

/// The value of the last pair whose name is `key`.
pub open spec fn lookup(pairs: Seq<(Seq<char>, Seq<char>)>, key: Seq<char>) -> Option<Seq<char>>
    decreases pairs.len(),
{
    if pairs.len() == 0 {
        None
    } else if pairs.last().0 == key {
        Some(pairs.last().1)
    } else {
        lookup(pairs.drop_last(), key)
    }
}

/// What `search_from` returns on an attribute list.
pub open spec fn spec_search(attrs: Seq<Seq<char>>, key: Seq<char>) -> Option<Seq<char>> {
    lookup(pairs_of(attrs), key)
}

/// Pairs an attribute list up into (name, value) entries, in order.
pub fn from(attr: &Vec<String>) -> (r: Vec<(String, String)>)
    ensures
        r.deep_view() =~= pairs_of(attr.deep_view()),
{
    let mut r: Vec<(String, String)> = Vec::new();
    let mut i: usize = 0;
    let ghost s = attr.deep_view();
    proof {
        assert(s.skip(0) =~= s);
        assert(pairs_of(s) =~= r.deep_view() + pairs_of(s.skip(0)));
    }
    while i + 1 < attr.len()
        invariant
            s == attr.deep_view(),
            i <= attr.len(),
            i % 2 == 0,
            pairs_of(s) =~= r.deep_view() + pairs_of(s.skip(i as int)),
        decreases attr.len() - i,
    {
        let key = attr[i].clone();
        let val = attr[i + 1].clone();
        proof {
            let rem = s.skip(i as int);
            assert(rem[0] == s[i as int]);
            assert(rem[1] == s[i + 1]);
            assert(rem.skip(2) =~= s.skip(i + 2));
            assert(pairs_of(rem) =~= Seq::empty().push((key@, val@)) + pairs_of(s.skip(i + 2)));
        }
        let ghost prev = r.deep_view();
        r.push((key, val));
        proof {
            assert(r.deep_view() =~= prev.push((key@, val@)));
        }
        i = i + 2;
    }
    proof {
        assert(pairs_of(s.skip(i as int)) =~= Seq::empty());
    }
    r
}

/// Looks a name up in an attribute list, the last matching pair winning.
pub fn search_from(attributes: &Vec<String>, key: &str) -> (r: Option<String>)
    ensures
        r is Some <==> spec_search(attributes.deep_view(), key@) is Some,
        r matches Some(v) ==> Some(v@) == spec_search(attributes.deep_view(), key@),
{
    let pairs = from(attributes);
    let needle = key.to_owned();
    let ghost ps = pairs.deep_view();
    let mut j: usize = pairs.len();
    proof {
        assert(ps.take(j as int) =~= ps);
    }
    while j > 0
        invariant
            j <= pairs.len(),
            ps == pairs.deep_view(),
            ps =~= pairs_of(attributes.deep_view()),
            needle@ == key@,
            lookup(ps, key@) == lookup(ps.take(j as int), key@),
        decreases j,
    {
        j = j - 1;
        proof {
            assert(ps.take(j + 1).drop_last() =~= ps.take(j as int));
            assert(ps.take(j + 1).last() == ps[j as int]);
            assert(ps[j as int] == (pairs@[j as int].0@, pairs@[j as int].1@));
        }
        if pairs[j].0.eq(&needle) {
            assert(lookup(ps.take(j + 1), key@) == Some(ps[j as int].1));
            return Some(pairs[j].1.clone());
        }
        assert(lookup(ps.take(j + 1), key@) == lookup(ps.take(j as int), key@));
    }
    proof {
        assert(ps.take(0) =~= Seq::<(Seq<char>, Seq<char>)>::empty());
    }
    None
}

} // verus!
