//! The attributes of a tag: a map from names to values.
//!
//! A `Vec` of pairs stands in for the `HashMap<String, String>` of a tag:
//! vstd specifies `HashMap::insert` only for key types that it knows to obey
//! its key model, which `String` is not among. The type keeps what the map
//! gave: each name occurs once (its invariant), and `==` compares the maps.
use vstd::prelude::*;
use vstd::std_specs::cmp::PartialEqSpecImpl;
use crate::grammar::{map_insert, key_index, first_key, lemma_key_index, has_name};

verus! {

/// The model of a list of name-value pairs.
pub open spec fn pairs_model(a: Seq<(String, String)>) -> Seq<(Seq<char>, Seq<char>)> {
    a.map_values(|p: (String, String)| (p.0@, p.1@))
}

/// Whether no two pairs of `m` share a name.
pub open spec fn names_distinct(m: Seq<(Seq<char>, Seq<char>)>) -> bool {
    forall|i: int, j: int| 0 <= i < j < m.len() ==> m[i].0 != m[j].0
}

/// The map that the pairs of `m` hold: each name to the value of a pair
/// with that name.
pub open spec fn pairs_map(m: Seq<(Seq<char>, Seq<char>)>) -> Map<Seq<char>, Seq<char>> {
    Map::new(
        |k: Seq<char>| has_name(m, k),
        |k: Seq<char>| m[choose|i: int| 0 <= i < m.len() && m[i].0 == k].1,
    )
}

/// Where names are distinct, the map holds each pair.
pub proof fn lemma_pairs_map_at(m: Seq<(Seq<char>, Seq<char>)>, i: int)
    requires
        names_distinct(m),
        0 <= i < m.len(),
    ensures
        pairs_map(m).dom().contains(m[i].0),
        pairs_map(m)[m[i].0] == m[i].1,
{
    let k = m[i].0;
    assert(has_name(m, k));
    let j = choose|j: int| 0 <= j < m.len() && m[j].0 == k;
    if j != i {
        if j < i {
            assert(m[j].0 != m[i].0);
        } else {
            assert(m[i].0 != m[j].0);
        }
    }
}

/// Inserting keeps names distinct.
pub proof fn lemma_insert_distinct(m: Seq<(Seq<char>, Seq<char>)>, kv: (Seq<char>, Seq<char>))
    requires
        names_distinct(m),
    ensures
        names_distinct(map_insert(m, kv)),
{
    lemma_key_index(m, kv.0);
    let r = map_insert(m, kv);
    match key_index(m, kv.0) {
        Some(p) => {
            assert forall|i: int, j: int| 0 <= i < j < r.len() implies r[i].0 != r[j].0 by {
                assert(r[i].0 == m[i].0 && r[j].0 == m[j].0);
            }
        },
        None => {
            assert forall|i: int, j: int| 0 <= i < j < r.len() implies r[i].0 != r[j].0 by {
                if j == m.len() {
                    assert(m[i].0 != kv.0);
                }
            }
        },
    }
}

/// The attributes of a tag: a map from names to values, each name once, in
/// the order in which the names were first inserted.
#[derive(Debug)]
pub struct Attributes {
    entries: Vec<(String, String)>,
}

impl Attributes {
    #[verifier::type_invariant]
    spec fn inv(&self) -> bool {
        names_distinct(pairs_model(self.entries@))
    }

    /// The pairs, in the order in which their names were first inserted.
    pub closed spec fn pairs(&self) -> Seq<(Seq<char>, Seq<char>)> {
        pairs_model(self.entries@)
    }

    /// No attributes.
    pub fn new() -> (r: Self)
        ensures
            r.pairs() == Seq::<(Seq<char>, Seq<char>)>::empty(),
    {
        let r = Attributes { entries: Vec::new() };
        assert(r.pairs() =~= Seq::<(Seq<char>, Seq<char>)>::empty());
        r
    }

    /// Inserts `name = value` as into a map: a pair with the same name gets
    /// the new value in place, otherwise the pair is added at the end.
    pub fn insert(&mut self, name: String, value: String)
        ensures
            final(self).pairs() == map_insert(old(self).pairs(), (name@, value@)),
    {
        proof {
            use_type_invariant(&*self);
        }
        let mut attrs: Vec<(String, String)> = Vec::new();
        std::mem::swap(&mut attrs, &mut self.entries);
        let ghost m = pairs_model(attrs@);
        let ghost kv = (name@, value@);
        proof {
            lemma_key_index(m, name@);
            lemma_insert_distinct(m, kv);
        }
        let mut i: usize = 0;
        let mut found = false;
        while i < attrs.len()
            invariant_except_break
                !found,
            invariant
                0 <= i <= attrs@.len(),
                m == pairs_model(attrs@),
                forall|j: int| 0 <= j < i ==> m[j].0 != name@,
            ensures
                found ==> i < attrs@.len() && first_key(m, name@, i as int),
                !found ==> forall|j: int| 0 <= j < attrs@.len() ==> m[j].0 != name@,
            decreases attrs@.len() - i,
        {
            if attrs[i].0 == name {
                found = true;
                break;
            }
            i = i + 1;
        }
        if found {
            proof {
                lemma_key_index(m, name@);
                if let Some(i2) = key_index(m, name@) {
                    assert(first_key(m, name@, i2));
                    if i2 < i as int {
                        assert(m[i2].0 != name@);
                    }
                    if i2 > i as int {
                        assert(m[i as int].0 != name@);
                    }
                }
            }
            attrs.set(i, (name, value));
            assert(pairs_model(attrs@) =~= m.update(i as int, kv));
        } else {
            proof {
                lemma_key_index(m, name@);
                if let Some(i2) = key_index(m, name@) {
                    assert(m[i2].0 == name@);
                }
            }
            attrs.push((name, value));
            assert(pairs_model(attrs@) =~= m.push(kv));
        }
        self.entries = attrs;
    }

    /// The pairs; no two share a name.
    pub fn entries(&self) -> (r: &Vec<(String, String)>)
        ensures
            pairs_model(r@) == self.pairs(),
            names_distinct(self.pairs()),
    {
        proof {
            use_type_invariant(self);
        }
        &self.entries
    }

    /// Whether every pair here stands in `other` too, with the same value.
    fn contained_in(&self, other: &Attributes) -> (r: bool)
        ensures
            r == self@.submap_of(other@),
    {
        proof {
            use_type_invariant(self);
            use_type_invariant(other);
        }
        let ghost m = self.pairs();
        let ghost o = other.pairs();
        let mut i: usize = 0;
        while i < self.entries.len()
            invariant
                0 <= i <= self.entries@.len(),
                m == pairs_model(self.entries@),
                o == pairs_model(other.entries@),
                names_distinct(m),
                names_distinct(o),
                forall|p: int|
                    0 <= p < i ==> pairs_map(o).dom().contains(#[trigger] m[p].0) && pairs_map(
                        o,
                    )[m[p].0] == m[p].1,
            decreases self.entries@.len() - i,
        {
            let mut j: usize = 0;
            let mut same = false;
            while j < other.entries.len()
                invariant_except_break
                    !same,
                invariant
                    0 <= i < self.entries@.len(),
                    0 <= j <= other.entries@.len(),
                    m == pairs_model(self.entries@),
                    o == pairs_model(other.entries@),
                    forall|q: int| 0 <= q < j ==> o[q].0 != m[i as int].0,
                ensures
                    same ==> j < other.entries@.len() && o[j as int].0 == m[i as int].0,
                    !same ==> forall|q: int| 0 <= q < o.len() ==> o[q].0 != m[i as int].0,
                decreases other.entries@.len() - j,
            {
                if other.entries[j].0 == self.entries[i].0 {
                    same = true;
                    break;
                }
                j = j + 1;
            }
            proof {
                lemma_pairs_map_at(m, i as int);
            }
            if !same {
                proof {
                    if has_name(o, m[i as int].0) {
                        let q = choose|q: int| 0 <= q < o.len() && o[q].0 == m[i as int].0;
                        assert(o[q].0 != m[i as int].0);
                    }
                }
                assert(!pairs_map(o).dom().contains(m[i as int].0));
                return false;
            }
            proof {
                lemma_pairs_map_at(o, j as int);
            }
            if other.entries[j].1 != self.entries[i].1 {
                assert(pairs_map(o)[m[i as int].0] != pairs_map(m)[m[i as int].0]);
                return false;
            }
            i = i + 1;
        }
        assert forall|k: Seq<char>| #[trigger] pairs_map(m).dom().contains(k) implies pairs_map(
            o,
        ).dom().contains(k) && pairs_map(o)[k] == pairs_map(m)[k] by {
            let p = choose|p: int| 0 <= p < m.len() && m[p].0 == k;
            lemma_pairs_map_at(m, p);
        }
        true
    }
}

impl View for Attributes {
    type V = Map<Seq<char>, Seq<char>>;

    /// The map from names to values.
    open spec fn view(&self) -> Map<Seq<char>, Seq<char>> {
        pairs_map(self.pairs())
    }
}

impl PartialEq for Attributes {
    fn eq(&self, other: &Self) -> (r: bool) {
        let r = self.contained_in(other) && other.contained_in(self);
        proof {
            if self@.submap_of(other@) && other@.submap_of(self@) {
                assert(self@ =~= other@);
            }
        }
        r
    }
}

impl PartialEqSpecImpl for Attributes {
    open spec fn obeys_eq_spec() -> bool {
        true
    }

    /// Two attribute sets are equal when they hold the same map.
    open spec fn eq_spec(&self, other: &Self) -> bool {
        self@ == other@
    }
}

} // verus!
