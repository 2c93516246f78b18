//! An entity: a mapping from attribute names to typed values, mutated only
//! by merging partial updates, where a `Null` value in the update deletes
//! the attribute.
use crate::text::is_digit;
use crate::text::lemma_lex_total;
use crate::text::lemma_lex_trans;
use crate::text::lex_lt;
use crate::value::to_untyped_model;
use crate::value::UntypedValue;
use crate::value::Value;
use crate::value::ValueModel;
use vstd::prelude::*;

verus! {

/// An entity attribute name is represented as a string.
pub type Attribute = String;

/// Decides whether two pieces of text are equal.
pub fn str_eq(a: &str, b: &str) -> (r: bool)
    ensures
        r == (a@ == b@),
{
    let n = a.unicode_len();
    if n != b.unicode_len() {
        return false;
    }
    let mut i: usize = 0;
    while i < n
        invariant
            i <= n,
            n == a@.len(),
            n == b@.len(),
            forall|j: int| 0 <= j < i ==> a@[j] == b@[j],
        decreases n - i,
    {
        if a.get_char(i) != b.get_char(i) {
            return false;
        }
        i += 1;
    }
    proof {
        assert(a@ =~= b@);
    }
    true
}

/// Decides whether `a` comes strictly before `b` in lexicographic order by
/// code point.
pub fn str_lt(a: &str, b: &str) -> (r: bool)
    ensures
        r == lex_lt(a@, b@),
    decreases a@.len(),
{
    proof {
        reveal(lex_lt);
    }
    let an = a.unicode_len();
    let bn = b.unicode_len();
    if bn == 0 {
        false
    } else if an == 0 {
        true
    } else {
        let ca = a.get_char(0);
        let cb = b.get_char(0);
        if (ca as u32) < (cb as u32) {
            true
        } else if ca != cb {
            false
        } else {
            str_lt(a.substring_char(1, an), b.substring_char(1, bn))
        }
    }
}

/// The mapping denoted by a sequence of attribute/value pairs; a later pair
/// overrides an earlier one with the same name.
pub open spec fn map_of(s: Seq<(Attribute, Value)>) -> Map<Seq<char>, ValueModel>
    decreases s.len(),
{
    if s.len() == 0 {
        Map::empty()
    } else {
        map_of(s.drop_last()).insert(s.last().0@, s.last().1.model())
    }
}

/// No two pairs of `s` carry the same attribute name.
pub open spec fn distinct_keys(s: Seq<(Attribute, Value)>) -> bool {
    forall|i: int, j: int|
        0 <= i < j < s.len() ==> (#[trigger] s[i].0@) != (#[trigger] s[j].0@)
}

/// A name is in the mapping exactly when some pair carries it.
pub proof fn lemma_map_of_contains(s: Seq<(Attribute, Value)>, k: Seq<char>)
    ensures
        map_of(s).contains_key(k) <==> exists|i: int|
            0 <= i < s.len() && (#[trigger] s[i].0@) == k,
    decreases s.len(),
{
    if s.len() > 0 {
        let p = s.drop_last();
        lemma_map_of_contains(p, k);
        if s.last().0@ == k {
            assert(s[s.len() - 1].0@ == k);
        } else if map_of(s).contains_key(k) {
            let i = choose|i: int| 0 <= i < p.len() && (#[trigger] p[i].0@) == k;
            assert(s[i].0@ == k);
        } else if exists|i: int| 0 <= i < s.len() && (#[trigger] s[i].0@) == k {
            let i = choose|i: int| 0 <= i < s.len() && (#[trigger] s[i].0@) == k;
            assert(i != s.len() - 1);
            assert(p[i].0@ == k);
        }
    }
}

/// With distinct names, the mapping sends each pair's name to that pair's
/// value.
pub proof fn lemma_map_of_get(s: Seq<(Attribute, Value)>, i: int)
    requires
        distinct_keys(s),
        0 <= i < s.len(),
    ensures
        map_of(s).contains_key(s[i].0@),
        map_of(s)[s[i].0@] == s[i].1.model(),
    decreases s.len(),
{
    let p = s.drop_last();
    if i < s.len() - 1 {
        assert(distinct_keys(p)) by {
            assert forall|x: int, y: int| 0 <= x < y < p.len() implies (#[trigger] p[x].0@)
                != (#[trigger] p[y].0@) by {
                assert(p[x] == s[x] && p[y] == s[y]);
            }
        }
        lemma_map_of_get(p, i);
        assert(p[i] == s[i]);
        assert(s[i].0@ != s.last().0@);
    }
}

/// With distinct names, removing the pair at an index removes exactly its
/// name from the mapping, and the names stay distinct.
pub proof fn lemma_map_of_remove(s: Seq<(Attribute, Value)>, i: int)
    requires
        distinct_keys(s),
        0 <= i < s.len(),
    ensures
        distinct_keys(s.remove(i)),
        map_of(s.remove(i)) == map_of(s).remove(s[i].0@),
    decreases s.len(),
{
    let k = s[i].0@;
    let p = s.drop_last();
    assert(distinct_keys(p)) by {
        assert forall|x: int, y: int| 0 <= x < y < p.len() implies (#[trigger] p[x].0@)
            != (#[trigger] p[y].0@) by {
            assert(p[x] == s[x] && p[y] == s[y]);
        }
    }
    let r = s.remove(i);
    assert forall|x: int, y: int| 0 <= x < y < r.len() implies (#[trigger] r[x].0@)
        != (#[trigger] r[y].0@) by {
        let sx: int = if x < i {
            x
        } else {
            x + 1
        };
        let sy: int = if y < i {
            y
        } else {
            y + 1
        };
        assert(r[x] == s[sx] && r[y] == s[sy]);
    }
    if i == s.len() - 1 {
        assert(r =~= p);
        lemma_map_of_contains(p, k);
        assert(!map_of(p).contains_key(k));
        assert(map_of(p) =~= map_of(p).insert(k, s.last().1.model()).remove(k));
    } else {
        lemma_map_of_remove(p, i);
        assert(r.drop_last() =~= p.remove(i));
        assert(r.last() == s.last());
        assert(map_of(r) == map_of(p.remove(i)).insert(s.last().0@, s.last().1.model()));
        assert(s.last().0@ != k);
        assert(map_of(p).remove(k).insert(s.last().0@, s.last().1.model()) =~= map_of(p).insert(
            s.last().0@,
            s.last().1.model(),
        ).remove(k));
    }
}

/// What merging an update into a base mapping yields: a name maps to the
/// update's value where the update carries one that is not `Null`, keeps
/// the base's value where the update does not mention it, and is absent
/// where the update carries `Null`.
pub open spec fn merged(
    base: Map<Seq<char>, ValueModel>,
    upd: Map<Seq<char>, ValueModel>,
) -> Map<Seq<char>, ValueModel> {
    Map::new(
        |k: Seq<char>|
            (base.dom().contains(k) || upd.dom().contains(k)) && !(upd.dom().contains(k)
                && upd[k] is Null),
        |k: Seq<char>|
            if upd.dom().contains(k) {
                upd[k]
            } else {
                base[k]
            },
    )
}

/// Merging an empty update leaves the mapping unchanged.
pub proof fn lemma_merge_empty(m: Map<Seq<char>, ValueModel>)
    ensures
        merged(m, Map::empty()) == m,
{
    assert(merged(m, Map::empty()) =~= m);
}

/// Applying one update pair to the base directly, or recording it in the
/// update mapping, merges to the same result.
proof fn lemma_merged_step(
    m: Map<Seq<char>, ValueModel>,
    u: Map<Seq<char>, ValueModel>,
    k: Seq<char>,
    w: ValueModel,
)
    requires
        !u.dom().contains(k),
    ensures
        w is Null ==> merged(m.remove(k), u) == merged(m, u.insert(k, w)),
        !(w is Null) ==> merged(m.insert(k, w), u) == merged(m, u.insert(k, w)),
{
    if w is Null {
        assert(merged(m.remove(k), u) =~= merged(m, u.insert(k, w)));
    } else {
        assert(merged(m.insert(k, w), u) =~= merged(m, u.insert(k, w)));
    }
}

/// Each of the first `m` attributes appears, under its name, among the
/// placed pairs.
#[verifier::opaque]
pub open spec fn placed_complete(
    out: Seq<(Attribute, UntypedValue)>,
    entries: Seq<(Attribute, Value)>,
    m: int,
) -> bool {
    forall|mm: int| #![trigger entries[mm]]
        0 <= mm < m ==> exists|i: int|
            0 <= i < out.len() && (#[trigger] out[i].0@) == entries[mm].0@
}

/// Every placed pair carries the name of one of the first `m` attributes.
#[verifier::opaque]
pub open spec fn placed_origin(
    out: Seq<(Attribute, UntypedValue)>,
    entries: Seq<(Attribute, Value)>,
    m: int,
) -> bool {
    forall|i: int| #![trigger out[i]]
        0 <= i < out.len() ==> exists|mm: int|
            0 <= mm < m && (#[trigger] entries[mm].0@) == out[i].0@
}

/// The state of the ordered-object construction after the first `m`
/// attributes are placed: every placed pair renders an attribute of the
/// mapping, each of the first `m` attributes is placed, every placed pair
/// is one of the first `m` attributes, and the names are strictly sorted.
pub open spec fn ordered_inv(
    out: Seq<(Attribute, UntypedValue)>,
    entries: Seq<(Attribute, Value)>,
    model: Map<Seq<char>, ValueModel>,
    m: int,
) -> bool {
    &&& forall|i: int|
        0 <= i < out.len() ==> model.contains_key(#[trigger] out[i].0@) && out[i].1.model()
            == to_untyped_model(model[out[i].0@])
    &&& placed_complete(out, entries, m)
    &&& placed_origin(out, entries, m)
    &&& forall|i: int, j: int|
        0 <= i < j < out.len() ==> lex_lt(#[trigger] out[i].0@, #[trigger] out[j].0@)
}

/// Nothing is placed yet at the start of the construction.
proof fn lemma_ordered_empty(
    entries: Seq<(Attribute, Value)>,
    model: Map<Seq<char>, ValueModel>,
)
    ensures
        ordered_inv(Seq::empty(), entries, model, 0),
{
    reveal(placed_complete);
    reveal(placed_origin);
}

/// Inserting a pair whose value renders an attribute of the mapping keeps
/// every placed pair rendering an attribute of the mapping.
proof fn lemma_insert_values(
    old_out: Seq<(Attribute, UntypedValue)>,
    model: Map<Seq<char>, ValueModel>,
    p: int,
    pair: (Attribute, UntypedValue),
)
    requires
        0 <= p <= old_out.len(),
        model.contains_key(pair.0@),
        pair.1.model() == to_untyped_model(model[pair.0@]),
        forall|i: int|
            0 <= i < old_out.len() ==> model.contains_key(#[trigger] old_out[i].0@)
                && old_out[i].1.model() == to_untyped_model(model[old_out[i].0@]),
    ensures
        forall|i: int|
            0 <= i < old_out.insert(p, pair).len() ==> model.contains_key(
                #[trigger] old_out.insert(p, pair)[i].0@,
            ) && old_out.insert(p, pair)[i].1.model() == to_untyped_model(
                model[old_out.insert(p, pair)[i].0@],
            ),
{
    let new_out = old_out.insert(p, pair);
    assert forall|i: int| 0 <= i < new_out.len() implies model.contains_key(
        #[trigger] new_out[i].0@,
    ) && new_out[i].1.model() == to_untyped_model(model[new_out[i].0@]) by {
        if i < p {
            assert(new_out[i] == old_out[i]);
        } else if i > p {
            assert(new_out[i] == old_out[i - 1]);
        } else {
            assert(new_out[i] == pair);
        }
    }
}

/// Inserting the pair carrying the next attribute's name places that
/// attribute and keeps the earlier ones placed.
proof fn lemma_insert_complete(
    old_out: Seq<(Attribute, UntypedValue)>,
    entries: Seq<(Attribute, Value)>,
    m: int,
    p: int,
    pair: (Attribute, UntypedValue),
)
    requires
        0 <= m < entries.len(),
        0 <= p <= old_out.len(),
        pair.0@ == entries[m].0@,
        placed_complete(old_out, entries, m),
    ensures
        placed_complete(old_out.insert(p, pair), entries, m + 1),
{
    reveal(placed_complete);
    let new_out = old_out.insert(p, pair);
    assert forall|mm: int| #![trigger entries[mm]] 0 <= mm < m + 1 implies exists|i: int|
        0 <= i < new_out.len() && (#[trigger] new_out[i].0@) == entries[mm].0@ by {
        if mm == m {
            assert(new_out[p] == pair);
            assert(new_out[p].0@ == entries[m].0@);
        } else {
            let i = choose|i: int|
                0 <= i < old_out.len() && (#[trigger] old_out[i].0@) == entries[mm].0@;
            if i < p {
                assert(new_out[i] == old_out[i]);
                assert(new_out[i].0@ == entries[mm].0@);
            } else {
                assert(new_out[i + 1] == old_out[i]);
                assert(new_out[i + 1].0@ == entries[mm].0@);
            }
        }
    }
}

/// Inserting the pair carrying the next attribute's name keeps every placed
/// pair carrying a placed attribute's name.
proof fn lemma_insert_origin(
    old_out: Seq<(Attribute, UntypedValue)>,
    entries: Seq<(Attribute, Value)>,
    m: int,
    p: int,
    pair: (Attribute, UntypedValue),
)
    requires
        0 <= m < entries.len(),
        0 <= p <= old_out.len(),
        pair.0@ == entries[m].0@,
        placed_origin(old_out, entries, m),
    ensures
        placed_origin(old_out.insert(p, pair), entries, m + 1),
{
    reveal(placed_origin);
    let new_out = old_out.insert(p, pair);
    assert forall|i: int| #![trigger new_out[i]] 0 <= i < new_out.len() implies exists|mm: int|
        0 <= mm < m + 1 && (#[trigger] entries[mm].0@) == new_out[i].0@ by {
        if i < p {
            assert(new_out[i] == old_out[i]);
            let mm = choose|mm: int|
                0 <= mm < m && (#[trigger] entries[mm].0@) == old_out[i].0@;
            assert(entries[mm].0@ == new_out[i].0@);
        } else if i == p {
            assert(new_out[i] == pair);
            assert(entries[m].0@ == new_out[i].0@);
        } else {
            assert(new_out[i] == old_out[i - 1]);
            let mm = choose|mm: int|
                0 <= mm < m && (#[trigger] entries[mm].0@) == old_out[i - 1].0@;
            assert(entries[mm].0@ == new_out[i].0@);
        }
    }
}

/// Inserting a pair between the names that come before it and the names it
/// comes before keeps the sequence strictly sorted.
proof fn lemma_insert_sorted(
    old_out: Seq<(Attribute, UntypedValue)>,
    p: int,
    pair: (Attribute, UntypedValue),
)
    requires
        0 <= p <= old_out.len(),
        forall|i: int, j: int|
            0 <= i < j < old_out.len() ==> lex_lt(
                #[trigger] old_out[i].0@,
                #[trigger] old_out[j].0@,
            ),
        forall|q: int| 0 <= q < p ==> lex_lt(#[trigger] old_out[q].0@, pair.0@),
        p < old_out.len() ==> lex_lt(pair.0@, old_out[p].0@),
    ensures
        forall|i: int, j: int|
            0 <= i < j < old_out.insert(p, pair).len() ==> lex_lt(
                #[trigger] old_out.insert(p, pair)[i].0@,
                #[trigger] old_out.insert(p, pair)[j].0@,
            ),
{
    let new_out = old_out.insert(p, pair);
    assert(new_out[p] == pair);
    assert forall|i: int, j: int| 0 <= i < j < new_out.len() implies lex_lt(
        #[trigger] new_out[i].0@,
        #[trigger] new_out[j].0@,
    ) by {
        if j < p {
            assert(new_out[i] == old_out[i] && new_out[j] == old_out[j]);
        } else if i < p && j == p {
            assert(new_out[i] == old_out[i]);
        } else if i < p && j > p {
            assert(new_out[i] == old_out[i] && new_out[j] == old_out[j - 1]);
            assert(lex_lt(old_out[i].0@, old_out[j - 1].0@));
        } else if i == p {
            assert(new_out[j] == old_out[j - 1]);
            assert(p < old_out.len());
            assert(lex_lt(pair.0@, old_out[p].0@));
            if j - 1 > p {
                assert(lex_lt(old_out[p].0@, old_out[j - 1].0@));
                lemma_lex_trans(pair.0@, old_out[p].0@, old_out[j - 1].0@);
            }
        } else {
            assert(new_out[i] == old_out[i - 1] && new_out[j] == old_out[j - 1]);
            assert(lex_lt(old_out[i - 1].0@, old_out[j - 1].0@));
        }
    }
}

/// Placing the next attribute's rendered pair at its sorted position takes
/// the ordered-object construction one attribute further.
proof fn lemma_ordered_step(
    old_out: Seq<(Attribute, UntypedValue)>,
    entries: Seq<(Attribute, Value)>,
    model: Map<Seq<char>, ValueModel>,
    m: int,
    p: int,
    pair: (Attribute, UntypedValue),
)
    requires
        ordered_inv(old_out, entries, model, m),
        0 <= m < entries.len(),
        distinct_keys(entries),
        0 <= p <= old_out.len(),
        pair.0@ == entries[m].0@,
        model.contains_key(pair.0@),
        pair.1.model() == to_untyped_model(model[pair.0@]),
        forall|q: int| 0 <= q < p ==> !lex_lt(pair.0@, #[trigger] old_out[q].0@),
        p < old_out.len() ==> lex_lt(pair.0@, old_out[p].0@),
    ensures
        ordered_inv(old_out.insert(p, pair), entries, model, m + 1),
{
    lemma_prefix_lt(old_out, entries, m, p, pair.0@);
    lemma_insert_values(old_out, model, p, pair);
    lemma_insert_complete(old_out, entries, m, p, pair);
    lemma_insert_origin(old_out, entries, m, p, pair);
    lemma_insert_sorted(old_out, p, pair);
}

/// The position where a pair named `key` belongs in the sorted sequence:
/// the first index whose name comes after `key`.
fn sorted_pos(out: &Vec<(Attribute, UntypedValue)>, key: &str) -> (p: usize)
    ensures
        p <= out@.len(),
        forall|q: int| 0 <= q < p ==> !lex_lt(key@, #[trigger] out@[q].0@),
        p < out@.len() ==> lex_lt(key@, out@[p as int].0@),
{
    let n = out.len();
    let mut p: usize = 0;
    while p < n
        invariant
            p <= n,
            n == out@.len(),
            forall|q: int| 0 <= q < p ==> !lex_lt(key@, #[trigger] out@[q].0@),
        decreases n - p,
    {
        if str_lt(key, out[p].0.as_str()) {
            return p;
        }
        p += 1;
    }
    p
}

/// Every name among the placed pairs that does not come after the name
/// being inserted comes strictly before it: the two differ, because the
/// placed name belongs to an earlier attribute and the attribute names are
/// distinct.
proof fn lemma_prefix_lt(
    out: Seq<(Attribute, UntypedValue)>,
    entries: Seq<(Attribute, Value)>,
    m: int,
    p: int,
    key: Seq<char>,
)
    requires
        0 <= m < entries.len(),
        0 <= p <= out.len(),
        distinct_keys(entries),
        key == entries[m].0@,
        placed_origin(out, entries, m),
        forall|q: int| 0 <= q < p ==> !lex_lt(key, #[trigger] out[q].0@),
    ensures
        forall|q: int| 0 <= q < p ==> lex_lt(#[trigger] out[q].0@, key),
{
    reveal(placed_origin);
    assert forall|q: int| 0 <= q < p implies lex_lt(#[trigger] out[q].0@, key) by {
        let mq = choose|mm: int| 0 <= mm < m && (#[trigger] entries[mm].0@) == out[q].0@;
        assert(entries[mq].0@ != entries[m].0@);
        lemma_lex_total(out[q].0@, key);
    }
}


/// An entity: a mapping from attribute names to typed values, represented as a
/// sequence of pairs with distinct names. Its mathematical content is
/// `self.model()`, a finite map.
#[derive(Debug, PartialEq)]
pub struct Entity {
    entries: Vec<(Attribute, Value)>,
}

impl Entity {
    /// The names of this entity's attributes are distinct.
    pub closed spec fn wf(&self) -> bool {
        distinct_keys(self.entries@)
    }

    /// The mapping from attribute names to value shapes that this entity
    /// denotes.
    pub closed spec fn model(&self) -> Map<Seq<char>, ValueModel> {
        map_of(self.entries@)
    }

    /// Creates a new entity with no attributes set.
    pub fn new() -> (r: Entity)
        ensures
            r.wf(),
            r.model() == Map::<Seq<char>, ValueModel>::empty(),
    {
        Entity { entries: Vec::new() }
    }

    /// The index of the pair carrying `key`, if any.
    fn find(&self, key: &str) -> (r: Option<usize>)
        ensures
            match r {
                Some(i) => i < self.entries@.len() && self.entries@[i as int].0@ == key@,
                None => forall|i: int|
                    0 <= i < self.entries@.len() ==> (#[trigger] self.entries@[i].0@) != key@,
            },
    {
        let n = self.entries.len();
        let mut i: usize = 0;
        while i < n
            invariant
                i <= n,
                n == self.entries@.len(),
                forall|j: int| 0 <= j < i ==> (#[trigger] self.entries@[j].0@) != key@,
            decreases n - i,
        {
            if str_eq(self.entries[i].0.as_str(), key) {
                return Some(i);
            }
            i += 1;
        }
        None
    }

    /// The value stored under `key`, if any.
    pub fn get(&self, key: &str) -> (r: Option<&Value>)
        requires
            self.wf(),
        ensures
            match r {
                Some(v) => self.model().contains_key(key@) && v.model() == self.model()[key@],
                None => !self.model().contains_key(key@),
            },
    {
        proof {
            lemma_map_of_contains(self.entries@, key@);
        }
        match self.find(key) {
            Some(i) => {
                proof {
                    lemma_map_of_get(self.entries@, i as int);
                }
                Some(&self.entries[i].1)
            },
            None => None,
        }
    }

    /// Stores `value` under `key`, overwriting any value stored there.
    pub fn set(&mut self, key: Attribute, value: Value)
        requires
            old(self).wf(),
        ensures
            final(self).wf(),
            final(self).model() == old(self).model().insert(key@, value.model()),
    {
        let ghost m0 = self.model();
        match self.find(key.as_str()) {
            Some(i) => {
                proof {
                    lemma_map_of_remove(self.entries@, i as int);
                }
                let _ = self.entries.remove(i);
                proof {
                    lemma_map_of_contains(self.entries@, key@);
                    assert(map_of(self.entries@.push((key, value))) == map_of(
                        self.entries@,
                    ).insert(key@, value.model())) by {
                        assert(self.entries@.push((key, value)).drop_last() =~= self.entries@);
                    }
                    assert(m0.remove(key@).insert(key@, value.model()) =~= m0.insert(
                        key@,
                        value.model(),
                    ));
                    assert forall|x: int, y: int|
                        0 <= x < y < self.entries@.push((key, value)).len() implies (
                    #[trigger] self.entries@.push((key, value))[x].0@) != (
                    #[trigger] self.entries@.push((key, value))[y].0@) by {
                        if y < self.entries@.len() {
                            assert(self.entries@.push((key, value))[x] == self.entries@[x]);
                            assert(self.entries@.push((key, value))[y] == self.entries@[y]);
                        } else {
                            assert(self.entries@.push((key, value))[x] == self.entries@[x]);
                        }
                    }
                }
                self.entries.push((key, value));
            },
            None => {
                proof {
                    lemma_map_of_contains(self.entries@, key@);
                    assert(map_of(self.entries@.push((key, value))) == map_of(
                        self.entries@,
                    ).insert(key@, value.model())) by {
                        assert(self.entries@.push((key, value)).drop_last() =~= self.entries@);
                    }
                    assert forall|x: int, y: int|
                        0 <= x < y < self.entries@.push((key, value)).len() implies (
                    #[trigger] self.entries@.push((key, value))[x].0@) != (
                    #[trigger] self.entries@.push((key, value))[y].0@) by {
                        if y < self.entries@.len() {
                            assert(self.entries@.push((key, value))[x] == self.entries@[x]);
                            assert(self.entries@.push((key, value))[y] == self.entries@[y]);
                        } else {
                            assert(self.entries@.push((key, value))[x] == self.entries@[x]);
                        }
                    }
                }
                self.entries.push((key, value));
            },
        }
    }

    /// Removes the value stored under `key`; a no-op if the key is absent.
    pub fn remove(&mut self, key: &str)
        requires
            old(self).wf(),
        ensures
            final(self).wf(),
            final(self).model() == old(self).model().remove(key@),
    {
        match self.find(key) {
            Some(i) => {
                proof {
                    lemma_map_of_remove(self.entries@, i as int);
                }
                let _ = self.entries.remove(i);
            },
            None => {
                proof {
                    lemma_map_of_contains(self.entries@, key@);
                    assert(self.model().remove(key@) =~= self.model());
                }
            },
        }
    }

    /// Builds an entity from a sequence of attribute/value pairs; a later
    /// pair overwrites an earlier one with the same name.
    pub fn from_entries(entries: Vec<(Attribute, Value)>) -> (r: Entity)
        ensures
            r.wf(),
            r.model() == map_of(entries@),
    {
        let ghost orig = entries@;
        let mut rest = entries;
        let mut r = Entity::new();
        while rest.len() > 0
            invariant
                r.wf(),
                rest@.len() <= orig.len(),
                rest@ =~= orig.skip(orig.len() - rest@.len()),
                r.model() == map_of(orig.take(orig.len() - rest@.len())),
            decreases rest@.len(),
        {
            let ghost j = orig.len() - rest@.len();
            let pair = rest.remove(0);
            proof {
                assert(orig.skip(j as int)[0] == orig[j as int]);
                assert(rest@ =~= orig.skip(j as int).remove(0));
                assert(orig.skip(j as int).remove(0) =~= orig.skip(j + 1));
                assert(orig.take(j + 1).drop_last() =~= orig.take(j as int));
                assert(orig.take(j + 1).last() == orig[j as int]);
            }
            let (key, value) = pair;
            r.set(key, value);
        }
        proof {
            assert(orig.take(orig.len() - rest@.len()) =~= orig);
        }
        r
    }

    /// Merges an entity update `update` into this entity.
    ///
    /// If a key exists in both entities, the value from `update` is chosen.
    /// If a key only exists on one entity, the value from that entity is
    /// chosen. If a key is set to `Value::Null` in `update`, the key/value
    /// pair is removed.
    pub fn merge(&mut self, update: Entity)
        requires
            old(self).wf(),
            update.wf(),
        ensures
            final(self).wf(),
            final(self).model() == merged(old(self).model(), update.model()),
    {
        let ghost goal = merged(old(self).model(), update.model());
        let Entity { entries: mut rest } = update;
        while rest.len() > 0
            invariant
                self.wf(),
                distinct_keys(rest@),
                merged(self.model(), map_of(rest@)) == goal,
            decreases rest@.len(),
        {
            let ghost before = rest@;
            let pair = rest.pop();
            match pair {
                Some((key, value)) => {
                    proof {
                        assert(rest@ =~= before.drop_last());
                        assert(map_of(before) == map_of(rest@).insert(key@, value.model()));
                        lemma_map_of_contains(rest@, key@);
                        assert(!map_of(rest@).dom().contains(key@)) by {
                            if exists|i: int| 0 <= i < rest@.len() && (#[trigger] rest@[i].0@)
                                == key@ {
                                let i = choose|i: int|
                                    0 <= i < rest@.len() && (#[trigger] rest@[i].0@) == key@;
                                assert(before[i].0@ == before[before.len() - 1].0@);
                            }
                        }
                        lemma_merged_step(self.model(), map_of(rest@), key@, value.model());
                    }
                    if matches!(value, Value::Null) {
                        self.remove(key.as_str());
                    } else {
                        self.set(key, value);
                    }
                },
                None => {},
            }
        }
        proof {
            lemma_merge_empty(self.model());
        }
    }

    /// Converts every attribute/value pair to its untyped rendering and
    /// orders the result by attribute name in lexicographic code-point
    /// order, so the output is deterministic regardless of insertion order:
    /// every output pair renders an attribute of the entity, every
    /// attribute of the entity appears, and the names are strictly
    /// increasing.
    #[verifier::rlimit(100)]
    #[verifier::spinoff_prover]
    pub fn to_ordered_object(&self) -> (r: Vec<(Attribute, UntypedValue)>)
        requires
            self.wf(),
        ensures
            forall|i: int|
                0 <= i < r@.len() ==> self.model().contains_key(#[trigger] r@[i].0@)
                    && r@[i].1.model() == to_untyped_model(self.model()[r@[i].0@]),
            forall|k: Seq<char>|
                self.model().contains_key(k) ==> exists|i: int|
                    0 <= i < r@.len() && (#[trigger] r@[i].0@) == k,
            forall|i: int, j: int|
                0 <= i < j < r@.len() ==> lex_lt(#[trigger] r@[i].0@, #[trigger] r@[j].0@),
    {
        let n = self.entries.len();
        let mut out: Vec<(Attribute, UntypedValue)> = Vec::new();
        proof {
            lemma_ordered_empty(self.entries@, self.model());
            assert(out@ =~= Seq::<(Attribute, UntypedValue)>::empty());
        }
        let mut m: usize = 0;
        while m < n
            invariant
                m <= n,
                n == self.entries@.len(),
                self.wf(),
                ordered_inv(out@, self.entries@, self.model(), m as int),
            decreases n - m,
        {
            let key = self.entries[m].0.clone();
            let uv = self.entries[m].1.to_query_value();
            proof {
                lemma_map_of_get(self.entries@, m as int);
            }
            let p = sorted_pos(&out, key.as_str());
            let ghost old_out = out@;
            out.insert(p, (key, uv));
            proof {
                lemma_ordered_step(
                    old_out,
                    self.entries@,
                    self.model(),
                    m as int,
                    p as int,
                    (key, uv),
                );
                assert(out@ == old_out.insert(p as int, (key, uv)));
            }
            m += 1;
        }
        proof {
            reveal(placed_complete);
            assert forall|k: Seq<char>| self.model().contains_key(k) implies exists|i: int|
                0 <= i < out@.len() && (#[trigger] out@[i].0@) == k by {
                lemma_map_of_contains(self.entries@, k);
                let mm = choose|i: int|
                    0 <= i < self.entries@.len() && (#[trigger] self.entries@[i].0@) == k;
                let i = choose|i: int|
                    0 <= i < out@.len() && (#[trigger] out@[i].0@) == self.entries@[mm].0@;
                assert(out@[i].0@ == k);
            }
        }
        out
    }
}

} // verus!
