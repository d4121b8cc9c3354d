//! Tables and sets with texts as keys.
use crate::text::same_text;
use vstd::prelude::*;

verus! {

/// A table from texts to values. Rows keep the order in which their keys first came.
#[derive(Debug)]
pub struct Table<V> {
    rows: Vec<(String, V)>,
}

/// The map that rows stand for.
pub open spec fn map_of<V>(rows: Seq<(Seq<char>, V)>) -> Map<Seq<char>, V>
    decreases rows.len(),
{
    if rows.len() == 0 {
        Map::empty()
    } else {
        map_of(rows.drop_last()).insert(rows.last().0, rows.last().1)
    }
}

/// Whether no two rows have the same key.
pub open spec fn keys_distinct<V>(rows: Seq<(Seq<char>, V)>) -> bool {
    forall|i: int, j: int|
        0 <= i < j < rows.len() ==> (#[trigger] rows[i]).0 != (#[trigger] rows[j]).0
}

/// The rows as values.
pub open spec fn row_views<V>(rows: Seq<(String, V)>) -> Seq<(Seq<char>, V)> {
    rows.map_values(|r: (String, V)| (r.0@, r.1))
}

/// A key is in the map where some row has it.
pub proof fn lemma_map_of_contains<V>(rows: Seq<(Seq<char>, V)>, k: Seq<char>)
    ensures
        map_of(rows).contains_key(k) <==> exists|i: int|
            0 <= i < rows.len() && (#[trigger] rows[i]).0 == k,
        map_of(rows).dom().finite(),
    decreases rows.len(),
{
    if rows.len() > 0 {
        let t = rows.drop_last();
        lemma_map_of_contains(t, k);
        if map_of(rows).contains_key(k) {
            if rows.last().0 == k {
                assert(rows[rows.len() - 1].0 == k);
            } else {
                let i = choose|i: int| 0 <= i < t.len() && (#[trigger] t[i]).0 == k;
                assert(rows[i].0 == k);
            }
        }
        if exists|i: int| 0 <= i < rows.len() && (#[trigger] rows[i]).0 == k {
            let i = choose|i: int| 0 <= i < rows.len() && (#[trigger] rows[i]).0 == k;
            if i < t.len() {
                assert(t[i].0 == k);
            }
        }
    }
}

/// With distinct keys each row is what the map holds.
pub proof fn lemma_map_of_row<V>(rows: Seq<(Seq<char>, V)>, i: int)
    requires
        keys_distinct(rows),
        0 <= i < rows.len(),
    ensures
        map_of(rows).contains_key(rows[i].0),
        map_of(rows)[rows[i].0] == rows[i].1,
    decreases rows.len(),
{
    if i < rows.len() - 1 {
        let t = rows.drop_last();
        assert(keys_distinct(t)) by {
            assert forall|a: int, b: int| 0 <= a < b < t.len() implies (#[trigger] t[a]).0 != (
            #[trigger] t[b]).0 by {
                assert(rows[a].0 != rows[b].0);
            }
        }
        lemma_map_of_row(t, i);
        assert(rows[i].0 != rows[rows.len() - 1].0);
    }
}

/// Replacing the value of a row replaces it in the map.
proof fn lemma_map_of_update<V>(rows: Seq<(Seq<char>, V)>, i: int, v: V)
    requires
        keys_distinct(rows),
        0 <= i < rows.len(),
    ensures
        map_of(rows.update(i, (rows[i].0, v))) == map_of(rows).insert(rows[i].0, v),
        keys_distinct(rows.update(i, (rows[i].0, v))),
    decreases rows.len(),
{
    let after = rows.update(i, (rows[i].0, v));
    assert forall|a: int, b: int| 0 <= a < b < after.len() implies (#[trigger] after[a]).0 != (
    #[trigger] after[b]).0 by {
        assert(rows[a].0 != rows[b].0);
    }
    let t = rows.drop_last();
    if i == rows.len() - 1 {
        assert(after.drop_last() == t);
        assert(map_of(after) == map_of(rows).insert(rows[i].0, v));
    } else {
        assert(keys_distinct(t)) by {
            assert forall|a: int, b: int| 0 <= a < b < t.len() implies (#[trigger] t[a]).0 != (
            #[trigger] t[b]).0 by {
                assert(rows[a].0 != rows[b].0);
            }
        }
        lemma_map_of_update(t, i, v);
        assert(after.drop_last() == t.update(i, (t[i].0, v)));
        assert(rows[i].0 != rows[rows.len() - 1].0);
        assert(map_of(after) == map_of(rows).insert(rows[i].0, v));
    }
}

/// Leaving a row out removes its key from the map.
proof fn lemma_map_of_remove<V>(rows: Seq<(Seq<char>, V)>, i: int)
    requires
        keys_distinct(rows),
        0 <= i < rows.len(),
    ensures
        map_of(rows.remove(i)) == map_of(rows).remove(rows[i].0),
        keys_distinct(rows.remove(i)),
    decreases rows.len(),
{
    let after = rows.remove(i);
    assert forall|a: int, b: int| 0 <= a < b < after.len() implies (#[trigger] after[a]).0 != (
    #[trigger] after[b]).0 by {
        let a2 = if a < i {
            a
        } else {
            a + 1
        };
        let b2 = if b < i {
            b
        } else {
            b + 1
        };
        assert(rows[a2].0 != rows[b2].0);
    }
    let t = rows.drop_last();
    assert(keys_distinct(t)) by {
        assert forall|a: int, b: int| 0 <= a < b < t.len() implies (#[trigger] t[a]).0 != (
        #[trigger] t[b]).0 by {
            assert(rows[a].0 != rows[b].0);
        }
    }
    if i == rows.len() - 1 {
        assert(after == t);
        lemma_map_of_contains(t, rows[i].0);
        if map_of(t).contains_key(rows[i].0) {
            let j = choose|j: int| 0 <= j < t.len() && (#[trigger] t[j]).0 == rows[i].0;
            assert(rows[j].0 != rows[i].0);
        }
        assert(map_of(after) == map_of(rows).remove(rows[i].0));
    } else {
        lemma_map_of_remove(t, i);
        assert(after.drop_last() == t.remove(i));
        assert(rows[i].0 != rows[rows.len() - 1].0);
        assert(map_of(after) == map_of(rows).remove(rows[i].0));
    }
}

impl<V> View for Table<V> {
    type V = Map<Seq<char>, V>;

    closed spec fn view(&self) -> Map<Seq<char>, V> {
        map_of(row_views(self.rows@))
    }
}

impl<V> Table<V> {
    /// The rows, in order.
    pub closed spec fn row_seq(&self) -> Seq<(Seq<char>, V)> {
        row_views(self.rows@)
    }

    /// Whether the keys are distinct and the rows stand for the map.
    pub open spec fn wf(&self) -> bool {
        keys_distinct(self.row_seq()) && self@ == map_of(self.row_seq())
    }

    /// An empty table.
    pub fn new() -> (r: Table<V>)
        ensures
            r.wf(),
            r@ == Map::<Seq<char>, V>::empty(),
            r.row_seq() == Seq::<(Seq<char>, V)>::empty(),
    {
        let r = Table { rows: Vec::new() };
        assert(row_views(r.rows@) == Seq::<(Seq<char>, V)>::empty());
        r
    }

    /// The number of rows.
    pub fn len(&self) -> (n: usize)
        ensures
            n == self.row_seq().len(),
    {
        self.rows.len()
    }

    /// The key of a row.
    pub fn key(&self, i: usize) -> (k: &String)
        requires
            i < self.row_seq().len(),
        ensures
            k@ == self.row_seq()[i as int].0,
    {
        &self.rows[i].0
    }

    /// The value of a row.
    pub fn value(&self, i: usize) -> (v: &V)
        requires
            i < self.row_seq().len(),
        ensures
            *v == self.row_seq()[i as int].1,
    {
        &self.rows[i].1
    }

    fn find(&self, k: &str) -> (r: Option<usize>)
        ensures
            match r {
                Some(i) => i < self.rows@.len() && self.row_seq()[i as int].0 == k@,
                None => forall|i: int|
                    0 <= i < self.row_seq().len() ==> (#[trigger] self.row_seq()[i]).0 != k@,
            },
    {
        let mut i: usize = 0;
        while i < self.rows.len()
            invariant
                i <= self.rows@.len(),
                forall|j: int| 0 <= j < i ==> (#[trigger] self.row_seq()[j]).0 != k@,
            decreases self.rows@.len() - i,
        {
            if same_text(&self.rows[i].0, k) {
                return Some(i);
            }
            i += 1;
        }
        None
    }

    /// The value of a key.
    pub fn get(&self, k: &str) -> (r: Option<&V>)
        requires
            self.wf(),
        ensures
            match r {
                Some(v) => self@.contains_key(k@) && *v == self@[k@],
                None => !self@.contains_key(k@),
            },
    {
        proof {
            lemma_map_of_contains(self.row_seq(), k@);
        }
        match self.find(k) {
            Some(i) => {
                proof {
                    lemma_map_of_row(self.row_seq(), i as int);
                }
                Some(&self.rows[i].1)
            },
            None => None,
        }
    }

    /// Whether a key has a value.
    pub fn contains_key(&self, k: &str) -> (r: bool)
        requires
            self.wf(),
        ensures
            r == self@.contains_key(k@),
    {
        self.get(k).is_some()
    }

    /// Set the value of a key.
    pub fn insert(&mut self, k: String, v: V)
        requires
            old(self).wf(),
        ensures
            final(self).wf(),
            final(self)@ == old(self)@.insert(k@, v),
    {
        match self.find(&k) {
            Some(i) => {
                let ghost before = self.row_seq();
                proof {
                    lemma_map_of_update(before, i as int, v);
                }
                self.rows[i].1 = v;
                assert(self.row_seq() == before.update(i as int, (before[i as int].0, v)));
            },
            None => {
                let ghost before = self.row_seq();
                let ghost key = k@;
                self.rows.push((k, v));
                proof {
                    let after = self.row_seq();
                    assert(after == before.push((key, v)));
                    assert(after.drop_last() == before);
                    assert forall|a: int, b: int| 0 <= a < b < after.len() implies (
                    #[trigger] after[a]).0 != (#[trigger] after[b]).0 by {
                        if b < before.len() {
                            assert(before[a].0 != before[b].0);
                        } else {
                            assert(before[a].0 != key);
                        }
                    }
                }
            },
        }
    }

    /// Remove a key.
    pub fn remove(&mut self, k: &str)
        requires
            old(self).wf(),
        ensures
            final(self).wf(),
            final(self)@ == old(self)@.remove(k@),
    {
        proof {
            lemma_map_of_contains(self.row_seq(), k@);
        }
        match self.find(k) {
            Some(i) => {
                let ghost before = self.row_seq();
                proof {
                    lemma_map_of_remove(before, i as int);
                }
                let _ = self.rows.remove(i);
                assert(self.row_seq() == before.remove(i as int));
            },
            None => {
                assert(self@.remove(k@) == self@);
            },
        }
    }
}

/// The set of texts in a list.
pub open spec fn text_set(texts: Seq<String>) -> Set<Seq<char>> {
    texts.map_values(|t: String| t@).to_set()
}

impl<V> Table<V> {
    /// Remove all of the given keys.
    pub fn remove_all(&mut self, keys: &Vec<String>)
        requires
            old(self).wf(),
        ensures
            final(self).wf(),
            final(self)@ == old(self)@.remove_keys(text_set(keys@)),
    {
        let ghost views = keys@.map_values(|t: String| t@);
        let ghost start = self@;
        let mut i: usize = 0;
        assert(start.remove_keys(views.take(0).to_set()) == start);
        while i < keys.len()
            invariant
                self.wf(),
                views == keys@.map_values(|t: String| t@),
                i <= keys@.len(),
                self@ == start.remove_keys(views.take(i as int).to_set()),
            decreases keys@.len() - i,
        {
            self.remove(&keys[i]);
            proof {
                let before = views.take(i as int);
                let after = views.take(i + 1);
                let key = keys@[i as int]@;
                assert forall|s: Seq<char>| #[trigger] after.to_set().contains(s) <==> (
                before.to_set().contains(s) || s == key) by {
                    if before.to_set().contains(s) {
                        let j = choose|j: int| 0 <= j < before.len() && before[j] == s;
                        assert(after[j] == s);
                    }
                    assert(after[i as int] == key);
                    if after.to_set().contains(s) && s != key {
                        let j = choose|j: int| 0 <= j < after.len() && after[j] == s;
                        assert(before[j] == s);
                    }
                }
                assert(self@ == start.remove_keys(after.to_set()));
            }
            i += 1;
        }
        assert(views.take(views.len() as int) == views);
    }
}

impl<V: Copy> Table<V> {
    /// A copy of the table.
    pub fn duplicate(&self) -> (r: Table<V>)
        requires
            self.wf(),
        ensures
            r.wf(),
            r@ == self@,
            r.row_seq() == self.row_seq(),
    {
        let mut rows: Vec<(String, V)> = Vec::new();
        let mut i: usize = 0;
        while i < self.rows.len()
            invariant
                i <= self.rows@.len(),
                row_views(rows@) == self.row_seq().take(i as int),
            decreases self.rows@.len() - i,
        {
            let ghost before = rows@;
            let key = self.rows[i].0.clone();
            let value = self.rows[i].1;
            rows.push((key, value));
            assert(row_views(rows@) == row_views(before).push((key@, value)));
            assert(self.row_seq().take(i + 1) == self.row_seq().take(i as int).push(
                self.row_seq()[i as int],
            ));
            i += 1;
        }
        assert(self.row_seq().take(i as int) == self.row_seq());
        Table { rows }
    }
}

/// A set of texts.
#[derive(Debug)]
pub struct TextSet {
    items: Table<()>,
}

impl View for TextSet {
    type V = Set<Seq<char>>;

    closed spec fn view(&self) -> Set<Seq<char>> {
        self.items@.dom()
    }
}

impl TextSet {
    /// Whether no text is held twice.
    pub closed spec fn wf(&self) -> bool {
        self.items.wf()
    }

    /// The texts, in order.
    pub closed spec fn item_seq(&self) -> Seq<Seq<char>> {
        self.items.row_seq().map_values(|r: (Seq<char>, ())| r.0)
    }

    /// The empty set.
    pub fn new() -> (r: TextSet)
        ensures
            r.wf(),
            r@ == Set::<Seq<char>>::empty(),
            r.item_seq() == Seq::<Seq<char>>::empty(),
    {
        let r = TextSet { items: Table::new() };
        assert(r@ == Set::<Seq<char>>::empty());
        assert(r.item_seq() == Seq::<Seq<char>>::empty());
        r
    }

    /// The number of texts.
    pub fn len(&self) -> (n: usize)
        ensures
            n == self.item_seq().len(),
    {
        self.items.len()
    }

    /// A text by its place.
    pub fn item(&self, i: usize) -> (s: &String)
        requires
            i < self.item_seq().len(),
        ensures
            s@ == self.item_seq()[i as int],
    {
        self.items.key(i)
    }

    /// Whether a text is in the set.
    pub fn contains(&self, s: &str) -> (r: bool)
        requires
            self.wf(),
        ensures
            r == self@.contains(s@),
    {
        self.items.contains_key(s)
    }

    /// Remove a text.
    pub fn remove(&mut self, s: &str)
        requires
            old(self).wf(),
        ensures
            final(self).wf(),
            final(self)@ == old(self)@.remove(s@),
    {
        self.items.remove(s);
        assert(self@ == old(self)@.remove(s@));
    }

    /// A copy of the set.
    pub fn duplicate(&self) -> (r: TextSet)
        requires
            self.wf(),
        ensures
            r.wf(),
            r@ == self@,
            r.item_seq() == self.item_seq(),
    {
        TextSet { items: self.items.duplicate() }
    }

    /// The set holds the texts of its sequence and no others.
    pub proof fn lemma_items(&self, s: Seq<char>)
        requires
            self.wf(),
        ensures
            self@.contains(s) <==> exists|i: int|
                0 <= i < self.item_seq().len() && #[trigger] self.item_seq()[i] == s,
            self@.finite(),
    {
        let rows = self.items.row_seq();
        lemma_map_of_contains(rows, s);
        if self@.contains(s) {
            let i = choose|i: int| 0 <= i < rows.len() && (#[trigger] rows[i]).0 == s;
            assert(self.item_seq()[i] == s);
        }
        if exists|i: int| 0 <= i < self.item_seq().len() && #[trigger] self.item_seq()[i] == s {
            let i = choose|i: int|
                0 <= i < self.item_seq().len() && #[trigger] self.item_seq()[i] == s;
            assert(rows[i].0 == s);
        }
    }

    /// Add a text.
    pub fn insert(&mut self, s: String)
        requires
            old(self).wf(),
        ensures
            final(self).wf(),
            final(self)@ == old(self)@.insert(s@),
    {
        let ghost k = s@;
        self.items.insert(s, ());
        assert(self@ == old(self)@.insert(k));
    }
}

} // verus!
