//! Values under names, each name at most once, and names in order.
use vstd::prelude::*;
use crate::text;
use crate::text::{chars_of, owned, same_chars};

verus! {

/// Whether one text comes before another, or is the same: by the first character in which they
/// differ.
pub open spec fn text_le(a: Seq<char>, b: Seq<char>) -> bool
    decreases a.len(),
{
    if a.len() == 0 {
        true
    } else if b.len() == 0 {
        false
    } else if a[0] != b[0] {
        a[0] < b[0]
    } else {
        text_le(a.skip(1), b.skip(1))
    }
}

/// The order of texts as a relation.
pub open spec fn text_order() -> spec_fn(Seq<char>, Seq<char>) -> bool {
    |a: Seq<char>, b: Seq<char>| text_le(a, b)
}

proof fn lemma_le_both(a: Seq<char>, b: Seq<char>)
    ensures
        text_le(a, b) || text_le(b, a),
        text_le(a, b) && text_le(b, a) ==> a == b,
        text_le(a, a),
    decreases a.len(),
{
    if a.len() > 0 && b.len() > 0 {
        lemma_le_both(a.skip(1), b.skip(1));
        if text_le(a, b) && text_le(b, a) {
            assert(a =~= seq![a[0]] + a.skip(1));
            assert(b =~= seq![b[0]] + b.skip(1));
        }
    } else if a.len() > 0 {
        lemma_le_both(a.skip(1), a.skip(1));
    } else if b.len() == 0 {
        assert(a =~= b);
    }
}

proof fn lemma_le_transitive(a: Seq<char>, b: Seq<char>, c: Seq<char>)
    requires
        text_le(a, b),
        text_le(b, c),
    ensures
        text_le(a, c),
    decreases a.len(),
{
    if a.len() > 0 && b.len() > 0 && c.len() > 0 && a[0] == b[0] && b[0] == c[0] {
        lemma_le_transitive(a.skip(1), b.skip(1), c.skip(1));
    }
}

/// The order of texts is a total order.
pub proof fn lemma_text_order()
    ensures
        vstd::relations::total_ordering(text_order()),
{
    let r = text_order();
    assert forall|x: Seq<char>| #[trigger] r(x, x) by {
        lemma_le_both(x, x);
    }
    assert forall|x: Seq<char>, y: Seq<char>| #[trigger] r(x, y) && #[trigger] r(y, x) implies x
        == y by {
        lemma_le_both(x, y);
    }
    assert forall|x: Seq<char>, y: Seq<char>, z: Seq<char>| #[trigger]
        r(x, y) && #[trigger] r(y, z) implies r(x, z) by {
        lemma_le_transitive(x, y, z);
    }
    assert forall|x: Seq<char>, y: Seq<char>| #[trigger] r(x, y) || #[trigger] r(y, x) by {
        lemma_le_both(x, y);
    }
}

/// Whether one text comes before another, or is the same.
pub fn is_le(a: &[char], b: &[char]) -> (r: bool)
    ensures
        r == text_le(a@, b@),
{
    let mut i: usize = 0;
    assert(a@.skip(0) =~= a@);
    assert(b@.skip(0) =~= b@);
    while i < a.len() && i < b.len()
        invariant
            i <= a@.len(),
            i <= b@.len(),
            text_le(a@, b@) == text_le(a@.skip(i as int), b@.skip(i as int)),
        decreases a@.len() - i,
    {
        assert(a@.skip(i as int)[0] == a@[i as int]);
        assert(b@.skip(i as int)[0] == b@[i as int]);
        if a[i] != b[i] {
            return a[i] < b[i];
        }
        assert(a@.skip(i as int).skip(1) =~= a@.skip(i + 1));
        assert(b@.skip(i as int).skip(1) =~= b@.skip(i + 1));
        i = i + 1;
    }
    i == a.len()
}

/// The texts in order.
pub open spec fn ordered(s: Seq<Seq<char>>) -> Seq<Seq<char>> {
    s.sort_by(text_order())
}

/// A sorted arrangement of texts is the one that `ordered` gives.
pub proof fn lemma_ordered_unique(s: Seq<Seq<char>>, r: Seq<Seq<char>>)
    requires
        vstd::relations::sorted_by(r, text_order()),
        r.to_multiset() == s.to_multiset(),
    ensures
        r == ordered(s),
{
    lemma_text_order();
    s.lemma_sort_by_ensures(text_order());
    vstd::seq_lib::lemma_sorted_unique(r, ordered(s), text_order());
}

/// Puts one more text in its place among sorted texts.
fn place(sorted: &mut Vec<Vec<char>>, item: Vec<char>)
    requires
        vstd::relations::sorted_by(text::views(old(sorted)@), text_order()),
    ensures
        vstd::relations::sorted_by(text::views(final(sorted)@), text_order()),
        text::views(final(sorted)@).to_multiset() == text::views(old(sorted)@).to_multiset().insert(
            item@,
        ),
{
    let ghost before = text::views(sorted@);
    let n: usize = sorted.len();
    let mut i: usize = n;
    while i > 0 && !is_le(&sorted[i - 1], &item)
        invariant
            i <= n,
            n == sorted@.len(),
            before == text::views(sorted@),
            forall|j: int| i <= j < n ==> !text_le(#[trigger] before[j], item@),
        decreases i,
    {
        i = i - 1;
        assert(before[i as int] == sorted@[i as int]@);
    }
    let ghost it = item@;
    proof {
        lemma_text_order();
        let r = text_order();
        if i > 0 {
            assert(before[i - 1] == sorted@[i - 1]@);
            assert forall|j: int| 0 <= j < i implies text_le(#[trigger] before[j], it) by {
                if j < i - 1 {
                    assert(r(before[j], before[i - 1]));
                    assert(r(before[i - 1], it));
                }
            }
        }
        assert forall|j: int| i <= j < n implies text_le(it, #[trigger] before[j]) by {
            assert(r(it, before[j]) || r(before[j], it));
        }
        vstd::seq_lib::to_multiset_insert(before, i as int, it);
    }
    sorted.insert(i, item);
    proof {
        let after = text::views(sorted@);
        assert(after =~= before.insert(i as int, it));
        let r = text_order();
        assert forall|a: int, b: int| 0 <= a < b < after.len() implies #[trigger] r(
            after[a],
            after[b],
        ) by {
            let aa = if a < i {
                a
            } else {
                a - 1
            };
            let bb = if b < i {
                b
            } else {
                b - 1
            };
            if a != i && b != i {
                assert(r(before[aa], before[bb]));
            } else if a == i {
                assert(after[b] == before[b - 1]);
            } else {
                assert(after[a] == before[a]);
            }
        }
    }
}

/// The texts in order.
pub fn sort_texts(v: &[Vec<char>]) -> (r: Vec<Vec<char>>)
    ensures
        text::views(r@) == ordered(text::views(v@)),
{
    let mut r: Vec<Vec<char>> = Vec::new();
    let ghost all = text::views(v@);
    proof {
        assert(text::views(r@) =~= all.take(0));
    }
    for i in 0..v.len()
        invariant
            all == text::views(v@),
            vstd::relations::sorted_by(text::views(r@), text_order()),
            text::views(r@).to_multiset() == all.take(i as int).to_multiset(),
    {
        let item = crate::tensor::copy_slice(&v[i]);
        proof {
            assert(all.take(i + 1) =~= all.take(i as int).push(item@));
            vstd::seq_lib::to_multiset_build(all.take(i as int), item@);
        }
        place(&mut r, item);
    }
    proof {
        assert(all.take(all.len() as int) =~= all);
        lemma_ordered_unique(all, text::views(r@));
    }
    r
}

/// Values under names, in the order in which the names came.
#[derive(Debug, Clone)]
pub struct Table<V> {
    pub entries: Vec<(String, V)>,
}

/// The position of a name among entries.
pub open spec fn at_name<V>(entries: Seq<(String, V)>, name: Seq<char>, i: int) -> bool {
    0 <= i < entries.len() && entries[i].0@ == name
}

impl<V> View for Table<V> {
    type V = Map<Seq<char>, V>;

    open spec fn view(&self) -> Map<Seq<char>, V> {
        let entries = self.entries@;
        Map::new(
            |k: Seq<char>| exists|i: int| at_name(entries, k, i),
            |k: Seq<char>| entries[choose|i: int| at_name(entries, k, i)].1,
        )
    }
}

impl<V> Table<V> {
    /// No name occurs twice.
    pub open spec fn wf(&self) -> bool {
        forall|i: int, j: int|
            0 <= i < j < self.entries@.len() ==> (#[trigger] self.entries@[i]).0@ != (
            #[trigger] self.entries@[j]).0@
    }

    /// The names, in the order in which they came.
    pub open spec fn names(&self) -> Seq<Seq<char>> {
        Seq::new(self.entries@.len(), |i: int| self.entries@[i].0@)
    }

    /// What stands at a position is what the table has under that name.
    pub proof fn lemma_at(&self, i: int)
        requires
            self.wf(),
            0 <= i < self.entries@.len(),
        ensures
            self@.dom().contains(self.entries@[i].0@),
            self@[self.entries@[i].0@] == self.entries@[i].1,
    {
        let k = self.entries@[i].0@;
        assert(at_name(self.entries@, k, i));
        let j = choose|j: int| at_name(self.entries@, k, j);
        assert(at_name(self.entries@, k, j));
        assert(i == j);
    }

    /// A name in the table stands at some position.
    pub proof fn lemma_has(&self, k: Seq<char>) -> (i: int)
        requires
            self.wf(),
            self@.dom().contains(k),
        ensures
            0 <= i < self.entries@.len(),
            self.entries@[i].0@ == k,
            self.entries@[i].1 == self@[k],
    {
        let i = choose|i: int| at_name(self.entries@, k, i);
        self.lemma_at(i);
        i
    }

    /// A table without entries.
    pub fn new() -> (r: Self)
        ensures
            r.wf(),
            r@ == Map::<Seq<char>, V>::empty(),
            r.names() == Seq::<Seq<char>>::empty(),
    {
        let r = Table { entries: Vec::new() };
        assert(r@ =~= Map::<Seq<char>, V>::empty());
        assert(r.names() =~= Seq::<Seq<char>>::empty());
        r
    }

    /// The number of names.
    pub fn len(&self) -> (r: usize)
        ensures
            r == self.names().len(),
    {
        self.entries.len()
    }

    /// Where a name stands.
    pub fn find(&self, name: &str) -> (r: Option<usize>)
        requires
            self.wf(),
        ensures
            r is Some <==> self@.dom().contains(name@),
            r matches Some(i) ==> i < self.entries@.len() && self.entries@[i as int].0@ == name@
                && self.entries@[i as int].1 == self@[name@],
    {
        let key = chars_of(name);
        for i in 0..self.entries.len()
            invariant
                self.wf(),
                key@ == name@,
                forall|j: int| 0 <= j < i ==> !at_name(self.entries@, name@, j),
        {
            let other = chars_of(self.entries[i].0.as_str());
            if same_chars(&other, &key) {
                proof {
                    self.lemma_at(i as int);
                }
                return Some(i);
            }
        }
        None
    }

    /// The value under a name.
    pub fn get(&self, name: &str) -> (r: Option<&V>)
        requires
            self.wf(),
        ensures
            match r {
                Some(v) => self@.dom().contains(name@) && *v == self@[name@],
                None => !self@.dom().contains(name@),
            },
    {
        match self.find(name) {
            Some(i) => Some(&self.entries[i].1),
            None => None,
        }
    }

    /// Puts a value under a name, in place of what was there.
    pub fn insert(&mut self, name: &str, v: V)
        requires
            old(self).wf(),
        ensures
            final(self).wf(),
            final(self)@ == old(self)@.insert(name@, v),
            final(self).names() == (if old(self)@.dom().contains(name@) {
                old(self).names()
            } else {
                old(self).names().push(name@)
            }),
    {
        match self.find(name) {
            Some(i) => {
                let ghost before = *self;
                self.entries.set(i, (owned(name), v));
                proof {
                    assert(self.wf()) by {
                        assert forall|a: int, b: int|
                            0 <= a < b < self.entries@.len() implies (
                        #[trigger] self.entries@[a]).0@ != (#[trigger] self.entries@[b]).0@ by {
                            assert(before.entries@[a].0@ != before.entries@[b].0@);
                        }
                    }
                    lemma_updated(before, *self, i as int, name@, v);
                    assert(self.names() =~= before.names());
                }
            },
            None => {
                let ghost before = *self;
                self.entries.push((owned(name), v));
                proof {
                    assert(self.wf()) by {
                        assert forall|a: int, b: int|
                            0 <= a < b < self.entries@.len() implies (
                        #[trigger] self.entries@[a]).0@ != (#[trigger] self.entries@[b]).0@ by {
                            if b < before.entries@.len() {
                                assert(before.entries@[a].0@ != before.entries@[b].0@);
                            } else {
                                before.lemma_at(a);
                            }
                        }
                    }
                    lemma_updated(before, *self, before.entries@.len() as int, name@, v);
                    assert(self.names() =~= before.names().push(name@));
                }
            },
        }
    }

    /// The names in order.
    pub fn sorted_names(&self) -> (r: Vec<Vec<char>>)
        ensures
            text::views(r@) == ordered(self.names()),
    {
        let mut all: Vec<Vec<char>> = Vec::new();
        for i in 0..self.entries.len()
            invariant
                text::views(all@) =~= self.names().take(i as int),
        {
            let ghost before = text::views(all@);
            let name = chars_of(self.entries[i].0.as_str());
            all.push(name);
            assert(text::views(all@) =~= before.push(name@));
        }
        assert(self.names().take(self.names().len() as int) =~= self.names());
        sort_texts(&all)
    }
}

impl<T> Table<Vec<T>> {
    /// Appends an item to the list under a name, which begins with it where there was none.
    pub fn append(&mut self, name: &str, item: T)
        requires
            old(self).wf(),
        ensures
            final(self).wf(),
            final(self)@.dom() == old(self)@.dom().insert(name@),
            final(self)@[name@]@ == (if old(self)@.dom().contains(name@) {
                old(self)@[name@]@.push(item)
            } else {
                seq![item]
            }),
            forall|k: Seq<char>|
                k != name@ && #[trigger] old(self)@.dom().contains(k) ==> final(self)@[k] == old(self)@[k],
            final(self).names() == (if old(self)@.dom().contains(name@) {
                old(self).names()
            } else {
                old(self).names().push(name@)
            }),
    {
        match self.find(name) {
            Some(i) => {
                let ghost before = *self;
                self.entries[i].1.push(item);
                proof {
                    assert(self.wf()) by {
                        assert forall|a: int, b: int|
                            0 <= a < b < self.entries@.len() implies (
                        #[trigger] self.entries@[a]).0@ != (#[trigger] self.entries@[b]).0@ by {
                            assert(before.entries@[a].0@ != before.entries@[b].0@);
                        }
                    }
                    lemma_updated(before, *self, i as int, name@, self.entries@[i as int].1);
                    assert(self.names() =~= before.names());
                    assert(self@.dom() =~= before@.dom().insert(name@));
                }
            },
            None => {
                let mut v: Vec<T> = Vec::new();
                v.push(item);
                assert(v@ =~= seq![item]);
                self.insert(name, v);
            },
        }
    }
}

proof fn lemma_updated<V>(before: Table<V>, after: Table<V>, i: int, name: Seq<char>, v: V)
    requires
        before.wf(),
        after.wf(),
        0 <= i < after.entries@.len(),
        i <= before.entries@.len(),
        after.entries@.len() == before.entries@.len() || (i == before.entries@.len()
            && after.entries@.len() == i + 1),
        after.entries@[i].0@ == name,
        after.entries@[i].1 == v,
        i < before.entries@.len() ==> before.entries@[i].0@ == name,
        i == before.entries@.len() ==> !before@.dom().contains(name),
        forall|j: int|
            0 <= j < before.entries@.len() && j != i ==> #[trigger] after.entries@[j]
                == before.entries@[j],
    ensures
        after@ == before@.insert(name, v),
{
    assert forall|k: Seq<char>| after@.dom().contains(k) <==> before@.insert(
        name,
        v,
    ).dom().contains(k) by {
        if after@.dom().contains(k) {
            let j = after.lemma_has(k);
            if j != i {
                assert(after.entries@[j] == before.entries@[j]);
                before.lemma_at(j);
            }
        }
        if before@.insert(name, v).dom().contains(k) {
            if k == name {
                after.lemma_at(i);
            } else {
                let j = before.lemma_has(k);
                assert(after.entries@[j] == before.entries@[j]);
                after.lemma_at(j);
            }
        }
    }
    assert forall|k: Seq<char>| after@.dom().contains(k) implies after@[k] == before@.insert(
        name,
        v,
    )[k] by {
        if k == name {
            after.lemma_at(i);
        } else {
            let j = after.lemma_has(k);
            assert(j != i);
            assert(after.entries@[j] == before.entries@[j]);
            before.lemma_at(j);
        }
    }
    assert(after@ =~= before@.insert(name, v));
}

/// Putting texts in order keeps their number.
pub proof fn lemma_ordered_len(s: Seq<Seq<char>>)
    ensures
        ordered(s).len() == s.len(),
{
    lemma_text_order();
    s.lemma_sort_by_ensures(text_order());
    s.to_multiset_ensures();
    ordered(s).to_multiset_ensures();
}

/// Putting texts in order keeps the texts.
pub proof fn lemma_ordered_contains(s: Seq<Seq<char>>, k: Seq<char>)
    ensures
        ordered(s).contains(k) <==> s.contains(k),
{
    lemma_text_order();
    s.lemma_sort_by_ensures(text_order());
    s.to_multiset_ensures();
    ordered(s).to_multiset_ensures();
    assert(s.contains(k) <==> s.to_multiset().count(k) > 0);
    assert(ordered(s).contains(k) <==> ordered(s).to_multiset().count(k) > 0);
}

/// Whether a name stands among the first `n` entries.
pub open spec fn among<V>(entries: Seq<(String, V)>, name: Seq<char>, n: int) -> bool {
    exists|i: int| i < n && at_name(entries, name, i)
}

/// What stands among the first entries and the next one.
pub proof fn lemma_among<V>(t: Table<V>, name: Seq<char>, n: int)
    requires
        t.wf(),
        0 <= n,
    ensures
        !among(t.entries@, name, 0),
        n < t.entries@.len() ==> (among(t.entries@, name, n + 1) <==> among(t.entries@, name, n)
            || name == t.entries@[n].0@),
        among(t.entries@, name, t.entries@.len() as int) <==> t@.dom().contains(name),
        among(t.entries@, name, n) ==> t@.dom().contains(name),
{
    let e = t.entries@;
    if n < e.len() {
        if among(e, name, n) {
            let i = choose|i: int| i < n && at_name(e, name, i);
            assert(i < n + 1 && at_name(e, name, i));
        }
        if name == e[n].0@ {
            assert(n < n + 1 && at_name(e, name, n));
        }
        if among(e, name, n + 1) {
            let i = choose|i: int| i < n + 1 && at_name(e, name, i);
            if i < n {
                assert(i < n && at_name(e, name, i));
            }
        }
    }
    if among(e, name, e.len() as int) {
        let i = choose|i: int| i < e.len() && at_name(e, name, i);
        t.lemma_at(i);
    }
    if t@.dom().contains(name) {
        let i = t.lemma_has(name);
        assert(i < e.len() && at_name(e, name, i));
    }
    if among(e, name, n) {
        let i = choose|i: int| i < n && at_name(e, name, i);
        t.lemma_at(i);
    }
}

/// The names of a table are those it has values for.
pub proof fn lemma_names<V>(t: Table<V>, k: Seq<char>)
    requires
        t.wf(),
    ensures
        t.names().contains(k) <==> t@.dom().contains(k),
{
    if t.names().contains(k) {
        let i = choose|i: int| 0 <= i < t.names().len() && t.names()[i] == k;
        t.lemma_at(i);
    }
    if t@.dom().contains(k) {
        let i = t.lemma_has(k);
        assert(t.names()[i] == k);
    }
}

/// What stands in the ordered list of names is in the table.
pub proof fn lemma_ordered_has<V>(t: Table<V>, i: int)
    requires
        t.wf(),
        0 <= i < ordered(t.names()).len(),
    ensures
        t@.dom().contains(ordered(t.names())[i]),
{
    lemma_text_order();
    t.names().lemma_sort_by_ensures(text_order());
    let k = ordered(t.names())[i];
    assert(ordered(t.names()).contains(k));
    lemma_names(t, k);
}

/// A set of names.
#[derive(Debug, Clone)]
pub struct NameSet {
    pub items: Vec<String>,
}

impl View for NameSet {
    type V = Set<Seq<char>>;

    open spec fn view(&self) -> Set<Seq<char>> {
        text::texts(self.items@).to_set()
    }
}

impl NameSet {
    /// No name occurs twice.
    pub open spec fn wf(&self) -> bool {
        text::texts(self.items@).no_duplicates()
    }

    pub fn new() -> (r: Self)
        ensures
            r.wf(),
            r@ == Set::<Seq<char>>::empty(),
    {
        let r = NameSet { items: Vec::new() };
        assert(r@ =~= Set::<Seq<char>>::empty());
        r
    }

    pub fn contains(&self, name: &str) -> (r: bool)
        ensures
            r == self@.contains(name@),
    {
        let key = chars_of(name);
        for i in 0..self.items.len()
            invariant
                key@ == name@,
                forall|j: int| 0 <= j < i ==> text::texts(self.items@)[j] != name@,
        {
            let other = chars_of(self.items[i].as_str());
            assert(text::texts(self.items@)[i as int] == other@);
            if same_chars(&other, &key) {
                assert(text::texts(self.items@).contains(name@));
                return true;
            }
        }
        false
    }

    pub fn insert(&mut self, name: &str)
        requires
            old(self).wf(),
        ensures
            final(self).wf(),
            final(self)@ == old(self)@.insert(name@),
    {
        if self.contains(name) {
            assert(self@.insert(name@) =~= self@);
            return ;
        }
        let ghost before = text::texts(self.items@);
        let s = owned(name);
        self.items.push(s);
        proof {
            let after = text::texts(self.items@);
            assert(after =~= before.push(name@));
            assert(after.no_duplicates()) by {
                assert forall|i: int, j: int|
                    0 <= i < after.len() && 0 <= j < after.len() && i != j implies after[i]
                    != after[j] by {
                    if i == before.len() {
                        assert(before.contains(before[j]));
                    } else if j == before.len() {
                        assert(before.contains(before[i]));
                    }
                }
            }
            assert forall|k: Seq<char>| after.to_set().contains(k) <==> before.to_set().insert(
                name@,
            ).contains(k) by {
                if before.contains(k) {
                    let i = choose|i: int| 0 <= i < before.len() && before[i] == k;
                    assert(after[i] == k);
                }
                if k == name@ {
                    assert(after[before.len() as int] == k);
                }
                if after.contains(k) {
                    let i = choose|i: int| 0 <= i < after.len() && after[i] == k;
                    if i < before.len() {
                        assert(before[i] == k);
                    }
                }
            }
            assert(after.to_set() =~= before.to_set().insert(name@));
        }
    }

    /// The number of names.
    pub fn len(&self) -> (r: usize)
        requires
            self.wf(),
        ensures
            r == self@.len(),
    {
        proof {
            text::texts(self.items@).unique_seq_to_set();
        }
        self.items.len()
    }
}

} // verus!
