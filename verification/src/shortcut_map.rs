//! Maps from keys to values, kept in key order, with mnemonic assignment from names.
use crate::key::{
    key_code, lemma_key_code_injective, no_symbol, plain_key, xkb_keysym_of_char, Key, ModifierSet, Symbol,
};
use crate::text::{ascii_lowercase, char_to_ascii_lowercase, chars_of};
use vstd::prelude::*;

verus! {

/// Shortcut assignments: each key maps to at most one value. The pairs are kept in ascending key
/// order (see [`key_code`]), the order in which they are listed; the operations keep that order,
/// which the pairs may be read in but should not be changed by hand.
#[derive(Debug)]
pub struct ShortcutMap<V> {
    pub entries: Vec<(Key, V)>,
}

/// The characters tried after a name's own characters when assigning mnemonics.
pub open spec fn mnemonic_fallback() -> Seq<char> {
    "1234567890,.?/!@#$%&"@
}

/// The shortcut a mnemonic character stands for: the plain key whose symbol types the character's
/// ASCII lower-case form, if there is one.
pub open spec fn mnemonic_key(c: char) -> Option<Key> {
    let k = xkb_keysym_of_char(ascii_lowercase(c));
    if k == no_symbol() {
        None
    } else {
        Some(plain_key(Symbol(k)))
    }
}

/// One assignment attempt within a batch: the item's character at `idx` is tried. An item whose
/// name has no character there is dropped; one whose key is unavailable or taken goes on to the
/// next batch.
pub open spec fn mnemonic_step<V>(
    state: (Map<Key, V>, Seq<(Seq<char>, V)>),
    item: (Seq<char>, V),
    idx: nat,
) -> (Map<Key, V>, Seq<(Seq<char>, V)>) {
    let (m, failed) = state;
    if idx >= item.0.len() {
        (m, failed)
    } else {
        match mnemonic_key(item.0[idx as int]) {
            None => (m, failed.push(item)),
            Some(k) => if m.contains_key(k) {
                (m, failed.push(item))
            } else {
                (m.insert(k, item.1), failed)
            },
        }
    }
}

/// One batch: every remaining item is tried in order at character `idx`. Returns the map and the
/// items that go on to the next batch, in their order.
pub open spec fn mnemonic_batch<V>(m: Map<Key, V>, items: Seq<(Seq<char>, V)>, idx: nat) -> (
    Map<Key, V>,
    Seq<(Seq<char>, V)>,
)
    decreases items.len(),
{
    if items.len() == 0 {
        (m, Seq::empty())
    } else {
        mnemonic_step(mnemonic_batch(m, items.drop_last(), idx), items.last(), idx)
    }
}

/// Batches from character `idx` on, until no item remains; `bound` is at least the length of
/// every name, past which every item would be dropped.
pub open spec fn mnemonic_batches<V>(
    m: Map<Key, V>,
    items: Seq<(Seq<char>, V)>,
    idx: nat,
    bound: nat,
) -> Map<Key, V>
    decreases bound - idx,
{
    if items.len() == 0 || idx >= bound {
        m
    } else {
        let (m2, failed) = mnemonic_batch(m, items, idx);
        mnemonic_batches(m2, failed, idx + 1, bound)
    }
}

/// The longest name among the items.
pub open spec fn longest_name<V>(items: Seq<(Seq<char>, V)>) -> nat
    decreases items.len(),
{
    if items.len() == 0 {
        0
    } else {
        let rest = longest_name(items.drop_last());
        if items.last().0.len() > rest {
            items.last().0.len()
        } else {
            rest
        }
    }
}

/// The names, as character sequences, with their values.
pub open spec fn name_views<V>(values: Seq<(&str, V)>) -> Seq<(Seq<char>, V)> {
    values.map_values(|p: (&str, V)| (p.0@, p.1))
}

/// The items whose mnemonics are assigned: each name followed by the fallback characters.
pub open spec fn named_items<V>(named: Seq<(Seq<char>, V)>) -> Seq<(Seq<char>, V)> {
    named.map_values(|p: (Seq<char>, V)| (p.0 + mnemonic_fallback(), p.1))
}

/// The items whose mnemonics are assigned for names given as strings.
pub open spec fn mnemonic_items<V>(values: Seq<(&str, V)>) -> Seq<(Seq<char>, V)> {
    named_items(name_views(values))
}

/// The map after mnemonic assignment of the named values into `m`.
pub open spec fn assign_named<V>(m: Map<Key, V>, named: Seq<(Seq<char>, V)>) -> Map<Key, V> {
    let items = named_items(named);
    mnemonic_batches(m, items, 0, longest_name(items))
}

/// The map after mnemonic assignment of `values` into `m`.
pub open spec fn assign_mnemonics<V>(m: Map<Key, V>, values: Seq<(&str, V)>) -> Map<Key, V> {
    assign_named(m, name_views(values))
}


/// A name and a value with the name as a character sequence.
pub open spec fn items_view<V>(s: Seq<(Vec<char>, V)>) -> Seq<(Seq<char>, V)> {
    s.map_values(|p: (Vec<char>, V)| (p.0@, p.1))
}

/// Every item a batch passes on is one of its items and has a character at `idx`; items whose
/// names are no longer than `bound` stay so.
pub proof fn lemma_batch_failed<V>(m: Map<Key, V>, items: Seq<(Seq<char>, V)>, idx: nat, bound: nat)
    requires
        forall|i: int| 0 <= i < items.len() ==> (#[trigger] items[i]).0.len() <= bound,
    ensures
        forall|i: int|
            0 <= i < mnemonic_batch(m, items, idx).1.len() ==> idx < (
            #[trigger] mnemonic_batch(m, items, idx).1[i]).0.len() <= bound,
    decreases items.len(),
{
    if items.len() > 0 {
        let rest = items.drop_last();
        assert forall|i: int| 0 <= i < rest.len() implies (#[trigger] rest[i]).0.len() <= bound by {
            assert(rest[i] == items[i]);
        }
        lemma_batch_failed(m, rest, idx, bound);
        let prev = mnemonic_batch(m, rest, idx);
        let last = items.last();
        assert(last == items[items.len() - 1]);
        let out = mnemonic_batch(m, items, idx);
        assert(out == mnemonic_step(prev, last, idx));
        assert(out.1 == prev.1 || (out.1 == prev.1.push(last) && idx < last.0.len()));
        assert forall|i: int| 0 <= i < out.1.len() implies idx < (#[trigger] out.1[i]).0.len()
            <= bound by {
            if i < prev.1.len() {
                assert(out.1[i] == prev.1[i]);
            }
        }
    }
}

/// A batch at a character past every name drops every item and assigns nothing.
pub proof fn lemma_batch_past_names<V>(m: Map<Key, V>, items: Seq<(Seq<char>, V)>, idx: nat)
    requires
        forall|i: int| 0 <= i < items.len() ==> (#[trigger] items[i]).0.len() <= idx,
    ensures
        mnemonic_batch(m, items, idx) == (m, Seq::<(Seq<char>, V)>::empty()),
    decreases items.len(),
{
    if items.len() > 0 {
        let rest = items.drop_last();
        assert forall|i: int| 0 <= i < rest.len() implies (#[trigger] rest[i]).0.len() <= idx by {
            assert(rest[i] == items[i]);
        }
        lemma_batch_past_names(m, rest, idx);
        assert(items.last() == items[items.len() - 1]);
    }
}

/// No name is longer than [`longest_name`].
pub proof fn lemma_longest_name<V>(items: Seq<(Seq<char>, V)>)
    ensures
        forall|i: int| 0 <= i < items.len() ==> (#[trigger] items[i]).0.len() <= longest_name(items),
    decreases items.len(),
{
    if items.len() > 0 {
        let rest = items.drop_last();
        lemma_longest_name(rest);
        assert forall|i: int| 0 <= i < items.len() implies (#[trigger] items[i]).0.len()
            <= longest_name(items) by {
            if i < items.len() - 1 {
                assert(items[i] == rest[i]);
            }
        }
    }
}

impl<V> ShortcutMap<V> {
    /// The pairs in the order they are kept.
    pub open spec fn pairs(self) -> Seq<(Key, V)> {
        self.entries@
    }

    /// The pairs are in strictly ascending key order, so no key occurs twice.
    pub open spec fn wf(self) -> bool {
        forall|i: int, j: int|
            0 <= i < j < self.pairs().len() ==> key_code(#[trigger] self.pairs()[i].0) < key_code(
                #[trigger] self.pairs()[j].0,
            )
    }

    /// Whether `k` is assigned.
    pub open spec fn has_key(self, k: Key) -> bool {
        exists|i: int| 0 <= i < self.pairs().len() && #[trigger] self.pairs()[i].0 == k
    }

    /// The assignments as a map.
    pub open spec fn view(self) -> Map<Key, V> {
        Map::new(
            |k: Key| self.has_key(k),
            |k: Key|
                self.pairs()[choose|i: int|
                    0 <= i < self.pairs().len() && #[trigger] self.pairs()[i].0 == k].1,
        )
    }

    /// In a well-formed map, the pair at `i` is what the map holds for its key.
    pub proof fn lemma_pair_in_view(self, i: int)
        requires
            self.wf(),
            0 <= i < self.pairs().len(),
        ensures
            self@.contains_key(self.pairs()[i].0),
            self@[self.pairs()[i].0] == self.pairs()[i].1,
    {
        let k = self.pairs()[i].0;
        assert(self.has_key(k));
        let j = choose|j: int| 0 <= j < self.pairs().len() && #[trigger] self.pairs()[j].0 == k;
        if j < i {
            assert(key_code(self.pairs()[j].0) < key_code(self.pairs()[i].0));
        } else if j > i {
            assert(key_code(self.pairs()[i].0) < key_code(self.pairs()[j].0));
        }
    }

    /// Two well-formed maps with the same keys keep them in the same order.
    pub proof fn lemma_same_keys_same_order<W>(self, other: ShortcutMap<W>)
        requires
            self.wf(),
            other.wf(),
            self@.dom() == other@.dom(),
        ensures
            self.pairs().len() == other.pairs().len(),
            forall|i: int| 0 <= i < self.pairs().len() ==> #[trigger] self.pairs()[i].0 == other.pairs()[i].0,
    {
        let a = self.pairs();
        let b = other.pairs();
        let n = if a.len() <= b.len() { a.len() } else { b.len() };
        self.lemma_prefix_same_keys(other, n as int);
        if a.len() > b.len() {
            let k = a[n as int].0;
            assert(self.has_key(k));
            assert(self@.contains_key(k));
            assert(other@.contains_key(k));
            let j = choose|j: int| 0 <= j < b.len() && #[trigger] b[j].0 == k;
            assert(a[j].0 == b[j].0);
            assert(key_code(a[j].0) < key_code(a[n as int].0));
        }
        if b.len() > a.len() {
            let k = b[n as int].0;
            assert(other.has_key(k));
            assert(other@.contains_key(k));
            assert(self@.contains_key(k));
            let j = choose|j: int| 0 <= j < a.len() && #[trigger] a[j].0 == k;
            assert(a[j].0 == b[j].0);
            assert(key_code(b[j].0) < key_code(b[n as int].0));
        }
    }

    /// Two well-formed maps with the same keys agree on the keys before `m`.
    proof fn lemma_prefix_same_keys<W>(self, other: ShortcutMap<W>, m: int)
        requires
            self.wf(),
            other.wf(),
            self@.dom() == other@.dom(),
            0 <= m <= self.pairs().len(),
            m <= other.pairs().len(),
        ensures
            forall|i: int| 0 <= i < m ==> #[trigger] self.pairs()[i].0 == other.pairs()[i].0,
        decreases m,
    {
        if m > 0 {
            self.lemma_prefix_same_keys(other, m - 1);
            let a = self.pairs();
            let b = other.pairs();
            let i = m - 1;
            let ka = a[i].0;
            let kb = b[i].0;
            if ka != kb {
                lemma_key_code_injective(ka, kb);
                assert(self.has_key(ka));
                assert(other@.contains_key(ka));
                let j = choose|j: int| 0 <= j < b.len() && #[trigger] b[j].0 == ka;
                assert(other.has_key(kb));
                assert(self@.contains_key(kb));
                let j2 = choose|j2: int| 0 <= j2 < a.len() && #[trigger] a[j2].0 == kb;
                if j < i {
                    assert(a[j].0 == b[j].0);
                    assert(key_code(a[j].0) < key_code(a[i].0));
                } else if j2 < i {
                    assert(a[j2].0 == b[j2].0);
                    assert(key_code(b[j2].0) < key_code(b[i].0));
                } else if key_code(ka) < key_code(kb) {
                    assert(key_code(b[i].0) < key_code(b[j].0));
                } else {
                    assert(key_code(a[i].0) < key_code(a[j2].0));
                }
            }
        }
    }

    /// An empty map.
    pub fn new() -> (m: ShortcutMap<V>)
        ensures
            m.wf(),
            m.pairs() == Seq::<(Key, V)>::empty(),
            m@ == Map::<Key, V>::empty(),
    {
        let m = ShortcutMap { entries: Vec::new() };
        assert(m@ =~= Map::<Key, V>::empty());
        m
    }

    /// The number of assigned keys.
    pub fn len(&self) -> (n: usize)
        ensures
            n == self.pairs().len(),
    {
        self.entries.len()
    }

    /// The pairs in ascending key order.
    pub fn entries(&self) -> (r: &Vec<(Key, V)>)
        ensures
            r@ == self.pairs(),
    {
        &self.entries
    }

    /// Assigns `value` to `shortcut` unless the shortcut is already assigned, in which case both
    /// are handed back and the map is left as it was.
    pub fn try_assign(&mut self, shortcut: Key, value: V) -> (r: Result<(), (Key, V)>)
        requires
            old(self).wf(),
        ensures
            final(self).wf(),
            old(self)@.contains_key(shortcut) ==> r == Err::<(), (Key, V)>((shortcut, value))
                && *final(self) == *old(self),
            !old(self)@.contains_key(shortcut) ==> r is Ok && final(self)@ == old(self)@.insert(
                shortcut,
                value,
            ),
    {
        let code = shortcut.code();
        let mut i: usize = 0;
        while i < self.entries.len() && self.entries[i].0.code() < code
            invariant
                i <= self.entries.len(),
                self.wf(),
                code == key_code(shortcut),
                forall|j: int| 0 <= j < i ==> key_code(#[trigger] self.pairs()[j].0) < code,
            decreases self.entries.len() - i,
        {
            i += 1;
        }
        if i < self.entries.len() && self.entries[i].0.code() == code {
            proof {
                lemma_key_code_injective(self.pairs()[i as int].0, shortcut);
                self.lemma_pair_in_view(i as int);
            }
            return Err((shortcut, value));
        }
        proof {
            assert forall|j: int| 0 <= j < self.pairs().len() implies #[trigger] self.pairs()[j].0
                != shortcut by {
                if j < i {
                } else {
                    assert(key_code(self.pairs()[i as int].0) > code);
                    if j > i {
                        assert(key_code(self.pairs()[i as int].0) < key_code(self.pairs()[j].0));
                    }
                }
            }
        }
        let ghost old_map = *self;
        self.entries.insert(i, (shortcut, value));
        proof {
            let n = old_map.pairs().len();
            assert(self.pairs() == old_map.pairs().insert(i as int, (shortcut, value)));
            assert forall|a: int, b: int| 0 <= a < b < self.pairs().len() implies key_code(
                #[trigger] self.pairs()[a].0,
            ) < key_code(#[trigger] self.pairs()[b].0) by {
                if a < i && b < i {
                    assert(key_code(old_map.pairs()[a].0) < key_code(old_map.pairs()[b].0));
                } else if a < i && b == i {
                } else if a < i && b > i {
                    assert(key_code(old_map.pairs()[a].0) < key_code(old_map.pairs()[b - 1].0));
                } else if a == i {
                    assert(key_code(old_map.pairs()[i as int].0) > code);
                    if b - 1 > i {
                        assert(key_code(old_map.pairs()[i as int].0) < key_code(
                            old_map.pairs()[b - 1].0,
                        ));
                    }
                } else {
                    assert(key_code(old_map.pairs()[a - 1].0) < key_code(old_map.pairs()[b - 1].0));
                }
            }
            assert forall|k: Key| #[trigger] self@.contains_key(k) <==> old_map@.insert(
                shortcut,
                value,
            ).contains_key(k) by {
                if self.has_key(k) {
                    let j = choose|j: int| 0 <= j < self.pairs().len() && #[trigger] self.pairs()[j].0 == k;
                    if j < i {
                        assert(old_map.pairs()[j].0 == k);
                    } else if j > i {
                        assert(old_map.pairs()[j - 1].0 == k);
                    }
                }
                if old_map.has_key(k) {
                    let j = choose|j: int|
                        0 <= j < old_map.pairs().len() && #[trigger] old_map.pairs()[j].0 == k;
                    if j < i {
                        assert(self.pairs()[j].0 == k);
                    } else {
                        assert(self.pairs()[j + 1].0 == k);
                    }
                }
                if k == shortcut {
                    assert(self.pairs()[i as int].0 == k);
                }
            }
            assert forall|k: Key| #[trigger] self@.contains_key(k) implies self@[k] == old_map@.insert(
                shortcut,
                value,
            )[k] by {
                let j = choose|j: int| 0 <= j < self.pairs().len() && #[trigger] self.pairs()[j].0 == k;
                self.lemma_pair_in_view(j);
                if j < i {
                    old_map.lemma_pair_in_view(j);
                } else if j > i {
                    old_map.lemma_pair_in_view(j - 1);
                }
            }
            assert(self@ =~= old_map@.insert(shortcut, value));
        }
        Ok(())
    }

    /// Assigns a mnemonic shortcut to each value from its name. In batches, each remaining value
    /// tries the plain key typed by the lower-case form of its name's next character; the first
    /// batch uses the first character. A value whose character has no key, or whose key is
    /// already taken, tries again in the next batch, so that values whose earlier characters are
    /// free win over later ones and, within a batch, earlier values win. After its own characters
    /// a name goes on with the characters `1234567890,.?/!@#$%&`; a value that runs out of
    /// characters is silently dropped. Existing assignments are kept.
    pub fn auto_assign_mnemonics(&mut self, values: Vec<(&str, V)>)
        requires
            old(self).wf(),
        ensures
            final(self).wf(),
            final(self)@ == assign_mnemonics(old(self)@, values@),
    {
        let ghost start = self@;
        let ghost items = mnemonic_items(values@);
        let ghost bound = longest_name(items);
        let ghost orig = values@;
        let mut values = values;
        let mut remaining: Vec<(Vec<char>, V)> = Vec::new();
        let ghost mut j: int = 0;
        while values.len() > 0
            invariant
                0 <= j <= orig.len(),
                values@ == orig.skip(j),
                items == mnemonic_items(orig),
                items_view(remaining@) == items.take(j),
            decreases values.len(),
        {
            let (name, value) = values.remove(0);
            let mut chars = chars_of(name);
            let mut fallback = chars_of("1234567890,.?/!@#$%&");
            chars.append(&mut fallback);
            let ghost rv = items_view(remaining@);
            proof {
                assert(orig.skip(j)[0] == orig[j]);
                assert(orig.skip(j).skip(1) =~= orig.skip(j + 1));
                assert(chars@ == name@ + mnemonic_fallback());
            }
            remaining.push((chars, value));
            proof {
                assert(items[j] == (orig[j].0@ + mnemonic_fallback(), orig[j].1));
                assert(items_view(remaining@) =~= rv.push((chars@, value)));
                assert(items.take(j + 1) =~= items.take(j).push(items[j]));
                j = j + 1;
            }
        }
        proof {
            assert(orig.skip(j).len() == 0);
            assert(items.take(j) =~= items);
            lemma_longest_name(items);
        }
        let mut idx: usize = 0;
        loop
            invariant
                self.wf(),
                idx <= bound,
                assign_mnemonics(start, orig) == mnemonic_batches(
                    self@,
                    items_view(remaining@),
                    idx as nat,
                    bound,
                ),
                forall|i: int|
                    0 <= i < remaining@.len() ==> (#[trigger] items_view(remaining@)[i]).0.len()
                        <= bound,
                items == mnemonic_items(orig),
                bound == longest_name(items),
            ensures
                self.wf(),
                items_view(remaining@).len() == 0,
                assign_mnemonics(start, orig) == mnemonic_batches(
                    self@,
                    items_view(remaining@),
                    idx as nat,
                    bound,
                ),
            decreases bound - idx,
        {
            if remaining.len() == 0 {
                break;
            }
            let ghost before = self@;
            let ghost batch_items = items_view(remaining@);
            proof {
                assert forall|i: int| 0 <= i < batch_items.len() implies (#[trigger] batch_items[i]).0.len() <= bound by {
                    assert(batch_items[i] == items_view(remaining@)[i]);
                }
            }
            let mut failed: Vec<(Vec<char>, V)> = Vec::new();
            let ghost mut k: int = 0;
            while remaining.len() > 0
                invariant
                    self.wf(),
                    0 <= k <= batch_items.len(),
                    items_view(remaining@) == batch_items.skip(k),
                    (self@, items_view(failed@)) == mnemonic_batch(before, batch_items.take(k), idx as nat),
                decreases remaining.len(),
            {
                let ghost rv = items_view(remaining@);
                proof {
                    assert(rv.len() == remaining@.len());
                    assert(k < batch_items.len());
                    assert(rv[0] == batch_items[k]);
                }
                let (name, value) = remaining.remove(0);
                proof {
                    assert(batch_items[k] == (name@, value));
                    assert(batch_items.take(k + 1).drop_last() =~= batch_items.take(k));
                    assert(batch_items.take(k + 1).last() == batch_items[k]);
                    assert(items_view(remaining@) =~= rv.skip(1));
                }
                if idx < name.len() {
                    let c = name[idx];
                    match Symbol::from_char(char_to_ascii_lowercase(c)) {
                        None => {
                            let ghost fv = items_view(failed@);
                            failed.push((name, value));
                            proof {
                                assert(items_view(failed@) =~= fv.push((name@, value)));
                            }
                        },
                        Some(symbol) => {
                            let key = Key::new(symbol);
                            proof {
                                assert(key == plain_key(symbol));
                            }
                            match self.try_assign(key, value) {
                                Ok(()) => {},
                                Err((_, value)) => {
                                    let ghost fv = items_view(failed@);
                                    failed.push((name, value));
                                    proof {
                                        assert(items_view(failed@) =~= fv.push((name@, value)));
                                    }
                                },
                            }
                        },
                    }
                }
                proof {
                    assert(batch_items.skip(k).skip(1) =~= batch_items.skip(k + 1));
                    assert(mnemonic_batch(before, batch_items.take(k + 1), idx as nat) == mnemonic_step(
                        mnemonic_batch(before, batch_items.take(k), idx as nat),
                        batch_items[k],
                        idx as nat,
                    ));
                    k = k + 1;
                }
            }
            proof {
                assert(batch_items.take(k) =~= batch_items);
                lemma_batch_failed(before, batch_items, idx as nat, bound);
                if idx as nat >= bound {
                    assert forall|i: int| 0 <= i < batch_items.len() implies (#[trigger] batch_items[i]).0.len() <= idx as nat by {
                    }
                    lemma_batch_past_names(before, batch_items, idx as nat);
                }
            }
            let ghost after = self@;
            let ghost failed_items = items_view(failed@);
            proof {
                assert((after, failed_items) == mnemonic_batch(before, batch_items, idx as nat));
                if (idx as nat) < bound {
                    assert(mnemonic_batches(before, batch_items, idx as nat, bound) == mnemonic_batches(
                        after,
                        failed_items,
                        (idx + 1) as nat,
                        bound,
                    ));
                }
            }
            remaining = failed;
            if remaining.len() == 0 {
                proof {
                    assert(items_view(remaining@).len() == 0);
                }
                break;
            }
            proof {
                assert(failed_items[0] == (remaining@[0].0@, remaining@[0].1));
                assert(remaining@[0].0@.len() == remaining@[0].0.len());
                assert(idx < failed_items[0].0.len());
            }
            idx = idx + 1;
        }
        proof {
            assert(items_view(remaining@).len() == 0);
        }
    }

    /// The value assigned to exactly `shortcut`, modifiers included.
    pub fn match_exact(&self, shortcut: &Key) -> (r: Option<&V>)
        requires
            self.wf(),
        ensures
            r == (if self@.contains_key(*shortcut) {
                Some(&self@[*shortcut])
            } else {
                None
            }),
    {
        let code = shortcut.code();
        let mut i: usize = 0;
        while i < self.entries.len()
            invariant
                i <= self.entries.len(),
                self.wf(),
                code == key_code(*shortcut),
                forall|j: int| 0 <= j < i ==> #[trigger] self.pairs()[j].0 != *shortcut,
            decreases self.entries.len() - i,
        {
            if self.entries[i].0.code() == code {
                proof {
                    lemma_key_code_injective(self.pairs()[i as int].0, *shortcut);
                    self.lemma_pair_in_view(i as int);
                }
                return Some(&self.entries[i].1);
            }
            proof {
                lemma_key_code_injective(self.pairs()[i as int].0, *shortcut);
            }
            i += 1;
        }
        None
    }

    /// The value assigned to `shortcut`, as a map lookup.
    pub fn get(&self, shortcut: &Key) -> (r: Option<&V>)
        requires
            self.wf(),
        ensures
            r == (if self@.contains_key(*shortcut) {
                Some(&self@[*shortcut])
            } else {
                None
            }),
    {
        self.match_exact(shortcut)
    }
}


/// Whether `b` holds every binding of `a`, unchanged.
pub open spec fn keeps_bindings<V>(a: Map<Key, V>, b: Map<Key, V>) -> bool {
    forall|k: Key| #[trigger] a.contains_key(k) ==> b.contains_key(k) && b[k] == a[k]
}

/// A batch keeps every binding it starts with.
proof fn lemma_batch_keeps<V>(m: Map<Key, V>, items: Seq<(Seq<char>, V)>, idx: nat)
    ensures
        keeps_bindings(m, mnemonic_batch(m, items, idx).0),
    decreases items.len(),
{
    if items.len() > 0 {
        lemma_batch_keeps(m, items.drop_last(), idx);
    }
}

/// Batches keep every binding they start with.
proof fn lemma_batches_keep<V>(m: Map<Key, V>, items: Seq<(Seq<char>, V)>, idx: nat, bound: nat)
    ensures
        keeps_bindings(m, mnemonic_batches(m, items, idx, bound)),
    decreases bound - idx,
{
    if items.len() > 0 && idx < bound {
        let (m2, failed) = mnemonic_batch(m, items, idx);
        lemma_batch_keeps(m, items, idx);
        lemma_batches_keep(m2, failed, idx + 1, bound);
    }
}

/// Mnemonic assignment never changes a shortcut that is already assigned: it only adds
/// shortcuts for keys that were free.
pub proof fn lemma_mnemonics_keep_assigned<V>(m: Map<Key, V>, values: Seq<(&str, V)>)
    ensures
        keeps_bindings(m, assign_mnemonics(m, values)),
{
    let items = mnemonic_items(values);
    lemma_batches_keep(m, items, 0, longest_name(items));
}

/// Assigning a free shortcut binds it to the value and leaves the other shortcuts as they were;
/// the value is then what the shortcut matches.
pub proof fn lemma_assigned_shortcut_matches<V>(m: Map<Key, V>, k: Key, v: V)
    requires
        !m.contains_key(k),
    ensures
        m.insert(k, v).contains_key(k),
        m.insert(k, v)[k] == v,
        keeps_bindings(m, m.insert(k, v)),
{
}

/// Whether `k` is the mnemonic shortcut of one of the characters of an item with value `v`.
pub open spec fn item_shortcut<V>(items: Seq<(Seq<char>, V)>, k: Key, v: V) -> bool {
    exists|i: int, j: int|
        0 <= i < items.len() && 0 <= j < items[i].0.len() && (#[trigger] items[i]).1 == v
            && mnemonic_key(#[trigger] items[i].0[j]) == Some(k)
}

/// Whether every binding of `r` is one of `m`, or binds the mnemonic shortcut of a character of
/// an item to that item's value.
pub open spec fn binds_item_shortcuts<V>(m: Map<Key, V>, r: Map<Key, V>, items: Seq<(Seq<char>, V)>) -> bool {
    forall|k: Key| #[trigger] r.contains_key(k) ==> (m.contains_key(k) && r[k] == m[k])
        || item_shortcut(items, k, r[k])
}

/// Whether every item of `sub` is one of `items`.
pub open spec fn items_among<V>(sub: Seq<(Seq<char>, V)>, items: Seq<(Seq<char>, V)>) -> bool {
    forall|i: int| 0 <= i < sub.len() ==> items.contains(#[trigger] sub[i])
}

/// An item shortcut of some items is one of any items that hold them.
proof fn lemma_item_shortcut_among<V>(sub: Seq<(Seq<char>, V)>, items: Seq<(Seq<char>, V)>, k: Key, v: V)
    requires
        items_among(sub, items),
        item_shortcut(sub, k, v),
    ensures
        item_shortcut(items, k, v),
{
    let (i, j) = choose|i: int, j: int|
        0 <= i < sub.len() && 0 <= j < sub[i].0.len() && (#[trigger] sub[i]).1 == v
            && mnemonic_key(#[trigger] sub[i].0[j]) == Some(k);
    assert(items.contains(sub[i]));
    let i2 = choose|i2: int| 0 <= i2 < items.len() && items[i2] == sub[i];
    assert(items[i2].0[j] == sub[i].0[j]);
}

/// A batch binds only item shortcuts and passes on only items of its own.
proof fn lemma_batch_values<V>(m: Map<Key, V>, items: Seq<(Seq<char>, V)>, idx: nat)
    ensures
        binds_item_shortcuts(m, mnemonic_batch(m, items, idx).0, items),
        items_among(mnemonic_batch(m, items, idx).1, items),
    decreases items.len(),
{
    if items.len() > 0 {
        let rest = items.drop_last();
        lemma_batch_values(m, rest, idx);
        let prev = mnemonic_batch(m, rest, idx);
        let last = items.last();
        let out = mnemonic_batch(m, items, idx);
        assert(out == mnemonic_step(prev, last, idx));
        assert(items[items.len() - 1] == last);
        assert forall|i: int| 0 <= i < rest.len() implies items.contains(#[trigger] rest[i]) by {
            assert(items[i] == rest[i]);
        }
        assert forall|k: Key| #[trigger] out.0.contains_key(k) implies (m.contains_key(k) && out.0[k]
            == m[k]) || item_shortcut(items, k, out.0[k]) by {
            if prev.0.contains_key(k) && out.0[k] == prev.0[k] {
                if !(m.contains_key(k) && prev.0[k] == m[k]) {
                    lemma_item_shortcut_among(rest, items, k, prev.0[k]);
                }
            } else {
                assert(out.0[k] == last.1);
                assert(mnemonic_key(items[items.len() - 1].0[idx as int]) == Some(k));
            }
        }
        assert forall|i: int| 0 <= i < out.1.len() implies items.contains(#[trigger] out.1[i]) by {
            if i < prev.1.len() {
                assert(out.1[i] == prev.1[i]);
                assert(rest.contains(prev.1[i]));
                let i2 = choose|i2: int| 0 <= i2 < rest.len() && rest[i2] == prev.1[i];
                assert(items.contains(rest[i2]));
            } else {
                assert(out.1[i] == last);
            }
        }
    }
}

/// Batches bind only item shortcuts.
proof fn lemma_batches_values<V>(m: Map<Key, V>, items: Seq<(Seq<char>, V)>, idx: nat, bound: nat)
    ensures
        binds_item_shortcuts(m, mnemonic_batches(m, items, idx, bound), items),
    decreases bound - idx,
{
    if items.len() > 0 && idx < bound {
        let (m2, failed) = mnemonic_batch(m, items, idx);
        lemma_batch_values(m, items, idx);
        lemma_batch_keeps(m, items, idx);
        lemma_batches_values(m2, failed, idx + 1, bound);
        let r = mnemonic_batches(m, items, idx, bound);
        assert forall|k: Key| #[trigger] r.contains_key(k) implies (m.contains_key(k) && r[k] == m[k])
            || item_shortcut(items, k, r[k]) by {
            if m2.contains_key(k) && r[k] == m2[k] {
            } else {
                lemma_item_shortcut_among(failed, items, k, r[k]);
            }
        }
    }
}

/// Mnemonic assignment keeps every shortcut already assigned, and binds every new shortcut to
/// the value of one of the named values: the plain key typed by the ASCII lower-case form of a
/// character of that value's name or of the fallback characters `1234567890,.?/!@#$%&`.
pub proof fn lemma_mnemonics_bind_given_values<V>(m: Map<Key, V>, named: Seq<(Seq<char>, V)>)
    ensures
        keeps_bindings(m, assign_named(m, named)),
        forall|k: Key| #[trigger] assign_named(m, named).contains_key(k) ==> (m.contains_key(k)
            && assign_named(m, named)[k] == m[k]) || exists|i: int, j: int|
            0 <= i < named.len() && 0 <= j < named[i].0.len() + mnemonic_fallback().len()
                && (#[trigger] named[i]).1 == assign_named(m, named)[k] && mnemonic_key(
                #[trigger] (named[i].0 + mnemonic_fallback())[j],
            ) == Some(k),
{
    let items = named_items(named);
    lemma_batches_keep(m, items, 0, longest_name(items));
    lemma_batches_values(m, items, 0, longest_name(items));
    let r = assign_named(m, named);
    assert forall|k: Key| #[trigger] r.contains_key(k) implies (m.contains_key(k) && r[k] == m[k])
        || exists|i: int, j: int|
        0 <= i < named.len() && 0 <= j < named[i].0.len() + mnemonic_fallback().len()
            && (#[trigger] named[i]).1 == r[k] && mnemonic_key(
            #[trigger] (named[i].0 + mnemonic_fallback())[j],
        ) == Some(k) by {
        if !(m.contains_key(k) && r[k] == m[k]) {
            let (i, j) = choose|i: int, j: int|
                0 <= i < items.len() && 0 <= j < items[i].0.len() && (#[trigger] items[i]).1 == r[k]
                    && mnemonic_key(#[trigger] items[i].0[j]) == Some(k);
            assert(items[i] == (named[i].0 + mnemonic_fallback(), named[i].1));
        }
    }
}

/// Whether the items' values are pairwise different.
pub open spec fn distinct_values<V>(items: Seq<(Seq<char>, V)>) -> bool {
    forall|i: int, j: int| 0 <= i < j < items.len() ==> (#[trigger] items[i]).1 != (#[trigger] items[j]).1
}

/// Whether one of the items has value `v`.
pub open spec fn among_values<V>(items: Seq<(Seq<char>, V)>, v: V) -> bool {
    exists|i: int| 0 <= i < items.len() && (#[trigger] items[i]).1 == v
}

/// Whether the shortcuts of `r` that `m0` does not have are bound to pairwise different values.
pub open spec fn new_keys_distinct<V>(m0: Map<Key, V>, r: Map<Key, V>) -> bool {
    forall|k1: Key, k2: Key|
        #[trigger] r.contains_key(k1) && #[trigger] r.contains_key(k2) && !m0.contains_key(k1)
            && !m0.contains_key(k2) && k1 != k2 ==> r[k1] != r[k2]
}

/// Whether no shortcut of `r` that `m0` does not have is bound to the value of one of the items.
pub open spec fn new_keys_apart<V>(m0: Map<Key, V>, r: Map<Key, V>, items: Seq<(Seq<char>, V)>) -> bool {
    forall|k: Key| #[trigger] r.contains_key(k) && !m0.contains_key(k) ==> !among_values(items, r[k])
}

/// Within a batch, every item value is bound to at most one new shortcut, and the items passed on
/// keep values that are pairwise different and bound to no new shortcut.
proof fn lemma_batch_one_key<V>(m0: Map<Key, V>, m: Map<Key, V>, items: Seq<(Seq<char>, V)>, idx: nat)
    requires
        distinct_values(items),
        new_keys_distinct(m0, m),
        new_keys_apart(m0, m, items),
    ensures
        new_keys_distinct(m0, mnemonic_batch(m, items, idx).0),
        new_keys_apart(m0, mnemonic_batch(m, items, idx).0, mnemonic_batch(m, items, idx).1),
        distinct_values(mnemonic_batch(m, items, idx).1),
        forall|v: V| among_values(mnemonic_batch(m, items, idx).1, v) ==> among_values(items, v),
    decreases items.len(),
{
    if items.len() > 0 {
        let rest = items.drop_last();
        let last = items.last();
        let n = items.len() - 1;
        assert(items[n] == last);
        assert forall|i: int, j: int| 0 <= i < j < rest.len() implies (#[trigger] rest[i]).1 != (
        #[trigger] rest[j]).1 by {
            assert(rest[i] == items[i] && rest[j] == items[j]);
        }
        assert forall|v: V| among_values(rest, v) implies among_values(items, v) && v != last.1 by {
            let i = choose|i: int| 0 <= i < rest.len() && (#[trigger] rest[i]).1 == v;
            assert(items[i] == rest[i]);
        }
        lemma_batch_one_key(m0, m, rest, idx);
        lemma_batch_values(m, rest, idx);
        let prev = mnemonic_batch(m, rest, idx);
        let out = mnemonic_batch(m, items, idx);
        assert(out == mnemonic_step(prev, last, idx));
        // No new shortcut so far is bound to the last item's value.
        assert forall|k: Key| #[trigger] prev.0.contains_key(k) && !m0.contains_key(k) implies prev.0[k]
            != last.1 by {
            if m.contains_key(k) && prev.0[k] == m[k] {
                assert(among_values(items, last.1));
            } else {
                let (i, j) = choose|i: int, j: int|
                    0 <= i < rest.len() && 0 <= j < rest[i].0.len() && (#[trigger] rest[i]).1
                        == prev.0[k] && mnemonic_key(#[trigger] rest[i].0[j]) == Some(k);
                assert(among_values(rest, rest[i].1));
            }
        }
        assert forall|i: int| 0 <= i < prev.1.len() implies (#[trigger] prev.1[i]).1 != last.1 by {
            assert(among_values(prev.1, prev.1[i].1));
        }
        assert forall|v: V| among_values(out.1, v) implies among_values(items, v) by {
            let i = choose|i: int| 0 <= i < out.1.len() && (#[trigger] out.1[i]).1 == v;
            if i < prev.1.len() {
                assert(out.1[i] == prev.1[i]);
                assert(among_values(prev.1, v));
            }
        }
        if out.1 != prev.1 {
            assert(out.1 == prev.1.push(last));
            assert forall|i: int, j: int| 0 <= i < j < out.1.len() implies (#[trigger] out.1[i]).1 != (
            #[trigger] out.1[j]).1 by {
                assert(out.1[i] == prev.1[i]);
                if j < prev.1.len() {
                    assert(out.1[j] == prev.1[j]);
                }
            }
            assert forall|k: Key| #[trigger] out.0.contains_key(k) && !m0.contains_key(k) implies !among_values(
                out.1,
                out.0[k],
            ) by {
                if among_values(out.1, out.0[k]) {
                    let i = choose|i: int| 0 <= i < out.1.len() && (#[trigger] out.1[i]).1 == out.0[k];
                    if i < prev.1.len() {
                        assert(out.1[i] == prev.1[i]);
                        assert(among_values(prev.1, out.0[k]));
                    }
                }
            }
        } else if out.0 != prev.0 {
            let k = mnemonic_key(last.0[idx as int])->0;
            assert(out.0 == prev.0.insert(k, last.1));
            assert(!prev.0.contains_key(k));
            assert forall|k1: Key| #[trigger] out.0.contains_key(k1) && !m0.contains_key(k1) implies !among_values(
                out.1,
                out.0[k1],
            ) by {
                if k1 == k {
                    if among_values(out.1, last.1) {
                        let i = choose|i: int| 0 <= i < out.1.len() && (#[trigger] out.1[i]).1 == last.1;
                    }
                }
            }
        }
    }
}

/// Over all batches, every item value is bound to at most one new shortcut.
proof fn lemma_batches_one_key<V>(
    m0: Map<Key, V>,
    m: Map<Key, V>,
    items: Seq<(Seq<char>, V)>,
    idx: nat,
    bound: nat,
)
    requires
        distinct_values(items),
        new_keys_distinct(m0, m),
        new_keys_apart(m0, m, items),
    ensures
        new_keys_distinct(m0, mnemonic_batches(m, items, idx, bound)),
    decreases bound - idx,
{
    if items.len() > 0 && idx < bound {
        let (m2, failed) = mnemonic_batch(m, items, idx);
        lemma_batch_one_key(m0, m, items, idx);
        lemma_batches_one_key(m0, m2, failed, idx + 1, bound);
    }
}

/// Mnemonic assignment gives each of the named values at most one new shortcut, when the values
/// are pairwise different: two shortcuts it adds are never bound to the same value.
pub proof fn lemma_mnemonics_one_key_each<V>(m: Map<Key, V>, named: Seq<(Seq<char>, V)>)
    requires
        forall|i: int, j: int| 0 <= i < j < named.len() ==> (#[trigger] named[i]).1 != (#[trigger] named[j]).1,
    ensures
        forall|k1: Key, k2: Key|
            #[trigger] assign_named(m, named).contains_key(k1) && #[trigger] assign_named(m, named).contains_key(k2)
                && !m.contains_key(k1) && !m.contains_key(k2) && k1 != k2 ==> assign_named(m, named)[k1]
                != assign_named(m, named)[k2],
{
    let items = named_items(named);
    assert forall|i: int, j: int| 0 <= i < j < items.len() implies (#[trigger] items[i]).1 != (
    #[trigger] items[j]).1 by {
        assert(items[i].1 == named[i].1 && items[j].1 == named[j].1);
    }
    lemma_batches_one_key(m, m, items, 0, longest_name(items));
}

/// Whether `r` has a shortcut that `m` does not have, bound to `v`.
pub open spec fn has_new_key<V>(m: Map<Key, V>, r: Map<Key, V>, v: V) -> bool {
    exists|k: Key| #[trigger] r.contains_key(k) && !m.contains_key(k) && r[k] == v
}

/// Whether the mnemonic shortcut of each of the first `n` characters of `name`, where there is
/// one, is assigned in `r`.
pub open spec fn taken_upto<V>(r: Map<Key, V>, name: Seq<char>, n: int) -> bool {
    forall|j: int|
        0 <= j < n && j < name.len() ==> (#[trigger] mnemonic_key(name[j]) matches Some(k) ==> r.contains_key(k))
}

/// Within a batch at character `idx`, every item gets a new shortcut, or has no character there
/// and all its shortcuts are taken, or is passed on with its shortcuts up to `idx` taken.
proof fn lemma_batch_drops<V>(m: Map<Key, V>, items: Seq<(Seq<char>, V)>, idx: nat)
    requires
        forall|i: int| 0 <= i < items.len() ==> taken_upto(m, (#[trigger] items[i]).0, idx as int),
    ensures
        forall|i: int|
            0 <= i < items.len() ==> has_new_key(m, mnemonic_batch(m, items, idx).0, (#[trigger] items[i]).1)
                || (items[i].0.len() <= idx && taken_upto(mnemonic_batch(m, items, idx).0, items[i].0, idx as int))
                || mnemonic_batch(m, items, idx).1.contains(items[i]),
        forall|i: int|
            0 <= i < mnemonic_batch(m, items, idx).1.len() ==> taken_upto(
                mnemonic_batch(m, items, idx).0,
                (#[trigger] mnemonic_batch(m, items, idx).1[i]).0,
                (idx + 1) as int,
            ),
    decreases items.len(),
{
    if items.len() > 0 {
        let rest = items.drop_last();
        let last = items.last();
        let n = items.len() - 1;
        assert(items[n] == last);
        assert forall|i: int| 0 <= i < rest.len() implies taken_upto(m, (#[trigger] rest[i]).0, idx as int) by {
            assert(rest[i] == items[i]);
        }
        lemma_batch_drops(m, rest, idx);
        lemma_batch_keeps(m, rest, idx);
        lemma_batch_values(m, rest, idx);
        let prev = mnemonic_batch(m, rest, idx);
        let out = mnemonic_batch(m, items, idx);
        assert(out == mnemonic_step(prev, last, idx));
        lemma_batch_keeps(m, items, idx);
        // What holds of the map before the last item holds of the map after it.
        assert(keeps_bindings(prev.0, out.0));
        assert forall|i: int| 0 <= i < items.len() implies has_new_key(m, out.0, (#[trigger] items[i]).1)
            || (items[i].0.len() <= idx && taken_upto(out.0, items[i].0, idx as int)) || out.1.contains(
            items[i],
        ) by {
            if i < rest.len() {
                assert(items[i] == rest[i]);
                if has_new_key(m, prev.0, rest[i].1) {
                    let k = choose|k: Key| #[trigger] prev.0.contains_key(k) && !m.contains_key(k) && prev.0[k]
                        == rest[i].1;
                    assert(out.0.contains_key(k));
                } else if rest[i].0.len() <= idx && taken_upto(prev.0, rest[i].0, idx as int) {
                    assert forall|j: int| 0 <= j < idx && j < rest[i].0.len() implies (#[trigger] mnemonic_key(
                        rest[i].0[j],
                    ) matches Some(k) ==> out.0.contains_key(k)) by {}
                } else {
                    assert(prev.1.contains(rest[i]));
                    let j = choose|j: int| 0 <= j < prev.1.len() && prev.1[j] == rest[i];
                    assert(out.1[j] == prev.1[j]);
                }
            } else {
                assert(items[i] == last);
                if idx >= last.0.len() {
                    assert forall|j: int| 0 <= j < idx && j < last.0.len() implies (#[trigger] mnemonic_key(
                        last.0[j],
                    ) matches Some(k) ==> out.0.contains_key(k)) by {
                        assert(taken_upto(m, items[n].0, idx as int));
                    }
                } else if out.1.len() > prev.1.len() {
                    assert(out.1[out.1.len() - 1] == last);
                } else {
                    let k = mnemonic_key(last.0[idx as int])->0;
                    assert(out.0.contains_key(k) && !prev.0.contains_key(k) && out.0[k] == last.1);
                    assert(!m.contains_key(k));
                }
            }
        }
        assert forall|i: int| 0 <= i < out.1.len() implies taken_upto(out.0, (#[trigger] out.1[i]).0, (idx + 1) as int) by {
            let f = out.1[i];
            if i < prev.1.len() {
                assert(f == prev.1[i]);
                assert forall|j: int| 0 <= j < idx + 1 && j < f.0.len() implies (#[trigger] mnemonic_key(
                    f.0[j],
                ) matches Some(k) ==> out.0.contains_key(k)) by {
                    assert(taken_upto(prev.0, prev.1[i].0, (idx + 1) as int));
                }
            } else {
                assert(f == last);
                assert forall|j: int| 0 <= j < idx + 1 && j < f.0.len() implies (#[trigger] mnemonic_key(
                    f.0[j],
                ) matches Some(k) ==> out.0.contains_key(k)) by {
                    if j < idx {
                        assert(taken_upto(m, items[n].0, idx as int));
                    }
                }
            }
        }
    }
}

/// Over all batches, every item gets a new shortcut or finds the shortcuts of all its characters
/// taken.
proof fn lemma_batches_drops<V>(m: Map<Key, V>, items: Seq<(Seq<char>, V)>, idx: nat, bound: nat)
    requires
        forall|i: int| 0 <= i < items.len() ==> taken_upto(m, (#[trigger] items[i]).0, idx as int),
        forall|i: int| 0 <= i < items.len() ==> (#[trigger] items[i]).0.len() <= bound,
    ensures
        forall|i: int|
            0 <= i < items.len() ==> has_new_key(m, mnemonic_batches(m, items, idx, bound), (#[trigger] items[i]).1)
                || taken_upto(mnemonic_batches(m, items, idx, bound), items[i].0, items[i].0.len() as int),
    decreases bound - idx,
{
    let r = mnemonic_batches(m, items, idx, bound);
    if items.len() > 0 && idx < bound {
        let (m2, failed) = mnemonic_batch(m, items, idx);
        lemma_batch_drops(m, items, idx);
        lemma_batch_keeps(m, items, idx);
        lemma_batch_failed(m, items, idx, bound);
        lemma_batches_drops(m2, failed, idx + 1, bound);
        lemma_batches_keep(m2, failed, idx + 1, bound);
        assert forall|i: int| 0 <= i < items.len() implies has_new_key(m, r, (#[trigger] items[i]).1)
            || taken_upto(r, items[i].0, items[i].0.len() as int) by {
            if has_new_key(m, m2, items[i].1) {
                let k = choose|k: Key| #[trigger] m2.contains_key(k) && !m.contains_key(k) && m2[k] == items[i].1;
                assert(r.contains_key(k));
            } else if items[i].0.len() <= idx && taken_upto(m2, items[i].0, idx as int) {
                assert forall|j: int| 0 <= j < items[i].0.len() && j < items[i].0.len() implies (
                #[trigger] mnemonic_key(items[i].0[j]) matches Some(k) ==> r.contains_key(k)) by {}
            } else {
                assert(failed.contains(items[i]));
                let f = choose|f: int| 0 <= f < failed.len() && failed[f] == items[i];
                if has_new_key(m2, r, failed[f].1) {
                    let k = choose|k: Key| #[trigger] r.contains_key(k) && !m2.contains_key(k) && r[k] == failed[f].1;
                    assert(!m.contains_key(k));
                }
            }
        }
    } else if items.len() > 0 {
        assert forall|i: int| 0 <= i < items.len() implies has_new_key(m, r, (#[trigger] items[i]).1)
            || taken_upto(r, items[i].0, items[i].0.len() as int) by {
            assert(taken_upto(m, items[i].0, idx as int));
        }
    }
}

/// The mnemonic assignment of named values with pairwise different values, in one statement:
/// every shortcut already assigned is kept; every new shortcut is the plain key typed by the
/// ASCII lower-case form of a character of the name of the value bound to it, or of the fallback
/// characters `1234567890,.?/!@#$%&` after it; each value gets at most one new shortcut; and a
/// value gets none only when the shortcuts of all those characters are taken.
pub proof fn lemma_mnemonic_assignment<V>(m: Map<Key, V>, named: Seq<(Seq<char>, V)>)
    requires
        forall|i: int, j: int| 0 <= i < j < named.len() ==> (#[trigger] named[i]).1 != (#[trigger] named[j]).1,
    ensures
        keeps_bindings(m, assign_named(m, named)),
        forall|k: Key| #[trigger] assign_named(m, named).contains_key(k) && !m.contains_key(k) ==> exists|
            i: int,
            j: int,
        |
            0 <= i < named.len() && 0 <= j < named[i].0.len() + mnemonic_fallback().len()
                && (#[trigger] named[i]).1 == assign_named(m, named)[k] && mnemonic_key(
                #[trigger] (named[i].0 + mnemonic_fallback())[j],
            ) == Some(k),
        forall|k1: Key, k2: Key|
            #[trigger] assign_named(m, named).contains_key(k1) && #[trigger] assign_named(m, named).contains_key(k2)
                && !m.contains_key(k1) && !m.contains_key(k2) && k1 != k2 ==> assign_named(m, named)[k1]
                != assign_named(m, named)[k2],
        forall|i: int|
            0 <= i < named.len() ==> has_new_key(m, assign_named(m, named), (#[trigger] named[i]).1)
                || taken_upto(
                assign_named(m, named),
                named[i].0 + mnemonic_fallback(),
                (named[i].0.len() + mnemonic_fallback().len()) as int,
            ),
{
    lemma_mnemonics_bind_given_values(m, named);
    lemma_mnemonics_one_key_each(m, named);
    let items = named_items(named);
    lemma_longest_name(items);
    assert forall|i: int| 0 <= i < items.len() implies taken_upto(m, (#[trigger] items[i]).0, 0) by {}
    lemma_batches_drops(m, items, 0, longest_name(items));
    assert forall|i: int| 0 <= i < named.len() implies has_new_key(m, assign_named(m, named), (#[trigger] named[i]).1)
        || taken_upto(
        assign_named(m, named),
        named[i].0 + mnemonic_fallback(),
        (named[i].0.len() + mnemonic_fallback().len()) as int,
    ) by {
        assert(items[i] == (named[i].0 + mnemonic_fallback(), named[i].1));
    }
}

/// Whether `k` is the key a mnemonic character `c` stands for: the plain key, with no modifier,
/// whose symbol is the one xkb gives the character's ASCII lower-case form (`A` to `Z` moved down
/// to `a` to `z`, every other character as it is), where xkb gives it a symbol at all.
pub open spec fn is_lowercase_key_of(k: Key, c: char) -> bool {
    let lower = if 'A' <= c && c <= 'Z' {
        ((c as u32) + 32) as char
    } else {
        c
    };
    &&& xkb_keysym_of_char(lower) != 0
    &&& k.symbol == Symbol(xkb_keysym_of_char(lower))
    &&& k.modifiers == (ModifierSet { alt: false, control: false, shift: false, super_key: false })
}

/// Every shortcut that mnemonic assignment adds is bound to one of the given values, and is the
/// plain key of the ASCII lower-case form of a character of that value's name, or of one of the
/// characters `1234567890,.?/!@#$%&` tried after the name: a name `Firefox` gets `f`, never `F`.
pub proof fn lemma_mnemonic_keys_are_lowercase_plain_keys<V>(m: Map<Key, V>, values: Seq<(&str, V)>)
    ensures
        forall|k: Key|
            #[trigger] assign_mnemonics(m, values).contains_key(k) && !m.contains_key(k) ==> exists|
                i: int,
                j: int,
            |
                0 <= i < values.len() && 0 <= j < values[i].0@.len() + "1234567890,.?/!@#$%&"@.len()
                    && (#[trigger] values[i]).1 == assign_mnemonics(m, values)[k]
                    && is_lowercase_key_of(k, #[trigger] (values[i].0@ + "1234567890,.?/!@#$%&"@)[j]),
{
    let named = name_views(values);
    let r = assign_mnemonics(m, values);
    lemma_mnemonics_bind_given_values(m, named);
    assert forall|k: Key| #[trigger] r.contains_key(k) && !m.contains_key(k) implies exists|
        i: int,
        j: int,
    |
        0 <= i < values.len() && 0 <= j < values[i].0@.len() + "1234567890,.?/!@#$%&"@.len()
            && (#[trigger] values[i]).1 == r[k] && is_lowercase_key_of(
            k,
            #[trigger] (values[i].0@ + "1234567890,.?/!@#$%&"@)[j],
        ) by {
        let (i, j) = choose|i: int, j: int|
            0 <= i < named.len() && 0 <= j < named[i].0.len() + mnemonic_fallback().len()
                && (#[trigger] named[i]).1 == r[k] && mnemonic_key(
                #[trigger] (named[i].0 + mnemonic_fallback())[j],
            ) == Some(k);
        assert(named[i] == (values[i].0@, values[i].1));
        let c = (values[i].0@ + "1234567890,.?/!@#$%&"@)[j];
        assert(c == (named[i].0 + mnemonic_fallback())[j]);
        assert(is_lowercase_key_of(k, c));
    }
}

} // verus!
