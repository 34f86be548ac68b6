//! Items, inventories, recipes and solved crafting results.
use vstd::prelude::*;
use vstd::std_specs::hash::DefaultHasherAdditionalSpecFns;
use vstd::bytes::{spec_u64_to_le_bytes, u64_to_le_bytes};
use vstd::string::StringExecFns;
use std::collections::hash_map::DefaultHasher;
use std::hash::Hasher;
use crate::keyed_entries::{
    add_entry, sub_entry, lemma_sub_entry, count_of, has_key, key_index, keys_distinct, keys_of, lemma_add_entry, lemma_key_index,
    lemma_key_index_absent, lemma_key_index_at, lemma_merged, lemma_total_for_take, merged, total_for,
    totals_fit, value_of,
};
use crate::lex_order::{lex_lt, isize_ints, isize_seq_less};

verus! {

/// Upper bound for a recipe usage when the usage is capped.
pub const MAX_RECIPE_VALUE: i32 = i32::MAX - 10000;

pub type ItemId = usize;

pub const COBBLESTONE_ID: ItemId = 0;
pub const GRAVEL_ID: ItemId = 1;
pub const SAND_ID: ItemId = 2;
pub const GLASS_ID: ItemId = 3;
pub const DIAMOND_ID: ItemId = 4;
pub const STRESS_ITEM_BASE_ID: usize = 100;
pub const STRESS_ITEM_COUNT: usize = 25;

/// The label of an item in reports.
pub open spec fn display_name(item_id: ItemId) -> Seq<char> {
    if item_id == 0 {
        "Cobblestone"@
    } else if item_id == 1 {
        "Gravel"@
    } else if item_id == 2 {
        "Sand"@
    } else if item_id == 3 {
        "Glass"@
    } else if item_id == 4 {
        "Diamond"@
    } else if item_id < STRESS_ITEM_BASE_ID || item_id >= STRESS_ITEM_BASE_ID + STRESS_ITEM_COUNT {
        "Unknown"@
    } else {
        stress_item_name((item_id - STRESS_ITEM_BASE_ID) as nat)
    }
}

/// Names of the items of the stress scenarios, by offset from the first one.
pub open spec fn stress_item_name(offset: nat) -> Seq<char> {
    if offset == 0 { "Alpha"@ }
    else if offset == 1 { "Beta"@ }
    else if offset == 2 { "Gamma"@ }
    else if offset == 3 { "Delta"@ }
    else if offset == 4 { "Epsilon"@ }
    else if offset == 5 { "Zeta"@ }
    else if offset == 6 { "Eta"@ }
    else if offset == 7 { "Theta"@ }
    else if offset == 8 { "Iota"@ }
    else if offset == 9 { "Kappa"@ }
    else if offset == 10 { "Lambda"@ }
    else if offset == 11 { "Mu"@ }
    else if offset == 12 { "Nu"@ }
    else if offset == 13 { "Xi"@ }
    else if offset == 14 { "Omicron"@ }
    else if offset == 15 { "Pi"@ }
    else if offset == 16 { "Rho"@ }
    else if offset == 17 { "Sigma"@ }
    else if offset == 18 { "Tau"@ }
    else if offset == 19 { "Upsilon"@ }
    else if offset == 20 { "Phi"@ }
    else if offset == 21 { "Chi"@ }
    else if offset == 22 { "Psi"@ }
    else if offset == 23 { "Omega"@ }
    else { "OmegaPrime"@ }
}

/// Returns a stable, human-readable label for an item, "Unknown" for unmapped ids.
pub fn item_display_name(item_id: ItemId) -> (name: &'static str)
    ensures
        name@ == display_name(item_id),
{
    if item_id < 5 {
        match item_id {
            0 => "Cobblestone",
            1 => "Gravel",
            2 => "Sand",
            3 => "Glass",
            _ => "Diamond",
        }
    } else if item_id >= STRESS_ITEM_BASE_ID && item_id < STRESS_ITEM_BASE_ID + STRESS_ITEM_COUNT {
        match item_id - STRESS_ITEM_BASE_ID {
            0 => "Alpha",
            1 => "Beta",
            2 => "Gamma",
            3 => "Delta",
            4 => "Epsilon",
            5 => "Zeta",
            6 => "Eta",
            7 => "Theta",
            8 => "Iota",
            9 => "Kappa",
            10 => "Lambda",
            11 => "Mu",
            12 => "Nu",
            13 => "Xi",
            14 => "Omicron",
            15 => "Pi",
            16 => "Rho",
            17 => "Sigma",
            18 => "Tau",
            19 => "Upsilon",
            20 => "Phi",
            21 => "Chi",
            22 => "Psi",
            23 => "Omega",
            _ => "OmegaPrime",
        }
    } else {
        "Unknown"
    }
}

/// A bag of items: one `(item id, count)` entry per item, in the order the
/// items were first added. Items listed with count 0 still count as present.
#[derive(Debug)]
pub struct ItemSet {
    pub items: Vec<(ItemId, usize)>,
}

impl View for ItemSet {
    type V = Seq<(ItemId, usize)>;

    open spec fn view(&self) -> Seq<(ItemId, usize)> {
        self.items@
    }
}

impl ItemSet {
    /// The count of an item (0 when absent).
    pub open spec fn spec_count(&self, item_id: ItemId) -> nat {
        count_of(self@, item_id)
    }

    /// Whether the item has an entry.
    pub open spec fn spec_has(&self, item_id: ItemId) -> bool {
        has_key(self@, item_id)
    }

    /// Builds an item set from `(item id, count)` pairs, merging repeated ids
    /// into one accumulated total.
    pub fn from_item_counts(items: Vec<(ItemId, usize)>) -> (set: Self)
        requires
            totals_fit(items@),
        ensures
            set@ == merged(items@),
            keys_distinct(set@),
            forall|k: ItemId| #[trigger] set.spec_count(k) == total_for(items@, k),
            forall|k: ItemId| #[trigger] set.spec_has(k) <==> has_key(items@, k),
    {
        let mut set = ItemSet { items: Vec::new() };
        let mut i: usize = 0;
        while i < items.len()
            invariant
                i <= items.len(),
                totals_fit(items@),
                set@ == merged(items@.take(i as int)),
            decreases items.len() - i,
        {
            let (item_id, count) = items[i];
            proof {
                lemma_total_for_take(items@, i as int, item_id);
                assert(totals_fit(items@.take(i as int))) by {
                    assert forall|n: int, k: usize| 0 <= n <= i implies #[trigger] total_for(
                        items@.take(i as int).take(n),
                        k,
                    ) <= usize::MAX by {
                        assert(items@.take(i as int).take(n) =~= items@.take(n));
                    }
                }
                lemma_merged(items@.take(i as int));
                assert(total_for(items@.take(i + 1), item_id) <= usize::MAX);
            }
            set.add_count(item_id, count);
            i = i + 1;
        }
        assert(items@.take(items.len() as int) =~= items@);
        proof {
            lemma_merged(items@);
        }
        set
    }

    /// Increases the quantity of one item.
    pub fn add_count(&mut self, item_id: ItemId, count: usize)
        requires
            old(self).spec_count(item_id) + count <= usize::MAX,
        ensures
            final(self)@ == add_entry(old(self)@, item_id, count),
            forall|k: ItemId| #[trigger] final(self).spec_count(k) == if k == item_id {
                old(self).spec_count(k) + count
            } else {
                old(self).spec_count(k) as int
            },
            forall|k: ItemId| #[trigger] final(self).spec_has(k) <==> (old(self).spec_has(k) || k == item_id),
            keys_distinct(old(self)@) ==> keys_distinct(final(self)@),
    {
        proof {
            lemma_key_index(self@, item_id);
        }
        let idx = self.index_of(item_id);
        match idx {
            Some(i) => {
                let (k, c) = self.items[i];
                self.items.set(i, (k, c + count));
            },
            None => {
                self.items.push((item_id, count));
            },
        }
        proof {
            assert(self@ =~= add_entry(old(self)@, item_id, count));
            assert forall|k: ItemId| #[trigger] self.spec_count(k) == if k == item_id {
                old(self).spec_count(k) + count
            } else {
                old(self).spec_count(k) as int
            } by {
                lemma_add_entry(old(self)@, item_id, count, k);
            }
            assert forall|k: ItemId| #[trigger] self.spec_has(k) <==> (old(self).spec_has(k) || k == item_id) by {
                lemma_add_entry(old(self)@, item_id, count, k);
            }
            lemma_add_entry(old(self)@, item_id, count, item_id);
        }
    }

    /// Decreases the quantity of one item; an absent item gets an entry with count 0.
    pub fn subtract_count(&mut self, item_id: ItemId, count: usize)
        requires
            count <= old(self).spec_count(item_id),
        ensures
            final(self)@ == sub_entry(old(self)@, item_id, count),
            forall|k: ItemId| #[trigger] final(self).spec_count(k) == if k == item_id {
                old(self).spec_count(k) - count
            } else {
                old(self).spec_count(k) as int
            },
            forall|k: ItemId| #[trigger] final(self).spec_has(k) <==> (old(self).spec_has(k) || k == item_id),
            keys_distinct(old(self)@) ==> keys_distinct(final(self)@),
    {
        proof {
            lemma_key_index(self@, item_id);
        }
        let idx = self.index_of(item_id);
        match idx {
            Some(i) => {
                let (k, c) = self.items[i];
                self.items.set(i, (k, c - count));
            },
            None => {
                self.items.push((item_id, 0));
            },
        }
        proof {
            assert(self@ =~= sub_entry(old(self)@, item_id, count));
            assert forall|k: ItemId| #[trigger] self.spec_count(k) == if k == item_id {
                old(self).spec_count(k) - count
            } else {
                old(self).spec_count(k) as int
            } by {
                lemma_sub_entry(old(self)@, item_id, count, k);
            }
            assert forall|k: ItemId| #[trigger] self.spec_has(k) <==> (old(self).spec_has(k) || k == item_id) by {
                lemma_sub_entry(old(self)@, item_id, count, k);
            }
            lemma_sub_entry(old(self)@, item_id, count, item_id);
        }
    }

    /// Position of the entry of an item.
    pub fn index_of(&self, item_id: ItemId) -> (r: Option<usize>)
        ensures
            r is Some <==> key_index(self@, item_id) >= 0,
            r matches Some(i) ==> i == key_index(self@, item_id),
    {
        let mut i: usize = 0;
        while i < self.items.len()
            invariant
                i <= self.items.len(),
                forall|j: int| 0 <= j < i ==> self@[j].0 != item_id,
            decreases self.items.len() - i,
        {
            if self.items[i].0 == item_id {
                proof {
                    lemma_key_index_at(self@, item_id, i as int);
                }
                return Some(i);
            }
            i = i + 1;
        }
        proof {
            lemma_key_index_absent(self@, item_id);
        }
        None
    }

    /// The quantity of an item, 0 when it has no entry.
    pub fn count(&self, item_id: ItemId) -> (c: usize)
        ensures
            c == self.spec_count(item_id),
    {
        proof {
            lemma_key_index(self@, item_id);
        }
        match self.index_of(item_id) {
            Some(i) => self.items[i].1,
            None => 0,
        }
    }

    /// Whether the item has an entry (possibly with count 0).
    pub fn contains(&self, item_id: ItemId) -> (b: bool)
        ensures
            b == self.spec_has(item_id),
    {
        proof {
            lemma_key_index(self@, item_id);
        }
        self.index_of(item_id).is_some()
    }

    /// Number of entries.
    pub fn len(&self) -> (n: usize)
        ensures
            n == self@.len(),
    {
        self.items.len()
    }

    /// Whether the set has no entries.
    pub fn is_empty(&self) -> (b: bool)
        ensures
            b == (self@.len() == 0),
    {
        self.items.len() == 0
    }

    /// The item ids, in entry order.
    pub fn item_ids(&self) -> (ids: Vec<ItemId>)
        ensures
            ids@ == keys_of(self@),
    {
        let mut ids: Vec<ItemId> = Vec::new();
        let mut i: usize = 0;
        while i < self.items.len()
            invariant
                i <= self.items.len(),
                ids@ == keys_of(self@.take(i as int)),
            decreases self.items.len() - i,
        {
            ids.push(self.items[i].0);
            assert(keys_of(self@.take(i + 1)) =~= keys_of(self@.take(i as int)).push(self@[i as int].0));
            i = i + 1;
        }
        assert(self@.take(self@.len() as int) =~= self@);
        ids
    }
}

impl std::ops::Index<ItemId> for ItemSet {
    type Output = usize;

    /// The quantity of an item, 0 when it has no entry.
    fn index(&self, item_id: ItemId) -> (c: &usize)
        ensures
            *c == self.spec_count(item_id),
    {
        proof {
            lemma_key_index(self@, item_id);
        }
        match self.index_of(item_id) {
            Some(i) => &self.items[i].1,
            None => &0,
        }
    }
}

impl vstd::std_specs::core::IndexSpecImpl<ItemId> for ItemSet {
    open spec fn index_req(&self, item_id: &ItemId) -> bool {
        true
    }
}

impl Clone for ItemSet {
    fn clone(&self) -> (r: Self)
        ensures
            r@ == self@,
    {
        let mut items: Vec<(ItemId, usize)> = Vec::new();
        let mut i: usize = 0;
        while i < self.items.len()
            invariant
                i <= self.items.len(),
                items@ == self@.take(i as int),
            decreases self.items.len() - i,
        {
            let (k, c) = self.items[i];
            items.push((k, c));
            assert(self@.take(i + 1) =~= self@.take(i as int).push(self@[i as int]));
            i = i + 1;
        }
        assert(self@.take(self@.len() as int) =~= self@);
        ItemSet { items }
    }
}

/// Two entry lists hold the same items with the same counts, whatever their
/// order.
pub open spec fn same_content(a: Seq<(ItemId, usize)>, b: Seq<(ItemId, usize)>) -> bool {
    forall|k: ItemId| #[trigger] has_key(a, k) == has_key(b, k) && count_of(a, k) == count_of(b, k)
}

impl PartialEq for ItemSet {
    fn eq(&self, other: &Self) -> (r: bool) {
        let mut i: usize = 0;
        while i < self.items.len()
            invariant
                i <= self.items.len(),
                forall|q: int| 0 <= q < i ==> other.spec_has(#[trigger] self@[q].0) && other.spec_count(self@[q].0)
                    == self.spec_count(self@[q].0),
            decreases self.items.len() - i,
        {
            let k = self.items[i].0;
            proof {
                assert(has_key(self@, k)) by {
                    assert(self@[i as int].0 == k);
                }
            }
            if !other.contains(k) || other.count(k) != self.count(k) {
                return false;
            }
            i = i + 1;
        }
        let mut j: usize = 0;
        while j < other.items.len()
            invariant
                j <= other.items.len(),
                forall|q: int| 0 <= q < self@.len() ==> other.spec_has(#[trigger] self@[q].0) && other.spec_count(self@[q].0)
                    == self.spec_count(self@[q].0),
                forall|q: int| 0 <= q < j ==> self.spec_has(#[trigger] other@[q].0),
            decreases other.items.len() - j,
        {
            let k = other.items[j].0;
            proof {
                assert(has_key(other@, k)) by {
                    assert(other@[j as int].0 == k);
                }
            }
            if !self.contains(k) {
                return false;
            }
            j = j + 1;
        }
        proof {
            assert forall|k: ItemId| #[trigger] has_key(self@, k) == has_key(other@, k) && count_of(self@, k) == count_of(
                other@,
                k,
            ) by {
                lemma_key_index(self@, k);
                lemma_key_index(other@, k);
                if has_key(self@, k) {
                    let q = choose|q: int| 0 <= q < self@.len() && #[trigger] self@[q].0 == k;
                    assert(other.spec_has(self@[q].0));
                }
                if has_key(other@, k) {
                    let q = choose|q: int| 0 <= q < other@.len() && #[trigger] other@[q].0 == k;
                    assert(self.spec_has(other@[q].0));
                    let p = choose|p: int| 0 <= p < self@.len() && #[trigger] self@[p].0 == k;
                    assert(other.spec_has(self@[p].0));
                }
            }
        }
        true
    }
}

impl vstd::std_specs::cmp::PartialEqSpecImpl for ItemSet {
    open spec fn obeys_eq_spec() -> bool {
        true
    }

    open spec fn eq_spec(&self, other: &Self) -> bool {
        same_content(self@, other@)
    }
}

impl Eq for ItemSet {
}

/// A route key: the base priorities of the recipes on a route, compared
/// lexicographically with a proper prefix first.
#[derive(Debug, PartialEq, Eq, Hash, PartialOrd, Ord)]
pub struct RecipePriorityKey(pub Vec<isize>);

impl RecipePriorityKey {
    /// The key as integers.
    pub open spec fn key(&self) -> Seq<int> {
        isize_ints(self.0@)
    }

    /// Extends a route key with the next recipe's base priority.
    pub fn append_recipe_priority(&mut self, recipe: &Recipe)
        ensures
            final(self).0@ == old(self).0@.push(recipe.base_priority),
    {
        self.0.push(recipe.base_priority);
    }

    /// Whether this key ranks strictly before `other`.
    pub fn precedes(&self, other: &RecipePriorityKey) -> (b: bool)
        ensures
            b == lex_lt(self.key(), other.key()),
    {
        isize_seq_less(&self.0, &other.0)
    }
}

impl Clone for RecipePriorityKey {
    fn clone(&self) -> (r: Self)
        ensures
            r.0@ == self.0@,
    {
        let mut v: Vec<isize> = Vec::new();
        let mut i: usize = 0;
        while i < self.0.len()
            invariant
                i <= self.0.len(),
                v@ == self.0@.take(i as int),
            decreases self.0.len() - i,
        {
            v.push(self.0[i]);
            assert(self.0@.take(i + 1) =~= self.0@.take(i as int).push(self.0@[i as int]));
            i = i + 1;
        }
        assert(self.0@.take(self.0@.len() as int) =~= self.0@);
        RecipePriorityKey(v)
    }
}

/// The mathematical content of a recipe.
pub struct RecipeView {
    pub unique_id: usize,
    pub input: Seq<(ItemId, usize)>,
    pub output: Seq<(ItemId, usize)>,
    pub base_priority: isize,
    pub effective_priority: Option<isize>,
}

/// A transformation of input items into output items.
#[derive(Debug)]
pub struct Recipe {
    pub unique_id: usize,
    pub input: ItemSet,
    pub output: ItemSet,
    pub base_priority: isize,
    pub effective_priority: Option<isize>,
}

impl View for Recipe {
    type V = RecipeView;

    open spec fn view(&self) -> RecipeView {
        RecipeView {
            unique_id: self.unique_id,
            input: self.input@,
            output: self.output@,
            base_priority: self.base_priority,
            effective_priority: self.effective_priority,
        }
    }
}

impl Clone for Recipe {
    fn clone(&self) -> (r: Self)
        ensures
            r@ == self@,
    {
        Recipe {
            unique_id: self.unique_id,
            input: self.input.clone(),
            output: self.output.clone(),
            base_priority: self.base_priority,
            effective_priority: self.effective_priority,
        }
    }
}

impl PartialEq for Recipe {
    fn eq(&self, other: &Self) -> (r: bool) {
        self.unique_id == other.unique_id
    }
}

impl vstd::std_specs::cmp::PartialEqSpecImpl for Recipe {
    open spec fn obeys_eq_spec() -> bool {
        true
    }

    open spec fn eq_spec(&self, other: &Self) -> bool {
        self.unique_id == other.unique_id
    }
}

impl Eq for Recipe {
}

/// The bytes written to the hasher for a list of entries: each id and count
/// as 8 little-endian bytes.
pub open spec fn entry_hash_writes(s: Seq<(ItemId, usize)>) -> Seq<Seq<u8>>
    decreases s.len(),
{
    if s.len() == 0 {
        Seq::empty()
    } else {
        entry_hash_writes(s.drop_last()).push(spec_u64_to_le_bytes(s.last().0 as u64)).push(
            spec_u64_to_le_bytes(s.last().1 as u64),
        )
    }
}

/// Position of the first entry with the least item id.
pub open spec fn first_min_index(s: Seq<(ItemId, usize)>) -> int
    decreases s.len(),
{
    if s.len() <= 1 {
        0
    } else {
        let m = first_min_index(s.drop_last());
        if s.last().0 < s[m].0 {
            s.len() - 1
        } else {
            m
        }
    }
}

/// The first least entry lies in the sequence and no entry has a smaller id.
pub proof fn lemma_first_min_index(s: Seq<(ItemId, usize)>)
    requires
        s.len() > 0,
    ensures
        0 <= first_min_index(s) < s.len(),
        forall|k: int| 0 <= k < s.len() ==> s[first_min_index(s)].0 <= (#[trigger] s[k]).0,
    decreases s.len(),
{
    if s.len() > 1 {
        let w = s.drop_last();
        lemma_first_min_index(w);
        assert forall|k: int| 0 <= k < s.len() implies s[first_min_index(s)].0 <= (#[trigger] s[k]).0 by {
            if k < s.len() - 1 {
                assert(s[k] == w[k]);
            }
            assert(w[first_min_index(w)] == s[first_min_index(w)]);
        }
    }
}

/// The entries ordered by item id (entries of one id keep their order).
pub open spec fn key_ordered(s: Seq<(ItemId, usize)>) -> Seq<(ItemId, usize)>
    decreases s.len(),
{
    if s.len() == 0 {
        Seq::empty()
    } else {
        let m = first_min_index(s);
        if 0 <= m < s.len() {
            seq![s[m]] + key_ordered(s.remove(m))
        } else {
            Seq::empty()
        }
    }
}

/// Removing an entry from a list with distinct ids removes exactly the
/// entries with its id.
proof fn lemma_remove_entry(s: Seq<(ItemId, usize)>, i: int)
    requires
        keys_distinct(s),
        0 <= i < s.len(),
    ensures
        keys_distinct(s.remove(i)),
        forall|e: (ItemId, usize)| #[trigger] s.remove(i).contains(e) <==> s.contains(e) && e.0 != s[i].0,
{
    let r = s.remove(i);
    assert forall|a: int| 0 <= a < r.len() implies #[trigger] r[a] == s[if a < i { a } else { a + 1 }] by {}
    assert forall|e: (ItemId, usize)| #[trigger] r.contains(e) <==> s.contains(e) && e.0 != s[i].0 by {
        if r.contains(e) {
            let a = choose|a: int| 0 <= a < r.len() && r[a] == e;
            let b = if a < i { a } else { a + 1 };
            assert(s[b] == e);
        }
        if s.contains(e) && e.0 != s[i].0 {
            let b = choose|b: int| 0 <= b < s.len() && s[b] == e;
            let a = if b < i { b } else { b - 1 };
            assert(r[a] == e);
        }
    }
    assert forall|a: int, b: int| 0 <= a < b < r.len() implies r[a].0 != r[b].0 by {
        let a2 = if a < i { a } else { a + 1 };
        let b2 = if b < i { b } else { b + 1 };
        assert(a2 < b2);
    }
}

/// Lists of entries with distinct ids that hold the same entries are put in
/// the same order by item id.
pub proof fn lemma_key_ordered_by_content(s: Seq<(ItemId, usize)>, t: Seq<(ItemId, usize)>)
    requires
        keys_distinct(s),
        keys_distinct(t),
        forall|e: (ItemId, usize)| #[trigger] s.contains(e) == t.contains(e),
    ensures
        key_ordered(s) == key_ordered(t),
    decreases s.len(),
{
    if s.len() == 0 {
        if t.len() > 0 {
            assert(t.contains(t[0]));
            assert(s.contains(t[0]) == t.contains(t[0]));
        }
    } else {
        assert(s.contains(s[0]));
        let i = first_min_index(s);
        let j = first_min_index(t);
        lemma_first_min_index(s);
        lemma_first_min_index(t);
        assert(s.contains(s[i]));
        let q = choose|q: int| 0 <= q < t.len() && t[q] == s[i];
        assert(t.contains(t[j]));
        assert(s.contains(t[j]) == t.contains(t[j]));
        let p = choose|p: int| 0 <= p < s.len() && s[p] == t[j];
        assert(t[j].0 <= t[q].0);
        assert(s[i].0 <= s[p].0);
        assert(q == j) by {
            if q < j {
                assert(t[q].0 != t[j].0);
            } else if q > j {
                assert(t[j].0 != t[q].0);
            }
        }
        lemma_remove_entry(s, i);
        lemma_remove_entry(t, j);
        lemma_key_ordered_by_content(s.remove(i), t.remove(j));
    }
}

/// A recipe's identity depends on the entries it needs and makes, not on the
/// order in which they were listed.
pub proof fn lemma_identity_by_content(
    input: Seq<(ItemId, usize)>,
    output: Seq<(ItemId, usize)>,
    other_input: Seq<(ItemId, usize)>,
    other_output: Seq<(ItemId, usize)>,
    priority: isize,
)
    requires
        keys_distinct(input),
        keys_distinct(output),
        keys_distinct(other_input),
        keys_distinct(other_output),
        forall|e: (ItemId, usize)| #[trigger] input.contains(e) == other_input.contains(e),
        forall|e: (ItemId, usize)| #[trigger] output.contains(e) == other_output.contains(e),
    ensures
        recipe_identity(input, output, priority) == recipe_identity(other_input, other_output, priority),
{
    lemma_key_ordered_by_content(input, other_input);
    lemma_key_ordered_by_content(output, other_output);
}

/// In a list with distinct ids, an entry is present exactly when its id has
/// that count.
proof fn lemma_entry_by_count(s: Seq<(ItemId, usize)>, e: (ItemId, usize))
    requires
        keys_distinct(s),
    ensures
        s.contains(e) <==> has_key(s, e.0) && count_of(s, e.0) == e.1,
{
    lemma_key_index(s, e.0);
    if s.contains(e) {
        let q = choose|q: int| 0 <= q < s.len() && s[q] == e;
        let p = key_index(s, e.0);
        if p != q {
            if p < q {
                assert(s[p].0 != s[q].0);
            } else {
                assert(s[q].0 != s[p].0);
            }
        }
    }
    if has_key(s, e.0) && count_of(s, e.0) == e.1 {
        assert(s[key_index(s, e.0)] == e);
    }
}

/// Lists with distinct ids and the same content hold the same entries.
proof fn lemma_same_entries(a: Seq<(ItemId, usize)>, b: Seq<(ItemId, usize)>)
    requires
        keys_distinct(a),
        keys_distinct(b),
        same_content(a, b),
    ensures
        forall|e: (ItemId, usize)| #[trigger] a.contains(e) == b.contains(e),
{
    assert forall|e: (ItemId, usize)| #[trigger] a.contains(e) == b.contains(e) by {
        lemma_entry_by_count(a, e);
        lemma_entry_by_count(b, e);
        assert(has_key(a, e.0) == has_key(b, e.0) && count_of(a, e.0) == count_of(b, e.0));
    }
}

/// Two recipes whose item sets are equal (the same items with the same
/// counts, in whatever order, each item listed once) and whose base
/// priorities are equal get the same identity.
pub proof fn lemma_same_content_same_identity(a: Recipe, b: Recipe)
    requires
        keys_distinct(a@.input),
        keys_distinct(a@.output),
        keys_distinct(b@.input),
        keys_distinct(b@.output),
        same_content(a@.input, b@.input),
        same_content(a@.output, b@.output),
        a.base_priority == b.base_priority,
        a.unique_id == recipe_identity(a@.input, a@.output, a.base_priority),
        b.unique_id == recipe_identity(b@.input, b@.output, b.base_priority),
    ensures
        a.unique_id == b.unique_id,
{
    lemma_same_entries(a@.input, b@.input);
    lemma_same_entries(a@.output, b@.output);
    lemma_identity_by_content(a@.input, a@.output, b@.input, b@.output, a.base_priority);
}

/// Everything a recipe's identity hash is computed from: its entries in item
/// id order, then its priority.
pub open spec fn recipe_hash_writes(
    input: Seq<(ItemId, usize)>,
    output: Seq<(ItemId, usize)>,
    priority: isize,
) -> Seq<Seq<u8>> {
    (entry_hash_writes(key_ordered(input)) + entry_hash_writes(key_ordered(output))).push(
        spec_u64_to_le_bytes(priority as u64),
    )
}

/// The identity hash of a recipe with these inputs, outputs and priority.
pub closed spec fn recipe_identity(
    input: Seq<(ItemId, usize)>,
    output: Seq<(ItemId, usize)>,
    priority: isize,
) -> usize {
    DefaultHasher::spec_finish(recipe_hash_writes(input, output, priority)) as usize
}

/// Decimal digits of a number.
pub open spec fn decimal_digits(n: nat) -> Seq<char>
    decreases n,
{
    if n < 10 {
        seq![(n + 48) as char]
    } else {
        decimal_digits(n / 10).push(((n % 10) + 48) as char)
    }
}

/// The text of one entry in a recipe description: "<name> x<count>".
pub open spec fn entry_text(e: (ItemId, usize)) -> Seq<char> {
    display_name(e.0) + " x"@ + decimal_digits(e.1 as nat)
}

/// Entry texts joined with " + ".
pub open spec fn joined_entries(s: Seq<(ItemId, usize)>) -> Seq<char>
    decreases s.len(),
{
    if s.len() == 0 {
        Seq::empty()
    } else if s.len() == 1 {
        entry_text(s[0])
    } else {
        joined_entries(s.drop_last()) + " + "@ + entry_text(s.last())
    }
}

/// The description of a recipe: "<inputs> -> <outputs>".
pub open spec fn recipe_text(r: RecipeView) -> Seq<char> {
    joined_entries(r.input) + " -> "@ + joined_entries(r.output)
}

/// The text of one decimal digit.
fn digit_text(d: usize) -> (text: &'static str)
    requires
        d < 10,
    ensures
        text@ == seq![(d + 48) as char],
{
    match d {
        0 => {
            proof {
                reveal_strlit("0");
            }
            assert("0"@ =~= seq![(d + 48) as char]);
            "0"
        },
        1 => {
            proof {
                reveal_strlit("1");
            }
            assert("1"@ =~= seq![(d + 48) as char]);
            "1"
        },
        2 => {
            proof {
                reveal_strlit("2");
            }
            assert("2"@ =~= seq![(d + 48) as char]);
            "2"
        },
        3 => {
            proof {
                reveal_strlit("3");
            }
            assert("3"@ =~= seq![(d + 48) as char]);
            "3"
        },
        4 => {
            proof {
                reveal_strlit("4");
            }
            assert("4"@ =~= seq![(d + 48) as char]);
            "4"
        },
        5 => {
            proof {
                reveal_strlit("5");
            }
            assert("5"@ =~= seq![(d + 48) as char]);
            "5"
        },
        6 => {
            proof {
                reveal_strlit("6");
            }
            assert("6"@ =~= seq![(d + 48) as char]);
            "6"
        },
        7 => {
            proof {
                reveal_strlit("7");
            }
            assert("7"@ =~= seq![(d + 48) as char]);
            "7"
        },
        8 => {
            proof {
                reveal_strlit("8");
            }
            assert("8"@ =~= seq![(d + 48) as char]);
            "8"
        },
        _ => {
            proof {
                reveal_strlit("9");
            }
            assert("9"@ =~= seq![(d + 48) as char]);
            "9"
        },
    }
}

/// Appends the decimal digits of a number.
fn append_decimal(out: &mut String, n: usize)
    ensures
        final(out)@ == old(out)@ + decimal_digits(n as nat),
    decreases n,
{
    if n >= 10 {
        append_decimal(out, n / 10);
    }
    out.append(digit_text(n % 10));
}

/// The decimal text of a count, as std's `ToString` for `usize` writes it.
pub(crate) fn decimal_text(n: usize) -> (text: String)
    ensures
        text@ == decimal_digits(n as nat),
{
    let mut text = String::new();
    append_decimal(&mut text, n);
    text
}

fn append_entries_text(out: &mut String, entries: &ItemSet)
    ensures
        final(out)@ == old(out)@ + joined_entries(entries@),
{
    let mut i: usize = 0;
    while i < entries.items.len()
        invariant
            i <= entries.items.len(),
            out@ == old(out)@ + joined_entries(entries@.take(i as int)),
        decreases entries.items.len() - i,
    {
        let (item_id, count) = entries.items[i];
        let ghost before = out@;
        if i > 0 {
            out.append(" + ");
        }
        out.append(item_display_name(item_id));
        out.append(" x");
        let digits = decimal_text(count);
        out.append(digits.as_str());
        proof {
            let t = entries@.take(i + 1);
            assert(t.drop_last() =~= entries@.take(i as int));
            assert(t.last() == (item_id, count));
            if i == 0 {
                assert(out@ =~= before + entry_text((item_id, count)));
            } else {
                assert(out@ =~= before + " + "@ + entry_text((item_id, count)));
            }
        }
        i = i + 1;
    }
    assert(entries@.take(entries@.len() as int) =~= entries@);
}

/// Position of the first entry with the least item id.
fn first_min_position(s: &Vec<(ItemId, usize)>) -> (m: usize)
    requires
        s@.len() > 0,
    ensures
        m == first_min_index(s@),
{
    let mut m: usize = 0;
    let mut i: usize = 1;
    while i < s.len()
        invariant
            1 <= i <= s.len(),
            m == first_min_index(s@.take(i as int)),
            m < i,
        decreases s.len() - i,
    {
        proof {
            let t = s@.take(i + 1);
            assert(t.drop_last() =~= s@.take(i as int));
            assert(t.last() == s@[i as int]);
            assert(t[m as int] == s@[m as int]);
        }
        if s[i].0 < s[m].0 {
            m = i;
        }
        i = i + 1;
    }
    assert(s@.take(s@.len() as int) =~= s@);
    m
}

/// The entries of a set ordered by item id.
fn key_ordered_entries(set: &ItemSet) -> (v: Vec<(ItemId, usize)>)
    ensures
        v@ == key_ordered(set@),
{
    let mut rest: Vec<(ItemId, usize)> = Vec::new();
    let mut i: usize = 0;
    while i < set.items.len()
        invariant
            i <= set.items.len(),
            rest@ == set@.take(i as int),
        decreases set.items.len() - i,
    {
        rest.push(set.items[i]);
        assert(rest@ =~= set@.take(i + 1));
        i = i + 1;
    }
    assert(set@.take(set@.len() as int) =~= set@);
    let mut out: Vec<(ItemId, usize)> = Vec::new();
    while rest.len() > 0
        invariant
            out@ + key_ordered(rest@) == key_ordered(set@),
        decreases rest.len(),
    {
        let m = first_min_position(&rest);
        proof {
            lemma_first_min_index(rest@);
        }
        let ghost before = rest@;
        let e = rest.remove(m);
        proof {
            assert(key_ordered(before) == seq![e] + key_ordered(rest@));
            assert(out@.push(e) + key_ordered(rest@) =~= out@ + key_ordered(before));
        }
        out.push(e);
    }
    assert(key_ordered(rest@) =~= Seq::<(ItemId, usize)>::empty());
    assert(out@ + key_ordered(rest@) =~= out@);
    out
}

/// Writes entries to the hasher, each id and count as 8 little-endian bytes.
fn hash_entries(hasher: &mut DefaultHasher, entries: &Vec<(ItemId, usize)>)
    ensures
        final(hasher)@ == old(hasher)@ + entry_hash_writes(entries@),
{
    let mut i: usize = 0;
    while i < entries.len()
        invariant
            i <= entries.len(),
            hasher@ == old(hasher)@ + entry_hash_writes(entries@.take(i as int)),
        decreases entries.len() - i,
    {
        let (item_id, count) = entries[i];
        let a = u64_to_le_bytes(item_id as u64);
        hasher.write(a.as_slice());
        let b = u64_to_le_bytes(count as u64);
        hasher.write(b.as_slice());
        assert(entries@.take(i + 1).drop_last() =~= entries@.take(i as int));
        assert(hasher@ =~= old(hasher)@ + entry_hash_writes(entries@.take(i + 1)));
        i = i + 1;
    }
    assert(entries@.take(entries@.len() as int) =~= entries@);
}

impl Recipe {
    /// Computes the identity hash from inputs, outputs and base priority. The
    /// entries are hashed in item id order, so the identity depends on what a
    /// recipe needs and makes, not on the order its entries were listed in.
    fn compute_unique_id_hash(&self) -> (id: usize)
        ensures
            id == recipe_identity(self.input@, self.output@, self.base_priority),
    {
        let mut hasher = DefaultHasher::new();
        let input = key_ordered_entries(&self.input);
        let output = key_ordered_entries(&self.output);
        hash_entries(&mut hasher, &input);
        hash_entries(&mut hasher, &output);
        assert(hasher@ =~= entry_hash_writes(key_ordered(self.input@)) + entry_hash_writes(key_ordered(self.output@)));
        let p = u64_to_le_bytes(self.base_priority as u64);
        hasher.write(p.as_slice());
        hasher.finish() as usize
    }

    /// A single-input, single-output recipe. Counts are converted to `usize`
    /// as Rust's `as` does.
    pub fn from_single_transform(
        input: ItemId,
        input_count: i32,
        output: ItemId,
        output_count: i32,
        priority: isize,
    ) -> (recipe: Self)
        ensures
            recipe@.input == seq![(input, input_count as usize)],
            recipe@.output == seq![(output, output_count as usize)],
            recipe@.base_priority == priority,
            recipe@.effective_priority is None,
            recipe@.unique_id == recipe_identity(recipe@.input, recipe@.output, priority),
    {
        let input_pairs = vec![(input, input_count as usize)];
        let output_pairs = vec![(output, output_count as usize)];
        proof {
            lemma_single_pair_merged(input_pairs@);
            lemma_single_pair_merged(output_pairs@);
        }
        let mut recipe = Recipe {
            input: ItemSet::from_item_counts(input_pairs),
            output: ItemSet::from_item_counts(output_pairs),
            base_priority: priority,
            effective_priority: None,
            unique_id: 0,
        };
        recipe.unique_id = recipe.compute_unique_id_hash();
        recipe
    }

    /// A recipe from arbitrary input and output lists; repeated ids are merged.
    pub fn from_transform(input: Vec<(ItemId, usize)>, output: Vec<(ItemId, usize)>, priority: isize) -> (recipe: Self)
        requires
            totals_fit(input@),
            totals_fit(output@),
        ensures
            recipe@.input == merged(input@),
            recipe@.output == merged(output@),
            keys_distinct(recipe@.input),
            keys_distinct(recipe@.output),
            recipe@.base_priority == priority,
            recipe@.effective_priority is None,
            recipe@.unique_id == recipe_identity(recipe@.input, recipe@.output, priority),
    {
        let mut recipe = Recipe {
            input: ItemSet::from_item_counts(input),
            output: ItemSet::from_item_counts(output),
            base_priority: priority,
            effective_priority: None,
            unique_id: 0,
        };
        recipe.unique_id = recipe.compute_unique_id_hash();
        recipe
    }

    /// A description in "inputs -> outputs" form, e.g. "Sand x1 + Cobblestone x1 -> Glass x2".
    pub fn describe(&self) -> (text: String)
        ensures
            text@ == recipe_text(self@),
    {
        let mut text = String::new();
        append_entries_text(&mut text, &self.input);
        text.append(" -> ");
        append_entries_text(&mut text, &self.output);
        text
    }
}

/// A single pair merges to itself.
pub proof fn lemma_single_pair_merged(v: Seq<(usize, usize)>)
    requires
        v.len() == 1,
    ensures
        totals_fit(v),
        merged(v) == v,
{
    let e = Seq::<(usize, usize)>::empty();
    assert(v.drop_last() =~= e);
    assert(merged(e) == e);
    lemma_key_index(e, v[0].0);
    assert(add_entry(e, v[0].0, v[0].1) =~= v);
    assert forall|n: int, k: usize| 0 <= n <= v.len() implies #[trigger] total_for(v.take(n), k)
        <= usize::MAX by {
        if n == 1 {
            assert(v.take(1).drop_last() =~= e);
            assert(total_for(e, k) == 0);
        } else {
            assert(v.take(0) =~= e);
        }
    }
}

/// The solved usage of the recipes and the resulting inventory.
pub struct CraftingSolution {
    /// `(recipe id, usage count)` pairs.
    pub recipe_values: Vec<(usize, i64)>,
    pub final_inventory_values: ItemSet,
    pub relevant_item_ids: Vec<ItemId>,
}

impl CraftingSolution {
    /// Solved usage of a recipe, 0 when absent.
    pub fn recipe_usage_count(&self, recipe: &Recipe) -> (n: i64)
        ensures
            n as int == value_of(self.recipe_values@, recipe.unique_id),
    {
        let mut i: usize = 0;
        while i < self.recipe_values.len()
            invariant
                i <= self.recipe_values.len(),
                forall|j: int| 0 <= j < i ==> self.recipe_values@[j].0 != recipe.unique_id,
            decreases self.recipe_values.len() - i,
        {
            if self.recipe_values[i].0 == recipe.unique_id {
                proof {
                    lemma_key_index_at(self.recipe_values@, recipe.unique_id, i as int);
                }
                return self.recipe_values[i].1;
            }
            i = i + 1;
        }
        proof {
            lemma_key_index_absent(self.recipe_values@, recipe.unique_id);
        }
        0
    }

    /// Solved ending inventory of an item, 0 when absent.
    pub fn final_inventory_count(&self, item_id: ItemId) -> (n: usize)
        ensures
            n == self.final_inventory_values.spec_count(item_id),
    {
        self.final_inventory_values.count(item_id)
    }
}

} // verus!
