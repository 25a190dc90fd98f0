//! Named log buffers: for each log name, its line count and its text, kept in
//! the order in which the names were first registered.

use vstd::prelude::*;
use vstd::string::StringExecFns;
use rustc_hash::FxBuildHasher;
use rustc_hash::FxHashMap;

verus! {

/// The hasher builder of rustc-hash's `FxHashMap`, carried as an opaque value.
#[verifier::external_type_specification]
#[verifier::external_body]
pub struct ExFxBuildHasher(FxBuildHasher);

/// A map from log names to positions.
pub type SlotMap = FxHashMap<String, usize>;

/// What a name-to-slot map holds, by the names' characters.
pub uninterp spec fn slot_map(m: SlotMap) -> Map<Seq<char>, usize>;

/// Relies on `FxHashMap::default`: a new map holds no entry.
#[verifier::external_body]
fn new_slots() -> (r: SlotMap)
    ensures
        slot_map(r).dom().is_empty(),
{
    FxHashMap::default()
}

/// Relies on `HashMap::get` over `FxBuildHasher`: the value stored under an equal key.
#[verifier::external_body]
fn slot_lookup(m: &SlotMap, name: &str) -> (r: Option<usize>)
    ensures
        r == (if slot_map(*m).contains_key(name@) {
            Some(slot_map(*m)[name@])
        } else {
            None::<usize>
        }),
{
    m.get(name).copied()
}

/// Relies on `HashMap::insert` over `FxBuildHasher`: the key now maps to the value.
#[verifier::external_body]
fn slot_insert(m: &mut SlotMap, name: String, slot: usize)
    ensures
        slot_map(*final(m)) == slot_map(*old(m)).insert(name@, slot),
{
    m.insert(name, slot);
}

/// `names` with `name` added at the end, unless it is there already.
pub open spec fn push_new(names: Seq<Seq<char>>, name: Seq<char>) -> Seq<Seq<char>> {
    if names.contains(name) {
        names
    } else {
        names.push(name)
    }
}

/// The names of `a`, then those of `b` that `a` lacks, in order.
pub open spec fn merge_names(a: Seq<Seq<char>>, b: Seq<Seq<char>>) -> Seq<Seq<char>>
    decreases b.len(),
{
    if b.len() == 0 {
        a
    } else {
        push_new(merge_names(a, b.drop_last()), b.last())
    }
}

/// The lines written so far to one log.
pub struct LogBuffer {
    pub name: String,
    pub count: usize,
    pub text: String,
}

/// `a + b`, held at `usize::MAX`.
pub open spec fn sat_add(a: nat, b: nat) -> nat {
    if a + b > usize::MAX {
        usize::MAX as nat
    } else {
        a + b
    }
}

/// The log buffers of one or more workers, with a map from each name to its
/// position.
pub struct LogSet {
    logs: Vec<LogBuffer>,
    slots: SlotMap,
}

impl LogSet {
    /// The names, in registration order.
    pub closed spec fn names(&self) -> Seq<Seq<char>> {
        self.logs@.map_values(|b: LogBuffer| b.name@)
    }

    /// The line count of the `i`-th log.
    pub closed spec fn count_at(&self, i: int) -> nat {
        self.logs@[i].count as nat
    }

    /// The text of the `i`-th log.
    pub closed spec fn text_at(&self, i: int) -> Seq<char> {
        self.logs@[i].text@
    }

    /// The position of a registered name.
    pub closed spec fn slot_of(&self, name: Seq<char>) -> int {
        slot_map(self.slots)[name] as int
    }

    /// The line count of log `name`, 0 where it is not registered.
    pub open spec fn count_of(&self, name: Seq<char>) -> nat {
        if self.names().contains(name) {
            self.count_at(self.slot_of(name))
        } else {
            0
        }
    }

    /// The text of log `name`, empty where it is not registered.
    pub open spec fn text_of(&self, name: Seq<char>) -> Seq<char> {
        if self.names().contains(name) {
            self.text_at(self.slot_of(name))
        } else {
            Seq::empty()
        }
    }

    /// Each name is registered once, and the map finds it at its position.
    pub closed spec fn wf(&self) -> bool {
        &&& forall|k: Seq<char>| slot_map(self.slots).contains_key(k) <==> self.names().contains(k)
        &&& forall|i: int|
            0 <= i < self.logs@.len() ==> #[trigger] slot_map(self.slots)[self.logs@[i].name@]
                == i
    }

    proof fn lemma_slot(&self, i: int)
        requires
            self.wf(),
            0 <= i < self.names().len(),
        ensures
            self.names().contains(self.names()[i]),
            self.slot_of(self.names()[i]) == i,
    {
        assert(self.names()[i] == self.logs@[i].name@);
    }

    /// Positions of names: a registered name sits at its slot.
    pub proof fn lemma_names_distinct(&self)
        requires
            self.wf(),
        ensures
            self.names().no_duplicates(),
            forall|k: Seq<char>|
                #[trigger] self.names().contains(k) ==> 0 <= self.slot_of(k) < self.names().len()
                    && self.names()[self.slot_of(k)] == k,
    {
        assert forall|i: int, j: int|
            0 <= i < self.names().len() && 0 <= j < self.names().len() && i != j implies
            self.names()[i] != self.names()[j] by {
            self.lemma_slot(i);
            self.lemma_slot(j);
        }
        assert forall|k: Seq<char>| #[trigger] self.names().contains(k) implies 0 <= self.slot_of(k)
            < self.names().len() && self.names()[self.slot_of(k)] == k by {
            let i = choose|i: int| 0 <= i < self.names().len() && self.names()[i] == k;
            self.lemma_slot(i);
        }
    }

    /// A set with no log.
    pub fn new() -> (r: LogSet)
        ensures
            r.wf(),
            r.names() == Seq::<Seq<char>>::empty(),
    {
        let r = LogSet { logs: Vec::new(), slots: new_slots() };
        assert(r.names() =~= Seq::<Seq<char>>::empty());
        r
    }

    /// Number of logs.
    pub fn len(&self) -> (r: usize)
        ensures
            r == self.names().len(),
    {
        self.logs.len()
    }

    /// The name of the `i`-th log.
    pub fn name(&self, i: usize) -> (r: &str)
        requires
            i < self.names().len(),
        ensures
            r@ == self.names()[i as int],
    {
        self.logs[i].name.as_str()
    }

    /// The line count of the `i`-th log.
    pub fn count(&self, i: usize) -> (r: usize)
        requires
            i < self.names().len(),
        ensures
            r == self.count_at(i as int),
    {
        self.logs[i].count
    }

    /// The text of the `i`-th log.
    pub fn text(&self, i: usize) -> (r: &str)
        requires
            i < self.names().len(),
        ensures
            r@ == self.text_at(i as int),
    {
        self.logs[i].text.as_str()
    }

    /// The position of log `name`, if registered.
    pub fn find(&self, name: &str) -> (r: Option<usize>)
        requires
            self.wf(),
        ensures
            match r {
                Some(i) => i < self.names().len() && self.names()[i as int] == name@,
                None => !self.names().contains(name@),
            },
    {
        proof {
            self.lemma_names_distinct();
        }
        let r = slot_lookup(&self.slots, name);
        proof {
            if slot_map(self.slots).contains_key(name@) {
                assert(self.names().contains(name@));
            }
        }
        r
    }

    /// Registers log `name` with no line, unless it is registered already;
    /// returns its position.
    pub fn register(&mut self, name: &str) -> (slot: usize)
        requires
            old(self).wf(),
        ensures
            final(self).wf(),
            final(self).names() == push_new(old(self).names(), name@),
            slot < final(self).names().len(),
            final(self).names()[slot as int] == name@,
            forall|i: int|
                0 <= i < old(self).names().len() ==> final(self).count_at(i) == old(self).count_at(i)
                    && final(self).text_at(i) == old(self).text_at(i),
            !old(self).names().contains(name@) ==> final(self).count_at(slot as int) == 0
                && final(self).text_at(slot as int) == Seq::<char>::empty(),
    {
        match self.find(name) {
            Some(i) => i,
            None => {
                let ghost before = *self;
                let slot = self.logs.len();
                let key = String::from_str(name);
                slot_insert(&mut self.slots, key.clone(), slot);
                self.logs.push(LogBuffer { name: key, count: 0, text: String::new() });
                proof {
                    assert(self.names() =~= before.names().push(name@));
                    assert forall|k: Seq<char>|
                        slot_map(self.slots).contains_key(k) <==> self.names().contains(k) by {
                        if k != name@ && before.names().contains(k) {
                            let j = choose|j: int| 0 <= j < before.names().len() && before.names()[j] == k;
                            assert(self.names()[j] == k);
                        }
                        if self.names().contains(k) && k != name@ {
                            let j = choose|j: int| 0 <= j < self.names().len() && self.names()[j] == k;
                            assert(before.names()[j] == k);
                        }
                        if k == name@ {
                            assert(self.names()[slot as int] == k);
                        }
                    }
                    assert forall|i: int| 0 <= i < self.logs@.len() implies #[trigger] slot_map(
                        self.slots,
                    )[self.logs@[i].name@] == i by {
                        if i < slot {
                            assert(before.names()[i] == self.logs@[i].name@);
                            assert(before.names().contains(self.logs@[i].name@));
                            assert(slot_map(before.slots)[before.logs@[i].name@] == i);
                        }
                    }
                }
                slot
            },
        }
    }

    /// Appends `piece` to the text of the log at `slot` and adds `lines` to its count.
    pub fn append(&mut self, slot: usize, piece: &str, lines: usize)
        requires
            old(self).wf(),
            slot < old(self).names().len(),
        ensures
            final(self).wf(),
            final(self).names() == old(self).names(),
            final(self).text_at(slot as int) == old(self).text_at(slot as int) + piece@,
            final(self).count_at(slot as int) == sat_add(old(self).count_at(slot as int), lines as nat),
            forall|i: int|
                0 <= i < old(self).names().len() && i != slot ==> final(self).count_at(i)
                    == old(self).count_at(i) && final(self).text_at(i) == old(self).text_at(i),
    {
        let ghost before = *self;
        self.logs[slot].text.append(piece);
        let c = self.logs[slot].count;
        self.logs[slot].count = c.saturating_add(lines);
        proof {
            assert(self.names() =~= before.names());
            assert forall|k: Seq<char>| slot_map(self.slots).contains_key(k) <==> self.names().contains(k) by {}
            assert forall|i: int| 0 <= i < self.logs@.len() implies #[trigger] slot_map(
                self.slots,
            )[self.logs@[i].name@] == i by {
                assert(before.logs@[i].name@ == self.logs@[i].name@);
            }
        }
    }

    /// The count and text of a registered name are those at its position.
    pub proof fn lemma_at_name(&self, i: int)
        requires
            self.wf(),
            0 <= i < self.names().len(),
        ensures
            self.count_of(self.names()[i]) == self.count_at(i),
            self.text_of(self.names()[i]) == self.text_at(i),
    {
        self.lemma_slot(i);
    }

    /// Appends, for each log of `other` in its order, its text and count to the
    /// log of the same name here, registering the name first where it is new.
    pub fn merge_from(&mut self, other: &LogSet)
        requires
            old(self).wf(),
            other.wf(),
        ensures
            final(self).wf(),
            final(self).names() == merge_names(old(self).names(), other.names()),
            forall|n: Seq<char>|
                #[trigger] final(self).count_of(n) == sat_add(
                    old(self).count_of(n),
                    other.count_of(n),
                ),
            forall|n: Seq<char>|
                #[trigger] final(self).text_of(n) == old(self).text_of(n) + other.text_of(n),
    {
        proof {
            other.lemma_names_distinct();
        }
        let mut j: usize = 0;
        while j < other.logs.len()
            invariant
                self.wf(),
                other.wf(),
                other.names().no_duplicates(),
                j <= other.logs.len(),
                self.names() == merge_names(old(self).names(), other.names().take(j as int)),
                forall|n: Seq<char>|
                    #[trigger] self.count_of(n) == sat_add(
                        old(self).count_of(n),
                        if other.names().take(j as int).contains(n) {
                            other.count_of(n)
                        } else {
                            0
                        },
                    ),
                forall|n: Seq<char>|
                    #[trigger] self.text_of(n) == old(self).text_of(n) + if other.names().take(
                        j as int,
                    ).contains(n) {
                        other.text_of(n)
                    } else {
                        Seq::empty()
                    },
            decreases other.logs.len() - j,
        {
            let ghost before = *self;
            let ghost m = other.names()[j as int];
            let slot = self.register(other.logs[j].name.as_str());
            self.append(slot, other.logs[j].text.as_str(), other.logs[j].count);
            proof {
                assert(other.names().take(j + 1).drop_last() =~= other.names().take(j as int));
                assert(other.names().take(j + 1).last() == m);
                other.lemma_at_name(j as int);
                self.lemma_names_distinct();
                before.lemma_names_distinct();
                assert(!other.names().take(j as int).contains(m));
                assert forall|n: Seq<char>|
                    other.names().take(j + 1).contains(n) <==> (other.names().take(
                        j as int,
                    ).contains(n) || n == m) by {
                    if other.names().take(j + 1).contains(n) && n != m {
                        let t1 = other.names().take(j + 1);
                        let k = choose|k: int| 0 <= k < t1.len() && t1[k] == n;
                        assert(other.names().take(j as int)[k] == n);
                    }
                    if other.names().take(j as int).contains(n) {
                        let t0 = other.names().take(j as int);
                        let k = choose|k: int| 0 <= k < t0.len() && t0[k] == n;
                        assert(other.names().take(j + 1)[k] == n);
                    }
                    if n == m {
                        assert(other.names().take(j + 1)[j as int] == n);
                    }
                }
                assert forall|n: Seq<char>| self.names().contains(n) <==> (before.names().contains(n) || n == m) by {
                    if !before.names().contains(m) {
                        if self.names().contains(n) && n != m {
                            let k = choose|k: int| 0 <= k < self.names().len() && self.names()[k] == n;
                            assert(before.names()[k] == n);
                        }
                        if before.names().contains(n) {
                            let k = choose|k: int| 0 <= k < before.names().len() && before.names()[k] == n;
                            assert(self.names()[k] == n);
                        }
                    }
                    if n == m {
                        assert(self.names()[slot as int] == n);
                    }
                }
                assert forall|n: Seq<char>|
                    #![trigger self.count_of(n)]
                    #![trigger self.text_of(n)]
                    self.count_of(n) == sat_add(
                    old(self).count_of(n),
                    if other.names().take(j + 1).contains(n) {
                        other.count_of(n)
                    } else {
                        0
                    },
                ) && self.text_of(n) == old(self).text_of(n) + if other.names().take(j + 1).contains(n) {
                        other.text_of(n)
                    } else {
                        Seq::empty()
                    } by {
                    let _ = before.count_of(n);
                    let _ = before.text_of(n);
                    if n == m {
                        assert(self.slot_of(n) == slot);
                        if before.names().contains(n) {
                            assert(before.slot_of(n) == slot);
                        } else {
                            assert(old(self).count_of(n) == 0) by {
                                assert(!old(self).names().contains(n)) by {
                                    if old(self).names().contains(n) {
                                        lemma_merge_names_keeps(old(self).names(), other.names().take(j as int), n);
                                    }
                                }
                            }
                            assert(old(self).text_of(n) =~= Seq::<char>::empty()) by {
                                if old(self).names().contains(n) {
                                    lemma_merge_names_keeps(old(self).names(), other.names().take(j as int), n);
                                }
                            }
                            assert(Seq::<char>::empty() + other.text_of(n) =~= other.text_of(n));
                        }
                        assert(old(self).text_of(n) + Seq::<char>::empty() =~= old(self).text_of(n));
                    } else if self.names().contains(n) {
                        assert(before.names().contains(n));
                        assert(self.slot_of(n) == before.slot_of(n));
                        assert(before.slot_of(n) != slot);
                    }
                }
                assert(self.names() =~= merge_names(old(self).names(), other.names().take(j + 1)));
            }
            j = j + 1;
        }
        proof {
            assert(other.names().take(j as int) =~= other.names());
            assert forall|n: Seq<char>| #[trigger] self.count_of(n) == sat_add(old(self).count_of(n), other.count_of(n)) by {
                if !other.names().contains(n) {
                    assert(sat_add(old(self).count_of(n), 0) == old(self).count_of(n));
                }
            }
            assert forall|n: Seq<char>| #[trigger] self.text_of(n) == old(self).text_of(n) + other.text_of(n) by {
                if !other.names().contains(n) {
                    assert(old(self).text_of(n) + Seq::<char>::empty() =~= old(self).text_of(n));
                }
            }
        }
    }
}

/// Names already present stay present through a merge.
pub proof fn lemma_merge_names_keeps(a: Seq<Seq<char>>, b: Seq<Seq<char>>, n: Seq<char>)
    requires
        a.contains(n),
    ensures
        merge_names(a, b).contains(n),
    decreases b.len(),
{
    if b.len() > 0 {
        lemma_merge_names_keeps(a, b.drop_last(), n);
        let p = merge_names(a, b.drop_last());
        if !p.contains(b.last()) {
            let k = choose|k: int| 0 <= k < p.len() && p[k] == n;
            assert(p.push(b.last())[k] == n);
        }
    }
}

} // verus!
