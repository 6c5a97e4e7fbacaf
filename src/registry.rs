use vstd::prelude::*;

verus! {

/// One loaded code module: where it was loaded, which module-relative
/// addresses hold its text, and the debug context that answers queries on it.
pub struct ModuleEntry<C> {
    pub base_address: usize,
    pub text_start: usize,
    pub text_end: usize,
    pub context: C,
}

impl<C> ModuleEntry<C> {
    /// The module-relative address `addr - base_address` lies in the text range.
    pub open spec fn holds_text(&self, addr: int) -> bool {
        self.base_address <= addr && self.text_start <= addr - self.base_address
            < self.text_end
    }
}

/// The table of loaded modules, sorted by base address with no base repeated.
pub struct ModuleRegistry<C> {
    entries: Vec<ModuleEntry<C>>,
}

impl<C> View for ModuleRegistry<C> {
    type V = Seq<ModuleEntry<C>>;

    closed spec fn view(&self) -> Seq<ModuleEntry<C>> {
        self.entries@
    }
}

/// Base addresses strictly increase along the table.
pub open spec fn sorted_unique<C>(s: Seq<ModuleEntry<C>>) -> bool {
    forall|i: int, j: int|
        0 <= i < j < s.len() ==> #[trigger] s[i].base_address < #[trigger] s[j].base_address
}

/// Entry `i` has the greatest base address that is not above `addr`.
pub open spec fn is_floor<C>(s: Seq<ModuleEntry<C>>, i: int, addr: int) -> bool {
    &&& 0 <= i < s.len()
    &&& s[i].base_address <= addr
    &&& (i + 1 == s.len() || addr < s[i + 1].base_address)
}

/// `addr` belongs to the module found for it: the one with the greatest base
/// address not above `addr`, whose text range holds `addr - base_address`.
pub open spec fn owned_by<C>(s: Seq<ModuleEntry<C>>, i: int, addr: int) -> bool {
    is_floor(s, i, addr) && s[i].holds_text(addr)
}

pub open spec fn is_owned<C>(s: Seq<ModuleEntry<C>>, addr: int) -> bool {
    exists|i: int| owned_by(s, i, addr)
}

/// Whether some entry of `s` has base address `base`.
pub open spec fn has_base<C>(s: Seq<ModuleEntry<C>>, base: usize) -> bool {
    exists|i: int| 0 <= i < s.len() && #[trigger] s[i].base_address == base
}

/// Entry `j` of `s` is the first one with its base address.
pub open spec fn first_of_base<C>(s: Seq<ModuleEntry<C>>, j: int) -> bool {
    &&& 0 <= j < s.len()
    &&& forall|k: int| 0 <= k < j ==> s[k].base_address != #[trigger] s[j].base_address
}

/// `e` is an entry of `s`, and the first one with its base address.
pub open spec fn kept_from<C>(s: Seq<ModuleEntry<C>>, e: ModuleEntry<C>) -> bool {
    exists|j: int| first_of_base(s, j) && s[j] == e
}

/// In a table sorted by base address, at most one entry is the floor of `addr`.
pub proof fn lemma_floor_unique<C>(s: Seq<ModuleEntry<C>>, i: int, j: int, addr: int)
    requires
        sorted_unique(s),
        is_floor(s, i, addr),
        is_floor(s, j, addr),
    ensures
        i == j,
{
    if i < j {
        if i + 1 < j {
            assert(s[i + 1].base_address < s[j].base_address);
        }
    } else if j < i {
        if j + 1 < i {
            assert(s[j + 1].base_address < s[i].base_address);
        }
    }
}

/// An address outside the text of every module in the table is owned by none
/// of them; resolving it therefore yields the placeholder name.
pub proof fn lemma_outside_every_module<C>(s: Seq<ModuleEntry<C>>, addr: int)
    requires
        forall|i: int| 0 <= i < s.len() ==> !(#[trigger] s[i]).holds_text(addr),
    ensures
        !is_owned(s, addr),
{
}

/// An address equal to a module's base address, where that module's text
/// range holds offset zero, is owned by that module: it is not rejected, and
/// resolution goes on to query the module's debug information at offset zero.
pub proof fn lemma_base_address_owned<C>(s: Seq<ModuleEntry<C>>, i: int)
    requires
        sorted_unique(s),
        0 <= i < s.len(),
        s[i].text_start == 0 < s[i].text_end,
    ensures
        owned_by(s, i, s[i].base_address as int),
        is_owned(s, s[i].base_address as int),
{
    if i + 1 < s.len() {
        assert(s[i].base_address < s[i + 1].base_address);
    }
    assert(owned_by(s, i, s[i].base_address as int));
}

/// `r` is a table built from the enumerated modules `m`: sorted by base
/// address with no base repeated, holding for each base of `m` the first
/// module of `m` with that base, and nothing else.
pub open spec fn built_from<C>(r: Seq<ModuleEntry<C>>, m: Seq<ModuleEntry<C>>) -> bool {
    &&& sorted_unique(r)
    &&& forall|i: int| 0 <= i < r.len() ==> kept_from(m, #[trigger] r[i])
    &&& forall|j: int| 0 <= j < m.len() ==> has_base(r, #[trigger] m[j].base_address)
}

/// No two modules of `m` share a base address.
pub open spec fn distinct_bases<C>(m: Seq<ModuleEntry<C>>) -> bool {
    forall|i: int, j: int|
        0 <= i < m.len() && 0 <= j < m.len() && i != j ==> #[trigger] m[i].base_address
            != #[trigger] m[j].base_address
}

/// Two tables sorted by base address that hold the same entries are equal.
pub proof fn lemma_sorted_tables_equal<C>(a: Seq<ModuleEntry<C>>, b: Seq<ModuleEntry<C>>)
    requires
        sorted_unique(a),
        sorted_unique(b),
        forall|e: ModuleEntry<C>| a.contains(e) <==> b.contains(e),
    ensures
        a == b,
    decreases a.len(),
{
    if a.len() == 0 {
        if b.len() > 0 {
            assert(b.contains(b[0]));
        }
        assert(b =~= a);
    } else {
        if b.len() == 0 {
            assert(a.contains(a[0]));
        }
        assert(a.contains(a[0]));
        assert(b.contains(b[0]));
        let j = choose|j: int| 0 <= j < b.len() && b[j] == a[0];
        let k = choose|k: int| 0 <= k < a.len() && a[k] == b[0];
        if k > 0 {
            assert(a[0].base_address < a[k].base_address);
        }
        if j > 0 {
            assert(b[0].base_address < b[j].base_address);
        }
        assert(a[0] == b[0]);
        let a1 = a.drop_first();
        let b1 = b.drop_first();
        assert forall|e: ModuleEntry<C>| a1.contains(e) <==> b1.contains(e) by {
            if a1.contains(e) {
                let x = choose|x: int| 0 <= x < a1.len() && a1[x] == e;
                assert(a[x + 1] == e);
                assert(a[0].base_address < a[x + 1].base_address);
                assert(b.contains(e));
                let y = choose|y: int| 0 <= y < b.len() && b[y] == e;
                assert(y != 0);
                assert(b1[y - 1] == e);
            }
            if b1.contains(e) {
                let x = choose|x: int| 0 <= x < b1.len() && b1[x] == e;
                assert(b[x + 1] == e);
                assert(b[0].base_address < b[x + 1].base_address);
                assert(a.contains(e));
                let y = choose|y: int| 0 <= y < a.len() && a[y] == e;
                assert(y != 0);
                assert(a1[y - 1] == e);
            }
        }
        assert forall|i: int, l: int|
            0 <= i < l < a1.len() implies #[trigger] a1[i].base_address
            < #[trigger] a1[l].base_address by {
            assert(a1[i] == a[i + 1] && a1[l] == a[l + 1]);
        }
        assert forall|i: int, l: int|
            0 <= i < l < b1.len() implies #[trigger] b1[i].base_address
            < #[trigger] b1[l].base_address by {
            assert(b1[i] == b[i + 1] && b1[l] == b[l + 1]);
        }
        lemma_sorted_tables_equal(a1, b1);
        assert(a =~= seq![a[0]] + a1);
        assert(b =~= seq![b[0]] + b1);
    }
}

/// The table does not depend on the order in which modules were enumerated:
/// two enumerations of the same modules, with no base address repeated, give
/// the same table, so every address resolves the same way against both.
pub proof fn lemma_enumeration_order_irrelevant<C>(
    m1: Seq<ModuleEntry<C>>,
    m2: Seq<ModuleEntry<C>>,
    r1: Seq<ModuleEntry<C>>,
    r2: Seq<ModuleEntry<C>>,
)
    requires
        distinct_bases(m1),
        forall|e: ModuleEntry<C>| m1.contains(e) <==> m2.contains(e),
        built_from(r1, m1),
        built_from(r2, m2),
    ensures
        r1 == r2,
{
    assert forall|e: ModuleEntry<C>| r1.contains(e) implies r2.contains(e) by {
        let i = choose|i: int| 0 <= i < r1.len() && r1[i] == e;
        assert(kept_from(m1, r1[i]));
        assert(m2.contains(e));
        let j = choose|j: int| 0 <= j < m2.len() && m2[j] == e;
        assert(has_base(r2, m2[j].base_address));
        let k = choose|k: int| 0 <= k < r2.len() && #[trigger] r2[k].base_address == e.base_address;
        assert(kept_from(m2, r2[k]));
        let x = choose|x: int| first_of_base(m2, x) && m2[x] == r2[k];
        assert(m1.contains(r2[k]));
        let y = choose|y: int| 0 <= y < m1.len() && m1[y] == r2[k];
        let z = choose|z: int| first_of_base(m1, z) && m1[z] == e;
        assert(y == z);
        assert(r2[k] == e);
    }
    assert forall|e: ModuleEntry<C>| r2.contains(e) implies r1.contains(e) by {
        let i = choose|i: int| 0 <= i < r2.len() && r2[i] == e;
        assert(kept_from(m2, r2[i]));
        assert(m1.contains(e));
        let j = choose|j: int| 0 <= j < m1.len() && m1[j] == e;
        assert(has_base(r1, m1[j].base_address));
        let k = choose|k: int| 0 <= k < r1.len() && #[trigger] r1[k].base_address == e.base_address;
        assert(kept_from(m1, r1[k]));
        let z = choose|z: int| first_of_base(m1, z) && m1[z] == r1[k];
        assert(z == j);
        assert(r1[k] == e);
    }
    lemma_sorted_tables_equal(r1, r2);
}

impl<C> ModuleRegistry<C> {
    /// The table is sorted by base address with no base repeated.
    pub open spec fn well_formed(&self) -> bool {
        sorted_unique(self@)
    }

    /// An empty table.
    pub fn new() -> (r: Self)
        ensures
            r@ == Seq::<ModuleEntry<C>>::empty(),
            r.well_formed(),
    {
        ModuleRegistry { entries: Vec::new() }
    }

    /// Number of modules in the table.
    pub fn len(&self) -> (r: usize)
        ensures
            r == self@.len(),
    {
        self.entries.len()
    }

    /// The `i`-th module in base-address order.
    pub fn entry(&self, i: usize) -> (r: &ModuleEntry<C>)
        requires
            i < self@.len(),
        ensures
            *r == self@[i as int],
    {
        &self.entries[i]
    }

    /// Number of leading entries whose base address is below `addr`
    /// (`strict`) or not above it (otherwise).
    fn count_below(&self, addr: usize, strict: bool) -> (r: usize)
        requires
            self.well_formed(),
        ensures
            r <= self@.len(),
            forall|k: int|
                0 <= k < r ==> if strict {
                    self@[k].base_address < addr
                } else {
                    self@[k].base_address <= addr
                },
            forall|k: int|
                r <= k < self@.len() ==> if strict {
                    self@[k].base_address >= addr
                } else {
                    self@[k].base_address > addr
                },
    {
        let mut lo: usize = 0;
        let mut hi: usize = self.entries.len();
        while lo < hi
            invariant
                self.well_formed(),
                lo <= hi <= self@.len(),
                forall|k: int|
                    0 <= k < lo ==> if strict {
                        self@[k].base_address < addr
                    } else {
                        self@[k].base_address <= addr
                    },
                forall|k: int|
                    hi <= k < self@.len() ==> if strict {
                        self@[k].base_address >= addr
                    } else {
                        self@[k].base_address > addr
                    },
            decreases hi - lo,
        {
            let mid = lo + (hi - lo) / 2;
            let b = self.entries[mid].base_address;
            let below = if strict {
                b < addr
            } else {
                b <= addr
            };
            if below {
                proof {
                    assert forall|k: int| 0 <= k <= mid implies if strict {
                        self@[k].base_address < addr
                    } else {
                        self@[k].base_address <= addr
                    } by {
                        if k < mid {
                            assert(self@[k].base_address < self@[mid as int].base_address);
                        }
                    }
                }
                lo = mid + 1;
            } else {
                proof {
                    assert forall|k: int| mid <= k < self@.len() implies if strict {
                        self@[k].base_address >= addr
                    } else {
                        self@[k].base_address > addr
                    } by {
                        if k > mid {
                            assert(self@[mid as int].base_address < self@[k].base_address);
                        }
                    }
                }
                hi = mid;
            }
        }
        lo
    }

    /// Finds the module that owns `addr`: the entry with the greatest base
    /// address not above `addr`, provided its text range holds the
    /// module-relative address. Returns that entry's index and the
    /// module-relative address.
    pub fn lookup(&self, addr: usize) -> (r: Option<(usize, usize)>)
        requires
            self.well_formed(),
        ensures
            r is Some <==> is_owned(self@, addr as int),
            r matches Some((i, svma)) ==> owned_by(self@, i as int, addr as int) && svma
                == addr - self@[i as int].base_address,
    {
        let idx = self.count_below(addr, false);
        if idx == 0 {
            proof {
                assert forall|i: int| !owned_by(self@, i, addr as int) by {
                    if 0 <= i < self@.len() {
                        assert(self@[i].base_address > addr);
                    }
                }
            }
            return None;
        }
        let i = idx - 1;
        let entry = &self.entries[i];
        let svma = addr - entry.base_address;
        assert(is_floor(self@, i as int, addr as int));
        if entry.text_start <= svma && svma < entry.text_end {
            assert(owned_by(self@, i as int, addr as int));
            Some((i, svma))
        } else {
            proof {
                assert forall|j: int| !owned_by(self@, j, addr as int) by {
                    if is_floor(self@, j, addr as int) {
                        lemma_floor_unique(self@, i as int, j, addr as int);
                    }
                }
            }
            None
        }
    }

    /// Adds `entry` at its place in base-address order. An entry whose base
    /// address is already present is left out, and `false` is returned.
    pub fn insert(&mut self, entry: ModuleEntry<C>) -> (r: bool)
        requires
            old(self).well_formed(),
        ensures
            final(self).well_formed(),
            r == !has_base(old(self)@, entry.base_address),
            r ==> exists|p: int|
                0 <= p <= old(self)@.len() && final(self)@ == old(self)@.insert(p, entry),
            !r ==> final(self)@ == old(self)@,
    {
        let p = self.count_below(entry.base_address, true);
        if p < self.entries.len() && self.entries[p].base_address == entry.base_address {
            return false;
        }
        proof {
            assert forall|i: int|
                0 <= i < self@.len() implies #[trigger] self@[i].base_address
                != entry.base_address by {
                if i > p {
                    assert(self@[p as int].base_address < self@[i].base_address);
                }
            }
        }
        let ghost before = self@;
        self.entries.insert(p, entry);
        proof {
            let s = self@;
            assert(s == before.insert(p as int, entry));
            assert forall|i: int, j: int|
                0 <= i < j < s.len() implies #[trigger] s[i].base_address
                < #[trigger] s[j].base_address by {
                if j < p {
                    assert(s[i] == before[i] && s[j] == before[j]);
                } else if j == p {
                    assert(s[i] == before[i]);
                } else if i < p {
                    assert(s[i] == before[i] && s[j] == before[j - 1]);
                } else if i == p {
                    assert(s[j] == before[j - 1]);
                } else {
                    assert(s[i] == before[i - 1] && s[j] == before[j - 1]);
                }
            }
        }
        true
    }

    /// Builds the table from the modules in the order they were enumerated.
    /// Where two modules share a base address, the first one is kept.
    pub fn from_entries(modules: Vec<ModuleEntry<C>>) -> (r: Self)
        ensures
            built_from(r@, modules@),
            r.well_formed(),
            forall|i: int| 0 <= i < r@.len() ==> kept_from(modules@, #[trigger] r@[i]),
            forall|j: int|
                0 <= j < modules@.len() ==> has_base(r@, #[trigger] modules@[j].base_address),
    {
        let ghost all = modules@;
        let mut table = ModuleRegistry::new();
        let mut rest = modules;
        let ghost mut taken: int = 0;
        while rest.len() > 0
            invariant
                table.well_formed(),
                0 <= taken <= all.len(),
                rest@ == all.subrange(taken, all.len() as int),
                forall|i: int|
                    0 <= i < table@.len() ==> exists|j: int|
                        0 <= j < taken && first_of_base(all, j) && all[j] == #[trigger] table@[i],
                forall|j: int| 0 <= j < taken ==> has_base(table@, #[trigger] all[j].base_address),
            decreases rest.len(),
        {
            let ghost old_table = table@;
            let m = rest.remove(0);
            assert(m == all[taken]);
            let added = table.insert(m);
            proof {
                if added {
                    let p = choose|p: int|
                        0 <= p <= old_table.len() && table@ == old_table.insert(p, m);
                    assert(table@[p] == m);
                    assert forall|k: int| 0 <= k < taken implies all[k].base_address
                        != #[trigger] all[taken].base_address by {
                        assert(has_base(old_table, all[k].base_address));
                    }
                    assert(first_of_base(all, taken));
                    assert forall|i: int| 0 <= i < table@.len() implies exists|j: int|
                        0 <= j < taken + 1 && first_of_base(all, j) && all[j] == #[trigger] table@[i] by {
                        if i < p {
                            assert(table@[i] == old_table[i]);
                        } else if i > p {
                            assert(table@[i] == old_table[i - 1]);
                        }
                    }
                    assert forall|j: int| 0 <= j < taken + 1 implies has_base(
                        table@,
                        #[trigger] all[j].base_address,
                    ) by {
                        if j < taken {
                            let b = all[j].base_address;
                            let k = choose|k: int|
                                0 <= k < old_table.len() && #[trigger] old_table[k].base_address
                                    == b;
                            if k < p {
                                assert(table@[k] == old_table[k]);
                            } else {
                                assert(table@[k + 1] == old_table[k]);
                            }
                        }
                    }
                }
                taken = taken + 1;
                assert(rest@ == all.subrange(taken, all.len() as int));
            }
        }
        proof {
            assert(taken == all.len());
            assert forall|i: int| 0 <= i < table@.len() implies kept_from(
                all,
                #[trigger] table@[i],
            ) by {
                let e = table@[i];
                let j = choose|j: int| 0 <= j < taken && first_of_base(all, j) && all[j] == e;
                assert(all[j] == table@[i]);
            }
        }
        table
    }
}

} // verus!
