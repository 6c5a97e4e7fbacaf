use vstd::prelude::*;
use crate::debug_info::{DebugContext, FirstRecord};
use crate::registry::{
    is_owned, lemma_base_address_owned, lemma_floor_unique, lemma_outside_every_module, owned_by,
    sorted_unique, ModuleEntry, ModuleRegistry,
};

verus! {

/// The placeholder name of an address that could not be resolved.
pub open spec fn unknown_name() -> Seq<char> {
    "<unknown>"@
}

/// The name that a first frame record resolves to.
pub open spec fn record_name(rec: FirstRecord) -> Seq<char> {
    match rec {
        FirstRecord::Named(n) => n@,
        _ => unknown_name(),
    }
}

/// One instruction address along a walked call chain.
#[derive(Clone, Copy, Debug)]
pub struct Frame {
    addr: usize,
}

/// The resolved, or placeholder, identity of a frame.
pub struct Symbol {
    name: String,
    addr: usize,
}

fn unknown_symbol(addr: usize) -> (r: Symbol)
    ensures
        r.name@ == unknown_name(),
        r.addr == addr,
{
    proof {
        reveal_strlit("<unknown>");
    }
    Symbol { name: "<unknown>".to_owned(), addr }
}

/// Builds the symbol for `addr` from the first frame record that the debug
/// information gave: its name where it has one, the placeholder otherwise.
pub fn symbol_from_record(addr: usize, rec: FirstRecord) -> (r: Symbol)
    ensures
        r.name_spec() == record_name(rec),
        r.addr_spec() == addr,
{
    match rec {
        FirstRecord::Named(name) => Symbol { name, addr },
        _ => unknown_symbol(addr),
    }
}

impl Frame {
    pub closed spec fn addr_spec(&self) -> usize {
        self.addr
    }

    pub fn new(addr: usize) -> (r: Frame)
        ensures
            r.addr_spec() == addr,
    {
        Frame { addr }
    }

    /// The instruction pointer of this frame.
    pub fn ip(&self) -> (r: usize)
        ensures
            r == self.addr_spec(),
    {
        self.addr
    }

    /// The raw address of this frame.
    pub fn symbol_address(&self) -> (r: usize)
        ensures
            r == self.addr_spec(),
    {
        self.addr
    }

    /// Resolves this frame to one symbol: the placeholder where no module
    /// owns the address, else what the owning module's debug information
    /// gives for the module-relative address. Also gives back, as ghost
    /// state, which module was queried, at which module-relative address, and
    /// the record that came back.
    pub fn resolve(&self, registry: &ModuleRegistry<DebugContext>) -> (r: (
        Symbol,
        Ghost<Option<(int, u64, FirstRecord)>>,
    ))
        requires
            registry.well_formed(),
        ensures
            resolved_as(registry@, self.addr_spec(), r.0, r.1@),
    {
        match registry.lookup(self.addr) {
            None => (unknown_symbol(self.addr), Ghost(None)),
            Some((i, svma)) => {
                let (rec, queried) = registry.entry(i).context.first_record(svma);
                let ghost g = rec;
                let r = symbol_from_record(self.addr, rec);
                (r, Ghost(Some((i as int, queried, g))))
            },
        }
    }

    /// Resolves this frame and hands the symbol to `cb`, exactly once.
    pub fn resolve_symbol<F: FnOnce(&Symbol)>(
        &self,
        registry: &ModuleRegistry<DebugContext>,
        cb: F,
    )
        requires
            registry.well_formed(),
            forall|s: &Symbol| call_requires(cb, (s,)),
        ensures
            exists|s: Symbol, q: Option<(int, u64, FirstRecord)>|
                call_ensures(cb, (&s,), ()) && resolved_as(registry@, self.addr_spec(), s, q),
    {
        let (sym, q) = self.resolve(registry);
        cb(&sym);
        assert(call_ensures(cb, (&sym,), ()) && resolved_as(registry@, self.addr_spec(), sym, q@));
    }
}

/// `sym` is what resolving `addr` against the table `s` gives, where `q`
/// records the query made: none when no module owns `addr` (then the name is
/// the placeholder); otherwise the owning entry's index, the module-relative
/// address `addr - base_address` that its debug information was asked about,
/// and the first record that came back, whose name the symbol carries.
pub open spec fn resolved_as(
    s: Seq<ModuleEntry<DebugContext>>,
    addr: usize,
    sym: Symbol,
    q: Option<(int, u64, FirstRecord)>,
) -> bool {
    &&& sym.addr_spec() == addr
    &&& match q {
        None => !is_owned(s, addr as int) && sym.name_spec() == unknown_name(),
        Some((i, svma, rec)) => {
            &&& owned_by(s, i, addr as int)
            &&& svma == addr - s[i].base_address
            &&& sym.name_spec() == record_name(rec)
        },
    }
}

/// An address outside the text of every module resolves without any debug
/// query, to the placeholder name.
pub proof fn lemma_unowned_resolves_unknown(
    s: Seq<ModuleEntry<DebugContext>>,
    addr: usize,
    sym: Symbol,
    q: Option<(int, u64, FirstRecord)>,
)
    requires
        forall|i: int| 0 <= i < s.len() ==> !(#[trigger] s[i]).holds_text(addr as int),
        resolved_as(s, addr, sym, q),
    ensures
        q is None,
        sym.name_spec() == unknown_name(),
        sym.addr_spec() == addr,
{
    lemma_outside_every_module(s, addr as int);
}

/// An address equal to a module's base address, where that module's text
/// range holds offset zero, is not rejected: that module's debug
/// information is queried at offset zero, and the symbol carries the name
/// of the record that came back.
pub proof fn lemma_base_address_queried(
    s: Seq<ModuleEntry<DebugContext>>,
    i: int,
    sym: Symbol,
    q: Option<(int, u64, FirstRecord)>,
)
    requires
        sorted_unique(s),
        0 <= i < s.len(),
        s[i].text_start == 0 < s[i].text_end,
        resolved_as(s, s[i].base_address, sym, q),
    ensures
        q matches Some((j, svma, rec)) && j == i && svma == 0 && sym.name_spec() == record_name(
            rec,
        ),
{
    lemma_base_address_owned(s, i);
    if let Some((j, svma, rec)) = q {
        lemma_floor_unique(s, i, j, s[i].base_address as int);
    }
}

impl Symbol {
    pub closed spec fn name_spec(&self) -> Seq<char> {
        self.name@
    }

    pub closed spec fn addr_spec(&self) -> usize {
        self.addr
    }

    /// The name as UTF-8 bytes; always present.
    pub fn name(&self) -> (r: Option<Vec<u8>>)
        ensures
            r matches Some(v) && v@ == vstd::utf8::encode_utf8(self.name_spec()),
    {
        Some(vstd::slice::slice_to_vec(self.name.as_str().as_bytes()))
    }

    /// The address that was resolved; always present.
    pub fn addr(&self) -> (r: Option<usize>)
        ensures
            r == Some(self.addr_spec()),
    {
        Some(self.addr)
    }

    /// Line numbers are not resolved by this backend.
    pub fn lineno(&self) -> (r: Option<u32>)
        ensures
            r is None,
    {
        None
    }

    /// Source file names are not resolved by this backend.
    pub fn filename(&self) -> (r: Option<String>)
        ensures
            r is None,
    {
        None
    }
}

} // verus!
