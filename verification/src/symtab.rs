//! The symbol table of one disassembly call: a bidirectional map between
//! target addresses and generated label names, kept in a `bimap::BiHashMap`.
//! The map itself is outside code; this module declares the type and gives
//! the three operations the disassembler uses their contracts, stated over
//! an abstract address-to-name map.

use vstd::prelude::*;

verus! {

/// Declares bimap's map type to the verifier; its values are opaque here and
/// are reached only through the trusted operations below.
#[verifier::external_type_specification]
#[verifier::external_body]
#[verifier::reject_recursive_types(L)]
#[verifier::reject_recursive_types(R)]
#[verifier::reject_recursive_types(LS)]
#[verifier::reject_recursive_types(RS)]
pub struct ExBiHashMap<L, R, LS, RS>(bimap::BiHashMap<L, R, LS, RS>);

/// The symbol table of one disassembly call: generated label names keyed by
/// target address, with the reverse direction kept by the bimap as well.
pub type SymTable = bimap::BiMap<usize, String>;

/// The pairs a symbol table holds, as a map from target address to the
/// character sequence of the name paired with it.
pub uninterp spec fn sym_view(m: SymTable) -> Map<usize, Seq<char>>;

/// The address-to-name map with no pairs.
pub open spec fn sym_empty() -> Map<usize, Seq<char>> {
    Map::empty()
}

/// The address-to-name map after a bimap insert of the pair `(l, name)`
/// into `prior`: `l` is paired with `name`, a prior pair with left value `l`
/// is overwritten, a prior pair with right value `name` is removed, and
/// every other pair stays.
pub open spec fn sym_inserted(prior: Map<usize, Seq<char>>, l: usize, name: Seq<char>) -> Map<
    usize,
    Seq<char>,
> {
    Map::new(
        |k: usize| k == l || (prior.dom().contains(k) && prior[k] != name),
        |k: usize| if k == l {
            name
        } else {
            prior[k]
        },
    )
}

/// Relies on bimap::BiHashMap::new: creates an empty bimap.
#[verifier::external_body]
pub(crate) fn sym_new() -> (m: SymTable)
    ensures
        sym_view(m) == sym_empty(),
{
    bimap::BiMap::new()
}

/// Relies on bimap::BiHashMap::get_by_left: returns the name paired with
/// address `k`, or `None` if the table holds no pair for `k`.
#[verifier::external_body]
pub(crate) fn sym_get(m: &SymTable, k: usize) -> (r: Option<&String>)
    ensures
        match r {
            Some(s) => sym_view(*m).dom().contains(k) && s@ == sym_view(*m)[k],
            None => !sym_view(*m).dom().contains(k),
        },
{
    m.get_by_left(&k)
}

/// Relies on bimap::BiHashMap::insert: afterwards `l` is paired with `name`,
/// as `sym_inserted` states.
#[verifier::external_body]
pub(crate) fn sym_insert(m: &mut SymTable, l: usize, name: String)
    ensures
        sym_view(*final(m)) == sym_inserted(sym_view(*old(m)), l, name@),
{
    m.insert(l, name);
}

} // verus!
