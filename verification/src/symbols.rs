//! Symbols and their property lists.

use vstd::prelude::*;
use crate::lisp::{LispError, LispObject, SYM_HASH_TABLE_TEST};
use crate::list_fns::{
    assq, cdr, cdr_spec, element_result, first_of, first_where, list, list_head, list_nodes, list_walk,
    probed, Probe,
};
use crate::lists::{LispCons, LispConsCircularChecks, LispConsEndChecks, PairArena, PairNode};
use crate::plists::{plist_get, plist_get_spec, plist_put, plist_put_spec, plist_walk, value_cell};

verus! {

/// A handle to a symbol: its number.
#[derive(Clone, Copy, Debug, PartialEq, Eq, Structural)]
pub struct LispSymbolRef(pub u32);

/// The property lists of the symbols, and the list that overrides them.
pub struct SymbolTable {
    /// The property list of every symbol, by its number.
    pub plists: Vec<LispObject>,
    /// A list of pairs of a symbol and a property list that is consulted
    /// before the property list of the symbol.
    pub overriding_plist_environment: LispObject,
}

impl LispSymbolRef {
    /// The symbol as a value.
    pub fn as_object(self) -> (r: LispObject)
        ensures
            r == LispObject::Symbol(self.0),
    {
        LispObject::Symbol(self.0)
    }

    /// The property list of the symbol.
    pub fn get_plist(self, symbols: &SymbolTable) -> (r: LispObject)
        requires
            self.0 < symbols.plists@.len(),
        ensures
            r == symbols.plists@[self.0 as int],
    {
        symbols.plists[self.0 as usize]
    }

    /// Replaces the property list of the symbol.
    pub fn set_plist(self, symbols: &mut SymbolTable, plist: LispObject)
        requires
            self.0 < old(symbols).plists@.len(),
        ensures
            final(symbols).plists@ == old(symbols).plists@.update(self.0 as int, plist),
            final(symbols).overriding_plist_environment == old(symbols).overriding_plist_environment,
    {
        symbols.plists[self.0 as usize] = plist;
    }
}

/// The value of the key `prop` itself in `plist`, as `plist_get` finds it.
pub open spec fn property(cells: Seq<PairNode>, plist: LispObject, prop: LispObject) -> LispObject {
    plist_get_spec(
        cells,
        plist_walk(plist, LispConsEndChecks::off, LispConsCircularChecks::safe).yields(cells),
        prop,
    )
}

/// The property list that the overriding environment holds for a symbol: the
/// second slot of the first pair in it whose first slot is the symbol.
pub open spec fn overriding_plist(cells: Seq<PairNode>, environment: LispObject, symbol: LispObject) -> Result<
    LispObject,
    LispError,
> {
    let walk = list_walk(environment, LispConsEndChecks::on, LispConsCircularChecks::on);
    match element_result(
        cells,
        walk.yields(cells),
        |c: LispCons| probed(cells, c, Probe::ElementFirst) == Some(symbol),
        walk.stop(cells),
    ) {
        Ok(entry) => cdr_spec(cells, entry),
        Err(e) => Err(e),
    }
}

/// The value of the property `propname` of `symbol`: the value in the
/// overriding environment if it has one that is not the terminator, the
/// value in the property list of the symbol otherwise.
pub fn get(symbol: LispSymbolRef, propname: LispObject, symbols: &SymbolTable, arena: &PairArena) -> (r:
    Result<LispObject, LispError>)
    requires
        symbol.0 < symbols.plists@.len(),
    ensures
        r == match overriding_plist(arena@, symbols.overriding_plist_environment, LispObject::Symbol(symbol.0)) {
            Err(e) => Err::<LispObject, LispError>(e),
            Ok(plist) => Ok(
                if property(arena@, plist, propname) != LispObject::Nil {
                    property(arena@, plist, propname)
                } else {
                    property(arena@, symbols.plists@[symbol.0 as int], propname)
                },
            ),
        },
{
    let plist_env = symbols.overriding_plist_environment;
    let entry = match assq(symbol.as_object(), plist_env, arena) {
        Ok(entry) => entry,
        Err(e) => {
            return Err(e);
        },
    };
    let overriding = match cdr(entry, arena) {
        Ok(plist) => plist,
        Err(e) => {
            return Err(e);
        },
    };
    let propval = plist_get(overriding, propname, arena);
    if propval.is_not_nil() {
        Ok(propval)
    } else {
        Ok(plist_get(symbol.get_plist(symbols), propname, arena))
    }
}

/// What storing a value for the key `prop` itself makes of `plist`: the list
/// to use from now on, and the arena.
pub open spec fn stored(cells: Seq<PairNode>, plist: LispObject, prop: LispObject, val: LispObject) -> (
    Result<LispObject, LispError>,
    Seq<PairNode>,
) {
    let walk = plist_walk(plist, LispConsEndChecks::on, LispConsCircularChecks::on);
    let nodes = walk.yields(cells);
    let n = first_where(nodes, |c: LispCons| value_cell(cells, c) is None || first_of(cells, c) == prop, 0);
    plist_put_spec(cells, plist, prop, val, nodes, walk.stop(cells), n)
}

/// Stores `value` as the property `propname` of `symbol`, and returns
/// `value`. A property list that is malformed is an error and stays as it
/// is.
pub fn put(
    symbol: LispSymbolRef,
    propname: LispObject,
    value: LispObject,
    symbols: &mut SymbolTable,
    arena: &mut PairArena,
) -> (r: Result<LispObject, LispError>)
    requires
        symbol.0 < old(symbols).plists@.len(),
    ensures
        final(symbols).overriding_plist_environment == old(symbols).overriding_plist_environment,
        final(arena)@ == stored(old(arena)@, old(symbols).plists@[symbol.0 as int], propname, value).1,
        match stored(old(arena)@, old(symbols).plists@[symbol.0 as int], propname, value).0 {
            Ok(plist) => r == Ok::<LispObject, LispError>(value) && final(symbols).plists@ == old(symbols).plists@.update(symbol.0 as int, plist),
            Err(e) => r == Err::<LispObject, LispError>(e) && final(symbols).plists@ == old(symbols).plists@,
        },
{
    match plist_put(symbol.get_plist(symbols), propname, value, arena) {
        Ok(new_plist) => {
            symbol.set_plist(symbols, new_plist);
            Ok(value)
        },
        Err(e) => Err(e),
    }
}

/// Defines a hash table test named `name`: stores the list of the function
/// `test`, which compares keys, and the function `hash`, which computes hash
/// codes, as a property of `name`. Returns that list.
pub fn define_hash_table_test(
    name: LispSymbolRef,
    test: LispObject,
    hash: LispObject,
    symbols: &mut SymbolTable,
    arena: &mut PairArena,
) -> (r: Result<LispObject, LispError>)
    requires
        name.0 < old(symbols).plists@.len(),
    ensures
        ({
            let listed = old(arena)@ + list_nodes(seq![test, hash], old(arena)@.len());
            let functions = list_head(2, old(arena)@.len());
            let key = LispObject::Symbol(SYM_HASH_TABLE_TEST);
            let outcome = stored(listed, old(symbols).plists@[name.0 as int], key, functions);
            &&& final(symbols).overriding_plist_environment == old(symbols).overriding_plist_environment
            &&& final(arena)@ == outcome.1
            &&& match outcome.0 {
                Ok(plist) => r == Ok::<LispObject, LispError>(functions) && final(symbols).plists@ == old(symbols).plists@.update(name.0 as int, plist),
                Err(e) => r == Err::<LispObject, LispError>(e) && final(symbols).plists@ == old(symbols).plists@,
            }
        }),
{
    let sym = LispObject::Symbol(SYM_HASH_TABLE_TEST);
    let functions = [test, hash];
    let listed = list(&functions, arena);
    assert(functions@ =~= seq![test, hash]);
    put(name, sym, listed, symbols, arena)
}

} // verus!
