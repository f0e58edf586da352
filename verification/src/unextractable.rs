//! The names of the functions whose terms must not be extracted.
use indexmap::IndexSet;
use vstd::prelude::*;

verus! {

/// `indexmap::IndexSet`, of which nothing is known but what the functions
/// below state.
#[verifier::external_type_specification]
#[verifier::external_body]
#[verifier::reject_recursive_types(T)]
#[verifier::reject_recursive_types(S)]
pub struct ExIndexSet<T, S>(IndexSet<T, S>);

/// The items of an `IndexSet` of names, in the order in which it holds them.
pub uninterp spec fn items_of(names: IndexSet<String>) -> Seq<Seq<char>>;

/// `IndexSet::new`: a set without items.
#[verifier::external_body]
fn no_names() -> (created: IndexSet<String>)
    ensures
        items_of(created).len() == 0,
{
    IndexSet::new()
}

/// `IndexSet::insert`: a name that the set does not hold yet becomes its
/// last item, and the call returns `true`; a name that it holds leaves the
/// set and its order as they are, and the call returns `false`.
#[verifier::external_body]
fn add_name(names: &mut IndexSet<String>, name: String) -> (added: bool)
    ensures
        added == !items_of(*old(names)).contains(name@),
        items_of(*final(names)) == (if added {
            items_of(*old(names)).push(name@)
        } else {
            items_of(*old(names))
        }),
{
    names.insert(name)
}

/// What extraction needs to know of a function of the term language: its
/// name, and whether its terms may be extracted.
#[derive(Debug)]
pub struct FunctionInfo {
    pub name: String,
    pub extractable: bool,
}

/// The names of the functions among the first `upto` that may not be
/// extracted, in order, each name once.
pub open spec fn unextractable_names(functions: Seq<FunctionInfo>, upto: int) -> Seq<Seq<char>>
    decreases upto,
{
    if upto <= 0 {
        Seq::empty()
    } else {
        let before = unextractable_names(functions, upto - 1);
        let function = functions[upto - 1];
        if function.extractable || before.contains(function.name@) {
            before
        } else {
            before.push(function.name@)
        }
    }
}

/// The names of the functions that may not be extracted, in the order of
/// `functions`, each name once.
pub fn get_unextractables(functions: &Vec<FunctionInfo>) -> (names: IndexSet<String>)
    ensures
        items_of(names) == unextractable_names(functions@, functions@.len() as int),
{
    let mut names = no_names();
    assert(items_of(names) =~= Seq::<Seq<char>>::empty());
    let mut i: usize = 0;
    while i < functions.len()
        invariant
            i <= functions@.len(),
            items_of(names) == unextractable_names(functions@, i as int),
        decreases functions@.len() - i,
    {
        if !functions[i].extractable {
            let name = functions[i].name.clone();
            add_name(&mut names, name);
        }
        i += 1;
    }
    names
}

} // verus!
