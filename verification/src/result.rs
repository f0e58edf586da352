//! The outcome of an extraction: one chosen node for each class that could
//! be resolved.
use indexmap::IndexMap;
use vstd::prelude::*;

verus! {

/// `indexmap::IndexMap`, of which nothing is known but what the functions
/// below state.
#[verifier::external_type_specification]
#[verifier::external_body]
#[verifier::reject_recursive_types(K)]
#[verifier::reject_recursive_types(V)]
#[verifier::reject_recursive_types(S)]
pub struct ExIndexMap<K, V, S>(IndexMap<K, V, S>);

/// The entries of an `IndexMap` from classes to nodes, as a mapping. The
/// order in which the map holds them is left out.
pub uninterp spec fn entries_of(choices: IndexMap<usize, usize>) -> Map<usize, usize>;

/// `IndexMap::new`: a map without entries.
#[verifier::external_body]
fn no_choices() -> (created: IndexMap<usize, usize>)
    ensures
        forall|c: usize| !entries_of(created).contains_key(c),
{
    IndexMap::new()
}

/// `IndexMap::insert`: afterwards `class` maps to `node`, whether or not it
/// had an entry before, and every other entry is as it was.
#[verifier::external_body]
fn set_choice(choices: &mut IndexMap<usize, usize>, class: usize, node: usize)
    ensures
        entries_of(*final(choices)) == entries_of(*old(choices)).insert(class, node),
{
    choices.insert(class, node);
}

/// `IndexMap::get`: the node stored for `class`, or `None` where the map has
/// no entry for it.
#[verifier::external_body]
fn choice_of(choices: &IndexMap<usize, usize>, class: usize) -> (found: Option<usize>)
    ensures
        match found {
            Some(node) => entries_of(*choices).contains_key(class) && entries_of(*choices)[class]
                == node,
            None => !entries_of(*choices).contains_key(class),
        },
{
    choices.get(&class).copied()
}

/// The node chosen for each resolved class. A class without an entry could
/// not be resolved.
pub struct ExtractionResult {
    choices: IndexMap<usize, usize>,
}

impl View for ExtractionResult {
    type V = Map<usize, usize>;

    closed spec fn view(&self) -> Map<usize, usize> {
        entries_of(self.choices)
    }
}

impl Default for ExtractionResult {
    fn default() -> (empty: ExtractionResult)
        ensures
            empty@ == Map::<usize, usize>::empty(),
    {
        ExtractionResult::new()
    }
}

impl ExtractionResult {
    /// A result in which no class is resolved.
    pub fn new() -> (empty: ExtractionResult)
        ensures
            empty@ == Map::<usize, usize>::empty(),
    {
        let empty = ExtractionResult { choices: no_choices() };
        assert(empty@ =~= Map::<usize, usize>::empty());
        empty
    }

    /// Records `node` as the choice for `class`. A later choice for the same
    /// class replaces the earlier one.
    pub fn choose_node(&mut self, class: usize, node: usize)
        ensures
            final(self)@ == old(self)@.insert(class, node),
    {
        set_choice(&mut self.choices, class, node);
    }

    /// The node chosen for `class`, if the class was resolved.
    pub fn get(&self, class: usize) -> (found: Option<usize>)
        ensures
            found == (if self@.contains_key(class) {
                Some(self@[class])
            } else {
                None
            }),
    {
        choice_of(&self.choices, class)
    }
}

} // verus!
