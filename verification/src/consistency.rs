//! Holding what the hosts file blocks against what the caller wants blocked.
//!
//! A selection says of each name whether it is enabled. An enabled name is one that is
//! to be reachable: its block is off. So a name disagrees with the hosts file where it
//! is enabled and blocked, or not enabled and not blocked.

use crate::codec::{block_names, block_spans, decode, lemma_block_names, ManagedBlock};
use crate::names::{lemma_merged, merged, strictly_sorted, DomainSet};
use crate::store::Failure;
use crate::text::{lowered, to_lower};
use vstd::prelude::*;

verus! {

/// What the caller wants for one name.
pub struct Choice {
    pub domain: Vec<u8>,
    /// Whether the name is to be reachable; a missing answer counts as `true`.
    pub enabled: Option<bool>,
}

/// What the caller wants for the names of one region.
pub struct RegionChoices {
    pub region: Vec<u8>,
    pub choices: Vec<Choice>,
}

/// What the caller wants, region by region.
pub struct Selection {
    pub regions: Vec<RegionChoices>,
}

/// The answer that a choice stands for.
pub open spec fn is_enabled(enabled: Option<bool>) -> bool {
    match enabled {
        Some(b) => b,
        None => true,
    }
}

/// The names of the blocks `spans` of `text`, all in one set.
pub open spec fn names_of_blocks(text: Seq<u8>, spans: Seq<(int, int)>) -> Seq<Seq<u8>>
    decreases spans.len(),
{
    if spans.len() == 0 {
        Seq::empty()
    } else {
        merged(
            names_of_blocks(text, spans.drop_last()),
            block_names(text.subrange(spans.last().0, spans.last().1)),
        )
    }
}

/// Every name that some managed block of `text` lists.
pub open spec fn blocked_names(text: Seq<u8>) -> Seq<Seq<u8>> {
    names_of_blocks(text, block_spans(text, 0))
}

/// The choice disagrees with the set of blocked names.
pub open spec fn disagrees(blocked: Seq<Seq<u8>>, choice: Choice) -> bool {
    blocked.contains(lowered(choice.domain@)) == is_enabled(choice.enabled)
}

/// Some choice of the region disagrees with the set of blocked names.
pub open spec fn region_disagrees(blocked: Seq<Seq<u8>>, region: RegionChoices) -> bool {
    exists|j: int| 0 <= j < region.choices@.len() && disagrees(blocked, #[trigger] region.choices@[j])
}

/// Some choice of the selection disagrees with the set of blocked names.
pub open spec fn selection_disagrees(blocked: Seq<Seq<u8>>, selection: Selection) -> bool {
    exists|i: int|
        0 <= i < selection.regions@.len() && region_disagrees(
            blocked,
            #[trigger] selection.regions@[i],
        )
}

/// What a check found.
pub struct Consistency {
    /// Whether the hosts file could be read at all.
    pub available: bool,
    /// Whether some choice disagrees with the hosts file. Never set where the file
    /// could not be read.
    pub mismatch: bool,
    /// Every name that the hosts file blocks.
    pub blocked: DomainSet,
}

impl Consistency {
    /// What stands in the way of an answer: that the hosts file could not be read.
    pub fn failure(&self) -> (r: Option<Failure>)
        ensures
            r == (if self.available {
                None
            } else {
                Some(Failure::Unavailable)
            }),
    {
        if self.available {
            None
        } else {
            Some(Failure::Unavailable)
        }
    }
}

/// The names of blocks, all in one, stand in order, and none stands twice.
pub proof fn lemma_names_of_blocks(text: Seq<u8>, spans: Seq<(int, int)>)
    ensures
        strictly_sorted(names_of_blocks(text, spans)),
    decreases spans.len(),
{
    if spans.len() > 0 {
        lemma_names_of_blocks(text, spans.drop_last());
        lemma_block_names(text.subrange(spans.last().0, spans.last().1));
        lemma_merged(
            names_of_blocks(text, spans.drop_last()),
            block_names(text.subrange(spans.last().0, spans.last().1)),
        );
    }
}

/// Every name that some managed block of `text` lists.
pub fn read_blocked(text: &[u8]) -> (r: DomainSet)
    ensures
        r.wf(),
        r@ == blocked_names(text@),
{
    let blocks: Vec<ManagedBlock> = decode(text);
    let mut out = DomainSet::new();
    let mut i: usize = 0;
    let ghost spans = block_spans(text@, 0);
    assert(spans.take(0) =~= Seq::<(int, int)>::empty());
    while i < blocks.len()
        invariant
            i <= blocks.len(),
            spans == block_spans(text@, 0),
            blocks@.len() == spans.len(),
            forall|k: int|
                0 <= k < blocks@.len() ==> (#[trigger] blocks@[k]).describes(text@, spans[k]),
            out.wf(),
            out@ == names_of_blocks(text@, spans.take(i as int)),
        decreases blocks.len() - i,
    {
        assert(blocks@[i as int].describes(text@, spans[i as int]));
        out.absorb(&blocks[i].names);
        proof {
            let upto = spans.take(i + 1);
            assert(upto.drop_last() =~= spans.take(i as int));
            assert(upto.last() == spans[i as int]);
        }
        i += 1;
    }
    assert(spans.take(blocks.len() as int) =~= spans);
    out
}

/// Tells whether some choice of `region` disagrees with `blocked`.
fn region_mismatch(blocked: &DomainSet, region: &RegionChoices) -> (r: bool)
    requires
        blocked.wf(),
    ensures
        r == region_disagrees(blocked@, *region),
{
    let mut j: usize = 0;
    while j < region.choices.len()
        invariant
            j <= region.choices.len(),
            blocked.wf(),
            forall|k: int| 0 <= k < j ==> !disagrees(blocked@, #[trigger] region.choices@[k]),
        decreases region.choices.len() - j,
    {
        let choice = &region.choices[j];
        let name = to_lower(choice.domain.as_slice());
        let is_blocked = blocked.contains(name.as_slice());
        let enabled = match choice.enabled {
            Some(b) => b,
            None => true,
        };
        if is_blocked == enabled {
            assert(disagrees(blocked@, region.choices@[j as int]));
            return true;
        }
        j += 1;
    }
    false
}

/// Holds the hosts file against the selection.
///
/// `hosts` is `None` where the file could not be read: nothing is known then, and
/// nothing is called a mismatch. Else the answer tells whether some choice disagrees
/// with the names that the managed blocks list.
pub fn check(hosts: Option<&[u8]>, selection: &Selection) -> (r: Consistency)
    ensures
        r.blocked.wf(),
        match hosts {
            None => !r.available && !r.mismatch && r.blocked@.len() == 0,
            Some(text) => {
                &&& r.available
                &&& r.blocked@ == blocked_names(text@)
                &&& r.mismatch == selection_disagrees(blocked_names(text@), *selection)
            },
        },
{
    match hosts {
        None => Consistency { available: false, mismatch: false, blocked: DomainSet::new() },
        Some(text) => {
            let blocked = read_blocked(text);
            let mut mismatch = false;
            let mut i: usize = 0;
            while i < selection.regions.len() && !mismatch
                invariant
                    i <= selection.regions.len(),
                    blocked.wf(),
                    !mismatch ==> forall|k: int|
                        0 <= k < i ==> !region_disagrees(
                            blocked@,
                            #[trigger] selection.regions@[k],
                        ),
                    mismatch ==> selection_disagrees(blocked@, *selection),
                decreases selection.regions.len() - i,
            {
                if region_mismatch(&blocked, &selection.regions[i]) {
                    assert(region_disagrees(blocked@, selection.regions@[i as int]));
                    mismatch = true;
                }
                i += 1;
            }
            Consistency { available: true, mismatch, blocked }
        },
    }
}

} // verus!
