//! The junctions that ship with the framework.

use crate::framework::{FlowFile, FromArgs, Junction, Record};
use crate::text::texts;
use std::marker::PhantomData;
use vstd::prelude::*;
use vstd::std_specs::convert::FromSpecImpl;
use vstd::string::*;

verus! {

/// What follows the last dot of `source`; all of `source` where it has no dot.
pub open spec fn extension(source: Seq<char>) -> Seq<char>
    decreases source.len(),
{
    if source.len() == 0 || source.last() == '.' {
        Seq::empty()
    } else {
        extension(source.drop_last()).push(source.last())
    }
}

/// The first position from `from` on at which `ext` stands in `exts`.
pub open spec fn position_from(exts: Seq<Seq<char>>, ext: Seq<char>, from: int) -> Option<int>
    decreases exts.len() - from,
{
    if from < 0 || from >= exts.len() {
        None
    } else if exts[from] == ext {
        Some(from)
    } else {
        position_from(exts, ext, from + 1)
    }
}

/// The classification of a record with extension `ext`: the first position
/// of `ext` in `exts`, where that is below 255, and 255 otherwise. So 255
/// stands both for an extension that is not among `exts` and for one whose
/// position does not fit; neither is ever taken for one of the two branches.
pub open spec fn ext_branch(exts: Seq<Seq<char>>, ext: Seq<char>) -> u8 {
    match position_from(exts, ext, 0) {
        Some(pos) => if pos < 255 {
            pos as u8
        } else {
            255
        },
        None => 255,
    }
}

/// The extension of `source`, as text.
pub fn extension_of(source: &str) -> (ext: String)
    ensures
        ext@ == extension(source@),
{
    let n = source.unicode_len();
    let mut start: usize = 0;
    let mut i: usize = 0;
    assert(source@.take(0) =~= Seq::empty());
    assert(extension(source@.take(0)) =~= source@.subrange(0, 0));
    while i < n
        invariant
            start <= i <= n,
            n == source@.len(),
            extension(source@.take(i as int)) == source@.subrange(start as int, i as int),
        decreases n - i,
    {
        let c = source.get_char(i);
        proof {
            assert(source@.take(i + 1).drop_last() =~= source@.take(i as int));
            assert(source@.take(i + 1).last() == c);
        }
        if c == '.' {
            start = i + 1;
            assert(extension(source@.take(i + 1)) =~= source@.subrange(i + 1, i + 1));
        } else {
            assert(source@.subrange(start as int, i as int).push(c) =~= source@.subrange(
                start as int,
                i + 1,
            ));
        }
        i += 1;
    }
    assert(source@.take(n as int) =~= source@);
    String::from_str(source.substring_char(start, n))
}

/// A junction that classifies a record by the extension of its provenance.
pub struct SplitByExt<A> {
    pub exts: Vec<String>,
    pub marker: PhantomData<A>,
}

impl<A> From<Vec<String>> for SplitByExt<A> {
    fn from(args: Vec<String>) -> (out: Self) {
        Self { exts: args, marker: PhantomData }
    }
}

impl<A> FromSpecImpl<Vec<String>> for SplitByExt<A> {
    open spec fn obeys_from_spec() -> bool {
        true
    }

    open spec fn from_spec(args: Vec<String>) -> Self {
        Self { exts: args, marker: PhantomData }
    }
}

impl<A> FromArgs for SplitByExt<A> {
    /// Any arguments are accepted.
    open spec fn accepts(args: Seq<String>) -> bool {
        true
    }

    open spec fn built(args: Vec<String>) -> Self {
        Self { exts: args, marker: PhantomData }
    }

    fn from_args(args: Vec<String>) -> (out: Option<Self>) {
        Some(Self::from(args))
    }
}

impl<A: View> Junction for SplitByExt<A> {
    type Input = A;

    open spec fn branch(&self, input: Record<A::V>) -> u8 {
        ext_branch(texts(self.exts@), extension(input.source))
    }

    fn split(&self, input: &FlowFile<A>) -> (b: u8) {
        let ext = extension_of(input.meta.source());
        let ghost all = texts(self.exts@);
        let mut i: usize = 0;
        while i < self.exts.len()
            invariant
                i <= self.exts.len(),
                all == texts(self.exts@),
                ext@ == extension(input@.source),
                position_from(all, ext@, 0) == position_from(all, ext@, i as int),
            decreases self.exts.len() - i,
        {
            assert(all[i as int] == self.exts@[i as int]@);
            if self.exts[i] == ext {
                if i < 255 {
                    return i as u8;
                }
                return 255;
            }
            i += 1;
        }
        255
    }
}

} // verus!
