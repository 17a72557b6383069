//! Records, their lineage and failure state, the stage contracts, chaining,
//! completion tracking and the record counter.

use vstd::prelude::*;
use vstd::string::*;

verus! {

/// The failure flags of a run, one per originating unit. A record names the
/// flag of its unit by position; a flag, once set, stays set.
#[derive(Debug)]
pub struct FailureFlags {
    flags: Vec<bool>,
}

impl View for FailureFlags {
    type V = Seq<bool>;

    closed spec fn view(&self) -> Seq<bool> {
        self.flags@
    }
}

/// The flags after the one named by `id` is set. Naming no flag, or one that
/// the table does not hold, changes nothing.
pub open spec fn marked(flags: Seq<bool>, id: Option<usize>) -> Seq<bool> {
    match id {
        Some(i) => if i < flags.len() {
            flags.update(i as int, true)
        } else {
            flags
        },
        None => flags,
    }
}

/// Whether the flag named by `id` is set.
pub open spec fn is_marked(flags: Seq<bool>, id: usize) -> bool {
    id < flags.len() && flags[id as int]
}

impl FailureFlags {
    /// A table without flags.
    pub fn new() -> (out: Self)
        ensures
            out@ == Seq::<bool>::empty(),
    {
        FailureFlags { flags: Vec::new() }
    }

    /// Adds the flag of a new unit, not set, and returns its position.
    pub fn open_unit(&mut self) -> (id: usize)
        ensures
            id == old(self)@.len(),
            final(self)@ == old(self)@.push(false),
    {
        let id = self.flags.len();
        self.flags.push(false);
        id
    }

    /// Sets the flag at `id`, if the table holds it.
    pub fn mark(&mut self, id: usize)
        ensures
            final(self)@ == marked(old(self)@, Some(id)),
    {
        if id < self.flags.len() {
            self.flags[id] = true;
        }
    }

    /// Tells whether the flag at `id` is set.
    pub fn has_failed(&self, id: usize) -> (b: bool)
        ensures
            b == is_marked(self@, id),
    {
        id < self.flags.len() && self.flags[id]
    }

    /// The number of units opened so far.
    pub fn len(&self) -> (n: usize)
        ensures
            n == self@.len(),
    {
        self.flags.len()
    }
}

/// Setting a flag never clears one, and keeps the number of flags.
pub proof fn lemma_marking_is_monotonic(flags: Seq<bool>, id: Option<usize>)
    ensures
        marked(flags, id).len() == flags.len(),
        forall|i: int| 0 <= i < flags.len() && flags[i] ==> #[trigger] marked(flags, id)[i],
        marked(marked(flags, id), id) == marked(flags, id),
{
    assert(marked(marked(flags, id), id) =~= marked(flags, id));
}

/// Whether `test` holds of one of the items.
pub open spec fn holds_for_some<A>(items: Seq<A>, test: spec_fn(A) -> bool) -> bool {
    exists|i: int| 0 <= i < items.len() && test(#[trigger] items[i])
}

/// A test holds of one of the first `n + 1` items exactly when it holds of
/// one of the first `n` or of the item at `n`.
pub proof fn lemma_holds_for_some_step<A>(items: Seq<A>, n: int, test: spec_fn(A) -> bool)
    requires
        0 <= n < items.len(),
    ensures
        holds_for_some(items.take(n + 1), test) == (holds_for_some(items.take(n), test) || test(
            items[n],
        )),
{
    let before = items.take(n);
    let after = items.take(n + 1);
    if holds_for_some(after, test) {
        let w = choose|i: int| 0 <= i < after.len() && test(#[trigger] after[i]);
        if w < n {
            assert(test(before[w]));
        }
    }
    if holds_for_some(before, test) {
        let w = choose|i: int| 0 <= i < before.len() && test(#[trigger] before[i]);
        assert(test(after[w]));
    }
    if test(items[n]) {
        assert(test(after[n]));
    }
}

/// A test holds of one of two lists' items exactly when it holds of one of
/// either list's.
pub proof fn lemma_holds_for_some_concat<A>(xs: Seq<A>, ys: Seq<A>, test: spec_fn(A) -> bool)
    ensures
        holds_for_some(xs + ys, test) == (holds_for_some(xs, test) || holds_for_some(ys, test)),
{
    let both = xs + ys;
    if holds_for_some(both, test) {
        let w = choose|i: int| 0 <= i < both.len() && test(#[trigger] both[i]);
        if w < xs.len() {
            assert(test(xs[w]));
        } else {
            assert(test(ys[w - xs.len()]));
        }
    }
    if holds_for_some(xs, test) {
        let w = choose|i: int| 0 <= i < xs.len() && test(#[trigger] xs[i]);
        assert(test(both[w]));
    }
    if holds_for_some(ys, test) {
        let w = choose|i: int| 0 <= i < ys.len() && test(#[trigger] ys[i]);
        assert(test(both[xs.len() + w]));
    }
}

/// Taking the first item off a list that is what is left of `all` behind
/// its first `done` items: that item is the one at `done`, and what is left
/// is what is behind the first `done + 1`.
pub proof fn lemma_rest_of<A>(rest: Seq<A>, all: Seq<A>, done: int)
    requires
        0 <= done <= all.len(),
        rest == all.skip(done),
        rest.len() > 0,
    ensures
        done < all.len(),
        rest[0] == all[done],
        rest.skip(1) == all.skip(done + 1),
        all.take(done + 1).drop_last() == all.take(done),
        all.take(done + 1).last() == all[done],
{
    assert(all.skip(done).len() == all.len() - done);
    assert(rest.skip(1) =~= all.skip(done + 1));
    assert(all.take(done + 1).drop_last() =~= all.take(done));
}

/// The lineage and failure state that travels with a record.
#[derive(Debug)]
pub struct FlowFileMeta {
    source: String,
    failed: Option<usize>,
}

/// A `FlowFileMeta` as plain values: the provenance text and the position of
/// the unit's failure flag, if the record belongs to a tracked unit.
pub struct Lineage {
    pub source: Seq<char>,
    pub failed: Option<usize>,
}

impl View for FlowFileMeta {
    type V = Lineage;

    closed spec fn view(&self) -> Lineage {
        Lineage { source: self.source@, failed: self.failed }
    }
}

impl Clone for FlowFileMeta {
    fn clone(&self) -> (out: Self)
        ensures
            out@ == self@,
    {
        FlowFileMeta { source: self.source.clone(), failed: self.failed }
    }
}

impl FlowFileMeta {
    /// The lineage of a record that nothing is known of yet.
    pub fn new() -> (out: Self)
        ensures
            out@ == (Lineage { source: Seq::empty(), failed: None }),
    {
        FlowFileMeta { source: String::new(), failed: None }
    }

    /// The provenance text.
    pub fn source(&self) -> (s: &str)
        ensures
            s@ == self@.source,
    {
        self.source.as_str()
    }

    /// Appends `s` to the provenance text; what was there stays.
    pub fn add_source(&mut self, s: &str)
        ensures
            final(self)@.source == old(self)@.source + s@,
            final(self)@.failed == old(self)@.failed,
    {
        self.source.append(s);
    }

    /// The position of the unit's failure flag.
    pub fn failed(&self) -> (id: Option<usize>)
        ensures
            id == self@.failed,
    {
        self.failed
    }

    /// Ties the record to the unit whose flag is at `id`, unless it already
    /// belongs to a unit.
    pub fn attach(&mut self, id: usize)
        ensures
            final(self)@.source == old(self)@.source,
            final(self)@.failed == (if old(self)@.failed is Some {
                old(self)@.failed
            } else {
                Some(id)
            }),
    {
        if self.failed.is_none() {
            self.failed = Some(id);
        }
    }

    /// Sets the failure flag of the record's unit in `flags`. A record of no
    /// unit sets nothing.
    pub fn mark_failed(&self, flags: &mut FailureFlags)
        ensures
            final(flags)@ == marked(old(flags)@, self@.failed),
    {
        match self.failed {
            Some(id) => flags.mark(id),
            None => {},
        }
    }
}

/// A record: the payload with its lineage.
#[derive(Debug)]
pub struct FlowFile<T> {
    pub data: T,
    pub meta: FlowFileMeta,
}

/// A record as plain values.
pub struct Record<V> {
    pub data: V,
    pub source: Seq<char>,
    pub failed: Option<usize>,
}

impl<T: View> View for FlowFile<T> {
    type V = Record<T::V>;

    open spec fn view(&self) -> Record<T::V> {
        Record { data: self.data@, source: self.meta@.source, failed: self.meta@.failed }
    }
}

impl<T> FlowFile<T> {
    /// A record around `data`, with empty provenance and no unit.
    pub fn new(data: T) -> (out: Self)
        ensures
            out.data == data,
            out.meta@ == (Lineage { source: Seq::empty(), failed: None }),
    {
        Self { data, meta: FlowFileMeta::new() }
    }
}

/// The records of a list as plain values.
pub open spec fn records<T: View>(list: Seq<FlowFile<T>>) -> Seq<Record<T::V>> {
    Seq::new(list.len(), |i: int| list[i]@)
}

/// A stage that maps one record to a finite sequence of records.
///
/// What comes out depends on the record alone. Every record that comes out
/// belongs to the unit of the one that went in. The only change a call makes
/// to the failure flags is to set the flag of that unit, which it does exactly
/// when the stage fails on the record.
pub trait Transform {
    type Input: View;

    type Output: View;

    /// The records that the stage makes of `input`.
    spec fn outputs(&self, input: Record<<Self::Input as View>::V>) -> Seq<
        Record<<Self::Output as View>::V>,
    >;

    /// Whether the stage meets an error on `input`.
    spec fn fails(&self, input: Record<<Self::Input as View>::V>) -> bool;

    /// Every record that the stage makes belongs to the unit of its input.
    proof fn lemma_outputs_keep_unit(&self, input: Record<<Self::Input as View>::V>)
        ensures
            forall|i: int|
                0 <= i < self.outputs(input).len() ==> (#[trigger] self.outputs(input)[i]).failed
                    == input.failed,
    ;

    fn transform(&self, input: FlowFile<Self::Input>, flags: &mut FailureFlags) -> (out: Vec<
        FlowFile<Self::Output>,
    >)
        ensures
            records(out@) == self.outputs(input@),
            final(flags)@ == (if self.fails(input@) {
                marked(old(flags)@, input@.failed)
            } else {
                old(flags)@
            }),
    ;
}

/// Two stages in a row: what `first` emits goes through `next`.
pub struct Chain<A, B> {
    pub first: A,
    pub next: B,
}

/// What `stage` makes of `inputs`, record by record, in order.
pub open spec fn flat_outputs<B: Transform>(
    stage: &B,
    inputs: Seq<Record<<B::Input as View>::V>>,
) -> Seq<Record<<B::Output as View>::V>>
    decreases inputs.len(),
{
    if inputs.len() == 0 {
        Seq::empty()
    } else {
        flat_outputs(stage, inputs.drop_last()) + stage.outputs(inputs.last())
    }
}

/// The test whether `stage` fails on a record.
pub open spec fn failing<B: Transform>(stage: &B) -> spec_fn(
    Record<<B::Input as View>::V>,
) -> bool {
    |input: Record<<B::Input as View>::V>| stage.fails(input)
}

/// Whether `stage` fails on one of `inputs`.
pub open spec fn any_fails<B: Transform>(
    stage: &B,
    inputs: Seq<Record<<B::Input as View>::V>>,
) -> bool {
    holds_for_some(inputs, failing(stage))
}

impl<A: Transform, B: Transform<Input = A::Output>> Transform for Chain<A, B> {
    type Input = A::Input;

    type Output = B::Output;

    open spec fn outputs(&self, input: Record<<A::Input as View>::V>) -> Seq<
        Record<<B::Output as View>::V>,
    > {
        flat_outputs(&self.next, self.first.outputs(input))
    }

    open spec fn fails(&self, input: Record<<A::Input as View>::V>) -> bool {
        self.first.fails(input) || any_fails(&self.next, self.first.outputs(input))
    }

    proof fn lemma_outputs_keep_unit(&self, input: Record<<A::Input as View>::V>) {
        self.first.lemma_outputs_keep_unit(input);
        lemma_flat_outputs_keep_unit(&self.next, self.first.outputs(input), input.failed);
    }

    fn transform(&self, input: FlowFile<A::Input>, flags: &mut FailureFlags) -> (out: Vec<
        FlowFile<B::Output>,
    >) {
        let ghost origin = input@;
        let ghost before = flags@;
        let mut mids = self.first.transform(input, flags);
        let ghost all = records(mids@);
        proof {
            self.first.lemma_outputs_keep_unit(origin);
            lemma_marking_is_monotonic(before, origin.failed);
        }
        let mut out: Vec<FlowFile<B::Output>> = Vec::new();
        let ghost mut done: int = 0;
        assert(all.take(0) =~= Seq::empty());
        assert(records(out@) =~= flat_outputs(&self.next, all.take(0)));
        while mids.len() > 0
            invariant
                all == self.first.outputs(origin),
                0 <= done <= all.len(),
                records(mids@) == all.skip(done),
                forall|i: int| 0 <= i < all.len() ==> (#[trigger] all[i]).failed == origin.failed,
                records(out@) == flat_outputs(&self.next, all.take(done)),
                flags@ == (if self.first.fails(origin) || any_fails(&self.next, all.take(done)) {
                    marked(before, origin.failed)
                } else {
                    before
                }),
            decreases mids.len(),
        {
            let ghost rest = records(mids@);
            let mid = mids.remove(0);
            proof {
                lemma_rest_of(rest, all, done);
                assert(records(mids@) =~= rest.skip(1));
                lemma_holds_for_some_step(all, done, failing(&self.next));
            }
            let ghost held = records(out@);
            let mut more = self.next.transform(mid, flags);
            let ghost added = records(more@);
            out.append(&mut more);
            proof {
                assert(records(out@) =~= held + added);
                done = done + 1;
            }
        }
        assert(all.take(done) =~= all);
        out
    }
}

/// Every record that a stage makes of records of one unit belongs to that unit.
pub proof fn lemma_flat_outputs_keep_unit<B: Transform>(
    stage: &B,
    inputs: Seq<Record<<B::Input as View>::V>>,
    unit: Option<usize>,
)
    requires
        forall|i: int| 0 <= i < inputs.len() ==> (#[trigger] inputs[i]).failed == unit,
    ensures
        forall|i: int|
            0 <= i < flat_outputs(stage, inputs).len() ==> (#[trigger] flat_outputs(
                stage,
                inputs,
            )[i]).failed == unit,
    decreases inputs.len(),
{
    if inputs.len() > 0 {
        lemma_flat_outputs_keep_unit(stage, inputs.drop_last(), unit);
        stage.lemma_outputs_keep_unit(inputs.last());
    }
}

/// A stage treats the records of two lists, one behind the other, as it
/// treats each list by itself.
pub proof fn lemma_flat_outputs_concat<B: Transform>(
    stage: &B,
    xs: Seq<Record<<B::Input as View>::V>>,
    ys: Seq<Record<<B::Input as View>::V>>,
)
    ensures
        flat_outputs(stage, xs + ys) == flat_outputs(stage, xs) + flat_outputs(stage, ys),
    decreases ys.len(),
{
    if ys.len() == 0 {
        assert(xs + ys =~= xs);
        assert(flat_outputs(stage, xs) + flat_outputs(stage, ys) =~= flat_outputs(stage, xs));
    } else {
        assert((xs + ys).drop_last() =~= xs + ys.drop_last());
        assert((xs + ys).last() == ys.last());
        lemma_flat_outputs_concat(stage, xs, ys.drop_last());
        assert(flat_outputs(stage, xs + ys) =~= flat_outputs(stage, xs) + flat_outputs(stage, ys));
    }
}

/// A stage fails on one of two lists' records exactly when it fails on one of
/// either list's.
pub proof fn lemma_any_fails_concat<B: Transform>(
    stage: &B,
    xs: Seq<Record<<B::Input as View>::V>>,
    ys: Seq<Record<<B::Input as View>::V>>,
)
    ensures
        any_fails(stage, xs + ys) == (any_fails(stage, xs) || any_fails(stage, ys)),
{
    lemma_holds_for_some_concat(xs, ys, failing(stage));
}

/// Running `b` over a list and `c` over all that comes out is running the
/// chain of `b` and `c` over the list.
pub proof fn lemma_chain_distributes<B: Transform, C: Transform<Input = B::Output>>(
    b: B,
    c: C,
    inputs: Seq<Record<<B::Input as View>::V>>,
)
    ensures
        flat_outputs(&c, flat_outputs(&b, inputs)) == flat_outputs(
            &(Chain { first: b, next: c }),
            inputs,
        ),
        (any_fails(&b, inputs) || any_fails(&c, flat_outputs(&b, inputs))) == any_fails(
            &(Chain { first: b, next: c }),
            inputs,
        ),
    decreases inputs.len(),
{
    let bc = Chain { first: b, next: c };
    if inputs.len() == 0 {
        assert(flat_outputs(&c, flat_outputs(&b, inputs)) =~= flat_outputs(&bc, inputs));
    } else {
        let init = inputs.drop_last();
        let last = inputs.last();
        lemma_chain_distributes(b, c, init);
        lemma_flat_outputs_concat(&c, flat_outputs(&b, init), b.outputs(last));
        lemma_any_fails_concat(&c, flat_outputs(&b, init), b.outputs(last));
        assert(inputs =~= init + seq![last]);
        lemma_any_fails_concat(&b, init, seq![last]);
        lemma_any_fails_concat(&bc, init, seq![last]);
        assert(any_fails(&b, seq![last]) == b.fails(last)) by {
            if b.fails(last) {
                assert(b.fails(seq![last][0]));
            }
        }
        assert(any_fails(&bc, seq![last]) == bc.fails(last)) by {
            if bc.fails(last) {
                assert(bc.fails(seq![last][0]));
            }
        }
    }
}

/// Chaining is associative: for every record, `(a then b) then c` and
/// `a then (b then c)` emit the same records in the same order, and fail on
/// the same records.
pub proof fn lemma_chain_associative<
    A: Transform,
    B: Transform<Input = A::Output>,
    C: Transform<Input = B::Output>,
>(a: A, b: B, c: C, input: Record<<A::Input as View>::V>)
    ensures
        (Chain { first: Chain { first: a, next: b }, next: c }).outputs(input) == (Chain {
            first: a,
            next: Chain { first: b, next: c },
        }).outputs(input),
        (Chain { first: Chain { first: a, next: b }, next: c }).fails(input) == (Chain {
            first: a,
            next: Chain { first: b, next: c },
        }).fails(input),
        (Chain { first: Chain { first: a, next: b }, next: c }).outputs(input).to_multiset() == (
        Chain { first: a, next: Chain { first: b, next: c } }).outputs(input).to_multiset(),
{
    lemma_chain_distributes(b, c, a.outputs(input));
}

/// How the work on one unit ended.
#[derive(Clone, Copy, Debug, PartialEq, Eq, Structural)]
pub enum Completion {
    /// No record of the unit set its failure flag.
    Success,
    /// Some record of the unit set its failure flag.
    Failure,
}

/// The completion of the unit whose flag is at `unit`, as the flags stand.
pub open spec fn completion_of(flags: Seq<bool>, unit: usize) -> Completion {
    if is_marked(flags, unit) {
        Completion::Failure
    } else {
        Completion::Success
    }
}

/// The flags after each of `ids` was marked in turn.
pub open spec fn marked_all(flags: Seq<bool>, ids: Seq<Option<usize>>) -> Seq<bool>
    decreases ids.len(),
{
    if ids.len() == 0 {
        flags
    } else {
        marked(marked_all(flags, ids.drop_last()), ids.last())
    }
}

/// A unit completes in failure exactly when one of the markings made since it
/// was opened named its flag. With no marking at all it completes in success.
pub proof fn lemma_failure_iff_marked(flags: Seq<bool>, ids: Seq<Option<usize>>)
    requires
        flags.len() <= usize::MAX,
    ensures
        marked_all(flags.push(false), ids).len() == flags.len() + 1,
        completion_of(marked_all(flags.push(false), ids), flags.len() as usize)
            == Completion::Failure <==> ids.contains(Some(flags.len() as usize)),
    decreases ids.len(),
{
    let unit = flags.len() as usize;
    if ids.len() > 0 {
        lemma_failure_iff_marked(flags, ids.drop_last());
        if ids.contains(Some(unit)) {
            let w = choose|i: int| 0 <= i < ids.len() && ids[i] == Some(unit);
            if w < ids.len() - 1 {
                assert(ids.drop_last()[w] == Some(unit));
            }
        }
        if ids.drop_last().contains(Some(unit)) {
            let w = choose|i: int| 0 <= i < ids.drop_last().len() && ids.drop_last()[i] == Some(unit);
            assert(ids[w] == Some(unit));
        }
        if ids.last() == Some(unit) {
            assert(ids[ids.len() - 1] == Some(unit));
        }
    }
}

/// The records derived from one originating unit, with the unit's failure
/// flag. Records handed out are tied to the unit; when the work on them is
/// over, `finish` tells how it ended.
#[derive(Debug)]
pub struct CloseableIter<R> {
    iter: Vec<FlowFile<R>>,
    has_failed: usize,
}

/// The lineage of a record once it is tied to `unit`, which changes nothing
/// for a record that already belongs to a unit.
pub open spec fn tied(lineage: Lineage, unit: usize) -> Lineage {
    Lineage {
        source: lineage.source,
        failed: if lineage.failed is Some {
            lineage.failed
        } else {
            Some(unit)
        },
    }
}

impl<R> CloseableIter<R> {
    /// The records not handed out yet.
    pub closed spec fn pending(&self) -> Seq<FlowFile<R>> {
        self.iter@
    }

    /// The position of the unit's failure flag.
    pub closed spec fn unit(&self) -> usize {
        self.has_failed
    }

    /// Opens a unit over `iter`: adds its flag to `flags`, not set.
    pub fn new(iter: Vec<FlowFile<R>>, flags: &mut FailureFlags) -> (out: Self)
        ensures
            out.pending() == iter@,
            out.unit() == old(flags)@.len(),
            final(flags)@ == old(flags)@.push(false),
    {
        let has_failed = flags.open_unit();
        Self { iter, has_failed }
    }

    /// Hands out the next record, tied to this unit unless it belongs to one
    /// already; `None` when no record is left.
    pub fn next(&mut self) -> (out: Option<FlowFile<R>>)
        ensures
            final(self).unit() == old(self).unit(),
            old(self).pending().len() == 0 ==> out is None && final(self).pending() == old(
                self,
            ).pending(),
            old(self).pending().len() > 0 ==> out is Some && out.unwrap().data == old(
                self,
            ).pending()[0].data && out.unwrap().meta@ == tied(
                old(self).pending()[0].meta@,
                old(self).unit(),
            ) && final(self).pending() == old(self).pending().skip(1),
    {
        if self.iter.len() == 0 {
            return None;
        }
        let mut f = self.iter.remove(0);
        f.meta.attach(self.has_failed);
        assert(self.iter@ =~= old(self).iter@.skip(1));
        Some(f)
    }

    /// Ends the work on the unit, whether or not every record was handed out,
    /// and tells how it ended: in failure exactly when the unit's flag is set.
    pub fn finish(self, flags: &FailureFlags) -> (out: Completion)
        ensures
            out == completion_of(flags@, self.unit()),
    {
        if flags.has_failed(self.has_failed) {
            Completion::Failure
        } else {
            Completion::Success
        }
    }
}

/// The count of records that reached a closing stage, and when counting began.
#[derive(Debug)]
pub struct Stats {
    total: u64,
    start: u64,
}

/// Records per second: `total * 1000 / millis`, and 0 where no time has passed.
pub open spec fn rate_of(total: u64, millis: u64) -> int {
    if millis > 0 {
        total * 1000 / (millis as int)
    } else {
        0
    }
}

/// The throughput of `total` records in `millis` milliseconds.
pub fn rate(total: u64, millis: u64) -> (r: u128)
    ensures
        r == rate_of(total, millis),
{
    if millis > 0 {
        let scaled: u128 = (total as u128) * 1000;
        scaled / (millis as u128)
    } else {
        0
    }
}

impl Stats {
    /// The count so far.
    pub closed spec fn count(&self) -> u64 {
        self.total
    }

    /// The clock reading, in milliseconds, at which counting began.
    pub closed spec fn started(&self) -> u64 {
        self.start
    }

    /// A counter at zero, started at the clock reading `now`, in milliseconds.
    pub fn new(now: u64) -> (out: Self)
        ensures
            out.count() == 0,
            out.started() == now,
    {
        Stats { total: 0, start: now }
    }

    /// Counts one record. The count wraps at the width of the counter.
    pub fn increment(&mut self)
        ensures
            final(self).count() == (if old(self).count() == u64::MAX {
                0
            } else {
                old(self).count() + 1
            }),
            final(self).started() == old(self).started(),
    {
        self.total = self.total.wrapping_add(1);
    }

    /// The count so far.
    pub fn total(&self) -> (n: u64)
        ensures
            n == self.count(),
    {
        self.total
    }

    /// The milliseconds from the start to the clock reading `now`; 0 for a
    /// reading from before the start.
    pub fn elapsed(&self, now: u64) -> (millis: u64)
        ensures
            millis == (if now >= self.started() {
                now - self.started()
            } else {
                0
            }),
    {
        if now >= self.start {
            now - self.start
        } else {
            0
        }
    }

    /// What a progress report at the clock reading `now` holds: the count and
    /// the throughput since the start.
    pub fn report(&self, now: u64) -> (out: (u64, u128))
        ensures
            out.0 == self.count(),
            out.1 == rate_of(self.count(), (if now >= self.started() {
                now - self.started()
            } else {
                0
            }) as u64),
    {
        let total = self.total();
        let millis = self.elapsed(now);
        (total, rate(total, millis))
    }
}

/// The count after `n` more records, wrapping at the width of the counter.
pub open spec fn counted(from: u64, n: nat) -> u64 {
    ((from + n) % 0x1_0000_0000_0000_0000) as u64
}

/// A stage that produces the initial records of a run.
pub trait StartTransform: Sized {
    type Output: View;

    /// Whether the stage can start.
    spec fn ready(&self) -> bool;

    /// The records that the stage starts the run with.
    spec fn emitted(&self) -> Seq<Record<<Self::Output as View>::V>>;

    fn start(self) -> (out: Vec<FlowFile<Self::Output>>)
        requires
            self.ready(),
        ensures
            records(out@) == self.emitted(),
    ;
}

/// A stage that consumes a record and gives nothing back.
pub trait CloseTransform {
    type Input;

    fn close(&self, input: FlowFile<Self::Input>);
}

/// A stage that classifies a record into a branch without changing it. The
/// branch depends on the record alone.
pub trait Junction {
    type Input: View;

    /// The branch of `input`.
    spec fn branch(&self, input: Record<<Self::Input as View>::V>) -> u8;

    fn split(&self, input: &FlowFile<Self::Input>) -> (b: u8)
        ensures
            b == self.branch(input@),
    ;
}

/// One of the two branches behind a junction.
#[derive(Clone, Copy, Debug, PartialEq, Eq, Structural)]
pub enum Branch {
    Zero,
    One,
}

/// The branch that the classification `b` stands for; only 0 and 1 stand for one.
pub open spec fn branch_of(b: u8) -> Option<Branch> {
    if b == 0 {
        Some(Branch::Zero)
    } else if b == 1 {
        Some(Branch::One)
    } else {
        None
    }
}

/// Classifies `input` once and names its branch. A classification other than
/// 0 or 1 names none: it is never taken for one of the two.
pub fn route<J: Junction>(junction: &J, input: &FlowFile<J::Input>) -> (out: Option<Branch>)
    ensures
        out == branch_of(junction.branch(input@)),
{
    let b = junction.split(input);
    if b == 0 {
        Some(Branch::Zero)
    } else if b == 1 {
        Some(Branch::One)
    } else {
        None
    }
}

/// Classifying is pure: two records that are equal as values are of the same
/// branch, so asking again about an unchanged record gives the same answer.
pub proof fn lemma_split_is_pure<J: Junction>(
    junction: &J,
    first: FlowFile<J::Input>,
    second: FlowFile<J::Input>,
)
    requires
        first@ == second@,
    ensures
        junction.branch(first@) == junction.branch(second@),
        branch_of(junction.branch(first@)) == branch_of(junction.branch(second@)),
{
}

/// A record as it enters the work on a unit: tied to the unit whose flag is
/// at `id`, unless it already belongs to one.
pub open spec fn entered<V>(unit: Record<V>, id: usize) -> Record<V> {
    Record {
        data: unit.data,
        source: unit.source,
        failed: if unit.failed is Some {
            unit.failed
        } else {
            Some(id)
        },
    }
}

/// Hands each record of `list` to the closing stage and counts it.
pub fn close_all<C: CloseTransform>(close: &C, list: Vec<FlowFile<C::Input>>, stats: &mut Stats)
    ensures
        final(stats).count() == counted(old(stats).count(), list@.len()),
        final(stats).started() == old(stats).started(),
{
    let mut list = list;
    let ghost n = list@.len();
    assert(n == list.len());
    let mut done: usize = 0;
    while list.len() > 0
        invariant
            done + list@.len() == n,
            n <= usize::MAX,
            stats.count() == counted(old(stats).count(), done as nat),
            stats.started() == old(stats).started(),
        decreases list.len(),
    {
        let record = list.remove(0);
        close.close(record);
        stats.increment();
        done += 1;
    }
}

/// Runs one originating unit through a spine and its closing stage.
///
/// The unit's flag is opened, the record is tied to it and transformed, every
/// record that comes out is closed and counted, and then the unit completes:
/// in failure exactly when the spine failed on the record and the record
/// names this unit's flag.
pub fn run_unit<T: Transform, C: CloseTransform<Input = T::Output>>(
    unit: FlowFile<T::Input>,
    spine: &T,
    close: &C,
    stats: &mut Stats,
    flags: &mut FailureFlags,
) -> (out: Completion)
    ensures
        final(stats).count() == counted(
            old(stats).count(),
            spine.outputs(entered(unit@, old(flags)@.len() as usize)).len(),
        ),
        final(stats).started() == old(stats).started(),
        out == Completion::Failure <==> spine.fails(entered(unit@, old(flags)@.len() as usize))
            && entered(unit@, old(flags)@.len() as usize).failed == Some(
            old(flags)@.len() as usize,
        ),
        final(flags)@ == (if spine.fails(entered(unit@, old(flags)@.len() as usize)) {
            marked(old(flags)@.push(false), entered(unit@, old(flags)@.len() as usize).failed)
        } else {
            old(flags)@.push(false)
        }),
{
    let id = flags.len();
    let mut units: Vec<FlowFile<T::Input>> = Vec::new();
    units.push(unit);
    let mut tracker = CloseableIter::new(units, flags);
    let record = match tracker.next() {
        Some(record) => record,
        None => {
            return tracker.finish(flags);
        },
    };
    assert(record@ == entered(unit@, id));
    let list = spine.transform(record, flags);
    assert(list@.len() == records(list@).len());
    close_all(close, list, stats);
    tracker.finish(flags)
}

/// The flags after `stage` worked on `input`.
pub open spec fn flags_after<T: Transform>(
    stage: &T,
    input: Record<<T::Input as View>::V>,
    flags: Seq<bool>,
) -> Seq<bool> {
    if stage.fails(input) {
        marked(flags, input.failed)
    } else {
        flags
    }
}

/// The flags after `units` ran through `spine` one after the other, each
/// opening its own flag behind those that were there.
pub open spec fn run_flags<T: Transform>(
    spine: &T,
    units: Seq<Record<<T::Input as View>::V>>,
    flags: Seq<bool>,
) -> Seq<bool>
    decreases units.len(),
{
    if units.len() == 0 {
        flags
    } else {
        let before = run_flags(spine, units.drop_last(), flags);
        flags_after(
            spine,
            entered(units.last(), before.len() as usize),
            before.push(false),
        )
    }
}

/// The number of records that `spine` makes of `units`, the first of them
/// entering as the unit whose flag is at `first`, the others behind it.
pub open spec fn run_count<T: Transform>(
    spine: &T,
    units: Seq<Record<<T::Input as View>::V>>,
    first: nat,
) -> nat
    decreases units.len(),
{
    if units.len() == 0 {
        0
    } else {
        run_count(spine, units.drop_last(), first) + spine.outputs(
            entered(units.last(), (first + units.len() - 1) as usize),
        ).len()
    }
}

/// A run opens one flag for each unit.
pub proof fn lemma_run_opens_one_flag_each<T: Transform>(
    spine: &T,
    units: Seq<Record<<T::Input as View>::V>>,
    flags: Seq<bool>,
)
    ensures
        run_flags(spine, units, flags).len() == flags.len() + units.len(),
    decreases units.len(),
{
    if units.len() > 0 {
        lemma_run_opens_one_flag_each(spine, units.drop_last(), flags);
        let before = run_flags(spine, units.drop_last(), flags);
        lemma_marking_is_monotonic(
            before.push(false),
            entered(units.last(), before.len() as usize).failed,
        );
    }
}

/// While the count fits the counter, it is exact: the counter has grown by
/// the number of records counted.
pub proof fn lemma_count_is_exact(from: u64, n: nat)
    requires
        from + n <= u64::MAX,
    ensures
        counted(from, n) == from + n,
{
}

/// Runs a pipeline without branches from start to close, one unit after the
/// other, and tells how each unit completed.
///
/// Every record that the start emits is a unit. The counter grows by the
/// number of records that reach the closing stage. A unit completes in
/// failure exactly when the spine fails on its record and the record names
/// the unit's own flag.
pub fn run<
    S: StartTransform,
    T: Transform<Input = S::Output>,
    C: CloseTransform<Input = T::Output>,
>(start: S, spine: &T, close: &C, stats: &mut Stats, flags: &mut FailureFlags) -> (out: Vec<
    Completion,
>)
    requires
        start.ready(),
    ensures
        out@.len() == start.emitted().len(),
        final(flags)@ == run_flags(spine, start.emitted(), old(flags)@),
        final(flags)@.len() == old(flags)@.len() + start.emitted().len(),
        final(stats).count() == counted(
            old(stats).count(),
            run_count(spine, start.emitted(), old(flags)@.len()),
        ),
        final(stats).started() == old(stats).started(),
        forall|i: int|
            0 <= i < out@.len() ==> (#[trigger] out@[i] == Completion::Failure <==> spine.fails(
                entered(start.emitted()[i], (old(flags)@.len() + i) as usize),
            ) && entered(start.emitted()[i], (old(flags)@.len() + i) as usize).failed == Some(
                (old(flags)@.len() + i) as usize,
            )),
{
    let ghost all = start.emitted();
    let ghost opened = flags@;
    let ghost first = flags@.len();
    let ghost count = stats.count();
    let mut units = start.start();
    assert(units@.len() == records(units@).len());
    assert(all.len() == units.len());
    let mut out: Vec<Completion> = Vec::new();
    let mut done: usize = 0;
    assert(all.take(0) =~= Seq::empty());
    while units.len() > 0
        invariant
            done + units@.len() == all.len(),
            all.len() <= usize::MAX,
            records(units@) == all.skip(done as int),
            out@.len() == done,
            flags@ == run_flags(spine, all.take(done as int), opened),
            flags@.len() == first + done,
            first == opened.len(),
            stats.count() == counted(count, run_count(spine, all.take(done as int), first)),
            stats.started() == old(stats).started(),
            forall|i: int|
                0 <= i < done ==> (#[trigger] out@[i] == Completion::Failure <==> spine.fails(
                    entered(all[i], (first + i) as usize),
                ) && entered(all[i], (first + i) as usize).failed == Some((first + i) as usize)),
        decreases units.len(),
    {
        let ghost rest = records(units@);
        let n = flags.len();
        let unit = units.remove(0);
        proof {
            lemma_rest_of(rest, all, done as int);
            assert(records(units@) =~= rest.skip(1));
            lemma_marking_is_monotonic(flags@.push(false), entered(unit@, n).failed);
        }
        let completion = run_unit(unit, spine, close, stats, flags);
        out.push(completion);
        done += 1;
    }
    assert(all.take(done as int) =~= all);
    out
}

/// Routes one record at a junction: classifies it once, runs it through the
/// spine of its branch, and closes and counts what comes out.
///
/// A classification other than 0 or 1 names no branch: then the record runs
/// through neither spine, nothing is counted, and `None` says so.
pub fn run_fork<
    J: Junction,
    A: Transform<Input = J::Input>,
    B: Transform<Input = J::Input>,
    CA: CloseTransform<Input = A::Output>,
    CB: CloseTransform<Input = B::Output>,
>(
    record: FlowFile<J::Input>,
    junction: &J,
    zero: &A,
    close_zero: &CA,
    one: &B,
    close_one: &CB,
    stats: &mut Stats,
    flags: &mut FailureFlags,
) -> (out: Option<Branch>)
    ensures
        out == branch_of(junction.branch(record@)),
        final(stats).started() == old(stats).started(),
        final(stats).count() == counted(
            old(stats).count(),
            match out {
                Some(Branch::Zero) => zero.outputs(record@).len(),
                Some(Branch::One) => one.outputs(record@).len(),
                None => 0,
            },
        ),
        final(flags)@ == (match out {
            Some(Branch::Zero) => flags_after(zero, record@, old(flags)@),
            Some(Branch::One) => flags_after(one, record@, old(flags)@),
            None => old(flags)@,
        }),
{
    match route(junction, &record) {
        Some(Branch::Zero) => {
            let list = zero.transform(record, flags);
            assert(list@.len() == records(list@).len());
            close_all(close_zero, list, stats);
            Some(Branch::Zero)
        },
        Some(Branch::One) => {
            let list = one.transform(record, flags);
            assert(list@.len() == records(list@).len());
            close_all(close_one, list, stats);
            Some(Branch::One)
        },
        None => None,
    }
}

/// A stage that is built from an ordered list of string arguments, its only
/// configuration.
pub trait FromArgs: Sized {
    /// Whether a stage can be built from `args`.
    spec fn accepts(args: Seq<String>) -> bool;

    /// The stage that is built from `args`, where they are accepted.
    spec fn built(args: Vec<String>) -> Self;

    fn from_args(args: Vec<String>) -> (out: Option<Self>)
        ensures
            out is Some <==> Self::accepts(args@),
            out matches Some(stage) ==> stage == Self::built(args),
    ;
}

/// The number of records that reach a closing stage when `input` is routed
/// at a junction: what the spine of its branch makes of it, and nothing
/// where its classification names no branch.
pub open spec fn fork_count<J: Junction, A: Transform<Input = J::Input>, B: Transform<Input = J::Input>>(
    junction: &J,
    zero: &A,
    one: &B,
    input: Record<<J::Input as View>::V>,
) -> nat {
    match branch_of(junction.branch(input)) {
        Some(Branch::Zero) => zero.outputs(input).len(),
        Some(Branch::One) => one.outputs(input).len(),
        None => 0,
    }
}

/// Whether the spine of the branch of `input` fails on it.
pub open spec fn fork_fails<J: Junction, A: Transform<Input = J::Input>, B: Transform<Input = J::Input>>(
    junction: &J,
    zero: &A,
    one: &B,
    input: Record<<J::Input as View>::V>,
) -> bool {
    match branch_of(junction.branch(input)) {
        Some(Branch::Zero) => zero.fails(input),
        Some(Branch::One) => one.fails(input),
        None => false,
    }
}

/// The number of records that reach a closing stage when each of `inputs`
/// is routed at a junction.
pub open spec fn fork_total<J: Junction, A: Transform<Input = J::Input>, B: Transform<Input = J::Input>>(
    junction: &J,
    zero: &A,
    one: &B,
    inputs: Seq<Record<<J::Input as View>::V>>,
) -> nat
    decreases inputs.len(),
{
    if inputs.len() == 0 {
        0
    } else {
        fork_total(junction, zero, one, inputs.drop_last()) + fork_count(
            junction,
            zero,
            one,
            inputs.last(),
        )
    }
}

/// The test whether the spine of a record's branch fails on it.
pub open spec fn fork_failing<
    J: Junction,
    A: Transform<Input = J::Input>,
    B: Transform<Input = J::Input>,
>(junction: &J, zero: &A, one: &B) -> spec_fn(Record<<J::Input as View>::V>) -> bool {
    |input: Record<<J::Input as View>::V>| fork_fails(junction, zero, one, input)
}

/// Whether the spine of its branch fails on one of `inputs`.
pub open spec fn any_fork_fails<
    J: Junction,
    A: Transform<Input = J::Input>,
    B: Transform<Input = J::Input>,
>(junction: &J, zero: &A, one: &B, inputs: Seq<Record<<J::Input as View>::V>>) -> bool {
    holds_for_some(inputs, fork_failing(junction, zero, one))
}

/// The test whether the junction names no branch for a record.
pub open spec fn unrouted<J: Junction>(junction: &J) -> spec_fn(
    Record<<J::Input as View>::V>,
) -> bool {
    |input: Record<<J::Input as View>::V>| branch_of(junction.branch(input)) is None
}

/// Whether the junction names a branch for each of `inputs`.
pub open spec fn all_routed<J: Junction>(
    junction: &J,
    inputs: Seq<Record<<J::Input as View>::V>>,
) -> bool {
    !holds_for_some(inputs, unrouted(junction))
}

/// How the work on one unit of a branching pipeline ended.
#[derive(Clone, Copy, Debug, PartialEq, Eq, Structural)]
pub struct UnitReport {
    /// Whether a record of the unit set its failure flag.
    pub completion: Completion,
    /// Whether the junction named a branch for every record that reached it.
    pub routed: bool,
}

/// Runs one originating unit through a pipeline with one junction: through
/// the spine before the junction, and then each record through the spine and
/// the closing stage of its branch.
///
/// A record that the junction names no branch for runs no further and is not
/// counted; the report then says that not every record was routed.
pub fn run_unit_branching<
    T: Transform,
    J: Junction<Input = T::Output>,
    A: Transform<Input = T::Output>,
    B: Transform<Input = T::Output>,
    CA: CloseTransform<Input = A::Output>,
    CB: CloseTransform<Input = B::Output>,
>(
    unit: FlowFile<T::Input>,
    spine: &T,
    junction: &J,
    zero: &A,
    close_zero: &CA,
    one: &B,
    close_one: &CB,
    stats: &mut Stats,
    flags: &mut FailureFlags,
) -> (out: UnitReport)
    ensures
        final(stats).started() == old(stats).started(),
        final(stats).count() == counted(
            old(stats).count(),
            fork_total(
                junction,
                zero,
                one,
                spine.outputs(entered(unit@, old(flags)@.len() as usize)),
            ),
        ),
        final(flags)@.len() == old(flags)@.len() + 1,
        out.routed == all_routed(
            junction,
            spine.outputs(entered(unit@, old(flags)@.len() as usize)),
        ),
        out.completion == Completion::Failure <==> (spine.fails(
            entered(unit@, old(flags)@.len() as usize),
        ) || any_fork_fails(
            junction,
            zero,
            one,
            spine.outputs(entered(unit@, old(flags)@.len() as usize)),
        )) && entered(unit@, old(flags)@.len() as usize).failed == Some(
            old(flags)@.len() as usize,
        ),
{
    let id = flags.len();
    let ghost origin = entered(unit@, id);
    let ghost opened = flags@.push(false);
    let ghost count = stats.count();
    let mut units: Vec<FlowFile<T::Input>> = Vec::new();
    units.push(unit);
    let mut tracker = CloseableIter::new(units, flags);
    let record = match tracker.next() {
        Some(record) => record,
        None => {
            return UnitReport { completion: tracker.finish(flags), routed: true };
        },
    };
    assert(record@ == origin);
    let mut mids = spine.transform(record, flags);
    let ghost all = records(mids@);
    proof {
        spine.lemma_outputs_keep_unit(origin);
        lemma_marking_is_monotonic(opened, origin.failed);
    }
    let mut routed = true;
    let ghost mut done: int = 0;
    assert(all.take(0) =~= Seq::empty());
    while mids.len() > 0
        invariant
            all == spine.outputs(origin),
            0 <= done <= all.len(),
            records(mids@) == all.skip(done),
            forall|i: int| 0 <= i < all.len() ==> (#[trigger] all[i]).failed == origin.failed,
            stats.count() == counted(count, fork_total(junction, zero, one, all.take(done))),
            stats.started() == old(stats).started(),
            routed == all_routed(junction, all.take(done)),
            opened.len() == id + 1,
            flags@ == (if spine.fails(origin) || any_fork_fails(
                junction,
                zero,
                one,
                all.take(done),
            ) {
                marked(opened, origin.failed)
            } else {
                opened
            }),
        decreases mids.len(),
    {
        let ghost rest = records(mids@);
        let mid = mids.remove(0);
        proof {
            lemma_rest_of(rest, all, done);
            assert(records(mids@) =~= rest.skip(1));
            lemma_holds_for_some_step(all, done, fork_failing(junction, zero, one));
            lemma_holds_for_some_step(all, done, unrouted(junction));
        }
        let taken = run_fork(mid, junction, zero, close_zero, one, close_one, stats, flags);
        if taken.is_none() {
            routed = false;
        }
        proof {
            done = done + 1;
        }
    }
    assert(all.take(done) =~= all);
    UnitReport { completion: tracker.finish(flags), routed }
}

/// The number of records that reach a closing stage when `units` run through
/// a pipeline with one junction, the first of them entering as the unit
/// whose flag is at `first`, the others behind it.
pub open spec fn branching_count<
    T: Transform,
    J: Junction<Input = T::Output>,
    A: Transform<Input = T::Output>,
    B: Transform<Input = T::Output>,
>(
    spine: &T,
    junction: &J,
    zero: &A,
    one: &B,
    units: Seq<Record<<T::Input as View>::V>>,
    first: nat,
) -> nat
    decreases units.len(),
{
    if units.len() == 0 {
        0
    } else {
        branching_count(spine, junction, zero, one, units.drop_last(), first) + fork_total(
            junction,
            zero,
            one,
            spine.outputs(entered(units.last(), (first + units.len() - 1) as usize)),
        )
    }
}

/// Runs a pipeline with one junction from start to close, one unit after the
/// other, and reports on each unit.
///
/// Every record that the start emits is a unit. The counter grows by the
/// number of records that reach a closing stage, on either branch, over all
/// units.
pub fn run_branching<
    S: StartTransform,
    T: Transform<Input = S::Output>,
    J: Junction<Input = T::Output>,
    A: Transform<Input = T::Output>,
    B: Transform<Input = T::Output>,
    CA: CloseTransform<Input = A::Output>,
    CB: CloseTransform<Input = B::Output>,
>(
    start: S,
    spine: &T,
    junction: &J,
    zero: &A,
    close_zero: &CA,
    one: &B,
    close_one: &CB,
    stats: &mut Stats,
    flags: &mut FailureFlags,
) -> (out: Vec<UnitReport>)
    requires
        start.ready(),
    ensures
        out@.len() == start.emitted().len(),
        final(flags)@.len() == old(flags)@.len() + start.emitted().len(),
        final(stats).started() == old(stats).started(),
        final(stats).count() == counted(
            old(stats).count(),
            branching_count(spine, junction, zero, one, start.emitted(), old(flags)@.len()),
        ),
        forall|i: int|
            0 <= i < out@.len() ==> (#[trigger] out@[i]).routed == all_routed(
                junction,
                spine.outputs(entered(start.emitted()[i], (old(flags)@.len() + i) as usize)),
            ) && (out@[i].completion == Completion::Failure <==> (spine.fails(
                entered(start.emitted()[i], (old(flags)@.len() + i) as usize),
            ) || any_fork_fails(
                junction,
                zero,
                one,
                spine.outputs(entered(start.emitted()[i], (old(flags)@.len() + i) as usize)),
            )) && entered(start.emitted()[i], (old(flags)@.len() + i) as usize).failed == Some(
                (old(flags)@.len() + i) as usize,
            )),
{
    let ghost all = start.emitted();
    let ghost first = flags@.len();
    let ghost count = stats.count();
    let mut units = start.start();
    assert(units@.len() == records(units@).len());
    assert(all.len() == units.len());
    let mut out: Vec<UnitReport> = Vec::new();
    let mut done: usize = 0;
    assert(all.take(0) =~= Seq::empty());
    while units.len() > 0
        invariant
            done + units@.len() == all.len(),
            all.len() <= usize::MAX,
            records(units@) == all.skip(done as int),
            out@.len() == done,
            flags@.len() == first + done,
            stats.count() == counted(
                count,
                branching_count(spine, junction, zero, one, all.take(done as int), first),
            ),
            stats.started() == old(stats).started(),
            forall|i: int|
                0 <= i < done ==> (#[trigger] out@[i]).routed == all_routed(
                    junction,
                    spine.outputs(entered(all[i], (first + i) as usize)),
                ) && (out@[i].completion == Completion::Failure <==> (spine.fails(
                    entered(all[i], (first + i) as usize),
                ) || any_fork_fails(
                    junction,
                    zero,
                    one,
                    spine.outputs(entered(all[i], (first + i) as usize)),
                )) && entered(all[i], (first + i) as usize).failed == Some((first + i) as usize)),
        decreases units.len(),
    {
        let ghost rest = records(units@);
        let unit = units.remove(0);
        proof {
            lemma_rest_of(rest, all, done as int);
            assert(records(units@) =~= rest.skip(1));
        }
        let report = run_unit_branching(
            unit,
            spine,
            junction,
            zero,
            close_zero,
            one,
            close_one,
            stats,
            flags,
        );
        out.push(report);
        done += 1;
    }
    assert(all.take(done as int) =~= all);
    out
}

} // verus!
