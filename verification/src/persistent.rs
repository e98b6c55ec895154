//! An evaluator that owns its cache: notes are registered with their
//! bytecode, marked dirty when they change, and re-evaluated in the order
//! that the caller supplies.

use crate::approx::Approx;
use crate::bytecode::Op;
use crate::bytecode::Var;
use crate::evaluator::eval_slot;
use crate::evaluator::evaluate_slot;
use crate::evaluator::expr_view;
use crate::evaluator::first_phase;
use crate::evaluator::flags_for;
use crate::evaluator::lemma_cache_view_insert;
use crate::evaluator::note_evaluated;
use crate::evaluator::second_phase;
use crate::evaluator::third_phase;
use crate::evaluator::ExpressionsView;
use crate::evaluator::NoteExpressions;
use crate::fraction::Fraction;
use crate::machine::cache_view;
use crate::machine::cached_value;
use crate::machine::default_value;
use crate::machine::default_of;
use crate::machine::known_binary;
use crate::machine::lookup;
use crate::machine::result_matches;
use crate::machine::run_program;
use crate::machine::spec_evaluate;
use crate::machine::CacheView;
use crate::machine::EvalError;
use crate::machine::STACK_LIMIT;
use crate::note::known_agrees;
use crate::note::slot_view;
use crate::note::EvaluatedNote;
use crate::note::FractionData;
use crate::note::Known;
use crate::note::NoteView;
use crate::rational::Rat;
use crate::text::copy_bytes;
use crate::value::Value;
use crate::value::ValueView;
use std::collections::HashMap;
use std::collections::HashSet;
use vstd::prelude::*;
use vstd::std_specs::hash::group_hash_axioms;

verus! {

broadcast use group_hash_axioms;

/// The bytecode of the expressions of one note, by variable index.
pub struct NoteBytecode {
    pub expressions: [Option<(Vec<u8>, usize)>; 6],
}

impl View for NoteBytecode {
    type V = ExpressionsView;

    open spec fn view(&self) -> ExpressionsView {
        ExpressionsView {
            start_time: expr_view(self.expressions[0]),
            duration: expr_view(self.expressions[1]),
            frequency: expr_view(self.expressions[2]),
            tempo: expr_view(self.expressions[3]),
            beats_per_measure: expr_view(self.expressions[4]),
            measure_length: expr_view(self.expressions[5]),
        }
    }
}

impl ExpressionsView {
    /// No expression at all.
    pub open spec fn empty() -> ExpressionsView {
        ExpressionsView {
            start_time: None,
            duration: None,
            frequency: None,
            tempo: None,
            beats_per_measure: None,
            measure_length: None,
        }
    }

    /// The expression of a variable, if there is one.
    pub open spec fn get(self, var: Var) -> Option<(Seq<u8>, int)> {
        match var {
            Var::StartTime => self.start_time,
            Var::Duration => self.duration,
            Var::Frequency => self.frequency,
            Var::Tempo => self.tempo,
            Var::BeatsPerMeasure => self.beats_per_measure,
            Var::MeasureLength => self.measure_length,
        }
    }

    /// The expressions with that of one variable set or cleared.
    pub open spec fn with(self, var: Var, e: Option<(Seq<u8>, int)>) -> ExpressionsView {
        match var {
            Var::StartTime => ExpressionsView { start_time: e, ..self },
            Var::Duration => ExpressionsView { duration: e, ..self },
            Var::Frequency => ExpressionsView { frequency: e, ..self },
            Var::Tempo => ExpressionsView { tempo: e, ..self },
            Var::BeatsPerMeasure => ExpressionsView { beats_per_measure: e, ..self },
            Var::MeasureLength => ExpressionsView { measure_length: e, ..self },
        }
    }

    /// The expressions with those of `newer` put over them.
    pub open spec fn overlaid(self, newer: ExpressionsView) -> ExpressionsView {
        ExpressionsView {
            start_time: if newer.start_time is Some {
                newer.start_time
            } else {
                self.start_time
            },
            duration: if newer.duration is Some {
                newer.duration
            } else {
                self.duration
            },
            frequency: if newer.frequency is Some {
                newer.frequency
            } else {
                self.frequency
            },
            tempo: if newer.tempo is Some {
                newer.tempo
            } else {
                self.tempo
            },
            beats_per_measure: if newer.beats_per_measure is Some {
                newer.beats_per_measure
            } else {
                self.beats_per_measure
            },
            measure_length: if newer.measure_length is Some {
                newer.measure_length
            } else {
                self.measure_length
            },
        }
    }
}

impl Default for NoteBytecode {
    fn default() -> (r: NoteBytecode)
        ensures
            r@ == ExpressionsView::empty(),
    {
        NoteBytecode { expressions: [None, None, None, None, None, None] }
    }
}

impl NoteBytecode {
    /// The expression of a variable, if there is one.
    pub fn get_expr(&self, var: Var) -> (r: Option<(&[u8], usize)>)
        ensures
            match r {
                Some((bytes, length)) => self@.get(var) == Some((bytes@, length as int)),
                None => self@.get(var) is None,
            },
    {
        let idx = var.index() as usize;
        match &self.expressions[idx] {
            Some((bytes, length)) => Some((bytes.as_slice(), *length)),
            None => None,
        }
    }

    /// Sets the expression of a variable. The others stay.
    pub fn set_expr(&mut self, var: Var, bytecode: Vec<u8>, length: usize)
        ensures
            final(self)@ == old(self)@.with(var, Some((bytecode@, length as int))),
    {
        let idx = var.index() as usize;
        self.expressions[idx] = Some((bytecode, length));
    }

    /// Removes the expression of a variable. The others stay.
    pub fn clear_expr(&mut self, var: Var)
        ensures
            final(self)@ == old(self)@.with(var, None),
    {
        let idx = var.index() as usize;
        self.expressions[idx] = None;
    }
}

/// Whether a note stands for a measure: it has a start time and neither
/// duration nor frequency.
pub open spec fn is_measure_note(r: NoteView) -> bool {
    r.start_time is Some && r.duration is None && r.frequency is None
}

/// A variable of a note as the measure-length rule takes it: the note's
/// own value, else the cached one of the base note, else the default.
pub open spec fn own_or_base(own: Option<Known>, cache: CacheView, var: Var) -> Known {
    match own {
        Some(k) => k,
        None => match lookup(cache, 0, var) {
            Some(k) => k,
            None => Some(default_value(var)),
        },
    }
}

/// The measure length that a note gets where its expression gives none:
/// its beats per measure times sixty, divided by its tempo.
pub open spec fn derived_measure(r: NoteView, cache: CacheView) -> Known {
    known_binary(
        Op::Div,
        known_binary(
            Op::Mul,
            own_or_base(r.beats_per_measure, cache, Var::BeatsPerMeasure),
            Some(ValueView::Rational(Rat::from_int(60))),
        ),
        own_or_base(r.tempo, cache, Var::Tempo),
    )
}

/// What the measure-length expression of a note gave, read off the
/// evaluated note `r`: nothing where the expression is missing or fails,
/// the measure length of `r` otherwise.
pub open spec fn explicit_measure(
    exprs: ExpressionsView,
    cache: CacheView,
    id: u32,
    limit: int,
    r: NoteView,
) -> Option<Known> {
    match eval_slot(exprs.measure_length, cache.insert(id, first_phase(r)), limit) {
        Some(_) => r.measure_length,
        None => None,
    }
}

/// Whether `r` is what evaluating the note `id` gives. The six expressions
/// are evaluated in three phases, each seeing the results of the phases
/// before it under the note's own id. Where the measure-length expression
/// gives nothing and the note is the base note or stands for a measure, the
/// measure length is derived from beats per measure and tempo; otherwise it
/// stays without a value.
pub open spec fn persist_evaluated(
    exprs: ExpressionsView,
    cache: CacheView,
    id: u32,
    limit: int,
    r: NoteView,
) -> bool {
    let measure = explicit_measure(exprs, cache, id, limit, r);
    let c3 = cache.insert(id, third_phase(r, measure));
    &&& note_evaluated(exprs, cache, id, limit, true, measure, r)
    &&& measure is None ==> if is_measure_note(r) || id == 0 {
        known_agrees(Some(derived_measure(r, c3)), r.measure_length)
    } else {
        r.measure_length is None
    }
}

/// A note that stands for a measure and has no measure-length expression
/// gets as its measure length its beats per measure times sixty, divided by
/// its tempo, each taken from the note itself, else from the base note, else
/// from the defaults.
pub proof fn lemma_measure_length_default(
    exprs: ExpressionsView,
    cache: CacheView,
    id: u32,
    limit: int,
    r: NoteView,
    beats: Rat,
    tempo: Rat,
)
    requires
        persist_evaluated(exprs, cache, id, limit, r),
        exprs.measure_length is None,
        is_measure_note(r),
        id != 0,
        own_or_base(r.beats_per_measure, cache, Var::BeatsPerMeasure) == Some(
            ValueView::Rational(beats),
        ),
        own_or_base(r.tempo, cache, Var::Tempo) == Some(ValueView::Rational(tempo)),
    ensures
        r.measure_length == Some(
            Some(ValueView::Rational(beats.times(Rat::from_int(60)).over(tempo))),
        ),
{
    let measure = explicit_measure(exprs, cache, id, limit, r);
    assert(measure is None);
    let c3 = cache.insert(id, third_phase(r, measure));
    assert(lookup(c3, 0, Var::BeatsPerMeasure) == lookup(cache, 0, Var::BeatsPerMeasure));
    assert(lookup(c3, 0, Var::Tempo) == lookup(cache, 0, Var::Tempo));
}

/// Whether `after` is the cache `before` with the note `id` evaluated
/// afresh, where the note is registered, and `before` itself where it is
/// not.
pub open spec fn note_refreshed<A: Approx>(
    store: Map<u32, NoteBytecode>,
    limit: int,
    id: u32,
    before: Map<u32, EvaluatedNote<A>>,
    after: Map<u32, EvaluatedNote<A>>,
) -> bool {
    if store.contains_key(id) {
        &&& after.contains_key(id)
        &&& after == before.insert(id, after[id])
        &&& persist_evaluated(store[id]@, cache_view(before), id, limit, after[id]@)
        &&& after[id].corruption_flags == after[id].flags_of_values()
    } else {
        after == before
    }
}

/// Whether `after` is the cache `before` with the notes `ids` evaluated one
/// after the other, each seeing the results of those before it.
pub open spec fn notes_refreshed<A: Approx>(
    store: Map<u32, NoteBytecode>,
    limit: int,
    ids: Seq<u32>,
    before: Map<u32, EvaluatedNote<A>>,
    after: Map<u32, EvaluatedNote<A>>,
) -> bool
    decreases ids.len(),
{
    if ids.len() == 0 {
        after == before
    } else {
        exists|mid: Map<u32, EvaluatedNote<A>>|
            notes_refreshed(store, limit, ids.drop_last(), before, mid) && #[trigger] note_refreshed(
                store,
                limit,
                ids.last(),
                mid,
                after,
            )
    }
}

/// The number of ids, repetitions counted, that are registered.
pub open spec fn count_registered(store: Map<u32, NoteBytecode>, ids: Seq<u32>) -> nat
    decreases ids.len(),
{
    if ids.len() == 0 {
        0
    } else {
        count_registered(store, ids.drop_last()) + if store.contains_key(ids.last()) {
            1nat
        } else {
            0nat
        }
    }
}

/// An evaluator with a cache of its own.
pub struct PersistentEvaluator<A> {
    stack: Vec<Value<A>>,
    cache: HashMap<u32, EvaluatedNote<A>>,
    bytecode_store: HashMap<u32, NoteBytecode>,
    dirty: HashSet<u32>,
    generation: u64,
}

impl<A: Approx> Default for PersistentEvaluator<A> {
    fn default() -> (r: PersistentEvaluator<A>)
        ensures
            r.spec_cache() == Map::<u32, EvaluatedNote<A>>::empty(),
            r.spec_store() == Map::<u32, NoteBytecode>::empty(),
            r.spec_dirty() == Set::<u32>::empty(),
            r.spec_generation() == 0,
            r.limit() == 1024,
    {
        PersistentEvaluator::new()
    }
}

impl<A: Approx> PersistentEvaluator<A> {
    /// The cached notes, by note id.
    pub closed spec fn spec_cache(&self) -> Map<u32, EvaluatedNote<A>> {
        self.cache@
    }

    /// The registered bytecode, by note id.
    pub closed spec fn spec_store(&self) -> Map<u32, NoteBytecode> {
        self.bytecode_store@
    }

    /// The ids of the notes marked dirty.
    pub closed spec fn spec_dirty(&self) -> Set<u32> {
        self.dirty@
    }

    /// The generation counter.
    pub closed spec fn spec_generation(&self) -> u64 {
        self.generation
    }

    /// The largest number of values that the stack may hold.
    pub open spec fn limit(&self) -> int {
        STACK_LIMIT as int
    }

    /// An evaluator without notes, at generation zero, with a stack limit
    /// of 1024.
    pub fn new() -> (r: PersistentEvaluator<A>)
        ensures
            r.spec_cache() == Map::<u32, EvaluatedNote<A>>::empty(),
            r.spec_store() == Map::<u32, NoteBytecode>::empty(),
            r.spec_dirty() == Set::<u32>::empty(),
            r.spec_generation() == 0,
            r.limit() == 1024,
    {
        PersistentEvaluator {
            stack: Vec::new(),
            cache: HashMap::new(),
            bytecode_store: HashMap::new(),
            dirty: HashSet::new(),
            generation: 0,
        }
    }

    /// The number of cached notes.
    pub fn cache_size(&self) -> (r: usize)
        ensures
            r == self.spec_cache().len(),
    {
        self.cache.len()
    }

    /// The generation counter.
    pub fn generation(&self) -> (r: u64)
        ensures
            r == self.spec_generation(),
    {
        self.generation
    }

    /// Whether a note is cached.
    pub fn has_cached_note(&self, note_id: u32) -> (r: bool)
        ensures
            r == self.spec_cache().contains_key(note_id),
    {
        self.cache.contains_key(&note_id)
    }

    /// Whether a note is marked dirty.
    pub fn is_dirty(&self, note_id: u32) -> (r: bool)
        ensures
            r == self.spec_dirty().contains(note_id),
    {
        self.dirty.contains(&note_id)
    }

    /// Whether bytecode is registered for a note.
    pub fn has_bytecode(&self, note_id: u32) -> (r: bool)
        ensures
            r == self.spec_store().contains_key(note_id),
    {
        self.bytecode_store.contains_key(&note_id)
    }

    /// Marks a note dirty. Nothing else changes.
    pub fn mark_dirty(&mut self, note_id: u32)
        ensures
            final(self).spec_dirty() == old(self).spec_dirty().insert(note_id),
            final(self).spec_cache() == old(self).spec_cache(),
            final(self).spec_store() == old(self).spec_store(),
            final(self).spec_generation() == old(self).spec_generation(),
            final(self).limit() == old(self).limit(),
    {
        self.dirty.insert(note_id);
    }

    /// Marks several notes dirty. Nothing else changes.
    pub fn mark_dirty_batch(&mut self, note_ids: &[u32])
        ensures
            final(self).spec_dirty() == old(self).spec_dirty().union(note_ids@.to_set()),
            final(self).spec_cache() == old(self).spec_cache(),
            final(self).spec_store() == old(self).spec_store(),
            final(self).spec_generation() == old(self).spec_generation(),
            final(self).limit() == old(self).limit(),
    {
        let mut i: usize = 0;
        assert(note_ids@.take(0).to_set() =~= Set::<u32>::empty());
        assert(self.dirty@ =~= old(self).dirty@.union(note_ids@.take(0).to_set()));
        while i < note_ids.len()
            invariant
                i <= note_ids.len(),
                self.dirty@ == old(self).dirty@.union(note_ids@.take(i as int).to_set()),
                self.cache == old(self).cache,
                self.bytecode_store == old(self).bytecode_store,
                self.generation == old(self).generation,
            decreases note_ids.len() - i,
        {
            let id = note_ids[i];
            self.dirty.insert(id);
            proof {
                let prev = note_ids@.take(i as int);
                let next = note_ids@.take(i as int + 1);
                assert(next =~= prev.push(id));
                assert(next.to_set() =~= prev.to_set().insert(id)) by {
                    assert forall|x: u32| next.to_set().contains(x) <==> prev.to_set().insert(
                        id,
                    ).contains(x) by {
                        if prev.contains(x) {
                            let k = choose|k: int| 0 <= k < prev.len() && prev[k] == x;
                            assert(next[k] == x);
                        }
                        if next.contains(x) {
                            let k = choose|k: int| 0 <= k < next.len() && next[k] == x;
                            if k < prev.len() {
                                assert(prev[k] == x);
                            }
                        }
                        assert(next[i as int] == id);
                    }
                }
                assert(self.dirty@ =~= old(self).dirty@.union(next.to_set()));
            }
            i = i + 1;
        }
        assert(note_ids@.take(note_ids@.len() as int) =~= note_ids@);
    }

    /// Unmarks every note. Nothing else changes.
    pub fn clear_dirty(&mut self)
        ensures
            final(self).spec_dirty() == Set::<u32>::empty(),
            final(self).spec_cache() == old(self).spec_cache(),
            final(self).spec_store() == old(self).spec_store(),
            final(self).spec_generation() == old(self).spec_generation(),
            final(self).limit() == old(self).limit(),
    {
        self.dirty.clear();
    }

    /// Drops the cached values of a note and marks it dirty.
    pub fn invalidate_note(&mut self, note_id: u32)
        requires
            old(self).spec_generation() < u64::MAX,
        ensures
            final(self).spec_cache() == old(self).spec_cache().remove(note_id),
            final(self).spec_dirty() == old(self).spec_dirty().insert(note_id),
            final(self).spec_store() == old(self).spec_store(),
            final(self).spec_generation() == old(self).spec_generation() + 1,
            final(self).limit() == old(self).limit(),
    {
        self.cache.remove(&note_id);
        self.dirty.insert(note_id);
        self.generation = self.generation + 1;
    }

    /// Empties cache, dirty set and bytecode store.
    pub fn invalidate_all(&mut self)
        requires
            old(self).spec_generation() < u64::MAX,
        ensures
            final(self).spec_cache() == Map::<u32, EvaluatedNote<A>>::empty(),
            final(self).spec_dirty() == Set::<u32>::empty(),
            final(self).spec_store() == Map::<u32, NoteBytecode>::empty(),
            final(self).spec_generation() == old(self).spec_generation() + 1,
            final(self).limit() == old(self).limit(),
    {
        self.cache.clear();
        self.dirty.clear();
        self.bytecode_store.clear();
        self.generation = self.generation + 1;
    }

    /// Removes everything held for a note: cached values, bytecode and
    /// dirty mark.
    pub fn remove_note(&mut self, note_id: u32)
        requires
            old(self).spec_generation() < u64::MAX,
        ensures
            final(self).spec_cache() == old(self).spec_cache().remove(note_id),
            final(self).spec_store() == old(self).spec_store().remove(note_id),
            final(self).spec_dirty() == old(self).spec_dirty().remove(note_id),
            final(self).spec_generation() == old(self).spec_generation() + 1,
            final(self).limit() == old(self).limit(),
    {
        self.cache.remove(&note_id);
        self.bytecode_store.remove(&note_id);
        self.dirty.remove(&note_id);
        self.generation = self.generation + 1;
    }

    /// The expressions registered for a note; none where the note is not
    /// registered.
    pub open spec fn registered(&self, note_id: u32) -> ExpressionsView {
        if self.spec_store().contains_key(note_id) {
            self.spec_store()[note_id]@
        } else {
            ExpressionsView::empty()
        }
    }

    /// Registers the bytecode of one expression of a note. The note is
    /// registered where it was not; a variable index above 5 registers no
    /// expression.
    pub fn register_expression(
        &mut self,
        note_id: u32,
        var_index: u8,
        bytecode: &[u8],
        length: usize,
    )
        requires
            old(self).spec_generation() < u64::MAX,
        ensures
            final(self).spec_store().dom() == old(self).spec_store().dom().insert(note_id),
            forall|id: u32|
                id != note_id && old(self).spec_store().contains_key(id)
                    ==> final(self).spec_store()[id] == old(self).spec_store()[id],
            final(self).registered(note_id) == (match Var::spec_from_byte(var_index) {
                Some(var) => old(self).registered(note_id).with(
                    var,
                    Some((bytecode@, length as int)),
                ),
                None => old(self).registered(note_id),
            }),
            final(self).spec_cache() == old(self).spec_cache(),
            final(self).spec_dirty() == old(self).spec_dirty(),
            final(self).spec_generation() == old(self).spec_generation() + 1,
            final(self).limit() == old(self).limit(),
    {
        let mut entry = match self.bytecode_store.remove(&note_id) {
            Some(e) => e,
            None => NoteBytecode::default(),
        };
        match Var::from_byte(var_index) {
            Some(var) => {
                entry.set_expr(var, copy_bytes(bytecode), length);
            },
            None => {},
        }
        self.bytecode_store.insert(note_id, entry);
        self.generation = self.generation + 1;
        assert(self.bytecode_store@.dom() =~= old(self).bytecode_store@.dom().insert(note_id));
    }

    /// Registers the expressions of a note, each over the one registered
    /// before for its variable, and marks the note dirty.
    pub fn register_note(&mut self, note_id: u32, expressions: NoteExpressions)
        requires
            old(self).spec_generation() < u64::MAX,
        ensures
            final(self).spec_store().dom() == old(self).spec_store().dom().insert(note_id),
            forall|id: u32|
                id != note_id && old(self).spec_store().contains_key(id)
                    ==> final(self).spec_store()[id] == old(self).spec_store()[id],
            final(self).registered(note_id) == old(self).registered(note_id).overlaid(
                expressions@,
            ),
            final(self).spec_dirty() == old(self).spec_dirty().insert(note_id),
            final(self).spec_cache() == old(self).spec_cache(),
            final(self).spec_generation() == old(self).spec_generation() + 1,
            final(self).limit() == old(self).limit(),
    {
        let mut entry = match self.bytecode_store.remove(&note_id) {
            Some(e) => e,
            None => NoteBytecode::default(),
        };
        match expressions.start_time {
            Some((bytes, length)) => entry.set_expr(Var::StartTime, bytes, length),
            None => {},
        }
        match expressions.duration {
            Some((bytes, length)) => entry.set_expr(Var::Duration, bytes, length),
            None => {},
        }
        match expressions.frequency {
            Some((bytes, length)) => entry.set_expr(Var::Frequency, bytes, length),
            None => {},
        }
        match expressions.tempo {
            Some((bytes, length)) => entry.set_expr(Var::Tempo, bytes, length),
            None => {},
        }
        match expressions.beats_per_measure {
            Some((bytes, length)) => entry.set_expr(Var::BeatsPerMeasure, bytes, length),
            None => {},
        }
        match expressions.measure_length {
            Some((bytes, length)) => entry.set_expr(Var::MeasureLength, bytes, length),
            None => {},
        }
        self.bytecode_store.insert(note_id, entry);
        self.dirty.insert(note_id);
        self.generation = self.generation + 1;
        assert(self.bytecode_store@.dom() =~= old(self).bytecode_store@.dom().insert(note_id));
    }

    /// Evaluates one expression of a note against a cache. A failure leaves
    /// the variable without a value.
    fn evaluate_registered(
        stack: &mut Vec<Value<A>>,
        limit: usize,
        entry: &NoteBytecode,
        var: Var,
        cache: &HashMap<u32, EvaluatedNote<A>>,
    ) -> (r: Option<Value<A>>)
        ensures
            known_agrees(eval_slot(entry@.get(var), cache_view(cache@), limit as int), slot_view(r)),
    {
        match entry.get_expr(var) {
            Some((bytes, length)) => evaluate_slot(stack, limit, bytes, length, cache),
            None => None,
        }
    }

    /// A variable of a note as the measure-length rule takes it.
    fn own_or_base_value(
        own: &Option<Value<A>>,
        cache: &HashMap<u32, EvaluatedNote<A>>,
        var: Var,
    ) -> (r: Value<A>)
        ensures
            own_or_base(slot_view(*own), cache_view(cache@), var) == Some(r@),
    {
        match own {
            Some(v) => v.clone(),
            None => match cached_value(cache, 0, var) {
                Some(v) => v,
                None => default_of(var),
            },
        }
    }

    /// Evaluates a note and puts the result into the cache.
    fn evaluate_one(
        stack: &mut Vec<Value<A>>,
        limit: usize,
        cache: &mut HashMap<u32, EvaluatedNote<A>>,
        entry: &NoteBytecode,
        note_id: u32,
    )
        ensures
            final(cache)@.contains_key(note_id),
            final(cache)@ == old(cache)@.insert(note_id, final(cache)@[note_id]),
            persist_evaluated(
                entry@,
                cache_view(old(cache)@),
                note_id,
                limit as int,
                final(cache)@[note_id]@,
            ),
            final(cache)@[note_id].corruption_flags == final(cache)@[note_id].flags_of_values(),
    {
        let ghost base = cache_view(cache@);
        let ghost before = cache@;
        let mut result: EvaluatedNote<A> = EvaluatedNote::default();
        result.tempo = Self::evaluate_registered(stack, limit, entry, Var::Tempo, cache);
        result.beats_per_measure = Self::evaluate_registered(
            stack,
            limit,
            entry,
            Var::BeatsPerMeasure,
            cache,
        );
        result.frequency = Self::evaluate_registered(stack, limit, entry, Var::Frequency, cache);
        result.corruption_flags = flags_for(&result);
        let published = result.clone();
        proof {
            lemma_cache_view_insert(cache@, note_id, published);
        }
        cache.insert(note_id, published);
        assert(cache_view(cache@) == base.insert(note_id, first_phase(result@)));
        assert(cache@ =~= before.insert(note_id, cache@[note_id]));

        result.measure_length = Self::evaluate_registered(
            stack,
            limit,
            entry,
            Var::MeasureLength,
            cache,
        );
        let ghost measure = result@.measure_length;
        result.corruption_flags = flags_for(&result);
        let published = result.clone();
        proof {
            lemma_cache_view_insert(cache@, note_id, published);
        }
        cache.insert(note_id, published);
        assert(cache_view(cache@) =~= base.insert(note_id, second_phase(result@, measure)));
        assert(cache@ =~= before.insert(note_id, cache@[note_id]));

        result.start_time = Self::evaluate_registered(stack, limit, entry, Var::StartTime, cache);
        result.corruption_flags = flags_for(&result);
        let published = result.clone();
        proof {
            lemma_cache_view_insert(cache@, note_id, published);
        }
        cache.insert(note_id, published);
        assert(cache_view(cache@) =~= base.insert(note_id, third_phase(result@, measure)));
        assert(cache@ =~= before.insert(note_id, cache@[note_id]));

        result.duration = Self::evaluate_registered(stack, limit, entry, Var::Duration, cache);

        let is_measure = result.start_time.is_some() && result.duration.is_none()
            && result.frequency.is_none();
        if result.measure_length.is_none() && (is_measure || note_id == 0) {
            let beats = Self::own_or_base_value(
                &result.beats_per_measure,
                cache,
                Var::BeatsPerMeasure,
            );
            let tempo = Self::own_or_base_value(&result.tempo, cache, Var::Tempo);
            let sixty: Value<A> = Value::Rational(Fraction::from_int(60));
            let measure_len = beats.mul(&sixty).div(&tempo);
            result.measure_length = Some(measure_len);
        }
        result.corruption_flags = flags_for(&result);
        let ghost last = result;
        cache.insert(note_id, result);
        assert(cache@ =~= before.insert(note_id, last));
        assert(explicit_measure(entry@, base, note_id, limit as int, last@) == measure);
    }

    /// Evaluates the given notes in order, each against the cache as the
    /// notes before it left it. Notes without registered bytecode are
    /// passed over. Returns the number of notes evaluated. Afterwards no
    /// note is dirty.
    pub fn evaluate_dirty(&mut self, sorted_ids: &[u32]) -> (count: u32)
        requires
            old(self).spec_generation() < u64::MAX,
            sorted_ids@.len() <= u32::MAX,
        ensures
            notes_refreshed(
                old(self).spec_store(),
                old(self).limit(),
                sorted_ids@,
                old(self).spec_cache(),
                final(self).spec_cache(),
            ),
            count == count_registered(old(self).spec_store(), sorted_ids@),
            final(self).spec_dirty() == Set::<u32>::empty(),
            final(self).spec_store() == old(self).spec_store(),
            final(self).spec_generation() == old(self).spec_generation() + 1,
            final(self).limit() == old(self).limit(),
    {
        let mut count: u32 = 0;
        let mut i: usize = 0;
        let ghost store = self.bytecode_store@;
        let ghost limit = STACK_LIMIT as int;
        assert(sorted_ids@.take(0) =~= Seq::<u32>::empty());
        while i < sorted_ids.len()
            invariant
                i <= sorted_ids.len(),
                sorted_ids@.len() <= u32::MAX,
                count <= i,
                store == self.bytecode_store@,
                store == old(self).bytecode_store@,
                limit == STACK_LIMIT,
                self.generation == old(self).generation,
                notes_refreshed(
                    store,
                    limit,
                    sorted_ids@.take(i as int),
                    old(self).cache@,
                    self.cache@,
                ),
                count == count_registered(store, sorted_ids@.take(i as int)),
            decreases sorted_ids.len() - i,
        {
            let ghost mid = self.cache@;
            let note_id = sorted_ids[i];
            proof {
                let next = sorted_ids@.take(i as int + 1);
                assert(next.drop_last() =~= sorted_ids@.take(i as int));
                assert(next.last() == note_id);
            }
            let evaluated = match self.bytecode_store.get(&note_id) {
                Some(entry) => {
                    Self::evaluate_one(
                        &mut self.stack,
                        STACK_LIMIT,
                        &mut self.cache,
                        entry,
                        note_id,
                    );
                    true
                },
                None => false,
            };
            assert(note_refreshed(store, limit, note_id, mid, self.cache@));
            if evaluated {
                count = count + 1;
            }
            i = i + 1;
        }
        assert(sorted_ids@.take(sorted_ids@.len() as int) =~= sorted_ids@);
        self.dirty.clear();
        self.generation = self.generation + 1;
        count
    }

    /// Evaluates one note against the cache and caches the result. Returns
    /// `false`, changing nothing, where no bytecode is registered for the
    /// note.
    pub fn evaluate_note_internal(&mut self, note_id: u32) -> (r: bool)
        requires
            old(self).spec_generation() < u64::MAX,
        ensures
            r == old(self).spec_store().contains_key(note_id),
            note_refreshed(
                old(self).spec_store(),
                old(self).limit(),
                note_id,
                old(self).spec_cache(),
                final(self).spec_cache(),
            ),
            final(self).spec_store() == old(self).spec_store(),
            final(self).spec_dirty() == old(self).spec_dirty(),
            final(self).spec_generation() == old(self).spec_generation() + if r {
                1int
            } else {
                0int
            },
            final(self).limit() == old(self).limit(),
    {
        match self.bytecode_store.get(&note_id) {
            Some(entry) => {
                Self::evaluate_one(
                    &mut self.stack,
                    STACK_LIMIT,
                    &mut self.cache,
                    entry,
                    note_id,
                );
                self.generation = self.generation + 1;
                true
            },
            None => false,
        }
    }

    /// The record of a cached value; none where the variable index is above
    /// 5, the note is not cached, or the note has no value for the
    /// variable.
    pub fn get_cached_value(&self, note_id: u32, var_index: u8) -> (r: Option<FractionData<A>>)
        ensures
            match r {
                Some(data) => Var::spec_from_byte(var_index) matches Some(var) && lookup(
                    cache_view(self.spec_cache()),
                    note_id,
                    var,
                ) matches Some(Some(v)) && data.records(v),
                None => Var::spec_from_byte(var_index) matches Some(var) ==> lookup(
                    cache_view(self.spec_cache()),
                    note_id,
                    var,
                ) is None,
            },
    {
        let var = match Var::from_byte(var_index) {
            Some(v) => v,
            None => {
                return None;
            },
        };
        match self.cache.get(&note_id) {
            Some(note) => match note.get_var(var) {
                Some(v) => Some(FractionData::from_value(v)),
                None => None,
            },
            None => None,
        }
    }

    /// A copy of a cached note; none where the note is not cached.
    pub fn get_cached_note(&self, note_id: u32) -> (r: Option<EvaluatedNote<A>>)
        ensures
            match r {
                Some(note) => self.spec_cache().contains_key(note_id) && note@
                    == self.spec_cache()[note_id]@ && note.corruption_flags
                    == self.spec_cache()[note_id].corruption_flags,
                None => !self.spec_cache().contains_key(note_id),
            },
    {
        match self.cache.get(&note_id) {
            Some(note) => Some(note.clone()),
            None => None,
        }
    }

    /// A copy of the whole cache.
    pub fn export_cache(&self) -> (r: HashMap<u32, EvaluatedNote<A>>)
        ensures
            r@ == self.spec_cache(),
    {
        self.cache.clone()
    }

    /// Replaces the whole cache.
    pub fn import_cache(&mut self, cache: HashMap<u32, EvaluatedNote<A>>)
        requires
            old(self).spec_generation() < u64::MAX,
        ensures
            final(self).spec_cache() == cache@,
            final(self).spec_store() == old(self).spec_store(),
            final(self).spec_dirty() == old(self).spec_dirty(),
            final(self).spec_generation() == old(self).spec_generation() + 1,
            final(self).limit() == old(self).limit(),
    {
        self.cache = cache;
        self.generation = self.generation + 1;
    }

    /// Runs the first `length` bytes of `bytecode` against the cache.
    pub fn evaluate_with_cache(&mut self, bytecode: &[u8], length: usize) -> (r: Result<
        Value<A>,
        EvalError,
    >)
        ensures
            result_matches(
                r,
                spec_evaluate(
                    bytecode@,
                    length as int,
                    cache_view(old(self).spec_cache()),
                    old(self).limit(),
                ),
            ),
            final(self).spec_cache() == old(self).spec_cache(),
            final(self).spec_store() == old(self).spec_store(),
            final(self).spec_dirty() == old(self).spec_dirty(),
            final(self).spec_generation() == old(self).spec_generation(),
            final(self).limit() == old(self).limit(),
    {
        run_program(&mut self.stack, STACK_LIMIT, bytecode, length, &self.cache)
    }
}

} // verus!
