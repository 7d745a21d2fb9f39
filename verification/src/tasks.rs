//! The task graph: registration of deferred calls, content-hashed argument
//! de-duplication, and the planner that prepares parallel replay.
//!
//! Function pointers from the C side (wrapper callbacks, splitter
//! initializers, mergers) are carried as plain integer tokens; the caller
//! that owns the C ABI performs the actual indirect calls and hands the
//! results back, so every decision here is verified while the calls stay
//! outside.

use vstd::prelude::*;

use crate::annotation::{Annotation, AnnotationView, SplitTypeParameter, SplitTypeParameterView};

verus! {

/// Whether a splitter has more values to produce.
#[derive(Debug, Clone, Copy, PartialEq, Eq, Structural)]
pub enum SplitterStatus {
    SplitterContinue,
    SplitterFinished,
}

/// A future representing a delayed computation: a pointer-sized token handed
/// to the wrapper in place of the deferred call's result.
#[derive(Debug, Clone, Copy, PartialEq, Eq, Structural)]
pub struct Future(pub i64);

/// The base value from which future tokens are numbered.
pub const FUTURE_BASE_PTR: i64 = 0xdead_beef;

/// The item count reported for values that are not split: a splitter that
/// returns this count will emit items indefinitely.
pub const COMPOSER_INFINITE_ITEMS: i64 = -1;

impl Future {
    /// Wraps a raw token value.
    pub fn new(x: i64) -> (r: Future)
        ensures
            r.0 == x,
    {
        Future(x)
    }

    /// The null future, returned for calls that produce no value.
    pub fn null() -> (r: Future)
        ensures
            r.0 == 0,
    {
        Future(0)
    }
}

/// An identifier for an argument buffer.
#[derive(Debug, Clone, Copy, PartialEq, Eq, Structural)]
pub struct ArgumentId(pub u64);

/// A simple generator that produces `ArgumentId`s in sequence.
#[derive(Debug, Clone, Copy, PartialEq, Eq, Structural)]
pub struct IdGenerator(pub u64);

impl IdGenerator {
    /// A generator whose first id will be `x`.
    pub fn new_with_start(x: u64) -> (r: IdGenerator)
        ensures
            r.0 == x,
    {
        IdGenerator(x)
    }

    /// Hands out the next id.
    pub fn next(&mut self) -> (r: ArgumentId)
        requires
            old(self).0 < u64::MAX,
        ensures
            r.0 == old(self).0,
            final(self).0 == old(self).0 + 1,
    {
        let value = ArgumentId(self.0);
        self.0 = self.0 + 1;
        value
    }
}

/// The 8-byte little-endian representation of `x`, as futures are stored in
/// the argument table.
pub open spec fn le_bytes_spec(x: u64) -> Seq<u8> {
    seq![
        (x & 0xff) as u8,
        ((x >> 8) & 0xff) as u8,
        ((x >> 16) & 0xff) as u8,
        ((x >> 24) & 0xff) as u8,
        ((x >> 32) & 0xff) as u8,
        ((x >> 40) & 0xff) as u8,
        ((x >> 48) & 0xff) as u8,
        ((x >> 56) & 0xff) as u8,
    ]
}

/// Writes `x` in little-endian order into a fresh 8-byte buffer.
pub fn le_bytes(x: u64) -> (r: Vec<u8>)
    ensures
        r@ == le_bytes_spec(x),
{
    let mut r: Vec<u8> = Vec::new();
    r.push((x & 0xff) as u8);
    r.push(((x >> 8) & 0xff) as u8);
    r.push(((x >> 16) & 0xff) as u8);
    r.push(((x >> 24) & 0xff) as u8);
    r.push(((x >> 32) & 0xff) as u8);
    r.push(((x >> 40) & 0xff) as u8);
    r.push(((x >> 48) & 0xff) as u8);
    r.push(((x >> 56) & 0xff) as u8);
    proof {
        assert(r@ =~= le_bytes_spec(x));
    }
    r
}

/// Mathematical content of a [`Task`].
pub ghost struct TaskView {
    pub annotation: AnnotationView,
    pub function: usize,
    pub arguments: Seq<ArgumentId>,
    pub future_id: Option<ArgumentId>,
}

/// A single deferred function call: the annotation describing the function,
/// a token for the wrapper callback, the ids of its arguments in parameter
/// order, and the id under which its future is stored, if it returns one.
#[derive(Debug)]
pub struct Task {
    pub annotation: Annotation,
    pub function: usize,
    pub arguments: Vec<ArgumentId>,
    pub future_id: Option<ArgumentId>,
}

impl View for Task {
    type V = TaskView;

    open spec fn view(&self) -> TaskView {
        TaskView {
            annotation: self.annotation@,
            function: self.function,
            arguments: self.arguments@,
            future_id: self.future_id,
        }
    }
}

impl Task {
    /// Builds a task from its parts.
    pub fn new(
        annotation: Annotation,
        function: usize,
        arguments: Vec<ArgumentId>,
        future_id: Option<ArgumentId>,
    ) -> (r: Task)
        ensures
            r@ == (TaskView {
                annotation: annotation@,
                function,
                arguments: arguments@,
                future_id,
            }),
    {
        Task { annotation, function, arguments, future_id }
    }
}

/// The id of the first table entry whose buffer equals `v` byte for byte.
pub open spec fn lookup_value(args: Seq<(ArgumentId, Seq<u8>)>, v: Seq<u8>) -> Option<ArgumentId>
    decreases args.len(),
{
    if args.len() == 0 {
        None
    } else if args[0].1 == v {
        Some(args[0].0)
    } else {
        lookup_value(args.skip(1), v)
    }
}

/// The buffer stored under `id`, if any.
pub open spec fn lookup_id(args: Seq<(ArgumentId, Seq<u8>)>, id: ArgumentId) -> Option<Seq<u8>>
    decreases args.len(),
{
    if args.len() == 0 {
        None
    } else if args[0].0 == id {
        Some(args[0].1)
    } else {
        lookup_id(args.skip(1), id)
    }
}

/// Registering one buffer: the id of a byte-equal entry if one exists, else
/// a fresh id under which the buffer is appended.
pub open spec fn register_value_spec(
    args: Seq<(ArgumentId, Seq<u8>)>,
    next_id: u64,
    v: Seq<u8>,
) -> (ArgumentId, Seq<(ArgumentId, Seq<u8>)>, u64) {
    match lookup_value(args, v) {
        Some(id) => (id, args, next_id),
        None => (
            ArgumentId(next_id),
            args.push((ArgumentId(next_id), v)),
            (next_id + 1) as u64,
        ),
    }
}

/// The outcome of registering a list of buffers in order.
pub ghost struct RegisterOutcome {
    pub ids: Seq<ArgumentId>,
    pub arguments: Seq<(ArgumentId, Seq<u8>)>,
    pub next_id: u64,
}

/// Registers each buffer of `values` in order, de-duplicating against the
/// table as it grows.
pub open spec fn register_values_spec(
    args: Seq<(ArgumentId, Seq<u8>)>,
    next_id: u64,
    values: Seq<Seq<u8>>,
) -> RegisterOutcome
    decreases values.len(),
{
    if values.len() == 0 {
        RegisterOutcome { ids: Seq::empty(), arguments: args, next_id }
    } else {
        let first = register_value_spec(args, next_id, values[0]);
        let rest = register_values_spec(first.1, first.2, values.skip(1));
        RegisterOutcome {
            ids: seq![first.0] + rest.ids,
            arguments: rest.arguments,
            next_id: rest.next_id,
        }
    }
}

/// The declared byte size of the parameter's split type.
pub open spec fn param_size(p: SplitTypeParameterView) -> usize {
    match p.ty.spec_runtime() {
        Some(rt) => rt.data_size,
        None => 0,
    }
}

/// The sum of the declared sizes of `params`: the size of a packed argument
/// struct laid out in parameter order.
pub open spec fn total_size(params: Seq<SplitTypeParameterView>) -> int
    decreases params.len(),
{
    if params.len() == 0 {
        0
    } else {
        param_size(params[0]) + total_size(params.skip(1))
    }
}

/// `bytes` cut into consecutive per-parameter buffers, each sized to its
/// parameter's declared `data_size`.
pub open spec fn slices_spec(bytes: Seq<u8>, params: Seq<SplitTypeParameterView>) -> Seq<Seq<u8>>
    decreases params.len(),
{
    if params.len() == 0 {
        Seq::empty()
    } else {
        seq![bytes.take(param_size(params[0]) as int)] + slices_spec(
            bytes.skip(param_size(params[0]) as int),
            params.skip(1),
        )
    }
}

/// Every parameter's runtime slot is filled, so its size may be read.
pub open spec fn params_have_runtime(params: Seq<SplitTypeParameterView>) -> bool {
    forall|i: int| 0 <= i < params.len() ==> (#[trigger] params[i]).ty.has_runtime()
}

/// `outs` with the entry for `id` replaced by `(id, destination, merger)`,
/// or with that entry appended if `id` has none.
pub open spec fn outputs_insert_spec(
    outs: Seq<(ArgumentId, usize, usize)>,
    id: ArgumentId,
    destination: usize,
    merger: usize,
) -> Seq<(ArgumentId, usize, usize)>
    decreases outs.len(),
{
    if outs.len() == 0 {
        seq![(id, destination, merger)]
    } else if outs[0].0 == id {
        seq![(id, destination, merger)] + outs.skip(1)
    } else {
        seq![outs[0]] + outputs_insert_spec(outs.skip(1), id, destination, merger)
    }
}

/// Mathematical content of a [`TaskManager`].
#[verifier::ext_equal]
pub ghost struct TaskManagerView {
    pub evaluate: bool,
    pub threads: i64,
    pub init_task_size: usize,
    pub tasks: Seq<TaskView>,
    pub outputs: Seq<(ArgumentId, usize, usize)>,
    pub arguments: Seq<(ArgumentId, Seq<u8>)>,
    pub futures: Seq<ArgumentId>,
    pub next_id: u64,
    pub future_offset: i64,
}

/// The argument table's own invariant: ids are unique and below the
/// generator's next id.
pub open spec fn args_inv(args: Seq<(ArgumentId, Seq<u8>)>, next_id: u64) -> bool {
    &&& forall|i: int, j: int|
        0 <= i < j < args.len() ==> (#[trigger] args[i]).0 != (#[trigger] args[j]).0
    &&& forall|i: int| 0 <= i < args.len() ==> (#[trigger] args[i]).0.0 < next_id
}

impl TaskManagerView {
    /// The manager's invariant. Every id a task, future or output refers to
    /// is a key of the argument table; future buffers are pointer-sized;
    /// tasks have one argument id per annotation parameter.
    pub open spec fn inv(self) -> bool {
        &&& args_inv(self.arguments, self.next_id)
        &&& 0 <= self.future_offset
        &&& forall|t: int|
            0 <= t < self.tasks.len() ==> (#[trigger] self.tasks[t]).arguments.len()
                == self.tasks[t].annotation.params.len()
        &&& forall|t: int, k: int|
            0 <= t < self.tasks.len() && 0 <= k < (#[trigger] self.tasks[t]).arguments.len()
                ==> lookup_id(self.arguments, #[trigger] self.tasks[t].arguments[k]) is Some
        &&& forall|i: int|
            0 <= i < self.futures.len() ==> lookup_id(
                self.arguments,
                #[trigger] self.futures[i],
            ) is Some
        &&& forall|i: int|
            0 <= i < self.futures.len() ==> lookup_id(
                self.arguments,
                #[trigger] self.futures[i],
            )->Some_0.len() == 8
        &&& forall|i: int, j: int|
            0 <= i < j < self.outputs.len() ==> (#[trigger] self.outputs[i]).0 != (
            #[trigger] self.outputs[j]).0
        &&& forall|i: int|
            0 <= i < self.outputs.len() ==> lookup_id(
                self.arguments,
                (#[trigger] self.outputs[i]).0,
            ) is Some
    }
}

/// What registering a task does: the future id is drawn first when the call
/// returns a value, the packed bytes are cut into per-parameter buffers and
/// de-duplicated in order, the future's little-endian bytes are stored under
/// the future id, and the task is appended.
pub open spec fn register_task_spec(
    m: TaskManagerView,
    ann: AnnotationView,
    function: usize,
    bytes: Seq<u8>,
    returns_value: bool,
) -> (TaskManagerView, Option<Future>) {
    let future_id = if returns_value {
        Some(ArgumentId(m.next_id))
    } else {
        None
    };
    let nid0 = if returns_value {
        (m.next_id + 1) as u64
    } else {
        m.next_id
    };
    let outcome = register_values_spec(m.arguments, nid0, slices_spec(bytes, ann.params));
    let future_value = (FUTURE_BASE_PTR + m.future_offset) as i64;
    let args2 = if returns_value {
        outcome.arguments.push((ArgumentId(m.next_id), le_bytes_spec(future_value as u64)))
    } else {
        outcome.arguments
    };
    let futures2 = if returns_value {
        m.futures.push(ArgumentId(m.next_id))
    } else {
        m.futures
    };
    let task = TaskView { annotation: ann, function, arguments: outcome.ids, future_id };
    let m2 = TaskManagerView {
        tasks: m.tasks.push(task),
        arguments: args2,
        futures: futures2,
        next_id: outcome.next_id,
        future_offset: if returns_value {
            (m.future_offset + 1) as i64
        } else {
            m.future_offset
        },
        ..m
    };
    let future = if returns_value {
        Some(Future(future_value))
    } else {
        None
    };
    (m2, future)
}

/// What registering an output does: the pointed-to bytes are de-duplicated
/// like any argument, and the output record for the resulting id is set.
pub open spec fn register_output_spec(
    m: TaskManagerView,
    value: Seq<u8>,
    destination: usize,
    merger: usize,
) -> TaskManagerView {
    let r = register_value_spec(m.arguments, m.next_id, value);
    TaskManagerView {
        arguments: r.1,
        next_id: r.2,
        outputs: outputs_insert_spec(m.outputs, r.0, destination, merger),
        ..m
    }
}

/// Compares two byte buffers.
pub fn bytes_eq(a: &Vec<u8>, b: &Vec<u8>) -> (r: bool)
    ensures
        r == (a@ == b@),
{
    if a.len() != b.len() {
        return false;
    }
    let mut i: usize = 0;
    while i < a.len()
        invariant
            i <= a@.len(),
            a@.len() == b@.len(),
            forall|j: int| 0 <= j < i ==> a@[j] == b@[j],
        decreases a@.len() - i,
    {
        if a[i] != b[i] {
            return false;
        }
        i = i + 1;
    }
    proof {
        assert(a@ =~= b@);
    }
    true
}

/// Copies `len` bytes of `src` starting at `offset` into a fresh buffer.
pub fn copy_range(src: &Vec<u8>, offset: usize, len: usize) -> (r: Vec<u8>)
    requires
        offset + len <= src@.len(),
    ensures
        r@ == src@.subrange(offset as int, offset + len),
{
    let mut r: Vec<u8> = Vec::new();
    let total = src.len();
    let mut i: usize = 0;
    while i < len
        invariant
            i <= len,
            total == src@.len(),
            offset + len <= src@.len(),
            r@.len() == i,
            forall|j: int| 0 <= j < i ==> r@[j] == src@[offset + j],
        decreases len - i,
    {
        r.push(src[offset + i]);
        i = i + 1;
    }
    proof {
        assert(r@ =~= src@.subrange(offset as int, offset + len));
    }
    r
}

/// Accumulates deferred tasks, de-duplicated argument buffers, futures and
/// registered outputs, and plans their parallel replay.
#[derive(Debug)]
pub struct TaskManager {
    /// Whether wrappers should evaluate directly instead of deferring.
    pub evaluate: bool,
    /// Number of worker threads used by the replay.
    pub threads: i64,
    /// Number of items processed per batch of the per-thread driver loop.
    pub init_task_size: usize,
    tasks: Vec<Task>,
    outputs: Vec<(ArgumentId, usize, usize)>,
    arguments: Vec<(ArgumentId, Vec<u8>)>,
    futures: Vec<ArgumentId>,
    id_gen: IdGenerator,
    future_offset: i64,
}

impl View for TaskManager {
    type V = TaskManagerView;

    closed spec fn view(&self) -> TaskManagerView {
        TaskManagerView {
            evaluate: self.evaluate,
            threads: self.threads,
            init_task_size: self.init_task_size,
            tasks: self.tasks@.map_values(|t: Task| t@),
            outputs: self.outputs@,
            arguments: self.arguments@.map_values(|p: (ArgumentId, Vec<u8>)| (p.0, p.1@)),
            futures: self.futures@,
            next_id: self.id_gen.0,
            future_offset: self.future_offset,
        }
    }
}

impl TaskManager {
    /// A fresh manager: direct evaluation, one thread, default batch size,
    /// and an empty graph. Ids start at 1.
    pub fn new() -> (r: TaskManager)
        ensures
            r@ == (TaskManagerView {
                evaluate: true,
                threads: 1,
                init_task_size: 512,
                tasks: Seq::empty(),
                outputs: Seq::empty(),
                arguments: Seq::empty(),
                futures: Seq::empty(),
                next_id: 1,
                future_offset: 0,
            }),
            r@.inv(),
    {
        let r = TaskManager {
            evaluate: true,
            threads: 1,
            init_task_size: 512,
            tasks: Vec::new(),
            outputs: Vec::new(),
            arguments: Vec::new(),
            futures: Vec::new(),
            id_gen: IdGenerator::new_with_start(1),
            future_offset: 0,
        };
        proof {
            assert(r@.tasks =~= Seq::<TaskView>::empty());
            assert(r@.arguments =~= Seq::<(ArgumentId, Seq<u8>)>::empty());
        }
        r
    }

    /// The registered tasks, for inspection.
    pub fn tasks(&self) -> (r: &Vec<Task>)
        ensures
            r@.len() == self@.tasks.len(),
            forall|i: int| 0 <= i < r@.len() ==> (#[trigger] r@[i])@ == self@.tasks[i],
    {
        &self.tasks
    }

    /// The argument table, for inspection.
    pub fn arguments(&self) -> (r: &Vec<(ArgumentId, Vec<u8>)>)
        ensures
            r@.len() == self@.arguments.len(),
            forall|i: int|
                0 <= i < r@.len() ==> ((#[trigger] r@[i]).0, r@[i].1@) == self@.arguments[i],
    {
        &self.arguments
    }

    /// The ids that stand for futures, for inspection.
    pub fn futures(&self) -> (r: &Vec<ArgumentId>)
        ensures
            r@ == self@.futures,
    {
        &self.futures
    }

    /// The registered outputs, for inspection.
    pub fn outputs(&self) -> (r: &Vec<(ArgumentId, usize, usize)>)
        ensures
            r@ == self@.outputs,
    {
        &self.outputs
    }

    /// Draws the next future token.
    fn next_future_pointer(&mut self) -> (r: Future)
        requires
            0 <= old(self).future_offset,
            FUTURE_BASE_PTR + old(self).future_offset < i64::MAX,
        ensures
            r.0 == FUTURE_BASE_PTR + old(self)@.future_offset,
            final(self)@ == (TaskManagerView {
                future_offset: (old(self)@.future_offset + 1) as i64,
                ..old(self)@
            }),
    {
        let value = self.future_offset + FUTURE_BASE_PTR;
        self.future_offset = self.future_offset + 1;
        Future::new(value)
    }

    /// Finds the id whose stored buffer is byte-equal to `value`, assigning
    /// and recording a fresh id if there is none.
    fn register_argument(&mut self, value: Vec<u8>) -> (r: ArgumentId)
        requires
            old(self)@.next_id < u64::MAX,
        ensures
            ({
                let step = register_value_spec(old(self)@.arguments, old(self)@.next_id, value@);
                &&& r == step.0
                &&& final(self)@ == (TaskManagerView {
                    arguments: step.1,
                    next_id: step.2,
                    ..old(self)@
                })
            }),
    {
        let mut i: usize = 0;
        while i < self.arguments.len()
            invariant
                i <= self@.arguments.len(),
                forall|j: int| 0 <= j < i ==> (#[trigger] self@.arguments[j]).1 != value@,
            decreases self@.arguments.len() - i,
        {
            if bytes_eq(&self.arguments[i].1, &value) {
                proof {
                    lemma_lookup_value_first(self@.arguments, value@, i as int);
                }
                return self.arguments[i].0;
            }
            i = i + 1;
        }
        proof {
            lemma_lookup_value_none(self@.arguments, value@);
        }
        let id = self.id_gen.next();
        let ghost before = self@.arguments;
        self.arguments.push((id, value));
        proof {
            assert(self@.arguments =~= before.push((id, value@)));
        }
        id
    }
}

impl TaskManager {
    /// Registers a deferred call. The packed argument bytes are cut into
    /// per-parameter buffers, de-duplicated against the argument table, and
    /// recorded as a task. When the call returns a value, a fresh future is
    /// drawn, stored in the table under its own id, and handed back for the
    /// wrapper to return in the call's place.
    pub fn register_task(
        &mut self,
        annotation: &Annotation,
        function: usize,
        arguments: &Vec<u8>,
        returns_value: bool,
    ) -> (r: Option<Future>)
        requires
            old(self)@.inv(),
            params_have_runtime(annotation@.params),
            total_size(annotation@.params) == arguments@.len(),
            old(self)@.next_id + annotation@.params.len() + 1 <= u64::MAX,
            FUTURE_BASE_PTR + old(self)@.future_offset < i64::MAX,
        ensures
            final(self)@ == register_task_spec(
                old(self)@,
                annotation@,
                function,
                arguments@,
                returns_value,
            ).0,
            r == register_task_spec(
                old(self)@,
                annotation@,
                function,
                arguments@,
                returns_value,
            ).1,
            final(self)@.inv(),
    {
        let ghost m0 = self@;
        let ghost params_views = annotation@.params;
        let ghost slices = slices_spec(arguments@, params_views);
        proof {
            lemma_slices_spec_len(arguments@, params_views);
        }

        let future_id = if returns_value {
            Some(self.id_gen.next())
        } else {
            None
        };
        let ghost mid = self@;
        let ghost nid0 = self@.next_id;

        // cut the packed bytes into per-parameter buffers
        let total_bytes = arguments.len();
        let num_params = annotation.params.len();
        let mut split_arguments: Vec<Vec<u8>> = Vec::new();
        let mut offset: usize = 0;
        let mut i: usize = 0;
        proof {
            assert(params_views.skip(0) =~= params_views);
            assert(arguments@.skip(0) =~= arguments@);
        }
        while i < annotation.params.len()
            invariant
                i <= params_views.len(),
                params_views == annotation@.params,
                params_have_runtime(params_views),
                total_bytes == arguments@.len(),
                num_params == params_views.len(),
                offset + total_size(params_views.skip(i as int)) == arguments@.len(),
                split_arguments@.len() == i,
                slices == split_arguments@.map_values(|v: Vec<u8>| v@) + slices_spec(
                    arguments@.skip(offset as int),
                    params_views.skip(i as int),
                ),
            decreases params_views.len() - i,
        {
            let ghost rest_params = params_views.skip(i as int);
            let ghost rest_bytes = arguments@.skip(offset as int);
            proof {
                assert(rest_params[0] == params_views[i as int]);
                assert(annotation.params@[i as int]@ == params_views[i as int]);
                lemma_total_size_nonneg(rest_params.skip(1));
            }
            let size = annotation.params[i].ty.runtime_info().data_size;
            let slice = copy_range(arguments, offset, size);
            proof {
                assert(rest_bytes.take(size as int) =~= arguments@.subrange(
                    offset as int,
                    offset + size,
                ));
                assert(rest_bytes.skip(size as int) =~= arguments@.skip(offset + size));
                assert(rest_params.skip(1) =~= params_views.skip(i + 1));
                assert(slices_spec(rest_bytes, rest_params) == seq![slice@] + slices_spec(
                    arguments@.skip(offset + size),
                    params_views.skip(i + 1),
                ));
            }
            split_arguments.push(slice);
            proof {
                assert(split_arguments@.map_values(|v: Vec<u8>| v@) + slices_spec(
                    arguments@.skip((offset + size) as int),
                    params_views.skip(i + 1),
                ) =~= slices);
            }
            offset = offset + size;
            i = i + 1;
        }
        proof {
            assert(slices_spec(arguments@.skip(offset as int), params_views.skip(i as int))
                =~= Seq::<Seq<u8>>::empty());
            assert(slices =~= split_arguments@.map_values(|v: Vec<u8>| v@));
        }

        // de-duplicate each buffer in order
        let ghost args0 = mid.arguments;
        let ghost total_outcome = register_values_spec(args0, nid0, slices);
        let mut ids: Vec<ArgumentId> = Vec::new();
        let mut j: usize = 0;
        proof {
            assert(slices.skip(0) =~= slices);
            assert(slices.len() == num_params);
            assert(Seq::<ArgumentId>::empty() + total_outcome.ids =~= total_outcome.ids);
        }
        while split_arguments.len() > 0
            invariant
                slices.len() == num_params,
                j + split_arguments@.len() == slices.len(),
                ids@.len() == j,
                slices.skip(j as int) == split_arguments@.map_values(|v: Vec<u8>| v@),
                self@.next_id + (slices.len() - j) <= u64::MAX,
                total_outcome.ids == ids@ + register_values_spec(
                    self@.arguments,
                    self@.next_id,
                    slices.skip(j as int),
                ).ids,
                total_outcome.arguments == register_values_spec(
                    self@.arguments,
                    self@.next_id,
                    slices.skip(j as int),
                ).arguments,
                total_outcome.next_id == register_values_spec(
                    self@.arguments,
                    self@.next_id,
                    slices.skip(j as int),
                ).next_id,
                self@ == (TaskManagerView {
                    arguments: self@.arguments,
                    next_id: self@.next_id,
                    ..mid
                }),
            decreases split_arguments@.len(),
        {
            let ghost cur_args = self@.arguments;
            let ghost cur_nid = self@.next_id;
            let ghost remaining = slices.skip(j as int);
            let value = split_arguments.remove(0);
            proof {
                assert(value@ == remaining[0]);
                assert(remaining[0] == slices[j as int]);
            }
            let id = self.register_argument(value);
            ids.push(id);
            proof {
                let first = register_value_spec(cur_args, cur_nid, slices[j as int]);
                assert(split_arguments@.map_values(|v: Vec<u8>| v@) =~= remaining.skip(1));
                assert(slices.skip(j + 1) =~= remaining.skip(1));
                assert(register_values_spec(cur_args, cur_nid, remaining).ids == seq![first.0]
                    + register_values_spec(first.1, first.2, remaining.skip(1)).ids);
                assert(ids@ =~= ids@.drop_last().push(id));
                assert(ids@.drop_last() + (seq![first.0] + register_values_spec(
                    first.1,
                    first.2,
                    slices.skip(j + 1),
                ).ids) =~= ids@ + register_values_spec(first.1, first.2, slices.skip(j + 1)).ids);
            }
            j = j + 1;
        }
        proof {
            assert(slices.skip(j as int) =~= Seq::<Seq<u8>>::empty());
            assert(total_outcome.ids == ids@ + Seq::<ArgumentId>::empty());
            assert(total_outcome.ids =~= ids@);
            assert(total_outcome.arguments == self@.arguments);
            assert(total_outcome.next_id == self@.next_id);
        }

        // store the future, if one was drawn, and append the task
        let result = if returns_value {
            let future = self.next_future_pointer();
            let storage = le_bytes(future.0 as u64);
            let fid = match future_id {
                Some(f) => f,
                None => {
                    proof {
                        assert(false);
                    }
                    unreached()
                },
            };
            let ghost before_args = self.arguments@;
            self.arguments.push((fid, storage));
            self.futures.push(fid);
            proof {
                assert(self@.arguments =~= before_args.map_values(
                    |p: (ArgumentId, Vec<u8>)| (p.0, p.1@),
                ).push((fid, storage@)));
            }
            Some(future)
        } else {
            None
        };
        let ghost before_tasks = self@.tasks;
        self.tasks.push(Task::new(annotation.clone(), function, ids, future_id));
        proof {
            assert(self@.tasks =~= before_tasks.push(
                (TaskView {
                    annotation: annotation@,
                    function,
                    arguments: total_outcome.ids,
                    future_id,
                }),
            ));
            let spec_result = register_task_spec(m0, annotation@, function, arguments@,
                returns_value);
            assert(self@ =~= spec_result.0);
            lemma_register_task_inv(m0, annotation@, function, arguments@, returns_value);
        }
        result
    }
}

/// Registering a task preserves the manager's invariant.
pub proof fn lemma_register_task_inv(
    m: TaskManagerView,
    ann: AnnotationView,
    function: usize,
    bytes: Seq<u8>,
    returns_value: bool,
)
    requires
        m.inv(),
        params_have_runtime(ann.params),
        m.next_id + ann.params.len() + 1 <= u64::MAX,
        FUTURE_BASE_PTR + m.future_offset < i64::MAX,
    ensures
        register_task_spec(m, ann, function, bytes, returns_value).0.inv(),
{
    let slices = slices_spec(bytes, ann.params);
    lemma_slices_spec_len(bytes, ann.params);
    let nid0 = if returns_value {
        (m.next_id + 1) as u64
    } else {
        m.next_id
    };
    let o = register_values_spec(m.arguments, nid0, slices);
    lemma_register_values_properties(m.arguments, nid0, slices);
    let m2 = register_task_spec(m, ann, function, bytes, returns_value).0;

    // lookups that succeeded before still succeed in the grown table
    assert forall|id: ArgumentId|
        lookup_id(m.arguments, id) is Some implies lookup_id(m2.arguments, id) == lookup_id(
        m.arguments,
        id,
    ) by {
        lemma_lookup_id_prefix_stable(m.arguments, o.arguments, id);
        if returns_value {
            assert(m2.arguments.take(o.arguments.len() as int) =~= o.arguments);
            lemma_lookup_id_prefix_stable(o.arguments, m2.arguments, id);
        }
    }
    assert forall|i: int|
        0 <= i < o.ids.len() implies lookup_id(m2.arguments, #[trigger] o.ids[i]) is Some by {
        if returns_value {
            assert(m2.arguments.take(o.arguments.len() as int) =~= o.arguments);
            lemma_lookup_id_prefix_stable(o.arguments, m2.arguments, o.ids[i]);
        }
    }
    if returns_value {
        let fid = ArgumentId(m.next_id);
        let fut_bytes = le_bytes_spec(((FUTURE_BASE_PTR + m.future_offset) as i64) as u64);
        assert(m2.arguments == o.arguments.push((fid, fut_bytes)));
        assert forall|k: int|
            0 <= k < o.arguments.len() implies (#[trigger] o.arguments[k]).0 != fid by {
            if k < m.arguments.len() {
                assert(o.arguments[k] == o.arguments.take(m.arguments.len() as int)[k]);
                assert(o.arguments[k] == m.arguments[k]);
                assert(o.arguments[k].0.0 < m.next_id);
            } else {
                assert(o.arguments[k].0.0 >= nid0);
            }
        }
        assert forall|a: int, b: int|
            0 <= a < b < m2.arguments.len() implies (#[trigger] m2.arguments[a]).0 != (
        #[trigger] m2.arguments[b]).0 by {
            if b == o.arguments.len() {
                assert(m2.arguments[a] == o.arguments[a]);
            }
        }
        lemma_lookup_id_unique_entry(m2.arguments, o.arguments.len() as int);
        assert(lookup_id(m2.arguments, fid) == Some(fut_bytes));
    }
}

impl TaskManager {
    /// Registers a caller-visible output cell. The pointed-to bytes are
    /// de-duplicated like any argument buffer, and the output record for the
    /// resulting id is set to the destination and merger tokens. The buffer
    /// must be pointer-sized: future values flow between tasks as tokens.
    pub fn register_output(&mut self, value: Vec<u8>, destination: usize, merger: usize)
        requires
            old(self)@.inv(),
            value@.len() == 8,
            old(self)@.next_id < u64::MAX,
        ensures
            final(self)@ == register_output_spec(old(self)@, value@, destination, merger),
            final(self)@.inv(),
    {
        let ghost m0 = self@;
        let ghost v = value@;
        let id = self.register_argument(value);
        let ghost step = register_value_spec(m0.arguments, m0.next_id, v);

        let mut j: usize = 0;
        let mut found = false;
        while j < self.outputs.len() && !found
            invariant
                j <= self@.outputs.len(),
                !found ==> forall|k: int| 0 <= k < j ==> (#[trigger] self@.outputs[k]).0 != id,
                found ==> j < self@.outputs.len() && self@.outputs[j as int].0 == id && (
                forall|k: int| 0 <= k < j ==> (#[trigger] self@.outputs[k]).0 != id),
                self@ == (TaskManagerView {
                    arguments: self@.arguments,
                    next_id: self@.next_id,
                    ..m0
                }),
            decreases self@.outputs.len() - j + if found {
                0int
            } else {
                1int
            },
        {
            if self.outputs[j].0 == id {
                found = true;
            } else {
                j = j + 1;
            }
        }
        let ghost outs0 = self@.outputs;
        if found {
            let slot = &mut self.outputs[j];
            *slot = (id, destination, merger);
            proof {
                assert(self@.outputs =~= outs0.update(j as int, (id, destination, merger)));
                lemma_outputs_insert_found(outs0, id, destination, merger, j as int);
            }
        } else {
            self.outputs.push((id, destination, merger));
            proof {
                lemma_outputs_insert_absent(outs0, id, destination, merger);
            }
        }
        proof {
            assert(self@ =~= register_output_spec(m0, v, destination, merger));
            lemma_register_value_preserves_args_inv(m0.arguments, m0.next_id, v);
            assert forall|idx: int|
                0 <= idx < m0.outputs.len() && lookup_id(m0.arguments, m0.outputs[idx].0)
                    is Some implies lookup_id(self@.arguments, #[trigger] m0.outputs[idx].0)
                == lookup_id(m0.arguments, m0.outputs[idx].0) by {
                lemma_lookup_id_prefix_stable(m0.arguments, step.1, m0.outputs[idx].0);
            }
            assert forall|id2: ArgumentId|
                lookup_id(m0.arguments, id2) is Some implies lookup_id(self@.arguments, id2)
                == lookup_id(m0.arguments, id2) by {
                lemma_lookup_id_prefix_stable(m0.arguments, step.1, id2);
            }
            lemma_outputs_insert_ids(m0.outputs, id, destination, merger);
        }
    }

    /// Clears the task graph after an execution: tasks, futures, outputs and
    /// the argument de-duplication table are emptied, and the manager leaves
    /// evaluation mode. Fresh ids continue from the next integer.
    pub fn reset(&mut self)
        requires
            old(self)@.inv(),
        ensures
            final(self)@ == (TaskManagerView {
                evaluate: false,
                tasks: Seq::empty(),
                outputs: Seq::empty(),
                arguments: Seq::empty(),
                futures: Seq::empty(),
                ..old(self)@
            }),
            final(self)@.inv(),
    {
        self.tasks.clear();
        self.futures.clear();
        self.outputs.clear();
        self.arguments.clear();
        self.evaluate = false;
        proof {
            assert(self@.tasks =~= Seq::<TaskView>::empty());
            assert(self@.arguments =~= Seq::<(ArgumentId, Seq<u8>)>::empty());
        }
    }
}

/// Mathematical content of an [`InputEntry`].
pub ghost struct InputEntryView {
    pub id: ArgumentId,
    pub task_arguments: Seq<ArgumentId>,
    pub param: SplitTypeParameterView,
}

/// One input of the task graph: an argument id together with the argument
/// list and split-type parameter of the first task in which it appeared.
/// Keeping the first task's argument list guarantees that the ids a splitter
/// initializer asks for resolve.
#[derive(Debug)]
pub struct InputEntry {
    pub id: ArgumentId,
    pub task_arguments: Vec<ArgumentId>,
    pub param: SplitTypeParameter,
}

impl View for InputEntry {
    type V = InputEntryView;

    open spec fn view(&self) -> InputEntryView {
        InputEntryView { id: self.id, task_arguments: self.task_arguments@, param: self.param@ }
    }
}

/// Whether an entry for `id` is already present.
pub open spec fn inputs_contain(entries: Seq<InputEntryView>, id: ArgumentId) -> bool {
    exists|i: int| 0 <= i < entries.len() && (#[trigger] entries[i]).id == id
}

/// Folds the arguments of one task, from position `k` on, into the entries.
pub open spec fn inputs_add_task(
    entries: Seq<InputEntryView>,
    task: TaskView,
    k: int,
) -> Seq<InputEntryView>
    decreases task.arguments.len() - k,
{
    if k < 0 || k >= task.arguments.len() {
        entries
    } else {
        let entries2 = if inputs_contain(entries, task.arguments[k]) {
            entries
        } else {
            entries.push(
                InputEntryView {
                    id: task.arguments[k],
                    task_arguments: task.arguments,
                    param: task.annotation.params[k],
                },
            )
        };
        inputs_add_task(entries2, task, k + 1)
    }
}

/// Folds the tasks from index `t` on into the entries.
pub open spec fn inputs_fold(
    entries: Seq<InputEntryView>,
    tasks: Seq<TaskView>,
    t: int,
) -> Seq<InputEntryView>
    decreases tasks.len() - t,
{
    if t < 0 || t >= tasks.len() {
        entries
    } else {
        inputs_fold(inputs_add_task(entries, tasks[t], 0), tasks, t + 1)
    }
}

/// The input map of a task list: for every argument id, the first occurrence
/// wins, in task order and argument-position order.
pub open spec fn inputs_spec(tasks: Seq<TaskView>) -> Seq<InputEntryView> {
    inputs_fold(Seq::empty(), tasks, 0)
}

/// Copies a list of argument ids.
fn clone_ids(v: &Vec<ArgumentId>) -> (r: Vec<ArgumentId>)
    ensures
        r@ == v@,
{
    let mut r: Vec<ArgumentId> = Vec::new();
    let mut i: usize = 0;
    while i < v.len()
        invariant
            i <= v@.len(),
            r@.len() == i,
            forall|j: int| 0 <= j < i ==> r@[j] == v@[j],
        decreases v@.len() - i,
    {
        r.push(v[i]);
        i = i + 1;
    }
    proof {
        assert(r@ =~= v@);
    }
    r
}

impl TaskManager {
    /// Joins each argument id with the argument list and split-type
    /// parameter of the first task where it appeared.
    pub fn inputs(&self) -> (r: Vec<InputEntry>)
        requires
            self@.inv(),
        ensures
            r@.map_values(|e: InputEntry| e@) == inputs_spec(self@.tasks),
    {
        let mut entries: Vec<InputEntry> = Vec::new();
        proof {
            assert(entries@.map_values(|e: InputEntry| e@) =~= Seq::<InputEntryView>::empty());
        }
        let mut t: usize = 0;
        while t < self.tasks.len()
            invariant
                t <= self@.tasks.len(),
                self@.inv(),
                inputs_spec(self@.tasks) == inputs_fold(
                    entries@.map_values(|e: InputEntry| e@),
                    self@.tasks,
                    t as int,
                ),
            decreases self@.tasks.len() - t,
        {
            let task = &self.tasks[t];
            let ghost task_view = self@.tasks[t as int];
            proof {
                assert(inputs_fold(
                    entries@.map_values(|e: InputEntry| e@),
                    self@.tasks,
                    t as int,
                ) == inputs_fold(
                    inputs_add_task(entries@.map_values(|e: InputEntry| e@), task_view, 0),
                    self@.tasks,
                    t + 1,
                ));
            }
            let mut k: usize = 0;
            while k < task.arguments.len()
                invariant
                    k <= task_view.arguments.len(),
                    task@ == task_view,
                    t < self@.tasks.len(),
                    task_view == self@.tasks[t as int],
                    self@.inv(),
                    task_view.arguments.len() == task_view.annotation.params.len(),
                    inputs_spec(self@.tasks) == inputs_fold(
                        inputs_add_task(
                            entries@.map_values(|e: InputEntry| e@),
                            task_view,
                            k as int,
                        ),
                        self@.tasks,
                        t + 1,
                    ),
                decreases task_view.arguments.len() - k,
            {
                let id = task.arguments[k];
                let mut present = false;
                let mut j: usize = 0;
                while j < entries.len() && !present
                    invariant
                        j <= entries@.len(),
                        !present ==> forall|x: int|
                            0 <= x < j ==> (#[trigger] entries@[x])@.id != id,
                        present ==> inputs_contain(entries@.map_values(|e: InputEntry| e@), id),
                    decreases entries@.len() - j + if present {
                        0int
                    } else {
                        1int
                    },
                {
                    if entries[j].id.0 == id.0 {
                        present = true;
                        proof {
                            let views = entries@.map_values(|e: InputEntry| e@);
                            assert(views[j as int].id == id);
                        }
                    } else {
                        j = j + 1;
                    }
                }
                proof {
                    if !present {
                        assert(j == entries@.len());
                    }
                }
                let ghost views0 = entries@.map_values(|e: InputEntry| e@);
                proof {
                    if !present {
                        assert(forall|x: int|
                            0 <= x < views0.len() ==> (#[trigger] views0[x]).id != id);
                        assert(!inputs_contain(views0, id));
                    }
                }
                if !present {
                    let entry = InputEntry {
                        id,
                        task_arguments: clone_ids(&task.arguments),
                        param: task.annotation.params[k].clone(),
                    };
                    entries.push(entry);
                    proof {
                        assert(entries@.map_values(|e: InputEntry| e@) =~= views0.push(
                            (InputEntryView {
                                id,
                                task_arguments: task_view.arguments,
                                param: task_view.annotation.params[k as int],
                            }),
                        ));
                    }
                }
                k = k + 1;
            }
            proof {
                assert(inputs_add_task(
                    entries@.map_values(|e: InputEntry| e@),
                    task_view,
                    k as int,
                ) == entries@.map_values(|e: InputEntry| e@));
                assert(inputs_spec(self@.tasks) == inputs_fold(
                    entries@.map_values(|e: InputEntry| e@),
                    self@.tasks,
                    t + 1,
                ));
            }
            t = t + 1;
        }
        proof {
            assert(inputs_fold(
                entries@.map_values(|e: InputEntry| e@),
                self@.tasks,
                self@.tasks.len() as int,
            ) == entries@.map_values(|e: InputEntry| e@));
        }
        entries
    }

    /// The bytes stored in the argument table under `id`, if any.
    pub fn argument_value(&self, id: ArgumentId) -> (r: Option<Vec<u8>>)
        ensures
            match r {
                Some(v) => lookup_id(self@.arguments, id) == Some(v@),
                None => lookup_id(self@.arguments, id) is None,
            },
    {
        let mut i: usize = 0;
        while i < self.arguments.len()
            invariant
                i <= self@.arguments.len(),
                forall|j: int| 0 <= j < i ==> (#[trigger] self@.arguments[j]).0 != id,
            decreases self@.arguments.len() - i,
        {
            if self.arguments[i].0.0 == id.0 {
                let value = copy_range(&self.arguments[i].1, 0, self.arguments[i].1.len());
                proof {
                    lemma_lookup_id_first(self@.arguments, id, i as int);
                    assert(value@ =~= self@.arguments[i as int].1);
                }
                return Some(value);
            }
            i = i + 1;
        }
        proof {
            lemma_lookup_id_none(self@.arguments, id);
        }
        None
    }

    /// Whether `id` stands for a future drawn by an earlier registration.
    pub fn is_future(&self, id: ArgumentId) -> (r: bool)
        ensures
            r == self@.futures.contains(id),
    {
        let mut i: usize = 0;
        while i < self.futures.len()
            invariant
                i <= self@.futures.len(),
                forall|j: int| 0 <= j < i ==> self@.futures[j] != id,
            decreases self@.futures.len() - i,
        {
            if self.futures[i].0 == id.0 {
                return true;
            }
            i = i + 1;
        }
        false
    }
}

/// Mathematical content of a [`SplitterInit`].
pub ghost struct SplitterInitView {
    pub id: ArgumentId,
    pub needs_splitter: bool,
    pub initializer: usize,
    pub next: usize,
    pub data_size: usize,
    pub value: Seq<u8>,
    pub init_args: Seq<u8>,
}

/// Everything the caller needs to initialize one splitter: the tokens of the
/// initializer and next functions, the bytes of the value to split, and the
/// packed initializer arguments. Broadcast values and futures need no
/// splitter.
#[derive(Debug)]
pub struct SplitterInit {
    pub id: ArgumentId,
    pub needs_splitter: bool,
    pub initializer: usize,
    pub next: usize,
    pub data_size: usize,
    pub value: Vec<u8>,
    pub init_args: Vec<u8>,
}

impl View for SplitterInit {
    type V = SplitterInitView;

    open spec fn view(&self) -> SplitterInitView {
        SplitterInitView {
            id: self.id,
            needs_splitter: self.needs_splitter,
            initializer: self.initializer,
            next: self.next,
            data_size: self.data_size,
            value: self.value@,
            init_args: self.init_args@,
        }
    }
}

/// The packed initializer-argument struct: the stored buffers of the task
/// arguments picked out by `indices`, concatenated in order.
pub open spec fn init_args_spec(
    args: Seq<(ArgumentId, Seq<u8>)>,
    task_args: Seq<ArgumentId>,
    indices: Seq<usize>,
) -> Seq<u8>
    decreases indices.len(),
{
    if indices.len() == 0 {
        Seq::empty()
    } else {
        (match lookup_id(args, task_args[indices[0] as int]) {
            Some(v) => v,
            None => Seq::empty(),
        }) + init_args_spec(args, task_args, indices.skip(1))
    }
}

/// Whether this input needs a splitter: broadcast values are copied to every
/// thread, and futures are produced inside the pipeline, already split.
pub open spec fn needs_splitter_spec(m: TaskManagerView, e: InputEntryView) -> bool {
    !(e.param.ty is Broadcast) && !m.futures.contains(e.id)
}

/// The splitter-initialization record for one input.
pub open spec fn splitter_init_spec(m: TaskManagerView, e: InputEntryView) -> SplitterInitView {
    if needs_splitter_spec(m, e) {
        let rt = e.param.ty.spec_runtime()->Some_0;
        SplitterInitView {
            id: e.id,
            needs_splitter: true,
            initializer: rt.initializer,
            next: rt.next,
            data_size: rt.data_size,
            value: lookup_id(m.arguments, e.id)->Some_0,
            init_args: init_args_spec(m.arguments, e.task_arguments, e.param.arguments),
        }
    } else {
        SplitterInitView {
            id: e.id,
            needs_splitter: false,
            initializer: 0,
            next: 0,
            data_size: 0,
            value: Seq::empty(),
            init_args: Seq::empty(),
        }
    }
}

/// Appends the bytes of `src` to `dst`.
pub fn append_bytes(dst: &mut Vec<u8>, src: &Vec<u8>)
    ensures
        final(dst)@ == old(dst)@ + src@,
{
    let mut i: usize = 0;
    while i < src.len()
        invariant
            i <= src@.len(),
            dst@.len() == old(dst)@.len() + i,
            forall|j: int| 0 <= j < old(dst)@.len() ==> dst@[j] == old(dst)@[j],
            forall|j: int| 0 <= j < i ==> dst@[old(dst)@.len() + j] == src@[j],
        decreases src@.len() - i,
    {
        dst.push(src[i]);
        i = i + 1;
    }
    proof {
        assert(dst@ =~= old(dst)@ + src@);
    }
}

impl TaskManager {
    /// Prepares the splitter initializations for the given inputs: which
    /// inputs need a splitter at all, and for those that do, the function
    /// tokens, the value bytes and the packed initializer arguments.
    pub fn splitter_inits(&self, inputs: &Vec<InputEntry>) -> (r: Vec<SplitterInit>)
        requires
            forall|i: int|
                0 <= i < inputs@.len() && needs_splitter_spec(self@, (#[trigger] inputs@[i])@)
                    ==> {
                    let e = inputs@[i]@;
                    &&& e.param.ty.has_runtime()
                    &&& lookup_id(self@.arguments, e.id) is Some
                    &&& forall|j: int|
                        0 <= j < e.param.arguments.len() ==> (#[trigger] e.param.arguments[j])
                            < e.task_arguments.len() && lookup_id(
                            self@.arguments,
                            e.task_arguments[e.param.arguments[j] as int],
                        ) is Some
                },
        ensures
            r@.len() == inputs@.len(),
            forall|i: int|
                0 <= i < r@.len() ==> (#[trigger] r@[i])@ == splitter_init_spec(
                    self@,
                    inputs@[i]@,
                ),
    {
        let mut r: Vec<SplitterInit> = Vec::new();
        let mut i: usize = 0;
        while i < inputs.len()
            invariant
                i <= inputs@.len(),
                r@.len() == i,
                forall|k: int|
                    0 <= k < inputs@.len() && needs_splitter_spec(self@, (#[trigger] inputs@[k])@)
                        ==> {
                        let e = inputs@[k]@;
                        &&& e.param.ty.has_runtime()
                        &&& lookup_id(self@.arguments, e.id) is Some
                        &&& forall|j: int|
                            0 <= j < e.param.arguments.len() ==> (#[trigger] e.param.arguments[j])
                                < e.task_arguments.len() && lookup_id(
                                self@.arguments,
                                e.task_arguments[e.param.arguments[j] as int],
                            ) is Some
                    },
                forall|k: int|
                    0 <= k < i ==> (#[trigger] r@[k])@ == splitter_init_spec(self@, inputs@[k]@),
            decreases inputs@.len() - i,
        {
            let entry = &inputs[i];
            let record = if entry.param.ty.is_broadcast() || self.is_future(entry.id) {
                SplitterInit {
                    id: entry.id,
                    needs_splitter: false,
                    initializer: 0,
                    next: 0,
                    data_size: 0,
                    value: Vec::new(),
                    init_args: Vec::new(),
                }
            } else {
                let rt = entry.param.ty.runtime_info();
                let initializer = rt.initializer;
                let next = rt.next;
                let data_size = rt.data_size;
                let value = match self.argument_value(entry.id) {
                    Some(v) => v,
                    None => {
                        proof {
                            assert(false);
                        }
                        unreached()
                    },
                };
                let ghost indices = entry@.param.arguments;
                let mut init_args: Vec<u8> = Vec::new();
                let mut j: usize = 0;
                proof {
                    assert(indices.skip(0) =~= indices);
                    assert(Seq::<u8>::empty() + init_args_spec(
                        self@.arguments,
                        entry@.task_arguments,
                        indices,
                    ) =~= init_args_spec(self@.arguments, entry@.task_arguments, indices));
                }
                while j < entry.param.arguments.len()
                    invariant
                        j <= indices.len(),
                        indices == entry@.param.arguments,
                        needs_splitter_spec(self@, entry@),
                        inputs@[i as int] == *entry,
                        0 <= i < inputs@.len(),
                        forall|x: int|
                            0 <= x < indices.len() ==> (#[trigger] indices[x])
                                < entry@.task_arguments.len() && lookup_id(
                                self@.arguments,
                                entry@.task_arguments[indices[x] as int],
                            ) is Some,
                        init_args_spec(self@.arguments, entry@.task_arguments, indices)
                            == init_args@ + init_args_spec(
                            self@.arguments,
                            entry@.task_arguments,
                            indices.skip(j as int),
                        ),
                    decreases indices.len() - j,
                {
                    let arg_index = entry.param.arguments[j];
                    let splitter_arg_id = entry.task_arguments[arg_index];
                    let data = match self.argument_value(splitter_arg_id) {
                        Some(v) => v,
                        None => {
                            proof {
                                assert(false);
                            }
                            unreached()
                        },
                    };
                    append_bytes(&mut init_args, &data);
                    proof {
                        assert(indices.skip(j as int)[0] == indices[j as int]);
                        assert(indices.skip(j as int).skip(1) =~= indices.skip(j + 1));
                    }
                    j = j + 1;
                }
                proof {
                    assert(indices.skip(j as int) =~= Seq::<usize>::empty());
                    assert(init_args@ + Seq::<u8>::empty() =~= init_args@);
                }
                SplitterInit {
                    id: entry.id,
                    needs_splitter: true,
                    initializer,
                    next,
                    data_size,
                    value,
                    init_args,
                }
            };
            r.push(record);
            i = i + 1;
        }
        r
    }

    /// Agrees on the item count reported by the splitters: the common value
    /// of all non-infinite counts. Returns `None` when the non-infinite
    /// counts disagree, or when every count is infinite (every input
    /// broadcast: a caller error the runtime treats as fatal).
    pub fn agree_num_items(counts: &Vec<i64>) -> (r: Option<i64>)
        ensures
            match r {
                Some(v) => {
                    &&& v != COMPOSER_INFINITE_ITEMS
                    &&& exists|i: int| 0 <= i < counts@.len() && counts@[i] == v
                    &&& forall|i: int|
                        0 <= i < counts@.len() && counts@[i] != COMPOSER_INFINITE_ITEMS
                            ==> counts@[i] == v
                },
                None => (forall|i: int|
                    0 <= i < counts@.len() ==> counts@[i] == COMPOSER_INFINITE_ITEMS) || (
                exists|i: int, j: int|
                    0 <= i < counts@.len() && 0 <= j < counts@.len() && counts@[i]
                        != COMPOSER_INFINITE_ITEMS && counts@[j] != COMPOSER_INFINITE_ITEMS
                        && counts@[i] != counts@[j]),
            },
    {
        let mut agreed: Option<i64> = None;
        let mut i: usize = 0;
        while i < counts.len()
            invariant
                i <= counts@.len(),
                match agreed {
                    Some(v) => {
                        &&& v != COMPOSER_INFINITE_ITEMS
                        &&& exists|k: int| 0 <= k < i && counts@[k] == v
                        &&& forall|k: int|
                            0 <= k < i && counts@[k] != COMPOSER_INFINITE_ITEMS ==> counts@[k]
                                == v
                    },
                    None => forall|k: int| 0 <= k < i ==> counts@[k] == COMPOSER_INFINITE_ITEMS,
                },
            decreases counts@.len() - i,
        {
            let item = counts[i];
            if item != COMPOSER_INFINITE_ITEMS {
                match agreed {
                    None => {
                        agreed = Some(item);
                    },
                    Some(v) => {
                        if v != item {
                            proof {
                                let k0 = choose|k: int| 0 <= k < i && counts@[k] == v;
                                assert(counts@[k0] != COMPOSER_INFINITE_ITEMS);
                                assert(counts@[i as int] != COMPOSER_INFINITE_ITEMS);
                                assert(counts@[k0] != counts@[i as int]);
                            }
                            return None;
                        }
                    },
                }
            }
            i = i + 1;
        }
        agreed
    }
}

/// The range of items thread `tid` of `threads` processes. The per-thread
/// share is the item count divided by the thread count, rounded up; when the
/// share rounds to zero, thread 0 processes everything and every other
/// thread gets no range at all.
pub open spec fn thread_range_spec(num_items: int, threads: int, tid: int) -> Option<(int, int)>
    recommends
        threads > 0,
{
    let share = num_items / threads;
    if share == 0 && tid != 0 {
        None
    } else if share == 0 {
        Some((0, num_items))
    } else {
        let per = share + if num_items % threads != 0 {
            1int
        } else {
            0int
        };
        let end = if num_items < per * (tid + 1) {
            num_items
        } else {
            per * (tid + 1)
        };
        Some((per * tid, end))
    }
}

impl TaskManager {
    /// Returns the range of items this thread should process, or `None` when
    /// the thread has nothing to do and should exit with an empty piece.
    pub fn thread_range(&self, num_items: i64, tid: i64) -> (r: Option<(i64, i64)>)
        requires
            self@.threads > 0,
            0 <= tid < self@.threads,
            0 <= num_items,
            num_items + self@.threads <= i64::MAX,
        ensures
            match r {
                None => thread_range_spec(
                    num_items as int,
                    self@.threads as int,
                    tid as int,
                ) is None,
                Some(p) => thread_range_spec(num_items as int, self@.threads as int, tid as int)
                    == Some((p.0 as int, p.1 as int)),
            },
    {
        let share = num_items / self.threads;
        if share == 0 && tid != 0 {
            return None;
        }
        if share == 0 {
            return Some((0, num_items));
        }
        let bump: i64 = if num_items % self.threads != 0 {
            1
        } else {
            0
        };
        proof {
            vstd::arithmetic::div_mod::lemma_fundamental_div_mod(
                num_items as int,
                self@.threads as int,
            );
            vstd::arithmetic::div_mod::lemma_mod_bound(num_items as int, self@.threads as int);
            let per = share as int + bump as int;
            assert(per * (self@.threads as int) == (share as int) * (self@.threads as int) + (
            bump as int) * (self@.threads as int)) by (nonlinear_arith)
                requires
                    per == share as int + bump as int,
            ;
            assert((num_items as int) == (self@.threads as int) * (share as int) + (num_items as int)
                % (self@.threads as int));
            assert((share as int) * (self@.threads as int) == (self@.threads as int) * (
            share as int)) by (nonlinear_arith);
            assert((bump as int) * (self@.threads as int) <= (self@.threads as int)) by {
                if bump == 1 {
                } else {
                    assert(bump == 0);
                    assert((bump as int) * (self@.threads as int) == 0) by (nonlinear_arith)
                        requires
                            bump as int == 0,
                    ;
                }
            }
            assert(per * (self@.threads as int) <= num_items + self@.threads);
            assert(0 <= per * (tid as int) && per * (tid as int + 1) <= per * (
            self@.threads as int) && per * (tid as int + 1) == per * (tid as int) + per)
                by (nonlinear_arith)
                requires
                    0 < per,
                    0 <= tid,
                    tid < self@.threads,
            ;
        }
        let per = share + bump;
        let start = per * tid;
        let end_candidate = per * (tid + 1);
        let end = if num_items < end_candidate {
            num_items
        } else {
            end_candidate
        };
        Some((start, end))
    }
}

/// A sequence of `n` zero bytes.
pub open spec fn zero_seq(n: nat) -> Seq<u8> {
    Seq::new(n, |i: int| 0u8)
}

/// A fresh buffer of `n` zero bytes.
pub fn zero_bytes(n: usize) -> (r: Vec<u8>)
    ensures
        r@ == zero_seq(n as nat),
{
    let mut r: Vec<u8> = Vec::new();
    let mut i: usize = 0;
    while i < n
        invariant
            i <= n,
            r@.len() == i,
            forall|j: int| 0 <= j < i ==> r@[j] == 0u8,
        decreases n - i,
    {
        r.push(0);
        i = i + 1;
    }
    proof {
        assert(r@ =~= zero_seq(n as nat));
    }
    r
}

/// The per-input thread-local buffers: one zeroed buffer per input, sized to
/// its declared data size.
pub open spec fn input_buffers_spec(entries: Seq<InputEntryView>) -> Seq<(ArgumentId, Seq<u8>)> {
    entries.map_values(|e: InputEntryView| (e.id, zero_seq(param_size(e.param) as nat)))
}

/// Zeroed pointer-sized buffers for the futures that no task reads: their
/// stored buffers are pointer-sized by the manager's invariant.
pub open spec fn extra_future_buffers(
    m: TaskManagerView,
    entries: Seq<InputEntryView>,
    i: int,
) -> Seq<(ArgumentId, Seq<u8>)>
    decreases m.futures.len() - i,
{
    if i < 0 || i >= m.futures.len() {
        Seq::empty()
    } else if inputs_contain(entries, m.futures[i]) {
        extra_future_buffers(m, entries, i + 1)
    } else {
        seq![(m.futures[i], zero_seq(8))] + extra_future_buffers(m, entries, i + 1)
    }
}

/// All thread-local buffers: input buffers first, then buffers for the
/// remaining futures.
pub open spec fn buffers_spec(
    m: TaskManagerView,
    entries: Seq<InputEntryView>,
) -> Seq<(ArgumentId, Seq<u8>)> {
    input_buffers_spec(entries) + extra_future_buffers(m, entries, 0)
}

impl TaskManager {
    /// Builds the thread-local buffers for one worker: a zeroed buffer per
    /// input sized to its data size, and a pointer-sized buffer for every
    /// future no task reads. Future values flow between tasks, so a future's
    /// buffer must be pointer-sized, since it stands for a pointer.
    pub fn buffers(&self, inputs: &Vec<InputEntry>) -> (r: Vec<(ArgumentId, Vec<u8>)>)
        requires
            forall|i: int| 0 <= i < inputs@.len() ==> (#[trigger] inputs@[i])@.param.ty.has_runtime(),
            forall|i: int|
                0 <= i < inputs@.len() && self@.futures.contains((#[trigger] inputs@[i])@.id)
                    ==> param_size(inputs@[i]@.param) == 8,
        ensures
            r@.map_values(|b: (ArgumentId, Vec<u8>)| (b.0, b.1@)) == buffers_spec(
                self@,
                inputs@.map_values(|e: InputEntry| e@),
            ),
    {
        let ghost entries = inputs@.map_values(|e: InputEntry| e@);
        let mut r: Vec<(ArgumentId, Vec<u8>)> = Vec::new();
        let mut i: usize = 0;
        while i < inputs.len()
            invariant
                i <= inputs@.len(),
                entries == inputs@.map_values(|e: InputEntry| e@),
                forall|k: int|
                    0 <= k < inputs@.len() ==> (#[trigger] inputs@[k])@.param.ty.has_runtime(),
                r@.len() == i,
                forall|k: int|
                    0 <= k < i ==> ((#[trigger] r@[k]).0, r@[k].1@) == (
                    entries[k].id,
                    zero_seq(param_size(entries[k].param) as nat),
                ),
            decreases inputs@.len() - i,
        {
            let entry = &inputs[i];
            let size = entry.param.ty.runtime_info().data_size;
            r.push((entry.id, zero_bytes(size)));
            i = i + 1;
        }
        proof {
            assert(r@.map_values(|b: (ArgumentId, Vec<u8>)| (b.0, b.1@)) =~= input_buffers_spec(
                entries,
            ));
        }
        let ghost base = r@.map_values(|b: (ArgumentId, Vec<u8>)| (b.0, b.1@));
        let mut f: usize = 0;
        proof {
            assert(base + extra_future_buffers(self@, entries, 0) == buffers_spec(self@, entries));
        }
        while f < self.futures.len()
            invariant
                f <= self@.futures.len(),
                entries == inputs@.map_values(|e: InputEntry| e@),
                buffers_spec(self@, entries) == r@.map_values(
                    |b: (ArgumentId, Vec<u8>)| (b.0, b.1@),
                ) + extra_future_buffers(self@, entries, f as int),
            decreases self@.futures.len() - f,
        {
            let fid = self.futures[f];
            let mut present = false;
            let mut j: usize = 0;
            while j < inputs.len() && !present
                invariant
                    j <= inputs@.len(),
                    entries == inputs@.map_values(|e: InputEntry| e@),
                    !present ==> forall|x: int| 0 <= x < j ==> (#[trigger] entries[x]).id != fid,
                    present ==> inputs_contain(entries, fid),
                decreases inputs@.len() - j + if present {
                    0int
                } else {
                    1int
                },
            {
                if inputs[j].id.0 == fid.0 {
                    present = true;
                    proof {
                        assert(entries[j as int].id == fid);
                    }
                } else {
                    j = j + 1;
                }
            }
            let ghost before = r@.map_values(|b: (ArgumentId, Vec<u8>)| (b.0, b.1@));
            if !present {
                proof {
                    assert(!inputs_contain(entries, fid));
                }
                r.push((fid, zero_bytes(8)));
                proof {
                    assert(r@.map_values(|b: (ArgumentId, Vec<u8>)| (b.0, b.1@)) =~= before.push(
                        (fid, zero_seq(8)),
                    ));
                    assert(before + (seq![(fid, zero_seq(8))] + extra_future_buffers(
                        self@,
                        entries,
                        f + 1,
                    )) =~= before.push((fid, zero_seq(8))) + extra_future_buffers(
                        self@,
                        entries,
                        f + 1,
                    ));
                }
            }
            f = f + 1;
        }
        proof {
            assert(extra_future_buffers(self@, entries, self@.futures.len() as int)
                =~= Seq::<(ArgumentId, Seq<u8>)>::empty());
            assert(r@.map_values(|b: (ArgumentId, Vec<u8>)| (b.0, b.1@)) + Seq::<(
                ArgumentId,
                Seq<u8>,
            )>::empty() =~= r@.map_values(|b: (ArgumentId, Vec<u8>)| (b.0, b.1@)));
        }
        r
    }
}

/// `buffers` with the first buffer recorded under `id` replaced by `bytes`;
/// unchanged when `id` has no buffer.
pub open spec fn store_spec(
    buffers: Seq<(ArgumentId, Seq<u8>)>,
    id: ArgumentId,
    bytes: Seq<u8>,
) -> Seq<(ArgumentId, Seq<u8>)>
    decreases buffers.len(),
{
    if buffers.len() == 0 {
        buffers
    } else if buffers[0].0 == id {
        seq![(id, bytes)] + buffers.skip(1)
    } else {
        seq![buffers[0]] + store_spec(buffers.skip(1), id, bytes)
    }
}

/// Replaces the buffer recorded under `id` with `bytes`. A missing id is a
/// silent no-op.
pub fn store_buffer(buffers: &mut Vec<(ArgumentId, Vec<u8>)>, id: ArgumentId, bytes: Vec<u8>)
    ensures
        final(buffers)@.map_values(|b: (ArgumentId, Vec<u8>)| (b.0, b.1@)) == store_spec(
            old(buffers)@.map_values(|b: (ArgumentId, Vec<u8>)| (b.0, b.1@)),
            id,
            bytes@,
        ),
{
    let ghost views0 = buffers@.map_values(|b: (ArgumentId, Vec<u8>)| (b.0, b.1@));
    let mut j: usize = 0;
    let mut found = false;
    while j < buffers.len() && !found
        invariant
            j <= buffers@.len(),
            buffers@ == old(buffers)@,
            views0 == buffers@.map_values(|b: (ArgumentId, Vec<u8>)| (b.0, b.1@)),
            !found ==> forall|x: int| 0 <= x < j ==> (#[trigger] views0[x]).0 != id,
            found ==> j < views0.len() && views0[j as int].0 == id && forall|x: int|
                0 <= x < j ==> (#[trigger] views0[x]).0 != id,
        decreases buffers@.len() - j + if found {
            0int
        } else {
            1int
        },
    {
        if buffers[j].0.0 == id.0 {
            found = true;
        } else {
            j = j + 1;
        }
    }
    if found {
        let slot = &mut buffers[j];
        *slot = (id, bytes);
        proof {
            assert(buffers@.map_values(|b: (ArgumentId, Vec<u8>)| (b.0, b.1@)) =~= views0.update(
                j as int,
                (id, bytes@),
            ));
            lemma_store_found(views0, id, bytes@, j as int);
        }
    } else {
        proof {
            lemma_store_absent(views0, id, bytes@);
        }
    }
}

/// The store spec updates in place when the id has a buffer.
proof fn lemma_store_found(
    buffers: Seq<(ArgumentId, Seq<u8>)>,
    id: ArgumentId,
    bytes: Seq<u8>,
    j: int,
)
    requires
        0 <= j < buffers.len(),
        buffers[j].0 == id,
        forall|x: int| 0 <= x < j ==> (#[trigger] buffers[x]).0 != id,
    ensures
        store_spec(buffers, id, bytes) == buffers.update(j, (id, bytes)),
    decreases j,
{
    if j == 0 {
        assert(store_spec(buffers, id, bytes) =~= buffers.update(0, (id, bytes)));
    } else {
        assert(forall|k: int|
            0 <= k < buffers.skip(1).len() ==> #[trigger] buffers.skip(1)[k] == buffers[k + 1]);
        lemma_store_found(buffers.skip(1), id, bytes, j - 1);
        assert(store_spec(buffers, id, bytes) =~= buffers.update(j, (id, bytes)));
    }
}

/// The store spec changes nothing when the id has no buffer.
proof fn lemma_store_absent(buffers: Seq<(ArgumentId, Seq<u8>)>, id: ArgumentId, bytes: Seq<u8>)
    requires
        forall|x: int| 0 <= x < buffers.len() ==> (#[trigger] buffers[x]).0 != id,
    ensures
        store_spec(buffers, id, bytes) == buffers,
    decreases buffers.len(),
{
    if buffers.len() > 0 {
        assert(forall|k: int|
            0 <= k < buffers.skip(1).len() ==> #[trigger] buffers.skip(1)[k] == buffers[k + 1]);
        lemma_store_absent(buffers.skip(1), id, bytes);
        assert(store_spec(buffers, id, bytes) =~= buffers);
    }
}

/// The bytes handed to a task's callback: the current buffers of its
/// argument ids, concatenated in parameter order.
pub open spec fn pack_spec(buffers: Seq<(ArgumentId, Seq<u8>)>, ids: Seq<ArgumentId>) -> Seq<u8>
    decreases ids.len(),
{
    if ids.len() == 0 {
        Seq::empty()
    } else {
        (match lookup_id(buffers, ids[0]) {
            Some(v) => v,
            None => Seq::empty(),
        }) + pack_spec(buffers, ids.skip(1))
    }
}

impl TaskManager {
    /// Copies the stored bytes of `id` from the argument table into its
    /// thread-local buffer: how broadcast values and pipeline-produced
    /// futures reach every worker.
    pub fn fill_broadcast(&self, buffers: &mut Vec<(ArgumentId, Vec<u8>)>, id: ArgumentId)
        requires
            lookup_id(self@.arguments, id) is Some,
        ensures
            final(buffers)@.map_values(|b: (ArgumentId, Vec<u8>)| (b.0, b.1@)) == store_spec(
                old(buffers)@.map_values(|b: (ArgumentId, Vec<u8>)| (b.0, b.1@)),
                id,
                lookup_id(self@.arguments, id)->Some_0,
            ),
    {
        let value = match self.argument_value(id) {
            Some(v) => v,
            None => {
                proof {
                    assert(false);
                }
                unreached()
            },
        };
        store_buffer(buffers, id, value);
    }

    /// Assembles the packed argument buffer for the task at `task_index`
    /// from the thread-local buffers.
    pub fn pack_task_args(
        &self,
        buffers: &Vec<(ArgumentId, Vec<u8>)>,
        task_index: usize,
    ) -> (r: Vec<u8>)
        requires
            task_index < self@.tasks.len(),
            forall|k: int|
                0 <= k < self@.tasks[task_index as int].arguments.len() ==> lookup_id(
                    buffers@.map_values(|b: (ArgumentId, Vec<u8>)| (b.0, b.1@)),
                    #[trigger] self@.tasks[task_index as int].arguments[k],
                ) is Some,
        ensures
            r@ == pack_spec(
                buffers@.map_values(|b: (ArgumentId, Vec<u8>)| (b.0, b.1@)),
                self@.tasks[task_index as int].arguments,
            ),
    {
        let ghost buffer_views = buffers@.map_values(|b: (ArgumentId, Vec<u8>)| (b.0, b.1@));
        let ghost ids = self@.tasks[task_index as int].arguments;
        let task = &self.tasks[task_index];
        let mut r: Vec<u8> = Vec::new();
        let mut k: usize = 0;
        proof {
            assert(ids.skip(0) =~= ids);
            assert(Seq::<u8>::empty() + pack_spec(buffer_views, ids) =~= pack_spec(
                buffer_views,
                ids,
            ));
        }
        while k < task.arguments.len()
            invariant
                k <= ids.len(),
                task@ == self@.tasks[task_index as int],
                ids == self@.tasks[task_index as int].arguments,
                buffer_views == buffers@.map_values(|b: (ArgumentId, Vec<u8>)| (b.0, b.1@)),
                forall|x: int|
                    0 <= x < ids.len() ==> lookup_id(buffer_views, #[trigger] ids[x]) is Some,
                pack_spec(buffer_views, ids) == r@ + pack_spec(
                    buffer_views,
                    ids.skip(k as int),
                ),
            decreases ids.len() - k,
        {
            let id = task.arguments[k];
            let ghost r0 = r@;
            let mut j: usize = 0;
            let mut appended = false;
            while j < buffers.len() && !appended
                invariant
                    j <= buffers@.len(),
                    buffer_views == buffers@.map_values(|b: (ArgumentId, Vec<u8>)| (b.0, b.1@)),
                    !appended ==> forall|x: int|
                        0 <= x < j ==> (#[trigger] buffer_views[x]).0 != id,
                    appended ==> r@ == r0 + (match lookup_id(buffer_views, id) {
                        Some(v) => v,
                        None => Seq::empty(),
                    }),
                    !appended ==> r@ == r0,
                    id == ids[k as int],
                    0 <= k < ids.len(),
                decreases buffers@.len() - j + if appended {
                    0int
                } else {
                    1int
                },
            {
                if buffers[j].0.0 == id.0 {
                    proof {
                        lemma_lookup_id_first(buffer_views, id, j as int);
                        assert(buffer_views[j as int].1 == buffers@[j as int].1@);
                    }
                    append_bytes(&mut r, &buffers[j].1);
                    appended = true;
                } else {
                    j = j + 1;
                }
            }
            proof {
                if !appended {
                    lemma_lookup_id_none(buffer_views, id);
                    assert(false);
                }
                assert(ids.skip(k as int)[0] == ids[k as int]);
                assert(ids.skip(k as int).skip(1) =~= ids.skip(k + 1));
                assert(r@ + pack_spec(buffer_views, ids.skip(k + 1)) =~= r0 + pack_spec(
                    buffer_views,
                    ids.skip(k as int),
                ));
            }
            k = k + 1;
        }
        proof {
            assert(ids.skip(k as int) =~= Seq::<ArgumentId>::empty());
            assert(r@ + Seq::<u8>::empty() =~= r@);
        }
        r
    }

    /// Writes a task's returned future into the buffer of the task's future
    /// id, so that later tasks in the batch see it as their input. Tasks
    /// without a future leave the buffers unchanged.
    pub fn record_task_future(
        &self,
        buffers: &mut Vec<(ArgumentId, Vec<u8>)>,
        task_index: usize,
        result: u64,
    )
        requires
            task_index < self@.tasks.len(),
        ensures
            final(buffers)@.map_values(|b: (ArgumentId, Vec<u8>)| (b.0, b.1@)) == (match self@
                .tasks[task_index as int].future_id {
                None => old(buffers)@.map_values(|b: (ArgumentId, Vec<u8>)| (b.0, b.1@)),
                Some(fid) => store_spec(
                    old(buffers)@.map_values(|b: (ArgumentId, Vec<u8>)| (b.0, b.1@)),
                    fid,
                    le_bytes_spec(result),
                ),
            }),
    {
        let task = &self.tasks[task_index];
        match task.future_id {
            None => {},
            Some(fid) => {
                let bytes = le_bytes(result);
                store_buffer(buffers, fid, bytes);
            },
        }
    }

    /// One empty accumulator per registered output, in output order.
    pub fn new_output_lists(&self) -> (r: Vec<(ArgumentId, Vec<u8>)>)
        ensures
            r@.len() == self@.outputs.len(),
            forall|i: int|
                0 <= i < r@.len() ==> (#[trigger] r@[i]).0 == self@.outputs[i].0 && r@[i].1@
                    == Seq::<u8>::empty(),
    {
        let mut r: Vec<(ArgumentId, Vec<u8>)> = Vec::new();
        let mut i: usize = 0;
        while i < self.outputs.len()
            invariant
                i <= self@.outputs.len(),
                r@.len() == i,
                forall|k: int|
                    0 <= k < i ==> (#[trigger] r@[k]).0 == self@.outputs[k].0 && r@[k].1@
                        == Seq::<u8>::empty(),
            decreases self@.outputs.len() - i,
        {
            r.push((self.outputs[i].0, Vec::new()));
            i = i + 1;
        }
        r
    }

    /// After a batch, appends each output's current buffer bytes to its
    /// accumulator and counts the piece.
    pub fn collect_outputs(
        &self,
        buffers: &Vec<(ArgumentId, Vec<u8>)>,
        lists: &mut Vec<(ArgumentId, Vec<u8>)>,
        num_output_pieces: &mut i64,
    )
        requires
            old(lists)@.len() == self@.outputs.len(),
            forall|i: int|
                0 <= i < old(lists)@.len() ==> (#[trigger] old(lists)@[i]).0
                    == self@.outputs[i].0,
            forall|i: int|
                0 <= i < self@.outputs.len() ==> lookup_id(
                    buffers@.map_values(|b: (ArgumentId, Vec<u8>)| (b.0, b.1@)),
                    (#[trigger] self@.outputs[i]).0,
                ) is Some,
            *old(num_output_pieces) < i64::MAX,
        ensures
            final(lists)@.len() == old(lists)@.len(),
            forall|i: int|
                0 <= i < final(lists)@.len() ==> (#[trigger] final(lists)@[i]).0 == old(
                    lists,
                )@[i].0 && final(lists)@[i].1@ == old(lists)@[i].1@ + lookup_id(
                    buffers@.map_values(|b: (ArgumentId, Vec<u8>)| (b.0, b.1@)),
                    old(lists)@[i].0,
                )->Some_0,
            *final(num_output_pieces) == *old(num_output_pieces) + 1,
    {
        let ghost buffer_views = buffers@.map_values(|b: (ArgumentId, Vec<u8>)| (b.0, b.1@));
        let mut i: usize = 0;
        while i < lists.len()
            invariant
                i <= lists@.len(),
                lists@.len() == old(lists)@.len(),
                old(lists)@.len() == self@.outputs.len(),
                buffer_views == buffers@.map_values(|b: (ArgumentId, Vec<u8>)| (b.0, b.1@)),
                forall|k: int|
                    0 <= k < old(lists)@.len() ==> (#[trigger] old(lists)@[k]).0
                        == self@.outputs[k].0,
                forall|k: int|
                    0 <= k < self@.outputs.len() ==> lookup_id(
                        buffer_views,
                        (#[trigger] self@.outputs[k]).0,
                    ) is Some,
                forall|k: int|
                    i <= k < lists@.len() ==> #[trigger] lists@[k] == old(lists)@[k],
                forall|k: int|
                    0 <= k < i ==> (#[trigger] lists@[k]).0 == old(lists)@[k].0 && lists@[k].1@
                        == old(lists)@[k].1@ + lookup_id(
                        buffer_views,
                        old(lists)@[k].0,
                    )->Some_0,
            decreases lists@.len() - i,
        {
            let id = lists[i].0;
            let mut j: usize = 0;
            let mut appended = false;
            while j < buffers.len() && !appended
                invariant
                    j <= buffers@.len(),
                    buffer_views == buffers@.map_values(|b: (ArgumentId, Vec<u8>)| (b.0, b.1@)),
                    !appended ==> forall|x: int|
                        0 <= x < j ==> (#[trigger] buffer_views[x]).0 != id,
                    lists@.len() == old(lists)@.len(),
                    0 <= i < lists@.len(),
                    id == lists@[i as int].0,
                    forall|k: int|
                        i < k < lists@.len() ==> #[trigger] lists@[k] == old(lists)@[k],
                    forall|k: int|
                        0 <= k < i ==> (#[trigger] lists@[k]).0 == old(lists)@[k].0
                            && lists@[k].1@ == old(lists)@[k].1@ + lookup_id(
                            buffer_views,
                            old(lists)@[k].0,
                        )->Some_0,
                    !appended ==> lists@[i as int] == old(lists)@[i as int],
                    appended ==> lists@[i as int].0 == old(lists)@[i as int].0
                        && lists@[i as int].1@ == old(lists)@[i as int].1@ + lookup_id(
                        buffer_views,
                        old(lists)@[i as int].0,
                    )->Some_0,
                decreases buffers@.len() - j + if appended {
                    0int
                } else {
                    1int
                },
            {
                if buffers[j].0.0 == id.0 {
                    proof {
                        lemma_lookup_id_first(buffer_views, id, j as int);
                    }
                    let slot = &mut lists[i];
                    append_bytes(&mut slot.1, &buffers[j].1);
                    appended = true;
                } else {
                    j = j + 1;
                }
            }
            proof {
                if !appended {
                    lemma_lookup_id_none(buffer_views, id);
                    assert(false);
                }
            }
            i = i + 1;
        }
        *num_output_pieces = *num_output_pieces + 1;
    }
}

impl TaskManager {
    /// The number of items a thread processes per batch: the configured
    /// batch size, capped by the thread's range.
    pub fn batch_size(&self, thread_start: i64, thread_end: i64) -> (r: i64)
        requires
            0 <= thread_start <= thread_end,
            self@.init_task_size <= i64::MAX,
        ensures
            r == if thread_end - thread_start < self@.init_task_size {
                thread_end - thread_start
            } else {
                self@.init_task_size as int
            },
            0 <= r,
    {
        let configured = self.init_task_size as i64;
        let len = thread_end - thread_start;
        if len < configured {
            len
        } else {
            configured
        }
    }

    /// The first batch of a thread's range, or `None` when the range is
    /// empty: a thread with no items runs no batches at all.
    pub fn first_batch(&self, thread_start: i64, thread_end: i64) -> (r: Option<(i64, i64)>)
        requires
            0 <= thread_start <= thread_end,
            self@.init_task_size <= i64::MAX,
        ensures
            thread_start >= thread_end ==> r is None,
            thread_start < thread_end ==> r == Some(
                (
                    thread_start,
                    (thread_start + if thread_end - thread_start < self@.init_task_size {
                        thread_end - thread_start
                    } else {
                        self@.init_task_size as int
                    }) as i64,
                ),
            ),
    {
        if thread_start >= thread_end {
            return None;
        }
        let batch = self.batch_size(thread_start, thread_end);
        Some((thread_start, thread_start + batch))
    }
}

/// The batch after `[cur_start, _)`, or `None` when the thread's range is
/// exhausted: the start advances by the batch size and the end is capped by
/// the thread's range end.
pub fn advance_batch(cur_start: i64, batch: i64, thread_end: i64) -> (r: Option<(i64, i64)>)
    requires
        0 <= cur_start,
        0 < batch,
        cur_start + 2 * batch <= i64::MAX,
    ensures
        cur_start + batch >= thread_end ==> r is None,
        cur_start + batch < thread_end ==> r == Some(
            (
                (cur_start + batch) as i64,
                if thread_end < cur_start + 2 * batch {
                    thread_end
                } else {
                    (cur_start + 2 * batch) as i64
                },
            ),
        ),
{
    let next_start = cur_start + batch;
    if next_start >= thread_end {
        return None;
    }
    let candidate = next_start + batch;
    let next_end = if thread_end < candidate {
        thread_end
    } else {
        candidate
    };
    Some((next_start, next_end))
}

/// Whether the batch whose splitters reported these statuses should run:
/// any splitter that has finished stops the thread's driver loop.
pub fn batch_should_run(statuses: &Vec<SplitterStatus>) -> (r: bool)
    ensures
        r == (forall|i: int|
            0 <= i < statuses@.len() ==> (#[trigger] statuses@[i]) is SplitterContinue),
{
    let mut i: usize = 0;
    while i < statuses.len()
        invariant
            i <= statuses@.len(),
            forall|j: int| 0 <= j < i ==> (#[trigger] statuses@[j]) is SplitterContinue,
        decreases statuses@.len() - i,
    {
        let status = statuses[i];
        match status {
            SplitterStatus::SplitterFinished => {
                return false;
            },
            SplitterStatus::SplitterContinue => {},
        }
        i = i + 1;
    }
    true
}

/// Mathematical content of a [`ParallelPiece`].
pub ghost struct ParallelPieceView {
    pub tid: i64,
    pub values: Seq<(ArgumentId, usize)>,
}

/// What one worker thread hands back for aggregation: its thread id and,
/// per output id, the token of its thread-locally merged result.
#[derive(Debug)]
pub struct ParallelPiece {
    pub tid: i64,
    pub values: Vec<(ArgumentId, usize)>,
}

impl View for ParallelPiece {
    type V = ParallelPieceView;

    open spec fn view(&self) -> ParallelPieceView {
        ParallelPieceView { tid: self.tid, values: self.values@ }
    }
}

impl ParallelPiece {
    /// Builds a piece from its parts.
    pub fn new(tid: i64, values: Vec<(ArgumentId, usize)>) -> (r: ParallelPiece)
        ensures
            r@ == (ParallelPieceView { tid, values: values@ }),
    {
        ParallelPiece { tid, values }
    }
}

/// Sorts the pieces by thread id, so that the final merged sequence
/// preserves the global input order.
pub fn sort_pieces_by_tid(pieces: Vec<ParallelPiece>) -> (r: Vec<ParallelPiece>)
    ensures
        r@.len() == pieces@.len(),
        forall|a: int, b: int| 0 <= a < b < r@.len() ==> r@[a].tid <= r@[b].tid,
        r@.to_multiset() == pieces@.to_multiset(),
{
    let mut remaining = pieces;
    let mut result: Vec<ParallelPiece> = Vec::new();
    proof {
        result@.to_multiset_ensures();
        assert(result@.to_multiset().add(remaining@.to_multiset()) =~= remaining@.to_multiset());
    }
    while remaining.len() > 0
        invariant
            result@.to_multiset().add(remaining@.to_multiset()) == pieces@.to_multiset(),
            result@.len() + remaining@.len() == pieces@.len(),
            forall|a: int, b: int| 0 <= a < b < result@.len() ==> result@[a].tid <= result@[b].tid,
            forall|a: int, b: int|
                0 <= a < result@.len() && 0 <= b < remaining@.len() ==> result@[a].tid
                    <= remaining@[b].tid,
        decreases remaining@.len(),
    {
        let mut min_index: usize = 0;
        let mut j: usize = 1;
        while j < remaining.len()
            invariant
                min_index < j <= remaining@.len(),
                remaining@.len() > 0,
                forall|x: int|
                    0 <= x < j ==> remaining@[min_index as int].tid <= (
                    #[trigger] remaining@[x]).tid,
            decreases remaining@.len() - j,
        {
            if remaining[j].tid < remaining[min_index].tid {
                min_index = j;
            }
            j = j + 1;
        }
        let ghost before = remaining@;
        let piece = remaining.remove(min_index);
        let ghost result_before = result@;
        result.push(piece);
        proof {
            result_before.to_multiset_ensures();
            before.to_multiset_ensures();
            assert(result@ == result_before.push(piece));
            assert(result_before.push(piece).to_multiset() =~= result_before.to_multiset().insert(
                piece,
            ));
            assert(remaining@ == before.remove(min_index as int));
            assert(before.remove(min_index as int).to_multiset() =~= before.to_multiset().remove(
                before[min_index as int],
            ));
            assert(before.contains(before[min_index as int]));
            assert(before.to_multiset().count(before[min_index as int]) > 0);
            assert(result@.to_multiset().add(remaining@.to_multiset()) =~= result_before
                .to_multiset().add(before.to_multiset()));
            assert(forall|b: int|
                0 <= b < remaining@.len() ==> #[trigger] remaining@[b].tid == before[if b
                    < min_index {
                    b
                } else {
                    b + 1
                }].tid);
        }
    }
    proof {
        remaining@.to_multiset_ensures();
        assert(result@.to_multiset().add(remaining@.to_multiset()) =~= result@.to_multiset());
    }
    result
}

/// The merged-piece tokens recorded for `id`, over the pieces in order.
pub open spec fn gather_spec(pieces: Seq<ParallelPieceView>, id: ArgumentId) -> Seq<usize>
    decreases pieces.len(),
{
    if pieces.len() == 0 {
        Seq::empty()
    } else {
        (match lookup_piece_value(pieces[0].values, id) {
            Some(ptr) => seq![ptr],
            None => Seq::empty(),
        }) + gather_spec(pieces.skip(1), id)
    }
}

/// The token one piece recorded for `id`, if any.
pub open spec fn lookup_piece_value(values: Seq<(ArgumentId, usize)>, id: ArgumentId) -> Option<
    usize,
>
    decreases values.len(),
{
    if values.len() == 0 {
        None
    } else if values[0].0 == id {
        Some(values[0].1)
    } else {
        lookup_piece_value(values.skip(1), id)
    }
}

/// Mathematical content of a [`MergeTask`].
pub ghost struct MergeTaskView {
    pub id: ArgumentId,
    pub destination: usize,
    pub merger: usize,
    pub pieces: Seq<usize>,
}

/// One final cross-thread merge: the output id, the destination and merger
/// tokens recorded for it, and the per-thread merged-result tokens gathered
/// in piece order.
#[derive(Debug)]
pub struct MergeTask {
    pub id: ArgumentId,
    pub destination: usize,
    pub merger: usize,
    pub pieces: Vec<usize>,
}

impl View for MergeTask {
    type V = MergeTaskView;

    open spec fn view(&self) -> MergeTaskView {
        MergeTaskView {
            id: self.id,
            destination: self.destination,
            merger: self.merger,
            pieces: self.pieces@,
        }
    }
}

impl TaskManager {
    /// Plans the final cross-thread merge: for every registered output, in
    /// order, the per-thread result tokens gathered over the pieces in the
    /// order given (sorted by thread id by the caller).
    pub fn merge_plan(&self, pieces: &Vec<ParallelPiece>) -> (r: Vec<MergeTask>)
        ensures
            r@.len() == self@.outputs.len(),
            forall|i: int|
                0 <= i < r@.len() ==> (#[trigger] r@[i])@ == (MergeTaskView {
                    id: self@.outputs[i].0,
                    destination: self@.outputs[i].1,
                    merger: self@.outputs[i].2,
                    pieces: gather_spec(
                        pieces@.map_values(|p: ParallelPiece| p@),
                        self@.outputs[i].0,
                    ),
                }),
    {
        let ghost piece_views = pieces@.map_values(|p: ParallelPiece| p@);
        let mut r: Vec<MergeTask> = Vec::new();
        let mut i: usize = 0;
        while i < self.outputs.len()
            invariant
                i <= self@.outputs.len(),
                piece_views == pieces@.map_values(|p: ParallelPiece| p@),
                r@.len() == i,
                forall|k: int|
                    0 <= k < i ==> (#[trigger] r@[k])@ == (MergeTaskView {
                        id: self@.outputs[k].0,
                        destination: self@.outputs[k].1,
                        merger: self@.outputs[k].2,
                        pieces: gather_spec(piece_views, self@.outputs[k].0),
                    }),
            decreases self@.outputs.len() - i,
        {
            let output = self.outputs[i];
            let id = output.0;
            let mut gathered: Vec<usize> = Vec::new();
            let mut p: usize = 0;
            proof {
                assert(piece_views.skip(0) =~= piece_views);
                assert(Seq::<usize>::empty() + gather_spec(piece_views, id) =~= gather_spec(
                    piece_views,
                    id,
                ));
            }
            while p < pieces.len()
                invariant
                    p <= piece_views.len(),
                    piece_views == pieces@.map_values(|q: ParallelPiece| q@),
                    gather_spec(piece_views, id) == gathered@ + gather_spec(
                        piece_views.skip(p as int),
                        id,
                    ),
                decreases piece_views.len() - p,
            {
                let piece = &pieces[p];
                let ghost g0 = gathered@;
                let mut v: usize = 0;
                let mut taken = false;
                while v < piece.values.len() && !taken
                    invariant
                        v <= piece.values@.len(),
                        piece@ == piece_views[p as int],
                        0 <= p < piece_views.len(),
                        !taken ==> forall|x: int|
                            0 <= x < v ==> (#[trigger] piece.values@[x]).0 != id,
                        !taken ==> gathered@ == g0,
                        taken ==> gathered@ == g0 + (match lookup_piece_value(
                            piece_views[p as int].values,
                            id,
                        ) {
                            Some(ptr) => seq![ptr],
                            None => Seq::<usize>::empty(),
                        }),
                    decreases piece.values@.len() - v + if taken {
                        0int
                    } else {
                        1int
                    },
                {
                    if piece.values[v].0.0 == id.0 {
                        proof {
                            lemma_lookup_piece_value_first(piece.values@, id, v as int);
                        }
                        gathered.push(piece.values[v].1);
                        taken = true;
                        proof {
                            assert(gathered@ =~= g0.push(piece.values@[v as int].1));
                            assert(gathered@ =~= g0 + seq![piece.values@[v as int].1]);
                        }
                    } else {
                        v = v + 1;
                    }
                }
                proof {
                    if !taken {
                        lemma_lookup_piece_value_none(piece.values@, id);
                        assert(gathered@ =~= g0 + Seq::<usize>::empty());
                    }
                    assert(piece_views.skip(p as int)[0] == piece_views[p as int]);
                    assert(piece_views.skip(p as int).skip(1) =~= piece_views.skip(p + 1));
                    assert(gathered@ + gather_spec(piece_views.skip(p + 1), id) =~= g0 + (
                    gather_spec(piece_views.skip(p as int), id)));
                }
                p = p + 1;
            }
            proof {
                assert(gather_spec(piece_views.skip(p as int), id) =~= Seq::<usize>::empty());
                assert(gathered@ + Seq::<usize>::empty() =~= gathered@);
            }
            r.push(MergeTask { id, destination: output.1, merger: output.2, pieces: gathered });
            i = i + 1;
        }
        r
    }
}

/// If entry `v` is the first with this id, the piece lookup returns its token.
proof fn lemma_lookup_piece_value_first(values: Seq<(ArgumentId, usize)>, id: ArgumentId, v: int)
    requires
        0 <= v < values.len(),
        values[v].0 == id,
        forall|x: int| 0 <= x < v ==> (#[trigger] values[x]).0 != id,
    ensures
        lookup_piece_value(values, id) == Some(values[v].1),
    decreases v,
{
    if v > 0 {
        assert(forall|x: int|
            0 <= x < v - 1 ==> #[trigger] values.skip(1)[x] == values[x + 1]);
        assert(values.skip(1)[v - 1] == values[v]);
        lemma_lookup_piece_value_first(values.skip(1), id, v - 1);
    }
}

/// If no entry has this id, the piece lookup fails.
proof fn lemma_lookup_piece_value_none(values: Seq<(ArgumentId, usize)>, id: ArgumentId)
    requires
        forall|x: int| 0 <= x < values.len() ==> (#[trigger] values[x]).0 != id,
    ensures
        lookup_piece_value(values, id) is None,
    decreases values.len(),
{
    if values.len() > 0 {
        assert(forall|x: int|
            0 <= x < values.skip(1).len() ==> #[trigger] values.skip(1)[x] == values[x + 1]);
        lemma_lookup_piece_value_none(values.skip(1), id);
    }
}

/// The concatenation of a list of byte buffers.
pub open spec fn concat_bytes(values: Seq<Seq<u8>>) -> Seq<u8>
    decreases values.len(),
{
    if values.len() == 0 {
        Seq::empty()
    } else {
        values[0] + concat_bytes(values.skip(1))
    }
}

/// Byte-equal registered argument buffers receive the same id: in one
/// registration, any two buffers with equal bytes are assigned one id.
/// (A drawn future's bytes are stored under their own fresh id without
/// de-duplication, so a buffer that happens to byte-equal a stored future
/// is the one way two table entries can share a byte value.)
pub proof fn lemma_byte_equal_buffers_share_id(
    args: Seq<(ArgumentId, Seq<u8>)>,
    next_id: u64,
    values: Seq<Seq<u8>>,
    i: int,
    j: int,
)
    requires
        args_inv(args, next_id),
        next_id + values.len() <= u64::MAX,
        0 <= i < values.len(),
        0 <= j < values.len(),
        values[i] == values[j],
    ensures
        register_values_spec(args, next_id, values).ids[i] == register_values_spec(
            args,
            next_id,
            values,
        ).ids[j],
{
    lemma_register_values_properties(args, next_id, values);
}

/// The id a buffer was assigned stays its id: a later registration that
/// hands in byte-equal bytes is given the same id back.
pub proof fn lemma_assigned_id_stable(
    m: TaskManagerView,
    ann: AnnotationView,
    function: usize,
    bytes: Seq<u8>,
    returns_value: bool,
    v: Seq<u8>,
    id: ArgumentId,
)
    requires
        m.inv(),
        m.next_id + ann.params.len() + 1 <= u64::MAX,
        lookup_value(m.arguments, v) == Some(id),
    ensures
        lookup_value(
            register_task_spec(m, ann, function, bytes, returns_value).0.arguments,
            v,
        ) == Some(id),
{
    let slices = slices_spec(bytes, ann.params);
    lemma_slices_spec_len(bytes, ann.params);
    let nid0 = if returns_value {
        (m.next_id + 1) as u64
    } else {
        m.next_id
    };
    let o = register_values_spec(m.arguments, nid0, slices);
    lemma_register_values_properties(m.arguments, nid0, slices);
    lemma_lookup_value_prefix_stable(m.arguments, o.arguments, v);
    let m2 = register_task_spec(m, ann, function, bytes, returns_value).0;
    if returns_value {
        assert(m2.arguments.take(o.arguments.len() as int) =~= o.arguments);
        lemma_lookup_value_prefix_stable(o.arguments, m2.arguments, v);
    }
}

/// A future drawn by one registration is linked as an input of a later task
/// exactly when the later call's packed bytes carry the future's bytes in
/// that argument slot. The premises say that the future's bytes `b` are
/// stored under `fid` and match no older buffer; both hold of a freshly
/// drawn future unless an unrelated buffer happens to carry the same eight
/// bytes, in which case the de-duplication scan finds the older entry first
/// and links the consumer there instead.
pub proof fn lemma_future_links_tasks(
    m: TaskManagerView,
    ann: AnnotationView,
    function: usize,
    bytes: Seq<u8>,
    returns_value: bool,
    fid: ArgumentId,
    b: Seq<u8>,
)
    requires
        m.inv(),
        m.next_id + ann.params.len() + 1 <= u64::MAX,
        lookup_value(m.arguments, b) == Some(fid),
        lookup_id(m.arguments, fid) == Some(b),
    ensures
        ({
            let m2 = register_task_spec(m, ann, function, bytes, returns_value).0;
            let task = m2.tasks.last();
            &&& task.arguments.len() == ann.params.len()
            &&& forall|k: int|
                0 <= k < task.arguments.len() ==> ((#[trigger] task.arguments[k]) == fid
                    <==> slices_spec(bytes, ann.params)[k] == b)
        }),
{
    let slices = slices_spec(bytes, ann.params);
    lemma_slices_spec_len(bytes, ann.params);
    let nid0 = if returns_value {
        (m.next_id + 1) as u64
    } else {
        m.next_id
    };
    let o = register_values_spec(m.arguments, nid0, slices);
    lemma_register_values_properties(m.arguments, nid0, slices);
    lemma_lookup_value_prefix_stable(m.arguments, o.arguments, b);
    lemma_lookup_id_prefix_stable(m.arguments, o.arguments, fid);
    let m2 = register_task_spec(m, ann, function, bytes, returns_value).0;
    let task = m2.tasks.last();
    assert forall|k: int|
        0 <= k < task.arguments.len() implies ((#[trigger] task.arguments[k]) == fid
        <==> slices[k] == b) by {
        assert(task.arguments[k] == o.ids[k]);
        if slices[k] == b {
            assert(lookup_value(o.arguments, slices[k]) == Some(o.ids[k]));
            assert(lookup_value(o.arguments, b) == Some(fid));
        }
        if o.ids[k] == fid {
            assert(lookup_id(o.arguments, o.ids[k]) == Some(slices[k]));
            assert(lookup_id(o.arguments, fid) == Some(b));
        }
    }
}

/// If each id of `ids` maps to the matching buffer of `values`, packing the
/// ids concatenates exactly those buffers.
proof fn lemma_pack_of_values(
    args: Seq<(ArgumentId, Seq<u8>)>,
    ids: Seq<ArgumentId>,
    values: Seq<Seq<u8>>,
)
    requires
        ids.len() == values.len(),
        forall|k: int|
            0 <= k < ids.len() ==> lookup_id(args, #[trigger] ids[k]) == Some(values[k]),
    ensures
        pack_spec(args, ids) == concat_bytes(values),
    decreases ids.len(),
{
    if ids.len() > 0 {
        assert(forall|k: int|
            0 <= k < ids.skip(1).len() ==> #[trigger] ids.skip(1)[k] == ids[k + 1]);
        assert(forall|k: int|
            0 <= k < values.skip(1).len() ==> #[trigger] values.skip(1)[k] == values[k + 1]);
        lemma_pack_of_values(args, ids.skip(1), values.skip(1));
    }
}

/// Cutting a buffer into per-parameter buffers loses nothing: their
/// concatenation is the original buffer.
proof fn lemma_slices_concat(bytes: Seq<u8>, params: Seq<SplitTypeParameterView>)
    requires
        total_size(params) == bytes.len(),
    ensures
        concat_bytes(slices_spec(bytes, params)) == bytes,
    decreases params.len(),
{
    if params.len() == 0 {
        assert(concat_bytes(slices_spec(bytes, params)) =~= bytes);
    } else {
        let size = param_size(params[0]) as int;
        lemma_total_size_nonneg(params.skip(1));
        lemma_slices_concat(bytes.skip(size), params.skip(1));
        let slices = slices_spec(bytes, params);
        assert(slices[0] == bytes.take(size));
        assert(slices.skip(1) =~= slices_spec(bytes.skip(size), params.skip(1)));
        assert(bytes.take(size) + bytes.skip(size) =~= bytes);
    }
}

/// A replay that hands every task the stored bytes of its argument ids (as
/// a single-threaded, all-broadcast execution does) packs for the newly
/// registered task exactly the bytes its wrapper packed at registration:
/// what a direct call in registration order would have received.
pub proof fn lemma_replay_packs_registered_bytes(
    m: TaskManagerView,
    ann: AnnotationView,
    function: usize,
    bytes: Seq<u8>,
    returns_value: bool,
)
    requires
        m.inv(),
        params_have_runtime(ann.params),
        total_size(ann.params) == bytes.len(),
        m.next_id + ann.params.len() + 1 <= u64::MAX,
        FUTURE_BASE_PTR + m.future_offset < i64::MAX,
    ensures
        ({
            let m2 = register_task_spec(m, ann, function, bytes, returns_value).0;
            pack_spec(m2.arguments, m2.tasks.last().arguments) == bytes
        }),
{
    let slices = slices_spec(bytes, ann.params);
    lemma_slices_spec_len(bytes, ann.params);
    let nid0 = if returns_value {
        (m.next_id + 1) as u64
    } else {
        m.next_id
    };
    let o = register_values_spec(m.arguments, nid0, slices);
    lemma_register_values_properties(m.arguments, nid0, slices);
    let m2 = register_task_spec(m, ann, function, bytes, returns_value).0;
    assert forall|k: int|
        0 <= k < o.ids.len() implies lookup_id(m2.arguments, #[trigger] o.ids[k]) == Some(
        slices[k],
    ) by {
        if returns_value {
            assert(m2.arguments.take(o.arguments.len() as int) =~= o.arguments);
            lemma_lookup_id_prefix_stable(o.arguments, m2.arguments, o.ids[k]);
        }
    }
    lemma_pack_of_values(m2.arguments, o.ids, slices);
    lemma_slices_concat(bytes, ann.params);
}

/// Division of a small non-negative number by a larger positive one is zero.
proof fn lemma_small_div(x: int, d: int)
    requires
        0 <= x < d,
    ensures
        x / d == 0,
{
    vstd::arithmetic::div_mod::lemma_fundamental_div_mod(x, d);
    vstd::arithmetic::div_mod::lemma_mod_bound(x, d);
    let q = x / d;
    if q >= 1 {
        assert(d * q >= d) by (nonlinear_arith)
            requires
                d > 0,
                q >= 1,
        ;
        assert(false);
    }
    if q <= -1 {
        assert(d * q <= -d) by (nonlinear_arith)
            requires
                d > 0,
                q <= -1,
        ;
        assert(false);
    }
}

/// With more threads than items and a single item, only the thread whose id
/// is below the item count does any work: thread 0 receives the whole range
/// and every other thread gets none and exits with an empty piece. (With
/// two or more items, still fewer than the thread count, the per-thread
/// share rounds to zero and thread 0 alone processes everything.)
pub proof fn lemma_more_threads_than_items(threads: int, tid: int)
    requires
        threads > 1,
        0 <= tid < threads,
    ensures
        tid == 0 ==> thread_range_spec(1, threads, tid) == Some((0int, 1int)),
        tid != 0 ==> thread_range_spec(1, threads, tid) is None,
{
    lemma_small_div(1, threads);
}

/// With no items at all, thread 0's range is empty and every other thread
/// has no range: no batches run, and the final merger sees zero pieces.
pub proof fn lemma_zero_items_empty_ranges(threads: int, tid: int)
    requires
        threads > 0,
        0 <= tid < threads,
    ensures
        tid == 0 ==> thread_range_spec(0, threads, tid) == Some((0int, 0int)),
        tid != 0 ==> thread_range_spec(0, threads, tid) is None,
{
    lemma_small_div(0, threads);
}

/// If entry `i` is the first with this id, the id lookup returns its buffer.
proof fn lemma_lookup_id_first(args: Seq<(ArgumentId, Seq<u8>)>, id: ArgumentId, i: int)
    requires
        0 <= i < args.len(),
        args[i].0 == id,
        forall|j: int| 0 <= j < i ==> (#[trigger] args[j]).0 != id,
    ensures
        lookup_id(args, id) == Some(args[i].1),
    decreases i,
{
    if i > 0 {
        assert(forall|j: int| 0 <= j < i - 1 ==> #[trigger] args.skip(1)[j] == args[j + 1]);
        assert(args.skip(1)[i - 1] == args[i]);
        lemma_lookup_id_first(args.skip(1), id, i - 1);
    }
}

/// If no entry has this id, the id lookup fails.
proof fn lemma_lookup_id_none(args: Seq<(ArgumentId, Seq<u8>)>, id: ArgumentId)
    requires
        forall|j: int| 0 <= j < args.len() ==> (#[trigger] args[j]).0 != id,
    ensures
        lookup_id(args, id) is None,
    decreases args.len(),
{
    if args.len() > 0 {
        assert(forall|j: int|
            0 <= j < args.skip(1).len() ==> #[trigger] args.skip(1)[j] == args[j + 1]);
        lemma_lookup_id_none(args.skip(1), id);
    }
}

/// The outputs-insert spec replaces in place when the id is already present.
proof fn lemma_outputs_insert_found(
    outs: Seq<(ArgumentId, usize, usize)>,
    id: ArgumentId,
    destination: usize,
    merger: usize,
    j: int,
)
    requires
        0 <= j < outs.len(),
        outs[j].0 == id,
        forall|k: int| 0 <= k < j ==> (#[trigger] outs[k]).0 != id,
    ensures
        outputs_insert_spec(outs, id, destination, merger) == outs.update(
            j,
            (id, destination, merger),
        ),
    decreases j,
{
    if j == 0 {
        assert(outputs_insert_spec(outs, id, destination, merger) =~= outs.update(
            0,
            (id, destination, merger),
        ));
    } else {
        assert(forall|k: int|
            0 <= k < outs.skip(1).len() ==> #[trigger] outs.skip(1)[k] == outs[k + 1]);
        lemma_outputs_insert_found(outs.skip(1), id, destination, merger, j - 1);
        assert(outputs_insert_spec(outs, id, destination, merger) =~= outs.update(
            j,
            (id, destination, merger),
        ));
    }
}

/// The outputs-insert spec appends when the id is absent.
proof fn lemma_outputs_insert_absent(
    outs: Seq<(ArgumentId, usize, usize)>,
    id: ArgumentId,
    destination: usize,
    merger: usize,
)
    requires
        forall|k: int| 0 <= k < outs.len() ==> (#[trigger] outs[k]).0 != id,
    ensures
        outputs_insert_spec(outs, id, destination, merger) == outs.push((id, destination, merger)),
    decreases outs.len(),
{
    if outs.len() == 0 {
        assert(outputs_insert_spec(outs, id, destination, merger) =~= outs.push(
            (id, destination, merger),
        ));
    } else {
        assert(forall|k: int|
            0 <= k < outs.skip(1).len() ==> #[trigger] outs.skip(1)[k] == outs[k + 1]);
        lemma_outputs_insert_absent(outs.skip(1), id, destination, merger);
        assert(outputs_insert_spec(outs, id, destination, merger) =~= outs.push(
            (id, destination, merger),
        ));
    }
}

/// Inserting an output record keeps every recorded id either unchanged or
/// equal to the inserted one, and keeps the ids pairwise distinct.
proof fn lemma_outputs_insert_ids(
    outs: Seq<(ArgumentId, usize, usize)>,
    id: ArgumentId,
    destination: usize,
    merger: usize,
)
    requires
        forall|a: int, b: int|
            0 <= a < b < outs.len() ==> (#[trigger] outs[a]).0 != (#[trigger] outs[b]).0,
    ensures
        ({
            let r = outputs_insert_spec(outs, id, destination, merger);
            &&& forall|a: int, b: int|
                0 <= a < b < r.len() ==> (#[trigger] r[a]).0 != (#[trigger] r[b]).0
            &&& forall|a: int|
                0 <= a < r.len() ==> (#[trigger] r[a]).0 == id || exists|b: int|
                    0 <= b < outs.len() && (#[trigger] outs[b]).0 == r[a].0
        }),
    decreases outs.len(),
{
    let r = outputs_insert_spec(outs, id, destination, merger);
    if outs.len() == 0 {
    } else if outs[0].0 == id {
        assert(forall|k: int|
            0 <= k < outs.skip(1).len() ==> #[trigger] r[k + 1] == outs.skip(1)[k]);
        assert forall|a: int|
            0 <= a < r.len() implies (#[trigger] r[a]).0 == id || exists|b: int|
                0 <= b < outs.len() && (#[trigger] outs[b]).0 == r[a].0 by {
            if a >= 1 {
                assert(outs[a].0 == r[a].0);
            }
        }
        assert forall|a: int, b: int|
            0 <= a < b < r.len() implies (#[trigger] r[a]).0 != (#[trigger] r[b]).0 by {
            if a == 0 {
                assert(r[b].0 == outs[b].0);
                assert(outs[0].0 != outs[b].0);
            } else {
                assert(r[a].0 == outs[a].0 && r[b].0 == outs[b].0);
            }
        }
    } else {
        assert(forall|a: int, b: int|
            0 <= a < b < outs.skip(1).len() ==> (#[trigger] outs.skip(1)[a]).0 != (
            #[trigger] outs.skip(1)[b]).0);
        lemma_outputs_insert_ids(outs.skip(1), id, destination, merger);
        let rr = outputs_insert_spec(outs.skip(1), id, destination, merger);
        assert(r == seq![outs[0]] + rr);
        assert(forall|k: int| 0 <= k < rr.len() ==> #[trigger] r[k + 1] == rr[k]);
        assert forall|a: int|
            0 <= a < r.len() implies (#[trigger] r[a]).0 == id || exists|b: int|
                0 <= b < outs.len() && (#[trigger] outs[b]).0 == r[a].0 by {
            if a == 0 {
                assert(outs[0].0 == r[0].0);
            } else {
                assert(r[a].0 == rr[a - 1].0);
                if rr[a - 1].0 != id {
                    let b0 = choose|b: int|
                        0 <= b < outs.skip(1).len() && (#[trigger] outs.skip(1)[b]).0 == rr[a
                            - 1].0;
                    assert(outs[b0 + 1].0 == rr[a - 1].0);
                }
            }
        }
        assert forall|a: int, b: int|
            0 <= a < b < r.len() implies (#[trigger] r[a]).0 != (#[trigger] r[b]).0 by {
            if a == 0 {
                assert(r[b].0 == rr[b - 1].0);
                if rr[b - 1].0 == id {
                    assert(outs[0].0 != id);
                } else {
                    let b0 = choose|c: int|
                        0 <= c < outs.skip(1).len() && (#[trigger] outs.skip(1)[c]).0 == rr[b
                            - 1].0;
                    assert(outs[b0 + 1].0 == rr[b - 1].0);
                    assert(outs[0].0 != outs[b0 + 1].0);
                }
            } else {
                assert(r[a].0 == rr[a - 1].0 && r[b].0 == rr[b - 1].0);
            }
        }
    }
}

/// If entry `i` is the first whose buffer equals `v`, the lookup returns its id.
proof fn lemma_lookup_value_first(args: Seq<(ArgumentId, Seq<u8>)>, v: Seq<u8>, i: int)
    requires
        0 <= i < args.len(),
        args[i].1 == v,
        forall|j: int| 0 <= j < i ==> (#[trigger] args[j]).1 != v,
    ensures
        lookup_value(args, v) == Some(args[i].0),
    decreases i,
{
    if i > 0 {
        assert(forall|j: int| 0 <= j < i - 1 ==> #[trigger] args.skip(1)[j] == args[j + 1]);
        assert(args.skip(1)[i - 1] == args[i]);
        lemma_lookup_value_first(args.skip(1), v, i - 1);
    }
}

/// If no buffer equals `v`, the lookup fails.
proof fn lemma_lookup_value_none(args: Seq<(ArgumentId, Seq<u8>)>, v: Seq<u8>)
    requires
        forall|j: int| 0 <= j < args.len() ==> (#[trigger] args[j]).1 != v,
    ensures
        lookup_value(args, v) is None,
    decreases args.len(),
{
    if args.len() > 0 {
        assert(forall|j: int|
            0 <= j < args.skip(1).len() ==> #[trigger] args.skip(1)[j] == args[j + 1]);
        lemma_lookup_value_none(args.skip(1), v);
    }
}

/// In a table with pairwise distinct ids, looking up entry `j`'s id finds
/// entry `j`'s buffer.
proof fn lemma_lookup_id_unique_entry(args: Seq<(ArgumentId, Seq<u8>)>, j: int)
    requires
        forall|a: int, b: int|
            0 <= a < b < args.len() ==> (#[trigger] args[a]).0 != (#[trigger] args[b]).0,
        0 <= j < args.len(),
    ensures
        lookup_id(args, args[j].0) == Some(args[j].1),
    decreases j,
{
    if j > 0 {
        assert(args[0].0 != args[j].0);
        assert(forall|k: int|
            0 <= k < args.skip(1).len() ==> #[trigger] args.skip(1)[k] == args[k + 1]);
        lemma_lookup_id_unique_entry(args.skip(1), j - 1);
    }
}

/// A successful value lookup comes from an entry of the table.
proof fn lemma_lookup_value_some_entry(args: Seq<(ArgumentId, Seq<u8>)>, v: Seq<u8>)
    requires
        lookup_value(args, v) is Some,
    ensures
        exists|j: int|
            0 <= j < args.len() && (#[trigger] args[j]).0 == lookup_value(args, v)->Some_0
                && args[j].1 == v,
    decreases args.len(),
{
    if args.len() > 0 {
        if args[0].1 == v {
            assert(args[0].0 == lookup_value(args, v)->Some_0 && args[0].1 == v);
        } else {
            lemma_lookup_value_some_entry(args.skip(1), v);
            let j0 = choose|j: int|
                0 <= j < args.skip(1).len() && (#[trigger] args.skip(1)[j]).0 == lookup_value(
                    args.skip(1),
                    v,
                )->Some_0 && args.skip(1)[j].1 == v;
            assert(args[j0 + 1] == args.skip(1)[j0]);
        }
    }
}

/// A successful value lookup in a table stays the same in any extension of it.
proof fn lemma_lookup_value_prefix_stable(
    short: Seq<(ArgumentId, Seq<u8>)>,
    long: Seq<(ArgumentId, Seq<u8>)>,
    v: Seq<u8>,
)
    requires
        short.len() <= long.len(),
        long.take(short.len() as int) == short,
        lookup_value(short, v) is Some,
    ensures
        lookup_value(long, v) == lookup_value(short, v),
    decreases short.len(),
{
    assert(forall|k: int| 0 <= k < short.len() ==> #[trigger] long[k] == long.take(
        short.len() as int,
    )[k]);
    if short[0].1 == v {
        assert(long[0] == short[0]);
    } else {
        assert(long[0] == short[0]);
        assert(long.skip(1).take(short.skip(1).len() as int) =~= short.skip(1));
        lemma_lookup_value_prefix_stable(short.skip(1), long.skip(1), v);
    }
}

/// A successful id lookup in a table stays the same in any extension of it.
proof fn lemma_lookup_id_prefix_stable(
    short: Seq<(ArgumentId, Seq<u8>)>,
    long: Seq<(ArgumentId, Seq<u8>)>,
    id: ArgumentId,
)
    requires
        short.len() <= long.len(),
        long.take(short.len() as int) == short,
        lookup_id(short, id) is Some,
    ensures
        lookup_id(long, id) == lookup_id(short, id),
    decreases short.len(),
{
    assert(forall|k: int| 0 <= k < short.len() ==> #[trigger] long[k] == long.take(
        short.len() as int,
    )[k]);
    if short[0].0 == id {
        assert(long[0] == short[0]);
    } else {
        assert(long[0] == short[0]);
        assert(long.skip(1).take(short.skip(1).len() as int) =~= short.skip(1));
        lemma_lookup_id_prefix_stable(short.skip(1), long.skip(1), id);
    }
}

/// Registering one buffer keeps the argument table's invariant and moves the
/// next id forward by at most one.
proof fn lemma_register_value_preserves_args_inv(
    args: Seq<(ArgumentId, Seq<u8>)>,
    next_id: u64,
    v: Seq<u8>,
)
    requires
        args_inv(args, next_id),
        next_id < u64::MAX,
    ensures
        ({
            let r = register_value_spec(args, next_id, v);
            &&& args_inv(r.1, r.2)
            &&& next_id <= r.2 <= next_id + 1
            &&& r.1.len() >= args.len()
            &&& r.1.take(args.len() as int) == args
            &&& forall|k: int|
                args.len() <= k < r.1.len() ==> (#[trigger] r.1[k]).0.0 >= next_id
            &&& lookup_id(r.1, r.0) == Some(v)
        }),
{
    let r = register_value_spec(args, next_id, v);
    match lookup_value(args, v) {
        Some(id) => {
            assert(r.1.take(args.len() as int) =~= args);
            lemma_lookup_value_some_entry(args, v);
            let j = choose|j: int|
                0 <= j < args.len() && (#[trigger] args[j]).0 == id && args[j].1 == v;
            lemma_lookup_id_unique_entry(args, j);
        },
        None => {
            assert(r.1.take(args.len() as int) =~= args);
            lemma_lookup_id_unique_entry(r.1, args.len() as int);
        },
    }
}

/// The length of the cut buffers equals the number of parameters.
pub proof fn lemma_slices_spec_len(bytes: Seq<u8>, params: Seq<SplitTypeParameterView>)
    ensures
        slices_spec(bytes, params).len() == params.len(),
    decreases params.len(),
{
    if params.len() > 0 {
        lemma_slices_spec_len(bytes.skip(param_size(params[0]) as int), params.skip(1));
    }
}

/// A packed argument struct never has negative size.
pub proof fn lemma_total_size_nonneg(params: Seq<SplitTypeParameterView>)
    ensures
        total_size(params) >= 0,
    decreases params.len(),
{
    if params.len() > 0 {
        lemma_total_size_nonneg(params.skip(1));
    }
}

/// The properties of registering a list of buffers in order: the table only
/// grows at the end, ids stay unique and fresh, each buffer's assigned id
/// maps back to exactly that buffer, and looking any of the buffers up by
/// value finds its assigned id.
pub proof fn lemma_register_values_properties(
    args: Seq<(ArgumentId, Seq<u8>)>,
    next_id: u64,
    values: Seq<Seq<u8>>,
)
    requires
        args_inv(args, next_id),
        next_id + values.len() <= u64::MAX,
    ensures
        ({
            let o = register_values_spec(args, next_id, values);
            &&& o.ids.len() == values.len()
            &&& next_id <= o.next_id <= next_id + values.len()
            &&& o.arguments.len() >= args.len()
            &&& o.arguments.take(args.len() as int) == args
            &&& args_inv(o.arguments, o.next_id)
            &&& forall|k: int|
                args.len() <= k < o.arguments.len() ==> (#[trigger] o.arguments[k]).0.0 >= next_id
            &&& forall|i: int|
                0 <= i < values.len() ==> lookup_id(o.arguments, #[trigger] o.ids[i]) == Some(
                    values[i],
                )
            &&& forall|i: int|
                0 <= i < values.len() ==> lookup_value(o.arguments, #[trigger] values[i]) == Some(
                    o.ids[i],
                )
        }),
    decreases values.len(),
{
    let o = register_values_spec(args, next_id, values);
    if values.len() == 0 {
        assert(o.arguments.take(args.len() as int) =~= args);
    } else {
        let first = register_value_spec(args, next_id, values[0]);
        let rest = register_values_spec(first.1, first.2, values.skip(1));
        lemma_register_value_preserves_args_inv(args, next_id, values[0]);
        lemma_register_values_properties(first.1, first.2, values.skip(1));
        assert(o.ids == seq![first.0] + rest.ids);
        assert(o.ids[0] == first.0);
        assert(forall|i: int| 1 <= i < o.ids.len() ==> #[trigger] o.ids[i] == rest.ids[i - 1]);
        assert(forall|i: int|
            1 <= i < values.len() ==> #[trigger] values[i] == values.skip(1)[i - 1]);

        // the table before this step is a prefix of the final table
        assert(rest.arguments.take(first.1.len() as int) == first.1);
        assert(o.arguments.take(args.len() as int) =~= args) by {
            assert(forall|k: int|
                0 <= k < first.1.len() ==> #[trigger] rest.arguments[k] == rest.arguments.take(
                    first.1.len() as int,
                )[k]);
            assert(forall|k: int|
                0 <= k < args.len() ==> #[trigger] first.1[k] == first.1.take(
                    args.len() as int,
                )[k]);
        }

        // the id assigned to the first buffer still maps to it afterwards
        assert(lookup_id(first.1, first.0) == Some(values[0]));
        lemma_lookup_id_prefix_stable(first.1, rest.arguments, first.0);
        assert(lookup_value(first.1, values[0]) == Some(first.0)) by {
            match lookup_value(args, values[0]) {
                Some(id) => {
                    lemma_lookup_value_prefix_stable(args, first.1, values[0]);
                },
                None => {
                    lemma_lookup_value_none_converse(args, values[0]);
                    assert(forall|j: int|
                        0 <= j < args.len() ==> (#[trigger] first.1[j]).1 != values[0]);
                    lemma_lookup_value_first(first.1, values[0], args.len() as int);
                },
            }
        }
        lemma_lookup_value_prefix_stable(first.1, rest.arguments, values[0]);

        // combine the head facts with the recursive ones
        assert forall|i: int| 0 <= i < values.len() implies lookup_id(
            o.arguments,
            #[trigger] o.ids[i],
        ) == Some(values[i]) by {
            if i >= 1 {
                assert(o.ids[i] == rest.ids[i - 1]);
                assert(values.skip(1)[i - 1] == values[i]);
            }
        }
        assert forall|i: int| 0 <= i < values.len() implies lookup_value(
            o.arguments,
            #[trigger] values[i],
        ) == Some(o.ids[i]) by {
            if i >= 1 {
                assert(o.ids[i] == rest.ids[i - 1]);
                assert(values.skip(1)[i - 1] == values[i]);
            }
        }
        assert forall|k: int|
            args.len() <= k < o.arguments.len() implies (#[trigger] o.arguments[k]).0.0
            >= next_id by {
            if k < first.1.len() {
                assert(o.arguments[k] == rest.arguments.take(first.1.len() as int)[k]);
                assert(o.arguments[k] == first.1[k]);
            } else {
                assert(o.arguments[k].0.0 >= first.2);
            }
        }
    }
}

/// A failed value lookup means no entry holds the buffer.
proof fn lemma_lookup_value_none_converse(args: Seq<(ArgumentId, Seq<u8>)>, v: Seq<u8>)
    requires
        lookup_value(args, v) is None,
    ensures
        forall|j: int| 0 <= j < args.len() ==> (#[trigger] args[j]).1 != v,
    decreases args.len(),
{
    if args.len() > 0 {
        lemma_lookup_value_none_converse(args.skip(1), v);
        assert forall|j: int| 0 <= j < args.len() implies (#[trigger] args[j]).1 != v by {
            if j >= 1 {
                assert(args[j] == args.skip(1)[j - 1]);
            }
        }
    }
}

} // verus!

