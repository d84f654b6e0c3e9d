//! The run-time: a stack of scope frames that hold variables, signals and
//! components, and the counters that name what is new.
//!
//! A frame is either inherited (a block: names that it lacks are looked up in
//! the frame below) or fresh (a call: it sees its own names only). The frame
//! at the bottom is fresh and is never popped.

use crate::ast::DataType;
use crate::names::{make_random_name, random_name};
use vstd::prelude::*;
use vstd::string::*;

verus! {

/// The id of the first signal that a run-time allocates. Constants take their
/// value as their id, so signals are numbered from the upper half of the ids.
pub const FIRST_SIGNAL_ID: u32 = 0x8000_0000;

/// The limit of a new run-time on the depth of calls and the length of loops.
pub const DEFAULT_LIMIT: u32 = 0xffff_ffff;

/// Why the run-time refused an operation.
#[derive(Clone, Copy, Debug, PartialEq, Eq)]
pub enum RuntimeError {
    /// The top frame already holds an item of this name.
    AlreadyDeclared,
    /// No frame in sight holds an item of this name, or a component no signal
    /// of this name.
    ItemNotDeclared,
    /// The item is not a variable.
    NotAVariable,
    /// The item is not a signal, or the access stops at a component.
    NotASignal,
    /// The item is not a component, or the access selects a field of
    /// something that has none.
    NotAComponent,
    /// The indices do not fit the item's dimensions.
    OutOfBounds,
    /// The frame to pop is the bottom one, or not of the kind that was named.
    UnbalancedPop,
    /// An item would have more than 2^32 - 1 leaves, or a counter is used up.
    CapacityExceeded,
}

/// One step of an access: an index into an array, or a signal of a component.
#[derive(Debug, PartialEq, Eq)]
pub enum SubAccess {
    Array(u32),
    Component(String),
}

/// A `SubAccess` as a mathematical value.
pub enum SubAccessView {
    Array(u32),
    Component(Seq<char>),
}

impl View for SubAccess {
    type V = SubAccessView;

    open spec fn view(&self) -> SubAccessView {
        match self {
            SubAccess::Array(i) => SubAccessView::Array(*i),
            SubAccess::Component(s) => SubAccessView::Component(s@),
        }
    }
}

/// The views of a list of steps.
pub open spec fn path_view(steps: Seq<SubAccess>) -> Seq<SubAccessView> {
    steps.map_values(|s: SubAccess| s@)
}

/// The address of a leaf: the name of an item and the steps into it.
#[derive(Debug, PartialEq, Eq)]
pub struct DataAccess {
    name: String,
    access: Vec<SubAccess>,
}

/// A `DataAccess` as a mathematical value.
pub struct AccessView {
    pub name: Seq<char>,
    pub path: Seq<SubAccessView>,
}

impl View for DataAccess {
    type V = AccessView;

    closed spec fn view(&self) -> AccessView {
        AccessView { name: self.name@, path: path_view(self.access@) }
    }
}

impl DataAccess {
    /// The access to `name` through `access`.
    pub fn new(name: &str, access: Vec<SubAccess>) -> (a: DataAccess)
        ensures
            a@ == (AccessView { name: name@, path: path_view(access@) }),
    {
        DataAccess { name: String::from_str(name), access }
    }

    /// The name of the item.
    pub fn get_name(&self) -> (name: &str)
        ensures
            name@ == self@.name,
    {
        self.name.as_str()
    }

    /// The steps into the item.
    pub fn get_access(&self) -> (access: &Vec<SubAccess>)
        ensures
            path_view(access@) == self@.path,
    {
        &self.access
    }

    /// Replaces the steps into the item.
    pub fn set_access(&mut self, access: Vec<SubAccess>)
        ensures
            final(self)@ == (AccessView { name: old(self)@.name, path: path_view(access@) }),
    {
        self.access = access;
    }
}

/// The number of leaves of an array of dimensions `dims`: their product.
pub open spec fn volume(dims: Seq<u32>) -> nat
    decreases dims.len(),
{
    if dims.len() == 0 {
        1
    } else {
        volume(dims.drop_last()) * dims.last() as nat
    }
}

/// The row-major position of the leaf at `idx` in an array of dimensions
/// `dims`: the last index varies fastest.
pub open spec fn flat_index(dims: Seq<u32>, idx: Seq<u32>) -> nat
    decreases dims.len(),
{
    if dims.len() == 0 || idx.len() != dims.len() {
        0
    } else {
        flat_index(dims.drop_last(), idx.drop_last()) * dims.last() as nat + idx.last() as nat
    }
}

/// Whether `idx` names a leaf of an array of dimensions `dims`.
pub open spec fn in_bounds(dims: Seq<u32>, idx: Seq<u32>) -> bool {
    &&& idx.len() == dims.len()
    &&& forall|k: int| 0 <= k < dims.len() ==> idx[k] < dims[k]
}

/// The indices that `path` spells, if all its steps are indices.
pub open spec fn array_indices(path: Seq<SubAccessView>) -> Option<Seq<u32>> {
    if forall|k: int| 0 <= k < path.len() ==> #[trigger] path[k] is Array {
        Some(Seq::new(path.len(), |k: int| path[k]->Array_0))
    } else {
        None
    }
}

/// The position of the leaf that `path` selects in an array of dimensions
/// `dims`.
pub open spec fn leaf_of(dims: Seq<u32>, path: Seq<SubAccessView>) -> Result<int, RuntimeError> {
    match array_indices(path) {
        None => Err(RuntimeError::NotAComponent),
        Some(idx) => if in_bounds(dims, idx) {
            Ok(flat_index(dims, idx) as int)
        } else {
            Err(RuntimeError::OutOfBounds)
        },
    }
}

/// The position of the first step at or after `from` that selects a signal
/// of a component.
pub open spec fn first_component(path: Seq<SubAccessView>, from: int) -> Option<int>
    decreases path.len() - from,
{
    if from < 0 || from >= path.len() {
        None
    } else if path[from] is Component {
        Some(from)
    } else {
        first_component(path, from + 1)
    }
}

/// A leaf of an array lies within it.
pub proof fn lemma_flat_index_bound(dims: Seq<u32>, idx: Seq<u32>)
    requires
        in_bounds(dims, idx),
    ensures
        flat_index(dims, idx) < volume(dims),
    decreases dims.len(),
{
    if dims.len() > 0 {
        let d = dims.drop_last();
        let i = idx.drop_last();
        assert(in_bounds(d, i)) by {
            assert forall|k: int| 0 <= k < d.len() implies i[k] < d[k] by {
                assert(idx[k] < dims[k]);
            }
        }
        lemma_flat_index_bound(d, i);
        let a = flat_index(d, i) as int;
        let v = volume(d) as int;
        let n = dims.last() as int;
        let x = idx.last() as int;
        assert(idx[dims.len() - 1] < dims[dims.len() - 1]);
        assert(a * n + x < v * n) by (nonlinear_arith)
            requires
                0 <= a < v,
                0 <= x < n,
        ;
    }
}

/// The volume of the first `k + 1` dimensions.
pub proof fn lemma_volume_step(dims: Seq<u32>, k: int)
    requires
        0 <= k < dims.len(),
    ensures
        volume(dims.take(k + 1)) == volume(dims.take(k)) * dims[k] as nat,
        volume(dims.take(dims.len() as int)) == volume(dims),
{
    assert(dims.take(k + 1).drop_last() =~= dims.take(k));
    assert(dims.take(dims.len() as int) =~= dims);
}

/// The position within the first `k + 1` dimensions.
pub proof fn lemma_flat_index_step(dims: Seq<u32>, idx: Seq<u32>, k: int)
    requires
        0 <= k < dims.len(),
        idx.len() == dims.len(),
    ensures
        flat_index(dims.take(k + 1), idx.take(k + 1)) == flat_index(dims.take(k), idx.take(k))
            * dims[k] as nat + idx[k] as nat,
        flat_index(dims.take(dims.len() as int), idx.take(dims.len() as int)) == flat_index(
            dims,
            idx,
        ),
{
    assert(dims.take(k + 1).drop_last() =~= dims.take(k));
    assert(idx.take(k + 1).drop_last() =~= idx.take(k));
    assert(dims.take(dims.len() as int) =~= dims);
    assert(idx.take(dims.len() as int) =~= idx);
}

/// An array with an empty dimension has no leaves.
pub proof fn lemma_volume_zero(dims: Seq<u32>, k: int)
    requires
        0 <= k < dims.len(),
        dims[k] == 0,
    ensures
        volume(dims) == 0,
    decreases dims.len(),
{
    if k == dims.len() - 1 {
        assert(volume(dims.drop_last()) * 0 == 0);
    } else {
        lemma_volume_zero(dims.drop_last(), k);
        assert(0 * dims.last() as nat == 0);
    }
}

/// Without an empty dimension, a part of an array is no larger than the
/// whole.
pub proof fn lemma_volume_prefix(dims: Seq<u32>, k: int)
    requires
        0 <= k <= dims.len(),
        forall|j: int| 0 <= j < dims.len() ==> dims[j] >= 1,
    ensures
        1 <= volume(dims.take(k)) <= volume(dims),
    decreases dims.len() - k,
{
    if k == dims.len() {
        assert(dims.take(k) =~= dims);
        lemma_volume_positive(dims);
    } else {
        lemma_volume_prefix(dims, k + 1);
        lemma_volume_step(dims, k);
        lemma_volume_positive(dims.take(k));
        let a = volume(dims.take(k)) as int;
        let d = dims[k] as int;
        assert(a <= a * d) by (nonlinear_arith)
            requires
                a >= 1,
                d >= 1,
        ;
    }
}

/// Without an empty dimension, an array has a leaf.
pub proof fn lemma_volume_positive(dims: Seq<u32>)
    requires
        forall|j: int| 0 <= j < dims.len() ==> dims[j] >= 1,
    ensures
        volume(dims) >= 1,
    decreases dims.len(),
{
    if dims.len() > 0 {
        lemma_volume_positive(dims.drop_last());
        let a = volume(dims.drop_last()) as int;
        let d = dims.last() as int;
        assert(a * d >= 1) by (nonlinear_arith)
            requires
                a >= 1,
                d >= 1,
        ;
    }
}

/// The record of a declared signal: its dimensions and the ids of its leaves
/// in row-major order.
#[derive(Debug, PartialEq, Eq)]
pub struct Signal {
    dims: Vec<u32>,
    ids: Vec<u32>,
}

/// A `Signal` as a mathematical value.
pub struct SignalView {
    pub dims: Seq<u32>,
    pub ids: Seq<u32>,
}

impl View for Signal {
    type V = SignalView;

    closed spec fn view(&self) -> SignalView {
        SignalView { dims: self.dims@, ids: self.ids@ }
    }
}

impl SignalView {
    /// A signal has one id for each leaf.
    pub open spec fn well_formed(self) -> bool {
        self.ids.len() == volume(self.dims) && volume(self.dims) <= u32::MAX
    }
}

/// A copy of a list of numbers.
pub fn copy_u32s(v: &[u32]) -> (r: Vec<u32>)
    ensures
        r@ == v@,
{
    let mut r: Vec<u32> = Vec::new();
    let mut i: usize = 0;
    while i < v.len()
        invariant
            i <= v.len(),
            r@ == v@.take(i as int),
        decreases v.len() - i,
    {
        r.push(v[i]);
        assert(r@ =~= v@.take(i + 1));
        i += 1;
    }
    assert(v@.take(v.len() as int) =~= v@);
    r
}

impl Signal {
    #[verifier::type_invariant]
    spec fn inv(self) -> bool {
        self@.well_formed()
    }

    /// The dimensions of the signal.
    pub fn dims(&self) -> (r: &Vec<u32>)
        ensures
            r@ == self@.dims,
    {
        &self.dims
    }

    /// The ids of the leaves, in row-major order.
    pub fn ids(&self) -> (r: &Vec<u32>)
        ensures
            r@ == self@.ids,
    {
        &self.ids
    }

    /// A copy of the record.
    pub fn duplicate(&self) -> (r: Signal)
        ensures
            r@ == self@,
    {
        proof {
            use_type_invariant(self);
        }
        Signal { dims: copy_u32s(self.dims.as_slice()), ids: copy_u32s(self.ids.as_slice()) }
    }
}

/// A signal of a component, under its name in the template.
#[derive(Debug, PartialEq, Eq)]
pub struct Binding {
    name: String,
    signal: Signal,
}

/// A `Binding` as a mathematical value.
pub struct BindingView {
    pub name: Seq<char>,
    pub signal: SignalView,
}

impl View for Binding {
    type V = BindingView;

    closed spec fn view(&self) -> BindingView {
        BindingView { name: self.name@, signal: self.signal@ }
    }
}

/// The views of a list of bindings.
pub open spec fn bindings_view(bindings: Seq<Binding>) -> Seq<BindingView> {
    bindings.map_values(|b: Binding| b@)
}

/// The position of the first binding at or after `from` that is called
/// `name`.
pub open spec fn find_binding(bindings: Seq<BindingView>, name: Seq<char>, from: int) -> Option<
    int,
>
    decreases bindings.len() - from,
{
    if from < 0 || from >= bindings.len() {
        None
    } else if bindings[from].name == name {
        Some(from)
    } else {
        find_binding(bindings, name, from + 1)
    }
}

impl Binding {
    /// The signal `signal` under the name `name`.
    pub fn new(name: &str, signal: Signal) -> (b: Binding)
        ensures
            b@ == (BindingView { name: name@, signal: signal@ }),
    {
        Binding { name: String::from_str(name), signal }
    }

    /// The name of the signal in its template.
    pub fn name(&self) -> (r: &str)
        ensures
            r@ == self@.name,
    {
        self.name.as_str()
    }

    /// The record of the signal.
    pub fn signal(&self) -> (r: &Signal)
        ensures
            r@ == self@.signal,
    {
        &self.signal
    }

    /// A copy of the binding.
    pub fn duplicate(&self) -> (r: Binding)
        ensures
            r@ == self@,
    {
        Binding { name: self.name.clone(), signal: self.signal.duplicate() }
    }
}

/// The views of a list that grew by one.
pub proof fn lemma_bindings_view_push(s: Seq<Binding>, b: Binding)
    ensures
        bindings_view(s.push(b)) == bindings_view(s).push(b@),
{
    assert(bindings_view(s.push(b)) =~= bindings_view(s).push(b@));
}

/// A copy of a list of bindings.
pub fn copy_bindings(v: &Vec<Binding>) -> (r: Vec<Binding>)
    ensures
        bindings_view(r@) == bindings_view(v@),
{
    let mut r: Vec<Binding> = Vec::new();
    let mut i: usize = 0;
    while i < v.len()
        invariant
            i <= v.len(),
            bindings_view(r@) == bindings_view(v@.take(i as int)),
        decreases v.len() - i,
    {
        let b = v[i].duplicate();
        proof {
            lemma_bindings_view_push(r@, b);
            lemma_bindings_view_push(v@.take(i as int), v@[i as int]);
            assert(v@.take(i + 1) =~= v@.take(i as int).push(v@[i as int]));
        }
        r.push(b);
        i += 1;
    }
    assert(v@.take(v.len() as int) =~= v@);
    r
}

/// What an item holds, leaf by leaf in row-major order.
#[derive(Debug, PartialEq, Eq)]
pub enum Content {
    /// The values of a variable; `None` where none was assigned yet.
    Variable(Vec<Option<u32>>),
    /// The ids of a signal.
    Signal(Vec<u32>),
    /// The signals of each instance of a component.
    Component(Vec<Vec<Binding>>),
}

/// A `Content` as a mathematical value.
pub enum ContentView {
    Variable(Seq<Option<u32>>),
    Signal(Seq<u32>),
    Component(Seq<Seq<BindingView>>),
}

/// The views of the leaves of a component.
pub open spec fn leaves_view(leaves: Seq<Vec<Binding>>) -> Seq<Seq<BindingView>> {
    leaves.map_values(|l: Vec<Binding>| bindings_view(l@))
}

impl View for Content {
    type V = ContentView;

    open spec fn view(&self) -> ContentView {
        match self {
            Content::Variable(values) => ContentView::Variable(values@),
            Content::Signal(ids) => ContentView::Signal(ids@),
            Content::Component(leaves) => ContentView::Component(leaves_view(leaves@)),
        }
    }
}

/// A named entry of a frame.
#[derive(Debug, PartialEq, Eq)]
pub struct Item {
    name: String,
    dims: Vec<u32>,
    content: Content,
}

/// An `Item` as a mathematical value.
pub struct ItemView {
    pub name: Seq<char>,
    pub dims: Seq<u32>,
    pub content: ContentView,
}

impl View for Item {
    type V = ItemView;

    closed spec fn view(&self) -> ItemView {
        ItemView { name: self.name@, dims: self.dims@, content: self.content@ }
    }
}

impl ItemView {
    /// The number of leaves that the item holds.
    pub open spec fn leaves(self) -> nat {
        match self.content {
            ContentView::Variable(values) => values.len(),
            ContentView::Signal(ids) => ids.len(),
            ContentView::Component(leaves) => leaves.len(),
        }
    }

    /// An item holds one leaf for each position of its dimensions.
    pub open spec fn well_formed(self) -> bool {
        volume(self.dims) <= u32::MAX && self.leaves() == volume(self.dims)
    }

    /// Whether the item is a variable, a signal or a component.
    pub open spec fn data_type(self) -> DataType {
        match self.content {
            ContentView::Variable(_) => DataType::Variable,
            ContentView::Signal(_) => DataType::Signal,
            ContentView::Component(_) => DataType::Component,
        }
    }
}

/// The views of a list of items.
pub open spec fn items_view(items: Seq<Item>) -> Seq<ItemView> {
    items.map_values(|i: Item| i@)
}

/// The position of the first item at or after `from` that is called `name`.
pub open spec fn find_item(items: Seq<ItemView>, name: Seq<char>, from: int) -> Option<int>
    decreases items.len() - from,
{
    if from < 0 || from >= items.len() {
        None
    } else if items[from].name == name {
        Some(from)
    } else {
        find_item(items, name, from + 1)
    }
}

/// No two items have the same name.
pub open spec fn names_distinct(items: Seq<ItemView>) -> bool {
    forall|i: int, j: int|
        0 <= i < j < items.len() ==> (#[trigger] items[i]).name != (#[trigger] items[j]).name
}

/// What `find_item` finds is called `name`; what it does not find is not
/// there.
pub proof fn lemma_find_item(items: Seq<ItemView>, name: Seq<char>, from: int)
    requires
        0 <= from,
    ensures
        match find_item(items, name, from) {
            Some(i) => from <= i < items.len() && items[i].name == name,
            None => forall|j: int| from <= j < items.len() ==> (#[trigger] items[j]).name != name,
        },
    decreases items.len() - from,
{
    if from < items.len() && items[from].name != name {
        lemma_find_item(items, name, from + 1);
    }
}

/// A scope frame.
#[derive(Debug, PartialEq, Eq)]
pub struct Context {
    inherited: bool,
    items: Vec<Item>,
}

/// A `Context` as a mathematical value.
pub struct FrameView {
    pub inherited: bool,
    pub items: Seq<ItemView>,
}

impl View for Context {
    type V = FrameView;

    closed spec fn view(&self) -> FrameView {
        FrameView { inherited: self.inherited, items: items_view(self.items@) }
    }
}

impl FrameView {
    /// The items of a frame are well formed and have different names.
    pub open spec fn well_formed(self) -> bool {
        &&& forall|i: int| 0 <= i < self.items.len() ==> (#[trigger] self.items[i]).well_formed()
        &&& names_distinct(self.items)
    }
}

/// The views of a list of frames.
pub open spec fn frames_view(frames: Seq<Context>) -> Seq<FrameView> {
    frames.map_values(|f: Context| f@)
}

/// Where `name` is found, looking from the frame `top` down: the frame and
/// the position in it. The search goes down from a frame only if that frame
/// is inherited.
pub open spec fn resolve(frames: Seq<FrameView>, top: int, name: Seq<char>) -> Option<(int, int)>
    decreases top,
{
    if top < 0 || top >= frames.len() {
        None
    } else {
        match find_item(frames[top].items, name, 0) {
            Some(i) => Some((top, i)),
            None => if frames[top].inherited && top > 0 {
                resolve(frames, top - 1, name)
            } else {
                None
            },
        }
    }
}

/// What `resolve` finds is an item called `name`.
pub proof fn lemma_resolve(frames: Seq<FrameView>, top: int, name: Seq<char>)
    ensures
        resolve(frames, top, name) matches Some((f, i)) ==> 0 <= f <= top && f < frames.len() && 0
            <= i < frames[f].items.len() && frames[f].items[i].name == name,
    decreases top,
{
    if 0 <= top < frames.len() {
        lemma_find_item(frames[top].items, name, 0);
        if find_item(frames[top].items, name, 0) is None && frames[top].inherited && top > 0 {
            lemma_resolve(frames, top - 1, name);
        }
    }
}

/// The position of the frame that bounds what is in sight from the frame
/// `top`: the topmost fresh frame at or below it.
pub open spec fn scope_base(frames: Seq<FrameView>, top: int) -> int
    decreases top,
{
    if top <= 0 {
        0
    } else if !frames[top].inherited {
        top
    } else {
        scope_base(frames, top - 1)
    }
}

/// The bounding frame lies at or below the frame from which it is sought.
pub proof fn lemma_scope_base_range(frames: Seq<FrameView>, top: int)
    requires
        0 <= top,
    ensures
        0 <= scope_base(frames, top) <= top,
    decreases top,
{
    if top > 0 && frames[top].inherited {
        lemma_scope_base_range(frames, top - 1);
    }
}

/// The bounding frame depends on the kinds of the frames only.
pub proof fn lemma_scope_base_kinds(f1: Seq<FrameView>, f2: Seq<FrameView>, top: int)
    requires
        top < f1.len(),
        top < f2.len(),
        forall|i: int| 0 <= i <= top ==> (#[trigger] f2[i]).inherited == f1[i].inherited,
    ensures
        scope_base(f1, top) == scope_base(f2, top),
    decreases top,
{
    if top > 0 {
        assert(f2[top].inherited == f1[top].inherited);
        if f1[top].inherited {
            lemma_scope_base_kinds(f1, f2, top - 1);
        }
    }
}

/// Nothing is found below the bounding frame.
pub proof fn lemma_resolve_above_base(frames: Seq<FrameView>, top: int, name: Seq<char>)
    ensures
        resolve(frames, top, name) matches Some((f, i)) ==> f >= scope_base(frames, top),
    decreases top,
{
    if 0 <= top < frames.len() {
        if find_item(frames[top].items, name, 0) is None && frames[top].inherited && top > 0 {
            lemma_resolve_above_base(frames, top - 1, name);
        } else if find_item(frames[top].items, name, 0) is Some {
            lemma_scope_base_range(frames, top);
        }
    }
}

/// What a step of the interpreter may do to the run-time: it keeps the
/// limit, lets the counters grow, leaves every frame below the bounding
/// frame as it was and every frame of its kind, and takes no frame away. A
/// step that went well (`ok`) leaves as many frames as it found.
pub open spec fn confined(before: RuntimeView, after: RuntimeView, ok: bool) -> bool {
    let b = scope_base(before.frames, before.top());
    &&& after.limit == before.limit
    &&& after.next_name >= before.next_name
    &&& after.next_signal_id >= before.next_signal_id
    &&& after.frames.len() >= before.frames.len()
    &&& forall|i: int| 0 <= i < b ==> (#[trigger] after.frames[i]) == before.frames[i]
    &&& forall|i: int|
        0 <= i < before.frames.len() ==> (#[trigger] after.frames[i]).inherited
            == before.frames[i].inherited
    &&& ok ==> after.frames.len() == before.frames.len() && scope_base(
        after.frames,
        after.top(),
    ) == b
}

/// A run-time as a mathematical value.
pub struct RuntimeView {
    /// The frames, the bottom one first.
    pub frames: Seq<FrameView>,
    /// The id of the next signal.
    pub next_signal_id: u32,
    /// The number of the next synthetic name.
    pub next_name: u32,
    /// The limit on the depth of calls and the length of loops.
    pub limit: u32,
}

impl RuntimeView {
    /// The run-time's invariant: there is a bottom frame, it is fresh, and
    /// every frame is well formed.
    pub open spec fn well_formed(self) -> bool {
        &&& self.frames.len() >= 1
        &&& !self.frames[0].inherited
        &&& forall|f: int| 0 <= f < self.frames.len() ==> (#[trigger] self.frames[f]).well_formed()
    }

    /// A new run-time with the limit `limit`.
    pub open spec fn initial(limit: u32) -> RuntimeView {
        RuntimeView {
            frames: seq![FrameView { inherited: false, items: Seq::empty() }],
            next_signal_id: FIRST_SIGNAL_ID,
            next_name: 0,
            limit,
        }
    }

    /// The position of the top frame.
    pub open spec fn top(self) -> int {
        self.frames.len() - 1
    }

    /// Where `name` is in sight of the top frame.
    pub open spec fn locate(self, name: Seq<char>) -> Option<(int, int)> {
        resolve(self.frames, self.top(), name)
    }

    /// The run-time with the item at position `i` of frame `f` replaced.
    pub open spec fn with_item(self, f: int, i: int, item: ItemView) -> RuntimeView {
        RuntimeView {
            frames: self.frames.update(
                f,
                FrameView { items: self.frames[f].items.update(i, item), ..self.frames[f] },
            ),
            ..self
        }
    }

    /// The run-time with `item` added to the top frame.
    pub open spec fn with_new_item(self, item: ItemView) -> RuntimeView {
        RuntimeView {
            frames: self.frames.update(
                self.top(),
                FrameView {
                    items: self.frames[self.top()].items.push(item),
                    ..self.frames[self.top()]
                },
            ),
            ..self
        }
    }

    /// The run-time after entering a scope.
    #[verifier::opaque]
    pub open spec fn push_context(self, inherit: bool) -> RuntimeView {
        RuntimeView {
            frames: self.frames.push(FrameView { inherited: inherit, items: Seq::empty() }),
            ..self
        }
    }

    /// The run-time after leaving a scope of the kind `inherit`.
    #[verifier::opaque]
    pub open spec fn pop_context(self, inherit: bool) -> Result<RuntimeView, RuntimeError> {
        if self.frames.len() <= 1 || self.frames.last().inherited != inherit {
            Err(RuntimeError::UnbalancedPop)
        } else {
            Ok(RuntimeView { frames: self.frames.drop_last(), ..self })
        }
    }

    /// The run-time after taking the next number for a synthetic name, and
    /// that number.
    #[verifier::opaque]
    pub open spec fn generate(self) -> Result<(RuntimeView, u32), RuntimeError> {
        if self.next_name == u32::MAX {
            Err(RuntimeError::CapacityExceeded)
        } else {
            Ok((RuntimeView { next_name: (self.next_name + 1) as u32, ..self }, self.next_name))
        }
    }

    /// The run-time after declaring `name` in the top frame. A variable
    /// starts without values, a component without signals; the leaves of a
    /// signal take the next ids, in row-major order.
    #[verifier::opaque]
    pub open spec fn declare_item(self, data_type: DataType, name: Seq<char>, dims: Seq<u32>)
        -> Result<RuntimeView, RuntimeError> {
        let count = volume(dims);
        if find_item(self.frames[self.top()].items, name, 0) is Some {
            Err(RuntimeError::AlreadyDeclared)
        } else if count > u32::MAX {
            Err(RuntimeError::CapacityExceeded)
        } else {
            match data_type {
                DataType::Variable => Ok(
                    self.with_new_item(
                        ItemView {
                            name,
                            dims,
                            content: ContentView::Variable(
                                Seq::new(count, |k: int| None::<u32>),
                            ),
                        },
                    ),
                ),
                DataType::Component => Ok(
                    self.with_new_item(
                        ItemView {
                            name,
                            dims,
                            content: ContentView::Component(
                                Seq::new(count, |k: int| Seq::<BindingView>::empty()),
                            ),
                        },
                    ),
                ),
                DataType::Signal => if self.next_signal_id + count > u32::MAX {
                    Err(RuntimeError::CapacityExceeded)
                } else {
                    Ok(
                        RuntimeView {
                            next_signal_id: (self.next_signal_id + count) as u32,
                            ..self.with_new_item(
                                ItemView {
                                    name,
                                    dims,
                                    content: ContentView::Signal(
                                        Seq::new(
                                            count,
                                            |k: int| (self.next_signal_id + k) as u32,
                                        ),
                                    ),
                                },
                            )
                        },
                    )
                },
            }
        }
    }

    /// The run-time after declaring an anonymous scalar item, and the access
    /// to it.
    #[verifier::opaque]
    pub open spec fn declare_random_item(self, data_type: DataType) -> Result<
        (RuntimeView, AccessView),
        RuntimeError,
    > {
        if self.next_name == u32::MAX {
            Err(RuntimeError::CapacityExceeded)
        } else {
            let name = random_name(self.next_name);
            match self.declare_item(data_type, name, Seq::empty()) {
                Err(e) => Err(e),
                Ok(rt) => Ok(
                    (
                        RuntimeView { next_name: (self.next_name + 1) as u32, ..rt },
                        AccessView { name, path: Seq::empty() },
                    ),
                ),
            }
        }
    }

    /// The type of the item called `name`.
    #[verifier::opaque]
    pub open spec fn get_item_data_type(self, name: Seq<char>) -> Result<DataType, RuntimeError> {
        match self.locate(name) {
            None => Err(RuntimeError::ItemNotDeclared),
            Some((f, i)) => Ok(self.frames[f].items[i].data_type()),
        }
    }

    /// Whether `name` is in sight and names a variable.
    pub open spec fn is_variable(self, name: Seq<char>) -> bool {
        self.get_item_data_type(name) == Ok::<DataType, RuntimeError>(DataType::Variable)
    }

    /// The value of the variable leaf at `a`.
    #[verifier::opaque]
    pub open spec fn get_variable_value(self, a: AccessView) -> Result<Option<u32>, RuntimeError> {
        match self.locate(a.name) {
            None => Err(RuntimeError::ItemNotDeclared),
            Some((f, i)) => {
                let item = self.frames[f].items[i];
                match item.content {
                    ContentView::Variable(values) => match leaf_of(item.dims, a.path) {
                        Err(e) => Err(e),
                        Ok(k) => Ok(values[k]),
                    },
                    _ => Err(RuntimeError::NotAVariable),
                }
            },
        }
    }

    /// The run-time after writing `value` to the variable leaf at `a`.
    #[verifier::opaque]
    pub open spec fn set_variable(self, a: AccessView, value: Option<u32>) -> Result<
        RuntimeView,
        RuntimeError,
    > {
        match self.locate(a.name) {
            None => Err(RuntimeError::ItemNotDeclared),
            Some((f, i)) => {
                let item = self.frames[f].items[i];
                match item.content {
                    ContentView::Variable(values) => match leaf_of(item.dims, a.path) {
                        Err(e) => Err(e),
                        Ok(k) => Ok(
                            self.with_item(
                                f,
                                i,
                                ItemView {
                                    content: ContentView::Variable(values.update(k, value)),
                                    ..item
                                },
                            ),
                        ),
                    },
                    _ => Err(RuntimeError::NotAVariable),
                }
            },
        }
    }

    /// The id of the signal leaf at `a`.
    #[verifier::opaque]
    pub open spec fn get_signal_id(self, a: AccessView) -> Result<u32, RuntimeError> {
        match self.locate(a.name) {
            None => Err(RuntimeError::ItemNotDeclared),
            Some((f, i)) => {
                let item = self.frames[f].items[i];
                match item.content {
                    ContentView::Signal(ids) => match leaf_of(item.dims, a.path) {
                        Err(e) => Err(e),
                        Ok(k) => Ok(ids[k]),
                    },
                    _ => Err(RuntimeError::NotASignal),
                }
            },
        }
    }

    /// The record of the signal called `name`.
    #[verifier::opaque]
    pub open spec fn get_signal(self, name: Seq<char>) -> Result<SignalView, RuntimeError> {
        match self.locate(name) {
            None => Err(RuntimeError::ItemNotDeclared),
            Some((f, i)) => {
                let item = self.frames[f].items[i];
                match item.content {
                    ContentView::Signal(ids) => Ok(SignalView { dims: item.dims, ids }),
                    _ => Err(RuntimeError::NotASignal),
                }
            },
        }
    }

    /// The signals of the component leaf at `a`.
    #[verifier::opaque]
    pub open spec fn get_component_map(self, a: AccessView) -> Result<
        Seq<BindingView>,
        RuntimeError,
    > {
        match self.locate(a.name) {
            None => Err(RuntimeError::ItemNotDeclared),
            Some((f, i)) => {
                let item = self.frames[f].items[i];
                match item.content {
                    ContentView::Component(leaves) => match leaf_of(item.dims, a.path) {
                        Err(e) => Err(e),
                        Ok(k) => Ok(leaves[k]),
                    },
                    _ => Err(RuntimeError::NotAComponent),
                }
            },
        }
    }

    /// The run-time after giving the component leaf at `a` the signals
    /// `bindings`.
    #[verifier::opaque]
    pub open spec fn set_component(self, a: AccessView, bindings: Seq<BindingView>) -> Result<
        RuntimeView,
        RuntimeError,
    > {
        match self.locate(a.name) {
            None => Err(RuntimeError::ItemNotDeclared),
            Some((f, i)) => {
                let item = self.frames[f].items[i];
                match item.content {
                    ContentView::Component(leaves) => match leaf_of(item.dims, a.path) {
                        Err(e) => Err(e),
                        Ok(k) => Ok(
                            self.with_item(
                                f,
                                i,
                                ItemView {
                                    content: ContentView::Component(leaves.update(k, bindings)),
                                    ..item
                                },
                            ),
                        ),
                    },
                    _ => Err(RuntimeError::NotAComponent),
                }
            },
        }
    }

    /// The id that `a` selects in a component: the steps before the first
    /// name select the instance, the name selects the signal, and the steps
    /// after it select the leaf.
    #[verifier::opaque]
    pub open spec fn get_component_signal_id(self, a: AccessView) -> Result<u32, RuntimeError> {
        match self.locate(a.name) {
            None => Err(RuntimeError::ItemNotDeclared),
            Some((f, i)) => {
                let item = self.frames[f].items[i];
                match item.content {
                    ContentView::Component(leaves) => match first_component(a.path, 0) {
                        None => Err(RuntimeError::NotASignal),
                        Some(k) => match leaf_of(item.dims, a.path.take(k)) {
                            Err(e) => Err(e),
                            Ok(leaf) => match find_binding(
                                leaves[leaf],
                                a.path[k]->Component_0,
                                0,
                            ) {
                                None => Err(RuntimeError::ItemNotDeclared),
                                Some(b) => {
                                    let signal = leaves[leaf][b].signal;
                                    match leaf_of(signal.dims, a.path.skip(k + 1)) {
                                        Err(e) => Err(e),
                                        Ok(j) => Ok(signal.ids[j]),
                                    }
                                },
                            },
                        },
                    },
                    _ => Err(RuntimeError::NotAComponent),
                }
            },
        }
    }
}

/// The views of a list of items that grew by one.
pub proof fn lemma_items_view_push(items: Seq<Item>, item: Item)
    ensures
        items_view(items.push(item)) == items_view(items).push(item@),
{
    assert(items_view(items.push(item)) =~= items_view(items).push(item@));
}

/// The views of a list of items of which one was replaced.
pub proof fn lemma_items_view_update(items: Seq<Item>, i: int, item: Item)
    requires
        0 <= i < items.len(),
    ensures
        items_view(items.update(i, item)) == items_view(items).update(i, item@),
{
    assert(items_view(items.update(i, item)) =~= items_view(items).update(i, item@));
}

/// The views of a list of frames of which one was replaced.
pub proof fn lemma_frames_view_update(frames: Seq<Context>, f: int, frame: Context)
    requires
        0 <= f < frames.len(),
    ensures
        frames_view(frames.update(f, frame)) == frames_view(frames).update(f, frame@),
{
    assert(frames_view(frames.update(f, frame)) =~= frames_view(frames).update(f, frame@));
}

/// Adding a well-formed item under a new name keeps the run-time well formed.
pub proof fn lemma_with_new_item_well_formed(rt: RuntimeView, item: ItemView)
    requires
        rt.well_formed(),
        item.well_formed(),
        find_item(rt.frames[rt.top()].items, item.name, 0) is None,
    ensures
        rt.with_new_item(item).well_formed(),
{
    let after = rt.with_new_item(item);
    let old_items = rt.frames[rt.top()].items;
    lemma_find_item(old_items, item.name, 0);
    assert forall|f: int| 0 <= f < after.frames.len() implies (
    #[trigger] after.frames[f]).well_formed() by {
        assert(rt.frames[f].well_formed());
        if f == rt.top() {
            let items = after.frames[f].items;
            assert forall|i: int| 0 <= i < items.len() implies (#[trigger] items[i]).well_formed() by {
                if i < old_items.len() {
                    assert(old_items[i].well_formed());
                }
            }
            assert forall|i: int, j: int| 0 <= i < j < items.len() implies (
            #[trigger] items[i]).name != (#[trigger] items[j]).name by {
                if j < old_items.len() {
                    assert(old_items[i].name != old_items[j].name);
                } else {
                    assert(old_items[i].name != item.name);
                }
            }
        }
    }
}

/// Replacing an item by a well-formed one of the same name keeps the
/// run-time well formed.
pub proof fn lemma_with_item_well_formed(rt: RuntimeView, f: int, i: int, item: ItemView)
    requires
        rt.well_formed(),
        0 <= f < rt.frames.len(),
        0 <= i < rt.frames[f].items.len(),
        item.well_formed(),
        item.name == rt.frames[f].items[i].name,
    ensures
        rt.with_item(f, i, item).well_formed(),
{
    let after = rt.with_item(f, i, item);
    let old_items = rt.frames[f].items;
    assert forall|g: int| 0 <= g < after.frames.len() implies (
    #[trigger] after.frames[g]).well_formed() by {
        assert(rt.frames[g].well_formed());
        if g == f {
            let items = after.frames[g].items;
            assert forall|k: int| 0 <= k < items.len() implies (#[trigger] items[k]).well_formed() by {
                if k != i {
                    assert(old_items[k].well_formed());
                }
            }
            assert forall|k: int, j: int| 0 <= k < j < items.len() implies (
            #[trigger] items[k]).name != (#[trigger] items[j]).name by {
                assert(old_items[k].name != old_items[j].name);
            }
        }
    }
}

/// Adding an item to the top frame is confined.
pub proof fn lemma_with_new_item_confined(rt: RuntimeView, item: ItemView)
    requires
        rt.frames.len() >= 1,
    ensures
        confined(rt, rt.with_new_item(item), true),
{
    let after = rt.with_new_item(item);
    lemma_scope_base_range(rt.frames, rt.top());
    lemma_scope_base_kinds(rt.frames, after.frames, rt.top());
}

/// Replacing an item that is in sight is confined.
pub proof fn lemma_with_item_confined(
    rt: RuntimeView,
    name: Seq<char>,
    f: int,
    i: int,
    item: ItemView,
)
    requires
        rt.frames.len() >= 1,
        rt.locate(name) == Some((f, i)),
    ensures
        confined(rt, rt.with_item(f, i, item), true),
{
    let after = rt.with_item(f, i, item);
    let b = scope_base(rt.frames, rt.top());
    lemma_resolve(rt.frames, rt.top(), name);
    lemma_resolve_above_base(rt.frames, rt.top(), name);
    assert(resolve(rt.frames, rt.top(), name) == Some((f, i)));
    assert(b <= f < rt.frames.len());
    assert(after.frames.len() == rt.frames.len());
    assert forall|k: int| 0 <= k < rt.frames.len() implies (#[trigger] after.frames[k]).inherited
        == rt.frames[k].inherited by {}
    assert forall|k: int| 0 <= k < b implies (#[trigger] after.frames[k]) == rt.frames[k] by {}
    lemma_scope_base_kinds(rt.frames, after.frames, rt.top());
}

/// What is confined to a scope that was entered, and went well, leaves the
/// frames below that scope as they were once the scope is left; after a
/// fresh scope all frames are what they were before it was entered.
pub proof fn lemma_scope_left(
    before: RuntimeView,
    inherit: bool,
    inside: RuntimeView,
    after: RuntimeView,
)
    requires
        before.frames.len() >= 1,
        confined(before.push_context(inherit), inside, true),
        inside.pop_context(inherit) == Ok::<RuntimeView, RuntimeError>(after),
    ensures
        confined(before, after, true),
        !inherit ==> after.frames == before.frames,
{
    reveal(RuntimeView::push_context);
    reveal(RuntimeView::pop_context);
    let entered = before.push_context(inherit);
    let n = before.frames.len() as int;
    lemma_scope_base_range(before.frames, before.top());
    if inherit {
        lemma_scope_base_kinds(before.frames, entered.frames, before.top());
        assert(scope_base(entered.frames, entered.top()) == scope_base(
            before.frames,
            before.top(),
        ));
        assert forall|i: int| 0 <= i < n implies (#[trigger] after.frames[i]).inherited
            == before.frames[i].inherited by {
            assert(after.frames[i] == inside.frames[i]);
            assert(entered.frames[i] == before.frames[i]);
        }
        lemma_scope_base_kinds(before.frames, after.frames, before.top());
        assert forall|i: int| 0 <= i < scope_base(before.frames, before.top()) implies (
        #[trigger] after.frames[i]) == before.frames[i] by {
            assert(after.frames[i] == inside.frames[i]);
            assert(entered.frames[i] == before.frames[i]);
        }
    } else {
        assert(scope_base(entered.frames, entered.top()) == n);
        assert forall|i: int| 0 <= i < n implies (#[trigger] after.frames[i])
            == before.frames[i] by {
            assert(after.frames[i] == inside.frames[i]);
            assert(entered.frames[i] == before.frames[i]);
        }
        assert(after.frames =~= before.frames);
    }
}

/// What is confined to a scope that was entered is confined to the scope
/// around it, whether it went well or not.
pub proof fn lemma_scope_inside(before: RuntimeView, inherit: bool, inside: RuntimeView, ok: bool)
    requires
        before.frames.len() >= 1,
        confined(before.push_context(inherit), inside, ok),
    ensures
        confined(before, inside, false),
{
    reveal(RuntimeView::push_context);
    let entered = before.push_context(inherit);
    let n = before.frames.len() as int;
    let b = scope_base(before.frames, before.top());
    lemma_scope_base_range(before.frames, before.top());
    if inherit {
        lemma_scope_base_kinds(before.frames, entered.frames, before.top());
        assert(scope_base(entered.frames, entered.top()) == b);
    } else {
        assert(scope_base(entered.frames, entered.top()) == n);
    }
    assert forall|i: int| 0 <= i < b implies (#[trigger] inside.frames[i])
        == before.frames[i] by {
        assert(entered.frames[i] == before.frames[i]);
    }
    assert forall|i: int| 0 <= i < n implies (#[trigger] inside.frames[i]).inherited
        == before.frames[i].inherited by {
        assert(entered.frames[i] == before.frames[i]);
    }
}

/// Leaving a scope right after entering it changes nothing.
pub proof fn lemma_push_then_pop(rt: RuntimeView, inherit: bool)
    requires
        rt.frames.len() >= 1,
    ensures
        rt.push_context(inherit).pop_context(inherit) == Ok::<RuntimeView, RuntimeError>(rt),
{
    reveal(RuntimeView::push_context);
    reveal(RuntimeView::pop_context);
    let entered = rt.push_context(inherit);
    assert(entered.frames.drop_last() =~= rt.frames);
}

/// What is found in a list that grew by one: what was found before, or else
/// the new item if it has the name.
pub proof fn lemma_find_item_push(items: Seq<ItemView>, item: ItemView, name: Seq<char>, from: int)
    requires
        0 <= from <= items.len(),
    ensures
        find_item(items.push(item), name, from) == match find_item(items, name, from) {
            Some(i) => Some(i),
            None => if item.name == name {
                Some(items.len() as int)
            } else {
                None
            },
        },
    decreases items.len() - from,
{
    let grown = items.push(item);
    if from < items.len() {
        assert(grown[from] == items[from]);
        if items[from].name != name {
            lemma_find_item_push(items, item, name, from + 1);
        }
    } else {
        assert(grown[from] == item);
        assert(find_item(grown, name, from + 1) is None);
    }
}

/// Two frames of the same kind whose items have the same names, place by
/// place.
pub open spec fn same_names(a: FrameView, b: FrameView) -> bool {
    &&& a.inherited == b.inherited
    &&& a.items.len() == b.items.len()
    &&& forall|k: int| 0 <= k < a.items.len() ==> (#[trigger] b.items[k]).name == a.items[k].name
}

/// What is found depends on the names only.
pub proof fn lemma_find_item_same_names(
    a: Seq<ItemView>,
    b: Seq<ItemView>,
    name: Seq<char>,
    from: int,
)
    requires
        a.len() == b.len(),
        forall|k: int| 0 <= k < a.len() ==> (#[trigger] b[k]).name == a[k].name,
    ensures
        find_item(a, name, from) == find_item(b, name, from),
    decreases a.len() - from,
{
    if 0 <= from < a.len() {
        assert(b[from].name == a[from].name);
        if a[from].name != name {
            lemma_find_item_same_names(a, b, name, from + 1);
        }
    }
}

/// Where a name is found depends on the kinds of the frames and the names of
/// their items only.
pub proof fn lemma_resolve_same_names(
    f1: Seq<FrameView>,
    f2: Seq<FrameView>,
    top: int,
    name: Seq<char>,
)
    requires
        top < f1.len(),
        top < f2.len(),
        forall|k: int| 0 <= k <= top ==> same_names(f1[k], #[trigger] f2[k]),
    ensures
        resolve(f1, top, name) == resolve(f2, top, name),
    decreases top,
{
    if 0 <= top {
        assert(same_names(f1[top], f2[top]));
        lemma_find_item_same_names(f1[top].items, f2[top].items, name, 0);
        if find_item(f1[top].items, name, 0) is None && f1[top].inherited && top > 0 {
            lemma_resolve_same_names(f1, f2, top - 1, name);
        }
    }
}

/// Where a name is found after an item was added to the top frame: where it
/// was found in the top frame before, or else at the new item if it has the
/// name, or else where it was found below.
pub proof fn lemma_with_new_item_locate(rt: RuntimeView, item: ItemView, name: Seq<char>)
    requires
        rt.frames.len() >= 1,
    ensures
        rt.with_new_item(item).locate(name) == match find_item(
            rt.frames[rt.top()].items,
            name,
            0,
        ) {
            Some(i) => Some((rt.top(), i)),
            None => if item.name == name {
                Some((rt.top(), rt.frames[rt.top()].items.len() as int))
            } else {
                rt.locate(name)
            },
        },
{
    let after = rt.with_new_item(item);
    let top = rt.top();
    lemma_find_item_push(rt.frames[top].items, item, name, 0);
    assert(after.frames[top].items == rt.frames[top].items.push(item));
    if find_item(rt.frames[top].items, name, 0) is None && item.name != name
        && rt.frames[top].inherited && top > 0 {
        assert forall|k: int| 0 <= k <= top - 1 implies same_names(
            rt.frames[k],
            #[trigger] after.frames[k],
        ) by {
            assert(after.frames[k] == rt.frames[k]);
        }
        lemma_resolve_same_names(rt.frames, after.frames, top - 1, name);
    }
}

/// Declaring a variable keeps the run-time well formed, makes its name a
/// variable, and leaves every name that was a variable a variable.
pub proof fn lemma_declare_variable(rt: RuntimeView, name: Seq<char>, dims: Seq<u32>)
    requires
        rt.well_formed(),
        rt.declare_item(DataType::Variable, name, dims) is Ok,
    ensures
        ({
            let after = rt.declare_item(DataType::Variable, name, dims)->Ok_0;
            &&& after.well_formed()
            &&& after.is_variable(name)
            &&& after.next_name == rt.next_name
            &&& forall|n: Seq<char>| rt.is_variable(n) ==> #[trigger] after.is_variable(n)
        }),
{
    reveal(RuntimeView::declare_item);
    reveal(RuntimeView::get_item_data_type);
    let item = ItemView {
        name,
        dims,
        content: ContentView::Variable(Seq::new(volume(dims), |k: int| None::<u32>)),
    };
    let after = rt.with_new_item(item);
    let top = rt.top();
    let items = rt.frames[top].items;
    assert(after == rt.declare_item(DataType::Variable, name, dims)->Ok_0);
    lemma_with_new_item_well_formed(rt, item);
    lemma_with_new_item_locate(rt, item, name);
    assert(after.frames[top].items[items.len() as int] == item);
    assert forall|n: Seq<char>| rt.is_variable(n) implies #[trigger] after.is_variable(n) by {
        lemma_with_new_item_locate(rt, item, n);
        lemma_resolve(rt.frames, top, n);
        lemma_find_item(items, n, 0);
        let (f, i) = rt.locate(n).unwrap();
        if find_item(items, n, 0) is Some {
            assert(after.frames[top].items[i] == items[i]);
        } else if item.name == n {
        } else {
            assert(f < top);
            assert(after.frames[f] == rt.frames[f]);
        }
    }
}

/// Writing to a variable keeps the run-time well formed and the type of
/// every name.
pub proof fn lemma_set_variable_keeps_types(rt: RuntimeView, a: AccessView, value: Option<u32>)
    requires
        rt.well_formed(),
        rt.set_variable(a, value) is Ok,
    ensures
        ({
            let after = rt.set_variable(a, value)->Ok_0;
            &&& after.well_formed()
            &&& after.next_name == rt.next_name
            &&& forall|n: Seq<char>| #[trigger]
                after.get_item_data_type(n) == rt.get_item_data_type(n)
        }),
{
    reveal(RuntimeView::set_variable);
    reveal(RuntimeView::get_item_data_type);
    let after = rt.set_variable(a, value)->Ok_0;
    let (f, i) = rt.locate(a.name).unwrap();
    lemma_resolve(rt.frames, rt.top(), a.name);
    let item = rt.frames[f].items[i];
    let values = item.content->Variable_0;
    let k = leaf_of(item.dims, a.path)->Ok_0;
    let new_item = ItemView { content: ContentView::Variable(values.update(k, value)), ..item };
    assert(rt.frames[f].well_formed());
    assert(item.well_formed());
    lemma_flat_index_bound(item.dims, array_indices(a.path).unwrap());
    assert(after == rt.with_item(f, i, new_item));
    lemma_with_item_well_formed(rt, f, i, new_item);
    assert forall|g: int| 0 <= g <= rt.top() implies same_names(
        rt.frames[g],
        #[trigger] after.frames[g],
    ) by {
        if g == f {
            assert forall|j: int| 0 <= j < rt.frames[g].items.len() implies (
            #[trigger] after.frames[g].items[j]).name == rt.frames[g].items[j].name by {}
        }
    }
    assert forall|n: Seq<char>| #[trigger]
        after.get_item_data_type(n) == rt.get_item_data_type(n) by {
        lemma_resolve_same_names(rt.frames, after.frames, rt.top(), n);
        lemma_resolve(rt.frames, rt.top(), n);
        if rt.locate(n) is Some {
            let (g, j) = rt.locate(n).unwrap();
            if g == f && j == i {
                assert(after.frames[g].items[j] == new_item);
            } else if g == f {
                assert(after.frames[g].items[j] == rt.frames[g].items[j]);
            } else {
                assert(after.frames[g] == rt.frames[g]);
            }
        }
    }
}

/// Declaring an anonymous variable keeps the run-time well formed, gives the
/// access to a variable, and leaves every name that was a variable a
/// variable.
pub proof fn lemma_declare_random_variable(rt: RuntimeView)
    requires
        rt.well_formed(),
        rt.declare_random_item(DataType::Variable) is Ok,
    ensures
        ({
            let (after, a) = rt.declare_random_item(DataType::Variable)->Ok_0;
            &&& after.well_formed()
            &&& after.is_variable(a.name)
            &&& a == (AccessView { name: random_name(rt.next_name), path: Seq::empty() })
            &&& forall|n: Seq<char>| rt.is_variable(n) ==> #[trigger] after.is_variable(n)
        }),
{
    reveal(RuntimeView::declare_random_item);
    reveal(RuntimeView::get_item_data_type);
    let name = random_name(rt.next_name);
    lemma_declare_variable(rt, name, Seq::empty());
    let mid = rt.declare_item(DataType::Variable, name, Seq::empty())->Ok_0;
    let (after, a) = rt.declare_random_item(DataType::Variable)->Ok_0;
    assert(after.frames == mid.frames);
    assert forall|n: Seq<char>| rt.is_variable(n) implies #[trigger] after.is_variable(n) by {
        assert(mid.is_variable(n));
    }
}

/// The number of leaves of an array of dimensions `dims`, where it is at
/// most `u32::MAX`.
pub fn volume_of(dims: &[u32]) -> (r: Option<u32>)
    ensures
        match r {
            Some(c) => c == volume(dims@),
            None => volume(dims@) > u32::MAX,
        },
{
    let mut i: usize = 0;
    while i < dims.len()
        invariant
            i <= dims.len(),
            forall|j: int| 0 <= j < i ==> dims@[j] >= 1,
        decreases dims.len() - i,
    {
        if dims[i] == 0 {
            proof {
                lemma_volume_zero(dims@, i as int);
            }
            return Some(0);
        }
        i += 1;
    }
    let mut acc: u64 = 1;
    let mut k: usize = 0;
    assert(dims@.take(0).len() == 0);
    while k < dims.len()
        invariant
            k <= dims.len(),
            forall|j: int| 0 <= j < dims.len() ==> dims@[j] >= 1,
            acc == volume(dims@.take(k as int)),
            acc <= u32::MAX,
        decreases dims.len() - k,
    {
        let d: u64 = dims[k] as u64;
        proof {
            lemma_volume_step(dims@, k as int);
            lemma_volume_prefix(dims@, k + 1);
            assert(acc * d <= 0xffff_ffff * 0xffff_ffff) by (nonlinear_arith)
                requires
                    0 <= acc <= 0xffff_ffff,
                    0 <= d <= 0xffff_ffff,
            ;
        }
        acc = acc * d;
        if acc > 0xffff_ffff {
            return None;
        }
        k += 1;
    }
    proof {
        assert(dims@.take(dims.len() as int) =~= dims@);
    }
    Some(acc as u32)
}

/// The position of the leaf that the steps `from..to` of `access` select in
/// an array of dimensions `dims`.
pub fn leaf_position(dims: &Vec<u32>, access: &Vec<SubAccess>, from: usize, to: usize) -> (r:
    Result<usize, RuntimeError>)
    requires
        from <= to <= access.len(),
        volume(dims@) <= u32::MAX,
    ensures
        match leaf_of(dims@, path_view(access@).subrange(from as int, to as int)) {
            Ok(k) => r == Ok::<usize, RuntimeError>(k as usize) && 0 <= k < volume(dims@),
            Err(e) => r == Err::<usize, RuntimeError>(e),
        },
{
    let ghost path = path_view(access@).subrange(from as int, to as int);
    let mut indices: Vec<u32> = Vec::new();
    let mut i: usize = from;
    while i < to
        invariant
            from <= i <= to <= access.len(),
            path == path_view(access@).subrange(from as int, to as int),
            indices@.len() == i - from,
            forall|k: int| 0 <= k < i - from ==> #[trigger] path[k] is Array,
            forall|k: int| 0 <= k < i - from ==> indices@[k] == (#[trigger] path[k])->Array_0,
        decreases to - i,
    {
        assert(path[i - from] == access@[i as int]@);
        match &access[i] {
            SubAccess::Array(index) => {
                indices.push(*index);
            },
            SubAccess::Component(_) => {
                assert(!(path[i - from] is Array));
                return Err(RuntimeError::NotAComponent);
            },
        }
        i += 1;
    }
    assert(indices@ =~= array_indices(path).unwrap());
    if indices.len() != dims.len() {
        return Err(RuntimeError::OutOfBounds);
    }
    let n = dims.len();
    let mut k: usize = 0;
    while k < n
        invariant
            k <= n,
            n == dims.len(),
            indices@.len() == n,
            path == path_view(access@).subrange(from as int, to as int),
            array_indices(path) == Some(indices@),
            forall|j: int| 0 <= j < k ==> indices@[j] < dims@[j],
        decreases n - k,
    {
        if indices[k] >= dims[k] {
            assert(!in_bounds(dims@, indices@));
            return Err(RuntimeError::OutOfBounds);
        }
        k += 1;
    }
    assert(in_bounds(dims@, indices@));
    let mut acc: u64 = 0;
    let mut k: usize = 0;
    assert(dims@.take(0).len() == 0);
    while k < n
        invariant
            k <= n,
            n == dims.len(),
            indices@.len() == n,
            in_bounds(dims@, indices@),
            volume(dims@) <= u32::MAX,
            path == path_view(access@).subrange(from as int, to as int),
            array_indices(path) == Some(indices@),
            acc == flat_index(dims@.take(k as int), indices@.take(k as int)),
            acc < volume(dims@.take(k as int)),
            acc <= u32::MAX,
        decreases n - k,
    {
        let d: u64 = dims[k] as u64;
        let x: u64 = indices[k] as u64;
        proof {
            lemma_flat_index_step(dims@, indices@, k as int);
            assert(forall|j: int| 0 <= j < dims@.len() ==> dims@[j] >= 1) by {
                assert forall|j: int| 0 <= j < dims@.len() implies dims@[j] >= 1 by {
                    assert(indices@[j] < dims@[j]);
                }
            }
            lemma_volume_prefix(dims@, k + 1);
            let dp = dims@.take(k + 1);
            let ip = indices@.take(k + 1);
            assert(in_bounds(dp, ip)) by {
                assert forall|j: int| 0 <= j < dp.len() implies ip[j] < dp[j] by {
                    assert(indices@[j] < dims@[j]);
                }
            }
            lemma_flat_index_bound(dp, ip);
            assert(acc * d <= 0xffff_ffff * 0xffff_ffff) by (nonlinear_arith)
                requires
                    0 <= acc <= 0xffff_ffff,
                    0 <= d <= 0xffff_ffff,
            ;
        }
        acc = acc * d + x;
        k += 1;
    }
    proof {
        assert(dims@.take(n as int) =~= dims@);
        assert(indices@.take(n as int) =~= indices@);
    }
    Ok(acc as usize)
}

/// The position of the first step of `access` that names a signal of a
/// component.
fn first_named(access: &Vec<SubAccess>) -> (r: Option<usize>)
    ensures
        match r {
            Some(k) => k < access.len() && first_component(path_view(access@), 0) == Some(k as int)
                && access@[k as int] is Component,
            None => first_component(path_view(access@), 0) is None,
        },
{
    let mut i: usize = 0;
    while i < access.len()
        invariant
            i <= access.len(),
            first_component(path_view(access@), 0) == first_component(path_view(access@), i as int),
        decreases access.len() - i,
    {
        assert(path_view(access@)[i as int] == access@[i as int]@);
        match &access[i] {
            SubAccess::Component(_) => {
                return Some(i);
            },
            SubAccess::Array(_) => {},
        }
        i += 1;
    }
    None
}

/// The position of the first item called `key`.
fn find_in(items: &Vec<Item>, key: &String) -> (r: Option<usize>)
    ensures
        match r {
            Some(i) => i < items.len() && find_item(items_view(items@), key@, 0) == Some(i as int),
            None => find_item(items_view(items@), key@, 0) is None,
        },
{
    let mut i: usize = 0;
    while i < items.len()
        invariant
            i <= items.len(),
            find_item(items_view(items@), key@, 0) == find_item(items_view(items@), key@, i as int),
        decreases items.len() - i,
    {
        assert(items_view(items@)[i as int] == items@[i as int]@);
        if items[i].name == *key {
            return Some(i);
        }
        i += 1;
    }
    None
}

/// The position of the first binding called `key`.
fn find_bound(bindings: &Vec<Binding>, key: &String) -> (r: Option<usize>)
    ensures
        match r {
            Some(i) => i < bindings.len() && find_binding(bindings_view(bindings@), key@, 0)
                == Some(i as int),
            None => find_binding(bindings_view(bindings@), key@, 0) is None,
        },
{
    let mut i: usize = 0;
    while i < bindings.len()
        invariant
            i <= bindings.len(),
            find_binding(bindings_view(bindings@), key@, 0) == find_binding(
                bindings_view(bindings@),
                key@,
                i as int,
            ),
        decreases bindings.len() - i,
    {
        assert(bindings_view(bindings@)[i as int] == bindings@[i as int]@);
        if bindings[i].name == *key {
            return Some(i);
        }
        i += 1;
    }
    None
}

/// `count` leaves of a variable, none with a value.
fn empty_values(count: u32) -> (r: Vec<Option<u32>>)
    ensures
        r@ == Seq::new(count as nat, |k: int| None::<u32>),
{
    let mut r: Vec<Option<u32>> = Vec::new();
    let mut i: u32 = 0;
    while i < count
        invariant
            i <= count,
            r@ == Seq::new(i as nat, |k: int| None::<u32>),
        decreases count - i,
    {
        r.push(None);
        i += 1;
        assert(r@ =~= Seq::new(i as nat, |k: int| None::<u32>));
    }
    r
}

/// The `count` ids from `first` on.
fn fresh_ids(first: u32, count: u32) -> (r: Vec<u32>)
    requires
        first + count <= u32::MAX,
    ensures
        r@ == Seq::new(count as nat, |k: int| (first + k) as u32),
{
    let mut r: Vec<u32> = Vec::new();
    let mut i: u32 = 0;
    while i < count
        invariant
            i <= count,
            first + count <= u32::MAX,
            r@ == Seq::new(i as nat, |k: int| (first + k) as u32),
        decreases count - i,
    {
        r.push(first + i);
        i += 1;
        assert(r@ =~= Seq::new(i as nat, |k: int| (first + k) as u32));
    }
    r
}

/// `count` leaves of a component, none with a signal.
fn empty_leaves(count: u32) -> (r: Vec<Vec<Binding>>)
    ensures
        leaves_view(r@) == Seq::new(count as nat, |k: int| Seq::<BindingView>::empty()),
{
    let mut r: Vec<Vec<Binding>> = Vec::new();
    let mut i: u32 = 0;
    assert(leaves_view(r@) =~= Seq::new(0, |k: int| Seq::<BindingView>::empty()));
    while i < count
        invariant
            i <= count,
            leaves_view(r@) == Seq::new(i as nat, |k: int| Seq::<BindingView>::empty()),
        decreases count - i,
    {
        let ghost before = r@;
        let leaf: Vec<Binding> = Vec::new();
        assert(bindings_view(leaf@) =~= Seq::<BindingView>::empty());
        r.push(leaf);
        i += 1;
        assert(leaves_view(r@) =~= leaves_view(before).push(Seq::<BindingView>::empty()));
        assert(leaves_view(r@) =~= Seq::new(i as nat, |k: int| Seq::<BindingView>::empty()));
    }
    r
}

/// The run-time of the interpreter.
#[derive(Debug)]
pub struct Runtime {
    frames: Vec<Context>,
    next_signal_id: u32,
    next_name: u32,
    limit: u32,
}

impl View for Runtime {
    type V = RuntimeView;

    closed spec fn view(&self) -> RuntimeView {
        RuntimeView {
            frames: frames_view(self.frames@),
            next_signal_id: self.next_signal_id,
            next_name: self.next_name,
            limit: self.limit,
        }
    }
}

impl Runtime {
    /// The run-time's invariant.
    pub closed spec fn wf(&self) -> bool {
        self@.well_formed()
    }

    /// The invariant says that the run-time's value is well formed.
    pub proof fn lemma_wf(&self)
        ensures
            self.wf() == self@.well_formed(),
    {
    }

    /// A run-time always has a frame.
    pub proof fn lemma_has_frame(&self)
        ensures
            self.wf() ==> self@.frames.len() >= 1,
    {
    }

    /// A run-time with one empty frame and the default limit.
    pub fn new() -> (rt: Runtime)
        ensures
            rt@ == RuntimeView::initial(DEFAULT_LIMIT),
            rt.wf(),
    {
        Runtime::with_limit(DEFAULT_LIMIT)
    }

    /// A run-time with one empty frame and the limit `limit`: calls nest at
    /// most `limit` deep, and a loop repeats its body at most `limit` times
    /// after the first. What runs inside the `n`-th repetition of a loop, or
    /// `n` calls deep, has `limit - n` left.
    pub fn with_limit(limit: u32) -> (rt: Runtime)
        ensures
            rt@ == RuntimeView::initial(limit),
            rt.wf(),
    {
        let mut frames: Vec<Context> = Vec::new();
        frames.push(Context { inherited: false, items: Vec::new() });
        let rt = Runtime { frames, next_signal_id: FIRST_SIGNAL_ID, next_name: 0, limit };
        proof {
            assert(rt.frames@[0]@.items =~= Seq::<ItemView>::empty());
            assert(rt@.frames =~= RuntimeView::initial(limit).frames);
            assert(rt@.frames[0].well_formed());
        }
        rt
    }

    /// The limit on the depth of calls and the length of loops.
    pub fn limit(&self) -> (l: u32)
        ensures
            l == self@.limit,
    {
        self.limit
    }

    /// The number of frames.
    pub fn depth(&self) -> (d: usize)
        ensures
            d == self@.frames.len(),
    {
        self.frames.len()
    }

    /// Enters a scope: an inherited one for a block, a fresh one for a call.
    pub fn push_context(&mut self, inherit: bool)
        requires
            old(self).wf(),
        ensures
            final(self).wf(),
            final(self)@ == old(self)@.push_context(inherit),
    {
        proof {
            reveal(RuntimeView::push_context);
        }
        let frame = Context { inherited: inherit, items: Vec::new() };
        proof {
            assert(frames_view(self.frames@.push(frame)) =~= frames_view(self.frames@).push(frame@));
            assert(frame@.items =~= Seq::<ItemView>::empty());
            assert(frame@.well_formed());
        }
        self.frames.push(frame);
        proof {
            let after = self@;
            assert forall|f: int| 0 <= f < after.frames.len() implies (
            #[trigger] after.frames[f]).well_formed() by {
                if f < old(self)@.frames.len() {
                    assert(old(self)@.frames[f].well_formed());
                }
            }
        }
    }

    /// Leaves the scope on top, which must be of the kind `inherit` and not
    /// the bottom frame.
    pub fn pop_context(&mut self, inherit: bool) -> (r: Result<(), RuntimeError>)
        requires
            old(self).wf(),
        ensures
            final(self).wf(),
            match old(self)@.pop_context(inherit) {
                Ok(rt) => r is Ok && final(self)@ == rt,
                Err(e) => r == Err::<(), RuntimeError>(e) && final(self)@ == old(self)@,
            },
    {
        proof {
            reveal(RuntimeView::pop_context);
        }
        let n = self.frames.len();
        if n <= 1 || self.frames[n - 1].inherited != inherit {
            return Err(RuntimeError::UnbalancedPop);
        }
        proof {
            assert(frames_view(self.frames@.drop_last()) =~= frames_view(self.frames@).drop_last());
        }
        self.frames.pop();
        proof {
            let after = self@;
            assert forall|f: int| 0 <= f < after.frames.len() implies (
            #[trigger] after.frames[f]).well_formed() by {
                assert(old(self)@.frames[f].well_formed());
            }
        }
        Ok(())
    }

    /// Takes the next number for a synthetic name.
    pub fn generate_u32(&mut self) -> (r: Result<u32, RuntimeError>)
        requires
            old(self).wf(),
        ensures
            final(self).wf(),
            confined(old(self)@, final(self)@, r is Ok),
            match old(self)@.generate() {
                Ok((rt, n)) => r == Ok::<u32, RuntimeError>(n) && final(self)@ == rt,
                Err(e) => r == Err::<u32, RuntimeError>(e) && final(self)@ == old(self)@,
            },
    {
        proof {
            reveal(RuntimeView::generate);
        }
        if self.next_name == u32::MAX {
            return Err(RuntimeError::CapacityExceeded);
        }
        let n = self.next_name;
        self.next_name = n + 1;
        Ok(n)
    }

    /// Where the item called `key` is in sight of the top frame.
    fn locate(&self, key: &String) -> (r: Option<(usize, usize)>)
        requires
            self.wf(),
        ensures
            match r {
                Some((f, i)) => self@.locate(key@) == Some((f as int, i as int)) && f
                    < self.frames.len() && i < self.frames[f as int].items.len(),
                None => self@.locate(key@) is None,
            },
    {
        let mut f: usize = self.frames.len() - 1;
        loop
            invariant
                f < self.frames.len(),
                self@.locate(key@) == resolve(self@.frames, f as int, key@),
            decreases f,
        {
            assert(self@.frames[f as int] == self.frames@[f as int]@);
            match find_in(&self.frames[f].items, key) {
                Some(i) => {
                    return Some((f, i));
                },
                None => {
                    if self.frames[f].inherited && f > 0 {
                        f -= 1;
                    } else {
                        return None;
                    }
                },
            }
        }
    }

    /// Declares `name` in the top frame, with the dimensions `dimensions`
    /// (none for a scalar).
    pub fn declare_item(&mut self, data_type: DataType, name: &str, dimensions: &[u32]) -> (r:
        Result<(), RuntimeError>)
        requires
            old(self).wf(),
        ensures
            final(self).wf(),
            confined(old(self)@, final(self)@, r is Ok),
            match old(self)@.declare_item(data_type, name@, dimensions@) {
                Ok(rt) => r is Ok && final(self)@ == rt,
                Err(e) => r == Err::<(), RuntimeError>(e) && final(self)@ == old(self)@,
            },
    {
        proof {
            reveal(RuntimeView::declare_item);
        }
        let key = String::from_str(name);
        let top = self.frames.len() - 1;
        assert(self@.frames[top as int] == self.frames@[top as int]@);
        if find_in(&self.frames[top].items, &key).is_some() {
            return Err(RuntimeError::AlreadyDeclared);
        }
        let count = match volume_of(dimensions) {
            Some(c) => c,
            None => {
                return Err(RuntimeError::CapacityExceeded);
            },
        };
        let dims = copy_u32s(dimensions);
        let content = match data_type {
            DataType::Variable => Content::Variable(empty_values(count)),
            DataType::Component => Content::Component(empty_leaves(count)),
            DataType::Signal => {
                if count > u32::MAX - self.next_signal_id {
                    return Err(RuntimeError::CapacityExceeded);
                }
                let ids = fresh_ids(self.next_signal_id, count);
                self.next_signal_id = self.next_signal_id + count;
                Content::Signal(ids)
            },
        };
        let item = Item { name: key, dims, content };
        proof {
            let mid = RuntimeView { next_signal_id: self@.next_signal_id, ..old(self)@ };
            assert(self@ == mid);
            lemma_items_view_push(self.frames@[top as int].items@, item);
            lemma_with_new_item_well_formed(mid, item@);
            lemma_with_new_item_confined(mid, item@);
            lemma_scope_base_range(mid.frames, mid.top());
        }
        let ghost frames_before = self.frames@;
        self.frames[top].items.push(item);
        proof {
            lemma_frames_view_update(frames_before, top as int, self.frames@[top as int]);
            assert(self.frames@ =~= frames_before.update(top as int, self.frames@[top as int]));
        }
        Ok(())
    }

    /// Declares an anonymous scalar item in the top frame and returns the
    /// access to it.
    pub fn declare_random_item(&mut self, data_type: DataType) -> (r: Result<
        DataAccess,
        RuntimeError,
    >)
        requires
            old(self).wf(),
        ensures
            final(self).wf(),
            confined(old(self)@, final(self)@, r is Ok),
            match old(self)@.declare_random_item(data_type) {
                Ok((rt, a)) => r matches Ok(access) && access@ == a && final(self)@ == rt,
                Err(e) => r == Err::<DataAccess, RuntimeError>(e) && final(self)@ == old(self)@,
            },
    {
        proof {
            reveal(RuntimeView::declare_random_item);
            reveal(RuntimeView::declare_item);
        }
        if self.next_name == u32::MAX {
            return Err(RuntimeError::CapacityExceeded);
        }
        let name = make_random_name(self.next_name);
        let none: Vec<u32> = Vec::new();
        match self.declare_item(data_type, name.as_str(), none.as_slice()) {
            Ok(()) => {},
            Err(e) => {
                return Err(e);
            },
        }
        self.next_name = self.next_name + 1;
        let access = DataAccess { name, access: Vec::new() };
        proof {
            assert(none@ =~= Seq::<u32>::empty());
            assert(access@.path =~= Seq::<SubAccessView>::empty());
        }
        Ok(access)
    }

    /// The type of the item called `name`.
    pub fn get_item_data_type(&self, name: &str) -> (r: Result<DataType, RuntimeError>)
        requires
            self.wf(),
        ensures
            r == self@.get_item_data_type(name@),
    {
        proof {
            reveal(RuntimeView::get_item_data_type);
        }
        let key = String::from_str(name);
        match self.locate(&key) {
            None => Err(RuntimeError::ItemNotDeclared),
            Some((f, i)) => {
                let ghost item = self.frames@[f as int].items@[i as int];
                assert(self@.frames[f as int].items[i as int] == item@);
                match &self.frames[f].items[i].content {
                    Content::Variable(_) => Ok(DataType::Variable),
                    Content::Signal(_) => Ok(DataType::Signal),
                    Content::Component(_) => Ok(DataType::Component),
                }
            },
        }
    }

    /// The value of the variable leaf at `access`; `None` where none was
    /// assigned yet.
    pub fn get_variable_value(&self, access: &DataAccess) -> (r: Result<Option<u32>, RuntimeError>)
        requires
            self.wf(),
        ensures
            r == self@.get_variable_value(access@),
    {
        proof {
            reveal(RuntimeView::get_variable_value);
        }
        match self.locate(&access.name) {
            None => Err(RuntimeError::ItemNotDeclared),
            Some((f, i)) => {
                let item = &self.frames[f].items[i];
                proof {
                    assert(self@.frames[f as int].items[i as int] == item@);
                    assert(self@.frames[f as int].well_formed());
                    assert(item@.well_formed());
                    assert(path_view(access.access@).subrange(0, access.access@.len() as int)
                        =~= access@.path);
                }
                match &item.content {
                    Content::Variable(values) => {
                        match leaf_position(&item.dims, &access.access, 0, access.access.len()) {
                            Ok(k) => Ok(values[k]),
                            Err(e) => Err(e),
                        }
                    },
                    _ => Err(RuntimeError::NotAVariable),
                }
            },
        }
    }

    /// Writes `value` to the variable leaf at `access`.
    pub fn set_variable(&mut self, access: &DataAccess, value: Option<u32>) -> (r: Result<
        (),
        RuntimeError,
    >)
        requires
            old(self).wf(),
        ensures
            final(self).wf(),
            confined(old(self)@, final(self)@, r is Ok),
            match old(self)@.set_variable(access@, value) {
                Ok(rt) => r is Ok && final(self)@ == rt,
                Err(e) => r == Err::<(), RuntimeError>(e) && final(self)@ == old(self)@,
            },
    {
        proof {
            reveal(RuntimeView::set_variable);
        }
        let (f, i) = match self.locate(&access.name) {
            None => {
                return Err(RuntimeError::ItemNotDeclared);
            },
            Some(p) => p,
        };
        let ghost item_before = self.frames@[f as int].items@[i as int];
        proof {
            assert(self@.frames[f as int].items[i as int] == item_before@);
            assert(self@.frames[f as int].well_formed());
            assert(item_before@.well_formed());
            assert(path_view(access.access@).subrange(0, access.access@.len() as int)
                =~= access@.path);
        }
        let k = match &self.frames[f].items[i].content {
            Content::Variable(_) => {
                let item = &self.frames[f].items[i];
                match leaf_position(&item.dims, &access.access, 0, access.access.len()) {
                    Ok(k) => k,
                    Err(e) => {
                        return Err(e);
                    },
                }
            },
            _ => {
                return Err(RuntimeError::NotAVariable);
            },
        };
        let ghost frames_before = self.frames@;
        let ghost items_before = self.frames@[f as int].items@;
        match &mut self.frames[f].items[i].content {
            Content::Variable(values) => {
                values[k] = value;
            },
            _ => {},
        }
        proof {
            let item_after = self.frames@[f as int].items@[i as int];
            let frame_after = self.frames@[f as int];
            assert(self.frames@ =~= frames_before.update(f as int, frame_after));
            assert(frame_after.items@ =~= items_before.update(i as int, item_after));
            lemma_frames_view_update(frames_before, f as int, frame_after);
            lemma_items_view_update(items_before, i as int, item_after);
            let new_item = ItemView {
                content: ContentView::Variable(
                    item_before@.content->Variable_0.update(k as int, value),
                ),
                ..item_before@
            };
            assert(item_after@ == new_item);
            assert(self@ == old(self)@.with_item(f as int, i as int, new_item));
            lemma_with_item_well_formed(old(self)@, f as int, i as int, new_item);
            lemma_with_item_confined(old(self)@, access@.name, f as int, i as int, new_item);
        }
        Ok(())
    }

    /// The id of the signal leaf at `access`.
    pub fn get_signal_id(&self, access: &DataAccess) -> (r: Result<u32, RuntimeError>)
        requires
            self.wf(),
        ensures
            r == self@.get_signal_id(access@),
    {
        proof {
            reveal(RuntimeView::get_signal_id);
        }
        match self.locate(&access.name) {
            None => Err(RuntimeError::ItemNotDeclared),
            Some((f, i)) => {
                let item = &self.frames[f].items[i];
                proof {
                    assert(self@.frames[f as int].items[i as int] == item@);
                    assert(self@.frames[f as int].well_formed());
                    assert(item@.well_formed());
                    assert(path_view(access.access@).subrange(0, access.access@.len() as int)
                        =~= access@.path);
                }
                match &item.content {
                    Content::Signal(ids) => {
                        match leaf_position(&item.dims, &access.access, 0, access.access.len()) {
                            Ok(k) => Ok(ids[k]),
                            Err(e) => Err(e),
                        }
                    },
                    _ => Err(RuntimeError::NotASignal),
                }
            },
        }
    }

    /// The record of the signal called `name`: its dimensions and the ids of
    /// its leaves.
    pub fn get_signal(&self, name: &str) -> (r: Result<Signal, RuntimeError>)
        requires
            self.wf(),
        ensures
            match self@.get_signal(name@) {
                Ok(s) => r matches Ok(signal) && signal@ == s,
                Err(e) => r == Err::<Signal, RuntimeError>(e),
            },
    {
        proof {
            reveal(RuntimeView::get_signal);
        }
        let key = String::from_str(name);
        match self.locate(&key) {
            None => Err(RuntimeError::ItemNotDeclared),
            Some((f, i)) => {
                let item = &self.frames[f].items[i];
                proof {
                    assert(self@.frames[f as int].items[i as int] == item@);
                    assert(self@.frames[f as int].well_formed());
                    assert(item@.well_formed());
                }
                match &item.content {
                    Content::Signal(ids) => Ok(
                        Signal {
                            dims: copy_u32s(item.dims.as_slice()),
                            ids: copy_u32s(ids.as_slice()),
                        },
                    ),
                    _ => Err(RuntimeError::NotASignal),
                }
            },
        }
    }

    /// The signals of the component leaf at `access`.
    pub fn get_component_map(&self, access: &DataAccess) -> (r: Result<Vec<Binding>, RuntimeError>)
        requires
            self.wf(),
        ensures
            match self@.get_component_map(access@) {
                Ok(m) => r matches Ok(bindings) && bindings_view(bindings@) == m,
                Err(e) => r == Err::<Vec<Binding>, RuntimeError>(e),
            },
    {
        proof {
            reveal(RuntimeView::get_component_map);
        }
        match self.locate(&access.name) {
            None => Err(RuntimeError::ItemNotDeclared),
            Some((f, i)) => {
                let item = &self.frames[f].items[i];
                proof {
                    assert(self@.frames[f as int].items[i as int] == item@);
                    assert(self@.frames[f as int].well_formed());
                    assert(item@.well_formed());
                    assert(path_view(access.access@).subrange(0, access.access@.len() as int)
                        =~= access@.path);
                }
                match &item.content {
                    Content::Component(leaves) => {
                        match leaf_position(&item.dims, &access.access, 0, access.access.len()) {
                            Ok(k) => Ok(copy_bindings(&leaves[k])),
                            Err(e) => Err(e),
                        }
                    },
                    _ => Err(RuntimeError::NotAComponent),
                }
            },
        }
    }

    /// Gives the component leaf at `access` the signals `bindings`.
    pub fn set_component(&mut self, access: &DataAccess, bindings: Vec<Binding>) -> (r: Result<
        (),
        RuntimeError,
    >)
        requires
            old(self).wf(),
        ensures
            final(self).wf(),
            confined(old(self)@, final(self)@, r is Ok),
            match old(self)@.set_component(access@, bindings_view(bindings@)) {
                Ok(rt) => r is Ok && final(self)@ == rt,
                Err(e) => r == Err::<(), RuntimeError>(e) && final(self)@ == old(self)@,
            },
    {
        proof {
            reveal(RuntimeView::set_component);
        }
        let (f, i) = match self.locate(&access.name) {
            None => {
                return Err(RuntimeError::ItemNotDeclared);
            },
            Some(p) => p,
        };
        let ghost item_before = self.frames@[f as int].items@[i as int];
        proof {
            assert(self@.frames[f as int].items[i as int] == item_before@);
            assert(self@.frames[f as int].well_formed());
            assert(item_before@.well_formed());
            assert(path_view(access.access@).subrange(0, access.access@.len() as int)
                =~= access@.path);
        }
        let k = match &self.frames[f].items[i].content {
            Content::Component(_) => {
                let item = &self.frames[f].items[i];
                match leaf_position(&item.dims, &access.access, 0, access.access.len()) {
                    Ok(k) => k,
                    Err(e) => {
                        return Err(e);
                    },
                }
            },
            _ => {
                return Err(RuntimeError::NotAComponent);
            },
        };
        let ghost frames_before = self.frames@;
        let ghost items_before = self.frames@[f as int].items@;
        let ghost leaves_before = item_before.content->Component_0@;
        let ghost given = bindings_view(bindings@);
        match &mut self.frames[f].items[i].content {
            Content::Component(leaves) => {
                leaves[k] = bindings;
            },
            _ => {},
        }
        proof {
            let item_after = self.frames@[f as int].items@[i as int];
            let frame_after = self.frames@[f as int];
            assert(self.frames@ =~= frames_before.update(f as int, frame_after));
            assert(frame_after.items@ =~= items_before.update(i as int, item_after));
            lemma_frames_view_update(frames_before, f as int, frame_after);
            lemma_items_view_update(items_before, i as int, item_after);
            let leaves_after = item_after.content->Component_0@;
            assert(leaves_view(leaves_after) =~= leaves_view(leaves_before).update(k as int, given));
            let new_item = ItemView {
                content: ContentView::Component(
                    item_before@.content->Component_0.update(k as int, given),
                ),
                ..item_before@
            };
            assert(item_after@ == new_item);
            assert(self@ == old(self)@.with_item(f as int, i as int, new_item));
            lemma_with_item_well_formed(old(self)@, f as int, i as int, new_item);
            lemma_with_item_confined(old(self)@, access@.name, f as int, i as int, new_item);
        }
        Ok(())
    }

    /// The id that `access` selects in a component, as in `c[1].out[0]`.
    pub fn get_component_signal_id(&self, access: &DataAccess) -> (r: Result<u32, RuntimeError>)
        requires
            self.wf(),
        ensures
            r == self@.get_component_signal_id(access@),
    {
        proof {
            reveal(RuntimeView::get_component_signal_id);
        }
        match self.locate(&access.name) {
            None => Err(RuntimeError::ItemNotDeclared),
            Some((f, i)) => {
                let item = &self.frames[f].items[i];
                proof {
                    assert(self@.frames[f as int].items[i as int] == item@);
                    assert(self@.frames[f as int].well_formed());
                    assert(item@.well_formed());
                }
                match &item.content {
                    Content::Component(leaves) => {
                        let k = match first_named(&access.access) {
                            Some(k) => k,
                            None => {
                                return Err(RuntimeError::NotASignal);
                            },
                        };
                        proof {
                            assert(path_view(access.access@).subrange(0, k as int) =~= access@.path.take(
                                k as int,
                            ));
                            assert(path_view(access.access@).subrange(
                                k + 1,
                                access.access@.len() as int,
                            ) =~= access@.path.skip(k + 1));
                            assert(access@.path[k as int] == access.access@[k as int]@);
                        }
                        let leaf = match leaf_position(&item.dims, &access.access, 0, k) {
                            Ok(leaf) => leaf,
                            Err(e) => {
                                return Err(e);
                            },
                        };
                        let bindings = &leaves[leaf];
                        assert(leaves_view(leaves@)[leaf as int] == bindings_view(bindings@));
                        match &access.access[k] {
                            SubAccess::Component(signal_name) => {
                                let b = match find_bound(bindings, signal_name) {
                                    Some(b) => b,
                                    None => {
                                        return Err(RuntimeError::ItemNotDeclared);
                                    },
                                };
                                let signal = &bindings[b].signal;
                                proof {
                                    use_type_invariant(signal);
                                    assert(bindings_view(bindings@)[b as int] == bindings@[b as int]@);
                                }
                                match leaf_position(
                                    &signal.dims,
                                    &access.access,
                                    k + 1,
                                    access.access.len(),
                                ) {
                                    Ok(j) => Ok(signal.ids[j]),
                                    Err(e) => Err(e),
                                }
                            },
                            SubAccess::Array(_) => Err(RuntimeError::NotASignal),
                        }
                    },
                    _ => Err(RuntimeError::NotAComponent),
                }
            },
        }
    }
}

} // verus!
