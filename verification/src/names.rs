//! Interned names, times and row identifiers: the small values that everything else is keyed by.
use std::sync::Arc;
use vstd::prelude::*;

verus! {

/// Whether two strings hold the same characters.
///
/// Calls `str::eq` of the standard library, which compares the two byte by byte; equal bytes are
/// equal characters.
#[verifier::external_body]
pub(crate) fn text_eq(a: &str, b: &str) -> (r: bool)
    ensures
        r == (a@ == b@),
{
    a == b
}

/// A second handle on the same shared value.
///
/// Calls `Arc::clone` of the standard library, which makes another pointer to the same allocation.
#[verifier::external_body]
pub(crate) fn share<T>(shared: &Arc<T>) -> (r: Arc<T>)
    ensures
        r == *shared,
{
    Arc::clone(shared)
}

/// A string that lives as long as the program and is cheap to copy.
///
/// Component names, timeline names, visualizer names and view classes are all of this kind.
/// Two of them stand for the same thing if and only if their texts agree.
#[derive(Clone, Copy, Debug, PartialEq, Eq, PartialOrd, Ord, Hash)]
pub struct InternedStr {
    pub text: &'static str,
}

impl View for InternedStr {
    type V = Seq<char>;

    open spec fn view(&self) -> Seq<char> {
        self.text@
    }
}

impl InternedStr {
    pub fn new(text: &'static str) -> (r: InternedStr)
        ensures
            r.text == text,
            r@ == text@,
    {
        InternedStr { text }
    }

    /// Whether both names have the same text.
    pub fn is(&self, other: &InternedStr) -> (r: bool)
        ensures
            r == (self@ == other@),
    {
        text_eq(self.text, other.text)
    }
}

/// The name of a component type, e.g. `rerun.components.Position3D`.
pub type ComponentName = InternedStr;

/// The name of a visualizer.
pub type ViewSystemIdentifier = InternedStr;

/// The name of a class of space views.
pub type SpaceViewClassIdentifier = InternedStr;

/// Whether `name` is one of `names`.
pub open spec fn names_contain(names: Seq<InternedStr>, name: Seq<char>) -> bool {
    exists|i: int| 0 <= i < names.len() && (#[trigger] names[i])@ == name
}

pub fn is_one_of(name: &InternedStr, names: &Vec<InternedStr>) -> (r: bool)
    ensures
        r == names_contain(names@, name@),
{
    let mut i: usize = 0;
    while i < names.len()
        invariant
            i <= names.len(),
            forall|j: int| 0 <= j < i ==> (#[trigger] names@[j])@ != name@,
        decreases names.len() - i,
    {
        if names[i].is(name) {
            return true;
        }
        i += 1;
    }
    false
}

// ---

/// The smallest temporal value: `i64::MIN` itself is kept for static data.
pub const TIME_MIN: i64 = -0x7fff_ffff_ffff_ffff;

/// The largest temporal value.
pub const TIME_MAX: i64 = 0x7fff_ffff_ffff_ffff;

/// The value that marks static data.
pub const TIME_STATIC: i64 = -0x8000_0000_0000_0000;

/// A time on some timeline, or the marker for static data.
#[derive(Clone, Copy, Debug, PartialEq, Eq, PartialOrd, Ord, Hash, Structural)]
pub struct TimeInt {
    pub value: i64,
}

impl TimeInt {
    /// A time that is never the marker for static data: `i64::MIN` becomes the smallest time.
    pub fn new_temporal(time: i64) -> (r: TimeInt)
        ensures
            r == temporal(time),
            r.value >= TIME_MIN,
    {
        if time == TIME_STATIC {
            TimeInt { value: TIME_MIN }
        } else {
            TimeInt { value: time }
        }
    }

    pub fn as_i64(&self) -> (r: i64)
        ensures
            r == self.value,
    {
        self.value
    }
}

/// What [`TimeInt::new_temporal`] makes of a number.
pub open spec fn temporal(time: i64) -> TimeInt {
    if time == TIME_STATIC {
        TimeInt { value: TIME_MIN }
    } else {
        TimeInt { value: time }
    }
}

/// Whether a timeline counts nanoseconds or steps.
#[derive(Clone, Copy, Debug, PartialEq, Eq, PartialOrd, Ord, Hash, Structural)]
pub enum TimeType {
    Time,
    Sequence,
}

/// A named axis of time.
#[derive(Clone, Copy, Debug, PartialEq, Eq, PartialOrd, Ord, Hash)]
pub struct Timeline {
    pub name: InternedStr,
    pub typ: TimeType,
}

impl View for Timeline {
    type V = (Seq<char>, TimeType);

    open spec fn view(&self) -> (Seq<char>, TimeType) {
        (self.name@, self.typ)
    }
}

impl Timeline {
    pub fn new(name: &'static str, typ: TimeType) -> (r: Timeline)
        ensures
            r@ == (name@, typ),
    {
        Timeline { name: InternedStr::new(name), typ }
    }

    /// Whether both are the same timeline.
    pub fn is(&self, other: &Timeline) -> (r: bool)
        ensures
            r == (self@ == other@),
    {
        self.typ == other.typ && self.name.is(&other.name)
    }
}

// ---

/// Two to the power of sixty-four.
pub const TWO_POW_64: u128 = 0x1_0000_0000_0000_0000;

/// The identifier of a logged row: the logger's clock in the upper half, a counter in the lower.
///
/// Rows are ordered by it, which is roughly the order in which they were logged.
#[derive(Clone, Copy, Debug, PartialEq, Eq, PartialOrd, Ord, Hash, Structural)]
pub struct RowId {
    pub bits: u128,
}

impl RowId {
    /// The clock half: nanoseconds since the epoch.
    pub open spec fn nanos(self) -> int {
        self.bits as int / TWO_POW_64 as int
    }

    /// The counter half.
    pub open spec fn inc(self) -> int {
        self.bits as int % TWO_POW_64 as int
    }

    /// The identifier whose counter lies `n` further on, the counter wrapping around.
    pub open spec fn plus(self, n: int) -> RowId {
        RowId {
            bits: (self.nanos() * TWO_POW_64 as int + (self.inc() + n) % (TWO_POW_64 as int)) as u128,
        }
    }

    pub fn from_parts(time_ns: u64, inc: u64) -> (r: RowId)
        ensures
            r.nanos() == time_ns,
            r.inc() == inc,
    {
        let bits: u128 = (time_ns as u128) * TWO_POW_64 + inc as u128;
        proof {
            lemma_halves(time_ns as int, inc as int);
        }
        RowId { bits }
    }

    /// The smallest identifier of all.
    pub fn zero() -> (r: RowId)
        ensures
            r.bits == 0,
    {
        RowId { bits: 0 }
    }

    /// When the row was logged, in nanoseconds since the epoch.
    pub fn nanoseconds_since_epoch(&self) -> (r: u64)
        ensures
            r == self.nanos(),
    {
        (self.bits / TWO_POW_64) as u64
    }

    /// The `n`-th identifier after this one, the counter wrapping around.
    pub fn incremented_by(&self, n: u64) -> (r: RowId)
        ensures
            r == self.plus(n as int),
            r.nanos() == self.nanos(),
            r.inc() == (self.inc() + n) % (TWO_POW_64 as int),
    {
        let hi: u128 = self.bits / TWO_POW_64;
        let lo: u128 = (self.bits % TWO_POW_64 + n as u128) % TWO_POW_64;
        let bits: u128 = hi * TWO_POW_64 + lo;
        proof {
            lemma_halves(hi as int, lo as int);
        }
        RowId { bits }
    }

    /// The identifier right after this one, the counter wrapping around.
    pub fn next(&self) -> (r: RowId)
        ensures
            r == self.plus(1),
    {
        self.incremented_by(1)
    }
}

proof fn lemma_halves(hi: int, lo: int)
    requires
        0 <= hi < TWO_POW_64,
        0 <= lo < TWO_POW_64,
    ensures
        (hi * TWO_POW_64 as int + lo) / (TWO_POW_64 as int) == hi,
        (hi * TWO_POW_64 as int + lo) % (TWO_POW_64 as int) == lo,
        0 <= hi * TWO_POW_64 as int + lo < 0x1_0000_0000_0000_0000_0000_0000_0000_0000,
{
    vstd::arithmetic::div_mod::lemma_fundamental_div_mod_converse(
        hi * TWO_POW_64 as int + lo,
        TWO_POW_64 as int,
        hi,
        lo,
    );
}

pub proof fn lemma_plus_keeps_nanos(id: RowId, n: int)
    ensures
        id.plus(n).nanos() == id.nanos(),
        id.plus(n).inc() == (id.inc() + n) % (TWO_POW_64 as int),
{
    lemma_halves(id.nanos(), (id.inc() + n) % (TWO_POW_64 as int));
}

/// An id grows with its counter, as long as that does not wrap around.
pub proof fn lemma_plus_grows(id: RowId, n: int)
    requires
        0 <= n,
        id.inc() + n < TWO_POW_64,
    ensures
        id.plus(n).bits == id.bits + n,
        id.plus(n).nanos() == id.nanos(),
        id.plus(n).inc() == id.inc() + n,
{
    let t = TWO_POW_64 as int;
    lemma_plus_keeps_nanos(id, n);
    vstd::arithmetic::div_mod::lemma_small_mod((id.inc() + n) as nat, t as nat);
    vstd::arithmetic::div_mod::lemma_fundamental_div_mod(id.bits as int, t);
    lemma_halves(id.nanos(), id.inc() + n);
    assert(t * id.nanos() == id.nanos() * t) by (nonlinear_arith);
}

/// Law: incrementing moves the counter on by as much, wrapping around, and leaves the clock alone.
/// As long as the counter does not wrap around, the identifier grows by just as much.
pub proof fn law_increments_move_the_counter(id: RowId, n: u64)
    ensures
        id.plus(n as int).nanos() == id.nanos(),
        id.plus(n as int).inc() == (id.inc() + n) % 0x1_0000_0000_0000_0000,
        id.inc() + n < 0x1_0000_0000_0000_0000 ==> id.plus(n as int).bits == id.bits + n,
{
    let t = TWO_POW_64 as int;
    lemma_halves(id.nanos(), (id.inc() + n) % t);
    assert(id.nanos() * t + id.inc() == id.bits) by (nonlinear_arith)
        requires
            id.nanos() == id.bits as int / t,
            id.inc() == id.bits as int % t,
            t > 0,
    ;
}

/// Law: incrementing by `m` and then by `n` is incrementing by `m + n`, whether or not the counter
/// wraps around on the way.
pub proof fn law_increments_add_up(id: RowId, m: u64, n: u64)
    ensures
        id.plus(m as int).plus(n as int) == id.plus(m + n),
{
    let t = TWO_POW_64 as int;
    let hi = id.nanos();
    lemma_halves(hi, (id.inc() + m) % t);
    assert(id.plus(m as int).nanos() == hi);
    assert(id.plus(m as int).inc() == (id.inc() + m) % t);
    vstd::arithmetic::div_mod::lemma_add_mod_noop_right(n as int, id.inc() + m, t);
    assert(((id.inc() + m) % t + n) % t == (id.inc() + m + n) % t);
}

// ---

/// Whether a store holds recorded data or the description of a layout.
#[derive(Clone, Copy, Debug, PartialEq, Eq, PartialOrd, Ord, Hash, Structural)]
pub enum StoreKind {
    Recording,
    Blueprint,
}

/// The identity of a store.
#[derive(Debug, PartialEq, Eq, PartialOrd, Ord, Hash)]
pub struct StoreId {
    pub kind: StoreKind,
    pub id: Arc<String>,
}

impl Clone for StoreId {
    fn clone(&self) -> (r: StoreId)
        ensures
            r == *self,
    {
        StoreId { kind: self.kind, id: share(&self.id) }
    }
}

impl StoreId {
    pub fn from_string(kind: StoreKind, id: String) -> (r: StoreId)
        ensures
            r.kind == kind,
            (*r.id)@ == id@,
    {
        StoreId { kind, id: Arc::new(id) }
    }

    /// Whether both name the same store.
    pub open spec fn same(self, other: StoreId) -> bool {
        self.kind == other.kind && (*self.id)@ == (*other.id)@
    }

    pub fn is(&self, other: &StoreId) -> (r: bool)
        ensures
            r == self.same(*other),
    {
        self.kind == other.kind && *self.id == *other.id
    }
}

} // verus!
