use vstd::prelude::*;

use crate::record::{span_is, LogEvent};
use crate::ulid::millis_of;

verus! {

broadcast use vstd::seq_lib::group_to_multiset_ensures;

/// The default bucket: one hour, in seconds.
pub const DEFAULT_BUCKET_SECONDS: i64 = 3600;

/// A bucketed-count query: records with identifier time in
/// `[from_date, to_date)` (milliseconds since the Unix epoch), grouped by
/// `group_by_duration` seconds (one hour when absent).
pub struct ViewsRequest {
    pub from_date: i64,
    pub to_date: i64,
    pub group_by_duration: Option<i64>,
}

/// Why a query cannot be answered.
#[derive(Debug, PartialEq, Eq, Structural, Clone, Copy)]
pub enum ViewsError {
    /// The bucket duration is not positive.
    InvalidDuration,
}

/// Bucket starts (seconds since the Unix epoch) and the count of each.
pub struct ViewsData {
    pub x: Vec<i64>,
    pub y: Vec<usize>,
}

/// The bucket duration of a query, in seconds.
pub open spec fn duration_of(req: ViewsRequest) -> int {
    match req.group_by_duration {
        Some(d) => d as int,
        None => DEFAULT_BUCKET_SECONDS as int,
    }
}

/// The start of the bucket of `duration` seconds that holds the second of
/// millisecond `millis`.
pub open spec fn bucket_start(millis: int, duration: int) -> int {
    let secs = millis / 1000;
    secs - secs % duration
}

/// The bucket that an event with identifier `id` and category `ev_category`
/// is counted in, or `None` when the query leaves it out.
pub open spec fn event_bucket(req: ViewsRequest, category: Seq<char>, ev_category: Seq<char>, id: u128) -> Option<int> {
    if ev_category == category && req.from_date <= millis_of(id) < req.to_date {
        Some(bucket_start(millis_of(id) as int, duration_of(req)))
    } else {
        None
    }
}

/// The buckets of the events that a query keeps, in stream order.
pub open spec fn kept_buckets(events: Seq<LogEvent>, category: Seq<char>, req: ViewsRequest) -> Seq<
    int,
>
    decreases events.len(),
{
    if events.len() == 0 {
        Seq::empty()
    } else {
        let rest = kept_buckets(events.drop_last(), category, req);
        let ev = events.last();
        match event_bucket(req, category, ev.category@, ev.id@) {
            Some(b) => rest.push(b),
            None => rest,
        }
    }
}

/// `x` and `y` answer a query whose kept records fall in the buckets
/// `keys`: `x` holds exactly the buckets that occur, in increasing order,
/// and `y` how often each occurs (never zero).
pub open spec fn views_exact(x: Seq<i64>, y: Seq<usize>, keys: Seq<int>) -> bool {
    &&& x.len() == y.len()
    &&& forall|i: int, j: int| 0 <= i < j < x.len() ==> x[i] < x[j]
    &&& forall|i: int| 0 <= i < x.len() ==> y[i] == keys.to_multiset().count(x[i] as int)
    &&& forall|i: int| 0 <= i < x.len() ==> y[i] > 0
    &&& forall|b: int| #[trigger] keys.to_multiset().count(b) > 0 ==> exists|i: int|
        0 <= i < x.len() && x[i] == b
}

/// Accumulates bucket counts in any order of arrival.
pub struct ViewsAccumulator {
    x: Vec<i64>,
    y: Vec<usize>,
    n: usize,
    keys: Ghost<Seq<int>>,
}

impl View for ViewsAccumulator {
    type V = Seq<int>;

    /// The buckets added so far.
    closed spec fn view(&self) -> Seq<int> {
        self.keys@
    }
}

impl ViewsAccumulator {
    pub closed spec fn wf(&self) -> bool {
        &&& views_exact(self.x@, self.y@, self.keys@)
        &&& self.n == self.keys@.len()
    }

    pub fn new() -> (r: ViewsAccumulator)
        ensures
            r.wf(),
            r@ == Seq::<int>::empty(),
    {
        ViewsAccumulator { x: Vec::new(), y: Vec::new(), n: 0, keys: Ghost(Seq::empty()) }
    }

    /// How many buckets were added.
    pub fn len(&self) -> (r: usize)
        requires
            self.wf(),
        ensures
            r == self@.len(),
    {
        self.n
    }

    /// Counts one more record in bucket `b`.
    pub fn add(&mut self, b: i64)
        requires
            old(self).wf(),
            old(self)@.len() < usize::MAX,
        ensures
            final(self).wf(),
            final(self)@ == old(self)@.push(b as int),
    {
        let ghost keys = self.keys@;
        let ghost nk = keys.push(b as int);
        assert(forall|v: int| #[trigger] nk.to_multiset().count(v) == keys.to_multiset().count(v) + if v
            == b {
            1int
        } else {
            0int
        });
        proof {
            vstd::multiset::axiom_count_le_len(keys.to_multiset(), b as int);
        }
        let len = self.x.len();
        let mut p: usize = 0;
        while p < len && self.x[p] < b
            invariant
                len == self.x@.len(),
                p <= len,
                forall|i: int| 0 <= i < p ==> self.x@[i] < b,
            decreases len - p,
        {
            p = p + 1;
        }
        if p < len && self.x[p] == b {
            let c = self.y[p];
            assert(c < usize::MAX);
            self.y.set(p, c + 1);
            self.keys = Ghost(nk);
        } else {
            proof {
                if keys.to_multiset().count(b as int) > 0 {
                    let i = choose|i: int| 0 <= i < self.x@.len() && self.x@[i] == b;
                    if i >= p {
                        assert(self.x@[p as int] <= self.x@[i]);
                    }
                }
            }
            self.x.insert(p, b);
            self.y.insert(p, 1);
            self.keys = Ghost(nk);
            assert forall|v: int| #[trigger] nk.to_multiset().count(v) > 0 implies exists|i: int|
                0 <= i < self.x@.len() && self.x@[i] == v by {
                if v != b {
                    let i = choose|i: int| 0 <= i < old(self).x@.len() && old(self).x@[i] == v;
                    if i < p {
                        assert(self.x@[i] == v);
                    } else {
                        assert(self.x@[i + 1] == v);
                    }
                } else {
                    assert(self.x@[p as int] == v);
                }
            }
        }
        self.n = self.n + 1;
    }

    /// The counts, by increasing bucket.
    pub fn finish(self) -> (r: ViewsData)
        requires
            self.wf(),
        ensures
            views_exact(r.x@, r.y@, self@),
    {
        ViewsData { x: self.x, y: self.y }
    }
}


impl ViewsRequest {
    /// The bucket duration in seconds.
    pub fn duration(&self) -> (r: i64)
        ensures
            r == duration_of(*self),
    {
        match self.group_by_duration {
            Some(d) => d,
            None => DEFAULT_BUCKET_SECONDS,
        }
    }

    /// The bucket that `event` is counted in when the query asks for
    /// `category`, or `None` when the query leaves it out.
    pub fn bucket_for(&self, category: &str, event: &LogEvent) -> (r: Option<i64>)
        requires
            duration_of(*self) > 0,
        ensures
            match event_bucket(*self, category@, event.category@, event.id@) {
                Some(b) => r == Some(b as i64),
                None => r is None,
            },
    {
        let n = event.category.as_str().unicode_len();
        if !span_is(event.category.as_str(), 0, n, category) {
            assert(event.category@.subrange(0, n as int) =~= event.category@);
            return None;
        }
        assert(event.category@.subrange(0, n as int) =~= event.category@);
        let ms = event.id.timestamp_millis();
        if !(self.from_date <= ms && ms < self.to_date) {
            return None;
        }
        let dur = self.duration();
        let secs = ms / 1000;
        Some(secs - secs % dur)
    }
}

/// Counts, by bucket, the events of `category` whose identifier time lies in
/// the query's interval.  The result does not depend on the order of
/// `events`.
pub fn get_views_data(events: &Vec<LogEvent>, category: &str, request: &ViewsRequest) -> (r: Result<
    ViewsData,
    ViewsError,
>)
    ensures
        duration_of(*request) <= 0 ==> r == Err::<ViewsData, ViewsError>(
            ViewsError::InvalidDuration,
        ),
        duration_of(*request) > 0 ==> (r matches Ok(d) && views_exact(
            d.x@,
            d.y@,
            kept_buckets(events@, category@, *request),
        )),
{
    if request.duration() <= 0 {
        return Err(ViewsError::InvalidDuration);
    }
    let mut acc = ViewsAccumulator::new();
    for i in 0..events.len()
        invariant
            duration_of(*request) > 0,
            acc.wf(),
            acc@ == kept_buckets(events@.take(i as int), category@, *request),
            acc@.len() <= i,
    {
        assert(events@.take(i + 1).drop_last() =~= events@.take(i as int));
        if let Some(b) = request.bucket_for(category, &events[i]) {
            acc.add(b);
        }
    }
    assert(events@.take(events@.len() as int) =~= events@);
    Ok(acc.finish())
}

/// When no record is kept the answer is empty.
pub proof fn lemma_views_none_kept(x: Seq<i64>, y: Seq<usize>)
    requires
        views_exact(x, y, Seq::<int>::empty()),
    ensures
        x.len() == 0,
        y.len() == 0,
{
    if x.len() > 0 {
        assert(y[0] == Seq::<int>::empty().to_multiset().count(x[0] as int));
    }
}

/// The answer depends only on how many kept records fall in each bucket:
/// two streams that hold the same buckets, in whatever order, get the same
/// answer.
pub proof fn lemma_views_order_free(x: Seq<i64>, y: Seq<usize>, k1: Seq<int>, k2: Seq<int>)
    requires
        k1.to_multiset() == k2.to_multiset(),
        views_exact(x, y, k1),
    ensures
        views_exact(x, y, k2),
{
}

} // verus!
