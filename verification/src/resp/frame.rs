//! The frame model: a tagged variant over the ten RESP frame shapes, together
//! with its mathematical view and the well-formedness predicate that the
//! round-trip laws are stated over.

use vstd::prelude::*;

verus! {

/// Simple string: UTF-8 text without CR or LF, kept as its raw bytes.
#[derive(Debug, Clone, PartialEq, Eq)]
pub struct SimpleString(pub Vec<u8>);

/// Simple error: UTF-8 text without CR or LF, kept as its raw bytes.
#[derive(Debug, Clone, PartialEq, Eq)]
pub struct SimpleError(pub Vec<u8>);

/// Bulk string: an arbitrary byte sequence, possibly empty.
#[derive(Debug, Clone, PartialEq, Eq)]
pub struct BulkString(pub Vec<u8>);

/// Legacy null bulk string, encoded `$-1\r\n`.  Decoding turns this legacy
/// form into an empty `BulkString`; the struct remains for encoding it.
#[derive(Debug, Clone, PartialEq, Eq)]
pub struct RespNullBulkString;

/// Array: an ordered sequence of frames, possibly empty.
#[derive(Debug, PartialEq)]
pub struct RespArray(pub Vec<RespFrame>);

/// Legacy null array, encoded `*-1\r\n`.  Decoding turns this legacy form
/// into an empty `RespArray`; the struct remains for encoding it.
#[derive(Debug, Clone, PartialEq, Eq)]
pub struct RespNullArray;

/// The RESP3 null value, encoded `_\r\n`.
#[derive(Debug, Clone, PartialEq, Eq)]
pub struct RespNull;

/// Map: entries from a text key (bytes without CR or LF) to a frame, held in
/// strictly ascending key order, without duplicate keys.
#[derive(Debug, PartialEq)]
pub struct RespMap(pub Vec<(Vec<u8>, RespFrame)>);

/// Set: an ordered sequence of frames treated as a set on the wire.
#[derive(Debug, PartialEq)]
pub struct RespSet(pub Vec<RespFrame>);

/// One RESP frame.  The `Double` variant carries the rendered decimal text of
/// the number (sign included), not a floating-point value: the wire format is
/// textual, and all codec logic depends only on that text.
#[derive(Debug, PartialEq)]
pub enum RespFrame {
    SimpleString(SimpleString),
    Error(SimpleError),
    Integer(i64),
    BulkString(BulkString),
    Array(RespArray),
    Null(RespNull),
    Boolean(bool),
    Double(Vec<u8>),
    MapFrame(RespMap),
    SetFrame(RespSet),
}

/// The mathematical value of a frame: the same tree with every executable
/// collection replaced by its abstract sequence.
pub enum FrameView {
    Simple(Seq<u8>),
    Error(Seq<u8>),
    Int(int),
    Bulk(Seq<u8>),
    Arr(Seq<FrameView>),
    Null,
    Bool(bool),
    Double(Seq<u8>),
    MapF(Seq<(Seq<u8>, FrameView)>),
    SetF(Seq<FrameView>),
}

impl View for SimpleString {
    type V = Seq<u8>;

    open spec fn view(&self) -> Seq<u8> {
        self.0@
    }
}

impl View for SimpleError {
    type V = Seq<u8>;

    open spec fn view(&self) -> Seq<u8> {
        self.0@
    }
}

impl View for BulkString {
    type V = Seq<u8>;

    open spec fn view(&self) -> Seq<u8> {
        self.0@
    }
}

/// The views of a sequence of frames, element by element.
pub open spec fn views_of(s: Seq<RespFrame>) -> Seq<FrameView>
    decreases s,
{
    Seq::new(s.len(), |i: int| if 0 <= i < s.len() { s[i]@ } else { arbitrary() })
}

/// The views of a sequence of key-value entries, entry by entry.
pub open spec fn pair_views_of(s: Seq<(Vec<u8>, RespFrame)>) -> Seq<(Seq<u8>, FrameView)>
    decreases s,
{
    Seq::new(
        s.len(),
        |i: int| if 0 <= i < s.len() { (s[i].0@, s[i].1@) } else { arbitrary() },
    )
}

impl View for RespFrame {
    type V = FrameView;

    open spec fn view(&self) -> FrameView
        decreases self,
    {
        match self {
            RespFrame::SimpleString(s) => FrameView::Simple(s.0@),
            RespFrame::Error(e) => FrameView::Error(e.0@),
            RespFrame::Integer(n) => FrameView::Int(*n as int),
            RespFrame::BulkString(b) => FrameView::Bulk(b.0@),
            RespFrame::Array(a) => FrameView::Arr(views_of(a.0@)),
            RespFrame::Null(_) => FrameView::Null,
            RespFrame::Boolean(b) => FrameView::Bool(*b),
            RespFrame::Double(t) => FrameView::Double(t@),
            RespFrame::MapFrame(m) => FrameView::MapF(pair_views_of(m.0@)),
            RespFrame::SetFrame(s) => FrameView::SetF(views_of(s.0@)),
        }
    }
}

impl View for RespArray {
    type V = Seq<FrameView>;

    open spec fn view(&self) -> Seq<FrameView> {
        views_of(self.0@)
    }
}

impl View for RespSet {
    type V = Seq<FrameView>;

    open spec fn view(&self) -> Seq<FrameView> {
        views_of(self.0@)
    }
}

impl View for RespMap {
    type V = Seq<(Seq<u8>, FrameView)>;

    open spec fn view(&self) -> Seq<(Seq<u8>, FrameView)> {
        pair_views_of(self.0@)
    }
}

/// Copy a byte vector.
pub(crate) fn clone_bytes(v: &Vec<u8>) -> (r: Vec<u8>)
    ensures
        r@ == v@,
{
    let r = v.clone();
    proof {
        assert(r@ =~= v@);
    }
    r
}

impl Clone for RespFrame {
    /// Deep copy; the copy has the same mathematical value.
    fn clone(&self) -> (res: Self)
        ensures
            res@ == self@,
        decreases self,
    {
        match self {
            RespFrame::SimpleString(s) => RespFrame::SimpleString(SimpleString(clone_bytes(&s.0))),
            RespFrame::Error(e) => RespFrame::Error(SimpleError(clone_bytes(&e.0))),
            RespFrame::Integer(n) => RespFrame::Integer(*n),
            RespFrame::BulkString(b) => RespFrame::BulkString(BulkString(clone_bytes(&b.0))),
            RespFrame::Array(a) => {
                let res = RespFrame::Array(RespArray(clone_frames(&a.0)));
                proof {
                    assert(res@ == self@);
                }
                res
            },
            RespFrame::Null(_) => RespFrame::Null(RespNull),
            RespFrame::Boolean(b) => RespFrame::Boolean(*b),
            RespFrame::Double(t) => RespFrame::Double(clone_bytes(t)),
            RespFrame::MapFrame(m) => {
                let res = RespFrame::MapFrame(RespMap(clone_pairs(&m.0)));
                proof {
                    assert(res@ == self@);
                }
                res
            },
            RespFrame::SetFrame(s) => {
                let res = RespFrame::SetFrame(RespSet(clone_frames(&s.0)));
                proof {
                    assert(res@ == self@);
                }
                res
            },
        }
    }
}

/// Deep copy of a frame vector, element by element.
pub(crate) fn clone_frames(v: &Vec<RespFrame>) -> (r: Vec<RespFrame>)
    ensures
        views_of(r@) == views_of(v@),
    decreases v,
{
    let mut r: Vec<RespFrame> = Vec::new();
    let n = v.len();
    let mut i: usize = 0;
    while i < n
        invariant
            i <= n,
            n == v@.len(),
            r@.len() == i,
            forall|j: int| 0 <= j < i ==> #[trigger] r@[j]@ == v@[j]@,
        decreases n - i,
    {
        proof {
            assert(decreases_to!(v => v@[i as int]));
        }
        let e = (&v[i]).clone();
        r.push(e);
        i = i + 1;
    }
    proof {
        assert forall|j: int| 0 <= j < v@.len() implies views_of(r@)[j] == views_of(v@)[j] by {
            assert(r@[j]@ == v@[j]@);
        }
        assert(views_of(r@) =~= views_of(v@));
    }
    r
}

/// Deep copy of an entry vector, entry by entry.
pub(crate) fn clone_pairs(v: &Vec<(Vec<u8>, RespFrame)>) -> (r: Vec<(Vec<u8>, RespFrame)>)
    ensures
        pair_views_of(r@) == pair_views_of(v@),
    decreases v,
{
    let mut r: Vec<(Vec<u8>, RespFrame)> = Vec::new();
    let n = v.len();
    let mut i: usize = 0;
    while i < n
        invariant
            i <= n,
            n == v@.len(),
            r@.len() == i,
            forall|j: int| 0 <= j < i ==> #[trigger] r@[j].0@ == v@[j].0@,
            forall|j: int| 0 <= j < i ==> #[trigger] r@[j].1@ == v@[j].1@,
        decreases n - i,
    {
        proof {
            assert(decreases_to!(v => v@[i as int]));
        }
        let key = clone_bytes(&v[i].0);
        let val = (&v[i].1).clone();
        r.push((key, val));
        i = i + 1;
    }
    proof {
        assert forall|j: int| 0 <= j < v@.len() implies pair_views_of(r@)[j] == pair_views_of(
            v@,
        )[j] by {
            assert(r@[j].0@ == v@[j].0@ && r@[j].1@ == v@[j].1@);
        }
        assert(pair_views_of(r@) =~= pair_views_of(v@));
    }
    r
}

/// True when `s` holds neither a carriage return nor a line feed, so that a
/// single line `<prefix><s>\r\n` is delimited by its own terminator.
pub open spec fn line_safe(s: Seq<u8>) -> bool {
    forall|i: int| 0 <= i < s.len() ==> s[i] != 13u8 && s[i] != 10u8
}

/// Strict byte-wise lexicographic order, the order map keys are emitted in.
pub open spec fn bytes_lt(a: Seq<u8>, b: Seq<u8>) -> bool
    decreases a.len(),
{
    if b.len() == 0 {
        false
    } else if a.len() == 0 {
        true
    } else if a[0] < b[0] {
        true
    } else if a[0] > b[0] {
        false
    } else {
        bytes_lt(a.subrange(1, a.len() as int), b.subrange(1, b.len() as int))
    }
}

/// Insert an entry into a key-sorted entry list, replacing an equal key in
/// place and otherwise keeping ascending order.
pub open spec fn map_insert(
    ps: Seq<(Seq<u8>, FrameView)>,
    k: Seq<u8>,
    v: FrameView,
) -> Seq<(Seq<u8>, FrameView)>
    decreases ps.len(),
{
    if ps.len() == 0 {
        seq![(k, v)]
    } else if bytes_lt(k, ps[0].0) {
        seq![(k, v)] + ps
    } else if k == ps[0].0 {
        seq![(k, v)] + ps.subrange(1, ps.len() as int)
    } else {
        seq![ps[0]] + map_insert(ps.subrange(1, ps.len() as int), k, v)
    }
}

/// True when the map entries are in strictly ascending key order (which also
/// rules out duplicate keys).
pub open spec fn entries_sorted(ps: Seq<(Seq<u8>, FrameView)>) -> bool {
    forall|i: int, j: int| 0 <= i < j < ps.len() ==> bytes_lt(ps[i].0, ps[j].0)
}

impl FrameView {
    /// Well-formedness: every line payload is free of CR and LF, every double
    /// payload is rendered decimal text, map entries are strictly sorted by
    /// key, and every count or length fits a signed 64-bit wire header.
    pub open spec fn wf(self) -> bool
        decreases self,
    {
        match self {
            FrameView::Simple(s) => line_safe(s),
            FrameView::Error(s) => line_safe(s),
            FrameView::Int(n) => i64::MIN <= n <= i64::MAX,
            FrameView::Bulk(b) => b.len() <= i64::MAX,
            FrameView::Arr(es) => es.len() <= i64::MAX && (forall|i: int|
                0 <= i < es.len() ==> (#[trigger] es[i]).wf()),
            FrameView::Null => true,
            FrameView::Bool(_) => true,
            FrameView::Double(t) => crate::resp::decode::double_text(t) && line_safe(t) && t.len()
                <= i64::MAX,
            FrameView::MapF(ps) => {
                &&& ps.len() <= i64::MAX
                &&& entries_sorted(ps)
                &&& forall|i: int| 0 <= i < ps.len() ==> line_safe(#[trigger] ps[i].0)
                &&& forall|i: int| 0 <= i < ps.len() ==> ((#[trigger] ps[i]).1).wf()
            },
            FrameView::SetF(es) => es.len() <= i64::MAX && (forall|i: int|
                0 <= i < es.len() ==> (#[trigger] es[i]).wf()),
        }
    }
}


/// Exactly one of `a < b`, `a == b`, `b < a` holds.
pub proof fn lemma_bytes_lt_trichotomy(a: Seq<u8>, b: Seq<u8>)
    ensures
        bytes_lt(a, b) || bytes_lt(b, a) || a == b,
        bytes_lt(a, b) ==> !bytes_lt(b, a) && a != b,
    decreases a.len(),
{
    if a.len() == 0 && b.len() == 0 {
        assert(a =~= b);
    } else if a.len() > 0 && b.len() > 0 && a[0] == b[0] {
        let at = a.subrange(1, a.len() as int);
        let bt = b.subrange(1, b.len() as int);
        lemma_bytes_lt_trichotomy(at, bt);
        if at == bt {
            assert forall|j: int| 0 <= j < a.len() implies a[j] == b[j] by {
                if j >= 1 {
                    assert(a[j] == at[j - 1]);
                    assert(b[j] == bt[j - 1]);
                }
            }
            assert(a =~= b);
        }
        if a == b {
            assert(at =~= bt);
        }
    } else {
        if a == b && a.len() > 0 {
            assert(a[0] == b[0]);
        }
    }
}

/// `bytes_lt` is transitive.
pub proof fn lemma_bytes_lt_trans(a: Seq<u8>, b: Seq<u8>, c: Seq<u8>)
    requires
        bytes_lt(a, b),
        bytes_lt(b, c),
    ensures
        bytes_lt(a, c),
    decreases a.len(),
{
    if a.len() > 0 && b.len() > 0 && c.len() > 0 && a[0] == b[0] && b[0] == c[0] {
        lemma_bytes_lt_trans(
            a.subrange(1, a.len() as int),
            b.subrange(1, b.len() as int),
            c.subrange(1, c.len() as int),
        );
    }
}

/// Compare two byte strings in strict lexicographic order.
pub(crate) fn bytes_lt_exec(a: &[u8], b: &[u8]) -> (r: bool)
    ensures
        r == bytes_lt(a@, b@),
{
    let na = a.len();
    let nb = b.len();
    proof {
        assert(a@.skip(0) =~= a@);
        assert(b@.skip(0) =~= b@);
    }
    let mut i: usize = 0;
    while i < na && i < nb
        invariant
            i <= na,
            i <= nb,
            na == a@.len(),
            nb == b@.len(),
            bytes_lt(a@, b@) == bytes_lt(a@.skip(i as int), b@.skip(i as int)),
            forall|j: int| 0 <= j < i ==> a@[j] == b@[j],
        decreases na - i,
    {
        let ghost sa = a@.skip(i as int);
        let ghost sb = b@.skip(i as int);
        proof {
            assert(sa[0] == a@[i as int]);
            assert(sb[0] == b@[i as int]);
        }
        if a[i] < b[i] {
            return true;
        }
        if a[i] > b[i] {
            return false;
        }
        proof {
            assert(sa.subrange(1, sa.len() as int) =~= a@.skip(i as int + 1));
            assert(sb.subrange(1, sb.len() as int) =~= b@.skip(i as int + 1));
        }
        i = i + 1;
    }
    proof {
        assert(a@.skip(i as int).len() == na - i);
        assert(b@.skip(i as int).len() == nb - i);
    }
    i < nb
}

/// Where the scan stopped determines what `map_insert` produces: the new
/// entry lands at index `i`, replacing the old entry when the keys are equal.
pub(crate) proof fn lemma_map_insert_at(
    ps: Seq<(Seq<u8>, FrameView)>,
    k: Seq<u8>,
    v: FrameView,
    i: int,
)
    requires
        0 <= i <= ps.len(),
        forall|j: int| 0 <= j < i ==> bytes_lt(#[trigger] ps[j].0, k),
        i < ps.len() ==> !bytes_lt(ps[i].0, k),
    ensures
        i < ps.len() && ps[i].0 == k ==> map_insert(ps, k, v) == ps.take(i) + seq![(k, v)]
            + ps.skip(i + 1),
        !(i < ps.len() && ps[i].0 == k) ==> map_insert(ps, k, v) == ps.take(i) + seq![(k, v)]
            + ps.skip(i),
    decreases i,
{
    if i == 0 {
        if ps.len() == 0 {
            assert(map_insert(ps, k, v) =~= ps.take(0) + seq![(k, v)] + ps.skip(0));
        } else if ps[0].0 == k {
            assert(ps.subrange(1, ps.len() as int) =~= ps.skip(1));
            assert(map_insert(ps, k, v) =~= ps.take(0) + seq![(k, v)] + ps.skip(1));
        } else {
            lemma_bytes_lt_trichotomy(k, ps[0].0);
            assert(bytes_lt(k, ps[0].0));
            assert(map_insert(ps, k, v) =~= ps.take(0) + seq![(k, v)] + ps.skip(0));
        }
    } else {
        let tail = ps.subrange(1, ps.len() as int);
        assert(bytes_lt(ps[0].0, k));
        lemma_bytes_lt_trichotomy(k, ps[0].0);
        assert(!bytes_lt(k, ps[0].0) && k != ps[0].0);
        assert(forall|j: int| 0 <= j < i - 1 ==> bytes_lt(#[trigger] tail[j].0, k));
        lemma_map_insert_at(tail, k, v, i - 1);
        if i < ps.len() && ps[i].0 == k {
            assert(tail[i - 1].0 == k);
            assert(seq![ps[0]] + (tail.take(i - 1) + seq![(k, v)] + tail.skip(i)) =~= ps.take(i)
                + seq![(k, v)] + ps.skip(i + 1));
        } else {
            assert(seq![ps[0]] + (tail.take(i - 1) + seq![(k, v)] + tail.skip(i - 1)) =~= ps.take(i)
                + seq![(k, v)] + ps.skip(i));
        }
    }
}

impl RespMap {
    /// An empty map frame.
    pub fn new() -> (r: RespMap)
        ensures
            r@ == Seq::<(Seq<u8>, FrameView)>::empty(),
    {
        let r = RespMap(Vec::new());
        proof {
            assert(r@ =~= Seq::<(Seq<u8>, FrameView)>::empty());
        }
        r
    }

    /// Number of entries.
    pub fn len(&self) -> (r: usize)
        ensures
            r == self@.len(),
    {
        self.0.len()
    }

    /// Insert an entry, keeping entries sorted by key: an entry with an equal
    /// key is replaced in place, any other key is placed at its ordered
    /// position.
    pub fn insert(&mut self, key: Vec<u8>, value: RespFrame)
        ensures
            final(self)@ == map_insert(old(self)@, key@, value@),
    {
        let ghost ps = pair_views_of(old(self).0@);
        let n = self.0.len();
        let mut i: usize = 0;
        while i < n && bytes_lt_exec(self.0[i].0.as_slice(), key.as_slice())
            invariant
                i <= n,
                n == self.0@.len(),
                *self == *old(self),
                ps == pair_views_of(self.0@),
                forall|j: int| 0 <= j < i ==> bytes_lt(#[trigger] ps[j].0, key@),
            decreases n - i,
        {
            i = i + 1;
        }
        proof {
            if i < n {
                assert(ps[i as int].0 == self.0@[i as int].0@);
            }
            lemma_map_insert_at(ps, key@, value@, i as int);
        }
        if i < n && self.0[i].0 == key {
            proof {
                assert(self.0@[i as int].0@ =~= key@);
            }
            self.0.remove(i);
            self.0.insert(i, (key, value));
            proof {
                assert(pair_views_of(self.0@) =~= ps.take(i as int) + seq![(key@, value@)]
                    + ps.skip(i as int + 1));
            }
        } else {
            proof {
                if i < n {
                    if self.0@[i as int].0@ == key@ {
                        assert(self.0@[i as int].0 == key);
                    }
                    assert(ps[i as int].0 != key@);
                }
            }
            self.0.insert(i, (key, value));
            proof {
                assert(pair_views_of(self.0@) =~= ps.take(i as int) + seq![(key@, value@)]
                    + ps.skip(i as int));
            }
        }
    }
}

impl SimpleString {
    /// Wrap raw text bytes as a simple string frame payload.
    pub fn new(s: Vec<u8>) -> (r: SimpleString)
        ensures
            r@ == s@,
    {
        SimpleString(s)
    }
}

impl SimpleError {
    /// Wrap raw text bytes as a simple error frame payload.
    pub fn new(s: Vec<u8>) -> (r: SimpleError)
        ensures
            r@ == s@,
    {
        SimpleError(s)
    }
}

impl BulkString {
    /// Wrap raw bytes as a bulk string frame payload.
    pub fn new(b: Vec<u8>) -> (r: BulkString)
        ensures
            r@ == b@,
    {
        BulkString(b)
    }
}

impl RespArray {
    /// Wrap a vector of frames as an array frame.
    pub fn new(es: Vec<RespFrame>) -> (r: RespArray)
        ensures
            r@ == Seq::new(es@.len(), |i: int| es@[i]@),
    {
        RespArray(es)
    }

    /// Number of elements.
    pub fn len(&self) -> (r: usize)
        ensures
            r == self@.len(),
    {
        self.0.len()
    }
}

impl RespSet {
    /// Wrap a vector of frames as a set frame.
    pub fn new(es: Vec<RespFrame>) -> (r: RespSet)
        ensures
            r@ == Seq::new(es@.len(), |i: int| es@[i]@),
    {
        RespSet(es)
    }
}

impl From<SimpleString> for RespFrame {
    fn from(s: SimpleString) -> (r: RespFrame) {
        RespFrame::SimpleString(s)
    }
}

impl vstd::std_specs::convert::FromSpecImpl<SimpleString> for RespFrame {
    open spec fn obeys_from_spec() -> bool {
        true
    }

    open spec fn from_spec(s: SimpleString) -> RespFrame {
        RespFrame::SimpleString(s)
    }
}

impl From<SimpleError> for RespFrame {
    fn from(s: SimpleError) -> (r: RespFrame) {
        RespFrame::Error(s)
    }
}

impl vstd::std_specs::convert::FromSpecImpl<SimpleError> for RespFrame {
    open spec fn obeys_from_spec() -> bool {
        true
    }

    open spec fn from_spec(s: SimpleError) -> RespFrame {
        RespFrame::Error(s)
    }
}

impl From<i64> for RespFrame {
    fn from(n: i64) -> (r: RespFrame) {
        RespFrame::Integer(n)
    }
}

impl vstd::std_specs::convert::FromSpecImpl<i64> for RespFrame {
    open spec fn obeys_from_spec() -> bool {
        true
    }

    open spec fn from_spec(n: i64) -> RespFrame {
        RespFrame::Integer(n)
    }
}

impl From<BulkString> for RespFrame {
    fn from(b: BulkString) -> (r: RespFrame) {
        RespFrame::BulkString(b)
    }
}

impl vstd::std_specs::convert::FromSpecImpl<BulkString> for RespFrame {
    open spec fn obeys_from_spec() -> bool {
        true
    }

    open spec fn from_spec(b: BulkString) -> RespFrame {
        RespFrame::BulkString(b)
    }
}

impl From<RespArray> for RespFrame {
    fn from(a: RespArray) -> (r: RespFrame) {
        RespFrame::Array(a)
    }
}

impl vstd::std_specs::convert::FromSpecImpl<RespArray> for RespFrame {
    open spec fn obeys_from_spec() -> bool {
        true
    }

    open spec fn from_spec(a: RespArray) -> RespFrame {
        RespFrame::Array(a)
    }
}

impl From<RespNull> for RespFrame {
    fn from(n: RespNull) -> (r: RespFrame) {
        RespFrame::Null(n)
    }
}

impl vstd::std_specs::convert::FromSpecImpl<RespNull> for RespFrame {
    open spec fn obeys_from_spec() -> bool {
        true
    }

    open spec fn from_spec(n: RespNull) -> RespFrame {
        RespFrame::Null(n)
    }
}

impl From<bool> for RespFrame {
    fn from(b: bool) -> (r: RespFrame) {
        RespFrame::Boolean(b)
    }
}

impl vstd::std_specs::convert::FromSpecImpl<bool> for RespFrame {
    open spec fn obeys_from_spec() -> bool {
        true
    }

    open spec fn from_spec(b: bool) -> RespFrame {
        RespFrame::Boolean(b)
    }
}

impl From<RespMap> for RespFrame {
    fn from(m: RespMap) -> (r: RespFrame) {
        RespFrame::MapFrame(m)
    }
}

impl vstd::std_specs::convert::FromSpecImpl<RespMap> for RespFrame {
    open spec fn obeys_from_spec() -> bool {
        true
    }

    open spec fn from_spec(m: RespMap) -> RespFrame {
        RespFrame::MapFrame(m)
    }
}

impl From<RespSet> for RespFrame {
    fn from(s: RespSet) -> (r: RespFrame) {
        RespFrame::SetFrame(s)
    }
}

impl vstd::std_specs::convert::FromSpecImpl<RespSet> for RespFrame {
    open spec fn obeys_from_spec() -> bool {
        true
    }

    open spec fn from_spec(s: RespSet) -> RespFrame {
        RespFrame::SetFrame(s)
    }
}

} // verus!
