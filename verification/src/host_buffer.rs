//! Conventions of the host-function ABI: the "no node" sentinel, option bit
//! sets, and the grow-and-retry protocol by which the host hands strings and
//! arrays back to the guest.
//!
//! The host fills a guest buffer and returns the length it needs; when the
//! buffer was too small the guest grows it and asks once more. The decisions
//! of that protocol are the step functions below; the drivers run them
//! against a host call passed in as a closure.

use vstd::prelude::*;
use vstd::utf8::{decode_utf8, valid_utf8};

verus! {

/// Sentinel host handle meaning "no node".
pub const NULL_NODE: i32 = -1;

/// Event option bit: capture.
pub const EVENT_FLAG_CAPTURE: i32 = 1;
/// Event option bit: bubbles.
pub const EVENT_FLAG_BUBBLES: i32 = 2;
/// Event option bit: cancelable.
pub const EVENT_FLAG_CANCELABLE: i32 = 4;
/// Event option bit: composed.
pub const EVENT_FLAG_COMPOSED: i32 = 8;

/// Event listener option bit: capture.
pub const LISTENER_FLAG_CAPTURE: i32 = 1;
/// Event listener option bit: once.
pub const LISTENER_FLAG_ONCE: i32 = 2;
/// Event listener option bit: passive.
pub const LISTENER_FLAG_PASSIVE: i32 = 4;

/// Initial capacity of the buffer offered for a host string.
pub const SCRATCH_INITIAL_CAPACITY: usize = 1024;
/// Initial capacity of the buffer offered for a host array.
pub const ARRAY_INITIAL_CAPACITY: usize = 32;

/// A raw host arena id read as an optional node: negative ids are absent.
pub open spec fn node_of(raw: i32) -> Option<i32> {
    if raw >= 0 {
        Some(raw)
    } else {
        None
    }
}

/// Converts a raw host arena id into `Option`.
pub fn node(raw: i32) -> (n: Option<i32>)
    ensures
        n == node_of(raw),
{
    if raw >= 0 {
        Some(raw)
    } else {
        None
    }
}

/// Result of a host string-out call.
#[derive(Debug)]
pub enum StringOut {
    /// The host reported the value absent (negative sentinel).
    Absent,
    /// Exact-length bytes copied out of the buffer.
    Bytes(Vec<u8>),
    /// The host re-reported a required length larger than the grown buffer.
    Overflow {
        /// Required byte length reported by the host on retry.
        required: usize,
        /// Capacity offered on retry.
        capacity: usize,
    },
}

/// What the guest does after one reply to a string-out call.
#[derive(Debug)]
pub enum StringOutStep {
    /// The call is finished with this outcome.
    Done(StringOut),
    /// Grow the buffer to this length and call the host once more.
    Retry(usize),
}

/// Decides the outcome of one host reply: `required` is what the host
/// returned, `buffer` the buffer after the call, and `retried` whether
/// this was already the second call.
pub fn string_out_step(required: i32, buffer: &Vec<u8>, retried: bool) -> (s: StringOutStep)
    ensures
        required < 0 ==> s matches StringOutStep::Done(StringOut::Absent),
        0 <= required <= buffer@.len() ==> (s matches StringOutStep::Done(StringOut::Bytes(b))
            && b@ == buffer@.take(required as int)),
        required > buffer@.len() && !retried ==> (s matches StringOutStep::Retry(n) && n
            == required),
        required > buffer@.len() && retried ==> (s matches StringOutStep::Done(
            StringOut::Overflow { required: r, capacity: c },
        ) && r == required && c == buffer@.len()),
{
    if required < 0 {
        return StringOutStep::Done(StringOut::Absent);
    }
    let required = required as usize;
    if required <= buffer.len() {
        return StringOutStep::Done(StringOut::Bytes(copy_prefix(buffer, required)));
    }
    if !retried {
        StringOutStep::Retry(required)
    } else {
        StringOutStep::Done(StringOut::Overflow { required, capacity: buffer.len() })
    }
}

fn copy_prefix<T: Copy>(buffer: &Vec<T>, n: usize) -> (out: Vec<T>)
    requires
        n <= buffer@.len(),
    ensures
        out@ == buffer@.take(n as int),
{
    let mut out: Vec<T> = Vec::new();
    let mut i: usize = 0;
    while i < n
        invariant
            i <= n,
            n <= buffer@.len(),
            out@ == buffer@.take(i as int),
        decreases n - i,
    {
        out.push(buffer[i]);
        i = i + 1;
        assert(out@ =~= buffer@.take(i as int));
    }
    out
}

/// A buffer grown with `fill` to hold at least `min` items.
pub open spec fn grown<T>(b: Seq<T>, min: nat, fill: T) -> Seq<T> {
    if b.len() < min {
        b + Seq::new((min - b.len()) as nat, |i: int| fill)
    } else {
        b
    }
}

/// `n` zero bytes.
pub open spec fn zeros(n: nat) -> Seq<u8> {
    Seq::new(n, |i: int| 0u8)
}

/// Grows `buf` with `fill` until it holds at least `min` items.
fn ensure_len<T: Copy>(buf: &mut Vec<T>, min: usize, fill: T)
    ensures
        final(buf)@.len() == if old(buf)@.len() < min {
            min as int
        } else {
            old(buf)@.len() as int
        },
        final(buf)@ == grown(old(buf)@, min as nat, fill),
{
    while buf.len() < min
        invariant
            buf@.len() <= if old(buf)@.len() < min {
                min as int
            } else {
                old(buf)@.len() as int
            },
            buf@.len() >= old(buf)@.len(),
            forall|i: int| 0 <= i < old(buf)@.len() ==> buf@[i] == old(buf)@[i],
            forall|i: int| old(buf)@.len() <= i < buf@.len() ==> buf@[i] == fill,
        decreases min - buf@.len(),
    {
        buf.push(fill);
    }
    assert(buf@ =~= grown(old(buf)@, min as nat, fill));
}

fn zeroed(n: usize) -> (v: Vec<u8>)
    ensures
        v@ == zeros(n as nat),
{
    let mut v: Vec<u8> = Vec::new();
    ensure_len(&mut v, n, 0u8);
    assert(v@ =~= zeros(n as nat));
    v
}

/// A reply to a string-out call finishes it with `r`: absent for a
/// negative length, the leading bytes for a length that fits, and on the
/// second call an overflow for one that does not.
pub open spec fn string_out_done(required: i32, buffer: Seq<u8>, retried: bool, r: StringOut) -> bool {
    if required < 0 {
        r is Absent
    } else if required <= buffer.len() {
        r matches StringOut::Bytes(b) && b@ == buffer.take(required as int)
    } else {
        retried && (r matches StringOut::Overflow { required: q, capacity: c } && q == required && c
            == buffer.len())
    }
}

/// The outcomes of a string-out call whose host replies are described by
/// `reply` (a buffer given, and the buffer and length handed back): the
/// host gets [`SCRATCH_INITIAL_CAPACITY`] zero bytes and hands back the
/// buffer and the length it needs; when that is more than the buffer holds
/// it gets the buffer grown with zeros to that length once more.
pub open spec fn string_out_outcome_by(reply: spec_fn(Vec<u8>, (Vec<u8>, i32)) -> bool, r: StringOut) -> bool {
    exists|b0: Vec<u8>, first: (Vec<u8>, i32)|
        #![trigger reply(b0, first)]
        b0@ == zeros(SCRATCH_INITIAL_CAPACITY as nat) && reply(b0, first) && if first.1 >= 0
            && first.1 > first.0@.len() {
            exists|b2: Vec<u8>, second: (Vec<u8>, i32)|
                #![trigger reply(b2, second)]
                b2@ == grown(first.0@, first.1 as nat, 0u8) && reply(b2, second) && string_out_done(
                    second.1,
                    second.0@,
                    true,
                    r,
                )
        } else {
            string_out_done(first.1, first.0@, false, r)
        }
}

/// The outcomes of a string-out call through `call` (see
/// [`string_out_outcome_by`]).
pub open spec fn string_out_outcome<F: Fn(Vec<u8>) -> (Vec<u8>, i32)>(call: F, r: StringOut) -> bool {
    string_out_outcome_by(call_reply(call), r)
}

/// The replies of a host call taking a buffer.
pub open spec fn call_reply<F: Fn(Vec<u8>) -> (Vec<u8>, i32)>(call: F) -> spec_fn(Vec<u8>, (Vec<u8>, i32)) -> bool {
    |b: Vec<u8>, rep: (Vec<u8>, i32)| call.ensures((b,), rep)
}

/// An outcome under some host replies is an outcome under any description
/// of the replies that admits them.
pub proof fn lemma_string_out_outcome_weaken(
    narrow: spec_fn(Vec<u8>, (Vec<u8>, i32)) -> bool,
    wide: spec_fn(Vec<u8>, (Vec<u8>, i32)) -> bool,
    r: StringOut,
)
    requires
        string_out_outcome_by(narrow, r),
        forall|b: Vec<u8>, rep: (Vec<u8>, i32)| #[trigger] narrow(b, rep) ==> wide(b, rep),
    ensures
        string_out_outcome_by(wide, r),
{
    let (b0, first) = choose|b0: Vec<u8>, first: (Vec<u8>, i32)|
        #![trigger narrow(b0, first)]
        b0@ == zeros(SCRATCH_INITIAL_CAPACITY as nat) && narrow(b0, first) && if first.1 >= 0
            && first.1 > first.0@.len() {
            exists|b2: Vec<u8>, second: (Vec<u8>, i32)|
                #![trigger narrow(b2, second)]
                b2@ == grown(first.0@, first.1 as nat, 0u8) && narrow(b2, second) && string_out_done(
                    second.1,
                    second.0@,
                    true,
                    r,
                )
        } else {
            string_out_done(first.1, first.0@, false, r)
        };
    assert(wide(b0, first));
    if first.1 >= 0 && first.1 > first.0@.len() {
        let (b2, second) = choose|b2: Vec<u8>, second: (Vec<u8>, i32)|
            #![trigger narrow(b2, second)]
            b2@ == grown(first.0@, first.1 as nat, 0u8) && narrow(b2, second) && string_out_done(
                second.1,
                second.0@,
                true,
                r,
            );
        assert(wide(b2, second));
    }
}

/// Drives one host string-out call against a fresh buffer of
/// [`SCRATCH_INITIAL_CAPACITY`] bytes, as [`string_out_call_in`] does
/// against a reusable one: grows it once if the host asks for more, and
/// decides the outcome with [`string_out_step`]. The host call takes the
/// buffer and hands it back with the byte length it needs.
pub fn string_out_call<F: Fn(Vec<u8>) -> (Vec<u8>, i32)>(call: F) -> (r: StringOut)
    requires
        forall|b: Vec<u8>| call.requires((b,)),
    ensures
        string_out_outcome(call, r),
{
    let mut scratch: Vec<u8> = Vec::new();
    let r = string_out_call_in(&mut scratch, call);
    proof {
        let reply = call_reply(call);
        assert(grown(Seq::<u8>::empty(), SCRATCH_INITIAL_CAPACITY as nat, 0u8) =~= zeros(
            SCRATCH_INITIAL_CAPACITY as nat,
        ));
        let (b0, first) = choose|b0: Vec<u8>, first: (Vec<u8>, i32)|
            #![trigger reply(b0, first)]
            b0@ == grown(Seq::<u8>::empty(), SCRATCH_INITIAL_CAPACITY as nat, 0u8) && reply(b0, first)
                && if first.1 >= 0 && first.1 > first.0@.len() {
                exists|b2: Vec<u8>, second: (Vec<u8>, i32)|
                    #![trigger reply(b2, second)]
                    b2@ == grown(first.0@, first.1 as nat, 0u8) && reply(b2, second)
                        && string_out_done(second.1, second.0@, true, r) && scratch@ == second.0@
            } else {
                string_out_done(first.1, first.0@, false, r) && scratch@ == first.0@
            };
        if first.1 >= 0 && first.1 > first.0@.len() {
            let (b2, second) = choose|b2: Vec<u8>, second: (Vec<u8>, i32)|
                #![trigger reply(b2, second)]
                b2@ == grown(first.0@, first.1 as nat, 0u8) && reply(b2, second) && string_out_done(
                    second.1,
                    second.0@,
                    true,
                    r,
                ) && scratch@ == second.0@;
            assert(reply(b2, second));
        }
        assert(reply(b0, first));
    }
    r
}

/// The outcomes of a string-out call against a reusable buffer that holds
/// `start` before the call and `fin` after it: the host gets the buffer
/// grown with zeros to at least [`SCRATCH_INITIAL_CAPACITY`] bytes, and on a
/// second call the buffer it handed back grown to the length it asked for;
/// the buffer it hands back last is kept.
pub open spec fn string_out_outcome_in(
    reply: spec_fn(Vec<u8>, (Vec<u8>, i32)) -> bool,
    start: Seq<u8>,
    r: StringOut,
    fin: Seq<u8>,
) -> bool {
    exists|b0: Vec<u8>, first: (Vec<u8>, i32)|
        #![trigger reply(b0, first)]
        b0@ == grown(start, SCRATCH_INITIAL_CAPACITY as nat, 0u8) && reply(b0, first) && if first.1
            >= 0 && first.1 > first.0@.len() {
            exists|b2: Vec<u8>, second: (Vec<u8>, i32)|
                #![trigger reply(b2, second)]
                b2@ == grown(first.0@, first.1 as nat, 0u8) && reply(b2, second) && string_out_done(
                    second.1,
                    second.0@,
                    true,
                    r,
                ) && fin == second.0@
        } else {
            string_out_done(first.1, first.0@, false, r) && fin == first.0@
        }
}

/// Drives one host string-out call against a reusable scratch buffer: the
/// buffer is grown to [`SCRATCH_INITIAL_CAPACITY`] bytes when it is
/// shorter, grown once more if the host asks for more, and kept, grown, for
/// the next call.
pub fn string_out_call_in<F: Fn(Vec<u8>) -> (Vec<u8>, i32)>(scratch: &mut Vec<u8>, call: F) -> (r: StringOut)
    requires
        forall|b: Vec<u8>| call.requires((b,)),
    ensures
        string_out_outcome_in(call_reply(call), old(scratch)@, r, final(scratch)@),
{
    let mut b0: Vec<u8> = Vec::new();
    std::mem::swap(&mut b0, scratch);
    ensure_len(&mut b0, SCRATCH_INITIAL_CAPACITY, 0u8);
    let ghost g0 = b0;
    let (buf, required) = call(b0);
    let ghost first = (buf, required);
    assert(call_reply(call)(g0, first));
    match string_out_step(required, &buf, false) {
        StringOutStep::Done(out) => {
            *scratch = buf;
            out
        },
        StringOutStep::Retry(n) => {
            let mut buf = buf;
            ensure_len(&mut buf, n, 0u8);
            let ghost g2 = buf;
            let (buf3, required3) = call(buf);
            let ghost second = (buf3, required3);
            let out = match string_out_step(required3, &buf3, true) {
                StringOutStep::Done(out) => out,
                StringOutStep::Retry(_) => StringOut::Absent,
            };
            assert(call_reply(call)(g2, second));
            *scratch = buf3;
            out
        },
    }
}

/// What the guest lends out after one reply to a borrowing string call.
#[derive(Debug, Clone, Copy, PartialEq, Eq)]
pub enum BorrowStep {
    /// The host reported the value absent.
    Absent,
    /// Lend this many leading bytes of the buffer.
    Lend(usize),
    /// Grow the buffer to this length and call the host once more.
    Retry(usize),
}

/// Decides what a borrowing string call lends after one host reply. On the
/// second call a required length past the buffer is clamped to the buffer.
pub fn string_borrow_step(required: i32, len: usize, retried: bool) -> (s: BorrowStep)
    ensures
        required < 0 ==> s == BorrowStep::Absent,
        0 <= required <= len ==> s == BorrowStep::Lend(required as usize),
        required > len && !retried ==> s == BorrowStep::Retry(required as usize),
        required > len && retried ==> s == BorrowStep::Lend(len),
{
    if required < 0 {
        BorrowStep::Absent
    } else if required as usize <= len {
        BorrowStep::Lend(required as usize)
    } else if !retried {
        BorrowStep::Retry(required as usize)
    } else {
        BorrowStep::Lend(len)
    }
}

fn lend_prefix<R, G: FnOnce(Option<&[u8]>) -> R>(buf: &Vec<u8>, n: usize, f: G) -> (r: R)
    requires
        n <= buf@.len(),
        forall|s: Option<&[u8]>| f.requires((s,)),
    ensures
        exists|s: &[u8]| s@ == buf@.take(n as int) && f.ensures((Some(s),), r),
{
    let (head, _) = buf.as_slice().split_at(n);
    assert(head@ =~= buf@.take(n as int));
    f(Some(head))
}

/// What a reply finishing a borrowing call lends: nothing for a negative
/// length, else the leading bytes of the buffer, as many as asked for and
/// at most the whole buffer.
pub open spec fn lent_bytes(required: i32, buffer: Seq<u8>) -> Option<Seq<u8>> {
    if required < 0 {
        None
    } else {
        Some(buffer.take(if required <= buffer.len() { required as int } else { buffer.len() as int }))
    }
}

/// The outcomes of a borrowing string call whose host replies are
/// described by `reply` and whose borrower returns `r` for lent bytes when
/// `take(lent, r)`: the host is called as in [`string_out_outcome_by`], and
/// the borrower gets what the finishing reply lends.
pub open spec fn string_borrow_outcome_by<R>(
    reply: spec_fn(Vec<u8>, (Vec<u8>, i32)) -> bool,
    take: spec_fn(Option<Seq<u8>>, R) -> bool,
    r: R,
) -> bool {
    exists|b0: Vec<u8>, first: (Vec<u8>, i32)|
        #![trigger reply(b0, first)]
        b0@ == zeros(SCRATCH_INITIAL_CAPACITY as nat) && reply(b0, first) && if first.1 >= 0
            && first.1 > first.0@.len() {
            exists|b2: Vec<u8>, second: (Vec<u8>, i32)|
                #![trigger reply(b2, second)]
                b2@ == grown(first.0@, first.1 as nat, 0u8) && reply(b2, second) && take(
                    lent_bytes(second.1, second.0@),
                    r,
                )
        } else {
            take(lent_bytes(first.1, first.0@), r)
        }
}

/// What a borrower `f` returns for lent bytes: its result for `None`, or
/// for a slice holding them.
pub open spec fn lend_to<R, G: FnOnce(Option<&[u8]>) -> R>(f: G) -> spec_fn(Option<Seq<u8>>, R) -> bool {
    |lent: Option<Seq<u8>>, r: R|
        match lent {
            None => f.ensures((None,), r),
            Some(b) => exists|s: &[u8]| #![trigger f.ensures((Some(s),), r)] s@ == b && f.ensures((Some(s),), r),
        }
}

/// An outcome under some host replies and borrower results is an outcome
/// under any descriptions of them that admit them.
pub proof fn lemma_string_borrow_outcome_weaken<R>(
    narrow: spec_fn(Vec<u8>, (Vec<u8>, i32)) -> bool,
    wide: spec_fn(Vec<u8>, (Vec<u8>, i32)) -> bool,
    take: spec_fn(Option<Seq<u8>>, R) -> bool,
    take_wide: spec_fn(Option<Seq<u8>>, R) -> bool,
    r: R,
)
    requires
        string_borrow_outcome_by(narrow, take, r),
        forall|b: Vec<u8>, rep: (Vec<u8>, i32)| #[trigger] narrow(b, rep) ==> wide(b, rep),
        forall|lent: Option<Seq<u8>>| #[trigger] take(lent, r) ==> take_wide(lent, r),
    ensures
        string_borrow_outcome_by(wide, take_wide, r),
{
    let (b0, first) = choose|b0: Vec<u8>, first: (Vec<u8>, i32)|
        #![trigger narrow(b0, first)]
        b0@ == zeros(SCRATCH_INITIAL_CAPACITY as nat) && narrow(b0, first) && if first.1 >= 0
            && first.1 > first.0@.len() {
            exists|b2: Vec<u8>, second: (Vec<u8>, i32)|
                #![trigger narrow(b2, second)]
                b2@ == grown(first.0@, first.1 as nat, 0u8) && narrow(b2, second) && take(
                    lent_bytes(second.1, second.0@),
                    r,
                )
        } else {
            take(lent_bytes(first.1, first.0@), r)
        };
    assert(wide(b0, first));
    if first.1 >= 0 && first.1 > first.0@.len() {
        let (b2, second) = choose|b2: Vec<u8>, second: (Vec<u8>, i32)|
            #![trigger narrow(b2, second)]
            b2@ == grown(first.0@, first.1 as nat, 0u8) && narrow(b2, second) && take(
                lent_bytes(second.1, second.0@),
                r,
            );
        assert(wide(b2, second));
        assert(take_wide(lent_bytes(second.1, second.0@), r));
    } else {
        assert(take_wide(lent_bytes(first.1, first.0@), r));
    }
}

/// Like [`string_out_call`] but lends the written bytes to `f` instead of
/// copying them out; `f` sees `None` when the host reports the value
/// absent.
pub fn string_borrow_call<R, F: Fn(Vec<u8>) -> (Vec<u8>, i32), G: FnOnce(Option<&[u8]>) -> R>(
    call: F,
    f: G,
) -> (r: R)
    requires
        forall|b: Vec<u8>| call.requires((b,)),
        forall|s: Option<&[u8]>| f.requires((s,)),
    ensures
        string_borrow_outcome_by(call_reply(call), lend_to(f), r),
{
    let b0 = zeroed(SCRATCH_INITIAL_CAPACITY);
    let ghost g0 = b0;
    let (buf, required) = call(b0);
    let ghost first = (buf, required);
    assert(call_reply(call)(g0, first));
    match string_borrow_step(required, buf.len(), false) {
        BorrowStep::Absent => f(None),
        BorrowStep::Lend(n) => lend_prefix(&buf, n, f),
        BorrowStep::Retry(n) => {
            let mut buf = buf;
            ensure_len(&mut buf, n, 0u8);
            let ghost g2 = buf;
            let (buf3, required3) = call(buf);
            let ghost second = (buf3, required3);
            assert(call_reply(call)(g2, second));
            match string_borrow_step(required3, buf3.len(), true) {
                BorrowStep::Absent => f(None),
                BorrowStep::Lend(n) => lend_prefix(&buf3, n, f),
                BorrowStep::Retry(_) => f(None),
            }
        },
    }
}

/// What the guest keeps after one reply to an array-out call.
#[derive(Debug, Clone, Copy, PartialEq, Eq)]
pub enum ArrayStep {
    /// Nothing: the host reported no items, or misreported on retry.
    Empty,
    /// Keep this many leading items.
    Take(usize),
    /// Grow the buffer to this length and call the host once more.
    Retry(usize),
}

/// Decides what an array-out call keeps after one host reply.
pub fn array_out_step(required: i32, len: usize, retried: bool) -> (s: ArrayStep)
    ensures
        required <= 0 ==> s == ArrayStep::Empty,
        0 < required <= len ==> s == ArrayStep::Take(required as usize),
        required > len && !retried ==> s == ArrayStep::Retry(required as usize),
        required > len && retried ==> s == ArrayStep::Empty,
{
    if required <= 0 {
        ArrayStep::Empty
    } else if required as usize <= len {
        ArrayStep::Take(required as usize)
    } else if !retried {
        ArrayStep::Retry(required as usize)
    } else {
        ArrayStep::Empty
    }
}

/// The items a reply leaves: none for a count that is not positive or,
/// on the second call, past the buffer; else the leading items counted.
pub open spec fn array_kept(required: i32, buffer: Seq<i32>, retried: bool, out: Seq<i32>) -> bool {
    if 0 < required <= buffer.len() {
        out == buffer.take(required as int)
    } else {
        (required <= 0 || retried) && out.len() == 0
    }
}

/// The outcomes of an array-out call through `call`: the host gets
/// [`ARRAY_INITIAL_CAPACITY`] zero items and hands back the buffer and the
/// item count; when the count is more than the buffer holds it gets the
/// buffer grown with zeros to that count once more.
pub open spec fn i32_array_outcome<F: Fn(Vec<i32>) -> (Vec<i32>, i32)>(call: F, out: Seq<i32>) -> bool {
    exists|b0: Vec<i32>, first: (Vec<i32>, i32)|
        #![trigger call.ensures((b0,), first)]
        b0@ == Seq::new(ARRAY_INITIAL_CAPACITY as nat, |i: int| 0i32) && call.ensures((b0,), first)
            && if first.1 > first.0@.len() {
            exists|b2: Vec<i32>, second: (Vec<i32>, i32)|
                #![trigger call.ensures((b2,), second)]
                b2@ == grown(first.0@, first.1 as nat, 0i32) && call.ensures((b2,), second)
                    && array_kept(second.1, second.0@, true, out)
        } else {
            array_kept(first.1, first.0@, false, out)
        }
}

/// Drives one host call that writes `i32` items: offers
/// [`ARRAY_INITIAL_CAPACITY`] slots, grows once, and keeps the items the
/// host reported with [`array_out_step`].
pub fn i32_array_out_call<F: Fn(Vec<i32>) -> (Vec<i32>, i32)>(call: F) -> (out: Vec<i32>)
    requires
        forall|b: Vec<i32>| call.requires((b,)),
    ensures
        i32_array_outcome(call, out@),
{
    let mut b0: Vec<i32> = Vec::new();
    ensure_len(&mut b0, ARRAY_INITIAL_CAPACITY, 0i32);
    assert(b0@ =~= Seq::new(ARRAY_INITIAL_CAPACITY as nat, |i: int| 0i32));
    let ghost g0 = b0;
    let (buf, required) = call(b0);
    let ghost first = (buf, required);
    assert(call.ensures((g0,), first));
    match array_out_step(required, buf.len(), false) {
        ArrayStep::Empty => Vec::new(),
        ArrayStep::Take(n) => copy_prefix(&buf, n),
        ArrayStep::Retry(n) => {
            let mut buf = buf;
            ensure_len(&mut buf, n, 0i32);
            let ghost g2 = buf;
            let (buf3, retry) = call(buf);
            let ghost second = (buf3, retry);
            assert(call.ensures((g2,), second));
            match array_out_step(retry, buf3.len(), true) {
                ArrayStep::Take(n) => copy_prefix(&buf3, n),
                _ => Vec::new(),
            }
        },
    }
}

/// Where the host wrote one string of an array: a byte offset and length
/// into the byte buffer.
#[derive(Debug, Clone, Copy, PartialEq, Eq, Structural)]
pub struct StringSlice {
    pub offset: i32,
    pub len: i32,
}

/// The text that lossy UTF-8 decoding gives for some bytes.
pub uninterp spec fn lossy_utf8(bytes: Seq<u8>) -> Seq<char>;

/// Calls `String::from_utf8_lossy`: the bytes decoded with every invalid
/// sequence replaced by U+FFFD. The contract names the result and states
/// only that valid UTF-8 decodes as itself; what replaces invalid
/// sequences is left unsaid.
#[verifier::external_body]
fn string_from_utf8_lossy(bytes: &[u8]) -> (s: String)
    ensures
        s@ == lossy_utf8(bytes@),
        valid_utf8(bytes@) ==> s@ == decode_utf8(bytes@),
{
    String::from_utf8_lossy(bytes).into_owned()
}

/// The bytes one slice denotes, when it lies within the buffer.
pub open spec fn slice_bytes(bytes: Seq<u8>, s: StringSlice) -> Option<Seq<u8>> {
    if s.offset < 0 || s.len < 0 || s.offset + s.len > bytes.len() {
        None
    } else {
        Some(bytes.subrange(s.offset as int, s.offset + s.len))
    }
}

/// The text of the bytes of a slice: valid UTF-8 decodes as itself, other
/// bytes as `String::from_utf8_lossy` reads them.
pub open spec fn slice_text(b: Seq<u8>) -> Seq<char> {
    if valid_utf8(b) {
        decode_utf8(b)
    } else {
        lossy_utf8(b)
    }
}

/// ASCII bytes are valid UTF-8 and decode to the characters with their
/// codes.
pub proof fn lemma_ascii_utf8(b: Seq<u8>)
    requires
        forall|i: int| 0 <= i < b.len() ==> #[trigger] b[i] < 128,
    ensures
        valid_utf8(b),
        decode_utf8(b) == b.map_values(|x: u8| x as char),
    decreases b.len(),
{
    if b.len() > 0 {
        let x = b[0];
        assert(x < 128);
        assert(x & 0x7F == x) by (bit_vector)
            requires
                x < 128,
        ;
        let rest = b.subrange(1, b.len() as int);
        assert forall|i: int| 0 <= i < rest.len() implies #[trigger] rest[i] < 128 by {
            assert(rest[i] == b[i + 1]);
        }
        lemma_ascii_utf8(rest);
        assert(vstd::utf8::pop_first_scalar(b) =~= rest);
        assert(b.map_values(|x: u8| x as char) =~= seq![x as char] + rest.map_values(|x: u8| x as char));
    }
}

/// The strings of the slices, in order, skipping slices outside the buffer.
pub open spec fn decoded_slices(items: Seq<StringSlice>, bytes: Seq<u8>) -> Seq<Seq<char>>
    decreases items.len(),
{
    if items.len() == 0 {
        Seq::empty()
    } else {
        let head = decoded_slices(items.drop_last(), bytes);
        match slice_bytes(bytes, items.last()) {
            Some(b) => head.push(slice_text(b)),
            None => head,
        }
    }
}

/// The views of strings.
pub open spec fn strings_of(v: Seq<String>) -> Seq<Seq<char>> {
    v.map_values(|s: String| s@)
}

fn copy_range(bytes: &Vec<u8>, start: usize, end: usize) -> (out: Vec<u8>)
    requires
        start <= end <= bytes@.len(),
    ensures
        out@ == bytes@.subrange(start as int, end as int),
{
    let mut out: Vec<u8> = Vec::new();
    let mut i: usize = start;
    while i < end
        invariant
            start <= i <= end,
            end <= bytes@.len(),
            out@ == bytes@.subrange(start as int, i as int),
        decreases end - i,
    {
        out.push(bytes[i]);
        i = i + 1;
        assert(out@ =~= bytes@.subrange(start as int, i as int));
    }
    out
}

/// Decodes the strings of the first `n` slices of `items` from `bytes`;
/// slices with a negative offset or length, or reaching past the buffer,
/// are skipped.
pub fn decode_string_slices(items: &Vec<StringSlice>, n: usize, bytes: &Vec<u8>) -> (out: Vec<String>)
    requires
        n <= items@.len(),
    ensures
        strings_of(out@) == decoded_slices(items@.take(n as int), bytes@),
{
    let mut out: Vec<String> = Vec::new();
    let mut i: usize = 0;
    while i < n
        invariant
            i <= n <= items@.len(),
            strings_of(out@) == decoded_slices(items@.take(i as int), bytes@),
        decreases n - i,
    {
        let ghost before = out@;
        let s = items[i];
        proof {
            assert(items@.take(i + 1).drop_last() =~= items@.take(i as int));
            assert(items@.take(i + 1).last() == s);
        }
        if s.offset >= 0 && s.len >= 0 {
            let start = s.offset as usize;
            match start.checked_add(s.len as usize) {
                Some(end) => {
                    if end <= bytes.len() {
                        let piece = copy_range(bytes, start, end);
                        let text = string_from_utf8_lossy(piece.as_slice());
                        out.push(text);
                        proof {
                            assert(strings_of(out@) =~= strings_of(before).push(text@));
                        }
                    }
                },
                None => {},
            }
        }
        i = i + 1;
    }
    out
}

/// What the guest does after one reply to a string-array call.
#[derive(Debug, Clone, Copy, PartialEq, Eq, Structural)]
pub enum StringArrayStep {
    /// Nothing: the host reported no items, or misreported on retry.
    Empty,
    /// Decode this many leading slices.
    Decode(usize),
    /// Resize the slice buffer and the byte buffer to these lengths and call
    /// the host once more.
    Retry { items: usize, bytes: usize },
}

/// What a string-array call does after one host reply (see
/// [`string_array_step`]).
pub open spec fn array_step_spec(
    required_items: i32,
    required_bytes: i32,
    items_len: nat,
    bytes_len: nat,
    retried: bool,
) -> StringArrayStep {
    if required_items <= 0 {
        StringArrayStep::Empty
    } else if !retried {
        if required_items > items_len || required_bytes < 0 || required_bytes > bytes_len {
            StringArrayStep::Retry {
                items: required_items as usize,
                bytes: if required_bytes < 0 {
                    0usize
                } else {
                    required_bytes as usize
                },
            }
        } else {
            StringArrayStep::Decode(required_items as usize)
        }
    } else if required_items > items_len {
        StringArrayStep::Empty
    } else {
        StringArrayStep::Decode(required_items as usize)
    }
}

/// Decides what a string-array call does after one host reply: the item
/// count it returned, the byte length it reported, the buffer lengths, and
/// whether this was the second call. Only the first reply can ask for a
/// retry, which happens when either buffer was too small or the byte length
/// is negative (the byte buffer is then emptied).
pub fn string_array_step(
    required_items: i32,
    required_bytes: i32,
    items_len: usize,
    bytes_len: usize,
    retried: bool,
) -> (s: StringArrayStep)
    ensures
        s == array_step_spec(required_items, required_bytes, items_len as nat, bytes_len as nat, retried),
{
    if required_items <= 0 {
        return StringArrayStep::Empty;
    }
    let n = required_items as usize;
    if !retried {
        let too_few_bytes = required_bytes < 0 || required_bytes as usize > bytes_len;
        if n > items_len || too_few_bytes {
            let b: usize = if required_bytes < 0 {
                0
            } else {
                required_bytes as usize
            };
            return StringArrayStep::Retry { items: n, bytes: b };
        }
        StringArrayStep::Decode(n)
    } else if n > items_len {
        StringArrayStep::Empty
    } else {
        StringArrayStep::Decode(n)
    }
}

/// A buffer resized to `n` items: cut to its first `n`, or grown with
/// `fill`.
pub open spec fn resized<T>(b: Seq<T>, n: nat, fill: T) -> Seq<T> {
    if n <= b.len() {
        b.take(n as int)
    } else {
        grown(b, n, fill)
    }
}

fn resize_to<T: Copy>(buf: &mut Vec<T>, n: usize, fill: T)
    ensures
        final(buf)@ == resized(old(buf)@, n as nat, fill),
{
    if n <= buf.len() {
        buf.truncate(n);
        assert(buf@ =~= old(buf)@.take(n as int));
    } else {
        ensure_len(buf, n, fill);
    }
}

/// The slice every slice buffer starts out with.
pub open spec fn blank_slice() -> StringSlice {
    StringSlice { offset: 0, len: 0 }
}

/// The strings a finishing reply leaves: the decoded leading slices for a
/// count to decode, none otherwise.
pub open spec fn strings_kept(step: StringArrayStep, items: Seq<StringSlice>, bytes: Seq<u8>, out: Seq<Seq<char>>) -> bool {
    match step {
        StringArrayStep::Decode(n) => out == decoded_slices(items.take(n as int), bytes),
        _ => out.len() == 0,
    }
}

/// The outcomes of a string-array call through `call`, which takes the
/// slice buffer, the byte buffer and the last reported byte length, and
/// hands back both buffers, the byte length it needs and the item count:
/// the host gets [`ARRAY_INITIAL_CAPACITY`] blank slices, as many zero
/// bytes as [`SCRATCH_INITIAL_CAPACITY`] and a byte length of 0; when
/// [`array_step_spec`] asks for a retry it gets both buffers it handed back
/// resized as asked, and the byte length it reported.
pub open spec fn string_array_outcome<F: Fn(Vec<StringSlice>, Vec<u8>, i32) -> (Vec<StringSlice>, Vec<u8>, i32, i32)>(
    call: F,
    out: Seq<Seq<char>>,
) -> bool {
    exists|i0: Vec<StringSlice>, b0: Vec<u8>, first: (Vec<StringSlice>, Vec<u8>, i32, i32)|
        #![trigger call.ensures((i0, b0, 0i32), first)]
        i0@ == Seq::new(ARRAY_INITIAL_CAPACITY as nat, |i: int| blank_slice()) && b0@ == zeros(
            SCRATCH_INITIAL_CAPACITY as nat,
        ) && call.ensures((i0, b0, 0i32), first) && match array_step_spec(
            first.3,
            first.2,
            first.0@.len(),
            first.1@.len(),
            false,
        ) {
            StringArrayStep::Retry { items: ni, bytes: nb } => exists|
                i2: Vec<StringSlice>,
                b2: Vec<u8>,
                second: (Vec<StringSlice>, Vec<u8>, i32, i32),
            |
                #![trigger call.ensures((i2, b2, first.2), second)]
                i2@ == resized(first.0@, ni as nat, blank_slice()) && b2@ == resized(
                    first.1@,
                    nb as nat,
                    0u8,
                ) && call.ensures((i2, b2, first.2), second) && strings_kept(
                    array_step_spec(second.3, second.2, second.0@.len(), second.1@.len(), true),
                    second.0@,
                    second.1@,
                    out,
                ),
            step => strings_kept(step, first.0@, first.1@, out),
        }
}

/// Drives one host call that writes an array of strings: offers
/// [`ARRAY_INITIAL_CAPACITY`] slices and [`SCRATCH_INITIAL_CAPACITY`]
/// bytes, resizes both once to what the host asked for, and decodes the
/// reported slices with [`decode_string_slices`].
pub fn string_array_out_call<F: Fn(Vec<StringSlice>, Vec<u8>, i32) -> (Vec<StringSlice>, Vec<u8>, i32, i32)>(
    call: F,
) -> (out: Vec<String>)
    requires
        forall|a: Vec<StringSlice>, b: Vec<u8>, c: i32| call.requires((a, b, c)),
    ensures
        string_array_outcome(call, strings_of(out@)),
{
    let blank = StringSlice { offset: 0, len: 0 };
    let mut i0: Vec<StringSlice> = Vec::new();
    ensure_len(&mut i0, ARRAY_INITIAL_CAPACITY, blank);
    assert(i0@ =~= Seq::new(ARRAY_INITIAL_CAPACITY as nat, |i: int| blank_slice()));
    let b0 = zeroed(SCRATCH_INITIAL_CAPACITY);
    let ghost gi0 = i0;
    let ghost gb0 = b0;
    let (items, bytes, required_bytes, required) = call(i0, b0, 0);
    let ghost first = (items, bytes, required_bytes, required);
    assert(call.ensures((gi0, gb0, 0i32), first));
    let step = string_array_step(required, required_bytes, items.len(), bytes.len(), false);
    match step {
        StringArrayStep::Empty => Vec::new(),
        StringArrayStep::Decode(n) => decode_string_slices(&items, n, &bytes),
        StringArrayStep::Retry { items: want_items, bytes: want_bytes } => {
            let mut items = items;
            let mut bytes = bytes;
            resize_to(&mut items, want_items, blank);
            resize_to(&mut bytes, want_bytes, 0u8);
            let ghost gi2 = items;
            let ghost gb2 = bytes;
            let (items3, bytes3, required_bytes3, retry) = call(items, bytes, required_bytes);
            let ghost second = (items3, bytes3, required_bytes3, retry);
            assert(call.ensures((gi2, gb2, required_bytes), second));
            match string_array_step(retry, required_bytes3, items3.len(), bytes3.len(), true) {
                StringArrayStep::Decode(n) => decode_string_slices(&items3, n, &bytes3),
                _ => Vec::new(),
            }
        },
    }
}

} // verus!
