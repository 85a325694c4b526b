//! Where the tokens of a sequence of bytes begin and end.
use vstd::prelude::*;

verus! {

/// The bytes that end a token: space, line feed and horizontal tab.
pub const DELIMITERS: [u8; 3] = [0x20, 0x0A, 0x09];

/// True for space, line feed and horizontal tab.
pub open spec fn is_delimiter(byte: u8) -> bool {
    byte == 0x20 || byte == 0x0A || byte == 0x09
}

/// `DELIMITERS` holds exactly the bytes for which `is_delimiter` is true.
pub proof fn lemma_delimiters(byte: u8)
    ensures
        DELIMITERS@.contains(byte) <==> is_delimiter(byte),
{
}

/// A token that starts at `from` ends at `end`: no byte in `from..end` is in
/// `stops`, and `end` is either the length of `bytes` or the place of a byte
/// that is in `stops`.
pub open spec fn ends_token(bytes: Seq<u8>, from: int, stops: Seq<u8>, end: int) -> bool {
    &&& from <= end <= bytes.len()
    &&& forall|i: int| from <= i < end ==> !stops.contains(#[trigger] bytes[i])
    &&& end < bytes.len() ==> stops.contains(bytes[end])
}

/// Where the token that starts at `from` ends: the place of the first byte at
/// or after `from` that is in `stops`, or the length of `bytes` if there is
/// none.
pub open spec fn token_end(bytes: Seq<u8>, from: int, stops: Seq<u8>) -> int
    recommends
        0 <= from <= bytes.len(),
{
    choose|end: int| ends_token(bytes, from, stops, end)
}

/// The bytes of the token that starts at `from`.
pub open spec fn token_at(bytes: Seq<u8>, from: int, stops: Seq<u8>) -> Seq<u8>
    recommends
        0 <= from <= bytes.len(),
{
    bytes.subrange(from, token_end(bytes, from, stops))
}

/// Whether the token that starts at `from` is ended by a byte of `stops`
/// rather than by the end of `bytes`.
pub open spec fn stopped(bytes: Seq<u8>, from: int, stops: Seq<u8>) -> bool
    recommends
        0 <= from <= bytes.len(),
{
    token_end(bytes, from, stops) < bytes.len()
}

/// Where the cursor stands once the token that starts at `from` has been
/// taken: one past the byte that ended it, or at the end of `bytes`.
pub open spec fn next_start(bytes: Seq<u8>, from: int, stops: Seq<u8>) -> int
    recommends
        0 <= from <= bytes.len(),
{
    if stopped(bytes, from, stops) {
        token_end(bytes, from, stops) + 1
    } else {
        token_end(bytes, from, stops)
    }
}

proof fn lemma_end_exists(bytes: Seq<u8>, from: int, stops: Seq<u8>, upto: int) -> (end: int)
    requires
        0 <= from <= upto <= bytes.len(),
        forall|i: int| from <= i < upto ==> !stops.contains(#[trigger] bytes[i]),
    ensures
        ends_token(bytes, from, stops, end),
    decreases bytes.len() - upto,
{
    if upto == bytes.len() || stops.contains(bytes[upto]) {
        upto
    } else {
        lemma_end_exists(bytes, from, stops, upto + 1)
    }
}

/// `token_end` is the one place at which the token that starts at `from`
/// ends.
pub proof fn lemma_token_end(bytes: Seq<u8>, from: int, stops: Seq<u8>)
    requires
        0 <= from <= bytes.len(),
    ensures
        ends_token(bytes, from, stops, token_end(bytes, from, stops)),
        forall|end: int| #[trigger]
            ends_token(bytes, from, stops, end) ==> end == token_end(bytes, from, stops),
{
    lemma_end_exists(bytes, from, stops, from);
}

/// Taking a token never moves the cursor back and never past the end of the
/// stream; it moves the cursor forward unless the cursor is at the end; and it
/// moves it by the length of the token, and by one more if a byte of `stops`
/// ended the token.
pub proof fn lemma_next_start(bytes: Seq<u8>, from: int, stops: Seq<u8>)
    requires
        0 <= from <= bytes.len(),
    ensures
        from <= token_end(bytes, from, stops) <= next_start(bytes, from, stops) <= bytes.len(),
        from < bytes.len() ==> from < next_start(bytes, from, stops),
        from == bytes.len() ==> next_start(bytes, from, stops) == from,
        token_at(bytes, from, stops).len() == token_end(bytes, from, stops) - from,
        next_start(bytes, from, stops) == from + token_at(bytes, from, stops).len() + if stopped(
            bytes,
            from,
            stops,
        ) {
            1int
        } else {
            0int
        },
{
    lemma_token_end(bytes, from, stops);
}

/// Where the cursor stands before extraction number `k`, counted from 0, when
/// the first extraction starts at the front of `bytes`.
pub open spec fn start_of(bytes: Seq<u8>, stops: Seq<u8>, k: nat) -> int
    decreases k,
{
    if k == 0 {
        0
    } else {
        next_start(bytes, start_of(bytes, stops, (k - 1) as nat), stops)
    }
}

/// The token that extraction number `k` yields.
pub open spec fn nth_token(bytes: Seq<u8>, stops: Seq<u8>, k: nat) -> Seq<u8> {
    token_at(bytes, start_of(bytes, stops, k), stops)
}

/// `first..end` is a run of `bytes`: a stretch of one or more bytes none of
/// which is in `stops`, with a byte of `stops` or an end of `bytes` on either
/// side.
pub open spec fn is_run(bytes: Seq<u8>, stops: Seq<u8>, first: int, end: int) -> bool {
    &&& 0 <= first < end <= bytes.len()
    &&& forall|i: int| first <= i < end ==> !stops.contains(#[trigger] bytes[i])
    &&& first > 0 ==> stops.contains(bytes[first - 1])
    &&& end < bytes.len() ==> stops.contains(bytes[end])
}

/// Every extraction starts within the stream or at its end.
pub proof fn lemma_start_in_bounds(bytes: Seq<u8>, stops: Seq<u8>, k: nat)
    ensures
        0 <= start_of(bytes, stops, k) <= bytes.len(),
    decreases k,
{
    if k > 0 {
        lemma_start_in_bounds(bytes, stops, (k - 1) as nat);
        lemma_next_start(bytes, start_of(bytes, stops, (k - 1) as nat), stops);
    }
}

/// Extractions come in the order of the stream: a later one starts no earlier
/// than an earlier one, and strictly later unless the earlier one started at
/// the end of the stream.
pub proof fn lemma_starts_ordered(bytes: Seq<u8>, stops: Seq<u8>, j: nat, k: nat)
    requires
        j < k,
    ensures
        start_of(bytes, stops, j) <= start_of(bytes, stops, k),
        start_of(bytes, stops, j) < bytes.len() ==> start_of(bytes, stops, j) < start_of(
            bytes,
            stops,
            k,
        ),
    decreases k,
{
    let before = (k - 1) as nat;
    lemma_start_in_bounds(bytes, stops, before);
    lemma_next_start(bytes, start_of(bytes, stops, before), stops);
    if j < before {
        lemma_starts_ordered(bytes, stops, j, before);
    }
}

/// Delimiters are consumed one at a time and never end up in a token: no byte
/// of the token that extraction number `k` yields is in `stops`; if a byte of
/// `stops` ends the token, the next extraction starts right behind that one
/// byte; if none does, the token reaches the end of the stream and so does
/// the cursor.
pub proof fn lemma_one_delimiter_consumed(bytes: Seq<u8>, stops: Seq<u8>, k: nat)
    ensures
        forall|i: int|
            0 <= i < nth_token(bytes, stops, k).len() ==> !stops.contains(
                #[trigger] nth_token(bytes, stops, k)[i],
            ),
        ({
            let start = start_of(bytes, stops, k);
            let end = token_end(bytes, start, stops);
            if end < bytes.len() {
                &&& stops.contains(bytes[end])
                &&& start_of(bytes, stops, k + 1) == end + 1
            } else {
                &&& end == bytes.len()
                &&& start_of(bytes, stops, k + 1) == bytes.len()
            }
        }),
{
    let start = start_of(bytes, stops, k);
    lemma_start_in_bounds(bytes, stops, k);
    lemma_token_end(bytes, start, stops);
}

/// An extraction that yields a token which is not empty yields a run: the
/// token ends where the run ends and starts where the run starts.
pub proof fn lemma_token_is_run(bytes: Seq<u8>, stops: Seq<u8>, k: nat)
    requires
        nth_token(bytes, stops, k).len() > 0,
    ensures
        is_run(
            bytes,
            stops,
            start_of(bytes, stops, k),
            token_end(bytes, start_of(bytes, stops, k), stops),
        ),
{
    let start = start_of(bytes, stops, k);
    lemma_start_in_bounds(bytes, stops, k);
    lemma_token_end(bytes, start, stops);
    if k > 0 {
        lemma_one_delimiter_consumed(bytes, stops, (k - 1) as nat);
        lemma_start_in_bounds(bytes, stops, (k - 1) as nat);
    }
}

proof fn lemma_covering_from(bytes: Seq<u8>, stops: Seq<u8>, at: int, k: nat) -> (found: nat)
    requires
        start_of(bytes, stops, k) <= at < bytes.len(),
    ensures
        start_of(bytes, stops, found) <= at < start_of(bytes, stops, found + 1),
    decreases at - start_of(bytes, stops, k),
{
    lemma_start_in_bounds(bytes, stops, k);
    lemma_next_start(bytes, start_of(bytes, stops, k), stops);
    if at < start_of(bytes, stops, k + 1) {
        k
    } else {
        lemma_covering_from(bytes, stops, at, k + 1)
    }
}

/// Every byte of the stream is consumed by one extraction and by no other:
/// the extraction that the lemma returns starts at or before the place `at`
/// while the next one starts behind it, and this holds of no other
/// extraction.
pub proof fn lemma_consumed_once(bytes: Seq<u8>, stops: Seq<u8>, at: int) -> (k: nat)
    requires
        0 <= at < bytes.len(),
    ensures
        start_of(bytes, stops, k) <= at < start_of(bytes, stops, k + 1),
        forall|j: nat|
            #[trigger] start_of(bytes, stops, j) <= at && at < start_of(bytes, stops, j + 1) ==> j
                == k,
{
    let k = lemma_covering_from(bytes, stops, at, 0);
    assert forall|j: nat|
        #[trigger] start_of(bytes, stops, j) <= at && at < start_of(bytes, stops, j + 1) implies j
        == k by {
        if j < k {
            if j + 1 < k {
                lemma_starts_ordered(bytes, stops, j + 1, k);
            }
        } else if k < j {
            if k + 1 < j {
                lemma_starts_ordered(bytes, stops, k + 1, j);
            }
        }
    }
    k
}

/// Every run is the token of some extraction: the extraction that the lemma
/// returns starts where the run starts, and its token ends where the run
/// ends.
pub proof fn lemma_run_is_token(bytes: Seq<u8>, stops: Seq<u8>, first: int, end: int) -> (k: nat)
    requires
        is_run(bytes, stops, first, end),
    ensures
        start_of(bytes, stops, k) == first,
        token_end(bytes, first, stops) == end,
        nth_token(bytes, stops, k) == bytes.subrange(first, end),
{
    lemma_token_end(bytes, first, stops);
    assert(ends_token(bytes, first, stops, end));
    if first == 0 {
        0
    } else {
        let before = lemma_consumed_once(bytes, stops, first - 1);
        let start = start_of(bytes, stops, before);
        lemma_start_in_bounds(bytes, stops, before);
        lemma_token_end(bytes, start, stops);
        before + 1
    }
}

} // verus!
