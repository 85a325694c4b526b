//! The reader: a stream of bytes from which tokens are extracted, one after
//! the other, into values of the caller's types.
use crate::cursor::{read_until, ByteCursor, CursorView};
use crate::error::ExtractError;
use crate::text::{convert, text_of};
use crate::token::{
    lemma_next_start, next_start, nth_token, start_of, stopped, token_at, DELIMITERS,
};
use std::str::FromStr;
use vstd::prelude::*;
use vstd::utf8::valid_utf8;

verus! {

/// What an `ExtReader` stands for: its stream, and the failure that stopped
/// it, if one did.
pub struct ReaderView {
    pub source: CursorView,
    pub failure: Option<ExtractError>,
}

impl ReaderView {
    /// The bytes of the token under the cursor: those from the cursor up to
    /// the next delimiter or the end of the stream.
    pub open spec fn token(self) -> Seq<u8> {
        token_at(self.source.bytes, self.source.position, DELIMITERS@)
    }

    /// The stream once the token under the cursor and the delimiter that ends
    /// it have been read.
    pub open spec fn advanced(self) -> CursorView {
        CursorView {
            bytes: self.source.bytes,
            position: next_start(self.source.bytes, self.source.position, DELIMITERS@),
        }
    }

    /// Whether a delimiter ends the token under the cursor, rather than the
    /// end of the stream.
    pub open spec fn delimited(self) -> bool {
        stopped(self.source.bytes, self.source.position, DELIMITERS@)
    }

    /// How many bytes an extraction reads: the bytes of the token under the
    /// cursor, and the delimiter that ends it, if one does.
    pub open spec fn consumed(self) -> int {
        self.token().len() + if self.delimited() {
            1int
        } else {
            0int
        }
    }

    /// The reader after one extraction. `accepted` says whether the
    /// destination type accepted the text of the token. A reader that has
    /// failed stays as it is. Any other reader moves past the token and its
    /// delimiter, and fails with `Encoding` if the token is not valid UTF-8,
    /// with `Parse` if its text was not accepted.
    pub open spec fn extracted(self, accepted: bool) -> ReaderView {
        if self.failure is Some {
            self
        } else {
            ReaderView {
                source: self.advanced(),
                failure: if !valid_utf8(self.token()) {
                    Some(ExtractError::Encoding)
                } else if accepted {
                    None
                } else {
                    Some(ExtractError::Parse)
                },
            }
        }
    }

    /// The reader after one extraction for each entry of `accepted`, made by
    /// one call after the other on the same reader.
    pub open spec fn after_calls(self, accepted: Seq<bool>) -> ReaderView
        decreases accepted.len(),
    {
        if accepted.len() == 0 {
            self
        } else {
            self.extracted(accepted.first()).after_calls(accepted.drop_first())
        }
    }

    /// The reader that a chain of extractions evaluates to, one link for
    /// each entry of `accepted`: the last link, applied to the reader that
    /// the chain before it evaluates to.
    pub open spec fn after_chain(self, accepted: Seq<bool>) -> ReaderView
        decreases accepted.len(),
    {
        if accepted.len() == 0 {
            self
        } else {
            self.after_chain(accepted.drop_last()).extracted(accepted.last())
        }
    }
}

/// Extracts tokens from a stream of bytes. The first extraction that fails
/// stops the reader: it keeps that failure, and every later extraction leaves
/// the reader and the destination as they are.
pub struct ExtReader {
    source: ByteCursor,
    failure: Option<ExtractError>,
}

impl View for ExtReader {
    type V = ReaderView;

    closed spec fn view(&self) -> ReaderView {
        ReaderView { source: self.source@, failure: self.failure }
    }
}

/// A source of tokens that can be asked for one value after the other in a
/// single expression.
pub trait Extractable {
    /// Takes the next token, converts it to a `T` and puts the value into
    /// `value`. Returns the reader itself, for the next extraction.
    fn extract<T: FromStr>(&mut self, value: &mut T) -> (reader: &mut Self) where
        Self: Sized,

        ensures
            *final(self) == *final(reader),
    ;
}

impl ExtReader {
    /// A reader at the front of `source`, with no failure.
    pub fn new(source: ByteCursor) -> (reader: ExtReader)
        ensures
            reader@.source == source@,
            reader@.failure is None,
    {
        ExtReader { source, failure: None }
    }

    /// How many bytes of the stream have been read.
    pub fn position(&self) -> (position: usize)
        ensures
            position == self@.source.position,
            self@.source.wf(),
    {
        self.source.position()
    }

    /// The failure that stopped the reader, if one did.
    pub fn failure(&self) -> (failure: Option<ExtractError>)
        ensures
            failure == self@.failure,
    {
        self.failure
    }

    /// Ends an extraction whose conversion gave `outcome`: a value goes into
    /// `value`, an error stops the reader and leaves `value` as it is.
    pub fn settle<T>(&mut self, value: &mut T, outcome: Result<T, ExtractError>)
        ensures
            final(self)@.source == old(self)@.source,
            match outcome {
                Ok(converted) => {
                    &&& *final(value) == converted
                    &&& final(self)@.failure == old(self)@.failure
                },
                Err(error) => {
                    &&& *final(value) == *old(value)
                    &&& final(self)@.failure == Some(error)
                },
            },
    {
        match outcome {
            Ok(converted) => {
                *value = converted;
            },
            Err(error) => {
                self.failure = Some(error);
            },
        }
    }

    /// The same as `extract`, for a reader that is handed on by value:
    /// `reader.shr(&mut a).shr(&mut b)`.
    pub fn shr<T: FromStr>(self, rhs: &mut T) -> (reader: ExtReader)
        ensures
            reader@ == self@.extracted(true) || reader@ == self@.extracted(false),
            reader@.failure is Some ==> *final(rhs) == *old(rhs),
            reader@.source.wf(),
            self@.failure is None ==> reader@.source.position == self@.source.position
                + self@.consumed(),
            self@.failure is None && !self@.source.at_end() ==> reader@.source.position
                > self@.source.position,
    {
        let mut reader = self;
        reader.extract(rhs);
        reader
    }
}

impl Extractable for ExtReader {
    /// Takes the token under the cursor, together with the delimiter that
    /// ends it, and converts its text to a `T`, which goes into `value`. A
    /// token that is not valid UTF-8, or whose text `T` does not accept,
    /// stops the reader with that failure and leaves `value` as it is; so
    /// does every extraction from a reader that has failed before.
    fn extract<T: FromStr>(&mut self, value: &mut T) -> (reader: &mut Self)
        ensures
            reader@ == old(self)@.extracted(true) || reader@ == old(self)@.extracted(false),
            reader@.failure is Some ==> *final(value) == *old(value),
            reader@.source.wf(),
            old(self)@.failure is None ==> reader@.source.position == old(self)@.source.position
                + old(self)@.consumed(),
            old(self)@.failure is None && !old(self)@.source.at_end() ==> reader@.source.position
                > old(self)@.source.position,
    {
        proof {
            use_type_invariant(&self.source);
        }
        if self.failure.is_none() {
            let mut buffer: Vec<u8> = Vec::new();
            read_until(&mut self.source, &DELIMITERS, &mut buffer);
            let outcome = convert::<T>(buffer);
            self.settle(value, outcome);
        }
        self
    }
}

/// An extraction from a reader that has not failed moves the cursor past
/// the token and past the delimiter that ends it, if one does: never back,
/// never past the end of the stream, and forward unless the cursor is at the
/// end of the stream. A reader that has failed stays where it is.
pub proof fn lemma_cursor_moves_on(reader: ReaderView, accepted: bool)
    requires
        reader.source.wf(),
    ensures
        reader.extracted(accepted).source.wf(),
        reader.extracted(accepted).source.bytes == reader.source.bytes,
        reader.failure is None ==> reader.extracted(accepted).source.position
            == reader.source.position + reader.consumed(),
        reader.failure is None && !reader.source.at_end() ==> reader.extracted(
            accepted,
        ).source.position > reader.source.position,
        reader.failure is Some ==> reader.extracted(accepted) == reader,
{
    lemma_next_start(reader.source.bytes, reader.source.position, DELIMITERS@);
}

/// At the end of the stream the token is empty, and so is the text that is
/// handed to the conversion. The extraction succeeds only if the destination
/// type accepts the empty text; if it does not, the reader fails with
/// `Parse`. Either way the cursor stays at the end.
pub proof fn lemma_extract_at_end(reader: ReaderView, accepted: bool)
    requires
        reader.source.wf(),
        reader.source.at_end(),
        reader.failure is None,
    ensures
        reader.token() == Seq::<u8>::empty(),
        valid_utf8(reader.token()),
        text_of(reader.token()) == Seq::<char>::empty(),
        reader.extracted(accepted).source == reader.source,
        reader.extracted(accepted).failure == if accepted {
            None
        } else {
            Some(ExtractError::Parse)
        },
{
    lemma_next_start(reader.source.bytes, reader.source.position, DELIMITERS@);
}

/// Calls made one after the other can be split anywhere: the calls for
/// `accepted` followed by one more call leave the reader as the calls for
/// `accepted.push(last)` do.
pub proof fn lemma_one_more_call(reader: ReaderView, accepted: Seq<bool>, last: bool)
    ensures
        reader.after_calls(accepted.push(last)) == reader.after_calls(accepted).extracted(last),
    decreases accepted.len(),
{
    let longer = accepted.push(last);
    if accepted.len() == 0 {
        assert(longer.drop_first() =~= accepted);
    } else {
        assert(longer.first() == accepted.first());
        assert(longer.drop_first() =~= accepted.drop_first().push(last));
        lemma_one_more_call(reader.extracted(accepted.first()), accepted.drop_first(), last);
    }
}

/// A chain of extractions and the same extractions made by one call after
/// the other leave the reader in the same state, and so does every part of
/// them from the first extraction on: each extraction finds the same token
/// under the cursor either way.
pub proof fn lemma_chain_is_calls(reader: ReaderView, accepted: Seq<bool>)
    ensures
        reader.after_chain(accepted) == reader.after_calls(accepted),
        forall|n: int|
            0 <= n <= accepted.len() ==> #[trigger] reader.after_chain(accepted.take(n))
                == reader.after_calls(accepted.take(n)),
    decreases accepted.len(),
{
    if accepted.len() > 0 {
        let before = accepted.drop_last();
        lemma_chain_is_calls(reader, before);
        lemma_one_more_call(reader, before, accepted.last());
        assert(before.push(accepted.last()) =~= accepted);
    }
    assert forall|n: int| 0 <= n <= accepted.len() implies #[trigger] reader.after_chain(
        accepted.take(n),
    ) == reader.after_calls(accepted.take(n)) by {
        if n == accepted.len() {
            assert(accepted.take(n) =~= accepted);
        } else {
            assert(accepted.take(n) =~= accepted.drop_last().take(n));
        }
    }
}

/// A reader that starts at the front of its stream and has not failed after
/// the extractions for `accepted` has walked the tokens of the stream in
/// order: extraction number `k` found token number `k` under the cursor, and
/// the cursor now stands where the next extraction starts.
pub proof fn lemma_reader_walks_tokens(reader: ReaderView, accepted: Seq<bool>)
    requires
        reader.source.wf(),
        reader.source.position == 0,
        reader.after_calls(accepted).failure is None,
    ensures
        reader.after_calls(accepted).source.bytes == reader.source.bytes,
        reader.after_calls(accepted).source.position == start_of(
            reader.source.bytes,
            DELIMITERS@,
            accepted.len(),
        ),
        forall|k: int|
            0 <= k < accepted.len() ==> (#[trigger] reader.after_calls(accepted.take(k))).token()
                == nth_token(reader.source.bytes, DELIMITERS@, k as nat),
    decreases accepted.len(),
{
    if accepted.len() > 0 {
        let before = accepted.drop_last();
        lemma_one_more_call(reader, before, accepted.last());
        assert(before.push(accepted.last()) =~= accepted);
        lemma_reader_walks_tokens(reader, before);
        assert forall|k: int| 0 <= k < accepted.len() implies (#[trigger] reader.after_calls(
            accepted.take(k),
        )).token() == nth_token(reader.source.bytes, DELIMITERS@, k as nat) by {
            if k < accepted.len() - 1 {
                assert(accepted.take(k) =~= before.take(k));
            }
        }
    }
}

} // verus!
