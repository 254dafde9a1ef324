//! Where byte values go while a message is encoded, and come from while it is decoded.

use bytes::Bytes;
use vstd::prelude::*;

use crate::octets;
use crate::virtq::buffer;
use crate::virtq::Segments;

verus! {

/// A sink or a source refused a byte value.
#[derive(Debug, Clone, Copy, PartialEq, Eq, Structural)]
pub struct ExternalError;

/// Collects byte values in order while a message is encoded.
pub trait ExternalValueSink<'a> {
    /// What the sink has collected.
    type State;

    closed spec fn state(&self) -> Self::State {
        arbitrary()
    }

    /// What the sink holds after one more value, given as its chunks, or `None` where it
    /// refuses the value.
    closed spec fn offer(state: Self::State, value: Seq<Seq<u8>>, chunked: bool) -> Option<Self::State> {
        arbitrary()
    }

    /// Collect one contiguous value. One that is refused is not kept.
    fn push_bytes(&mut self, value: &'a [u8]) -> (pushed: Result<(), ExternalError>)
        ensures
            match Self::offer(old(self).state(), seq![value@], false) {
                Some(next) => pushed is Ok && final(self).state() == next,
                None => pushed is Err && final(self).state() == old(self).state(),
            },
    ;

    /// Collect one value given as chunks. One that is refused is not kept.
    fn push_chunks(&mut self, value: &'a [Bytes]) -> (pushed: Result<(), ExternalError>)
        ensures
            match Self::offer(old(self).state(), octets::all_octets(value@), true) {
                Some(next) => pushed is Ok && final(self).state() == next,
                None => pushed is Err && final(self).state() == old(self).state(),
            },
    ;
}

/// Hands out byte values in order while a message is decoded.
pub trait ExternalValueSource {
    /// What the source has left.
    type State;

    closed spec fn state(&self) -> Self::State {
        arbitrary()
    }

    closed spec fn valid(&self) -> bool {
        arbitrary()
    }

    /// The next value and what is left behind it, or `None` where the source has no such
    /// value.
    closed spec fn serve(state: Self::State, length: nat, chunked: bool) -> Option<
        (Seq<u8>, Self::State),
    > {
        arbitrary()
    }

    /// Every value was handed out.
    closed spec fn finished(state: Self::State) -> bool {
        arbitrary()
    }

    /// Take a contiguous value.
    fn take_bytes(&mut self, length: usize) -> (value: Result<Vec<u8>, ExternalError>)
        requires
            old(self).valid(),
        ensures
            final(self).valid(),
            match Self::serve(old(self).state(), length as nat, false) {
                Some((bytes, next)) => value is Ok && value->Ok_0@ == bytes && final(self).state()
                    == next,
                None => value is Err,
            },
    ;

    /// Take a value as chunks. Where chunks end is up to the source.
    fn take_chunks(&mut self, length: usize) -> (value: Result<Vec<Bytes>, ExternalError>)
        requires
            old(self).valid(),
        ensures
            final(self).valid(),
            match Self::serve(old(self).state(), length as nat, true) {
                Some((bytes, next)) => value is Ok && octets::all_octets(value->Ok_0@).flatten()
                    == bytes && final(self).state() == next,
                None => value is Err,
            },
    ;

    /// Check that no value is left.
    fn finish(&mut self) -> (done: Result<(), ExternalError>)
        requires
            old(self).valid(),
        ensures
            final(self).valid(),
            final(self).state() == old(self).state(),
            done is Ok <==> Self::finished(old(self).state()),
    ;
}

/// A payload hands out its bytes from the front.
impl ExternalValueSource for Segments {
    type State = Seq<u8>;

    open spec fn state(&self) -> Seq<u8> {
        self.payload()
    }

    open spec fn valid(&self) -> bool {
        self.wf()
    }

    open spec fn serve(state: Seq<u8>, length: nat, chunked: bool) -> Option<(Seq<u8>, Seq<u8>)> {
        if length <= state.len() {
            Some((state.take(length as int), state.skip(length as int)))
        } else {
            None
        }
    }

    open spec fn finished(state: Seq<u8>) -> bool {
        state.len() == 0
    }

    fn take_bytes(&mut self, length: usize) -> (value: Result<Vec<u8>, ExternalError>) {
        proof {
            buffer::law_split_partitions_payload(self@, length as int);
        }
        match self.split_to(length) {
            Some(prefix) => Ok(prefix.to_vec()),
            None => Err(ExternalError),
        }
    }

    fn take_chunks(&mut self, length: usize) -> (value: Result<Vec<Bytes>, ExternalError>) {
        proof {
            buffer::law_split_partitions_payload(self@, length as int);
        }
        match self.split_to(length) {
            Some(prefix) => Ok(prefix.into_chunks()),
            None => Err(ExternalError),
        }
    }

    fn finish(&mut self) -> (done: Result<(), ExternalError>) {
        if self.is_empty() {
            Ok(())
        } else {
            Err(ExternalError)
        }
    }
}

} // verus!
