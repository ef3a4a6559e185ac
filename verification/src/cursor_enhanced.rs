//! The typed view of a cursor: seeks take typed keys and position the
//! cursor by their encodings, reads hand back decoded keys and values.

use core::marker::PhantomData;

use vstd::prelude::*;

use crate::coder::Coder;
use crate::cursor::{cursor_at_lower_bound, cursor_at_upper_bound, NormalCursor};
use crate::entries::entries_view;
use crate::error::Error;

verus! {

/// A cursor together with a coder for its keys and values.
pub struct CursorEnhanced<K: DeepView, V: DeepView, C: Coder<K, V>> {
    pub raw: NormalCursor,
    pub phantom: PhantomData<(K, V, C)>,
}

impl<K: DeepView, V: DeepView, C: Coder<K, V>> CursorEnhanced<K, V, C> {
    pub fn new(raw: NormalCursor) -> (r: CursorEnhanced<K, V, C>)
        ensures
            r.raw == raw,
    {
        CursorEnhanced { raw, phantom: PhantomData }
    }

    pub fn is_valid(&self) -> (r: bool)
        ensures
            r == self.raw.spec_valid(),
    {
        self.raw.is_valid()
    }

    pub fn status(&self) -> (r: Result<(), Error>)
        ensures
            r is Ok,
    {
        self.raw.status()
    }

    /// Moves to the table's first record.
    pub fn seek_to_first(&mut self)
        requires
            old(self).raw.wf(),
        ensures
            final(self).raw.wf(),
            final(self).raw.items == old(self).raw.items,
            final(self).raw.pos == 0,
    {
        self.raw.seek_to_first()
    }

    /// Moves to the table's last record; invalid if the table is empty.
    pub fn seek_to_last(&mut self)
        requires
            old(self).raw.wf(),
        ensures
            final(self).raw.wf(),
            final(self).raw.items == old(self).raw.items,
            old(self).raw.items@.len() == 0 ==> !final(self).raw.spec_valid(),
            old(self).raw.items@.len() > 0 ==> final(self).raw.pos
                == old(self).raw.items@.len() - 1,
    {
        self.raw.seek_to_last()
    }

    /// Moves to the first record whose key is at or after the encoding
    /// of `key`; invalid if there is none.
    pub fn seek(&mut self, key: &K)
        requires
            old(self).raw.wf(),
        ensures
            final(self).raw.wf(),
            final(self).raw.items == old(self).raw.items,
            cursor_at_lower_bound(
                entries_view(final(self).raw.items@),
                C::spec_encode_key(key.deep_view()),
                final(self).raw.pos as int,
            ),
    {
        let ek = C::encode_key(key);
        self.raw.seek(ek.as_slice())
    }

    /// Moves to the last record whose key is at or before the encoding
    /// of `key`; invalid if there is none.
    pub fn seek_for_prev(&mut self, key: &K)
        requires
            old(self).raw.wf(),
        ensures
            final(self).raw.wf(),
            final(self).raw.items == old(self).raw.items,
            cursor_at_upper_bound(
                entries_view(final(self).raw.items@),
                C::spec_encode_key(key.deep_view()),
                final(self).raw.pos as int,
                final(self).raw.items@.len() as int,
            ),
    {
        let ek = C::encode_key(key);
        self.raw.seek_for_prev(ek.as_slice())
    }

    /// Steps to the next record; past the last it becomes invalid.
    pub fn next(&mut self)
        requires
            old(self).raw.wf(),
        ensures
            final(self).raw.wf(),
            final(self).raw.items == old(self).raw.items,
            old(self).raw.spec_valid() ==> final(self).raw.pos == old(self).raw.pos + 1,
            !old(self).raw.spec_valid() ==> !final(self).raw.spec_valid(),
    {
        self.raw.next()
    }

    /// Steps to the previous record; before the first it becomes
    /// invalid.
    pub fn prev(&mut self)
        requires
            old(self).raw.wf(),
        ensures
            final(self).raw.wf(),
            final(self).raw.items == old(self).raw.items,
            old(self).raw.spec_valid() && old(self).raw.pos > 0 ==> final(self).raw.pos
                == old(self).raw.pos - 1,
            (!old(self).raw.spec_valid() || old(self).raw.pos == 0)
                ==> !final(self).raw.spec_valid(),
    {
        self.raw.prev()
    }

    /// The key the cursor stands on, decoded.
    pub fn key(&self) -> (r: Option<K>)
        requires
            self.raw.wf(),
        ensures
            match r {
                Some(k) => self.raw.spec_valid() && k.deep_view() == C::spec_decode_key(
                    entries_view(self.raw.items@)[self.raw.pos as int].0,
                ),
                None => !self.raw.spec_valid(),
            },
    {
        match self.raw.key() {
            Some(k) => Some(C::decode_key(k.as_slice())),
            None => None,
        }
    }

    /// The value the cursor stands on, decoded.
    pub fn value(&self) -> (r: Option<V>)
        requires
            self.raw.wf(),
        ensures
            match r {
                Some(v) => self.raw.spec_valid() && v.deep_view() == C::spec_decode_value(
                    entries_view(self.raw.items@)[self.raw.pos as int].1,
                ),
                None => !self.raw.spec_valid(),
            },
    {
        match self.raw.value() {
            Some(v) => Some(C::decode_value(v.as_slice())),
            None => None,
        }
    }
}

} // verus!
