use vstd::prelude::*;

use crate::error::Error;
use crate::format::{same_data, EncodedData};

use std::collections::HashMap;

verus! {

/// The header and body of a message, as plain bytes.
pub type MessageView = (Seq<u8>, Seq<u8>);

/// The dictionary recorded under `id`, if any.
pub open spec fn find(entries: Map<i64, MessageView>, id: i64) -> Option<MessageView> {
    if entries.contains_key(id) {
        Some(entries[id])
    } else {
        None
    }
}

/// Whether the dictionary `d` may be recorded under `id`: it is new, it is
/// the same as before, or replacement is allowed.
pub open spec fn admits(
    entries: Map<i64, MessageView>,
    cannot_replace: bool,
    id: i64,
    d: MessageView,
) -> bool {
    match find(entries, id) {
        Some(prev) => prev == d || !cannot_replace,
        None => true,
    }
}

/// Whether `d` differs from what is recorded under `id` and so must be written.
pub open spec fn is_new(entries: Map<i64, MessageView>, id: i64, d: MessageView) -> bool {
    find(entries, id) != Some(d)
}

/// The dictionaries written so far, by id.
pub struct DictionaryTracker {
    dictionaries: HashMap<i64, EncodedData>,
    cannot_replace: bool,
}

impl DictionaryTracker {
    /// What has been recorded, by id.
    pub closed spec fn entries(&self) -> Map<i64, MessageView> {
        self.dictionaries@.map_values(|e: EncodedData| e@)
    }

    pub closed spec fn spec_cannot_replace(&self) -> bool {
        self.cannot_replace
    }

    /// An empty tracker; with `cannot_replace`, an id keeps its first dictionary.
    pub fn new(cannot_replace: bool) -> (r: Self)
        ensures
            r.entries() == Map::<i64, MessageView>::empty(),
            r.spec_cannot_replace() == cannot_replace,
    {
        let r = DictionaryTracker { dictionaries: HashMap::new(), cannot_replace };
        assert(r.entries() =~= Map::<i64, MessageView>::empty());
        r
    }

    /// Records `data` under `id`. Returns whether it must be written, or an
    /// error where it would replace another dictionary that may not be replaced.
    pub fn insert(&mut self, id: i64, data: EncodedData) -> (r: Result<bool, Error>)
        ensures
            final(self).spec_cannot_replace() == old(self).spec_cannot_replace(),
            r is Err <==> !admits(old(self).entries(), old(self).spec_cannot_replace(), id, data@),
            r is Err ==> r == Err::<bool, Error>(Error::InvalidArgumentError(r->Err_0->InvalidArgumentError_0)),
            r is Err ==> final(self).entries() == old(self).entries(),
            r matches Ok(b) ==> b == is_new(old(self).entries(), id, data@),
            r matches Ok(b) ==> final(self).entries() == if b {
                old(self).entries().insert(id, data@)
            } else {
                old(self).entries()
            },
    {
        broadcast use vstd::std_specs::hash::group_hash_axioms;

        match self.dictionaries.get(&id) {
            Some(prev) => {
                if same_data(prev, &data) {
                    return Ok(false);
                } else if self.cannot_replace {
                    return Err(
                        Error::InvalidArgumentError(
                            "Dictionary replacement detected when writing IPC file format. Arrow IPC files only support a single dictionary for a given field across all batches.".to_string(),
                        ),
                    );
                }
            },
            None => {},
        }
        self.dictionaries.insert(id, data);
        proof {
            assert(self.entries() =~= old(self).entries().insert(id, data@));
        }
        Ok(true)
    }
}

} // verus!
