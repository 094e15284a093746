use vstd::prelude::*;

use crate::error::Error;
use crate::flatbuf::{clone_schema, footer_bytes, footer_of, schema_message, schema_message_of};
use crate::format::{
    append_bytes, append_zeros, body_len, checked_body_len, checked_meta_len, continuation,
    file_header, frame, frameable, le32_value, lemma_trailer_locates_footer, magic, pad8, trailer,
    write_continuation, write_message, write_trailer, EncodedData, ARROW_MAGIC, METADATA_VERSION, MAX_I32, MAX_I64,
};
use crate::layout::{
    block_at, blocks_from, fits, framed, frames, lemma_fits_prefix, lemma_frames_len, lemma_push,
    lemma_track_refuses, track,
};
use crate::ledger::{Block, BlockLedger};
use crate::tracker::{DictionaryTracker, MessageView};

verus! {

/// Where a writer stands in its life.
#[derive(Clone, Copy, Debug, PartialEq, Eq, Structural)]
pub enum State {
    /// Made, nothing written yet.
    Unstarted,
    /// The header and schema are written; batches may follow.
    Started,
    /// The footer is written; nothing more may be.
    Finished,
}

/// One encoded dictionary, with the id under which it is tracked.
pub struct EncodedDictionary {
    /// The dictionary's id.
    pub dict_id: i64,
    /// The dictionary message.
    pub data: EncodedData,
}

impl View for EncodedDictionary {
    type V = (i64, MessageView);

    open spec fn view(&self) -> (i64, MessageView) {
        (self.dict_id, self.data@)
    }
}

/// The views of a list of dictionaries.
pub open spec fn dictionary_views(ds: Seq<EncodedDictionary>) -> Seq<(i64, MessageView)> {
    ds.map_values(|d: EncodedDictionary| d@)
}

/// The buffer holds what follows the bytes taken out of it.
pub proof fn lemma_output_is_taken_then_buffered(w: &FileWriter)
    ensures
        w.output() == w.taken_out() + w.buffered(),
{
}

/// Until the footer, the ledger's offset is the number of bytes in the file,
/// so every block offset is a position in the file.
pub proof fn lemma_offset_is_file_len(w: &FileWriter)
    requires
        w.wf(),
        w.spec_state() != State::Finished,
    ensures
        w.offset() == w.file().len(),
{
}

/// Once started, a file opens with the magic marker and two zero bytes.
pub proof fn lemma_started_file_begins_with_header(w: &FileWriter)
    requires
        w.wf(),
        w.spec_state() != State::Unstarted,
    ensures
        w.file().len() >= 8,
        w.file().subrange(0, 6) == magic(),
        w.file()[6] == 0u8,
        w.file()[7] == 0u8,
{
    assert(w.file().subrange(0, 8) == file_header());
    assert(w.file().subrange(0, 6) =~= file_header().subrange(0, 6));
    assert(file_header().subrange(0, 6) =~= magic());
    assert(w.file()[6] == file_header()[6]);
    assert(w.file()[7] == file_header()[7]);
}

/// A file as `finish` leaves it ends with the magic marker; the four bytes
/// before it give the length of the footer, which stands just before them,
/// after the empty continuation that ends the messages.
pub proof fn lemma_finished_file_locates_footer(before: Seq<u8>, footer: Seq<u8>)
    requires
        footer.len() <= MAX_I32,
    ensures
        ({
            let f = before + continuation(0) + trailer(footer);
            let n = f.len() as int;
            &&& n == before.len() + 8 + footer.len() + 10
            &&& f.subrange(n - 6, n) == magic()
            &&& le32_value(f.subrange(n - 10, n - 6)) == footer.len()
            &&& f.subrange(n - 10 - footer.len(), n - 10) == footer
            &&& f.subrange(before.len() as int, before.len() + 8 as int) == continuation(0)
        }),
{
    let f = before + continuation(0) + trailer(footer);
    let n = f.len() as int;
    let t = trailer(footer);
    let m = t.len() as int;
    lemma_trailer_locates_footer(footer);
    assert(f.subrange(n - 6, n) =~= t.subrange(m - 6, m));
    assert(f.subrange(n - 10, n - 6) =~= t.subrange(m - 10, m - 6));
    assert(f.subrange(n - 10 - footer.len(), n - 10) =~= t.subrange(0, m - 10));
    assert(f.subrange(before.len() as int, before.len() + 8 as int) =~= continuation(0));
}

/// The messages of the dictionaries at the positions `chosen`, in that order.
pub open spec fn chosen_views(ds: Seq<EncodedDictionary>, chosen: Seq<usize>) -> Seq<MessageView> {
    chosen.map_values(|j: usize| ds[j as int].data@)
}

/// Writes an Arrow IPC file into a byte buffer: `start` once, then `write`
/// any number of times, then `finish` once. The bytes can be taken out of the
/// buffer at any time, to be sent on.
pub struct FileWriter {
    writer: Vec<u8>,
    taken: Ghost<Seq<u8>>,
    base: Ghost<nat>,
    schema: arrow_format::ipc::Schema,
    schema_message: Vec<u8>,
    ledger: BlockLedger,
    state: State,
    dictionary_tracker: DictionaryTracker,
}

impl FileWriter {
    /// Every byte that went through the buffer: what it held before the
    /// writer was made, then the file written so far.
    pub closed spec fn output(&self) -> Seq<u8> {
        self.taken@ + self.writer@
    }

    /// The bytes already taken out of the buffer.
    pub closed spec fn taken_out(&self) -> Seq<u8> {
        self.taken@
    }

    /// The bytes still in the buffer, not yet taken out.
    pub closed spec fn buffered(&self) -> Seq<u8> {
        self.writer@
    }

    /// The bytes of the file written so far.
    pub closed spec fn file(&self) -> Seq<u8> {
        self.output().subrange(self.base@ as int, self.output().len() as int)
    }

    /// What the buffer held before the writer was made.
    pub closed spec fn prefix(&self) -> Seq<u8> {
        self.output().subrange(0, self.base@ as int)
    }

    /// The schema the file is written for.
    pub closed spec fn schema(&self) -> arrow_format::ipc::Schema {
        self.schema
    }

    pub closed spec fn spec_state(&self) -> State {
        self.state
    }

    /// The header bytes of the schema message that `start` writes.
    pub closed spec fn schema_header(&self) -> Seq<u8> {
        self.schema_message@
    }

    /// The byte count of the file that the ledger keeps.
    pub closed spec fn offset(&self) -> nat {
        self.ledger.spec_offset()
    }

    pub closed spec fn dictionaries(&self) -> Seq<Block> {
        self.ledger.dictionaries()
    }

    pub closed spec fn records(&self) -> Seq<Block> {
        self.ledger.records()
    }

    /// The dictionaries recorded by the tracker.
    pub closed spec fn tracker_entries(&self) -> Map<i64, MessageView> {
        self.dictionary_tracker.entries()
    }

    /// The writer's invariant: the ledger counts exactly the file's bytes
    /// until the footer, nothing precedes `start`, and the tracker keeps the
    /// first dictionary of each id.
    pub closed spec fn wf(&self) -> bool {
        &&& self.base@ <= self.output().len()
        &&& self.ledger.wf()
        &&& self.dictionary_tracker.spec_cannot_replace()
        &&& self.state != State::Finished ==> self.ledger.spec_offset() == self.file().len()
        &&& self.state != State::Unstarted ==> {
            &&& self.file().len() >= 8
            &&& self.file().subrange(0, 8) == file_header()
        }
        &&& self.state == State::Unstarted ==> {
            &&& self.file().len() == 0
            &&& self.ledger.dictionaries().len() == 0
            &&& self.ledger.records().len() == 0
        }
    }

    /// A writer that will write after what `writer` holds, for `schema`.
    pub fn new(writer: Vec<u8>, schema: arrow_format::ipc::Schema) -> (r: Self)
        ensures
            r.wf(),
            r.spec_state() == State::Unstarted,
            r.output() == writer@,
            r.buffered() == writer@,
            r.prefix() == writer@,
            r.file() == Seq::<u8>::empty(),
            r.dictionaries() == Seq::<Block>::empty(),
            r.records() == Seq::<Block>::empty(),
            r.tracker_entries() == Map::<i64, MessageView>::empty(),
            r.schema() == schema,
            r.schema_header() == schema_message_of(METADATA_VERSION, schema),
            r.offset() == 0,
    {
        let schema_message = schema_message(METADATA_VERSION, &schema);
        let base = Ghost(writer@.len());
        let r = FileWriter {
            writer,
            taken: Ghost(Seq::empty()),
            base,
            schema,
            schema_message,
            ledger: BlockLedger::new(),
            state: State::Unstarted,
            dictionary_tracker: DictionaryTracker::new(true),
        };
        assert(r.output() =~= writer@);
        assert(r.prefix() =~= writer@);
        assert(r.file() =~= Seq::<u8>::empty());
        r
    }

    /// Makes a writer for a copy of `schema` and starts the file.
    pub fn try_new(writer: Vec<u8>, schema: &arrow_format::ipc::Schema) -> (r: Result<Self, Error>)
        ensures
            r is Ok <==> fits(8, seq![(schema_message_of(METADATA_VERSION, *schema), Seq::<u8>::empty())]),
            r matches Ok(w) ==> {
                &&& w.wf()
                &&& w.spec_state() == State::Started
                &&& w.schema() == *schema
                &&& w.schema_header() == schema_message_of(METADATA_VERSION, *schema)
                &&& w.offset() == w.file().len()
                &&& w.tracker_entries() == Map::<i64, MessageView>::empty()
                &&& w.prefix() == writer@
                &&& w.file() == file_header() + frame(w.schema_header(), Seq::empty())
                &&& w.dictionaries() == Seq::<Block>::empty()
                &&& w.records() == Seq::<Block>::empty()
            },
            r is Err ==> r == Err::<Self, Error>(Error::Overflow),
    {
        let mut slf = Self::new(writer, clone_schema(schema));
        match slf.start() {
            Ok(()) => Ok(slf),
            Err(e) => Err(e),
        }
    }

    /// Gives back the buffer, with what it holds.
    pub fn into_inner(self) -> (r: Vec<u8>)
        ensures
            r@ == self.buffered(),
    {
        self.writer
    }

    /// Takes out the bytes in the buffer, leaving it empty; the writer goes
    /// on as before.
    pub fn take_output(&mut self) -> (r: Vec<u8>)
        requires
            old(self).wf(),
        ensures
            final(self).wf(),
            r@ == old(self).buffered(),
            final(self).buffered() == Seq::<u8>::empty(),
            final(self).taken_out() == old(self).taken_out() + old(self).buffered(),
            final(self).output() == old(self).output(),
            final(self).file() == old(self).file(),
            final(self).prefix() == old(self).prefix(),
            final(self).spec_state() == old(self).spec_state(),
            final(self).schema_header() == old(self).schema_header(),
            final(self).offset() == old(self).offset(),
            final(self).dictionaries() == old(self).dictionaries(),
            final(self).records() == old(self).records(),
            final(self).tracker_entries() == old(self).tracker_entries(),
    {
        let mut out: Vec<u8> = Vec::new();
        std::mem::swap(&mut out, &mut self.writer);
        self.taken = Ghost(self.taken@ + out@);
        proof {
            assert(self.output() =~= old(self).output());
        }
        out
    }

    /// The writer's state.
    pub fn state(&self) -> (r: State)
        ensures
            r == self.spec_state(),
    {
        self.state
    }

    /// The blocks of the dictionaries written since `start`.
    pub fn dictionary_blocks(&self) -> (r: &Vec<Block>)
        ensures
            r@ == self.dictionaries(),
    {
        self.ledger.dictionary_blocks()
    }

    /// The blocks of the record batches written since `start`.
    pub fn record_blocks(&self) -> (r: &Vec<Block>)
        ensures
            r@ == self.records(),
    {
        self.ledger.record_blocks()
    }

    /// The bytes in the buffer.
    pub fn output_bytes(&self) -> (r: &Vec<u8>)
        ensures
            r@ == self.buffered(),
    {
        &self.writer
    }

    /// Writes the magic marker, two bytes of padding and the schema message.
    /// Fails, writing nothing, unless the writer is unstarted.
    pub fn start(&mut self) -> (r: Result<(), Error>)
        requires
            old(self).wf(),
        ensures
            final(self).taken_out() == old(self).taken_out(),
            final(self).wf(),
            final(self).schema_header() == old(self).schema_header(),
            final(self).schema() == old(self).schema(),
            final(self).prefix() == old(self).prefix(),
            final(self).tracker_entries() == old(self).tracker_entries(),
            old(self).spec_state() != State::Unstarted ==> {
                &&& r == Err::<(), Error>(Error::OutOfSpec(r->Err_0->OutOfSpec_0))
                &&& *final(self) == *old(self)
            },
            old(self).spec_state() == State::Unstarted ==> {
                &&& r is Ok <==> fits(8, seq![(old(self).schema_header(), Seq::<u8>::empty())])
                &&& r is Err ==> r == Err::<(), Error>(Error::Overflow) && *final(self) == *old(self)
            },
            r is Ok ==> {
                &&& final(self).spec_state() == State::Started
                &&& final(self).file() == file_header() + frame(old(self).schema_header(), Seq::empty())
                &&& final(self).output() == old(self).output() + final(self).file()
                &&& final(self).offset() == final(self).file().len()
                &&& final(self).dictionaries() == Seq::<Block>::empty()
                &&& final(self).records() == Seq::<Block>::empty()
            },
    {
        if self.state != State::Unstarted {
            return Err(Error::OutOfSpec("The IPC file can only be started once".to_string()));
        }
        proof {
            let ms = seq![(self.schema_message@, Seq::<u8>::empty())];
            lemma_frames_len(ms);
            assert(ms.drop_last() =~= Seq::<MessageView>::empty());
            assert(ms.last() == (self.schema_message@, Seq::<u8>::empty()));
        }
        if checked_meta_len(self.schema_message.as_slice()).is_none() {
            return Err(Error::Overflow);
        }
        proof {
            let ms = seq![(self.schema_message@, Seq::<u8>::empty())];
            assert(pad8(0) == 0);
            assert(body_len(Seq::<u8>::empty()) == 0);
            assert(frameable(ms.last().0, ms.last().1));
            assert(fits(8, ms.drop_last()));
            assert(fits(8, ms));
        }
        let ghost old_out = self.writer@;
        append_bytes(&mut self.writer, ARROW_MAGIC.as_slice());
        append_zeros(&mut self.writer, 2);
        let empty: Vec<u8> = Vec::new();
        let (meta, data) = write_message(&mut self.writer, self.schema_message.as_slice(), empty.as_slice());
        self.ledger.advance(meta + data + 8);
        self.state = State::Started;
        proof {
            assert(ARROW_MAGIC@ =~= magic());
            assert(self.writer@ =~= old_out + (file_header() + frame(self.schema_message@, Seq::empty())));
            assert(self.file() =~= file_header() + frame(self.schema_message@, Seq::empty()));
            assert(self.file().subrange(0, 8) =~= file_header());
            assert(self.prefix() =~= old(self).prefix());
        }
        Ok(())
    }

    /// Writes the dictionaries of a batch that the tracker asks for, then
    /// the batch's record message, recording a block for each. Fails, writing
    /// nothing, unless the writer is started, or where a dictionary would
    /// replace an earlier one of the same id.
    pub fn write(&mut self, dictionaries: &Vec<EncodedDictionary>, record: &EncodedData) -> (r: Result<(), Error>)
        requires
            old(self).wf(),
        ensures
            final(self).taken_out() == old(self).taken_out(),
            final(self).wf(),
            final(self).spec_state() == old(self).spec_state(),
            final(self).prefix() == old(self).prefix(),
            final(self).schema_header() == old(self).schema_header(),
            final(self).schema() == old(self).schema(),
            final(self).spec_state() == State::Started ==> final(self).offset() == final(self).file().len(),
            old(self).spec_state() != State::Started ==> {
                &&& r == Err::<(), Error>(Error::OutOfSpec(r->Err_0->OutOfSpec_0))
                &&& *final(self) == *old(self)
            },
            old(self).spec_state() == State::Started ==> match track(
                old(self).tracker_entries(),
                true,
                dictionary_views(dictionaries@),
            ) {
                None => {
                    &&& r == Err::<(), Error>(Error::InvalidArgumentError(r->Err_0->InvalidArgumentError_0))
                    &&& final(self).output() == old(self).output()
                    &&& final(self).file() == old(self).file()
                    &&& final(self).offset() == old(self).offset()
                    &&& final(self).dictionaries() == old(self).dictionaries()
                    &&& final(self).records() == old(self).records()
                },
                Some(t) => {
                    &&& r is Ok <==> fits(old(self).offset() as int, t.1.push(record@))
                    &&& final(self).tracker_entries() == t.0
                    &&& r is Err ==> r == Err::<(), Error>(Error::Overflow)
                    &&& r is Err ==> exists|k: int|
                        0 <= k <= t.1.len() && {
                            &&& final(self).file() == old(self).file() + #[trigger] frames(t.1.take(k))
                            &&& final(self).dictionaries() == old(self).dictionaries() + blocks_from(
                                old(self).offset() as int,
                                t.1.take(k),
                            )
                            &&& final(self).records() == old(self).records()
                        }
                    &&& r is Ok ==> {
                        &&& final(self).file() == old(self).file() + frames(t.1) + framed(record@)
                        &&& final(self).output() == old(self).output() + frames(t.1) + framed(record@)
                        &&& final(self).dictionaries() == old(self).dictionaries() + blocks_from(
                            old(self).offset() as int,
                            t.1,
                        )
                        &&& final(self).records() == old(self).records().push(
                            block_at((old(self).offset() + frames(t.1).len()) as int, record@),
                        )
                        &&& final(self).tracker_entries() == t.0
                    }
                },
            },
    {
        if self.state != State::Started {
            return Err(
                Error::OutOfSpec(
                    "The IPC file must be started before it can be written to. Call `start` before `write`".to_string(),
                ),
            );
        }
        let ghost dv = dictionary_views(dictionaries@);
        let ghost e0 = self.tracker_entries();
        let mut chosen: Vec<usize> = Vec::new();
        let mut k: usize = 0;
        assert(dv.take(0) =~= Seq::<(i64, MessageView)>::empty());
        while k < dictionaries.len()
            invariant
                0 <= k <= dictionaries@.len(),
                dv == dictionary_views(dictionaries@),
                self.wf(),
                self.spec_state() == State::Started,
                self.writer@ == old(self).writer@,
                self.schema == old(self).schema,
                self.taken == old(self).taken,
                self.base == old(self).base,
                self.schema_message@ == old(self).schema_message@,
                self.ledger == old(self).ledger,
                old(self).spec_state() == State::Started,
                e0 == old(self).tracker_entries(),
                forall|j: int| 0 <= j < chosen@.len() ==> chosen@[j] < k,
                track(e0, true, dv.take(k as int)) == Some(
                    (
                        self.tracker_entries(),
                        chosen@.map_values(|j: usize| dv[j as int].1),
                    ),
                ),
            decreases dictionaries@.len() - k,
        {
            let d = &dictionaries[k];
            proof {
                assert(dv.take(k + 1).drop_last() =~= dv.take(k as int));
                assert(dv.take(k + 1).last() == d@);
            }
            match self.dictionary_tracker.insert(d.dict_id, d.data.duplicate()) {
                Err(e) => {
                    proof {
                        lemma_track_refuses(e0, true, dv, k + 1);
                    }
                    return Err(e);
                },
                Ok(fresh) => {
                    if fresh {
                        chosen.push(k);
                        proof {
                            let prev = chosen@.drop_last();
                            assert(chosen@.map_values(|j: usize| dv[j as int].1) =~= prev.map_values(
                                |j: usize| dv[j as int].1,
                            ).push(d@.1));
                        }
                    }
                },
            }
            k = k + 1;
        }
        assert(dv.take(k as int) =~= dv);
        assert(chosen@.map_values(|j: usize| dv[j as int].1) =~= chosen_views(dictionaries@, chosen@));
        self.emit_batch(dictionaries, &chosen, record)
    }

    /// Frames the dictionaries at the positions `chosen`, then the record.
    fn emit_batch(&mut self, dictionaries: &Vec<EncodedDictionary>, chosen: &Vec<usize>, record: &EncodedData) -> (r: Result<(), Error>)
        requires
            old(self).wf(),
            old(self).spec_state() == State::Started,
            forall|i: int| 0 <= i < chosen@.len() ==> chosen@[i] < dictionaries@.len(),
        ensures
            final(self).schema() == old(self).schema(),
            final(self).taken_out() == old(self).taken_out(),
            final(self).wf(),
            final(self).spec_state() == State::Started,
            final(self).prefix() == old(self).prefix(),
            final(self).schema_header() == old(self).schema_header(),
            final(self).tracker_entries() == old(self).tracker_entries(),
            ({
                let cv = chosen_views(dictionaries@, chosen@);
                &&& r is Ok <==> fits(old(self).offset() as int, cv.push(record@))
                &&& r is Err ==> r == Err::<(), Error>(Error::Overflow)
                &&& r is Err ==> exists|k: int|
                    0 <= k <= cv.len() && {
                        &&& final(self).file() == old(self).file() + #[trigger] frames(cv.take(k))
                        &&& final(self).dictionaries() == old(self).dictionaries() + blocks_from(
                            old(self).offset() as int,
                            cv.take(k),
                        )
                        &&& final(self).records() == old(self).records()
                    }
                &&& r is Ok ==> {
                    &&& final(self).file() == old(self).file() + frames(cv) + framed(record@)
                    &&& final(self).output() == old(self).output() + frames(cv) + framed(record@)
                    &&& final(self).dictionaries() == old(self).dictionaries() + blocks_from(
                        old(self).offset() as int,
                        cv,
                    )
                    &&& final(self).records() == old(self).records().push(
                        block_at((old(self).offset() + frames(cv).len()) as int, record@),
                    )
                }
            }),
    {
        let ghost cv = chosen_views(dictionaries@, chosen@);
        let ghost off0 = self.offset() as int;
        let ghost file0 = self.file();
        let ghost out0 = self.output();
        match self.emit_dictionaries(dictionaries, chosen) {
            Err(e) => {
                proof {
                    if fits(off0, cv.push(record@)) {
                        assert(cv.push(record@).take(cv.len() as int) =~= cv);
                        lemma_fits_prefix(off0, cv.push(record@), cv.len() as int);
                    }
                }
                return Err(e);
            },
            Ok(()) => {},
        }
        proof {
            lemma_push(off0, cv, record@);
        }
        let res = self.emit(record, false);
        proof {
            if res is Err {
                assert(cv.take(cv.len() as int) =~= cv);
                assert(self.file() == file0 + frames(cv.take(cv.len() as int)));
            }
            if res is Ok {
                assert(self.file() =~= file0 + frames(cv) + framed(record@));
                assert(self.output() =~= out0 + frames(cv) + framed(record@));
            }
        }
        res
    }

    /// Ends the message stream with an empty continuation, then writes the
    /// footer that indexes every block, its length and the magic marker.
    /// Fails, writing nothing, unless the writer is started.
    pub fn finish(&mut self) -> (r: Result<(), Error>)
        requires
            old(self).wf(),
        ensures
            final(self).taken_out() == old(self).taken_out(),
            final(self).wf(),
            final(self).prefix() == old(self).prefix(),
            old(self).spec_state() != State::Started ==> {
                &&& r == Err::<(), Error>(Error::OutOfSpec(r->Err_0->OutOfSpec_0))
                &&& *final(self) == *old(self)
            },
            old(self).spec_state() == State::Started ==> (r is Ok <==> footer_of(
                METADATA_VERSION,
                old(self).schema(),
                old(self).dictionaries(),
                old(self).records(),
            ).len() <= MAX_I32),
            old(self).spec_state() == State::Started && r is Err ==> {
                &&& r == Err::<(), Error>(Error::Overflow)
                &&& *final(self) == *old(self)
            },
            r is Ok ==> {
                let footer = footer_of(METADATA_VERSION, old(self).schema(), old(self).dictionaries(), old(self).records());
                &&& final(self).spec_state() == State::Finished
                &&& final(self).dictionaries() == Seq::<Block>::empty()
                &&& final(self).records() == Seq::<Block>::empty()
                &&& final(self).file() == old(self).file() + continuation(0) + trailer(footer)
                &&& final(self).output() == old(self).output() + continuation(0) + trailer(footer)
            },
    {
        if self.state != State::Started {
            return Err(
                Error::OutOfSpec(
                    "The IPC file must be started before it can be finished. Call `start` before `finish`".to_string(),
                ),
            );
        }
        let footer = footer_bytes(METADATA_VERSION, &self.schema, self.ledger.dictionary_blocks(), self.ledger.record_blocks());
        if footer.len() > MAX_I32 {
            return Err(Error::Overflow);
        }
        write_continuation(&mut self.writer, 0);
        write_trailer(&mut self.writer, footer.as_slice());
        let _ = self.ledger.take_all();
        self.state = State::Finished;
        proof {
            let f = footer@;
            assert(continuation(0).len() == 8);
            assert(self.file() =~= old(self).file() + continuation(0) + trailer(f));
            assert(self.file().subrange(0, 8) =~= old(self).file().subrange(0, 8));
            assert(self.output() =~= old(self).output() + continuation(0) + trailer(f));
            assert(trailer(f) =~= self.file().subrange((old(self).file().len() + 8) as int, self.file().len() as int));
            assert(self.prefix() =~= old(self).prefix());
        }
        Ok(())
    }

    /// Frames the dictionaries at the positions `chosen`, in that order.
    fn emit_dictionaries(&mut self, dictionaries: &Vec<EncodedDictionary>, chosen: &Vec<usize>) -> (r: Result<(), Error>)
        requires
            old(self).wf(),
            old(self).spec_state() == State::Started,
            forall|i: int| 0 <= i < chosen@.len() ==> chosen@[i] < dictionaries@.len(),
        ensures
            final(self).schema() == old(self).schema(),
            final(self).taken_out() == old(self).taken_out(),
            final(self).wf(),
            final(self).spec_state() == State::Started,
            final(self).prefix() == old(self).prefix(),
            final(self).schema_header() == old(self).schema_header(),
            final(self).tracker_entries() == old(self).tracker_entries(),
            r is Ok <==> fits(old(self).offset() as int, chosen_views(dictionaries@, chosen@)),
            r is Err ==> r == Err::<(), Error>(Error::Overflow),
            r is Err ==> exists|k: int|
                0 <= k <= chosen@.len() && {
                    &&& final(self).file() == old(self).file() + #[trigger] frames(
                        chosen_views(dictionaries@, chosen@).take(k),
                    )
                    &&& final(self).dictionaries() == old(self).dictionaries() + blocks_from(
                        old(self).offset() as int,
                        chosen_views(dictionaries@, chosen@).take(k),
                    )
                    &&& final(self).records() == old(self).records()
                },
            r is Ok ==> {
                let cv = chosen_views(dictionaries@, chosen@);
                &&& final(self).file() == old(self).file() + frames(cv)
                &&& final(self).output() == old(self).output() + frames(cv)
                &&& final(self).dictionaries() == old(self).dictionaries() + blocks_from(
                    old(self).offset() as int,
                    cv,
                )
                &&& final(self).records() == old(self).records()
            },
    {
        let ghost cv = chosen_views(dictionaries@, chosen@);
        let ghost off0 = self.offset() as int;
        let ghost file0 = self.file();
        let ghost out0 = self.output();
        let ghost d0 = self.dictionaries();
        let mut j: usize = 0;
        assert(cv.take(0) =~= Seq::<MessageView>::empty());
        assert(file0 + frames(Seq::<MessageView>::empty()) =~= file0);
        assert(out0 + frames(Seq::<MessageView>::empty()) =~= out0);
        assert(d0 + blocks_from(off0, Seq::<MessageView>::empty()) =~= d0);
        while j < chosen.len()
            invariant
                0 <= j <= chosen@.len(),
                cv == chosen_views(dictionaries@, chosen@),
                forall|i: int| 0 <= i < chosen@.len() ==> chosen@[i] < dictionaries@.len(),
                self.wf(),
                self.spec_state() == State::Started,
                self.prefix() == old(self).prefix(),
                self.schema_header() == old(self).schema_header(),
                self.tracker_entries() == old(self).tracker_entries(),
                fits(off0, cv.take(j as int)),
                self.file() == file0 + frames(cv.take(j as int)),
                self.output() == out0 + frames(cv.take(j as int)),
                self.dictionaries() == d0 + blocks_from(off0, cv.take(j as int)),
                self.records() == old(self).records(),
                self.schema() == old(self).schema(),
                self.taken_out() == old(self).taken_out(),
                self.offset() == off0 + frames(cv.take(j as int)).len(),
                off0 == old(self).offset(),
                file0 == old(self).file(),
                out0 == old(self).output(),
                d0 == old(self).dictionaries(),
            decreases chosen@.len() - j,
        {
            let idx = chosen[j];
            let ghost t = cv.take(j as int);
            proof {
                assert(cv.take(j + 1) =~= t.push(cv[j as int]));
                lemma_push(off0, t, cv[j as int]);
            }
            match self.emit(&dictionaries[idx].data, true) {
                Err(e) => {
                    proof {
                        if fits(off0, cv) {
                            lemma_fits_prefix(off0, cv, j + 1);
                        }
                        assert(self.file() == file0 + frames(cv.take(j as int)));
                    }
                    return Err(e);
                },
                Ok(()) => {},
            }
            j = j + 1;
            proof {
                assert(self.file() =~= file0 + frames(cv.take(j as int)));
                assert(self.output() =~= out0 + frames(cv.take(j as int)));
                assert(self.dictionaries() =~= d0 + blocks_from(off0, cv.take(j as int)));
            }
        }
        assert(cv.take(j as int) =~= cv);
        Ok(())
    }

    /// Frames `m` at the current offset and records its block among the
    /// dictionaries or the record batches.
    fn emit(&mut self, m: &EncodedData, dictionary: bool) -> (r: Result<(), Error>)
        requires
            old(self).wf(),
            old(self).spec_state() == State::Started,
        ensures
            final(self).schema() == old(self).schema(),
            final(self).taken_out() == old(self).taken_out(),
            final(self).wf(),
            final(self).spec_state() == State::Started,
            final(self).prefix() == old(self).prefix(),
            final(self).schema_header() == old(self).schema_header(),
            final(self).tracker_entries() == old(self).tracker_entries(),
            r is Ok <==> fits(old(self).offset() as int, seq![m@]),
            r is Err ==> r == Err::<(), Error>(Error::Overflow) && *final(self) == *old(self),
            r is Ok ==> {
                &&& final(self).file() == old(self).file() + framed(m@)
                &&& final(self).output() == old(self).output() + framed(m@)
                &&& dictionary ==> final(self).dictionaries() == old(self).dictionaries().push(
                    block_at(old(self).offset() as int, m@),
                )
                &&& dictionary ==> final(self).records() == old(self).records()
                &&& !dictionary ==> final(self).records() == old(self).records().push(
                    block_at(old(self).offset() as int, m@),
                )
                &&& !dictionary ==> final(self).dictionaries() == old(self).dictionaries()
            },
    {
        proof {
            lemma_push(0, Seq::<MessageView>::empty(), m@);
            lemma_frames_len(seq![m@]);
            assert(seq![m@].drop_last() =~= Seq::<MessageView>::empty());
            assert(seq![m@].last() == m@);
        }
        let off = self.ledger.record_offset();
        let meta = match checked_meta_len(m.ipc_message.as_slice()) {
            None => return Err(Error::Overflow),
            Some(n) => n,
        };
        let body = match checked_body_len(m.arrow_data.as_slice()) {
            None => return Err(Error::Overflow),
            Some(n) => n,
        };
        if meta > MAX_I64 - off || body > MAX_I64 - off - meta {
            return Err(Error::Overflow);
        }
        let (meta, body) = write_message(&mut self.writer, m.ipc_message.as_slice(), m.arrow_data.as_slice());
        let block = Block { offset: off as i64, meta_data_length: meta as i32, body_length: body as i64 };
        if dictionary {
            self.ledger.push_dictionary_block(block);
        } else {
            self.ledger.push_record_block(block);
        }
        self.ledger.advance(meta + body);
        proof {
            assert(framed(m@).len() == meta + body);
            assert(frameable(m@.0, m@.1));
            assert(fits(off as int, Seq::<MessageView>::empty()));
            assert(fits(off as int, seq![m@]));
            assert(self.file() =~= old(self).file() + framed(m@));
            assert(self.file().subrange(0, 8) =~= old(self).file().subrange(0, 8));
            assert(self.prefix() =~= old(self).prefix());
        }
        Ok(())
    }
}

} // verus!
